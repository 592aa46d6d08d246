use vstd::prelude::*;

verus! {

/// API group of the application resource type.
pub const GROUP: &'static str = "keda.sh";

/// API version of the application resource type.
pub const VERSION: &'static str = "v1";

/// Kind of the application resource type.
pub const KIND: &'static str = "ScaledHTTPApp";

/// Name under which the resource type is registered: plural, then group.
pub const CRD_NAME: &'static str = "scaledhttpapps.keda.sh";

/// Field manager under which this operator applies its changes.
pub const FIELD_MANAGER: &'static str = "keda-http-operator";

/// The desired application: what the operator is asked to run.
pub struct AppSpec {
    pub name: String,
    pub image: String,
    pub port: u32,
}

/// The mathematical form of an [`AppSpec`].
pub struct AppSpecModel {
    pub name: Seq<char>,
    pub image: Seq<char>,
    pub port: u32,
}

impl View for AppSpec {
    type V = AppSpecModel;

    open spec fn view(&self) -> AppSpecModel {
        AppSpecModel { name: self.name@, image: self.image@, port: self.port }
    }
}

/// A port is valid when it lies in 1..=65535.
pub open spec fn valid_port(p: u32) -> bool {
    1 <= p <= 65535
}

/// Why a desired application cannot be turned into a workload.
#[derive(PartialEq, Eq, Structural, Debug, Clone, Copy)]
pub enum ValidationError {
    PortOutOfRange,
}

impl AppSpec {
    pub fn new(name: String, image: String, port: u32) -> (r: Self)
        ensures
            r@ == (AppSpecModel { name: name@, image: image@, port }),
    {
        AppSpec { name, image, port }
    }

    /// Checks the fields that a workload needs.
    pub fn validate(&self) -> (r: Result<(), ValidationError>)
        ensures
            r is Ok <==> valid_port(self.port),
            r is Err ==> r == Err::<(), ValidationError>(ValidationError::PortOutOfRange),
    {
        if 1 <= self.port && self.port <= 65535 {
            Ok(())
        } else {
            Err(ValidationError::PortOutOfRange)
        }
    }
}

/// A primary resource as the watch cache holds it: its unique id and its spec.
pub struct App {
    pub uid: String,
    pub spec: AppSpec,
}

pub struct AppModel {
    pub uid: Seq<char>,
    pub spec: AppSpecModel,
}

impl View for App {
    type V = AppModel;

    open spec fn view(&self) -> AppModel {
        AppModel { uid: self.uid@, spec: self.spec@ }
    }
}

impl App {
    pub fn new(uid: String, spec: AppSpec) -> (r: Self)
        ensures
            r@ == (AppModel { uid: uid@, spec: spec@ }),
    {
        App { uid, spec }
    }
}

} // verus!
