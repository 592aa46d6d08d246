use vstd::prelude::*;
use crate::crds::{valid_port, App, AppModel, ValidationError, KIND};
use crate::key::{KeyView, ReconcileKey};

verus! {

/// Back-reference from an owned workload to the primary resource that owns it.
pub struct OwnerMarker {
    pub kind: String,
    pub key: ReconcileKey,
    pub uid: String,
}

pub struct OwnerModel {
    pub kind: Seq<char>,
    pub key: KeyView,
    pub uid: Seq<char>,
}

impl View for OwnerMarker {
    type V = OwnerModel;

    open spec fn view(&self) -> OwnerModel {
        OwnerModel { kind: self.kind@, key: self.key@, uid: self.uid@ }
    }
}

/// The owned workload: the fields derived from the desired application, and
/// its owner marker.
pub struct Workload {
    pub image: String,
    pub port: u32,
    pub owner: OwnerMarker,
}

pub struct WorkloadModel {
    pub image: Seq<char>,
    pub port: u32,
    pub owner: OwnerModel,
}

impl View for Workload {
    type V = WorkloadModel;

    open spec fn view(&self) -> WorkloadModel {
        WorkloadModel { image: self.image@, port: self.port, owner: self.owner@ }
    }
}

/// The fields that an update changes; `None` leaves a field as it is.
pub struct WorkloadPatch {
    pub image: Option<String>,
    pub port: Option<u32>,
}

/// The write that brings the observed workload to the desired one.
pub enum WriteAction {
    NoWrite,
    Create(Workload),
    Update(WorkloadPatch),
}

pub enum ActionModel {
    NoWrite,
    Create(WorkloadModel),
    Update { image: Option<Seq<char>>, port: Option<u32> },
}

impl View for WriteAction {
    type V = ActionModel;

    open spec fn view(&self) -> ActionModel {
        match self {
            WriteAction::NoWrite => ActionModel::NoWrite,
            WriteAction::Create(w) => ActionModel::Create(w@),
            WriteAction::Update(p) => ActionModel::Update {
                image: match p.image {
                    Some(s) => Some(s@),
                    None => None,
                },
                port: p.port,
            },
        }
    }
}

pub open spec fn app_view(a: Option<&App>) -> Option<AppModel> {
    match a {
        Some(a) => Some(a@),
        None => None,
    }
}

pub open spec fn workload_view(w: Option<&Workload>) -> Option<WorkloadModel> {
    match w {
        Some(w) => Some(w@),
        None => None,
    }
}

pub open spec fn plan_view(r: Result<WriteAction, ValidationError>) -> Result<ActionModel, ValidationError> {
    match r {
        Ok(a) => Ok(a@),
        Err(e) => Err(e),
    }
}

/// The workload that the application `app`, with key `key`, asks for.
pub open spec fn desired_workload(key: KeyView, app: AppModel) -> WorkloadModel {
    WorkloadModel {
        image: app.spec.image,
        port: app.spec.port,
        owner: OwnerModel { kind: KIND@, key, uid: app.uid },
    }
}

/// The minimal write from `observed` to what `app` asks for.
pub open spec fn diff_spec(key: KeyView, app: AppModel, observed: Option<WorkloadModel>) -> ActionModel {
    match observed {
        None => ActionModel::Create(desired_workload(key, app)),
        Some(w) => if w.image == app.spec.image && w.port == app.spec.port {
            ActionModel::NoWrite
        } else {
            ActionModel::Update {
                image: if w.image == app.spec.image { None } else { Some(app.spec.image) },
                port: if w.port == app.spec.port { None } else { Some(app.spec.port) },
            }
        },
    }
}

/// What reconciling `key` decides: nothing when the primary is gone, an
/// error when its spec is invalid, else the minimal write.
pub open spec fn reconcile_spec(
    key: KeyView,
    primary: Option<AppModel>,
    observed: Option<WorkloadModel>,
) -> Result<ActionModel, ValidationError> {
    match primary {
        None => Ok(ActionModel::NoWrite),
        Some(app) => if valid_port(app.spec.port) {
            Ok(diff_spec(key, app, observed))
        } else {
            Err(ValidationError::PortOutOfRange)
        },
    }
}

/// The workload that the cluster holds once `action` has been written over `observed`.
pub open spec fn apply_spec(observed: Option<WorkloadModel>, action: ActionModel) -> Option<WorkloadModel> {
    match action {
        ActionModel::NoWrite => observed,
        ActionModel::Create(w) => Some(w),
        ActionModel::Update { image, port } => match observed {
            None => None,
            Some(o) => Some(
                WorkloadModel {
                    image: match image {
                        Some(i) => i,
                        None => o.image,
                    },
                    port: match port {
                        Some(p) => p,
                        None => o.port,
                    },
                    owner: o.owner,
                },
            ),
        },
    }
}

/// The workload that `app` asks for, owned by `key`.
pub fn desired_workload_of(key: &ReconcileKey, app: &App) -> (r: Workload)
    ensures
        r@ == desired_workload(key@, app@),
{
    Workload {
        image: app.spec.image.clone(),
        port: app.spec.port,
        owner: OwnerMarker { kind: KIND.to_owned(), key: key.duplicate(), uid: app.uid.clone() },
    }
}

/// Decides the write that converges the workload of `key` to its primary.
/// `primary` and `observed` are what the watch caches hold.
pub fn reconcile(key: &ReconcileKey, primary: Option<&App>, observed: Option<&Workload>) -> (r: Result<
    WriteAction,
    ValidationError,
>)
    ensures
        plan_view(r) == reconcile_spec(key@, app_view(primary), workload_view(observed)),
{
    match primary {
        None => Ok(WriteAction::NoWrite),
        Some(app) => {
            if app.spec.validate().is_err() {
                return Err(ValidationError::PortOutOfRange);
            }
            match observed {
                None => Ok(WriteAction::Create(desired_workload_of(key, app))),
                Some(w) => {
                    let same_image = w.image == app.spec.image;
                    let same_port = w.port == app.spec.port;
                    if same_image && same_port {
                        Ok(WriteAction::NoWrite)
                    } else {
                        let image = if same_image {
                            None
                        } else {
                            Some(app.spec.image.clone())
                        };
                        let port = if same_port {
                            None
                        } else {
                            Some(app.spec.port)
                        };
                        Ok(WriteAction::Update(WorkloadPatch { image, port }))
                    }
                },
            }
        },
    }
}

/// Reconciling a second time, once the first write has been applied and
/// nothing else changed, issues no write.
pub proof fn lemma_reconcile_idempotent(
    key: KeyView,
    primary: Option<AppModel>,
    observed: Option<WorkloadModel>,
)
    requires
        reconcile_spec(key, primary, observed) is Ok,
    ensures
        reconcile_spec(key, primary, apply_spec(observed, reconcile_spec(key, primary, observed)->Ok_0))
            == Ok::<ActionModel, ValidationError>(ActionModel::NoWrite),
{
}

/// After a successful reconcile whose write was applied, the workload's image
/// and port are those of the primary's spec.
pub proof fn lemma_reconcile_converges(key: KeyView, app: AppModel, observed: Option<WorkloadModel>)
    requires
        reconcile_spec(key, Some(app), observed) is Ok,
    ensures
        apply_spec(observed, reconcile_spec(key, Some(app), observed)->Ok_0) is Some,
        apply_spec(observed, reconcile_spec(key, Some(app), observed)->Ok_0)->Some_0.image
            == app.spec.image,
        apply_spec(observed, reconcile_spec(key, Some(app), observed)->Ok_0)->Some_0.port
            == app.spec.port,
{
}

} // verus!
