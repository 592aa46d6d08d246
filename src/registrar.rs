use vstd::prelude::*;
use crate::crds::{CRD_NAME, FIELD_MANAGER};

verus! {

/// Attempts at registering the resource type before startup gives up.
pub const MAX_REGISTRATION_ATTEMPTS: u32 = 5;

/// Fixed delay between two attempts at registering the resource type, in seconds.
pub const REGISTRATION_RETRY_SECS: u64 = 2;

/// How the resource type schema is applied: a server-side apply patch of the
/// named definition under a fixed field manager, never forced, so that a field
/// held by another manager is reported as a conflict.
pub struct ApplyRequest {
    pub resource_name: String,
    pub field_manager: String,
    pub force: bool,
    pub dry_run: bool,
}

/// The request that registers this operator's resource type.
pub fn registration_request() -> (r: ApplyRequest)
    ensures
        r.resource_name@ == CRD_NAME@,
        r.field_manager@ == FIELD_MANAGER@,
        !r.force,
        !r.dry_run,
{
    ApplyRequest {
        resource_name: CRD_NAME.to_owned(),
        field_manager: FIELD_MANAGER.to_owned(),
        force: false,
        dry_run: false,
    }
}

/// What came of one attempt at registering the resource type.
#[derive(PartialEq, Eq, Structural, Debug, Clone, Copy)]
pub enum RegistrationOutcome {
    Registered,
    /// The cluster could not be reached.
    Unreachable,
    /// Another field manager holds a field of the schema.
    Conflict,
    /// The cluster refused the schema.
    Refused,
}

/// What startup does next.
#[derive(PartialEq, Eq, Structural, Debug, Clone, Copy)]
pub enum RegistrationStep {
    /// The type exists: the controller may start.
    Start,
    /// Try again after the delay.
    RetryAfter { secs: u64 },
    /// Registration failed for good: startup stops.
    Fatal,
}

pub open spec fn registration_step_spec(attempt: u32, outcome: RegistrationOutcome) -> RegistrationStep {
    match outcome {
        RegistrationOutcome::Registered => RegistrationStep::Start,
        RegistrationOutcome::Unreachable => if attempt < MAX_REGISTRATION_ATTEMPTS {
            RegistrationStep::RetryAfter { secs: REGISTRATION_RETRY_SECS }
        } else {
            RegistrationStep::Fatal
        },
        _ => RegistrationStep::Fatal,
    }
}

/// Decides what follows attempt number `attempt` (counted from 1): only a
/// connectivity failure is retried, with a fixed delay, and only a bounded
/// number of times.
pub fn registration_step(attempt: u32, outcome: RegistrationOutcome) -> (r: RegistrationStep)
    ensures
        r == registration_step_spec(attempt, outcome),
{
    match outcome {
        RegistrationOutcome::Registered => RegistrationStep::Start,
        RegistrationOutcome::Unreachable => {
            if attempt < MAX_REGISTRATION_ATTEMPTS {
                RegistrationStep::RetryAfter { secs: REGISTRATION_RETRY_SECS }
            } else {
                RegistrationStep::Fatal
            }
        },
        RegistrationOutcome::Conflict => RegistrationStep::Fatal,
        RegistrationOutcome::Refused => RegistrationStep::Fatal,
    }
}

} // verus!
