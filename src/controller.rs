use vstd::prelude::*;
use crate::cache::EventKind;
use crate::crds::ValidationError;
use crate::key::{KeyView, ReconcileKey};
use crate::ownership::{forget_spec as forget_owner_spec, record_spec, OwnershipIndex};
use crate::queue::{
    add_after_spec, done_spec, forget_spec, rate_limited_spec, saturating_sum, QueueModel,
    WorkQueue,
};
use crate::reconciler::{OwnerMarker, WriteAction};

verus! {

/// Delay before a key whose write met a concurrent change is tried again, in seconds.
pub const CONFLICT_RETRY_SECS: u64 = 1;

/// What came of issuing the planned write to the cluster.
#[derive(PartialEq, Eq, Structural, Debug, Clone, Copy)]
pub enum WriteOutcome {
    /// The write was applied, or there was nothing to write.
    Applied,
    /// Another writer changed the object concurrently.
    Conflict,
    /// The cluster could not be reached in time.
    Unreachable,
    /// The cluster refused the object as invalid.
    Rejected,
    /// The object's content could not be encoded or decoded.
    Malformed,
}

#[derive(PartialEq, Eq, Structural, Debug, Clone, Copy)]
pub enum FailureKind {
    Transient,
    Permanent,
}

/// What one reconciliation of a key came to; drives the queue.
#[derive(PartialEq, Eq, Structural, Debug, Clone, Copy)]
pub enum ReconcileResult {
    Converged,
    Requeue { after_secs: u64 },
    Failed(FailureKind),
}

pub open spec fn classify_spec(planned: bool, outcome: WriteOutcome) -> ReconcileResult {
    if !planned {
        ReconcileResult::Failed(FailureKind::Permanent)
    } else {
        match outcome {
            WriteOutcome::Applied => ReconcileResult::Converged,
            WriteOutcome::Conflict => ReconcileResult::Requeue { after_secs: CONFLICT_RETRY_SECS },
            WriteOutcome::Unreachable => ReconcileResult::Failed(FailureKind::Transient),
            WriteOutcome::Rejected => ReconcileResult::Failed(FailureKind::Permanent),
            WriteOutcome::Malformed => ReconcileResult::Failed(FailureKind::Permanent),
        }
    }
}

/// Classifies a reconciliation: an invalid spec fails for good; otherwise the
/// outcome of the write decides. A conflict is retried shortly, not counted as
/// a failure.
pub fn classify(plan: &Result<WriteAction, ValidationError>, outcome: WriteOutcome) -> (r:
    ReconcileResult)
    ensures
        r == classify_spec(plan is Ok, outcome),
{
    if plan.is_err() {
        return ReconcileResult::Failed(FailureKind::Permanent);
    }
    match outcome {
        WriteOutcome::Applied => ReconcileResult::Converged,
        WriteOutcome::Conflict => ReconcileResult::Requeue { after_secs: CONFLICT_RETRY_SECS },
        WriteOutcome::Unreachable => ReconcileResult::Failed(FailureKind::Transient),
        WriteOutcome::Rejected => ReconcileResult::Failed(FailureKind::Permanent),
        WriteOutcome::Malformed => ReconcileResult::Failed(FailureKind::Permanent),
    }
}

/// The queue after the result of reconciling `k` at time `now` is fed back,
/// before the key is marked done.
pub open spec fn feedback_spec(
    m: QueueModel,
    k: KeyView,
    result: ReconcileResult,
    now: u64,
    resync: Option<u64>,
) -> QueueModel {
    match result {
        ReconcileResult::Converged => match resync {
            None => forget_spec(m, k),
            Some(s) => add_after_spec(forget_spec(m, k), k, saturating_sum(now, s)),
        },
        ReconcileResult::Requeue { after_secs } => add_after_spec(m, k, saturating_sum(now, after_secs)),
        ReconcileResult::Failed(_) => rate_limited_spec(m, k, now),
    }
}

/// Feeds the result of reconciling `key` back into the queue, then marks the
/// key done: success clears its backoff (and schedules the periodic resync,
/// if any), a requeue is honoured, a failure is retried with backoff.
pub fn settle(
    queue: &mut WorkQueue,
    key: &ReconcileKey,
    result: ReconcileResult,
    now: u64,
    resync: Option<u64>,
)
    requires
        old(queue).wf(),
    ensures
        final(queue).wf(),
        final(queue)@ == done_spec(feedback_spec(old(queue)@, key@, result, now, resync), key@),
{
    match result {
        ReconcileResult::Converged => {
            queue.forget(key);
            match resync {
                None => {},
                Some(s) => {
                    queue.add_after(key.duplicate(), add_saturating(now, s));
                },
            }
        },
        ReconcileResult::Requeue { after_secs } => {
            queue.add_after(key.duplicate(), add_saturating(now, after_secs));
        },
        ReconcileResult::Failed(_) => {
            queue.add_rate_limited(key.duplicate(), now);
        },
    }
    queue.done(key);
}

fn add_saturating(a: u64, b: u64) -> (r: u64)
    ensures
        r == saturating_sum(a, b),
{
    if a <= u64::MAX - b {
        a + b
    } else {
        u64::MAX
    }
}

/// A change of a primary resource enqueues its key, ready now.
pub fn on_primary_event(queue: &mut WorkQueue, key: &ReconcileKey, now: u64)
    requires
        old(queue).wf(),
    ensures
        final(queue).wf(),
        final(queue)@ == add_after_spec(old(queue)@, key@, now),
{
    queue.add(key.duplicate(), now);
}

/// A change of an owned resource: the ownership index resolves its owner,
/// whose key is enqueued, ready now. A deletion drops the record and still
/// enqueues the owner once.
pub fn on_owned_event(
    index: &mut OwnershipIndex,
    queue: &mut WorkQueue,
    owned: &ReconcileKey,
    kind: EventKind,
    marker: Option<&OwnerMarker>,
    now: u64,
) -> (r: Option<ReconcileKey>)
    requires
        old(index).wf(),
        old(queue).wf(),
    ensures
        final(index).wf(),
        final(queue).wf(),
        ({
            let resolved = if kind == EventKind::Deleted {
                forget_owner_spec(old(index)@, owned@)
            } else {
                record_spec(
                    old(index)@,
                    owned@,
                    match marker {
                        Some(m) => Some(m@),
                        None => None,
                    },
                )
            };
            &&& final(index)@ == resolved.0
            &&& (match r {
                Some(k) => Some(k@),
                None => None,
            }) == resolved.1
            &&& final(queue)@ == match r {
                Some(k) => add_after_spec(old(queue)@, k@, now),
                None => old(queue)@,
            }
        }),
{
    let owner = if kind == EventKind::Deleted {
        index.forget(owned)
    } else {
        index.record_if_owned(owned, marker)
    };
    match owner {
        Some(k) => {
            queue.add(k.duplicate(), now);
            Some(k)
        },
        None => None,
    }
}

} // verus!
