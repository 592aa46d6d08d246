use vstd::prelude::*;
use crate::crds::{valid_port, AppModel, ValidationError, KIND};
use crate::key::{KeyView, ReconcileKey};
use crate::reconciler::{
    desired_workload, reconcile_spec, ActionModel, OwnerMarker, OwnerModel,
};
use crate::table::KeyedTable;

verus! {

/// Whether an owner marker points at a primary resource of this operator's kind.
pub open spec fn recognized(marker: OwnerModel) -> bool {
    marker.kind == KIND@
}

/// The index after an owned resource `owned` with `marker` was added or
/// updated, and the owner key to enqueue.
pub open spec fn record_spec(
    index: Map<KeyView, KeyView>,
    owned: KeyView,
    marker: Option<OwnerModel>,
) -> (Map<KeyView, KeyView>, Option<KeyView>) {
    match marker {
        Some(m) => if recognized(m) {
            (index.insert(owned, m.key), Some(m.key))
        } else {
            (index, None)
        },
        None => (index, None),
    }
}

/// The index after the owned resource `owned` was deleted, and the owner key
/// to enqueue.
pub open spec fn forget_spec(index: Map<KeyView, KeyView>, owned: KeyView) -> (
    Map<KeyView, KeyView>,
    Option<KeyView>,
) {
    if index.contains_key(owned) {
        (index.remove(owned), Some(index[owned]))
    } else {
        (index, None)
    }
}

/// Maps each owned resource to the primary resource that owns it.
pub struct OwnershipIndex {
    owners: KeyedTable<ReconcileKey>,
}

impl View for OwnershipIndex {
    type V = Map<KeyView, KeyView>;

    closed spec fn view(&self) -> Map<KeyView, KeyView> {
        self.owners.view().map_values(|v: ReconcileKey| v@)
    }
}

impl OwnershipIndex {
    pub closed spec fn wf(&self) -> bool {
        self.owners.wf()
    }

    pub fn new() -> (r: Self)
        ensures
            r.wf(),
            r@ == Map::<KeyView, KeyView>::empty(),
    {
        let r = OwnershipIndex { owners: KeyedTable::new() };
        assert(r@ =~= Map::<KeyView, KeyView>::empty());
        r
    }

    /// On an added or updated owned resource: records its owner when the
    /// marker is of this operator's kind, and returns the owner key.
    pub fn record_if_owned(&mut self, owned: &ReconcileKey, marker: Option<&OwnerMarker>) -> (r:
        Option<ReconcileKey>)
        requires
            old(self).wf(),
        ensures
            final(self).wf(),
            final(self)@ == record_spec(
                old(self)@,
                owned@,
                match marker {
                    Some(m) => Some(m@),
                    None => None,
                },
            ).0,
            (match r {
                Some(k) => Some(k@),
                None => None,
            }) == record_spec(
                old(self)@,
                owned@,
                match marker {
                    Some(m) => Some(m@),
                    None => None,
                },
            ).1,
    {
        match marker {
            None => None,
            Some(m) => {
                let kind = KIND.to_owned();
                if m.kind == kind {
                    self.owners.insert(owned.duplicate(), m.key.duplicate());
                    assert(self@ =~= old(self)@.insert(owned@, m.key@));
                    Some(m.key.duplicate())
                } else {
                    None
                }
            },
        }
    }

    /// On a deleted owned resource: drops its record and returns its owner
    /// key, once.
    pub fn forget(&mut self, owned: &ReconcileKey) -> (r: Option<ReconcileKey>)
        requires
            old(self).wf(),
        ensures
            final(self).wf(),
            final(self)@ == forget_spec(old(self)@, owned@).0,
            (match r {
                Some(k) => Some(k@),
                None => None,
            }) == forget_spec(old(self)@, owned@).1,
    {
        let r = self.owners.remove(owned);
        assert(self@ =~= forget_spec(old(self)@, owned@).0);
        r
    }

    /// The owner recorded for `owned`, if any.
    pub fn owner_of(&self, owned: &ReconcileKey) -> (r: Option<ReconcileKey>)
        requires
            self.wf(),
        ensures
            (match r {
                Some(k) => Some(k@),
                None => None,
            }) == (if self@.contains_key(owned@) {
                Some(self@[owned@])
            } else {
                None::<KeyView>
            }),
    {
        match self.owners.get(owned) {
            Some(k) => Some(k.duplicate()),
            None => None,
        }
    }
}

/// Deleting the workload that reconciling `key` created makes the index emit
/// `key`, and reconciling `key` again creates a workload with the same spec.
pub proof fn lemma_self_healing(
    index: Map<KeyView, KeyView>,
    owned: KeyView,
    key: KeyView,
    app: AppModel,
)
    requires
        valid_port(app.spec.port),
    ensures
        reconcile_spec(key, Some(app), None) == Ok::<ActionModel, ValidationError>(
            ActionModel::Create(desired_workload(key, app)),
        ),
        record_spec(index, owned, Some(desired_workload(key, app).owner)).1 == Some(key),
        forget_spec(record_spec(index, owned, Some(desired_workload(key, app).owner)).0, owned).1
            == Some(key),
        !forget_spec(
            record_spec(index, owned, Some(desired_workload(key, app).owner)).0,
            owned,
        ).0.contains_key(owned),
{
}

} // verus!
