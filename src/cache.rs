use vstd::prelude::*;
use crate::key::{KeyView, ReconcileKey};
use crate::table::KeyedTable;

verus! {

/// The kind of change that the cache emits.
#[derive(PartialEq, Eq, Structural, Debug, Clone, Copy)]
pub enum EventKind {
    Added,
    Modified,
    Deleted,
}

/// The state of a watch cache.
pub struct CacheModel<T> {
    /// The latest known object of each identity.
    pub objects: Map<KeyView, T>,
    /// The newest resource version seen of each identity, deleted ones included.
    pub versions: Map<KeyView, u64>,
}

/// Whether a notification at version `rv` for `k` is newer than all seen before.
pub open spec fn is_newer<T>(m: CacheModel<T>, k: KeyView, rv: u64) -> bool {
    !m.versions.contains_key(k) || m.versions[k] < rv
}

/// The cache after a notification that `k` is now `object` (`None`: deleted)
/// at version `rv`, and the event that it emits.
pub open spec fn observe_spec<T>(m: CacheModel<T>, k: KeyView, rv: u64, object: Option<T>) -> (
    CacheModel<T>,
    Option<EventKind>,
) {
    if !is_newer(m, k, rv) {
        (m, None)
    } else {
        match object {
            Some(o) => (
                CacheModel { objects: m.objects.insert(k, o), versions: m.versions.insert(k, rv) },
                Some(
                    if m.objects.contains_key(k) {
                        EventKind::Modified
                    } else {
                        EventKind::Added
                    },
                ),
            ),
            None => (
                CacheModel { objects: m.objects.remove(k), versions: m.versions.insert(k, rv) },
                if m.objects.contains_key(k) {
                    Some(EventKind::Deleted)
                } else {
                    None
                },
            ),
        }
    }
}

/// One object of a full listing, with its resource version.
pub struct Listed<T> {
    pub key: ReconcileKey,
    pub resource_version: u64,
    pub object: T,
}

/// A change that the cache emits.
pub struct ChangeEvent {
    pub kind: EventKind,
    pub key: ReconcileKey,
}

/// Whether the listing `s` holds an object of identity `k`.
pub open spec fn is_listed<T>(s: Seq<Listed<T>>, k: KeyView) -> bool {
    exists|i: int| 0 <= i < s.len() && s[i].key@ == k
}

/// The cache with every object that the listing `s` lacks dropped.
pub open spec fn prune_spec<T>(m: CacheModel<T>, s: Seq<Listed<T>>) -> CacheModel<T> {
    CacheModel {
        objects: Map::new(|k: KeyView| m.objects.contains_key(k) && is_listed(s, k), |k: KeyView| m.objects[k]),
        versions: m.versions,
    }
}

/// The cache after taking each listed object in order.
pub open spec fn observe_all<T>(m: CacheModel<T>, s: Seq<Listed<T>>) -> CacheModel<T>
    decreases s.len(),
{
    if s.len() == 0 {
        m
    } else {
        observe_spec(
            observe_all(m, s.drop_last()),
            s.last().key@,
            s.last().resource_version,
            Some(s.last().object),
        ).0
    }
}

/// An in-memory store of the latest known state of one watched kind, fed by
/// list and watch notifications.
pub struct WatchCache<T> {
    objects: KeyedTable<T>,
    versions: KeyedTable<u64>,
}

impl<T> View for WatchCache<T> {
    type V = CacheModel<T>;

    closed spec fn view(&self) -> CacheModel<T> {
        CacheModel { objects: self.objects.view(), versions: self.versions.view() }
    }
}

impl<T> WatchCache<T> {
    pub closed spec fn wf(&self) -> bool {
        self.objects.wf() && self.versions.wf()
    }

    pub fn new() -> (r: Self)
        ensures
            r.wf(),
            r@.objects == Map::<KeyView, T>::empty(),
            r@.versions == Map::<KeyView, u64>::empty(),
    {
        WatchCache { objects: KeyedTable::new(), versions: KeyedTable::new() }
    }

    /// Takes a notification that `key` is now `object` (`None`: deleted) at
    /// version `rv`. A notification no newer than one already taken for the
    /// same identity is dropped; otherwise the change is stored and emitted.
    pub fn observe(&mut self, key: ReconcileKey, rv: u64, object: Option<T>) -> (r: Option<EventKind>)
        requires
            old(self).wf(),
        ensures
            final(self).wf(),
            (final(self)@, r) == observe_spec(old(self)@, key@, rv, object),
    {
        let fresh = match self.versions.get(&key) {
            Some(last) => *last < rv,
            None => true,
        };
        if !fresh {
            return None;
        }
        let existed = self.objects.contains(&key);
        self.versions.insert(key.duplicate(), rv);
        match object {
            Some(o) => {
                self.objects.insert(key, o);
                if existed {
                    Some(EventKind::Modified)
                } else {
                    Some(EventKind::Added)
                }
            },
            None => {
                self.objects.remove(&key);
                if existed {
                    Some(EventKind::Deleted)
                } else {
                    None
                }
            },
        }
    }

    /// The latest known object of `key`.
    pub fn get(&self, key: &ReconcileKey) -> (r: Option<&T>)
        requires
            self.wf(),
        ensures
            match r {
                Some(o) => self@.objects.contains_key(key@) && *o == self@.objects[key@],
                None => !self@.objects.contains_key(key@),
            },
    {
        self.objects.get(key)
    }

    /// The newest resource version taken for `key`.
    pub fn version_of(&self, key: &ReconcileKey) -> (r: Option<u64>)
        requires
            self.wf(),
        ensures
            r == (if self@.versions.contains_key(key@) {
                Some(self@.versions[key@])
            } else {
                None::<u64>
            }),
    {
        match self.versions.get(key) {
            Some(v) => Some(*v),
            None => None,
        }
    }
}

/// The cache never goes back: once a version of an identity is taken, the
/// version it holds only grows, whatever notifications follow.
pub proof fn lemma_versions_monotone<T>(m: CacheModel<T>, k: KeyView, j: KeyView, rv: u64, object: Option<T>)
    requires
        m.versions.contains_key(j),
    ensures
        observe_spec(m, k, rv, object).0.versions.contains_key(j),
        m.versions[j] <= observe_spec(m, k, rv, object).0.versions[j],
{
}

impl<T> WatchCache<T> {
    fn listed(listing: &Vec<Listed<T>>, k: &ReconcileKey) -> (r: bool)
        ensures
            r == is_listed(listing@, k@),
    {
        let mut i: usize = 0;
        while i < listing.len()
            invariant
                i <= listing@.len(),
                forall|j: int| 0 <= j < i ==> listing@[j].key@ != k@,
            decreases listing@.len() - i,
        {
            if listing[i].key.same(k) {
                return true;
            }
            i = i + 1;
        }
        false
    }

    /// Re-seeds the cache from a full listing, after the watch ended: each
    /// cached object that the listing lacks is deleted, with a `Deleted`
    /// event, and each listed object is then taken as a notification.
    pub fn relist(&mut self, listing: Vec<Listed<T>>) -> (r: Vec<ChangeEvent>)
        requires
            old(self).wf(),
        ensures
            final(self).wf(),
            final(self)@ == observe_all(prune_spec(old(self)@, listing@), listing@),
            forall|k: KeyView|
                old(self)@.objects.contains_key(k) && !is_listed(listing@, k) ==> exists|i: int|
                    0 <= i < r@.len() && r@[i].key@ == k && r@[i].kind == EventKind::Deleted,
            forall|i: int|
                0 <= i < r@.len() ==> is_listed(listing@, #[trigger] r@[i].key@) || (
                r@[i].kind == EventKind::Deleted && old(self)@.objects.contains_key(r@[i].key@)),
    {
        let ghost orig = listing@;
        let ghost start = self@;
        let keys = self.objects.keys();
        let mut events: Vec<ChangeEvent> = Vec::new();
        let mut i: usize = 0;
        while i < keys.len()
            invariant
                self.wf(),
                i <= keys@.len(),
                listing@ == orig,
                self@.versions == start.versions,
                forall|k: KeyView|
                    #[trigger] start.objects.contains_key(k) <==> exists|j: int|
                        0 <= j < keys@.len() && keys@[j]@ == k,
                forall|k: KeyView|
                    #[trigger] self@.objects.contains_key(k) == (start.objects.contains_key(k) && (
                    is_listed(orig, k) || !exists|j: int| 0 <= j < i && keys@[j]@ == k)),
                forall|k: KeyView| #[trigger]
                    self@.objects.contains_key(k) ==> self@.objects[k] == start.objects[k],
                forall|e: int|
                    0 <= e < events@.len() ==> is_listed(orig, #[trigger] events@[e].key@) || (
                    events@[e].kind == EventKind::Deleted && start.objects.contains_key(events@[e].key@)),
                forall|j: int|
                    0 <= j < i && !is_listed(orig, #[trigger] keys@[j]@) ==> exists|e: int|
                        0 <= e < events@.len() && events@[e].key@ == keys@[j]@ && events@[e].kind
                            == EventKind::Deleted,
            decreases keys@.len() - i,
        {
            let ghost prev = self@;
            let ghost evp = events@;
            let k = &keys[i];
            if !Self::listed(&listing, k) {
                self.objects.remove(k);
                events.push(ChangeEvent { kind: EventKind::Deleted, key: k.duplicate() });
                proof {
                    assert(start.objects.contains_key(k@));
                    assert(events@[events@.len() - 1].key@ == k@);
                }
            }
            proof {
                assert forall|k2: KeyView| #[trigger] self@.objects.contains_key(k2) implies self@.objects[k2]
                    == start.objects[k2] by {
                    assert(prev.objects.contains_key(k2));
                    assert(self@.objects[k2] == prev.objects[k2]);
                }
                assert forall|j: int|
                    0 <= j < i + 1 && !is_listed(orig, #[trigger] keys@[j]@) implies exists|e: int|
                        0 <= e < events@.len() && events@[e].key@ == keys@[j]@ && events@[e].kind
                            == EventKind::Deleted by {
                    if j == i {
                        assert(events@[events@.len() - 1].key@ == keys@[j]@);
                    } else {
                        let e0 = choose|e: int|
                            0 <= e < evp.len() && evp[e].key@ == keys@[j]@ && evp[e].kind
                                == EventKind::Deleted;
                        assert(events@[e0] == evp[e0]);
                    }
                }
                assert forall|k2: KeyView|
                    #[trigger] self@.objects.contains_key(k2) == (start.objects.contains_key(k2) && (
                    is_listed(orig, k2) || !exists|j: int| 0 <= j < i + 1 && keys@[j]@ == k2)) by {
                    assert(prev.objects.contains_key(k2) == (start.objects.contains_key(k2) && (
                        is_listed(orig, k2) || !exists|j: int| 0 <= j < i && keys@[j]@ == k2)));
                    if keys@[i as int]@ == k2 {
                        assert(start.objects.contains_key(k2));
                        assert(0 <= i < i + 1 && keys@[i as int]@ == k2);
                        if !is_listed(orig, k2) {
                            assert(!self@.objects.contains_key(k2));
                        } else {
                            assert(self@.objects.contains_key(k2) == prev.objects.contains_key(k2));
                        }
                    } else {
                        assert(self@.objects.contains_key(k2) == prev.objects.contains_key(k2));
                        if exists|j: int| 0 <= j < i + 1 && keys@[j]@ == k2 {
                            let j0 = choose|j: int| 0 <= j < i + 1 && keys@[j]@ == k2;
                            assert(0 <= j0 < i && keys@[j0]@ == k2);
                        }
                        if exists|j: int| 0 <= j < i && keys@[j]@ == k2 {
                            let j0 = choose|j: int| 0 <= j < i && keys@[j]@ == k2;
                            assert(0 <= j0 < i + 1 && keys@[j0]@ == k2);
                        }
                    }
                }
            }
            i = i + 1;
        }
        proof {
            assert(self@ =~= prune_spec(start, orig)) by {
                assert forall|k: KeyView| #[trigger] self@.objects.contains_key(k) == prune_spec(start, orig).objects.contains_key(k) by {
                    if start.objects.contains_key(k) {
                        let j = choose|j: int| 0 <= j < keys@.len() && keys@[j]@ == k;
                        assert(0 <= j < i && keys@[j]@ == k);
                    }
                }
                assert(self@.objects =~= prune_spec(start, orig).objects);
            }
            assert forall|k: KeyView| start.objects.contains_key(k) && !is_listed(orig, k) implies exists|e: int|
                0 <= e < events@.len() && events@[e].key@ == k && events@[e].kind == EventKind::Deleted by {
                let j = choose|j: int| 0 <= j < keys@.len() && keys@[j]@ == k;
                assert(!is_listed(orig, keys@[j]@));
            }
        }
        let ghost pruned = self@;
        let mut listing = listing;
        let mut n: usize = 0;
        let total = listing.len();
        assert(orig.subrange(0, 0) =~= Seq::<Listed<T>>::empty());
        while listing.len() > 0
            invariant
                self.wf(),
                total == orig.len(),
                n <= total,
                listing@ == orig.subrange(n as int, total as int),
                self@ == observe_all(pruned, orig.subrange(0, n as int)),
                forall|k: KeyView|
                    start.objects.contains_key(k) && !is_listed(orig, k) ==> exists|e: int|
                        0 <= e < events@.len() && events@[e].key@ == k && events@[e].kind
                            == EventKind::Deleted,
                forall|e: int|
                    0 <= e < events@.len() ==> is_listed(orig, #[trigger] events@[e].key@) || (
                    events@[e].kind == EventKind::Deleted && start.objects.contains_key(events@[e].key@)),
            decreases listing@.len(),
        {
            let ghost ev0 = events@;
            let item = listing.remove(0);
            proof {
                assert(item == orig[n as int]);
                assert(orig.subrange(0, n + 1).drop_last() =~= orig.subrange(0, n as int));
                assert(orig.subrange(0, n + 1).last() == orig[n as int]);
                assert(listing@ =~= orig.subrange(n + 1, total as int));
            }
            let key = item.key.duplicate();
            let emitted = self.observe(item.key, item.resource_version, Some(item.object));
            match emitted {
                Some(kind) => {
                    events.push(ChangeEvent { kind, key });
                    proof {
                        assert(is_listed(orig, orig[n as int].key@));
                    }
                },
                None => {},
            }
            n = n + 1;
            proof {
                assert forall|k: KeyView|
                    start.objects.contains_key(k) && !is_listed(orig, k) implies exists|e: int|
                        0 <= e < events@.len() && events@[e].key@ == k && events@[e].kind
                            == EventKind::Deleted by {
                    let e0 = choose|e: int|
                        0 <= e < ev0.len() && ev0[e].key@ == k && ev0[e].kind == EventKind::Deleted;
                    assert(events@[e0] == ev0[e0]);
                }
            }
        }
        assert(orig.subrange(0, total as int) =~= orig);
        events
    }
}

} // verus!
