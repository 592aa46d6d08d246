use vstd::prelude::*;
use crate::backoff::{backoff_delay, backoff_spec};
use crate::key::{KeyView, ReconcileKey};
use crate::table::KeyedTable;

verus! {

/// The state of a work queue.
pub struct QueueModel {
    /// Keys waiting to be handed out, with the time before which they are not ready.
    pub pending: Map<KeyView, u64>,
    /// Keys handed out to a worker and not yet done.
    pub processing: Set<KeyView>,
    /// Keys added again while being processed, with their ready time.
    pub dirty: Map<KeyView, u64>,
    /// Consecutive failures recorded per key.
    pub failures: Map<KeyView, u32>,
    pub shutting_down: bool,
    pub base: u64,
    pub cap: u64,
}

/// A key is never both pending and processing, and only a processing key is dirty.
pub open spec fn model_wf(m: QueueModel) -> bool {
    &&& forall|k: KeyView| #[trigger] m.pending.contains_key(k) ==> !m.processing.contains(k)
    &&& forall|k: KeyView| #[trigger] m.dirty.contains_key(k) ==> m.processing.contains(k)
}

/// The ready time of `k` once it is added at `at` to `m`: the sooner one wins.
pub open spec fn earliest(m: Map<KeyView, u64>, k: KeyView, at: u64) -> u64 {
    if m.contains_key(k) && m[k] <= at {
        m[k]
    } else {
        at
    }
}

pub open spec fn add_after_spec(m: QueueModel, k: KeyView, at: u64) -> QueueModel {
    if m.shutting_down {
        m
    } else if m.processing.contains(k) {
        QueueModel { dirty: m.dirty.insert(k, earliest(m.dirty, k, at)), ..m }
    } else {
        QueueModel { pending: m.pending.insert(k, earliest(m.pending, k, at)), ..m }
    }
}

pub open spec fn take_spec(m: QueueModel, k: KeyView) -> QueueModel {
    QueueModel { pending: m.pending.remove(k), processing: m.processing.insert(k), ..m }
}

pub open spec fn done_spec(m: QueueModel, k: KeyView) -> QueueModel {
    QueueModel {
        processing: m.processing.remove(k),
        dirty: m.dirty.remove(k),
        pending: if m.dirty.contains_key(k) {
            m.pending.insert(k, m.dirty[k])
        } else {
            m.pending
        },
        ..m
    }
}

pub open spec fn forget_spec(m: QueueModel, k: KeyView) -> QueueModel {
    QueueModel { failures: m.failures.remove(k), ..m }
}

pub open spec fn failure_count(m: QueueModel, k: KeyView) -> nat {
    if m.failures.contains_key(k) {
        m.failures[k] as nat
    } else {
        0
    }
}

/// The delay that the next failure of `k` schedules.
pub open spec fn retry_delay(m: QueueModel, k: KeyView) -> nat {
    backoff_spec(m.base as nat, m.cap as nat, failure_count(m, k))
}

pub open spec fn saturating_sum(a: u64, b: u64) -> u64 {
    if a + b <= u64::MAX {
        (a + b) as u64
    } else {
        u64::MAX
    }
}

pub open spec fn rate_limited_spec(m: QueueModel, k: KeyView, now: u64) -> QueueModel {
    let f = failure_count(m, k);
    let m1 = QueueModel {
        failures: m.failures.insert(k, if f < u32::MAX { (f + 1) as u32 } else { u32::MAX }),
        ..m
    };
    add_after_spec(m1, k, saturating_sum(now, retry_delay(m, k) as u64))
}

proof fn lemma_add_after_wf(m: QueueModel, k: KeyView, at: u64)
    requires
        model_wf(m),
    ensures
        model_wf(add_after_spec(m, k, at)),
{
    let n = add_after_spec(m, k, at);
    assert forall|j: KeyView| #[trigger] n.pending.contains_key(j) implies !n.processing.contains(j) by {
        if j != k {
            assert(m.pending.contains_key(j));
        }
    }
    assert forall|j: KeyView| #[trigger] n.dirty.contains_key(j) implies n.processing.contains(j) by {
        if j != k {
            assert(m.dirty.contains_key(j));
        }
    }
}

proof fn lemma_take_wf(m: QueueModel, k: KeyView)
    requires
        model_wf(m),
        m.pending.contains_key(k),
    ensures
        model_wf(take_spec(m, k)),
{
    let n = take_spec(m, k);
    assert forall|j: KeyView| #[trigger] n.pending.contains_key(j) implies !n.processing.contains(j) by {
        assert(m.pending.contains_key(j));
    }
    assert forall|j: KeyView| #[trigger] n.dirty.contains_key(j) implies n.processing.contains(j) by {
        assert(m.dirty.contains_key(j));
    }
}

proof fn lemma_done_wf(m: QueueModel, k: KeyView)
    requires
        model_wf(m),
    ensures
        model_wf(done_spec(m, k)),
{
    let n = done_spec(m, k);
    assert forall|j: KeyView| #[trigger] n.pending.contains_key(j) implies !n.processing.contains(j) by {
        if j != k {
            assert(m.pending.contains_key(j));
        }
    }
    assert forall|j: KeyView| #[trigger] n.dirty.contains_key(j) implies n.processing.contains(j) by {
        assert(m.dirty.contains_key(j));
    }
}

proof fn lemma_failures_wf(m: QueueModel, f: Map<KeyView, u32>)
    requires
        model_wf(m),
    ensures
        model_wf(QueueModel { failures: f, ..m }),
        model_wf(QueueModel { shutting_down: true, ..m }),
{
    let n = QueueModel { failures: f, ..m };
    assert forall|j: KeyView| #[trigger] n.pending.contains_key(j) implies !n.processing.contains(j) by {
        assert(m.pending.contains_key(j));
    }
    assert forall|j: KeyView| #[trigger] n.dirty.contains_key(j) implies n.processing.contains(j) by {
        assert(m.dirty.contains_key(j));
    }
    let n2 = QueueModel { shutting_down: true, ..m };
    assert forall|j: KeyView| #[trigger] n2.pending.contains_key(j) implies !n2.processing.contains(j) by {
        assert(m.pending.contains_key(j));
    }
    assert forall|j: KeyView| #[trigger] n2.dirty.contains_key(j) implies n2.processing.contains(j) by {
        assert(m.dirty.contains_key(j));
    }
}

/// What `get` hands back.
pub enum Pop {
    /// A key to reconcile; it is now processing.
    Ready(ReconcileKey),
    /// Nothing is ready yet.
    Wait,
    /// The queue is shut down and nothing is in flight.
    Closed,
}

/// A deduplicating, delay-capable queue of reconcile keys with per-key backoff.
pub struct WorkQueue {
    pending: KeyedTable<u64>,
    processing: KeyedTable<u64>,
    dirty: KeyedTable<u64>,
    failures: KeyedTable<u32>,
    shutting_down: bool,
    base: u64,
    cap: u64,
}

impl View for WorkQueue {
    type V = QueueModel;

    closed spec fn view(&self) -> QueueModel {
        QueueModel {
            pending: self.pending.view(),
            processing: self.processing.view().dom(),
            dirty: self.dirty.view(),
            failures: self.failures.view(),
            shutting_down: self.shutting_down,
            base: self.base,
            cap: self.cap,
        }
    }
}

impl WorkQueue {
    pub closed spec fn wf(&self) -> bool {
        &&& self.pending.wf()
        &&& self.processing.wf()
        &&& self.dirty.wf()
        &&& self.failures.wf()
        &&& model_wf(self@)
    }

    /// An empty queue whose retries wait `min(base * 2^failures, cap)` seconds.
    pub fn new(base: u64, cap: u64) -> (r: Self)
        ensures
            r.wf(),
            r@.pending == Map::<KeyView, u64>::empty(),
            r@.processing == Set::<KeyView>::empty(),
            r@.dirty == Map::<KeyView, u64>::empty(),
            r@.failures == Map::<KeyView, u32>::empty(),
            !r@.shutting_down,
            r@.base == base,
            r@.cap == cap,
    {
        let r = WorkQueue {
            pending: KeyedTable::new(),
            processing: KeyedTable::new(),
            dirty: KeyedTable::new(),
            failures: KeyedTable::new(),
            shutting_down: false,
            base,
            cap,
        };
        assert(r@.processing =~= Set::<KeyView>::empty());
        r
    }

    /// Adds `key`, ready at time `at`. A pending key keeps one item, with the
    /// sooner ready time; a processing key is marked dirty instead.
    pub fn add_after(&mut self, key: ReconcileKey, at: u64)
        requires
            old(self).wf(),
        ensures
            final(self).wf(),
            final(self)@ == add_after_spec(old(self)@, key@, at),
    {
        proof {
            lemma_add_after_wf(self@, key@, at);
        }
        if self.shutting_down {
            return;
        }
        if self.processing.contains(&key) {
            let v = match self.dirty.get(&key) {
                Some(d) => if *d <= at {
                    *d
                } else {
                    at
                },
                None => at,
            };
            self.dirty.insert(key, v);
        } else {
            let v = match self.pending.get(&key) {
                Some(d) => if *d <= at {
                    *d
                } else {
                    at
                },
                None => at,
            };
            self.pending.insert(key, v);
        }
    }

    /// Adds `key`, ready at `now`.
    pub fn add(&mut self, key: ReconcileKey, now: u64)
        requires
            old(self).wf(),
        ensures
            final(self).wf(),
            final(self)@ == add_after_spec(old(self)@, key@, now),
    {
        self.add_after(key, now)
    }

    /// Hands out a key whose ready time has come, and marks it processing.
    pub fn get(&mut self, now: u64) -> (r: Pop)
        requires
            old(self).wf(),
        ensures
            final(self).wf(),
            match r {
                Pop::Ready(k) => {
                    &&& !old(self)@.shutting_down
                    &&& old(self)@.pending.contains_key(k@)
                    &&& old(self)@.pending[k@] <= now
                    &&& final(self)@ == take_spec(old(self)@, k@)
                },
                Pop::Wait => {
                    &&& final(self)@ == old(self)@
                    &&& if old(self)@.shutting_down {
                        old(self)@.processing.len() != 0
                    } else {
                        forall|k: KeyView| #[trigger]
                            old(self)@.pending.contains_key(k) ==> old(self)@.pending[k] > now
                    }
                },
                Pop::Closed => {
                    &&& final(self)@ == old(self)@
                    &&& old(self)@.shutting_down
                    &&& old(self)@.processing.len() == 0
                },
            },
    {
        if self.shutting_down {
            if self.processing.len() == 0 {
                return Pop::Closed;
            } else {
                return Pop::Wait;
            }
        }
        match self.pending.first_at_most(now) {
            None => Pop::Wait,
            Some(k) => {
                proof {
                    lemma_take_wf(self@, k@);
                }
                self.pending.remove(&k);
                self.processing.insert(k.duplicate(), now);
                assert(self@.processing =~= old(self)@.processing.insert(k@));
                Pop::Ready(k)
            },
        }
    }

    /// Marks `key` as no longer processing; a key added meanwhile becomes pending.
    pub fn done(&mut self, key: &ReconcileKey)
        requires
            old(self).wf(),
        ensures
            final(self).wf(),
            final(self)@ == done_spec(old(self)@, key@),
    {
        proof {
            lemma_done_wf(self@, key@);
        }
        self.processing.remove(key);
        match self.dirty.remove(key) {
            Some(at) => {
                self.pending.insert(key.duplicate(), at);
            },
            None => {},
        }
        assert(self@.processing =~= old(self)@.processing.remove(key@));
    }

    /// Clears the failure history of `key`, after a success.
    pub fn forget(&mut self, key: &ReconcileKey)
        requires
            old(self).wf(),
        ensures
            final(self).wf(),
            final(self)@ == forget_spec(old(self)@, key@),
    {
        proof {
            lemma_failures_wf(self@, self@.failures.remove(key@));
        }
        self.failures.remove(key);
    }

    /// Records a failure of `key` and adds it again after the backoff delay;
    /// returns that delay.
    pub fn add_rate_limited(&mut self, key: ReconcileKey, now: u64) -> (r: u64)
        requires
            old(self).wf(),
        ensures
            final(self).wf(),
            r == retry_delay(old(self)@, key@),
            final(self)@ == rate_limited_spec(old(self)@, key@, now),
    {
        let f: u32 = match self.failures.get(&key) {
            Some(f) => *f,
            None => 0,
        };
        let delay = backoff_delay(self.base, self.cap, f);
        let next: u32 = if f < u32::MAX {
            f + 1
        } else {
            f
        };
        proof {
            lemma_failures_wf(self@, self@.failures.insert(key@, next));
        }
        self.failures.insert(key.duplicate(), next);
        let at: u64 = if now <= u64::MAX - delay {
            now + delay
        } else {
            u64::MAX
        };
        self.add_after(key, at);
        delay
    }

    /// Stops accepting new keys.
    pub fn shutdown(&mut self)
        requires
            old(self).wf(),
        ensures
            final(self).wf(),
            final(self)@ == (QueueModel { shutting_down: true, ..old(self)@ }),
    {
        proof {
            lemma_failures_wf(self@, self@.failures);
        }
        self.shutting_down = true;
    }

    /// Number of pending keys.
    pub fn pending_len(&self) -> (r: usize)
        requires
            self.wf(),
        ensures
            r == self@.pending.len(),
    {
        self.pending.len()
    }

    /// The ready time of `key`, if it is pending.
    pub fn ready_time(&self, key: &ReconcileKey) -> (r: Option<u64>)
        requires
            self.wf(),
        ensures
            r == (if self@.pending.contains_key(key@) {
                Some(self@.pending[key@])
            } else {
                None::<u64>
            }),
    {
        match self.pending.get(key) {
            Some(v) => Some(*v),
            None => None,
        }
    }

    /// Whether `key` is being processed.
    pub fn is_processing(&self, key: &ReconcileKey) -> (r: bool)
        requires
            self.wf(),
        ensures
            r == self@.processing.contains(key@),
    {
        self.processing.contains(key)
    }

    /// Consecutive failures recorded for `key`.
    pub fn failures_of(&self, key: &ReconcileKey) -> (r: u32)
        requires
            self.wf(),
        ensures
            r == failure_count(self@, key@),
    {
        match self.failures.get(key) {
            Some(v) => *v,
            None => 0,
        }
    }
}

/// The queue after adding `k` at each time of `times`, in order.
pub open spec fn adds_spec(m: QueueModel, k: KeyView, times: Seq<u64>) -> QueueModel
    decreases times.len(),
{
    if times.len() == 0 {
        m
    } else {
        add_after_spec(adds_spec(m, k, times.drop_last()), k, times.last())
    }
}

/// Adding a key that is not processing any number of times before it is
/// handed out leaves exactly one pending item for it, ready at the soonest
/// of the times given; nothing else changes.
pub proof fn lemma_dedup(m: QueueModel, k: KeyView, times: Seq<u64>)
    requires
        !m.shutting_down,
        !m.processing.contains(k),
        times.len() >= 1,
    ensures
        adds_spec(m, k, times).pending.dom() == m.pending.dom().insert(k),
        m.pending.dom().finite() ==> adds_spec(m, k, times).pending.len() == m.pending.len() + (if m.pending.contains_key(k) {
            0int
        } else {
            1int
        }),
        adds_spec(m, k, times).pending.remove(k) == m.pending.remove(k),
        adds_spec(m, k, times).processing == m.processing,
        adds_spec(m, k, times).dirty == m.dirty,
        adds_spec(m, k, times).shutting_down == m.shutting_down,
        forall|i: int| 0 <= i < times.len() ==> adds_spec(m, k, times).pending[k] <= #[trigger] times[i],
    decreases times.len(),
{
    let prev = adds_spec(m, k, times.drop_last());
    if times.len() == 1 {
        assert(prev == m);
    } else {
        lemma_dedup(m, k, times.drop_last());
    }
    let n = adds_spec(m, k, times);
    assert(n == add_after_spec(prev, k, times.last()));
    assert forall|i: int| 0 <= i < times.len() implies n.pending[k] <= #[trigger] times[i] by {
        if i == times.len() - 1 {
            assert(times[i] == times.last());
        } else {
            assert(times.drop_last()[i] == times[i]);
            assert(prev.pending.dom().contains(k));
            assert(prev.pending[k] <= times.drop_last()[i]);
        }
    }
    assert(n.pending.dom() =~= m.pending.dom().insert(k));
    assert(n.pending.remove(k) =~= m.pending.remove(k));
}

/// A key added again, any number of times, while it is being processed is
/// pending exactly once when its processing is done, ready at the soonest of
/// the times given.
pub proof fn lemma_in_flight_retrigger(m: QueueModel, k: KeyView, times: Seq<u64>)
    requires
        !m.shutting_down,
        m.processing.contains(k),
        times.len() >= 1,
    ensures
        done_spec(adds_spec(m, k, times), k).pending.dom() == m.pending.dom().insert(k),
        done_spec(adds_spec(m, k, times), k).pending.remove(k) == m.pending.remove(k),
        !done_spec(adds_spec(m, k, times), k).processing.contains(k),
        !done_spec(adds_spec(m, k, times), k).dirty.contains_key(k),
        forall|i: int|
            0 <= i < times.len() ==> done_spec(adds_spec(m, k, times), k).pending[k]
                <= #[trigger] times[i],
{
    lemma_marks_dirty(m, k, times);
    let n = done_spec(adds_spec(m, k, times), k);
    assert(n.pending.dom() =~= m.pending.dom().insert(k));
    assert(n.pending.remove(k) =~= m.pending.remove(k));
}

proof fn lemma_marks_dirty(m: QueueModel, k: KeyView, times: Seq<u64>)
    requires
        !m.shutting_down,
        m.processing.contains(k),
        times.len() >= 1,
    ensures
        adds_spec(m, k, times).pending == m.pending,
        adds_spec(m, k, times).processing == m.processing,
        adds_spec(m, k, times).shutting_down == m.shutting_down,
        adds_spec(m, k, times).dirty.contains_key(k),
        forall|i: int| 0 <= i < times.len() ==> adds_spec(m, k, times).dirty[k] <= #[trigger] times[i],
    decreases times.len(),
{
    let prev = adds_spec(m, k, times.drop_last());
    if times.len() == 1 {
        assert(prev == m);
    } else {
        lemma_marks_dirty(m, k, times.drop_last());
    }
    let n = adds_spec(m, k, times);
    assert(n == add_after_spec(prev, k, times.last()));
    assert forall|i: int| 0 <= i < times.len() implies n.dirty[k] <= #[trigger] times[i] by {
        if i == times.len() - 1 {
            assert(times[i] == times.last());
        } else {
            assert(times.drop_last()[i] == times[i]);
            assert(prev.dirty[k] <= times.drop_last()[i]);
        }
    }
}

/// The queue after recording a failure of `k` at each time of `nows`, in order.
pub open spec fn failures_spec(m: QueueModel, k: KeyView, nows: Seq<u64>) -> QueueModel
    decreases nows.len(),
{
    if nows.len() == 0 {
        m
    } else {
        rate_limited_spec(failures_spec(m, k, nows.drop_last()), k, nows.last())
    }
}

/// After a success and then `F` consecutive failures of a key, the next
/// failure is delayed by `min(base * 2^F, cap)`.
pub proof fn lemma_backoff_bound(m: QueueModel, k: KeyView, nows: Seq<u64>)
    requires
        nows.len() < u32::MAX,
    ensures
        failure_count(failures_spec(forget_spec(m, k), k, nows), k) == nows.len(),
        retry_delay(failures_spec(forget_spec(m, k), k, nows), k) == backoff_spec(
            m.base as nat,
            m.cap as nat,
            nows.len(),
        ),
    decreases nows.len(),
{
    if nows.len() > 0 {
        lemma_backoff_bound(m, k, nows.drop_last());
    }
    lemma_failures_keep_policy(m, k, nows);
}

proof fn lemma_failures_keep_policy(m: QueueModel, k: KeyView, nows: Seq<u64>)
    ensures
        failures_spec(forget_spec(m, k), k, nows).base == m.base,
        failures_spec(forget_spec(m, k), k, nows).cap == m.cap,
    decreases nows.len(),
{
    if nows.len() > 0 {
        lemma_failures_keep_policy(m, k, nows.drop_last());
    }
}

/// After a success, the next failure of a key is delayed by the base delay
/// (or by the cap, where that is smaller).
pub proof fn lemma_backoff_reset(m: QueueModel, k: KeyView)
    ensures
        retry_delay(forget_spec(m, k), k) == (if m.base <= m.cap {
            m.base as nat
        } else {
            m.cap as nat
        }),
{
    assert(crate::backoff::pow2(0) == 1);
    assert(m.base * crate::backoff::pow2(0) == m.base);
}

} // verus!
