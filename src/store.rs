use vstd::prelude::*;

use crate::entry::{Entry, NodeId};
use crate::state_machine::{SmModel, StateMachine, apply_entries};

verus! {

/// Why a storage operation was refused.
#[derive(Clone, Copy, Debug, PartialEq, Eq, Structural)]
pub enum StoreError {
    /// The requested log range has been compacted into a snapshot.
    NotFound,
    /// Appended entries do not continue the log index by index.
    NotContiguous,
    /// A hard state whose term is below the stored one.
    StaleTerm,
}

/// Term and vote bookkeeping that must be durable before a reply.
#[derive(Clone, Copy, Debug, PartialEq, Eq, Structural)]
pub struct HardState {
    pub current_term: u64,
    pub voted_for: Option<NodeId>,
}

/// A compact copy of the state machine, standing for every log entry up to
/// the state's `last_applied` index.
pub struct Snapshot {
    last_included_term: u64,
    state: StateMachine,
}

impl Snapshot {
    pub closed spec fn wf(&self) -> bool {
        self.state.wf()
    }

    /// The index of the last entry the snapshot covers.
    pub closed spec fn index(&self) -> u64 {
        self.state@.last_applied
    }

    /// The term of the last entry the snapshot covers.
    pub closed spec fn term(&self) -> u64 {
        self.last_included_term
    }

    /// The state machine the snapshot holds.
    pub closed spec fn state(&self) -> SmModel {
        self.state@
    }

    /// A snapshot covers exactly the entries its state machine has applied,
    /// and holds a reachable state.
    pub proof fn lemma_index(&self)
        requires
            self.wf(),
        ensures
            self.index() == self.state().last_applied,
            self.state().valid(),
    {
        self.state.lemma_wf_valid();
    }

    /// A snapshot of `state`, whose last covered entry has term `term`.
    pub fn new(term: u64, state: StateMachine) -> (r: Snapshot)
        requires
            state.wf(),
        ensures
            r.wf(),
            r.term() == term,
            r.state() == state@,
            r.index() == state@.last_applied,
    {
        Snapshot { last_included_term: term, state }
    }

    pub fn last_included_index(&self) -> (r: u64)
        ensures
            r == self.index(),
    {
        self.state.last_applied()
    }

    pub fn last_included_term(&self) -> (r: u64)
        ensures
            r == self.term(),
    {
        self.last_included_term
    }

    /// The state machine held by the snapshot.
    pub fn state_machine(&self) -> (r: &StateMachine)
        requires
            self.wf(),
        ensures
            r.wf(),
            r@ == self.state(),
    {
        &self.state
    }

    pub fn duplicate(&self) -> (r: Snapshot)
        requires
            self.wf(),
        ensures
            r.wf(),
            r.term() == self.term(),
            r.state() == self.state(),
            r.index() == self.index(),
    {
        Snapshot { last_included_term: self.last_included_term, state: self.state.duplicate() }
    }
}

/// The state machine that installing a snapshot holding `snap` leaves on a
/// node whose state machine is `cur`: a snapshot that covers no more than
/// `cur` has applied is ignored.
pub open spec fn install_target(cur: SmModel, snap: SmModel) -> SmModel {
    if snap.last_applied <= cur.last_applied {
        cur
    } else {
        snap
    }
}

/// Every entry of `es` has the index after that of the one before it,
/// starting at `first`.
pub open spec fn follows(es: Seq<Entry>, first: int) -> bool {
    forall|i: int| 0 <= i < es.len() ==> #[trigger] es[i].index == first + i
}

/// The entries of a log whose first entry has index `first` that have an
/// index in `start..stop`.
pub open spec fn log_range(log: Seq<Entry>, first: int, start: int, stop: int) -> Seq<Entry> {
    let lo = clamp(start - first, 0, log.len() as int);
    let hi = clamp(stop - first, lo, log.len() as int);
    log.subrange(lo, hi)
}

/// The first index at or after `start` that an entry can have.
pub open spec fn first_real(start: int) -> int {
    if start < 1 {
        1
    } else {
        start
    }
}

/// `x` held within `lo..=hi` (where `lo <= hi`).
pub open spec fn clamp(x: int, lo: int, hi: int) -> int {
    if x < lo {
        lo
    } else if x > hi {
        hi
    } else {
        x
    }
}

/// The persistent state of one node: its log, hard state, state machine and
/// latest snapshot.
pub struct Store {
    id: NodeId,
    log: Vec<Entry>,
    snapshot_index: u64,
    snapshot_term: u64,
    sm: StateMachine,
    hard_state: HardState,
    current_snapshot: Option<Snapshot>,
}

impl Store {
    pub closed spec fn wf(&self) -> bool {
        &&& self.sm.wf()
        &&& follows(self.log@, self.snapshot_index + 1)
        &&& self.snapshot_index + self.log@.len() <= u64::MAX
        &&& self.snapshot_index <= self.sm@.last_applied
        &&& match self.current_snapshot {
            Some(s) => s.wf() && s.index() == self.snapshot_index && s.term() == self.snapshot_term,
            None => self.snapshot_index == 0 && self.snapshot_term == 0,
        }
    }

    /// What a well-formed store guarantees: the log continues the compacted
    /// index entry by entry, the snapshot covers no more than was applied,
    /// and the current snapshot stands at the compacted index.
    pub proof fn lemma_wf(&self)
        requires
            self.wf(),
        ensures
            follows(self.log(), self.compacted_index() + 1),
            self.last_index() <= u64::MAX,
            self.compacted_index() <= self.sm().last_applied,
            self.sm().valid(),
            self.has_snapshot() ==> self.snapshot_state().last_applied == self.compacted_index(),
            !self.has_snapshot() ==> self.compacted_index() == 0,
    {
        self.sm.lemma_wf_valid();
    }

    pub closed spec fn node_id(&self) -> NodeId {
        self.id
    }

    /// The entries after the last compacted index.
    pub closed spec fn log(&self) -> Seq<Entry> {
        self.log@
    }

    /// The last index compacted into a snapshot (0 when none was).
    pub closed spec fn compacted_index(&self) -> u64 {
        self.snapshot_index
    }

    pub closed spec fn compacted_term(&self) -> u64 {
        self.snapshot_term
    }

    pub closed spec fn sm(&self) -> SmModel {
        self.sm@
    }

    pub closed spec fn hard_state(&self) -> HardState {
        self.hard_state
    }

    pub closed spec fn has_snapshot(&self) -> bool {
        self.current_snapshot is Some
    }

    pub closed spec fn snapshot_state(&self) -> SmModel {
        match self.current_snapshot {
            Some(s) => s.state(),
            None => SmModel::initial(),
        }
    }

    /// The range `start..stop` holds an index that was compacted into the
    /// snapshot (index 0 holds no entry).
    pub open spec fn range_compacted(&self, start: int, stop: int) -> bool {
        &&& self.compacted_index() > 0
        &&& start <= self.compacted_index()
        &&& first_real(start) < stop
    }

    /// The index of the last entry, compacted or not.
    pub open spec fn last_index(&self) -> int {
        self.compacted_index() + self.log().len()
    }

    /// The term of the entry at `idx`, where the log or the snapshot tells it;
    /// 0 elsewhere.
    pub open spec fn term_of(&self, idx: int) -> u64 {
        if idx == self.compacted_index() {
            self.compacted_term()
        } else if self.compacted_index() < idx <= self.last_index() {
            self.log()[idx - self.compacted_index() - 1].term
        } else {
            0
        }
    }

    /// A freshly initialized node: empty log, nothing applied, term 0.
    pub fn new(id: NodeId) -> (r: Store)
        ensures
            r.wf(),
            r.node_id() == id,
            r.log() == Seq::<Entry>::empty(),
            r.compacted_index() == 0,
            r.compacted_term() == 0,
            r.sm() == SmModel::initial(),
            r.hard_state() == (HardState { current_term: 0, voted_for: None }),
            !r.has_snapshot(),
    {
        Store {
            id,
            log: Vec::new(),
            snapshot_index: 0,
            snapshot_term: 0,
            sm: StateMachine::new(),
            hard_state: HardState { current_term: 0, voted_for: None },
            current_snapshot: None,
        }
    }

    pub fn id(&self) -> (r: NodeId)
        ensures
            r == self.node_id(),
    {
        self.id
    }

    pub fn last_log_index(&self) -> (r: u64)
        requires
            self.wf(),
        ensures
            r == self.last_index(),
    {
        self.snapshot_index + self.log.len() as u64
    }

    /// The term of the entry at `idx`.
    pub fn term_at(&self, idx: u64) -> (r: u64)
        requires
            self.wf(),
        ensures
            r == self.term_of(idx as int),
    {
        if idx == self.snapshot_index {
            self.snapshot_term
        } else if self.snapshot_index < idx && idx - self.snapshot_index <= self.log.len() as u64 {
            self.log[(idx - self.snapshot_index - 1) as usize].term
        } else {
            0
        }
    }

    pub fn last_log_term(&self) -> (r: u64)
        requires
            self.wf(),
        ensures
            r == self.term_of(self.last_index()),
    {
        let last = self.last_log_index();
        self.term_at(last)
    }

    /// Appends entries that continue the log: the first one has the index
    /// after the last entry's, and each following one the next index.
    /// Anything else is refused and leaves the store as it was.
    pub fn append_log(&mut self, entries: &Vec<Entry>) -> (r: Result<(), StoreError>)
        requires
            old(self).wf(),
        ensures
            final(self).wf(),
            r is Ok <==> follows(entries@, old(self).last_index() + 1),
            r is Ok ==> final(self).log() == old(self).log() + entries@,
            r is Err ==> r == Err::<(), StoreError>(StoreError::NotContiguous) && *final(self) == *old(self),
            final(self).sm() == old(self).sm(),
            final(self).compacted_index() == old(self).compacted_index(),
            final(self).compacted_term() == old(self).compacted_term(),
            final(self).hard_state() == old(self).hard_state(),
            final(self).has_snapshot() == old(self).has_snapshot(),
            final(self).snapshot_state() == old(self).snapshot_state(),
            final(self).node_id() == old(self).node_id(),
    {
        let n = entries.len();
        if n == 0 {
            proof {
                assert(self.log@ + entries@ =~= self.log@);
            }
            return Ok(());
        }
        let last = self.last_log_index();
        if last == u64::MAX {
            assert(entries@[0].index != last + 1);
            return Err(StoreError::NotContiguous);
        }
        let first = last + 1;
        let mut i: usize = 0;
        while i < n
            invariant
                n == entries@.len(),
                i <= n,
                first == last + 1,
                last == old(self).last_index(),
                *self == *old(self),
                old(self).wf(),
                forall|j: int| 0 <= j < i ==> #[trigger] entries@[j].index == first + j,
            decreases n - i,
        {
            let idx = entries[i].index;
            if idx < first || idx - first != i as u64 {
                assert(entries@[i as int].index != first + i);
                return Err(StoreError::NotContiguous);
            }
            i += 1;
        }
        let ghost old_log = self.log@;
        let mut tail: Vec<Entry> = Vec::new();
        let mut k: usize = 0;
        while k < n
            invariant
                n == entries@.len(),
                k <= n,
                tail@ == entries@.take(k as int),
            decreases n - k,
        {
            tail.push(entries[k].copy());
            proof {
                assert(tail@ =~= entries@.take(k + 1));
            }
            k += 1;
        }
        self.log.append(&mut tail);
        proof {
            assert(entries@.take(n as int) =~= entries@);
            assert forall|j: int| 0 <= j < self.log@.len() implies #[trigger] self.log@[j].index == self.snapshot_index + 1 + j by {
                if j >= old_log.len() {
                    assert(self.log@[j] == entries@[j - old_log.len()]);
                }
            }
            assert(entries@[n - 1].index == first + n - 1);
        }
        Ok(())
    }

    /// Places replicated entries at their own indexes: the log is cut just
    /// before the first entry's index and the entries follow. Entries that
    /// reach into the compacted part are refused with `NotFound`; entries
    /// that leave a gap after the log, or do not follow one another index
    /// by index, with `NotContiguous`. A refusal leaves the store as it was.
    pub fn replicate_log(&mut self, entries: &Vec<Entry>) -> (r: Result<(), StoreError>)
        requires
            old(self).wf(),
        ensures
            final(self).wf(),
            entries@.len() == 0 ==> r is Ok && *final(self) == *old(self),
            entries@.len() > 0 ==> (r == Err::<(), StoreError>(StoreError::NotFound) <==> entries@[0].index
                <= old(self).compacted_index()),
            entries@.len() > 0 ==> (r == Err::<(), StoreError>(StoreError::NotContiguous) <==> entries@[0].index
                > old(self).compacted_index() && !(entries@[0].index <= old(self).last_index() + 1 && follows(
                entries@,
                entries@[0].index as int,
            ))),
            entries@.len() > 0 ==> (r is Ok <==> entries@[0].index > old(self).compacted_index()
                && entries@[0].index <= old(self).last_index() + 1 && follows(entries@, entries@[0].index as int)),
            r is Err ==> *final(self) == *old(self),
            entries@.len() > 0 && r is Ok ==> final(self).log() == old(self).log().take(
                entries@[0].index - old(self).compacted_index() - 1,
            ) + entries@,
            final(self).sm() == old(self).sm(),
            final(self).compacted_index() == old(self).compacted_index(),
            final(self).compacted_term() == old(self).compacted_term(),
            final(self).hard_state() == old(self).hard_state(),
            final(self).has_snapshot() == old(self).has_snapshot(),
            final(self).snapshot_state() == old(self).snapshot_state(),
            final(self).node_id() == old(self).node_id(),
    {
        let n = entries.len();
        if n == 0 {
            return Ok(());
        }
        let first = entries[0].index;
        if first <= self.snapshot_index {
            return Err(StoreError::NotFound);
        }
        let off = first - self.snapshot_index - 1;
        if off > self.log.len() as u64 {
            return Err(StoreError::NotContiguous);
        }
        let mut i: usize = 0;
        while i < n
            invariant
                n == entries@.len(),
                i <= n,
                first == entries@[0].index,
                first > old(self).compacted_index(),
                off == first - old(self).compacted_index() - 1,
                off <= old(self).log().len(),
                *self == *old(self),
                old(self).wf(),
                forall|j: int| 0 <= j < i ==> #[trigger] entries@[j].index == first + j,
            decreases n - i,
        {
            let idx = entries[i].index;
            if idx < first || idx - first != i as u64 {
                assert(entries@[i as int].index != first + i);
                return Err(StoreError::NotContiguous);
            }
            i += 1;
        }
        let ghost old_log = self.log@;
        let mut tail: Vec<Entry> = Vec::new();
        let mut k: usize = 0;
        while k < n
            invariant
                n == entries@.len(),
                k <= n,
                tail@ == entries@.take(k as int),
            decreases n - k,
        {
            tail.push(entries[k].copy());
            proof {
                assert(tail@ =~= entries@.take(k + 1));
            }
            k += 1;
        }
        self.log.truncate(off as usize);
        self.log.append(&mut tail);
        proof {
            assert(entries@.take(n as int) =~= entries@);
            assert(self.log@ == old_log.take(off as int) + entries@);
            assert forall|j: int| 0 <= j < self.log@.len() implies #[trigger] self.log@[j].index == self.snapshot_index + 1 + j by {
                if j < off {
                    assert(self.log@[j] == old_log[j]);
                } else {
                    assert(self.log@[j] == entries@[j - off]);
                }
            }
            assert(entries@[n - 1].index == first + n - 1);
        }
        Ok(())
    }

    /// Removes the entries from index `start` on. Entries at or below the
    /// compacted index are gone already: asking to remove them is refused.
    pub fn delete_logs_from(&mut self, start: u64) -> (r: Result<(), StoreError>)
        requires
            old(self).wf(),
        ensures
            final(self).wf(),
            r is Err <==> start <= old(self).compacted_index(),
            r is Err ==> r == Err::<(), StoreError>(StoreError::NotFound) && *final(self) == *old(self),
            r is Ok ==> final(self).log() == log_range(
                old(self).log(),
                old(self).compacted_index() + 1,
                old(self).compacted_index() + 1,
                start as int,
            ),
            final(self).sm() == old(self).sm(),
            final(self).compacted_index() == old(self).compacted_index(),
            final(self).compacted_term() == old(self).compacted_term(),
            final(self).hard_state() == old(self).hard_state(),
            final(self).has_snapshot() == old(self).has_snapshot(),
            final(self).snapshot_state() == old(self).snapshot_state(),
            final(self).node_id() == old(self).node_id(),
    {
        if start <= self.snapshot_index {
            return Err(StoreError::NotFound);
        }
        let keep = start - self.snapshot_index - 1;
        if keep < self.log.len() as u64 {
            self.log.truncate(keep as usize);
        }
        Ok(())
    }

    /// The entries with an index in `start..stop` that the log holds. Index
    /// 0 holds no entry. A range that holds an index compacted into the
    /// snapshot is refused with `NotFound`.
    pub fn get_log_range(&self, start: u64, stop: u64) -> (r: Result<Vec<Entry>, StoreError>)
        requires
            self.wf(),
        ensures
            r is Err <==> self.range_compacted(start as int, stop as int),
            r is Err ==> r == Err::<Vec<Entry>, StoreError>(StoreError::NotFound),
            r matches Ok(v) ==> v@ == log_range(self.log(), self.compacted_index() + 1, start as int, stop as int),
            r matches Ok(v) ==> forall|i: int| 0 <= i < v@.len() ==> #[trigger] v@[i].index == first_real(start as int) + i,
    {
        let low = if start == 0 { 1 } else { start };
        if self.snapshot_index > 0 && start <= self.snapshot_index && low < stop {
            return Err(StoreError::NotFound);
        }
        let ghost first = self.snapshot_index + 1;
        let len = self.log.len();
        let lo: usize = if start <= self.snapshot_index {
            0
        } else if start - self.snapshot_index - 1 < len as u64 {
            (start - self.snapshot_index - 1) as usize
        } else {
            len
        };
        let hi: usize = if stop <= self.snapshot_index {
            lo
        } else if stop - self.snapshot_index - 1 < lo as u64 {
            lo
        } else if stop - self.snapshot_index - 1 < len as u64 {
            (stop - self.snapshot_index - 1) as usize
        } else {
            len
        };
        let mut out: Vec<Entry> = Vec::new();
        let mut i: usize = lo;
        while i < hi
            invariant
                lo <= i <= hi,
                hi <= len,
                len == self.log@.len(),
                out@ == self.log@.subrange(lo as int, i as int),
            decreases hi - i,
        {
            out.push(self.log[i].copy());
            proof {
                assert(out@ =~= self.log@.subrange(lo as int, i + 1));
            }
            i += 1;
        }
        proof {
            assert(follows(self.log@, first));
            assert forall|i: int| 0 <= i < out@.len() implies #[trigger] out@[i].index == first_real(start as int) + i by {
                assert(out@[i] == self.log@[lo + i]);
            }
        }
        Ok(out)
    }

    pub fn get_hard_state(&self) -> (r: HardState)
        ensures
            r == self.hard_state(),
    {
        self.hard_state
    }

    /// Stores a new hard state. The term never goes back: a hard state with
    /// a lower term than the stored one is refused.
    pub fn save_hard_state(&mut self, hs: HardState) -> (r: Result<(), StoreError>)
        requires
            old(self).wf(),
        ensures
            final(self).wf(),
            r is Err <==> hs.current_term < old(self).hard_state().current_term,
            r is Err ==> r == Err::<(), StoreError>(StoreError::StaleTerm) && *final(self) == *old(self),
            r is Ok ==> final(self).hard_state() == hs,
            final(self).log() == old(self).log(),
            final(self).sm() == old(self).sm(),
            final(self).compacted_index() == old(self).compacted_index(),
            final(self).compacted_term() == old(self).compacted_term(),
            final(self).has_snapshot() == old(self).has_snapshot(),
            final(self).snapshot_state() == old(self).snapshot_state(),
            final(self).node_id() == old(self).node_id(),
    {
        if hs.current_term < self.hard_state.current_term {
            return Err(StoreError::StaleTerm);
        }
        self.hard_state = hs;
        Ok(())
    }

    /// Applies committed entries to the state machine in the order given;
    /// each entry at or below `last_applied` is skipped.
    pub fn apply_to_state_machine(&mut self, entries: &Vec<Entry>)
        requires
            old(self).wf(),
        ensures
            final(self).wf(),
            final(self).sm() == apply_entries(old(self).sm(), entries@),
            final(self).log() == old(self).log(),
            final(self).compacted_index() == old(self).compacted_index(),
            final(self).compacted_term() == old(self).compacted_term(),
            final(self).hard_state() == old(self).hard_state(),
            final(self).has_snapshot() == old(self).has_snapshot(),
            final(self).snapshot_state() == old(self).snapshot_state(),
            final(self).node_id() == old(self).node_id(),
    {
        proof {
            self.sm.lemma_wf_valid();
            crate::state_machine::lemma_apply_entries_valid(self.sm@, entries@);
        }
        self.sm.apply_entries(entries);
    }

    /// The state machine, as last applied in full.
    pub fn read_state_machine(&self) -> (r: &StateMachine)
        requires
            self.wf(),
        ensures
            r.wf(),
            r@ == self.sm(),
    {
        &self.sm
    }

    /// A snapshot of the current state machine, tagged with the index and
    /// term of the last applied entry.
    pub fn create_snapshot(&self) -> (r: Snapshot)
        requires
            self.wf(),
        ensures
            r.wf(),
            r.state() == self.sm(),
            r.state().valid(),
            r.index() == self.sm().last_applied,
            r.term() == self.term_of(self.sm().last_applied as int),
    {
        proof {
            self.sm.lemma_wf_valid();
        }
        let term = self.term_at(self.sm.last_applied());
        Snapshot::new(term, self.sm.duplicate())
    }

    /// Takes a snapshot of the state machine, keeps it as the current one,
    /// and drops the log entries it covers.
    pub fn compact_log(&mut self)
        requires
            old(self).wf(),
        ensures
            final(self).wf(),
            final(self).has_snapshot(),
            final(self).snapshot_state() == old(self).sm(),
            final(self).compacted_index() == old(self).sm().last_applied,
            final(self).compacted_term() == old(self).term_of(old(self).sm().last_applied as int),
            final(self).log() == log_range(
                old(self).log(),
                old(self).compacted_index() + 1,
                old(self).sm().last_applied + 1,
                old(self).last_index() + 1,
            ),
            final(self).sm() == old(self).sm(),
            final(self).hard_state() == old(self).hard_state(),
            final(self).node_id() == old(self).node_id(),
    {
        let snap = self.create_snapshot();
        let idx = snap.last_included_index();
        let drop = idx - self.snapshot_index;
        if drop < self.log.len() as u64 {
            let tail = self.log.split_off(drop as usize);
            self.log = tail;
        } else {
            self.log = Vec::new();
        }
        self.snapshot_index = idx;
        self.snapshot_term = snap.last_included_term();
        self.current_snapshot = Some(snap);
    }

    /// The snapshot last created or installed, if any.
    pub fn current_snapshot(&self) -> (r: Option<Snapshot>)
        requires
            self.wf(),
        ensures
            r is Some <==> self.has_snapshot(),
            r matches Some(s) ==> s.wf() && s.state() == self.snapshot_state() && s.index() == self.compacted_index()
                && s.term() == self.compacted_term(),
    {
        match &self.current_snapshot {
            Some(s) => Some(s.duplicate()),
            None => None,
        }
    }

    /// Installs a snapshot received from the leader. A snapshot that covers
    /// no more than the state machine has applied is stale and ignored.
    /// Otherwise it replaces the state machine and becomes the current
    /// snapshot; the log keeps the entries after the snapshot's index where
    /// it holds the snapshot's last entry (same index and term), and is
    /// emptied where it does not.
    pub fn install_snapshot(&mut self, snap: Snapshot) -> (r: bool)
        requires
            old(self).wf(),
            snap.wf(),
        ensures
            final(self).wf(),
            r == (snap.index() > old(self).sm().last_applied),
            final(self).sm() == install_target(old(self).sm(), snap.state()),
            !r ==> *final(self) == *old(self),
            r ==> forall|start: int, stop: int|
                start <= snap.index() && first_real(start) < stop ==> #[trigger] final(self).range_compacted(start, stop),
            r ==> final(self).has_snapshot() && final(self).snapshot_state() == snap.state()
                && final(self).compacted_index() == snap.index() && final(self).compacted_term() == snap.term(),
            r ==> final(self).log() == if snap.index() <= old(self).last_index() && old(self).term_of(
                snap.index() as int,
            ) == snap.term() {
                log_range(
                    old(self).log(),
                    old(self).compacted_index() + 1,
                    snap.index() + 1,
                    old(self).last_index() + 1,
                )
            } else {
                Seq::<Entry>::empty()
            },
            final(self).hard_state() == old(self).hard_state(),
            final(self).node_id() == old(self).node_id(),
    {
        let idx = snap.last_included_index();
        if idx <= self.sm.last_applied() {
            return false;
        }
        let drop = idx - self.snapshot_index;
        let keep = drop <= self.log.len() as u64 && self.term_at(idx) == snap.last_included_term();
        let ghost old_log = self.log@;
        if keep {
            let tail = self.log.split_off(drop as usize);
            self.log = tail;
            assert(self.log@ == old_log.subrange(drop as int, old_log.len() as int));
            assert forall|j: int| 0 <= j < self.log@.len() implies #[trigger] self.log@[j].index == idx + 1 + j by {
                assert(self.log@[j] == old_log[drop + j]);
            }
        } else {
            self.log = Vec::new();
        }
        self.sm = snap.state_machine().duplicate();
        self.snapshot_index = idx;
        self.snapshot_term = snap.last_included_term();
        self.current_snapshot = Some(snap);
        true
    }

    /// Rebuilds a node's storage after a restart from what was persisted:
    /// its hard state, its last snapshot, and the log entries after it. The
    /// entries up to `committed` are replayed into the state machine, so the
    /// node serves nothing older than what it had committed. The log must
    /// continue the snapshot (or start at index 1 without one).
    pub fn restore(
        id: NodeId,
        hard_state: HardState,
        snapshot: Option<Snapshot>,
        log: &Vec<Entry>,
        committed: u64,
    ) -> (r: Result<Store, StoreError>)
        requires
            snapshot matches Some(s) ==> s.wf(),
        ensures
            r is Ok <==> follows(
                log@,
                match snapshot {
                    Some(s) => s.index() + 1,
                    None => 1,
                },
            ),
            r is Err ==> r == Err::<Store, StoreError>(StoreError::NotContiguous),
            r matches Ok(st) ==> st.wf() && st.node_id() == id && st.hard_state() == hard_state,
            r matches Ok(st) ==> st.log() == log@ && st.has_snapshot() == snapshot is Some,
            r matches Ok(st) ==> st.compacted_index() == restored_base(snapshot).last_applied,
            r matches Ok(st) ==> st.sm() == apply_entries(
                restored_base(snapshot),
                log@.take(clamp(committed - restored_base(snapshot).last_applied, 0, log@.len() as int)),
            ),
    {
        let mut st = Store::new(id);
        st.hard_state = hard_state;
        match snapshot {
            Some(snap) => {
                st.sm = snap.state_machine().duplicate();
                st.snapshot_index = snap.last_included_index();
                st.snapshot_term = snap.last_included_term();
                st.current_snapshot = Some(snap);
            },
            None => {},
        }
        match st.append_log(log) {
            Ok(()) => {},
            Err(e) => {
                return Err(e);
            },
        }
        proof {
            assert(Seq::<Entry>::empty() + log@ =~= log@);
        }
        let n = log.len();
        let count: usize = if committed <= st.snapshot_index {
            0
        } else if committed - st.snapshot_index < n as u64 {
            (committed - st.snapshot_index) as usize
        } else {
            n
        };
        let mut replay: Vec<Entry> = Vec::new();
        let ghost pre = st;
        let mut i: usize = 0;
        while i < count
            invariant
                st == pre,
                count <= n == log@.len(),
                i <= count,
                replay@ == log@.take(i as int),
            decreases count - i,
        {
            replay.push(log[i].copy());
            proof {
                assert(replay@ =~= log@.take(i + 1));
            }
            i += 1;
        }
        st.apply_to_state_machine(&replay);
        Ok(st)
    }
}

/// Delivering again the entries that the log already ends with, at their
/// own indexes, is accepted by `replicate_log` and leaves the log as it is.
pub proof fn lemma_redelivery_unchanged(st: &Store, es: Seq<Entry>)
    requires
        st.wf(),
        es.len() > 0,
        es[0].index > st.compacted_index(),
        es[0].index - st.compacted_index() - 1 + es.len() == st.log().len(),
        st.log().subrange(es[0].index - st.compacted_index() - 1, st.log().len() as int) == es,
    ensures
        es[0].index <= st.last_index() + 1,
        follows(es, es[0].index as int),
        st.log().take(es[0].index - st.compacted_index() - 1) + es == st.log(),
{
    st.lemma_wf();
    let off = es[0].index - st.compacted_index() - 1;
    assert forall|i: int| 0 <= i < es.len() implies #[trigger] es[i].index == es[0].index + i by {
        assert(es[i] == st.log()[off + i]);
        assert(es[0] == st.log()[off]);
    }
    assert(st.log().take(off) + es =~= st.log());
}

/// The state machine a restarted node starts from: its snapshot's, or the
/// initial one.
pub open spec fn restored_base(snapshot: Option<Snapshot>) -> SmModel {
    match snapshot {
        Some(s) => s.state(),
        None => SmModel::initial(),
    }
}

/// Installing, on a freshly initialized node, a snapshot of any reachable
/// state machine reproduces that state machine: the same contents and the
/// same `last_applied` index.
pub proof fn lemma_snapshot_round_trip(src: SmModel)
    requires
        src.valid(),
    ensures
        install_target(SmModel::initial(), src) == src,
{
    if src.last_applied == 0 {
        assert(src.kv =~= SmModel::initial().kv);
    }
}

} // verus!
