use vstd::prelude::*;

use crate::entry::{Entry, EntryPayload};

verus! {

/// The mathematical state of a replica's state machine.
pub struct SmModel {
    pub last_applied: u64,
    pub kv: Map<Seq<char>, Seq<char>>,
}

impl SmModel {
    /// The state of a freshly initialized node.
    pub open spec fn initial() -> SmModel {
        SmModel { last_applied: 0, kv: Map::empty() }
    }

    /// A state that applying entries can reach: nothing is stored before
    /// the first entry has been applied.
    pub open spec fn valid(self) -> bool {
        self.last_applied == 0 ==> self.kv == Map::<Seq<char>, Seq<char>>::empty()
    }
}

/// Applies one committed entry. An entry at or below `last_applied` was
/// applied already and changes nothing.
pub open spec fn apply_entry(m: SmModel, e: Entry) -> SmModel {
    if e.index <= m.last_applied {
        m
    } else {
        SmModel {
            last_applied: e.index,
            kv: match e.payload {
                EntryPayload::Blank => m.kv,
                EntryPayload::Normal(req) => m.kv.insert(req.key@, req.value@),
            },
        }
    }
}

/// Applies committed entries in the order given.
pub open spec fn apply_entries(m: SmModel, es: Seq<Entry>) -> SmModel
    decreases es.len(),
{
    if es.len() == 0 {
        m
    } else {
        apply_entry(apply_entries(m, es.drop_last()), es.last())
    }
}

/// Applying an entry a second time changes nothing.
pub proof fn lemma_apply_entry_idempotent(m: SmModel, e: Entry)
    ensures
        apply_entry(apply_entry(m, e), e) == apply_entry(m, e),
{
}

/// Applying keeps the state reachable.
pub proof fn lemma_apply_entries_valid(m: SmModel, es: Seq<Entry>)
    requires
        m.valid(),
    ensures
        apply_entries(m, es).valid(),
        apply_entries(m, es).last_applied >= m.last_applied,
    decreases es.len(),
{
    if es.len() > 0 {
        lemma_apply_entries_valid(m, es.drop_last());
    }
}

/// After applying entries, `last_applied` covers each of them.
pub proof fn lemma_apply_entries_covers(m: SmModel, es: Seq<Entry>)
    ensures
        apply_entries(m, es).last_applied >= m.last_applied,
        forall|i: int| 0 <= i < es.len() ==> apply_entries(m, es).last_applied >= #[trigger] es[i].index,
    decreases es.len(),
{
    if es.len() > 0 {
        lemma_apply_entries_covers(m, es.drop_last());
        assert forall|i: int| 0 <= i < es.len() implies apply_entries(m, es).last_applied >= #[trigger] es[i].index by {
            if i < es.len() - 1 {
                assert(es[i] == es.drop_last()[i]);
            }
        }
    }
}

/// Entries that `last_applied` already covers change nothing.
pub proof fn lemma_apply_covered_entries(m: SmModel, es: Seq<Entry>)
    requires
        forall|i: int| 0 <= i < es.len() ==> m.last_applied >= #[trigger] es[i].index,
    ensures
        apply_entries(m, es) == m,
    decreases es.len(),
{
    if es.len() > 0 {
        assert forall|i: int| 0 <= i < es.drop_last().len() implies m.last_applied >= #[trigger] es.drop_last()[i].index by {
            assert(es.drop_last()[i] == es[i]);
        }
        lemma_apply_covered_entries(m, es.drop_last());
        assert(m.last_applied >= es[es.len() - 1].index);
    }
}

/// Applying a sequence of entries a second time changes nothing.
pub proof fn lemma_apply_entries_idempotent(m: SmModel, es: Seq<Entry>)
    ensures
        apply_entries(apply_entries(m, es), es) == apply_entries(m, es),
{
    lemma_apply_entries_covers(m, es);
    lemma_apply_covered_entries(apply_entries(m, es), es);
}

/// Applying `p` then `q` is applying `p + q`.
pub proof fn lemma_apply_entries_concat(m: SmModel, p: Seq<Entry>, q: Seq<Entry>)
    ensures
        apply_entries(m, p + q) == apply_entries(apply_entries(m, p), q),
    decreases q.len(),
{
    if q.len() == 0 {
        assert(p + q =~= p);
    } else {
        assert((p + q).drop_last() =~= p + q.drop_last());
        assert((p + q).last() == q.last());
        lemma_apply_entries_concat(m, p, q.drop_last());
    }
}

/// Two replicas that start from the same state and have each applied some
/// prefix of the same committed entries reach identical contents once both
/// have applied all of them in index order.
pub proof fn lemma_replicas_converge(m: SmModel, es: Seq<Entry>, i: int, j: int)
    requires
        0 <= i <= es.len(),
        0 <= j <= es.len(),
    ensures
        apply_entries(apply_entries(m, es.take(i)), es) == apply_entries(apply_entries(m, es.take(j)), es),
        apply_entries(apply_entries(m, es.take(i)), es) == apply_entries(m, es),
{
    lemma_prefix_then_all(m, es, i);
    lemma_prefix_then_all(m, es, j);
}

proof fn lemma_prefix_then_all(m: SmModel, es: Seq<Entry>, i: int)
    requires
        0 <= i <= es.len(),
    ensures
        apply_entries(apply_entries(m, es.take(i)), es) == apply_entries(m, es),
{
    let p = es.take(i);
    let q = es.skip(i);
    assert(p + q =~= es);
    let x = apply_entries(m, p);
    lemma_apply_entries_concat(x, p, q);
    lemma_apply_entries_idempotent(m, p);
    lemma_apply_entries_concat(m, p, q);
}

/// The map holding the pairs of `s`, a later pair winning over an earlier
/// one with the same key.
pub open spec fn map_of_pairs(s: Seq<(String, String)>) -> Map<Seq<char>, Seq<char>>
    decreases s.len(),
{
    if s.len() == 0 {
        Map::empty()
    } else {
        map_of_pairs(s.drop_last()).insert(s.last().0@, s.last().1@)
    }
}

/// `s` lists the pairs of `m`, each key once.
spec fn is_listing(s: Seq<(String, String)>, m: Map<Seq<char>, Seq<char>>) -> bool {
    &&& forall|i: int|
        #![trigger s[i]]
        0 <= i < s.len() ==> m.contains_key(s[i].0@) && m[s[i].0@] == s[i].1@
    &&& forall|k: Seq<char>| #[trigger] m.contains_key(k) ==> exists|i: int| 0 <= i < s.len() && #[trigger] s[i].0@ == k
    &&& forall|i: int, j: int|
        0 <= i < s.len() && 0 <= j < s.len() && #[trigger] s[i].0@ == #[trigger] s[j].0@ ==> i == j
}

/// The key-value state machine of one node.
pub struct StateMachine {
    last_applied_log: u64,
    kv_store: Vec<(String, String)>,
    kv_map: Ghost<Map<Seq<char>, Seq<char>>>,
}

impl View for StateMachine {
    type V = SmModel;

    closed spec fn view(&self) -> SmModel {
        SmModel { last_applied: self.last_applied_log, kv: self.kv_map@ }
    }
}

impl StateMachine {
    pub closed spec fn wf(&self) -> bool {
        &&& is_listing(self.kv_store@, self.kv_map@)
        &&& self@.valid()
    }

    /// A well-formed state machine holds a reachable state.
    pub proof fn lemma_wf_valid(&self)
        requires
            self.wf(),
        ensures
            self@.valid(),
    {
    }

    /// An empty state machine with nothing applied.
    pub fn new() -> (r: StateMachine)
        ensures
            r.wf(),
            r@ == SmModel::initial(),
    {
        StateMachine { last_applied_log: 0, kv_store: Vec::new(), kv_map: Ghost(Map::empty()) }
    }

    pub fn last_applied(&self) -> (r: u64)
        ensures
            r == self@.last_applied,
    {
        self.last_applied_log
    }

    fn find(&self, key: &String) -> (r: Option<usize>)
        ensures
            match r {
                Some(j) => j < self.kv_store@.len() && self.kv_store@[j as int].0@ == key@,
                None => forall|j: int| 0 <= j < self.kv_store@.len() ==> self.kv_store@[j].0@ != key@,
            },
    {
        let n = self.kv_store.len();
        let mut i: usize = 0;
        while i < n
            invariant
                n == self.kv_store@.len(),
                i <= n,
                forall|j: int| 0 <= j < i ==> self.kv_store@[j].0@ != key@,
            decreases n - i,
        {
            if self.kv_store[i].0.eq(key) {
                return Some(i);
            }
            i += 1;
        }
        None
    }

    /// The value stored under `key`, if any.
    pub fn get(&self, key: &String) -> (r: Option<String>)
        requires
            self.wf(),
        ensures
            match r {
                Some(v) => self@.kv.contains_key(key@) && self@.kv[key@] == v@,
                None => !self@.kv.contains_key(key@),
            },
    {
        match self.find(key) {
            Some(j) => Some(self.kv_store[j].1.clone()),
            None => {
                proof {
                    if self.kv_map@.contains_key(key@) {
                        let i = choose|i: int| 0 <= i < self.kv_store@.len() && #[trigger] self.kv_store@[i].0@ == key@;
                        assert(self.kv_store@[i].0@ == key@);
                    }
                }
                None
            },
        }
    }

    fn insert(&mut self, key: String, value: String)
        requires
            old(self).wf(),
            old(self).last_applied_log > 0,
        ensures
            final(self).wf(),
            final(self)@.kv == old(self)@.kv.insert(key@, value@),
            final(self)@.last_applied == old(self)@.last_applied,
    {
        let ghost k = key@;
        let ghost v = value@;
        let ghost old_store = self.kv_store@;
        let ghost old_map = self.kv_map@;
        match self.find(&key) {
            Some(j) => {
                self.kv_store.set(j, (key, value));
                self.kv_map = Ghost(old_map.insert(k, v));
                assert forall|i: int| 0 <= i < self.kv_store@.len() implies #[trigger] self.kv_store@[i].0@ == old_store[i].0@ by {}
                assert forall|kk: Seq<char>| #[trigger] self.kv_map@.contains_key(kk) implies exists|i: int|
                    0 <= i < self.kv_store@.len() && #[trigger] self.kv_store@[i].0@ == kk by {
                    if kk == k {
                        assert(self.kv_store@[j as int].0@ == kk);
                    } else {
                        let i = choose|i: int| 0 <= i < old_store.len() && #[trigger] old_store[i].0@ == kk;
                        assert(self.kv_store@[i].0@ == kk);
                    }
                }
            },
            None => {
                self.kv_store.push((key, value));
                self.kv_map = Ghost(old_map.insert(k, v));
                let ghost n = old_store.len() as int;
                assert forall|i: int| 0 <= i < n implies #[trigger] self.kv_store@[i] == old_store[i] by {}
                assert forall|kk: Seq<char>| #[trigger] self.kv_map@.contains_key(kk) implies exists|i: int|
                    0 <= i < self.kv_store@.len() && #[trigger] self.kv_store@[i].0@ == kk by {
                    if kk == k {
                        assert(self.kv_store@[n].0@ == kk);
                    } else {
                        let i = choose|i: int| 0 <= i < old_store.len() && #[trigger] old_store[i].0@ == kk;
                        assert(self.kv_store@[i].0@ == kk);
                    }
                }
            },
        }
    }

    /// Applies one committed entry; one at or below `last_applied` is skipped.
    pub fn apply_entry(&mut self, e: &Entry)
        requires
            old(self).wf(),
        ensures
            final(self).wf(),
            final(self)@ == apply_entry(old(self)@, *e),
    {
        if e.index <= self.last_applied_log {
            return;
        }
        self.last_applied_log = e.index;
        match &e.payload {
            EntryPayload::Normal(req) => {
                self.insert(req.key.clone(), req.value.clone());
            },
            EntryPayload::Blank => {},
        }
    }

    /// Applies committed entries in the order given.
    pub fn apply_entries(&mut self, es: &Vec<Entry>)
        requires
            old(self).wf(),
        ensures
            final(self).wf(),
            final(self)@ == apply_entries(old(self)@, es@),
    {
        let mut i: usize = 0;
        while i < es.len()
            invariant
                self.wf(),
                i <= es@.len(),
                self@ == apply_entries(old(self)@, es@.take(i as int)),
            decreases es@.len() - i,
        {
            self.apply_entry(&es[i]);
            proof {
                assert(es@.take(i + 1).drop_last() =~= es@.take(i as int));
            }
            i += 1;
        }
        proof {
            assert(es@.take(es@.len() as int) =~= es@);
        }
    }

    /// The state machine that has applied everything up to `last_applied`
    /// and holds `pairs` (a later pair winning over an earlier one with the
    /// same key). Nothing can be stored before the first entry is applied:
    /// pairs with `last_applied == 0` are refused.
    pub fn from_pairs(last_applied: u64, pairs: &Vec<(String, String)>) -> (r: Option<StateMachine>)
        ensures
            r is None <==> last_applied == 0 && pairs@.len() > 0,
            r matches Some(sm) ==> sm.wf() && sm@ == (SmModel { last_applied, kv: map_of_pairs(pairs@) }),
    {
        let mut sm = StateMachine::new();
        if pairs.len() == 0 {
            sm.last_applied_log = last_applied;
            return Some(sm);
        }
        if last_applied == 0 {
            return None;
        }
        sm.last_applied_log = last_applied;
        let n = pairs.len();
        let mut i: usize = 0;
        while i < n
            invariant
                n == pairs@.len(),
                i <= n,
                sm.wf(),
                sm.last_applied_log == last_applied,
                last_applied > 0,
                sm.kv_map@ == map_of_pairs(pairs@.take(i as int)),
            decreases n - i,
        {
            sm.insert(pairs[i].0.clone(), pairs[i].1.clone());
            proof {
                assert(pairs@.take(i + 1).drop_last() =~= pairs@.take(i as int));
            }
            i += 1;
        }
        proof {
            assert(pairs@.take(n as int) =~= pairs@);
        }
        Some(sm)
    }

    /// A copy of this state machine.
    pub fn duplicate(&self) -> (r: StateMachine)
        requires
            self.wf(),
        ensures
            r.wf(),
            r@ == self@,
    {
        let mut pairs: Vec<(String, String)> = Vec::new();
        let n = self.kv_store.len();
        let mut i: usize = 0;
        while i < n
            invariant
                n == self.kv_store@.len(),
                i <= n,
                pairs@ == self.kv_store@.take(i as int),
            decreases n - i,
        {
            let k = self.kv_store[i].0.clone();
            let v = self.kv_store[i].1.clone();
            pairs.push((k, v));
            proof {
                assert(pairs@ =~= self.kv_store@.take(i + 1));
            }
            i += 1;
        }
        proof {
            assert(pairs@ =~= self.kv_store@);
        }
        StateMachine { last_applied_log: self.last_applied_log, kv_store: pairs, kv_map: Ghost(self.kv_map@) }
    }

    /// The stored pairs, each key once, in no particular order: together
    /// they make up exactly the stored map.
    pub fn pairs(&self) -> (r: Vec<(String, String)>)
        requires
            self.wf(),
        ensures
            r@.len() == self@.kv.len(),
            forall|i: int| 0 <= i < r@.len() ==> self@.kv.contains_key(#[trigger] r@[i].0@) && self@.kv[r@[i].0@] == r@[i].1@,
            forall|i: int, j: int| 0 <= i < r@.len() && 0 <= j < r@.len() && i != j ==> r@[i].0@ != r@[j].0@,
            map_of_pairs(r@) == self@.kv,
    {
        let d = self.duplicate();
        proof {
            lemma_listing_len(d.kv_store@, d.kv_map@);
            lemma_listing_map(d.kv_store@, d.kv_map@);
        }
        d.kv_store
    }
}

proof fn lemma_listing_map(s: Seq<(String, String)>, m: Map<Seq<char>, Seq<char>>)
    requires
        is_listing(s, m),
    ensures
        map_of_pairs(s) == m,
    decreases s.len(),
{
    if s.len() == 0 {
        assert forall|k: Seq<char>| !m.contains_key(k) by {
            if m.contains_key(k) {
                let i = choose|i: int| 0 <= i < s.len() && #[trigger] s[i].0@ == k;
            }
        }
        assert(m =~= Map::<Seq<char>, Seq<char>>::empty());
    } else {
        let n = s.len() - 1;
        let p = s.drop_last();
        let l = s.last();
        let m2 = m.remove(l.0@);
        assert forall|i: int| 0 <= i < p.len() implies m2.contains_key(#[trigger] p[i].0@) && m2[p[i].0@] == p[i].1@ by {
            assert(p[i] == s[i]);
            assert(s[i].0@ != s[n].0@);
        }
        assert forall|k: Seq<char>| #[trigger] m2.contains_key(k) implies exists|i: int| 0 <= i < p.len() && #[trigger] p[i].0@ == k by {
            let i = choose|i: int| 0 <= i < s.len() && #[trigger] s[i].0@ == k;
            assert(s[n].0@ == l.0@);
            assert(i != n);
            assert(p[i] == s[i]);
        }
        assert forall|i: int, j: int| 0 <= i < p.len() && 0 <= j < p.len() && #[trigger] p[i].0@ == #[trigger] p[j].0@ implies i == j by {
            assert(p[i] == s[i]);
            assert(p[j] == s[j]);
        }
        lemma_listing_map(p, m2);
        assert(s[n] == l);
        assert(m2.insert(l.0@, l.1@) =~= m);
    }
}

proof fn lemma_listing_len(s: Seq<(String, String)>, m: Map<Seq<char>, Seq<char>>)
    requires
        is_listing(s, m),
    ensures
        m.dom().finite(),
        m.len() == s.len(),
{
    let keys = s.map_values(|p: (String, String)| p.0@);
    assert forall|i: int, j: int| 0 <= i < keys.len() && 0 <= j < keys.len() && i != j implies keys[i] != keys[j] by {
        assert(keys[i] == s[i].0@);
        assert(keys[j] == s[j].0@);
    }
    keys.unique_seq_to_set();
    assert forall|k: Seq<char>| keys.to_set().contains(k) <==> m.dom().contains(k) by {
        if m.dom().contains(k) {
            let i = choose|i: int| 0 <= i < s.len() && #[trigger] s[i].0@ == k;
            assert(keys[i] == k);
        }
        if keys.to_set().contains(k) {
            let i = choose|i: int| 0 <= i < keys.len() && keys[i] == k;
            assert(s[i].0@ == k);
        }
    }
    assert(keys.to_set() =~= m.dom());
}

} // verus!
