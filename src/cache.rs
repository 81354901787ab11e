use vstd::prelude::*;
use crate::node::NodeId;
use crate::value::{EvalResult, ResultView, view_result, results_agree};

verus! {

/// One cached result, with the time it last changed.
pub struct CacheEntry {
    pub id: NodeId,
    pub result: EvalResult,
    pub timestamp: String,
}

/// One persisted entry: the id in lowercase hex, the result, the timestamp.
pub struct CacheRecord {
    pub id_hex: String,
    pub result: EvalResult,
    pub timestamp: String,
}

/// The evaluation cache: results by node id, and the ids whose result changed
/// in the current cycle. Both are held in vectors, entries with distinct ids:
/// vstd specifies hash maps only for integer and boolean keys, not for the
/// 32-byte node ids.
pub struct NodeCache {
    entries: Vec<CacheEntry>,
    changed: Vec<NodeId>,
}

/// The result stored under `k`; the latest entry wins.
pub open spec fn lookup(s: Seq<CacheEntry>, k: Seq<u8>) -> Option<EvalResult>
    decreases s.len(),
{
    if s.len() == 0 {
        None
    } else if s.last().id@ == k {
        Some(s.last().result)
    } else {
        lookup(s.drop_last(), k)
    }
}

pub open spec fn unique_ids(s: Seq<CacheEntry>) -> bool {
    forall|i: int, j: int| 0 <= i < s.len() && 0 <= j < s.len() && i != j ==> s[i].id@ != s[j].id@
}

/// The abstract state of a cache: the stored results, and the changed ids.
pub type CacheState = (Map<Seq<u8>, ResultView>, Set<Seq<u8>>);

/// Writing a result stores it, and marks the id changed unless the id already
/// held the same result.
pub open spec fn cache_write(st: CacheState, k: Seq<u8>, r: ResultView) -> CacheState {
    (
        st.0.insert(k, r),
        if st.0.contains_key(k) && st.0[k] == r {
            st.1
        } else {
            st.1.insert(k)
        },
    )
}

proof fn lemma_lookup_push(s: Seq<CacheEntry>, e: CacheEntry, k: Seq<u8>)
    ensures
        lookup(s.push(e), k) == if k == e.id@ {
            Some(e.result)
        } else {
            lookup(s, k)
        },
{
    assert(s.push(e).drop_last() == s);
}

proof fn lemma_lookup_absent(s: Seq<CacheEntry>, k: Seq<u8>)
    requires
        forall|j: int| 0 <= j < s.len() ==> s[j].id@ != k,
    ensures
        lookup(s, k) is None,
    decreases s.len(),
{
    if s.len() > 0 {
        lemma_lookup_absent(s.drop_last(), k);
    }
}

proof fn lemma_lookup_found(s: Seq<CacheEntry>, j: int)
    requires
        unique_ids(s),
        0 <= j < s.len(),
    ensures
        lookup(s, s[j].id@) == Some(s[j].result),
    decreases s.len(),
{
    if j < s.len() - 1 {
        lemma_lookup_found(s.drop_last(), j);
    }
}

proof fn lemma_lookup_update(s: Seq<CacheEntry>, j: int, e: CacheEntry, k: Seq<u8>)
    requires
        unique_ids(s),
        0 <= j < s.len(),
        e.id@ == s[j].id@,
    ensures
        lookup(s.update(j, e), k) == if k == e.id@ {
            Some(e.result)
        } else {
            lookup(s, k)
        },
    decreases s.len(),
{
    let t = s.update(j, e);
    if j == s.len() - 1 {
        assert(t.drop_last() == s.drop_last());
        if k != e.id@ {
            assert(lookup(s, k) == lookup(s.drop_last(), k));
        }
    } else {
        assert(t.drop_last() == s.drop_last().update(j, e));
        lemma_lookup_update(s.drop_last(), j, e, k);
        if k == e.id@ {
            assert(s.last().id@ != k);
        }
    }
}

/// The ids listed, as a set.
pub open spec fn id_set(s: Seq<NodeId>) -> Set<Seq<u8>> {
    Set::new(|k: Seq<u8>| exists|j: int| 0 <= j < s.len() && #[trigger] s[j]@ == k)
}

proof fn lemma_id_set_push(s: Seq<NodeId>, id: NodeId)
    ensures
        id_set(s.push(id)) == id_set(s).insert(id@),
{
    let t = s.push(id);
    assert forall|k: Seq<u8>| id_set(t).contains(k) <==> id_set(s).insert(id@).contains(k) by {
        if id_set(s).contains(k) {
            let j = choose|j: int| 0 <= j < s.len() && #[trigger] s[j]@ == k;
            assert(t[j]@ == k);
        }
        if k == id@ {
            assert(t[s.len() as int]@ == k);
        }
        if id_set(t).contains(k) {
            let j = choose|j: int| 0 <= j < t.len() && #[trigger] t[j]@ == k;
            if j < s.len() {
                assert(s[j]@ == k);
            }
        }
    }
    assert(id_set(t) =~= id_set(s).insert(id@));
}

pub fn ids_equal(a: &NodeId, b: &NodeId) -> (r: bool)
    ensures
        r == (a@ == b@),
{
    let mut i: usize = 0;
    while i < 32
        invariant
            i <= 32,
            a@.len() == 32,
            b@.len() == 32,
            forall|j: int| 0 <= j < i ==> a@[j] == b@[j],
        decreases 32 - i,
    {
        if a[i] != b[i] {
            return false;
        }
        i = i + 1;
    }
    assert(a@ =~= b@);
    true
}

/// Relies on std's SystemTime::now and duration_since, and on chrono's
/// DateTime::from_timestamp and to_rfc3339: the current UTC time in RFC 3339.
/// A clock before 1970, or out of chrono's range, gives the epoch; nothing panics.
#[verifier::external_body]
fn now_rfc3339() -> String {
    let t = match std::time::SystemTime::now().duration_since(std::time::UNIX_EPOCH) {
        Ok(d) => match i64::try_from(d.as_secs()) {
            Ok(secs) => chrono::DateTime::from_timestamp(secs, d.subsec_nanos()),
            Err(_) => None,
        },
        Err(_) => None,
    };
    match t {
        Some(t) => t.to_rfc3339(),
        None => String::from("1970-01-01T00:00:00+00:00"),
    }
}

impl NodeCache {
    pub closed spec fn entries_view(&self) -> Seq<CacheEntry> {
        self.entries@
    }

    pub open spec fn inv(&self) -> bool {
        unique_ids(self.entries_view())
    }

    /// The stored results by id.
    pub open spec fn store(&self) -> Map<Seq<u8>, ResultView> {
        Map::new(
            |k: Seq<u8>| lookup(self.entries_view(), k) is Some,
            |k: Seq<u8>| view_result(lookup(self.entries_view(), k)->Some_0),
        )
    }

    /// The ids whose result changed in the current cycle.
    pub closed spec fn changed_ids(&self) -> Set<Seq<u8>> {
        id_set(self.changed@)
    }

    pub open spec fn state(&self) -> CacheState {
        (self.store(), self.changed_ids())
    }

    pub open spec fn wf(&self) -> bool {
        self.inv()
    }

    pub fn new() -> (c: NodeCache)
        ensures
            c.wf(),
            c.store() == Map::<Seq<u8>, ResultView>::empty(),
            c.changed_ids() == Set::<Seq<u8>>::empty(),
    {
        let c = NodeCache { entries: Vec::new(), changed: Vec::new() };
        assert(c.store() =~= Map::<Seq<u8>, ResultView>::empty());
        assert(c.changed_ids() =~= Set::<Seq<u8>>::empty());
        c
    }

    fn find(&self, id: &NodeId) -> (r: Option<usize>)
        requires
            self.inv(),
        ensures
            r matches Some(j) ==> j < self.entries@.len() && self.entries@[j as int].id@ == id@,
            r is None ==> lookup(self.entries@, id@) is None,
            r matches Some(j) ==> lookup(self.entries@, id@) == Some(self.entries@[j as int].result),
    {
        let mut j: usize = 0;
        while j < self.entries.len()
            invariant
                self.inv(),
                j <= self.entries@.len(),
                forall|t: int| 0 <= t < j ==> self.entries@[t].id@ != id@,
            decreases self.entries@.len() - j,
        {
            if ids_equal(&self.entries[j].id, id) {
                proof {
                    lemma_lookup_found(self.entries@, j as int);
                }
                return Some(j);
            }
            j = j + 1;
        }
        proof {
            lemma_lookup_absent(self.entries@, id@);
        }
        None
    }

    pub fn get(&self, id: &NodeId) -> (r: Option<&EvalResult>)
        requires
            self.wf(),
        ensures
            r is None <==> !self.store().contains_key(id@),
            r matches Some(v) ==> self.store()[id@] == view_result(*v),
    {
        match self.find(id) {
            Some(j) => Some(&self.entries[j].result),
            None => None,
        }
    }

    /// Stores a result under an id, marking the id changed unless it already
    /// held the same result. The timestamp moves only on a change.
    pub fn insert(&mut self, id: NodeId, value: EvalResult)
        requires
            old(self).wf(),
        ensures
            final(self).wf(),
            final(self).state() == cache_write(old(self).state(), id@, view_result(value)),
    {
        let ghost st = self.state();
        let ghost k = id@;
        match self.find(&id) {
            Some(j) => {
                let same = results_agree(&self.entries[j].result, &value);
                let timestamp = if same {
                    self.entries[j].timestamp.clone()
                } else {
                    now_rfc3339()
                };
                proof {
                    lemma_id_set_push(self.changed@, id);
                }
                if !same {
                    self.changed.push(id);
                }
                let ghost old_entries = self.entries@;
                let ghost old_changed = self.changed@;
                let e = CacheEntry { id, result: value, timestamp };
                self.entries.set(j, e);
                proof {
                    assert forall|k2: Seq<u8>| #[trigger] lookup(self.entries@, k2) == (if k2 == k {
                        Some(value)
                    } else {
                        lookup(old_entries, k2)
                    }) by {
                        lemma_lookup_update(old_entries, j as int, self.entries@[j as int], k2);
                    }
                    assert(unique_ids(self.entries@));
                    assert(self.store() =~= st.0.insert(k, view_result(value)));
                    if same {
                        assert(self.changed_ids() =~= st.1);
                    } else {
                        assert(self.changed_ids() == st.1.insert(k));
                    }
                }
            },
            None => {
                proof {
                    lemma_id_set_push(self.changed@, id);
                }
                self.changed.push(id);
                let ghost old_entries = self.entries@;
                let e = CacheEntry { id, result: value, timestamp: now_rfc3339() };
                self.entries.push(e);
                proof {
                    assert forall|k2: Seq<u8>| #[trigger] lookup(self.entries@, k2) == (if k2 == k {
                        Some(value)
                    } else {
                        lookup(old_entries, k2)
                    }) by {
                        lemma_lookup_push(old_entries, self.entries@.last(), k2);
                        assert(self.entries@ == old_entries.push(self.entries@.last()));
                    }
                    assert forall|a: int, b: int|
                        0 <= a < self.entries@.len() && 0 <= b < self.entries@.len() && a != b
                        implies self.entries@[a].id@ != self.entries@[b].id@ by {
                        if a == old_entries.len() as int {
                            lemma_lookup_found(old_entries, b);
                        } else if b == old_entries.len() as int {
                            lemma_lookup_found(old_entries, a);
                        }
                    }
                    assert(self.store() =~= st.0.insert(k, view_result(value)));
                    assert(self.changed_ids() == st.1.insert(k));
                }
            },
        }
    }

    /// Stores a result as it was persisted, without marking anything changed.
    pub fn load(&mut self, id: NodeId, value: EvalResult, timestamp: String)
        requires
            old(self).wf(),
        ensures
            final(self).wf(),
            final(self).store() == old(self).store().insert(id@, view_result(value)),
            final(self).changed_ids() == old(self).changed_ids(),
    {
        let ghost k = id@;
        let ghost st = self.store();
        let ghost old_entries = self.entries@;
        match self.find(&id) {
            Some(j) => {
                self.entries.set(j, CacheEntry { id, result: value, timestamp });
                proof {
                    assert forall|k2: Seq<u8>| #[trigger] lookup(self.entries@, k2) == (if k2 == k {
                        Some(value)
                    } else {
                        lookup(old_entries, k2)
                    }) by {
                        lemma_lookup_update(old_entries, j as int, self.entries@[j as int], k2);
                    }
                    assert(unique_ids(self.entries@));
                    assert(self.store() =~= st.insert(k, view_result(value)));
                }
            },
            None => {
                self.entries.push(CacheEntry { id, result: value, timestamp });
                proof {
                    assert forall|k2: Seq<u8>| #[trigger] lookup(self.entries@, k2) == (if k2 == k {
                        Some(value)
                    } else {
                        lookup(old_entries, k2)
                    }) by {
                        lemma_lookup_push(old_entries, self.entries@.last(), k2);
                        assert(self.entries@ == old_entries.push(self.entries@.last()));
                    }
                    assert forall|a: int, b: int|
                        0 <= a < self.entries@.len() && 0 <= b < self.entries@.len() && a != b
                        implies self.entries@[a].id@ != self.entries@[b].id@ by {
                        if a == old_entries.len() as int {
                            lemma_lookup_found(old_entries, b);
                        } else if b == old_entries.len() as int {
                            lemma_lookup_found(old_entries, a);
                        }
                    }
                    assert(self.store() =~= st.insert(k, view_result(value)));
                }
            },
        }
    }

    /// Entry `j`, in storage order.
    pub fn entry(&self, j: usize) -> (r: &CacheEntry)
        requires
            j < self.entries_view().len(),
        ensures
            *r == self.entries_view()[j as int],
    {
        &self.entries[j]
    }

    /// Whether the id changed in the current cycle.
    pub fn was_changed(&self, id: &NodeId) -> (r: bool)
        ensures
            r == self.changed_ids().contains(id@),
    {
        let mut j: usize = 0;
        while j < self.changed.len()
            invariant
                j <= self.changed@.len(),
                forall|t: int| 0 <= t < j ==> self.changed@[t]@ != id@,
            decreases self.changed@.len() - j,
        {
            if ids_equal(&self.changed[j], id) {
                return true;
            }
            j = j + 1;
        }
        false
    }

    /// Marks an id as changed in the current cycle.
    pub fn mark_changed(&mut self, id: NodeId)
        requires
            old(self).wf(),
        ensures
            final(self).wf(),
            final(self).store() == old(self).store(),
            final(self).changed_ids() == old(self).changed_ids().insert(id@),
    {
        proof {
            lemma_id_set_push(self.changed@, id);
        }
        self.changed.push(id);
    }

    /// Starts a cycle: no id has changed yet; stored results stay.
    pub fn prepare_for_evaluation(&mut self)
        requires
            old(self).wf(),
        ensures
            final(self).wf(),
            final(self).store() == old(self).store(),
            final(self).changed_ids() == Set::<Seq<u8>>::empty(),
    {
        self.changed = Vec::new();
        assert(self.changed_ids() =~= Set::<Seq<u8>>::empty());
    }

    /// The number of stored results.
    pub fn len(&self) -> (r: usize)
        ensures
            r == self.entries_view().len(),
    {
        self.entries.len()
    }
}

} // verus!
