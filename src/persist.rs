use vstd::prelude::*;
use vstd::string::StrSliceExecFns;
use crate::cache::{lookup, CacheEntry, CacheRecord, NodeCache};
use crate::node::NodeId;
use crate::value::{view_result, ResultView};
use crate::cache::CacheState;
use crate::driver::{all_done, lemma_rerun_changes_nothing, roots_not_symbols, run_spec};
use crate::node::Node;

verus! {

/// The lowercase hex digits, by value.
pub open spec fn hex_digits() -> Seq<char> {
    seq!['0', '1', '2', '3', '4', '5', '6', '7', '8', '9', 'a', 'b', 'c', 'd', 'e', 'f']
}

/// Two lowercase hex digits per byte, high half first.
pub open spec fn hex_of(b: Seq<u8>) -> Seq<char> {
    Seq::new(
        2 * b.len(),
        |i: int|
            if i % 2 == 0 {
                hex_digits()[b[i / 2] as int / 16]
            } else {
                hex_digits()[b[i / 2] as int % 16]
            },
    )
}

pub open spec fn is_lower_hex(s: Seq<char>) -> bool {
    &&& s.len() % 2 == 0
    &&& forall|i: int| 0 <= i < s.len() ==> hex_digits().contains(#[trigger] s[i])
}

/// Relies on hex::encode: two lowercase hex digits for each byte, high half first.
#[verifier::external_body]
pub(crate) fn hex_encode(b: &[u8]) -> (r: String)
    ensures
        r@ == hex_of(b@),
{
    hex::encode(b)
}

/// Relies on hex::decode: a lowercase hex text of even length decodes to the
/// bytes it spells.
#[verifier::external_body]
fn hex_decode(s: &str) -> (r: Option<Vec<u8>>)
    ensures
        is_lower_hex(s@) ==> r is Some && hex_of(r->Some_0@) == s@,
{
    hex::decode(s).ok()
}

fn is_hex_digit(c: char) -> (r: bool)
    ensures
        r == hex_digits().contains(c),
{
    let r = match c {
        '0' | '1' | '2' | '3' | '4' | '5' | '6' | '7' | '8' | '9' => true,
        'a' | 'b' | 'c' | 'd' | 'e' | 'f' => true,
        _ => false,
    };
    proof {
        if r {
            let k: int = if c == '0' { 0 } else if c == '1' { 1 } else if c == '2' { 2 } else if c == '3' { 3 }
                else if c == '4' { 4 } else if c == '5' { 5 } else if c == '6' { 6 } else if c == '7' { 7 }
                else if c == '8' { 8 } else if c == '9' { 9 } else if c == 'a' { 10 } else if c == 'b' { 11 }
                else if c == 'c' { 12 } else if c == 'd' { 13 } else if c == 'e' { 14 } else { 15 };
            assert(hex_digits()[k] == c);
        } else {
            assert forall|i: int| 0 <= i < 16 implies hex_digits()[i] != c by {}
        }
    }
    r
}

/// Whether a text is the lowercase hex of a 32-byte id: 64 lowercase hex digits.
pub fn is_id_text(s: &str) -> (r: bool)
    ensures
        r == (s@.len() == 64 && is_lower_hex(s@)),
{
    let n = s.unicode_len();
    if n != 64 {
        return false;
    }
    let mut i: usize = 0;
    while i < n
        invariant
            n == s@.len(),
            i <= n,
            forall|k: int| 0 <= k < i ==> hex_digits().contains(#[trigger] s@[k]),
        decreases n - i,
    {
        if !is_hex_digit(s.get_char(i)) {
            return false;
        }
        i = i + 1;
    }
    true
}

proof fn lemma_digits_distinct(i: int, j: int)
    requires
        0 <= i < 16,
        0 <= j < 16,
        hex_digits()[i] == hex_digits()[j],
    ensures
        i == j,
{
}

/// Hex text names one byte string.
pub proof fn lemma_hex_injective(a: Seq<u8>, b: Seq<u8>)
    requires
        hex_of(a) == hex_of(b),
    ensures
        a == b,
{
    assert(hex_of(a).len() == 2 * a.len());
    assert(hex_of(b).len() == 2 * b.len());
    assert(a.len() == b.len());
    assert forall|k: int| 0 <= k < a.len() implies a[k] == b[k] by {
        assert((2 * k) / 2 == k && (2 * k) % 2 == 0);
        assert((2 * k + 1) / 2 == k && (2 * k + 1) % 2 == 1);
        assert(hex_of(a)[2 * k] == hex_of(b)[2 * k]);
        assert(hex_of(a)[2 * k + 1] == hex_of(b)[2 * k + 1]);
        assert(hex_of(a)[2 * k] == hex_digits()[a[k] as int / 16]);
        assert(hex_of(b)[2 * k] == hex_digits()[b[k] as int / 16]);
        assert(hex_of(a)[2 * k + 1] == hex_digits()[a[k] as int % 16]);
        assert(hex_of(b)[2 * k + 1] == hex_digits()[b[k] as int % 16]);
        lemma_digits_distinct(a[k] as int / 16, b[k] as int / 16);
        lemma_digits_distinct(a[k] as int % 16, b[k] as int % 16);
    }
    assert(a =~= b);
}

proof fn lemma_hex_is_lower(b: Seq<u8>)
    ensures
        is_lower_hex(hex_of(b)),
{
    let h = hex_of(b);
    assert forall|i: int| 0 <= i < h.len() implies hex_digits().contains(#[trigger] h[i]) by {
        if i % 2 == 0 {
            assert(h[i] == hex_digits()[b[i / 2] as int / 16]);
        } else {
            assert(h[i] == hex_digits()[b[i / 2] as int % 16]);
        }
    }
}

/// The bytes a lowercase hex text spells.
pub open spec fn unhex(s: Seq<char>) -> Seq<u8> {
    choose|b: Seq<u8>| hex_of(b) == s
}

/// Every record's id is the lowercase hex of 32 bytes.
pub open spec fn all_ids_hex(recs: Seq<CacheRecord>) -> bool {
    forall|j: int| 0 <= j < recs.len() ==> #[trigger] id_is_hex(recs[j].id_hex@)
}

/// The text is the lowercase hex of some 32 bytes.
pub open spec fn id_is_hex(s: Seq<char>) -> bool {
    exists|b: Seq<u8>| b.len() == 32 && hex_of(b) == s
}

/// The results that loading the records gives; a later record wins.
pub open spec fn records_store(recs: Seq<CacheRecord>) -> Map<Seq<u8>, ResultView>
    decreases recs.len(),
{
    if recs.len() == 0 {
        Map::empty()
    } else {
        records_store(recs.drop_last()).insert(unhex(recs.last().id_hex@), view_result(recs.last().result))
    }
}

/// `recs` lists the entries of `c` in order: id in hex, same result, same time.
pub open spec fn exported(entries: Seq<CacheEntry>, recs: Seq<CacheRecord>) -> bool {
    &&& recs.len() == entries.len()
    &&& forall|j: int| 0 <= j < recs.len() ==> {
        &&& #[trigger] recs[j].id_hex@ == hex_of(entries[j].id@)
        &&& view_result(recs[j].result) == view_result(entries[j].result)
        &&& recs[j].timestamp@ == entries[j].timestamp@
    }
}

fn id_from_bytes(v: &Vec<u8>) -> (r: NodeId)
    requires
        v@.len() == 32,
    ensures
        r@ == v@,
{
    let mut a: NodeId = [0u8; 32];
    let mut i: usize = 0;
    while i < 32
        invariant
            i <= 32,
            v@.len() == 32,
            a@.len() == 32,
            forall|j: int| 0 <= j < i ==> a@[j] == v@[j],
        decreases 32 - i,
    {
        a[i] = v[i];
        i = i + 1;
    }
    assert(a@ =~= v@);
    a
}

impl NodeCache {
    /// The entries as records to persist, in order.
    pub fn records(&self) -> (r: Vec<CacheRecord>)
        ensures
            exported(self.entries_view(), r@),
    {
        let mut out: Vec<CacheRecord> = Vec::new();
        let mut j: usize = 0;
        let n = self.len();
        while j < n
            invariant
                n == self.entries_view().len(),
                j <= n,
                out@.len() == j,
                forall|t: int| 0 <= t < j ==> {
                    &&& #[trigger] out@[t].id_hex@ == hex_of(self.entries_view()[t].id@)
                    &&& view_result(out@[t].result) == view_result(self.entries_view()[t].result)
                    &&& out@[t].timestamp@ == self.entries_view()[t].timestamp@
                },
            decreases n - j,
        {
            let e = self.entry(j);
            out.push(CacheRecord {
                id_hex: hex_encode(e.id.as_slice()),
                result: crate::value::clone_result(&e.result),
                timestamp: e.timestamp.clone(),
            });
            j = j + 1;
        }
        out
    }

    /// A cache holding the records' results, with no id marked changed. A
    /// malformed set of records, one whose id is not the hex of 32 bytes, gives
    /// an empty cache.
    pub fn from_records(recs: &Vec<CacheRecord>) -> (c: NodeCache)
        ensures
            c.wf(),
            c.changed_ids() == Set::<Seq<u8>>::empty(),
            all_ids_hex(recs@) ==> c.store() == records_store(recs@),
            !all_ids_hex(recs@) ==> c.store() == Map::<Seq<u8>, ResultView>::empty(),
    {
        let mut ids: Vec<NodeId> = Vec::new();
        let mut j: usize = 0;
        while j < recs.len()
            invariant
                j <= recs@.len(),
                ids@.len() == j,
                forall|t: int| 0 <= t < j ==> hex_of((#[trigger] ids@[t])@) == recs@[t].id_hex@,
            decreases recs@.len() - j,
        {
            let r = &recs[j];
            if !is_id_text(r.id_hex.as_str()) {
                proof {
                    if all_ids_hex(recs@) {
                        assert(id_is_hex(recs@[j as int].id_hex@));
                        let b = choose|b: Seq<u8>| b.len() == 32 && hex_of(b) == recs@[j as int].id_hex@;
                        lemma_hex_is_lower(b);
                        assert(hex_of(b).len() == 64);
                    }
                }
                return NodeCache::new();
            }
            match hex_decode(r.id_hex.as_str()) {
                Some(v) => {
                    assert(hex_of(v@).len() == 2 * v@.len());
                    let id = id_from_bytes(&v);
                    ids.push(id);
                },
                None => {
                    return NodeCache::new();
                },
            }
            j = j + 1;
        }
        assert(all_ids_hex(recs@)) by {
            assert forall|t: int| 0 <= t < recs@.len() implies #[trigger] id_is_hex(recs@[t].id_hex@) by {
                assert(hex_of(ids@[t]@) == recs@[t].id_hex@);
                assert(ids@[t]@.len() == 32);
            }
        }
        let mut c = NodeCache::new();
        let mut k: usize = 0;
        while k < recs.len()
            invariant
                k <= recs@.len(),
                ids@.len() == recs@.len(),
                forall|t: int| 0 <= t < recs@.len() ==> hex_of((#[trigger] ids@[t])@) == recs@[t].id_hex@,
                c.wf(),
                c.changed_ids() == Set::<Seq<u8>>::empty(),
                c.store() == records_store(recs@.take(k as int)),
            decreases recs@.len() - k,
        {
            let r = &recs[k];
            proof {
                assert(recs@.take(k as int + 1).drop_last() == recs@.take(k as int));
                assert(hex_of(ids@[k as int]@) == recs@[k as int].id_hex@);
                lemma_hex_injective(unhex(r.id_hex@), ids@[k as int]@);
            }
            c.load(ids[k], crate::value::clone_result(&r.result), r.timestamp.clone());
            k = k + 1;
        }
        assert(recs@.take(recs@.len() as int) == recs@);
        c
    }
}

/// The results stored under a sequence of entries with distinct ids.
proof fn lemma_store_prefix(entries: Seq<CacheEntry>, recs: Seq<CacheRecord>, k: Seq<u8>)
    requires
        exported(entries, recs),
    ensures
        records_store(recs).contains_key(k) <==> lookup(entries, k) is Some,
        lookup(entries, k) is Some ==> records_store(recs)[k] == view_result(lookup(entries, k)->Some_0),
    decreases entries.len(),
{
    if entries.len() > 0 {
        let e2 = entries.drop_last();
        let r2 = recs.drop_last();
        assert(exported(e2, r2)) by {
            assert forall|j: int| 0 <= j < r2.len() implies {
                &&& #[trigger] r2[j].id_hex@ == hex_of(e2[j].id@)
                &&& view_result(r2[j].result) == view_result(e2[j].result)
                &&& r2[j].timestamp@ == e2[j].timestamp@
            } by {
                assert(recs[j].id_hex@ == hex_of(entries[j].id@));
            }
        }
        lemma_store_prefix(e2, r2, k);
        let last = recs.len() - 1;
        assert(recs[last].id_hex@ == hex_of(entries[last].id@));
        lemma_hex_injective(unhex(recs.last().id_hex@), entries.last().id@);
    }
}

/// Saving a cache as records and loading them back gives the same results.
pub proof fn lemma_cache_round_trip(entries: Seq<CacheEntry>, recs: Seq<CacheRecord>)
    requires
        exported(entries, recs),
        forall|j: int| 0 <= j < entries.len() ==> (#[trigger] entries[j]).id@.len() == 32,
    ensures
        all_ids_hex(recs),
        forall|k: Seq<u8>|
            #![trigger records_store(recs).contains_key(k)]
            #![trigger lookup(entries, k)]
            (records_store(recs).contains_key(k) <==> lookup(entries, k) is Some) && (lookup(
                entries,
                k,
            ) is Some ==> records_store(recs)[k] == view_result(lookup(entries, k)->Some_0)),
{
    assert forall|j: int| 0 <= j < recs.len() implies exists|b: Seq<u8>| b.len() == 32 && hex_of(b) == #[trigger] recs[j].id_hex@ by {
        assert(recs[j].id_hex@ == hex_of(entries[j].id@));
        assert(entries[j].id@.len() == 32);
    }
    assert forall|k: Seq<u8>| (records_store(recs).contains_key(k) <==> lookup(entries, k) is Some) && (lookup(
        entries,
        k,
    ) is Some ==> records_store(recs)[k] == view_result(lookup(entries, k)->Some_0)) by {
        lemma_store_prefix(entries, recs, k);
    }
}

/// Saving a completed cycle's cache as records, loading them back and running
/// the same roots again stores nothing new and marks nothing changed. Stated
/// for cycles whose top-level expressions are not bare symbols.
pub proof fn lemma_save_reload_rerun(
    ns: Seq<Node>,
    roots: Seq<usize>,
    st: CacheState,
    c: NodeCache,
    recs: Seq<CacheRecord>,
)
    requires
        all_done(ns, roots, st),
        roots_not_symbols(ns, roots),
        c.wf(),
        c.store() == run_spec(ns, roots, st).0.0,
        exported(c.entries_view(), recs),
    ensures
        all_ids_hex(recs),
        records_store(recs) == c.store(),
        run_spec(ns, roots, (records_store(recs), Set::empty())).0 == (
            records_store(recs),
            Set::<Seq<u8>>::empty(),
        ),
{
    assert forall|j: int| 0 <= j < c.entries_view().len() implies (#[trigger] c.entries_view()[j]).id@.len()
        == 32 by {}
    lemma_cache_round_trip(c.entries_view(), recs);
    assert forall|k: Seq<u8>| records_store(recs).contains_key(k) == c.store().contains_key(k) by {
        assert(records_store(recs).contains_key(k) <==> lookup(c.entries_view(), k) is Some);
    }
    assert forall|k: Seq<u8>| #[trigger] c.store().contains_key(k) implies records_store(recs)[k] == c.store()[k] by {
        assert(lookup(c.entries_view(), k) is Some);
    }
    assert(records_store(recs) =~= c.store());
    lemma_rerun_changes_nothing(ns, roots, st);
}

} // verus!
