use vstd::prelude::*;
use crate::cache::{ids_equal, NodeCache};
use crate::driver::Cycle;
use crate::node::{Node, NodeId};
use crate::persist::{hex_encode, hex_of};
use crate::value::{clone_result, view_result, EvalResult};

verus! {

/// One line of the changes report.
pub struct Record {
    pub line: usize,
    /// The position of the reported expression among the cycle's roots.
    pub root: usize,
    pub snippet: String,
    pub id: NodeId,
    /// The first four bytes of the id, in hex.
    pub id_prefix: String,
    /// The cached result; None when the id holds none.
    pub result: Option<EvalResult>,
}

/// `rec` reports node `i` with what the cache holds for it.
pub open spec fn reports(ns: Seq<Node>, i: int, cache: NodeCache, rec: Record) -> bool {
    let id = ns[i].id@;
    &&& rec.line == ns[i].line
    &&& rec.snippet@ == ns[i].code_snippet@
    &&& rec.id@ == id
    &&& rec.id_prefix@ == hex_of(id.take(4))
    &&& (rec.result is None <==> !cache.store().contains_key(id))
    &&& (rec.result matches Some(v) ==> cache.store()[id] == view_result(v))
}

/// `rec` reports one of the roots, and that root's id changed.
pub open spec fn reports_changed_root(ns: Seq<Node>, roots: Seq<usize>, cache: NodeCache, rec: Record) -> bool {
    &&& exists|k: int| 0 <= k < roots.len() && rec.root == k && #[trigger] reports(ns, roots[k] as int, cache, rec)
    &&& cache.changed_ids().contains(rec.id@)
}

/// Ordered by line, and on one line by the roots' source order.
pub open spec fn sorted_by_line(s: Seq<Record>) -> bool {
    forall|a: int, b: int|
        0 <= a < b < s.len() ==> s[a].line < s[b].line || (s[a].line == s[b].line && s[a].root < s[b].root)
}

pub open spec fn has_id(s: Seq<Record>, id: Seq<u8>) -> bool {
    exists|a: int| 0 <= a < s.len() && (#[trigger] s[a]).id@ == id
}

/// Inserts after every record on the same or an earlier line.
fn insert_sorted(v: &mut Vec<Record>, rec: Record) -> (p: usize)
    requires
        sorted_by_line(old(v)@),
        forall|a: int| 0 <= a < old(v)@.len() ==> (#[trigger] old(v)@[a]).root < rec.root,
    ensures
        p <= old(v)@.len(),
        final(v)@ == old(v)@.insert(p as int, rec),
        sorted_by_line(final(v)@),
{
    let mut p: usize = 0;
    while p < v.len() && v[p].line <= rec.line
        invariant
            p <= v@.len(),
            forall|a: int| 0 <= a < p ==> v@[a].line <= rec.line,
        decreases v@.len() - p,
    {
        p = p + 1;
    }
    let ghost line = rec.line;
    v.insert(p, rec);
    proof {
        let s = old(v)@;
        let t = v@;
        assert forall|a: int, b: int| 0 <= a < b < t.len() implies t[a].line < t[b].line || (t[a].line
            == t[b].line && t[a].root < t[b].root) by {
            if p < s.len() {
                assert(s[p as int].line > line);
            }
            if b < p {
                assert(t[a] == s[a] && t[b] == s[b]);
            } else if b == p {
                assert(t[a] == s[a]);
            } else if a < p {
                assert(t[b] == s[b - 1] && t[a] == s[a]);
                assert(s[p as int].line > line);
            } else if a == p {
                assert(t[b] == s[b - 1]);
                assert(s[p as int].line > line);
            } else {
                assert(t[b] == s[b - 1] && t[a] == s[a - 1]);
            }
        }
    }
    p
}

fn contains_id(v: &Vec<Record>, id: &NodeId) -> (r: bool)
    ensures
        r == has_id(v@, id@),
{
    let mut a: usize = 0;
    while a < v.len()
        invariant
            a <= v@.len(),
            forall|t: int| 0 <= t < a ==> v@[t].id@ != id@,
        decreases v@.len() - a,
    {
        if ids_equal(&v[a].id, id) {
            return true;
        }
        a = a + 1;
    }
    false
}

fn id_prefix(id: &NodeId) -> (r: String)
    ensures
        r@ == hex_of(id@.take(4)),
{
    let mut b: Vec<u8> = Vec::new();
    let mut i: usize = 0;
    while i < 4
        invariant
            i <= 4,
            id@.len() == 32,
            b@ == id@.take(i as int),
        decreases 4 - i,
    {
        b.push(id[i]);
        i = i + 1;
        assert(id@.take(i as int) == id@.take(i as int - 1).push(id@[i as int - 1]));
    }
    hex_encode(b.as_slice())
}

/// The report of a cycle: one record per top-level expression whose id changed
/// in this cycle, each id once, ordered by line (roots on one line keep their
/// order). Only top-level expressions are reported, by design: a change inside
/// an expression shows as a change of the expression that holds it, so editing
/// `(def x 2) (def y (* x 3)) (+ x y)` reports three records, not one per
/// changed sub-expression.
pub fn changed_records(c: &Cycle, cache: &NodeCache) -> (r: Vec<Record>)
    requires
        c.graph.wf(),
        cache.wf(),
        forall|k: int| 0 <= k < c.roots@.len() ==> c.roots@[k] < c.graph.nodes@.len(),
    ensures
        sorted_by_line(r@),
        forall|a: int| 0 <= a < r@.len() ==> #[trigger] reports_changed_root(c.graph.nodes@, c.roots@, *cache, r@[a]),
        forall|k: int| 0 <= k < c.roots@.len() && cache.changed_ids().contains(
            #[trigger] c.graph.nodes@[c.roots@[k] as int].id@,
        ) ==> has_id(r@, c.graph.nodes@[c.roots@[k] as int].id@),
        forall|a: int, b: int| 0 <= a < b < r@.len() ==> r@[a].id@ != r@[b].id@,
{
    let ns = &c.graph.nodes;
    let mut out: Vec<Record> = Vec::new();
    let mut k: usize = 0;
    while k < c.roots.len()
        invariant
            k <= c.roots@.len(),
            cache.wf(),
            forall|t: int| 0 <= t < c.roots@.len() ==> c.roots@[t] < c.graph.nodes@.len(),
            *ns == c.graph.nodes,
            sorted_by_line(out@),
            forall|a: int| 0 <= a < out@.len() ==> #[trigger] reports_changed_root(c.graph.nodes@, c.roots@, *cache, out@[a]),
            forall|t: int| 0 <= t < k && cache.changed_ids().contains(
                #[trigger] c.graph.nodes@[c.roots@[t] as int].id@,
            ) ==> has_id(out@, c.graph.nodes@[c.roots@[t] as int].id@),
            forall|a: int, b: int| 0 <= a < b < out@.len() ==> out@[a].id@ != out@[b].id@,
            forall|a: int| 0 <= a < out@.len() ==> (#[trigger] out@[a]).root < k,
        decreases c.roots@.len() - k,
    {
        let i = c.roots[k];
        let n = &ns[i];
        if cache.was_changed(&n.id) && !contains_id(&out, &n.id) {
            let result = match cache.get(&n.id) {
                Some(v) => Some(clone_result(v)),
                None => None,
            };
            let rec = Record {
                line: n.line,
                root: k,
                snippet: n.code_snippet.clone(),
                id: n.id,
                id_prefix: id_prefix(&n.id),
                result,
            };
            assert(reports(c.graph.nodes@, c.roots@[k as int] as int, *cache, rec));
            let ghost s = out@;
            let p = insert_sorted(&mut out, rec);
            proof {
                let t = out@;
                assert(t[p as int] == rec);
                assert forall|a: int| 0 <= a < t.len() implies #[trigger] reports_changed_root(c.graph.nodes@, c.roots@, *cache, t[a]) by {
                    if a < p {
                        assert(t[a] == s[a]);
                        assert(reports_changed_root(c.graph.nodes@, c.roots@, *cache, s[a]));
                    } else if a == p {
                        assert(reports(c.graph.nodes@, c.roots@[k as int] as int, *cache, t[a]));
                    } else {
                        assert(t[a] == s[a - 1]);
                        assert(reports_changed_root(c.graph.nodes@, c.roots@, *cache, s[a - 1]));
                    }
                }
                assert forall|u: int| 0 <= u < k + 1 && cache.changed_ids().contains(
                    #[trigger] c.graph.nodes@[c.roots@[u] as int].id@,
                ) implies has_id(t, c.graph.nodes@[c.roots@[u] as int].id@) by {
                    if u == k {
                        assert(t[p as int].id@ == c.graph.nodes@[c.roots@[u] as int].id@);
                    } else {
                        let w = choose|w: int| 0 <= w < s.len() && (#[trigger] s[w]).id@ == c.graph.nodes@[c.roots@[u] as int].id@;
                        if w < p {
                            assert(t[w] == s[w]);
                        } else {
                            assert(t[w + 1] == s[w]);
                        }
                    }
                }
                assert forall|a: int| 0 <= a < t.len() implies (#[trigger] t[a]).root < k + 1 by {
                    if a < p {
                        assert(t[a] == s[a]);
                    } else if a > p {
                        assert(t[a] == s[a - 1]);
                    }
                }
                assert forall|a: int, b: int| 0 <= a < b < t.len() implies t[a].id@ != t[b].id@ by {
                    if a == p {
                        if b > p {
                            assert(t[b] == s[b - 1]);
                        }
                    } else if b == p {
                        assert(t[a] == s[a]);
                    } else {
                        let a0 = if a < p { a } else { a - 1 };
                        let b0 = if b < p { b } else { b - 1 };
                        assert(t[a] == s[a0] && t[b] == s[b0]);
                    }
                }
            }
        } else {
            proof {
                if cache.changed_ids().contains(c.graph.nodes@[c.roots@[k as int] as int].id@) {
                    assert(has_id(out@, c.graph.nodes@[c.roots@[k as int] as int].id@));
                }
            }
        }
        k = k + 1;
    }
    out
}

} // verus!
