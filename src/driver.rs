use vstd::prelude::*;
use crate::ast::ExprAst;
use crate::cache::{cache_write, CacheState, NodeCache};
use crate::env::{lemma_resolve_after_bind, resolve_in, Env};
use crate::eval::{
    children_before, eval_node, eval_spec, extends, keeps_keys, lemma_cache_hit, lemma_fetch_fresh, lemma_frame,
    lemma_keys_kept,
    view_step, Step, StepView,
};
use crate::lower::{lemma_lowered_frame, lower, lowered_tree};
use crate::ast::{ast_size, total_size};
use crate::node::{Graph, Node, NodeId, NodeKind};
use crate::value::{view_result, Error, EvalResult, ResultView, Value};

verus! {

/// The name and value node that a root binds once it succeeds: a definition
/// or let-statement whose name is a symbol.
pub open spec fn binding_of(ns: Seq<Node>, i: int) -> Option<(Seq<char>, usize)> {
    let n = ns[i];
    if (n.kind is Definition || n.kind is LetStatement) && n.children@.len() == 3 && 0
        <= n.children@[1] < ns.len() && ns[n.children@[1] as int].kind is Symbol {
        Some((ns[n.children@[1] as int].kind->Symbol_0@, n.children@[2]))
    } else {
        None
    }
}

/// What processing root `i` does: evaluate it, and record a failure under its id.
pub open spec fn root_effect(ns: Seq<Node>, i: int, st: CacheState) -> (StepView, CacheState) {
    let (sv, st1) = eval_spec(ns, i, st);
    match sv {
        StepView::Done(ResultView::Failure(k, m)) => (sv, cache_write(st1, ns[i].id@, ResultView::Failure(k, m))),
        _ => (sv, st1),
    }
}

/// The bindings after root `i` had outcome `sv`: a definition that succeeded
/// binds its name to its value node; nothing else binds.
pub open spec fn env_after(ns: Seq<Node>, i: int, sv: StepView, bs: Seq<(Seq<char>, usize)>) -> Seq<(Seq<char>, usize)> {
    match (sv, binding_of(ns, i)) {
        (StepView::Done(r), Some(b)) => if r is Failure {
            bs
        } else {
            bs.push(b)
        },
        _ => bs,
    }
}

/// Running the roots in order from an empty environment: the cache state and
/// the bindings they leave.
pub open spec fn run_spec(ns: Seq<Node>, roots: Seq<usize>, st: CacheState) -> (CacheState, Seq<(Seq<char>, usize)>)
    decreases roots.len(),
{
    if roots.len() == 0 {
        (st, Seq::empty())
    } else {
        let (st0, bs) = run_spec(ns, roots.drop_last(), st);
        let (sv, st1) = root_effect(ns, roots.last() as int, st0);
        (st1, env_after(ns, roots.last() as int, sv, bs))
    }
}

/// The outcome of the last root of a run.
pub open spec fn last_outcome(ns: Seq<Node>, roots: Seq<usize>, st: CacheState) -> StepView {
    root_effect(ns, roots.last() as int, run_spec(ns, roots.drop_last(), st).0).0
}

proof fn lemma_wf_children_before(g: Graph)
    requires
        g.wf(),
    ensures
        children_before(g.nodes@),
{
    assert forall|j: int, k: int|
        0 <= j < g.nodes@.len() && 0 <= k < g.nodes@[j].children@.len() implies #[trigger] g.nodes@[j].children@[k] < j by {
        assert(crate::node::node_wf(g.nodes@, j));
    }
}

/// A run over roots already in the graph is not changed by nodes added later.
proof fn lemma_frame_run(ns: Seq<Node>, ms: Seq<Node>, roots: Seq<usize>, st: CacheState)
    requires
        children_before(ns),
        extends(ns, ms),
        forall|k: int| 0 <= k < roots.len() ==> #[trigger] roots[k] < ns.len(),
    ensures
        run_spec(ns, roots, st) == run_spec(ms, roots, st),
        roots.len() > 0 ==> last_outcome(ns, roots, st) == last_outcome(ms, roots, st),
        all_done(ns, roots, st) == all_done(ms, roots, st),
    decreases roots.len(),
{
    if roots.len() > 0 {
        let prefix = roots.drop_last();
        assert forall|k: int| 0 <= k < prefix.len() implies #[trigger] prefix[k] < ns.len() by {
            assert(prefix[k] == roots[k]);
        }
        lemma_frame_run(ns, ms, prefix, st);
        let r = roots.last() as int;
        assert(roots[roots.len() - 1] < ns.len());
        let st0 = run_spec(ns, prefix, st).0;
        lemma_frame(ns, ms, r, st0);
        assert(ms[r] == ns[r]);
        if ns[r].children@.len() == 3 {
            assert(ns[r].children@[1] < r);
            assert(ms[ns[r].children@[1] as int] == ns[ns[r].children@[1] as int]);
        }
        assert(binding_of(ns, r) == binding_of(ms, r));
    }
}

/// Node `r` is the lowered form of root expression `a`: same line, same text.
pub open spec fn root_of(ns: Seq<Node>, r: usize, a: ExprAst) -> bool {
    &&& r < ns.len()
    &&& ns[r as int].line == a.span().line
    &&& ns[r as int].code_snippet@ == a.span().text@
}

/// One root after lowering and evaluation.
pub struct RootEval {
    pub node: usize,
    pub step: Step,
}

/// Lowers one root and evaluates it. A failure is recorded in the cache under
/// the root's id; a definition whose value succeeded binds its name in `env`.
pub fn process_root(ast: &ExprAst, g: &mut Graph, env: &mut Env, cache: &mut NodeCache) -> (r: Option<RootEval>)
    requires
        old(g).wf(),
        old(env).bound_below(old(g).nodes@.len() as int),
        old(cache).wf(),
    ensures
        final(g).wf(),
        final(cache).wf(),
        final(env).bound_below(final(g).nodes@.len() as int),
        final(g).nodes@.len() >= old(g).nodes@.len(),
        final(g).nodes@.take(old(g).nodes@.len() as int) == old(g).nodes@,
        r is None ==> final(env).view() == old(env).view() && final(cache).state() == old(cache).state()
            && final(g).nodes@.len() == usize::MAX,
        final(g).nodes@.len() <= old(g).nodes@.len() + ast_size(*ast),
        r matches Some(re) ==> {
            let i = re.node as int;
            &&& old(g).nodes@.len() <= i < final(g).nodes@.len()
            &&& final(g).nodes@[i].line == ast.span().line
            &&& final(g).nodes@[i].code_snippet@ == ast.span().text@
            &&& lowered_tree(final(g).nodes@, i, *ast, old(env).view(), true)
            &&& (view_step(re.step), final(cache).state()) == root_effect(final(g).nodes@, i, old(cache).state())
            &&& final(env).view() == env_after(final(g).nodes@, i, view_step(re.step), old(env).view())
        },
{
    let ghost g0 = g.nodes@;
    let i = match lower(ast, g, env, true) {
        Some(i) => i,
        None => {
            return None;
        },
    };
    let step = eval_node(g, i, cache);
    let id = g.nodes[i].id;
    match &step {
        Step::Done(Err(e)) => {
            cache.insert(id, Err(crate::value::clone_error(e)));
        },
        Step::Done(Ok(_)) => {
            let n = &g.nodes[i];
            if (matches!(n.kind, NodeKind::Definition) || matches!(n.kind, NodeKind::LetStatement))
                && n.children.len() == 3 {
                proof {
                    assert(crate::node::node_wf(g.nodes@, i as int));
                }
                match &g.nodes[n.children[1]].kind {
                    NodeKind::Symbol(name) => {
                        proof {
                            assert(crate::node::node_wf(g.nodes@, i as int));
                        }
                        env.bind(name.clone(), n.children[2]);
                    },
                    _ => {},
                }
            }
        },
        _ => {},
    }
    Some(RootEval { node: i, step })
}

/// One completed cycle: the graph, the root nodes in source order, the root
/// environment it left, and the last root's result.
pub struct Cycle {
    pub graph: Graph,
    pub roots: Vec<usize>,
    pub env: Env,
    pub last: Option<EvalResult>,
}

/// A cycle stopped at a root whose evaluation needs a fetch: the roots before it
/// completed; the `http.get` node with id `id` must get the response for `url`
/// first. Record it in the cache and run the cycle again.
pub struct Pending {
    pub cycle: Cycle,
    pub root: usize,
    pub id: NodeId,
    pub url: String,
}

pub enum CycleOutcome {
    Complete(Cycle),
    Fetch(Pending),
    /// The source has more nodes than a graph can hold.
    TooLarge,
}

/// Each root node is the lowering of its expression under the bindings that the
/// roots before it left.
pub open spec fn roots_lowered(ns: Seq<Node>, roots: Seq<usize>, asts: Seq<ExprAst>, st: CacheState) -> bool {
    forall|k: int|
        0 <= k < roots.len() ==> lowered_tree(
            ns,
            #[trigger] roots[k] as int,
            asts[k],
            run_spec(ns, roots.take(k), st).1,
            true,
        )
}

proof fn lemma_total_size_prefix(s: Seq<ExprAst>, k: int)
    requires
        0 <= k <= s.len(),
    ensures
        total_size(s.take(k)) <= total_size(s),
    decreases s.len(),
{
    if k < s.len() {
        assert(s.take(k) == s.drop_last().take(k));
        lemma_total_size_prefix(s.drop_last(), k);
    } else {
        assert(s.take(k) == s);
    }
}

/// Evaluates the roots in source order under one root environment. Failed roots
/// do not stop the cycle. The cycle completes unless a root needs a fetch, or the
/// source lowers to more nodes than a graph can hold.
pub fn run_cycle(asts: &Vec<ExprAst>, cache: &mut NodeCache) -> (r: CycleOutcome)
    requires
        old(cache).wf(),
    ensures
        final(cache).wf(),
        r matches CycleOutcome::Complete(c) ==> {
            &&& c.graph.wf()
            &&& c.roots@.len() == asts@.len()
            &&& forall|k: int| 0 <= k < c.roots@.len() ==> #[trigger] root_of(c.graph.nodes@, c.roots@[k], asts@[k])
            &&& (c.last is None <==> asts@.len() == 0)
            &&& run_spec(c.graph.nodes@, c.roots@, old(cache).state()) == (final(cache).state(), c.env.view())
            &&& c.last matches Some(r) ==> last_outcome(c.graph.nodes@, c.roots@, old(cache).state())
                == StepView::Done(view_result(r))
            &&& all_done(c.graph.nodes@, c.roots@, old(cache).state())
            &&& roots_lowered(c.graph.nodes@, c.roots@, asts@, old(cache).state())
        },
        r matches CycleOutcome::Fetch(p) ==> {
            let ns = p.cycle.graph.nodes@;
            let rs = p.cycle.roots@;
            let before = run_spec(ns, rs, old(cache).state());
            &&& p.cycle.graph.wf()
            &&& rs.len() < asts@.len()
            &&& forall|k: int| 0 <= k < rs.len() ==> #[trigger] root_of(ns, rs[k], asts@[k])
            &&& roots_lowered(ns, rs, asts@, old(cache).state())
            &&& all_done(ns, rs, old(cache).state())
            &&& before.1 == p.cycle.env.view()
            &&& lowered_tree(ns, p.root as int, asts@[rs.len() as int], before.1, true)
            &&& root_effect(ns, p.root as int, before.0) == (StepView::Fetch(p.id@, p.url@), final(cache).state())
            &&& !old(cache).store().contains_key(p.id@)
        },
        r is TooLarge ==> total_size(asts@) >= usize::MAX,
        asts@.len() == 0 ==> r is Complete && final(cache).state() == old(cache).state(),
{
    let mut g = Graph::new();
    let mut env = Env::new();
    let mut roots: Vec<usize> = Vec::new();
    let mut last: Option<EvalResult> = None;
    let mut k: usize = 0;
    while k < asts.len()
        invariant
            g.wf(),
            cache.wf(),
            env.bound_below(g.nodes@.len() as int),
            k <= asts@.len(),
            roots@.len() == k,
            forall|t: int| 0 <= t < k ==> #[trigger] root_of(g.nodes@, roots@[t], asts@[t]),
            last is None <==> k == 0,
            k == 0 ==> cache.state() == old(cache).state(),
            run_spec(g.nodes@, roots@, old(cache).state()) == (cache.state(), env.view()),
            last matches Some(r) ==> last_outcome(g.nodes@, roots@, old(cache).state()) == StepView::Done(
                view_result(r),
            ),
            all_done(g.nodes@, roots@, old(cache).state()),
            roots_lowered(g.nodes@, roots@, asts@, old(cache).state()),
            g.nodes@.len() <= total_size(asts@.take(k as int)),
        decreases asts@.len() - k,
    {
        let ghost gk = g.nodes@;
        let ghost rk = roots@;
        let ghost st_k = cache.state();
        let ghost env_k = env.view();
        match process_root(&asts[k], &mut g, &mut env, cache) {
            None => {
                proof {
                    assert(asts@.take(k as int + 1).drop_last() == asts@.take(k as int));
                    lemma_total_size_prefix(asts@, k as int + 1);
                }
                return CycleOutcome::TooLarge;
            },
            Some(re) => {
                proof {
                    assert forall|t: int| 0 <= t < k implies #[trigger] root_of(g.nodes@, roots@[t], asts@[t]) by {
                        assert(root_of(gk, roots@[t], asts@[t]));
                        assert(g.nodes@.take(gk.len() as int)[roots@[t] as int] == gk[roots@[t] as int]);
                    }
                }
                proof {
                    lemma_wf_children_before(g);
                    assert forall|t: int| 0 <= t < rk.len() implies #[trigger] rk[t] < gk.len() by {
                        assert(root_of(gk, rk[t], asts@[t]));
                    }
                    assert(children_before(gk)) by {
                        assert forall|j: int, q: int|
                            0 <= j < gk.len() && 0 <= q < gk[j].children@.len() implies #[trigger] gk[j].children@[q] < j by {
                            assert(g.nodes@.take(gk.len() as int)[j] == gk[j]);
                        }
                    }
                    assert(extends(gk, g.nodes@)) by {
                        assert forall|j: int| 0 <= j < gk.len() implies #[trigger] g.nodes@[j] == gk[j] by {
                            assert(g.nodes@.take(gk.len() as int)[j] == gk[j]);
                        }
                    }
                    lemma_frame_run(gk, g.nodes@, rk, old(cache).state());
                    assert forall|t: int| 0 <= t < rk.len() implies lowered_tree(
                        g.nodes@,
                        #[trigger] rk[t] as int,
                        asts@[t],
                        run_spec(g.nodes@, rk.take(t), old(cache).state()).1,
                        true,
                    ) by {
                        assert(lowered_tree(gk, rk[t] as int, asts@[t], run_spec(gk, rk.take(t), old(cache).state()).1, true));
                        assert forall|q: int| 0 <= q < rk.take(t).len() implies #[trigger] rk.take(t)[q] < gk.len() by {
                            assert(rk.take(t)[q] == rk[q]);
                        }
                        lemma_frame_run(gk, g.nodes@, rk.take(t), old(cache).state());
                        lemma_lowered_frame(gk, g.nodes@, rk[t] as int, asts@[t], run_spec(gk, rk.take(t), old(cache).state()).1, true);
                    }
                    assert(asts@.take(k as int + 1).drop_last() == asts@.take(k as int));
                }
                match re.step {
                    Step::Done(res) => {
                        roots.push(re.node);
                        proof {
                            assert(roots@.drop_last() == rk);
                            assert(roots@.take(k as int) == rk);
                            assert forall|t: int| 0 <= t < roots@.len() implies lowered_tree(
                                g.nodes@,
                                #[trigger] roots@[t] as int,
                                asts@[t],
                                run_spec(g.nodes@, roots@.take(t), old(cache).state()).1,
                                true,
                            ) by {
                                if t < k {
                                    assert(roots@.take(t) == rk.take(t));
                                    assert(roots@[t] == rk[t]);
                                }
                            }
                        }
                        last = Some(res);
                    },
                    Step::Fetch(id, url) => {
                        proof {
                            lemma_fetch_fresh(g.nodes@, re.node as int, st_k);
                            lemma_run_keeps_keys(g.nodes@, rk, old(cache).state());
                        }
                        let cycle = Cycle { graph: g, roots, env, last };
                        return CycleOutcome::Fetch(Pending { cycle, root: re.node, id, url });
                    },
                }
            },
        }
        k = k + 1;
    }
    CycleOutcome::Complete(Cycle { graph: g, roots, env, last })
}

/// Every root of the run came out as a result: no fetch was pending.
pub open spec fn all_done(ns: Seq<Node>, roots: Seq<usize>, st: CacheState) -> bool
    decreases roots.len(),
{
    roots.len() == 0 || (all_done(ns, roots.drop_last(), st) && last_outcome(ns, roots, st) is Done)
}

/// No root is a bare symbol.
pub open spec fn roots_not_symbols(ns: Seq<Node>, roots: Seq<usize>) -> bool {
    forall|k: int| 0 <= k < roots.len() ==> !(#[trigger] ns[roots[k] as int].kind is Symbol)
}

proof fn lemma_run_keeps_keys(ns: Seq<Node>, roots: Seq<usize>, st: CacheState)
    ensures
        keeps_keys(st, run_spec(ns, roots, st).0),
    decreases roots.len(),
{
    if roots.len() > 0 {
        lemma_run_keeps_keys(ns, roots.drop_last(), st);
        let st0 = run_spec(ns, roots.drop_last(), st).0;
        lemma_keys_kept(ns, roots.last() as int, st0);
    }
}

proof fn lemma_run_stores_roots(ns: Seq<Node>, roots: Seq<usize>, st: CacheState)
    requires
        all_done(ns, roots, st),
        roots_not_symbols(ns, roots),
    ensures
        forall|k: int| 0 <= k < roots.len() ==> run_spec(ns, roots, st).0.0.contains_key(
            #[trigger] ns[roots[k] as int].id@,
        ),
    decreases roots.len(),
{
    if roots.len() > 0 {
        let prefix = roots.drop_last();
        assert(roots_not_symbols(ns, prefix)) by {
            assert forall|k: int| 0 <= k < prefix.len() implies !(#[trigger] ns[prefix[k] as int].kind is Symbol) by {
                assert(prefix[k] == roots[k]);
            }
        }
        lemma_run_stores_roots(ns, prefix, st);
        let st0 = run_spec(ns, prefix, st).0;
        let r = roots.last() as int;
        lemma_keys_kept(ns, r, st0);
        assert(!(ns[roots[roots.len() - 1] as int].kind is Symbol));
        assert forall|k: int| 0 <= k < roots.len() implies run_spec(ns, roots, st).0.0.contains_key(
            #[trigger] ns[roots[k] as int].id@,
        ) by {
            if k < prefix.len() {
                assert(prefix[k] == roots[k]);
                assert(st0.0.contains_key(ns[prefix[k] as int].id@));
            }
        }
    }
}

proof fn lemma_rerun_from(ns: Seq<Node>, roots: Seq<usize>, store: Map<Seq<u8>, ResultView>)
    requires
        roots_not_symbols(ns, roots),
        forall|k: int| 0 <= k < roots.len() ==> store.contains_key(#[trigger] ns[roots[k] as int].id@),
    ensures
        run_spec(ns, roots, (store, Set::empty())).0 == (store, Set::<Seq<u8>>::empty()),
        all_done(ns, roots, (store, Set::empty())),
    decreases roots.len(),
{
    if roots.len() > 0 {
        let prefix = roots.drop_last();
        assert forall|k: int| 0 <= k < prefix.len() implies store.contains_key(#[trigger] ns[prefix[k] as int].id@)
            && !(ns[prefix[k] as int].kind is Symbol) by {
            assert(prefix[k] == roots[k]);
        }
        lemma_rerun_from(ns, prefix, store);
        let r = roots.last() as int;
        assert(store.contains_key(ns[roots[roots.len() - 1] as int].id@));
        assert(!(ns[roots[roots.len() - 1] as int].kind is Symbol));
        lemma_cache_hit(ns, r, (store, Set::empty()));
        assert(store.insert(ns[r].id@, store[ns[r].id@]) =~= store);
    }
}

/// A completed cycle settles: running the same roots again, against the results
/// the first run left and with no id marked changed, stores nothing new, marks
/// nothing changed and asks for no fetch. Stated for cycles whose top-level expressions are not bare
/// symbols.
pub proof fn lemma_rerun_changes_nothing(ns: Seq<Node>, roots: Seq<usize>, st: CacheState)
    requires
        all_done(ns, roots, st),
        roots_not_symbols(ns, roots),
    ensures
        ({
            let store = run_spec(ns, roots, st).0.0;
            &&& run_spec(ns, roots, (store, Set::empty())).0 == (store, Set::<Seq<u8>>::empty())
            &&& all_done(ns, roots, (store, Set::empty()))
        }),
{
    lemma_run_stores_roots(ns, roots, st);
    lemma_rerun_from(ns, roots, run_spec(ns, roots, st).0.0);
}

/// After a definition whose value succeeded, its name resolves to the node of
/// its value expression, whatever the name meant before; every other name
/// resolves as it did.
pub proof fn lemma_definition_resolves(
    ns: Seq<Node>,
    i: int,
    sv: StepView,
    bs: Seq<(Seq<char>, usize)>,
    other: Seq<char>,
)
    requires
        binding_of(ns, i) is Some,
        sv matches StepView::Done(r) && !(r is Failure),
    ensures
        ({
            let (name, value) = binding_of(ns, i)->Some_0;
            &&& resolve_in(env_after(ns, i, sv, bs), name) == Some(value)
            &&& value == ns[i].children@[2]
            &&& other != name ==> resolve_in(env_after(ns, i, sv, bs), other) == resolve_in(bs, other)
        }),
{
    let (name, value) = binding_of(ns, i)->Some_0;
    lemma_resolve_after_bind(bs, name, value, other);
}

/// A let-expression at the top level binds nothing: the environment after it
/// is the one before, whatever it evaluated to.
pub proof fn lemma_let_expression_binds_nothing(ns: Seq<Node>, i: int, sv: StepView, bs: Seq<(Seq<char>, usize)>)
    requires
        ns[i].kind is LetExpression,
    ensures
        env_after(ns, i, sv, bs) == bs,
{
}

/// What a fetch gives: the body as text, or an HTTP error with its message.
pub fn fetch_result(body: Result<String, String>) -> (r: EvalResult)
    ensures
        match body {
            Ok(b) => r matches Ok(Value::String(s)) && s@ == b@,
            Err(m) => r matches Err(Error::HttpError(e)) && e@ == m@,
        },
{
    match body {
        Ok(b) => Ok(Value::String(b)),
        Err(m) => Err(Error::HttpError(m)),
    }
}

} // verus!
