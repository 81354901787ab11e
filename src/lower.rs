use vstd::prelude::*;
use crate::ast::{ast_size, items_size, ExprAst};
use crate::env::{resolve_in, Env};
use crate::eval::extends;
use crate::node::{Graph, Node, NodeKind};
use crate::text::str_eq;

verus! {

/// The kind of a list, named by its head symbol; any other list is generic.
pub open spec fn list_kind(items: Seq<ExprAst>) -> NodeKind {
    if items.len() > 0 && items[0] is Symbol {
        let h = items[0]->Symbol_0@;
        if h == "def"@ {
            NodeKind::Definition
        } else if h == "let"@ {
            if items.len() == 4 {
                NodeKind::LetExpression
            } else {
                NodeKind::LetStatement
            }
        } else if h == "+"@ {
            NodeKind::Addition
        } else if h == "*"@ {
            NodeKind::Multiplication
        } else if h == "http.get"@ {
            NodeKind::HttpGet
        } else if h == "json.parse"@ {
            NodeKind::JsonParse
        } else if h == "get"@ {
            NodeKind::JsonGet
        } else if h == "str.upper"@ {
            NodeKind::StringUpper
        } else {
            NodeKind::List
        }
    } else {
        NodeKind::List
    }
}

/// The node kind an expression lowers to.
pub open spec fn lowers_to_kind(ast: ExprAst, k: NodeKind) -> bool {
    match ast {
        ExprAst::Symbol(n, _) => k is Symbol && k->Symbol_0@ == n@,
        ExprAst::Number(v, _) => k == NodeKind::Number(v),
        ExprAst::String(s, _) => k is String && k->String_0@ == s@,
        ExprAst::List(items, _) => k == list_kind(items@),
    }
}

/// Whether item `j` of a list of kind `k` is lowered as a reference: the head
/// and the name that `def` and `let` bind are not.
pub open spec fn item_resolves(k: NodeKind, j: int) -> bool {
    !(j == 0 || (j == 1 && (k is Definition || k is LetStatement || k is LetExpression)))
}

/// The bindings item `j` of a list is lowered under: the body of a let-expression
/// also sees its name bound to the value node.
pub open spec fn item_env(
    k: NodeKind,
    items: Seq<ExprAst>,
    children: Seq<usize>,
    bs: Seq<(Seq<char>, usize)>,
    j: int,
) -> Seq<(Seq<char>, usize)> {
    if k is LetExpression && items[1] is Symbol && j == 3 {
        bs.push((items[1]->Symbol_0@, children[2]))
    } else {
        bs
    }
}

/// Node `c` and the nodes below it are the lowering of `ast` under the bindings
/// `bs`: same line, text and kind at every level; a symbol in reference position
/// has the node of its innermost binding as its one child, and no child when
/// unbound; other leaves have no children; a list's children are the lowerings of
/// its items, in order.
pub open spec fn lowered_tree(ns: Seq<Node>, c: int, ast: ExprAst, bs: Seq<(Seq<char>, usize)>, resolve: bool) -> bool
    decreases ast,
{
    &&& 0 <= c < ns.len()
    &&& ns[c].line == ast.span().line
    &&& ns[c].code_snippet@ == ast.span().text@
    &&& lowers_to_kind(ast, ns[c].kind)
    &&& match ast {
        ExprAst::Symbol(name, _) => ns[c].children@ == match (
            if resolve {
                resolve_in(bs, name@)
            } else {
                None
            }
        ) {
            Some(d) => seq![d],
            None => Seq::<usize>::empty(),
        },
        ExprAst::List(items, _) => {
            &&& ns[c].children@.len() == items@.len()
            &&& forall|j: int|
                0 <= j < items@.len() ==> lowered_tree(
                    ns,
                    ns[c].children@[j] as int,
                    #[trigger] items@[j],
                    item_env(ns[c].kind, items@, ns[c].children@, bs, j),
                    item_resolves(ns[c].kind, j),
                )
        },
        _ => ns[c].children@.len() == 0,
    }
}

/// A lowering stays one when nodes are added after it.
pub proof fn lemma_lowered_frame(
    ns: Seq<Node>,
    ms: Seq<Node>,
    c: int,
    ast: ExprAst,
    bs: Seq<(Seq<char>, usize)>,
    resolve: bool,
)
    requires
        lowered_tree(ns, c, ast, bs, resolve),
        extends(ns, ms),
    ensures
        lowered_tree(ms, c, ast, bs, resolve),
    decreases ast,
{
    assert(ms[c] == ns[c]);
    if let ExprAst::List(items, _) = ast {
        assert forall|j: int| 0 <= j < items@.len() implies lowered_tree(
            ms,
            ms[c].children@[j] as int,
            #[trigger] items@[j],
            item_env(ms[c].kind, items@, ms[c].children@, bs, j),
            item_resolves(ms[c].kind, j),
        ) by {
            lemma_lowered_frame(
                ns,
                ms,
                ns[c].children@[j] as int,
                items@[j],
                item_env(ns[c].kind, items@, ns[c].children@, bs, j),
                item_resolves(ns[c].kind, j),
            );
        }
    }
}

pub fn head_kind(items: &Vec<ExprAst>) -> (k: NodeKind)
    ensures
        k == list_kind(items@),
{
    if items.len() == 0 {
        return NodeKind::List;
    }
    match &items[0] {
        ExprAst::Symbol(h, _) => {
            let h = h.as_str();
            if str_eq(h, "def") {
                NodeKind::Definition
            } else if str_eq(h, "let") {
                if items.len() == 4 {
                    NodeKind::LetExpression
                } else {
                    NodeKind::LetStatement
                }
            } else if str_eq(h, "+") {
                NodeKind::Addition
            } else if str_eq(h, "*") {
                NodeKind::Multiplication
            } else if str_eq(h, "http.get") {
                NodeKind::HttpGet
            } else if str_eq(h, "json.parse") {
                NodeKind::JsonParse
            } else if str_eq(h, "get") {
                NodeKind::JsonGet
            } else if str_eq(h, "str.upper") {
                NodeKind::StringUpper
            } else {
                NodeKind::List
            }
        },
        _ => NodeKind::List,
    }
}

/// Lowers an expression into the graph and returns its node. A symbol in
/// reference position (`resolve`) gets the node its name is bound to as its one
/// child, so its id follows the definition; list heads and the names that
/// `def` and `let` bind stay plain. The body of `(let NAME VALUE BODY)` is
/// lowered with NAME bound to VALUE; the environment is left as it was.
/// Returns None only when the graph has no room for another node.
pub fn lower(ast: &ExprAst, g: &mut Graph, env: &mut Env, resolve: bool) -> (r: Option<usize>)
    requires
        old(g).wf(),
        old(env).bound_below(old(g).nodes@.len() as int),
    ensures
        final(g).wf(),
        final(env).view() == old(env).view(),
        final(g).nodes@.len() >= old(g).nodes@.len(),
        final(g).nodes@.take(old(g).nodes@.len() as int) == old(g).nodes@,
        r is None ==> final(g).nodes@.len() == usize::MAX,
        final(g).nodes@.len() <= old(g).nodes@.len() + ast_size(*ast),
        r matches Some(i) ==> {
            &&& old(g).nodes@.len() <= i < final(g).nodes@.len()
            &&& lowered_tree(final(g).nodes@, i as int, *ast, old(env).view(), resolve)
        },
    decreases ast,
{
    let ghost g0 = g.nodes@;
    assert(g0 == old(g).nodes@);
    match ast {
        ExprAst::Symbol(name, span) => {
            if g.len() == usize::MAX {
                return None;
            }
            let mut children: Vec<usize> = Vec::new();
            if resolve {
                match env.resolve(name.as_str()) {
                    Some(d) => {
                        proof {
                            lemma_resolved_bound(env.view(), name@);
                        }
                        children.push(d);
                    },
                    None => {},
                }
            }
            assert(children@ == match (
                if resolve {
                    old(env).resolve_spec(name@)
                } else {
                    None
                }
            ) {
                Some(d) => seq![d],
                None => Seq::<usize>::empty(),
            });
            let i = g.add_node(NodeKind::Symbol(name.clone()), span.text.clone(), children, span.line);
            Some(i)
        },
        ExprAst::Number(v, span) => {
            if g.len() == usize::MAX {
                return None;
            }
            Some(g.add_node(NodeKind::Number(*v), span.text.clone(), Vec::new(), span.line))
        },
        ExprAst::String(s, span) => {
            if g.len() == usize::MAX {
                return None;
            }
            Some(g.add_node(NodeKind::String(s.clone()), span.text.clone(), Vec::new(), span.line))
        },
        ExprAst::List(items, span) => {
            let kind = head_kind(items);
            let binder = matches!(kind, NodeKind::Definition | NodeKind::LetStatement | NodeKind::LetExpression);
            let let_expr = matches!(kind, NodeKind::LetExpression) && matches!(items[1], ExprAst::Symbol(_, _));
            let mut children: Vec<usize> = Vec::new();
            let mut j: usize = 0;
            while j < items.len()
                invariant
                    g.wf(),
                    env.view() == old(env).view(),
                    env.bound_below(g.nodes@.len() as int),
                    g0 == old(g).nodes@,
                    *ast == ExprAst::List(*items, *span),
                    g.nodes@.len() >= g0.len(),
                    g.nodes@.take(g0.len() as int) == g0,
                    j <= items@.len(),
                    children@.len() == j,
                    forall|t: int| 0 <= t < j ==> children@[t] < g.nodes@.len(),
                    forall|t: int|
                        0 <= t < j ==> lowered_tree(
                            g.nodes@,
                            #[trigger] children@[t] as int,
                            items@[t],
                            item_env(kind, items@, children@, old(env).view(), t),
                            item_resolves(kind, t),
                        ),
                    kind == list_kind(items@),
                    g.nodes@.len() + items_size(*items, j as int) <= g0.len() + items_size(*items, 0),
                    binder == (kind is Definition || kind is LetStatement || kind is LetExpression),
                    let_expr == (kind is LetExpression && items@[1] is Symbol),
                    let_expr ==> items@.len() == 4 && items@[1] is Symbol,
                decreases items@.len() - j,
            {
                let bind_here = let_expr && j == 3;
                if bind_here {
                    match &items[1] {
                        ExprAst::Symbol(name, _) => env.bind(name.clone(), children[2]),
                        _ => {},
                    }
                }
                let ghost gj = g.nodes@;
                proof {
                    let a = *ast;
                    assert(a->List_0 == *items);
                    assert(decreases_to!(a => a->List_0));
                    assert(decreases_to!(*items => items[j as int]));
                    if bind_here {
                        assert(env.bound_below(g.nodes@.len() as int));
                    }
                }
                let r = lower(&items[j], g, env, !(j == 0 || (binder && j == 1)));
                if bind_here {
                    env.unbind_last();
                }
                proof {
                    assert(g.nodes@.take(g0.len() as int) == g0) by {
                        assert(g.nodes@.take(gj.len() as int) == gj);
                        assert(gj.take(g0.len() as int) == g0);
                    }
                    assert(g.nodes@.len() >= gj.len());
                    assert(g.nodes@.len() >= g0.len());
                }
                proof {
                    lemma_prefix_extends(gj, g.nodes@);
                    assert forall|t: int| 0 <= t < j implies lowered_tree(
                        g.nodes@,
                        #[trigger] children@[t] as int,
                        items@[t],
                        item_env(kind, items@, children@, old(env).view(), t),
                        item_resolves(kind, t),
                    ) by {
                        lemma_lowered_frame(
                            gj,
                            g.nodes@,
                            children@[t] as int,
                            items@[t],
                            item_env(kind, items@, children@, old(env).view(), t),
                            item_resolves(kind, t),
                        );
                    }
                    if let Some(c) = r {
                        assert(item_env(kind, items@, children@.push(c), old(env).view(), j as int)
                            == item_env(kind, items@, children@, old(env).view(), j as int));
                    }
                }
                let ghost before = children@;
                match r {
                    Some(c) => children.push(c),
                    None => {
                        return None;
                    },
                }
                proof {
                    assert forall|t: int| 0 <= t < j + 1 implies lowered_tree(
                        g.nodes@,
                        #[trigger] children@[t] as int,
                        items@[t],
                        item_env(kind, items@, children@, old(env).view(), t),
                        item_resolves(kind, t),
                    ) by {
                        assert(item_env(kind, items@, children@, old(env).view(), t)
                            == item_env(kind, items@, before, old(env).view(), t));
                        if t < j {
                            assert(children@[t] == before[t]);
                        }
                    }
                }
                j = j + 1;
            }
            if g.len() == usize::MAX {
                return None;
            }
            let ghost gl = g.nodes@;
            let ghost ch = children@;
            let i = g.add_node(kind, span.text.clone(), children, span.line);
            proof {
                assert(g.nodes@.take(g0.len() as int) == g0) by {
                    assert(g.nodes@.take(gl.len() as int) == gl);
                    assert(gl.take(g0.len() as int) == g0);
                }
                lemma_prefix_extends(gl, g.nodes@);
                assert(g.nodes@[i as int].children@ == ch);
                assert forall|t: int| 0 <= t < items@.len() implies lowered_tree(
                    g.nodes@,
                    g.nodes@[i as int].children@[t] as int,
                    #[trigger] items@[t],
                    item_env(g.nodes@[i as int].kind, items@, g.nodes@[i as int].children@, old(env).view(), t),
                    item_resolves(g.nodes@[i as int].kind, t),
                ) by {
                    assert(lowered_tree(gl, ch[t] as int, items@[t], item_env(kind, items@, ch, old(env).view(), t), item_resolves(kind, t)));
                    lemma_lowered_frame(gl, g.nodes@, ch[t] as int, items@[t], item_env(kind, items@, ch, old(env).view(), t), item_resolves(kind, t));
                }
            }
            Some(i)
        },
    }
}

proof fn lemma_prefix_extends(ns: Seq<Node>, ms: Seq<Node>)
    requires
        ns.len() <= ms.len(),
        ms.take(ns.len() as int) == ns,
    ensures
        extends(ns, ms),
{
    assert forall|j: int| 0 <= j < ns.len() implies #[trigger] ms[j] == ns[j] by {
        assert(ms.take(ns.len() as int)[j] == ms[j]);
    }
}

proof fn lemma_resolved_bound(bs: Seq<(Seq<char>, usize)>, name: Seq<char>)
    ensures
        crate::env::resolve_in(bs, name) matches Some(d) ==> exists|j: int| 0 <= j < bs.len() && bs[j].1 == d,
    decreases bs.len(),
{
    if bs.len() > 0 {
        lemma_resolved_bound(bs.drop_last(), name);
        if crate::env::resolve_in(bs.drop_last(), name) is Some && bs.last().0 != name {
            let d = crate::env::resolve_in(bs.drop_last(), name)->Some_0;
            let j = choose|j: int| 0 <= j < bs.drop_last().len() && bs.drop_last()[j].1 == d;
            assert(bs[j].1 == d);
        }
        if bs.last().0 == name {
            assert(bs[bs.len() - 1].1 == bs.last().1);
        }
    }
}

} // verus!
