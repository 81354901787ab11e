use vstd::prelude::*;
use crate::cache::{CacheState, NodeCache, cache_write};
use crate::node::{Graph, Node, NodeId, NodeKind};
use crate::value::{
    checked_product, checked_sum, clone_result, convert_json_value, converted, eval_error,
    eval_failure, product_of, sum_of, view_result, view_shape, Error, ErrorKind, EvalResult,
    JsonShape, ResultView, ShapeView, Value,
};

verus! {

/// The outcome of evaluating a node: a result, or a request to fetch a URL for
/// the `http.get` node with the given id before evaluation can go on.
pub enum Step {
    Done(EvalResult),
    Fetch(NodeId, String),
}

pub enum StepView {
    Done(ResultView),
    Fetch(Seq<u8>, Seq<char>),
}

pub open spec fn view_step(s: Step) -> StepView {
    match s {
        Step::Done(r) => StepView::Done(view_result(r)),
        Step::Fetch(i, u) => StepView::Fetch(i@, u@),
    }
}

/// An outcome that ends the evaluation of its parent: a failure or a fetch.
pub open spec fn stops(o: StepView) -> bool {
    match o {
        StepView::Done(ResultView::Failure(_, _)) => true,
        StepView::Fetch(_, _) => true,
        _ => false,
    }
}

// ---------------------------------------------------------------------------
// Primitives of outside code.

/// The Unicode upper-case form of a text.
pub uninterp spec fn upper_of(s: Seq<char>) -> Seq<char>;

/// What parsing a JSON text gives: the document in compact form, or the parser's message.
pub uninterp spec fn json_parse_of(text: Seq<char>) -> Result<Seq<char>, Seq<char>>;

/// The member under a key of the top-level object of a JSON text, if any.
pub uninterp spec fn json_member_of(doc: Seq<char>, key: Seq<char>) -> Option<ShapeView>;

/// Relies on str::to_uppercase: the Unicode upper-case mapping, a function of the text alone.
#[verifier::external_body]
fn to_upper(s: &str) -> (r: String)
    ensures
        r@ == upper_of(s@),
{
    s.to_uppercase()
}

/// Relies on serde_json::from_str into a serde_json::Value, kept in the compact form
/// that its Display writes; on failure, the message of serde_json's error.
#[verifier::external_body]
fn parse_json(text: &str) -> (r: Result<String, String>)
    ensures
        match r {
            Ok(d) => json_parse_of(text@) == Ok::<Seq<char>, Seq<char>>(d@),
            Err(m) => json_parse_of(text@) == Err::<Seq<char>, Seq<char>>(m@),
        },
{
    match serde_json::from_str::<serde_json::Value>(text) {
        Ok(v) => Ok(v.to_string()),
        Err(e) => Err(e.to_string()),
    }
}

/// Relies on serde_json::from_str and serde_json::Value::get (with Number::as_i64 to
/// read an integer member): the member under `key` of the document's top-level
/// object, by shape; None when the text is not a JSON object with such a member.
#[verifier::external_body]
fn json_member(doc: &str, key: &str) -> (r: Option<JsonShape>)
    ensures
        match r {
            Some(s) => json_member_of(doc@, key@) == Some(view_shape(s)),
            None => json_member_of(doc@, key@) is None,
        },
{
    let v: serde_json::Value = serde_json::from_str(doc).ok()?;
    Some(match v.get(key)? {
        serde_json::Value::String(s) => JsonShape::Text(s.clone()),
        serde_json::Value::Number(n) => JsonShape::Number(n.as_i64()),
        serde_json::Value::Bool(b) => JsonShape::Bool(*b),
        serde_json::Value::Null => JsonShape::Null,
        serde_json::Value::Array(_) => JsonShape::Array,
        serde_json::Value::Object(_) => JsonShape::Object,
    })
}

// ---------------------------------------------------------------------------
// The evaluator's meaning. The cache state is threaded through every step.

/// Evaluates a node. Symbols bypass the cache and evaluate the node they are
/// bound to; every other node returns its cached result when there is one, and
/// otherwise computes the result and writes it to the cache.
pub open spec fn eval_spec(ns: Seq<Node>, i: int, st: CacheState) -> (StepView, CacheState)
    decreases i, ns[i].children@.len() + 2,
{
    let n = ns[i];
    match n.kind {
        NodeKind::Symbol(name) => {
            if n.children@.len() >= 1 && 0 <= n.children@[0] < i {
                eval_spec(ns, n.children@[0] as int, st)
            } else {
                (StepView::Done(eval_failure("Undefined symbol: "@ + name@)), st)
            }
        },
        _ => {
            if st.0.contains_key(n.id@) {
                (StepView::Done(st.0[n.id@]), st)
            } else {
                let (o, st1) = step_kind(ns, i, st);
                match o {
                    StepView::Done(r) => (StepView::Done(r), cache_write(st1, n.id@, r)),
                    _ => (o, st1),
                }
            }
        },
    }
}

/// Evaluates child `k` of node `i`.
pub open spec fn eval_child_spec(ns: Seq<Node>, i: int, k: int, st: CacheState) -> (StepView, CacheState)
    decreases i, 0int,
{
    if 0 <= k < ns[i].children@.len() && 0 <= ns[i].children@[k] < i {
        eval_spec(ns, ns[i].children@[k] as int, st)
    } else {
        (StepView::Done(eval_failure("Malformed node"@)), st)
    }
}

/// Evaluates the arguments from child `k` on, left to right, collecting integers;
/// stops at the first argument that fails, needs a fetch, or is not an integer.
pub open spec fn eval_args_spec(
    ns: Seq<Node>,
    i: int,
    k: int,
    acc: Seq<i64>,
    st: CacheState,
    add: bool,
) -> (Result<Seq<i64>, StepView>, CacheState)
    decreases i, ns[i].children@.len() - k,
{
    if k < 0 || k >= ns[i].children@.len() {
        (Ok(acc), st)
    } else {
        let (o, st1) = eval_child_spec(ns, i, k, st);
        match o {
            StepView::Done(ResultView::Number(x)) => eval_args_spec(ns, i, k + 1, acc.push(x), st1, add),
            StepView::Done(ResultView::Failure(_, _)) => (Err(o), st1),
            StepView::Fetch(_, _) => (Err(o), st1),
            _ => (Err(StepView::Done(eval_failure(not_numbers_msg(add)))), st1),
        }
    }
}

pub open spec fn not_numbers_msg(add: bool) -> Seq<char> {
    if add {
        "'+' requires all arguments to be numbers"@
    } else {
        "'*' requires all arguments to be numbers"@
    }
}

pub open spec fn no_args_msg(add: bool) -> Seq<char> {
    if add {
        "'+' requires at least 1 argument"@
    } else {
        "'*' requires at least 1 argument"@
    }
}

pub open spec fn overflow_msg(add: bool) -> Seq<char> {
    if add {
        "'+' result does not fit in a 64-bit integer"@
    } else {
        "'*' result does not fit in a 64-bit integer"@
    }
}

/// What `+` or `*` gives on the integers of its arguments.
pub open spec fn arith_result(xs: Seq<i64>, add: bool) -> ResultView {
    let r = if add {
        sum_of(xs)
    } else {
        product_of(xs)
    };
    match r {
        Some(v) => ResultView::Number(v),
        None => eval_failure(overflow_msg(add)),
    }
}

pub open spec fn is_symbol_node(ns: Seq<Node>, i: int, k: int) -> bool {
    0 <= k < ns[i].children@.len() && 0 <= ns[i].children@[k] < ns.len()
        && ns[ns[i].children@[k] as int].kind is Symbol
}

/// Computes a node's result by its kind, with its children evaluated as needed.
pub open spec fn step_kind(ns: Seq<Node>, i: int, st: CacheState) -> (StepView, CacheState)
    decreases i, ns[i].children@.len() + 1,
{
    let n = ns[i];
    let len = n.children@.len();
    match n.kind {
        NodeKind::Number(v) => (StepView::Done(ResultView::Number(v)), st),
        NodeKind::String(s) => (StepView::Done(ResultView::Text(s@)), st),
        NodeKind::Symbol(_) => (StepView::Done(eval_failure("Malformed node"@)), st),
        NodeKind::Definition | NodeKind::LetStatement => {
            if len != 3 {
                (StepView::Done(eval_failure("'def' and 'let' expect a name and a value"@)), st)
            } else if !is_symbol_node(ns, i, 1) {
                (StepView::Done(eval_failure("the name to bind must be a symbol"@)), st)
            } else {
                eval_child_spec(ns, i, 2, st)
            }
        },
        NodeKind::LetExpression => {
            if len != 4 {
                (StepView::Done(eval_failure("'let' expects a name, a value and a body"@)), st)
            } else if !is_symbol_node(ns, i, 1) {
                (StepView::Done(eval_failure("the name to bind must be a symbol"@)), st)
            } else {
                let (o, st1) = eval_child_spec(ns, i, 2, st);
                if stops(o) {
                    (o, st1)
                } else {
                    eval_child_spec(ns, i, 3, st1)
                }
            }
        },
        NodeKind::Addition | NodeKind::Multiplication => {
            let add = n.kind is Addition;
            if len < 2 {
                (StepView::Done(eval_failure(no_args_msg(add))), st)
            } else {
                let (a, st1) = eval_args_spec(ns, i, 1, Seq::empty(), st, add);
                match a {
                    Ok(xs) => (StepView::Done(arith_result(xs, add)), st1),
                    Err(o) => (o, st1),
                }
            }
        },
        NodeKind::HttpGet => {
            if len != 2 {
                (StepView::Done(eval_failure("'http.get' expects 1 argument (url)"@)), st)
            } else {
                let (o, st1) = eval_child_spec(ns, i, 1, st);
                match o {
                    StepView::Done(ResultView::Text(u)) => (StepView::Fetch(n.id@, u), st1),
                    _ => if stops(o) {
                        (o, st1)
                    } else {
                        (StepView::Done(eval_failure("'http.get' expects a string URL"@)), st1)
                    },
                }
            }
        },
        NodeKind::JsonParse => {
            if len != 2 {
                (StepView::Done(eval_failure("'json.parse' expects 1 argument (string)"@)), st)
            } else {
                let (o, st1) = eval_child_spec(ns, i, 1, st);
                match o {
                    StepView::Done(ResultView::Text(s)) => (
                        StepView::Done(
                            match json_parse_of(s) {
                                Ok(d) => ResultView::Json(d),
                                Err(m) => ResultView::Failure(ErrorKind::Json, m),
                            },
                        ),
                        st1,
                    ),
                    _ => if stops(o) {
                        (o, st1)
                    } else {
                        (StepView::Done(eval_failure("'json.parse' expects a string argument"@)), st1)
                    },
                }
            }
        },
        NodeKind::JsonGet => {
            if len != 3 {
                (StepView::Done(eval_failure("'get' expects 2 arguments (json, key)"@)), st)
            } else {
                let (o1, st1) = eval_child_spec(ns, i, 1, st);
                if stops(o1) {
                    (o1, st1)
                } else {
                    let (o2, st2) = eval_child_spec(ns, i, 2, st1);
                    if stops(o2) {
                        (o2, st2)
                    } else {
                        (StepView::Done(get_result(o1, o2)), st2)
                    }
                }
            }
        },
        NodeKind::StringUpper => {
            if len != 2 {
                (StepView::Done(eval_failure("'str.upper' expects 1 argument (string)"@)), st)
            } else {
                let (o, st1) = eval_child_spec(ns, i, 1, st);
                match o {
                    StepView::Done(ResultView::Text(s)) => (StepView::Done(ResultView::Text(upper_of(s))), st1),
                    _ => if stops(o) {
                        (o, st1)
                    } else {
                        (StepView::Done(eval_failure("'str.upper' expects a string argument"@)), st1)
                    },
                }
            }
        },
        NodeKind::List => {
            if len == 0 {
                (StepView::Done(eval_failure("Cannot evaluate an empty list"@)), st)
            } else if is_symbol_node(ns, i, 0) {
                let head = ns[n.children@[0] as int].kind->Symbol_0;
                (StepView::Done(eval_failure("Unknown function: "@ + head@)), st)
            } else {
                (StepView::Done(eval_failure("List head must be a function symbol"@)), st)
            }
        },
    }
}

/// What `(get JSON KEY)` gives once both arguments are values.
pub open spec fn get_result(o1: StepView, o2: StepView) -> ResultView {
    match (o1, o2) {
        (StepView::Done(ResultView::Json(d)), StepView::Done(ResultView::Text(k))) => {
            match json_member_of(d, k) {
                Some(s) => converted(s),
                None => eval_failure("Key '"@ + k + "' not found in JSON object"@),
            }
        },
        (StepView::Done(ResultView::Json(_)), _) => eval_failure("'get' expects the key to be a string"@),
        _ => eval_failure("'get' expects its first argument to be a JSON document"@),
    }
}

/// A node other than a symbol whose id the cache already holds is answered from
/// the cache: nothing is computed, fetched or written.
pub proof fn lemma_cache_hit(ns: Seq<Node>, i: int, st: CacheState)
    requires
        !(ns[i].kind is Symbol),
        st.0.contains_key(ns[i].id@),
    ensures
        eval_spec(ns, i, st) == (StepView::Done(st.0[ns[i].id@]), st),
{
}

/// Evaluating a node again, against the results that its completed evaluation
/// left and whatever set of changed ids, gives the same result and writes nothing.
pub proof fn lemma_reevaluation_settled(ns: Seq<Node>, i: int, st: CacheState, changed: Set<Seq<u8>>)
    requires
        eval_spec(ns, i, st).0 is Done,
    ensures
        ({
            let (o, st1) = eval_spec(ns, i, st);
            eval_spec(ns, i, (st1.0, changed)) == (o, (st1.0, changed))
        }),
    decreases i,
{
    let n = ns[i];
    match n.kind {
        NodeKind::Symbol(_) => {
            if n.children@.len() >= 1 && 0 <= n.children@[0] < i {
                lemma_reevaluation_settled(ns, n.children@[0] as int, st, changed);
            }
        },
        _ => {},
    }
}

/// Every child comes before its parent.
pub open spec fn children_before(ns: Seq<Node>) -> bool {
    forall|j: int, k: int|
        0 <= j < ns.len() && 0 <= k < ns[j].children@.len() ==> #[trigger] ns[j].children@[k] < j
}

/// `ms` holds the nodes of `ns` at the same indices, and maybe more after them.
pub open spec fn extends(ns: Seq<Node>, ms: Seq<Node>) -> bool {
    ns.len() <= ms.len() && forall|j: int| 0 <= j < ns.len() ==> #[trigger] ms[j] == ns[j]
}

/// Evaluating a node depends only on the nodes up to it: nodes added later to
/// the graph change nothing.
pub proof fn lemma_frame(ns: Seq<Node>, ms: Seq<Node>, i: int, st: CacheState)
    requires
        children_before(ns),
        extends(ns, ms),
        0 <= i < ns.len(),
    ensures
        eval_spec(ns, i, st) == eval_spec(ms, i, st),
    decreases i, ns[i].children@.len() + 2,
{
    assert(ms[i] == ns[i]);
    let n = ns[i];
    match n.kind {
        NodeKind::Symbol(_) => {
            if n.children@.len() >= 1 && 0 <= n.children@[0] < i {
                lemma_frame(ns, ms, n.children@[0] as int, st);
            }
        },
        _ => {
            if !st.0.contains_key(n.id@) {
                lemma_frame_step(ns, ms, i, st);
            }
        },
    }
}

proof fn lemma_frame_child(ns: Seq<Node>, ms: Seq<Node>, i: int, k: int, st: CacheState)
    requires
        children_before(ns),
        extends(ns, ms),
        0 <= i < ns.len(),
    ensures
        eval_child_spec(ns, i, k, st) == eval_child_spec(ms, i, k, st),
    decreases i, 0int,
{
    assert(ms[i] == ns[i]);
    if 0 <= k < ns[i].children@.len() && 0 <= ns[i].children@[k] < i {
        lemma_frame(ns, ms, ns[i].children@[k] as int, st);
    }
}

proof fn lemma_frame_args(
    ns: Seq<Node>,
    ms: Seq<Node>,
    i: int,
    k: int,
    acc: Seq<i64>,
    st: CacheState,
    add: bool,
)
    requires
        children_before(ns),
        extends(ns, ms),
        0 <= i < ns.len(),
    ensures
        eval_args_spec(ns, i, k, acc, st, add) == eval_args_spec(ms, i, k, acc, st, add),
    decreases i, ns[i].children@.len() - k,
{
    assert(ms[i] == ns[i]);
    if 0 <= k < ns[i].children@.len() {
        lemma_frame_child(ns, ms, i, k, st);
        let (o, st1) = eval_child_spec(ns, i, k, st);
        if let StepView::Done(ResultView::Number(x)) = o {
            lemma_frame_args(ns, ms, i, k + 1, acc.push(x), st1, add);
        }
    }
}

proof fn lemma_frame_step(ns: Seq<Node>, ms: Seq<Node>, i: int, st: CacheState)
    requires
        children_before(ns),
        extends(ns, ms),
        0 <= i < ns.len(),
    ensures
        step_kind(ns, i, st) == step_kind(ms, i, st),
    decreases i, ns[i].children@.len() + 1,
{
    assert(ms[i] == ns[i]);
    let n = ns[i];
    assert forall|k: int| 0 <= k < n.children@.len() implies is_symbol_node(ns, i, k) == is_symbol_node(ms, i, k) by {
        assert(n.children@[k] < i);
        assert(ms[n.children@[k] as int] == ns[n.children@[k] as int]);
    }
    if n.children@.len() > 0 {
        assert(n.children@[0] < i);
        assert(ms[n.children@[0] as int] == ns[n.children@[0] as int]);
    }
    lemma_frame_child(ns, ms, i, 1, st);
    lemma_frame_child(ns, ms, i, 2, st);
    lemma_frame_child(ns, ms, i, 2, eval_child_spec(ns, i, 1, st).1);
    lemma_frame_child(ns, ms, i, 3, eval_child_spec(ns, i, 2, st).1);
    if n.children@.len() >= 2 {
        lemma_frame_args(ns, ms, i, 1, Seq::empty(), st, n.kind is Addition);
    }
}

/// Every id stored in `a` is still stored in `b`.
pub open spec fn keeps_keys(a: CacheState, b: CacheState) -> bool {
    forall|k: Seq<u8>| a.0.contains_key(k) ==> #[trigger] b.0.contains_key(k)
}

/// Evaluation only adds to the store: no stored id is ever dropped.
pub proof fn lemma_keys_kept(ns: Seq<Node>, i: int, st: CacheState)
    ensures
        keeps_keys(st, eval_spec(ns, i, st).1),
    decreases i, ns[i].children@.len() + 2,
{
    let n = ns[i];
    match n.kind {
        NodeKind::Symbol(_) => {
            if n.children@.len() >= 1 && 0 <= n.children@[0] < i {
                lemma_keys_kept(ns, n.children@[0] as int, st);
            }
        },
        _ => {
            if !st.0.contains_key(n.id@) {
                lemma_keys_kept_step(ns, i, st);
            }
        },
    }
}

proof fn lemma_keys_kept_child(ns: Seq<Node>, i: int, k: int, st: CacheState)
    ensures
        keeps_keys(st, eval_child_spec(ns, i, k, st).1),
    decreases i, 0int,
{
    if 0 <= k < ns[i].children@.len() && 0 <= ns[i].children@[k] < i {
        lemma_keys_kept(ns, ns[i].children@[k] as int, st);
    }
}

proof fn lemma_keys_kept_args(ns: Seq<Node>, i: int, k: int, acc: Seq<i64>, st: CacheState, add: bool)
    ensures
        keeps_keys(st, eval_args_spec(ns, i, k, acc, st, add).1),
    decreases i, ns[i].children@.len() - k,
{
    if 0 <= k < ns[i].children@.len() {
        lemma_keys_kept_child(ns, i, k, st);
        let (o, st1) = eval_child_spec(ns, i, k, st);
        if let StepView::Done(ResultView::Number(x)) = o {
            lemma_keys_kept_args(ns, i, k + 1, acc.push(x), st1, add);
        }
    }
}

proof fn lemma_keys_kept_step(ns: Seq<Node>, i: int, st: CacheState)
    ensures
        keeps_keys(st, step_kind(ns, i, st).1),
    decreases i, ns[i].children@.len() + 1,
{
    let n = ns[i];
    let s1 = eval_child_spec(ns, i, 1, st).1;
    let s2 = eval_child_spec(ns, i, 2, st).1;
    lemma_keys_kept_child(ns, i, 1, st);
    lemma_keys_kept_child(ns, i, 2, st);
    lemma_keys_kept_child(ns, i, 2, s1);
    lemma_keys_kept_child(ns, i, 3, s2);
    if n.children@.len() >= 2 {
        lemma_keys_kept_args(ns, i, 1, Seq::empty(), st, n.kind is Addition);
    }
}

/// A fetch is only asked for a node whose id the cache did not hold.
pub proof fn lemma_fetch_fresh(ns: Seq<Node>, i: int, st: CacheState)
    ensures
        eval_spec(ns, i, st).0 matches StepView::Fetch(id, _) ==> !st.0.contains_key(id),
    decreases i, ns[i].children@.len() + 2,
{
    let n = ns[i];
    match n.kind {
        NodeKind::Symbol(_) => {
            if n.children@.len() >= 1 && 0 <= n.children@[0] < i {
                lemma_fetch_fresh(ns, n.children@[0] as int, st);
            }
        },
        _ => {
            if !st.0.contains_key(n.id@) {
                lemma_fetch_fresh_step(ns, i, st);
            }
        },
    }
}

proof fn lemma_fetch_fresh_child(ns: Seq<Node>, i: int, k: int, st: CacheState)
    ensures
        eval_child_spec(ns, i, k, st).0 matches StepView::Fetch(id, _) ==> !st.0.contains_key(id),
    decreases i, 0int,
{
    if 0 <= k < ns[i].children@.len() && 0 <= ns[i].children@[k] < i {
        lemma_fetch_fresh(ns, ns[i].children@[k] as int, st);
    }
}

proof fn lemma_fetch_fresh_args(ns: Seq<Node>, i: int, k: int, acc: Seq<i64>, st: CacheState, add: bool)
    ensures
        eval_args_spec(ns, i, k, acc, st, add).0 matches Err(StepView::Fetch(id, _)) ==> !st.0.contains_key(id),
    decreases i, ns[i].children@.len() - k,
{
    if 0 <= k < ns[i].children@.len() {
        lemma_fetch_fresh_child(ns, i, k, st);
        lemma_keys_kept_child(ns, i, k, st);
        let (o, st1) = eval_child_spec(ns, i, k, st);
        if let StepView::Done(ResultView::Number(x)) = o {
            lemma_fetch_fresh_args(ns, i, k + 1, acc.push(x), st1, add);
        }
    }
}

proof fn lemma_fetch_fresh_step(ns: Seq<Node>, i: int, st: CacheState)
    requires
        !st.0.contains_key(ns[i].id@),
    ensures
        step_kind(ns, i, st).0 matches StepView::Fetch(id, _) ==> !st.0.contains_key(id),
    decreases i, ns[i].children@.len() + 1,
{
    let n = ns[i];
    let s1 = eval_child_spec(ns, i, 1, st).1;
    let s2 = eval_child_spec(ns, i, 2, st).1;
    lemma_fetch_fresh_child(ns, i, 1, st);
    lemma_fetch_fresh_child(ns, i, 2, st);
    lemma_fetch_fresh_child(ns, i, 2, s1);
    lemma_fetch_fresh_child(ns, i, 3, s2);
    lemma_keys_kept_child(ns, i, 1, st);
    lemma_keys_kept_child(ns, i, 2, st);
    if n.children@.len() >= 2 {
        lemma_fetch_fresh_args(ns, i, 1, Seq::empty(), st, n.kind is Addition);
    }
}

// ---------------------------------------------------------------------------
// The evaluator.

fn failure(m: &str) -> (s: Step)
    ensures
        view_step(s) == StepView::Done(eval_failure(m@)),
{
    Step::Done(Err(eval_error(m)))
}

fn copy_step(s: &Step) -> (c: Step)
    ensures
        view_step(c) == view_step(*s),
{
    match s {
        Step::Done(r) => Step::Done(clone_result(r)),
        Step::Fetch(i, u) => Step::Fetch(*i, u.clone()),
    }
}

fn step_stops(s: &Step) -> (r: bool)
    ensures
        r == stops(view_step(*s)),
{
    match s {
        Step::Done(Err(_)) => true,
        Step::Fetch(_, _) => true,
        _ => false,
    }
}

/// Evaluates node `i` of the graph against the cache.
pub fn eval_node(g: &Graph, i: usize, cache: &mut NodeCache) -> (r: Step)
    requires
        g.wf(),
        i < g.nodes@.len(),
        old(cache).wf(),
    ensures
        final(cache).wf(),
        (view_step(r), final(cache).state()) == eval_spec(g.nodes@, i as int, old(cache).state()),
    decreases i, g.nodes@[i as int].children@.len() + 2,
{
    let n = &g.nodes[i];
    proof {
        assert(crate::node::node_wf(g.nodes@, i as int));
    }
    match &n.kind {
        NodeKind::Symbol(name) => {
            if n.children.len() >= 1 {
                eval_node(g, n.children[0], cache)
            } else {
                Step::Done(Err(Error::EvalError(String::from_str("Undefined symbol: ").concat(name.as_str()))))
            }
        },
        _ => {
            match cache.get(&n.id) {
                Some(r) => {
                    return Step::Done(clone_result(r));
                },
                None => {},
            }
            let o = step_kind_exec(g, i, cache);
            match o {
                Step::Done(r) => {
                    let c = clone_result(&r);
                    cache.insert(n.id, r);
                    Step::Done(c)
                },
                _ => o,
            }
        },
    }
}

fn eval_child(g: &Graph, i: usize, k: usize, cache: &mut NodeCache) -> (r: Step)
    requires
        g.wf(),
        i < g.nodes@.len(),
        k < g.nodes@[i as int].children@.len(),
        old(cache).wf(),
    ensures
        final(cache).wf(),
        (view_step(r), final(cache).state()) == eval_child_spec(g.nodes@, i as int, k as int, old(cache).state()),
    decreases i, 0int,
{
    proof {
        assert(crate::node::node_wf(g.nodes@, i as int));
    }
    eval_node(g, g.nodes[i].children[k], cache)
}

fn eval_args(g: &Graph, i: usize, k: usize, acc: Vec<i64>, cache: &mut NodeCache, add: bool) -> (r: Result<Vec<i64>, Step>)
    requires
        g.wf(),
        i < g.nodes@.len(),
        old(cache).wf(),
    ensures
        final(cache).wf(),
        ({
            let (a, st) = eval_args_spec(g.nodes@, i as int, k as int, acc@, old(cache).state(), add);
            &&& st == final(cache).state()
            &&& match r {
                Ok(xs) => a == Ok::<Seq<i64>, StepView>(xs@),
                Err(s) => a == Err::<Seq<i64>, StepView>(view_step(s)),
            }
        }),
    decreases i, g.nodes@[i as int].children@.len() - k,
{
    if k >= g.nodes[i].children.len() {
        return Ok(acc);
    }
    let o = eval_child(g, i, k, cache);
    match o {
        Step::Done(Ok(Value::Number(x))) => {
            let mut acc = acc;
            acc.push(x);
            eval_args(g, i, k + 1, acc, cache, add)
        },
        Step::Done(Err(_)) => Err(o),
        Step::Fetch(_, _) => Err(o),
        _ => Err(
            if add {
                failure("'+' requires all arguments to be numbers")
            } else {
                failure("'*' requires all arguments to be numbers")
            },
        ),
    }
}

fn symbol_child(g: &Graph, i: usize, k: usize) -> (r: bool)
    requires
        g.wf(),
        i < g.nodes@.len(),
    ensures
        r == is_symbol_node(g.nodes@, i as int, k as int),
{
    proof {
        assert(crate::node::node_wf(g.nodes@, i as int));
    }
    k < g.nodes[i].children.len() && matches!(g.nodes[g.nodes[i].children[k]].kind, NodeKind::Symbol(_))
}

fn step_kind_exec(g: &Graph, i: usize, cache: &mut NodeCache) -> (r: Step)
    requires
        g.wf(),
        i < g.nodes@.len(),
        old(cache).wf(),
    ensures
        final(cache).wf(),
        (view_step(r), final(cache).state()) == step_kind(g.nodes@, i as int, old(cache).state()),
    decreases i, g.nodes@[i as int].children@.len() + 1,
{
    let n = &g.nodes[i];
    let len = n.children.len();
    proof {
        assert(crate::node::node_wf(g.nodes@, i as int));
    }
    match &n.kind {
        NodeKind::Number(v) => Step::Done(Ok(Value::Number(*v))),
        NodeKind::String(s) => Step::Done(Ok(Value::String(s.clone()))),
        NodeKind::Symbol(_) => failure("Malformed node"),
        NodeKind::Definition | NodeKind::LetStatement => {
            if len != 3 {
                failure("'def' and 'let' expect a name and a value")
            } else if !symbol_child(g, i, 1) {
                failure("the name to bind must be a symbol")
            } else {
                eval_child(g, i, 2, cache)
            }
        },
        NodeKind::LetExpression => {
            if len != 4 {
                failure("'let' expects a name, a value and a body")
            } else if !symbol_child(g, i, 1) {
                failure("the name to bind must be a symbol")
            } else {
                let o = eval_child(g, i, 2, cache);
                if step_stops(&o) {
                    o
                } else {
                    eval_child(g, i, 3, cache)
                }
            }
        },
        NodeKind::Addition | NodeKind::Multiplication => {
            let add = matches!(n.kind, NodeKind::Addition);
            if len < 2 {
                if add {
                    failure("'+' requires at least 1 argument")
                } else {
                    failure("'*' requires at least 1 argument")
                }
            } else {
                match eval_args(g, i, 1, Vec::new(), cache, add) {
                    Ok(xs) => {
                        let r = if add {
                            checked_sum(&xs)
                        } else {
                            checked_product(&xs)
                        };
                        match r {
                            Some(v) => Step::Done(Ok(Value::Number(v))),
                            None => if add {
                                failure("'+' result does not fit in a 64-bit integer")
                            } else {
                                failure("'*' result does not fit in a 64-bit integer")
                            },
                        }
                    },
                    Err(o) => o,
                }
            }
        },
        NodeKind::HttpGet => {
            if len != 2 {
                failure("'http.get' expects 1 argument (url)")
            } else {
                let o = eval_child(g, i, 1, cache);
                match o {
                    Step::Done(Ok(Value::String(u))) => Step::Fetch(n.id, u),
                    _ => if step_stops(&o) {
                        o
                    } else {
                        failure("'http.get' expects a string URL")
                    },
                }
            }
        },
        NodeKind::JsonParse => {
            if len != 2 {
                failure("'json.parse' expects 1 argument (string)")
            } else {
                let o = eval_child(g, i, 1, cache);
                match o {
                    Step::Done(Ok(Value::String(s))) => Step::Done(json_parse_result(parse_json(s.as_str()))),
                    _ => if step_stops(&o) {
                        o
                    } else {
                        failure("'json.parse' expects a string argument")
                    },
                }
            }
        },
        NodeKind::JsonGet => {
            if len != 3 {
                failure("'get' expects 2 arguments (json, key)")
            } else {
                let o1 = eval_child(g, i, 1, cache);
                if step_stops(&o1) {
                    o1
                } else {
                    let o2 = eval_child(g, i, 2, cache);
                    if step_stops(&o2) {
                        o2
                    } else {
                        Step::Done(json_get(&o1, &o2))
                    }
                }
            }
        },
        NodeKind::StringUpper => {
            if len != 2 {
                failure("'str.upper' expects 1 argument (string)")
            } else {
                let o = eval_child(g, i, 1, cache);
                match o {
                    Step::Done(Ok(Value::String(s))) => Step::Done(Ok(Value::String(to_upper(s.as_str())))),
                    _ => if step_stops(&o) {
                        o
                    } else {
                        failure("'str.upper' expects a string argument")
                    },
                }
            }
        },
        NodeKind::List => {
            if len == 0 {
                failure("Cannot evaluate an empty list")
            } else if symbol_child(g, i, 0) {
                match &g.nodes[n.children[0]].kind {
                    NodeKind::Symbol(head) => Step::Done(
                        Err(Error::EvalError(String::from_str("Unknown function: ").concat(head.as_str()))),
                    ),
                    _ => failure("List head must be a function symbol"),
                }
            } else {
                failure("List head must be a function symbol")
            }
        },
    }
}

/// What `json.parse` gives once the text is parsed: the document as a value,
/// or a JSON error with the parser's message.
pub fn json_parse_result(parsed: Result<String, String>) -> (r: EvalResult)
    ensures
        view_result(r) == match parsed {
            Ok(d) => ResultView::Json(d@),
            Err(m) => ResultView::Failure(ErrorKind::Json, m@),
        },
{
    match parsed {
        Ok(d) => Ok(Value::Json(d)),
        Err(m) => Err(Error::JsonError(m)),
    }
}

/// `(get JSON KEY)` on evaluated arguments.
pub fn json_get(o1: &Step, o2: &Step) -> (r: EvalResult)
    ensures
        view_result(r) == get_result(view_step(*o1), view_step(*o2)),
{
    match (o1, o2) {
        (Step::Done(Ok(Value::Json(d))), Step::Done(Ok(Value::String(k)))) => {
            match json_member(d.as_str(), k.as_str()) {
                Some(s) => convert_json_value(s),
                None => Err(
                    Error::EvalError(
                        String::from_str("Key '").concat(k.as_str()).concat("' not found in JSON object"),
                    ),
                ),
            }
        },
        (Step::Done(Ok(Value::Json(_))), _) => Err(eval_error("'get' expects the key to be a string")),
        _ => Err(eval_error("'get' expects its first argument to be a JSON document")),
    }
}

} // verus!
