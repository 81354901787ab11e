use vstd::prelude::*;

verus! {

/// A result of evaluation.
#[derive(Debug)]
pub enum Value {
    Number(i64),
    String(String),
    /// A parsed JSON document, held in its compact serialised form.
    Json(String),
}

/// The kinds of failure; each carries a human-readable message.
#[derive(Debug)]
pub enum Error {
    ParseError(String),
    EvalError(String),
    HttpError(String),
    JsonError(String),
}

/// What evaluating a node gives: a value or an error, both cacheable.
pub type EvalResult = Result<Value, Error>;

/// The shape of one JSON member, as far as the evaluator tells shapes apart.
#[derive(Debug)]
pub enum JsonShape {
    Text(String),
    /// A JSON number; holds the integer when it fits in an `i64`.
    Number(Option<i64>),
    Bool(bool),
    Null,
    Array,
    Object,
}

impl Error {
    /// The message carried by the error.
    pub open spec fn msg(&self) -> Seq<char> {
        match self {
            Error::ParseError(m) => m@,
            Error::EvalError(m) => m@,
            Error::HttpError(m) => m@,
            Error::JsonError(m) => m@,
        }
    }

    /// The text shown to a user: a prefix naming the kind, then the message.
    pub fn to_display_string(&self) -> (r: String)
        ensures
            r@ == self.display_prefix() + self.msg(),
    {
        match self {
            Error::ParseError(m) => String::from_str("Parse Error: ").concat(m.as_str()),
            Error::EvalError(m) => String::from_str("Evaluation Error: ").concat(m.as_str()),
            Error::HttpError(m) => String::from_str("HTTP Error: ").concat(m.as_str()),
            Error::JsonError(m) => String::from_str("JSON Error: ").concat(m.as_str()),
        }
    }

    pub open spec fn display_prefix(&self) -> Seq<char> {
        match self {
            Error::ParseError(_) => "Parse Error: "@,
            Error::EvalError(_) => "Evaluation Error: "@,
            Error::HttpError(_) => "HTTP Error: "@,
            Error::JsonError(_) => "JSON Error: "@,
        }
    }
}

/// The kind of an error, without its message.
#[derive(Clone, Copy, PartialEq, Eq, Structural, Debug)]
pub enum ErrorKind {
    Parse,
    Eval,
    Http,
    Json,
}

/// A result as the contracts see it: text as a sequence of characters.
pub enum ResultView {
    Number(i64),
    Text(Seq<char>),
    Json(Seq<char>),
    Failure(ErrorKind, Seq<char>),
}

pub open spec fn view_value(v: Value) -> ResultView {
    match v {
        Value::Number(n) => ResultView::Number(n),
        Value::String(s) => ResultView::Text(s@),
        Value::Json(s) => ResultView::Json(s@),
    }
}

pub open spec fn view_error(e: Error) -> ResultView {
    match e {
        Error::ParseError(m) => ResultView::Failure(ErrorKind::Parse, m@),
        Error::EvalError(m) => ResultView::Failure(ErrorKind::Eval, m@),
        Error::HttpError(m) => ResultView::Failure(ErrorKind::Http, m@),
        Error::JsonError(m) => ResultView::Failure(ErrorKind::Json, m@),
    }
}

pub open spec fn view_result(r: EvalResult) -> ResultView {
    match r {
        Ok(v) => view_value(v),
        Err(e) => view_error(e),
    }
}

/// An evaluation failure with the given message.
pub open spec fn eval_failure(m: Seq<char>) -> ResultView {
    ResultView::Failure(ErrorKind::Eval, m)
}

pub open spec fn same_value(a: Value, b: Value) -> bool {
    view_value(a) == view_value(b)
}

/// Two results agree when both are the same value or both the same error.
pub open spec fn same_result(a: EvalResult, b: EvalResult) -> bool {
    view_result(a) == view_result(b)
}

pub fn values_agree(a: &Value, b: &Value) -> (r: bool)
    ensures
        r == same_value(*a, *b),
{
    match (a, b) {
        (Value::Number(x), Value::Number(y)) => *x == *y,
        (Value::String(x), Value::String(y)) => x.eq(y),
        (Value::Json(x), Value::Json(y)) => x.eq(y),
        _ => false,
    }
}

pub fn results_agree(a: &EvalResult, b: &EvalResult) -> (r: bool)
    ensures
        r == same_result(*a, *b),
{
    match (a, b) {
        (Ok(x), Ok(y)) => values_agree(x, y),
        (Err(x), Err(y)) => match (x, y) {
            (Error::ParseError(p), Error::ParseError(q)) => p.eq(q),
            (Error::EvalError(p), Error::EvalError(q)) => p.eq(q),
            (Error::HttpError(p), Error::HttpError(q)) => p.eq(q),
            (Error::JsonError(p), Error::JsonError(q)) => p.eq(q),
            _ => false,
        },
        _ => false,
    }
}

pub fn clone_error(e: &Error) -> (r: Error)
    ensures
        view_error(r) == view_error(*e),
{
    match e {
        Error::ParseError(m) => Error::ParseError(m.clone()),
        Error::EvalError(m) => Error::EvalError(m.clone()),
        Error::HttpError(m) => Error::HttpError(m.clone()),
        Error::JsonError(m) => Error::JsonError(m.clone()),
    }
}

pub fn clone_result(r: &EvalResult) -> (c: EvalResult)
    ensures
        view_result(c) == view_result(*r),
{
    match r {
        Ok(v) => Ok(
            match v {
                Value::Number(n) => Value::Number(*n),
                Value::String(s) => Value::String(s.clone()),
                Value::Json(s) => Value::Json(s.clone()),
            },
        ),
        Err(e) => Err(clone_error(e)),
    }
}

/// Builds an evaluation error from a message.
pub fn eval_error(m: &str) -> (e: Error)
    ensures
        view_error(e) == eval_failure(m@),
{
    Error::EvalError(String::from_str(m))
}

/// What a JSON member of the given shape becomes as a value: text and integers
/// carry over, every other shape is refused.
pub open spec fn shape_converts(s: JsonShape, r: EvalResult) -> bool {
    view_result(r) == converted(view_shape(s))
}

/// A JSON member's shape as the contracts see it.
pub enum ShapeView {
    Text(Seq<char>),
    Number(Option<i64>),
    Bool(bool),
    Null,
    Array,
    Object,
}

pub open spec fn view_shape(s: JsonShape) -> ShapeView {
    match s {
        JsonShape::Text(t) => ShapeView::Text(t@),
        JsonShape::Number(n) => ShapeView::Number(n),
        JsonShape::Bool(b) => ShapeView::Bool(b),
        JsonShape::Null => ShapeView::Null,
        JsonShape::Array => ShapeView::Array,
        JsonShape::Object => ShapeView::Object,
    }
}

/// Text and integers carry over; every other shape is refused with a message naming it.
pub open spec fn converted(s: ShapeView) -> ResultView {
    match s {
        ShapeView::Text(t) => ResultView::Text(t),
        ShapeView::Number(Some(i)) => ResultView::Number(i),
        ShapeView::Number(None) => eval_failure(
            "Unsupported number type from JSON: only 64-bit integers are supported"@,
        ),
        ShapeView::Bool(_) => eval_failure("Boolean JSON value not yet supported as primitive"@),
        ShapeView::Null => eval_failure("Null JSON value not yet supported as primitive"@),
        ShapeView::Array => eval_failure("Array JSON value not yet supported as primitive"@),
        ShapeView::Object => eval_failure(
            "Nested JSON objects not directly supported as primitive values"@,
        ),
    }
}

/// Projects a JSON member onto the value sum.
pub fn convert_json_value(shape: JsonShape) -> (r: EvalResult)
    ensures
        shape_converts(shape, r),
{
    match shape {
        JsonShape::Text(s) => Ok(Value::String(s)),
        JsonShape::Number(Some(i)) => Ok(Value::Number(i)),
        JsonShape::Number(None) => Err(
            eval_error("Unsupported number type from JSON: only 64-bit integers are supported"),
        ),
        JsonShape::Bool(_) => Err(eval_error("Boolean JSON value not yet supported as primitive")),
        JsonShape::Null => Err(eval_error("Null JSON value not yet supported as primitive")),
        JsonShape::Array => Err(eval_error("Array JSON value not yet supported as primitive")),
        JsonShape::Object => Err(
            eval_error("Nested JSON objects not directly supported as primitive values"),
        ),
    }
}

// ---------------------------------------------------------------------------
// Integer arithmetic of `+` and `*`: the exact sum or product of the arguments,
// refused when it leaves the range of `i64`.

pub open spec fn int_sum(s: Seq<i64>) -> int
    decreases s.len(),
{
    if s.len() == 0 {
        0
    } else {
        int_sum(s.drop_last()) + s.last()
    }
}

pub open spec fn int_product(s: Seq<i64>) -> int
    decreases s.len(),
{
    if s.len() == 0 {
        1
    } else {
        int_product(s.drop_last()) * s.last()
    }
}

pub open spec fn fits_i64(x: int) -> bool {
    i64::MIN <= x <= i64::MAX
}

/// The sum of the arguments, when it fits.
pub open spec fn sum_of(s: Seq<i64>) -> Option<i64> {
    if fits_i64(int_sum(s)) {
        Some(int_sum(s) as i64)
    } else {
        None
    }
}

/// The product of the arguments, when it fits.
pub open spec fn product_of(s: Seq<i64>) -> Option<i64> {
    if fits_i64(int_product(s)) {
        Some(int_product(s) as i64)
    } else {
        None
    }
}

pub open spec fn abs(x: int) -> int {
    if x < 0 {
        -x
    } else {
        x
    }
}

proof fn lemma_sum_bound(s: Seq<i64>)
    ensures
        abs(int_sum(s)) <= s.len() * 0x8000_0000_0000_0000,
    decreases s.len(),
{
    if s.len() > 0 {
        lemma_sum_bound(s.drop_last());
    }
}

pub fn checked_sum(xs: &Vec<i64>) -> (r: Option<i64>)
    ensures
        r == sum_of(xs@),
{
    let mut acc: i128 = 0;
    let mut i: usize = 0;
    while i < xs.len()
        invariant
            i <= xs.len(),
            acc == int_sum(xs@.take(i as int)),
        decreases xs.len() - i,
    {
        proof {
            lemma_sum_bound(xs@.take(i as int));
            assert(xs@.take(i as int + 1).drop_last() == xs@.take(i as int));
            assert(i < usize::MAX);
            assert(abs(acc as int) <= (usize::MAX - 1) * 0x8000_0000_0000_0000) by (nonlinear_arith)
                requires
                    abs(acc as int) <= i * 0x8000_0000_0000_0000,
                    i < usize::MAX,
            ;
        }
        acc = acc + xs[i] as i128;
        i = i + 1;
    }
    assert(xs@.take(xs.len() as int) == xs@);
    if acc >= i64::MIN as i128 && acc <= i64::MAX as i128 {
        Some(acc as i64)
    } else {
        None
    }
}

proof fn lemma_product_zero(s: Seq<i64>, k: int)
    requires
        0 <= k < s.len(),
        s[k] == 0,
    ensures
        int_product(s) == 0,
    decreases s.len(),
{
    if k < s.len() - 1 {
        lemma_product_zero(s.drop_last(), k);
    }
}

/// Without a zero factor the magnitude of a product never shrinks as factors are added.
proof fn lemma_product_grows(s: Seq<i64>, k: int)
    requires
        0 <= k <= s.len(),
        forall|j: int| 0 <= j < s.len() ==> s[j] != 0,
    ensures
        abs(int_product(s)) >= abs(int_product(s.take(k))),
        abs(int_product(s)) >= 1,
    decreases s.len(),
{
    if s.len() > 0 {
        let p = s.drop_last();
        if k == s.len() {
            assert(s.take(k) == s);
            lemma_product_grows(p, 0);
        } else {
            assert(p.take(k) == s.take(k));
            lemma_product_grows(p, k);
        }
        let a = int_product(p);
        let b = s.last() as int;
        assert(abs(a * b) >= abs(a)) by (nonlinear_arith)
            requires
                b != 0,
        ;
        assert(abs(a * b) >= 1) by (nonlinear_arith)
            requires
                b != 0,
                abs(a) >= 1,
        ;
    }
}

pub fn checked_product(xs: &Vec<i64>) -> (r: Option<i64>)
    ensures
        r == product_of(xs@),
{
    let mut z: usize = 0;
    while z < xs.len()
        invariant
            z <= xs.len(),
            forall|j: int| 0 <= j < z ==> xs@[j] != 0,
        decreases xs.len() - z,
    {
        if xs[z] == 0 {
            proof {
                lemma_product_zero(xs@, z as int);
            }
            return Some(0);
        }
        z = z + 1;
    }
    let bound: i128 = 0x8000_0000_0000_0000;
    let mut acc: i128 = 1;
    let mut i: usize = 0;
    while i < xs.len()
        invariant
            i <= xs.len(),
            forall|j: int| 0 <= j < xs.len() ==> xs@[j] != 0,
            acc == int_product(xs@.take(i as int)),
            -bound <= acc <= bound,
            bound == 0x8000_0000_0000_0000,
        decreases xs.len() - i,
    {
        assert(xs@.take(i as int + 1).drop_last() == xs@.take(i as int));
        let x = xs[i] as i128;
        assert(-bound * bound <= acc * x <= bound * bound) by (nonlinear_arith)
            requires
                -bound <= acc <= bound,
                -bound <= x <= bound,
        ;
        let next = acc * x;
        if next > bound || next < -bound {
            proof {
                lemma_product_grows(xs@, i as int + 1);
            }
            return None;
        }
        acc = next;
        i = i + 1;
    }
    assert(xs@.take(xs.len() as int) == xs@);
    if acc >= i64::MIN as i128 && acc <= i64::MAX as i128 {
        Some(acc as i64)
    } else {
        None
    }
}

/// `+` and `*` on integers are commutative, and associative wherever the inner
/// results fit: regrouping three arguments gives the result of the flat form.
pub proof fn lemma_arith_laws(x: i64, y: i64, z: i64)
    ensures
        sum_of(seq![x, y]) == sum_of(seq![y, x]),
        product_of(seq![x, y]) == product_of(seq![y, x]),
        sum_of(seq![x, y]) matches Some(s) ==> sum_of(seq![s, z]) == sum_of(seq![x, y, z]),
        sum_of(seq![y, z]) matches Some(t) ==> sum_of(seq![x, t]) == sum_of(seq![x, y, z]),
        product_of(seq![x, y]) matches Some(p) ==> product_of(seq![p, z]) == product_of(
            seq![x, y, z],
        ),
        product_of(seq![y, z]) matches Some(q) ==> product_of(seq![x, q]) == product_of(
            seq![x, y, z],
        ),
{
    reveal_with_fuel(int_sum, 4);
    reveal_with_fuel(int_product, 4);
    assert(seq![x, y].drop_last() =~= seq![x]);
    assert(seq![y, x].drop_last() =~= seq![y]);
    assert(seq![x, y, z].drop_last() =~= seq![x, y]);
    assert(seq![x].drop_last() =~= Seq::<i64>::empty());
    assert(seq![y].drop_last() =~= Seq::<i64>::empty());
    if let Some(s) = sum_of(seq![x, y]) {
        assert(seq![s, z].drop_last() =~= seq![s]);
        assert(seq![s].drop_last() =~= Seq::<i64>::empty());
    }
    if let Some(t) = sum_of(seq![y, z]) {
        assert(seq![x, t].drop_last() =~= seq![x]);
        assert(seq![y, z].drop_last() =~= seq![y]);
    }
    if let Some(p) = product_of(seq![x, y]) {
        assert(seq![p, z].drop_last() =~= seq![p]);
        assert(seq![p].drop_last() =~= Seq::<i64>::empty());
    }
    if let Some(q) = product_of(seq![y, z]) {
        assert(seq![x, q].drop_last() =~= seq![x]);
        assert(seq![y, z].drop_last() =~= seq![y]);
        let (a, b, c) = (x as int, y as int, z as int);
        assert(a * (b * c) == (a * b) * c) by (nonlinear_arith);
    }
    let (a, b) = (x as int, y as int);
    assert(a * b == b * a) by (nonlinear_arith);
}

proof fn lemma_remove_factor(t: Seq<i64>, i: int)
    requires
        0 <= i < t.len(),
    ensures
        int_sum(t) == int_sum(t.remove(i)) + t[i],
        int_product(t) == int_product(t.remove(i)) * t[i],
    decreases t.len(),
{
    if i == t.len() - 1 {
        assert(t.remove(i) =~= t.drop_last());
    } else {
        let d = t.drop_last();
        assert(d.remove(i) =~= t.remove(i).drop_last());
        assert(t.remove(i).last() == t.last());
        lemma_remove_factor(d, i);
        assert(d[i] == t[i]);
        let (p, a, b) = (int_product(d.remove(i)), t[i] as int, t.last() as int);
        assert((p * a) * b == (p * b) * a) by (nonlinear_arith);
    }
}

/// Sums and products do not depend on the order of the arguments: any
/// reordering of the same integers has the same sum and the same product.
pub proof fn lemma_arith_order_free(s: Seq<i64>, t: Seq<i64>)
    requires
        s.to_multiset() == t.to_multiset(),
    ensures
        sum_of(s) == sum_of(t),
        product_of(s) == product_of(t),
        int_sum(s) == int_sum(t),
        int_product(s) == int_product(t),
    decreases s.len(),
{
    broadcast use vstd::seq_lib::to_multiset_build, vstd::seq_lib::to_multiset_remove,
        vstd::seq_lib::to_multiset_contains, vstd::seq_lib::to_multiset_len;

    if s.len() == 0 {
        assert(t.to_multiset().len() == 0);
        assert(t.len() == 0);
    } else {
        let x = s.last();
        let s1 = s.drop_last();
        assert(s1.push(x) == s);
        assert(s.to_multiset() == s1.to_multiset().insert(x));
        assert(t.to_multiset().count(x) > 0);
        assert(t.contains(x));
        let i = choose|i: int| 0 <= i < t.len() && t[i] == x;
        let t1 = t.remove(i);
        assert(t1.to_multiset() == t.to_multiset().remove(x));
        assert(s1.to_multiset() =~= s1.to_multiset().insert(x).remove(x));
        lemma_arith_order_free(s1, t1);
        lemma_remove_factor(t, i);
    }
}

proof fn lemma_concat(a: Seq<i64>, b: Seq<i64>)
    ensures
        int_sum(a + b) == int_sum(a) + int_sum(b),
        int_product(a + b) == int_product(a) * int_product(b),
    decreases b.len(),
{
    if b.len() == 0 {
        assert(a + b =~= a);
    } else {
        assert((a + b).drop_last() =~= a + b.drop_last());
        lemma_concat(a, b.drop_last());
        let (p, q, l) = (int_product(a), int_product(b.drop_last()), b.last() as int);
        assert(p * q * l == p * (q * l)) by (nonlinear_arith);
    }
}

/// Regrouping: replacing the leading arguments of a sum or product by their own
/// sum or product, where that fits, gives the result of the flat form.
pub proof fn lemma_arith_regroup(a: Seq<i64>, b: Seq<i64>)
    ensures
        sum_of(a) matches Some(x) ==> sum_of(seq![x] + b) == sum_of(a + b),
        product_of(a) matches Some(x) ==> product_of(seq![x] + b) == product_of(a + b),
{
    lemma_concat(a, b);
    if let Some(x) = sum_of(a) {
        lemma_concat(seq![x], b);
        reveal_with_fuel(int_sum, 2);
        assert(seq![x].drop_last() =~= Seq::<i64>::empty());
    }
    if let Some(x) = product_of(a) {
        lemma_concat(seq![x], b);
        reveal_with_fuel(int_product, 2);
        assert(seq![x].drop_last() =~= Seq::<i64>::empty());
    }
}

} // verus!
