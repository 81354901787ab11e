use vstd::prelude::*;

verus! {

/// Where an expression stands in the source: its 1-indexed line, its text, and
/// the character offsets where that text starts and ends.
#[derive(Debug)]
pub struct SourceSpan {
    pub line: usize,
    pub text: String,
    pub start: usize,
    pub end: usize,
}

/// The abstract tree the parser produces.
#[derive(Debug)]
pub enum ExprAst {
    Symbol(String, SourceSpan),
    Number(i64, SourceSpan),
    List(Vec<ExprAst>, SourceSpan),
    String(String, SourceSpan),
}

impl ExprAst {
    pub open spec fn span(&self) -> SourceSpan {
        match self {
            ExprAst::Symbol(_, s) => *s,
            ExprAst::Number(_, s) => *s,
            ExprAst::List(_, s) => *s,
            ExprAst::String(_, s) => *s,
        }
    }

    pub fn get_span(&self) -> (r: &SourceSpan)
        ensures
            *r == self.span(),
    {
        match self {
            ExprAst::Symbol(_, s) => s,
            ExprAst::Number(_, s) => s,
            ExprAst::List(_, s) => s,
            ExprAst::String(_, s) => s,
        }
    }
}

/// The decimal digit characters, by value.
pub open spec fn decimal_digits() -> Seq<char> {
    seq!['0', '1', '2', '3', '4', '5', '6', '7', '8', '9']
}

/// The decimal form of a natural number, without leading zeros.
pub open spec fn digits_of(m: nat) -> Seq<char>
    decreases m,
{
    if m < 10 {
        seq![decimal_digits()[m as int]]
    } else {
        digits_of(m / 10) + seq![decimal_digits()[(m % 10) as int]]
    }
}

/// The decimal form of an integer, with a leading minus when negative.
pub open spec fn decimal_of(n: int) -> Seq<char> {
    if n < 0 {
        seq!['-'] + digits_of((-n) as nat)
    } else {
        digits_of(n as nat)
    }
}

fn digit_str(d: u64) -> (r: &'static str)
    requires
        d < 10,
    ensures
        r@ == seq![decimal_digits()[d as int]],
{
    proof {
        reveal_strlit("0");
        reveal_strlit("1");
        reveal_strlit("2");
        reveal_strlit("3");
        reveal_strlit("4");
        reveal_strlit("5");
        reveal_strlit("6");
        reveal_strlit("7");
        reveal_strlit("8");
        reveal_strlit("9");
    }
    let r = if d == 0 {
        "0"
    } else if d == 1 {
        "1"
    } else if d == 2 {
        "2"
    } else if d == 3 {
        "3"
    } else if d == 4 {
        "4"
    } else if d == 5 {
        "5"
    } else if d == 6 {
        "6"
    } else if d == 7 {
        "7"
    } else if d == 8 {
        "8"
    } else {
        "9"
    };
    assert(r@ =~= seq![decimal_digits()[d as int]]);
    r
}

fn natural_to_string(m: u64) -> (r: String)
    ensures
        r@ == digits_of(m as nat),
    decreases m,
{
    if m < 10 {
        String::from_str(digit_str(m))
    } else {
        natural_to_string(m / 10).concat(digit_str(m % 10))
    }
}

/// The decimal form of an integer.
pub fn decimal(n: i64) -> (r: String)
    ensures
        r@ == decimal_of(n as int),
{
    if n < 0 {
        let m: u64 = if n == i64::MIN {
            0x8000_0000_0000_0000
        } else {
            (-n) as u64
        };
        let r = String::from_str("-").concat(natural_to_string(m).as_str());
        proof {
            reveal_strlit("-");
            assert(m as nat == (-n) as nat);
            assert(r@ =~= decimal_of(n as int));
        }
        r
    } else {
        natural_to_string(n as u64)
    }
}

/// The source form of an expression rebuilt from its parts: names and numbers as
/// written, strings quoted, lists parenthesised with single spaces.
pub open spec fn source_of(a: ExprAst) -> Seq<char>
    decreases a, 0int,
{
    match a {
        ExprAst::Symbol(s, _) => s@,
        ExprAst::Number(n, _) => decimal_of(n as int),
        ExprAst::String(s, _) => seq!['"'] + s@ + seq!['"'],
        ExprAst::List(items, _) => seq!['('] + joined_sources(items, 0) + seq![')'],
    }
}

/// The source forms of `items[k..]`, separated by single spaces.
pub open spec fn joined_sources(items: Vec<ExprAst>, k: int) -> Seq<char>
    decreases items, items@.len() - k,
{
    if k < 0 || k >= items@.len() {
        Seq::empty()
    } else if k == items@.len() - 1 {
        source_of(items[k])
    } else {
        source_of(items[k]) + seq![' '] + joined_sources(items, k + 1)
    }
}

/// The number of nodes an expression lowers to: one per expression, nested ones included.
pub open spec fn ast_size(a: ExprAst) -> nat
    decreases a, 0int,
{
    match a {
        ExprAst::List(items, _) => 1 + items_size(items, 0),
        _ => 1,
    }
}

/// The sizes of `items[k..]`, added up.
pub open spec fn items_size(items: Vec<ExprAst>, k: int) -> nat
    decreases items, items@.len() - k,
{
    if k < 0 || k >= items@.len() {
        0
    } else {
        ast_size(items[k]) + items_size(items, k + 1)
    }
}

/// The sizes of a sequence of expressions, added up.
pub open spec fn total_size(s: Seq<ExprAst>) -> nat
    decreases s.len(),
{
    if s.len() == 0 {
        0
    } else {
        total_size(s.drop_last()) + ast_size(s.last())
    }
}

/// Rebuilds the source text of an expression.
pub fn item_to_source_string(item: &ExprAst) -> (r: String)
    ensures
        r@ == source_of(*item),
    decreases *item, 0int,
{
    match item {
        ExprAst::Symbol(s, _) => s.clone(),
        ExprAst::Number(n, _) => decimal(*n),
        ExprAst::String(s, _) => {
            let r = String::from_str("\"").concat(s.as_str()).concat("\"");
            proof {
                reveal_strlit("\"");
                assert(r@ =~= source_of(*item));
            }
            r
        },
        ExprAst::List(items, _) => {
            let inner = join_sources(items, 0);
            let r = String::from_str("(").concat(inner.as_str()).concat(")");
            proof {
                reveal_strlit("(");
                reveal_strlit(")");
                assert(r@ =~= source_of(*item));
            }
            r
        },
    }
}

fn join_sources(items: &Vec<ExprAst>, k: usize) -> (r: String)
    ensures
        r@ == joined_sources(*items, k as int),
    decreases *items, items@.len() - k,
{
    if k >= items.len() {
        String::new()
    } else if k == items.len() - 1 {
        proof {
            assert(decreases_to!(*items => items[k as int]));
        }
        item_to_source_string(&items[k])
    } else {
        proof {
            assert(decreases_to!(*items => items[k as int]));
            reveal_strlit(" ");
        }
        let r = item_to_source_string(&items[k]).concat(" ").concat(join_sources(items, k + 1).as_str());
        assert(r@ =~= joined_sources(*items, k as int));
        r
    }
}

} // verus!
