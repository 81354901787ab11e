use vstd::prelude::*;
use vstd::string::StrSliceExecFns;
use crate::ast::{ExprAst, SourceSpan};
use crate::value::Error;

verus! {

pub open spec fn is_space(c: char) -> bool {
    c == ' ' || c == '\t' || c == '\n' || c == '\r'
}

/// Characters that end a symbol or a number.
pub open spec fn is_delim(c: char) -> bool {
    is_space(c) || c == '(' || c == ')' || c == '"' || c == ';'
}

pub open spec fn is_digit(c: char) -> bool {
    48 <= c as u32 <= 57
}

/// The 1-indexed line of position `p`.
pub open spec fn line_of(cs: Seq<char>, p: int) -> int
    decreases p,
{
    if p <= 0 || p > cs.len() {
        1
    } else {
        line_of(cs, p - 1) + if cs[p - 1] == '\n' {
            1int
        } else {
            0int
        }
    }
}

pub open spec fn all_digits(s: Seq<char>) -> bool {
    forall|i: int| 0 <= i < s.len() ==> is_digit(#[trigger] s[i])
}

pub open spec fn digits_value(s: Seq<char>) -> int
    decreases s.len(),
{
    if s.len() == 0 {
        0
    } else {
        digits_value(s.drop_last()) * 10 + (s.last() as u32 - 48)
    }
}

/// An optional minus sign followed by at least one decimal digit.
pub open spec fn is_numeral(s: Seq<char>) -> bool {
    (s.len() > 0 && all_digits(s)) || (s.len() > 1 && s[0] == '-' && all_digits(s.drop_first()))
}

pub open spec fn numeral_value(s: Seq<char>) -> int {
    if s.len() > 0 && s[0] == '-' {
        -digits_value(s.drop_first())
    } else {
        digits_value(s)
    }
}

/// The character an escape `\\c` stands for.
pub open spec fn escaped(c: char) -> char {
    if c == 'n' {
        '\n'
    } else if c == 't' {
        '\t'
    } else {
        c
    }
}

/// Reads the body of a string literal from `i` on: the characters it stands for
/// and the position of the closing quote; None when the literal is not closed.
pub open spec fn scan_string(cs: Seq<char>, i: int) -> Option<(Seq<char>, int)>
    decreases cs.len() - i,
{
    if i < 0 || i >= cs.len() {
        None
    } else if cs[i] == '"' {
        Some((Seq::empty(), i))
    } else if cs[i] == '\\' {
        if i + 1 >= cs.len() {
            None
        } else {
            match scan_string(cs, i + 2) {
                Some((t, e)) => Some((seq![escaped(cs[i + 1])] + t, e)),
                None => None,
            }
        }
    } else {
        match scan_string(cs, i + 1) {
            Some((t, e)) => Some((seq![cs[i]] + t, e)),
            None => None,
        }
    }
}

/// Where blanks and `;` comments that start at `i` end (`in_comment`: inside a
/// comment already).
#[verifier::opaque]
pub open spec fn skip_spec(cs: Seq<char>, i: int, in_comment: bool) -> int
    decreases cs.len() - i,
{
    if i < 0 || i >= cs.len() {
        cs.len() as int
    } else if in_comment {
        skip_spec(cs, i + 1, cs[i] != '\n')
    } else if cs[i] == ';' {
        skip_spec(cs, i + 1, true)
    } else if is_space(cs[i]) {
        skip_spec(cs, i + 1, false)
    } else {
        i
    }
}

/// Where the item before item `j` ends; `a` for the first.
pub open spec fn end_before(items: Seq<ExprAst>, j: int, a: int) -> int {
    if j == 0 {
        a
    } else {
        items[j - 1].span().end as int
    }
}

/// Each item starts where the blanks after the previous one (or after `a`) end.
pub open spec fn starts_ok(cs: Seq<char>, items: Seq<ExprAst>, a: int) -> bool {
    forall|j: int| 0 <= j < items.len() ==> (#[trigger] items[j]).span().start == skip_spec(cs, end_before(items, j, a), false)
}

/// The items fill `cs[a..b]`, with only blanks and comments between and around them.
pub open spec fn tiles(cs: Seq<char>, items: Seq<ExprAst>, a: int, b: int) -> bool {
    &&& starts_ok(cs, items, a)
    &&& skip_spec(cs, end_before(items, items.len() as int, a), false) == b
}

/// `ast` is the expression written where its span says: a maximal token for a
/// symbol or number, a closed literal for a string, and for a list its items
/// filling the text between the brackets.
#[verifier::opaque]
pub open spec fn spans(cs: Seq<char>, ast: ExprAst) -> bool
    decreases ast,
{
    let (p, e) = (ast.span().start as int, ast.span().end as int);
    let text = cs.subrange(p, e);
    &&& 0 <= p < e <= cs.len()
    &&& ast.span().text@ == text
    &&& ast.span().line == line_of(cs, p)
    &&& match ast {
        ExprAst::Symbol(n, _) => n@ == text && !is_numeral(text) && is_token(cs, p, e),
        ExprAst::Number(v, _) => is_numeral(text) && numeral_value(text) == v as int && is_token(cs, p, e),
        ExprAst::String(s, _) => cs[p] == '"' && scan_string(cs, p + 1) == Some((s@, e - 1)),
        ExprAst::List(items, _) => {
            &&& cs[p] == '('
            &&& cs[e - 1] == ')'
            &&& tiles(cs, items@, p + 1, e - 1)
            &&& forall|j: int| 0 <= j < items@.len() ==> spans(cs, #[trigger] items@[j])
        },
    }
}

/// `roots` are the top-level expressions of `cs`: they fill the whole text, with
/// only blanks and comments between them, and each is written where its span says.
pub open spec fn parsed(cs: Seq<char>, roots: Seq<ExprAst>) -> bool {
    &&& tiles(cs, roots, 0, cs.len() as int)
    &&& forall|k: int| 0 <= k < roots.len() ==> spans(cs, #[trigger] roots[k])
}

/// `cs[p..e]` holds no delimiter and is followed by one or by the end.
pub open spec fn is_token(cs: Seq<char>, p: int, e: int) -> bool {
    &&& forall|i: int| p <= i < e ==> !is_delim(#[trigger] cs[i])
    &&& (e == cs.len() || is_delim(cs[e]))
}

/// The number of items of a list; zero for other expressions.
pub open spec fn list_len(a: ExprAst) -> int {
    match a {
        ExprAst::List(items, _) => items@.len() as int,
        _ => 0,
    }
}

/// No expression is written at a closing bracket.
proof fn lemma_not_at_close(cs: Seq<char>, x: ExprAst)
    requires
        spans(cs, x),
    ensures
        cs[x.span().start as int] != ')',
{
    reveal(spans);
    let p = x.span().start as int;
    match x {
        ExprAst::Symbol(_, _) => assert(!is_delim(cs[p])),
        ExprAst::Number(_, _) => assert(!is_delim(cs[p])),
        _ => {},
    }
}

/// An expression that starts where another starts also ends where it ends.
proof fn lemma_span_unique(cs: Seq<char>, a: ExprAst, b: ExprAst)
    requires
        spans(cs, a),
        spans(cs, b),
        a.span().start == b.span().start,
    ensures
        a.span().end == b.span().end,
    decreases a, list_len(a) + 1,
{
    reveal(spans);
    let p = a.span().start as int;
    let (ea, eb) = (a.span().end as int, b.span().end as int);
    if (a is Symbol || a is Number) && (b is Symbol || b is Number) {
        assert(is_token(cs, p, ea) && is_token(cs, p, eb));
        if ea < eb {
            assert(!is_delim(cs[ea]));
        } else if eb < ea {
            assert(!is_delim(cs[eb]));
        }
    } else if a is List && b is List {
        lemma_items_agree(cs, a, b, 0);
    } else if a is String && b is String {
    } else {
        if a is Symbol || a is Number {
            assert(!is_delim(cs[p]));
        }
        if b is Symbol || b is Number {
            assert(!is_delim(cs[p]));
        }
    }
}

proof fn lemma_items_agree(cs: Seq<char>, a: ExprAst, b: ExprAst, k: int)
    requires
        a is List,
        b is List,
        a.span().start == b.span().start,
        tiles(cs, a->List_0@, a.span().start + 1, a.span().end - 1),
        tiles(cs, b->List_0@, b.span().start + 1, b.span().end - 1),
        cs[a.span().end - 1] == ')',
        cs[b.span().end - 1] == ')',
        forall|t: int| 0 <= t < list_len(a) ==> spans(cs, #[trigger] a->List_0@[t]),
        forall|t: int| 0 <= t < list_len(b) ==> spans(cs, #[trigger] b->List_0@[t]),
        0 <= k <= list_len(a),
        k <= list_len(b),
        end_before(a->List_0@, k, a.span().start + 1) == end_before(b->List_0@, k, b.span().start + 1),
    ensures
        a.span().end == b.span().end,
    decreases a, list_len(a) - k,
{
    let ia = a->List_0@;
    let ib = b->List_0@;
    let a0 = a.span().start as int + 1;
    if k == ia.len() && k == ib.len() {
        assert(skip_spec(cs, end_before(ia, k, a0), false) == a.span().end - 1);
    }
    if k == ia.len() && k < ib.len() {
        assert(ib[k].span().start == skip_spec(cs, end_before(ib, k, a0), false));
        assert(spans(cs, ib[k]));
        lemma_not_at_close(cs, ib[k]);
    }
    if k == ib.len() && k < ia.len() {
        assert(ia[k].span().start == skip_spec(cs, end_before(ia, k, a0), false));
        assert(spans(cs, ia[k]));
        lemma_not_at_close(cs, ia[k]);
    }
    if k < ia.len() && k < ib.len() {
        let v = a->List_0;
        assert(decreases_to!(a => a->List_0));
        assert(decreases_to!(v => v[k]));
        lemma_span_unique(cs, ia[k], ib[k]);
        assert(end_before(ia, k + 1, a0) == end_before(ib, k + 1, a0));
        lemma_items_agree(cs, a, b, k + 1);
    }
}

/// No expression is written starting at `p`.
pub open spec fn nothing_at(cs: Seq<char>, p: int) -> bool {
    forall|b: ExprAst| #[trigger] spans(cs, b) ==> b.span().start != p
}

proof fn lemma_nothing_at_close(cs: Seq<char>, p: int)
    requires
        0 <= p < cs.len(),
        cs[p] == ')',
    ensures
        nothing_at(cs, p),
{
    assert forall|b: ExprAst| #[trigger] spans(cs, b) implies b.span().start != p by {
        lemma_not_at_close(cs, b);
    }
}

proof fn lemma_nothing_at_open_string(cs: Seq<char>, p: int)
    requires
        0 <= p < cs.len(),
        cs[p] == '"',
        scan_string(cs, p + 1) is None,
    ensures
        nothing_at(cs, p),
{
    reveal(spans);
    assert forall|b: ExprAst| #[trigger] spans(cs, b) implies b.span().start != p by {
        if b.span().start == p && (b is Symbol || b is Number) {
            assert(!is_delim(cs[p]));
        }
    }
}

proof fn lemma_nothing_at_big_number(cs: Seq<char>, p: int, e: int)
    requires
        0 <= p < e <= cs.len(),
        is_token(cs, p, e),
        is_numeral(cs.subrange(p, e)),
        !numeral_fits(cs.subrange(p, e)),
        cs[p] != '(',
    ensures
        nothing_at(cs, p),
{
    reveal(spans);
    assert forall|b: ExprAst| #[trigger] spans(cs, b) implies b.span().start != p by {
        if b.span().start == p {
            let eb = b.span().end as int;
            if b is Symbol || b is Number {
                if eb < e {
                    assert(!is_delim(cs[eb]));
                } else if e < eb {
                    assert(!is_delim(cs[e]));
                }
            } else if b is String {
                assert(!is_delim(cs[p]));
            }
        }
    }
}

/// Where the items of some expression list tile `cs[a0..bend]`, the item after
/// the first `j` starts where the blanks after them end, unless the list ends there.
proof fn lemma_next_item(cs: Seq<char>, its: Seq<ExprAst>, a0: int, bend: int, j: int, q: int)
    requires
        tiles(cs, its, a0, bend),
        0 <= j <= its.len(),
        q == skip_spec(cs, end_before(its, j, a0), false),
        q != bend,
    ensures
        j < its.len(),
        its[j].span().start == q,
{
    if j < its.len() {
        assert(its[j].span().start == skip_spec(cs, end_before(its, j, a0), false));
    }
}

/// A text of blanks and comments only, the empty text among them, is the text
/// of no expressions; so parsing it succeeds.
pub proof fn lemma_blank_text_parses(cs: Seq<char>)
    requires
        cs.len() == 0 || skip_spec(cs, 0, false) == cs.len(),
    ensures
        parsed(cs, Seq::empty()),
{
    reveal(skip_spec);
}

fn parse_error(m: &str) -> (e: Error)
    ensures
        e is ParseError,
{
    Error::ParseError(String::from_str(m))
}

fn char_is_space(c: char) -> (r: bool)
    ensures
        r == is_space(c),
{
    c == ' ' || c == '\t' || c == '\n' || c == '\r'
}

fn char_is_delim(c: char) -> (r: bool)
    ensures
        r == is_delim(c),
{
    char_is_space(c) || c == '(' || c == ')' || c == '"' || c == ';'
}

proof fn lemma_line_step(cs: Seq<char>, p: int)
    requires
        0 <= p < cs.len(),
    ensures
        line_of(cs, p + 1) == line_of(cs, p) + if cs[p] == '\n' {
            1int
        } else {
            0int
        },
{
}

proof fn lemma_line_bound(cs: Seq<char>, p: int)
    requires
        0 <= p <= cs.len(),
    ensures
        1 <= line_of(cs, p) <= p + 1,
    decreases p,
{
    if p > 0 {
        lemma_line_bound(cs, p - 1);
    }
}

/// Skips blanks and `;` comments; returns the next position and its line.
fn skip_blank(src: &str, n: usize, pos: usize, line: usize) -> (r: (usize, usize))
    requires
        n == src@.len(),
        pos <= n,
        line == line_of(src@, pos as int),
        n < usize::MAX,
    ensures
        pos <= r.0 <= n,
        r.0 == skip_spec(src@, pos as int, false),
        r.1 == line_of(src@, r.0 as int),
        r.0 < n ==> !is_space(src@[r.0 as int]) && src@[r.0 as int] != ';',
{
    proof {
        reveal(skip_spec);
    }
    let mut p = pos;
    let mut l = line;
    let mut in_comment = false;
    while p < n
        invariant
            n == src@.len(),
            pos <= p <= n,
            l == line_of(src@, p as int),
            n < usize::MAX,
            skip_spec(src@, pos as int, false) == skip_spec(src@, p as int, in_comment),
        decreases n - p,
    {
        let c = src.get_char(p);
        proof {
            lemma_line_bound(src@, p as int);
            reveal(skip_spec);
        }
        if in_comment {
            if c == '\n' {
                in_comment = false;
            }
        } else if c == ';' {
            in_comment = true;
        } else if !char_is_space(c) {
            return (p, l);
        }
        proof {
            lemma_line_step(src@, p as int);
        }
        if c == '\n' {
            l = l + 1;
        }
        p = p + 1;
    }
    proof {
        reveal(skip_spec);
    }
    (p, l)
}

/// The end of the token that starts at `pos`.
fn token_end(src: &str, n: usize, pos: usize) -> (e: usize)
    requires
        n == src@.len(),
        pos <= n,
    ensures
        pos <= e <= n,
        forall|i: int| pos <= i < e ==> !is_delim(#[trigger] src@[i]),
        e < n ==> is_delim(src@[e as int]),
{
    let mut e = pos;
    while e < n && !char_is_delim(src.get_char(e))
        invariant
            n == src@.len(),
            pos <= e <= n,
            forall|i: int| pos <= i < e ==> !is_delim(#[trigger] src@[i]),
        decreases n - e,
    {
        e = e + 1;
    }
    e
}

/// The value of a numeral, when it fits in an `i64`.
proof fn lemma_digits_grow(s: Seq<char>, m: int)
    requires
        all_digits(s),
        0 <= m <= s.len(),
    ensures
        0 <= digits_value(s.take(m)) <= digits_value(s),
    decreases s.len(),
{
    if m < s.len() {
        let t = s.drop_last();
        assert(all_digits(t)) by {
            assert forall|i: int| 0 <= i < t.len() implies is_digit(#[trigger] t[i]) by {
                assert(t[i] == s[i]);
            }
        }
        assert(s.take(m) == t.take(m));
        lemma_digits_grow(t, m);
        lemma_digits_grow(t, t.len() as int);
        assert(t.take(t.len() as int) == t);
        assert(is_digit(s[s.len() - 1]));
    } else {
        assert(s.take(m) == s);
        if s.len() > 0 {
            let t = s.drop_last();
            assert(all_digits(t)) by {
                assert forall|i: int| 0 <= i < t.len() implies is_digit(#[trigger] t[i]) by {
                    assert(t[i] == s[i]);
                }
            }
            lemma_digits_grow(t, t.len() as int);
            assert(t.take(t.len() as int) == t);
            assert(is_digit(s[s.len() - 1]));
        }
    }
}

/// The value of a numeral fits in an `i64`.
pub open spec fn numeral_fits(s: Seq<char>) -> bool {
    i64::MIN <= numeral_value(s) <= i64::MAX
}

fn numeral(s: &str) -> (r: Option<i64>)
    requires
        is_numeral(s@),
    ensures
        r matches Some(v) ==> v as int == numeral_value(s@),
        r is None <==> !numeral_fits(s@),
{
    let n = s.unicode_len();
    let neg = s.get_char(0) == '-';
    let mut i: usize = if neg {
        1
    } else {
        0
    };
    let ghost ds = if neg {
        s@.drop_first()
    } else {
        s@
    };
    let ghost start = i as int;
    proof {
        if neg {
            assert(s@.drop_first() == s@.subrange(1, n as int));
        } else {
            assert(s@ == s@.subrange(0, n as int));
        }
    }
    let mut acc: i128 = 0;
    while i < n
        invariant
            n == s@.len(),
            start <= i <= n,
            start == (if neg {
                1int
            } else {
                0int
            }),
            ds == s@.subrange(start, n as int),
            n > 0,
            neg == (s@[0] == '-'),
            numeral_value(s@) == (if neg {
                -digits_value(ds)
            } else {
                digits_value(ds)
            }),
            all_digits(ds),
            acc == digits_value(ds.take(i - start)),
            0 <= acc <= 0x8000_0000_0000_0000,
        decreases n - i,
    {
        let c = s.get_char(i);
        assert(ds[i - start] == c);
        assert(ds.take(i - start + 1).drop_last() == ds.take(i - start));
        let d = (c as u32 - 48) as i128;
        acc = acc * 10 + d;
        if acc > 0x8000_0000_0000_0000 {
            proof {
                lemma_digits_grow(ds, i - start + 1);
            }
            return None;
        }
        i = i + 1;
    }
    assert(ds.take(n - start) == ds);
    if neg {
        Some((-acc) as i64)
    } else if acc <= 0x7fff_ffff_ffff_ffff {
        Some(acc as i64)
    } else {
        None
    }
}

fn text_is_numeral(s: &str) -> (r: bool)
    ensures
        r == is_numeral(s@),
{
    let n = s.unicode_len();
    if n == 0 {
        return false;
    }
    let neg = s.get_char(0) == '-';
    if neg && n == 1 {
        return false;
    }
    let mut i: usize = if neg {
        1
    } else {
        0
    };
    while i < n
        invariant
            n == s@.len(),
            n > 0,
            i <= n,
            neg == (s@[0] == '-'),
            neg ==> n > 1 && i >= 1,
            forall|j: int| (if neg {
                1int
            } else {
                0int
            }) <= j < i ==> is_digit(#[trigger] s@[j]),
        decreases n - i,
    {
        let c = s.get_char(i);
        if !((c as u32) >= 48 && (c as u32) <= 57) {
            proof {
                if neg {
                    assert(s@.drop_first()[i - 1] == c);
                } else {
                    assert(!all_digits(s@.drop_first()) || s@[0] != '-');
                }
            }
            return false;
        }
        i = i + 1;
    }
    proof {
        if neg {
            assert forall|j: int| 0 <= j < s@.drop_first().len() implies is_digit(#[trigger] s@.drop_first()[j]) by {
                assert(s@.drop_first()[j] == s@[j + 1]);
            }
        }
    }
    true
}

/// Parses the expression that starts at `pos` (not a blank); returns it and the
/// position just past it.
fn parse_expr(src: &str, n: usize, pos: usize, line: usize) -> (r: Result<(ExprAst, usize), Error>)
    requires
        n == src@.len(),
        pos < n,
        line == line_of(src@, pos as int),
        n < usize::MAX,
        !is_space(src@[pos as int]),
        src@[pos as int] != ';',
    ensures
        r matches Ok((ast, end)) ==> spans(src@, ast) && ast.span().start == pos && ast.span().end == end,
        r matches Err(e) ==> e is ParseError && nothing_at(src@, pos as int),
    decreases n - pos,
{
    proof {
        reveal(spans);
    }
    let c = src.get_char(pos);
    if c == ')' {
        proof {
            lemma_nothing_at_close(src@, pos as int);
        }
        return Err(parse_error("Unexpected ')'"));
    }
    if c == '"' {
        let mut e = pos + 1;
        let mut content = String::new();
        while e < n && src.get_char(e) != '"'
            invariant
                n == src@.len(),
                pos < e <= n,
                src@[pos as int] == '"',
                scan_string(src@, pos + 1) == match scan_string(src@, e as int) {
                    Some((t, x)) => Some((content@ + t, x)),
                    None => None,
                },
            decreases n - e,
        {
            let ch = src.get_char(e);
            if ch == '\\' {
                if e + 1 >= n {
                    proof {
                        lemma_nothing_at_open_string(src@, pos as int);
                    }
                    return Err(parse_error("Unterminated string literal"));
                }
                let next = src.get_char(e + 1);
                let piece: &str = if next == 'n' {
                    "\n"
                } else if next == 't' {
                    "\t"
                } else {
                    src.substring_char(e + 1, e + 2)
                };
                proof {
                    reveal_strlit("\n");
                    reveal_strlit("\t");
                    assert(piece@ =~= seq![escaped(next)]);
                    assert(scan_string(src@, e as int) == match scan_string(src@, e + 2) {
                        Some((t, x)) => Some((seq![escaped(next)] + t, x)),
                        None => None,
                    });
                    match scan_string(src@, e + 2) {
                        Some((t, x)) => {
                            assert(content@ + (seq![escaped(next)] + t) =~= (content@ + piece@) + t);
                        },
                        None => {},
                    }
                }
                content.append(piece);
                e = e + 2;
            } else {
                let piece = src.substring_char(e, e + 1);
                proof {
                    assert(piece@ =~= seq![ch]);
                    match scan_string(src@, e + 1) {
                        Some((t, x)) => {
                            assert(content@ + (seq![ch] + t) =~= (content@ + piece@) + t);
                        },
                        None => {},
                    }
                }
                content.append(piece);
                e = e + 1;
            }
        }
        if e >= n {
            proof {
                lemma_nothing_at_open_string(src@, pos as int);
            }
            return Err(parse_error("Unterminated string literal"));
        }
        let text = String::from_str(src.substring_char(pos, e + 1));
        assert(content@ + Seq::<char>::empty() =~= content@);
        return Ok((ExprAst::String(content, SourceSpan { line, text, start: pos, end: e + 1 }), e + 1));
    }
    if c == '(' {
        let mut items: Vec<ExprAst> = Vec::new();
        let mut p = pos + 1;
        let mut l = line;
        proof {
            lemma_line_step(src@, pos as int);
        }
        loop
            invariant
                n == src@.len(),
                pos < p <= n,
                l == line_of(src@, p as int),
                line == line_of(src@, pos as int),
                n < usize::MAX,
                src@[pos as int] == '(',
                starts_ok(src@, items@, pos + 1),
                p == end_before(items@, items@.len() as int, pos + 1),
                forall|j: int| 0 <= j < items@.len() ==> spans(src@, #[trigger] items@[j]),
                forall|b: ExprAst|
                    #[trigger] spans(src@, b) && b.span().start == pos ==> b is List && items@.len() <= list_len(b)
                        && end_before(items@, items@.len() as int, pos + 1) == end_before(
                        b->List_0@,
                        items@.len() as int,
                        pos + 1,
                    ),
            decreases n - p,
        {
            proof {
                reveal(spans);
            }
            let (q, lq) = skip_blank(src, n, p, l);
            let ghost j = items@.len() as int;
            if q >= n {
                proof {
                    assert forall|b: ExprAst| #[trigger] spans(src@, b) implies b.span().start != pos by {
                        if b.span().start == pos {
                            lemma_next_item(src@, b->List_0@, pos + 1, b.span().end - 1, j, q as int);
                            assert(spans(src@, b->List_0@[j]));
                        }
                    }
                }
                return Err(parse_error("Unbalanced parentheses: missing ')'"));
            }
            if src.get_char(q) == ')' {
                let text = String::from_str(src.substring_char(pos, q + 1));
                assert(text@[0] == '(' && text@[text@.len() - 1] == ')');
                let ghost its = items@;
                let ast = ExprAst::List(items, SourceSpan { line, text, start: pos, end: q + 1 });
                proof {
                    assert(ast->List_0@ == its);
                    assert(tiles(src@, its, pos + 1, q as int));
                }
                return Ok((ast, q + 1));
            }
            match parse_expr(src, n, q, lq) {
                Ok((item, e)) => {
                    let ghost before = items@;
                    items.push(item);
                    proof {
                        assert forall|b: ExprAst|
                            #[trigger] spans(src@, b) && b.span().start == pos implies b is List && items@.len()
                            <= list_len(b) && end_before(items@, items@.len() as int, pos + 1) == end_before(
                            b->List_0@,
                            items@.len() as int,
                            pos + 1,
                        ) by {
                            lemma_next_item(src@, b->List_0@, pos + 1, b.span().end - 1, j, q as int);
                            assert(spans(src@, b->List_0@[j]));
                            lemma_span_unique(src@, item, b->List_0@[j]);
                        }
                        assert forall|j: int| 0 <= j < items@.len() implies (#[trigger] items@[j]).span().start
                            == skip_spec(src@, end_before(items@, j, pos + 1), false) by {
                            if j < before.len() {
                                assert(items@[j] == before[j]);
                                assert(end_before(items@, j, pos + 1) == end_before(before, j, pos + 1));
                            }
                        }
                        assert forall|j: int| 0 <= j < items@.len() implies spans(src@, #[trigger] items@[j]) by {
                            if j < before.len() {
                                assert(items@[j] == before[j]);
                            }
                        }
                    }
                    let mut ll = lq;
                    let mut t = q;
                    while t < e
                        invariant
                            n == src@.len(),
                            q <= t <= e <= n,
                            n < usize::MAX,
                            ll == line_of(src@, t as int),
                        decreases e - t,
                    {
                        proof {
                            lemma_line_step(src@, t as int);
                            lemma_line_bound(src@, t as int);
                        }
                        if src.get_char(t) == '\n' {
                            ll = ll + 1;
                        }
                        t = t + 1;
                    }
                    p = e;
                    l = ll;
                },
                Err(err) => {
                    proof {
                        assert forall|b: ExprAst| #[trigger] spans(src@, b) implies b.span().start != pos by {
                            if b.span().start == pos {
                                lemma_next_item(src@, b->List_0@, pos + 1, b.span().end - 1, j, q as int);
                                assert(spans(src@, b->List_0@[j]));
                            }
                        }
                    }
                    return Err(err);
                },
            }
        }
    }
    let e = token_end(src, n, pos);
    assert(!is_delim(c));
    let word = src.substring_char(pos, e);
    let text = String::from_str(word);
    if text_is_numeral(word) {
        match numeral(word) {
            Some(v) => Ok((ExprAst::Number(v, SourceSpan { line, text, start: pos, end: e }), e)),
            None => {
                proof {
                    lemma_nothing_at_big_number(src@, pos as int, e as int);
                }
                Err(parse_error("Failed to parse number: out of range for a 64-bit integer"))
            },
        }
    } else {
        Ok((ExprAst::Symbol(String::from_str(word), SourceSpan { line, text, start: pos, end: e }), e))
    }
}

/// The parser of the expression language.
pub struct ExprParser;

impl ExprParser {
    /// Parses a source text into its top-level expressions, in order.
    pub fn parse(source: &str) -> (r: Result<Vec<ExprAst>, Error>)
        ensures
            r matches Ok(v) ==> parsed(source@, v@),
            r matches Err(e) ==> e is ParseError,
            source@.len() < usize::MAX && (exists|v: Seq<ExprAst>| parsed(source@, v)) ==> r is Ok,
    {
        let n = source.unicode_len();
        if n == usize::MAX {
            return Err(parse_error("Source too large"));
        }
        let mut roots: Vec<ExprAst> = Vec::new();
        let mut p: usize = 0;
        let mut l: usize = 1;
        loop
            invariant
                n == source@.len(),
                n < usize::MAX,
                p <= n,
                l == line_of(source@, p as int),
                starts_ok(source@, roots@, 0),
                p == end_before(roots@, roots@.len() as int, 0),
                forall|k: int| 0 <= k < roots@.len() ==> spans(source@, #[trigger] roots@[k]),
                forall|v: Seq<ExprAst>|
                    #[trigger] parsed(source@, v) ==> roots@.len() <= v.len() && end_before(
                        roots@,
                        roots@.len() as int,
                        0,
                    ) == end_before(v, roots@.len() as int, 0),
            decreases n - p,
        {
            proof {
                reveal(spans);
            }
            let (q, lq) = skip_blank(source, n, p, l);
            let ghost j = roots@.len() as int;
            if q >= n {
                return Ok(roots);
            }
            match parse_expr(source, n, q, lq) {
                Ok((item, e)) => {
                    let ghost before = roots@;
                    roots.push(item);
                    proof {
                        assert forall|v: Seq<ExprAst>| #[trigger] parsed(source@, v) implies roots@.len() <= v.len()
                            && end_before(roots@, roots@.len() as int, 0) == end_before(v, roots@.len() as int, 0) by {
                            lemma_next_item(source@, v, 0, n as int, j, q as int);
                            assert(spans(source@, v[j]));
                            lemma_span_unique(source@, item, v[j]);
                        }
                        assert forall|j: int| 0 <= j < roots@.len() implies (#[trigger] roots@[j]).span().start
                            == skip_spec(source@, end_before(roots@, j, 0), false) by {
                            if j < before.len() {
                                assert(roots@[j] == before[j]);
                                assert(end_before(roots@, j, 0) == end_before(before, j, 0));
                            }
                        }
                        assert forall|j: int| 0 <= j < roots@.len() implies spans(source@, #[trigger] roots@[j]) by {
                            if j < before.len() {
                                assert(roots@[j] == before[j]);
                            }
                        }
                    }
                    let mut ll = lq;
                    let mut t = q;
                    while t < e
                        invariant
                            n == source@.len(),
                            q <= t <= e <= n,
                            n < usize::MAX,
                            ll == line_of(source@, t as int),
                        decreases e - t,
                    {
                        proof {
                            lemma_line_step(source@, t as int);
                            lemma_line_bound(source@, t as int);
                        }
                        if source.get_char(t) == '\n' {
                            ll = ll + 1;
                        }
                        t = t + 1;
                    }
                    p = e;
                    l = ll;
                },
                Err(err) => {
                    proof {
                        assert forall|v: Seq<ExprAst>| #[trigger] parsed(source@, v) implies false by {
                            lemma_next_item(source@, v, 0, n as int, j, q as int);
                            assert(spans(source@, v[j]));
                        }
                    }
                    return Err(err);
                },
            }
        }
    }
}

/// Parses a source text into its top-level expressions.
pub fn parse(source: &str) -> (r: Result<Vec<ExprAst>, Error>)
    ensures
        r matches Ok(v) ==> parsed(source@, v@),
        r matches Err(e) ==> e is ParseError,
        source@.len() < usize::MAX && (exists|v: Seq<ExprAst>| parsed(source@, v)) ==> r is Ok,
{
    ExprParser::parse(source)
}

} // verus!
