//! What the library writes, it reads back: the tokens of a written expression,
//! statement or file are those that spell it.

#[allow(unused_imports)]
use crate::grammar;
#[allow(unused_imports)]
use crate::lexer;
#[allow(unused_imports)]
use crate::lexer_laws;
#[allow(unused_imports)]
use crate::number::NumberModel;
#[allow(unused_imports)]
use crate::render;
#[allow(unused_imports)]
use crate::spelling;
#[allow(unused_imports)]
use crate::text;
#[allow(unused_imports)]
use crate::token::SpecToken;
use vstd::prelude::*;

pub mod files;
pub mod marks;
pub mod saved;
pub mod trees;

verus! {

// ---- places in a text ---------------------------------------------------

/// The text `t` stands in `s` at `p`.
#[verifier::opaque]
pub open spec fn at(s: Seq<char>, p: int, t: Seq<char>) -> bool {
    &&& 0 <= p
    &&& p + t.len() <= s.len()
    &&& forall|i: int| 0 <= i < t.len() ==> #[trigger] s[p + i] == t[i]
}

pub(crate) proof fn at_split(s: Seq<char>, p: int, a: Seq<char>, b: Seq<char>)
    requires
        at(s, p, a + b),
    ensures
        at(s, p, a),
        at(s, p + a.len(), b),
        0 <= p,
        p + a.len() + b.len() <= s.len(),
{
    reveal(at);
    let all = a + b;
    assert forall|i: int| 0 <= i < a.len() implies #[trigger] s[p + i] == a[i] by {
        assert(all[i] == a[i]);
    }
    assert forall|i: int| 0 <= i < b.len() implies #[trigger] s[p + a.len() + i] == b[i] by {
        assert(all[a.len() + i] == b[i]);
        assert(s[p + (a.len() + i)] == all[a.len() + i]);
    }
}

pub(crate) proof fn at_char(s: Seq<char>, p: int, t: Seq<char>, i: int)
    requires
        at(s, p, t),
        0 <= i < t.len(),
    ensures
        0 <= p + i < s.len(),
        s[p + i] == t[i],
{
    reveal(at);
}

pub(crate) proof fn at_chars(s: Seq<char>, p: int, t: Seq<char>)
    requires
        at(s, p, t),
    ensures
        0 <= p,
        p + t.len() <= s.len(),
        forall|q: int| p <= q < p + t.len() ==> #[trigger] s[q] == t[q - p],
{
    reveal(at);
    assert forall|q: int| p <= q < p + t.len() implies #[trigger] s[q] == t[q - p] by {
        assert(s[p + (q - p)] == t[q - p]);
    }
}

pub(crate) proof fn at_bounds(s: Seq<char>, p: int, t: Seq<char>)
    requires
        at(s, p, t),
    ensures
        0 <= p,
        p + t.len() <= s.len(),
        s.subrange(p, p + t.len()) == t,
{
    reveal(at);
    let piece = s.subrange(p, p + t.len());
    assert forall|i: int| 0 <= i < t.len() implies piece[i] == #[trigger] t[i] by {
        assert(s[p + i] == t[i]);
    }
    assert(piece =~= t);
}

/// A token that ends at `q` ends there whatever it is: what comes next
/// continues no name and no number, and makes no `=` part of a symbol.
pub open spec fn calm(s: Seq<char>, q: int) -> bool {
    q < s.len() ==> {
        &&& !lexer::ident_continue(s[q])
        &&& s[q] != '='
        &&& s[q] == '.' && q + 1 < s.len() ==> !lexer::is_digit(s[q + 1])
    }
}

// ---- what is read between two places --------------------------------------

/// The lexer reads the tokens `xs` on its way from `p` to `q`.
#[verifier::opaque]
pub open spec fn reads(m: NumberModel, s: Seq<char>, p: int, xs: Seq<SpecToken>, q: int) -> bool {
    lexer::tokens_from(m, s, q) is Ok ==> {
        &&& lexer::tokens_from(m, s, p) is Ok
        &&& lexer_laws::kinds(lexer::tokens_from(m, s, p)->Ok_0) == xs + lexer_laws::kinds(
            lexer::tokens_from(m, s, q)->Ok_0,
        )
    }
}

pub(crate) proof fn join(
    m: NumberModel,
    s: Seq<char>,
    p: int,
    xs: Seq<SpecToken>,
    q: int,
    ys: Seq<SpecToken>,
    r: int,
)
    requires
        reads(m, s, p, xs, q),
        reads(m, s, q, ys, r),
    ensures
        reads(m, s, p, xs + ys, r),
{
    reveal(reads);
    if lexer::tokens_from(m, s, r) is Ok {
        let rest = lexer_laws::kinds(lexer::tokens_from(m, s, r)->Ok_0);
        assert(xs + (ys + rest) =~= xs + ys + rest);
    }
}

pub(crate) proof fn read_nothing(m: NumberModel, s: Seq<char>, p: int)
    ensures
        reads(m, s, p, Seq::empty(), p),
{
    reveal(reads);
    if lexer::tokens_from(m, s, p) is Ok {
        let rest = lexer_laws::kinds(lexer::tokens_from(m, s, p)->Ok_0);
        assert(Seq::<SpecToken>::empty() + rest =~= rest);
    }
}

/// Nothing is read before `p`.
pub(crate) proof fn join_left(m: NumberModel, s: Seq<char>, p: int, q: int, ys: Seq<SpecToken>, r: int)
    requires
        reads(m, s, p, Seq::empty(), q),
        reads(m, s, q, ys, r),
    ensures
        reads(m, s, p, ys, r),
{
    join(m, s, p, Seq::empty(), q, ys, r);
    assert(Seq::<SpecToken>::empty() + ys =~= ys);
}

pub(crate) proof fn join_right(m: NumberModel, s: Seq<char>, p: int, xs: Seq<SpecToken>, q: int, r: int)
    requires
        reads(m, s, p, xs, q),
        reads(m, s, q, Seq::empty(), r),
    ensures
        reads(m, s, p, xs, r),
{
    join(m, s, p, xs, q, Seq::empty(), r);
    assert(xs + Seq::<SpecToken>::empty() =~= xs);
}

/// Where the lexer skips from `p` to what it skips to from `q`, nothing is read
/// in between.
proof fn read_skip(m: NumberModel, s: Seq<char>, p: int, q: int)
    requires
        0 <= p <= q <= s.len(),
        lexer::skip(s, p) == lexer::skip(s, q),
    ensures
        reads(m, s, p, Seq::empty(), q),
{
    lexer_laws::law_skips_blanks_and_comments(s, q);
    assert(lexer::tokens_from(m, s, p) == lexer::tokens_from(m, s, q));
    read_nothing(m, s, q);
    reveal(reads);
}

pub(crate) proof fn read_blank(m: NumberModel, s: Seq<char>, p: int)
    requires
        0 <= p < s.len(),
        lexer::is_blank(s[p]),
    ensures
        reads(m, s, p, Seq::empty(), p + 1),
{
    read_skip(m, s, p, p + 1);
}

pub(crate) proof fn read_comment(m: NumberModel, s: Seq<char>, p: int, q: int)
    requires
        0 <= p < q < s.len(),
        s[p] == '#',
        forall|i: int| p <= i < q ==> #[trigger] s[i] != '\n',
        s[q] == '\n',
    ensures
        reads(m, s, p, Seq::empty(), q + 1),
{
    let f = |c: char| c != '\n';
    lexer_laws::lemma_run_end(s, p, q, f);
    assert(lexer::skip(s, p) == lexer::skip(s, q));
    read_skip(m, s, p, q + 1);
}

/// One token is read where one starts.
pub(crate) proof fn read_token(m: NumberModel, s: Seq<char>, p: int, t: SpecToken, q: int)
    requires
        0 <= p < q <= s.len(),
        !lexer::is_blank(s[p]),
        s[p] != '#',
        lexer::token_at(m, s, p) is Ok,
        lexer::token_at(m, s, p)->Ok_0 == (t, q),
    ensures
        reads(m, s, p, seq![t], q),
{
    reveal(reads);
    assert(lexer::skip(s, p) == p);
    if lexer::tokens_from(m, s, q) is Ok {
        let rest = lexer::tokens_from(m, s, q)->Ok_0;
        let all = seq![lexer::spanned(s, p, t)] + rest;
        assert(lexer_laws::kinds(all) =~= seq![t] + lexer_laws::kinds(rest));
    }
}

/// A symbol of one character.
pub(crate) proof fn read_symbol(m: NumberModel, s: Seq<char>, p: int, t: SpecToken)
    requires
        0 <= p < s.len(),
        lexer::symbol(s, p) == Some((t, p + 1)),
    ensures
        reads(m, s, p, seq![t], p + 1),
{
    read_token(m, s, p, t, p + 1);
}

// ---- names --------------------------------------------------------------

/// Whether `t` is written as the lexer reads a name.
pub open spec fn is_name(t: Seq<char>) -> bool {
    &&& t.len() > 0
    &&& lexer::ident_start(t[0])
    &&& forall|i: int| 0 <= i < t.len() ==> lexer::ident_continue(#[trigger] t[i])
}

pub(crate) proof fn read_name(m: NumberModel, s: Seq<char>, p: int, t: Seq<char>)
    requires
        at(s, p, t),
        is_name(t),
        p + t.len() < s.len() ==> !lexer::ident_continue(s[p + t.len()]),
    ensures
        reads(m, s, p, seq![SpecToken::Ident(t)], p + t.len()),
{
    at_bounds(s, p, t);
    at_char(s, p, t, 0);
    let q = p + t.len();
    let f = |c: char| lexer::ident_continue(c);
    assert forall|i: int| p <= i < q implies f(#[trigger] s[i]) by {
        at_char(s, p, t, i - p);
        assert(s[i] == t[i - p]);
    }
    lexer_laws::lemma_run_end(s, p, q, f);
    assert(lexer::ident(s, p) == (SpecToken::Ident(t), q));
    read_token(m, s, p, SpecToken::Ident(t), q);
}

/// A text that stands in a text that stands in `s` stands in `s`.
pub(crate) proof fn at_part(s: Seq<char>, p: int, t: Seq<char>, i: int, w: Seq<char>)
    requires
        at(s, p, t),
        0 <= i,
        i + w.len() <= t.len(),
        forall|k: int| 0 <= k < w.len() ==> #[trigger] w[k] == t[i + k],
    ensures
        at(s, p + i, w),
{
    reveal(at);
    assert forall|k: int| 0 <= k < w.len() implies #[trigger] s[p + i + k] == w[k] by {
        assert(s[p + (i + k)] == t[i + k]);
    }
}

// ---- numbers and strings ------------------------------------------------

/// Whether a text stands on one line.
pub open spec fn flat(t: Seq<char>) -> bool {
    forall|i: int| 0 <= i < t.len() ==> #[trigger] t[i] != '\n'
}

/// Where a number stands, it is read as it is on its own.
pub(crate) proof fn read_number(m: NumberModel, s: Seq<char>, p: int, t: Seq<char>, x: SpecToken)
    requires
        at(s, p, t),
        t.len() > 0,
        lexer::is_digit(t[0]),
        lexer::number(m, t, 0) is Ok,
        lexer::number(m, t, 0)->Ok_0 == (x, t.len() as int),
        calm(s, p + t.len()),
    ensures
        reads(m, s, p, seq![x], p + t.len()),
{
    let f = |c: char| lexer::is_digit(c);
    let q = p + t.len();
    at_bounds(s, p, t);
    at_char(s, p, t, 0);
    lexer_laws::lemma_run_bounds(t, 0, f);
    let whole = lexer::run_end(t, 0, f);
    assert forall|i: int| p <= i < p + whole implies f(#[trigger] s[i]) by {
        at_char(s, p, t, i - p);
        assert(f(t[i - p]));
    }
    if whole < t.len() {
        at_char(s, p, t, whole);
        lexer_laws::lemma_run_end(s, p, p + whole, f);
        lexer_laws::lemma_run_bounds(t, whole + 1, f);
        at_char(s, p, t, whole + 1);
        assert forall|i: int| p + whole + 1 <= i < q implies f(#[trigger] s[i]) by {
            at_char(s, p, t, i - p);
            assert(f(t[i - p]));
        }
        lexer_laws::lemma_run_end(s, p + whole + 1, q, f);
        assert(t.subrange(0, t.len() as int) =~= t);
    } else {
        lexer_laws::lemma_run_end(s, p, q, f);
        assert(t.subrange(0, t.len() as int) =~= t);
    }
    assert(lexer::number(m, s, p) is Ok);
    assert(lexer::number(m, s, p)->Ok_0 == (x, q));
    read_token(m, s, p, x, q);
}

/// A numeral is read as the number that it stands for.
pub(crate) proof fn lemma_decimal(n: nat)
    ensures
        text::decimal(n).len() > 0,
        forall|i: int|
            0 <= i < text::decimal(n).len() ==> lexer::is_digit(#[trigger] text::decimal(n)[i]),
        lexer::digits_value(text::decimal(n)) == n,
    decreases n,
{
    let t = text::decimal(n);
    if n >= 10 {
        lemma_decimal(n / 10);
        assert(t.drop_last() =~= text::decimal(n / 10));
        assert forall|i: int| 0 <= i < t.len() implies lexer::is_digit(#[trigger] t[i]) by {
            if i < t.len() - 1 {
                assert(t[i] == text::decimal(n / 10)[i]);
            }
        }
    } else {
        assert(t.drop_last() =~= Seq::<char>::empty());
        assert(lexer::digits_value(t.drop_last()) == 0);
    }
}

pub(crate) proof fn lemma_numeral(m: NumberModel, n: nat)
    requires
        n <= i64::MAX,
    ensures
        text::decimal(n).len() > 0,
        lexer::is_digit(text::decimal(n)[0]),
        lexer::number(m, text::decimal(n), 0) is Ok,
        lexer::number(m, text::decimal(n), 0)->Ok_0 == (
            SpecToken::Int(n as i64),
            text::decimal(n).len() as int,
        ),
{
    let t = text::decimal(n);
    let f = |c: char| lexer::is_digit(c);
    lemma_decimal(n);
    assert forall|i: int| 0 <= i < t.len() implies f(#[trigger] t[i]) by {
        assert(lexer::is_digit(t[i]));
    }
    lexer_laws::lemma_run_end(t, 0, t.len() as int, f);
    assert(t.subrange(0, t.len() as int) =~= t);
}

pub(crate) proof fn read_str(m: NumberModel, s: Seq<char>, p: int, v: Seq<char>)
    requires
        at(s, p, render::literal(v)),
    ensures
        reads(m, s, p, seq![SpecToken::Str(v)], p + render::literal(v).len()),
{
    let t = render::literal(v);
    at_bounds(s, p, t);
    assert forall|i: int| 0 <= i < t.len() implies s[p + i] == #[trigger] t[i] by {
        at_char(s, p, t, i);
    }
    lexer_laws::read_literal(s, p, v);
    read_token(m, s, p, SpecToken::Str(v), p + t.len());
}

// ---- all of a text ---------------------------------------------------

/// The tokens of a text of which all is read.
pub(crate) proof fn lemma_whole(m: NumberModel, s: Seq<char>, xs: Seq<SpecToken>)
    requires
        reads(m, s, 0, xs, s.len() as int),
    ensures
        lexer::tokens_of(m, s) is Ok,
        ({
            let ts = lexer::tokens_of(m, s)->Ok_0;
            &&& ts.len() == xs.len() + 1
            &&& spelling::stands(ts, 0, xs)
            &&& grammar::peek(ts, xs.len() as int) == SpecToken::Eof
        }),
{
    reveal(reads);
    reveal(spelling::stands);
    let n = s.len() as int;
    let ts = lexer::tokens_of(m, s)->Ok_0;
    let end = lexer::tokens_from(m, s, n)->Ok_0;
    assert(lexer::skip(s, n) == n);
    assert(end == seq![lexer::spanned(s, n, SpecToken::Eof)]);
    assert(lexer_laws::kinds(ts) == xs + lexer_laws::kinds(end));
    assert(lexer_laws::kinds(ts).len() == ts.len());
    assert(lexer_laws::kinds(end).len() == 1);
    assert forall|i: int| 0 <= i < xs.len() implies (#[trigger] ts[0 + i]).token == xs[i] by {
        assert(lexer_laws::kinds(ts)[i] == ts[i].token);
        assert((xs + lexer_laws::kinds(end))[i] == xs[i]);
    }
    assert(lexer_laws::kinds(ts)[xs.len() as int] == ts[xs.len() as int].token);
    assert((xs + lexer_laws::kinds(end))[xs.len() as int] == lexer_laws::kinds(end)[0]);
    assert(lexer_laws::kinds(end)[0] == SpecToken::Eof);
}

pub(crate) proof fn lemma_at_whole(t: Seq<char>)
    ensures
        at(t, 0, t),
{
    reveal(at);
}

} // verus!
