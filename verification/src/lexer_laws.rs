//! What holds of the lexer on every text: what it skips, which strings a
//! literal stands for, and what texts that are put together read as.

#[allow(unused_imports)]
use crate::lexer::{self, SpecLexError, SpecLexed};
#[allow(unused_imports)]
use crate::number::NumberModel;
#[allow(unused_imports)]
use crate::render;
#[allow(unused_imports)]
use crate::text;
#[allow(unused_imports)]
use crate::token::{SpecSpanned, SpecToken};
use vstd::prelude::*;

verus! {

// ---- runs ---------------------------------------------------------------

pub(crate) proof fn lemma_run_end(s: Seq<char>, p: int, q: int, f: spec_fn(char) -> bool)
    requires
        0 <= p <= q <= s.len(),
        forall|i: int| p <= i < q ==> f(#[trigger] s[i]),
        q < s.len() ==> !f(s[q]),
    ensures
        lexer::run_end(s, p, f) == q,
    decreases q - p,
{
    if p < q {
        lemma_run_end(s, p + 1, q, f);
    }
}

pub(crate) proof fn lemma_run_bounds(s: Seq<char>, p: int, f: spec_fn(char) -> bool)
    requires
        0 <= p <= s.len(),
    ensures
        p <= lexer::run_end(s, p, f) <= s.len(),
        forall|i: int| p <= i < lexer::run_end(s, p, f) ==> f(#[trigger] s[i]),
        lexer::run_end(s, p, f) < s.len() ==> !f(s[lexer::run_end(s, p, f)]),
    decreases s.len() - p,
{
    if p < s.len() && f(s[p]) {
        lemma_run_bounds(s, p + 1, f);
    }
}

// ---- what is skipped ------------------------------------------------------

/// The end of the comment that starts at `p`.
pub open spec fn comment_end(s: Seq<char>, p: int) -> int {
    lexer::run_end(s, p, |c: char| c != '\n')
}

/// Whether nothing but white space and whole comments stands from `p` to `q`. A
/// comment starts with `#` and ends before the next newline, or with the text.
pub open spec fn gap(s: Seq<char>, p: int, q: int) -> bool
    decreases q - p,
{
    p == q || (0 <= p < q <= s.len() && if lexer::is_blank(s[p]) {
        gap(s, p + 1, q)
    } else {
        s[p] == '#' && p < comment_end(s, p) <= q && gap(s, comment_end(s, p), q)
    })
}

/// Whether neither white space nor a comment stands at `p`.
pub open spec fn starts_token(s: Seq<char>, p: int) -> bool {
    !lexer::is_blank(s[p]) && s[p] != '#'
}

/// What the lexer skips is white space and comments, and all of it: it stops at
/// the end of the text or at a character that is neither, and from there it
/// skips nothing.
pub proof fn law_skips_blanks_and_comments(s: Seq<char>, p: int)
    requires
        0 <= p <= s.len(),
    ensures
        p <= lexer::skip(s, p) <= s.len(),
        gap(s, p, lexer::skip(s, p)),
        lexer::skip(s, p) < s.len() ==> starts_token(s, lexer::skip(s, p)),
        lexer::skip(s, lexer::skip(s, p)) == lexer::skip(s, p),
    decreases s.len() - p,
{
    if p < s.len() {
        if lexer::is_blank(s[p]) {
            law_skips_blanks_and_comments(s, p + 1);
        } else if s[p] == '#' {
            let f = |c: char| c != '\n';
            assert(f(s[p]));
            lemma_run_bounds(s, p, f);
            assert(lexer::run_end(s, p, f) == lexer::run_end(s, p + 1, f));
            lemma_run_bounds(s, p + 1, f);
            law_skips_blanks_and_comments(s, comment_end(s, p));
        }
    }
}

/// There is one way to skip: where white space and comments stand from `p` to
/// `q` and a token or the end of the text at `q`, the lexer skips to `q`.
pub proof fn law_skips_to_the_token(s: Seq<char>, p: int, q: int)
    requires
        0 <= p <= q <= s.len(),
        gap(s, p, q),
        q < s.len() ==> starts_token(s, q),
    ensures
        lexer::skip(s, p) == q,
    decreases q - p,
{
    if p < q {
        if lexer::is_blank(s[p]) {
            law_skips_to_the_token(s, p + 1, q);
        } else {
            law_skips_to_the_token(s, comment_end(s, p), q);
        }
    }
}

/// Places further on in a text come later: in a later line, or in the same line
/// and a later column.
pub proof fn law_positions_grow(s: Seq<char>, p: int, q: int)
    requires
        0 <= p < q,
    ensures
        lexer::line_at(s, p) <= lexer::line_at(s, q),
        lexer::line_at(s, p) == lexer::line_at(s, q) ==> lexer::col_at(s, p) < lexer::col_at(s, q),
    decreases q,
{
    if p < q - 1 {
        law_positions_grow(s, p, q - 1);
    }
}

/// The line of a place is one more than the number of newlines before it.
pub proof fn law_lines_are_counted(s: Seq<char>, p: int)
    requires
        0 <= p <= s.len(),
    ensures
        lexer::line_at(s, p) == 1 + s.take(p).filter(|c: char| c == '\n').len(),
    decreases p,
{
    reveal(Seq::filter);
    if p > 0 {
        law_lines_are_counted(s, p - 1);
        assert(s.take(p).drop_last() =~= s.take(p - 1));
    }
}

/// The column of a place is counted from the last newline before it, or from the
/// start of the text where there is none.
pub proof fn law_columns_are_counted(s: Seq<char>, p: int)
    requires
        0 <= p <= s.len(),
    ensures
        1 <= lexer::col_at(s, p) <= p + 1,
        forall|i: int| p - lexer::col_at(s, p) < i < p ==> #[trigger] s[i] != '\n',
        lexer::col_at(s, p) <= p ==> s[p - lexer::col_at(s, p)] == '\n',
    decreases p,
{
    if p > 0 && s[p - 1] != '\n' {
        law_columns_are_counted(s, p - 1);
    }
}

/// What is skipped between tokens starts with a space, a tab, a carriage return, a
/// newline or a `#`, and a blank is as good as none.
pub proof fn law_what_is_skipped(s: Seq<char>, p: int)
    requires
        0 <= p < s.len(),
    ensures
        lexer::skip(s, p) > p <==> s[p] == ' ' || s[p] == '\t' || s[p] == '\r' || s[p] == '\n'
            || s[p] == '#',
        lexer::skip(s, p) > p && s[p] != '#' ==> lexer::skip(s, p) == lexer::skip(s, p + 1),
{
    law_skips_blanks_and_comments(s, p);
    law_skips_blanks_and_comments(s, p + 1);
    if s[p] == '#' {
        let f = |c: char| c != '\n';
        assert(f(s[p]));
        lemma_run_bounds(s, p, f);
        lemma_run_bounds(s, p + 1, f);
        let end = lexer::run_end(s, p, f);
        law_skips_blanks_and_comments(s, end);
    }
}

/// Once the lexer is at the end of a text it stays there: where nothing but
/// white space and comments is left, the end of input is read, and from where
/// it stands the same end of input is read again.
pub proof fn law_the_end_is_read_again(m: NumberModel, s: Seq<char>, p: int)
    requires
        0 <= p <= s.len(),
        lexer::skip(s, p) >= s.len(),
    ensures
        lexer::skip(s, p) == s.len(),
        lexer::skip(s, lexer::skip(s, p)) == lexer::skip(s, p),
        lexer::tokens_from(m, s, p) == Ok::<Seq<SpecSpanned>, SpecLexError>(
            seq![lexer::spanned(s, lexer::skip(s, p), SpecToken::Eof)],
        ),
        lexer::tokens_from(m, s, lexer::skip(s, p)) == lexer::tokens_from(m, s, p),
{
    law_skips_blanks_and_comments(s, p);
}

// ---- string literals --------------------------------------------------------

/// Whether `t` stands for the character `c` in a string literal.
pub open spec fn spells(t: Seq<char>, c: char) -> bool {
    ||| t == seq![c] && c != '"' && c != '\\'
    ||| t.len() == 2 && t[0] == '\\' && lexer::escape(t[1]) == Some(c)
}

/// The first `n` texts, one after the other.
pub open spec fn joined(ts: Seq<Seq<char>>, n: int) -> Seq<char>
    decreases n,
{
    if n <= 0 || n > ts.len() {
        Seq::empty()
    } else {
        joined(ts, n - 1) + ts[n - 1]
    }
}

proof fn lemma_joined(ts: Seq<Seq<char>>, k: int, n: int)
    requires
        0 <= k < n <= ts.len(),
    ensures
        joined(ts, k).len() + ts[k].len() <= joined(ts, n).len(),
        forall|i: int|
            0 <= i < ts[k].len() ==> #[trigger] ts[k][i] == joined(ts, n)[joined(ts, k).len() + i],
    decreases n,
{
    if k < n - 1 {
        lemma_joined(ts, k, n - 1);
        assert forall|i: int| 0 <= i < ts[k].len() implies #[trigger] ts[k][i] == joined(ts, n)[joined(
            ts,
            k,
        ).len() + i] by {
            assert(ts[k][i] == joined(ts, n - 1)[joined(ts, k).len() + i]);
        }
    }
}

/// What stands between two quotes is read character by character.
proof fn read_pieces(s: Seq<char>, open: int, ts: Seq<Seq<char>>, v: Seq<char>, k: int)
    requires
        0 <= open,
        0 <= k <= v.len(),
        ts.len() == v.len(),
        forall|i: int| 0 <= i < ts.len() ==> spells(#[trigger] ts[i], v[i]),
        open + 1 + joined(ts, v.len() as int).len() < s.len(),
        forall|i: int|
            0 <= i < joined(ts, v.len() as int).len() ==> s[open + 1 + i] == #[trigger] joined(
                ts,
                v.len() as int,
            )[i],
        s[open + 1 + joined(ts, v.len() as int).len()] == '"',
    ensures
        lexer::string_rest(s, open, open + 1 + joined(ts, k).len(), v.take(k)) == SpecLexed::Ok(
            (SpecToken::Str(v), open + 2 + joined(ts, v.len() as int).len()),
        ),
    decreases v.len() - k,
{
    let n = v.len() as int;
    let pos = open + 1 + joined(ts, k).len();
    if k < n {
        lemma_joined(ts, k, n);
        assert(spells(ts[k], v[k]));
        assert(v.take(k).push(v[k]) =~= v.take(k + 1));
        let all = joined(ts, n);
        let m = joined(ts, k).len() as int;
        assert(ts[k][0] == all[m + 0]);
        assert(s[open + 1 + m] == all[m]);
        if ts[k].len() == 2 {
            assert(ts[k][1] == all[m + 1]);
            assert(s[open + 1 + (m + 1)] == all[m + 1]);
        }
        read_pieces(s, open, ts, v, k + 1);
    } else {
        assert(v.take(n) =~= v);
    }
}

/// A string literal reads back: what stands between two quotes is the string
/// whose characters it spells, and the literal ends after the second quote,
/// whatever comes next.
pub proof fn law_literals_stand_for_strings(
    m: NumberModel,
    ts: Seq<Seq<char>>,
    v: Seq<char>,
    rest: Seq<char>,
)
    requires
        ts.len() == v.len(),
        forall|i: int| 0 <= i < ts.len() ==> spells(#[trigger] ts[i], v[i]),
    ensures
        ({
            let t = seq!['"'] + joined(ts, v.len() as int) + seq!['"'];
            lexer::token_at(m, t + rest, 0) == SpecLexed::Ok((SpecToken::Str(v), t.len() as int))
        }),
{
    let all = joined(ts, v.len() as int);
    let t = seq!['"'] + all + seq!['"'];
    let s = t + rest;
    assert(s[0] == '"');
    assert(s[1 + all.len() as int] == '"');
    assert forall|i: int| 0 <= i < all.len() implies s[0 + 1 + i] == #[trigger] all[i] by {
        assert(t[1 + i] == all[i]);
    }
    read_pieces(s, 0, ts, v, 0);
    assert(v.take(0) =~= Seq::<char>::empty());
}

/// Wherever it stands, the literal that is written for a string is read as that
/// string.
pub(crate) proof fn read_literal(s: Seq<char>, p: int, v: Seq<char>)
    requires
        0 <= p,
        p + render::literal(v).len() <= s.len(),
        forall|i: int| 0 <= i < render::literal(v).len() ==> s[p + i] == #[trigger] render::literal(v)[i],
    ensures
        render::literal(v).len() > 1,
        s[p] == '"',
        lexer::string_rest(s, p, p + 1, Seq::empty()) == SpecLexed::Ok(
            (SpecToken::Str(v), p + render::literal(v).len()),
        ),
{
    let t = render::literal(v);
    let ts = Seq::new(v.len(), |i: int| render::literal_char(v[i]));
    let n = v.len() as int;
    lemma_literal_pieces(v, n);
    let all = joined(ts, n);
    reveal_strlit("\"");
    assert(t =~= seq!['"'] + all + seq!['"']);
    assert(s[p + 0] == t[0]);
    assert(s[p + (1 + all.len())] == t[1 + all.len() as int]);
    assert forall|i: int| 0 <= i < all.len() implies s[p + 1 + i] == #[trigger] all[i] by {
        assert(s[p + (1 + i)] == t[1 + i]);
    }
    read_pieces(s, p, ts, v, 0);
    assert(v.take(0) =~= Seq::<char>::empty());
}

proof fn lemma_literal_pieces(v: Seq<char>, n: int)
    requires
        0 <= n <= v.len(),
    ensures
        ({
            let ts = Seq::new(v.len(), |i: int| render::literal_char(v[i]));
            &&& render::literal_chars(v, n) == joined(ts, n)
            &&& forall|i: int| 0 <= i < v.len() ==> spells(#[trigger] ts[i], v[i])
        }),
    decreases n,
{
    let ts = Seq::new(v.len(), |i: int| render::literal_char(v[i]));
    reveal_strlit("\\\"");
    reveal_strlit("\\\\");
    reveal_strlit("\\n");
    reveal_strlit("\\t");
    reveal_strlit("\\r");
    assert forall|i: int| 0 <= i < v.len() implies spells(#[trigger] ts[i], v[i]) by {
        assert(ts[i] == render::literal_char(v[i]));
    }
    if n > 0 {
        lemma_literal_pieces(v, n - 1);
    }
}

/// What is written for a string reads back as that string, whatever comes next.
pub proof fn law_written_strings_read_back(m: NumberModel, v: Seq<char>, rest: Seq<char>)
    ensures
        lexer::token_at(m, render::literal(v) + rest, 0) == SpecLexed::Ok(
            (SpecToken::Str(v), render::literal(v).len() as int),
        ),
{
    read_literal(render::literal(v) + rest, 0, v);
}

/// A character with a backslash before it where it is a quote or a backslash.
pub open spec fn backslashed(c: char) -> Seq<char> {
    if c == '"' || c == '\\' {
        seq!['\\', c]
    } else {
        seq![c]
    }
}

/// A string between quotes, as it is but for its quotes and backslashes.
pub open spec fn between_quotes(v: Seq<char>) -> Seq<char> {
    seq!['"'] + joined(Seq::new(v.len(), |i: int| backslashed(v[i])), v.len() as int) + seq!['"']
}

/// Wherever it stands, a string between quotes is read as that string.
pub(crate) proof fn read_between_quotes(s: Seq<char>, p: int, v: Seq<char>, rest: Seq<char>)
    requires
        0 <= p <= s.len(),
        s.skip(p) == between_quotes(v) + rest,
    ensures
        lexer::string_rest(s, p, p + 1, Seq::empty()) == SpecLexed::Ok(
            (SpecToken::Str(v), s.len() - rest.len()),
        ),
        s.skip(s.len() - rest.len()) == rest,
{
    let t = between_quotes(v);
    let ts = Seq::new(v.len(), |i: int| backslashed(v[i]));
    let all = joined(ts, v.len() as int);
    let here = t + rest;
    assert forall|i: int| 0 <= i < here.len() implies #[trigger] here[i] == s[p + i] by {
        assert(s.skip(p)[i] == s[p + i]);
    }
    assert(here.len() == s.len() - p);
    assert forall|i: int| 0 <= i < ts.len() implies spells(#[trigger] ts[i], v[i]) by {
        assert(ts[i] == backslashed(v[i]));
    }
    assert(here[1 + all.len() as int] == '"');
    assert forall|i: int| 0 <= i < all.len() implies s[p + 1 + i] == #[trigger] all[i] by {
        assert(here[1 + i] == all[i]);
    }
    read_pieces(s, p, ts, v, 0);
    assert(v.take(0) =~= Seq::<char>::empty());
    assert(s.skip(s.len() - rest.len()) =~= rest) by {
        assert forall|i: int| 0 <= i < rest.len() implies s[s.len() - rest.len() + i]
            == #[trigger] rest[i] by {
            assert(here[t.len() + i] == rest[i]);
        }
    }
}

/// It is enough to put a backslash before each quote and backslash of a string:
/// between quotes it reads back as it was, newlines and all, whatever comes
/// next.
pub proof fn law_strings_read_back(m: NumberModel, v: Seq<char>, rest: Seq<char>)
    ensures
        lexer::token_at(m, between_quotes(v) + rest, 0) == SpecLexed::Ok(
            (SpecToken::Str(v), between_quotes(v).len() as int),
        ),
{
    let ts = Seq::new(v.len(), |i: int| backslashed(v[i]));
    assert forall|i: int| 0 <= i < ts.len() implies spells(#[trigger] ts[i], v[i]) by {
        assert(ts[i] == backslashed(v[i]));
    }
    law_literals_stand_for_strings(m, ts, v, rest);
}

/// Where a string literal has no end the lexer has read everything, and the error is
/// at the quote that opens it. Where an escape sequence is not known the lexer stops
/// after it, and the error is there.
pub proof fn law_faults_in_strings(s: Seq<char>, open: int, pos: int, read: Seq<char>)
    requires
        0 <= open < pos <= s.len(),
        lexer::string_rest(s, open, pos, read) is Err,
    ensures
        ({
            let e = lexer::string_rest(s, open, pos, read)->Err_0;
            let end = lexer::string_fault_end(s, pos);
            &&& pos <= end <= s.len()
            &&& ((e.line, e.col) == lexer::place_at(s, open) && end == s.len() && e.message
                == "unterminated string literal"@) || ((e.line, e.col) == lexer::place_at(s, end)
                && end >= 2 && s[end - 2] == '\\' && lexer::escape(s[end - 1]) is None)
        }),
    decreases s.len() - pos,
{
    if pos < s.len() && s[pos] != '"' {
        if s[pos] == '\\' {
            if pos + 1 < s.len() {
                if let Some(c) = lexer::escape(s[pos + 1]) {
                    law_faults_in_strings(s, open, pos + 2, read.push(c));
                }
            }
        } else {
            law_faults_in_strings(s, open, pos + 1, read.push(s[pos]));
        }
    }
}

// ---- texts one after the other -----------------------------------------------

pub(crate) proof fn lemma_string_bounds(s: Seq<char>, open: int, pos: int, read: Seq<char>)
    requires
        0 <= pos,
        lexer::string_rest(s, open, pos, read) is Ok,
    ensures
        pos < lexer::string_rest(s, open, pos, read)->Ok_0.1 <= s.len(),
        lexer::string_rest(s, open, pos, read)->Ok_0.0 is Str,
    decreases s.len() - pos,
{
    if s[pos] == '"' {
    } else if s[pos] == '\\' {
        if let Some(c) = lexer::escape(s[pos + 1]) {
            lemma_string_bounds(s, open, pos + 2, read.push(c));
        }
    } else {
        lemma_string_bounds(s, open, pos + 1, read.push(s[pos]));
    }
}

pub(crate) proof fn lemma_token_bounds(m: NumberModel, s: Seq<char>, p: int)
    requires
        0 <= p < s.len(),
        lexer::token_at(m, s, p) is Ok,
    ensures
        p < lexer::token_at(m, s, p)->Ok_0.1 <= s.len(),
        lexer::token_at(m, s, p)->Ok_0.0 != SpecToken::Eof,
{
    if lexer::symbol(s, p) is None {
        let c = s[p];
        if c == '"' {
            lemma_string_bounds(s, p, p + 1, Seq::empty());
        } else if lexer::is_digit(c) {
            let f = |c: char| lexer::is_digit(c);
            assert(f(c));
            lemma_run_bounds(s, p + 1, f);
            let whole = lexer::run_end(s, p, f);
            assert(whole == lexer::run_end(s, p + 1, f));
            if whole + 1 < s.len() {
                lemma_run_bounds(s, whole + 1, f);
            }
        } else if lexer::ident_start(c) {
            let f = |c: char| lexer::ident_continue(c);
            assert(f(c));
            lemma_run_bounds(s, p + 1, f);
            assert(lexer::run_end(s, p, f) == lexer::run_end(s, p + 1, f));
        }
    }
}

/// Whether `b` is what stands in `s` from `k` on.
pub open spec fn tail(s: Seq<char>, k: int, b: Seq<char>) -> bool {
    &&& 0 <= k
    &&& s.len() == k + b.len()
    &&& forall|i: int| 0 <= i < b.len() ==> s[k + i] == #[trigger] b[i]
}

/// Whether a line starts at `k`.
pub open spec fn starts_line(s: Seq<char>, k: int) -> bool {
    k > 0 && s[k - 1] == '\n'
}

proof fn lemma_tail_positions(s: Seq<char>, k: int, b: Seq<char>, i: int)
    requires
        tail(s, k, b),
        0 <= i <= b.len(),
    ensures
        lexer::line_at(s, k + i) == lexer::line_at(s, k) - 1 + lexer::line_at(b, i),
        starts_line(s, k) ==> lexer::col_at(s, k + i) == lexer::col_at(b, i),
    decreases i,
{
    if i > 0 {
        lemma_tail_positions(s, k, b, i - 1);
        assert(s[k + (i - 1)] == b[i - 1]);
    }
}

proof fn lemma_tail_run(s: Seq<char>, k: int, b: Seq<char>, p: int, f: spec_fn(char) -> bool)
    requires
        tail(s, k, b),
        0 <= p,
    ensures
        lexer::run_end(s, k + p, f) == k + lexer::run_end(b, p, f),
    decreases b.len() - p,
{
    if p < b.len() {
        assert(s[k + p] == b[p]);
        lemma_tail_run(s, k, b, p + 1, f);
    }
}

proof fn lemma_tail_skip(s: Seq<char>, k: int, b: Seq<char>, p: int)
    requires
        tail(s, k, b),
        0 <= p <= b.len(),
    ensures
        lexer::skip(s, k + p) == k + lexer::skip(b, p),
    decreases b.len() - p,
{
    if p < b.len() {
        assert(s[k + p] == b[p]);
        if lexer::is_blank(b[p]) {
            lemma_tail_skip(s, k, b, p + 1);
        } else if b[p] == '#' {
            let f = |c: char| c != '\n';
            assert(f(b[p]));
            lemma_run_bounds(b, p + 1, f);
            lemma_tail_run(s, k, b, p, f);
            lemma_tail_skip(s, k, b, lexer::run_end(b, p, f));
        }
    }
}

/// What is read later in a text is what is read of that part alone: the same
/// token, or the same complaint. Where the part starts a line, the complaint is
/// about the same column, `line_at(s, k) - 1` lines further on.
pub open spec fn same_lexed(s: Seq<char>, k: int, x: SpecLexed, y: SpecLexed) -> bool {
    match y {
        Ok((t, end)) => x == SpecLexed::Ok((t, k + end)),
        Err(e) => x is Err && same_error(s, k, x->Err_0, e),
    }
}

pub open spec fn same_error(s: Seq<char>, k: int, x: SpecLexError, y: SpecLexError) -> bool {
    &&& x.message == y.message
    &&& x.line == lexer::line_at(s, k) - 1 + y.line
    &&& starts_line(s, k) ==> x.col == y.col
}

proof fn lemma_tail_string(
    s: Seq<char>,
    k: int,
    b: Seq<char>,
    open: int,
    p: int,
    read: Seq<char>,
)
    requires
        tail(s, k, b),
        0 <= open < b.len(),
        0 <= p,
    ensures
        same_lexed(
            s,
            k,
            lexer::string_rest(s, k + open, k + p, read),
            lexer::string_rest(b, open, p, read),
        ),
    decreases b.len() - p,
{
    lemma_tail_positions(s, k, b, open);
    if p < b.len() {
        assert(s[k + p] == b[p]);
        if b[p] == '"' {
        } else if b[p] == '\\' {
            if p + 1 < b.len() {
                assert(s[k + (p + 1)] == b[p + 1]);
                match lexer::escape(b[p + 1]) {
                    Some(c) => lemma_tail_string(s, k, b, open, p + 2, read.push(c)),
                    None => lemma_tail_positions(s, k, b, p + 2),
                }
            }
        } else {
            lemma_tail_string(s, k, b, open, p + 1, read.push(b[p]));
        }
    }
}

proof fn lemma_tail_token(m: NumberModel, s: Seq<char>, k: int, b: Seq<char>, p: int)
    requires
        tail(s, k, b),
        0 <= p < b.len(),
    ensures
        same_lexed(s, k, lexer::token_at(m, s, k + p), lexer::token_at(m, b, p)),
{
    let c = b[p];
    assert(s[k + p] == c);
    if p + 1 < b.len() {
        assert(s[k + (p + 1)] == b[p + 1]);
    }
    lemma_tail_positions(s, k, b, p);
    lemma_tail_positions(s, k, b, p + 1);
    if lexer::symbol(b, p) is None {
        if c == '"' {
            lemma_tail_string(s, k, b, p, p + 1, Seq::empty());
        } else if lexer::is_digit(c) {
            let f = |c: char| lexer::is_digit(c);
            lemma_run_bounds(b, p, f);
            lemma_tail_run(s, k, b, p, f);
            let whole = lexer::run_end(b, p, f);
            if whole < b.len() {
                assert(s[k + whole] == b[whole]);
                if whole + 1 < b.len() {
                    assert(s[k + (whole + 1)] == b[whole + 1]);
                    lemma_run_bounds(b, whole + 1, f);
                    lemma_tail_run(s, k, b, whole + 1, f);
                }
            }
            lemma_tail_piece(s, k, b, p, lexer::number_end(b, p));
        } else if lexer::ident_start(c) {
            let f = |c: char| lexer::ident_continue(c);
            lemma_run_bounds(b, p, f);
            lemma_tail_run(s, k, b, p, f);
            lemma_tail_piece(s, k, b, p, lexer::run_end(b, p, f));
        }
    }
}

proof fn lemma_tail_piece(s: Seq<char>, k: int, b: Seq<char>, p: int, q: int)
    requires
        tail(s, k, b),
        0 <= p <= q <= b.len(),
    ensures
        s.subrange(k + p, k + q) == b.subrange(p, q),
{
    let x = s.subrange(k + p, k + q);
    let y = b.subrange(p, q);
    assert forall|i: int| 0 <= i < y.len() implies x[i] == #[trigger] y[i] by {
        assert(s[k + (p + i)] == b[p + i]);
    }
    assert(x =~= y);
}

/// The tokens `xs` of a text in which the tokens `ys` of its part from `k` on
/// are found again.
pub open spec fn same_tokens(
    s: Seq<char>,
    k: int,
    xs: Seq<SpecSpanned>,
    ys: Seq<SpecSpanned>,
) -> bool {
    &&& xs.len() == ys.len()
    &&& forall|i: int|
        0 <= i < xs.len() ==> {
            &&& (#[trigger] xs[i]).token == ys[i].token
            &&& xs[i].line == lexer::line_at(s, k) - 1 + ys[i].line
            &&& starts_line(s, k) ==> xs[i].col == ys[i].col
        }
}

/// What a text is read as from `k` on is what its part from `k` on is read as.
pub open spec fn same_reading(
    s: Seq<char>,
    k: int,
    x: Result<Seq<SpecSpanned>, SpecLexError>,
    y: Result<Seq<SpecSpanned>, SpecLexError>,
) -> bool {
    match y {
        Ok(ys) => x is Ok && same_tokens(s, k, x->Ok_0, ys),
        Err(e) => x is Err && same_error(s, k, x->Err_0, e),
    }
}

proof fn lemma_tail_tokens(m: NumberModel, s: Seq<char>, k: int, b: Seq<char>, p: int)
    requires
        tail(s, k, b),
        0 <= p <= b.len(),
    ensures
        same_reading(s, k, lexer::tokens_from(m, s, k + p), lexer::tokens_from(m, b, p)),
    decreases b.len() - p,
{
    law_skips_blanks_and_comments(b, p);
    lemma_tail_skip(s, k, b, p);
    let start = lexer::skip(b, p);
    lemma_tail_positions(s, k, b, start);
    if start < b.len() {
        lemma_tail_token(m, s, k, b, start);
        if let Ok((t, end)) = lexer::token_at(m, b, start) {
            lemma_token_bounds(m, b, start);
            lemma_tail_tokens(m, s, k, b, end);
            if let Ok(ys) = lexer::tokens_from(m, b, end) {
                let xs = lexer::tokens_from(m, s, k + end)->Ok_0;
                let more_ys = seq![lexer::spanned(b, start, t)] + ys;
                let more_xs = seq![lexer::spanned(s, k + start, t)] + xs;
                assert forall|i: int| 0 <= i < more_xs.len() implies {
                    &&& (#[trigger] more_xs[i]).token == more_ys[i].token
                    &&& more_xs[i].line == lexer::line_at(s, k) - 1 + more_ys[i].line
                    &&& starts_line(s, k) ==> more_xs[i].col == more_ys[i].col
                } by {
                    if i > 0 {
                        assert(more_xs[i] == xs[i - 1]);
                        assert(more_ys[i] == ys[i - 1]);
                    }
                }
            }
        }
    }
}

/// Whether `a` and a blank after it are what `s` starts with.
pub open spec fn head(s: Seq<char>, a: Seq<char>) -> bool {
    &&& a.len() < s.len()
    &&& forall|i: int| 0 <= i < a.len() ==> s[i] == #[trigger] a[i]
    &&& lexer::is_blank(s[a.len() as int])
}

/// Whether no comment is open at the end of a text: none starts in its last
/// line.
pub open spec fn no_open_comment(a: Seq<char>) -> bool {
    forall|i: int|
        0 <= i < a.len() && #[trigger] a[i] == '#' ==> exists|j: int|
            i < j < a.len() && #[trigger] a[j] == '\n'
}

proof fn lemma_head_positions(s: Seq<char>, a: Seq<char>, i: int)
    requires
        head(s, a),
        0 <= i <= a.len(),
    ensures
        lexer::line_at(s, i) == lexer::line_at(a, i),
        lexer::col_at(s, i) == lexer::col_at(a, i),
    decreases i,
{
    if i > 0 {
        lemma_head_positions(s, a, i - 1);
        assert(s[i - 1] == a[i - 1]);
    }
}

/// A run of characters of which a blank is none ends in `a` as it does in `s`.
proof fn lemma_head_run(s: Seq<char>, a: Seq<char>, p: int, f: spec_fn(char) -> bool)
    requires
        head(s, a),
        0 <= p <= a.len(),
        lexer::run_end(a, p, f) < a.len() || !f(s[a.len() as int]),
    ensures
        lexer::run_end(s, p, f) == lexer::run_end(a, p, f),
{
    lemma_run_bounds(a, p, f);
    let q = lexer::run_end(a, p, f);
    assert forall|i: int| p <= i < q implies f(#[trigger] s[i]) by {
        assert(s[i] == a[i]);
    }
    if q < a.len() {
        assert(s[q] == a[q]);
    }
    lemma_run_end(s, p, q, f);
}

proof fn lemma_head_skip(s: Seq<char>, a: Seq<char>, p: int)
    requires
        head(s, a),
        s[a.len() as int] == '\n' || no_open_comment(a),
        0 <= p <= a.len(),
    ensures
        lexer::skip(a, p) < a.len() ==> lexer::skip(s, p) == lexer::skip(a, p),
        lexer::skip(a, p) >= a.len() ==> lexer::skip(s, p) == lexer::skip(s, a.len() as int + 1),
    decreases a.len() - p,
{
    let n = a.len() as int;
    if p < n {
        assert(s[p] == a[p]);
        if lexer::is_blank(a[p]) {
            lemma_head_skip(s, a, p + 1);
        } else if a[p] == '#' {
            let f = |c: char| c != '\n';
            assert(f(a[p]));
            lemma_run_bounds(a, p, f);
            lemma_run_bounds(a, p + 1, f);
            let q = lexer::run_end(a, p, f);
            assert(q == lexer::run_end(a, p + 1, f));
            if q == n && s[n] != '\n' {
                let j = choose|j: int| p < j < a.len() && #[trigger] a[j] == '\n';
                assert(f(a[j]));
            }
            lemma_head_run(s, a, p, f);
            lemma_head_skip(s, a, q);
        }
    } else {
        assert(lexer::skip(a, n) == n);
    }
}

proof fn lemma_head_string(s: Seq<char>, a: Seq<char>, open: int, p: int, read: Seq<char>)
    requires
        head(s, a),
        0 <= p,
        lexer::string_rest(a, open, p, read) is Ok,
    ensures
        lexer::string_rest(s, open, p, read) == lexer::string_rest(a, open, p, read),
    decreases a.len() - p,
{
    if p < a.len() {
        assert(s[p] == a[p]);
        if a[p] == '"' {
        } else if a[p] == '\\' {
            if p + 1 < a.len() {
                assert(s[p + 1] == a[p + 1]);
                if let Some(c) = lexer::escape(a[p + 1]) {
                    lemma_head_string(s, a, open, p + 2, read.push(c));
                }
            }
        } else {
            lemma_head_string(s, a, open, p + 1, read.push(a[p]));
        }
    }
}

proof fn lemma_head_token(m: NumberModel, s: Seq<char>, a: Seq<char>, p: int)
    requires
        head(s, a),
        0 <= p < a.len(),
        lexer::token_at(m, a, p) is Ok,
    ensures
        lexer::token_at(m, s, p) == lexer::token_at(m, a, p),
{
    let n = a.len() as int;
    let c = a[p];
    assert(s[p] == c);
    if p + 1 < n {
        assert(s[p + 1] == a[p + 1]);
    }
    if lexer::symbol(a, p) is None {
        if c == '"' {
            lemma_head_string(s, a, p, p + 1, Seq::empty());
        } else if lexer::is_digit(c) {
            let f = |c: char| lexer::is_digit(c);
            lemma_run_bounds(a, p, f);
            lemma_head_run(s, a, p, f);
            let whole = lexer::run_end(a, p, f);
            if whole < n {
                assert(s[whole] == a[whole]);
                if whole + 1 < n {
                    assert(s[whole + 1] == a[whole + 1]);
                    lemma_run_bounds(a, whole + 1, f);
                    lemma_head_run(s, a, whole + 1, f);
                }
            }
            lemma_head_piece(s, a, p, lexer::number_end(a, p));
        } else if lexer::ident_start(c) {
            let f = |c: char| lexer::ident_continue(c);
            lemma_run_bounds(a, p, f);
            lemma_head_run(s, a, p, f);
            lemma_head_piece(s, a, p, lexer::run_end(a, p, f));
        }
    }
}

proof fn lemma_head_piece(s: Seq<char>, a: Seq<char>, p: int, q: int)
    requires
        head(s, a),
        0 <= p <= q <= a.len(),
    ensures
        s.subrange(p, q) == a.subrange(p, q),
{
    let x = s.subrange(p, q);
    let y = a.subrange(p, q);
    assert forall|i: int| 0 <= i < y.len() implies x[i] == #[trigger] y[i] by {
        assert(s[p + i] == a[p + i]);
    }
    assert(x =~= y);
}

/// The tokens of the first of two texts come first.
proof fn lemma_head_tokens(m: NumberModel, s: Seq<char>, a: Seq<char>, p: int)
    requires
        head(s, a),
        s[a.len() as int] == '\n' || no_open_comment(a),
        0 <= p <= a.len(),
        lexer::tokens_from(m, a, p) is Ok,
    ensures
        lexer::tokens_from(m, a, p)->Ok_0.len() > 0,
        lexer::tokens_from(m, s, p) == lexer::after(
            lexer::tokens_from(m, a, p)->Ok_0.drop_last(),
            lexer::tokens_from(m, s, a.len() as int + 1),
        ),
    decreases a.len() - p,
{
    let n = a.len() as int;
    law_skips_blanks_and_comments(a, p);
    law_skips_blanks_and_comments(s, p);
    law_skips_blanks_and_comments(s, n + 1);
    lemma_head_skip(s, a, p);
    let start = lexer::skip(a, p);
    let all = lexer::tokens_from(m, a, p)->Ok_0;
    let later = lexer::tokens_from(m, s, n + 1);
    if start < n {
        lemma_token_bounds(m, a, start);
        lemma_head_token(m, s, a, start);
        lemma_head_positions(s, a, start);
        let (t, end) = lexer::token_at(m, a, start)->Ok_0;
        lemma_head_tokens(m, s, a, end);
        let rest = lexer::tokens_from(m, a, end)->Ok_0;
        let first = seq![lexer::spanned(a, start, t)];
        assert(all == first + rest);
        assert(all.drop_last() =~= first + rest.drop_last());
        if let Ok(ts) = later {
            assert(first + (rest.drop_last() + ts) =~= all.drop_last() + ts);
        }
    } else {
        assert(lexer::tokens_from(m, s, p) == later);
        assert(all.drop_last() =~= Seq::<SpecSpanned>::empty());
        if let Ok(ts) = later {
            assert(all.drop_last() + ts =~= ts);
        }
    }
}

/// Lines can be put together: a text, a newline and another text read as the
/// tokens of the first, without its end, and those of the second. The second
/// text starts a line of its own, so its tokens keep their columns and go
/// further down by as many lines as the first text has; and what is wrong with
/// the second text is wrong there.
pub proof fn law_lines_read_one_after_the_other(m: NumberModel, a: Seq<char>, b: Seq<char>)
    requires
        lexer::tokens_of(m, a) is Ok,
    ensures
        ({
            let ta = lexer::tokens_of(m, a)->Ok_0;
            let down = lexer::line_at(a, a.len() as int);
            let both = lexer::tokens_of(m, a + seq!['\n'] + b);
            match lexer::tokens_of(m, b) {
                Ok(tb) => both is Ok && both->Ok_0 == ta.drop_last() + Seq::new(
                    tb.len(),
                    |i: int| SpecSpanned { line: tb[i].line + down, ..tb[i] },
                ),
                Err(e) => both is Err && both->Err_0 == (SpecLexError { line: e.line + down, ..e }),
            }
        }),
{
    let s = a + seq!['\n'] + b;
    let n = a.len() as int;
    assert forall|i: int| 0 <= i < b.len() implies s[n + 1 + i] == #[trigger] b[i] by {}
    lemma_head_tokens(m, s, a, 0);
    lemma_tail_tokens(m, s, n + 1, b, 0);
    lemma_head_positions(s, a, n);
    assert(lexer::line_at(s, n + 1) == lexer::line_at(a, n) + 1);
    if let Ok(tb) = lexer::tokens_of(m, b) {
        let later = lexer::tokens_from(m, s, n + 1)->Ok_0;
        let down = lexer::line_at(a, n);
        let moved = Seq::new(tb.len(), |i: int| SpecSpanned { line: tb[i].line + down, ..tb[i] });
        assert forall|i: int| 0 <= i < moved.len() implies later[i] == #[trigger] moved[i] by {
            assert(later[i].token == tb[i].token);
        }
        assert(later =~= moved);
    }
}

/// The tokens without their positions.
pub open spec fn kinds(ts: Seq<SpecSpanned>) -> Seq<SpecToken> {
    ts.map_values(|t: SpecSpanned| t.token)
}

/// It does not matter to the tokens whether texts stand on one line: with a
/// space between them they read as the tokens of the first, without its end,
/// and those of the second, unless the first ends in a comment.
pub proof fn law_spaced_texts_read_one_after_the_other(m: NumberModel, a: Seq<char>, b: Seq<char>)
    requires
        lexer::tokens_of(m, a) is Ok,
        no_open_comment(a),
    ensures
        ({
            let ta = lexer::tokens_of(m, a)->Ok_0;
            let both = lexer::tokens_of(m, a + seq![' '] + b);
            match lexer::tokens_of(m, b) {
                Ok(tb) => both is Ok && kinds(both->Ok_0) == kinds(ta).drop_last() + kinds(tb),
                Err(e) => both is Err && both->Err_0.message == e.message,
            }
        }),
{
    let s = a + seq![' '] + b;
    let n = a.len() as int;
    assert forall|i: int| 0 <= i < b.len() implies s[n + 1 + i] == #[trigger] b[i] by {}
    lemma_head_tokens(m, s, a, 0);
    lemma_tail_tokens(m, s, n + 1, b, 0);
    if let Ok(tb) = lexer::tokens_of(m, b) {
        let ta = lexer::tokens_of(m, a)->Ok_0;
        let both = lexer::tokens_of(m, s)->Ok_0;
        let later = lexer::tokens_from(m, s, n + 1)->Ok_0;
        assert(both == ta.drop_last() + later);
        assert forall|i: int| 0 <= i < both.len() implies #[trigger] kinds(both)[i] == (kinds(
            ta,
        ).drop_last() + kinds(tb))[i] by {
            if i >= ta.len() - 1 {
                assert(later[i - (ta.len() - 1)].token == tb[i - (ta.len() - 1)].token);
            }
        }
        assert(kinds(both) =~= kinds(ta).drop_last() + kinds(tb));
    }
}

// ---- what a token says ------------------------------------------------------

/// How a token is written that is always written in one way.
pub open spec fn written(t: SpecToken) -> Option<Seq<char>> {
    match t {
        SpecToken::Equals => Some(seq!['=']),
        SpecToken::Plus => Some(seq!['+']),
        SpecToken::Minus => Some(seq!['-']),
        SpecToken::Star => Some(seq!['*']),
        SpecToken::Slash => Some(seq!['/']),
        SpecToken::Dot => Some(seq!['.']),
        SpecToken::Comma => Some(seq![',']),
        SpecToken::LAngle => Some(seq!['<']),
        SpecToken::RAngle => Some(seq!['>']),
        SpecToken::LParen => Some(seq!['(']),
        SpecToken::RParen => Some(seq![')']),
        SpecToken::LBrace => Some(seq!['{']),
        SpecToken::RBrace => Some(seq!['}']),
        SpecToken::LBracket => Some(seq!['[']),
        SpecToken::RBracket => Some(seq![']']),
        SpecToken::Semicolon => Some(seq![';']),
        SpecToken::EqEq => Some(seq!['=', '=']),
        SpecToken::NotEq => Some(seq!['!', '=']),
        SpecToken::LessEq => Some(seq!['<', '=']),
        SpecToken::GreaterEq => Some(seq!['>', '=']),
        SpecToken::Caret => Some(seq!['^']),
        _ => None,
    }
}

/// 10 multiplied with itself, `n` times in all.
pub open spec fn ten_to(n: nat) -> nat
    decreases n,
{
    if n == 0 {
        1
    } else {
        10 * ten_to((n - 1) as nat)
    }
}

/// What digits say: the first counts as many tens as there are digits after it, and so
/// on.
pub open spec fn numeral(s: Seq<char>) -> nat
    decreases s.len(),
{
    if s.len() == 0 {
        0
    } else {
        ((s[0] as int - '0' as int) as nat) * ten_to((s.len() - 1) as nat) + numeral(s.skip(1))
    }
}

proof fn lemma_numeral_last(s: Seq<char>)
    requires
        s.len() > 0,
        forall|i: int| 0 <= i < s.len() ==> lexer::is_digit(#[trigger] s[i]),
    ensures
        numeral(s) == numeral(s.drop_last()) * 10 + (s.last() as int - '0' as int),
    decreases s.len(),
{
    let d = (s[0] as int - '0' as int) as nat;
    assert(lexer::is_digit(s[0]));
    assert(lexer::is_digit(s[s.len() - 1]));
    if s.len() == 1 {
        assert(s.skip(1) =~= Seq::<char>::empty());
        assert(s.drop_last() =~= Seq::<char>::empty());
        assert(ten_to(0) == 1);
        assert(d * 1 == d) by (nonlinear_arith);
        assert(numeral(s.skip(1)) == 0 && numeral(s.drop_last()) == 0);
        assert(numeral(s) == d * ten_to(0) + numeral(s.skip(1)));
    } else {
        let rest = s.skip(1);
        assert forall|i: int| 0 <= i < rest.len() implies lexer::is_digit(#[trigger] rest[i]) by {
            assert(lexer::is_digit(s[i + 1]));
        }
        lemma_numeral_last(rest);
        assert(rest.drop_last() =~= s.drop_last().skip(1));
        let k = (s.len() - 2) as nat;
        let t = ten_to(k);
        assert(ten_to((s.len() - 1) as nat) == 10 * t);
        assert(d * (10 * t) == (d * t) * 10) by (nonlinear_arith);
        assert(s.drop_last()[0] == s[0]);
        assert(numeral(s.drop_last()) == d * t + numeral(rest.drop_last()));
    }
}

proof fn lemma_numeral(s: Seq<char>)
    requires
        forall|i: int| 0 <= i < s.len() ==> lexer::is_digit(#[trigger] s[i]),
    ensures
        lexer::digits_value(s) == numeral(s),
    decreases s.len(),
{
    if s.len() > 0 {
        let front = s.drop_last();
        assert forall|i: int| 0 <= i < front.len() implies lexer::is_digit(
            #[trigger] front[i],
        ) by {
            assert(lexer::is_digit(s[i]));
        }
        lemma_numeral(front);
        lemma_numeral_last(s);
        assert(lexer::is_digit(s[s.len() - 1]));
    }
}

/// A whole number is written with the digits that say it, and without zeros in front.
pub proof fn law_numerals_say_their_number(n: nat)
    ensures
        text::decimal(n).len() > 0,
        forall|i: int|
            0 <= i < text::decimal(n).len() ==> lexer::is_digit(#[trigger] text::decimal(n)[i]),
        numeral(text::decimal(n)) == n,
        n > 0 ==> text::decimal(n)[0] != '0',
        n == 0 ==> text::decimal(n) == seq!['0'],
    decreases n,
{
    let t = text::decimal(n);
    if n >= 10 {
        let front = text::decimal(n / 10);
        law_numerals_say_their_number(n / 10);
        assert(t.drop_last() =~= front);
        assert forall|i: int| 0 <= i < t.len() implies lexer::is_digit(#[trigger] t[i]) by {
            if i < front.len() {
                assert(t[i] == front[i]);
                assert(lexer::is_digit(front[i]));
            }
        }
        lemma_numeral_last(t);
        assert(t[0] == front[0]);
    } else {
        assert forall|i: int| 0 <= i < t.len() implies lexer::is_digit(#[trigger] t[i]) by {}
        lemma_numeral_last(t);
        assert(t.drop_last() =~= Seq::<char>::empty());
        assert(numeral(t.drop_last()) == 0);
    }
}

/// A token says what stands in the text from its start to its end: a name the
/// characters that it is made of, all that can belong to it; a whole number what its
/// digits say; a float what the text denotes; and any other token but a string the
/// characters that it is always written with, two rather than one.
pub proof fn law_tokens_say_what_is_there(m: NumberModel, s: Seq<char>, p: int)
    requires
        0 <= p < s.len(),
        lexer::token_at(m, s, p) is Ok,
    ensures
        ({
            let (t, end) = lexer::token_at(m, s, p)->Ok_0;
            let there = s.subrange(p, end);
            &&& p < end <= s.len()
            &&& match t {
                SpecToken::Ident(name) => {
                    &&& name == there
                    &&& lexer::ident_start(s[p])
                    &&& forall|i: int| p <= i < end ==> lexer::ident_continue(#[trigger] s[i])
                    &&& end < s.len() ==> !lexer::ident_continue(s[end])
                },
                SpecToken::Int(n) => {
                    &&& n == numeral(there)
                    &&& forall|i: int| p <= i < end ==> lexer::is_digit(#[trigger] s[i])
                    &&& end < s.len() ==> !lexer::is_digit(s[end])
                    &&& end + 1 < s.len() ==> !(s[end] == '.' && lexer::is_digit(s[end + 1]))
                },
                SpecToken::Float(b) => {
                    &&& (m.parse)(there) == Some(b)
                    &&& lexer::is_digit(s[p])
                    &&& exists|dot: int|
                        p < dot < end - 1 && #[trigger] s[dot] == '.' && (forall|i: int|
                            p <= i < end && i != dot ==> lexer::is_digit(#[trigger] s[i]))
                    &&& end < s.len() ==> !lexer::is_digit(s[end])
                },
                SpecToken::Str(_) => s[p] == '"' && s[end - 1] == '"',
                SpecToken::Eof => false,
                _ => {
                    &&& written(t) == Some(there)
                    &&& end - p == 1 && end < s.len() && s[end] == '=' ==> written(t) != Some(
                        seq!['='],
                    ) && written(t) != Some(seq!['<']) && written(t) != Some(seq!['>'])
                },
            }
        }),
{
    let (t, end) = lexer::token_at(m, s, p)->Ok_0;
    let there = s.subrange(p, end);
    if lexer::symbol(s, p) is Some {
        if end == p + 1 {
            assert(there =~= seq![s[p]]);
            assert(written(t) == Some(seq![s[p]]));
            assert(seq![s[p]][0] == s[p]);
            if end < s.len() && s[end] == '=' {
                assert(s[p] != '=' && s[p] != '<' && s[p] != '>');
                assert(seq!['='][0] == '=' && seq!['<'][0] == '<' && seq!['>'][0] == '>');
            }
        } else {
            assert(there =~= seq![s[p], s[p + 1]]);
        }
    } else if s[p] == '"' {
        lemma_string_bounds(s, p, p + 1, Seq::empty());
        lemma_string_closes(s, p, p + 1, Seq::empty());
    } else if lexer::is_digit(s[p]) {
        let f = |c: char| lexer::is_digit(c);
        lemma_run_bounds(s, p, f);
        let dot = lexer::run_end(s, p, f);
        assert forall|i: int| p <= i < dot implies lexer::is_digit(#[trigger] s[i]) by {
            assert(f(s[i]));
        }
        assert(f(s[p]));
        assert(dot > p);
        if dot < s.len() {
            assert(!f(s[dot]));
        }
        if dot + 1 < s.len() && s[dot] == '.' && lexer::is_digit(s[dot + 1]) {
            lemma_run_bounds(s, dot + 1, f);
            assert(f(s[dot + 1]));
            assert(end == lexer::run_end(s, dot + 1, f));
            assert(end > dot + 1);
            assert forall|i: int| p <= i < end && i != dot implies lexer::is_digit(
                #[trigger] s[i],
            ) by {
                if i > dot {
                    assert(f(s[i]));
                }
            }
            if end < s.len() {
                assert(!f(s[end]));
            }
            assert(s[dot] == '.');
        } else {
            assert forall|i: int| 0 <= i < there.len() implies lexer::is_digit(
                #[trigger] there[i],
            ) by {
                assert(there[i] == s[p + i]);
            }
            lemma_numeral(there);
        }
    } else {
        let f = |c: char| lexer::ident_continue(c);
        lemma_run_bounds(s, p, f);
        assert(f(s[p]));
        assert forall|i: int| p <= i < end implies lexer::ident_continue(#[trigger] s[i]) by {
            assert(f(s[i]));
        }
        if end < s.len() {
            assert(!f(s[end]));
        }
        assert(end > p);
    }
}

/// The tokens of a text are the first one, at the place at which it starts, and those
/// of the text after it; where nothing is left to read there is the end of input
/// alone. The first token that is none is the error.
pub proof fn law_tokens_come_in_order(m: NumberModel, s: Seq<char>, p: int)
    requires
        0 <= p <= s.len(),
    ensures
        ({
            let start = lexer::skip(s, p);
            let all = lexer::tokens_from(m, s, p);
            if start == s.len() {
                all matches Ok(ts) && ts.len() == 1 && ts[0].token is Eof && (
                    ts[0].line,
                    ts[0].col,
                ) == lexer::place_at(s, start)
            } else {
                match lexer::token_at(m, s, start) {
                    Ok((t, end)) => match lexer::tokens_from(m, s, end) {
                        Ok(rest) => all matches Ok(ts) && ts.len() == rest.len() + 1 && ts[0].token
                            == t && (ts[0].line, ts[0].col) == lexer::place_at(s, start)
                            && ts.skip(1) == rest,
                        Err(e) => all == Err::<Seq<SpecSpanned>, SpecLexError>(e),
                    },
                    Err(e) => all == Err::<Seq<SpecSpanned>, SpecLexError>(e),
                }
            }
        }),
{
    law_skips_blanks_and_comments(s, p);
    let start = lexer::skip(s, p);
    if start < s.len() {
        if let Ok((t, end)) = lexer::token_at(m, s, start) {
            law_tokens_say_what_is_there(m, s, start);
            if let Ok(rest) = lexer::tokens_from(m, s, end) {
                let ts = lexer::tokens_from(m, s, p)->Ok_0;
                assert(ts == seq![lexer::spanned(s, start, t)] + rest);
                assert(ts.skip(1) =~= rest);
            }
        }
    }
}

proof fn lemma_string_closes(s: Seq<char>, open: int, pos: int, read: Seq<char>)
    requires
        0 <= pos,
        lexer::string_rest(s, open, pos, read) is Ok,
    ensures
        ({
            let end = lexer::string_rest(s, open, pos, read)->Ok_0.1;
            pos < end <= s.len() && s[end - 1] == '"'
        }),
    decreases s.len() - pos,
{
    if s[pos] != '"' {
        if s[pos] == '\\' {
            if let Some(c) = lexer::escape(s[pos + 1]) {
                lemma_string_closes(s, open, pos + 2, read.push(c));
            }
        } else {
            lemma_string_closes(s, open, pos + 1, read.push(s[pos]));
        }
    }
}

} // verus!
