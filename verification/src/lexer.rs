//! A small hand-written lexer.
//!
//! It handles input like:
//!
//! ```text
//! company = t<APPL>;
//! earnings = APPL.earnings <ttm>;
//! price = APPL.price <last>;
//! ratio = earnings/price;
//! print(ratio);
//! ```
//!
//! - Statements end at `;`, not at the end of a line. A newline is ordinary
//!   white space, so a statement can span lines.
//! - `<` and `>` are plain punctuation. Whether `<...>` is a subset access or
//!   a comparison is for the parser to say.
//! - Identifiers are just identifiers. No word is special here.

#[allow(unused_imports)]
use crate::lexer_laws;
#[allow(unused_imports)]
use crate::number::{self, NumberModel, Numbers};
#[allow(unused_imports)]
use crate::text;
pub use crate::token::{SpannedToken, Token};
#[allow(unused_imports)]
use crate::token::{self, SpecSpanned, SpecToken};
use vstd::prelude::*;

verus! {

/// A lexer error: an unexpected character, an unterminated string, or a
/// malformed number, along with where it happened.
#[derive(Debug, Clone, PartialEq)]
pub struct LexError {
    pub message: String,
    pub line: usize,
    pub col: usize,
}

/// What a lexer error says.
pub struct SpecLexError {
    pub message: Seq<char>,
    pub line: int,
    pub col: int,
}

impl View for LexError {
    type V = SpecLexError;

    open spec fn view(&self) -> SpecLexError {
        SpecLexError { message: self.message@, line: self.line as int, col: self.col as int }
    }
}

impl LexError {
    /// The error as it is shown to the user.
    pub fn to_text(&self) -> (r: String)
        ensures
            r@ == "lex error at "@ + text::decimal(self.line as nat) + ":"@ + text::decimal(
                self.col as nat,
            ) + ": "@ + self.message@,
    {
        let mut s = "lex error at ".to_owned();
        s.append(text::usize_text(self.line).as_str());
        s.append(":");
        s.append(text::usize_text(self.col).as_str());
        s.append(": ");
        s.append(self.message.as_str());
        s
    }
}

// ---- positions --------------------------------------------------------

/// The line of the character at `pos`: one more than the newlines before it.
pub open spec fn line_at(s: Seq<char>, pos: int) -> int
    decreases pos,
{
    if pos <= 0 {
        1
    } else if s[pos - 1] == '\n' {
        line_at(s, pos - 1) + 1
    } else {
        line_at(s, pos - 1)
    }
}

/// The column of the character at `pos`: one more than the characters between
/// it and the newline before it.
pub open spec fn col_at(s: Seq<char>, pos: int) -> int
    decreases pos,
{
    if pos <= 0 || s[pos - 1] == '\n' {
        1
    } else {
        col_at(s, pos - 1) + 1
    }
}

proof fn lemma_positions_bounded(s: Seq<char>, pos: int)
    requires
        0 <= pos,
    ensures
        1 <= line_at(s, pos) <= pos + 1,
        1 <= col_at(s, pos) <= pos + 1,
    decreases pos,
{
    if pos > 0 {
        lemma_positions_bounded(s, pos - 1);
    }
}

/// The line and column of the character at `pos`.
pub open spec fn place_at(s: Seq<char>, pos: int) -> (int, int) {
    (line_at(s, pos), col_at(s, pos))
}

/// Whether a place comes after another: in a later line, or in the same line
/// and a later column.
pub open spec fn later(a: (int, int), b: (int, int)) -> bool {
    a.0 > b.0 || (a.0 == b.0 && a.1 > b.1)
}

/// An error at the character at `pos`.
pub open spec fn error_at(s: Seq<char>, pos: int, message: Seq<char>) -> SpecLexError {
    SpecLexError { message, line: line_at(s, pos), col: col_at(s, pos) }
}

// ---- characters -------------------------------------------------------

/// Whether a character has the Unicode property Alphabetic.
pub uninterp spec fn unicode_alphabetic(c: char) -> bool;

/// Whether a character is in one of the Unicode categories for numbers.
pub uninterp spec fn unicode_numeric(c: char) -> bool;

/// `char::is_alphabetic` depends on the character alone.
pub assume_specification[ char::is_alphabetic ](c: char) -> (r: bool)
    ensures
        r == unicode_alphabetic(c),
;

/// `char::is_alphanumeric` holds of the characters that are alphabetic or
/// numeric.
pub assume_specification[ char::is_alphanumeric ](c: char) -> (r: bool)
    ensures
        r == (unicode_alphabetic(c) || unicode_numeric(c)),
;

/// The digits `0` to `9`.
pub open spec fn is_digit(c: char) -> bool {
    '0' <= c <= '9'
}

/// What an identifier can start with: a letter or an underscore.
pub open spec fn ident_start(c: char) -> bool {
    if (c as int) < 0x80 {
        'a' <= c <= 'z' || 'A' <= c <= 'Z' || c == '_'
    } else {
        unicode_alphabetic(c)
    }
}

/// What an identifier can go on with: a letter, a digit or an underscore.
pub open spec fn ident_continue(c: char) -> bool {
    if (c as int) < 0x80 {
        'a' <= c <= 'z' || 'A' <= c <= 'Z' || c == '_' || is_digit(c)
    } else {
        unicode_alphabetic(c) || unicode_numeric(c)
    }
}

pub(crate) fn digit(c: char) -> (r: bool)
    ensures
        r == is_digit(c),
{
    '0' <= c && c <= '9'
}

pub fn is_ident_start(c: char) -> (r: bool)
    ensures
        r == ident_start(c),
{
    if (c as u32) < 0x80 {
        ('a' <= c && c <= 'z') || ('A' <= c && c <= 'Z') || c == '_'
    } else {
        c.is_alphabetic()
    }
}

pub fn is_ident_continue(c: char) -> (r: bool)
    ensures
        r == ident_continue(c),
{
    if (c as u32) < 0x80 {
        ('a' <= c && c <= 'z') || ('A' <= c && c <= 'Z') || c == '_' || digit(c)
    } else {
        c.is_alphanumeric()
    }
}

// ---- what the tokens of a text are --------------------------------------

/// The end of the longest run of characters from `pos` that `p` holds of.
pub open spec fn run_end(s: Seq<char>, pos: int, p: spec_fn(char) -> bool) -> int
    decreases s.len() - pos,
{
    if 0 <= pos < s.len() && p(s[pos]) {
        run_end(s, pos + 1, p)
    } else {
        pos
    }
}

/// White space between tokens: spaces, tabs, carriage returns and newlines.
pub open spec fn is_blank(c: char) -> bool {
    c == ' ' || c == '\t' || c == '\r' || c == '\n'
}

/// The first position from `pos` on that is neither white space nor in a
/// comment. A comment starts at `#` and ends before the next newline.
pub open spec fn skip(s: Seq<char>, pos: int) -> int
    decreases s.len() - pos,
{
    if 0 <= pos < s.len() && is_blank(s[pos]) {
        skip(s, pos + 1)
    } else if 0 <= pos < s.len() && s[pos] == '#' {
        let end = run_end(s, pos, |c: char| c != '\n');
        if pos < end <= s.len() {
            skip(s, end)
        } else {
            pos
        }
    } else {
        pos
    }
}

/// The number that a run of digits denotes.
pub open spec fn digits_value(s: Seq<char>) -> nat
    decreases s.len(),
{
    if s.len() == 0 {
        0
    } else {
        digits_value(s.drop_last()) * 10 + ((s.last() as int - 48) as nat)
    }
}

/// A token with the position after it, or an error.
pub type SpecLexed = Result<(SpecToken, int), SpecLexError>;

/// The punctuation that starts at `pos`: one character, or two where the
/// second is `=`.
pub open spec fn symbol(s: Seq<char>, pos: int) -> Option<(SpecToken, int)> {
    let equals_next = pos + 1 < s.len() && s[pos + 1] == '=';
    match s[pos] {
        '^' => Some((SpecToken::Caret, pos + 1)),
        ';' => Some((SpecToken::Semicolon, pos + 1)),
        '+' => Some((SpecToken::Plus, pos + 1)),
        '-' => Some((SpecToken::Minus, pos + 1)),
        '*' => Some((SpecToken::Star, pos + 1)),
        '/' => Some((SpecToken::Slash, pos + 1)),
        '.' => Some((SpecToken::Dot, pos + 1)),
        ',' => Some((SpecToken::Comma, pos + 1)),
        '=' => if equals_next {
            Some((SpecToken::EqEq, pos + 2))
        } else {
            Some((SpecToken::Equals, pos + 1))
        },
        '<' => if equals_next {
            Some((SpecToken::LessEq, pos + 2))
        } else {
            Some((SpecToken::LAngle, pos + 1))
        },
        '>' => if equals_next {
            Some((SpecToken::GreaterEq, pos + 2))
        } else {
            Some((SpecToken::RAngle, pos + 1))
        },
        '!' => if equals_next {
            Some((SpecToken::NotEq, pos + 2))
        } else {
            None
        },
        '{' => Some((SpecToken::LBrace, pos + 1)),
        '}' => Some((SpecToken::RBrace, pos + 1)),
        '[' => Some((SpecToken::LBracket, pos + 1)),
        ']' => Some((SpecToken::RBracket, pos + 1)),
        '(' => Some((SpecToken::LParen, pos + 1)),
        ')' => Some((SpecToken::RParen, pos + 1)),
        _ => None,
    }
}

/// The identifier that starts at `pos`.
pub open spec fn ident(s: Seq<char>, pos: int) -> (SpecToken, int) {
    let end = run_end(s, pos, |c: char| ident_continue(c));
    (SpecToken::Ident(s.subrange(pos, end)), end)
}

/// The number that starts at `pos`. A `.` belongs to it only where a digit
/// follows.
pub open spec fn number(m: NumberModel, s: Seq<char>, pos: int) -> SpecLexed {
    let whole = run_end(s, pos, |c: char| is_digit(c));
    if whole + 1 < s.len() && s[whole] == '.' && is_digit(s[whole + 1]) {
        let end = run_end(s, whole + 1, |c: char| is_digit(c));
        let literal = s.subrange(pos, end);
        match (m.parse)(literal) {
            Some(b) => Ok((SpecToken::Float(b), end)),
            None => Err(
                error_at(
                    s,
                    pos,
                    "invalid float literal '"@ + literal + "': invalid float literal"@,
                ),
            ),
        }
    } else {
        let literal = s.subrange(pos, whole);
        let value = digits_value(literal);
        if value <= i64::MAX {
            Ok((SpecToken::Int(value as i64), whole))
        } else {
            Err(
                error_at(
                    s,
                    pos,
                    "invalid int literal '"@ + literal
                        + "': number too large to fit in target type"@,
                ),
            )
        }
    }
}

/// The character that `\c` stands for in a string literal.
pub open spec fn escape(c: char) -> Option<char> {
    match c {
        '"' => Some('"'),
        '\\' => Some('\\'),
        'n' => Some('\n'),
        't' => Some('\t'),
        'r' => Some('\r'),
        _ => None,
    }
}

/// The rest, from `pos` on, of the string literal that opened at `open` and
/// has given `read` so far.
pub open spec fn string_rest(s: Seq<char>, open: int, pos: int, read: Seq<char>) -> SpecLexed
    decreases s.len() - pos,
{
    if pos < 0 || pos >= s.len() {
        Err(error_at(s, open, "unterminated string literal"@))
    } else if s[pos] == '"' {
        Ok((SpecToken::Str(read), pos + 1))
    } else if s[pos] == '\\' {
        if pos + 1 >= s.len() {
            Err(error_at(s, open, "unterminated string literal"@))
        } else {
            match escape(s[pos + 1]) {
                Some(c) => string_rest(s, open, pos + 2, read.push(c)),
                None => Err(
                    error_at(
                        s,
                        pos + 2,
                        "unknown escape sequence '\\"@ + seq![s[pos + 1]] + "' in string literal"@,
                    ),
                ),
            }
        }
    } else {
        string_rest(s, open, pos + 1, read.push(s[pos]))
    }
}

/// The token that starts at `pos`.
pub open spec fn token_at(m: NumberModel, s: Seq<char>, pos: int) -> SpecLexed {
    let c = s[pos];
    match symbol(s, pos) {
        Some(found) => Ok(found),
        None => if c == '!' {
            Err(error_at(s, pos + 1, "expected '=' after '!'"@))
        } else if c == '"' {
            string_rest(s, pos, pos + 1, Seq::empty())
        } else if is_digit(c) {
            number(m, s, pos)
        } else if ident_start(c) {
            Ok(ident(s, pos))
        } else {
            Err(error_at(s, pos + 1, "unexpected character '"@ + seq![c] + "'"@))
        },
    }
}

/// The end of the number that starts at `pos`, whether it has a value or not.
pub open spec fn number_end(s: Seq<char>, pos: int) -> int {
    let whole = run_end(s, pos, |c: char| is_digit(c));
    if whole + 1 < s.len() && s[whole] == '.' && is_digit(s[whole + 1]) {
        run_end(s, whole + 1, |c: char| is_digit(c))
    } else {
        whole
    }
}

/// The place at which a string literal, read from `pos` on, turns out to be
/// none: the end of the text, or after an unknown escape sequence.
pub open spec fn string_fault_end(s: Seq<char>, pos: int) -> int
    decreases s.len() - pos,
{
    if pos < 0 || pos >= s.len() {
        pos
    } else if s[pos] == '\\' {
        if pos + 1 >= s.len() {
            pos + 1
        } else if escape(s[pos + 1]) is None {
            pos + 2
        } else {
            string_fault_end(s, pos + 2)
        }
    } else {
        string_fault_end(s, pos + 1)
    }
}

/// The place at which the lexer stops where no token starts at `pos`.
pub open spec fn fault_end(s: Seq<char>, pos: int) -> int {
    if s[pos] == '"' {
        string_fault_end(s, pos + 1)
    } else if is_digit(s[pos]) {
        number_end(s, pos)
    } else {
        pos + 1
    }
}

/// `t` as the token that starts at `pos`.
pub open spec fn spanned(s: Seq<char>, pos: int, t: SpecToken) -> SpecSpanned {
    SpecSpanned { token: t, line: line_at(s, pos), col: col_at(s, pos) }
}

/// The tokens of `s` from `pos` on, ending with the end of input, or the
/// first error.
pub open spec fn tokens_from(m: NumberModel, s: Seq<char>, pos: int) -> Result<
    Seq<SpecSpanned>,
    SpecLexError,
>
    decreases s.len() - pos,
{
    let start = skip(s, pos);
    if start < pos || start >= s.len() {
        Ok(seq![spanned(s, start, SpecToken::Eof)])
    } else {
        match token_at(m, s, start) {
            Err(e) => Err(e),
            Ok((t, end)) => if end <= start || end > s.len() {
                Ok(seq![])
            } else {
                match tokens_from(m, s, end) {
                    Err(e) => Err(e),
                    Ok(rest) => Ok(seq![spanned(s, start, t)] + rest),
                }
            },
        }
    }
}

/// The tokens of a text.
pub open spec fn tokens_of(m: NumberModel, s: Seq<char>) -> Result<
    Seq<SpecSpanned>,
    SpecLexError,
> {
    tokens_from(m, s, 0)
}

/// What an outcome of the lexer says.
pub open spec fn lexed_view(r: Result<Vec<SpannedToken>, LexError>) -> Result<
    Seq<SpecSpanned>,
    SpecLexError,
> {
    match r {
        Ok(ts) => Ok(token::tokens_view(ts@)),
        Err(e) => Err(e@),
    }
}

/// The end of input occurs once, as the last token.
pub open spec fn ends_once(ts: Seq<SpecSpanned>) -> bool {
    &&& ts.len() > 0
    &&& ts.last().token == SpecToken::Eof
    &&& forall|i: int| 0 <= i < ts.len() - 1 ==> (#[trigger] ts[i]).token != SpecToken::Eof
}

// ---- the lexer ----------------------------------------------------------

pub struct Lexer<'a> {
    source: &'a str,
    chars: Vec<char>,
    pos: usize,
    line: usize,
    col: usize,
}

impl<'a> Lexer<'a> {
    /// The text that is read.
    pub closed spec fn text(&self) -> Seq<char> {
        self.source@
    }

    /// How many characters have been read.
    pub closed spec fn offset(&self) -> int {
        self.pos as int
    }

    /// The line and column of the next character.
    pub closed spec fn place(&self) -> (int, int) {
        (self.line as int, self.col as int)
    }

    /// The line and column kept along the way are those of the offset.
    pub closed spec fn wf(&self) -> bool {
        &&& self.chars@ == self.source@
        &&& self.pos <= self.chars@.len() < usize::MAX
        &&& self.line == line_at(self.chars@, self.pos as int)
        &&& self.col == col_at(self.chars@, self.pos as int)
    }

    pub fn new(source: &'a str) -> (r: Self)
        requires
            source@.len() < usize::MAX,
        ensures
            r.wf(),
            r.text() == source@,
            r.offset() == 0,
            r.place() == (1int, 1int),
    {
        Lexer { source, chars: text::chars_of(source), pos: 0, line: 1, col: 1 }
    }

    /// Tokenize the whole input at once.
    pub fn tokenize<N: Numbers>(self, nums: &N) -> (r: Result<Vec<SpannedToken>, LexError>)
        requires
            self.wf(),
        ensures
            forall|m: NumberModel| #[trigger]
                number::computes(*nums, m) ==> lexed_view(r) == tokens_from(
                    m,
                    self.text(),
                    self.offset(),
                ),
            r matches Ok(ts) ==> ends_once(token::tokens_view(ts@)),
    {
        let mut lexer = self;
        let mut tokens: Vec<SpannedToken> = Vec::new();
        loop
            invariant
                lexer.wf(),
                lexer.source@ == self.source@,
                forall|m: NumberModel| #[trigger]
                    number::computes(*nums, m) ==> tokens_from(m, self.source@, self.pos as int)
                        == after(
                        token::tokens_view(tokens@),
                        tokens_from(m, lexer.source@, lexer.pos as int),
                    ),
                forall|i: int|
                    0 <= i < tokens@.len() ==> (#[trigger] tokens@[i]).token@ != SpecToken::Eof,
            decreases lexer.chars@.len() - lexer.pos,
        {
            let ghost before = token::tokens_view(tokens@);
            let ghost pos = lexer.pos as int;
            let tok = lexer.next_token(nums)?;
            let is_eof = tok.token.is(&Token::Eof);
            let ghost view = tok@;
            tokens.push(tok);
            proof {
                assert(token::tokens_view(tokens@) =~= before.push(view));
                assert forall|m: NumberModel| #[trigger] number::computes(*nums, m) implies after(
                    before,
                    tokens_from(m, lexer.source@, pos),
                ) == (if is_eof {
                    Ok::<Seq<SpecSpanned>, SpecLexError>(before.push(view))
                } else {
                    after(
                        before.push(view),
                        tokens_from(m, lexer.source@, lexer.pos as int),
                    )
                }) by {
                    if is_eof {
                        assert(before + seq![view] =~= before.push(view));
                    } else {
                        match tokens_from(m, lexer.source@, lexer.pos as int) {
                            Ok(rest) => {
                                assert(before + (seq![view] + rest) =~= before.push(view) + rest);
                            },
                            Err(_) => {},
                        }
                    }
                }
            }
            if is_eof {
                return Ok(tokens);
            }
        }
    }

    /// The next character, if there is one.
    fn peek_char(&self) -> (r: Option<char>)
        requires
            self.wf(),
        ensures
            r == (if self.offset() < self.text().len() {
                Some(self.text()[self.offset()])
            } else {
                None
            }),
    {
        if self.pos < self.chars.len() {
            Some(self.chars[self.pos])
        } else {
            None
        }
    }

    /// Read the next character, keeping track of the position.
    fn bump(&mut self) -> (r: Option<char>)
        requires
            old(self).wf(),
        ensures
            final(self).wf(),
            final(self).text() == old(self).text(),
            final(self).source == old(self).source,
            old(self).offset() < old(self).text().len() ==> r == Some(
                old(self).text()[old(self).offset()],
            ) && final(self).offset() == old(self).offset() + 1,
            old(self).offset() >= old(self).text().len() ==> r is None && final(self).offset()
                == old(self).offset(),
    {
        if self.pos >= self.chars.len() {
            return None;
        }
        let c = self.chars[self.pos];
        proof {
            lemma_positions_bounded(self.chars@, self.pos as int);
        }
        self.pos = self.pos + 1;
        if c == '\n' {
            self.line = self.line + 1;
            self.col = 1;
        } else {
            self.col = self.col + 1;
        }
        Some(c)
    }

    /// An error at the current position.
    fn make_error(&self, message: String) -> (r: LexError)
        requires
            self.wf(),
        ensures
            r@ == error_at(self.text(), self.offset(), message@),
    {
        LexError { message, line: self.line, col: self.col }
    }

    /// Skip spaces, tabs, newlines, carriage returns and `#` line comments, and
    /// nothing else. There is nothing to skip after that.
    pub fn skip_whitespace_and_comments(&mut self)
        requires
            old(self).wf(),
        ensures
            final(self).wf(),
            final(self).text() == old(self).text(),
            final(self).offset() == skip(old(self).text(), old(self).offset()),
            final(self).place() == place_at(final(self).text(), final(self).offset()),
            old(self).offset() <= final(self).offset() <= old(self).text().len(),
            lexer_laws::gap(old(self).text(), old(self).offset(), final(self).offset()),
            final(self).offset() < final(self).text().len() ==> lexer_laws::starts_token(
                final(self).text(),
                final(self).offset(),
            ),
            skip(final(self).text(), final(self).offset()) == final(self).offset(),
    {
        proof {
            lexer_laws::law_skips_blanks_and_comments(self.source@, self.pos as int);
        }
        let ghost s = self.source@;
        let ghost start = self.pos as int;
        loop
            invariant
                self.wf(),
                self.source == old(self).source,
                s == self.source@,
                start <= self.pos,
                skip(s, self.pos as int) == skip(s, start),
            ensures
                self.wf(),
                self.source == old(self).source,
                start <= self.pos,
                self.pos == skip(s, start),
            decreases s.len() - self.pos,
        {
            let next = self.peek_char();
            match next {
                Some(c) => {
                    if c == ' ' || c == '\t' || c == '\r' || c == '\n' {
                        self.bump();
                    } else if c == '#' {
                        let ghost hash = self.pos as int;
                        let ghost p = |c: char| c != '\n';
                        self.bump();
                        let mut more = true;
                        while more
                            invariant
                                self.wf(),
                                self.source == old(self).source,
                                s == self.source@,
                                start <= hash < self.pos,
                                p == (|c: char| c != '\n'),
                                run_end(s, hash, p) == run_end(s, self.pos as int, p),
                                !more ==> self.pos == run_end(s, hash, p),
                            decreases
                                s.len() - self.pos,
                                if more {
                                    1int
                                } else {
                                    0int
                                },
                        {
                            match self.peek_char() {
                                Some(c) => {
                                    if c == '\n' {
                                        more = false;
                                    } else {
                                        self.bump();
                                    }
                                },
                                None => {
                                    more = false;
                                },
                            }
                        }
                    } else {
                        break;
                    }
                },
                None => {
                    break;
                },
            }
        }
    }

    /// Read the next token. It stands at the first character that is neither
    /// white space nor in a comment, and the lexer goes past that character;
    /// where there is none, the end of input is read, again and again.
    pub fn next_token<N: Numbers>(&mut self, nums: &N) -> (r: Result<SpannedToken, LexError>)
        requires
            old(self).wf(),
        ensures
            final(self).wf(),
            final(self).text() == old(self).text(),
            final(self).offset() <= final(self).text().len(),
            final(self).place() == place_at(final(self).text(), final(self).offset()),
            forall|m: NumberModel| #[trigger]
                number::computes(*nums, m) ==> ({
                    let s = old(self).text();
                    let start = skip(s, old(self).offset());
                    if start >= s.len() {
                        &&& r matches Ok(t)
                        &&& t@ == spanned(s, start, SpecToken::Eof)
                        &&& final(self).offset() == start
                    } else {
                        match token_at(m, s, start) {
                            Ok((t, end)) => {
                                &&& r matches Ok(tok)
                                &&& tok@ == spanned(s, start, t)
                                &&& final(self).offset() == end
                            },
                            Err(e) => {
                                &&& r matches Err(x)
                                &&& x@ == e
                                &&& final(self).offset() == fault_end(s, start)
                            },
                        }
                    }
                }),
            ({
                let s = old(self).text();
                let start = skip(s, old(self).offset());
                &&& old(self).offset() <= start <= s.len()
                &&& lexer_laws::gap(s, old(self).offset(), start)
                &&& start < s.len() ==> lexer_laws::starts_token(s, start)
                &&& start == s.len() ==> r is Ok && final(self).offset() == start
                &&& r matches Ok(t) ==> {
                    &&& t.token@ == SpecToken::Eof <==> start == s.len()
                    &&& (t@.line, t@.col) == place_at(s, start)
                    &&& t.token@ != SpecToken::Eof ==> start < final(self).offset() && later(
                        final(self).place(),
                        (t@.line, t@.col),
                    )
                }
            }),
    {
        proof {
            lexer_laws::law_skips_blanks_and_comments(self.source@, self.pos as int);
        }
        self.skip_whitespace_and_comments();
        let (start_line, start_col) = (self.line, self.col);
        let c = match self.peek_char() {
            Some(c) => c,
            None => {
                return Ok(SpannedToken { token: Token::Eof, line: start_line, col: start_col });
            },
        };
        let ghost s = self.source@;
        let ghost start = self.pos as int;
        let token = if c == '"' {
            self.read_string()?
        } else if digit(c) {
            self.read_number(nums)?
        } else if is_ident_start(c) {
            self.read_ident()
        } else {
            self.bump();
            match c {
                '^' => Token::Caret,
                ';' => Token::Semicolon,
                '+' => Token::Plus,
                '-' => Token::Minus,
                '*' => Token::Star,
                '/' => Token::Slash,
                '.' => Token::Dot,
                ',' => Token::Comma,
                '=' => {
                    if self.equals_sign() {
                        Token::EqEq
                    } else {
                        Token::Equals
                    }
                },
                '<' => {
                    if self.equals_sign() {
                        Token::LessEq
                    } else {
                        Token::LAngle
                    }
                },
                '>' => {
                    if self.equals_sign() {
                        Token::GreaterEq
                    } else {
                        Token::RAngle
                    }
                },
                '!' => {
                    if self.equals_sign() {
                        Token::NotEq
                    } else {
                        return Err(self.make_error("expected '=' after '!'".to_owned()));
                    }
                },
                '{' => Token::LBrace,
                '}' => Token::RBrace,
                '[' => Token::LBracket,
                ']' => Token::RBracket,
                '(' => Token::LParen,
                ')' => Token::RParen,
                other => {
                    let mut message = "unexpected character '".to_owned();
                    message.push(other);
                    message.append("'");
                    proof {
                        assert(message@ =~= "unexpected character '"@ + seq![other] + "'"@);
                    }
                    return Err(self.make_error(message));
                },
            }
        };
        proof {
            lexer_laws::law_positions_grow(s, start, self.pos as int);
        }
        Ok(SpannedToken { token, line: start_line, col: start_col })
    }

    /// Read a `=` if one comes next.
    fn equals_sign(&mut self) -> (r: bool)
        requires
            old(self).wf(),
        ensures
            final(self).wf(),
            final(self).source == old(self).source,
            r == (old(self).pos < old(self).source@.len() && old(self).source@[old(
                self,
            ).pos as int] == '='),
            final(self).pos == old(self).pos + (if r {
                1int
            } else {
                0
            }),
    {
        match self.peek_char() {
            Some(c) => {
                if c == '=' {
                    self.bump();
                    true
                } else {
                    false
                }
            },
            None => false,
        }
    }

    fn read_ident(&mut self) -> (r: Token)
        requires
            old(self).wf(),
            old(self).pos < old(self).source@.len(),
            ident_start(old(self).source@[old(self).pos as int]),
        ensures
            final(self).wf(),
            final(self).source == old(self).source,
            (r@, final(self).pos as int) == ident(old(self).source@, old(self).pos as int),
            final(self).pos > old(self).pos,
    {
        let ghost s = self.source@;
        let ghost start = self.pos as int;
        let ghost p = |c: char| ident_continue(c);
        let mut word = String::new();
        proof {
            assert(word@ =~= s.subrange(start, start));
            assert(p(s[start]));
            assert(run_end(s, start, p) == run_end(s, start + 1, p));
        }
        loop
            invariant
                self.wf(),
                self.source == old(self).source,
                s == self.source@,
                0 <= start <= self.pos <= s.len(),
                start < s.len(),
                p == (|c: char| ident_continue(c)),
                p(s[start]),
                word@ == s.subrange(start, self.pos as int),
                run_end(s, start, p) == run_end(s, self.pos as int, p),
            ensures
                self.wf(),
                self.source == old(self).source,
                start < self.pos <= s.len(),
                word@ == s.subrange(start, self.pos as int),
                self.pos == run_end(s, start, p),
            decreases s.len() - self.pos,
        {
            let next = self.peek_char();
            match next {
                Some(c) => {
                    if is_ident_continue(c) {
                        word.push(c);
                        self.bump();
                        proof {
                            assert(word@ =~= s.subrange(start, self.pos as int));
                        }
                    } else {
                        break;
                    }
                },
                None => {
                    break;
                },
            }
        }
        Token::Ident(word)
    }

    /// Read digits onto `text`, as far as they go.
    fn read_digits(&mut self, text: &mut String)
        requires
            old(self).wf(),
        ensures
            final(self).wf(),
            final(self).source == old(self).source,
            final(self).pos == run_end(
                old(self).source@,
                old(self).pos as int,
                |c: char| is_digit(c),
            ),
            old(self).pos <= final(self).pos <= old(self).source@.len(),
            final(text)@ == old(text)@ + old(self).source@.subrange(
                old(self).pos as int,
                final(self).pos as int,
            ),
            old(self).pos < old(self).source@.len() && is_digit(
                old(self).source@[old(self).pos as int],
            ) ==> final(self).pos > old(self).pos,
            forall|i: int|
                old(self).pos <= i < final(self).pos ==> is_digit(#[trigger] old(self).source@[i]),
    {
        let ghost s = self.source@;
        let ghost start = self.pos as int;
        let ghost p = |c: char| is_digit(c);
        proof {
            assert(text@ =~= text@ + s.subrange(start, start));
            if start < s.len() && is_digit(s[start]) {
                assert(p(s[start]));
                assert(run_end(s, start, p) == run_end(s, start + 1, p));
            }
        }
        loop
            invariant
                self.wf(),
                self.source == old(self).source,
                s == self.source@,
                0 <= start <= self.pos <= s.len(),
                p == (|c: char| is_digit(c)),
                text@ == old(text)@ + s.subrange(start, self.pos as int),
                run_end(s, start, p) == run_end(s, self.pos as int, p),
                forall|i: int| start <= i < self.pos ==> is_digit(#[trigger] s[i]),
            ensures
                self.wf(),
                self.source == old(self).source,
                start <= self.pos <= s.len(),
                text@ == old(text)@ + s.subrange(start, self.pos as int),
                self.pos == run_end(s, start, p),
                start < s.len() && is_digit(s[start]) ==> self.pos > start,
                forall|i: int| start <= i < self.pos ==> is_digit(#[trigger] s[i]),
            decreases s.len() - self.pos,
        {
            let next = self.peek_char();
            match next {
                Some(c) => {
                    if digit(c) {
                        text.push(c);
                        self.bump();
                        proof {
                            assert(text@ =~= old(text)@ + s.subrange(start, self.pos as int));
                        }
                    } else {
                        break;
                    }
                },
                None => {
                    break;
                },
            }
        }
    }

    fn read_number<N: Numbers>(&mut self, nums: &N) -> (r: Result<Token, LexError>)
        requires
            old(self).wf(),
            old(self).pos < old(self).source@.len(),
            is_digit(old(self).source@[old(self).pos as int]),
        ensures
            final(self).wf(),
            final(self).source == old(self).source,
            final(self).pos > old(self).pos,
            r matches Ok(t) ==> t@ != SpecToken::Eof,
            forall|m: NumberModel| #[trigger]
                number::computes(*nums, m) ==> match number(
                    m,
                    old(self).source@,
                    old(self).pos as int,
                ) {
                    Ok((t, end)) => {
                        &&& r matches Ok(tok)
                        &&& tok@ == t
                        &&& final(self).pos == end
                    },
                    Err(e) => {
                        &&& r matches Err(x)
                        &&& x@ == e
                        &&& final(self).pos == number_end(old(self).source@, old(self).pos as int)
                    },
                },
    {
        let (start_line, start_col) = (self.line, self.col);
        let ghost s = self.source@;
        let ghost start = self.pos as int;
        let mut literal = String::new();
        self.read_digits(&mut literal);
        let ghost whole = self.pos as int;
        proof {
            assert(literal@ =~= s.subrange(start, whole));
        }
        let is_float = self.pos + 1 < self.chars.len() && self.chars[self.pos] == '.' && digit(
            self.chars[self.pos + 1],
        );
        if is_float {
            literal.push('.');
            self.bump();
            self.read_digits(&mut literal);
            proof {
                assert(literal@ =~= s.subrange(start, self.pos as int));
            }
            match nums.parse(literal.as_str()) {
                Some(b) => Ok(Token::Float(b)),
                None => {
                    let mut message = "invalid float literal '".to_owned();
                    message.append(literal.as_str());
                    message.append("': invalid float literal");
                    Err(LexError { message, line: start_line, col: start_col })
                },
            }
        } else {
            match int_value(&literal) {
                Some(n) => Ok(Token::Int(n)),
                None => {
                    let mut message = "invalid int literal '".to_owned();
                    message.append(literal.as_str());
                    message.append("': number too large to fit in target type");
                    Err(LexError { message, line: start_line, col: start_col })
                },
            }
        }
    }

    /// Read the string literal whose opening quote comes next. A string whose
    /// quotes and backslashes have a backslash before them reads back, whatever
    /// comes after the closing quote, and that is left to be read.
    pub fn read_string(&mut self) -> (r: Result<Token, LexError>)
        requires
            old(self).wf(),
            old(self).offset() < old(self).text().len(),
        ensures
            final(self).wf(),
            final(self).text() == old(self).text(),
            final(self).offset() > old(self).offset(),
            r matches Ok(t) ==> t@ != SpecToken::Eof,
            match string_rest(
                old(self).text(),
                old(self).offset(),
                old(self).offset() + 1,
                Seq::empty(),
            ) {
                Ok((t, end)) => {
                    &&& r matches Ok(tok)
                    &&& tok@ == t
                    &&& final(self).offset() == end
                },
                Err(e) => {
                    &&& r matches Err(x)
                    &&& x@ == e
                    &&& final(self).offset() == string_fault_end(
                        old(self).text(),
                        old(self).offset() + 1,
                    )
                },
            },
            forall|v: Seq<char>, rest: Seq<char>|
                old(self).text().skip(old(self).offset()) == #[trigger] (lexer_laws::between_quotes(
                    v,
                ) + rest) ==> {
                    &&& r matches Ok(t)
                    &&& t@ == SpecToken::Str(v)
                    &&& final(self).text().skip(final(self).offset()) == rest
                },
    {
        proof {
            let text = self.source@;
            let open = self.pos as int;
            assert forall|v: Seq<char>, rest: Seq<char>|
                text.skip(open) == #[trigger] (lexer_laws::between_quotes(v) + rest) implies string_rest(
                text,
                open,
                open + 1,
                Seq::empty(),
            ) == SpecLexed::Ok((SpecToken::Str(v), text.len() - rest.len())) && text.skip(
                text.len() - rest.len(),
            ) == rest by {
                lexer_laws::read_between_quotes(text, open, v, rest);
            }
        }
        let (start_line, start_col) = (self.line, self.col);
        let ghost s = self.source@;
        let ghost open = self.pos as int;
        self.bump();
        let mut read = String::new();
        loop
            invariant
                self.wf(),
                self.source == old(self).source,
                s == self.source@,
                open == old(self).pos,
                open < self.pos,
                start_line == line_at(s, open),
                start_col == col_at(s, open),
                string_rest(s, open, open + 1, Seq::empty()) == string_rest(
                    s,
                    open,
                    self.pos as int,
                    read@,
                ),
                string_fault_end(s, open + 1) == string_fault_end(s, self.pos as int),
                forall|v: Seq<char>, rest: Seq<char>|
                    s.skip(open) == #[trigger] (lexer_laws::between_quotes(v) + rest)
                        ==> string_rest(s, open, open + 1, Seq::empty()) == SpecLexed::Ok(
                        (SpecToken::Str(v), s.len() - rest.len()),
                    ) && s.skip(s.len() - rest.len()) == rest,
            decreases s.len() - self.pos,
        {
            let next = self.bump();
            match next {
                None => {
                    return Err(
                        LexError {
                            message: "unterminated string literal".to_owned(),
                            line: start_line,
                            col: start_col,
                        },
                    );
                },
                Some('"') => {
                    return Ok(Token::Str(read));
                },
                Some('\\') => {
                    let escaped = self.bump();
                    match escaped {
                        Some('"') => read.push('"'),
                        Some('\\') => read.push('\\'),
                        Some('n') => read.push('\n'),
                        Some('t') => read.push('\t'),
                        Some('r') => read.push('\r'),
                        Some(other) => {
                            let mut message = "unknown escape sequence '\\".to_owned();
                            message.push(other);
                            message.append("' in string literal");
                            proof {
                                assert(message@ =~= "unknown escape sequence '\\"@ + seq![other]
                                    + "' in string literal"@);
                            }
                            return Err(self.make_error(message));
                        },
                        None => {
                            return Err(
                                LexError {
                                    message: "unterminated string literal".to_owned(),
                                    line: start_line,
                                    col: start_col,
                                },
                            );
                        },
                    }
                },
                Some(c) => read.push(c),
            }
        }
    }
}

/// The value of a run of digits, where it is in range.
pub(crate) fn int_value(digits: &String) -> (r: Option<i64>)
    requires
        forall|i: int| 0 <= i < digits@.len() ==> is_digit(#[trigger] digits@[i]),
    ensures
        r == (if digits_value(digits@) <= i64::MAX {
            Some(digits_value(digits@) as i64)
        } else {
            None
        }),
{
    let chars = text::chars_of(digits.as_str());
    let mut value: i64 = 0;
    let mut in_range = true;
    for i in 0..chars.len()
        invariant
            chars@ == digits@,
            forall|i: int| 0 <= i < digits@.len() ==> is_digit(#[trigger] digits@[i]),
            value >= 0,
            in_range ==> value == digits_value(chars@.take(i as int)),
            !in_range ==> digits_value(chars@.take(i as int)) > i64::MAX,
    {
        let d: i64 = (chars[i] as u32 - 48) as i64;
        proof {
            let next = chars@.take(i + 1);
            assert(next.drop_last() =~= chars@.take(i as int));
            assert(next.last() == chars@[i as int]);
        }
        if in_range {
            if value > (i64::MAX - d) / 10 {
                in_range = false;
            } else {
                value = value * 10 + d;
            }
        }
    }
    proof {
        assert(chars@.take(chars@.len() as int) =~= digits@);
    }
    if in_range {
        Some(value)
    } else {
        None
    }
}

/// `rest` after the tokens `before`.
pub open spec fn after(
    before: Seq<SpecSpanned>,
    rest: Result<Seq<SpecSpanned>, SpecLexError>,
) -> Result<Seq<SpecSpanned>, SpecLexError> {
    match rest {
        Ok(ts) => Ok(before + ts),
        Err(e) => Err(e),
    }
}

/// The tokens of `source`.
pub fn tokenize<N: Numbers>(source: &str, nums: &N) -> (r: Result<Vec<SpannedToken>, LexError>)
    requires
        source@.len() < usize::MAX,
    ensures
        forall|m: NumberModel| #[trigger]
            number::computes(*nums, m) ==> lexed_view(r) == tokens_of(m, source@),
        r matches Ok(ts) ==> ends_once(token::tokens_view(ts@)),
{
    Lexer::new(source).tokenize(nums)
}

} // verus!
