//! Tokens, with the position at which each starts.

#[allow(unused_imports)]
use crate::number::{self, Bits, NumberModel, Numbers};
use crate::text;
use vstd::prelude::*;
use vstd::std_specs::cmp::PartialEqSpecImpl;

verus! {

/// The kinds of tokens the lexer can produce.
#[derive(Debug)]
pub enum Token {
    /// Any identifier: variable names, class-like names (`t`), field names
    /// (`earnings`), and the words that the parser gives a meaning to.
    Ident(String),
    Int(i64),
    Float(Bits),
    Str(String),
    Equals,
    Plus,
    Minus,
    Star,
    Slash,
    Dot,
    Comma,
    LAngle,
    RAngle,
    LParen,
    RParen,
    LBrace,
    RBrace,
    LBracket,
    RBracket,
    Semicolon,
    EqEq,
    NotEq,
    LessEq,
    GreaterEq,
    Caret,
    /// End of input. The lexer always emits exactly one of these, at the end.
    Eof,
}

/// What a token is, apart from how its text is stored.
pub enum SpecToken {
    Ident(Seq<char>),
    Int(i64),
    Float(Bits),
    Str(Seq<char>),
    Equals,
    Plus,
    Minus,
    Star,
    Slash,
    Dot,
    Comma,
    LAngle,
    RAngle,
    LParen,
    RParen,
    LBrace,
    RBrace,
    LBracket,
    RBracket,
    Semicolon,
    EqEq,
    NotEq,
    LessEq,
    GreaterEq,
    Caret,
    Eof,
}

/// Whether two tokens are the same. Numbers are compared as numbers: a NaN is
/// not the same as itself, and the two zeros are.
pub open spec fn same_token(a: SpecToken, b: SpecToken) -> bool {
    match (a, b) {
        (SpecToken::Float(x), SpecToken::Float(y)) => number::equal(x, y),
        _ => a == b,
    }
}

impl View for Token {
    type V = SpecToken;

    open spec fn view(&self) -> SpecToken {
        match *self {
            Token::Ident(s) => SpecToken::Ident(s@),
            Token::Int(n) => SpecToken::Int(n),
            Token::Float(n) => SpecToken::Float(n),
            Token::Str(s) => SpecToken::Str(s@),
            Token::Equals => SpecToken::Equals,
            Token::Plus => SpecToken::Plus,
            Token::Minus => SpecToken::Minus,
            Token::Star => SpecToken::Star,
            Token::Slash => SpecToken::Slash,
            Token::Dot => SpecToken::Dot,
            Token::Comma => SpecToken::Comma,
            Token::LAngle => SpecToken::LAngle,
            Token::RAngle => SpecToken::RAngle,
            Token::LParen => SpecToken::LParen,
            Token::RParen => SpecToken::RParen,
            Token::LBrace => SpecToken::LBrace,
            Token::RBrace => SpecToken::RBrace,
            Token::LBracket => SpecToken::LBracket,
            Token::RBracket => SpecToken::RBracket,
            Token::Semicolon => SpecToken::Semicolon,
            Token::EqEq => SpecToken::EqEq,
            Token::NotEq => SpecToken::NotEq,
            Token::LessEq => SpecToken::LessEq,
            Token::GreaterEq => SpecToken::GreaterEq,
            Token::Caret => SpecToken::Caret,
            Token::Eof => SpecToken::Eof,
        }
    }
}

impl Clone for Token {
    fn clone(&self) -> (r: Token)
        ensures
            r == *self,
    {
        match self {
            Token::Ident(s) => Token::Ident(s.clone()),
            Token::Int(n) => Token::Int(*n),
            Token::Float(n) => Token::Float(*n),
            Token::Str(s) => Token::Str(s.clone()),
            Token::Equals => Token::Equals,
            Token::Plus => Token::Plus,
            Token::Minus => Token::Minus,
            Token::Star => Token::Star,
            Token::Slash => Token::Slash,
            Token::Dot => Token::Dot,
            Token::Comma => Token::Comma,
            Token::LAngle => Token::LAngle,
            Token::RAngle => Token::RAngle,
            Token::LParen => Token::LParen,
            Token::RParen => Token::RParen,
            Token::LBrace => Token::LBrace,
            Token::RBrace => Token::RBrace,
            Token::LBracket => Token::LBracket,
            Token::RBracket => Token::RBracket,
            Token::Semicolon => Token::Semicolon,
            Token::EqEq => Token::EqEq,
            Token::NotEq => Token::NotEq,
            Token::LessEq => Token::LessEq,
            Token::GreaterEq => Token::GreaterEq,
            Token::Caret => Token::Caret,
            Token::Eof => Token::Eof,
        }
    }
}

/// `s` between double quotes, with the escapes that `{:?}` uses.
pub uninterp spec fn quoted(s: Seq<char>) -> Seq<char>;

/// The `Debug` form of a `str`, which `format!` writes for `{:?}`. Which
/// characters it escapes is left to that form: the contract only says that
/// the result depends on the text alone.
#[verifier::external_body]
pub(crate) fn quote(s: &str) -> (r: String)
    ensures
        r@ == quoted(s@),
{
    format!("{s:?}")
}

/// How a token is named in an error message.
pub open spec fn token_text(m: NumberModel, t: SpecToken) -> Seq<char> {
    match t {
        SpecToken::Ident(s) => "identifier `"@ + s + "`"@,
        SpecToken::Int(n) => "int `"@ + text::decimal_int(n as int) + "`"@,
        SpecToken::Float(n) => "float `"@ + (m.show)(n) + "`"@,
        SpecToken::Str(s) => "string "@ + quoted(s),
        SpecToken::Equals => "`=`"@,
        SpecToken::Plus => "`+`"@,
        SpecToken::Minus => "`-`"@,
        SpecToken::Star => "`*`"@,
        SpecToken::Slash => "`/`"@,
        SpecToken::Dot => "`.`"@,
        SpecToken::Comma => "`,`"@,
        SpecToken::LAngle => "`<`"@,
        SpecToken::RAngle => "`>`"@,
        SpecToken::LParen => "`(`"@,
        SpecToken::RParen => "`)`"@,
        SpecToken::LBrace => "`{`"@,
        SpecToken::RBrace => "`}`"@,
        SpecToken::LBracket => "`[`"@,
        SpecToken::RBracket => "`]`"@,
        SpecToken::Semicolon => "`;`"@,
        SpecToken::EqEq => "`==`"@,
        SpecToken::NotEq => "`!=`"@,
        SpecToken::LessEq => "`<=`"@,
        SpecToken::GreaterEq => "`>=`"@,
        SpecToken::Caret => "`^`"@,
        SpecToken::Eof => "end of input"@,
    }
}

fn around(before: &str, middle: &str, after: &str) -> (r: String)
    ensures
        r@ == before@ + middle@ + after@,
{
    let mut s = before.to_owned();
    s.append(middle);
    s.append(after);
    s
}

impl Token {
    /// The token as an error message names it.
    pub fn to_text<N: Numbers>(&self, nums: &N) -> (r: String)
        ensures
            forall|m: NumberModel| #[trigger]
                number::computes(*nums, m) ==> r@ == token_text(m, self@),
    {
        match self {
            Token::Ident(s) => around("identifier `", s.as_str(), "`"),
            Token::Int(n) => around("int `", text::i64_text(*n).as_str(), "`"),
            Token::Float(n) => around("float `", nums.show(*n).as_str(), "`"),
            Token::Str(s) => {
                let mut r = "string ".to_owned();
                r.append(quote(s.as_str()).as_str());
                r
            },
            Token::Equals => "`=`".to_owned(),
            Token::Plus => "`+`".to_owned(),
            Token::Minus => "`-`".to_owned(),
            Token::Star => "`*`".to_owned(),
            Token::Slash => "`/`".to_owned(),
            Token::Dot => "`.`".to_owned(),
            Token::Comma => "`,`".to_owned(),
            Token::LAngle => "`<`".to_owned(),
            Token::RAngle => "`>`".to_owned(),
            Token::LParen => "`(`".to_owned(),
            Token::RParen => "`)`".to_owned(),
            Token::LBrace => "`{`".to_owned(),
            Token::RBrace => "`}`".to_owned(),
            Token::LBracket => "`[`".to_owned(),
            Token::RBracket => "`]`".to_owned(),
            Token::Semicolon => "`;`".to_owned(),
            Token::EqEq => "`==`".to_owned(),
            Token::NotEq => "`!=`".to_owned(),
            Token::LessEq => "`<=`".to_owned(),
            Token::GreaterEq => "`>=`".to_owned(),
            Token::Caret => "`^`".to_owned(),
            Token::Eof => "end of input".to_owned(),
        }
    }

    /// Whether this is the token `other`.
    pub fn is(&self, other: &Token) -> (r: bool)
        ensures
            r == same_token(self@, other@),
    {
        match (self, other) {
            (Token::Ident(a), Token::Ident(b)) => *a == *b,
            (Token::Int(a), Token::Int(b)) => *a == *b,
            (Token::Float(a), Token::Float(b)) => number::eq(*a, *b),
            (Token::Str(a), Token::Str(b)) => *a == *b,
            (Token::Equals, Token::Equals) => true,
            (Token::Plus, Token::Plus) => true,
            (Token::Minus, Token::Minus) => true,
            (Token::Star, Token::Star) => true,
            (Token::Slash, Token::Slash) => true,
            (Token::Dot, Token::Dot) => true,
            (Token::Comma, Token::Comma) => true,
            (Token::LAngle, Token::LAngle) => true,
            (Token::RAngle, Token::RAngle) => true,
            (Token::LParen, Token::LParen) => true,
            (Token::RParen, Token::RParen) => true,
            (Token::LBrace, Token::LBrace) => true,
            (Token::RBrace, Token::RBrace) => true,
            (Token::LBracket, Token::LBracket) => true,
            (Token::RBracket, Token::RBracket) => true,
            (Token::Semicolon, Token::Semicolon) => true,
            (Token::EqEq, Token::EqEq) => true,
            (Token::NotEq, Token::NotEq) => true,
            (Token::LessEq, Token::LessEq) => true,
            (Token::GreaterEq, Token::GreaterEq) => true,
            (Token::Caret, Token::Caret) => true,
            (Token::Eof, Token::Eof) => true,
            _ => false,
        }
    }
}

impl PartialEq for Token {
    fn eq(&self, other: &Token) -> (r: bool) {
        self.is(other)
    }
}

impl PartialEqSpecImpl for Token {
    open spec fn obeys_eq_spec() -> bool {
        true
    }

    open spec fn eq_spec(&self, other: &Token) -> bool {
        same_token(self@, other@)
    }
}

/// A token together with the position it started at (1-indexed line and
/// column), so that the parser can say where an error is.
#[derive(Debug)]
pub struct SpannedToken {
    pub token: Token,
    pub line: usize,
    pub col: usize,
}

/// What a spanned token is, apart from how its text is stored.
pub struct SpecSpanned {
    pub token: SpecToken,
    pub line: int,
    pub col: int,
}

impl View for SpannedToken {
    type V = SpecSpanned;

    open spec fn view(&self) -> SpecSpanned {
        SpecSpanned { token: self.token@, line: self.line as int, col: self.col as int }
    }
}

impl PartialEq for SpannedToken {
    fn eq(&self, other: &SpannedToken) -> (r: bool) {
        self.token.is(&other.token) && self.line == other.line && self.col == other.col
    }
}

impl PartialEqSpecImpl for SpannedToken {
    open spec fn obeys_eq_spec() -> bool {
        true
    }

    open spec fn eq_spec(&self, other: &SpannedToken) -> bool {
        same_token(self@.token, other@.token) && self@.line == other@.line && self@.col
            == other@.col
    }
}

impl Clone for SpannedToken {
    fn clone(&self) -> (r: SpannedToken)
        ensures
            r == *self,
    {
        SpannedToken { token: self.token.clone(), line: self.line, col: self.col }
    }
}

/// The views of a list of tokens.
pub open spec fn tokens_view(ts: Seq<SpannedToken>) -> Seq<SpecSpanned> {
    ts.map_values(|t: SpannedToken| t@)
}

} // verus!
