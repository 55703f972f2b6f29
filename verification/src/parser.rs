//! A recursive-descent parser over the tokens of [`crate::lexer`]. The
//! grammar is in [`crate::grammar`].
//!
//! `postfix` is the rule for data access: it turns `t<APPL>`,
//! `APPL.earnings` and `APPL.earnings <ttm>` into the same shape of tree, a
//! chain of field and subset accesses on a base expression. That `t<APPL>`
//! constructs a ticker is decided when the program runs.

pub use crate::ast::{BinOp, Expr, Program, Stmt};
#[allow(unused_imports)]
use crate::ast::{self, SpecExpr, SpecStmt};
#[allow(unused_imports)]
use crate::grammar::{self, Parsed, SpecParseError};
#[allow(unused_imports)]
use crate::number::{self, NumberModel, Numbers};
use crate::text;
#[allow(unused_imports)]
use crate::token::{self, SpannedToken, SpecSpanned, SpecToken, Token};
use vstd::prelude::*;

verus! {

#[derive(Debug, Clone, PartialEq)]
pub struct ParseError {
    pub message: String,
    pub line: usize,
    pub col: usize,
}

impl ParseError {
    /// The error as it is shown to the user.
    pub fn to_text(&self) -> (r: String)
        ensures
            r@ == "parse error at "@ + text::decimal(self.line as nat) + ":"@ + text::decimal(
                self.col as nat,
            ) + ": "@ + self.message@,
    {
        let mut s = "parse error at ".to_owned();
        s.append(text::usize_text(self.line).as_str());
        s.append(":");
        s.append(text::usize_text(self.col).as_str());
        s.append(": ");
        s.append(self.message.as_str());
        s
    }
}

pub struct Parser {
    pub tokens: Vec<SpannedToken>,
    pub pos: usize,
}

/// Whether the end of input is at `pos` or after it.
pub open spec fn eof_ahead(ts: Seq<SpecSpanned>, pos: int) -> bool
    decreases ts.len() - pos,
{
    &&& 0 <= pos < ts.len()
    &&& ts[pos].token == SpecToken::Eof || eof_ahead(ts, pos + 1)
}

/// A stream that ends with the end of input has it ahead everywhere.
pub proof fn lemma_eof_ahead(ts: Seq<SpecSpanned>, pos: int)
    requires
        0 <= pos < ts.len(),
        ts.last().token == SpecToken::Eof,
    ensures
        eof_ahead(ts, pos),
    decreases ts.len() - pos,
{
    if pos + 1 < ts.len() {
        lemma_eof_ahead(ts, pos + 1);
    }
}

/// `x` reports `e` on the tokens `ts`.
pub open spec fn reports(x: ParseError, e: SpecParseError, ts: Seq<SpecSpanned>) -> bool {
    &&& 0 <= e.at < ts.len()
    &&& x.message@ == e.message
    &&& x.line == ts[e.at].line
    &&& x.col == ts[e.at].col
}

/// An outcome `r` that left the parser at `end` is what the grammar gives.
pub open spec fn agree<V>(
    r: Result<V, ParseError>,
    s: Parsed<V>,
    ts: Seq<SpecSpanned>,
    end: int,
) -> bool {
    match (r, s) {
        (Ok(v), Ok((w, next))) => v == w && end == next,
        (Err(x), Err(e)) => reports(x, e, ts) && end == e.at,
        _ => false,
    }
}

pub open spec fn expr_out(r: Result<Expr, ParseError>) -> Result<SpecExpr, ParseError> {
    match r {
        Ok(e) => Ok(e@),
        Err(x) => Err(x),
    }
}

pub open spec fn exprs_out(r: Result<Vec<Expr>, ParseError>) -> Result<Seq<SpecExpr>, ParseError> {
    match r {
        Ok(es) => Ok(ast::exprs_view(es@)),
        Err(x) => Err(x),
    }
}

pub open spec fn name_out(r: Result<String, ParseError>) -> Result<Seq<char>, ParseError> {
    match r {
        Ok(s) => Ok(s@),
        Err(x) => Err(x),
    }
}

pub open spec fn names_out(r: Result<Vec<String>, ParseError>) -> Result<
    Seq<Seq<char>>,
    ParseError,
> {
    match r {
        Ok(names) => Ok(ast::names_view(names@)),
        Err(x) => Err(x),
    }
}

pub open spec fn stmt_out(r: Result<Stmt, ParseError>) -> Result<SpecStmt, ParseError> {
    match r {
        Ok(s) => Ok(s@),
        Err(x) => Err(x),
    }
}

pub open spec fn stmts_out(r: Result<Vec<Stmt>, ParseError>) -> Result<Seq<SpecStmt>, ParseError> {
    match r {
        Ok(ss) => Ok(ast::stmts_view(ss@)),
        Err(x) => Err(x),
    }
}

impl Parser {
    /// The tokens that are parsed.
    pub open spec fn ts(&self) -> Seq<SpecSpanned> {
        token::tokens_view(self.tokens@)
    }

    /// The end of input has not been passed.
    pub open spec fn wf(&self) -> bool {
        eof_ahead(self.ts(), self.pos as int)
    }

    /// Parsing only moves forward, and by at least one token where it
    /// succeeds.
    spec fn moved(self, before: Parser, ok: bool) -> bool {
        &&& self.tokens == before.tokens
        &&& self.pos < self.tokens@.len()
        &&& ok ==> self.wf() && self.pos > before.pos
    }

    /// A parser at the start of the tokens. They are expected to end with the
    /// end of input.
    pub fn new(tokens: Vec<SpannedToken>) -> (r: Self)
        ensures
            r.tokens == tokens,
            r.pos == 0,
            r.ts().len() > 0 && r.ts().last().token == SpecToken::Eof ==> r.wf(),
    {
        let parser = Parser { tokens, pos: 0 };
        proof {
            let ts = parser.ts();
            if ts.len() > 0 && ts.last().token == SpecToken::Eof {
                lemma_eof_ahead(ts, 0);
            }
        }
        parser
    }

    /// Parse the statements up to the end of input.
    pub fn parse_program<N: Numbers>(&mut self, nums: &N) -> (r: Result<Program, ParseError>)
        requires
            old(self).wf(),
        ensures
            final(self).tokens == old(self).tokens,
            forall|m: NumberModel| #[trigger]
                number::computes(*nums, m) ==> agree(
                    stmts_out(r),
                    grammar::program_at(m, old(self).ts(), old(self).pos as int, Seq::empty()),
                    old(self).ts(),
                    final(self).pos as int,
                ),
    {
        let mut stmts: Vec<Stmt> = Vec::new();
        let ghost ts = self.ts();
        let ghost start = self.pos as int;
        proof {
            assert(ast::stmts_view(stmts@) =~= Seq::<SpecStmt>::empty());
        }
        while !self.at_eof()
            invariant
                self.wf(),
                self.tokens == old(self).tokens,
                ts == self.ts(),
                start == old(self).pos,
                forall|m: NumberModel| #[trigger]
                    number::computes(*nums, m) ==> grammar::program_at(m, ts, start, Seq::empty())
                        == grammar::program_at(
                        m,
                        ts,
                        self.pos as int,
                        ast::stmts_view(stmts@),
                    ),
            decreases ts.len() - self.pos,
        {
            let ghost before = ast::stmts_view(stmts@);
            let stmt = self.parse_stmt(nums)?;
            self.expect_stmt_end(nums, &stmt)?;
            let ghost view = stmt@;
            stmts.push(stmt);
            proof {
                assert(ast::stmts_view(stmts@) =~= before.push(view));
            }
        }
        Ok(stmts)
    }

    // ---- statements ----------------------------------------------------

    fn parse_stmt<N: Numbers>(&mut self, nums: &N) -> (r: Result<Stmt, ParseError>)
        requires
            old(self).wf(),
        ensures
            final(self).moved(*old(self), r is Ok),
            forall|m: NumberModel| #[trigger]
                number::computes(*nums, m) ==> agree(
                    stmt_out(r),
                    grammar::stmt_at(m, old(self).ts(), old(self).pos as int),
                    old(self).ts(),
                    final(self).pos as int,
                ),
        decreases old(self).tokens@.len() - old(self).pos, 9int,
    {
        if self.at_word(0, "print") {
            self.advance();
            self.expect(nums, &Token::LParen)?;
            let args = self.parse_args(nums)?;
            return Ok(Stmt::Print(args));
        }
        if self.at_word(0, "fn") {
            return self.parse_fn_def(nums);
        }
        if self.at_word(0, "return") {
            self.advance();
            let expr = self.parse_expr(nums)?;
            return Ok(Stmt::Return(expr));
        }
        if self.at_word(0, "while") && !self.at(1, &Token::Equals) {
            self.advance();
            let condition = self.parse_expr(nums)?;
            self.expect(nums, &Token::LBrace)?;
            let body = self.parse_block(nums)?;
            return Ok(Stmt::While { condition, body });
        }
        if self.at_word(0, "mut") && self.at_ident(1) {
            self.advance();
            return self.parse_assign(nums, true);
        }
        self.parse_assign(nums, false)
    }

    fn parse_assign<N: Numbers>(&mut self, nums: &N, mutable: bool) -> (r: Result<
        Stmt,
        ParseError,
    >)
        requires
            old(self).wf(),
        ensures
            final(self).moved(*old(self), r is Ok),
            forall|m: NumberModel| #[trigger]
                number::computes(*nums, m) ==> agree(
                    stmt_out(r),
                    grammar::assign_at(m, old(self).ts(), old(self).pos as int, mutable),
                    old(self).ts(),
                    final(self).pos as int,
                ),
        decreases old(self).tokens@.len() - old(self).pos, 7int,
    {
        let name = self.expect_ident(nums)?;
        self.expect(nums, &Token::Equals)?;
        let value = self.parse_expr(nums)?;
        Ok(Stmt::Assign { name, value, mutable })
    }

    /// `fn name(p1, p2) { stmt* }`: the body is a list of statements and must
    /// end with a `return`.
    fn parse_fn_def<N: Numbers>(&mut self, nums: &N) -> (r: Result<Stmt, ParseError>)
        requires
            old(self).wf(),
            grammar::word_at(old(self).ts(), old(self).pos as int, "fn"@),
        ensures
            final(self).moved(*old(self), r is Ok),
            forall|m: NumberModel| #[trigger]
                number::computes(*nums, m) ==> agree(
                    stmt_out(r),
                    grammar::fn_at(m, old(self).ts(), old(self).pos as int),
                    old(self).ts(),
                    final(self).pos as int,
                ),
        decreases old(self).tokens@.len() - old(self).pos, 8int,
    {
        self.advance();
        let name = self.expect_ident(nums)?;
        self.expect(nums, &Token::LParen)?;
        let params = self.parse_params(nums)?;
        self.expect(nums, &Token::LBrace)?;
        let body = self.parse_block(nums)?;
        let has_return = match body.last() {
            Some(Stmt::Return(_)) => true,
            _ => false,
        };
        if !has_return {
            let mut message = "function `".to_owned();
            message.append(name.as_str());
            message.append("` must end with a `return` statement");
            return Err(self.error(message));
        }
        Ok(Stmt::FnDef { name, params, body })
    }

    /// Parameters, up to and with the closing parenthesis.
    fn parse_params<N: Numbers>(&mut self, nums: &N) -> (r: Result<Vec<String>, ParseError>)
        requires
            old(self).wf(),
        ensures
            final(self).moved(*old(self), r is Ok),
            forall|m: NumberModel| #[trigger]
                number::computes(*nums, m) ==> agree(
                    names_out(r),
                    grammar::params_at(m, old(self).ts(), old(self).pos as int),
                    old(self).ts(),
                    final(self).pos as int,
                ),
    {
        let mut params: Vec<String> = Vec::new();
        let ghost ts = self.ts();
        let ghost start = self.pos as int;
        proof {
            assert(ast::names_view(params@) =~= Seq::<Seq<char>>::empty());
        }
        if self.at(0, &Token::RParen) {
            self.advance();
            return Ok(params);
        }
        loop
            invariant_except_break
                forall|m: NumberModel| #[trigger]
                    number::computes(*nums, m) ==> grammar::names_at(m, ts, start, Seq::empty())
                        == grammar::names_at(m, ts, self.pos as int, ast::names_view(params@)),
            invariant
                self.wf(),
                self.tokens == old(self).tokens,
                ts == self.ts(),
                start == old(self).pos,
                start <= self.pos,
                ts[start].token != SpecToken::RParen,
            ensures
                self.wf(),
                self.tokens == old(self).tokens,
                start < self.pos,
                forall|m: NumberModel| #[trigger]
                    number::computes(*nums, m) ==> grammar::names_at(m, ts, start, Seq::empty())
                        == Ok::<(Seq<Seq<char>>, int), SpecParseError>(
                        (ast::names_view(params@), self.pos as int),
                    ),
            decreases ts.len() - self.pos,
        {
            let ghost before = ast::names_view(params@);
            let name = self.expect_ident(nums)?;
            let ghost view = name@;
            params.push(name);
            proof {
                assert(ast::names_view(params@) =~= before.push(view));
            }
            if self.at(0, &Token::Comma) {
                self.advance();
            } else {
                break;
            }
        }
        self.expect(nums, &Token::RParen)?;
        Ok(params)
    }

    /// Statements, up to and with the closing brace.
    fn parse_block<N: Numbers>(&mut self, nums: &N) -> (r: Result<Vec<Stmt>, ParseError>)
        requires
            old(self).wf(),
        ensures
            final(self).moved(*old(self), r is Ok),
            forall|m: NumberModel| #[trigger]
                number::computes(*nums, m) ==> agree(
                    stmts_out(r),
                    grammar::block_at(m, old(self).ts(), old(self).pos as int, Seq::empty()),
                    old(self).ts(),
                    final(self).pos as int,
                ),
        decreases old(self).tokens@.len() - old(self).pos, 10int,
    {
        let mut body: Vec<Stmt> = Vec::new();
        let ghost ts = self.ts();
        let ghost start = self.pos as int;
        proof {
            assert(ast::stmts_view(body@) =~= Seq::<SpecStmt>::empty());
        }
        while !self.at(0, &Token::RBrace)
            invariant
                self.wf(),
                self.tokens == old(self).tokens,
                ts == self.ts(),
                start == old(self).pos,
                start <= self.pos,
                forall|m: NumberModel| #[trigger]
                    number::computes(*nums, m) ==> grammar::block_at(m, ts, start, Seq::empty())
                        == grammar::block_at(m, ts, self.pos as int, ast::stmts_view(body@)),
            decreases ts.len() - self.pos,
        {
            let ghost before = ast::stmts_view(body@);
            let stmt = self.parse_stmt(nums)?;
            self.expect_stmt_end(nums, &stmt)?;
            let ghost view = stmt@;
            body.push(stmt);
            proof {
                assert(ast::stmts_view(body@) =~= before.push(view));
            }
        }
        self.advance();
        Ok(body)
    }

    // ---- expressions ---------------------------------------------------

    fn parse_expr<N: Numbers>(&mut self, nums: &N) -> (r: Result<Expr, ParseError>)
        requires
            old(self).wf(),
        ensures
            final(self).moved(*old(self), r is Ok),
            forall|m: NumberModel| #[trigger]
                number::computes(*nums, m) ==> agree(
                    expr_out(r),
                    grammar::expr_at(m, old(self).ts(), old(self).pos as int),
                    old(self).ts(),
                    final(self).pos as int,
                ),
        decreases old(self).tokens@.len() - old(self).pos, 6int,
    {
        let ghost ts = self.ts();
        let ghost start = self.pos as int;
        let mut lhs = self.parse_term(nums)?;
        loop
            invariant
                self.wf(),
                self.tokens == old(self).tokens,
                ts == self.ts(),
                start == old(self).pos,
                start < self.pos,
                forall|m: NumberModel| #[trigger]
                    number::computes(*nums, m) ==> grammar::expr_at(m, ts, start)
                        == grammar::sum_rest(m, ts, self.pos as int, lhs@),
            decreases ts.len() - self.pos,
        {
            let op = match self.current().token {
                Token::Plus => BinOp::Add,
                Token::Minus => BinOp::Sub,
                Token::LAngle => BinOp::Lt,
                Token::RAngle => BinOp::Gt,
                Token::LessEq => BinOp::Le,
                Token::GreaterEq => BinOp::Ge,
                Token::EqEq => BinOp::Eq,
                Token::NotEq => BinOp::Ne,
                _ => {
                    return Ok(lhs);
                },
            };
            self.advance();
            let rhs = self.parse_term(nums)?;
            lhs = Expr::Binary { op, lhs: Box::new(lhs), rhs: Box::new(rhs) };
        }
    }

    fn parse_term<N: Numbers>(&mut self, nums: &N) -> (r: Result<Expr, ParseError>)
        requires
            old(self).wf(),
        ensures
            final(self).moved(*old(self), r is Ok),
            forall|m: NumberModel| #[trigger]
                number::computes(*nums, m) ==> agree(
                    expr_out(r),
                    grammar::term_at(m, old(self).ts(), old(self).pos as int),
                    old(self).ts(),
                    final(self).pos as int,
                ),
        decreases old(self).tokens@.len() - old(self).pos, 5int,
    {
        let ghost ts = self.ts();
        let ghost start = self.pos as int;
        let mut lhs = self.parse_unary(nums)?;
        loop
            invariant
                self.wf(),
                self.tokens == old(self).tokens,
                ts == self.ts(),
                start == old(self).pos,
                start < self.pos,
                forall|m: NumberModel| #[trigger]
                    number::computes(*nums, m) ==> grammar::term_at(m, ts, start)
                        == grammar::product_rest(m, ts, self.pos as int, lhs@),
            decreases ts.len() - self.pos,
        {
            let op = match self.current().token {
                Token::Star => BinOp::Mul,
                Token::Slash => BinOp::Div,
                _ => {
                    return Ok(lhs);
                },
            };
            self.advance();
            let rhs = self.parse_unary(nums)?;
            lhs = Expr::Binary { op, lhs: Box::new(lhs), rhs: Box::new(rhs) };
        }
    }

    fn parse_unary<N: Numbers>(&mut self, nums: &N) -> (r: Result<Expr, ParseError>)
        requires
            old(self).wf(),
        ensures
            final(self).moved(*old(self), r is Ok),
            forall|m: NumberModel| #[trigger]
                number::computes(*nums, m) ==> agree(
                    expr_out(r),
                    grammar::unary_at(m, old(self).ts(), old(self).pos as int),
                    old(self).ts(),
                    final(self).pos as int,
                ),
        decreases old(self).tokens@.len() - old(self).pos, 4int,
    {
        if self.at(0, &Token::Minus) {
            self.advance();
            let operand = self.parse_unary(nums)?;
            let zero = Expr::Int(0);
            proof {
                assert(zero@ == SpecExpr::Int(0));
            }
            return Ok(
                Expr::Binary { op: BinOp::Sub, lhs: Box::new(zero), rhs: Box::new(operand) },
            );
        }
        self.parse_power(nums)
    }

    fn parse_power<N: Numbers>(&mut self, nums: &N) -> (r: Result<Expr, ParseError>)
        requires
            old(self).wf(),
        ensures
            final(self).moved(*old(self), r is Ok),
            forall|m: NumberModel| #[trigger]
                number::computes(*nums, m) ==> agree(
                    expr_out(r),
                    grammar::power_at(m, old(self).ts(), old(self).pos as int),
                    old(self).ts(),
                    final(self).pos as int,
                ),
        decreases old(self).tokens@.len() - old(self).pos, 3int,
    {
        let lhs = self.parse_postfix(nums)?;
        if self.at(0, &Token::Caret) {
            self.advance();
            let rhs = self.parse_power(nums)?;
            return Ok(
                Expr::Binary { op: BinOp::Power, lhs: Box::new(lhs), rhs: Box::new(rhs) },
            );
        }
        Ok(lhs)
    }

    #[verifier::rlimit(50)]
    fn parse_postfix<N: Numbers>(&mut self, nums: &N) -> (r: Result<Expr, ParseError>)
        requires
            old(self).wf(),
        ensures
            final(self).moved(*old(self), r is Ok),
            forall|m: NumberModel| #[trigger]
                number::computes(*nums, m) ==> agree(
                    expr_out(r),
                    grammar::postfix_at(m, old(self).ts(), old(self).pos as int),
                    old(self).ts(),
                    final(self).pos as int,
                ),
        decreases old(self).tokens@.len() - old(self).pos, 2int,
    {
        let ghost ts = self.ts();
        let ghost start = self.pos as int;
        let mut expr = self.parse_primary(nums)?;
        loop
            invariant
                self.wf(),
                self.tokens == old(self).tokens,
                ts == self.ts(),
                start == old(self).pos,
                start < self.pos,
                forall|m: NumberModel| #[trigger]
                    number::computes(*nums, m) ==> grammar::postfix_at(m, ts, start)
                        == grammar::access_rest(m, ts, self.pos as int, expr@),
            decreases ts.len() - self.pos,
        {
            match self.current().token {
                Token::Dot => {
                    self.advance();
                    let name = self.expect_ident(nums)?;
                    expr = Expr::Field { base: Box::new(expr), name };
                },
                Token::LAngle => {
                    // A subset such as `<ttm>`, or a less-than such as `< 300`.
                    let is_subset = self.tokens.len() > 2 && self.pos < self.tokens.len() - 2
                        && self.at_ident(1) && self.at(2, &Token::RAngle);
                    if !is_subset {
                        return Ok(expr);
                    }
                    self.advance();
                    let name = self.expect_ident(nums)?;
                    self.expect(nums, &Token::RAngle)?;
                    expr = Expr::Subset { base: Box::new(expr), name };
                },
                _ => {
                    return Ok(expr);
                },
            }
        }
    }

    #[verifier::rlimit(50)]
    fn parse_primary<N: Numbers>(&mut self, nums: &N) -> (r: Result<Expr, ParseError>)
        requires
            old(self).wf(),
        ensures
            final(self).moved(*old(self), r is Ok),
            forall|m: NumberModel| #[trigger]
                number::computes(*nums, m) ==> agree(
                    expr_out(r),
                    grammar::primary_at(m, old(self).ts(), old(self).pos as int),
                    old(self).ts(),
                    final(self).pos as int,
                ),
        decreases old(self).tokens@.len() - old(self).pos, 1int,
    {
        let tok = self.current().token.clone();
        match tok {
            Token::Int(n) => {
                self.advance();
                Ok(Expr::Int(n))
            },
            Token::Float(n) => {
                self.advance();
                Ok(Expr::Float(n))
            },
            Token::Str(s) => {
                self.advance();
                Ok(Expr::Str(s))
            },
            Token::LParen => {
                self.advance();
                let e = self.parse_expr(nums)?;
                self.expect(nums, &Token::RParen)?;
                Ok(e)
            },
            Token::Ident(name) => {
                if text::same_text(name.as_str(), "if") {
                    self.advance();
                    return self.parse_if(nums);
                }
                self.advance();
                if self.at(0, &Token::LParen) {
                    self.advance();
                    let args = self.parse_args(nums)?;
                    return Ok(Expr::Call { name, args });
                }
                Ok(Expr::Var(name))
            },
            Token::LBracket => {
                if self.at_word(1, "unsafe") && self.at(2, &Token::RBracket) {
                    self.advance();
                    self.advance();
                    self.advance();
                    self.expect(nums, &Token::LBrace)?;
                    let body = self.parse_block(nums)?;
                    return Ok(Expr::Unsafe { body });
                }
                Err(self.missing(nums, "an expression"))
            },
            _ => Err(self.missing(nums, "an expression")),
        }
    }

    /// The rest of a conditional, after its `if`.
    fn parse_if<N: Numbers>(&mut self, nums: &N) -> (r: Result<Expr, ParseError>)
        requires
            old(self).wf(),
        ensures
            final(self).moved(*old(self), r is Ok),
            forall|m: NumberModel| #[trigger]
                number::computes(*nums, m) ==> agree(
                    expr_out(r),
                    grammar::if_at(m, old(self).ts(), old(self).pos as int),
                    old(self).ts(),
                    final(self).pos as int,
                ),
        decreases old(self).tokens@.len() - old(self).pos, 7int,
    {
        let condition = self.parse_expr(nums)?;
        let then_branch = self.parse_braced(nums)?;
        let has_else = self.at_word(0, "else");
        self.advance();
        if !has_else {
            return Err(self.error("expected 'else' after if block".to_owned()));
        }
        let else_branch = self.parse_braced(nums)?;
        Ok(
            Expr::If {
                condition: Box::new(condition),
                then_branch: Box::new(then_branch),
                else_branch: Box::new(else_branch),
            },
        )
    }

    /// An expression between braces.
    fn parse_braced<N: Numbers>(&mut self, nums: &N) -> (r: Result<Expr, ParseError>)
        requires
            old(self).wf(),
        ensures
            final(self).moved(*old(self), r is Ok),
            forall|m: NumberModel| #[trigger]
                number::computes(*nums, m) ==> agree(
                    expr_out(r),
                    grammar::braced_at(m, old(self).ts(), old(self).pos as int),
                    old(self).ts(),
                    final(self).pos as int,
                ),
        decreases old(self).tokens@.len() - old(self).pos, 0int,
    {
        self.expect(nums, &Token::LBrace)?;
        let e = self.parse_expr(nums)?;
        self.expect(nums, &Token::RBrace)?;
        Ok(e)
    }

    /// Arguments, up to and with the closing parenthesis.
    fn parse_args<N: Numbers>(&mut self, nums: &N) -> (r: Result<Vec<Expr>, ParseError>)
        requires
            old(self).wf(),
        ensures
            final(self).moved(*old(self), r is Ok),
            forall|m: NumberModel| #[trigger]
                number::computes(*nums, m) ==> agree(
                    exprs_out(r),
                    grammar::args_at(m, old(self).ts(), old(self).pos as int),
                    old(self).ts(),
                    final(self).pos as int,
                ),
        decreases old(self).tokens@.len() - old(self).pos, 8int,
    {
        let mut args: Vec<Expr> = Vec::new();
        let ghost ts = self.ts();
        let ghost start = self.pos as int;
        proof {
            assert(ast::exprs_view(args@) =~= Seq::<SpecExpr>::empty());
        }
        if self.at(0, &Token::RParen) {
            self.advance();
            return Ok(args);
        }
        loop
            invariant_except_break
                forall|m: NumberModel| #[trigger]
                    number::computes(*nums, m) ==> grammar::exprs_at(m, ts, start, Seq::empty())
                        == grammar::exprs_at(m, ts, self.pos as int, ast::exprs_view(args@)),
            invariant
                self.wf(),
                self.tokens == old(self).tokens,
                ts == self.ts(),
                start == old(self).pos,
                start <= self.pos,
                ts[start].token != SpecToken::RParen,
            ensures
                self.wf(),
                self.tokens == old(self).tokens,
                start < self.pos,
                forall|m: NumberModel| #[trigger]
                    number::computes(*nums, m) ==> grammar::exprs_at(m, ts, start, Seq::empty())
                        == Ok::<(Seq<SpecExpr>, int), SpecParseError>(
                        (ast::exprs_view(args@), self.pos as int),
                    ),
            decreases ts.len() - self.pos,
        {
            let ghost before = ast::exprs_view(args@);
            let e = self.parse_expr(nums)?;
            let ghost view = e@;
            args.push(e);
            proof {
                assert(ast::exprs_view(args@) =~= before.push(view));
            }
            if self.at(0, &Token::Comma) {
                self.advance();
            } else {
                break;
            }
        }
        self.expect(nums, &Token::RParen)?;
        Ok(args)
    }

    // ---- token-stream helpers --------------------------------------------

    fn current(&self) -> (r: &SpannedToken)
        requires
            self.pos < self.tokens@.len(),
        ensures
            *r == self.tokens@[self.pos as int],
            r@ == self.ts()[self.pos as int],
    {
        &self.tokens[self.pos]
    }

    /// Read the current token. The last token is not passed.
    fn advance(&mut self) -> (r: SpannedToken)
        requires
            old(self).pos < old(self).tokens@.len(),
        ensures
            final(self).tokens == old(self).tokens,
            final(self).pos < final(self).tokens@.len(),
            r@ == old(self).ts()[old(self).pos as int],
            final(self).pos == (if old(self).pos + 1 < old(self).tokens@.len() {
                old(self).pos + 1
            } else {
                old(self).pos as int
            }),
            old(self).wf() && grammar::peek(old(self).ts(), old(self).pos as int)
                != SpecToken::Eof ==> final(self).wf() && final(self).pos == old(self).pos + 1,
    {
        let tok = self.tokens[self.pos].clone();
        proof {
            if self.wf() && self.ts()[self.pos as int].token != SpecToken::Eof {
                assert(eof_ahead(self.ts(), self.pos + 1));
            }
        }
        if self.pos < self.tokens.len() - 1 {
            self.pos = self.pos + 1;
        }
        tok
    }

    fn at_eof(&self) -> (r: bool)
        requires
            self.wf(),
        ensures
            r == (grammar::peek(self.ts(), self.pos as int) == SpecToken::Eof),
    {
        self.at(0, &Token::Eof)
    }

    /// Whether the token `ahead` places on is `want`.
    fn at(&self, ahead: usize, want: &Token) -> (r: bool)
        requires
            self.wf(),
            ahead > 0 ==> want@ != SpecToken::Eof,
            !(want@ is Float),
        ensures
            r == (grammar::peek(self.ts(), self.pos + ahead) == want@),
    {
        if ahead < self.tokens.len() - self.pos {
            self.tokens[self.pos + ahead].token.is(want)
        } else {
            false
        }
    }

    /// Whether the token `ahead` places on is an identifier.
    fn at_ident(&self, ahead: usize) -> (r: bool)
        requires
            self.wf(),
        ensures
            r == (grammar::peek(self.ts(), self.pos + ahead) is Ident),
    {
        if ahead < self.tokens.len() - self.pos {
            match self.tokens[self.pos + ahead].token {
                Token::Ident(_) => true,
                _ => false,
            }
        } else {
            false
        }
    }

    /// Whether the token `ahead` places on is the identifier `word`.
    fn at_word(&self, ahead: usize, word: &str) -> (r: bool)
        requires
            self.wf(),
        ensures
            r == grammar::word_at(self.ts(), self.pos + ahead, word@),
    {
        if ahead < self.tokens.len() - self.pos {
            match &self.tokens[self.pos + ahead].token {
                Token::Ident(s) => text::same_text(s.as_str(), word),
                _ => false,
            }
        } else {
            false
        }
    }

    fn expect<N: Numbers>(&mut self, nums: &N, want: &Token) -> (r: Result<
        SpannedToken,
        ParseError,
    >)
        requires
            old(self).wf(),
            want@ != SpecToken::Eof,
            !(want@ is Float),
        ensures
            final(self).moved(*old(self), r is Ok),
            forall|m: NumberModel| #[trigger]
                number::computes(*nums, m) ==> match grammar::expect(
                    m,
                    old(self).ts(),
                    old(self).pos as int,
                    want@,
                ) {
                    Ok(next) => r is Ok && final(self).pos == next,
                    Err(e) => r matches Err(x) && reports(x, e, old(self).ts())
                        && final(self).pos == e.at,
                },
            grammar::peek(old(self).ts(), old(self).pos as int) == want@ ==> {
                &&& r is Ok
                &&& final(self).pos == old(self).pos + 1
            },
    {
        if self.current().token.is(want) {
            Ok(self.advance())
        } else {
            let wanted = want.to_text(nums);
            Err(self.missing(nums, wanted.as_str()))
        }
    }

    fn expect_ident<N: Numbers>(&mut self, nums: &N) -> (r: Result<String, ParseError>)
        requires
            old(self).wf(),
        ensures
            final(self).moved(*old(self), r is Ok),
            forall|m: NumberModel| #[trigger]
                number::computes(*nums, m) ==> agree(
                    name_out(r),
                    grammar::name_at(m, old(self).ts(), old(self).pos as int),
                    old(self).ts(),
                    final(self).pos as int,
                ),
            grammar::peek(old(self).ts(), old(self).pos as int) matches SpecToken::Ident(s) ==> {
                &&& r matches Ok(name)
                &&& name@ == s
                &&& final(self).pos == old(self).pos + 1
            },
    {
        match self.current().token.clone() {
            Token::Ident(name) => {
                self.advance();
                Ok(name)
            },
            _ => Err(self.missing(nums, "an identifier")),
        }
    }

    /// A statement ends at `;`, but for those that end with a closing brace.
    fn expect_stmt_end<N: Numbers>(&mut self, nums: &N, stmt: &Stmt) -> (r: Result<(), ParseError>)
        requires
            old(self).wf(),
        ensures
            final(self).tokens == old(self).tokens,
            r is Ok ==> final(self).wf() && final(self).pos >= old(self).pos,
            forall|m: NumberModel| #[trigger]
                number::computes(*nums, m) ==> match grammar::stmt_end(
                    m,
                    old(self).ts(),
                    old(self).pos as int,
                    stmt@,
                ) {
                    Ok(next) => r is Ok && final(self).pos == next,
                    Err(e) => r matches Err(x) && reports(x, e, old(self).ts())
                        && final(self).pos == e.at,
                },
            final(self).pos < final(self).tokens@.len(),
    {
        match stmt {
            Stmt::FnDef { .. } => Ok(()),
            Stmt::While { .. } => Ok(()),
            _ => {
                self.expect(nums, &Token::Semicolon)?;
                Ok(())
            },
        }
    }

    /// An error at the current token.
    fn error(&self, message: String) -> (r: ParseError)
        requires
            self.pos < self.tokens@.len(),
        ensures
            r.message == message,
            r.line == self.ts()[self.pos as int].line,
            r.col == self.ts()[self.pos as int].col,
    {
        let tok = self.current();
        ParseError { message, line: tok.line, col: tok.col }
    }

    /// The error that `want` is missing here.
    fn missing<N: Numbers>(&self, nums: &N, want: &str) -> (r: ParseError)
        requires
            self.pos < self.tokens@.len(),
        ensures
            forall|m: NumberModel| #[trigger]
                number::computes(*nums, m) ==> reports(
                    r,
                    grammar::missing(m, self.ts(), self.pos as int, want@),
                    self.ts(),
                ),
    {
        let mut message = "expected ".to_owned();
        message.append(want);
        message.append(", found ");
        message.append(self.current().token.to_text(nums).as_str());
        self.error(message)
    }
}

} // verus!
