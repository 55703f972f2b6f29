//! The grammar, as a function from a list of tokens and a place in it to the
//! tree that starts there and the place after it.
//!
//! ```text
//! program  := stmt* EOF
//! stmt     := "print" "(" (expr ("," expr)*)? ")" ";"
//!           | "fn" IDENT "(" (IDENT ("," IDENT)*)? ")" "{" stmt* "}"
//!           | "return" expr ";"
//!           | "while" expr "{" stmt* "}"
//!           | "mut"? IDENT "=" expr ";"
//!
//! expr     := term (("+" | "-" | "<" | ">" | "<=" | ">=" | "==" | "!=") term)*
//! term     := unary (("*" | "/") unary)*
//! unary    := "-" unary | power
//! power    := postfix ("^" power)?
//! postfix  := primary ("." IDENT | "<" IDENT ">")*
//! primary  := INT | FLOAT | STRING | IDENT
//!           | IDENT "(" (expr ("," expr)*)? ")"
//!           | "if" expr "{" expr "}" "else" "{" expr "}"
//!           | "[" "unsafe" "]" "{" stmt* "}"
//!           | "(" expr ")"
//! ```
//!
//! The body of a `fn` must end with a `return`. The words `mut` and `while`
//! are ordinary identifiers where they are assigned to.

use crate::ast::{BinOp, SpecExpr, SpecStmt};
use crate::number::NumberModel;
use crate::token::{self, SpecSpanned, SpecToken};
use vstd::prelude::*;

verus! {

/// A parse error: what is wrong, and the index of the token at which that is
/// found.
pub struct SpecParseError {
    pub message: Seq<char>,
    pub at: int,
}

/// A tree with the place after it, or an error.
pub type Parsed<T> = Result<(T, int), SpecParseError>;

/// The token at `pos`. After the last token comes the end of input.
pub open spec fn peek(ts: Seq<SpecSpanned>, pos: int) -> SpecToken {
    if 0 <= pos < ts.len() {
        ts[pos].token
    } else {
        SpecToken::Eof
    }
}

/// Whether the identifier `word` is at `pos`.
pub open spec fn word_at(ts: Seq<SpecSpanned>, pos: int, word: Seq<char>) -> bool {
    peek(ts, pos) == SpecToken::Ident(word)
}

/// `want` is missing at `pos`.
pub open spec fn missing(
    m: NumberModel,
    ts: Seq<SpecSpanned>,
    pos: int,
    want: Seq<char>,
) -> SpecParseError {
    SpecParseError {
        message: "expected "@ + want + ", found "@ + token::token_text(m, peek(ts, pos)),
        at: pos,
    }
}

/// The place after the token `want`.
pub open spec fn expect(
    m: NumberModel,
    ts: Seq<SpecSpanned>,
    pos: int,
    want: SpecToken,
) -> Result<int, SpecParseError> {
    if peek(ts, pos) == want {
        Ok(pos + 1)
    } else {
        Err(missing(m, ts, pos, token::token_text(m, want)))
    }
}

/// The identifier at `pos`.
pub open spec fn name_at(m: NumberModel, ts: Seq<SpecSpanned>, pos: int) -> Parsed<Seq<char>> {
    match peek(ts, pos) {
        SpecToken::Ident(s) => Ok((s, pos + 1)),
        _ => Err(missing(m, ts, pos, "an identifier"@)),
    }
}

/// The operators between terms.
pub open spec fn sum_op(t: SpecToken) -> Option<BinOp> {
    match t {
        SpecToken::Plus => Some(BinOp::Add),
        SpecToken::Minus => Some(BinOp::Sub),
        SpecToken::LAngle => Some(BinOp::Lt),
        SpecToken::RAngle => Some(BinOp::Gt),
        SpecToken::LessEq => Some(BinOp::Le),
        SpecToken::GreaterEq => Some(BinOp::Ge),
        SpecToken::EqEq => Some(BinOp::Eq),
        SpecToken::NotEq => Some(BinOp::Ne),
        _ => None,
    }
}

/// The operators between factors.
pub open spec fn product_op(t: SpecToken) -> Option<BinOp> {
    match t {
        SpecToken::Star => Some(BinOp::Mul),
        SpecToken::Slash => Some(BinOp::Div),
        _ => None,
    }
}

pub open spec fn binary(op: BinOp, lhs: SpecExpr, rhs: SpecExpr) -> SpecExpr {
    SpecExpr::Binary { op, lhs: Box::new(lhs), rhs: Box::new(rhs) }
}

/// Whether the `<` at `pos` opens a subset access: a name and a `>` follow.
pub open spec fn subset_at(ts: Seq<SpecSpanned>, pos: int) -> bool {
    &&& pos + 2 < ts.len()
    &&& peek(ts, pos + 1) is Ident
    &&& peek(ts, pos + 2) == SpecToken::RAngle
}

/// Whether the `[` at `pos` opens an unsafe block.
pub open spec fn unsafe_at(ts: Seq<SpecSpanned>, pos: int) -> bool {
    word_at(ts, pos + 1, "unsafe"@) && peek(ts, pos + 2) == SpecToken::RBracket
}

/// Whether a place reached from `pos` is further on and within the tokens.
pub open spec fn further(ts: Seq<SpecSpanned>, pos: int, next: int) -> bool {
    0 <= pos < next <= ts.len()
}

/// What a place that is not further on gives: no tree of the grammar is empty.
pub open spec fn stuck(pos: int) -> SpecParseError {
    SpecParseError { message: Seq::empty(), at: pos }
}

pub open spec fn expr_at(m: NumberModel, ts: Seq<SpecSpanned>, pos: int) -> Parsed<SpecExpr>
    decreases ts.len() - pos, 6int,
{
    match term_at(m, ts, pos) {
        Err(e) => Err(e),
        Ok((lhs, next)) => if further(ts, pos, next) {
            sum_rest(m, ts, next, lhs)
        } else {
            Err(stuck(pos))
        },
    }
}

/// The terms that go on after `lhs`; operators group to the left.
pub open spec fn sum_rest(
    m: NumberModel,
    ts: Seq<SpecSpanned>,
    pos: int,
    lhs: SpecExpr,
) -> Parsed<SpecExpr>
    decreases ts.len() - pos, 0int,
{
    match sum_op(peek(ts, pos)) {
        None => Ok((lhs, pos)),
        Some(op) => match term_at(m, ts, pos + 1) {
            Err(e) => Err(e),
            Ok((rhs, next)) => if further(ts, pos, next) {
                sum_rest(m, ts, next, binary(op, lhs, rhs))
            } else {
                Err(stuck(pos))
            },
        },
    }
}

pub open spec fn term_at(m: NumberModel, ts: Seq<SpecSpanned>, pos: int) -> Parsed<SpecExpr>
    decreases ts.len() - pos, 5int,
{
    match unary_at(m, ts, pos) {
        Err(e) => Err(e),
        Ok((lhs, next)) => if further(ts, pos, next) {
            product_rest(m, ts, next, lhs)
        } else {
            Err(stuck(pos))
        },
    }
}

/// The factors that go on after `lhs`; operators group to the left.
pub open spec fn product_rest(
    m: NumberModel,
    ts: Seq<SpecSpanned>,
    pos: int,
    lhs: SpecExpr,
) -> Parsed<SpecExpr>
    decreases ts.len() - pos, 0int,
{
    match product_op(peek(ts, pos)) {
        None => Ok((lhs, pos)),
        Some(op) => match unary_at(m, ts, pos + 1) {
            Err(e) => Err(e),
            Ok((rhs, next)) => if further(ts, pos, next) {
                product_rest(m, ts, next, binary(op, lhs, rhs))
            } else {
                Err(stuck(pos))
            },
        },
    }
}

/// `-e` is `0 - e`.
pub open spec fn unary_at(m: NumberModel, ts: Seq<SpecSpanned>, pos: int) -> Parsed<SpecExpr>
    decreases ts.len() - pos, 4int,
{
    if peek(ts, pos) == SpecToken::Minus {
        match unary_at(m, ts, pos + 1) {
            Err(e) => Err(e),
            Ok((operand, next)) => Ok((binary(BinOp::Sub, SpecExpr::Int(0), operand), next)),
        }
    } else {
        power_at(m, ts, pos)
    }
}

/// `^` groups to the right.
pub open spec fn power_at(m: NumberModel, ts: Seq<SpecSpanned>, pos: int) -> Parsed<SpecExpr>
    decreases ts.len() - pos, 3int,
{
    match postfix_at(m, ts, pos) {
        Err(e) => Err(e),
        Ok((lhs, next)) => if peek(ts, next) == SpecToken::Caret {
            if further(ts, pos, next) {
                match power_at(m, ts, next + 1) {
                    Err(e) => Err(e),
                    Ok((rhs, end)) => Ok((binary(BinOp::Power, lhs, rhs), end)),
                }
            } else {
                Err(stuck(pos))
            }
        } else {
            Ok((lhs, next))
        },
    }
}

pub open spec fn postfix_at(m: NumberModel, ts: Seq<SpecSpanned>, pos: int) -> Parsed<SpecExpr>
    decreases ts.len() - pos, 2int,
{
    match primary_at(m, ts, pos) {
        Err(e) => Err(e),
        Ok((base, next)) => if further(ts, pos, next) {
            access_rest(m, ts, next, base)
        } else {
            Err(stuck(pos))
        },
    }
}

/// The field and subset accesses that go on after `base`.
pub open spec fn access_rest(
    m: NumberModel,
    ts: Seq<SpecSpanned>,
    pos: int,
    base: SpecExpr,
) -> Parsed<SpecExpr>
    decreases ts.len() - pos, 0int,
{
    if peek(ts, pos) == SpecToken::Dot {
        match name_at(m, ts, pos + 1) {
            Err(e) => Err(e),
            Ok((name, next)) => access_rest(
                m,
                ts,
                next,
                SpecExpr::Field { base: Box::new(base), name },
            ),
        }
    } else if peek(ts, pos) == SpecToken::LAngle && subset_at(ts, pos) {
        match peek(ts, pos + 1) {
            SpecToken::Ident(name) => access_rest(
                m,
                ts,
                pos + 3,
                SpecExpr::Subset { base: Box::new(base), name },
            ),
            _ => Ok((base, pos)),
        }
    } else {
        Ok((base, pos))
    }
}

pub open spec fn primary_at(m: NumberModel, ts: Seq<SpecSpanned>, pos: int) -> Parsed<SpecExpr>
    decreases ts.len() - pos, 1int,
{
    match peek(ts, pos) {
        SpecToken::Int(n) => Ok((SpecExpr::Int(n), pos + 1)),
        SpecToken::Float(n) => Ok((SpecExpr::Float(n), pos + 1)),
        SpecToken::Str(s) => Ok((SpecExpr::Str(s), pos + 1)),
        SpecToken::LParen => match expr_at(m, ts, pos + 1) {
            Err(e) => Err(e),
            Ok((e, next)) => match expect(m, ts, next, SpecToken::RParen) {
                Err(e) => Err(e),
                Ok(end) => Ok((e, end)),
            },
        },
        SpecToken::Ident(name) => if name == "if"@ {
            if_at(m, ts, pos + 1)
        } else if peek(ts, pos + 1) == SpecToken::LParen {
            match args_at(m, ts, pos + 2) {
                Err(e) => Err(e),
                Ok((args, end)) => Ok((SpecExpr::Call { name, args }, end)),
            }
        } else {
            Ok((SpecExpr::Var(name), pos + 1))
        },
        SpecToken::LBracket => if unsafe_at(ts, pos) {
            match expect(m, ts, pos + 3, SpecToken::LBrace) {
                Err(e) => Err(e),
                Ok(next) => match block_at(m, ts, next, Seq::empty()) {
                    Err(e) => Err(e),
                    Ok((body, end)) => Ok((SpecExpr::Unsafe { body }, end)),
                },
            }
        } else {
            Err(missing(m, ts, pos, "an expression"@))
        },
        _ => Err(missing(m, ts, pos, "an expression"@)),
    }
}

/// An expression between braces.
pub open spec fn braced_at(m: NumberModel, ts: Seq<SpecSpanned>, pos: int) -> Parsed<SpecExpr>
    decreases ts.len() - pos, 0int,
{
    match expect(m, ts, pos, SpecToken::LBrace) {
        Err(e) => Err(e),
        Ok(next) => match expr_at(m, ts, next) {
            Err(e) => Err(e),
            Ok((e, next)) => match expect(m, ts, next, SpecToken::RBrace) {
                Err(e) => Err(e),
                Ok(end) => Ok((e, end)),
            },
        },
    }
}

/// The conditional whose `if` comes before `pos`.
pub open spec fn if_at(m: NumberModel, ts: Seq<SpecSpanned>, pos: int) -> Parsed<SpecExpr>
    decreases ts.len() - pos, 7int,
{
    match expr_at(m, ts, pos) {
        Err(e) => Err(e),
        Ok((condition, next)) => if !further(ts, pos, next) {
            Err(stuck(pos))
        } else {
            match braced_at(m, ts, next) {
                Err(e) => Err(e),
                Ok((then_branch, next)) => if !further(ts, pos, next) {
                    Err(stuck(pos))
                } else if !word_at(ts, next, "else"@) {
                    Err(
                        SpecParseError {
                            message: "expected 'else' after if block"@,
                            at: if next + 1 < ts.len() {
                                next + 1
                            } else {
                                next
                            },
                        },
                    )
                } else {
                    match braced_at(m, ts, next + 1) {
                        Err(e) => Err(e),
                        Ok((else_branch, end)) => Ok(
                            (
                                SpecExpr::If {
                                    condition: Box::new(condition),
                                    then_branch: Box::new(then_branch),
                                    else_branch: Box::new(else_branch),
                                },
                                end,
                            ),
                        ),
                    }
                },
            }
        },
    }
}

/// The arguments, up to and with the closing parenthesis, of a call whose
/// opening parenthesis comes before `pos`.
pub open spec fn args_at(m: NumberModel, ts: Seq<SpecSpanned>, pos: int) -> Parsed<Seq<SpecExpr>>
    decreases ts.len() - pos, 8int,
{
    if peek(ts, pos) == SpecToken::RParen {
        Ok((Seq::empty(), pos + 1))
    } else {
        match exprs_at(m, ts, pos, Seq::empty()) {
            Err(e) => Err(e),
            Ok((args, next)) => match expect(m, ts, next, SpecToken::RParen) {
                Err(e) => Err(e),
                Ok(end) => Ok((args, end)),
            },
        }
    }
}

/// One or more expressions, separated by commas, after those in `read`.
pub open spec fn exprs_at(
    m: NumberModel,
    ts: Seq<SpecSpanned>,
    pos: int,
    read: Seq<SpecExpr>,
) -> Parsed<Seq<SpecExpr>>
    decreases ts.len() - pos, 7int,
{
    match expr_at(m, ts, pos) {
        Err(e) => Err(e),
        Ok((e, next)) => if peek(ts, next) == SpecToken::Comma {
            if further(ts, pos, next) {
                exprs_at(m, ts, next + 1, read.push(e))
            } else {
                Err(stuck(pos))
            }
        } else {
            Ok((read.push(e), next))
        },
    }
}

/// One or more names, separated by commas, after those in `read`.
pub open spec fn names_at(
    m: NumberModel,
    ts: Seq<SpecSpanned>,
    pos: int,
    read: Seq<Seq<char>>,
) -> Parsed<Seq<Seq<char>>>
    decreases ts.len() - pos,
{
    match name_at(m, ts, pos) {
        Err(e) => Err(e),
        Ok((name, next)) => if peek(ts, next) == SpecToken::Comma {
            names_at(m, ts, next + 1, read.push(name))
        } else {
            Ok((read.push(name), next))
        },
    }
}

/// The parameters, up to and with the closing parenthesis, of a function whose
/// opening parenthesis comes before `pos`.
pub open spec fn params_at(m: NumberModel, ts: Seq<SpecSpanned>, pos: int) -> Parsed<
    Seq<Seq<char>>,
> {
    if peek(ts, pos) == SpecToken::RParen {
        Ok((Seq::empty(), pos + 1))
    } else {
        match names_at(m, ts, pos, Seq::empty()) {
            Err(e) => Err(e),
            Ok((names, next)) => match expect(m, ts, next, SpecToken::RParen) {
                Err(e) => Err(e),
                Ok(end) => Ok((names, end)),
            },
        }
    }
}

/// Statements that end with a closing brace rather than with `;`.
pub open spec fn ends_with_brace(s: SpecStmt) -> bool {
    s is FnDef || s is While
}

/// The place after the end of the statement `s`, whose last token comes
/// before `pos`.
pub open spec fn stmt_end(m: NumberModel, ts: Seq<SpecSpanned>, pos: int, s: SpecStmt) -> Result<
    int,
    SpecParseError,
> {
    if ends_with_brace(s) {
        Ok(pos)
    } else {
        expect(m, ts, pos, SpecToken::Semicolon)
    }
}

/// The statements up to and with the closing brace, after those in `read`.
pub open spec fn block_at(
    m: NumberModel,
    ts: Seq<SpecSpanned>,
    pos: int,
    read: Seq<SpecStmt>,
) -> Parsed<Seq<SpecStmt>>
    decreases ts.len() - pos, 10int,
{
    if peek(ts, pos) == SpecToken::RBrace {
        Ok((read, pos + 1))
    } else {
        match stmt_at(m, ts, pos) {
            Err(e) => Err(e),
            Ok((s, next)) => match stmt_end(m, ts, next, s) {
                Err(e) => Err(e),
                Ok(next) => if further(ts, pos, next) {
                    block_at(m, ts, next, read.push(s))
                } else {
                    Err(stuck(pos))
                },
            },
        }
    }
}

/// The statement at `pos`, without the `;` after it.
pub open spec fn stmt_at(m: NumberModel, ts: Seq<SpecSpanned>, pos: int) -> Parsed<SpecStmt>
    decreases ts.len() - pos, 9int,
{
    if word_at(ts, pos, "print"@) {
        match expect(m, ts, pos + 1, SpecToken::LParen) {
            Err(e) => Err(e),
            Ok(next) => match args_at(m, ts, next) {
                Err(e) => Err(e),
                Ok((args, end)) => Ok((SpecStmt::Print(args), end)),
            },
        }
    } else if word_at(ts, pos, "fn"@) {
        fn_at(m, ts, pos)
    } else if word_at(ts, pos, "return"@) {
        match expr_at(m, ts, pos + 1) {
            Err(e) => Err(e),
            Ok((e, end)) => Ok((SpecStmt::Return(e), end)),
        }
    } else if word_at(ts, pos, "while"@) && peek(ts, pos + 1) != SpecToken::Equals {
        match expr_at(m, ts, pos + 1) {
            Err(e) => Err(e),
            Ok((condition, next)) => match expect(m, ts, next, SpecToken::LBrace) {
                Err(e) => Err(e),
                Ok(next) => if !further(ts, pos, next) {
                    Err(stuck(pos))
                } else {
                    match block_at(m, ts, next, Seq::empty()) {
                        Err(e) => Err(e),
                        Ok((body, end)) => Ok((SpecStmt::While { condition, body }, end)),
                    }
                },
            },
        }
    } else if word_at(ts, pos, "mut"@) && peek(ts, pos + 1) is Ident {
        assign_at(m, ts, pos + 1, true)
    } else {
        assign_at(m, ts, pos, false)
    }
}

/// The assignment whose name is at `pos`.
pub open spec fn assign_at(
    m: NumberModel,
    ts: Seq<SpecSpanned>,
    pos: int,
    mutable: bool,
) -> Parsed<SpecStmt>
    decreases ts.len() - pos, 7int,
{
    match name_at(m, ts, pos) {
        Err(e) => Err(e),
        Ok((name, next)) => match expect(m, ts, next, SpecToken::Equals) {
            Err(e) => Err(e),
            Ok(next) => match expr_at(m, ts, next) {
                Err(e) => Err(e),
                Ok((value, end)) => Ok((SpecStmt::Assign { name, value, mutable }, end)),
            },
        },
    }
}

/// The function definition whose `fn` is at `pos`.
pub open spec fn fn_at(m: NumberModel, ts: Seq<SpecSpanned>, pos: int) -> Parsed<SpecStmt>
    decreases ts.len() - pos, 8int,
{
    match name_at(m, ts, pos + 1) {
        Err(e) => Err(e),
        Ok((name, next)) => match expect(m, ts, next, SpecToken::LParen) {
            Err(e) => Err(e),
            Ok(next) => match params_at(m, ts, next) {
                Err(e) => Err(e),
                Ok((params, next)) => match expect(m, ts, next, SpecToken::LBrace) {
                    Err(e) => Err(e),
                    Ok(next) => if !further(ts, pos, next) {
                        Err(stuck(pos))
                    } else {
                        match block_at(m, ts, next, Seq::empty()) {
                            Err(e) => Err(e),
                            Ok((body, end)) => if body.len() > 0 && body.last() is Return {
                                Ok((SpecStmt::FnDef { name, params, body }, end))
                            } else {
                                Err(
                                    SpecParseError {
                                        message: "function `"@ + name
                                            + "` must end with a `return` statement"@,
                                        at: end,
                                    },
                                )
                            },
                        }
                    },
                },
            },
        },
    }
}

/// The statements up to the end of input, after those in `read`.
pub open spec fn program_at(
    m: NumberModel,
    ts: Seq<SpecSpanned>,
    pos: int,
    read: Seq<SpecStmt>,
) -> Parsed<Seq<SpecStmt>>
    decreases ts.len() - pos,
{
    if peek(ts, pos) == SpecToken::Eof {
        Ok((read, pos))
    } else {
        match stmt_at(m, ts, pos) {
            Err(e) => Err(e),
            Ok((s, next)) => match stmt_end(m, ts, next, s) {
                Err(e) => Err(e),
                Ok(next) => if further(ts, pos, next) {
                    program_at(m, ts, next, read.push(s))
                } else {
                    Err(stuck(pos))
                },
            },
        }
    }
}

} // verus!
