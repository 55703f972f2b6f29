//! What is saved for a source text: the conditions of the laws on reading back
//! and on running alike hold of every program that the parser lets through.

#[allow(unused_imports)]
use crate::ast::{self, SpecExpr, SpecStmt};
#[allow(unused_imports)]
use crate::dag;
#[allow(unused_imports)]
use crate::dag_laws;
#[allow(unused_imports)]
use crate::grammar;
#[allow(unused_imports)]
use crate::graph::{self, SpecDag, SpecLit, SpecOperation};
#[allow(unused_imports)]
use crate::lexer;
#[allow(unused_imports)]
use crate::lexer_laws;
#[allow(unused_imports)]
use crate::names;
#[allow(unused_imports)]
use crate::number::{self, Bits, NumberModel};
#[allow(unused_imports)]
use crate::parser_laws;
#[allow(unused_imports)]
use crate::reading::{files, is_name, saved, trees};
#[allow(unused_imports)]
use crate::render;
#[allow(unused_imports)]
use crate::replay;
#[allow(unused_imports)]
use crate::rereading;
#[allow(unused_imports)]
use crate::semantics::Run;
#[allow(unused_imports)]
use crate::soundness;
#[allow(unused_imports)]
use crate::spelling;
#[allow(unused_imports)]
use crate::token::{SpecSpanned, SpecToken};
#[allow(unused_imports)]
use crate::trace::{self, SpecProv, SpecScope};
use vstd::prelude::*;

verus! {

// ---- names and numbers ------------------------------------------------------

/// Whether the names of an expression are names that the parser reads as such,
/// and its integers can be written.
pub open spec fn spoken(e: SpecExpr) -> bool
    decreases e,
{
    match e {
        SpecExpr::Int(n) => n > i64::MIN,
        SpecExpr::Float(_) => true,
        SpecExpr::Str(_) => true,
        SpecExpr::Var(name) => is_name(name) && name != "if"@,
        SpecExpr::Field { base, name } => spoken(*base) && is_name(name),
        SpecExpr::Subset { base, name } => spoken(*base) && is_name(name),
        SpecExpr::Binary { lhs, rhs, .. } => spoken(*lhs) && spoken(*rhs),
        SpecExpr::If { condition, then_branch, else_branch } => spoken(*condition) && spoken(
            *then_branch,
        ) && spoken(*else_branch),
        SpecExpr::Call { name, args } => is_name(name) && name != "if"@ && all_spoken(args),
        SpecExpr::Unsafe { body } => spoken_stmts(body),
    }
}

pub open spec fn all_spoken(es: Seq<SpecExpr>) -> bool
    decreases es,
{
    forall|i: int| 0 <= i < es.len() ==> spoken(#[trigger] es[i])
}

pub open spec fn all_names(ns: Seq<Seq<char>>) -> bool {
    forall|i: int| 0 <= i < ns.len() ==> is_name(#[trigger] ns[i])
}

/// Whether a statement is one that the parser could have read, but for its
/// numbers.
pub open spec fn spoken_stmt(s: SpecStmt) -> bool
    decreases s,
{
    match s {
        SpecStmt::Assign { name, value, mutable } => {
            &&& is_name(name)
            &&& spoken(value)
            &&& mutable || (name != "print"@ && name != "fn"@ && name != "return"@)
        },
        SpecStmt::Print(es) => all_spoken(es),
        SpecStmt::FnDef { name, params, body } => {
            &&& is_name(name)
            &&& all_names(params)
            &&& body.len() > 0 && body.last() is Return
            &&& spoken_stmts(body)
        },
        SpecStmt::While { condition, body } => spoken(condition) && spoken_stmts(body),
        SpecStmt::Return(e) => spoken(e),
    }
}

pub open spec fn spoken_stmts(ss: Seq<SpecStmt>) -> bool
    decreases ss,
{
    forall|i: int| 0 <= i < ss.len() ==> spoken_stmt(#[trigger] ss[i])
}

/// Whether there is a literal for a number: it is finite and not the negative
/// zero.
pub open spec fn has_literal(n: Bits) -> bool {
    number::is_finite(n) && n != number::SIGN
}

/// Whether there are literals for the numbers of an expression.
pub open spec fn countable(e: SpecExpr) -> bool
    decreases e,
{
    match e {
        SpecExpr::Float(n) => has_literal(n),
        SpecExpr::Field { base, .. } => countable(*base),
        SpecExpr::Subset { base, .. } => countable(*base),
        SpecExpr::Binary { lhs, rhs, .. } => countable(*lhs) && countable(*rhs),
        SpecExpr::If { condition, then_branch, else_branch } => countable(*condition) && countable(
            *then_branch,
        ) && countable(*else_branch),
        SpecExpr::Call { args, .. } => forall|i: int|
            0 <= i < args.len() ==> countable(#[trigger] args[i]),
        SpecExpr::Unsafe { body } => countable_stmts(body),
        _ => true,
    }
}

pub open spec fn countable_stmt(s: SpecStmt) -> bool
    decreases s,
{
    match s {
        SpecStmt::Assign { value, .. } => countable(value),
        SpecStmt::Print(es) => forall|i: int| 0 <= i < es.len() ==> countable(#[trigger] es[i]),
        SpecStmt::FnDef { body, .. } => countable_stmts(body),
        SpecStmt::While { condition, body } => countable(condition) && countable_stmts(body),
        SpecStmt::Return(e) => countable(e),
    }
}

/// Whether there are literals for the numbers of statements.
pub open spec fn countable_stmts(ss: Seq<SpecStmt>) -> bool
    decreases ss,
{
    forall|i: int| 0 <= i < ss.len() ==> countable_stmt(#[trigger] ss[i])
}

/// Numbers that are written can be read: each is shown on one line, each for
/// which there is a literal is shown as the lexer reads a number and read as the
/// number that it is, and a difference from 0 is what a minus sign says.
pub open spec fn faithful(m: NumberModel) -> bool {
    &&& saved::shown_on_a_line(m)
    &&& forall|n: Bits| #[trigger]
        has_literal(n) ==> {
            &&& spelling::legible(m, n)
            &&& rereading::reads_as(m, spelling::signed(m, n), spelling::magnitude(m, n), n)
        }
    &&& forall|n: i64|
        i64::MIN < n < 0 ==> #[trigger] number::binary_result(
            m,
            ast::BinOp::Sub,
            number::bits_of_int(0),
            number::bits_of_int(-n),
        ) == Some(number::bits_of_int(n as int))
}

/// What is spoken, with numbers for which there are literals, is written so
/// that it reads back and means the same.
proof fn writes_expr(m: NumberModel, e: SpecExpr)
    requires
        faithful(m),
        spoken(e),
        countable(e),
    ensures
        spelling::plain(m, e),
        trees::legible_expr(e),
        rereading::keeps(m, e),
    decreases e,
{
    match e {
        SpecExpr::Int(n) => {
            if n < 0 {
                let k = (-n) as i64;
                assert(number::bits_of_int(k as int) == number::bits_of_int(-n));
            }
        },
        SpecExpr::Float(n) => {
            assert(has_literal(n));
        },
        SpecExpr::Field { base, .. } => writes_expr(m, *base),
        SpecExpr::Subset { base, .. } => writes_expr(m, *base),
        SpecExpr::Binary { lhs, rhs, .. } => {
            writes_expr(m, *lhs);
            writes_expr(m, *rhs);
        },
        SpecExpr::If { condition, then_branch, else_branch } => {
            writes_expr(m, *condition);
            writes_expr(m, *then_branch);
            writes_expr(m, *else_branch);
        },
        SpecExpr::Call { args, .. } => {
            assert(all_spoken(args));
            assert forall|i: int| 0 <= i < args.len() implies spelling::plain(m, #[trigger] args[i])
                && trees::legible_expr(args[i]) && rereading::keeps(m, args[i]) by {
                writes_expr(m, args[i]);
            }
        },
        SpecExpr::Unsafe { body } => writes_stmts(m, body),
        _ => {},
    }
}

proof fn writes_stmt(m: NumberModel, s: SpecStmt)
    requires
        faithful(m),
        spoken_stmt(s),
        countable_stmt(s),
    ensures
        spelling::plain_stmt(m, s),
        trees::legible_stmt(s),
        rereading::keeps_stmt(m, s),
    decreases s,
{
    match s {
        SpecStmt::Assign { value, .. } => writes_expr(m, value),
        SpecStmt::Print(es) => {
            assert(all_spoken(es));
            assert forall|i: int| 0 <= i < es.len() implies spelling::plain(m, #[trigger] es[i])
                && trees::legible_expr(es[i]) && rereading::keeps(m, es[i]) by {
                writes_expr(m, es[i]);
            }
        },
        SpecStmt::FnDef { body, .. } => writes_stmts(m, body),
        SpecStmt::While { condition, body } => {
            writes_expr(m, condition);
            writes_stmts(m, body);
        },
        SpecStmt::Return(e) => writes_expr(m, e),
    }
}

proof fn writes_stmts(m: NumberModel, ss: Seq<SpecStmt>)
    requires
        faithful(m),
        spoken_stmts(ss),
        countable_stmts(ss),
    ensures
        spelling::plain_stmts(m, ss),
        trees::legible_stmts(ss),
        rereading::keeps_stmts(m, ss),
    decreases ss,
{
    assert forall|i: int| 0 <= i < ss.len() implies spelling::plain_stmt(m, #[trigger] ss[i])
        && trees::legible_stmt(ss[i]) && rereading::keeps_stmt(m, ss[i]) by {
        writes_stmt(m, ss[i]);
    }
}

// ---- what the parser lets through -------------------------------------------

/// Whether the names among tokens are names, and the integers not negative.
pub open spec fn said(ts: Seq<SpecSpanned>) -> bool {
    forall|i: int|
        0 <= i < ts.len() ==> said_token((#[trigger] ts[i]).token)
}

pub open spec fn said_token(t: SpecToken) -> bool {
    match t {
        SpecToken::Ident(name) => is_name(name),
        SpecToken::Int(n) => n >= 0,
        _ => true,
    }
}

proof fn heard(ts: Seq<SpecSpanned>, pos: int)
    requires
        said(ts),
    ensures
        said_token(grammar::peek(ts, pos)),
{
}

proof fn said_expr(m: NumberModel, ts: Seq<SpecSpanned>, pos: int)
    requires
        said(ts),
    ensures
        grammar::expr_at(m, ts, pos) matches Ok((x, _)) ==> spoken(x),
    decreases ts.len() - pos, 6int,
{
    said_term(m, ts, pos);
    if let Ok((lhs, next)) = grammar::term_at(m, ts, pos) {
        if grammar::further(ts, pos, next) {
            said_sum_rest(m, ts, next, lhs);
        }
    }
}

proof fn said_sum_rest(m: NumberModel, ts: Seq<SpecSpanned>, pos: int, lhs: SpecExpr)
    requires
        said(ts),
        spoken(lhs),
    ensures
        grammar::sum_rest(m, ts, pos, lhs) matches Ok((x, _)) ==> spoken(x),
    decreases ts.len() - pos, 0int,
{
    if let Some(op) = grammar::sum_op(grammar::peek(ts, pos)) {
        said_term(m, ts, pos + 1);
        if let Ok((rhs, next)) = grammar::term_at(m, ts, pos + 1) {
            if grammar::further(ts, pos, next) {
                said_sum_rest(m, ts, next, grammar::binary(op, lhs, rhs));
            }
        }
    }
}

proof fn said_term(m: NumberModel, ts: Seq<SpecSpanned>, pos: int)
    requires
        said(ts),
    ensures
        grammar::term_at(m, ts, pos) matches Ok((x, _)) ==> spoken(x),
    decreases ts.len() - pos, 5int,
{
    said_unary(m, ts, pos);
    if let Ok((lhs, next)) = grammar::unary_at(m, ts, pos) {
        if grammar::further(ts, pos, next) {
            said_product_rest(m, ts, next, lhs);
        }
    }
}

proof fn said_product_rest(m: NumberModel, ts: Seq<SpecSpanned>, pos: int, lhs: SpecExpr)
    requires
        said(ts),
        spoken(lhs),
    ensures
        grammar::product_rest(m, ts, pos, lhs) matches Ok((x, _)) ==> spoken(x),
    decreases ts.len() - pos, 0int,
{
    if let Some(op) = grammar::product_op(grammar::peek(ts, pos)) {
        said_unary(m, ts, pos + 1);
        if let Ok((rhs, next)) = grammar::unary_at(m, ts, pos + 1) {
            if grammar::further(ts, pos, next) {
                said_product_rest(m, ts, next, grammar::binary(op, lhs, rhs));
            }
        }
    }
}

proof fn said_unary(m: NumberModel, ts: Seq<SpecSpanned>, pos: int)
    requires
        said(ts),
    ensures
        grammar::unary_at(m, ts, pos) matches Ok((x, _)) ==> spoken(x),
    decreases ts.len() - pos, 4int,
{
    if grammar::peek(ts, pos) == SpecToken::Minus {
        said_unary(m, ts, pos + 1);
        assert(spoken(SpecExpr::Int(0)));
    } else {
        said_power(m, ts, pos);
    }
}

proof fn said_power(m: NumberModel, ts: Seq<SpecSpanned>, pos: int)
    requires
        said(ts),
    ensures
        grammar::power_at(m, ts, pos) matches Ok((x, _)) ==> spoken(x),
    decreases ts.len() - pos, 3int,
{
    said_postfix(m, ts, pos);
    if let Ok((lhs, next)) = grammar::postfix_at(m, ts, pos) {
        if grammar::peek(ts, next) == SpecToken::Caret && grammar::further(ts, pos, next) {
            said_power(m, ts, next + 1);
        }
    }
}

proof fn said_postfix(m: NumberModel, ts: Seq<SpecSpanned>, pos: int)
    requires
        said(ts),
    ensures
        grammar::postfix_at(m, ts, pos) matches Ok((x, _)) ==> spoken(x),
    decreases ts.len() - pos, 2int,
{
    said_primary(m, ts, pos);
    if let Ok((base, next)) = grammar::primary_at(m, ts, pos) {
        if grammar::further(ts, pos, next) {
            said_access_rest(m, ts, next, base);
        }
    }
}

proof fn said_access_rest(m: NumberModel, ts: Seq<SpecSpanned>, pos: int, base: SpecExpr)
    requires
        said(ts),
        spoken(base),
    ensures
        grammar::access_rest(m, ts, pos, base) matches Ok((x, _)) ==> spoken(x),
    decreases ts.len() - pos, 0int,
{
    heard(ts, pos + 1);
    if grammar::peek(ts, pos) == SpecToken::Dot {
        if let Ok((name, next)) = grammar::name_at(m, ts, pos + 1) {
            said_access_rest(m, ts, next, SpecExpr::Field { base: Box::new(base), name });
        }
    } else if grammar::peek(ts, pos) == SpecToken::LAngle && grammar::subset_at(ts, pos) {
        if let SpecToken::Ident(name) = grammar::peek(ts, pos + 1) {
            said_access_rest(m, ts, pos + 3, SpecExpr::Subset { base: Box::new(base), name });
        }
    }
}

proof fn said_primary(m: NumberModel, ts: Seq<SpecSpanned>, pos: int)
    requires
        said(ts),
    ensures
        grammar::primary_at(m, ts, pos) matches Ok((x, _)) ==> spoken(x),
    decreases ts.len() - pos, 1int,
{
    heard(ts, pos);
    match grammar::peek(ts, pos) {
        SpecToken::LParen => said_expr(m, ts, pos + 1),
        SpecToken::Ident(name) => {
            if name == "if"@ {
                said_if(m, ts, pos + 1);
            } else if grammar::peek(ts, pos + 1) == SpecToken::LParen {
                said_args(m, ts, pos + 2);
            }
        },
        SpecToken::LBracket => {
            if grammar::unsafe_at(ts, pos) && grammar::peek(ts, pos + 3) == SpecToken::LBrace {
                said_block(m, ts, pos + 4, Seq::empty());
            }
        },
        _ => {},
    }
}

proof fn said_braced(m: NumberModel, ts: Seq<SpecSpanned>, pos: int)
    requires
        said(ts),
    ensures
        grammar::braced_at(m, ts, pos) matches Ok((x, _)) ==> spoken(x),
    decreases ts.len() - pos, 0int,
{
    if grammar::peek(ts, pos) == SpecToken::LBrace {
        said_expr(m, ts, pos + 1);
    }
}

proof fn said_if(m: NumberModel, ts: Seq<SpecSpanned>, pos: int)
    requires
        said(ts),
    ensures
        grammar::if_at(m, ts, pos) matches Ok((x, _)) ==> spoken(x),
    decreases ts.len() - pos, 7int,
{
    said_expr(m, ts, pos);
    if let Ok((condition, p1)) = grammar::expr_at(m, ts, pos) {
        if grammar::further(ts, pos, p1) {
            said_braced(m, ts, p1);
            if let Ok((then_branch, p2)) = grammar::braced_at(m, ts, p1) {
                if grammar::further(ts, pos, p2) && grammar::word_at(ts, p2, "else"@) {
                    said_braced(m, ts, p2 + 1);
                }
            }
        }
    }
}

proof fn said_args(m: NumberModel, ts: Seq<SpecSpanned>, pos: int)
    requires
        said(ts),
    ensures
        grammar::args_at(m, ts, pos) matches Ok((x, _)) ==> all_spoken(x),
    decreases ts.len() - pos, 8int,
{
    if grammar::peek(ts, pos) != SpecToken::RParen {
        said_exprs(m, ts, pos, Seq::empty());
    }
}

proof fn said_exprs(m: NumberModel, ts: Seq<SpecSpanned>, pos: int, read: Seq<SpecExpr>)
    requires
        said(ts),
        all_spoken(read),
    ensures
        grammar::exprs_at(m, ts, pos, read) matches Ok((x, _)) ==> all_spoken(x),
    decreases ts.len() - pos, 7int,
{
    said_expr(m, ts, pos);
    if let Ok((e, next)) = grammar::expr_at(m, ts, pos) {
        assert(all_spoken(read.push(e)));
        if grammar::peek(ts, next) == SpecToken::Comma && grammar::further(ts, pos, next) {
            said_exprs(m, ts, next + 1, read.push(e));
        }
    }
}

proof fn said_names(m: NumberModel, ts: Seq<SpecSpanned>, pos: int, read: Seq<Seq<char>>)
    requires
        said(ts),
        all_names(read),
    ensures
        grammar::names_at(m, ts, pos, read) matches Ok((x, _)) ==> all_names(x),
    decreases ts.len() - pos, 7int,
{
    if let Ok((name, next)) = grammar::name_at(m, ts, pos) {
        heard(ts, pos);
        assert(all_names(read.push(name)));
        if grammar::peek(ts, next) == SpecToken::Comma {
            said_names(m, ts, next + 1, read.push(name));
        }
    }
}

proof fn said_params(m: NumberModel, ts: Seq<SpecSpanned>, pos: int)
    requires
        said(ts),
    ensures
        grammar::params_at(m, ts, pos) matches Ok((x, _)) ==> all_names(x),
    decreases ts.len() - pos, 8int,
{
    if grammar::peek(ts, pos) != SpecToken::RParen {
        said_names(m, ts, pos, Seq::empty());
    }
}

proof fn said_block(m: NumberModel, ts: Seq<SpecSpanned>, pos: int, read: Seq<SpecStmt>)
    requires
        said(ts),
        spoken_stmts(read),
    ensures
        grammar::block_at(m, ts, pos, read) matches Ok((x, _)) ==> spoken_stmts(x),
    decreases ts.len() - pos, 10int,
{
    if grammar::peek(ts, pos) != SpecToken::RBrace {
        said_stmt(m, ts, pos);
        if let Ok((s, p1)) = grammar::stmt_at(m, ts, pos) {
            assert(spoken_stmts(read.push(s)));
            if let Ok(p2) = grammar::stmt_end(m, ts, p1, s) {
                if grammar::further(ts, pos, p2) {
                    said_block(m, ts, p2, read.push(s));
                }
            }
        }
    }
}

proof fn said_stmt(m: NumberModel, ts: Seq<SpecSpanned>, pos: int)
    requires
        said(ts),
    ensures
        grammar::stmt_at(m, ts, pos) matches Ok((x, _)) ==> spoken_stmt(x),
    decreases ts.len() - pos, 9int,
{
    if grammar::word_at(ts, pos, "print"@) {
        if grammar::peek(ts, pos + 1) == SpecToken::LParen {
            said_args(m, ts, pos + 2);
        }
    } else if grammar::word_at(ts, pos, "fn"@) {
        said_fn(m, ts, pos);
    } else if grammar::word_at(ts, pos, "return"@) {
        said_expr(m, ts, pos + 1);
    } else if grammar::word_at(ts, pos, "while"@) && grammar::peek(ts, pos + 1)
        != SpecToken::Equals {
        said_expr(m, ts, pos + 1);
        if let Ok((condition, next)) = grammar::expr_at(m, ts, pos + 1) {
            if grammar::peek(ts, next) == SpecToken::LBrace && grammar::further(ts, pos, next + 1) {
                said_block(m, ts, next + 1, Seq::empty());
            }
        }
    } else if grammar::word_at(ts, pos, "mut"@) && grammar::peek(ts, pos + 1) is Ident {
        said_assign(m, ts, pos + 1, true);
    } else {
        said_assign(m, ts, pos, false);
    }
}

proof fn said_assign(m: NumberModel, ts: Seq<SpecSpanned>, pos: int, mutable: bool)
    requires
        said(ts),
    ensures
        grammar::assign_at(m, ts, pos, mutable) matches Ok((s, _)) ==> {
            &&& s matches SpecStmt::Assign { name, value, mutable: x }
            &&& grammar::peek(ts, pos) == SpecToken::Ident(name)
            &&& x == mutable
            &&& is_name(name)
            &&& spoken(value)
        },
    decreases ts.len() - pos, 7int,
{
    heard(ts, pos);
    if grammar::peek(ts, pos) is Ident && grammar::peek(ts, pos + 1) == SpecToken::Equals {
        said_expr(m, ts, pos + 2);
    }
}

proof fn said_fn(m: NumberModel, ts: Seq<SpecSpanned>, pos: int)
    requires
        said(ts),
    ensures
        grammar::fn_at(m, ts, pos) matches Ok((x, _)) ==> spoken_stmt(x),
    decreases ts.len() - pos, 8int,
{
    heard(ts, pos + 1);
    if grammar::peek(ts, pos + 1) is Ident && grammar::peek(ts, pos + 2) == SpecToken::LParen {
        said_params(m, ts, pos + 3);
        if let Ok((params, next)) = grammar::params_at(m, ts, pos + 3) {
            if grammar::peek(ts, next) == SpecToken::LBrace && grammar::further(ts, pos, next + 1) {
                said_block(m, ts, next + 1, Seq::empty());
            }
        }
    }
}

proof fn said_program(m: NumberModel, ts: Seq<SpecSpanned>, pos: int, read: Seq<SpecStmt>)
    requires
        said(ts),
        spoken_stmts(read),
    ensures
        grammar::program_at(m, ts, pos, read) matches Ok((prog, _)) ==> spoken_stmts(prog),
    decreases ts.len() - pos,
{
    if grammar::peek(ts, pos) != SpecToken::Eof {
        said_stmt(m, ts, pos);
        if let Ok((s, p1)) = grammar::stmt_at(m, ts, pos) {
            assert(spoken_stmts(read.push(s)));
            if let Ok(p2) = grammar::stmt_end(m, ts, p1, s) {
                if grammar::further(ts, pos, p2) {
                    said_program(m, ts, p2, read.push(s));
                }
            }
        }
    }
}

proof fn said_text(m: NumberModel, s: Seq<char>, p: int)
    requires
        0 <= p <= s.len(),
    ensures
        lexer::tokens_from(m, s, p) matches Ok(ts) ==> said(ts),
    decreases s.len() - p,
{
    lexer_laws::law_skips_blanks_and_comments(s, p);
    let start = lexer::skip(s, p);
    if start < s.len() {
        if let Ok((t, end)) = lexer::token_at(m, s, start) {
            lexer_laws::lemma_token_bounds(m, s, start);
            said_token_at(m, s, start);
            said_text(m, s, end);
            if let Ok(rest) = lexer::tokens_from(m, s, end) {
                let ts = seq![lexer::spanned(s, start, t)] + rest;
                assert forall|i: int| 0 <= i < ts.len() implies said_token(
                    (#[trigger] ts[i]).token,
                ) by {
                    if i > 0 {
                        assert(ts[i] == rest[i - 1]);
                    }
                }
            }
        }
    }
}

proof fn said_token_at(m: NumberModel, s: Seq<char>, p: int)
    requires
        0 <= p < s.len(),
        lexer::token_at(m, s, p) is Ok,
    ensures
        said_token(lexer::token_at(m, s, p)->Ok_0.0),
{
    let c = s[p];
    if lexer::symbol(s, p) is None {
        if c == '"' {
            lexer_laws::lemma_string_bounds(s, p, p + 1, Seq::empty());
        } else if lexer::is_digit(c) {
        } else if lexer::ident_start(c) {
            let f = |c: char| lexer::ident_continue(c);
            assert(f(c));
            lexer_laws::lemma_run_bounds(s, p, f);
            lexer_laws::lemma_run_bounds(s, p + 1, f);
            let end = lexer::run_end(s, p, f);
            assert(end == lexer::run_end(s, p + 1, f));
            let t = s.subrange(p, end);
            assert forall|i: int| 0 <= i < t.len() implies lexer::ident_continue(
                #[trigger] t[i],
            ) by {
                assert(f(s[p + i]));
            }
        }
    }
}

/// Every program that the parser lets through is spoken: its names are names
/// that it reads as such, its functions end with a `return`, and its integers
/// are not negative.
pub proof fn law_parsed_programs_are_spoken(m: NumberModel, source: Seq<char>)
    ensures
        parser_laws::program_of(m, source) matches Some(prog) ==> spoken_stmts(prog),
{
    said_text(m, source, 0);
    if let Ok(ts) = lexer::tokens_of(m, source) {
        said_program(m, ts, 0, Seq::empty());
    }
}

// ---- what the tracer makes of it ----------------------------------------------

/// Whether an expression has the shape of a formula and is spoken.
pub open spec fn spoken_formula(e: SpecExpr) -> bool
    decreases e,
{
    match e {
        SpecExpr::Int(n) => n > i64::MIN,
        SpecExpr::Float(_) => true,
        SpecExpr::Str(_) => true,
        SpecExpr::Var(name) => is_name(name) && name != "if"@,
        SpecExpr::Binary { lhs, rhs, .. } => spoken_formula(*lhs) && spoken_formula(*rhs),
        SpecExpr::If { condition, then_branch, else_branch } => spoken_formula(*condition)
            && spoken_formula(*then_branch) && spoken_formula(*else_branch),
        _ => false,
    }
}

proof fn lemma_spoken_formula(e: SpecExpr)
    requires
        spoken_formula(e),
        render::has_source(e),
    ensures
        spoken(e),
        countable(e),
    decreases e,
{
    match e {
        SpecExpr::Binary { lhs, rhs, .. } => {
            lemma_spoken_formula(*lhs);
            lemma_spoken_formula(*rhs);
        },
        SpecExpr::If { condition, then_branch, else_branch } => {
            lemma_spoken_formula(*condition);
            lemma_spoken_formula(*then_branch);
            lemma_spoken_formula(*else_branch);
        },
        _ => {},
    }
}

/// A frozen value is spoken.
proof fn lemma_spoken_literal(l: SpecLit)
    ensures
        spoken_formula(graph::lit_expr(l)),
{
    if let SpecLit::Number(n) = l {
        if n != number::SIGN && number::short_int(n) is Some {
            let k = choose|k: int| number::is_short_int(n, k);
            assert(number::is_short_int(n, k));
        }
    }
}

pub open spec fn spoken_prov(p: SpecProv) -> bool {
    p matches SpecProv::Formula(e) ==> spoken_formula(e)
}

/// Whether the formulas of a graph are spoken.
pub open spec fn spoken_graph(d: SpecDag) -> bool {
    forall|i: int|
        0 <= i < d.nodes.len() ==> ((#[trigger] d.nodes[i]).op matches SpecOperation::Formula {
            expr,
            ..
        } ==> spoken_formula(expr))
}

pub open spec fn spoken_scope(s: SpecScope) -> bool {
    forall|j: int| 0 <= j < s.len() ==> spoken_prov((#[trigger] s[j]).1)
}

pub open spec fn spoken_locals(locals: Seq<SpecScope>) -> bool {
    forall|i: int| 0 <= i < locals.len() ==> spoken_scope(#[trigger] locals[i])
}

proof fn speaks_read(d: SpecDag, locals: Seq<SpecScope>, name: Seq<char>)
    requires
        graph::dag_wf(d),
        dag_laws::current(d),
        spoken_graph(d),
        spoken_locals(locals),
        is_name(name),
        name != "if"@,
    ensures
        spoken_prov(trace::read(d, locals, name)),
{
    let n = names::scope_of(locals, name, locals.len() as int);
    names::lemma_scope_of(locals, name, locals.len() as int);
    if n > 0 {
        names::lemma_find(locals[n - 1], name, 0);
        assert(spoken_scope(locals[n - 1]));
    } else {
        names::lemma_find(d.env, name, 0);
    }
}

proof fn speaks_formula(p: SpecProv)
    requires
        spoken_prov(p),
    ensures
        trace::formula(p) matches Some(e) ==> spoken_formula(e),
{
    if let SpecProv::Fixed(l) = p {
        lemma_spoken_literal(l);
    }
}

proof fn speaks_trace(m: NumberModel, d: SpecDag, locals: Seq<SpecScope>, e: SpecExpr)
    requires
        graph::dag_wf(d),
        dag_laws::current(d),
        spoken_graph(d),
        spoken_locals(locals),
        spoken(e),
    ensures
        spoken_prov(trace::trace(m, d, locals, e)),
    decreases e, 0nat,
{
    match e {
        SpecExpr::Var(name) => speaks_read(d, locals, name),
        SpecExpr::Binary { lhs, rhs, .. } => {
            speaks_trace(m, d, locals, *lhs);
            speaks_trace(m, d, locals, *rhs);
            speaks_formula(trace::trace(m, d, locals, *lhs));
            speaks_formula(trace::trace(m, d, locals, *rhs));
        },
        SpecExpr::If { condition, then_branch, else_branch } => {
            speaks_trace(m, d, locals, *condition);
            speaks_trace(m, d, locals, *then_branch);
            speaks_trace(m, d, locals, *else_branch);
            speaks_formula(trace::trace(m, d, locals, *then_branch));
            speaks_formula(trace::trace(m, d, locals, *else_branch));
        },
        SpecExpr::Unsafe { body } => {
            lemma_inner(locals);
            speaks_trace_stmts(m, d, locals.push(Seq::empty()), body, 0);
        },
        _ => {},
    }
}

proof fn lemma_inner(locals: Seq<SpecScope>)
    requires
        spoken_locals(locals),
    ensures
        spoken_locals(locals.push(Seq::empty())),
{
    let inner = locals.push(Seq::empty());
    assert forall|i: int| 0 <= i < inner.len() implies spoken_scope(#[trigger] inner[i]) by {
        if i < locals.len() {
            assert(inner[i] == locals[i]);
        }
    }
}

proof fn speaks_assign(
    locals: Seq<SpecScope>,
    name: Seq<char>,
    value: SpecProv,
    mutable: bool,
)
    requires
        locals.len() > 0,
        spoken_locals(locals),
        spoken_prov(value),
    ensures
        spoken_locals(trace::assign(locals, name, value, mutable)),
        trace::assign(locals, name, value, mutable).len() == locals.len(),
{
    names::lemma_scope_of(locals, name, locals.len() as int);
    let after = trace::assign(locals, name, value, mutable);
    assert forall|i: int| 0 <= i < after.len() implies spoken_scope(#[trigger] after[i]) by {
        assert(spoken_scope(locals[i]));
        if after[i] != locals[i] {
            names::lemma_find(locals[i], name, 0);
            assert forall|j: int| 0 <= j < after[i].len() implies spoken_prov(
                (#[trigger] after[i][j]).1,
            ) by {
                if j != names::find_from(locals[i], name, 0) {
                    assert(after[i][j] == locals[i][j]);
                }
            }
        }
    }
}

proof fn speaks_trace_stmts(
    m: NumberModel,
    d: SpecDag,
    locals: Seq<SpecScope>,
    ss: Seq<SpecStmt>,
    i: int,
)
    requires
        graph::dag_wf(d),
        dag_laws::current(d),
        spoken_graph(d),
        locals.len() > 0,
        spoken_locals(locals),
        spoken_stmts(ss),
    ensures
        trace::trace_stmts(m, d, locals, ss, i).0 matches Some(p) ==> spoken_prov(p),
        spoken_locals(trace::trace_stmts(m, d, locals, ss, i).1),
        trace::trace_stmts(m, d, locals, ss, i).1.len() == locals.len(),
    decreases ss, ss.len() - i,
{
    if 0 <= i < ss.len() {
        assert(spoken_stmt(ss[i]));
        match ss[i] {
            SpecStmt::Return(e) => speaks_trace(m, d, locals, e),
            SpecStmt::Assign { name, value, mutable } => {
                speaks_trace(m, d, locals, value);
                let p = trace::trace(m, d, locals, value);
                speaks_assign(locals, name, p, mutable);
                speaks_trace_stmts(m, d, trace::assign(locals, name, p, mutable), ss, i + 1);
            },
            SpecStmt::While { .. } => {
                speaks_trace_loop(m, d, locals, ss[i], 0);
                let (r, after) = trace::trace_loop(m, d, locals, ss[i], 0);
                if r is None {
                    speaks_trace_stmts(m, d, after, ss, i + 1);
                }
            },
            _ => speaks_trace_stmts(m, d, locals, ss, i + 1),
        }
    }
}

proof fn speaks_trace_loop(
    m: NumberModel,
    d: SpecDag,
    locals: Seq<SpecScope>,
    s: SpecStmt,
    k: nat,
)
    requires
        graph::dag_wf(d),
        dag_laws::current(d),
        spoken_graph(d),
        locals.len() > 0,
        spoken_locals(locals),
        spoken_stmt(s),
    ensures
        trace::trace_loop(m, d, locals, s, k).0 matches Some(p) ==> spoken_prov(p),
        spoken_locals(trace::trace_loop(m, d, locals, s, k).1),
        trace::trace_loop(m, d, locals, s, k).1.len() == locals.len(),
    decreases s, trace::MAX_UNROLL_ITERS + 1 - k,
{
    if let SpecStmt::While { condition, body } = s {
        if let SpecProv::Fixed(SpecLit::Number(n)) = trace::trace(m, d, locals, condition) {
            if !number::is_zero(n) && k < trace::MAX_UNROLL_ITERS {
                let inner = locals.push(Seq::empty());
                lemma_inner(locals);
                speaks_trace_stmts(m, d, inner, body, 0);
                let (r, after) = trace::trace_stmts(m, d, inner, body, 0);
                let outer = after.drop_last();
                assert forall|i: int| 0 <= i < outer.len() implies spoken_scope(
                    #[trigger] outer[i],
                ) by {
                    assert(outer[i] == after[i]);
                }
                if r is None {
                    speaks_trace_loop(m, d, outer, s, k + 1);
                }
            }
        }
    }
}

proof fn speaks_graph(m: NumberModel, prog: Seq<SpecStmt>, n: int)
    requires
        spoken_stmts(prog),
        0 <= n <= prog.len() <= usize::MAX,
    ensures
        spoken_graph(dag::dag_of(m, prog, n)),
    decreases n,
{
    if n > 0 {
        speaks_graph(m, prog, n - 1);
        dag_laws::law_graph(m, prog, n - 1);
        let d = dag::dag_of(m, prog, n - 1);
        let after = dag::dag_of(m, prog, n);
        assert(spoken_stmt(prog[n - 1]));
        if let SpecStmt::Assign { name, value, mutable } = prog[n - 1] {
            let top: Seq<SpecScope> = seq![Seq::empty()];
            assert(spoken_locals(top));
            speaks_trace(m, d, top, value);
            assert forall|i: int| 0 <= i < after.nodes.len() implies ((
            #[trigger] after.nodes[i]).op matches SpecOperation::Formula { expr, .. }
                ==> spoken_formula(expr)) by {
                if i < d.nodes.len() {
                    assert(after.nodes[i] == d.nodes[i]);
                }
            }
        }
    }
}

// ---- what is saved --------------------------------------------------------------

/// The program that is saved is spoken, with numbers for which there are
/// literals, if the program is.
proof fn lemma_saved(m: NumberModel, prog: Seq<SpecStmt>)
    requires
        spoken_stmts(prog),
        countable_stmts(prog),
        prog.len() <= usize::MAX,
    ensures
        ({
            let all = files::frozen_program(dag::dag_of(m, prog, prog.len() as int), prog);
            spoken_stmts(all) && countable_stmts(all)
        }),
{
    let n = prog.len() as int;
    let d = dag::dag_of(m, prog, n);
    let all = files::frozen_program(d, prog);
    speaks_graph(m, prog, n);
    dag_laws::law_graph(m, prog, n);
    assert forall|i: int| 0 <= i < all.len() implies spoken_stmt(#[trigger] all[i])
        && countable_stmt(all[i]) by {
        assert(spoken_stmt(prog[i]));
        assert(countable_stmt(prog[i]));
        lemma_frozen(d, prog[i]);
    }
}

proof fn lemma_frozen(d: SpecDag, s: SpecStmt)
    requires
        graph::dag_wf(d),
        spoken_graph(d),
        spoken_stmt(s),
        countable_stmt(s),
    ensures
        spoken_stmt(files::frozen(d, s)),
        countable_stmt(files::frozen(d, s)),
{
    if let SpecStmt::Assign { name, .. } = s {
        names::lemma_find(d.env, name, 0);
        if let Some(node) = graph::node_of(d, name) {
            match node.op {
                SpecOperation::Param { .. } => {
                    reveal_strlit("param");
                    reveal_strlit("if");
                    assert(is_name("param"@));
                    assert("param"@.len() != "if"@.len());
                    let none = Seq::<SpecExpr>::empty();
                    assert(all_spoken(none));
                    assert(spoken(SpecExpr::Call { name: "param"@, args: none }));
                },
                SpecOperation::Fixed { value, .. } => {
                    lemma_spoken_literal(value);
                    if render::has_source(graph::lit_expr(value)) {
                        lemma_spoken_formula(graph::lit_expr(value));
                    }
                },
                SpecOperation::Formula { expr, .. } => {
                    assert(spoken_formula(expr));
                    if render::has_source(expr) {
                        lemma_spoken_formula(expr);
                    }
                },
                _ => {},
            }
        }
    }
}

/// What is saved for a source text reads back: where the text is a program whose
/// numbers are finite and none the negative zero, the file is one too, the
/// program in which the params, the frozen values and the formulas have taken
/// the places of what they came from.
pub proof fn law_saved_sources_read_back(m: NumberModel, source: Seq<char>)
    requires
        faithful(m),
        parser_laws::program_of(m, source) is Some,
        countable_stmts(parser_laws::program_of(m, source)->0),
        parser_laws::program_of(m, source)->0.len() <= usize::MAX,
    ensures
        ({
            let prog = parser_laws::program_of(m, source)->0;
            let d = dag::dag_of(m, prog, prog.len() as int);
            parser_laws::program_of(m, render::file_text(m, prog, d)) == Some(
                spelling::reread_stmts(m, files::frozen_program(d, prog), prog.len() as int),
            )
        }),
{
    let prog = parser_laws::program_of(m, source)->0;
    let d = dag::dag_of(m, prog, prog.len() as int);
    law_parsed_programs_are_spoken(m, source);
    lemma_saved(m, prog);
    writes_stmts(m, files::frozen_program(d, prog));
    saved::law_saved_files_read_back(m, prog);
}

/// What is saved for a source text does what the text does: where the program
/// runs to its end, what is read from the file runs to its end when every param
/// is overridden with what it was, leaves the same state behind, with its
/// functions as they were read, and asks for the same things. No name that is
/// assigned may be that of a ticker that is fetched, and what is replaced may do
/// nothing but compute when it runs.
pub proof fn law_saved_sources_run_alike(
    m: NumberModel,
    ts: Set<Seq<char>>,
    r: Run,
    source: Seq<char>,
    fuel: nat,
)
    requires
        faithful(m),
        parser_laws::program_of(m, source) is Some,
        ({
            let prog = parser_laws::program_of(m, source)->0;
            &&& countable_stmts(prog)
            &&& prog.len() <= usize::MAX
            &&& soundness::apart_stmts(ts, prog)
            &&& replay::program_replaceable(m, r, prog, fuel)
            &&& replay::overrides_given(m, r.st, prog)
            &&& soundness::ran(m, r, prog, prog.len() as int, fuel) is Some
        }),
        soundness::blank(r),
        r.st.functions.len() == 0,
    ensures
        ({
            let prog = parser_laws::program_of(m, source)->0;
            let n = prog.len() as int;
            let d = dag::dag_of(m, prog, n);
            let read = parser_laws::program_of(m, render::file_text(m, prog, d));
            &&& read is Some
            &&& read->0.len() == n
            &&& soundness::ran(m, r, read->0, n, fuel + replay::effort(d, prog, n) + 1) == Some(
                rereading::reread_run(m, soundness::ran(m, r, prog, n, fuel)->0),
            )
        }),
{
    let prog = parser_laws::program_of(m, source)->0;
    let d = dag::dag_of(m, prog, prog.len() as int);
    law_parsed_programs_are_spoken(m, source);
    lemma_saved(m, prog);
    writes_stmts(m, files::frozen_program(d, prog));
    replay::law_saved_files_run_alike(m, ts, r, prog, fuel);
    assert(rereading::reread_fns(m, r.st.functions) =~= r.st.functions);
    assert(rereading::reread_run(m, r) == r);
}

} // verus!
