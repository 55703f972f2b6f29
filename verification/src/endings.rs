//! How functions end: every function that the parser lets through ends with a
//! `return`, and so every call of one that ends gives a value.

#[allow(unused_imports)]
use crate::ast::{SpecExpr, SpecStmt};
#[allow(unused_imports)]
use crate::grammar;
#[allow(unused_imports)]
use crate::machine::SpecFlow;
#[allow(unused_imports)]
use crate::number::NumberModel;
#[allow(unused_imports)]
use crate::semantics::{self, Meaning, Run};
#[allow(unused_imports)]
use crate::token::{SpecSpanned, SpecToken};
use vstd::prelude::*;

verus! {

/// Whether a body ends with a `return`.
pub open spec fn ends_with_return(body: Seq<SpecStmt>) -> bool {
    body.len() > 0 && body.last() is Return
}

/// Whether every function in an expression ends with a `return`.
pub open spec fn finished(e: SpecExpr) -> bool
    decreases e,
{
    match e {
        SpecExpr::Field { base, .. } => finished(*base),
        SpecExpr::Subset { base, .. } => finished(*base),
        SpecExpr::Binary { lhs, rhs, .. } => finished(*lhs) && finished(*rhs),
        SpecExpr::If { condition, then_branch, else_branch } => finished(*condition) && finished(
            *then_branch,
        ) && finished(*else_branch),
        SpecExpr::Call { args, .. } => all_finished(args),
        SpecExpr::Unsafe { body } => finished_stmts(body),
        _ => true,
    }
}

pub open spec fn all_finished(es: Seq<SpecExpr>) -> bool
    decreases es,
{
    forall|i: int| 0 <= i < es.len() ==> finished(#[trigger] es[i])
}

/// Whether every function in a statement ends with a `return`.
pub open spec fn finished_stmt(s: SpecStmt) -> bool
    decreases s,
{
    match s {
        SpecStmt::Assign { value, .. } => finished(value),
        SpecStmt::Print(es) => all_finished(es),
        SpecStmt::FnDef { body, .. } => ends_with_return(body) && finished_stmts(body),
        SpecStmt::While { condition, body } => finished(condition) && finished_stmts(body),
        SpecStmt::Return(e) => finished(e),
    }
}

pub open spec fn finished_stmts(ss: Seq<SpecStmt>) -> bool
    decreases ss,
{
    forall|i: int| 0 <= i < ss.len() ==> finished_stmt(#[trigger] ss[i])
}

proof fn end_expr(m: NumberModel, ts: Seq<SpecSpanned>, pos: int)
    ensures
        grammar::expr_at(m, ts, pos) is Ok ==> finished(grammar::expr_at(m, ts, pos)->Ok_0.0),
    decreases ts.len() - pos, 6int,
{
    end_term(m, ts, pos);
    if let Ok((lhs, next)) = grammar::term_at(m, ts, pos) {
        if grammar::further(ts, pos, next) {
            end_sum_rest(m, ts, next, lhs);
        }
    }
}

proof fn end_sum_rest(m: NumberModel, ts: Seq<SpecSpanned>, pos: int, lhs: SpecExpr)
    requires
        finished(lhs),
    ensures
        grammar::sum_rest(m, ts, pos, lhs) is Ok ==> finished(grammar::sum_rest(m, ts, pos, lhs)->Ok_0.0),
    decreases ts.len() - pos, 0int,
{
    if let Some(op) = grammar::sum_op(grammar::peek(ts, pos)) {
        end_term(m, ts, pos + 1);
        if let Ok((rhs, next)) = grammar::term_at(m, ts, pos + 1) {
            if grammar::further(ts, pos, next) {
                end_sum_rest(m, ts, next, grammar::binary(op, lhs, rhs));
            }
        }
    }
}

proof fn end_term(m: NumberModel, ts: Seq<SpecSpanned>, pos: int)
    ensures
        grammar::term_at(m, ts, pos) is Ok ==> finished(grammar::term_at(m, ts, pos)->Ok_0.0),
    decreases ts.len() - pos, 5int,
{
    end_unary(m, ts, pos);
    if let Ok((lhs, next)) = grammar::unary_at(m, ts, pos) {
        if grammar::further(ts, pos, next) {
            end_product_rest(m, ts, next, lhs);
        }
    }
}

proof fn end_product_rest(m: NumberModel, ts: Seq<SpecSpanned>, pos: int, lhs: SpecExpr)
    requires
        finished(lhs),
    ensures
        grammar::product_rest(m, ts, pos, lhs) is Ok ==> finished(grammar::product_rest(m, ts, pos, lhs)->Ok_0.0),
    decreases ts.len() - pos, 0int,
{
    if let Some(op) = grammar::product_op(grammar::peek(ts, pos)) {
        end_unary(m, ts, pos + 1);
        if let Ok((rhs, next)) = grammar::unary_at(m, ts, pos + 1) {
            if grammar::further(ts, pos, next) {
                end_product_rest(m, ts, next, grammar::binary(op, lhs, rhs));
            }
        }
    }
}

proof fn end_unary(m: NumberModel, ts: Seq<SpecSpanned>, pos: int)
    ensures
        grammar::unary_at(m, ts, pos) is Ok ==> finished(grammar::unary_at(m, ts, pos)->Ok_0.0),
    decreases ts.len() - pos, 4int,
{
    if grammar::peek(ts, pos) == SpecToken::Minus {
        end_unary(m, ts, pos + 1);
        assert(finished(SpecExpr::Int(0)));
    } else {
        end_power(m, ts, pos);
    }
}

proof fn end_power(m: NumberModel, ts: Seq<SpecSpanned>, pos: int)
    ensures
        grammar::power_at(m, ts, pos) is Ok ==> finished(grammar::power_at(m, ts, pos)->Ok_0.0),
    decreases ts.len() - pos, 3int,
{
    end_postfix(m, ts, pos);
    if let Ok((lhs, next)) = grammar::postfix_at(m, ts, pos) {
        if grammar::peek(ts, next) == SpecToken::Caret && grammar::further(ts, pos, next) {
            end_power(m, ts, next + 1);
        }
    }
}

proof fn end_postfix(m: NumberModel, ts: Seq<SpecSpanned>, pos: int)
    ensures
        grammar::postfix_at(m, ts, pos) is Ok ==> finished(grammar::postfix_at(m, ts, pos)->Ok_0.0),
    decreases ts.len() - pos, 2int,
{
    end_primary(m, ts, pos);
    if let Ok((base, next)) = grammar::primary_at(m, ts, pos) {
        if grammar::further(ts, pos, next) {
            end_access_rest(m, ts, next, base);
        }
    }
}

proof fn end_access_rest(m: NumberModel, ts: Seq<SpecSpanned>, pos: int, base: SpecExpr)
    requires
        finished(base),
    ensures
        grammar::access_rest(m, ts, pos, base) is Ok ==> finished(grammar::access_rest(m, ts, pos, base)->Ok_0.0),
    decreases ts.len() - pos, 0int,
{
    if grammar::peek(ts, pos) == SpecToken::Dot {
        if let Ok((name, next)) = grammar::name_at(m, ts, pos + 1) {
            end_access_rest(m, ts, next, SpecExpr::Field { base: Box::new(base), name });
        }
    } else if grammar::peek(ts, pos) == SpecToken::LAngle && grammar::subset_at(ts, pos) {
        if let SpecToken::Ident(name) = grammar::peek(ts, pos + 1) {
            end_access_rest(m, ts, pos + 3, SpecExpr::Subset { base: Box::new(base), name });
        }
    }
}

proof fn end_primary(m: NumberModel, ts: Seq<SpecSpanned>, pos: int)
    ensures
        grammar::primary_at(m, ts, pos) is Ok ==> finished(grammar::primary_at(m, ts, pos)->Ok_0.0),
    decreases ts.len() - pos, 1int,
{
    match grammar::peek(ts, pos) {
        SpecToken::LParen => end_expr(m, ts, pos + 1),
        SpecToken::Ident(name) => {
            if name == "if"@ {
                end_if(m, ts, pos + 1);
            } else if grammar::peek(ts, pos + 1) == SpecToken::LParen {
                end_args(m, ts, pos + 2);
            }
        },
        SpecToken::LBracket => {
            if grammar::unsafe_at(ts, pos) && grammar::peek(ts, pos + 3) == SpecToken::LBrace {
                end_block(m, ts, pos + 4, Seq::empty());
            }
        },
        _ => {},
    }
}

proof fn end_braced(m: NumberModel, ts: Seq<SpecSpanned>, pos: int)
    ensures
        grammar::braced_at(m, ts, pos) is Ok ==> finished(grammar::braced_at(m, ts, pos)->Ok_0.0),
    decreases ts.len() - pos, 0int,
{
    if grammar::peek(ts, pos) == SpecToken::LBrace {
        end_expr(m, ts, pos + 1);
    }
}

proof fn end_if(m: NumberModel, ts: Seq<SpecSpanned>, pos: int)
    ensures
        grammar::if_at(m, ts, pos) is Ok ==> finished(grammar::if_at(m, ts, pos)->Ok_0.0),
    decreases ts.len() - pos, 7int,
{
    end_expr(m, ts, pos);
    if let Ok((condition, next)) = grammar::expr_at(m, ts, pos) {
        if grammar::further(ts, pos, next) {
            end_braced(m, ts, next);
            if let Ok((then_branch, next)) = grammar::braced_at(m, ts, next) {
                if grammar::further(ts, pos, next) && grammar::word_at(ts, next, "else"@) {
                    end_braced(m, ts, next + 1);
                }
            }
        }
    }
}

proof fn end_args(m: NumberModel, ts: Seq<SpecSpanned>, pos: int)
    ensures
        grammar::args_at(m, ts, pos) is Ok ==> all_finished(grammar::args_at(m, ts, pos)->Ok_0.0),
    decreases ts.len() - pos, 8int,
{
    if grammar::peek(ts, pos) != SpecToken::RParen {
        end_exprs(m, ts, pos, Seq::empty());
    }
}

proof fn end_exprs(m: NumberModel, ts: Seq<SpecSpanned>, pos: int, read: Seq<SpecExpr>)
    requires
        all_finished(read),
    ensures
        grammar::exprs_at(m, ts, pos, read) is Ok ==> all_finished(grammar::exprs_at(m, ts, pos, read)->Ok_0.0),
    decreases ts.len() - pos, 7int,
{
    end_expr(m, ts, pos);
    if let Ok((e, next)) = grammar::expr_at(m, ts, pos) {
        assert(all_finished(read.push(e)));
        if grammar::peek(ts, next) == SpecToken::Comma && grammar::further(ts, pos, next) {
            end_exprs(m, ts, next + 1, read.push(e));
        }
    }
}

proof fn end_block(m: NumberModel, ts: Seq<SpecSpanned>, pos: int, read: Seq<SpecStmt>)
    requires
        finished_stmts(read),
    ensures
        grammar::block_at(m, ts, pos, read) is Ok ==> finished_stmts(grammar::block_at(m, ts, pos, read)->Ok_0.0),
    decreases ts.len() - pos, 10int,
{
    if grammar::peek(ts, pos) != SpecToken::RBrace {
        end_stmt(m, ts, pos);
        if let Ok((s, next)) = grammar::stmt_at(m, ts, pos) {
            assert(finished_stmts(read.push(s)));
            if let Ok(next) = grammar::stmt_end(m, ts, next, s) {
                if grammar::further(ts, pos, next) {
                    end_block(m, ts, next, read.push(s));
                }
            }
        }
    }
}

proof fn end_stmt(m: NumberModel, ts: Seq<SpecSpanned>, pos: int)
    ensures
        grammar::stmt_at(m, ts, pos) is Ok ==> finished_stmt(grammar::stmt_at(m, ts, pos)->Ok_0.0),
    decreases ts.len() - pos, 9int,
{
    if grammar::word_at(ts, pos, "print"@) {
        if grammar::peek(ts, pos + 1) == SpecToken::LParen {
            end_args(m, ts, pos + 2);
        }
    } else if grammar::word_at(ts, pos, "fn"@) {
        end_fn(m, ts, pos);
    } else if grammar::word_at(ts, pos, "return"@) {
        end_expr(m, ts, pos + 1);
    } else if grammar::word_at(ts, pos, "while"@) && grammar::peek(ts, pos + 1)
        != SpecToken::Equals {
        end_expr(m, ts, pos + 1);
        if let Ok((condition, next)) = grammar::expr_at(m, ts, pos + 1) {
            if grammar::peek(ts, next) == SpecToken::LBrace && grammar::further(ts, pos, next + 1) {
                end_block(m, ts, next + 1, Seq::empty());
            }
        }
    } else if grammar::word_at(ts, pos, "mut"@) && grammar::peek(ts, pos + 1) is Ident {
        end_assign(m, ts, pos + 1, true);
    } else {
        end_assign(m, ts, pos, false);
    }
}

proof fn end_assign(m: NumberModel, ts: Seq<SpecSpanned>, pos: int, mutable: bool)
    ensures
        grammar::assign_at(m, ts, pos, mutable) is Ok ==> finished_stmt(grammar::assign_at(m, ts, pos, mutable)->Ok_0.0),
    decreases ts.len() - pos, 7int,
{
    if grammar::peek(ts, pos) is Ident && grammar::peek(ts, pos + 1) == SpecToken::Equals {
        end_expr(m, ts, pos + 2);
    }
}

proof fn end_fn(m: NumberModel, ts: Seq<SpecSpanned>, pos: int)
    ensures
        grammar::fn_at(m, ts, pos) is Ok ==> finished_stmt(grammar::fn_at(m, ts, pos)->Ok_0.0),
    decreases ts.len() - pos, 8int,
{
    if let Ok((params, next)) = grammar::params_at(m, ts, pos + 3) {
        if grammar::peek(ts, next) == SpecToken::LBrace && grammar::further(ts, pos, next + 1) {
            end_block(m, ts, next + 1, Seq::empty());
        }
    }
}

/// Every function of a program that the parser lets through ends with a
/// `return`.
pub proof fn law_functions_end_with_return(
    m: NumberModel,
    ts: Seq<SpecSpanned>,
    pos: int,
    read: Seq<SpecStmt>,
)
    requires
        finished_stmts(read),
    ensures
        grammar::program_at(m, ts, pos, read) matches Ok((prog, _)) ==> finished_stmts(prog),
    decreases ts.len() - pos,
{
    if grammar::peek(ts, pos) != SpecToken::Eof {
        end_stmt(m, ts, pos);
        if let Ok((s, next)) = grammar::stmt_at(m, ts, pos) {
            assert(finished_stmts(read.push(s)));
            if let Ok(next) = grammar::stmt_end(m, ts, next, s) {
                if grammar::further(ts, pos, next) {
                    law_functions_end_with_return(m, ts, next, read.push(s));
                }
            }
        }
    }
}

/// A body that ends with a `return` gives a value wherever it comes to an end:
/// nothing runs past it.
pub proof fn law_bodies_give_values(
    m: NumberModel,
    r: Run,
    body: Seq<SpecStmt>,
    i: int,
    fuel: nat,
)
    requires
        ends_with_return(body),
        0 <= i < body.len(),
    ensures
        semantics::body_run(m, r, body, i, fuel) matches Meaning::Is(flow, _) ==> flow is Return,
    decreases fuel,
{
    if fuel > 0 {
        let f = (fuel - 1) as nat;
        if i + 1 < body.len() {
            if let Meaning::Is(SpecFlow::Normal, r1) = semantics::exec(m, r, body[i], f) {
                law_bodies_give_values(m, r1, body, i + 1, f);
            }
        } else {
            assert(body[i] is Return);
        }
    }
}

} // verus!
