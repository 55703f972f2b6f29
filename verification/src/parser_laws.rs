//! What holds of the grammar on every list of tokens: the tokens alone decide,
//! wherever they stand, and programs can be put one after the other.

#[allow(unused_imports)]
use crate::ast::{SpecExpr, SpecStmt};
#[allow(unused_imports)]
use crate::grammar::{self, Parsed, SpecParseError};
#[allow(unused_imports)]
use crate::lexer;
#[allow(unused_imports)]
use crate::lexer_laws;
#[allow(unused_imports)]
use crate::number::NumberModel;
#[allow(unused_imports)]
use crate::token::{SpecSpanned, SpecToken};
use vstd::prelude::*;

verus! {

/// The tokens of `b` from `k` on are those of `a`, whatever their positions.
pub open spec fn moved(a: Seq<SpecSpanned>, b: Seq<SpecSpanned>, k: int) -> bool {
    &&& 0 <= k
    &&& b.len() == k + a.len()
    &&& forall|i: int| 0 <= i ==> #[trigger] grammar::peek(a, i) == grammar::peek(b, k + i)
}

/// What is read `k` tokens further on.
pub open spec fn shifted<T>(k: int, x: Parsed<T>) -> Parsed<T> {
    match x {
        Ok((t, next)) => Ok((t, k + next)),
        Err(e) => Err(SpecParseError { at: k + e.at, ..e }),
    }
}

/// The tokens `a`, which end at `k` with a token that nothing could follow up
/// on, are what `b` starts with.
pub open spec fn cut(a: Seq<SpecSpanned>, b: Seq<SpecSpanned>, k: int) -> bool {
    &&& 0 <= k < a.len()
    &&& k <= b.len()
    &&& forall|i: int| k <= i ==> #[trigger] grammar::peek(a, i) == SpecToken::Eof
    &&& forall|i: int| 0 <= i < k ==> #[trigger] grammar::peek(a, i) == grammar::peek(b, i)
    &&& k > 0 ==> !(grammar::peek(a, k - 1) is Ident) && grammar::peek(a, k - 1)
        != SpecToken::LAngle
}

/// Whether the last token is the end of input.
pub open spec fn ends(ts: Seq<SpecSpanned>) -> bool {
    ts.len() > 0 && ts.last().token == SpecToken::Eof
}

// ---- forward ---------------------------------------------------------------
//
// What is read takes up tokens: the place after it is further on.

proof fn forward_expr(m: NumberModel, ts: Seq<SpecSpanned>, pos: int)
    requires
        0 <= pos,
    ensures
        grammar::expr_at(m, ts, pos) matches Ok((_, next)) ==> pos < next <= ts.len(),
    decreases ts.len() - pos, 6int,
{
    forward_term(m, ts, pos);
    if let Ok((lhs, next)) = grammar::term_at(m, ts, pos) {
        if grammar::further(ts, pos, next) {
            forward_sum_rest(m, ts, next, lhs);
        }
    }
}

proof fn forward_sum_rest(m: NumberModel, ts: Seq<SpecSpanned>, pos: int, lhs: SpecExpr)
    requires
        0 <= pos <= ts.len(),
    ensures
        grammar::sum_rest(m, ts, pos, lhs) matches Ok((_, next)) ==> pos <= next <= ts.len(),
    decreases ts.len() - pos, 0int,
{
    if let Some(op) = grammar::sum_op(grammar::peek(ts, pos)) {
        forward_term(m, ts, pos + 1);
        if let Ok((rhs, next)) = grammar::term_at(m, ts, pos + 1) {
            if grammar::further(ts, pos, next) {
                forward_sum_rest(m, ts, next, grammar::binary(op, lhs, rhs));
            }
        }
    }
}

proof fn forward_term(m: NumberModel, ts: Seq<SpecSpanned>, pos: int)
    requires
        0 <= pos,
    ensures
        grammar::term_at(m, ts, pos) matches Ok((_, next)) ==> pos < next <= ts.len(),
    decreases ts.len() - pos, 5int,
{
    forward_unary(m, ts, pos);
    if let Ok((lhs, next)) = grammar::unary_at(m, ts, pos) {
        if grammar::further(ts, pos, next) {
            forward_product_rest(m, ts, next, lhs);
        }
    }
}

proof fn forward_product_rest(m: NumberModel, ts: Seq<SpecSpanned>, pos: int, lhs: SpecExpr)
    requires
        0 <= pos <= ts.len(),
    ensures
        grammar::product_rest(m, ts, pos, lhs) matches Ok((_, next)) ==> pos <= next <= ts.len(),
    decreases ts.len() - pos, 0int,
{
    if let Some(op) = grammar::product_op(grammar::peek(ts, pos)) {
        forward_unary(m, ts, pos + 1);
        if let Ok((rhs, next)) = grammar::unary_at(m, ts, pos + 1) {
            if grammar::further(ts, pos, next) {
                forward_product_rest(m, ts, next, grammar::binary(op, lhs, rhs));
            }
        }
    }
}

proof fn forward_unary(m: NumberModel, ts: Seq<SpecSpanned>, pos: int)
    requires
        0 <= pos,
    ensures
        grammar::unary_at(m, ts, pos) matches Ok((_, next)) ==> pos < next <= ts.len(),
    decreases ts.len() - pos, 4int,
{
    if grammar::peek(ts, pos) == SpecToken::Minus {
        forward_unary(m, ts, pos + 1);
    } else {
        forward_power(m, ts, pos);
    }
}

proof fn forward_power(m: NumberModel, ts: Seq<SpecSpanned>, pos: int)
    requires
        0 <= pos,
    ensures
        grammar::power_at(m, ts, pos) matches Ok((_, next)) ==> pos < next <= ts.len(),
    decreases ts.len() - pos, 3int,
{
    forward_postfix(m, ts, pos);
    if let Ok((lhs, next)) = grammar::postfix_at(m, ts, pos) {
        if grammar::peek(ts, next) == SpecToken::Caret && grammar::further(ts, pos, next) {
            forward_power(m, ts, next + 1);
        }
    }
}

proof fn forward_postfix(m: NumberModel, ts: Seq<SpecSpanned>, pos: int)
    requires
        0 <= pos,
    ensures
        grammar::postfix_at(m, ts, pos) matches Ok((_, next)) ==> pos < next <= ts.len(),
    decreases ts.len() - pos, 2int,
{
    forward_primary(m, ts, pos);
    if let Ok((base, next)) = grammar::primary_at(m, ts, pos) {
        if grammar::further(ts, pos, next) {
            forward_access_rest(m, ts, next, base);
        }
    }
}

proof fn forward_access_rest(m: NumberModel, ts: Seq<SpecSpanned>, pos: int, base: SpecExpr)
    requires
        0 <= pos <= ts.len(),
    ensures
        grammar::access_rest(m, ts, pos, base) matches Ok((_, next)) ==> pos <= next <= ts.len(),
    decreases ts.len() - pos, 0int,
{
    if grammar::peek(ts, pos) == SpecToken::Dot {
        if let Ok((name, next)) = grammar::name_at(m, ts, pos + 1) {
            forward_access_rest(m, ts, next, SpecExpr::Field { base: Box::new(base), name });
        }
    } else if grammar::peek(ts, pos) == SpecToken::LAngle && grammar::subset_at(ts, pos) {
        if let SpecToken::Ident(name) = grammar::peek(ts, pos + 1) {
            forward_access_rest(m, ts, pos + 3, SpecExpr::Subset { base: Box::new(base), name });
        }
    }
}

proof fn forward_primary(m: NumberModel, ts: Seq<SpecSpanned>, pos: int)
    requires
        0 <= pos,
    ensures
        grammar::primary_at(m, ts, pos) matches Ok((_, next)) ==> pos < next <= ts.len(),
    decreases ts.len() - pos, 1int,
{
    match grammar::peek(ts, pos) {
        SpecToken::LParen => forward_expr(m, ts, pos + 1),
        SpecToken::Ident(name) => {
            if name == "if"@ {
                forward_if(m, ts, pos + 1);
            } else if grammar::peek(ts, pos + 1) == SpecToken::LParen {
                forward_args(m, ts, pos + 2);
            }
        },
        SpecToken::LBracket => {
            if grammar::unsafe_at(ts, pos) && grammar::peek(ts, pos + 3) == SpecToken::LBrace {
                forward_block(m, ts, pos + 4, Seq::empty());
            }
        },
        _ => {},
    }
}

proof fn forward_braced(m: NumberModel, ts: Seq<SpecSpanned>, pos: int)
    requires
        0 <= pos,
    ensures
        grammar::braced_at(m, ts, pos) matches Ok((_, next)) ==> pos < next <= ts.len(),
    decreases ts.len() - pos, 0int,
{
    if grammar::peek(ts, pos) == SpecToken::LBrace {
        forward_expr(m, ts, pos + 1);
    }
}

proof fn forward_if(m: NumberModel, ts: Seq<SpecSpanned>, pos: int)
    requires
        0 <= pos,
    ensures
        grammar::if_at(m, ts, pos) matches Ok((_, next)) ==> pos < next <= ts.len(),
    decreases ts.len() - pos, 7int,
{
    forward_expr(m, ts, pos);
    if let Ok((condition, p1)) = grammar::expr_at(m, ts, pos) {
        if grammar::further(ts, pos, p1) {
            forward_braced(m, ts, p1);
            if let Ok((then_branch, p2)) = grammar::braced_at(m, ts, p1) {
                if grammar::further(ts, pos, p2) && grammar::word_at(ts, p2, "else"@) {
                    forward_braced(m, ts, p2 + 1);
                }
            }
        }
    }
}

proof fn forward_args(m: NumberModel, ts: Seq<SpecSpanned>, pos: int)
    requires
        0 <= pos,
    ensures
        grammar::args_at(m, ts, pos) matches Ok((_, next)) ==> pos < next <= ts.len(),
    decreases ts.len() - pos, 8int,
{
    if grammar::peek(ts, pos) != SpecToken::RParen {
        forward_exprs(m, ts, pos, Seq::empty());
    }
}

proof fn forward_exprs(m: NumberModel, ts: Seq<SpecSpanned>, pos: int, read: Seq<SpecExpr>)
    requires
        0 <= pos,
    ensures
        grammar::exprs_at(m, ts, pos, read) matches Ok((_, next)) ==> pos < next <= ts.len(),
    decreases ts.len() - pos, 7int,
{
    forward_expr(m, ts, pos);
    if let Ok((e, next)) = grammar::expr_at(m, ts, pos) {
        if grammar::peek(ts, next) == SpecToken::Comma && grammar::further(ts, pos, next) {
            forward_exprs(m, ts, next + 1, read.push(e));
        }
    }
}

proof fn forward_names(m: NumberModel, ts: Seq<SpecSpanned>, pos: int, read: Seq<Seq<char>>)
    requires
        0 <= pos,
    ensures
        grammar::names_at(m, ts, pos, read) matches Ok((_, next)) ==> pos < next <= ts.len(),
    decreases ts.len() - pos, 7int,
{
    if let Ok((name, next)) = grammar::name_at(m, ts, pos) {
        if grammar::peek(ts, next) == SpecToken::Comma {
            forward_names(m, ts, next + 1, read.push(name));
        }
    }
}

proof fn forward_params(m: NumberModel, ts: Seq<SpecSpanned>, pos: int)
    requires
        0 <= pos,
    ensures
        grammar::params_at(m, ts, pos) matches Ok((_, next)) ==> pos < next <= ts.len(),
    decreases ts.len() - pos, 8int,
{
    if grammar::peek(ts, pos) != SpecToken::RParen {
        forward_names(m, ts, pos, Seq::empty());
    }
}

proof fn forward_block(m: NumberModel, ts: Seq<SpecSpanned>, pos: int, read: Seq<SpecStmt>)
    requires
        0 <= pos,
    ensures
        grammar::block_at(m, ts, pos, read) matches Ok((_, next)) ==> pos < next <= ts.len(),
    decreases ts.len() - pos, 10int,
{
    if grammar::peek(ts, pos) != SpecToken::RBrace {
        forward_stmt(m, ts, pos);
        if let Ok((s, p1)) = grammar::stmt_at(m, ts, pos) {
            if let Ok(p2) = grammar::stmt_end(m, ts, p1, s) {
                if grammar::further(ts, pos, p2) {
                    forward_block(m, ts, p2, read.push(s));
                }
            }
        }
    }
}

proof fn forward_stmt(m: NumberModel, ts: Seq<SpecSpanned>, pos: int)
    requires
        0 <= pos,
    ensures
        grammar::stmt_at(m, ts, pos) matches Ok((_, next)) ==> pos < next <= ts.len(),
    decreases ts.len() - pos, 9int,
{
    if grammar::word_at(ts, pos, "print"@) {
        if grammar::peek(ts, pos + 1) == SpecToken::LParen {
            forward_args(m, ts, pos + 2);
        }
    } else if grammar::word_at(ts, pos, "fn"@) {
        forward_fn(m, ts, pos);
    } else if grammar::word_at(ts, pos, "return"@) {
        forward_expr(m, ts, pos + 1);
    } else if grammar::word_at(ts, pos, "while"@) && grammar::peek(ts, pos + 1)
        != SpecToken::Equals {
        forward_expr(m, ts, pos + 1);
        if let Ok((condition, next)) = grammar::expr_at(m, ts, pos + 1) {
            if grammar::peek(ts, next) == SpecToken::LBrace && grammar::further(ts, pos, next + 1) {
                forward_block(m, ts, next + 1, Seq::empty());
            }
        }
    } else if grammar::word_at(ts, pos, "mut"@) && grammar::peek(ts, pos + 1) is Ident {
        forward_assign(m, ts, pos + 1, true);
    } else {
        forward_assign(m, ts, pos, false);
    }
}

proof fn forward_assign(m: NumberModel, ts: Seq<SpecSpanned>, pos: int, mutable: bool)
    requires
        0 <= pos,
    ensures
        grammar::assign_at(m, ts, pos, mutable) matches Ok((_, next)) ==> pos < next <= ts.len(),
    decreases ts.len() - pos, 7int,
{
    if grammar::peek(ts, pos) is Ident && grammar::peek(ts, pos + 1) == SpecToken::Equals {
        forward_expr(m, ts, pos + 2);
    }
}

proof fn forward_fn(m: NumberModel, ts: Seq<SpecSpanned>, pos: int)
    requires
        0 <= pos,
    ensures
        grammar::fn_at(m, ts, pos) matches Ok((_, next)) ==> pos < next <= ts.len(),
    decreases ts.len() - pos, 8int,
{
    if grammar::peek(ts, pos + 1) is Ident && grammar::peek(ts, pos + 2) == SpecToken::LParen {
        forward_params(m, ts, pos + 3);
        if let Ok((params, next)) = grammar::params_at(m, ts, pos + 3) {
            if grammar::peek(ts, next) == SpecToken::LBrace && grammar::further(ts, pos, next + 1) {
                forward_block(m, ts, next + 1, Seq::empty());
            }
        }
    }
}

// ---- elsewhere -------------------------------------------------------------
//
// The same tokens are read in the same way wherever they stand.

proof fn moved_expr(m: NumberModel, a: Seq<SpecSpanned>, b: Seq<SpecSpanned>, k: int, pos: int)
    requires
        moved(a, b, k),
        0 <= pos,
    ensures
        grammar::expr_at(m, b, k + pos) == shifted(k, grammar::expr_at(m, a, pos)),
    decreases a.len() - pos, 6int,
{
    moved_term(m, a, b, k, pos);
    if let Ok((lhs, next)) = grammar::term_at(m, a, pos) {
        if grammar::further(a, pos, next) {
            moved_sum_rest(m, a, b, k, next, lhs);
        }
    }
}

proof fn moved_sum_rest(
    m: NumberModel,
    a: Seq<SpecSpanned>,
    b: Seq<SpecSpanned>,
    k: int,
    pos: int,
    lhs: SpecExpr,
)
    requires
        moved(a, b, k),
        0 <= pos,
    ensures
        grammar::sum_rest(m, b, k + pos, lhs) == shifted(k, grammar::sum_rest(m, a, pos, lhs)),
    decreases a.len() - pos, 0int,
{
    if let Some(op) = grammar::sum_op(grammar::peek(a, pos)) {
        moved_term(m, a, b, k, pos + 1);
        if let Ok((rhs, next)) = grammar::term_at(m, a, pos + 1) {
            if grammar::further(a, pos, next) {
                moved_sum_rest(m, a, b, k, next, grammar::binary(op, lhs, rhs));
            }
        }
    }
}

proof fn moved_term(m: NumberModel, a: Seq<SpecSpanned>, b: Seq<SpecSpanned>, k: int, pos: int)
    requires
        moved(a, b, k),
        0 <= pos,
    ensures
        grammar::term_at(m, b, k + pos) == shifted(k, grammar::term_at(m, a, pos)),
    decreases a.len() - pos, 5int,
{
    moved_unary(m, a, b, k, pos);
    if let Ok((lhs, next)) = grammar::unary_at(m, a, pos) {
        if grammar::further(a, pos, next) {
            moved_product_rest(m, a, b, k, next, lhs);
        }
    }
}

proof fn moved_product_rest(
    m: NumberModel,
    a: Seq<SpecSpanned>,
    b: Seq<SpecSpanned>,
    k: int,
    pos: int,
    lhs: SpecExpr,
)
    requires
        moved(a, b, k),
        0 <= pos,
    ensures
        grammar::product_rest(m, b, k + pos, lhs)
            == shifted(k, grammar::product_rest(m, a, pos, lhs)),
    decreases a.len() - pos, 0int,
{
    if let Some(op) = grammar::product_op(grammar::peek(a, pos)) {
        moved_unary(m, a, b, k, pos + 1);
        if let Ok((rhs, next)) = grammar::unary_at(m, a, pos + 1) {
            if grammar::further(a, pos, next) {
                moved_product_rest(m, a, b, k, next, grammar::binary(op, lhs, rhs));
            }
        }
    }
}

proof fn moved_unary(m: NumberModel, a: Seq<SpecSpanned>, b: Seq<SpecSpanned>, k: int, pos: int)
    requires
        moved(a, b, k),
        0 <= pos,
    ensures
        grammar::unary_at(m, b, k + pos) == shifted(k, grammar::unary_at(m, a, pos)),
    decreases a.len() - pos, 4int,
{
    if grammar::peek(a, pos) == SpecToken::Minus {
        moved_unary(m, a, b, k, pos + 1);
    } else {
        moved_power(m, a, b, k, pos);
    }
}

proof fn moved_power(m: NumberModel, a: Seq<SpecSpanned>, b: Seq<SpecSpanned>, k: int, pos: int)
    requires
        moved(a, b, k),
        0 <= pos,
    ensures
        grammar::power_at(m, b, k + pos) == shifted(k, grammar::power_at(m, a, pos)),
    decreases a.len() - pos, 3int,
{
    forward_postfix(m, a, pos);
    moved_postfix(m, a, b, k, pos);
    if let Ok((lhs, next)) = grammar::postfix_at(m, a, pos) {
        if grammar::peek(a, next) == SpecToken::Caret && grammar::further(a, pos, next) {
            moved_power(m, a, b, k, next + 1);
        }
    }
}

proof fn moved_postfix(m: NumberModel, a: Seq<SpecSpanned>, b: Seq<SpecSpanned>, k: int, pos: int)
    requires
        moved(a, b, k),
        0 <= pos,
    ensures
        grammar::postfix_at(m, b, k + pos) == shifted(k, grammar::postfix_at(m, a, pos)),
    decreases a.len() - pos, 2int,
{
    moved_primary(m, a, b, k, pos);
    if let Ok((base, next)) = grammar::primary_at(m, a, pos) {
        if grammar::further(a, pos, next) {
            moved_access_rest(m, a, b, k, next, base);
        }
    }
}

proof fn moved_access_rest(
    m: NumberModel,
    a: Seq<SpecSpanned>,
    b: Seq<SpecSpanned>,
    k: int,
    pos: int,
    base: SpecExpr,
)
    requires
        moved(a, b, k),
        0 <= pos,
    ensures
        grammar::access_rest(m, b, k + pos, base)
            == shifted(k, grammar::access_rest(m, a, pos, base)),
    decreases a.len() - pos, 0int,
{
    if grammar::peek(a, pos) == SpecToken::Dot {
        if let Ok((name, next)) = grammar::name_at(m, a, pos + 1) {
            moved_access_rest(m, a, b, k, next, SpecExpr::Field { base: Box::new(base), name });
        }
    } else if grammar::peek(a, pos) == SpecToken::LAngle && grammar::subset_at(a, pos) {
        if let SpecToken::Ident(name) = grammar::peek(a, pos + 1) {
            moved_access_rest(m, a, b, k, pos + 3, SpecExpr::Subset { base: Box::new(base), name });
        }
    }
}

#[verifier::rlimit(30)]
proof fn moved_primary(m: NumberModel, a: Seq<SpecSpanned>, b: Seq<SpecSpanned>, k: int, pos: int)
    requires
        moved(a, b, k),
        0 <= pos,
    ensures
        grammar::primary_at(m, b, k + pos) == shifted(k, grammar::primary_at(m, a, pos)),
    decreases a.len() - pos, 1int,
{
    let t = grammar::peek(a, pos);
    assert(grammar::peek(b, k + pos) == t);
    assert(grammar::peek(b, k + pos + 1) == grammar::peek(a, pos + 1));
    assert(grammar::peek(b, k + pos + 2) == grammar::peek(a, pos + 2));
    assert(grammar::peek(b, k + pos + 3) == grammar::peek(a, pos + 3));
    assert(grammar::unsafe_at(b, k + pos) == grammar::unsafe_at(a, pos));
    forward_expr(m, a, pos + 1);
    match grammar::peek(a, pos) {
        SpecToken::LParen => moved_expr(m, a, b, k, pos + 1),
        SpecToken::Ident(name) => {
            if name == "if"@ {
                moved_if(m, a, b, k, pos + 1);
            } else if grammar::peek(a, pos + 1) == SpecToken::LParen {
                moved_args(m, a, b, k, pos + 2);
            }
        },
        SpecToken::LBracket => {
            if grammar::unsafe_at(a, pos) && grammar::peek(a, pos + 3) == SpecToken::LBrace {
                moved_block(m, a, b, k, pos + 4, Seq::empty());
            }
        },
        _ => {},
    }
}

proof fn moved_braced(m: NumberModel, a: Seq<SpecSpanned>, b: Seq<SpecSpanned>, k: int, pos: int)
    requires
        moved(a, b, k),
        0 <= pos,
    ensures
        grammar::braced_at(m, b, k + pos) == shifted(k, grammar::braced_at(m, a, pos)),
    decreases a.len() - pos, 0int,
{
    forward_expr(m, a, pos + 1);
    if grammar::peek(a, pos) == SpecToken::LBrace {
        moved_expr(m, a, b, k, pos + 1);
    }
}

proof fn moved_if(m: NumberModel, a: Seq<SpecSpanned>, b: Seq<SpecSpanned>, k: int, pos: int)
    requires
        moved(a, b, k),
        0 <= pos,
    ensures
        grammar::if_at(m, b, k + pos) == shifted(k, grammar::if_at(m, a, pos)),
    decreases a.len() - pos, 7int,
{
    forward_expr(m, a, pos);
    moved_expr(m, a, b, k, pos);
    if let Ok((condition, p1)) = grammar::expr_at(m, a, pos) {
        if grammar::further(a, pos, p1) {
            moved_braced(m, a, b, k, p1);
            if let Ok((then_branch, p2)) = grammar::braced_at(m, a, p1) {
                if grammar::further(a, pos, p2) && grammar::word_at(a, p2, "else"@) {
                    moved_braced(m, a, b, k, p2 + 1);
                }
            }
        }
    }
}

proof fn moved_args(m: NumberModel, a: Seq<SpecSpanned>, b: Seq<SpecSpanned>, k: int, pos: int)
    requires
        moved(a, b, k),
        0 <= pos,
    ensures
        grammar::args_at(m, b, k + pos) == shifted(k, grammar::args_at(m, a, pos)),
    decreases a.len() - pos, 8int,
{
    forward_exprs(m, a, pos, Seq::empty());
    if grammar::peek(a, pos) != SpecToken::RParen {
        moved_exprs(m, a, b, k, pos, Seq::empty());
    }
}

proof fn moved_exprs(
    m: NumberModel,
    a: Seq<SpecSpanned>,
    b: Seq<SpecSpanned>,
    k: int,
    pos: int,
    read: Seq<SpecExpr>,
)
    requires
        moved(a, b, k),
        0 <= pos,
    ensures
        grammar::exprs_at(m, b, k + pos, read) == shifted(k, grammar::exprs_at(m, a, pos, read)),
    decreases a.len() - pos, 7int,
{
    forward_expr(m, a, pos);
    moved_expr(m, a, b, k, pos);
    if let Ok((e, next)) = grammar::expr_at(m, a, pos) {
        if grammar::peek(a, next) == SpecToken::Comma && grammar::further(a, pos, next) {
            moved_exprs(m, a, b, k, next + 1, read.push(e));
        }
    }
}

proof fn moved_names(
    m: NumberModel,
    a: Seq<SpecSpanned>,
    b: Seq<SpecSpanned>,
    k: int,
    pos: int,
    read: Seq<Seq<char>>,
)
    requires
        moved(a, b, k),
        0 <= pos,
    ensures
        grammar::names_at(m, b, k + pos, read) == shifted(k, grammar::names_at(m, a, pos, read)),
    decreases a.len() - pos, 7int,
{
    if let Ok((name, next)) = grammar::name_at(m, a, pos) {
        if grammar::peek(a, next) == SpecToken::Comma {
            moved_names(m, a, b, k, next + 1, read.push(name));
        }
    }
}

proof fn moved_params(m: NumberModel, a: Seq<SpecSpanned>, b: Seq<SpecSpanned>, k: int, pos: int)
    requires
        moved(a, b, k),
        0 <= pos,
    ensures
        grammar::params_at(m, b, k + pos) == shifted(k, grammar::params_at(m, a, pos)),
    decreases a.len() - pos, 8int,
{
    forward_names(m, a, pos, Seq::empty());
    if grammar::peek(a, pos) != SpecToken::RParen {
        moved_names(m, a, b, k, pos, Seq::empty());
    }
}

proof fn moved_block(
    m: NumberModel,
    a: Seq<SpecSpanned>,
    b: Seq<SpecSpanned>,
    k: int,
    pos: int,
    read: Seq<SpecStmt>,
)
    requires
        moved(a, b, k),
        0 <= pos,
    ensures
        grammar::block_at(m, b, k + pos, read) == shifted(k, grammar::block_at(m, a, pos, read)),
    decreases a.len() - pos, 10int,
{
    forward_stmt(m, a, pos);
    if grammar::peek(a, pos) != SpecToken::RBrace {
        moved_stmt(m, a, b, k, pos);
        if let Ok((s, p1)) = grammar::stmt_at(m, a, pos) {
            if let Ok(p2) = grammar::stmt_end(m, a, p1, s) {
                if grammar::further(a, pos, p2) {
                    moved_block(m, a, b, k, p2, read.push(s));
                }
            }
        }
    }
}

#[verifier::rlimit(30)]
proof fn moved_stmt(m: NumberModel, a: Seq<SpecSpanned>, b: Seq<SpecSpanned>, k: int, pos: int)
    requires
        moved(a, b, k),
        0 <= pos,
    ensures
        grammar::stmt_at(m, b, k + pos) == shifted(k, grammar::stmt_at(m, a, pos)),
    decreases a.len() - pos, 9int,
{
    forward_expr(m, a, pos + 1);
    if grammar::word_at(a, pos, "print"@) {
        if grammar::peek(a, pos + 1) == SpecToken::LParen {
            moved_args(m, a, b, k, pos + 2);
        }
    } else if grammar::word_at(a, pos, "fn"@) {
        moved_fn(m, a, b, k, pos);
    } else if grammar::word_at(a, pos, "return"@) {
        moved_expr(m, a, b, k, pos + 1);
    } else if grammar::word_at(a, pos, "while"@) && grammar::peek(a, pos + 1)
        != SpecToken::Equals {
        moved_expr(m, a, b, k, pos + 1);
        if let Ok((condition, next)) = grammar::expr_at(m, a, pos + 1) {
            if grammar::peek(a, next) == SpecToken::LBrace && grammar::further(a, pos, next + 1) {
                moved_block(m, a, b, k, next + 1, Seq::empty());
            }
        }
    } else if grammar::word_at(a, pos, "mut"@) && grammar::peek(a, pos + 1) is Ident {
        moved_assign(m, a, b, k, pos + 1, true);
    } else {
        moved_assign(m, a, b, k, pos, false);
    }
}

proof fn moved_assign(
    m: NumberModel,
    a: Seq<SpecSpanned>,
    b: Seq<SpecSpanned>,
    k: int,
    pos: int,
    mutable: bool,
)
    requires
        moved(a, b, k),
        0 <= pos,
    ensures
        grammar::assign_at(m, b, k + pos, mutable)
            == shifted(k, grammar::assign_at(m, a, pos, mutable)),
    decreases a.len() - pos, 7int,
{
    if grammar::peek(a, pos) is Ident && grammar::peek(a, pos + 1) == SpecToken::Equals {
        moved_expr(m, a, b, k, pos + 2);
    }
}

proof fn moved_fn(m: NumberModel, a: Seq<SpecSpanned>, b: Seq<SpecSpanned>, k: int, pos: int)
    requires
        moved(a, b, k),
        0 <= pos,
    ensures
        grammar::fn_at(m, b, k + pos) == shifted(k, grammar::fn_at(m, a, pos)),
    decreases a.len() - pos, 8int,
{
    forward_params(m, a, pos + 3);
    if grammar::peek(a, pos + 1) is Ident && grammar::peek(a, pos + 2) == SpecToken::LParen {
        moved_params(m, a, b, k, pos + 3);
        if let Ok((params, next)) = grammar::params_at(m, a, pos + 3) {
            if grammar::peek(a, next) == SpecToken::LBrace && grammar::further(a, pos, next + 1) {
                moved_block(m, a, b, k, next + 1, Seq::empty());
            }
        }
    }
}

// ---- complaints ------------------------------------------------------------
//
// Where the last token is the end of input, nothing is read past it, and what is
// wrong is wrong with one of the tokens.

proof fn within_expr(m: NumberModel, ts: Seq<SpecSpanned>, pos: int)
    requires
        ends(ts),
        0 <= pos < ts.len(),
    ensures
        match grammar::expr_at(m, ts, pos) {
            Ok((_, next)) => next < ts.len(),
            Err(e) => 0 <= e.at < ts.len(),
        },
    decreases ts.len() - pos, 6int,
{
    forward_term(m, ts, pos);
    within_term(m, ts, pos);
    if let Ok((lhs, next)) = grammar::term_at(m, ts, pos) {
        if grammar::further(ts, pos, next) {
            within_sum_rest(m, ts, next, lhs);
        }
    }
}

proof fn within_sum_rest(m: NumberModel, ts: Seq<SpecSpanned>, pos: int, lhs: SpecExpr)
    requires
        ends(ts),
        0 <= pos < ts.len(),
    ensures
        match grammar::sum_rest(m, ts, pos, lhs) {
            Ok((_, next)) => next < ts.len(),
            Err(e) => 0 <= e.at < ts.len(),
        },
    decreases ts.len() - pos, 0int,
{
    forward_term(m, ts, pos + 1);
    if let Some(op) = grammar::sum_op(grammar::peek(ts, pos)) {
        within_term(m, ts, pos + 1);
        if let Ok((rhs, next)) = grammar::term_at(m, ts, pos + 1) {
            if grammar::further(ts, pos, next) {
                within_sum_rest(m, ts, next, grammar::binary(op, lhs, rhs));
            }
        }
    }
}

proof fn within_term(m: NumberModel, ts: Seq<SpecSpanned>, pos: int)
    requires
        ends(ts),
        0 <= pos < ts.len(),
    ensures
        match grammar::term_at(m, ts, pos) {
            Ok((_, next)) => next < ts.len(),
            Err(e) => 0 <= e.at < ts.len(),
        },
    decreases ts.len() - pos, 5int,
{
    forward_unary(m, ts, pos);
    within_unary(m, ts, pos);
    if let Ok((lhs, next)) = grammar::unary_at(m, ts, pos) {
        if grammar::further(ts, pos, next) {
            within_product_rest(m, ts, next, lhs);
        }
    }
}

proof fn within_product_rest(m: NumberModel, ts: Seq<SpecSpanned>, pos: int, lhs: SpecExpr)
    requires
        ends(ts),
        0 <= pos < ts.len(),
    ensures
        match grammar::product_rest(m, ts, pos, lhs) {
            Ok((_, next)) => next < ts.len(),
            Err(e) => 0 <= e.at < ts.len(),
        },
    decreases ts.len() - pos, 0int,
{
    forward_unary(m, ts, pos + 1);
    if let Some(op) = grammar::product_op(grammar::peek(ts, pos)) {
        within_unary(m, ts, pos + 1);
        if let Ok((rhs, next)) = grammar::unary_at(m, ts, pos + 1) {
            if grammar::further(ts, pos, next) {
                within_product_rest(m, ts, next, grammar::binary(op, lhs, rhs));
            }
        }
    }
}

proof fn within_unary(m: NumberModel, ts: Seq<SpecSpanned>, pos: int)
    requires
        ends(ts),
        0 <= pos < ts.len(),
    ensures
        match grammar::unary_at(m, ts, pos) {
            Ok((_, next)) => next < ts.len(),
            Err(e) => 0 <= e.at < ts.len(),
        },
    decreases ts.len() - pos, 4int,
{
    if grammar::peek(ts, pos) == SpecToken::Minus {
        within_unary(m, ts, pos + 1);
    } else {
        within_power(m, ts, pos);
    }
}

proof fn within_power(m: NumberModel, ts: Seq<SpecSpanned>, pos: int)
    requires
        ends(ts),
        0 <= pos < ts.len(),
    ensures
        match grammar::power_at(m, ts, pos) {
            Ok((_, next)) => next < ts.len(),
            Err(e) => 0 <= e.at < ts.len(),
        },
    decreases ts.len() - pos, 3int,
{
    forward_postfix(m, ts, pos);
    within_postfix(m, ts, pos);
    if let Ok((lhs, next)) = grammar::postfix_at(m, ts, pos) {
        if grammar::peek(ts, next) == SpecToken::Caret && grammar::further(ts, pos, next) {
            within_power(m, ts, next + 1);
        }
    }
}

proof fn within_postfix(m: NumberModel, ts: Seq<SpecSpanned>, pos: int)
    requires
        ends(ts),
        0 <= pos < ts.len(),
    ensures
        match grammar::postfix_at(m, ts, pos) {
            Ok((_, next)) => next < ts.len(),
            Err(e) => 0 <= e.at < ts.len(),
        },
    decreases ts.len() - pos, 2int,
{
    forward_primary(m, ts, pos);
    within_primary(m, ts, pos);
    if let Ok((base, next)) = grammar::primary_at(m, ts, pos) {
        if grammar::further(ts, pos, next) {
            within_access_rest(m, ts, next, base);
        }
    }
}

proof fn within_access_rest(m: NumberModel, ts: Seq<SpecSpanned>, pos: int, base: SpecExpr)
    requires
        ends(ts),
        0 <= pos < ts.len(),
    ensures
        match grammar::access_rest(m, ts, pos, base) {
            Ok((_, next)) => next < ts.len(),
            Err(e) => 0 <= e.at < ts.len(),
        },
    decreases ts.len() - pos, 0int,
{
    if grammar::peek(ts, pos) == SpecToken::Dot {
        if let Ok((name, next)) = grammar::name_at(m, ts, pos + 1) {
            within_access_rest(m, ts, next, SpecExpr::Field { base: Box::new(base), name });
        }
    } else if grammar::peek(ts, pos) == SpecToken::LAngle && grammar::subset_at(ts, pos) {
        if let SpecToken::Ident(name) = grammar::peek(ts, pos + 1) {
            within_access_rest(m, ts, pos + 3, SpecExpr::Subset { base: Box::new(base), name });
        }
    }
}

#[verifier::rlimit(30)]
proof fn within_primary(m: NumberModel, ts: Seq<SpecSpanned>, pos: int)
    requires
        ends(ts),
        0 <= pos < ts.len(),
    ensures
        match grammar::primary_at(m, ts, pos) {
            Ok((_, next)) => next < ts.len(),
            Err(e) => 0 <= e.at < ts.len(),
        },
    decreases ts.len() - pos, 1int,
{
    forward_expr(m, ts, pos + 1);
    match grammar::peek(ts, pos) {
        SpecToken::LParen => within_expr(m, ts, pos + 1),
        SpecToken::Ident(name) => {
            if name == "if"@ {
                within_if(m, ts, pos + 1);
            } else if grammar::peek(ts, pos + 1) == SpecToken::LParen {
                within_args(m, ts, pos + 2);
            }
        },
        SpecToken::LBracket => {
            if grammar::unsafe_at(ts, pos) && grammar::peek(ts, pos + 3) == SpecToken::LBrace {
                within_block(m, ts, pos + 4, Seq::empty());
            }
        },
        _ => {},
    }
}

proof fn within_braced(m: NumberModel, ts: Seq<SpecSpanned>, pos: int)
    requires
        ends(ts),
        0 <= pos < ts.len(),
    ensures
        match grammar::braced_at(m, ts, pos) {
            Ok((_, next)) => next < ts.len(),
            Err(e) => 0 <= e.at < ts.len(),
        },
    decreases ts.len() - pos, 0int,
{
    forward_expr(m, ts, pos + 1);
    if grammar::peek(ts, pos) == SpecToken::LBrace {
        within_expr(m, ts, pos + 1);
    }
}

proof fn within_if(m: NumberModel, ts: Seq<SpecSpanned>, pos: int)
    requires
        ends(ts),
        0 <= pos < ts.len(),
    ensures
        match grammar::if_at(m, ts, pos) {
            Ok((_, next)) => next < ts.len(),
            Err(e) => 0 <= e.at < ts.len(),
        },
    decreases ts.len() - pos, 7int,
{
    forward_expr(m, ts, pos);
    if let Ok((_, p1)) = grammar::expr_at(m, ts, pos) {
        forward_braced(m, ts, p1);
    }
    within_expr(m, ts, pos);
    if let Ok((condition, p1)) = grammar::expr_at(m, ts, pos) {
        if grammar::further(ts, pos, p1) {
            within_braced(m, ts, p1);
            if let Ok((then_branch, p2)) = grammar::braced_at(m, ts, p1) {
                if grammar::further(ts, pos, p2) && grammar::word_at(ts, p2, "else"@) {
                    within_braced(m, ts, p2 + 1);
                }
            }
        }
    }
}

proof fn within_args(m: NumberModel, ts: Seq<SpecSpanned>, pos: int)
    requires
        ends(ts),
        0 <= pos < ts.len(),
    ensures
        match grammar::args_at(m, ts, pos) {
            Ok((_, next)) => next < ts.len(),
            Err(e) => 0 <= e.at < ts.len(),
        },
    decreases ts.len() - pos, 8int,
{
    forward_exprs(m, ts, pos, Seq::empty());
    if grammar::peek(ts, pos) != SpecToken::RParen {
        within_exprs(m, ts, pos, Seq::empty());
    }
}

proof fn within_exprs(m: NumberModel, ts: Seq<SpecSpanned>, pos: int, read: Seq<SpecExpr>)
    requires
        ends(ts),
        0 <= pos < ts.len(),
    ensures
        match grammar::exprs_at(m, ts, pos, read) {
            Ok((_, next)) => next < ts.len(),
            Err(e) => 0 <= e.at < ts.len(),
        },
    decreases ts.len() - pos, 7int,
{
    forward_expr(m, ts, pos);
    within_expr(m, ts, pos);
    if let Ok((e, next)) = grammar::expr_at(m, ts, pos) {
        if grammar::peek(ts, next) == SpecToken::Comma && grammar::further(ts, pos, next) {
            within_exprs(m, ts, next + 1, read.push(e));
        }
    }
}

proof fn within_names(m: NumberModel, ts: Seq<SpecSpanned>, pos: int, read: Seq<Seq<char>>)
    requires
        ends(ts),
        0 <= pos < ts.len(),
    ensures
        match grammar::names_at(m, ts, pos, read) {
            Ok((_, next)) => next < ts.len(),
            Err(e) => 0 <= e.at < ts.len(),
        },
    decreases ts.len() - pos, 7int,
{
    if let Ok((name, next)) = grammar::name_at(m, ts, pos) {
        if grammar::peek(ts, next) == SpecToken::Comma {
            within_names(m, ts, next + 1, read.push(name));
        }
    }
}

proof fn within_params(m: NumberModel, ts: Seq<SpecSpanned>, pos: int)
    requires
        ends(ts),
        0 <= pos < ts.len(),
    ensures
        match grammar::params_at(m, ts, pos) {
            Ok((_, next)) => next < ts.len(),
            Err(e) => 0 <= e.at < ts.len(),
        },
    decreases ts.len() - pos, 8int,
{
    forward_names(m, ts, pos, Seq::empty());
    if grammar::peek(ts, pos) != SpecToken::RParen {
        within_names(m, ts, pos, Seq::empty());
    }
}

proof fn within_block(m: NumberModel, ts: Seq<SpecSpanned>, pos: int, read: Seq<SpecStmt>)
    requires
        ends(ts),
        0 <= pos < ts.len(),
    ensures
        match grammar::block_at(m, ts, pos, read) {
            Ok((_, next)) => next < ts.len(),
            Err(e) => 0 <= e.at < ts.len(),
        },
    decreases ts.len() - pos, 10int,
{
    forward_stmt(m, ts, pos);
    if grammar::peek(ts, pos) != SpecToken::RBrace {
        within_stmt(m, ts, pos);
        if let Ok((s, p1)) = grammar::stmt_at(m, ts, pos) {
            if let Ok(p2) = grammar::stmt_end(m, ts, p1, s) {
                if grammar::further(ts, pos, p2) {
                    within_block(m, ts, p2, read.push(s));
                }
            }
        }
    }
}

#[verifier::rlimit(30)]
proof fn within_stmt(m: NumberModel, ts: Seq<SpecSpanned>, pos: int)
    requires
        ends(ts),
        0 <= pos < ts.len(),
    ensures
        match grammar::stmt_at(m, ts, pos) {
            Ok((_, next)) => next < ts.len(),
            Err(e) => 0 <= e.at < ts.len(),
        },
    decreases ts.len() - pos, 9int,
{
    forward_expr(m, ts, pos + 1);
    if grammar::word_at(ts, pos, "print"@) {
        if grammar::peek(ts, pos + 1) == SpecToken::LParen {
            within_args(m, ts, pos + 2);
        }
    } else if grammar::word_at(ts, pos, "fn"@) {
        within_fn(m, ts, pos);
    } else if grammar::word_at(ts, pos, "return"@) {
        within_expr(m, ts, pos + 1);
    } else if grammar::word_at(ts, pos, "while"@) && grammar::peek(ts, pos + 1)
        != SpecToken::Equals {
        within_expr(m, ts, pos + 1);
        if let Ok((condition, next)) = grammar::expr_at(m, ts, pos + 1) {
            if grammar::peek(ts, next) == SpecToken::LBrace && grammar::further(ts, pos, next + 1) {
                within_block(m, ts, next + 1, Seq::empty());
            }
        }
    } else if grammar::word_at(ts, pos, "mut"@) && grammar::peek(ts, pos + 1) is Ident {
        within_assign(m, ts, pos + 1, true);
    } else {
        within_assign(m, ts, pos, false);
    }
}

proof fn within_assign(m: NumberModel, ts: Seq<SpecSpanned>, pos: int, mutable: bool)
    requires
        ends(ts),
        0 <= pos < ts.len(),
    ensures
        match grammar::assign_at(m, ts, pos, mutable) {
            Ok((_, next)) => next < ts.len(),
            Err(e) => 0 <= e.at < ts.len(),
        },
    decreases ts.len() - pos, 7int,
{
    if grammar::peek(ts, pos) is Ident && grammar::peek(ts, pos + 1) == SpecToken::Equals {
        within_expr(m, ts, pos + 2);
    }
}

proof fn within_fn(m: NumberModel, ts: Seq<SpecSpanned>, pos: int)
    requires
        ends(ts),
        0 <= pos < ts.len(),
        grammar::peek(ts, pos) != SpecToken::Eof,
    ensures
        match grammar::fn_at(m, ts, pos) {
            Ok((_, next)) => next < ts.len(),
            Err(e) => 0 <= e.at < ts.len(),
        },
    decreases ts.len() - pos, 8int,
{
    forward_params(m, ts, pos + 3);
    if let Ok((_, next)) = grammar::params_at(m, ts, pos + 3) {
        forward_block(m, ts, next + 1, Seq::empty());
    }
    if grammar::peek(ts, pos + 1) is Ident && grammar::peek(ts, pos + 2) == SpecToken::LParen {
        within_params(m, ts, pos + 3);
        if let Ok((params, next)) = grammar::params_at(m, ts, pos + 3) {
            if grammar::peek(ts, next) == SpecToken::LBrace && grammar::further(ts, pos, next + 1) {
                within_block(m, ts, next + 1, Seq::empty());
            }
        }
    }
}

// ---- as far as it goes -----------------------------------------------------
//
// What is read does not depend on the tokens after it.

proof fn same_expr(m: NumberModel, a: Seq<SpecSpanned>, b: Seq<SpecSpanned>, k: int, pos: int)
    requires
        cut(a, b, k),
        0 <= pos,
    ensures
        (grammar::expr_at(m, a, pos) matches Ok((_, next)) && next < k)
            ==> grammar::expr_at(m, b, pos) == grammar::expr_at(m, a, pos),
    decreases a.len() - pos, 6int,
{
    if let Ok((lhs, next)) = grammar::term_at(m, a, pos) {
        if grammar::further(a, pos, next) {
            forward_sum_rest(m, a, next, lhs);
        }
    }
    same_term(m, a, b, k, pos);
    if let Ok((lhs, next)) = grammar::term_at(m, a, pos) {
        if grammar::further(a, pos, next) {
            same_sum_rest(m, a, b, k, next, lhs);
        }
    }
}

proof fn same_sum_rest(
    m: NumberModel,
    a: Seq<SpecSpanned>,
    b: Seq<SpecSpanned>,
    k: int,
    pos: int,
    lhs: SpecExpr,
)
    requires
        cut(a, b, k),
        0 <= pos <= a.len(),
    ensures
        (grammar::sum_rest(m, a, pos, lhs) matches Ok((_, next)) && next < k)
            ==> grammar::sum_rest(m, b, pos, lhs) == grammar::sum_rest(m, a, pos, lhs),
    decreases a.len() - pos, 0int,
{
    if let Some(op) = grammar::sum_op(grammar::peek(a, pos)) {
        if let Ok((rhs, next)) = grammar::term_at(m, a, pos + 1) {
            if grammar::further(a, pos, next) {
                forward_sum_rest(m, a, next, grammar::binary(op, lhs, rhs));
            }
        }
    }
    if let Some(op) = grammar::sum_op(grammar::peek(a, pos)) {
        same_term(m, a, b, k, pos + 1);
        if let Ok((rhs, next)) = grammar::term_at(m, a, pos + 1) {
            if grammar::further(a, pos, next) {
                same_sum_rest(m, a, b, k, next, grammar::binary(op, lhs, rhs));
            }
        }
    }
}

proof fn same_term(m: NumberModel, a: Seq<SpecSpanned>, b: Seq<SpecSpanned>, k: int, pos: int)
    requires
        cut(a, b, k),
        0 <= pos,
    ensures
        (grammar::term_at(m, a, pos) matches Ok((_, next)) && next < k)
            ==> grammar::term_at(m, b, pos) == grammar::term_at(m, a, pos),
    decreases a.len() - pos, 5int,
{
    if let Ok((lhs, next)) = grammar::unary_at(m, a, pos) {
        if grammar::further(a, pos, next) {
            forward_product_rest(m, a, next, lhs);
        }
    }
    same_unary(m, a, b, k, pos);
    if let Ok((lhs, next)) = grammar::unary_at(m, a, pos) {
        if grammar::further(a, pos, next) {
            same_product_rest(m, a, b, k, next, lhs);
        }
    }
}

proof fn same_product_rest(
    m: NumberModel,
    a: Seq<SpecSpanned>,
    b: Seq<SpecSpanned>,
    k: int,
    pos: int,
    lhs: SpecExpr,
)
    requires
        cut(a, b, k),
        0 <= pos <= a.len(),
    ensures
        (grammar::product_rest(m, a, pos, lhs) matches Ok((_, next)) && next < k)
            ==> grammar::product_rest(m, b, pos, lhs) == grammar::product_rest(m, a, pos, lhs),
    decreases a.len() - pos, 0int,
{
    if let Some(op) = grammar::product_op(grammar::peek(a, pos)) {
        if let Ok((rhs, next)) = grammar::unary_at(m, a, pos + 1) {
            if grammar::further(a, pos, next) {
                forward_product_rest(m, a, next, grammar::binary(op, lhs, rhs));
            }
        }
    }
    if let Some(op) = grammar::product_op(grammar::peek(a, pos)) {
        same_unary(m, a, b, k, pos + 1);
        if let Ok((rhs, next)) = grammar::unary_at(m, a, pos + 1) {
            if grammar::further(a, pos, next) {
                same_product_rest(m, a, b, k, next, grammar::binary(op, lhs, rhs));
            }
        }
    }
}

proof fn same_unary(m: NumberModel, a: Seq<SpecSpanned>, b: Seq<SpecSpanned>, k: int, pos: int)
    requires
        cut(a, b, k),
        0 <= pos,
    ensures
        (grammar::unary_at(m, a, pos) matches Ok((_, next)) && next < k)
            ==> grammar::unary_at(m, b, pos) == grammar::unary_at(m, a, pos),
    decreases a.len() - pos, 4int,
{
    forward_unary(m, a, pos);
    forward_unary(m, a, pos + 1);
    if grammar::peek(a, pos) == SpecToken::Minus {
        same_unary(m, a, b, k, pos + 1);
    } else {
        same_power(m, a, b, k, pos);
    }
}

proof fn same_power(m: NumberModel, a: Seq<SpecSpanned>, b: Seq<SpecSpanned>, k: int, pos: int)
    requires
        cut(a, b, k),
        0 <= pos,
    ensures
        (grammar::power_at(m, a, pos) matches Ok((_, next)) && next < k)
            ==> grammar::power_at(m, b, pos) == grammar::power_at(m, a, pos),
    decreases a.len() - pos, 3int,
{
    forward_postfix(m, a, pos);
    if let Ok((_, next)) = grammar::postfix_at(m, a, pos) {
        forward_power(m, a, next + 1);
    }
    same_postfix(m, a, b, k, pos);
    if let Ok((lhs, next)) = grammar::postfix_at(m, a, pos) {
        if grammar::peek(a, next) == SpecToken::Caret && grammar::further(a, pos, next) {
            same_power(m, a, b, k, next + 1);
        }
    }
}

proof fn same_postfix(m: NumberModel, a: Seq<SpecSpanned>, b: Seq<SpecSpanned>, k: int, pos: int)
    requires
        cut(a, b, k),
        0 <= pos,
    ensures
        (grammar::postfix_at(m, a, pos) matches Ok((_, next)) && next < k)
            ==> grammar::postfix_at(m, b, pos) == grammar::postfix_at(m, a, pos),
    decreases a.len() - pos, 2int,
{
    if let Ok((base, next)) = grammar::primary_at(m, a, pos) {
        if grammar::further(a, pos, next) {
            forward_access_rest(m, a, next, base);
        }
    }
    same_primary(m, a, b, k, pos);
    if let Ok((base, next)) = grammar::primary_at(m, a, pos) {
        if grammar::further(a, pos, next) {
            same_access_rest(m, a, b, k, next, base);
        }
    }
}

proof fn same_access_rest(
    m: NumberModel,
    a: Seq<SpecSpanned>,
    b: Seq<SpecSpanned>,
    k: int,
    pos: int,
    base: SpecExpr,
)
    requires
        cut(a, b, k),
        0 <= pos <= a.len(),
    ensures
        (grammar::access_rest(m, a, pos, base) matches Ok((_, next)) && next < k)
            ==> grammar::access_rest(m, b, pos, base) == grammar::access_rest(m, a, pos, base),
    decreases a.len() - pos, 0int,
{
    if let Ok((name, next)) = grammar::name_at(m, a, pos + 1) {
        forward_access_rest(m, a, next, SpecExpr::Field { base: Box::new(base), name });
    }
    if grammar::subset_at(a, pos) {
        if let SpecToken::Ident(name) = grammar::peek(a, pos + 1) {
            forward_access_rest(m, a, pos + 3, SpecExpr::Subset { base: Box::new(base), name });
        }
    }
    if grammar::peek(a, pos) == SpecToken::Dot {
        if let Ok((name, next)) = grammar::name_at(m, a, pos + 1) {
            same_access_rest(m, a, b, k, next, SpecExpr::Field { base: Box::new(base), name });
        }
    } else if grammar::peek(a, pos) == SpecToken::LAngle && grammar::subset_at(a, pos) {
        if let SpecToken::Ident(name) = grammar::peek(a, pos + 1) {
            same_access_rest(m, a, b, k, pos + 3, SpecExpr::Subset { base: Box::new(base), name });
        }
    }
}

#[verifier::rlimit(30)]
proof fn same_primary(m: NumberModel, a: Seq<SpecSpanned>, b: Seq<SpecSpanned>, k: int, pos: int)
    requires
        cut(a, b, k),
        0 <= pos,
    ensures
        (grammar::primary_at(m, a, pos) matches Ok((_, next)) && next < k)
            ==> grammar::primary_at(m, b, pos) == grammar::primary_at(m, a, pos),
    decreases a.len() - pos, 1int,
{
    forward_primary(m, a, pos);
    forward_expr(m, a, pos + 1);
    forward_if(m, a, pos + 1);
    forward_args(m, a, pos + 2);
    forward_block(m, a, pos + 4, Seq::empty());
    match grammar::peek(a, pos) {
        SpecToken::LParen => same_expr(m, a, b, k, pos + 1),
        SpecToken::Ident(name) => {
            if name == "if"@ {
                same_if(m, a, b, k, pos + 1);
            } else if grammar::peek(a, pos + 1) == SpecToken::LParen {
                same_args(m, a, b, k, pos + 2);
            }
        },
        SpecToken::LBracket => {
            if grammar::unsafe_at(a, pos) && grammar::peek(a, pos + 3) == SpecToken::LBrace {
                same_block(m, a, b, k, pos + 4, Seq::empty());
            }
        },
        _ => {},
    }
}

proof fn same_braced(m: NumberModel, a: Seq<SpecSpanned>, b: Seq<SpecSpanned>, k: int, pos: int)
    requires
        cut(a, b, k),
        0 <= pos,
    ensures
        (grammar::braced_at(m, a, pos) matches Ok((_, next)) && next < k)
            ==> grammar::braced_at(m, b, pos) == grammar::braced_at(m, a, pos),
    decreases a.len() - pos, 0int,
{
    forward_expr(m, a, pos + 1);
    if grammar::peek(a, pos) == SpecToken::LBrace {
        same_expr(m, a, b, k, pos + 1);
    }
}

proof fn same_if(m: NumberModel, a: Seq<SpecSpanned>, b: Seq<SpecSpanned>, k: int, pos: int)
    requires
        cut(a, b, k),
        0 <= pos,
    ensures
        (grammar::if_at(m, a, pos) matches Ok((_, next)) && next < k)
            ==> grammar::if_at(m, b, pos) == grammar::if_at(m, a, pos),
    decreases a.len() - pos, 7int,
{
    if let Ok((_, p1)) = grammar::expr_at(m, a, pos) {
        if grammar::further(a, pos, p1) {
            forward_braced(m, a, p1);
            if let Ok((_, p2)) = grammar::braced_at(m, a, p1) {
                forward_braced(m, a, p2 + 1);
            }
        }
    }
    same_expr(m, a, b, k, pos);
    if let Ok((condition, p1)) = grammar::expr_at(m, a, pos) {
        if grammar::further(a, pos, p1) {
            same_braced(m, a, b, k, p1);
            if let Ok((then_branch, p2)) = grammar::braced_at(m, a, p1) {
                if grammar::further(a, pos, p2) && grammar::word_at(a, p2, "else"@) {
                    same_braced(m, a, b, k, p2 + 1);
                }
            }
        }
    }
}

proof fn same_args(m: NumberModel, a: Seq<SpecSpanned>, b: Seq<SpecSpanned>, k: int, pos: int)
    requires
        cut(a, b, k),
        0 <= pos,
    ensures
        (grammar::args_at(m, a, pos) matches Ok((_, next)) && next < k)
            ==> grammar::args_at(m, b, pos) == grammar::args_at(m, a, pos),
    decreases a.len() - pos, 8int,
{
    forward_exprs(m, a, pos, Seq::empty());
    if grammar::peek(a, pos) != SpecToken::RParen {
        same_exprs(m, a, b, k, pos, Seq::empty());
    }
}

proof fn same_exprs(
    m: NumberModel,
    a: Seq<SpecSpanned>,
    b: Seq<SpecSpanned>,
    k: int,
    pos: int,
    read: Seq<SpecExpr>,
)
    requires
        cut(a, b, k),
        0 <= pos,
    ensures
        (grammar::exprs_at(m, a, pos, read) matches Ok((_, next)) && next < k)
            ==> grammar::exprs_at(m, b, pos, read) == grammar::exprs_at(m, a, pos, read),
    decreases a.len() - pos, 7int,
{
    forward_expr(m, a, pos);
    if let Ok((e, next)) = grammar::expr_at(m, a, pos) {
        forward_exprs(m, a, next + 1, read.push(e));
    }
    same_expr(m, a, b, k, pos);
    if let Ok((e, next)) = grammar::expr_at(m, a, pos) {
        if grammar::peek(a, next) == SpecToken::Comma && grammar::further(a, pos, next) {
            same_exprs(m, a, b, k, next + 1, read.push(e));
        }
    }
}

proof fn same_names(
    m: NumberModel,
    a: Seq<SpecSpanned>,
    b: Seq<SpecSpanned>,
    k: int,
    pos: int,
    read: Seq<Seq<char>>,
)
    requires
        cut(a, b, k),
        0 <= pos,
    ensures
        (grammar::names_at(m, a, pos, read) matches Ok((_, next)) && next < k)
            ==> grammar::names_at(m, b, pos, read) == grammar::names_at(m, a, pos, read),
    decreases a.len() - pos, 7int,
{
    if let Ok((name, next)) = grammar::name_at(m, a, pos) {
        forward_names(m, a, next + 1, read.push(name));
    }
    if let Ok((name, next)) = grammar::name_at(m, a, pos) {
        if grammar::peek(a, next) == SpecToken::Comma {
            same_names(m, a, b, k, next + 1, read.push(name));
        }
    }
}

proof fn same_params(m: NumberModel, a: Seq<SpecSpanned>, b: Seq<SpecSpanned>, k: int, pos: int)
    requires
        cut(a, b, k),
        0 <= pos,
    ensures
        (grammar::params_at(m, a, pos) matches Ok((_, next)) && next < k)
            ==> grammar::params_at(m, b, pos) == grammar::params_at(m, a, pos),
    decreases a.len() - pos, 8int,
{
    forward_names(m, a, pos, Seq::empty());
    if grammar::peek(a, pos) != SpecToken::RParen {
        same_names(m, a, b, k, pos, Seq::empty());
    }
}

proof fn same_block(
    m: NumberModel,
    a: Seq<SpecSpanned>,
    b: Seq<SpecSpanned>,
    k: int,
    pos: int,
    read: Seq<SpecStmt>,
)
    requires
        cut(a, b, k),
        0 <= pos,
    ensures
        (grammar::block_at(m, a, pos, read) matches Ok((_, next)) && next <= k)
            ==> grammar::block_at(m, b, pos, read) == grammar::block_at(m, a, pos, read),
    decreases a.len() - pos, 10int,
{
    forward_stmt(m, a, pos);
    if let Ok((s, p1)) = grammar::stmt_at(m, a, pos) {
        if let Ok(p2) = grammar::stmt_end(m, a, p1, s) {
            if grammar::further(a, pos, p2) {
                forward_block(m, a, p2, read.push(s));
            }
        }
    }
    if grammar::peek(a, pos) != SpecToken::RBrace {
        same_stmt(m, a, b, k, pos);
        if let Ok((s, p1)) = grammar::stmt_at(m, a, pos) {
            if let Ok(p2) = grammar::stmt_end(m, a, p1, s) {
                if grammar::further(a, pos, p2) {
                    same_block(m, a, b, k, p2, read.push(s));
                }
            }
        }
    }
}

#[verifier::rlimit(30)]
proof fn same_stmt(m: NumberModel, a: Seq<SpecSpanned>, b: Seq<SpecSpanned>, k: int, pos: int)
    requires
        cut(a, b, k),
        0 <= pos,
    ensures
        (grammar::stmt_at(m, a, pos) matches Ok((s, next)) && (next < k || (next == k
            && grammar::ends_with_brace(s))))
            ==> grammar::stmt_at(m, b, pos) == grammar::stmt_at(m, a, pos),
    decreases a.len() - pos, 9int,
{
    forward_expr(m, a, pos + 1);
    forward_args(m, a, pos + 2);
    if let Ok((_, next)) = grammar::expr_at(m, a, pos + 1) {
        forward_block(m, a, next + 1, Seq::empty());
    }
    forward_assign(m, a, pos, false);
    forward_assign(m, a, pos + 1, true);
    if grammar::word_at(a, pos, "print"@) {
        if grammar::peek(a, pos + 1) == SpecToken::LParen {
            same_args(m, a, b, k, pos + 2);
        }
    } else if grammar::word_at(a, pos, "fn"@) {
        same_fn(m, a, b, k, pos);
    } else if grammar::word_at(a, pos, "return"@) {
        same_expr(m, a, b, k, pos + 1);
    } else if grammar::word_at(a, pos, "while"@) && grammar::peek(a, pos + 1)
        != SpecToken::Equals {
        same_expr(m, a, b, k, pos + 1);
        if let Ok((condition, next)) = grammar::expr_at(m, a, pos + 1) {
            if grammar::peek(a, next) == SpecToken::LBrace && grammar::further(a, pos, next + 1) {
                same_block(m, a, b, k, next + 1, Seq::empty());
            }
        }
    } else if grammar::word_at(a, pos, "mut"@) && grammar::peek(a, pos + 1) is Ident {
        same_assign(m, a, b, k, pos + 1, true);
    } else {
        same_assign(m, a, b, k, pos, false);
    }
}

proof fn same_assign(
    m: NumberModel,
    a: Seq<SpecSpanned>,
    b: Seq<SpecSpanned>,
    k: int,
    pos: int,
    mutable: bool,
)
    requires
        cut(a, b, k),
        0 <= pos,
    ensures
        (grammar::assign_at(m, a, pos, mutable) matches Ok((_, next)) && next < k)
            ==> grammar::assign_at(m, b, pos, mutable) == grammar::assign_at(m, a, pos, mutable),
    decreases a.len() - pos, 7int,
{
    forward_expr(m, a, pos + 2);
    if grammar::peek(a, pos) is Ident && grammar::peek(a, pos + 1) == SpecToken::Equals {
        same_expr(m, a, b, k, pos + 2);
    }
}

proof fn same_fn(m: NumberModel, a: Seq<SpecSpanned>, b: Seq<SpecSpanned>, k: int, pos: int)
    requires
        cut(a, b, k),
        0 <= pos,
    ensures
        (grammar::fn_at(m, a, pos) matches Ok((_, next)) && next <= k)
            ==> grammar::fn_at(m, b, pos) == grammar::fn_at(m, a, pos),
    decreases a.len() - pos, 8int,
{
    forward_params(m, a, pos + 3);
    if let Ok((_, next)) = grammar::params_at(m, a, pos + 3) {
        forward_block(m, a, next + 1, Seq::empty());
    }
    if grammar::peek(a, pos + 1) is Ident && grammar::peek(a, pos + 2) == SpecToken::LParen {
        same_params(m, a, b, k, pos + 3);
        if let Ok((params, next)) = grammar::params_at(m, a, pos + 3) {
            if grammar::peek(a, next) == SpecToken::LBrace && grammar::further(a, pos, next + 1) {
                same_block(m, a, b, k, next + 1, Seq::empty());
            }
        }
    }
}

// ---- programs --------------------------------------------------------------

proof fn moved_program(
    m: NumberModel,
    a: Seq<SpecSpanned>,
    b: Seq<SpecSpanned>,
    k: int,
    pos: int,
    read: Seq<SpecStmt>,
)
    requires
        moved(a, b, k),
        0 <= pos,
    ensures
        grammar::program_at(m, b, k + pos, read)
            == shifted(k, grammar::program_at(m, a, pos, read)),
    decreases a.len() - pos,
{
    forward_stmt(m, a, pos);
    if grammar::peek(a, pos) != SpecToken::Eof {
        moved_stmt(m, a, b, k, pos);
        if let Ok((s, p1)) = grammar::stmt_at(m, a, pos) {
            if let Ok(p2) = grammar::stmt_end(m, a, p1, s) {
                if grammar::further(a, pos, p2) {
                    moved_program(m, a, b, k, p2, read.push(s));
                }
            }
        }
    }
}

/// The tokens alone decide: lists of tokens that differ in the positions of
/// their tokens alone are the same program, or are wrong in the same way at the
/// same token.
pub proof fn law_tokens_decide(m: NumberModel, a: Seq<SpecSpanned>, b: Seq<SpecSpanned>)
    requires
        a.len() == b.len(),
        forall|i: int| 0 <= i < a.len() ==> (#[trigger] a[i]).token == b[i].token,
    ensures
        grammar::program_at(m, b, 0, Seq::empty()) == grammar::program_at(m, a, 0, Seq::empty()),
{
    assert forall|i: int| 0 <= i implies #[trigger] grammar::peek(a, i) == grammar::peek(
        b,
        0 + i,
    ) by {
        if i < a.len() {
            assert(a[i].token == b[i].token);
        }
    }
    moved_program(m, a, b, 0, 0, Seq::empty());
}

/// A complaint about a program is about one of its tokens, and a program that
/// is read is read to its end.
pub proof fn law_complaints_name_a_token(
    m: NumberModel,
    ts: Seq<SpecSpanned>,
    pos: int,
    read: Seq<SpecStmt>,
)
    requires
        ends(ts),
        0 <= pos < ts.len(),
    ensures
        match grammar::program_at(m, ts, pos, read) {
            Ok((_, next)) => pos <= next < ts.len() && ts[next].token == SpecToken::Eof,
            Err(e) => 0 <= e.at < ts.len(),
        },
    decreases ts.len() - pos,
{
    forward_stmt(m, ts, pos);
    within_stmt(m, ts, pos);
    if grammar::peek(ts, pos) != SpecToken::Eof {
        if let Ok((s, p1)) = grammar::stmt_at(m, ts, pos) {
            if let Ok(p2) = grammar::stmt_end(m, ts, p1, s) {
                if grammar::further(ts, pos, p2) && p2 < ts.len() {
                    law_complaints_name_a_token(m, ts, p2, read.push(s));
                }
            }
        }
    }
}

/// A block ends with a brace.
proof fn end_block(m: NumberModel, ts: Seq<SpecSpanned>, pos: int, read: Seq<SpecStmt>)
    ensures
        grammar::block_at(m, ts, pos, read) matches Ok((_, next)) ==> grammar::peek(ts, next - 1)
            == SpecToken::RBrace,
    decreases ts.len() - pos,
{
    if grammar::peek(ts, pos) != SpecToken::RBrace {
        if let Ok((s, p1)) = grammar::stmt_at(m, ts, pos) {
            if let Ok(p2) = grammar::stmt_end(m, ts, p1, s) {
                if grammar::further(ts, pos, p2) {
                    end_block(m, ts, p2, read.push(s));
                }
            }
        }
    }
}

/// A statement that is not ended by `;` ends with a brace.
proof fn end_stmt(m: NumberModel, ts: Seq<SpecSpanned>, pos: int)
    ensures
        (grammar::stmt_at(m, ts, pos) matches Ok((s, next)) && grammar::ends_with_brace(s))
            ==> grammar::peek(ts, grammar::stmt_at(m, ts, pos)->Ok_0.1 - 1) == SpecToken::RBrace,
{
    if grammar::word_at(ts, pos, "print"@) {
    } else if grammar::word_at(ts, pos, "fn"@) {
        if let Ok((params, next)) = grammar::params_at(m, ts, pos + 3) {
            end_block(m, ts, next + 1, Seq::empty());
        }
    } else if grammar::word_at(ts, pos, "return"@) {
    } else if grammar::word_at(ts, pos, "while"@) && grammar::peek(ts, pos + 1)
        != SpecToken::Equals {
        if let Ok((condition, next)) = grammar::expr_at(m, ts, pos + 1) {
            end_block(m, ts, next + 1, Seq::empty());
        }
    }
}

/// What a program ends with: nothing, or the end of a statement.
proof fn end_program(m: NumberModel, ts: Seq<SpecSpanned>, pos: int, read: Seq<SpecStmt>)
    ensures
        grammar::program_at(m, ts, pos, read) matches Ok((_, next)) ==> {
            &&& grammar::peek(ts, next) == SpecToken::Eof
            &&& next == pos || grammar::peek(ts, next - 1) == SpecToken::RBrace || grammar::peek(
                ts,
                next - 1,
            ) == SpecToken::Semicolon
        },
    decreases ts.len() - pos,
{
    end_stmt(m, ts, pos);
    if grammar::peek(ts, pos) != SpecToken::Eof {
        if let Ok((s, p1)) = grammar::stmt_at(m, ts, pos) {
            if let Ok(p2) = grammar::stmt_end(m, ts, p1, s) {
                if grammar::further(ts, pos, p2) {
                    end_program(m, ts, p2, read.push(s));
                }
            }
        }
    }
}

/// After the tokens of a program comes what comes after them.
proof fn same_program(
    m: NumberModel,
    a: Seq<SpecSpanned>,
    b: Seq<SpecSpanned>,
    k: int,
    pos: int,
    read: Seq<SpecStmt>,
)
    requires
        cut(a, b, k),
        0 <= pos <= k,
        forall|i: int| 0 <= i < k ==> #[trigger] grammar::peek(a, i) != SpecToken::Eof,
        grammar::program_at(m, a, pos, read) is Ok,
    ensures
        grammar::program_at(m, b, pos, read) == grammar::program_at(
            m,
            b,
            k,
            grammar::program_at(m, a, pos, read)->Ok_0.0,
        ),
        grammar::program_at(m, a, pos, read)->Ok_0.1 == k,
    decreases a.len() - pos,
{
    if pos < k {
        forward_stmt(m, a, pos);
        end_stmt(m, a, pos);
        same_stmt(m, a, b, k, pos);
        let (s, p1) = grammar::stmt_at(m, a, pos)->Ok_0;
        let p2 = grammar::stmt_end(m, a, p1, s)->Ok_0;
        if grammar::ends_with_brace(s) {
            assert(grammar::peek(a, p1 - 1) == SpecToken::RBrace);
        } else {
            assert(grammar::peek(a, p1) == SpecToken::Semicolon);
        }
        assert(p2 <= k);
        same_program(m, a, b, k, p2, read.push(s));
    }
}

/// What is read after the statements `before`.
pub open spec fn ahead(before: Seq<SpecStmt>, x: Parsed<Seq<SpecStmt>>) -> Parsed<Seq<SpecStmt>> {
    match x {
        Ok((prog, next)) => Ok((before + prog, next)),
        Err(e) => Err(e),
    }
}

proof fn lemma_ahead(
    m: NumberModel,
    ts: Seq<SpecSpanned>,
    pos: int,
    before: Seq<SpecStmt>,
    read: Seq<SpecStmt>,
)
    ensures
        grammar::program_at(m, ts, pos, before + read) == ahead(
            before,
            grammar::program_at(m, ts, pos, read),
        ),
    decreases ts.len() - pos,
{
    if grammar::peek(ts, pos) != SpecToken::Eof {
        if let Ok((s, p1)) = grammar::stmt_at(m, ts, pos) {
            if let Ok(p2) = grammar::stmt_end(m, ts, p1, s) {
                if grammar::further(ts, pos, p2) {
                    assert((before + read).push(s) =~= before + read.push(s));
                    lemma_ahead(m, ts, p2, before, read.push(s));
                }
            }
        }
    }
}

/// Programs can be put one after the other: the tokens of one, without the end
/// of input, and those of another are the statements of the one and those of
/// the other; and what is wrong with the other is wrong there.
pub proof fn law_programs_one_after_the_other(
    m: NumberModel,
    a: Seq<SpecSpanned>,
    b: Seq<SpecSpanned>,
)
    requires
        lexer::ends_once(a),
        grammar::program_at(m, a, 0, Seq::empty()) is Ok,
    ensures
        grammar::program_at(m, a.drop_last() + b, 0, Seq::empty()) == ahead(
            grammar::program_at(m, a, 0, Seq::empty())->Ok_0.0,
            shifted(a.len() - 1, grammar::program_at(m, b, 0, Seq::empty())),
        ),
{
    let k = a.len() - 1;
    let both = a.drop_last() + b;
    let none = Seq::<SpecStmt>::empty();
    let pa = grammar::program_at(m, a, 0, none)->Ok_0.0;
    assert forall|i: int| 0 <= i < k implies #[trigger] grammar::peek(a, i) == grammar::peek(
        both,
        i,
    ) && grammar::peek(a, i) != SpecToken::Eof by {
        assert(both[i] == a[i]);
        assert(a[i].token != SpecToken::Eof);
    }
    assert(grammar::peek(a, k) == SpecToken::Eof);
    law_complaints_name_a_token(m, a, 0, none);
    end_program(m, a, 0, none);
    let n = grammar::program_at(m, a, 0, none)->Ok_0.1;
    assert(n == k) by {
        if n < k {
            assert(a[n].token != SpecToken::Eof);
        }
    }
    assert(cut(a, both, k));
    same_program(m, a, both, k, 0, none);
    assert forall|i: int| 0 <= i implies #[trigger] grammar::peek(b, i) == grammar::peek(
        both,
        k + i,
    ) by {
        if i < b.len() {
            assert(both[k + i] == b[i]);
        }
    }
    moved_program(m, b, both, k, 0, none);
    lemma_ahead(m, both, k, pa, none);
    assert(pa + none =~= pa);
}

/// What a source text is as a program: its statements, or `None` where it is
/// none.
pub open spec fn program_of(m: NumberModel, s: Seq<char>) -> Option<Seq<SpecStmt>> {
    match lexer::tokens_of(m, s) {
        Ok(ts) => match grammar::program_at(m, ts, 0, Seq::empty()) {
            Ok((prog, _)) => Some(prog),
            Err(_) => None,
        },
        Err(_) => None,
    }
}

proof fn lemma_ends_once(m: NumberModel, s: Seq<char>, p: int)
    requires
        0 <= p <= s.len(),
        lexer::tokens_from(m, s, p) is Ok,
    ensures
        lexer::ends_once(lexer::tokens_from(m, s, p)->Ok_0),
    decreases s.len() - p,
{
    lexer_laws::law_skips_blanks_and_comments(s, p);
    let start = lexer::skip(s, p);
    let ts = lexer::tokens_from(m, s, p)->Ok_0;
    if start < s.len() {
        lexer_laws::lemma_token_bounds(m, s, start);
        let (t, end) = lexer::token_at(m, s, start)->Ok_0;
        lemma_ends_once(m, s, end);
        let rest = lexer::tokens_from(m, s, end)->Ok_0;
        assert(ts == seq![lexer::spanned(s, start, t)] + rest);
        assert(ts.last() == rest.last());
        assert forall|i: int| 0 <= i < ts.len() - 1 implies (#[trigger] ts[i]).token
            != SpecToken::Eof by {
            if i > 0 {
                assert(ts[i] == rest[i - 1]);
            }
        }
    }
}

/// Source texts can be put one after the other: a program, a newline and
/// another program are the statements of the one and those of the other.
pub proof fn law_sources_one_after_the_other(m: NumberModel, a: Seq<char>, b: Seq<char>)
    requires
        program_of(m, a) is Some,
        program_of(m, b) is Some,
    ensures
        program_of(m, a + seq!['\n'] + b) == Some(program_of(m, a)->0 + program_of(m, b)->0),
{
    let ta = lexer::tokens_of(m, a)->Ok_0;
    let tb = lexer::tokens_of(m, b)->Ok_0;
    let down = lexer::line_at(a, a.len() as int);
    let later = Seq::new(tb.len(), |i: int| SpecSpanned { line: tb[i].line + down, ..tb[i] });
    lexer_laws::law_lines_read_one_after_the_other(m, a, b);
    lemma_ends_once(m, a, 0);
    law_tokens_decide(m, tb, later);
    law_programs_one_after_the_other(m, ta, later);
}

} // verus!
