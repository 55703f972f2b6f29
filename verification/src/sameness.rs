//! When trees are the same.

#[allow(unused_imports)]
use crate::ast::{self, SpecExpr, SpecStmt};
#[allow(unused_imports)]
use crate::number::{self, Bits};
#[allow(unused_imports)]
use crate::token::{self, SpecToken};
use vstd::prelude::*;

verus! {

/// `p` holds of every float in an expression.
pub open spec fn floats(p: spec_fn(Bits) -> bool, e: SpecExpr) -> bool
    decreases e,
{
    match e {
        SpecExpr::Float(n) => p(n),
        SpecExpr::Field { base, .. } => floats(p, *base),
        SpecExpr::Subset { base, .. } => floats(p, *base),
        SpecExpr::Binary { lhs, rhs, .. } => floats(p, *lhs) && floats(p, *rhs),
        SpecExpr::If { condition, then_branch, else_branch } => floats(p, *condition) && floats(
            p,
            *then_branch,
        ) && floats(p, *else_branch),
        SpecExpr::Call { args, .. } => all_floats(p, args),
        SpecExpr::Unsafe { body } => body_floats(p, body),
        _ => true,
    }
}

pub open spec fn all_floats(p: spec_fn(Bits) -> bool, es: Seq<SpecExpr>) -> bool
    decreases es,
{
    forall|i: int| 0 <= i < es.len() ==> floats(p, #[trigger] es[i])
}

pub open spec fn stmt_floats(p: spec_fn(Bits) -> bool, s: SpecStmt) -> bool
    decreases s,
{
    match s {
        SpecStmt::Assign { value, .. } => floats(p, value),
        SpecStmt::Print(es) => all_floats(p, es),
        SpecStmt::FnDef { body, .. } => body_floats(p, body),
        SpecStmt::Return(e) => floats(p, e),
        SpecStmt::While { condition, body } => floats(p, condition) && body_floats(p, body),
    }
}

/// `p` holds of every float in the statements.
pub open spec fn body_floats(p: spec_fn(Bits) -> bool, ss: Seq<SpecStmt>) -> bool
    decreases ss,
{
    forall|i: int| 0 <= i < ss.len() ==> stmt_floats(p, #[trigger] ss[i])
}

/// The numbers other than the zeros.
pub open spec fn not_zero() -> spec_fn(Bits) -> bool {
    |n: Bits| !number::is_zero(n)
}

/// The numbers other than NaN.
pub open spec fn not_nan() -> spec_fn(Bits) -> bool {
    |n: Bits| !number::is_nan(n)
}

proof fn lemma_same_expr(a: SpecExpr, b: SpecExpr)
    ensures
        ast::same_expr(a, b) && floats(not_zero(), a) ==> a == b,
        a == b && floats(not_nan(), a) ==> ast::same_expr(a, b),
        ast::same_expr(a, b) ==> floats(not_nan(), a),
    decreases a, 0nat,
{
    let (p, q) = (not_zero(), not_nan());
    match (a, b) {
        (SpecExpr::Float(x), SpecExpr::Float(y)) => {
            number::lemma_equal_bits(x, y);
            assert(p(x) == !number::is_zero(x));
            assert(q(x) == !number::is_nan(x));
        },
        (SpecExpr::Field { base: x, .. }, SpecExpr::Field { base: y, .. }) => lemma_same_expr(
            *x,
            *y,
        ),
        (SpecExpr::Subset { base: x, .. }, SpecExpr::Subset { base: y, .. }) => lemma_same_expr(
            *x,
            *y,
        ),
        (SpecExpr::Binary { lhs: x, rhs: v, .. }, SpecExpr::Binary { lhs: y, rhs: w, .. }) => {
            lemma_same_expr(*x, *y);
            lemma_same_expr(*v, *w);
        },
        (
            SpecExpr::If { condition: c, then_branch: x, else_branch: v },
            SpecExpr::If { condition: d, then_branch: y, else_branch: w },
        ) => {
            lemma_same_expr(*c, *d);
            lemma_same_expr(*x, *y);
            lemma_same_expr(*v, *w);
        },
        (SpecExpr::Call { args: x, .. }, SpecExpr::Call { args: y, .. }) => {
            lemma_same_exprs(x, y);
            assert(all_floats(p, x) == floats(p, a));
            assert(all_floats(q, x) == floats(q, a));
        },
        (SpecExpr::Unsafe { body: x }, SpecExpr::Unsafe { body: y }) => {
            lemma_same_stmts(x, y);
            assert(body_floats(p, x) == floats(p, a));
            assert(body_floats(q, x) == floats(q, a));
        },
        _ => {},
    }
}

proof fn lemma_same_exprs(a: Seq<SpecExpr>, b: Seq<SpecExpr>)
    ensures
        ast::same_exprs(a, b) && all_floats(not_zero(), a) ==> a == b,
        a == b && all_floats(not_nan(), a) ==> ast::same_exprs(a, b),
        ast::same_exprs(a, b) ==> all_floats(not_nan(), a),
    decreases a, 0nat,
{
    if a.len() == b.len() {
        assert forall|i: int| 0 <= i < a.len() implies (ast::same_expr(#[trigger] a[i], b[i])
            && floats(not_zero(), a[i]) ==> a[i] == b[i]) && (a[i] == b[i] && floats(
            not_nan(),
            a[i],
        ) ==> ast::same_expr(a[i], b[i])) && (ast::same_expr(a[i], b[i]) ==> floats(
            not_nan(),
            a[i],
        )) by {
            lemma_same_expr(a[i], b[i]);
        }
        if ast::same_exprs(a, b) && all_floats(not_zero(), a) {
            assert forall|i: int| 0 <= i < a.len() implies #[trigger] a[i] == b[i] by {
                assert(floats(not_zero(), a[i]));
            }
            assert(a =~= b);
        }
    }
}

proof fn lemma_same_stmt(a: SpecStmt, b: SpecStmt)
    ensures
        ast::same_stmt(a, b) && stmt_floats(not_zero(), a) ==> a == b,
        a == b && stmt_floats(not_nan(), a) ==> ast::same_stmt(a, b),
        ast::same_stmt(a, b) ==> stmt_floats(not_nan(), a),
    decreases a, 0nat,
{
    let (p, q) = (not_zero(), not_nan());
    match (a, b) {
        (SpecStmt::Assign { value: x, .. }, SpecStmt::Assign { value: y, .. }) => lemma_same_expr(
            x,
            y,
        ),
        (SpecStmt::Print(x), SpecStmt::Print(y)) => {
            lemma_same_exprs(x, y);
            assert(all_floats(p, x) == stmt_floats(p, a));
            assert(all_floats(q, x) == stmt_floats(q, a));
        },
        (SpecStmt::FnDef { body: x, .. }, SpecStmt::FnDef { body: y, .. }) => {
            lemma_same_stmts(x, y);
            assert(body_floats(p, x) == stmt_floats(p, a));
            assert(body_floats(q, x) == stmt_floats(q, a));
        },
        (SpecStmt::Return(x), SpecStmt::Return(y)) => lemma_same_expr(x, y),
        (
            SpecStmt::While { condition: c, body: x },
            SpecStmt::While { condition: d, body: y },
        ) => {
            lemma_same_expr(c, d);
            lemma_same_stmts(x, y);
            assert((floats(p, c) && body_floats(p, x)) == stmt_floats(p, a));
            assert((floats(q, c) && body_floats(q, x)) == stmt_floats(q, a));
        },
        _ => {},
    }
}

proof fn lemma_same_stmts(a: Seq<SpecStmt>, b: Seq<SpecStmt>)
    ensures
        ast::same_stmts(a, b) && body_floats(not_zero(), a) ==> a == b,
        a == b && body_floats(not_nan(), a) ==> ast::same_stmts(a, b),
        ast::same_stmts(a, b) ==> body_floats(not_nan(), a),
    decreases a, 0nat,
{
    if a.len() == b.len() {
        assert forall|i: int| 0 <= i < a.len() implies (ast::same_stmt(#[trigger] a[i], b[i])
            && stmt_floats(not_zero(), a[i]) ==> a[i] == b[i]) && (a[i] == b[i] && stmt_floats(
            not_nan(),
            a[i],
        ) ==> ast::same_stmt(a[i], b[i])) && (ast::same_stmt(a[i], b[i]) ==> stmt_floats(
            not_nan(),
            a[i],
        )) by {
            lemma_same_stmt(a[i], b[i]);
        }
        if ast::same_stmts(a, b) && body_floats(not_zero(), a) {
            assert forall|i: int| 0 <= i < a.len() implies #[trigger] a[i] == b[i] by {
                assert(stmt_floats(not_zero(), a[i]));
            }
            assert(a =~= b);
        }
    }
}

/// Programs without NaN are the same as themselves, and programs that are the same
/// are equal but for the signs of their zeros.
pub proof fn law_same_programs(a: Seq<SpecStmt>, b: Seq<SpecStmt>)
    ensures
        ast::same_stmts(a, a) <==> body_floats(not_nan(), a),
        ast::same_stmts(a, b) && body_floats(not_zero(), a) ==> a == b,
{
    lemma_same_stmts(a, a);
    lemma_same_stmts(a, b);
}

/// Expressions without NaN are the same as themselves, and expressions that are the
/// same are equal but for the signs of their zeros.
pub proof fn law_same_expressions(a: SpecExpr, b: SpecExpr)
    ensures
        ast::same_expr(a, a) <==> floats(not_nan(), a),
        ast::same_expr(a, b) && floats(not_zero(), a) ==> a == b,
{
    lemma_same_expr(a, a);
    lemma_same_expr(a, b);
}

/// So it is for tokens.
pub proof fn law_same_tokens(a: SpecToken, b: SpecToken)
    ensures
        token::same_token(a, a) <==> !(a matches SpecToken::Float(n) && number::is_nan(n)),
        token::same_token(a, b) && !(a matches SpecToken::Float(n) && number::is_zero(n)) ==> a
            == b,
{
    if let SpecToken::Float(x) = a {
        number::lemma_equal_bits(x, x);
        if let SpecToken::Float(y) = b {
            number::lemma_equal_bits(x, y);
        }
    }
}

} // verus!
