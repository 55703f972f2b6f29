//! How operators group.

#[allow(unused_imports)]
use crate::ast::{self, BinOp, SpecExpr};
#[allow(unused_imports)]
use crate::grammar::{self, Parsed};
#[allow(unused_imports)]
use crate::lexer::{self, SpecLexed};
#[allow(unused_imports)]
use crate::number::NumberModel;
#[allow(unused_imports)]
use crate::render;
#[allow(unused_imports)]
use crate::token::{SpecSpanned, SpecToken};
use vstd::prelude::*;

verus! {

/// The token of an operator.
pub open spec fn token_of(op: BinOp) -> SpecToken {
    match op {
        BinOp::Add => SpecToken::Plus,
        BinOp::Sub => SpecToken::Minus,
        BinOp::Mul => SpecToken::Star,
        BinOp::Div => SpecToken::Slash,
        BinOp::Lt => SpecToken::LAngle,
        BinOp::Gt => SpecToken::RAngle,
        BinOp::Le => SpecToken::LessEq,
        BinOp::Ge => SpecToken::GreaterEq,
        BinOp::Eq => SpecToken::EqEq,
        BinOp::Ne => SpecToken::NotEq,
        BinOp::Power => SpecToken::Caret,
    }
}

/// How tightly an operator binds: sums and comparisons least, products more, powers
/// most.
pub open spec fn strength(op: BinOp) -> nat {
    match op {
        BinOp::Power => 3,
        BinOp::Mul => 2,
        BinOp::Div => 2,
        _ => 1,
    }
}

/// The expression that a literal token is.
pub open spec fn literal(t: SpecToken) -> Option<SpecExpr> {
    match t {
        SpecToken::Int(n) => Some(SpecExpr::Int(n)),
        SpecToken::Float(n) => Some(SpecExpr::Float(n)),
        SpecToken::Str(s) => Some(SpecExpr::Str(s)),
        _ => None,
    }
}

/// Whether no expression goes on with a token.
pub open spec fn closes(t: SpecToken) -> bool {
    t != SpecToken::Dot && forall|op: BinOp| t != #[trigger] token_of(op)
}

/// `lhs op rhs`.
pub open spec fn applied(op: BinOp, lhs: SpecExpr, rhs: SpecExpr) -> SpecExpr {
    SpecExpr::Binary { op, lhs: Box::new(lhs), rhs: Box::new(rhs) }
}

proof fn lemma_closes(t: SpecToken)
    requires
        closes(t),
    ensures
        grammar::sum_op(t) is None,
        grammar::product_op(t) is None,
        t != SpecToken::Caret,
        t != SpecToken::LAngle,
{
    assert(t != token_of(BinOp::Add));
    assert(t != token_of(BinOp::Sub));
    assert(t != token_of(BinOp::Mul));
    assert(t != token_of(BinOp::Div));
    assert(t != token_of(BinOp::Lt));
    assert(t != token_of(BinOp::Gt));
    assert(t != token_of(BinOp::Le));
    assert(t != token_of(BinOp::Ge));
    assert(t != token_of(BinOp::Eq));
    assert(t != token_of(BinOp::Ne));
    assert(t != token_of(BinOp::Power));
}

proof fn lemma_literal(m: NumberModel, ts: Seq<SpecSpanned>, i: int)
    requires
        0 <= i < ts.len(),
        literal(grammar::peek(ts, i)) is Some,
        grammar::peek(ts, i + 1) != SpecToken::Dot,
        grammar::peek(ts, i + 1) == SpecToken::LAngle ==> grammar::peek(ts, i + 2) !is Ident,
    ensures
        grammar::postfix_at(m, ts, i) == Parsed::<SpecExpr>::Ok(
            (literal(grammar::peek(ts, i))->0, i + 1),
        ),
{
    let e = literal(grammar::peek(ts, i))->0;
    assert(grammar::primary_at(m, ts, i) == Parsed::<SpecExpr>::Ok((e, i + 1)));
    assert(grammar::access_rest(m, ts, i + 1, e) == Parsed::<SpecExpr>::Ok((e, i + 1)));
}

/// `x op y` is what it looks like.
pub proof fn law_operators_apply(
    m: NumberModel,
    ts: Seq<SpecSpanned>,
    p: int,
    op: BinOp,
    x: SpecExpr,
    y: SpecExpr,
)
    requires
        0 <= p,
        p + 3 <= ts.len(),
        literal(grammar::peek(ts, p)) == Some(x),
        grammar::peek(ts, p + 1) == token_of(op),
        literal(grammar::peek(ts, p + 2)) == Some(y),
        closes(grammar::peek(ts, p + 3)),
    ensures
        grammar::expr_at(m, ts, p) == Parsed::<SpecExpr>::Ok((applied(op, x, y), p + 3)),
{
    lemma_closes(grammar::peek(ts, p + 3));
    lemma_literal(m, ts, p);
    lemma_literal(m, ts, p + 2);
    let end = p + 3;
    let all = applied(op, x, y);
    assert(grammar::power_at(m, ts, p + 2) == Parsed::<SpecExpr>::Ok((y, end)));
    assert(grammar::unary_at(m, ts, p + 2) == Parsed::<SpecExpr>::Ok((y, end)));
    assert(grammar::product_rest(m, ts, end, y) == Parsed::<SpecExpr>::Ok((y, end)));
    assert(grammar::product_rest(m, ts, end, all) == Parsed::<SpecExpr>::Ok((all, end)));
    assert(grammar::sum_rest(m, ts, end, all) == Parsed::<SpecExpr>::Ok((all, end)));
    assert(grammar::term_at(m, ts, p + 2) == Parsed::<SpecExpr>::Ok((y, end)));
    if op == BinOp::Power {
        assert(grammar::power_at(m, ts, p) == Parsed::<SpecExpr>::Ok((all, end)));
        assert(grammar::unary_at(m, ts, p) == Parsed::<SpecExpr>::Ok((all, end)));
        assert(grammar::term_at(m, ts, p) == Parsed::<SpecExpr>::Ok((all, end)));
    } else {
        assert(grammar::power_at(m, ts, p) == Parsed::<SpecExpr>::Ok((x, p + 1)));
        assert(grammar::unary_at(m, ts, p) == Parsed::<SpecExpr>::Ok((x, p + 1)));
        if strength(op) == 2 {
            assert(grammar::product_rest(m, ts, p + 1, x) == Parsed::<SpecExpr>::Ok((all, end)));
            assert(grammar::term_at(m, ts, p) == Parsed::<SpecExpr>::Ok((all, end)));
        } else {
            assert(grammar::product_rest(m, ts, p + 1, x) == Parsed::<SpecExpr>::Ok((x, p + 1)));
            assert(grammar::term_at(m, ts, p) == Parsed::<SpecExpr>::Ok((x, p + 1)));
            assert(grammar::sum_rest(m, ts, p + 1, x) == Parsed::<SpecExpr>::Ok((all, end)));
        }
    }
}

/// Of two operators the one that binds more tightly is applied first, and of two that
/// bind as tightly the left one, but for powers, of which the right one is.
pub proof fn law_operators_group(
    m: NumberModel,
    ts: Seq<SpecSpanned>,
    p: int,
    op1: BinOp,
    op2: BinOp,
    x: SpecExpr,
    y: SpecExpr,
    z: SpecExpr,
)
    requires
        0 <= p,
        p + 5 <= ts.len(),
        literal(grammar::peek(ts, p)) == Some(x),
        grammar::peek(ts, p + 1) == token_of(op1),
        literal(grammar::peek(ts, p + 2)) == Some(y),
        grammar::peek(ts, p + 3) == token_of(op2),
        literal(grammar::peek(ts, p + 4)) == Some(z),
        closes(grammar::peek(ts, p + 5)),
    ensures
        grammar::expr_at(m, ts, p) == Parsed::<SpecExpr>::Ok(
            (
                if strength(op1) < strength(op2) || (op1 == BinOp::Power && op2 == BinOp::Power) {
                    applied(op1, x, applied(op2, y, z))
                } else {
                    applied(op2, applied(op1, x, y), z)
                },
                p + 5,
            ),
        ),
{
    lemma_closes(grammar::peek(ts, p + 5));
    lemma_literal(m, ts, p);
    lemma_literal(m, ts, p + 2);
    lemma_literal(m, ts, p + 4);
    let end = p + 5;
    let (left, right) = (applied(op1, x, y), applied(op2, y, z));
    let first = applied(op2, left, z);
    let second = applied(op1, x, right);
    let (s1, s2) = (strength(op1), strength(op2));
    assert(grammar::power_at(m, ts, p + 4) == Parsed::<SpecExpr>::Ok((z, end)));
    assert(grammar::unary_at(m, ts, p + 4) == Parsed::<SpecExpr>::Ok((z, end)));
    assert(grammar::product_rest(m, ts, end, z) == Parsed::<SpecExpr>::Ok((z, end)));
    assert(grammar::term_at(m, ts, p + 4) == Parsed::<SpecExpr>::Ok((z, end)));
    assert(grammar::product_rest(m, ts, end, right) == Parsed::<SpecExpr>::Ok((right, end)));
    assert(grammar::product_rest(m, ts, end, first) == Parsed::<SpecExpr>::Ok((first, end)));
    assert(grammar::product_rest(m, ts, end, second) == Parsed::<SpecExpr>::Ok((second, end)));
    assert(grammar::sum_rest(m, ts, end, first) == Parsed::<SpecExpr>::Ok((first, end)));
    assert(grammar::sum_rest(m, ts, end, second) == Parsed::<SpecExpr>::Ok((second, end)));
    if s2 == 3 {
        assert(grammar::power_at(m, ts, p + 2) == Parsed::<SpecExpr>::Ok((right, end)));
        assert(grammar::unary_at(m, ts, p + 2) == Parsed::<SpecExpr>::Ok((right, end)));
        assert(grammar::term_at(m, ts, p + 2) == Parsed::<SpecExpr>::Ok((right, end)));
    } else {
        assert(grammar::power_at(m, ts, p + 2) == Parsed::<SpecExpr>::Ok((y, p + 3)));
        assert(grammar::unary_at(m, ts, p + 2) == Parsed::<SpecExpr>::Ok((y, p + 3)));
        if s2 == 2 {
            assert(grammar::product_rest(m, ts, p + 3, y) == Parsed::<SpecExpr>::Ok((right, end)));
            assert(grammar::product_rest(m, ts, p + 3, left) == Parsed::<SpecExpr>::Ok(
                (first, end),
            ));
            assert(grammar::term_at(m, ts, p + 2) == Parsed::<SpecExpr>::Ok((right, end)));
        } else {
            assert(grammar::product_rest(m, ts, p + 3, y) == Parsed::<SpecExpr>::Ok((y, p + 3)));
            assert(grammar::product_rest(m, ts, p + 3, left) == Parsed::<SpecExpr>::Ok(
                (left, p + 3),
            ));
            assert(grammar::term_at(m, ts, p + 2) == Parsed::<SpecExpr>::Ok((y, p + 3)));
            assert(grammar::sum_rest(m, ts, p + 3, left) == Parsed::<SpecExpr>::Ok((first, end)));
        }
    }
    if s1 == 3 {
        if s2 == 3 {
            assert(grammar::power_at(m, ts, p) == Parsed::<SpecExpr>::Ok((second, end)));
            assert(grammar::term_at(m, ts, p) == Parsed::<SpecExpr>::Ok((second, end))) by {
                assert(grammar::unary_at(m, ts, p) == Parsed::<SpecExpr>::Ok((second, end)));
            }
        } else {
            assert(grammar::power_at(m, ts, p) == Parsed::<SpecExpr>::Ok((left, p + 3)));
            assert(grammar::unary_at(m, ts, p) == Parsed::<SpecExpr>::Ok((left, p + 3)));
            if s2 == 2 {
                assert(grammar::term_at(m, ts, p) == Parsed::<SpecExpr>::Ok((first, end)));
            } else {
                assert(grammar::term_at(m, ts, p) == Parsed::<SpecExpr>::Ok((left, p + 3)));
            }
        }
    } else {
        assert(grammar::power_at(m, ts, p) == Parsed::<SpecExpr>::Ok((x, p + 1)));
        assert(grammar::unary_at(m, ts, p) == Parsed::<SpecExpr>::Ok((x, p + 1)));
        if s1 == 2 {
            if s2 == 3 {
                assert(grammar::product_rest(m, ts, p + 1, x) == Parsed::<SpecExpr>::Ok(
                    (second, end),
                ));
                assert(grammar::term_at(m, ts, p) == Parsed::<SpecExpr>::Ok((second, end)));
            } else if s2 == 2 {
                assert(grammar::product_rest(m, ts, p + 1, x) == Parsed::<SpecExpr>::Ok(
                    (first, end),
                ));
                assert(grammar::term_at(m, ts, p) == Parsed::<SpecExpr>::Ok((first, end)));
            } else {
                assert(grammar::product_rest(m, ts, p + 1, x) == Parsed::<SpecExpr>::Ok(
                    (left, p + 3),
                ));
                assert(grammar::term_at(m, ts, p) == Parsed::<SpecExpr>::Ok((left, p + 3)));
            }
        } else {
            assert(grammar::product_rest(m, ts, p + 1, x) == Parsed::<SpecExpr>::Ok((x, p + 1)));
            assert(grammar::term_at(m, ts, p) == Parsed::<SpecExpr>::Ok((x, p + 1)));
            if s2 == 1 {
                assert(grammar::sum_rest(m, ts, p + 1, x) == Parsed::<SpecExpr>::Ok((first, end)));
            } else {
                assert(grammar::sum_rest(m, ts, p + 1, x) == Parsed::<SpecExpr>::Ok((second, end)));
            }
        }
    }
}

/// A minus sign in front binds less tightly than a power, and more tightly than any
/// other operator; it takes what follows from zero.
pub proof fn law_signs_group(
    m: NumberModel,
    ts: Seq<SpecSpanned>,
    p: int,
    op: BinOp,
    x: SpecExpr,
    y: SpecExpr,
)
    requires
        0 <= p,
        p + 4 <= ts.len(),
        grammar::peek(ts, p) == SpecToken::Minus,
        literal(grammar::peek(ts, p + 1)) == Some(x),
        grammar::peek(ts, p + 2) == token_of(op),
        literal(grammar::peek(ts, p + 3)) == Some(y),
        closes(grammar::peek(ts, p + 4)),
    ensures
        grammar::expr_at(m, ts, p) == Parsed::<SpecExpr>::Ok(
            (
                if op == BinOp::Power {
                    applied(BinOp::Sub, SpecExpr::Int(0), applied(op, x, y))
                } else {
                    applied(op, applied(BinOp::Sub, SpecExpr::Int(0), x), y)
                },
                p + 4,
            ),
        ),
{
    lemma_closes(grammar::peek(ts, p + 4));
    lemma_literal(m, ts, p + 1);
    lemma_literal(m, ts, p + 3);
    let end = p + 4;
    let zero = SpecExpr::Int(0);
    assert(grammar::power_at(m, ts, p + 3) == Parsed::<SpecExpr>::Ok((y, end)));
    assert(grammar::unary_at(m, ts, p + 3) == Parsed::<SpecExpr>::Ok((y, end)));
    assert(grammar::product_rest(m, ts, end, y) == Parsed::<SpecExpr>::Ok((y, end)));
    assert(grammar::term_at(m, ts, p + 3) == Parsed::<SpecExpr>::Ok((y, end)));
    if op == BinOp::Power {
        let raised = applied(op, x, y);
        let all = applied(BinOp::Sub, zero, raised);
        assert(grammar::power_at(m, ts, p + 1) == Parsed::<SpecExpr>::Ok((raised, end)));
        assert(grammar::unary_at(m, ts, p + 1) == Parsed::<SpecExpr>::Ok((raised, end)));
        assert(grammar::unary_at(m, ts, p) == Parsed::<SpecExpr>::Ok((all, end)));
        assert(grammar::product_rest(m, ts, end, all) == Parsed::<SpecExpr>::Ok((all, end)));
        assert(grammar::term_at(m, ts, p) == Parsed::<SpecExpr>::Ok((all, end)));
        assert(grammar::sum_rest(m, ts, end, all) == Parsed::<SpecExpr>::Ok((all, end)));
    } else {
        let minus = applied(BinOp::Sub, zero, x);
        let all = applied(op, minus, y);
        assert(grammar::power_at(m, ts, p + 1) == Parsed::<SpecExpr>::Ok((x, p + 2)));
        assert(grammar::unary_at(m, ts, p + 1) == Parsed::<SpecExpr>::Ok((x, p + 2)));
        assert(grammar::unary_at(m, ts, p) == Parsed::<SpecExpr>::Ok((minus, p + 2)));
        assert(grammar::product_rest(m, ts, end, all) == Parsed::<SpecExpr>::Ok((all, end)));
        assert(grammar::sum_rest(m, ts, end, all) == Parsed::<SpecExpr>::Ok((all, end)));
        if strength(op) == 2 {
            assert(grammar::product_rest(m, ts, p + 2, minus) == Parsed::<SpecExpr>::Ok(
                (all, end),
            ));
            assert(grammar::term_at(m, ts, p) == Parsed::<SpecExpr>::Ok((all, end)));
        } else {
            assert(grammar::product_rest(m, ts, p + 2, minus) == Parsed::<SpecExpr>::Ok(
                (minus, p + 2),
            ));
            assert(grammar::term_at(m, ts, p) == Parsed::<SpecExpr>::Ok((minus, p + 2)));
            assert(grammar::sum_rest(m, ts, p + 2, minus) == Parsed::<SpecExpr>::Ok((all, end)));
        }
    }
}

/// An expression in parentheses is that expression, whatever stands around it.
pub proof fn law_parentheses_group(
    m: NumberModel,
    ts: Seq<SpecSpanned>,
    p: int,
    e: SpecExpr,
    q: int,
)
    requires
        0 <= p < ts.len(),
        grammar::peek(ts, p) == SpecToken::LParen,
        grammar::expr_at(m, ts, p + 1) == Parsed::<SpecExpr>::Ok((e, q)),
        grammar::peek(ts, q) == SpecToken::RParen,
    ensures
        grammar::primary_at(m, ts, p) == Parsed::<SpecExpr>::Ok((e, q + 1)),
{
}

/// Whether an operand is a number that is written with a minus sign.
pub open spec fn signed(m: NumberModel, e: SpecExpr) -> bool {
    match e {
        SpecExpr::Int(n) => n < 0,
        SpecExpr::Float(n) => (m.show)(n).len() > 0 && (m.show)(n)[0] == '-',
        _ => false,
    }
}

/// An operand stands in parentheses if and only if it would be taken apart without
/// them: where its operator binds less tightly than the one that it is an operand of,
/// or as tightly on the side to which that one does not group; where it is a number
/// with a minus sign and is raised, or is a power; and where a `>` would close a `<`.
pub proof fn law_parentheses_where_needed(
    m: NumberModel,
    op: BinOp,
    lhs: SpecExpr,
    rhs: SpecExpr,
)
    ensures
        ({
            let l = match lhs {
                SpecExpr::Binary { op: o, rhs: x, .. } => strength(o) < strength(op) || (op
                    == BinOp::Power && o == BinOp::Power) || (op == BinOp::Gt && o == BinOp::Lt
                    && *x is Var),
                _ => op == BinOp::Power && signed(m, lhs),
            };
            let r = match rhs {
                SpecExpr::Binary { op: o, .. } => strength(o) < strength(op) || (op != BinOp::Power
                    && strength(o) == strength(op)),
                _ => op == BinOp::Power && signed(m, rhs),
            };
            let left = render::expr_text(m, lhs);
            let right = render::expr_text(m, rhs);
            render::expr_text(m, applied(op, lhs, rhs)) == (if l {
                "("@ + left + ")"@
            } else {
                left
            }) + " "@ + ast::op_text(op) + " "@ + (if r {
                "("@ + right + ")"@
            } else {
                right
            })
        }),
{
}

/// An operator is written as the lexer reads it.
pub proof fn law_operators_are_written(m: NumberModel, op: BinOp, rest: Seq<char>)
    requires
        rest.len() > 0,
        rest[0] != '=',
    ensures
        lexer::token_at(m, ast::op_text(op) + rest, 0) == SpecLexed::Ok(
            (token_of(op), ast::op_text(op).len() as int),
        ),
{
    reveal_strlit("+");
    reveal_strlit("-");
    reveal_strlit("*");
    reveal_strlit("/");
    reveal_strlit("<");
    reveal_strlit(">");
    reveal_strlit("<=");
    reveal_strlit(">=");
    reveal_strlit("==");
    reveal_strlit("!=");
    reveal_strlit("^");
    let t = ast::op_text(op);
    let s = t + rest;
    assert(s[0] == t[0]);
    if t.len() == 1 {
        assert(s[1] == rest[0]);
    } else {
        assert(s[1] == t[1]);
    }
}

} // verus!
