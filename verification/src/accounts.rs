//! Every token of a program is in its tree, and nothing else is.

#[allow(unused_imports)]
use crate::ast::{BinOp, SpecExpr, SpecStmt};
#[allow(unused_imports)]
use crate::grammar::{self, Parsed};
#[allow(unused_imports)]
use crate::grouping::token_of;
#[allow(unused_imports)]
use crate::number::NumberModel;
#[allow(unused_imports)]
use crate::token::{SpecSpanned, SpecToken};
use vstd::prelude::*;

verus! {

/// The tokens that a tree keeps. Parentheses say how it is put together, and a minus
/// sign in front stands for a difference from zero; so these, minus signs and zeros
/// are left out of the account.
pub open spec fn kept(t: SpecToken) -> Seq<SpecToken> {
    match t {
        SpecToken::LParen => Seq::empty(),
        SpecToken::RParen => Seq::empty(),
        SpecToken::Minus => Seq::empty(),
        SpecToken::Int(n) => if n == 0 {
            Seq::empty()
        } else {
            seq![t]
        },
        _ => seq![t],
    }
}

/// The tokens from `a` on and before `b` that a tree keeps.
pub open spec fn kept_in(ts: Seq<SpecSpanned>, a: int, b: int) -> Seq<SpecToken>
    decreases b - a,
{
    if b <= a {
        Seq::empty()
    } else {
        kept_in(ts, a, b - 1) + kept(grammar::peek(ts, b - 1))
    }
}

proof fn lemma_split(ts: Seq<SpecSpanned>, a: int, b: int, c: int)
    requires
        a <= b <= c,
    ensures
        kept_in(ts, a, c) == kept_in(ts, a, b) + kept_in(ts, b, c),
    decreases c - b,
{
    if b < c {
        lemma_split(ts, a, b, c - 1);
        assert(kept_in(ts, a, c) =~= kept_in(ts, a, b) + kept_in(ts, b, c));
    } else {
        assert(kept_in(ts, a, c) =~= kept_in(ts, a, b) + kept_in(ts, b, c));
    }
}

/// The account of the tokens from `a` on and before `a + 1`.
proof fn lemma_one(ts: Seq<SpecSpanned>, a: int)
    ensures
        kept_in(ts, a, a + 1) == kept(grammar::peek(ts, a)),
{
    reveal_with_fuel(kept_in, 2);
    assert(kept_in(ts, a, a + 1) =~= kept(grammar::peek(ts, a)));
}

/// The tokens that a tree keeps, in order.
pub open spec fn flat(e: SpecExpr) -> Seq<SpecToken>
    decreases e, 0nat,
{
    match e {
        SpecExpr::Int(n) => kept(SpecToken::Int(n)),
        SpecExpr::Float(n) => seq![SpecToken::Float(n)],
        SpecExpr::Str(s) => seq![SpecToken::Str(s)],
        SpecExpr::Var(name) => seq![SpecToken::Ident(name)],
        SpecExpr::Field { base, name } => flat(*base) + seq![
            SpecToken::Dot,
            SpecToken::Ident(name),
        ],
        SpecExpr::Subset { base, name } => flat(*base) + seq![
            SpecToken::LAngle,
            SpecToken::Ident(name),
            SpecToken::RAngle,
        ],
        SpecExpr::Binary { op, lhs, rhs } => flat(*lhs) + kept(token_of(op)) + flat(*rhs),
        SpecExpr::If { condition, then_branch, else_branch } => seq![SpecToken::Ident("if"@)]
            + flat(*condition) + seq![SpecToken::LBrace] + flat(*then_branch) + seq![
            SpecToken::RBrace,
            SpecToken::Ident("else"@),
            SpecToken::LBrace,
        ] + flat(*else_branch) + seq![SpecToken::RBrace],
        SpecExpr::Call { name, args } => seq![SpecToken::Ident(name)] + flat_list(
            args,
            args.len() as int,
        ),
        SpecExpr::Unsafe { body } => seq![
            SpecToken::LBracket,
            SpecToken::Ident("unsafe"@),
            SpecToken::RBracket,
            SpecToken::LBrace,
        ] + flat_body(body, body.len() as int) + seq![SpecToken::RBrace],
    }
}

/// The first `n` expressions, with commas between them.
pub open spec fn flat_list(es: Seq<SpecExpr>, n: int) -> Seq<SpecToken>
    decreases es, n,
{
    if n <= 0 || n > es.len() {
        Seq::empty()
    } else if n == 1 {
        flat(es[0])
    } else {
        flat_list(es, n - 1) + seq![SpecToken::Comma] + flat(es[n - 1])
    }
}

/// The first `n` names, with commas between them.
pub open spec fn flat_names(ns: Seq<Seq<char>>, n: int) -> Seq<SpecToken>
    decreases n,
{
    if n <= 0 || n > ns.len() {
        Seq::empty()
    } else if n == 1 {
        seq![SpecToken::Ident(ns[0])]
    } else {
        flat_names(ns, n - 1) + seq![SpecToken::Comma, SpecToken::Ident(ns[n - 1])]
    }
}

/// A statement without the `;` after it.
pub open spec fn flat_stmt(s: SpecStmt) -> Seq<SpecToken>
    decreases s, 0nat,
{
    match s {
        SpecStmt::Print(es) => seq![SpecToken::Ident("print"@)] + flat_list(es, es.len() as int),
        SpecStmt::FnDef { name, params, body } => seq![
            SpecToken::Ident("fn"@),
            SpecToken::Ident(name),
        ] + flat_names(params, params.len() as int) + seq![SpecToken::LBrace] + flat_body(
            body,
            body.len() as int,
        ) + seq![SpecToken::RBrace],
        SpecStmt::While { condition, body } => seq![SpecToken::Ident("while"@)] + flat(condition)
            + seq![SpecToken::LBrace] + flat_body(body, body.len() as int) + seq![
            SpecToken::RBrace,
        ],
        SpecStmt::Return(e) => seq![SpecToken::Ident("return"@)] + flat(e),
        SpecStmt::Assign { name, value, mutable } => (if mutable {
            seq![SpecToken::Ident("mut"@)]
        } else {
            Seq::empty()
        }) + seq![SpecToken::Ident(name), SpecToken::Equals] + flat(value),
    }
}

/// What comes after a statement: nothing after a brace, `;` otherwise.
pub open spec fn flat_end(s: SpecStmt) -> Seq<SpecToken> {
    if s is FnDef || s is While {
        Seq::empty()
    } else {
        seq![SpecToken::Semicolon]
    }
}

/// The first `n` statements.
pub open spec fn flat_body(ss: Seq<SpecStmt>, n: int) -> Seq<SpecToken>
    decreases ss, n,
{
    if n <= 0 || n > ss.len() {
        Seq::empty()
    } else {
        flat_body(ss, n - 1) + flat_stmt(ss[n - 1]) + flat_end(ss[n - 1])
    }
}

proof fn lemma_list_push(es: Seq<SpecExpr>, e: SpecExpr, n: int)
    requires
        0 <= n <= es.len(),
    ensures
        flat_list(es.push(e), n) == flat_list(es, n),
    decreases n,
{
    if n > 0 {
        lemma_list_push(es, e, n - 1);
        assert(es.push(e)[n - 1] == es[n - 1]);
    }
}

proof fn lemma_names_push(ns: Seq<Seq<char>>, name: Seq<char>, n: int)
    requires
        0 <= n <= ns.len(),
    ensures
        flat_names(ns.push(name), n) == flat_names(ns, n),
    decreases n,
{
    if n > 0 {
        lemma_names_push(ns, name, n - 1);
        assert(ns.push(name)[n - 1] == ns[n - 1]);
    }
}

proof fn lemma_body_push(ss: Seq<SpecStmt>, s: SpecStmt, n: int)
    requires
        0 <= n <= ss.len(),
    ensures
        flat_body(ss.push(s), n) == flat_body(ss, n),
    decreases n,
{
    if n > 0 {
        lemma_body_push(ss, s, n - 1);
        assert(ss.push(s)[n - 1] == ss[n - 1]);
    }
}

/// What was read before the next: the first `n` with a comma after them.
spec fn listed(es: Seq<SpecExpr>) -> Seq<SpecToken> {
    if es.len() == 0 {
        Seq::empty()
    } else {
        flat_list(es, es.len() as int) + seq![SpecToken::Comma]
    }
}

spec fn listed_names(ns: Seq<Seq<char>>) -> Seq<SpecToken> {
    if ns.len() == 0 {
        Seq::empty()
    } else {
        flat_names(ns, ns.len() as int) + seq![SpecToken::Comma]
    }
}

proof fn lemma_listed(es: Seq<SpecExpr>, e: SpecExpr)
    ensures
        flat_list(es.push(e), es.len() as int + 1) == listed(es) + flat(e),
{
    lemma_list_push(es, e, es.len() as int);
    let all = es.push(e);
    assert(all[es.len() as int] == e);
    if es.len() == 0 {
        assert(all[0] == e);
        assert(flat_list(all, 1) =~= listed(es) + flat(e));
    } else {
        assert(flat_list(all, es.len() as int + 1) =~= listed(es) + flat(e));
    }
}

proof fn lemma_listed_names(ns: Seq<Seq<char>>, name: Seq<char>)
    ensures
        flat_names(ns.push(name), ns.len() as int + 1) == listed_names(ns) + seq![
            SpecToken::Ident(name),
        ],
{
    lemma_names_push(ns, name, ns.len() as int);
    let all = ns.push(name);
    assert(all[ns.len() as int] == name);
    assert(flat_names(all, ns.len() as int + 1) =~= listed_names(ns) + seq![
        SpecToken::Ident(name),
    ]);
}

proof fn account_expr(m: NumberModel, ts: Seq<SpecSpanned>, pos: int)
    requires
        0 <= pos,
        grammar::expr_at(m, ts, pos) is Ok,
    ensures
        ({
            let (x, end) = grammar::expr_at(m, ts, pos)->Ok_0;
            pos < end && kept_in(ts, pos, end) == flat(x)
        }),
    decreases ts.len() - pos, 6int,
{
    account_term(m, ts, pos);
    let (lhs, next) = grammar::term_at(m, ts, pos)->Ok_0;
    account_sum(m, ts, next, lhs);
    let (x, end) = grammar::expr_at(m, ts, pos)->Ok_0;
    lemma_split(ts, pos, next, end);
}

proof fn account_sum(m: NumberModel, ts: Seq<SpecSpanned>, pos: int, lhs: SpecExpr)
    requires
        0 <= pos,
        grammar::sum_rest(m, ts, pos, lhs) is Ok,
    ensures
        ({
            let (x, end) = grammar::sum_rest(m, ts, pos, lhs)->Ok_0;
            pos <= end && flat(lhs) + kept_in(ts, pos, end) == flat(x)
        }),
    decreases ts.len() - pos, 0int,
{
    let (x, end) = grammar::sum_rest(m, ts, pos, lhs)->Ok_0;
    match grammar::sum_op(grammar::peek(ts, pos)) {
        None => {
            assert(flat(lhs) + kept_in(ts, pos, end) =~= flat(x));
        },
        Some(op) => {
            assert(grammar::peek(ts, pos) == token_of(op));
            account_term(m, ts, pos + 1);
            let (rhs, next) = grammar::term_at(m, ts, pos + 1)->Ok_0;
            let both = grammar::binary(op, lhs, rhs);
            account_sum(m, ts, next, both);
            lemma_one(ts, pos);
            lemma_split(ts, pos, pos + 1, next);
            lemma_split(ts, pos, next, end);
            assert(flat(lhs) + kept_in(ts, pos, end) =~= flat(both) + kept_in(ts, next, end));
        },
    }
}

proof fn account_term(m: NumberModel, ts: Seq<SpecSpanned>, pos: int)
    requires
        0 <= pos,
        grammar::term_at(m, ts, pos) is Ok,
    ensures
        ({
            let (x, end) = grammar::term_at(m, ts, pos)->Ok_0;
            pos < end && kept_in(ts, pos, end) == flat(x)
        }),
    decreases ts.len() - pos, 5int,
{
    account_unary(m, ts, pos);
    let (lhs, next) = grammar::unary_at(m, ts, pos)->Ok_0;
    account_product(m, ts, next, lhs);
    let (x, end) = grammar::term_at(m, ts, pos)->Ok_0;
    lemma_split(ts, pos, next, end);
}

proof fn account_product(m: NumberModel, ts: Seq<SpecSpanned>, pos: int, lhs: SpecExpr)
    requires
        0 <= pos,
        grammar::product_rest(m, ts, pos, lhs) is Ok,
    ensures
        ({
            let (x, end) = grammar::product_rest(m, ts, pos, lhs)->Ok_0;
            pos <= end && flat(lhs) + kept_in(ts, pos, end) == flat(x)
        }),
    decreases ts.len() - pos, 0int,
{
    let (x, end) = grammar::product_rest(m, ts, pos, lhs)->Ok_0;
    match grammar::product_op(grammar::peek(ts, pos)) {
        None => {
            assert(flat(lhs) + kept_in(ts, pos, end) =~= flat(x));
        },
        Some(op) => {
            assert(grammar::peek(ts, pos) == token_of(op));
            account_unary(m, ts, pos + 1);
            let (rhs, next) = grammar::unary_at(m, ts, pos + 1)->Ok_0;
            let both = grammar::binary(op, lhs, rhs);
            account_product(m, ts, next, both);
            lemma_one(ts, pos);
            lemma_split(ts, pos, pos + 1, next);
            lemma_split(ts, pos, next, end);
            assert(flat(lhs) + kept_in(ts, pos, end) =~= flat(both) + kept_in(ts, next, end));
        },
    }
}

proof fn account_unary(m: NumberModel, ts: Seq<SpecSpanned>, pos: int)
    requires
        0 <= pos,
        grammar::unary_at(m, ts, pos) is Ok,
    ensures
        ({
            let (x, end) = grammar::unary_at(m, ts, pos)->Ok_0;
            pos < end && kept_in(ts, pos, end) == flat(x)
        }),
    decreases ts.len() - pos, 4int,
{
    if grammar::peek(ts, pos) == SpecToken::Minus {
        account_unary(m, ts, pos + 1);
        let (operand, end) = grammar::unary_at(m, ts, pos + 1)->Ok_0;
        let zero = SpecExpr::Int(0);
        lemma_one(ts, pos);
        lemma_split(ts, pos, pos + 1, end);
        assert(flat(zero) =~= Seq::<SpecToken>::empty());
        let both = grammar::binary(BinOp::Sub, zero, operand);
        assert(flat(both) == flat(zero) + kept(token_of(BinOp::Sub)) + flat(operand));
        assert(kept_in(ts, pos, end) =~= flat(both));
    } else {
        account_power(m, ts, pos);
    }
}

proof fn account_power(m: NumberModel, ts: Seq<SpecSpanned>, pos: int)
    requires
        0 <= pos,
        grammar::power_at(m, ts, pos) is Ok,
    ensures
        ({
            let (x, end) = grammar::power_at(m, ts, pos)->Ok_0;
            pos < end && kept_in(ts, pos, end) == flat(x)
        }),
    decreases ts.len() - pos, 3int,
{
    account_postfix(m, ts, pos);
    let (lhs, next) = grammar::postfix_at(m, ts, pos)->Ok_0;
    if grammar::peek(ts, next) == SpecToken::Caret {
        account_power(m, ts, next + 1);
        let (rhs, end) = grammar::power_at(m, ts, next + 1)->Ok_0;
        lemma_one(ts, next);
        lemma_split(ts, pos, next, next + 1);
        lemma_split(ts, pos, next + 1, end);
        assert(token_of(BinOp::Power) == SpecToken::Caret);
        assert(kept_in(ts, pos, end) =~= flat(grammar::binary(BinOp::Power, lhs, rhs)));
    }
}

proof fn account_postfix(m: NumberModel, ts: Seq<SpecSpanned>, pos: int)
    requires
        0 <= pos,
        grammar::postfix_at(m, ts, pos) is Ok,
    ensures
        ({
            let (x, end) = grammar::postfix_at(m, ts, pos)->Ok_0;
            pos < end && kept_in(ts, pos, end) == flat(x)
        }),
    decreases ts.len() - pos, 2int,
{
    account_primary(m, ts, pos);
    let (base, next) = grammar::primary_at(m, ts, pos)->Ok_0;
    account_access(m, ts, next, base);
    let (x, end) = grammar::postfix_at(m, ts, pos)->Ok_0;
    lemma_split(ts, pos, next, end);
}

proof fn account_access(m: NumberModel, ts: Seq<SpecSpanned>, pos: int, base: SpecExpr)
    requires
        0 <= pos,
        grammar::access_rest(m, ts, pos, base) is Ok,
    ensures
        ({
            let (x, end) = grammar::access_rest(m, ts, pos, base)->Ok_0;
            pos <= end && flat(base) + kept_in(ts, pos, end) == flat(x)
        }),
    decreases ts.len() - pos, 0int,
{
    let (x, end) = grammar::access_rest(m, ts, pos, base)->Ok_0;
    if grammar::peek(ts, pos) == SpecToken::Dot {
        let (name, next) = grammar::name_at(m, ts, pos + 1)->Ok_0;
        let longer = SpecExpr::Field { base: Box::new(base), name };
        account_access(m, ts, next, longer);
        lemma_one(ts, pos);
        lemma_one(ts, pos + 1);
        lemma_split(ts, pos, pos + 1, next);
        lemma_split(ts, pos, next, end);
        assert(flat(base) + kept_in(ts, pos, end) =~= flat(longer) + kept_in(ts, next, end));
    } else if grammar::peek(ts, pos) == SpecToken::LAngle && grammar::subset_at(ts, pos) {
        if let SpecToken::Ident(name) = grammar::peek(ts, pos + 1) {
            let longer = SpecExpr::Subset { base: Box::new(base), name };
            account_access(m, ts, pos + 3, longer);
            lemma_one(ts, pos);
            lemma_one(ts, pos + 1);
            lemma_one(ts, pos + 2);
            lemma_split(ts, pos, pos + 1, pos + 2);
            lemma_split(ts, pos, pos + 2, pos + 3);
            lemma_split(ts, pos, pos + 3, end);
            assert(flat(base) + kept_in(ts, pos, end) =~= flat(longer) + kept_in(
                ts,
                pos + 3,
                end,
            ));
        }
    } else {
        assert(flat(base) + kept_in(ts, pos, end) =~= flat(x));
    }
}

/// An expression that was read holds the tokens that it was read from.
spec fn whole(ts: Seq<SpecSpanned>, pos: int, r: Parsed<SpecExpr>) -> bool {
    r matches Ok((x, end)) && pos < end && kept_in(ts, pos, end) == flat(x)
}

proof fn account_primary(m: NumberModel, ts: Seq<SpecSpanned>, pos: int)
    requires
        0 <= pos,
        grammar::primary_at(m, ts, pos) is Ok,
    ensures
        whole(ts, pos, grammar::primary_at(m, ts, pos)),
    decreases ts.len() - pos, 1int,
{
    match grammar::peek(ts, pos) {
        SpecToken::LParen => account_parens(m, ts, pos),
        SpecToken::Ident(name) => {
            if name == "if"@ {
                account_conditional(m, ts, pos);
            } else if grammar::peek(ts, pos + 1) == SpecToken::LParen {
                account_call(m, ts, pos);
            } else {
                lemma_one(ts, pos);
            }
        },
        SpecToken::LBracket => account_unsafe(m, ts, pos),
        _ => {
            lemma_one(ts, pos);
        },
    }
}

proof fn account_parens(m: NumberModel, ts: Seq<SpecSpanned>, pos: int)
    requires
        0 <= pos,
        grammar::peek(ts, pos) == SpecToken::LParen,
        grammar::primary_at(m, ts, pos) is Ok,
    ensures
        whole(ts, pos, grammar::primary_at(m, ts, pos)),
    decreases ts.len() - pos, 0int,
{
    let (x, end) = grammar::primary_at(m, ts, pos)->Ok_0;
    lemma_one(ts, pos);
    account_expr(m, ts, pos + 1);
    let (e, next) = grammar::expr_at(m, ts, pos + 1)->Ok_0;
    lemma_one(ts, next);
    lemma_split(ts, pos, pos + 1, next);
    lemma_split(ts, pos, next, end);
    assert(kept_in(ts, pos, end) =~= flat(x));
}

proof fn account_conditional(m: NumberModel, ts: Seq<SpecSpanned>, pos: int)
    requires
        0 <= pos,
        grammar::word_at(ts, pos, "if"@),
        grammar::primary_at(m, ts, pos) is Ok,
    ensures
        whole(ts, pos, grammar::primary_at(m, ts, pos)),
    decreases ts.len() - pos, 0int,
{
    let (x, end) = grammar::primary_at(m, ts, pos)->Ok_0;
    lemma_one(ts, pos);
    account_if(m, ts, pos + 1);
    lemma_split(ts, pos, pos + 1, end);
    assert(kept_in(ts, pos, end) =~= flat(x));
}

proof fn account_call(m: NumberModel, ts: Seq<SpecSpanned>, pos: int)
    requires
        0 <= pos,
        grammar::peek(ts, pos) is Ident,
        !grammar::word_at(ts, pos, "if"@),
        grammar::peek(ts, pos + 1) == SpecToken::LParen,
        grammar::primary_at(m, ts, pos) is Ok,
    ensures
        whole(ts, pos, grammar::primary_at(m, ts, pos)),
    decreases ts.len() - pos, 0int,
{
    let (x, end) = grammar::primary_at(m, ts, pos)->Ok_0;
    lemma_one(ts, pos);
    account_args(m, ts, pos + 2);
    lemma_one(ts, pos + 1);
    lemma_split(ts, pos, pos + 1, pos + 2);
    lemma_split(ts, pos, pos + 2, end);
    assert(kept_in(ts, pos, end) =~= flat(x));
}

proof fn account_unsafe(m: NumberModel, ts: Seq<SpecSpanned>, pos: int)
    requires
        0 <= pos,
        grammar::peek(ts, pos) == SpecToken::LBracket,
        grammar::primary_at(m, ts, pos) is Ok,
    ensures
        whole(ts, pos, grammar::primary_at(m, ts, pos)),
    decreases ts.len() - pos, 0int,
{
    let (x, end) = grammar::primary_at(m, ts, pos)->Ok_0;
    lemma_one(ts, pos);
    let next = pos + 4;
    account_block(m, ts, next, Seq::empty());
    lemma_one(ts, pos + 1);
    lemma_one(ts, pos + 2);
    lemma_one(ts, pos + 3);
    lemma_split(ts, pos, pos + 1, pos + 2);
    lemma_split(ts, pos, pos + 2, pos + 3);
    lemma_split(ts, pos, pos + 3, next);
    lemma_split(ts, pos, next, end);
    let (body, _) = grammar::block_at(m, ts, next, Seq::empty())->Ok_0;
    assert(x == SpecExpr::Unsafe { body });
    assert(flat_body(Seq::empty(), 0) =~= Seq::<SpecToken>::empty());
    assert(kept_in(ts, pos, end) =~= flat(x));
}

proof fn account_braced(m: NumberModel, ts: Seq<SpecSpanned>, pos: int)
    requires
        0 <= pos,
        grammar::braced_at(m, ts, pos) is Ok,
    ensures
        ({
            let (x, end) = grammar::braced_at(m, ts, pos)->Ok_0;
            pos < end && kept_in(ts, pos, end) == seq![SpecToken::LBrace] + flat(x) + seq![
                SpecToken::RBrace,
            ]
        }),
    decreases ts.len() - pos, 0int,
{
    let (x, end) = grammar::braced_at(m, ts, pos)->Ok_0;
    account_expr(m, ts, pos + 1);
    let (e, next) = grammar::expr_at(m, ts, pos + 1)->Ok_0;
    lemma_one(ts, pos);
    lemma_one(ts, next);
    lemma_split(ts, pos, pos + 1, next);
    lemma_split(ts, pos, next, end);
    assert(kept_in(ts, pos, end) =~= seq![SpecToken::LBrace] + flat(x) + seq![SpecToken::RBrace]);
}

#[verifier::rlimit(50)]
proof fn account_if(m: NumberModel, ts: Seq<SpecSpanned>, pos: int)
    requires
        0 <= pos,
        grammar::if_at(m, ts, pos) is Ok,
    ensures
        ({
            let (x, end) = grammar::if_at(m, ts, pos)->Ok_0;
            pos < end && seq![SpecToken::Ident("if"@)] + kept_in(ts, pos, end) == flat(x)
        }),
    decreases ts.len() - pos, 7int,
{
    let (x, end) = grammar::if_at(m, ts, pos)->Ok_0;
    account_expr(m, ts, pos);
    let (c, n1) = grammar::expr_at(m, ts, pos)->Ok_0;
    account_braced(m, ts, n1);
    let (a, n2) = grammar::braced_at(m, ts, n1)->Ok_0;
    account_braced(m, ts, n2 + 1);
    let (b, n3) = grammar::braced_at(m, ts, n2 + 1)->Ok_0;
    lemma_one(ts, n2);
    lemma_split(ts, pos, n1, n2);
    lemma_split(ts, pos, n2, n2 + 1);
    lemma_split(ts, pos, n2 + 1, end);
    assert(x == SpecExpr::If {
        condition: Box::new(c),
        then_branch: Box::new(a),
        else_branch: Box::new(b),
    });
    lemma_flat_if(c, a, b);
}

proof fn lemma_flat_if(c: SpecExpr, a: SpecExpr, b: SpecExpr)
    ensures
        ({
            let x = SpecExpr::If {
                condition: Box::new(c),
                then_branch: Box::new(a),
                else_branch: Box::new(b),
            };
            let braced = |e: SpecExpr|
                seq![SpecToken::LBrace] + flat(e) + seq![SpecToken::RBrace];
            flat(x) == seq![SpecToken::Ident("if"@)] + (flat(c) + braced(a) + seq![
                SpecToken::Ident("else"@),
            ] + braced(b))
        }),
{
    let x = SpecExpr::If {
        condition: Box::new(c),
        then_branch: Box::new(a),
        else_branch: Box::new(b),
    };
    let (y, z) = (
        seq![SpecToken::LBrace] + flat(a) + seq![SpecToken::RBrace],
        seq![SpecToken::LBrace] + flat(b) + seq![SpecToken::RBrace],
    );
    let all = seq![SpecToken::Ident("if"@)] + (flat(c) + y + seq![SpecToken::Ident("else"@)] + z);
    assert(flat(x) =~= all);
}

proof fn account_args(m: NumberModel, ts: Seq<SpecSpanned>, pos: int)
    requires
        0 <= pos,
        grammar::args_at(m, ts, pos) is Ok,
    ensures
        ({
            let (x, end) = grammar::args_at(m, ts, pos)->Ok_0;
            pos < end && kept_in(ts, pos, end) == flat_list(x, x.len() as int)
        }),
    decreases ts.len() - pos, 8int,
{
    let (x, end) = grammar::args_at(m, ts, pos)->Ok_0;
    if grammar::peek(ts, pos) == SpecToken::RParen {
        lemma_one(ts, pos);
        assert(kept_in(ts, pos, end) =~= flat_list(x, x.len() as int));
    } else {
        account_exprs(m, ts, pos, Seq::empty());
        let (args, next) = grammar::exprs_at(m, ts, pos, Seq::empty())->Ok_0;
        lemma_one(ts, next);
        lemma_split(ts, pos, next, end);
        assert(kept_in(ts, pos, end) =~= flat_list(x, x.len() as int));
    }
}

proof fn account_exprs(m: NumberModel, ts: Seq<SpecSpanned>, pos: int, read: Seq<SpecExpr>)
    requires
        0 <= pos,
        grammar::exprs_at(m, ts, pos, read) is Ok,
    ensures
        ({
            let (x, end) = grammar::exprs_at(m, ts, pos, read)->Ok_0;
            pos < end && listed(read) + kept_in(ts, pos, end) == flat_list(x, x.len() as int)
        }),
    decreases ts.len() - pos, 7int,
{
    let (x, end) = grammar::exprs_at(m, ts, pos, read)->Ok_0;
    account_expr(m, ts, pos);
    let (e, next) = grammar::expr_at(m, ts, pos)->Ok_0;
    lemma_listed(read, e);
    if grammar::peek(ts, next) == SpecToken::Comma {
        account_exprs(m, ts, next + 1, read.push(e));
        lemma_one(ts, next);
        lemma_split(ts, pos, next, next + 1);
        lemma_split(ts, pos, next + 1, end);
        assert(listed(read) + kept_in(ts, pos, end) =~= listed(read.push(e)) + kept_in(
            ts,
            next + 1,
            end,
        ));
    }
}

proof fn account_names(m: NumberModel, ts: Seq<SpecSpanned>, pos: int, read: Seq<Seq<char>>)
    requires
        0 <= pos,
        grammar::names_at(m, ts, pos, read) is Ok,
    ensures
        ({
            let (x, end) = grammar::names_at(m, ts, pos, read)->Ok_0;
            pos < end && listed_names(read) + kept_in(ts, pos, end) == flat_names(
                x,
                x.len() as int,
            )
        }),
    decreases ts.len() - pos,
{
    let (x, end) = grammar::names_at(m, ts, pos, read)->Ok_0;
    let (name, next) = grammar::name_at(m, ts, pos)->Ok_0;
    lemma_one(ts, pos);
    lemma_listed_names(read, name);
    if grammar::peek(ts, next) == SpecToken::Comma {
        account_names(m, ts, next + 1, read.push(name));
        lemma_one(ts, next);
        lemma_split(ts, pos, next, next + 1);
        lemma_split(ts, pos, next + 1, end);
        assert(listed_names(read) + kept_in(ts, pos, end) =~= listed_names(read.push(name))
            + kept_in(ts, next + 1, end));
    }
}

proof fn account_params(m: NumberModel, ts: Seq<SpecSpanned>, pos: int)
    requires
        0 <= pos,
        grammar::params_at(m, ts, pos) is Ok,
    ensures
        ({
            let (x, end) = grammar::params_at(m, ts, pos)->Ok_0;
            pos < end && kept_in(ts, pos, end) == flat_names(x, x.len() as int)
        }),
{
    let (x, end) = grammar::params_at(m, ts, pos)->Ok_0;
    if grammar::peek(ts, pos) == SpecToken::RParen {
        lemma_one(ts, pos);
        assert(kept_in(ts, pos, end) =~= flat_names(x, x.len() as int));
    } else {
        account_names(m, ts, pos, Seq::empty());
        let (names, next) = grammar::names_at(m, ts, pos, Seq::empty())->Ok_0;
        lemma_one(ts, next);
        lemma_split(ts, pos, next, end);
        assert(kept_in(ts, pos, end) =~= flat_names(x, x.len() as int));
    }
}

/// A statement, with what comes after it.
proof fn account_end(m: NumberModel, ts: Seq<SpecSpanned>, pos: int, s: SpecStmt)
    requires
        grammar::stmt_end(m, ts, pos, s) is Ok,
    ensures
        pos <= grammar::stmt_end(m, ts, pos, s)->Ok_0,
        kept_in(ts, pos, grammar::stmt_end(m, ts, pos, s)->Ok_0) == flat_end(s),
{
    lemma_one(ts, pos);
    assert(kept_in(ts, pos, pos) =~= Seq::<SpecToken>::empty());
}

proof fn account_block(m: NumberModel, ts: Seq<SpecSpanned>, pos: int, read: Seq<SpecStmt>)
    requires
        0 <= pos,
        grammar::block_at(m, ts, pos, read) is Ok,
    ensures
        ({
            let (x, end) = grammar::block_at(m, ts, pos, read)->Ok_0;
            pos < end && flat_body(read, read.len() as int) + kept_in(ts, pos, end) == flat_body(
                x,
                x.len() as int,
            ) + seq![SpecToken::RBrace]
        }),
    decreases ts.len() - pos, 10int,
{
    let (x, end) = grammar::block_at(m, ts, pos, read)->Ok_0;
    if grammar::peek(ts, pos) == SpecToken::RBrace {
        lemma_one(ts, pos);
    } else {
        account_stmt(m, ts, pos);
        let (s, n1) = grammar::stmt_at(m, ts, pos)->Ok_0;
        account_end(m, ts, n1, s);
        let n2 = grammar::stmt_end(m, ts, n1, s)->Ok_0;
        account_block(m, ts, n2, read.push(s));
        lemma_split(ts, pos, n1, n2);
        lemma_split(ts, pos, n2, end);
        lemma_body_push(read, s, read.len() as int);
        assert(read.push(s)[read.len() as int] == s);
        assert(flat_body(read, read.len() as int) + kept_in(ts, pos, end) =~= flat_body(
            read.push(s),
            read.len() as int + 1,
        ) + kept_in(ts, n2, end));
    }
}

/// A statement that was read holds the tokens that it was read from.
spec fn accounted(ts: Seq<SpecSpanned>, pos: int, r: Parsed<SpecStmt>) -> bool {
    r matches Ok((x, end)) && pos < end && kept_in(ts, pos, end) == flat_stmt(x)
}

proof fn account_stmt(m: NumberModel, ts: Seq<SpecSpanned>, pos: int)
    requires
        0 <= pos,
        grammar::stmt_at(m, ts, pos) is Ok,
    ensures
        accounted(ts, pos, grammar::stmt_at(m, ts, pos)),
    decreases ts.len() - pos, 9int,
{
    if grammar::word_at(ts, pos, "print"@) {
        account_print(m, ts, pos);
    } else if grammar::word_at(ts, pos, "fn"@) {
        account_definition(m, ts, pos);
    } else if grammar::word_at(ts, pos, "return"@) {
        account_return(m, ts, pos);
    } else if grammar::word_at(ts, pos, "while"@) && grammar::peek(ts, pos + 1)
        != SpecToken::Equals {
        account_while(m, ts, pos);
    } else if grammar::word_at(ts, pos, "mut"@) && grammar::peek(ts, pos + 1) is Ident {
        account_mut(m, ts, pos);
    } else {
        account_plain(m, ts, pos);
    }
}

proof fn account_definition(m: NumberModel, ts: Seq<SpecSpanned>, pos: int)
    requires
        0 <= pos,
        !grammar::word_at(ts, pos, "print"@),
        grammar::word_at(ts, pos, "fn"@),
        grammar::stmt_at(m, ts, pos) is Ok,
    ensures
        accounted(ts, pos, grammar::stmt_at(m, ts, pos)),
    decreases ts.len() - pos, 8int,
{
    account_fn(m, ts, pos);
}

proof fn account_mut(m: NumberModel, ts: Seq<SpecSpanned>, pos: int)
    requires
        0 <= pos,
        !grammar::word_at(ts, pos, "print"@),
        !grammar::word_at(ts, pos, "fn"@),
        !grammar::word_at(ts, pos, "return"@),
        !grammar::word_at(ts, pos, "while"@) || grammar::peek(ts, pos + 1) == SpecToken::Equals,
        grammar::word_at(ts, pos, "mut"@),
        grammar::peek(ts, pos + 1) is Ident,
        grammar::stmt_at(m, ts, pos) is Ok,
    ensures
        accounted(ts, pos, grammar::stmt_at(m, ts, pos)),
    decreases ts.len() - pos, 8int,
{
    account_assign(m, ts, pos + 1, true);
    let (x, end) = grammar::assign_at(m, ts, pos + 1, true)->Ok_0;
    lemma_one(ts, pos);
    lemma_split(ts, pos, pos + 1, end);
    lemma_flat_assign(x);
}

proof fn account_plain(m: NumberModel, ts: Seq<SpecSpanned>, pos: int)
    requires
        0 <= pos,
        !grammar::word_at(ts, pos, "print"@),
        !grammar::word_at(ts, pos, "fn"@),
        !grammar::word_at(ts, pos, "return"@),
        !grammar::word_at(ts, pos, "while"@) || grammar::peek(ts, pos + 1) == SpecToken::Equals,
        !grammar::word_at(ts, pos, "mut"@) || grammar::peek(ts, pos + 1) !is Ident,
        grammar::stmt_at(m, ts, pos) is Ok,
    ensures
        accounted(ts, pos, grammar::stmt_at(m, ts, pos)),
    decreases ts.len() - pos, 8int,
{
    account_assign(m, ts, pos, false);
    let (x, end) = grammar::assign_at(m, ts, pos, false)->Ok_0;
    lemma_flat_assign(x);
}

proof fn lemma_flat_assign(s: SpecStmt)
    ensures
        s matches SpecStmt::Assign { name, value, mutable } ==> {
            let rest = seq![SpecToken::Ident(name), SpecToken::Equals] + flat(value);
            &&& mutable ==> flat_stmt(s) == seq![SpecToken::Ident("mut"@)] + rest
            &&& !mutable ==> flat_stmt(s) == rest
        },
{
    if let SpecStmt::Assign { name, value, mutable } = s {
        let rest = seq![SpecToken::Ident(name), SpecToken::Equals] + flat(value);
        if mutable {
            assert(flat_stmt(s) =~= seq![SpecToken::Ident("mut"@)] + rest);
        } else {
            assert(flat_stmt(s) =~= rest);
        }
    }
}

proof fn account_print(m: NumberModel, ts: Seq<SpecSpanned>, pos: int)
    requires
        0 <= pos,
        grammar::word_at(ts, pos, "print"@),
        grammar::stmt_at(m, ts, pos) is Ok,
    ensures
        accounted(ts, pos, grammar::stmt_at(m, ts, pos)),
    decreases ts.len() - pos, 8int,
{
    let (x, end) = grammar::stmt_at(m, ts, pos)->Ok_0;
    account_args(m, ts, pos + 2);
    lemma_one(ts, pos);
    lemma_one(ts, pos + 1);
    lemma_split(ts, pos, pos + 1, pos + 2);
    lemma_split(ts, pos, pos + 2, end);
    assert(kept_in(ts, pos, end) =~= flat_stmt(x));
}

proof fn account_return(m: NumberModel, ts: Seq<SpecSpanned>, pos: int)
    requires
        0 <= pos,
        grammar::word_at(ts, pos, "return"@),
        !grammar::word_at(ts, pos, "print"@),
        !grammar::word_at(ts, pos, "fn"@),
        grammar::stmt_at(m, ts, pos) is Ok,
    ensures
        accounted(ts, pos, grammar::stmt_at(m, ts, pos)),
    decreases ts.len() - pos, 8int,
{
    let (x, end) = grammar::stmt_at(m, ts, pos)->Ok_0;
    account_expr(m, ts, pos + 1);
    lemma_one(ts, pos);
    lemma_split(ts, pos, pos + 1, end);
    assert(kept_in(ts, pos, end) =~= flat_stmt(x));
}

proof fn account_while(m: NumberModel, ts: Seq<SpecSpanned>, pos: int)
    requires
        0 <= pos,
        grammar::word_at(ts, pos, "while"@),
        !grammar::word_at(ts, pos, "print"@),
        !grammar::word_at(ts, pos, "fn"@),
        !grammar::word_at(ts, pos, "return"@),
        grammar::peek(ts, pos + 1) != SpecToken::Equals,
        grammar::stmt_at(m, ts, pos) is Ok,
    ensures
        accounted(ts, pos, grammar::stmt_at(m, ts, pos)),
    decreases ts.len() - pos, 8int,
{
    let (x, end) = grammar::stmt_at(m, ts, pos)->Ok_0;
    account_expr(m, ts, pos + 1);
    let (c, n1) = grammar::expr_at(m, ts, pos + 1)->Ok_0;
    account_block(m, ts, n1 + 1, Seq::empty());
    let (body, _) = grammar::block_at(m, ts, n1 + 1, Seq::empty())->Ok_0;
    lemma_one(ts, pos);
    lemma_one(ts, n1);
    lemma_split(ts, pos, pos + 1, n1);
    lemma_split(ts, pos, n1, n1 + 1);
    lemma_split(ts, pos, n1 + 1, end);
    assert(x == SpecStmt::While { condition: c, body });
    assert(flat_body(Seq::empty(), 0) =~= Seq::<SpecToken>::empty());
    assert(kept_in(ts, n1 + 1, end) =~= flat_body(body, body.len() as int) + seq![
        SpecToken::RBrace,
    ]);
    assert(kept_in(ts, pos, end) =~= flat_stmt(x));
}

proof fn account_assign(m: NumberModel, ts: Seq<SpecSpanned>, pos: int, mutable: bool)
    requires
        0 <= pos,
        grammar::assign_at(m, ts, pos, mutable) is Ok,
    ensures
        ({
            let (x, end) = grammar::assign_at(m, ts, pos, mutable)->Ok_0;
            &&& pos < end
            &&& x matches SpecStmt::Assign { name, value, mutable: c }
            &&& c == mutable
            &&& kept_in(ts, pos, end) == seq![SpecToken::Ident(name), SpecToken::Equals] + flat(
                value,
            )
        }),
    decreases ts.len() - pos, 7int,
{
    let (x, end) = grammar::assign_at(m, ts, pos, mutable)->Ok_0;
    account_expr(m, ts, pos + 2);
    lemma_one(ts, pos);
    lemma_one(ts, pos + 1);
    lemma_split(ts, pos, pos + 1, pos + 2);
    lemma_split(ts, pos, pos + 2, end);
    let (name, _) = grammar::name_at(m, ts, pos)->Ok_0;
    let (value, _) = grammar::expr_at(m, ts, pos + 2)->Ok_0;
    assert(kept_in(ts, pos, end) =~= seq![SpecToken::Ident(name), SpecToken::Equals] + flat(
        value,
    ));
}

proof fn account_fn(m: NumberModel, ts: Seq<SpecSpanned>, pos: int)
    requires
        0 <= pos,
        grammar::fn_at(m, ts, pos) is Ok,
    ensures
        ({
            let (x, end) = grammar::fn_at(m, ts, pos)->Ok_0;
            pos < end && (grammar::word_at(ts, pos, "fn"@) ==> kept_in(ts, pos, end) == flat_stmt(
                x,
            ))
        }),
    decreases ts.len() - pos, 7int,
{
    let (x, end) = grammar::fn_at(m, ts, pos)->Ok_0;
    let (name, _) = grammar::name_at(m, ts, pos + 1)->Ok_0;
    account_params(m, ts, pos + 3);
    let (params, n1) = grammar::params_at(m, ts, pos + 3)->Ok_0;
    account_block(m, ts, n1 + 1, Seq::empty());
    let (body, _) = grammar::block_at(m, ts, n1 + 1, Seq::empty())->Ok_0;
    lemma_one(ts, pos);
    lemma_one(ts, pos + 1);
    lemma_one(ts, pos + 2);
    lemma_one(ts, n1);
    lemma_split(ts, pos, pos + 1, pos + 2);
    lemma_split(ts, pos, pos + 2, pos + 3);
    lemma_split(ts, pos, pos + 3, n1);
    lemma_split(ts, pos, n1, n1 + 1);
    lemma_split(ts, pos, n1 + 1, end);
    assert(x == SpecStmt::FnDef { name, params, body });
    if grammar::word_at(ts, pos, "fn"@) {
        assert(kept_in(ts, pos, end) =~= flat_stmt(x));
    }
}

proof fn account_program(
    m: NumberModel,
    ts: Seq<SpecSpanned>,
    pos: int,
    read: Seq<SpecStmt>,
)
    requires
        0 <= pos,
        grammar::program_at(m, ts, pos, read) is Ok,
    ensures
        ({
            let (x, end) = grammar::program_at(m, ts, pos, read)->Ok_0;
            &&& pos <= end
            &&& grammar::peek(ts, end) == SpecToken::Eof
            &&& flat_body(read, read.len() as int) + kept_in(ts, pos, end) == flat_body(
                x,
                x.len() as int,
            )
        }),
    decreases ts.len() - pos,
{
    let (x, end) = grammar::program_at(m, ts, pos, read)->Ok_0;
    if grammar::peek(ts, pos) == SpecToken::Eof {
        assert(flat_body(read, read.len() as int) + kept_in(ts, pos, end) =~= flat_body(
            x,
            x.len() as int,
        ));
    } else {
        account_stmt(m, ts, pos);
        let (s, n1) = grammar::stmt_at(m, ts, pos)->Ok_0;
        account_end(m, ts, n1, s);
        let n2 = grammar::stmt_end(m, ts, n1, s)->Ok_0;
        account_program(m, ts, n2, read.push(s));
        lemma_split(ts, pos, n1, n2);
        lemma_split(ts, pos, n2, end);
        lemma_body_push(read, s, read.len() as int);
        assert(read.push(s)[read.len() as int] == s);
        assert(flat_body(read, read.len() as int) + kept_in(ts, pos, end) =~= flat_body(
            read.push(s),
            read.len() as int + 1,
        ) + kept_in(ts, n2, end));
    }
}

/// What is read is what is there: the tokens of a program that is read, up to the
/// end, are those of its tree, in order, but for parentheses, minus signs and zeros.
/// So nothing is ignored, and nothing is made up: no `;`, no comma, no brace and no
/// `else` that is missing, and none that is too many.
pub proof fn law_tokens_are_accounted_for(m: NumberModel, ts: Seq<SpecSpanned>)
    requires
        grammar::program_at(m, ts, 0, Seq::empty()) is Ok,
    ensures
        ({
            let (prog, end) = grammar::program_at(m, ts, 0, Seq::empty())->Ok_0;
            &&& kept_in(ts, 0, end) == flat_body(prog, prog.len() as int)
            &&& grammar::peek(ts, end) == SpecToken::Eof
        }),
{
    account_program(m, ts, 0, Seq::empty());
    let (prog, end) = grammar::program_at(m, ts, 0, Seq::empty())->Ok_0;
    assert(Seq::<SpecToken>::empty() + kept_in(ts, 0, end) =~= kept_in(ts, 0, end));
    assert(flat_body(Seq::empty(), 0) =~= Seq::<SpecToken>::empty());
}

} // verus!
