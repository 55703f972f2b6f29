//! How trees are spelled in tokens, and that the grammar reads them back.

#[allow(unused_imports)]
use crate::ast::{BinOp, SpecExpr, SpecStmt};
#[allow(unused_imports)]
use crate::grammar::{self, Parsed};
#[allow(unused_imports)]
use crate::lexer;
#[allow(unused_imports)]
use crate::number::{Bits, NumberModel};
#[allow(unused_imports)]
use crate::render;
#[allow(unused_imports)]
use crate::token::{SpecSpanned, SpecToken};
use vstd::prelude::*;

verus! {

// ---- spelling ---------------------------------------------------------

/// The token of an operator.
pub open spec fn op_token(op: BinOp) -> SpecToken {
    match op {
        BinOp::Add => SpecToken::Plus,
        BinOp::Sub => SpecToken::Minus,
        BinOp::Mul => SpecToken::Star,
        BinOp::Div => SpecToken::Slash,
        BinOp::Lt => SpecToken::LAngle,
        BinOp::Gt => SpecToken::RAngle,
        BinOp::Le => SpecToken::LessEq,
        BinOp::Ge => SpecToken::GreaterEq,
        BinOp::Eq => SpecToken::EqEq,
        BinOp::Ne => SpecToken::NotEq,
        BinOp::Power => SpecToken::Caret,
    }
}

/// Whether a number is written with a minus sign.
pub open spec fn signed(m: NumberModel, n: Bits) -> bool {
    render::has_sign((m.show)(n))
}

/// How a number is written, apart from its sign.
pub open spec fn digits_text(m: NumberModel, n: Bits) -> Seq<char> {
    render::unsigned(render::float_text(m, n))
}

/// The token that a number reads as, apart from its sign: an integer where it
/// is written without a `.`.
pub open spec fn magnitude(m: NumberModel, n: Bits) -> SpecToken {
    lexer::number(m, digits_text(m, n), 0)->Ok_0.0
}

/// Whether a number, apart from its sign, is written as the lexer reads one.
pub open spec fn legible(m: NumberModel, n: Bits) -> bool {
    let t = digits_text(m, n);
    &&& t.len() > 0
    &&& lexer::is_digit(t[0])
    &&& lexer::number(m, t, 0) is Ok
    &&& lexer::number(m, t, 0)->Ok_0.1 == t.len()
}

/// Tokens, in parentheses or not.
pub open spec fn wrapped(wrap: bool, xs: Seq<SpecToken>) -> Seq<SpecToken> {
    if wrap {
        seq![SpecToken::LParen] + xs + seq![SpecToken::RParen]
    } else {
        xs
    }
}

/// The tokens of an expression.
pub open spec fn expr_tokens(m: NumberModel, e: SpecExpr) -> Seq<SpecToken>
    decreases e, 0nat,
{
    match e {
        SpecExpr::Int(n) => if n < 0 {
            seq![SpecToken::Minus, SpecToken::Int((-n) as i64)]
        } else {
            seq![SpecToken::Int(n)]
        },
        SpecExpr::Float(n) => if signed(m, n) {
            seq![SpecToken::Minus, magnitude(m, n)]
        } else {
            seq![magnitude(m, n)]
        },
        SpecExpr::Str(s) => seq![SpecToken::Str(s)],
        SpecExpr::Var(name) => seq![SpecToken::Ident(name)],
        SpecExpr::Field { base, name } => wrapped(
            render::base_wrapped(m, *base),
            expr_tokens(m, *base),
        ) + seq![SpecToken::Dot, SpecToken::Ident(name)],
        SpecExpr::Subset { base, name } => wrapped(
            render::base_wrapped(m, *base),
            expr_tokens(m, *base),
        ) + seq![SpecToken::LAngle, SpecToken::Ident(name), SpecToken::RAngle],
        SpecExpr::Binary { op, lhs, rhs } => wrapped(
            render::left_wrapped(m, op, *lhs),
            expr_tokens(m, *lhs),
        ) + seq![op_token(op)] + wrapped(
            render::right_wrapped(m, op, *rhs),
            expr_tokens(m, *rhs),
        ),
        SpecExpr::If { condition, then_branch, else_branch } => seq![SpecToken::Ident("if"@)]
            + expr_tokens(m, *condition) + seq![SpecToken::LBrace] + expr_tokens(m, *then_branch)
            + seq![SpecToken::RBrace, SpecToken::Ident("else"@), SpecToken::LBrace] + expr_tokens(
            m,
            *else_branch,
        ) + seq![SpecToken::RBrace],
        SpecExpr::Call { name, args } => seq![SpecToken::Ident(name), SpecToken::LParen]
            + list_tokens(m, args, args.len() as int) + seq![SpecToken::RParen],
        SpecExpr::Unsafe { body } => seq![
            SpecToken::LBracket,
            SpecToken::Ident("unsafe"@),
            SpecToken::RBracket,
            SpecToken::LBrace,
        ] + stmts_tokens(m, body, body.len() as int) + seq![SpecToken::RBrace],
    }
}

/// The tokens of the first `n` expressions, separated by commas.
pub open spec fn list_tokens(m: NumberModel, es: Seq<SpecExpr>, n: int) -> Seq<SpecToken>
    decreases es, n,
{
    if n <= 0 || n > es.len() {
        Seq::empty()
    } else if n == 1 {
        expr_tokens(m, es[0])
    } else {
        list_tokens(m, es, n - 1) + seq![SpecToken::Comma] + expr_tokens(m, es[n - 1])
    }
}

/// The tokens of the first `n` names, separated by commas.
pub open spec fn names_tokens(ns: Seq<Seq<char>>, n: int) -> Seq<SpecToken>
    decreases n,
{
    if n <= 0 || n > ns.len() {
        Seq::empty()
    } else if n == 1 {
        seq![SpecToken::Ident(ns[0])]
    } else {
        names_tokens(ns, n - 1) + seq![SpecToken::Comma, SpecToken::Ident(ns[n - 1])]
    }
}

/// The tokens of a statement.
pub open spec fn stmt_tokens(m: NumberModel, s: SpecStmt) -> Seq<SpecToken>
    decreases s, 0nat,
{
    match s {
        SpecStmt::Assign { name, value, mutable } => mut_tokens(mutable) + seq![
            SpecToken::Ident(name),
            SpecToken::Equals,
        ] + expr_tokens(m, value) + seq![SpecToken::Semicolon],
        SpecStmt::Print(es) => seq![SpecToken::Ident("print"@), SpecToken::LParen] + list_tokens(
            m,
            es,
            es.len() as int,
        ) + seq![SpecToken::RParen, SpecToken::Semicolon],
        SpecStmt::FnDef { name, params, body } => seq![
            SpecToken::Ident("fn"@),
            SpecToken::Ident(name),
            SpecToken::LParen,
        ] + names_tokens(params, params.len() as int) + seq![SpecToken::RParen, SpecToken::LBrace]
            + stmts_tokens(m, body, body.len() as int) + seq![SpecToken::RBrace],
        SpecStmt::While { condition, body } => seq![SpecToken::Ident("while"@)] + expr_tokens(
            m,
            condition,
        ) + seq![SpecToken::LBrace] + stmts_tokens(m, body, body.len() as int) + seq![
            SpecToken::RBrace,
        ],
        SpecStmt::Return(e) => seq![SpecToken::Ident("return"@)] + expr_tokens(m, e) + seq![
            SpecToken::Semicolon,
        ],
    }
}

pub open spec fn mut_tokens(mutable: bool) -> Seq<SpecToken> {
    if mutable {
        seq![SpecToken::Ident("mut"@)]
    } else {
        Seq::empty()
    }
}

/// The tokens of the first `n` statements.
pub open spec fn stmts_tokens(m: NumberModel, ss: Seq<SpecStmt>, n: int) -> Seq<SpecToken>
    decreases ss, n,
{
    if n <= 0 || n > ss.len() {
        Seq::empty()
    } else {
        stmts_tokens(m, ss, n - 1) + stmt_tokens(m, ss[n - 1])
    }
}

// ---- trees that can be spelled ------------------------------------------

/// Whether the grammar gives back the expression for its tokens: the numbers
/// are written as the lexer reads them, and no name is a word of the language.
pub open spec fn plain(m: NumberModel, e: SpecExpr) -> bool
    decreases e, 0nat,
{
    match e {
        SpecExpr::Int(n) => n > i64::MIN,
        SpecExpr::Float(n) => legible(m, n),
        SpecExpr::Str(_) => true,
        SpecExpr::Var(name) => name != "if"@,
        SpecExpr::Field { base, .. } => plain(m, *base),
        SpecExpr::Subset { base, .. } => plain(m, *base),
        SpecExpr::Binary { lhs, rhs, .. } => plain(m, *lhs) && plain(m, *rhs),
        SpecExpr::If { condition, then_branch, else_branch } => plain(m, *condition) && plain(
            m,
            *then_branch,
        ) && plain(m, *else_branch),
        SpecExpr::Call { name, args } => name != "if"@ && forall|i: int|
            0 <= i < args.len() ==> plain(m, #[trigger] args[i]),
        SpecExpr::Unsafe { body } => plain_stmts(m, body),
    }
}

pub open spec fn plain_stmts(m: NumberModel, ss: Seq<SpecStmt>) -> bool
    decreases ss, 0nat,
{
    forall|i: int| 0 <= i < ss.len() ==> plain_stmt(m, #[trigger] ss[i])
}

/// Whether the grammar gives back the statement for its tokens: its
/// expressions are plain, a function ends with a `return`, and an assigned
/// name is no word that starts a statement.
pub open spec fn plain_stmt(m: NumberModel, s: SpecStmt) -> bool
    decreases s, 0nat,
{
    match s {
        SpecStmt::Assign { name, value, mutable } => plain(m, value) && (mutable || {
            &&& name != "print"@
            &&& name != "fn"@
            &&& name != "return"@
        }),
        SpecStmt::Print(es) => forall|i: int| 0 <= i < es.len() ==> plain(m, #[trigger] es[i]),
        SpecStmt::FnDef { body, .. } => body.len() > 0 && body.last() is Return && plain_stmts(
            m,
            body,
        ),
        SpecStmt::While { condition, body } => plain(m, condition) && plain_stmts(m, body),
        SpecStmt::Return(e) => plain(m, e),
    }
}

// ---- what is read ------------------------------------------------------

/// The tree of a number token.
pub open spec fn leaf(t: SpecToken) -> SpecExpr {
    match t {
        SpecToken::Int(n) => SpecExpr::Int(n),
        SpecToken::Float(n) => SpecExpr::Float(n),
        _ => SpecExpr::Int(0),
    }
}

/// The tree that the grammar reads for the tokens of `e`: `e` itself, but for
/// the numbers that are written with a minus sign, which read as a difference
/// from 0, and those that are written without a `.`, which read as integers.
pub open spec fn reread(m: NumberModel, e: SpecExpr) -> SpecExpr
    decreases e, 0nat,
{
    match e {
        SpecExpr::Int(n) => if n < 0 {
            grammar::binary(BinOp::Sub, SpecExpr::Int(0), SpecExpr::Int((-n) as i64))
        } else {
            e
        },
        SpecExpr::Float(n) => if signed(m, n) {
            grammar::binary(BinOp::Sub, SpecExpr::Int(0), leaf(magnitude(m, n)))
        } else {
            leaf(magnitude(m, n))
        },
        SpecExpr::Str(_) => e,
        SpecExpr::Var(_) => e,
        SpecExpr::Field { base, name } => SpecExpr::Field {
            base: Box::new(reread(m, *base)),
            name,
        },
        SpecExpr::Subset { base, name } => SpecExpr::Subset {
            base: Box::new(reread(m, *base)),
            name,
        },
        SpecExpr::Binary { op, lhs, rhs } => grammar::binary(op, reread(m, *lhs), reread(m, *rhs)),
        SpecExpr::If { condition, then_branch, else_branch } => SpecExpr::If {
            condition: Box::new(reread(m, *condition)),
            then_branch: Box::new(reread(m, *then_branch)),
            else_branch: Box::new(reread(m, *else_branch)),
        },
        SpecExpr::Call { name, args } => SpecExpr::Call {
            name,
            args: reread_list(m, args, args.len() as int),
        },
        SpecExpr::Unsafe { body } => SpecExpr::Unsafe {
            body: reread_stmts(m, body, body.len() as int),
        },
    }
}

/// The trees that the grammar reads for the first `n` expressions.
pub open spec fn reread_list(m: NumberModel, es: Seq<SpecExpr>, n: int) -> Seq<SpecExpr>
    decreases es, n,
{
    if n <= 0 || n > es.len() {
        Seq::empty()
    } else {
        reread_list(m, es, n - 1).push(reread(m, es[n - 1]))
    }
}

/// The statement that the grammar reads for the tokens of `s`.
pub open spec fn reread_stmt(m: NumberModel, s: SpecStmt) -> SpecStmt
    decreases s, 0nat,
{
    match s {
        SpecStmt::Assign { name, value, mutable } => SpecStmt::Assign {
            name,
            value: reread(m, value),
            mutable,
        },
        SpecStmt::Print(es) => SpecStmt::Print(reread_list(m, es, es.len() as int)),
        SpecStmt::FnDef { name, params, body } => SpecStmt::FnDef {
            name,
            params,
            body: reread_stmts(m, body, body.len() as int),
        },
        SpecStmt::While { condition, body } => SpecStmt::While {
            condition: reread(m, condition),
            body: reread_stmts(m, body, body.len() as int),
        },
        SpecStmt::Return(e) => SpecStmt::Return(reread(m, e)),
    }
}

/// The statements that the grammar reads for the first `n` of `ss`.
pub open spec fn reread_stmts(m: NumberModel, ss: Seq<SpecStmt>, n: int) -> Seq<SpecStmt>
    decreases ss, n,
{
    if n <= 0 || n > ss.len() {
        Seq::empty()
    } else {
        reread_stmts(m, ss, n - 1).push(reread_stmt(m, ss[n - 1]))
    }
}

/// Whether the numbers of an expression are read as they are: none is written
/// with a minus sign, and the doubles are written with a `.`.
pub open spec fn literal_numbers(m: NumberModel, e: SpecExpr) -> bool
    decreases e, 0nat,
{
    match e {
        SpecExpr::Int(n) => n >= 0,
        SpecExpr::Float(n) => !signed(m, n) && magnitude(m, n) == SpecToken::Float(n),
        SpecExpr::Field { base, .. } => literal_numbers(m, *base),
        SpecExpr::Subset { base, .. } => literal_numbers(m, *base),
        SpecExpr::Binary { lhs, rhs, .. } => literal_numbers(m, *lhs) && literal_numbers(m, *rhs),
        SpecExpr::If { condition, then_branch, else_branch } => literal_numbers(m, *condition)
            && literal_numbers(m, *then_branch) && literal_numbers(m, *else_branch),
        SpecExpr::Call { args, .. } => forall|i: int|
            0 <= i < args.len() ==> literal_numbers(m, #[trigger] args[i]),
        SpecExpr::Unsafe { body } => literal_numbers_in(m, body),
        _ => true,
    }
}

pub open spec fn literal_numbers_in(m: NumberModel, ss: Seq<SpecStmt>) -> bool
    decreases ss, 0nat,
{
    forall|i: int| 0 <= i < ss.len() ==> literal_numbers_of(m, #[trigger] ss[i])
}

/// Whether the numbers of a statement are read as they are.
pub open spec fn literal_numbers_of(m: NumberModel, s: SpecStmt) -> bool
    decreases s, 0nat,
{
    match s {
        SpecStmt::Assign { value, .. } => literal_numbers(m, value),
        SpecStmt::Print(es) => forall|i: int|
            0 <= i < es.len() ==> literal_numbers(m, #[trigger] es[i]),
        SpecStmt::FnDef { body, .. } => literal_numbers_in(m, body),
        SpecStmt::While { condition, body } => literal_numbers(m, condition)
            && literal_numbers_in(m, body),
        SpecStmt::Return(e) => literal_numbers(m, e),
    }
}

/// Where the numbers of an expression are read as they are, so is the
/// expression: what is read is the very tree that was written.
pub proof fn law_expressions_are_kept(m: NumberModel, e: SpecExpr)
    requires
        literal_numbers(m, e),
    ensures
        reread(m, e) == e,
    decreases e, 0nat,
{
    match e {
        SpecExpr::Field { base, .. } => law_expressions_are_kept(m, *base),
        SpecExpr::Subset { base, .. } => law_expressions_are_kept(m, *base),
        SpecExpr::Binary { lhs, rhs, .. } => {
            law_expressions_are_kept(m, *lhs);
            law_expressions_are_kept(m, *rhs);
        },
        SpecExpr::If { condition, then_branch, else_branch } => {
            law_expressions_are_kept(m, *condition);
            law_expressions_are_kept(m, *then_branch);
            law_expressions_are_kept(m, *else_branch);
        },
        SpecExpr::Call { args, .. } => keeps_list(m, args, args.len() as int),
        SpecExpr::Unsafe { body } => keeps_stmts(m, body, body.len() as int),
        _ => {},
    }
}

proof fn keeps_list(m: NumberModel, es: Seq<SpecExpr>, n: int)
    requires
        0 <= n <= es.len(),
        forall|i: int| 0 <= i < es.len() ==> literal_numbers(m, #[trigger] es[i]),
    ensures
        reread_list(m, es, n) == es.take(n),
        es.take(es.len() as int) == es,
    decreases es, n,
{
    if n > 0 {
        keeps_list(m, es, n - 1);
        law_expressions_are_kept(m, es[n - 1]);
        assert(es.take(n) =~= es.take(n - 1).push(es[n - 1]));
    } else {
        assert(es.take(0) =~= Seq::<SpecExpr>::empty());
    }
    assert(es.take(es.len() as int) =~= es);
}

/// Where the numbers of a statement are read as they are, what is read is the
/// very statement that was written.
pub proof fn law_statements_are_kept(m: NumberModel, s: SpecStmt)
    requires
        literal_numbers_of(m, s),
    ensures
        reread_stmt(m, s) == s,
    decreases s, 0nat,
{
    match s {
        SpecStmt::Assign { value, .. } => law_expressions_are_kept(m, value),
        SpecStmt::Print(es) => keeps_list(m, es, es.len() as int),
        SpecStmt::FnDef { body, .. } => keeps_stmts(m, body, body.len() as int),
        SpecStmt::While { condition, body } => {
            law_expressions_are_kept(m, condition);
            keeps_stmts(m, body, body.len() as int);
        },
        SpecStmt::Return(e) => law_expressions_are_kept(m, e),
    }
}

proof fn keeps_stmts(m: NumberModel, ss: Seq<SpecStmt>, n: int)
    requires
        0 <= n <= ss.len(),
        literal_numbers_in(m, ss),
    ensures
        reread_stmts(m, ss, n) == ss.take(n),
        ss.take(ss.len() as int) == ss,
    decreases ss, n,
{
    if n > 0 {
        keeps_stmts(m, ss, n - 1);
        assert(literal_numbers_of(m, ss[n - 1]));
        law_statements_are_kept(m, ss[n - 1]);
        assert(ss.take(n) =~= ss.take(n - 1).push(ss[n - 1]));
    } else {
        assert(ss.take(0) =~= Seq::<SpecStmt>::empty());
    }
    assert(ss.take(ss.len() as int) =~= ss);
}

// ---- reading back -----------------------------------------------------

/// The tokens `xs` stand at `pos`.
#[verifier::opaque]
pub open spec fn stands(ts: Seq<SpecSpanned>, pos: int, xs: Seq<SpecToken>) -> bool {
    &&& 0 <= pos
    &&& pos + xs.len() <= ts.len()
    &&& forall|i: int| 0 <= i < xs.len() ==> (#[trigger] ts[pos + i]).token == xs[i]
}

pub(crate) proof fn split(ts: Seq<SpecSpanned>, pos: int, xs: Seq<SpecToken>, ys: Seq<SpecToken>)
    requires
        stands(ts, pos, xs + ys),
    ensures
        stands(ts, pos, xs),
        stands(ts, pos + xs.len(), ys),
{
    reveal(stands);
    let all = xs + ys;
    assert forall|i: int| 0 <= i < xs.len() implies (#[trigger] ts[pos + i]).token == xs[i] by {
        assert(all[i] == xs[i]);
    }
    assert forall|i: int| 0 <= i < ys.len() implies (#[trigger] ts[pos + xs.len() + i]).token
        == ys[i] by {
        assert(all[xs.len() + i] == ys[i]);
        assert(ts[pos + (xs.len() + i)].token == all[xs.len() + i]);
    }
}

pub(crate) proof fn first(ts: Seq<SpecSpanned>, pos: int, xs: Seq<SpecToken>)
    requires
        stands(ts, pos, xs),
    ensures
        0 <= pos,
        pos + xs.len() <= ts.len(),
        xs.len() > 0 ==> grammar::peek(ts, pos) == xs[0],
        xs.len() > 1 ==> grammar::peek(ts, pos + 1) == xs[1],
        xs.len() > 2 ==> grammar::peek(ts, pos + 2) == xs[2],
        xs.len() > 3 ==> grammar::peek(ts, pos + 3) == xs[3],
{
    reveal(stands);
    if xs.len() > 0 {
        assert(ts[pos + 0].token == xs[0]);
    }
    if xs.len() > 1 {
        assert(ts[pos + 1].token == xs[1]);
    }
    if xs.len() > 2 {
        assert(ts[pos + 2].token == xs[2]);
    }
    if xs.len() > 3 {
        assert(ts[pos + 3].token == xs[3]);
    }
}

/// What comes next does not belong to an expression that operators cannot take
/// apart.
pub open spec fn ends_access(ts: Seq<SpecSpanned>, pos: int) -> bool {
    &&& grammar::peek(ts, pos) != SpecToken::Dot
    &&& grammar::peek(ts, pos) != SpecToken::LParen
    &&& !(grammar::peek(ts, pos) == SpecToken::LAngle && grammar::subset_at(ts, pos))
}

pub open spec fn ends_power(ts: Seq<SpecSpanned>, pos: int) -> bool {
    ends_access(ts, pos) && grammar::peek(ts, pos) != SpecToken::Caret
}

pub open spec fn ends_product(ts: Seq<SpecSpanned>, pos: int) -> bool {
    ends_power(ts, pos) && grammar::product_op(grammar::peek(ts, pos)) is None
}

pub open spec fn ends_sum(ts: Seq<SpecSpanned>, pos: int) -> bool {
    ends_product(ts, pos) && grammar::sum_op(grammar::peek(ts, pos)) is None
}

proof fn lemma_tokens_not_empty(m: NumberModel, e: SpecExpr)
    ensures
        expr_tokens(m, e).len() > 0,
    decreases e,
{
    match e {
        SpecExpr::Field { base, .. } => lemma_tokens_not_empty(m, *base),
        SpecExpr::Subset { base, .. } => lemma_tokens_not_empty(m, *base),
        SpecExpr::Binary { lhs, .. } => lemma_tokens_not_empty(m, *lhs),
        _ => {},
    }
}

/// Whether an expression can start with a token: with no closing parenthesis or
/// brace, no `>` and no `=`.
spec fn starts(t: SpecToken) -> bool {
    t != SpecToken::RParen && t != SpecToken::RBrace && t != SpecToken::Equals && t
        != SpecToken::RAngle
}

/// What a plain expression starts with; one that binds more tightly than a
/// number with a minus sign does not start with a minus sign.
proof fn lemma_first_token(m: NumberModel, e: SpecExpr)
    requires
        plain(m, e),
    ensures
        expr_tokens(m, e).len() > 0,
        render::looseness(m, e) <= 1 ==> expr_tokens(m, e)[0] != SpecToken::Minus,
        starts(expr_tokens(m, e)[0]),
    decreases e,
{
    match e {
        SpecExpr::Field { base, .. } => {
            lemma_first_token(m, *base);
            lemma_first_wrapped(m, render::base_wrapped(m, *base), *base);
        },
        SpecExpr::Subset { base, .. } => {
            lemma_first_token(m, *base);
            lemma_first_wrapped(m, render::base_wrapped(m, *base), *base);
        },
        SpecExpr::Binary { op, lhs, .. } => {
            lemma_first_token(m, *lhs);
            lemma_first_wrapped(m, render::left_wrapped(m, op, *lhs), *lhs);
        },
        _ => {},
    }
}

/// What an operand starts with.
proof fn lemma_first_wrapped(m: NumberModel, wrap: bool, e: SpecExpr)
    requires
        expr_tokens(m, e).len() > 0,
        starts(expr_tokens(m, e)[0]),
    ensures
        wrapped(wrap, expr_tokens(m, e)).len() > 0,
        starts(wrapped(wrap, expr_tokens(m, e))[0]),
        wrap ==> wrapped(wrap, expr_tokens(m, e))[0] == SpecToken::LParen,
        wrap ==> wrapped(wrap, expr_tokens(m, e)).len() > 1 && wrapped(
            wrap,
            expr_tokens(m, e),
        )[1] == expr_tokens(m, e)[0],
{
}

/// An operand that is a name and nothing else is the only one that starts with
/// a name after which a `>` could come.
proof fn lemma_not_a_subset(
    m: NumberModel,
    ts: Seq<SpecSpanned>,
    pos: int,
    wrap: bool,
    e: SpecExpr,
)
    requires
        stands(ts, pos, wrapped(wrap, expr_tokens(m, e))),
        plain(m, e),
        wrap || render::looseness(m, e) <= 3,
        wrap || !(e is Var),
    ensures
        !(grammar::peek(ts, pos) is Ident && grammar::peek(ts, pos + 1) == SpecToken::RAngle),
{
    first(ts, pos, wrapped(wrap, expr_tokens(m, e)));
    if !wrap {
        lemma_second_token(m, e);
    }
}

proof fn lemma_second_token(m: NumberModel, e: SpecExpr)
    requires
        plain(m, e),
        render::looseness(m, e) <= 3,
    ensures
        expr_tokens(m, e).len() > 0,
        expr_tokens(m, e).len() == 1 && expr_tokens(m, e)[0] is Ident ==> e is Var,
        expr_tokens(m, e).len() > 1 ==> expr_tokens(m, e)[1] != SpecToken::RAngle,
    decreases e,
{
    match e {
        SpecExpr::Field { base, name } => {
            let wrap = render::base_wrapped(m, *base);
            let xs = wrapped(wrap, expr_tokens(m, *base));
            lemma_first_token(m, *base);
            lemma_first_wrapped(m, wrap, *base);
            if !wrap {
                lemma_second_token(m, *base);
            }
            let ys = seq![SpecToken::Dot, SpecToken::Ident(name)];
            assert((xs + ys)[1] != SpecToken::RAngle);
        },
        SpecExpr::Subset { base, name } => {
            let wrap = render::base_wrapped(m, *base);
            let xs = wrapped(wrap, expr_tokens(m, *base));
            lemma_first_token(m, *base);
            lemma_first_wrapped(m, wrap, *base);
            if !wrap {
                lemma_second_token(m, *base);
            }
            let ys = seq![SpecToken::LAngle, SpecToken::Ident(name), SpecToken::RAngle];
            assert((xs + ys)[1] != SpecToken::RAngle);
        },
        SpecExpr::Binary { op, lhs, rhs } => {
            let wrap = render::left_wrapped(m, op, *lhs);
            let xs = wrapped(wrap, expr_tokens(m, *lhs));
            let ys = wrapped(render::right_wrapped(m, op, *rhs), expr_tokens(m, *rhs));
            lemma_first_token(m, *lhs);
            lemma_first_token(m, *rhs);
            lemma_first_wrapped(m, wrap, *lhs);
            lemma_first_wrapped(m, render::right_wrapped(m, op, *rhs), *rhs);
            if !wrap {
                lemma_second_token(m, *lhs);
            }
            assert((xs + seq![op_token(op)] + ys)[1] != SpecToken::RAngle);
        },
        SpecExpr::If { condition, .. } => {
            lemma_first_token(m, *condition);
            assert(expr_tokens(m, e)[1] == expr_tokens(m, *condition)[0]);
        },
        SpecExpr::Call { .. } => {
            assert(expr_tokens(m, e)[1] == SpecToken::LParen);
        },
        SpecExpr::Unsafe { .. } => {
            assert(!(expr_tokens(m, e)[0] is Ident));
            assert(expr_tokens(m, e)[1] is Ident);
        },
        _ => {},
    }
}

/// The grammar gives the tree `x` and goes on at `end`.
pub open spec fn gives<T>(r: Parsed<T>, x: T, end: int) -> bool {
    r is Ok && r->Ok_0 == (x, end)
}

/// The place after the expression `e` at `pos`.
pub open spec fn after(m: NumberModel, e: SpecExpr, pos: int) -> int {
    pos + expr_tokens(m, e).len()
}

/// The place after an operand at `pos`.
pub open spec fn past(m: NumberModel, wrap: bool, e: SpecExpr, pos: int) -> int {
    pos + wrapped(wrap, expr_tokens(m, e)).len()
}

/// The grammar reads what stands in parentheses as one operand, for each kind
/// of operand that what comes next may make it.
proof fn read_wrapped(m: NumberModel, ts: Seq<SpecSpanned>, pos: int, e: SpecExpr)
    requires
        plain(m, e),
        stands(ts, pos, wrapped(true, expr_tokens(m, e))),
    ensures
        ({
            let end = past(m, true, e, pos);
            let x = reread(m, e);
            &&& 0 <= pos < end
            &&& grammar::postfix_at(m, ts, pos) == grammar::access_rest(m, ts, end, x)
            &&& ends_power(ts, end) ==> {
                &&& gives(grammar::power_at(m, ts, pos), x, end)
                &&& gives(grammar::unary_at(m, ts, pos), x, end)
                &&& grammar::term_at(m, ts, pos) == grammar::product_rest(m, ts, end, x)
            }
            &&& ends_product(ts, end) ==> grammar::expr_at(m, ts, pos) == grammar::sum_rest(
                m,
                ts,
                end,
                x,
            )
        }),
    decreases e, 8nat,
{
    let open = seq![SpecToken::LParen];
    let xs = expr_tokens(m, e);
    let close = seq![SpecToken::RParen];
    let end = past(m, true, e, pos);
    split(ts, pos, open + xs, close);
    split(ts, pos, open, xs);
    first(ts, pos, open);
    first(ts, pos + 1 + xs.len(), close);
    read_expr(m, ts, pos + 1, e);
    assert(gives(grammar::primary_at(m, ts, pos), reread(m, e), end));
}

proof fn read_base(m: NumberModel, ts: Seq<SpecSpanned>, pos: int, wrap: bool, e: SpecExpr)
    requires
        plain(m, e),
        wrap || render::looseness(m, e) == 0,
        stands(ts, pos, wrapped(wrap, expr_tokens(m, e))),
        grammar::peek(ts, past(m, wrap, e, pos)) != SpecToken::LParen,
    ensures
        grammar::postfix_at(m, ts, pos) == grammar::access_rest(
            m,
            ts,
            past(m, wrap, e, pos),
            reread(m, e),
        ),
    decreases e, 9nat,
{
    if wrap {
        read_wrapped(m, ts, pos, e);
    } else {
        read_access(m, ts, pos, e);
    }
}

/// The grammar reads the accesses of an expression one after the other.
#[verifier::rlimit(30)]
proof fn read_access(m: NumberModel, ts: Seq<SpecSpanned>, pos: int, e: SpecExpr)
    requires
        plain(m, e),
        render::looseness(m, e) == 0,
        stands(ts, pos, expr_tokens(m, e)),
        grammar::peek(ts, after(m, e, pos)) != SpecToken::LParen,
    ensures
        grammar::postfix_at(m, ts, pos) == grammar::access_rest(m, ts, after(m, e, pos), reread(m, e)),
    decreases e, 2nat,
{
    first(ts, pos, expr_tokens(m, e));
    match e {
        SpecExpr::Field { base, name } => {
            let wrap = render::base_wrapped(m, *base);
            let ys = seq![SpecToken::Dot, SpecToken::Ident(name)];
            split(ts, pos, wrapped(wrap, expr_tokens(m, *base)), ys);
            first(ts, past(m, wrap, *base, pos), ys);
            read_base(m, ts, pos, wrap, *base);
        },
        SpecExpr::Subset { base, name } => {
            let wrap = render::base_wrapped(m, *base);
            let ys = seq![SpecToken::LAngle, SpecToken::Ident(name), SpecToken::RAngle];
            split(ts, pos, wrapped(wrap, expr_tokens(m, *base)), ys);
            first(ts, past(m, wrap, *base, pos), ys);
            read_base(m, ts, pos, wrap, *base);
        },
        _ => {
            lemma_tokens_not_empty(m, e);
            read_primary(m, ts, pos, e);
        },
    }
}

proof fn read_primary(m: NumberModel, ts: Seq<SpecSpanned>, pos: int, e: SpecExpr)
    requires
        plain(m, e),
        render::looseness(m, e) == 0,
        !(e is Field),
        !(e is Subset),
        stands(ts, pos, expr_tokens(m, e)),
        grammar::peek(ts, after(m, e, pos)) != SpecToken::LParen,
    ensures
        gives(grammar::primary_at(m, ts, pos), reread(m, e), after(m, e, pos)),
    decreases e, 1nat,
{
    first(ts, pos, expr_tokens(m, e));
    match e {
        SpecExpr::If { .. } => read_if(m, ts, pos, e),
        SpecExpr::Call { name, args } => {
            let head = seq![SpecToken::Ident(name), SpecToken::LParen];
            let list = list_tokens(m, args, args.len() as int);
            let tail = seq![SpecToken::RParen];
            split(ts, pos, head + list, tail);
            split(ts, pos, head, list);
            first(ts, pos, head);
            first(ts, pos + 2 + list.len(), tail);
            read_args(m, ts, pos + 2, args);
        },
        SpecExpr::Unsafe { .. } => read_unsafe(m, ts, pos, e),
        _ => {},
    }
}

/// Where the parts of a conditional stand.
proof fn if_pieces(
    m: NumberModel,
    ts: Seq<SpecSpanned>,
    pos: int,
    e: SpecExpr,
    p2: int,
    p4: int,
    p6: int,
)
    requires
        e is If,
        stands(ts, pos, expr_tokens(m, e)),
        p2 == after(m, *e->condition, pos + 1),
        p4 == after(m, *e->then_branch, p2 + 1),
        p6 == after(m, *e->else_branch, p4 + 3),
    ensures
        0 <= pos,
        p6 < ts.len(),
        p6 + 1 == after(m, e, pos),
        grammar::peek(ts, pos) == SpecToken::Ident("if"@),
        stands(ts, pos + 1, expr_tokens(m, *e->condition)),
        grammar::peek(ts, p2) == SpecToken::LBrace,
        stands(ts, p2 + 1, expr_tokens(m, *e->then_branch)),
        grammar::peek(ts, p4) == SpecToken::RBrace,
        grammar::peek(ts, p4 + 1) == SpecToken::Ident("else"@),
        grammar::peek(ts, p4 + 2) == SpecToken::LBrace,
        stands(ts, p4 + 3, expr_tokens(m, *e->else_branch)),
        grammar::peek(ts, p6) == SpecToken::RBrace,
{
    let x0 = seq![SpecToken::Ident("if"@)];
    let x1 = expr_tokens(m, *e->condition);
    let x2 = seq![SpecToken::LBrace];
    let x3 = expr_tokens(m, *e->then_branch);
    let x4 = seq![SpecToken::RBrace, SpecToken::Ident("else"@), SpecToken::LBrace];
    let x5 = expr_tokens(m, *e->else_branch);
    let x6 = seq![SpecToken::RBrace];
    split(ts, pos, x0 + x1 + x2 + x3 + x4 + x5, x6);
    split(ts, pos, x0 + x1 + x2 + x3 + x4, x5);
    split(ts, pos, x0 + x1 + x2 + x3, x4);
    split(ts, pos, x0 + x1 + x2, x3);
    split(ts, pos, x0 + x1, x2);
    split(ts, pos, x0, x1);
    first(ts, pos, x0);
    first(ts, p2, x2);
    first(ts, p4, x4);
    first(ts, p6, x6);
}

/// The grammar reads a conditional whose parts it reads.
proof fn if_of_parts(
    m: NumberModel,
    ts: Seq<SpecSpanned>,
    pos: int,
    e: SpecExpr,
    p2: int,
    p4: int,
    p6: int,
)
    requires
        e is If,
        0 <= pos,
        pos + 1 < p2 < p4 < p6 < ts.len(),
        grammar::peek(ts, pos) == SpecToken::Ident("if"@),
        gives(grammar::expr_at(m, ts, pos + 1), *e->condition, p2),
        grammar::peek(ts, p2) == SpecToken::LBrace,
        gives(grammar::expr_at(m, ts, p2 + 1), *e->then_branch, p4),
        grammar::peek(ts, p4) == SpecToken::RBrace,
        grammar::peek(ts, p4 + 1) == SpecToken::Ident("else"@),
        grammar::peek(ts, p4 + 2) == SpecToken::LBrace,
        gives(grammar::expr_at(m, ts, p4 + 3), *e->else_branch, p6),
        grammar::peek(ts, p6) == SpecToken::RBrace,
    ensures
        gives(grammar::primary_at(m, ts, pos), e, p6 + 1),
{
    assert(gives(grammar::braced_at(m, ts, p2), *e->then_branch, p4 + 1));
    assert(gives(grammar::braced_at(m, ts, p4 + 2), *e->else_branch, p6 + 1));
    assert(gives(grammar::if_at(m, ts, pos + 1), e, p6 + 1));
}

proof fn read_if(m: NumberModel, ts: Seq<SpecSpanned>, pos: int, e: SpecExpr)
    requires
        plain(m, e),
        e is If,
        stands(ts, pos, expr_tokens(m, e)),
    ensures
        gives(grammar::primary_at(m, ts, pos), reread(m, e), after(m, e, pos)),
    decreases e, 0nat,
{
    if let SpecExpr::If { condition, then_branch, else_branch } = e {
        let p2 = after(m, *condition, pos + 1);
        let p4 = after(m, *then_branch, p2 + 1);
        let p6 = after(m, *else_branch, p4 + 3);
        if_pieces(m, ts, pos, e, p2, p4, p6);
        lemma_tokens_not_empty(m, *condition);
        read_expr(m, ts, pos + 1, *condition);
        read_expr(m, ts, p2 + 1, *then_branch);
        read_expr(m, ts, p4 + 3, *else_branch);
        if_of_parts(m, ts, pos, reread(m, e), p2, p4, p6);
    }
}

proof fn read_unsafe(m: NumberModel, ts: Seq<SpecSpanned>, pos: int, e: SpecExpr)
    requires
        plain(m, e),
        e is Unsafe,
        stands(ts, pos, expr_tokens(m, e)),
    ensures
        gives(grammar::primary_at(m, ts, pos), reread(m, e), after(m, e, pos)),
    decreases e, 0nat,
{
    if let SpecExpr::Unsafe { body } = e {
        let head = seq![
            SpecToken::LBracket,
            SpecToken::Ident("unsafe"@),
            SpecToken::RBracket,
            SpecToken::LBrace,
        ];
        let list = stmts_tokens(m, body, body.len() as int);
        let tail = seq![SpecToken::RBrace];
        split(ts, pos, head + list, tail);
        split(ts, pos, head, list);
        first(ts, pos, head);
        first(ts, pos + 4 + list.len(), tail);
        read_block(m, ts, pos + 4, body);
    }
}

/// Where the operands of an operator stand.
proof fn binary_pieces(m: NumberModel, ts: Seq<SpecSpanned>, pos: int, e: SpecExpr, mid: int)
    requires
        e is Binary,
        plain(m, e),
        stands(ts, pos, expr_tokens(m, e)),
        mid == past(m, render::left_wrapped(m, e->op, *e->lhs), *e->lhs, pos),
    ensures
        0 <= pos < mid,
        mid + 1 < ts.len(),
        stands(ts, pos, wrapped(render::left_wrapped(m, e->op, *e->lhs), expr_tokens(m, *e->lhs))),
        grammar::peek(ts, mid) == op_token(e->op),
        stands(
            ts,
            mid + 1,
            wrapped(render::right_wrapped(m, e->op, *e->rhs), expr_tokens(m, *e->rhs)),
        ),
        past(m, render::right_wrapped(m, e->op, *e->rhs), *e->rhs, mid + 1) == after(m, e, pos),
        mid + 1 < after(m, e, pos),
{
    let xs = wrapped(render::left_wrapped(m, e->op, *e->lhs), expr_tokens(m, *e->lhs));
    let op = seq![op_token(e->op)];
    let ys = wrapped(render::right_wrapped(m, e->op, *e->rhs), expr_tokens(m, *e->rhs));
    split(ts, pos, xs + op, ys);
    split(ts, pos, xs, op);
    first(ts, pos, xs);
    first(ts, mid, op);
    first(ts, mid + 1, ys);
    lemma_tokens_not_empty(m, *e->lhs);
    lemma_tokens_not_empty(m, *e->rhs);
}

#[verifier::rlimit(30)]
proof fn read_power(m: NumberModel, ts: Seq<SpecSpanned>, pos: int, e: SpecExpr)
    requires
        plain(m, e),
        render::looseness(m, e) <= 1,
        stands(ts, pos, expr_tokens(m, e)),
        ends_power(ts, after(m, e, pos)),
    ensures
        gives(grammar::power_at(m, ts, pos), reread(m, e), after(m, e, pos)),
    decreases e, 3nat,
{
    if let SpecExpr::Binary { op, lhs, rhs } = e {
        let left = render::left_wrapped(m, op, *lhs);
        let right = render::right_wrapped(m, op, *rhs);
        let mid = past(m, left, *lhs, pos);
        binary_pieces(m, ts, pos, e, mid);
        read_base(m, ts, pos, left, *lhs);
        if right {
            read_wrapped(m, ts, mid + 1, *rhs);
        } else {
            read_power(m, ts, mid + 1, *rhs);
        }
    } else {
        read_access(m, ts, pos, e);
    }
}

/// The grammar reads a number with a minus sign as a difference from 0.
proof fn read_minus(m: NumberModel, ts: Seq<SpecSpanned>, pos: int, t: SpecToken)
    requires
        0 <= pos,
        pos + 1 < ts.len(),
        t is Int || t is Float,
        grammar::peek(ts, pos) == SpecToken::Minus,
        grammar::peek(ts, pos + 1) == t,
        ends_power(ts, pos + 2),
    ensures
        gives(
            grammar::unary_at(m, ts, pos),
            grammar::binary(BinOp::Sub, SpecExpr::Int(0), leaf(t)),
            pos + 2,
        ),
{
    assert(gives(grammar::primary_at(m, ts, pos + 1), leaf(t), pos + 2));
    assert(gives(grammar::postfix_at(m, ts, pos + 1), leaf(t), pos + 2));
    assert(gives(grammar::power_at(m, ts, pos + 1), leaf(t), pos + 2));
    assert(gives(grammar::unary_at(m, ts, pos + 1), leaf(t), pos + 2));
}

#[verifier::rlimit(30)]
proof fn read_unary(m: NumberModel, ts: Seq<SpecSpanned>, pos: int, e: SpecExpr)
    requires
        plain(m, e),
        render::looseness(m, e) <= 2,
        stands(ts, pos, expr_tokens(m, e)),
        ends_power(ts, after(m, e, pos)),
    ensures
        gives(grammar::unary_at(m, ts, pos), reread(m, e), after(m, e, pos)),
    decreases e, 4nat,
{
    lemma_first_token(m, e);
    first(ts, pos, expr_tokens(m, e));
    if render::looseness(m, e) <= 1 {
        read_power(m, ts, pos, e);
    } else {
        read_minus(m, ts, pos, expr_tokens(m, e)[1]);
    }
}

/// The grammar goes on after a product whose operands it reads.
proof fn product_of_parts(
    m: NumberModel,
    ts: Seq<SpecSpanned>,
    pos: int,
    op: BinOp,
    mid: int,
    l: SpecExpr,
    end: int,
    r: SpecExpr,
)
    requires
        0 <= mid,
        mid + 1 < end <= ts.len(),
        render::is_product_op(op),
        grammar::peek(ts, mid) == op_token(op),
        grammar::term_at(m, ts, pos) == grammar::product_rest(m, ts, mid, l),
        gives(grammar::unary_at(m, ts, mid + 1), r, end),
    ensures
        grammar::term_at(m, ts, pos) == grammar::product_rest(m, ts, end, grammar::binary(op, l, r)),
{
}

/// The grammar goes on after a sum whose operands it reads.
proof fn sum_of_parts(
    m: NumberModel,
    ts: Seq<SpecSpanned>,
    pos: int,
    op: BinOp,
    mid: int,
    l: SpecExpr,
    end: int,
    r: SpecExpr,
)
    requires
        0 <= mid,
        mid + 1 < end <= ts.len(),
        op != BinOp::Power,
        !render::is_product_op(op),
        grammar::peek(ts, mid) == op_token(op),
        grammar::expr_at(m, ts, pos) == grammar::sum_rest(m, ts, mid, l),
        grammar::term_at(m, ts, mid + 1) == grammar::product_rest(m, ts, end, r),
        ends_product(ts, end),
    ensures
        grammar::expr_at(m, ts, pos) == grammar::sum_rest(m, ts, end, grammar::binary(op, l, r)),
{
    assert(gives(grammar::term_at(m, ts, mid + 1), r, end));
}

/// The operator of a sum does not belong to its left operand.
proof fn sum_op_ends(m: NumberModel, ts: Seq<SpecSpanned>, pos: int, e: SpecExpr, mid: int)
    requires
        plain(m, e),
        render::looseness(m, e) == 4,
        stands(ts, pos, expr_tokens(m, e)),
        mid == past(m, render::left_wrapped(m, e->op, *e->lhs), *e->lhs, pos),
        render::ends_in_less(e) ==> grammar::peek(ts, after(m, e, pos)) != SpecToken::RAngle,
    ensures
        ends_product(ts, mid),
{
    if let SpecExpr::Binary { op, lhs, rhs } = e {
        let right = render::right_wrapped(m, op, *rhs);
        binary_pieces(m, ts, pos, e, mid);
        if right || !(*rhs is Var) {
            lemma_not_a_subset(m, ts, mid + 1, right, *rhs);
        } else {
            assert(expr_tokens(m, *rhs).len() == 1);
        }
    }
}

#[verifier::rlimit(30)]
proof fn read_term(m: NumberModel, ts: Seq<SpecSpanned>, pos: int, e: SpecExpr)
    requires
        plain(m, e),
        render::looseness(m, e) <= 3,
        stands(ts, pos, expr_tokens(m, e)),
        ends_power(ts, after(m, e, pos)),
    ensures
        grammar::term_at(m, ts, pos) == grammar::product_rest(
            m,
            ts,
            after(m, e, pos),
            reread(m, e),
        ),
    decreases e, 5nat,
{
    lemma_first_token(m, e);
    first(ts, pos, expr_tokens(m, e));
    if render::looseness(m, e) <= 2 {
        read_unary(m, ts, pos, e);
    } else if let SpecExpr::Binary { op, lhs, rhs } = e {
        let left = render::left_wrapped(m, op, *lhs);
        let right = render::right_wrapped(m, op, *rhs);
        let mid = past(m, left, *lhs, pos);
        binary_pieces(m, ts, pos, e, mid);
        if left {
            read_wrapped(m, ts, pos, *lhs);
        } else {
            read_term(m, ts, pos, *lhs);
        }
        if right {
            read_wrapped(m, ts, mid + 1, *rhs);
        } else {
            read_unary(m, ts, mid + 1, *rhs);
        }
        product_of_parts(
            m,
            ts,
            pos,
            op,
            mid,
            reread(m, *lhs),
            after(m, e, pos),
            reread(m, *rhs),
        );
        assert(reread(m, e) == grammar::binary(op, reread(m, *lhs), reread(m, *rhs)));
    }
}

#[verifier::rlimit(30)]
proof fn read_sum(m: NumberModel, ts: Seq<SpecSpanned>, pos: int, e: SpecExpr)
    requires
        plain(m, e),
        stands(ts, pos, expr_tokens(m, e)),
        ends_product(ts, after(m, e, pos)),
        render::ends_in_less(e) ==> grammar::peek(ts, after(m, e, pos)) != SpecToken::RAngle,
    ensures
        grammar::expr_at(m, ts, pos) == grammar::sum_rest(m, ts, after(m, e, pos), reread(m, e)),
    decreases e, 6nat,
{
    lemma_tokens_not_empty(m, e);
    first(ts, pos, expr_tokens(m, e));
    if render::looseness(m, e) <= 3 {
        read_term(m, ts, pos, e);
    } else if let SpecExpr::Binary { op, lhs, rhs } = e {
        let left = render::left_wrapped(m, op, *lhs);
        let right = render::right_wrapped(m, op, *rhs);
        let mid = past(m, left, *lhs, pos);
        binary_pieces(m, ts, pos, e, mid);
        sum_op_ends(m, ts, pos, e, mid);
        if left {
            read_wrapped(m, ts, pos, *lhs);
        } else {
            read_sum(m, ts, pos, *lhs);
        }
        if right {
            read_wrapped(m, ts, mid + 1, *rhs);
        } else {
            read_term(m, ts, mid + 1, *rhs);
        }
        sum_of_parts(m, ts, pos, op, mid, reread(m, *lhs), after(m, e, pos), reread(m, *rhs));
        assert(reread(m, e) == grammar::binary(op, reread(m, *lhs), reread(m, *rhs)));
    }
}

/// The grammar gives back a plain expression for its tokens, where what comes
/// after it does not belong to it.
pub proof fn read_expr(m: NumberModel, ts: Seq<SpecSpanned>, pos: int, e: SpecExpr)
    requires
        plain(m, e),
        stands(ts, pos, expr_tokens(m, e)),
        ends_sum(ts, after(m, e, pos)),
    ensures
        gives(grammar::expr_at(m, ts, pos), reread(m, e), after(m, e, pos)),
    decreases e, 7nat,
{
    read_sum(m, ts, pos, e);
}

// ---- lists ------------------------------------------------------------

/// Where the `i`th expression of a list starts.
pub open spec fn list_start(m: NumberModel, es: Seq<SpecExpr>, i: int) -> int {
    if i <= 0 {
        0
    } else {
        list_tokens(m, es, i).len() as int + 1
    }
}

proof fn list_piece(
    m: NumberModel,
    ts: Seq<SpecSpanned>,
    pos: int,
    es: Seq<SpecExpr>,
    n: int,
    i: int,
)
    requires
        0 <= i < n <= es.len(),
        stands(ts, pos, list_tokens(m, es, n)),
    ensures
        stands(ts, pos + list_start(m, es, i), expr_tokens(m, es[i])),
        list_start(m, es, i) + expr_tokens(m, es[i]).len() == list_tokens(m, es, i + 1).len(),
        i + 1 < n ==> grammar::peek(ts, pos + list_tokens(m, es, i + 1).len()) == SpecToken::Comma,
    decreases n,
{
    if n > 1 {
        let front = list_tokens(m, es, n - 1);
        split(ts, pos, front + seq![SpecToken::Comma], expr_tokens(m, es[n - 1]));
        split(ts, pos, front, seq![SpecToken::Comma]);
        first(ts, pos + front.len(), seq![SpecToken::Comma]);
        if i < n - 1 {
            list_piece(m, ts, pos, es, n - 1, i);
        }
    }
}

proof fn read_exprs(m: NumberModel, ts: Seq<SpecSpanned>, pos: int, es: Seq<SpecExpr>, i: int)
    requires
        0 <= i < es.len(),
        forall|j: int| 0 <= j < es.len() ==> plain(m, #[trigger] es[j]),
        stands(ts, pos, list_tokens(m, es, es.len() as int)),
        grammar::peek(ts, pos + list_tokens(m, es, es.len() as int).len()) == SpecToken::RParen,
    ensures
        gives(
            grammar::exprs_at(m, ts, pos + list_start(m, es, i), reread_list(m, es, i)),
            reread_list(m, es, es.len() as int),
            pos + list_tokens(m, es, es.len() as int).len(),
        ),
    decreases es, es.len() - i,
{
    list_piece(m, ts, pos, es, es.len() as int, i);
    lemma_tokens_not_empty(m, es[i]);
    let start = pos + list_start(m, es, i);
    read_expr(m, ts, start, es[i]);
    if i + 1 < es.len() {
        read_exprs(m, ts, pos, es, i + 1);
    }
}

proof fn read_args(m: NumberModel, ts: Seq<SpecSpanned>, pos: int, es: Seq<SpecExpr>)
    requires
        forall|j: int| 0 <= j < es.len() ==> plain(m, #[trigger] es[j]),
        stands(ts, pos, list_tokens(m, es, es.len() as int)),
        grammar::peek(ts, pos + list_tokens(m, es, es.len() as int).len()) == SpecToken::RParen,
    ensures
        gives(
            grammar::args_at(m, ts, pos),
            reread_list(m, es, es.len() as int),
            pos + list_tokens(m, es, es.len() as int).len() + 1,
        ),
    decreases es, es.len() + 1,
{
    if es.len() > 0 {
        read_exprs(m, ts, pos, es, 0);
        list_piece(m, ts, pos, es, es.len() as int, 0);
        lemma_first_token(m, es[0]);
        first(ts, pos, expr_tokens(m, es[0]));
    }
}

proof fn names_piece(ts: Seq<SpecSpanned>, pos: int, ns: Seq<Seq<char>>, n: int, i: int)
    requires
        0 <= i < n <= ns.len(),
        stands(ts, pos, names_tokens(ns, n)),
    ensures
        names_tokens(ns, n).len() == 2 * n - 1,
        grammar::peek(ts, pos + 2 * i) == SpecToken::Ident(ns[i]),
        i + 1 < n ==> grammar::peek(ts, pos + 2 * i + 1) == SpecToken::Comma,
    decreases n,
{
    if n > 1 {
        let tail = seq![SpecToken::Comma, SpecToken::Ident(ns[n - 1])];
        split(ts, pos, names_tokens(ns, n - 1), tail);
        names_piece(ts, pos, ns, n - 1, if i < n - 1 {
            i
        } else {
            0
        });
        first(ts, pos + 2 * n - 3, tail);
    } else {
        first(ts, pos, names_tokens(ns, n));
    }
}

proof fn read_names(m: NumberModel, ts: Seq<SpecSpanned>, pos: int, ns: Seq<Seq<char>>, i: int)
    requires
        0 <= i < ns.len(),
        stands(ts, pos, names_tokens(ns, ns.len() as int)),
        grammar::peek(ts, pos + names_tokens(ns, ns.len() as int).len()) == SpecToken::RParen,
    ensures
        gives(
            grammar::names_at(m, ts, pos + 2 * i, ns.take(i)),
            ns,
            pos + names_tokens(ns, ns.len() as int).len(),
        ),
    decreases ns.len() - i,
{
    names_piece(ts, pos, ns, ns.len() as int, i);
    assert(ns.take(i).push(ns[i]) =~= ns.take(i + 1));
    if i + 1 < ns.len() {
        read_names(m, ts, pos, ns, i + 1);
    } else {
        assert(ns.take(i + 1) =~= ns);
    }
}

proof fn read_params(m: NumberModel, ts: Seq<SpecSpanned>, pos: int, ns: Seq<Seq<char>>)
    requires
        stands(ts, pos, names_tokens(ns, ns.len() as int)),
        grammar::peek(ts, pos + names_tokens(ns, ns.len() as int).len()) == SpecToken::RParen,
    ensures
        gives(
            grammar::params_at(m, ts, pos),
            ns,
            pos + names_tokens(ns, ns.len() as int).len() + 1,
        ),
{
    if ns.len() == 0 {
        assert(ns =~= Seq::<Seq<char>>::empty());
    } else {
        read_names(m, ts, pos, ns, 0);
        names_piece(ts, pos, ns, ns.len() as int, 0);
        assert(ns.take(0) =~= Seq::<Seq<char>>::empty());
    }
}

// ---- statements -------------------------------------------------------

/// The words of the language differ from one another.
proof fn lemma_words()
    ensures
        "mut"@ != "print"@,
        "mut"@ != "fn"@,
        "mut"@ != "return"@,
        "mut"@ != "while"@,
        "fn"@ != "print"@,
        "return"@ != "print"@,
        "return"@ != "fn"@,
        "while"@ != "print"@,
        "while"@ != "fn"@,
        "while"@ != "return"@,
{
    reveal_strlit("mut");
    reveal_strlit("print");
    reveal_strlit("fn");
    reveal_strlit("return");
    reveal_strlit("while");
    assert("mut"@[0] == 'm' && "print"@[0] == 'p' && "fn"@[0] == 'f' && "return"@[0] == 'r'
        && "while"@[0] == 'w');
}

/// The place after the statement `s` at `pos`, without the `;` that ends it.
pub open spec fn before_end(m: NumberModel, s: SpecStmt, pos: int) -> int {
    if grammar::ends_with_brace(s) {
        pos + stmt_tokens(m, s).len()
    } else {
        pos + stmt_tokens(m, s).len() - 1
    }
}

proof fn lemma_stmt_tokens(m: NumberModel, s: SpecStmt)
    ensures
        stmt_tokens(m, s).len() > 0,
        stmt_tokens(m, s)[0] is Ident,
{
}

/// Where the parts of an assignment stand, from its name on.
proof fn assign_pieces(
    m: NumberModel,
    ts: Seq<SpecSpanned>,
    pos: int,
    s: SpecStmt,
    p1: int,
    p3: int,
)
    requires
        s is Assign,
        stands(ts, pos, stmt_tokens(m, s)),
        p1 == pos + mut_tokens(s->mutable).len(),
        p3 == after(m, s->value, p1 + 2),
    ensures
        0 <= pos,
        p3 < ts.len(),
        p3 + 1 == pos + stmt_tokens(m, s).len(),
        s->mutable ==> p1 == pos + 1 && grammar::peek(ts, pos) == SpecToken::Ident("mut"@),
        !s->mutable ==> p1 == pos,
        grammar::peek(ts, p1) == SpecToken::Ident(s->Assign_name),
        grammar::peek(ts, p1 + 1) == SpecToken::Equals,
        stands(ts, p1 + 2, expr_tokens(m, s->value)),
        grammar::peek(ts, p3) == SpecToken::Semicolon,
{
    let x0 = mut_tokens(s->mutable);
    let head = seq![SpecToken::Ident(s->Assign_name), SpecToken::Equals];
    let x1 = expr_tokens(m, s->value);
    let tail = seq![SpecToken::Semicolon];
    split(ts, pos, x0 + head + x1, tail);
    split(ts, pos, x0 + head, x1);
    split(ts, pos, x0, head);
    first(ts, pos, x0);
    first(ts, p1, head);
    first(ts, p3, tail);
}

/// The grammar gives back a plain statement for its tokens.
proof fn read_stmt(m: NumberModel, ts: Seq<SpecSpanned>, pos: int, s: SpecStmt)
    requires
        plain_stmt(m, s),
        stands(ts, pos, stmt_tokens(m, s)),
    ensures
        gives(grammar::stmt_at(m, ts, pos), reread_stmt(m, s), before_end(m, s, pos)),
        grammar::stmt_end(m, ts, before_end(m, s, pos), reread_stmt(m, s)) is Ok,
        grammar::stmt_end(m, ts, before_end(m, s, pos), reread_stmt(m, s))->Ok_0 == pos + stmt_tokens(m, s).len(),
    decreases s, 1nat,
{
    match s {
        SpecStmt::Assign { .. } => read_assignment(m, ts, pos, s),
        SpecStmt::Print(_) => read_print(m, ts, pos, s),
        SpecStmt::FnDef { .. } => read_fn(m, ts, pos, s),
        SpecStmt::While { .. } => read_while(m, ts, pos, s),
        SpecStmt::Return(_) => read_return(m, ts, pos, s),
    }
}

/// The grammar reads an assignment whose parts it reads.
proof fn assign_of_parts(
    m: NumberModel,
    ts: Seq<SpecSpanned>,
    pos: int,
    s: SpecStmt,
    p1: int,
    p3: int,
)
    requires
        s is Assign,
        s->mutable ==> p1 == pos + 1 && grammar::peek(ts, pos) == SpecToken::Ident("mut"@),
        !s->mutable ==> p1 == pos && s->Assign_name != "print"@ && s->Assign_name != "fn"@
            && s->Assign_name != "return"@,
        grammar::peek(ts, p1) == SpecToken::Ident(s->Assign_name),
        grammar::peek(ts, p1 + 1) == SpecToken::Equals,
        gives(grammar::expr_at(m, ts, p1 + 2), s->value, p3),
    ensures
        gives(grammar::stmt_at(m, ts, pos), s, p3),
{
    lemma_words();
    assert(gives(grammar::assign_at(m, ts, p1, s->mutable), s, p3));
}

proof fn read_assignment(m: NumberModel, ts: Seq<SpecSpanned>, pos: int, s: SpecStmt)
    requires
        plain_stmt(m, s),
        stands(ts, pos, stmt_tokens(m, s)),
        s is Assign,
    ensures
        gives(grammar::stmt_at(m, ts, pos), reread_stmt(m, s), before_end(m, s, pos)),
        grammar::stmt_end(m, ts, before_end(m, s, pos), reread_stmt(m, s)) is Ok,
        grammar::stmt_end(m, ts, before_end(m, s, pos), reread_stmt(m, s))->Ok_0 == pos + stmt_tokens(m, s).len(),
    decreases s, 0nat,
{
    if let SpecStmt::Assign { value, mutable, .. } = s {
        let p1 = pos + mut_tokens(mutable).len();
        let p3 = after(m, value, p1 + 2);
        assign_pieces(m, ts, pos, s, p1, p3);
        read_expr(m, ts, p1 + 2, value);
        assign_of_parts(m, ts, pos, reread_stmt(m, s), p1, p3);
    }
}

proof fn read_print(m: NumberModel, ts: Seq<SpecSpanned>, pos: int, s: SpecStmt)
    requires
        plain_stmt(m, s),
        stands(ts, pos, stmt_tokens(m, s)),
        s is Print,
    ensures
        gives(grammar::stmt_at(m, ts, pos), reread_stmt(m, s), before_end(m, s, pos)),
        grammar::stmt_end(m, ts, before_end(m, s, pos), reread_stmt(m, s)) is Ok,
        grammar::stmt_end(m, ts, before_end(m, s, pos), reread_stmt(m, s))->Ok_0 == pos + stmt_tokens(m, s).len(),
    decreases s, 0nat,
{
    if let SpecStmt::Print(es) = s {
        let head = seq![SpecToken::Ident("print"@), SpecToken::LParen];
        let list = list_tokens(m, es, es.len() as int);
        let tail = seq![SpecToken::RParen, SpecToken::Semicolon];
        split(ts, pos, head + list, tail);
        split(ts, pos, head, list);
        first(ts, pos, head);
        first(ts, pos + 2 + list.len(), tail);
        read_args(m, ts, pos + 2, es);
    }
}

proof fn read_return(m: NumberModel, ts: Seq<SpecSpanned>, pos: int, s: SpecStmt)
    requires
        plain_stmt(m, s),
        stands(ts, pos, stmt_tokens(m, s)),
        s is Return,
    ensures
        gives(grammar::stmt_at(m, ts, pos), reread_stmt(m, s), before_end(m, s, pos)),
        grammar::stmt_end(m, ts, before_end(m, s, pos), reread_stmt(m, s)) is Ok,
        grammar::stmt_end(m, ts, before_end(m, s, pos), reread_stmt(m, s))->Ok_0 == pos + stmt_tokens(m, s).len(),
    decreases s, 0nat,
{
    lemma_words();
    if let SpecStmt::Return(e) = s {
        let head = seq![SpecToken::Ident("return"@)];
        let tail = seq![SpecToken::Semicolon];
        split(ts, pos, head + expr_tokens(m, e), tail);
        split(ts, pos, head, expr_tokens(m, e));
        first(ts, pos, head);
        first(ts, pos + 1 + expr_tokens(m, e).len(), tail);
        read_expr(m, ts, pos + 1, e);
    }
}

/// Where the parts of a function definition stand.
proof fn fn_pieces(m: NumberModel, ts: Seq<SpecSpanned>, pos: int, s: SpecStmt, p2: int, p4: int)
    requires
        s is FnDef,
        stands(ts, pos, stmt_tokens(m, s)),
        p2 == pos + 3 + names_tokens(s->params, s->params.len() as int).len(),
        p4 == p2 + 2 + stmts_tokens(m, s->FnDef_body, s->FnDef_body.len() as int).len(),
    ensures
        0 <= pos,
        p4 < ts.len(),
        p4 + 1 == pos + stmt_tokens(m, s).len(),
        grammar::peek(ts, pos) == SpecToken::Ident("fn"@),
        grammar::peek(ts, pos + 1) == SpecToken::Ident(s->FnDef_name),
        grammar::peek(ts, pos + 2) == SpecToken::LParen,
        stands(ts, pos + 3, names_tokens(s->params, s->params.len() as int)),
        grammar::peek(ts, p2) == SpecToken::RParen,
        grammar::peek(ts, p2 + 1) == SpecToken::LBrace,
        stands(ts, p2 + 2, stmts_tokens(m, s->FnDef_body, s->FnDef_body.len() as int)),
        grammar::peek(ts, p4) == SpecToken::RBrace,
{
    let head = seq![
        SpecToken::Ident("fn"@),
        SpecToken::Ident(s->FnDef_name),
        SpecToken::LParen,
    ];
    let list = names_tokens(s->params, s->params.len() as int);
    let mid = seq![SpecToken::RParen, SpecToken::LBrace];
    let inner = stmts_tokens(m, s->FnDef_body, s->FnDef_body.len() as int);
    let tail = seq![SpecToken::RBrace];
    split(ts, pos, head + list + mid + inner, tail);
    split(ts, pos, head + list + mid, inner);
    split(ts, pos, head + list, mid);
    split(ts, pos, head, list);
    first(ts, pos, head);
    first(ts, p2, mid);
    first(ts, p4, tail);
}

proof fn read_fn(m: NumberModel, ts: Seq<SpecSpanned>, pos: int, s: SpecStmt)
    requires
        plain_stmt(m, s),
        stands(ts, pos, stmt_tokens(m, s)),
        s is FnDef,
    ensures
        gives(grammar::stmt_at(m, ts, pos), reread_stmt(m, s), before_end(m, s, pos)),
        grammar::stmt_end(m, ts, before_end(m, s, pos), reread_stmt(m, s)) is Ok,
        grammar::stmt_end(m, ts, before_end(m, s, pos), reread_stmt(m, s))->Ok_0 == pos + stmt_tokens(m, s).len(),
    decreases s, 0nat,
{
    lemma_words();
    if let SpecStmt::FnDef { name, params, body } = s {
        let p2 = pos + 3 + names_tokens(params, params.len() as int).len();
        let p4 = p2 + 2 + stmts_tokens(m, body, body.len() as int).len();
        fn_pieces(m, ts, pos, s, p2, p4);
        read_params(m, ts, pos + 3, params);
        read_block(m, ts, p2 + 2, body);
        let n = body.len() as int;
        assert(reread_stmts(m, body, n) == reread_stmts(m, body, n - 1).push(
            reread_stmt(m, body[n - 1]),
        ));
        assert(gives(grammar::fn_at(m, ts, pos), reread_stmt(m, s), p4 + 1));
    }
}

/// Where the parts of a loop stand.
proof fn while_pieces(m: NumberModel, ts: Seq<SpecSpanned>, pos: int, s: SpecStmt, p2: int, p4: int)
    requires
        s is While,
        stands(ts, pos, stmt_tokens(m, s)),
        p2 == after(m, s->condition, pos + 1),
        p4 == p2 + 1 + stmts_tokens(m, s->While_body, s->While_body.len() as int).len(),
    ensures
        0 <= pos,
        p4 < ts.len(),
        p4 + 1 == pos + stmt_tokens(m, s).len(),
        grammar::peek(ts, pos) == SpecToken::Ident("while"@),
        stands(ts, pos + 1, expr_tokens(m, s->condition)),
        grammar::peek(ts, p2) == SpecToken::LBrace,
        stands(ts, p2 + 1, stmts_tokens(m, s->While_body, s->While_body.len() as int)),
        grammar::peek(ts, p4) == SpecToken::RBrace,
{
    let head = seq![SpecToken::Ident("while"@)];
    let x1 = expr_tokens(m, s->condition);
    let x2 = seq![SpecToken::LBrace];
    let inner = stmts_tokens(m, s->While_body, s->While_body.len() as int);
    let tail = seq![SpecToken::RBrace];
    split(ts, pos, head + x1 + x2 + inner, tail);
    split(ts, pos, head + x1 + x2, inner);
    split(ts, pos, head + x1, x2);
    split(ts, pos, head, x1);
    first(ts, pos, head);
    first(ts, p2, x2);
    first(ts, p4, tail);
}

proof fn read_while(m: NumberModel, ts: Seq<SpecSpanned>, pos: int, s: SpecStmt)
    requires
        plain_stmt(m, s),
        stands(ts, pos, stmt_tokens(m, s)),
        s is While,
    ensures
        gives(grammar::stmt_at(m, ts, pos), reread_stmt(m, s), before_end(m, s, pos)),
        grammar::stmt_end(m, ts, before_end(m, s, pos), reread_stmt(m, s)) is Ok,
        grammar::stmt_end(m, ts, before_end(m, s, pos), reread_stmt(m, s))->Ok_0 == pos + stmt_tokens(m, s).len(),
    decreases s, 0nat,
{
    lemma_words();
    if let SpecStmt::While { condition, body } = s {
        let p2 = after(m, condition, pos + 1);
        let p4 = p2 + 1 + stmts_tokens(m, body, body.len() as int).len();
        while_pieces(m, ts, pos, s, p2, p4);
        lemma_first_token(m, condition);
        first(ts, pos + 1, expr_tokens(m, condition));
        read_expr(m, ts, pos + 1, condition);
        read_block(m, ts, p2 + 1, body);
    }
}

proof fn stmts_piece(
    m: NumberModel,
    ts: Seq<SpecSpanned>,
    pos: int,
    ss: Seq<SpecStmt>,
    n: int,
    i: int,
)
    requires
        0 <= i < n <= ss.len(),
        stands(ts, pos, stmts_tokens(m, ss, n)),
    ensures
        stands(ts, pos + stmts_tokens(m, ss, i).len(), stmt_tokens(m, ss[i])),
        stmts_tokens(m, ss, i).len() + stmt_tokens(m, ss[i]).len() == stmts_tokens(m, ss, i + 1).len(),
    decreases n,
{
    split(ts, pos, stmts_tokens(m, ss, n - 1), stmt_tokens(m, ss[n - 1]));
    if i < n - 1 {
        stmts_piece(m, ts, pos, ss, n - 1, i);
    }
}

proof fn read_block_from(m: NumberModel, ts: Seq<SpecSpanned>, pos: int, ss: Seq<SpecStmt>, i: int)
    requires
        0 <= i <= ss.len(),
        plain_stmts(m, ss),
        stands(ts, pos, stmts_tokens(m, ss, ss.len() as int)),
        grammar::peek(ts, pos + stmts_tokens(m, ss, ss.len() as int).len()) == SpecToken::RBrace,
    ensures
        gives(
            grammar::block_at(m, ts, pos + stmts_tokens(m, ss, i).len(), reread_stmts(m, ss, i)),
            reread_stmts(m, ss, ss.len() as int),
            pos + stmts_tokens(m, ss, ss.len() as int).len() + 1,
        ),
    decreases ss, ss.len() - i,
{
    if i < ss.len() {
        stmts_piece(m, ts, pos, ss, ss.len() as int, i);
        let start = pos + stmts_tokens(m, ss, i).len();
        lemma_stmt_tokens(m, ss[i]);
        first(ts, start, stmt_tokens(m, ss[i]));
        assert(plain_stmt(m, ss[i]));
        read_stmt(m, ts, start, ss[i]);
        read_block_from(m, ts, pos, ss, i + 1);
    }
}

proof fn read_block(m: NumberModel, ts: Seq<SpecSpanned>, pos: int, ss: Seq<SpecStmt>)
    requires
        plain_stmts(m, ss),
        stands(ts, pos, stmts_tokens(m, ss, ss.len() as int)),
        grammar::peek(ts, pos + stmts_tokens(m, ss, ss.len() as int).len()) == SpecToken::RBrace,
    ensures
        gives(
            grammar::block_at(m, ts, pos, Seq::empty()),
            reread_stmts(m, ss, ss.len() as int),
            pos + stmts_tokens(m, ss, ss.len() as int).len() + 1,
        ),
    decreases ss, ss.len() + 1,
{
    read_block_from(m, ts, pos, ss, 0);
}

proof fn read_program_from(
    m: NumberModel,
    ts: Seq<SpecSpanned>,
    ss: Seq<SpecStmt>,
    i: int,
)
    requires
        0 <= i <= ss.len(),
        plain_stmts(m, ss),
        stands(ts, 0, stmts_tokens(m, ss, ss.len() as int)),
        grammar::peek(ts, stmts_tokens(m, ss, ss.len() as int).len() as int) == SpecToken::Eof,
    ensures
        gives(
            grammar::program_at(m, ts, stmts_tokens(m, ss, i).len() as int, reread_stmts(m, ss, i)),
            reread_stmts(m, ss, ss.len() as int),
            stmts_tokens(m, ss, ss.len() as int).len() as int,
        ),
    decreases ss.len() - i,
{
    if i < ss.len() {
        stmts_piece(m, ts, 0, ss, ss.len() as int, i);
        let start = stmts_tokens(m, ss, i).len() as int;
        lemma_stmt_tokens(m, ss[i]);
        first(ts, start, stmt_tokens(m, ss[i]));
        assert(plain_stmt(m, ss[i]));
        read_stmt(m, ts, start, ss[i]);
        read_program_from(m, ts, ss, i + 1);
    }
}

/// The grammar gives back a plain program for its tokens.
pub proof fn law_tokens_read_back(m: NumberModel, ts: Seq<SpecSpanned>, prog: Seq<SpecStmt>)
    requires
        plain_stmts(m, prog),
        stands(ts, 0, stmts_tokens(m, prog, prog.len() as int)),
        grammar::peek(ts, stmts_tokens(m, prog, prog.len() as int).len() as int) == SpecToken::Eof,
    ensures
        gives(
            grammar::program_at(m, ts, 0, Seq::empty()),
            reread_stmts(m, prog, prog.len() as int),
            stmts_tokens(m, prog, prog.len() as int).len() as int,
        ),
{
    read_program_from(m, ts, prog, 0);
}

} // verus!
