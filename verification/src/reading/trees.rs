//! Written expressions and statements read as the tokens that spell them.

#[allow(unused_imports)]
use crate::ast::{self, SpecExpr, SpecStmt};
#[allow(unused_imports)]
use crate::grammar;
#[allow(unused_imports)]
use crate::lexer;
#[allow(unused_imports)]
use crate::number::{Bits, NumberModel};
#[allow(unused_imports)]
use crate::reading;
#[allow(unused_imports)]
use crate::reading::marks;
#[allow(unused_imports)]
use crate::render;
#[allow(unused_imports)]
use crate::spelling;
#[allow(unused_imports)]
use crate::text;
#[allow(unused_imports)]
use crate::token::SpecToken;
use vstd::prelude::*;

verus! {

// ---- expressions and statements -------------------------------------------

/// Whether the names of an expression are names to the lexer.
pub open spec fn legible_expr(e: SpecExpr) -> bool
    decreases e, 0nat,
{
    match e {
        SpecExpr::Int(_) => true,
        SpecExpr::Float(_) => true,
        SpecExpr::Str(_) => true,
        SpecExpr::Var(name) => reading::is_name(name),
        SpecExpr::Field { base, name } => legible_expr(*base) && reading::is_name(name),
        SpecExpr::Subset { base, name } => legible_expr(*base) && reading::is_name(name),
        SpecExpr::Binary { lhs, rhs, .. } => legible_expr(*lhs) && legible_expr(*rhs),
        SpecExpr::If { condition, then_branch, else_branch } => legible_expr(*condition)
            && legible_expr(*then_branch) && legible_expr(*else_branch),
        SpecExpr::Call { name, args } => reading::is_name(name) && forall|i: int|
            0 <= i < args.len() ==> legible_expr(#[trigger] args[i]),
        SpecExpr::Unsafe { body } => legible_stmts(body),
    }
}

pub open spec fn legible_stmts(ss: Seq<SpecStmt>) -> bool
    decreases ss, 0nat,
{
    forall|i: int| 0 <= i < ss.len() ==> legible_stmt(#[trigger] ss[i])
}

/// Whether the names of a statement are names to the lexer.
pub open spec fn legible_stmt(s: SpecStmt) -> bool
    decreases s, 0nat,
{
    match s {
        SpecStmt::Assign { name, value, .. } => reading::is_name(name) && legible_expr(value),
        SpecStmt::Print(es) => forall|i: int|
            0 <= i < es.len() ==> legible_expr(#[trigger] es[i]),
        SpecStmt::FnDef { name, params, body } => {
            &&& reading::is_name(name)
            &&& forall|i: int| 0 <= i < params.len() ==> reading::is_name(#[trigger] params[i])
            &&& legible_stmts(body)
        },
        SpecStmt::While { condition, body } => legible_expr(condition) && legible_stmts(body),
        SpecStmt::Return(e) => legible_expr(e),
    }
}

/// A written expression reads as the tokens that spell it.
pub(crate) proof fn read_expr_text(m: NumberModel, s: Seq<char>, p: int, e: SpecExpr)
    requires
        reading::at(s, p, render::expr_text(m, e)),
        spelling::plain(m, e),
        legible_expr(e),
        reading::calm(s, p + render::expr_text(m, e).len()),
    ensures
        reading::reads(m, s, p, spelling::expr_tokens(m, e), p + render::expr_text(m, e).len()),
    decreases e, 1nat,
{
    match e {
        SpecExpr::Int(n) => read_int(m, s, p, n),
        SpecExpr::Float(n) => read_float(m, s, p, n),
        SpecExpr::Str(v) => reading::read_str(m, s, p, v),
        SpecExpr::Var(name) => reading::read_name(m, s, p, name),
        SpecExpr::Field { base, name } => {
            let wrap = render::base_wrapped(m, *base);
            let t = render::wrapped(wrap, render::expr_text(m, *base));
            let q = p + t.len();
            reading::at_split(s, p, t + "."@, name);
            reading::at_split(s, p, t, "."@);
            marks::mark_dot(m, s, q);
            reading::at_char(s, q, "."@, 0);
            reading::at_char(s, q + 1, name, 0);
            reveal_strlit(".");
            read_operand_text(m, s, p, wrap, *base);
            reading::read_name(m, s, q + 1, name);
            let xs = spelling::wrapped(wrap, spelling::expr_tokens(m, *base));
            let dot = seq![SpecToken::Dot];
            let id = seq![SpecToken::Ident(name)];
            reading::join(m, s, q, dot, q + 1, id, q + 1 + name.len());
            assert(dot + id =~= seq![SpecToken::Dot, SpecToken::Ident(name)]);
            reading::join(m, s, p, xs, q, dot + id, q + 1 + name.len());
        },
        SpecExpr::Subset { base, name } => read_subset(m, s, p, e),
        SpecExpr::Binary { .. } => read_binary(m, s, p, e),
        SpecExpr::If { .. } => read_if(m, s, p, e),
        SpecExpr::Call { name, args } => {
            let list = render::list_text(m, args, args.len() as int);
            reading::at_split(s, p, name + "("@ + list, ")"@);
            reading::at_split(s, p, name + "("@, list);
            reading::at_split(s, p, name, "("@);
            let p1 = p + name.len();
            let p2 = p1 + 1;
            let p3 = p2 + list.len();
            marks::mark_paren(m, s, p1);
            marks::mark_end_paren(m, s, p3);
            reading::read_name(m, s, p, name);
            read_list_text(m, s, p2, args, args.len() as int);
            let id = seq![SpecToken::Ident(name)];
            let open = seq![SpecToken::LParen];
            let xs = spelling::list_tokens(m, args, args.len() as int);
            reading::join(m, s, p, id, p1, open, p2);
            assert(id + open =~= seq![SpecToken::Ident(name), SpecToken::LParen]);
            reading::join(m, s, p, id + open, p2, xs, p3);
            reading::join(m, s, p, id + open + xs, p3, seq![SpecToken::RParen], p3 + 1);
        },
        SpecExpr::Unsafe { body } => {
            let inner = render::stmts_text(m, body, body.len() as int, "    "@);
            reading::at_split(s, p, "[unsafe] {\n"@ + inner, "}"@);
            reading::at_split(s, p, "[unsafe] {\n"@, inner);
            reveal_strlit("    ");
            marks::word_unsafe(m, s, p);
            let p1 = p + 11;
            let p2 = p1 + inner.len();
            marks::mark_brace(m, s, p2);
            read_stmts_text(m, s, p1, body, body.len() as int, "    "@);
            let head = seq![
                SpecToken::LBracket,
                SpecToken::Ident("unsafe"@),
                SpecToken::RBracket,
                SpecToken::LBrace,
            ];
            let xs = spelling::stmts_tokens(m, body, body.len() as int);
            reading::join(m, s, p, head, p1, xs, p2);
            reading::join(m, s, p, head + xs, p2, seq![SpecToken::RBrace], p2 + 1);
        },
    }
}

/// A written operand reads as the tokens that spell it.
proof fn read_operand_text(m: NumberModel, s: Seq<char>, p: int, wrap: bool, e: SpecExpr)
    requires
        reading::at(s, p, render::wrapped(wrap, render::expr_text(m, e))),
        spelling::plain(m, e),
        legible_expr(e),
        reading::calm(s, p + render::wrapped(wrap, render::expr_text(m, e)).len()),
    ensures
        reading::reads(
            m,
            s,
            p,
            spelling::wrapped(wrap, spelling::expr_tokens(m, e)),
            p + render::wrapped(wrap, render::expr_text(m, e)).len(),
        ),
    decreases e, 2nat,
{
    if wrap {
        let t = render::expr_text(m, e);
        let xs = spelling::expr_tokens(m, e);
        let open = seq![SpecToken::LParen];
        let close = seq![SpecToken::RParen];
        reveal_strlit("(");
        reading::at_split(s, p, "("@ + t, ")"@);
        reading::at_split(s, p, "("@, t);
        let p1 = p + 1;
        let p2 = p1 + t.len();
        marks::mark_paren(m, s, p);
        marks::mark_end_paren(m, s, p2);
        read_expr_text(m, s, p1, e);
        reading::join(m, s, p, open, p1, xs, p2);
        reading::join(m, s, p, open + xs, p2, close, p2 + 1);
    } else {
        read_expr_text(m, s, p, e);
    }
}

proof fn read_int(m: NumberModel, s: Seq<char>, p: int, n: i64)
    requires
        reading::at(s, p, text::decimal_int(n as int)),
        n > i64::MIN,
        reading::calm(s, p + text::decimal_int(n as int).len()),
    ensures
        reading::reads(
            m,
            s,
            p,
            spelling::expr_tokens(m, SpecExpr::Int(n)),
            p + text::decimal_int(n as int).len(),
        ),
{
    if n < 0 {
        let k = (-n) as nat;
        reveal_strlit("-");
        reading::at_split(s, p, "-"@, text::decimal(k));
        reading::at_char(s, p, "-"@, 0);
        reading::lemma_numeral(m, k);
        reading::read_symbol(m, s, p, SpecToken::Minus);
        reading::read_number(m, s, p + 1, text::decimal(k), SpecToken::Int(k as i64));
        let minus = seq![SpecToken::Minus];
        let size = seq![SpecToken::Int(k as i64)];
        reading::join(m, s, p, minus, p + 1, size, p + 1 + text::decimal(k).len());
        assert(minus + size =~= seq![SpecToken::Minus, SpecToken::Int((-n) as i64)]);
    } else {
        reading::lemma_numeral(m, n as nat);
        reading::read_number(m, s, p, text::decimal(n as nat), SpecToken::Int(n));
    }
}

/// What is written after a float does not change its sign.
pub(crate) proof fn lemma_float_sign(m: NumberModel, n: Bits)
    ensures
        render::has_sign(render::float_text(m, n)) == spelling::signed(m, n),
{
    reveal_strlit(".0");
}

proof fn read_float(m: NumberModel, s: Seq<char>, p: int, n: Bits)
    requires
        reading::at(s, p, render::float_text(m, n)),
        spelling::legible(m, n),
        reading::calm(s, p + render::float_text(m, n).len()),
    ensures
        reading::reads(
            m,
            s,
            p,
            spelling::expr_tokens(m, SpecExpr::Float(n)),
            p + render::float_text(m, n).len(),
        ),
{
    let t = spelling::digits_text(m, n);
    let x = spelling::magnitude(m, n);
    lemma_float_sign(m, n);
    if spelling::signed(m, n) {
        assert(render::float_text(m, n) =~= seq!['-'] + t);
        reading::at_split(s, p, seq!['-'], t);
        reading::at_char(s, p, seq!['-'], 0);
        reading::read_symbol(m, s, p, SpecToken::Minus);
        reading::read_number(m, s, p + 1, t, x);
        reading::join(m, s, p, seq![SpecToken::Minus], p + 1, seq![x], p + 1 + t.len());
        assert(seq![SpecToken::Minus] + seq![x] =~= seq![SpecToken::Minus, x]);
    } else {
        reading::read_number(m, s, p, t, x);
    }
}

proof fn read_subset(m: NumberModel, s: Seq<char>, p: int, e: SpecExpr)
    requires
        e is Subset,
        reading::at(s, p, render::expr_text(m, e)),
        spelling::plain(m, e),
        legible_expr(e),
        reading::calm(s, p + render::expr_text(m, e).len()),
    ensures
        reading::reads(m, s, p, spelling::expr_tokens(m, e), p + render::expr_text(m, e).len()),
    decreases e, 0nat,
{
    if let SpecExpr::Subset { base, name } = e {
        reveal_strlit("<");
        reveal_strlit(">");
        let wrap = render::base_wrapped(m, *base);
        let t = render::wrapped(wrap, render::expr_text(m, *base));
        let q = p + t.len();
        let r = q + 1 + name.len();
        reading::at_split(s, p, t + "<"@ + name, ">"@);
        reading::at_split(s, p, t + "<"@, name);
        reading::at_split(s, p, t, "<"@);
        reading::at_char(s, q, "<"@, 0);
        reading::at_char(s, q + 1, name, 0);
        reading::at_char(s, r, ">"@, 0);
        marks::lemma_calm(s, q, "<"@);
        marks::lemma_calm(s, r, ">"@);
        read_operand_text(m, s, p, wrap, *base);
        reading::read_symbol(m, s, q, SpecToken::LAngle);
        reading::read_name(m, s, q + 1, name);
        reading::read_symbol(m, s, r, SpecToken::RAngle);
        let xs = spelling::wrapped(wrap, spelling::expr_tokens(m, *base));
        let open = seq![SpecToken::LAngle];
        let id = seq![SpecToken::Ident(name)];
        let close = seq![SpecToken::RAngle];
        reading::join(m, s, q, open, q + 1, id, r);
        reading::join(m, s, q, open + id, r, close, r + 1);
        assert(open + id + close =~= seq![
            SpecToken::LAngle,
            SpecToken::Ident(name),
            SpecToken::RAngle,
        ]);
        reading::join(m, s, p, xs, q, open + id + close, r + 1);
    }
}

proof fn read_binary(m: NumberModel, s: Seq<char>, p: int, e: SpecExpr)
    requires
        e is Binary,
        reading::at(s, p, render::expr_text(m, e)),
        spelling::plain(m, e),
        legible_expr(e),
        reading::calm(s, p + render::expr_text(m, e).len()),
    ensures
        reading::reads(m, s, p, spelling::expr_tokens(m, e), p + render::expr_text(m, e).len()),
    decreases e, 0nat,
{
    if let SpecExpr::Binary { op, lhs, rhs } = e {
        reveal_strlit(" ");
        let left = render::left_wrapped(m, op, *lhs);
        let right = render::right_wrapped(m, op, *rhs);
        let a = render::wrapped(left, render::expr_text(m, *lhs));
        let o = ast::op_text(op);
        let b = render::wrapped(right, render::expr_text(m, *rhs));
        let p1 = p + a.len();
        let p2 = p1 + 1;
        let p3 = p2 + o.len();
        let p4 = p3 + 1;
        let p5 = p4 + b.len();
        reading::at_split(s, p, a + " "@ + o + " "@, b);
        reading::at_split(s, p, a + " "@ + o, " "@);
        reading::at_split(s, p, a + " "@, o);
        reading::at_split(s, p, a, " "@);
        reading::at_char(s, p1, " "@, 0);
        reading::at_char(s, p3, " "@, 0);
        marks::lemma_calm(s, p1, " "@);
        marks::lemma_calm(s, p3, " "@);
        read_operand_text(m, s, p, left, *lhs);
        reading::read_blank(m, s, p1);
        marks::read_op(m, s, p2, op);
        reading::read_blank(m, s, p3);
        read_operand_text(m, s, p4, right, *rhs);
        let xs = spelling::wrapped(left, spelling::expr_tokens(m, *lhs));
        let os = seq![spelling::op_token(op)];
        let ys = spelling::wrapped(right, spelling::expr_tokens(m, *rhs));
        reading::join_right(m, s, p, xs, p1, p2);
        reading::join(m, s, p, xs, p2, os, p3);
        reading::join_right(m, s, p, xs + os, p3, p4);
        reading::join(m, s, p, xs + os, p4, ys, p5);
    }
}

proof fn read_if(m: NumberModel, s: Seq<char>, p: int, e: SpecExpr)
    requires
        e is If,
        reading::at(s, p, render::expr_text(m, e)),
        spelling::plain(m, e),
        legible_expr(e),
    ensures
        reading::reads(m, s, p, spelling::expr_tokens(m, e), p + render::expr_text(m, e).len()),
    decreases e, 0nat,
{
    if let SpecExpr::If { condition, then_branch, else_branch } = e {
        let a = render::expr_text(m, *condition);
        let b = render::expr_text(m, *then_branch);
        let c = render::expr_text(m, *else_branch);
        let p1 = p + 3;
        let p2 = p1 + a.len();
        let p3 = p2 + 3;
        let p4 = p3 + b.len();
        let p5 = p4 + 10;
        let p6 = p5 + c.len();
        let h = "if "@;
        reveal_strlit("if ");
        reveal_strlit(" { ");
        reveal_strlit(" } else { ");
        reading::at_split(s, p, h + a + " { "@ + b + " } else { "@ + c, " }"@);
        reading::at_split(s, p, h + a + " { "@ + b + " } else { "@, c);
        reading::at_split(s, p, h + a + " { "@ + b, " } else { "@);
        reading::at_split(s, p, h + a + " { "@, b);
        reading::at_split(s, p, h + a, " { "@);
        reading::at_split(s, p, h, a);
        marks::word_if(m, s, p);
        marks::mark_open(m, s, p2);
        marks::mark_else(m, s, p4);
        marks::mark_close(m, s, p6);
        read_expr_text(m, s, p1, *condition);
        read_expr_text(m, s, p3, *then_branch);
        read_expr_text(m, s, p5, *else_branch);
        let x0 = seq![SpecToken::Ident("if"@)];
        let x1 = spelling::expr_tokens(m, *condition);
        let x2 = seq![SpecToken::LBrace];
        let x3 = spelling::expr_tokens(m, *then_branch);
        let x4 = seq![SpecToken::RBrace, SpecToken::Ident("else"@), SpecToken::LBrace];
        let x5 = spelling::expr_tokens(m, *else_branch);
        let x6 = seq![SpecToken::RBrace];
        reading::join(m, s, p, x0, p1, x1, p2);
        reading::join(m, s, p, x0 + x1, p2, x2, p3);
        reading::join(m, s, p, x0 + x1 + x2, p3, x3, p4);
        reading::join(m, s, p, x0 + x1 + x2 + x3, p4, x4, p5);
        reading::join(m, s, p, x0 + x1 + x2 + x3 + x4, p5, x5, p6);
        reading::join(m, s, p, x0 + x1 + x2 + x3 + x4 + x5, p6, x6, p6 + 2);
    }
}

proof fn read_list_text(m: NumberModel, s: Seq<char>, p: int, es: Seq<SpecExpr>, n: int)
    requires
        0 <= n <= es.len(),
        reading::at(s, p, render::list_text(m, es, n)),
        forall|i: int| 0 <= i < es.len() ==> spelling::plain(m, #[trigger] es[i]),
        forall|i: int| 0 <= i < es.len() ==> legible_expr(#[trigger] es[i]),
        reading::calm(s, p + render::list_text(m, es, n).len()),
    ensures
        reading::reads(
            m,
            s,
            p,
            spelling::list_tokens(m, es, n),
            p + render::list_text(m, es, n).len(),
        ),
    decreases es, n,
{
    if n == 0 {
        reading::read_nothing(m, s, p);
    } else if n == 1 {
        read_expr_text(m, s, p, es[0]);
    } else {
        let front = render::list_text(m, es, n - 1);
        let last = render::expr_text(m, es[n - 1]);
        reveal_strlit(", ");
        reading::at_split(s, p, front + ", "@, last);
        reading::at_split(s, p, front, ", "@);
        let p1 = p + front.len();
        marks::mark_comma(m, s, p1);
        read_list_text(m, s, p, es, n - 1);
        read_expr_text(m, s, p1 + 2, es[n - 1]);
        let xs = spelling::list_tokens(m, es, n - 1);
        let comma = seq![SpecToken::Comma];
        let ys = spelling::expr_tokens(m, es[n - 1]);
        reading::join(m, s, p, xs, p1, comma, p1 + 2);
        reading::join(m, s, p, xs + comma, p1 + 2, ys, p1 + 2 + last.len());
    }
}

proof fn read_names_text(m: NumberModel, s: Seq<char>, p: int, ns: Seq<Seq<char>>, n: int)
    requires
        0 <= n <= ns.len(),
        reading::at(s, p, render::names_text(ns, n)),
        forall|i: int| 0 <= i < ns.len() ==> reading::is_name(#[trigger] ns[i]),
        reading::calm(s, p + render::names_text(ns, n).len()),
    ensures
        reading::reads(m, s, p, spelling::names_tokens(ns, n), p + render::names_text(ns, n).len()),
    decreases n,
{
    if n == 0 {
        reading::read_nothing(m, s, p);
    } else if n == 1 {
        reading::read_name(m, s, p, ns[0]);
    } else {
        let front = render::names_text(ns, n - 1);
        let last = ns[n - 1];
        reveal_strlit(", ");
        reading::at_split(s, p, front + ", "@, last);
        reading::at_split(s, p, front, ", "@);
        let p1 = p + front.len();
        marks::mark_comma(m, s, p1);
        read_names_text(m, s, p, ns, n - 1);
        reading::read_name(m, s, p1 + 2, last);
        let xs = spelling::names_tokens(ns, n - 1);
        let comma = seq![SpecToken::Comma];
        let id = seq![SpecToken::Ident(last)];
        reading::join(m, s, p1, comma, p1 + 2, id, p1 + 2 + last.len());
        assert(comma + id =~= seq![SpecToken::Comma, SpecToken::Ident(last)]);
        reading::join(m, s, p, xs, p1, comma + id, p1 + 2 + last.len());
    }
}

/// A written statement reads as the tokens that spell it.
pub(crate) proof fn read_stmt_text(m: NumberModel, s: Seq<char>, p: int, x: SpecStmt, pad: Seq<char>)
    requires
        reading::at(s, p, render::stmt_text(m, x, pad)),
        spelling::plain_stmt(m, x),
        legible_stmt(x),
        marks::blanks(pad),
    ensures
        reading::reads(
            m,
            s,
            p,
            spelling::stmt_tokens(m, x),
            p + render::stmt_text(m, x, pad).len(),
        ),
    decreases x, 1nat,
{
    match x {
        SpecStmt::Assign { name, value, mutable } => {
            let kw = render::keyword(mutable);
            let t = render::expr_text(m, value);
            reveal_strlit(" = ");
            reading::at_split(s, p, pad + kw + name + " = "@ + t, ";\n"@);
            reading::at_split(s, p, pad + kw + name + " = "@, t);
            reading::at_split(s, p, pad + kw + name, " = "@);
            reading::at_split(s, p, pad + kw, name);
            let p0 = p + pad.len();
            let p1 = p0 + kw.len();
            let p2 = p1 + name.len();
            let p3 = p2 + 3;
            let p4 = p3 + t.len();
            read_keyword(m, s, p, pad, mutable);
            marks::mark_equals(m, s, p2);
            marks::mark_end(m, s, p4);
            reading::read_name(m, s, p1, name);
            read_expr_text(m, s, p3, value);
            let x0 = spelling::mut_tokens(mutable);
            let id = seq![SpecToken::Ident(name)];
            let eq = seq![SpecToken::Equals];
            let xs = spelling::expr_tokens(m, value);
            reading::join(m, s, p1, id, p2, eq, p3);
            assert(id + eq =~= seq![SpecToken::Ident(name), SpecToken::Equals]);
            reading::join(m, s, p, x0, p1, id + eq, p3);
            reading::join(m, s, p, x0 + (id + eq), p3, xs, p4);
            reading::join(m, s, p, x0 + (id + eq) + xs, p4, seq![SpecToken::Semicolon], p4 + 2);
        },
        SpecStmt::Print(es) => {
            let list = render::list_text(m, es, es.len() as int);
            reveal_strlit("print(");
            reading::at_split(s, p, pad + "print("@ + list, ");\n"@);
            reading::at_split(s, p, pad + "print("@, list);
            reading::at_split(s, p, pad, "print("@);
            let p0 = p + pad.len();
            let p1 = p0 + 6;
            let p2 = p1 + list.len();
            marks::read_blanks(m, s, p, pad);
            marks::word_print(m, s, p0);
            marks::mark_end_print(m, s, p2);
            read_list_text(m, s, p1, es, es.len() as int);
            let head = seq![SpecToken::Ident("print"@), SpecToken::LParen];
            let xs = spelling::list_tokens(m, es, es.len() as int);
            let tail = seq![SpecToken::RParen, SpecToken::Semicolon];
            reading::join_left(m, s, p, p0, head, p1);
            reading::join(m, s, p, head, p1, xs, p2);
            reading::join(m, s, p, head + xs, p2, tail, p2 + 3);
        },
        SpecStmt::FnDef { .. } => read_fn(m, s, p, x, pad),
        SpecStmt::While { .. } => read_while(m, s, p, x, pad),
        SpecStmt::Return(e) => {
            let t = render::expr_text(m, e);
            reveal_strlit("return ");
            reading::at_split(s, p, pad + "return "@ + t, ";\n"@);
            reading::at_split(s, p, pad + "return "@, t);
            reading::at_split(s, p, pad, "return "@);
            let p0 = p + pad.len();
            let p1 = p0 + 7;
            let p2 = p1 + t.len();
            marks::read_blanks(m, s, p, pad);
            marks::word_return(m, s, p0);
            marks::mark_end(m, s, p2);
            read_expr_text(m, s, p1, e);
            let head = seq![SpecToken::Ident("return"@)];
            let xs = spelling::expr_tokens(m, e);
            reading::join_left(m, s, p, p0, head, p1);
            reading::join(m, s, p, head, p1, xs, p2);
            reading::join(m, s, p, head + xs, p2, seq![SpecToken::Semicolon], p2 + 2);
        },
    }
}

/// The indentation and what stands before the name of an assignment.
pub(crate) proof fn read_keyword(m: NumberModel, s: Seq<char>, p: int, pad: Seq<char>, mutable: bool)
    requires
        reading::at(s, p, pad + render::keyword(mutable)),
        marks::blanks(pad),
    ensures
        reading::reads(
            m,
            s,
            p,
            spelling::mut_tokens(mutable),
            p + pad.len() + render::keyword(mutable).len(),
        ),
{
    let p0 = p + pad.len();
    reading::at_split(s, p, pad, render::keyword(mutable));
    marks::read_blanks(m, s, p, pad);
    if mutable {
        marks::word_mut(m, s, p0);
        reading::join_left(m, s, p, p0, seq![SpecToken::Ident("mut"@)], p0 + 4);
    } else {
        reveal_strlit("");
    }
}

proof fn read_fn(m: NumberModel, s: Seq<char>, p: int, x: SpecStmt, pad: Seq<char>)
    requires
        x is FnDef,
        reading::at(s, p, render::stmt_text(m, x, pad)),
        spelling::plain_stmt(m, x),
        legible_stmt(x),
        marks::blanks(pad),
    ensures
        reading::reads(
            m,
            s,
            p,
            spelling::stmt_tokens(m, x),
            p + render::stmt_text(m, x, pad).len(),
        ),
    decreases x, 0nat,
{
    if let SpecStmt::FnDef { name, params, body } = x {
        let deeper = pad + "    "@;
        let list = render::names_text(params, params.len() as int);
        let inner = render::stmts_text(m, body, body.len() as int, deeper);
        let h = pad + "fn "@ + name + "("@ + list + ") {\n"@;
        reveal_strlit("fn ");
        reveal_strlit("(");
        reveal_strlit(") {\n");
        reveal_strlit("    ");
        reading::at_split(s, p, h + inner + pad, "}\n"@);
        reading::at_split(s, p, h + inner, pad);
        reading::at_split(s, p, h, inner);
        reading::at_split(s, p, pad + "fn "@ + name + "("@ + list, ") {\n"@);
        reading::at_split(s, p, pad + "fn "@ + name + "("@, list);
        reading::at_split(s, p, pad + "fn "@ + name, "("@);
        reading::at_split(s, p, pad + "fn "@, name);
        reading::at_split(s, p, pad, "fn "@);
        let p0 = p + pad.len();
        let p1 = p0 + 3;
        let p2 = p1 + name.len();
        let p3 = p2 + 1;
        let p4 = p3 + list.len();
        let p5 = p4 + 4;
        let p6 = p5 + inner.len();
        let p7 = p6 + pad.len();
        assert(marks::blanks(deeper));
        marks::read_blanks(m, s, p, pad);
        marks::word_fn(m, s, p0);
        marks::mark_paren(m, s, p2);
        marks::mark_body(m, s, p4);
        marks::mark_end_body(m, s, p7);
        reading::read_name(m, s, p1, name);
        read_names_text(m, s, p3, params, params.len() as int);
        read_stmts_text(m, s, p5, body, body.len() as int, deeper);
        marks::read_blanks(m, s, p6, pad);
        let x0 = seq![SpecToken::Ident("fn"@)];
        let x1 = seq![SpecToken::Ident(name)];
        let x2 = seq![SpecToken::LParen];
        let x3 = spelling::names_tokens(params, params.len() as int);
        let x4 = seq![SpecToken::RParen, SpecToken::LBrace];
        let x5 = spelling::stmts_tokens(m, body, body.len() as int);
        let x6 = seq![SpecToken::RBrace];
        reading::join_left(m, s, p, p0, x0, p1);
        reading::join(m, s, p, x0, p1, x1, p2);
        reading::join(m, s, p, x0 + x1, p2, x2, p3);
        let head = seq![
            SpecToken::Ident("fn"@),
            SpecToken::Ident(name),
            SpecToken::LParen,
        ];
        assert(x0 + x1 + x2 =~= head);
        reading::join(m, s, p, head, p3, x3, p4);
        reading::join(m, s, p, head + x3, p4, x4, p5);
        reading::join(m, s, p, head + x3 + x4, p5, x5, p6);
        reading::join_right(m, s, p, head + x3 + x4 + x5, p6, p7);
        reading::join(m, s, p, head + x3 + x4 + x5, p7, x6, p7 + 2);
    }
}

proof fn read_while(m: NumberModel, s: Seq<char>, p: int, x: SpecStmt, pad: Seq<char>)
    requires
        x is While,
        reading::at(s, p, render::stmt_text(m, x, pad)),
        spelling::plain_stmt(m, x),
        legible_stmt(x),
        marks::blanks(pad),
    ensures
        reading::reads(
            m,
            s,
            p,
            spelling::stmt_tokens(m, x),
            p + render::stmt_text(m, x, pad).len(),
        ),
    decreases x, 0nat,
{
    if let SpecStmt::While { condition, body } = x {
        let deeper = pad + "    "@;
        let t = render::expr_text(m, condition);
        let inner = render::stmts_text(m, body, body.len() as int, deeper);
        let h = pad + "while "@ + t + " {\n"@;
        reveal_strlit("while ");
        reveal_strlit(" {\n");
        reveal_strlit("    ");
        reading::at_split(s, p, h + inner + pad, "}\n"@);
        reading::at_split(s, p, h + inner, pad);
        reading::at_split(s, p, h, inner);
        reading::at_split(s, p, pad + "while "@ + t, " {\n"@);
        reading::at_split(s, p, pad + "while "@, t);
        reading::at_split(s, p, pad, "while "@);
        let p0 = p + pad.len();
        let p1 = p0 + 6;
        let p2 = p1 + t.len();
        let p3 = p2 + 3;
        let p4 = p3 + inner.len();
        let p5 = p4 + pad.len();
        assert(marks::blanks(deeper));
        marks::read_blanks(m, s, p, pad);
        marks::word_while(m, s, p0);
        marks::mark_block(m, s, p2);
        marks::mark_end_body(m, s, p5);
        read_expr_text(m, s, p1, condition);
        read_stmts_text(m, s, p3, body, body.len() as int, deeper);
        marks::read_blanks(m, s, p4, pad);
        let x0 = seq![SpecToken::Ident("while"@)];
        let x1 = spelling::expr_tokens(m, condition);
        let x2 = seq![SpecToken::LBrace];
        let x3 = spelling::stmts_tokens(m, body, body.len() as int);
        let x4 = seq![SpecToken::RBrace];
        reading::join_left(m, s, p, p0, x0, p1);
        reading::join(m, s, p, x0, p1, x1, p2);
        reading::join(m, s, p, x0 + x1, p2, x2, p3);
        reading::join(m, s, p, x0 + x1 + x2, p3, x3, p4);
        reading::join_right(m, s, p, x0 + x1 + x2 + x3, p4, p5);
        reading::join(m, s, p, x0 + x1 + x2 + x3, p5, x4, p5 + 2);
    }
}

proof fn read_stmts_text(
    m: NumberModel,
    s: Seq<char>,
    p: int,
    ss: Seq<SpecStmt>,
    n: int,
    pad: Seq<char>,
)
    requires
        0 <= n <= ss.len(),
        reading::at(s, p, render::stmts_text(m, ss, n, pad)),
        spelling::plain_stmts(m, ss),
        legible_stmts(ss),
        marks::blanks(pad),
    ensures
        reading::reads(
            m,
            s,
            p,
            spelling::stmts_tokens(m, ss, n),
            p + render::stmts_text(m, ss, n, pad).len(),
        ),
    decreases ss, n,
{
    if n == 0 {
        reading::read_nothing(m, s, p);
    } else {
        let front = render::stmts_text(m, ss, n - 1, pad);
        let last = render::stmt_text(m, ss[n - 1], pad);
        reading::at_split(s, p, front, last);
        read_stmts_text(m, s, p, ss, n - 1, pad);
        assert(spelling::plain_stmt(m, ss[n - 1]));
        assert(legible_stmt(ss[n - 1]));
        read_stmt_text(m, s, p + front.len(), ss[n - 1], pad);
        reading::join(
            m,
            s,
            p,
            spelling::stmts_tokens(m, ss, n - 1),
            p + front.len(),
            spelling::stmt_tokens(m, ss[n - 1]),
            p + front.len() + last.len(),
        );
    }
}

// ---- the law ---------------------------------------------------------

/// A written expression reads back: its text is what the grammar takes for one
/// expression, and the tree is the one that was written.
pub proof fn law_expressions_read_back(m: NumberModel, e: SpecExpr)
    requires
        spelling::plain(m, e),
        legible_expr(e),
    ensures
        lexer::tokens_of(m, render::expr_text(m, e)) is Ok,
        ({
            let ts = lexer::tokens_of(m, render::expr_text(m, e))->Ok_0;
            spelling::gives(
                grammar::expr_at(m, ts, 0),
                spelling::reread(m, e),
                ts.len() - 1,
            )
        }),
{
    let t = render::expr_text(m, e);
    let xs = spelling::expr_tokens(m, e);
    reading::lemma_at_whole(t);
    read_expr_text(m, t, 0, e);
    reading::lemma_whole(m, t, xs);
    let ts = lexer::tokens_of(m, t)->Ok_0;
    spelling::read_expr(m, ts, 0, e);
}

/// A written expression reads back where a `;` ends it, too.
pub proof fn law_expressions_read_back_before_a_semicolon(m: NumberModel, e: SpecExpr)
    requires
        spelling::plain(m, e),
        legible_expr(e),
    ensures
        lexer::tokens_of(m, render::expr_text(m, e) + seq![';']) is Ok,
        ({
            let ts = lexer::tokens_of(m, render::expr_text(m, e) + seq![';'])->Ok_0;
            &&& ts.len() >= 2
            &&& ts[ts.len() - 2].token == SpecToken::Semicolon
            &&& spelling::gives(
                grammar::expr_at(m, ts, 0),
                spelling::reread(m, e),
                ts.len() - 2,
            )
        }),
{
    let t = render::expr_text(m, e);
    let s = t + seq![';'];
    let n = t.len() as int;
    let xs = spelling::expr_tokens(m, e);
    let end = seq![SpecToken::Semicolon];
    reading::lemma_at_whole(s);
    reading::at_split(s, 0, t, seq![';']);
    reading::at_char(s, n, seq![';'], 0);
    read_expr_text(m, s, 0, e);
    reading::read_symbol(m, s, n, SpecToken::Semicolon);
    reading::join(m, s, 0, xs, n, end, n + 1);
    reading::lemma_whole(m, s, xs + end);
    let ts = lexer::tokens_of(m, s)->Ok_0;
    spelling::split(ts, 0, xs, end);
    spelling::first(ts, xs.len() as int, end);
    spelling::read_expr(m, ts, 0, e);
}

} // verus!
