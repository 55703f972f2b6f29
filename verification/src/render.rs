//! Writing programs and graphs as text: an expression as source, a program
//! with its graph as a runnable `.fic` file, a graph for Graphviz.

#[allow(unused_imports)]
use crate::ast::{self, BinOp, Expr, Program, SpecExpr, SpecStmt, Stmt};
#[allow(unused_imports)]
use crate::graph::{
    self, Dag, DagNode, Operation, OperationKind, SpecDag, SpecNode, SpecOperation,
};
#[allow(unused_imports)]
use crate::lexer;
#[allow(unused_imports)]
use crate::number::{self, Bits, NumberModel, Numbers};
#[allow(unused_imports)]
use crate::text;
use vstd::prelude::*;

verus! {

// ---- numbers and strings ------------------------------------------------

/// Whether a text starts with a minus sign.
pub open spec fn has_sign(t: Seq<char>) -> bool {
    t.len() > 0 && t[0] == '-'
}

/// A text without its minus sign, if it has one.
pub open spec fn unsigned(t: Seq<char>) -> Seq<char> {
    if has_sign(t) {
        t.skip(1)
    } else {
        t
    }
}

/// Whether a text is made of digits.
pub open spec fn all_digits(t: Seq<char>) -> bool {
    forall|i: int| 0 <= i < t.len() ==> lexer::is_digit(#[trigger] t[i])
}

/// A float as source. What is shown as digits that are too large for an
/// integer is written with a `.`, which makes it a float again.
pub open spec fn float_text(m: NumberModel, n: Bits) -> Seq<char> {
    let t = (m.show)(n);
    if all_digits(unsigned(t)) && lexer::digits_value(unsigned(t)) > i64::MAX {
        t + ".0"@
    } else {
        t
    }
}

fn write_float<N: Numbers>(n: Bits, nums: &N) -> (r: String)
    ensures
        forall|m: NumberModel| #[trigger]
            number::computes(*nums, m) ==> r@ == float_text(m, n),
{
    let mut t = nums.show(n);
    let cs = text::chars_of(t.as_str());
    let start: usize = if cs.len() > 0 && cs[0] == '-' {
        1
    } else {
        0
    };
    let digits = text::piece(&cs, start, cs.len());
    proof {
        assert(digits@ =~= unsigned(t@));
    }
    let mut i: usize = start;
    while i < cs.len() && lexer::digit(cs[i])
        invariant
            start <= i <= cs@.len(),
            digits@ == cs@.subrange(start as int, cs@.len() as int),
            forall|j: int| 0 <= j < i - start ==> lexer::is_digit(#[trigger] digits@[j]),
        decreases cs@.len() - i,
    {
        i = i + 1;
    }
    if i == cs.len() {
        if lexer::int_value(&digits).is_none() {
            t.append(".0");
        }
    } else {
        proof {
            assert(digits@[i - start] == cs@[i as int]);
        }
    }
    t
}

/// A character as it stands in a string literal.
pub open spec fn literal_char(c: char) -> Seq<char> {
    match c {
        '"' => "\\\""@,
        '\\' => "\\\\"@,
        '\n' => "\\n"@,
        '\t' => "\\t"@,
        '\r' => "\\r"@,
        _ => seq![c],
    }
}

/// The first `n` characters of a text as they stand in a string literal.
pub open spec fn literal_chars(s: Seq<char>, n: int) -> Seq<char>
    decreases n,
{
    if n <= 0 || n > s.len() {
        Seq::empty()
    } else {
        literal_chars(s, n - 1) + literal_char(s[n - 1])
    }
}

/// A text as a string literal, with the escapes that the lexer knows.
pub open spec fn literal(s: Seq<char>) -> Seq<char> {
    "\""@ + literal_chars(s, s.len() as int) + "\""@
}

fn write_literal(s: &str) -> (r: String)
    ensures
        r@ == literal(s@),
{
    let cs = text::chars_of(s);
    let mut out = "\"".to_owned();
    let mut i: usize = 0;
    proof {
        assert("\""@ + literal_chars(s@, 0) =~= "\""@);
    }
    while i < cs.len()
        invariant
            cs@ == s@,
            i <= cs@.len(),
            out@ == "\""@ + literal_chars(s@, i as int),
        decreases cs@.len() - i,
    {
        let c = cs[i];
        let ghost before = out@;
        match c {
            '"' => out.append("\\\""),
            '\\' => out.append("\\\\"),
            '\n' => out.append("\\n"),
            '\t' => out.append("\\t"),
            '\r' => out.append("\\r"),
            _ => {
                out.push(c);
                proof {
                    assert(before.push(c) =~= before + seq![c]);
                }
            },
        }
        proof {
            assert(out@ == before + literal_char(c));
            let so_far = literal_chars(s@, i as int);
            assert("\""@ + so_far + literal_char(c) =~= "\""@ + (so_far + literal_char(c)));
        }
        i = i + 1;
    }
    out.append("\"");
    out
}

// ---- parentheses --------------------------------------------------------

/// Whether an operator multiplies or divides.
pub open spec fn is_product_op(op: BinOp) -> bool {
    op == BinOp::Mul || op == BinOp::Div
}

/// How loosely an expression is bound: 0 for one that operators cannot take
/// apart, 1 for a power, 2 for a number with a minus sign, 3 for a product, 4
/// for a sum or a comparison.
pub open spec fn looseness(m: NumberModel, e: SpecExpr) -> nat {
    match e {
        SpecExpr::Binary { op, .. } => if op == BinOp::Power {
            1
        } else if is_product_op(op) {
            3
        } else {
            4
        },
        SpecExpr::Int(n) => if n < 0 {
            2
        } else {
            0
        },
        SpecExpr::Float(n) => if has_sign((m.show)(n)) {
            2
        } else {
            0
        },
        _ => 0,
    }
}

/// Whether `e` is `... < name`, which a `>` after it would close.
pub open spec fn ends_in_less(e: SpecExpr) -> bool {
    e matches SpecExpr::Binary { op: BinOp::Lt, rhs, .. } && *rhs is Var
}

/// How loose the left operand of an operator may be without parentheses.
pub open spec fn left_limit(op: BinOp) -> nat {
    if op == BinOp::Power {
        0
    } else if is_product_op(op) {
        3
    } else {
        4
    }
}

/// How loose the right operand of an operator may be without parentheses.
pub open spec fn right_limit(op: BinOp) -> nat {
    if op == BinOp::Power {
        1
    } else if is_product_op(op) {
        2
    } else {
        3
    }
}

/// Whether the base of an access stands in parentheses.
pub open spec fn base_wrapped(m: NumberModel, base: SpecExpr) -> bool {
    looseness(m, base) > 0
}

/// Whether the left operand stands in parentheses.
pub open spec fn left_wrapped(m: NumberModel, op: BinOp, lhs: SpecExpr) -> bool {
    looseness(m, lhs) > left_limit(op) || (op == BinOp::Gt && ends_in_less(lhs))
}

/// Whether the right operand stands in parentheses.
pub open spec fn right_wrapped(m: NumberModel, op: BinOp, rhs: SpecExpr) -> bool {
    looseness(m, rhs) > right_limit(op)
}

/// A text, in parentheses or not.
pub open spec fn wrapped(wrap: bool, t: Seq<char>) -> Seq<char> {
    if wrap {
        "("@ + t + ")"@
    } else {
        t
    }
}

fn wrap_text(wrap: bool, t: String) -> (r: String)
    ensures
        r@ == wrapped(wrap, t@),
{
    if wrap {
        let mut s = "(".to_owned();
        s.append(t.as_str());
        s.append(")");
        s
    } else {
        t
    }
}

fn product_op(op: BinOp) -> (r: bool)
    ensures
        r == is_product_op(op),
{
    matches!(op, BinOp::Mul | BinOp::Div)
}

fn looseness_of<N: Numbers>(e: &Expr, nums: &N) -> (r: u8)
    ensures
        forall|m: NumberModel| #[trigger]
            number::computes(*nums, m) ==> r == looseness(m, e@),
{
    match e {
        Expr::Binary { op, .. } => if matches!(*op, BinOp::Power) {
            1
        } else if product_op(*op) {
            3
        } else {
            4
        },
        Expr::Int(n) => if *n < 0 {
            2
        } else {
            0
        },
        Expr::Float(n) => {
            let cs = text::chars_of(nums.show(*n).as_str());
            if cs.len() > 0 && cs[0] == '-' {
                2
            } else {
                0
            }
        },
        _ => 0,
    }
}

fn is_less_name(e: &Expr) -> (r: bool)
    ensures
        r == ends_in_less(e@),
{
    match e {
        Expr::Binary { op, rhs, .. } => {
            let named = match &**rhs {
                Expr::Var(_) => true,
                _ => false,
            };
            proof {
                assert(named == (ast::expr_view(**rhs) is Var));
            }
            matches!(*op, BinOp::Lt) && named
        },
        _ => false,
    }
}

fn wrap_base<N: Numbers>(base: &Expr, nums: &N) -> (r: bool)
    ensures
        forall|m: NumberModel| #[trigger]
            number::computes(*nums, m) ==> r == base_wrapped(m, base@),
{
    looseness_of(base, nums) > 0
}

fn wrap_left<N: Numbers>(op: BinOp, lhs: &Expr, nums: &N) -> (r: bool)
    ensures
        forall|m: NumberModel| #[trigger]
            number::computes(*nums, m) ==> r == left_wrapped(m, op, lhs@),
{
    let limit: u8 = if matches!(op, BinOp::Power) {
        0
    } else if product_op(op) {
        3
    } else {
        4
    };
    looseness_of(lhs, nums) > limit || (matches!(op, BinOp::Gt) && is_less_name(lhs))
}

fn wrap_right<N: Numbers>(op: BinOp, rhs: &Expr, nums: &N) -> (r: bool)
    ensures
        forall|m: NumberModel| #[trigger]
            number::computes(*nums, m) ==> r == right_wrapped(m, op, rhs@),
{
    let limit: u8 = if matches!(op, BinOp::Power) {
        1
    } else if product_op(op) {
        2
    } else {
        3
    };
    looseness_of(rhs, nums) > limit
}

// ---- expressions and statements -------------------------------------------

/// An expression as source: what its operators would take apart stands in
/// parentheses, and nothing else does.
pub open spec fn expr_text(m: NumberModel, e: SpecExpr) -> Seq<char>
    decreases e, 0nat,
{
    match e {
        SpecExpr::Int(n) => text::decimal_int(n as int),
        SpecExpr::Float(n) => float_text(m, n),
        SpecExpr::Str(s) => literal(s),
        SpecExpr::Var(name) => name,
        SpecExpr::Field { base, name } => wrapped(base_wrapped(m, *base), expr_text(m, *base))
            + "."@ + name,
        SpecExpr::Subset { base, name } => wrapped(base_wrapped(m, *base), expr_text(m, *base))
            + "<"@ + name + ">"@,
        SpecExpr::Binary { op, lhs, rhs } => wrapped(
            left_wrapped(m, op, *lhs),
            expr_text(m, *lhs),
        ) + " "@ + ast::op_text(op) + " "@ + wrapped(
            right_wrapped(m, op, *rhs),
            expr_text(m, *rhs),
        ),
        SpecExpr::If { condition, then_branch, else_branch } => "if "@ + expr_text(m, *condition)
            + " { "@ + expr_text(m, *then_branch) + " } else { "@ + expr_text(m, *else_branch)
            + " }"@,
        SpecExpr::Call { name, args } => name + "("@ + list_text(m, args, args.len() as int)
            + ")"@,
        SpecExpr::Unsafe { body } => "[unsafe] {\n"@ + stmts_text(
            m,
            body,
            body.len() as int,
            "    "@,
        ) + "}"@,
    }
}

/// The first `n` expressions, separated by commas.
pub open spec fn list_text(m: NumberModel, es: Seq<SpecExpr>, n: int) -> Seq<char>
    decreases es, n,
{
    if n <= 0 || n > es.len() {
        Seq::empty()
    } else if n == 1 {
        expr_text(m, es[0])
    } else {
        list_text(m, es, n - 1) + ", "@ + expr_text(m, es[n - 1])
    }
}

/// A statement as source, one line or a block of lines, each line after `pad`.
pub open spec fn stmt_text(m: NumberModel, s: SpecStmt, pad: Seq<char>) -> Seq<char>
    decreases s, 0nat,
{
    match s {
        SpecStmt::Assign { name, value, mutable } => pad + keyword(mutable) + name + " = "@
            + expr_text(m, value) + ";\n"@,
        SpecStmt::Print(es) => pad + "print("@ + list_text(m, es, es.len() as int) + ");\n"@,
        SpecStmt::FnDef { name, params, body } => pad + "fn "@ + name + "("@ + names_text(
            params,
            params.len() as int,
        ) + ") {\n"@ + stmts_text(m, body, body.len() as int, pad + "    "@) + pad + "}\n"@,
        SpecStmt::While { condition, body } => pad + "while "@ + expr_text(m, condition) + " {\n"@
            + stmts_text(m, body, body.len() as int, pad + "    "@) + pad + "}\n"@,
        SpecStmt::Return(e) => pad + "return "@ + expr_text(m, e) + ";\n"@,
    }
}

/// The first `n` statements as source, each line after `pad`.
pub open spec fn stmts_text(m: NumberModel, ss: Seq<SpecStmt>, n: int, pad: Seq<char>) -> Seq<char>
    decreases ss, n,
{
    if n <= 0 || n > ss.len() {
        Seq::empty()
    } else {
        stmts_text(m, ss, n - 1, pad) + stmt_text(m, ss[n - 1], pad)
    }
}

/// What stands before the name in an assignment.
pub open spec fn keyword(mutable: bool) -> Seq<char> {
    if mutable {
        "mut "@
    } else {
        ""@
    }
}

/// The first `n` names, separated by commas.
pub open spec fn names_text(ns: Seq<Seq<char>>, n: int) -> Seq<char>
    decreases n,
{
    if n <= 0 || n > ns.len() {
        Seq::empty()
    } else if n == 1 {
        ns[0]
    } else {
        names_text(ns, n - 1) + ", "@ + ns[n - 1]
    }
}

/// An expression as source.
pub fn display_expr<N: Numbers>(expr: &Expr, nums: &N) -> (r: String)
    ensures
        forall|m: NumberModel| #[trigger]
            number::computes(*nums, m) ==> r@ == expr_text(m, expr@),
    decreases *expr, 0nat,
{
    match expr {
        Expr::Int(n) => text::i64_text(*n),
        Expr::Float(n) => write_float(*n, nums),
        Expr::Str(s) => write_literal(s.as_str()),
        Expr::Var(name) => name.clone(),
        Expr::Field { base, name } => {
            let mut s = wrap_text(wrap_base(&**base, nums), display_expr(&**base, nums));
            s.append(".");
            s.append(name.as_str());
            s
        },
        Expr::Subset { base, name } => {
            let mut s = wrap_text(wrap_base(&**base, nums), display_expr(&**base, nums));
            s.append("<");
            s.append(name.as_str());
            s.append(">");
            s
        },
        Expr::Binary { op, lhs, rhs } => {
            let mut s = wrap_text(wrap_left(*op, &**lhs, nums), display_expr(&**lhs, nums));
            s.append(" ");
            s.append(op.to_text().as_str());
            s.append(" ");
            let right = wrap_text(wrap_right(*op, &**rhs, nums), display_expr(&**rhs, nums));
            s.append(right.as_str());
            s
        },
        Expr::If { condition, then_branch, else_branch } => {
            let mut s = "if ".to_owned();
            s.append(display_expr(&**condition, nums).as_str());
            s.append(" { ");
            s.append(display_expr(&**then_branch, nums).as_str());
            s.append(" } else { ");
            s.append(display_expr(&**else_branch, nums).as_str());
            s.append(" }");
            s
        },
        Expr::Call { name, args } => {
            let mut s = name.clone();
            s.append("(");
            s.append(display_list(args, nums).as_str());
            s.append(")");
            s
        },
        Expr::Unsafe { body } => {
            let mut s = "[unsafe] {\n".to_owned();
            s.append(render_body(body, "    ", nums).as_str());
            s.append("}");
            s
        },
    }
}

fn display_list<N: Numbers>(es: &Vec<Expr>, nums: &N) -> (r: String)
    ensures
        forall|m: NumberModel| #[trigger]
            number::computes(*nums, m) ==> r@ == list_text(
                m,
                ast::exprs_view(es@),
                es@.len() as int,
            ),
    decreases *es, 0nat,
{
    let ghost all = ast::exprs_view(es@);
    let mut s = String::new();
    let mut i: usize = 0;
    while i < es.len()
        invariant
            i <= es@.len(),
            all == ast::exprs_view(es@),
            forall|m: NumberModel| #[trigger]
                number::computes(*nums, m) ==> s@ == list_text(m, all, i as int),
        decreases es@.len() - i,
    {
        proof {
            assert(all[i as int] == es@[i as int]@);
        }
        if i == 0 {
            s = display_expr(&es[i], nums);
        } else {
            s.append(", ");
            s.append(display_expr(&es[i], nums).as_str());
        }
        i = i + 1;
    }
    s
}

fn display_names(names: &Vec<String>) -> (r: String)
    ensures
        r@ == names_text(ast::names_view(names@), names@.len() as int),
{
    let ghost all = ast::names_view(names@);
    let mut s = String::new();
    let mut i: usize = 0;
    while i < names.len()
        invariant
            i <= names@.len(),
            all == ast::names_view(names@),
            s@ == names_text(all, i as int),
        decreases names@.len() - i,
    {
        if i == 0 {
            s = names[i].clone();
        } else {
            s.append(", ");
            s.append(names[i].as_str());
        }
        i = i + 1;
    }
    s
}

fn keyword_text(mutable: bool) -> (r: &'static str)
    ensures
        r@ == keyword(mutable),
{
    if mutable {
        "mut "
    } else {
        ""
    }
}

/// A statement as source.
fn render_stmt<N: Numbers>(stmt: &Stmt, pad: &str, nums: &N) -> (r: String)
    ensures
        forall|m: NumberModel| #[trigger]
            number::computes(*nums, m) ==> r@ == stmt_text(m, stmt@, pad@),
    decreases *stmt, 0nat,
{
    let mut out = pad.to_owned();
    match stmt {
        Stmt::Assign { name, value, mutable } => {
            out.append(keyword_text(*mutable));
            out.append(name.as_str());
            out.append(" = ");
            out.append(display_expr(value, nums).as_str());
            out.append(";\n");
        },
        Stmt::Print(es) => {
            out.append("print(");
            out.append(display_list(es, nums).as_str());
            out.append(");\n");
        },
        Stmt::FnDef { name, params, body } => {
            let mut inner = pad.to_owned();
            inner.append("    ");
            out.append("fn ");
            out.append(name.as_str());
            out.append("(");
            out.append(display_names(params).as_str());
            out.append(") {\n");
            out.append(render_body(body, inner.as_str(), nums).as_str());
            out.append(pad);
            out.append("}\n");
        },
        Stmt::While { condition, body } => {
            let mut inner = pad.to_owned();
            inner.append("    ");
            out.append("while ");
            out.append(display_expr(condition, nums).as_str());
            out.append(" {\n");
            out.append(render_body(body, inner.as_str(), nums).as_str());
            out.append(pad);
            out.append("}\n");
        },
        Stmt::Return(e) => {
            out.append("return ");
            out.append(display_expr(e, nums).as_str());
            out.append(";\n");
        },
    }
    out
}

fn render_body<N: Numbers>(body: &Vec<Stmt>, pad: &str, nums: &N) -> (r: String)
    ensures
        forall|m: NumberModel| #[trigger]
            number::computes(*nums, m) ==> r@ == stmts_text(
                m,
                ast::stmts_view(body@),
                body@.len() as int,
                pad@,
            ),
    decreases *body, 0nat,
{
    let ghost all = ast::stmts_view(body@);
    let mut out = String::new();
    let mut i: usize = 0;
    while i < body.len()
        invariant
            i <= body@.len(),
            all == ast::stmts_view(body@),
            forall|m: NumberModel| #[trigger]
                number::computes(*nums, m) ==> out@ == stmts_text(m, all, i as int, pad@),
        decreases body@.len() - i,
    {
        proof {
            assert(all[i as int] == body@[i as int]@);
        }
        out.append(render_stmt(&body[i], pad, nums).as_str());
        i = i + 1;
    }
    out
}

/// The end of the word that `pos` stands in.
pub open spec fn word_end(s: Seq<char>, pos: int) -> int
    decreases s.len() - pos,
{
    if pos < 0 || pos >= s.len() || text::is_white(s[pos]) {
        pos
    } else {
        word_end(s, pos + 1)
    }
}

/// The words of `s` from `pos` on: the longest runs without whitespace.
pub open spec fn words_from(s: Seq<char>, pos: int) -> Seq<Seq<char>>
    decreases s.len() - pos,
{
    if pos < 0 || pos >= s.len() {
        Seq::empty()
    } else if text::is_white(s[pos]) {
        words_from(s, pos + 1)
    } else {
        let end = word_end(s, pos);
        if pos < end <= s.len() {
            seq![s.subrange(pos, end)] + words_from(s, end)
        } else {
            Seq::empty()
        }
    }
}

/// Words with a space between any two.
pub open spec fn spaced(ws: Seq<Seq<char>>) -> Seq<char>
    decreases ws.len(),
{
    if ws.len() == 0 {
        Seq::empty()
    } else if ws.len() == 1 {
        ws[0]
    } else {
        spaced(ws.drop_last()) + " "@ + ws.last()
    }
}

/// The words of `s` on one line.
pub open spec fn one_line(s: Seq<char>) -> Seq<char> {
    spaced(words_from(s, 0))
}

pub(crate) proof fn lemma_word_end(s: Seq<char>, pos: int)
    requires
        0 <= pos <= s.len(),
    ensures
        pos <= word_end(s, pos) <= s.len(),
        forall|i: int| pos <= i < word_end(s, pos) ==> !text::is_white(#[trigger] s[i]),
        word_end(s, pos) < s.len() ==> text::is_white(s[word_end(s, pos)]),
    decreases s.len() - pos,
{
    if pos < s.len() && !text::is_white(s[pos]) {
        lemma_word_end(s, pos + 1);
    }
}

/// No word holds whitespace.
spec fn solid(ws: Seq<Seq<char>>) -> bool {
    forall|i: int, j: int|
        0 <= i < ws.len() && 0 <= j < ws[i].len() ==> !text::is_white(#[trigger] ws[i][j])
}

/// No word is empty.
spec fn full(ws: Seq<Seq<char>>) -> bool {
    forall|i: int| 0 <= i < ws.len() ==> (#[trigger] ws[i]).len() > 0
}

proof fn lemma_words_are_solid(s: Seq<char>, pos: int)
    requires
        0 <= pos <= s.len(),
    ensures
        solid(words_from(s, pos)),
        full(words_from(s, pos)),
    decreases s.len() - pos,
{
    if pos < s.len() {
        if text::is_white(s[pos]) {
            lemma_words_are_solid(s, pos + 1);
        } else {
            lemma_word_end(s, pos);
            lemma_word_end(s, pos + 1);
            let end = word_end(s, pos);
            lemma_words_are_solid(s, end);
            let rest = words_from(s, end);
            let all = words_from(s, pos);
            assert(all == seq![s.subrange(pos, end)] + rest);
            assert forall|i: int, j: int|
                0 <= i < all.len() && 0 <= j < all[i].len() implies !text::is_white(
                #[trigger] all[i][j],
            ) by {
                if i > 0 {
                    assert(all[i] == rest[i - 1]);
                }
            }
        }
    }
}

proof fn lemma_spaced_white(ws: Seq<Seq<char>>)
    requires
        solid(ws),
    ensures
        forall|k: int|
            0 <= k < spaced(ws).len() && text::is_white(#[trigger] spaced(ws)[k]) ==> spaced(ws)[k]
                == ' ',
    decreases ws.len(),
{
    reveal_strlit(" ");
    if ws.len() > 1 {
        let front = ws.drop_last();
        assert forall|i: int, j: int|
            0 <= i < front.len() && 0 <= j < front[i].len() implies !text::is_white(
            #[trigger] front[i][j],
        ) by {
            assert(front[i] == ws[i]);
            assert(!text::is_white(ws[i][j]));
        }
        lemma_spaced_white(front);
        let a = spaced(front);
        let b = ws.last();
        assert(spaced(ws) == a + " "@ + b);
        assert forall|k: int|
            0 <= k < spaced(ws).len() && text::is_white(#[trigger] spaced(ws)[k]) implies spaced(
            ws,
        )[k] == ' ' by {
            if k > a.len() {
                assert(spaced(ws)[k] == ws[ws.len() - 1][k - a.len() - 1]);
            } else if k < a.len() {
                assert(spaced(ws)[k] == a[k]);
            }
        }
    } else if ws.len() == 1 {
        assert forall|k: int|
            0 <= k < spaced(ws).len() && text::is_white(#[trigger] spaced(ws)[k]) implies spaced(
            ws,
        )[k] == ' ' by {
            assert(!text::is_white(ws[0][k]));
        }
    }
}

/// A word is the same further on in a text.
proof fn lemma_word_further(s: Seq<char>, k: int, t: Seq<char>, p: int)
    requires
        0 <= k,
        0 <= p <= t.len(),
        s.len() == k + t.len(),
        forall|i: int| 0 <= i < t.len() ==> s[k + i] == #[trigger] t[i],
    ensures
        word_end(s, k + p) == k + word_end(t, p),
    decreases t.len() - p,
{
    if p < t.len() {
        assert(s[k + p] == t[p]);
        lemma_word_further(s, k, t, p + 1);
    }
}

/// The words of a text are the same further on in a text.
proof fn lemma_words_further(s: Seq<char>, k: int, t: Seq<char>, p: int)
    requires
        0 <= k,
        0 <= p <= t.len(),
        s.len() == k + t.len(),
        forall|i: int| 0 <= i < t.len() ==> s[k + i] == #[trigger] t[i],
    ensures
        words_from(s, k + p) == words_from(t, p),
    decreases t.len() - p,
{
    if p < t.len() {
        assert(s[k + p] == t[p]);
        if text::is_white(t[p]) {
            lemma_words_further(s, k, t, p + 1);
        } else {
            lemma_word_end(t, p);
            lemma_word_end(t, p + 1);
            lemma_word_further(s, k, t, p);
            let end = word_end(t, p);
            let x = s.subrange(k + p, k + end);
            let y = t.subrange(p, end);
            assert forall|i: int| 0 <= i < y.len() implies x[i] == #[trigger] y[i] by {
                assert(s[k + (p + i)] == t[p + i]);
            }
            assert(x =~= y);
            lemma_words_further(s, k, t, end);
        }
    }
}

proof fn lemma_spaced_first(w: Seq<char>, ws: Seq<Seq<char>>)
    requires
        ws.len() > 0,
    ensures
        spaced(seq![w] + ws) == w + " "@ + spaced(ws),
    decreases ws.len(),
{
    let all = seq![w] + ws;
    assert(all.drop_last() =~= seq![w] + ws.drop_last());
    assert(all.last() == ws.last());
    if ws.len() == 1 {
        assert(seq![w] + ws.drop_last() =~= seq![w]);
        assert(spaced(seq![w]) == w);
        assert(spaced(ws) == ws[0]);
    } else {
        lemma_spaced_first(w, ws.drop_last());
        let front = spaced(ws.drop_last());
        assert(w + " "@ + front + " "@ + ws.last() =~= w + " "@ + (front + " "@ + ws.last()));
    }
}

/// The word at the start of a text, if whitespace or nothing comes after it.
proof fn lemma_first_word(s: Seq<char>, w: Seq<char>, p: int)
    requires
        0 <= p <= w.len() <= s.len(),
        forall|i: int| 0 <= i < w.len() ==> s[i] == #[trigger] w[i] && !text::is_white(w[i]),
        w.len() < s.len() ==> text::is_white(s[w.len() as int]),
    ensures
        word_end(s, p) == w.len(),
    decreases w.len() - p,
{
    if p < w.len() {
        assert(s[p] == w[p]);
        lemma_first_word(s, w, p + 1);
    }
}

/// Words with a space between any two are the words of what that makes.
proof fn lemma_spaced_words(ws: Seq<Seq<char>>)
    requires
        solid(ws),
        full(ws),
    ensures
        words_from(spaced(ws), 0) == ws,
    decreases ws.len(),
{
    reveal_strlit(" ");
    let s = spaced(ws);
    if ws.len() == 0 {
        assert(words_from(s, 0) =~= ws);
    } else {
        let w = ws[0];
        let rest = ws.drop_first();
        let t = spaced(rest);
        assert(ws =~= seq![w] + rest);
        assert forall|i: int| 0 <= i < w.len() implies !text::is_white(#[trigger] w[i]) by {
            assert(!text::is_white(ws[0][i]));
        }
        if rest.len() == 0 {
            assert(s == w);
        } else {
            assert forall|i: int, j: int|
                0 <= i < rest.len() && 0 <= j < rest[i].len() implies !text::is_white(
                #[trigger] rest[i][j],
            ) by {
                assert(rest[i] == ws[i + 1]);
                assert(!text::is_white(ws[i + 1][j]));
            }
            assert forall|i: int| 0 <= i < rest.len() implies (#[trigger] rest[i]).len() > 0 by {
                assert(ws[i + 1].len() > 0);
            }
            lemma_spaced_first(w, rest);
            assert(s == w + " "@ + t);
            lemma_spaced_words(rest);
            lemma_words_further(s, w.len() as int + 1, t, 0);
        }
        assert(ws[0].len() > 0);
        assert(s[0] == w[0]);
        lemma_first_word(s, w, 0);
        assert(s.subrange(0, w.len() as int) =~= w);
        let end = w.len() as int;
        assert(words_from(s, 0) == seq![w] + words_from(s, end));
        if rest.len() == 0 {
            assert(words_from(s, end) =~= rest);
        } else {
            assert(words_from(s, end) == words_from(s, end + 1));
        }
    }
}

/// What is put on one line keeps its words, in their order; and putting it on
/// one line again changes nothing.
pub proof fn law_one_line_keeps_the_words(s: Seq<char>)
    ensures
        words_from(one_line(s), 0) == words_from(s, 0),
        one_line(one_line(s)) == one_line(s),
{
    lemma_words_are_solid(s, 0);
    lemma_spaced_words(words_from(s, 0));
}

/// What stands on one line holds no whitespace but spaces; so a comment that
/// it is put into ends where that line does.
pub proof fn law_one_line(s: Seq<char>)
    ensures
        forall|k: int|
            0 <= k < one_line(s).len() && text::is_white(#[trigger] one_line(s)[k]) ==> one_line(
                s,
            )[k] == ' ',
        !one_line(s).contains('\n'),
{
    lemma_words_are_solid(s, 0);
    lemma_spaced_white(words_from(s, 0));
    if one_line(s).contains('\n') {
        let k = one_line(s).index_of('\n');
        assert(text::is_white(one_line(s)[k]));
    }
}

/// The words of `s` on one line.
pub fn oneline(s: &str) -> (r: String)
    ensures
        r@ == one_line(s@),
{
    let cs = text::chars_of(s);
    let mut out = String::new();
    let ghost mut done: Seq<Seq<char>> = Seq::empty();
    let mut first = true;
    let mut i: usize = 0;
    proof {
        assert(done + words_from(s@, 0) =~= words_from(s@, 0));
    }
    while i < cs.len()
        invariant
            cs@ == s@,
            i <= cs@.len(),
            out@ == spaced(done),
            first == (done.len() == 0),
            words_from(s@, 0) == done + words_from(s@, i as int),
        decreases cs@.len() - i,
    {
        if text::white(cs[i]) {
            i = i + 1;
        } else {
            let mut end: usize = i;
            while end < cs.len() && !text::white(cs[end])
                invariant
                    cs@ == s@,
                    i <= end <= cs@.len(),
                    word_end(s@, i as int) == word_end(s@, end as int),
                decreases cs@.len() - end,
            {
                end = end + 1;
            }
            let word = text::piece(&cs, i, end);
            let ghost rest = words_from(s@, end as int);
            proof {
                lemma_word_end(s@, i as int);
                lemma_word_end(s@, i + 1);
                assert(words_from(s@, i as int) == seq![word@] + rest);
                assert(done + (seq![word@] + rest) =~= done.push(word@) + rest);
                assert(done.push(word@).drop_last() =~= done);
            }
            if first {
                out = word;
                first = false;
            } else {
                out.append(" ");
                out.append(word.as_str());
            }
            proof {
                done = done.push(word@);
            }
            i = end;
        }
    }
    proof {
        assert(done + words_from(s@, i as int) =~= done);
    }
    out
}

/// An expression as source, on one line.
pub open spec fn short_text(m: NumberModel, e: SpecExpr) -> Seq<char> {
    one_line(expr_text(m, e))
}

fn short_expr<N: Numbers>(expr: &Expr, nums: &N) -> (r: String)
    ensures
        forall|m: NumberModel| #[trigger]
            number::computes(*nums, m) ==> r@ == short_text(m, expr@),
{
    oneline(display_expr(expr, nums).as_str())
}

/// Whether a value or a formula can be written: its numbers are finite, and
/// none is the negative zero, for which there is no literal.
pub open spec fn has_source(e: SpecExpr) -> bool
    decreases e,
{
    match e {
        SpecExpr::Float(n) => number::is_finite(n) && n != number::SIGN,
        SpecExpr::Binary { lhs, rhs, .. } => has_source(*lhs) && has_source(*rhs),
        SpecExpr::If { condition, then_branch, else_branch } => has_source(*condition)
            && has_source(*then_branch) && has_source(*else_branch),
        _ => true,
    }
}

fn can_write(e: &Expr) -> (r: bool)
    ensures
        r == has_source(e@),
    decreases *e,
{
    match e {
        Expr::Float(n) => number::finite(*n) && *n != number::SIGN,
        Expr::Binary { lhs, rhs, .. } => can_write(&**lhs) && can_write(&**rhs),
        Expr::If { condition, then_branch, else_branch } => can_write(&**condition) && can_write(
            &**then_branch,
        ) && can_write(&**else_branch),
        _ => true,
    }
}

/// A top-level statement as it stands in a `.fic` file. A literal becomes a
/// param, a frozen value or a formula stands in for the expression that it
/// came from where it can be written, and everything else stays as it was.
pub open spec fn top_text(m: NumberModel, d: SpecDag, s: SpecStmt) -> Seq<char> {
    match s {
        SpecStmt::Assign { name, mutable, .. } => match graph::node_of(d, name) {
            Some(node) => match node.op {
                SpecOperation::Param { default } => keyword(mutable) + name
                    + " = param();  # was: "@ + name + " = "@ + short_text(m, default) + ";\n"@,
                SpecOperation::Fixed { value, original } => if has_source(graph::lit_expr(value)) {
                    keyword(mutable) + name + " = "@ + expr_text(m, graph::lit_expr(value))
                        + ";  # frozen from one full run (was: "@ + name + " = "@ + short_text(
                        m,
                        original,
                    ) + ";)\n"@
                } else {
                    stmt_text(m, s, ""@)
                },
                SpecOperation::Formula { expr, original } => if has_source(expr) {
                    keyword(mutable) + name + " = "@ + expr_text(m, expr)
                        + ";  # unrolled formula (was: "@ + name + " = "@ + short_text(m, original)
                        + ";)\n"@
                } else {
                    stmt_text(m, s, ""@)
                },
                _ => stmt_text(m, s, ""@),
            },
            None => stmt_text(m, s, ""@),
        },
        _ => stmt_text(m, s, ""@),
    }
}

fn render_top<N: Numbers>(stmt: &Stmt, dag: &Dag, nums: &N) -> (r: String)
    requires
        graph::dag_wf(dag@),
    ensures
        forall|m: NumberModel| #[trigger]
            number::computes(*nums, m) ==> r@ == top_text(m, dag@, stmt@),
{
    if let Stmt::Assign { name, mutable, .. } = stmt {
        if let Some(node) = dag.get(name.as_str()) {
            let mut out = keyword_text(*mutable).to_owned();
            match &node.op {
                Operation::Param { default } => {
                    out.append(name.as_str());
                    out.append(" = param();  # was: ");
                    out.append(name.as_str());
                    out.append(" = ");
                    out.append(short_expr(default, nums).as_str());
                    out.append(";\n");
                    return out;
                },
                Operation::Fixed { value, original } => {
                    let literal = value.to_expr();
                    if can_write(&literal) {
                        out.append(name.as_str());
                        out.append(" = ");
                        out.append(display_expr(&literal, nums).as_str());
                        out.append(";  # frozen from one full run (was: ");
                        out.append(name.as_str());
                        out.append(" = ");
                        out.append(short_expr(original, nums).as_str());
                        out.append(";)\n");
                        return out;
                    }
                },
                Operation::Formula { expr, original } => {
                    if can_write(expr) {
                        out.append(name.as_str());
                        out.append(" = ");
                        out.append(display_expr(expr, nums).as_str());
                        out.append(";  # unrolled formula (was: ");
                        out.append(name.as_str());
                        out.append(" = ");
                        out.append(short_expr(original, nums).as_str());
                        out.append(";)\n");
                        return out;
                    }
                },
                _ => {},
            }
        }
    }
    render_stmt(stmt, "", nums)
}

/// The heading of the nodes of one kind.
pub open spec fn heading(k: OperationKind) -> Seq<char> {
    match k {
        OperationKind::Param => "# Parameters (all required; fill in with --name=value):\n"@,
        OperationKind::Ticker => {
            "# Hardcoded ticker fetches (not parameterized -- these are baked in):\n"@
        },
        OperationKind::Fixed => "# Frozen constants (computed once; no loop runs again):\n"@,
        OperationKind::Formula => {
            "# Unrolled formulas (pure functions of param(s); no loop runs again):\n"@
        },
        OperationKind::Mutable => {
            "# `mut` bindings (reassigned over their lifetime, never parameterized):\n"@
        },
        OperationKind::Live => "# Live nodes (still run their original code every time):\n"@,
    }
}

fn heading_text(k: OperationKind) -> (r: &'static str)
    ensures
        r@ == heading(k),
{
    match k {
        OperationKind::Param => "# Parameters (all required; fill in with --name=value):\n",
        OperationKind::Ticker => {
            "# Hardcoded ticker fetches (not parameterized -- these are baked in):\n"
        },
        OperationKind::Fixed => "# Frozen constants (computed once; no loop runs again):\n",
        OperationKind::Formula => {
            "# Unrolled formulas (pure functions of param(s); no loop runs again):\n"
        },
        OperationKind::Mutable => {
            "# `mut` bindings (reassigned over their lifetime, never parameterized):\n"
        },
        OperationKind::Live => "# Live nodes (still run their original code every time):\n",
    }
}

/// The line for one node.
pub open spec fn node_line(m: NumberModel, n: SpecNode) -> Seq<char> {
    match n.op {
        SpecOperation::Param { default } => "#   --"@ + n.name + " (was: "@ + short_text(m, default)
            + ")\n"@,
        SpecOperation::Ticker { symbol } => "#   "@ + n.name + " = t<"@ + symbol + ">\n"@,
        SpecOperation::Fixed { value, original } => "#   "@ + n.name + " = "@ + expr_text(
            m,
            graph::lit_expr(value),
        ) + "  (was: "@ + short_text(m, original) + ")\n"@,
        SpecOperation::Formula { expr, original } => "#   "@ + n.name + " = "@ + short_text(m, expr)
            + "  (was: "@ + short_text(m, original) + ")\n"@,
        SpecOperation::Mutable { expr } => "#   "@ + n.name + " = "@ + short_text(m, expr) + "\n"@,
        SpecOperation::Live { expr, reason } => "#   "@ + n.name + " -- "@ + graph::reason_text(
            reason,
        ) + " (was: "@ + short_text(m, expr) + ")\n"@,
    }
}

fn render_node<N: Numbers>(node: &DagNode, nums: &N) -> (r: String)
    ensures
        forall|m: NumberModel| #[trigger]
            number::computes(*nums, m) ==> r@ == node_line(m, node@),
{
    match &node.op {
        Operation::Param { default } => {
            let mut out = "#   --".to_owned();
            out.append(node.name.as_str());
            out.append(" (was: ");
            out.append(short_expr(default, nums).as_str());
            out.append(")\n");
            out
        },
        Operation::Ticker { symbol } => {
            let mut out = "#   ".to_owned();
            out.append(node.name.as_str());
            out.append(" = t<");
            out.append(symbol.as_str());
            out.append(">\n");
            out
        },
        Operation::Fixed { value, original } => {
            let mut out = "#   ".to_owned();
            out.append(node.name.as_str());
            out.append(" = ");
            out.append(display_expr(&value.to_expr(), nums).as_str());
            out.append("  (was: ");
            out.append(short_expr(original, nums).as_str());
            out.append(")\n");
            out
        },
        Operation::Formula { expr, original } => {
            let mut out = "#   ".to_owned();
            out.append(node.name.as_str());
            out.append(" = ");
            out.append(short_expr(expr, nums).as_str());
            out.append("  (was: ");
            out.append(short_expr(original, nums).as_str());
            out.append(")\n");
            out
        },
        Operation::Mutable { expr } => {
            let mut out = "#   ".to_owned();
            out.append(node.name.as_str());
            out.append(" = ");
            out.append(short_expr(expr, nums).as_str());
            out.append("\n");
            out
        },
        Operation::Live { expr, reason } => {
            let mut out = "#   ".to_owned();
            out.append(node.name.as_str());
            out.append(" -- ");
            out.append(reason.to_text().as_str());
            out.append(" (was: ");
            out.append(short_expr(expr, nums).as_str());
            out.append(")\n");
            out
        },
    }
}

/// The lines for the first `n` nodes.
pub open spec fn node_lines(m: NumberModel, ns: Seq<SpecNode>, n: int) -> Seq<char>
    decreases n,
{
    if n <= 0 || n > ns.len() {
        Seq::empty()
    } else {
        node_lines(m, ns, n - 1) + node_line(m, ns[n - 1])
    }
}

/// The part of the header about the nodes of one kind: empty where there are
/// none.
pub open spec fn section(m: NumberModel, d: SpecDag, k: OperationKind) -> Seq<char> {
    let ns = graph::nodes_of_kind(d, k);
    if ns.len() == 0 {
        Seq::empty()
    } else {
        "#\n"@ + heading(k) + node_lines(m, ns, ns.len() as int)
    }
}

fn render_section<N: Numbers>(dag: &Dag, k: OperationKind, nums: &N) -> (r: String)
    requires
        graph::dag_wf(dag@),
    ensures
        forall|m: NumberModel| #[trigger]
            number::computes(*nums, m) ==> r@ == section(m, dag@, k),
{
    let nodes = dag.latest(k);
    let ghost ns = graph::nodes_of_kind(dag@, k);
    proof {
        assert(graph::nodes_view(nodes@).len() == nodes@.len());
    }
    if nodes.len() == 0 {
        return String::new();
    }
    let mut lines = String::new();
    let mut i: usize = 0;
    while i < nodes.len()
        invariant
            i <= nodes@.len(),
            ns == graph::nodes_view(nodes@),
            forall|m: NumberModel| #[trigger]
                number::computes(*nums, m) ==> lines@ == node_lines(m, ns, i as int),
        decreases nodes@.len() - i,
    {
        proof {
            assert(ns[i as int] == nodes@[i as int]@);
        }
        lines.append(render_node(nodes[i], nums).as_str());
        i = i + 1;
    }
    let mut out = "#\n".to_owned();
    out.append(heading_text(k));
    out.append(lines.as_str());
    out
}

/// The first `n` top-level statements as they stand in a `.fic` file.
pub open spec fn tops_text(m: NumberModel, d: SpecDag, ss: Seq<SpecStmt>, n: int) -> Seq<char>
    decreases n,
{
    if n <= 0 || n > ss.len() {
        Seq::empty()
    } else {
        tops_text(m, d, ss, n - 1) + top_text(m, d, ss[n - 1])
    }
}

/// The comments at the head of a `.fic` file.
pub open spec fn header(m: NumberModel, d: SpecDag) -> Seq<char> {
    "# Auto-generated DAG file -- do not hand-edit unless you mean to.\n"@
        + "# Regenerate it by re-running the original .fi program.\n"@ + section(
        m,
        d,
        OperationKind::Param,
    ) + section(m, d, OperationKind::Ticker) + section(m, d, OperationKind::Fixed) + section(
        m,
        d,
        OperationKind::Formula,
    ) + section(m, d, OperationKind::Mutable) + section(m, d, OperationKind::Live) + "\n"@
}

/// A program and its graph as a `.fic` file.
pub open spec fn file_text(m: NumberModel, prog: Seq<SpecStmt>, d: SpecDag) -> Seq<char> {
    header(m, d) + tops_text(m, d, prog, prog.len() as int)
}

/// A program and its graph as a `.fic` file: comments that say what was
/// learnt, and the program with what could be frozen frozen.
pub fn render_dag_file<N: Numbers>(program: &Program, dag: &Dag, nums: &N) -> (r: String)
    requires
        graph::dag_wf(dag@),
    ensures
        forall|m: NumberModel| #[trigger]
            number::computes(*nums, m) ==> r@ == file_text(m, ast::stmts_view(program@), dag@),
{
    let ghost prog = ast::stmts_view(program@);
    let mut out = "# Auto-generated DAG file -- do not hand-edit unless you mean to.\n".to_owned();
    out.append("# Regenerate it by re-running the original .fi program.\n");
    out.append(render_section(dag, OperationKind::Param, nums).as_str());
    out.append(render_section(dag, OperationKind::Ticker, nums).as_str());
    out.append(render_section(dag, OperationKind::Fixed, nums).as_str());
    out.append(render_section(dag, OperationKind::Formula, nums).as_str());
    out.append(render_section(dag, OperationKind::Mutable, nums).as_str());
    out.append(render_section(dag, OperationKind::Live, nums).as_str());
    out.append("\n");
    let mut tops = String::new();
    let mut i: usize = 0;
    while i < program.len()
        invariant
            i <= program@.len(),
            prog == ast::stmts_view(program@),
            graph::dag_wf(dag@),
            forall|m: NumberModel| #[trigger]
                number::computes(*nums, m) ==> tops@ == tops_text(m, dag@, prog, i as int),
        decreases program@.len() - i,
    {
        proof {
            assert(prog[i as int] == program@[i as int]@);
        }
        tops.append(render_top(&program[i], dag, nums).as_str());
        i = i + 1;
    }
    out.append(tops.as_str());
    out
}

/// How a node is drawn: its shape, its colour, and what stands behind its
/// name.
pub open spec fn node_style(op: SpecOperation) -> (Seq<char>, Seq<char>, Seq<char>) {
    match op {
        SpecOperation::Param { .. } => ("box"@, "lightblue"@, " (param)"@),
        SpecOperation::Ticker { symbol } => ("box"@, "gold"@, " (t<"@ + symbol + ">)"@),
        SpecOperation::Mutable { .. } => ("box"@, "lightgray"@, " (mut)"@),
        SpecOperation::Fixed { .. } => ("ellipse"@, "palegreen"@, " (fixed)"@),
        SpecOperation::Formula { .. } => ("ellipse"@, "khaki"@, " (formula)"@),
        SpecOperation::Live { reason, .. } => (
            "ellipse"@,
            "lightpink"@,
            " (live: "@ + graph::reason_text(reason) + ")"@,
        ),
    }
}

fn style_of(op: &Operation) -> (r: (String, String, String))
    ensures
        (r.0@, r.1@, r.2@) == node_style(op@),
{
    match op {
        Operation::Param { .. } => ("box".to_owned(), "lightblue".to_owned(), " (param)".to_owned()),
        Operation::Ticker { symbol } => {
            let mut suffix = " (t<".to_owned();
            suffix.append(symbol.as_str());
            suffix.append(">)");
            ("box".to_owned(), "gold".to_owned(), suffix)
        },
        Operation::Mutable { .. } => ("box".to_owned(), "lightgray".to_owned(), " (mut)".to_owned()),
        Operation::Fixed { .. } => (
            "ellipse".to_owned(),
            "palegreen".to_owned(),
            " (fixed)".to_owned(),
        ),
        Operation::Formula { .. } => (
            "ellipse".to_owned(),
            "khaki".to_owned(),
            " (formula)".to_owned(),
        ),
        Operation::Live { reason, .. } => {
            let mut suffix = " (live: ".to_owned();
            suffix.append(reason.to_text().as_str());
            suffix.append(")");
            ("ellipse".to_owned(), "lightpink".to_owned(), suffix)
        },
    }
}

/// The line that declares a node.
pub open spec fn dot_node(n: SpecNode) -> Seq<char> {
    let (shape, color, suffix) = node_style(n.op);
    "  n"@ + text::decimal(n.id as nat) + " [label=\""@ + n.name + suffix + "\" shape="@ + shape
        + " style=filled fillcolor="@ + color + "];\n"@
}

/// The lines that declare the first `n` nodes.
pub open spec fn dot_nodes(ns: Seq<SpecNode>, n: int) -> Seq<char>
    decreases n,
{
    if n <= 0 || n > ns.len() {
        Seq::empty()
    } else {
        dot_nodes(ns, n - 1) + dot_node(ns[n - 1])
    }
}

/// The lines for the edges from the first `n` of `deps` to the node `id`.
pub open spec fn dot_deps(deps: Seq<usize>, n: int, id: usize) -> Seq<char>
    decreases n,
{
    if n <= 0 || n > deps.len() {
        Seq::empty()
    } else {
        dot_deps(deps, n - 1, id) + ("  n"@ + text::decimal(deps[n - 1] as nat) + " -> n"@
            + text::decimal(id as nat) + ";\n"@)
    }
}

/// The lines for the edges to the first `n` nodes.
pub open spec fn dot_edges(ns: Seq<SpecNode>, n: int) -> Seq<char>
    decreases n,
{
    if n <= 0 || n > ns.len() {
        Seq::empty()
    } else {
        dot_edges(ns, n - 1) + dot_deps(ns[n - 1].deps, ns[n - 1].deps.len() as int, ns[n - 1].id)
    }
}

/// A graph for Graphviz.
pub open spec fn dot_text(d: SpecDag) -> Seq<char> {
    "digraph fin_dag {\n"@ + "  rankdir=LR;\n"@ + dot_nodes(d.nodes, d.nodes.len() as int)
        + dot_edges(d.nodes, d.nodes.len() as int) + "}\n"@
}

fn render_dot_node(node: &DagNode) -> (r: String)
    ensures
        r@ == dot_node(node@),
{
    let (shape, color, suffix) = style_of(&node.op);
    let mut out = "  n".to_owned();
    out.append(text::usize_text(node.id).as_str());
    out.append(" [label=\"");
    out.append(node.name.as_str());
    out.append(suffix.as_str());
    out.append("\" shape=");
    out.append(shape.as_str());
    out.append(" style=filled fillcolor=");
    out.append(color.as_str());
    out.append("];\n");
    out
}

fn render_dot_deps(node: &DagNode) -> (r: String)
    ensures
        r@ == dot_deps(node@.deps, node@.deps.len() as int, node.id),
{
    let mut out = String::new();
    let mut i: usize = 0;
    while i < node.deps.len()
        invariant
            i <= node.deps@.len(),
            out@ == dot_deps(node.deps@, i as int, node.id),
        decreases node.deps@.len() - i,
    {
        let mut line = "  n".to_owned();
        line.append(text::usize_text(node.deps[i]).as_str());
        line.append(" -> n");
        line.append(text::usize_text(node.id).as_str());
        line.append(";\n");
        out.append(line.as_str());
        i = i + 1;
    }
    out
}

impl Dag {
    /// The graph for Graphviz.
    pub fn to_dot(&self) -> (r: String)
        ensures
            r@ == dot_text(self@),
    {
        let ghost ns = self@.nodes;
        let mut nodes = String::new();
        let mut edges = String::new();
        let mut i: usize = 0;
        while i < self.nodes.len()
            invariant
                i <= self.nodes@.len(),
                ns == self@.nodes,
                nodes@ == dot_nodes(ns, i as int),
                edges@ == dot_edges(ns, i as int),
            decreases self.nodes@.len() - i,
        {
            proof {
                assert(ns[i as int] == self.nodes@[i as int]@);
            }
            nodes.append(render_dot_node(&self.nodes[i]).as_str());
            edges.append(render_dot_deps(&self.nodes[i]).as_str());
            i = i + 1;
        }
        let mut out = "digraph fin_dag {\n".to_owned();
        out.append("  rankdir=LR;\n");
        out.append(nodes.as_str());
        out.append(edges.as_str());
        out.append("}\n");
        out
    }
}

} // verus!
