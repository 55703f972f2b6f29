//! A written `.fic` file reads as the program that it is for.

#[allow(unused_imports)]
use crate::ast::{SpecExpr, SpecStmt};
#[allow(unused_imports)]
use crate::grammar;
#[allow(unused_imports)]
use crate::graph::{self, OperationKind, SpecDag, SpecNode, SpecOperation};
#[allow(unused_imports)]
use crate::lexer;
#[allow(unused_imports)]
use crate::number::NumberModel;
#[allow(unused_imports)]
use crate::reading;
#[allow(unused_imports)]
use crate::reading::marks;
#[allow(unused_imports)]
use crate::reading::trees;
#[allow(unused_imports)]
use crate::render;
#[allow(unused_imports)]
use crate::spelling;
#[allow(unused_imports)]
use crate::token::SpecToken;
use vstd::prelude::*;

verus! {

// ---- comments -------------------------------------------------------------

/// Whether a text is the end of a line.
pub open spec fn line_end(t: Seq<char>) -> bool {
    &&& t.len() > 0
    &&& t.last() == '\n'
    &&& forall|i: int| 0 <= i < t.len() - 1 ==> #[trigger] t[i] != '\n'
}

/// A comment reads as nothing.
proof fn read_line(m: NumberModel, s: Seq<char>, p: int, a: Seq<char>, b: Seq<char>)
    requires
        reading::at(s, p, a + b),
        a.len() > 0,
        a[0] == '#',
        reading::flat(a),
        line_end(b),
    ensures
        reading::reads(m, s, p, Seq::empty(), p + a.len() + b.len()),
{
    let t = a + b;
    let q = p + t.len() - 1;
    reading::at_bounds(s, p, t);
    reading::at_char(s, p, t, 0);
    reading::at_char(s, p, t, t.len() - 1);
    assert forall|i: int| p <= i < q implies #[trigger] s[i] != '\n' by {
        reading::at_char(s, p, t, i - p);
        if i - p < a.len() {
            assert(t[i - p] == a[i - p]);
        } else {
            assert(t[i - p] == b[i - p - a.len()]);
        }
    }
    assert(t[t.len() - 1] == b[b.len() - 1]);
    reading::read_comment(m, s, p, q);
}

pub(crate) proof fn lemma_flat(a: Seq<char>, b: Seq<char>)
    requires
        reading::flat(a),
        reading::flat(b),
    ensures
        reading::flat(a + b),
{
    let t = a + b;
    assert forall|i: int| 0 <= i < t.len() implies #[trigger] t[i] != '\n' by {
        if i < a.len() {
            assert(t[i] == a[i]);
        } else {
            assert(t[i] == b[i - a.len()]);
        }
    }
}

pub(crate) proof fn lemma_name_flat(t: Seq<char>)
    requires
        reading::is_name(t),
    ensures
        reading::flat(t),
{
    assert forall|i: int| 0 <= i < t.len() implies #[trigger] t[i] != '\n' by {
        assert(lexer::ident_continue(t[i]));
    }
}

proof fn lemma_short_flat(m: NumberModel, e: SpecExpr)
    ensures
        reading::flat(render::short_text(m, e)),
{
    let t = render::short_text(m, e);
    render::law_one_line(render::expr_text(m, e));
    assert forall|i: int| 0 <= i < t.len() implies #[trigger] t[i] != '\n' by {
        if t[i] == '\n' {
            assert(t.contains('\n'));
        }
    }
}

// ---- the statements of a file ----------------------------------------------

proof fn mark_param(m: NumberModel, s: Seq<char>, p: int)
    requires
        reading::at(s, p, " = param();  "@),
    ensures
        " = param();  "@.len() == 13,
        reading::calm(s, p),
        reading::reads(
            m,
            s,
            p,
            seq![SpecToken::Equals, SpecToken::Ident("param"@), SpecToken::LParen, SpecToken::RParen, SpecToken::Semicolon],
            p + 13,
        ),
{
    reveal_strlit(" = param();  ");
    reveal_strlit("param");
    let t = " = param();  "@;
    reading::at_chars(s, p, t);
    reading::read_blank(m, s, p);
    reading::read_symbol(m, s, p + 1, SpecToken::Equals);
    reading::join_left(m, s, p, p + 1, seq![SpecToken::Equals], p + 2);
    reading::read_blank(m, s, p + 2);
    reading::join_right(m, s, p, seq![SpecToken::Equals], p + 2, p + 3);
    reading::at_part(s, p, t, 3, "param"@);
    reading::read_name(m, s, p + 3, "param"@);
    reading::join(m, s, p, seq![SpecToken::Equals], p + 3, seq![SpecToken::Ident("param"@)], p + 8);
    assert(seq![SpecToken::Equals] + seq![SpecToken::Ident("param"@)]
        =~= seq![SpecToken::Equals, SpecToken::Ident("param"@)]);
    reading::read_symbol(m, s, p + 8, SpecToken::LParen);
    reading::join(
        m,
        s,
        p,
        seq![SpecToken::Equals, SpecToken::Ident("param"@)],
        p + 8,
        seq![SpecToken::LParen],
        p + 9,
    );
    assert(seq![SpecToken::Equals, SpecToken::Ident("param"@)] + seq![SpecToken::LParen]
        =~= seq![SpecToken::Equals, SpecToken::Ident("param"@), SpecToken::LParen]);
    reading::read_symbol(m, s, p + 9, SpecToken::RParen);
    reading::join(
        m,
        s,
        p,
        seq![SpecToken::Equals, SpecToken::Ident("param"@), SpecToken::LParen],
        p + 9,
        seq![SpecToken::RParen],
        p + 10,
    );
    assert(seq![SpecToken::Equals, SpecToken::Ident("param"@), SpecToken::LParen] + seq![SpecToken::RParen]
        =~= seq![SpecToken::Equals, SpecToken::Ident("param"@), SpecToken::LParen, SpecToken::RParen]);
    reading::read_symbol(m, s, p + 10, SpecToken::Semicolon);
    reading::join(
        m,
        s,
        p,
        seq![SpecToken::Equals, SpecToken::Ident("param"@), SpecToken::LParen, SpecToken::RParen],
        p + 10,
        seq![SpecToken::Semicolon],
        p + 11,
    );
    assert(seq![SpecToken::Equals, SpecToken::Ident("param"@), SpecToken::LParen, SpecToken::RParen] + seq![SpecToken::Semicolon]
        =~= seq![SpecToken::Equals, SpecToken::Ident("param"@), SpecToken::LParen, SpecToken::RParen, SpecToken::Semicolon]);
    reading::read_blank(m, s, p + 11);
    reading::join_right(
        m,
        s,
        p,
        seq![SpecToken::Equals, SpecToken::Ident("param"@), SpecToken::LParen, SpecToken::RParen, SpecToken::Semicolon],
        p + 11,
        p + 12,
    );
    reading::read_blank(m, s, p + 12);
    reading::join_right(
        m,
        s,
        p,
        seq![SpecToken::Equals, SpecToken::Ident("param"@), SpecToken::LParen, SpecToken::RParen, SpecToken::Semicolon],
        p + 12,
        p + 13,
    );
}

proof fn mark_semicolon(m: NumberModel, s: Seq<char>, p: int)
    requires
        reading::at(s, p, ";  "@),
    ensures
        ";  "@.len() == 3,
        reading::calm(s, p),
        reading::reads(m, s, p, seq![SpecToken::Semicolon], p + 3),
{
    reveal_strlit(";  ");
    let t = ";  "@;
    reading::at_chars(s, p, t);
    reading::read_symbol(m, s, p, SpecToken::Semicolon);
    reading::read_blank(m, s, p + 1);
    reading::join_right(m, s, p, seq![SpecToken::Semicolon], p + 1, p + 2);
    reading::read_blank(m, s, p + 2);
    reading::join_right(m, s, p, seq![SpecToken::Semicolon], p + 2, p + 3);
}

/// A top-level statement as a `.fic` file has it: a literal becomes a param, a
/// frozen value or a formula stands in for the expression that it came from
/// where it can be written.
pub open spec fn frozen(d: SpecDag, x: SpecStmt) -> SpecStmt {
    match x {
        SpecStmt::Assign { name, mutable, .. } => match graph::node_of(d, name) {
            Some(node) => match node.op {
                SpecOperation::Param { .. } => SpecStmt::Assign {
                    name,
                    value: SpecExpr::Call { name: "param"@, args: Seq::empty() },
                    mutable,
                },
                SpecOperation::Fixed { value, .. } => if render::has_source(
                    graph::lit_expr(value),
                ) {
                    SpecStmt::Assign { name, value: graph::lit_expr(value), mutable }
                } else {
                    x
                },
                SpecOperation::Formula { expr, .. } => if render::has_source(expr) {
                    SpecStmt::Assign { name, value: expr, mutable }
                } else {
                    x
                },
                _ => x,
            },
            None => x,
        },
        _ => x,
    }
}

/// The program of a `.fic` file.
pub open spec fn frozen_program(d: SpecDag, prog: Seq<SpecStmt>) -> Seq<SpecStmt> {
    Seq::new(prog.len(), |i: int| frozen(d, prog[i]))
}

/// What stands before the comment in a statement whose value was replaced.
proof fn read_replaced(
    m: NumberModel,
    s: Seq<char>,
    p: int,
    name: Seq<char>,
    value: SpecExpr,
    mutable: bool,
)
    requires
        reading::at(
            s,
            p,
            render::keyword(mutable) + name + " = "@ + render::expr_text(m, value) + ";  "@,
        ),
        reading::is_name(name),
        spelling::plain(m, value),
        trees::legible_expr(value),
    ensures
        reading::reads(
            m,
            s,
            p,
            spelling::stmt_tokens(m, (SpecStmt::Assign { name, value, mutable })),
            p + render::keyword(mutable).len() + name.len() + 3 + render::expr_text(m, value).len()
                + 3,
        ),
{
    let kw = render::keyword(mutable);
    let t = render::expr_text(m, value);
    reveal_strlit(" = ");
    reading::at_split(s, p, kw + name + " = "@ + t, ";  "@);
    reading::at_split(s, p, kw + name + " = "@, t);
    reading::at_split(s, p, kw + name, " = "@);
    reading::at_split(s, p, kw, name);
    let p1 = p + kw.len();
    let p2 = p1 + name.len();
    let p3 = p2 + 3;
    let p4 = p3 + t.len();
    assert(Seq::<char>::empty() + kw =~= kw);
    trees::read_keyword(m, s, p, Seq::empty(), mutable);
    marks::mark_equals(m, s, p2);
    mark_semicolon(m, s, p4);
    reading::read_name(m, s, p1, name);
    trees::read_expr_text(m, s, p3, value);
    let x0 = spelling::mut_tokens(mutable);
    let id = seq![SpecToken::Ident(name)];
    let eq = seq![SpecToken::Equals];
    let xs = spelling::expr_tokens(m, value);
    reading::join(m, s, p1, id, p2, eq, p3);
    assert(id + eq =~= seq![SpecToken::Ident(name), SpecToken::Equals]);
    reading::join(m, s, p, x0, p1, id + eq, p3);
    reading::join(m, s, p, x0 + (id + eq), p3, xs, p4);
    reading::join(m, s, p, x0 + (id + eq) + xs, p4, seq![SpecToken::Semicolon], p4 + 3);
}

proof fn read_param(m: NumberModel, s: Seq<char>, p: int, name: Seq<char>, mutable: bool)
    requires
        reading::at(s, p, render::keyword(mutable) + name + " = param();  "@),
        reading::is_name(name),
    ensures
        reading::reads(
            m,
            s,
            p,
            spelling::stmt_tokens(
                m,
                (SpecStmt::Assign {
                    name,
                    value: SpecExpr::Call { name: "param"@, args: Seq::empty() },
                    mutable,
                }),
            ),
            p + render::keyword(mutable).len() + name.len() + 13,
        ),
{
    let kw = render::keyword(mutable);
    reading::at_split(s, p, kw + name, " = param();  "@);
    reading::at_split(s, p, kw, name);
    let p1 = p + kw.len();
    let p2 = p1 + name.len();
    assert(Seq::<char>::empty() + kw =~= kw);
    trees::read_keyword(m, s, p, Seq::empty(), mutable);
    mark_param(m, s, p2);
    reading::read_name(m, s, p1, name);
    let x0 = spelling::mut_tokens(mutable);
    let id = seq![SpecToken::Ident(name)];
    let rest = seq![
        SpecToken::Equals,
        SpecToken::Ident("param"@),
        SpecToken::LParen,
        SpecToken::RParen,
        SpecToken::Semicolon,
    ];
    reading::join(m, s, p, x0, p1, id, p2);
    reading::join(m, s, p, x0 + id, p2, rest, p2 + 13);
    let no_args = Seq::<SpecExpr>::empty();
    let call = SpecExpr::Call { name: "param"@, args: no_args };
    let stmt = SpecStmt::Assign { name, value: call, mutable };
    assert(spelling::list_tokens(m, no_args, 0) == Seq::<SpecToken>::empty());
    assert(spelling::expr_tokens(m, call) =~= seq![
        SpecToken::Ident("param"@),
        SpecToken::LParen,
        SpecToken::RParen,
    ]);
    assert(spelling::stmt_tokens(m, stmt) =~= x0 + id + rest);
}

/// A top-level statement of a file reads as the tokens that spell it.
proof fn read_top(m: NumberModel, d: SpecDag, s: Seq<char>, p: int, x: SpecStmt)
    requires
        reading::at(s, p, render::top_text(m, d, x)),
        spelling::plain_stmt(m, frozen(d, x)),
        trees::legible_stmt(frozen(d, x)),
    ensures
        reading::reads(
            m,
            s,
            p,
            spelling::stmt_tokens(m, frozen(d, x)),
            p + render::top_text(m, d, x).len(),
        ),
{
    reveal_strlit("");
    if let SpecStmt::Assign { name, mutable, .. } = x {
        if let Some(node) = graph::node_of(d, name) {
            let kw = render::keyword(mutable);
            match node.op {
                SpecOperation::Param { default } => {
                    read_param_line(m, s, p, name, default, mutable);
                },
                SpecOperation::Fixed { value, original } if render::has_source(
                    graph::lit_expr(value),
                ) => {
                    let v = graph::lit_expr(value);
                    let r = ";  # frozen from one full run (was: "@;
                    reveal_strlit(";  # frozen from one full run (was: ");
                    reveal_strlit("# frozen from one full run (was: ");
                    assert(r =~= ";  "@ + "# frozen from one full run (was: "@) by {
                        reveal_strlit(";  ");
                    }
                    assert(reading::flat("# frozen from one full run (was: "@));
                    read_replaced_line(
                        m,
                        s,
                        p,
                        name,
                        v,
                        mutable,
                        r,
                        "# frozen from one full run (was: "@,
                        original,
                    );
                },
                SpecOperation::Formula { expr, original } if render::has_source(expr) => {
                    let r = ";  # unrolled formula (was: "@;
                    reveal_strlit(";  # unrolled formula (was: ");
                    reveal_strlit("# unrolled formula (was: ");
                    assert(r =~= ";  "@ + "# unrolled formula (was: "@) by {
                        reveal_strlit(";  ");
                    }
                    assert(reading::flat("# unrolled formula (was: "@));
                    read_replaced_line(
                        m,
                        s,
                        p,
                        name,
                        expr,
                        mutable,
                        r,
                        "# unrolled formula (was: "@,
                        original,
                    );
                },
                _ => trees::read_stmt_text(m, s, p, x, ""@),
            }
        } else {
            trees::read_stmt_text(m, s, p, x, ""@);
        }
    } else {
        trees::read_stmt_text(m, s, p, x, ""@);
    }
}

proof fn read_param_line(
    m: NumberModel,
    s: Seq<char>,
    p: int,
    name: Seq<char>,
    default: SpecExpr,
    mutable: bool,
)
    requires
        reading::at(
            s,
            p,
            render::keyword(mutable) + name + " = param();  # was: "@ + name + " = "@
                + render::short_text(m, default) + ";\n"@,
        ),
        reading::is_name(name),
    ensures
        reading::reads(
            m,
            s,
            p,
            spelling::stmt_tokens(
                m,
                (SpecStmt::Assign {
                    name,
                    value: SpecExpr::Call { name: "param"@, args: Seq::empty() },
                    mutable,
                }),
            ),
            p + (render::keyword(mutable) + name + " = param();  # was: "@ + name + " = "@
                + render::short_text(m, default) + ";\n"@).len(),
        ),
{
    let kw = render::keyword(mutable);
    let short = render::short_text(m, default);
    let code = kw + name + " = param();  "@;
    let c0 = "# was: "@;
    reveal_strlit(" = param();  # was: ");
    reveal_strlit(" = param();  ");
    reveal_strlit("# was: ");
    reveal_strlit(" = ");
    reveal_strlit(";\n");
    let comment = c0 + name + " = "@ + short;
    let all = kw + name + " = param();  # was: "@ + name + " = "@ + short + ";\n"@;
    assert(" = param();  # was: "@ =~= " = param();  "@ + c0);
    assert(all =~= code + (comment + ";\n"@));
    reading::at_split(s, p, code, comment + ";\n"@);
    read_param(m, s, p, name, mutable);
    lemma_name_flat(name);
    lemma_short_flat(m, default);
    lemma_flat(c0, name);
    lemma_flat(c0 + name, " = "@);
    lemma_flat(c0 + name + " = "@, short);
    read_line(m, s, p + code.len(), comment, ";\n"@);
    reading::join_right(
        m,
        s,
        p,
        spelling::stmt_tokens(
            m,
            SpecStmt::Assign {
                name,
                value: SpecExpr::Call { name: "param"@, args: Seq::empty() },
                mutable,
            },
        ),
        p + code.len(),
        p + code.len() + comment.len() + 2,
    );
}

proof fn read_replaced_line(
    m: NumberModel,
    s: Seq<char>,
    p: int,
    name: Seq<char>,
    value: SpecExpr,
    mutable: bool,
    r: Seq<char>,
    c0: Seq<char>,
    original: SpecExpr,
)
    requires
        reading::at(
            s,
            p,
            render::keyword(mutable) + name + " = "@ + render::expr_text(m, value) + r + name
                + " = "@ + render::short_text(m, original) + ";)\n"@,
        ),
        r == ";  "@ + c0,
        reading::flat(c0),
        c0.len() > 0,
        c0[0] == '#',
        reading::is_name(name),
        spelling::plain(m, value),
        trees::legible_expr(value),
    ensures
        reading::reads(
            m,
            s,
            p,
            spelling::stmt_tokens(m, (SpecStmt::Assign { name, value, mutable })),
            p + (render::keyword(mutable) + name + " = "@ + render::expr_text(m, value) + r + name
                + " = "@ + render::short_text(m, original) + ";)\n"@).len(),
        ),
{
    let kw = render::keyword(mutable);
    let t = render::expr_text(m, value);
    let short = render::short_text(m, original);
    let code = kw + name + " = "@ + t + ";  "@;
    reveal_strlit(" = ");
    reveal_strlit(";  ");
    reveal_strlit(";)\n");
    let comment = c0 + name + " = "@ + short;
    let all = kw + name + " = "@ + t + r + name + " = "@ + short + ";)\n"@;
    assert(all =~= code + (comment + ";)\n"@));
    reading::at_split(s, p, code, comment + ";)\n"@);
    read_replaced(m, s, p, name, value, mutable);
    lemma_name_flat(name);
    lemma_short_flat(m, original);
    lemma_flat(c0, name);
    lemma_flat(c0 + name, " = "@);
    lemma_flat(c0 + name + " = "@, short);
    read_line(m, s, p + code.len(), comment, ";)\n"@);
    reading::join_right(
        m,
        s,
        p,
        spelling::stmt_tokens(m, SpecStmt::Assign { name, value, mutable }),
        p + code.len(),
        p + code.len() + comment.len() + 3,
    );
}

proof fn read_tops(m: NumberModel, d: SpecDag, s: Seq<char>, p: int, prog: Seq<SpecStmt>, n: int)
    requires
        0 <= n <= prog.len(),
        reading::at(s, p, render::tops_text(m, d, prog, n)),
        spelling::plain_stmts(m, frozen_program(d, prog)),
        trees::legible_stmts(frozen_program(d, prog)),
    ensures
        reading::reads(
            m,
            s,
            p,
            spelling::stmts_tokens(m, frozen_program(d, prog), n),
            p + render::tops_text(m, d, prog, n).len(),
        ),
    decreases n,
{
    if n == 0 {
        reading::read_nothing(m, s, p);
    } else {
        let front = render::tops_text(m, d, prog, n - 1);
        let x = prog[n - 1];
        let all = frozen_program(d, prog);
        let last = render::top_text(m, d, x);
        reading::at_split(s, p, front, last);
        read_tops(m, d, s, p, prog, n - 1);
        assert(all[n - 1] == frozen(d, x));
        assert(spelling::plain_stmt(m, all[n - 1]));
        assert(trees::legible_stmt(all[n - 1]));
        read_top(m, d, s, p + front.len(), x);
        reading::join(
            m,
            s,
            p,
            spelling::stmts_tokens(m, all, n - 1),
            p + front.len(),
            spelling::stmt_tokens(m, all[n - 1]),
            p + front.len() + last.len(),
        );
    }
}

// ---- the head of a file ------------------------------------------------------

/// Whether what the head of a file says of a node stands on one line.
pub open spec fn tidy_node(m: NumberModel, n: SpecNode) -> bool {
    &&& reading::flat(n.name)
    &&& match n.op {
        SpecOperation::Ticker { symbol } => reading::flat(symbol),
        SpecOperation::Fixed { value, .. } => reading::flat(render::expr_text(m, graph::lit_expr(value))),
        _ => true,
    }
}

/// Whether every line of the head of a file is one.
pub open spec fn tidy(m: NumberModel, d: SpecDag) -> bool {
    forall|i: int|
        0 <= i < d.env.len() ==> tidy_node(m, d.nodes[(#[trigger] d.env[i]).1 as int])
}

proof fn read_whole_line(m: NumberModel, s: Seq<char>, p: int, t: Seq<char>)
    requires
        reading::at(s, p, t),
        t.len() > 1,
        t[0] == '#',
        line_end(t),
    ensures
        reading::reads(m, s, p, Seq::empty(), p + t.len()),
{
    let a = t.drop_last();
    let b = seq![t.last()];
    assert(t =~= a + b);
    read_line(m, s, p, a, b);
}

proof fn lemma_heading(k: OperationKind)
    ensures
        render::heading(k).len() > 1,
        render::heading(k)[0] == '#',
        line_end(render::heading(k)),
{
    match k {
        OperationKind::Param => {
            reveal_strlit("# Parameters (all required; fill in with --name=value):\n");
        },
        OperationKind::Ticker => {
            reveal_strlit(
                "# Hardcoded ticker fetches (not parameterized -- these are baked in):\n",
            );
        },
        OperationKind::Fixed => {
            reveal_strlit("# Frozen constants (computed once; no loop runs again):\n");
        },
        OperationKind::Formula => {
            reveal_strlit(
                "# Unrolled formulas (pure functions of param(s); no loop runs again):\n",
            );
        },
        OperationKind::Mutable => {
            reveal_strlit(
                "# `mut` bindings (reassigned over their lifetime, never parameterized):\n",
            );
        },
        OperationKind::Live => {
            reveal_strlit("# Live nodes (still run their original code every time):\n");
        },
    }
}

proof fn lemma_reason_flat(r: graph::LiveReason)
    ensures
        reading::flat(graph::reason_text(r)),
{
    reveal_strlit("reads a ticker fetch");
    reveal_strlit("calls a function (not traced)");
    reveal_strlit("a loop's trip count depends on a param");
    reveal_strlit("a branch depends on a param and can't be reduced");
    reveal_strlit("a `mut` binding, reassigned over its lifetime");
    reveal_strlit("couldn't be reduced to a formula");
}

proof fn read_node_line(m: NumberModel, s: Seq<char>, p: int, n: SpecNode)
    requires
        reading::at(s, p, render::node_line(m, n)),
        tidy_node(m, n),
    ensures
        reading::reads(m, s, p, Seq::empty(), p + render::node_line(m, n).len()),
{
    reveal_strlit("#   --");
    reveal_strlit("#   ");
    reveal_strlit(" (was: ");
    reveal_strlit("  (was: ");
    reveal_strlit(" = ");
    reveal_strlit(" = t<");
    reveal_strlit(" -- ");
    reveal_strlit(")\n");
    reveal_strlit(">\n");
    reveal_strlit("\n");
    match n.op {
        SpecOperation::Param { default } => {
            let short = render::short_text(m, default);
            lemma_short_flat(m, default);
            lemma_flat("#   --"@, n.name);
            lemma_flat("#   --"@ + n.name, " (was: "@);
            lemma_flat("#   --"@ + n.name + " (was: "@, short);
            read_line(m, s, p, "#   --"@ + n.name + " (was: "@ + short, ")\n"@);
        },
        SpecOperation::Ticker { symbol } => {
            lemma_flat("#   "@, n.name);
            lemma_flat("#   "@ + n.name, " = t<"@);
            lemma_flat("#   "@ + n.name + " = t<"@, symbol);
            read_line(m, s, p, "#   "@ + n.name + " = t<"@ + symbol, ">\n"@);
        },
        SpecOperation::Fixed { value, original } => {
            let t = render::expr_text(m, graph::lit_expr(value));
            read_value_line(m, s, p, n.name, t, original);
        },
        SpecOperation::Formula { expr, original } => {
            lemma_short_flat(m, expr);
            read_value_line(m, s, p, n.name, render::short_text(m, expr), original);
        },
        SpecOperation::Mutable { expr } => {
            let short = render::short_text(m, expr);
            lemma_short_flat(m, expr);
            lemma_flat("#   "@, n.name);
            lemma_flat("#   "@ + n.name, " = "@);
            lemma_flat("#   "@ + n.name + " = "@, short);
            read_line(m, s, p, "#   "@ + n.name + " = "@ + short, "\n"@);
        },
        SpecOperation::Live { expr, reason } => {
            let why = graph::reason_text(reason);
            let short = render::short_text(m, expr);
            lemma_short_flat(m, expr);
            lemma_reason_flat(reason);
            lemma_flat("#   "@, n.name);
            lemma_flat("#   "@ + n.name, " -- "@);
            lemma_flat("#   "@ + n.name + " -- "@, why);
            lemma_flat("#   "@ + n.name + " -- "@ + why, " (was: "@);
            lemma_flat("#   "@ + n.name + " -- "@ + why + " (was: "@, short);
            read_line(m, s, p, "#   "@ + n.name + " -- "@ + why + " (was: "@ + short, ")\n"@);
        },
    }
}

/// The line for a node whose value was replaced by `t`.
proof fn read_value_line(
    m: NumberModel,
    s: Seq<char>,
    p: int,
    name: Seq<char>,
    t: Seq<char>,
    original: SpecExpr,
)
    requires
        reading::at(
            s,
            p,
            "#   "@ + name + " = "@ + t + "  (was: "@ + render::short_text(m, original) + ")\n"@,
        ),
        reading::flat(name),
        reading::flat(t),
    ensures
        reading::reads(
            m,
            s,
            p,
            Seq::empty(),
            p + ("#   "@ + name + " = "@ + t + "  (was: "@ + render::short_text(m, original)
                + ")\n"@).len(),
        ),
{
    reveal_strlit("#   ");
    reveal_strlit(" = ");
    reveal_strlit("  (was: ");
    reveal_strlit(")\n");
    let short = render::short_text(m, original);
    lemma_short_flat(m, original);
    lemma_flat("#   "@, name);
    lemma_flat("#   "@ + name, " = "@);
    lemma_flat("#   "@ + name + " = "@, t);
    lemma_flat("#   "@ + name + " = "@ + t, "  (was: "@);
    lemma_flat("#   "@ + name + " = "@ + t + "  (was: "@, short);
    read_line(m, s, p, "#   "@ + name + " = "@ + t + "  (was: "@ + short, ")\n"@);
}

proof fn read_node_lines(m: NumberModel, s: Seq<char>, p: int, ns: Seq<SpecNode>, n: int)
    requires
        0 <= n <= ns.len(),
        reading::at(s, p, render::node_lines(m, ns, n)),
        forall|i: int| 0 <= i < ns.len() ==> tidy_node(m, #[trigger] ns[i]),
    ensures
        reading::reads(m, s, p, Seq::empty(), p + render::node_lines(m, ns, n).len()),
    decreases n,
{
    if n == 0 {
        reading::read_nothing(m, s, p);
    } else {
        let front = render::node_lines(m, ns, n - 1);
        let last = render::node_line(m, ns[n - 1]);
        reading::at_split(s, p, front, last);
        read_node_lines(m, s, p, ns, n - 1);
        read_node_line(m, s, p + front.len(), ns[n - 1]);
        reading::join_left(m, s, p, p + front.len(), Seq::empty(), p + front.len() + last.len());
    }
}

proof fn read_section(m: NumberModel, s: Seq<char>, p: int, d: SpecDag, k: OperationKind)
    requires
        reading::at(s, p, render::section(m, d, k)),
        tidy(m, d),
    ensures
        reading::reads(m, s, p, Seq::empty(), p + render::section(m, d, k).len()),
{
    let ns = graph::nodes_of_kind(d, k);
    if ns.len() == 0 {
        reading::read_nothing(m, s, p);
    } else {
        let f = |n: SpecNode| graph::kind_of(n.op) == k;
        let latest = graph::latest_nodes(d, d.env.len() as int);
        assert forall|i: int| 0 <= i < ns.len() implies tidy_node(m, #[trigger] ns[i]) by {
            assert(ns.contains(ns[i]));
            latest.lemma_filter_contains_rev(f, ns[i]);
            let j = choose|j: int| 0 <= j < latest.len() && latest[j] == ns[i];
            assert(tidy_node(m, d.nodes[d.env[j].1 as int]));
        }
        let h = render::heading(k);
        let lines = render::node_lines(m, ns, ns.len() as int);
        reading::at_split(s, p, "#\n"@ + h, lines);
        reading::at_split(s, p, "#\n"@, h);
        reveal_strlit("#\n");
        lemma_heading(k);
        read_whole_line(m, s, p, "#\n"@);
        read_whole_line(m, s, p + 2, h);
        read_node_lines(m, s, p + 2 + h.len(), ns, ns.len() as int);
        reading::join_left(m, s, p, p + 2, Seq::empty(), p + 2 + h.len());
        reading::join_left(m, s, p, p + 2 + h.len(), Seq::empty(), p + 2 + h.len() + lines.len());
    }
}

proof fn lemma_head_lines()
    ensures
        ({
            let a = "# Auto-generated DAG file -- do not hand-edit unless you mean to.\n"@;
            a.len() > 1 && a[0] == '#' && line_end(a)
        }),
        ({
            let b = "# Regenerate it by re-running the original .fi program.\n"@;
            b.len() > 1 && b[0] == '#' && line_end(b)
        }),
{
    reveal_strlit("# Auto-generated DAG file -- do not hand-edit unless you mean to.\n");
    reveal_strlit("# Regenerate it by re-running the original .fi program.\n");
}

/// The head of a file reads as nothing.
proof fn read_header(m: NumberModel, s: Seq<char>, p: int, d: SpecDag)
    requires
        reading::at(s, p, render::header(m, d)),
        tidy(m, d),
    ensures
        reading::reads(m, s, p, Seq::empty(), p + render::header(m, d).len()),
{
    let a = "# Auto-generated DAG file -- do not hand-edit unless you mean to.\n"@;
    let b = "# Regenerate it by re-running the original .fi program.\n"@;
    lemma_head_lines();
    reveal_strlit("\n");
    let s1 = render::section(m, d, OperationKind::Param);
    let s2 = render::section(m, d, OperationKind::Ticker);
    let s3 = render::section(m, d, OperationKind::Fixed);
    let s4 = render::section(m, d, OperationKind::Formula);
    let s5 = render::section(m, d, OperationKind::Mutable);
    let s6 = render::section(m, d, OperationKind::Live);
    reading::at_split(s, p, a + b + s1 + s2 + s3 + s4 + s5 + s6, "\n"@);
    reading::at_split(s, p, a + b + s1 + s2 + s3 + s4 + s5, s6);
    reading::at_split(s, p, a + b + s1 + s2 + s3 + s4, s5);
    reading::at_split(s, p, a + b + s1 + s2 + s3, s4);
    reading::at_split(s, p, a + b + s1 + s2, s3);
    reading::at_split(s, p, a + b + s1, s2);
    reading::at_split(s, p, a + b, s1);
    reading::at_split(s, p, a, b);
    let p1 = p + a.len();
    let p2 = p1 + b.len();
    let p3 = p2 + s1.len();
    let p4 = p3 + s2.len();
    let p5 = p4 + s3.len();
    let p6 = p5 + s4.len();
    let p7 = p6 + s5.len();
    let p8 = p7 + s6.len();
    read_whole_line(m, s, p, a);
    read_whole_line(m, s, p1, b);
    read_section(m, s, p2, d, OperationKind::Param);
    read_section(m, s, p3, d, OperationKind::Ticker);
    read_section(m, s, p4, d, OperationKind::Fixed);
    read_section(m, s, p5, d, OperationKind::Formula);
    read_section(m, s, p6, d, OperationKind::Mutable);
    read_section(m, s, p7, d, OperationKind::Live);
    reading::at_char(s, p8, "\n"@, 0);
    reading::read_blank(m, s, p8);
    reading::join_left(m, s, p, p1, Seq::empty(), p2);
    reading::join_left(m, s, p, p2, Seq::empty(), p3);
    reading::join_left(m, s, p, p3, Seq::empty(), p4);
    reading::join_left(m, s, p, p4, Seq::empty(), p5);
    reading::join_left(m, s, p, p5, Seq::empty(), p6);
    reading::join_left(m, s, p, p6, Seq::empty(), p7);
    reading::join_left(m, s, p, p7, Seq::empty(), p8);
    reading::join_left(m, s, p, p8, Seq::empty(), p8 + 1);
}

// ---- the laws ------------------------------------------------------------------

/// A `.fic` file reads back: its text is a program, the one in which the params,
/// the frozen values and the formulas have taken the places of what they came
/// from. What the file says in comments is not part of it.
pub proof fn law_files_read_back(m: NumberModel, prog: Seq<SpecStmt>, d: SpecDag)
    requires
        tidy(m, d),
        spelling::plain_stmts(m, frozen_program(d, prog)),
        trees::legible_stmts(frozen_program(d, prog)),
    ensures
        lexer::tokens_of(m, render::file_text(m, prog, d)) is Ok,
        ({
            let ts = lexer::tokens_of(m, render::file_text(m, prog, d))->Ok_0;
            spelling::gives(
                grammar::program_at(m, ts, 0, Seq::empty()),
                spelling::reread_stmts(m, frozen_program(d, prog), prog.len() as int),
                ts.len() - 1,
            )
        }),
{
    let t = render::file_text(m, prog, d);
    let h = render::header(m, d);
    let n = prog.len() as int;
    let tops = render::tops_text(m, d, prog, n);
    let xs = spelling::stmts_tokens(m, frozen_program(d, prog), n);
    reading::lemma_at_whole(t);
    reading::at_split(t, 0, h, tops);
    read_header(m, t, 0, d);
    read_tops(m, d, t, h.len() as int, prog, n);
    reading::join_left(m, t, 0, h.len() as int, xs, t.len() as int);
    reading::lemma_whole(m, t, xs);
    let ts = lexer::tokens_of(m, t)->Ok_0;
    spelling::law_tokens_read_back(m, ts, frozen_program(d, prog));
}

} // verus!
