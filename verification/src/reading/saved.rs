//! The files that are saved read back.

#[allow(unused_imports)]
use crate::ast::{SpecExpr, SpecStmt};
#[allow(unused_imports)]
use crate::dag;
#[allow(unused_imports)]
use crate::dag_laws;
#[allow(unused_imports)]
use crate::grammar;
#[allow(unused_imports)]
use crate::graph::{self, SpecLit, SpecOperation};
#[allow(unused_imports)]
use crate::lexer;
#[allow(unused_imports)]
use crate::names;
#[allow(unused_imports)]
use crate::number::{Bits, NumberModel};
#[allow(unused_imports)]
use crate::reading;
#[allow(unused_imports)]
use crate::reading::files;
#[allow(unused_imports)]
use crate::reading::trees;
#[allow(unused_imports)]
use crate::render;
#[allow(unused_imports)]
use crate::spelling;
#[allow(unused_imports)]
use crate::text;
use vstd::prelude::*;

verus! {

// ---- values on one line -----------------------------------------------------

/// Whether every number is shown on one line.
pub open spec fn shown_on_a_line(m: NumberModel) -> bool {
    forall|n: Bits| reading::flat(#[trigger] (m.show)(n))
}

proof fn lemma_literal_flat(v: Seq<char>, n: int)
    requires
        0 <= n <= v.len(),
    ensures
        reading::flat(render::literal_chars(v, n)),
    decreases n,
{
    if n > 0 {
        let c = v[n - 1];
        lemma_literal_flat(v, n - 1);
        reveal_strlit("\\\"");
        reveal_strlit("\\\\");
        reveal_strlit("\\n");
        reveal_strlit("\\t");
        reveal_strlit("\\r");
        assert(reading::flat(render::literal_char(c)));
        files::lemma_flat(render::literal_chars(v, n - 1), render::literal_char(c));
    }
}

/// A frozen value is written on one line.
proof fn lemma_value_flat(m: NumberModel, v: SpecLit)
    requires
        shown_on_a_line(m),
    ensures
        reading::flat(render::expr_text(m, graph::lit_expr(v))),
{
    reveal_strlit("-");
    reveal_strlit("\"");
    reveal_strlit(".0");
    match graph::lit_expr(v) {
        SpecExpr::Int(n) => {
            if n < 0 {
                reading::lemma_decimal((-n) as nat);
                files::lemma_flat("-"@, text::decimal((-n) as nat));
            } else {
                reading::lemma_decimal(n as nat);
            }
        },
        SpecExpr::Float(n) => {
            files::lemma_flat((m.show)(n), ".0"@);
        },
        SpecExpr::Str(t) => {
            lemma_literal_flat(t, t.len() as int);
            files::lemma_flat("\""@, render::literal_chars(t, t.len() as int));
            files::lemma_flat("\""@ + render::literal_chars(t, t.len() as int), "\""@);
        },
        _ => {},
    }
}

// ---- the nodes of a graph ------------------------------------------------------

/// Every node comes from an assignment.
pub(crate) proof fn lemma_assignment_of_node(prog: Seq<SpecStmt>, n: int, j: int) -> (k: int)
    requires
        0 <= n <= prog.len(),
        0 <= j < dag_laws::assignments(prog, n),
    ensures
        0 <= k < n,
        prog[k] is Assign,
        dag_laws::assignments(prog, k) == j,
    decreases n,
{
    if prog[n - 1] is Assign && dag_laws::assignments(prog, n - 1) == j {
        n - 1
    } else {
        lemma_assignment_of_node(prog, n - 1, j)
    }
}

/// What the head of a file says of a node stands on one line, where the
/// statement for the node reads back.
proof fn lemma_tidy_node(m: NumberModel, prog: Seq<SpecStmt>, i: int)
    requires
        shown_on_a_line(m),
        prog.len() <= usize::MAX,
        0 <= i < dag::dag_of(m, prog, prog.len() as int).env.len(),
        ({
            let all = files::frozen_program(dag::dag_of(m, prog, prog.len() as int), prog);
            &&& spelling::plain_stmts(m, all)
            &&& trees::legible_stmts(all)
        }),
    ensures
        ({
            let d = dag::dag_of(m, prog, prog.len() as int);
            files::tidy_node(m, d.nodes[d.env[i].1 as int])
        }),
{
    let n = prog.len() as int;
    let d = dag::dag_of(m, prog, n);
    let all = files::frozen_program(d, prog);
    dag_laws::law_graph(m, prog, n);
    let name = d.env[i].0;
    let j = d.env[i].1 as int;
    names::lemma_find(d.env, name, 0);
    assert(names::lookup(d.env, name) == Some(d.env[i].1));
    let node = d.nodes[j];
    let k = lemma_assignment_of_node(prog, n, j);
    dag_laws::law_nodes_stay(m, prog, k, n);
    assert(node.name == name);
    assert(graph::node_of(d, name) == Some(node));
    assert(all[k] == files::frozen(d, prog[k]));
    assert(spelling::plain_stmt(m, all[k]));
    assert(trees::legible_stmt(all[k]));
    files::lemma_name_flat(name);
    match node.op {
        SpecOperation::Ticker { symbol } => {
            assert(dag::ticker_of(prog[k]->Assign_value) == Some(symbol));
            files::lemma_name_flat(symbol);
        },
        SpecOperation::Fixed { value, .. } => lemma_value_flat(m, value),
        _ => {},
    }
}

/// What is saved for a program reads back as the program in which the params,
/// the frozen values and the formulas of its graph have taken the places of
/// what they came from.
pub proof fn law_saved_files_read_back(m: NumberModel, prog: Seq<SpecStmt>)
    requires
        shown_on_a_line(m),
        prog.len() <= usize::MAX,
        ({
            let all = files::frozen_program(dag::dag_of(m, prog, prog.len() as int), prog);
            &&& spelling::plain_stmts(m, all)
            &&& trees::legible_stmts(all)
        }),
    ensures
        ({
            let d = dag::dag_of(m, prog, prog.len() as int);
            let all = files::frozen_program(d, prog);
            let read = lexer::tokens_of(m, render::file_text(m, prog, d));
            &&& read is Ok
            &&& spelling::gives(
                grammar::program_at(m, read->Ok_0, 0, Seq::empty()),
                spelling::reread_stmts(m, all, prog.len() as int),
                read->Ok_0.len() - 1,
            )
        }),
{
    let d = dag::dag_of(m, prog, prog.len() as int);
    assert forall|i: int| 0 <= i < d.env.len() implies files::tidy_node(
        m,
        d.nodes[(#[trigger] d.env[i]).1 as int],
    ) by {
        lemma_tidy_node(m, prog, i);
    }
    files::law_files_read_back(m, prog, d);
}

} // verus!
