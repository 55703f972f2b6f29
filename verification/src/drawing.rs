//! What the file and the drawing of a graph show: every node and every
//! dependency, once.

#[allow(unused_imports)]
use crate::ast::{SpecExpr, SpecStmt};
#[allow(unused_imports)]
use crate::completeness;
#[allow(unused_imports)]
use crate::dag_laws;
#[allow(unused_imports)]
use crate::graph::{self, LiveReason, OperationKind, SpecDag, SpecLit, SpecNode, SpecOperation};
#[allow(unused_imports)]
use crate::number::{self, Bits, NumberModel};
#[allow(unused_imports)]
use crate::render;
#[allow(unused_imports)]
use crate::sameness;
#[allow(unused_imports)]
use crate::text;
#[allow(unused_imports)]
use crate::trace::SpecProv;
use vstd::prelude::*;

verus! {

/// Texts, one after the other.
pub open spec fn glued(ts: Seq<Seq<char>>) -> Seq<char>
    decreases ts.len(),
{
    if ts.len() == 0 {
        Seq::empty()
    } else {
        glued(ts.drop_last()) + ts.last()
    }
}

/// The line of an edge from the node `from` to the node `to`.
pub open spec fn edge(from: usize, to: usize) -> Seq<char> {
    "  n"@ + text::decimal(from as nat) + " -> n"@ + text::decimal(to as nat) + ";\n"@
}

/// A line for each dependency of a node.
pub open spec fn edges_to(n: SpecNode) -> Seq<Seq<char>> {
    Seq::new(n.deps.len(), |j: int| edge(n.deps[j], n.id))
}

proof fn lemma_deps(deps: Seq<usize>, n: int, id: usize)
    requires
        0 <= n <= deps.len(),
    ensures
        render::dot_deps(deps, n, id) == glued(Seq::new(n as nat, |j: int| edge(deps[j], id))),
    decreases n,
{
    let all = Seq::new(n as nat, |j: int| edge(deps[j], id));
    if n > 0 {
        lemma_deps(deps, n - 1, id);
        assert(all.drop_last() =~= Seq::new((n - 1) as nat, |j: int| edge(deps[j], id)));
    }
}

proof fn lemma_nodes(ns: Seq<SpecNode>, n: int)
    requires
        0 <= n <= ns.len(),
    ensures
        render::dot_nodes(ns, n) == glued(Seq::new(n as nat, |i: int| render::dot_node(ns[i]))),
    decreases n,
{
    let all = Seq::new(n as nat, |i: int| render::dot_node(ns[i]));
    if n > 0 {
        lemma_nodes(ns, n - 1);
        assert(all.drop_last() =~= Seq::new((n - 1) as nat, |i: int| render::dot_node(ns[i])));
    }
}

proof fn lemma_edges(ns: Seq<SpecNode>, n: int)
    requires
        0 <= n <= ns.len(),
    ensures
        render::dot_edges(ns, n) == glued(Seq::new(n as nat, |i: int| glued(edges_to(ns[i])))),
    decreases n,
{
    let all = Seq::new(n as nat, |i: int| glued(edges_to(ns[i])));
    if n > 0 {
        lemma_edges(ns, n - 1);
        assert(all.drop_last() =~= Seq::new((n - 1) as nat, |i: int| glued(edges_to(ns[i]))));
        let last = ns[n - 1];
        lemma_deps(last.deps, last.deps.len() as int, last.id);
        assert(edges_to(last) =~= Seq::new(
            last.deps.len(),
            |j: int| edge(last.deps[j], last.id),
        ));
    }
}

/// A drawing declares every node, in order, and has an edge to every node from each
/// node that it depends on; and nothing else.
pub proof fn law_drawing(d: SpecDag)
    ensures
        render::dot_text(d) == "digraph fin_dag {\n"@ + "  rankdir=LR;\n"@ + glued(
            Seq::new(d.nodes.len(), |i: int| render::dot_node(d.nodes[i])),
        ) + glued(Seq::new(d.nodes.len(), |i: int| glued(edges_to(d.nodes[i])))) + "}\n"@,
{
    lemma_nodes(d.nodes, d.nodes.len() as int);
    lemma_edges(d.nodes, d.nodes.len() as int);
}

/// A node is declared by its number, and its name stands in its label.
pub proof fn law_nodes_are_labelled(n: SpecNode)
    ensures
        exists|rest: Seq<char>|
            render::dot_node(n) == #[trigger] ("  n"@ + text::decimal(n.id as nat) + " [label=\""@
                + n.name + " ("@ + rest),
{
    reveal_strlit(" (");
    reveal_strlit(" (param)");
    reveal_strlit(" (t<");
    reveal_strlit(" (mut)");
    reveal_strlit(" (fixed)");
    reveal_strlit(" (formula)");
    reveal_strlit(" (live: ");
    let (shape, color, suffix) = render::node_style(n.op);
    let front = "  n"@ + text::decimal(n.id as nat) + " [label=\""@ + n.name;
    let rest = suffix.skip(2) + "\" shape="@ + shape + " style=filled fillcolor="@ + color
        + "];\n"@;
    assert(suffix.len() >= 2 && suffix[0] == ' ' && suffix[1] == '(');
    assert(suffix =~= " ("@ + suffix.skip(2));
    assert(render::dot_node(n) =~= front + " ("@ + rest);
    assert("  n"@ + text::decimal(n.id as nat) + " [label=\""@ + n.name + " ("@ + rest =~= front
        + " ("@ + rest);
}

/// Nodes of different kinds have different colours.
pub proof fn law_kinds_look_different(a: SpecOperation, b: SpecOperation)
    requires
        graph::kind_of(a) != graph::kind_of(b),
    ensures
        render::node_style(a).1 != render::node_style(b).1,
{
    reveal_strlit("lightblue");
    reveal_strlit("gold");
    reveal_strlit("lightgray");
    reveal_strlit("palegreen");
    reveal_strlit("khaki");
    reveal_strlit("lightpink");
    let (x, y) = (render::node_style(a).1, render::node_style(b).1);
    assert(x.len() == y.len() ==> x[0] != y[0] || x[5] != y[5] || x[8] != y[8]);
}

// ---- the head of a file -----------------------------------------------

/// Whether `piece` stands in `t`.
pub open spec fn holds(t: Seq<char>, piece: Seq<char>) -> bool {
    exists|a: Seq<char>, b: Seq<char>| t == #[trigger] (a + piece + b)
}

proof fn lemma_holds(t: Seq<char>, piece: Seq<char>, before: Seq<char>, after: Seq<char>)
    requires
        holds(t, piece),
    ensures
        holds(before + t + after, piece),
{
    let (a, b) = choose|a: Seq<char>, b: Seq<char>| t == #[trigger] (a + piece + b);
    assert(before + t + after =~= (before + a) + piece + (b + after));
}

proof fn lemma_node_lines(m: NumberModel, ns: Seq<SpecNode>, n: int, i: int)
    requires
        0 <= i < n <= ns.len(),
    ensures
        holds(render::node_lines(m, ns, n), render::node_line(m, ns[i])),
    decreases n,
{
    let before = render::node_lines(m, ns, n - 1);
    let line = render::node_line(m, ns[n - 1]);
    if i < n - 1 {
        lemma_node_lines(m, ns, n - 1, i);
        lemma_holds(before, render::node_line(m, ns[i]), Seq::empty(), line);
        assert(Seq::<char>::empty() + before + line =~= before + line);
    } else {
        assert(before + line =~= before + line + Seq::<char>::empty());
    }
}

proof fn lemma_section(m: NumberModel, d: SpecDag, i: int)
    requires
        graph::dag_wf(d),
        0 <= i < d.env.len(),
    ensures
        ({
            let node = d.nodes[d.env[i].1 as int];
            holds(
                render::section(m, d, graph::kind_of(node.op)),
                render::node_line(m, node),
            )
        }),
{
    let node = d.nodes[d.env[i].1 as int];
    let k = graph::kind_of(node.op);
    let p = |n: SpecNode| graph::kind_of(n.op) == k;
    let all = graph::latest_nodes(d, d.env.len() as int);
    let ns = graph::nodes_of_kind(d, k);
    assert(all[i] == node);
    all.lemma_filter_contains(p, i);
    assert(ns == all.filter(p));
    let j = ns.index_of(node);
    lemma_node_lines(m, ns, ns.len() as int, j);
    let lines = render::node_lines(m, ns, ns.len() as int);
    let front = "#\n"@ + render::heading(k);
    lemma_holds(lines, render::node_line(m, node), front, Seq::empty());
    assert(front + lines + Seq::<char>::empty() =~= "#\n"@ + render::heading(k) + lines);
}

/// The head of a file has a line for the latest node of every name.
pub proof fn law_every_name_is_listed(m: NumberModel, d: SpecDag, i: int)
    requires
        graph::dag_wf(d),
        0 <= i < d.env.len(),
    ensures
        holds(render::header(m, d), render::node_line(m, d.nodes[d.env[i].1 as int])),
{
    let node = d.nodes[d.env[i].1 as int];
    let line = render::node_line(m, node);
    lemma_section(m, d, i);
    let head = "# Auto-generated DAG file -- do not hand-edit unless you mean to.\n"@
        + "# Regenerate it by re-running the original .fi program.\n"@;
    let s1 = render::section(m, d, OperationKind::Param);
    let s2 = render::section(m, d, OperationKind::Ticker);
    let s3 = render::section(m, d, OperationKind::Fixed);
    let s4 = render::section(m, d, OperationKind::Formula);
    let s5 = render::section(m, d, OperationKind::Mutable);
    let s6 = render::section(m, d, OperationKind::Live);
    let (h1, h2, h3) = (head + s1, head + s1 + s2, head + s1 + s2 + s3);
    let (h4, h5) = (h3 + s4, h3 + s4 + s5);
    let h6 = h5 + s6;
    match graph::kind_of(node.op) {
        OperationKind::Param => lemma_holds_after(head, s1, line),
        OperationKind::Ticker => lemma_holds_after(h1, s2, line),
        OperationKind::Fixed => lemma_holds_after(h2, s3, line),
        OperationKind::Formula => lemma_holds_after(h3, s4, line),
        OperationKind::Mutable => lemma_holds_after(h4, s5, line),
        OperationKind::Live => lemma_holds_after(h5, s6, line),
    }
    if holds(h1, line) {
        lemma_holds_before(h1, s2, line);
    }
    if holds(h2, line) {
        lemma_holds_before(h2, s3, line);
    }
    if holds(h3, line) {
        lemma_holds_before(h3, s4, line);
    }
    if holds(h4, line) {
        lemma_holds_before(h4, s5, line);
    }
    if holds(h5, line) {
        lemma_holds_before(h5, s6, line);
    }
    lemma_holds_before(h6, "\n"@, line);
}

proof fn lemma_holds_after(before: Seq<char>, t: Seq<char>, piece: Seq<char>)
    requires
        holds(t, piece),
    ensures
        holds(before + t, piece),
{
    lemma_holds(t, piece, before, Seq::empty());
    assert(before + t + Seq::<char>::empty() =~= before + t);
}

proof fn lemma_holds_before(t: Seq<char>, after: Seq<char>, piece: Seq<char>)
    requires
        holds(t, piece),
    ensures
        holds(t + after, piece),
{
    lemma_holds(t, piece, Seq::empty(), after);
    assert(Seq::<char>::empty() + t + after =~= t + after);
}

/// The line of a node says its name, what it came from, and what was found out of it.
pub proof fn law_lines_say_what_was_found(m: NumberModel, n: SpecNode)
    ensures
        holds(render::node_line(m, n), n.name),
        match n.op {
            SpecOperation::Param { default } => holds(
                render::node_line(m, n),
                render::short_text(m, default),
            ),
            SpecOperation::Ticker { symbol } => holds(
                render::node_line(m, n),
                "t<"@ + symbol + ">"@,
            ),
            SpecOperation::Mutable { expr } => holds(
                render::node_line(m, n),
                render::short_text(m, expr),
            ),
            SpecOperation::Fixed { value, original } => holds(
                render::node_line(m, n),
                render::expr_text(m, graph::lit_expr(value)),
            ) && holds(render::node_line(m, n), render::short_text(m, original)),
            SpecOperation::Formula { expr, original } => holds(
                render::node_line(m, n),
                render::short_text(m, expr),
            ) && holds(render::node_line(m, n), render::short_text(m, original)),
            SpecOperation::Live { expr, reason } => holds(
                render::node_line(m, n),
                graph::reason_text(reason),
            ) && holds(render::node_line(m, n), render::short_text(m, expr)),
        },
{
    let line = render::node_line(m, n);
    match n.op {
        SpecOperation::Param { default } => {
            let t = render::short_text(m, default);
            lemma_is_held("#   --"@, n.name, " (was: "@ + t + ")\n"@, line);
            lemma_is_held("#   --"@ + n.name + " (was: "@, t, ")\n"@, line);
        },
        SpecOperation::Ticker { symbol } => {
            reveal_strlit(" = t<");
            reveal_strlit(" = ");
            reveal_strlit("t<");
            reveal_strlit(">\n");
            reveal_strlit(">");
            reveal_strlit("\n");
            lemma_is_held("#   "@, n.name, " = t<"@ + symbol + ">\n"@, line);
            assert(" = t<"@ =~= " = "@ + "t<"@);
            assert(">\n"@ =~= ">"@ + "\n"@);
            lemma_is_held("#   "@ + n.name + " = "@, "t<"@ + symbol + ">"@, "\n"@, line);
        },
        SpecOperation::Mutable { expr } => {
            let t = render::short_text(m, expr);
            lemma_is_held("#   "@, n.name, " = "@ + t + "\n"@, line);
            lemma_is_held("#   "@ + n.name + " = "@, t, "\n"@, line);
        },
        SpecOperation::Fixed { value, original } => {
            let (t, u) = (
                render::expr_text(m, graph::lit_expr(value)),
                render::short_text(m, original),
            );
            let front = "#   "@ + n.name + " = "@;
            lemma_is_held("#   "@, n.name, " = "@ + t + "  (was: "@ + u + ")\n"@, line);
            lemma_is_held(front, t, "  (was: "@ + u + ")\n"@, line);
            lemma_is_held(front + t + "  (was: "@, u, ")\n"@, line);
        },
        SpecOperation::Formula { expr, original } => {
            let (t, u) = (render::short_text(m, expr), render::short_text(m, original));
            let front = "#   "@ + n.name + " = "@;
            lemma_is_held("#   "@, n.name, " = "@ + t + "  (was: "@ + u + ")\n"@, line);
            lemma_is_held(front, t, "  (was: "@ + u + ")\n"@, line);
            lemma_is_held(front + t + "  (was: "@, u, ")\n"@, line);
        },
        SpecOperation::Live { expr, reason } => {
            let (t, u) = (graph::reason_text(reason), render::short_text(m, expr));
            let front = "#   "@ + n.name + " -- "@;
            lemma_is_held("#   "@, n.name, " -- "@ + t + " (was: "@ + u + ")\n"@, line);
            lemma_is_held(front, t, " (was: "@ + u + ")\n"@, line);
            lemma_is_held(front + t + " (was: "@, u, ")\n"@, line);
        },
    }
}

proof fn lemma_is_held(a: Seq<char>, piece: Seq<char>, b: Seq<char>, t: Seq<char>)
    requires
        t =~= a + piece + b,
    ensures
        holds(t, piece),
{
    assert(t == a + piece + b);
}

/// Different reasons are said in different words.
pub proof fn law_reasons_differ(a: LiveReason, b: LiveReason)
    requires
        a != b,
    ensures
        graph::reason_text(a) != graph::reason_text(b),
{
    reveal_strlit("reads a ticker fetch");
    reveal_strlit("calls a function (not traced)");
    reveal_strlit("a loop's trip count depends on a param");
    reveal_strlit("a branch depends on a param and can't be reduced");
    reveal_strlit("a `mut` binding, reassigned over its lifetime");
    reveal_strlit("couldn't be reduced to a formula");
    assert(graph::reason_text(a).len() != graph::reason_text(b).len());
}

/// The nodes of one kind among those of the first `n` names.
spec fn of_kind(d: SpecDag, n: int, k: OperationKind) -> nat {
    graph::latest_nodes(d, n).filter(|x: SpecNode| graph::kind_of(x.op) == k).len()
}

proof fn lemma_counts(d: SpecDag, n: int)
    requires
        0 <= n,
    ensures
        of_kind(d, n, OperationKind::Param) + of_kind(d, n, OperationKind::Ticker) + of_kind(
            d,
            n,
            OperationKind::Mutable,
        ) + of_kind(d, n, OperationKind::Fixed) + of_kind(d, n, OperationKind::Formula) + of_kind(
            d,
            n,
            OperationKind::Live,
        ) == n,
    decreases n,
{
    reveal(Seq::filter);
    if n > 0 {
        lemma_counts(d, n - 1);
        assert(graph::latest_nodes(d, n).drop_last() =~= graph::latest_nodes(d, n - 1));
    }
}

/// Every name is of one kind: the lists of nodes of the six kinds have as many
/// nodes together as there are names, and each holds nodes of its kind alone.
pub proof fn law_every_name_is_of_one_kind(d: SpecDag, k: OperationKind)
    ensures
        graph::nodes_of_kind(d, OperationKind::Param).len() + graph::nodes_of_kind(
            d,
            OperationKind::Ticker,
        ).len() + graph::nodes_of_kind(d, OperationKind::Mutable).len() + graph::nodes_of_kind(
            d,
            OperationKind::Fixed,
        ).len() + graph::nodes_of_kind(d, OperationKind::Formula).len() + graph::nodes_of_kind(
            d,
            OperationKind::Live,
        ).len() == d.env.len(),
        forall|i: int|
            0 <= i < graph::nodes_of_kind(d, k).len() ==> graph::kind_of(
                (#[trigger] graph::nodes_of_kind(d, k)[i]).op,
            ) == k,
{
    lemma_counts(d, d.env.len() as int);
    let all = graph::latest_nodes(d, d.env.len() as int);
    let p = |x: SpecNode| graph::kind_of(x.op) == k;
    assert forall|i: int| 0 <= i < graph::nodes_of_kind(d, k).len() implies graph::kind_of(
        (#[trigger] graph::nodes_of_kind(d, k)[i]).op,
    ) == k by {
        all.lemma_filter_pred(p, i);
    }
}

// ---- the lines of a file ----------------------------------------------

/// Whether `t` starts with `front`.
pub open spec fn begins(t: Seq<char>, front: Seq<char>) -> bool {
    t.len() >= front.len() && t.take(front.len() as int) == front
}

/// The numbers that can be written: the finite ones, but for the negative zero.
pub open spec fn writable() -> spec_fn(Bits) -> bool {
    |n: Bits| number::is_finite(n) && n != number::SIGN
}

/// An expression without calls and blocks can be written if and only if its numbers
/// can.
pub proof fn law_what_can_be_written(d: SpecDag, e: SpecExpr)
    ensures
        sameness::floats(writable(), e) ==> render::has_source(e),
        render::has_source(e) && dag_laws::closed_form(d, e) ==> sameness::floats(writable(), e),
    decreases e,
{
    match e {
        SpecExpr::Binary { lhs, rhs, .. } => {
            law_what_can_be_written(d, *lhs);
            law_what_can_be_written(d, *rhs);
        },
        SpecExpr::If { condition, then_branch, else_branch } => {
            law_what_can_be_written(d, *condition);
            law_what_can_be_written(d, *then_branch);
            law_what_can_be_written(d, *else_branch);
        },
        _ => {},
    }
}

proof fn lemma_begins(front: Seq<char>, rest: Seq<char>)
    ensures
        begins(front + rest, front),
{
    assert((front + rest).take(front.len() as int) =~= front);
}

/// What a top-level assignment becomes: that of a param asks for it, that of a value
/// or a formula that was found assigns that, where its numbers can be written, and
/// any other stays as it was.
pub proof fn law_saved_lines(
    m: NumberModel,
    d: SpecDag,
    name: Seq<char>,
    value: SpecExpr,
    mutable: bool,
)
    ensures
        ({
            let s = SpecStmt::Assign { name, value, mutable };
            let line = render::top_text(m, d, s);
            let front = (if mutable {
                "mut "@
            } else {
                ""@
            }) + name + " = "@;
            let same = line == front + render::expr_text(m, value) + ";\n"@;
            match graph::node_of(d, name) {
                Some(node) => match node.op {
                    SpecOperation::Param { .. } => begins(line, front + "param();"@),
                    SpecOperation::Fixed { value: SpecLit::Str(t), .. } => begins(
                        line,
                        front + render::expr_text(m, SpecExpr::Str(t)) + ";"@,
                    ),
                    SpecOperation::Fixed { value: SpecLit::Number(n), .. } => if number::is_finite(
                        n,
                    ) && n != number::SIGN {
                        exists|x: SpecExpr|
                            completeness::stands_for(
                                m,
                                x,
                                SpecProv::Fixed(SpecLit::Number(n)),
                            ) && begins(line, front + #[trigger] render::expr_text(m, x) + ";"@)
                    } else {
                        same
                    },
                    SpecOperation::Formula { expr, .. } => {
                        &&& sameness::floats(writable(), expr) ==> begins(
                            line,
                            front + render::expr_text(m, expr) + ";"@,
                        )
                        &&& !sameness::floats(writable(), expr) && dag_laws::closed_form(d, expr)
                            ==> same
                    },
                    _ => same,
                },
                None => same,
            }
        }),
{
    let s = SpecStmt::Assign { name, value, mutable };
    let line = render::top_text(m, d, s);
    let key = if mutable {
        "mut "@
    } else {
        ""@
    };
    let front = key + name + " = "@;
    assert(""@ =~= Seq::<char>::empty()) by {
        reveal_strlit("");
    }
    assert(render::stmt_text(m, s, ""@) =~= front + render::expr_text(m, value) + ";\n"@);
    if let Some(node) = graph::node_of(d, name) {
        match node.op {
            SpecOperation::Param { default } => {
                reveal_strlit(" = param();  # was: ");
                reveal_strlit("param();");
                reveal_strlit(" = ");
                let t = " = param();  # was: "@;
                let rest = t.skip(11) + name + " = "@ + render::short_text(m, default) + ";\n"@;
                assert(t =~= " = "@ + "param();"@ + t.skip(11));
                assert(line =~= front + "param();"@ + rest);
                lemma_begins(front + "param();"@, rest);
            },
            SpecOperation::Fixed { value: l, original } => {
                let x = graph::lit_expr(l);
                lemma_frozen(m, front, name, render::expr_text(m, x), original);
                completeness::lemma_stands_for(m, SpecProv::Fixed(l));
                if let SpecLit::Number(n) = l {
                    if number::is_finite(n) && n != number::SIGN {
                        assert(begins(line, front + render::expr_text(m, x) + ";"@));
                    } else if !number::is_finite(n) {
                        lemma_not_short(n);
                    }
                }
            },
            SpecOperation::Formula { expr, original } => {
                law_what_can_be_written(d, expr);
                lemma_frozen(m, front, name, render::expr_text(m, expr), original);
            },
            _ => {},
        }
    }
}

proof fn lemma_frozen(
    m: NumberModel,
    front: Seq<char>,
    name: Seq<char>,
    t: Seq<char>,
    original: SpecExpr,
)
    ensures
        begins(
            front + t + ";  # frozen from one full run (was: "@ + name + " = "@
                + render::short_text(m, original) + ";)\n"@,
            front + t + ";"@,
        ),
        begins(
            front + t + ";  # unrolled formula (was: "@ + name + " = "@ + render::short_text(
                m,
                original,
            ) + ";)\n"@,
            front + t + ";"@,
        ),
{
    reveal_strlit(";");
    reveal_strlit(";  # frozen from one full run (was: ");
    reveal_strlit(";  # unrolled formula (was: ");
    let a = ";  # frozen from one full run (was: "@;
    let b = ";  # unrolled formula (was: "@;
    let tail = name + " = "@ + render::short_text(m, original) + ";)\n"@;
    assert(a =~= ";"@ + a.skip(1));
    assert(b =~= ";"@ + b.skip(1));
    lemma_begins(front + t + ";"@, a.skip(1) + tail);
    lemma_begins(front + t + ";"@, b.skip(1) + tail);
    assert(front + t + a + name + " = "@ + render::short_text(m, original) + ";)\n"@ =~= front + t
        + ";"@ + (a.skip(1) + tail));
    assert(front + t + b + name + " = "@ + render::short_text(m, original) + ";)\n"@ =~= front + t
        + ";"@ + (b.skip(1) + tail));
}

proof fn lemma_not_short(n: Bits)
    requires
        !number::is_finite(n),
    ensures
        number::short_int(n) is None,
{
    if number::short_int(n) is Some {
        if n != number::SIGN {
            number::law_short_ints_convert_back(n);
            let i = number::short_int(n)->0;
            number::law_integers_are_finite(i);
        }
    }
}

} // verus!
