//! What holds of every graph that is built from a program.

#[allow(unused_imports)]
use crate::ast::{self, SpecExpr, SpecStmt};
#[allow(unused_imports)]
use crate::dag;
#[allow(unused_imports)]
use crate::graph::{self, SpecDag, SpecLit, SpecNode, SpecOperation};
#[allow(unused_imports)]
use crate::names;
#[allow(unused_imports)]
use crate::number::{self, NumberModel};
#[allow(unused_imports)]
use crate::trace::{self, SpecProv, SpecScope};
use vstd::prelude::*;

verus! {

/// The number of assignments among the first `n` statements.
pub open spec fn assignments(prog: Seq<SpecStmt>, n: int) -> nat
    decreases n,
{
    if n <= 0 {
        0
    } else if prog[n - 1] is Assign {
        assignments(prog, n - 1) + 1
    } else {
        assignments(prog, n - 1)
    }
}

/// Each node is its place in the list, and refers to earlier nodes alone, to
/// each once.
pub open spec fn ordered(d: SpecDag) -> bool {
    &&& forall|i: int| 0 <= i < d.nodes.len() ==> (#[trigger] d.nodes[i]).id == i
    &&& forall|i: int, j: int|
        0 <= i < d.nodes.len() && 0 <= j < d.nodes[i].deps.len() ==> #[trigger] d.nodes[i].deps[j]
            < i
    &&& forall|i: int| 0 <= i < d.nodes.len() ==> (#[trigger] d.nodes[i]).deps.no_duplicates()
}

/// A name stands for the last node that was assigned to it.
pub open spec fn current(d: SpecDag) -> bool {
    forall|name: Seq<char>|
        match #[trigger] names::lookup(d.env, name) {
            Some(k) => {
                &&& k < d.nodes.len()
                &&& d.nodes[k as int].name == name
                &&& forall|j: int| k < j < d.nodes.len() ==> (#[trigger] d.nodes[j]).name != name
            },
            None => forall|j: int|
                0 <= j < d.nodes.len() ==> (#[trigger] d.nodes[j]).name != name,
        }
}

proof fn lemma_deps_are_nodes(
    env: Seq<(Seq<char>, usize)>,
    ns: Seq<Seq<char>>,
    ids: Seq<usize>,
    bound: nat,
)
    requires
        forall|i: int| 0 <= i < env.len() ==> (#[trigger] env[i]).1 < bound,
        forall|j: int| 0 <= j < ids.len() ==> #[trigger] ids[j] < bound,
        ids.no_duplicates(),
    ensures
        forall|j: int|
            0 <= j < dag::with_nodes(env, ns, ids).len() ==> #[trigger] dag::with_nodes(
                env,
                ns,
                ids,
            )[j] < bound,
        dag::with_nodes(env, ns, ids).no_duplicates(),
    decreases ns.len(),
{
    if ns.len() > 0 {
        lemma_deps_are_nodes(env, ns.drop_last(), ids, bound);
        names::lemma_find(env, ns.last(), 0);
    }
}

proof fn lemma_with_stmt(m: NumberModel, d: SpecDag, s: SpecStmt)
    requires
        graph::dag_wf(d),
        ordered(d),
        current(d),
        names::distinct(d.env),
        d.nodes.len() <= usize::MAX,
    ensures
        graph::dag_wf(dag::with_stmt(m, d, s)),
        ordered(dag::with_stmt(m, d, s)),
        current(dag::with_stmt(m, d, s)),
        names::distinct(dag::with_stmt(m, d, s).env),
{
    if let SpecStmt::Assign { name, value, mutable } = s {
        let after = dag::with_stmt(m, d, s);
        let id = d.nodes.len() as usize;
        names::law_put(d.env, name, id, name);
        names::lemma_find(d.env, name, 0);
        let k = names::find_from(d.env, name, 0);
        assert forall|i: int| 0 <= i < after.env.len() implies (#[trigger] after.env[i]).1
            < after.nodes.len() by {
            if i != k {
                assert(after.env[i] == d.env[i]);
            }
        }
        lemma_deps_are_nodes(d.env, dag::mentioned(value), Seq::empty(), d.nodes.len());
        assert forall|i: int| 0 <= i < after.nodes.len() implies (#[trigger] after.nodes[i]).id
            == i by {
            if i < d.nodes.len() {
                assert(after.nodes[i] == d.nodes[i]);
            }
        }
        assert forall|i: int, j: int|
            0 <= i < after.nodes.len() && 0 <= j
                < after.nodes[i].deps.len() implies #[trigger] after.nodes[i].deps[j] < i by {
            if i < d.nodes.len() {
                assert(after.nodes[i] == d.nodes[i]);
                assert(d.nodes[i].deps[j] < i);
            }
        }
        assert forall|i: int|
            0 <= i < after.nodes.len() implies (#[trigger] after.nodes[i]).deps.no_duplicates() by {
            if i < d.nodes.len() {
                assert(after.nodes[i] == d.nodes[i]);
            }
        }
        assert forall|other: Seq<char>|
            match #[trigger] names::lookup(after.env, other) {
                Some(k) => {
                    &&& k < after.nodes.len()
                    &&& after.nodes[k as int].name == other
                    &&& forall|j: int|
                        k < j < after.nodes.len() ==> (#[trigger] after.nodes[j]).name != other
                },
                None => forall|j: int|
                    0 <= j < after.nodes.len() ==> (#[trigger] after.nodes[j]).name != other,
            } by {
            names::law_put(d.env, name, id, other);
            if other != name {
                assert(names::lookup(after.env, other) == names::lookup(d.env, other));
                assert forall|j: int|
                    0 <= j < after.nodes.len() && (j == d.nodes.len() || d.nodes[j].name
                        != other) implies (#[trigger] after.nodes[j]).name != other by {
                    if j < d.nodes.len() {
                        assert(after.nodes[j] == d.nodes[j]);
                    }
                }
            }
        }
    }
}

/// Building a graph adds one node for each assignment. Every node refers to
/// nodes before it alone, so that there is no cycle, and a name always stands
/// for the node that was assigned to it last.
pub proof fn law_graph(m: NumberModel, prog: Seq<SpecStmt>, n: int)
    requires
        0 <= n <= prog.len() <= usize::MAX,
    ensures
        dag::dag_of(m, prog, n).nodes.len() == assignments(prog, n),
        graph::dag_wf(dag::dag_of(m, prog, n)),
        ordered(dag::dag_of(m, prog, n)),
        current(dag::dag_of(m, prog, n)),
        names::distinct(dag::dag_of(m, prog, n).env),
    decreases n,
{
    if n > 0 {
        law_graph(m, prog, n - 1);
        lemma_assignments(prog, n - 1);
        lemma_with_stmt(m, dag::dag_of(m, prog, n - 1), prog[n - 1]);
    }
}

pub(crate) proof fn lemma_assignments(prog: Seq<SpecStmt>, n: int)
    requires
        0 <= n,
    ensures
        assignments(prog, n) <= n,
    decreases n,
{
    if n > 0 {
        lemma_assignments(prog, n - 1);
    }
}

/// The node of an assignment stays what it was when more statements follow,
/// and says what the assignment did.
pub proof fn law_nodes_stay(m: NumberModel, prog: Seq<SpecStmt>, k: int, n: int)
    requires
        0 <= k < n <= prog.len() <= usize::MAX,
        prog[k] is Assign,
    ensures
        ({
            let d = dag::dag_of(m, prog, k);
            let node = dag::dag_of(m, prog, n).nodes[assignments(prog, k) as int];
            &&& node.name == prog[k]->Assign_name
            &&& node.op == dag::operation_of(
                m,
                d,
                prog[k]->Assign_value,
                prog[k]->Assign_mutable,
            )
            &&& node.deps == dag::deps_of(d.env, prog[k]->Assign_value)
        }),
    decreases n,
{
    law_graph(m, prog, k);
    law_graph(m, prog, n - 1);
    if k < n - 1 {
        law_nodes_stay(m, prog, k, n - 1);
        lemma_assignments_grow(prog, k + 1, n - 1);
    }
}

pub(crate) proof fn lemma_assignments_grow(prog: Seq<SpecStmt>, a: int, b: int)
    requires
        0 <= a <= b,
    ensures
        assignments(prog, a) <= assignments(prog, b),
    decreases b,
{
    if a < b {
        lemma_assignments_grow(prog, a, b - 1);
    }
}

/// Whether `name` is the name of a param.
pub open spec fn is_param(d: SpecDag, name: Seq<char>) -> bool {
    exists|i: int|
        0 <= i < d.nodes.len() && (#[trigger] d.nodes[i]).name == name && d.nodes[i].op is Param
}

/// Whether an expression is made of literals, params, operators and `if`
/// alone: no loop, no call, no ticker.
pub open spec fn closed_form(d: SpecDag, e: SpecExpr) -> bool
    decreases e,
{
    match e {
        SpecExpr::Int(_) => true,
        SpecExpr::Float(_) => true,
        SpecExpr::Str(_) => true,
        SpecExpr::Var(name) => is_param(d, name),
        SpecExpr::Binary { lhs, rhs, .. } => closed_form(d, *lhs) && closed_form(d, *rhs),
        SpecExpr::If { condition, then_branch, else_branch } => closed_form(d, *condition)
            && closed_form(d, *then_branch) && closed_form(d, *else_branch),
        _ => false,
    }
}

/// A trace that is a formula is in closed form.
pub open spec fn closed_prov(d: SpecDag, p: SpecProv) -> bool {
    p matches SpecProv::Formula(e) ==> closed_form(d, e)
}

/// Every formula of the graph is in closed form.
pub open spec fn formulas_closed(d: SpecDag) -> bool {
    forall|i: int|
        0 <= i < d.nodes.len() ==> ((#[trigger] d.nodes[i]).op matches SpecOperation::Formula {
            expr,
            ..
        } ==> closed_form(d, expr))
}

pub open spec fn scope_closed(d: SpecDag, s: SpecScope) -> bool {
    forall|j: int| 0 <= j < s.len() ==> closed_prov(d, (#[trigger] s[j]).1)
}

pub open spec fn locals_closed(d: SpecDag, locals: Seq<SpecScope>) -> bool {
    forall|i: int| 0 <= i < locals.len() ==> scope_closed(d, #[trigger] locals[i])
}

pub(crate) proof fn lemma_read_closed(d: SpecDag, locals: Seq<SpecScope>, name: Seq<char>)
    requires
        graph::dag_wf(d),
        formulas_closed(d),
        locals_closed(d, locals),
    ensures
        closed_prov(d, trace::read(d, locals, name)),
{
    let n = names::scope_of(locals, name, locals.len() as int);
    names::lemma_scope_of(locals, name, locals.len() as int);
    if n > 0 {
        names::lemma_find(locals[n - 1], name, 0);
        assert(scope_closed(d, locals[n - 1]));
    } else {
        names::lemma_find(d.env, name, 0);
        if let Some(id) = names::lookup(d.env, name) {
            let node = d.nodes[id as int];
            lemma_param_name(d, name);
        }
    }
}

/// A name that stands for a param is read as the name of that param.
proof fn lemma_param_name(d: SpecDag, name: Seq<char>)
    requires
        graph::dag_wf(d),
        names::lookup(d.env, name) is Some,
    ensures
        ({
            let node = d.nodes[names::lookup(d.env, name)->0 as int];
            node.op is Param ==> is_param(d, node.name)
        }),
{
    names::lemma_find(d.env, name, 0);
    let i = names::lookup(d.env, name)->0 as int;
    assert(d.env[names::find_from(d.env, name, 0)].1 < d.nodes.len());
    assert(d.nodes[i].name == d.nodes[i].name);
}

proof fn lemma_combine_closed(m: NumberModel, d: SpecDag, op: ast::BinOp, l: SpecProv, r: SpecProv)
    requires
        closed_prov(d, l),
        closed_prov(d, r),
    ensures
        closed_prov(d, trace::combine(m, op, l, r)),
{
    lemma_formula_closed(d, l);
    lemma_formula_closed(d, r);
}

pub(crate) proof fn lemma_formula_closed(d: SpecDag, p: SpecProv)
    requires
        closed_prov(d, p),
    ensures
        trace::formula(p) matches Some(e) ==> closed_form(d, e),
{
}

pub(crate) proof fn lemma_trace_closed(m: NumberModel, d: SpecDag, locals: Seq<SpecScope>, e: SpecExpr)
    requires
        graph::dag_wf(d),
        formulas_closed(d),
        locals_closed(d, locals),
    ensures
        closed_prov(d, trace::trace(m, d, locals, e)),
    decreases e, 0nat,
{
    match e {
        SpecExpr::Var(name) => lemma_read_closed(d, locals, name),
        SpecExpr::Binary { op, lhs, rhs } => {
            lemma_trace_closed(m, d, locals, *lhs);
            lemma_trace_closed(m, d, locals, *rhs);
            lemma_combine_closed(
                m,
                d,
                op,
                trace::trace(m, d, locals, *lhs),
                trace::trace(m, d, locals, *rhs),
            );
        },
        SpecExpr::If { condition, then_branch, else_branch } => {
            lemma_trace_closed(m, d, locals, *condition);
            lemma_trace_closed(m, d, locals, *then_branch);
            lemma_trace_closed(m, d, locals, *else_branch);
            lemma_formula_closed(d, trace::trace(m, d, locals, *then_branch));
            lemma_formula_closed(d, trace::trace(m, d, locals, *else_branch));
        },
        SpecExpr::Unsafe { body } => {
            let inner = locals.push(Seq::empty());
            assert forall|i: int| 0 <= i < inner.len() implies scope_closed(
                d,
                #[trigger] inner[i],
            ) by {
                if i < locals.len() {
                    assert(inner[i] == locals[i]);
                }
            }
            lemma_trace_stmts_closed(m, d, inner, body, 0);
        },
        _ => {},
    }
}

pub(crate) proof fn lemma_assign_closed(
    d: SpecDag,
    locals: Seq<SpecScope>,
    name: Seq<char>,
    value: SpecProv,
    mutable: bool,
)
    requires
        locals.len() > 0,
        locals_closed(d, locals),
        closed_prov(d, value),
    ensures
        locals_closed(d, trace::assign(locals, name, value, mutable)),
        trace::assign(locals, name, value, mutable).len() == locals.len(),
{
    names::lemma_scope_of(locals, name, locals.len() as int);
    let after = trace::assign(locals, name, value, mutable);
    assert forall|i: int| 0 <= i < after.len() implies scope_closed(d, #[trigger] after[i]) by {
        assert(scope_closed(d, locals[i]));
        if after[i] != locals[i] {
            names::lemma_find(locals[i], name, 0);
            assert forall|j: int| 0 <= j < after[i].len() implies closed_prov(
                d,
                (#[trigger] after[i][j]).1,
            ) by {
                if j != names::find_from(locals[i], name, 0) {
                    assert(after[i][j] == locals[i][j]);
                }
            }
        }
    }
}

pub(crate) proof fn lemma_trace_stmts_closed(
    m: NumberModel,
    d: SpecDag,
    locals: Seq<SpecScope>,
    ss: Seq<SpecStmt>,
    i: int,
)
    requires
        graph::dag_wf(d),
        formulas_closed(d),
        locals.len() > 0,
        locals_closed(d, locals),
    ensures
        trace::trace_stmts(m, d, locals, ss, i).0 matches Some(p) ==> closed_prov(d, p),
        locals_closed(d, trace::trace_stmts(m, d, locals, ss, i).1),
        trace::trace_stmts(m, d, locals, ss, i).1.len() == locals.len(),
    decreases ss, ss.len() - i,
{
    if 0 <= i < ss.len() {
        match ss[i] {
            SpecStmt::Return(e) => lemma_trace_closed(m, d, locals, e),
            SpecStmt::Assign { name, value, mutable } => {
                lemma_trace_closed(m, d, locals, value);
                let p = trace::trace(m, d, locals, value);
                lemma_assign_closed(d, locals, name, p, mutable);
                lemma_trace_stmts_closed(
                    m,
                    d,
                    trace::assign(locals, name, p, mutable),
                    ss,
                    i + 1,
                );
            },
            SpecStmt::While { .. } => {
                lemma_trace_loop_closed(m, d, locals, ss[i], 0);
                let (r, after) = trace::trace_loop(m, d, locals, ss[i], 0);
                if r is None {
                    lemma_trace_stmts_closed(m, d, after, ss, i + 1);
                }
            },
            _ => lemma_trace_stmts_closed(m, d, locals, ss, i + 1),
        }
    }
}

pub(crate) proof fn lemma_trace_loop_closed(
    m: NumberModel,
    d: SpecDag,
    locals: Seq<SpecScope>,
    s: SpecStmt,
    k: nat,
)
    requires
        graph::dag_wf(d),
        formulas_closed(d),
        locals.len() > 0,
        locals_closed(d, locals),
    ensures
        trace::trace_loop(m, d, locals, s, k).0 matches Some(p) ==> closed_prov(d, p),
        locals_closed(d, trace::trace_loop(m, d, locals, s, k).1),
        trace::trace_loop(m, d, locals, s, k).1.len() == locals.len(),
    decreases s, trace::MAX_UNROLL_ITERS + 1 - k,
{
    if let SpecStmt::While { condition, body } = s {
        if let SpecProv::Fixed(SpecLit::Number(n)) = trace::trace(m, d, locals, condition) {
            if !number::is_zero(n) && k < trace::MAX_UNROLL_ITERS {
                let inner = locals.push(Seq::empty());
                assert forall|i: int| 0 <= i < inner.len() implies scope_closed(
                    d,
                    #[trigger] inner[i],
                ) by {
                    if i < locals.len() {
                        assert(inner[i] == locals[i]);
                    }
                }
                lemma_trace_stmts_closed(m, d, inner, body, 0);
                let (r, after) = trace::trace_stmts(m, d, inner, body, 0);
                let outer = after.drop_last();
                assert forall|i: int| 0 <= i < outer.len() implies scope_closed(
                    d,
                    #[trigger] outer[i],
                ) by {
                    assert(outer[i] == after[i]);
                }
                if r is None {
                    lemma_trace_loop_closed(m, d, outer, s, k + 1);
                }
            }
        }
    }
}

proof fn lemma_closed_form_stays(d: SpecDag, node: SpecNode, env: Seq<(Seq<char>, usize)>, e: SpecExpr)
    requires
        closed_form(d, e),
    ensures
        closed_form(SpecDag { nodes: d.nodes.push(node), env }, e),
    decreases e,
{
    let after = SpecDag { nodes: d.nodes.push(node), env };
    match e {
        SpecExpr::Var(name) => {
            let i = choose|i: int|
                0 <= i < d.nodes.len() && (#[trigger] d.nodes[i]).name == name
                    && d.nodes[i].op is Param;
            assert(after.nodes[i] == d.nodes[i]);
        },
        SpecExpr::Binary { lhs, rhs, .. } => {
            lemma_closed_form_stays(d, node, env, *lhs);
            lemma_closed_form_stays(d, node, env, *rhs);
        },
        SpecExpr::If { condition, then_branch, else_branch } => {
            lemma_closed_form_stays(d, node, env, *condition);
            lemma_closed_form_stays(d, node, env, *then_branch);
            lemma_closed_form_stays(d, node, env, *else_branch);
        },
        _ => {},
    }
}

/// Every formula of a graph is in closed form over the params of the graph: it
/// runs no loop, calls nothing and fetches nothing.
pub proof fn law_formulas_are_closed(m: NumberModel, prog: Seq<SpecStmt>, n: int)
    requires
        0 <= n <= prog.len() <= usize::MAX,
    ensures
        formulas_closed(dag::dag_of(m, prog, n)),
    decreases n,
{
    if n > 0 {
        law_formulas_are_closed(m, prog, n - 1);
        law_graph(m, prog, n - 1);
        let d = dag::dag_of(m, prog, n - 1);
        let after = dag::dag_of(m, prog, n);
        if let SpecStmt::Assign { name, value, mutable } = prog[n - 1] {
            let top: Seq<SpecScope> = seq![Seq::empty()];
            assert(locals_closed(d, top));
            lemma_trace_closed(m, d, top, value);
            assert forall|i: int| 0 <= i < after.nodes.len() implies ((
            #[trigger] after.nodes[i]).op matches SpecOperation::Formula { expr, .. }
                ==> closed_form(after, expr)) by {
                if let SpecOperation::Formula { expr, .. } = after.nodes[i].op {
                    if i < d.nodes.len() {
                        assert(after.nodes[i] == d.nodes[i]);
                    }
                    lemma_closed_form_stays(d, after.nodes.last(), after.env, expr);
                }
            }
        }
    }
}

} // verus!
