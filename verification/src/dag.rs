//! Building the dependency graph: each top-level assignment is traced, in
//! order, against the graph of those before it.

#[allow(unused_imports)]
use crate::ast::{self, Expr, Program, SpecExpr, SpecStmt, Stmt};
#[allow(unused_imports)]
use crate::graph::{self, SpecDag, SpecNode, SpecOperation};
pub use crate::graph::{Dag, DagError, DagNode, FrozenLit, LiveReason, NodeId, Operation};
#[allow(unused_imports)]
use crate::names::{self, NameMap};
#[allow(unused_imports)]
use crate::number::{self, NumberModel, Numbers};
pub use crate::render::{display_expr, render_dag_file};
#[allow(unused_imports)]
use crate::text;
#[allow(unused_imports)]
use crate::trace::{self, Prov, SpecProv};
use vstd::prelude::*;

verus! {

/// The names that an expression mentions, in order. What an `[unsafe]` block
/// reads is not among them.
pub open spec fn mentioned(e: SpecExpr) -> Seq<Seq<char>>
    decreases e, 0nat,
{
    match e {
        SpecExpr::Var(name) => seq![name],
        SpecExpr::Field { base, .. } => mentioned(*base),
        SpecExpr::Subset { base, .. } => mentioned(*base),
        SpecExpr::Binary { lhs, rhs, .. } => mentioned(*lhs) + mentioned(*rhs),
        SpecExpr::If { condition, then_branch, else_branch } => mentioned(*condition) + mentioned(
            *then_branch,
        ) + mentioned(*else_branch),
        SpecExpr::Call { args, .. } => mentioned_by(args, args.len() as int),
        _ => Seq::empty(),
    }
}

/// The names that the first `n` expressions mention, in order.
pub open spec fn mentioned_by(es: Seq<SpecExpr>, n: int) -> Seq<Seq<char>>
    decreases es, n,
{
    if n <= 0 || n > es.len() {
        Seq::empty()
    } else {
        mentioned_by(es, n - 1) + mentioned(es[n - 1])
    }
}

/// `ids`, and after them the nodes that `ns` stand for and that are not yet
/// there.
pub open spec fn with_nodes(env: Seq<(Seq<char>, usize)>, ns: Seq<Seq<char>>, ids: Seq<usize>) -> Seq<
    usize,
>
    decreases ns.len(),
{
    if ns.len() == 0 {
        ids
    } else {
        let before = with_nodes(env, ns.drop_last(), ids);
        match names::lookup(env, ns.last()) {
            Some(id) => if before.contains(id) {
                before
            } else {
                before.push(id)
            },
            None => before,
        }
    }
}

/// The nodes that an expression refers to, each once, in the order in which it
/// first does.
pub open spec fn deps_of(env: Seq<(Seq<char>, usize)>, e: SpecExpr) -> Seq<usize> {
    with_nodes(env, mentioned(e), Seq::empty())
}

pub(crate) proof fn lemma_with_nodes_concat(
    env: Seq<(Seq<char>, usize)>,
    a: Seq<Seq<char>>,
    b: Seq<Seq<char>>,
    ids: Seq<usize>,
)
    ensures
        with_nodes(env, a + b, ids) == with_nodes(env, b, with_nodes(env, a, ids)),
    decreases b.len(),
{
    if b.len() == 0 {
        assert(a + b =~= a);
    } else {
        assert((a + b).drop_last() =~= a + b.drop_last());
        lemma_with_nodes_concat(env, a, b.drop_last(), ids);
    }
}

/// Whether an expression is a literal.
pub open spec fn is_literal(e: SpecExpr) -> bool {
    e is Int || e is Float || e is Str
}

/// The symbol of a ticker, if an expression is `t<...>`.
pub open spec fn ticker_of(e: SpecExpr) -> Option<Seq<char>> {
    match e {
        SpecExpr::Subset { base, name } => if *base == SpecExpr::Var(graph::CLASS_T@) {
            Some(name)
        } else {
            None
        },
        _ => None,
    }
}

/// What the assignment of `value` to a name does.
pub open spec fn operation_of(
    m: NumberModel,
    d: SpecDag,
    value: SpecExpr,
    mutable: bool,
) -> SpecOperation {
    if mutable {
        SpecOperation::Mutable { expr: value }
    } else if is_literal(value) {
        SpecOperation::Param { default: value }
    } else {
        match ticker_of(value) {
            Some(symbol) => SpecOperation::Ticker { symbol },
            None => match trace::trace(m, d, seq![Seq::empty()], value) {
                SpecProv::Fixed(v) => SpecOperation::Fixed { value: v, original: value },
                SpecProv::Formula(e) => SpecOperation::Formula { expr: e, original: value },
                SpecProv::Live(reason) => SpecOperation::Live { expr: value, reason },
            },
        }
    }
}

/// The graph after one more statement: an assignment adds a node.
pub open spec fn with_stmt(m: NumberModel, d: SpecDag, s: SpecStmt) -> SpecDag {
    match s {
        SpecStmt::Assign { name, value, mutable } => SpecDag {
            nodes: d.nodes.push(
                SpecNode {
                    id: d.nodes.len() as usize,
                    name,
                    op: operation_of(m, d, value, mutable),
                    deps: deps_of(d.env, value),
                },
            ),
            env: names::put(d.env, name, d.nodes.len() as usize),
        },
        _ => d,
    }
}

/// The graph of the first `n` statements.
pub open spec fn dag_of(m: NumberModel, prog: Seq<SpecStmt>, n: int) -> SpecDag
    decreases n,
{
    if n <= 0 {
        graph::empty_dag()
    } else {
        with_stmt(m, dag_of(m, prog, n - 1), prog[n - 1])
    }
}

proof fn lemma_put_stays_wf(d: SpecDag, node: SpecNode, env: Seq<(Seq<char>, usize)>)
    requires
        graph::dag_wf(d),
        d.nodes.len() <= usize::MAX,
        env == names::put(d.env, node.name, d.nodes.len() as usize),
    ensures
        graph::dag_wf(SpecDag { nodes: d.nodes.push(node), env }),
{
    names::lemma_find(d.env, node.name, 0);
    let k = names::find_from(d.env, node.name, 0);
    assert forall|i: int| 0 <= i < env.len() implies (#[trigger] env[i]).1 < d.nodes.len() + 1 by {
        if i != k {
            assert(env[i] == d.env[i]);
        }
    }
}

fn literal_shape(expr: &Expr) -> (r: Option<Expr>)
    ensures
        match r {
            Some(e) => is_literal(expr@) && e@ == expr@,
            None => !is_literal(expr@),
        },
{
    match expr {
        Expr::Int(_) => Some(expr.clone()),
        Expr::Float(_) => Some(expr.clone()),
        Expr::Str(_) => Some(expr.clone()),
        _ => None,
    }
}

/// The symbol of `t<...>`.
pub fn ticker_shape(expr: &Expr) -> (r: Option<String>)
    ensures
        match r {
            Some(s) => ticker_of(expr@) == Some(s@),
            None => ticker_of(expr@) is None,
        },
{
    if let Expr::Subset { base, name } = expr {
        if let Expr::Var(class_name) = &**base {
            proof {
                assert((**base)@ == SpecExpr::Var(class_name@));
            }
            if text::same_text(class_name.as_str(), graph::CLASS_T) {
                return Some(name.clone());
            }
        } else {
            proof {
                assert((**base)@ !is Var);
            }
        }
    }
    None
}

fn walk(expr: &Expr, env: &NameMap<NodeId>, out: &mut Vec<NodeId>)
    ensures
        final(out)@ == with_nodes(env@, mentioned(expr@), old(out)@),
    decreases *expr, 0nat,
{
    match expr {
        Expr::Var(name) => {
            let ghost ns = seq![name@];
            proof {
                assert(ns.drop_last() =~= Seq::<Seq<char>>::empty());
                assert(with_nodes(env@, ns.drop_last(), out@) == out@);
            }
            if let Some(id) = env.get(name.as_str()) {
                if !has_id(out, *id) {
                    out.push(*id);
                }
            }
        },
        Expr::Field { base, .. } => walk(&**base, env, out),
        Expr::Subset { base, .. } => walk(&**base, env, out),
        Expr::Binary { lhs, rhs, .. } => {
            proof {
                lemma_with_nodes_concat(env@, mentioned((**lhs)@), mentioned((**rhs)@), out@);
            }
            walk(&**lhs, env, out);
            walk(&**rhs, env, out);
        },
        Expr::If { condition, then_branch, else_branch } => {
            proof {
                let a = mentioned((**condition)@);
                let b = mentioned((**then_branch)@);
                let c = mentioned((**else_branch)@);
                lemma_with_nodes_concat(env@, a, b, out@);
                lemma_with_nodes_concat(env@, a + b, c, out@);
            }
            walk(&**condition, env, out);
            walk(&**then_branch, env, out);
            walk(&**else_branch, env, out);
        },
        Expr::Call { args, .. } => walk_all(args, env, out),
        _ => {},
    }
}

fn walk_all(es: &Vec<Expr>, env: &NameMap<NodeId>, out: &mut Vec<NodeId>)
    ensures
        final(out)@ == with_nodes(
            env@,
            mentioned_by(ast::exprs_view(es@), es@.len() as int),
            old(out)@,
        ),
    decreases *es, 0nat,
{
    let ghost all = ast::exprs_view(es@);
    let mut i: usize = 0;
    while i < es.len()
        invariant
            i <= es@.len(),
            all == ast::exprs_view(es@),
            out@ == with_nodes(env@, mentioned_by(all, i as int), old(out)@),
        decreases es@.len() - i,
    {
        proof {
            assert(all[i as int] == es@[i as int]@);
            lemma_with_nodes_concat(
                env@,
                mentioned_by(all, i as int),
                mentioned(all[i as int]),
                old(out)@,
            );
        }
        walk(&es[i], env, out);
        i = i + 1;
    }
}

fn has_id(ids: &Vec<NodeId>, id: NodeId) -> (r: bool)
    ensures
        r == ids@.contains(id),
{
    let mut i: usize = 0;
    while i < ids.len()
        invariant
            i <= ids@.len(),
            forall|j: int| 0 <= j < i ==> ids@[j] != id,
        decreases ids@.len() - i,
    {
        if ids[i] == id {
            return true;
        }
        i = i + 1;
    }
    false
}

fn collect_syntactic_deps(expr: &Expr, env: &NameMap<NodeId>) -> (r: Vec<NodeId>)
    ensures
        r@ == deps_of(env@, expr@),
{
    let mut out: Vec<NodeId> = Vec::new();
    walk(expr, env, &mut out);
    out
}

fn find_operation<N: Numbers>(value: &Expr, mutable: bool, dag: &Dag, nums: &N) -> (r: Operation)
    requires
        graph::dag_wf(dag@),
    ensures
        forall|m: NumberModel| #[trigger]
            number::computes(*nums, m) ==> r@ == operation_of(m, dag@, value@, mutable),
{
    if mutable {
        return Operation::Mutable { expr: value.clone() };
    }
    if let Some(default) = literal_shape(value) {
        return Operation::Param { default };
    }
    if let Some(symbol) = ticker_shape(value) {
        return Operation::Ticker { symbol };
    }
    let mut locals: Vec<NameMap<Prov>> = Vec::new();
    locals.push(NameMap::new());
    proof {
        assert(names::scopes_view(locals@) =~= seq![Seq::empty()]);
    }
    match trace::trace_expr(nums, value, dag, &locals) {
        Prov::Fixed(v) => Operation::Fixed { value: v, original: value.clone() },
        Prov::Formula(e) => Operation::Formula { expr: e, original: value.clone() },
        Prov::Live(reason) => Operation::Live { expr: value.clone(), reason },
    }
}

/// Build the graph by tracing `program` once, in the order in which it runs.
/// There always is one.
pub fn build_dag<N: Numbers>(program: &Program, nums: &N) -> (r: Result<Dag, DagError>)
    ensures
        r matches Ok(dag) && graph::dag_wf(dag@),
        forall|m: NumberModel| #[trigger]
            number::computes(*nums, m) ==> r->Ok_0@ == dag_of(
                m,
                ast::stmts_view(program@),
                program@.len() as int,
            ),
{
    let ghost prog = ast::stmts_view(program@);
    let mut dag = Dag::new();
    let mut i: usize = 0;
    while i < program.len()
        invariant
            i <= program@.len(),
            prog == ast::stmts_view(program@),
            dag@.nodes.len() <= i,
            graph::dag_wf(dag@),
            forall|m: NumberModel| #[trigger]
                number::computes(*nums, m) ==> dag@ == dag_of(m, prog, i as int),
        decreases program@.len() - i,
    {
        let ghost before = dag@;
        proof {
            assert(prog[i as int] == program@[i as int]@);
        }
        if let Stmt::Assign { name, value, mutable } = &program[i] {
            let deps = collect_syntactic_deps(value, &dag.env);
            let op = find_operation(value, *mutable, &dag, nums);
            let id = dag.nodes.len();
            let node = DagNode { id, name: name.clone(), op, deps };
            dag.nodes.push(node);
            proof {
                assert(dag@.nodes =~= before.nodes.push(node@));
            }
            dag.env.insert(name.clone(), id);
            proof {
                assert(dag@.nodes =~= before.nodes.push(node@));
                lemma_put_stays_wf(before, node@, dag@.env);
            }
        }
        i = i + 1;
    }
    Ok(dag)
}

} // verus!
