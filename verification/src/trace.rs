//! The symbolic tracer: what an expression comes to, without running the
//! program.

#[allow(unused_imports)]
use crate::ast::{self, BinOp, Expr, SpecExpr, SpecStmt, Stmt};
#[allow(unused_imports)]
use crate::graph::{
    self, Dag, DagNode, FrozenLit, LiveReason, Operation, SpecDag, SpecLit, SpecNode, SpecOperation,
};
#[allow(unused_imports)]
use crate::names::{self, Duplicate, NameMap};
#[allow(unused_imports)]
use crate::number::{self, NumberModel, Numbers};
use vstd::prelude::*;

verus! {

/// The result of tracing one expression.
#[derive(Debug)]
pub enum Prov {
    /// The same value on every run.
    Fixed(FrozenLit),
    /// A loop-free function of one or more params.
    Formula(Expr),
    /// Neither.
    Live(LiveReason),
}

pub enum SpecProv {
    Fixed(SpecLit),
    Formula(SpecExpr),
    Live(LiveReason),
}

impl View for Prov {
    type V = SpecProv;

    open spec fn view(&self) -> SpecProv {
        match *self {
            Prov::Fixed(l) => SpecProv::Fixed(l@),
            Prov::Formula(e) => SpecProv::Formula(e@),
            Prov::Live(r) => SpecProv::Live(r),
        }
    }
}

impl Duplicate for Prov {
    fn duplicate(&self) -> (r: Prov) {
        match self {
            Prov::Fixed(l) => Prov::Fixed(l.copy()),
            Prov::Formula(e) => Prov::Formula(e.clone()),
            Prov::Live(r) => Prov::Live(*r),
        }
    }
}

/// The names of one block.
pub type SpecScope = Seq<(Seq<char>, SpecProv)>;

/// The longest loop that is unrolled.
pub const MAX_UNROLL_ITERS: usize = 10_000;

/// What a trace is as an expression, if it can be written as one.
pub open spec fn formula(p: SpecProv) -> Option<SpecExpr> {
    match p {
        SpecProv::Fixed(l) => Some(graph::lit_expr(l)),
        SpecProv::Formula(e) => Some(e),
        SpecProv::Live(_) => None,
    }
}

fn formula_expr(p: &Prov) -> (r: Option<Expr>)
    ensures
        match r {
            Some(e) => formula(p@) == Some(e@),
            None => formula(p@) is None,
        },
{
    match p {
        Prov::Fixed(l) => Some(l.to_expr()),
        Prov::Formula(e) => Some(e.clone()),
        Prov::Live(_) => None,
    }
}

/// What reading a node gives. A param is read by its name.
pub open spec fn prov_of_node(n: SpecNode) -> SpecProv {
    match n.op {
        SpecOperation::Param { .. } => SpecProv::Formula(SpecExpr::Var(n.name)),
        SpecOperation::Ticker { .. } => SpecProv::Live(LiveReason::Ticker),
        SpecOperation::Mutable { .. } => SpecProv::Live(LiveReason::MutableBinding),
        SpecOperation::Fixed { value, .. } => SpecProv::Fixed(value),
        SpecOperation::Formula { expr, .. } => SpecProv::Formula(expr),
        SpecOperation::Live { reason, .. } => SpecProv::Live(reason),
    }
}

fn node_prov(node: &DagNode) -> (r: Prov)
    ensures
        r@ == prov_of_node(node@),
{
    match &node.op {
        Operation::Param { .. } => Prov::Formula(Expr::Var(node.name.clone())),
        Operation::Ticker { .. } => Prov::Live(LiveReason::Ticker),
        Operation::Mutable { .. } => Prov::Live(LiveReason::MutableBinding),
        Operation::Fixed { value, .. } => Prov::Fixed(value.copy()),
        Operation::Formula { expr, .. } => Prov::Formula(expr.clone()),
        Operation::Live { reason, .. } => Prov::Live(*reason),
    }
}

/// What `name` comes to: a local of the innermost block that has it, else the
/// latest node of that name.
pub open spec fn read(d: SpecDag, locals: Seq<SpecScope>, name: Seq<char>) -> SpecProv {
    match names::lookup_in(locals, name) {
        Some(p) => p,
        None => match graph::node_of(d, name) {
            Some(node) => prov_of_node(node),
            None => SpecProv::Live(LiveReason::Undefined),
        },
    }
}

/// The locals after `name` is assigned. A `mut` declares the name in the
/// innermost block. Otherwise the name is set where it is declared, and
/// declared in the innermost block where it is not.
pub open spec fn assign(
    locals: Seq<SpecScope>,
    name: Seq<char>,
    value: SpecProv,
    mutable: bool,
) -> Seq<SpecScope> {
    let found = names::scope_of(locals, name, locals.len() as int);
    let n = if mutable || found <= 0 {
        locals.len() as int
    } else {
        found
    };
    names::put_in(locals, n - 1, name, value)
}

/// The trace of a binary operation. Two numbers are computed; a division by
/// zero is left to the run.
pub open spec fn combine(m: NumberModel, op: BinOp, l: SpecProv, r: SpecProv) -> SpecProv {
    match (l, r) {
        (SpecProv::Live(reason), _) => SpecProv::Live(reason),
        (_, SpecProv::Live(reason)) => SpecProv::Live(reason),
        (SpecProv::Fixed(SpecLit::Number(a)), SpecProv::Fixed(SpecLit::Number(b))) => {
            match number::binary_result(m, op, a, b) {
                Some(v) => SpecProv::Fixed(SpecLit::Number(v)),
                None => SpecProv::Live(LiveReason::Undefined),
            }
        },
        _ => match (formula(l), formula(r)) {
            (Some(x), Some(y)) => SpecProv::Formula(
                SpecExpr::Binary { op, lhs: Box::new(x), rhs: Box::new(y) },
            ),
            _ => SpecProv::Live(LiveReason::Undefined),
        },
    }
}

/// The trace of an expression.
pub open spec fn trace(m: NumberModel, d: SpecDag, locals: Seq<SpecScope>, e: SpecExpr) -> SpecProv
    decreases e, 0nat,
{
    match e {
        SpecExpr::Int(n) => SpecProv::Fixed(SpecLit::Number(number::bits_of_int(n as int))),
        SpecExpr::Float(n) => SpecProv::Fixed(SpecLit::Number(n)),
        SpecExpr::Str(s) => SpecProv::Fixed(SpecLit::Str(s)),
        SpecExpr::Var(name) => read(d, locals, name),
        SpecExpr::Field { .. } => SpecProv::Live(LiveReason::Ticker),
        SpecExpr::Subset { .. } => SpecProv::Live(LiveReason::Ticker),
        SpecExpr::Binary { op, lhs, rhs } => combine(
            m,
            op,
            trace(m, d, locals, *lhs),
            trace(m, d, locals, *rhs),
        ),
        SpecExpr::If { condition, then_branch, else_branch } => {
            match trace(m, d, locals, *condition) {
                SpecProv::Live(reason) => SpecProv::Live(reason),
                SpecProv::Fixed(SpecLit::Number(n)) => if !number::is_zero(n) {
                    trace(m, d, locals, *then_branch)
                } else {
                    trace(m, d, locals, *else_branch)
                },
                SpecProv::Fixed(SpecLit::Str(_)) => SpecProv::Live(LiveReason::Undefined),
                SpecProv::Formula(c) => match (
                    formula(trace(m, d, locals, *then_branch)),
                    formula(trace(m, d, locals, *else_branch)),
                ) {
                    (Some(x), Some(y)) => SpecProv::Formula(
                        SpecExpr::If {
                            condition: Box::new(c),
                            then_branch: Box::new(x),
                            else_branch: Box::new(y),
                        },
                    ),
                    _ => SpecProv::Live(LiveReason::ParamControlledBranch),
                },
            }
        },
        SpecExpr::Call { .. } => SpecProv::Live(LiveReason::FunctionCall),
        SpecExpr::Unsafe { body } => {
            match trace_stmts(m, d, locals.push(Seq::empty()), body, 0).0 {
                Some(p) => p,
                None => SpecProv::Live(LiveReason::Undefined),
            }
        },
    }
}

/// The trace of the statements from the `i`th on: the value of the `return`
/// that is reached, if one is, and the locals after it.
pub open spec fn trace_stmts(
    m: NumberModel,
    d: SpecDag,
    locals: Seq<SpecScope>,
    ss: Seq<SpecStmt>,
    i: int,
) -> (Option<SpecProv>, Seq<SpecScope>)
    decreases ss, ss.len() - i,
{
    if i < 0 || i >= ss.len() {
        (None, locals)
    } else {
        match ss[i] {
            SpecStmt::Return(e) => (Some(trace(m, d, locals, e)), locals),
            SpecStmt::Assign { name, value, mutable } => trace_stmts(
                m,
                d,
                assign(locals, name, trace(m, d, locals, value), mutable),
                ss,
                i + 1,
            ),
            SpecStmt::While { .. } => {
                let (r, after) = trace_loop(m, d, locals, ss[i], 0);
                match r {
                    Some(p) => (Some(p), after),
                    None => trace_stmts(m, d, after, ss, i + 1),
                }
            },
            _ => trace_stmts(m, d, locals, ss, i + 1),
        }
    }
}

/// The trace of the loop `s` after `k` rounds of it. Each round has a block of
/// its own. A loop of more than `MAX_UNROLL_ITERS` rounds, or one whose
/// condition is no fixed number, is live.
pub open spec fn trace_loop(
    m: NumberModel,
    d: SpecDag,
    locals: Seq<SpecScope>,
    s: SpecStmt,
    k: nat,
) -> (Option<SpecProv>, Seq<SpecScope>)
    decreases s, MAX_UNROLL_ITERS + 1 - k,
{
    match s {
        SpecStmt::While { condition, body } => match trace(m, d, locals, condition) {
            SpecProv::Fixed(SpecLit::Number(n)) => if number::is_zero(n) {
                (None, locals)
            } else if k >= MAX_UNROLL_ITERS {
                (Some(SpecProv::Live(LiveReason::ParamControlledLoop)), locals)
            } else {
                let (r, after) = trace_stmts(m, d, locals.push(Seq::empty()), body, 0);
                match r {
                    Some(p) => (Some(p), after.drop_last()),
                    None => trace_loop(m, d, after.drop_last(), s, k + 1),
                }
            },
            SpecProv::Formula(_) => (
                Some(SpecProv::Live(LiveReason::ParamControlledLoop)),
                locals,
            ),
            SpecProv::Live(reason) => (Some(SpecProv::Live(reason)), locals),
            SpecProv::Fixed(SpecLit::Str(_)) => (
                Some(SpecProv::Live(LiveReason::Undefined)),
                locals,
            ),
        },
        _ => (None, locals),
    }
}

fn lookup(dag: &Dag, locals: &Vec<NameMap<Prov>>, name: &str) -> (r: Prov)
    requires
        graph::dag_wf(dag@),
    ensures
        r@ == read(dag@, names::scopes_view(locals@), name@),
{
    match names::find_in(locals, name) {
        Some(p) => p.duplicate(),
        None => match dag.get(name) {
            Some(node) => node_prov(node),
            None => Prov::Live(LiveReason::Undefined),
        },
    }
}

fn set_local(locals: &mut Vec<NameMap<Prov>>, name: &String, value: Prov, mutable: bool)
    requires
        old(locals)@.len() > 0,
    ensures
        names::scopes_view(final(locals)@) == assign(
            names::scopes_view(old(locals)@),
            name@,
            value@,
            mutable,
        ),
        final(locals)@.len() == old(locals)@.len(),
{
    let last = locals.len() - 1;
    let i = if mutable {
        last
    } else {
        match names::find_scope(locals, name.as_str()) {
            Some(i) => i,
            None => last,
        }
    };
    names::set_in(locals, i, name.clone(), value);
}

fn combine_binary<N: Numbers>(nums: &N, op: BinOp, l: Prov, r: Prov) -> (res: Prov)
    ensures
        forall|m: NumberModel| #[trigger]
            number::computes(*nums, m) ==> res@ == combine(m, op, l@, r@),
{
    if let Prov::Live(reason) = l {
        return Prov::Live(reason);
    }
    if let Prov::Live(reason) = r {
        return Prov::Live(reason);
    }
    if let (Prov::Fixed(FrozenLit::Number(a)), Prov::Fixed(FrozenLit::Number(b))) = (&l, &r) {
        return match number::eval_binop(nums, op, *a, *b) {
            Some(v) => Prov::Fixed(FrozenLit::Number(v)),
            None => Prov::Live(LiveReason::Undefined),
        };
    }
    match (formula_expr(&l), formula_expr(&r)) {
        (Some(x), Some(y)) => Prov::Formula(
            Expr::Binary { op, lhs: Box::new(x), rhs: Box::new(y) },
        ),
        _ => Prov::Live(LiveReason::Undefined),
    }
}

pub fn trace_expr<N: Numbers>(
    nums: &N,
    expr: &Expr,
    dag: &Dag,
    locals: &Vec<NameMap<Prov>>,
) -> (r: Prov)
    requires
        graph::dag_wf(dag@),
    ensures
        forall|m: NumberModel| #[trigger]
            number::computes(*nums, m) ==> r@ == trace(
                m,
                dag@,
                names::scopes_view(locals@),
                expr@,
            ),
    decreases *expr, 0nat,
{
    match expr {
        Expr::Int(n) => Prov::Fixed(FrozenLit::Number(number::of_int(*n))),
        Expr::Float(n) => Prov::Fixed(FrozenLit::Number(*n)),
        Expr::Str(s) => Prov::Fixed(FrozenLit::Str(s.clone())),
        Expr::Var(name) => lookup(dag, locals, name.as_str()),
        Expr::Field { .. } => Prov::Live(LiveReason::Ticker),
        Expr::Subset { .. } => Prov::Live(LiveReason::Ticker),
        Expr::Binary { op, lhs, rhs } => {
            let l = trace_expr(nums, &**lhs, dag, locals);
            let r = trace_expr(nums, &**rhs, dag, locals);
            combine_binary(nums, *op, l, r)
        },
        Expr::If { condition, then_branch, else_branch } => {
            match trace_expr(nums, &**condition, dag, locals) {
                Prov::Live(reason) => Prov::Live(reason),
                Prov::Fixed(FrozenLit::Number(n)) => {
                    if !number::zero(n) {
                        trace_expr(nums, &**then_branch, dag, locals)
                    } else {
                        trace_expr(nums, &**else_branch, dag, locals)
                    }
                },
                Prov::Fixed(FrozenLit::Str(_)) => Prov::Live(LiveReason::Undefined),
                Prov::Formula(c) => {
                    let t = trace_expr(nums, &**then_branch, dag, locals);
                    let e = trace_expr(nums, &**else_branch, dag, locals);
                    match (formula_expr(&t), formula_expr(&e)) {
                        (Some(x), Some(y)) => Prov::Formula(
                            Expr::If {
                                condition: Box::new(c),
                                then_branch: Box::new(x),
                                else_branch: Box::new(y),
                            },
                        ),
                        _ => Prov::Live(LiveReason::ParamControlledBranch),
                    }
                },
            }
        },
        Expr::Call { .. } => Prov::Live(LiveReason::FunctionCall),
        Expr::Unsafe { body } => trace_unsafe(nums, body, dag, locals),
    }
}

fn trace_unsafe<N: Numbers>(
    nums: &N,
    body: &Vec<Stmt>,
    dag: &Dag,
    locals: &Vec<NameMap<Prov>>,
) -> (r: Prov)
    requires
        graph::dag_wf(dag@),
    ensures
        forall|m: NumberModel| #[trigger]
            number::computes(*nums, m) ==> r@ == (match trace_stmts(
                m,
                dag@,
                names::scopes_view(locals@).push(Seq::empty()),
                ast::stmts_view(body@),
                0,
            ).0 {
                Some(p) => p,
                None => SpecProv::Live(LiveReason::Undefined),
            }),
    decreases *body, 1nat,
{
    let mut inner = names::copy_scopes(locals);
    inner.push(NameMap::new());
    proof {
        assert(names::scopes_view(inner@) =~= names::scopes_view(locals@).push(Seq::empty()));
    }
    match trace_body(nums, body, dag, &mut inner) {
        Some(p) => p,
        None => Prov::Live(LiveReason::Undefined),
    }
}

/// The outer scopes can only be set by an assignment, never added or removed.
/// `Some` means that a `return` was reached.
fn trace_body<N: Numbers>(
    nums: &N,
    body: &Vec<Stmt>,
    dag: &Dag,
    locals: &mut Vec<NameMap<Prov>>,
) -> (r: Option<Prov>)
    requires
        graph::dag_wf(dag@),
        old(locals)@.len() > 0,
    ensures
        final(locals)@.len() == old(locals)@.len(),
        forall|m: NumberModel| #[trigger]
            number::computes(*nums, m) ==> ({
                let (p, after) = trace_stmts(
                    m,
                    dag@,
                    names::scopes_view(old(locals)@),
                    ast::stmts_view(body@),
                    0,
                );
                &&& names::scopes_view(final(locals)@) == after
                &&& prov_out(r) == p
            }),
    decreases *body, 0nat,
{
    let ghost start = names::scopes_view(locals@);
    let ghost ss = ast::stmts_view(body@);
    let mut i: usize = 0;
    while i < body.len()
        invariant
            graph::dag_wf(dag@),
            i <= body@.len(),
            locals@.len() == old(locals)@.len(),
            locals@.len() > 0,
            start == names::scopes_view(old(locals)@),
            ss == ast::stmts_view(body@),
            forall|m: NumberModel| #[trigger]
                number::computes(*nums, m) ==> trace_stmts(m, dag@, start, ss, 0) == trace_stmts(
                    m,
                    dag@,
                    names::scopes_view(locals@),
                    ss,
                    i as int,
                ),
        decreases body@.len() - i,
    {
        proof {
            assert(ss[i as int] == body@[i as int]@);
        }
        match &body[i] {
            Stmt::Return(expr) => {
                let p = trace_expr(nums, expr, dag, locals);
                return Some(p);
            },
            Stmt::Assign { name, value, mutable } => {
                let v = trace_expr(nums, value, dag, locals);
                set_local(locals, name, v, *mutable);
            },
            Stmt::While { .. } => {
                if let Some(p) = trace_while(nums, &body[i], dag, locals) {
                    return Some(p);
                }
            },
            _ => {},
        }
        i = i + 1;
    }
    None
}

pub open spec fn prov_out(r: Option<Prov>) -> Option<SpecProv> {
    match r {
        Some(p) => Some(p@),
        None => None,
    }
}

/// The trace of a `while`; any other statement has none.
fn trace_while<N: Numbers>(
    nums: &N,
    stmt: &Stmt,
    dag: &Dag,
    locals: &mut Vec<NameMap<Prov>>,
) -> (r: Option<Prov>)
    requires
        graph::dag_wf(dag@),
        old(locals)@.len() > 0,
    ensures
        final(locals)@.len() == old(locals)@.len(),
        forall|m: NumberModel| #[trigger]
            number::computes(*nums, m) ==> ({
                let (p, after) = trace_loop(m, dag@, names::scopes_view(old(locals)@), stmt@, 0);
                &&& names::scopes_view(final(locals)@) == after
                &&& prov_out(r) == p
            }),
    decreases *stmt, 0nat,
{
    let ghost start = names::scopes_view(locals@);
    if let Stmt::While { condition, body } = stmt {
        let mut iterations: usize = 0;
        loop
            invariant
                graph::dag_wf(dag@),
                *stmt == (Stmt::While { condition: *condition, body: *body }),
                iterations <= MAX_UNROLL_ITERS,
                locals@.len() == old(locals)@.len(),
                locals@.len() > 0,
                start == names::scopes_view(old(locals)@),
                forall|m: NumberModel| #[trigger]
                    number::computes(*nums, m) ==> trace_loop(m, dag@, start, stmt@, 0)
                        == trace_loop(
                        m,
                        dag@,
                        names::scopes_view(locals@),
                        stmt@,
                        iterations as nat,
                    ),
            decreases MAX_UNROLL_ITERS - iterations,
        {
            let again = match trace_expr(nums, condition, dag, locals) {
                Prov::Fixed(FrozenLit::Number(n)) => !number::zero(n),
                Prov::Formula(_) => {
                    return Some(Prov::Live(LiveReason::ParamControlledLoop));
                },
                Prov::Live(reason) => {
                    return Some(Prov::Live(reason));
                },
                Prov::Fixed(FrozenLit::Str(_)) => {
                    return Some(Prov::Live(LiveReason::Undefined));
                },
            };
            if !again {
                return None;
            }
            if iterations >= MAX_UNROLL_ITERS {
                return Some(Prov::Live(LiveReason::ParamControlledLoop));
            }
            iterations = iterations + 1;
            let ghost before = names::scopes_view(locals@);
            locals.push(NameMap::new());
            proof {
                assert(names::scopes_view(locals@) =~= before.push(Seq::empty()));
            }
            let ret = trace_body(nums, body, dag, locals);
            let ghost inside = names::scopes_view(locals@);
            locals.pop();
            proof {
                assert(names::scopes_view(locals@) =~= inside.drop_last());
            }
            if let Some(p) = ret {
                return Some(p);
            }
        }
    } else {
        None
    }
}

} // verus!
