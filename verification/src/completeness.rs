//! What the tracer finds out: everything that does not rest on the outside
//! world, on functions or on loops that params control.

#[allow(unused_imports)]
use crate::ast::{BinOp, SpecExpr, SpecStmt};
#[allow(unused_imports)]
use crate::dag;
#[allow(unused_imports)]
use crate::effects;
#[allow(unused_imports)]
use crate::graph::{self, LiveReason, SpecDag, SpecLit, SpecNode, SpecOperation};
#[allow(unused_imports)]
use crate::machine::{self, SpecControl, SpecEnv, SpecFlow, SpecState};
#[allow(unused_imports)]
use crate::names;
#[allow(unused_imports)]
use crate::number::{self, NumberModel};
#[allow(unused_imports)]
use crate::parts;
#[allow(unused_imports)]
use crate::semantics::{self, Meaning, Run};
#[allow(unused_imports)]
use crate::soundness::{self, lit_value};
#[allow(unused_imports)]
use crate::trace::{self, SpecProv, SpecScope};
#[allow(unused_imports)]
use crate::value::{self, SpecBinding, SpecValue};
use vstd::prelude::*;

verus! {

// ---- operators --------------------------------------------------------

/// An operator on two fixed numbers is fixed if and only if a run computes a
/// number from them, and that number is the one. An operator on fixed values and
/// formulas is otherwise the formula that applies it to them. It is live only if
/// an operand is, or where a run divides by zero.
pub proof fn law_operators_are_traced(
    m: NumberModel,
    d: SpecDag,
    locals: Seq<SpecScope>,
    op: BinOp,
    lhs: SpecExpr,
    rhs: SpecExpr,
)
    ensures
        ({
            let e = SpecExpr::Binary { op, lhs: Box::new(lhs), rhs: Box::new(rhs) };
            let traced = trace::trace(m, d, locals, e);
            let (l, r) = (trace::trace(m, d, locals, lhs), trace::trace(m, d, locals, rhs));
            match (l, r) {
                (SpecProv::Fixed(SpecLit::Number(a)), SpecProv::Fixed(SpecLit::Number(b))) => {
                    match machine::binary_value(m, op, a, b) {
                        Ok(v) => traced matches SpecProv::Fixed(c) && lit_value(c) == v,
                        Err(_) => traced == SpecProv::Live(LiveReason::Undefined),
                    }
                },
                (SpecProv::Live(reason), _) => traced == SpecProv::Live(reason),
                (_, SpecProv::Live(reason)) => traced == SpecProv::Live(reason),
                _ => traced matches SpecProv::Formula(x) && (x matches SpecExpr::Binary {
                    op: o,
                    lhs: x1,
                    rhs: x2,
                } && o == op && stands_for(m, *x1, l) && stands_for(m, *x2, r)),
            }
        }),
{
    lemma_stands_for(m, trace::trace(m, d, locals, lhs));
    lemma_stands_for(m, trace::trace(m, d, locals, rhs));
}

/// An expression that says what was found out: the formula, or one that gives the
/// value that is fixed.
pub open spec fn stands_for(m: NumberModel, x: SpecExpr, p: SpecProv) -> bool {
    match p {
        SpecProv::Fixed(l) => forall|r: Run| #[trigger]
            semantics::eval(m, r, x, 1) == Meaning::Is(lit_value(l), r),
        SpecProv::Formula(e) => x == e,
        SpecProv::Live(_) => false,
    }
}

pub(crate) proof fn lemma_stands_for(m: NumberModel, p: SpecProv)
    ensures
        match trace::formula(p) {
            Some(x) => stands_for(m, x, p),
            None => p is Live,
        },
{
    if let SpecProv::Fixed(SpecLit::Number(n)) = p {
        if number::short_int(n) is Some && n != number::SIGN {
            number::law_short_ints_convert_back(n);
        }
    }
}

/// An `if` whose condition is a fixed number is what the branch is that a run would
/// choose. One whose condition is a formula is the formula that decides between both
/// branches, and live only if one of them is.
pub proof fn law_conditions_are_traced(
    m: NumberModel,
    d: SpecDag,
    locals: Seq<SpecScope>,
    condition: SpecExpr,
    a: SpecExpr,
    b: SpecExpr,
)
    ensures
        ({
            let e = SpecExpr::If {
                condition: Box::new(condition),
                then_branch: Box::new(a),
                else_branch: Box::new(b),
            };
            let traced = trace::trace(m, d, locals, e);
            let (x, y) = (trace::trace(m, d, locals, a), trace::trace(m, d, locals, b));
            match trace::trace(m, d, locals, condition) {
                SpecProv::Fixed(l) => match machine::condition(m, "if"@, lit_value(l)) {
                    Ok(true) => traced == x,
                    Ok(false) => traced == y,
                    Err(_) => traced == SpecProv::Live(LiveReason::Undefined),
                },
                SpecProv::Formula(c) => if x is Live || y is Live {
                    traced == SpecProv::Live(LiveReason::ParamControlledBranch)
                } else {
                    traced matches SpecProv::Formula(z) && (z matches SpecExpr::If {
                        condition: z1,
                        then_branch: z2,
                        else_branch: z3,
                    } && *z1 == c && stands_for(m, *z2, x) && stands_for(m, *z3, y))
                },
                SpecProv::Live(reason) => traced == SpecProv::Live(reason),
            }
        }),
{
    lemma_stands_for(m, trace::trace(m, d, locals, a));
    lemma_stands_for(m, trace::trace(m, d, locals, b));
}

/// A loop is unrolled, round by round, as long as its condition is a fixed number
/// that is not zero, for up to ten thousand rounds.
pub proof fn law_loops_are_unrolled(
    m: NumberModel,
    d: SpecDag,
    locals: Seq<SpecScope>,
    condition: SpecExpr,
    body: Seq<SpecStmt>,
    k: nat,
)
    ensures
        ({
            let s = SpecStmt::While { condition, body };
            let (found, after) = trace::trace_loop(m, d, locals, s, k);
            match trace::trace(m, d, locals, condition) {
                SpecProv::Fixed(l) => match machine::condition(m, "while"@, lit_value(l)) {
                    Ok(true) => if k < 10_000 {
                        let (p, inner) = trace::trace_stmts(
                            m,
                            d,
                            locals.push(Seq::empty()),
                            body,
                            0,
                        );
                        if p is Some {
                            found == p
                        } else {
                            (found, after) == trace::trace_loop(
                                m,
                                d,
                                inner.drop_last(),
                                s,
                                k + 1,
                            )
                        }
                    } else {
                        found == Some(SpecProv::Live(LiveReason::ParamControlledLoop))
                    },
                    Ok(false) => found is None && after == locals,
                    Err(_) => found == Some(SpecProv::Live(LiveReason::Undefined)),
                },
                SpecProv::Formula(_) => found == Some(
                    SpecProv::Live(LiveReason::ParamControlledLoop),
                ),
                SpecProv::Live(reason) => found == Some(SpecProv::Live(reason)),
            }
        }),
{
}

// ---- causes -----------------------------------------------------------

/// Why a name is live: what stands for it is, or nothing does.
pub open spec fn name_cause(d: SpecDag, locals: Seq<SpecScope>, name: Seq<char>) -> Option<
    LiveReason,
> {
    match names::lookup_in(locals, name) {
        Some(SpecProv::Live(reason)) => Some(reason),
        Some(_) => None,
        None => match graph::node_of(d, name) {
            None => Some(LiveReason::Undefined),
            Some(node) => match node.op {
                SpecOperation::Ticker { .. } => Some(LiveReason::Ticker),
                SpecOperation::Mutable { .. } => Some(LiveReason::MutableBinding),
                SpecOperation::Live { reason, .. } => Some(reason),
                _ => None,
            },
        },
    }
}

/// Why an expression is live by itself: it looks something up in data, calls a
/// function, reads a name that is live, divides by zero, decides by a text, or
/// decides by a param between branches of which one is live.
pub open spec fn cause(m: NumberModel, d: SpecDag, locals: Seq<SpecScope>, x: SpecExpr) -> Option<
    LiveReason,
> {
    match x {
        SpecExpr::Var(name) => name_cause(d, locals, name),
        SpecExpr::Field { .. } => Some(LiveReason::Ticker),
        SpecExpr::Subset { .. } => Some(LiveReason::Ticker),
        SpecExpr::Call { .. } => Some(LiveReason::FunctionCall),
        SpecExpr::Binary { op, lhs, rhs } => match (
            trace::trace(m, d, locals, *lhs),
            trace::trace(m, d, locals, *rhs),
        ) {
            (SpecProv::Fixed(SpecLit::Number(a)), SpecProv::Fixed(SpecLit::Number(b))) => {
                if op == BinOp::Div && number::is_zero(b) {
                    Some(LiveReason::Undefined)
                } else {
                    None
                }
            },
            _ => None,
        },
        SpecExpr::If { condition, then_branch, else_branch } => match trace::trace(
            m,
            d,
            locals,
            *condition,
        ) {
            SpecProv::Fixed(SpecLit::Str(_)) => Some(LiveReason::Undefined),
            SpecProv::Formula(_) => if trace::trace(m, d, locals, *then_branch) is Live
                || trace::trace(m, d, locals, *else_branch) is Live {
                Some(LiveReason::ParamControlledBranch)
            } else {
                None
            },
            _ => None,
        },
        SpecExpr::Unsafe { .. } => match trace::trace(m, d, locals, x) {
            SpecProv::Live(reason) => Some(reason),
            _ => None,
        },
        _ => None,
    }
}

/// What is live has a cause: something that stands in it is live by itself, and
/// for the reason that is given.
pub proof fn law_live_has_a_cause(
    m: NumberModel,
    d: SpecDag,
    locals: Seq<SpecScope>,
    e: SpecExpr,
) -> (x: SpecExpr)
    requires
        trace::trace(m, d, locals, e) is Live,
    ensures
        parts::within(x, e, false),
        cause(m, d, locals, x) == Some(trace::trace(m, d, locals, e)->Live_0),
    decreases e,
{
    match e {
        SpecExpr::Binary { op, lhs, rhs } => {
            if trace::trace(m, d, locals, *lhs) is Live {
                law_live_has_a_cause(m, d, locals, *lhs)
            } else if trace::trace(m, d, locals, *rhs) is Live {
                law_live_has_a_cause(m, d, locals, *rhs)
            } else {
                e
            }
        },
        SpecExpr::If { condition, then_branch, else_branch } => {
            match trace::trace(m, d, locals, *condition) {
                SpecProv::Live(_) => law_live_has_a_cause(m, d, locals, *condition),
                SpecProv::Fixed(SpecLit::Number(n)) => if !number::is_zero(n) {
                    law_live_has_a_cause(m, d, locals, *then_branch)
                } else {
                    law_live_has_a_cause(m, d, locals, *else_branch)
                },
                _ => e,
            }
        },
        _ => e,
    }
}

/// An assignment is live only if something that stands in it is live by itself.
pub proof fn law_live_assignments_have_a_cause(
    m: NumberModel,
    d: SpecDag,
    value: SpecExpr,
    mutable: bool,
) -> (x: SpecExpr)
    requires
        dag::operation_of(m, d, value, mutable) is Live,
    ensures
        parts::within(x, value, false),
        cause(m, d, seq![Seq::empty()], x) == Some(
            dag::operation_of(m, d, value, mutable)->Live_reason,
        ),
{
    law_live_has_a_cause(m, d, seq![Seq::empty()], value)
}

// ---- kinds ------------------------------------------------------------

/// What an assignment makes: a `mut` a mutable node, a literal a param with that
/// default, `t<...>` a ticker; and nothing else makes one of these. Every other
/// node keeps the expression that it came from.
pub proof fn law_assignments_make_nodes(
    m: NumberModel,
    d: SpecDag,
    value: SpecExpr,
    mutable: bool,
)
    ensures
        ({
            let op = dag::operation_of(m, d, value, mutable);
            let literal = value is Int || value is Float || value is Str;
            &&& mutable <==> op == SpecOperation::Mutable { expr: value }
            &&& !mutable && literal <==> op == SpecOperation::Param { default: value }
            &&& op is Mutable ==> mutable
            &&& op is Param ==> literal
            &&& forall|t: Seq<char>|
                !mutable && value == #[trigger] parts::ticker(t) <==> op == SpecOperation::Ticker {
                    symbol: t,
                }
            &&& match op {
                SpecOperation::Fixed { original, .. } => original == value,
                SpecOperation::Formula { original, .. } => original == value,
                SpecOperation::Live { expr, .. } => expr == value,
                _ => true,
            }
        }),
{
    let op = dag::operation_of(m, d, value, mutable);
    assert(graph::CLASS_T@ == "t"@);
    assert forall|t: Seq<char>|
        !mutable && value == #[trigger] parts::ticker(t) <==> op == SpecOperation::Ticker {
            symbol: t,
        } by {
        if let Some(u) = dag::ticker_of(value) {
            assert(value == parts::ticker(u));
        }
    }
}

// ---- constants --------------------------------------------------------

/// Names that stand for fixed values, and names that may stand for formulas.
pub struct Known {
    pub fixed: Set<Seq<char>>,
    pub open: Set<Seq<char>>,
}

/// No name is in both.
pub open spec fn apart(ns: Known) -> bool {
    forall|x: Seq<char>| #[trigger] ns.fixed.contains(x) ==> !ns.open.contains(x)
}

/// What was found out of a value: that it is fixed, and which it is; or, where that
/// is enough, a formula.
pub open spec fn found(strict: bool, p: SpecProv, v: SpecValue) -> bool {
    match p {
        SpecProv::Fixed(l) => lit_value(l) == v,
        SpecProv::Formula(_) => !strict,
        SpecProv::Live(_) => false,
    }
}

/// Whether an expression computes with the names `ns` alone: it is made of
/// literals, names, operators, `if` and blocks that assign, loop and return. Where
/// `strict` says so it reads names that stand for fixed values alone. What decides,
/// in an `if` or a loop, does so always.
pub open spec fn computes(ns: Known, strict: bool, e: SpecExpr) -> bool
    decreases e,
{
    match e {
        SpecExpr::Int(_) => true,
        SpecExpr::Float(_) => true,
        SpecExpr::Str(_) => true,
        SpecExpr::Var(name) => ns.fixed.contains(name) || (!strict && ns.open.contains(name)),
        SpecExpr::Binary { lhs, rhs, .. } => computes(ns, strict, *lhs) && computes(
            ns,
            strict,
            *rhs,
        ),
        SpecExpr::If { condition, then_branch, else_branch } => computes(ns, true, *condition)
            && computes(ns, strict, *then_branch) && computes(ns, strict, *else_branch),
        SpecExpr::Unsafe { body } => computes_body(ns, strict, body),
        _ => false,
    }
}

pub open spec fn computes_body(ns: Known, strict: bool, ss: Seq<SpecStmt>) -> bool
    decreases ss,
{
    forall|i: int| 0 <= i < ss.len() ==> computes_stmt(ns, strict, #[trigger] ss[i])
}

pub open spec fn computes_stmt(ns: Known, strict: bool, s: SpecStmt) -> bool
    decreases s,
{
    match s {
        SpecStmt::Assign { name, value, .. } => {
            ||| ns.fixed.contains(name) && computes(ns, true, value)
            ||| ns.open.contains(name) && computes(ns, false, value)
        },
        SpecStmt::Return(e) => computes(ns, strict, e),
        SpecStmt::While { condition, body } => computes(ns, true, condition) && computes_body(
            ns,
            strict,
            body,
        ),
        _ => false,
    }
}

/// Whether a name is one of those that are known.
pub open spec fn has(ns: Known, x: Seq<char>) -> bool {
    ns.fixed.contains(x) || ns.open.contains(x)
}

/// Of the names `ns`, a scope of the run holds those that the scope of the trace
/// holds, and these are known.
pub open spec fn scope_known(
    ns: Known,
    traced: SpecScope,
    scope: Seq<(Seq<char>, SpecBinding)>,
) -> bool {
    forall|x: Seq<char>|
        has(ns, x) ==> match (#[trigger] names::lookup(traced, x), names::lookup(scope, x)) {
            (Some(p), Some(b)) => found(ns.fixed.contains(x), p, b.value),
            (None, None) => true,
            _ => false,
        }
}

/// Those of the names `ns` that are there are fixed nodes, with their values; or,
/// where that is enough, params and formulas.
pub open spec fn top_known(
    ns: Known,
    d: SpecDag,
    scope: Seq<(Seq<char>, SpecBinding)>,
) -> bool {
    forall|x: Seq<char>|
        has(ns, x) ==> (#[trigger] names::lookup(scope, x) matches Some(b) ==> {
            &&& !b.mutable
            &&& graph::node_of(d, x) matches Some(node)
            &&& match node.op {
                SpecOperation::Fixed { value: l, .. } => lit_value(l) == b.value,
                SpecOperation::Formula { .. } => !ns.fixed.contains(x),
                SpecOperation::Param { .. } => !ns.fixed.contains(x),
                _ => false,
            }
        })
}

/// Everything that the run knows of the names `ns`, the trace knows too.
pub open spec fn known(
    ns: Known,
    d: SpecDag,
    locals: Seq<SpecScope>,
    env: SpecEnv,
) -> bool {
    &&& env.len() == locals.len()
    &&& env.len() > 0
    &&& locals[0] == Seq::<(Seq<char>, SpecProv)>::empty()
    &&& top_known(ns, d, env[0])
    &&& forall|i: int| 1 <= i < env.len() ==> scope_known(ns, #[trigger] locals[i], env[i])
}

/// In which scope a name is found: in the same of the run as of the trace, but for
/// the top level, which the trace has in the graph.
proof fn lemma_scopes(
    ns: Known,
    d: SpecDag,
    locals: Seq<SpecScope>,
    env: SpecEnv,
    x: Seq<char>,
    n: int,
)
    requires
        known(ns, d, locals, env),
        has(ns, x),
        1 <= n <= env.len(),
    ensures
        names::scope_of(env, x, n) > 1 ==> names::scope_of(locals, x, n) == names::scope_of(
            env,
            x,
            n,
        ),
        names::scope_of(env, x, n) <= 1 ==> names::scope_of(locals, x, n) == 0,
    decreases n,
{
    if n > 1 {
        assert(scope_known(ns, locals[n - 1], env[n - 1]));
        assert(names::lookup(locals[n - 1], x) is Some == names::lookup(env[n - 1], x) is Some);
        lemma_scopes(ns, d, locals, env, x, n - 1);
    } else {
        assert(names::lookup(locals[0], x) is None);
        assert(names::scope_of(locals, x, 1) == 0) by {
            reveal_with_fuel(names::scope_of, 2);
        }
        assert(names::scope_of(env, x, 1) <= 1) by {
            reveal_with_fuel(names::scope_of, 2);
        }
    }
}

proof fn full_variable(
    ns: Known,
    d: SpecDag,
    locals: Seq<SpecScope>,
    st: SpecState,
    x: Seq<char>,
)
    requires
        known(ns, d, locals, st.env),
        has(ns, x),
        machine::variable(st, x) is Ok,
    ensures
        found(
            ns.fixed.contains(x),
            trace::read(d, locals, x),
            machine::variable(st, x)->Ok_0,
        ),
{
    let n = st.env.len() as int;
    lemma_scopes(ns, d, locals, st.env, x, n);
    names::lemma_scope_of(st.env, x, n);
    let k = names::scope_of(st.env, x, n);
    if k > 1 {
        assert(scope_known(ns, locals[k - 1], st.env[k - 1]));
        assert(names::lookup(locals[k - 1], x) is Some);
    } else {
        assert(k == 1);
        assert(names::lookup(st.env[0], x) is Some);
    }
}

proof fn full_assign(
    ns: Known,
    d: SpecDag,
    locals: Seq<SpecScope>,
    st: SpecState,
    name: Seq<char>,
    p: SpecProv,
    v: SpecValue,
    mutable: bool,
)
    requires
        known(ns, d, locals, st.env),
        st.env.len() > 1,
        has(ns, name),
        found(ns.fixed.contains(name), p, v),
        machine::assigned(st, name, v, mutable) is Ok,
    ensures
        known(
            ns,
            d,
            trace::assign(locals, name, p, mutable),
            machine::assigned(st, name, v, mutable)->Ok_0.env,
        ),
        ({
            let after = machine::assigned(st, name, v, mutable)->Ok_0;
            after == machine::with_env(st, after.env) && after.env.len() == st.env.len()
        }),
{
    let n = st.env.len() as int;
    lemma_scopes(ns, d, locals, st.env, name, n);
    names::lemma_scope_of(st.env, name, n);
    let j = names::scope_of(st.env, name, n);
    if !mutable && j == 1 {
        assert(names::lookup(st.env[0], name) is Some);
    }
    let k = if mutable || j == 0 {
        n - 1
    } else {
        j - 1
    };
    let l2 = trace::assign(locals, name, p, mutable);
    let e2 = machine::assigned(st, name, v, mutable)->Ok_0.env;
    let b = SpecBinding { value: v, mutable: mutable || j > 0 };
    assert(k >= 1);
    assert(l2 == locals.update(k, names::put(locals[k], name, p)));
    assert(e2 == st.env.update(k, names::put(st.env[k], name, b)));
    assert forall|q: int| 1 <= q < e2.len() implies scope_known(ns, #[trigger] l2[q], e2[q]) by {
        assert(scope_known(ns, locals[q], st.env[q]));
        if q == k {
            assert forall|x: Seq<char>| has(ns, x) implies match (
                #[trigger] names::lookup(l2[k], x),
                names::lookup(e2[k], x),
            ) {
                (Some(p), Some(b)) => found(ns.fixed.contains(x), p, b.value),
                (None, None) => true,
                _ => false,
            } by {
                names::law_put(locals[k], name, p, x);
                names::law_put(st.env[k], name, b, x);
                assert(names::lookup(locals[k], x) is Some == names::lookup(st.env[k], x) is Some);
            }
        }
    }
}

spec fn flow_known(
    ns: Known,
    strict: bool,
    d: SpecDag,
    traced: (Option<SpecProv>, Seq<SpecScope>),
    flow: SpecFlow,
    env: SpecEnv,
) -> bool {
    match flow {
        SpecFlow::Return(v) => traced.0 matches Some(p) && found(strict, p, v),
        SpecFlow::Normal => traced.0 is None && known(ns, d, traced.1, env),
    }
}

proof fn full_eval(
    m: NumberModel,
    ns: Known,
    strict: bool,
    d: SpecDag,
    locals: Seq<SpecScope>,
    r: Run,
    e: SpecExpr,
    fuel: nat,
)
    requires
        known(ns, d, locals, r.st.env),
        computes(ns, strict, e),
        apart(ns),
        fuel <= trace::MAX_UNROLL_ITERS,
    ensures
        semantics::eval(m, r, e, fuel) matches Meaning::Is(v, r1) ==> r1 == r && found(
            strict,
            trace::trace(m, d, locals, e),
            v,
        ),
    decreases fuel,
{
    if fuel > 0 {
        let f = (fuel - 1) as nat;
        match e {
            SpecExpr::Var(x) => {
                if machine::variable(r.st, x) is Ok {
                    full_variable(ns, d, locals, r.st, x);
                }
            },
            SpecExpr::Binary { op, lhs, rhs } => {
                full_eval(m, ns, strict, d, locals, r, *lhs, f);
                full_eval(m, ns, strict, d, locals, r, *rhs, f);
            },
            SpecExpr::If { condition, then_branch, else_branch } => {
                full_eval(m, ns, true, d, locals, r, *condition, f);
                full_eval(m, ns, strict, d, locals, r, *then_branch, f);
                full_eval(m, ns, strict, d, locals, r, *else_branch, f);
            },
            SpecExpr::Unsafe { body } => {
                let inside = semantics::with_st(
                    r,
                    machine::enter(SpecState { in_unsafe: true, ..r.st }),
                );
                lemma_enter_known(ns, d, locals, r.st.env);
                assert(computes_body(ns, strict, body));
                full_body(m, ns, strict, d, locals.push(Seq::empty()), inside, body, 0, f);
            },
            _ => {},
        }
    }
}

proof fn lemma_enter_known(
    ns: Known,
    d: SpecDag,
    locals: Seq<SpecScope>,
    env: SpecEnv,
)
    requires
        known(ns, d, locals, env),
    ensures
        known(ns, d, locals.push(Seq::empty()), env.push(Seq::empty())),
{
    let (l, e) = (locals.push(Seq::empty()), env.push(Seq::empty()));
    assert forall|i: int| 1 <= i < e.len() implies scope_known(ns, #[trigger] l[i], e[i]) by {
        if i < env.len() {
            assert(l[i] == locals[i] && e[i] == env[i]);
        }
    }
}

proof fn lemma_leave_known(
    ns: Known,
    d: SpecDag,
    locals: Seq<SpecScope>,
    env: SpecEnv,
)
    requires
        known(ns, d, locals, env),
        env.len() > 1,
    ensures
        known(ns, d, locals.drop_last(), env.drop_last()),
{
    let (l, e) = (locals.drop_last(), env.drop_last());
    assert forall|i: int| 1 <= i < e.len() implies scope_known(ns, #[trigger] l[i], e[i]) by {
        assert(l[i] == locals[i] && e[i] == env[i]);
    }
}

proof fn full_body(
    m: NumberModel,
    ns: Known,
    strict: bool,
    d: SpecDag,
    locals: Seq<SpecScope>,
    r: Run,
    ss: Seq<SpecStmt>,
    i: int,
    fuel: nat,
)
    requires
        known(ns, d, locals, r.st.env),
        r.st.env.len() > 1,
        r.st.in_unsafe,
        0 <= i,
        computes_body(ns, strict, ss),
        apart(ns),
        fuel <= trace::MAX_UNROLL_ITERS,
    ensures
        semantics::body_run(m, r, ss, i, fuel) matches Meaning::Is(flow, r1) ==> {
            &&& r1 == semantics::with_st(r, machine::with_env(r.st, r1.st.env))
            &&& r1.st.env.len() == r.st.env.len()
            &&& flow_known(ns, strict, d, trace::trace_stmts(m, d, locals, ss, i), flow, r1.st.env)
        },
    decreases fuel,
{
    if fuel > 0 && i < ss.len() {
        let f = (fuel - 1) as nat;
        assert(computes_stmt(ns, strict, ss[i]));
        if f > 0 {
            let g = (f - 1) as nat;
            match ss[i] {
                SpecStmt::Return(e) => full_eval(m, ns, strict, d, locals, r, e, g),
                SpecStmt::Assign { name, value, mutable } => {
                    if g > 0 {
                        assert(machine::source(m, r.st, name, value) == SpecControl::Eval(value));
                        let sure = ns.fixed.contains(name);
                        full_eval(m, ns, sure, d, locals, r, value, (g - 1) as nat);
                        if let Meaning::Is(flow, r1) = semantics::exec(m, r, ss[i], f) {
                            let p = trace::trace(m, d, locals, value);
                            let v = semantics::eval(m, r, value, (g - 1) as nat)->Is_0;
                            full_assign(ns, d, locals, r.st, name, p, v, mutable);
                            full_body(
                                m,
                                ns,
                                strict,
                                d,
                                trace::assign(locals, name, p, mutable),
                                r1,
                                ss,
                                i + 1,
                                f,
                            );
                        }
                    }
                },
                SpecStmt::While { condition, body } => {
                    assert(computes_body(ns, strict, body));
                    full_looped(m, ns, strict, d, locals, r, condition, body, 0, g);
                    if let Meaning::Is(flow, r1) = semantics::exec(m, r, ss[i], f) {
                        if flow is Normal {
                            let (p, after) = trace::trace_loop(m, d, locals, ss[i], 0);
                            full_body(m, ns, strict, d, after, r1, ss, i + 1, f);
                        }
                    }
                },
                _ => {},
            }
        }
    }
}

proof fn full_looped(
    m: NumberModel,
    ns: Known,
    strict: bool,
    d: SpecDag,
    locals: Seq<SpecScope>,
    r: Run,
    c: SpecExpr,
    body: Seq<SpecStmt>,
    k: nat,
    fuel: nat,
)
    requires
        known(ns, d, locals, r.st.env),
        r.st.env.len() > 1,
        r.st.in_unsafe,
        computes(ns, true, c),
        computes_body(ns, strict, body),
        apart(ns),
        k + fuel <= trace::MAX_UNROLL_ITERS,
    ensures
        semantics::looped(m, r, c, body, fuel) matches Meaning::Is(flow, r1) ==> {
            &&& r1 == semantics::with_st(r, machine::with_env(r.st, r1.st.env))
            &&& r1.st.env.len() == r.st.env.len()
            &&& flow_known(
                ns,
                strict,
                d,
                trace::trace_loop(m, d, locals, SpecStmt::While { condition: c, body }, k),
                flow,
                r1.st.env,
            )
        },
    decreases fuel,
{
    if fuel > 0 {
        let f = (fuel - 1) as nat;
        full_eval(m, ns, true, d, locals, r, c, f);
        if let Meaning::Is(v, r0) = semantics::eval(m, r, c, f) {
            let inside = semantics::with_st(r, machine::enter(r.st));
            let inner = locals.push(Seq::empty());
            lemma_enter_known(ns, d, locals, r.st.env);
            full_body(m, ns, strict, d, inner, inside, body, 0, f);
            if let Meaning::Is(flow, r2) = semantics::body_run(m, inside, body, 0, f) {
                if flow is Normal {
                    let (p, after) = trace::trace_stmts(m, d, inner, body, 0);
                    lemma_leave_known(ns, d, after, r2.st.env);
                    full_looped(
                        m,
                        ns,
                        strict,
                        d,
                        after.drop_last(),
                        semantics::with_st(r2, machine::leave(r2.st)),
                        c,
                        body,
                        k + 1,
                        f,
                    );
                }
            }
        }
    }
}

/// What computes with fixed values alone is fixed: where a run of it gives a value
/// within as many steps as loops are unrolled, the trace has found that value. So
/// it is for loops and for every operator.
pub proof fn law_constants_are_found(
    m: NumberModel,
    ns: Known,
    d: SpecDag,
    locals: Seq<SpecScope>,
    r: Run,
    e: SpecExpr,
    fuel: nat,
)
    requires
        apart(ns),
        known(ns, d, locals, r.st.env),
        computes(ns, true, e),
        fuel <= trace::MAX_UNROLL_ITERS,
        semantics::eval(m, r, e, fuel) is Is,
    ensures
        trace::trace(m, d, locals, e) matches SpecProv::Fixed(l) && lit_value(l)
            == semantics::eval(m, r, e, fuel)->Is_0,
{
    full_eval(m, ns, true, d, locals, r, e, fuel);
}

/// What computes with fixed values, params and formulas, and decides by fixed values
/// alone, is fixed or a formula: where a run of it gives a value within as many steps
/// as loops are unrolled, it is not live. So loops that params do not control are
/// unrolled, whatever they compute.
pub proof fn law_formulas_are_found(
    m: NumberModel,
    ns: Known,
    d: SpecDag,
    locals: Seq<SpecScope>,
    r: Run,
    e: SpecExpr,
    fuel: nat,
)
    requires
        apart(ns),
        known(ns, d, locals, r.st.env),
        computes(ns, false, e),
        fuel <= trace::MAX_UNROLL_ITERS,
        semantics::eval(m, r, e, fuel) is Is,
    ensures
        trace::trace(m, d, locals, e) !is Live,
{
    full_eval(m, ns, false, d, locals, r, e, fuel);
}

/// An assignment of what computes with fixed values alone makes a fixed node, with
/// the value that a run gives the name. One of what computes with params and formulas
/// too, and decides by fixed values alone, makes a fixed node or a formula.
pub proof fn law_computed_assignments_are_found(
    m: NumberModel,
    ns: Known,
    strict: bool,
    d: SpecDag,
    r: Run,
    value: SpecExpr,
    fuel: nat,
)
    requires
        apart(ns),
        r.st.env.len() == 1,
        top_known(ns, d, r.st.env[0]),
        computes(ns, strict, value),
        value !is Int && value !is Float && value !is Str,
        fuel <= trace::MAX_UNROLL_ITERS,
        semantics::eval(m, r, value, fuel) is Is,
    ensures
        match dag::operation_of(m, d, value, false) {
            SpecOperation::Fixed { value: l, original } => original == value && lit_value(l)
                == semantics::eval(m, r, value, fuel)->Is_0,
            SpecOperation::Formula { original, .. } => original == value && !strict,
            _ => false,
        },
{
    full_eval(m, ns, strict, d, seq![Seq::empty()], r, value, fuel);
}

} // verus!
