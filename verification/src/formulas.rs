//! That a formula computes what the code computes that it stands for.

#[allow(unused_imports)]
use crate::ast::{BinOp, SpecExpr, SpecStmt};
#[allow(unused_imports)]
use crate::dag;
#[allow(unused_imports)]
use crate::dag_laws;
#[allow(unused_imports)]
use crate::graph::{self, SpecDag, SpecLit};
#[allow(unused_imports)]
use crate::machine::{self, SpecCallee, SpecControl, SpecEnv, SpecFlow, SpecPending, SpecState};
#[allow(unused_imports)]
use crate::names;
#[allow(unused_imports)]
use crate::number::{self, NumberModel};
#[allow(unused_imports)]
use crate::semantics::{self, Meaning, Run};
#[allow(unused_imports)]
use crate::soundness;
#[allow(unused_imports)]
use crate::trace::{self, SpecProv, SpecScope};
#[allow(unused_imports)]
use crate::value::{self, SpecBinding, SpecResult, SpecValue};
use vstd::prelude::*;

verus! {

pub type Scope = Seq<(Seq<char>, SpecBinding)>;

// ---- the value of a formula -------------------------------------------

/// The value of an expression in closed form, where names stand for what
/// `scope` says.
pub open spec fn value_in(m: NumberModel, scope: Scope, e: SpecExpr) -> SpecResult
    decreases e,
{
    match e {
        SpecExpr::Int(n) => Ok(SpecValue::Number(number::bits_of_int(n as int))),
        SpecExpr::Float(n) => Ok(SpecValue::Number(n)),
        SpecExpr::Str(s) => Ok(SpecValue::Str(s)),
        SpecExpr::Var(name) => match names::lookup(scope, name) {
            Some(b) => Ok(b.value),
            None => Err("undefined variable `"@ + name + "`"@),
        },
        SpecExpr::Binary { op, lhs, rhs } => match value_in(m, scope, *lhs) {
            Err(x) => Err(x),
            Ok(x) => match value::number_of(m, x) {
                Err(x) => Err(x),
                Ok(a) => match value_in(m, scope, *rhs) {
                    Err(x) => Err(x),
                    Ok(y) => match value::number_of(m, y) {
                        Err(x) => Err(x),
                        Ok(b) => machine::binary_value(m, op, a, b),
                    },
                },
            },
        },
        SpecExpr::If { condition, then_branch, else_branch } => {
            match value_in(m, scope, *condition) {
                Err(x) => Err(x),
                Ok(v) => match machine::condition(m, "if"@, v) {
                    Err(x) => Err(x),
                    Ok(true) => value_in(m, scope, *then_branch),
                    Ok(false) => value_in(m, scope, *else_branch),
                },
            }
        },
        _ => Err(Seq::empty()),
    }
}

/// Every name of the expression stands for something and is no ticker.
pub open spec fn grounded(ts: Set<Seq<char>>, scope: Scope, e: SpecExpr) -> bool
    decreases e,
{
    match e {
        SpecExpr::Int(_) => true,
        SpecExpr::Float(_) => true,
        SpecExpr::Str(_) => true,
        SpecExpr::Var(x) => !ts.contains(x) && names::lookup(scope, x) is Some,
        SpecExpr::Binary { lhs, rhs, .. } => grounded(ts, scope, *lhs) && grounded(
            ts,
            scope,
            *rhs,
        ),
        SpecExpr::If { condition, then_branch, else_branch } => grounded(ts, scope, *condition)
            && grounded(ts, scope, *then_branch) && grounded(ts, scope, *else_branch),
        _ => false,
    }
}

/// What stood for something and is no ticker stands for the same.
pub open spec fn extends(ts: Set<Seq<char>>, a: Scope, b: Scope) -> bool {
    forall|x: Seq<char>|
        !ts.contains(x) && names::lookup(a, x) is Some ==> #[trigger] names::lookup(b, x)
            == names::lookup(a, x)
}

proof fn lemma_value_stays(m: NumberModel, ts: Set<Seq<char>>, a: Scope, b: Scope, e: SpecExpr)
    requires
        extends(ts, a, b),
        grounded(ts, a, e),
    ensures
        grounded(ts, b, e),
        value_in(m, b, e) == value_in(m, a, e),
    decreases e,
{
    match e {
        SpecExpr::Var(x) => {
            assert(names::lookup(b, x) == names::lookup(a, x));
        },
        SpecExpr::Binary { lhs, rhs, .. } => {
            lemma_value_stays(m, ts, a, b, *lhs);
            lemma_value_stays(m, ts, a, b, *rhs);
        },
        SpecExpr::If { condition, then_branch, else_branch } => {
            lemma_value_stays(m, ts, a, b, *condition);
            lemma_value_stays(m, ts, a, b, *then_branch);
            lemma_value_stays(m, ts, a, b, *else_branch);
        },
        _ => {},
    }
}

/// How deep an expression is.
pub open spec fn depth(e: SpecExpr) -> nat
    decreases e,
{
    match e {
        SpecExpr::Binary { lhs, rhs, .. } => 1 + depth(*lhs) + depth(*rhs),
        SpecExpr::If { condition, then_branch, else_branch } => 1 + depth(*condition) + depth(
            *then_branch,
        ) + depth(*else_branch),
        _ => 1,
    }
}

pub(crate) proof fn lemma_eval_closed(
    m: NumberModel,
    ts: Set<Seq<char>>,
    r: Run,
    e: SpecExpr,
    fuel: nat,
)
    requires
        r.st.env.len() == 1,
        grounded(ts, r.st.env[0], e),
        fuel >= depth(e),
    ensures
        semantics::eval(m, r, e, fuel) == semantics::outcome(value_in(m, r.st.env[0], e), r),
    decreases e,
{
    let f = (fuel - 1) as nat;
    match e {
        SpecExpr::Var(x) => {
            assert(names::scope_of(r.st.env, x, 1) == 1);
        },
        SpecExpr::Binary { lhs, rhs, .. } => {
            lemma_eval_closed(m, ts, r, *lhs, f);
            lemma_eval_closed(m, ts, r, *rhs, f);
        },
        SpecExpr::If { condition, then_branch, else_branch } => {
            lemma_eval_closed(m, ts, r, *condition, f);
            lemma_eval_closed(m, ts, r, *then_branch, f);
            lemma_eval_closed(m, ts, r, *else_branch, f);
        },
        _ => {},
    }
}

// ---- what expressions leave alone -------------------------------------

/// Every name but those of tickers stands for the same in every scope.
pub open spec fn undisturbed(ts: Set<Seq<char>>, a: SpecEnv, b: SpecEnv) -> bool {
    &&& a.len() == b.len()
    &&& forall|i: int, x: Seq<char>|
        0 <= i < a.len() && !ts.contains(x) ==> #[trigger] names::lookup(b[i], x)
            == names::lookup(a[i], x)
}

proof fn lemma_undisturbed(ts: Set<Seq<char>>, a: SpecEnv, b: SpecEnv, c: SpecEnv)
    requires
        undisturbed(ts, a, b),
        undisturbed(ts, b, c),
    ensures
        undisturbed(ts, a, c),
{
    assert forall|i: int, x: Seq<char>|
        0 <= i < a.len() && !ts.contains(x) implies #[trigger] names::lookup(c[i], x)
            == names::lookup(a[i], x) by {
        assert(names::lookup(b[i], x) == names::lookup(a[i], x));
    }
}

proof fn calm_fetched(ts: Set<Seq<char>>, r: Run, p: SpecPending, fuel: nat)
    requires
        r.st.env.len() > 0,
        soundness::ticker_asked(p) matches Some(t) && ts.contains(t),
    ensures
        semantics::fetched(r, p, fuel) matches Meaning::Is(_, r1) ==> undisturbed(
            ts,
            r.st.env,
            r1.st.env,
        ),
    decreases fuel,
{
    if fuel > 0 && r.replies.len() > 0 {
        let (st, control) = machine::reply_step(r.st, p, r.replies[0]);
        let after = semantics::with_st(semantics::after_asking(r, p), st);
        match control {
            SpecControl::Wait(q) => calm_fetched(ts, after, q, (fuel - 1) as nat),
            SpecControl::Give(v) => {
                let t = soundness::ticker_asked(p)->0;
                let b = SpecBinding { value: v, mutable: false };
                let last = r.st.env.len() - 1;
                assert(st == machine::declare(r.st, t, b));
                assert forall|i: int, x: Seq<char>|
                    0 <= i < r.st.env.len() && !ts.contains(x) implies #[trigger] names::lookup(
                    st.env[i],
                    x,
                ) == names::lookup(r.st.env[i], x) by {
                    if i == last {
                        names::law_put(r.st.env[last], t, b, x);
                    }
                }
            },
            _ => {},
        }
    }
}

/// Evaluating an expression changes nothing but the names of tickers.
proof fn calm_eval(m: NumberModel, ts: Set<Seq<char>>, r: Run, e: SpecExpr, fuel: nat)
    requires
        r.st.env.len() > 0,
        soundness::apart(ts, e),
    ensures
        semantics::eval(m, r, e, fuel) matches Meaning::Is(_, r1) ==> undisturbed(
            ts,
            r.st.env,
            r1.st.env,
        ),
    decreases fuel,
{
    if fuel > 0 {
        let f = (fuel - 1) as nat;
        match e {
            SpecExpr::Field { base, .. } => calm_eval(m, ts, r, *base, f),
            SpecExpr::Subset { base, .. } => match dag::ticker_of(e) {
                Some(t) => calm_fetched(ts, r, SpecPending::Directory(t), f),
                None => calm_eval(m, ts, r, *base, f),
            },
            SpecExpr::Binary { lhs, rhs, .. } => {
                calm_eval(m, ts, r, *lhs, f);
                if let Meaning::Is(_, r1) = semantics::eval(m, r, *lhs, f) {
                    calm_eval(m, ts, r1, *rhs, f);
                    if let Meaning::Is(_, r2) = semantics::eval(m, r1, *rhs, f) {
                        lemma_undisturbed(ts, r.st.env, r1.st.env, r2.st.env);
                    }
                }
            },
            SpecExpr::If { condition, then_branch, else_branch } => {
                calm_eval(m, ts, r, *condition, f);
                if let Meaning::Is(_, r1) = semantics::eval(m, r, *condition, f) {
                    calm_eval(m, ts, r1, *then_branch, f);
                    calm_eval(m, ts, r1, *else_branch, f);
                    if let Meaning::Is(_, r2) = semantics::eval(m, r1, *then_branch, f) {
                        lemma_undisturbed(ts, r.st.env, r1.st.env, r2.st.env);
                    }
                    if let Meaning::Is(_, r2) = semantics::eval(m, r1, *else_branch, f) {
                        lemma_undisturbed(ts, r.st.env, r1.st.env, r2.st.env);
                    }
                }
            },
            SpecExpr::Call { name, args } => {
                if let Ok(c) = machine::callee(r.st, name, args.len()) {
                    calm_applied(m, ts, r, c, Seq::empty(), args, f);
                }
            },
            _ => {},
        }
    }
}

proof fn calm_applied(
    m: NumberModel,
    ts: Set<Seq<char>>,
    r: Run,
    c: SpecCallee,
    done: Seq<SpecValue>,
    args: Seq<SpecExpr>,
    fuel: nat,
)
    requires
        r.st.env.len() > 0,
        forall|i: int| 0 <= i < args.len() ==> soundness::apart(ts, #[trigger] args[i]),
    ensures
        semantics::applied(m, r, c, done, args, fuel) matches Meaning::Is(_, r1) ==> undisturbed(
            ts,
            r.st.env,
            r1.st.env,
        ),
    decreases fuel,
{
    if fuel > 0 && done.len() < args.len() {
        let f = (fuel - 1) as nat;
        let e = args[done.len() as int];
        calm_eval(m, ts, r, e, f);
        if let Meaning::Is(v, r1) = semantics::eval(m, r, e, f) {
            calm_applied(m, ts, r1, c, done.push(v), args, f);
            if let Meaning::Is(_, r2) = semantics::applied(m, r1, c, done.push(v), args, f) {
                lemma_undisturbed(ts, r.st.env, r1.st.env, r2.st.env);
            }
        }
    }
}

proof fn calm_printed(
    m: NumberModel,
    ts: Set<Seq<char>>,
    r: Run,
    out: Seq<char>,
    es: Seq<SpecExpr>,
    i: int,
    fuel: nat,
)
    requires
        r.st.env.len() > 0,
        forall|j: int| 0 <= j < es.len() ==> soundness::apart(ts, #[trigger] es[j]),
    ensures
        semantics::printed(m, r, out, es, i, fuel) matches Meaning::Is(_, r1) ==> undisturbed(
            ts,
            r.st.env,
            r1.st.env,
        ),
    decreases fuel,
{
    if fuel > 0 && 0 <= i < es.len() {
        let f = (fuel - 1) as nat;
        calm_eval(m, ts, r, es[i], f);
        if let Meaning::Is(v, r1) = semantics::eval(m, r, es[i], f) {
            let longer = out + value::value_text(m, v);
            calm_printed(m, ts, r1, longer, es, i + 1, f);
            if let Meaning::Is(_, r2) = semantics::printed(m, r1, longer, es, i + 1, f) {
                lemma_undisturbed(ts, r.st.env, r1.st.env, r2.st.env);
            }
        }
    }
}

proof fn calm_source(m: NumberModel, ts: Set<Seq<char>>, r: Run, name: Seq<char>, e: SpecExpr, fuel:
    nat)
    requires
        r.st.env.len() > 0,
        soundness::apart(ts, e),
    ensures
        semantics::assigned_value(m, r, name, e, fuel) matches Meaning::Is(_, r1) ==> undisturbed(
            ts,
            r.st.env,
            r1.st.env,
        ),
{
    if fuel > 0 {
        if let SpecControl::Eval(e1) = machine::source(m, r.st, name, e) {
            calm_eval(m, ts, r, e1, (fuel - 1) as nat);
        }
    }
}

// ---- formulas of a trace ----------------------------------------------

/// A trace that is a formula has the value of the formula.
pub open spec fn computes(m: NumberModel, top: Scope, p: SpecProv, v: SpecValue) -> bool {
    p matches SpecProv::Formula(e) ==> value_in(m, top, e) == Ok::<SpecValue, Seq<char>>(v)
}

/// The formulas of a scope compute what the names of the run stand for.
pub open spec fn scope_computes(m: NumberModel, top: Scope, traced: SpecScope, scope: Scope) -> bool {
    forall|x: Seq<char>|
        #[trigger] names::lookup(traced, x) matches Some(p) ==> names::lookup(
            scope,
            x,
        ) matches Some(b) && computes(m, top, p, b.value)
}

/// The formulas of a graph compute what the names of the run stand for, and
/// every node has its name there.
pub open spec fn top_computes(m: NumberModel, ts: Set<Seq<char>>, d: SpecDag, top: Scope) -> bool {
    &&& forall|i: int|
        0 <= i < d.nodes.len() ==> !ts.contains((#[trigger] d.nodes[i]).name) && names::lookup(
            top,
            d.nodes[i].name,
        ) is Some
    &&& forall|x: Seq<char>|
        #[trigger] graph::node_of(d, x) matches Some(node) ==> {
            &&& node.name == x
            &&& names::lookup(top, x) matches Some(b) && computes(
                m,
                top,
                trace::prov_of_node(node),
                b.value,
            )
        }
}

/// The formulas of the graph and of the locals compute what the names of the
/// run stand for.
pub open spec fn all_compute(
    m: NumberModel,
    ts: Set<Seq<char>>,
    d: SpecDag,
    locals: Seq<SpecScope>,
    env: SpecEnv,
) -> bool {
    &&& soundness::agrees(ts, d, locals, env)
    &&& graph::dag_wf(d)
    &&& dag_laws::formulas_closed(d)
    &&& dag_laws::locals_closed(d, locals)
    &&& top_computes(m, ts, d, env[0])
    &&& forall|i: int|
        1 <= i < env.len() ==> scope_computes(m, env[0], #[trigger] locals[i], env[i])
}

pub(crate) proof fn lemma_grounded(ts: Set<Seq<char>>, m: NumberModel, d: SpecDag, top: Scope, e: SpecExpr)
    requires
        top_computes(m, ts, d, top),
        dag_laws::closed_form(d, e),
    ensures
        grounded(ts, top, e),
    decreases e,
{
    match e {
        SpecExpr::Var(x) => {
            let i = choose|i: int|
                0 <= i < d.nodes.len() && (#[trigger] d.nodes[i]).name == x
                    && d.nodes[i].op is Param;
            assert(d.nodes[i].name == x);
        },
        SpecExpr::Binary { lhs, rhs, .. } => {
            lemma_grounded(ts, m, d, top, *lhs);
            lemma_grounded(ts, m, d, top, *rhs);
        },
        SpecExpr::If { condition, then_branch, else_branch } => {
            lemma_grounded(ts, m, d, top, *condition);
            lemma_grounded(ts, m, d, top, *then_branch);
            lemma_grounded(ts, m, d, top, *else_branch);
        },
        _ => {},
    }
}

proof fn lemma_computes_stays(
    m: NumberModel,
    ts: Set<Seq<char>>,
    d: SpecDag,
    a: Scope,
    b: Scope,
    p: SpecProv,
    v: SpecValue,
)
    requires
        top_computes(m, ts, d, a),
        extends(ts, a, b),
        dag_laws::closed_prov(d, p),
        computes(m, a, p, v),
    ensures
        computes(m, b, p, v),
{
    if let SpecProv::Formula(e) = p {
        lemma_grounded(ts, m, d, a, e);
        lemma_value_stays(m, ts, a, b, e);
    }
}

proof fn lemma_top_stays(m: NumberModel, ts: Set<Seq<char>>, d: SpecDag, a: Scope, b: Scope)
    requires
        graph::dag_wf(d),
        dag_laws::formulas_closed(d),
        top_computes(m, ts, d, a),
        extends(ts, a, b),
    ensures
        top_computes(m, ts, d, b),
{
    assert forall|i: int| 0 <= i < d.nodes.len() implies !ts.contains(
        (#[trigger] d.nodes[i]).name,
    ) && names::lookup(b, d.nodes[i].name) is Some by {
        assert(names::lookup(b, d.nodes[i].name) == names::lookup(a, d.nodes[i].name));
    }
    assert forall|x: Seq<char>|
        (#[trigger] graph::node_of(d, x) matches Some(node) ==> {
            &&& node.name == x
            &&& names::lookup(b, x) matches Some(y) && computes(
                m,
                b,
                trace::prov_of_node(node),
                y.value,
            )
        }) by {
        if let Some(node) = graph::node_of(d, x) {
            lemma_node_of(d, x);
            assert(names::lookup(b, x) == names::lookup(a, x));
            lemma_prov_closed(d, x);
            lemma_computes_stays(
                m,
                ts,
                d,
                a,
                b,
                trace::prov_of_node(node),
                names::lookup(a, x)->0.value,
            );
        }
    }
}

proof fn lemma_node_of(d: SpecDag, x: Seq<char>)
    requires
        graph::dag_wf(d),
        graph::node_of(d, x) is Some,
    ensures
        exists|i: int| 0 <= i < d.nodes.len() && d.nodes[i] == graph::node_of(d, x)->0,
{
    names::lemma_find(d.env, x, 0);
    let id = names::lookup(d.env, x)->0;
    assert(d.env[names::find_from(d.env, x, 0)].1 < d.nodes.len());
    assert(d.nodes[id as int] == graph::node_of(d, x)->0);
}

pub(crate) proof fn lemma_prov_closed(d: SpecDag, x: Seq<char>)
    requires
        graph::dag_wf(d),
        dag_laws::formulas_closed(d),
        graph::node_of(d, x) is Some,
    ensures
        dag_laws::closed_prov(d, trace::prov_of_node(graph::node_of(d, x)->0)),
{
    lemma_node_of(d, x);
    let node = graph::node_of(d, x)->0;
    let i = choose|i: int| 0 <= i < d.nodes.len() && d.nodes[i] == node;
    assert(d.nodes[i].name == node.name);
}

/// Nothing that an expression does disturbs the formulas.
proof fn lemma_undisturbed_computes(
    m: NumberModel,
    ts: Set<Seq<char>>,
    d: SpecDag,
    locals: Seq<SpecScope>,
    a: SpecEnv,
    b: SpecEnv,
)
    requires
        all_compute(m, ts, d, locals, a),
        soundness::agrees(ts, d, locals, b),
        undisturbed(ts, a, b),
    ensures
        all_compute(m, ts, d, locals, b),
        extends(ts, a[0], b[0]),
{
    assert(extends(ts, a[0], b[0]));
    lemma_top_stays(m, ts, d, a[0], b[0]);
    assert forall|i: int| 1 <= i < b.len() implies scope_computes(
        m,
        b[0],
        #[trigger] locals[i],
        b[i],
    ) by {
        assert(scope_computes(m, a[0], locals[i], a[i]));
        assert(soundness::scope_agrees(ts, locals[i], a[i]));
        assert(dag_laws::scope_closed(d, locals[i]));
        assert forall|x: Seq<char>|
            (#[trigger] names::lookup(locals[i], x) matches Some(p) ==> names::lookup(
                b[i],
                x,
            ) matches Some(y) && computes(m, b[0], p, y.value)) by {
            if let Some(p) = names::lookup(locals[i], x) {
                names::lemma_find(locals[i], x, 0);
                assert(names::lookup(b[i], x) == names::lookup(a[i], x));
                lemma_computes_stays(
                    m,
                    ts,
                    d,
                    a[0],
                    b[0],
                    p,
                    names::lookup(a[i], x)->0.value,
                );
            }
        }
    }
}

/// What is written for a trace has the value of the trace.
proof fn lemma_written(m: NumberModel, top: Scope, p: SpecProv, v: SpecValue)
    requires
        soundness::truthful(p, v),
        computes(m, top, p, v),
    ensures
        trace::formula(p) matches Some(e) ==> value_in(m, top, e) == Ok::<SpecValue, Seq<char>>(v),
{
    if let SpecProv::Fixed(SpecLit::Number(n)) = p {
        if n != number::SIGN && number::short_int(n) is Some {
            number::law_short_ints_convert_back(n);
        }
    }
}

// ---- running ----------------------------------------------------------

proof fn right_variable(
    m: NumberModel,
    ts: Set<Seq<char>>,
    d: SpecDag,
    locals: Seq<SpecScope>,
    st: SpecState,
    x: Seq<char>,
)
    requires
        all_compute(m, ts, d, locals, st.env),
    ensures
        machine::variable(st, x) matches Ok(v) ==> computes(
            m,
            st.env[0],
            trace::read(d, locals, x),
            v,
        ),
{
    let n = st.env.len() as int;
    soundness::sound_read(ts, d, locals, st.env, x, n);
    names::lemma_scope_of(st.env, x, n);
    names::lemma_scope_of(locals, x, n);
    let i = names::scope_of(locals, x, n);
    if i > 0 {
        assert(scope_computes(m, st.env[0], locals[i - 1], st.env[i - 1]));
        assert(names::lookup(locals[i - 1], x) is Some);
    } else if let Some(node) = graph::node_of(d, x) {
        lemma_node_of(d, x);
        assert(names::lookup(st.env[0], x) is Some);
        let k = choose|k: int| 0 <= k < d.nodes.len() && d.nodes[k] == node;
        assert(!ts.contains(d.nodes[k].name));
    }
}

/// The value of an expression is that of the formula that it is traced to.
proof fn right_eval(
    m: NumberModel,
    ts: Set<Seq<char>>,
    d: SpecDag,
    locals: Seq<SpecScope>,
    r: Run,
    e: SpecExpr,
    fuel: nat,
)
    requires
        all_compute(m, ts, d, locals, r.st.env),
        soundness::apart(ts, e),
    ensures
        semantics::eval(m, r, e, fuel) matches Meaning::Is(v, r1) ==> {
            &&& all_compute(m, ts, d, locals, r1.st.env)
            &&& computes(m, r1.st.env[0], trace::trace(m, d, locals, e), v)
        },
    decreases fuel, 1nat,
{
    if fuel > 0 {
        let f = (fuel - 1) as nat;
        calm_eval(m, ts, r, e, fuel);
        soundness::sound_eval(m, ts, d, locals, r, e, fuel);
        if let Meaning::Is(v, r1) = semantics::eval(m, r, e, fuel) {
            lemma_undisturbed_computes(m, ts, d, locals, r.st.env, r1.st.env);
        }
        match e {
            SpecExpr::Var(x) => right_variable(m, ts, d, locals, r.st, x),
            SpecExpr::Binary { op, lhs, rhs } => {
                right_binary(m, ts, d, locals, r, op, *lhs, *rhs, fuel);
            },
            SpecExpr::If { condition, then_branch, else_branch } => {
                right_if(m, ts, d, locals, r, *condition, *then_branch, *else_branch, fuel);
            },
            SpecExpr::Unsafe { body } => {
                let inside = semantics::with_st(
                    r,
                    machine::enter(SpecState { in_unsafe: true, ..r.st }),
                );
                lemma_enter_computes(m, ts, d, locals, r.st.env);
                assert(soundness::apart_stmts(ts, body));
                right_body(m, ts, d, locals.push(Seq::empty()), inside, body, 0, f);
                if let Meaning::Is(flow, r1) = semantics::body_run(m, inside, body, 0, f) {
                    soundness::sound_body(
                        m,
                        ts,
                        d,
                        locals.push(Seq::empty()),
                        inside,
                        body,
                        0,
                        f,
                    );
                }
            },
            _ => {},
        }
    }
}

proof fn right_binary(
    m: NumberModel,
    ts: Set<Seq<char>>,
    d: SpecDag,
    locals: Seq<SpecScope>,
    r: Run,
    op: BinOp,
    lhs: SpecExpr,
    rhs: SpecExpr,
    fuel: nat,
)
    requires
        fuel > 0,
        all_compute(m, ts, d, locals, r.st.env),
        soundness::apart(ts, lhs),
        soundness::apart(ts, rhs),
    ensures
        ({
            let e = SpecExpr::Binary { op, lhs: Box::new(lhs), rhs: Box::new(rhs) };
            semantics::eval(m, r, e, fuel) matches Meaning::Is(v, r1) ==> computes(
                m,
                r1.st.env[0],
                trace::trace(m, d, locals, e),
                v,
            )
        }),
    decreases fuel, 0nat,
{
    let f = (fuel - 1) as nat;
    let e = SpecExpr::Binary { op, lhs: Box::new(lhs), rhs: Box::new(rhs) };
    let tl = trace::trace(m, d, locals, lhs);
    let tr = trace::trace(m, d, locals, rhs);
    right_eval(m, ts, d, locals, r, lhs, f);
    soundness::sound_eval(m, ts, d, locals, r, lhs, f);
    if let Meaning::Is(x, r1) = semantics::eval(m, r, lhs, f) {
        right_eval(m, ts, d, locals, r1, rhs, f);
        soundness::sound_eval(m, ts, d, locals, r1, rhs, f);
        if let Meaning::Is(y, r2) = semantics::eval(m, r1, rhs, f) {
            calm_eval(m, ts, r1, rhs, f);
            lemma_undisturbed_computes(m, ts, d, locals, r1.st.env, r2.st.env);
            dag_laws::lemma_trace_closed(m, d, locals, lhs);
            lemma_computes_stays(m, ts, d, r1.st.env[0], r2.st.env[0], tl, x);
            if trace::trace(m, d, locals, e) is Formula {
                lemma_written(m, r2.st.env[0], tl, x);
                lemma_written(m, r2.st.env[0], tr, y);
            }
        }
    }
}

proof fn right_if(
    m: NumberModel,
    ts: Set<Seq<char>>,
    d: SpecDag,
    locals: Seq<SpecScope>,
    r: Run,
    c: SpecExpr,
    a: SpecExpr,
    b: SpecExpr,
    fuel: nat,
)
    requires
        fuel > 0,
        all_compute(m, ts, d, locals, r.st.env),
        soundness::apart(ts, c),
        soundness::apart(ts, a),
        soundness::apart(ts, b),
    ensures
        ({
            let e = SpecExpr::If {
                condition: Box::new(c),
                then_branch: Box::new(a),
                else_branch: Box::new(b),
            };
            semantics::eval(m, r, e, fuel) matches Meaning::Is(v, r1) ==> computes(
                m,
                r1.st.env[0],
                trace::trace(m, d, locals, e),
                v,
            )
        }),
    decreases fuel, 0nat,
{
    let f = (fuel - 1) as nat;
    let tc = trace::trace(m, d, locals, c);
    right_eval(m, ts, d, locals, r, c, f);
    soundness::sound_eval(m, ts, d, locals, r, c, f);
    if let Meaning::Is(v, r1) = semantics::eval(m, r, c, f) {
        if let Ok(yes) = machine::condition(m, "if"@, v) {
            let branch = if yes {
                a
            } else {
                b
            };
            match tc {
                SpecProv::Fixed(SpecLit::Number(n)) => {
                    right_eval(m, ts, d, locals, r1, branch, f);
                },
                SpecProv::Formula(ce) => {
                    right_eval(m, ts, d, locals, r1, branch, f);
                    soundness::sound_eval(m, ts, d, locals, r1, branch, f);
                    if let Meaning::Is(w, r2) = semantics::eval(m, r1, branch, f) {
                        calm_eval(m, ts, r1, branch, f);
                        lemma_undisturbed_computes(m, ts, d, locals, r1.st.env, r2.st.env);
                        dag_laws::lemma_trace_closed(m, d, locals, c);
                        lemma_computes_stays(m, ts, d, r1.st.env[0], r2.st.env[0], tc, v);
                        lemma_written(
                            m,
                            r2.st.env[0],
                            trace::trace(m, d, locals, branch),
                            w,
                        );
                    }
                },
                _ => {},
            }
        }
    }
}

proof fn lemma_enter_computes(
    m: NumberModel,
    ts: Set<Seq<char>>,
    d: SpecDag,
    locals: Seq<SpecScope>,
    env: SpecEnv,
)
    requires
        all_compute(m, ts, d, locals, env),
    ensures
        all_compute(m, ts, d, locals.push(Seq::empty()), env.push(Seq::empty())),
{
    soundness::lemma_enter_agrees(ts, d, locals, env);
    let l = locals.push(Seq::empty());
    let e = env.push(Seq::empty());
    assert(e[0] == env[0]);
    assert forall|i: int| 0 <= i < l.len() implies dag_laws::scope_closed(d, #[trigger] l[i]) by {
        if i < locals.len() {
            assert(l[i] == locals[i]);
        }
    }
    assert forall|i: int| 1 <= i < e.len() implies scope_computes(m, e[0], #[trigger] l[i], e[i]) by {
        if i < env.len() {
            assert(l[i] == locals[i] && e[i] == env[i]);
        }
    }
}

proof fn lemma_leave_computes(
    m: NumberModel,
    ts: Set<Seq<char>>,
    d: SpecDag,
    locals: Seq<SpecScope>,
    env: SpecEnv,
)
    requires
        all_compute(m, ts, d, locals, env),
        env.len() > 1,
    ensures
        all_compute(m, ts, d, locals.drop_last(), env.drop_last()),
{
    soundness::lemma_leave_agrees(ts, d, locals, env);
    let l = locals.drop_last();
    let e = env.drop_last();
    assert forall|i: int| 0 <= i < l.len() implies dag_laws::scope_closed(d, #[trigger] l[i]) by {
        assert(l[i] == locals[i]);
    }
    assert forall|i: int| 1 <= i < e.len() implies scope_computes(m, e[0], #[trigger] l[i], e[i]) by {
        assert(l[i] == locals[i] && e[i] == env[i]);
    }
}

proof fn right_assign(
    m: NumberModel,
    ts: Set<Seq<char>>,
    d: SpecDag,
    locals: Seq<SpecScope>,
    st: SpecState,
    name: Seq<char>,
    v: SpecValue,
    p: SpecProv,
    mutable: bool,
)
    requires
        all_compute(m, ts, d, locals, st.env),
        st.env.len() > 1,
        !ts.contains(name),
        soundness::truthful(p, v),
        computes(m, st.env[0], p, v),
        dag_laws::closed_prov(d, p),
        machine::assigned(st, name, v, mutable) is Ok,
    ensures
        all_compute(
            m,
            ts,
            d,
            trace::assign(locals, name, p, mutable),
            machine::assigned(st, name, v, mutable)->Ok_0.env,
        ),
{
    soundness::sound_assign(ts, d, locals, st, name, v, p, mutable);
    dag_laws::lemma_assign_closed(d, locals, name, p, mutable);
    let n = st.env.len() as int;
    soundness::sound_read(ts, d, locals, st.env, name, n);
    names::lemma_scope_of(st.env, name, n);
    names::lemma_scope_of(locals, name, n);
    let i = names::scope_of(locals, name, n);
    let j = names::scope_of(st.env, name, n);
    let k = if mutable || i == 0 {
        n - 1
    } else {
        i - 1
    };
    if !mutable && j == 1 {
        assert(names::lookup(st.env[0], name) is Some);
    }
    let l2 = trace::assign(locals, name, p, mutable);
    let e2 = machine::assigned(st, name, v, mutable)->Ok_0.env;
    let b = SpecBinding { value: v, mutable: mutable || i > 0 };
    assert(k >= 1);
    assert(l2 == locals.update(k, names::put(locals[k], name, p)));
    assert(e2 == st.env.update(k, names::put(st.env[k], name, b)));
    assert forall|q: int| 1 <= q < e2.len() implies scope_computes(
        m,
        e2[0],
        #[trigger] l2[q],
        e2[q],
    ) by {
        assert(scope_computes(m, st.env[0], locals[q], st.env[q]));
        if q == k {
            assert forall|x: Seq<char>|
                (#[trigger] names::lookup(l2[k], x) matches Some(q) ==> names::lookup(
                    e2[k],
                    x,
                ) matches Some(y) && computes(m, e2[0], q, y.value)) by {
                names::law_put(locals[k], name, p, x);
                names::law_put(st.env[k], name, b, x);
                if x != name {
                    assert(names::lookup(l2[k], x) == names::lookup(locals[k], x));
                }
            }
        }
    }
}

/// What statements return is what the formula computes that they are traced
/// to.
pub open spec fn flow_computes(
    m: NumberModel,
    ts: Set<Seq<char>>,
    d: SpecDag,
    traced: (Option<SpecProv>, Seq<SpecScope>),
    flow: SpecFlow,
    env: SpecEnv,
    top: Scope,
) -> bool {
    match traced.0 {
        None => all_compute(m, ts, d, traced.1, env) && extends(ts, top, env[0]),
        Some(SpecProv::Formula(e)) => flow matches SpecFlow::Return(v) && computes(
            m,
            top,
            SpecProv::Formula(e),
            v,
        ),
        Some(_) => true,
    }
}

pub(crate) proof fn right_source(
    m: NumberModel,
    ts: Set<Seq<char>>,
    d: SpecDag,
    locals: Seq<SpecScope>,
    r: Run,
    name: Seq<char>,
    e: SpecExpr,
    fuel: nat,
)
    requires
        all_compute(m, ts, d, locals, r.st.env),
        soundness::apart(ts, e),
    ensures
        semantics::assigned_value(m, r, name, e, fuel) matches Meaning::Is(v, r1) ==> {
            &&& all_compute(m, ts, d, locals, r1.st.env)
            &&& computes(m, r1.st.env[0], trace::trace(m, d, locals, e), v)
        },
    decreases fuel, 0nat,
{
    if fuel > 0 {
        calm_source(m, ts, r, name, e, fuel);
        soundness::sound_source(m, ts, d, locals, r, name, e, fuel);
        if let Meaning::Is(v, r1) = semantics::assigned_value(m, r, name, e, fuel) {
            lemma_undisturbed_computes(m, ts, d, locals, r.st.env, r1.st.env);
        }
        if let SpecControl::Eval(e1) = machine::source(m, r.st, name, e) {
            if e1 == e {
                right_eval(m, ts, d, locals, r, e, (fuel - 1) as nat);
            }
        }
    }
}

/// What is computed from later names is computed from earlier ones.
proof fn lemma_flow_back(
    m: NumberModel,
    ts: Set<Seq<char>>,
    d: SpecDag,
    traced: (Option<SpecProv>, Seq<SpecScope>),
    flow: SpecFlow,
    env: SpecEnv,
    a: Scope,
    b: Scope,
)
    requires
        top_computes(m, ts, d, a),
        extends(ts, a, b),
        flow_computes(m, ts, d, traced, flow, env, b),
        traced.0 matches Some(p) ==> dag_laws::closed_prov(d, p),
    ensures
        flow_computes(m, ts, d, traced, flow, env, a),
{
    match traced.0 {
        None => {
            assert forall|x: Seq<char>|
                !ts.contains(x) && names::lookup(a, x) is Some implies #[trigger] names::lookup(
                env[0],
                x,
            ) == names::lookup(a, x) by {
                assert(names::lookup(b, x) == names::lookup(a, x));
            }
        },
        Some(SpecProv::Formula(e)) => {
            lemma_grounded(ts, m, d, a, e);
            lemma_value_stays(m, ts, a, b, e);
        },
        Some(_) => {},
    }
}

proof fn lemma_undisturbed_extends(ts: Set<Seq<char>>, a: SpecEnv, b: SpecEnv)
    requires
        undisturbed(ts, a, b),
        a.len() > 0,
    ensures
        extends(ts, a[0], b[0]),
{
}

proof fn right_body(
    m: NumberModel,
    ts: Set<Seq<char>>,
    d: SpecDag,
    locals: Seq<SpecScope>,
    r: Run,
    ss: Seq<SpecStmt>,
    i: int,
    fuel: nat,
)
    requires
        all_compute(m, ts, d, locals, r.st.env),
        r.st.env.len() > 1,
        0 <= i,
        soundness::apart_stmts(ts, ss),
    ensures
        semantics::body_run(m, r, ss, i, fuel) matches Meaning::Is(flow, r1) ==> flow_computes(
            m,
            ts,
            d,
            trace::trace_stmts(m, d, locals, ss, i),
            flow,
            r1.st.env,
            r.st.env[0],
        ),
    decreases fuel, 1nat,
{
    if fuel > 0 && i < ss.len() {
        let f = (fuel - 1) as nat;
        let top = r.st.env[0];
        assert(soundness::apart_stmt(ts, ss[i]));
        soundness::balanced_exec(m, r, ss[i], f);
        if f > 0 {
            let g = (f - 1) as nat;
            match ss[i] {
                SpecStmt::Return(e) => {
                    right_eval(m, ts, d, locals, r, e, g);
                    calm_eval(m, ts, r, e, g);
                    if let Meaning::Is(v, r1) = semantics::eval(m, r, e, g) {
                        lemma_undisturbed_extends(ts, r.st.env, r1.st.env);
                        dag_laws::lemma_trace_closed(m, d, locals, e);
                        if let SpecProv::Formula(x) = trace::trace(m, d, locals, e) {
                            lemma_grounded(ts, m, d, top, x);
                            lemma_value_stays(m, ts, top, r1.st.env[0], x);
                        }
                    }
                },
                SpecStmt::Assign { name, value, mutable } => {
                    right_body_assign(m, ts, d, locals, r, ss, i, fuel);
                },
                SpecStmt::While { condition, body } => {
                    if let Meaning::Is(flow, r1) = semantics::exec(m, r, ss[i], f) {
                        right_looped(m, ts, d, locals, r, condition, body, 0, g);
                        soundness::sound_looped(m, ts, d, locals, r, condition, body, 0, g);
                        let (p, after) = trace::trace_loop(m, d, locals, ss[i], 0);
                        if p is None {
                            right_body(m, ts, d, after, r1, ss, i + 1, f);
                            if let Meaning::Is(flow2, r2) = semantics::body_run(
                                m,
                                r1,
                                ss,
                                i + 1,
                                f,
                            ) {
                                dag_laws::lemma_trace_stmts_closed(m, d, after, ss, i + 1);
                                lemma_flow_back(
                                    m,
                                    ts,
                                    d,
                                    trace::trace_stmts(m, d, after, ss, i + 1),
                                    flow2,
                                    r2.st.env,
                                    top,
                                    r1.st.env[0],
                                );
                            }
                        }
                    }
                },
                SpecStmt::Print(es) => {
                    calm_printed(m, ts, r, Seq::empty(), es, 0, g);
                    soundness::sound_printed(m, ts, d, locals, r, Seq::empty(), es, 0, g);
                    if let Meaning::Is(flow, r1) = semantics::exec(m, r, ss[i], f) {
                        lemma_undisturbed_computes(m, ts, d, locals, r.st.env, r1.st.env);
                        right_rest(m, ts, d, locals, top, r1, ss, i + 1, f);
                    }
                },
                SpecStmt::FnDef { .. } => {
                    if let Meaning::Is(flow, r1) = semantics::exec(m, r, ss[i], f) {
                        right_rest(m, ts, d, locals, top, r1, ss, i + 1, f);
                    }
                },
            }
        }
    }
}

/// The statements after one that left the locals alone.
proof fn right_rest(
    m: NumberModel,
    ts: Set<Seq<char>>,
    d: SpecDag,
    locals: Seq<SpecScope>,
    top: Scope,
    r: Run,
    ss: Seq<SpecStmt>,
    i: int,
    fuel: nat,
)
    requires
        all_compute(m, ts, d, locals, r.st.env),
        r.st.env.len() > 1,
        0 <= i,
        soundness::apart_stmts(ts, ss),
        top_computes(m, ts, d, top),
        extends(ts, top, r.st.env[0]),
    ensures
        semantics::body_run(m, r, ss, i, fuel) matches Meaning::Is(flow, r1) ==> flow_computes(
            m,
            ts,
            d,
            trace::trace_stmts(m, d, locals, ss, i),
            flow,
            r1.st.env,
            top,
        ),
    decreases fuel, 2nat,
{
    right_body(m, ts, d, locals, r, ss, i, fuel);
    if let Meaning::Is(flow, r1) = semantics::body_run(m, r, ss, i, fuel) {
        dag_laws::lemma_trace_stmts_closed(m, d, locals, ss, i);
        lemma_flow_back(
            m,
            ts,
            d,
            trace::trace_stmts(m, d, locals, ss, i),
            flow,
            r1.st.env,
            top,
            r.st.env[0],
        );
    }
}

proof fn right_body_assign(
    m: NumberModel,
    ts: Set<Seq<char>>,
    d: SpecDag,
    locals: Seq<SpecScope>,
    r: Run,
    ss: Seq<SpecStmt>,
    i: int,
    fuel: nat,
)
    requires
        fuel > 1,
        all_compute(m, ts, d, locals, r.st.env),
        r.st.env.len() > 1,
        0 <= i < ss.len(),
        ss[i] is Assign,
        soundness::apart_stmts(ts, ss),
    ensures
        semantics::body_run(m, r, ss, i, fuel) matches Meaning::Is(flow, r1) ==> flow_computes(
            m,
            ts,
            d,
            trace::trace_stmts(m, d, locals, ss, i),
            flow,
            r1.st.env,
            r.st.env[0],
        ),
    decreases fuel, 0nat,
{
    let f = (fuel - 1) as nat;
    let g = (f - 1) as nat;
    assert(soundness::apart_stmt(ts, ss[i]));
    if let SpecStmt::Assign { name, value, mutable } = ss[i] {
        if let Meaning::Is(flow, r1) = semantics::exec(m, r, ss[i], f) {
            soundness::sound_source(m, ts, d, locals, r, name, value, g);
            right_source(m, ts, d, locals, r, name, value, g);
            calm_source(m, ts, r, name, value, g);
            soundness::balanced_source(m, r, name, value, g);
            if let Meaning::Is(v, r2) = semantics::assigned_value(m, r, name, value, g) {
                let p = trace::trace(m, d, locals, value);
                dag_laws::lemma_trace_closed(m, d, locals, value);
                right_assign(m, ts, d, locals, r2.st, name, v, p, mutable);
                soundness::sound_read(
                    ts,
                    d,
                    locals,
                    r2.st.env,
                    name,
                    r2.st.env.len() as int,
                );
                names::lemma_scope_of(r2.st.env, name, r2.st.env.len() as int);
                lemma_top_untouched(ts, d, locals, r2.st, name, v, mutable);
                lemma_undisturbed_extends(ts, r.st.env, r2.st.env);
                soundness::balanced_exec(m, r, ss[i], f);
                right_rest(
                    m,
                    ts,
                    d,
                    trace::assign(locals, name, p, mutable),
                    r.st.env[0],
                    r1,
                    ss,
                    i + 1,
                    f,
                );
            }
        }
    }
}

/// An assignment inside a block leaves the top level alone.
proof fn lemma_top_untouched(
    ts: Set<Seq<char>>,
    d: SpecDag,
    locals: Seq<SpecScope>,
    st: SpecState,
    name: Seq<char>,
    v: SpecValue,
    mutable: bool,
)
    requires
        soundness::agrees(ts, d, locals, st.env),
        st.env.len() > 1,
        machine::assigned(st, name, v, mutable) is Ok,
    ensures
        machine::assigned(st, name, v, mutable)->Ok_0.env[0] == st.env[0],
{
    let n = st.env.len() as int;
    names::lemma_scope_of(st.env, name, n);
    if !mutable && names::scope_of(st.env, name, n) == 1 {
        assert(names::lookup(st.env[0], name) is Some);
    }
}

proof fn right_looped(
    m: NumberModel,
    ts: Set<Seq<char>>,
    d: SpecDag,
    locals: Seq<SpecScope>,
    r: Run,
    c: SpecExpr,
    body: Seq<SpecStmt>,
    k: nat,
    fuel: nat,
)
    requires
        all_compute(m, ts, d, locals, r.st.env),
        r.st.env.len() > 1,
        soundness::apart(ts, c),
        soundness::apart_stmts(ts, body),
    ensures
        semantics::looped(m, r, c, body, fuel) matches Meaning::Is(flow, r1) ==> flow_computes(
            m,
            ts,
            d,
            trace::trace_loop(m, d, locals, SpecStmt::While { condition: c, body }, k),
            flow,
            r1.st.env,
            r.st.env[0],
        ),
    decreases fuel, 0nat,
{
    if fuel > 0 {
        let f = (fuel - 1) as nat;
        let s = SpecStmt::While { condition: c, body };
        let top = r.st.env[0];
        soundness::balanced_eval(m, r, c, f);
        soundness::sound_eval(m, ts, d, locals, r, c, f);
        right_eval(m, ts, d, locals, r, c, f);
        calm_eval(m, ts, r, c, f);
        if let Meaning::Is(v, r1) = semantics::eval(m, r, c, f) {
            lemma_undisturbed_extends(ts, r.st.env, r1.st.env);
            if let SpecProv::Fixed(SpecLit::Number(n)) = trace::trace(m, d, locals, c) {
                if !number::is_zero(n) && k < trace::MAX_UNROLL_ITERS {
                    let inside = semantics::with_st(r1, machine::enter(r1.st));
                    let inner = locals.push(Seq::empty());
                    lemma_enter_computes(m, ts, d, locals, r1.st.env);
                    soundness::balanced_body(m, inside, body, 0, f);
                    soundness::sound_body(m, ts, d, inner, inside, body, 0, f);
                    right_body(m, ts, d, inner, inside, body, 0, f);
                    if let Meaning::Is(flow, r2) = semantics::body_run(m, inside, body, 0, f) {
                        let traced = trace::trace_stmts(m, d, inner, body, 0);
                        let (p, after) = traced;
                        dag_laws::lemma_trace_stmts_closed(m, d, inner, body, 0);
                        lemma_flow_back(
                            m,
                            ts,
                            d,
                            traced,
                            flow,
                            r2.st.env,
                            top,
                            inside.st.env[0],
                        );
                        if p is None {
                            lemma_leave_computes(m, ts, d, after, r2.st.env);
                            let r3 = semantics::with_st(r2, machine::leave(r2.st));
                            right_looped(
                                m,
                                ts,
                                d,
                                after.drop_last(),
                                r3,
                                c,
                                body,
                                k + 1,
                                f,
                            );
                            if let Meaning::Is(flow2, r4) = semantics::looped(
                                m,
                                r3,
                                c,
                                body,
                                f,
                            ) {
                                let rest = trace::trace_loop(
                                    m,
                                    d,
                                    after.drop_last(),
                                    s,
                                    k + 1,
                                );
                                dag_laws::lemma_trace_loop_closed(
                                    m,
                                    d,
                                    after.drop_last(),
                                    s,
                                    k + 1,
                                );
                                lemma_flow_back(
                                    m,
                                    ts,
                                    d,
                                    rest,
                                    flow2,
                                    r4.st.env,
                                    top,
                                    r3.st.env[0],
                                );
                            }
                        }
                    }
                }
            }
        }
    }
}

// ---- programs ---------------------------------------------------------

/// A top-level assignment adds a node whose formula computes its value.
proof fn right_top_assign(
    m: NumberModel,
    ts: Set<Seq<char>>,
    d: SpecDag,
    st: SpecState,
    name: Seq<char>,
    v: SpecValue,
    e: SpecExpr,
    mutable: bool,
)
    requires
        st.env.len() == 1,
        !st.in_unsafe,
        !ts.contains(name),
        graph::dag_wf(d),
        dag_laws::formulas_closed(d),
        d.nodes.len() <= usize::MAX,
        soundness::top_agrees(ts, d, st.env[0]),
        top_computes(m, ts, d, st.env[0]),
        computes(m, st.env[0], trace::trace(m, d, seq![Seq::empty()], e), v),
        machine::assigned(st, name, v, mutable) is Ok,
    ensures
        top_computes(
            m,
            ts,
            dag::with_stmt(m, d, SpecStmt::Assign { name, value: e, mutable }),
            machine::assigned(st, name, v, mutable)->Ok_0.env[0],
        ),
{
    let d2 = dag::with_stmt(m, d, SpecStmt::Assign { name, value: e, mutable });
    let scope = st.env[0];
    names::lemma_scope_of(st.env, name, 1);
    assert(names::scope_of(st.env, name, 0) == 0);
    if names::lookup(scope, name) is Some {
        assert(names::scope_of(st.env, name, 1) == 1);
    }
    let b = SpecBinding { value: v, mutable: false };
    let after = machine::assigned(st, name, v, mutable)->Ok_0.env[0];
    assert(after == names::put(scope, name, b));
    assert(names::lookup(scope, name) is None);
    let id = d.nodes.len() as usize;
    assert forall|x: Seq<char>| #[trigger] names::lookup(after, x) == (if x == name {
        Some(b)
    } else {
        names::lookup(scope, x)
    }) by {
        names::law_put(scope, name, b, x);
    }
    assert(extends(ts, scope, after));
    lemma_top_stays(m, ts, d, scope, after);
    assert forall|i: int| 0 <= i < d2.nodes.len() implies !ts.contains(
        (#[trigger] d2.nodes[i]).name,
    ) && names::lookup(after, d2.nodes[i].name) is Some by {
        if i < d.nodes.len() {
            assert(d2.nodes[i] == d.nodes[i]);
        } else {
            assert(names::lookup(after, name) == Some(b));
        }
    }
    assert forall|x: Seq<char>|
        (#[trigger] graph::node_of(d2, x) matches Some(node) ==> {
            &&& node.name == x
            &&& names::lookup(after, x) matches Some(y) && computes(
                m,
                after,
                trace::prov_of_node(node),
                y.value,
            )
        }) by {
        names::law_put(d.env, name, id, x);
        if x != name {
            names::lemma_find(d.env, x, 0);
            if graph::node_of(d2, x) is Some {
                assert(graph::node_of(d2, x) == graph::node_of(d, x));
            }
        } else {
            assert(names::lookup(after, x) == Some(b));
            let top: Seq<SpecScope> = seq![Seq::empty()];
            assert(dag_laws::locals_closed(d, top));
            dag_laws::lemma_trace_closed(m, d, top, e);
            lemma_computes_stays(
                m,
                ts,
                d,
                scope,
                after,
                trace::trace(m, d, top, e),
                v,
            );
        }
    }
}

proof fn right_top(
    m: NumberModel,
    ts: Set<Seq<char>>,
    d: SpecDag,
    r: Run,
    s: SpecStmt,
    fuel: nat,
)
    requires
        soundness::apart_stmt(ts, s),
        r.st.env.len() == 1,
        !r.st.in_unsafe,
        graph::dag_wf(d),
        dag_laws::formulas_closed(d),
        d.nodes.len() <= usize::MAX,
        soundness::top_agrees(ts, d, r.st.env[0]),
        top_computes(m, ts, d, r.st.env[0]),
    ensures
        semantics::exec(m, r, s, fuel) matches Meaning::Is(SpecFlow::Normal, r1) ==> top_computes(
            m,
            ts,
            dag::with_stmt(m, d, s),
            r1.st.env[0],
        ),
{
    let locals: Seq<SpecScope> = seq![Seq::empty()];
    assert(soundness::agrees(ts, d, locals, r.st.env));
    assert(dag_laws::locals_closed(d, locals));
    assert(all_compute(m, ts, d, locals, r.st.env));
    if fuel > 0 {
        let f = (fuel - 1) as nat;
        match s {
            SpecStmt::Assign { name, value, mutable } => {
                right_source(m, ts, d, locals, r, name, value, f);
                soundness::balanced_source(m, r, name, value, f);
                if let Meaning::Is(v, r1) = semantics::assigned_value(m, r, name, value, f) {
                    if machine::assigned(r1.st, name, v, mutable) is Ok {
                        right_top_assign(m, ts, d, r1.st, name, v, value, mutable);
                    }
                }
            },
            SpecStmt::Print(es) => {
                calm_printed(m, ts, r, Seq::empty(), es, 0, f);
                soundness::sound_printed(m, ts, d, locals, r, Seq::empty(), es, 0, f);
                if let Meaning::Is(flow, r1) = semantics::printed(
                    m,
                    r,
                    Seq::empty(),
                    es,
                    0,
                    f,
                ) {
                    lemma_undisturbed_computes(m, ts, d, locals, r.st.env, r1.st.env);
                }
            },
            _ => {},
        }
    }
}

pub(crate) proof fn right_ran(
    m: NumberModel,
    ts: Set<Seq<char>>,
    r: Run,
    prog: Seq<SpecStmt>,
    n: int,
    fuel: nat,
)
    requires
        soundness::blank(r),
        0 <= n <= prog.len() <= usize::MAX,
        soundness::apart_stmts(ts, prog),
    ensures
        soundness::ran(m, r, prog, n, fuel) matches Some(r1) ==> top_computes(
            m,
            ts,
            dag::dag_of(m, prog, n),
            r1.st.env[0],
        ),
    decreases n,
{
    if n > 0 {
        right_ran(m, ts, r, prog, n - 1, fuel);
        if let Some(r1) = soundness::ran(m, r, prog, n - 1, fuel) {
            soundness::lemma_ran(m, ts, r, prog, n - 1, fuel);
            dag_laws::law_graph(m, prog, n - 1);
            dag_laws::law_formulas_are_closed(m, prog, n - 1);
            dag_laws::lemma_assignments(prog, n - 1);
            assert(soundness::apart_stmt(ts, prog[n - 1]));
            right_top(m, ts, dag::dag_of(m, prog, n - 1), r1, prog[n - 1], fuel);
        }
    }
}

/// A formula computes what the code computes that it stands for: after the
/// first `n` statements of a program have run, evaluating the formula of a
/// name gives what the name stands for, and changes nothing. As for fixed
/// nodes, no name that the program assigns may be that of a ticker that it
/// fetches.
pub proof fn law_formulas_compute_what_they_replace(
    m: NumberModel,
    ts: Set<Seq<char>>,
    r: Run,
    prog: Seq<SpecStmt>,
    n: int,
    fuel: nat,
    name: Seq<char>,
)
    requires
        soundness::blank(r),
        0 <= n <= prog.len() <= usize::MAX,
        soundness::apart_stmts(ts, prog),
        soundness::ran(m, r, prog, n, fuel) is Some,
        graph::node_of(dag::dag_of(m, prog, n), name) matches Some(node) && node.op is Formula,
    ensures
        ({
            let r1 = soundness::ran(m, r, prog, n, fuel)->0;
            let e = graph::node_of(dag::dag_of(m, prog, n), name)->0.op->Formula_expr;
            &&& names::lookup_in(r1.st.env, name) is Some
            &&& semantics::eval(m, r1, e, depth(e)) == Meaning::Is(
                names::lookup_in(r1.st.env, name)->0.value,
                r1,
            )
        }),
{
    let d = dag::dag_of(m, prog, n);
    let r1 = soundness::ran(m, r, prog, n, fuel)->0;
    let e = graph::node_of(d, name)->0.op->Formula_expr;
    right_ran(m, ts, r, prog, n, fuel);
    soundness::lemma_ran(m, ts, r, prog, n, fuel);
    dag_laws::law_graph(m, prog, n);
    dag_laws::law_formulas_are_closed(m, prog, n);
    lemma_prov_closed(d, name);
    lemma_grounded(ts, m, d, r1.st.env[0], e);
    lemma_eval_closed(m, ts, r1, e, depth(e));
    assert(names::lookup(r1.st.env[0], name) is Some);
    assert(names::scope_of(r1.st.env, name, 1) == 1);
}

} // verus!
