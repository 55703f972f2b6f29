//! That tracing a program tells the truth about running it: what a graph says
//! is fixed is what every run computes.

#[allow(unused_imports)]
use crate::ast::{SpecExpr, SpecStmt};
#[allow(unused_imports)]
use crate::dag;
#[allow(unused_imports)]
use crate::dag_laws;
#[allow(unused_imports)]
use crate::graph::{self, SpecDag, SpecLit};
#[allow(unused_imports)]
use crate::machine::{
    self, SpecCallee, SpecControl, SpecEnv, SpecFlow, SpecFn, SpecPending, SpecState,
};
#[allow(unused_imports)]
use crate::names;
#[allow(unused_imports)]
use crate::number::{self, NumberModel};
#[allow(unused_imports)]
use crate::semantics::{self, Meaning, Run};
#[allow(unused_imports)]
use crate::trace::{self, SpecProv, SpecScope};
#[allow(unused_imports)]
use crate::value::{self, SpecBinding, SpecValue};
use vstd::prelude::*;

verus! {

// ---- what running keeps -----------------------------------------------

/// The program after something has come out.
pub open spec fn end_of<T>(x: Meaning<T>) -> Run {
    match x {
        Meaning::Is(_, r) => r,
        Meaning::Wrong(_, r) => r,
        Meaning::Out => arbitrary(),
    }
}

/// As many scopes are open as before, and an `[unsafe]` block runs if one did.
pub open spec fn balanced<T>(r: Run, x: Meaning<T>) -> bool {
    x is Out || {
        &&& end_of(x).st.env.len() == r.st.env.len()
        &&& end_of(x).st.in_unsafe == r.st.in_unsafe
    }
}

pub(crate) proof fn balanced_fetched(r: Run, p: SpecPending, fuel: nat)
    requires
        r.st.env.len() > 0,
    ensures
        balanced(r, semantics::fetched(r, p, fuel)),
    decreases fuel,
{
    if fuel > 0 && r.replies.len() > 0 {
        let (st, control) = machine::reply_step(r.st, p, r.replies[0]);
        let after = semantics::with_st(semantics::after_asking(r, p), st);
        if let SpecControl::Wait(q) = control {
            balanced_fetched(after, q, (fuel - 1) as nat);
        }
    }
}

pub(crate) proof fn balanced_eval(m: NumberModel, r: Run, e: SpecExpr, fuel: nat)
    requires
        r.st.env.len() > 0,
    ensures
        balanced(r, semantics::eval(m, r, e, fuel)),
    decreases fuel,
{
    if fuel > 0 {
        let f = (fuel - 1) as nat;
        match e {
            SpecExpr::Field { base, .. } => balanced_eval(m, r, *base, f),
            SpecExpr::Subset { base, .. } => match dag::ticker_of(e) {
                Some(t) => balanced_fetched(r, SpecPending::Directory(t), f),
                None => balanced_eval(m, r, *base, f),
            },
            SpecExpr::Binary { lhs, rhs, .. } => {
                balanced_eval(m, r, *lhs, f);
                if let Meaning::Is(_, r1) = semantics::eval(m, r, *lhs, f) {
                    balanced_eval(m, r1, *rhs, f);
                }
            },
            SpecExpr::If { condition, then_branch, else_branch } => {
                balanced_eval(m, r, *condition, f);
                if let Meaning::Is(_, r1) = semantics::eval(m, r, *condition, f) {
                    balanced_eval(m, r1, *then_branch, f);
                    balanced_eval(m, r1, *else_branch, f);
                }
            },
            SpecExpr::Call { name, args } => {
                if let Ok(c) = machine::callee(r.st, name, args.len()) {
                    balanced_applied(m, r, c, Seq::empty(), args, f);
                }
            },
            _ => {},
        }
    }
}

pub(crate) proof fn balanced_applied(
    m: NumberModel,
    r: Run,
    c: SpecCallee,
    done: Seq<SpecValue>,
    args: Seq<SpecExpr>,
    fuel: nat,
)
    requires
        r.st.env.len() > 0,
    ensures
        balanced(r, semantics::applied(m, r, c, done, args, fuel)),
    decreases fuel,
{
    if fuel > 0 {
        let f = (fuel - 1) as nat;
        if done.len() < args.len() {
            let e = args[done.len() as int];
            balanced_eval(m, r, e, f);
            if let Meaning::Is(v, r1) = semantics::eval(m, r, e, f) {
                balanced_applied(m, r1, c, done.push(v), args, f);
            }
        } else if let SpecCallee::Function(g) = c {
            let env = seq![machine::arguments(g.params, done, g.params.len() as int)];
            balanced_body(
                m,
                semantics::with_st(r, machine::with_env(r.st, env)),
                g.body,
                0,
                f,
            );
        }
    }
}

pub(crate) proof fn balanced_exec(m: NumberModel, r: Run, s: SpecStmt, fuel: nat)
    requires
        r.st.env.len() > 0,
    ensures
        balanced(r, semantics::exec(m, r, s, fuel)),
    decreases fuel,
{
    if fuel > 0 {
        let f = (fuel - 1) as nat;
        match s {
            SpecStmt::Assign { name, value, mutable } => {
                if f > 0 {
                    if let SpecControl::Eval(e) = machine::source(m, r.st, name, value) {
                        balanced_eval(m, r, e, (f - 1) as nat);
                    }
                    if let Meaning::Is(v, r1) = semantics::assigned_value(m, r, name, value, f) {
                        machine::lemma_assigned_scopes(r1.st, name, v, mutable);
                    }
                }
            },
            SpecStmt::While { condition, body } => balanced_looped(m, r, condition, body, f),
            SpecStmt::Print(es) => balanced_printed(m, r, Seq::empty(), es, 0, f),
            SpecStmt::Return(e) => balanced_eval(m, r, e, f),
            _ => {},
        }
    }
}

pub(crate) proof fn balanced_looped(m: NumberModel, r: Run, c: SpecExpr, body: Seq<SpecStmt>, fuel: nat)
    requires
        r.st.env.len() > 0,
    ensures
        balanced(r, semantics::looped(m, r, c, body, fuel)),
    decreases fuel,
{
    if fuel > 0 {
        let f = (fuel - 1) as nat;
        balanced_eval(m, r, c, f);
        if let Meaning::Is(v, r1) = semantics::eval(m, r, c, f) {
            let inside = semantics::with_st(r1, machine::enter(r1.st));
            balanced_body(m, inside, body, 0, f);
            if let Meaning::Is(flow, r2) = semantics::body_run(m, inside, body, 0, f) {
                balanced_looped(
                    m,
                    semantics::with_st(r2, machine::leave(r2.st)),
                    c,
                    body,
                    f,
                );
            }
        }
    }
}

pub(crate) proof fn balanced_printed(
    m: NumberModel,
    r: Run,
    out: Seq<char>,
    es: Seq<SpecExpr>,
    i: int,
    fuel: nat,
)
    requires
        r.st.env.len() > 0,
    ensures
        balanced(r, semantics::printed(m, r, out, es, i, fuel)),
    decreases fuel,
{
    if fuel > 0 && 0 <= i < es.len() {
        let f = (fuel - 1) as nat;
        balanced_eval(m, r, es[i], f);
        if let Meaning::Is(v, r1) = semantics::eval(m, r, es[i], f) {
            balanced_printed(m, r1, out + value::value_text(m, v), es, i + 1, f);
        }
    }
}

pub(crate) proof fn balanced_body(m: NumberModel, r: Run, ss: Seq<SpecStmt>, i: int, fuel: nat)
    requires
        r.st.env.len() > 0,
    ensures
        balanced(r, semantics::body_run(m, r, ss, i, fuel)),
    decreases fuel,
{
    if fuel > 0 && 0 <= i < ss.len() {
        let f = (fuel - 1) as nat;
        balanced_exec(m, r, ss[i], f);
        if let Meaning::Is(flow, r1) = semantics::exec(m, r, ss[i], f) {
            balanced_body(m, r1, ss, i + 1, f);
        }
    }
}

/// Running a statement, whether it ends well or in an error, leaves as many
/// scopes open as there were, and leaves an `[unsafe]` block that it entered.
pub proof fn law_statements_are_balanced(m: NumberModel, r: Run, s: SpecStmt, fuel: nat)
    requires
        r.st.env.len() > 0,
    ensures
        balanced(r, semantics::exec(m, r, s, fuel)),
{
    balanced_exec(m, r, s, fuel);
}

/// After an `[unsafe]` block, whatever came out of it, every name stands for
/// what it stood for before.
pub proof fn law_unsafe_restores_names(m: NumberModel, r: Run, body: Seq<SpecStmt>, fuel: nat)
    ensures
        semantics::eval(m, r, SpecExpr::Unsafe { body }, fuel) is Out || end_of(
            semantics::eval(m, r, SpecExpr::Unsafe { body }, fuel),
        ).st.env == r.st.env,
{
}

/// A call of a function of the program, whatever comes out of it, changes no
/// name of its caller beyond what evaluating its arguments does.
pub proof fn law_calls_restore_names(
    m: NumberModel,
    r: Run,
    f: SpecFn,
    values: Seq<SpecValue>,
    args: Seq<SpecExpr>,
    fuel: nat,
)
    requires
        values.len() == args.len(),
    ensures
        semantics::applied(m, r, SpecCallee::Function(f), values, args, fuel) is Out || end_of(
            semantics::applied(m, r, SpecCallee::Function(f), values, args, fuel),
        ).st.env == r.st.env,
{
}

/// Whether an expression fetches nothing but inside `[unsafe]` blocks and the
/// functions that it calls.
pub open spec fn fetches_inside(e: SpecExpr) -> bool
    decreases e,
{
    match e {
        SpecExpr::Field { base, .. } => fetches_inside(*base),
        SpecExpr::Subset { base, .. } => dag::ticker_of(e) is None && fetches_inside(*base),
        SpecExpr::Binary { lhs, rhs, .. } => fetches_inside(*lhs) && fetches_inside(*rhs),
        SpecExpr::If { condition, then_branch, else_branch } => fetches_inside(*condition)
            && fetches_inside(*then_branch) && fetches_inside(*else_branch),
        SpecExpr::Call { args, .. } => forall|i: int|
            0 <= i < args.len() ==> fetches_inside(#[trigger] args[i]),
        _ => true,
    }
}

/// The scopes, and whether an `[unsafe]` block runs, are as before.
pub open spec fn restored<T>(r: Run, x: Meaning<T>) -> bool {
    x is Out || {
        &&& end_of(x).st.env == r.st.env
        &&& end_of(x).st.in_unsafe == r.st.in_unsafe
    }
}

/// An expression that fetches nothing, but for what its `[unsafe]` blocks and
/// the functions that it calls do, leaves every name as it was and an
/// `[unsafe]` block running if one did, whatever comes out of it.
pub proof fn law_expressions_restore_names(m: NumberModel, r: Run, e: SpecExpr, fuel: nat)
    requires
        fetches_inside(e),
    ensures
        restored(r, semantics::eval(m, r, e, fuel)),
    decreases fuel,
{
    if fuel > 0 {
        let f = (fuel - 1) as nat;
        match e {
            SpecExpr::Field { base, .. } => law_expressions_restore_names(m, r, *base, f),
            SpecExpr::Subset { base, .. } => law_expressions_restore_names(m, r, *base, f),
            SpecExpr::Binary { lhs, rhs, .. } => {
                law_expressions_restore_names(m, r, *lhs, f);
                if let Meaning::Is(_, r1) = semantics::eval(m, r, *lhs, f) {
                    law_expressions_restore_names(m, r1, *rhs, f);
                }
            },
            SpecExpr::If { condition, then_branch, else_branch } => {
                law_expressions_restore_names(m, r, *condition, f);
                if let Meaning::Is(_, r1) = semantics::eval(m, r, *condition, f) {
                    law_expressions_restore_names(m, r1, *then_branch, f);
                    law_expressions_restore_names(m, r1, *else_branch, f);
                }
            },
            SpecExpr::Call { name, args } => {
                if let Ok(c) = machine::callee(r.st, name, args.len()) {
                    restored_applied(m, r, c, Seq::empty(), args, f);
                }
            },
            _ => {},
        }
    }
}

proof fn restored_applied(
    m: NumberModel,
    r: Run,
    c: SpecCallee,
    done: Seq<SpecValue>,
    args: Seq<SpecExpr>,
    fuel: nat,
)
    requires
        forall|i: int| 0 <= i < args.len() ==> fetches_inside(#[trigger] args[i]),
    ensures
        restored(r, semantics::applied(m, r, c, done, args, fuel)),
    decreases fuel,
{
    if fuel > 0 {
        let f = (fuel - 1) as nat;
        if done.len() < args.len() {
            let e = args[done.len() as int];
            law_expressions_restore_names(m, r, e, f);
            if let Meaning::Is(v, r1) = semantics::eval(m, r, e, f) {
                restored_applied(m, r1, c, done.push(v), args, f);
            }
        } else if let SpecCallee::Function(g) = c {
            let env = seq![machine::arguments(g.params, done, g.params.len() as int)];
            balanced_body(
                m,
                semantics::with_st(r, machine::with_env(r.st, env)),
                g.body,
                0,
                f,
            );
        }
    }
}

// ---- what tracing says ------------------------------------------------

/// The value that a frozen literal is.
pub open spec fn lit_value(l: SpecLit) -> SpecValue {
    match l {
        SpecLit::Number(n) => SpecValue::Number(n),
        SpecLit::Str(s) => SpecValue::Str(s),
    }
}

/// A trace that says the value is fixed says which value it is.
pub open spec fn truthful(p: SpecProv, v: SpecValue) -> bool {
    p matches SpecProv::Fixed(l) ==> v == lit_value(l)
}

/// The tickers of an expression are among `ts`, and the names that it assigns
/// are not.
pub open spec fn apart(ts: Set<Seq<char>>, e: SpecExpr) -> bool
    decreases e,
{
    match e {
        SpecExpr::Field { base, .. } => apart(ts, *base),
        SpecExpr::Subset { base, .. } => apart(ts, *base) && (dag::ticker_of(e) matches Some(t)
            ==> ts.contains(t)),
        SpecExpr::Binary { lhs, rhs, .. } => apart(ts, *lhs) && apart(ts, *rhs),
        SpecExpr::If { condition, then_branch, else_branch } => apart(ts, *condition) && apart(
            ts,
            *then_branch,
        ) && apart(ts, *else_branch),
        SpecExpr::Call { args, .. } => forall|i: int|
            0 <= i < args.len() ==> apart(ts, #[trigger] args[i]),
        SpecExpr::Unsafe { body } => apart_stmts(ts, body),
        _ => true,
    }
}

pub open spec fn apart_stmts(ts: Set<Seq<char>>, ss: Seq<SpecStmt>) -> bool
    decreases ss,
{
    forall|i: int| 0 <= i < ss.len() ==> apart_stmt(ts, #[trigger] ss[i])
}

pub open spec fn apart_stmt(ts: Set<Seq<char>>, s: SpecStmt) -> bool
    decreases s,
{
    match s {
        SpecStmt::Assign { name, value, .. } => !ts.contains(name) && apart(ts, value),
        SpecStmt::Print(es) => forall|i: int|
            0 <= i < es.len() ==> apart(ts, #[trigger] es[i]),
        SpecStmt::FnDef { .. } => true,
        SpecStmt::Return(e) => apart(ts, e),
        SpecStmt::While { condition, body } => apart(ts, condition) && apart_stmts(ts, body),
    }
}

/// A scope holds the names that the trace of it holds, with what the trace
/// says; and tickers besides.
pub open spec fn scope_agrees(
    ts: Set<Seq<char>>,
    traced: SpecScope,
    scope: Seq<(Seq<char>, SpecBinding)>,
) -> bool {
    forall|x: Seq<char>|
        match (#[trigger] names::lookup(traced, x), names::lookup(scope, x)) {
            (Some(p), Some(b)) => !ts.contains(x) && truthful(p, b.value),
            (Some(_), None) => false,
            (None, Some(_)) => ts.contains(x),
            (None, None) => true,
        }
}

/// The names of the graph stand for what the graph says, and nothing at the
/// top level is mutable.
pub open spec fn top_agrees(
    ts: Set<Seq<char>>,
    d: SpecDag,
    scope: Seq<(Seq<char>, SpecBinding)>,
) -> bool {
    &&& forall|x: Seq<char>|
        match #[trigger] graph::node_of(d, x) {
            Some(node) => {
                &&& !ts.contains(x)
                &&& names::lookup(scope, x) matches Some(b)
                &&& truthful(trace::prov_of_node(node), b.value)
            },
            None => true,
        }
    &&& forall|x: Seq<char>|
        #[trigger] names::lookup(scope, x) matches Some(b) ==> !b.mutable
}

/// The scopes of the run are those of the trace, below them the top level.
pub open spec fn agrees(ts: Set<Seq<char>>, d: SpecDag, locals: Seq<SpecScope>, env: SpecEnv) -> bool {
    &&& env.len() == locals.len()
    &&& env.len() > 0
    &&& locals[0] == Seq::<(Seq<char>, SpecProv)>::empty()
    &&& top_agrees(ts, d, env[0])
    &&& forall|i: int| 1 <= i < env.len() ==> scope_agrees(ts, #[trigger] locals[i], env[i])
}

/// Reading a name tells the truth.
pub(crate) proof fn sound_read(
    ts: Set<Seq<char>>,
    d: SpecDag,
    locals: Seq<SpecScope>,
    env: SpecEnv,
    x: Seq<char>,
    n: int,
)
    requires
        agrees(ts, d, locals, env),
        1 <= n <= env.len(),
    ensures
        ({
            let i = names::scope_of(locals, x, n);
            let j = names::scope_of(env, x, n);
            &&& i > 0 ==> i > 1 && i == j && truthful(
                names::lookup(locals[i - 1], x)->0,
                names::lookup(env[j - 1], x)->0.value,
            )
            &&& i == 0 && !ts.contains(x) ==> j <= 1
        }),
    decreases n,
{
    names::lemma_scope_of(locals, x, n);
    names::lemma_scope_of(env, x, n);
    if n > 1 {
        assert(scope_agrees(ts, locals[n - 1], env[n - 1]));
        let a = names::lookup(locals[n - 1], x);
        if a is None {
            sound_read(ts, d, locals, env, x, n - 1);
        }
    } else {
        assert(names::lookup(locals[0], x) is None);
        assert(names::scope_of(locals, x, 0) == 0);
        assert(names::scope_of(env, x, 0) == 0);
    }
}

pub(crate) proof fn sound_variable(
    ts: Set<Seq<char>>,
    d: SpecDag,
    locals: Seq<SpecScope>,
    st: SpecState,
    x: Seq<char>,
)
    requires
        agrees(ts, d, locals, st.env),
    ensures
        machine::variable(st, x) matches Ok(v) ==> truthful(trace::read(d, locals, x), v),
{
    sound_read(ts, d, locals, st.env, x, st.env.len() as int);
    names::lemma_scope_of(st.env, x, st.env.len() as int);
    names::lemma_scope_of(locals, x, locals.len() as int);
    let i = names::scope_of(locals, x, locals.len() as int);
    if i == 0 {
        if let Some(node) = graph::node_of(d, x) {
            assert(names::lookup(st.env[0], x) is Some);
        }
    }
}

/// The data of a ticker arrives under the name of the ticker.
pub(crate) proof fn sound_arrival(
    ts: Set<Seq<char>>,
    d: SpecDag,
    locals: Seq<SpecScope>,
    st: SpecState,
    t: Seq<char>,
    v: SpecValue,
)
    requires
        agrees(ts, d, locals, st.env),
        ts.contains(t),
    ensures
        agrees(
            ts,
            d,
            locals,
            machine::declare(st, t, SpecBinding { value: v, mutable: false }).env,
        ),
{
    let b = SpecBinding { value: v, mutable: false };
    let after = machine::declare(st, t, b).env;
    let last = st.env.len() - 1;
    let scope = st.env[last];
    assert forall|x: Seq<char>| #[trigger] names::lookup(after[last], x) == (if x == t {
        Some(b)
    } else {
        names::lookup(scope, x)
    }) by {
        names::law_put(scope, t, b, x);
    }
    if last == 0 {
        assert forall|x: Seq<char>|
            match #[trigger] graph::node_of(d, x) {
                Some(node) => {
                    &&& !ts.contains(x)
                    &&& names::lookup(after[0], x) matches Some(b)
                    &&& truthful(trace::prov_of_node(node), b.value)
                },
                None => true,
            } by {
            if graph::node_of(d, x) is Some {
                assert(names::lookup(after[last], x) == names::lookup(scope, x));
            }
        }
    } else {
        assert(after[0] == st.env[0]);
        assert forall|i: int| 1 <= i < after.len() implies scope_agrees(
            ts,
            #[trigger] locals[i],
            after[i],
        ) by {
            assert(scope_agrees(ts, locals[i], st.env[i]));
            if i == last {
                assert forall|x: Seq<char>|
                    match (#[trigger] names::lookup(locals[i], x), names::lookup(after[i], x)) {
                        (Some(p), Some(b)) => !ts.contains(x) && truthful(p, b.value),
                        (Some(_), None) => false,
                        (None, Some(_)) => ts.contains(x),
                        (None, None) => true,
                    } by {
                    assert(names::lookup(after[last], x) == (if x == t {
                        Some(b)
                    } else {
                        names::lookup(scope, x)
                    }));
                }
            }
        }
    }
}

/// The ticker that is asked for.
pub open spec fn ticker_asked(p: SpecPending) -> Option<Seq<char>> {
    match p {
        SpecPending::Print(_) => None,
        SpecPending::Directory(t) => Some(t),
        SpecPending::File(t) => Some(t),
        SpecPending::Script(t) => Some(t),
        SpecPending::Document(t) => Some(t),
    }
}

pub(crate) proof fn sound_fetched(
    ts: Set<Seq<char>>,
    d: SpecDag,
    locals: Seq<SpecScope>,
    r: Run,
    p: SpecPending,
    fuel: nat,
)
    requires
        agrees(ts, d, locals, r.st.env),
        ticker_asked(p) matches Some(t) && ts.contains(t),
    ensures
        semantics::fetched(r, p, fuel) matches Meaning::Is(v, r1) ==> agrees(
            ts,
            d,
            locals,
            r1.st.env,
        ),
    decreases fuel,
{
    if fuel > 0 && r.replies.len() > 0 {
        let (st, control) = machine::reply_step(r.st, p, r.replies[0]);
        let after = semantics::with_st(semantics::after_asking(r, p), st);
        match control {
            SpecControl::Wait(q) => sound_fetched(ts, d, locals, after, q, (fuel - 1) as nat),
            SpecControl::Give(v) => {
                sound_arrival(ts, d, locals, r.st, ticker_asked(p)->0, v);
            },
            _ => {},
        }
    }
}

pub(crate) proof fn lemma_enter_agrees(ts: Set<Seq<char>>, d: SpecDag, locals: Seq<SpecScope>, env: SpecEnv)
    requires
        agrees(ts, d, locals, env),
    ensures
        agrees(ts, d, locals.push(Seq::empty()), env.push(Seq::empty())),
{
    let l = locals.push(Seq::empty());
    let e = env.push(Seq::empty());
    assert(l[0] == locals[0] && e[0] == env[0]);
    assert forall|i: int| 1 <= i < e.len() implies scope_agrees(ts, #[trigger] l[i], e[i]) by {
        if i < env.len() {
            assert(l[i] == locals[i] && e[i] == env[i]);
        }
    }
}

pub(crate) proof fn lemma_leave_agrees(ts: Set<Seq<char>>, d: SpecDag, locals: Seq<SpecScope>, env: SpecEnv)
    requires
        agrees(ts, d, locals, env),
        env.len() > 1,
    ensures
        agrees(ts, d, locals.drop_last(), env.drop_last()),
{
    let l = locals.drop_last();
    let e = env.drop_last();
    assert forall|i: int| 1 <= i < e.len() implies scope_agrees(ts, #[trigger] l[i], e[i]) by {
        assert(l[i] == locals[i] && e[i] == env[i]);
    }
}

/// The value of an expression is what its trace says.
pub(crate) proof fn sound_eval(
    m: NumberModel,
    ts: Set<Seq<char>>,
    d: SpecDag,
    locals: Seq<SpecScope>,
    r: Run,
    e: SpecExpr,
    fuel: nat,
)
    requires
        agrees(ts, d, locals, r.st.env),
        apart(ts, e),
    ensures
        semantics::eval(m, r, e, fuel) matches Meaning::Is(v, r1) ==> {
            &&& agrees(ts, d, locals, r1.st.env)
            &&& truthful(trace::trace(m, d, locals, e), v)
        },
    decreases fuel,
{
    if fuel > 0 {
        let f = (fuel - 1) as nat;
        match e {
            SpecExpr::Var(x) => sound_variable(ts, d, locals, r.st, x),
            SpecExpr::Field { base, .. } => sound_eval(m, ts, d, locals, r, *base, f),
            SpecExpr::Subset { base, .. } => match dag::ticker_of(e) {
                Some(t) => sound_fetched(ts, d, locals, r, SpecPending::Directory(t), f),
                None => sound_eval(m, ts, d, locals, r, *base, f),
            },
            SpecExpr::Binary { op, lhs, rhs } => {
                sound_eval(m, ts, d, locals, r, *lhs, f);
                if let Meaning::Is(x, r1) = semantics::eval(m, r, *lhs, f) {
                    sound_eval(m, ts, d, locals, r1, *rhs, f);
                }
            },
            SpecExpr::If { condition, then_branch, else_branch } => {
                sound_eval(m, ts, d, locals, r, *condition, f);
                if let Meaning::Is(v, r1) = semantics::eval(m, r, *condition, f) {
                    sound_eval(m, ts, d, locals, r1, *then_branch, f);
                    sound_eval(m, ts, d, locals, r1, *else_branch, f);
                }
            },
            SpecExpr::Call { name, args } => {
                if let Ok(c) = machine::callee(r.st, name, args.len()) {
                    sound_applied(m, ts, d, locals, r, c, Seq::empty(), args, f);
                }
            },
            SpecExpr::Unsafe { body } => {
                let inside = semantics::with_st(
                    r,
                    machine::enter(SpecState { in_unsafe: true, ..r.st }),
                );
                lemma_enter_agrees(ts, d, locals, r.st.env);
                assert(apart_stmts(ts, body));
                sound_body(m, ts, d, locals.push(Seq::empty()), inside, body, 0, f);
            },
            _ => {},
        }
    }
}

pub(crate) proof fn sound_applied(
    m: NumberModel,
    ts: Set<Seq<char>>,
    d: SpecDag,
    locals: Seq<SpecScope>,
    r: Run,
    c: SpecCallee,
    done: Seq<SpecValue>,
    args: Seq<SpecExpr>,
    fuel: nat,
)
    requires
        agrees(ts, d, locals, r.st.env),
        forall|i: int| 0 <= i < args.len() ==> apart(ts, #[trigger] args[i]),
    ensures
        semantics::applied(m, r, c, done, args, fuel) matches Meaning::Is(v, r1) ==> agrees(
            ts,
            d,
            locals,
            r1.st.env,
        ),
    decreases fuel,
{
    if fuel > 0 && done.len() < args.len() {
        let f = (fuel - 1) as nat;
        let e = args[done.len() as int];
        sound_eval(m, ts, d, locals, r, e, f);
        if let Meaning::Is(v, r1) = semantics::eval(m, r, e, f) {
            sound_applied(m, ts, d, locals, r1, c, done.push(v), args, f);
        }
    }
}

pub(crate) proof fn sound_printed(
    m: NumberModel,
    ts: Set<Seq<char>>,
    d: SpecDag,
    locals: Seq<SpecScope>,
    r: Run,
    out: Seq<char>,
    es: Seq<SpecExpr>,
    i: int,
    fuel: nat,
)
    requires
        agrees(ts, d, locals, r.st.env),
        forall|j: int| 0 <= j < es.len() ==> apart(ts, #[trigger] es[j]),
    ensures
        semantics::printed(m, r, out, es, i, fuel) matches Meaning::Is(flow, r1) ==> {
            &&& flow is Normal
            &&& agrees(ts, d, locals, r1.st.env)
        },
    decreases fuel,
{
    if fuel > 0 && 0 <= i < es.len() {
        let f = (fuel - 1) as nat;
        sound_eval(m, ts, d, locals, r, es[i], f);
        if let Meaning::Is(v, r1) = semantics::eval(m, r, es[i], f) {
            sound_printed(
                m,
                ts,
                d,
                locals,
                r1,
                out + value::value_text(m, v),
                es,
                i + 1,
                f,
            );
        }
    }
}

/// A scope and its trace, after the same assignment to both.
proof fn lemma_put_agrees(
    ts: Set<Seq<char>>,
    traced: SpecScope,
    scope: Seq<(Seq<char>, SpecBinding)>,
    name: Seq<char>,
    p: SpecProv,
    b: SpecBinding,
)
    requires
        scope_agrees(ts, traced, scope),
        !ts.contains(name),
        truthful(p, b.value),
    ensures
        scope_agrees(ts, names::put(traced, name, p), names::put(scope, name, b)),
{
    let t2 = names::put(traced, name, p);
    let s2 = names::put(scope, name, b);
    assert forall|x: Seq<char>|
        match (#[trigger] names::lookup(t2, x), names::lookup(s2, x)) {
            (Some(p), Some(b)) => !ts.contains(x) && truthful(p, b.value),
            (Some(_), None) => false,
            (None, Some(_)) => ts.contains(x),
            (None, None) => true,
        } by {
        names::law_put(traced, name, p, x);
        names::law_put(scope, name, b, x);
        assert(names::lookup(traced, x) is Some ==> names::lookup(scope, x) is Some);
    }
}

pub(crate) proof fn sound_assign(
    ts: Set<Seq<char>>,
    d: SpecDag,
    locals: Seq<SpecScope>,
    st: SpecState,
    name: Seq<char>,
    v: SpecValue,
    p: SpecProv,
    mutable: bool,
)
    requires
        agrees(ts, d, locals, st.env),
        st.env.len() > 1,
        !ts.contains(name),
        truthful(p, v),
        machine::assigned(st, name, v, mutable) is Ok,
    ensures
        agrees(
            ts,
            d,
            trace::assign(locals, name, p, mutable),
            machine::assigned(st, name, v, mutable)->Ok_0.env,
        ),
{
    let n = st.env.len() as int;
    sound_read(ts, d, locals, st.env, name, n);
    names::lemma_scope_of(st.env, name, n);
    names::lemma_scope_of(locals, name, n);
    let i = names::scope_of(locals, name, n);
    let j = names::scope_of(st.env, name, n);
    let k = if mutable || i == 0 {
        n - 1
    } else {
        i - 1
    };
    if !mutable && j == 1 {
        assert(names::lookup(st.env[0], name) is Some);
    }
    let l2 = trace::assign(locals, name, p, mutable);
    let e2 = machine::assigned(st, name, v, mutable)->Ok_0.env;
    let b = SpecBinding { value: v, mutable: mutable || i > 0 };
    assert(k >= 1);
    assert(l2 == locals.update(k, names::put(locals[k], name, p)));
    assert(e2 == st.env.update(k, names::put(st.env[k], name, b)));
    assert forall|q: int| 1 <= q < e2.len() implies scope_agrees(ts, #[trigger] l2[q], e2[q]) by {
        assert(scope_agrees(ts, locals[q], st.env[q]));
        if q == k {
            lemma_put_agrees(ts, locals[k], st.env[k], name, p, b);
        }
    }
}

/// What comes out of statements is what their trace says.
pub open spec fn flow_truthful(
    ts: Set<Seq<char>>,
    d: SpecDag,
    traced: (Option<SpecProv>, Seq<SpecScope>),
    flow: SpecFlow,
    env: SpecEnv,
) -> bool {
    match traced.0 {
        None => flow is Normal && agrees(ts, d, traced.1, env),
        Some(SpecProv::Live(_)) => true,
        Some(p) => flow matches SpecFlow::Return(v) && truthful(p, v),
    }
}

pub(crate) proof fn sound_body(
    m: NumberModel,
    ts: Set<Seq<char>>,
    d: SpecDag,
    locals: Seq<SpecScope>,
    r: Run,
    ss: Seq<SpecStmt>,
    i: int,
    fuel: nat,
)
    requires
        agrees(ts, d, locals, r.st.env),
        r.st.env.len() > 1,
        0 <= i,
        apart_stmts(ts, ss),
    ensures
        semantics::body_run(m, r, ss, i, fuel) matches Meaning::Is(flow, r1) ==> flow_truthful(
            ts,
            d,
            trace::trace_stmts(m, d, locals, ss, i),
            flow,
            r1.st.env,
        ),
    decreases fuel,
{
    if fuel > 0 && i < ss.len() {
        let f = (fuel - 1) as nat;
        assert(apart_stmt(ts, ss[i]));
        balanced_exec(m, r, ss[i], f);
        if f > 0 {
            let g = (f - 1) as nat;
            match ss[i] {
                SpecStmt::Return(e) => sound_eval(m, ts, d, locals, r, e, g),
                SpecStmt::Assign { name, value, mutable } => {
                    if let Meaning::Is(flow, r1) = semantics::exec(m, r, ss[i], f) {
                        sound_source(m, ts, d, locals, r, name, value, g);
                        if let Meaning::Is(v, r2) = semantics::assigned_value(
                            m,
                            r,
                            name,
                            value,
                            g,
                        ) {
                            let p = trace::trace(m, d, locals, value);
                            balanced_source(m, r, name, value, g);
                            sound_assign(ts, d, locals, r2.st, name, v, p, mutable);
                            sound_body(
                                m,
                                ts,
                                d,
                                trace::assign(locals, name, p, mutable),
                                r1,
                                ss,
                                i + 1,
                                f,
                            );
                        }
                    }
                },
                SpecStmt::While { condition, body } => {
                    if let Meaning::Is(flow, r1) = semantics::exec(m, r, ss[i], f) {
                        sound_looped(m, ts, d, locals, r, condition, body, 0, g);
                        let (p, after) = trace::trace_loop(m, d, locals, ss[i], 0);
                        if p is None {
                            sound_body(m, ts, d, after, r1, ss, i + 1, f);
                        }
                    }
                },
                SpecStmt::Print(es) => {
                    sound_printed(m, ts, d, locals, r, Seq::empty(), es, 0, g);
                    if let Meaning::Is(flow, r1) = semantics::exec(m, r, ss[i], f) {
                        sound_body(m, ts, d, locals, r1, ss, i + 1, f);
                    }
                },
                SpecStmt::FnDef { .. } => {
                    if let Meaning::Is(flow, r1) = semantics::exec(m, r, ss[i], f) {
                        sound_body(m, ts, d, locals, r1, ss, i + 1, f);
                    }
                },
            }
        }
    }
}

pub(crate) proof fn balanced_source(m: NumberModel, r: Run, name: Seq<char>, e: SpecExpr, fuel: nat)
    requires
        r.st.env.len() > 0,
    ensures
        balanced(r, semantics::assigned_value(m, r, name, e, fuel)),
{
    if fuel > 0 {
        if let SpecControl::Eval(e1) = machine::source(m, r.st, name, e) {
            balanced_eval(m, r, e1, (fuel - 1) as nat);
        }
    }
}

/// The right-hand side of an assignment gives what its trace says. A `param()`
/// is never traced.
pub(crate) proof fn sound_source(
    m: NumberModel,
    ts: Set<Seq<char>>,
    d: SpecDag,
    locals: Seq<SpecScope>,
    r: Run,
    name: Seq<char>,
    e: SpecExpr,
    fuel: nat,
)
    requires
        agrees(ts, d, locals, r.st.env),
        apart(ts, e),
    ensures
        semantics::assigned_value(m, r, name, e, fuel) matches Meaning::Is(v, r1) ==> {
            &&& agrees(ts, d, locals, r1.st.env)
            &&& truthful(trace::trace(m, d, locals, e), v)
        },
    decreases fuel,
{
    if fuel > 0 {
        if let SpecControl::Eval(e1) = machine::source(m, r.st, name, e) {
            sound_eval(m, ts, d, locals, r, e1, (fuel - 1) as nat);
        }
    }
}

pub(crate) proof fn sound_looped(
    m: NumberModel,
    ts: Set<Seq<char>>,
    d: SpecDag,
    locals: Seq<SpecScope>,
    r: Run,
    c: SpecExpr,
    body: Seq<SpecStmt>,
    k: nat,
    fuel: nat,
)
    requires
        agrees(ts, d, locals, r.st.env),
        r.st.env.len() > 1,
        apart(ts, c),
        apart_stmts(ts, body),
    ensures
        semantics::looped(m, r, c, body, fuel) matches Meaning::Is(flow, r1) ==> flow_truthful(
            ts,
            d,
            trace::trace_loop(m, d, locals, SpecStmt::While { condition: c, body }, k),
            flow,
            r1.st.env,
        ),
    decreases fuel,
{
    if fuel > 0 {
        let f = (fuel - 1) as nat;
        let s = SpecStmt::While { condition: c, body };
        balanced_eval(m, r, c, f);
        sound_eval(m, ts, d, locals, r, c, f);
        if let Meaning::Is(v, r1) = semantics::eval(m, r, c, f) {
            if let SpecProv::Fixed(SpecLit::Number(n)) = trace::trace(m, d, locals, c) {
                if !number::is_zero(n) && k < trace::MAX_UNROLL_ITERS {
                    let inside = semantics::with_st(r1, machine::enter(r1.st));
                    let inner = locals.push(Seq::empty());
                    lemma_enter_agrees(ts, d, locals, r1.st.env);
                    balanced_body(m, inside, body, 0, f);
                    sound_body(m, ts, d, inner, inside, body, 0, f);
                    if let Meaning::Is(flow, r2) = semantics::body_run(m, inside, body, 0, f) {
                        let (p, after) = trace::trace_stmts(m, d, inner, body, 0);
                        if p is None {
                            lemma_leave_agrees(ts, d, after, r2.st.env);
                            sound_looped(
                                m,
                                ts,
                                d,
                                after.drop_last(),
                                semantics::with_st(r2, machine::leave(r2.st)),
                                c,
                                body,
                                k + 1,
                                f,
                            );
                        }
                    }
                }
            }
        }
    }
}

/// The run of the first `n` statements of a program, where each of them ends
/// and none returns.
pub open spec fn ran(m: NumberModel, r: Run, prog: Seq<SpecStmt>, n: int, fuel: nat) -> Option<Run>
    decreases n,
{
    if n <= 0 {
        Some(r)
    } else {
        match ran(m, r, prog, n - 1, fuel) {
            None => None,
            Some(r1) => match semantics::exec(m, r1, prog[n - 1], fuel) {
                Meaning::Is(SpecFlow::Normal, r2) => Some(r2),
                _ => None,
            },
        }
    }
}

/// The names that are known before a program runs: none.
pub open spec fn blank(r: Run) -> bool {
    r.st.env == seq![Seq::<(Seq<char>, SpecBinding)>::empty()] && !r.st.in_unsafe
}

pub(crate) proof fn sound_top(
    m: NumberModel,
    ts: Set<Seq<char>>,
    d: SpecDag,
    r: Run,
    s: SpecStmt,
    fuel: nat,
)
    requires
        apart_stmt(ts, s),
        r.st.env.len() == 1,
        !r.st.in_unsafe,
        top_agrees(ts, d, r.st.env[0]),
        d.nodes.len() <= usize::MAX,
        graph::dag_wf(d),
    ensures
        semantics::exec(m, r, s, fuel) matches Meaning::Is(SpecFlow::Normal, r1) ==> {
            &&& r1.st.env.len() == 1
            &&& !r1.st.in_unsafe
            &&& top_agrees(ts, dag::with_stmt(m, d, s), r1.st.env[0])
        },
{
    let locals: Seq<SpecScope> = seq![Seq::empty()];
    assert(agrees(ts, d, locals, r.st.env));
    balanced_exec(m, r, s, fuel);
    if fuel > 0 {
        let f = (fuel - 1) as nat;
        match s {
            SpecStmt::Assign { name, value, mutable } => {
                sound_source(m, ts, d, locals, r, name, value, f);
                balanced_source(m, r, name, value, f);
                if let Meaning::Is(v, r1) = semantics::assigned_value(m, r, name, value, f) {
                    if let Ok(after) = machine::assigned(r1.st, name, v, mutable) {
                        sound_top_assign(m, ts, d, r1.st, name, v, value, mutable);
                    }
                }
            },
            SpecStmt::Print(es) => sound_printed(m, ts, d, locals, r, Seq::empty(), es, 0, f),
            _ => {},
        }
    }
}

/// A top-level assignment adds a node that tells the truth.
pub(crate) proof fn sound_top_assign(
    m: NumberModel,
    ts: Set<Seq<char>>,
    d: SpecDag,
    st: SpecState,
    name: Seq<char>,
    v: SpecValue,
    e: SpecExpr,
    mutable: bool,
)
    requires
        st.env.len() == 1,
        !st.in_unsafe,
        top_agrees(ts, d, st.env[0]),
        !ts.contains(name),
        truthful(trace::trace(m, d, seq![Seq::empty()], e), v),
        machine::assigned(st, name, v, mutable) is Ok,
        d.nodes.len() <= usize::MAX,
        graph::dag_wf(d),
    ensures
        top_agrees(
            ts,
            dag::with_stmt(m, d, SpecStmt::Assign { name, value: e, mutable }),
            machine::assigned(st, name, v, mutable)->Ok_0.env[0],
        ),
{
    let d2 = dag::with_stmt(m, d, SpecStmt::Assign { name, value: e, mutable });
    let scope = st.env[0];
    names::lemma_scope_of(st.env, name, 1);
    assert(names::scope_of(st.env, name, 0) == 0);
    if names::lookup(scope, name) is Some {
        assert(names::scope_of(st.env, name, 1) == 1);
    }
    let b = SpecBinding { value: v, mutable: false };
    let after = machine::assigned(st, name, v, mutable)->Ok_0.env[0];
    assert(after == names::put(scope, name, b));
    let id = d.nodes.len() as usize;
    assert forall|x: Seq<char>| #[trigger] names::lookup(after, x) == (if x == name {
        Some(b)
    } else {
        names::lookup(scope, x)
    }) by {
        names::law_put(scope, name, b, x);
    }
    assert forall|x: Seq<char>|
        match #[trigger] graph::node_of(d2, x) {
            Some(node) => {
                &&& !ts.contains(x)
                &&& names::lookup(after, x) matches Some(b)
                &&& truthful(trace::prov_of_node(node), b.value)
            },
            None => true,
        } by {
        names::law_put(d.env, name, id, x);
        if x != name {
            names::lemma_find(d.env, x, 0);
            if graph::node_of(d2, x) is Some {
                assert(graph::node_of(d2, x) == graph::node_of(d, x));
                assert(names::lookup(after, x) == names::lookup(scope, x));
            }
        } else {
            assert(names::lookup(after, x) == Some(b));
        }
    }
}

pub(crate) proof fn lemma_ran(
    m: NumberModel,
    ts: Set<Seq<char>>,
    r: Run,
    prog: Seq<SpecStmt>,
    n: int,
    fuel: nat,
)
    requires
        blank(r),
        0 <= n <= prog.len() <= usize::MAX,
        apart_stmts(ts, prog),
    ensures
        ran(m, r, prog, n, fuel) matches Some(r1) ==> {
            &&& r1.st.env.len() == 1
            &&& !r1.st.in_unsafe
            &&& top_agrees(ts, dag::dag_of(m, prog, n), r1.st.env[0])
        },
    decreases n,
{
    if n > 0 {
        lemma_ran(m, ts, r, prog, n - 1, fuel);
        if let Some(r1) = ran(m, r, prog, n - 1, fuel) {
            dag_laws::law_graph(m, prog, n - 1);
            dag_laws::lemma_assignments(prog, n - 1);
            assert(apart_stmt(ts, prog[n - 1]));
            sound_top(m, ts, dag::dag_of(m, prog, n - 1), r1, prog[n - 1], fuel);
        }
    }
}

/// What a graph says is fixed is what a run computes: after the first `n`
/// statements of a program have run, whatever the outside world replied, a
/// name whose node is fixed stands for the value of that node. No name that
/// the program assigns may be that of a ticker that it fetches: the data of
/// the ticker would take the name.
pub proof fn law_fixed_is_what_runs_compute(
    m: NumberModel,
    ts: Set<Seq<char>>,
    r: Run,
    prog: Seq<SpecStmt>,
    n: int,
    fuel: nat,
    name: Seq<char>,
)
    requires
        blank(r),
        0 <= n <= prog.len() <= usize::MAX,
        apart_stmts(ts, prog),
        ran(m, r, prog, n, fuel) is Some,
        graph::node_of(dag::dag_of(m, prog, n), name) matches Some(node) && node.op is Fixed,
    ensures
        names::lookup_in(ran(m, r, prog, n, fuel)->0.st.env, name) == Some(
            SpecBinding {
                value: lit_value(
                    graph::node_of(dag::dag_of(m, prog, n), name)->0.op->Fixed_value,
                ),
                mutable: false,
            },
        ),
{
    lemma_ran(m, ts, r, prog, n, fuel);
    let env = ran(m, r, prog, n, fuel)->0.st.env;
    assert(names::lookup(env[0], name) is Some);
    assert(names::scope_of(env, name, 1) == 1);
}

} // verus!
