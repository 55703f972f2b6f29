//! What holds of every machine, however far it has run.

#[allow(unused_imports)]
use crate::ast::{SpecExpr, SpecStmt};
#[allow(unused_imports)]
use crate::interpreter;
#[allow(unused_imports)]
use crate::machine::{
    self, SpecCallee, SpecControl, SpecEnv, SpecFlow, SpecFrame, SpecMachine, SpecPending, SpecReply, SpecState,
};
#[allow(unused_imports)]
use crate::names;
#[allow(unused_imports)]
use crate::number::NumberModel;
#[allow(unused_imports)]
use crate::value::{SpecBinding, SpecValue};
use vstd::prelude::*;

verus! {

// ---- assignments ------------------------------------------------------

/// What an assignment does to names: the name stands for the value, and every
/// other name for what it stood for before.
pub proof fn law_assignment(
    st: SpecState,
    name: Seq<char>,
    v: SpecValue,
    mutable: bool,
    other: Seq<char>,
)
    requires
        st.env.len() > 0,
        machine::assigned(st, name, v, mutable) is Ok,
    ensures
        ({
            let after = machine::assigned(st, name, v, mutable)->Ok_0;
            &&& names::lookup_in(after.env, name) matches Some(b) && b.value == v
            &&& other != name ==> names::lookup_in(after.env, other) == names::lookup_in(
                st.env,
                other,
            )
            &&& after == machine::with_env(st, after.env)
            &&& after.env.len() == st.env.len()
        }),
{
    let after = machine::assigned(st, name, v, mutable)->Ok_0;
    let n = st.env.len() as int;
    names::lemma_scope_of(st.env, name, n);
    let found = names::scope_of(st.env, name, n);
    let k = if mutable || found == 0 {
        n - 1
    } else {
        found - 1
    };
    let b = names::lookup(after.env[k], name)->0;
    names::law_put(st.env[k], name, b, name);
    assert(after.env == names::put_in(
        st.env,
        k,
        name,
        SpecBinding { value: v, mutable: mutable || found > 0 },
    ));
    names::law_put(
        st.env[k],
        name,
        SpecBinding { value: v, mutable: mutable || found > 0 },
        other,
    );
    lemma_scope_after_put(
        st.env,
        k,
        name,
        SpecBinding { value: v, mutable: mutable || found > 0 },
        name,
        n,
    );
    lemma_scope_after_put(
        st.env,
        k,
        name,
        SpecBinding { value: v, mutable: mutable || found > 0 },
        other,
        n,
    );
    names::lemma_scope_of(st.env, other, n);
}

proof fn lemma_scope_after_put<W>(
    scopes: Seq<Seq<(Seq<char>, W)>>,
    k: int,
    name: Seq<char>,
    w: W,
    x: Seq<char>,
    n: int,
)
    requires
        0 <= k < scopes.len(),
        0 <= n <= scopes.len(),
    ensures
        ({
            let after = names::put_in(scopes, k, name, w);
            &&& x != name ==> names::scope_of(after, x, n) == names::scope_of(scopes, x, n)
            &&& x == name && k < n && (forall|i: int|
                k < i < n ==> names::lookup(#[trigger] scopes[i], name) is None)
                ==> names::scope_of(after, x, n) == k + 1
        }),
    decreases n,
{
    let after = names::put_in(scopes, k, name, w);
    if n > 0 {
        lemma_scope_after_put(scopes, k, name, w, x, n - 1);
        names::law_put(scopes[k], name, w, x);
        if n - 1 != k {
            assert(after[n - 1] == scopes[n - 1]);
        }
    }
}

/// A name that is not mutable cannot be assigned but by hiding it.
pub proof fn law_immutable_names_stay(st: SpecState, name: Seq<char>, v: SpecValue)
    requires
        names::lookup_in(st.env, name) matches Some(b) && !b.mutable,
    ensures
        machine::assigned(st, name, v, false) is Err,
{
}

// ---- what is mutable --------------------------------------------------

/// Nothing is mutable.
pub open spec fn settled(env: SpecEnv) -> bool {
    forall|i: int, j: int|
        0 <= i < env.len() && 0 <= j < env[i].len() ==> !(#[trigger] env[i][j]).1.mutable
}

/// The scopes but the innermost.
pub open spec fn outer(env: SpecEnv) -> SpecEnv {
    if env.len() == 0 {
        env
    } else {
        env.drop_last()
    }
}

/// Wherever no `[unsafe]` block runs, now or when the stack has come down to
/// there, nothing is mutable.
pub open spec fn contained(frames: Seq<SpecFrame>, env: SpecEnv, in_unsafe: bool) -> bool
    decreases frames.len(),
{
    &&& !in_unsafe ==> settled(env)
    &&& if frames.len() == 0 {
        true
    } else {
        let below = frames.drop_last();
        match frames.last() {
            SpecFrame::UnsafeEnd(saved, before) => contained(below, saved, before),
            SpecFrame::FunctionEnd(saved) => contained(below, saved, in_unsafe),
            SpecFrame::Round(..) => contained(below, outer(env), in_unsafe),
            _ => contained(below, env, in_unsafe),
        }
    }
}

proof fn lemma_contained(frames: Seq<SpecFrame>, env: SpecEnv, other: SpecEnv, in_unsafe: bool)
    requires
        contained(frames, env, in_unsafe),
        !in_unsafe ==> settled(other),
    ensures
        contained(frames, other, in_unsafe),
    decreases frames.len(),
{
    if frames.len() > 0 {
        let below = frames.drop_last();
        match frames.last() {
            SpecFrame::UnsafeEnd(..) => {},
            SpecFrame::FunctionEnd(..) => {},
            SpecFrame::Round(..) => {
                if !in_unsafe && other.len() > 0 {
                    lemma_settled_drop(other);
                }
                lemma_contained(below, outer(env), outer(other), in_unsafe);
            },
            _ => lemma_contained(below, env, other, in_unsafe),
        }
    }
}

proof fn lemma_settled_drop(env: SpecEnv)
    requires
        settled(env),
        env.len() > 0,
    ensures
        settled(env.drop_last()),
{
    let e = env.drop_last();
    assert forall|i: int, j: int| 0 <= i < e.len() && 0 <= j < e[i].len() implies !(
    #[trigger] e[i][j]).1.mutable by {
        assert(e[i] == env[i]);
        assert(!env[i][j].1.mutable);
    }
}

proof fn lemma_settled_put(env: SpecEnv, k: int, name: Seq<char>, v: SpecValue)
    requires
        settled(env),
        0 <= k < env.len(),
    ensures
        settled(names::put_in(env, k, name, SpecBinding { value: v, mutable: false })),
{
    let b = SpecBinding { value: v, mutable: false };
    let after = names::put_in(env, k, name, b);
    names::lemma_find(env[k], name, 0);
    assert forall|i: int, j: int| 0 <= i < after.len() && 0 <= j < after[i].len() implies !(
    #[trigger] after[i][j]).1.mutable by {
        if i != k {
            assert(after[i] == env[i]);
            assert(!env[i][j].1.mutable);
        } else if j != names::find_from(env[k], name, 0) {
            assert(after[i][j] == env[i][j]);
            assert(!env[i][j].1.mutable);
        }
    }
}

proof fn lemma_settled_arguments(params: Seq<Seq<char>>, values: Seq<SpecValue>, n: int)
    ensures
        settled(seq![machine::arguments(params, values, n)]),
    decreases n,
{
    let env = seq![machine::arguments(params, values, n)];
    if n > 0 {
        lemma_settled_arguments(params, values, n - 1);
        let before = seq![machine::arguments(params, values, n - 1)];
        lemma_settled_put(before, 0, params[n - 1], values[n - 1]);
        assert(env =~= names::put_in(
            before,
            0,
            params[n - 1],
            SpecBinding { value: values[n - 1], mutable: false },
        ));
    }
}

proof fn lemma_settled_enter(env: SpecEnv)
    requires
        settled(env),
    ensures
        settled(env.push(Seq::empty())),
{
    let e = env.push(Seq::empty());
    assert forall|i: int, j: int| 0 <= i < e.len() && 0 <= j < e[i].len() implies !(
    #[trigger] e[i][j]).1.mutable by {
        if i < env.len() {
            assert(e[i] == env[i]);
            assert(!env[i][j].1.mutable);
        }
    }
}

/// What is mutable is contained in `[unsafe]` blocks.
pub open spec fn tidy(x: SpecMachine) -> bool {
    contained(x.frames, x.st.env, x.st.in_unsafe)
}

proof fn tidy_body(st: SpecState, body: Seq<SpecStmt>, i: int, frames: Seq<SpecFrame>)
    requires
        contained(frames, st.env, st.in_unsafe),
    ensures
        tidy(machine::run_body(st, body, i, frames)),
{
    broadcast use machine::lemma_push_last;

}

proof fn tidy_args(
    m: NumberModel,
    st: SpecState,
    c: SpecCallee,
    done: Seq<SpecValue>,
    args: Seq<SpecExpr>,
    frames: Seq<SpecFrame>,
)
    requires
        contained(frames, st.env, st.in_unsafe),
    ensures
        tidy(machine::run_args(m, st, c, done, args, frames)),
{
    broadcast use machine::lemma_push_last;

    if done.len() >= args.len() {
        if let SpecCallee::Function(f) = c {
            let n = f.params.len() as int;
            let env = seq![machine::arguments(f.params, done, n)];
            let inner = frames.push(SpecFrame::FunctionEnd(st.env));
            lemma_settled_arguments(f.params, done, n);
            assert(contained(inner, env, st.in_unsafe));
            tidy_body(machine::with_env(st, env), f.body, 0, inner);
        }
    }
}

proof fn tidy_eval(m: NumberModel, st: SpecState, e: SpecExpr, frames: Seq<SpecFrame>)
    requires
        contained(frames, st.env, st.in_unsafe),
    ensures
        tidy(machine::eval_step(m, st, e, frames)),
{
    broadcast use machine::lemma_push_last;

    match e {
        SpecExpr::Call { name, args } => {
            if let Ok(c) = machine::callee(st, name, args.len()) {
                tidy_args(m, st, c, Seq::empty(), args, frames);
            }
        },
        SpecExpr::Unsafe { body } => {
            let inner = frames.push(SpecFrame::UnsafeEnd(st.env, st.in_unsafe));
            let entered = machine::enter(SpecState { in_unsafe: true, ..st });
            assert(contained(inner, entered.env, true));
            tidy_body(entered, body, 0, inner);
        },
        _ => {},
    }
}

proof fn tidy_assigned(st: SpecState, name: Seq<char>, v: SpecValue, mutable: bool, frames: Seq<
    SpecFrame,
>)
    requires
        st.env.len() > 0,
        contained(frames, st.env, st.in_unsafe),
    ensures
        machine::assigned(st, name, v, mutable) matches Ok(after) ==> contained(
            frames,
            after.env,
            after.in_unsafe,
        ),
{
    if let Ok(after) = machine::assigned(st, name, v, mutable) {
        if !st.in_unsafe {
            lemma_settled_put(st.env, st.env.len() - 1, name, v);
        }
        lemma_contained(frames, st.env, after.env, st.in_unsafe);
    }
}

proof fn tidy_give(
    m: NumberModel,
    st: SpecState,
    v: SpecValue,
    f: SpecFrame,
    frames: Seq<SpecFrame>,
)
    requires
        st.env.len() > 0,
        machine::takes_value(f),
        contained(frames, st.env, st.in_unsafe),
    ensures
        tidy(machine::give_step(m, st, v, f, frames)),
{
    broadcast use machine::lemma_push_last;

    match f {
        SpecFrame::Args(c, done, args) => tidy_args(m, st, c, done.push(v), args, frames),
        SpecFrame::AssignTo(name, mutable) => tidy_assigned(st, name, v, mutable, frames),
        SpecFrame::LoopIf(c, body) => {
            let inner = frames.push(SpecFrame::Round(c, body));
            let entered = machine::enter(st);
            assert(entered.env.drop_last() =~= st.env);
            if !st.in_unsafe {
                lemma_settled_enter(st.env);
            }
            assert(contained(inner, entered.env, st.in_unsafe));
            tidy_body(entered, body, 0, inner);
        },
        _ => {},
    }
}

proof fn tidy_done(st: SpecState, flow: SpecFlow, f: SpecFrame, frames: Seq<SpecFrame>)
    requires
        st.env.len() > 0,
        contained(frames.push(f), st.env, st.in_unsafe),
    ensures
        tidy(machine::done_step(st, flow, f, frames)),
{
    broadcast use machine::lemma_push_last;

    if let SpecFrame::Body(body, i) = f {
        tidy_body(st, body, i, frames);
    }
}

/// Mutable names never leave the `[unsafe]` block that declares them: in a
/// machine where that holds, it holds after any step.
pub proof fn law_mutable_names_stay_inside(m: NumberModel, x: SpecMachine, reply: SpecReply)
    requires
        machine::wf(x),
        tidy(x),
    ensures
        tidy(machine::next(m, x, reply)),
{
    broadcast use machine::lemma_push_last;

    if x.frames.len() > 0 {
        assert(x.frames.drop_last().push(x.frames.last()) =~= x.frames);
    }
    match x.control {
        SpecControl::Eval(e) => tidy_eval(m, x.st, e, x.frames),
        SpecControl::Give(v) => {
            tidy_give(m, x.st, v, x.frames.last(), x.frames.drop_last());
        },
        SpecControl::Done(flow) => {
            tidy_done(x.st, flow, x.frames.last(), x.frames.drop_last());
        },
        SpecControl::Wait(p) => {
            if let SpecPending::Document(t) = p {
                let (st, control) = machine::reply_step(x.st, p, reply);
                if let SpecControl::Give(v) = control {
                    if !x.st.in_unsafe {
                        lemma_settled_put(x.st.env, x.st.env.len() - 1, t, v);
                    }
                }
                if st.env != x.st.env {
                    lemma_contained(x.frames, x.st.env, st.env, x.st.in_unsafe);
                }
            }
        },
        _ => {},
    }
}

/// A program that starts where nothing is mutable starts tidy.
pub proof fn law_programs_start_tidy(st: SpecState, prog: Seq<SpecStmt>)
    requires
        settled(st.env),
    ensures
        tidy(interpreter::started(st, prog)),
{
    let frames = seq![SpecFrame::Top(prog, 0)];
    assert(frames.drop_last() =~= Seq::empty());
    assert(contained(frames.drop_last(), st.env, st.in_unsafe));
}

} // verus!
