//! What functions can do: compute a value, and nothing else.

#[allow(unused_imports)]
use crate::ast::{SpecExpr, SpecStmt};
#[allow(unused_imports)]
use crate::dag;
#[allow(unused_imports)]
use crate::machine::{self, SpecCallee, SpecControl, SpecFn, SpecPending, SpecState};
#[allow(unused_imports)]
use crate::names;
#[allow(unused_imports)]
use crate::number::NumberModel;
#[allow(unused_imports)]
use crate::purity;
#[allow(unused_imports)]
use crate::semantics::{self, Meaning, Run};
#[allow(unused_imports)]
use crate::soundness;
#[allow(unused_imports)]
use crate::value::{self, SpecValue};
use vstd::prelude::*;

verus! {

/// Every function of the program does nothing but assign, loop and return.
pub open spec fn functions_pure(st: SpecState) -> bool {
    forall|i: int|
        0 <= i < st.functions.len() ==> purity::pure_body((#[trigger] st.functions[i]).1.body)
}

/// What a program is run with: the prewritten functions, the overrides, and
/// where data comes from.
pub open spec fn same_settings(a: SpecState, b: SpecState) -> bool {
    &&& a.natives == b.natives
    &&& a.params == b.params
    &&& a.prefetched == b.prefetched
    &&& a.data_dir == b.data_dir
    &&& a.generator_script == b.generator_script
    &&& a.python_bin == b.python_bin
}

/// Functions that were pure still are, and what the program is run with is what it
/// was.
pub open spec fn keeps<T>(r: Run, x: Meaning<T>) -> bool {
    x is Out || {
        &&& functions_pure(r.st) ==> functions_pure(soundness::end_of(x).st)
        &&& same_settings(r.st, soundness::end_of(x).st)
    }
}

proof fn keep_fetched(r: Run, p: SpecPending, fuel: nat)
    ensures
        keeps(r, semantics::fetched(r, p, fuel)),
    decreases fuel,
{
    if fuel > 0 && r.replies.len() > 0 {
        let (st, control) = machine::reply_step(r.st, p, r.replies[0]);
        if let SpecControl::Wait(q) = control {
            keep_fetched(
                semantics::with_st(semantics::after_asking(r, p), st),
                q,
                (fuel - 1) as nat,
            );
        }
    }
}

pub(crate) proof fn keep_eval(m: NumberModel, r: Run, e: SpecExpr, fuel: nat)
    ensures
        keeps(r, semantics::eval(m, r, e, fuel)),
    decreases fuel,
{
    if fuel > 0 {
        let f = (fuel - 1) as nat;
        match e {
            SpecExpr::Field { base, .. } => keep_eval(m, r, *base, f),
            SpecExpr::Subset { base, .. } => match dag::ticker_of(e) {
                Some(t) => keep_fetched(r, SpecPending::Directory(t), f),
                None => keep_eval(m, r, *base, f),
            },
            SpecExpr::Binary { lhs, rhs, .. } => {
                keep_eval(m, r, *lhs, f);
                if let Meaning::Is(_, r1) = semantics::eval(m, r, *lhs, f) {
                    keep_eval(m, r1, *rhs, f);
                }
            },
            SpecExpr::If { condition, then_branch, else_branch } => {
                keep_eval(m, r, *condition, f);
                if let Meaning::Is(_, r1) = semantics::eval(m, r, *condition, f) {
                    keep_eval(m, r1, *then_branch, f);
                    keep_eval(m, r1, *else_branch, f);
                }
            },
            SpecExpr::Call { name, args } => {
                if let Ok(c) = machine::callee(r.st, name, args.len()) {
                    keep_applied(m, r, c, Seq::empty(), args, f);
                }
            },
            SpecExpr::Unsafe { body } => {
                let inside = semantics::with_st(
                    r,
                    machine::enter(SpecState { in_unsafe: true, ..r.st }),
                );
                keep_run(m, inside, body, 0, f);
            },
            _ => {},
        }
    }
}

proof fn keep_applied(
    m: NumberModel,
    r: Run,
    c: SpecCallee,
    done: Seq<SpecValue>,
    args: Seq<SpecExpr>,
    fuel: nat,
)
    ensures
        keeps(r, semantics::applied(m, r, c, done, args, fuel)),
    decreases fuel,
{
    if fuel > 0 {
        let f = (fuel - 1) as nat;
        if done.len() < args.len() {
            let e = args[done.len() as int];
            keep_eval(m, r, e, f);
            if let Meaning::Is(v, r1) = semantics::eval(m, r, e, f) {
                keep_applied(m, r1, c, done.push(v), args, f);
            }
        } else if let SpecCallee::Function(g) = c {
            let env = seq![machine::arguments(g.params, done, g.params.len() as int)];
            keep_run(m, semantics::with_st(r, machine::with_env(r.st, env)), g.body, 0, f);
        }
    }
}

pub(crate) proof fn keep_exec(m: NumberModel, r: Run, s: SpecStmt, fuel: nat)
    ensures
        keeps(r, semantics::exec(m, r, s, fuel)),
    decreases fuel,
{
    if fuel > 0 {
        let f = (fuel - 1) as nat;
        match s {
            SpecStmt::Assign { name, value, mutable } => {
                if f > 0 {
                    if let SpecControl::Eval(e) = machine::source(m, r.st, name, value) {
                        keep_eval(m, r, e, (f - 1) as nat);
                    }
                }
            },
            SpecStmt::While { condition, body } => keep_looped(m, r, condition, body, f),
            SpecStmt::Print(es) => keep_printed(m, r, Seq::empty(), es, 0, f),
            SpecStmt::Return(e) => keep_eval(m, r, e, f),
            SpecStmt::FnDef { name, params, body } => {
                purity::law_check_is_purity(body);
                names::lemma_find(r.st.functions, name, 0);
                let g = SpecFn { params, body };
                let after = names::put(r.st.functions, name, g);
                if functions_pure(r.st) && purity::body_impurity(body, 0) is None {
                    assert forall|i: int| 0 <= i < after.len() implies purity::pure_body(
                        (#[trigger] after[i]).1.body,
                    ) by {
                        if i != names::find_from(r.st.functions, name, 0) {
                            assert(after[i] == r.st.functions[i]);
                        }
                    }
                }
            },
        }
    }
}

proof fn keep_looped(m: NumberModel, r: Run, c: SpecExpr, body: Seq<SpecStmt>, fuel: nat)
    ensures
        keeps(r, semantics::looped(m, r, c, body, fuel)),
    decreases fuel,
{
    if fuel > 0 {
        let f = (fuel - 1) as nat;
        keep_eval(m, r, c, f);
        if let Meaning::Is(v, r1) = semantics::eval(m, r, c, f) {
            let inside = semantics::with_st(r1, machine::enter(r1.st));
            keep_run(m, inside, body, 0, f);
            if let Meaning::Is(flow, r2) = semantics::body_run(m, inside, body, 0, f) {
                keep_looped(
                    m,
                    semantics::with_st(r2, machine::leave(r2.st)),
                    c,
                    body,
                    f,
                );
            }
        }
    }
}

proof fn keep_printed(
    m: NumberModel,
    r: Run,
    out: Seq<char>,
    es: Seq<SpecExpr>,
    i: int,
    fuel: nat,
)
    ensures
        keeps(r, semantics::printed(m, r, out, es, i, fuel)),
    decreases fuel,
{
    if fuel > 0 && 0 <= i < es.len() {
        let f = (fuel - 1) as nat;
        keep_eval(m, r, es[i], f);
        if let Meaning::Is(v, r1) = semantics::eval(m, r, es[i], f) {
            keep_printed(m, r1, out + value::value_text(m, v), es, i + 1, f);
        }
    }
}

pub(crate) proof fn keep_run(m: NumberModel, r: Run, ss: Seq<SpecStmt>, i: int, fuel: nat)
    ensures
        keeps(r, semantics::body_run(m, r, ss, i, fuel)),
    decreases fuel,
{
    if fuel > 0 && 0 <= i < ss.len() {
        let f = (fuel - 1) as nat;
        keep_exec(m, r, ss[i], f);
        if let Meaning::Is(flow, r1) = semantics::exec(m, r, ss[i], f) {
            keep_run(m, r1, ss, i + 1, f);
        }
    }
}

/// Whatever a program does, its functions are pure.
pub proof fn law_functions_stay_pure(m: NumberModel, r: Run, s: SpecStmt, fuel: nat)
    requires
        functions_pure(r.st),
        semantics::exec(m, r, s, fuel) !is Out,
    ensures
        functions_pure(soundness::end_of(semantics::exec(m, r, s, fuel)).st),
{
    keep_exec(m, r, s, fuel);
}

/// Whatever a program does, what it is run with stays as it is.
pub proof fn law_settings_stay(m: NumberModel, r: Run, s: SpecStmt, fuel: nat)
    requires
        semantics::exec(m, r, s, fuel) !is Out,
    ensures
        same_settings(r.st, soundness::end_of(semantics::exec(m, r, s, fuel)).st),
{
    keep_exec(m, r, s, fuel);
}

/// Nothing was asked for, and nothing but names changed.
pub open spec fn silent<T>(r: Run, x: Meaning<T>) -> bool {
    x is Out || {
        let end = soundness::end_of(x);
        end == (Run {
            st: SpecState { env: end.st.env, in_unsafe: end.st.in_unsafe, ..r.st },
            ..r
        })
    }
}

proof fn silent_eval(m: NumberModel, r: Run, e: SpecExpr, fuel: nat)
    requires
        functions_pure(r.st),
        purity::pure_expr(e),
    ensures
        silent(r, semantics::eval(m, r, e, fuel)),
    decreases fuel,
{
    if fuel > 0 {
        let f = (fuel - 1) as nat;
        match e {
            SpecExpr::Field { base, .. } => silent_eval(m, r, *base, f),
            SpecExpr::Subset { base, .. } => silent_eval(m, r, *base, f),
            SpecExpr::Binary { lhs, rhs, .. } => {
                silent_eval(m, r, *lhs, f);
                if let Meaning::Is(_, r1) = semantics::eval(m, r, *lhs, f) {
                    silent_eval(m, r1, *rhs, f);
                }
            },
            SpecExpr::If { condition, then_branch, else_branch } => {
                silent_eval(m, r, *condition, f);
                if let Meaning::Is(_, r1) = semantics::eval(m, r, *condition, f) {
                    silent_eval(m, r1, *then_branch, f);
                    silent_eval(m, r1, *else_branch, f);
                }
            },
            SpecExpr::Call { name, args } => {
                if let Ok(c) = machine::callee(r.st, name, args.len()) {
                    if let SpecCallee::Function(g) = c {
                        names::lemma_find(r.st.functions, name, 0);
                    }
                    silent_applied(m, r, c, Seq::empty(), args, f);
                }
            },
            SpecExpr::Unsafe { body } => {
                let inside = semantics::with_st(
                    r,
                    machine::enter(SpecState { in_unsafe: true, ..r.st }),
                );
                assert(functions_pure(inside.st));
                silent_run(m, inside, body, 0, f);
            },
            _ => {},
        }
    }
}

proof fn silent_applied(
    m: NumberModel,
    r: Run,
    c: SpecCallee,
    done: Seq<SpecValue>,
    args: Seq<SpecExpr>,
    fuel: nat,
)
    requires
        functions_pure(r.st),
        forall|i: int| 0 <= i < args.len() ==> purity::pure_expr(#[trigger] args[i]),
        c matches SpecCallee::Function(g) ==> purity::pure_body(g.body),
    ensures
        silent(r, semantics::applied(m, r, c, done, args, fuel)),
    decreases fuel,
{
    if fuel > 0 {
        let f = (fuel - 1) as nat;
        if done.len() < args.len() {
            let e = args[done.len() as int];
            silent_eval(m, r, e, f);
            if let Meaning::Is(v, r1) = semantics::eval(m, r, e, f) {
                silent_applied(m, r1, c, done.push(v), args, f);
            }
        } else if let SpecCallee::Function(g) = c {
            let env = seq![machine::arguments(g.params, done, g.params.len() as int)];
            let inside = semantics::with_st(r, machine::with_env(r.st, env));
            assert(functions_pure(inside.st));
            silent_run(m, inside, g.body, 0, f);
        }
    }
}

proof fn silent_exec(m: NumberModel, r: Run, s: SpecStmt, fuel: nat)
    requires
        functions_pure(r.st),
        purity::pure_stmt(s),
    ensures
        silent(r, semantics::exec(m, r, s, fuel)),
    decreases fuel,
{
    if fuel > 0 {
        let f = (fuel - 1) as nat;
        match s {
            SpecStmt::Assign { name, value, mutable } => {
                if f > 0 {
                    if let SpecControl::Eval(e) = machine::source(m, r.st, name, value) {
                        silent_eval(m, r, e, (f - 1) as nat);
                    }
                }
            },
            SpecStmt::While { condition, body } => silent_looped(m, r, condition, body, f),
            SpecStmt::Return(e) => silent_eval(m, r, e, f),
            _ => {},
        }
    }
}

proof fn silent_looped(m: NumberModel, r: Run, c: SpecExpr, body: Seq<SpecStmt>, fuel: nat)
    requires
        functions_pure(r.st),
        purity::pure_expr(c),
        purity::pure_body(body),
    ensures
        silent(r, semantics::looped(m, r, c, body, fuel)),
    decreases fuel,
{
    if fuel > 0 {
        let f = (fuel - 1) as nat;
        silent_eval(m, r, c, f);
        if let Meaning::Is(v, r1) = semantics::eval(m, r, c, f) {
            let inside = semantics::with_st(r1, machine::enter(r1.st));
            assert(functions_pure(inside.st));
            silent_run(m, inside, body, 0, f);
            if let Meaning::Is(flow, r2) = semantics::body_run(m, inside, body, 0, f) {
                silent_looped(
                    m,
                    semantics::with_st(r2, machine::leave(r2.st)),
                    c,
                    body,
                    f,
                );
            }
        }
    }
}

pub(crate) proof fn silent_run(m: NumberModel, r: Run, ss: Seq<SpecStmt>, i: int, fuel: nat)
    requires
        functions_pure(r.st),
        purity::pure_body(ss),
    ensures
        silent(r, semantics::body_run(m, r, ss, i, fuel)),
    decreases fuel,
{
    if fuel > 0 && 0 <= i < ss.len() {
        let f = (fuel - 1) as nat;
        assert(purity::pure_stmt(ss[i]));
        silent_exec(m, r, ss[i], f);
        if let Meaning::Is(flow, r1) = semantics::exec(m, r, ss[i], f) {
            silent_run(m, r1, ss, i + 1, f);
        }
    }
}

/// A call of a function of the program has no side effects: whatever comes out
/// of it, it has asked for nothing and left everything as it was.
pub proof fn law_functions_have_no_side_effects(
    m: NumberModel,
    r: Run,
    f: SpecFn,
    values: Seq<SpecValue>,
    args: Seq<SpecExpr>,
    fuel: nat,
)
    requires
        r.st.env.len() > 0,
        functions_pure(r.st),
        purity::pure_body(f.body),
        values.len() == args.len(),
        semantics::applied(m, r, SpecCallee::Function(f), values, args, fuel) !is Out,
    ensures
        soundness::end_of(semantics::applied(m, r, SpecCallee::Function(f), values, args, fuel))
            == r,
{
    if fuel > 0 {
        let env = seq![machine::arguments(f.params, values, f.params.len() as int)];
        let inside = semantics::with_st(r, machine::with_env(r.st, env));
        assert(functions_pure(inside.st));
        silent_run(m, inside, f.body, 0, (fuel - 1) as nat);
        soundness::balanced_body(m, inside, f.body, 0, (fuel - 1) as nat);
    }
}

/// Evaluating a pure expression leaves everything as it was.
pub proof fn law_pure_expressions_change_nothing(m: NumberModel, r: Run, e: SpecExpr, fuel: nat)
    requires
        r.st.env.len() > 0,
        functions_pure(r.st),
        purity::pure_expr(e),
        semantics::eval(m, r, e, fuel) !is Out,
    ensures
        soundness::end_of(semantics::eval(m, r, e, fuel)) == r,
    decreases fuel,
{
    if fuel > 0 {
        let f = (fuel - 1) as nat;
        match e {
            SpecExpr::Field { base, .. } => law_pure_expressions_change_nothing(m, r, *base, f),
            SpecExpr::Subset { base, .. } => law_pure_expressions_change_nothing(m, r, *base, f),
            SpecExpr::Binary { lhs, rhs, .. } => {
                law_pure_expressions_change_nothing(m, r, *lhs, f);
                if let Meaning::Is(x, r1) = semantics::eval(m, r, *lhs, f) {
                    if value::number_of(m, x) is Ok {
                        law_pure_expressions_change_nothing(m, r1, *rhs, f);
                    }
                }
            },
            SpecExpr::If { condition, then_branch, else_branch } => {
                law_pure_expressions_change_nothing(m, r, *condition, f);
                if let Meaning::Is(v, r1) = semantics::eval(m, r, *condition, f) {
                    if let Ok(b) = machine::condition(m, "if"@, v) {
                        if b {
                            law_pure_expressions_change_nothing(m, r1, *then_branch, f);
                        } else {
                            law_pure_expressions_change_nothing(m, r1, *else_branch, f);
                        }
                    }
                }
            },
            SpecExpr::Call { name, args } => {
                if let Ok(c) = machine::callee(r.st, name, args.len()) {
                    if let SpecCallee::Function(g) = c {
                        names::lemma_find(r.st.functions, name, 0);
                    }
                    still_applied(m, r, c, Seq::empty(), args, f);
                }
            },
            SpecExpr::Unsafe { body } => {
                let inside = semantics::with_st(
                    r,
                    machine::enter(SpecState { in_unsafe: true, ..r.st }),
                );
                assert(functions_pure(inside.st));
                silent_run(m, inside, body, 0, f);
            },
            _ => {},
        }
    }
}

proof fn still_applied(
    m: NumberModel,
    r: Run,
    c: SpecCallee,
    done: Seq<SpecValue>,
    args: Seq<SpecExpr>,
    fuel: nat,
)
    requires
        r.st.env.len() > 0,
        functions_pure(r.st),
        forall|i: int| 0 <= i < args.len() ==> purity::pure_expr(#[trigger] args[i]),
        c matches SpecCallee::Function(g) ==> purity::pure_body(g.body),
        semantics::applied(m, r, c, done, args, fuel) !is Out,
    ensures
        soundness::end_of(semantics::applied(m, r, c, done, args, fuel)) == r,
    decreases fuel,
{
    if fuel > 0 {
        let f = (fuel - 1) as nat;
        if done.len() < args.len() {
            let e = args[done.len() as int];
            law_pure_expressions_change_nothing(m, r, e, f);
            if let Meaning::Is(v, r1) = semantics::eval(m, r, e, f) {
                still_applied(m, r1, c, done.push(v), args, f);
            }
        } else if let SpecCallee::Function(g) = c {
            let env = seq![machine::arguments(g.params, done, g.params.len() as int)];
            let inside = semantics::with_st(r, machine::with_env(r.st, env));
            assert(functions_pure(inside.st));
            silent_run(m, inside, g.body, 0, f);
            soundness::balanced_body(m, inside, g.body, 0, f);
        }
    }
}

} // verus!
