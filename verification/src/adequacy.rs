//! That the machine stops only where a program is meant to end.

#[allow(unused_imports)]
use crate::ast::{SpecExpr, SpecStmt};
#[allow(unused_imports)]
use crate::dag;
#[allow(unused_imports)]
use crate::interpreter;
#[allow(unused_imports)]
use crate::machine::{self, SpecCallee, SpecControl, SpecFlow, SpecFrame, SpecPending, SpecState};
#[allow(unused_imports)]
use crate::number::NumberModel;
#[allow(unused_imports)]
use crate::semantics::{self, Config, Meaning, Run};
#[allow(unused_imports)]
use crate::value::{self, SpecValue};
use vstd::prelude::*;

verus! {

// ---- fuel -------------------------------------------------------------

proof fn more_fetched(r: Run, p: SpecPending, f: nat, g: nat)
    requires
        f <= g,
        semantics::fetched(r, p, f) !is Out,
    ensures
        semantics::fetched(r, p, g) == semantics::fetched(r, p, f),
    decreases f,
{
    let (st, control) = machine::reply_step(r.st, p, r.replies[0]);
    if let SpecControl::Wait(q) = control {
        more_fetched(
            semantics::with_st(semantics::after_asking(r, p), st),
            q,
            (f - 1) as nat,
            (g - 1) as nat,
        );
    }
}

pub(crate) proof fn more_eval(m: NumberModel, r: Run, e: SpecExpr, f: nat, g: nat)
    requires
        f <= g,
        semantics::eval(m, r, e, f) !is Out,
    ensures
        semantics::eval(m, r, e, g) == semantics::eval(m, r, e, f),
    decreases f,
{
    let (a, b) = ((f - 1) as nat, (g - 1) as nat);
    match e {
        SpecExpr::Field { base, .. } => more_eval(m, r, *base, a, b),
        SpecExpr::Subset { base, .. } => match dag::ticker_of(e) {
            Some(t) => more_fetched(r, SpecPending::Directory(t), a, b),
            None => more_eval(m, r, *base, a, b),
        },
        SpecExpr::Binary { lhs, rhs, .. } => {
            more_eval(m, r, *lhs, a, b);
            if let Meaning::Is(x, r1) = semantics::eval(m, r, *lhs, a) {
                if value::number_of(m, x) is Ok {
                    more_eval(m, r1, *rhs, a, b);
                }
            }
        },
        SpecExpr::If { condition, then_branch, else_branch } => {
            more_eval(m, r, *condition, a, b);
            if let Meaning::Is(v, r1) = semantics::eval(m, r, *condition, a) {
                match machine::condition(m, "if"@, v) {
                    Ok(true) => more_eval(m, r1, *then_branch, a, b),
                    Ok(false) => more_eval(m, r1, *else_branch, a, b),
                    Err(_) => {},
                }
            }
        },
        SpecExpr::Call { name, args } => {
            if let Ok(c) = machine::callee(r.st, name, args.len()) {
                more_applied(m, r, c, Seq::empty(), args, a, b);
            }
        },
        SpecExpr::Unsafe { body } => {
            let inside = semantics::with_st(
                r,
                machine::enter(SpecState { in_unsafe: true, ..r.st }),
            );
            more_body(m, inside, body, 0, a, b);
        },
        _ => {},
    }
}

pub(crate) proof fn more_applied(
    m: NumberModel,
    r: Run,
    c: SpecCallee,
    done: Seq<SpecValue>,
    args: Seq<SpecExpr>,
    f: nat,
    g: nat,
)
    requires
        f <= g,
        semantics::applied(m, r, c, done, args, f) !is Out,
    ensures
        semantics::applied(m, r, c, done, args, g) == semantics::applied(m, r, c, done, args, f),
    decreases f,
{
    let (a, b) = ((f - 1) as nat, (g - 1) as nat);
    if done.len() < args.len() {
        let e = args[done.len() as int];
        more_eval(m, r, e, a, b);
        if let Meaning::Is(v, r1) = semantics::eval(m, r, e, a) {
            more_applied(m, r1, c, done.push(v), args, a, b);
        }
    } else if let SpecCallee::Function(h) = c {
        let env = seq![machine::arguments(h.params, done, h.params.len() as int)];
        more_body(m, semantics::with_st(r, machine::with_env(r.st, env)), h.body, 0, a, b);
    }
}

proof fn more_source(m: NumberModel, r: Run, name: Seq<char>, e: SpecExpr, f: nat, g: nat)
    requires
        f <= g,
        semantics::assigned_value(m, r, name, e, f) !is Out,
    ensures
        semantics::assigned_value(m, r, name, e, g) == semantics::assigned_value(m, r, name, e, f),
    decreases f,
{
    if let SpecControl::Eval(e1) = machine::source(m, r.st, name, e) {
        more_eval(m, r, e1, (f - 1) as nat, (g - 1) as nat);
    }
}

pub(crate) proof fn more_exec(m: NumberModel, r: Run, s: SpecStmt, f: nat, g: nat)
    requires
        f <= g,
        semantics::exec(m, r, s, f) !is Out,
    ensures
        semantics::exec(m, r, s, g) == semantics::exec(m, r, s, f),
    decreases f,
{
    let (a, b) = ((f - 1) as nat, (g - 1) as nat);
    match s {
        SpecStmt::Assign { name, value, .. } => more_source(m, r, name, value, a, b),
        SpecStmt::While { condition, body } => {
            if r.st.in_unsafe {
                more_looped(m, r, condition, body, a, b);
            }
        },
        SpecStmt::Print(es) => more_printed(m, r, Seq::empty(), es, 0, a, b),
        SpecStmt::FnDef { .. } => {},
        SpecStmt::Return(e) => more_eval(m, r, e, a, b),
    }
}

pub(crate) proof fn more_looped(m: NumberModel, r: Run, c: SpecExpr, body: Seq<SpecStmt>, f: nat, g: nat)
    requires
        f <= g,
        semantics::looped(m, r, c, body, f) !is Out,
    ensures
        semantics::looped(m, r, c, body, g) == semantics::looped(m, r, c, body, f),
    decreases f,
{
    let (a, b) = ((f - 1) as nat, (g - 1) as nat);
    more_eval(m, r, c, a, b);
    if let Meaning::Is(v, r1) = semantics::eval(m, r, c, a) {
        if machine::condition(m, "while"@, v) == Ok::<bool, Seq<char>>(true) {
            let inside = semantics::with_st(r1, machine::enter(r1.st));
            more_body(m, inside, body, 0, a, b);
            if let Meaning::Is(SpecFlow::Normal, r2) = semantics::body_run(
                m,
                inside,
                body,
                0,
                a,
            ) {
                more_looped(
                    m,
                    semantics::with_st(r2, machine::leave(r2.st)),
                    c,
                    body,
                    a,
                    b,
                );
            }
        }
    }
}

pub(crate) proof fn more_printed(
    m: NumberModel,
    r: Run,
    out: Seq<char>,
    es: Seq<SpecExpr>,
    i: int,
    f: nat,
    g: nat,
)
    requires
        f <= g,
        semantics::printed(m, r, out, es, i, f) !is Out,
    ensures
        semantics::printed(m, r, out, es, i, g) == semantics::printed(m, r, out, es, i, f),
    decreases f,
{
    let (a, b) = ((f - 1) as nat, (g - 1) as nat);
    if 0 <= i < es.len() {
        more_eval(m, r, es[i], a, b);
        if let Meaning::Is(v, r1) = semantics::eval(m, r, es[i], a) {
            more_printed(m, r1, out + value::value_text(m, v), es, i + 1, a, b);
        }
    }
}

pub(crate) proof fn more_body(m: NumberModel, r: Run, ss: Seq<SpecStmt>, i: int, f: nat, g: nat)
    requires
        f <= g,
        semantics::body_run(m, r, ss, i, f) !is Out,
    ensures
        semantics::body_run(m, r, ss, i, g) == semantics::body_run(m, r, ss, i, f),
    decreases f,
{
    let (a, b) = ((f - 1) as nat, (g - 1) as nat);
    if 0 <= i < ss.len() {
        more_exec(m, r, ss[i], a, b);
        if let Meaning::Is(SpecFlow::Normal, r1) = semantics::exec(m, r, ss[i], a) {
            more_body(m, r1, ss, i + 1, a, b);
        }
    }
}

/// More fuel changes nothing about what a program comes to.
pub proof fn law_fuel_does_not_matter(
    m: NumberModel,
    r: Run,
    prog: Seq<SpecStmt>,
    i: int,
    f: nat,
    g: nat,
)
    requires
        f <= g,
        semantics::program_run(m, r, prog, i, f) !is Out,
    ensures
        semantics::program_run(m, r, prog, i, g) == semantics::program_run(m, r, prog, i, f),
    decreases f,
{
    let (a, b) = ((f - 1) as nat, (g - 1) as nat);
    if 0 <= i < prog.len() {
        more_exec(m, r, prog[i], a, b);
        if let Meaning::Is(SpecFlow::Normal, r1) = semantics::exec(m, r, prog[i], a) {
            law_fuel_does_not_matter(m, r1, prog, i + 1, a, b);
        }
    }
}

// ---- stopping ---------------------------------------------------------

/// The machine has stopped after `n` steps.
pub open spec fn stops(m: NumberModel, c: Config, n: nat) -> bool {
    semantics::ticks(m, c, n).x.control is Stop
}

proof fn lemma_stopped(m: NumberModel, c: Config, n: nat)
    requires
        c.x.control is Stop,
    ensures
        semantics::ticks(m, c, n) == c,
    decreases n,
{
    if n > 0 {
        assert(semantics::tick(m, c) == c);
        lemma_stopped(m, c, (n - 1) as nat);
    }
}

/// Where the machine passes a place at which it has not stopped, it stops from
/// there.
proof fn passes(m: NumberModel, c: Config, a: nat, n: nat) -> (left: nat)
    requires
        stops(m, c, n),
        !(semantics::ticks(m, c, a).x.control is Stop),
    ensures
        stops(m, semantics::ticks(m, c, a), left),
        a < n,
        left == n - a,
{
    if a >= n {
        semantics::lemma_ticks_add(m, c, n, (a - n) as nat);
        lemma_stopped(m, semantics::ticks(m, c, n), (a - n) as nat);
        assert(n + (a - n) as nat == a);
        0
    } else {
        let left = (n - a) as nat;
        semantics::lemma_ticks_add(m, c, a, left);
        assert(a + left == n);
        left
    }
}

/// A step from a place at which the machine has not stopped.
proof fn steps_on(m: NumberModel, c: Config, n: nat) -> (left: nat)
    requires
        stops(m, c, n),
        !(c.x.control is Stop),
    ensures
        stops(m, semantics::tick(m, c), left),
        left + 1 == n,
{
    (n - 1) as nat
}

proof fn lemma_starved(m: NumberModel, c: Config, n: nat)
    requires
        c.x.control is Wait,
        c.replies.len() == 0,
    ensures
        semantics::ticks(m, c, n) == c,
    decreases n,
{
    if n > 0 {
        assert(semantics::tick(m, c) == c);
        lemma_starved(m, c, (n - 1) as nat);
    }
}

spec fn larger(a: nat, b: nat) -> nat {
    if a < b {
        b
    } else {
        a
    }
}

proof fn ends_fetched(m: NumberModel, r: Run, p: SpecPending, k: Seq<SpecFrame>, n: nat) -> (fuel:
    nat)
    requires
        p !is Print,
        stops(m, semantics::config(r, machine::at(r.st, SpecControl::Wait(p), k)), n),
    ensures
        semantics::fetched(r, p, fuel) !is Out,
    decreases n,
{
    let c = semantics::config(r, machine::at(r.st, SpecControl::Wait(p), k));
    if r.replies.len() == 0 {
        lemma_starved(m, c, n);
        0
    } else {
        let (st, control) = machine::reply_step(r.st, p, r.replies[0]);
        let after = semantics::with_st(semantics::after_asking(r, p), st);
        let left = steps_on(m, c, n);
        assert(semantics::tick(m, c) == semantics::config(after, machine::at(st, control, k)));
        if let SpecControl::Wait(q) = control {
            let f = ends_fetched(m, after, q, k, left);
            f + 1
        } else {
            assert(semantics::fetched(r, p, 1) !is Out);
            1
        }
    }
}

/// Where the machine stops after an expression, the expression gives
/// something.
proof fn ends_eval(m: NumberModel, r: Run, e: SpecExpr, k: Seq<SpecFrame>, n: nat) -> (fuel: nat)
    requires
        stops(m, semantics::config(r, machine::at(r.st, SpecControl::Eval(e), k)), n),
    ensures
        semantics::eval(m, r, e, fuel) !is Out,
    decreases n, 1nat,
{
    let c = semantics::config(r, machine::at(r.st, SpecControl::Eval(e), k));
    let left = steps_on(m, c, n);
    assert(semantics::tick(m, c) == semantics::config(r, machine::eval_step(m, r.st, e, k)));
    match e {
        SpecExpr::Field { base, name } => {
            let f = ends_eval(m, r, *base, k.push(SpecFrame::FieldOf(name)), left);
            f + 1
        },
        SpecExpr::Subset { base, name } => match dag::ticker_of(e) {
            Some(t) => {
                let f = ends_fetched(m, r, SpecPending::Directory(t), k, left);
                f + 1
            },
            None => {
                let f = ends_eval(m, r, *base, k.push(SpecFrame::FieldOf(name)), left);
                f + 1
            },
        },
        SpecExpr::Binary { op, lhs, rhs } => {
            let frame = SpecFrame::LeftOf(op, *rhs);
            let f = ends_eval(m, r, *lhs, k.push(frame), left);
            if let Meaning::Is(x, r1) = semantics::eval(m, r, *lhs, f) {
                let a = semantics::sim_eval(m, r, *lhs, f, k.push(frame));
                let rest = passes(m, semantics::tick(m, c), a, left);
                semantics::sim_give(m, r1, x, frame, k);
                if let Ok(l) = value::number_of(m, x) {
                    let d = semantics::config(
                        r1,
                        machine::at(r1.st, SpecControl::Give(x), k.push(frame)),
                    );
                    let rest2 = steps_on(m, d, rest);
                    let g = ends_eval(m, r1, *rhs, k.push(SpecFrame::RightOf(op, l)), rest2);
                    let top = larger(f, g);
                    more_eval(m, r, *lhs, f, top);
                    more_eval(m, r1, *rhs, g, top);
                    top + 1
                } else {
                    f + 1
                }
            } else {
                f + 1
            }
        },
        SpecExpr::If { condition, then_branch, else_branch } => {
            let frame = SpecFrame::Choice(*then_branch, *else_branch);
            let f = ends_eval(m, r, *condition, k.push(frame), left);
            if let Meaning::Is(v, r1) = semantics::eval(m, r, *condition, f) {
                let a = semantics::sim_eval(m, r, *condition, f, k.push(frame));
                let rest = passes(m, semantics::tick(m, c), a, left);
                semantics::sim_give(m, r1, v, frame, k);
                if let Ok(yes) = machine::condition(m, "if"@, v) {
                    let d = semantics::config(
                        r1,
                        machine::at(r1.st, SpecControl::Give(v), k.push(frame)),
                    );
                    let rest2 = steps_on(m, d, rest);
                    let branch = if yes {
                        *then_branch
                    } else {
                        *else_branch
                    };
                    let g = ends_eval(m, r1, branch, k, rest2);
                    let top = larger(f, g);
                    more_eval(m, r, *condition, f, top);
                    more_eval(m, r1, branch, g, top);
                    top + 1
                } else {
                    f + 1
                }
            } else {
                f + 1
            }
        },
        SpecExpr::Call { name, args } => match machine::callee(r.st, name, args.len()) {
            Ok(callee) => {
                let f = ends_applied(m, r, callee, Seq::empty(), args, k, left);
                f + 1
            },
            Err(_) => 1,
        },
        SpecExpr::Unsafe { body } => {
            let frame = SpecFrame::UnsafeEnd(r.st.env, r.st.in_unsafe);
            let inside = semantics::with_st(
                r,
                machine::enter(SpecState { in_unsafe: true, ..r.st }),
            );
            let f = ends_body(m, inside, body, 0, k.push(frame), left);
            f + 1
        },
        _ => 1,
    }
}

proof fn ends_applied(
    m: NumberModel,
    r: Run,
    callee: SpecCallee,
    done: Seq<SpecValue>,
    args: Seq<SpecExpr>,
    k: Seq<SpecFrame>,
    n: nat,
) -> (fuel: nat)
    requires
        stops(m, semantics::config(r, machine::run_args(m, r.st, callee, done, args, k)), n),
    ensures
        semantics::applied(m, r, callee, done, args, fuel) !is Out,
    decreases n, 2nat,
{
    let c = semantics::config(r, machine::run_args(m, r.st, callee, done, args, k));
    if done.len() < args.len() {
        let e = args[done.len() as int];
        let frame = SpecFrame::Args(callee, done, args);
        let f = ends_eval(m, r, e, k.push(frame), n);
        if let Meaning::Is(v, r1) = semantics::eval(m, r, e, f) {
            let a = semantics::sim_eval(m, r, e, f, k.push(frame));
            let rest = passes(m, c, a, n);
            semantics::sim_give(m, r1, v, frame, k);
            let d = semantics::config(
                r1,
                machine::at(r1.st, SpecControl::Give(v), k.push(frame)),
            );
            let rest2 = steps_on(m, d, rest);
            let g = ends_applied(m, r1, callee, done.push(v), args, k, rest2);
            let top = larger(f, g);
            more_eval(m, r, e, f, top);
            more_applied(m, r1, callee, done.push(v), args, g, top);
            top + 1
        } else {
            f + 1
        }
    } else {
        match callee {
            SpecCallee::Native(_) => 1,
            SpecCallee::Function(h) => {
                let frame = SpecFrame::FunctionEnd(r.st.env);
                let env = seq![machine::arguments(h.params, done, h.params.len() as int)];
                let inside = semantics::with_st(r, machine::with_env(r.st, env));
                let f = ends_body(m, inside, h.body, 0, k.push(frame), n);
                f + 1
            },
        }
    }
}

proof fn ends_body(
    m: NumberModel,
    r: Run,
    ss: Seq<SpecStmt>,
    i: int,
    k: Seq<SpecFrame>,
    n: nat,
) -> (fuel: nat)
    requires
        stops(m, semantics::config(r, machine::run_body(r.st, ss, i, k)), n),
    ensures
        semantics::body_run(m, r, ss, i, fuel) !is Out,
    decreases n, 1nat,
{
    let c = semantics::config(r, machine::run_body(r.st, ss, i, k));
    if 0 <= i < ss.len() {
        let frame = SpecFrame::Body(ss, i + 1);
        let f = ends_exec(m, r, ss[i], k.push(frame), n);
        if let Meaning::Is(flow, r1) = semantics::exec(m, r, ss[i], f) {
            if flow is Normal {
                let a = semantics::sim_exec(m, r, ss[i], f, k.push(frame));
                let rest = passes(m, c, a, n);
                semantics::sim_done(m, r1, flow, frame, k);
                let d = semantics::config(
                    r1,
                    machine::at(r1.st, SpecControl::Done(flow), k.push(frame)),
                );
                let rest2 = steps_on(m, d, rest);
                let g = ends_body(m, r1, ss, i + 1, k, rest2);
                let top = larger(f, g);
                more_exec(m, r, ss[i], f, top);
                more_body(m, r1, ss, i + 1, g, top);
                top + 1
            } else {
                f + 1
            }
        } else {
            f + 1
        }
    } else {
        1
    }
}

proof fn ends_looped(
    m: NumberModel,
    r: Run,
    e: SpecExpr,
    body: Seq<SpecStmt>,
    k: Seq<SpecFrame>,
    n: nat,
) -> (fuel: nat)
    requires
        stops(
            m,
            semantics::config(
                r,
                machine::at(r.st, SpecControl::Eval(e), k.push(SpecFrame::LoopIf(e, body))),
            ),
            n,
        ),
    ensures
        semantics::looped(m, r, e, body, fuel) !is Out,
    decreases n, 2nat,
{
    let frame = SpecFrame::LoopIf(e, body);
    let c = semantics::config(r, machine::at(r.st, SpecControl::Eval(e), k.push(frame)));
    let f = ends_eval(m, r, e, k.push(frame), n);
    if let Meaning::Is(v, r1) = semantics::eval(m, r, e, f) {
        let a = semantics::sim_eval(m, r, e, f, k.push(frame));
        let rest = passes(m, c, a, n);
        semantics::sim_give(m, r1, v, frame, k);
        if machine::condition(m, "while"@, v) == Ok::<bool, Seq<char>>(true) {
            let d = semantics::config(
                r1,
                machine::at(r1.st, SpecControl::Give(v), k.push(frame)),
            );
            let rest2 = steps_on(m, d, rest);
            let round = SpecFrame::Round(e, body);
            let inside = semantics::with_st(r1, machine::enter(r1.st));
            let d2 = semantics::config(
                inside,
                machine::run_body(inside.st, body, 0, k.push(round)),
            );
            assert(semantics::tick(m, d) == d2);
            let g = ends_body(m, inside, body, 0, k.push(round), rest2);
            let top = larger(f, g);
            more_eval(m, r, e, f, top);
            more_body(m, inside, body, 0, g, top);
            if let Meaning::Is(flow, r2) = semantics::body_run(m, inside, body, 0, g) {
                if flow is Normal {
                    let b = semantics::sim_body(m, inside, body, 0, g, k.push(round));
                    let rest3 = passes(m, d2, b, rest2);
                    semantics::sim_done(m, r2, flow, round, k);
                    let d3 = semantics::config(
                        r2,
                        machine::at(r2.st, SpecControl::Done(flow), k.push(round)),
                    );
                    let rest4 = steps_on(m, d3, rest3);
                    let r3 = semantics::with_st(r2, machine::leave(r2.st));
                    let h = ends_looped(m, r3, e, body, k, rest4);
                    let top2 = larger(top, h);
                    more_eval(m, r, e, f, top2);
                    more_body(m, inside, body, 0, g, top2);
                    more_looped(m, r3, e, body, h, top2);
                    top2 + 1
                } else {
                    top + 1
                }
            } else {
                top + 1
            }
        } else {
            f + 1
        }
    } else {
        f + 1
    }
}

proof fn ends_printed(
    m: NumberModel,
    r: Run,
    out: Seq<char>,
    es: Seq<SpecExpr>,
    i: int,
    k: Seq<SpecFrame>,
    n: nat,
) -> (fuel: nat)
    requires
        stops(m, semantics::config(r, machine::run_print(r.st, out, es, i, k)), n),
    ensures
        semantics::printed(m, r, out, es, i, fuel) !is Out,
    decreases n, 2nat,
{
    let c = semantics::config(r, machine::run_print(r.st, out, es, i, k));
    if 0 <= i < es.len() {
        let frame = SpecFrame::PrintAfter(out, es, i + 1);
        let f = ends_eval(m, r, es[i], k.push(frame), n);
        if let Meaning::Is(v, r1) = semantics::eval(m, r, es[i], f) {
            let a = semantics::sim_eval(m, r, es[i], f, k.push(frame));
            let rest = passes(m, c, a, n);
            semantics::sim_give(m, r1, v, frame, k);
            let d = semantics::config(
                r1,
                machine::at(r1.st, SpecControl::Give(v), k.push(frame)),
            );
            let rest2 = steps_on(m, d, rest);
            let longer = out + value::value_text(m, v);
            let g = ends_printed(m, r1, longer, es, i + 1, k, rest2);
            let top = larger(f, g);
            more_eval(m, r, es[i], f, top);
            more_printed(m, r1, longer, es, i + 1, g, top);
            top + 1
        } else {
            f + 1
        }
    } else {
        if r.replies.len() == 0 {
            lemma_starved(m, c, n);
        }
        1
    }
}

proof fn ends_exec(m: NumberModel, r: Run, s: SpecStmt, k: Seq<SpecFrame>, n: nat) -> (fuel: nat)
    requires
        stops(m, semantics::config(r, machine::at(r.st, SpecControl::Exec(s), k)), n),
    ensures
        semantics::exec(m, r, s, fuel) !is Out,
    decreases n, 0nat,
{
    let c = semantics::config(r, machine::at(r.st, SpecControl::Exec(s), k));
    let left = steps_on(m, c, n);
    assert(semantics::tick(m, c) == semantics::config(r, machine::exec_step(m, r.st, s, k)));
    match s {
        SpecStmt::Assign { name, value, mutable } => {
            let frame = SpecFrame::AssignTo(name, mutable);
            match machine::source(m, r.st, name, value) {
                SpecControl::Eval(e) => {
                    let f = ends_eval(m, r, e, k.push(frame), left);
                    assert(semantics::assigned_value(m, r, name, value, f + 1) !is Out);
                    f + 2
                },
                _ => {
                    assert(semantics::assigned_value(m, r, name, value, 1) !is Out);
                    2
                },
            }
        },
        SpecStmt::While { condition, body } => if r.st.in_unsafe {
            let f = ends_looped(m, r, condition, body, k, left);
            f + 1
        } else {
            1
        },
        SpecStmt::Print(es) => {
            let f = ends_printed(m, r, Seq::empty(), es, 0, k, left);
            f + 1
        },
        SpecStmt::FnDef { .. } => 1,
        SpecStmt::Return(e) => {
            let f = ends_eval(m, r, e, k.push(SpecFrame::ReturnIt), left);
            f + 1
        },
    }
}

proof fn ends_program(m: NumberModel, r: Run, prog: Seq<SpecStmt>, i: int, n: nat) -> (fuel: nat)
    requires
        0 <= i,
        stops(
            m,
            semantics::config(
                r,
                machine::at(
                    r.st,
                    SpecControl::Done(SpecFlow::Normal),
                    seq![SpecFrame::Top(prog, i)],
                ),
            ),
            n,
        ),
    ensures
        semantics::program_run(m, r, prog, i, fuel) !is Out,
    decreases n,
{
    let none: Seq<SpecFrame> = Seq::empty();
    let top = SpecFrame::Top(prog, i);
    assert(none.push(top) =~= seq![top]);
    let c = semantics::config(
        r,
        machine::at(r.st, SpecControl::Done(SpecFlow::Normal), none.push(top)),
    );
    semantics::sim_done(m, r, SpecFlow::Normal, top, none);
    if i < prog.len() {
        let left = steps_on(m, c, n);
        let next = SpecFrame::Top(prog, i + 1);
        assert(none.push(next) =~= seq![next]);
        let f = ends_exec(m, r, prog[i], none.push(next), left);
        if let Meaning::Is(flow, r1) = semantics::exec(m, r, prog[i], f) {
            if flow is Normal {
                let a = semantics::sim_exec(m, r, prog[i], f, none.push(next));
                let rest = passes(m, semantics::tick(m, c), a, left);
                let g = ends_program(m, r1, prog, i + 1, rest);
                let most = larger(f, g);
                more_exec(m, r, prog[i], f, most);
                law_fuel_does_not_matter(m, r1, prog, i + 1, g, most);
                most + 1
            } else {
                f + 1
            }
        } else {
            f + 1
        }
    } else {
        1
    }
}

/// Where the machine stops, the program was meant to end: with enough fuel it
/// comes to exactly what the machine stopped with.
pub proof fn law_machine_stops_where_programs_end(
    m: NumberModel,
    r: Run,
    prog: Seq<SpecStmt>,
    n: nat,
)
    requires
        stops(m, semantics::config(r, interpreter::started(r.st, prog)), n),
    ensures
        exists|fuel: nat|
            {
                &&& #[trigger] semantics::program_run(m, r, prog, 0, fuel) !is Out
                &&& semantics::ticks(
                    m,
                    semantics::config(r, interpreter::started(r.st, prog)),
                    n,
                ) == semantics::end_config(semantics::program_run(m, r, prog, 0, fuel))
            },
{
    let c = semantics::config(r, interpreter::started(r.st, prog));
    let fuel = ends_program(m, r, prog, 0, n);
    let a = semantics::sim_program(m, r, prog, 0, fuel);
    if a <= n {
        semantics::lemma_ticks_add(m, c, a, (n - a) as nat);
        assert(a + (n - a) as nat == n);
        lemma_stopped(m, semantics::ticks(m, c, a), (n - a) as nat);
    } else {
        semantics::lemma_ticks_add(m, c, n, (a - n) as nat);
        assert(n + (a - n) as nat == a);
        lemma_stopped(m, semantics::ticks(m, c, n), (a - n) as nat);
    }
    assert(semantics::program_run(m, r, prog, 0, fuel) !is Out);
}

} // verus!
