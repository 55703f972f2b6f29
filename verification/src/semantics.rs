//! What a program means, said without a machine, and that the machine runs
//! programs so.
//!
//! The meaning is a function from a program and the replies of the outside
//! world to what comes out. It is given `fuel`, a bound on how deep it goes:
//! a loop may never end.

#[allow(unused_imports)]
use crate::ast::{self, SpecExpr, SpecStmt};
#[allow(unused_imports)]
use crate::dag;
#[allow(unused_imports)]
use crate::interpreter;
#[allow(unused_imports)]
use crate::machine::{
    self, Outcome, SpecCallee, SpecControl, SpecFlow, SpecFn, SpecFrame, SpecMachine, SpecPending, SpecReply, SpecState,
};
#[allow(unused_imports)]
use crate::names;
#[allow(unused_imports)]
use crate::number::{self, NumberModel};
#[allow(unused_imports)]
use crate::purity;
#[allow(unused_imports)]
use crate::stdlib;
#[allow(unused_imports)]
use crate::value::{self, SpecResult, SpecValue};
use vstd::prelude::*;

verus! {

/// A program while it runs: its state, the replies that are still to come, and
/// what was asked for so far.
pub struct Run {
    pub st: SpecState,
    pub replies: Seq<SpecReply>,
    pub asked: Seq<SpecPending>,
}

/// What comes out: something, or an error, and the program after it. `Out`
/// where the fuel or the replies do not suffice.
pub enum Meaning<T> {
    Is(T, Run),
    Wrong(Seq<char>, Run),
    Out,
}

pub open spec fn with_st(r: Run, st: SpecState) -> Run {
    Run { st, ..r }
}

/// A result as what comes out.
pub open spec fn outcome(x: SpecResult, r: Run) -> Meaning<SpecValue> {
    match x {
        Ok(v) => Meaning::Is(v, r),
        Err(e) => Meaning::Wrong(e, r),
    }
}

/// The program after the outside world was asked for `p`.
pub open spec fn after_asking(r: Run, p: SpecPending) -> Run {
    Run { replies: r.replies.drop_first(), asked: r.asked.push(p), ..r }
}

/// Ask for the data of a ticker, until there is a value or an error.
pub open spec fn fetched(r: Run, p: SpecPending, fuel: nat) -> Meaning<SpecValue>
    decreases fuel,
{
    if fuel == 0 || r.replies.len() == 0 {
        Meaning::Out
    } else {
        let (st, control) = machine::reply_step(r.st, p, r.replies[0]);
        let after = with_st(after_asking(r, p), st);
        match control {
            SpecControl::Wait(q) => fetched(after, q, (fuel - 1) as nat),
            SpecControl::Give(v) => Meaning::Is(v, after),
            SpecControl::Fail(e) => Meaning::Wrong(e, after),
            _ => Meaning::Out,
        }
    }
}

/// What an expression gives.
pub open spec fn eval(m: NumberModel, r: Run, e: SpecExpr, fuel: nat) -> Meaning<SpecValue>
    decreases fuel,
{
    if fuel == 0 {
        Meaning::Out
    } else {
        let f = (fuel - 1) as nat;
        match e {
            SpecExpr::Int(n) => Meaning::Is(
                SpecValue::Number(number::bits_of_int(n as int)),
                r,
            ),
            SpecExpr::Float(n) => Meaning::Is(SpecValue::Number(n), r),
            SpecExpr::Str(s) => Meaning::Is(SpecValue::Str(s), r),
            SpecExpr::Var(name) => outcome(machine::variable(r.st, name), r),
            SpecExpr::Field { base, name } => match eval(m, r, *base, f) {
                Meaning::Is(v, r1) => outcome(value::subset_of(m, v, name), r1),
                other => other,
            },
            SpecExpr::Subset { base, name } => match dag::ticker_of(e) {
                Some(ticker) => fetched(r, SpecPending::Directory(ticker), f),
                None => match eval(m, r, *base, f) {
                    Meaning::Is(v, r1) => outcome(value::subset_of(m, v, name), r1),
                    other => other,
                },
            },
            SpecExpr::Binary { op, lhs, rhs } => match eval(m, r, *lhs, f) {
                Meaning::Is(x, r1) => match value::number_of(m, x) {
                    Ok(a) => match eval(m, r1, *rhs, f) {
                        Meaning::Is(y, r2) => match value::number_of(m, y) {
                            Ok(b) => outcome(machine::binary_value(m, op, a, b), r2),
                            Err(x) => Meaning::Wrong(x, r2),
                        },
                        other => other,
                    },
                    Err(x) => Meaning::Wrong(x, r1),
                },
                other => other,
            },
            SpecExpr::If { condition, then_branch, else_branch } => {
                match eval(m, r, *condition, f) {
                    Meaning::Is(v, r1) => match machine::condition(m, "if"@, v) {
                        Ok(true) => eval(m, r1, *then_branch, f),
                        Ok(false) => eval(m, r1, *else_branch, f),
                        Err(x) => Meaning::Wrong(x, r1),
                    },
                    other => other,
                }
            },
            SpecExpr::Call { name, args } => match machine::callee(r.st, name, args.len()) {
                Ok(c) => applied(m, r, c, Seq::empty(), args, f),
                Err(x) => Meaning::Wrong(x, r),
            },
            SpecExpr::Unsafe { body } => {
                let inside = with_st(
                    r,
                    machine::enter(SpecState { in_unsafe: true, ..r.st }),
                );
                match body_run(m, inside, body, 0, f) {
                    Meaning::Is(flow, r1) => {
                        let r2 = with_st(
                            r1,
                            SpecState { env: r.st.env, in_unsafe: r.st.in_unsafe, ..r1.st },
                        );
                        match flow {
                            SpecFlow::Return(v) => Meaning::Is(v, r2),
                            SpecFlow::Normal => Meaning::Wrong(
                                "[unsafe] block must end with return"@,
                                r2,
                            ),
                        }
                    },
                    Meaning::Wrong(x, r1) => Meaning::Wrong(
                        x,
                        with_st(
                            r1,
                            SpecState { env: r.st.env, in_unsafe: r.st.in_unsafe, ..r1.st },
                        ),
                    ),
                    Meaning::Out => Meaning::Out,
                }
            },
        }
    }
}

/// What a call gives, where the arguments before the next are `done`.
pub open spec fn applied(
    m: NumberModel,
    r: Run,
    c: SpecCallee,
    done: Seq<SpecValue>,
    args: Seq<SpecExpr>,
    fuel: nat,
) -> Meaning<SpecValue>
    decreases fuel,
{
    if fuel == 0 {
        Meaning::Out
    } else {
        let f = (fuel - 1) as nat;
        if done.len() < args.len() {
            match eval(m, r, args[done.len() as int], f) {
                Meaning::Is(v, r1) => applied(m, r1, c, done.push(v), args, f),
                other => other,
            }
        } else {
            match c {
                SpecCallee::Native(g) => outcome(stdlib::native_result(m, g, done), r),
                SpecCallee::Function(g) => {
                    let inside = with_st(
                        r,
                        machine::with_env(
                            r.st,
                            seq![machine::arguments(g.params, done, g.params.len() as int)],
                        ),
                    );
                    match body_run(m, inside, g.body, 0, f) {
                        Meaning::Is(flow, r1) => {
                            let r2 = with_st(r1, machine::with_env(r1.st, r.st.env));
                            match flow {
                                SpecFlow::Return(v) => Meaning::Is(v, r2),
                                SpecFlow::Normal => Meaning::Wrong(
                                    "function body did not return a value"@,
                                    r2,
                                ),
                            }
                        },
                        Meaning::Wrong(x, r1) => Meaning::Wrong(
                            x,
                            with_st(r1, machine::with_env(r1.st, r.st.env)),
                        ),
                        Meaning::Out => Meaning::Out,
                    }
                },
            }
        }
    }
}

/// How a statement ends.
pub open spec fn exec(m: NumberModel, r: Run, s: SpecStmt, fuel: nat) -> Meaning<SpecFlow>
    decreases fuel,
{
    if fuel == 0 {
        Meaning::Out
    } else {
        let f = (fuel - 1) as nat;
        match s {
            SpecStmt::Assign { name, value, mutable } => match assigned_value(m, r, name, value, f) {
                Meaning::Is(v, r1) => match machine::assigned(r1.st, name, v, mutable) {
                    Ok(after) => Meaning::Is(SpecFlow::Normal, with_st(r1, after)),
                    Err(x) => Meaning::Wrong(x, r1),
                },
                Meaning::Wrong(x, r1) => Meaning::Wrong(x, r1),
                Meaning::Out => Meaning::Out,
            },
            SpecStmt::While { condition, body } => if r.st.in_unsafe {
                looped(m, r, condition, body, f)
            } else {
                Meaning::Wrong("`while` is only allowed inside `[unsafe]` blocks"@, r)
            },
            SpecStmt::Print(es) => printed(m, r, Seq::empty(), es, 0, f),
            SpecStmt::FnDef { name, params, body } => match purity::body_impurity(body, 0) {
                Some(i) => Meaning::Wrong(purity::impurity_text(i), r),
                None => Meaning::Is(
                    SpecFlow::Normal,
                    with_st(
                        r,
                        SpecState {
                            functions: names::put(
                                r.st.functions,
                                name,
                                SpecFn { params, body },
                            ),
                            ..r.st
                        },
                    ),
                ),
            },
            SpecStmt::Return(e) => match eval(m, r, e, f) {
                Meaning::Is(v, r1) => Meaning::Is(SpecFlow::Return(v), r1),
                Meaning::Wrong(x, r1) => Meaning::Wrong(x, r1),
                Meaning::Out => Meaning::Out,
            },
        }
    }
}

/// What the right-hand side of an assignment gives.
pub open spec fn assigned_value(
    m: NumberModel,
    r: Run,
    name: Seq<char>,
    e: SpecExpr,
    fuel: nat,
) -> Meaning<SpecValue>
    decreases fuel,
{
    if fuel == 0 {
        Meaning::Out
    } else {
        match machine::source(m, r.st, name, e) {
            SpecControl::Eval(e1) => eval(m, r, e1, (fuel - 1) as nat),
            SpecControl::Give(v) => Meaning::Is(v, r),
            SpecControl::Fail(x) => Meaning::Wrong(x, r),
            _ => Meaning::Out,
        }
    }
}

/// How a loop ends.
pub open spec fn looped(m: NumberModel, r: Run, c: SpecExpr, body: Seq<SpecStmt>, fuel: nat) -> Meaning<
    SpecFlow,
>
    decreases fuel,
{
    if fuel == 0 {
        Meaning::Out
    } else {
        let f = (fuel - 1) as nat;
        match eval(m, r, c, f) {
            Meaning::Is(v, r1) => match machine::condition(m, "while"@, v) {
                Ok(true) => match body_run(m, with_st(r1, machine::enter(r1.st)), body, 0, f) {
                    Meaning::Is(flow, r2) => {
                        let r3 = with_st(r2, machine::leave(r2.st));
                        match flow {
                            SpecFlow::Normal => looped(m, r3, c, body, f),
                            SpecFlow::Return(_) => Meaning::Is(flow, r3),
                        }
                    },
                    Meaning::Wrong(x, r2) => Meaning::Wrong(
                        x,
                        with_st(r2, machine::leave(r2.st)),
                    ),
                    Meaning::Out => Meaning::Out,
                },
                Ok(false) => Meaning::Is(SpecFlow::Normal, r1),
                Err(x) => Meaning::Wrong(x, r1),
            },
            Meaning::Wrong(x, r1) => Meaning::Wrong(x, r1),
            Meaning::Out => Meaning::Out,
        }
    }
}

/// Print the expressions from the `i`th on after `out`.
pub open spec fn printed(
    m: NumberModel,
    r: Run,
    out: Seq<char>,
    es: Seq<SpecExpr>,
    i: int,
    fuel: nat,
) -> Meaning<SpecFlow>
    decreases fuel,
{
    if fuel == 0 {
        Meaning::Out
    } else if 0 <= i < es.len() {
        let f = (fuel - 1) as nat;
        match eval(m, r, es[i], f) {
            Meaning::Is(v, r1) => printed(m, r1, out + value::value_text(m, v), es, i + 1, f),
            Meaning::Wrong(x, r1) => Meaning::Wrong(x, r1),
            Meaning::Out => Meaning::Out,
        }
    } else if r.replies.len() == 0 {
        Meaning::Out
    } else {
        Meaning::Is(SpecFlow::Normal, after_asking(r, SpecPending::Print(out)))
    }
}

/// How the statements from the `i`th on end.
pub open spec fn body_run(m: NumberModel, r: Run, ss: Seq<SpecStmt>, i: int, fuel: nat) -> Meaning<
    SpecFlow,
>
    decreases fuel,
{
    if fuel == 0 {
        Meaning::Out
    } else if 0 <= i < ss.len() {
        let f = (fuel - 1) as nat;
        match exec(m, r, ss[i], f) {
            Meaning::Is(flow, r1) => match flow {
                SpecFlow::Normal => body_run(m, r1, ss, i + 1, f),
                SpecFlow::Return(_) => Meaning::Is(flow, r1),
            },
            other => other,
        }
    } else {
        Meaning::Is(SpecFlow::Normal, r)
    }
}

/// How the program from the `i`th statement on ends.
pub open spec fn program_run(m: NumberModel, r: Run, prog: Seq<SpecStmt>, i: int, fuel: nat) -> Meaning<
    (),
>
    decreases fuel,
{
    if fuel == 0 {
        Meaning::Out
    } else if 0 <= i < prog.len() {
        let f = (fuel - 1) as nat;
        match exec(m, r, prog[i], f) {
            Meaning::Is(flow, r1) => match flow {
                SpecFlow::Normal => program_run(m, r1, prog, i + 1, f),
                SpecFlow::Return(_) => Meaning::Wrong(
                    "`return` used outside of a function or [unsafe] block"@,
                    r1,
                ),
            },
            Meaning::Wrong(x, r1) => Meaning::Wrong(x, r1),
            Meaning::Out => Meaning::Out,
        }
    } else {
        Meaning::Is((), r)
    }
}

// ---- the machine ------------------------------------------------------

/// A machine with the replies that are still to come and what it asked for.
pub struct Config {
    pub x: SpecMachine,
    pub replies: Seq<SpecReply>,
    pub asked: Seq<SpecPending>,
}

pub open spec fn config(r: Run, x: SpecMachine) -> Config {
    Config { x, replies: r.replies, asked: r.asked }
}

/// The reply to nothing.
pub open spec fn no_reply() -> SpecReply {
    SpecReply { outcome: Outcome::Done, path: Seq::empty(), text: Seq::empty() }
}

/// One step of the machine. Where it waits it takes the next reply; where
/// there is none it stays.
pub open spec fn tick(m: NumberModel, c: Config) -> Config {
    match c.x.control {
        SpecControl::Wait(p) => if c.replies.len() == 0 {
            c
        } else {
            Config {
                x: machine::next(m, c.x, c.replies[0]),
                replies: c.replies.drop_first(),
                asked: c.asked.push(p),
            }
        },
        _ => Config { x: machine::next(m, c.x, no_reply()), ..c },
    }
}

/// `n` steps of the machine.
pub open spec fn ticks(m: NumberModel, c: Config, n: nat) -> Config
    decreases n,
{
    if n == 0 {
        c
    } else {
        ticks(m, tick(m, c), (n - 1) as nat)
    }
}

/// The machine where an expression has given what it gives.
pub open spec fn value_config(x: Meaning<SpecValue>, k: Seq<SpecFrame>) -> Config {
    match x {
        Meaning::Is(v, r) => config(r, machine::at(r.st, SpecControl::Give(v), k)),
        Meaning::Wrong(e, r) => config(r, machine::at(r.st, SpecControl::Fail(e), k)),
        Meaning::Out => arbitrary(),
    }
}

/// The machine where a statement has ended as it ends.
pub open spec fn flow_config(x: Meaning<SpecFlow>, k: Seq<SpecFrame>) -> Config {
    match x {
        Meaning::Is(flow, r) => config(r, machine::at(r.st, SpecControl::Done(flow), k)),
        Meaning::Wrong(e, r) => config(r, machine::at(r.st, SpecControl::Fail(e), k)),
        Meaning::Out => arbitrary(),
    }
}

pub(crate) proof fn lemma_ticks_add(m: NumberModel, c: Config, a: nat, b: nat)
    ensures
        ticks(m, c, a + b) == ticks(m, ticks(m, c, a), b),
    decreases a,
{
    if a > 0 {
        lemma_ticks_add(m, tick(m, c), (a - 1) as nat, b);
    }
}

/// One step, and then `b` more.
proof fn after_tick(m: NumberModel, c: Config, b: nat) -> (n: nat)
    ensures
        ticks(m, c, n) == ticks(m, tick(m, c), b),
{
    b + 1
}

/// `a` steps, and then one more.
proof fn then_tick(m: NumberModel, c: Config, a: nat) -> (n: nat)
    ensures
        ticks(m, c, n) == tick(m, ticks(m, c, a)),
{
    lemma_ticks_add(m, c, a, 1);
    let d = ticks(m, c, a);
    assert(ticks(m, tick(m, d), 0) == tick(m, d));
    assert(ticks(m, d, 1) == tick(m, d));
    a + 1
}

/// `a` steps, and then `b` more.
proof fn then_ticks(m: NumberModel, c: Config, a: nat, b: nat) -> (n: nat)
    ensures
        ticks(m, c, n) == ticks(m, ticks(m, c, a), b),
{
    lemma_ticks_add(m, c, a, b);
    a + b
}

pub(crate) proof fn sim_fetched(m: NumberModel, r: Run, p: SpecPending, fuel: nat, k: Seq<SpecFrame>) -> (n:
    nat)
    requires
        fetched(r, p, fuel) !is Out,
    ensures
        ticks(m, config(r, machine::at(r.st, SpecControl::Wait(p), k)), n) == value_config(
            fetched(r, p, fuel),
            k,
        ),
    decreases fuel,
{
    let c = config(r, machine::at(r.st, SpecControl::Wait(p), k));
    let (st, control) = machine::reply_step(r.st, p, r.replies[0]);
    let after = with_st(after_asking(r, p), st);
    assert(tick(m, c) == config(after, machine::at(st, control, k)));
    match control {
        SpecControl::Wait(q) => {
            let b = sim_fetched(m, after, q, (fuel - 1) as nat, k);
            after_tick(m, c, b)
        },
        _ => after_tick(m, c, 0),
    }
}

/// A value goes to the frame on top.
pub(crate) proof fn sim_give(m: NumberModel, r: Run, v: SpecValue, f: SpecFrame, k: Seq<SpecFrame>)
    ensures
        tick(m, config(r, machine::at(r.st, SpecControl::Give(v), k.push(f)))) == config(
            r,
            machine::give_step(m, r.st, v, f, k),
        ),
{
    assert(k.push(f).drop_last() =~= k);
}

/// The end of a statement goes to the frame on top.
pub(crate) proof fn sim_done(m: NumberModel, r: Run, flow: SpecFlow, f: SpecFrame, k: Seq<SpecFrame>)
    ensures
        tick(m, config(r, machine::at(r.st, SpecControl::Done(flow), k.push(f)))) == config(
            r,
            machine::done_step(r.st, flow, f, k),
        ),
{
    assert(k.push(f).drop_last() =~= k);
}

/// An error goes to the frame on top.
pub(crate) proof fn sim_fail(m: NumberModel, r: Run, e: Seq<char>, f: SpecFrame, k: Seq<SpecFrame>)
    ensures
        tick(m, config(r, machine::at(r.st, SpecControl::Fail(e), k.push(f)))) == config(
            r,
            machine::fail_step(r.st, e, f, k),
        ),
{
    assert(k.push(f).drop_last() =~= k);
}

/// An expression whose value is looked up in.
pub(crate) proof fn sim_field(m: NumberModel, r: Run, base: SpecExpr, name: Seq<char>, fuel: nat, k: Seq<
    SpecFrame,
>) -> (n: nat)
    requires
        eval(m, r, base, fuel) !is Out,
    ensures
        ticks(
            m,
            config(
                r,
                machine::at(r.st, SpecControl::Eval(base), k.push(SpecFrame::FieldOf(name))),
            ),
            n,
        ) == value_config(
            match eval(m, r, base, fuel) {
                Meaning::Is(v, r1) => outcome(value::subset_of(m, v, name), r1),
                other => other,
            },
            k,
        ),
    decreases fuel, 2nat,
{
    let f = SpecFrame::FieldOf(name);
    let c = config(r, machine::at(r.st, SpecControl::Eval(base), k.push(f)));
    let a = sim_eval(m, r, base, fuel, k.push(f));
    match eval(m, r, base, fuel) {
        Meaning::Is(v, r1) => sim_give(m, r1, v, f, k),
        Meaning::Wrong(x, r1) => sim_fail(m, r1, x, f, k),
        Meaning::Out => {},
    }
    then_tick(m, c, a)
}

pub(crate) proof fn sim_binary(
    m: NumberModel,
    r: Run,
    op: ast::BinOp,
    lhs: SpecExpr,
    rhs: SpecExpr,
    fuel: nat,
    k: Seq<SpecFrame>,
) -> (n: nat)
    requires
        fuel > 0,
        eval(
            m,
            r,
            SpecExpr::Binary { op, lhs: Box::new(lhs), rhs: Box::new(rhs) },
            fuel,
        ) !is Out,
    ensures
        ticks(
            m,
            config(
                r,
                machine::at(r.st, SpecControl::Eval(lhs), k.push(SpecFrame::LeftOf(op, rhs))),
            ),
            n,
        ) == value_config(
            eval(m, r, SpecExpr::Binary { op, lhs: Box::new(lhs), rhs: Box::new(rhs) }, fuel),
            k,
        ),
    decreases fuel, 0nat,
{
    let g = (fuel - 1) as nat;
    let f = SpecFrame::LeftOf(op, rhs);
    let c = config(r, machine::at(r.st, SpecControl::Eval(lhs), k.push(f)));
    let a = sim_eval(m, r, lhs, g, k.push(f));
    match eval(m, r, lhs, g) {
        Meaning::Is(x, r1) => {
            sim_give(m, r1, x, f, k);
            let b = then_tick(m, c, a);
            match value::number_of(m, x) {
                Ok(l) => {
                    let f2 = SpecFrame::RightOf(op, l);
                    let c2 = config(r1, machine::at(r1.st, SpecControl::Eval(rhs), k.push(f2)));
                    let d = sim_eval(m, r1, rhs, g, k.push(f2));
                    match eval(m, r1, rhs, g) {
                        Meaning::Is(y, r2) => sim_give(m, r2, y, f2, k),
                        Meaning::Wrong(x, r2) => sim_fail(m, r2, x, f2, k),
                        Meaning::Out => {},
                    }
                    let e = then_tick(m, c2, d);
                    then_ticks(m, c, b, e)
                },
                Err(_) => b,
            }
        },
        Meaning::Wrong(x, r1) => {
            sim_fail(m, r1, x, f, k);
            then_tick(m, c, a)
        },
        Meaning::Out => 0,
    }
}

pub(crate) proof fn sim_if(
    m: NumberModel,
    r: Run,
    c: SpecExpr,
    a: SpecExpr,
    b: SpecExpr,
    fuel: nat,
    k: Seq<SpecFrame>,
) -> (n: nat)
    requires
        fuel > 0,
        eval(
            m,
            r,
            SpecExpr::If {
                condition: Box::new(c),
                then_branch: Box::new(a),
                else_branch: Box::new(b),
            },
            fuel,
        ) !is Out,
    ensures
        ticks(
            m,
            config(r, machine::at(r.st, SpecControl::Eval(c), k.push(SpecFrame::Choice(a, b)))),
            n,
        ) == value_config(
            eval(
                m,
                r,
                SpecExpr::If {
                    condition: Box::new(c),
                    then_branch: Box::new(a),
                    else_branch: Box::new(b),
                },
                fuel,
            ),
            k,
        ),
    decreases fuel, 0nat,
{
    let g = (fuel - 1) as nat;
    let f = SpecFrame::Choice(a, b);
    let start = config(r, machine::at(r.st, SpecControl::Eval(c), k.push(f)));
    let t = sim_eval(m, r, c, g, k.push(f));
    match eval(m, r, c, g) {
        Meaning::Is(v, r1) => {
            sim_give(m, r1, v, f, k);
            let u = then_tick(m, start, t);
            match machine::condition(m, "if"@, v) {
                Ok(yes) => {
                    let branch = if yes {
                        a
                    } else {
                        b
                    };
                    let w = sim_eval(m, r1, branch, g, k);
                    then_ticks(m, start, u, w)
                },
                Err(_) => u,
            }
        },
        Meaning::Wrong(x, r1) => {
            sim_fail(m, r1, x, f, k);
            then_tick(m, start, t)
        },
        Meaning::Out => 0,
    }
}

/// Whatever an expression gives, the machine comes to.
pub(crate) proof fn sim_eval(m: NumberModel, r: Run, e: SpecExpr, fuel: nat, k: Seq<SpecFrame>) -> (n: nat)
    requires
        eval(m, r, e, fuel) !is Out,
    ensures
        ticks(m, config(r, machine::at(r.st, SpecControl::Eval(e), k)), n) == value_config(
            eval(m, r, e, fuel),
            k,
        ),
    decreases fuel, 1nat,
{
    let c = config(r, machine::at(r.st, SpecControl::Eval(e), k));
    let g = (fuel - 1) as nat;
    assert(tick(m, c) == config(r, machine::eval_step(m, r.st, e, k)));
    match e {
        SpecExpr::Field { base, name } => {
            let b = sim_field(m, r, *base, name, g, k);
            after_tick(m, c, b)
        },
        SpecExpr::Subset { base, name } => match dag::ticker_of(e) {
            Some(ticker) => {
                let b = sim_fetched(m, r, SpecPending::Directory(ticker), g, k);
                after_tick(m, c, b)
            },
            None => {
                let b = sim_field(m, r, *base, name, g, k);
                after_tick(m, c, b)
            },
        },
        SpecExpr::Binary { op, lhs, rhs } => {
            let b = sim_binary(m, r, op, *lhs, *rhs, fuel, k);
            after_tick(m, c, b)
        },
        SpecExpr::If { condition, then_branch, else_branch } => {
            let b = sim_if(m, r, *condition, *then_branch, *else_branch, fuel, k);
            after_tick(m, c, b)
        },
        SpecExpr::Call { name, args } => match machine::callee(r.st, name, args.len()) {
            Ok(callee) => {
                let b = sim_applied(m, r, callee, Seq::empty(), args, g, k);
                after_tick(m, c, b)
            },
            Err(_) => after_tick(m, c, 0),
        },
        SpecExpr::Unsafe { body } => {
            let f = SpecFrame::UnsafeEnd(r.st.env, r.st.in_unsafe);
            let inside = with_st(r, machine::enter(SpecState { in_unsafe: true, ..r.st }));
            let a = sim_body(m, inside, body, 0, g, k.push(f));
            match body_run(m, inside, body, 0, g) {
                Meaning::Is(flow, r1) => sim_done(m, r1, flow, f, k),
                Meaning::Wrong(x, r1) => sim_fail(m, r1, x, f, k),
                Meaning::Out => {},
            }
            let b = then_tick(m, tick(m, c), a);
            after_tick(m, c, b)
        },
        _ => after_tick(m, c, 0),
    }
}

/// Whatever a call gives, the machine comes to.
pub(crate) proof fn sim_applied(
    m: NumberModel,
    r: Run,
    callee: SpecCallee,
    done: Seq<SpecValue>,
    args: Seq<SpecExpr>,
    fuel: nat,
    k: Seq<SpecFrame>,
) -> (n: nat)
    requires
        applied(m, r, callee, done, args, fuel) !is Out,
    ensures
        ticks(m, config(r, machine::run_args(m, r.st, callee, done, args, k)), n) == value_config(
            applied(m, r, callee, done, args, fuel),
            k,
        ),
    decreases fuel, 0nat,
{
    let c = config(r, machine::run_args(m, r.st, callee, done, args, k));
    let g = (fuel - 1) as nat;
    if done.len() < args.len() {
        let e = args[done.len() as int];
        let f = SpecFrame::Args(callee, done, args);
        let a = sim_eval(m, r, e, g, k.push(f));
        match eval(m, r, e, g) {
            Meaning::Is(v, r1) => {
                sim_give(m, r1, v, f, k);
                let b = then_tick(m, c, a);
                let d = sim_applied(m, r1, callee, done.push(v), args, g, k);
                then_ticks(m, c, b, d)
            },
            Meaning::Wrong(x, r1) => {
                sim_fail(m, r1, x, f, k);
                then_tick(m, c, a)
            },
            Meaning::Out => 0,
        }
    } else {
        match callee {
            SpecCallee::Native(_) => 0,
            SpecCallee::Function(h) => {
                let f = SpecFrame::FunctionEnd(r.st.env);
                let env = seq![machine::arguments(h.params, done, h.params.len() as int)];
                let inside = with_st(r, machine::with_env(r.st, env));
                let a = sim_body(m, inside, h.body, 0, g, k.push(f));
                match body_run(m, inside, h.body, 0, g) {
                    Meaning::Is(flow, r1) => sim_done(m, r1, flow, f, k),
                    Meaning::Wrong(x, r1) => sim_fail(m, r1, x, f, k),
                    Meaning::Out => {},
                }
                then_tick(m, c, a)
            },
        }
    }
}

/// However statements end, the machine comes to it.
pub(crate) proof fn sim_body(
    m: NumberModel,
    r: Run,
    ss: Seq<SpecStmt>,
    i: int,
    fuel: nat,
    k: Seq<SpecFrame>,
) -> (n: nat)
    requires
        body_run(m, r, ss, i, fuel) !is Out,
    ensures
        ticks(m, config(r, machine::run_body(r.st, ss, i, k)), n) == flow_config(
            body_run(m, r, ss, i, fuel),
            k,
        ),
    decreases fuel, 0nat,
{
    let c = config(r, machine::run_body(r.st, ss, i, k));
    let g = (fuel - 1) as nat;
    if 0 <= i < ss.len() {
        let f = SpecFrame::Body(ss, i + 1);
        let a = sim_exec(m, r, ss[i], g, k.push(f));
        match exec(m, r, ss[i], g) {
            Meaning::Is(flow, r1) => {
                sim_done(m, r1, flow, f, k);
                let b = then_tick(m, c, a);
                match flow {
                    SpecFlow::Normal => {
                        let d = sim_body(m, r1, ss, i + 1, g, k);
                        then_ticks(m, c, b, d)
                    },
                    SpecFlow::Return(_) => b,
                }
            },
            Meaning::Wrong(x, r1) => {
                sim_fail(m, r1, x, f, k);
                then_tick(m, c, a)
            },
            Meaning::Out => 0,
        }
    } else {
        0
    }
}

/// However a loop ends, the machine comes to it.
pub(crate) proof fn sim_looped(
    m: NumberModel,
    r: Run,
    e: SpecExpr,
    body: Seq<SpecStmt>,
    fuel: nat,
    k: Seq<SpecFrame>,
) -> (n: nat)
    requires
        looped(m, r, e, body, fuel) !is Out,
    ensures
        ticks(
            m,
            config(
                r,
                machine::at(r.st, SpecControl::Eval(e), k.push(SpecFrame::LoopIf(e, body))),
            ),
            n,
        ) == flow_config(looped(m, r, e, body, fuel), k),
    decreases fuel, 0nat,
{
    let g = (fuel - 1) as nat;
    let f = SpecFrame::LoopIf(e, body);
    let c = config(r, machine::at(r.st, SpecControl::Eval(e), k.push(f)));
    let a = sim_eval(m, r, e, g, k.push(f));
    match eval(m, r, e, g) {
        Meaning::Is(v, r1) => {
            sim_give(m, r1, v, f, k);
            let b = then_tick(m, c, a);
            match machine::condition(m, "while"@, v) {
                Ok(true) => {
                    let f2 = SpecFrame::Round(e, body);
                    let inside = with_st(r1, machine::enter(r1.st));
                    let c2 = config(inside, machine::run_body(inside.st, body, 0, k.push(f2)));
                    assert(ticks(m, c, b) == c2);
                    let d = sim_body(m, inside, body, 0, g, k.push(f2));
                    match body_run(m, inside, body, 0, g) {
                        Meaning::Is(flow, r2) => {
                            sim_done(m, r2, flow, f2, k);
                            let h = then_tick(m, c2, d);
                            let t = then_ticks(m, c, b, h);
                            match flow {
                                SpecFlow::Normal => {
                                    let r3 = with_st(r2, machine::leave(r2.st));
                                    let u = sim_looped(m, r3, e, body, g, k);
                                    then_ticks(m, c, t, u)
                                },
                                SpecFlow::Return(_) => t,
                            }
                        },
                        Meaning::Wrong(x, r2) => {
                            sim_fail(m, r2, x, f2, k);
                            let h = then_tick(m, c2, d);
                            then_ticks(m, c, b, h)
                        },
                        Meaning::Out => 0,
                    }
                },
                _ => b,
            }
        },
        Meaning::Wrong(x, r1) => {
            sim_fail(m, r1, x, f, k);
            then_tick(m, c, a)
        },
        Meaning::Out => 0,
    }
}

/// Whatever is printed, the machine asks for.
pub(crate) proof fn sim_printed(
    m: NumberModel,
    r: Run,
    out: Seq<char>,
    es: Seq<SpecExpr>,
    i: int,
    fuel: nat,
    k: Seq<SpecFrame>,
) -> (n: nat)
    requires
        printed(m, r, out, es, i, fuel) !is Out,
    ensures
        ticks(m, config(r, machine::run_print(r.st, out, es, i, k)), n) == flow_config(
            printed(m, r, out, es, i, fuel),
            k,
        ),
    decreases fuel, 0nat,
{
    let c = config(r, machine::run_print(r.st, out, es, i, k));
    let g = (fuel - 1) as nat;
    if 0 <= i < es.len() {
        let f = SpecFrame::PrintAfter(out, es, i + 1);
        let a = sim_eval(m, r, es[i], g, k.push(f));
        match eval(m, r, es[i], g) {
            Meaning::Is(v, r1) => {
                sim_give(m, r1, v, f, k);
                let b = then_tick(m, c, a);
                let d = sim_printed(m, r1, out + value::value_text(m, v), es, i + 1, g, k);
                then_ticks(m, c, b, d)
            },
            Meaning::Wrong(x, r1) => {
                sim_fail(m, r1, x, f, k);
                then_tick(m, c, a)
            },
            Meaning::Out => 0,
        }
    } else {
        after_tick(m, c, 0)
    }
}

/// However a statement ends, the machine comes to it.
pub(crate) proof fn sim_exec(m: NumberModel, r: Run, s: SpecStmt, fuel: nat, k: Seq<SpecFrame>) -> (n: nat)
    requires
        exec(m, r, s, fuel) !is Out,
    ensures
        ticks(m, config(r, machine::at(r.st, SpecControl::Exec(s), k)), n) == flow_config(
            exec(m, r, s, fuel),
            k,
        ),
    decreases fuel, 0nat,
{
    let c = config(r, machine::at(r.st, SpecControl::Exec(s), k));
    let g = (fuel - 1) as nat;
    assert(tick(m, c) == config(r, machine::exec_step(m, r.st, s, k)));
    match s {
        SpecStmt::Assign { name, value, mutable } => {
            let f = SpecFrame::AssignTo(name, mutable);
            let control = machine::source(m, r.st, name, value);
            let c1 = config(r, machine::at(r.st, control, k.push(f)));
            let a = match control {
                SpecControl::Eval(e) => sim_eval(m, r, e, (g - 1) as nat, k.push(f)),
                _ => 0,
            };
            match assigned_value(m, r, name, value, g) {
                Meaning::Is(v, r1) => sim_give(m, r1, v, f, k),
                Meaning::Wrong(x, r1) => sim_fail(m, r1, x, f, k),
                Meaning::Out => {},
            }
            let b = then_tick(m, c1, a);
            after_tick(m, c, b)
        },
        SpecStmt::While { condition, body } => if r.st.in_unsafe {
            let b = sim_looped(m, r, condition, body, g, k);
            after_tick(m, c, b)
        } else {
            after_tick(m, c, 0)
        },
        SpecStmt::Print(es) => {
            let b = sim_printed(m, r, Seq::empty(), es, 0, g, k);
            after_tick(m, c, b)
        },
        SpecStmt::FnDef { .. } => after_tick(m, c, 0),
        SpecStmt::Return(e) => {
            let f = SpecFrame::ReturnIt;
            let c1 = config(r, machine::at(r.st, SpecControl::Eval(e), k.push(f)));
            let a = sim_eval(m, r, e, g, k.push(f));
            match eval(m, r, e, g) {
                Meaning::Is(v, r1) => sim_give(m, r1, v, f, k),
                Meaning::Wrong(x, r1) => sim_fail(m, r1, x, f, k),
                Meaning::Out => {},
            }
            let b = then_tick(m, c1, a);
            after_tick(m, c, b)
        },
    }
}

/// The machine where a program has ended as it ends.
pub open spec fn end_config(x: Meaning<()>) -> Config {
    match x {
        Meaning::Is(_, r) => config(
            r,
            machine::at(r.st, SpecControl::Stop(Ok(())), Seq::empty()),
        ),
        Meaning::Wrong(e, r) => config(
            r,
            machine::at(r.st, SpecControl::Stop(Err(e)), Seq::empty()),
        ),
        Meaning::Out => arbitrary(),
    }
}

pub(crate) proof fn sim_program(m: NumberModel, r: Run, prog: Seq<SpecStmt>, i: int, fuel: nat) -> (n: nat)
    requires
        0 <= i,
        program_run(m, r, prog, i, fuel) !is Out,
    ensures
        ticks(
            m,
            config(
                r,
                machine::at(
                    r.st,
                    SpecControl::Done(SpecFlow::Normal),
                    seq![SpecFrame::Top(prog, i)],
                ),
            ),
            n,
        ) == end_config(program_run(m, r, prog, i, fuel)),
    decreases fuel,
{
    let none: Seq<SpecFrame> = Seq::empty();
    let top = SpecFrame::Top(prog, i);
    assert(none.push(top) =~= seq![top]);
    let c = config(r, machine::at(r.st, SpecControl::Done(SpecFlow::Normal), none.push(top)));
    sim_done(m, r, SpecFlow::Normal, top, none);
    if i < prog.len() {
        let g = (fuel - 1) as nat;
        let f = SpecFrame::Top(prog, i + 1);
        assert(none.push(f) =~= seq![f]);
        let c1 = config(r, machine::at(r.st, SpecControl::Exec(prog[i]), none.push(f)));
        let a = sim_exec(m, r, prog[i], g, none.push(f));
        let b = after_tick(m, c, a);
        match exec(m, r, prog[i], g) {
            Meaning::Is(flow, r1) => match flow {
                SpecFlow::Normal => {
                    let d = sim_program(m, r1, prog, i + 1, g);
                    then_ticks(m, c, b, d)
                },
                SpecFlow::Return(_) => {
                    sim_done(m, r1, flow, f, none);
                    then_tick(m, c, b)
                },
            },
            Meaning::Wrong(x, r1) => {
                sim_fail(m, r1, x, f, none);
                then_tick(m, c, b)
            },
            Meaning::Out => 0,
        }
    } else {
        after_tick(m, c, 0)
    }
}

/// The machine runs a program as it is meant: whatever the program comes to,
/// the machine stops there after finitely many steps, having asked for the
/// same and taken the same replies.
pub proof fn law_machine_runs_programs(m: NumberModel, r: Run, prog: Seq<SpecStmt>, fuel: nat)
    requires
        program_run(m, r, prog, 0, fuel) !is Out,
    ensures
        exists|n: nat| #[trigger]
            ticks(m, config(r, interpreter::started(r.st, prog)), n) == end_config(
                program_run(m, r, prog, 0, fuel),
            ),
{
    let n = sim_program(m, r, prog, 0, fuel);
    assert(ticks(m, config(r, interpreter::started(r.st, prog)), n) == end_config(
        program_run(m, r, prog, 0, fuel),
    ));
}

} // verus!
