//! How a program runs, one step at a time.
//!
//! A machine holds the state of the program, what it is about to do, and what
//! is to be done after that: a stack of frames. A step takes the machine to the
//! next one. Where the machine needs the outside world (to print, or to fetch
//! a ticker) it waits, and the step takes the reply.

#[allow(unused_imports)]
use crate::ast::{BinOp, SpecExpr, SpecStmt};
#[allow(unused_imports)]
use crate::dag;
#[allow(unused_imports)]
use crate::json;
#[allow(unused_imports)]
use crate::names;
#[allow(unused_imports)]
use crate::number::{self, Bits, NumberModel};
#[allow(unused_imports)]
use crate::purity;
#[allow(unused_imports)]
use crate::stdlib::{self, Native};
#[allow(unused_imports)]
use crate::text;
#[allow(unused_imports)]
use crate::value::{self, SpecBinding, SpecResult, SpecValue};
use vstd::prelude::*;

verus! {

/// A function of the program.
pub struct SpecFn {
    pub params: Seq<Seq<char>>,
    pub body: Seq<SpecStmt>,
}

/// The scopes of names, the innermost last.
pub type SpecEnv = Seq<Seq<(Seq<char>, SpecBinding)>>;

/// The state of a program.
pub struct SpecState {
    pub env: SpecEnv,
    pub functions: Seq<(Seq<char>, SpecFn)>,
    pub natives: Seq<(Seq<char>, Native)>,
    /// Whether an `[unsafe]` block is running.
    pub in_unsafe: bool,
    /// The raw `--name=value` overrides.
    pub params: Seq<(Seq<char>, Seq<char>)>,
    /// The tickers whose data was fetched before the run.
    pub prefetched: Seq<Seq<char>>,
    pub data_dir: Seq<char>,
    pub generator_script: Seq<char>,
    pub python_bin: Seq<char>,
}

/// What a call calls.
pub enum SpecCallee {
    Native(Native),
    Function(SpecFn),
}

/// How a statement ended.
pub enum SpecFlow {
    Normal,
    Return(SpecValue),
}

/// What is to be done with what comes from above on the stack.
pub enum SpecFrame {
    /// Look up a name in the value.
    FieldOf(Seq<char>),
    /// The value is the left operand; the right one is to come.
    LeftOf(BinOp, SpecExpr),
    /// The value is the right operand.
    RightOf(BinOp, Bits),
    /// The value chooses one of two expressions.
    Choice(SpecExpr, SpecExpr),
    /// The value is the next argument.
    Args(SpecCallee, Seq<SpecValue>, Seq<SpecExpr>),
    /// Assign the value.
    AssignTo(Seq<char>, bool),
    /// Print the value after what there is, and the expressions after it.
    PrintAfter(Seq<char>, Seq<SpecExpr>, int),
    /// Return the value.
    ReturnIt,
    /// The value says whether to loop.
    LoopIf(SpecExpr, Seq<SpecStmt>),
    /// A round of the loop has ended.
    Round(SpecExpr, Seq<SpecStmt>),
    /// Go on with the statements from the given one on.
    Body(Seq<SpecStmt>, int),
    /// A function has ended; these are the scopes of its caller.
    FunctionEnd(SpecEnv),
    /// An `[unsafe]` block has ended; this is what was before it.
    UnsafeEnd(SpecEnv, bool),
    /// Go on with the program from the given statement on.
    Top(Seq<SpecStmt>, int),
}

/// What the outside world is asked for.
pub enum SpecPending {
    Print(Seq<char>),
    /// That there be a data directory.
    Directory(Seq<char>),
    /// Whether there is a data file for the ticker.
    File(Seq<char>),
    /// To run the generator script for the ticker.
    Script(Seq<char>),
    /// The data file of the ticker.
    Document(Seq<char>),
}

/// What the machine is about to do.
pub enum SpecControl {
    Eval(SpecExpr),
    Give(SpecValue),
    Exec(SpecStmt),
    Done(SpecFlow),
    Fail(Seq<char>),
    Wait(SpecPending),
    Stop(Result<(), Seq<char>>),
}

pub struct SpecMachine {
    pub st: SpecState,
    pub control: SpecControl,
    pub frames: Seq<SpecFrame>,
}

/// Whether what the outside world was asked for came about.
#[derive(Debug, Clone, Copy, PartialEq, Eq, Structural)]
pub enum Outcome {
    /// It did. For a file: it is there.
    Done,
    /// It was tried and did not. For a file: it is not there.
    Refused,
    /// It could not be tried.
    Failed,
}

/// The reply of the outside world. `path` is the file that was read, `text`
/// what it holds, or what went wrong.
pub struct SpecReply {
    pub outcome: Outcome,
    pub path: Seq<char>,
    pub text: Seq<char>,
}

pub open spec fn at(st: SpecState, control: SpecControl, frames: Seq<SpecFrame>) -> SpecMachine {
    SpecMachine { st, control, frames }
}

pub open spec fn with_env(st: SpecState, env: SpecEnv) -> SpecState {
    SpecState { env, ..st }
}

/// `name` is declared in the innermost scope.
pub open spec fn declare(st: SpecState, name: Seq<char>, b: SpecBinding) -> SpecState {
    with_env(st, names::put_in(st.env, st.env.len() - 1, name, b))
}

/// A scope is opened.
pub open spec fn enter(st: SpecState) -> SpecState {
    with_env(st, st.env.push(Seq::empty()))
}

/// The innermost scope is closed.
pub open spec fn leave(st: SpecState) -> SpecState {
    with_env(st, st.env.drop_last())
}

/// A result as what the machine goes on with.
pub open spec fn give(r: SpecResult) -> SpecControl {
    match r {
        Ok(v) => SpecControl::Give(v),
        Err(e) => SpecControl::Fail(e),
    }
}

// ---- expressions ------------------------------------------------------

/// The value of a name.
pub open spec fn variable(st: SpecState, name: Seq<char>) -> SpecResult {
    match names::lookup_in(st.env, name) {
        Some(b) => Ok(b.value),
        None => Err("undefined variable `"@ + name + "`"@),
    }
}

/// What a name calls, for `n` arguments. A prewritten function comes before
/// one of the program, and takes any number of arguments.
pub open spec fn callee(st: SpecState, name: Seq<char>, n: nat) -> Result<SpecCallee, Seq<char>> {
    match names::lookup(st.natives, name) {
        Some(f) => Ok(SpecCallee::Native(f)),
        None => match names::lookup(st.functions, name) {
            Some(f) => if n == f.params.len() {
                Ok(SpecCallee::Function(f))
            } else {
                Err(
                    "function `"@ + name + "` expects "@ + text::decimal(f.params.len())
                        + " argument(s), got "@ + text::decimal(n),
                )
            },
            None => Err("undefined function `"@ + name + "`"@),
        },
    }
}

/// The scope in which a function starts: its first `n` parameters.
pub open spec fn arguments(params: Seq<Seq<char>>, values: Seq<SpecValue>, n: int) -> Seq<
    (Seq<char>, SpecBinding),
>
    decreases n,
{
    if n <= 0 {
        Seq::empty()
    } else {
        names::put(
            arguments(params, values, n - 1),
            params[n - 1],
            SpecBinding { value: values[n - 1], mutable: false },
        )
    }
}

/// Run the statements from the `i`th on.
pub open spec fn run_body(
    st: SpecState,
    body: Seq<SpecStmt>,
    i: int,
    frames: Seq<SpecFrame>,
) -> SpecMachine {
    if 0 <= i < body.len() {
        at(st, SpecControl::Exec(body[i]), frames.push(SpecFrame::Body(body, i + 1)))
    } else {
        at(st, SpecControl::Done(SpecFlow::Normal), frames)
    }
}

/// Evaluate the next argument; call when there is none.
pub open spec fn run_args(
    m: NumberModel,
    st: SpecState,
    c: SpecCallee,
    done: Seq<SpecValue>,
    args: Seq<SpecExpr>,
    frames: Seq<SpecFrame>,
) -> SpecMachine {
    if done.len() < args.len() {
        at(
            st,
            SpecControl::Eval(args[done.len() as int]),
            frames.push(SpecFrame::Args(c, done, args)),
        )
    } else {
        match c {
            SpecCallee::Native(f) => at(st, give(stdlib::native_result(m, f, done)), frames),
            SpecCallee::Function(f) => run_body(
                with_env(st, seq![arguments(f.params, done, f.params.len() as int)]),
                f.body,
                0,
                frames.push(SpecFrame::FunctionEnd(st.env)),
            ),
        }
    }
}

/// Start with an expression.
pub open spec fn eval_step(
    m: NumberModel,
    st: SpecState,
    e: SpecExpr,
    frames: Seq<SpecFrame>,
) -> SpecMachine {
    match e {
        SpecExpr::Int(n) => at(
            st,
            SpecControl::Give(SpecValue::Number(number::bits_of_int(n as int))),
            frames,
        ),
        SpecExpr::Float(n) => at(st, SpecControl::Give(SpecValue::Number(n)), frames),
        SpecExpr::Str(s) => at(st, SpecControl::Give(SpecValue::Str(s)), frames),
        SpecExpr::Var(name) => at(st, give(variable(st, name)), frames),
        SpecExpr::Field { base, name } => at(
            st,
            SpecControl::Eval(*base),
            frames.push(SpecFrame::FieldOf(name)),
        ),
        SpecExpr::Subset { base, name } => match dag::ticker_of(e) {
            Some(ticker) => at(st, SpecControl::Wait(SpecPending::Directory(ticker)), frames),
            None => at(st, SpecControl::Eval(*base), frames.push(SpecFrame::FieldOf(name))),
        },
        SpecExpr::Binary { op, lhs, rhs } => at(
            st,
            SpecControl::Eval(*lhs),
            frames.push(SpecFrame::LeftOf(op, *rhs)),
        ),
        SpecExpr::If { condition, then_branch, else_branch } => at(
            st,
            SpecControl::Eval(*condition),
            frames.push(SpecFrame::Choice(*then_branch, *else_branch)),
        ),
        SpecExpr::Call { name, args } => match callee(st, name, args.len()) {
            Ok(c) => run_args(m, st, c, Seq::empty(), args, frames),
            Err(e) => at(st, SpecControl::Fail(e), frames),
        },
        SpecExpr::Unsafe { body } => run_body(
            enter(SpecState { in_unsafe: true, ..st }),
            body,
            0,
            frames.push(SpecFrame::UnsafeEnd(st.env, st.in_unsafe)),
        ),
    }
}

/// The value of a binary operation.
pub open spec fn binary_value(m: NumberModel, op: BinOp, l: Bits, r: Bits) -> SpecResult {
    match number::binary_result(m, op, l, r) {
        Some(n) => Ok(SpecValue::Number(n)),
        None => Err("division by zero"@),
    }
}

/// What a condition says: whether a number is not zero.
pub open spec fn condition(m: NumberModel, of: Seq<char>, v: SpecValue) -> Result<bool, Seq<char>> {
    match v {
        SpecValue::Number(n) => Ok(!number::is_zero(n)),
        _ => Err(
            "condition in `"@ + of + "` must be a number, found "@ + value::value_text(m, v),
        ),
    }
}

/// The state after `name` is assigned. A `mut` declares the name in the
/// innermost scope. Otherwise a name that is there has to be mutable, and one
/// that is not is declared immutable. What is mutable lives in `[unsafe]`
/// blocks alone.
pub open spec fn assigned(st: SpecState, name: Seq<char>, v: SpecValue, mutable: bool) -> Result<
    SpecState,
    Seq<char>,
> {
    if mutable {
        if st.in_unsafe {
            Ok(declare(st, name, SpecBinding { value: v, mutable: true }))
        } else {
            Err("`mut` is only allowed inside `[unsafe]` blocks"@)
        }
    } else {
        match names::lookup_in(st.env, name) {
            None => Ok(declare(st, name, SpecBinding { value: v, mutable: false })),
            Some(b) => if !b.mutable {
                Err("Error: Variable '"@ + name + "' is immutable and cannot be changed."@)
            } else if !st.in_unsafe {
                Err("reassignment is only allowed inside `[unsafe]` blocks"@)
            } else {
                let k = names::scope_of(st.env, name, st.env.len() as int);
                Ok(
                    with_env(
                        st,
                        names::put_in(
                            st.env,
                            k - 1,
                            name,
                            SpecBinding { value: v, mutable: true },
                        ),
                    ),
                )
            },
        }
    }
}

/// Print the next expression; ask for the printing when there is none.
pub open spec fn run_print(
    st: SpecState,
    out: Seq<char>,
    es: Seq<SpecExpr>,
    i: int,
    frames: Seq<SpecFrame>,
) -> SpecMachine {
    if 0 <= i < es.len() {
        at(st, SpecControl::Eval(es[i]), frames.push(SpecFrame::PrintAfter(out, es, i + 1)))
    } else {
        at(st, SpecControl::Wait(SpecPending::Print(out)), frames)
    }
}

/// A value meets the frame `f`.
pub open spec fn give_step(
    m: NumberModel,
    st: SpecState,
    v: SpecValue,
    f: SpecFrame,
    frames: Seq<SpecFrame>,
) -> SpecMachine {
    match f {
        SpecFrame::FieldOf(name) => at(st, give(value::subset_of(m, v, name)), frames),
        SpecFrame::LeftOf(op, rhs) => match value::number_of(m, v) {
            Ok(l) => at(st, SpecControl::Eval(rhs), frames.push(SpecFrame::RightOf(op, l))),
            Err(e) => at(st, SpecControl::Fail(e), frames),
        },
        SpecFrame::RightOf(op, l) => match value::number_of(m, v) {
            Ok(r) => at(st, give(binary_value(m, op, l, r)), frames),
            Err(e) => at(st, SpecControl::Fail(e), frames),
        },
        SpecFrame::Choice(a, b) => match condition(m, "if"@, v) {
            Ok(true) => at(st, SpecControl::Eval(a), frames),
            Ok(false) => at(st, SpecControl::Eval(b), frames),
            Err(e) => at(st, SpecControl::Fail(e), frames),
        },
        SpecFrame::Args(c, done, args) => run_args(m, st, c, done.push(v), args, frames),
        SpecFrame::AssignTo(name, mutable) => match assigned(st, name, v, mutable) {
            Ok(after) => at(after, SpecControl::Done(SpecFlow::Normal), frames),
            Err(e) => at(st, SpecControl::Fail(e), frames),
        },
        SpecFrame::PrintAfter(out, es, i) => run_print(
            st,
            out + value::value_text(m, v),
            es,
            i,
            frames,
        ),
        SpecFrame::ReturnIt => at(st, SpecControl::Done(SpecFlow::Return(v)), frames),
        SpecFrame::LoopIf(c, body) => match condition(m, "while"@, v) {
            Ok(true) => run_body(enter(st), body, 0, frames.push(SpecFrame::Round(c, body))),
            Ok(false) => at(st, SpecControl::Done(SpecFlow::Normal), frames),
            Err(e) => at(st, SpecControl::Fail(e), frames),
        },
        _ => at(st, SpecControl::Give(v), frames.push(f)),
    }
}

// ---- statements -------------------------------------------------------

/// What the right-hand side of an assignment to `name` starts as. A `param()`
/// is the override for the name, or the default that it is given.
pub open spec fn source(m: NumberModel, st: SpecState, name: Seq<char>, e: SpecExpr) -> SpecControl {
    match e {
        SpecExpr::Call { name: f, args } => if f == "param"@ {
            match names::lookup(st.params, name) {
                Some(raw) => SpecControl::Give(value::param_value(m, raw)),
                None => if args.len() == 0 {
                    SpecControl::Fail(
                        "missing required parameter `"@ + name + "`; supply it with --"@ + name
                            + "=<value>"@,
                    )
                } else if args.len() == 1 {
                    SpecControl::Eval(args[0])
                } else {
                    SpecControl::Fail(
                        "`param()` takes at most one argument (a default value), got "@
                            + text::decimal(args.len()),
                    )
                },
            }
        } else {
            SpecControl::Eval(e)
        },
        _ => SpecControl::Eval(e),
    }
}

/// Start with a statement.
pub open spec fn exec_step(
    m: NumberModel,
    st: SpecState,
    s: SpecStmt,
    frames: Seq<SpecFrame>,
) -> SpecMachine {
    match s {
        SpecStmt::Assign { name, value, mutable } => at(
            st,
            source(m, st, name, value),
            frames.push(SpecFrame::AssignTo(name, mutable)),
        ),
        SpecStmt::While { condition, body } => if st.in_unsafe {
            at(
                st,
                SpecControl::Eval(condition),
                frames.push(SpecFrame::LoopIf(condition, body)),
            )
        } else {
            at(
                st,
                SpecControl::Fail("`while` is only allowed inside `[unsafe]` blocks"@),
                frames,
            )
        },
        SpecStmt::Print(es) => run_print(st, Seq::empty(), es, 0, frames),
        SpecStmt::FnDef { name, params, body } => match purity::body_impurity(body, 0) {
            Some(i) => at(st, SpecControl::Fail(purity::impurity_text(i)), frames),
            None => at(
                SpecState {
                    functions: names::put(st.functions, name, SpecFn { params, body }),
                    ..st
                },
                SpecControl::Done(SpecFlow::Normal),
                frames,
            ),
        },
        SpecStmt::Return(e) => at(st, SpecControl::Eval(e), frames.push(SpecFrame::ReturnIt)),
    }
}

/// What a block that has to return gives.
pub open spec fn returned(flow: SpecFlow, otherwise: Seq<char>) -> SpecControl {
    match flow {
        SpecFlow::Return(v) => SpecControl::Give(v),
        SpecFlow::Normal => SpecControl::Fail(otherwise),
    }
}

/// The end of a statement meets the frame `f`.
pub open spec fn done_step(
    st: SpecState,
    flow: SpecFlow,
    f: SpecFrame,
    frames: Seq<SpecFrame>,
) -> SpecMachine {
    match f {
        SpecFrame::Body(body, i) => match flow {
            SpecFlow::Normal => run_body(st, body, i, frames),
            SpecFlow::Return(_) => at(st, SpecControl::Done(flow), frames),
        },
        SpecFrame::Round(c, body) => match flow {
            SpecFlow::Normal => at(
                leave(st),
                SpecControl::Eval(c),
                frames.push(SpecFrame::LoopIf(c, body)),
            ),
            SpecFlow::Return(_) => at(leave(st), SpecControl::Done(flow), frames),
        },
        SpecFrame::FunctionEnd(env) => at(
            with_env(st, env),
            returned(flow, "function body did not return a value"@),
            frames,
        ),
        SpecFrame::UnsafeEnd(env, before) => at(
            SpecState { env, in_unsafe: before, ..st },
            returned(flow, "[unsafe] block must end with return"@),
            frames,
        ),
        SpecFrame::Top(prog, i) => match flow {
            SpecFlow::Normal => if 0 <= i < prog.len() {
                at(
                    st,
                    SpecControl::Exec(prog[i]),
                    frames.push(SpecFrame::Top(prog, i + 1)),
                )
            } else {
                at(st, SpecControl::Stop(Ok(())), frames)
            },
            SpecFlow::Return(_) => at(
                st,
                SpecControl::Stop(
                    Err("`return` used outside of a function or [unsafe] block"@),
                ),
                frames,
            ),
        },
        _ => at(st, SpecControl::Done(flow), frames.push(f)),
    }
}

/// An error meets the frame `f`: what the frame was to undo is undone.
pub open spec fn fail_step(
    st: SpecState,
    e: Seq<char>,
    f: SpecFrame,
    frames: Seq<SpecFrame>,
) -> SpecMachine {
    match f {
        SpecFrame::Round(..) => at(leave(st), SpecControl::Fail(e), frames),
        SpecFrame::FunctionEnd(env) => at(with_env(st, env), SpecControl::Fail(e), frames),
        SpecFrame::UnsafeEnd(env, before) => at(
            SpecState { env, in_unsafe: before, ..st },
            SpecControl::Fail(e),
            frames,
        ),
        SpecFrame::Top(..) => at(st, SpecControl::Stop(Err(e)), frames),
        _ => at(st, SpecControl::Fail(e), frames),
    }
}

// ---- the outside world ------------------------------------------------

/// The data of a ticker is a value, and the name of the ticker stands for it.
pub open spec fn arrived(st: SpecState, ticker: Seq<char>, r: SpecResult) -> (
    SpecState,
    SpecControl,
) {
    match r {
        Ok(v) => (
            declare(st, ticker, SpecBinding { value: v, mutable: false }),
            SpecControl::Give(v),
        ),
        Err(e) => (st, SpecControl::Fail(e)),
    }
}

/// The reply to what was asked for. The data of a ticker is taken from its
/// file. The generator script is run first, unless the ticker was fetched
/// before the run and the file is there.
pub open spec fn reply_step(st: SpecState, p: SpecPending, reply: SpecReply) -> (
    SpecState,
    SpecControl,
) {
    match p {
        SpecPending::Print(_) => (st, SpecControl::Done(SpecFlow::Normal)),
        SpecPending::Directory(t) => if reply.outcome == Outcome::Done {
            if st.prefetched.contains(t) {
                (st, SpecControl::Wait(SpecPending::File(t)))
            } else {
                (st, SpecControl::Wait(SpecPending::Script(t)))
            }
        } else {
            (
                st,
                SpecControl::Fail(
                    "could not create '"@ + st.data_dir + "': "@ + reply.text,
                ),
            )
        },
        SpecPending::File(t) => if reply.outcome == Outcome::Done {
            (st, SpecControl::Wait(SpecPending::Document(t)))
        } else {
            (st, SpecControl::Wait(SpecPending::Script(t)))
        },
        SpecPending::Script(t) => match reply.outcome {
            Outcome::Done => (st, SpecControl::Wait(SpecPending::Document(t))),
            Outcome::Refused => (
                st,
                SpecControl::Fail(
                    "generator script exited with "@ + reply.text + " for ticker `"@ + t + "`"@,
                ),
            ),
            Outcome::Failed => (
                st,
                SpecControl::Fail(
                    "failed to run `"@ + st.python_bin + " "@ + st.generator_script + "`: "@
                        + reply.text + " (is python3 installed and on PATH?)"@,
                ),
            ),
        },
        SpecPending::Document(t) => if reply.outcome == Outcome::Done {
            arrived(
                st,
                t,
                value::document_value(json::json_fault(reply.text), reply.path, reply.text),
            )
        } else {
            (
                st,
                SpecControl::Fail("could not read '"@ + reply.path + "': "@ + reply.text),
            )
        },
    }
}

// ---- the machine ------------------------------------------------------

/// The machine after one step. The reply matters where the machine waits.
pub open spec fn next(m: NumberModel, x: SpecMachine, reply: SpecReply) -> SpecMachine {
    let below = x.frames.drop_last();
    match x.control {
        SpecControl::Eval(e) => eval_step(m, x.st, e, x.frames),
        SpecControl::Exec(s) => exec_step(m, x.st, s, x.frames),
        SpecControl::Wait(p) => {
            let (st, control) = reply_step(x.st, p, reply);
            at(st, control, x.frames)
        },
        SpecControl::Give(v) => if x.frames.len() == 0 {
            x
        } else {
            give_step(m, x.st, v, x.frames.last(), below)
        },
        SpecControl::Done(flow) => if x.frames.len() == 0 {
            x
        } else {
            done_step(x.st, flow, x.frames.last(), below)
        },
        SpecControl::Fail(e) => if x.frames.len() == 0 {
            x
        } else {
            fail_step(x.st, e, x.frames.last(), below)
        },
        SpecControl::Stop(_) => x,
    }
}

/// What a frame takes: a value, or the end of a statement.
pub open spec fn takes_value(f: SpecFrame) -> bool {
    match f {
        SpecFrame::Round(..) => false,
        SpecFrame::Body(..) => false,
        SpecFrame::FunctionEnd(..) => false,
        SpecFrame::UnsafeEnd(..) => false,
        SpecFrame::Top(..) => false,
        _ => true,
    }
}

/// What a frame gives: a value, or the end of a statement.
pub open spec fn gives_value(f: SpecFrame) -> bool {
    match f {
        SpecFrame::FieldOf(..) => true,
        SpecFrame::LeftOf(..) => true,
        SpecFrame::RightOf(..) => true,
        SpecFrame::Choice(..) => true,
        SpecFrame::Args(..) => true,
        SpecFrame::FunctionEnd(..) => true,
        SpecFrame::UnsafeEnd(..) => true,
        _ => false,
    }
}

/// The arguments of a call fit what it calls.
pub open spec fn frame_fits(f: SpecFrame) -> bool {
    match f {
        SpecFrame::Args(c, done, args) => {
            &&& done.len() < args.len()
            &&& c matches SpecCallee::Function(g) ==> g.params.len() == args.len()
        },
        SpecFrame::PrintAfter(_, es, i) => 0 < i <= es.len(),
        SpecFrame::Body(body, i) => 0 <= i <= body.len(),
        SpecFrame::Top(prog, i) => 0 <= i <= prog.len(),
        _ => true,
    }
}

/// Each frame takes what the one above it gives, and the program is at the
/// bottom.
pub open spec fn stack_fits(frames: Seq<SpecFrame>, value: bool) -> bool
    decreases frames.len(),
{
    &&& frames.len() > 0
    &&& takes_value(frames.last()) == value
    &&& frame_fits(frames.last())
    &&& if frames.last() is Top {
        frames.len() == 1
    } else {
        stack_fits(frames.drop_last(), gives_value(frames.last()))
    }
}

/// There is a scope for each round of a loop, and one more.
pub open spec fn scopes_fit(frames: Seq<SpecFrame>, scopes: nat) -> bool
    decreases frames.len(),
{
    &&& scopes > 0
    &&& if frames.len() == 0 {
        true
    } else {
        match frames.last() {
            SpecFrame::Round(..) => scopes > 1 && scopes_fit(
                frames.drop_last(),
                (scopes - 1) as nat,
            ),
            SpecFrame::FunctionEnd(env) => scopes_fit(frames.drop_last(), env.len()),
            SpecFrame::UnsafeEnd(env, _) => scopes_fit(frames.drop_last(), env.len()),
            _ => scopes_fit(frames.drop_last(), scopes),
        }
    }
}

/// What the machine is about to do fits the stack.
pub open spec fn wf(x: SpecMachine) -> bool {
    &&& scopes_fit(x.frames, x.st.env.len())
    &&& match x.control {
        SpecControl::Eval(_) => stack_fits(x.frames, true),
        SpecControl::Give(_) => stack_fits(x.frames, true),
        SpecControl::Exec(_) => stack_fits(x.frames, false),
        SpecControl::Done(_) => stack_fits(x.frames, false),
        SpecControl::Wait(p) => stack_fits(x.frames, p !is Print),
        SpecControl::Fail(_) => stack_fits(x.frames, takes_value(x.frames.last())),
        SpecControl::Stop(_) => x.frames.len() == 0,
    }
}

pub(crate) broadcast proof fn lemma_push_last(frames: Seq<SpecFrame>, f: SpecFrame)
    ensures
        (#[trigger] frames.push(f)).drop_last() == frames,
{
    assert(frames.push(f).drop_last() =~= frames);
}

pub(crate) proof fn lemma_takes(frames: Seq<SpecFrame>, value: bool)
    requires
        stack_fits(frames, value),
    ensures
        takes_value(frames.last()) == value,
{
}

pub(crate) proof fn lemma_assigned_scopes(st: SpecState, name: Seq<char>, v: SpecValue, mutable: bool)
    requires
        st.env.len() > 0,
    ensures
        assigned(st, name, v, mutable) matches Ok(after) ==> after.env.len() == st.env.len(),
{
    names::lemma_scope_of(st.env, name, st.env.len() as int);
}

pub(crate) proof fn lemma_body_fits(st: SpecState, body: Seq<SpecStmt>, i: int, frames: Seq<SpecFrame>)
    requires
        0 <= i <= body.len(),
        stack_fits(frames, false),
        scopes_fit(frames, st.env.len()),
    ensures
        wf(run_body(st, body, i, frames)),
{
    broadcast use lemma_push_last;

}

proof fn lemma_args_fit(
    m: NumberModel,
    st: SpecState,
    c: SpecCallee,
    done: Seq<SpecValue>,
    args: Seq<SpecExpr>,
    frames: Seq<SpecFrame>,
)
    requires
        done.len() <= args.len(),
        c matches SpecCallee::Function(g) ==> g.params.len() == args.len(),
        stack_fits(frames, true),
        scopes_fit(frames, st.env.len()),
    ensures
        wf(run_args(m, st, c, done, args, frames)),
{
    broadcast use lemma_push_last;

    if done.len() >= args.len() {
        if let SpecCallee::Function(f) = c {
            let inner = frames.push(SpecFrame::FunctionEnd(st.env));
            let env = seq![arguments(f.params, done, f.params.len() as int)];
            assert(stack_fits(inner, false));
            assert(scopes_fit(inner, 1));
            lemma_body_fits(with_env(st, env), f.body, 0, inner);
        }
    }
}

pub(crate) proof fn lemma_print_fits(
    st: SpecState,
    out: Seq<char>,
    es: Seq<SpecExpr>,
    i: int,
    frames: Seq<SpecFrame>,
)
    requires
        0 <= i <= es.len(),
        stack_fits(frames, false),
        scopes_fit(frames, st.env.len()),
    ensures
        wf(run_print(st, out, es, i, frames)),
{
    broadcast use lemma_push_last;

}

proof fn lemma_eval_fits(m: NumberModel, st: SpecState, e: SpecExpr, frames: Seq<SpecFrame>)
    requires
        stack_fits(frames, true),
        scopes_fit(frames, st.env.len()),
    ensures
        wf(eval_step(m, st, e, frames)),
{
    broadcast use lemma_push_last;

    match e {
        SpecExpr::Call { name, args } => {
            if let Ok(c) = callee(st, name, args.len()) {
                lemma_args_fit(m, st, c, Seq::empty(), args, frames);
            }
        },
        SpecExpr::Unsafe { body } => {
            let inner = frames.push(SpecFrame::UnsafeEnd(st.env, st.in_unsafe));
            let entered = enter(SpecState { in_unsafe: true, ..st });
            assert(stack_fits(inner, false));
            assert(scopes_fit(inner, entered.env.len()));
            lemma_body_fits(entered, body, 0, inner);
        },
        _ => {},
    }
}

proof fn lemma_give_fits(
    m: NumberModel,
    st: SpecState,
    v: SpecValue,
    f: SpecFrame,
    frames: Seq<SpecFrame>,
)
    requires
        takes_value(f),
        frame_fits(f),
        stack_fits(frames, gives_value(f)),
        scopes_fit(frames, st.env.len()),
    ensures
        wf(give_step(m, st, v, f, frames)),
{
    broadcast use lemma_push_last;

    match f {
        SpecFrame::Args(c, done, args) => {
            lemma_args_fit(m, st, c, done.push(v), args, frames);
        },
        SpecFrame::AssignTo(name, mutable) => lemma_assigned_scopes(st, name, v, mutable),
        SpecFrame::PrintAfter(out, es, i) => {
            lemma_print_fits(st, out + value::value_text(m, v), es, i, frames);
        },
        SpecFrame::LoopIf(c, body) => {
            let inner = frames.push(SpecFrame::Round(c, body));
            assert(stack_fits(inner, false));
            assert(scopes_fit(inner, enter(st).env.len()));
            lemma_body_fits(enter(st), body, 0, inner);
        },
        _ => {},
    }
}

proof fn lemma_exec_fits(m: NumberModel, st: SpecState, s: SpecStmt, frames: Seq<SpecFrame>)
    requires
        stack_fits(frames, false),
        scopes_fit(frames, st.env.len()),
    ensures
        wf(exec_step(m, st, s, frames)),
{
    broadcast use lemma_push_last;

    if let SpecStmt::Print(es) = s {
        lemma_print_fits(st, Seq::empty(), es, 0, frames);
    }
}

pub(crate) proof fn lemma_done_fits(st: SpecState, flow: SpecFlow, frames: Seq<SpecFrame>)
    requires
        stack_fits(frames, false),
        scopes_fit(frames, st.env.len()),
    ensures
        wf(done_step(st, flow, frames.last(), frames.drop_last())),
{
    broadcast use lemma_push_last;

    let below = frames.drop_last();
    if frames.last() !is Top {
        lemma_takes(below, gives_value(frames.last()));
    }
    match frames.last() {
        SpecFrame::Body(body, i) => {
            if flow is Normal {
                lemma_body_fits(st, body, i, below);
            }
        },
        SpecFrame::Top(prog, i) => {
            assert(below =~= Seq::empty());
        },
        _ => {},
    }
}

/// A machine that fits its stack still does after a step, whatever the reply:
/// it never meets a frame that it has no use for.
pub proof fn law_steps_fit(m: NumberModel, x: SpecMachine, reply: SpecReply)
    requires
        wf(x),
    ensures
        wf(next(m, x, reply)),
{
    match x.control {
        SpecControl::Eval(e) => lemma_eval_fits(m, x.st, e, x.frames),
        SpecControl::Exec(s) => lemma_exec_fits(m, x.st, s, x.frames),
        SpecControl::Give(v) => {
            lemma_give_fits(m, x.st, v, x.frames.last(), x.frames.drop_last());
        },
        SpecControl::Done(flow) => lemma_done_fits(x.st, flow, x.frames),
        SpecControl::Fail(e) => {
            if x.frames.last() is Top {
                assert(x.frames.drop_last() =~= Seq::empty());
            } else {
                lemma_takes(x.frames.drop_last(), gives_value(x.frames.last()));
            }
        },
        _ => {},
    }
}

} // verus!
