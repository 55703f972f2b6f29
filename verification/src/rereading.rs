//! A program that was written and read again does what the program does, where
//! its numbers are read as numbers of the same value.

#[allow(unused_imports)]
use crate::ast::{BinOp, SpecExpr, SpecStmt};
#[allow(unused_imports)]
use crate::dag;
#[allow(unused_imports)]
use crate::machine::{self, SpecCallee, SpecControl, SpecFlow, SpecFn, SpecPending, SpecState};
#[allow(unused_imports)]
use crate::names;
#[allow(unused_imports)]
use crate::number::{self, Bits, NumberModel};
#[allow(unused_imports)]
use crate::purity;
#[allow(unused_imports)]
use crate::semantics::{self, Meaning, Run};
#[allow(unused_imports)]
use crate::soundness;
#[allow(unused_imports)]
use crate::spelling;
#[allow(unused_imports)]
use crate::token::SpecToken;
#[allow(unused_imports)]
use crate::value::{self, SpecValue};
use vstd::prelude::*;

verus! {

// ---- numbers of the same value --------------------------------------------

/// The number that a token stands for.
pub open spec fn token_number(t: SpecToken) -> Option<Bits> {
    match t {
        SpecToken::Int(n) => Some(number::bits_of_int(n as int)),
        SpecToken::Float(n) => Some(n),
        _ => None,
    }
}

/// Whether a number that is written as the token `t`, after a minus sign or
/// not, is read as the number `n`.
pub open spec fn reads_as(m: NumberModel, minus: bool, t: SpecToken, n: Bits) -> bool {
    match token_number(t) {
        Some(k) => if minus {
            number::binary_result(m, BinOp::Sub, number::bits_of_int(0), k) == Some(n)
        } else {
            k == n
        },
        None => false,
    }
}

/// Whether the numbers of an expression are read as numbers of the same value.
pub open spec fn keeps(m: NumberModel, e: SpecExpr) -> bool
    decreases e, 0nat,
{
    match e {
        SpecExpr::Int(n) => n < 0 ==> reads_as(
            m,
            true,
            SpecToken::Int((-n) as i64),
            number::bits_of_int(n as int),
        ),
        SpecExpr::Float(n) => reads_as(m, spelling::signed(m, n), spelling::magnitude(m, n), n),
        SpecExpr::Field { base, .. } => keeps(m, *base),
        SpecExpr::Subset { base, .. } => keeps(m, *base),
        SpecExpr::Binary { lhs, rhs, .. } => keeps(m, *lhs) && keeps(m, *rhs),
        SpecExpr::If { condition, then_branch, else_branch } => keeps(m, *condition) && keeps(
            m,
            *then_branch,
        ) && keeps(m, *else_branch),
        SpecExpr::Call { args, .. } => forall|i: int|
            0 <= i < args.len() ==> keeps(m, #[trigger] args[i]),
        SpecExpr::Unsafe { body } => keeps_stmts(m, body),
        _ => true,
    }
}

/// Whether the numbers of statements are read as numbers of the same value.
pub open spec fn keeps_stmts(m: NumberModel, ss: Seq<SpecStmt>) -> bool
    decreases ss, 0nat,
{
    forall|i: int| 0 <= i < ss.len() ==> keeps_stmt(m, #[trigger] ss[i])
}

pub open spec fn keeps_stmt(m: NumberModel, s: SpecStmt) -> bool
    decreases s, 0nat,
{
    match s {
        SpecStmt::Assign { value, .. } => keeps(m, value),
        SpecStmt::Print(es) => forall|i: int| 0 <= i < es.len() ==> keeps(m, #[trigger] es[i]),
        SpecStmt::FnDef { body, .. } => keeps_stmts(m, body),
        SpecStmt::While { condition, body } => keeps(m, condition) && keeps_stmts(m, body),
        SpecStmt::Return(e) => keeps(m, e),
    }
}

// ---- states ---------------------------------------------------------------

/// A function as it is after its body was written and read again.
pub open spec fn reread_fn(m: NumberModel, f: SpecFn) -> SpecFn {
    SpecFn { params: f.params, body: spelling::reread_stmts(m, f.body, f.body.len() as int) }
}

pub open spec fn reread_fns(m: NumberModel, fs: Seq<(Seq<char>, SpecFn)>) -> Seq<
    (Seq<char>, SpecFn),
> {
    Seq::new(fs.len(), |i: int| (fs[i].0, reread_fn(m, fs[i].1)))
}

/// A state in which the functions are those of a program that was written and
/// read again. All else is the same.
pub open spec fn reread_state(m: NumberModel, st: SpecState) -> SpecState {
    SpecState { functions: reread_fns(m, st.functions), ..st }
}

pub open spec fn reread_run(m: NumberModel, r: Run) -> Run {
    Run { st: reread_state(m, r.st), ..r }
}

/// What comes out, with the functions written and read again.
pub open spec fn reread_meaning<T>(m: NumberModel, x: Meaning<T>) -> Meaning<T> {
    match x {
        Meaning::Is(v, r) => Meaning::Is(v, reread_run(m, r)),
        Meaning::Wrong(e, r) => Meaning::Wrong(e, reread_run(m, r)),
        Meaning::Out => Meaning::Out,
    }
}

/// Whether the numbers in the functions are read as numbers of the same value.
pub open spec fn functions_keep(m: NumberModel, st: SpecState) -> bool {
    forall|i: int| 0 <= i < st.functions.len() ==> keeps_stmts(m, (#[trigger] st.functions[i]).1.body)
}

pub open spec fn end_keeps<T>(m: NumberModel, x: Meaning<T>) -> bool {
    match x {
        Meaning::Is(_, r) => functions_keep(m, r.st),
        Meaning::Wrong(_, r) => functions_keep(m, r.st),
        Meaning::Out => true,
    }
}

proof fn lemma_find(m: NumberModel, fs: Seq<(Seq<char>, SpecFn)>, name: Seq<char>, i: int)
    requires
        0 <= i,
    ensures
        names::find_from(reread_fns(m, fs), name, i) == names::find_from(fs, name, i),
        i <= fs.len() ==> i <= names::find_from(fs, name, i) <= fs.len(),
    decreases fs.len() - i,
{
    if i < fs.len() {
        lemma_find(m, fs, name, i + 1);
    }
}

/// Calls find the functions that they did.
proof fn lemma_callee(m: NumberModel, st: SpecState, name: Seq<char>, n: nat)
    ensures
        machine::callee(reread_state(m, st), name, n) == (match machine::callee(st, name, n) {
            Ok(SpecCallee::Function(f)) => Ok::<SpecCallee, Seq<char>>(
                SpecCallee::Function(reread_fn(m, f)),
            ),
            other => other,
        }),
        functions_keep(m, st) ==> (machine::callee(st, name, n) matches Ok(
            SpecCallee::Function(f),
        ) ==> keeps_stmts(m, f.body)),
{
    lemma_find(m, st.functions, name, 0);
}

proof fn lemma_define(m: NumberModel, st: SpecState, name: Seq<char>, f: SpecFn)
    requires
        functions_keep(m, st),
        keeps_stmts(m, f.body),
    ensures
        reread_fns(m, names::put(st.functions, name, f)) == names::put(
            reread_fns(m, st.functions),
            name,
            reread_fn(m, f),
        ),
        functions_keep(m, SpecState { functions: names::put(st.functions, name, f), ..st }),
{
    lemma_find(m, st.functions, name, 0);
    assert(reread_fns(m, names::put(st.functions, name, f)) =~= names::put(
        reread_fns(m, st.functions),
        name,
        reread_fn(m, f),
    ));
}

// ---- trees ----------------------------------------------------------------

proof fn lemma_list(m: NumberModel, es: Seq<SpecExpr>, n: int)
    requires
        0 <= n <= es.len(),
    ensures
        spelling::reread_list(m, es, n).len() == n,
        forall|i: int|
            0 <= i < n ==> #[trigger] spelling::reread_list(m, es, n)[i] == spelling::reread(m, es[i]),
    decreases n,
{
    if n > 0 {
        lemma_list(m, es, n - 1);
    }
}

pub(crate) proof fn lemma_stmts(m: NumberModel, ss: Seq<SpecStmt>, n: int)
    requires
        0 <= n <= ss.len(),
    ensures
        spelling::reread_stmts(m, ss, n).len() == n,
        forall|i: int|
            0 <= i < n ==> #[trigger] spelling::reread_stmts(m, ss, n)[i] == spelling::reread_stmt(
                m,
                ss[i],
            ),
    decreases n,
{
    if n > 0 {
        lemma_stmts(m, ss, n - 1);
    }
}

proof fn lemma_ticker(m: NumberModel, e: SpecExpr)
    ensures
        dag::ticker_of(spelling::reread(m, e)) == dag::ticker_of(e),
{
    reveal_with_fuel(spelling::reread, 2);
}

/// What is not allowed in a function is the same.
proof fn pure_expr(m: NumberModel, e: SpecExpr)
    ensures
        purity::expr_impurity(spelling::reread(m, e)) == purity::expr_impurity(e),
    decreases e, 0nat,
{
    lemma_ticker(m, e);
    match e {
        SpecExpr::Int(n) => {
            reveal_with_fuel(purity::expr_impurity, 2);
        },
        SpecExpr::Float(n) => {
            reveal_with_fuel(purity::expr_impurity, 2);
        },
        SpecExpr::Field { base, .. } => pure_expr(m, *base),
        SpecExpr::Subset { base, .. } => pure_expr(m, *base),
        SpecExpr::Binary { lhs, rhs, .. } => {
            pure_expr(m, *lhs);
            pure_expr(m, *rhs);
        },
        SpecExpr::If { condition, then_branch, else_branch } => {
            pure_expr(m, *condition);
            pure_expr(m, *then_branch);
            pure_expr(m, *else_branch);
        },
        SpecExpr::Call { args, .. } => pure_exprs(m, args, 0),
        SpecExpr::Unsafe { body } => pure_body(m, body, 0),
        _ => {},
    }
}

proof fn pure_exprs(m: NumberModel, es: Seq<SpecExpr>, i: int)
    requires
        0 <= i,
    ensures
        purity::exprs_impurity(spelling::reread_list(m, es, es.len() as int), i)
            == purity::exprs_impurity(es, i),
    decreases es, es.len() - i,
{
    lemma_list(m, es, es.len() as int);
    if i < es.len() {
        pure_expr(m, es[i]);
        pure_exprs(m, es, i + 1);
    }
}

proof fn pure_stmt(m: NumberModel, s: SpecStmt)
    ensures
        purity::stmt_impurity(spelling::reread_stmt(m, s)) == purity::stmt_impurity(s),
    decreases s, 0nat,
{
    match s {
        SpecStmt::Assign { value, .. } => pure_expr(m, value),
        SpecStmt::Return(e) => pure_expr(m, e),
        SpecStmt::While { condition, body } => {
            pure_expr(m, condition);
            pure_body(m, body, 0);
        },
        _ => {},
    }
}

proof fn pure_body(m: NumberModel, ss: Seq<SpecStmt>, i: int)
    requires
        0 <= i,
    ensures
        purity::body_impurity(spelling::reread_stmts(m, ss, ss.len() as int), i)
            == purity::body_impurity(ss, i),
    decreases ss, ss.len() - i,
{
    lemma_stmts(m, ss, ss.len() as int);
    if i < ss.len() {
        pure_stmt(m, ss[i]);
        pure_body(m, ss, i + 1);
    }
}

// ---- what comes out -------------------------------------------------------

proof fn alike_number(m: NumberModel, r: Run, e: SpecExpr, f: nat)
    requires
        e is Int || e is Float,
        keeps(m, e),
        f > 0,
    ensures
        semantics::eval(m, r, spelling::reread(m, e), f + 1) == semantics::eval(m, r, e, f),
{
    reveal_with_fuel(semantics::eval, 2);
}

proof fn alike_fetched(m: NumberModel, r: Run, p: SpecPending, f: nat)
    requires
        semantics::fetched(r, p, f) !is Out,
        functions_keep(m, r.st),
    ensures
        semantics::fetched(reread_run(m, r), p, f + 1) == reread_meaning(
            m,
            semantics::fetched(r, p, f),
        ),
        end_keeps(m, semantics::fetched(r, p, f)),
    decreases f,
{
    let (st, control) = machine::reply_step(r.st, p, r.replies[0]);
    let after = semantics::with_st(semantics::after_asking(r, p), st);
    assert(machine::reply_step(reread_state(m, r.st), p, r.replies[0]) == (
        reread_state(m, st),
        control,
    ));
    assert(st.functions == r.st.functions);
    assert(semantics::with_st(
        semantics::after_asking(reread_run(m, r), p),
        reread_state(m, st),
    ) == reread_run(m, after));
    if let SpecControl::Wait(q) = control {
        alike_fetched(m, after, q, (f - 1) as nat);
    }
}

proof fn alike_eval(m: NumberModel, r: Run, e: SpecExpr, f: nat)
    requires
        semantics::eval(m, r, e, f) !is Out,
        keeps(m, e),
        functions_keep(m, r.st),
    ensures
        semantics::eval(m, reread_run(m, r), spelling::reread(m, e), f + 1) == reread_meaning(
            m,
            semantics::eval(m, r, e, f),
        ),
        end_keeps(m, semantics::eval(m, r, e, f)),
    decreases f,
{
    let a = (f - 1) as nat;
    let q = reread_run(m, r);
    match e {
        SpecExpr::Int(_) => alike_number(m, q, e, f),
        SpecExpr::Float(_) => alike_number(m, q, e, f),
        SpecExpr::Str(_) => {},
        SpecExpr::Var(_) => {},
        SpecExpr::Field { base, .. } => alike_eval(m, r, *base, a),
        SpecExpr::Subset { base, .. } => {
            lemma_ticker(m, e);
            match dag::ticker_of(e) {
                Some(t) => alike_fetched(m, r, SpecPending::Directory(t), a),
                None => alike_eval(m, r, *base, a),
            }
        },
        SpecExpr::Binary { lhs, rhs, .. } => {
            alike_eval(m, r, *lhs, a);
            if let Meaning::Is(x, r1) = semantics::eval(m, r, *lhs, a) {
                if value::number_of(m, x) is Ok {
                    alike_eval(m, r1, *rhs, a);
                }
            }
        },
        SpecExpr::If { condition, then_branch, else_branch } => {
            alike_eval(m, r, *condition, a);
            if let Meaning::Is(v, r1) = semantics::eval(m, r, *condition, a) {
                match machine::condition(m, "if"@, v) {
                    Ok(true) => alike_eval(m, r1, *then_branch, a),
                    Ok(false) => alike_eval(m, r1, *else_branch, a),
                    Err(_) => {},
                }
            }
        },
        SpecExpr::Call { name, args } => {
            lemma_list(m, args, args.len() as int);
            lemma_callee(m, r.st, name, args.len());
            if let Ok(c) = machine::callee(r.st, name, args.len()) {
                alike_applied(m, r, c, Seq::empty(), args, a);
            }
        },
        SpecExpr::Unsafe { body } => {
            let inside = semantics::with_st(
                r,
                machine::enter(SpecState { in_unsafe: true, ..r.st }),
            );
            assert(semantics::with_st(
                q,
                machine::enter(SpecState { in_unsafe: true, ..q.st }),
            ) == reread_run(m, inside));
            alike_body(m, inside, body, 0, a);
        },
    }
}

pub open spec fn reread_callee(m: NumberModel, c: SpecCallee) -> SpecCallee {
    match c {
        SpecCallee::Function(f) => SpecCallee::Function(reread_fn(m, f)),
        SpecCallee::Native(g) => SpecCallee::Native(g),
    }
}

proof fn alike_applied(
    m: NumberModel,
    r: Run,
    c: SpecCallee,
    done: Seq<SpecValue>,
    args: Seq<SpecExpr>,
    f: nat,
)
    requires
        semantics::applied(m, r, c, done, args, f) !is Out,
        forall|i: int| 0 <= i < args.len() ==> keeps(m, #[trigger] args[i]),
        functions_keep(m, r.st),
        c matches SpecCallee::Function(g) ==> keeps_stmts(m, g.body),
    ensures
        semantics::applied(
            m,
            reread_run(m, r),
            reread_callee(m, c),
            done,
            spelling::reread_list(m, args, args.len() as int),
            f + 1,
        ) == reread_meaning(m, semantics::applied(m, r, c, done, args, f)),
        end_keeps(m, semantics::applied(m, r, c, done, args, f)),
    decreases f,
{
    let a = (f - 1) as nat;
    let q = reread_run(m, r);
    lemma_list(m, args, args.len() as int);
    if done.len() < args.len() {
        let e = args[done.len() as int];
        alike_eval(m, r, e, a);
        if let Meaning::Is(v, r1) = semantics::eval(m, r, e, a) {
            alike_applied(m, r1, c, done.push(v), args, a);
        }
    } else if let SpecCallee::Function(g) = c {
        let env = seq![machine::arguments(g.params, done, g.params.len() as int)];
        let inside = semantics::with_st(r, machine::with_env(r.st, env));
        assert(semantics::with_st(q, machine::with_env(q.st, env)) == reread_run(m, inside));
        alike_body(m, inside, g.body, 0, a);
    }
}

proof fn alike_source(m: NumberModel, r: Run, name: Seq<char>, e: SpecExpr, f: nat)
    requires
        semantics::assigned_value(m, r, name, e, f) !is Out,
        keeps(m, e),
        functions_keep(m, r.st),
    ensures
        semantics::assigned_value(m, reread_run(m, r), name, spelling::reread(m, e), f + 1)
            == reread_meaning(m, semantics::assigned_value(m, r, name, e, f)),
        end_keeps(m, semantics::assigned_value(m, r, name, e, f)),
    decreases f,
{
    if let SpecExpr::Call { args, .. } = e {
        lemma_list(m, args, args.len() as int);
    }
    if let SpecControl::Eval(e1) = machine::source(m, r.st, name, e) {
        assert(machine::source(m, reread_state(m, r.st), name, spelling::reread(m, e))
            == SpecControl::Eval(spelling::reread(m, e1)));
        alike_eval(m, r, e1, (f - 1) as nat);
    }
}

pub(crate) proof fn alike_exec(m: NumberModel, r: Run, s: SpecStmt, f: nat)
    requires
        semantics::exec(m, r, s, f) !is Out,
        keeps_stmt(m, s),
        functions_keep(m, r.st),
    ensures
        semantics::exec(m, reread_run(m, r), spelling::reread_stmt(m, s), f + 1) == reread_meaning(
            m,
            semantics::exec(m, r, s, f),
        ),
        end_keeps(m, semantics::exec(m, r, s, f)),
    decreases f,
{
    let a = (f - 1) as nat;
    match s {
        SpecStmt::Assign { name, value, .. } => alike_source(m, r, name, value, a),
        SpecStmt::While { condition, body } => {
            if r.st.in_unsafe {
                alike_looped(m, r, condition, body, a);
            }
        },
        SpecStmt::Print(es) => alike_printed(m, r, Seq::empty(), es, 0, a),
        SpecStmt::FnDef { name, params, body } => {
            pure_body(m, body, 0);
            lemma_define(m, r.st, name, SpecFn { params, body });
        },
        SpecStmt::Return(e) => alike_eval(m, r, e, a),
    }
}

proof fn alike_looped(m: NumberModel, r: Run, c: SpecExpr, body: Seq<SpecStmt>, f: nat)
    requires
        semantics::looped(m, r, c, body, f) !is Out,
        keeps(m, c),
        keeps_stmts(m, body),
        functions_keep(m, r.st),
    ensures
        semantics::looped(
            m,
            reread_run(m, r),
            spelling::reread(m, c),
            spelling::reread_stmts(m, body, body.len() as int),
            f + 1,
        ) == reread_meaning(m, semantics::looped(m, r, c, body, f)),
        end_keeps(m, semantics::looped(m, r, c, body, f)),
    decreases f,
{
    let a = (f - 1) as nat;
    alike_eval(m, r, c, a);
    if let Meaning::Is(v, r1) = semantics::eval(m, r, c, a) {
        if machine::condition(m, "while"@, v) == Ok::<bool, Seq<char>>(true) {
            let inside = semantics::with_st(r1, machine::enter(r1.st));
            let q1 = reread_run(m, r1);
            assert(semantics::with_st(q1, machine::enter(q1.st)) == reread_run(m, inside));
            alike_body(m, inside, body, 0, a);
            if let Meaning::Is(flow, r2) = semantics::body_run(m, inside, body, 0, a) {
                let r3 = semantics::with_st(r2, machine::leave(r2.st));
                let q2 = reread_run(m, r2);
                assert(semantics::with_st(q2, machine::leave(q2.st)) == reread_run(m, r3));
                if flow is Normal {
                    alike_looped(m, r3, c, body, a);
                }
            }
        }
    }
}

proof fn alike_printed(
    m: NumberModel,
    r: Run,
    out: Seq<char>,
    es: Seq<SpecExpr>,
    i: int,
    f: nat,
)
    requires
        semantics::printed(m, r, out, es, i, f) !is Out,
        forall|j: int| 0 <= j < es.len() ==> keeps(m, #[trigger] es[j]),
        functions_keep(m, r.st),
    ensures
        semantics::printed(
            m,
            reread_run(m, r),
            out,
            spelling::reread_list(m, es, es.len() as int),
            i,
            f + 1,
        ) == reread_meaning(m, semantics::printed(m, r, out, es, i, f)),
        end_keeps(m, semantics::printed(m, r, out, es, i, f)),
    decreases f,
{
    let a = (f - 1) as nat;
    lemma_list(m, es, es.len() as int);
    if 0 <= i < es.len() {
        alike_eval(m, r, es[i], a);
        if let Meaning::Is(v, r1) = semantics::eval(m, r, es[i], a) {
            alike_printed(m, r1, out + value::value_text(m, v), es, i + 1, a);
        }
    }
}

proof fn alike_body(m: NumberModel, r: Run, ss: Seq<SpecStmt>, i: int, f: nat)
    requires
        semantics::body_run(m, r, ss, i, f) !is Out,
        keeps_stmts(m, ss),
        functions_keep(m, r.st),
    ensures
        semantics::body_run(
            m,
            reread_run(m, r),
            spelling::reread_stmts(m, ss, ss.len() as int),
            i,
            f + 1,
        ) == reread_meaning(m, semantics::body_run(m, r, ss, i, f)),
        end_keeps(m, semantics::body_run(m, r, ss, i, f)),
    decreases f,
{
    let a = (f - 1) as nat;
    lemma_stmts(m, ss, ss.len() as int);
    if 0 <= i < ss.len() {
        assert(keeps_stmt(m, ss[i]));
        alike_exec(m, r, ss[i], a);
        if let Meaning::Is(SpecFlow::Normal, r1) = semantics::exec(m, r, ss[i], a) {
            alike_body(m, r1, ss, i + 1, a);
        }
    }
}

/// A program that was written and read again does what the program does: it
/// ends the same way, leaves the same state behind, with its functions as they
/// were read, and asks for the same things. Its numbers have to be read as
/// numbers of the same value; what was a double may be an integer now, and what
/// was negative a difference from 0.
pub proof fn law_reread_programs_run_alike(
    m: NumberModel,
    r: Run,
    prog: Seq<SpecStmt>,
    i: int,
    fuel: nat,
)
    requires
        semantics::program_run(m, r, prog, i, fuel) !is Out,
        keeps_stmts(m, prog),
        functions_keep(m, r.st),
    ensures
        semantics::program_run(
            m,
            reread_run(m, r),
            spelling::reread_stmts(m, prog, prog.len() as int),
            i,
            fuel + 1,
        ) == reread_meaning(m, semantics::program_run(m, r, prog, i, fuel)),
    decreases fuel,
{
    let a = (fuel - 1) as nat;
    lemma_stmts(m, prog, prog.len() as int);
    if 0 <= i < prog.len() {
        assert(keeps_stmt(m, prog[i]));
        alike_exec(m, r, prog[i], a);
        if let Meaning::Is(SpecFlow::Normal, r1) = semantics::exec(m, r, prog[i], a) {
            law_reread_programs_run_alike(m, r1, prog, i + 1, a);
        }
    }
}

/// The same, for the first `n` statements.
pub(crate) proof fn alike_ran(m: NumberModel, r: Run, prog: Seq<SpecStmt>, n: int, fuel: nat)
    requires
        0 <= n <= prog.len(),
        soundness::ran(m, r, prog, n, fuel) is Some,
        keeps_stmts(m, prog),
        functions_keep(m, r.st),
    ensures
        soundness::ran(
            m,
            reread_run(m, r),
            spelling::reread_stmts(m, prog, prog.len() as int),
            n,
            fuel + 1,
        ) == Some(reread_run(m, soundness::ran(m, r, prog, n, fuel)->0)),
        functions_keep(m, soundness::ran(m, r, prog, n, fuel)->0.st),
    decreases n,
{
    lemma_stmts(m, prog, prog.len() as int);
    if n > 0 {
        alike_ran(m, r, prog, n - 1, fuel);
        assert(keeps_stmt(m, prog[n - 1]));
        alike_exec(m, soundness::ran(m, r, prog, n - 1, fuel)->0, prog[n - 1], fuel);
    }
}

} // verus!
