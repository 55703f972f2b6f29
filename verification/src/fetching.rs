//! What a program asks the outside world for.

#[allow(unused_imports)]
use crate::adequacy;
#[allow(unused_imports)]
use crate::ast::{SpecExpr, SpecStmt};
#[allow(unused_imports)]
use crate::dag;
#[allow(unused_imports)]
use crate::effects;
#[allow(unused_imports)]
use crate::graph;
#[allow(unused_imports)]
use crate::json::{self, SpecJson};
#[allow(unused_imports)]
use crate::machine::{self, Outcome, SpecCallee, SpecControl, SpecFlow, SpecPending, SpecState};
#[allow(unused_imports)]
use crate::names;
#[allow(unused_imports)]
use crate::number::{Bits, NumberModel};
#[allow(unused_imports)]
use crate::parts;
#[allow(unused_imports)]
use crate::purity;
#[allow(unused_imports)]
use crate::semantics::{self, Meaning, Run};
#[allow(unused_imports)]
use crate::soundness;
#[allow(unused_imports)]
use crate::value::{self, SpecBinding, SpecValue};
use vstd::prelude::*;

verus! {

/// The ticker that something is asked for, if it is asked for one.
pub open spec fn ticker_asked(p: SpecPending) -> Option<Seq<char>> {
    match p {
        SpecPending::Print(_) => None,
        SpecPending::Directory(t) => Some(t),
        SpecPending::File(t) => Some(t),
        SpecPending::Script(t) => Some(t),
        SpecPending::Document(t) => Some(t),
    }
}

/// Between `from` and `to` nothing was asked for but tickers of `ok` and prints.
pub open spec fn asks(
    from: Seq<SpecPending>,
    to: Seq<SpecPending>,
    ok: spec_fn(Seq<char>) -> bool,
) -> bool {
    &&& from.len() <= to.len()
    &&& forall|i: int| 0 <= i < from.len() ==> #[trigger] to[i] == from[i]
    &&& forall|i: int|
        from.len() <= i < to.len() ==> (ticker_asked(#[trigger] to[i]) matches Some(t) ==> ok(t))
}

spec fn good<T>(r: Run, x: Meaning<T>, ok: spec_fn(Seq<char>) -> bool) -> bool {
    x is Out || asks(r.asked, soundness::end_of(x).asked, ok)
}

/// The tickers that stand in an expression are among `ok`.
spec fn only(e: SpecExpr, ok: spec_fn(Seq<char>) -> bool) -> bool {
    forall|t: Seq<char>| #[trigger] parts::within(parts::ticker(t), e, true) ==> ok(t)
}

spec fn only_stmt(s: SpecStmt, ok: spec_fn(Seq<char>) -> bool) -> bool {
    forall|t: Seq<char>| #[trigger] parts::within_stmt(parts::ticker(t), s) ==> ok(t)
}

spec fn only_body(ss: Seq<SpecStmt>, ok: spec_fn(Seq<char>) -> bool) -> bool {
    forall|i: int| 0 <= i < ss.len() ==> only_stmt(#[trigger] ss[i], ok)
}

spec fn only_all(es: Seq<SpecExpr>, ok: spec_fn(Seq<char>) -> bool) -> bool {
    forall|i: int| 0 <= i < es.len() ==> only(#[trigger] es[i], ok)
}

proof fn lemma_only_part(e: SpecExpr, inner: SpecExpr, ok: spec_fn(Seq<char>) -> bool)
    requires
        only(e, ok),
        forall|t: Seq<char>| #[trigger]
            parts::within(parts::ticker(t), inner, true) ==> parts::within(
                parts::ticker(t),
                e,
                true,
            ),
    ensures
        only(inner, ok),
{
}

proof fn lemma_only_body(ss: Seq<SpecStmt>, ok: spec_fn(Seq<char>) -> bool)
    requires
        forall|t: Seq<char>| #[trigger] parts::within_body(parts::ticker(t), ss) ==> ok(t),
    ensures
        only_body(ss, ok),
{
    assert forall|i: int| 0 <= i < ss.len() implies only_stmt(#[trigger] ss[i], ok) by {
        assert forall|t: Seq<char>| #[trigger]
            parts::within_stmt(parts::ticker(t), ss[i]) implies ok(t) by {
            assert(parts::within_body(parts::ticker(t), ss));
        }
    }
}

proof fn ask_fetched(r: Run, p: SpecPending, ok: spec_fn(Seq<char>) -> bool, fuel: nat)
    requires
        ticker_asked(p) matches Some(t) ==> ok(t),
    ensures
        good(r, semantics::fetched(r, p, fuel), ok),
    decreases fuel,
{
    if fuel > 0 && r.replies.len() > 0 {
        let (st, control) = machine::reply_step(r.st, p, r.replies[0]);
        if let SpecControl::Wait(q) = control {
            ask_fetched(
                semantics::with_st(semantics::after_asking(r, p), st),
                q,
                ok,
                (fuel - 1) as nat,
            );
        }
    }
}

proof fn ask_eval(
    m: NumberModel,
    r: Run,
    e: SpecExpr,
    ok: spec_fn(Seq<char>) -> bool,
    fuel: nat,
)
    requires
        effects::functions_pure(r.st),
        only(e, ok),
    ensures
        good(r, semantics::eval(m, r, e, fuel), ok),
    decreases fuel,
{
    if fuel > 0 {
        let f = (fuel - 1) as nat;
        match e {
            SpecExpr::Field { base, .. } => {
                lemma_only_part(e, *base, ok);
                ask_eval(m, r, *base, ok, f);
            },
            SpecExpr::Subset { base, name } => match dag::ticker_of(e) {
                Some(t) => {
                    assert(graph::CLASS_T@ == "t"@);
                    assert(e == parts::ticker(t));
                    assert(parts::within(parts::ticker(t), e, true));
                    ask_fetched(r, SpecPending::Directory(t), ok, f);
                },
                None => {
                    lemma_only_part(e, *base, ok);
                    ask_eval(m, r, *base, ok, f);
                },
            },
            SpecExpr::Binary { lhs, rhs, .. } => {
                lemma_only_part(e, *lhs, ok);
                lemma_only_part(e, *rhs, ok);
                ask_eval(m, r, *lhs, ok, f);
                effects::keep_eval(m, r, *lhs, f);
                if let Meaning::Is(_, r1) = semantics::eval(m, r, *lhs, f) {
                    ask_eval(m, r1, *rhs, ok, f);
                }
            },
            SpecExpr::If { condition, then_branch, else_branch } => {
                lemma_only_part(e, *condition, ok);
                lemma_only_part(e, *then_branch, ok);
                lemma_only_part(e, *else_branch, ok);
                ask_eval(m, r, *condition, ok, f);
                effects::keep_eval(m, r, *condition, f);
                if let Meaning::Is(_, r1) = semantics::eval(m, r, *condition, f) {
                    ask_eval(m, r1, *then_branch, ok, f);
                    ask_eval(m, r1, *else_branch, ok, f);
                }
            },
            SpecExpr::Call { name, args } => {
                assert forall|i: int| 0 <= i < args.len() implies only(#[trigger] args[i], ok) by {
                    lemma_only_part(e, args[i], ok);
                }
                if let Ok(c) = machine::callee(r.st, name, args.len()) {
                    if let SpecCallee::Function(g) = c {
                        names::lemma_find(r.st.functions, name, 0);
                    }
                    ask_applied(m, r, c, Seq::empty(), args, ok, f);
                }
            },
            SpecExpr::Unsafe { body } => {
                let inside = semantics::with_st(
                    r,
                    machine::enter(SpecState { in_unsafe: true, ..r.st }),
                );
                assert(effects::functions_pure(inside.st));
                assert forall|t: Seq<char>| #[trigger]
                    parts::within_body(parts::ticker(t), body) implies ok(t) by {
                    assert(parts::within(parts::ticker(t), e, true));
                }
                lemma_only_body(body, ok);
                ask_run(m, inside, body, 0, ok, f);
            },
            _ => {},
        }
    }
}

proof fn ask_applied(
    m: NumberModel,
    r: Run,
    c: SpecCallee,
    done: Seq<SpecValue>,
    args: Seq<SpecExpr>,
    ok: spec_fn(Seq<char>) -> bool,
    fuel: nat,
)
    requires
        effects::functions_pure(r.st),
        only_all(args, ok),
        c matches SpecCallee::Function(g) ==> purity::pure_body(g.body),
    ensures
        good(r, semantics::applied(m, r, c, done, args, fuel), ok),
    decreases fuel,
{
    if fuel > 0 {
        let f = (fuel - 1) as nat;
        if done.len() < args.len() {
            let e = args[done.len() as int];
            assert(only(e, ok));
            ask_eval(m, r, e, ok, f);
            effects::keep_eval(m, r, e, f);
            if let Meaning::Is(v, r1) = semantics::eval(m, r, e, f) {
                ask_applied(m, r1, c, done.push(v), args, ok, f);
            }
        } else if let SpecCallee::Function(g) = c {
            let env = seq![machine::arguments(g.params, done, g.params.len() as int)];
            let inside = semantics::with_st(r, machine::with_env(r.st, env));
            assert(effects::functions_pure(inside.st));
            effects::silent_run(m, inside, g.body, 0, f);
        }
    }
}

proof fn ask_exec(
    m: NumberModel,
    r: Run,
    s: SpecStmt,
    ok: spec_fn(Seq<char>) -> bool,
    fuel: nat,
)
    requires
        effects::functions_pure(r.st),
        only_stmt(s, ok),
    ensures
        good(r, semantics::exec(m, r, s, fuel), ok),
    decreases fuel,
{
    if fuel > 0 {
        let f = (fuel - 1) as nat;
        match s {
            SpecStmt::Assign { name, value, mutable } => {
                assert forall|t: Seq<char>| #[trigger]
                    parts::within(parts::ticker(t), value, true) implies ok(t) by {
                    assert(parts::within_stmt(parts::ticker(t), s));
                }
                if f > 0 {
                    if let SpecControl::Eval(e) = machine::source(m, r.st, name, value) {
                        if let SpecExpr::Call { args, .. } = value {
                            if e != value {
                                lemma_only_part(value, args[0], ok);
                            }
                        }
                        ask_eval(m, r, e, ok, (f - 1) as nat);
                    }
                }
            },
            SpecStmt::While { condition, body } => {
                assert forall|t: Seq<char>| #[trigger]
                    parts::within(parts::ticker(t), condition, true) implies ok(t) by {
                    assert(parts::within_stmt(parts::ticker(t), s));
                }
                assert forall|t: Seq<char>| #[trigger]
                    parts::within_body(parts::ticker(t), body) implies ok(t) by {
                    assert(parts::within_stmt(parts::ticker(t), s));
                }
                lemma_only_body(body, ok);
                ask_looped(m, r, condition, body, ok, f);
            },
            SpecStmt::Print(es) => {
                assert forall|i: int| 0 <= i < es.len() implies only(#[trigger] es[i], ok) by {
                    assert forall|t: Seq<char>| #[trigger]
                        parts::within(parts::ticker(t), es[i], true) implies ok(t) by {
                        assert(parts::within_stmt(parts::ticker(t), s));
                    }
                }
                ask_printed(m, r, Seq::empty(), es, 0, ok, f);
            },
            SpecStmt::Return(e) => {
                assert forall|t: Seq<char>| #[trigger]
                    parts::within(parts::ticker(t), e, true) implies ok(t) by {
                    assert(parts::within_stmt(parts::ticker(t), s));
                }
                ask_eval(m, r, e, ok, f);
            },
            SpecStmt::FnDef { .. } => {},
        }
    }
}

proof fn ask_looped(
    m: NumberModel,
    r: Run,
    c: SpecExpr,
    body: Seq<SpecStmt>,
    ok: spec_fn(Seq<char>) -> bool,
    fuel: nat,
)
    requires
        effects::functions_pure(r.st),
        only(c, ok),
        only_body(body, ok),
    ensures
        good(r, semantics::looped(m, r, c, body, fuel), ok),
    decreases fuel,
{
    if fuel > 0 {
        let f = (fuel - 1) as nat;
        ask_eval(m, r, c, ok, f);
        effects::keep_eval(m, r, c, f);
        if let Meaning::Is(v, r1) = semantics::eval(m, r, c, f) {
            let inside = semantics::with_st(r1, machine::enter(r1.st));
            assert(effects::functions_pure(inside.st));
            ask_run(m, inside, body, 0, ok, f);
            effects::keep_run(m, inside, body, 0, f);
            if let Meaning::Is(flow, r2) = semantics::body_run(m, inside, body, 0, f) {
                let r3 = semantics::with_st(r2, machine::leave(r2.st));
                assert(effects::functions_pure(r3.st));
                ask_looped(m, r3, c, body, ok, f);
            }
        }
    }
}

proof fn ask_printed(
    m: NumberModel,
    r: Run,
    out: Seq<char>,
    es: Seq<SpecExpr>,
    i: int,
    ok: spec_fn(Seq<char>) -> bool,
    fuel: nat,
)
    requires
        effects::functions_pure(r.st),
        only_all(es, ok),
    ensures
        good(r, semantics::printed(m, r, out, es, i, fuel), ok),
    decreases fuel,
{
    if fuel > 0 && 0 <= i < es.len() {
        let f = (fuel - 1) as nat;
        assert(only(es[i], ok));
        ask_eval(m, r, es[i], ok, f);
        effects::keep_eval(m, r, es[i], f);
        if let Meaning::Is(v, r1) = semantics::eval(m, r, es[i], f) {
            ask_printed(m, r1, out + value::value_text(m, v), es, i + 1, ok, f);
        }
    }
}

proof fn ask_run(
    m: NumberModel,
    r: Run,
    ss: Seq<SpecStmt>,
    i: int,
    ok: spec_fn(Seq<char>) -> bool,
    fuel: nat,
)
    requires
        effects::functions_pure(r.st),
        only_body(ss, ok),
    ensures
        good(r, semantics::body_run(m, r, ss, i, fuel), ok),
    decreases fuel,
{
    if fuel > 0 && 0 <= i < ss.len() {
        let f = (fuel - 1) as nat;
        assert(only_stmt(ss[i], ok));
        ask_exec(m, r, ss[i], ok, f);
        effects::keep_exec(m, r, ss[i], f);
        if let Meaning::Is(flow, r1) = semantics::exec(m, r, ss[i], f) {
            ask_run(m, r1, ss, i + 1, ok, f);
        }
    }
}

proof fn ask_program(
    m: NumberModel,
    r: Run,
    prog: Seq<SpecStmt>,
    i: int,
    ok: spec_fn(Seq<char>) -> bool,
    fuel: nat,
)
    requires
        effects::functions_pure(r.st),
        only_body(prog, ok),
    ensures
        good(r, semantics::program_run(m, r, prog, i, fuel), ok),
    decreases fuel,
{
    if fuel > 0 && 0 <= i < prog.len() {
        let f = (fuel - 1) as nat;
        assert(only_stmt(prog[i], ok));
        ask_exec(m, r, prog[i], ok, f);
        effects::keep_exec(m, r, prog[i], f);
        if let Meaning::Is(flow, r1) = semantics::exec(m, r, prog[i], f) {
            ask_program(m, r1, prog, i + 1, ok, f);
        }
    }
}

/// Every ticker that a run asks the outside world for is one of the tickers of
/// the program.
pub proof fn law_runs_fetch_the_tickers_of_the_program(
    m: NumberModel,
    r: Run,
    prog: Seq<SpecStmt>,
    fuel: nat,
)
    requires
        effects::functions_pure(r.st),
        semantics::program_run(m, r, prog, 0, fuel) !is Out,
    ensures
        asks(
            r.asked,
            soundness::end_of(semantics::program_run(m, r, prog, 0, fuel)).asked,
            |t: Seq<char>| purity::tickers_of(prog).contains(t),
        ),
{
    let ok = |t: Seq<char>| purity::tickers_of(prog).contains(t);
    assert forall|t: Seq<char>| #[trigger]
        parts::within_body(parts::ticker(t), prog) implies ok(t) by {
        parts::law_tickers_stand_in_the_program(prog, t);
    }
    lemma_only_body(prog, ok);
    ask_program(m, r, prog, 0, ok, fuel);
}

/// What is asked for to fetch a ticker. The directory comes first and the document
/// last. In between, the script is run, unless the ticker was fetched before the
/// run and its file is there.
pub open spec fn protocol(t: Seq<char>, prefetched: bool, there: bool) -> Seq<SpecPending> {
    if !prefetched {
        seq![SpecPending::Directory(t), SpecPending::Script(t), SpecPending::Document(t)]
    } else if there {
        seq![SpecPending::Directory(t), SpecPending::File(t), SpecPending::Document(t)]
    } else {
        seq![
            SpecPending::Directory(t),
            SpecPending::File(t),
            SpecPending::Script(t),
            SpecPending::Document(t),
        ]
    }
}

/// A ticker that is marked as fetched before the run is one of those that are, and
/// no other becomes one.
pub proof fn law_marked_tickers_are_known(out: Seq<Seq<char>>, t: Seq<char>, x: Seq<char>)
    ensures
        purity::with_new(out, seq![t]).contains(x) <==> out.contains(x) || x == t,
{
    let ns = seq![t];
    assert(ns.drop_last() =~= Seq::<Seq<char>>::empty());
    assert(purity::with_new(out, ns.drop_last()) == out);
    if !out.contains(t) {
        let after = out.push(t);
        assert(purity::with_new(out, ns) == after);
        assert(after[out.len() as int] == t);
        if out.contains(x) {
            assert(after[out.index_of(x)] == x);
        }
        if after.contains(x) && x != t {
            assert(out[after.index_of(x)] == x);
        }
    }
}

/// Fetching a ticker gives a value if and only if all that is asked for is done
/// and the document is JSON. It gives the whole document; the name of the ticker
/// stands for it, and cannot be changed; every other name stands for what it did.
pub proof fn law_fetching(r: Run, t: Seq<char>, other: Seq<char>, fuel: nat)
    requires
        r.st.env.len() > 0,
        r.replies.len() >= 4,
        fuel >= 4,
        other != t,
    ensures
        ({
            let prefetched = r.st.prefetched.contains(t);
            let there = r.replies[1].outcome == Outcome::Done;
            let plan = protocol(t, prefetched, there);
            let n = plan.len();
            let last = r.replies[n - 1];
            let done = forall|i: int|
                0 <= i < n && plan[i] !is File ==> (#[trigger] r.replies[i]).outcome
                    == Outcome::Done;
            let v = SpecValue::Subsets(SpecJson { text: last.text, pointer: Seq::empty() });
            match semantics::fetched(r, SpecPending::Directory(t), fuel) {
                Meaning::Is(x, end) => {
                    &&& done && json::json_fault(last.text) is None
                    &&& x == v
                    &&& end.asked == r.asked + plan
                    &&& end.replies == r.replies.skip(n as int)
                    &&& names::lookup_in(end.st.env, t) == Some(
                        SpecBinding { value: v, mutable: false },
                    )
                    &&& names::lookup_in(end.st.env, other) == names::lookup_in(r.st.env, other)
                },
                Meaning::Wrong(_, end) => {
                    &&& !(done && json::json_fault(last.text) is None)
                    &&& end.st == r.st
                },
                Meaning::Out => false,
            }
        }),
{
    let prefetched = r.st.prefetched.contains(t);
    let there = r.replies[1].outcome == Outcome::Done;
    let plan = protocol(t, prefetched, there);
    let n = plan.len() as int;
    let st = r.st;
    reveal_with_fuel(semantics::fetched, 5);
    let rest = r.replies.drop_first();
    assert(rest[0] == r.replies[1]);
    assert(rest.drop_first()[0] == r.replies[2]);
    assert(rest.drop_first().drop_first()[0] == r.replies[3]);
    let x = semantics::fetched(r, SpecPending::Directory(t), fuel);
    assert(r.replies.skip(3) =~= rest.drop_first().drop_first());
    assert(r.replies.skip(4) =~= rest.drop_first().drop_first().drop_first());
    assert(r.asked.push(plan[0]).push(plan[1]).push(plan[2]) =~= r.asked + plan.take(3));
    assert(plan.len() == 4 ==> r.asked.push(plan[0]).push(plan[1]).push(plan[2]).push(plan[3])
        =~= r.asked + plan);
    assert(plan.len() == 3 ==> plan.take(3) =~= plan);
    let last = r.replies[n - 1];
    let v = SpecValue::Subsets(SpecJson { text: last.text, pointer: Seq::empty() });
    lemma_declared(st, t, SpecBinding { value: v, mutable: false }, other);
    if let Meaning::Is(y, end) = x {
        assert(end.st == machine::declare(st, t, SpecBinding { value: v, mutable: false }));
    }
}

proof fn lemma_declared(st: SpecState, name: Seq<char>, b: SpecBinding, other: Seq<char>)
    requires
        st.env.len() > 0,
        other != name,
    ensures
        names::lookup_in(machine::declare(st, name, b).env, name) == Some(b),
        names::lookup_in(machine::declare(st, name, b).env, other) == names::lookup_in(
            st.env,
            other,
        ),
{
    let env = machine::declare(st, name, b).env;
    let n = st.env.len() as int;
    names::law_put(st.env[n - 1], name, b, other);
    assert(names::scope_of(env, name, n) == n);
    lemma_same_scopes(st.env, env, other, n);
}

proof fn lemma_same_scopes(
    a: Seq<Seq<(Seq<char>, SpecBinding)>>,
    b: Seq<Seq<(Seq<char>, SpecBinding)>>,
    name: Seq<char>,
    n: int,
)
    requires
        a.len() == b.len(),
        n <= a.len(),
        forall|i: int|
            0 <= i < a.len() ==> names::lookup(#[trigger] a[i], name) == names::lookup(b[i], name),
    ensures
        names::scope_of(a, name, n) == names::scope_of(b, name, n),
        n == a.len() ==> names::lookup_in(a, name) == names::lookup_in(b, name),
    decreases n,
{
    if n > 0 {
        assert(names::lookup(a[n - 1], name) == names::lookup(b[n - 1], name));
        lemma_same_scopes(a, b, name, n - 1);
    }
    if n == a.len() {
        names::lemma_scope_of(a, name, n);
        let k = names::scope_of(a, name, n);
        if k > 0 {
            assert(names::lookup(a[k - 1], name) == names::lookup(b[k - 1], name));
        }
    }
}

/// A text is printed as it is, and a number as it is shown.
pub proof fn law_texts(m: NumberModel, n: Bits, s: Seq<char>)
    ensures
        value::value_text(m, SpecValue::Number(n)) == (m.show)(n),
        value::value_text(m, SpecValue::Str(s)) == s,
{
}

/// The texts of values, one after the other.
pub open spec fn texts(m: NumberModel, vs: Seq<SpecValue>) -> Seq<char>
    decreases vs.len(),
{
    if vs.len() == 0 {
        Seq::empty()
    } else {
        texts(m, vs.drop_last()) + value::value_text(m, vs.last())
    }
}

proof fn print_from(
    m: NumberModel,
    r: Run,
    es: Seq<SpecExpr>,
    vs: Seq<SpecValue>,
    i: int,
    k: nat,
    fuel: nat,
)
    requires
        0 <= i <= es.len(),
        es.len() == vs.len(),
        r.replies.len() > 0,
        fuel > k + es.len() - i,
        forall|j: int|
            0 <= j < es.len() ==> semantics::eval(m, r, #[trigger] es[j], k) == Meaning::Is(
                vs[j],
                r,
            ),
    ensures
        semantics::printed(m, r, texts(m, vs.take(i)), es, i, fuel) == Meaning::Is(
            SpecFlow::Normal,
            semantics::after_asking(r, SpecPending::Print(texts(m, vs))),
        ),
    decreases es.len() - i,
{
    if i < es.len() {
        let f = (fuel - 1) as nat;
        assert(semantics::eval(m, r, es[i], k) == Meaning::Is(vs[i], r));
        adequacy::more_eval(m, r, es[i], k, f);
        assert(vs.take(i + 1).drop_last() =~= vs.take(i));
        assert(texts(m, vs.take(i + 1)) == texts(m, vs.take(i)) + value::value_text(m, vs[i]));
        print_from(m, r, es, vs, i + 1, k, f);
    } else {
        assert(vs.take(i) =~= vs);
    }
}

/// `print` prints once: the texts of its values, one after the other.
pub proof fn law_printing(
    m: NumberModel,
    r: Run,
    es: Seq<SpecExpr>,
    vs: Seq<SpecValue>,
    k: nat,
    fuel: nat,
)
    requires
        es.len() == vs.len(),
        r.replies.len() > 0,
        fuel > k + es.len() + 1,
        forall|j: int|
            0 <= j < es.len() ==> semantics::eval(m, r, #[trigger] es[j], k) == Meaning::Is(
                vs[j],
                r,
            ),
    ensures
        semantics::exec(m, r, SpecStmt::Print(es), fuel) == Meaning::Is(
            SpecFlow::Normal,
            semantics::after_asking(r, SpecPending::Print(texts(m, vs))),
        ),
{
    assert(vs.take(0) =~= Seq::empty());
    print_from(m, r, es, vs, 0, k, (fuel - 1) as nat);
}

} // verus!
