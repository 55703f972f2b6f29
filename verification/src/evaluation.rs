//! In which order things happen, and what does not happen.

#[allow(unused_imports)]
use crate::adequacy;
#[allow(unused_imports)]
use crate::ast::{BinOp, SpecExpr, SpecStmt};
#[allow(unused_imports)]
use crate::exactness::{self, real_of};
#[allow(unused_imports)]
use crate::graph;
#[allow(unused_imports)]
use crate::machine::{self, SpecCallee, SpecFlow, SpecFn, SpecPending, SpecState};
#[allow(unused_imports)]
use crate::machine_laws;
#[allow(unused_imports)]
use crate::names;
#[allow(unused_imports)]
use crate::number::{self, Bits, NumberModel};
#[allow(unused_imports)]
use crate::parts;
#[allow(unused_imports)]
use crate::semantics::{self, Meaning, Run};
#[allow(unused_imports)]
use crate::soundness;
#[allow(unused_imports)]
use crate::value::{self, SpecBinding, SpecValue};
use vstd::prelude::*;

verus! {

// ---- expressions ------------------------------------------------------

/// The left operand comes first: where it goes wrong, or is no number, the right
/// one is not looked at.
pub proof fn law_left_comes_first(
    m: NumberModel,
    r: Run,
    op: BinOp,
    lhs: SpecExpr,
    rhs: SpecExpr,
    fuel: nat,
)
    ensures
        ({
            let e = SpecExpr::Binary { op, lhs: Box::new(lhs), rhs: Box::new(rhs) };
            let whole = semantics::eval(m, r, e, fuel + 1);
            match semantics::eval(m, r, lhs, fuel) {
                Meaning::Wrong(x, r1) => whole == Meaning::<SpecValue>::Wrong(x, r1),
                Meaning::Is(v, r1) => match (v, semantics::eval(m, r1, rhs, fuel)) {
                    (SpecValue::Number(_), Meaning::Wrong(x, r2)) => whole == Meaning::<
                        SpecValue,
                    >::Wrong(x, r2),
                    (SpecValue::Number(_), Meaning::Is(SpecValue::Number(_), _)) => true,
                    (SpecValue::Number(_), Meaning::Is(_, r2)) => whole matches Meaning::Wrong(
                        _,
                        end,
                    ) && end == r2,
                    (SpecValue::Number(_), Meaning::Out) => whole is Out,
                    _ => whole matches Meaning::Wrong(_, end) && end == r1,
                },
                Meaning::Out => whole is Out,
            }
        }),
{
}

/// A condition that is zero, of either sign, chooses the second branch, and any
/// other number, NaN too, the first. The other branch is not looked at.
pub proof fn law_conditions_choose(
    m: NumberModel,
    r: Run,
    condition: SpecExpr,
    a: SpecExpr,
    b: SpecExpr,
    fuel: nat,
)
    ensures
        ({
            let e = SpecExpr::If {
                condition: Box::new(condition),
                then_branch: Box::new(a),
                else_branch: Box::new(b),
            };
            let whole = semantics::eval(m, r, e, fuel + 1);
            match semantics::eval(m, r, condition, fuel) {
                Meaning::Is(SpecValue::Number(n), r1) => if number::is_finite(n) && real_of(n)
                    == 0 as real {
                    whole == semantics::eval(m, r1, b, fuel)
                } else {
                    whole == semantics::eval(m, r1, a, fuel)
                },
                Meaning::Is(_, r1) => whole matches Meaning::Wrong(_, end) && end == r1,
                Meaning::Wrong(x, r1) => whole == Meaning::<SpecValue>::Wrong(x, r1),
                Meaning::Out => whole is Out,
            }
        }),
{
    if let Meaning::Is(SpecValue::Number(n), r1) = semantics::eval(m, r, condition, fuel) {
        exactness::law_order(n, n);
    }
}

/// What is called is looked for first: where there is no such function, or it takes
/// another number of arguments, no argument is looked at. The arguments come in
/// order: where one goes wrong, those after it are not looked at.
pub proof fn law_calls_begin_with_the_name(
    m: NumberModel,
    r: Run,
    name: Seq<char>,
    args: Seq<SpecExpr>,
    fuel: nat,
)
    requires
        fuel >= 2,
    ensures
        ({
            let whole = semantics::eval(m, r, SpecExpr::Call { name, args }, fuel);
            let native = names::lookup(r.st.natives, name);
            let own = names::lookup(r.st.functions, name);
            let fits = native is Some || (own matches Some(f) && f.params.len() == args.len());
            &&& !fits ==> (whole matches Meaning::Wrong(_, end) && end == r)
            &&& fits && args.len() > 0 ==> (semantics::eval(
                m,
                r,
                args[0],
                (fuel - 2) as nat,
            ) matches Meaning::Wrong(x, r1) ==> whole == Meaning::<SpecValue>::Wrong(x, r1))
        }),
{
    if let Ok(c) = machine::callee(r.st, name, args.len()) {
        if args.len() > 0 {
            law_arguments_come_in_order(m, r, c, Seq::empty(), args, (fuel - 2) as nat);
        }
    }
}

/// The arguments of a call come one after the other, each where the one before it
/// has left the program.
pub proof fn law_arguments_come_in_order(
    m: NumberModel,
    r: Run,
    c: SpecCallee,
    done: Seq<SpecValue>,
    args: Seq<SpecExpr>,
    fuel: nat,
)
    requires
        done.len() < args.len(),
    ensures
        match semantics::eval(m, r, args[done.len() as int], fuel) {
            Meaning::Is(v, r1) => semantics::applied(m, r, c, done, args, fuel + 1)
                == semantics::applied(m, r1, c, done.push(v), args, fuel),
            Meaning::Wrong(x, r1) => semantics::applied(m, r, c, done, args, fuel + 1) == Meaning::<
                SpecValue,
            >::Wrong(x, r1),
            Meaning::Out => semantics::applied(m, r, c, done, args, fuel + 1) is Out,
        },
{
}

/// `t<symbol>` fetches the ticker, whatever the name `t` stands for. Any other
/// `base<name>` is `base.name`.
pub proof fn law_brackets_and_dots(
    m: NumberModel,
    r: Run,
    base: SpecExpr,
    name: Seq<char>,
    fuel: nat,
)
    ensures
        ({
            let bracket = SpecExpr::Subset { base: Box::new(base), name };
            let dot = SpecExpr::Field { base: Box::new(base), name };
            if base == SpecExpr::Var("t"@) {
                semantics::eval(m, r, bracket, fuel + 1) == semantics::fetched(
                    r,
                    SpecPending::Directory(name),
                    fuel,
                )
            } else {
                semantics::eval(m, r, bracket, fuel + 1) == semantics::eval(m, r, dot, fuel + 1)
            }
        }),
{
    assert(graph::CLASS_T@ == "t"@);
}

/// What is looked up in comes first, and where it goes wrong nothing is looked up.
pub proof fn law_bases_come_first(
    m: NumberModel,
    r: Run,
    base: SpecExpr,
    name: Seq<char>,
    fuel: nat,
)
    ensures
        ({
            let dot = SpecExpr::Field { base: Box::new(base), name };
            let whole = semantics::eval(m, r, dot, fuel + 1);
            match semantics::eval(m, r, base, fuel) {
                Meaning::Is(v, r1) => match value::subset_of(m, v, name) {
                    Ok(x) => whole == Meaning::Is(x, r1),
                    Err(x) => whole == Meaning::<SpecValue>::Wrong(x, r1),
                },
                Meaning::Wrong(x, r1) => whole == Meaning::<SpecValue>::Wrong(x, r1),
                Meaning::Out => whole is Out,
            }
        }),
{
}

// ---- statements -------------------------------------------------------

/// An assignment makes its name stand for the value that the expression gives, and
/// every other name for what it stood for where that value was given. It is refused
/// where the name is there and cannot be changed, and then changes nothing.
pub proof fn law_assignments(
    m: NumberModel,
    r: Run,
    name: Seq<char>,
    e: SpecExpr,
    mutable: bool,
    other: Seq<char>,
    fuel: nat,
)
    requires
        r.st.env.len() > 0,
        other != name,
    ensures
        ({
            let s = SpecStmt::Assign { name, value: e, mutable };
            let whole = semantics::exec(m, r, s, fuel + 1);
            match semantics::assigned_value(m, r, name, e, fuel) {
                Meaning::Is(v, r1) => match whole {
                    Meaning::Is(flow, end) => {
                        &&& flow is Normal
                        &&& names::lookup_in(end.st.env, name) matches Some(b) && b.value == v
                        &&& names::lookup_in(end.st.env, other) == names::lookup_in(
                            r1.st.env,
                            other,
                        )
                        &&& mutable ==> r1.st.in_unsafe
                        &&& !mutable ==> (names::lookup_in(r1.st.env, name) matches Some(b)
                            ==> b.mutable && r1.st.in_unsafe)
                    },
                    Meaning::Wrong(_, end) => {
                        &&& end == r1
                        &&& mutable ==> !r1.st.in_unsafe
                        &&& !mutable ==> (names::lookup_in(r1.st.env, name) matches Some(b) && !(
                        b.mutable && r1.st.in_unsafe))
                    },
                    Meaning::Out => false,
                },
                Meaning::Wrong(x, r1) => whole == Meaning::<SpecFlow>::Wrong(x, r1),
                Meaning::Out => whole is Out,
            }
        }),
{
    soundness::balanced_source(m, r, name, e, fuel);
    if let Meaning::Is(v, r1) = semantics::assigned_value(m, r, name, e, fuel) {
        if machine::assigned(r1.st, name, v, mutable) is Ok {
            machine_laws::law_assignment(r1.st, name, v, mutable, other);
        }
    }
}

/// The statements of a program run in order. A program ends where one goes wrong, or
/// returns, which is an error.
pub proof fn law_programs_run_in_order(
    m: NumberModel,
    r: Run,
    prog: Seq<SpecStmt>,
    i: int,
    fuel: nat,
)
    requires
        0 <= i <= prog.len(),
        fuel > 0,
    ensures
        i == prog.len() ==> semantics::program_run(m, r, prog, i, fuel) == Meaning::Is((), r),
        i < prog.len() ==> match semantics::exec(m, r, prog[i], (fuel - 1) as nat) {
            Meaning::Is(SpecFlow::Normal, r1) => semantics::program_run(m, r, prog, i, fuel)
                == semantics::program_run(m, r1, prog, i + 1, (fuel - 1) as nat),
            Meaning::Is(_, r1) => semantics::program_run(m, r, prog, i, fuel) matches Meaning::Wrong(
                _,
                end,
            ) && end == r1,
            Meaning::Wrong(x, r1) => semantics::program_run(m, r, prog, i, fuel) == Meaning::<
                (),
            >::Wrong(x, r1),
            Meaning::Out => semantics::program_run(m, r, prog, i, fuel) is Out,
        },
{
}

proof fn lemma_shifted(
    m: NumberModel,
    r: Run,
    a: Seq<SpecStmt>,
    b: Seq<SpecStmt>,
    j: int,
    fuel: nat,
)
    requires
        0 <= j <= b.len(),
    ensures
        semantics::body_run(m, r, a + b, a.len() + j, fuel) == semantics::body_run(
            m,
            r,
            b,
            j,
            fuel,
        ),
    decreases fuel,
{
    if fuel > 0 && j < b.len() {
        let f = (fuel - 1) as nat;
        assert((a + b)[a.len() + j] == b[j]);
        if let Meaning::Is(SpecFlow::Normal, r1) = semantics::exec(m, r, b[j], f) {
            lemma_shifted(m, r1, a, b, j + 1, f);
        }
    }
}

proof fn lemma_joined(
    m: NumberModel,
    r: Run,
    a: Seq<SpecStmt>,
    b: Seq<SpecStmt>,
    i: int,
    f: nat,
    g: nat,
)
    requires
        0 <= i <= a.len(),
        semantics::body_run(m, r, a, i, f) !is Out,
    ensures
        match semantics::body_run(m, r, a, i, f) {
            Meaning::Is(SpecFlow::Normal, r1) => semantics::body_run(m, r1, b, 0, g) !is Out
                ==> semantics::body_run(m, r, a + b, i, f + g) == semantics::body_run(
                m,
                r1,
                b,
                0,
                g,
            ),
            other => semantics::body_run(m, r, a + b, i, f + g) == other,
        },
    decreases f,
{
    let h = (f - 1) as nat;
    if i < a.len() {
        assert((a + b)[i] == a[i]);
        adequacy::more_exec(m, r, a[i], h, (f + g - 1) as nat);
        if let Meaning::Is(SpecFlow::Normal, r1) = semantics::exec(m, r, a[i], h) {
            lemma_joined(m, r1, a, b, i + 1, h, g);
            assert((f + g - 1) as nat == h + g);
        }
    } else if let Meaning::Is(SpecFlow::Normal, r1) = semantics::body_run(m, r, a, i, f) {
        if semantics::body_run(m, r1, b, 0, g) !is Out {
            adequacy::more_body(m, r, b, 0, g, f + g);
            lemma_shifted(m, r, a, b, 0, f + g);
        }
    }
}

/// Statements run one after the other: those of `b` start where those of `a` have
/// ended, and do not run where `a` returns or goes wrong.
pub proof fn law_statements_follow_each_other(
    m: NumberModel,
    r: Run,
    a: Seq<SpecStmt>,
    b: Seq<SpecStmt>,
    f: nat,
    g: nat,
)
    requires
        semantics::body_run(m, r, a, 0, f) !is Out,
    ensures
        match semantics::body_run(m, r, a, 0, f) {
            Meaning::Is(SpecFlow::Normal, r1) => semantics::body_run(m, r1, b, 0, g) !is Out
                ==> semantics::body_run(m, r, a + b, 0, f + g) == semantics::body_run(
                m,
                r1,
                b,
                0,
                g,
            ),
            other => semantics::body_run(m, r, a + b, 0, f + g) == other,
        },
{
    lemma_joined(m, r, a, b, 0, f, g);
}

/// A loop whose condition is zero is over. Otherwise its body runs in a scope of
/// its own, and the loop runs again where that has ended; or it is left, where
/// the body returns or goes wrong.
pub proof fn law_loops_repeat(
    m: NumberModel,
    r: Run,
    condition: SpecExpr,
    body: Seq<SpecStmt>,
    fuel: nat,
)
    requires
        r.st.in_unsafe,
    ensures
        ({
            let s = SpecStmt::While { condition, body };
            let whole = semantics::exec(m, r, s, fuel + 2);
            match semantics::eval(m, r, condition, fuel) {
                Meaning::Is(SpecValue::Number(n), r1) => if number::is_finite(n) && real_of(n)
                    == 0 as real {
                    whole == Meaning::Is(SpecFlow::Normal, r1)
                } else {
                    let inside = semantics::with_st(
                        r1,
                        machine::with_env(r1.st, r1.st.env.push(Seq::empty())),
                    );
                    match semantics::body_run(m, inside, body, 0, fuel) {
                        Meaning::Is(flow, r2) => {
                            let outside = semantics::with_st(
                                r2,
                                machine::with_env(r2.st, r2.st.env.drop_last()),
                            );
                            match flow {
                                SpecFlow::Normal => r2.st.in_unsafe ==> whole == semantics::exec(
                                    m,
                                    outside,
                                    s,
                                    fuel + 1,
                                ),
                                SpecFlow::Return(_) => whole == Meaning::Is(flow, outside),
                            }
                        },
                        Meaning::Wrong(x, r2) => whole == Meaning::<SpecFlow>::Wrong(
                            x,
                            semantics::with_st(
                                r2,
                                machine::with_env(r2.st, r2.st.env.drop_last()),
                            ),
                        ),
                        Meaning::Out => whole is Out,
                    }
                },
                Meaning::Is(_, r1) => whole matches Meaning::Wrong(_, end) && end == r1,
                Meaning::Wrong(x, r1) => whole == Meaning::<SpecFlow>::Wrong(x, r1),
                Meaning::Out => whole is Out,
            }
        }),
{
    if let Meaning::Is(SpecValue::Number(n), r1) = semantics::eval(m, r, condition, fuel) {
        exactness::law_order(n, n);
    }
}

/// Loops are for `[unsafe]` blocks: anywhere else one is an error, and nothing of it
/// runs.
pub proof fn law_loops_need_a_block(
    m: NumberModel,
    r: Run,
    condition: SpecExpr,
    body: Seq<SpecStmt>,
    fuel: nat,
)
    requires
        !r.st.in_unsafe,
        fuel > 0,
    ensures
        semantics::exec(m, r, SpecStmt::While { condition, body }, fuel) matches Meaning::Wrong(
            _,
            end,
        ) && end == r,
{
}

/// A block runs in a scope of its own, in which names can be changed. It gives what it
/// returns, and is an error where it does not return; either way the names stand for
/// what they did before.
pub proof fn law_blocks_have_to_return(
    m: NumberModel,
    r: Run,
    body: Seq<SpecStmt>,
    fuel: nat,
)
    ensures
        ({
            let inside = semantics::with_st(
                r,
                SpecState {
                    in_unsafe: true,
                    env: r.st.env.push(Seq::empty()),
                    ..r.st
                },
            );
            let whole = semantics::eval(m, r, SpecExpr::Unsafe { body }, fuel + 1);
            match semantics::body_run(m, inside, body, 0, fuel) {
                Meaning::Is(SpecFlow::Return(v), r1) => whole matches Meaning::Is(x, end) && x == v
                    && end.st.env == r.st.env && end.st.in_unsafe == r.st.in_unsafe && end.asked
                    == r1.asked && end.replies == r1.replies,
                Meaning::Is(SpecFlow::Normal, r1) => whole matches Meaning::Wrong(_, end)
                    && end.st.env == r.st.env && end.st.in_unsafe == r.st.in_unsafe && end.asked
                    == r1.asked,
                Meaning::Wrong(x, r1) => whole matches Meaning::Wrong(y, end) && x == y
                    && end.st.env == r.st.env && end.st.in_unsafe == r.st.in_unsafe && end.asked
                    == r1.asked,
                Meaning::Out => whole is Out,
            }
        }),
{
    let inside = semantics::with_st(r, machine::enter(SpecState { in_unsafe: true, ..r.st }));
    assert(inside.st == SpecState {
        in_unsafe: true,
        env: r.st.env.push(Seq::empty()),
        ..r.st
    });
}

/// A function is an error where it does not return.
pub proof fn law_functions_have_to_return(
    m: NumberModel,
    r: Run,
    f: SpecFn,
    values: Seq<SpecValue>,
    args: Seq<SpecExpr>,
    fuel: nat,
)
    requires
        values.len() == args.len(),
    ensures
        ({
            let scope = machine::arguments(f.params, values, f.params.len() as int);
            let inside = semantics::with_st(r, SpecState { env: seq![scope], ..r.st });
            let whole = semantics::applied(
                m,
                r,
                SpecCallee::Function(f),
                values,
                args,
                fuel + 1,
            );
            match semantics::body_run(m, inside, f.body, 0, fuel) {
                Meaning::Is(SpecFlow::Return(v), _) => whole matches Meaning::Is(x, end) && x == v
                    && end.st.env == r.st.env,
                Meaning::Is(SpecFlow::Normal, _) => whole matches Meaning::Wrong(_, end)
                    && end.st.env == r.st.env,
                Meaning::Wrong(x, _) => whole matches Meaning::Wrong(y, end) && x == y
                    && end.st.env == r.st.env,
                Meaning::Out => whole is Out,
            }
        }),
{
}

proof fn lemma_empty_scope(env: Seq<Seq<(Seq<char>, SpecBinding)>>, name: Seq<char>)
    ensures
        names::lookup_in(env.push(Seq::empty()), name) == names::lookup_in(env, name),
{
    let more = env.push(Seq::empty());
    let n = env.len() as int;
    assert(names::scope_of(more, name, n + 1) == names::scope_of(more, name, n));
    lemma_prefix_scopes(env, more, name, n);
    names::lemma_scope_of(env, name, n);
}

proof fn lemma_prefix_scopes(
    a: Seq<Seq<(Seq<char>, SpecBinding)>>,
    b: Seq<Seq<(Seq<char>, SpecBinding)>>,
    name: Seq<char>,
    n: int,
)
    requires
        n <= a.len() <= b.len(),
        forall|i: int| 0 <= i < a.len() ==> a[i] == #[trigger] b[i],
    ensures
        names::scope_of(a, name, n) == names::scope_of(b, name, n),
    decreases n,
{
    if n > 0 {
        assert(a[n - 1] == b[n - 1]);
        lemma_prefix_scopes(a, b, name, n - 1);
    }
}

/// A block that returns an expression gives what the expression gives, and leaves
/// everything as it was.
pub proof fn law_blocks_give_what_they_return(m: NumberModel, r: Run, e: SpecExpr, fuel: nat)
    requires
        parts::plain(e),
    ensures
        parts::same_outcome(
            r,
            semantics::eval(m, r, e, fuel),
            r,
            semantics::eval(
                m,
                r,
                SpecExpr::Unsafe { body: seq![SpecStmt::Return(e)] },
                fuel + 3,
            ),
        ),
{
    let body = seq![SpecStmt::Return(e)];
    let inside = semantics::with_st(r, machine::enter(SpecState { in_unsafe: true, ..r.st }));
    assert forall|name: Seq<char>| #[trigger]
        parts::within(SpecExpr::Var(name), e, false) implies machine::variable(r.st, name)
        == machine::variable(inside.st, name) by {
        lemma_empty_scope(r.st.env, name);
    }
    parts::lemma_same_outcome(m, r, inside, e, fuel);
    assert(semantics::exec(m, inside, body[0], fuel + 1) == (match semantics::eval(
        m,
        inside,
        e,
        fuel,
    ) {
        Meaning::Is(v, r1) => Meaning::Is(SpecFlow::Return(v), r1),
        Meaning::Wrong(x, r1) => Meaning::Wrong(x, r1),
        Meaning::Out => Meaning::Out,
    }));
    let flow = semantics::body_run(m, inside, body, 0, fuel + 2);
    assert(flow == semantics::exec(m, inside, body[0], fuel + 1));
    assert(SpecState { env: r.st.env, in_unsafe: r.st.in_unsafe, ..inside.st } == r.st);
}

} // verus!
