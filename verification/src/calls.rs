//! What a call hands over: its arguments, in order, and nothing else.

#[allow(unused_imports)]
use crate::ast::{SpecExpr, SpecStmt};
#[allow(unused_imports)]
use crate::machine::{self, SpecCallee, SpecFlow, SpecFn, SpecState};
#[allow(unused_imports)]
use crate::names;
#[allow(unused_imports)]
use crate::number::{Bits, NumberModel};
#[allow(unused_imports)]
use crate::purity;
#[allow(unused_imports)]
use crate::semantics::{self, Meaning, Run};
#[allow(unused_imports)]
use crate::stdlib::{self, Native};
#[allow(unused_imports)]
use crate::value::{SpecBinding, SpecValue};
use vstd::prelude::*;

verus! {

proof fn lemma_parameters(
    params: Seq<Seq<char>>,
    values: Seq<SpecValue>,
    n: int,
    i: int,
    other: Seq<char>,
)
    requires
        0 <= n <= params.len(),
        forall|j: int| 0 <= j < n ==> #[trigger] params[j] != other,
        0 <= i < n ==> forall|j: int| i < j < n ==> #[trigger] params[j] != params[i],
    ensures
        0 <= i < n ==> names::lookup(machine::arguments(params, values, n), params[i]) == Some(
            SpecBinding { value: values[i], mutable: false },
        ),
        names::lookup(machine::arguments(params, values, n), other) is None,
    decreases n,
{
    if n > 0 {
        let before = machine::arguments(params, values, n - 1);
        let b = SpecBinding { value: values[n - 1], mutable: false };
        lemma_parameters(params, values, n - 1, i, other);
        names::law_put(before, params[n - 1], b, other);
        if 0 <= i < n - 1 {
            names::law_put(before, params[n - 1], b, params[i]);
        }
    }
}

/// In the scope in which a function starts, a parameter stands for its argument
/// and cannot be changed, and no other name is there. (Of parameters with one
/// name, the last counts.)
pub proof fn law_parameters(
    params: Seq<Seq<char>>,
    values: Seq<SpecValue>,
    i: int,
    other: Seq<char>,
)
    requires
        0 <= i < params.len(),
        forall|j: int| i < j < params.len() ==> #[trigger] params[j] != params[i],
        !params.contains(other),
    ensures
        names::lookup(machine::arguments(params, values, params.len() as int), params[i]) == Some(
            SpecBinding { value: values[i], mutable: false },
        ),
        names::lookup(machine::arguments(params, values, params.len() as int), other) is None,
{
    lemma_parameters(params, values, params.len() as int, i, other);
}

/// Where the parameters have different names, each stands for its argument.
pub proof fn law_different_parameters(params: Seq<Seq<char>>, values: Seq<SpecValue>)
    requires
        params.no_duplicates(),
    ensures
        forall|i: int|
            0 <= i < params.len() ==> names::lookup(
                machine::arguments(params, values, params.len() as int),
                #[trigger] params[i],
            ) == Some(SpecBinding { value: values[i], mutable: false }),
        forall|other: Seq<char>|
            !params.contains(other) ==> #[trigger] names::lookup(
                machine::arguments(params, values, params.len() as int),
                other,
            ) is None,
{
    let n = params.len() as int;
    assert forall|other: Seq<char>| !params.contains(other) implies #[trigger] names::lookup(
        machine::arguments(params, values, n),
        other,
    ) is None by {
        lemma_parameters(params, values, n, n, other);
    }
    assert forall|i: int| 0 <= i < n implies names::lookup(
        machine::arguments(params, values, n),
        #[trigger] params[i],
    ) == Some(SpecBinding { value: values[i], mutable: false }) by {
        lemma_parameter(params, values, n, i);
    }
}

proof fn lemma_parameter(params: Seq<Seq<char>>, values: Seq<SpecValue>, n: int, i: int)
    requires
        0 <= i < n <= params.len(),
        forall|j: int| i < j < n ==> #[trigger] params[j] != params[i],
    ensures
        names::lookup(machine::arguments(params, values, n), params[i]) == Some(
            SpecBinding { value: values[i], mutable: false },
        ),
    decreases n,
{
    let before = machine::arguments(params, values, n - 1);
    let b = SpecBinding { value: values[n - 1], mutable: false };
    names::law_put(before, params[n - 1], b, params[i]);
    if i < n - 1 {
        lemma_parameter(params, values, n - 1, i);
    }
}

/// Numbers as arguments of a call.
pub open spec fn number_args(ns: Seq<Bits>) -> Seq<SpecExpr> {
    ns.map_values(|n: Bits| SpecExpr::Float(n))
}

/// Numbers as values.
pub open spec fn number_values(ns: Seq<Bits>) -> Seq<SpecValue> {
    ns.map_values(|n: Bits| SpecValue::Number(n))
}

proof fn lemma_arguments_in_order(
    m: NumberModel,
    r: Run,
    c: SpecCallee,
    ns: Seq<Bits>,
    k: int,
    fuel: nat,
)
    requires
        0 <= k <= ns.len(),
        fuel > ns.len() - k,
    ensures
        semantics::applied(m, r, c, number_values(ns).take(k), number_args(ns), fuel)
            == semantics::applied(
            m,
            r,
            c,
            number_values(ns),
            number_args(ns),
            (fuel - (ns.len() - k)) as nat,
        ),
    decreases ns.len() - k,
{
    let all = number_values(ns);
    if k < ns.len() {
        let f = (fuel - 1) as nat;
        assert(f > 0);
        assert(semantics::eval(m, r, number_args(ns)[k], f) == Meaning::Is(all[k], r));
        assert(all.take(k).push(all[k]) =~= all.take(k + 1));
        lemma_arguments_in_order(m, r, c, ns, k + 1, f);
    } else {
        assert(all.take(k) =~= all);
    }
}

/// A function that returns one of its parameters gives the argument that stands
/// in that place, and leaves everything as it was.
pub proof fn law_calls_hand_over_arguments(
    m: NumberModel,
    r: Run,
    name: Seq<char>,
    f: SpecFn,
    ns: Seq<Bits>,
    i: int,
    fuel: nat,
)
    requires
        names::lookup(r.st.natives, name) is None,
        names::lookup(r.st.functions, name) == Some(f),
        f.params.len() == ns.len(),
        0 <= i < ns.len(),
        forall|j: int| i < j < ns.len() ==> #[trigger] f.params[j] != f.params[i],
        f.body == seq![SpecStmt::Return(SpecExpr::Var(f.params[i]))],
        fuel >= ns.len() + 8,
    ensures
        semantics::eval(m, r, SpecExpr::Call { name, args: number_args(ns) }, fuel) == Meaning::Is(
            SpecValue::Number(ns[i]),
            r,
        ),
{
    let all = number_values(ns);
    let c = SpecCallee::Function(f);
    let g = (fuel - 1) as nat;
    assert(machine::callee(r.st, name, number_args(ns).len()) == Ok::<SpecCallee, Seq<char>>(c));
    lemma_arguments_in_order(m, r, c, ns, 0, g);
    assert(all.take(0) =~= Seq::empty());
    let k = (g - ns.len()) as nat;
    let scope = machine::arguments(f.params, all, f.params.len() as int);
    lemma_parameter(f.params, all, f.params.len() as int, i);
    let env = seq![scope];
    let inside = semantics::with_st(r, machine::with_env(r.st, env));
    names::lemma_scope_of(env, f.params[i], 1);
    reveal_with_fuel(names::scope_of, 2);
    assert(names::lookup_in(env, f.params[i]) == names::lookup(scope, f.params[i]));
    assert(semantics::eval(m, inside, SpecExpr::Var(f.params[i]), (k - 3) as nat)
        == Meaning::Is(all[i], inside));
    assert(semantics::exec(m, inside, f.body[0], (k - 2) as nat) == Meaning::Is(
        SpecFlow::Return(all[i]),
        inside,
    ));
    assert(semantics::body_run(m, inside, f.body, 0, (k - 1) as nat) == Meaning::Is(
        SpecFlow::Return(all[i]),
        inside,
    ));
    assert(semantics::with_st(inside, machine::with_env(inside.st, r.st.env)) == r);
}

/// A function sees its parameters and nothing else: any other name, whatever it
/// stands for where the function is called, is undefined in it.
pub proof fn law_functions_see_their_parameters(
    m: NumberModel,
    r: Run,
    f: SpecFn,
    values: Seq<SpecValue>,
    args: Seq<SpecExpr>,
    other: Seq<char>,
    fuel: nat,
)
    requires
        values.len() == args.len(),
        !f.params.contains(other),
        f.body == seq![SpecStmt::Return(SpecExpr::Var(other))],
        fuel >= 6,
    ensures
        semantics::applied(m, r, SpecCallee::Function(f), values, args, fuel) == Meaning::<
            SpecValue,
        >::Wrong("undefined variable `"@ + other + "`"@, r),
{
    let n = f.params.len() as int;
    let scope = machine::arguments(f.params, values, n);
    lemma_parameters(f.params, values, n, n, other);
    let env = seq![scope];
    let inside = semantics::with_st(r, machine::with_env(r.st, env));
    names::lemma_scope_of(env, other, 1);
    assert(names::lookup_in(env, other) is None);
    let x = "undefined variable `"@ + other + "`"@;
    assert(semantics::eval(m, inside, SpecExpr::Var(other), (fuel - 4) as nat)
        == Meaning::<SpecValue>::Wrong(x, inside));
    assert(semantics::exec(m, inside, f.body[0], (fuel - 3) as nat) == Meaning::<SpecFlow>::Wrong(
        x,
        inside,
    ));
    assert(semantics::body_run(m, inside, f.body, 0, (fuel - 1) as nat) == Meaning::<
        SpecFlow,
    >::Wrong(x, inside)) by {
        reveal_with_fuel(semantics::body_run, 2);
        assert(semantics::exec(m, inside, f.body[0], (fuel - 2) as nat) == Meaning::<
            SpecFlow,
        >::Wrong(x, inside)) by {
            assert(semantics::eval(m, inside, SpecExpr::Var(other), (fuel - 3) as nat)
                == Meaning::<SpecValue>::Wrong(x, inside));
        }
    }
    assert(semantics::with_st(inside, machine::with_env(inside.st, r.st.env)) == r);
}

/// A prewritten function is given the arguments in order, and comes before a
/// function of the program with its name.
pub proof fn law_prewritten_functions_come_first(
    m: NumberModel,
    r: Run,
    name: Seq<char>,
    g: Native,
    ns: Seq<Bits>,
    fuel: nat,
)
    requires
        names::lookup(r.st.natives, name) == Some(g),
        fuel >= ns.len() + 3,
    ensures
        semantics::eval(m, r, SpecExpr::Call { name, args: number_args(ns) }, fuel)
            == semantics::outcome(stdlib::native_result(m, g, number_values(ns)), r),
{
    let c = SpecCallee::Native(g);
    lemma_arguments_in_order(m, r, c, ns, 0, (fuel - 1) as nat);
    assert(number_values(ns).take(0) =~= Seq::empty());
}

/// A definition makes its name call the new function, whatever it called before, and
/// changes nothing else. A body that is not pure is refused, and nothing changes.
pub proof fn law_definitions(
    m: NumberModel,
    r: Run,
    name: Seq<char>,
    params: Seq<Seq<char>>,
    body: Seq<SpecStmt>,
    other: Seq<char>,
    fuel: nat,
)
    requires
        fuel > 0,
        other != name,
    ensures
        match semantics::exec(m, r, SpecStmt::FnDef { name, params, body }, fuel) {
            Meaning::Is(flow, end) => {
                &&& purity::pure_body(body)
                &&& flow is Normal
                &&& names::lookup(end.st.functions, name) == Some(SpecFn { params, body })
                &&& names::lookup(end.st.functions, other) == names::lookup(r.st.functions, other)
                &&& end == (Run {
                    st: SpecState { functions: end.st.functions, ..r.st },
                    ..r
                })
            },
            Meaning::Wrong(_, end) => !purity::pure_body(body) && end == r,
            Meaning::Out => false,
        },
{
    purity::law_check_is_purity(body);
    names::law_put(r.st.functions, name, SpecFn { params, body }, other);
}

} // verus!
