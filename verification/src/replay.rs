//! A saved program does what the program does that it was saved for.

#[allow(unused_imports)]
use crate::adequacy;
#[allow(unused_imports)]
use crate::ast::{SpecExpr, SpecStmt};
#[allow(unused_imports)]
use crate::dag;
#[allow(unused_imports)]
use crate::dag_laws;
#[allow(unused_imports)]
use crate::effects;
#[allow(unused_imports)]
use crate::formulas;
#[allow(unused_imports)]
use crate::grammar;
#[allow(unused_imports)]
use crate::graph::{self, SpecDag, SpecLit, SpecOperation};
#[allow(unused_imports)]
use crate::lexer;
#[allow(unused_imports)]
use crate::machine::{self, SpecControl, SpecFlow, SpecState};
#[allow(unused_imports)]
use crate::names;
#[allow(unused_imports)]
use crate::number::{self, NumberModel};
#[allow(unused_imports)]
use crate::purity;
#[allow(unused_imports)]
use crate::reading::{files, saved, trees};
#[allow(unused_imports)]
use crate::render;
#[allow(unused_imports)]
use crate::rereading;
#[allow(unused_imports)]
use crate::semantics::{self, Meaning, Run};
#[allow(unused_imports)]
use crate::soundness;
#[allow(unused_imports)]
use crate::spelling;
#[allow(unused_imports)]
use crate::trace::{self, SpecScope};
#[allow(unused_imports)]
use crate::value;
use vstd::prelude::*;

verus! {

/// Whether the param that stands in for a literal, if the statement assigns
/// one, is overridden with what the literal is.
pub open spec fn override_given(m: NumberModel, st: SpecState, s: SpecStmt) -> bool {
    match s {
        SpecStmt::Assign { name, value, .. } => dag::is_literal(value) ==> match names::lookup(
            st.params,
            name,
        ) {
            Some(raw) => formulas::value_in(m, Seq::empty(), value) == Ok::<_, Seq<char>>(
                value::param_value(m, raw),
            ),
            None => false,
        },
        _ => true,
    }
}

/// Every param is overridden with what it was in the program.
pub open spec fn overrides_given(m: NumberModel, st: SpecState, prog: Seq<SpecStmt>) -> bool {
    forall|i: int| 0 <= i < prog.len() ==> override_given(m, st, #[trigger] prog[i])
}

/// Whether a statement is replaced by a value or a formula.
pub open spec fn replaced(m: NumberModel, d: SpecDag, s: SpecStmt) -> bool {
    s matches SpecStmt::Assign { value, mutable, .. } && match dag::operation_of(
        m,
        d,
        value,
        mutable,
    ) {
        SpecOperation::Fixed { value: v, .. } => render::has_source(graph::lit_expr(v)),
        SpecOperation::Formula { expr, .. } => render::has_source(expr),
        _ => false,
    }
}

/// Whether the right-hand side of a statement, when it runs, does nothing but
/// compute a value.
pub open spec fn only_computes(m: NumberModel, r: Run, s: SpecStmt, fuel: nat) -> bool {
    s matches SpecStmt::Assign { name, value, .. } ==> fuel > 0 ==> (semantics::assigned_value(
        m,
        r,
        name,
        value,
        (fuel - 1) as nat,
    ) matches Meaning::Is(_, r1) ==> r1 == r)
}

/// Whether what is replaced by a value or a formula does nothing but compute it
/// in a run of the program.
pub open spec fn program_replaceable(
    m: NumberModel,
    r: Run,
    prog: Seq<SpecStmt>,
    fuel: nat,
) -> bool {
    forall|i: int|
        #![trigger prog[i]]
        0 <= i < prog.len() && replaced(m, dag::dag_of(m, prog, i), prog[i]) ==> (soundness::ran(
            m,
            r,
            prog,
            i,
            fuel,
        ) matches Some(r1) ==> only_computes(m, r1, prog[i], fuel))
}

/// The fuel that the first `n` statements of a saved program may need beyond
/// that of the program.
pub open spec fn effort(d: SpecDag, prog: Seq<SpecStmt>, n: int) -> nat
    decreases n,
{
    if n <= 0 {
        2
    } else {
        effort(d, prog, n - 1) + (match files::frozen(d, prog[n - 1]) {
            SpecStmt::Assign { value, .. } => formulas::depth(value),
            _ => 0,
        })
    }
}

proof fn lemma_effort(d: SpecDag, prog: Seq<SpecStmt>, i: int, n: int)
    requires
        0 <= i < n,
    ensures
        files::frozen(d, prog[i]) matches SpecStmt::Assign { value, .. } ==> formulas::depth(value)
            + 2 <= effort(d, prog, n),
    decreases n,
{
    if i < n - 1 {
        lemma_effort(d, prog, i, n - 1);
    } else {
        lemma_effort_grows(d, prog, i);
    }
}

proof fn lemma_effort_grows(d: SpecDag, prog: Seq<SpecStmt>, n: int)
    ensures
        2 <= effort(d, prog, n),
    decreases n,
{
    if n > 0 {
        lemma_effort_grows(d, prog, n - 1);
    }
}

/// A program that has run has run up to each of its statements.
proof fn lemma_prefix(m: NumberModel, r: Run, prog: Seq<SpecStmt>, k: int, n: int, fuel: nat)
    requires
        0 <= k <= n,
        soundness::ran(m, r, prog, n, fuel) is Some,
    ensures
        soundness::ran(m, r, prog, k, fuel) is Some,
    decreases n,
{
    if k < n {
        lemma_prefix(m, r, prog, k, n - 1, fuel);
    }
}

/// What has a node cannot be assigned again at the top level.
proof fn lemma_not_again(
    m: NumberModel,
    ts: Set<Seq<char>>,
    d: SpecDag,
    r: Run,
    s: SpecStmt,
    fuel: nat,
)
    requires
        s is Assign,
        soundness::apart_stmt(ts, s),
        r.st.env.len() == 1,
        !r.st.in_unsafe,
        soundness::top_agrees(ts, d, r.st.env[0]),
        graph::node_of(d, s->Assign_name) is Some,
    ensures
        !(semantics::exec(m, r, s, fuel) is Is),
{
    if let SpecStmt::Assign { name, value, mutable } = s {
        if fuel > 0 {
            let locals: Seq<SpecScope> = seq![Seq::empty()];
            assert(soundness::agrees(ts, d, locals, r.st.env));
            let f = (fuel - 1) as nat;
            soundness::sound_source(m, ts, d, locals, r, name, value, f);
            soundness::balanced_source(m, r, name, value, f);
            if let Meaning::Is(v, r1) = semantics::assigned_value(m, r, name, value, f) {
                assert(soundness::top_agrees(ts, d, r1.st.env[0]));
                assert(names::lookup(r1.st.env[0], name) is Some);
                assert(names::scope_of(r1.st.env, name, 1) == 1);
                assert(machine::assigned(r1.st, name, v, mutable) is Err);
            }
        }
    }
}

/// In a program that has run, no name is assigned twice at the top level.
proof fn lemma_assigned_once(
    m: NumberModel,
    ts: Set<Seq<char>>,
    r: Run,
    prog: Seq<SpecStmt>,
    i: int,
    j: int,
    fuel: nat,
)
    requires
        soundness::blank(r),
        prog.len() <= usize::MAX,
        soundness::apart_stmts(ts, prog),
        soundness::ran(m, r, prog, prog.len() as int, fuel) is Some,
        0 <= i < j < prog.len(),
        prog[i] is Assign,
        prog[j] is Assign,
    ensures
        prog[i]->Assign_name != prog[j]->Assign_name,
{
    let n = prog.len() as int;
    let d = dag::dag_of(m, prog, j);
    lemma_prefix(m, r, prog, j, n, fuel);
    lemma_prefix(m, r, prog, j + 1, n, fuel);
    let rj = soundness::ran(m, r, prog, j, fuel)->0;
    soundness::lemma_ran(m, ts, r, prog, j, fuel);
    dag_laws::law_graph(m, prog, j);
    dag_laws::law_nodes_stay(m, prog, i, j);
    let x = prog[i]->Assign_name;
    let k = dag_laws::assignments(prog, i) as int;
    dag_laws::lemma_assignments_grow(prog, i + 1, j);
    assert(d.nodes[k].name == x);
    assert(names::lookup(d.env, x) is Some);
    assert(graph::node_of(d, x) is Some);
    assert(soundness::apart_stmt(ts, prog[j]));
    if prog[j]->Assign_name == x {
        lemma_not_again(m, ts, d, rj, prog[j], fuel);
    }
}

/// In a program that has run, the node of a name is that of the statement that
/// assigns it.
proof fn lemma_node(
    m: NumberModel,
    ts: Set<Seq<char>>,
    r: Run,
    prog: Seq<SpecStmt>,
    i: int,
    fuel: nat,
)
    requires
        soundness::blank(r),
        prog.len() <= usize::MAX,
        soundness::apart_stmts(ts, prog),
        soundness::ran(m, r, prog, prog.len() as int, fuel) is Some,
        0 <= i < prog.len(),
        prog[i] is Assign,
    ensures
        graph::node_of(dag::dag_of(m, prog, prog.len() as int), prog[i]->Assign_name) is Some,
        graph::node_of(dag::dag_of(m, prog, prog.len() as int), prog[i]->Assign_name)->0.op
            == dag::operation_of(
            m,
            dag::dag_of(m, prog, i),
            prog[i]->Assign_value,
            prog[i]->Assign_mutable,
        ),
{
    let n = prog.len() as int;
    let d = dag::dag_of(m, prog, n);
    let x = prog[i]->Assign_name;
    let a = dag_laws::assignments(prog, i) as int;
    dag_laws::law_graph(m, prog, n);
    dag_laws::law_nodes_stay(m, prog, i, n);
    dag_laws::lemma_assignments_grow(prog, i + 1, n);
    assert(d.nodes[a].name == x);
    assert(names::lookup(d.env, x) is Some);
    let k = names::lookup(d.env, x)->0 as int;
    assert(d.nodes[k].name == x);
    if k != a {
        let j = saved::lemma_assignment_of_node(prog, n, k);
        dag_laws::law_nodes_stay(m, prog, j, n);
        if j < i {
            dag_laws::lemma_assignments_grow(prog, j + 1, i);
            assert(d.nodes[a].name != x);
        } else if i < j {
            lemma_assigned_once(m, ts, r, prog, i, j, fuel);
        }
    }
}

/// What a frozen value is written as has that value.
proof fn lemma_literal(m: NumberModel, r: Run, v: SpecLit, fuel: nat)
    requires
        fuel > 0,
    ensures
        semantics::eval(m, r, graph::lit_expr(v), fuel) == Meaning::Is(soundness::lit_value(v), r),
{
    if let SpecLit::Number(n) = v {
        if n != number::SIGN && number::short_int(n) is Some {
            number::law_short_ints_convert_back(n);
        }
    }
}

/// A statement of the saved program does what the statement does that it
/// stands for.
proof fn lemma_step(
    m: NumberModel,
    ts: Set<Seq<char>>,
    d: SpecDag,
    all: SpecDag,
    r: Run,
    s: SpecStmt,
    fuel: nat,
    more: nat,
)
    requires
        soundness::apart_stmt(ts, s),
        replaced(m, d, s) ==> only_computes(m, r, s, fuel),
        override_given(m, r.st, s),
        r.st.env.len() == 1,
        !r.st.in_unsafe,
        graph::dag_wf(d),
        dag_laws::formulas_closed(d),
        soundness::top_agrees(ts, d, r.st.env[0]),
        formulas::top_computes(m, ts, d, r.st.env[0]),
        semantics::exec(m, r, s, fuel) matches Meaning::Is(SpecFlow::Normal, _),
        s matches SpecStmt::Assign { name, value, mutable } ==> graph::node_of(all, name) is Some
            && graph::node_of(all, name)->0.op == dag::operation_of(m, d, value, mutable),
        fuel <= more,
        files::frozen(all, s) matches SpecStmt::Assign { value, .. } ==> formulas::depth(value) + 2
            <= more,
        2 <= more,
    ensures
        semantics::exec(m, r, files::frozen(all, s), more) == semantics::exec(m, r, s, fuel),
{
    if files::frozen(all, s) == s {
        adequacy::more_exec(m, r, s, fuel, more);
    } else if let SpecStmt::Assign { name, value, mutable } = s {
        let f = (fuel - 1) as nat;
        let g = (more - 1) as nat;
        let h = (more - 2) as nat;
        let top: Seq<SpecScope> = seq![Seq::empty()];
        assert(soundness::agrees(ts, d, top, r.st.env));
        assert(dag_laws::locals_closed(d, top));
        assert(formulas::all_compute(m, ts, d, top, r.st.env));
        let now = files::frozen(all, s)->Assign_value;
        match graph::node_of(all, name)->0.op {
            SpecOperation::Param { .. } => {
                assert(semantics::assigned_value(m, r, name, now, g)
                    == semantics::assigned_value(m, r, name, value, f));
            },
            SpecOperation::Fixed { value: v, .. } => {
                soundness::sound_source(m, ts, d, top, r, name, value, f);
                assert(machine::source(m, r.st, name, now) == SpecControl::Eval(now));
                lemma_literal(m, r, v, h);
                assert(semantics::assigned_value(m, r, name, now, g) == semantics::eval(
                    m,
                    r,
                    now,
                    h,
                ));
            },
            SpecOperation::Formula { expr, .. } => {
                formulas::right_source(m, ts, d, top, r, name, value, f);
                dag_laws::lemma_trace_closed(m, d, top, value);
                formulas::lemma_grounded(ts, m, d, r.st.env[0], expr);
                formulas::lemma_eval_closed(m, ts, r, expr, h);
                assert(machine::source(m, r.st, name, expr) == SpecControl::Eval(expr));
                assert(semantics::assigned_value(m, r, name, now, g) == semantics::eval(
                    m,
                    r,
                    now,
                    h,
                ));
            },
            _ => {},
        }
    }
}

/// A pure right-hand side changes nothing.
proof fn lemma_source(m: NumberModel, r: Run, name: Seq<char>, e: SpecExpr, fuel: nat)
    requires
        r.st.env.len() > 0,
        effects::functions_pure(r.st),
        purity::pure_expr(e),
        semantics::assigned_value(m, r, name, e, fuel) !is Out,
    ensures
        soundness::end_of(semantics::assigned_value(m, r, name, e, fuel)) == r,
{
    if fuel > 0 {
        if let SpecControl::Eval(e1) = machine::source(m, r.st, name, e) {
            assert(purity::pure_expr(e1));
            effects::law_pure_expressions_change_nothing(m, r, e1, (fuel - 1) as nat);
        }
    }
}

/// What a program is run with stays what it was.
proof fn lemma_kept(m: NumberModel, r: Run, prog: Seq<SpecStmt>, n: int, fuel: nat)
    requires
        0 <= n <= prog.len(),
        soundness::ran(m, r, prog, n, fuel) is Some,
    ensures
        effects::same_settings(r.st, soundness::ran(m, r, prog, n, fuel)->0.st),
    decreases n,
{
    if n > 0 {
        lemma_kept(m, r, prog, n - 1, fuel);
        let r1 = soundness::ran(m, r, prog, n - 1, fuel)->0;
        effects::law_settings_stay(m, r1, prog[n - 1], fuel);
    }
}

proof fn lemma_replay(
    m: NumberModel,
    ts: Set<Seq<char>>,
    r: Run,
    prog: Seq<SpecStmt>,
    n: int,
    fuel: nat,
    more: nat,
)
    requires
        soundness::blank(r),
        prog.len() <= usize::MAX,
        soundness::apart_stmts(ts, prog),
        program_replaceable(m, r, prog, fuel),
        overrides_given(m, r.st, prog),
        soundness::ran(m, r, prog, prog.len() as int, fuel) is Some,
        0 <= n <= prog.len(),
        fuel <= more,
        effort(dag::dag_of(m, prog, prog.len() as int), prog, prog.len() as int) <= more,
    ensures
        soundness::ran(
            m,
            r,
            files::frozen_program(dag::dag_of(m, prog, prog.len() as int), prog),
            n,
            more,
        ) == soundness::ran(m, r, prog, n, fuel),
    decreases n,
{
    if n > 0 {
        let all = dag::dag_of(m, prog, prog.len() as int);
        let d = dag::dag_of(m, prog, n - 1);
        let s = prog[n - 1];
        lemma_replay(m, ts, r, prog, n - 1, fuel, more);
        lemma_prefix(m, r, prog, n - 1, prog.len() as int, fuel);
        lemma_prefix(m, r, prog, n, prog.len() as int, fuel);
        let r1 = soundness::ran(m, r, prog, n - 1, fuel)->0;
        lemma_kept(m, r, prog, n - 1, fuel);
        soundness::lemma_ran(m, ts, r, prog, n - 1, fuel);
        formulas::right_ran(m, ts, r, prog, n - 1, fuel);
        dag_laws::law_graph(m, prog, n - 1);
        dag_laws::law_formulas_are_closed(m, prog, n - 1);
        if s is Assign {
            lemma_node(m, ts, r, prog, n - 1, fuel);
        }
        lemma_effort(all, prog, n - 1, prog.len() as int);
        lemma_effort_grows(all, prog, prog.len() as int);
        assert(soundness::apart_stmt(ts, s));
        assert(override_given(m, r.st, s));
        assert(override_given(m, r1.st, s));
        lemma_step(m, ts, d, all, r1, s, fuel, more);
        assert(files::frozen_program(all, prog)[n - 1] == files::frozen(all, s));
    }
}

/// The functions of a program that has run are pure, and its scopes are closed.
proof fn lemma_still_pure(m: NumberModel, r: Run, prog: Seq<SpecStmt>, n: int, fuel: nat)
    requires
        0 <= n <= prog.len(),
        r.st.env.len() > 0,
        effects::functions_pure(r.st),
        soundness::ran(m, r, prog, n, fuel) is Some,
    ensures
        effects::functions_pure(soundness::ran(m, r, prog, n, fuel)->0.st),
        soundness::ran(m, r, prog, n, fuel)->0.st.env.len() == r.st.env.len(),
    decreases n,
{
    if n > 0 {
        lemma_still_pure(m, r, prog, n - 1, fuel);
        let r1 = soundness::ran(m, r, prog, n - 1, fuel)->0;
        effects::law_functions_stay_pure(m, r1, prog[n - 1], fuel);
        soundness::law_statements_are_balanced(m, r1, prog[n - 1], fuel);
    }
}

/// Whether what is replaced by a value or a formula is pure: it prints nothing,
/// fetches nothing and defines nothing, in no branch of it.
pub open spec fn purely_replaced(m: NumberModel, prog: Seq<SpecStmt>) -> bool {
    forall|i: int|
        #![trigger prog[i]]
        0 <= i < prog.len() && replaced(m, dag::dag_of(m, prog, i), prog[i]) ==> purity::pure_expr(
            prog[i]->Assign_value,
        )
}

/// What is pure does nothing but compute a value, in every run.
pub proof fn law_pure_code_is_replaceable(m: NumberModel, r: Run, prog: Seq<SpecStmt>, fuel: nat)
    requires
        r.st.env.len() > 0,
        effects::functions_pure(r.st),
        purely_replaced(m, prog),
    ensures
        program_replaceable(m, r, prog, fuel),
{
    assert forall|i: int|
        #![trigger prog[i]]
        0 <= i < prog.len() && replaced(m, dag::dag_of(m, prog, i), prog[i]) && soundness::ran(
            m,
            r,
            prog,
            i,
            fuel,
        ) is Some implies only_computes(
        m,
        soundness::ran(m, r, prog, i, fuel)->0,
        prog[i],
        fuel,
    ) by {
        lemma_still_pure(m, r, prog, i, fuel);
        let r1 = soundness::ran(m, r, prog, i, fuel)->0;
        if let SpecStmt::Assign { name, value, .. } = prog[i] {
            if fuel > 0 {
                let f = (fuel - 1) as nat;
                if semantics::assigned_value(m, r1, name, value, f) is Is {
                    lemma_source(m, r1, name, value, f);
                }
            }
        }
    }
}

/// A saved program does what the program does that it was saved for: where a
/// program runs to its end, the saved program runs to its end when every param
/// is overridden with what it was, and the two leave the same state behind and
/// ask for the same things. As for the values and formulas of the graph, no
/// name that the program assigns may be that of a ticker that it fetches; and
/// what is replaced may do nothing but compute when it runs.
pub proof fn law_saved_programs_run_alike(
    m: NumberModel,
    ts: Set<Seq<char>>,
    r: Run,
    prog: Seq<SpecStmt>,
    fuel: nat,
)
    requires
        soundness::blank(r),
        prog.len() <= usize::MAX,
        soundness::apart_stmts(ts, prog),
        program_replaceable(m, r, prog, fuel),
        overrides_given(m, r.st, prog),
        soundness::ran(m, r, prog, prog.len() as int, fuel) is Some,
    ensures
        ({
            let n = prog.len() as int;
            let d = dag::dag_of(m, prog, n);
            soundness::ran(
                m,
                r,
                files::frozen_program(d, prog),
                n,
                fuel + effort(d, prog, n),
            ) == soundness::ran(m, r, prog, n, fuel)
        }),
{
    let n = prog.len() as int;
    lemma_replay(m, ts, r, prog, n, fuel, fuel + effort(dag::dag_of(m, prog, n), prog, n));
}

/// What is read from the file that is saved for a program does what the program
/// does: where the program runs to its end, it runs to its end when every param
/// is overridden with what it was, leaves the same state behind, with its
/// functions as they were read, and asks for the same things. Its numbers have
/// to be read as numbers of the same value.
pub proof fn law_saved_files_run_alike(
    m: NumberModel,
    ts: Set<Seq<char>>,
    r: Run,
    prog: Seq<SpecStmt>,
    fuel: nat,
)
    requires
        soundness::blank(r),
        rereading::functions_keep(m, r.st),
        saved::shown_on_a_line(m),
        prog.len() <= usize::MAX,
        soundness::apart_stmts(ts, prog),
        program_replaceable(m, r, prog, fuel),
        overrides_given(m, r.st, prog),
        soundness::ran(m, r, prog, prog.len() as int, fuel) is Some,
        ({
            let all = files::frozen_program(dag::dag_of(m, prog, prog.len() as int), prog);
            &&& spelling::plain_stmts(m, all)
            &&& trees::legible_stmts(all)
            &&& rereading::keeps_stmts(m, all)
        }),
    ensures
        ({
            let n = prog.len() as int;
            let d = dag::dag_of(m, prog, n);
            let tokens = lexer::tokens_of(m, render::file_text(m, prog, d))->Ok_0;
            let read = grammar::program_at(m, tokens, 0, Seq::empty());
            &&& lexer::tokens_of(m, render::file_text(m, prog, d)) is Ok
            &&& read is Ok
            &&& read->Ok_0.0.len() == n
            &&& soundness::ran(
                m,
                rereading::reread_run(m, r),
                read->Ok_0.0,
                n,
                fuel + effort(d, prog, n) + 1,
            ) == Some(rereading::reread_run(m, soundness::ran(m, r, prog, n, fuel)->0))
        }),
{
    let n = prog.len() as int;
    let d = dag::dag_of(m, prog, n);
    saved::law_saved_files_read_back(m, prog);
    law_saved_programs_run_alike(m, ts, r, prog, fuel);
    rereading::alike_ran(m, r, files::frozen_program(d, prog), n, fuel + effort(d, prog, n));
    rereading::lemma_stmts(m, files::frozen_program(d, prog), n);
}

// ---- other values of the params ------------------------------------------

/// Two statements that are the same but for the value of a literal.
pub open spec fn same_but_literal(a: SpecStmt, b: SpecStmt) -> bool {
    a == b || match (a, b) {
        (
            SpecStmt::Assign { name: x, value: v, mutable: false },
            SpecStmt::Assign { name: y, value: w, mutable: false },
        ) => x == y && dag::is_literal(v) && dag::is_literal(w),
        _ => false,
    }
}

/// Two programs that are the same but for the values of literals.
pub open spec fn same_but_literals(a: Seq<SpecStmt>, b: Seq<SpecStmt>) -> bool {
    a.len() == b.len() && forall|i: int|
        0 <= i < a.len() ==> same_but_literal(#[trigger] a[i], b[i])
}

/// Two graphs that are the same but for what their params were.
pub open spec fn same_but_defaults(a: SpecDag, b: SpecDag) -> bool {
    &&& a.env == b.env
    &&& a.nodes.len() == b.nodes.len()
    &&& graph::dag_wf(a)
    &&& forall|i: int|
        0 <= i < a.nodes.len() ==> {
            &&& (#[trigger] a.nodes[i]).name == b.nodes[i].name
            &&& a.nodes[i].op == b.nodes[i].op || (a.nodes[i].op is Param && b.nodes[i].op is Param)
        }
}

proof fn lemma_same_read(a: SpecDag, b: SpecDag, locals: Seq<SpecScope>, name: Seq<char>)
    requires
        same_but_defaults(a, b),
    ensures
        trace::read(a, locals, name) == trace::read(b, locals, name),
{
    names::lemma_find(a.env, name, 0);
    if let Some(id) = names::lookup(a.env, name) {
        assert(a.nodes[id as int].name == b.nodes[id as int].name);
    }
}

proof fn lemma_same_trace(
    m: NumberModel,
    a: SpecDag,
    b: SpecDag,
    locals: Seq<SpecScope>,
    e: SpecExpr,
)
    requires
        same_but_defaults(a, b),
    ensures
        trace::trace(m, a, locals, e) == trace::trace(m, b, locals, e),
    decreases e, 0nat,
{
    match e {
        SpecExpr::Var(name) => lemma_same_read(a, b, locals, name),
        SpecExpr::Binary { lhs, rhs, .. } => {
            lemma_same_trace(m, a, b, locals, *lhs);
            lemma_same_trace(m, a, b, locals, *rhs);
        },
        SpecExpr::If { condition, then_branch, else_branch } => {
            lemma_same_trace(m, a, b, locals, *condition);
            lemma_same_trace(m, a, b, locals, *then_branch);
            lemma_same_trace(m, a, b, locals, *else_branch);
        },
        SpecExpr::Unsafe { body } => {
            lemma_same_trace_stmts(m, a, b, locals.push(Seq::empty()), body, 0);
        },
        _ => {},
    }
}

proof fn lemma_same_trace_stmts(
    m: NumberModel,
    a: SpecDag,
    b: SpecDag,
    locals: Seq<SpecScope>,
    ss: Seq<SpecStmt>,
    i: int,
)
    requires
        same_but_defaults(a, b),
    ensures
        trace::trace_stmts(m, a, locals, ss, i) == trace::trace_stmts(m, b, locals, ss, i),
    decreases ss, ss.len() - i,
{
    if 0 <= i < ss.len() {
        match ss[i] {
            SpecStmt::Return(e) => lemma_same_trace(m, a, b, locals, e),
            SpecStmt::Assign { name, value, mutable } => {
                lemma_same_trace(m, a, b, locals, value);
                lemma_same_trace_stmts(
                    m,
                    a,
                    b,
                    trace::assign(locals, name, trace::trace(m, a, locals, value), mutable),
                    ss,
                    i + 1,
                );
            },
            SpecStmt::While { .. } => {
                lemma_same_trace_loop(m, a, b, locals, ss[i], 0);
                let (r, after) = trace::trace_loop(m, a, locals, ss[i], 0);
                if r is None {
                    lemma_same_trace_stmts(m, a, b, after, ss, i + 1);
                }
            },
            _ => lemma_same_trace_stmts(m, a, b, locals, ss, i + 1),
        }
    }
}

proof fn lemma_same_trace_loop(
    m: NumberModel,
    a: SpecDag,
    b: SpecDag,
    locals: Seq<SpecScope>,
    s: SpecStmt,
    k: nat,
)
    requires
        same_but_defaults(a, b),
    ensures
        trace::trace_loop(m, a, locals, s, k) == trace::trace_loop(m, b, locals, s, k),
    decreases s, trace::MAX_UNROLL_ITERS + 1 - k,
{
    if let SpecStmt::While { condition, body } = s {
        lemma_same_trace(m, a, b, locals, condition);
        if k < trace::MAX_UNROLL_ITERS {
            let inner = locals.push(Seq::empty());
            lemma_same_trace_stmts(m, a, b, inner, body, 0);
            let (r, after) = trace::trace_stmts(m, a, inner, body, 0);
            if r is None {
                lemma_same_trace_loop(m, a, b, after.drop_last(), s, k + 1);
            }
        }
    }
}

proof fn lemma_same_graphs(m: NumberModel, a: Seq<SpecStmt>, b: Seq<SpecStmt>, n: int)
    requires
        same_but_literals(a, b),
        0 <= n <= a.len() <= usize::MAX,
    ensures
        same_but_defaults(dag::dag_of(m, a, n), dag::dag_of(m, b, n)),
    decreases n,
{
    dag_laws::law_graph(m, a, n);
    if n > 0 {
        lemma_same_graphs(m, a, b, n - 1);
        let d = dag::dag_of(m, a, n - 1);
        let e = dag::dag_of(m, b, n - 1);
        let top: Seq<SpecScope> = seq![Seq::empty()];
        assert(same_but_literal(a[n - 1], b[n - 1]));
        if let SpecStmt::Assign { value, .. } = a[n - 1] {
            lemma_same_trace(m, d, e, top, value);
        }
        let after = dag::dag_of(m, a, n);
        assert forall|i: int| 0 <= i < after.nodes.len() implies {
            &&& (#[trigger] after.nodes[i]).name == dag::dag_of(m, b, n).nodes[i].name
            &&& after.nodes[i].op == dag::dag_of(m, b, n).nodes[i].op || (after.nodes[i].op is Param
                && dag::dag_of(m, b, n).nodes[i].op is Param)
        } by {
            if i < d.nodes.len() {
                assert(after.nodes[i] == d.nodes[i]);
                assert(d.nodes[i].name == e.nodes[i].name);
            }
        }
    }
}

/// Whether `name` is a param in the end.
pub open spec fn is_param(d: SpecDag, name: Seq<char>) -> bool {
    graph::node_of(d, name) matches Some(node) && node.op is Param
}

/// What a param was does not matter for what is saved: programs that differ in
/// the values of their params alone are saved as one program. So, by
/// [`law_saved_programs_run_alike`], the saved program does for any values of
/// the params what the program does with those values in it.
pub proof fn law_saved_programs_serve_all_params(
    m: NumberModel,
    a: Seq<SpecStmt>,
    b: Seq<SpecStmt>,
)
    requires
        same_but_literals(a, b),
        a.len() <= usize::MAX,
        forall|i: int|
            0 <= i < a.len() && #[trigger] a[i] != b[i] ==> is_param(
                dag::dag_of(m, a, a.len() as int),
                a[i]->Assign_name,
            ),
    ensures
        files::frozen_program(dag::dag_of(m, a, a.len() as int), a) == files::frozen_program(
            dag::dag_of(m, b, b.len() as int),
            b,
        ),
{
    let n = a.len() as int;
    let d = dag::dag_of(m, a, n);
    let e = dag::dag_of(m, b, n);
    lemma_same_graphs(m, a, b, n);
    assert forall|i: int| 0 <= i < n implies files::frozen(d, #[trigger] a[i]) == files::frozen(
        e,
        b[i],
    ) by {
        assert(same_but_literal(a[i], b[i]));
        if let SpecStmt::Assign { name, .. } = a[i] {
            names::lemma_find(d.env, name, 0);
            if let Some(id) = names::lookup(d.env, name) {
                assert(d.nodes[id as int].name == e.nodes[id as int].name);
            }
        }
    }
    assert(files::frozen_program(d, a) =~= files::frozen_program(e, b));
}

} // verus!
