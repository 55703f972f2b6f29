//! What stands where in a program, and what the graph and the list of tickers
//! say of it.

#[allow(unused_imports)]
use crate::ast::{BinOp, SpecExpr, SpecStmt};
#[allow(unused_imports)]
use crate::dag;
#[allow(unused_imports)]
use crate::dag_laws;
#[allow(unused_imports)]
use crate::graph;
#[allow(unused_imports)]
use crate::machine;
#[allow(unused_imports)]
use crate::names;
#[allow(unused_imports)]
use crate::number::NumberModel;
#[allow(unused_imports)]
use crate::purity::{self, Impurity};
#[allow(unused_imports)]
use crate::semantics::{self, Meaning, Run};
#[allow(unused_imports)]
use crate::value::{self, SpecValue};
use vstd::prelude::*;

verus! {

/// Whether `x` stands in `e`, at any depth: as an operand, as a condition or a
/// branch, as an argument, as what is looked up in, or as `e` itself. What stands
/// in an `[unsafe]` block counts where `blocks` says so.
pub open spec fn within(x: SpecExpr, e: SpecExpr, blocks: bool) -> bool
    decreases e,
{
    x == e || match e {
        SpecExpr::Field { base, .. } => within(x, *base, blocks),
        SpecExpr::Subset { base, .. } => within(x, *base, blocks),
        SpecExpr::Binary { lhs, rhs, .. } => within(x, *lhs, blocks) || within(x, *rhs, blocks),
        SpecExpr::If { condition, then_branch, else_branch } => within(x, *condition, blocks)
            || within(x, *then_branch, blocks) || within(x, *else_branch, blocks),
        SpecExpr::Call { args, .. } => exists|i: int|
            0 <= i < args.len() && within(x, #[trigger] args[i], blocks),
        SpecExpr::Unsafe { body } => blocks && within_body(x, body),
        _ => false,
    }
}

/// Whether `x` stands in one of the statements.
pub open spec fn within_body(x: SpecExpr, ss: Seq<SpecStmt>) -> bool
    decreases ss,
{
    exists|i: int| 0 <= i < ss.len() && within_stmt(x, #[trigger] ss[i])
}

/// Whether `x` stands in a statement, outside of function definitions.
pub open spec fn within_stmt(x: SpecExpr, s: SpecStmt) -> bool
    decreases s,
{
    match s {
        SpecStmt::Assign { value, .. } => within(x, value, true),
        SpecStmt::Print(es) => exists|i: int|
            0 <= i < es.len() && within(x, #[trigger] es[i], true),
        SpecStmt::Return(e) => within(x, e, true),
        SpecStmt::FnDef { .. } => false,
        SpecStmt::While { condition, body } => within(x, condition, true) || within_body(x, body),
    }
}

/// The expression `t<symbol>`.
pub open spec fn ticker(symbol: Seq<char>) -> SpecExpr {
    SpecExpr::Subset { base: Box::new(SpecExpr::Var("t"@)), name: symbol }
}

proof fn lemma_in_concat(a: Seq<Seq<char>>, b: Seq<Seq<char>>, t: Seq<char>)
    ensures
        (a + b).contains(t) <==> a.contains(t) || b.contains(t),
{
    if a.contains(t) {
        let i = a.index_of(t);
        assert((a + b)[i] == t);
    }
    if b.contains(t) {
        let i = b.index_of(t);
        assert((a + b)[a.len() + i] == t);
    }
    if (a + b).contains(t) {
        let i = (a + b).index_of(t);
        if i < a.len() {
            assert(a[i] == t);
        } else {
            assert(b[i - a.len()] == t);
        }
    }
}

proof fn lemma_in_one(a: Seq<char>, t: Seq<char>)
    ensures
        seq![a].contains(t) <==> a == t,
{
    assert(seq![a][0] == a);
}

// ---- tickers ----------------------------------------------------------

proof fn lemma_expr_tickers(e: SpecExpr, t: Seq<char>)
    ensures
        purity::expr_tickers(e).contains(t) <==> within(ticker(t), e, true),
    decreases e, 0nat,
{
    match e {
        SpecExpr::Field { base, .. } => {
            lemma_expr_tickers(*base, t);
            assert(ticker(t) is Subset);
        },
        SpecExpr::Subset { base, name } => {
            lemma_expr_tickers(*base, t);
            lemma_in_one(name, t);
            assert(graph::CLASS_T@ == "t"@);
            if dag::ticker_of(e) is Some {
                assert(!within(ticker(t), *base, true));
                assert(e == ticker(name));
            } else {
                assert(e != ticker(t));
            }
        },
        SpecExpr::Binary { lhs, rhs, .. } => {
            lemma_expr_tickers(*lhs, t);
            lemma_expr_tickers(*rhs, t);
            lemma_in_concat(purity::expr_tickers(*lhs), purity::expr_tickers(*rhs), t);
        },
        SpecExpr::If { condition, then_branch, else_branch } => {
            let (a, b, c) = (
                purity::expr_tickers(*condition),
                purity::expr_tickers(*then_branch),
                purity::expr_tickers(*else_branch),
            );
            lemma_expr_tickers(*condition, t);
            lemma_expr_tickers(*then_branch, t);
            lemma_expr_tickers(*else_branch, t);
            lemma_in_concat(a, b, t);
            lemma_in_concat(a + b, c, t);
        },
        SpecExpr::Call { args, .. } => lemma_exprs_tickers(args, args.len() as int, t),
        SpecExpr::Unsafe { body } => {
            lemma_stmts_tickers(body, body.len() as int, t);
            assert(within_body(ticker(t), body) <==> purity::stmts_tickers(
                body,
                body.len() as int,
            ).contains(t));
        },
        _ => {},
    }
}

proof fn lemma_exprs_tickers(es: Seq<SpecExpr>, n: int, t: Seq<char>)
    requires
        0 <= n <= es.len(),
    ensures
        purity::exprs_tickers(es, n).contains(t) <==> exists|i: int|
            0 <= i < n && within(ticker(t), #[trigger] es[i], true),
    decreases es, n,
{
    if n > 0 {
        lemma_exprs_tickers(es, n - 1, t);
        lemma_expr_tickers(es[n - 1], t);
        lemma_in_concat(purity::exprs_tickers(es, n - 1), purity::expr_tickers(es[n - 1]), t);
    }
}

proof fn lemma_stmt_tickers(s: SpecStmt, t: Seq<char>)
    ensures
        purity::stmt_tickers(s).contains(t) <==> within_stmt(ticker(t), s),
    decreases s, 0nat,
{
    match s {
        SpecStmt::Assign { value, .. } => lemma_expr_tickers(value, t),
        SpecStmt::Print(es) => lemma_exprs_tickers(es, es.len() as int, t),
        SpecStmt::Return(e) => lemma_expr_tickers(e, t),
        SpecStmt::FnDef { .. } => {},
        SpecStmt::While { condition, body } => {
            lemma_expr_tickers(condition, t);
            lemma_stmts_tickers(body, body.len() as int, t);
            lemma_in_concat(
                purity::expr_tickers(condition),
                purity::stmts_tickers(body, body.len() as int),
                t,
            );
        },
    }
}

proof fn lemma_stmts_tickers(ss: Seq<SpecStmt>, n: int, t: Seq<char>)
    requires
        0 <= n <= ss.len(),
    ensures
        purity::stmts_tickers(ss, n).contains(t) <==> exists|i: int|
            0 <= i < n && within_stmt(ticker(t), #[trigger] ss[i]),
    decreases ss, n,
{
    if n > 0 {
        lemma_stmts_tickers(ss, n - 1, t);
        lemma_stmt_tickers(ss[n - 1], t);
        lemma_in_concat(purity::stmts_tickers(ss, n - 1), purity::stmt_tickers(ss[n - 1]), t);
    }
}

/// The tickers of a program are those of the `t<...>` that stand anywhere in it
/// outside of function definitions, each once.
pub proof fn law_tickers_stand_in_the_program(prog: Seq<SpecStmt>, t: Seq<char>)
    ensures
        purity::tickers_of(prog).contains(t) <==> within_body(ticker(t), prog),
        purity::tickers_of(prog).no_duplicates(),
{
    purity::law_tickers(prog, t);
    lemma_stmts_tickers(prog, prog.len() as int, t);
}

/// `a` is how `b` starts.
pub open spec fn starts<T>(a: Seq<T>, b: Seq<T>) -> bool {
    a.len() <= b.len() && b.take(a.len() as int) == a
}

proof fn lemma_starts<T>(a: Seq<T>, b: Seq<T>, c: Seq<T>)
    requires
        starts(a, b),
        starts(b, c),
    ensures
        starts(a, c),
{
    assert(c.take(a.len() as int) =~= b.take(a.len() as int));
}

proof fn lemma_with_new_starts(out: Seq<Seq<char>>, ns: Seq<Seq<char>>)
    ensures
        starts(out, purity::with_new(out, ns)),
    decreases ns.len(),
{
    let after = purity::with_new(out, ns);
    if ns.len() > 0 {
        let before = purity::with_new(out, ns.drop_last());
        lemma_with_new_starts(out, ns.drop_last());
        assert(after.take(before.len() as int) =~= before);
        lemma_starts(out, before, after);
    } else {
        assert(after.take(out.len() as int) =~= out);
    }
}

proof fn lemma_tickers_concat(a: Seq<SpecStmt>, b: Seq<SpecStmt>, n: int)
    requires
        0 <= n <= b.len(),
    ensures
        purity::stmts_tickers(a + b, a.len() + n) == purity::stmts_tickers(a, a.len() as int)
            + purity::stmts_tickers(b, n),
    decreases n,
{
    if n > 0 {
        lemma_tickers_concat(a, b, n - 1);
        assert((a + b)[a.len() + n - 1] == b[n - 1]);
        assert(purity::stmts_tickers(a + b, a.len() + n) =~= purity::stmts_tickers(
            a,
            a.len() as int,
        ) + purity::stmts_tickers(b, n));
    } else {
        lemma_tickers_prefix(a, b, a.len() as int);
        assert(purity::stmts_tickers(a, a.len() as int) + purity::stmts_tickers(b, 0)
            =~= purity::stmts_tickers(a, a.len() as int));
    }
}

proof fn lemma_tickers_prefix(a: Seq<SpecStmt>, b: Seq<SpecStmt>, n: int)
    requires
        0 <= n <= a.len(),
    ensures
        purity::stmts_tickers(a + b, n) == purity::stmts_tickers(a, n),
    decreases n,
{
    if n > 0 {
        lemma_tickers_prefix(a, b, n - 1);
        assert((a + b)[n - 1] == a[n - 1]);
    }
}

/// The tickers come in the order of the program: those of the statements before
/// come first.
pub proof fn law_tickers_come_in_order(a: Seq<SpecStmt>, b: Seq<SpecStmt>)
    ensures
        starts(purity::tickers_of(a), purity::tickers_of(a + b)),
{
    lemma_tickers_concat(a, b, b.len() as int);
    let (x, y) = (
        purity::stmts_tickers(a, a.len() as int),
        purity::stmts_tickers(b, b.len() as int),
    );
    purity::lemma_with_new_concat(Seq::empty(), x, y);
    lemma_with_new_starts(purity::with_new(Seq::empty(), x), y);
}

/// Within a statement the tickers come in the order in which they are fetched: those
/// of the left operand first, and those of the condition before those of the
/// branches.
pub proof fn law_tickers_come_left_to_right(
    name: Seq<char>,
    op: BinOp,
    x: SpecExpr,
    y: SpecExpr,
    z: SpecExpr,
)
    ensures
        ({
            let of = |e: SpecExpr|
                purity::tickers_of(seq![SpecStmt::Assign { name, value: e, mutable: false }]);
            &&& starts(
                of(x),
                of(SpecExpr::Binary { op, lhs: Box::new(x), rhs: Box::new(y) }),
            )
            &&& starts(
                of(SpecExpr::Binary { op, lhs: Box::new(x), rhs: Box::new(y) }),
                of(
                    SpecExpr::If {
                        condition: Box::new(x),
                        then_branch: Box::new(y),
                        else_branch: Box::new(z),
                    },
                ),
            )
        }),
{
    let e = SpecExpr::Binary { op, lhs: Box::new(x), rhs: Box::new(y) };
    let f = SpecExpr::If {
        condition: Box::new(x),
        then_branch: Box::new(y),
        else_branch: Box::new(z),
    };
    lemma_one_statement(name, x);
    lemma_one_statement(name, e);
    lemma_one_statement(name, f);
    let (a, b, c) = (
        purity::expr_tickers(x),
        purity::expr_tickers(y),
        purity::expr_tickers(z),
    );
    purity::lemma_with_new_concat(Seq::empty(), a, b);
    purity::lemma_with_new_concat(Seq::empty(), a + b, c);
    lemma_with_new_starts(purity::with_new(Seq::empty(), a), b);
    lemma_with_new_starts(purity::with_new(Seq::empty(), a + b), c);
}

proof fn lemma_one_statement(name: Seq<char>, e: SpecExpr)
    ensures
        purity::tickers_of(seq![SpecStmt::Assign { name, value: e, mutable: false }])
            == purity::with_new(Seq::empty(), purity::expr_tickers(e)),
{
    let ss = seq![SpecStmt::Assign { name, value: e, mutable: false }];
    reveal_with_fuel(purity::stmts_tickers, 2);
    assert(purity::stmts_tickers(ss, 1) =~= purity::expr_tickers(e));
}

// ---- dependencies -----------------------------------------------------

proof fn lemma_mentioned(e: SpecExpr, name: Seq<char>)
    ensures
        dag::mentioned(e).contains(name) <==> within(SpecExpr::Var(name), e, false),
    decreases e, 0nat,
{
    match e {
        SpecExpr::Var(n) => lemma_in_one(n, name),
        SpecExpr::Field { base, .. } => lemma_mentioned(*base, name),
        SpecExpr::Subset { base, .. } => lemma_mentioned(*base, name),
        SpecExpr::Binary { lhs, rhs, .. } => {
            lemma_mentioned(*lhs, name);
            lemma_mentioned(*rhs, name);
            lemma_in_concat(dag::mentioned(*lhs), dag::mentioned(*rhs), name);
        },
        SpecExpr::If { condition, then_branch, else_branch } => {
            let (a, b, c) = (
                dag::mentioned(*condition),
                dag::mentioned(*then_branch),
                dag::mentioned(*else_branch),
            );
            lemma_mentioned(*condition, name);
            lemma_mentioned(*then_branch, name);
            lemma_mentioned(*else_branch, name);
            lemma_in_concat(a, b, name);
            lemma_in_concat(a + b, c, name);
        },
        SpecExpr::Call { args, .. } => lemma_mentioned_by(args, args.len() as int, name),
        _ => {},
    }
}

proof fn lemma_mentioned_by(es: Seq<SpecExpr>, n: int, name: Seq<char>)
    requires
        0 <= n <= es.len(),
    ensures
        dag::mentioned_by(es, n).contains(name) <==> exists|i: int|
            0 <= i < n && within(SpecExpr::Var(name), #[trigger] es[i], false),
    decreases es, n,
{
    if n > 0 {
        lemma_mentioned_by(es, n - 1, name);
        lemma_mentioned(es[n - 1], name);
        lemma_in_concat(dag::mentioned_by(es, n - 1), dag::mentioned(es[n - 1]), name);
    }
}

proof fn lemma_with_nodes(
    env: Seq<(Seq<char>, usize)>,
    ns: Seq<Seq<char>>,
    ids: Seq<usize>,
    id: usize,
)
    requires
        ids.no_duplicates(),
    ensures
        dag::with_nodes(env, ns, ids).no_duplicates(),
        dag::with_nodes(env, ns, ids).contains(id) <==> ids.contains(id) || exists|name: Seq<char>|
            #[trigger] ns.contains(name) && names::lookup(env, name) == Some(id),
    decreases ns.len(),
{
    if ns.len() > 0 {
        let short = ns.drop_last();
        let before = dag::with_nodes(env, short, ids);
        let after = dag::with_nodes(env, ns, ids);
        lemma_with_nodes(env, short, ids, id);
        assert(ns =~= short + seq![ns.last()]);
        assert forall|name: Seq<char>| #[trigger]
            ns.contains(name) <==> short.contains(name) || name == ns.last() by {
            lemma_in_concat(short, seq![ns.last()], name);
            lemma_in_one(ns.last(), name);
        }
        assert(after.contains(id) <==> before.contains(id) || names::lookup(env, ns.last()) == Some(
            id,
        )) by {
            if let Some(k) = names::lookup(env, ns.last()) {
                if !before.contains(k) {
                    assert(after == before.push(k));
                    assert(after[before.len() as int] == k);
                    if before.contains(id) {
                        assert(after[before.index_of(id)] == id);
                    }
                    if after.contains(id) && id != k {
                        assert(before[after.index_of(id)] == id);
                    }
                }
            }
        }
        if let Some(k) = names::lookup(env, ns.last()) {
            if k == id {
                assert(ns.contains(ns.last()));
            }
        }
        if exists|name: Seq<char>| #[trigger]
            short.contains(name) && names::lookup(env, name) == Some(id) {
            let name = choose|name: Seq<char>| #[trigger]
                short.contains(name) && names::lookup(env, name) == Some(id);
            assert(ns.contains(name));
        }
    }
}

/// The nodes that an assignment depends on are the latest nodes of the names
/// that stand anywhere in the assigned expression outside of `[unsafe]` blocks,
/// each once.
pub proof fn law_deps_stand_in_the_expression(
    env: Seq<(Seq<char>, usize)>,
    e: SpecExpr,
    id: usize,
)
    ensures
        dag::deps_of(env, e).no_duplicates(),
        dag::deps_of(env, e).contains(id) <==> exists|name: Seq<char>|
            within(SpecExpr::Var(name), e, false) && #[trigger] names::lookup(env, name) == Some(
                id,
            ),
{
    lemma_with_nodes(env, dag::mentioned(e), Seq::empty(), id);
    if dag::deps_of(env, e).contains(id) {
        let name = choose|name: Seq<char>| #[trigger]
            dag::mentioned(e).contains(name) && names::lookup(env, name) == Some(id);
        lemma_mentioned(e, name);
        assert(within(SpecExpr::Var(name), e, false) && names::lookup(env, name) == Some(id));
    }
    if exists|name: Seq<char>|
        within(SpecExpr::Var(name), e, false) && #[trigger] names::lookup(env, name) == Some(id) {
        let name = choose|name: Seq<char>|
            within(SpecExpr::Var(name), e, false) && #[trigger] names::lookup(env, name) == Some(
                id,
            );
        lemma_mentioned(e, name);
        assert(dag::mentioned(e).contains(name));
    }
}

/// In a graph an assignment depends on the node of a name if and only if the name
/// stands in the assigned expression, outside of `[unsafe]` blocks, and no node of
/// that name comes between the two.
pub proof fn law_nodes_depend_on_what_they_read(
    m: NumberModel,
    prog: Seq<SpecStmt>,
    k: int,
    n: int,
    id: usize,
)
    requires
        0 <= k < n <= prog.len() <= usize::MAX,
        prog[k] is Assign,
    ensures
        ({
            let before = dag::dag_of(m, prog, k).nodes;
            let node = dag::dag_of(m, prog, n).nodes[dag_laws::assignments(prog, k) as int];
            node.deps.contains(id) <==> {
                &&& id < before.len()
                &&& within(
                    SpecExpr::Var(before[id as int].name),
                    prog[k]->Assign_value,
                    false,
                )
                &&& forall|j: int|
                    id < j < before.len() ==> (#[trigger] before[j]).name != before[id as int].name
            }
        }),
{
    dag_laws::law_nodes_stay(m, prog, k, n);
    dag_laws::law_graph(m, prog, k);
    let d = dag::dag_of(m, prog, k);
    let e = prog[k]->Assign_value;
    law_deps_stand_in_the_expression(d.env, e, id);
    if dag::deps_of(d.env, e).contains(id) {
        let name = choose|name: Seq<char>|
            within(SpecExpr::Var(name), e, false) && #[trigger] names::lookup(d.env, name) == Some(
                id,
            );
        assert(d.nodes[id as int].name == name);
    }
    if id < d.nodes.len() {
        let name = d.nodes[id as int].name;
        if within(SpecExpr::Var(name), e, false) && forall|j: int|
            id < j < d.nodes.len() ==> (#[trigger] d.nodes[j]).name != name {
            match names::lookup(d.env, name) {
                Some(last) => {
                    assert(d.nodes[last as int].name == name);
                    assert(last == id);
                },
                None => {
                    assert(d.nodes[id as int].name != name);
                },
            }
        }
    }
}

proof fn lemma_with_nodes_starts(
    env: Seq<(Seq<char>, usize)>,
    ns: Seq<Seq<char>>,
    ids: Seq<usize>,
)
    ensures
        starts(ids, dag::with_nodes(env, ns, ids)),
    decreases ns.len(),
{
    let after = dag::with_nodes(env, ns, ids);
    if ns.len() > 0 {
        let before = dag::with_nodes(env, ns.drop_last(), ids);
        lemma_with_nodes_starts(env, ns.drop_last(), ids);
        assert(after.take(before.len() as int) =~= before);
        lemma_starts(ids, before, after);
    } else {
        assert(after.take(ids.len() as int) =~= ids);
    }
}

/// The nodes that an expression depends on come in the order in which it refers to
/// them: those of the left operand first, and those of the condition before those
/// of the branches.
pub proof fn law_deps_come_in_order(
    env: Seq<(Seq<char>, usize)>,
    op: BinOp,
    x: SpecExpr,
    y: SpecExpr,
    z: SpecExpr,
)
    ensures
        ({
            let e = SpecExpr::Binary { op, lhs: Box::new(x), rhs: Box::new(y) };
            let f = SpecExpr::If {
                condition: Box::new(x),
                then_branch: Box::new(y),
                else_branch: Box::new(z),
            };
            &&& starts(dag::deps_of(env, x), dag::deps_of(env, e))
            &&& starts(dag::deps_of(env, e), dag::deps_of(env, f))
        }),
{
    let (a, b, c) = (dag::mentioned(x), dag::mentioned(y), dag::mentioned(z));
    dag::lemma_with_nodes_concat(env, a, b, Seq::empty());
    dag::lemma_with_nodes_concat(env, a + b, c, Seq::empty());
    lemma_with_nodes_starts(env, b, dag::with_nodes(env, a, Seq::empty()));
    lemma_with_nodes_starts(env, c, dag::with_nodes(env, a + b, Seq::empty()));
}

/// Whether an expression holds no call, no block and no `t<...>`.
pub open spec fn plain(e: SpecExpr) -> bool {
    forall|x: SpecExpr| #[trigger]
        within(x, e, false) ==> x !is Call && x !is Unsafe && dag::ticker_of(x) is None
}

/// The names that stand in `e` have the same values in both.
pub open spec fn alike(r: Run, s: Run, e: SpecExpr) -> bool {
    forall|name: Seq<char>| #[trigger]
        within(SpecExpr::Var(name), e, false) ==> machine::variable(r.st, name)
            == machine::variable(s.st, name)
}

/// The same comes out, and nothing has changed in either.
pub open spec fn same_outcome(
    r: Run,
    x: Meaning<SpecValue>,
    s: Run,
    y: Meaning<SpecValue>,
) -> bool {
    match x {
        Meaning::Is(v, end) => end == r && y == Meaning::Is(v, s),
        Meaning::Wrong(text, end) => end == r && y == Meaning::<SpecValue>::Wrong(text, s),
        Meaning::Out => y is Out,
    }
}

proof fn lemma_plain_part(r: Run, s: Run, e: SpecExpr, inner: SpecExpr)
    requires
        plain(e),
        alike(r, s, e),
        forall|x: SpecExpr| #[trigger] within(x, inner, false) ==> within(x, e, false),
    ensures
        plain(inner),
        alike(r, s, inner),
{
}

pub(crate) proof fn lemma_same_outcome(m: NumberModel, r: Run, s: Run, e: SpecExpr, fuel: nat)
    requires
        plain(e),
        alike(r, s, e),
    ensures
        same_outcome(r, semantics::eval(m, r, e, fuel), s, semantics::eval(m, s, e, fuel)),
    decreases fuel,
{
    assert(within(e, e, false));
    if fuel > 0 {
        let f = (fuel - 1) as nat;
        match e {
            SpecExpr::Field { base, .. } => {
                lemma_plain_part(r, s, e, *base);
                lemma_same_outcome(m, r, s, *base, f);
            },
            SpecExpr::Subset { base, .. } => {
                lemma_plain_part(r, s, e, *base);
                lemma_same_outcome(m, r, s, *base, f);
            },
            SpecExpr::Binary { lhs, rhs, .. } => {
                lemma_plain_part(r, s, e, *lhs);
                lemma_plain_part(r, s, e, *rhs);
                lemma_same_outcome(m, r, s, *lhs, f);
                lemma_same_outcome(m, r, s, *rhs, f);
            },
            SpecExpr::If { condition, then_branch, else_branch } => {
                lemma_plain_part(r, s, e, *condition);
                lemma_plain_part(r, s, e, *then_branch);
                lemma_plain_part(r, s, e, *else_branch);
                lemma_same_outcome(m, r, s, *condition, f);
                lemma_same_outcome(m, r, s, *then_branch, f);
                lemma_same_outcome(m, r, s, *else_branch, f);
            },
            _ => {},
        }
    }
}

/// What an expression without calls, blocks and tickers gives does not change
/// when names are changed whose nodes it does not depend on.
pub proof fn law_only_deps_matter(
    m: NumberModel,
    env: Seq<(Seq<char>, usize)>,
    e: SpecExpr,
    r: Run,
    s: Run,
    fuel: nat,
)
    requires
        plain(e),
        forall|name: Seq<char>|
            (names::lookup(env, name) matches Some(id) ==> dag::deps_of(env, e).contains(id))
                ==> #[trigger] machine::variable(r.st, name) == machine::variable(s.st, name),
    ensures
        same_outcome(r, semantics::eval(m, r, e, fuel), s, semantics::eval(m, s, e, fuel)),
{
    assert forall|name: Seq<char>| #[trigger]
        within(SpecExpr::Var(name), e, false) implies machine::variable(r.st, name)
        == machine::variable(s.st, name) by {
        if let Some(id) = names::lookup(env, name) {
            law_deps_stand_in_the_expression(env, e, id);
        }
    }
    lemma_same_outcome(m, r, s, e, fuel);
}

// ---- purity -----------------------------------------------------------

/// Whether `e` holds a block in which, at any depth, a statement stands that is
/// one of `p`.
pub open spec fn does(p: spec_fn(SpecStmt) -> bool, e: SpecExpr) -> bool
    decreases e,
{
    match e {
        SpecExpr::Field { base, .. } => does(p, *base),
        SpecExpr::Subset { base, .. } => does(p, *base),
        SpecExpr::Binary { lhs, rhs, .. } => does(p, *lhs) || does(p, *rhs),
        SpecExpr::If { condition, then_branch, else_branch } => does(p, *condition) || does(
            p,
            *then_branch,
        ) || does(p, *else_branch),
        SpecExpr::Call { args, .. } => exists|i: int|
            0 <= i < args.len() && does(p, #[trigger] args[i]),
        SpecExpr::Unsafe { body } => body_does(p, body),
        _ => false,
    }
}

/// Whether one of the statements is one of `p`, or holds one of them.
pub open spec fn body_does(p: spec_fn(SpecStmt) -> bool, ss: Seq<SpecStmt>) -> bool
    decreases ss,
{
    exists|i: int| 0 <= i < ss.len() && stmt_does(p, #[trigger] ss[i])
}

/// Whether a statement is one of `p`, or holds one of them.
pub open spec fn stmt_does(p: spec_fn(SpecStmt) -> bool, s: SpecStmt) -> bool
    decreases s,
{
    p(s) || match s {
        SpecStmt::Assign { value, .. } => does(p, value),
        SpecStmt::Print(es) => exists|i: int| 0 <= i < es.len() && does(p, #[trigger] es[i]),
        SpecStmt::Return(e) => does(p, e),
        SpecStmt::FnDef { body, .. } => body_does(p, body),
        SpecStmt::While { condition, body } => does(p, condition) || body_does(p, body),
    }
}

/// Whether a statement is a `print` or a function definition.
pub open spec fn prints_or_defines() -> spec_fn(SpecStmt) -> bool {
    |s: SpecStmt| s is Print || s is FnDef
}

spec fn fetches(e: SpecExpr) -> bool {
    exists|t: Seq<char>| #[trigger] within(ticker(t), e, true)
}

spec fn body_fetches(ss: Seq<SpecStmt>) -> bool {
    exists|t: Seq<char>| #[trigger] within_body(ticker(t), ss)
}

spec fn stmt_fetches(s: SpecStmt) -> bool {
    exists|t: Seq<char>| #[trigger] within_stmt(ticker(t), s)
}

proof fn lemma_fetching_part(e: SpecExpr, inner: SpecExpr)
    requires
        fetches(inner),
        forall|t: Seq<char>| #[trigger] within(ticker(t), inner, true) ==> within(
            ticker(t),
            e,
            true,
        ),
    ensures
        fetches(e),
{
    let t = choose|t: Seq<char>| #[trigger] within(ticker(t), inner, true);
    assert(within(ticker(t), e, true));
}

proof fn lemma_pure_expr(e: SpecExpr)
    ensures
        purity::pure_expr(e) <==> !fetches(e) && !does(prints_or_defines(), e),
    decreases e, 0nat,
{
    let p = prints_or_defines();
    assert(forall|t: Seq<char>| #[trigger] ticker(t) is Subset);
    match e {
        SpecExpr::Field { base, .. } => {
            lemma_pure_expr(*base);
            if fetches(*base) {
                lemma_fetching_part(e, *base);
            }
            if fetches(e) {
                let t = choose|t: Seq<char>| #[trigger] within(ticker(t), e, true);
                assert(within(ticker(t), *base, true));
            }
        },
        SpecExpr::Subset { base, name } => {
            lemma_pure_expr(*base);
            assert(graph::CLASS_T@ == "t"@);
            if dag::ticker_of(e) is Some {
                assert(e == ticker(name));
                assert(within(ticker(name), e, true));
            } else {
                if fetches(*base) {
                    lemma_fetching_part(e, *base);
                }
                if fetches(e) {
                    let t = choose|t: Seq<char>| #[trigger] within(ticker(t), e, true);
                    assert(ticker(t) != e);
                    assert(within(ticker(t), *base, true));
                }
            }
        },
        SpecExpr::Binary { lhs, rhs, .. } => {
            lemma_pure_expr(*lhs);
            lemma_pure_expr(*rhs);
            if fetches(*lhs) {
                lemma_fetching_part(e, *lhs);
            }
            if fetches(*rhs) {
                lemma_fetching_part(e, *rhs);
            }
            if fetches(e) {
                let t = choose|t: Seq<char>| #[trigger] within(ticker(t), e, true);
                assert(within(ticker(t), *lhs, true) || within(ticker(t), *rhs, true));
            }
        },
        SpecExpr::If { condition, then_branch, else_branch } => {
            lemma_pure_expr(*condition);
            lemma_pure_expr(*then_branch);
            lemma_pure_expr(*else_branch);
            if fetches(*condition) {
                lemma_fetching_part(e, *condition);
            }
            if fetches(*then_branch) {
                lemma_fetching_part(e, *then_branch);
            }
            if fetches(*else_branch) {
                lemma_fetching_part(e, *else_branch);
            }
            if fetches(e) {
                let t = choose|t: Seq<char>| #[trigger] within(ticker(t), e, true);
                assert(within(ticker(t), *condition, true) || within(ticker(t), *then_branch, true)
                    || within(ticker(t), *else_branch, true));
            }
        },
        SpecExpr::Call { args, .. } => {
            assert forall|i: int| 0 <= i < args.len() implies (purity::pure_expr(#[trigger] args[i])
                <==> !fetches(args[i]) && !does(p, args[i])) && (fetches(args[i]) ==> fetches(e)) by {
                lemma_pure_expr(args[i]);
                if fetches(args[i]) {
                    lemma_fetching_part(e, args[i]);
                }
            }
            if fetches(e) {
                let t = choose|t: Seq<char>| #[trigger] within(ticker(t), e, true);
                let i = choose|i: int|
                    0 <= i < args.len() && within(ticker(t), #[trigger] args[i], true);
                assert(fetches(args[i]));
            }
        },
        SpecExpr::Unsafe { body } => {
            lemma_pure_body(body);
            assert(purity::pure_body(body) <==> !body_fetches(body) && !body_does(p, body));
            if body_fetches(body) {
                let t = choose|t: Seq<char>| #[trigger] within_body(ticker(t), body);
                assert(within(ticker(t), e, true));
            }
            if fetches(e) {
                let t = choose|t: Seq<char>| #[trigger] within(ticker(t), e, true);
                assert(within_body(ticker(t), body));
            }
        },
        _ => {},
    }
}

proof fn lemma_pure_body(ss: Seq<SpecStmt>)
    ensures
        purity::pure_body(ss) <==> !body_fetches(ss) && !body_does(prints_or_defines(), ss),
    decreases ss, 0nat,
{
    let p = prints_or_defines();
    assert forall|i: int| 0 <= i < ss.len() implies (purity::pure_stmt(#[trigger] ss[i])
        <==> !stmt_fetches(ss[i]) && !stmt_does(p, ss[i])) && (stmt_fetches(ss[i])
        ==> body_fetches(ss)) by {
        lemma_pure_stmt(ss[i]);
        if stmt_fetches(ss[i]) {
            let t = choose|t: Seq<char>| #[trigger] within_stmt(ticker(t), ss[i]);
            assert(within_body(ticker(t), ss));
        }
    }
    if body_fetches(ss) {
        let t = choose|t: Seq<char>| #[trigger] within_body(ticker(t), ss);
        let i = choose|i: int| 0 <= i < ss.len() && within_stmt(ticker(t), #[trigger] ss[i]);
        assert(stmt_fetches(ss[i]));
    }
}

proof fn lemma_pure_stmt(s: SpecStmt)
    ensures
        purity::pure_stmt(s) <==> !stmt_fetches(s) && !stmt_does(prints_or_defines(), s),
    decreases s, 0nat,
{
    let p = prints_or_defines();
    match s {
        SpecStmt::Assign { value, .. } => {
            lemma_pure_expr(value);
            if stmt_fetches(s) {
                let t = choose|t: Seq<char>| #[trigger] within_stmt(ticker(t), s);
                assert(within(ticker(t), value, true));
            }
            if fetches(value) {
                let t = choose|t: Seq<char>| #[trigger] within(ticker(t), value, true);
                assert(within_stmt(ticker(t), s));
            }
        },
        SpecStmt::Return(e) => {
            lemma_pure_expr(e);
            if stmt_fetches(s) {
                let t = choose|t: Seq<char>| #[trigger] within_stmt(ticker(t), s);
                assert(within(ticker(t), e, true));
            }
            if fetches(e) {
                let t = choose|t: Seq<char>| #[trigger] within(ticker(t), e, true);
                assert(within_stmt(ticker(t), s));
            }
        },
        SpecStmt::While { condition, body } => {
            lemma_pure_expr(condition);
            lemma_pure_body(body);
            assert(purity::pure_body(body) <==> !body_fetches(body) && !body_does(p, body));
            assert(stmt_fetches(s) <==> fetches(condition) || body_fetches(body)) by {
                if stmt_fetches(s) {
                    let t = choose|t: Seq<char>| #[trigger] within_stmt(ticker(t), s);
                    assert(within(ticker(t), condition, true) || within_body(ticker(t), body));
                }
                if fetches(condition) {
                    let t = choose|t: Seq<char>| #[trigger] within(ticker(t), condition, true);
                    assert(within_stmt(ticker(t), s));
                }
                if body_fetches(body) {
                    let t = choose|t: Seq<char>| #[trigger] within_body(ticker(t), body);
                    assert(within_stmt(ticker(t), s));
                }
            }
        },
        SpecStmt::Print(_) => {
            assert(p(s));
        },
        SpecStmt::FnDef { .. } => {
            assert(p(s));
        },
    }
}

/// A function may have a body if and only if no `t<...>`, no `print` and no
/// function definition stands anywhere in it.
pub proof fn law_bodies_are_checked_throughout(body: Seq<SpecStmt>)
    ensures
        purity::body_impurity(body, 0) is None <==> (forall|t: Seq<char>|
            !#[trigger] within_body(ticker(t), body)) && !body_does(prints_or_defines(), body),
{
    purity::law_check_is_purity(body);
    lemma_pure_body(body);
}

proof fn lemma_impurity_shift(a: Seq<SpecStmt>, b: Seq<SpecStmt>, j: int)
    requires
        0 <= j <= b.len(),
    ensures
        purity::body_impurity(a + b, a.len() + j) == purity::body_impurity(b, j),
    decreases b.len() - j,
{
    if j < b.len() {
        assert((a + b)[a.len() + j] == b[j]);
        lemma_impurity_shift(a, b, j + 1);
    }
}

proof fn lemma_impurity_concat(a: Seq<SpecStmt>, b: Seq<SpecStmt>, i: int)
    requires
        0 <= i <= a.len(),
    ensures
        purity::body_impurity(a + b, i) == (match purity::body_impurity(a, i) {
            Some(x) => Some(x),
            None => purity::body_impurity(b, 0),
        }),
    decreases a.len() - i,
{
    if i < a.len() {
        assert((a + b)[i] == a[i]);
        lemma_impurity_concat(a, b, i + 1);
    } else {
        lemma_impurity_shift(a, b, 0);
    }
}

/// In an expression what stands to the left comes first, and the condition before
/// the branches.
pub proof fn law_impurities_count_left_to_right(
    op: BinOp,
    x: SpecExpr,
    y: SpecExpr,
    z: SpecExpr,
    i: Impurity,
)
    ensures
        ({
            let e = SpecExpr::Binary { op, lhs: Box::new(x), rhs: Box::new(y) };
            let f = SpecExpr::If {
                condition: Box::new(x),
                then_branch: Box::new(y),
                else_branch: Box::new(z),
            };
            &&& purity::expr_impurity(x) == Some(i) ==> purity::expr_impurity(e) == Some(i)
            &&& purity::expr_impurity(e) == Some(i) ==> purity::expr_impurity(f) == Some(i)
            &&& purity::expr_impurity(x) is None ==> purity::expr_impurity(e)
                == purity::expr_impurity(y)
            &&& purity::expr_impurity(e) is None ==> purity::expr_impurity(f)
                == purity::expr_impurity(z)
        }),
{
}

/// What a body is refused for is what comes first in it.
pub proof fn law_the_first_impurity_counts(a: Seq<SpecStmt>, b: Seq<SpecStmt>)
    ensures
        purity::body_impurity(a + b, 0) == (match purity::body_impurity(a, 0) {
            Some(x) => Some(x),
            None => purity::body_impurity(b, 0),
        }),
{
    lemma_impurity_concat(a, b, 0);
}

} // verus!
