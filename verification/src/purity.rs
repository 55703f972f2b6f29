//! What a function body may not do, and which tickers a program fetches.

#[allow(unused_imports)]
use crate::ast::{self, Expr, Program, SpecExpr, SpecStmt, Stmt};
#[allow(unused_imports)]
use crate::dag;
#[allow(unused_imports)]
use crate::text;
use crate::value::RuntimeError;
use vstd::prelude::*;

verus! {

/// What a function body may not do.
#[derive(Debug, Clone, Copy, PartialEq, Eq, Structural)]
pub enum Impurity {
    Print,
    Definition,
    Ticker,
}

pub open spec fn impurity_text(i: Impurity) -> Seq<char> {
    match i {
        Impurity::Print => {
            "`print` is a side effect and isn't allowed inside a function body or [unsafe] block"@
        },
        Impurity::Definition => "nested function definitions aren't supported"@,
        Impurity::Ticker => {
            "`t<...>` fetches external data and isn't allowed inside a function body or [unsafe] block"@
        },
    }
}

impl Impurity {
    fn error(&self) -> (r: RuntimeError)
        ensures
            r@ == impurity_text(*self),
    {
        let message = match self {
            Impurity::Print => {
                "`print` is a side effect and isn't allowed inside a function body or [unsafe] block"
            },
            Impurity::Definition => "nested function definitions aren't supported",
            Impurity::Ticker => {
                "`t<...>` fetches external data and isn't allowed inside a function body or [unsafe] block"
            },
        };
        RuntimeError::new(message.to_owned())
    }
}

/// The first of two that is there.
pub open spec fn earlier(a: Option<Impurity>, b: Option<Impurity>) -> Option<Impurity> {
    if a is Some {
        a
    } else {
        b
    }
}

/// The first impurity of an expression.
pub open spec fn expr_impurity(e: SpecExpr) -> Option<Impurity>
    decreases e, 0nat,
{
    match e {
        SpecExpr::Field { base, .. } => expr_impurity(*base),
        SpecExpr::Subset { base, .. } => if dag::ticker_of(e) is Some {
            Some(Impurity::Ticker)
        } else {
            expr_impurity(*base)
        },
        SpecExpr::Binary { lhs, rhs, .. } => earlier(expr_impurity(*lhs), expr_impurity(*rhs)),
        SpecExpr::If { condition, then_branch, else_branch } => earlier(
            expr_impurity(*condition),
            earlier(expr_impurity(*then_branch), expr_impurity(*else_branch)),
        ),
        SpecExpr::Call { args, .. } => exprs_impurity(args, 0),
        SpecExpr::Unsafe { body } => body_impurity(body, 0),
        _ => None,
    }
}

/// The first impurity of the expressions from the `i`th on.
pub open spec fn exprs_impurity(es: Seq<SpecExpr>, i: int) -> Option<Impurity>
    decreases es, es.len() - i,
{
    if i < 0 || i >= es.len() {
        None
    } else {
        earlier(expr_impurity(es[i]), exprs_impurity(es, i + 1))
    }
}

/// The first impurity of a statement.
pub open spec fn stmt_impurity(s: SpecStmt) -> Option<Impurity>
    decreases s, 0nat,
{
    match s {
        SpecStmt::Print(_) => Some(Impurity::Print),
        SpecStmt::FnDef { .. } => Some(Impurity::Definition),
        SpecStmt::Assign { value, .. } => expr_impurity(value),
        SpecStmt::Return(e) => expr_impurity(e),
        SpecStmt::While { condition, body } => earlier(
            expr_impurity(condition),
            body_impurity(body, 0),
        ),
    }
}

/// The first impurity of the statements from the `i`th on.
pub open spec fn body_impurity(ss: Seq<SpecStmt>, i: int) -> Option<Impurity>
    decreases ss, ss.len() - i,
{
    if i < 0 || i >= ss.len() {
        None
    } else {
        earlier(stmt_impurity(ss[i]), body_impurity(ss, i + 1))
    }
}

fn find_expr_impurity(expr: &Expr) -> (r: Option<Impurity>)
    ensures
        r == expr_impurity(expr@),
    decreases *expr, 0nat,
{
    match expr {
        Expr::Int(_) => None,
        Expr::Float(_) => None,
        Expr::Str(_) => None,
        Expr::Var(_) => None,
        Expr::Field { base, .. } => find_expr_impurity(&**base),
        Expr::Subset { base, .. } => {
            if dag::ticker_shape(expr).is_some() {
                Some(Impurity::Ticker)
            } else {
                find_expr_impurity(&**base)
            }
        },
        Expr::Binary { lhs, rhs, .. } => {
            let first = find_expr_impurity(&**lhs);
            if first.is_some() {
                return first;
            }
            find_expr_impurity(&**rhs)
        },
        Expr::If { condition, then_branch, else_branch } => {
            let first = find_expr_impurity(&**condition);
            if first.is_some() {
                return first;
            }
            let second = find_expr_impurity(&**then_branch);
            if second.is_some() {
                return second;
            }
            find_expr_impurity(&**else_branch)
        },
        Expr::Call { args, .. } => find_exprs_impurity(args),
        Expr::Unsafe { body } => find_body_impurity(body),
    }
}

fn find_exprs_impurity(es: &Vec<Expr>) -> (r: Option<Impurity>)
    ensures
        r == exprs_impurity(ast::exprs_view(es@), 0),
    decreases *es, 0nat,
{
    let ghost all = ast::exprs_view(es@);
    let mut i: usize = 0;
    while i < es.len()
        invariant
            i <= es@.len(),
            all == ast::exprs_view(es@),
            exprs_impurity(all, 0) == exprs_impurity(all, i as int),
        decreases es@.len() - i,
    {
        proof {
            assert(all[i as int] == es@[i as int]@);
        }
        let found = find_expr_impurity(&es[i]);
        if found.is_some() {
            return found;
        }
        i = i + 1;
    }
    None
}

fn find_stmt_impurity(stmt: &Stmt) -> (r: Option<Impurity>)
    ensures
        r == stmt_impurity(stmt@),
    decreases *stmt, 0nat,
{
    match stmt {
        Stmt::Print(_) => Some(Impurity::Print),
        Stmt::FnDef { .. } => Some(Impurity::Definition),
        Stmt::Assign { value, .. } => find_expr_impurity(value),
        Stmt::Return(e) => find_expr_impurity(e),
        Stmt::While { condition, body } => {
            let first = find_expr_impurity(condition);
            if first.is_some() {
                return first;
            }
            find_body_impurity(body)
        },
    }
}

fn find_body_impurity(body: &Vec<Stmt>) -> (r: Option<Impurity>)
    ensures
        r == body_impurity(ast::stmts_view(body@), 0),
    decreases *body, 0nat,
{
    let ghost all = ast::stmts_view(body@);
    let mut i: usize = 0;
    while i < body.len()
        invariant
            i <= body@.len(),
            all == ast::stmts_view(body@),
            body_impurity(all, 0) == body_impurity(all, i as int),
        decreases body@.len() - i,
    {
        proof {
            assert(all[i as int] == body@[i as int]@);
        }
        let found = find_stmt_impurity(&body[i]);
        if found.is_some() {
            return found;
        }
        i = i + 1;
    }
    None
}

/// Whether a function may have the body `body`. The error is about what comes
/// first in it.
pub fn check_purity(body: &Vec<Stmt>) -> (r: Result<(), RuntimeError>)
    ensures
        match body_impurity(ast::stmts_view(body@), 0) {
            Some(i) => r matches Err(e) && e@ == impurity_text(i),
            None => r is Ok,
        },
{
    match find_body_impurity(body) {
        Some(i) => Err(i.error()),
        None => Ok(()),
    }
}

/// Whether an expression holds no `t<...>`, no `print` and no function
/// definition anywhere.
pub open spec fn pure_expr(e: SpecExpr) -> bool
    decreases e,
{
    match e {
        SpecExpr::Field { base, .. } => pure_expr(*base),
        SpecExpr::Subset { base, .. } => dag::ticker_of(e) is None && pure_expr(*base),
        SpecExpr::Binary { lhs, rhs, .. } => pure_expr(*lhs) && pure_expr(*rhs),
        SpecExpr::If { condition, then_branch, else_branch } => pure_expr(*condition) && pure_expr(
            *then_branch,
        ) && pure_expr(*else_branch),
        SpecExpr::Call { args, .. } => forall|i: int|
            0 <= i < args.len() ==> pure_expr(#[trigger] args[i]),
        SpecExpr::Unsafe { body } => pure_body(body),
        _ => true,
    }
}

/// Whether statements do nothing but assign, loop and return.
pub open spec fn pure_body(ss: Seq<SpecStmt>) -> bool
    decreases ss,
{
    forall|i: int| 0 <= i < ss.len() ==> pure_stmt(#[trigger] ss[i])
}

pub open spec fn pure_stmt(s: SpecStmt) -> bool
    decreases s,
{
    match s {
        SpecStmt::Print(_) => false,
        SpecStmt::FnDef { .. } => false,
        SpecStmt::Assign { value, .. } => pure_expr(value),
        SpecStmt::Return(e) => pure_expr(e),
        SpecStmt::While { condition, body } => pure_expr(condition) && pure_body(body),
    }
}

proof fn lemma_pure_expr(e: SpecExpr)
    ensures
        pure_expr(e) == (expr_impurity(e) is None),
    decreases e, 0nat,
{
    match e {
        SpecExpr::Field { base, .. } => lemma_pure_expr(*base),
        SpecExpr::Subset { base, .. } => lemma_pure_expr(*base),
        SpecExpr::Binary { lhs, rhs, .. } => {
            lemma_pure_expr(*lhs);
            lemma_pure_expr(*rhs);
        },
        SpecExpr::If { condition, then_branch, else_branch } => {
            lemma_pure_expr(*condition);
            lemma_pure_expr(*then_branch);
            lemma_pure_expr(*else_branch);
        },
        SpecExpr::Call { args, .. } => {
            lemma_pure_exprs(args, 0);
        },
        SpecExpr::Unsafe { body } => {
            lemma_pure_body(body, 0);
            assert(pure_body(body) == (body_impurity(body, 0) is None));
        },
        _ => {},
    }
}

proof fn lemma_pure_exprs(es: Seq<SpecExpr>, i: int)
    requires
        0 <= i <= es.len(),
    ensures
        (forall|j: int| i <= j < es.len() ==> pure_expr(#[trigger] es[j])) == (exprs_impurity(es, i)
            is None),
    decreases es, es.len() - i,
{
    if i < es.len() {
        lemma_pure_expr(es[i]);
        lemma_pure_exprs(es, i + 1);
    }
}

proof fn lemma_pure_stmt(s: SpecStmt)
    ensures
        pure_stmt(s) == (stmt_impurity(s) is None),
    decreases s, 0nat,
{
    match s {
        SpecStmt::Assign { value, .. } => lemma_pure_expr(value),
        SpecStmt::Return(e) => lemma_pure_expr(e),
        SpecStmt::While { condition, body } => {
            lemma_pure_expr(condition);
            lemma_pure_body(body, 0);
        },
        _ => {},
    }
}

proof fn lemma_pure_body(ss: Seq<SpecStmt>, i: int)
    requires
        0 <= i <= ss.len(),
    ensures
        (forall|j: int| i <= j < ss.len() ==> pure_stmt(#[trigger] ss[j])) == (body_impurity(ss, i)
            is None),
    decreases ss, ss.len() - i,
{
    if i < ss.len() {
        lemma_pure_stmt(ss[i]);
        lemma_pure_body(ss, i + 1);
    }
}

/// A body passes the check if and only if nothing in it, at any depth, prints,
/// defines a function or fetches a ticker.
pub proof fn law_check_is_purity(body: Seq<SpecStmt>)
    ensures
        body_impurity(body, 0) is None <==> pure_body(body),
{
    lemma_pure_body(body, 0);
}

/// The tickers that an expression fetches, in order.
pub open spec fn expr_tickers(e: SpecExpr) -> Seq<Seq<char>>
    decreases e, 0nat,
{
    match e {
        SpecExpr::Field { base, .. } => expr_tickers(*base),
        SpecExpr::Subset { base, .. } => match dag::ticker_of(e) {
            Some(symbol) => seq![symbol],
            None => expr_tickers(*base),
        },
        SpecExpr::Binary { lhs, rhs, .. } => expr_tickers(*lhs) + expr_tickers(*rhs),
        SpecExpr::If { condition, then_branch, else_branch } => expr_tickers(*condition)
            + expr_tickers(*then_branch) + expr_tickers(*else_branch),
        SpecExpr::Call { args, .. } => exprs_tickers(args, args.len() as int),
        SpecExpr::Unsafe { body } => stmts_tickers(body, body.len() as int),
        _ => Seq::empty(),
    }
}

pub open spec fn exprs_tickers(es: Seq<SpecExpr>, n: int) -> Seq<Seq<char>>
    decreases es, n,
{
    if n <= 0 || n > es.len() {
        Seq::empty()
    } else {
        exprs_tickers(es, n - 1) + expr_tickers(es[n - 1])
    }
}

/// The tickers that a statement fetches, in order. A definition fetches none.
pub open spec fn stmt_tickers(s: SpecStmt) -> Seq<Seq<char>>
    decreases s, 0nat,
{
    match s {
        SpecStmt::Assign { value, .. } => expr_tickers(value),
        SpecStmt::Print(es) => exprs_tickers(es, es.len() as int),
        SpecStmt::Return(e) => expr_tickers(e),
        SpecStmt::FnDef { .. } => Seq::empty(),
        SpecStmt::While { condition, body } => expr_tickers(condition) + stmts_tickers(
            body,
            body.len() as int,
        ),
    }
}

pub open spec fn stmts_tickers(ss: Seq<SpecStmt>, n: int) -> Seq<Seq<char>>
    decreases ss, n,
{
    if n <= 0 || n > ss.len() {
        Seq::empty()
    } else {
        stmts_tickers(ss, n - 1) + stmt_tickers(ss[n - 1])
    }
}

/// `out`, and after it the names that are not yet there.
pub open spec fn with_new(out: Seq<Seq<char>>, ns: Seq<Seq<char>>) -> Seq<Seq<char>>
    decreases ns.len(),
{
    if ns.len() == 0 {
        out
    } else {
        let before = with_new(out, ns.drop_last());
        if before.contains(ns.last()) {
            before
        } else {
            before.push(ns.last())
        }
    }
}

pub(crate) proof fn lemma_with_new_concat(out: Seq<Seq<char>>, a: Seq<Seq<char>>, b: Seq<Seq<char>>)
    ensures
        with_new(out, a + b) == with_new(with_new(out, a), b),
    decreases b.len(),
{
    if b.len() == 0 {
        assert(a + b =~= a);
    } else {
        assert((a + b).drop_last() =~= a + b.drop_last());
        lemma_with_new_concat(out, a, b.drop_last());
    }
}

/// The tickers of a program, each once, in the order in which they first
/// occur.
pub open spec fn tickers_of(prog: Seq<SpecStmt>) -> Seq<Seq<char>> {
    with_new(Seq::empty(), stmts_tickers(prog, prog.len() as int))
}

proof fn lemma_with_new(out: Seq<Seq<char>>, ns: Seq<Seq<char>>)
    requires
        out.no_duplicates(),
    ensures
        with_new(out, ns).no_duplicates(),
        forall|t: Seq<char>| #[trigger]
            with_new(out, ns).contains(t) <==> out.contains(t) || ns.contains(t),
    decreases ns.len(),
{
    if ns.len() > 0 {
        let before = with_new(out, ns.drop_last());
        lemma_with_new(out, ns.drop_last());
        let after = with_new(out, ns);
        assert forall|t: Seq<char>| #[trigger]
            after.contains(t) <==> out.contains(t) || ns.contains(t) by {
            assert(ns.contains(t) <==> ns.drop_last().contains(t) || t == ns.last()) by {
                if ns.contains(t) {
                    let i = ns.index_of(t);
                    if i < ns.len() - 1 {
                        assert(ns.drop_last()[i] == t);
                    }
                }
                if ns.drop_last().contains(t) {
                    let i = ns.drop_last().index_of(t);
                    assert(ns[i] == t);
                }
            }
            assert(before.contains(t) <==> out.contains(t) || ns.drop_last().contains(t));
            if !before.contains(ns.last()) {
                assert(after == before.push(ns.last()));
                if before.contains(t) {
                    let i = before.index_of(t);
                    assert(after[i] == t);
                }
                if t == ns.last() {
                    assert(after[before.len() as int] == t);
                }
                if after.contains(t) && t != ns.last() {
                    let i = after.index_of(t);
                    assert(before[i] == t);
                }
            }
        }
    }
}

/// A ticker is among those of a program if and only if a statement fetches it
/// outside of every function definition; none is there twice.
pub proof fn law_tickers(prog: Seq<SpecStmt>, t: Seq<char>)
    ensures
        tickers_of(prog).no_duplicates(),
        tickers_of(prog).contains(t) <==> stmts_tickers(prog, prog.len() as int).contains(t),
{
    lemma_with_new(Seq::empty(), stmts_tickers(prog, prog.len() as int));
}

pub(crate) fn add_name(out: &mut Vec<String>, name: &String)
    ensures
        ast::names_view(final(out)@) == with_new(ast::names_view(old(out)@), seq![name@]),
{
    let ghost before = ast::names_view(out@);
    proof {
        assert(seq![name@].drop_last() =~= Seq::<Seq<char>>::empty());
        assert(with_new(before, seq![name@].drop_last()) == before);
    }
    let mut i: usize = 0;
    while i < out.len()
        invariant
            i <= out@.len(),
            before == ast::names_view(out@),
            out@ == old(out)@,
            with_new(before, seq![name@].drop_last()) == before,
            forall|j: int| 0 <= j < i ==> before[j] != name@,
        decreases out@.len() - i,
    {
        if text::same_text(out[i].as_str(), name.as_str()) {
            proof {
                assert(before[i as int] == name@);
                assert(before.contains(name@));
            }
            return;
        }
        i = i + 1;
    }
    proof {
        assert(!before.contains(name@));
    }
    out.push(name.clone());
    proof {
        assert(ast::names_view(out@) =~= before.push(name@));
    }
}

fn collect_tickers_expr(expr: &Expr, out: &mut Vec<String>)
    ensures
        ast::names_view(final(out)@) == with_new(
            ast::names_view(old(out)@),
            expr_tickers(expr@),
        ),
    decreases *expr, 0nat,
{
    let ghost before = ast::names_view(out@);
    match expr {
        Expr::Int(_) => {},
        Expr::Float(_) => {},
        Expr::Str(_) => {},
        Expr::Var(_) => {},
        Expr::Field { base, .. } => collect_tickers_expr(&**base, out),
        Expr::Subset { base, .. } => match dag::ticker_shape(expr) {
            Some(symbol) => add_name(out, &symbol),
            None => collect_tickers_expr(&**base, out),
        },
        Expr::Binary { lhs, rhs, .. } => {
            proof {
                lemma_with_new_concat(before, expr_tickers((**lhs)@), expr_tickers((**rhs)@));
            }
            collect_tickers_expr(&**lhs, out);
            collect_tickers_expr(&**rhs, out);
        },
        Expr::If { condition, then_branch, else_branch } => {
            proof {
                let a = expr_tickers((**condition)@);
                let b = expr_tickers((**then_branch)@);
                let c = expr_tickers((**else_branch)@);
                lemma_with_new_concat(before, a, b);
                lemma_with_new_concat(before, a + b, c);
            }
            collect_tickers_expr(&**condition, out);
            collect_tickers_expr(&**then_branch, out);
            collect_tickers_expr(&**else_branch, out);
        },
        Expr::Call { args, .. } => collect_tickers_exprs(args, out),
        Expr::Unsafe { body } => collect_tickers_stmts(body, out),
    }
}

fn collect_tickers_exprs(es: &Vec<Expr>, out: &mut Vec<String>)
    ensures
        ast::names_view(final(out)@) == with_new(
            ast::names_view(old(out)@),
            exprs_tickers(ast::exprs_view(es@), es@.len() as int),
        ),
    decreases *es, 0nat,
{
    let ghost all = ast::exprs_view(es@);
    let ghost before = ast::names_view(out@);
    let mut i: usize = 0;
    while i < es.len()
        invariant
            i <= es@.len(),
            all == ast::exprs_view(es@),
            before == ast::names_view(old(out)@),
            ast::names_view(out@) == with_new(before, exprs_tickers(all, i as int)),
        decreases es@.len() - i,
    {
        proof {
            assert(all[i as int] == es@[i as int]@);
            lemma_with_new_concat(
                before,
                exprs_tickers(all, i as int),
                expr_tickers(all[i as int]),
            );
        }
        collect_tickers_expr(&es[i], out);
        i = i + 1;
    }
}

fn collect_tickers_stmt(stmt: &Stmt, out: &mut Vec<String>)
    ensures
        ast::names_view(final(out)@) == with_new(
            ast::names_view(old(out)@),
            stmt_tickers(stmt@),
        ),
    decreases *stmt, 0nat,
{
    match stmt {
        Stmt::Assign { value, .. } => collect_tickers_expr(value, out),
        Stmt::Print(es) => collect_tickers_exprs(es, out),
        Stmt::Return(e) => collect_tickers_expr(e, out),
        Stmt::FnDef { .. } => {},
        Stmt::While { condition, body } => {
            proof {
                lemma_with_new_concat(
                    ast::names_view(out@),
                    expr_tickers(condition@),
                    stmts_tickers(ast::stmts_view(body@), body@.len() as int),
                );
            }
            collect_tickers_expr(condition, out);
            collect_tickers_stmts(body, out);
        },
    }
}

fn collect_tickers_stmts(body: &Vec<Stmt>, out: &mut Vec<String>)
    ensures
        ast::names_view(final(out)@) == with_new(
            ast::names_view(old(out)@),
            stmts_tickers(ast::stmts_view(body@), body@.len() as int),
        ),
    decreases *body, 0nat,
{
    let ghost all = ast::stmts_view(body@);
    let ghost before = ast::names_view(out@);
    let mut i: usize = 0;
    while i < body.len()
        invariant
            i <= body@.len(),
            all == ast::stmts_view(body@),
            before == ast::names_view(old(out)@),
            ast::names_view(out@) == with_new(before, stmts_tickers(all, i as int)),
        decreases body@.len() - i,
    {
        proof {
            assert(all[i as int] == body@[i as int]@);
            lemma_with_new_concat(
                before,
                stmts_tickers(all, i as int),
                stmt_tickers(all[i as int]),
            );
        }
        collect_tickers_stmt(&body[i], out);
        i = i + 1;
    }
}

/// The tickers of a program, each once.
pub fn collect_tickers(program: &Program) -> (r: Vec<String>)
    ensures
        ast::names_view(r@) == tickers_of(ast::stmts_view(program@)),
{
    let mut out: Vec<String> = Vec::new();
    proof {
        assert(ast::names_view(out@) =~= Seq::<Seq<char>>::empty());
    }
    collect_tickers_stmts(program, &mut out);
    out
}

} // verus!
