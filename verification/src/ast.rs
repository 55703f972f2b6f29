//! The syntax tree of a program, and its mathematical form.
//!
//! `Expr` and `Stmt` are what the parser builds. Contracts speak of their
//! views, `SpecExpr` and `SpecStmt`: the same trees over sequences.

#[allow(unused_imports)]
use crate::number;
use vstd::prelude::*;
use vstd::std_specs::cmp::PartialEqSpecImpl;

verus! {

#[derive(Debug, Clone, Copy, PartialEq, Eq, Structural)]
pub enum BinOp {
    Add,
    Sub,
    Mul,
    Div,
    Lt,
    Gt,
    Le,
    Ge,
    Eq,
    Ne,
    Power,
}

/// An operator as it is written.
pub open spec fn op_text(op: BinOp) -> Seq<char> {
    match op {
        BinOp::Add => "+"@,
        BinOp::Sub => "-"@,
        BinOp::Mul => "*"@,
        BinOp::Div => "/"@,
        BinOp::Lt => "<"@,
        BinOp::Gt => ">"@,
        BinOp::Le => "<="@,
        BinOp::Ge => ">="@,
        BinOp::Eq => "=="@,
        BinOp::Ne => "!="@,
        BinOp::Power => "^"@,
    }
}

impl BinOp {
    /// The operator as it is written.
    pub fn to_text(&self) -> (r: String)
        ensures
            r@ == op_text(*self),
    {
        match self {
            BinOp::Add => "+".to_owned(),
            BinOp::Sub => "-".to_owned(),
            BinOp::Mul => "*".to_owned(),
            BinOp::Div => "/".to_owned(),
            BinOp::Lt => "<".to_owned(),
            BinOp::Gt => ">".to_owned(),
            BinOp::Le => "<=".to_owned(),
            BinOp::Ge => ">=".to_owned(),
            BinOp::Eq => "==".to_owned(),
            BinOp::Ne => "!=".to_owned(),
            BinOp::Power => "^".to_owned(),
        }
    }
}

#[derive(Debug)]
pub enum Expr {
    Int(i64),
    /// A number that is no integer, as the bits of a double.
    Float(u64),
    Str(String),
    Var(String),
    /// `base.name`
    Field { base: Box<Expr>, name: String },
    /// `base<name>`
    Subset { base: Box<Expr>, name: String },
    Binary { op: BinOp, lhs: Box<Expr>, rhs: Box<Expr> },
    /// `if condition { then_branch } else { else_branch }`
    If { condition: Box<Expr>, then_branch: Box<Expr>, else_branch: Box<Expr> },
    /// `name(args)`
    Call { name: String, args: Vec<Expr> },
    /// `[unsafe] { body }`
    Unsafe { body: Vec<Stmt> },
}

#[derive(Debug)]
pub enum Stmt {
    /// `name = value;`, or `mut name = value;`
    Assign { name: String, value: Expr, mutable: bool },
    /// `print(args);`
    Print(Vec<Expr>),
    /// `fn name(params) { body }`
    FnDef { name: String, params: Vec<String>, body: Vec<Stmt> },
    /// `return value;`
    Return(Expr),
    /// `while condition { body }`
    While { condition: Expr, body: Vec<Stmt> },
}

pub type Program = Vec<Stmt>;

pub enum SpecExpr {
    Int(i64),
    Float(u64),
    Str(Seq<char>),
    Var(Seq<char>),
    Field { base: Box<SpecExpr>, name: Seq<char> },
    Subset { base: Box<SpecExpr>, name: Seq<char> },
    Binary { op: BinOp, lhs: Box<SpecExpr>, rhs: Box<SpecExpr> },
    If { condition: Box<SpecExpr>, then_branch: Box<SpecExpr>, else_branch: Box<SpecExpr> },
    Call { name: Seq<char>, args: Seq<SpecExpr> },
    Unsafe { body: Seq<SpecStmt> },
}

pub enum SpecStmt {
    Assign { name: Seq<char>, value: SpecExpr, mutable: bool },
    Print(Seq<SpecExpr>),
    FnDef { name: Seq<char>, params: Seq<Seq<char>>, body: Seq<SpecStmt> },
    Return(SpecExpr),
    While { condition: SpecExpr, body: Seq<SpecStmt> },
}

pub open spec fn names_view(names: Seq<String>) -> Seq<Seq<char>> {
    names.map_values(|s: String| s@)
}

pub open spec fn expr_view(e: Expr) -> SpecExpr
    decreases e,
{
    match e {
        Expr::Int(n) => SpecExpr::Int(n),
        Expr::Float(n) => SpecExpr::Float(n),
        Expr::Str(s) => SpecExpr::Str(s@),
        Expr::Var(s) => SpecExpr::Var(s@),
        Expr::Field { base, name } => SpecExpr::Field {
            base: Box::new(expr_view(*base)),
            name: name@,
        },
        Expr::Subset { base, name } => SpecExpr::Subset {
            base: Box::new(expr_view(*base)),
            name: name@,
        },
        Expr::Binary { op, lhs, rhs } => SpecExpr::Binary {
            op,
            lhs: Box::new(expr_view(*lhs)),
            rhs: Box::new(expr_view(*rhs)),
        },
        Expr::If { condition, then_branch, else_branch } => SpecExpr::If {
            condition: Box::new(expr_view(*condition)),
            then_branch: Box::new(expr_view(*then_branch)),
            else_branch: Box::new(expr_view(*else_branch)),
        },
        Expr::Call { name, args } => SpecExpr::Call { name: name@, args: exprs_view(args@) },
        Expr::Unsafe { body } => SpecExpr::Unsafe { body: stmts_view(body@) },
    }
}

pub open spec fn exprs_view(es: Seq<Expr>) -> Seq<SpecExpr>
    decreases es,
{
    Seq::new(
        es.len(),
        |i: int|
            if 0 <= i < es.len() {
                expr_view(es[i])
            } else {
                arbitrary()
            },
    )
}

pub open spec fn stmts_view(ss: Seq<Stmt>) -> Seq<SpecStmt>
    decreases ss,
{
    Seq::new(
        ss.len(),
        |i: int|
            if 0 <= i < ss.len() {
                stmt_view(ss[i])
            } else {
                arbitrary()
            },
    )
}

pub open spec fn stmt_view(s: Stmt) -> SpecStmt
    decreases s,
{
    match s {
        Stmt::Assign { name, value, mutable } => SpecStmt::Assign {
            name: name@,
            value: expr_view(value),
            mutable,
        },
        Stmt::Print(args) => SpecStmt::Print(exprs_view(args@)),
        Stmt::FnDef { name, params, body } => SpecStmt::FnDef {
            name: name@,
            params: names_view(params@),
            body: stmts_view(body@),
        },
        Stmt::Return(e) => SpecStmt::Return(expr_view(e)),
        Stmt::While { condition, body } => SpecStmt::While {
            condition: expr_view(condition),
            body: stmts_view(body@),
        },
    }
}

impl View for Expr {
    type V = SpecExpr;

    open spec fn view(&self) -> SpecExpr {
        expr_view(*self)
    }
}

impl View for Stmt {
    type V = SpecStmt;

    open spec fn view(&self) -> SpecStmt {
        stmt_view(*self)
    }
}

// ---- equality -------------------------------------------------------------

/// Whether two expressions are the same. Numbers are compared as numbers: a NaN
/// is not the same as itself, and the two zeros are.
pub open spec fn same_expr(a: SpecExpr, b: SpecExpr) -> bool
    decreases a,
{
    match (a, b) {
        (SpecExpr::Float(x), SpecExpr::Float(y)) => number::equal(x, y),
        (SpecExpr::Field { base: x, name: n }, SpecExpr::Field { base: y, name: o }) => same_expr(
            *x,
            *y,
        ) && n == o,
        (SpecExpr::Subset { base: x, name: n }, SpecExpr::Subset { base: y, name: o }) => same_expr(
            *x,
            *y,
        ) && n == o,
        (
            SpecExpr::Binary { op: p, lhs: x, rhs: v },
            SpecExpr::Binary { op: q, lhs: y, rhs: w },
        ) => p == q && same_expr(*x, *y) && same_expr(*v, *w),
        (
            SpecExpr::If { condition: c, then_branch: x, else_branch: v },
            SpecExpr::If { condition: d, then_branch: y, else_branch: w },
        ) => same_expr(*c, *d) && same_expr(*x, *y) && same_expr(*v, *w),
        (SpecExpr::Call { name: n, args: x }, SpecExpr::Call { name: o, args: y }) => n == o
            && same_exprs(x, y),
        (SpecExpr::Unsafe { body: x }, SpecExpr::Unsafe { body: y }) => same_stmts(x, y),
        _ => a == b,
    }
}

pub open spec fn same_exprs(a: Seq<SpecExpr>, b: Seq<SpecExpr>) -> bool
    decreases a,
{
    a.len() == b.len() && forall|i: int| 0 <= i < a.len() ==> same_expr(#[trigger] a[i], b[i])
}

/// Whether two statements are the same, their numbers compared as numbers.
pub open spec fn same_stmt(a: SpecStmt, b: SpecStmt) -> bool
    decreases a,
{
    match (a, b) {
        (
            SpecStmt::Assign { name: n, value: x, mutable: c },
            SpecStmt::Assign { name: o, value: y, mutable: d },
        ) => n == o && same_expr(x, y) && c == d,
        (SpecStmt::Print(x), SpecStmt::Print(y)) => same_exprs(x, y),
        (
            SpecStmt::FnDef { name: n, params: p, body: x },
            SpecStmt::FnDef { name: o, params: q, body: y },
        ) => n == o && p == q && same_stmts(x, y),
        (SpecStmt::Return(x), SpecStmt::Return(y)) => same_expr(x, y),
        (
            SpecStmt::While { condition: c, body: x },
            SpecStmt::While { condition: d, body: y },
        ) => same_expr(c, d) && same_stmts(x, y),
        _ => false,
    }
}

pub open spec fn same_stmts(a: Seq<SpecStmt>, b: Seq<SpecStmt>) -> bool
    decreases a,
{
    a.len() == b.len() && forall|i: int| 0 <= i < a.len() ==> same_stmt(#[trigger] a[i], b[i])
}

fn compare_names(a: &Vec<String>, b: &Vec<String>) -> (r: bool)
    ensures
        r == (names_view(a@) == names_view(b@)),
{
    if a.len() != b.len() {
        proof {
            assert(names_view(a@).len() != names_view(b@).len());
        }
        return false;
    }
    for i in 0..a.len()
        invariant
            a.len() == b.len(),
            forall|j: int| 0 <= j < i ==> a[j]@ == b[j]@,
    {
        if a[i] != b[i] {
            proof {
                assert(names_view(a@)[i as int] != names_view(b@)[i as int]);
            }
            return false;
        }
    }
    proof {
        assert(names_view(a@) =~= names_view(b@));
    }
    true
}

fn compare_exprs(a: &Vec<Expr>, b: &Vec<Expr>) -> (r: bool)
    ensures
        r == same_exprs(exprs_view(a@), exprs_view(b@)),
    decreases *a,
{
    if a.len() != b.len() {
        return false;
    }
    for i in 0..a.len()
        invariant
            a.len() == b.len(),
            forall|j: int| 0 <= j < i ==> same_expr(#[trigger] exprs_view(a@)[j], exprs_view(b@)[j]),
    {
        if !compare_expr(&a[i], &b[i]) {
            proof {
                assert(!same_expr(exprs_view(a@)[i as int], exprs_view(b@)[i as int]));
            }
            return false;
        }
    }
    true
}

fn compare_stmts(a: &Vec<Stmt>, b: &Vec<Stmt>) -> (r: bool)
    ensures
        r == same_stmts(stmts_view(a@), stmts_view(b@)),
    decreases *a,
{
    if a.len() != b.len() {
        return false;
    }
    for i in 0..a.len()
        invariant
            a.len() == b.len(),
            forall|j: int| 0 <= j < i ==> same_stmt(#[trigger] stmts_view(a@)[j], stmts_view(b@)[j]),
    {
        if !compare_stmt(&a[i], &b[i]) {
            proof {
                assert(!same_stmt(stmts_view(a@)[i as int], stmts_view(b@)[i as int]));
            }
            return false;
        }
    }
    true
}

fn compare_expr(a: &Expr, b: &Expr) -> (r: bool)
    ensures
        r == same_expr(a@, b@),
    decreases *a,
{
    match (a, b) {
        (Expr::Int(x), Expr::Int(y)) => *x == *y,
        (Expr::Float(x), Expr::Float(y)) => number::eq(*x, *y),
        (Expr::Str(x), Expr::Str(y)) => *x == *y,
        (Expr::Var(x), Expr::Var(y)) => *x == *y,
        (Expr::Field { base: x, name: n }, Expr::Field { base: y, name: o }) => compare_expr(
            &**x,
            &**y,
        ) && *n == *o,
        (Expr::Subset { base: x, name: n }, Expr::Subset { base: y, name: o }) => compare_expr(
            &**x,
            &**y,
        ) && *n == *o,
        (Expr::Binary { op: p, lhs: x, rhs: v }, Expr::Binary { op: q, lhs: y, rhs: w }) => *p == *q
            && compare_expr(&**x, &**y) && compare_expr(&**v, &**w),
        (
            Expr::If { condition: c, then_branch: x, else_branch: v },
            Expr::If { condition: d, then_branch: y, else_branch: w },
        ) => compare_expr(&**c, &**d) && compare_expr(&**x, &**y) && compare_expr(&**v, &**w),
        (Expr::Call { name: n, args: x }, Expr::Call { name: o, args: y }) => *n == *o
            && compare_exprs(x, y),
        (Expr::Unsafe { body: x }, Expr::Unsafe { body: y }) => compare_stmts(x, y),
        _ => false,
    }
}

fn compare_stmt(a: &Stmt, b: &Stmt) -> (r: bool)
    ensures
        r == same_stmt(a@, b@),
    decreases *a,
{
    match (a, b) {
        (
            Stmt::Assign { name: n, value: x, mutable: c },
            Stmt::Assign { name: o, value: y, mutable: d },
        ) => *n == *o && compare_expr(x, y) && *c == *d,
        (Stmt::Print(x), Stmt::Print(y)) => compare_exprs(x, y),
        (
            Stmt::FnDef { name: n, params: p, body: x },
            Stmt::FnDef { name: o, params: q, body: y },
        ) => *n == *o && compare_names(p, q) && compare_stmts(x, y),
        (Stmt::Return(x), Stmt::Return(y)) => compare_expr(x, y),
        (Stmt::While { condition: c, body: x }, Stmt::While { condition: d, body: y }) => {
            compare_expr(c, d) && compare_stmts(x, y)
        },
        _ => false,
    }
}

impl PartialEq for Expr {
    fn eq(&self, other: &Expr) -> (r: bool) {
        compare_expr(self, other)
    }
}

impl PartialEqSpecImpl for Expr {
    open spec fn obeys_eq_spec() -> bool {
        true
    }

    open spec fn eq_spec(&self, other: &Expr) -> bool {
        same_expr(self@, other@)
    }
}

impl PartialEq for Stmt {
    fn eq(&self, other: &Stmt) -> (r: bool) {
        compare_stmt(self, other)
    }
}

impl PartialEqSpecImpl for Stmt {
    open spec fn obeys_eq_spec() -> bool {
        true
    }

    open spec fn eq_spec(&self, other: &Stmt) -> bool {
        same_stmt(self@, other@)
    }
}

// ---- copies ---------------------------------------------------------------

/// The same names again.
pub fn copy_names(names: &Vec<String>) -> (r: Vec<String>)
    ensures
        names_view(r@) == names_view(names@),
{
    let mut r: Vec<String> = Vec::new();
    for i in 0..names.len()
        invariant
            r.len() == i,
            forall|j: int| 0 <= j < i ==> r[j] == names[j],
    {
        r.push(names[i].clone());
    }
    r
}

/// The same expressions again.
pub fn copy_exprs(es: &Vec<Expr>) -> (r: Vec<Expr>)
    ensures
        exprs_view(r@) == exprs_view(es@),
    decreases *es,
{
    let mut r: Vec<Expr> = Vec::new();
    for i in 0..es.len()
        invariant
            r.len() == i,
            forall|j: int| 0 <= j < i ==> r[j]@ == es[j]@,
    {
        r.push(es[i].clone());
    }
    r
}

/// The same statements again.
pub fn copy_stmts(es: &Vec<Stmt>) -> (r: Vec<Stmt>)
    ensures
        stmts_view(r@) == stmts_view(es@),
    decreases *es,
{
    let mut r: Vec<Stmt> = Vec::new();
    for i in 0..es.len()
        invariant
            r.len() == i,
            forall|j: int| 0 <= j < i ==> r[j]@ == es[j]@,
    {
        r.push(es[i].clone());
    }
    r
}

impl Clone for Expr {
    fn clone(&self) -> (r: Expr)
        ensures
            r@ == self@,
        decreases *self,
    {
        match self {
            Expr::Int(n) => Expr::Int(*n),
            Expr::Float(n) => Expr::Float(*n),
            Expr::Str(s) => Expr::Str(s.clone()),
            Expr::Var(s) => Expr::Var(s.clone()),
            Expr::Field { base, name } => Expr::Field {
                base: Box::new((**base).clone()),
                name: name.clone(),
            },
            Expr::Subset { base, name } => Expr::Subset {
                base: Box::new((**base).clone()),
                name: name.clone(),
            },
            Expr::Binary { op, lhs, rhs } => Expr::Binary {
                op: *op,
                lhs: Box::new((**lhs).clone()),
                rhs: Box::new((**rhs).clone()),
            },
            Expr::If { condition, then_branch, else_branch } => Expr::If {
                condition: Box::new((**condition).clone()),
                then_branch: Box::new((**then_branch).clone()),
                else_branch: Box::new((**else_branch).clone()),
            },
            Expr::Call { name, args } => Expr::Call { name: name.clone(), args: copy_exprs(args) },
            Expr::Unsafe { body } => Expr::Unsafe { body: copy_stmts(body) },
        }
    }
}

impl Clone for Stmt {
    fn clone(&self) -> (r: Stmt)
        ensures
            r@ == self@,
        decreases *self,
    {
        match self {
            Stmt::Assign { name, value, mutable } => Stmt::Assign {
                name: name.clone(),
                value: value.clone(),
                mutable: *mutable,
            },
            Stmt::Print(args) => Stmt::Print(copy_exprs(args)),
            Stmt::FnDef { name, params, body } => Stmt::FnDef {
                name: name.clone(),
                params: copy_names(params),
                body: copy_stmts(body),
            },
            Stmt::Return(e) => Stmt::Return(e.clone()),
            Stmt::While { condition, body } => Stmt::While {
                condition: condition.clone(),
                body: copy_stmts(body),
            },
        }
    }
}

} // verus!
