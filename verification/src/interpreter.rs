//! The interpreter: a machine that runs a program step by step.
//!
//! [`Interpreter::run`] starts a program and [`Interpreter::step`] advances it.
//! Each step says what is to be done before the next: nothing, something in the
//! outside world, or no more.

#[allow(unused_imports)]
use crate::ast::{self, BinOp, Expr, Program, SpecStmt, Stmt};
use crate::dag;
#[allow(unused_imports)]
use crate::machine::{
    self, Outcome, SpecCallee, SpecControl, SpecFlow, SpecFn, SpecFrame, SpecMachine, SpecPending,
    SpecReply, SpecState,
};
#[allow(unused_imports)]
use crate::names::{self, Duplicate, NameMap};
#[allow(unused_imports)]
use crate::number::{self, Bits, NumberModel, Numbers};
use crate::purity;
pub use crate::purity::collect_tickers;
#[allow(unused_imports)]
use crate::render;
#[allow(unused_imports)]
use crate::stdlib::{self, Native};
#[allow(unused_imports)]
use crate::text;
#[allow(unused_imports)]
use crate::value::{self, SpecBinding, SpecValue};
pub use crate::value::{Binding, RuntimeError, Value};
use vstd::prelude::*;

verus! {

impl Duplicate for Binding {
    fn duplicate(&self) -> (r: Binding) {
        self.clone()
    }
}

/// A function of the program.
#[derive(Debug)]
struct FnDecl {
    params: Vec<String>,
    body: Vec<Stmt>,
}

impl View for FnDecl {
    type V = SpecFn;

    closed spec fn view(&self) -> SpecFn {
        SpecFn { params: ast::names_view(self.params@), body: ast::stmts_view(self.body@) }
    }
}

impl FnDecl {
    fn copy(&self) -> (r: FnDecl)
        ensures
            r@ == self@,
    {
        FnDecl { params: ast::copy_names(&self.params), body: ast::copy_stmts(&self.body) }
    }
}

#[derive(Debug)]
enum Callee {
    Native(Native),
    Function(FnDecl),
}

impl View for Callee {
    type V = SpecCallee;

    closed spec fn view(&self) -> SpecCallee {
        match *self {
            Callee::Native(f) => SpecCallee::Native(f),
            Callee::Function(f) => SpecCallee::Function(f@),
        }
    }
}

#[derive(Debug)]
enum Flow {
    Normal,
    Return(Value),
}

impl View for Flow {
    type V = SpecFlow;

    closed spec fn view(&self) -> SpecFlow {
        match *self {
            Flow::Normal => SpecFlow::Normal,
            Flow::Return(v) => SpecFlow::Return(v@),
        }
    }
}

type Env = Vec<NameMap<Binding>>;

#[derive(Debug)]
enum Frame {
    FieldOf(String),
    LeftOf(BinOp, Expr),
    RightOf(BinOp, Bits),
    Choice(Expr, Expr),
    Args(Callee, Vec<Value>, Vec<Expr>),
    AssignTo(String, bool),
    PrintAfter(String, Vec<Expr>, usize),
    ReturnIt,
    LoopIf(Expr, Vec<Stmt>),
    Round(Expr, Vec<Stmt>),
    Body(Vec<Stmt>, usize),
    FunctionEnd(Env),
    UnsafeEnd(Env, bool),
    Top(Vec<Stmt>, usize),
}

impl View for Frame {
    type V = SpecFrame;

    closed spec fn view(&self) -> SpecFrame {
        match *self {
            Frame::FieldOf(name) => SpecFrame::FieldOf(name@),
            Frame::LeftOf(op, rhs) => SpecFrame::LeftOf(op, rhs@),
            Frame::RightOf(op, l) => SpecFrame::RightOf(op, l),
            Frame::Choice(a, b) => SpecFrame::Choice(a@, b@),
            Frame::Args(c, done, args) => SpecFrame::Args(
                c@,
                stdlib::dcf::values_view(done@),
                ast::exprs_view(args@),
            ),
            Frame::AssignTo(name, mutable) => SpecFrame::AssignTo(name@, mutable),
            Frame::PrintAfter(out, es, i) => SpecFrame::PrintAfter(
                out@,
                ast::exprs_view(es@),
                i as int,
            ),
            Frame::ReturnIt => SpecFrame::ReturnIt,
            Frame::LoopIf(c, body) => SpecFrame::LoopIf(c@, ast::stmts_view(body@)),
            Frame::Round(c, body) => SpecFrame::Round(c@, ast::stmts_view(body@)),
            Frame::Body(body, i) => SpecFrame::Body(ast::stmts_view(body@), i as int),
            Frame::FunctionEnd(env) => SpecFrame::FunctionEnd(names::scopes_view(env@)),
            Frame::UnsafeEnd(env, before) => SpecFrame::UnsafeEnd(
                names::scopes_view(env@),
                before,
            ),
            Frame::Top(prog, i) => SpecFrame::Top(ast::stmts_view(prog@), i as int),
        }
    }
}

/// What the outside world is asked for.
#[derive(Debug)]
pub enum Pending {
    /// To print a text.
    Print(String),
    /// That there be a data directory, for the sake of a ticker.
    Directory(String),
    /// Whether there is a data file for the ticker.
    File(String),
    /// To run the generator script for the ticker.
    Script(String),
    /// The data file of the ticker.
    Document(String),
}

impl View for Pending {
    type V = SpecPending;

    open spec fn view(&self) -> SpecPending {
        match *self {
            Pending::Print(s) => SpecPending::Print(s@),
            Pending::Directory(t) => SpecPending::Directory(t@),
            Pending::File(t) => SpecPending::File(t@),
            Pending::Script(t) => SpecPending::Script(t@),
            Pending::Document(t) => SpecPending::Document(t@),
        }
    }
}

impl Pending {
    fn copy(&self) -> (r: Pending)
        ensures
            r@ == self@,
    {
        match self {
            Pending::Print(s) => Pending::Print(s.clone()),
            Pending::Directory(t) => Pending::Directory(t.clone()),
            Pending::File(t) => Pending::File(t.clone()),
            Pending::Script(t) => Pending::Script(t.clone()),
            Pending::Document(t) => Pending::Document(t.clone()),
        }
    }
}

/// The reply of the outside world. `path` is the file that was read, `text`
/// what it holds, or what went wrong.
#[derive(Debug)]
pub struct Reply {
    pub outcome: Outcome,
    pub path: String,
    pub text: String,
}

impl View for Reply {
    type V = SpecReply;

    open spec fn view(&self) -> SpecReply {
        SpecReply { outcome: self.outcome, path: self.path@, text: self.text@ }
    }
}

#[derive(Debug)]
enum Control {
    Eval(Expr),
    Give(Value),
    Exec(Stmt),
    Done(Flow),
    Fail(RuntimeError),
    Wait(Pending),
    Stop(Result<(), RuntimeError>),
}

/// The view of how a program ended.
pub open spec fn end_view(r: Result<(), RuntimeError>) -> Result<(), Seq<char>> {
    match r {
        Ok(()) => Ok(()),
        Err(e) => Err(e@),
    }
}

impl View for Control {
    type V = SpecControl;

    closed spec fn view(&self) -> SpecControl {
        match *self {
            Control::Eval(e) => SpecControl::Eval(e@),
            Control::Give(v) => SpecControl::Give(v@),
            Control::Exec(s) => SpecControl::Exec(s@),
            Control::Done(flow) => SpecControl::Done(flow@),
            Control::Fail(e) => SpecControl::Fail(e@),
            Control::Wait(p) => SpecControl::Wait(p@),
            Control::Stop(r) => SpecControl::Stop(end_view(r)),
        }
    }
}

/// What is to be done before the next step.
#[derive(Debug)]
pub enum Action {
    /// Nothing.
    Continue,
    /// The outside world is asked, and its reply is for the next step.
    Ask(Pending),
    /// The program has ended.
    Finished(Result<(), RuntimeError>),
}

pub enum SpecAction {
    Continue,
    Ask(SpecPending),
    Finished(Result<(), Seq<char>>),
}

impl View for Action {
    type V = SpecAction;

    open spec fn view(&self) -> SpecAction {
        match *self {
            Action::Continue => SpecAction::Continue,
            Action::Ask(p) => SpecAction::Ask(p@),
            Action::Finished(r) => SpecAction::Finished(end_view(r)),
        }
    }
}

/// What is to be done before the next step of `x`.
pub open spec fn action_of(x: SpecMachine) -> SpecAction {
    match x.control {
        SpecControl::Wait(p) => SpecAction::Ask(p),
        SpecControl::Stop(r) => SpecAction::Finished(r),
        _ => SpecAction::Continue,
    }
}

/// The files that show the graph of a program, to be put into the data
/// directory.
#[derive(Debug)]
pub struct DagFiles {
    pub fic_name: String,
    pub fic: String,
    pub dot_name: String,
    pub dot: String,
}

#[derive(Debug)]
pub struct Interpreter {
    env: Env,
    functions: NameMap<FnDecl>,
    natives: NameMap<Native>,
    data_dir: String,
    generator_script: String,
    python_bin: String,
    prefetched: Vec<String>,
    in_unsafe: bool,
    params: NameMap<String>,
    control: Control,
    frames: Vec<Frame>,
}

spec fn frames_view(fs: Seq<Frame>) -> Seq<SpecFrame> {
    fs.map_values(|f: Frame| f@)
}

impl View for Interpreter {
    type V = SpecMachine;

    closed spec fn view(&self) -> SpecMachine {
        SpecMachine {
            st: SpecState {
                env: names::scopes_view(self.env@),
                functions: self.functions@,
                natives: self.natives@,
                in_unsafe: self.in_unsafe,
                params: self.params@,
                prefetched: ast::names_view(self.prefetched@),
                data_dir: self.data_dir@,
                generator_script: self.generator_script@,
                python_bin: self.python_bin@,
            },
            control: self.control@,
            frames: frames_view(self.frames@),
        }
    }
}

/// A machine before any program has run.
pub open spec fn fresh(data_dir: Seq<char>, generator_script: Seq<char>) -> SpecMachine {
    SpecMachine {
        st: SpecState {
            env: seq![Seq::empty()],
            functions: Seq::empty(),
            natives: Seq::empty(),
            in_unsafe: false,
            params: Seq::empty(),
            prefetched: Seq::empty(),
            data_dir,
            generator_script,
            python_bin: "python3"@,
        },
        control: SpecControl::Stop(Ok(())),
        frames: Seq::empty(),
    }
}

impl Interpreter {
    pub fn new(data_dir: String, generator_script: String) -> (r: Self)
        ensures
            r@ == fresh(data_dir@, generator_script@),
            machine::wf(r@),
    {
        let mut env: Env = Vec::new();
        env.push(NameMap::new());
        let r = Interpreter {
            env,
            functions: NameMap::new(),
            natives: NameMap::new(),
            data_dir,
            generator_script,
            python_bin: "python3".to_owned(),
            prefetched: Vec::new(),
            in_unsafe: false,
            params: NameMap::new(),
            control: Control::Stop(Ok(())),
            frames: Vec::new(),
        };
        proof {
            assert(r@.st.env =~= seq![Seq::empty()]);
            assert(r@.st.prefetched =~= Seq::<Seq<char>>::empty());
            assert(r@.frames =~= Seq::<SpecFrame>::empty());
        }
        r
    }

    /// Supply the `--name=value` overrides for `param()` slots.
    pub fn with_params(self, params: NameMap<String>) -> (r: Self)
        ensures
            r@ == (SpecMachine { st: SpecState { params: params@, ..self@.st }, ..self@ }),
            machine::wf(self@) ==> machine::wf(r@),
    {
        let mut r = self;
        r.params = params;
        r
    }

    pub fn with_python_bin(self, bin: String) -> (r: Self)
        ensures
            r@ == (SpecMachine { st: SpecState { python_bin: bin@, ..self@.st }, ..self@ }),
            machine::wf(self@) ==> machine::wf(r@),
    {
        let mut r = self;
        r.python_bin = bin;
        r
    }

    /// Note that the data of a ticker was fetched before the run.
    pub fn mark_prefetched(&mut self, ticker: String)
        ensures
            final(self)@ == (SpecMachine {
                st: SpecState {
                    prefetched: purity::with_new(old(self)@.st.prefetched, seq![ticker@]),
                    ..old(self)@.st
                },
                ..old(self)@
            }),
            machine::wf(old(self)@) ==> machine::wf(final(self)@),
    {
        purity::add_name(&mut self.prefetched, &ticker);
    }

    pub fn data_dir(&self) -> (r: &str)
        ensures
            r@ == self@.st.data_dir,
    {
        self.data_dir.as_str()
    }

    pub fn generator_script(&self) -> (r: &str)
        ensures
            r@ == self@.st.generator_script,
    {
        self.generator_script.as_str()
    }

    pub fn python_bin(&self) -> (r: &str)
        ensures
            r@ == self@.st.python_bin,
    {
        self.python_bin.as_str()
    }

    /// Let `name` call a prewritten function.
    pub fn register_native(&mut self, name: String, f: Native)
        ensures
            final(self)@ == (SpecMachine {
                st: SpecState {
                    natives: names::put(old(self)@.st.natives, name@, f),
                    ..old(self)@.st
                },
                ..old(self)@
            }),
            machine::wf(old(self)@) ==> machine::wf(final(self)@),
    {
        self.natives.insert(name, f);
    }

    /// What `name` stands for.
    pub fn env_get(&self, name: &str) -> (r: Option<&Binding>)
        ensures
            match r {
                Some(b) => names::lookup_in(self@.st.env, name@) == Some(b@),
                None => names::lookup_in(self@.st.env, name@) is None,
            },
    {
        names::find_in(&self.env, name)
    }

    /// The graph of `program` as a `.fic` file and as a Graphviz file, named
    /// after `source_stem`.
    pub fn save_dag_file<N: Numbers>(
        &self,
        program: &Program,
        source_stem: &str,
        nums: &N,
    ) -> (r: Result<DagFiles, RuntimeError>)
        ensures
            r matches Ok(files) && files.fic_name@ == source_stem@ + ".fic"@ && files.dot_name@
                == source_stem@ + ".dot"@,
            forall|m: NumberModel| #[trigger]
                number::computes(*nums, m) ==> ({
                    let prog = ast::stmts_view(program@);
                    let d = dag::dag_of(m, prog, prog.len() as int);
                    &&& r->Ok_0.fic@ == render::file_text(m, prog, d)
                    &&& r->Ok_0.dot@ == render::dot_text(d)
                }),
    {
        match dag::build_dag(program, nums) {
            Err(e) => Err(value::fail("could not build DAG: ", e.to_text().as_str())),
            Ok(graph) => {
                let mut fic_name = source_stem.to_owned();
                fic_name.append(".fic");
                let mut dot_name = source_stem.to_owned();
                dot_name.append(".dot");
                let fic = render::render_dag_file(program, &graph, nums);
                let dot = graph.to_dot();
                Ok(DagFiles { fic_name, fic, dot_name, dot })
            },
        }
    }

    // ---- the parts of the machine ----

    fn push(&mut self, f: Frame)
        ensures
            final(self)@ == (SpecMachine { frames: old(self)@.frames.push(f@), ..old(self)@ }),
    {
        let ghost before = self@;
        self.frames.push(f);
        proof {
            assert(self@.frames =~= before.frames.push(f@));
        }
    }

    fn pop(&mut self) -> (r: Frame)
        requires
            old(self)@.frames.len() > 0,
        ensures
            r@ == old(self)@.frames.last(),
            final(self)@ == (SpecMachine { frames: old(self)@.frames.drop_last(), ..old(self)@ }),
    {
        let ghost before = self@;
        proof {
            assert(before.frames.len() == self.frames@.len());
        }
        let f = self.frames.pop().unwrap();
        proof {
            assert(self@.frames =~= before.frames.drop_last());
        }
        f
    }

    fn go(&mut self, c: Control)
        ensures
            final(self)@ == (SpecMachine { control: c@, ..old(self)@ }),
    {
        self.control = c;
    }

    fn fail(&mut self, e: RuntimeError)
        ensures
            final(self)@ == (SpecMachine { control: SpecControl::Fail(e@), ..old(self)@ }),
    {
        self.control = Control::Fail(e);
    }

    fn give(&mut self, r: Result<Value, RuntimeError>)
        ensures
            final(self)@ == (SpecMachine {
                control: machine::give(value::result_view(r)),
                ..old(self)@
            }),
    {
        match r {
            Ok(v) => self.go(Control::Give(v)),
            Err(e) => self.fail(e),
        }
    }

    fn set_env(&mut self, env: Env)
        ensures
            final(self)@ == (SpecMachine {
                st: machine::with_env(old(self)@.st, names::scopes_view(env@)),
                ..old(self)@
            }),
    {
        self.env = env;
    }

    fn enter(&mut self)
        ensures
            final(self)@ == (SpecMachine { st: machine::enter(old(self)@.st), ..old(self)@ }),
    {
        let ghost before = self@;
        self.env.push(NameMap::new());
        proof {
            assert(self@.st.env =~= before.st.env.push(Seq::empty()));
        }
    }

    fn leave(&mut self)
        requires
            old(self)@.st.env.len() > 0,
        ensures
            final(self)@ == (SpecMachine { st: machine::leave(old(self)@.st), ..old(self)@ }),
    {
        let ghost before = self@;
        proof {
            assert(before.st.env.len() == self.env@.len());
        }
        self.env.pop();
        proof {
            assert(self@.st.env =~= before.st.env.drop_last());
        }
    }

    fn declare(&mut self, name: String, value: Value, mutable: bool)
        requires
            old(self)@.st.env.len() > 0,
        ensures
            final(self)@ == (SpecMachine {
                st: machine::declare(
                    old(self)@.st,
                    name@,
                    SpecBinding { value: value@, mutable },
                ),
                ..old(self)@
            }),
    {
        proof {
            assert(self@.st.env.len() == self.env@.len());
        }
        let last = self.env.len() - 1;
        names::set_in(&mut self.env, last, name, Binding { value, mutable });
    }

    // ---- expressions ----

    /// Run the statements from the `i`th on.
    fn run_body(&mut self, body: Vec<Stmt>, i: usize)
        requires
            i <= body@.len(),
            machine::stack_fits(old(self)@.frames, false),
            machine::scopes_fit(old(self)@.frames, old(self)@.st.env.len()),
        ensures
            final(self)@ == machine::run_body(
                old(self)@.st,
                ast::stmts_view(body@),
                i as int,
                old(self)@.frames,
            ),
            machine::wf(final(self)@),
    {
        proof {
            machine::lemma_body_fits(
                self@.st,
                ast::stmts_view(body@),
                i as int,
                self@.frames,
            );
        }
        if i < body.len() {
            let stmt = body[i].clone();
            proof {
                assert(ast::stmts_view(body@)[i as int] == stmt@);
            }
            self.push(Frame::Body(body, i + 1));
            self.go(Control::Exec(stmt));
        } else {
            self.go(Control::Done(Flow::Normal));
        }
    }

    fn find_callee(&self, name: &str, n: usize) -> (r: Result<Callee, RuntimeError>)
        ensures
            machine::callee(self@.st, name@, n as nat) == (match r {
                Ok(c) => Ok::<SpecCallee, Seq<char>>(c@),
                Err(e) => Err(e@),
            }),
    {
        if let Some(f) = self.natives.get(name) {
            return Ok(Callee::Native(*f));
        }
        match self.functions.get(name) {
            Some(f) => {
                proof {
                    assert(f@.params.len() == f.params@.len());
                }
                if n == f.params.len() {
                    Ok(Callee::Function(f.copy()))
                } else {
                    let mut s = "function `".to_owned();
                    s.append(name);
                    s.append("` expects ");
                    s.append(text::usize_text(f.params.len()).as_str());
                    s.append(" argument(s), got ");
                    s.append(text::usize_text(n).as_str());
                    Err(RuntimeError::new(s))
                }
            },
            None => Err(value::fail_at("undefined function `", name, "`")),
        }
    }

    /// Evaluate the next argument; call when there is none.
    fn run_args<N: Numbers>(
        &mut self,
        callee: Callee,
        done: Vec<Value>,
        args: Vec<Expr>,
        nums: &N,
    )
        requires
            done@.len() <= args@.len(),
            callee@ matches SpecCallee::Function(f) ==> f.params.len() == args@.len(),
            machine::stack_fits(old(self)@.frames, true),
            machine::scopes_fit(old(self)@.frames, old(self)@.st.env.len()),
        ensures
            forall|m: NumberModel| #[trigger]
                number::computes(*nums, m) ==> final(self)@ == machine::run_args(
                    m,
                    old(self)@.st,
                    callee@,
                    stdlib::dcf::values_view(done@),
                    ast::exprs_view(args@),
                    old(self)@.frames,
                ),
            machine::wf(final(self)@),
    {
        broadcast use machine::lemma_push_last;

        proof {
            assert(stdlib::dcf::values_view(done@).len() == done@.len());
            assert(ast::exprs_view(args@).len() == args@.len());
        }
        if done.len() < args.len() {
            let next = args[done.len()].clone();
            self.push(Frame::Args(callee, done, args));
            self.go(Control::Eval(next));
        } else {
            match callee {
                Callee::Native(f) => {
                    let r = f.call(done.as_slice(), nums);
                    self.give(r);
                },
                Callee::Function(f) => {
                    let scope = bind_arguments(&f.params, &done);
                    let mut env: Env = Vec::new();
                    env.push(scope);
                    proof {
                        assert(names::scopes_view(env@) =~= seq![scope@]);
                    }
                    let caller_env = self.replace_env(env);
                    self.push(Frame::FunctionEnd(caller_env));
                    self.run_body(f.body, 0);
                },
            }
        }
    }

    /// Put other scopes in place of these.
    fn replace_env(&mut self, env: Env) -> (r: Env)
        ensures
            names::scopes_view(r@) == old(self)@.st.env,
            final(self)@ == (SpecMachine {
                st: machine::with_env(old(self)@.st, names::scopes_view(env@)),
                ..old(self)@
            }),
    {
        let mut other = env;
        std::mem::swap(&mut self.env, &mut other);
        other
    }

    /// Start with an expression.
    fn eval<N: Numbers>(&mut self, expr: Expr, nums: &N)
        requires
            machine::stack_fits(old(self)@.frames, true),
            machine::scopes_fit(old(self)@.frames, old(self)@.st.env.len()),
        ensures
            forall|m: NumberModel| #[trigger]
                number::computes(*nums, m) ==> final(self)@ == machine::eval_step(
                    m,
                    old(self)@.st,
                    expr@,
                    old(self)@.frames,
                ),
            machine::wf(final(self)@),
    {
        broadcast use machine::lemma_push_last;

        match expr {
            Expr::Int(n) => self.go(Control::Give(Value::Number(number::of_int(n)))),
            Expr::Float(n) => self.go(Control::Give(Value::Number(n))),
            Expr::Str(s) => self.go(Control::Give(Value::Str(s))),
            Expr::Var(name) => {
                let r = self.variable(name.as_str());
                self.give(r);
            },
            Expr::Field { base, name } => {
                self.push(Frame::FieldOf(name));
                self.go(Control::Eval(*base));
            },
            Expr::Subset { base, name } => {
                let e = Expr::Subset { base, name };
                match dag::ticker_shape(&e) {
                    Some(ticker) => self.go(Control::Wait(Pending::Directory(ticker))),
                    None => {
                        if let Expr::Subset { base, name } = e {
                            self.push(Frame::FieldOf(name));
                            self.go(Control::Eval(*base));
                        }
                    },
                }
            },
            Expr::Binary { op, lhs, rhs } => {
                self.push(Frame::LeftOf(op, *rhs));
                self.go(Control::Eval(*lhs));
            },
            Expr::If { condition, then_branch, else_branch } => {
                self.push(Frame::Choice(*then_branch, *else_branch));
                self.go(Control::Eval(*condition));
            },
            Expr::Call { name, args } => {
                proof {
                    assert(ast::exprs_view(args@).len() == args@.len());
                }
                match self.find_callee(name.as_str(), args.len()) {
                    Ok(callee) => {
                        let done: Vec<Value> = Vec::new();
                        proof {
                            assert(stdlib::dcf::values_view(done@) =~= Seq::<SpecValue>::empty());
                        }
                        self.run_args(callee, done, args, nums);
                    },
                    Err(e) => self.fail(e),
                }
            },
            Expr::Unsafe { body } => {
                let saved = names::copy_scopes(&self.env);
                self.push(Frame::UnsafeEnd(saved, self.in_unsafe));
                self.in_unsafe = true;
                self.enter();
                self.run_body(body, 0);
            },
        }
    }

    fn variable(&self, name: &str) -> (r: Result<Value, RuntimeError>)
        ensures
            value::result_view(r) == machine::variable(self@.st, name@),
    {
        match names::find_in(&self.env, name) {
            Some(b) => Ok(b.value.clone()),
            None => Err(value::fail_at("undefined variable `", name, "`")),
        }
    }
}

/// What a condition says.
fn condition<N: Numbers>(of: &str, v: &Value, nums: &N) -> (r: Result<bool, RuntimeError>)
    ensures
        forall|m: NumberModel| #[trigger]
            number::computes(*nums, m) ==> machine::condition(m, of@, v@) == (match r {
                Ok(b) => Ok::<bool, Seq<char>>(b),
                Err(e) => Err(e@),
            }),
{
    match v {
        Value::Number(n) => Ok(!number::zero(*n)),
        other => {
            let mut s = "condition in `".to_owned();
            s.append(of);
            s.append("` must be a number, found ");
            s.append(other.to_text(nums).as_str());
            Err(RuntimeError::new(s))
        },
    }
}

fn binary_value<N: Numbers>(op: BinOp, l: Bits, r: Bits, nums: &N) -> (res: Result<
    Value,
    RuntimeError,
>)
    ensures
        forall|m: NumberModel| #[trigger]
            number::computes(*nums, m) ==> value::result_view(res) == machine::binary_value(
                m,
                op,
                l,
                r,
            ),
{
    match number::eval_binop(nums, op, l, r) {
        Some(n) => Ok(Value::Number(n)),
        None => Err(RuntimeError::new("division by zero".to_owned())),
    }
}

impl Interpreter {
    /// Print the next expression; ask for the printing when there is none.
    fn run_print(&mut self, out: String, es: Vec<Expr>, i: usize)
        requires
            i <= es@.len(),
            machine::stack_fits(old(self)@.frames, false),
            machine::scopes_fit(old(self)@.frames, old(self)@.st.env.len()),
        ensures
            final(self)@ == machine::run_print(
                old(self)@.st,
                out@,
                ast::exprs_view(es@),
                i as int,
                old(self)@.frames,
            ),
            machine::wf(final(self)@),
    {
        proof {
            machine::lemma_print_fits(
                self@.st,
                out@,
                ast::exprs_view(es@),
                i as int,
                self@.frames,
            );
        }
        if i < es.len() {
            let e = es[i].clone();
            proof {
                assert(ast::exprs_view(es@)[i as int] == e@);
            }
            self.push(Frame::PrintAfter(out, es, i + 1));
            self.go(Control::Eval(e));
        } else {
            self.go(Control::Wait(Pending::Print(out)));
        }
    }

    /// Assign `v` to `name`.
    fn assign(&mut self, name: String, v: Value, mutable: bool) -> (r: Result<(), RuntimeError>)
        requires
            old(self)@.st.env.len() > 0,
        ensures
            match machine::assigned(old(self)@.st, name@, v@, mutable) {
                Ok(after) => r is Ok && final(self)@ == (SpecMachine { st: after, ..old(self)@ }),
                Err(e) => r matches Err(x) && x@ == e && final(self)@ == old(self)@,
            },
    {
        if mutable {
            if !self.in_unsafe {
                return Err(
                    RuntimeError::new(
                        "`mut` is only allowed inside `[unsafe]` blocks".to_owned(),
                    ),
                );
            }
            self.declare(name, v, true);
            return Ok(());
        }
        proof {
            names::lemma_scope_of(self@.st.env, name@, self@.st.env.len() as int);
        }
        match names::find_scope(&self.env, name.as_str()) {
            None => {
                self.declare(name, v, false);
                Ok(())
            },
            Some(i) => {
                let is_mutable = match self.env[i].get(name.as_str()) {
                    Some(b) => b.mutable,
                    None => false,
                };
                if !is_mutable {
                    return Err(
                        value::fail_at(
                            "Error: Variable '",
                            name.as_str(),
                            "' is immutable and cannot be changed.",
                        ),
                    );
                }
                if !self.in_unsafe {
                    return Err(
                        RuntimeError::new(
                            "reassignment is only allowed inside `[unsafe]` blocks".to_owned(),
                        ),
                    );
                }
                names::set_in(&mut self.env, i, name, Binding { value: v, mutable: true });
                Ok(())
            },
        }
    }

    /// A value meets a frame.
    fn take_value<N: Numbers>(&mut self, v: Value, f: Frame, nums: &N)
        requires
            machine::takes_value(f@),
            machine::frame_fits(f@),
            machine::stack_fits(old(self)@.frames, machine::gives_value(f@)),
            machine::scopes_fit(old(self)@.frames, old(self)@.st.env.len()),
        ensures
            forall|m: NumberModel| #[trigger]
                number::computes(*nums, m) ==> final(self)@ == machine::give_step(
                    m,
                    old(self)@.st,
                    v@,
                    f@,
                    old(self)@.frames,
                ),
            machine::wf(final(self)@),
    {
        broadcast use machine::lemma_push_last;

        match f {
            Frame::FieldOf(name) => {
                let r = value::subset_lookup(&v, name.as_str(), nums);
                self.give(r);
            },
            Frame::LeftOf(op, rhs) => match value::as_number(&v, nums) {
                Ok(l) => {
                    self.push(Frame::RightOf(op, l));
                    self.go(Control::Eval(rhs));
                },
                Err(e) => self.fail(e),
            },
            Frame::RightOf(op, l) => match value::as_number(&v, nums) {
                Ok(r) => {
                    let result = binary_value(op, l, r, nums);
                    self.give(result);
                },
                Err(e) => self.fail(e),
            },
            Frame::Choice(a, b) => match condition("if", &v, nums) {
                Ok(yes) => {
                    if yes {
                        self.go(Control::Eval(a));
                    } else {
                        self.go(Control::Eval(b));
                    }
                },
                Err(e) => self.fail(e),
            },
            Frame::Args(callee, done, args) => {
                let mut more = done;
                let ghost before = stdlib::dcf::values_view(more@);
                more.push(v);
                proof {
                    assert(stdlib::dcf::values_view(more@) =~= before.push(v@));
                }
                self.run_args(callee, more, args, nums);
            },
            Frame::AssignTo(name, mutable) => {
                proof {
                    machine::lemma_assigned_scopes(self@.st, name@, v@, mutable);
                }
                match self.assign(name, v, mutable) {
                    Ok(()) => self.go(Control::Done(Flow::Normal)),
                    Err(e) => self.fail(e),
                }
            },
            Frame::PrintAfter(out, es, i) => {
                let mut longer = out;
                longer.append(v.to_text(nums).as_str());
                self.run_print(longer, es, i);
            },
            Frame::ReturnIt => self.go(Control::Done(Flow::Return(v))),
            Frame::LoopIf(c, body) => match condition("while", &v, nums) {
                Ok(yes) => {
                    if yes {
                        let again = ast::copy_stmts(&body);
                        self.push(Frame::Round(c, body));
                        self.enter();
                        self.run_body(again, 0);
                    } else {
                        self.go(Control::Done(Flow::Normal));
                    }
                },
                Err(e) => self.fail(e),
            },
            other => {
                self.push(other);
                self.go(Control::Give(v));
            },
        }
    }

    // ---- statements ----

    /// The first step of the right-hand side of an assignment.
    fn start_value<N: Numbers>(&self, name: &str, e: Expr, nums: &N) -> (r: Control)
        ensures
            forall|m: NumberModel| #[trigger]
                number::computes(*nums, m) ==> r@ == machine::source(m, self@.st, name@, e@),
            r@ is Eval || r@ is Give || r@ is Fail,
    {
        let is_param = match &e {
            Expr::Call { name: f, .. } => text::same_text(f.as_str(), "param"),
            _ => false,
        };
        if !is_param {
            return Control::Eval(e);
        }
        if let Expr::Call { name: f, args } = e {
            proof {
                assert(ast::exprs_view(args@).len() == args@.len());
            }
            if let Some(raw) = self.params.get(name) {
                return Control::Give(value::parse_param_value(raw.as_str(), nums));
            }
            if args.len() == 0 {
                let mut s = "missing required parameter `".to_owned();
                s.append(name);
                s.append("`; supply it with --");
                s.append(name);
                s.append("=<value>");
                return Control::Fail(RuntimeError::new(s));
            }
            if args.len() == 1 {
                return Control::Eval(args[0].clone());
            }
            return Control::Fail(
                value::fail(
                    "`param()` takes at most one argument (a default value), got ",
                    text::usize_text(args.len()).as_str(),
                ),
            );
        }
        Control::Eval(e)
    }

    /// Start with a statement.
    fn exec<N: Numbers>(&mut self, stmt: Stmt, nums: &N)
        requires
            machine::stack_fits(old(self)@.frames, false),
            machine::scopes_fit(old(self)@.frames, old(self)@.st.env.len()),
        ensures
            forall|m: NumberModel| #[trigger]
                number::computes(*nums, m) ==> final(self)@ == machine::exec_step(
                    m,
                    old(self)@.st,
                    stmt@,
                    old(self)@.frames,
                ),
            machine::wf(final(self)@),
    {
        broadcast use machine::lemma_push_last;

        match stmt {
            Stmt::Assign { name, value, mutable } => {
                let start = self.start_value(name.as_str(), value, nums);
                self.push(Frame::AssignTo(name, mutable));
                self.go(start);
            },
            Stmt::While { condition, body } => {
                if !self.in_unsafe {
                    self.fail(
                        RuntimeError::new(
                            "`while` is only allowed inside `[unsafe]` blocks".to_owned(),
                        ),
                    );
                } else {
                    let first = condition.clone();
                    self.push(Frame::LoopIf(condition, body));
                    self.go(Control::Eval(first));
                }
            },
            Stmt::Print(es) => {
                let out = String::new();
                proof {
                    assert(out@ =~= Seq::<char>::empty());
                }
                self.run_print(out, es, 0);
            },
            Stmt::FnDef { name, params, body } => match purity::check_purity(&body) {
                Ok(()) => {
                    self.functions.insert(name, FnDecl { params, body });
                    self.go(Control::Done(Flow::Normal));
                },
                Err(e) => self.fail(e),
            },
            Stmt::Return(e) => {
                self.push(Frame::ReturnIt);
                self.go(Control::Eval(e));
            },
        }
    }

    /// What a block that has to return gives.
    fn give_returned(&mut self, flow: Flow, otherwise: &str)
        ensures
            final(self)@ == (SpecMachine {
                control: machine::returned(flow@, otherwise@),
                ..old(self)@
            }),
    {
        match flow {
            Flow::Return(v) => self.go(Control::Give(v)),
            Flow::Normal => self.fail(RuntimeError::new(otherwise.to_owned())),
        }
    }

    /// The end of a statement meets the frame on top.
    fn take_end(&mut self, flow: Flow)
        requires
            machine::stack_fits(old(self)@.frames, false),
            machine::scopes_fit(old(self)@.frames, old(self)@.st.env.len()),
        ensures
            final(self)@ == machine::done_step(
                old(self)@.st,
                flow@,
                old(self)@.frames.last(),
                old(self)@.frames.drop_last(),
            ),
            machine::wf(final(self)@),
    {
        proof {
            machine::lemma_done_fits(self@.st, flow@, self@.frames);
        }
        match self.pop() {
            Frame::Body(body, i) => match flow {
                Flow::Normal => self.run_body(body, i),
                other => self.go(Control::Done(other)),
            },
            Frame::Round(c, body) => {
                self.leave();
                match flow {
                    Flow::Normal => {
                        let again = c.clone();
                        self.push(Frame::LoopIf(c, body));
                        self.go(Control::Eval(again));
                    },
                    other => self.go(Control::Done(other)),
                }
            },
            Frame::FunctionEnd(env) => {
                self.set_env(env);
                self.give_returned(flow, "function body did not return a value");
            },
            Frame::UnsafeEnd(env, before) => {
                self.set_env(env);
                self.in_unsafe = before;
                self.give_returned(flow, "[unsafe] block must end with return");
            },
            Frame::Top(prog, i) => match flow {
                Flow::Normal => {
                    if i < prog.len() {
                        let stmt = prog[i].clone();
                        proof {
                            assert(ast::stmts_view(prog@)[i as int] == stmt@);
                        }
                        self.push(Frame::Top(prog, i + 1));
                        self.go(Control::Exec(stmt));
                    } else {
                        self.go(Control::Stop(Ok(())));
                    }
                },
                Flow::Return(_) => {
                    self.go(
                        Control::Stop(
                            Err(
                                RuntimeError::new(
                                    "`return` used outside of a function or [unsafe] block".to_owned(),
                                ),
                            ),
                        ),
                    );
                },
            },
            other => {
                self.push(other);
                self.go(Control::Done(flow));
            },
        }
    }

    /// An error meets the frame on top.
    fn take_error(&mut self, e: RuntimeError)
        requires
            old(self)@.frames.len() > 0,
            machine::wf((SpecMachine { control: SpecControl::Fail(e@), ..old(self)@ })),
        ensures
            final(self)@ == machine::fail_step(
                old(self)@.st,
                e@,
                old(self)@.frames.last(),
                old(self)@.frames.drop_last(),
            ),
    {
        match self.pop() {
            Frame::Round(..) => {
                self.leave();
                self.fail(e);
            },
            Frame::FunctionEnd(env) => {
                self.set_env(env);
                self.fail(e);
            },
            Frame::UnsafeEnd(env, before) => {
                self.set_env(env);
                self.in_unsafe = before;
                self.fail(e);
            },
            Frame::Top(..) => self.go(Control::Stop(Err(e))),
            _ => self.fail(e),
        }
    }

    // ---- the outside world ----

    fn is_prefetched(&self, ticker: &str) -> (r: bool)
        ensures
            r == self@.st.prefetched.contains(ticker@),
    {
        let ghost ns = self@.st.prefetched;
        let mut i: usize = 0;
        while i < self.prefetched.len()
            invariant
                i <= self.prefetched@.len(),
                ns == ast::names_view(self.prefetched@),
                forall|j: int| 0 <= j < i ==> ns[j] != ticker@,
            decreases self.prefetched@.len() - i,
        {
            if text::same_text(self.prefetched[i].as_str(), ticker) {
                proof {
                    assert(ns[i as int] == ticker@);
                }
                return true;
            }
            i = i + 1;
        }
        false
    }

    /// The reply to what was asked for.
    fn take_reply(&mut self, p: Pending, reply: &Reply)
        requires
            machine::stack_fits(old(self)@.frames, p@ !is Print),
            machine::scopes_fit(old(self)@.frames, old(self)@.st.env.len()),
        ensures
            ({
                let (st, control) = machine::reply_step(old(self)@.st, p@, reply@);
                final(self)@ == machine::at(st, control, old(self)@.frames)
            }),
    {
        match p {
            Pending::Print(_) => self.go(Control::Done(Flow::Normal)),
            Pending::Directory(t) => {
                if reply.outcome == Outcome::Done {
                    if self.is_prefetched(t.as_str()) {
                        self.go(Control::Wait(Pending::File(t)));
                    } else {
                        self.go(Control::Wait(Pending::Script(t)));
                    }
                } else {
                    let mut s = "could not create '".to_owned();
                    s.append(self.data_dir.as_str());
                    s.append("': ");
                    s.append(reply.text.as_str());
                    self.fail(RuntimeError::new(s));
                }
            },
            Pending::File(t) => {
                if reply.outcome == Outcome::Done {
                    self.go(Control::Wait(Pending::Document(t)));
                } else {
                    self.go(Control::Wait(Pending::Script(t)));
                }
            },
            Pending::Script(t) => match reply.outcome {
                Outcome::Done => self.go(Control::Wait(Pending::Document(t))),
                Outcome::Refused => {
                    let mut s = "generator script exited with ".to_owned();
                    s.append(reply.text.as_str());
                    s.append(" for ticker `");
                    s.append(t.as_str());
                    s.append("`");
                    self.fail(RuntimeError::new(s));
                },
                Outcome::Failed => {
                    let mut s = "failed to run `".to_owned();
                    s.append(self.python_bin.as_str());
                    s.append(" ");
                    s.append(self.generator_script.as_str());
                    s.append("`: ");
                    s.append(reply.text.as_str());
                    s.append(" (is python3 installed and on PATH?)");
                    self.fail(RuntimeError::new(s));
                },
            },
            Pending::Document(t) => {
                if reply.outcome == Outcome::Done {
                    match value::load_json(reply.path.as_str(), reply.text.as_str()) {
                        Ok(v) => {
                            self.declare(t, v.clone(), false);
                            self.go(Control::Give(v));
                        },
                        Err(e) => self.fail(e),
                    }
                } else {
                    let mut s = "could not read '".to_owned();
                    s.append(reply.path.as_str());
                    s.append("': ");
                    s.append(reply.text.as_str());
                    self.fail(RuntimeError::new(s));
                }
            },
        }
    }

    // ---- running ----

    /// Start a program. It runs as the steps are taken.
    pub fn run(&mut self, program: &Program)
        requires
            machine::wf(old(self)@),
            old(self)@.control is Stop,
        ensures
            final(self)@ == started(old(self)@.st, ast::stmts_view(program@)),
            machine::wf(final(self)@),
    {
        proof {
            assert(self@.frames =~= Seq::<SpecFrame>::empty());
        }
        self.push(Frame::Top(ast::copy_stmts(program), 0));
        proof {
            assert(self@.frames =~= seq![SpecFrame::Top(ast::stmts_view(program@), 0)]);
            assert(self@.frames.drop_last() =~= Seq::<SpecFrame>::empty());
        }
        self.go(Control::Done(Flow::Normal));
    }

    fn take_control(&mut self) -> (r: Control)
        ensures
            r@ == old(self)@.control,
            final(self)@ == (SpecMachine { control: SpecControl::Stop(Ok(())), ..old(self)@ }),
    {
        let mut c = Control::Stop(Ok(()));
        std::mem::swap(&mut self.control, &mut c);
        c
    }

    /// What is to be done before the next step.
    pub fn action(&self) -> (r: Action)
        ensures
            r@ == action_of(self@),
    {
        match &self.control {
            Control::Wait(p) => Action::Ask(p.copy()),
            Control::Stop(r) => match r {
                Ok(()) => Action::Finished(Ok(())),
                Err(e) => Action::Finished(Err(RuntimeError::new(e.message.clone()))),
            },
            _ => Action::Continue,
        }
    }

    /// Take one step. `reply` is the reply to what was asked for last; where
    /// nothing was, it is not looked at.
    pub fn step<N: Numbers>(&mut self, reply: &Reply, nums: &N) -> (r: Action)
        requires
            machine::wf(old(self)@),
        ensures
            forall|m: NumberModel| #[trigger]
                number::computes(*nums, m) ==> final(self)@ == machine::next(
                    m,
                    old(self)@,
                    reply@,
                ),
            r@ == action_of(final(self)@),
            machine::wf(final(self)@),
    {
        let control = self.take_control();
        match control {
            Control::Eval(e) => self.eval(e, nums),
            Control::Exec(s) => self.exec(s, nums),
            Control::Give(v) => {
                let f = self.pop();
                self.take_value(v, f, nums);
            },
            Control::Done(flow) => self.take_end(flow),
            Control::Fail(e) => {
                proof {
                    machine::law_steps_fit(arbitrary(), old(self)@, reply@);
                }
                self.take_error(e);
            },
            Control::Wait(p) => {
                proof {
                    machine::law_steps_fit(arbitrary(), old(self)@, reply@);
                }
                self.take_reply(p, reply);
            },
            Control::Stop(r) => self.go(Control::Stop(r)),
        }
        self.action()
    }
}

/// The machine at the start of a program.
pub open spec fn started(st: SpecState, prog: Seq<SpecStmt>) -> SpecMachine {
    machine::at(st, SpecControl::Done(SpecFlow::Normal), seq![SpecFrame::Top(prog, 0)])
}

/// The scope in which a function starts.
fn bind_arguments(params: &Vec<String>, values: &Vec<Value>) -> (r: NameMap<Binding>)
    requires
        params@.len() == values@.len(),
    ensures
        r@ == machine::arguments(
            ast::names_view(params@),
            stdlib::dcf::values_view(values@),
            params@.len() as int,
        ),
{
    let ghost ps = ast::names_view(params@);
    let ghost vs = stdlib::dcf::values_view(values@);
    let mut scope: NameMap<Binding> = NameMap::new();
    let mut i: usize = 0;
    while i < params.len()
        invariant
            i <= params@.len(),
            params@.len() == values@.len(),
            ps == ast::names_view(params@),
            vs == stdlib::dcf::values_view(values@),
            scope@ == machine::arguments(ps, vs, i as int),
        decreases params@.len() - i,
    {
        scope.insert(params[i].clone(), Binding { value: values[i].clone(), mutable: false });
        i = i + 1;
    }
    scope
}

} // verus!
