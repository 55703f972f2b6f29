use finscript::dag::{build_dag, render_dag_file, Dag, DagError, LiveReason};
use finscript::interpreter::Interpreter;
use finscript::lexer::tokenize;
use finscript::number::Numbers;
use finscript::parser::{BinOp, Parser, Program};
use finscript::render::oneline;

/// Numbers as doubles.
struct Doubles;

impl Numbers for Doubles {
    fn parse(&self, text: &str) -> Option<u64> {
        text.parse::<f64>().ok().map(f64::to_bits)
    }

    fn show(&self, n: u64) -> String {
        f64::from_bits(n).to_string()
    }

    fn arith(&self, op: BinOp, l: u64, r: u64) -> u64 {
        let (l, r) = (f64::from_bits(l), f64::from_bits(r));
        let result = match op {
            BinOp::Add => l + r,
            BinOp::Sub => l - r,
            BinOp::Mul => l * r,
            BinOp::Div => l / r,
            BinOp::Power => l.powf(r),
            other => panic!("no arithmetic: {other:?}"),
        };
        result.to_bits()
    }

    fn powi(&self, x: u64, n: i32) -> u64 {
        f64::from_bits(x).powi(n).to_bits()
    }
}

fn parse(src: &str) -> Program {
    Parser::new(tokenize(src, &Doubles).unwrap()).parse_program(&Doubles).unwrap()
}

fn dag_of(src: &str) -> (Program, Dag) {
    let program = parse(src);
    let dag = build_dag(&program, &Doubles).unwrap();
    (program, dag)
}

const PROGRAM: &str = "x = 5;
y = x + 1;
z = 2 ^ 10;
c = t<ACME>;
p = c.price;
fn f(a, b) { return a; }
w = f(x, 2);
print(\"w: \", w);
";

#[test]
fn a_file_is_rendered() {
    let (program, dag) = dag_of(PROGRAM);
    let expected = "# Auto-generated DAG file -- do not hand-edit unless you mean to.
# Regenerate it by re-running the original .fi program.
#
# Parameters (all required; fill in with --name=value):
#   --x (was: 5)
#
# Hardcoded ticker fetches (not parameterized -- these are baked in):
#   c = t<ACME>
#
# Frozen constants (computed once; no loop runs again):
#   z = 1024  (was: 2 ^ 10)
#
# Unrolled formulas (pure functions of param(s); no loop runs again):
#   y = x + 1  (was: x + 1)
#
# Live nodes (still run their original code every time):
#   p -- reads a ticker fetch (was: c.price)
#   w -- calls a function (not traced) (was: f(x, 2))

x = param();  # was: x = 5;
y = x + 1;  # unrolled formula (was: y = x + 1;)
z = 1024;  # frozen from one full run (was: z = 2 ^ 10;)
c = t<ACME>;
p = c.price;
fn f(a, b) {
    return a;
}
w = f(x, 2);
print(\"w: \", w);
";
    assert_eq!(render_dag_file(&program, &dag, &Doubles), expected);
}

#[test]
fn a_graph_is_drawn() {
    let (_, dag) = dag_of("x = 5;\ny = x + x;\nc = t<A>;\nz = c.p;\n");
    let expected = "digraph fin_dag {
  rankdir=LR;
  n0 [label=\"x (param)\" shape=box style=filled fillcolor=lightblue];
  n1 [label=\"y (formula)\" shape=ellipse style=filled fillcolor=khaki];
  n2 [label=\"c (t<A>)\" shape=box style=filled fillcolor=gold];
  n3 [label=\"z (live: reads a ticker fetch)\" shape=ellipse style=filled fillcolor=lightpink];
  n0 -> n1;
  n2 -> n3;
}
";
    assert_eq!(dag.to_dot(), expected);
    assert_eq!(Dag::default().to_dot(), "digraph fin_dag {\n  rankdir=LR;\n}\n");
}

#[test]
fn a_mut_binding_is_kept() {
    let (program, dag) = dag_of("mut m = 1;\nz = m;\nq = 2 ^ 2;\n");
    assert_eq!(dag.mutable().len(), 1);
    assert_eq!(dag.live().len(), 1);
    let text = render_dag_file(&program, &dag, &Doubles);
    assert!(text.contains("# `mut` bindings (reassigned over their lifetime, never parameterized):\n#   m = 1\n"));
    assert!(text.contains("\nmut m = 1;\n"));
    assert!(text.contains("#   z -- a `mut` binding, reassigned over its lifetime (was: m)\n"));
    assert!(dag.to_dot().contains("n0 [label=\"m (mut)\" shape=box style=filled fillcolor=lightgray];"));
    assert!(dag.to_dot().contains("n2 [label=\"q (fixed)\" shape=ellipse style=filled fillcolor=palegreen];"));
}

#[test]
fn blocks_are_indented_and_comments_are_one_line() {
    let (program, dag) = dag_of(
        "n = 1;\ny = [unsafe] { mut i = 0; while i < n { i = i + 1; } return if i { i } else { \"a\\n\" }; };\n",
    );
    let text = render_dag_file(&program, &dag, &Doubles);
    let block = "y = [unsafe] {
    mut i = 0;
    while i < n {
        i = i + 1;
    }
    return if i { i } else { \"a\\n\" };
};
";
    assert!(text.contains(block), "{text}");
    let comment = "#   y -- a loop's trip count depends on a param (was: [unsafe] { mut i = 0; while i < n { i = i + 1; } return if i { i } else { \"a\\n\" }; })\n";
    assert!(text.contains(comment), "{text}");
}

#[test]
fn one_line_has_no_line_breaks() {
    assert_eq!(oneline("  a\n\tb   c \n"), "a b c");
    assert_eq!(oneline(""), "");
    assert_eq!(oneline(" \n "), "");
    assert_eq!(oneline("x\u{2003}y"), "x y");
    // The words stay, in their order, and a second time changes nothing.
    for text in ["  a\n\tb   c \n", "", "\n", "x", "if a {\n    b\n}"] {
        let line = oneline(text);
        assert!(line.split_whitespace().eq(text.split_whitespace()));
        assert_eq!(oneline(&line), line);
    }
}

#[test]
fn a_long_loop_is_not_unrolled() {
    let ten_thousand = "y = [unsafe] { mut i = 0; while i < 10000 { i = i + 1; } return i; };";
    let (_, dag) = dag_of(ten_thousand);
    assert_eq!(dag.fixed().len(), 1);
    let one_more = "y = [unsafe] { mut i = 0; while i < 10001 { i = i + 1; } return i; };";
    let (_, dag) = dag_of(one_more);
    assert_eq!(dag.live().len(), 1);
}

#[test]
fn branches_are_traced() {
    // A condition that is known chooses; one on a param is kept.
    let (program, dag) = dag_of(
        "x = 5; a = if 1 { 2 } else { t<A> }; b = if x { 1 } else { 2 }; c = if x { 1 } else { t<A>.p }; d = 1 / 0; e = if \"s\" { 1 } else { 2 }; g = undefined_name;",
    );
    assert_eq!(dag.fixed().iter().map(|n| n.name.as_str()).collect::<Vec<_>>(), vec!["a"]);
    assert_eq!(dag.formulas().iter().map(|n| n.name.as_str()).collect::<Vec<_>>(), vec!["b"]);
    let text = render_dag_file(&program, &dag, &Doubles);
    assert!(text.contains("#   c -- a branch depends on a param and can't be reduced"));
    assert!(text.contains("#   d -- couldn't be reduced to a formula (was: 1 / 0)"));
    assert!(text.contains("#   e -- couldn't be reduced to a formula"));
    assert!(text.contains("#   g -- couldn't be reduced to a formula"));
}

#[test]
fn nodes_refer_to_earlier_nodes() {
    let (_, dag) = dag_of("a = 1; b = a + f(a, c); c = b * a; b = c;");
    let deps: Vec<Vec<usize>> = dag.nodes.iter().map(|n| n.deps.clone()).collect();
    assert_eq!(deps, vec![vec![], vec![0], vec![1, 0], vec![2]]);
    assert_eq!(dag.get("b").unwrap().id, 3);
    assert!(dag.get("nope").is_none());
}

#[test]
fn a_graph_is_saved_under_the_name_of_its_program() {
    let interp = Interpreter::new("data".to_string(), "gen.py".to_string());
    let (program, dag) = dag_of(PROGRAM);
    let files = interp.save_dag_file(&program, "test", &Doubles).unwrap();
    assert_eq!(files.fic_name, "test.fic");
    assert_eq!(files.dot_name, "test.dot");
    assert_eq!(files.fic, render_dag_file(&program, &dag, &Doubles));
    assert_eq!(files.dot, dag.to_dot());
    assert_eq!(interp.data_dir(), "data");
    assert_eq!(interp.generator_script(), "gen.py");
    assert_eq!(interp.python_bin(), "python3");
}

#[test]
fn errors_and_reasons_have_words() {
    assert_eq!(DagError { message: "m".to_string() }.to_text(), "m");
    assert_eq!(LiveReason::Ticker.to_text(), "reads a ticker fetch");
    assert_eq!(BinOp::Ne.to_text(), "!=");
}
