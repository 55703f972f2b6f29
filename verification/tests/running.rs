use finscript::ast::{Expr, Stmt};
use finscript::interpreter::{Action, Interpreter, Pending, Reply, Value};
use finscript::lexer::tokenize;
use finscript::machine::Outcome;
use finscript::names::NameMap;
use finscript::number::Numbers;
use finscript::parser::{BinOp, Parser, Program};
use finscript::purity::collect_tickers;
use finscript::stdlib::register_all;

/// Numbers as doubles.
struct Doubles;

impl Numbers for Doubles {
    fn parse(&self, text: &str) -> Option<u64> {
        text.parse::<f64>().ok().map(f64::to_bits)
    }

    fn show(&self, n: u64) -> String {
        f64::from_bits(n).to_string()
    }

    fn arith(&self, op: BinOp, l: u64, r: u64) -> u64 {
        let (l, r) = (f64::from_bits(l), f64::from_bits(r));
        let result = match op {
            BinOp::Add => l + r,
            BinOp::Sub => l - r,
            BinOp::Mul => l * r,
            BinOp::Div => l / r,
            BinOp::Power => l.powf(r),
            other => panic!("no arithmetic: {other:?}"),
        };
        result.to_bits()
    }

    fn powi(&self, x: u64, n: i32) -> u64 {
        f64::from_bits(x).powi(n).to_bits()
    }
}

fn parse(src: &str) -> Program {
    Parser::new(tokenize(src, &Doubles).unwrap()).parse_program(&Doubles).unwrap()
}

fn reply(outcome: Outcome, path: &str, text: &str) -> Reply {
    Reply { outcome, path: path.to_string(), text: text.to_string() }
}

fn fresh() -> Interpreter {
    let mut interp = Interpreter::new("data".to_string(), "gen.py".to_string());
    register_all(&mut interp);
    interp
}

/// Run a program; `host` replies to whatever is asked for but printing.
/// Returns what was printed, what else was asked for, and how it ended.
fn drive(
    interp: &mut Interpreter,
    program: &Program,
    host: fn(&Pending) -> Reply,
) -> (String, Vec<String>, Result<(), String>) {
    let mut printed = String::new();
    let mut asked = Vec::new();
    interp.run(program);
    let mut answer = reply(Outcome::Done, "", "");
    for _ in 0..1_000_000 {
        match interp.step(&answer, &Doubles) {
            Action::Continue => {}
            Action::Ask(Pending::Print(s)) => {
                printed.push_str(&s);
                answer = reply(Outcome::Done, "", "");
            }
            Action::Ask(p) => {
                asked.push(format!("{p:?}"));
                answer = host(&p);
            }
            Action::Finished(r) => return (printed, asked, r.map_err(|e| e.to_text())),
        }
    }
    panic!("the program does not end");
}

fn nobody(p: &Pending) -> Reply {
    panic!("asked for {p:?}")
}

fn output(src: &str) -> String {
    let (printed, _, end) = drive(&mut fresh(), &parse(src), nobody);
    assert_eq!(end, Ok(()));
    printed
}

fn error(src: &str) -> String {
    let (_, _, end) = drive(&mut fresh(), &parse(src), nobody);
    end.unwrap_err()
}

const DOCUMENT: &str = r#"{"price": {"last": 12.5}, "name": "Acme", "a/b~c": 3, "tags": [1, 2]}"#;

/// A world in which everything goes well.
fn world(p: &Pending) -> Reply {
    match p {
        Pending::Document(t) => reply(Outcome::Done, &format!("data/{t}.json"), DOCUMENT),
        _ => reply(Outcome::Done, "", ""),
    }
}

#[test]
fn arithmetic_is_printed() {
    assert_eq!(output("print(1 + 2 * 3);"), "7");
    assert_eq!(output("print(7 / 2, \" \", 2 ^ 10);"), "3.5 1024");
    assert_eq!(output("x = 1; print(); print(x < 2, x > 2, x <= 1, x >= 2, x == 1, x != 1);"), "101010");
}

#[test]
fn division_by_zero_is_an_error() {
    assert_eq!(error("x = 1 / 0;"), "runtime error: division by zero");
}

#[test]
fn a_text_is_no_operand() {
    assert_eq!(error("x = \"a\" + 1;"), "runtime error: expected a number, found a");
    assert_eq!(error("x = 1 + \"b\";"), "runtime error: expected a number, found b");
}

#[test]
fn an_unknown_name_is_an_error() {
    assert_eq!(error("print(nope);"), "runtime error: undefined variable `nope`");
}

#[test]
fn a_name_cannot_be_changed() {
    assert_eq!(
        error("x = 1; x = 2;"),
        "runtime error: Error: Variable 'x' is immutable and cannot be changed."
    );
}

#[test]
fn mut_and_while_are_for_unsafe_blocks() {
    assert_eq!(
        error("mut x = 1;"),
        "runtime error: `mut` is only allowed inside `[unsafe]` blocks"
    );
    assert_eq!(
        error("while 0 { x = 1; }"),
        "runtime error: `while` is only allowed inside `[unsafe]` blocks"
    );
}

#[test]
fn an_unsafe_block_loops() {
    let src = "n = 10;
        s = [unsafe] {
            mut total = 0;
            mut i = 0;
            while i < n {
                i = i + 1;
                total = total + i;
            }
            return total;
        };
        print(s);";
    assert_eq!(output(src), "55");
}

#[test]
fn names_of_an_unsafe_block_end_with_it() {
    assert_eq!(
        error("s = [unsafe] { mut a = 1; return a; }; print(a);"),
        "runtime error: undefined variable `a`"
    );
    // A round of a loop has a scope of its own.
    assert_eq!(
        error("s = [unsafe] { mut i = 0; while i < 1 { b = 1; i = i + 1; } return b; };"),
        "runtime error: undefined variable `b`"
    );
    // A `mut` hides an outer name, and only inside.
    assert_eq!(output("x = 1; y = [unsafe] { mut x = 2; x = 3; return x; }; print(x, y);"), "13");
}

#[test]
fn an_unsafe_block_is_left_by_an_error() {
    let mut interp = fresh();
    let (_, _, end) = drive(&mut interp, &parse("x = 1; y = [unsafe] { mut x = 2; return 1 / 0; };"), nobody);
    assert_eq!(end, Err("runtime error: division by zero".to_string()));
    match interp.env_get("x") {
        Some(b) => match b.value {
            Value::Number(n) => assert_eq!(f64::from_bits(n), 1.0),
            ref other => panic!("expected a number, got {other:?}"),
        },
        None => panic!("x is gone"),
    }
    // Outside again: `mut` is refused.
    let (_, _, end) = drive(&mut interp, &parse("mut z = 1;"), nobody);
    assert!(end.unwrap_err().contains("`mut` is only allowed"));
}

#[test]
fn a_block_has_to_return() {
    let block = Expr::Unsafe { body: vec![] };
    let program = vec![Stmt::Assign { name: "x".into(), value: block, mutable: false }];
    let (_, _, end) = drive(&mut fresh(), &program, nobody);
    assert_eq!(end, Err("runtime error: [unsafe] block must end with return".to_string()));

    let program = vec![
        Stmt::FnDef { name: "f".into(), params: vec![], body: vec![] },
        Stmt::Assign {
            name: "x".into(),
            value: Expr::Call { name: "f".into(), args: vec![] },
            mutable: false,
        },
    ];
    let (_, _, end) = drive(&mut fresh(), &program, nobody);
    assert_eq!(end, Err("runtime error: function body did not return a value".to_string()));
}

#[test]
fn return_is_for_functions_and_blocks() {
    let program = vec![Stmt::Return(Expr::Int(1))];
    let (_, _, end) = drive(&mut fresh(), &program, nobody);
    assert_eq!(
        end,
        Err("runtime error: `return` used outside of a function or [unsafe] block".to_string())
    );
}

#[test]
fn functions_are_called() {
    let src = "fn fact(n) { return if n <= 1 { 1 } else { n * fact(n - 1) }; } print(fact(10));";
    assert_eq!(output(src), "3628800");
}

#[test]
fn a_function_sees_its_parameters_alone() {
    assert_eq!(
        error("x = 1; fn f(y) { return x + y; } z = f(2);"),
        "runtime error: undefined variable `x`"
    );
    assert_eq!(output("x = 1; fn f(x) { return x * 2; } print(f(21), x);"), "421");
}

#[test]
fn a_call_has_to_fit() {
    assert_eq!(error("x = f(1);"), "runtime error: undefined function `f`");
    assert_eq!(
        error("fn f(a, b) { return a; } x = f(1);"),
        "runtime error: function `f` expects 2 argument(s), got 1"
    );
}

#[test]
fn a_function_has_no_side_effects() {
    assert_eq!(
        error("fn f() { print(1); return 1; }"),
        "runtime error: `print` is a side effect and isn't allowed inside a function body or [unsafe] block"
    );
    assert_eq!(
        error("fn f() { return t<A>; }"),
        "runtime error: `t<...>` fetches external data and isn't allowed inside a function body or [unsafe] block"
    );
    let inner = Stmt::FnDef { name: "g".into(), params: vec![], body: vec![] };
    let program = vec![Stmt::FnDef { name: "f".into(), params: vec![], body: vec![inner] }];
    let (_, _, end) = drive(&mut fresh(), &program, nobody);
    assert_eq!(end, Err("runtime error: nested function definitions aren't supported".to_string()));
}

#[test]
fn conditions_are_numbers() {
    assert_eq!(output("print(if 2 { 1 } else { 0 }, if 0 { 1 } else { 0 });"), "10");
    assert_eq!(
        error("x = if \"a\" { 1 } else { 0 };"),
        "runtime error: condition in `if` must be a number, found a"
    );
    assert_eq!(
        error("x = [unsafe] { while \"a\" { y = 1; } return 1; };"),
        "runtime error: condition in `while` must be a number, found a"
    );
}

#[test]
fn a_prewritten_function_is_called() {
    let src = "print(dcf(100, 0, 1, 0, 1));";
    // 100 / 2 for the one year, and 100 / (1 - 0) / 2 after it.
    assert_eq!(output(src), "100");
    assert!(error("x = dcf(1);").contains("expects 5 arguments, got 1"));
}

#[test]
fn params_come_from_overrides_or_defaults() {
    let program = parse("x = param(2); y = param(); print(x + 1, y);");
    let mut params = NameMap::new();
    params.insert("y".to_string(), "high".to_string());
    let mut interp = fresh().with_params(params);
    let (printed, _, end) = drive(&mut interp, &program, nobody);
    assert_eq!((printed.as_str(), end), ("3high", Ok(())));

    let mut params = NameMap::new();
    params.insert("x".to_string(), "40".to_string());
    params.insert("y".to_string(), "1e3".to_string());
    let mut interp = fresh().with_params(params);
    let (printed, _, end) = drive(&mut interp, &program, nobody);
    assert_eq!((printed.as_str(), end), ("411000", Ok(())));

    assert_eq!(
        error("x = param();"),
        "runtime error: missing required parameter `x`; supply it with --x=<value>"
    );
    assert_eq!(
        error("x = param(1, 2);"),
        "runtime error: `param()` takes at most one argument (a default value), got 2"
    );
}

#[test]
fn a_ticker_is_fetched() {
    let mut interp = fresh();
    let program = parse("company = t<ACME>; print(company.price<last>, ACME.name);");
    let (printed, asked, end) = drive(&mut interp, &program, world);
    assert_eq!((printed.as_str(), end), ("12.5Acme", Ok(())));
    assert_eq!(asked, vec!["Directory(\"ACME\")", "Script(\"ACME\")", "Document(\"ACME\")"]);
}

#[test]
fn a_prefetched_ticker_needs_no_script() {
    let mut interp = fresh();
    interp.mark_prefetched("ACME".to_string());
    interp.mark_prefetched("ACME".to_string());
    let (_, asked, end) = drive(&mut interp, &parse("c = t<ACME>;"), world);
    assert_eq!(end, Ok(()));
    assert_eq!(asked, vec!["Directory(\"ACME\")", "File(\"ACME\")", "Document(\"ACME\")"]);

    // The file is gone: the script runs after all.
    fn no_file(p: &Pending) -> Reply {
        match p {
            Pending::File(_) => reply(Outcome::Refused, "", ""),
            other => world(other),
        }
    }
    let (_, asked, end) = drive(&mut interp, &parse("d = t<ACME>;"), no_file);
    assert_eq!(end, Ok(()));
    assert_eq!(
        asked,
        vec!["Directory(\"ACME\")", "File(\"ACME\")", "Script(\"ACME\")", "Document(\"ACME\")"]
    );
}

#[test]
fn a_fetch_goes_wrong() {
    fn no_directory(_: &Pending) -> Reply {
        reply(Outcome::Failed, "", "no room")
    }
    fn no_python(p: &Pending) -> Reply {
        match p {
            Pending::Script(_) => reply(Outcome::Failed, "", "not found"),
            other => world(other),
        }
    }
    fn bad_exit(p: &Pending) -> Reply {
        match p {
            Pending::Script(_) => reply(Outcome::Refused, "", "exit status: 3"),
            other => world(other),
        }
    }
    fn unreadable(p: &Pending) -> Reply {
        match p {
            Pending::Document(_) => reply(Outcome::Failed, "data/A.json", "denied"),
            other => world(other),
        }
    }
    fn no_json(p: &Pending) -> Reply {
        match p {
            Pending::Document(_) => reply(Outcome::Done, "data/A.json", "{"),
            other => world(other),
        }
    }
    let program = parse("x = t<A>;");
    let end = |host| drive(&mut fresh().with_python_bin("py".to_string()), &program, host).2.unwrap_err();
    assert_eq!(end(no_directory), "runtime error: could not create 'data': no room");
    assert_eq!(
        end(no_python),
        "runtime error: failed to run `py gen.py`: not found (is python3 installed and on PATH?)"
    );
    assert_eq!(
        end(bad_exit),
        "runtime error: generator script exited with exit status: 3 for ticker `A`"
    );
    assert_eq!(end(unreadable), "runtime error: could not read 'data/A.json': denied");
    assert_eq!(
        end(no_json),
        "runtime error: invalid JSON in 'data/A.json': EOF while parsing an object at line 1 column 1"
    );
}

#[test]
fn subsets_are_looked_up() {
    let look = |src: &str| {
        let (printed, _, end) = drive(&mut fresh(), &parse(src), world);
        match end {
            Ok(()) => printed,
            Err(e) => e,
        }
    };
    assert_eq!(look("c = t<A>; print(c.price);"), "{\n  \"last\": 12.5\n}");
    assert_eq!(look("c = t<A>; print(c.tags);"), "[\n  1,\n  2\n]");
    assert_eq!(look("c = t<A>; print(c.nope);"), "runtime error: no subset named `nope`");
    assert_eq!(
        look("c = t<A>; print(c.tags.x);"),
        "runtime error: no subsets to look `x` up in"
    );
    assert_eq!(
        look("c = t<A>; print(c.name.x);"),
        "runtime error: cannot look up `x` on Acme -- it isn't a set of subsets"
    );
}

#[test]
fn the_tickers_of_a_program_are_collected() {
    let program = parse(
        "a = t<X>; fn f(y) { return y; } b = f(t<Y>) + t<X>.price; print(t<Z>, [unsafe] { return t<W>; });",
    );
    assert_eq!(collect_tickers(&program), vec!["X", "Y", "Z", "W"]);
}

#[test]
fn an_expression_may_fetch_into_the_block_that_it_stands_in() {
    // The name of the ticker ends with the block.
    let (_, _, end) = drive(&mut fresh(), &parse("a = [unsafe] { return t<A>.name; }; print(A);"), world);
    assert_eq!(end, Err("runtime error: undefined variable `A`".to_string()));
}

#[test]
fn a_fixed_node_is_what_a_run_computes() {
    use_fixed("z = 2 ^ 10; w = [unsafe] { mut s = 0; mut i = 0; while i < 4 { i = i + 1; s = s + i * z; } return s; };");
}

fn use_fixed(src: &str) {
    let program = parse(src);
    let graph = finscript::dag::build_dag(&program, &Doubles).unwrap();
    let mut interp = fresh();
    let (_, _, end) = drive(&mut interp, &program, nobody);
    assert_eq!(end, Ok(()));
    for node in graph.fixed() {
        let expected = match &node.op {
            finscript::dag::Operation::Fixed { value: finscript::dag::FrozenLit::Number(n), .. } => *n,
            other => panic!("expected a fixed number, got {other:?}"),
        };
        match interp.env_get(&node.name).map(|b| b.value.clone()) {
            Some(Value::Number(n)) => assert_eq!(n, expected),
            other => panic!("expected a number, got {other:?}"),
        }
    }
    assert_eq!(graph.fixed().len(), 2);
}

#[test]
fn a_program_is_run_step_by_step() {
    let mut interp = fresh();
    assert!(matches!(interp.action(), Action::Finished(Ok(()))));
    interp.run(&parse("print(1);"));
    assert!(matches!(interp.action(), Action::Continue));
    let nothing = reply(Outcome::Done, "", "");
    let mut steps = 0;
    while matches!(interp.step(&nothing, &Doubles), Action::Continue) {
        steps += 1;
    }
    // The program, the statement, the literal and what prints it.
    assert_eq!(steps, 3);
    assert!(matches!(interp.action(), Action::Ask(Pending::Print(_))));
}
