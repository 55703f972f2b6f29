use finscript::ast::{Expr, Stmt};
use finscript::dag::{build_dag, display_expr, render_dag_file, Operation};
use finscript::interpreter::{Action, Interpreter, Pending, Reply, Value};
use finscript::lexer::tokenize;
use finscript::machine::Outcome;
use finscript::names::NameMap;
use finscript::number::Numbers;
use finscript::parser::{BinOp, Parser, Program};
use finscript::purity::check_purity;
use finscript::stdlib::register_all;

/// Numbers as doubles.
struct Doubles;

impl Numbers for Doubles {
    fn parse(&self, text: &str) -> Option<u64> {
        text.parse::<f64>().ok().map(f64::to_bits)
    }

    fn show(&self, n: u64) -> String {
        f64::from_bits(n).to_string()
    }

    fn arith(&self, op: BinOp, l: u64, r: u64) -> u64 {
        let (l, r) = (f64::from_bits(l), f64::from_bits(r));
        let result = match op {
            BinOp::Add => l + r,
            BinOp::Sub => l - r,
            BinOp::Mul => l * r,
            BinOp::Div => l / r,
            BinOp::Power => l.powf(r),
            other => panic!("no arithmetic: {other:?}"),
        };
        result.to_bits()
    }

    fn powi(&self, x: u64, n: i32) -> u64 {
        f64::from_bits(x).powi(n).to_bits()
    }
}

fn parse(src: &str) -> Program {
    Parser::new(tokenize(src, &Doubles).unwrap()).parse_program(&Doubles).unwrap()
}

fn reply(outcome: Outcome, path: &str, text: &str) -> Reply {
    Reply { outcome, path: path.to_string(), text: text.to_string() }
}

fn fresh() -> Interpreter {
    let mut interp = Interpreter::new("data".to_string(), "gen.py".to_string());
    register_all(&mut interp);
    interp
}

/// Run a program; `host` replies to whatever is asked for but printing.
/// Returns what was printed, what else was asked for, and how it ended.
fn drive(
    interp: &mut Interpreter,
    program: &Program,
    host: fn(&Pending) -> Reply,
) -> (String, Vec<String>, Result<(), String>) {
    let mut printed = String::new();
    let mut asked = Vec::new();
    interp.run(program);
    let mut answer = reply(Outcome::Done, "", "");
    for _ in 0..1_000_000 {
        match interp.step(&answer, &Doubles) {
            Action::Continue => {}
            Action::Ask(Pending::Print(s)) => {
                printed.push_str(&s);
                answer = reply(Outcome::Done, "", "");
            }
            Action::Ask(p) => {
                asked.push(format!("{p:?}"));
                answer = host(&p);
            }
            Action::Finished(r) => return (printed, asked, r.map_err(|e| e.to_text())),
        }
    }
    panic!("the program does not end");
}

fn nobody(p: &Pending) -> Reply {
    panic!("asked for {p:?}")
}

fn output(src: &str) -> String {
    let (printed, _, end) = drive(&mut fresh(), &parse(src), nobody);
    assert_eq!(end, Ok(()));
    printed
}

fn error(src: &str) -> String {
    let (_, _, end) = drive(&mut fresh(), &parse(src), nobody);
    end.unwrap_err()
}


fn value(src: &str) -> Expr {
    match parse(&format!("x = {src};")).remove(0) {
        Stmt::Assign { value, .. } => value,
        other => panic!("expected an assignment, got {other:?}"),
    }
}

/// What is written for `e`, read back.
fn again(e: &Expr) -> Expr {
    value(&display_expr(e, &Doubles))
}

#[test]
fn expressions_read_back() {
    for src in [
        "a + b * c ^ 2",
        "a.price<last> / 0.25",
        "if a < 1 { f(a, \"x\\n\") } else { g() }",
        "[unsafe] { mut i = 0; while i < n { i = i + 1; } return i; }",
        "a - b - c == 1",
    ] {
        let e = value(src);
        assert_eq!(again(&e), e, "{src}");
    }
    // Numbers with a minus sign read as differences from zero.
    assert_eq!(again(&Expr::Int(-5)), value("0 - 5"));
    assert_eq!(again(&Expr::Float((-0.5f64).to_bits())), value("0 - 0.5"));
    // Numbers without a point read as integers.
    assert_eq!(again(&Expr::Float(3f64.to_bits())), Expr::Int(3));
}

#[test]
fn operators_take_nothing_apart() {
    for (src, written) in [
        ("(a + b) * c", "(a + b) * c"),
        ("a * (b + c)", "a * (b + c)"),
        ("a * (b * c)", "a * (b * c)"),
        ("(a * b) * c", "a * b * c"),
        ("a - (b - c)", "a - (b - c)"),
        ("(a - b) - c", "a - b - c"),
        ("a / (b / c)", "a / (b / c)"),
        ("(a ^ b) ^ c", "(a ^ b) ^ c"),
        ("a ^ (b ^ c)", "a ^ b ^ c"),
        ("(a * b) ^ c", "(a * b) ^ c"),
        ("a ^ (b * c)", "a ^ (b * c)"),
        ("(a == b) == c", "a == b == c"),
        ("a == (b < c)", "a == (b < c)"),
        ("(a + b).price", "(a + b).price"),
        ("(a ^ 2)<last>", "(a ^ 2)<last>"),
        ("f(a)<last>.x", "f(a)<last>.x"),
        ("(a < b) > c", "(a < b) > c"),
        ("(a < 1) > c", "a < 1 > c"),
        ("(if a { b } else { c }) * 2", "if a { b } else { c } * 2"),
        ("0 - a", "0 - a"),
        ("(0 - a) ^ 2", "(0 - a) ^ 2"),
        ("x + 1", "x + 1"),
    ] {
        let e = value(src);
        assert_eq!(display_expr(&e, &Doubles), written, "{src}");
        assert_eq!(again(&e), e, "{src}");
    }
    // A number with a minus sign is no base of a power or of an access.
    let minus = || Box::new(Expr::Int(-2));
    let two = || Box::new(Expr::Int(2));
    let power = Expr::Binary { op: BinOp::Power, lhs: minus(), rhs: two() };
    assert_eq!(display_expr(&power, &Doubles), "(-2) ^ 2");
    assert_eq!(again(&power), value("(0 - 2) ^ 2"));
    let power = Expr::Binary { op: BinOp::Power, lhs: two(), rhs: minus() };
    assert_eq!(display_expr(&power, &Doubles), "2 ^ (-2)");
    assert_eq!(again(&power), value("2 ^ (0 - 2)"));
    let product = Expr::Binary { op: BinOp::Mul, lhs: minus(), rhs: minus() };
    assert_eq!(display_expr(&product, &Doubles), "-2 * -2");
    assert_eq!(again(&product), value("(0 - 2) * (0 - 2)"));
    let field = Expr::Field { base: minus(), name: "x".to_string() };
    assert_eq!(display_expr(&field, &Doubles), "(-2).x");
    assert_eq!(again(&field), value("(0 - 2).x"));
}

#[test]
fn strings_read_back() {
    for text in ["", "a  b", "\"\\", "\n\t\r", "\0\u{7f}\u{e9}\u{2028}#", "\\n"] {
        let e = Expr::Str(text.to_string());
        let written = display_expr(&e, &Doubles);
        assert!(!written.contains('\n'));
        assert_eq!(again(&e), e, "{written}");
        // Quotes and backslashes are all that needs a backslash.
        let raw = format!("\"{}\"", text.replace('\\', "\\\\").replace('"', "\\\""));
        assert_eq!(value(&raw), e, "{raw}");
    }
    assert_eq!(display_expr(&Expr::Str("a\n\"\0".to_string()), &Doubles), "\"a\\n\\\"\0\"");
}

#[test]
fn large_numbers_read_back() {
    let shown = |x: f64| display_expr(&Expr::Float(x.to_bits()), &Doubles);
    assert_eq!(shown(2.5), "2.5");
    assert_eq!(shown(2.0), "2");
    assert_eq!(shown(9e18), "9000000000000000000");
    assert_eq!(shown(1e19), "10000000000000000000.0");
    assert_eq!(shown(-1e19), "-10000000000000000000.0");
    assert_eq!(again(&Expr::Float(1e19f64.to_bits())), Expr::Float(1e19f64.to_bits()));
    assert_eq!(again(&Expr::Float(1e300f64.to_bits())), Expr::Float(1e300f64.to_bits()));
    assert_eq!(again(&Expr::Float(1e-300f64.to_bits())), Expr::Float(1e-300f64.to_bits()));
}

#[test]
fn numbers_that_are_written_can_be_read() {
    let mut bits: u64 = 1;
    for _ in 0..2000 {
        // Doubles of all sizes, one after the other.
        bits = bits.wrapping_mul(6364136223846793005).wrapping_add(1442695040888963407);
        for n in [bits, bits & 0x433f_ffff_ffff_ffff, bits | 0x43e0_0000_0000_0000, bits >> 12] {
            let x = f64::from_bits(n);
            if !x.is_finite() || n == (-0.0f64).to_bits() {
                continue;
            }
            let text = display_expr(&Expr::Float(n), &Doubles);
            let mut interp = fresh();
            assert_eq!(drive(&mut interp, &parse(&format!("x = {text};")), nobody).2, Ok(()));
            assert_eq!(number(&interp, "x").to_bits(), n, "{text}");
        }
    }
}

#[test]
fn what_parses_reads_back() {
    let src = "a = 1; mut print = [unsafe] { mut while = 2; while while > a { while = while - 1; } return while; };
        fn f(x, y) { return if x < y { x } else { (y - x) ^ (a + 1) * -2.50 }; }
        while_ = (a + 2) * (3 - (a - 1)); s = \"tab\\t\"; c = t<ACME>.price<last>;
        print(f(a, -while_), (a < s) > c, \"\\\"\");";
    let program = parse(src);
    let dag = build_dag(&program, &Doubles).unwrap();
    let text = render_dag_file(&program, &dag, &Doubles);
    let saved = parse(&text);
    assert_eq!(saved.len(), program.len());
    // What is saved again is the same.
    let dag = build_dag(&saved, &Doubles).unwrap();
    assert_eq!(parse(&render_dag_file(&saved, &dag, &Doubles)), saved, "{text}");
}

#[test]
fn trees_compare_their_numbers_as_numbers() {
    let float = |x: f64| Expr::Float(x.to_bits());
    assert_eq!(float(0.5), float(0.5));
    assert_ne!(float(0.5), float(0.25));
    assert_eq!(float(0.0), float(-0.0));
    assert_ne!(float(f64::NAN), float(f64::NAN));
    // An integer is no double.
    assert_ne!(float(1.0), Expr::Int(1));
    // The same goes for numbers within trees.
    let field = |x: f64| Expr::Field { base: Box::new(float(x)), name: "p".to_string() };
    let call = |x: f64| Expr::Call { name: "f".to_string(), args: vec![Expr::Int(1), field(x)] };
    let block = |x: f64| Expr::Unsafe { body: vec![Stmt::Return(call(x))] };
    let function = |x: f64| Stmt::FnDef {
        name: "g".to_string(),
        params: vec!["a".to_string()],
        body: vec![Stmt::Print(vec![float(x)]), Stmt::Return(block(x))],
    };
    assert_eq!(function(2.5), function(2.5));
    assert_eq!(function(0.0), function(-0.0));
    assert_ne!(function(2.5), function(3.5));
    assert_ne!(function(f64::NAN), function(f64::NAN));
    // And what is no number is compared as it is.
    for (a, b) in [
        ("x = a + b;", "x = a - b;"),
        ("x = f(a);", "x = f(a, a);"),
        ("x = a.p;", "x = a<p>;"),
        ("x = a.p;", "x = a.q;"),
        ("x = \"a\";", "x = a;"),
        ("x = if a { b } else { c };", "x = if a { c } else { b };"),
        ("fn f(a) { return a; }", "fn f(b) { return a; }"),
        ("x = [unsafe] { while a { b = 1; } return b; };", "x = [unsafe] { while a { } return b; };"),
        ("x = 1;", "mut x = 1;"),
        ("print(a);", "print(a, a);"),
    ] {
        assert_eq!(parse(a), parse(a), "{a}");
        assert_ne!(parse(a), parse(b), "{a}");
    }
}

#[test]
fn what_never_runs_does_not_matter() {
    let program = parse("y = if 0 { [unsafe] { print(7); return 1; } } else { 2 + 3 }; print(y);");
    let dag = build_dag(&program, &Doubles).unwrap();
    let text = render_dag_file(&program, &dag, &Doubles);
    assert!(text.contains("\ny = 5;  # frozen"), "{text}");
    let printed = |p: &Program| drive(&mut fresh(), p, nobody).0;
    assert_eq!(printed(&program), "5");
    assert_eq!(printed(&parse(&text)), "5");
}

#[test]
fn an_error_leaves_the_names_as_they_were() {
    let mut interp = fresh();
    let program = parse("a = 1; b = 2 + [unsafe] { mut a = 5; mut c = a / 0; return c; };");
    assert!(drive(&mut interp, &program, nobody).2.is_err());
    assert_eq!(number(&interp, "a"), 1.0);
    assert!(interp.env_get("b").is_none() && interp.env_get("c").is_none());
}

#[test]
fn formulas_keep_their_parentheses_and_strings() {
    let program = parse(
        "x = 5; y = x + 1; z = y * 2; n = 0 - 3; p = n ^ 2 * x;
         s = if x > 1 { \"a  b\0\" } else { \"\" };",
    );
    let dag = build_dag(&program, &Doubles).unwrap();
    let text = render_dag_file(&program, &dag, &Doubles);
    assert!(text.contains("\nz = (x + 1) * 2;  # unrolled formula (was: z = y * 2;)\n"), "{text}");
    assert!(text.contains("\ns = if x > 1 { \"a  b\0\" } else { \"\" };  # unrolled"), "{text}");
    assert_eq!(
        parse(&text),
        parse(
            "x = param(); y = x + 1; z = (x + 1) * 2; n = 0 - 3; p = 9 * x;
             s = if x > 1 { \"a  b\0\" } else { \"\" };"
        )
    );
}

#[test]
fn values_without_a_literal_are_not_frozen() {
    let program = parse("big = 10 ^ 400; nan = 10 ^ 400 - 10 ^ 400; zero = 0 * (0 - 1); ok = 10 ^ 19;");
    let dag = build_dag(&program, &Doubles).unwrap();
    assert_eq!(dag.fixed().len(), 4);
    let text = render_dag_file(&program, &dag, &Doubles);
    assert!(text.contains("\nbig = 10 ^ 400;\n"), "{text}");
    assert!(text.contains("\nnan = 10 ^ 400 - 10 ^ 400;\n"), "{text}");
    assert!(text.contains("\nzero = 0 * (0 - 1);\n"), "{text}");
    assert!(text.contains("\nok = 10000000000000000000.0;  # frozen from one full run (was: ok = 10 ^ 19;)\n"));
    let mut original = fresh();
    assert_eq!(drive(&mut original, &program, nobody).2, Ok(()));
    let mut saved = fresh();
    assert_eq!(drive(&mut saved, &parse(&text), nobody).2, Ok(()));
    for name in ["big", "nan", "zero", "ok"] {
        assert_eq!(number(&saved, name).to_bits(), number(&original, name).to_bits(), "{name}");
    }
}

#[test]
fn a_saved_file_does_what_the_program_does() {
    // Doubles that are whole, negative values and functions, in code that stays.
    let program = parse(
        "fn f(a) { return a * 2.0 - 1.5; }
         n = 1 - 4.0; q = f(n * 3.0); r = if q < 0.0 { (q + 1.0) * 2.0 } else { 0.5 };
         print(n, \" \", q, \" \", r);",
    );
    let dag = build_dag(&program, &Doubles).unwrap();
    let text = render_dag_file(&program, &dag, &Doubles);
    assert!(text.contains("\nn = -3;  # frozen"), "{text}");
    assert!(text.contains("(q + 1) * 2"), "{text}");
    let (printed, asked, end) = drive(&mut fresh(), &program, nobody);
    assert_eq!((printed.as_str(), asked.len(), end), ("-3 -19.5 -37", 0, Ok(())));
    let (again, asked, end) = drive(&mut fresh(), &parse(&text), nobody);
    assert_eq!((again, asked.len(), end), (printed, 0, Ok(())));
}

#[test]
fn saved_files_read_back() {
    let program = parse(
        "x = 5; y = x + 1; z = 2 - 10; s = \"a\"; c = t<ACME>; fn f(a) { return a; } w = f(x); print(w);",
    );
    let dag = build_dag(&program, &Doubles).unwrap();
    let text = render_dag_file(&program, &dag, &Doubles);
    assert_eq!(
        parse(&text),
        parse("x = param(); y = x + 1; z = 0 - 8; s = param(); c = t<ACME>; fn f(a) { return a; } w = f(x); print(w);")
    );
}

fn number(interp: &Interpreter, name: &str) -> f64 {
    match interp.env_get(name).map(|b| b.value.clone()) {
        Some(Value::Number(n)) => f64::from_bits(n),
        other => panic!("expected a number, got {other:?}"),
    }
}

#[test]
fn a_saved_file_computes_what_the_program_computes() {
    let program = parse(
        "x = 5;
         y = [unsafe] { mut s = 0; mut i = 0; while i < 3 { i = i + 1; s = s + x * i; } return s; };
         z = 2 ^ 10;
         w = if x > 3 { y - z } else { y + z };",
    );
    let dag = build_dag(&program, &Doubles).unwrap();
    assert!(matches!(dag.get("y").unwrap().op, Operation::Formula { .. }));
    let saved = parse(&render_dag_file(&program, &dag, &Doubles));
    for x in ["5", "2", "-1.5"] {
        let mut original = fresh();
        let source = format!("x = {x};");
        let mut changed = parse(&source);
        changed.extend(parse(
            "y = [unsafe] { mut s = 0; mut i = 0; while i < 3 { i = i + 1; s = s + x * i; } return s; };
             z = 2 ^ 10;
             w = if x > 3 { y - z } else { y + z };",
        ));
        assert_eq!(drive(&mut original, &changed, nobody).2, Ok(()));
        let mut params = NameMap::new();
        params.insert("x".to_string(), x.to_string());
        let mut rerun = fresh().with_params(params);
        assert_eq!(drive(&mut rerun, &saved, nobody).2, Ok(()));
        for name in ["x", "y", "z", "w"] {
            assert_eq!(number(&rerun, name), number(&original, name), "{name} for {x}");
        }
    }
}

fn body(src: &str) -> Vec<Stmt> {
    match parse(src).remove(0) {
        Stmt::FnDef { body, .. } => body,
        other => panic!("expected a function, got {other:?}"),
    }
}

#[test]
fn functions_are_checked_for_purity() {
    assert!(check_purity(&body("fn f(a) { b = a; return b + 1; }")).is_ok());
    for src in [
        "fn f(a) { print(a); return a; }",
        "fn f(a) { return t<A>; }",
        "fn f(a) { return [unsafe] { print(a); return a; }; }",
        "fn f(a) { fn g(b) { return b; } return a; }",
    ] {
        assert!(check_purity(&body(src)).is_err(), "{src}");
    }
}

#[test]
fn calls_and_blocks_leave_the_names_as_they_were() {
    let mut interp = fresh();
    let program = parse(
        "a = 1; fn f(a) { b = a * 2; return b; } c = f(10);
         d = [unsafe] { mut a = 7; mut e = 1; a = a + e; return a; };",
    );
    assert_eq!(drive(&mut interp, &program, nobody).2, Ok(()));
    assert_eq!(number(&interp, "a"), 1.0);
    assert_eq!(number(&interp, "c"), 20.0);
    assert_eq!(number(&interp, "d"), 8.0);
    assert!(interp.env_get("b").is_none() && interp.env_get("e").is_none());
}

#[test]
fn a_run_asks_for_nothing_but_what_the_program_says() {
    let (printed, asked, end) = drive(&mut fresh(), &parse("x = 1; print(x, x + 1);"), nobody);
    assert_eq!((printed.as_str(), asked.len(), end), ("12", 0, Ok(())));
}
