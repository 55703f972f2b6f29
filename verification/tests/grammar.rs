use finscript::ast::{Expr, Stmt};
use finscript::lexer::tokenize;
use finscript::number::Numbers;
use finscript::parser::{BinOp, ParseError, Parser};

/// Numbers as doubles.
struct Doubles;

impl Numbers for Doubles {
    fn parse(&self, text: &str) -> Option<u64> {
        text.parse::<f64>().ok().map(f64::to_bits)
    }

    fn show(&self, n: u64) -> String {
        f64::from_bits(n).to_string()
    }

    fn arith(&self, op: BinOp, l: u64, r: u64) -> u64 {
        let (l, r) = (f64::from_bits(l), f64::from_bits(r));
        let result = match op {
            BinOp::Add => l + r,
            BinOp::Sub => l - r,
            BinOp::Mul => l * r,
            BinOp::Div => l / r,
            BinOp::Power => l.powf(r),
            other => panic!("no arithmetic: {other:?}"),
        };
        result.to_bits()
    }

    fn powi(&self, x: u64, n: i32) -> u64 {
        f64::from_bits(x).powi(n).to_bits()
    }
}

fn statements(src: &str) -> Vec<Stmt> {
    Parser::new(tokenize(src, &Doubles).unwrap()).parse_program(&Doubles).unwrap()
}

fn value(src: &str) -> Expr {
    match statements(&format!("x = {src};")).remove(0) {
        Stmt::Assign { value, .. } => value,
        other => panic!("expected an assignment, got {other:?}"),
    }
}

fn fault(src: &str) -> ParseError {
    Parser::new(tokenize(src, &Doubles).unwrap()).parse_program(&Doubles).unwrap_err()
}

fn binary(op: BinOp, lhs: Expr, rhs: Expr) -> Expr {
    Expr::Binary { op, lhs: Box::new(lhs), rhs: Box::new(rhs) }
}

fn var(name: &str) -> Expr {
    Expr::Var(name.to_string())
}

#[test]
fn operators_group_as_they_should() {
    let (a, b, c) = (|| var("a"), || var("b"), || var("c"));
    assert_eq!(value("a - b - c"), binary(BinOp::Sub, binary(BinOp::Sub, a(), b()), c()));
    assert_eq!(value("a / b * c"), binary(BinOp::Mul, binary(BinOp::Div, a(), b()), c()));
    assert_eq!(value("a ^ b ^ c"), binary(BinOp::Power, a(), binary(BinOp::Power, b(), c())));
    assert_eq!(value("a * b ^ c"), binary(BinOp::Mul, a(), binary(BinOp::Power, b(), c())));
    assert_eq!(value("(a - b) * c"), binary(BinOp::Mul, binary(BinOp::Sub, a(), b()), c()));
    // Comparisons stand on one level with sums.
    assert_eq!(value("a < b + c"), binary(BinOp::Add, binary(BinOp::Lt, a(), b()), c()));
    assert_eq!(value("a == b != c"), binary(BinOp::Ne, binary(BinOp::Eq, a(), b()), c()));
}

#[test]
fn a_minus_sign_is_a_difference_from_zero() {
    let neg = |e: Expr| binary(BinOp::Sub, Expr::Int(0), e);
    assert_eq!(value("-5"), neg(Expr::Int(5)));
    assert_eq!(value("--a"), neg(neg(var("a"))));
    assert_eq!(value("a * -b"), binary(BinOp::Mul, var("a"), neg(var("b"))));
    assert_eq!(value("-a ^ b"), neg(binary(BinOp::Power, var("a"), var("b"))));
    assert_eq!(fault("x = 2 ^ -1;").message, "expected an expression, found `-`");
}

#[test]
fn angle_brackets_are_subsets_where_a_name_stands_in_them() {
    let sub = |e: Expr, n: &str| Expr::Subset { base: Box::new(e), name: n.to_string() };
    assert_eq!(value("a<b>"), sub(var("a"), "b"));
    assert_eq!(fault("x = a < b > c;").message, "expected `;`, found identifier `c`");
    assert_eq!(value("a < 1"), binary(BinOp::Lt, var("a"), Expr::Int(1)));
    assert_eq!(
        value("a.f<g>.h"),
        Expr::Field {
            base: Box::new(sub(Expr::Field { base: Box::new(var("a")), name: "f".to_string() }, "g")),
            name: "h".to_string(),
        }
    );
}

#[test]
fn conditionals_calls_and_blocks_are_read() {
    assert_eq!(
        value("if a { 1 } else { if b { 2 } else { 3 } }"),
        Expr::If {
            condition: Box::new(var("a")),
            then_branch: Box::new(Expr::Int(1)),
            else_branch: Box::new(Expr::If {
                condition: Box::new(var("b")),
                then_branch: Box::new(Expr::Int(2)),
                else_branch: Box::new(Expr::Int(3)),
            }),
        }
    );
    assert_eq!(value("f()"), Expr::Call { name: "f".to_string(), args: vec![] });
    assert_eq!(
        value("[unsafe] { mut i = 0; while i < 1 { i = i + 1; } return i; }"),
        Expr::Unsafe {
            body: vec![
                Stmt::Assign { name: "i".to_string(), value: Expr::Int(0), mutable: true },
                Stmt::While {
                    condition: binary(BinOp::Lt, var("i"), Expr::Int(1)),
                    body: vec![Stmt::Assign {
                        name: "i".to_string(),
                        value: binary(BinOp::Add, var("i"), Expr::Int(1)),
                        mutable: false,
                    }],
                },
                Stmt::Return(var("i")),
            ],
        }
    );
}

#[test]
fn some_words_are_names_too() {
    let assign = |n: &str| Stmt::Assign { name: n.to_string(), value: Expr::Int(1), mutable: false };
    assert_eq!(statements("mut = 1; while = 1; else = 1; unsafe = 1;"), vec![assign("mut"), assign("while"), assign("else"), assign("unsafe")]);
    assert_eq!(statements(""), vec![]);
}

#[test]
fn what_is_missing_is_named() {
    let cases = [
        ("x 1;", "expected `=`, found int `1`", 1, 3),
        ("x = ;", "expected an expression, found `;`", 1, 5),
        ("x = 1", "expected `;`, found end of input", 1, 6),
        ("x = f(1;", "expected `)`, found `;`", 1, 8),
        ("x = (1;", "expected `)`, found `;`", 1, 7),
        ("x = a.1;", "expected an identifier, found int `1`", 1, 7),
        ("1 = x;", "expected an identifier, found int `1`", 1, 1),
        ("print 1;", "expected `(`, found int `1`", 1, 7),
        ("fn f(a,) { return a; }", "expected an identifier, found `)`", 1, 8),
        ("x = if a { 1 };", "expected 'else' after if block", 1, 16),
        ("x = if a 1;", "expected `{`, found int `1`", 1, 10),
        ("x = [a];", "expected an expression, found `[`", 1, 5),
        ("fn f() {
}", "function `f` must end with a `return` statement", 2, 2),
        ("x = [unsafe] { return 1;", "expected an identifier, found end of input", 1, 25),
    ];
    for (src, message, line, col) in cases {
        let e = fault(src);
        assert_eq!((e.message.as_str(), e.line, e.col), (message, line, col), "{src}");
    }
    assert_eq!(fault("x 1;").to_text(), "parse error at 1:3: expected `=`, found int `1`");
}

#[test]
fn programs_can_be_put_one_after_the_other() {
    let parts = [
        "x = 1;",
        "fn f(a) { return a; }",
        "y = [unsafe] { mut i = 0; while i < 1 { i = i + 1; } return i; };",
        "print(x < 2, f(x)<last>);",
        "",
        "# nothing",
    ];
    for a in parts {
        for b in parts {
            let mut expected = statements(a);
            expected.extend(statements(b));
            assert_eq!(statements(&format!("{a}\n{b}")), expected, "{a:?} {b:?}");
        }
        // What is wrong with the second program is wrong there.
        let wrong = fault("z = ;");
        let both = fault(&format!("{a}\nz = ;"));
        assert_eq!((both.message, both.line, both.col), (wrong.message, 2, wrong.col), "{a:?}");
    }
}

#[test]
fn only_the_tokens_matter() {
    let one_line = "x = a + b * 2; if_x = if a { 1 } else { 2 }; w = t<ACME>.price;";
    let many_lines = one_line.replace(' ', "\n  # a comment\n ");
    assert_eq!(statements(one_line), statements(&many_lines));
    let wrong = fault("x = 1 + ; y");
    let moved = fault("x\n= 1 #\n + ;\ny");
    assert_eq!(wrong.message, moved.message);
    assert_eq!((wrong.line, wrong.col), (1, 9));
    assert_eq!((moved.line, moved.col), (3, 4));
}
