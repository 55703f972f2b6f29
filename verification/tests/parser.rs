use finscript::lexer::tokenize;
use finscript::number::Numbers;
use finscript::parser::{BinOp, Expr, Parser, Program, Stmt};

/// Numbers as doubles.
struct Doubles;

impl Numbers for Doubles {
    fn parse(&self, text: &str) -> Option<u64> {
        text.parse::<f64>().ok().map(f64::to_bits)
    }

    fn show(&self, n: u64) -> String {
        f64::from_bits(n).to_string()
    }

    fn arith(&self, op: BinOp, l: u64, r: u64) -> u64 {
        let (l, r) = (f64::from_bits(l), f64::from_bits(r));
        let result = match op {
            BinOp::Add => l + r,
            BinOp::Sub => l - r,
            BinOp::Mul => l * r,
            BinOp::Div => l / r,
            BinOp::Power => l.powf(r),
            other => panic!("no arithmetic: {other:?}"),
        };
        result.to_bits()
    }

    fn powi(&self, x: u64, n: i32) -> u64 {
        f64::from_bits(x).powi(n).to_bits()
    }
}

fn parse(src: &str) -> Program {
    Parser::new(tokenize(src, &Doubles).unwrap()).parse_program(&Doubles).unwrap()
}

#[test]
fn simple_assignment() {
    let prog = parse("x = 5;");
    assert_eq!(
        prog,
        vec![Stmt::Assign {
            name: "x".into(),
            mutable: false,
            value: Expr::Int(5)
        }]
    );
}

#[test]
fn ticker_construction_shape() {
    let prog = parse("company = t<APPL>;");
    assert_eq!(
        prog,
        vec![Stmt::Assign {
            name: "company".into(),
            mutable: false,
            value: Expr::Subset {
                base: Box::new(Expr::Var("t".into())),
                name: "APPL".into(),
            }
        }]
    );
}

#[test]
fn field_then_subset() {
    let prog = parse("earnings = APPL.earnings <ttm>;");
    assert_eq!(
        prog,
        vec![Stmt::Assign {
            name: "earnings".into(),
            mutable: false,
            value: Expr::Subset {
                base: Box::new(Expr::Field {
                    base: Box::new(Expr::Var("APPL".into())),
                    name: "earnings".into(),
                }),
                name: "ttm".into(),
            }
        }]
    );
}

#[test]
fn division() {
    let prog = parse("ratio = earnings/price;");
    assert_eq!(
        prog,
        vec![Stmt::Assign {
            name: "ratio".into(),
            mutable: false,
            value: Expr::Binary {
                op: BinOp::Div,
                lhs: Box::new(Expr::Var("earnings".into())),
                rhs: Box::new(Expr::Var("price".into())),
            }
        }]
    );
}

#[test]
fn print_stmt() {
    let prog = parse("print(ratio);");
    assert_eq!(prog, vec![Stmt::Print(vec![Expr::Var("ratio".into())])]);
}

#[test]
fn precedence_mul_before_add() {
    let prog = parse("x = 1 + 2 * 3;");
    assert_eq!(
        prog,
        vec![Stmt::Assign {
            name: "x".into(),
            mutable: false,
            value: Expr::Binary {
                op: BinOp::Add,
                lhs: Box::new(Expr::Int(1)),
                rhs: Box::new(Expr::Binary {
                    op: BinOp::Mul,
                    lhs: Box::new(Expr::Int(2)),
                    rhs: Box::new(Expr::Int(3)),
                }),
            }
        }]
    );
}

#[test]
fn full_example_parses() {
    let src = "company = t<APPL>;\n\
                earnings = APPL.earnings <ttm>;\n\
                price = APPL.price <last>;\n\
                ratio = earnings/price;\n\
                print(ratio);\n";
    let prog = parse(src);
    assert_eq!(prog.len(), 5);
}

#[test]
fn semicolons_allow_multiline_statements() {
    // A single statement's expression can now span multiple lines,
    // since a newline is just whitespace -- only `;` ends a statement.
    let prog = parse(
        "x = 1
             + 2
             + 3;",
    );
    assert_eq!(prog.len(), 1);
}

#[test]
fn missing_semicolon_is_an_error() {
    let tokens = tokenize("x = 5", &Doubles).unwrap(); // no trailing `;`
    let err = Parser::new(tokens).parse_program(&Doubles).unwrap_err();
    assert!(err.message.contains(";"));
}

#[test]
fn missing_equals_is_an_error() {
    let tokens = tokenize("x 5;", &Doubles).unwrap();
    let err = Parser::new(tokens).parse_program(&Doubles).unwrap_err();
    assert!(err.message.contains("expected"));
}

// ---- functions --------------------------------------------------

#[test]
fn function_def_and_call_shape() {
    let prog = parse("fn square(x) { return x * x; } y = square(5);");
    assert_eq!(
        prog,
        vec![
            Stmt::FnDef {
                name: "square".into(),
                params: vec!["x".into()],
                body: vec![Stmt::Return(Expr::Binary {
                    op: BinOp::Mul,
                    lhs: Box::new(Expr::Var("x".into())),
                    rhs: Box::new(Expr::Var("x".into())),
                })],
            },
            Stmt::Assign {
                name: "y".into(),
            mutable: false,
                value: Expr::Call {
                    name: "square".into(),
                    args: vec![Expr::Int(5)],
                },
            },
        ]
    );
}

#[test]
fn function_def_no_trailing_semicolon_needed() {
    // The closing `}` ends a fn definition -- no `;` required after it.
    let prog = parse("fn one() { return 1; }");
    assert_eq!(prog.len(), 1);
}

#[test]
fn function_with_multiple_params_and_args() {
    let prog = parse("fn add(a, b) { return a + b; } z = add(1, 2);");
    match &prog[0] {
        Stmt::FnDef { params, .. } => assert_eq!(params, &vec!["a".to_string(), "b".to_string()]),
        other => panic!("expected FnDef, got {other:?}"),
    }
    match &prog[1] {
        Stmt::Assign { value: Expr::Call { args, .. }, .. } => assert_eq!(args.len(), 2),
        other => panic!("expected Assign with a Call, got {other:?}"),
    }
}

#[test]
fn function_without_return_is_an_error() {
    let tokens = tokenize("fn broken(x) { y = x; }", &Doubles).unwrap();
    let err = Parser::new(tokens).parse_program(&Doubles).unwrap_err();
    assert!(err.message.contains("return"));
}
