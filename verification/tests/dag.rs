use finscript::dag::{
    build_dag, display_expr, render_dag_file, FrozenLit, LiveReason, Operation,
};
use finscript::lexer::tokenize;
use finscript::number::Numbers;
use finscript::parser::{BinOp, Parser, Program};

/// Numbers as doubles.
struct Doubles;

impl Numbers for Doubles {
    fn parse(&self, text: &str) -> Option<u64> {
        text.parse::<f64>().ok().map(f64::to_bits)
    }

    fn show(&self, n: u64) -> String {
        f64::from_bits(n).to_string()
    }

    fn arith(&self, op: BinOp, l: u64, r: u64) -> u64 {
        let (l, r) = (f64::from_bits(l), f64::from_bits(r));
        let result = match op {
            BinOp::Add => l + r,
            BinOp::Sub => l - r,
            BinOp::Mul => l * r,
            BinOp::Div => l / r,
            BinOp::Power => l.powf(r),
            other => panic!("no arithmetic: {other:?}"),
        };
        result.to_bits()
    }

    fn powi(&self, x: u64, n: i32) -> u64 {
        f64::from_bits(x).powi(n).to_bits()
    }
}

fn parse(src: &str) -> Program {
    Parser::new(tokenize(src, &Doubles).unwrap()).parse_program(&Doubles).unwrap()
}

#[test]
fn tickers_are_hardcoded_literals_are_parameterized() {
    let prog = parse(
        r#"
        print("Hello world \n");
        target = t<AAPL>;
        x = 5;
        "#,
    );
    let dag = build_dag(&prog, &Doubles).unwrap();

    let target = dag.get("target").unwrap();
    assert!(matches!(&target.op, Operation::Ticker { symbol } if symbol == "AAPL"));

    let x = dag.get("x").unwrap();
    assert!(matches!(x.op, Operation::Param { .. }));

    let rendered = render_dag_file(&prog, &dag, &Doubles);
    assert!(rendered.contains("target = t<AAPL>;"));
    assert!(rendered.contains("x = param();"));
    assert!(rendered.contains("# was: x = 5;"));
}

#[test]
fn pure_constant_expression_freezes() {
    let prog = parse("z = 2 ^ 10;\n");
    let dag = build_dag(&prog, &Doubles).unwrap();
    let z = dag.get("z").unwrap();
    match &z.op {
        Operation::Fixed { value: FrozenLit::Number(n), .. } => assert_eq!(f64::from_bits(*n), 1024.0),
        other => panic!("expected Fixed, got {other:?}"),
    }
}

#[test]
fn derived_arithmetic_becomes_a_formula() {
    let prog = parse("x = 5;\ny = x + 1;\n");
    let dag = build_dag(&prog, &Doubles).unwrap();
    let y = dag.get("y").unwrap();
    assert!(matches!(y.op, Operation::Formula { .. }));
}

#[test]
fn fixed_trip_count_loop_unrolls_into_a_formula() {
    let prog = parse(
        r#"
        x = 5;
        y = [unsafe] {
            mut total = 0;
            mut i = 0;
            while i < 3 {
                total = total + x;
                i = i + 1;
            }
            return total;
        };
        "#,
    );
    let dag = build_dag(&prog, &Doubles).unwrap();
    let y = dag.get("y").unwrap();
    match &y.op {
        Operation::Formula { expr, .. } => {
            let rendered = display_expr(expr, &Doubles);
            assert!(!rendered.contains("while"), "formula should contain no loop: {rendered}");
            assert!(rendered.contains('x'), "formula should still reference the param: {rendered}");
        }
        other => panic!("expected Formula, got {other:?}"),
    }
}

#[test]
fn param_controlled_trip_count_stays_live() {
    let prog = parse(
        r#"
        x = 5;
        y = [unsafe] {
            mut total = 0;
            mut i = 0;
            while i < x {
                total = total + 1;
                i = i + 1;
            }
            return total;
        };
        "#,
    );
    let dag = build_dag(&prog, &Doubles).unwrap();
    let y = dag.get("y").unwrap();
    assert!(matches!(
        &y.op,
        Operation::Live { reason: LiveReason::ParamControlledLoop, .. }
    ));

    let rendered = render_dag_file(&prog, &dag, &Doubles);
    assert!(rendered.contains("while i < x"), "live loop should be kept verbatim:\n{rendered}");
}

#[test]
fn ticker_derived_values_stay_live() {
    let prog = parse(
        r#"
        target = t<AAPL>;
        price = target.price;
        doubled = price + price;
        "#,
    );
    let dag = build_dag(&prog, &Doubles).unwrap();
    assert!(matches!(dag.get("price").unwrap().op, Operation::Live { reason: LiveReason::Ticker, .. }));
    assert!(matches!(dag.get("doubled").unwrap().op, Operation::Live { reason: LiveReason::Ticker, .. }));
}

#[test]
fn function_calls_stay_live() {
    let prog = parse("x = 5;\ny = some_fn(x);\n");
    let dag = build_dag(&prog, &Doubles).unwrap();
    assert!(matches!(
        dag.get("y").unwrap().op,
        Operation::Live { reason: LiveReason::FunctionCall, .. }
    ));
}

#[test]
fn reassignment_creates_a_new_node_and_env_points_to_latest() {
    let prog = parse("x = 5;\nx = 6;\n");
    let dag = build_dag(&prog, &Doubles).unwrap();
    assert_eq!(dag.nodes.len(), 2);
    assert_eq!(dag.get("x").unwrap().id, 1);
}
