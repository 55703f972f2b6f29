use finscript::number::Numbers;
use finscript::parser::BinOp;
use finscript::stdlib::dcf::dcf;
use finscript::value::Value;

/// Numbers as doubles.
struct Doubles;

impl Numbers for Doubles {
    fn parse(&self, text: &str) -> Option<u64> {
        text.parse::<f64>().ok().map(f64::to_bits)
    }

    fn show(&self, n: u64) -> String {
        f64::from_bits(n).to_string()
    }

    fn arith(&self, op: BinOp, l: u64, r: u64) -> u64 {
        let (l, r) = (f64::from_bits(l), f64::from_bits(r));
        let result = match op {
            BinOp::Add => l + r,
            BinOp::Sub => l - r,
            BinOp::Mul => l * r,
            BinOp::Div => l / r,
            BinOp::Power => l.powf(r),
            other => panic!("no arithmetic: {other:?}"),
        };
        result.to_bits()
    }

    fn powi(&self, x: u64, n: i32) -> u64 {
        f64::from_bits(x).powi(n).to_bits()
    }
}

fn num(x: f64) -> Value {
    Value::Number(x.to_bits())
}

#[test]
fn known_values_produce_a_positive_valuation() {
    let args = [
        num(100.0), // fcf
        num(0.05),  // growth_rate
        num(0.10),  // discount_rate
        num(0.02),  // terminal_growth_rate
        num(5.0),   // years
    ];
    let result = dcf(&args, &Doubles).unwrap();
    match result {
        Value::Number(n) => assert!(f64::from_bits(n) > 0.0, "expected a positive valuation, got {n}"),
        other => panic!("expected a number, got {other:?}"),
    }
}

#[test]
fn wrong_argument_count_is_an_error() {
    let args = [num(100.0)];
    let err = dcf(&args, &Doubles).unwrap_err();
    assert!(err.message.contains("expects 5 arguments"));
}

#[test]
fn non_number_argument_is_an_error() {
    let args = [
        Value::Str("not a number".into()),
        num(0.05),
        num(0.10),
        num(0.02),
        num(5.0),
    ];
    let err = dcf(&args, &Doubles).unwrap_err();
    assert!(err.message.contains("fcf"));
}

#[test]
fn discount_rate_below_terminal_growth_is_an_error() {
    let args = [
        num(100.0),
        num(0.05),
        num(0.01), // discount_rate
        num(0.02), // terminal_growth_rate -- >= discount_rate
        num(5.0),
    ];
    let err = dcf(&args, &Doubles).unwrap_err();
    assert!(err.message.contains("discount_rate must be greater"));
}

#[test]
fn zero_years_is_an_error() {
    let args = [
        num(100.0),
        num(0.05),
        num(0.10),
        num(0.02),
        num(0.0),
    ];
    let err = dcf(&args, &Doubles).unwrap_err();
    assert!(err.message.contains("positive whole number"));
}
