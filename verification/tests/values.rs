use finscript::json::{Json, JsonNode};
use finscript::names::NameMap;
use finscript::number::{eq, eval_binop, lt, nan, of_int, round_to_int, to_short_int, zero, Numbers};
use finscript::parser::BinOp;
use finscript::text::{i64_text, same_text, u64_text, white};
use finscript::value::{
    as_number, find_member, json_to_value, load_json, parse_override, parse_param_value,
    subset_lookup, RuntimeError, Value,
};

/// Numbers as doubles.
struct Doubles;

impl Numbers for Doubles {
    fn parse(&self, text: &str) -> Option<u64> {
        text.parse::<f64>().ok().map(f64::to_bits)
    }

    fn show(&self, n: u64) -> String {
        f64::from_bits(n).to_string()
    }

    fn arith(&self, op: BinOp, l: u64, r: u64) -> u64 {
        let (l, r) = (f64::from_bits(l), f64::from_bits(r));
        let result = match op {
            BinOp::Add => l + r,
            BinOp::Sub => l - r,
            BinOp::Mul => l * r,
            BinOp::Div => l / r,
            BinOp::Power => l.powf(r),
            other => panic!("no arithmetic: {other:?}"),
        };
        result.to_bits()
    }

    fn powi(&self, x: u64, n: i32) -> u64 {
        f64::from_bits(x).powi(n).to_bits()
    }
}

fn bits(x: f64) -> u64 {
    x.to_bits()
}

fn num(v: Value) -> f64 {
    match v {
        Value::Number(n) => f64::from_bits(n),
        other => panic!("expected a number, got {other:?}"),
    }
}

const NUMBERS: [f64; 16] = [
    0.0, -0.0, 1.0, -1.0, 0.5, -0.5, 1e15, -1e15, 999999999999999.0, 1e300, -1e300,
    5e-324, f64::INFINITY, f64::NEG_INFINITY, f64::NAN, 4503599627370496.5,
];

#[test]
fn order_is_that_of_doubles() {
    for a in NUMBERS {
        for b in NUMBERS {
            assert_eq!(lt(bits(a), bits(b)), a < b, "{a} < {b}");
            assert_eq!(eq(bits(a), bits(b)), a == b, "{a} == {b}");
        }
        assert_eq!(nan(bits(a)), a.is_nan());
        assert_eq!(zero(bits(a)), a == 0.0);
    }
}

#[test]
fn comparisons_give_one_or_zero() {
    let ops = [BinOp::Lt, BinOp::Gt, BinOp::Le, BinOp::Ge, BinOp::Eq, BinOp::Ne];
    for a in NUMBERS {
        for b in NUMBERS {
            let expected = [a < b, a > b, a <= b, a >= b, a == b, a != b];
            for (op, e) in ops.iter().zip(expected) {
                let r = eval_binop(&Doubles, *op, bits(a), bits(b)).map(f64::from_bits);
                assert_eq!(r, Some(if e { 1.0 } else { 0.0 }), "{a} {op:?} {b}");
            }
        }
    }
    assert_eq!(eval_binop(&Doubles, BinOp::Div, bits(1.0), bits(-0.0)), None);
    assert_eq!(eval_binop(&Doubles, BinOp::Div, bits(1.0), bits(4.0)), Some(bits(0.25)));
}

#[test]
fn integers_become_doubles() {
    for n in [0, 1, -1, 7, i64::MAX, i64::MIN, 9007199254740992, 9007199254740993, -9007199254740995, 123456789012345678] {
        assert_eq!(f64::from_bits(of_int(n)), n as f64, "{n}");
    }
}

#[test]
fn short_integers_are_recognised() {
    assert_eq!(to_short_int(bits(-42.0)), Some(-42));
    assert_eq!(to_short_int(bits(999999999999999.0)), Some(999999999999999));
    assert_eq!(to_short_int(bits(1e15)), None);
    assert_eq!(to_short_int(bits(0.5)), None);
    assert_eq!(to_short_int(bits(-0.0)), Some(0));
    assert_eq!(to_short_int(bits(f64::NAN)), None);
    assert_eq!(to_short_int(bits(f64::INFINITY)), None);
}

#[test]
fn rounding_is_that_of_doubles() {
    for x in [0.0, 0.4999999999999999, 0.5, 1.5, 2.5, -0.5, -1.5, -2.4, 5.0, 1e18, 9.3e18, -9.3e18, 9223372036854775807.0, -9223372036854775808.0, 4503599627370495.5] {
        assert_eq!(round_to_int(bits(x)), x.round() as i64, "{x}");
    }
    assert_eq!(round_to_int(bits(f64::NAN)), 0);
    assert_eq!(round_to_int(bits(f64::INFINITY)), i64::MAX);
    assert_eq!(round_to_int(bits(f64::NEG_INFINITY)), i64::MIN);
}

#[test]
fn numerals_are_decimal() {
    assert_eq!(u64_text(0), "0");
    assert_eq!(u64_text(u64::MAX), u64::MAX.to_string());
    assert_eq!(i64_text(i64::MIN), i64::MIN.to_string());
    assert_eq!(i64_text(-305), "-305");
    assert!(same_text("a", "a") && !same_text("a", "b"));
    for c in [' ', '\t', '\n', '\u{a0}', '\u{2003}', '\u{3000}', 'a', '_', '\u{200b}'] {
        assert_eq!(white(c), c.is_whitespace(), "{c:?}");
    }
}

#[test]
fn a_map_keeps_the_order_of_its_names() {
    let mut map: NameMap<String> = NameMap::new();
    map.insert("b".to_string(), "1".to_string());
    map.insert("a".to_string(), "2".to_string());
    map.insert("b".to_string(), "3".to_string());
    assert_eq!(map.get("b"), Some(&"3".to_string()));
    assert_eq!(map.get("c"), None);
    assert!(map.contains("a") && !map.contains("c"));
    assert_eq!(map.entries.len(), 2);
    assert_eq!(map.entries[0].0, "b");
}

#[test]
fn a_value_is_a_number_or_not() {
    assert_eq!(as_number(&Value::Number(7), &Doubles).unwrap(), 7);
    let e = as_number(&Value::Str("x".to_string()), &Doubles).unwrap_err();
    assert_eq!(e.message, "expected a number, found x");
    assert_eq!(RuntimeError::new("m".to_string()).to_text(), "runtime error: m");
}

#[test]
fn raw_parameters_are_numbers_where_they_can_be() {
    assert_eq!(num(parse_param_value("2.5", &Doubles)), 2.5);
    match parse_param_value("2,5", &Doubles) {
        Value::Str(s) => assert_eq!(s, "2,5"),
        other => panic!("expected a text, got {other:?}"),
    }
}

#[test]
fn overrides_are_recognised() {
    let pair = |a: &str, b: &str| Some((a.to_string(), b.to_string()));
    assert_eq!(parse_override("--x=5"), pair("x", "5"));
    assert_eq!(parse_override("--x=a=b"), pair("x", "a=b"));
    assert_eq!(parse_override("--x="), pair("x", ""));
    assert_eq!(parse_override("--x"), None);
    assert_eq!(parse_override("x=5"), None);
    assert_eq!(parse_override("-"), None);
}

#[test]
fn a_document_is_looked_up_in() {
    let doc = load_json("f.json", r#"{"a": {"b/c": 1, "~": 2.5, "s": "t"}, "n": null, "big": 12345678901}"#).unwrap();
    let a = subset_lookup(&doc, "a", &Doubles).unwrap();
    assert_eq!(num(subset_lookup(&a, "b/c", &Doubles).unwrap()), 1.0);
    assert_eq!(num(subset_lookup(&a, "~", &Doubles).unwrap()), 2.5);
    assert_eq!(subset_lookup(&a, "s", &Doubles).unwrap().to_text(&Doubles), "t");
    assert_eq!(subset_lookup(&doc, "n", &Doubles).unwrap().to_text(&Doubles), "null");
    assert_eq!(num(subset_lookup(&doc, "big", &Doubles).unwrap()), 12345678901.0);
    let e = subset_lookup(&doc, "a/s", &Doubles).unwrap_err();
    assert_eq!(e.message, "no subset named `a/s`");
    let e = load_json("f.json", "[1,").unwrap_err();
    assert_eq!(e.message, "invalid JSON in 'f.json': EOF while parsing a value at line 1 column 3");
}

#[test]
fn a_found_value_is_what_it_is() {
    let j = Json::document("{}");
    assert_eq!(num(json_to_value(JsonNode::Number(Some(bits(4.0))), j.clone())), 4.0);
    assert!(num(json_to_value(JsonNode::Number(None), j.clone())).is_nan());
    let e = find_member(JsonNode::Other, JsonNode::Object, &j, "k").unwrap_err();
    assert_eq!(e.message, "no subsets to look `k` up in");
    let e = find_member(JsonNode::Object, JsonNode::Absent, &j, "k").unwrap_err();
    assert_eq!(e.message, "no subset named `k`");
    match find_member(JsonNode::Object, JsonNode::Object, &j, "a/b") {
        Ok(Value::Subsets(found)) => assert_eq!(found.pointer, "/a~1b"),
        other => panic!("expected subsets, got {other:?}"),
    }
    assert!(matches!(j.node(), JsonNode::Object));
    assert!(matches!(j.member("x").node(), JsonNode::Absent));
}
