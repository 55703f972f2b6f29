use finscript::lexer::tokenize;
use finscript::number::Numbers;
use finscript::parser::BinOp;
use finscript::token::Token;

/// Numbers as doubles.
struct Doubles;

impl Numbers for Doubles {
    fn parse(&self, text: &str) -> Option<u64> {
        text.parse::<f64>().ok().map(f64::to_bits)
    }

    fn show(&self, n: u64) -> String {
        f64::from_bits(n).to_string()
    }

    fn arith(&self, op: BinOp, l: u64, r: u64) -> u64 {
        let (l, r) = (f64::from_bits(l), f64::from_bits(r));
        let result = match op {
            BinOp::Add => l + r,
            BinOp::Sub => l - r,
            BinOp::Mul => l * r,
            BinOp::Div => l / r,
            BinOp::Power => l.powf(r),
            other => panic!("no arithmetic: {other:?}"),
        };
        result.to_bits()
    }

    fn powi(&self, x: u64, n: i32) -> u64 {
        f64::from_bits(x).powi(n).to_bits()
    }
}

fn toks(src: &str) -> Vec<Token> {
    tokenize(src, &Doubles).unwrap().into_iter().map(|st| st.token).collect()
}

#[test]
fn brackets_lex() {
    assert_eq!(toks("[unsafe]"), vec![Token::LBracket, Token::Ident("unsafe".into()), Token::RBracket, Token::Eof]);
}
