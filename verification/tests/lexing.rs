use finscript::lexer::{is_ident_continue, is_ident_start, tokenize, LexError, Lexer};
use finscript::number::Numbers;
use finscript::parser::BinOp;
use finscript::token::{SpannedToken, Token};

/// Numbers as doubles.
struct Doubles;

impl Numbers for Doubles {
    fn parse(&self, text: &str) -> Option<u64> {
        text.parse::<f64>().ok().map(f64::to_bits)
    }

    fn show(&self, n: u64) -> String {
        f64::from_bits(n).to_string()
    }

    fn arith(&self, op: BinOp, l: u64, r: u64) -> u64 {
        let (l, r) = (f64::from_bits(l), f64::from_bits(r));
        let result = match op {
            BinOp::Add => l + r,
            BinOp::Sub => l - r,
            BinOp::Mul => l * r,
            BinOp::Div => l / r,
            BinOp::Power => l.powf(r),
            other => panic!("no arithmetic: {other:?}"),
        };
        result.to_bits()
    }

    fn powi(&self, x: u64, n: i32) -> u64 {
        f64::from_bits(x).powi(n).to_bits()
    }
}

fn kinds(src: &str) -> Vec<Token> {
    tokenize(src, &Doubles).unwrap().into_iter().map(|t| t.token).collect()
}

fn fault(src: &str) -> LexError {
    tokenize(src, &Doubles).unwrap_err()
}

fn ident(s: &str) -> Token {
    Token::Ident(s.to_string())
}

#[test]
fn every_symbol_is_read() {
    assert_eq!(
        kinds("= + - * / . , < > ( ) { } [ ] ; == != <= >= ^"),
        vec![
            Token::Equals, Token::Plus, Token::Minus, Token::Star, Token::Slash, Token::Dot,
            Token::Comma, Token::LAngle, Token::RAngle, Token::LParen, Token::RParen,
            Token::LBrace, Token::RBrace, Token::LBracket, Token::RBracket, Token::Semicolon,
            Token::EqEq, Token::NotEq, Token::LessEq, Token::GreaterEq, Token::Caret, Token::Eof,
        ]
    );
    // The longer symbol wins.
    assert_eq!(kinds("a===b"), vec![ident("a"), Token::EqEq, Token::Equals, ident("b"), Token::Eof]);
    assert_eq!(kinds("<=="), vec![Token::LessEq, Token::Equals, Token::Eof]);
}

#[test]
fn words_are_names() {
    assert_eq!(
        kinds("if _x9 print \u{e9}t\u{e9} a\u{661}"),
        vec![ident("if"), ident("_x9"), ident("print"), ident("\u{e9}t\u{e9}"), ident("a\u{661}"), Token::Eof]
    );
    assert!(is_ident_start('_') && is_ident_start('Z') && is_ident_start('\u{e9}'));
    assert!(!is_ident_start('1') && !is_ident_start('\u{661}') && !is_ident_start('$'));
    assert!(is_ident_continue('1') && is_ident_continue('\u{661}') && !is_ident_continue('-'));
}

#[test]
fn numbers_are_read() {
    let half = Token::Float(0.5f64.to_bits());
    assert_eq!(kinds("0.5"), vec![half.clone(), Token::Eof]);
    assert_eq!(kinds("007"), vec![Token::Int(7), Token::Eof]);
    assert_eq!(kinds("9223372036854775807"), vec![Token::Int(i64::MAX), Token::Eof]);
    // A point belongs to a number only where a digit follows.
    assert_eq!(kinds("1.x"), vec![Token::Int(1), Token::Dot, ident("x"), Token::Eof]);
    assert_eq!(kinds("1."), vec![Token::Int(1), Token::Dot, Token::Eof]);
    assert_eq!(kinds(".5"), vec![Token::Dot, Token::Int(5), Token::Eof]);
    assert_eq!(kinds("1.0.5"), vec![Token::Float(1f64.to_bits()), Token::Dot, Token::Int(5), Token::Eof]);
    assert_eq!(kinds("2x"), vec![Token::Int(2), ident("x"), Token::Eof]);
}

#[test]
fn a_number_can_be_too_large() {
    let e = fault("x = 9223372036854775808;");
    assert_eq!(
        e.message,
        "invalid int literal '9223372036854775808': number too large to fit in target type"
    );
    assert_eq!((e.line, e.col), (1, 5));
}

#[test]
fn strings_are_read() {
    assert_eq!(
        kinds("\"a b\" \"\\n\\t\\r\\\\\\\"\" \"\" \"#\""),
        vec![
            Token::Str("a b".to_string()), Token::Str("\n\t\r\\\"".to_string()),
            Token::Str(String::new()), Token::Str("#".to_string()), Token::Eof,
        ]
    );
}

#[test]
fn a_string_has_to_end() {
    let e = fault("a = \n  \"abc");
    assert_eq!(e.message, "unterminated string literal");
    assert_eq!((e.line, e.col), (2, 3));
    assert_eq!(fault("\"abc\\").message, "unterminated string literal");
}

#[test]
fn an_escape_has_to_be_known() {
    let e = fault("\"a\\qb\"");
    assert_eq!(e.message, "unknown escape sequence '\\q' in string literal");
    assert_eq!((e.line, e.col), (1, 5));
}

#[test]
fn a_character_has_to_be_known() {
    let e = fault("x = $;");
    assert_eq!(e.message, "unexpected character '$'");
    assert_eq!((e.line, e.col), (1, 6));
    assert_eq!(e.to_text(), "lex error at 1:6: unexpected character '$'");
    let e = fault("a ! b");
    assert_eq!(e.message, "expected '=' after '!'");
    assert_eq!((e.line, e.col), (1, 4));
}

#[test]
fn positions_are_kept_and_comments_are_skipped() {
    let ts = tokenize("a # one\n\t# two\n  b\r\n", &Doubles).unwrap();
    let places: Vec<(usize, usize)> = ts.iter().map(|t| (t.line, t.col)).collect();
    assert_eq!(places, vec![(1, 1), (3, 3), (4, 1)]);
    // The end of input comes once, at the end.
    assert_eq!(ts.iter().filter(|t| t.token == Token::Eof).count(), 1);
    assert_eq!(ts.last().unwrap().token, Token::Eof);
    assert_eq!(kinds(""), vec![Token::Eof]);
    assert_eq!(kinds("# no newline"), vec![Token::Eof]);
    assert_eq!(Lexer::new("x").tokenize(&Doubles).unwrap().len(), 2);
}

#[test]
fn tokens_have_names() {
    let text = |t: Token| t.to_text(&Doubles);
    assert_eq!(text(ident("a")), "identifier `a`");
    assert_eq!(text(Token::Int(-3)), "int `-3`");
    assert_eq!(text(Token::Float(2.5f64.to_bits())), "float `2.5`");
    assert_eq!(text(Token::Str("a\"b\n".to_string())), "string \"a\\\"b\\n\"");
    assert_eq!(text(Token::GreaterEq), "`>=`");
    assert_eq!(text(Token::Eof), "end of input");
    assert!(Token::Int(1).is(&Token::Int(1)) && !Token::Int(1).is(&Token::Int(2)));
    assert!(!Token::Plus.is(&Token::Minus));
}

fn spans(src: &str) -> Vec<(Token, usize, usize)> {
    tokenize(src, &Doubles).unwrap().into_iter().map(|t| (t.token, t.line, t.col)).collect()
}

#[test]
fn lines_read_one_after_the_other() {
    for (a, b) in [
        ("x = 1;", "y = 2;"),
        ("x = 1; # and so on", "\n  y"),
        ("a\n\nb", "  # c\n d"),
        ("1.", "5"),
        ("<", "= 2"),
        ("", ""),
        ("\"s\n\"", "t"),
    ] {
        let mut expected = spans(a);
        expected.pop();
        let down = a.matches('\n').count() + 1;
        expected.extend(spans(b).into_iter().map(|(t, line, col)| (t, line + down, col)));
        assert_eq!(spans(&format!("{a}\n{b}")), expected, "{a:?} {b:?}");
    }
    // What is wrong with the second text is wrong there.
    let wrong = fault("\n  $");
    assert_eq!((wrong.line, wrong.col), (2, 4));
    assert_eq!(fault("x = 1;\n\n  $"), LexError { line: 3, ..wrong });
}

#[test]
fn a_space_is_as_good_as_a_line() {
    for (a, b) in [("x = 1;", "y"), ("1.", "5"), ("# c\nx", "# d"), ("<", "="), ("\"#\"\n", "z")] {
        let mut expected = kinds(a);
        expected.pop();
        expected.extend(kinds(b));
        assert_eq!(kinds(&format!("{a} {b}")), expected, "{a:?} {b:?}");
        assert_eq!(kinds(&format!("{a}\n{b}")), expected, "{a:?} {b:?}");
    }
    // A comment goes on to the end of its line.
    assert_eq!(kinds("x # y z"), vec![ident("x"), Token::Eof]);
}

#[test]
fn blanks_and_comments_are_skipped() {
    let src = " \t\r\n# one # two\n#\n  x#y\n#z";
    assert_eq!(spans(src), vec![(ident("x"), 4, 3), (Token::Eof, 5, 3)]);
    assert_eq!(kinds("#"), vec![Token::Eof]);
    // Other white space is none.
    assert_eq!(fault("\u{a0}").message, "unexpected character '\u{a0}'");
}

#[test]
fn a_literal_ends_at_its_quote() {
    let text = |s: &str| Token::Str(s.to_string());
    assert_eq!(kinds("\"a\"\"b\""), vec![text("a"), text("b"), Token::Eof]);
    assert_eq!(kinds("\"\\\\\"x"), vec![text("\\"), ident("x"), Token::Eof]);
    assert_eq!(kinds("\"a\nb\"# c"), vec![text("a\nb"), Token::Eof]);
}

#[test]
fn tokens_compare_their_numbers_as_numbers() {
    let float = |x: f64| Token::Float(x.to_bits());
    assert_eq!(float(0.5), float(0.5));
    assert_ne!(float(0.5), float(0.25));
    assert_eq!(float(0.0), float(-0.0));
    assert_ne!(float(f64::NAN), float(f64::NAN));
    assert!(float(0.0).is(&float(-0.0)) && !float(f64::NAN).is(&float(f64::NAN)));
    assert_ne!(float(1.0), Token::Int(1));
    assert_ne!(ident("a"), Token::Str("a".to_string()));
    let at = |x: f64, col: usize| SpannedToken { token: float(x), line: 1, col };
    assert_eq!(at(0.0, 2), at(-0.0, 2));
    assert_ne!(at(0.0, 2), at(0.0, 3));
    assert_ne!(at(f64::NAN, 2), at(f64::NAN, 2));
}

#[test]
fn the_end_is_read_again_and_again() {
    let mut lexer = Lexer::new("x # c\n ");
    let x = lexer.next_token(&Doubles).unwrap();
    assert_eq!((x.token, x.line, x.col), (ident("x"), 1, 1));
    let end = lexer.next_token(&Doubles).unwrap();
    assert_eq!((&end.token, end.line, end.col), (&Token::Eof, 2, 2));
    assert_eq!(lexer.next_token(&Doubles).unwrap(), end);
    assert_eq!(lexer.next_token(&Doubles).unwrap(), end);
}

#[test]
fn the_lexer_goes_on_where_it_stopped() {
    let mut lexer = Lexer::new(" # a\n \"b\\\"\n\" c");
    lexer.skip_whitespace_and_comments();
    lexer.skip_whitespace_and_comments();
    assert_eq!(lexer.read_string().unwrap(), Token::Str("b\"\n".to_string()));
    assert_eq!(lexer.next_token(&Doubles).unwrap().token, ident("c"));
    // After what is no token it goes on, too.
    let mut lexer = Lexer::new("$ \"\\q d");
    assert!(lexer.next_token(&Doubles).is_err());
    assert!(lexer.next_token(&Doubles).is_err());
    assert_eq!(lexer.next_token(&Doubles).unwrap().token, ident("d"));
}
