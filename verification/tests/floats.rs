use wat_lexer::text::lexer::{lex, lex_float, State};
use wat_lexer::text::Token;

fn tokens(input: &str) -> Vec<Token> {
    lex(&input.to_string()).expect("the text is scannable")
}

fn is_float(word: &str) -> bool {
    match lex_float(&State::new(word)) {
        Some((Token::Float(text), n)) => {
            assert_eq!(text, word);
            assert_eq!(n, word.chars().count());
            true
        },
        Some(other) => panic!("not a float: {:?}", other),
        None => false,
    }
}

#[test]
fn decimal_floats() {
    for word in [
        "1.5", "1.", "0.0", "1e5", "1E5", "1e+5", "1e-5", "1.5e10", "1.e5", "1_000.000_1e1_0",
        "+1.5", "-1.5", "-0.0", "12e0", "007.5",
    ] {
        assert!(is_float(word), "{}", word);
    }
}

#[test]
fn hexadecimal_floats() {
    for word in [
        "0x1.8", "0x1.", "0x1p3", "0x1P3", "0x1p+3", "0x1p-3", "0x1.8p3", "0xA_b.C_dp1_0",
        "-0x1.8p3", "+0xff.", "0x1e5p0",
    ] {
        assert!(is_float(word), "{}", word);
    }
}

#[test]
fn infinities_and_nans() {
    for word in ["inf", "+inf", "-inf", "nan", "+nan", "-nan", "nan:0x1", "-nan:0x7f_ffff"] {
        assert!(is_float(word), "{}", word);
    }
}

#[test]
fn words_that_are_no_floats() {
    for word in [
        "", ".5", "1..5", "1.5.", "1e", "1e+", "1ee5", "1e5.0", "1.5e1.5", "1_.5", "1._5", "e5",
        "0x", "0x.8", "0x1p", "0x1pa", "0x1e+5", "1p3", "infx", "infinity", "nanx", "nan:", "nan:0x",
        "nan:1", "nan:0xg", "Inf", "NaN", "+", "-", "+-1", "--1", "1+1", "$1.5", "1.5f", "12", "-12",
        "+0xff", "0x1e5", "0", "1_000", "99999999999999999999",
    ] {
        assert!(!is_float(word), "{}", word);
    }
}

#[test]
fn a_float_is_a_whole_word() {
    assert_eq!(lex_float(&State::new("1.5)")), Some((Token::Float("1.5".to_string()), 3)));
    assert_eq!(lex_float(&State::new("1.5 x")), Some((Token::Float("1.5".to_string()), 3)));
    assert_eq!(lex_float(&State::new("1.5x")), None);
    assert_eq!(lex_float(&State::new("(1.5")), None);
}

#[test]
fn floats_among_tokens() {
    assert_eq!(
        tokens("(f32.const -1.5e3) inf nan:0x1 infinity 1.5.2"),
        vec![
            Token::OpenParen,
            Token::Keyword("f32.const".to_string()),
            Token::Float("-1.5e3".to_string()),
            Token::CloseParen,
            Token::Float("inf".to_string()),
            Token::Float("nan:0x1".to_string()),
            Token::Keyword("infinity".to_string()),
            Token::Reserved("1.5.2".to_string()),
        ]
    );
}
