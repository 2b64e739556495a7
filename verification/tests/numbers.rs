use wat_lexer::text::lexer::lex;
use wat_lexer::text::Token;

fn tokens(input: &str) -> Vec<Token> {
    lex(&input.to_string()).expect("the text is scannable")
}

#[test]
fn decimal_values() {
    assert_eq!(tokens("0"), vec![Token::UnsignedInt(0)]);
    assert_eq!(tokens("12423"), vec![Token::UnsignedInt(12423)]);
    assert_eq!(tokens("1_000_000"), vec![Token::UnsignedInt(1_000_000)]);
}

#[test]
fn hexadecimal_values() {
    assert_eq!(tokens("0x0"), vec![Token::UnsignedInt(0)]);
    assert_eq!(tokens("0xdead_BEEF"), vec![Token::UnsignedInt(0xdead_beef)]);
    assert_eq!(tokens("0x00000000000000ff"), vec![Token::UnsignedInt(255)]);
}

#[test]
fn signed_values() {
    assert_eq!(tokens("+0"), vec![Token::SignedInt(0)]);
    assert_eq!(tokens("-0"), vec![Token::SignedInt(0)]);
    assert_eq!(tokens("+12 -12"), vec![Token::SignedInt(12), Token::SignedInt(-12)]);
    assert_eq!(tokens("-0xff"), vec![Token::SignedInt(-255)]);
    assert_eq!(tokens("-2147483648"), vec![Token::SignedInt(i32::MIN)]);
    assert_eq!(tokens("+2147483647"), vec![Token::SignedInt(i32::MAX)]);
}

#[test]
fn a_number_without_sign_is_unsigned() {
    assert_eq!(tokens("2147483648"), vec![Token::UnsignedInt(2147483648)]);
    assert_eq!(tokens("5"), vec![Token::UnsignedInt(5)]);
}

#[test]
fn decimal_round_trip() {
    for value in [0u32, 1, 9, 10, 99, 100, 12423, 65535, 1_000_000, 2147483647, 2147483648, u32::MAX] {
        let text = format!("{}", value);
        assert_eq!(tokens(&text), vec![Token::UnsignedInt(value)]);
    }
}

#[test]
fn leading_zeros_do_not_change_the_value() {
    for text in ["7", "07", "007", "0000000000000000000007"] {
        let parsed = tokens(text);
        assert_eq!(parsed, vec![Token::UnsignedInt(7)]);
        let rendered = match &parsed[0] {
            Token::UnsignedInt(value) => format!("{}", value),
            other => panic!("not a number: {:?}", other),
        };
        assert_eq!(rendered, "7");
        assert_eq!(tokens(&rendered), parsed);
    }
    assert_eq!(tokens("0004294967295"), vec![Token::UnsignedInt(u32::MAX)]);
}
