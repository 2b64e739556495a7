use wat_lexer::text::chars::{
    hex_digit_value, is_digit, is_hex_digit, is_idchar, is_lower, is_space, Class,
};
use wat_lexer::text::lexer::{
    choose_longest, lex_blank, lex_block_comment, lex_id, lex_keyword, lex_left_paren,
    lex_line_comment, lex_reserved, lex_right_paren, lex_signed, lex_signed_dec, lex_signed_hex,
    lex_space, lex_string, lex_token, lex_unsigned, lex_unsigned_dec, lex_unsigned_hex, Lex, State,
};
use wat_lexer::text::Token;

fn at(input: &str, offset: usize) -> State {
    let mut state = State::new(input);
    state.advance(offset);
    state
}

#[test]
fn character_classes() {
    for c in [' ', '\t', '\n', '\r'] {
        assert!(is_space(c));
        assert!(Class::Blank.contains(c));
        assert!(!is_idchar(c));
    }
    assert!(!is_space('\u{b}'));
    assert!(!is_space('\u{a0}'));
    assert!(is_digit('0') && is_digit('9') && !is_digit('a') && !is_digit('/') && !is_digit(':'));
    assert!(is_hex_digit('a') && is_hex_digit('F') && is_hex_digit('7'));
    assert!(!is_hex_digit('g') && !is_hex_digit('G') && !is_hex_digit('x'));
    assert!(is_lower('a') && is_lower('z') && !is_lower('A') && !is_lower('{') && !is_lower('`'));
}

#[test]
fn identifier_characters_are_exactly_the_listed_ones() {
    let punctuation = "!#$%&'*+-./:<=>?@\\^_`|~";
    for code in 0u32..128 {
        let c = char::from_u32(code).unwrap();
        let expected = c.is_ascii_alphanumeric() || punctuation.contains(c);
        assert_eq!(is_idchar(c), expected, "{:?}", c);
        assert_eq!(Class::IdChar.contains(c), expected, "{:?}", c);
    }
    for c in ['é', 'λ', '\u{80}', '\u{10ffff}', '"', ',', ';', '(', ')', '[', ']', '{', '}'] {
        assert!(!is_idchar(c), "{:?}", c);
    }
}

#[test]
fn hex_digit_values() {
    assert_eq!(hex_digit_value('0'), 0);
    assert_eq!(hex_digit_value('9'), 9);
    assert_eq!(hex_digit_value('a'), 10);
    assert_eq!(hex_digit_value('f'), 15);
    assert_eq!(hex_digit_value('A'), 10);
    assert_eq!(hex_digit_value('F'), 15);
}

#[test]
fn state_walks_the_text() {
    let mut state = State::new("ab c");
    assert!(!state.eof());
    assert_eq!(state.position(), 0);
    state.advance(2);
    assert_eq!(state.position(), 2);
    assert!(!state.eof());
    state.advance(2);
    assert_eq!(state.position(), 4);
    assert!(state.eof());
    assert!(State::new("").eof());
}

#[test]
fn state_counts_characters() {
    let mut state = State::new("\"é\"x");
    state.advance(3);
    assert_eq!(lex_keyword(&state), Some((Token::Keyword("x".to_string()), 1)));
    state.advance(1);
    assert!(state.eof());
}

#[test]
fn choose_keeps_the_longer() {
    assert_eq!(choose_longest(Some(('a', 2)), Some(('b', 3))), Some(('b', 3)));
    assert_eq!(choose_longest(Some(('a', 3)), Some(('b', 2))), Some(('a', 3)));
}

#[test]
fn choose_keeps_the_first_on_a_tie() {
    assert_eq!(choose_longest(Some(('a', 2)), Some(('b', 2))), Some(('a', 2)));
    assert_eq!(choose_longest(Some(('a', 0)), Some(('b', 0))), Some(('a', 0)));
}

#[test]
fn choose_with_a_missing_candidate() {
    let none: Lex<char> = None;
    assert_eq!(choose_longest(none, Some(('b', 1))), Some(('b', 1)));
    assert_eq!(choose_longest(Some(('a', 1)), None), Some(('a', 1)));
    assert_eq!(choose_longest(none, none), None);
}

#[test]
fn parens() {
    assert_eq!(lex_left_paren(&State::new("(a")), Some((Token::OpenParen, 1)));
    assert_eq!(lex_left_paren(&State::new("(")), Some((Token::OpenParen, 1)));
    assert_eq!(lex_left_paren(&State::new(")")), None);
    assert_eq!(lex_left_paren(&State::new("")), None);
    assert_eq!(lex_right_paren(&State::new(")a")), Some((Token::CloseParen, 1)));
    assert_eq!(lex_right_paren(&State::new("(")), None);
    assert_eq!(lex_right_paren(&State::new("")), None);
    assert_eq!(lex_right_paren(&at("()", 1)), Some((Token::CloseParen, 1)));
}

#[test]
fn open_paren_needs_no_lookahead() {
    assert_eq!(lex_left_paren(&State::new("(;")), Some((Token::OpenParen, 1)));
    assert_eq!(lex_left_paren(&State::new("(; c ;)")), Some((Token::OpenParen, 1)));
    assert_eq!(lex_left_paren(&State::new("( ;")), Some((Token::OpenParen, 1)));
    assert_eq!(lex_left_paren(&State::new("((")), Some((Token::OpenParen, 1)));
}

#[test]
fn keyword() {
    assert_eq!(lex_keyword(&State::new("module")), Some((Token::Keyword("module".to_string()), 6)));
    assert_eq!(
        lex_keyword(&State::new("i32.add)")),
        Some((Token::Keyword("i32.add".to_string()), 7))
    );
    assert_eq!(lex_keyword(&State::new("a")), Some((Token::Keyword("a".to_string()), 1)));
    assert_eq!(lex_keyword(&State::new("aB$9 c")), Some((Token::Keyword("aB$9".to_string()), 4)));
    assert_eq!(lex_keyword(&State::new("Module")), None);
    assert_eq!(lex_keyword(&State::new("1abc")), None);
    assert_eq!(lex_keyword(&State::new("$abc")), None);
    assert_eq!(lex_keyword(&State::new("")), None);
    assert_eq!(lex_keyword(&at("(module)", 1)), Some((Token::Keyword("module".to_string()), 6)));
}

#[test]
fn identifier() {
    assert_eq!(lex_id(&State::new("$a")), Some((Token::Id("a".to_string()), 2)));
    assert_eq!(lex_id(&State::new("$a.b-c d")), Some((Token::Id("a.b-c".to_string()), 6)));
    assert_eq!(lex_id(&State::new("$$")), Some((Token::Id("$".to_string()), 2)));
    assert_eq!(lex_id(&State::new("$0")), Some((Token::Id("0".to_string()), 2)));
    assert_eq!(lex_id(&State::new("$")), None);
    assert_eq!(lex_id(&State::new("$ a")), None);
    assert_eq!(lex_id(&State::new("$(")), None);
    assert_eq!(lex_id(&State::new("a$")), None);
    assert_eq!(lex_id(&State::new("")), None);
}

#[test]
fn reserved() {
    assert_eq!(lex_reserved(&State::new("12ab")), Some((Token::Reserved("12ab".to_string()), 4)));
    assert_eq!(lex_reserved(&State::new("abc")), Some((Token::Reserved("abc".to_string()), 3)));
    assert_eq!(lex_reserved(&State::new("$")), Some((Token::Reserved("$".to_string()), 1)));
    assert_eq!(lex_reserved(&State::new("@x(")), Some((Token::Reserved("@x".to_string()), 2)));
    assert_eq!(lex_reserved(&State::new("(")), None);
    assert_eq!(lex_reserved(&State::new(" a")), None);
    assert_eq!(lex_reserved(&State::new("")), None);
}

#[test]
fn unsigned_decimal() {
    assert_eq!(lex_unsigned_dec(&State::new("0")), Some((0, 1)));
    assert_eq!(lex_unsigned_dec(&State::new("12423)")), Some((12423, 5)));
    assert_eq!(lex_unsigned_dec(&State::new("007")), Some((7, 3)));
    assert_eq!(lex_unsigned_dec(&State::new("0x1A")), Some((0, 1)));
    assert_eq!(lex_unsigned_dec(&State::new("12ab")), Some((12, 2)));
    assert_eq!(lex_unsigned_dec(&State::new("4294967295")), Some((4294967295, 10)));
    assert_eq!(lex_unsigned_dec(&State::new("4294967296")), None);
    assert_eq!(lex_unsigned_dec(&State::new("99999999999999999999999999")), None);
    assert_eq!(lex_unsigned_dec(&State::new("a1")), None);
    assert_eq!(lex_unsigned_dec(&State::new("+1")), None);
    assert_eq!(lex_unsigned_dec(&State::new("")), None);
}

#[test]
fn unsigned_hexadecimal() {
    assert_eq!(lex_unsigned_hex(&State::new("0x1A")), Some((26, 4)));
    assert_eq!(lex_unsigned_hex(&State::new("0xff")), Some((255, 4)));
    assert_eq!(lex_unsigned_hex(&State::new("0xFF)")), Some((255, 4)));
    assert_eq!(lex_unsigned_hex(&State::new("0xaBcDeF")), Some((0xabcdef, 8)));
    assert_eq!(lex_unsigned_hex(&State::new("0x1G")), Some((1, 3)));
    assert_eq!(lex_unsigned_hex(&State::new("0xFFFFFFFF")), Some((u32::MAX, 10)));
    assert_eq!(lex_unsigned_hex(&State::new("0x100000000")), None);
    assert_eq!(lex_unsigned_hex(&State::new("0x")), None);
    assert_eq!(lex_unsigned_hex(&State::new("0xg")), None);
    assert_eq!(lex_unsigned_hex(&State::new("0X1A")), None);
    assert_eq!(lex_unsigned_hex(&State::new("1x1A")), None);
    assert_eq!(lex_unsigned_hex(&State::new("0")), None);
    assert_eq!(lex_unsigned_hex(&State::new("")), None);
}

#[test]
fn digit_separators() {
    assert_eq!(lex_unsigned_dec(&State::new("1_000")), Some((1000, 5)));
    assert_eq!(lex_unsigned_dec(&State::new("1_2_3")), Some((123, 5)));
    assert_eq!(lex_unsigned_dec(&State::new("1_")), Some((1, 1)));
    assert_eq!(lex_unsigned_dec(&State::new("1__0")), Some((1, 1)));
    assert_eq!(lex_unsigned_dec(&State::new("_1")), None);
    assert_eq!(lex_unsigned_hex(&State::new("0xFF_FF")), Some((0xffff, 7)));
    assert_eq!(lex_unsigned_hex(&State::new("0x_1")), None);
    assert_eq!(lex_unsigned_dec(&State::new("4_294_967_295")), Some((u32::MAX, 13)));
    assert_eq!(lex_unsigned_dec(&State::new("4_294_967_296")), None);
}

#[test]
fn unsigned_takes_the_longer_form() {
    assert_eq!(lex_unsigned(&State::new("0x1A")), Some((Token::UnsignedInt(26), 4)));
    assert_eq!(lex_unsigned(&State::new("0x")), Some((Token::UnsignedInt(0), 1)));
    assert_eq!(lex_unsigned(&State::new("42")), Some((Token::UnsignedInt(42), 2)));
    assert_eq!(lex_unsigned(&State::new("0x100000000")), Some((Token::UnsignedInt(0), 1)));
    assert_eq!(lex_unsigned(&State::new("x")), None);
}

#[test]
fn signed_decimal_and_hexadecimal() {
    assert_eq!(lex_signed_dec(&State::new("+5")), Some((5, 2)));
    assert_eq!(lex_signed_dec(&State::new("-5")), Some((-5, 2)));
    assert_eq!(lex_signed_dec(&State::new("-0")), Some((0, 2)));
    assert_eq!(lex_signed_dec(&State::new("+2147483647")), Some((i32::MAX, 11)));
    assert_eq!(lex_signed_dec(&State::new("+2147483648")), None);
    assert_eq!(lex_signed_dec(&State::new("-2147483648")), Some((i32::MIN, 11)));
    assert_eq!(lex_signed_dec(&State::new("-2147483649")), None);
    assert_eq!(lex_signed_dec(&State::new("-1_000")), Some((-1000, 6)));
    assert_eq!(lex_signed_dec(&State::new("5")), None);
    assert_eq!(lex_signed_dec(&State::new("+")), None);
    assert_eq!(lex_signed_dec(&State::new("+-1")), None);
    assert_eq!(lex_signed_dec(&State::new("")), None);
    assert_eq!(lex_signed_hex(&State::new("-0x10")), Some((-16, 5)));
    assert_eq!(lex_signed_hex(&State::new("+0x7fffffff")), Some((i32::MAX, 11)));
    assert_eq!(lex_signed_hex(&State::new("+0x80000000")), None);
    assert_eq!(lex_signed_hex(&State::new("-0x80000000")), Some((i32::MIN, 11)));
    assert_eq!(lex_signed_hex(&State::new("-0x80000001")), None);
    assert_eq!(lex_signed_hex(&State::new("-0x")), None);
    assert_eq!(lex_signed_hex(&State::new("0x10")), None);
    assert_eq!(lex_signed(&State::new("-0x10")), Some((Token::SignedInt(-16), 5)));
    assert_eq!(lex_signed(&State::new("-0x")), Some((Token::SignedInt(0), 2)));
    assert_eq!(lex_signed(&State::new("+7)")), Some((Token::SignedInt(7), 2)));
    assert_eq!(lex_signed(&State::new("7")), None);
}

#[test]
fn blank_space() {
    assert_eq!(lex_blank(&State::new(" \t\r\n x")), Some(((), 5)));
    assert_eq!(lex_blank(&State::new(" ")), Some(((), 1)));
    assert_eq!(lex_blank(&State::new("x ")), None);
    assert_eq!(lex_blank(&State::new("")), None);
    assert_eq!(lex_blank(&at("a  b", 1)), Some(((), 2)));
}

#[test]
fn line_comments() {
    assert_eq!(lex_line_comment(&State::new(";; note\nx")), Some(((), 8)));
    assert_eq!(lex_line_comment(&State::new(";; note")), Some(((), 7)));
    assert_eq!(lex_line_comment(&State::new(";;")), Some(((), 2)));
    assert_eq!(lex_line_comment(&State::new(";;\n")), Some(((), 3)));
    assert_eq!(lex_line_comment(&State::new(";;;\n;")), Some(((), 4)));
    assert_eq!(lex_line_comment(&State::new("; note")), None);
    assert_eq!(lex_line_comment(&State::new(";")), None);
    assert_eq!(lex_line_comment(&State::new("")), None);
}

#[test]
fn block_comments() {
    assert_eq!(lex_block_comment(&State::new("(;;)")), Some(((), 4)));
    assert_eq!(lex_block_comment(&State::new("(; a ;) b")), Some(((), 7)));
    assert_eq!(lex_block_comment(&State::new("(; a (; b ;) c ;) d")), Some(((), 17)));
    assert_eq!(lex_block_comment(&State::new("(;(;;);)")), Some(((), 8)));
    assert_eq!(lex_block_comment(&State::new("(; ( ; ) ;)")), Some(((), 11)));
    assert_eq!(lex_block_comment(&State::new("(; \n ;; \" ;)x")), Some(((), 12)));
    assert_eq!(lex_block_comment(&State::new("(;")), None);
    assert_eq!(lex_block_comment(&State::new("(; a")), None);
    assert_eq!(lex_block_comment(&State::new("(; (; ;)")), None);
    assert_eq!(lex_block_comment(&State::new("(;)")), None);
    assert_eq!(lex_block_comment(&State::new("( ; ;)")), None);
    assert_eq!(lex_block_comment(&State::new("")), None);
}

#[test]
fn insignificant_text() {
    assert_eq!(lex_space(&State::new("  (; c ;)")), Some(((), 2)));
    assert_eq!(lex_space(&State::new(";; c\n  ")), Some(((), 5)));
    assert_eq!(lex_space(&State::new("(; c ;)  ")), Some(((), 7)));
    assert_eq!(lex_space(&State::new("(")), None);
    assert_eq!(lex_space(&State::new("a")), None);
    assert_eq!(lex_space(&State::new("")), None);
}

#[test]
fn strings() {
    assert_eq!(lex_string(&State::new("\"\"")), Some((Token::StringLiteral(vec![]), 2)));
    assert_eq!(
        lex_string(&State::new("\"abc\" d")),
        Some((Token::StringLiteral(b"abc".to_vec()), 5))
    );
    assert_eq!(
        lex_string(&State::new("\"a b(;)\"")),
        Some((Token::StringLiteral(b"a b(;)".to_vec()), 8))
    );
    assert_eq!(lex_string(&State::new("\"abc")), None);
    assert_eq!(lex_string(&State::new("\"")), None);
    assert_eq!(lex_string(&State::new("abc\"")), None);
    assert_eq!(lex_string(&State::new("")), None);
}

#[test]
fn token_is_the_longest_match() {
    assert_eq!(lex_token(&State::new("0x1A")), Some((Token::UnsignedInt(26), 4)));
    assert_eq!(lex_token(&State::new("12ab")), Some((Token::Reserved("12ab".to_string()), 4)));
    assert_eq!(lex_token(&State::new("0x")), Some((Token::Reserved("0x".to_string()), 2)));
    assert_eq!(lex_token(&State::new("$")), Some((Token::Reserved("$".to_string()), 1)));
    assert_eq!(lex_token(&State::new("+")), Some((Token::Reserved("+".to_string()), 1)));
    assert_eq!(lex_token(&State::new("abc(")), Some((Token::Keyword("abc".to_string()), 3)));
    assert_eq!(lex_token(&State::new(" abc")), None);
    assert_eq!(lex_token(&State::new(";; c")), None);
    assert_eq!(lex_token(&State::new("(; c ;)")), Some((Token::OpenParen, 1)));
    assert_eq!(lex_token(&State::new("(;")), Some((Token::OpenParen, 1)));
    assert_eq!(lex_token(&State::new("\"a")), None);
    assert_eq!(lex_token(&State::new("[")), None);
    assert_eq!(lex_token(&State::new("")), None);
}
