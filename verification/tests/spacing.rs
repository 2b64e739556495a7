use wat_lexer::text::lexer::{lex, lex_space, lex_token, State};
use wat_lexer::text::{LexError, Token};

fn tokens(input: &str) -> Vec<Token> {
    lex(&input.to_string()).expect("the text is scannable")
}

#[test]
fn blank_text_has_no_tokens() {
    assert_eq!(tokens(" \t\r\n"), Vec::<Token>::new());
    assert_eq!(tokens("\n"), Vec::<Token>::new());
}

#[test]
fn blank_space_between_tokens_changes_nothing() {
    let expected = vec![
        Token::OpenParen,
        Token::Keyword("module".to_string()),
        Token::Id("m".to_string()),
        Token::UnsignedInt(1),
        Token::StringLiteral(b"a b".to_vec()),
        Token::CloseParen,
    ];
    assert_eq!(tokens("(module $m 1\"a b\")"), expected);
    assert_eq!(tokens("( module $m 1 \"a b\" )"), expected);
    assert_eq!(tokens("  (\tmodule\r\n$m\n\n1   \"a b\"\t)\n"), expected);
    assert_eq!(tokens("(module $m 1 \"a b\")    "), expected);
}

#[test]
fn every_boundary_takes_every_blank() {
    let parts = ["(", "func", "$f", "(;c;)", "-1", "0x10", "\"s\"", ")", ";; end"];
    let mut plain = String::new();
    for part in parts {
        plain.push_str(part);
        plain.push(' ');
    }
    let expected = tokens(&plain);
    assert_eq!(expected.len(), 7);
    for blank in [" ", "\t", "\n", "\r", " \n\t "] {
        for at in 0..=parts.len() {
            let mut text = String::new();
            for (i, part) in parts.iter().enumerate() {
                if i == at {
                    text.push_str(blank);
                }
                text.push_str(part);
                text.push(' ');
            }
            if at == parts.len() {
                text.push_str(blank);
            }
            assert_eq!(tokens(&text), expected, "{:?}", text);
        }
    }
}

#[test]
fn blank_space_inside_a_word_splits_it() {
    assert_eq!(
        tokens("mod ule"),
        vec![Token::Keyword("mod".to_string()), Token::Keyword("ule".to_string())]
    );
}

#[test]
fn blank_space_before_an_illegal_character_delays_the_failure() {
    assert_eq!(lex(&"a[".to_string()), Err(LexError::UnscannableInput { offset: 1 }));
    assert_eq!(lex(&"a  [".to_string()), Err(LexError::UnscannableInput { offset: 3 }));
    assert_eq!(lex(&" a  [".to_string()), Err(LexError::UnscannableInput { offset: 4 }));
}

#[test]
fn line_comment_runs_to_the_end_of_the_line() {
    assert_eq!(
        tokens("a ;; b c (\nd"),
        vec![Token::Keyword("a".to_string()), Token::Keyword("d".to_string())]
    );
    assert_eq!(tokens("a ;; b"), vec![Token::Keyword("a".to_string())]);
    assert_eq!(tokens(";;"), Vec::<Token>::new());
    assert_eq!(tokens(";; [ illegal { characters"), Vec::<Token>::new());
    assert_eq!(tokens("a;;b\n"), vec![Token::Keyword("a".to_string())]);
}

#[test]
fn block_comments_nest() {
    assert_eq!(
        tokens("a (; b (; c ;) d ;) e"),
        vec![Token::Keyword("a".to_string()), Token::Keyword("e".to_string())]
    );
    assert_eq!(tokens("(;;)"), Vec::<Token>::new());
    assert_eq!(tokens("((;;))"), vec![Token::OpenParen, Token::CloseParen]);
    assert_eq!(
        tokens("(; [ { ;)x(; \" ;)"),
        vec![Token::Keyword("x".to_string())]
    );
}

#[test]
fn a_block_comment_wins_against_its_parenthesis() {
    assert_eq!(tokens("(; c ;)"), Vec::<Token>::new());
    assert_eq!(tokens("(;;)x"), vec![Token::Keyword("x".to_string())]);
    assert_eq!(tokens("((; c ;))"), vec![Token::OpenParen, Token::CloseParen]);
}

#[test]
fn an_open_block_comment_leaves_the_parenthesis() {
    // No block comment matches, so the parenthesis is the token; the `;`
    // behind it is where the scan stops, unless a line comment starts there.
    assert_eq!(lex(&"(; a".to_string()), Err(LexError::UnscannableInput { offset: 1 }));
    assert_eq!(lex(&"(;".to_string()), Err(LexError::UnscannableInput { offset: 1 }));
    assert_eq!(lex(&"x (; a (; b ;)".to_string()), Err(LexError::UnscannableInput { offset: 3 }));
    assert_eq!(tokens("(;; a\n)"), vec![Token::OpenParen, Token::CloseParen]);
    assert_eq!(lex(&"a ;) b".to_string()), Err(LexError::UnscannableInput { offset: 2 }));
}

#[test]
fn comment_markers_inside_a_string_are_text() {
    assert_eq!(tokens("\";; (; ;)\""), vec![Token::StringLiteral(b";; (; ;)".to_vec())]);
}

/// The offsets that a scan of `text` reaches between two steps, the start
/// and, where the text is scannable, the end included.
fn boundaries(text: &str) -> Vec<usize> {
    let mut state = State::new(text);
    let mut reached = vec![0];
    while !state.eof() {
        let token = lex_token(&state).map_or(0, |found| found.1);
        let space = lex_space(&state).map_or(0, |found| found.1);
        let n = if token >= space { token } else { space };
        if n == 0 {
            break;
        }
        state.advance(n);
        reached.push(state.position());
    }
    reached
}

#[test]
fn a_blank_at_any_boundary_of_any_small_text_changes_no_token() {
    let alphabet = ['a', '1', '$', '(', ')', ';', '"', '\\', ' ', '\n'];
    let mut texts = vec![String::new()];
    let mut last = vec![String::new()];
    for _ in 0..5 {
        let mut next = Vec::new();
        for text in &last {
            for c in alphabet {
                let mut longer = text.clone();
                longer.push(c);
                next.push(longer);
            }
        }
        texts.extend(next.iter().cloned());
        last = next;
    }
    for text in texts {
        let plain = match lex(&text) {
            Ok(tokens) => tokens,
            Err(_) => continue,
        };
        for at in boundaries(&text) {
            for blank in [" ", "\n", "\t \r"] {
                let mut spaced = text.clone();
                spaced.insert_str(at, blank);
                assert_eq!(lex(&spaced), Ok(plain.clone()), "{:?} at {}", text, at);
            }
        }
    }
}
