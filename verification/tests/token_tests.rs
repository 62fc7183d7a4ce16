use lexscan::scanner::ScanError;
use lexscan::token::{tokenize, Token, TokenError};

#[test]
fn ident() {
    let code = "nop _nop no_p nop_ no1p nop1";
    let toks = tokenize(code).unwrap();
    assert_eq!(
        toks,
        vec![
            Token::Ident("nop".to_string()),
            Token::Ident("_nop".to_string()),
            Token::Ident("no_p".to_string()),
            Token::Ident("nop_".to_string()),
            Token::Ident("no1p".to_string()),
            Token::Ident("nop1".to_string()),
        ]
    );
}

#[test]
fn string() {
    let code = r#""A string" "\"A quoted string\"""#;
    let toks = tokenize(code).unwrap();
    assert_eq!(
        toks,
        vec![
            Token::String("A string".to_string()),
            Token::String("\"A quoted string\"".to_string()),
        ]
    );
}

#[test]
fn number() {
    let code = "0 0x0 0o0 0b0 62263 -62263 0xF337 0o171467 0b1111001100110111";
    let toks = tokenize(code).unwrap();
    assert_eq!(
        toks,
        vec![
            Token::Number(0),
            Token::Number(0x0),
            Token::Number(0o0),
            Token::Number(0b0),
            Token::Number(62263),
            Token::Number(-62263),
            Token::Number(0xF337),
            Token::Number(0o171467),
            Token::Number(0b1111001100110111),
        ]
    );
}

#[test]
fn character() {
    let code = "'0' '\''";
    let toks = tokenize(code).unwrap();
    assert_eq!(toks, vec![Token::Char('0'), Token::Char('\'')]);
}

#[test]
fn ident_retokenize_is_idempotent() {
    let code = "alpha  _beta\tg4mma\n delta_";
    let toks = tokenize(code).unwrap();
    let mut joined = String::new();
    for tok in &toks {
        match tok {
            Token::Ident(name) => {
                if !joined.is_empty() {
                    joined.push(' ');
                }
                joined.push_str(name);
            }
            other => panic!("expected only identifiers, got {:?}", other),
        }
    }
    assert_eq!(tokenize(&joined).unwrap(), toks);
}

#[test]
fn base_prefix_at_end_of_input_fails() {
    for code in ["0x", "0o", "0b"] {
        let err = tokenize(code).unwrap_err();
        assert_eq!(
            err,
            TokenError {
                kind: ScanError::UnexpectedEnd,
                pos: 0
            }
        );
    }
}

#[test]
fn base_prefix_without_digit_fails() {
    for code in ["0xg", "0o9", "0b2"] {
        let err = tokenize(code).unwrap_err();
        assert_eq!(
            err,
            TokenError {
                kind: ScanError::UnexpectedToken,
                pos: 0
            }
        );
    }
}

#[test]
fn error_position_counts_consumed_chars() {
    let err = tokenize("abc 0x").unwrap_err();
    assert_eq!(
        err,
        TokenError {
            kind: ScanError::UnexpectedEnd,
            pos: 4
        }
    );
}

#[test]
fn line_comment_runs_to_newline() {
    let toks = tokenize("// text\nnop").unwrap();
    assert_eq!(
        toks,
        vec![
            Token::Comment(" text".to_string()),
            Token::Ident("nop".to_string()),
        ]
    );
}

#[test]
fn block_comment_keeps_contents_verbatim() {
    let toks = tokenize("/* a \n b */").unwrap();
    assert_eq!(toks, vec![Token::Comment(" a \n b ".to_string())]);
}

#[test]
fn unterminated_block_comment_fails() {
    let err = tokenize("/* open").unwrap_err();
    assert_eq!(err.kind, ScanError::UnexpectedEnd);
}

#[test]
fn lone_minus_and_slash_are_punctuation() {
    let toks = tokenize("- x / y").unwrap();
    assert_eq!(
        toks,
        vec![
            Token::Punct('-'),
            Token::Ident("x".to_string()),
            Token::Punct('/'),
            Token::Ident("y".to_string()),
        ]
    );
    assert_eq!(tokenize("-").unwrap(), vec![Token::Punct('-')]);
    assert_eq!(tokenize("/").unwrap(), vec![Token::Punct('/')]);
}

#[test]
fn minus_followed_by_digits_negates() {
    assert_eq!(tokenize("-5").unwrap(), vec![Token::Number(-5)]);
    assert_eq!(
        tokenize("x-y").unwrap(),
        vec![
            Token::Ident("x".to_string()),
            Token::Punct('-'),
            Token::Ident("y".to_string()),
        ]
    );
}

#[test]
fn punctuation_fallback_consumes_anything() {
    let toks = tokenize("+ , ;").unwrap();
    assert_eq!(
        toks,
        vec![Token::Punct('+'), Token::Punct(','), Token::Punct(';')]
    );
}

#[test]
fn unterminated_string_fails() {
    let err = tokenize("\"abc").unwrap_err();
    assert_eq!(err.kind, ScanError::UnterminatedString);
    let err = tokenize("\"abc\\").unwrap_err();
    assert_eq!(err.kind, ScanError::UnterminatedString);
}

#[test]
fn unknown_escape_in_string_fails() {
    let err = tokenize("\"a\\n\"").unwrap_err();
    assert_eq!(err.kind, ScanError::UnknownEscape);
}

#[test]
fn unterminated_char_fails() {
    let err = tokenize("'a").unwrap_err();
    assert_eq!(err.kind, ScanError::UnterminatedChar);
    let err = tokenize("''").unwrap_err();
    assert_eq!(err.kind, ScanError::UnterminatedChar);
}

#[test]
fn unknown_escape_in_char_fails() {
    let err = tokenize("'\\n'").unwrap_err();
    assert_eq!(err.kind, ScanError::UnknownEscape);
}

#[test]
fn empty_and_whitespace_only_inputs_yield_no_tokens() {
    assert_eq!(tokenize("").unwrap(), vec![]);
    assert_eq!(tokenize(" \t\r\n ").unwrap(), vec![]);
}

#[test]
fn extreme_decimal_values() {
    assert_eq!(
        tokenize("-9223372036854775808").unwrap(),
        vec![Token::Number(i64::MIN)]
    );
    assert_eq!(
        tokenize("9223372036854775807").unwrap(),
        vec![Token::Number(i64::MAX)]
    );
}

#[test]
fn overlong_literal_splits_at_longest_fitting_prefix() {
    let toks = tokenize("9223372036854775808").unwrap();
    assert_eq!(
        toks,
        vec![Token::Number(922337203685477580), Token::Number(8)]
    );
}

#[test]
fn mixed_line_tokenizes_in_order() {
    let toks = tokenize("mov r0 0x2A // load\n'c' \"s\" -1").unwrap();
    assert_eq!(
        toks,
        vec![
            Token::Ident("mov".to_string()),
            Token::Ident("r0".to_string()),
            Token::Number(42),
            Token::Comment(" load".to_string()),
            Token::Char('c'),
            Token::String("s".to_string()),
            Token::Number(-1),
        ]
    );
}
