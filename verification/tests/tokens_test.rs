use momoa::json;
use momoa::jsonc;
use momoa::{Location, MomoaError, TokenKind};

fn assert_single_token_spans_input(code: &str, kind: TokenKind) {
    let result = json::tokenize(code).unwrap();
    assert_eq!(result[0].kind, kind);
    assert_eq!(result[0].loc.start, Location { line: 1, column: 1, offset: 0 });
    assert_eq!(
        result[0].loc.end,
        Location { line: 1, column: code.len() + 1, offset: code.len() }
    );
}

#[test]
fn tokenize_false() {
    assert_single_token_spans_input("false", TokenKind::Boolean);
}

#[test]
fn tokenize_true() {
    assert_single_token_spans_input("true", TokenKind::Boolean);
}

#[test]
fn tokenize_null() {
    assert_single_token_spans_input("null", TokenKind::Null);
}

#[test]
fn tokenize_e_number() {
    assert_single_token_spans_input("43e2", TokenKind::Number);
}

#[test]
fn tokenize_e_plus_number() {
    assert_single_token_spans_input("41.3e+2", TokenKind::Number);
}

#[test]
fn tokenize_e_minus_number() {
    assert_single_token_spans_input("238e-2", TokenKind::Number);
}

#[test]
fn tokenize_integer() {
    assert_single_token_spans_input("250", TokenKind::Number);
}

#[test]
fn tokenize_negative_integer() {
    assert_single_token_spans_input("-123", TokenKind::Number);
}

#[test]
fn tokenize_float() {
    assert_single_token_spans_input("0.1", TokenKind::Number);
}

#[test]
fn tokenize_negative_float() {
    assert_single_token_spans_input("-23.12", TokenKind::Number);
}

#[test]
fn tokenize_zero() {
    assert_single_token_spans_input("0", TokenKind::Number);
}

#[test]
fn tokenize_single_digit() {
    assert_single_token_spans_input("1", TokenKind::Number);
}

#[test]
fn tokenize_negative_long_float() {
    assert_single_token_spans_input("-1345.98324978324780943", TokenKind::Number);
}

#[test]
fn should_panic_unexpected_end_of_input_reading_minus() {
    assert_eq!(
        json::tokenize("-"),
        Err(MomoaError::UnexpectedEndOfInput { loc: Location { line: 1, column: 2, offset: 1 } })
    );
}

#[test]
fn should_panic_unexpected_end_of_input_reading_float() {
    assert_eq!(
        json::tokenize("5."),
        Err(MomoaError::UnexpectedEndOfInput { loc: Location { line: 1, column: 3, offset: 2 } })
    );
}

#[test]
fn should_panic_unexpected_start_of_number() {
    assert_eq!(
        json::tokenize("01"),
        Err(MomoaError::UnexpectedCharacter {
            c: '1',
            loc: Location { line: 1, column: 2, offset: 1 },
        })
    );
}

#[test]
fn should_panic_unexpected_e() {
    assert_eq!(
        json::tokenize("-e"),
        Err(MomoaError::UnexpectedCharacter {
            c: 'e',
            loc: Location { line: 1, column: 2, offset: 1 },
        })
    );
}

#[test]
fn should_panic_unexpected_start_with_dot() {
    assert_eq!(
        json::tokenize(".1"),
        Err(MomoaError::UnexpectedCharacter {
            c: '.',
            loc: Location { line: 1, column: 1, offset: 0 },
        })
    );
}

#[test]
fn should_panic_unexpected_end_after_e() {
    assert_eq!(
        json::tokenize("25e"),
        Err(MomoaError::UnexpectedEndOfInput { loc: Location { line: 1, column: 4, offset: 3 } })
    );
}

#[test]
fn should_panic_unexpected_plus_after_e() {
    assert_eq!(
        json::tokenize("3E+"),
        Err(MomoaError::UnexpectedEndOfInput { loc: Location { line: 1, column: 4, offset: 3 } })
    );
}

#[test]
fn should_panic_unexpected_minus_after_e() {
    assert_eq!(
        json::tokenize("33e-"),
        Err(MomoaError::UnexpectedEndOfInput { loc: Location { line: 1, column: 5, offset: 4 } })
    );
}

#[test]
fn simple() {
    assert_single_token_spans_input("\"hello\"", TokenKind::String);
}

#[test]
fn unicode_escape() {
    assert_single_token_spans_input("\"hello\\u32AF\"", TokenKind::String);
}

#[test]
fn normal_escapes() {
    assert_single_token_spans_input("\"\\n\\r\\t\\f\\\"\\b\"", TokenKind::String);
}

#[test]
fn should_panic_unexpected_unicode_escape_character() {
    assert_eq!(
        json::tokenize("\"hello\\u32AX\""),
        Err(MomoaError::UnexpectedCharacter {
            c: 'X',
            loc: Location { line: 1, column: 12, offset: 11 },
        })
    );
}

#[test]
fn should_panic_premature_unicode_escape_end() {
    assert_eq!(
        json::tokenize("\"hello\\u32A\""),
        Err(MomoaError::UnexpectedCharacter {
            c: '"',
            loc: Location { line: 1, column: 12, offset: 11 },
        })
    );
}

#[test]
fn should_panic_unicode_escape_end_of_input() {
    assert_eq!(
        json::tokenize("\"hello\\u32A"),
        Err(MomoaError::UnexpectedEndOfInput {
            loc: Location { line: 1, column: 12, offset: 11 },
        })
    );
}

#[test]
fn should_panic_unexpected_end_of_string() {
    assert_eq!(
        json::tokenize("\"hello"),
        Err(MomoaError::UnexpectedEndOfInput { loc: Location { line: 1, column: 7, offset: 6 } })
    );
}

#[test]
fn should_panic_invalid_escape() {
    assert_eq!(
        json::tokenize("\"\\x\""),
        Err(MomoaError::UnexpectedCharacter {
            c: 'x',
            loc: Location { line: 1, column: 3, offset: 2 },
        })
    );
}

#[test]
fn tokens_test_should_panic_line_comment() {
    assert_eq!(
        json::tokenize("// foo"),
        Err(MomoaError::UnexpectedCharacter {
            c: '/',
            loc: Location { line: 1, column: 1, offset: 0 },
        })
    );
}

#[test]
fn tokens_test_should_panic_block_comment() {
    assert_eq!(
        json::tokenize("/* foo */"),
        Err(MomoaError::UnexpectedCharacter {
            c: '/',
            loc: Location { line: 1, column: 1, offset: 0 },
        })
    );
}

#[test]
fn tokens_test_should_panic_invalid_keyword() {
    assert_eq!(
        json::tokenize("no"),
        Err(MomoaError::UnexpectedCharacter {
            c: 'o',
            loc: Location { line: 1, column: 2, offset: 1 },
        })
    );
}

#[test]
fn should_tokenize_string_with_space() {
    let code = " \"foo\" ";
    let result = json::tokenize(code).unwrap();
    assert_eq!(result[0].kind, TokenKind::String);
    assert_eq!(
        &code[result[0].loc.start.offset..result[0].loc.end.offset],
        "\"foo\""
    );
    assert_eq!(result[0].loc.start, Location { line: 1, column: 2, offset: 1 });
    assert_eq!(result[0].loc.end, Location { line: 1, column: 7, offset: 6 });
}

#[test]
fn should_tokenize_line_comment_without_eol() {
    let code = "// foo";
    let result = jsonc::tokenize(code).unwrap();
    assert_eq!(result[0].kind, TokenKind::LineComment);
    assert_eq!(result[0].loc.start, Location { line: 1, column: 1, offset: 0 });
    assert_eq!(
        result[0].loc.end,
        Location { line: 1, column: code.len() + 1, offset: code.len() }
    );
}

#[test]
fn should_tokenize_line_comment_with_eol() {
    let code = "// foo\n";
    let result = jsonc::tokenize(code).unwrap();
    assert_eq!(result[0].kind, TokenKind::LineComment);
    assert_eq!(result[0].loc.start, Location { line: 1, column: 1, offset: 0 });
    assert_eq!(
        result[0].loc.end,
        Location { line: 1, column: code.len(), offset: code.len() - 1 }
    );
}

#[test]
fn should_tokenize_line_comment_with_eol_and_comma() {
    let code = "// foo\n,";
    let result = jsonc::tokenize(code).unwrap();
    assert_eq!(result[0].kind, TokenKind::LineComment);
    assert_eq!(result[0].loc.start, Location { line: 1, column: 1, offset: 0 });
    assert_eq!(result[0].loc.end, Location { line: 1, column: 7, offset: 6 });
    assert_eq!(result[1].kind, TokenKind::Comma);
    assert_eq!(result[1].loc.start, Location { line: 2, column: 1, offset: 7 });
    assert_eq!(result[1].loc.end, Location { line: 2, column: 2, offset: code.len() });
}

#[test]
fn should_tokenize_block_comment_without_eol() {
    let code = "/* foo */";
    let result = jsonc::tokenize(code).unwrap();
    assert_eq!(result[0].kind, TokenKind::BlockComment);
    assert_eq!(result[0].loc.start, Location { line: 1, column: 1, offset: 0 });
    assert_eq!(
        result[0].loc.end,
        Location { line: 1, column: code.len() + 1, offset: code.len() }
    );
}

#[test]
fn should_tokenize_block_comment_with_eol() {
    let code = "/* foo */\n";
    let result = jsonc::tokenize(code).unwrap();
    assert_eq!(result[0].kind, TokenKind::BlockComment);
    assert_eq!(result[0].loc.start, Location { line: 1, column: 1, offset: 0 });
    assert_eq!(
        result[0].loc.end,
        Location { line: 1, column: code.len(), offset: code.len() - 1 }
    );
}

#[test]
fn should_tokenize_block_comment_with_embedded_newline() {
    let code = "/* foo\nbar*/";
    let result = jsonc::tokenize(code).unwrap();
    assert_eq!(result[0].kind, TokenKind::BlockComment);
    assert_eq!(result[0].loc.start, Location { line: 1, column: 1, offset: 0 });
    assert_eq!(result[0].loc.end, Location { line: 2, column: 6, offset: 12 });
}

#[test]
fn should_tokenize_array_with_embedded_comment() {
    let code = "[/* foo\n*/5]";
    let result = jsonc::tokenize(code).unwrap();
    assert_eq!(result[1].kind, TokenKind::BlockComment);
    assert_eq!(result[1].loc.start, Location { line: 1, column: 2, offset: 1 });
    assert_eq!(result[1].loc.end, Location { line: 2, column: 3, offset: 10 });
}

#[test]
fn should_panic_incomplete_block_comment() {
    assert_eq!(
        jsonc::tokenize("/* foo "),
        Err(MomoaError::UnexpectedEndOfInput { loc: Location { line: 1, column: 8, offset: 7 } })
    );
}

#[test]
fn tokenize_empty_input() {
    assert_eq!(json::tokenize(""), Ok(vec![]));
    assert_eq!(jsonc::tokenize(""), Ok(vec![]));
}

#[test]
fn line_comment_token_spans_whole_input_in_jsonc() {
    // the same text that strict JSON rejects at column 1 is one line-comment
    // token in JSONC
    let code = "// foo";
    let result = jsonc::tokenize(code).unwrap();
    assert_eq!(result.len(), 1);
    assert_eq!(result[0].kind, TokenKind::LineComment);
    assert_eq!(result[0].loc.start, Location { line: 1, column: 1, offset: 0 });
    assert_eq!(
        result[0].loc.end,
        Location { line: 1, column: code.len() + 1, offset: code.len() }
    );
}
