use momoa::ast::{DocumentNode, Node};
use momoa::json;
use momoa::jsonc;
use momoa::{Location, LocationRange, MomoaError, TokenKind};

fn expect_document(ast: Node) -> DocumentNode {
    match ast {
        Node::Document(doc) => *doc,
        _ => panic!("Invalid node returned from parse()."),
    }
}

fn node_loc(node: &Node) -> LocationRange {
    match node {
        Node::Document(d) => d.loc,
        Node::String(v) => v.loc,
        Node::Number(v) => v.loc,
        Node::Boolean(v) => v.loc,
        Node::Null(v) => v.loc,
        Node::Array(a) => a.loc,
        Node::Object(o) => o.loc,
        Node::Member(m) => m.loc,
        Node::Element(v) => v.loc,
    }
}

fn whole_input_location(code: &str) -> LocationRange {
    LocationRange {
        start: Location { line: 1, column: 1, offset: 0 },
        end: Location { line: 1, column: code.len() + 1, offset: code.len() },
    }
}

fn assert_parses_boolean(code: &str) {
    let doc = expect_document(json::parse(code).unwrap());
    let expected_location = whole_input_location(code);
    assert_eq!(doc.loc, expected_location);
    match doc.body {
        Node::Boolean(body) => {
            assert_eq!(body.loc, expected_location);
            assert_eq!(body.value, code == "true");
        }
        _ => panic!("Invalid node returned as body."),
    }
}

#[test]
fn parse_true() {
    assert_parses_boolean("true");
}

#[test]
fn parse_false() {
    assert_parses_boolean("false");
}

#[test]
fn parse_test_should_panic_invalid_keyword() {
    assert_eq!(
        json::parse("try"),
        Err(MomoaError::UnexpectedCharacter {
            c: 'y',
            loc: Location { line: 1, column: 3, offset: 2 },
        })
    );
}

#[test]
fn should_panic_unexpected_boolean() {
    assert_eq!(
        json::parse("try"),
        Err(MomoaError::UnexpectedCharacter {
            c: 'y',
            loc: Location { line: 1, column: 3, offset: 2 },
        })
    );
}

fn assert_parses_number(code: &str) {
    let doc = expect_document(json::parse(code).unwrap());
    let expected_location = whole_input_location(code);
    assert_eq!(doc.loc, expected_location);
    match doc.body {
        Node::Number(body) => {
            assert_eq!(body.loc, expected_location);
            // the node carries the raw lexeme
            assert_eq!(body.value, code);
        }
        _ => panic!("Invalid node returned as body."),
    }
}

#[test]
fn parse_e_number() {
    assert_parses_number("43e2");
}

#[test]
fn parse_e_plus_number() {
    assert_parses_number("41.3e+2");
}

#[test]
fn parse_e_minus_number() {
    assert_parses_number("238e-2");
}

#[test]
fn parse_integer() {
    assert_parses_number("250");
}

#[test]
fn parse_negative_integer() {
    assert_parses_number("-123");
}

#[test]
fn parse_float() {
    assert_parses_number("0.1");
}

#[test]
fn parse_negative_float() {
    assert_parses_number("-23.12");
}

#[test]
fn parse_zero() {
    assert_parses_number("0");
}

#[test]
fn parse_single_digit() {
    assert_parses_number("1");
}

#[test]
fn parse_negative_long_float() {
    assert_parses_number("-1345.98324978324780943");
}

#[test]
fn number_lexeme_parses_as_float() {
    let doc = expect_document(json::parse("41.3e+2").unwrap());
    match doc.body {
        Node::Number(body) => {
            assert_eq!(body.value.parse::<f64>().unwrap(), 4130.0_f64);
        }
        _ => panic!("Invalid node returned as body."),
    }
}

#[test]
fn should_parse_null() {
    let code = "null";
    let doc = expect_document(json::parse(code).unwrap());
    let expected_location = whole_input_location(code);
    assert_eq!(doc.loc, expected_location);
    match doc.body {
        Node::Null(body) => {
            assert_eq!(body.loc, expected_location);
        }
        _ => panic!("Invalid node returned as body."),
    }
}

fn assert_parses_string(code: &str, expected_value: &str) {
    let doc = expect_document(json::parse(code).unwrap());
    let expected_location = whole_input_location(code);
    assert_eq!(doc.loc, expected_location);
    match doc.body {
        Node::String(body) => {
            assert_eq!(body.loc, expected_location);
            assert_eq!(body.value, expected_value);
        }
        _ => panic!("Invalid node returned as body."),
    }
}

#[test]
fn string_regular() {
    assert_parses_string(r#""abc""#, "abc");
}

#[test]
fn string_newline() {
    assert_parses_string(r#""ab\ncd""#, "ab\ncd");
}

#[test]
fn string_slash() {
    assert_parses_string(r#""ab\\cd""#, "ab\\cd");
}

#[test]
fn string_forward_slash() {
    assert_parses_string(r#""ab\/cd""#, "ab/cd");
}

#[test]
fn string_windows_newline() {
    assert_parses_string(r#""ab\r\ncd""#, "ab\r\ncd");
}

#[test]
fn string_double_quote() {
    assert_parses_string(r#""ab\"cd""#, "ab\"cd");
}

#[test]
fn string_tab() {
    assert_parses_string(r#""ab\tcd""#, "ab\tcd");
}

#[test]
fn string_backspace() {
    assert_parses_string(r#""ab\bcd""#, "ab\u{0008}cd");
}

#[test]
fn string_formfeed() {
    assert_parses_string(r#""ab\fcd""#, "ab\u{000c}cd");
}

#[test]
fn string_unicode_escape() {
    assert_parses_string(r#""ab\u0013cd""#, "ab\u{0013}cd");
}

#[test]
fn string_unicode_escape_2() {
    assert_parses_string(r#""ab\uaf01cd""#, "ab\u{af01}cd");
}

#[test]
fn string_unpaired_surrogate_escape_replaced() {
    // a lone surrogate escape names no Unicode scalar value; it decodes to
    // the replacement character
    assert_parses_string(r#""\uD800""#, "\u{FFFD}");
}

#[test]
fn parse_test_should_panic_line_comment() {
    assert_eq!(
        json::parse("// foo"),
        Err(MomoaError::UnexpectedCharacter {
            c: '/',
            loc: Location { line: 1, column: 1, offset: 0 },
        })
    );
}

#[test]
fn parse_test_should_panic_block_comment() {
    assert_eq!(
        json::parse("/* foo */"),
        Err(MomoaError::UnexpectedCharacter {
            c: '/',
            loc: Location { line: 1, column: 1, offset: 0 },
        })
    );
}

#[test]
fn should_parse_empty_array() {
    let code = "[]";
    let doc = expect_document(json::parse(code).unwrap());
    let expected_location = whole_input_location(code);
    assert_eq!(doc.loc, expected_location);
    match doc.body {
        Node::Array(body) => {
            assert_eq!(body.elements.len(), 0);
            assert_eq!(body.loc, expected_location);
        }
        _ => panic!("Invalid node returned as body."),
    }
}

fn assert_parses_one_element_array(element: &str) {
    let mut code = String::new();
    code.push('[');
    code.push_str(element);
    code.push(']');
    let doc = expect_document(json::parse(code.as_str()).unwrap());
    let expected_location = whole_input_location(code.as_str());
    assert_eq!(doc.loc, expected_location);
    match doc.body {
        Node::Array(body) => {
            assert_eq!(body.elements.len(), 1);
            assert_eq!(body.loc, expected_location);
        }
        _ => panic!("Invalid node returned as body."),
    }
}

#[test]
fn one_element_array_boolean() {
    assert_parses_one_element_array("true");
}

#[test]
fn one_element_array_number() {
    assert_parses_one_element_array("12");
}

#[test]
fn one_element_array_null() {
    assert_parses_one_element_array("null");
}

#[test]
fn one_element_array_string() {
    assert_parses_one_element_array("\"foo\"");
}

#[test]
fn should_panic_extra_array_comma() {
    assert_eq!(
        json::parse("[,]"),
        Err(MomoaError::UnexpectedToken {
            unexpected: TokenKind::Comma,
            loc: Location { line: 1, column: 2, offset: 1 },
        })
    );
}

#[test]
fn should_panic_extra_array_comma_after_number() {
    assert_eq!(
        json::parse("[34,]"),
        Err(MomoaError::UnexpectedToken {
            unexpected: TokenKind::RBracket,
            loc: Location { line: 1, column: 5, offset: 4 },
        })
    );
}

#[test]
fn should_panic_extra_array_comma_after_boolean() {
    assert_eq!(
        json::parse("[true,]"),
        Err(MomoaError::UnexpectedToken {
            unexpected: TokenKind::RBracket,
            loc: Location { line: 1, column: 7, offset: 6 },
        })
    );
}

#[test]
fn should_parse_empty_object() {
    let code = "{}";
    let doc = expect_document(json::parse(code).unwrap());
    let expected_location = whole_input_location(code);
    assert_eq!(doc.loc, expected_location);
    match doc.body {
        Node::Object(body) => {
            assert_eq!(body.members.len(), 0);
            assert_eq!(body.loc, expected_location);
        }
        _ => panic!("Invalid node returned as body."),
    }
}

#[test]
fn should_parse_object_single_member() {
    let code = "{ \"foo\": true }";
    let doc = expect_document(json::parse(code).unwrap());
    let expected_location = whole_input_location(code);
    assert_eq!(doc.loc, expected_location);
    match doc.body {
        Node::Object(body) => {
            assert_eq!(body.members.len(), 1);
            assert_eq!(body.loc, expected_location);
        }
        _ => panic!("Invalid node returned as body."),
    }
}

#[test]
fn should_parse_object_single_member_with_trailing_comma() {
    let code = "{ \"foo\": true, }";
    let doc = expect_document(json::parse_with_trailing_commas(code).unwrap());
    let expected_location = whole_input_location(code);
    assert_eq!(doc.loc, expected_location);
    match doc.body {
        Node::Object(body) => {
            assert_eq!(body.members.len(), 1);
            assert_eq!(body.loc, expected_location);
        }
        _ => panic!("Invalid node returned as body."),
    }
}

#[test]
fn trailing_comma_rejected_by_default() {
    assert_eq!(
        json::parse("{ \"foo\": true, }"),
        Err(MomoaError::UnexpectedToken {
            unexpected: TokenKind::RBrace,
            loc: Location { line: 1, column: 16, offset: 15 },
        })
    );
}

fn assert_parses_one_member_object(element: &str) {
    let mut code = String::new();
    code.push_str("{\"foo\":");
    code.push_str(element);
    code.push('}');
    let doc = expect_document(json::parse(code.as_str()).unwrap());
    let expected_location = whole_input_location(code.as_str());
    assert_eq!(doc.loc, expected_location);
    match doc.body {
        Node::Object(body) => {
            assert_eq!(body.members.len(), 1);
            assert_eq!(body.loc, expected_location);
        }
        _ => panic!("Invalid node returned as body."),
    }
}

#[test]
fn one_member_object_boolean() {
    assert_parses_one_member_object("true");
}

#[test]
fn one_member_object_number() {
    assert_parses_one_member_object("12");
}

#[test]
fn one_member_object_null() {
    assert_parses_one_member_object("null");
}

#[test]
fn one_member_object_string() {
    assert_parses_one_member_object("\"foo\"");
}

#[test]
fn should_panic_extra_object_comma() {
    assert_eq!(
        json::parse("{,}"),
        Err(MomoaError::UnexpectedToken {
            unexpected: TokenKind::Comma,
            loc: Location { line: 1, column: 2, offset: 1 },
        })
    );
}

#[test]
fn should_panic_extra_object_comma_after_number() {
    assert_eq!(
        json::parse("{\"a\":1,}"),
        Err(MomoaError::UnexpectedToken {
            unexpected: TokenKind::RBrace,
            loc: Location { line: 1, column: 8, offset: 7 },
        })
    );
}

#[test]
fn should_panic_extra_object_comma_after_boolean() {
    assert_eq!(
        json::parse("{\"a\":true,}"),
        Err(MomoaError::UnexpectedToken {
            unexpected: TokenKind::RBrace,
            loc: Location { line: 1, column: 11, offset: 10 },
        })
    );
}

#[test]
fn should_panic_extra_token() {
    assert_eq!(
        json::parse("\"hi\"123"),
        Err(MomoaError::UnexpectedToken {
            unexpected: TokenKind::Number,
            loc: Location { line: 1, column: 5, offset: 4 },
        })
    );
}

#[test]
fn should_parse_null_json_c() {
    let code = "/* foo */null/* bar */";
    let doc = expect_document(jsonc::parse(code).unwrap());
    // the document spans the whole input, comments included
    assert_eq!(doc.loc, whole_input_location(code));
    // the body is the null literal alone
    match doc.body {
        Node::Null(body) => {
            assert_eq!(
                body.loc,
                LocationRange {
                    start: Location { line: 1, column: 10, offset: 9 },
                    end: Location { line: 1, column: 14, offset: 13 },
                }
            );
        }
        _ => panic!("Invalid node returned as body."),
    }
    // every token is recorded, the trailing comment too
    let kinds: Vec<TokenKind> = doc.tokens.iter().map(|t| t.kind).collect();
    assert_eq!(
        kinds,
        vec![TokenKind::BlockComment, TokenKind::Null, TokenKind::BlockComment]
    );
}

#[test]
fn leading_comma_rejected_in_every_configuration() {
    let expected = Err(MomoaError::UnexpectedToken {
        unexpected: TokenKind::Comma,
        loc: Location { line: 1, column: 2, offset: 1 },
    });
    assert_eq!(json::parse("[,]"), expected);
    assert_eq!(json::parse_with_trailing_commas("[,]"), expected);
    assert_eq!(jsonc::parse("[,]"), expected);
    assert_eq!(jsonc::parse_with_trailing_commas("[,]"), expected);
}

#[test]
fn scalar_body_spans_whole_input() {
    for code in ["true", "false", "null", "-12.5e3", "\"hi\""] {
        let doc = expect_document(json::parse(code).unwrap());
        assert_eq!(node_loc(&doc.body), whole_input_location(code));
    }
}

#[test]
fn empty_input_rejected() {
    assert_eq!(
        json::parse(""),
        Err(MomoaError::UnexpectedEndOfInput { loc: Location { line: 1, column: 1, offset: 0 } })
    );
}

#[test]
fn comment_before_colon_rejected() {
    // the colon must follow the member name directly
    assert_eq!(
        jsonc::parse("{\"a\" /*x*/: 1}"),
        Err(MomoaError::UnexpectedToken {
            unexpected: TokenKind::BlockComment,
            loc: Location { line: 1, column: 6, offset: 5 },
        })
    );
}

#[test]
fn doc_spans_multiline_input() {
    let code = "[\n1\n]";
    let doc = expect_document(json::parse(code).unwrap());
    assert_eq!(
        doc.loc,
        LocationRange {
            start: Location { line: 1, column: 1, offset: 0 },
            end: Location { line: 3, column: 2, offset: 5 },
        }
    );
}

#[test]
fn node_spans_reconstruct_source() {
    // every node's span slices back to its literal source text
    let code = "{\"a\": [1, true, \"x\"], \"b\": null}";
    let doc = expect_document(json::parse(code).unwrap());
    let slice = |loc: LocationRange| &code[loc.start.offset..loc.end.offset];
    assert_eq!(slice(doc.loc), code);
    let object = match doc.body {
        Node::Object(o) => *o,
        _ => panic!("Invalid node returned as body."),
    };
    assert_eq!(slice(object.loc), code);
    assert_eq!(object.members.len(), 2);
    let first = match &object.members[0] {
        Node::Member(m) => m,
        _ => panic!("Invalid node returned as member."),
    };
    assert_eq!(slice(node_loc(&first.name)), "\"a\"");
    assert_eq!(slice(first.loc), "\"a\": [1, true, \"x\"]");
    let array = match &first.value {
        Node::Array(a) => a,
        _ => panic!("Invalid node returned as member value."),
    };
    assert_eq!(slice(array.loc), "[1, true, \"x\"]");
    let element_sources = ["1", "true", "\"x\""];
    assert_eq!(array.elements.len(), 3);
    for (element, expected) in array.elements.iter().zip(element_sources) {
        match element {
            Node::Element(v) => {
                assert_eq!(slice(v.loc), expected);
                assert_eq!(slice(node_loc(&v.value)), expected);
            }
            _ => panic!("Invalid node returned as element."),
        }
    }
    let second = match &object.members[1] {
        Node::Member(m) => m,
        _ => panic!("Invalid node returned as member."),
    };
    assert_eq!(slice(second.loc), "\"b\": null");
    assert_eq!(slice(node_loc(&second.value)), "null");
}

#[test]
fn member_spans_name_through_value() {
    let code = "{\"foo\": true}";
    let doc = expect_document(json::parse(code).unwrap());
    let object = match doc.body {
        Node::Object(o) => *o,
        _ => panic!("Invalid node returned as body."),
    };
    let member = match &object.members[0] {
        Node::Member(m) => m,
        _ => panic!("Invalid node returned as member."),
    };
    assert_eq!(
        member.loc,
        LocationRange {
            start: Location { line: 1, column: 2, offset: 1 },
            end: Location { line: 1, column: 13, offset: 12 },
        }
    );
    match &member.name {
        Node::String(name) => assert_eq!(name.value, "foo"),
        _ => panic!("Invalid node returned as member name."),
    }
}

#[test]
fn object_with_two_members() {
    let code = "{\"a\":1, \"b\":2}";
    let doc = expect_document(json::parse(code).unwrap());
    match doc.body {
        Node::Object(body) => {
            assert_eq!(body.members.len(), 2);
            assert_eq!(body.loc, whole_input_location(code));
        }
        _ => panic!("Invalid node returned as body."),
    }
}

#[test]
fn nested_containers() {
    let code = "[[{\"a\":[null]}]]";
    let doc = expect_document(json::parse(code).unwrap());
    let outer = match doc.body {
        Node::Array(a) => *a,
        _ => panic!("Invalid node returned as body."),
    };
    assert_eq!(outer.loc, whole_input_location(code));
    assert_eq!(outer.elements.len(), 1);
    let inner = match &outer.elements[0] {
        Node::Element(v) => match &v.value {
            Node::Array(a) => a,
            _ => panic!("Invalid node nested in array."),
        },
        _ => panic!("Invalid node returned as element."),
    };
    assert_eq!(inner.elements.len(), 1);
}

#[test]
fn array_trailing_comma_allowed_when_asked() {
    let code = "[1, ]";
    let doc = expect_document(json::parse_with_trailing_commas(code).unwrap());
    match doc.body {
        Node::Array(body) => {
            assert_eq!(body.elements.len(), 1);
            assert_eq!(body.loc, whole_input_location(code));
        }
        _ => panic!("Invalid node returned as body."),
    }
}

#[test]
fn whitespace_and_newlines_before_value() {
    // a carriage return stays on its line for the lexer's cursor, while the
    // document's end location counts it as a line ending
    let code = " \t\r\n true ";
    let doc = expect_document(json::parse(code).unwrap());
    match doc.body {
        Node::Boolean(body) => {
            assert_eq!(
                body.loc,
                LocationRange {
                    start: Location { line: 2, column: 2, offset: 5 },
                    end: Location { line: 2, column: 6, offset: 9 },
                }
            );
            assert!(body.value);
        }
        _ => panic!("Invalid node returned as body."),
    }
    assert_eq!(
        doc.loc,
        LocationRange {
            start: Location { line: 1, column: 1, offset: 0 },
            end: Location { line: 3, column: 7, offset: 10 },
        }
    );
}

#[test]
fn comments_between_array_items() {
    let code = "[1, /*x*/ 2]";
    let doc = expect_document(jsonc::parse(code).unwrap());
    match doc.body {
        Node::Array(body) => {
            assert_eq!(body.elements.len(), 2);
            assert_eq!(body.loc, whole_input_location(code));
        }
        _ => panic!("Invalid node returned as body."),
    }
    let kinds: Vec<TokenKind> = doc.tokens.iter().map(|t| t.kind).collect();
    assert_eq!(
        kinds,
        vec![
            TokenKind::LBracket,
            TokenKind::Number,
            TokenKind::Comma,
            TokenKind::BlockComment,
            TokenKind::Number,
            TokenKind::RBracket,
        ]
    );
}

#[test]
fn jsonc_trailing_comma_with_comment() {
    let code = "[1, /*c*/]";
    let doc = expect_document(jsonc::parse_with_trailing_commas(code).unwrap());
    match doc.body {
        Node::Array(body) => {
            assert_eq!(body.elements.len(), 1);
        }
        _ => panic!("Invalid node returned as body."),
    }
}

#[test]
fn line_comment_closes_object_line() {
    let code = "{\n\"a\": 1 // note\n}";
    let doc = expect_document(jsonc::parse(code).unwrap());
    match doc.body {
        Node::Object(body) => {
            assert_eq!(body.members.len(), 1);
            assert_eq!(
                body.loc,
                LocationRange {
                    start: Location { line: 1, column: 1, offset: 0 },
                    end: Location { line: 3, column: 2, offset: 18 },
                }
            );
        }
        _ => panic!("Invalid node returned as body."),
    }
}
