//! The recursive-descent parser: builds the AST from the token stream,
//! enforces the grammar, decodes scalar values, and applies the
//! trailing-comma option. The spec functions here define exactly which
//! document or diagnostic each input yields.
use vstd::prelude::*;

use crate::ast::{
    elements_wrapped, lemma_member_models_of, lemma_models_of, member_models_of, members_wrapped,
    models_of, ArrayNode, DocumentNode, MemberNode, Node, NullNode, ObjectNode, SpecMember,
    SpecNode, ValueNode,
};
use crate::errors::MomoaError;
use crate::location::{Location, LocationRange};
use crate::mode::Mode;
use crate::readers::is_digit;
use crate::tokens::{
    char_count, chars_of, collect_tokens, lemma_scan_all_wf, spec_scan_all, start_location,
    token_wf, tokens_wf, true_word, Token, TokenKind, Tokens,
};

verus! {

/// Parser configuration: whether a comma directly before a closing `}` or
/// `]` is tolerated. Off by default.
#[derive(Debug, Clone, Copy, PartialEq, Eq, Structural)]
pub struct ParserOptions {
    pub allow_trailing_commas: bool,
}

impl Default for ParserOptions {
    /// Trailing commas are rejected unless asked for.
    fn default() -> (r: ParserOptions)
        ensures
            r == (ParserOptions { allow_trailing_commas: false }),
    {
        ParserOptions { allow_trailing_commas: false }
    }
}

/// The parser's whole input: the text, its token stream, the diagnostic that
/// ended tokenization early (if one did), and the trailing-comma option.
pub ghost struct PInput {
    pub text: Seq<char>,
    pub toks: Seq<Token>,
    pub lexerr: Option<MomoaError>,
    pub allow_trailing: bool,
}

/// The parser's position: the index of the next token, and the start of the
/// last consumed token, at which an unexpected end of input is reported.
pub ghost struct PState {
    pub pos: int,
    pub last: Location,
}

/// The model of a parsed document: its body, a span covering the whole
/// input, and every token in source order, comments included.
pub ghost struct SpecDoc {
    pub body: SpecNode,
    pub loc: LocationRange,
    pub tokens: Seq<Token>,
}

pub open spec fn is_comment_kind(k: TokenKind) -> bool {
    k is LineComment || k is BlockComment
}

/// Advances past a run of comment tokens, recording each one's start as the
/// last consumed position. Comments are transparent to the grammar.
pub open spec fn skip_comments(toks: Seq<Token>, st: PState) -> PState
    decreases toks.len() - st.pos,
{
    if 0 <= st.pos < toks.len() && is_comment_kind(toks[st.pos].kind) {
        skip_comments(toks, PState { pos: st.pos + 1, last: toks[st.pos].loc.start })
    } else {
        st
    }
}

pub proof fn lemma_skip_comments(toks: Seq<Token>, st: PState)
    requires
        0 <= st.pos <= toks.len(),
    ensures
        st.pos <= skip_comments(toks, st).pos <= toks.len(),
    decreases toks.len() - st.pos,
{
    if 0 <= st.pos < toks.len() && is_comment_kind(toks[st.pos].kind) {
        lemma_skip_comments(toks, PState { pos: st.pos + 1, last: toks[st.pos].loc.start });
    }
}

/// The state after consuming the token at `st.pos`.
pub open spec fn consume(toks: Seq<Token>, st: PState) -> PState {
    PState { pos: st.pos + 1, last: toks[st.pos].loc.start }
}

/// The diagnostic when the parser needs a token and none is left: the
/// failure that stopped the lexer, or an unexpected end of input at the last
/// consumed position.
pub open spec fn end_of_tokens_error(inp: PInput, st: PState) -> MomoaError {
    match inp.lexerr {
        Some(e) => e,
        None => MomoaError::UnexpectedEndOfInput { loc: st.last },
    }
}

/// The raw source text of a token.
pub open spec fn token_lexeme(text: Seq<char>, t: Token) -> Seq<char> {
    text.subrange(t.loc.start.offset as int, t.loc.end.offset as int)
}

/// The text between a string token's quotes.
pub open spec fn inner_lexeme(text: Seq<char>, t: Token) -> Seq<char> {
    text.subrange(t.loc.start.offset + 1, t.loc.end.offset - 1)
}

/// The value of one hexadecimal digit.
pub open spec fn hex_val(c: char) -> int {
    if is_digit(c) {
        c as u32 - 48
    } else if 'a' <= c && c <= 'f' {
        c as u32 - 87
    } else if 'A' <= c && c <= 'F' {
        c as u32 - 55
    } else {
        0
    }
}

/// The character a `\uXXXX` escape decodes to: the Unicode scalar value of
/// the four hex digits read as a code point. A code in the surrogate range
/// is no scalar value and decodes to the replacement character.
pub open spec fn unescaped_unicode(a: char, b: char, c: char, d: char) -> char {
    let code = hex_val(a) * 4096 + hex_val(b) * 256 + hex_val(c) * 16 + hex_val(d);
    if code < 0xD800 || code > 0xDFFF {
        (code as u32) as char
    } else {
        '\u{FFFD}'
    }
}

/// What one simple escape decodes to; empty for an escape the lexer would
/// have rejected.
pub open spec fn escape_rep(c: char) -> Seq<char> {
    if c == '"' {
        seq!['"']
    } else if c == '\\' {
        seq!['\\']
    } else if c == '/' {
        seq!['/']
    } else if c == 'b' {
        seq!['\u{0008}']
    } else if c == 'f' {
        seq!['\u{000c}']
    } else if c == 'n' {
        seq!['\n']
    } else if c == 'r' {
        seq!['\r']
    } else if c == 't' {
        seq!['\t']
    } else {
        Seq::empty()
    }
}

/// Decodes a string token's contents from position `j` on: each escape
/// sequence is replaced by the character it names. The empty branches for a
/// truncated escape cannot arise from a token the lexer validated.
pub open spec fn decode_from(s: Seq<char>, j: int) -> Seq<char>
    decreases s.len() - j,
{
    if j < 0 || j >= s.len() {
        Seq::empty()
    } else if s[j] == '\\' {
        if j + 1 >= s.len() {
            Seq::empty()
        } else if s[j + 1] == 'u' {
            if j + 6 > s.len() {
                Seq::empty()
            } else {
                seq![unescaped_unicode(s[j + 2], s[j + 3], s[j + 4], s[j + 5])] + decode_from(
                    s,
                    j + 6,
                )
            }
        } else {
            escape_rep(s[j + 1]) + decode_from(s, j + 2)
        }
    } else {
        seq![s[j]] + decode_from(s, j + 1)
    }
}

/// The model of a string token: its decoded contents and its span, quotes
/// included.
pub open spec fn string_node_of(text: Seq<char>, t: Token) -> SpecNode {
    SpecNode::String { value: decode_from(inner_lexeme(text, t), 0), loc: t.loc }
}

/// Parsing a value: skip comments, then dispatch on the next token. A
/// scalar token becomes its node; `{` and `[` open the container
/// productions; any other token is unexpected here. The `UnexpectedElement`
/// branches throughout are defensive: `skip_comments` stays in range, as
/// `lemma_skip_comments` shows.
pub open spec fn spec_parse_value(inp: PInput, st: PState) -> Result<
    (SpecNode, PState),
    MomoaError,
>
    decreases inp.toks.len() - st.pos, 2int,
{
    let st1 = skip_comments(inp.toks, st);
    if !(st.pos <= st1.pos <= inp.toks.len()) {
        Err(MomoaError::UnexpectedElement { loc: st.last })
    } else if st1.pos == inp.toks.len() {
        Err(end_of_tokens_error(inp, st1))
    } else {
        let t = inp.toks[st1.pos];
        if t.kind is LBrace {
            spec_parse_object(inp, st1)
        } else if t.kind is LBracket {
            spec_parse_array(inp, st1)
        } else if t.kind is Boolean {
            Ok(
                (
                    SpecNode::Boolean {
                        value: token_lexeme(inp.text, t) == true_word(),
                        loc: t.loc,
                    },
                    consume(inp.toks, st1),
                ),
            )
        } else if t.kind is Number {
            Ok(
                (
                    SpecNode::Number { lexeme: token_lexeme(inp.text, t), loc: t.loc },
                    consume(inp.toks, st1),
                ),
            )
        } else if t.kind is Null {
            Ok((SpecNode::Null { loc: t.loc }, consume(inp.toks, st1)))
        } else if t.kind is String {
            Ok((string_node_of(inp.text, t), consume(inp.toks, st1)))
        } else {
            Err(MomoaError::UnexpectedToken { unexpected: t.kind, loc: t.loc.start })
        }
    }
}

/// Parsing an array, at its `[` token.
pub open spec fn spec_parse_array(inp: PInput, st: PState) -> Result<
    (SpecNode, PState),
    MomoaError,
>
    decreases inp.toks.len() - st.pos, 1int,
{
    if 0 <= st.pos < inp.toks.len() && inp.toks[st.pos].kind is LBracket {
        spec_parse_elements(
            inp,
            consume(inp.toks, st),
            Seq::empty(),
            inp.toks[st.pos].loc.start,
            false,
        )
    } else {
        Err(MomoaError::UnexpectedElement { loc: st.last })
    }
}

/// Parsing an object, at its `{` token.
pub open spec fn spec_parse_object(inp: PInput, st: PState) -> Result<
    (SpecNode, PState),
    MomoaError,
>
    decreases inp.toks.len() - st.pos, 1int,
{
    if 0 <= st.pos < inp.toks.len() && inp.toks[st.pos].kind is LBrace {
        spec_parse_members(
            inp,
            consume(inp.toks, st),
            Seq::empty(),
            inp.toks[st.pos].loc.start,
            false,
        )
    } else {
        Err(MomoaError::UnexpectedElement { loc: st.last })
    }
}

/// The items of an array after `[` or after a comma. A bare comma is always
/// unexpected; the closing bracket directly after a comma is unexpected
/// unless trailing commas are allowed; after an item, only a comma or the
/// closing bracket may follow. `dangle` says whether a comma was just
/// consumed.
pub open spec fn spec_parse_elements(
    inp: PInput,
    st: PState,
    acc: Seq<SpecNode>,
    start: Location,
    dangle: bool,
) -> Result<(SpecNode, PState), MomoaError>
    decreases inp.toks.len() - st.pos, 3int,
{
    let st1 = skip_comments(inp.toks, st);
    if !(st.pos <= st1.pos <= inp.toks.len()) {
        Err(MomoaError::UnexpectedElement { loc: st.last })
    } else if st1.pos == inp.toks.len() {
        Err(end_of_tokens_error(inp, st1))
    } else {
        let t = inp.toks[st1.pos];
        if t.kind is Comma {
            Err(MomoaError::UnexpectedToken { unexpected: t.kind, loc: t.loc.start })
        } else if t.kind is RBracket {
            if dangle && !inp.allow_trailing {
                Err(MomoaError::UnexpectedToken { unexpected: t.kind, loc: t.loc.start })
            } else {
                Ok(
                    (
                        SpecNode::Array {
                            elements: acc,
                            loc: LocationRange { start, end: t.loc.end },
                        },
                        consume(inp.toks, st1),
                    ),
                )
            }
        } else {
            match spec_parse_value(inp, st1) {
                Err(e) => Err(e),
                Ok((v, st2)) => {
                    let acc2 = acc.push(v);
                    let st3 = skip_comments(inp.toks, st2);
                    if !(st.pos < st2.pos && st2.pos <= st3.pos <= inp.toks.len()) {
                        Err(MomoaError::UnexpectedElement { loc: st2.last })
                    } else if st3.pos == inp.toks.len() {
                        Err(end_of_tokens_error(inp, st3))
                    } else if inp.toks[st3.pos].kind is Comma {
                        spec_parse_elements(inp, consume(inp.toks, st3), acc2, start, true)
                    } else if inp.toks[st3.pos].kind is RBracket {
                        Ok(
                            (
                                SpecNode::Array {
                                    elements: acc2,
                                    loc: LocationRange {
                                        start,
                                        end: inp.toks[st3.pos].loc.end,
                                    },
                                },
                                consume(inp.toks, st3),
                            ),
                        )
                    } else {
                        Err(
                            MomoaError::UnexpectedToken {
                                unexpected: inp.toks[st3.pos].kind,
                                loc: inp.toks[st3.pos].loc.start,
                            },
                        )
                    }
                },
            }
        }
    }
}

/// The members of an object after `{` or after a comma, in the same shape as
/// `spec_parse_elements`. A member is a string name, a colon that must
/// follow the name directly (comments are not skipped there), and a value;
/// the member's span runs from the name's start to the value's end.
pub open spec fn spec_parse_members(
    inp: PInput,
    st: PState,
    acc: Seq<SpecMember>,
    start: Location,
    dangle: bool,
) -> Result<(SpecNode, PState), MomoaError>
    decreases inp.toks.len() - st.pos, 3int,
{
    let st1 = skip_comments(inp.toks, st);
    if !(st.pos <= st1.pos <= inp.toks.len()) {
        Err(MomoaError::UnexpectedElement { loc: st.last })
    } else if st1.pos == inp.toks.len() {
        Err(end_of_tokens_error(inp, st1))
    } else {
        let t = inp.toks[st1.pos];
        if t.kind is Comma {
            Err(MomoaError::UnexpectedToken { unexpected: t.kind, loc: t.loc.start })
        } else if t.kind is RBrace {
            if dangle && !inp.allow_trailing {
                Err(MomoaError::UnexpectedToken { unexpected: t.kind, loc: t.loc.start })
            } else {
                Ok(
                    (
                        SpecNode::Object {
                            members: acc,
                            loc: LocationRange { start, end: t.loc.end },
                        },
                        consume(inp.toks, st1),
                    ),
                )
            }
        } else if !(t.kind is String) {
            Err(MomoaError::UnexpectedToken { unexpected: t.kind, loc: t.loc.start })
        } else {
            let name_tok = t;
            let st2 = consume(inp.toks, st1);
            if st2.pos >= inp.toks.len() {
                Err(end_of_tokens_error(inp, st2))
            } else if !(inp.toks[st2.pos].kind is Colon) {
                Err(
                    MomoaError::UnexpectedToken {
                        unexpected: inp.toks[st2.pos].kind,
                        loc: inp.toks[st2.pos].loc.start,
                    },
                )
            } else {
                let st3 = consume(inp.toks, st2);
                match spec_parse_value(inp, st3) {
                    Err(e) => Err(e),
                    Ok((v, st4)) => {
                        let m = SpecMember {
                            name_value: decode_from(inner_lexeme(inp.text, name_tok), 0),
                            name_loc: name_tok.loc,
                            value: v,
                            loc: LocationRange { start: name_tok.loc.start, end: v.loc().end },
                        };
                        let acc2 = acc.push(m);
                        let st5 = skip_comments(inp.toks, st4);
                        if !(st.pos < st4.pos && st4.pos <= st5.pos <= inp.toks.len()) {
                            Err(MomoaError::UnexpectedElement { loc: st4.last })
                        } else if st5.pos == inp.toks.len() {
                            Err(end_of_tokens_error(inp, st5))
                        } else if inp.toks[st5.pos].kind is Comma {
                            spec_parse_members(inp, consume(inp.toks, st5), acc2, start, true)
                        } else if inp.toks[st5.pos].kind is RBrace {
                            Ok(
                                (
                                    SpecNode::Object {
                                        members: acc2,
                                        loc: LocationRange {
                                            start,
                                            end: inp.toks[st5.pos].loc.end,
                                        },
                                    },
                                    consume(inp.toks, st5),
                                ),
                            )
                        } else {
                            Err(
                                MomoaError::UnexpectedToken {
                                    unexpected: inp.toks[st5.pos].kind,
                                    loc: inp.toks[st5.pos].loc.start,
                                },
                            )
                        }
                    },
                }
            }
        }
    }
}

/// A successful value parse consumes at least one token and stays inside
/// the token list.
pub proof fn lemma_parse_value_advances(inp: PInput, st: PState)
    requires
        0 <= st.pos <= inp.toks.len(),
    ensures
        spec_parse_value(inp, st) matches Ok((v, st2)) ==> st.pos < st2.pos <= inp.toks.len(),
    decreases inp.toks.len() - st.pos, 2int,
{
    lemma_skip_comments(inp.toks, st);
    let st1 = skip_comments(inp.toks, st);
    if st1.pos < inp.toks.len() {
        let t = inp.toks[st1.pos];
        if t.kind is LBrace {
            lemma_parse_object_advances(inp, st1);
        } else if t.kind is LBracket {
            lemma_parse_array_advances(inp, st1);
        }
    }
}

pub proof fn lemma_parse_array_advances(inp: PInput, st: PState)
    requires
        0 <= st.pos <= inp.toks.len(),
    ensures
        spec_parse_array(inp, st) matches Ok((v, st2)) ==> st.pos < st2.pos <= inp.toks.len(),
    decreases inp.toks.len() - st.pos, 1int,
{
    if 0 <= st.pos < inp.toks.len() && inp.toks[st.pos].kind is LBracket {
        lemma_parse_elements_advances(
            inp,
            consume(inp.toks, st),
            Seq::empty(),
            inp.toks[st.pos].loc.start,
            false,
        );
    }
}

pub proof fn lemma_parse_object_advances(inp: PInput, st: PState)
    requires
        0 <= st.pos <= inp.toks.len(),
    ensures
        spec_parse_object(inp, st) matches Ok((v, st2)) ==> st.pos < st2.pos <= inp.toks.len(),
    decreases inp.toks.len() - st.pos, 1int,
{
    if 0 <= st.pos < inp.toks.len() && inp.toks[st.pos].kind is LBrace {
        lemma_parse_members_advances(
            inp,
            consume(inp.toks, st),
            Seq::empty(),
            inp.toks[st.pos].loc.start,
            false,
        );
    }
}

pub proof fn lemma_parse_elements_advances(
    inp: PInput,
    st: PState,
    acc: Seq<SpecNode>,
    start: Location,
    dangle: bool,
)
    requires
        0 <= st.pos <= inp.toks.len(),
    ensures
        spec_parse_elements(inp, st, acc, start, dangle) matches Ok((v, st2)) ==> st.pos - 1
            < st2.pos <= inp.toks.len(),
    decreases inp.toks.len() - st.pos, 3int,
{
    lemma_skip_comments(inp.toks, st);
    let st1 = skip_comments(inp.toks, st);
    if st1.pos < inp.toks.len() {
        let t = inp.toks[st1.pos];
        if t.kind is Comma || t.kind is RBracket {
        } else {
            lemma_parse_value_advances(inp, st1);
            if let Ok((v, st2)) = spec_parse_value(inp, st1) {
                lemma_skip_comments(inp.toks, st2);
                let st3 = skip_comments(inp.toks, st2);
                if st3.pos < inp.toks.len() && inp.toks[st3.pos].kind is Comma {
                    lemma_parse_elements_advances(
                        inp,
                        consume(inp.toks, st3),
                        acc.push(v),
                        start,
                        true,
                    );
                }
            }
        }
    }
}

pub proof fn lemma_parse_members_advances(
    inp: PInput,
    st: PState,
    acc: Seq<SpecMember>,
    start: Location,
    dangle: bool,
)
    requires
        0 <= st.pos <= inp.toks.len(),
    ensures
        spec_parse_members(inp, st, acc, start, dangle) matches Ok((v, st2)) ==> st.pos - 1
            < st2.pos <= inp.toks.len(),
    decreases inp.toks.len() - st.pos, 3int,
{
    lemma_skip_comments(inp.toks, st);
    let st1 = skip_comments(inp.toks, st);
    if st1.pos < inp.toks.len() {
        let t = inp.toks[st1.pos];
        if t.kind is Comma || t.kind is RBrace || !(t.kind is String) {
        } else {
            let st2 = consume(inp.toks, st1);
            if st2.pos < inp.toks.len() && inp.toks[st2.pos].kind is Colon {
                let st3 = consume(inp.toks, st2);
                lemma_parse_value_advances(inp, st3);
                if let Ok((v, st4)) = spec_parse_value(inp, st3) {
                    lemma_skip_comments(inp.toks, st4);
                    let st5 = skip_comments(inp.toks, st4);
                    if st5.pos < inp.toks.len() && inp.toks[st5.pos].kind is Comma {
                        let m = SpecMember {
                            name_value: decode_from(inner_lexeme(inp.text, t), 0),
                            name_loc: t.loc,
                            value: v,
                            loc: LocationRange { start: t.loc.start, end: v.loc().end },
                        };
                        lemma_parse_members_advances(
                            inp,
                            consume(inp.toks, st5),
                            acc.push(m),
                            start,
                            true,
                        );
                    }
                }
            }
        }
    }
}

/// The line and column one past the end of the text, counting both `\n` and
/// `\r` as line endings.
pub open spec fn end_line_col(text: Seq<char>) -> (int, int)
    decreases text.len(),
{
    if text.len() == 0 {
        (1, 1)
    } else {
        let prior = end_line_col(text.drop_last());
        if text.last() == '\n' || text.last() == '\r' {
            (prior.0 + 1, 1)
        } else {
            (prior.0, prior.1 + 1)
        }
    }
}

/// The location one past the end of the text: the document's span runs from
/// the start location to here, whatever trails the body.
pub open spec fn end_location(text: Seq<char>) -> Location {
    Location {
        line: end_line_col(text).0 as usize,
        column: end_line_col(text).1 as usize,
        offset: text.len() as usize,
    }
}

/// Relies on `char::from_u32`: it returns the `char` with the given code
/// point exactly when the code is a Unicode scalar value, that is, outside
/// the surrogate range and at most 0x10FFFF.
pub assume_specification[ char::from_u32 ](i: u32) -> (r: Option<char>)
    ensures
        r is Some <==> (i < 0xD800 || (0xDFFF < i && i <= 0x10FFFF)),
        r matches Some(c) ==> c as u32 == i,
;

/// Relies on `String`'s `FromIterator`: collecting characters builds the
/// string of exactly those characters.
#[verifier::external_body]
pub(crate) fn string_from_chars(v: Vec<char>) -> (r: String)
    ensures
        r@ == v@,
{
    v.into_iter().collect()
}

pub fn exec_hex_val(c: char) -> (r: u32)
    ensures
        r == hex_val(c),
        r <= 15,
{
    if '0' <= c && c <= '9' {
        c as u32 - 48
    } else if 'a' <= c && c <= 'f' {
        c as u32 - 87
    } else if 'A' <= c && c <= 'F' {
        c as u32 - 55
    } else {
        0
    }
}

/// Turns the four hex digits of a `\uXXXX` escape into the character they
/// name, or the replacement character for a code in the surrogate range.
pub fn exec_unescaped_unicode(a: char, b: char, c: char, d: char) -> (r: char)
    ensures
        r == unescaped_unicode(a, b, c, d),
{
    let code: u32 = exec_hex_val(a) * 4096 + exec_hex_val(b) * 256 + exec_hex_val(c) * 16
        + exec_hex_val(d);
    match char::from_u32(code) {
        Some(ch) => {
            proof {
                vstd::utf8::char_u32_cast(ch, code);
            }
            ch
        },
        None => '\u{FFFD}',
    }
}

/// Copies the characters of the half-open span `from..to`.
pub fn copy_span(text: &Vec<char>, from: usize, to: usize) -> (r: Vec<char>)
    requires
        from <= to <= text@.len(),
    ensures
        r@ == text@.subrange(from as int, to as int),
{
    let mut out: Vec<char> = Vec::new();
    let mut j = from;
    proof {
        assert(out@ =~= text@.subrange(from as int, from as int));
    }
    loop
        invariant
            from <= j <= to <= text@.len(),
            out@ == text@.subrange(from as int, j as int),
        decreases to - j,
    {
        if j >= to {
            return out;
        }
        out.push(text[j]);
        j = j + 1;
        proof {
            assert(out@ =~= text@.subrange(from as int, j as int));
        }
    }
}

/// Whether the span `from..to` spells exactly `word`.
pub fn span_equals(text: &Vec<char>, from: usize, to: usize, word: &Vec<char>) -> (r: bool)
    requires
        from <= to <= text@.len(),
    ensures
        r == (text@.subrange(from as int, to as int) == word@),
{
    let ghost span = text@.subrange(from as int, to as int);
    if to - from != word.len() {
        return false;
    }
    let mut j: usize = 0;
    loop
        invariant
            from <= to <= text@.len(),
            word@.len() == to - from,
            span == text@.subrange(from as int, to as int),
            0 <= j <= word@.len(),
            forall|k: int| 0 <= k < j ==> span[k] == word@[k],
        decreases word@.len() - j,
    {
        if j >= word.len() {
            proof {
                assert(span =~= word@);
            }
            return true;
        }
        if text[from + j] != word[j] {
            proof {
                assert(span[j as int] != word@[j as int]);
            }
            return false;
        }
        j = j + 1;
    }
}

/// Decodes a validated string token's contents, resolving every escape.
pub fn decode_text(content: &Vec<char>) -> (r: Vec<char>)
    ensures
        r@ == decode_from(content@, 0),
{
    let n = content.len();
    let mut out: Vec<char> = Vec::new();
    let mut j: usize = 0;
    proof {
        assert(out@ + decode_from(content@, 0) =~= decode_from(content@, 0));
    }
    loop
        invariant
            0 <= j <= n,
            n == content@.len(),
            decode_from(content@, 0) == out@ + decode_from(content@, j as int),
        decreases n - j,
    {
        if j >= n {
            proof {
                assert(out@ + decode_from(content@, j as int) =~= out@);
            }
            return out;
        }
        let ghost before = out@;
        let ghost jj = j as int;
        let c = content[j];
        if c == '\\' {
            if j + 1 >= n {
                // cannot arise from a validated token: a backslash is always
                // followed by its escape character
                proof {
                    assert(out@ + decode_from(content@, n as int) =~= out@ + Seq::<
                        char,
                    >::empty());
                    assert(decode_from(content@, jj) =~= Seq::<char>::empty());
                }
                j = n;
            } else if content[j + 1] == 'u' {
                if n - j < 6 {
                    proof {
                        assert(decode_from(content@, jj) =~= Seq::<char>::empty());
                    }
                    j = n;
                    proof {
                        assert(decode_from(content@, 0) =~= out@ + decode_from(
                            content@,
                            j as int,
                        ));
                    }
                } else {
                    let ch = exec_unescaped_unicode(
                        content[j + 2],
                        content[j + 3],
                        content[j + 4],
                        content[j + 5],
                    );
                    out.push(ch);
                    j = j + 6;
                    proof {
                        assert(out@ + decode_from(content@, j as int) =~= before + (seq![ch]
                            + decode_from(content@, j as int)));
                    }
                }
            } else {
                let e = content[j + 1];
                if e == '"' {
                    out.push('"');
                } else if e == '\\' {
                    out.push('\\');
                } else if e == '/' {
                    out.push('/');
                } else if e == 'b' {
                    out.push('\u{0008}');
                } else if e == 'f' {
                    out.push('\u{000c}');
                } else if e == 'n' {
                    out.push('\n');
                } else if e == 'r' {
                    out.push('\r');
                } else if e == 't' {
                    out.push('\t');
                }
                j = j + 2;
                proof {
                    assert(out@ + decode_from(content@, j as int) =~= before + (escape_rep(e)
                        + decode_from(content@, j as int)));
                }
            }
        } else {
            out.push(c);
            j = j + 1;
            proof {
                assert(out@ + decode_from(content@, j as int) =~= before + (seq![c]
                    + decode_from(content@, j as int)));
            }
        }
    }
}

/// What parsing a whole text yields: its document, or the first diagnostic.
/// After the body only comments may follow (JSON mode never produces
/// comment tokens, so there nothing at all may follow); any other trailing
/// token is unexpected, and a trailing lexer failure is reported as itself.
pub open spec fn spec_parse(text: Seq<char>, mode: Mode, allow_trailing: bool) -> Result<
    SpecDoc,
    MomoaError,
> {
    let (toks, lexerr) = spec_scan_all(text, start_location(), mode);
    let inp = PInput { text, toks, lexerr, allow_trailing };
    match spec_parse_value(inp, PState { pos: 0, last: start_location() }) {
        Err(e) => Err(e),
        Ok((body, st)) => {
            let st1 = skip_comments(toks, st);
            if 0 <= st1.pos < toks.len() {
                Err(
                    MomoaError::UnexpectedToken {
                        unexpected: toks[st1.pos].kind,
                        loc: toks[st1.pos].loc.start,
                    },
                )
            } else if lexerr is Some {
                Err(lexerr->0)
            } else {
                Ok(
                    SpecDoc {
                        body,
                        loc: LocationRange { start: start_location(), end: end_location(text) },
                        tokens: toks,
                    },
                )
            }
        },
    }
}

/// The end location of the text, as the document's span needs it.
pub fn get_end_location(text: &Vec<char>) -> (r: Location)
    requires
        text@.len() < usize::MAX,
    ensures
        r == end_location(text@),
{
    let n = text.len();
    let mut line: usize = 1;
    let mut column: usize = 1;
    let mut i: usize = 0;
    proof {
        assert(text@.subrange(0, 0) =~= Seq::<char>::empty());
    }
    loop
        invariant
            0 <= i <= n,
            n == text@.len(),
            n < usize::MAX,
            1 <= line <= i + 1,
            1 <= column <= i + 1,
            end_line_col(text@.subrange(0, i as int)) == (line as int, column as int),
        decreases n - i,
    {
        if i >= n {
            proof {
                assert(text@.subrange(0, n as int) =~= text@);
            }
            return Location { line, column, offset: n };
        }
        let c = text[i];
        proof {
            assert(text@.subrange(0, i + 1).drop_last() =~= text@.subrange(0, i as int));
            assert(text@.subrange(0, i + 1).last() == text@[i as int]);
        }
        if c == '\n' || c == '\r' {
            line = line + 1;
            column = 1;
        } else {
            column = column + 1;
        }
        i = i + 1;
    }
}

/// How an executable document parse must relate to its specification: on
/// success the result is a document node whose body models the specified
/// one and is well shaped, whose span covers the whole input, and whose
/// token list is the full scan; on failure the diagnostic is the specified
/// one.
pub open spec fn doc_result_matches(
    spec_r: Result<SpecDoc, MomoaError>,
    r: Result<Node, MomoaError>,
) -> bool {
    match spec_r {
        Ok(sd) => r matches Ok(node) && node matches Node::Document(d) && {
            &&& d.body.model() == sd.body
            &&& d.body.value_wrapped()
            &&& d.loc == sd.loc
            &&& d.tokens@ == sd.tokens
        },
        Err(e) => r matches Err(x) && x == e,
    }
}

/// How an executable parsing step must relate to its specification: on
/// success the node models the specified one, is well shaped, carries its
/// span, and the parser stands where the specification says; on failure the
/// diagnostic is the specified one.
pub open spec fn value_result_matches(
    spec_r: Result<(SpecNode, PState), MomoaError>,
    r: Result<Node, MomoaError>,
    post: PState,
) -> bool {
    match spec_r {
        Ok((sn, st2)) => {
            &&& r matches Ok(n) && n.model() == sn && n.value_wrapped() && n.spec_loc()
                == sn.loc()
            &&& post == st2
        },
        Err(e) => r matches Err(x) && x == e,
    }
}

/// The recursive-descent parser over a pre-scanned token stream.
pub struct Parser {
    text: Vec<char>,
    tokens: Vec<Token>,
    lexerr: Option<MomoaError>,
    pos: usize,
    loc: Location,
    options: ParserOptions,
    mode: Ghost<Mode>,
}

impl Parser {
    pub closed spec fn spec_text(&self) -> Seq<char> {
        self.text@
    }

    pub closed spec fn spec_tokens(&self) -> Seq<Token> {
        self.tokens@
    }

    pub closed spec fn spec_lexerr(&self) -> Option<MomoaError> {
        self.lexerr
    }

    pub closed spec fn spec_pos(&self) -> int {
        self.pos as int
    }

    pub closed spec fn spec_last(&self) -> Location {
        self.loc
    }

    pub closed spec fn spec_options(&self) -> ParserOptions {
        self.options
    }

    pub closed spec fn spec_mode(&self) -> Mode {
        self.mode@
    }

    /// The parser's input, as the spec functions see it.
    pub open spec fn inp(&self) -> PInput {
        PInput {
            text: self.spec_text(),
            toks: self.spec_tokens(),
            lexerr: self.spec_lexerr(),
            allow_trailing: self.spec_options().allow_trailing_commas,
        }
    }

    /// The parser's position, as the spec functions see it.
    pub open spec fn st(&self) -> PState {
        PState { pos: self.spec_pos(), last: self.spec_last() }
    }

    /// A parser's tokens are exactly what scanning its text in its mode
    /// yields, and its position sits inside them.
    pub open spec fn wf(&self) -> bool {
        &&& self.spec_text().len() < usize::MAX
        &&& (self.spec_tokens(), self.spec_lexerr()) == spec_scan_all(
            self.spec_text(),
            start_location(),
            self.spec_mode(),
        )
        &&& 0 <= self.spec_pos() <= self.spec_tokens().len()
    }

    pub fn new(text: &str, mode: Mode, options: Option<ParserOptions>) -> (r: Parser)
        ensures
            r.wf(),
            r.spec_text() == text@,
            r.spec_mode() == mode,
            r.st() == (PState { pos: 0, last: start_location() }),
            r.spec_options().allow_trailing_commas == match options {
                None => false,
                Some(o) => o.allow_trailing_commas,
            },
    {
        let chars = chars_of(text);
        // records that the character count stays far below usize::MAX
        let _ = char_count(&chars);
        let mut lexer = Tokens::new(text, mode);
        let (tokens, lexerr) = collect_tokens(&mut lexer);
        Parser {
            text: chars,
            tokens,
            lexerr,
            pos: 0,
            loc: Location::new(1, 1, 0),
            options: match options {
                Some(o) => o,
                None => ParserOptions { allow_trailing_commas: false },
            },
            mode: Ghost(mode),
        }
    }

    /// All tokens have well-formed spans: they come from the lexer.
    proof fn tokens_are_wf(&self)
        requires
            self.wf(),
        ensures
            tokens_wf(self.spec_tokens(), self.spec_text().len()),
    {
        lemma_scan_all_wf(self.spec_text(), start_location(), self.spec_mode());
    }

    /// Advances past comment tokens, recording each one's start.
    fn skip_comment_tokens(&mut self)
        requires
            old(self).wf(),
        ensures
            final(self).wf(),
            final(self).inp() == old(self).inp(),
            final(self).spec_mode() == old(self).spec_mode(),
            final(self).st() == skip_comments(old(self).spec_tokens(), old(self).st()),
    {
        let n = self.tokens.len();
        loop
            invariant
                old(self).wf(),
                self.wf(),
                self.inp() == old(self).inp(),
                self.spec_mode() == old(self).spec_mode(),
                n == self.spec_tokens().len(),
                skip_comments(old(self).spec_tokens(), old(self).st()) == skip_comments(
                    self.spec_tokens(),
                    self.st(),
                ),
            decreases n - self.pos,
        {
            if self.pos < n {
                let t = self.tokens[self.pos];
                if t.kind == TokenKind::LineComment || t.kind == TokenKind::BlockComment {
                    self.pos = self.pos + 1;
                    self.loc = t.loc.start;
                    continue ;
                }
            }
            return ;
        }
    }

    /// The diagnostic when a token is needed and none is left.
    fn end_error(&self) -> (r: MomoaError)
        ensures
            r == end_of_tokens_error(self.inp(), self.st()),
    {
        match self.lexerr {
            Some(e) => e,
            None => MomoaError::UnexpectedEndOfInput { loc: self.loc },
        }
    }

    /// Copies the raw text of the half-open character span `start..end`.
    fn get_text(&self, start: usize, end: usize) -> (r: Vec<char>)
        requires
            start <= end <= self.spec_text().len(),
        ensures
            r@ == self.spec_text().subrange(start as int, end as int),
    {
        copy_span(&self.text, start, end)
    }

    /// A boolean token's node: its value is whether the lexeme reads `true`.
    fn parse_boolean(&mut self) -> (r: Result<Node, MomoaError>)
        requires
            old(self).wf(),
            old(self).spec_pos() < old(self).spec_tokens().len(),
            old(self).spec_tokens()[old(self).spec_pos()].kind is Boolean,
        ensures
            final(self).wf(),
            final(self).inp() == old(self).inp(),
            final(self).spec_mode() == old(self).spec_mode(),
            value_result_matches(
                spec_parse_value(old(self).inp(), old(self).st()),
                r,
                final(self).st(),
            ),
    {
        proof {
            self.tokens_are_wf();
            assert(token_wf(self.spec_tokens()[self.spec_pos()], self.spec_text().len()));
        }
        let _n = self.tokens.len();
        let t = self.tokens[self.pos];
        self.pos = self.pos + 1;
        self.loc = t.loc.start;
        let word: Vec<char> = vec!['t', 'r', 'u', 'e'];
        proof {
            assert(word@ =~= true_word());
        }
        let value = span_equals(&self.text, t.loc.start.offset, t.loc.end.offset, &word);
        Ok(Node::Boolean(Box::new(ValueNode { value, loc: t.loc })))
    }

    /// A number token's node: its value is the raw lexeme.
    fn parse_number(&mut self) -> (r: Result<Node, MomoaError>)
        requires
            old(self).wf(),
            old(self).spec_pos() < old(self).spec_tokens().len(),
            old(self).spec_tokens()[old(self).spec_pos()].kind is Number,
        ensures
            final(self).wf(),
            final(self).inp() == old(self).inp(),
            final(self).spec_mode() == old(self).spec_mode(),
            value_result_matches(
                spec_parse_value(old(self).inp(), old(self).st()),
                r,
                final(self).st(),
            ),
    {
        proof {
            self.tokens_are_wf();
            assert(token_wf(self.spec_tokens()[self.spec_pos()], self.spec_text().len()));
        }
        let _n = self.tokens.len();
        let t = self.tokens[self.pos];
        self.pos = self.pos + 1;
        self.loc = t.loc.start;
        let lexeme = self.get_text(t.loc.start.offset, t.loc.end.offset);
        let value = string_from_chars(lexeme);
        Ok(Node::Number(Box::new(ValueNode { value, loc: t.loc })))
    }

    /// A null token's node: a span only.
    fn parse_null(&mut self) -> (r: Result<Node, MomoaError>)
        requires
            old(self).wf(),
            old(self).spec_pos() < old(self).spec_tokens().len(),
            old(self).spec_tokens()[old(self).spec_pos()].kind is Null,
        ensures
            final(self).wf(),
            final(self).inp() == old(self).inp(),
            final(self).spec_mode() == old(self).spec_mode(),
            value_result_matches(
                spec_parse_value(old(self).inp(), old(self).st()),
                r,
                final(self).st(),
            ),
    {
        let _n = self.tokens.len();
        let t = self.tokens[self.pos];
        self.pos = self.pos + 1;
        self.loc = t.loc.start;
        Ok(Node::Null(Box::new(NullNode { loc: t.loc })))
    }

    /// A string token's node: the text between the quotes, with every escape
    /// sequence resolved.
    fn parse_string(&mut self) -> (r: Result<Node, MomoaError>)
        requires
            old(self).wf(),
            old(self).spec_pos() < old(self).spec_tokens().len(),
            old(self).spec_tokens()[old(self).spec_pos()].kind is String,
        ensures
            final(self).wf(),
            final(self).inp() == old(self).inp(),
            final(self).spec_mode() == old(self).spec_mode(),
            value_result_matches(
                spec_parse_value(old(self).inp(), old(self).st()),
                r,
                final(self).st(),
            ),
    {
        proof {
            self.tokens_are_wf();
            assert(token_wf(self.spec_tokens()[self.spec_pos()], self.spec_text().len()));
        }
        let _n = self.tokens.len();
        let t = self.tokens[self.pos];
        self.pos = self.pos + 1;
        self.loc = t.loc.start;
        let content = self.get_text(t.loc.start.offset + 1, t.loc.end.offset - 1);
        let decoded = decode_text(&content);
        let value = string_from_chars(decoded);
        Ok(Node::String(Box::new(ValueNode { value, loc: t.loc })))
    }

    /// The span a node carries, whatever its variant.
    fn get_value_loc(&self, value: &Node) -> (r: LocationRange)
        ensures
            r == value.spec_loc(),
    {
        match value {
            Node::Document(d) => d.loc,
            Node::String(v) => v.loc,
            Node::Number(v) => v.loc,
            Node::Boolean(v) => v.loc,
            Node::Null(v) => v.loc,
            Node::Array(a) => a.loc,
            Node::Object(o) => o.loc,
            Node::Member(m) => m.loc,
            Node::Element(v) => v.loc,
        }
    }

    /// Parses an array at its `[` token: values separated by single commas,
    /// each wrapped as an `Element` carrying its value's span.
    fn parse_array(&mut self) -> (r: Result<Node, MomoaError>)
        requires
            old(self).wf(),
            old(self).spec_pos() < old(self).spec_tokens().len(),
            old(self).spec_tokens()[old(self).spec_pos()].kind is LBracket,
        ensures
            final(self).wf(),
            final(self).inp() == old(self).inp(),
            final(self).spec_mode() == old(self).spec_mode(),
            value_result_matches(
                spec_parse_array(old(self).inp(), old(self).st()),
                r,
                final(self).st(),
            ),
        decreases old(self).spec_tokens().len() - old(self).spec_pos(), 1int,
    {
        let ghost inp0 = self.inp();
        let ghost st0 = self.st();
        let n = self.tokens.len();
        let lb = self.tokens[self.pos];
        self.pos = self.pos + 1;
        self.loc = lb.loc.start;
        let start = lb.loc.start;
        let mut elements: Vec<Node> = Vec::new();
        let mut dangle = false;
        proof {
            assert(models_of(elements@) == Seq::<SpecNode>::empty());
            assert(elements_wrapped(elements@));
            assert(self.st() == consume(inp0.toks, st0));
        }
        loop
            invariant
                old(self).wf(),
                inp0 == old(self).inp(),
                st0 == old(self).st(),
                self.wf(),
                self.inp() == inp0,
                self.spec_mode() == old(self).spec_mode(),
                n == inp0.toks.len(),
                st0.pos < self.spec_pos() <= n,
                elements_wrapped(elements@),
                spec_parse_array(inp0, st0) == spec_parse_elements(
                    inp0,
                    self.st(),
                    models_of(elements@),
                    start,
                    dangle,
                ),
            decreases n - self.spec_pos(),
        {
            let ghost st_l = self.st();
            proof {
                lemma_skip_comments(inp0.toks, st_l);
            }
            self.skip_comment_tokens();
            if self.pos >= n {
                return Err(self.end_error());
            }
            let t = self.tokens[self.pos];
            if t.kind == TokenKind::Comma {
                return Err(MomoaError::UnexpectedToken { unexpected: t.kind, loc: t.loc.start });
            }
            if t.kind == TokenKind::RBracket {
                if dangle && !self.options.allow_trailing_commas {
                    return Err(
                        MomoaError::UnexpectedToken { unexpected: t.kind, loc: t.loc.start },
                    );
                }
                self.pos = self.pos + 1;
                self.loc = t.loc.start;
                return Ok(
                    Node::Array(
                        Box::new(
                            ArrayNode { elements, loc: LocationRange { start, end: t.loc.end } },
                        ),
                    ),
                );
            }
            // anything else must open a value
            proof {
                lemma_parse_value_advances(inp0, self.st());
            }
            let v = match self.parse_value() {
                Ok(v) => v,
                Err(e) => {
                    return Err(e);
                },
            };
            let elem_loc = self.get_value_loc(&v);
            let ghost before = elements@;
            let ghost v_snap = v;
            let elem = Node::Element(Box::new(ValueNode { value: v, loc: elem_loc }));
            let ghost elem_snap = elem;
            elements.push(elem);
            proof {
                assert(elements@.drop_last() =~= before);
                assert(elements@.last() == elem_snap);
                assert(elem_snap matches Node::Element(b) && b.value == v_snap && b.loc
                    == elem_loc);
                assert(elem_snap.model() == v_snap.model());
                assert(models_of(elements@) == models_of(before).push(v_snap.model()));
                assert(elem_snap.element_wrapped());
                assert(elements_wrapped(elements@));
            }
            // only a comma or the closing bracket may follow an item
            let ghost st_v = self.st();
            proof {
                lemma_skip_comments(inp0.toks, st_v);
            }
            self.skip_comment_tokens();
            if self.pos >= n {
                return Err(self.end_error());
            }
            let t2 = self.tokens[self.pos];
            if t2.kind == TokenKind::Comma {
                self.pos = self.pos + 1;
                self.loc = t2.loc.start;
                dangle = true;
            } else if t2.kind == TokenKind::RBracket {
                self.pos = self.pos + 1;
                self.loc = t2.loc.start;
                return Ok(
                    Node::Array(
                        Box::new(
                            ArrayNode { elements, loc: LocationRange { start, end: t2.loc.end } },
                        ),
                    ),
                );
            } else {
                return Err(
                    MomoaError::UnexpectedToken { unexpected: t2.kind, loc: t2.loc.start },
                );
            }
        }
    }

    /// Parses an object at its `{` token: `name: value` members separated by
    /// single commas, where the colon must follow the name directly.
    fn parse_object(&mut self) -> (r: Result<Node, MomoaError>)
        requires
            old(self).wf(),
            old(self).spec_pos() < old(self).spec_tokens().len(),
            old(self).spec_tokens()[old(self).spec_pos()].kind is LBrace,
        ensures
            final(self).wf(),
            final(self).inp() == old(self).inp(),
            final(self).spec_mode() == old(self).spec_mode(),
            value_result_matches(
                spec_parse_object(old(self).inp(), old(self).st()),
                r,
                final(self).st(),
            ),
        decreases old(self).spec_tokens().len() - old(self).spec_pos(), 1int,
    {
        let ghost inp0 = self.inp();
        let ghost st0 = self.st();
        let n = self.tokens.len();
        let lb = self.tokens[self.pos];
        self.pos = self.pos + 1;
        self.loc = lb.loc.start;
        let start = lb.loc.start;
        let mut members: Vec<Node> = Vec::new();
        let mut dangle = false;
        proof {
            assert(member_models_of(members@) == Seq::<SpecMember>::empty());
            assert(members_wrapped(members@));
            assert(self.st() == consume(inp0.toks, st0));
        }
        loop
            invariant
                old(self).wf(),
                inp0 == old(self).inp(),
                st0 == old(self).st(),
                self.wf(),
                self.inp() == inp0,
                self.spec_mode() == old(self).spec_mode(),
                n == inp0.toks.len(),
                st0.pos < self.spec_pos() <= n,
                members_wrapped(members@),
                spec_parse_object(inp0, st0) == spec_parse_members(
                    inp0,
                    self.st(),
                    member_models_of(members@),
                    start,
                    dangle,
                ),
            decreases n - self.spec_pos(),
        {
            let ghost st_l = self.st();
            proof {
                lemma_skip_comments(inp0.toks, st_l);
            }
            self.skip_comment_tokens();
            if self.pos >= n {
                return Err(self.end_error());
            }
            let t = self.tokens[self.pos];
            if t.kind == TokenKind::Comma {
                return Err(MomoaError::UnexpectedToken { unexpected: t.kind, loc: t.loc.start });
            }
            if t.kind == TokenKind::RBrace {
                if dangle && !self.options.allow_trailing_commas {
                    return Err(
                        MomoaError::UnexpectedToken { unexpected: t.kind, loc: t.loc.start },
                    );
                }
                self.pos = self.pos + 1;
                self.loc = t.loc.start;
                return Ok(
                    Node::Object(
                        Box::new(
                            ObjectNode { members, loc: LocationRange { start, end: t.loc.end } },
                        ),
                    ),
                );
            }
            if !(t.kind == TokenKind::String) {
                return Err(MomoaError::UnexpectedToken { unexpected: t.kind, loc: t.loc.start });
            }
            // name
            let ghost name_tok = t;
            let name = match self.parse_string() {
                Ok(nm) => nm,
                Err(e) => {
                    return Err(e);
                },
            };
            proof {
                assert(name matches Node::String(_));
            }
            // the colon must follow the name directly, without comments
            if self.pos >= n {
                return Err(self.end_error());
            }
            let ct = self.tokens[self.pos];
            if !(ct.kind == TokenKind::Colon) {
                return Err(
                    MomoaError::UnexpectedToken { unexpected: ct.kind, loc: ct.loc.start },
                );
            }
            self.pos = self.pos + 1;
            self.loc = ct.loc.start;
            // value
            proof {
                lemma_parse_value_advances(inp0, self.st());
            }
            let v = match self.parse_value() {
                Ok(v) => v,
                Err(e) => {
                    return Err(e);
                },
            };
            let name_loc = self.get_value_loc(&name);
            let value_loc = self.get_value_loc(&v);
            let ghost before = members@;
            let ghost name_snap = name;
            let ghost v_snap = v;
            let ghost m_model = SpecMember {
                name_value: name.spec_string_value(),
                name_loc: name.spec_loc(),
                value: v.model(),
                loc: LocationRange { start: name_loc.start, end: value_loc.end },
            };
            let entry = Node::Member(
                Box::new(
                    MemberNode {
                        name,
                        value: v,
                        loc: LocationRange { start: name_loc.start, end: value_loc.end },
                    },
                ),
            );
            let ghost entry_snap = entry;
            members.push(entry);
            proof {
                assert(members@.drop_last() =~= before);
                assert(members@.last() == entry_snap);
                assert(entry_snap matches Node::Member(m) && m.name == name_snap && m.value
                    == v_snap);
                assert(entry_snap.member_model() == m_model);
                assert(member_models_of(members@) == member_models_of(before).push(m_model));
                assert(entry_snap.entry_wrapped());
                assert(members_wrapped(members@));
            }
            // only a comma or the closing brace may follow a member
            let ghost st_v = self.st();
            proof {
                lemma_skip_comments(inp0.toks, st_v);
            }
            self.skip_comment_tokens();
            if self.pos >= n {
                return Err(self.end_error());
            }
            let t2 = self.tokens[self.pos];
            if t2.kind == TokenKind::Comma {
                self.pos = self.pos + 1;
                self.loc = t2.loc.start;
                dangle = true;
            } else if t2.kind == TokenKind::RBrace {
                self.pos = self.pos + 1;
                self.loc = t2.loc.start;
                return Ok(
                    Node::Object(
                        Box::new(
                            ObjectNode { members, loc: LocationRange { start, end: t2.loc.end } },
                        ),
                    ),
                );
            } else {
                return Err(
                    MomoaError::UnexpectedToken { unexpected: t2.kind, loc: t2.loc.start },
                );
            }
        }
    }

    /// Parses one value: skips comments, then dispatches on the next token.
    fn parse_value(&mut self) -> (r: Result<Node, MomoaError>)
        requires
            old(self).wf(),
        ensures
            final(self).wf(),
            final(self).inp() == old(self).inp(),
            final(self).spec_mode() == old(self).spec_mode(),
            value_result_matches(
                spec_parse_value(old(self).inp(), old(self).st()),
                r,
                final(self).st(),
            ),
        decreases old(self).spec_tokens().len() - old(self).spec_pos(), 2int,
    {
        let ghost inp0 = self.inp();
        let ghost st0 = self.st();
        proof {
            lemma_skip_comments(inp0.toks, st0);
        }
        self.skip_comment_tokens();
        let n = self.tokens.len();
        if self.pos >= n {
            return Err(self.end_error());
        }
        let t = self.tokens[self.pos];
        match t.kind {
            TokenKind::LBrace => self.parse_object(),
            TokenKind::LBracket => self.parse_array(),
            TokenKind::Boolean => self.parse_boolean(),
            TokenKind::Number => self.parse_number(),
            TokenKind::Null => self.parse_null(),
            TokenKind::String => self.parse_string(),
            _ => Err(MomoaError::UnexpectedToken { unexpected: t.kind, loc: t.loc.start }),
        }
    }

    /// Parses the whole text into a document node: the body value, then only
    /// comments may remain; the document's span covers the entire input.
    /// Call it once, on a freshly constructed parser.
    pub fn parse(&mut self) -> (r: Result<Node, MomoaError>)
        requires
            old(self).wf(),
            old(self).st() == (PState { pos: 0, last: start_location() }),
        ensures
            final(self).wf(),
            doc_result_matches(
                spec_parse(
                    old(self).spec_text(),
                    old(self).spec_mode(),
                    old(self).spec_options().allow_trailing_commas,
                ),
                r,
            ),
    {
        let ghost inp0 = self.inp();
        let ghost st0 = self.st();
        let body = match self.parse_value() {
            Ok(b) => b,
            Err(e) => {
                return Err(e);
            },
        };
        proof {
            lemma_skip_comments(inp0.toks, self.st());
        }
        self.skip_comment_tokens();
        let n = self.tokens.len();
        if self.pos < n {
            let t = self.tokens[self.pos];
            return Err(MomoaError::UnexpectedToken { unexpected: t.kind, loc: t.loc.start });
        }
        match self.lexerr {
            Some(e) => Err(e),
            None => {
                let end = get_end_location(&self.text);
                let tokens = copy_tokens(&self.tokens);
                Ok(
                    Node::Document(
                        Box::new(
                            DocumentNode {
                                body,
                                loc: LocationRange { start: Location::new(1, 1, 0), end },
                                tokens,
                            },
                        ),
                    ),
                )
            },
        }
    }
}

/// A copy of the token list, for the document node to own.
pub fn copy_tokens(v: &Vec<Token>) -> (r: Vec<Token>)
    ensures
        r@ == v@,
{
    let n = v.len();
    let mut out: Vec<Token> = Vec::new();
    let mut i: usize = 0;
    loop
        invariant
            0 <= i <= n,
            n == v@.len(),
            out@ == v@.subrange(0, i as int),
        decreases n - i,
    {
        if i >= n {
            proof {
                assert(v@.subrange(0, n as int) =~= v@);
            }
            return out;
        }
        out.push(v[i]);
        i = i + 1;
        proof {
            assert(out@ =~= v@.subrange(0, i as int));
        }
    }
}

/// Parses `text` in the given mode with the given options (trailing commas
/// off when none are supplied): the document, or the first diagnostic.
pub fn parse(text: &str, mode: Mode, options: Option<ParserOptions>) -> (r: Result<
    Node,
    MomoaError,
>)
    ensures
        doc_result_matches(
            spec_parse(
                text@,
                mode,
                match options {
                    None => false,
                    Some(o) => o.allow_trailing_commas,
                },
            ),
            r,
        ),
{
    let mut parser = Parser::new(text, mode, options);
    parser.parse()
}

} // verus!
