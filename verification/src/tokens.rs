//! Token kinds, located tokens, and the lexer that produces them one at a
//! time by pulling characters from the input.
use vstd::prelude::*;

use crate::errors::MomoaError;
use crate::location::{Location, LocationRange};
use crate::mode::Mode;
use crate::readers::{
    exec_is_digit, is_digit, read_block_comment, read_keyword, read_line_comment, read_number,
    read_string, scan_block_comment, scan_keyword, scan_line_comment, scan_number, scan_string,
    lemma_scan_block_tail_ok, lemma_scan_keyword_ok, lemma_scan_line_comment_ok,
    lemma_scan_number_ok, lemma_scan_string_tail_ok,
};
use vstd::std_specs::iter::IteratorSpec;

verus! {

/// The classification of a lexed span of source text.
#[derive(Debug, Clone, Copy, PartialEq, Eq, Structural)]
pub enum TokenKind {
    LBrace,
    RBrace,
    LBracket,
    RBracket,
    Comma,
    Colon,
    Boolean,
    Number,
    String,
    Null,
    LineComment,
    BlockComment,
}

/// A classified span of source text: `loc.start` is its first character and
/// `loc.end` one past its last. Tokens are immutable once produced.
#[derive(Debug, Clone, Copy, PartialEq, Eq, Structural)]
pub struct Token {
    pub kind: TokenKind,
    pub loc: LocationRange,
}

/// The position at which every scan begins: line 1, column 1, offset 0.
pub open spec fn start_location() -> Location {
    Location { line: 1, column: 1, offset: 0 }
}

pub open spec fn null_word() -> Seq<char> {
    seq!['n', 'u', 'l', 'l']
}

pub open spec fn true_word() -> Seq<char> {
    seq!['t', 'r', 'u', 'e']
}

pub open spec fn false_word() -> Seq<char> {
    seq!['f', 'a', 'l', 's', 'e']
}

/// The token kind of a single punctuation character.
pub open spec fn punct_kind(c: char) -> TokenKind {
    if c == '[' {
        TokenKind::LBracket
    } else if c == ']' {
        TokenKind::RBracket
    } else if c == '{' {
        TokenKind::LBrace
    } else if c == '}' {
        TokenKind::RBrace
    } else if c == ',' {
        TokenKind::Comma
    } else {
        TokenKind::Colon
    }
}

/// What one pull on the lexer yields: the end of the input (with the final
/// cursor), one token, or a diagnostic (with the cursor at the start of the
/// offending token).
pub enum LexStep {
    End { cursor: Location },
    Tok { token: Token },
    Fail { err: MomoaError, cursor: Location },
}

/// Wraps a scanned span as a token of the given kind, or passes the
/// diagnostic through.
pub open spec fn tok_or_fail(
    kind: TokenKind,
    start: Location,
    scanned: Result<Location, MomoaError>,
) -> LexStep {
    match scanned {
        Ok(end) => LexStep::Tok { token: Token { kind, loc: LocationRange { start, end } } },
        Err(err) => LexStep::Fail { err, cursor: start },
    }
}

/// The lexer's single step: from the cursor, skip whitespace and newlines,
/// then dispatch on the next character exactly as section-by-section
/// scanning demands. Comments are only recognised in JSONC mode; in JSON
/// mode a `/` is an unexpected character at its own position.
pub open spec fn spec_next(text: Seq<char>, cur: Location, mode: Mode) -> LexStep
    decreases text.len() - cur.offset,
        when cur.offset <= text.len() && text.len() <= usize::MAX
{
    let i = cur.offset as int;
    if i >= text.len() {
        LexStep::End { cursor: cur }
    } else {
        let c = text[i];
        if c == ' ' || c == '\t' || c == '\r' {
            spec_next(text, cur.spec_advance(1), mode)
        } else if c == '\n' {
            spec_next(text, cur.spec_advance_new_line(), mode)
        } else if c == '-' || is_digit(c) {
            tok_or_fail(TokenKind::Number, cur, scan_number(text, cur))
        } else if c == '[' || c == ']' || c == '{' || c == '}' || c == ',' || c == ':' {
            LexStep::Tok {
                token: Token {
                    kind: punct_kind(c),
                    loc: LocationRange { start: cur, end: cur.spec_advance(1) },
                },
            }
        } else if c == '"' {
            tok_or_fail(TokenKind::String, cur, scan_string(text, cur))
        } else if c == 'n' {
            tok_or_fail(TokenKind::Null, cur, scan_keyword(text, null_word(), cur))
        } else if c == 't' {
            tok_or_fail(TokenKind::Boolean, cur, scan_keyword(text, true_word(), cur))
        } else if c == 'f' {
            tok_or_fail(TokenKind::Boolean, cur, scan_keyword(text, false_word(), cur))
        } else if c == '/' && mode is Jsonc {
            if i + 1 < text.len() && text[i + 1] == '/' {
                tok_or_fail(TokenKind::LineComment, cur, scan_line_comment(text, cur))
            } else if i + 1 < text.len() && text[i + 1] == '*' {
                tok_or_fail(TokenKind::BlockComment, cur, scan_block_comment(text, cur))
            } else {
                LexStep::Fail { err: MomoaError::UnexpectedCharacter { c: '/', loc: cur }, cursor: cur }
            }
        } else {
            LexStep::Fail { err: MomoaError::UnexpectedCharacter { c, loc: cur }, cursor: cur }
        }
    }
}

/// Whatever one lexer step yields stays inside the text and keeps the cursor
/// well formed; a token spans at least one character forward from the
/// cursor, and the end of input is reported at the text's very end.
pub proof fn lemma_spec_next_bounds(text: Seq<char>, cur: Location, mode: Mode)
    requires
        cur.wf(text.len()),
        text.len() < usize::MAX,
    ensures
        match spec_next(text, cur, mode) {
            LexStep::End { cursor } => cursor.wf(text.len()) && cursor.offset == text.len(),
            LexStep::Tok { token } => {
                &&& cur.offset <= token.loc.start.offset < token.loc.end.offset <= text.len()
                &&& token.loc.start.wf(text.len())
                &&& token.loc.end.wf(text.len())
                &&& token.kind is String ==> token.loc.start.offset + 2 <= token.loc.end.offset
            },
            LexStep::Fail { err, cursor } => cursor.wf(text.len()) && cur.offset <= cursor.offset
                <= text.len(),
        },
    decreases text.len() - cur.offset,
{
    let i = cur.offset as int;
    if i >= text.len() {
    } else {
        let c = text[i];
        if c == ' ' || c == '\t' || c == '\r' {
            lemma_spec_next_bounds(text, cur.spec_advance(1), mode);
        } else if c == '\n' {
            lemma_spec_next_bounds(text, cur.spec_advance_new_line(), mode);
        } else if c == '-' || is_digit(c) {
            lemma_scan_number_ok(text, cur);
        } else if c == '[' || c == ']' || c == '{' || c == '}' || c == ',' || c == ':' {
        } else if c == '"' {
            lemma_scan_string_tail_ok(text, cur, 1);
        } else if c == 'n' {
            lemma_scan_keyword_ok(text, null_word(), cur, 0);
        } else if c == 't' {
            lemma_scan_keyword_ok(text, true_word(), cur, 0);
        } else if c == 'f' {
            lemma_scan_keyword_ok(text, false_word(), cur, 0);
        } else if c == '/' && mode is Jsonc {
            if i + 1 < text.len() && text[i + 1] == '/' {
                lemma_scan_line_comment_ok(text, cur);
            } else if i + 1 < text.len() && text[i + 1] == '*' {
                lemma_scan_block_tail_ok(text, cur, 2, false);
            }
        } else {
        }
    }
}

/// The whole token stream from `cur`: the tokens up to the end of the input,
/// or up to the first failure, which is carried alongside. The guard on the
/// token's span is always true (every token moves the cursor forward, as
/// `lemma_spec_next_bounds` shows); it makes the recursion visibly bounded.
pub open spec fn spec_scan_all(text: Seq<char>, cur: Location, mode: Mode) -> (Seq<Token>, Option<
    MomoaError,
>)
    decreases text.len() - cur.offset,
        when cur.offset <= text.len() && text.len() <= usize::MAX
{
    match spec_next(text, cur, mode) {
        LexStep::End { cursor } => (Seq::empty(), None),
        LexStep::Fail { err, cursor } => (Seq::empty(), Some(err)),
        LexStep::Tok { token } => {
            if cur.offset < token.loc.end.offset <= text.len() {
                let rest = spec_scan_all(text, token.loc.end, mode);
                (seq![token] + rest.0, rest.1)
            } else {
                (Seq::empty(), None)
            }
        },
    }
}

/// A token's span sits inside a text of `n` characters; a string token holds
/// at least its two quotes.
pub open spec fn token_wf(t: Token, n: nat) -> bool {
    &&& t.loc.start.offset < t.loc.end.offset <= n
    &&& t.loc.start.wf(n)
    &&& t.loc.end.wf(n)
    &&& t.kind is String ==> t.loc.start.offset + 2 <= t.loc.end.offset
}

pub open spec fn tokens_wf(toks: Seq<Token>, n: nat) -> bool {
    forall|i: int| 0 <= i < toks.len() ==> #[trigger] token_wf(toks[i], n)
}

/// Every token the lexer produces has a well-formed span.
pub proof fn lemma_scan_all_wf(text: Seq<char>, cur: Location, mode: Mode)
    requires
        cur.wf(text.len()),
        text.len() < usize::MAX,
    ensures
        tokens_wf(spec_scan_all(text, cur, mode).0, text.len()),
    decreases text.len() - cur.offset,
{
    lemma_spec_next_bounds(text, cur, mode);
    match spec_next(text, cur, mode) {
        LexStep::End { cursor } => {},
        LexStep::Fail { err, cursor } => {},
        LexStep::Tok { token } => {
            lemma_scan_all_wf(text, token.loc.end, mode);
            let rest = spec_scan_all(text, token.loc.end, mode).0;
            let all = spec_scan_all(text, cur, mode).0;
            assert(all == seq![token] + rest);
            assert forall|i: int| 0 <= i < all.len() implies #[trigger] token_wf(
                all[i],
                text.len(),
            ) by {
                if i > 0 {
                    assert(all[i] == rest[i - 1]);
                    assert(token_wf(rest[i - 1], text.len()));
                }
            }
        },
    }
}

/// What tokenizing a whole text in a given mode yields: all its tokens in
/// source order, or the first diagnostic.
pub open spec fn spec_tokenize(text: Seq<char>, mode: Mode) -> Result<Seq<Token>, MomoaError> {
    let (toks, err) = spec_scan_all(text, start_location(), mode);
    match err {
        None => Ok(toks),
        Some(e) => Err(e),
    }
}

/// The input text as one vector of characters.
pub fn chars_of(text: &str) -> (r: Vec<char>)
    ensures
        r@ == text@,
{
    broadcast use vstd::string::group_string_axioms;

    let mut it = text.chars();
    let mut out: Vec<char> = Vec::new();
    loop
        invariant
            it.obeys_prophetic_iter_laws(),
            out@ + it.remaining() == text@,
        decreases text@.len() - out@.len(),
    {
        match it.next() {
            Some(c) => {
                out.push(c);
                proof {
                    assert(out@ + it.remaining() =~= text@);
                }
            },
            None => {
                proof {
                    assert(out@ =~= text@);
                }
                return out;
            },
        }
    }
}

/// Relies on `Vec`'s allocation limit: a vector never holds more than
/// `isize::MAX` bytes, and a `char` occupies four of them, so the length of
/// a character vector is far below `usize::MAX`.
#[verifier::external_body]
pub(crate) fn char_count(v: &Vec<char>) -> (n: usize)
    ensures
        n == v@.len(),
        n < usize::MAX,
{
    v.len()
}

/// The lexer: pulls characters from the input and produces one token at a
/// time, left to right. It is pull-based and single-pass; a fresh lexer must
/// be constructed to re-scan.
pub struct Tokens {
    text: Vec<char>,
    cursor: Location,
    mode: Mode,
}

impl Tokens {
    /// The input being scanned, as a character sequence.
    pub closed spec fn spec_text(&self) -> Seq<char> {
        self.text@
    }

    /// The current scan position.
    pub closed spec fn spec_cursor(&self) -> Location {
        self.cursor
    }

    /// The dialect the lexer was constructed for.
    pub closed spec fn spec_mode(&self) -> Mode {
        self.mode
    }

    /// A lexer's cursor always sits inside its text.
    pub open spec fn wf(&self) -> bool {
        &&& self.spec_cursor().wf(self.spec_text().len())
        &&& self.spec_text().len() < usize::MAX
    }

    pub fn new(text: &str, mode: Mode) -> (r: Tokens)
        ensures
            r.wf(),
            r.spec_text() == text@,
            r.spec_cursor() == start_location(),
            r.spec_mode() == mode,
    {
        let chars = chars_of(text);
        // records that the character count stays far below usize::MAX
        let _ = char_count(&chars);
        Tokens { text: chars, cursor: Location::new(1, 1, 0), mode }
    }

    /// Scans the next token: `None` at the end of the input, or the token or
    /// the first diagnostic, exactly as `spec_next` says. After a failure the
    /// cursor rests at the start of the offending token, so a further call
    /// reports the same failure.
    pub fn next_token(&mut self) -> (r: Option<Result<Token, MomoaError>>)
        requires
            old(self).wf(),
        ensures
            final(self).wf(),
            final(self).spec_text() == old(self).spec_text(),
            final(self).spec_mode() == old(self).spec_mode(),
            match spec_next(old(self).spec_text(), old(self).spec_cursor(), old(self).spec_mode()) {
                LexStep::End { cursor } => r is None && final(self).spec_cursor() == cursor,
                LexStep::Tok { token } => r == Some(Ok::<Token, MomoaError>(token))
                    && final(self).spec_cursor() == token.loc.end,
                LexStep::Fail { err, cursor } => r == Some(Err::<Token, MomoaError>(err))
                    && final(self).spec_cursor() == cursor,
            },
    {
        let ghost text0 = self.text@;
        let ghost cur0 = self.cursor;
        let ghost mode0 = self.mode;
        let n = self.text.len();
        loop
            invariant
                text0 == old(self).spec_text(),
                cur0 == old(self).spec_cursor(),
                mode0 == old(self).spec_mode(),
                cur0.wf(text0.len()),
                self.text@ == text0,
                self.mode == mode0,
                self.cursor.wf(text0.len()),
                n == text0.len(),
                n < usize::MAX,
                spec_next(text0, cur0, mode0) == spec_next(text0, self.cursor, mode0),
            decreases n - self.cursor.offset,
        {
            let i = self.cursor.offset;
            if i >= n {
                return None;
            }
            let c = self.text[i];
            if c == ' ' || c == '\t' || c == '\r' {
                self.cursor = self.cursor.advance(1);
            } else if c == '\n' {
                self.cursor = self.cursor.advance_new_line();
            } else if c == '-' || exec_is_digit(c) {
                let start = self.cursor;
                proof {
                    lemma_scan_number_ok(text0, start);
                }
                match read_number(&self.text, &start) {
                    Ok(end) => {
                        self.cursor = end;
                        return Some(
                            Ok(Token { kind: TokenKind::Number, loc: LocationRange { start, end } }),
                        );
                    },
                    Err(e) => {
                        return Some(Err(e));
                    },
                }
            } else if c == '[' || c == ']' || c == '{' || c == '}' || c == ',' || c == ':' {
                let start = self.cursor;
                let end = self.cursor.advance(1);
                self.cursor = end;
                let kind = if c == '[' {
                    TokenKind::LBracket
                } else if c == ']' {
                    TokenKind::RBracket
                } else if c == '{' {
                    TokenKind::LBrace
                } else if c == '}' {
                    TokenKind::RBrace
                } else if c == ',' {
                    TokenKind::Comma
                } else {
                    TokenKind::Colon
                };
                return Some(Ok(Token { kind, loc: LocationRange { start, end } }));
            } else if c == '"' {
                let start = self.cursor;
                proof {
                    lemma_scan_string_tail_ok(text0, start, 1);
                }
                match read_string(&self.text, &start) {
                    Ok(end) => {
                        self.cursor = end;
                        return Some(
                            Ok(Token { kind: TokenKind::String, loc: LocationRange { start, end } }),
                        );
                    },
                    Err(e) => {
                        return Some(Err(e));
                    },
                }
            } else if c == 'n' {
                let start = self.cursor;
                let word: Vec<char> = vec!['n', 'u', 'l', 'l'];
                proof {
                    assert(word@ =~= null_word());
                    lemma_scan_keyword_ok(text0, null_word(), start, 0);
                }
                match read_keyword(&word, &self.text, &start) {
                    Ok(end) => {
                        self.cursor = end;
                        return Some(
                            Ok(Token { kind: TokenKind::Null, loc: LocationRange { start, end } }),
                        );
                    },
                    Err(e) => {
                        return Some(Err(e));
                    },
                }
            } else if c == 't' {
                let start = self.cursor;
                let word: Vec<char> = vec!['t', 'r', 'u', 'e'];
                proof {
                    assert(word@ =~= true_word());
                    lemma_scan_keyword_ok(text0, true_word(), start, 0);
                }
                match read_keyword(&word, &self.text, &start) {
                    Ok(end) => {
                        self.cursor = end;
                        return Some(
                            Ok(
                                Token {
                                    kind: TokenKind::Boolean,
                                    loc: LocationRange { start, end },
                                },
                            ),
                        );
                    },
                    Err(e) => {
                        return Some(Err(e));
                    },
                }
            } else if c == 'f' {
                let start = self.cursor;
                let word: Vec<char> = vec!['f', 'a', 'l', 's', 'e'];
                proof {
                    assert(word@ =~= false_word());
                    lemma_scan_keyword_ok(text0, false_word(), start, 0);
                }
                match read_keyword(&word, &self.text, &start) {
                    Ok(end) => {
                        self.cursor = end;
                        return Some(
                            Ok(
                                Token {
                                    kind: TokenKind::Boolean,
                                    loc: LocationRange { start, end },
                                },
                            ),
                        );
                    },
                    Err(e) => {
                        return Some(Err(e));
                    },
                }
            } else if c == '/' && self.mode == Mode::Jsonc {
                let start = self.cursor;
                if i + 1 < n && self.text[i + 1] == '/' {
                    proof {
                        lemma_scan_line_comment_ok(text0, start);
                    }
                    match read_line_comment(&self.text, &start) {
                        Ok(end) => {
                            self.cursor = end;
                            return Some(
                                Ok(
                                    Token {
                                        kind: TokenKind::LineComment,
                                        loc: LocationRange { start, end },
                                    },
                                ),
                            );
                        },
                        Err(e) => {
                            return Some(Err(e));
                        },
                    }
                } else if i + 1 < n && self.text[i + 1] == '*' {
                    proof {
                        lemma_scan_block_tail_ok(text0, start, 2, false);
                    }
                    match read_block_comment(&self.text, &start) {
                        Ok(end) => {
                            self.cursor = end;
                            return Some(
                                Ok(
                                    Token {
                                        kind: TokenKind::BlockComment,
                                        loc: LocationRange { start, end },
                                    },
                                ),
                            );
                        },
                        Err(e) => {
                            return Some(Err(e));
                        },
                    }
                } else {
                    return Some(
                        Err(MomoaError::UnexpectedCharacter { c: '/', loc: self.cursor }),
                    );
                }
            } else {
                return Some(Err(MomoaError::UnexpectedCharacter { c, loc: self.cursor }));
            }
        }
    }
}

/// Drains a lexer: every token it yields in order, alongside the failure
/// that stopped it, if one did.
pub fn collect_tokens(lexer: &mut Tokens) -> (r: (Vec<Token>, Option<MomoaError>))
    requires
        old(lexer).wf(),
    ensures
        ({
            let all = spec_scan_all(
                old(lexer).spec_text(),
                old(lexer).spec_cursor(),
                old(lexer).spec_mode(),
            );
            r.0@ == all.0 && r.1 == all.1
        }),
{
    let ghost text0 = lexer.spec_text();
    let ghost cur0 = lexer.spec_cursor();
    let ghost mode0 = lexer.spec_mode();
    let mut result: Vec<Token> = Vec::new();
    proof {
        let rest = spec_scan_all(text0, cur0, mode0);
        assert(result@ + rest.0 =~= rest.0);
    }
    loop
        invariant
            text0 == old(lexer).spec_text(),
            cur0 == old(lexer).spec_cursor(),
            mode0 == old(lexer).spec_mode(),
            cur0.wf(text0.len()),
            text0.len() < usize::MAX,
            lexer.wf(),
            lexer.spec_text() == text0,
            lexer.spec_mode() == mode0,
            spec_scan_all(text0, cur0, mode0) == {
                let rest = spec_scan_all(text0, lexer.spec_cursor(), mode0);
                (result@ + rest.0, rest.1)
            },
        decreases text0.len() - lexer.spec_cursor().offset,
    {
        let ghost pre = lexer.spec_cursor();
        proof {
            lemma_spec_next_bounds(text0, pre, mode0);
        }
        match lexer.next_token() {
            None => {
                proof {
                    assert(result@ + Seq::<Token>::empty() =~= result@);
                }
                return (result, None);
            },
            Some(Ok(t)) => {
                let ghost before = result@;
                result.push(t);
                proof {
                    let rest = spec_scan_all(text0, t.loc.end, mode0);
                    assert(result@ + rest.0 =~= before + (seq![t] + rest.0));
                }
            },
            Some(Err(e)) => {
                proof {
                    assert(result@ + Seq::<Token>::empty() =~= result@);
                }
                return (result, Some(e));
            },
        }
    }
}

/// Tokenizes the whole text: every token in source order, or the first
/// diagnostic.
pub fn tokenize(text: &str, mode: Mode) -> (r: Result<Vec<Token>, MomoaError>)
    ensures
        match r {
            Ok(v) => spec_tokenize(text@, mode) == Ok::<Seq<Token>, MomoaError>(v@),
            Err(e) => spec_tokenize(text@, mode) == Err::<Seq<Token>, MomoaError>(e),
        },
{
    let mut lexer = Tokens::new(text, mode);
    let (result, failure) = collect_tokens(&mut lexer);
    match failure {
        None => Ok(result),
        Some(e) => Err(e),
    }
}

} // verus!
