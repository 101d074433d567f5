//! Character-level scanners, one per token class, together with the spec
//! functions that define exactly which span each one consumes and which
//! diagnostic it reports.
//!
//! Every scanner takes the input as a sequence of characters and the cursor
//! at which the token starts, and either returns the cursor one past the
//! token's last character or fails at the offending position.
use vstd::prelude::*;

use crate::errors::MomoaError;
use crate::location::Location;

verus! {

pub open spec fn is_digit(c: char) -> bool {
    '0' <= c && c <= '9'
}

pub open spec fn is_hex_digit(c: char) -> bool {
    ||| is_digit(c)
    ||| ('a' <= c && c <= 'f')
    ||| ('A' <= c && c <= 'F')
}

/// Matching a keyword (`null`, `true`, `false`) character by character:
/// `matched` characters of `word` have already matched at `start`. A
/// mismatch or exhausted input fails at the first unmatched position.
pub open spec fn scan_keyword_from(
    text: Seq<char>,
    word: Seq<char>,
    start: Location,
    matched: int,
) -> Result<Location, MomoaError>
    decreases word.len() - matched,
{
    if matched < 0 || matched >= word.len() {
        Ok(start.spec_advance(word.len()))
    } else {
        let i = start.offset + matched;
        if i >= text.len() {
            Err(MomoaError::UnexpectedEndOfInput { loc: start.spec_advance(matched as nat) })
        } else if text[i] != word[matched] {
            Err(
                MomoaError::UnexpectedCharacter {
                    c: text[i],
                    loc: start.spec_advance(matched as nat),
                },
            )
        } else {
            scan_keyword_from(text, word, start, matched + 1)
        }
    }
}

/// The span of a keyword token beginning at `start`.
pub open spec fn scan_keyword(text: Seq<char>, word: Seq<char>, start: Location) -> Result<
    Location,
    MomoaError,
> {
    scan_keyword_from(text, word, start, 0)
}

/// The first index at or after `i` that does not hold a decimal digit.
pub open spec fn digits_end(text: Seq<char>, i: int) -> int
    decreases text.len() - i,
{
    if i < text.len() && is_digit(text[i]) {
        digits_end(text, i + 1)
    } else {
        i
    }
}

pub proof fn lemma_digits_end(text: Seq<char>, i: int)
    requires
        0 <= i <= text.len(),
    ensures
        i <= digits_end(text, i) <= text.len(),
    decreases text.len() - i,
{
    if i < text.len() && is_digit(text[i]) {
        lemma_digits_end(text, i + 1);
    }
}

/// The exponent part of a number token: an optional `e`/`E` with an optional
/// sign and then at least one digit. `i` is the index where the mantissa
/// ended; `start` is where the whole token began.
pub open spec fn scan_exponent(text: Seq<char>, start: Location, i: int) -> Result<
    Location,
    MomoaError,
> {
    if i < text.len() && (text[i] == 'e' || text[i] == 'E') {
        let j = if i + 1 < text.len() && (text[i + 1] == '+' || text[i + 1] == '-') {
            i + 2
        } else {
            i + 1
        };
        if j >= text.len() {
            Err(MomoaError::UnexpectedEndOfInput { loc: start.spec_advance((j - start.offset) as nat) })
        } else if !is_digit(text[j]) {
            Err(
                MomoaError::UnexpectedCharacter {
                    c: text[j],
                    loc: start.spec_advance((j - start.offset) as nat),
                },
            )
        } else {
            Ok(start.spec_advance((digits_end(text, j) - start.offset) as nat))
        }
    } else {
        Ok(start.spec_advance((i - start.offset) as nat))
    }
}

/// The fraction part: an optional `.` which must be followed by at least one
/// digit, then the exponent part. `i` is where the integer digits ended.
pub open spec fn scan_fraction(text: Seq<char>, start: Location, i: int) -> Result<
    Location,
    MomoaError,
> {
    if i < text.len() && text[i] == '.' {
        if i + 1 >= text.len() {
            Err(
                MomoaError::UnexpectedEndOfInput {
                    loc: start.spec_advance((i + 1 - start.offset) as nat),
                },
            )
        } else if !is_digit(text[i + 1]) {
            Err(
                MomoaError::UnexpectedCharacter {
                    c: text[i + 1],
                    loc: start.spec_advance((i + 1 - start.offset) as nat),
                },
            )
        } else {
            scan_exponent(text, start, digits_end(text, i + 1))
        }
    } else {
        scan_exponent(text, start, i)
    }
}

/// The span of a number token beginning at `start`: an optional `-`, one
/// leading digit where a leading zero must not be followed by another digit,
/// further digits, then the optional fraction and exponent parts.
pub open spec fn scan_number(text: Seq<char>, start: Location) -> Result<Location, MomoaError> {
    let s = start.offset as int;
    let i = if s < text.len() && text[s] == '-' {
        s + 1
    } else {
        s
    };
    if i >= text.len() {
        Err(MomoaError::UnexpectedEndOfInput { loc: start.spec_advance((i - s) as nat) })
    } else if !is_digit(text[i]) {
        Err(MomoaError::UnexpectedCharacter { c: text[i], loc: start.spec_advance((i - s) as nat) })
    } else {
        let digits = digits_end(text, i + 1);
        if text[i] == '0' && digits > i + 1 {
            // a leading zero must stand alone; the error names the second
            // digit, at its own position
            Err(
                MomoaError::UnexpectedCharacter {
                    c: text[i + 1],
                    loc: start.spec_advance((i + 1 - s) as nat),
                },
            )
        } else {
            scan_fraction(text, start, digits)
        }
    }
}

/// The characters that may follow a backslash in a string, besides `u`.
pub open spec fn is_simple_escape(c: char) -> bool {
    c == '"' || c == '\\' || c == '/' || c == 'b' || c == 'f' || c == 'n' || c == 'r' || c == 't'
}

/// An escape sequence inside a string: `consumed` characters of the token
/// (including the opening quote and the backslash) lie behind us and the
/// character naming the escape is next.
pub open spec fn scan_escape(text: Seq<char>, start: Location, consumed: int) -> Result<
    Location,
    MomoaError,
>
    decreases text.len() - start.offset - consumed, 1int,
{
    let i = start.offset + consumed;
    if i >= text.len() {
        Err(MomoaError::UnexpectedEndOfInput { loc: start.spec_advance(consumed as nat) })
    } else if is_simple_escape(text[i]) {
        scan_string_tail(text, start, consumed + 1)
    } else if text[i] == 'u' {
        // exactly four hexadecimal digits, each validated at its own position
        if i + 1 >= text.len() {
            Err(MomoaError::UnexpectedEndOfInput { loc: start.spec_advance((consumed + 1) as nat) })
        } else if !is_hex_digit(text[i + 1]) {
            Err(
                MomoaError::UnexpectedCharacter {
                    c: text[i + 1],
                    loc: start.spec_advance((consumed + 1) as nat),
                },
            )
        } else if i + 2 >= text.len() {
            Err(MomoaError::UnexpectedEndOfInput { loc: start.spec_advance((consumed + 2) as nat) })
        } else if !is_hex_digit(text[i + 2]) {
            Err(
                MomoaError::UnexpectedCharacter {
                    c: text[i + 2],
                    loc: start.spec_advance((consumed + 2) as nat),
                },
            )
        } else if i + 3 >= text.len() {
            Err(MomoaError::UnexpectedEndOfInput { loc: start.spec_advance((consumed + 3) as nat) })
        } else if !is_hex_digit(text[i + 3]) {
            Err(
                MomoaError::UnexpectedCharacter {
                    c: text[i + 3],
                    loc: start.spec_advance((consumed + 3) as nat),
                },
            )
        } else if i + 4 >= text.len() {
            Err(MomoaError::UnexpectedEndOfInput { loc: start.spec_advance((consumed + 4) as nat) })
        } else if !is_hex_digit(text[i + 4]) {
            Err(
                MomoaError::UnexpectedCharacter {
                    c: text[i + 4],
                    loc: start.spec_advance((consumed + 4) as nat),
                },
            )
        } else {
            scan_string_tail(text, start, consumed + 5)
        }
    } else {
        Err(
            MomoaError::UnexpectedCharacter {
                c: text[i],
                loc: start.spec_advance(consumed as nat),
            },
        )
    }
}

/// The inside of a string token: `consumed` characters (including the
/// opening quote) lie behind us; scanning continues to the matching
/// unescaped closing quote. Exhausting the input first is an error at the
/// position reached.
pub open spec fn scan_string_tail(text: Seq<char>, start: Location, consumed: int) -> Result<
    Location,
    MomoaError,
>
    decreases text.len() - start.offset - consumed, 0int,
{
    let i = start.offset + consumed;
    if i >= text.len() {
        Err(MomoaError::UnexpectedEndOfInput { loc: start.spec_advance(consumed as nat) })
    } else if text[i] == '"' {
        Ok(start.spec_advance((consumed + 1) as nat))
    } else if text[i] == '\\' {
        scan_escape(text, start, consumed + 1)
    } else {
        scan_string_tail(text, start, consumed + 1)
    }
}

/// The span of a string token beginning at `start`, which must hold the
/// opening quote.
pub open spec fn scan_string(text: Seq<char>, start: Location) -> Result<Location, MomoaError> {
    let i = start.offset as int;
    if i >= text.len() {
        Err(MomoaError::UnexpectedEndOfInput { loc: start })
    } else if text[i] != '"' {
        Err(MomoaError::UnexpectedCharacter { c: text[i], loc: start })
    } else {
        scan_string_tail(text, start, 1)
    }
}

/// The first index at or after `i` that holds a newline, or the text's end.
pub open spec fn line_comment_end(text: Seq<char>, i: int) -> int
    decreases text.len() - i,
{
    if i < text.len() && text[i] != '\n' {
        line_comment_end(text, i + 1)
    } else {
        i
    }
}

pub proof fn lemma_line_comment_end(text: Seq<char>, i: int)
    requires
        0 <= i <= text.len(),
    ensures
        i <= line_comment_end(text, i) <= text.len(),
    decreases text.len() - i,
{
    if i < text.len() && text[i] != '\n' {
        lemma_line_comment_end(text, i + 1);
    }
}

/// The span of a line comment beginning at `start`, which must hold `//`:
/// everything through, but not including, the terminating newline or the
/// text's end.
pub open spec fn scan_line_comment(text: Seq<char>, start: Location) -> Result<
    Location,
    MomoaError,
> {
    Ok(start.spec_advance((line_comment_end(text, start.offset + 2) - start.offset) as nat))
}

/// The inside of a block comment. `cc` is the cursor at the start of the
/// comment's current line, `len` counts the characters consumed since `cc`,
/// and `last_nl` says whether the last consumed character was a newline: the
/// newline is still the last column of its line, and the move to the next
/// line is applied only once the character after it is also processed.
pub open spec fn scan_block_tail(
    text: Seq<char>,
    cc: Location,
    len: int,
    last_nl: bool,
) -> Result<Location, MomoaError>
    decreases text.len() - cc.offset - len,
        when 0 <= len && cc.offset + len <= text.len() && text.len() <= usize::MAX
{
    let i = cc.offset + len;
    if i >= text.len() {
        Err(MomoaError::UnexpectedEndOfInput { loc: cc.spec_advance(len as nat) })
    } else {
        let c = text[i];
        let cc2 = if last_nl {
            cc.spec_advance_and_new_line(len as nat)
        } else {
            cc
        };
        let len2 = if last_nl {
            1int
        } else {
            len + 1
        };
        if c == '*' {
            if i + 1 < text.len() && text[i + 1] == '/' {
                Ok(cc2.spec_advance((len2 + 1) as nat))
            } else if i + 1 >= text.len() {
                Err(MomoaError::UnexpectedEndOfInput { loc: cc2.spec_advance(len2 as nat) })
            } else {
                scan_block_tail(text, cc2, len2, false)
            }
        } else {
            scan_block_tail(text, cc2, len2, c == '\n')
        }
    }
}

/// The span of a block comment beginning at `start`, which must hold `/*`:
/// everything through the matching `*/`, with line and column bookkeeping
/// for every newline inside.
pub open spec fn scan_block_comment(text: Seq<char>, start: Location) -> Result<
    Location,
    MomoaError,
> {
    scan_block_tail(text, start, 2, false)
}

/// A successful keyword scan ends exactly one word past its start, inside
/// the text, on the same line.
pub proof fn lemma_scan_keyword_ok(text: Seq<char>, word: Seq<char>, start: Location, matched: int)
    requires
        start.wf(text.len()),
        text.len() < usize::MAX,
        0 <= matched <= word.len(),
        start.offset + matched <= text.len(),
    ensures
        scan_keyword_from(text, word, start, matched) matches Ok(end) ==> {
            &&& end == start.spec_advance(word.len())
            &&& start.offset + word.len() <= text.len()
            &&& end.wf(text.len())
            &&& end.line == start.line
        },
    decreases word.len() - matched,
{
    if matched < word.len() {
        let i = start.offset + matched;
        if i < text.len() && text[i] == word[matched as int] {
            lemma_scan_keyword_ok(text, word, start, matched + 1);
        }
    }
}

/// A successful number scan consumes at least one character, stays inside
/// the text and stays on its line.
pub proof fn lemma_scan_number_ok(text: Seq<char>, start: Location)
    requires
        start.wf(text.len()),
        text.len() < usize::MAX,
    ensures
        scan_number(text, start) matches Ok(end) ==> {
            &&& start.offset < end.offset <= text.len()
            &&& end.wf(text.len())
            &&& end.line == start.line
            &&& end.column - start.column == end.offset - start.offset
        },
{
    let s = start.offset as int;
    let i = if s < text.len() && text[s] == '-' {
        s + 1
    } else {
        s
    };
    if i < text.len() && is_digit(text[i]) {
        lemma_digits_end(text, i + 1);
        let digits = digits_end(text, i + 1);
        if !(text[i] == '0' && digits > i + 1) {
            let j = if digits < text.len() && text[digits] == '.' && digits + 1 < text.len()
                && is_digit(text[digits + 1]) {
                lemma_digits_end(text, digits + 1);
                digits_end(text, digits + 1)
            } else {
                digits
            };
            if j < text.len() && (text[j] == 'e' || text[j] == 'E') {
                let k = if j + 1 < text.len() && (text[j + 1] == '+' || text[j + 1] == '-') {
                    j + 2
                } else {
                    j + 1
                };
                if k < text.len() && is_digit(text[k]) {
                    lemma_digits_end(text, k);
                }
            }
        }
    }
}

/// A successful string scan ends past its start, inside the text, on the
/// same line.
pub proof fn lemma_scan_string_tail_ok(text: Seq<char>, start: Location, consumed: int)
    requires
        start.wf(text.len()),
        text.len() < usize::MAX,
        1 <= consumed,
        start.offset + consumed <= text.len(),
    ensures
        scan_string_tail(text, start, consumed) matches Ok(end) ==> {
            &&& start.offset + consumed < end.offset <= text.len()
            &&& end.wf(text.len())
            &&& end.line == start.line
            &&& end.column - start.column == end.offset - start.offset
        },
    decreases text.len() - start.offset - consumed,
{
    let i = start.offset + consumed;
    if i < text.len() {
        if text[i] == '"' {
        } else if text[i] == '\\' {
            assert(scan_string_tail(text, start, consumed) == scan_escape(
                text,
                start,
                consumed + 1,
            ));
            let j = i + 1;
            if j < text.len() {
                if is_simple_escape(text[j]) {
                    lemma_scan_string_tail_ok(text, start, consumed + 2);
                } else if text[j] == 'u' {
                    if j + 4 < text.len() && is_hex_digit(text[j + 1]) && is_hex_digit(text[j + 2])
                        && is_hex_digit(text[j + 3]) && is_hex_digit(text[j + 4]) {
                        lemma_scan_string_tail_ok(text, start, consumed + 6);
                    }
                }
            }
        } else {
            lemma_scan_string_tail_ok(text, start, consumed + 1);
        }
    }
}

/// A line comment scan always succeeds and ends past its start, inside the
/// text, on the same line.
pub proof fn lemma_scan_line_comment_ok(text: Seq<char>, start: Location)
    requires
        start.wf(text.len()),
        text.len() < usize::MAX,
        start.offset + 2 <= text.len(),
    ensures
        scan_line_comment(text, start) matches Ok(end) ==> {
            &&& start.offset < end.offset <= text.len()
            &&& end.wf(text.len())
            &&& end.line == start.line
            &&& end.column - start.column == end.offset - start.offset
        },
{
    lemma_line_comment_end(text, start.offset + 2);
}

/// A successful block comment scan ends past the scanned prefix and inside
/// the text.
pub proof fn lemma_scan_block_tail_ok(text: Seq<char>, cc: Location, len: int, last_nl: bool)
    requires
        cc.wf(text.len()),
        text.len() < usize::MAX,
        1 <= len,
        cc.offset + len <= text.len(),
    ensures
        scan_block_tail(text, cc, len, last_nl) matches Ok(end) ==> {
            &&& cc.offset + len < end.offset <= text.len()
            &&& end.wf(text.len())
        },
    decreases text.len() - cc.offset - len,
{
    let i = cc.offset + len;
    if i < text.len() {
        let c = text[i];
        let cc2 = if last_nl {
            cc.spec_advance_and_new_line(len as nat)
        } else {
            cc
        };
        let len2 = if last_nl {
            1int
        } else {
            len + 1
        };
        if c == '*' {
            if i + 1 < text.len() && text[i + 1] == '/' {
            } else if i + 1 < text.len() {
                lemma_scan_block_tail_ok(text, cc2, len2, false);
            }
        } else {
            lemma_scan_block_tail_ok(text, cc2, len2, c == '\n');
        }
    }
}

pub fn exec_is_digit(c: char) -> (r: bool)
    ensures
        r == is_digit(c),
{
    '0' <= c && c <= '9'
}

pub fn exec_is_hex_digit(c: char) -> (r: bool)
    ensures
        r == is_hex_digit(c),
{
    ('0' <= c && c <= '9') || ('a' <= c && c <= 'f') || ('A' <= c && c <= 'F')
}

pub fn exec_is_simple_escape(c: char) -> (r: bool)
    ensures
        r == is_simple_escape(c),
{
    c == '"' || c == '\\' || c == '/' || c == 'b' || c == 'f' || c == 'n' || c == 'r' || c == 't'
}

/// Scans a string token at `cursor`, which must hold the opening quote:
/// validates every escape sequence and finds the matching closing quote.
/// Decoding happens later, in the parser; this only measures the span.
pub fn read_string(text: &Vec<char>, cursor: &Location) -> (r: Result<Location, MomoaError>)
    requires
        cursor.wf(text@.len()),
        text@.len() < usize::MAX,
    ensures
        r == scan_string(text@, *cursor),
{
    let n = text.len();
    let s = cursor.offset;
    if s >= n {
        return Err(MomoaError::UnexpectedEndOfInput { loc: *cursor });
    }
    if text[s] != '"' {
        return Err(MomoaError::UnexpectedCharacter { c: text[s], loc: *cursor });
    }
    let mut len: usize = 1;
    loop
        invariant
            cursor.wf(text@.len()),
            n == text@.len(),
            n < usize::MAX,
            s == cursor.offset,
            1 <= len,
            s + len <= n,
            scan_string(text@, *cursor) == scan_string_tail(text@, *cursor, len as int),
        decreases n - s - len,
    {
        let i = s + len;
        if i >= n {
            return Err(MomoaError::UnexpectedEndOfInput { loc: cursor.advance(len) });
        }
        let c = text[i];
        if c == '"' {
            return Ok(cursor.advance(len + 1));
        }
        if c == '\\' {
            let j = i + 1;
            if j >= n {
                return Err(MomoaError::UnexpectedEndOfInput { loc: cursor.advance(len + 1) });
            }
            let e = text[j];
            proof {
                assert(scan_string_tail(text@, *cursor, len as int) == scan_escape(
                    text@,
                    *cursor,
                    len as int + 1,
                ));
            }
            if exec_is_simple_escape(e) {
                len = len + 2;
            } else if e == 'u' {
                // exactly four hexadecimal digits must follow
                if j + 1 >= n {
                    return Err(
                        MomoaError::UnexpectedEndOfInput { loc: cursor.advance(len + 2) },
                    );
                }
                if !exec_is_hex_digit(text[j + 1]) {
                    return Err(
                        MomoaError::UnexpectedCharacter {
                            c: text[j + 1],
                            loc: cursor.advance(len + 2),
                        },
                    );
                }
                if j + 2 >= n {
                    return Err(
                        MomoaError::UnexpectedEndOfInput { loc: cursor.advance(len + 3) },
                    );
                }
                if !exec_is_hex_digit(text[j + 2]) {
                    return Err(
                        MomoaError::UnexpectedCharacter {
                            c: text[j + 2],
                            loc: cursor.advance(len + 3),
                        },
                    );
                }
                if j + 3 >= n {
                    return Err(
                        MomoaError::UnexpectedEndOfInput { loc: cursor.advance(len + 4) },
                    );
                }
                if !exec_is_hex_digit(text[j + 3]) {
                    return Err(
                        MomoaError::UnexpectedCharacter {
                            c: text[j + 3],
                            loc: cursor.advance(len + 4),
                        },
                    );
                }
                if j + 4 >= n {
                    return Err(
                        MomoaError::UnexpectedEndOfInput { loc: cursor.advance(len + 5) },
                    );
                }
                if !exec_is_hex_digit(text[j + 4]) {
                    return Err(
                        MomoaError::UnexpectedCharacter {
                            c: text[j + 4],
                            loc: cursor.advance(len + 5),
                        },
                    );
                }
                len = len + 6;
            } else {
                return Err(
                    MomoaError::UnexpectedCharacter { c: e, loc: cursor.advance(len + 1) },
                );
            }
        } else {
            len = len + 1;
        }
    }
}

/// Advances over a run of decimal digits, returning the first index past it.
pub fn skip_digits(text: &Vec<char>, from: usize) -> (r: usize)
    requires
        from <= text@.len(),
    ensures
        r == digits_end(text@, from as int),
        from <= r <= text@.len(),
{
    let n = text.len();
    let mut j = from;
    loop
        invariant
            from <= j <= n,
            n == text@.len(),
            digits_end(text@, from as int) == digits_end(text@, j as int),
        decreases n - j,
    {
        if j < n && exec_is_digit(text[j]) {
            j = j + 1;
        } else {
            return j;
        }
    }
}

/// Scans a number token at `cursor`: an optional `-`, digits with the
/// leading-zero restriction, and optional fraction and exponent parts.
pub fn read_number(text: &Vec<char>, cursor: &Location) -> (r: Result<Location, MomoaError>)
    requires
        cursor.wf(text@.len()),
        text@.len() < usize::MAX,
    ensures
        r == scan_number(text@, *cursor),
{
    let n = text.len();
    let s = cursor.offset;
    let mut i = s;

    // optional leading minus
    if i < n && text[i] == '-' {
        i = i + 1;
    }

    // one leading digit is required
    if i >= n {
        return Err(MomoaError::UnexpectedEndOfInput { loc: cursor.advance(i - s) });
    }
    if !exec_is_digit(text[i]) {
        return Err(MomoaError::UnexpectedCharacter { c: text[i], loc: cursor.advance(i - s) });
    }
    let first_zero = text[i] == '0';
    let digits = skip_digits(text, i + 1);
    if first_zero && digits > i + 1 {
        return Err(
            MomoaError::UnexpectedCharacter { c: text[i + 1], loc: cursor.advance(i + 1 - s) },
        );
    }

    // optional fraction: a dot must be followed by at least one digit
    let mut j = digits;
    if j < n && text[j] == '.' {
        if j + 1 >= n {
            return Err(MomoaError::UnexpectedEndOfInput { loc: cursor.advance(j + 1 - s) });
        }
        if !exec_is_digit(text[j + 1]) {
            return Err(
                MomoaError::UnexpectedCharacter { c: text[j + 1], loc: cursor.advance(j + 1 - s) },
            );
        }
        j = skip_digits(text, j + 1);
    }

    // optional exponent: e/E, an optional sign, then at least one digit
    if j < n && (text[j] == 'e' || text[j] == 'E') {
        let mut k = j + 1;
        if k < n && (text[k] == '+' || text[k] == '-') {
            k = k + 1;
        }
        if k >= n {
            return Err(MomoaError::UnexpectedEndOfInput { loc: cursor.advance(k - s) });
        }
        if !exec_is_digit(text[k]) {
            return Err(MomoaError::UnexpectedCharacter { c: text[k], loc: cursor.advance(k - s) });
        }
        let e = skip_digits(text, k);
        return Ok(cursor.advance(e - s));
    }

    Ok(cursor.advance(j - s))
}

/// Scans a line comment at `cursor`, which must hold `//`: consumes through
/// but not including the terminating newline, or to the text's end.
pub fn read_line_comment(text: &Vec<char>, cursor: &Location) -> (r: Result<Location, MomoaError>)
    requires
        cursor.wf(text@.len()),
        text@.len() < usize::MAX,
        cursor.offset + 2 <= text@.len(),
    ensures
        r == scan_line_comment(text@, *cursor),
{
    let n = text.len();
    let s = cursor.offset;
    let mut j = s + 2;
    loop
        invariant
            cursor.wf(text@.len()),
            n == text@.len(),
            n < usize::MAX,
            s == cursor.offset,
            s + 2 <= j <= n,
            line_comment_end(text@, s + 2) == line_comment_end(text@, j as int),
        decreases n - j,
    {
        if j < n && text[j] != '\n' {
            j = j + 1;
        } else {
            return Ok(cursor.advance(j - s));
        }
    }
}

/// Scans a block comment at `cursor`, which must hold `/*`: consumes through
/// the matching `*/`, moving the line bookkeeping exactly one character
/// after each newline inside.
pub fn read_block_comment(text: &Vec<char>, cursor: &Location) -> (r: Result<Location, MomoaError>)
    requires
        cursor.wf(text@.len()),
        text@.len() < usize::MAX,
        cursor.offset + 2 <= text@.len(),
    ensures
        r == scan_block_comment(text@, *cursor),
{
    let n = text.len();
    let mut cc = *cursor;
    let mut len: usize = 2;
    let mut last_nl = false;
    loop
        invariant
            cc.wf(text@.len()),
            n == text@.len(),
            n < usize::MAX,
            1 <= len,
            cc.offset + len <= n,
            scan_block_comment(text@, *cursor) == scan_block_tail(
                text@,
                cc,
                len as int,
                last_nl,
            ),
        decreases n - cc.offset - len,
    {
        let i = cc.offset + len;
        if i >= n {
            return Err(MomoaError::UnexpectedEndOfInput { loc: cc.advance(len) });
        }
        let c = text[i];
        let cc2 = if last_nl {
            cc.advance_and_new_line(len)
        } else {
            cc
        };
        let len2: usize = if last_nl {
            1
        } else {
            len + 1
        };
        if c == '*' {
            if i + 1 < n && text[i + 1] == '/' {
                return Ok(cc2.advance(len2 + 1));
            }
            if i + 1 >= n {
                return Err(MomoaError::UnexpectedEndOfInput { loc: cc2.advance(len2) });
            }
            cc = cc2;
            len = len2;
            last_nl = false;
        } else {
            cc = cc2;
            len = len2;
            last_nl = c == '\n';
        }
    }
}

/// Matches `word` against the text at `cursor`, returning the cursor past
/// the keyword, or the diagnostic at the first position that differs.
pub fn read_keyword(word: &Vec<char>, text: &Vec<char>, cursor: &Location) -> (r: Result<
    Location,
    MomoaError,
>)
    requires
        cursor.wf(text@.len()),
        text@.len() < usize::MAX,
    ensures
        r == scan_keyword(text@, word@, *cursor),
{
    let n = text.len();
    let mut matched: usize = 0;
    loop
        invariant
            cursor.wf(text@.len()),
            text@.len() < usize::MAX,
            n == text@.len(),
            0 <= matched <= word@.len(),
            cursor.offset + matched <= n,
            scan_keyword(text@, word@, *cursor) == scan_keyword_from(
                text@,
                word@,
                *cursor,
                matched as int,
            ),
        decreases word@.len() - matched,
    {
        if matched >= word.len() {
            return Ok(cursor.advance(word.len()));
        }
        let i = cursor.offset + matched;
        if i >= n {
            return Err(MomoaError::UnexpectedEndOfInput { loc: cursor.advance(matched) });
        }
        if text[i] != word[matched] {
            return Err(
                MomoaError::UnexpectedCharacter { c: text[i], loc: cursor.advance(matched) },
            );
        }
        matched = matched + 1;
    }
}

} // verus!
