//! Laws that hold of the whole pipeline, stated and proved over the same
//! spec functions the public functions' contracts use.
use vstd::prelude::*;

use crate::ast::{SpecMember, SpecNode};
use crate::errors::MomoaError;
use crate::location::{Location, LocationRange};
use crate::mode::Mode;
use crate::parse::{
    consume, decode_from, inner_lexeme, lemma_parse_value_advances, lemma_skip_comments,
    skip_comments, spec_parse, spec_parse_array, spec_parse_elements, spec_parse_members,
    spec_parse_object, spec_parse_value, PInput, PState, SpecDoc,
};
use crate::readers::{
    lemma_scan_keyword_ok, lemma_scan_number_ok, lemma_scan_string_tail_ok,
};
use crate::tokens::{
    false_word, lemma_scan_all_wf, lemma_spec_next_bounds, null_word, spec_next, spec_scan_all,
    start_location, token_wf, tokens_wf, true_word, LexStep, Token, TokenKind,
};

verus! {

/// The tokens of one scan sit one after another in the text.
pub open spec fn tokens_ordered(toks: Seq<Token>) -> bool {
    forall|i: int, j: int|
        0 <= i < j < toks.len() ==> #[trigger] toks[i].loc.end.offset
            <= #[trigger] toks[j].loc.start.offset
}

/// The lexer's tokens appear in source order, each beginning no earlier than
/// the one before it ended.
pub proof fn lemma_scan_all_ordered(text: Seq<char>, cur: Location, mode: Mode)
    requires
        cur.wf(text.len()),
        text.len() < usize::MAX,
    ensures
        tokens_ordered(spec_scan_all(text, cur, mode).0),
        forall|i: int|
            0 <= i < spec_scan_all(text, cur, mode).0.len() ==> cur.offset <= #[trigger] spec_scan_all(
                text,
                cur,
                mode,
            ).0[i].loc.start.offset,
    decreases text.len() - cur.offset,
{
    lemma_spec_next_bounds(text, cur, mode);
    match spec_next(text, cur, mode) {
        LexStep::End { cursor } => {},
        LexStep::Fail { err, cursor } => {},
        LexStep::Tok { token } => {
            lemma_scan_all_ordered(text, token.loc.end, mode);
            let rest = spec_scan_all(text, token.loc.end, mode).0;
            let all = spec_scan_all(text, cur, mode).0;
            assert(all == seq![token] + rest);
            assert forall|i: int|
                0 <= i < all.len() implies cur.offset <= #[trigger] all[i].loc.start.offset by {
                if i > 0 {
                    assert(all[i] == rest[i - 1]);
                }
            }
            assert forall|i: int, j: int|
                0 <= i < j < all.len() implies #[trigger] all[i].loc.end.offset
                <= #[trigger] all[j].loc.start.offset by {
                assert(all[j] == rest[j - 1]);
                if i > 0 {
                    assert(all[i] == rest[i - 1]);
                }
            }
        },
    }
}

/// Parser input whose token stream really came from a scan of its text.
pub open spec fn inp_wf(inp: PInput) -> bool {
    &&& inp.text.len() < usize::MAX
    &&& tokens_wf(inp.toks, inp.text.len())
    &&& tokens_ordered(inp.toks)
}

pub open spec fn loc_in(loc: LocationRange, text: Seq<char>) -> bool {
    loc.start.offset <= loc.end.offset <= text.len()
}

/// Every node's span lies inside the source text, and the text in the span
/// determines the node's decoded value: a number's lexeme is the span
/// itself, a boolean is true exactly when its span reads `true`, a string's
/// value is the decoding of the text between its quotes.
pub open spec fn spans_text(sn: SpecNode, text: Seq<char>) -> bool
    decreases sn, 0int,
{
    match sn {
        SpecNode::String { value, loc } => {
            &&& loc_in(loc, text)
            &&& loc.start.offset + 2 <= loc.end.offset
            &&& value == decode_from(
                text.subrange(loc.start.offset + 1, loc.end.offset - 1),
                0,
            )
        },
        SpecNode::Number { lexeme, loc } => {
            &&& loc_in(loc, text)
            &&& lexeme == text.subrange(loc.start.offset as int, loc.end.offset as int)
        },
        SpecNode::Boolean { value, loc } => {
            &&& loc_in(loc, text)
            &&& value == (text.subrange(loc.start.offset as int, loc.end.offset as int)
                == true_word())
        },
        SpecNode::Null { loc } => loc_in(loc, text),
        SpecNode::Array { elements, loc } => loc_in(loc, text) && elements_span_text(
            elements,
            text,
        ),
        SpecNode::Object { members, loc } => loc_in(loc, text) && members_span_text(
            members,
            text,
        ),
    }
}

pub open spec fn elements_span_text(s: Seq<SpecNode>, text: Seq<char>) -> bool
    decreases s, 1int,
{
    if s.len() == 0 {
        true
    } else {
        elements_span_text(s.drop_last(), text) && spans_text(s.last(), text)
    }
}

/// A member's span runs from its name's start to its value's end, both
/// inside the text, and its name decodes from the text between the name's
/// quotes.
pub open spec fn member_spans_text(m: SpecMember, text: Seq<char>) -> bool
    decreases m, 1int,
{
    &&& loc_in(m.name_loc, text)
    &&& m.name_loc.start.offset + 2 <= m.name_loc.end.offset
    &&& m.name_value == decode_from(
        text.subrange(m.name_loc.start.offset + 1, m.name_loc.end.offset - 1),
        0,
    )
    &&& m.loc == (LocationRange { start: m.name_loc.start, end: m.value.loc().end })
    &&& loc_in(m.loc, text)
    &&& spans_text(m.value, text)
}

pub open spec fn members_span_text(s: Seq<SpecMember>, text: Seq<char>) -> bool
    decreases s, 2int,
{
    if s.len() == 0 {
        true
    } else {
        members_span_text(s.drop_last(), text) && member_spans_text(s.last(), text)
    }
}

/// A successful value parse yields a node whose spans all lie in the text
/// and whose scalar values the text determines; the node begins at the first
/// non-comment token and ends at the last consumed one.
proof fn lemma_value_spans(inp: PInput, st: PState)
    requires
        inp_wf(inp),
        0 <= st.pos <= inp.toks.len(),
    ensures
        spec_parse_value(inp, st) matches Ok((v, st2)) ==> {
            &&& spans_text(v, inp.text)
            &&& st.pos <= st2.pos - 1 < inp.toks.len()
            &&& v.loc() == (LocationRange {
                start: inp.toks[skip_comments(inp.toks, st).pos].loc.start,
                end: inp.toks[st2.pos - 1].loc.end,
            })
        },
    decreases inp.toks.len() - st.pos, 2int,
{
    lemma_skip_comments(inp.toks, st);
    lemma_parse_value_advances(inp, st);
    let st1 = skip_comments(inp.toks, st);
    if st1.pos < inp.toks.len() {
        let t = inp.toks[st1.pos];
        assert(token_wf(t, inp.text.len()));
        if t.kind is LBrace {
            lemma_object_spans(inp, st1);
        } else if t.kind is LBracket {
            lemma_array_spans(inp, st1);
        }
    }
}

proof fn lemma_array_spans(inp: PInput, st: PState)
    requires
        inp_wf(inp),
        0 <= st.pos <= inp.toks.len(),
    ensures
        spec_parse_array(inp, st) matches Ok((v, st2)) ==> {
            &&& spans_text(v, inp.text)
            &&& st.pos <= st2.pos - 1 < inp.toks.len()
            &&& v.loc() == (LocationRange {
                start: inp.toks[st.pos].loc.start,
                end: inp.toks[st2.pos - 1].loc.end,
            })
        },
    decreases inp.toks.len() - st.pos, 1int,
{
    if 0 <= st.pos < inp.toks.len() && inp.toks[st.pos].kind is LBracket {
        let lb = inp.toks[st.pos];
        assert(token_wf(lb, inp.text.len()));
        assert forall|k: int|
            st.pos + 1 <= k < inp.toks.len() implies lb.loc.start.offset
            <= #[trigger] inp.toks[k].loc.start.offset by {
            assert(inp.toks[st.pos].loc.end.offset <= inp.toks[k].loc.start.offset);
        }
        lemma_elements_spans(inp, consume(inp.toks, st), Seq::empty(), lb.loc.start, false);
    }
}

proof fn lemma_object_spans(inp: PInput, st: PState)
    requires
        inp_wf(inp),
        0 <= st.pos <= inp.toks.len(),
    ensures
        spec_parse_object(inp, st) matches Ok((v, st2)) ==> {
            &&& spans_text(v, inp.text)
            &&& st.pos <= st2.pos - 1 < inp.toks.len()
            &&& v.loc() == (LocationRange {
                start: inp.toks[st.pos].loc.start,
                end: inp.toks[st2.pos - 1].loc.end,
            })
        },
    decreases inp.toks.len() - st.pos, 1int,
{
    if 0 <= st.pos < inp.toks.len() && inp.toks[st.pos].kind is LBrace {
        let lb = inp.toks[st.pos];
        assert(token_wf(lb, inp.text.len()));
        assert forall|k: int|
            st.pos + 1 <= k < inp.toks.len() implies lb.loc.start.offset
            <= #[trigger] inp.toks[k].loc.start.offset by {
            assert(inp.toks[st.pos].loc.end.offset <= inp.toks[k].loc.start.offset);
        }
        lemma_members_spans(inp, consume(inp.toks, st), Seq::empty(), lb.loc.start, false);
    }
}

proof fn lemma_elements_spans(
    inp: PInput,
    st: PState,
    acc: Seq<SpecNode>,
    start: Location,
    dangle: bool,
)
    requires
        inp_wf(inp),
        0 <= st.pos <= inp.toks.len(),
        elements_span_text(acc, inp.text),
        forall|k: int|
            st.pos <= k < inp.toks.len() ==> start.offset <= #[trigger] inp.toks[k].loc.start.offset,
    ensures
        spec_parse_elements(inp, st, acc, start, dangle) matches Ok((v, st2)) ==> {
            &&& spans_text(v, inp.text)
            &&& st.pos <= st2.pos - 1 < inp.toks.len()
            &&& v.loc() == (LocationRange { start, end: inp.toks[st2.pos - 1].loc.end })
        },
    decreases inp.toks.len() - st.pos, 3int,
{
    lemma_skip_comments(inp.toks, st);
    let st1 = skip_comments(inp.toks, st);
    if st1.pos < inp.toks.len() {
        let t = inp.toks[st1.pos];
        assert(token_wf(t, inp.text.len()));
        if t.kind is Comma || t.kind is RBracket {
        } else {
            lemma_value_spans(inp, st1);
            lemma_parse_value_advances(inp, st1);
            if let Ok((v, st2)) = spec_parse_value(inp, st1) {
                let acc2 = acc.push(v);
                assert(acc2.drop_last() =~= acc);
                assert(elements_span_text(acc2, inp.text));
                lemma_skip_comments(inp.toks, st2);
                let st3 = skip_comments(inp.toks, st2);
                if st3.pos < inp.toks.len() {
                    assert(token_wf(inp.toks[st3.pos], inp.text.len()));
                    if inp.toks[st3.pos].kind is Comma {
                        lemma_elements_spans(inp, consume(inp.toks, st3), acc2, start, true);
                    }
                }
            }
        }
    }
}

proof fn lemma_members_spans(
    inp: PInput,
    st: PState,
    acc: Seq<SpecMember>,
    start: Location,
    dangle: bool,
)
    requires
        inp_wf(inp),
        0 <= st.pos <= inp.toks.len(),
        members_span_text(acc, inp.text),
        forall|k: int|
            st.pos <= k < inp.toks.len() ==> start.offset <= #[trigger] inp.toks[k].loc.start.offset,
    ensures
        spec_parse_members(inp, st, acc, start, dangle) matches Ok((v, st2)) ==> {
            &&& spans_text(v, inp.text)
            &&& st.pos <= st2.pos - 1 < inp.toks.len()
            &&& v.loc() == (LocationRange { start, end: inp.toks[st2.pos - 1].loc.end })
        },
    decreases inp.toks.len() - st.pos, 3int,
{
    lemma_skip_comments(inp.toks, st);
    let st1 = skip_comments(inp.toks, st);
    if st1.pos < inp.toks.len() {
        let t = inp.toks[st1.pos];
        assert(token_wf(t, inp.text.len()));
        if t.kind is Comma || t.kind is RBrace || !(t.kind is String) {
        } else {
            let name_tok = t;
            let st2 = consume(inp.toks, st1);
            if st2.pos < inp.toks.len() && inp.toks[st2.pos].kind is Colon {
                let st3 = consume(inp.toks, st2);
                lemma_value_spans(inp, st3);
                lemma_parse_value_advances(inp, st3);
                if let Ok((v, st4)) = spec_parse_value(inp, st3) {
                    let m = SpecMember {
                        name_value: decode_from(inner_lexeme(inp.text, name_tok), 0),
                        name_loc: name_tok.loc,
                        value: v,
                        loc: LocationRange { start: name_tok.loc.start, end: v.loc().end },
                    };
                    // the member's span: the name begins no later than the
                    // value's last token ends
                    assert(v.loc().end == inp.toks[st4.pos - 1].loc.end);
                    assert(inp.toks[st1.pos].loc.end.offset <= inp.toks[st4.pos
                        - 1].loc.start.offset);
                    assert(token_wf(inp.toks[st4.pos - 1], inp.text.len()));
                    assert(member_spans_text(m, inp.text));
                    let acc2 = acc.push(m);
                    assert(acc2.drop_last() =~= acc);
                    assert(members_span_text(acc2, inp.text));
                    lemma_skip_comments(inp.toks, st4);
                    let st5 = skip_comments(inp.toks, st4);
                    if st5.pos < inp.toks.len() {
                        assert(token_wf(inp.toks[st5.pos], inp.text.len()));
                        if inp.toks[st5.pos].kind is Comma {
                            lemma_members_spans(inp, consume(inp.toks, st5), acc2, start, true);
                        }
                    }
                }
            }
        }
    }
}

/// Round-tripping locations: every node of a parsed document carries a span
/// that lies inside the source text and reconstructs it — a number's lexeme
/// is exactly the text in its span, a string's value is the decoding of the
/// text between its quotes, a boolean is true exactly when its span reads
/// `true` — and the document's own span covers the whole input.
pub proof fn lemma_parse_spans_text(text: Seq<char>, mode: Mode, allow_trailing: bool)
    requires
        text.len() < usize::MAX,
    ensures
        spec_parse(text, mode, allow_trailing) matches Ok(sd) ==> {
            &&& spans_text(sd.body, text)
            &&& sd.loc.start == start_location()
            &&& sd.loc.end.offset == text.len()
        },
{
    lemma_scan_all_wf(text, start_location(), mode);
    lemma_scan_all_ordered(text, start_location(), mode);
    let (toks, lexerr) = spec_scan_all(text, start_location(), mode);
    let inp = PInput { text, toks, lexerr, allow_trailing };
    lemma_value_spans(inp, PState { pos: 0, last: start_location() });
}

/// A scalar document: whenever the input text is exactly one scalar token —
/// boolean, number, string or null — parsing yields a document whose body
/// spans the whole input: offsets 0 to the text's length, columns 1 to one
/// past its length, on line 1.
pub proof fn lemma_scalar_document_location(
    text: Seq<char>,
    mode: Mode,
    allow_trailing: bool,
    t: Token,
)
    requires
        text.len() < usize::MAX,
        spec_next(text, start_location(), mode) == (LexStep::Tok { token: t }),
        t.kind is Boolean || t.kind is Number || t.kind is String || t.kind is Null,
        t.loc.start == start_location(),
        t.loc.end.offset == text.len(),
    ensures
        spec_parse(text, mode, allow_trailing) matches Ok(sd) && sd.body.loc() == (LocationRange {
            start: start_location(),
            end: Location {
                line: 1,
                column: (text.len() + 1) as usize,
                offset: text.len() as usize,
            },
        }),
{
    let start = start_location();
    lemma_spec_next_bounds(text, start, mode);

    // the input is not empty, and its first character dispatches the scalar
    assert(text.len() > 0);
    let c = text[0];

    // the token ends on line 1, one column past the text
    if c == ' ' || c == '\t' || c == '\r' {
        lemma_spec_next_bounds(text, start.spec_advance(1), mode);
        assert(false);
    } else if c == '\n' {
        lemma_spec_next_bounds(text, start.spec_advance_new_line(), mode);
        assert(false);
    } else if c == '-' || crate::readers::is_digit(c) {
        lemma_scan_number_ok(text, start);
    } else if c == '[' || c == ']' || c == '{' || c == '}' || c == ',' || c == ':' {
        assert(false);
    } else if c == '"' {
        lemma_scan_string_tail_ok(text, start, 1);
    } else if c == 'n' {
        lemma_scan_keyword_ok(text, null_word(), start, 0);
    } else if c == 't' {
        lemma_scan_keyword_ok(text, true_word(), start, 0);
    } else if c == 'f' {
        lemma_scan_keyword_ok(text, false_word(), start, 0);
    } else {
        assert(false);
    }
    assert(t.loc.end == Location {
        line: 1,
        column: (text.len() + 1) as usize,
        offset: text.len() as usize,
    });

    // the scan yields exactly this one token
    assert(spec_next(text, t.loc.end, mode) == (LexStep::End { cursor: t.loc.end }));
    assert(spec_scan_all(text, t.loc.end, mode) == (Seq::<Token>::empty(), None::<MomoaError>));
    let toks = spec_scan_all(text, start, mode).0;
    assert(toks =~= seq![t]);
    assert(spec_scan_all(text, start, mode).1 is None);

    // the parse consumes it as the document's body
    let inp = PInput { text, toks: seq![t], lexerr: None, allow_trailing };
    let st0 = PState { pos: 0, last: start };
    assert(skip_comments(seq![t], st0) == st0);
    let parsed = spec_parse_value(inp, st0);
    assert(parsed matches Ok(p) && p.0.loc() == t.loc && p.1.pos == 1);
    assert(skip_comments(seq![t], PState { pos: 1, last: t.loc.start }) == (PState {
        pos: 1,
        last: t.loc.start,
    }));
}

/// A dangling leading comma is always rejected: in either dialect and
/// whatever the trailing-comma configuration, parsing `[,]` fails with an
/// unexpected-token diagnostic naming the comma, at line 1, column 2.
pub proof fn lemma_leading_comma_rejected(mode: Mode, allow_trailing: bool)
    ensures
        spec_parse(seq!['[', ',', ']'], mode, allow_trailing) == Err::<SpecDoc, MomoaError>(
            MomoaError::UnexpectedToken {
                unexpected: TokenKind::Comma,
                loc: Location { line: 1, column: 2, offset: 1 },
            },
        ),
{
    let text = seq!['[', ',', ']'];
    let l0 = Location { line: 1, column: 1, offset: 0 };
    let l1 = Location { line: 1, column: 2, offset: 1 };
    let l2 = Location { line: 1, column: 3, offset: 2 };
    let l3 = Location { line: 1, column: 4, offset: 3 };
    let t0 = Token { kind: TokenKind::LBracket, loc: LocationRange { start: l0, end: l1 } };
    let t1 = Token { kind: TokenKind::Comma, loc: LocationRange { start: l1, end: l2 } };
    let t2 = Token { kind: TokenKind::RBracket, loc: LocationRange { start: l2, end: l3 } };

    // the scan yields the three punctuation tokens
    assert(spec_next(text, l0, mode) == (LexStep::Tok { token: t0 }));
    assert(spec_next(text, l1, mode) == (LexStep::Tok { token: t1 }));
    assert(spec_next(text, l2, mode) == (LexStep::Tok { token: t2 }));
    assert(spec_next(text, l3, mode) == (LexStep::End { cursor: l3 }));
    assert(spec_scan_all(text, l3, mode) == (Seq::<Token>::empty(), None::<MomoaError>));
    let toks = spec_scan_all(text, l0, mode).0;
    assert(spec_scan_all(text, l2, mode).0 =~= seq![t2]);
    assert(spec_scan_all(text, l1, mode).0 =~= seq![t1, t2]);
    assert(toks =~= seq![t0, t1, t2]);
    assert(spec_scan_all(text, l0, mode).1 is None);

    // the parser opens the array and stops at the bare comma
    let inp = PInput { text, toks: seq![t0, t1, t2], lexerr: None, allow_trailing };
    let st0 = PState { pos: 0, last: start_location() };
    assert(skip_comments(seq![t0, t1, t2], st0) == st0);
    assert(skip_comments(seq![t0, t1, t2], PState { pos: 1, last: l0 }) == (PState {
        pos: 1,
        last: l0,
    }));
    assert(spec_parse_value(inp, st0) == Err::<(crate::ast::SpecNode, PState), MomoaError>(
        MomoaError::UnexpectedToken { unexpected: TokenKind::Comma, loc: l1 },
    ));
}

} // verus!

