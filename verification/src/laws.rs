//! The laws that tie the parser and the formatters together.
//!
//! - parsing undoes formatting: the plain or fragment form of any token
//!   sequence parses back to exactly those tokens;
//! - formatting undoes parsing: every string the plain parser accepts is
//!   reproduced byte for byte by the plain formatter;
//! - the plain parser accepts exactly the strings of the RFC 6901 grammar
//!   `(/ ([^/~] | ~[01])*)*`.

use vstd::prelude::*;
use vstd::utf8::*;

use crate::codec::body_grammar;
use crate::codec::escape;
use crate::codec::escape_byte;
use crate::codec::first_slash;
use crate::codec::frag_escape;
use crate::codec::frag_escape_byte;
use crate::codec::fragment_body;
use crate::codec::fragment_format;
use crate::codec::hex_digit_lower;
use crate::codec::hex_val;
use crate::codec::is_hex_digit;
use crate::codec::legal_fragment_byte;
use crate::codec::lemma_first_slash;
use crate::codec::lemma_first_slash_char;
use crate::codec::parse_body;
use crate::codec::parse_plain;
use crate::codec::parse_pointer;
use crate::codec::pct_decode;
use crate::codec::plain_format;
use crate::codec::plain_grammar;
use crate::codec::token_grammar;
use crate::codec::unescape;
use crate::codec::ParseError;
use crate::codec::HASH;
use crate::codec::PERCENT;
use crate::codec::SLASH;
use crate::codec::TILDE;

verus! {

/// No separator survives inside an escaped token.
proof fn lemma_escape_no_slash(t: Seq<u8>)
    ensures
        forall|i: int| 0 <= i < escape(t).len() ==> escape(t)[i] != SLASH,
    decreases t.len(),
{
    if t.len() > 0 {
        lemma_escape_no_slash(t.skip(1));
        assert forall|i: int| 0 <= i < escape(t).len() implies escape(t)[i] != SLASH by {
            let e0 = escape_byte(t[0]);
            if i < e0.len() {
                assert(escape(t)[i] == e0[i]);
            } else {
                assert(escape(t)[i] == escape(t.skip(1))[i - e0.len()]);
            }
        }
    }
}

/// Unescaping undoes escaping.
proof fn lemma_unescape_escape(t: Seq<u8>)
    ensures
        unescape(escape(t)) == Ok::<Seq<u8>, ParseError>(t),
    decreases t.len(),
{
    if t.len() == 0 {
        assert(t =~= Seq::<u8>::empty());
    } else {
        lemma_unescape_escape(t.skip(1));
        let e = escape(t);
        let e0 = escape_byte(t[0]);
        assert(e == e0 + escape(t.skip(1)));
        if t[0] == TILDE || t[0] == SLASH {
            assert(e[0] == TILDE);
            assert(e[1] == e0[1]);
            assert(e.skip(2) =~= escape(t.skip(1)));
            assert(seq![t[0]] + t.skip(1) =~= t);
        } else {
            assert(e[0] == t[0]);
            assert(e.skip(1) =~= escape(t.skip(1)));
            assert(seq![t[0]] + t.skip(1) =~= t);
        }
    }
}

/// Escaping undoes a successful unescape of a `/`-free segment.
proof fn lemma_escape_unescape(seg: Seq<u8>, t: Seq<u8>)
    requires
        unescape(seg) == Ok::<Seq<u8>, ParseError>(t),
        forall|i: int| 0 <= i < seg.len() ==> #[trigger] seg[i] != SLASH,
    ensures
        escape(t) == seg,
    decreases seg.len(),
{
    if seg.len() == 0 {
        assert(escape(t) =~= seg);
    } else if seg[0] == TILDE {
        assert(seg.len() >= 2 && (seg[1] == 0x30 || seg[1] == 0x31));
        let d: u8 = if seg[1] == 0x30 {
            TILDE
        } else {
            SLASH
        };
        match unescape(seg.skip(2)) {
            Ok(r) => {
                assert(t == seq![d] + r);
                assert(forall|i: int|
                    0 <= i < seg.skip(2).len() ==> #[trigger] seg.skip(2)[i] != SLASH);
                lemma_escape_unescape(seg.skip(2), r);
                assert(t[0] == d);
                assert(t.skip(1) =~= r);
                assert(escape(t) == escape_byte(d) + escape(r));
                assert(escape_byte(d) =~= seq![TILDE, seg[1]]);
                assert(escape(t) =~= seg);
            },
            Err(_) => {
                assert(false);
            },
        }
    } else {
        match unescape(seg.skip(1)) {
            Ok(r) => {
                assert(t == seq![seg[0]] + r);
                assert(forall|i: int|
                    0 <= i < seg.skip(1).len() ==> #[trigger] seg.skip(1)[i] != SLASH);
                lemma_escape_unescape(seg.skip(1), r);
                assert(t[0] == seg[0]);
                assert(t.skip(1) =~= r);
                assert(seg[0] != SLASH);
                assert(escape(t) == escape_byte(seg[0]) + escape(r));
                assert(escape_byte(seg[0]) =~= seq![seg[0]]);
                assert(escape(t) =~= seg);
            },
            Err(_) => {
                assert(false);
            },
        }
    }
}

/// A `/`-free segment unescapes exactly when it fits the token grammar.
proof fn lemma_unescape_grammar(seg: Seq<u8>)
    requires
        forall|i: int| 0 <= i < seg.len() ==> #[trigger] seg[i] != SLASH,
    ensures
        unescape(seg) is Ok <==> token_grammar(seg),
    decreases seg.len(),
{
    if seg.len() == 0 {
    } else if seg[0] == TILDE {
        if seg.len() >= 2 && (seg[1] == 0x30 || seg[1] == 0x31) {
            assert(forall|i: int|
                0 <= i < seg.skip(2).len() ==> #[trigger] seg.skip(2)[i] != SLASH);
            lemma_unescape_grammar(seg.skip(2));
        }
    } else {
        assert(seg[0] != SLASH);
        assert(forall|i: int| 0 <= i < seg.skip(1).len() ==> #[trigger] seg.skip(1)[i] != SLASH);
        lemma_unescape_grammar(seg.skip(1));
    }
}

/// A successful unescape of well-formed text is well-formed text.
proof fn lemma_unescape_valid(seg: Seq<u8>, t: Seq<u8>)
    requires
        valid_utf8(seg),
        unescape(seg) == Ok::<Seq<u8>, ParseError>(t),
    ensures
        valid_utf8(t),
    decreases seg.len(),
{
    if seg.len() == 0 {
    } else {
        let k = length_of_first_scalar(seg);
        assert(valid_first_scalar(seg));
        if k == 1 {
            assert(pop_first_scalar(seg) =~= seg.skip(1));
            if seg[0] == TILDE {
                assert(seg.len() >= 2);
                let d: u8 = if seg[1] == 0x30 {
                    TILDE
                } else {
                    SLASH
                };
                match unescape(seg.skip(2)) {
                    Ok(r) => {
                        assert(t == seq![d] + r);
                        assert(seg.skip(1)[0] == seg[1]);
                        assert(seg[1] < 0x80);
                        assert(valid_utf8(seg.skip(1)));
                        assert(pop_first_scalar(seg.skip(1)) =~= seg.skip(2));
                        lemma_unescape_valid(seg.skip(2), r);
                        crate::codec::lemma_ascii_valid_utf8(seq![d]);
                        valid_utf8_concat(seq![d], r);
                    },
                    Err(_) => {
                        assert(false);
                    },
                }
            } else {
                match unescape(seg.skip(1)) {
                    Ok(r) => {
                        assert(t == seq![seg[0]] + r);
                        lemma_unescape_valid(seg.skip(1), r);
                        crate::codec::lemma_ascii_valid_utf8(seq![seg[0]]);
                        valid_utf8_concat(seq![seg[0]], r);
                    },
                    Err(_) => {
                        assert(false);
                    },
                }
            }
        } else {
            // a multi-byte scalar: every byte passes through unchanged
            assert forall|i: int| 0 <= i < k implies seg[i] >= 0x80 by {
                if i > 0 {
                    assert(is_continuation_byte(seg[i]));
                }
            }
            crate::codec::lemma_take_first_scalar_valid(seg);
            assert(take_first_scalar(seg) =~= seg.take(k));
            assert(pop_first_scalar(seg) =~= seg.skip(k));
            lemma_unescape_high_prefix(seg, k);
            match unescape(seg.skip(k)) {
                Ok(r) => {
                    assert(t == seg.take(k) + r);
                    lemma_unescape_valid(seg.skip(k), r);
                    valid_utf8_concat(seg.take(k), r);
                },
                Err(_) => {
                    assert(false);
                },
            }
        }
    }
}

/// Parsing the body built from a non-empty token sequence yields it back.
proof fn lemma_parse_body_format(toks: Seq<Seq<u8>>)
    requires
        toks.len() >= 1,
        forall|i: int| 0 <= i < toks.len() ==> valid_utf8(#[trigger] toks[i]),
    ensures
        parse_body(escape(toks[0]) + plain_format(toks.skip(1))) == Ok::<Seq<Seq<u8>>, ParseError>(
            toks,
        ),
    decreases toks.len(),
{
    let e0 = escape(toks[0]);
    let rest = toks.skip(1);
    let s = e0 + plain_format(rest);
    lemma_escape_no_slash(toks[0]);
    lemma_unescape_escape(toks[0]);
    if rest.len() == 0 {
        assert(plain_format(rest) =~= Seq::<u8>::empty());
        assert(s =~= e0);
        assert forall|k: int| 0 <= k < s.len() implies s[k] != SLASH by {
            assert(s[k] == e0[k]);
        }
        lemma_first_slash_char(s, s.len() as int);
        assert(s.take(s.len() as int) =~= e0);
        assert(parse_body(s) == Ok::<Seq<Seq<u8>>, ParseError>(seq![toks[0]]));
        assert(seq![toks[0]] =~= toks);
    } else {
        assert forall|k: int| 0 <= k < e0.len() implies s[k] != SLASH by {
            assert(s[k] == e0[k]);
        }
        assert(s[e0.len() as int] == SLASH);
        lemma_first_slash_char(s, e0.len() as int);
        assert(s.take(e0.len() as int) =~= e0);
        assert(s.skip(e0.len() as int + 1) =~= escape(rest[0]) + plain_format(rest.skip(1)));
        assert(forall|i: int| 0 <= i < rest.len() ==> valid_utf8(#[trigger] rest[i]));
        lemma_parse_body_format(rest);
        assert(parse_body(s) == Ok::<Seq<Seq<u8>>, ParseError>(seq![toks[0]] + rest));
        assert(seq![toks[0]] + rest =~= toks);
    }
}

/// Parsing undoes formatting, plain form: the plain form of any token
/// sequence parses back to exactly those tokens, so a pointer built from
/// tokens and a pointer parsed from their formatted text are equal.
pub proof fn lemma_parse_plain_format(toks: Seq<Seq<u8>>)
    requires
        forall|i: int| 0 <= i < toks.len() ==> valid_utf8(#[trigger] toks[i]),
    ensures
        parse_plain(plain_format(toks)) == Ok::<Seq<Seq<u8>>, ParseError>(toks),
{
    if toks.len() == 0 {
        assert(toks =~= Seq::<Seq<u8>>::empty());
    } else {
        let s = plain_format(toks);
        assert(s[0] == SLASH);
        assert(s.len() > 0);
        assert(s.skip(1) =~= escape(toks[0]) + plain_format(toks.skip(1)));
        lemma_parse_body_format(toks);
    }
}

/// An accepted body is exactly the formatted text of its tokens.
proof fn lemma_body_format_parse(s: Seq<u8>, toks: Seq<Seq<u8>>)
    requires
        parse_body(s) == Ok::<Seq<Seq<u8>>, ParseError>(toks),
    ensures
        toks.len() >= 1,
        s == escape(toks[0]) + plain_format(toks.skip(1)),
    decreases s.len(),
{
    let j = first_slash(s);
    lemma_first_slash(s);
    let seg = s.take(j);
    assert(forall|k: int| 0 <= k < seg.len() ==> #[trigger] seg[k] != SLASH);
    match unescape(seg) {
        Ok(tok) => {
            lemma_escape_unescape(seg, tok);
            if j == s.len() {
                assert(toks == seq![tok]);
                assert(toks[0] == tok);
                assert(toks.skip(1) =~= Seq::<Seq<u8>>::empty());
                assert(seg =~= s);
                assert(escape(toks[0]) + plain_format(toks.skip(1)) =~= s);
            } else {
                match parse_body(s.skip(j + 1)) {
                    Ok(rtoks) => {
                        lemma_body_format_parse(s.skip(j + 1), rtoks);
                        assert(toks == seq![tok] + rtoks);
                        assert(toks[0] == tok);
                        assert(toks.skip(1) =~= rtoks);
                        assert(s[j] == SLASH);
                        assert(plain_format(rtoks) == (seq![SLASH] + escape(rtoks[0]))
                            + plain_format(rtoks.skip(1)));
                        assert(s =~= s.take(j) + (seq![SLASH] + s.skip(j + 1)));
                        assert(plain_format(rtoks) =~= seq![SLASH] + s.skip(j + 1));
                        assert(escape(toks[0]) + plain_format(toks.skip(1)) =~= s);
                    },
                    Err(_) => {
                        assert(false);
                    },
                }
            }
        },
        Err(_) => {
            assert(false);
        },
    }
}

/// Formatting undoes parsing, plain form: every string the plain parser
/// accepts is reproduced byte for byte by the plain formatter.
pub proof fn lemma_plain_round_trip(s: Seq<u8>, toks: Seq<Seq<u8>>)
    requires
        parse_plain(s) == Ok::<Seq<Seq<u8>>, ParseError>(toks),
    ensures
        plain_format(toks) == s,
{
    if s.len() == 0 {
        assert(plain_format(toks) =~= s);
    } else {
        assert(s[0] == SLASH);
        lemma_body_format_parse(s.skip(1), toks);
        assert(plain_format(toks) == (seq![SLASH] + escape(toks[0])) + plain_format(toks.skip(1)));
        assert(s =~= seq![SLASH] + s.skip(1));
        assert(plain_format(toks) =~= s);
    }
}

/// The plain parser accepts exactly the strings of the grammar
/// `(/ ([^/~] | ~[01])*)*`, over any well-formed text.
pub proof fn lemma_parse_body_grammar(s: Seq<u8>)
    requires
        valid_utf8(s),
    ensures
        parse_body(s) is Ok <==> body_grammar(s),
    decreases s.len(),
{
    let j = first_slash(s);
    lemma_first_slash(s);
    let seg = s.take(j);
    assert(forall|k: int| 0 <= k < seg.len() ==> #[trigger] seg[k] != SLASH);
    lemma_unescape_grammar(seg);
    if j < s.len() {
        is_char_boundary_iff_not_is_continuation_byte(s, j);
        assert(!is_continuation_byte(s[j]));
        valid_utf8_split(s, j);
        assert(valid_utf8(seg));
        let tail = s.skip(j);
        assert(valid_utf8(tail));
        assert(tail[0] == SLASH);
        assert(tail.len() > 0);
        assert(valid_first_scalar(tail));
        assert(length_of_first_scalar(tail) == 1);
        assert(pop_first_scalar(tail) =~= s.skip(j + 1));
        assert(valid_utf8(s.skip(j + 1)));
        lemma_parse_body_grammar(s.skip(j + 1));
        match unescape(seg) {
            Ok(tok) => {
                lemma_unescape_valid(seg, tok);
            },
            Err(_) => {},
        }
    } else {
        assert(seg =~= s);
        match unescape(seg) {
            Ok(tok) => {
                lemma_unescape_valid(seg, tok);
            },
            Err(_) => {},
        }
    }
}

/// The acceptance law for the plain form: on well-formed text, parsing
/// succeeds exactly when the text matches the plain-pointer grammar.
pub proof fn lemma_plain_grammar_equiv(s: Seq<u8>)
    requires
        valid_utf8(s),
    ensures
        parse_plain(s) is Ok <==> plain_grammar(s),
{
    if s.len() > 0 && s[0] == SLASH {
        assert(!is_continuation_byte(s[0]));
        assert(valid_first_scalar(s));
        assert(length_of_first_scalar(s) == 1);
        assert(pop_first_scalar(s) =~= s.skip(1));
        assert(valid_utf8(s.skip(1)));
        lemma_parse_body_grammar(s.skip(1));
    }
}

/// Percent-decoding undoes the fragment escaping of a token, leaving its
/// plain escaping, whatever follows.
proof fn lemma_pct_decode_frag_escape(t: Seq<u8>, r: Seq<u8>)
    ensures
        pct_decode(frag_escape(t) + r) == (match pct_decode(r) {
            Ok(d) => Ok::<Seq<u8>, ParseError>(escape(t) + d),
            Err(e) => Err::<Seq<u8>, ParseError>(e),
        }),
    decreases t.len(),
{
    if t.len() == 0 {
        assert(frag_escape(t) + r =~= r);
        match pct_decode(r) {
            Ok(d) => {
                assert(escape(t) + d =~= d);
            },
            Err(_) => {},
        }
    } else {
        let b = t[0];
        let fe = frag_escape_byte(b);
        let s = frag_escape(t) + r;
        let s2 = frag_escape(t.skip(1)) + r;
        assert(frag_escape(t) == fe + frag_escape(t.skip(1)));
        lemma_pct_decode_frag_escape(t.skip(1), r);
        if b == TILDE || b == SLASH {
            assert(s[0] == TILDE);
            assert(s[1] == fe[1]);
            assert(s.skip(1)[0] == fe[1]);
            assert(s.skip(1).skip(1) =~= s2);
            assert(s.skip(1) =~= seq![fe[1]] + s2);
            match pct_decode(s2) {
                Ok(d) => {
                    assert(pct_decode(s.skip(1)) == Ok::<Seq<u8>, ParseError>(seq![fe[1]] + d));
                    assert(pct_decode(s) == Ok::<Seq<u8>, ParseError>(seq![TILDE] + (seq![fe[1]]
                        + d)));
                    assert(seq![TILDE] + (seq![fe[1]] + d) =~= escape_byte(b) + d);
                    match pct_decode(r) {
                        Ok(d0) => {
                            assert(escape_byte(b) + (escape(t.skip(1)) + d0) =~= escape(t) + d0);
                        },
                        Err(_) => {
                            assert(false);
                        },
                    }
                },
                Err(_) => {},
            }
        } else if legal_fragment_byte(b) {
            assert(s[0] == b);
            assert(b != PERCENT);
            assert(s.skip(1) =~= s2);
            match pct_decode(s2) {
                Ok(d) => {
                    assert(pct_decode(s) == Ok::<Seq<u8>, ParseError>(seq![b] + d));
                    assert(seq![b] + d =~= escape_byte(b) + d);
                    match pct_decode(r) {
                        Ok(d0) => {
                            assert(escape_byte(b) + (escape(t.skip(1)) + d0) =~= escape(t) + d0);
                        },
                        Err(_) => {
                            assert(false);
                        },
                    }
                },
                Err(_) => {},
            }
        } else {
            assert(s[0] == PERCENT);
            assert(s[1] == hex_digit_lower(b / 16));
            assert(s[2] == hex_digit_lower(b % 16));
            assert(is_hex_digit(hex_digit_lower(b / 16)));
            assert(is_hex_digit(hex_digit_lower(b % 16)));
            assert(hex_val(hex_digit_lower(b / 16)) == b / 16);
            assert(hex_val(hex_digit_lower(b % 16)) == b % 16);
            assert((b / 16) * 16 + (b % 16) == b) by (nonlinear_arith);
            assert(s.skip(3) =~= s2);
            match pct_decode(s2) {
                Ok(d) => {
                    assert(pct_decode(s) == Ok::<Seq<u8>, ParseError>(seq![b] + d));
                    assert(seq![b] + d =~= escape_byte(b) + d);
                    match pct_decode(r) {
                        Ok(d0) => {
                            assert(escape_byte(b) + (escape(t.skip(1)) + d0) =~= escape(t) + d0);
                        },
                        Err(_) => {
                            assert(false);
                        },
                    }
                },
                Err(_) => {},
            }
        }
    }
}

/// Percent-decoding the fragment body of any tokens yields their plain form.
proof fn lemma_pct_decode_fragment_body(toks: Seq<Seq<u8>>)
    ensures
        pct_decode(fragment_body(toks)) == Ok::<Seq<u8>, ParseError>(plain_format(toks)),
    decreases toks.len(),
{
    if toks.len() == 0 {
        assert(fragment_body(toks) =~= Seq::<u8>::empty());
        assert(plain_format(toks) =~= Seq::<u8>::empty());
    } else {
        let s = fragment_body(toks);
        lemma_pct_decode_fragment_body(toks.skip(1));
        assert(s =~= seq![SLASH] + (frag_escape(toks[0]) + fragment_body(toks.skip(1))));
        assert(s[0] == SLASH);
        assert(s.skip(1) =~= frag_escape(toks[0]) + fragment_body(toks.skip(1)));
        lemma_pct_decode_frag_escape(toks[0], fragment_body(toks.skip(1)));
        assert(pct_decode(s.skip(1)) == Ok::<Seq<u8>, ParseError>(escape(toks[0]) + plain_format(
            toks.skip(1),
        )));
        assert(pct_decode(s) == Ok::<Seq<u8>, ParseError>(seq![SLASH] + (escape(toks[0])
            + plain_format(toks.skip(1)))));
        assert(seq![SLASH] + (escape(toks[0]) + plain_format(toks.skip(1))) =~= plain_format(
            toks,
        ));
    }
}

/// Parsing undoes formatting, fragment form: the URI fragment form of any
/// token sequence parses back to exactly those tokens. In particular every
/// fragment string in the formatter's canonical spelling round-trips; an
/// accepted fragment in another spelling (uppercase hex digits, or a
/// percent-escape of a byte the formatter leaves verbatim) parses to the
/// same tokens and reformats to the canonical spelling instead.
pub proof fn lemma_parse_fragment_format(toks: Seq<Seq<u8>>)
    requires
        forall|i: int| 0 <= i < toks.len() ==> valid_utf8(#[trigger] toks[i]),
    ensures
        parse_pointer(fragment_format(toks)) == Ok::<Seq<Seq<u8>>, ParseError>(toks),
{
    let s = fragment_format(toks);
    assert(s[0] == HASH);
    assert(s.skip(1) =~= fragment_body(toks));
    lemma_pct_decode_fragment_body(toks);
    lemma_parse_plain_format(toks);
}

/// Formatting undoes parsing, fragment form, for text in the formatter's
/// canonical spelling: such text parses to its tokens, and re-formatting
/// those tokens reproduces it byte for byte. The restriction is real: the
/// fragment parser also accepts other spellings of the same pointer —
/// uppercase hex digits as in `#/e%5Ef`, or a percent-escape of a byte the
/// formatter writes verbatim, as in `#/%2f` — and those reformat to the
/// canonical spelling instead of themselves.
pub proof fn lemma_fragment_round_trip(s: Seq<u8>, toks: Seq<Seq<u8>>)
    requires
        s == fragment_format(toks),
        forall|i: int| 0 <= i < toks.len() ==> valid_utf8(#[trigger] toks[i]),
    ensures
        parse_pointer(s) == Ok::<Seq<Seq<u8>>, ParseError>(toks),
        fragment_format(toks) == s,
{
    lemma_parse_fragment_format(toks);
}

/// The acceptance law for the fragment form: once the percent layer of a
/// `#`-string decodes, and the decoded bytes are well-formed text, the
/// string is accepted exactly when that text matches the plain grammar. A
/// decoded byte run that is not well-formed text is rejected outright.
pub proof fn lemma_fragment_acceptance(s: Seq<u8>, d: Seq<u8>)
    requires
        s.len() > 0,
        s[0] == HASH,
        pct_decode(s.skip(1)) == Ok::<Seq<u8>, ParseError>(d),
        valid_utf8(d),
    ensures
        parse_pointer(s) is Ok <==> plain_grammar(d),
{
    lemma_plain_grammar_equiv(d);
}

/// Parsing undoes formatting for the whole plain surface: the plain form
/// never begins with `#`, so the combined parser reads it in plain mode.
pub proof fn lemma_parse_pointer_plain_format(toks: Seq<Seq<u8>>)
    requires
        forall|i: int| 0 <= i < toks.len() ==> valid_utf8(#[trigger] toks[i]),
    ensures
        parse_pointer(plain_format(toks)) == Ok::<Seq<Seq<u8>>, ParseError>(toks),
{
    let s = plain_format(toks);
    if s.len() > 0 {
        assert(s[0] == SLASH);
    }
    lemma_parse_plain_format(toks);
}

/// Bytes above the ASCII range pass through unescaping unchanged.
proof fn lemma_unescape_high_prefix(s: Seq<u8>, k: int)
    requires
        0 <= k <= s.len(),
        forall|i: int| 0 <= i < k ==> #[trigger] s[i] >= 0x80,
    ensures
        unescape(s) == (match unescape(s.skip(k)) {
            Ok(r) => Ok::<Seq<u8>, ParseError>(s.take(k) + r),
            Err(e) => Err::<Seq<u8>, ParseError>(e),
        }),
    decreases k,
{
    if k == 0 {
        assert(s.take(0) =~= Seq::<u8>::empty());
        assert(s.skip(0) =~= s);
        match unescape(s) {
            Ok(r) => {
                assert(s.take(0) + r =~= r);
            },
            Err(_) => {},
        }
    } else {
        assert(s[0] >= 0x80);
        lemma_unescape_high_prefix(s.skip(1), k - 1);
        assert(s.skip(1).take(k - 1) =~= s.take(k).skip(1));
        assert(s.skip(1).skip(k - 1) =~= s.skip(k));
        match unescape(s.skip(k)) {
            Ok(r) => {
                assert(seq![s[0]] + (s.take(k).skip(1) + r) =~= s.take(k) + r);
            },
            Err(_) => {},
        }
    }
}

} // verus!
