//! Byte-level model of the two RFC 6901 textual forms.
//!
//! Pointer text is modelled as a sequence of UTF-8 bytes. A reference token
//! is escaped for the plain form by rewriting `~` to `~0` and `/` to `~1`;
//! the URI fragment form additionally percent-encodes every byte outside
//! the set of bytes allowed verbatim in a URI fragment.

use vstd::prelude::*;
use vstd::utf8::*;

verus! {

/// An error found while parsing pointer text.
///
/// `InvalidPercentEncoding` covers a `%` that is not followed by two hex
/// digits, and percent-encoded bytes that do not decode to well-formed
/// UTF-8 text; both can arise only in the URI fragment form.
#[derive(Clone, Copy, Debug, PartialEq, Eq, Structural)]
pub enum ParseError {
    /// The input is non-empty but does not begin with `/`.
    MissingLeadingSlash,
    /// A `~` stands at the end of a reference token.
    EndInEscape,
    /// A `~` is followed by a byte other than `0` or `1`; carries that byte.
    InvalidEscape(u8),
    /// A malformed percent escape, or one that decodes to malformed text.
    InvalidPercentEncoding,
}

/// The byte `~`, which introduces an escape sequence in a reference token.
pub const TILDE: u8 = 0x7e;

/// The byte `/`, which separates reference tokens.
pub const SLASH: u8 = 0x2f;

/// The byte `#`, which introduces the URI fragment form.
pub const HASH: u8 = 0x23;

/// The byte `%`, which introduces a percent-encoded byte.
pub const PERCENT: u8 = 0x25;

/// The bytes of each string in a sequence, in order.
pub open spec fn str_seq_bytes(toks: Seq<String>) -> Seq<Seq<u8>> {
    Seq::new(toks.len(), |i: int| encode_utf8(toks[i]@))
}

/// How one token byte is written in the plain form: `~` becomes `~0`,
/// `/` becomes `~1`, and every other byte stands for itself.
pub open spec fn escape_byte(b: u8) -> Seq<u8> {
    if b == TILDE {
        seq![TILDE, 0x30u8]
    } else if b == SLASH {
        seq![TILDE, 0x31u8]
    } else {
        seq![b]
    }
}

/// A reference token escaped for the plain form, byte for byte.
pub open spec fn escape(t: Seq<u8>) -> Seq<u8>
    decreases t.len(),
{
    if t.len() == 0 {
        Seq::empty()
    } else {
        escape_byte(t[0]) + escape(t.skip(1))
    }
}

/// The plain textual form: each token in order, preceded by `/`.
pub open spec fn plain_format(toks: Seq<Seq<u8>>) -> Seq<u8>
    decreases toks.len(),
{
    if toks.len() == 0 {
        Seq::empty()
    } else {
        seq![SLASH] + escape(toks[0]) + plain_format(toks.skip(1))
    }
}

/// True of a byte that a URI fragment may carry verbatim.
///
/// This is the unreserved-plus-allowed set of RFC 3986 fragments, minus the
/// bytes the pointer syntax itself uses: `%` and `~` are absent, so both are
/// always percent- or tilde-escaped, while `/` is listed but only ever
/// written as the token separator, never inside an escaped token.
pub open spec fn legal_fragment_byte(b: u8) -> bool {
    ||| b == 0x21
    ||| b == 0x24
    ||| (0x26 <= b && b <= 0x3b)
    ||| b == 0x3d
    ||| (0x3f <= b && b <= 0x5a)
    ||| b == 0x5f
    ||| (0x61 <= b && b <= 0x7a)
}

/// The lowercase hex digit for a value below 16.
pub open spec fn hex_digit_lower(v: u8) -> u8
    recommends
        v < 16,
{
    if v < 10 {
        (0x30 + v) as u8
    } else {
        (0x61 + v - 10) as u8
    }
}

/// True of an ASCII hex digit, either case.
pub open spec fn is_hex_digit(b: u8) -> bool {
    ||| (0x30 <= b && b <= 0x39)
    ||| (0x41 <= b && b <= 0x46)
    ||| (0x61 <= b && b <= 0x66)
}

/// The value of an ASCII hex digit.
pub open spec fn hex_val(b: u8) -> u8
    recommends
        is_hex_digit(b),
{
    if 0x30 <= b && b <= 0x39 {
        (b - 0x30) as u8
    } else if 0x41 <= b && b <= 0x46 {
        (b - 0x41 + 10) as u8
    } else {
        (b - 0x61 + 10) as u8
    }
}

/// How one token byte is written in the fragment form: the tilde escapes
/// come first, a legal byte stands for itself, and every other byte is
/// percent-encoded with lowercase hex digits.
pub open spec fn frag_escape_byte(b: u8) -> Seq<u8> {
    if b == TILDE {
        seq![TILDE, 0x30u8]
    } else if b == SLASH {
        seq![TILDE, 0x31u8]
    } else if legal_fragment_byte(b) {
        seq![b]
    } else {
        seq![PERCENT, hex_digit_lower(b / 16), hex_digit_lower(b % 16)]
    }
}

/// A reference token escaped for the fragment form, byte for byte.
pub open spec fn frag_escape(t: Seq<u8>) -> Seq<u8>
    decreases t.len(),
{
    if t.len() == 0 {
        Seq::empty()
    } else {
        frag_escape_byte(t[0]) + frag_escape(t.skip(1))
    }
}

/// The tokens of the URI fragment form: each token in order, preceded by `/`.
pub open spec fn fragment_body(toks: Seq<Seq<u8>>) -> Seq<u8>
    decreases toks.len(),
{
    if toks.len() == 0 {
        Seq::empty()
    } else {
        seq![SLASH] + frag_escape(toks[0]) + fragment_body(toks.skip(1))
    }
}

/// The URI fragment textual form: `#`, then each token preceded by `/`.
pub open spec fn fragment_format(toks: Seq<Seq<u8>>) -> Seq<u8> {
    seq![HASH] + fragment_body(toks)
}

/// Undoes the tilde escapes of one `/`-delimited segment, left to right.
/// The first malformed escape decides the error.
pub open spec fn unescape(seg: Seq<u8>) -> Result<Seq<u8>, ParseError>
    decreases seg.len(),
{
    if seg.len() == 0 {
        Ok(Seq::empty())
    } else if seg[0] == TILDE {
        if seg.len() < 2 {
            Err(ParseError::EndInEscape)
        } else if seg[1] == 0x30 || seg[1] == 0x31 {
            match unescape(seg.skip(2)) {
                Ok(t) => Ok(seq![if seg[1] == 0x30 { TILDE } else { SLASH }] + t),
                Err(e) => Err(e),
            }
        } else {
            Err(ParseError::InvalidEscape(seg[1]))
        }
    } else {
        match unescape(seg.skip(1)) {
            Ok(t) => Ok(seq![seg[0]] + t),
            Err(e) => Err(e),
        }
    }
}

/// The index of the first `/` in `s`, or `s.len()` if there is none.
pub open spec fn first_slash(s: Seq<u8>) -> int
    decreases s.len(),
{
    if s.len() == 0 || s[0] == SLASH {
        0
    } else {
        1 + first_slash(s.skip(1))
    }
}

/// `first_slash` points at a `/` or at the end, and nothing before it is `/`.
pub proof fn lemma_first_slash(s: Seq<u8>)
    ensures
        0 <= first_slash(s) <= s.len(),
        first_slash(s) < s.len() ==> s[first_slash(s)] == SLASH,
        forall|i: int| 0 <= i < first_slash(s) ==> s[i] != SLASH,
    decreases s.len(),
{
    if s.len() == 0 || s[0] == SLASH {
    } else {
        lemma_first_slash(s.skip(1));
        assert forall|i: int| 0 <= i < first_slash(s) implies s[i] != SLASH by {
            if i > 0 {
                assert(s.skip(1)[i - 1] != SLASH);
            }
        }
    }
}

/// A position with no `/` before it that holds `/` or ends the text is
/// exactly where `first_slash` points.
pub proof fn lemma_first_slash_char(s: Seq<u8>, j: int)
    requires
        0 <= j <= s.len(),
        forall|k: int| 0 <= k < j ==> s[k] != SLASH,
        j == s.len() || s[j] == SLASH,
    ensures
        first_slash(s) == j,
{
    lemma_first_slash(s);
    if first_slash(s) < j {
        assert(s[first_slash(s)] != SLASH);
        assert(false);
    }
    if j < first_slash(s) {
        assert(s[j] != SLASH);
        assert(false);
    }
}

/// Splits what follows the leading `/` into segments, unescapes each, and
/// checks that each decoded token is well-formed text. Fails on the first
/// problem, in reading order.
pub open spec fn parse_body(s: Seq<u8>) -> Result<Seq<Seq<u8>>, ParseError>
    decreases s.len(),
    via parse_body_decreases
{
    let j = first_slash(s);
    match unescape(s.take(j)) {
        Err(e) => Err(e),
        Ok(tok) => {
            if !valid_utf8(tok) {
                Err(ParseError::InvalidPercentEncoding)
            } else if j == s.len() {
                Ok(seq![tok])
            } else {
                match parse_body(s.skip(j + 1)) {
                    Ok(rest) => Ok(seq![tok] + rest),
                    Err(e) => Err(e),
                }
            }
        },
    }
}

#[via_fn]
proof fn parse_body_decreases(s: Seq<u8>) {
    lemma_first_slash(s);
}

/// Parses the plain form: the empty string is the root pointer, anything
/// else must begin with `/`.
pub open spec fn parse_plain(s: Seq<u8>) -> Result<Seq<Seq<u8>>, ParseError> {
    if s.len() == 0 {
        Ok(Seq::empty())
    } else if s[0] != SLASH {
        Err(ParseError::MissingLeadingSlash)
    } else {
        parse_body(s.skip(1))
    }
}

/// Undoes the percent escapes of the fragment form, left to right: `%` must
/// be followed by two hex digits of either case; every other byte passes
/// through unchanged.
pub open spec fn pct_decode(s: Seq<u8>) -> Result<Seq<u8>, ParseError>
    decreases s.len(),
{
    if s.len() == 0 {
        Ok(Seq::empty())
    } else if s[0] == PERCENT {
        if s.len() >= 3 && is_hex_digit(s[1]) && is_hex_digit(s[2]) {
            match pct_decode(s.skip(3)) {
                Ok(r) => Ok(seq![(hex_val(s[1]) * 16 + hex_val(s[2])) as u8] + r),
                Err(e) => Err(e),
            }
        } else {
            Err(ParseError::InvalidPercentEncoding)
        }
    } else {
        match pct_decode(s.skip(1)) {
            Ok(r) => Ok(seq![s[0]] + r),
            Err(e) => Err(e),
        }
    }
}

/// Parses either textual form: a leading `#` selects the fragment form,
/// whose remainder is percent-decoded before the plain rules apply.
pub open spec fn parse_pointer(s: Seq<u8>) -> Result<Seq<Seq<u8>>, ParseError> {
    if s.len() > 0 && s[0] == HASH {
        match pct_decode(s.skip(1)) {
            Ok(d) => parse_plain(d),
            Err(e) => Err(e),
        }
    } else {
        parse_plain(s)
    }
}

/// The body of one reference token in the plain grammar:
/// `([^/~] | ~[01])*`, read over bytes.
pub open spec fn token_grammar(seg: Seq<u8>) -> bool
    decreases seg.len(),
{
    if seg.len() == 0 {
        true
    } else if seg[0] == TILDE {
        seg.len() >= 2 && (seg[1] == 0x30 || seg[1] == 0x31) && token_grammar(seg.skip(2))
    } else if seg[0] == SLASH {
        false
    } else {
        token_grammar(seg.skip(1))
    }
}

/// One or more `/`-separated token bodies: `token (/ token)*`.
pub open spec fn body_grammar(s: Seq<u8>) -> bool
    decreases s.len(),
    via body_grammar_decreases
{
    let j = first_slash(s);
    token_grammar(s.take(j)) && (j == s.len() || body_grammar(s.skip(j + 1)))
}

#[via_fn]
proof fn body_grammar_decreases(s: Seq<u8>) {
    lemma_first_slash(s);
}

/// The plain-pointer grammar `(/ token)*`: empty, or `/` followed by
/// slash-separated token bodies.
pub open spec fn plain_grammar(s: Seq<u8>) -> bool {
    s.len() == 0 || (s[0] == SLASH && body_grammar(s.skip(1)))
}

/// True when every byte of `s` is ASCII.
pub open spec fn all_ascii(s: Seq<u8>) -> bool {
    forall|i: int| 0 <= i < s.len() ==> #[trigger] s[i] < 0x80
}

/// A sequence of ASCII bytes is well-formed UTF-8 text.
pub proof fn lemma_ascii_valid_utf8(s: Seq<u8>)
    requires
        all_ascii(s),
    ensures
        valid_utf8(s),
    decreases s.len(),
{
    if s.len() > 0 {
        let b = s[0];
        assert(b & 0x7f == b) by (bit_vector)
            requires
                b < 0x80,
        ;
        assert(valid_first_scalar(s));
        assert(length_of_first_scalar(s) == 1);
        assert(pop_first_scalar(s) =~= s.skip(1));
        assert(all_ascii(s.skip(1)));
        lemma_ascii_valid_utf8(s.skip(1));
    }
}

/// The first scalar of well-formed text is itself well-formed text.
pub proof fn lemma_take_first_scalar_valid(s: Seq<u8>)
    requires
        valid_utf8(s),
        s.len() > 0,
    ensures
        valid_utf8(take_first_scalar(s)),
{
    reveal_with_fuel(valid_utf8, 2);
    let t = take_first_scalar(s);
    assert(valid_first_scalar(t));
    assert(pop_first_scalar(t) =~= Seq::<u8>::empty());
}

/// Escaping a concatenation escapes the pieces.
pub proof fn lemma_escape_split(t: Seq<u8>, i: int)
    requires
        0 <= i <= t.len(),
    ensures
        escape(t) == escape(t.take(i)) + escape(t.skip(i)),
    decreases i,
{
    if i == 0 {
        assert(t.take(0) =~= Seq::<u8>::empty());
        assert(t.skip(0) =~= t);
        assert(escape(t.take(0)) + escape(t) =~= escape(t));
    } else {
        lemma_escape_split(t.skip(1), i - 1);
        assert(t.skip(1).take(i - 1) =~= t.take(i).skip(1));
        assert(t.skip(1).skip(i - 1) =~= t.skip(i));
        assert(t.take(i)[0] == t[0]);
        assert(escape_byte(t[0]) + (escape(t.take(i).skip(1)) + escape(t.skip(i))) =~= (escape_byte(
            t[0],
        ) + escape(t.take(i).skip(1))) + escape(t.skip(i)));
    }
}

/// Escaping one more byte appends that byte's escaped form.
pub proof fn lemma_escape_push(t: Seq<u8>, i: int)
    requires
        0 <= i < t.len(),
    ensures
        escape(t.take(i + 1)) == escape(t.take(i)) + escape_byte(t[i]),
{
    lemma_escape_split(t.take(i + 1), i);
    assert(t.take(i + 1).take(i) =~= t.take(i));
    assert(t.take(i + 1).skip(i) =~= seq![t[i]]);
    assert(seq![t[i]].skip(1) =~= Seq::<u8>::empty());
    assert(escape(Seq::<u8>::empty()) =~= Seq::<u8>::empty());
    assert(escape_byte(t[i]) + Seq::<u8>::empty() =~= escape_byte(t[i]));
    assert(escape(seq![t[i]]) =~= escape_byte(t[i]));
}

/// Fragment-escaping a concatenation escapes the pieces.
pub proof fn lemma_frag_escape_split(t: Seq<u8>, i: int)
    requires
        0 <= i <= t.len(),
    ensures
        frag_escape(t) == frag_escape(t.take(i)) + frag_escape(t.skip(i)),
    decreases i,
{
    if i == 0 {
        assert(t.take(0) =~= Seq::<u8>::empty());
        assert(t.skip(0) =~= t);
        assert(frag_escape(t.take(0)) + frag_escape(t) =~= frag_escape(t));
    } else {
        lemma_frag_escape_split(t.skip(1), i - 1);
        assert(t.skip(1).take(i - 1) =~= t.take(i).skip(1));
        assert(t.skip(1).skip(i - 1) =~= t.skip(i));
        assert(t.take(i)[0] == t[0]);
        assert(frag_escape_byte(t[0]) + (frag_escape(t.take(i).skip(1)) + frag_escape(t.skip(i)))
            =~= (frag_escape_byte(t[0]) + frag_escape(t.take(i).skip(1))) + frag_escape(t.skip(i)));
    }
}

/// Fragment-escaping one more byte appends that byte's escaped form.
pub proof fn lemma_frag_escape_push(t: Seq<u8>, i: int)
    requires
        0 <= i < t.len(),
    ensures
        frag_escape(t.take(i + 1)) == frag_escape(t.take(i)) + frag_escape_byte(t[i]),
{
    lemma_frag_escape_split(t.take(i + 1), i);
    assert(t.take(i + 1).take(i) =~= t.take(i));
    assert(t.take(i + 1).skip(i) =~= seq![t[i]]);
    assert(seq![t[i]].skip(1) =~= Seq::<u8>::empty());
    assert(frag_escape(Seq::<u8>::empty()) =~= Seq::<u8>::empty());
    assert(frag_escape_byte(t[i]) + Seq::<u8>::empty() =~= frag_escape_byte(t[i]));
    assert(frag_escape(seq![t[i]]) =~= frag_escape_byte(t[i]));
}

/// Bytes above the ASCII range pass through the plain escaping unchanged.
proof fn lemma_escape_high_prefix(s: Seq<u8>, k: int)
    requires
        0 <= k <= s.len(),
        forall|i: int| 0 <= i < k ==> #[trigger] s[i] >= 0x80,
    ensures
        escape(s) == s.take(k) + escape(s.skip(k)),
    decreases k,
{
    if k == 0 {
        assert(s.take(0) =~= Seq::<u8>::empty());
        assert(s.skip(0) =~= s);
        assert(s.take(0) + escape(s) =~= escape(s));
    } else {
        assert(s[0] >= 0x80);
        lemma_escape_high_prefix(s.skip(1), k - 1);
        assert(s.skip(1).take(k - 1) =~= s.take(k).skip(1));
        assert(s.skip(1).skip(k - 1) =~= s.skip(k));
        assert(escape(s) == seq![s[0]] + (s.skip(1).take(k - 1) + escape(s.skip(k))));
        assert(seq![s[0]] + (s.take(k).skip(1) + escape(s.skip(k))) =~= s.take(k) + escape(
            s.skip(k),
        ));
    }
}

/// Escaping preserves well-formedness of the token text.
pub proof fn lemma_escape_valid(t: Seq<u8>)
    requires
        valid_utf8(t),
    ensures
        valid_utf8(escape(t)),
    decreases t.len(),
{
    if t.len() > 0 {
        let k = length_of_first_scalar(t);
        assert(valid_first_scalar(t));
        if k == 1 {
            assert(pop_first_scalar(t) =~= t.skip(1));
            lemma_escape_valid(t.skip(1));
            assert(all_ascii(escape_byte(t[0])));
            lemma_ascii_valid_utf8(escape_byte(t[0]));
            valid_utf8_concat(escape_byte(t[0]), escape(t.skip(1)));
        } else {
            assert forall|i: int| 0 <= i < k implies t[i] >= 0x80 by {
                if i > 0 {
                    assert(is_continuation_byte(t[i]));
                }
            }
            lemma_escape_high_prefix(t, k);
            lemma_take_first_scalar_valid(t);
            assert(take_first_scalar(t) =~= t.take(k));
            assert(pop_first_scalar(t) =~= t.skip(k));
            lemma_escape_valid(t.skip(k));
            valid_utf8_concat(t.take(k), escape(t.skip(k)));
        }
    }
}

/// The plain form of well-formed tokens is well-formed text.
pub proof fn lemma_plain_format_valid(toks: Seq<Seq<u8>>)
    requires
        forall|i: int| 0 <= i < toks.len() ==> valid_utf8(#[trigger] toks[i]),
    ensures
        valid_utf8(plain_format(toks)),
    decreases toks.len(),
{
    if toks.len() > 0 {
        lemma_escape_valid(toks[0]);
        assert(all_ascii(seq![SLASH]));
        lemma_ascii_valid_utf8(seq![SLASH]);
        valid_utf8_concat(seq![SLASH], escape(toks[0]));
        lemma_plain_format_valid(toks.skip(1));
        valid_utf8_concat(seq![SLASH] + escape(toks[0]), plain_format(toks.skip(1)));
    }
}

/// ASCII text stays ASCII under concatenation.
pub proof fn lemma_all_ascii_concat(a: Seq<u8>, b: Seq<u8>)
    requires
        all_ascii(a),
        all_ascii(b),
    ensures
        all_ascii(a + b),
{
    assert forall|i: int| 0 <= i < (a + b).len() implies (a + b)[i] < 0x80 by {
        if i < a.len() {
            assert((a + b)[i] == a[i]);
        } else {
            assert((a + b)[i] == b[i - a.len()]);
        }
    }
}

/// The fragment escaping of any token is ASCII throughout.
pub proof fn lemma_frag_escape_ascii(t: Seq<u8>)
    ensures
        all_ascii(frag_escape(t)),
    decreases t.len(),
{
    if t.len() > 0 {
        assert(all_ascii(frag_escape_byte(t[0])));
        lemma_frag_escape_ascii(t.skip(1));
        lemma_all_ascii_concat(frag_escape_byte(t[0]), frag_escape(t.skip(1)));
    }
}

/// The fragment body of any tokens is ASCII throughout.
pub proof fn lemma_fragment_body_ascii(toks: Seq<Seq<u8>>)
    ensures
        all_ascii(fragment_body(toks)),
    decreases toks.len(),
{
    if toks.len() > 0 {
        lemma_frag_escape_ascii(toks[0]);
        lemma_fragment_body_ascii(toks.skip(1));
        assert(all_ascii(seq![SLASH]));
        lemma_all_ascii_concat(seq![SLASH], frag_escape(toks[0]));
        lemma_all_ascii_concat(seq![SLASH] + frag_escape(toks[0]), fragment_body(toks.skip(1)));
    }
}

/// The fragment form of any tokens is ASCII, hence well-formed text.
pub proof fn lemma_fragment_format_valid(toks: Seq<Seq<u8>>)
    ensures
        all_ascii(fragment_format(toks)),
        valid_utf8(fragment_format(toks)),
{
    lemma_fragment_body_ascii(toks);
    assert(all_ascii(seq![HASH]));
    lemma_all_ascii_concat(seq![HASH], fragment_body(toks));
    lemma_ascii_valid_utf8(fragment_format(toks));
}

/// Splitting the plain form at a token boundary splits the text.
pub proof fn lemma_plain_format_split(toks: Seq<Seq<u8>>, i: int)
    requires
        0 <= i <= toks.len(),
    ensures
        plain_format(toks) == plain_format(toks.take(i)) + plain_format(toks.skip(i)),
    decreases i,
{
    if i == 0 {
        assert(toks.take(0) =~= Seq::<Seq<u8>>::empty());
        assert(toks.skip(0) =~= toks);
        assert(plain_format(toks.take(0)) + plain_format(toks) =~= plain_format(toks));
    } else {
        lemma_plain_format_split(toks.skip(1), i - 1);
        assert(toks.skip(1).take(i - 1) =~= toks.take(i).skip(1));
        assert(toks.skip(1).skip(i - 1) =~= toks.skip(i));
        assert(toks.take(i)[0] == toks[0]);
        assert((seq![SLASH] + escape(toks[0])) + (plain_format(toks.take(i).skip(1)) + plain_format(
            toks.skip(i),
        )) =~= ((seq![SLASH] + escape(toks[0])) + plain_format(toks.take(i).skip(1)))
            + plain_format(toks.skip(i)));
    }
}

/// Formatting one more token appends `/` and its escaped form.
pub proof fn lemma_plain_format_push(toks: Seq<Seq<u8>>, i: int)
    requires
        0 <= i < toks.len(),
    ensures
        plain_format(toks.take(i + 1)) == plain_format(toks.take(i)) + (seq![SLASH] + escape(
            toks[i],
        )),
{
    lemma_plain_format_split(toks.take(i + 1), i);
    assert(toks.take(i + 1).take(i) =~= toks.take(i));
    assert(toks.take(i + 1).skip(i) =~= seq![toks[i]]);
    assert(seq![toks[i]].skip(1) =~= Seq::<Seq<u8>>::empty());
    assert((seq![SLASH] + escape(toks[i])) + plain_format(seq![toks[i]].skip(1)) =~= seq![SLASH]
        + escape(toks[i]));
}

/// Splitting the fragment body at a token boundary splits the text.
pub proof fn lemma_fragment_body_split(toks: Seq<Seq<u8>>, i: int)
    requires
        0 <= i <= toks.len(),
    ensures
        fragment_body(toks) == fragment_body(toks.take(i)) + fragment_body(toks.skip(i)),
    decreases i,
{
    if i == 0 {
        assert(toks.take(0) =~= Seq::<Seq<u8>>::empty());
        assert(toks.skip(0) =~= toks);
        assert(fragment_body(toks.take(0)) + fragment_body(toks) =~= fragment_body(toks));
    } else {
        lemma_fragment_body_split(toks.skip(1), i - 1);
        assert(toks.skip(1).take(i - 1) =~= toks.take(i).skip(1));
        assert(toks.skip(1).skip(i - 1) =~= toks.skip(i));
        assert(toks.take(i)[0] == toks[0]);
        assert((seq![SLASH] + frag_escape(toks[0])) + (fragment_body(toks.take(i).skip(1))
            + fragment_body(toks.skip(i))) =~= ((seq![SLASH] + frag_escape(toks[0]))
            + fragment_body(toks.take(i).skip(1))) + fragment_body(toks.skip(i)));
    }
}

/// Formatting one more token appends `/` and its fragment-escaped form.
pub proof fn lemma_fragment_body_push(toks: Seq<Seq<u8>>, i: int)
    requires
        0 <= i < toks.len(),
    ensures
        fragment_body(toks.take(i + 1)) == fragment_body(toks.take(i)) + (seq![SLASH] + frag_escape(
            toks[i],
        )),
{
    lemma_fragment_body_split(toks.take(i + 1), i);
    assert(toks.take(i + 1).take(i) =~= toks.take(i));
    assert(toks.take(i + 1).skip(i) =~= seq![toks[i]]);
    assert(seq![toks[i]].skip(1) =~= Seq::<Seq<u8>>::empty());
    assert((seq![SLASH] + frag_escape(toks[i])) + fragment_body(seq![toks[i]].skip(1))
        =~= seq![SLASH] + frag_escape(toks[i]));
}

/// Relies on `String::from_utf8`: it succeeds exactly on well-formed UTF-8
/// input, and the returned string consists of exactly the given bytes.
#[verifier::external_body]
pub(crate) fn bytes_to_string(bytes: Vec<u8>) -> (r: Option<String>)
    ensures
        r is Some <==> valid_utf8(bytes@),
        r matches Some(s) ==> encode_utf8(s@) == bytes@,
{
    String::from_utf8(bytes).ok()
}

} // verus!
