//! The pointer type and the resolution-time error type.

use vstd::prelude::*;
use vstd::pervasive::unreached;
use vstd::utf8::*;

use crate::codec::bytes_to_string;
use crate::codec::escape;
use crate::codec::fragment_body;
use crate::codec::fragment_format;
use crate::codec::hex_digit_lower;
use crate::codec::legal_fragment_byte;
use crate::codec::lemma_escape_push;
use crate::codec::lemma_fragment_body_push;
use crate::codec::lemma_fragment_format_valid;
use crate::codec::lemma_plain_format_push;
use crate::codec::lemma_plain_format_valid;
use crate::codec::plain_format;
use crate::codec::str_seq_bytes;
use crate::codec::HASH;
use crate::codec::PERCENT;
use crate::codec::SLASH;
use crate::codec::TILDE;

verus! {

/// The lowercase hex digit for a value below 16.
fn hex_lower(v: u8) -> (r: u8)
    requires
        v < 16,
    ensures
        r == hex_digit_lower(v),
{
    if v < 10 {
        0x30 + v
    } else {
        0x61 + v - 10
    }
}

/// Decides whether a byte may stand verbatim in a URI fragment.
fn legal_byte(b: u8) -> (r: bool)
    ensures
        r == legal_fragment_byte(b),
{
    b == 0x21 || b == 0x24 || (0x26 <= b && b <= 0x3b) || b == 0x3d || (0x3f <= b && b <= 0x5a)
        || b == 0x5f || (0x61 <= b && b <= 0x7a)
}

/// A JSON Pointer: an ordered sequence of unescaped reference tokens.
///
/// Create one from tokens with [`JsonPointer::new`] or from either textual
/// form with [`JsonPointer::parse`]. A pointer holds no reference to any
/// document and may be resolved against many documents.
#[derive(Debug, PartialEq, Eq)]
pub struct JsonPointer {
    pub(crate) ref_toks: Vec<String>,
}

impl JsonPointer {
    /// The pointer's reference tokens, each as its UTF-8 bytes.
    pub closed spec fn toks(&self) -> Seq<Seq<u8>> {
        str_seq_bytes(self.ref_toks@)
    }

    /// Creates a pointer from the given reference tokens, exactly as they
    /// stand: tokens are never escaped here, so a token may freely contain
    /// `/` or `~`.
    pub fn new(ref_toks: Vec<String>) -> (p: JsonPointer)
        ensures
            p.toks() == str_seq_bytes(ref_toks@),
    {
        JsonPointer { ref_toks }
    }

    /// Formats the pointer in the plain textual form: each token in order,
    /// preceded by `/`, with `~` written `~0` and `/` written `~1`.
    pub fn to_string(&self) -> (s: String)
        ensures
            encode_utf8(s@) == plain_format(self.toks()),
    {
        let ghost toks = self.toks();
        let mut out: Vec<u8> = Vec::new();
        let n = self.ref_toks.len();
        let mut i: usize = 0;
        while i < n
            invariant
                i <= n,
                n == self.ref_toks@.len(),
                toks == str_seq_bytes(self.ref_toks@),
                toks == self.toks(),
                out@ == plain_format(toks.take(i as int)),
            decreases n - i,
        {
            out.push(SLASH);
            let tok: &String = &self.ref_toks[i];
            let tb = tok.as_str().as_bytes();
            let ghost t = toks[i as int];
            proof {
                assert(tb@ == t);
                assert(escape(t.take(0)) =~= Seq::<u8>::empty());
                assert(out@ =~= plain_format(toks.take(i as int)) + seq![SLASH] + escape(
                    t.take(0),
                ));
            }
            let m = tb.len();
            let mut j: usize = 0;
            while j < m
                invariant
                    j <= m,
                    m == tb@.len(),
                    tb@ == t,
                    out@ == plain_format(toks.take(i as int)) + seq![SLASH] + escape(
                        t.take(j as int),
                    ),
                decreases m - j,
            {
                let b = tb[j];
                if b == TILDE {
                    out.push(TILDE);
                    out.push(0x30);
                } else if b == SLASH {
                    out.push(TILDE);
                    out.push(0x31);
                } else {
                    out.push(b);
                }
                proof {
                    lemma_escape_push(t, j as int);
                    assert(out@ =~= plain_format(toks.take(i as int)) + seq![SLASH] + escape(
                        t.take(j as int + 1),
                    ));
                }
                j = j + 1;
            }
            proof {
                assert(t.take(m as int) =~= t);
                lemma_plain_format_push(toks, i as int);
                assert(out@ =~= plain_format(toks.take(i as int + 1)));
            }
            i = i + 1;
        }
        proof {
            assert(toks.take(n as int) =~= toks);
            assert forall|k: int| 0 <= k < toks.len() implies valid_utf8(#[trigger] toks[k]) by {
                encode_utf8_valid_utf8(self.ref_toks@[k]@);
            }
            lemma_plain_format_valid(toks);
        }
        match bytes_to_string(out) {
            Some(s) => s,
            None => unreached(),
        }
    }

    /// Formats the pointer in URI Fragment Identifier Representation,
    /// including the leading `#`: tokens are escaped as in the plain form,
    /// and every byte a URI fragment cannot carry verbatim is
    /// percent-encoded with lowercase hex digits.
    pub fn uri_fragment(&self) -> (s: String)
        ensures
            encode_utf8(s@) == fragment_format(self.toks()),
    {
        let ghost toks = self.toks();
        let mut out: Vec<u8> = Vec::new();
        out.push(HASH);
        proof {
            assert(fragment_body(toks.take(0)) =~= Seq::<u8>::empty());
            assert(out@ =~= seq![HASH] + fragment_body(toks.take(0)));
        }
        let n = self.ref_toks.len();
        let mut i: usize = 0;
        while i < n
            invariant
                i <= n,
                n == self.ref_toks@.len(),
                toks == str_seq_bytes(self.ref_toks@),
                toks == self.toks(),
                out@ == seq![HASH] + fragment_body(toks.take(i as int)),
            decreases n - i,
        {
            out.push(SLASH);
            let tok: &String = &self.ref_toks[i];
            let tb = tok.as_str().as_bytes();
            let ghost t = toks[i as int];
            proof {
                assert(tb@ == t);
                assert(crate::codec::frag_escape(t.take(0)) =~= Seq::<u8>::empty());
                assert(out@ =~= seq![HASH] + fragment_body(toks.take(i as int)) + seq![SLASH]
                    + crate::codec::frag_escape(t.take(0)));
            }
            let m = tb.len();
            let mut j: usize = 0;
            while j < m
                invariant
                    j <= m,
                    m == tb@.len(),
                    tb@ == t,
                    out@ == seq![HASH] + fragment_body(toks.take(i as int)) + seq![SLASH]
                        + crate::codec::frag_escape(t.take(j as int)),
                decreases m - j,
            {
                let b = tb[j];
                if b == TILDE {
                    out.push(TILDE);
                    out.push(0x30);
                } else if b == SLASH {
                    out.push(TILDE);
                    out.push(0x31);
                } else if legal_byte(b) {
                    out.push(b);
                } else {
                    out.push(PERCENT);
                    out.push(hex_lower(b / 16));
                    out.push(hex_lower(b % 16));
                }
                proof {
                    crate::codec::lemma_frag_escape_push(t, j as int);
                    assert(out@ =~= seq![HASH] + fragment_body(toks.take(i as int)) + seq![SLASH]
                        + crate::codec::frag_escape(t.take(j as int + 1)));
                }
                j = j + 1;
            }
            proof {
                assert(t.take(m as int) =~= t);
                lemma_fragment_body_push(toks, i as int);
                assert(out@ =~= seq![HASH] + fragment_body(toks.take(i as int + 1)));
            }
            i = i + 1;
        }
        proof {
            assert(toks.take(n as int) =~= toks);
            lemma_fragment_format_valid(toks);
            assert(out@ =~= fragment_format(toks));
        }
        match bytes_to_string(out) {
            Some(s) => s,
            None => unreached(),
        }
    }

    /// Appends a trailing reference token.
    pub fn push(&mut self, component: String)
        ensures
            final(self).toks() == old(self).toks().push(encode_utf8(component@)),
    {
        let ghost t = component@;
        self.ref_toks.push(component);
        proof {
            assert(self.toks() =~= old(self).toks().push(encode_utf8(t)));
        }
    }

    /// Removes and returns the trailing reference token, if any.
    pub fn pop(&mut self) -> (r: Option<String>)
        ensures
            old(self).toks().len() == 0 ==> r is None && final(self).toks() == old(self).toks(),
            old(self).toks().len() > 0 ==> (match r {
                Some(t) => encode_utf8(t@) == old(self).toks().last() && final(self).toks()
                    == old(self).toks().drop_last(),
                None => false,
            }),
    {
        let r = self.ref_toks.pop();
        proof {
            if old(self).toks().len() == 0 {
                assert(self.toks() =~= old(self).toks());
            } else {
                assert(self.toks() =~= old(self).toks().drop_last());
            }
        }
        r
    }
}

/// How a pointer's token model arises from its stored strings.
pub(crate) proof fn toks_is(p: &JsonPointer)
    ensures
        p.toks() == str_seq_bytes(p.ref_toks@),
{
}

/// Every reference token of a pointer is well-formed text, so the parsing
/// and formatting laws apply to any pointer's tokens.
pub proof fn lemma_toks_valid(p: &JsonPointer)
    ensures
        forall|i: int| 0 <= i < p.toks().len() ==> valid_utf8(#[trigger] p.toks()[i]),
{
    assert forall|i: int| 0 <= i < p.toks().len() implies valid_utf8(#[trigger] p.toks()[i]) by {
        encode_utf8_valid_utf8(p.ref_toks@[i]@);
    }
}

/// An error met while resolving a pointer against a document.
#[derive(Debug, Clone, PartialEq, Eq)]
pub enum IndexError {
    /// The pointer named a key absent from an object; carries that key.
    NoSuchKey(String),
    /// The pointer descended into a scalar, which has no children.
    NotIndexable,
    /// The pointer named an array index at or past the length; carries it.
    OutOfBounds(usize),
}

/// The mathematical shape of an [`IndexError`]: keys are UTF-8 bytes.
pub enum IndexErrorView {
    /// The pointer named a key absent from an object.
    NoSuchKey(Seq<u8>),
    /// The pointer descended into a scalar.
    NotIndexable,
    /// The pointer named an array index at or past the length.
    OutOfBounds(int),
}

impl View for IndexError {
    type V = IndexErrorView;

    open spec fn view(&self) -> IndexErrorView {
        match self {
            IndexError::NoSuchKey(k) => IndexErrorView::NoSuchKey(encode_utf8(k@)),
            IndexError::NotIndexable => IndexErrorView::NotIndexable,
            IndexError::OutOfBounds(i) => IndexErrorView::OutOfBounds(*i as int),
        }
    }
}

} // verus!
