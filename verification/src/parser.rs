//! Parsing pointer text in both RFC 6901 forms.

use vstd::prelude::*;
use vstd::utf8::*;

use crate::codec::bytes_to_string;
use crate::codec::first_slash;
use crate::codec::hex_val;
use crate::codec::is_hex_digit;
use crate::codec::lemma_first_slash_char;
use crate::codec::parse_body;
use crate::codec::parse_plain;
use crate::codec::parse_pointer;
use crate::codec::pct_decode;
use crate::codec::str_seq_bytes;
use crate::codec::unescape;
use crate::codec::ParseError;
use crate::codec::HASH;
use crate::codec::PERCENT;
use crate::codec::SLASH;
use crate::codec::TILDE;
use crate::ptr::JsonPointer;

verus! {

/// The value of an ASCII hex digit of either case, or `None`.
fn hex_value(b: u8) -> (r: Option<u8>)
    ensures
        match r {
            Some(v) => is_hex_digit(b) && v == hex_val(b) && v < 16,
            None => !is_hex_digit(b),
        },
{
    if 0x30 <= b && b <= 0x39 {
        Some(b - 0x30)
    } else if 0x41 <= b && b <= 0x46 {
        Some(b - 0x41 + 10)
    } else if 0x61 <= b && b <= 0x66 {
        Some(b - 0x61 + 10)
    } else {
        None
    }
}

/// Parses the plain form over bytes: the empty input is the root pointer;
/// anything else must begin with `/` and is split on `/` and unescaped
/// segment by segment, failing on the first malformed escape.
fn parse_rest(b: Vec<u8>) -> (r: Result<Vec<String>, ParseError>)
    ensures
        match r {
            Ok(toks) => parse_plain(b@) == Ok::<Seq<Seq<u8>>, ParseError>(str_seq_bytes(toks@)),
            Err(e) => parse_plain(b@) == Err::<Seq<Seq<u8>>, ParseError>(e),
        },
{
    let len = b.len();
    if len == 0 {
        let toks: Vec<String> = Vec::new();
        proof {
            assert(str_seq_bytes(toks@) =~= Seq::<Seq<u8>>::empty());
        }
        return Ok(toks);
    }
    if b[0] != SLASH {
        return Err(ParseError::MissingLeadingSlash);
    }
    let mut toks: Vec<String> = Vec::new();
    let mut pos: usize = 1;
    proof {
        assert forall|rest: Seq<Seq<u8>>|
            Seq::<Seq<u8>>::empty() + rest =~= rest by {}
        assert(str_seq_bytes(toks@) =~= Seq::<Seq<u8>>::empty());
    }
    loop
        invariant
            1 <= pos <= len,
            len == b@.len(),
            b@.len() > 0 && b@[0] == SLASH,
            ({
                match parse_body(b@.skip(pos as int)) {
                    Ok(rest) => parse_body(b@.skip(1)) == Ok::<Seq<Seq<u8>>, ParseError>(
                        str_seq_bytes(toks@) + rest,
                    ),
                    Err(e) => parse_body(b@.skip(1)) == Err::<Seq<Seq<u8>>, ParseError>(e),
                }
            }),
        decreases len - pos,
    {
        let ghost srem = b@.skip(pos as int);
        let mut e: usize = pos;
        while e < len && b[e] != SLASH
            invariant
                pos <= e <= len,
                len == b@.len(),
                forall|k: int| pos <= k < e ==> b@[k] != SLASH,
            decreases len - e,
        {
            e = e + 1;
        }
        proof {
            assert forall|k: int| 0 <= k < e - pos implies srem[k] != SLASH by {
                assert(b@[pos + k] != SLASH);
            }
            lemma_first_slash_char(srem, e - pos);
        }
        let ghost seg = srem.take(e - pos);
        let mut cur: Vec<u8> = Vec::new();
        let mut j: usize = pos;
        proof {
            assert(seg.skip(0) =~= seg);
            assert forall|rest: Seq<u8>| Seq::<u8>::empty() + rest =~= rest by {}
        }
        while j < e
            invariant
                1 <= pos <= j <= e <= len,
                len == b@.len(),
                srem == b@.skip(pos as int),
                seg == srem.take(e - pos),
                first_slash(srem) == e - pos,
                b@.len() > 0 && b@[0] == SLASH,
                ({
                    match unescape(seg.skip(j - pos)) {
                        Ok(rest) => unescape(seg) == Ok::<Seq<u8>, ParseError>(cur@ + rest),
                        Err(er) => unescape(seg) == Err::<Seq<u8>, ParseError>(er),
                    }
                }),
                ({
                    match parse_body(srem) {
                        Ok(rest) => parse_body(b@.skip(1)) == Ok::<Seq<Seq<u8>>, ParseError>(
                            str_seq_bytes(toks@) + rest,
                        ),
                        Err(er) => parse_body(b@.skip(1)) == Err::<Seq<Seq<u8>>, ParseError>(er),
                    }
                }),
            decreases e - j,
        {
            let ghost sj = seg.skip(j - pos);
            proof {
                assert(sj.len() == e - j);
                assert(sj[0] == seg[j - pos]);
                assert(seg[j - pos] == b@[j as int]);
            }
            let c = b[j];
            if c == TILDE {
                if j + 1 == e {
                    proof {
                        assert(unescape(sj) == Err::<Seq<u8>, ParseError>(ParseError::EndInEscape));
                        assert(unescape(seg) == Err::<Seq<u8>, ParseError>(ParseError::EndInEscape));
                        assert(parse_body(srem) == Err::<Seq<Seq<u8>>, ParseError>(
                            ParseError::EndInEscape,
                        ));
                    }
                    return Err(ParseError::EndInEscape);
                }
                proof {
                    assert(sj[1] == seg[j + 1 - pos]);
                    assert(seg[j + 1 - pos] == b@[j as int + 1]);
                    assert(sj.skip(2) =~= seg.skip(j + 2 - pos));
                }
                let c2 = b[j + 1];
                if c2 == 0x30 || c2 == 0x31 {
                    let ghost oldcur = cur@;
                    let ghost d: u8 = if c2 == 0x30 {
                        TILDE
                    } else {
                        SLASH
                    };
                    if c2 == 0x30 {
                        cur.push(TILDE);
                    } else {
                        cur.push(SLASH);
                    }
                    proof {
                        match unescape(seg.skip(j + 2 - pos)) {
                            Ok(t) => {
                                assert(unescape(sj) == Ok::<Seq<u8>, ParseError>(seq![d] + t));
                                assert(unescape(seg) == Ok::<Seq<u8>, ParseError>(
                                    oldcur + (seq![d] + t),
                                ));
                                assert(oldcur + (seq![d] + t) =~= cur@ + t);
                            },
                            Err(er) => {
                                assert(unescape(sj) == Err::<Seq<u8>, ParseError>(er));
                            },
                        }
                    }
                    j = j + 2;
                } else {
                    proof {
                        assert(unescape(sj) == Err::<Seq<u8>, ParseError>(
                            ParseError::InvalidEscape(c2),
                        ));
                        assert(unescape(seg) == Err::<Seq<u8>, ParseError>(
                            ParseError::InvalidEscape(c2),
                        ));
                        assert(parse_body(srem) == Err::<Seq<Seq<u8>>, ParseError>(
                            ParseError::InvalidEscape(c2),
                        ));
                    }
                    return Err(ParseError::InvalidEscape(c2));
                }
            } else {
                proof {
                    assert(sj.skip(1) =~= seg.skip(j + 1 - pos));
                }
                let ghost oldcur = cur@;
                cur.push(c);
                proof {
                    match unescape(seg.skip(j + 1 - pos)) {
                        Ok(t) => {
                            assert(unescape(sj) == Ok::<Seq<u8>, ParseError>(seq![c] + t));
                            assert(unescape(seg) == Ok::<Seq<u8>, ParseError>(
                                oldcur + (seq![c] + t),
                            ));
                            assert(oldcur + (seq![c] + t) =~= cur@ + t);
                        },
                        Err(er) => {
                            assert(unescape(sj) == Err::<Seq<u8>, ParseError>(er));
                        },
                    }
                }
                j = j + 1;
            }
        }
        proof {
            assert(seg.skip(e - pos) =~= Seq::<u8>::empty());
            assert(unescape(Seq::<u8>::empty()) == Ok::<Seq<u8>, ParseError>(Seq::<u8>::empty()));
            assert(cur@ + Seq::<u8>::empty() =~= cur@);
            assert(unescape(seg) == Ok::<Seq<u8>, ParseError>(cur@));
        }
        let ghost curv = cur@;
        match bytes_to_string(cur) {
            None => {
                return Err(ParseError::InvalidPercentEncoding);
            },
            Some(t) => {
                let ghost oldtoks = toks@;
                toks.push(t);
                proof {
                    assert(str_seq_bytes(toks@) =~= str_seq_bytes(oldtoks).push(curv));
                }
                if e == len {
                    proof {
                        assert(e - pos == srem.len());
                        assert(parse_body(srem) == Ok::<Seq<Seq<u8>>, ParseError>(seq![curv]));
                        assert(str_seq_bytes(oldtoks) + seq![curv] =~= str_seq_bytes(toks@));
                    }
                    return Ok(toks);
                }
                proof {
                    assert(srem.skip(e - pos + 1) =~= b@.skip(e as int + 1));
                    assert forall|rest: Seq<Seq<u8>>|
                        str_seq_bytes(oldtoks) + (seq![curv] + rest) =~= str_seq_bytes(toks@)
                            + rest by {
                        assert(str_seq_bytes(oldtoks) + seq![curv] =~= str_seq_bytes(toks@));
                    }
                }
                pos = e + 1;
            },
        }
    }
}

impl JsonPointer {
    /// Parses a pointer from either textual form: a leading `#` selects the
    /// URI fragment form, whose remainder is percent-decoded before the
    /// plain rules apply; anything else is read in the plain form.
    pub fn parse(s: &str) -> (r: Result<JsonPointer, ParseError>)
        ensures
            match r {
                Ok(p) => parse_pointer(encode_utf8(s@)) == Ok::<Seq<Seq<u8>>, ParseError>(
                    p.toks(),
                ),
                Err(e) => parse_pointer(encode_utf8(s@)) == Err::<Seq<Seq<u8>>, ParseError>(e),
            },
    {
        let bytes = s.as_bytes_vec();
        let ghost sb = encode_utf8(s@);
        let blen = bytes.len();
        if blen > 0 && bytes[0] == HASH {
            let mut dec: Vec<u8> = Vec::new();
            let mut i: usize = 1;
            proof {
                assert forall|rest: Seq<u8>| Seq::<u8>::empty() + rest =~= rest by {}
            }
            while i < blen
                invariant
                    1 <= i <= blen,
                    blen == sb.len(),
                    bytes@ == sb,
                    sb == encode_utf8(s@),
                    sb.len() > 0 && sb[0] == HASH,
                    ({
                        match pct_decode(sb.skip(i as int)) {
                            Ok(rest) => pct_decode(sb.skip(1)) == Ok::<Seq<u8>, ParseError>(
                                dec@ + rest,
                            ),
                            Err(er) => pct_decode(sb.skip(1)) == Err::<Seq<u8>, ParseError>(er),
                        }
                    }),
                decreases blen - i,
            {
                let ghost si = sb.skip(i as int);
                proof {
                    assert(si[0] == sb[i as int]);
                }
                let c = bytes[i];
                if c == PERCENT {
                    if blen - i > 2 {
                        proof {
                            assert(si.len() >= 3);
                            assert(si[1] == sb[i as int + 1]);
                            assert(si[2] == sb[i as int + 2]);
                            assert(si.skip(3) =~= sb.skip(i as int + 3));
                        }
                        let h1 = hex_value(bytes[i + 1]);
                        let h2 = hex_value(bytes[i + 2]);
                        match (h1, h2) {
                            (Some(v1), Some(v2)) => {
                                let d = v1 * 16 + v2;
                                let ghost olddec = dec@;
                                dec.push(d);
                                proof {
                                    match pct_decode(sb.skip(i as int + 3)) {
                                        Ok(t) => {
                                            assert(pct_decode(si) == Ok::<Seq<u8>, ParseError>(
                                                seq![d] + t,
                                            ));
                                            assert(olddec + (seq![d] + t) =~= dec@ + t);
                                        },
                                        Err(er) => {
                                            assert(pct_decode(si) == Err::<Seq<u8>, ParseError>(
                                                er,
                                            ));
                                        },
                                    }
                                }
                                i = i + 3;
                            },
                            _ => {
                                proof {
                                    assert(pct_decode(si) == Err::<Seq<u8>, ParseError>(
                                        ParseError::InvalidPercentEncoding,
                                    ));
                                    assert(parse_pointer(sb) == Err::<Seq<Seq<u8>>, ParseError>(
                                        ParseError::InvalidPercentEncoding,
                                    ));
                                }
                                return Err(ParseError::InvalidPercentEncoding);
                            },
                        }
                    } else {
                        proof {
                            assert(si.len() < 3);
                            assert(pct_decode(si) == Err::<Seq<u8>, ParseError>(
                                ParseError::InvalidPercentEncoding,
                            ));
                            assert(parse_pointer(sb) == Err::<Seq<Seq<u8>>, ParseError>(
                                ParseError::InvalidPercentEncoding,
                            ));
                        }
                        return Err(ParseError::InvalidPercentEncoding);
                    }
                } else {
                    proof {
                        assert(si.skip(1) =~= sb.skip(i as int + 1));
                    }
                    let ghost olddec = dec@;
                    dec.push(c);
                    proof {
                        match pct_decode(sb.skip(i as int + 1)) {
                            Ok(t) => {
                                assert(pct_decode(si) == Ok::<Seq<u8>, ParseError>(seq![c] + t));
                                assert(olddec + (seq![c] + t) =~= dec@ + t);
                            },
                            Err(er) => {
                                assert(pct_decode(si) == Err::<Seq<u8>, ParseError>(er));
                            },
                        }
                    }
                    i = i + 1;
                }
            }
            proof {
                assert(sb.skip(blen as int) =~= Seq::<u8>::empty());
                assert(pct_decode(Seq::<u8>::empty()) == Ok::<Seq<u8>, ParseError>(
                    Seq::<u8>::empty(),
                ));
                assert(dec@ + Seq::<u8>::empty() =~= dec@);
                assert(pct_decode(sb.skip(1)) == Ok::<Seq<u8>, ParseError>(dec@));
            }
            let ghost decv = dec@;
            match parse_rest(dec) {
                Ok(toks) => {
                    let ghost tv = str_seq_bytes(toks@);
                    let p = JsonPointer::new(toks);
                    proof {
                        assert(parse_pointer(sb) == Ok::<Seq<Seq<u8>>, ParseError>(tv));
                    }
                    Ok(p)
                },
                Err(e) => Err(e),
            }
        } else {
            proof {
                assert(bytes@ == sb);
            }
            match parse_rest(bytes) {
                Ok(toks) => {
                    let ghost tv = str_seq_bytes(toks@);
                    let p = JsonPointer::new(toks);
                    proof {
                        assert(parse_pointer(sb) == Ok::<Seq<Seq<u8>>, ParseError>(tv));
                    }
                    Ok(p)
                },
                Err(e) => Err(e),
            }
        }
    }
}

} // verus!
