//! The document tree and the mathematical model of pointer resolution.
//!
//! [`JsonValue`] is the library's own tree-shaped document type: it exposes
//! exactly the capabilities resolution needs (is-object, is-array, lookup,
//! removal). An object is a vector of key–value entries; lookup takes the
//! first entry with a matching key, so a well-formed object keeps its keys
//! unique ([`keys_unique`]).

use vstd::prelude::*;
use vstd::utf8::*;

use crate::codec::str_seq_bytes;
use crate::ptr::IndexError;
use crate::ptr::IndexErrorView;
use crate::ptr::JsonPointer;
use crate::JsonPointerTarget;

verus! {

/// A tree-shaped document value.
#[derive(Debug, PartialEq)]
pub enum JsonValue {
    /// The null scalar.
    Null,
    /// A boolean scalar.
    Bool(bool),
    /// An integer scalar.
    Num(i64),
    /// A text scalar.
    Str(String),
    /// An ordered list of values.
    Array(Vec<JsonValue>),
    /// An ordered list of key–value entries.
    Object(Vec<(String, JsonValue)>),
}

/// The mathematical shape of a document: text is a sequence of UTF-8 bytes,
/// and both containers are sequences.
pub enum JsonView {
    /// The null scalar.
    Null,
    /// A boolean scalar.
    Bool(bool),
    /// An integer scalar.
    Num(i64),
    /// A text scalar, as its UTF-8 bytes.
    Str(Seq<u8>),
    /// An ordered list of values.
    Array(Seq<JsonView>),
    /// An ordered list of key–value entries.
    Object(Seq<(Seq<u8>, JsonView)>),
}

/// The mathematical shape of a document value.
pub open spec fn jview(v: JsonValue) -> JsonView
    decreases v,
{
    match v {
        JsonValue::Null => JsonView::Null,
        JsonValue::Bool(b) => JsonView::Bool(b),
        JsonValue::Num(n) => JsonView::Num(n),
        JsonValue::Str(s) => JsonView::Str(encode_utf8(s@)),
        JsonValue::Array(a) => JsonView::Array(
            Seq::new(
                a.len() as nat,
                |i: int|
                    if 0 <= i < a.len() {
                        jview(a[i])
                    } else {
                        JsonView::Null
                    },
            ),
        ),
        JsonValue::Object(o) => JsonView::Object(
            Seq::new(
                o.len() as nat,
                |i: int|
                    if 0 <= i < o.len() {
                        (encode_utf8(o[i].0@), jview(o[i].1))
                    } else {
                        (Seq::empty(), JsonView::Null)
                    },
            ),
        ),
    }
}

impl View for JsonValue {
    type V = JsonView;

    open spec fn view(&self) -> JsonView {
        jview(*self)
    }
}

/// The index of the first entry whose key is `key`, or `-1` if no entry
/// matches. Lookup takes the first match, so it stays deterministic even on
/// an object that is not well-formed.
pub open spec fn key_index(entries: Seq<(Seq<u8>, JsonView)>, key: Seq<u8>) -> int
    decreases entries.len(),
{
    if entries.len() == 0 {
        -1
    } else if entries[0].0 == key {
        0
    } else if key_index(entries.skip(1), key) < 0 {
        -1
    } else {
        1 + key_index(entries.skip(1), key)
    }
}

/// `key_index` finds the first match when there is one, and `-1` otherwise.
pub proof fn lemma_key_index(entries: Seq<(Seq<u8>, JsonView)>, key: Seq<u8>)
    ensures
        key_index(entries, key) >= 0 ==> {
            &&& key_index(entries, key) < entries.len()
            &&& entries[key_index(entries, key)].0 == key
            &&& forall|i: int| 0 <= i < key_index(entries, key) ==> (#[trigger] entries[i]).0 != key
        },
        key_index(entries, key) < 0 ==> forall|i: int|
            0 <= i < entries.len() ==> (#[trigger] entries[i]).0 != key,
    decreases entries.len(),
{
    if entries.len() == 0 {
    } else if entries[0].0 == key {
    } else {
        lemma_key_index(entries.skip(1), key);
        assert forall|i: int| 1 <= i < entries.len() implies (#[trigger] entries[i]).0
            == entries.skip(1)[i - 1].0 by {}
    }
}

/// True when every byte of `t` is an ASCII decimal digit.
pub open spec fn is_digits(t: Seq<u8>) -> bool {
    forall|i: int| 0 <= i < t.len() ==> 0x30 <= #[trigger] t[i] <= 0x39
}

/// The number a string of decimal digits denotes.
pub open spec fn digits_val(t: Seq<u8>) -> int
    decreases t.len(),
{
    if t.len() == 0 {
        0
    } else {
        digits_val(t.drop_last()) * 10 + (t.last() - 0x30)
    }
}

/// How a reference token is read against an array of length `len`: the
/// token `-` names the index one past the end; a non-empty all-digit token
/// (leading zeros allowed) names its numeric value, provided that value
/// fits the machine's index type; any other token is not an index at all.
pub open spec fn token_as_index(tok: Seq<u8>, len: int) -> Option<int> {
    if tok =~= seq![0x2du8] {
        Some(len)
    } else if tok.len() > 0 && is_digits(tok) && digits_val(tok) <= usize::MAX as int {
        Some(digits_val(tok))
    } else {
        None
    }
}

/// One step of resolution: how a single reference token selects a child of
/// a node. An object is searched by key; an array reads the token as an
/// index, where a token that is not an index is treated exactly like a
/// missing key; a scalar has no children.
pub open spec fn spec_step(v: JsonView, tok: Seq<u8>) -> Result<JsonView, crate::ptr::IndexErrorView> {
    match v {
        JsonView::Object(es) => {
            let j = key_index(es, tok);
            if j >= 0 {
                Ok(es[j].1)
            } else {
                Err(crate::ptr::IndexErrorView::NoSuchKey(tok))
            }
        },
        JsonView::Array(a) => match token_as_index(tok, a.len() as int) {
            Some(i) => if i < a.len() {
                Ok(a[i])
            } else {
                Err(crate::ptr::IndexErrorView::OutOfBounds(i))
            },
            None => Err(crate::ptr::IndexErrorView::NoSuchKey(tok)),
        },
        _ => Err(crate::ptr::IndexErrorView::NotIndexable),
    }
}

/// Full resolution: a fold of [`spec_step`] over the tokens, halting at the
/// first error. The empty token sequence names the whole document.
pub open spec fn spec_resolve(v: JsonView, toks: Seq<Seq<u8>>) -> Result<
    JsonView,
    crate::ptr::IndexErrorView,
>
    decreases toks.len(),
{
    if toks.len() == 0 {
        Ok(v)
    } else {
        match spec_step(v, toks[0]) {
            Ok(c) => spec_resolve(c, toks.skip(1)),
            Err(e) => Err(e),
        }
    }
}

/// The tree with the node at the given path replaced by `new`. Meaningful
/// when the path resolves; elsewhere it leaves the tree unchanged.
pub open spec fn spec_replace(v: JsonView, toks: Seq<Seq<u8>>, new: JsonView) -> JsonView
    recommends
        spec_resolve(v, toks) is Ok,
    decreases toks.len(),
{
    if toks.len() == 0 {
        new
    } else {
        match v {
            JsonView::Object(es) => {
                let j = key_index(es, toks[0]);
                if j >= 0 {
                    JsonView::Object(
                        es.update(j, (es[j].0, spec_replace(es[j].1, toks.skip(1), new))),
                    )
                } else {
                    v
                }
            },
            JsonView::Array(a) => match token_as_index(toks[0], a.len() as int) {
                Some(i) => if 0 <= i < a.len() {
                    JsonView::Array(a.update(i, spec_replace(a[i], toks.skip(1), new)))
                } else {
                    v
                },
                None => v,
            },
            _ => v,
        }
    }
}

/// The view of an object's entry list, element by element.
pub open spec fn entries_view(entries: Seq<(String, JsonValue)>) -> Seq<(Seq<u8>, JsonView)> {
    Seq::new(entries.len(), |i: int| (encode_utf8(entries[i].0@), entries[i].1@))
}

/// The view of an array's element list, element by element.
pub open spec fn arr_view(a: Seq<JsonValue>) -> Seq<JsonView> {
    Seq::new(a.len(), |i: int| a[i]@)
}

/// Unfolds the view of a container value to the element-wise helpers.
pub broadcast proof fn lemma_view_unfold(v: JsonValue)
    ensures
        v matches JsonValue::Object(o) ==> #[trigger] v@ == JsonView::Object(entries_view(o@)),
        v matches JsonValue::Array(a) ==> v@ == JsonView::Array(arr_view(a@)),
{
    match v {
        JsonValue::Object(o) => {
            let es = v@->Object_0;
            assert forall|k: int| 0 <= k < es.len() implies es[k] == entries_view(o@)[k] by {}
            assert(es =~= entries_view(o@));
        },
        JsonValue::Array(a) => {
            let s = v@->Array_0;
            assert forall|k: int| 0 <= k < s.len() implies s[k] == arr_view(a@)[k] by {}
            assert(s =~= arr_view(a@));
        },
        _ => {},
    }
}

/// Unfolds one step of [`spec_resolve`] at position `i` of the tokens.
pub proof fn lemma_resolve_step(v: JsonView, toks: Seq<Seq<u8>>, i: int)
    requires
        0 <= i < toks.len(),
    ensures
        spec_resolve(v, toks.skip(i)) == (match spec_step(v, toks[i]) {
            Ok(c) => spec_resolve(c, toks.skip(i + 1)),
            Err(e) => Err(e),
        }),
{
    assert(toks.skip(i)[0] == toks[i]);
    assert(toks.skip(i).skip(1) =~= toks.skip(i + 1));
}

/// Compares two strings byte for byte.
fn str_eq_bytes(a: &str, b: &str) -> (r: bool)
    ensures
        r <==> encode_utf8(a@) == encode_utf8(b@),
{
    let ab = a.as_bytes();
    let bb = b.as_bytes();
    if ab.len() != bb.len() {
        return false;
    }
    let n = ab.len();
    let mut i: usize = 0;
    while i < n
        invariant
            i <= n,
            n == ab@.len(),
            ab@.len() == bb@.len(),
            ab@ == encode_utf8(a@),
            bb@ == encode_utf8(b@),
            forall|k: int| 0 <= k < i ==> ab@[k] == bb@[k],
        decreases n - i,
    {
        if ab[i] != bb[i] {
            return false;
        }
        i = i + 1;
    }
    proof {
        assert(ab@ =~= bb@);
    }
    true
}

/// The index of the first entry whose key has the same bytes as `tok`.
fn find_key(entries: &Vec<(String, JsonValue)>, tok: &str) -> (r: Option<usize>)
    ensures
        match r {
            Some(j) => {
                &&& j < entries@.len()
                &&& encode_utf8(entries@[j as int].0@) == encode_utf8(tok@)
                &&& forall|k: int|
                    0 <= k < j ==> encode_utf8((#[trigger] entries@[k]).0@) != encode_utf8(tok@)
            },
            None => forall|k: int|
                0 <= k < entries@.len() ==> encode_utf8((#[trigger] entries@[k]).0@)
                    != encode_utf8(tok@),
        },
{
    let m = entries.len();
    let mut j: usize = 0;
    while j < m
        invariant
            j <= m,
            m == entries@.len(),
            forall|k: int|
                0 <= k < j ==> encode_utf8((#[trigger] entries@[k]).0@) != encode_utf8(tok@),
        decreases m - j,
    {
        if str_eq_bytes(entries[j].0.as_str(), tok) {
            return Some(j);
        }
        j = j + 1;
    }
    None
}

/// A string of decimal digits denotes a non-negative number.
proof fn lemma_digits_val_nonneg(t: Seq<u8>)
    requires
        is_digits(t),
    ensures
        digits_val(t) >= 0,
    decreases t.len(),
{
    if t.len() > 0 {
        assert(is_digits(t.drop_last()));
        lemma_digits_val_nonneg(t.drop_last());
    }
}

/// Reading one more digit multiplies the prefix value by ten and adds it.
proof fn lemma_digits_val_take_step(t: Seq<u8>, i: int)
    requires
        0 <= i < t.len(),
    ensures
        digits_val(t.take(i + 1)) == digits_val(t.take(i)) * 10 + (t[i] - 0x30),
{
    assert(t.take(i + 1).drop_last() =~= t.take(i));
    assert(t.take(i + 1).last() == t[i]);
}

/// A digit string's value is at least the value of any of its prefixes.
proof fn lemma_digits_val_prefix(t: Seq<u8>, i: int)
    requires
        0 <= i <= t.len(),
        is_digits(t),
    ensures
        digits_val(t.take(i)) <= digits_val(t),
    decreases t.len() - i,
{
    if i == t.len() {
        assert(t.take(i) =~= t);
    } else {
        lemma_digits_val_take_step(t, i);
        assert(is_digits(t.take(i)));
        lemma_digits_val_nonneg(t.take(i));
        lemma_digits_val_prefix(t, i + 1);
    }
}

/// Reads a reference token as an array index for an array of length `len`,
/// exactly as [`token_as_index`] does.
fn token_index(tok: &str, len: usize) -> (r: Option<usize>)
    ensures
        match r {
            Some(i) => token_as_index(encode_utf8(tok@), len as int) == Some(i as int),
            None => token_as_index(encode_utf8(tok@), len as int) is None,
        },
{
    let tb = tok.as_bytes();
    let ghost t = encode_utf8(tok@);
    if tb.len() == 1 && tb[0] == 0x2d {
        proof {
            assert(t =~= seq![0x2du8]);
        }
        return Some(len);
    }
    proof {
        if t =~= seq![0x2du8] {
            assert(tb@.len() == 1 && tb@[0] == 0x2d);
            assert(false);
        }
    }
    if tb.len() == 0 {
        return None;
    }
    let n = tb.len();
    let mut acc: usize = 0;
    let mut i: usize = 0;
    while i < n
        invariant
            i <= n,
            n == t.len(),
            0 < t.len(),
            tb@ == t,
            t == encode_utf8(tok@),
            !(t =~= seq![0x2du8]),
            is_digits(t.take(i as int)),
            acc == digits_val(t.take(i as int)),
        decreases n - i,
    {
        let b = tb[i];
        if b < 0x30 || b > 0x39 {
            proof {
                assert(t[i as int] == b);
                assert(!is_digits(t));
            }
            return None;
        }
        let d = (b - 0x30) as usize;
        proof {
            lemma_digits_val_take_step(t, i as int);
            assert(is_digits(t.take(i as int + 1)));
        }
        let acc10 = match acc.checked_mul(10) {
            Some(m) => m,
            None => {
                proof {
                    lemma_digits_val_nonneg(t.take(i as int));
                    if is_digits(t) {
                        lemma_digits_val_prefix(t, i as int + 1);
                        assert(digits_val(t.take(i as int + 1)) == acc * 10 + (t[i as int]
                            - 0x30));
                        assert(digits_val(t) > usize::MAX as int);
                    }
                }
                return None;
            },
        };
        let next = match acc10.checked_add(d) {
            Some(s) => s,
            None => {
                proof {
                    lemma_digits_val_nonneg(t.take(i as int));
                    if is_digits(t) {
                        lemma_digits_val_prefix(t, i as int + 1);
                        assert(digits_val(t.take(i as int + 1)) == acc * 10 + (t[i as int]
                            - 0x30));
                        assert(digits_val(t) > usize::MAX as int);
                    }
                }
                return None;
            },
        };
        acc = next;
        i = i + 1;
    }
    proof {
        assert(t.take(n as int) =~= t);
        lemma_digits_val_nonneg(t);
    }
    Some(acc)
}

/// True when every object in the tree has pairwise distinct keys: the
/// well-formedness invariant of a document.
pub open spec fn keys_unique(v: JsonView) -> bool
    decreases v,
{
    match v {
        JsonView::Array(a) => forall|i: int| 0 <= i < a.len() ==> keys_unique(#[trigger] a[i]),
        JsonView::Object(es) => {
            &&& forall|i: int, j: int|
                0 <= i < j < es.len() ==> (#[trigger] es[i].0) != (#[trigger] es[j].0)
            &&& forall|i: int| 0 <= i < es.len() ==> keys_unique(#[trigger] es[i].1)
        },
        _ => true,
    }
}

impl JsonPointerTarget for JsonValue {
    open spec fn node_view(&self) -> JsonView {
        self@
    }

    fn get<'a>(&'a self, ptr: &JsonPointer) -> (r: Result<&'a Self, IndexError>) {
        proof {
            crate::ptr::toks_is(ptr);
            assert(ptr.toks().skip(0) =~= ptr.toks());
        }
        let ghost toks = ptr.toks();
        let mut cur: &JsonValue = self;
        let n = ptr.ref_toks.len();
        let mut i: usize = 0;
        while i < n
            invariant
                i <= n,
                n == ptr.ref_toks@.len(),
                toks == str_seq_bytes(ptr.ref_toks@),
                toks == ptr.toks(),
                toks.len() == n,
                spec_resolve(self@, toks) == spec_resolve(cur@, toks.skip(i as int)),
            decreases n - i,
        {
            let ghost cv = cur@;
            let ghost tokb = toks[i as int];
            let tok: &String = &ptr.ref_toks[i];
            proof {
                assert(encode_utf8(tok@) == tokb);
                lemma_resolve_step(cv, toks, i as int);
                lemma_view_unfold(*cur);
            }
            match cur {
                JsonValue::Object(entries) => {
                    let ghost es = entries_view(entries@);
                    proof {
                        assert forall|k: int| 0 <= k < es.len() implies es[k].0 == encode_utf8(
                            entries@[k].0@,
                        ) by {}
                    }
                    match find_key(entries, tok.as_str()) {
                        Some(j) => {
                            proof {
                                lemma_key_index(es, tokb);
                                assert(es[j as int].0 == tokb);
                                assert(key_index(es, tokb) == j as int);
                            }
                            cur = &entries[j].1;
                        },
                        None => {
                            proof {
                                lemma_key_index(es, tokb);
                                assert(key_index(es, tokb) < 0);
                            }
                            return Err(IndexError::NoSuchKey(tok.clone()));
                        },
                    }
                },
                JsonValue::Array(arr) => {
                    match token_index(tok.as_str(), arr.len()) {
                        Some(idx) => {
                            if idx < arr.len() {
                                cur = &arr[idx];
                            } else {
                                return Err(IndexError::OutOfBounds(idx));
                            }
                        },
                        None => {
                            return Err(IndexError::NoSuchKey(tok.clone()));
                        },
                    }
                },
                _ => {
                    return Err(IndexError::NotIndexable);
                },
            }
            i = i + 1;
        }
        proof {
            assert(toks.skip(n as int) =~= Seq::<Seq<u8>>::empty());
        }
        Ok(cur)
    }

    fn get_mut<'a>(&'a mut self, ptr: &JsonPointer) -> (r: Result<&'a mut Self, IndexError>) {
        proof {
            crate::ptr::toks_is(ptr);
            assert(str_seq_bytes(ptr.ref_toks@).skip(0) =~= ptr.toks());
        }
        get_mut_from(self, &ptr.ref_toks, 0)
    }

    fn get_owned(self, ptr: &JsonPointer) -> (r: Result<Self, IndexError>) {
        proof {
            crate::ptr::toks_is(ptr);
            assert(str_seq_bytes(ptr.ref_toks@).skip(0) =~= ptr.toks());
        }
        let mut doc = self;
        match get_mut_from(&mut doc, &ptr.ref_toks, 0) {
            Ok(node) => {
                let mut taken = JsonValue::Null;
                core::mem::swap(node, &mut taken);
                Ok(taken)
            },
            Err(e) => Err(e),
        }
    }
}

/// The tree walk shared by [`JsonPointerTarget::get_mut`], descending from
/// token `i` onward: on success the final document is the old one with the
/// located node replaced by whatever is left behind the returned reference.
fn get_mut_from<'a>(v: &'a mut JsonValue, toks: &Vec<String>, i: usize) -> (r: Result<
    &'a mut JsonValue,
    IndexError,
>)
    requires
        i <= toks@.len(),
    ensures
        ({
            let path = str_seq_bytes(toks@).skip(i as int);
            match r {
                Ok(node) => spec_resolve(old(v)@, path) == Ok::<JsonView, IndexErrorView>((*node)@)
                    && (*final(v))@ == spec_replace(old(v)@, path, (*final(node))@),
                Err(e) => (*final(v))@ == old(v)@ && spec_resolve(old(v)@, path) == Err::<
                    JsonView,
                    IndexErrorView,
                >(e@),
            }
        }),
    decreases toks@.len() - i,
{
    broadcast use lemma_view_unfold;

    let ghost path = str_seq_bytes(toks@).skip(i as int);
    if i == toks.len() {
        proof {
            assert(path =~= Seq::<Seq<u8>>::empty());
        }
        return Ok(v);
    }
    let ghost cv = v@;
    let ghost tokb = str_seq_bytes(toks@)[i as int];
    let tok: &String = &toks[i];
    proof {
        assert(encode_utf8(tok@) == tokb);
        assert(path[0] == tokb);
        assert(path.skip(1) =~= str_seq_bytes(toks@).skip(i as int + 1));
        lemma_resolve_step(cv, str_seq_bytes(toks@), i as int);
        assert(path == str_seq_bytes(toks@).skip(i as int));
    }
    match v {
        JsonValue::Object(entries) => {
            let ghost es = entries_view(entries@);
            match find_key(entries, tok.as_str()) {
                Some(j) => {
                    proof {
                        lemma_key_index(es, tokb);
                        assert(es[j as int].0 == tokb);
                        assert(key_index(es, tokb) == j as int);
                    }
                    let ghost e0 = entries@;
                    let pair: &mut (String, JsonValue) = &mut entries[j];
                    let child: &mut JsonValue = &mut pair.1;
                    let res = get_mut_from(child, toks, i + 1);
                    proof {
                        assert forall|c: JsonValue|
                            entries_view(e0.update(j as int, (e0[j as int].0, c))) =~= es.update(
                                j as int,
                                (es[j as int].0, c@),
                            ) by {}
                        assert forall|c: JsonValue| c@ == es[j as int].1 implies entries_view(
                            e0.update(j as int, (e0[j as int].0, c)),
                        ) =~= es by {}
                    }
                    res
                },
                None => {
                    proof {
                        lemma_key_index(es, tokb);
                    }
                    Err(IndexError::NoSuchKey(tok.clone()))
                },
            }
        },
        JsonValue::Array(arr) => {
            let ghost av = arr_view(arr@);
            match token_index(tok.as_str(), arr.len()) {
                Some(idx) => {
                    if idx < arr.len() {
                        let ghost a0 = arr@;
                        let child: &mut JsonValue = &mut arr[idx];
                        let res = get_mut_from(child, toks, i + 1);
                        proof {
                            assert forall|c: JsonValue|
                                arr_view(a0.update(idx as int, c)) =~= av.update(
                                    idx as int,
                                    c@,
                                ) by {}
                            assert forall|c: JsonValue| c@ == av[idx as int] implies arr_view(
                                a0.update(idx as int, c),
                            ) =~= av by {}
                        }
                        res
                    } else {
                        Err(IndexError::OutOfBounds(idx))
                    }
                },
                None => Err(IndexError::NoSuchKey(tok.clone())),
            }
        },
        _ => Err(IndexError::NotIndexable),
    }
}

} // verus!
