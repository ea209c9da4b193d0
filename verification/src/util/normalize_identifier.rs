//! Normalize identifiers, so that labels and definitions can be matched.

use vstd::prelude::*;

verus! {

/// Markdown whitespace: tab, line feed, carriage return, space.
pub open spec fn is_whitespace(byte: u8) -> bool {
    byte == 0x09 || byte == 0x0A || byte == 0x0D || byte == 0x20
}

/// Collapse whitespace: the result so far, and whether whitespace followed
/// the last word.
pub open spec fn collapse(bytes: Seq<u8>) -> (Seq<u8>, bool)
    decreases bytes.len(),
{
    if bytes.len() == 0 {
        (Seq::empty(), false)
    } else {
        let (out, gap) = collapse(bytes.drop_last());
        let byte = bytes.last();
        if is_whitespace(byte) {
            (out, out.len() > 0)
        } else if gap {
            (out.push(0x20).push(byte), false)
        } else {
            (out.push(byte), false)
        }
    }
}

/// The words of `bytes`, separated by one space: whitespace at the start
/// and end is dropped, and each run of whitespace between words becomes one
/// space.
pub open spec fn collapse_whitespace(bytes: Seq<u8>) -> Seq<u8> {
    collapse(bytes).0
}

/// The lowercase mapping of `std` (`str::to_lowercase`) on a string.
pub uninterp spec fn lowercase(s: Seq<char>) -> Seq<char>;

/// The uppercase mapping of `std` (`str::to_uppercase`) on a string.
pub uninterp spec fn uppercase(s: Seq<char>) -> Seq<char>;

/// The normalized identifier of a label: whitespace collapsed, then case
/// folded by lowercasing and then uppercasing; `None` when the bytes are not
/// UTF-8.
pub open spec fn normalized(bytes: Seq<u8>) -> Option<Seq<char>> {
    let collapsed = collapse_whitespace(bytes);
    if vstd::utf8::valid_utf8(collapsed) {
        Some(uppercase(lowercase(vstd::utf8::decode_utf8(collapsed))))
    } else {
        None
    }
}

/// Whether every byte is whitespace.
pub open spec fn all_whitespace(bytes: Seq<u8>) -> bool {
    forall|i: int| 0 <= i < bytes.len() ==> #[trigger] is_whitespace(bytes[i])
}

proof fn lemma_collapse_leading(white: Seq<u8>, bytes: Seq<u8>)
    requires
        all_whitespace(white),
    ensures
        collapse(white + bytes) == collapse(bytes),
    decreases bytes.len(), white.len(),
{
    if bytes.len() == 0 {
        assert(white + bytes =~= white);
        if white.len() > 0 {
            assert(all_whitespace(white.drop_last()));
            lemma_collapse_leading(white.drop_last(), bytes);
            assert(white.drop_last() + bytes =~= white.drop_last());
            assert(is_whitespace(white[white.len() - 1]));
        }
    } else {
        assert((white + bytes).drop_last() =~= white + bytes.drop_last());
        lemma_collapse_leading(white, bytes.drop_last());
    }
}

proof fn lemma_collapse_trailing(bytes: Seq<u8>, white: Seq<u8>)
    requires
        all_whitespace(white),
    ensures
        collapse(bytes + white).0 == collapse(bytes).0,
    decreases white.len(),
{
    if white.len() == 0 {
        assert(bytes + white =~= bytes);
    } else {
        assert((bytes + white).drop_last() =~= bytes + white.drop_last());
        assert(all_whitespace(white.drop_last()));
        lemma_collapse_trailing(bytes, white.drop_last());
        assert(is_whitespace(white[white.len() - 1]));
    }
}

/// Whitespace around a label does not matter: a label matches the same
/// definitions with or without it.
pub proof fn lemma_normalized_ignores_surrounding_whitespace(
    before: Seq<u8>,
    bytes: Seq<u8>,
    after: Seq<u8>,
)
    requires
        all_whitespace(before),
        all_whitespace(after),
    ensures
        normalized(before + bytes + after) == normalized(bytes),
{
    lemma_collapse_trailing(before + bytes, after);
    lemma_collapse_leading(before, bytes);
}

/// Collapsing never puts whitespace other than a space in its result.
proof fn lemma_collapse_bytes(bytes: Seq<u8>)
    ensures
        forall|i: int|
            0 <= i < collapse(bytes).0.len() ==> !is_whitespace(#[trigger] collapse(bytes).0[i])
                || collapse(bytes).0[i] == 0x20,
    decreases bytes.len(),
{
    if bytes.len() > 0 {
        lemma_collapse_bytes(bytes.drop_last());
        let prev = collapse(bytes.drop_last()).0;
        let r = collapse(bytes).0;
        assert forall|i: int| 0 <= i < r.len() implies !is_whitespace(#[trigger] r[i]) || r[i] == 0x20 by {
            if i < prev.len() {
                assert(r[i] == prev[i]);
            }
        }
    }
}

/// Once a byte that is not whitespace is read, the result is not empty.
proof fn lemma_collapse_nonempty(bytes: Seq<u8>)
    requires
        bytes.len() > 0,
        !is_whitespace(bytes[0]),
    ensures
        collapse(bytes).0.len() > 0,
    decreases bytes.len(),
{
    if bytes.len() > 1 {
        assert(bytes.drop_last()[0] == bytes[0]);
        lemma_collapse_nonempty(bytes.drop_last());
    } else {
        assert(bytes.drop_last() =~= Seq::<u8>::empty());
    }
}

/// Reading more bytes that start with a byte that is not whitespace: what
/// came before, a space if whitespace followed its last word, and then the
/// new bytes collapsed on their own.
proof fn lemma_collapse_append(p: Seq<u8>, v: Seq<u8>)
    requires
        v.len() > 0,
        !is_whitespace(v[0]),
    ensures
        collapse(p + v) == (collapse(p).0 + (if collapse(p).1 {
            seq![0x20u8]
        } else {
            Seq::<u8>::empty()
        }) + collapse(v).0, collapse(v).1),
    decreases v.len(),
{
    let sp = if collapse(p).1 {
        seq![0x20u8]
    } else {
        Seq::<u8>::empty()
    };
    if v.len() == 1 {
        assert((p + v).drop_last() =~= p);
        assert(v.drop_last() =~= Seq::<u8>::empty());
        assert(collapse(Seq::<u8>::empty()) == (Seq::<u8>::empty(), false));
        assert((p + v).last() == v[0]);
        assert(v.last() == v[0]);
        assert(collapse(v).0 =~= seq![v[0]]);
        assert(collapse(p + v).0 =~= collapse(p).0 + sp + collapse(v).0);
    } else {
        let w = v.drop_last();
        assert(w[0] == v[0]);
        lemma_collapse_append(p, w);
        lemma_collapse_nonempty(w);
        assert((p + v).drop_last() =~= p + w);
        assert(collapse(p + v).0 =~= collapse(p).0 + sp + collapse(v).0);
    }
}

/// Bytes that end in a byte that is not whitespace leave no gap open.
proof fn lemma_collapse_ends_word(u: Seq<u8>)
    requires
        u.len() > 0,
        !is_whitespace(u.last()),
    ensures
        !collapse(u).1,
        collapse(u).0.len() > 0,
{
}

/// Whitespace after some bytes adds nothing, and leaves a gap open when a
/// word came before.
proof fn lemma_collapse_then_white(u: Seq<u8>, w: Seq<u8>)
    requires
        all_whitespace(w),
        w.len() > 0,
    ensures
        collapse(u + w) == (collapse(u).0, collapse(u).0.len() > 0),
    decreases w.len(),
{
    assert((u + w).drop_last() =~= u + w.drop_last());
    lemma_collapse_trailing(u, w.drop_last());
    assert(is_whitespace(w[w.len() - 1]));
}

/// Collapsed whitespace holds no tab, line feed, or carriage return: its
/// only whitespace is the space.
pub proof fn lemma_collapsed_only_spaces(bytes: Seq<u8>)
    ensures
        forall|i: int|
            0 <= i < collapse_whitespace(bytes).len() ==> #[trigger] collapse_whitespace(bytes)[i]
                != 0x09 && collapse_whitespace(bytes)[i] != 0x0A && collapse_whitespace(bytes)[i]
                != 0x0D,
{
    lemma_collapse_bytes(bytes);
}

/// A word without whitespace is kept as it is.
pub proof fn lemma_collapse_word(bytes: Seq<u8>)
    requires
        forall|i: int| 0 <= i < bytes.len() ==> !is_whitespace(#[trigger] bytes[i]),
    ensures
        collapse_whitespace(bytes) == bytes,
    decreases bytes.len(),
{
    if bytes.len() > 0 {
        let p = bytes.drop_last();
        assert forall|i: int| 0 <= i < p.len() implies !is_whitespace(#[trigger] p[i]) by {
            assert(p[i] == bytes[i]);
        }
        lemma_collapse_word(p);
        if p.len() > 0 {
            lemma_collapse_ends_word(p);
        }
        assert(!is_whitespace(bytes[bytes.len() - 1]));
        assert(collapse_whitespace(bytes) =~= bytes);
    }
}

/// A run of whitespace between two words becomes exactly one space: the
/// text before it and after it collapse on their own, joined by a single
/// space.
pub proof fn lemma_collapse_gap(u: Seq<u8>, w: Seq<u8>, v: Seq<u8>)
    requires
        u.len() > 0,
        !is_whitespace(u.last()),
        w.len() > 0,
        all_whitespace(w),
        v.len() > 0,
        !is_whitespace(v[0]),
    ensures
        collapse_whitespace(u + w + v) == collapse_whitespace(u) + seq![0x20u8] + collapse_whitespace(v),
{
    lemma_collapse_ends_word(u);
    lemma_collapse_then_white(u, w);
    lemma_collapse_append(u + w, v);
}

/// Whitespace at the start and at the end is dropped.
pub proof fn lemma_collapse_trims(before: Seq<u8>, bytes: Seq<u8>, after: Seq<u8>)
    requires
        all_whitespace(before),
        all_whitespace(after),
    ensures
        collapse_whitespace(before + bytes + after) == collapse_whitespace(bytes),
{
    lemma_collapse_trailing(before + bytes, after);
    lemma_collapse_leading(before, bytes);
}

/// Words that touch stay together: no space is put between them.
pub proof fn lemma_collapse_touching(u: Seq<u8>, v: Seq<u8>)
    requires
        u.len() > 0,
        !is_whitespace(u.last()),
        v.len() > 0,
        !is_whitespace(v[0]),
    ensures
        collapse_whitespace(u + v) == collapse_whitespace(u) + collapse_whitespace(v),
{
    lemma_collapse_ends_word(u);
    lemma_collapse_append(u, v);
    assert(collapse(u).0 + Seq::<u8>::empty() + collapse(v).0 =~= collapse(u).0 + collapse(v).0);
}

/// Decode UTF-8 with `String::from_utf8`: the string when the bytes are
/// valid UTF-8, else nothing.
#[verifier::external_body]
fn utf8_string(bytes: Vec<u8>) -> (r: Option<String>)
    ensures
        r is Some <==> vstd::utf8::valid_utf8(bytes@),
        r matches Some(s) ==> s@ == vstd::utf8::decode_utf8(bytes@),
{
    match String::from_utf8(bytes) {
        Ok(s) => Some(s),
        Err(_) => None,
    }
}

/// `str::to_lowercase`: its result is named `lowercase`.
#[verifier::external_body]
fn to_lowercase(s: &str) -> (r: String)
    ensures
        r@ == lowercase(s@),
{
    s.to_lowercase()
}

/// `str::to_uppercase`: its result is named `uppercase`.
#[verifier::external_body]
fn to_uppercase(s: &str) -> (r: String)
    ensures
        r@ == uppercase(s@),
{
    s.to_uppercase()
}

/// Collapse the whitespace of `value` (see `collapse_whitespace`).
pub fn collapse_identifier(value: &[u8]) -> (r: Vec<u8>)
    ensures
        r@ == collapse_whitespace(value@),
{
    let mut result: Vec<u8> = Vec::new();
    let mut gap = false;
    let mut index: usize = 0;
    while index < value.len()
        invariant
            index <= value@.len(),
            (result@, gap) == collapse(value@.take(index as int)),
        decreases value@.len() - index,
    {
        let byte: u8 = value[index];
        proof {
            assert(value@.take(index + 1).drop_last() =~= value@.take(index as int));
            assert(value@.take(index + 1).last() == byte);
        }
        if byte == 0x09 || byte == 0x0A || byte == 0x0D || byte == 0x20 {
            gap = result.len() > 0;
        } else {
            if gap {
                result.push(0x20);
            }
            result.push(byte);
            gap = false;
        }
        index = index + 1;
    }
    assert(value@.take(index as int) =~= value@);
    result
}

/// Normalize an identifier: collapse whitespace, then fold case; `None` when
/// the bytes are not UTF-8.
pub fn normalize_identifier(value: &[u8]) -> (r: Option<String>)
    ensures
        match r {
            Some(s) => normalized(value@) == Some(s@),
            None => normalized(value@) is None,
        },
{
    let collapsed = collapse_identifier(value);
    match utf8_string(collapsed) {
        Some(text) => {
            let lower = to_lowercase(text.as_str());
            let upper = to_uppercase(lower.as_str());
            Some(upper)
        },
        None => None,
    }
}

} // verus!
