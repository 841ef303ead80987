//! A strict total order on fact names, used to keep string-keyed maps in a
//! canonical (sorted) layout.  Names are compared by the lexicographic order
//! of their UTF-8 encodings.
use vstd::prelude::*;
use vstd::utf8::{encode_utf8, encode_utf8_decode_utf8};

verus! {

/// The UTF-8 bytes of a name.
pub open spec fn name_bytes(name: Seq<char>) -> Seq<u8> {
    encode_utf8(name)
}

/// Lexicographic comparison of `a` and `b`, looking only at positions `i..`
/// (the positions before `i` are taken as equal).
pub open spec fn bytes_lt_from(a: Seq<u8>, b: Seq<u8>, i: int) -> bool
    decreases a.len() - i,
{
    if i < 0 || i >= b.len() {
        false
    } else if i >= a.len() {
        true
    } else if a[i] != b[i] {
        a[i] < b[i]
    } else {
        bytes_lt_from(a, b, i + 1)
    }
}

/// `a` sorts strictly before `b` in lexicographic byte order.
pub open spec fn bytes_lt(a: Seq<u8>, b: Seq<u8>) -> bool {
    bytes_lt_from(a, b, 0)
}

/// The name `a` sorts strictly before the name `b`.
pub open spec fn name_lt(a: Seq<char>, b: Seq<char>) -> bool {
    bytes_lt(name_bytes(a), name_bytes(b))
}

pub proof fn lemma_bytes_lt_from_irreflexive(a: Seq<u8>, i: int)
    ensures
        !bytes_lt_from(a, a, i),
    decreases a.len() - i,
{
    if 0 <= i < a.len() {
        lemma_bytes_lt_from_irreflexive(a, i + 1);
    }
}

pub proof fn lemma_bytes_lt_from_asymmetric(a: Seq<u8>, b: Seq<u8>, i: int)
    ensures
        bytes_lt_from(a, b, i) ==> !bytes_lt_from(b, a, i),
    decreases a.len() - i,
{
    if 0 <= i < a.len() && i < b.len() && a[i] == b[i] {
        lemma_bytes_lt_from_asymmetric(a, b, i + 1);
    }
}

pub proof fn lemma_bytes_lt_from_transitive(a: Seq<u8>, b: Seq<u8>, c: Seq<u8>, i: int)
    requires
        bytes_lt_from(a, b, i),
        bytes_lt_from(b, c, i),
    ensures
        bytes_lt_from(a, c, i),
    decreases a.len() - i,
{
    if 0 <= i < a.len() && i < b.len() && i < c.len() && a[i] == b[i] && b[i] == c[i] {
        lemma_bytes_lt_from_transitive(a, b, c, i + 1);
    }
}

pub proof fn lemma_bytes_lt_from_total(a: Seq<u8>, b: Seq<u8>, i: int)
    requires
        0 <= i <= a.len(),
        i <= b.len(),
        forall|k: int| 0 <= k < i ==> a[k] == b[k],
        a != b,
    ensures
        bytes_lt_from(a, b, i) || bytes_lt_from(b, a, i),
    decreases a.len() - i,
{
    if i == a.len() && i == b.len() {
        assert(a =~= b);
    } else if i < a.len() && i < b.len() && a[i] == b[i] {
        lemma_bytes_lt_from_total(a, b, i + 1);
    }
}

/// Distinct names have distinct encodings.
pub proof fn lemma_name_bytes_injective(a: Seq<char>, b: Seq<char>)
    ensures
        name_bytes(a) == name_bytes(b) ==> a == b,
{
    encode_utf8_decode_utf8(a);
    encode_utf8_decode_utf8(b);
}

pub proof fn lemma_name_lt_irreflexive(a: Seq<char>)
    ensures
        !name_lt(a, a),
{
    lemma_bytes_lt_from_irreflexive(name_bytes(a), 0);
}

pub proof fn lemma_name_lt_asymmetric(a: Seq<char>, b: Seq<char>)
    ensures
        name_lt(a, b) ==> !name_lt(b, a),
{
    lemma_bytes_lt_from_asymmetric(name_bytes(a), name_bytes(b), 0);
}

pub proof fn lemma_name_lt_transitive(a: Seq<char>, b: Seq<char>, c: Seq<char>)
    requires
        name_lt(a, b),
        name_lt(b, c),
    ensures
        name_lt(a, c),
{
    lemma_bytes_lt_from_transitive(name_bytes(a), name_bytes(b), name_bytes(c), 0);
}

/// Any two distinct names are ordered one way or the other.
pub proof fn lemma_name_lt_total(a: Seq<char>, b: Seq<char>)
    requires
        a != b,
    ensures
        name_lt(a, b) || name_lt(b, a),
{
    lemma_name_bytes_injective(a, b);
    lemma_bytes_lt_from_total(name_bytes(a), name_bytes(b), 0);
}

/// A name is not ordered before itself, and equal names are never ordered.
pub proof fn lemma_name_lt_implies_distinct(a: Seq<char>, b: Seq<char>)
    ensures
        name_lt(a, b) ==> a != b,
{
    lemma_name_lt_irreflexive(a);
}

/// Compares two names by the order above.
pub fn name_less(a: &str, b: &str) -> (r: bool)
    ensures
        r == name_lt(a@, b@),
{
    let ab = a.as_bytes();
    let bb = b.as_bytes();
    let alen = ab.len();
    let blen = bb.len();
    let mut i: usize = 0;
    while i < alen && i < blen && ab[i] == bb[i]
        invariant
            alen == ab@.len(),
            blen == bb@.len(),
            ab@ == name_bytes(a@),
            bb@ == name_bytes(b@),
            0 <= i <= alen,
            i <= blen,
            bytes_lt(ab@, bb@) == bytes_lt_from(ab@, bb@, i as int),
        decreases alen - i,
    {
        i = i + 1;
    }
    if i >= blen {
        false
    } else if i >= alen {
        true
    } else {
        ab[i] < bb[i]
    }
}

} // verus!
