//! Three-way comparison primitives: byte order, lexicographic order on byte
//! strings, and magnitude order on normalized digit strings, with the lemmas
//! (flip symmetry, equality, transitivity) that make them total orders.

use vstd::prelude::*;

verus! {

/// Result of a three-way comparison, the library's analogue of
/// `core::cmp::Ordering`.
#[derive(Clone, Copy, PartialEq, Eq, Structural, Debug)]
pub enum Ord3 {
    Lt,
    Eq,
    Gt,
}

/// Inverts a comparison result.
pub open spec fn flip(o: Ord3) -> Ord3 {
    match o {
        Ord3::Lt => Ord3::Gt,
        Ord3::Eq => Ord3::Eq,
        Ord3::Gt => Ord3::Lt,
    }
}

/// Inverts a comparison result only when `r` is set.
pub open spec fn flip_if(r: bool, o: Ord3) -> Ord3 {
    if r {
        flip(o)
    } else {
        o
    }
}

/// Lexicographic combination: the first comparison decides unless it ties.
pub open spec fn lex2(a: Ord3, b: Ord3) -> Ord3 {
    if a == Ord3::Eq {
        b
    } else {
        a
    }
}

/// Three-way order on bytes.
pub open spec fn byte_cmp(a: u8, b: u8) -> Ord3 {
    if a < b {
        Ord3::Lt
    } else if a == b {
        Ord3::Eq
    } else {
        Ord3::Gt
    }
}

/// Three-way order on integers.
pub open spec fn int_cmp(a: int, b: int) -> Ord3 {
    if a < b {
        Ord3::Lt
    } else if a == b {
        Ord3::Eq
    } else {
        Ord3::Gt
    }
}

/// Lexicographic order on byte strings; a strict prefix sorts first.
pub open spec fn bytes_cmp(a: Seq<u8>, b: Seq<u8>) -> Ord3
    decreases a.len(),
{
    if a.len() == 0 && b.len() == 0 {
        Ord3::Eq
    } else if a.len() == 0 {
        Ord3::Lt
    } else if b.len() == 0 {
        Ord3::Gt
    } else {
        lex2(byte_cmp(a[0], b[0]), bytes_cmp(a.drop_first(), b.drop_first()))
    }
}

/// Magnitude order on digit strings that carry no leading zeros: a longer
/// string denotes a larger number; equal lengths compare digit by digit.
pub open spec fn mag_cmp(a: Seq<u8>, b: Seq<u8>) -> Ord3 {
    if a.len() < b.len() {
        Ord3::Lt
    } else if a.len() > b.len() {
        Ord3::Gt
    } else {
        bytes_cmp(a, b)
    }
}

/// Comparing in the other direction flips the result.
pub proof fn lemma_bytes_cmp_flip(a: Seq<u8>, b: Seq<u8>)
    ensures
        bytes_cmp(b, a) == flip(bytes_cmp(a, b)),
    decreases a.len() + b.len(),
{
    if a.len() > 0 && b.len() > 0 {
        lemma_bytes_cmp_flip(a.drop_first(), b.drop_first());
    }
}

/// Byte strings that compare equal are the same string.
pub proof fn lemma_bytes_cmp_eq(a: Seq<u8>, b: Seq<u8>)
    requires
        bytes_cmp(a, b) == Ord3::Eq,
    ensures
        a == b,
    decreases a.len(),
{
    if a.len() > 0 && b.len() > 0 {
        lemma_bytes_cmp_eq(a.drop_first(), b.drop_first());
        assert forall|i: int| 0 <= i < a.len() implies a[i] == b[i] by {
            if i > 0 {
                assert(a[i] == a.drop_first()[i - 1]);
                assert(b[i] == b.drop_first()[i - 1]);
            }
        }
        assert(a =~= b);
    } else {
        assert(a =~= b);
    }
}

/// Strict lexicographic order on byte strings is transitive.
pub proof fn lemma_bytes_cmp_lt_trans(a: Seq<u8>, b: Seq<u8>, c: Seq<u8>)
    requires
        bytes_cmp(a, b) == Ord3::Lt,
        bytes_cmp(b, c) == Ord3::Lt,
    ensures
        bytes_cmp(a, c) == Ord3::Lt,
    decreases a.len() + b.len() + c.len(),
{
    if a.len() == 0 {
    } else {
        if a[0] == b[0] && b[0] == c[0] {
            lemma_bytes_cmp_lt_trans(a.drop_first(), b.drop_first(), c.drop_first());
        }
    }
}

/// Comparing in the other direction flips the magnitude result.
pub proof fn lemma_mag_cmp_flip(a: Seq<u8>, b: Seq<u8>)
    ensures
        mag_cmp(b, a) == flip(mag_cmp(a, b)),
{
    lemma_bytes_cmp_flip(a, b);
}

/// Digit strings of equal magnitude are the same string.
pub proof fn lemma_mag_cmp_eq(a: Seq<u8>, b: Seq<u8>)
    requires
        mag_cmp(a, b) == Ord3::Eq,
    ensures
        a == b,
{
    lemma_bytes_cmp_eq(a, b);
}

/// Strict magnitude order is transitive.
pub proof fn lemma_mag_cmp_lt_trans(a: Seq<u8>, b: Seq<u8>, c: Seq<u8>)
    requires
        mag_cmp(a, b) == Ord3::Lt,
        mag_cmp(b, c) == Ord3::Lt,
    ensures
        mag_cmp(a, c) == Ord3::Lt,
{
    if a.len() == b.len() && b.len() == c.len() {
        lemma_bytes_cmp_lt_trans(a, b, c);
    }
}

} // verus!
