//! Lines tagged with their input position, and the total order the sort
//! engine uses on them: the configured text comparator first, then input
//! position, then raw content.  The position tie-break is never reversed,
//! so stability always preserves input-relative order of equal keys; in
//! unstable mode the text comparator itself falls back to raw content,
//! which keeps the emitted sequence a function of the input multiset.

use vstd::prelude::*;
use vstd::relations::total_ordering;

use crate::config::OrdCfg;
use crate::keys::{key_cmp, lemma_key_cmp_eq, lemma_key_cmp_flip, lemma_key_cmp_lt_trans, spec_key};
use crate::ordering::{
    bytes_cmp, flip, flip_if, int_cmp, lemma_bytes_cmp_eq, lemma_bytes_cmp_flip,
    lemma_bytes_cmp_lt_trans, lex2, Ord3,
};

verus! {

/// A line together with its ordinal position in the input, at the
/// specification level.
#[verifier::ext_equal]
pub struct LineV {
    /// The line's bytes, without a terminator.
    pub text: Seq<u8>,
    /// The line's ordinal position in the overall input.
    pub ord: nat,
}

/// A line together with its ordinal position in the input.
#[derive(Clone, Debug)]
pub struct TaggedLine {
    /// The line's bytes, without a terminator.
    pub text: Vec<u8>,
    /// The line's ordinal position in the overall input.
    pub ord: usize,
}

impl View for TaggedLine {
    type V = LineV;

    open spec fn view(&self) -> LineV {
        LineV { text: self.text@, ord: self.ord as nat }
    }
}

/// The text order before the direction is applied: the key order alone in
/// stable mode (ties fall to input order), the key order with a raw
/// content tie-break otherwise.
pub open spec fn tcmp_base(oc: OrdCfg, x: Seq<u8>, y: Seq<u8>) -> Ord3 {
    let k = key_cmp(spec_key(oc, x), spec_key(oc, y));
    if oc.stable {
        k
    } else {
        lex2(k, bytes_cmp(x, y))
    }
}

/// The configured comparator on line contents, inverted as a whole when
/// `reverse` is set.
pub open spec fn tcmp(oc: OrdCfg, x: Seq<u8>, y: Seq<u8>) -> Ord3 {
    flip_if(oc.reverse, tcmp_base(oc, x, y))
}

/// The configured comparator as a binary relation on line contents.
pub open spec fn text_le(oc: OrdCfg) -> spec_fn(Seq<u8>, Seq<u8>) -> bool {
    |x: Seq<u8>, y: Seq<u8>| tcmp(oc, x, y) != Ord3::Gt
}

/// The engine's order on tagged lines: the configured text comparator,
/// then input position (never reversed), then raw content.
pub open spec fn line_cmp(oc: OrdCfg, a: LineV, b: LineV) -> Ord3 {
    lex2(
        tcmp(oc, a.text, b.text),
        lex2(int_cmp(a.ord as int, b.ord as int), bytes_cmp(a.text, b.text)),
    )
}

/// The engine's order as a binary relation.
pub open spec fn line_le(oc: OrdCfg) -> spec_fn(LineV, LineV) -> bool {
    |a: LineV, b: LineV| line_cmp(oc, a, b) != Ord3::Gt
}

/// Comparing contents in the other direction flips the result.
pub proof fn lemma_tcmp_flip(oc: OrdCfg, x: Seq<u8>, y: Seq<u8>)
    ensures
        tcmp(oc, y, x) == flip(tcmp(oc, x, y)),
{
    lemma_key_cmp_flip(spec_key(oc, x), spec_key(oc, y));
    lemma_bytes_cmp_flip(x, y);
}

/// Contents that compare equal have equal keys; in unstable mode they are
/// the same bytes.
pub proof fn lemma_tcmp_eq(oc: OrdCfg, x: Seq<u8>, y: Seq<u8>)
    requires
        tcmp(oc, x, y) == Ord3::Eq,
    ensures
        spec_key(oc, x) == spec_key(oc, y),
        !oc.stable ==> x == y,
{
    lemma_key_cmp_eq(spec_key(oc, x), spec_key(oc, y));
    if !oc.stable {
        lemma_bytes_cmp_eq(x, y);
    }
}

/// The strict configured text order is transitive.
pub proof fn lemma_tcmp_lt_trans(oc: OrdCfg, x: Seq<u8>, y: Seq<u8>, z: Seq<u8>)
    requires
        tcmp(oc, x, y) == Ord3::Lt,
        tcmp(oc, y, z) == Ord3::Lt,
    ensures
        tcmp(oc, x, z) == Ord3::Lt,
{
    if oc.reverse {
        lemma_tcmp_base_flip(oc, x, y);
        lemma_tcmp_base_flip(oc, y, z);
        lemma_tcmp_base_lt_trans(oc, z, y, x);
        lemma_tcmp_base_flip(oc, x, z);
    } else {
        lemma_tcmp_base_lt_trans(oc, x, y, z);
    }
}

/// Comparing the undirected text order in the other direction flips it.
proof fn lemma_tcmp_base_flip(oc: OrdCfg, x: Seq<u8>, y: Seq<u8>)
    ensures
        tcmp_base(oc, y, x) == flip(tcmp_base(oc, x, y)),
{
    lemma_key_cmp_flip(spec_key(oc, x), spec_key(oc, y));
    lemma_bytes_cmp_flip(x, y);
}

/// The strict text order before the direction is applied is transitive.
proof fn lemma_tcmp_base_lt_trans(oc: OrdCfg, x: Seq<u8>, y: Seq<u8>, z: Seq<u8>)
    requires
        tcmp_base(oc, x, y) == Ord3::Lt,
        tcmp_base(oc, y, z) == Ord3::Lt,
    ensures
        tcmp_base(oc, x, z) == Ord3::Lt,
{
    let kx = spec_key(oc, x);
    let ky = spec_key(oc, y);
    let kz = spec_key(oc, z);
    let k1 = key_cmp(kx, ky);
    let k2 = key_cmp(ky, kz);
    if k1 == Ord3::Lt && k2 == Ord3::Lt {
        lemma_key_cmp_lt_trans(kx, ky, kz);
    } else if k1 == Ord3::Eq {
        lemma_key_cmp_eq(kx, ky);
        if k2 == Ord3::Eq {
            lemma_key_cmp_eq(ky, kz);
            if !oc.stable {
                if bytes_cmp(x, y) == Ord3::Lt && bytes_cmp(y, z) == Ord3::Lt {
                    lemma_bytes_cmp_lt_trans(x, y, z);
                } else if bytes_cmp(x, y) == Ord3::Eq {
                    lemma_bytes_cmp_eq(x, y);
                } else if bytes_cmp(y, z) == Ord3::Eq {
                    lemma_bytes_cmp_eq(y, z);
                }
            }
        }
    } else if k2 == Ord3::Eq {
        lemma_key_cmp_eq(ky, kz);
    }
}

/// Comparing lines in the other direction flips the result.
pub proof fn lemma_line_cmp_flip(oc: OrdCfg, a: LineV, b: LineV)
    ensures
        line_cmp(oc, b, a) == flip(line_cmp(oc, a, b)),
{
    lemma_tcmp_flip(oc, a.text, b.text);
    lemma_bytes_cmp_flip(a.text, b.text);
}

/// Lines that compare equal are the same tagged line.
pub proof fn lemma_line_cmp_eq(oc: OrdCfg, a: LineV, b: LineV)
    requires
        line_cmp(oc, a, b) == Ord3::Eq,
    ensures
        a == b,
{
    assert(bytes_cmp(a.text, b.text) == Ord3::Eq);
    lemma_bytes_cmp_eq(a.text, b.text);
    assert(a =~= b);
}

/// The strict engine order is transitive.
pub proof fn lemma_line_cmp_lt_trans(oc: OrdCfg, a: LineV, b: LineV, c: LineV)
    requires
        line_cmp(oc, a, b) == Ord3::Lt,
        line_cmp(oc, b, c) == Ord3::Lt,
    ensures
        line_cmp(oc, a, c) == Ord3::Lt,
{
    let t1 = tcmp(oc, a.text, b.text);
    let t2 = tcmp(oc, b.text, c.text);
    if t1 == Ord3::Lt && t2 == Ord3::Lt {
        lemma_tcmp_lt_trans(oc, a.text, b.text, c.text);
    } else if t1 == Ord3::Eq {
        lemma_tcmp_eq(oc, a.text, b.text);
        assert(tcmp(oc, a.text, c.text) == tcmp(oc, b.text, c.text));
        if t2 == Ord3::Eq {
            lemma_tcmp_eq(oc, b.text, c.text);
            if int_cmp(a.ord as int, b.ord as int) == Ord3::Eq && int_cmp(
                b.ord as int,
                c.ord as int,
            ) == Ord3::Eq {
                if bytes_cmp(a.text, b.text) == Ord3::Lt && bytes_cmp(b.text, c.text)
                    == Ord3::Lt {
                    lemma_bytes_cmp_lt_trans(a.text, b.text, c.text);
                } else if bytes_cmp(a.text, b.text) == Ord3::Eq {
                    lemma_bytes_cmp_eq(a.text, b.text);
                } else if bytes_cmp(b.text, c.text) == Ord3::Eq {
                    lemma_bytes_cmp_eq(b.text, c.text);
                }
            }
        }
    } else if t2 == Ord3::Eq {
        lemma_tcmp_eq(oc, b.text, c.text);
        assert(tcmp(oc, a.text, c.text) == tcmp(oc, a.text, b.text));
    }
}

/// The engine's order is a total order on tagged lines.
pub proof fn lemma_line_le_total(oc: OrdCfg)
    ensures
        total_ordering(line_le(oc)),
{
    let leq = line_le(oc);
    assert forall|x: LineV| #[trigger] leq(x, x) by {
        lemma_line_cmp_flip(oc, x, x);
    }
    assert forall|x: LineV, y: LineV| #[trigger] leq(x, y) && #[trigger] leq(y, x) implies x
        == y by {
        lemma_line_cmp_flip(oc, x, y);
        lemma_line_cmp_eq(oc, x, y);
    }
    assert forall|x: LineV, y: LineV, z: LineV|
        #[trigger] leq(x, y) && #[trigger] leq(y, z) implies leq(x, z) by {
        if line_cmp(oc, x, y) == Ord3::Eq {
            lemma_line_cmp_eq(oc, x, y);
        } else if line_cmp(oc, y, z) == Ord3::Eq {
            lemma_line_cmp_eq(oc, y, z);
        } else {
            lemma_line_cmp_lt_trans(oc, x, y, z);
        }
    }
    assert forall|x: LineV, y: LineV| #[trigger] leq(x, y) || #[trigger] leq(y, x) by {
        lemma_line_cmp_flip(oc, x, y);
    }
}

} // verus!
