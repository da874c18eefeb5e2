//! Laws of the sort engine, proved over its specification: idempotence,
//! permutation invariance, batch-size independence, and the reverse
//! round trip.

use vstd::multiset::Multiset;
use vstd::prelude::*;
use vstd::relations::{sorted_by, total_ordering};
use vstd::seq_lib::lemma_sorted_unique;

use crate::config::OrdCfg;
use crate::engine::{spec_sort_tagged, spec_sorted_texts, tag_seq, untag};
use crate::lines::{
    lemma_tcmp_eq, lemma_tcmp_flip, lemma_tcmp_lt_trans, lemma_line_le_total, line_cmp, line_le,
    tcmp, text_le, LineV,
};
use crate::ordering::{flip, Ord3};

verus! {

/// Projecting a tagged sequence to its texts and tagging those texts by
/// position recovers the same sequence of texts.
proof fn lemma_untag_tag(texts: Seq<Seq<u8>>)
    ensures
        untag(tag_seq(texts)) == texts,
{
    assert(untag(tag_seq(texts)) =~= texts);
}

/// Multiset-equal tagged sequences have multiset-equal projections.
proof fn lemma_untag_multiset(s1: Seq<LineV>, s2: Seq<LineV>)
    requires
        s1.to_multiset() == s2.to_multiset(),
    ensures
        untag(s1).to_multiset() == untag(s2).to_multiset(),
    decreases s1.len(),
{
    broadcast use vstd::seq_lib::group_to_multiset_ensures;
    broadcast use vstd::multiset::group_multiset_axioms;

    s1.to_multiset_ensures();
    s2.to_multiset_ensures();
    untag(s1).to_multiset_ensures();
    untag(s2).to_multiset_ensures();
    if s1.len() == 0 {
        assert(s2.len() == 0);
        assert(untag(s1) =~= untag(s2));
    } else {
        let x = s1[0];
        assert(s1.to_multiset().contains(x));
        assert(s2.to_multiset().contains(x));
        assert(s2.contains(x));
        let j = choose|j: int| 0 <= j < s2.len() && s2[j] == x;
        let r1 = s1.remove(0);
        let r2 = s2.remove(j);
        assert(r1.to_multiset() == s1.to_multiset().remove(x));
        assert(r2.to_multiset() == s2.to_multiset().remove(x));
        lemma_untag_multiset(r1, r2);
        assert(untag(r1) =~= untag(s1).remove(0));
        assert(untag(r2) =~= untag(s2).remove(j));
        assert(untag(s1).remove(0).to_multiset() == untag(s1).to_multiset().remove(
            untag(s1)[0],
        ));
        assert(untag(s2).remove(j).to_multiset() == untag(s2).to_multiset().remove(
            untag(s2)[j],
        ));
        assert(untag(s1)[0] == x.text);
        assert(untag(s2)[j] == x.text);
        assert(untag(s1).to_multiset().contains(x.text)) by {
            assert(untag(s1).contains(untag(s1)[0]));
        }
        assert(untag(s2).to_multiset().contains(x.text)) by {
            assert(untag(s2).contains(untag(s2)[j]));
        }
        assert forall|e: Seq<u8>| true implies untag(s1).to_multiset().count(e) == untag(
            s2,
        ).to_multiset().count(e) by {
            assert(untag(s1).to_multiset().remove(x.text).count(e) == untag(
                s2,
            ).to_multiset().remove(x.text).count(e));
        }
        assert(untag(s1).to_multiset() =~= untag(s2).to_multiset());
    }
}

/// A sequence sorted in the engine's tagged order projects to texts
/// sorted by the configured text comparator.
proof fn lemma_sorted_projection(oc: OrdCfg, s: Seq<LineV>)
    requires
        sorted_by(s, line_le(oc)),
    ensures
        sorted_by(untag(s), text_le(oc)),
{
    assert forall|i: int, j: int| 0 <= i < j < untag(s).len() implies #[trigger] text_le(oc)(
        untag(s)[i],
        untag(s)[j],
    ) by {
        assert(line_le(oc)(s[i], s[j]));
    }
}

/// In unstable mode the configured text comparator is a total order on
/// line contents.
proof fn lemma_text_le_total(oc: OrdCfg)
    requires
        !oc.stable,
    ensures
        total_ordering(text_le(oc)),
{
    let leq = text_le(oc);
    assert forall|x: Seq<u8>| #[trigger] leq(x, x) by {
        lemma_tcmp_flip(oc, x, x);
    }
    assert forall|x: Seq<u8>, y: Seq<u8>| #[trigger] leq(x, y) && #[trigger] leq(y, x) implies x
        == y by {
        lemma_tcmp_flip(oc, x, y);
        lemma_tcmp_eq(oc, x, y);
    }
    assert forall|x: Seq<u8>, y: Seq<u8>, z: Seq<u8>|
        #[trigger] leq(x, y) && #[trigger] leq(y, z) implies leq(x, z) by {
        if tcmp(oc, x, y) == Ord3::Eq {
            lemma_tcmp_eq(oc, x, y);
        } else if tcmp(oc, y, z) == Ord3::Eq {
            lemma_tcmp_eq(oc, y, z);
        } else {
            lemma_tcmp_lt_trans(oc, x, y, z);
        }
    }
    assert forall|x: Seq<u8>, y: Seq<u8>| #[trigger] leq(x, y) || #[trigger] leq(y, x) by {
        lemma_tcmp_flip(oc, x, y);
    }
}

/// The facts the sort specification grants about its output: sorted in
/// the tagged order, and a permutation of the tagged input.
pub proof fn lemma_sort_output(oc: OrdCfg, texts: Seq<Seq<u8>>)
    ensures
        sorted_by(spec_sort_tagged(oc, texts), line_le(oc)),
        spec_sort_tagged(oc, texts).to_multiset() == tag_seq(texts).to_multiset(),
        spec_sorted_texts(oc, texts).to_multiset() == texts.to_multiset(),
{
    lemma_line_le_total(oc);
    tag_seq(texts).lemma_sort_by_ensures(line_le(oc));
    lemma_untag_multiset(spec_sort_tagged(oc, texts), tag_seq(texts));
    lemma_untag_tag(texts);
}

/// Sorting a sequence that is already a sort's output changes nothing:
/// sorting an already-sorted input yields byte-identical output.
pub proof fn lemma_sort_idempotent(oc: OrdCfg, texts: Seq<Seq<u8>>)
    ensures
        spec_sorted_texts(oc, spec_sorted_texts(oc, texts)) == spec_sorted_texts(oc, texts),
{
    let u = spec_sorted_texts(oc, texts);
    lemma_sort_output(oc, texts);
    lemma_sorted_projection(oc, spec_sort_tagged(oc, texts));
    assert(sorted_by(u, text_le(oc)));
    assert forall|i: int, j: int| 0 <= i < j < tag_seq(u).len() implies #[trigger] line_le(oc)(
        tag_seq(u)[i],
        tag_seq(u)[j],
    ) by {
        assert(text_le(oc)(u[i], u[j]));
    }
    lemma_line_le_total(oc);
    tag_seq(u).lemma_sort_by_ensures(line_le(oc));
    lemma_sorted_unique(spec_sort_tagged(oc, u), tag_seq(u), line_le(oc));
    lemma_untag_tag(u);
}

/// For any permutation of the input lines, unstable sorting produces the
/// same output.
pub proof fn lemma_sort_permutation_invariant(oc: OrdCfg, t1: Seq<Seq<u8>>, t2: Seq<Seq<u8>>)
    requires
        !oc.stable,
        t1.to_multiset() == t2.to_multiset(),
    ensures
        spec_sorted_texts(oc, t1) == spec_sorted_texts(oc, t2),
{
    let u1 = spec_sorted_texts(oc, t1);
    let u2 = spec_sorted_texts(oc, t2);
    lemma_sort_output(oc, t1);
    lemma_sort_output(oc, t2);
    lemma_sorted_projection(oc, spec_sort_tagged(oc, t1));
    lemma_sorted_projection(oc, spec_sort_tagged(oc, t2));
    lemma_text_le_total(oc);
    lemma_sorted_unique(u1, u2, text_le(oc));
}

/// The sorted output is a function of the ordering configuration alone:
/// two configurations that agree on it produce identical output for any
/// batch size.
pub proof fn lemma_batch_size_independent(
    cfg1: crate::config::SortConfig,
    cfg2: crate::config::SortConfig,
    texts: Seq<Seq<u8>>,
)
    requires
        crate::config::spec_ord_cfg(cfg1) == crate::config::spec_ord_cfg(cfg2),
    ensures
        spec_sorted_texts(crate::config::spec_ord_cfg(cfg1), texts) == spec_sorted_texts(
            crate::config::spec_ord_cfg(cfg2),
            texts,
        ),
{
}

/// In stable mode, lines whose keys compare equal keep their
/// input-relative order: in the sorted output, the earlier of two
/// key-equal lines comes from the earlier input position.
pub proof fn lemma_stable_ties_keep_input_order(oc: OrdCfg, texts: Seq<Seq<u8>>, i: int, j: int)
    requires
        oc.stable,
        0 <= i < j < spec_sort_tagged(oc, texts).len(),
        tcmp(
            oc,
            spec_sort_tagged(oc, texts)[i].text,
            spec_sort_tagged(oc, texts)[j].text,
        ) == Ord3::Eq,
    ensures
        spec_sort_tagged(oc, texts)[i].ord <= spec_sort_tagged(oc, texts)[j].ord,
{
    let s = spec_sort_tagged(oc, texts);
    lemma_sort_output(oc, texts);
    assert(line_le(oc)(s[i], s[j]));
}

/// The reversed configuration: identical but for the direction.
pub open spec fn reversed(oc: OrdCfg) -> OrdCfg {
    OrdCfg {
        mode: oc.mode,
        ignore_blanks: oc.ignore_blanks,
        ignore_case: oc.ignore_case,
        reverse: true,
        stable: oc.stable,
    }
}

/// Sorting with `reverse` set and then reversing the output sequence
/// equals sorting without it, in unstable mode.
pub proof fn lemma_reverse_round_trip(oc: OrdCfg, texts: Seq<Seq<u8>>)
    requires
        !oc.stable,
        !oc.reverse,
    ensures
        spec_sorted_texts(reversed(oc), texts).reverse() == spec_sorted_texts(oc, texts),
{
    let ocr = reversed(oc);
    let ur = spec_sorted_texts(ocr, texts);
    let uf = spec_sorted_texts(oc, texts);
    let w = ur.reverse();
    lemma_sort_output(oc, texts);
    lemma_sort_output(ocr, texts);
    lemma_sorted_projection(ocr, spec_sort_tagged(ocr, texts));
    lemma_sorted_projection(oc, spec_sort_tagged(oc, texts));
    assert forall|x: Seq<u8>, y: Seq<u8>| true implies #[trigger] tcmp(ocr, x, y) == flip(
        tcmp(oc, x, y),
    ) by {
        assert(crate::keys::spec_key(ocr, x) == crate::keys::spec_key(oc, x));
        assert(crate::keys::spec_key(ocr, y) == crate::keys::spec_key(oc, y));
    }
    let n = ur.len() as int;
    assert forall|i: int, j: int| 0 <= i < j < w.len() implies #[trigger] text_le(oc)(
        w[i],
        w[j],
    ) by {
        let p = n - 1 - j;
        let q = n - 1 - i;
        assert(w[i] == ur[q]);
        assert(w[j] == ur[p]);
        assert(text_le(ocr)(ur[p], ur[q]));
        assert(tcmp(ocr, ur[p], ur[q]) == flip(tcmp(oc, ur[p], ur[q])));
        lemma_tcmp_flip(oc, ur[p], ur[q]);
    }
    assert(sorted_by(w, text_le(oc)));
    ur.lemma_reverse_to_multiset();
    lemma_text_le_total(oc);
    lemma_sorted_unique(w, uf, text_le(oc));
}

} // verus!
