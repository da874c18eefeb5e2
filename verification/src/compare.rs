//! Executable key transform and comparator: computes the comparison key of
//! a line and orders keys and tagged lines, each proved equal to its
//! specification in `keys` and `lines`.

use vstd::prelude::*;

use crate::config::{KeyMode, OrdCfg};
use crate::keys::{
    digit_pred, fold_byte, fold_bytes, is_delim, is_dict, is_digit, is_space, key_cmp, num_key,
    lemma_prefix_len_is, nondigit_pred, scaled_num, seg_cmp, segs_view, spec_key, spec_pre,
    strip_zeros, unit_pow, zero_digits, zero_pred, KeySeg, SegView,
};
use crate::keys::{
    lemma_suffix_len_is, month_digits, month_key, month_num, month_num_folded, month_seg,
    nondelim_pred, nonspace_pred, space_pred, trim, ver_key, ver_seg,
};
use crate::lines::{line_cmp, TaggedLine};
use crate::ordering::{bytes_cmp, flip, flip_if, Ord3};

verus! {

/// Executable test for ASCII whitespace.
pub fn is_space_x(b: u8) -> (r: bool)
    ensures
        r == is_space(b),
{
    b == 32 || b == 9 || b == 10 || b == 13 || b == 11 || b == 12
}

/// Executable test for an ASCII digit.
pub fn is_digit_x(b: u8) -> (r: bool)
    ensures
        r == is_digit(b),
{
    48 <= b && b <= 57
}

/// Executable test for a kept ignore-numbers byte.
pub fn is_dict_x(b: u8) -> (r: bool)
    ensures
        r == is_dict(b),
{
    (65 <= b && b <= 90) || (97 <= b && b <= 122) || is_space_x(b)
}

/// Executable test for a version-component delimiter.
pub fn is_delim_x(b: u8) -> (r: bool)
    ensures
        r == is_delim(b),
{
    b == 46 || b == 45
}

/// Executable ASCII case folding.
pub fn fold_byte_x(b: u8) -> (r: u8)
    ensures
        r == fold_byte(b),
{
    if 65 <= b && b <= 90 {
        b + 32
    } else {
        b
    }
}

/// Executable unit-suffix power lookup.
pub fn unit_pow_x(b: u8) -> (p: usize)
    ensures
        p == unit_pow(b),
{
    let f = fold_byte_x(b);
    if f == 107 {
        1
    } else if f == 109 {
        2
    } else if f == 103 {
        3
    } else if f == 116 {
        4
    } else if f == 112 {
        5
    } else if f == 101 {
        6
    } else {
        0
    }
}

/// Copies the byte range `[i, j)` of `v` into a fresh vector.
pub fn subvec(v: &Vec<u8>, i: usize, j: usize) -> (r: Vec<u8>)
    requires
        i <= j <= v.len(),
    ensures
        r@ == v@.subrange(i as int, j as int),
{
    let mut r: Vec<u8> = Vec::new();
    let mut k: usize = i;
    proof {
        assert(r@ =~= v@.subrange(i as int, i as int));
    }
    while k < j
        invariant
            i <= k <= j <= v.len(),
            r@ == v@.subrange(i as int, k as int),
        decreases j - k,
    {
        r.push(v[k]);
        k = k + 1;
        proof {
            assert(v@.subrange(i as int, k as int) =~= v@.subrange(i as int, k - 1).push(
                v@[k - 1],
            ));
        }
    }
    r
}

/// Case-folds a whole byte vector.
pub(crate) fn fold_vec(v: &Vec<u8>) -> (r: Vec<u8>)
    ensures
        r@ == fold_bytes(v@),
{
    let mut r: Vec<u8> = Vec::new();
    let mut k: usize = 0;
    proof {
        assert(r@ =~= fold_bytes(v@.take(0)));
    }
    while k < v.len()
        invariant
            k <= v.len(),
            r@ == fold_bytes(v@.take(k as int)),
        decreases v.len() - k,
    {
        r.push(fold_byte_x(v[k]));
        k = k + 1;
        proof {
            assert(fold_bytes(v@.take(k as int)) =~= fold_bytes(v@.take(k - 1)).push(
                fold_byte(v@[k - 1]),
            ));
        }
    }
    proof {
        assert(v@.take(v.len() as int) =~= v@);
    }
    r
}

/// Applies the configured blank-trimming and case-folding to a line.
pub fn preprocess(line: &Vec<u8>, oc: &OrdCfg) -> (t: Vec<u8>)
    ensures
        t@ == spec_pre(*oc, line@),
{
    let t0: Vec<u8> = if oc.ignore_blanks {
        let mut l: usize = 0;
        while l < line.len() && is_space_x(line[l])
            invariant
                l <= line.len(),
                forall|k: int| 0 <= k < l ==> is_space(line@[k]),
            decreases line.len() - l,
        {
            l = l + 1;
        }
        let mut e: usize = line.len();
        while e > l && is_space_x(line[e - 1])
            invariant
                l <= e <= line.len(),
                forall|k: int| e <= k < line.len() ==> is_space(line@[k]),
            decreases e,
        {
            e = e - 1;
        }
        proof {
            let s = line@;
            assert forall|k: int| 0 <= k < l implies space_pred()(s[k]) by {}
            if l < s.len() {
                assert(!space_pred()(s[l as int]));
            }
            lemma_prefix_len_is(s, space_pred(), l as int);
            let r = s.skip(l as int);
            let m = s.len() - e;
            assert forall|k: int| r.len() - m <= k < r.len() implies space_pred()(r[k]) by {
                assert(r[k] == s[k + l]);
            }
            if m < r.len() {
                assert(r[r.len() - m - 1] == s[e - 1]);
                assert(!space_pred()(r[r.len() - m - 1]));
            }
            lemma_suffix_len_is(r, space_pred(), m);
            assert(trim(s) =~= s.subrange(l as int, e as int));
        }
        subvec(line, l, e)
    } else {
        subvec(line, 0, line.len())
    };
    proof {
        assert(line@.subrange(0, line.len() as int) =~= line@);
    }
    if oc.ignore_case {
        fold_vec(&t0)
    } else {
        t0
    }
}

/// The ignore-numbers key: keeps whitespace and dictionary-word bytes.
fn filter_dict(t: &Vec<u8>) -> (out: Vec<u8>)
    ensures
        out@ == t@.filter(crate::keys::dict_pred()),
{
    let pred = Ghost(crate::keys::dict_pred());
    let mut out: Vec<u8> = Vec::new();
    let mut i: usize = 0;
    proof {
        reveal_with_fuel(Seq::filter, 2);
        assert(t@.take(0) =~= Seq::<u8>::empty());
        assert(out@ =~= t@.take(0).filter(pred@));
    }
    while i < t.len()
        invariant
            i <= t.len(),
            pred == Ghost(crate::keys::dict_pred()),
            out@ == t@.take(i as int).filter(pred@),
        decreases t.len() - i,
    {
        proof {
            reveal_with_fuel(Seq::filter, 2);
            assert(t@.take(i + 1).drop_last() =~= t@.take(i as int));
            assert(t@.take(i + 1).last() == t@[i as int]);
        }
        if is_dict_x(t[i]) {
            out.push(t[i]);
        }
        i = i + 1;
    }
    proof {
        assert(t@.take(t.len() as int) =~= t@);
    }
    out
}

/// The numeric-aware key of a preprocessed line: alternating runs, digits
/// by magnitude, optionally scaled by a unit suffix.
#[verifier::rlimit(60)]
fn num_key_x(t: &Vec<u8>, units: bool) -> (out: Vec<KeySeg>)
    ensures
        segs_view(out@) == num_key(t@, units),
{
    let mut out: Vec<KeySeg> = Vec::new();
    let mut i: usize = 0;
    proof {
        assert(t@.skip(0) =~= t@);
        assert(segs_view(out@) =~= Seq::<SegView>::empty());
        assert(Seq::<SegView>::empty() + num_key(t@, units) =~= num_key(t@, units));
    }
    while i < t.len()
        invariant
            i <= t.len(),
            segs_view(out@) + num_key(t@.skip(i as int), units) == num_key(t@, units),
        decreases t.len() - i,
    {
        let ghost i0 = i as int;
        let ghost s = t@.skip(i as int);
        let ghost old_out = out@;
        if is_digit_x(t[i]) {
            let mut j: usize = i + 1;
            while j < t.len() && is_digit_x(t[j])
                invariant
                    i < j <= t.len(),
                    forall|k: int| i <= k < j ==> is_digit(t@[k]),
                decreases t.len() - j,
            {
                j = j + 1;
            }
            let mut z: usize = i;
            while z < j && t[z] == 48
                invariant
                    i <= z <= j <= t.len(),
                    forall|k: int| i <= k < z ==> t@[k] == 48,
                decreases j - z,
            {
                z = z + 1;
            }
            let ghost run = s.take(j - i);
            proof {
                assert forall|k: int| 0 <= k < j - i implies digit_pred()(s[k]) by {
                    assert(s[k] == t@[k + i]);
                }
                if j < t.len() {
                    assert(s[j - i] == t@[j as int]);
                    assert(!digit_pred()(s[j - i]));
                }
                lemma_prefix_len_is(s, digit_pred(), j - i);
                assert(run =~= t@.subrange(i as int, j as int));
                assert forall|k: int| 0 <= k < z - i implies zero_pred()(run[k]) by {
                    assert(run[k] == t@[k + i]);
                }
                if z < j {
                    assert(run[z - i] == t@[z as int]);
                    assert(!zero_pred()(run[z - i]));
                }
                lemma_prefix_len_is(run, zero_pred(), z - i);
                assert(strip_zeros(run) =~= t@.subrange(z as int, j as int));
            }
            let has_unit = units && j < t.len() && unit_pow_x(t[j]) > 0;
            if has_unit {
                let p = unit_pow_x(t[j]);
                let mut d = subvec(t, z, j);
                let ghost d0 = d@;
                if d.len() > 0 {
                    let mut c: usize = 0;
                    proof {
                        assert(d@ =~= d0 + zero_digits(0));
                    }
                    while c < 3 * p
                        invariant
                            c <= 3 * p,
                            p <= 6,
                            d@ == d0 + zero_digits(c as nat),
                        decreases 3 * p - c,
                    {
                        d.push(48);
                        c = c + 1;
                        proof {
                            assert(d0 + zero_digits(c as nat) =~= (d0 + zero_digits(
                                (c - 1) as nat,
                            )).push(48u8));
                        }
                    }
                }
                proof {
                    assert(d@ =~= scaled_num(run, unit_pow(t@[j as int])));
                }
                out.push(KeySeg::Num(d));
                i = j + 1;
                proof {
                    assert(s.skip(j - i0 + 1) =~= t@.skip(i as int));
                    assert(num_key(s, units) == seq![
                        SegView::Num(scaled_num(run, unit_pow(t@[j as int]))),
                    ] + num_key(t@.skip(i as int), units));
                    assert(segs_view(out@) =~= segs_view(old_out).push(
                        SegView::Num(scaled_num(run, unit_pow(t@[j as int]))),
                    ));
                    assert(segs_view(out@) + num_key(t@.skip(i as int), units) =~= segs_view(
                        old_out,
                    ) + num_key(s, units));
                }
            } else {
                let d = subvec(t, z, j);
                out.push(KeySeg::Num(d));
                i = j;
                proof {
                    assert(s.skip(j - i0) =~= t@.skip(i as int));
                    assert(num_key(s, units) == seq![SegView::Num(strip_zeros(run))] + num_key(
                        t@.skip(i as int),
                        units,
                    ));
                    assert(segs_view(out@) =~= segs_view(old_out).push(
                        SegView::Num(strip_zeros(run)),
                    ));
                    assert(segs_view(out@) + num_key(t@.skip(i as int), units) =~= segs_view(
                        old_out,
                    ) + num_key(s, units));
                }
            }
        } else {
            let mut j: usize = i + 1;
            while j < t.len() && !is_digit_x(t[j])
                invariant
                    i < j <= t.len(),
                    forall|k: int| i <= k < j ==> !is_digit(t@[k]),
                decreases t.len() - j,
            {
                j = j + 1;
            }
            proof {
                assert forall|k: int| 0 <= k < j - i implies nondigit_pred()(s[k]) by {
                    assert(s[k] == t@[k + i]);
                }
                if j < t.len() {
                    assert(s[j - i] == t@[j as int]);
                    assert(!nondigit_pred()(s[j - i]));
                }
                lemma_prefix_len_is(s, nondigit_pred(), j - i);
                assert(s.take(j - i) =~= t@.subrange(i as int, j as int));
            }
            let d = subvec(t, i, j);
            out.push(KeySeg::Text(d));
            i = j;
            proof {
                assert(s.skip(j - i0) =~= t@.skip(i as int));
                assert(num_key(s, units) == seq![SegView::Text(s.take(j - i0))] + num_key(
                    t@.skip(i as int),
                    units,
                ));
                assert(segs_view(out@) =~= segs_view(old_out).push(SegView::Text(s.take(j - i0))));
                assert(segs_view(out@) + num_key(t@.skip(i as int), units) =~= segs_view(old_out)
                    + num_key(s, units));
            }
        }
    }
    proof {
        assert(t@.skip(t.len() as int) =~= Seq::<u8>::empty());
        assert(segs_view(out@) + num_key(Seq::<u8>::empty(), units) =~= segs_view(out@));
    }
    out
}

/// Whether a byte vector holds exactly the given bytes.
fn bytes_is(v: &Vec<u8>, lit: &[u8]) -> (r: bool)
    ensures
        r == (v@ == lit@),
{
    if v.len() != lit.len() {
        return false;
    }
    let mut k: usize = 0;
    while k < v.len()
        invariant
            k <= v.len(),
            v.len() == lit@.len(),
            forall|q: int| 0 <= q < k ==> v@[q] == lit@[q],
        decreases v.len() - k,
    {
        if v[k] != lit[k] {
            return false;
        }
        k = k + 1;
    }
    proof {
        assert(v@ =~= lit@);
    }
    true
}

/// The month number of an already case-folded token, or zero.
fn month_lookup(f: &Vec<u8>) -> (m: usize)
    ensures
        m as nat == month_num_folded(f@),
{
    let jan3: &[u8] = &[106, 97, 110];
    let jan9: &[u8] = &[106, 97, 110, 117, 97, 114, 121];
    let feb3: &[u8] = &[102, 101, 98];
    let feb9: &[u8] = &[102, 101, 98, 114, 117, 97, 114, 121];
    let mar3: &[u8] = &[109, 97, 114];
    let mar9: &[u8] = &[109, 97, 114, 99, 104];
    let apr3: &[u8] = &[97, 112, 114];
    let apr9: &[u8] = &[97, 112, 114, 105, 108];
    let may3: &[u8] = &[109, 97, 121];
    let jun3: &[u8] = &[106, 117, 110];
    let jun9: &[u8] = &[106, 117, 110, 101];
    let jul3: &[u8] = &[106, 117, 108];
    let jul9: &[u8] = &[106, 117, 108, 121];
    let aug3: &[u8] = &[97, 117, 103];
    let aug9: &[u8] = &[97, 117, 103, 117, 115, 116];
    let sep3: &[u8] = &[115, 101, 112];
    let sep9: &[u8] = &[115, 101, 112, 116, 101, 109, 98, 101, 114];
    let oct3: &[u8] = &[111, 99, 116];
    let oct9: &[u8] = &[111, 99, 116, 111, 98, 101, 114];
    let nov3: &[u8] = &[110, 111, 118];
    let nov9: &[u8] = &[110, 111, 118, 101, 109, 98, 101, 114];
    let dec3: &[u8] = &[100, 101, 99];
    let dec9: &[u8] = &[100, 101, 99, 101, 109, 98, 101, 114];
    proof {
        assert(jan3@ =~= seq![106u8, 97, 110]);
        assert(jan9@ =~= seq![106u8, 97, 110, 117, 97, 114, 121]);
        assert(feb3@ =~= seq![102u8, 101, 98]);
        assert(feb9@ =~= seq![102u8, 101, 98, 114, 117, 97, 114, 121]);
        assert(mar3@ =~= seq![109u8, 97, 114]);
        assert(mar9@ =~= seq![109u8, 97, 114, 99, 104]);
        assert(apr3@ =~= seq![97u8, 112, 114]);
        assert(apr9@ =~= seq![97u8, 112, 114, 105, 108]);
        assert(may3@ =~= seq![109u8, 97, 121]);
        assert(jun3@ =~= seq![106u8, 117, 110]);
        assert(jun9@ =~= seq![106u8, 117, 110, 101]);
        assert(jul3@ =~= seq![106u8, 117, 108]);
        assert(jul9@ =~= seq![106u8, 117, 108, 121]);
        assert(aug3@ =~= seq![97u8, 117, 103]);
        assert(aug9@ =~= seq![97u8, 117, 103, 117, 115, 116]);
        assert(sep3@ =~= seq![115u8, 101, 112]);
        assert(sep9@ =~= seq![115u8, 101, 112, 116, 101, 109, 98, 101, 114]);
        assert(oct3@ =~= seq![111u8, 99, 116]);
        assert(oct9@ =~= seq![111u8, 99, 116, 111, 98, 101, 114]);
        assert(nov3@ =~= seq![110u8, 111, 118]);
        assert(nov9@ =~= seq![110u8, 111, 118, 101, 109, 98, 101, 114]);
        assert(dec3@ =~= seq![100u8, 101, 99]);
        assert(dec9@ =~= seq![100u8, 101, 99, 101, 109, 98, 101, 114]);
    }
    if bytes_is(f, jan3) || bytes_is(f, jan9) {
        1
    } else if bytes_is(f, feb3) || bytes_is(f, feb9) {
        2
    } else if bytes_is(f, mar3) || bytes_is(f, mar9) {
        3
    } else if bytes_is(f, apr3) || bytes_is(f, apr9) {
        4
    } else if bytes_is(f, may3) {
        5
    } else if bytes_is(f, jun3) || bytes_is(f, jun9) {
        6
    } else if bytes_is(f, jul3) || bytes_is(f, jul9) {
        7
    } else if bytes_is(f, aug3) || bytes_is(f, aug9) {
        8
    } else if bytes_is(f, sep3) || bytes_is(f, sep9) {
        9
    } else if bytes_is(f, oct3) || bytes_is(f, oct9) {
        10
    } else if bytes_is(f, nov3) || bytes_is(f, nov9) {
        11
    } else if bytes_is(f, dec3) || bytes_is(f, dec9) {
        12
    } else {
        0
    }
}

/// The key segment for one month-aware token.
fn month_seg_x(tok: Vec<u8>) -> (g: KeySeg)
    ensures
        g@ == month_seg(tok@),
{
    let f = fold_vec(&tok);
    let m = month_lookup(&f);
    proof {
        assert(month_num(tok@) == month_num_folded(f@));
    }
    if m > 0 {
        let mut d: Vec<u8> = Vec::new();
        if m < 10 {
            d.push(48 + (m as u8));
        } else {
            d.push(49);
            d.push(48 + ((m - 10) as u8));
        }
        proof {
            assert(d@ =~= month_digits(m as nat));
        }
        KeySeg::Num(d)
    } else {
        KeySeg::Text(tok)
    }
}

/// The month-aware key of a preprocessed line.
fn month_key_x(t: &Vec<u8>) -> (out: Vec<KeySeg>)
    ensures
        segs_view(out@) == month_key(t@),
{
    let mut out: Vec<KeySeg> = Vec::new();
    let mut i: usize = 0;
    proof {
        assert(t@.skip(0) =~= t@);
        assert(segs_view(out@) =~= Seq::<SegView>::empty());
        assert(Seq::<SegView>::empty() + month_key(t@) =~= month_key(t@));
    }
    while i < t.len()
        invariant
            i <= t.len(),
            segs_view(out@) + month_key(t@.skip(i as int)) == month_key(t@),
        decreases t.len() - i,
    {
        let ghost i0 = i as int;
        let ghost s = t@.skip(i as int);
        let ghost old_out = out@;
        if is_space_x(t[i]) {
            i = i + 1;
            proof {
                assert(s.drop_first() =~= t@.skip(i as int));
            }
        } else {
            let mut j: usize = i + 1;
            while j < t.len() && !is_space_x(t[j])
                invariant
                    i < j <= t.len(),
                    forall|k: int| i <= k < j ==> !is_space(t@[k]),
                decreases t.len() - j,
            {
                j = j + 1;
            }
            proof {
                assert forall|k: int| 0 <= k < j - i0 implies nonspace_pred()(s[k]) by {
                    assert(s[k] == t@[k + i0]);
                }
                if j < t.len() {
                    assert(s[j - i0] == t@[j as int]);
                    assert(!nonspace_pred()(s[j - i0]));
                }
                lemma_prefix_len_is(s, nonspace_pred(), j - i0);
                assert(s.take(j - i0) =~= t@.subrange(i0, j as int));
            }
            let tok = subvec(t, i, j);
            let g = month_seg_x(tok);
            out.push(g);
            i = j;
            proof {
                assert(s.skip(j - i0) =~= t@.skip(i as int));
                assert(month_key(s) == seq![month_seg(s.take(j - i0))] + month_key(
                    t@.skip(i as int),
                ));
                assert(segs_view(out@) =~= segs_view(old_out).push(month_seg(s.take(j - i0))));
                assert(segs_view(out@) + month_key(t@.skip(i as int)) =~= segs_view(old_out)
                    + month_key(s));
            }
        }
    }
    proof {
        assert(t@.skip(t.len() as int) =~= Seq::<u8>::empty());
        assert(segs_view(out@) + month_key(Seq::<u8>::empty()) =~= segs_view(out@));
    }
    out
}

/// The key segment for one version component.
fn ver_seg_x(comp: Vec<u8>) -> (g: KeySeg)
    ensures
        g@ == ver_seg(comp@),
{
    let mut all_digits = comp.len() > 0;
    let mut k: usize = 0;
    while k < comp.len()
        invariant
            k <= comp.len(),
            all_digits == (comp.len() > 0 && forall|q: int| 0 <= q < k ==> is_digit(comp@[q])),
        decreases comp.len() - k,
    {
        if !is_digit_x(comp[k]) {
            all_digits = false;
        }
        k = k + 1;
    }
    if all_digits {
        proof {
            lemma_prefix_len_is(comp@, digit_pred(), comp@.len() as int);
        }
        let mut z: usize = 0;
        while z < comp.len() && comp[z] == 48
            invariant
                z <= comp.len(),
                forall|q: int| 0 <= q < z ==> comp@[q] == 48,
            decreases comp.len() - z,
        {
            z = z + 1;
        }
        proof {
            if z < comp.len() {
                assert(!zero_pred()(comp@[z as int]));
            }
            lemma_prefix_len_is(comp@, zero_pred(), z as int);
            assert(strip_zeros(comp@) =~= comp@.subrange(z as int, comp@.len() as int));
        }
        let d = subvec(&comp, z, comp.len());
        KeySeg::Num(d)
    } else {
        proof {
            if comp@.len() > 0 && crate::keys::prefix_len(comp@, digit_pred()) == comp@.len() {
                crate::keys::lemma_prefix_len_all(comp@, digit_pred());
                assert(forall|q: int| 0 <= q < comp@.len() ==> is_digit(comp@[q]));
            }
        }
        KeySeg::Text(comp)
    }
}

/// The version-aware key of a preprocessed line.
fn ver_key_x(t: &Vec<u8>) -> (out: Vec<KeySeg>)
    ensures
        segs_view(out@) == ver_key(t@),
{
    let mut out: Vec<KeySeg> = Vec::new();
    let mut i: usize = 0;
    proof {
        assert(t@.skip(0) =~= t@);
        assert(segs_view(out@) =~= Seq::<SegView>::empty());
        assert(Seq::<SegView>::empty() + ver_key(t@) =~= ver_key(t@));
    }
    while i < t.len()
        invariant
            i <= t.len(),
            segs_view(out@) + ver_key(t@.skip(i as int)) == ver_key(t@),
        decreases t.len() - i,
    {
        let ghost i0 = i as int;
        let ghost s = t@.skip(i as int);
        let ghost old_out = out@;
        let mut j: usize = i;
        while j < t.len() && !is_delim_x(t[j])
            invariant
                i <= j <= t.len(),
                forall|k: int| i <= k < j ==> !is_delim(t@[k]),
            decreases t.len() - j,
        {
            j = j + 1;
        }
        proof {
            assert forall|k: int| 0 <= k < j - i0 implies nondelim_pred()(s[k]) by {
                assert(s[k] == t@[k + i0]);
            }
            if j < t.len() {
                assert(s[j - i0] == t@[j as int]);
                assert(!nondelim_pred()(s[j - i0]));
            }
            lemma_prefix_len_is(s, nondelim_pred(), j - i0);
            assert(s.take(j - i0) =~= t@.subrange(i0, j as int));
        }
        let comp = subvec(t, i, j);
        let g = ver_seg_x(comp);
        out.push(g);
        if j < t.len() {
            i = j + 1;
            proof {
                assert(s.skip(j - i0 + 1) =~= t@.skip(i as int));
                assert(ver_key(s) == seq![ver_seg(s.take(j - i0))] + ver_key(t@.skip(i as int)));
                assert(segs_view(out@) =~= segs_view(old_out).push(ver_seg(s.take(j - i0))));
                assert(segs_view(out@) + ver_key(t@.skip(i as int)) =~= segs_view(old_out)
                    + ver_key(s));
            }
        } else {
            i = j;
            proof {
                assert(t@.skip(i as int) =~= Seq::<u8>::empty());
                assert(ver_key(s) == seq![ver_seg(s.take(j - i0))]);
                assert(segs_view(out@) =~= segs_view(old_out).push(ver_seg(s.take(j - i0))));
                assert(segs_view(out@) + ver_key(Seq::<u8>::empty()) =~= segs_view(old_out)
                    + ver_key(s));
            }
        }
    }
    proof {
        assert(t@.skip(t.len() as int) =~= Seq::<u8>::empty());
        assert(segs_view(out@) + ver_key(Seq::<u8>::empty()) =~= segs_view(out@));
    }
    out
}

/// Computes the comparison key of a raw line under the configured folding
/// rules.
pub fn transform(line: &Vec<u8>, oc: &OrdCfg) -> (k: Vec<KeySeg>)
    ensures
        segs_view(k@) == spec_key(*oc, line@),
{
    let t = preprocess(line, oc);
    let ghost tv = t@;
    match oc.mode {
        KeyMode::Plain => {
            let mut out: Vec<KeySeg> = Vec::new();
            out.push(KeySeg::Text(t));
            proof {
                assert(segs_view(out@) =~= seq![SegView::Text(tv)]);
            }
            out
        },
        KeyMode::IgnoreNumericTokens => {
            let kept = filter_dict(&t);
            let mut out: Vec<KeySeg> = Vec::new();
            out.push(KeySeg::Text(kept));
            proof {
                assert(segs_view(out@) =~= seq![
                    SegView::Text(tv.filter(crate::keys::dict_pred())),
                ]);
            }
            out
        },
        KeyMode::Numeric => num_key_x(&t, false),
        KeyMode::NumericUnit => num_key_x(&t, true),
        KeyMode::Month => month_key_x(&t),
        KeyMode::Version => ver_key_x(&t),
    }
}

/// Inverts a comparison result.
pub fn flip_x(o: Ord3) -> (r: Ord3)
    ensures
        r == flip(o),
{
    match o {
        Ord3::Lt => Ord3::Gt,
        Ord3::Eq => Ord3::Eq,
        Ord3::Gt => Ord3::Lt,
    }
}

/// Compares two byte strings lexicographically.
pub fn compare_bytes(a: &Vec<u8>, b: &Vec<u8>) -> (r: Ord3)
    ensures
        r == bytes_cmp(a@, b@),
{
    let mut i: usize = 0;
    proof {
        assert(a@.skip(0) =~= a@);
        assert(b@.skip(0) =~= b@);
    }
    while i < a.len() && i < b.len()
        invariant
            i <= a.len(),
            i <= b.len(),
            bytes_cmp(a@, b@) == bytes_cmp(a@.skip(i as int), b@.skip(i as int)),
        decreases a.len() - i,
    {
        proof {
            assert(a@.skip(i as int)[0] == a@[i as int]);
            assert(b@.skip(i as int)[0] == b@[i as int]);
            assert(a@.skip(i as int).drop_first() =~= a@.skip(i + 1));
            assert(b@.skip(i as int).drop_first() =~= b@.skip(i + 1));
        }
        if a[i] < b[i] {
            return Ord3::Lt;
        }
        if a[i] > b[i] {
            return Ord3::Gt;
        }
        i = i + 1;
    }
    if i == a.len() && i == b.len() {
        Ord3::Eq
    } else if i == a.len() {
        Ord3::Lt
    } else {
        Ord3::Gt
    }
}

/// Compares two key segments.
fn compare_segs(a: &KeySeg, b: &KeySeg) -> (r: Ord3)
    ensures
        r == seg_cmp(a@, b@),
{
    match (a, b) {
        (KeySeg::Num(x), KeySeg::Num(y)) => {
            if x.len() < y.len() {
                Ord3::Lt
            } else if x.len() > y.len() {
                Ord3::Gt
            } else {
                compare_bytes(x, y)
            }
        },
        (KeySeg::Num(_), KeySeg::Text(_)) => Ord3::Lt,
        (KeySeg::Text(_), KeySeg::Num(_)) => Ord3::Gt,
        (KeySeg::Text(x), KeySeg::Text(y)) => compare_bytes(x, y),
    }
}

/// Compares two comparison keys.
pub fn compare_keys(a: &Vec<KeySeg>, b: &Vec<KeySeg>) -> (r: Ord3)
    ensures
        r == key_cmp(segs_view(a@), segs_view(b@)),
{
    let ghost va = segs_view(a@);
    let ghost vb = segs_view(b@);
    let mut i: usize = 0;
    proof {
        assert(va.skip(0) =~= va);
        assert(vb.skip(0) =~= vb);
    }
    while i < a.len() && i < b.len()
        invariant
            i <= a.len(),
            i <= b.len(),
            va == segs_view(a@),
            vb == segs_view(b@),
            va.len() == a@.len(),
            vb.len() == b@.len(),
            key_cmp(va, vb) == key_cmp(va.skip(i as int), vb.skip(i as int)),
        decreases a.len() - i,
    {
        proof {
            assert(va.skip(i as int)[0] == va[i as int]);
            assert(vb.skip(i as int)[0] == vb[i as int]);
            assert(va.skip(i as int).drop_first() =~= va.skip(i + 1));
            assert(vb.skip(i as int).drop_first() =~= vb.skip(i + 1));
        }
        let c = compare_segs(&a[i], &b[i]);
        if !matches!(c, Ord3::Eq) {
            return c;
        }
        i = i + 1;
    }
    if i == a.len() && i == b.len() {
        Ord3::Eq
    } else if i == a.len() {
        Ord3::Lt
    } else {
        Ord3::Gt
    }
}

/// The configured comparator on two raw lines, as the check and merge
/// modes see it: the key order, inverted when `reverse` is set, with no
/// tie-break.
pub fn compare(oc: &OrdCfg, a: &Vec<u8>, b: &Vec<u8>) -> (r: Ord3)
    ensures
        r == flip_if(oc.reverse, key_cmp(spec_key(*oc, a@), spec_key(*oc, b@))),
{
    let ka = transform(a, oc);
    let kb = transform(b, oc);
    let c = compare_keys(&ka, &kb);
    if oc.reverse {
        flip_x(c)
    } else {
        c
    }
}

/// The configured comparator on two raw line contents, tie-break policy
/// included up to input position.
pub fn compare_texts(oc: &OrdCfg, a: &Vec<u8>, b: &Vec<u8>) -> (r: Ord3)
    ensures
        r == crate::lines::tcmp(*oc, a@, b@),
{
    let ka = transform(a, oc);
    let kb = transform(b, oc);
    let kc = compare_keys(&ka, &kb);
    let base = if oc.stable {
        kc
    } else {
        if !matches!(kc, Ord3::Eq) {
            kc
        } else {
            compare_bytes(a, b)
        }
    };
    if oc.reverse {
        flip_x(base)
    } else {
        base
    }
}

/// The engine's total order on tagged lines: the configured comparator
/// plus the tie-break policy.
pub fn compare_tagged(oc: &OrdCfg, a: &TaggedLine, b: &TaggedLine) -> (r: Ord3)
    ensures
        r == line_cmp(*oc, a@, b@),
{
    let tc = compare_texts(oc, &a.text, &b.text);
    if !matches!(tc, Ord3::Eq) {
        tc
    } else if a.ord < b.ord {
        Ord3::Lt
    } else if a.ord > b.ord {
        Ord3::Gt
    } else {
        compare_bytes(&a.text, &b.text)
    }
}

} // verus!
