//! The key transform: maps a raw line to its comparison key according to
//! the configured folding rules, and orders keys.  A key is a sequence of
//! segments; a segment is either a normalized digit string compared by
//! magnitude or a byte string compared lexicographically, with numbers
//! sorting before text.

use vstd::prelude::*;

use crate::config::{KeyMode, OrdCfg};
use crate::ordering::{
    byte_cmp, bytes_cmp, flip, lemma_bytes_cmp_eq, lemma_bytes_cmp_flip,
    lemma_bytes_cmp_lt_trans, lemma_mag_cmp_eq, lemma_mag_cmp_flip, lemma_mag_cmp_lt_trans, lex2,
    mag_cmp, Ord3,
};

verus! {

/// One segment of a comparison key, at the specification level.
pub enum SegView {
    /// A number, held as its digit string with leading zeros removed.
    Num(Seq<u8>),
    /// A byte string compared lexicographically.
    Text(Seq<u8>),
}

/// One segment of a comparison key.
#[derive(Clone, Debug)]
pub enum KeySeg {
    /// A number, held as its digit string with leading zeros removed.
    Num(Vec<u8>),
    /// A byte string compared lexicographically.
    Text(Vec<u8>),
}

impl View for KeySeg {
    type V = SegView;

    open spec fn view(&self) -> SegView {
        match self {
            KeySeg::Num(d) => SegView::Num(d@),
            KeySeg::Text(t) => SegView::Text(t@),
        }
    }
}

/// The views of a sequence of key segments.
pub open spec fn segs_view(s: Seq<KeySeg>) -> Seq<SegView> {
    s.map_values(|g: KeySeg| g@)
}

/// ASCII whitespace.
pub open spec fn is_space(b: u8) -> bool {
    b == 32 || b == 9 || b == 10 || b == 13 || b == 11 || b == 12
}

/// ASCII decimal digit.
pub open spec fn is_digit(b: u8) -> bool {
    48 <= b <= 57
}

/// ASCII letter.
pub open spec fn is_alpha(b: u8) -> bool {
    (65 <= b <= 90) || (97 <= b <= 122)
}

/// A character that the ignore-numbers key keeps: whitespace or a
/// dictionary-word character.
pub open spec fn is_dict(b: u8) -> bool {
    is_alpha(b) || is_space(b)
}

/// A version-component delimiter: dot or dash.
pub open spec fn is_delim(b: u8) -> bool {
    b == 46 || b == 45
}

/// ASCII case folding to lower case.
pub open spec fn fold_byte(b: u8) -> u8 {
    if 65 <= b <= 90 {
        (b + 32) as u8
    } else {
        b
    }
}

/// Case-folds a byte string.
pub open spec fn fold_bytes(s: Seq<u8>) -> Seq<u8> {
    s.map_values(|b: u8| fold_byte(b))
}

/// ASCII whitespace, as a relation value.
pub open spec fn space_pred() -> spec_fn(u8) -> bool {
    |b: u8| is_space(b)
}

/// Not ASCII whitespace, as a relation value.
pub open spec fn nonspace_pred() -> spec_fn(u8) -> bool {
    |b: u8| !is_space(b)
}

/// ASCII digit, as a relation value.
pub open spec fn digit_pred() -> spec_fn(u8) -> bool {
    |b: u8| is_digit(b)
}

/// Not an ASCII digit, as a relation value.
pub open spec fn nondigit_pred() -> spec_fn(u8) -> bool {
    |b: u8| !is_digit(b)
}

/// Not a version delimiter, as a relation value.
pub open spec fn nondelim_pred() -> spec_fn(u8) -> bool {
    |b: u8| !is_delim(b)
}

/// The zero digit, as a relation value.
pub open spec fn zero_pred() -> spec_fn(u8) -> bool {
    |b: u8| b == 48
}

/// A kept ignore-numbers byte, as a relation value.
pub open spec fn dict_pred() -> spec_fn(u8) -> bool {
    |b: u8| is_dict(b)
}

/// Length of the longest prefix whose bytes all satisfy `pred`.
pub open spec fn prefix_len(s: Seq<u8>, pred: spec_fn(u8) -> bool) -> nat
    decreases s.len(),
{
    if s.len() == 0 || !pred(s[0]) {
        0
    } else {
        1 + prefix_len(s.drop_first(), pred)
    }
}

/// Length of the longest suffix whose bytes all satisfy `pred`.
pub open spec fn suffix_len(s: Seq<u8>, pred: spec_fn(u8) -> bool) -> nat
    decreases s.len(),
{
    if s.len() == 0 || !pred(s.last()) {
        0
    } else {
        1 + suffix_len(s.drop_last(), pred)
    }
}

pub proof fn lemma_prefix_len_bound(s: Seq<u8>, pred: spec_fn(u8) -> bool)
    ensures
        prefix_len(s, pred) <= s.len(),
    decreases s.len(),
{
    if s.len() > 0 && pred(s[0]) {
        lemma_prefix_len_bound(s.drop_first(), pred);
    }
}

pub proof fn lemma_suffix_len_bound(s: Seq<u8>, pred: spec_fn(u8) -> bool)
    ensures
        suffix_len(s, pred) <= s.len(),
    decreases s.len(),
{
    if s.len() > 0 && pred(s.last()) {
        lemma_suffix_len_bound(s.drop_last(), pred);
    }
}

/// Every byte inside the prefix satisfies `pred`.
pub proof fn lemma_prefix_len_all(s: Seq<u8>, pred: spec_fn(u8) -> bool)
    ensures
        forall|k: int| 0 <= k < prefix_len(s, pred) ==> pred(s[k]),
    decreases s.len(),
{
    if s.len() > 0 && pred(s[0]) {
        lemma_prefix_len_bound(s, pred);
        lemma_prefix_len_all(s.drop_first(), pred);
        assert forall|k: int| 0 <= k < prefix_len(s, pred) implies pred(s[k]) by {
            if k > 0 {
                assert(s[k] == s.drop_first()[k - 1]);
            }
        }
    }
}

/// The prefix length is the first index whose byte fails `pred`.
pub proof fn lemma_prefix_len_is(s: Seq<u8>, pred: spec_fn(u8) -> bool, n: int)
    requires
        0 <= n <= s.len(),
        forall|k: int| 0 <= k < n ==> pred(s[k]),
        n == s.len() || !pred(s[n]),
    ensures
        prefix_len(s, pred) == n,
    decreases n,
{
    if s.len() == 0 || !pred(s[0]) {
    } else {
        lemma_prefix_len_is(s.drop_first(), pred, n - 1);
    }
}

/// The suffix length is determined by the last index whose byte fails
/// `pred`.
pub proof fn lemma_suffix_len_is(s: Seq<u8>, pred: spec_fn(u8) -> bool, n: int)
    requires
        0 <= n <= s.len(),
        forall|k: int| s.len() - n <= k < s.len() ==> pred(s[k]),
        n == s.len() || !pred(s[s.len() - n - 1]),
    ensures
        suffix_len(s, pred) == n,
    decreases n,
{
    if s.len() == 0 || !pred(s.last()) {
    } else {
        lemma_suffix_len_is(s.drop_last(), pred, n - 1);
    }
}

/// Strips leading and trailing whitespace.
pub open spec fn trim(s: Seq<u8>) -> Seq<u8> {
    let l = prefix_len(s, space_pred());
    let r = s.skip(l as int);
    r.take(r.len() - suffix_len(r, space_pred()))
}

/// Strips leading zeros from a digit string.
pub open spec fn strip_zeros(d: Seq<u8>) -> Seq<u8> {
    d.skip(prefix_len(d, zero_pred()) as int)
}

/// A string of `n` zero digits.
pub open spec fn zero_digits(n: nat) -> Seq<u8> {
    Seq::new(n, |i: int| 48u8)
}

/// The power of 1000 a unit suffix denotes, or zero for any other byte.
pub open spec fn unit_pow(b: u8) -> nat {
    let f = fold_byte(b);
    if f == 107 {
        1
    } else if f == 109 {
        2
    } else if f == 103 {
        3
    } else if f == 116 {
        4
    } else if f == 112 {
        5
    } else if f == 101 {
        6
    } else {
        0
    }
}

/// The number segment for a digit run scaled by 1000 to the given power:
/// zero stays zero, anything else gains three zero digits per power.
pub open spec fn scaled_num(digits: Seq<u8>, pow: nat) -> Seq<u8> {
    let d = strip_zeros(digits);
    if d.len() == 0 {
        d
    } else {
        d + zero_digits(3 * pow)
    }
}

/// Splits a line into alternating non-numeric and numeric runs.  With
/// `units`, a digit run followed by a unit suffix is scaled by the suffix
/// and the suffix is consumed.
pub open spec fn num_key(s: Seq<u8>, units: bool) -> Seq<SegView>
    decreases s.len(),
    via num_key_decreases
{
    if s.len() == 0 {
        Seq::empty()
    } else if is_digit(s[0]) {
        let n = prefix_len(s, digit_pred());
        if units && n < s.len() && unit_pow(s[n as int]) > 0 {
            seq![SegView::Num(scaled_num(s.take(n as int), unit_pow(s[n as int])))] + num_key(
                s.skip(n + 1 as int),
                units,
            )
        } else {
            seq![SegView::Num(strip_zeros(s.take(n as int)))] + num_key(s.skip(n as int), units)
        }
    } else {
        let n = prefix_len(s, nondigit_pred());
        seq![SegView::Text(s.take(n as int))] + num_key(s.skip(n as int), units)
    }
}

#[via_fn]
proof fn num_key_decreases(s: Seq<u8>, units: bool) {
    lemma_prefix_len_bound(s, |b: u8| is_digit(b));
    lemma_prefix_len_bound(s, |b: u8| !is_digit(b));
}

/// The month number (1 through 12) a case-folded token names, in full or as
/// its three-letter abbreviation, or zero for any other token.
pub open spec fn month_num(t: Seq<u8>) -> nat {
    month_num_folded(fold_bytes(t))
}

/// The month number of an already case-folded token.
pub open spec fn month_num_folded(f: Seq<u8>) -> nat {
    if f == seq![106u8, 97, 110] || f == seq![106u8, 97, 110, 117, 97, 114, 121] {
        1
    } else if f == seq![102u8, 101, 98] || f == seq![102u8, 101, 98, 114, 117, 97, 114, 121] {
        2
    } else if f == seq![109u8, 97, 114] || f == seq![109u8, 97, 114, 99, 104] {
        3
    } else if f == seq![97u8, 112, 114] || f == seq![97u8, 112, 114, 105, 108] {
        4
    } else if f == seq![109u8, 97, 121] {
        5
    } else if f == seq![106u8, 117, 110] || f == seq![106u8, 117, 110, 101] {
        6
    } else if f == seq![106u8, 117, 108] || f == seq![106u8, 117, 108, 121] {
        7
    } else if f == seq![97u8, 117, 103] || f == seq![97u8, 117, 103, 117, 115, 116] {
        8
    } else if f == seq![115u8, 101, 112] || f == seq![115u8, 101, 112, 116, 101, 109, 98, 101, 114] {
        9
    } else if f == seq![111u8, 99, 116] || f == seq![111u8, 99, 116, 111, 98, 101, 114] {
        10
    } else if f == seq![110u8, 111, 118] || f == seq![110u8, 111, 118, 101, 109, 98, 101, 114] {
        11
    } else if f == seq![100u8, 101, 99] || f == seq![100u8, 101, 99, 101, 109, 98, 101, 114] {
        12
    } else {
        0
    }
}

/// The digit string of a month number.
pub open spec fn month_digits(m: nat) -> Seq<u8> {
    if m < 10 {
        seq![(48 + m) as u8]
    } else {
        seq![49u8, (48 + (m - 10)) as u8]
    }
}

/// The key segment for one whitespace-separated token under month-aware
/// ordering.
pub open spec fn month_seg(t: Seq<u8>) -> SegView {
    if month_num(t) > 0 {
        SegView::Num(month_digits(month_num(t)))
    } else {
        SegView::Text(t)
    }
}

/// Splits a line into whitespace-separated tokens; a month-name token
/// becomes its month number, any other token compares lexicographically.
pub open spec fn month_key(s: Seq<u8>) -> Seq<SegView>
    decreases s.len(),
    via month_key_decreases
{
    if s.len() == 0 {
        Seq::empty()
    } else if is_space(s[0]) {
        month_key(s.drop_first())
    } else {
        let n = prefix_len(s, nonspace_pred());
        seq![month_seg(s.take(n as int))] + month_key(s.skip(n as int))
    }
}

#[via_fn]
proof fn month_key_decreases(s: Seq<u8>) {
    lemma_prefix_len_bound(s, |b: u8| !is_space(b));
}

/// The key segment for one dot- or dash-delimited version component: a
/// nonempty all-digit component compares by magnitude, anything else
/// lexicographically.
pub open spec fn ver_seg(t: Seq<u8>) -> SegView {
    if t.len() > 0 && prefix_len(t, digit_pred()) == t.len() {
        SegView::Num(strip_zeros(t))
    } else {
        SegView::Text(t)
    }
}

/// Splits a line at dots and dashes into version components.
pub open spec fn ver_key(s: Seq<u8>) -> Seq<SegView>
    decreases s.len(),
{
    if s.len() == 0 {
        Seq::empty()
    } else {
        let n = prefix_len(s, nondelim_pred());
        if n < s.len() {
            seq![ver_seg(s.take(n as int))] + ver_key(s.skip(n + 1 as int))
        } else {
            seq![ver_seg(s.take(n as int))]
        }
    }
}

/// The preprocessed line the key is computed from: blank-trimmed and
/// case-folded as configured.
pub open spec fn spec_pre(oc: OrdCfg, text: Seq<u8>) -> Seq<u8> {
    let t0 = if oc.ignore_blanks {
        trim(text)
    } else {
        text
    };
    if oc.ignore_case {
        fold_bytes(t0)
    } else {
        t0
    }
}

/// The comparison key of a line under the given ordering configuration.
pub open spec fn spec_key(oc: OrdCfg, text: Seq<u8>) -> Seq<SegView> {
    let t = spec_pre(oc, text);
    match oc.mode {
        KeyMode::Plain => seq![SegView::Text(t)],
        KeyMode::IgnoreNumericTokens => seq![SegView::Text(t.filter(dict_pred()))],
        KeyMode::Numeric => num_key(t, false),
        KeyMode::NumericUnit => num_key(t, true),
        KeyMode::Month => month_key(t),
        KeyMode::Version => ver_key(t),
    }
}

/// Order on key segments: numbers by magnitude, text lexicographically, a
/// number before any text.
pub open spec fn seg_cmp(a: SegView, b: SegView) -> Ord3 {
    match (a, b) {
        (SegView::Num(x), SegView::Num(y)) => mag_cmp(x, y),
        (SegView::Num(x), SegView::Text(y)) => Ord3::Lt,
        (SegView::Text(x), SegView::Num(y)) => Ord3::Gt,
        (SegView::Text(x), SegView::Text(y)) => bytes_cmp(x, y),
    }
}

/// Lexicographic order on keys; a strict prefix sorts first.
pub open spec fn key_cmp(a: Seq<SegView>, b: Seq<SegView>) -> Ord3
    decreases a.len(),
{
    if a.len() == 0 && b.len() == 0 {
        Ord3::Eq
    } else if a.len() == 0 {
        Ord3::Lt
    } else if b.len() == 0 {
        Ord3::Gt
    } else {
        lex2(seg_cmp(a[0], b[0]), key_cmp(a.drop_first(), b.drop_first()))
    }
}

/// Comparing segments in the other direction flips the result.
pub proof fn lemma_seg_cmp_flip(a: SegView, b: SegView)
    ensures
        seg_cmp(b, a) == flip(seg_cmp(a, b)),
{
    match (a, b) {
        (SegView::Num(x), SegView::Num(y)) => lemma_mag_cmp_flip(x, y),
        (SegView::Text(x), SegView::Text(y)) => lemma_bytes_cmp_flip(x, y),
        _ => (),
    }
}

/// Segments that compare equal are the same segment.
pub proof fn lemma_seg_cmp_eq(a: SegView, b: SegView)
    requires
        seg_cmp(a, b) == Ord3::Eq,
    ensures
        a == b,
{
    match (a, b) {
        (SegView::Num(x), SegView::Num(y)) => lemma_mag_cmp_eq(x, y),
        (SegView::Text(x), SegView::Text(y)) => lemma_bytes_cmp_eq(x, y),
        _ => (),
    }
}

/// Strict segment order is transitive.
pub proof fn lemma_seg_cmp_lt_trans(a: SegView, b: SegView, c: SegView)
    requires
        seg_cmp(a, b) == Ord3::Lt,
        seg_cmp(b, c) == Ord3::Lt,
    ensures
        seg_cmp(a, c) == Ord3::Lt,
{
    match (a, b, c) {
        (SegView::Num(x), SegView::Num(y), SegView::Num(z)) => lemma_mag_cmp_lt_trans(x, y, z),
        (SegView::Text(x), SegView::Text(y), SegView::Text(z)) => lemma_bytes_cmp_lt_trans(
            x,
            y,
            z,
        ),
        _ => (),
    }
}

/// Comparing keys in the other direction flips the result.
pub proof fn lemma_key_cmp_flip(a: Seq<SegView>, b: Seq<SegView>)
    ensures
        key_cmp(b, a) == flip(key_cmp(a, b)),
    decreases a.len() + b.len(),
{
    if a.len() > 0 && b.len() > 0 {
        lemma_seg_cmp_flip(a[0], b[0]);
        lemma_key_cmp_flip(a.drop_first(), b.drop_first());
    }
}

/// Keys that compare equal are the same key.
pub proof fn lemma_key_cmp_eq(a: Seq<SegView>, b: Seq<SegView>)
    requires
        key_cmp(a, b) == Ord3::Eq,
    ensures
        a == b,
    decreases a.len(),
{
    if a.len() > 0 && b.len() > 0 {
        lemma_seg_cmp_eq(a[0], b[0]);
        lemma_key_cmp_eq(a.drop_first(), b.drop_first());
        assert forall|i: int| 0 <= i < a.len() implies a[i] == b[i] by {
            if i > 0 {
                assert(a[i] == a.drop_first()[i - 1]);
                assert(b[i] == b.drop_first()[i - 1]);
            }
        }
        assert(a =~= b);
    } else {
        assert(a =~= b);
    }
}

/// Strict key order is transitive.
pub proof fn lemma_key_cmp_lt_trans(a: Seq<SegView>, b: Seq<SegView>, c: Seq<SegView>)
    requires
        key_cmp(a, b) == Ord3::Lt,
        key_cmp(b, c) == Ord3::Lt,
    ensures
        key_cmp(a, c) == Ord3::Lt,
    decreases a.len() + b.len() + c.len(),
{
    if a.len() == 0 {
    } else {
        let x = seg_cmp(a[0], b[0]);
        let y = seg_cmp(b[0], c[0]);
        if x == Ord3::Lt && y == Ord3::Lt {
            lemma_seg_cmp_lt_trans(a[0], b[0], c[0]);
        } else if x == Ord3::Lt {
            lemma_seg_cmp_eq(b[0], c[0]);
        } else if y == Ord3::Lt {
            lemma_seg_cmp_eq(a[0], b[0]);
        } else {
            lemma_seg_cmp_eq(a[0], b[0]);
            lemma_seg_cmp_eq(b[0], c[0]);
            lemma_key_cmp_lt_trans(a.drop_first(), b.drop_first(), c.drop_first());
        }
    }
}

} // verus!
