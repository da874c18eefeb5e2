//! The uniq pass: condenses runs of equal lines and emits the unique or
//! the repeated ones, optionally counted, after the configured skipping,
//! case folding, and non-adjacent reordering.

use vstd::prelude::*;

use crate::compare::{fold_vec, subvec};
use crate::config::{KeyMode, OrdCfg, SortConfig};
use crate::engine::{sort_lines, spec_sorted_texts, texts_view};
use crate::keys::{fold_bytes, lemma_prefix_len_bound, lemma_prefix_len_is, prefix_len};


verus! {

/// Options of the uniq pass; every field maps to one option of the
/// command surface.
#[derive(Clone, Debug)]
pub struct UniqOpt {
    /// Precede each emitted line with the number of times it occurred.
    pub count: bool,
    /// Only output repeated lines.
    pub repeated: bool,
    /// Ignore the first `words` space-separated words of the input.
    pub words: usize,
    /// Ignore the first `graphemes` bytes of the input.
    pub graphemes: usize,
    /// Compare lines case-insensitively; the output is case-folded.
    pub insensitive: bool,
    /// Only output lines that are not repeated.
    pub unique: bool,
    /// Consider non-adjacent lines, reordering the input first.
    pub non_adjacent: bool,
}

/// Everything that can go wrong around the uniq pass; reading or writing
/// trouble is reported by the caller through this type.
#[derive(Clone, Debug)]
pub enum UniqError {
    /// The input could not be read or the output could not be written;
    /// the payload carries the reporting text.
    IOError(String),
}

/// Everything that is not the separator, as a relation value.
pub open spec fn nonsep_pred(sep: u8) -> spec_fn(u8) -> bool {
    |b: u8| b != sep
}

/// Splits a byte string at every separator; a trailing separator yields
/// a trailing empty part, and the empty string is one empty part.
pub open spec fn split_bytes(s: Seq<u8>, sep: u8) -> Seq<Seq<u8>>
    decreases s.len(),
    via split_bytes_decreases
{
    let n = prefix_len(s, nonsep_pred(sep));
    if n == s.len() {
        seq![s]
    } else {
        seq![s.take(n as int)] + split_bytes(s.skip(n + 1 as int), sep)
    }
}

#[via_fn]
proof fn split_bytes_decreases(s: Seq<u8>, sep: u8) {
    lemma_prefix_len_bound(s, nonsep_pred(sep));
}

/// Joins parts with a single space between them.
pub open spec fn join_sp(parts: Seq<Seq<u8>>) -> Seq<u8>
    decreases parts.len(),
{
    if parts.len() == 0 {
        Seq::empty()
    } else if parts.len() == 1 {
        parts[0]
    } else {
        join_sp(parts.drop_last()) + seq![32u8] + parts.last()
    }
}

/// The number of leading lines equal to `x`.
pub open spec fn eq_run(ls: Seq<Seq<u8>>, x: Seq<u8>) -> nat
    decreases ls.len(),
{
    if ls.len() == 0 || ls[0] != x {
        0
    } else {
        1 + eq_run(ls.drop_first(), x)
    }
}

proof fn lemma_eq_run_bound(ls: Seq<Seq<u8>>, x: Seq<u8>)
    ensures
        eq_run(ls, x) <= ls.len(),
    decreases ls.len(),
{
    if ls.len() > 0 && ls[0] == x {
        lemma_eq_run_bound(ls.drop_first(), x);
    }
}

/// The run length is the first index whose line differs from `x`.
proof fn lemma_eq_run_is(ls: Seq<Seq<u8>>, x: Seq<u8>, n: int)
    requires
        0 <= n <= ls.len(),
        forall|k: int| 0 <= k < n ==> ls[k] == x,
        n == ls.len() || ls[n] != x,
    ensures
        eq_run(ls, x) == n,
    decreases n,
{
    if ls.len() == 0 || ls[0] != x {
    } else {
        lemma_eq_run_is(ls.drop_first(), x, n - 1);
    }
}

/// Groups adjacent equal lines, each with the length of its run.
pub open spec fn condense(ls: Seq<Seq<u8>>) -> Seq<(Seq<u8>, nat)>
    decreases ls.len(),
    via condense_decreases
{
    if ls.len() == 0 {
        Seq::empty()
    } else {
        let n = eq_run(ls, ls[0]);
        seq![(ls[0], n)] + condense(ls.skip(n as int))
    }
}

#[via_fn]
proof fn condense_decreases(ls: Seq<Seq<u8>>) {
    if ls.len() > 0 {
        lemma_eq_run_bound(ls, ls[0]);
    }
}

/// The decimal digits of a number.
pub open spec fn dec_digits(n: nat) -> Seq<u8>
    decreases n,
{
    if n < 10 {
        seq![(48 + n) as u8]
    } else {
        dec_digits(n / 10) + seq![(48 + n % 10) as u8]
    }
}

/// What one condensed group contributes to the output: the line when its
/// count matches the selection, preceded by the count when asked for,
/// and nothing otherwise.
pub open spec fn render_piece(o: UniqOpt, line: Seq<u8>, count: nat) -> Seq<u8> {
    if (o.unique && count == 1) || (o.repeated && count > 1) {
        if o.count {
            dec_digits(count) + seq![32u8] + line
        } else {
            line
        }
    } else {
        Seq::empty()
    }
}

/// The whole rendered output of the condensed groups.
pub open spec fn render_all(o: UniqOpt, cond: Seq<(Seq<u8>, nat)>) -> Seq<u8>
    decreases cond.len(),
{
    if cond.len() == 0 {
        Seq::empty()
    } else {
        render_all(o, cond.drop_last()) + render_piece(o, cond.last().0, cond.last().1)
    }
}

/// The ordering the non-adjacent pass reorders lines with: the plain
/// byte comparator, nothing folded.
pub open spec fn plain_order() -> OrdCfg {
    OrdCfg {
        mode: KeyMode::Plain,
        ignore_blanks: false,
        ignore_case: false,
        reverse: false,
        stable: false,
    }
}

/// What the uniq pass emits for the given input and options.
pub open spec fn spec_uniq(o: UniqOpt, input: Seq<u8>) -> Seq<u8> {
    if input.len() == 0 {
        Seq::empty()
    } else {
        let b1 = input.skip(o.graphemes as int);
        let b2 = if o.words > 0 {
            let parts = split_bytes(b1, 32);
            let w = if o.words >= parts.len() {
                parts.len() as int
            } else {
                o.words as int
            };
            join_sp(parts.skip(w))
        } else {
            b1
        };
        let b3 = if o.insensitive {
            fold_bytes(b2)
        } else {
            b2
        };
        let ls = split_bytes(b3, 10);
        let ls2 = if o.non_adjacent {
            spec_sorted_texts(plain_order(), ls)
        } else {
            ls
        };
        render_all(o, condense(ls2))
    }
}

/// Whether two byte vectors hold the same bytes.
fn eq_vec(a: &Vec<u8>, b: &Vec<u8>) -> (r: bool)
    ensures
        r == (a@ == b@),
{
    if a.len() != b.len() {
        return false;
    }
    let mut k: usize = 0;
    while k < a.len()
        invariant
            k <= a.len(),
            a.len() == b.len(),
            forall|q: int| 0 <= q < k ==> a@[q] == b@[q],
        decreases a.len() - k,
    {
        if a[k] != b[k] {
            return false;
        }
        k = k + 1;
    }
    proof {
        assert(a@ =~= b@);
    }
    true
}

/// Splits a byte vector at every separator.
fn split_bytes_x(v: &Vec<u8>, sep: u8) -> (out: Vec<Vec<u8>>)
    ensures
        texts_view(out@) == split_bytes(v@, sep),
{
    let mut out: Vec<Vec<u8>> = Vec::new();
    let mut i: usize = 0;
    let mut finished = false;
    proof {
        assert(v@.skip(0) =~= v@);
        assert(texts_view(out@) =~= Seq::<Seq<u8>>::empty());
        assert(Seq::<Seq<u8>>::empty() + split_bytes(v@, sep) =~= split_bytes(v@, sep));
    }
    while !finished
        invariant
            i <= v.len(),
            !finished ==> texts_view(out@) + split_bytes(v@.skip(i as int), sep) == split_bytes(
                v@,
                sep,
            ),
            finished ==> texts_view(out@) == split_bytes(v@, sep),
        decreases v.len() - i, (if finished {
            0int
        } else {
            1int
        }),
    {
        let ghost i0 = i as int;
        let ghost s = v@.skip(i as int);
        let ghost old_out = texts_view(out@);
        let mut j: usize = i;
        while j < v.len() && v[j] != sep
            invariant
                i <= j <= v.len(),
                forall|k: int| i <= k < j ==> v@[k] != sep,
            decreases v.len() - j,
        {
            j = j + 1;
        }
        proof {
            assert forall|k: int| 0 <= k < j - i0 implies nonsep_pred(sep)(s[k]) by {
                assert(s[k] == v@[k + i0]);
            }
            if j < v.len() {
                assert(s[j - i0] == v@[j as int]);
                assert(!nonsep_pred(sep)(s[j - i0]));
            }
            lemma_prefix_len_is(s, nonsep_pred(sep), j - i0);
            assert(s.take(j - i0) =~= v@.subrange(i0, j as int));
        }
        let part = subvec(v, i, j);
        out.push(part);
        if j < v.len() {
            i = j + 1;
            proof {
                assert(s.skip(j - i0 + 1) =~= v@.skip(i as int));
                assert(split_bytes(s, sep) == seq![s.take(j - i0)] + split_bytes(
                    v@.skip(i as int),
                    sep,
                ));
                assert(texts_view(out@) =~= old_out.push(s.take(j - i0)));
                assert(texts_view(out@) + split_bytes(v@.skip(i as int), sep) =~= old_out
                    + split_bytes(s, sep));
            }
        } else {
            finished = true;
            proof {
                assert(s.take(j - i0) =~= s);
                assert(split_bytes(s, sep) == seq![s]);
                assert(texts_view(out@) =~= old_out.push(s));
                assert(texts_view(out@) =~= old_out + split_bytes(s, sep));
            }
        }
    }
    out
}

/// Appends the bytes of `v` to `out`.
fn append_bytes(out: &mut Vec<u8>, v: &Vec<u8>)
    ensures
        final(out)@ == old(out)@ + v@,
{
    let mut k: usize = 0;
    proof {
        assert(out@ =~= old(out)@ + v@.take(0));
    }
    while k < v.len()
        invariant
            k <= v.len(),
            out@ == old(out)@ + v@.take(k as int),
        decreases v.len() - k,
    {
        out.push(v[k]);
        k = k + 1;
        proof {
            assert(old(out)@ + v@.take(k as int) =~= (old(out)@ + v@.take(k - 1)).push(
                v@[k - 1],
            ));
        }
    }
    proof {
        assert(v@.take(v.len() as int) =~= v@);
    }
}

/// Joins the parts from `start` on with single spaces.
fn join_from(parts: &Vec<Vec<u8>>, start: usize) -> (out: Vec<u8>)
    requires
        start <= parts.len(),
    ensures
        out@ == join_sp(texts_view(parts@).skip(start as int)),
{
    let ghost pv = texts_view(parts@);
    let mut out: Vec<u8> = Vec::new();
    let mut k: usize = start;
    proof {
        assert(pv.subrange(start as int, start as int) =~= Seq::<Seq<u8>>::empty());
        assert(out@ =~= join_sp(pv.subrange(start as int, start as int)));
    }
    while k < parts.len()
        invariant
            start <= k <= parts.len(),
            pv == texts_view(parts@),
            out@ == join_sp(pv.subrange(start as int, k as int)),
        decreases parts.len() - k,
    {
        if k > start {
            out.push(32);
        }
        append_bytes(&mut out, &parts[k]);
        k = k + 1;
        proof {
            let sub = pv.subrange(start as int, k as int);
            assert(sub.drop_last() =~= pv.subrange(start as int, k - 1));
            assert(sub.last() == pv[k - 1]);
            if k - start == 1 {
                assert(out@ =~= join_sp(sub));
            } else {
                assert(out@ =~= join_sp(sub.drop_last()) + seq![32u8] + sub.last());
            }
        }
    }
    proof {
        assert(pv.subrange(start as int, parts@.len() as int) =~= pv.skip(start as int));
    }
    out
}

/// One condensed group: a line and the length of its adjacent run.
pub struct CountedLine {
    /// The line's bytes.
    pub line: Vec<u8>,
    /// How many times the line occurred adjacently.
    pub count: usize,
}

/// The views of a sequence of condensed groups.
pub open spec fn counted_view(s: Seq<CountedLine>) -> Seq<(Seq<u8>, nat)> {
    s.map_values(|c: CountedLine| (c.line@, c.count as nat))
}

/// Groups adjacent equal lines with their counts.
#[verifier::loop_isolation(false)]
fn condense_x(ls: &Vec<Vec<u8>>) -> (out: Vec<CountedLine>)
    ensures
        counted_view(out@) == condense(texts_view(ls@)),
{
    let ghost tv = texts_view(ls@);
    let mut out: Vec<CountedLine> = Vec::new();
    let mut i: usize = 0;
    proof {
        assert(tv.skip(0) =~= tv);
        assert(counted_view(out@) =~= Seq::<(Seq<u8>, nat)>::empty());
        assert(Seq::<(Seq<u8>, nat)>::empty() + condense(tv) =~= condense(tv));
    }
    while i < ls.len()
        invariant
            i <= ls.len(),
            tv == texts_view(ls@),
            counted_view(out@) + condense(tv.skip(i as int)) == condense(tv),
        decreases ls.len() - i,
    {
        let ghost i0 = i as int;
        let ghost s = tv.skip(i as int);
        let ghost old_out = counted_view(out@);
        let mut j: usize = i + 1;
        while j < ls.len() && eq_vec(&ls[j], &ls[i])
            invariant
                i < j <= ls.len(),
                forall|k: int| i <= k < j ==> tv[k] == tv[i as int],
            decreases ls.len() - j,
        {
            proof {
                assert(tv[j as int] == ls@[j as int]@);
                assert(tv[i as int] == ls@[i as int]@);
            }
            j = j + 1;
        }
        proof {
            assert forall|k: int| #![trigger s[k]] 0 <= k < j - i0 implies s[k] == s[0] by {
                assert(s[k] == tv[k + i0]);
            }
            if j < ls.len() {
                assert(s[j - i0] == tv[j as int]);
                assert(s[j - i0] != s[0]);
            }
            lemma_eq_run_is(s, s[0], j - i0);
        }
        let grp = CountedLine { line: ls[i].clone(), count: j - i };
        proof {
            assert(grp.line@ =~= tv[i0]);
        }
        out.push(grp);
        i = j;
        proof {
            assert(s.skip(j - i0) =~= tv.skip(i as int));
            assert(condense(s) == seq![(s[0], (j - i0) as nat)] + condense(tv.skip(i as int)));
            assert(counted_view(out@) =~= old_out.push((s[0], (j - i0) as nat)));
            assert(counted_view(out@) + condense(tv.skip(i as int)) =~= old_out + condense(s));
        }
    }
    proof {
        assert(tv.skip(tv.len() as int) =~= Seq::<Seq<u8>>::empty());
        assert(counted_view(out@) + condense(Seq::<Seq<u8>>::empty()) =~= counted_view(out@));
    }
    out
}

/// Appends the decimal digits of `n`.
fn push_decimal(n: usize, out: &mut Vec<u8>)
    ensures
        final(out)@ == old(out)@ + dec_digits(n as nat),
    decreases n,
{
    if n < 10 {
        out.push(48 + (n as u8));
        proof {
            assert(out@ =~= old(out)@ + dec_digits(n as nat));
        }
    } else {
        push_decimal(n / 10, out);
        out.push(48 + ((n % 10) as u8));
        proof {
            assert(out@ =~= old(out)@ + dec_digits(n as nat));
        }
    }
}

/// Renders the condensed groups into the emitted bytes.
fn render_x(o: &UniqOpt, cond: &Vec<CountedLine>) -> (out: Vec<u8>)
    ensures
        out@ == render_all(*o, counted_view(cond@)),
{
    let ghost cv = counted_view(cond@);
    let mut out: Vec<u8> = Vec::new();
    let mut i: usize = 0;
    proof {
        assert(cv.take(0) =~= Seq::<(Seq<u8>, nat)>::empty());
        assert(out@ =~= render_all(*o, cv.take(0)));
    }
    while i < cond.len()
        invariant
            i <= cond.len(),
            cv == counted_view(cond@),
            out@ == render_all(*o, cv.take(i as int)),
        decreases cond.len() - i,
    {
        let c = cond[i].count;
        let selected = (o.unique && c == 1) || (o.repeated && c > 1);
        if selected {
            if o.count {
                push_decimal(c, &mut out);
                out.push(32);
            }
            append_bytes(&mut out, &cond[i].line);
        }
        i = i + 1;
        proof {
            assert(cv.take(i as int).drop_last() =~= cv.take(i - 1));
            assert(cv.take(i as int).last() == cv[i - 1]);
            assert(out@ =~= render_all(*o, cv.take(i - 1)) + render_piece(
                *o,
                cv[i - 1].0,
                cv[i - 1].1,
            ));
        }
    }
    proof {
        assert(cv.take(cond@.len() as int) =~= cv);
    }
    out
}

/// Condenses runs of equal lines of the input and emits the unique or
/// the repeated ones, as configured: bytes and words are skipped first,
/// case is folded when asked (the output is then folded too), and with
/// the non-adjacent option the lines are reordered by plain byte order
/// before grouping.
pub fn uniq(input: &Vec<u8>, opts: &UniqOpt) -> (r: Result<Vec<u8>, UniqError>)
    requires
        input@.len() == 0 || opts.graphemes <= input@.len(),
    ensures
        r is Ok,
        r->Ok_0@ == spec_uniq(*opts, input@),
{
    if input.len() == 0 {
        let out: Vec<u8> = Vec::new();
        proof {
            assert(out@ =~= spec_uniq(*opts, input@));
        }
        return Ok(out);
    }
    let b1 = subvec(input, opts.graphemes, input.len());
    proof {
        assert(b1@ =~= input@.skip(opts.graphemes as int));
    }
    let b2 = if opts.words > 0 {
        let parts = split_bytes_x(&b1, 32);
        let w = if opts.words >= parts.len() {
            parts.len()
        } else {
            opts.words
        };
        join_from(&parts, w)
    } else {
        b1
    };
    let b3 = if opts.insensitive {
        fold_vec(&b2)
    } else {
        b2
    };
    let ls = split_bytes_x(&b3, 10);
    let ls2 = if opts.non_adjacent {
        let cfg = SortConfig {
            ignore_blanks: false,
            ignore_case: false,
            ignore_numeric_tokens: false,
            numeric_aware: false,
            month_aware: false,
            numeric_unit_aware: false,
            version_aware: false,
            reverse: false,
            stable: false,
            unique: false,
            check: false,
            merge_only: false,
            batch_size: if ls.len() < 1 {
                1
            } else {
                ls.len()
            },
            external_key_comparator: None,
        };
        let sorted = sort_lines(&ls, &cfg);
        proof {
            assert(crate::config::spec_ord_cfg(cfg) == plain_order());
        }
        sorted
    } else {
        ls
    };
    let cond = condense_x(&ls2);
    Ok(render_x(opts, &cond))
}

} // verus!
