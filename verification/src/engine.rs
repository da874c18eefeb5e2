//! The sort engine: run builder (bounded batches sorted in memory), merge
//! engine (k-way merge of sorted runs, at most a batch of runs per pass),
//! and the full sort pipeline, each pinned to the specification-level
//! sorted sequence.

use vstd::multiset::Multiset;
use vstd::prelude::*;
use vstd::relations::sorted_by;
use vstd::seq_lib::{lemma_multiset_commutative, lemma_sorted_unique};

use crate::compare::compare_tagged;
use crate::config::OrdCfg;
use crate::lines::{
    lemma_line_cmp_eq, lemma_line_cmp_flip, lemma_line_cmp_lt_trans, lemma_line_le_total,
    line_cmp, line_le, LineV, TaggedLine,
};
use crate::ordering::Ord3;

verus! {

/// The byte strings of a sequence of line vectors.
pub open spec fn texts_view(v: Seq<Vec<u8>>) -> Seq<Seq<u8>> {
    v.map_values(|x: Vec<u8>| x@)
}

/// The views of a sequence of tagged lines.
pub open spec fn tagged_view(v: Seq<TaggedLine>) -> Seq<LineV> {
    v.map_values(|t: TaggedLine| t@)
}

/// Tags each line with its position.
pub open spec fn tag_seq(texts: Seq<Seq<u8>>) -> Seq<LineV> {
    Seq::new(texts.len(), |i: int| LineV { text: texts[i], ord: i as nat })
}

/// The byte strings of a sequence of tagged lines.
pub open spec fn untag(s: Seq<LineV>) -> Seq<Seq<u8>> {
    s.map_values(|l: LineV| l.text)
}

/// The views of a sequence of runs.
pub open spec fn runs_view(rs: Seq<Vec<TaggedLine>>) -> Seq<Seq<LineV>> {
    rs.map_values(|r: Vec<TaggedLine>| tagged_view(r@))
}

/// The concatenation of a sequence of runs.
pub open spec fn concat_all<A>(s: Seq<Seq<A>>) -> Seq<A>
    decreases s.len(),
{
    if s.len() == 0 {
        Seq::empty()
    } else {
        s[0] + concat_all(s.drop_first())
    }
}

/// What sorting a sequence of lines produces, tagged.
pub open spec fn spec_sort_tagged(oc: OrdCfg, texts: Seq<Seq<u8>>) -> Seq<LineV> {
    tag_seq(texts).sort_by(line_le(oc))
}

/// What sorting a sequence of lines produces: the unique permutation that
/// is sorted under the engine's total order.
pub open spec fn spec_sorted_texts(oc: OrdCfg, texts: Seq<Seq<u8>>) -> Seq<Seq<u8>> {
    untag(spec_sort_tagged(oc, texts))
}

/// Splitting a concatenation before its last run.
pub proof fn lemma_concat_all_split_last<A>(s: Seq<Seq<A>>)
    requires
        s.len() > 0,
    ensures
        concat_all(s) == concat_all(s.drop_last()) + s.last(),
    decreases s.len(),
{
    if s.len() == 1 {
        assert(s.drop_last() =~= Seq::<Seq<A>>::empty());
        assert(s.drop_first() =~= Seq::<Seq<A>>::empty());
        assert(concat_all(s) =~= concat_all(s.drop_last()) + s.last());
    } else {
        let df = s.drop_first();
        lemma_concat_all_split_last(df);
        assert(df.drop_last() =~= s.drop_last().drop_first());
        assert(df.last() == s.last());
        assert(s.drop_last()[0] == s[0]);
        assert(concat_all(s.drop_last()) == s.drop_last()[0] + concat_all(
            s.drop_last().drop_first(),
        ));
        assert(concat_all(s) =~= concat_all(s.drop_last()) + s.last());
    }
}

/// Splitting a concatenation around one run.
proof fn lemma_concat_all_index<A>(s: Seq<Seq<A>>, i: int)
    requires
        0 <= i < s.len(),
    ensures
        concat_all(s) == (concat_all(s.take(i)) + s[i]) + concat_all(s.skip(i + 1)),
    decreases i,
{
    if i == 0 {
        assert(s.take(0) =~= Seq::<Seq<A>>::empty());
        assert(s.skip(1) =~= s.drop_first());
        assert(concat_all(s) =~= (concat_all(s.take(0)) + s[0]) + concat_all(s.skip(1)));
    } else {
        let df = s.drop_first();
        lemma_concat_all_index(df, i - 1);
        assert(df.take(i - 1) =~= s.take(i).drop_first());
        assert(df[i - 1] == s[i]);
        assert(df.skip(i) =~= s.skip(i + 1));
        assert(s.take(i)[0] == s[0]);
        assert(concat_all(s.take(i)) == s[0] + concat_all(s.take(i).drop_first()));
        assert(concat_all(s) == s[0] + ((concat_all(s.take(i).drop_first()) + s[i]) + concat_all(
            s.skip(i + 1),
        )));
        assert(concat_all(s) =~= (concat_all(s.take(i)) + s[i]) + concat_all(s.skip(i + 1)));
    }
}

/// Consuming the head of one run removes exactly that line from the
/// concatenation.
proof fn lemma_concat_advance<A>(s: Seq<Seq<A>>, i: int)
    requires
        0 <= i < s.len(),
        s[i].len() > 0,
    ensures
        concat_all(s).to_multiset().contains(s[i][0]),
        concat_all(s.update(i, s[i].drop_first())).to_multiset() == concat_all(
            s,
        ).to_multiset().remove(s[i][0]),
        concat_all(s.update(i, s[i].drop_first())).len() == concat_all(s).len() - 1,
{
    broadcast use vstd::seq_lib::group_to_multiset_ensures;
    broadcast use vstd::multiset::group_multiset_axioms;

    let s2 = s.update(i, s[i].drop_first());
    lemma_concat_all_index(s, i);
    lemma_concat_all_index(s2, i);
    assert(s2.take(i) =~= s.take(i));
    assert(s2.skip(i + 1) =~= s.skip(i + 1));
    let a = concat_all(s.take(i));
    let c = concat_all(s.skip(i + 1));
    let x = s[i][0];
    let rest = s[i].drop_first();
    lemma_multiset_commutative(a + s[i], c);
    lemma_multiset_commutative(a, s[i]);
    lemma_multiset_commutative(a + rest, c);
    lemma_multiset_commutative(a, rest);
    assert(s[i] =~= seq![x] + rest);
    lemma_multiset_commutative(seq![x], rest);
    assert(seq![x] =~= Seq::<A>::empty().push(x));
    assert(seq![x].to_multiset() =~= Multiset::<A>::empty().insert(x));
    assert(concat_all(s).to_multiset() =~= a.to_multiset().add(
        Multiset::<A>::empty().insert(x).add(rest.to_multiset()),
    ).add(c.to_multiset()));
    assert(concat_all(s2).to_multiset() =~= a.to_multiset().add(rest.to_multiset()).add(
        c.to_multiset(),
    ));
    assert(concat_all(s).to_multiset().contains(x));
    assert(concat_all(s2).to_multiset() =~= concat_all(s).to_multiset().remove(x));
}

/// An all-empty family concatenates to nothing.
proof fn lemma_concat_all_empty<A>(s: Seq<Seq<A>>)
    requires
        forall|i: int| 0 <= i < s.len() ==> s[i].len() == 0,
    ensures
        concat_all(s).len() == 0,
    decreases s.len(),
{
    if s.len() > 0 {
        assert(s[0].len() == 0);
        lemma_concat_all_empty(s.drop_first());
    }
}

/// The multiset of an empty sequence of lines is empty.
proof fn lemma_empty_line_multiset<A>(s: Seq<A>)
    requires
        s.len() == 0,
    ensures
        s.to_multiset() == Multiset::<A>::empty(),
{
    broadcast use vstd::seq_lib::group_to_multiset_ensures;

    vstd::multiset::lemma_multiset_empty_len(s.to_multiset());
    assert(s.to_multiset() =~= Multiset::<A>::empty());
}

/// The unconsumed suffix of every run, given each run's read position.
pub open spec fn rem_views(runs: Seq<Vec<TaggedLine>>, pos: Seq<usize>) -> Seq<Seq<LineV>> {
    Seq::new(runs.len(), |r: int| tagged_view(runs[r]@).skip(pos[r] as int))
}

/// The current head line of one run.
pub open spec fn head_at(runs: Seq<Vec<TaggedLine>>, pos: Seq<usize>, q: int) -> LineV {
    tagged_view(runs[q]@)[pos[q] as int]
}

/// Merges one group of sorted runs by repeatedly scanning the open run
/// heads for the least line and emitting it; each run is drained exactly
/// once.
#[verifier::loop_isolation(false)]
#[verifier::rlimit(100)]
pub fn merge_group(oc: &OrdCfg, runs: &Vec<Vec<TaggedLine>>) -> (out: Vec<TaggedLine>)
    requires
        forall|r: int|
            0 <= r < runs@.len() ==> sorted_by(tagged_view(#[trigger] runs@[r]@), line_le(*oc)),
    ensures
        sorted_by(tagged_view(out@), line_le(*oc)),
        tagged_view(out@).to_multiset() == concat_all(runs_view(runs@)).to_multiset(),
{
    let ghost leq = line_le(*oc);
    let ghost total = concat_all(runs_view(runs@)).to_multiset();
    let mut pos: Vec<usize> = Vec::new();
    let mut r0: usize = 0;
    while r0 < runs.len()
        invariant
            r0 <= runs.len(),
            pos@.len() == r0,
            forall|q: int| 0 <= q < r0 ==> pos@[q] == 0,
        decreases runs.len() - r0,
    {
        pos.push(0);
        r0 = r0 + 1;
    }
    let mut out: Vec<TaggedLine> = Vec::new();
    proof {
        broadcast use vstd::multiset::group_multiset_axioms;

        assert forall|r: int| 0 <= r < runs@.len() implies rem_views(runs@, pos@)[r]
            == runs_view(runs@)[r] by {
            assert(tagged_view(runs@[r]@).skip(0) =~= tagged_view(runs@[r]@));
        }
        assert(rem_views(runs@, pos@) =~= runs_view(runs@));
        assert(tagged_view(out@) =~= Seq::<LineV>::empty());
        lemma_empty_line_multiset(tagged_view(out@));
        assert(tagged_view(out@).to_multiset().add(
            concat_all(rem_views(runs@, pos@)).to_multiset(),
        ) =~= total);
    }
    let mut done = false;
    while !done
        invariant
            pos@.len() == runs@.len(),
            forall|r: int| 0 <= r < runs@.len() ==> #[trigger] pos@[r] <= runs@[r]@.len(),
            sorted_by(tagged_view(out@), leq),
            tagged_view(out@).to_multiset().add(
                concat_all(rem_views(runs@, pos@)).to_multiset(),
            ) == total,
            forall|oi: int, r: int, j: int|
                0 <= oi < out@.len() && 0 <= r < runs@.len() && pos@[r] <= j < runs@[r]@.len()
                    ==> #[trigger] leq(tagged_view(out@)[oi], tagged_view(runs@[r]@)[j]),
            done ==> concat_all(rem_views(runs@, pos@)).len() == 0,
        decreases concat_all(rem_views(runs@, pos@)).len(), (if done {
            0int
        } else {
            1int
        }),
    {
        let mut m: usize = runs.len();
        let mut r: usize = 0;
        while r < runs.len()
            invariant
                r <= runs.len(),
                m <= runs.len(),
                m < runs.len() ==> pos@[m as int] < runs@[m as int]@.len(),
                m < runs.len() ==> forall|q: int|
                    0 <= q < r && #[trigger] pos@[q] < runs@[q]@.len() ==> line_cmp(
                        *oc,
                        head_at(runs@, pos@, m as int),
                        head_at(runs@, pos@, q),
                    ) != Ord3::Gt,
                m == runs.len() ==> forall|q: int|
                    0 <= q < r ==> #[trigger] pos@[q] == runs@[q]@.len(),
            decreases runs.len() - r,
        {
            if pos[r] < runs[r].len() {
                if m == runs.len() {
                    proof {
                        lemma_line_cmp_flip(
                            *oc,
                            head_at(runs@, pos@, r as int),
                            head_at(runs@, pos@, r as int),
                        );
                        assert forall|q: int|
                            0 <= q < r + 1 && #[trigger] pos@[q] < runs@[q]@.len() implies
                            line_cmp(
                            *oc,
                            head_at(runs@, pos@, r as int),
                            head_at(runs@, pos@, q),
                        ) != Ord3::Gt by {
                            if q < r {
                                assert(pos@[q] == runs@[q]@.len());
                            }
                        }
                    }
                    m = r;
                } else {
                    let c = compare_tagged(oc, &runs[r][pos[r]], &runs[m][pos[m]]);
                    let ghost hr = head_at(runs@, pos@, r as int);
                    let ghost hm = head_at(runs@, pos@, m as int);
                    if matches!(c, Ord3::Lt) {
                        proof {
                            lemma_line_cmp_flip(*oc, hr, hr);
                            assert forall|q: int|
                                0 <= q < r + 1 && #[trigger] pos@[q] < runs@[q]@.len() implies
                                line_cmp(*oc, hr, head_at(runs@, pos@, q)) != Ord3::Gt by {
                                if q < r {
                                    let hq = head_at(runs@, pos@, q);
                                    if line_cmp(*oc, hm, hq) == Ord3::Eq {
                                        lemma_line_cmp_eq(*oc, hm, hq);
                                    } else {
                                        lemma_line_cmp_lt_trans(*oc, hr, hm, hq);
                                    }
                                }
                            }
                        }
                        m = r;
                    } else {
                        proof {
                            lemma_line_cmp_flip(*oc, hm, hr);
                        }
                    }
                }
            }
            r = r + 1;
        }
        if m == runs.len() {
            proof {
                assert forall|q: int| 0 <= q < runs@.len() implies rem_views(runs@, pos@)[q].len()
                    == 0 by {
                    assert(pos@[q] == runs@[q]@.len());
                }
                lemma_concat_all_empty(rem_views(runs@, pos@));
            }
            done = true;
        } else {
            let ghost rv = rem_views(runs@, pos@);
            let ghost x = head_at(runs@, pos@, m as int);
            let ghost old_out = tagged_view(out@);
            let ghost old_pos = pos@;
            let elem = TaggedLine {
                text: runs[m][pos[m]].text.clone(),
                ord: runs[m][pos[m]].ord,
            };
            proof {
                assert(elem@ =~= x);
            }
            out.push(elem);
            proof {
                assert(pos@[m as int] < runs@[m as int]@.len());
            }
            let pm = pos[m];
            let rl = runs[m].len();
            proof {
                assert(pm < rl);
            }
            pos[m] = pm + 1;
            proof {
                broadcast use vstd::seq_lib::group_to_multiset_ensures;
                broadcast use vstd::multiset::group_multiset_axioms;

                lemma_line_le_total(*oc);
                assert(rv[m as int][0] == x);
                assert(rv[m as int].len() > 0);
                assert forall|q: int| 0 <= q < runs@.len() implies rem_views(runs@, pos@)[q]
                    == rv.update(m as int, rv[m as int].drop_first())[q] by {
                    if q == m {
                        assert(tagged_view(runs@[q]@).skip(pos@[q] as int) =~= rv[
                            q].drop_first());
                    } else {
                        assert(pos@[q] == old_pos[q]);
                    }
                }
                assert(rem_views(runs@, pos@) =~= rv.update(
                    m as int,
                    rv[m as int].drop_first(),
                ));
                lemma_concat_advance(rv, m as int);
                assert(tagged_view(out@) =~= old_out.push(x));
                assert(tagged_view(out@).to_multiset().add(
                    concat_all(rem_views(runs@, pos@)).to_multiset(),
                ) =~= old_out.to_multiset().add(concat_all(rv).to_multiset()));
                assert forall|oi: int, j: int|
                    0 <= oi < out@.len() && 0 <= j < out@.len() && oi < j implies #[trigger] leq(
                    tagged_view(out@)[oi],
                    tagged_view(out@)[j],
                ) by {
                    if j < out@.len() - 1 {
                        assert(leq(old_out[oi], old_out[j]));
                    } else {
                        assert(leq(old_out[oi], tagged_view(runs@[m as int]@)[old_pos[
                            m as int] as int]));
                    }
                }
                assert forall|oi: int, r2: int, j: int|
                    0 <= oi < out@.len() && 0 <= r2 < runs@.len() && pos@[r2] <= j < runs@[
                    r2]@.len() implies #[trigger] leq(
                    tagged_view(out@)[oi],
                    tagged_view(runs@[r2]@)[j],
                ) by {
                    let y = tagged_view(runs@[r2]@)[j];
                    if oi < out@.len() - 1 {
                        assert(old_pos[r2] <= j);
                        assert(leq(old_out[oi], y));
                    } else {
                        if r2 == m {
                            assert(leq(x, y));
                        } else {
                            let hq = head_at(runs@, old_pos, r2);
                            assert(old_pos[r2] < runs@[r2]@.len());
                            assert(line_cmp(*oc, x, hq) != Ord3::Gt);
                            assert(leq(x, hq));
                            assert(leq(hq, y));
                            assert(leq(x, y));
                        }
                    }
                }
            }
        }
    }
    proof {
        broadcast use vstd::multiset::group_multiset_axioms;

        let fin = concat_all(rem_views(runs@, pos@));
        assert(fin =~= Seq::<LineV>::empty());
        lemma_empty_line_multiset(fin);
        assert(tagged_view(out@).to_multiset() =~= total);
    }
    out
}

/// Tags every line with its ordinal position.
fn tag_lines(lines: &Vec<Vec<u8>>) -> (out: Vec<TaggedLine>)
    ensures
        tagged_view(out@) == tag_seq(texts_view(lines@)),
{
    let mut out: Vec<TaggedLine> = Vec::new();
    let mut i: usize = 0;
    proof {
        assert(tagged_view(out@) =~= tag_seq(texts_view(lines@)).take(0));
    }
    while i < lines.len()
        invariant
            i <= lines.len(),
            out@.len() == i,
            tagged_view(out@) == tag_seq(texts_view(lines@)).take(i as int),
        decreases lines.len() - i,
    {
        let ghost prev = out@;
        let t = lines[i].clone();
        let ghost tv = t@;
        proof {
            assert(tv =~= lines@[i as int]@);
        }
        out.push(TaggedLine { text: t, ord: i });
        i = i + 1;
        proof {
            let goal = tag_seq(texts_view(lines@)).take(i as int);
            assert forall|q: int| 0 <= q < i implies tagged_view(out@)[q] == goal[q] by {
                if q == i - 1 {
                    assert(goal[q].text == lines@[q]@);
                    assert(tagged_view(out@)[q] =~= goal[q]);
                } else {
                    assert(out@[q] == prev[q]);
                    assert(tagged_view(out@)[q] == tagged_view(prev)[q]);
                }
            }
            assert(tagged_view(out@) =~= goal);
        }
    }
    proof {
        assert(tag_seq(texts_view(lines@)).take(lines@.len() as int) =~= tag_seq(
            texts_view(lines@),
        ));
    }
    out
}

/// Sorts one in-memory batch with the engine's comparator by repeatedly
/// extracting the least remaining line.
fn sort_batch(oc: &OrdCfg, batch: Vec<TaggedLine>) -> (out: Vec<TaggedLine>)
    ensures
        sorted_by(tagged_view(out@), line_le(*oc)),
        tagged_view(out@).to_multiset() == tagged_view(batch@).to_multiset(),
{
    let ghost leq = line_le(*oc);
    let ghost total = tagged_view(batch@).to_multiset();
    let mut rem = batch;
    let mut out: Vec<TaggedLine> = Vec::new();
    proof {
        broadcast use vstd::multiset::group_multiset_axioms;

        assert(tagged_view(out@) =~= Seq::<LineV>::empty());
        lemma_empty_line_multiset(tagged_view(out@));
        assert(tagged_view(out@).to_multiset().add(tagged_view(rem@).to_multiset())
            =~= total);
    }
    while rem.len() > 0
        invariant
            leq == line_le(*oc),
            sorted_by(tagged_view(out@), leq),
            tagged_view(out@).to_multiset().add(tagged_view(rem@).to_multiset()) == total,
            forall|i: int, j: int|
                0 <= i < out@.len() && 0 <= j < rem@.len() ==> #[trigger] leq(
                    tagged_view(out@)[i],
                    tagged_view(rem@)[j],
                ),
        decreases rem.len(),
    {
        let ghost rv = tagged_view(rem@);
        proof {
            lemma_line_cmp_flip(*oc, rv[0], rv[0]);
        }
        let mut m: usize = 0;
        let mut k: usize = 1;
        while k < rem.len()
            invariant
                m < k <= rem.len(),
                rem.len() > 0,
                rv == tagged_view(rem@),
                forall|q: int| 0 <= q < k ==> line_cmp(*oc, rv[m as int], #[trigger] rv[q])
                    != Ord3::Gt,
            decreases rem.len() - k,
        {
            let c = compare_tagged(oc, &rem[k], &rem[m]);
            if matches!(c, Ord3::Lt) {
                proof {
                    let om = m as int;
                    assert forall|q: int| 0 <= q < k + 1 implies line_cmp(
                        *oc,
                        rv[k as int],
                        #[trigger] rv[q],
                    ) != Ord3::Gt by {
                        if q < k {
                            if line_cmp(*oc, rv[om], rv[q]) == Ord3::Eq {
                                lemma_line_cmp_eq(*oc, rv[om], rv[q]);
                            } else {
                                lemma_line_cmp_lt_trans(*oc, rv[k as int], rv[om], rv[q]);
                            }
                        } else {
                            lemma_line_cmp_flip(*oc, rv[k as int], rv[k as int]);
                        }
                    }
                }
                m = k;
            } else {
                proof {
                    lemma_line_cmp_flip(*oc, rv[m as int], rv[k as int]);
                }
            }
            k = k + 1;
        }
        proof {
            lemma_line_cmp_flip(*oc, rv[m as int], rv[m as int]);
        }
        let ghost old_out = tagged_view(out@);
        let x = rem.remove(m);
        out.push(x);
        proof {
            broadcast use vstd::seq_lib::group_to_multiset_ensures;
            broadcast use vstd::multiset::group_multiset_axioms;

            assert(tagged_view(rem@) =~= rv.remove(m as int));
            assert(tagged_view(out@) =~= old_out.push(rv[m as int]));
            assert(rv.to_multiset().contains(rv[m as int])) by {
                assert(rv[m as int] == rv[m as int]);
            }
            assert(tagged_view(out@).to_multiset().add(tagged_view(rem@).to_multiset())
                =~= old_out.to_multiset().add(rv.to_multiset()));
            assert forall|i: int, j: int|
                0 <= i < out@.len() && 0 <= j < rem@.len() implies #[trigger] leq(
                tagged_view(out@)[i],
                tagged_view(rem@)[j],
            ) by {
                let nj = if j < m { j } else { j + 1 };
                assert(tagged_view(rem@)[j] == rv[nj]);
                if i < out@.len() - 1 {
                    assert(leq(old_out[i], rv[nj]));
                } else {
                    assert(line_cmp(*oc, rv[m as int], rv[nj]) != Ord3::Gt);
                }
            }
            assert forall|i: int, j: int|
                0 <= i < j < out@.len() implies #[trigger] leq(
                tagged_view(out@)[i],
                tagged_view(out@)[j],
            ) by {
                if j < out@.len() - 1 {
                    assert(leq(old_out[i], old_out[j]));
                } else {
                    assert(leq(old_out[i], rv[m as int]));
                }
            }
        }
    }
    proof {
        broadcast use vstd::multiset::group_multiset_axioms;

        assert(tagged_view(rem@) =~= Seq::<LineV>::empty());
        lemma_empty_line_multiset(tagged_view(rem@));
        assert(tagged_view(out@).to_multiset() =~= total);
    }
    out
}

/// Recovers the byte strings of a sorted tagged sequence.
fn untag_lines(v: &Vec<TaggedLine>) -> (out: Vec<Vec<u8>>)
    ensures
        texts_view(out@) == untag(tagged_view(v@)),
{
    let mut out: Vec<Vec<u8>> = Vec::new();
    let mut i: usize = 0;
    proof {
        assert(texts_view(out@) =~= untag(tagged_view(v@)).take(0));
    }
    while i < v.len()
        invariant
            i <= v.len(),
            out@.len() == i,
            texts_view(out@) == untag(tagged_view(v@)).take(i as int),
        decreases v.len() - i,
    {
        let t = v[i].text.clone();
        proof {
            assert(t@ =~= v@[i as int].text@);
        }
        out.push(t);
        i = i + 1;
        proof {
            assert(texts_view(out@) =~= untag(tagged_view(v@)).take(i as int));
        }
    }
    proof {
        assert(untag(tagged_view(v@)).take(v@.len() as int) =~= untag(tagged_view(v@)));
    }
    out
}

/// Consumes the tagged input in bounded batches, sorts each batch in
/// memory, and emits each as one sorted run.
#[verifier::loop_isolation(false)]
fn build_runs(oc: &OrdCfg, tagged: Vec<TaggedLine>, batch_size: usize) -> (runs: Vec<
    Vec<TaggedLine>,
>)
    requires
        batch_size >= 1,
    ensures
        forall|r: int|
            0 <= r < runs@.len() ==> sorted_by(tagged_view(#[trigger] runs@[r]@), line_le(*oc)),
        concat_all(runs_view(runs@)).to_multiset() == tagged_view(tagged@).to_multiset(),
{
    let ghost leq = line_le(*oc);
    let ghost total = tagged_view(tagged@).to_multiset();
    let mut rem = tagged;
    let mut runs: Vec<Vec<TaggedLine>> = Vec::new();
    proof {
        broadcast use vstd::multiset::group_multiset_axioms;

        assert(runs_view(runs@) =~= Seq::<Seq<LineV>>::empty());
        lemma_empty_line_multiset(concat_all(runs_view(runs@)));
        assert(concat_all(runs_view(runs@)).to_multiset().add(
            tagged_view(rem@).to_multiset(),
        ) =~= total);
    }
    while rem.len() > 0
        invariant
            concat_all(runs_view(runs@)).to_multiset().add(tagged_view(rem@).to_multiset())
                == total,
            forall|r: int|
                0 <= r < runs@.len() ==> sorted_by(
                    tagged_view(#[trigger] runs@[r]@),
                    line_le(*oc),
                ),
        decreases rem@.len(),
    {
        let ghost entry_rem = rem@.len() as int;
        let mut batch: Vec<TaggedLine> = Vec::new();
        let mut g: usize = 0;
        proof {
            broadcast use vstd::multiset::group_multiset_axioms;

            lemma_empty_line_multiset(tagged_view(batch@));
        }
        while g < batch_size && rem.len() > 0
            invariant
                g <= batch_size,
                rem@.len() == entry_rem - g,
                concat_all(runs_view(runs@)).to_multiset().add(
                    tagged_view(batch@).to_multiset(),
                ).add(tagged_view(rem@).to_multiset()) == total,
            decreases batch_size - g,
        {
            let ghost old_rem = tagged_view(rem@);
            let ghost old_batch = tagged_view(batch@);
            let x = rem.pop().unwrap();
            batch.push(x);
            g = g + 1;
            proof {
                broadcast use vstd::seq_lib::group_to_multiset_ensures;
                broadcast use vstd::multiset::group_multiset_axioms;

                assert(tagged_view(rem@) =~= old_rem.remove(old_rem.len() - 1));
                assert(tagged_view(batch@) =~= old_batch.push(old_rem[old_rem.len() - 1]));
                assert(concat_all(runs_view(runs@)).to_multiset().add(
                    tagged_view(batch@).to_multiset(),
                ).add(tagged_view(rem@).to_multiset()) =~= concat_all(
                    runs_view(runs@),
                ).to_multiset().add(old_batch.to_multiset()).add(old_rem.to_multiset()));
            }
        }
        let ghost old_runs_v = runs_view(runs@);
        let run = sort_batch(oc, batch);
        runs.push(run);
        proof {
            broadcast use vstd::multiset::group_multiset_axioms;

            assert(runs_view(runs@) =~= old_runs_v.push(tagged_view(runs@.last()@)));
            lemma_concat_all_split_last(runs_view(runs@));
            assert(runs_view(runs@).drop_last() =~= old_runs_v);
            lemma_multiset_commutative(
                concat_all(old_runs_v),
                tagged_view(runs@.last()@),
            );
            assert(concat_all(runs_view(runs@)).to_multiset().add(
                tagged_view(rem@).to_multiset(),
            ) =~= total);
        }
    }
    proof {
        broadcast use vstd::multiset::group_multiset_axioms;

        assert(tagged_view(rem@) =~= Seq::<LineV>::empty());
        lemma_empty_line_multiset(tagged_view(rem@));
        assert(concat_all(runs_view(runs@)).to_multiset() =~= total);
    }
    runs
}

/// Reduces a family of sorted runs to a single sorted run, merging at
/// most a batch of runs per pass so that no pass holds more than a batch
/// of open runs.  A batch of one cannot make progress, so at least two
/// runs are merged per group.
#[verifier::loop_isolation(false)]
#[verifier::rlimit(60)]
pub fn merge_runs(oc: &OrdCfg, runs: Vec<Vec<TaggedLine>>, batch_size: usize) -> (out: Vec<
    TaggedLine,
>)
    requires
        batch_size >= 1,
        forall|r: int|
            0 <= r < runs@.len() ==> sorted_by(tagged_view(#[trigger] runs@[r]@), line_le(*oc)),
    ensures
        sorted_by(tagged_view(out@), line_le(*oc)),
        tagged_view(out@).to_multiset() == concat_all(runs_view(runs@)).to_multiset(),
{
    let ghost leq = line_le(*oc);
    let ghost total = concat_all(runs_view(runs@)).to_multiset();
    let mut cur = runs;
    if cur.len() == 0 {
        let out: Vec<TaggedLine> = Vec::new();
        proof {
            broadcast use vstd::multiset::group_multiset_axioms;

            assert(tagged_view(out@) =~= Seq::<LineV>::empty());
            lemma_empty_line_multiset(tagged_view(out@));
            lemma_empty_line_multiset(concat_all(runs_view(cur@)));
            assert(tagged_view(out@).to_multiset() =~= total);
        }
        return out;
    }
    let group: usize = if batch_size < 2 {
        2
    } else {
        batch_size
    };
    while cur.len() > 1
        invariant
            group >= 2,
            cur@.len() >= 1,
            concat_all(runs_view(cur@)).to_multiset() == total,
            forall|r: int|
                0 <= r < cur@.len() ==> sorted_by(tagged_view(#[trigger] cur@[r]@), line_le(*oc)),
        decreases cur@.len(),
    {
        let ghost start_len = cur@.len() as int;
        let mut next: Vec<Vec<TaggedLine>> = Vec::new();
        proof {
            broadcast use vstd::multiset::group_multiset_axioms;

            assert(runs_view(next@) =~= Seq::<Seq<LineV>>::empty());
            lemma_empty_line_multiset(concat_all(runs_view(next@)));
        }
        while cur.len() > 0
            invariant
                concat_all(runs_view(next@)).to_multiset().add(
                    concat_all(runs_view(cur@)).to_multiset(),
                ) == total,
                forall|r: int|
                    0 <= r < next@.len() ==> sorted_by(
                        tagged_view(#[trigger] next@[r]@),
                        line_le(*oc),
                    ),
                forall|r: int|
                    0 <= r < cur@.len() ==> sorted_by(
                        tagged_view(#[trigger] cur@[r]@),
                        line_le(*oc),
                    ),
                (next@.len() == 0 && cur@.len() == start_len) || (next@.len() >= 1 && next@.len()
                    + cur@.len() <= start_len - 1),
            decreases cur@.len(),
        {
            let ghost entry_cur = cur@.len() as int;
            let mut grp: Vec<Vec<TaggedLine>> = Vec::new();
            let mut g: usize = 0;
            proof {
                broadcast use vstd::multiset::group_multiset_axioms;

                assert(runs_view(grp@) =~= Seq::<Seq<LineV>>::empty());
                lemma_empty_line_multiset(concat_all(runs_view(grp@)));
            }
            while g < group && cur.len() > 0
                invariant
                    g == grp@.len(),
                    g <= group,
                    grp@.len() + cur@.len() == entry_cur,
                    concat_all(runs_view(next@)).to_multiset().add(
                        concat_all(runs_view(grp@)).to_multiset(),
                    ).add(concat_all(runs_view(cur@)).to_multiset()) == total,
                    forall|r: int|
                        0 <= r < grp@.len() ==> sorted_by(
                            tagged_view(#[trigger] grp@[r]@),
                            line_le(*oc),
                        ),
                    forall|r: int|
                        0 <= r < cur@.len() ==> sorted_by(
                            tagged_view(#[trigger] cur@[r]@),
                            line_le(*oc),
                        ),
                decreases group - g,
            {
                let ghost old_cur_v = runs_view(cur@);
                let ghost old_grp_v = runs_view(grp@);
                let r = cur.pop().unwrap();
                grp.push(r);
                g = g + 1;
                proof {
                    broadcast use vstd::multiset::group_multiset_axioms;

                    lemma_concat_all_split_last(old_cur_v);
                    assert(runs_view(cur@) =~= old_cur_v.drop_last());
                    assert(runs_view(grp@) =~= old_grp_v.push(old_cur_v.last()));
                    lemma_concat_all_split_last(runs_view(grp@));
                    assert(runs_view(grp@).drop_last() =~= old_grp_v);
                    lemma_multiset_commutative(
                        concat_all(old_cur_v.drop_last()),
                        old_cur_v.last(),
                    );
                    lemma_multiset_commutative(concat_all(old_grp_v), old_cur_v.last());
                }
            }
            let merged = merge_group(oc, &grp);
            let ghost old_next_v = runs_view(next@);
            next.push(merged);
            proof {
                broadcast use vstd::multiset::group_multiset_axioms;

                assert(runs_view(next@) =~= old_next_v.push(tagged_view(next@.last()@)));
                lemma_concat_all_split_last(runs_view(next@));
                assert(runs_view(next@).drop_last() =~= old_next_v);
                lemma_multiset_commutative(
                    concat_all(old_next_v),
                    tagged_view(next@.last()@),
                );
            }
        }
        cur = next;
    }
    proof {
        assert(cur@.len() == 1);
    }
    let mut cur2 = cur;
    let out = cur2.pop().unwrap();
    proof {
        broadcast use vstd::multiset::group_multiset_axioms;

        let cv = runs_view(cur2@);
        assert(concat_all(runs_view(cur@)) == runs_view(cur@)[0] + concat_all(
            runs_view(cur@).drop_first(),
        ));
        assert(runs_view(cur@).drop_first() =~= Seq::<Seq<LineV>>::empty());
        lemma_empty_line_multiset(concat_all(runs_view(cur@).drop_first()));
        lemma_multiset_commutative(
            runs_view(cur@)[0],
            concat_all(runs_view(cur@).drop_first()),
        );
        assert(tagged_view(out@).to_multiset() =~= total);
    }
    out
}

/// Sorts a sequence of lines with the configured comparator: the run
/// builder cuts the input into bounded sorted batches and the merge
/// engine reduces them to the unique sorted permutation.
pub fn sort_lines(lines: &Vec<Vec<u8>>, cfg: &crate::config::SortConfig) -> (out: Vec<Vec<u8>>)
    requires
        cfg.batch_size >= 1,
    ensures
        texts_view(out@) == spec_sorted_texts(
            crate::config::spec_ord_cfg(*cfg),
            texts_view(lines@),
        ),
{
    let oc = cfg.ord_cfg();
    let tagged = tag_lines(lines);
    let runs = build_runs(&oc, tagged, cfg.batch_size);
    let merged = merge_runs(&oc, runs, cfg.batch_size);
    proof {
        lemma_line_le_total(oc);
        tag_seq(texts_view(lines@)).lemma_sort_by_ensures(line_le(oc));
        lemma_sorted_unique(
            tagged_view(merged@),
            spec_sort_tagged(oc, texts_view(lines@)),
            line_le(oc),
        );
    }
    untag_lines(&merged)
}

/// The per-file line contents of a list of input files.
pub open spec fn files_texts(fs: Seq<Vec<Vec<u8>>>) -> Seq<Seq<Seq<u8>>> {
    fs.map_values(|f: Vec<Vec<u8>>| texts_view(f@))
}

/// A run whose contents are ordered by the configured comparator and
/// whose tags ascend from a base position is sorted in the engine's
/// order.
proof fn lemma_run_sorted(oc: OrdCfg, ts: Seq<Seq<u8>>, tg: Seq<LineV>, base: int)
    requires
        base >= 0,
        sorted_by(ts, crate::lines::text_le(oc)),
        tg.len() == ts.len(),
        forall|q: int|
            0 <= q < tg.len() ==> #[trigger] tg[q] == (LineV {
                text: ts[q],
                ord: (base + q) as nat,
            }),
    ensures
        sorted_by(tg, line_le(oc)),
{
    let leq = line_le(oc);
    assert forall|i: int, j: int| 0 <= i < j < tg.len() implies #[trigger] leq(tg[i], tg[j]) by {
        assert(crate::lines::text_le(oc)(ts[i], ts[j]));
    }
}

/// Merge-only mode: treats every input file as one pre-sorted run and
/// merges them all, bounding the runs open per pass by the batch size;
/// equal lines keep the order in which their files were given.
#[verifier::loop_isolation(false)]
pub fn merge_files(files: &Vec<Vec<Vec<u8>>>, cfg: &crate::config::SortConfig) -> (out: Vec<
    Vec<u8>,
>)
    requires
        cfg.batch_size >= 1,
        forall|f: int|
            0 <= f < files@.len() ==> sorted_by(
                texts_view((#[trigger] files@[f])@),
                crate::lines::text_le(crate::config::spec_ord_cfg(*cfg)),
            ),
    ensures
        texts_view(out@) == spec_sorted_texts(
            crate::config::spec_ord_cfg(*cfg),
            concat_all(files_texts(files@)),
        ),
{
    let oc = cfg.ord_cfg();
    let mut flat: Vec<Vec<u8>> = Vec::new();
    let mut runs: Vec<Vec<TaggedLine>> = Vec::new();
    let mut f: usize = 0;
    proof {
        assert(texts_view(flat@) =~= concat_all(files_texts(files@).take(0)));
        assert(runs_view(runs@) =~= Seq::<Seq<LineV>>::empty());
        assert(concat_all(runs_view(runs@)) =~= tag_seq(texts_view(flat@)));
    }
    while f < files.len()
        invariant
            f <= files.len(),
            texts_view(flat@) == concat_all(files_texts(files@).take(f as int)),
            concat_all(runs_view(runs@)) == tag_seq(texts_view(flat@)),
            forall|r: int|
                0 <= r < runs@.len() ==> sorted_by(
                    tagged_view(#[trigger] runs@[r]@),
                    line_le(oc),
                ),
        decreases files.len() - f,
    {
        let ghost old_flat_texts = texts_view(flat@);
        let base = flat.len();
        let mut run: Vec<TaggedLine> = Vec::new();
        let mut i: usize = 0;
        while i < files[f].len()
            invariant
                i <= files@[f as int]@.len(),
                flat@.len() == base + i,
                run@.len() == i,
                texts_view(flat@) == old_flat_texts + texts_view(files@[f as int]@).take(
                    i as int,
                ),
                forall|q: int|
                    0 <= q < i ==> #[trigger] tagged_view(run@)[q] == (LineV {
                        text: texts_view(files@[f as int]@)[q],
                        ord: (base + q) as nat,
                    }),
            decreases files@[f as int]@.len() - i,
        {
            let t = files[f][i].clone();
            let t2 = files[f][i].clone();
            let ghost prev_flat = flat@;
            let ghost prev_run = run@;
            let o = flat.len();
            flat.push(t);
            run.push(TaggedLine { text: t2, ord: o });
            i = i + 1;
            proof {
                assert(flat@[flat@.len() - 1]@ =~= files@[f as int]@[i - 1]@);
                assert(run@[run@.len() - 1].text@ =~= files@[f as int]@[i - 1]@);
                assert forall|q: int| 0 <= q < flat@.len() implies texts_view(flat@)[q]
                    == (old_flat_texts + texts_view(files@[f as int]@).take(i as int))[q] by {
                    if q < flat@.len() - 1 {
                        assert(flat@[q] == prev_flat[q]);
                        assert(texts_view(prev_flat)[q] == (old_flat_texts + texts_view(
                            files@[f as int]@,
                        ).take(i - 1))[q]);
                    }
                }
                assert(texts_view(flat@) =~= old_flat_texts + texts_view(
                    files@[f as int]@,
                ).take(i as int));
                assert forall|q: int| 0 <= q < i implies #[trigger] tagged_view(run@)[q]
                    == (LineV {
                    text: texts_view(files@[f as int]@)[q],
                    ord: (base + q) as nat,
                }) by {
                    if q < i - 1 {
                        assert(run@[q] == prev_run[q]);
                        assert(tagged_view(prev_run)[q] == (LineV {
                            text: texts_view(files@[f as int]@)[q],
                            ord: (base + q) as nat,
                        }));
                    } else {
                        assert(tagged_view(run@)[q] =~= (LineV {
                            text: texts_view(files@[f as int]@)[q],
                            ord: (base + q) as nat,
                        }));
                    }
                }
            }
        }
        proof {
            assert(texts_view(files@[f as int]@).take(i as int) =~= texts_view(
                files@[f as int]@,
            ));
            lemma_run_sorted(
                oc,
                texts_view(files@[f as int]@),
                tagged_view(run@),
                base as int,
            );
        }
        let ghost old_runs_v = runs_view(runs@);
        let ghost run_v = tagged_view(run@);
        runs.push(run);
        f = f + 1;
        proof {
            assert(runs_view(runs@) =~= old_runs_v.push(run_v));
            lemma_concat_all_split_last(runs_view(runs@));
            assert(runs_view(runs@).drop_last() =~= old_runs_v);
            assert(files_texts(files@).take(f as int).drop_last() =~= files_texts(
                files@,
            ).take(f - 1));
            lemma_concat_all_split_last(files_texts(files@).take(f as int));
            assert(files_texts(files@).take(f as int).last() == texts_view(
                files@[f - 1]@,
            ));
            assert(texts_view(flat@) =~= concat_all(files_texts(files@).take(f as int)));
            assert forall|q: int| 0 <= q < tag_seq(texts_view(flat@)).len() implies
                #[trigger] tag_seq(texts_view(flat@))[q] == concat_all(runs_view(runs@))[q] by {
                if q < base {
                    assert(concat_all(runs_view(runs@))[q] == concat_all(old_runs_v)[q]);
                    assert(tag_seq(old_flat_texts)[q] == concat_all(old_runs_v)[q]);
                    assert(tag_seq(texts_view(flat@))[q] =~= tag_seq(old_flat_texts)[q]);
                } else {
                    assert(concat_all(runs_view(runs@))[q] == run_v[q - base]);
                    assert(tag_seq(texts_view(flat@))[q] =~= run_v[q - base]);
                }
            }
            assert(concat_all(runs_view(runs@)) =~= tag_seq(texts_view(flat@)));
        }
    }
    proof {
        assert(files_texts(files@).take(files@.len() as int) =~= files_texts(files@));
    }
    let merged = merge_runs(&oc, runs, cfg.batch_size);
    proof {
        lemma_line_le_total(oc);
        tag_seq(texts_view(flat@)).lemma_sort_by_ensures(line_le(oc));
        lemma_sorted_unique(
            tagged_view(merged@),
            spec_sort_tagged(oc, texts_view(flat@)),
            line_le(oc),
        );
    }
    untag_lines(&merged)
}

} // verus!
