//! The mode dispatcher: validates the configuration and selects among
//! full sort, merge-only, and check-only behavior, converting order
//! violations into reported failures.

use vstd::prelude::*;
use vstd::relations::sorted_by;

use crate::compare::compare;
use crate::config::{spec_ord_cfg, OrdCfg, SortConfig, SortError};
use crate::engine::{concat_all, files_texts, merge_files, sort_lines, spec_sorted_texts, texts_view};
use crate::keys::{key_cmp, spec_key};
use crate::lines::text_le;
use crate::ordering::{flip_if, Ord3};

verus! {

/// The comparator check mode applies to adjacent lines: the configured
/// key order, inverted when `reverse` is set, with no tie-break.
pub open spec fn check_cmp(oc: OrdCfg, x: Seq<u8>, y: Seq<u8>) -> Ord3 {
    flip_if(oc.reverse, key_cmp(spec_key(oc, x), spec_key(oc, y)))
}

/// Whether the adjacent pair ending at position `i` violates check mode:
/// out of order always, an exact key tie when uniqueness is demanded.
pub open spec fn check_bad(oc: OrdCfg, unique: bool, lines: Seq<Seq<u8>>, i: int) -> bool {
    check_cmp(oc, lines[i - 1], lines[i]) == Ord3::Gt || (unique && check_cmp(
        oc,
        lines[i - 1],
        lines[i],
    ) == Ord3::Eq)
}

/// Whether a whole input stream passes check mode.
pub open spec fn check_ok(oc: OrdCfg, unique: bool, lines: Seq<Seq<u8>>) -> bool {
    forall|i: int| 1 <= i < lines.len() ==> !check_bad(oc, unique, lines, i)
}

/// Check mode: streams the input once, comparing each line to its
/// predecessor; the first out-of-order pair (or, with `unique`, the
/// first adjacent key tie) is reported with its one-based line number
/// and both lines, and nothing is reported otherwise.
pub fn check_lines(lines: &Vec<Vec<u8>>, cfg: &SortConfig) -> (r: Result<(), SortError>)
    ensures
        r is Ok <==> check_ok(spec_ord_cfg(*cfg), cfg.unique, texts_view(lines@)),
        r is Err ==> (match r->Err_0 {
            SortError::CheckFailure { line, prev, cur } => {
                &&& 2 <= line <= lines@.len()
                &&& check_bad(spec_ord_cfg(*cfg), cfg.unique, texts_view(lines@), line - 1)
                &&& forall|j: int|
                    1 <= j < line - 1 ==> !check_bad(
                        spec_ord_cfg(*cfg),
                        cfg.unique,
                        texts_view(lines@),
                        j,
                    )
                &&& prev@ == texts_view(lines@)[line - 2]
                &&& cur@ == texts_view(lines@)[line - 1]
            },
            _ => false,
        }),
{
    let oc = cfg.ord_cfg();
    let mut i: usize = 1;
    while i < lines.len()
        invariant
            1 <= i,
            i <= lines.len() || lines.len() == 0,
            oc == spec_ord_cfg(*cfg),
            forall|j: int|
                1 <= j < i && j < lines@.len() ==> !check_bad(
                    oc,
                    cfg.unique,
                    texts_view(lines@),
                    j,
                ),
        decreases lines.len() - i,
    {
        let c = compare(&oc, &lines[i - 1], &lines[i]);
        let bad = matches!(c, Ord3::Gt) || (cfg.unique && matches!(c, Ord3::Eq));
        if bad {
            let prev = lines[i - 1].clone();
            let cur = lines[i].clone();
            proof {
                assert(prev@ =~= texts_view(lines@)[i - 1]);
                assert(cur@ =~= texts_view(lines@)[i as int]);
                assert(check_bad(oc, cfg.unique, texts_view(lines@), i as int));
            }
            return Err(SortError::CheckFailure { line: i + 1, prev, cur });
        }
        i = i + 1;
    }
    Ok(())
}

/// Joins the lines of every input file into one stream, in file order.
pub fn concat_files(files: &Vec<Vec<Vec<u8>>>) -> (out: Vec<Vec<u8>>)
    ensures
        texts_view(out@) == concat_all(files_texts(files@)),
{
    let mut out: Vec<Vec<u8>> = Vec::new();
    let mut f: usize = 0;
    proof {
        assert(texts_view(out@) =~= concat_all(files_texts(files@).take(0)));
    }
    while f < files.len()
        invariant
            f <= files.len(),
            texts_view(out@) == concat_all(files_texts(files@).take(f as int)),
        decreases files.len() - f,
    {
        let ghost before = texts_view(out@);
        let mut i: usize = 0;
        while i < files[f].len()
            invariant
                i <= files@[f as int]@.len(),
                f < files@.len(),
                out@.len() == before.len() + i,
                texts_view(out@) == before + texts_view(files@[f as int]@).take(i as int),
            decreases files@[f as int]@.len() - i,
        {
            let ghost prev = out@;
            let t = files[f][i].clone();
            proof {
                assert(t@ =~= files@[f as int]@[i as int]@);
            }
            out.push(t);
            i = i + 1;
            proof {
                assert forall|q: int| 0 <= q < out@.len() implies texts_view(out@)[q] == (before
                    + texts_view(files@[f as int]@).take(i as int))[q] by {
                    if q < out@.len() - 1 {
                        assert(out@[q] == prev[q]);
                        assert(texts_view(prev)[q] == (before + texts_view(
                            files@[f as int]@,
                        ).take(i - 1))[q]);
                    }
                }
                assert(texts_view(out@) =~= before + texts_view(files@[f as int]@).take(
                    i as int,
                ));
            }
        }
        f = f + 1;
        proof {
            assert(texts_view(files@[f - 1]@).take(files@[f - 1]@.len() as int) =~= texts_view(
                files@[f - 1]@,
            ));
            crate::engine::lemma_concat_all_split_last(files_texts(files@).take(f as int));
            assert(files_texts(files@).take(f as int).drop_last() =~= files_texts(files@).take(
                f - 1,
            ));
            assert(texts_view(out@) =~= concat_all(files_texts(files@).take(f as int)));
        }
    }
    proof {
        assert(files_texts(files@).take(files@.len() as int) =~= files_texts(files@));
    }
    out
}

/// Runs the configured mode over the input files: rejects an invalid
/// option combination before any work, validates order in check mode
/// (producing no output), merges pre-sorted inputs in merge-only mode,
/// and otherwise sorts the concatenated input.  Ordering comes from the
/// built-in comparator; a configured external comparator is driven by
/// the caller through an `extcmp` session instead.
pub fn run(files: &Vec<Vec<Vec<u8>>>, cfg: &SortConfig) -> (r: Result<Vec<Vec<u8>>, SortError>)
    requires
        cfg.merge_only && cfg.spec_valid() ==> forall|f: int|
            0 <= f < files@.len() ==> sorted_by(
                texts_view((#[trigger] files@[f])@),
                text_le(spec_ord_cfg(*cfg)),
            ),
    ensures
        !cfg.spec_valid() ==> r is Err && r->Err_0 is ConfigError,
        cfg.spec_valid() && cfg.check ==> {
            &&& r is Ok <==> check_ok(
                spec_ord_cfg(*cfg),
                cfg.unique,
                concat_all(files_texts(files@)),
            )
            &&& r is Ok ==> r->Ok_0@.len() == 0
            &&& r is Err ==> (match r->Err_0 {
                SortError::CheckFailure { line, prev, cur } => {
                    let all = concat_all(files_texts(files@));
                    &&& 2 <= line <= all.len()
                    &&& check_bad(spec_ord_cfg(*cfg), cfg.unique, all, line - 1)
                    &&& forall|j: int|
                        1 <= j < line - 1 ==> !check_bad(spec_ord_cfg(*cfg), cfg.unique, all, j)
                    &&& prev@ == all[line - 2]
                    &&& cur@ == all[line - 1]
                },
                _ => false,
            })
        },
        cfg.spec_valid() && cfg.merge_only ==> r is Ok && texts_view(r->Ok_0@)
            == spec_sorted_texts(spec_ord_cfg(*cfg), concat_all(files_texts(files@))),
        cfg.spec_valid() && !cfg.check && !cfg.merge_only ==> r is Ok && texts_view(r->Ok_0@)
            == spec_sorted_texts(spec_ord_cfg(*cfg), concat_all(files_texts(files@))),
{
    match cfg.validate() {
        Err(e) => Err(e),
        Ok(()) => {
            if cfg.check {
                let lines = concat_files(files);
                match check_lines(&lines, cfg) {
                    Ok(()) => Ok(Vec::new()),
                    Err(e) => Err(e),
                }
            } else if cfg.merge_only {
                Ok(merge_files(files, cfg))
            } else {
                let lines = concat_files(files);
                Ok(sort_lines(&lines, cfg))
            }
        },
    }
}

} // verus!
