//! External key-comparator support.  The comparator itself is a separate
//! program that the caller invokes once per comparison; this module holds
//! the halves the library can vouch for: parsing the program's printed
//! reply into an ordering, a comparison-driven sort session whose every
//! step is pinned to the verdicts it is handed, and a comparison-driven
//! check session that reports the exact first violation.

use vstd::multiset::Multiset;
use vstd::prelude::*;
use vstd::seq_lib::lemma_multiset_commutative;

use crate::config::SortError;
use crate::engine::texts_view;
use crate::keys::{is_digit, prefix_len, trim};
use crate::ordering::Ord3;

verus! {

/// What a well-formed comparator reply denotes: an optional sign, then
/// at least one digit, surrounded by optional whitespace; the sign of
/// the number is the ordering.
pub open spec fn spec_parse_reply(out: Seq<u8>) -> Option<Ord3> {
    let t = trim(out);
    let body = if t.len() > 0 && (t[0] == 45 || t[0] == 43) {
        t.drop_first()
    } else {
        t
    };
    if body.len() > 0 && prefix_len(body, crate::keys::digit_pred()) == body.len() {
        if prefix_len(body, crate::keys::zero_pred()) == body.len() {
            Some(Ord3::Eq)
        } else if t[0] == 45 {
            Some(Ord3::Lt)
        } else {
            Some(Ord3::Gt)
        }
    } else {
        None
    }
}

/// Parses the bytes an external comparator printed: a single integer in
/// decimal, optionally signed and whitespace-padded, read by the usual
/// comparator convention.  Anything else is a fatal comparator error
/// carrying the offending reply.
#[verifier::loop_isolation(false)]
pub fn parse_reply(out: &Vec<u8>) -> (r: Result<Ord3, SortError>)
    ensures
        r is Ok <==> spec_parse_reply(out@) is Some,
        r is Ok ==> spec_parse_reply(out@) == Some(r->Ok_0),
        r is Err ==> (match r->Err_0 {
            SortError::ComparatorError(m) => m@ == out@,
            _ => false,
        }),
{
    let s = crate::compare::preprocess(
        out,
        &crate::config::OrdCfg {
            mode: crate::config::KeyMode::Plain,
            ignore_blanks: true,
            ignore_case: false,
            reverse: false,
            stable: false,
        },
    );
    proof {
        assert(s@ == trim(out@));
    }
    let (start, neg) = if s.len() > 0 && (s[0] == 45 || s[0] == 43) {
        (1usize, s[0] == 45)
    } else {
        (0usize, false)
    };
    let ghost body = if start == 1 {
        s@.drop_first()
    } else {
        s@
    };
    proof {
        assert(body.len() == s@.len() - start);
        assert(forall|q: int| 0 <= q < body.len() ==> body[q] == s@[q + start]);
    }
    if s.len() == start {
        let m = out.clone();
        proof {
            assert(m@ =~= out@);
        }
        return Err(SortError::ComparatorError(m));
    }
    let mut k: usize = start;
    while k < s.len()
        invariant
            start <= k <= s@.len(),
            forall|q: int| 0 <= q < k - start ==> is_digit(#[trigger] body[q]),
        decreases s.len() - k,
    {
        let b = s[k];
        if !(48 <= b && b <= 57) {
            proof {
                assert(!is_digit(body[k - start]));
                if prefix_len(body, crate::keys::digit_pred()) == body.len() {
                    crate::keys::lemma_prefix_len_all(body, crate::keys::digit_pred());
                }
            }
            let m = out.clone();
            proof {
                assert(m@ =~= out@);
            }
            return Err(SortError::ComparatorError(m));
        }
        k = k + 1;
    }
    proof {
        lemma_prefix_full(body, crate::keys::digit_pred());
    }
    let mut z: usize = start;
    while z < s.len()
        invariant
            start <= z <= s@.len(),
            forall|q: int| 0 <= q < z - start ==> #[trigger] body[q] == 48,
        decreases s.len() - z,
    {
        if s[z] != 48 {
            proof {
                assert(body[z - start] != 48);
                if prefix_len(body, crate::keys::zero_pred()) == body.len() {
                    crate::keys::lemma_prefix_len_all(body, crate::keys::zero_pred());
                }
            }
            if neg {
                return Ok(Ord3::Lt);
            } else {
                return Ok(Ord3::Gt);
            }
        }
        z = z + 1;
    }
    proof {
        lemma_prefix_full(body, crate::keys::zero_pred());
    }
    Ok(Ord3::Eq)
}

/// A prefix that covers every byte has the string's length.
proof fn lemma_prefix_full(s: Seq<u8>, pred: spec_fn(u8) -> bool)
    requires
        forall|q: int| 0 <= q < s.len() ==> pred(s[q]),
    ensures
        prefix_len(s, pred) == s.len(),
{
    crate::keys::lemma_prefix_len_is(s, pred, s.len() as int);
}

/// A comparison-driven sort session: the caller repeatedly fetches the
/// next pending pair, obtains an ordering from the external comparator,
/// and hands it back; the session scans the unemitted lines, keeping the
/// least so far as the candidate, and emits the candidate each time a
/// scan completes.  Every step is pinned to the verdicts: a negative
/// verdict promotes the compared line to candidate, anything else keeps
/// the candidate, and the line emitted is always the scan's candidate.
pub struct ExtSortSession {
    /// Lines already emitted, in emission order.
    done: Vec<Vec<u8>>,
    /// Lines not yet emitted.
    rem: Vec<Vec<u8>>,
    /// Index of the current selection candidate among `rem`.
    best: usize,
    /// Index of the next line to compare against the candidate.
    k: usize,
}

impl ExtSortSession {
    /// The session never loses track of its scan.
    pub closed spec fn wf(&self) -> bool {
        &&& self.rem@.len() >= 1 ==> self.best < self.rem@.len()
        &&& self.rem@.len() >= 2 ==> (self.best < self.k && self.k <= self.rem@.len())
    }

    /// Every line the session holds, emitted or not.
    pub closed spec fn lines_ms(&self) -> Multiset<Seq<u8>> {
        (texts_view(self.done@) + texts_view(self.rem@)).to_multiset()
    }

    /// How many lines are not yet emitted.
    pub closed spec fn remaining(&self) -> nat {
        self.rem@.len()
    }

    /// Whether a comparison is pending.
    pub closed spec fn has_pending(&self) -> bool {
        self.rem@.len() >= 2 && self.k < self.rem@.len()
    }

    /// The emitted lines so far, in emission order.
    pub closed spec fn emitted(&self) -> Seq<Seq<u8>> {
        texts_view(self.done@)
    }

    /// The line the current scan holds as least so far.
    pub closed spec fn candidate_text(&self) -> Seq<u8> {
        self.rem@[self.best as int]@
    }

    /// The line the pending comparison weighs against the candidate.
    pub closed spec fn pending_text(&self) -> Seq<u8> {
        self.rem@[self.k as int]@
    }

    /// How far the current scan has advanced.
    pub closed spec fn scan_pos(&self) -> nat {
        self.k as nat
    }

    /// Starts a session over the given lines: nothing emitted, the first
    /// line the candidate, the scan about to weigh the second.
    pub fn new(lines: Vec<Vec<u8>>) -> (s: Self)
        ensures
            s.wf(),
            s.lines_ms() == texts_view(lines@).to_multiset(),
            s.remaining() == lines@.len(),
            s.emitted() == Seq::<Seq<u8>>::empty(),
            s.scan_pos() == 1,
            lines@.len() >= 1 ==> s.candidate_text() == lines@[0]@,
            s.has_pending() == (lines@.len() >= 2),
    {
        let ghost lv = texts_view(lines@);
        let s = ExtSortSession { done: Vec::new(), rem: lines, best: 0, k: 1 };
        proof {
            assert(texts_view(s.done@) =~= Seq::<Seq<u8>>::empty());
            assert(texts_view(s.done@) + texts_view(s.rem@) =~= lv);
        }
        s
    }

    /// The next comparison the session needs: copies of the pending line
    /// and the candidate, exactly in that order, or nothing once every
    /// line has been emitted.  A call first retires completed scans: each
    /// retirement emits the scan's candidate, so emission order is
    /// append-only and fully determined by the verdicts handed back.
    pub fn next_pair(&mut self) -> (r: Option<(Vec<u8>, Vec<u8>)>)
        requires
            old(self).wf(),
        ensures
            final(self).wf(),
            final(self).lines_ms() == old(self).lines_ms(),
            old(self).emitted().is_prefix_of(final(self).emitted()),
            old(self).has_pending() ==> *final(self) == *old(self),
            !old(self).has_pending() && old(self).remaining() >= 1
                ==> final(self).emitted().len() > old(self).emitted().len()
                && final(self).emitted()[old(self).emitted().len() as int]
                == old(self).candidate_text(),
            r is None <==> final(self).remaining() == 0,
            r is Some <==> final(self).remaining() >= 2,
            r is None ==> final(self).emitted().to_multiset() == old(self).lines_ms(),
            r is Some ==> final(self).has_pending()
                && r->Some_0.0@ == final(self).pending_text()
                && r->Some_0.1@ == final(self).candidate_text(),
    {
        loop
            invariant
                self.wf(),
                self.lines_ms() == old(self).lines_ms(),
                old(self).emitted().is_prefix_of(self.emitted()),
                old(self).has_pending() ==> *self == *old(self),
                !old(self).has_pending() && old(self).remaining() >= 1
                    ==> (*self == *old(self)) || (self.emitted().len() > old(
                    self).emitted().len() && self.emitted()[old(self).emitted().len() as int]
                    == old(self).candidate_text()),
            decreases self.rem@.len(), self.rem@.len() - self.k,
        {
            if self.rem.len() == 0 {
                proof {
                    assert(texts_view(self.rem@) =~= Seq::<Seq<u8>>::empty());
                    assert(texts_view(self.done@) + texts_view(self.rem@) =~= texts_view(
                        self.done@,
                    ));
                }
                return None;
            }
            if self.rem.len() == 1 {
                self.emit(0);
                self.best = 0;
                self.k = 1;
            } else if self.k == self.rem.len() {
                let b = self.best;
                self.emit(b);
                self.best = 0;
                self.k = 1;
            } else {
                return Some((self.rem[self.k].clone(), self.rem[self.best].clone()));
            }
        }
    }

    /// Moves one unemitted line to the end of the output.
    fn emit(&mut self, i: usize)
        requires
            i < old(self).rem@.len(),
        ensures
            final(self).lines_ms() == old(self).lines_ms(),
            final(self).rem@ == old(self).rem@.remove(i as int),
            final(self).emitted() == old(self).emitted().push(old(self).rem@[i as int]@),
            final(self).best == old(self).best,
            final(self).k == old(self).k,
    {
        let ghost od = texts_view(self.done@);
        let ghost orm = texts_view(self.rem@);
        let x = self.rem.remove(i);
        self.done.push(x);
        proof {
            broadcast use vstd::seq_lib::group_to_multiset_ensures;
            broadcast use vstd::multiset::group_multiset_axioms;

            assert(texts_view(self.rem@) =~= orm.remove(i as int));
            assert(texts_view(self.done@) =~= od.push(orm[i as int]));
            let whole_old = od + orm;
            let whole_new = texts_view(self.done@) + texts_view(self.rem@);
            assert(whole_old.to_multiset().contains(orm[i as int])) by {
                assert(whole_old[od.len() + i] == orm[i as int]);
                assert(whole_old.contains(orm[i as int]));
            }
            lemma_multiset_commutative(od, orm);
            lemma_multiset_commutative(texts_view(self.done@), texts_view(self.rem@));
            assert(orm.remove(i as int).to_multiset() == orm.to_multiset().remove(
                orm[i as int],
            ));
            assert(whole_new.to_multiset() =~= whole_old.to_multiset());
        }
    }

    /// Hands back the external comparator's verdict on the pending pair:
    /// a negative verdict makes the pending line the candidate, any other
    /// verdict keeps the candidate, and the scan advances one line either
    /// way; nothing is emitted and no line changes.
    pub fn reply(&mut self, verdict: Ord3)
        requires
            old(self).wf(),
            old(self).has_pending(),
        ensures
            final(self).wf(),
            final(self).lines_ms() == old(self).lines_ms(),
            final(self).remaining() == old(self).remaining(),
            final(self).emitted() == old(self).emitted(),
            final(self).scan_pos() == old(self).scan_pos() + 1,
            final(self).candidate_text() == (if verdict is Lt {
                old(self).pending_text()
            } else {
                old(self).candidate_text()
            }),
            final(self).has_pending() == (old(self).scan_pos() + 1 < old(self).remaining()),
    {
        if matches!(verdict, Ord3::Lt) {
            self.best = self.k;
        }
        let rl = self.rem.len();
        proof {
            assert(self.k < rl);
        }
        self.k = self.k + 1;
    }

    /// Ends the session, yielding the emitted lines in emission order.
    pub fn finish(self) -> (out: Vec<Vec<u8>>)
        requires
            self.remaining() == 0,
        ensures
            texts_view(out@) == self.emitted(),
            texts_view(out@).to_multiset() == self.lines_ms(),
    {
        proof {
            assert(texts_view(self.rem@) =~= Seq::<Seq<u8>>::empty());
            assert(texts_view(self.done@) + texts_view(self.rem@) =~= texts_view(self.done@));
        }
        self.done
    }
}

/// Check mode driven by an external comparator: the caller fetches each
/// adjacent pair, obtains the verdict, and hands it back.  A positive
/// verdict — or an equal one when uniqueness is demanded — is the exact
/// failure check mode reports, with the one-based line number and both
/// lines; any other verdict advances to the next pair.
pub struct ExtCheckSession {
    /// The lines under validation.
    lines: Vec<Vec<u8>>,
    /// The index of the line the next comparison ends at.
    at: usize,
    /// Whether an equal verdict is also a failure.
    unique: bool,
}

impl ExtCheckSession {
    /// The lines under validation.
    pub closed spec fn texts(&self) -> Seq<Seq<u8>> {
        texts_view(self.lines@)
    }

    /// The index of the line the next comparison ends at.
    pub closed spec fn position(&self) -> nat {
        self.at as nat
    }

    /// Whether an equal verdict is also a failure.
    pub closed spec fn wants_unique(&self) -> bool {
        self.unique
    }

    /// The scan always starts behind its position.
    pub closed spec fn wf(&self) -> bool {
        self.at >= 1
    }

    /// Starts a validation pass at the second line.
    pub fn new(lines: Vec<Vec<u8>>, unique: bool) -> (s: Self)
        ensures
            s.wf(),
            s.texts() == texts_view(lines@),
            s.position() == 1,
            s.wants_unique() == unique,
    {
        ExtCheckSession { lines, at: 1, unique }
    }

    /// The next adjacent pair to weigh, predecessor first, or nothing
    /// once every pair has passed.
    pub fn next_pair(&self) -> (r: Option<(Vec<u8>, Vec<u8>)>)
        requires
            self.wf(),
        ensures
            r is Some <==> self.position() < self.texts().len(),
            r is Some ==> r->Some_0.0@ == self.texts()[self.position() - 1]
                && r->Some_0.1@ == self.texts()[self.position() as int],
    {
        if self.at < self.lines.len() {
            let prev = self.lines[self.at - 1].clone();
            let cur = self.lines[self.at].clone();
            proof {
                assert(prev@ =~= self.texts()[self.position() - 1]);
                assert(cur@ =~= self.texts()[self.position() as int]);
            }
            Some((prev, cur))
        } else {
            None
        }
    }

    /// Hands back the external comparator's verdict on the pending pair:
    /// a failing verdict is reported as the exact check failure and the
    /// pass stops; a passing one moves to the next pair.
    pub fn reply(&mut self, verdict: Ord3) -> (r: Result<(), SortError>)
        requires
            old(self).wf(),
            old(self).position() < old(self).texts().len(),
        ensures
            final(self).wf(),
            final(self).texts() == old(self).texts(),
            final(self).wants_unique() == old(self).wants_unique(),
            r is Ok <==> !(verdict is Gt || (old(self).wants_unique() && verdict is Eq)),
            r is Ok ==> final(self).position() == old(self).position() + 1,
            r is Err ==> final(self).position() == old(self).position() && (match r->Err_0 {
                SortError::CheckFailure { line, prev, cur } => {
                    &&& line == old(self).position() + 1
                    &&& prev@ == old(self).texts()[old(self).position() - 1]
                    &&& cur@ == old(self).texts()[old(self).position() as int]
                },
                _ => false,
            }),
    {
        let bad = matches!(verdict, Ord3::Gt) || (self.unique && matches!(verdict, Ord3::Eq));
        let ll = self.lines.len();
        proof {
            assert(self.at < ll);
        }
        if bad {
            let prev = self.lines[self.at - 1].clone();
            let cur = self.lines[self.at].clone();
            proof {
                assert(prev@ =~= self.texts()[self.position() - 1]);
                assert(cur@ =~= self.texts()[self.position() as int]);
            }
            Err(SortError::CheckFailure { line: self.at + 1, prev, cur })
        } else {
            self.at = self.at + 1;
            Ok(())
        }
    }
}

} // verus!
