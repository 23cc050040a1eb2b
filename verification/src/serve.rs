//! The incremental merge and promotion layer: freshly extracted scores are
//! folded into the persisted score of the same candidate, the merged score is
//! persisted unconditionally, and the candidate joins or leaves the accepted
//! noun set by a fresh threshold evaluation on every batch.

use crate::score::{merged_score, spec_prob_at_least, Prob, Score, ScoreV};
use crate::store::{entries_to_map, lemma_entries_domain, lemma_entries_index, lemma_entries_push,
    lemma_entries_update, unique_keys};
use crate::strset::{str_views, StrSet};
use vstd::prelude::*;

verus! {

/// A threshold was rejected at the configuration boundary.
#[derive(Clone, Copy, PartialEq, Eq, Debug)]
pub enum ConfigError {
    /// The probability threshold is not a ratio in `[0, 1]` with a positive,
    /// bounded denominator.
    InvalidProbability,
}

/// The three independently configurable promotion thresholds.
#[derive(Clone, Copy, PartialEq, Eq, Debug)]
pub struct Thresholds {
    pub noun_probability: Prob,
    pub count: u32,
    pub unique_suffixes: u32,
}

/// Whether a merged score clears all three thresholds.
pub open spec fn meets(s: ScoreV, t: Thresholds) -> bool {
    spec_prob_at_least(s.noun_probability, t.noun_probability) && s.count >= t.count
        && s.unique_suffixes.len() >= t.unique_suffixes
}

/// The entry sequence of a score table, with keys and values abstracted.
pub open spec fn score_entries(s: Seq<(String, Score)>) -> Seq<(Seq<char>, ScoreV)> {
    s.map_values(|p: (String, Score)| (p.0@, p.1@))
}

/// The persisted candidate-to-score table.
pub struct ScoreTable {
    entries: Vec<(String, Score)>,
}

impl View for ScoreTable {
    type V = Map<Seq<char>, ScoreV>;

    closed spec fn view(&self) -> Map<Seq<char>, ScoreV> {
        entries_to_map(score_entries(self.entries@))
    }
}

impl ScoreTable {
    /// Well-formedness: distinct candidates, each with a well-formed score.
    pub closed spec fn inv(&self) -> bool {
        unique_keys(score_entries(self.entries@)) && (forall|i: int|
            0 <= i < self.entries@.len() ==> (#[trigger] self.entries@[i].1).inv())
    }

    /// An empty table.
    pub fn new() -> (r: ScoreTable)
        ensures
            r.inv(),
            r@ == Map::<Seq<char>, ScoreV>::empty(),
    {
        let r = ScoreTable { entries: Vec::new() };
        proof {
            assert(score_entries(r.entries@) =~= Seq::<(Seq<char>, ScoreV)>::empty());
        }
        r
    }

    fn find(&self, k: &String) -> (r: Option<usize>)
        ensures
            match r {
                Some(i) => i < self.entries@.len() && self.entries@[i as int].0@ == k@,
                None => forall|j: int| 0 <= j < self.entries@.len() ==> self.entries@[j].0@ != k@,
            },
    {
        let n = self.entries.len();
        let mut i: usize = 0;
        while i < n
            invariant
                i <= n,
                n == self.entries@.len(),
                forall|j: int| 0 <= j < i ==> self.entries@[j].0@ != k@,
            decreases n - i,
        {
            if self.entries[i].0.eq(k) {
                return Some(i);
            }
            i = i + 1;
        }
        None
    }

    /// The persisted score of a candidate, if any.
    pub fn get(&self, k: &String) -> (r: Option<&Score>)
        requires
            self.inv(),
        ensures
            match r {
                Some(s) => self@.contains_key(k@) && s@ == self@[k@] && s.inv(),
                None => !self@.contains_key(k@),
            },
    {
        let ghost evs = score_entries(self.entries@);
        match self.find(k) {
            Some(i) => {
                proof {
                    lemma_entries_index(evs, i as int);
                }
                Some(&self.entries[i].1)
            },
            None => {
                proof {
                    lemma_entries_domain(evs, k@);
                }
                None
            },
        }
    }

    /// Persists the score of a candidate, replacing any previous one.
    pub fn put(&mut self, k: String, v: Score)
        requires
            old(self).inv(),
            v.inv(),
        ensures
            final(self).inv(),
            final(self)@ == old(self)@.insert(k@, v@),
    {
        let ghost evs = score_entries(self.entries@);
        match self.find(&k) {
            Some(i) => {
                proof {
                    lemma_entries_update(evs, i as int, v@);
                }
                self.entries.set(i, (k, v));
                proof {
                    assert(score_entries(self.entries@) =~= evs.update(
                        i as int,
                        (evs[i as int].0, self.entries@[i as int].1@),
                    ));
                }
            },
            None => {
                proof {
                    lemma_entries_push(evs, k@, v@);
                }
                self.entries.push((k, v));
                proof {
                    assert(score_entries(self.entries@) =~= evs.push(
                        (self.entries@.last().0@, self.entries@.last().1@),
                    ));
                }
            },
        }
    }

    /// The persisted entries, for whole-table traversals such as snapshots.
    pub fn entries(&self) -> (r: &Vec<(String, Score)>)
        requires
            self.inv(),
        ensures
            entries_to_map(score_entries(r@)) == self@,
            unique_keys(score_entries(r@)),
            forall|i: int| 0 <= i < r@.len() ==> (#[trigger] r@[i].1).inv(),
    {
        &self.entries
    }
}

/// Everything the serving layer holds: the persisted score table, the
/// persisted accepted-noun set, and the promotion thresholds.
pub ghost struct ServeSnap {
    pub scores: Map<Seq<char>, ScoreV>,
    pub nouns: Set<Seq<char>>,
    pub thresholds: Thresholds,
}

/// The score that one batch entry contributes: the fresh score merged into
/// the previously persisted one, or the fresh score alone for a new
/// candidate.
pub open spec fn batch_entry_score(
    scores: Map<Seq<char>, ScoreV>,
    cand: Seq<char>,
    fresh: ScoreV,
) -> ScoreV {
    if scores.contains_key(cand) {
        merged_score(fresh, scores[cand])
    } else {
        fresh
    }
}

/// The serving state after one batch entry: the merged score is persisted
/// unconditionally, and membership in the accepted set is re-derived from
/// the thresholds alone.
pub open spec fn apply_candidate(s: ServeSnap, cand: Seq<char>, fresh: ScoreV) -> ServeSnap {
    let m = batch_entry_score(s.scores, cand, fresh);
    ServeSnap {
        scores: s.scores.insert(cand, m),
        nouns: if meets(m, s.thresholds) {
            s.nouns.insert(cand)
        } else {
            s.nouns.remove(cand)
        },
        thresholds: s.thresholds,
    }
}

/// The serving state after a whole batch, entries applied in order.
pub open spec fn apply_batch(s: ServeSnap, batch: Seq<(Seq<char>, ScoreV)>, i: int) -> ServeSnap
    decreases batch.len() - i,
{
    if i < 0 || i >= batch.len() {
        s
    } else {
        apply_batch(apply_candidate(s, batch[i].0, batch[i].1), batch, i + 1)
    }
}

/// How many batch entries clear the thresholds as they are applied.
pub open spec fn promote_count(s: ServeSnap, batch: Seq<(Seq<char>, ScoreV)>, i: int) -> int
    decreases batch.len() - i,
{
    if i < 0 || i >= batch.len() {
        0
    } else {
        (if meets(batch_entry_score(s.scores, batch[i].0, batch[i].1), s.thresholds) {
            1int
        } else {
            0int
        }) + promote_count(apply_candidate(s, batch[i].0, batch[i].1), batch, i + 1)
    }
}

/// The views of a batch of freshly extracted scores.
pub open spec fn batch_views(s: Seq<(String, Score)>) -> Seq<(Seq<char>, ScoreV)> {
    s.map_values(|p: (String, Score)| (p.0@, p.1@))
}

/// The serving layer. Its state is exclusively owned here; a concurrent host
/// guards the whole value behind one reader/writer lock.
pub struct State {
    noun_scores: ScoreTable,
    nouns: StrSet,
    thresholds: Thresholds,
}

impl View for State {
    type V = ServeSnap;

    closed spec fn view(&self) -> ServeSnap {
        ServeSnap { scores: self.noun_scores@, nouns: self.nouns@, thresholds: self.thresholds }
    }
}

impl State {
    /// Well-formedness of the two persisted tables and the thresholds.
    pub closed spec fn inv(&self) -> bool {
        self.noun_scores.inv() && self.nouns.inv() && self.thresholds.noun_probability.valid()
    }

    /// A serving layer with the given thresholds and nothing persisted yet.
    pub fn new(thresholds: Thresholds) -> (r: State)
        requires
            thresholds.noun_probability.valid(),
        ensures
            r.inv(),
            r@.scores == Map::<Seq<char>, ScoreV>::empty(),
            r@.nouns == Set::<Seq<char>>::empty(),
            r@.thresholds == thresholds,
    {
        State { noun_scores: ScoreTable::new(), nouns: StrSet::new(), thresholds }
    }

    /// Replaces the promotion thresholds; they take effect on the next batch.
    pub fn threshold(&mut self, unique_suffixes_count: u32, count: u32, noun_probability: Prob)
        requires
            old(self).inv(),
            noun_probability.valid(),
        ensures
            final(self).inv(),
            final(self)@.thresholds == (Thresholds {
                noun_probability,
                count,
                unique_suffixes: unique_suffixes_count,
            }),
            final(self)@.scores == old(self)@.scores,
            final(self)@.nouns == old(self)@.nouns,
    {
        self.thresholds = Thresholds { noun_probability, count, unique_suffixes: unique_suffixes_count };
    }

    /// Validates a probability ratio at the configuration boundary and
    /// installs the threshold triple; a ratio above one or with a zero or
    /// oversized denominator is rejected untouched.
    pub fn set_thresholds(
        &mut self,
        prob_num: u32,
        prob_den: u32,
        count: u32,
        unique_suffixes_count: u32,
    ) -> (r: Result<(), ConfigError>)
        requires
            old(self).inv(),
        ensures
            final(self).inv(),
            final(self)@.scores == old(self)@.scores,
            final(self)@.nouns == old(self)@.nouns,
            match r {
                Ok(()) => {
                    &&& prob_num <= prob_den
                    &&& 1 <= prob_den <= crate::score::PROB_DEN_LIMIT
                    &&& final(self)@.thresholds.noun_probability.num() == prob_num
                    &&& final(self)@.thresholds.noun_probability.den() == prob_den
                    &&& final(self)@.thresholds.count == count
                    &&& final(self)@.thresholds.unique_suffixes == unique_suffixes_count
                },
                Err(ConfigError::InvalidProbability) => {
                    &&& !(prob_num <= prob_den && 1 <= prob_den && prob_den
                        <= crate::score::PROB_DEN_LIMIT)
                    &&& final(self)@.thresholds == old(self)@.thresholds
                },
            },
    {
        match Prob::new(prob_num, prob_den) {
            Some(p) => {
                self.threshold(unique_suffixes_count, count, p);
                Ok(())
            },
            None => Err(ConfigError::InvalidProbability),
        }
    }

    /// The persisted score of a candidate, if any.
    pub fn score(&self, candidate: &String) -> (r: Option<&Score>)
        requires
            self.inv(),
        ensures
            match r {
                Some(s) => self@.scores.contains_key(candidate@) && s@ == self@.scores[candidate@],
                None => !self@.scores.contains_key(candidate@),
            },
    {
        self.noun_scores.get(candidate)
    }

    /// The accepted nouns, one vector element per noun.
    pub fn nouns(&self) -> (r: Vec<String>)
        requires
            self.inv(),
        ensures
            str_views(r@).to_set() == self@.nouns,
            str_views(r@).no_duplicates(),
            r@.len() == self@.nouns.len(),
    {
        let items = self.nouns.items();
        let n = items.len();
        let mut r: Vec<String> = Vec::new();
        let mut i: usize = 0;
        while i < n
            invariant
                i <= n,
                n == items@.len(),
                r@.len() == i,
                forall|j: int| 0 <= j < i ==> (#[trigger] r@[j]) == items@[j],
            decreases n - i,
        {
            r.push(items[i].clone());
            i = i + 1;
        }
        proof {
            assert(r@ =~= items@);
        }
        r
    }

    /// Whether a candidate is currently accepted.
    pub fn is_accepted(&self, candidate: &String) -> (r: bool)
        requires
            self.inv(),
        ensures
            r == self@.nouns.contains(candidate@),
    {
        self.nouns.contains(candidate)
    }

    /// The persisted score table, for snapshotting.
    pub fn score_table(&self) -> (r: &ScoreTable)
        requires
            self.inv(),
        ensures
            r.inv(),
            r@ == self@.scores,
    {
        &self.noun_scores
    }

    /// The persisted accepted-noun set, for snapshotting.
    pub fn noun_set(&self) -> (r: &StrSet)
        requires
            self.inv(),
        ensures
            r.inv(),
            r@ == self@.nouns,
    {
        &self.nouns
    }

    /// The current promotion thresholds.
    pub fn thresholds(&self) -> (r: Thresholds)
        ensures
            r == self@.thresholds,
    {
        self.thresholds
    }

    /// A serving layer rebuilt from persisted parts.
    pub fn from_parts(noun_scores: ScoreTable, nouns: StrSet, thresholds: Thresholds) -> (r: State)
        requires
            noun_scores.inv(),
            nouns.inv(),
            thresholds.noun_probability.valid(),
        ensures
            r.inv(),
            r@.scores == noun_scores@,
            r@.nouns == nouns@,
            r@.thresholds == thresholds,
    {
        State { noun_scores, nouns, thresholds }
    }

    /// Folds one batch of freshly extracted scores into the persisted state:
    /// every candidate's new score is merged with its persisted one, the
    /// merged score is persisted unconditionally, and the candidate is added
    /// to or removed from the accepted set by the thresholds alone. Returns
    /// how many entries of the batch were promoted.
    pub fn merge_and_promote(&mut self, batch: Vec<(String, Score)>) -> (r: usize)
        requires
            old(self).inv(),
            forall|i: int| 0 <= i < batch@.len() ==> (#[trigger] batch@[i].1).inv(),
        ensures
            final(self).inv(),
            final(self)@ == apply_batch(old(self)@, batch_views(batch@), 0),
            r as int == promote_count(old(self)@, batch_views(batch@), 0),
    {
        let ghost bviews = batch_views(batch@);
        let n = batch.len();
        let mut work = batch;
        let mut promoted: usize = 0;
        let mut i: usize = 0;
        while i < n
            invariant
                i <= n,
                n == bviews.len(),
                self.inv(),
                work@.len() == n - i,
                batch_views(work@) == bviews.subrange(i as int, n as int),
                forall|j: int| 0 <= j < work@.len() ==> (#[trigger] work@[j].1).inv(),
                promoted <= i,
                apply_batch(self@, bviews, i as int) == apply_batch(old(self)@, bviews, 0),
                promoted as int + promote_count(self@, bviews, i as int) == promote_count(
                    old(self)@,
                    bviews,
                    0,
                ),
            decreases n - i,
        {
            let ghost pre = self@;
            let ghost pw = work@;
            let (cand, fresh) = work.remove(0);
            proof {
                assert(batch_views(pw)[0] == (pw[0].0@, pw[0].1@));
                assert(bviews.subrange(i as int, n as int)[0] == bviews[i as int]);
                assert(bviews[i as int] == (cand@, fresh@));
                assert forall|j: int| 0 <= j < work@.len() implies #[trigger] batch_views(
                    work@,
                )[j] == bviews.subrange(i + 1, n as int)[j] by {
                    assert(batch_views(work@)[j] == (work@[j].0@, work@[j].1@));
                    assert(work@[j] == pw[j + 1]);
                    assert(batch_views(pw)[j + 1] == (pw[j + 1].0@, pw[j + 1].1@));
                    assert(bviews.subrange(i as int, n as int)[j + 1] == bviews[i + 1 + j]);
                }
                assert(batch_views(work@) =~= bviews.subrange(i + 1, n as int));
            }
            let merged: Score = match self.noun_scores.get(&cand) {
                Some(prev) => {
                    let mut m = fresh;
                    m.merge(prev);
                    m
                },
                None => fresh,
            };
            proof {
                assert(merged@ == batch_entry_score(pre.scores, cand@, bviews[i as int].1));
            }
            let prob_ok = merged.noun_probability.at_least(&self.thresholds.noun_probability);
            let count_ok = merged.count >= self.thresholds.count;
            let diversity_ok = (merged.unique_suffixes.len() as u64) >= (
            self.thresholds.unique_suffixes as u64);
            let promote = prob_ok && count_ok && diversity_ok;
            proof {
                assert(promote == meets(merged@, pre.thresholds));
            }
            if promote {
                self.nouns.insert(cand.clone());
                promoted = promoted + 1;
            } else {
                self.nouns.remove(&cand);
            }
            self.noun_scores.put(cand, merged);
            proof {
                assert(self@ == apply_candidate(pre, bviews[i as int].0, bviews[i as int].1));
            }
            i = i + 1;
        }
        promoted
    }
}

/// Re-scoring a promoted candidate with the same fresh evidence keeps it
/// promoted, while its persisted count keeps growing: membership is
/// idempotent, the cumulative evidence is not. This holds whenever the
/// probability threshold is at least one half (the default is nine tenths)
/// and the squared odds stay within the normalization bound; with a
/// threshold below one half, squaring the odds of a probability such as
/// two fifths against a threshold of one third drops it through.
pub proof fn lemma_repromotion(s: ScoreV, t: Thresholds)
    requires
        meets(s, t),
        s.noun_probability.valid(),
        2 * t.noun_probability.num() >= t.noun_probability.den(),
        crate::score::odds_merge_den(
            s.noun_probability.num() as int,
            s.noun_probability.den() as int,
            s.noun_probability.num() as int,
            s.noun_probability.den() as int,
        ) <= crate::score::PROB_DEN_LIMIT as int,
    ensures
        meets(merged_score(s, s), t),
        merged_score(s, s).count as int == crate::score::sat_add32(
            s.count as int,
            s.count as int,
        ),
        merged_score(s, s).unique_suffixes == s.unique_suffixes,
{
    let a = s.noun_probability.num() as int;
    let b = s.noun_probability.den() as int;
    let tn = t.noun_probability.num() as int;
    let td = t.noun_probability.den() as int;
    assert(s.unique_suffixes.union(s.unique_suffixes) =~= s.unique_suffixes);
    crate::score::lemma_prob_merge_parts(s.noun_probability, s.noun_probability);
    crate::score::lemma_mul_le(a, a, crate::score::PROB_DEN_LIMIT as int);
    crate::score::lemma_mul_le(b - a, b - a, crate::score::PROB_DEN_LIMIT as int);
    let m = crate::score::spec_prob_merge(s.noun_probability, s.noun_probability);
    let dm = a * a + (b - a) * (b - a);
    assert(m.num() as int == a * a && m.den() as int == dm);
    assert(b >= 1 && td >= 1);
    if a == 0 {
        assert(tn * b >= tn) by (nonlinear_arith)
            requires
                tn >= 0,
                b >= 1,
        ;
        assert(a * td == 0) by (nonlinear_arith)
            requires
                a == 0,
        ;
        assert(tn * b <= 0);
        assert(tn == 0);
        assert((b - a) * (b - a) >= 1) by (nonlinear_arith)
            requires
                b - a >= 1,
        ;
        assert(m.num() * t.noun_probability.den() >= t.noun_probability.num() * m.den());
    } else {
        assert(2 * tn * b >= td * b) by (nonlinear_arith)
            requires
                2 * tn >= td,
                b >= 0,
        ;
        assert(td * (2 * a) >= td * b) by (nonlinear_arith)
            requires
                a * td >= tn * b,
                2 * tn * b >= td * b,
        ;
        assert(2 * a >= b) by (nonlinear_arith)
            requires
                td >= 1,
                td * (2 * a) >= td * b,
        ;
        assert(a * b - dm == (2 * a - b) * (b - a)) by (nonlinear_arith)
            requires
                dm == a * a + (b - a) * (b - a),
        ;
        assert((2 * a - b) * (b - a) >= 0) by (nonlinear_arith)
            requires
                2 * a - b >= 0,
                b - a >= 0,
        ;
        assert(a * (a * td) >= a * (tn * b)) by (nonlinear_arith)
            requires
                a >= 0,
                a * td >= tn * b,
        ;
        assert(tn * (a * b) >= tn * dm) by (nonlinear_arith)
            requires
                tn >= 0,
                a * b >= dm,
        ;
        assert(a * (a * td) == (a * a) * td) by (nonlinear_arith);
        assert(a * (tn * b) == tn * (a * b)) by (nonlinear_arith);
        assert((a * a) * td >= tn * dm);
        assert(a * a >= 1) by (nonlinear_arith)
            requires
                a >= 1,
        ;
        assert(m.num() * t.noun_probability.den() >= t.noun_probability.num() * m.den());
    }
    assert(spec_prob_at_least(m, t.noun_probability));
}

} // verus!
