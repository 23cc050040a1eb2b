//! Per-candidate scores. A probability is an exact ratio of integers, so the
//! odds-multiplication merge rule is ordinary integer arithmetic; an undefined
//! probability (the counterpart of a floating-point NaN) is the ratio 0/0 and
//! is handled, never propagated as a fault.

use crate::strset::StrSet;
use vstd::prelude::*;

verus! {

/// Probability denominators are kept at or below this bound so that the
/// merge arithmetic stays exact in 64 bits.
pub const PROB_DEN_LIMIT: u32 = 0x4000_0000;

/// A probability in `[0, 1]` as the exact ratio `num / den`; `0 / 0` stands
/// for an undefined value.
#[derive(Clone, Copy, PartialEq, Eq, Structural, Debug)]
pub struct Prob {
    num: u32,
    den: u32,
}

impl Prob {
    /// The numerator.
    pub closed spec fn num(&self) -> u32 {
        self.num
    }

    /// The denominator.
    pub closed spec fn den(&self) -> u32 {
        self.den
    }

    /// Every probability the library hands out satisfies this.
    pub open spec fn valid(&self) -> bool {
        self.num() <= self.den() && self.den() <= PROB_DEN_LIMIT
    }

    /// An undefined probability, as arises when certainty meets impossibility.
    pub open spec fn is_nan(&self) -> bool {
        self.den() == 0
    }

    /// The ratio `num / den`. Rejects a ratio above one, a zero denominator,
    /// and a denominator beyond the supported bound.
    pub fn new(num: u32, den: u32) -> (r: Option<Prob>)
        ensures
            (num <= den && 1 <= den && den <= PROB_DEN_LIMIT) <==> r is Some,
            match r {
                Some(p) => p.valid() && !p.is_nan() && p.num() == num && p.den() == den,
                None => true,
            },
    {
        if num <= den && 1 <= den && den <= PROB_DEN_LIMIT {
            Some(Prob { num, den })
        } else {
            None
        }
    }

    /// The undefined probability, for a score whose computation degenerated.
    pub fn undefined() -> (r: Prob)
        ensures
            r.valid(),
            r.is_nan(),
            r.num() == 0,
            r.den() == 0,
    {
        Prob { num: 0, den: 0 }
    }

    /// Certainty: the ratio one.
    pub fn one() -> (r: Prob)
        ensures
            r.valid(),
            r == prob_one(),
            r.num() == 1,
            r.den() == 1,
    {
        Prob { num: 1, den: 1 }
    }

    /// The numerator, for callers outside the proof.
    pub fn numerator(&self) -> (r: u32)
        ensures
            r == self.num(),
    {
        self.num
    }

    /// The denominator, for callers outside the proof.
    pub fn denominator(&self) -> (r: u32)
        ensures
            r == self.den(),
    {
        self.den
    }

    /// Whether this probability is undefined.
    pub fn nan(&self) -> (r: bool)
        ensures
            r == self.is_nan(),
    {
        self.den == 0
    }

    /// Combines two independent estimates by multiplying their odds:
    /// `p' = 1 / (1 + (1/p - 1) * (1/q - 1))`, computed exactly on ratios
    /// and then brought back under the denominator bound.
    pub fn merge(&self, o: &Prob) -> (r: Prob)
        requires
            self.valid(),
            o.valid(),
        ensures
            r.valid(),
            r.num() as int == spec_normalize(
                odds_merge_num(self.num() as int, o.num() as int),
                odds_merge_den(self.num() as int, self.den() as int, o.num() as int, o.den() as int),
            ).0,
            r.den() as int == spec_normalize(
                odds_merge_num(self.num() as int, o.num() as int),
                odds_merge_den(self.num() as int, self.den() as int, o.num() as int, o.den() as int),
            ).1,
    {
        let a1 = self.num as u64;
        let b1 = self.den as u64;
        let a2 = o.num as u64;
        let b2 = o.den as u64;
        proof {
            lemma_mul_le(a1 as int, a2 as int, PROB_DEN_LIMIT as int);
            lemma_mul_le(b1 - a1, b2 - a2, PROB_DEN_LIMIT as int);
        }
        let mut num: u64 = a1 * a2;
        let mut den: u64 = num + (b1 - a1) * (b2 - a2);
        let ghost n0 = odds_merge_num(self.num() as int, o.num() as int);
        let ghost d0 = odds_merge_den(
            self.num() as int,
            self.den() as int,
            o.num() as int,
            o.den() as int,
        );
        while den > PROB_DEN_LIMIT as u64
            invariant
                num <= den,
                spec_normalize(num as int, den as int) == spec_normalize(n0, d0),
            decreases den,
        {
            num = num / 2;
            den = den / 2;
        }
        Prob { num: num as u32, den: den as u32 }
    }

    /// Total comparison against a threshold: an undefined value on either
    /// side never clears it.
    pub fn at_least(&self, o: &Prob) -> (r: bool)
        ensures
            r == spec_prob_at_least(*self, *o),
    {
        if self.den == 0 || o.den == 0 {
            false
        } else {
            proof {
                lemma_mul_le(self.num as int, o.den as int, u32::MAX as int);
                lemma_mul_le(o.num as int, self.den as int, u32::MAX as int);
            }
            (self.num as u64) * (o.den as u64) >= (o.num as u64) * (self.den as u64)
        }
    }
}

/// The product of two bounded non-negative factors is bounded.
pub proof fn lemma_mul_le(x: int, y: int, b: int)
    requires
        0 <= x <= b,
        0 <= y <= b,
    ensures
        0 <= x * y <= b * b,
{
    assert(0 <= x * y <= b * b) by (nonlinear_arith)
        requires
            0 <= x <= b,
            0 <= y <= b,
    ;
}

/// Numerator of the odds-multiplication merge of `a1/b1` and `a2/b2`.
pub open spec fn odds_merge_num(a1: int, a2: int) -> int {
    a1 * a2
}

/// Denominator of the odds-multiplication merge of `a1/b1` and `a2/b2`.
pub open spec fn odds_merge_den(a1: int, b1: int, a2: int, b2: int) -> int {
    a1 * a2 + (b1 - a1) * (b2 - a2)
}

/// Halves a ratio until its denominator fits the bound.
pub open spec fn spec_normalize(num: int, den: int) -> (int, int)
    decreases den,
{
    if den <= PROB_DEN_LIMIT as int {
        (num, den)
    } else {
        spec_normalize(num / 2, den / 2)
    }
}

/// The merged probability of two estimates: the odds-multiplication merge,
/// normalized. The counterpart of `Prob::merge`.
pub closed spec fn spec_prob_merge(p: Prob, q: Prob) -> Prob {
    let n = spec_normalize(
        odds_merge_num(p.num() as int, q.num() as int),
        odds_merge_den(p.num() as int, p.den() as int, q.num() as int, q.den() as int),
    );
    Prob { num: n.0 as u32, den: n.1 as u32 }
}

/// What `spec_prob_merge` holds: the normalized exact odds merge.
pub proof fn lemma_prob_merge_parts(p: Prob, q: Prob)
    requires
        p.valid(),
        q.valid(),
    ensures
        spec_prob_merge(p, q).valid(),
        spec_prob_merge(p, q).num() as int == spec_normalize(
            odds_merge_num(p.num() as int, q.num() as int),
            odds_merge_den(p.num() as int, p.den() as int, q.num() as int, q.den() as int),
        ).0,
        spec_prob_merge(p, q).den() as int == spec_normalize(
            odds_merge_num(p.num() as int, q.num() as int),
            odds_merge_den(p.num() as int, p.den() as int, q.num() as int, q.den() as int),
        ).1,
{
    lemma_mul_le(p.num() as int, q.num() as int, PROB_DEN_LIMIT as int);
    lemma_mul_le(p.den() - p.num(), q.den() - q.num(), PROB_DEN_LIMIT as int);
    lemma_normalize_fits(
        odds_merge_num(p.num() as int, q.num() as int),
        odds_merge_den(p.num() as int, p.den() as int, q.num() as int, q.den() as int),
    );
}

/// Normalization lands in `u32` range whenever it starts from a sensible
/// ratio, so the truncating casts in `spec_prob_merge` are exact.
proof fn lemma_normalize_fits(num: int, den: int)
    ensures
        0 <= num <= den ==> {
            let r = spec_normalize(num, den);
            0 <= r.0 <= r.1 <= PROB_DEN_LIMIT as int
        },
    decreases den,
{
    if den <= PROB_DEN_LIMIT as int {
    } else {
        lemma_normalize_fits(num / 2, den / 2);
    }
}

/// `p >= q` as a total test: false whenever either side is undefined.
pub open spec fn spec_prob_at_least(p: Prob, q: Prob) -> bool {
    !p.is_nan() && !q.is_nan() && p.num() * q.den() >= q.num() * p.den()
}

/// The odds-multiplication merge is commutative: merging two estimates
/// yields the same exact ratio in either order.
pub proof fn lemma_odds_merge_commutative(a1: int, b1: int, a2: int, b2: int)
    ensures
        odds_merge_num(a1, a2) == odds_merge_num(a2, a1),
        odds_merge_den(a1, b1, a2, b2) == odds_merge_den(a2, b2, a1, b1),
{
}

/// The odds-multiplication merge is associative: merging `(A, B)` then `C`
/// yields the same exact ratio as merging `A` then `(B, C)`.
pub proof fn lemma_odds_merge_associative(a1: int, b1: int, a2: int, b2: int, a3: int, b3: int)
    ensures
        odds_merge_num(odds_merge_num(a1, a2), a3) == odds_merge_num(a1, odds_merge_num(a2, a3)),
        odds_merge_den(odds_merge_num(a1, a2), odds_merge_den(a1, b1, a2, b2), a3, b3)
            == odds_merge_den(a1, b1, odds_merge_num(a2, a3), odds_merge_den(a2, b2, a3, b3)),
{
    assert((a1 * a2) * a3 == a1 * (a2 * a3)) by (nonlinear_arith);
    assert(((b1 - a1) * (b2 - a2)) * (b3 - a3) == (b1 - a1) * ((b2 - a2) * (b3 - a3)))
        by (nonlinear_arith);
}


/// Commutativity carries to the merged probability itself: merging two
/// estimates yields the same ratio in either order, normalization included.
pub proof fn lemma_prob_merge_commutative(p: Prob, q: Prob)
    ensures
        spec_prob_merge(p, q) == spec_prob_merge(q, p),
{
    lemma_odds_merge_commutative(p.num() as int, p.den() as int, q.num() as int, q.den() as int);
}

/// Associativity carries to the merged probability whenever no
/// normalization triggers: if the exact denominators of both intermediate
/// merges stay within the bound, composing the merges either way yields the
/// same ratio exactly. (Beyond the bound the ratio is halved to stay in
/// 64-bit arithmetic, a quantization of the same kind as floating-point
/// rounding.)
pub proof fn lemma_prob_merge_associative(p1: Prob, p2: Prob, p3: Prob)
    requires
        p1.valid(),
        p2.valid(),
        p3.valid(),
        odds_merge_den(p1.num() as int, p1.den() as int, p2.num() as int, p2.den() as int)
            <= PROB_DEN_LIMIT as int,
        odds_merge_den(p2.num() as int, p2.den() as int, p3.num() as int, p3.den() as int)
            <= PROB_DEN_LIMIT as int,
        odds_merge_den(
            odds_merge_num(p1.num() as int, p2.num() as int),
            odds_merge_den(p1.num() as int, p1.den() as int, p2.num() as int, p2.den() as int),
            p3.num() as int,
            p3.den() as int,
        ) <= PROB_DEN_LIMIT as int,
    ensures
        spec_prob_merge(spec_prob_merge(p1, p2), p3) == spec_prob_merge(
            p1,
            spec_prob_merge(p2, p3),
        ),
{
    let a1 = p1.num() as int;
    let b1 = p1.den() as int;
    let a2 = p2.num() as int;
    let b2 = p2.den() as int;
    let a3 = p3.num() as int;
    let b3 = p3.den() as int;
    lemma_mul_le(a1, a2, PROB_DEN_LIMIT as int);
    lemma_mul_le(b1 - a1, b2 - a2, PROB_DEN_LIMIT as int);
    lemma_mul_le(a2, a3, PROB_DEN_LIMIT as int);
    lemma_mul_le(b2 - a2, b3 - a3, PROB_DEN_LIMIT as int);
    lemma_odds_merge_associative(a1, b1, a2, b2, a3, b3);
    let m12 = spec_prob_merge(p1, p2);
    let m23 = spec_prob_merge(p2, p3);
    lemma_mul_le(m12.num() as int, a3, PROB_DEN_LIMIT as int);
    lemma_mul_le(m12.den() - m12.num(), b3 - a3, PROB_DEN_LIMIT as int);
    lemma_mul_le(a1, m23.num() as int, PROB_DEN_LIMIT as int);
    lemma_mul_le(b1 - a1, m23.den() - m23.num(), PROB_DEN_LIMIT as int);
}

/// Saturating 32-bit addition, the merge rule for counts.
pub open spec fn sat_add32(x: int, y: int) -> int {
    if x + y > u32::MAX {
        u32::MAX as int
    } else {
        x + y
    }
}

/// Count merging is commutative.
pub proof fn lemma_sat_add_commutative(x: int, y: int)
    ensures
        sat_add32(x, y) == sat_add32(y, x),
{
}

/// Count merging is associative on counts (which are never negative).
pub proof fn lemma_sat_add_associative(x: int, y: int, z: int)
    requires
        0 <= x,
        0 <= y,
        0 <= z,
    ensures
        sat_add32(sat_add32(x, y), z) == sat_add32(x, sat_add32(y, z)),
{
}

/// What a candidate has accumulated: its noun probability, how often it was
/// seen, and the exact set of one-character suffixes that gave informative
/// evidence for it.
pub struct Score {
    pub noun_probability: Prob,
    pub count: u32,
    pub unique_suffixes: StrSet,
}

/// The mathematical content of a `Score`.
pub ghost struct ScoreV {
    pub noun_probability: Prob,
    pub count: u32,
    pub unique_suffixes: Set<Seq<char>>,
}

impl View for Score {
    type V = ScoreV;

    open spec fn view(&self) -> ScoreV {
        ScoreV {
            noun_probability: self.noun_probability,
            count: self.count,
            unique_suffixes: self.unique_suffixes@,
        }
    }
}

/// The probability one, as a value.
pub closed spec fn prob_one() -> Prob {
    Prob { num: 1, den: 1 }
}

/// `prob_one` is the valid ratio one.
pub proof fn lemma_prob_one()
    ensures
        prob_one().valid(),
        prob_one().num() == 1,
        prob_one().den() == 1,
{
}

/// The score of a candidate never seen before.
pub open spec fn fresh_score() -> ScoreV {
    ScoreV { noun_probability: prob_one(), count: 0, unique_suffixes: Set::empty() }
}

/// The merge rule at the level of score views: counts add (saturating),
/// suffix sets unite, probabilities compose by odds multiplication.
pub open spec fn merged_score(a: ScoreV, b: ScoreV) -> ScoreV {
    ScoreV {
        noun_probability: spec_prob_merge(a.noun_probability, b.noun_probability),
        count: sat_add32(a.count as int, b.count as int) as u32,
        unique_suffixes: a.unique_suffixes.union(b.unique_suffixes),
    }
}

impl Score {
    /// Scores carry a valid probability and a well-formed suffix set.
    pub open spec fn inv(&self) -> bool {
        self.noun_probability.valid() && self.unique_suffixes.inv()
    }

    /// A score from its parts.
    pub fn new(noun_probability: Prob, count: u32, unique_suffixes: StrSet) -> (r: Score)
        ensures
            r.noun_probability == noun_probability,
            r.count == count,
            r.unique_suffixes == unique_suffixes,
            r@.unique_suffixes == unique_suffixes@,
            unique_suffixes.inv() && noun_probability.valid() ==> r.inv(),
    {
        Score { noun_probability, count, unique_suffixes }
    }

    /// Notes one informative suffix for this candidate.
    pub fn observe_suffix(&mut self, suffix: String)
        requires
            old(self).inv(),
        ensures
            final(self).inv(),
            final(self)@.unique_suffixes == old(self)@.unique_suffixes.insert(suffix@),
            final(self).noun_probability == old(self).noun_probability,
            final(self).count == old(self).count,
    {
        self.unique_suffixes.insert(suffix);
    }

    /// Folds another score for the same candidate into this one: counts add
    /// (saturating), suffix sets unite, and the probabilities compose by the
    /// odds-multiplication rule.
    pub fn merge(&mut self, o: &Score)
        requires
            old(self).inv(),
            o.inv(),
        ensures
            final(self).inv(),
            final(self)@ == merged_score(old(self)@, o@),
    {
        self.count = self.count.saturating_add(o.count);
        self.unique_suffixes.merge(&o.unique_suffixes);
        self.noun_probability = self.noun_probability.merge(&o.noun_probability);
        proof {
            lemma_prob_merge_parts(old(self).noun_probability, o.noun_probability);
            assert(self.noun_probability == spec_prob_merge(
                old(self).noun_probability,
                o.noun_probability,
            ));
        }
    }
}

impl Default for Score {
    /// A fresh candidate: certainty one, nothing counted, no suffixes seen.
    fn default() -> (r: Score)
        ensures
            r.inv(),
            r@ == fresh_score(),
            r.noun_probability.num() == 1,
            r.noun_probability.den() == 1,
            r.count == 0,
            r@.unique_suffixes == Set::<Seq<char>>::empty(),
    {
        Score { noun_probability: Prob::one(), count: 0, unique_suffixes: StrSet::new() }
    }
}

} // verus!
