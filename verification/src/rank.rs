//! Ranking of scored candidates. Candidates are ordered by a precomputed
//! composite rank key, highest first; a candidate without a key (the
//! counterpart of a NaN composite) sorts after every keyed one. The sort is
//! a deterministic insertion sort, so candidates with equal keys keep their
//! input order.

use crate::score::{Score, ScoreV};
use vstd::prelude::*;

verus! {

/// A candidate with its score and its composite rank key; `None` stands for
/// an undefined (NaN) key.
pub struct Candidate {
    pub text: String,
    pub score: Score,
    pub rank: Option<i64>,
}

/// The mathematical content of a `Candidate`.
pub ghost struct CandidateV {
    pub text: Seq<char>,
    pub score: ScoreV,
    pub rank: Option<i64>,
}

impl View for Candidate {
    type V = CandidateV;

    open spec fn view(&self) -> CandidateV {
        CandidateV { text: self.text@, score: self.score@, rank: self.rank }
    }
}

/// The views of a sequence of candidates.
pub open spec fn cand_views(s: Seq<Candidate>) -> Seq<CandidateV> {
    s.map_values(|c: Candidate| c@)
}

/// Whether key `a` strictly outranks key `b`: an undefined key outranks
/// nothing and is outranked by every defined key.
pub open spec fn outranks(a: Option<i64>, b: Option<i64>) -> bool {
    match a {
        Some(av) => match b {
            Some(bv) => av > bv,
            None => true,
        },
        None => false,
    }
}

/// Where a candidate lands among already-ranked ones: after everything that
/// ranks at least as high, before the first strictly lower key.
pub open spec fn insert_ranked(s: Seq<CandidateV>, x: CandidateV) -> Seq<CandidateV>
    decreases s.len(),
{
    if s.len() == 0 {
        seq![x]
    } else if outranks(x.rank, s[0].rank) {
        seq![x] + s
    } else {
        seq![s[0]] + insert_ranked(s.drop_first(), x)
    }
}

/// The ranking of a whole sequence: each candidate inserted in turn, first
/// to last, so that of two equal keys the earlier keeps the earlier place.
pub open spec fn spec_rank_all(s: Seq<CandidateV>) -> Seq<CandidateV> {
    spec_rank_from(s, 0, Seq::empty())
}

/// The ranking after the first `i` candidates have been inserted into `acc`.
pub open spec fn spec_rank_from(s: Seq<CandidateV>, i: int, acc: Seq<CandidateV>) -> Seq<
    CandidateV,
>
    decreases s.len() - i,
{
    if i < 0 || i >= s.len() {
        acc
    } else {
        spec_rank_from(s, i + 1, insert_ranked(acc, s[i]))
    }
}

/// Decides `outranks`.
pub fn key_outranks(a: &Option<i64>, b: &Option<i64>) -> (r: bool)
    ensures
        r == outranks(*a, *b),
{
    match a {
        Some(av) => match b {
            Some(bv) => *av > *bv,
            None => true,
        },
        None => false,
    }
}

/// Sorts candidates by rank key, highest first, undefined keys last, equal
/// keys in input order: the result is exactly `spec_rank_all` of the input.
pub fn rank_candidates(items: Vec<Candidate>) -> (r: Vec<Candidate>)
    ensures
        cand_views(r@) == spec_rank_all(cand_views(items@)),
{
    let ghost iviews = cand_views(items@);
    let n = items.len();
    let mut work = items;
    let mut out: Vec<Candidate> = Vec::new();
    let mut i: usize = 0;
    while i < n
        invariant
            i <= n,
            n == iviews.len(),
            work@.len() == n - i,
            cand_views(work@) == iviews.subrange(i as int, n as int),
            spec_rank_from(iviews, i as int, cand_views(out@)) == spec_rank_all(
                iviews,
            ),
        decreases n - i,
    {
        let ghost pw = work@;
        let ghost outv = cand_views(out@);
        let x = work.remove(0);
        proof {
            assert(cand_views(pw)[0] == pw[0]@);
            assert(iviews.subrange(i as int, n as int)[0] == iviews[i as int]);
            assert(x@ == iviews[i as int]);
            assert forall|j: int| 0 <= j < work@.len() implies #[trigger] cand_views(work@)[j]
                == iviews.subrange(i + 1, n as int)[j] by {
                assert(work@[j] == pw[j + 1]);
                assert(cand_views(pw)[j + 1] == pw[j + 1]@);
                assert(iviews.subrange(i as int, n as int)[j + 1] == iviews[i + 1 + j]);
            }
            assert(cand_views(work@) =~= iviews.subrange(i + 1, n as int));
        }
        let pos = find_slot(&out, &x);
        proof {
            lemma_insert_ranked_at(outv, x@, pos as int);
        }
        out.insert(pos, x);
        proof {
            assert(cand_views(out@) =~= outv.insert(pos as int, x@));
        }
        i = i + 1;
    }
    proof {
        assert(cand_views(work@) =~= Seq::<CandidateV>::empty());
    }
    out
}

/// The first position in `out` whose key `x` strictly outranks; the length
/// when there is none.
fn find_slot(out: &Vec<Candidate>, x: &Candidate) -> (pos: usize)
    ensures
        pos <= out@.len(),
        forall|k: int| 0 <= k < pos ==> !outranks(x@.rank, (#[trigger] out@[k])@.rank),
        pos < out@.len() ==> outranks(x@.rank, out@[pos as int]@.rank),
{
    let m = out.len();
    let mut pos: usize = 0;
    while pos < m
        invariant
            pos <= m,
            m == out@.len(),
            forall|k: int| 0 <= k < pos ==> !outranks(x@.rank, (#[trigger] out@[k])@.rank),
        decreases m - pos,
    {
        if key_outranks(&x.rank, &out[pos].rank) {
            return pos;
        }
        pos = pos + 1;
    }
    pos
}

/// Inserting at the first strictly-outranked position is what
/// `insert_ranked` does.
proof fn lemma_insert_ranked_at(s: Seq<CandidateV>, x: CandidateV, pos: int)
    requires
        0 <= pos <= s.len(),
        forall|k: int| 0 <= k < pos ==> !outranks(x.rank, (#[trigger] s[k]).rank),
        pos < s.len() ==> outranks(x.rank, s[pos].rank),
    ensures
        insert_ranked(s, x) == s.insert(pos, x),
    decreases s.len(),
{
    if s.len() == 0 {
        assert(insert_ranked(s, x) =~= s.insert(0, x));
    } else if pos == 0 {
        assert(outranks(x.rank, s[0].rank));
        assert(insert_ranked(s, x) =~= s.insert(0, x));
    } else {
        assert(!outranks(x.rank, s[0].rank));
        assert forall|k: int| 0 <= k < pos - 1 implies !outranks(
            x.rank,
            (#[trigger] s.drop_first()[k]).rank,
        ) by {
            assert(s.drop_first()[k] == s[k + 1]);
        }
        assert(pos - 1 < s.drop_first().len() ==> outranks(x.rank, s.drop_first()[pos - 1].rank));
        lemma_insert_ranked_at(s.drop_first(), x, pos - 1);
        assert(insert_ranked(s, x) == seq![s[0]] + s.drop_first().insert(pos - 1, x));
        assert(insert_ranked(s, x) =~= s.insert(pos, x));
    }
}

/// Candidates in ranking order: no later one outranks an earlier one.
pub open spec fn sorted_desc(s: Seq<CandidateV>) -> bool {
    forall|i: int, j: int|
        0 <= i < j < s.len() ==> !outranks((#[trigger] s[j]).rank, (#[trigger] s[i]).rank)
}

/// The ranking law: inserting into a ranked sequence places a candidate
/// after every candidate with an equal or higher key and keeps the result
/// ranked, so candidates with equal composite keys always appear in their
/// insertion order and an undefined (NaN) key sorts after every defined one.
pub proof fn lemma_rank_stability(s: Seq<CandidateV>, x: CandidateV)
    requires
        sorted_desc(s),
    ensures
        insert_ranked(s, x) == s.insert(first_outranked(s, x.rank), x),
        forall|k: int|
            0 <= k < s.len() && (#[trigger] s[k]).rank == x.rank ==> k < first_outranked(
                s,
                x.rank,
            ),
        sorted_desc(insert_ranked(s, x)),
{
    lemma_first_outranked(s, x.rank);
    let p = first_outranked(s, x.rank);
    lemma_insert_ranked_at(s, x, p);
    assert forall|k: int| 0 <= k < s.len() && (#[trigger] s[k]).rank == x.rank implies k < p by {
        if k >= p {
            assert(outranks(x.rank, s[p].rank));
            if k > p {
                assert(!outranks(s[k].rank, s[p].rank));
            }
        }
    }
    let t = s.insert(p, x);
    assert forall|i: int, j: int| 0 <= i < j < t.len() implies !outranks(
        (#[trigger] t[j]).rank,
        (#[trigger] t[i]).rank,
    ) by {
        if i == p && j > p {
            assert(t[j] == s[j - 1]);
            assert(outranks(x.rank, s[p].rank));
            assert(j - 1 == p || !outranks(s[j - 1].rank, s[p].rank));
        } else if j == p {
            assert(t[i] == s[i]);
            assert(!outranks(x.rank, s[i].rank));
        } else {
            let io: int = if i < p {
                i
            } else {
                i - 1
            };
            let jo: int = if j < p {
                j
            } else {
                j - 1
            };
            assert(t[i] == s[io] && t[j] == s[jo]);
            if io < jo {
                assert(!outranks(s[jo].rank, s[io].rank));
            }
        }
    }
}

/// The first position whose key `r` strictly outranks; the length when none.
pub open spec fn first_outranked(s: Seq<CandidateV>, r: Option<i64>) -> int
    decreases s.len(),
{
    if s.len() == 0 {
        0
    } else if outranks(r, s[0].rank) {
        0
    } else {
        1 + first_outranked(s.drop_first(), r)
    }
}

/// `first_outranked` is a position with nothing outranked before it.
pub proof fn lemma_first_outranked(s: Seq<CandidateV>, r: Option<i64>)
    ensures
        0 <= first_outranked(s, r) <= s.len(),
        forall|k: int| 0 <= k < first_outranked(s, r) ==> !outranks(r, (#[trigger] s[k]).rank),
        first_outranked(s, r) < s.len() ==> outranks(r, s[first_outranked(s, r)].rank),
    decreases s.len(),
{
    if s.len() > 0 && !outranks(r, s[0].rank) {
        lemma_first_outranked(s.drop_first(), r);
        assert forall|k: int| 0 <= k < first_outranked(s, r) implies !outranks(
            r,
            (#[trigger] s[k]).rank,
        ) by {
            if k > 0 {
                assert(s.drop_first()[k - 1] == s[k]);
            }
        }
    }
}

proof fn lemma_rank_from_props(s: Seq<CandidateV>, i: int, acc: Seq<CandidateV>)
    requires
        0 <= i <= s.len(),
        sorted_desc(acc),
    ensures
        sorted_desc(spec_rank_from(s, i, acc)),
        spec_rank_from(s, i, acc).to_multiset() == acc.to_multiset().add(
            s.subrange(i, s.len() as int).to_multiset(),
        ),
    decreases s.len() - i,
{
    broadcast use vstd::seq_lib::group_to_multiset_ensures;
    broadcast use vstd::multiset::group_multiset_axioms;

    if i == s.len() {
        assert(s.subrange(i, s.len() as int) =~= Seq::<CandidateV>::empty());
        assert(Seq::<CandidateV>::empty().to_multiset().len() == 0);
        assert(acc.to_multiset().add(Seq::<CandidateV>::empty().to_multiset())
            =~= acc.to_multiset());
    } else {
        lemma_rank_stability(acc, s[i]);
        let p = first_outranked(acc, s[i].rank);
        lemma_first_outranked(acc, s[i].rank);
        vstd::seq_lib::to_multiset_insert(acc, p, s[i]);
        lemma_rank_from_props(s, i + 1, insert_ranked(acc, s[i]));
        let tail = s.subrange(i, s.len() as int);
        assert(tail.remove(0) =~= s.subrange(i + 1, s.len() as int));
        vstd::seq_lib::to_multiset_remove(tail, 0);
        assert(tail[0] == s[i]);
        assert(tail.to_multiset().contains(s[i]));
        assert(acc.to_multiset().insert(s[i]).add(tail.to_multiset().remove(s[i]))
            =~= acc.to_multiset().add(tail.to_multiset()));
    }
}

/// The ranking law over whole batches: the output is in ranking order
/// (highest composite key first, undefined keys last) and holds exactly the
/// input candidates, no more and no fewer.
pub proof fn lemma_ranking_orders_and_keeps_candidates(s: Seq<CandidateV>)
    ensures
        sorted_desc(spec_rank_all(s)),
        spec_rank_all(s).to_multiset() == s.to_multiset(),
{
    broadcast use vstd::seq_lib::group_to_multiset_ensures;
    broadcast use vstd::multiset::group_multiset_axioms;

    lemma_rank_from_props(s, 0, Seq::empty());
    assert(s.subrange(0, s.len() as int) =~= s);
    assert(Seq::<CandidateV>::empty().to_multiset().len() == 0);
    assert(Seq::<CandidateV>::empty().to_multiset().add(s.to_multiset()) =~= s.to_multiset());
}

} // verus!
