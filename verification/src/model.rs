//! The counting model: composite suffix keys, observation counts, the global
//! tally, and the training procedure that populates them by sliding a bounded
//! window over every character boundary of a labeled line.

use crate::chars::{chars_to_string, str_chars};
use crate::hangul::{has_support, spec_has_support};
use crate::store::{entries_to_map, store_entries, Store, StoreImpl, StoreKey};
use vstd::prelude::*;

verus! {

/// Suffix windows run over lengths `1 .. MAX_POSTFIX_SIZE` (exclusive).
pub const MAX_POSTFIX_SIZE: usize = 3;

/// Minimum total evidence below which a suffix key is uninformative.
pub const LARGE_NUMBER: u32 = 250;

/// The composite store key: the trailing-character context of a boundary
/// (a concrete character, or the wildcard code point 0 meaning "any
/// character"), its final-consonant feature, and the suffix string that
/// follows the boundary.
pub struct Suffix {
    target_has_support: bool,
    last_char: u32,
    suffix: String,
}

/// The mathematical content of a `Suffix` key.
pub ghost struct SuffixV {
    pub target_has_support: bool,
    pub last_char: u32,
    pub suffix: Seq<char>,
}

impl View for Suffix {
    type V = SuffixV;

    closed spec fn view(&self) -> SuffixV {
        SuffixV {
            target_has_support: self.target_has_support,
            last_char: self.last_char,
            suffix: self.suffix@,
        }
    }
}

/// The key that records a boundary together with its concrete trailing
/// character.
pub open spec fn concrete_key(c: char, s: Seq<char>) -> SuffixV {
    SuffixV { target_has_support: spec_has_support(c), last_char: c as u32, suffix: s }
}

/// The char-agnostic fallback key for the same boundary.
pub open spec fn wildcard_key(c: char, s: Seq<char>) -> SuffixV {
    SuffixV { target_has_support: spec_has_support(c), last_char: 0, suffix: s }
}

impl Suffix {
    /// The key with the concrete trailing character.
    pub fn concrete_for(last_target_char: char, suffix: String) -> (r: Self)
        ensures
            r@ == concrete_key(last_target_char, suffix@),
    {
        Suffix {
            target_has_support: has_support(last_target_char),
            last_char: last_target_char as u32,
            suffix,
        }
    }

    /// The wildcard-context key for the same boundary.
    pub fn wildcard_for(last_target_char: char, suffix: String) -> (r: Self)
        ensures
            r@ == wildcard_key(last_target_char, suffix@),
    {
        Suffix { target_has_support: has_support(last_target_char), last_char: 0, suffix }
    }
}

impl Suffix {
    /// A key from its stored parts, as read back from a snapshot.
    pub fn new(target_has_support: bool, last_char: u32, suffix: String) -> (r: Self)
        ensures
            r@ == (SuffixV { target_has_support, last_char, suffix: suffix@ }),
    {
        Suffix { target_has_support, last_char, suffix }
    }

    /// The stored parts of the key, for snapshotting.
    pub fn parts(&self) -> (r: (bool, u32, &String))
        ensures
            r.0 == self@.target_has_support,
            r.1 == self@.last_char,
            r.2@ == self@.suffix,
    {
        (self.target_has_support, self.last_char, &self.suffix)
    }
}

impl StoreKey for Suffix {
    fn key_eq(&self, other: &Self) -> (r: bool) {
        self.target_has_support == other.target_has_support && self.last_char == other.last_char
            && self.suffix == other.suffix
    }
}

/// How often a suffix key was seen right after a noun-final boundary and
/// right after any other boundary. Counts only grow during training.
#[derive(Clone, Copy, PartialEq, Eq, Structural, Debug)]
pub struct Count {
    pub postnoun: u32,
    pub postother: u32,
}

impl Count {
    /// A key that was never observed.
    pub fn zero() -> (r: Count)
        ensures
            r == zero_count(),
    {
        Count { postnoun: 0, postother: 0 }
    }
}

/// The count of an unobserved key.
pub open spec fn zero_count() -> Count {
    Count { postnoun: 0, postother: 0 }
}

/// Counting never overflows: at the limit it stays put.
pub open spec fn sat1(x: u32) -> u32 {
    if x == u32::MAX {
        x
    } else {
        (x + 1) as u32
    }
}

/// One more observation of a key, on the noun side or the other side.
pub open spec fn bump_count(c: Count, noun: bool) -> Count {
    if noun {
        Count { postnoun: sat1(c.postnoun), postother: c.postother }
    } else {
        Count { postnoun: c.postnoun, postother: sat1(c.postother) }
    }
}

/// The count a map holds for a key, zero when absent.
pub open spec fn count_at(m: Map<SuffixV, Count>, k: SuffixV) -> Count {
    if m.contains_key(k) {
        m[k]
    } else {
        zero_count()
    }
}

/// Upserting one key with one more observation.
pub open spec fn record_one(m: Map<SuffixV, Count>, k: SuffixV, noun: bool) -> Map<
    SuffixV,
    Count,
> {
    m.insert(k, bump_count(count_at(m, k), noun))
}

/// One observation writes two entries: the concrete trailing-character key,
/// then the wildcard fallback key.
pub open spec fn observe_counts(
    m: Map<SuffixV, Count>,
    c: char,
    s: Seq<char>,
    noun: bool,
) -> Map<SuffixV, Count> {
    record_one(record_one(m, concrete_key(c, s), noun), wildcard_key(c, s), noun)
}

/// Everything the trained model knows: the per-key counts and the two
/// global class tallies.
pub ghost struct ModelSnap {
    pub counts: Map<SuffixV, Count>,
    pub noun_count: u32,
    pub other_count: u32,
}

/// The trained model: a suffix-count store plus the global tally of
/// noun-final and other boundaries.
pub struct State {
    suffix_count_store: StoreImpl<Suffix, Count>,
    noun_count: u32,
    other_count: u32,
}

impl View for State {
    type V = ModelSnap;

    closed spec fn view(&self) -> ModelSnap {
        ModelSnap {
            counts: self.suffix_count_store.contents(),
            noun_count: self.noun_count,
            other_count: self.other_count,
        }
    }
}

/// Whether boundary `i` ends the noun span at `idx`.
pub open spec fn is_noun_boundary(spans: Seq<(u32, u32)>, idx: int, i: int) -> bool {
    0 <= idx < spans.len() && i == spans[idx].0 + spans[idx].1
}

/// One past the largest window length available at boundary `i`.
pub open spec fn window_limit(len: int, i: int) -> int {
    if len - i < MAX_POSTFIX_SIZE as int {
        len - i
    } else {
        MAX_POSTFIX_SIZE as int
    }
}

/// The counts after recording, at boundary `i`, every window of length
/// `1 ..= j`.
pub open spec fn record_windows(
    m: Map<SuffixV, Count>,
    chars: Seq<char>,
    i: int,
    j: int,
    noun: bool,
) -> Map<SuffixV, Count>
    decreases j,
{
    if j < 1 {
        m
    } else {
        observe_counts(
            record_windows(m, chars, i, j - 1, noun),
            chars[i - 1],
            chars.subrange(i, i + j),
            noun,
        )
    }
}

/// The whole effect of one boundary: its class tally grows once, and every
/// window at the boundary is recorded in the counts.
pub open spec fn boundary_step(s: ModelSnap, chars: Seq<char>, i: int, noun: bool) -> ModelSnap {
    ModelSnap {
        counts: record_windows(s.counts, chars, i, window_limit(chars.len() as int, i) - 1, noun),
        noun_count: if noun {
            sat1(s.noun_count)
        } else {
            s.noun_count
        },
        other_count: if noun {
            s.other_count
        } else {
            sat1(s.other_count)
        },
    }
}

/// Training from boundary `i` on, with `idx` the next noun span to match.
pub open spec fn train_from(
    s: ModelSnap,
    chars: Seq<char>,
    spans: Seq<(u32, u32)>,
    i: int,
    idx: int,
) -> ModelSnap
    decreases chars.len() - i,
{
    if i < 1 || i >= chars.len() {
        s
    } else {
        let noun = is_noun_boundary(spans, idx, i);
        train_from(
            boundary_step(s, chars, i, noun),
            chars,
            spans,
            i + 1,
            if noun {
                idx + 1
            } else {
                idx
            },
        )
    }
}

/// Where span matching starts: nowhere when no spans are given.
pub open spec fn initial_span_index(spans: Seq<(u32, u32)>) -> int {
    if spans.len() == 0 {
        -1
    } else {
        0
    }
}

/// The model after training on one labeled line: a sentinel newline is
/// appended and every boundary from 1 to the end is classified and recorded.
/// An empty line is a no-op.
pub open spec fn spec_train_line(s: ModelSnap, text: Seq<char>, spans: Seq<(u32, u32)>) -> ModelSnap {
    if text.len() == 0 {
        s
    } else {
        train_from(s, text.push('\n'), spans, 1, initial_span_index(spans))
    }
}

/// A suffix key is informative when its total evidence reaches `min`.
pub open spec fn spec_is_valid(m: Map<SuffixV, Count>, k: SuffixV, min: u32) -> bool {
    m.contains_key(k) && m[k].postnoun + m[k].postother >= min
}

/// The count behind a key, gated by the minimum-evidence threshold.
pub open spec fn gated(m: Map<SuffixV, Count>, k: SuffixV, min: u32) -> Option<Count> {
    if spec_is_valid(m, k, min) {
        Some(m[k])
    } else {
        None
    }
}

/// Everything the scoring formulas read about one `(trailing char, suffix)`
/// pair: the two gated counts and the global tally.
#[derive(Clone, Copy, PartialEq, Eq, Debug)]
pub struct SuffixEvidence {
    pub with_char: Option<Count>,
    pub wildcard: Option<Count>,
    pub noun_total: u32,
    pub other_total: u32,
}

impl State {
    /// Whether the store is well formed; established by the constructors and
    /// preserved by every operation.
    pub closed spec fn inv(&self) -> bool {
        self.suffix_count_store.inv()
    }

    /// An untrained model.
    pub fn new() -> (r: State)
        ensures
            r.inv(),
            r@.counts == Map::<SuffixV, Count>::empty(),
            r@.noun_count == 0,
            r@.other_count == 0,
    {
        State { suffix_count_store: StoreImpl::new(), noun_count: 0, other_count: 0 }
    }

    /// A model rebuilt from persisted parts: the entries are replayed in
    /// order, later entries overriding earlier ones.
    pub fn assemble(entries: Vec<(Suffix, Count)>, noun_count: u32, other_count: u32) -> (r: State)
        ensures
            r.inv(),
            r@.counts == entries_to_map(store_entries(entries@)),
            r@.noun_count == noun_count,
            r@.other_count == other_count,
    {
        let mut store: StoreImpl<Suffix, Count> = StoreImpl::new();
        let ghost evs = store_entries(entries@);
        let n = entries.len();
        let mut i: usize = 0;
        while i < n
            invariant
                i <= n,
                n == entries@.len(),
                evs == store_entries(entries@),
                store.inv(),
                store.contents() == entries_to_map(evs.subrange(0, i as int)),
            decreases n - i,
        {
            let (k, v) = &entries[i];
            let key = Suffix {
                target_has_support: k.target_has_support,
                last_char: k.last_char,
                suffix: k.suffix.clone(),
            };
            store.put(key, *v);
            proof {
                assert(evs.subrange(0, i + 1).drop_last() =~= evs.subrange(0, i as int));
                assert(evs.subrange(0, i + 1).last() == (k@, *v));
            }
            i = i + 1;
        }
        proof {
            assert(evs.subrange(0, n as int) =~= evs);
        }
        State { suffix_count_store: store, noun_count, other_count }
    }

    /// The entry sequence behind the counts.
    pub closed spec fn entry_views(&self) -> Seq<(SuffixV, Count)> {
        self.suffix_count_store.entry_views()
    }

    /// The per-key entries of the model, for snapshotting.
    pub fn entries(&self) -> (r: &Vec<(Suffix, Count)>)
        requires
            self.inv(),
        ensures
            store_entries(r@) == self.entry_views(),
            entries_to_map(self.entry_views()) == self@.counts,
            entries_to_map(store_entries(r@)) == self@.counts,
    {
        self.suffix_count_store.entries()
    }

    /// How many noun-final boundaries training has seen.
    pub fn noun_count(&self) -> (r: u32)
        ensures
            r == self@.noun_count,
    {
        self.noun_count
    }

    /// How many other boundaries training has seen.
    pub fn other_count(&self) -> (r: u32)
        ensures
            r == self@.other_count,
    {
        self.other_count
    }

    /// How many distinct suffix keys the model holds.
    pub fn key_count(&self) -> (r: usize)
        requires
            self.inv(),
        ensures
            r == self@.counts.dom().len(),
    {
        self.suffix_count_store.len()
    }

    /// The count stored for a key, if any.
    pub fn get_count(&self, key: &Suffix) -> (r: Option<Count>)
        requires
            self.inv(),
        ensures
            r == if self@.counts.contains_key(key@) {
                Some(count_at(self@.counts, key@))
            } else {
                None::<Count>
            },
    {
        self.suffix_count_store.get(key)
    }

    fn record_suffix(&mut self, last_target_char: char, suffix: String, noun: bool)
        requires
            old(self).inv(),
        ensures
            final(self).inv(),
            final(self)@.counts == observe_counts(
                old(self)@.counts,
                last_target_char,
                suffix@,
                noun,
            ),
            final(self)@.noun_count == old(self)@.noun_count,
            final(self)@.other_count == old(self)@.other_count,
    {
        let wildcard = Suffix::wildcard_for(last_target_char, suffix.clone());
        let concrete = Suffix::concrete_for(last_target_char, suffix);
        let c1 = match self.suffix_count_store.get(&concrete) {
            Some(c) => c,
            None => Count::zero(),
        };
        self.suffix_count_store.put(concrete, bump(c1, noun));
        let c2 = match self.suffix_count_store.get(&wildcard) {
            Some(c) => c,
            None => Count::zero(),
        };
        self.suffix_count_store.put(wildcard, bump(c2, noun));
    }

    /// Records one noun-final observation: the global noun tally grows once
    /// and both keys for the boundary are upserted.
    pub fn observe_postnoun(&mut self, last_target_char: char, suffix: String)
        requires
            old(self).inv(),
        ensures
            final(self).inv(),
            final(self)@.counts == observe_counts(
                old(self)@.counts,
                last_target_char,
                suffix@,
                true,
            ),
            final(self)@.noun_count == sat1(old(self)@.noun_count),
            final(self)@.other_count == old(self)@.other_count,
            final(self)@ == apply_observation(
                old(self)@,
                (Observation { last_char: last_target_char, suffix: suffix@, noun: true }),
            ),
    {
        self.noun_count = self.noun_count.saturating_add(1);
        self.record_suffix(last_target_char, suffix, true);
    }

    /// Records one other-boundary observation: the global other tally grows
    /// once and both keys for the boundary are upserted.
    pub fn observe_postother(&mut self, last_target_char: char, suffix: String)
        requires
            old(self).inv(),
        ensures
            final(self).inv(),
            final(self)@.counts == observe_counts(
                old(self)@.counts,
                last_target_char,
                suffix@,
                false,
            ),
            final(self)@.noun_count == old(self)@.noun_count,
            final(self)@.other_count == sat1(old(self)@.other_count),
            final(self)@ == apply_observation(
                old(self)@,
                (Observation { last_char: last_target_char, suffix: suffix@, noun: false }),
            ),
    {
        self.other_count = self.other_count.saturating_add(1);
        self.record_suffix(last_target_char, suffix, false);
    }

    /// Trains on one line with its noun spans, as `spec_train_line` says: a
    /// sentinel is appended, each boundary is classified noun-final exactly
    /// when it closes the current span, the matching tally grows once per
    /// boundary, and every suffix window at the boundary is recorded twice
    /// (concrete and wildcard key).
    pub fn train_line(&mut self, text: &str, noun_poses: &[(u32, u32)])
        requires
            old(self).inv(),
        ensures
            final(self).inv(),
            final(self)@ == spec_train_line(old(self)@, text@, noun_poses@),
    {
        if text.is_empty() {
            return ;
        }
        let mut chars = str_chars(text);
        chars.push('\n');
        let ghost cseq = text@.push('\n');
        let ghost spans = noun_poses@;
        let ghost s0 = self@;
        let n = chars.len();
        let span_count = noun_poses.len();
        let mut noun_idx: usize = 0;
        let ghost gidx = initial_span_index(spans);
        let mut i: usize = 1;
        while i < n
            invariant
                self.inv(),
                1 <= i <= n,
                n == cseq.len(),
                chars@ == cseq,
                cseq == text@.push('\n'),
                text@.len() > 0,
                spans == noun_poses@,
                s0 == old(self)@,
                span_count == spans.len(),
                noun_idx <= span_count,
                gidx == if spans.len() == 0 {
                    -1int
                } else {
                    noun_idx as int
                },
                train_from(self@, cseq, spans, i as int, gidx) == train_from(
                    s0,
                    cseq,
                    spans,
                    1,
                    initial_span_index(spans),
                ),
            decreases n - i,
        {
            let ghost pre = self@;
            let mut noun = false;
            if noun_idx < span_count {
                let (off, len) = noun_poses[noun_idx];
                noun = (off as u64) + (len as u64) == (i as u64);
            }
            proof {
                assert(noun == is_noun_boundary(spans, gidx, i as int));
            }
            if noun {
                self.noun_count = self.noun_count.saturating_add(1);
            } else {
                self.other_count = self.other_count.saturating_add(1);
            }
            let limit = if n - i < MAX_POSTFIX_SIZE {
                n - i
            } else {
                MAX_POSTFIX_SIZE
            };
            let ghost counts0 = self@.counts;
            let mut j: usize = 1;
            while j < limit
                invariant
                    self.inv(),
                    1 <= i < n,
                    n == cseq.len(),
                    chars@ == cseq,
                    1 <= j <= limit,
                    limit == window_limit(cseq.len() as int, i as int),
                    counts0 == pre.counts,
                    self@.counts == record_windows(counts0, cseq, i as int, j - 1, noun),
                    self@.noun_count == if noun {
                        sat1(pre.noun_count)
                    } else {
                        pre.noun_count
                    },
                    self@.other_count == if noun {
                        pre.other_count
                    } else {
                        sat1(pre.other_count)
                    },
                decreases limit - j,
            {
                let w = chars_to_string(&chars, i, i + j);
                self.record_suffix(chars[i - 1], w, noun);
                j = j + 1;
            }
            proof {
                assert(self@ == boundary_step(pre, cseq, i as int, noun));
            }
            if noun {
                noun_idx = noun_idx + 1;
            }
            proof {
                gidx = if noun {
                    gidx + 1
                } else {
                    gidx
                };
            }
            i = i + 1;
        }
        proof {
            assert(train_from(self@, cseq, spans, n as int, gidx) == self@);
        }
    }

    /// Trains on one line whose spans are given in the same character
    /// positions the boundary walk uses; it records exactly what
    /// `train_line` records.
    pub fn train_line_bytes_pos(&mut self, text: &str, noun_poses: &[(u32, u32)])
        requires
            old(self).inv(),
        ensures
            final(self).inv(),
            final(self)@ == spec_train_line(old(self)@, text@, noun_poses@),
    {
        self.train_line(text, noun_poses);
    }

    /// Whether a key's total evidence reaches the minimum-evidence threshold.
    pub fn is_valid_suffix(&self, key: &Suffix) -> (r: bool)
        requires
            self.inv(),
        ensures
            r == spec_is_valid(self@.counts, key@, LARGE_NUMBER),
    {
        if let Some(count) = self.suffix_count_store.get(key) {
            (count.postnoun as u64) + (count.postother as u64) >= (LARGE_NUMBER as u64)
        } else {
            false
        }
    }

    /// Reads the evidence behind one `(trailing char, suffix)` pair: both
    /// keys' counts, each gated by the minimum-evidence threshold, plus the
    /// global tallies that give the class priors.
    pub fn suffix_evidence(&self, last_target_char: char, suffix: &str, min_evidence: u32) -> (r:
        SuffixEvidence)
        requires
            self.inv(),
        ensures
            r.with_char == gated(self@.counts, concrete_key(last_target_char, suffix@), min_evidence),
            r.wildcard == gated(self@.counts, wildcard_key(last_target_char, suffix@), min_evidence),
            r.noun_total == self@.noun_count,
            r.other_total == self@.other_count,
    {
        let concrete = Suffix::concrete_for(last_target_char, crate::chars::owned(suffix));
        let wildcard = Suffix::wildcard_for(last_target_char, crate::chars::owned(suffix));
        let with_char = self.gated_count(&concrete, min_evidence);
        let wc = self.gated_count(&wildcard, min_evidence);
        SuffixEvidence {
            with_char,
            wildcard: wc,
            noun_total: self.noun_count,
            other_total: self.other_count,
        }
    }

    fn gated_count(&self, key: &Suffix, min_evidence: u32) -> (r: Option<Count>)
        requires
            self.inv(),
        ensures
            r == gated(self@.counts, key@, min_evidence),
    {
        match self.suffix_count_store.get(key) {
            Some(count) => {
                if (count.postnoun as u64) + (count.postother as u64) >= (min_evidence as u64) {
                    Some(count)
                } else {
                    None
                }
            },
            None => None,
        }
    }
}

/// One more observation on the chosen side, saturating at the limit.
fn bump(c: Count, noun: bool) -> (r: Count)
    ensures
        r == bump_count(c, noun),
{
    if noun {
        Count { postnoun: c.postnoun.saturating_add(1), postother: c.postother }
    } else {
        Count { postnoun: c.postnoun, postother: c.postother.saturating_add(1) }
    }
}

/// One training observation: the trailing character of a boundary, one
/// suffix window behind it, and the side it was classified on.
pub ghost struct Observation {
    pub last_char: char,
    pub suffix: Seq<char>,
    pub noun: bool,
}

/// The whole effect of one observation on the model: the matching tally
/// grows once and both keys of the boundary are upserted, exactly as
/// `observe_postnoun` and `observe_postother` do.
pub open spec fn apply_observation(s: ModelSnap, o: Observation) -> ModelSnap {
    ModelSnap {
        counts: observe_counts(s.counts, o.last_char, o.suffix, o.noun),
        noun_count: if o.noun {
            sat1(s.noun_count)
        } else {
            s.noun_count
        },
        other_count: if o.noun {
            s.other_count
        } else {
            sat1(s.other_count)
        },
    }
}

/// Observations folded over the model, first to last.
pub open spec fn observation_step() -> spec_fn(ModelSnap, Observation) -> ModelSnap {
    |acc: ModelSnap, o: Observation| apply_observation(acc, o)
}

/// The model after a whole sequence of observations.
pub open spec fn apply_observations(s: ModelSnap, os: Seq<Observation>) -> ModelSnap {
    os.fold_left(s, observation_step())
}

/// Two single-key upserts commute, whether their keys collide or not.
proof fn lemma_record_one_comm(
    m: Map<SuffixV, Count>,
    k1: SuffixV,
    n1: bool,
    k2: SuffixV,
    n2: bool,
)
    ensures
        record_one(record_one(m, k1, n1), k2, n2) == record_one(record_one(m, k2, n2), k1, n1),
{
    if k1 == k2 {
        assert(record_one(record_one(m, k1, n1), k2, n2) =~= record_one(
            record_one(m, k2, n2),
            k1,
            n1,
        ));
    } else {
        assert(record_one(record_one(m, k1, n1), k2, n2) =~= record_one(
            record_one(m, k2, n2),
            k1,
            n1,
        ));
    }
}

/// A single-key upsert commutes past a whole observation.
proof fn lemma_record_observe_comm(
    m: Map<SuffixV, Count>,
    k: SuffixV,
    n: bool,
    c: char,
    s: Seq<char>,
    noun: bool,
)
    ensures
        record_one(observe_counts(m, c, s, noun), k, n) == observe_counts(
            record_one(m, k, n),
            c,
            s,
            noun,
        ),
{
    lemma_record_one_comm(record_one(m, concrete_key(c, s), noun), wildcard_key(c, s), noun, k, n);
    lemma_record_one_comm(m, concrete_key(c, s), noun, k, n);
}

/// Two observations commute: recording them in either order yields the same
/// counts and the same tallies.
pub proof fn lemma_observation_comm(s: ModelSnap, a: Observation, b: Observation)
    ensures
        apply_observation(apply_observation(s, a), b) == apply_observation(
            apply_observation(s, b),
            a,
        ),
{
    let m = s.counts;
    lemma_record_observe_comm(
        observe_counts(m, a.last_char, a.suffix, a.noun),
        wildcard_key(b.last_char, b.suffix),
        b.noun,
        a.last_char,
        a.suffix,
        a.noun,
    );
    lemma_record_observe_comm(
        m,
        concrete_key(b.last_char, b.suffix),
        b.noun,
        a.last_char,
        a.suffix,
        a.noun,
    );
    lemma_record_observe_comm(
        m,
        wildcard_key(b.last_char, b.suffix),
        b.noun,
        a.last_char,
        a.suffix,
        a.noun,
    );
    assert(observe_counts(observe_counts(m, a.last_char, a.suffix, a.noun), b.last_char, b.suffix,
        b.noun) == observe_counts(
        observe_counts(m, b.last_char, b.suffix, b.noun),
        a.last_char,
        a.suffix,
        a.noun,
    )) by {
        assert(record_one(
            record_one(observe_counts(m, a.last_char, a.suffix, a.noun), concrete_key(b.last_char, b.suffix), b.noun),
            wildcard_key(b.last_char, b.suffix),
            b.noun,
        ) == record_one(
            observe_counts(record_one(m, concrete_key(b.last_char, b.suffix), b.noun), a.last_char, a.suffix, a.noun),
            wildcard_key(b.last_char, b.suffix),
            b.noun,
        )) by {
            lemma_record_observe_comm(
                m,
                concrete_key(b.last_char, b.suffix),
                b.noun,
                a.last_char,
                a.suffix,
                a.noun,
            );
        }
        lemma_record_observe_comm(
            record_one(m, concrete_key(b.last_char, b.suffix), b.noun),
            wildcard_key(b.last_char, b.suffix),
            b.noun,
            a.last_char,
            a.suffix,
            a.noun,
        );
    }
}

/// Training the same multiset of observations in any order yields identical
/// final counts and identical global tallies: the training procedure is
/// commutative with respect to observation order.
pub proof fn lemma_training_order_irrelevant(
    s: ModelSnap,
    os1: Seq<Observation>,
    os2: Seq<Observation>,
)
    requires
        os1.to_multiset() == os2.to_multiset(),
    ensures
        apply_observations(s, os1) == apply_observations(s, os2),
{
    let f = observation_step();
    assert(vstd::seq_lib::commutative_foldl(f)) by {
        assert forall|x: Observation, y: Observation, v: ModelSnap| #[trigger] f(f(v, x), y) == f(
            f(v, y),
            x,
        ) by {
            lemma_observation_comm(v, x, y);
        }
    }
    vstd::seq_lib::lemma_fold_left_permutation(os1, os2, f, s);
}

/// Pointwise ordering of count maps: every key's counters in `a` are at most
/// those in `b`, absent keys counting as zero.
pub open spec fn counts_le(a: Map<SuffixV, Count>, b: Map<SuffixV, Count>) -> bool {
    forall|k: SuffixV|
        #![trigger count_at(a, k), count_at(b, k)]
        count_at(a, k).postnoun <= count_at(b, k).postnoun && count_at(a, k).postother <= count_at(
            b,
            k,
        ).postother
}

proof fn lemma_record_one_grows(m: Map<SuffixV, Count>, k: SuffixV, noun: bool)
    ensures
        counts_le(m, record_one(m, k, noun)),
{
}

proof fn lemma_counts_le_trans(a: Map<SuffixV, Count>, b: Map<SuffixV, Count>, c: Map<
    SuffixV,
    Count,
>)
    requires
        counts_le(a, b),
        counts_le(b, c),
    ensures
        counts_le(a, c),
{
    assert forall|k: SuffixV|
        count_at(a, k).postnoun <= count_at(c, k).postnoun && count_at(a, k).postother
            <= count_at(c, k).postother by {
        assert(count_at(a, k).postnoun <= count_at(b, k).postnoun);
        assert(count_at(b, k).postnoun <= count_at(c, k).postnoun);
        assert(count_at(a, k).postother <= count_at(b, k).postother);
        assert(count_at(b, k).postother <= count_at(c, k).postother);
    }
}

proof fn lemma_observe_grows(m: Map<SuffixV, Count>, c: char, s: Seq<char>, noun: bool)
    ensures
        counts_le(m, observe_counts(m, c, s, noun)),
{
    lemma_record_one_grows(m, concrete_key(c, s), noun);
    lemma_record_one_grows(record_one(m, concrete_key(c, s), noun), wildcard_key(c, s), noun);
    lemma_counts_le_trans(
        m,
        record_one(m, concrete_key(c, s), noun),
        observe_counts(m, c, s, noun),
    );
}

proof fn lemma_record_windows_grows(
    m: Map<SuffixV, Count>,
    chars: Seq<char>,
    i: int,
    j: int,
    noun: bool,
)
    ensures
        counts_le(m, record_windows(m, chars, i, j, noun)),
    decreases j,
{
    if j >= 1 {
        lemma_record_windows_grows(m, chars, i, j - 1, noun);
        lemma_observe_grows(
            record_windows(m, chars, i, j - 1, noun),
            chars[i - 1],
            chars.subrange(i, i + j),
            noun,
        );
        lemma_counts_le_trans(
            m,
            record_windows(m, chars, i, j - 1, noun),
            record_windows(m, chars, i, j, noun),
        );
    }
}

proof fn lemma_train_from_grows(
    s: ModelSnap,
    chars: Seq<char>,
    spans: Seq<(u32, u32)>,
    i: int,
    idx: int,
)
    ensures
        counts_le(s.counts, train_from(s, chars, spans, i, idx).counts),
        s.noun_count <= train_from(s, chars, spans, i, idx).noun_count,
        s.other_count <= train_from(s, chars, spans, i, idx).other_count,
    decreases chars.len() - i,
{
    if i < 1 || i >= chars.len() {
    } else {
        let noun = is_noun_boundary(spans, idx, i);
        let stepped = boundary_step(s, chars, i, noun);
        lemma_record_windows_grows(
            s.counts,
            chars,
            i,
            window_limit(chars.len() as int, i) - 1,
            noun,
        );
        lemma_train_from_grows(
            stepped,
            chars,
            spans,
            i + 1,
            if noun {
                idx + 1
            } else {
                idx
            },
        );
        lemma_counts_le_trans(
            s.counts,
            stepped.counts,
            train_from(s, chars, spans, i, idx).counts,
        );
    }
}

/// Counts and tallies only grow during training: a line never decrements any
/// counter of any key, and never removes a key.
pub proof fn lemma_training_is_monotone(s: ModelSnap, text: Seq<char>, spans: Seq<(u32, u32)>)
    ensures
        counts_le(s.counts, spec_train_line(s, text, spans).counts),
        s.noun_count <= spec_train_line(s, text, spans).noun_count,
        s.other_count <= spec_train_line(s, text, spans).other_count,
{
    if text.len() > 0 {
        lemma_train_from_grows(s, text.push('\n'), spans, 1, initial_span_index(spans));
    }
}

} // verus!
