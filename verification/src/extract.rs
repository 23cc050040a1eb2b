//! The extraction engine's combinatorial core: lines are cut into maximal
//! runs of word characters, every candidate/suffix split inside a run is
//! counted, and each split is joined with the gated counting-store evidence
//! that the scoring formulas read.

use crate::chars::{char_alphanumeric, char_whitespace, chars_to_string, spec_alphanumeric,
    spec_whitespace, str_chars};
use crate::model::{gated, State, SuffixEvidence, MAX_POSTFIX_SIZE};
use crate::score::{fresh_score, sat_add32, Score, ScoreV};
use crate::serve::ScoreTable;
use crate::store::{entries_to_map, lemma_entries_index, lemma_entries_map_len, store_entries,
    unique_keys, Store, StoreImpl, StoreKey};
use vstd::prelude::*;

verus! {

/// A character that can stand inside a word candidate: not whitespace, and
/// either alphanumeric or inside the Hangul compatibility-jamo-to-syllable
/// range.
pub open spec fn spec_word_char(c: char) -> bool {
    !spec_whitespace(c) && (spec_alphanumeric(c) || (0x3131 <= c as u32 && c as u32 <= 0xD7A3))
}

/// Decides `spec_word_char`.
pub fn word_char(c: char) -> (r: bool)
    ensures
        r == spec_word_char(c),
{
    let u = c as u32;
    !char_whitespace(c) && (char_alphanumeric(c) || (0x3131 <= u && u <= 0xD7A3))
}

/// A word together with how many of its trailing characters are the suffix.
pub struct WordKey {
    pub word: String,
    pub suffix_len: usize,
}

impl View for WordKey {
    type V = (Seq<char>, int);

    open spec fn view(&self) -> (Seq<char>, int) {
        (self.word@, self.suffix_len as int)
    }
}

impl StoreKey for WordKey {
    fn key_eq(&self, other: &Self) -> (r: bool) {
        self.suffix_len == other.suffix_len && self.word.eq(&other.word)
    }
}

/// Saturating word-count increment.
pub open spec fn sat1_u32(x: u32) -> u32 {
    if x == u32::MAX {
        x
    } else {
        (x + 1) as u32
    }
}

/// The count a word map holds, zero when absent.
pub open spec fn word_count_at(m: Map<(Seq<char>, int), u32>, k: (Seq<char>, int)) -> u32 {
    if m.contains_key(k) {
        m[k]
    } else {
        0
    }
}

/// One more occurrence of one word/suffix split.
pub open spec fn record_word(m: Map<(Seq<char>, int), u32>, k: (Seq<char>, int)) -> Map<
    (Seq<char>, int),
    u32,
> {
    m.insert(k, sat1_u32(word_count_at(m, k)))
}

/// One past the largest suffix length available at position `i`.
pub open spec fn word_window_limit(len: int, i: int) -> int {
    if len - i - 1 < MAX_POSTFIX_SIZE as int {
        len - i - 1
    } else {
        MAX_POSTFIX_SIZE as int
    }
}

/// The word map after recording, at position `i` of a run starting at
/// `start`, every split with suffix length `1 ..= j`.
pub open spec fn word_windows(
    m: Map<(Seq<char>, int), u32>,
    chars: Seq<char>,
    start: int,
    i: int,
    j: int,
) -> Map<(Seq<char>, int), u32>
    decreases j,
{
    if j < 1 {
        m
    } else {
        record_word(
            word_windows(m, chars, start, i, j - 1),
            (chars.subrange(start, i + 1 + j), j),
        )
    }
}

/// The word map after walking a line from position `i` on, with `start` the
/// beginning of the current run of word characters.
pub open spec fn collect_from(
    m: Map<(Seq<char>, int), u32>,
    chars: Seq<char>,
    i: int,
    start: int,
) -> Map<(Seq<char>, int), u32>
    decreases chars.len() - i,
{
    if i < 0 || i >= chars.len() {
        m
    } else if !spec_word_char(chars[i]) {
        collect_from(m, chars, i + 1, i + 1)
    } else {
        collect_from(
            word_windows(m, chars, start, i, word_window_limit(chars.len() as int, i) - 1),
            chars,
            i + 1,
            start,
        )
    }
}

/// The word map a single line contributes: a sentinel is appended and the
/// line is walked from its first character.
pub open spec fn collect_line(m: Map<(Seq<char>, int), u32>, line: Seq<char>) -> Map<
    (Seq<char>, int),
    u32,
> {
    collect_from(m, line.push('\n'), 0, 0)
}

/// Collects one line of text into the word map.
pub fn collect_words_line(words: &mut StoreImpl<WordKey, u32>, line: &str)
    requires
        old(words).inv(),
    ensures
        final(words).inv(),
        final(words).contents() == collect_line(old(words).contents(), line@),
{
    let mut chars = str_chars(line);
    chars.push('\n');
    let ghost cseq = line@.push('\n');
    let ghost m0 = words.contents();
    let n = chars.len();
    let mut start: usize = 0;
    let mut i: usize = 0;
    while i < n
        invariant
            i <= n,
            start <= i,
            n == cseq.len(),
            chars@ == cseq,
            words.inv(),
            m0 == old(words).contents(),
            collect_from(words.contents(), cseq, i as int, start as int) == collect_from(
                m0,
                cseq,
                0,
                0,
            ),
        decreases n - i,
    {
        if !word_char(chars[i]) {
            start = i + 1;
        } else {
            let limit = if n - i - 1 < MAX_POSTFIX_SIZE {
                n - i - 1
            } else {
                MAX_POSTFIX_SIZE
            };
            let ghost mpre = words.contents();
            let mut j: usize = 1;
            while j < limit
                invariant
                    1 <= j,
                    j <= limit || j == 1,
                    start <= i < n,
                    n == cseq.len(),
                    chars@ == cseq,
                    words.inv(),
                    limit == word_window_limit(cseq.len() as int, i as int),
                    words.contents() == word_windows(mpre, cseq, start as int, i as int, j - 1),
                decreases limit - j,
            {
                let w = chars_to_string(&chars, start, i + 1 + j);
                let key = WordKey { word: w, suffix_len: j };
                let c = match words.get(&key) {
                    Some(c) => c,
                    None => 0,
                };
                words.put(key, c.saturating_add(1));
                j = j + 1;
            }
            proof {
                assert(words.contents() == word_windows(
                    mpre,
                    cseq,
                    start as int,
                    i as int,
                    word_window_limit(cseq.len() as int, i as int) - 1,
                ));
            }
        }
        i = i + 1;
    }
}

/// The word map of a whole batch of lines; empty lines contribute nothing.
pub open spec fn collect_lines(
    m: Map<(Seq<char>, int), u32>,
    lines: Seq<Seq<char>>,
    i: int,
) -> Map<(Seq<char>, int), u32>
    decreases lines.len() - i,
{
    if i < 0 || i >= lines.len() {
        m
    } else {
        collect_lines(
            if lines[i].len() == 0 {
                m
            } else {
                collect_line(m, lines[i])
            },
            lines,
            i + 1,
        )
    }
}

/// Collects a whole batch of lines into one word map.
pub fn collect_words(lines: &Vec<String>) -> (r: StoreImpl<WordKey, u32>)
    ensures
        r.inv(),
        r.contents() == collect_lines(
            Map::<(Seq<char>, int), u32>::empty(),
            lines@.map_values(|s: String| s@),
            0,
        ),
{
    let ghost lviews = lines@.map_values(|s: String| s@);
    let mut words: StoreImpl<WordKey, u32> = StoreImpl::new();
    let n = lines.len();
    let mut i: usize = 0;
    while i < n
        invariant
            i <= n,
            n == lviews.len(),
            lviews == lines@.map_values(|s: String| s@),
            words.inv(),
            collect_lines(words.contents(), lviews, i as int) == collect_lines(
                Map::<(Seq<char>, int), u32>::empty(),
                lviews,
                0,
            ),
        decreases n - i,
    {
        let line = &lines[i];
        if !line.as_str().is_empty() {
            collect_words_line(&mut words, line.as_str());
        }
        i = i + 1;
    }
    words
}

/// Everything the scoring fold reads about one word/suffix split: the
/// candidate (the word less its suffix), the suffix itself, how often the
/// split occurred, and the gated store evidence behind it.
pub struct EvidenceRow {
    pub candidate: String,
    pub suffix: String,
    pub multiplicity: u32,
    pub evidence: SuffixEvidence,
}

/// How a row must relate to the word map and the model it was drawn from.
pub open spec fn row_ok(
    row: &EvidenceRow,
    wm: Map<(Seq<char>, int), u32>,
    m: crate::model::ModelSnap,
    min_evidence: u32,
) -> bool {
    let word = row.candidate@ + row.suffix@;
    let key = (word, row.suffix@.len() as int);
    &&& row.candidate@.len() >= 1
    &&& row.suffix@.len() >= 1
    &&& wm.contains_key(key)
    &&& row.multiplicity == wm[key]
    &&& row.evidence.with_char == gated(
        m.counts,
        crate::model::concrete_key(row.candidate@.last(), row.suffix@),
        min_evidence,
    )
    &&& row.evidence.wildcard == gated(
        m.counts,
        crate::model::wildcard_key(row.candidate@.last(), row.suffix@),
        min_evidence,
    )
    &&& row.evidence.noun_total == m.noun_count
    &&& row.evidence.other_total == m.other_count
}

/// Every key a collection pass records splits a word of at least two
/// characters behind a non-empty suffix.
pub open spec fn word_key_wf(k: (Seq<char>, int)) -> bool {
    1 <= k.1 < k.0.len()
}

/// All keys of a map are well-formed splits.
pub open spec fn word_map_wf(m: Map<(Seq<char>, int), u32>) -> bool {
    forall|k: (Seq<char>, int)| m.contains_key(k) ==> #[trigger] word_key_wf(k)
}

proof fn lemma_word_windows_wf(
    m: Map<(Seq<char>, int), u32>,
    chars: Seq<char>,
    start: int,
    i: int,
    j: int,
)
    requires
        word_map_wf(m),
        0 <= start <= i,
        i + 1 + j <= chars.len(),
    ensures
        word_map_wf(word_windows(m, chars, start, i, j)),
    decreases j,
{
    if j >= 1 {
        lemma_word_windows_wf(m, chars, start, i, j - 1);
        assert(word_key_wf((chars.subrange(start, i + 1 + j), j)));
    }
}

proof fn lemma_collect_from_wf(m: Map<(Seq<char>, int), u32>, chars: Seq<char>, i: int, start: int)
    requires
        word_map_wf(m),
        0 <= start <= i,
    ensures
        word_map_wf(collect_from(m, chars, i, start)),
    decreases chars.len() - i,
{
    if 0 <= i < chars.len() {
        if !spec_word_char(chars[i]) {
            lemma_collect_from_wf(m, chars, i + 1, i + 1);
        } else {
            lemma_word_windows_wf(
                m,
                chars,
                start,
                i,
                word_window_limit(chars.len() as int, i) - 1,
            );
            lemma_collect_from_wf(
                word_windows(m, chars, start, i, word_window_limit(chars.len() as int, i) - 1),
                chars,
                i + 1,
                start,
            );
        }
    }
}

/// Whatever a collection pass builds, its keys are well-formed splits.
pub proof fn lemma_collect_lines_wf(
    m: Map<(Seq<char>, int), u32>,
    lines: Seq<Seq<char>>,
    i: int,
)
    requires
        word_map_wf(m),
    ensures
        word_map_wf(collect_lines(m, lines, i)),
    decreases lines.len() - i,
{
    if 0 <= i < lines.len() {
        if lines[i].len() == 0 {
            lemma_collect_lines_wf(m, lines, i + 1);
        } else {
            lemma_collect_from_wf(m, lines[i].push('\n'), 0, 0);
            lemma_collect_lines_wf(collect_line(m, lines[i]), lines, i + 1);
        }
    }
}

/// Joins every split of a collected word map with the model evidence behind
/// it: one row per key, in store order, each row exact as `row_ok` says.
pub fn evidence_rows(model: &State, words: &StoreImpl<WordKey, u32>, min_evidence: u32) -> (r: Vec<
    EvidenceRow,
>)
    requires
        model.inv(),
        words.inv(),
        word_map_wf(words.contents()),
    ensures
        r@.len() == words.contents().dom().len(),
        r@.len() == words.entry_views().len(),
        forall|i: int|
            0 <= i < r@.len() ==> row_ok(&r@[i], words.contents(), model@, min_evidence),
        forall|i: int|
            0 <= i < r@.len() ==> ((#[trigger] r@[i]).candidate@ + r@[i].suffix@,
                r@[i].suffix@.len() as int) == words.entry_views()[i].0 && r@[i].multiplicity
                == words.entry_views()[i].1,
        forall|i: int, j: int|
            0 <= i < j < r@.len() ==> (r@[i].candidate@ + r@[i].suffix@, r@[i].suffix@.len() as int)
                != (r@[j].candidate@ + r@[j].suffix@, r@[j].suffix@.len() as int),
{
    let entries = words.entries();
    let ghost evs = store_entries(entries@);
    let ghost wm = words.contents();
    proof {
        lemma_entries_map_len(evs);
    }
    let n = entries.len();
    let mut r: Vec<EvidenceRow> = Vec::new();
    let mut i: usize = 0;
    while i < n
        invariant
            i <= n,
            n == entries@.len(),
            evs == store_entries(entries@),
            evs == words.entry_views(),
            unique_keys(evs),
            entries_to_map(evs) == wm,
            wm == words.contents(),
            model.inv(),
            word_map_wf(wm),
            r@.len() == i,
            forall|k: int| 0 <= k < i ==> row_ok(&r@[k], wm, model@, min_evidence),
            forall|k: int|
                0 <= k < i ==> (#[trigger] r@[k].candidate@ + r@[k].suffix@,
                    r@[k].suffix@.len() as int) == evs[k].0 && r@[k].multiplicity == evs[k].1,
        decreases n - i,
    {
        let (key, count) = &entries[i];
        proof {
            lemma_entries_index(evs, i as int);
            assert(wm.contains_key(key@));
            assert(word_key_wf(key@));
        }
        let wchars = str_chars(key.word.as_str());
        let wlen = wchars.len();
        let sl = key.suffix_len;
        let candidate = chars_to_string(&wchars, 0, wlen - sl);
        let suffix = chars_to_string(&wchars, wlen - sl, wlen);
        let last_char = wchars[wlen - sl - 1];
        let evidence = model.suffix_evidence(last_char, suffix.as_str(), min_evidence);
        let row = EvidenceRow { candidate, suffix, multiplicity: *count, evidence };
        proof {
            assert(row.candidate@ + row.suffix@ =~= key.word@);
            assert(row.candidate@.last() == last_char);
            assert(row_ok(&row, wm, model@, min_evidence));
        }
        r.push(row);
        i = i + 1;
    }
    proof {
        assert forall|a: int, b: int| 0 <= a < b < r@.len() implies (
        #[trigger] r@[a].candidate@ + r@[a].suffix@, r@[a].suffix@.len() as int) != (
        #[trigger] r@[b].candidate@ + r@[b].suffix@, r@[b].suffix@.len() as int) by {
            assert(evs[a].0 != evs[b].0);
        }
    }
    r
}

/// One scored observation of a candidate/suffix split, ready to fold: how
/// often it occurred, and whether its evidence was informative (a decision
/// the statistical strategy makes from the evidence).
pub struct SplitObservation {
    pub candidate: String,
    pub suffix: String,
    pub multiplicity: u32,
    pub informative: bool,
}

/// The view of one split observation.
pub open spec fn split_view(o: &SplitObservation) -> (Seq<char>, Seq<char>, u32, bool) {
    (o.candidate@, o.suffix@, o.multiplicity, o.informative)
}

/// The views of a batch of split observations.
pub open spec fn split_views(s: Seq<SplitObservation>) -> Seq<(Seq<char>, Seq<char>, u32, bool)> {
    s.map_values(|o: SplitObservation| (o.candidate@, o.suffix@, o.multiplicity, o.informative))
}

/// One observation folded into the per-candidate table: its count grows by
/// the multiplicity, and an informative one-character suffix joins the
/// candidate's diversity set. The probability is left for the strategy.
pub open spec fn acc_step(
    m: Map<Seq<char>, ScoreV>,
    o: (Seq<char>, Seq<char>, u32, bool),
) -> Map<Seq<char>, ScoreV> {
    let prev = if m.contains_key(o.0) {
        m[o.0]
    } else {
        fresh_score()
    };
    m.insert(
        o.0,
        ScoreV {
            noun_probability: prev.noun_probability,
            count: sat_add32(prev.count as int, o.2 as int) as u32,
            unique_suffixes: if o.3 && o.1.len() == 1 {
                prev.unique_suffixes.insert(o.1)
            } else {
                prev.unique_suffixes
            },
        },
    )
}

/// The whole batch folded, in order.
pub open spec fn acc_all(
    m: Map<Seq<char>, ScoreV>,
    os: Seq<(Seq<char>, Seq<char>, u32, bool)>,
    i: int,
) -> Map<Seq<char>, ScoreV>
    decreases os.len() - i,
{
    if i < 0 || i >= os.len() {
        m
    } else {
        acc_all(acc_step(m, os[i]), os, i + 1)
    }
}

/// Folds a batch of split observations into one score per candidate, as
/// `acc_all` says: counts add up per candidate, informative one-character
/// suffixes accumulate as its diversity set, and every probability is left
/// at one for the statistical strategy to fill in.
pub fn accumulate_candidates(observations: Vec<SplitObservation>) -> (r: ScoreTable)
    ensures
        r.inv(),
        r@ == acc_all(Map::<Seq<char>, ScoreV>::empty(), split_views(observations@), 0),
{
    let ghost ovs = split_views(observations@);
    let n = observations.len();
    let mut work = observations;
    let mut table = ScoreTable::new();
    let mut i: usize = 0;
    while i < n
        invariant
            i <= n,
            n == ovs.len(),
            work@.len() == n - i,
            split_views(work@) == ovs.subrange(i as int, n as int),
            table.inv(),
            acc_all(table@, ovs, i as int) == acc_all(
                Map::<Seq<char>, ScoreV>::empty(),
                ovs,
                0,
            ),
        decreases n - i,
    {
        let ghost pw = work@;
        let ghost pre = table@;
        let o = work.remove(0);
        proof {
            assert(split_views(pw)[0] == split_view(&pw[0]));
            assert(ovs.subrange(i as int, n as int)[0] == ovs[i as int]);
            assert forall|j: int| 0 <= j < work@.len() implies #[trigger] split_views(work@)[j]
                == ovs.subrange(i + 1, n as int)[j] by {
                assert(work@[j] == pw[j + 1]);
                assert(split_views(pw)[j + 1] == split_view(&pw[j + 1]));
                assert(ovs.subrange(i as int, n as int)[j + 1] == ovs[i + 1 + j]);
            }
            assert(split_views(work@) =~= ovs.subrange(i + 1, n as int));
        }
        let mut score: Score = match table.get(&o.candidate) {
            Some(prev) => Score::new(
                prev.noun_probability,
                prev.count,
                prev.unique_suffixes.duplicate(),
            ),
            None => Score::default(),
        };
        score.count = score.count.saturating_add(o.multiplicity);
        if o.informative && o.suffix.as_str().unicode_len() == 1 {
            score.unique_suffixes.insert(o.suffix);
        }
        proof {
            assert(score@ == acc_step(pre, ovs[i as int])[ovs[i as int].0]);
        }
        table.put(o.candidate, score);
        proof {
            assert(table@ =~= acc_step(pre, ovs[i as int]));
        }
        i = i + 1;
    }
    table
}

/// One more occurrence of a candidate.
pub open spec fn record_candidate(m: Map<Seq<char>, u32>, c: Seq<char>) -> Map<Seq<char>, u32> {
    m.insert(
        c,
        sat1_u32(
            if m.contains_key(c) {
                m[c]
            } else {
                0
            },
        ),
    )
}

/// The candidate occurrence counts after walking a line from position `i`
/// on: every position inside a run counts the run prefix ending there once,
/// whether or not any suffix window follows it.
pub open spec fn candidates_from(
    m: Map<Seq<char>, u32>,
    chars: Seq<char>,
    i: int,
    start: int,
) -> Map<Seq<char>, u32>
    decreases chars.len() - i,
{
    if i < 0 || i >= chars.len() {
        m
    } else if !spec_word_char(chars[i]) {
        candidates_from(m, chars, i + 1, i + 1)
    } else {
        candidates_from(record_candidate(m, chars.subrange(start, i + 1)), chars, i + 1, start)
    }
}

/// The candidate counts one line contributes.
pub open spec fn candidates_line(m: Map<Seq<char>, u32>, line: Seq<char>) -> Map<Seq<char>, u32> {
    candidates_from(m, line.push('\n'), 0, 0)
}

/// The candidate counts of a whole batch of lines.
pub open spec fn candidates_lines(
    m: Map<Seq<char>, u32>,
    lines: Seq<Seq<char>>,
    i: int,
) -> Map<Seq<char>, u32>
    decreases lines.len() - i,
{
    if i < 0 || i >= lines.len() {
        m
    } else {
        candidates_lines(
            if lines[i].len() == 0 {
                m
            } else {
                candidates_line(m, lines[i])
            },
            lines,
            i + 1,
        )
    }
}

/// Counts, over a whole batch of lines, how often each candidate occurs:
/// once per character position inside a run of word characters, as the
/// per-position extraction strategy counts them.
pub fn collect_candidates(lines: &Vec<String>) -> (r: StoreImpl<String, u32>)
    ensures
        r.inv(),
        r.contents() == candidates_lines(
            Map::<Seq<char>, u32>::empty(),
            lines@.map_values(|s: String| s@),
            0,
        ),
{
    let ghost lviews = lines@.map_values(|s: String| s@);
    let mut cands: StoreImpl<String, u32> = StoreImpl::new();
    let n = lines.len();
    let mut i: usize = 0;
    while i < n
        invariant
            i <= n,
            n == lviews.len(),
            lviews == lines@.map_values(|s: String| s@),
            cands.inv(),
            candidates_lines(cands.contents(), lviews, i as int) == candidates_lines(
                Map::<Seq<char>, u32>::empty(),
                lviews,
                0,
            ),
        decreases n - i,
    {
        let line = &lines[i];
        if !line.as_str().is_empty() {
            collect_candidates_line(&mut cands, line.as_str());
        }
        i = i + 1;
    }
    cands
}

fn collect_candidates_line(cands: &mut StoreImpl<String, u32>, line: &str)
    requires
        old(cands).inv(),
    ensures
        final(cands).inv(),
        final(cands).contents() == candidates_line(old(cands).contents(), line@),
{
    let mut chars = str_chars(line);
    chars.push('\n');
    let ghost cseq = line@.push('\n');
    let ghost m0 = cands.contents();
    let n = chars.len();
    let mut start: usize = 0;
    let mut i: usize = 0;
    while i < n
        invariant
            i <= n,
            start <= i,
            n == cseq.len(),
            chars@ == cseq,
            cands.inv(),
            m0 == old(cands).contents(),
            candidates_from(cands.contents(), cseq, i as int, start as int) == candidates_from(
                m0,
                cseq,
                0,
                0,
            ),
        decreases n - i,
    {
        if !word_char(chars[i]) {
            start = i + 1;
        } else {
            let key = chars_to_string(&chars, start, i + 1);
            let c = match cands.get(&key) {
                Some(c) => c,
                None => 0,
            };
            cands.put(key, c.saturating_add(1));
        }
        i = i + 1;
    }
}

} // verus!
