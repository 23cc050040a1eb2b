//! Batch training from a newline-delimited dataset. Each non-empty line is a
//! JSON 2-tuple of a text and its noun spans; the model is trained on every
//! line in order, and an unparseable line aborts the batch, leaving the lines
//! before it trained.

use crate::analytics::split_by;
use crate::model::{spec_train_line, ModelSnap, State};
use crate::strset::str_views;
use vstd::prelude::*;

verus! {

/// A dataset line could not be read.
#[derive(Clone, Copy, PartialEq, Eq, Debug)]
pub enum TrainError {
    /// The line is not a JSON 2-tuple of a text and its spans.
    MalformedInput,
}

/// The deserialization error of the JSON reader, carried through its wrapper.
#[verifier::external_type_specification]
#[verifier::external_body]
pub struct ExJsonError(serde_json::Error);

/// What the JSON reader makes of one dataset line: the text and the span
/// list when the line is a well-formed 2-tuple, and nothing otherwise. It
/// depends on the characters of the line alone.
pub uninterp spec fn dataset_line_of(s: Seq<char>) -> Option<(Seq<char>, Seq<(u32, u32)>)>;

/// Relies on `serde_json::from_str`: reads one dataset line as a JSON
/// 2-tuple `[text, [[offset, length], ...]]`, failing exactly when the line
/// does not have that structure.
#[verifier::external_body]
fn parse_dataset_line(line: &str) -> (r: Result<(String, Vec<(u32, u32)>), serde_json::Error>)
    ensures
        r is Ok <==> dataset_line_of(line@) is Some,
        match r {
            Ok(parsed) => dataset_line_of(line@) == Some((parsed.0@, parsed.1@)),
            Err(_) => true,
        },
{
    serde_json::from_str(line)
}

/// Whether a line stops a training batch: non-empty and unreadable.
pub open spec fn line_bad(line: Seq<char>) -> bool {
    line.len() > 0 && dataset_line_of(line) is None
}

/// The first batch-stopping line at or after `i`, or the line count.
pub open spec fn first_bad(lines: Seq<Seq<char>>, i: int) -> int
    decreases lines.len() - i,
{
    if i < 0 || i >= lines.len() {
        lines.len() as int
    } else if line_bad(lines[i]) {
        i
    } else {
        first_bad(lines, i + 1)
    }
}

/// One line's effect on the model: empty lines train nothing.
pub open spec fn line_step(s: ModelSnap, line: Seq<char>) -> ModelSnap {
    if line.len() == 0 {
        s
    } else {
        match dataset_line_of(line) {
            Some(d) => spec_train_line(s, d.0, d.1),
            None => s,
        }
    }
}

/// The model after training on the lines `i ..< end`, in order.
pub open spec fn train_prefix(s: ModelSnap, lines: Seq<Seq<char>>, i: int, end: int) -> ModelSnap
    decreases end - i,
{
    if i >= end {
        s
    } else {
        train_prefix(line_step(s, lines[i]), lines, i + 1, end)
    }
}

proof fn lemma_first_bad_skip(lines: Seq<Seq<char>>, a: int, b: int)
    requires
        0 <= a <= b <= lines.len(),
        forall|t: int| a <= t < b ==> !line_bad(#[trigger] lines[t]),
    ensures
        first_bad(lines, a) == first_bad(lines, b),
    decreases b - a,
{
    if a < b {
        lemma_first_bad_skip(lines, a + 1, b);
    }
}

impl State {
    /// Trains on a whole newline-delimited dataset: every line up to the
    /// first unreadable one is trained in order; a dataset without
    /// unreadable lines trains completely and returns `Ok`.
    pub fn train(&mut self, dataset: &str) -> (r: Result<(), TrainError>)
        requires
            old(self).inv(),
        ensures
            final(self).inv(),
            final(self)@ == train_prefix(
                old(self)@,
                split_by(dataset@, '\n'),
                0,
                first_bad(split_by(dataset@, '\n'), 0),
            ),
            r is Ok <==> first_bad(split_by(dataset@, '\n'), 0) == split_by(
                dataset@,
                '\n',
            ).len() as int,
    {
        let lines = crate::analytics::split_string(dataset, '\n');
        let ghost lviews = split_by(dataset@, '\n');
        let n = lines.len();
        let mut i: usize = 0;
        while i < n
            invariant
                i <= n,
                n == lviews.len(),
                lviews == split_by(dataset@, '\n'),
                str_views(lines@) == lviews,
                self.inv(),
                forall|t: int| 0 <= t < i ==> !line_bad(#[trigger] lviews[t]),
                self@ == train_prefix(old(self)@, lviews, 0, i as int),
            decreases n - i,
        {
            proof {
                assert(str_views(lines@)[i as int] == lines@[i as int]@);
            }
            let line = &lines[i];
            let ghost pre = self@;
            if !line.as_str().is_empty() {
                match parse_dataset_line(line.as_str()) {
                    Ok((text, spans)) => {
                        self.train_line(text.as_str(), spans.as_slice());
                    },
                    Err(_) => {
                        proof {
                            lemma_first_bad_skip(lviews, 0, i as int);
                            assert(first_bad(lviews, 0) == i as int);
                        }
                        return Err(TrainError::MalformedInput);
                    },
                }
            }
            proof {
                assert(self@ == line_step(pre, lviews[i as int]));
                lemma_train_prefix_snoc(old(self)@, lviews, 0, i as int);
            }
            i = i + 1;
        }
        proof {
            lemma_first_bad_skip(lviews, 0, n as int);
        }
        Ok(())
    }
}

/// Extending a training prefix by one line trains that line last.
proof fn lemma_train_prefix_snoc(s: ModelSnap, lines: Seq<Seq<char>>, i: int, end: int)
    requires
        0 <= i <= end < lines.len(),
    ensures
        train_prefix(s, lines, i, end + 1) == line_step(train_prefix(s, lines, i, end), lines[end]),
    decreases end - i,
{
    if i < end {
        lemma_train_prefix_snoc(line_step(s, lines[i]), lines, i + 1, end);
    } else {
        assert(train_prefix(s, lines, i, end + 1) == train_prefix(
            line_step(s, lines[i]),
            lines,
            i + 1,
            end + 1,
        ));
        assert(train_prefix(line_step(s, lines[i]), lines, i + 1, end + 1) == line_step(
            s,
            lines[i],
        ));
        assert(train_prefix(s, lines, i, end) == s);
    }
}

} // verus!
