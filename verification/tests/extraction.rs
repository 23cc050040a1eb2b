use noun_extractor::extract::{accumulate_candidates, collect_candidates, collect_words,
    evidence_rows, SplitObservation};
use noun_extractor::store::Store;
use noun_extractor::model::{State, LARGE_NUMBER};
use noun_extractor::rank::{rank_candidates, Candidate};
use noun_extractor::score::{Prob, Score};
use noun_extractor::strset::StrSet;

#[test]
fn collecting_words_records_every_candidate_suffix_split() {
    let lines = vec!["가나다가".to_string()];
    let words = collect_words(&lines);
    let model = State::new();
    let rows = evidence_rows(&model, &words, LARGE_NUMBER);
    assert_eq!(rows.len(), 5);
    let mut seen: Vec<(String, String, u32)> = rows
        .iter()
        .map(|r| (r.candidate.clone(), r.suffix.clone(), r.multiplicity))
        .collect();
    seen.sort();
    let mut expected = vec![
        ("가".to_string(), "나".to_string(), 1),
        ("가".to_string(), "나다".to_string(), 1),
        ("가나".to_string(), "다".to_string(), 1),
        ("가나".to_string(), "다가".to_string(), 1),
        ("가나다".to_string(), "가".to_string(), 1),
    ];
    expected.sort();
    assert_eq!(seen, expected);
}

#[test]
fn non_word_characters_break_candidate_runs() {
    let lines = vec!["가나, 다라".to_string()];
    let words = collect_words(&lines);
    let model = State::new();
    let rows = evidence_rows(&model, &words, LARGE_NUMBER);
    // candidates grow only inside runs of word characters, though suffix
    // windows may run past the run's end
    for r in &rows {
        assert!(!r.candidate.contains(',') && !r.candidate.contains(' '));
    }
    assert_eq!(rows.len(), 5);
    assert!(rows.iter().any(|r| r.candidate == "다" && r.suffix == "라"));
    assert!(!rows.iter().any(|r| r.candidate.contains('다') && r.candidate.contains('가')));
}

#[test]
fn repeated_words_accumulate_multiplicity() {
    let lines = vec!["가나 가나".to_string()];
    let words = collect_words(&lines);
    let model = State::new();
    let rows = evidence_rows(&model, &words, LARGE_NUMBER);
    // the split 가|나 occurs once per occurrence of the word
    let row = rows
        .iter()
        .find(|r| r.candidate == "가" && r.suffix == "나")
        .unwrap();
    assert_eq!(row.multiplicity, 2);
}

#[test]
fn evidence_below_the_minimum_threshold_stays_uninformative() {
    // a candidate whose total suffix evidence never reaches the
    // minimum-evidence threshold receives no usable likelihood pair
    let mut model = State::new();
    for _ in 0..100 {
        model.train_line("가나다가", &[]);
    }
    let lines = vec!["가나다가".to_string()];
    let words = collect_words(&lines);
    let rows = evidence_rows(&model, &words, LARGE_NUMBER);
    for r in &rows {
        assert!(r.evidence.with_char.is_none());
        assert!(r.evidence.wildcard.is_none());
        assert_eq!(r.evidence.noun_total, 0);
        assert_eq!(r.evidence.other_total, 400);
    }
}

#[test]
fn evidence_above_the_minimum_threshold_is_reported() {
    let mut model = State::new();
    for _ in 0..LARGE_NUMBER {
        model.observe_postnoun('가', "나".to_string());
    }
    let ev = model.suffix_evidence('가', "나", LARGE_NUMBER);
    let with_char = ev.with_char.unwrap();
    assert_eq!(with_char.postnoun, LARGE_NUMBER);
    assert_eq!(with_char.postother, 0);
    assert!(ev.wildcard.is_some());
    assert_eq!(ev.noun_total, LARGE_NUMBER);
}

#[test]
fn accumulation_sums_counts_and_collects_informative_suffixes() {
    let observations = vec![
        SplitObservation {
            candidate: "가나".to_string(),
            suffix: "이".to_string(),
            multiplicity: 3,
            informative: true,
        },
        SplitObservation {
            candidate: "가나".to_string(),
            suffix: "로서".to_string(),
            multiplicity: 2,
            informative: true,
        },
        SplitObservation {
            candidate: "가나".to_string(),
            suffix: "가".to_string(),
            multiplicity: 1,
            informative: false,
        },
        SplitObservation {
            candidate: "다라".to_string(),
            suffix: "는".to_string(),
            multiplicity: 4,
            informative: true,
        },
    ];
    let table = accumulate_candidates(observations);
    let gana = table.get(&"가나".to_string()).unwrap();
    assert_eq!(gana.count, 6);
    // only the informative one-character suffix lands in the diversity set
    assert_eq!(gana.unique_suffixes.len(), 1);
    assert!(gana.unique_suffixes.contains(&"이".to_string()));
    let dara = table.get(&"다라".to_string()).unwrap();
    assert_eq!(dara.count, 4);
    assert_eq!(dara.unique_suffixes.len(), 1);
}

#[test]
fn candidates_are_counted_once_per_run_position() {
    let lines = vec!["가나 가나".to_string()];
    let cands = collect_candidates(&lines);
    assert_eq!(cands.get(&"가".to_string()), Some(2));
    assert_eq!(cands.get(&"가나".to_string()), Some(2));
    assert_eq!(cands.get(&"나".to_string()), None);
    assert_eq!(cands.len(), 2);
}

fn candidate(text: &str, rank: Option<i64>) -> Candidate {
    Candidate {
        text: text.to_string(),
        score: Score::new(Prob::new(1, 2).unwrap(), 1, StrSet::new()),
        rank,
    }
}

#[test]
fn ranking_is_descending_with_undefined_keys_last() {
    let items = vec![
        candidate("낮음", Some(5)),
        candidate("없음", None),
        candidate("높음", Some(100)),
    ];
    let ranked = rank_candidates(items);
    let order: Vec<&str> = ranked.iter().map(|c| c.text.as_str()).collect();
    assert_eq!(order, vec!["높음", "낮음", "없음"]);
}

#[test]
fn equal_rank_keys_keep_their_insertion_order() {
    let items = vec![
        candidate("첫째", Some(10)),
        candidate("둘째", Some(10)),
        candidate("사이", Some(50)),
        candidate("셋째", Some(10)),
    ];
    let ranked = rank_candidates(items);
    let order: Vec<&str> = ranked.iter().map(|c| c.text.as_str()).collect();
    assert_eq!(order, vec!["사이", "첫째", "둘째", "셋째"]);
}

#[test]
fn two_undefined_keys_keep_their_insertion_order() {
    let items = vec![candidate("하나", None), candidate("둘", None), candidate("셋", Some(1))];
    let ranked = rank_candidates(items);
    let order: Vec<&str> = ranked.iter().map(|c| c.text.as_str()).collect();
    assert_eq!(order, vec!["셋", "하나", "둘"]);
}
