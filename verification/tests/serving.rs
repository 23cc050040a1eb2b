use noun_extractor::score::{Prob, Score};
use noun_extractor::serve::{ConfigError, State, Thresholds};
use noun_extractor::strset::StrSet;

fn thresholds(num: u32, den: u32, count: u32, unique: u32) -> Thresholds {
    Thresholds {
        noun_probability: Prob::new(num, den).unwrap(),
        count,
        unique_suffixes: unique,
    }
}

fn scored(prob_num: u32, prob_den: u32, count: u32, suffixes: &[&str]) -> Score {
    let mut set = StrSet::new();
    for s in suffixes {
        set.insert((*s).to_string());
    }
    Score::new(Prob::new(prob_num, prob_den).unwrap(), count, set)
}

#[test]
fn promoting_the_same_batch_twice_is_idempotent_in_membership_but_doubles_count() {
    let mut state = State::new(thresholds(9, 10, 5, 1));
    let batch = || vec![("톩톩".to_string(), scored(95, 100, 5, &["이"]))];
    let promoted = state.merge_and_promote(batch());
    assert_eq!(promoted, 1);
    assert!(state.is_accepted(&"톩톩".to_string()));
    assert_eq!(state.score(&"톩톩".to_string()).unwrap().count, 5);
    // the same batch again: membership is unchanged, the count doubles
    let promoted = state.merge_and_promote(batch());
    assert_eq!(promoted, 1);
    assert!(state.is_accepted(&"톩톩".to_string()));
    assert_eq!(state.score(&"톩톩".to_string()).unwrap().count, 10);
    assert_eq!(state.nouns(), vec!["톩톩".to_string()]);
}

#[test]
fn a_candidate_below_any_threshold_is_not_promoted() {
    let mut state = State::new(thresholds(9, 10, 5, 1));
    let low_prob = vec![("가".to_string(), scored(1, 2, 9, &["이"]))];
    let low_count = vec![("나".to_string(), scored(95, 100, 4, &["이"]))];
    let low_diversity = vec![("다".to_string(), scored(95, 100, 9, &[]))];
    assert_eq!(state.merge_and_promote(low_prob), 0);
    assert_eq!(state.merge_and_promote(low_count), 0);
    assert_eq!(state.merge_and_promote(low_diversity), 0);
    assert_eq!(state.nouns().len(), 0);
    // the scores are persisted all the same: history is never lost
    assert_eq!(state.score(&"가".to_string()).unwrap().count, 9);
}

#[test]
fn weak_new_evidence_demotes_a_previously_accepted_candidate() {
    let mut state = State::new(thresholds(9, 10, 5, 1));
    let strong = vec![("톩".to_string(), scored(95, 100, 5, &["이"]))];
    assert_eq!(state.merge_and_promote(strong), 1);
    assert!(state.is_accepted(&"톩".to_string()));
    // odds(5/100) undoes odds(95/100): the merged probability is one half
    let weak = vec![("톩".to_string(), scored(5, 100, 1, &["가"]))];
    assert_eq!(state.merge_and_promote(weak), 0);
    assert!(!state.is_accepted(&"톩".to_string()));
    // the merged score still accumulated
    let s = state.score(&"톩".to_string()).unwrap();
    assert_eq!(s.count, 6);
    assert_eq!(s.unique_suffixes.len(), 2);
}

#[test]
fn thresholds_are_validated_at_the_configuration_boundary() {
    let mut state = State::new(thresholds(9, 10, 30, 5));
    assert_eq!(
        state.set_thresholds(11, 10, 30, 5),
        Err(ConfigError::InvalidProbability)
    );
    assert_eq!(state.set_thresholds(1, 0, 30, 5), Err(ConfigError::InvalidProbability));
    assert_eq!(state.set_thresholds(8, 10, 10, 4), Ok(()));
    // the new thresholds take effect on the next batch
    let batch = vec![("가나".to_string(), scored(85, 100, 10, &["이", "가", "는", "을"]))];
    assert_eq!(state.merge_and_promote(batch), 1);
}

#[test]
fn score_lookup_reports_absence() {
    let state = State::new(thresholds(9, 10, 30, 5));
    assert!(state.score(&"없음".to_string()).is_none());
}
