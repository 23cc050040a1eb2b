use noun_extractor::score::{Prob, Score};
use noun_extractor::strset::StrSet;

#[test]
fn prob_new_validates_the_ratio() {
    assert!(Prob::new(1, 2).is_some());
    assert!(Prob::new(0, 1).is_some());
    assert!(Prob::new(3, 2).is_none());
    assert!(Prob::new(1, 0).is_none());
    assert!(Prob::new(1, 0x4000_0001).is_none());
}

#[test]
fn prob_merge_multiplies_odds_exactly() {
    // odds(1/2) = 1, odds(1/3) = 2; their product is 2, so the merge is 1/3
    let half = Prob::new(1, 2).unwrap();
    let third = Prob::new(1, 3).unwrap();
    let m = half.merge(&third);
    assert_eq!(m.numerator(), 1);
    assert_eq!(m.denominator(), 3);
}

#[test]
fn prob_merge_is_commutative() {
    let p = Prob::new(3, 7).unwrap();
    let q = Prob::new(2, 5).unwrap();
    let a = p.merge(&q);
    let b = q.merge(&p);
    assert_eq!(a.numerator(), b.numerator());
    assert_eq!(a.denominator(), b.denominator());
}

#[test]
fn prob_merge_is_associative_on_exact_ratios() {
    let p = Prob::new(1, 2).unwrap();
    let q = Prob::new(1, 3).unwrap();
    let r = Prob::new(2, 5).unwrap();
    let left = p.merge(&q).merge(&r);
    let right = p.merge(&q.merge(&r));
    assert_eq!(left.numerator(), right.numerator());
    assert_eq!(left.denominator(), right.denominator());
}

#[test]
fn certainty_against_impossibility_is_undefined_and_handled() {
    let zero = Prob::new(0, 1).unwrap();
    let one = Prob::new(1, 1).unwrap();
    let m = zero.merge(&one);
    assert!(m.nan());
    // an undefined value never clears a threshold, on either side
    let threshold = Prob::new(9, 10).unwrap();
    assert!(!m.at_least(&threshold));
    assert!(!threshold.at_least(&m));
    assert!(threshold.at_least(&threshold));
}

#[test]
fn score_merge_adds_counts_and_unites_suffixes() {
    let mut a = Score::new(Prob::new(9, 10).unwrap(), 5, StrSet::new());
    a.observe_suffix("이".to_string());
    a.observe_suffix("가".to_string());
    let mut b = Score::new(Prob::new(9, 10).unwrap(), 7, StrSet::new());
    b.observe_suffix("가".to_string());
    b.observe_suffix("는".to_string());
    a.merge(&b);
    assert_eq!(a.count, 12);
    assert_eq!(a.unique_suffixes.len(), 3);
    // odds(9/10) = 1/9 twice over: 1/81, so the merge is 81/82
    assert_eq!(a.noun_probability.numerator(), 81);
    assert_eq!(a.noun_probability.denominator(), 82);
}

#[test]
fn score_merge_saturates_counts() {
    let mut a = Score::new(Prob::new(1, 2).unwrap(), u32::MAX - 1, StrSet::new());
    let b = Score::new(Prob::new(1, 2).unwrap(), 5, StrSet::new());
    a.merge(&b);
    assert_eq!(a.count, u32::MAX);
}

#[test]
fn default_score_is_certainty_with_nothing_counted() {
    let s = Score::default();
    assert_eq!(s.noun_probability.numerator(), 1);
    assert_eq!(s.noun_probability.denominator(), 1);
    assert_eq!(s.count, 0);
    assert_eq!(s.unique_suffixes.len(), 0);
}

#[test]
fn observing_the_same_suffix_twice_keeps_diversity_exact() {
    let mut s = Score::default();
    s.observe_suffix("이".to_string());
    s.observe_suffix("이".to_string());
    assert_eq!(s.unique_suffixes.len(), 1);
}

#[test]
fn strset_merge_is_a_union_not_an_addition() {
    let mut a = StrSet::new();
    a.insert("가".to_string());
    a.insert("나".to_string());
    let mut b = StrSet::new();
    b.insert("나".to_string());
    b.insert("다".to_string());
    a.merge(&b);
    assert_eq!(a.len(), 3);
    assert!(a.contains(&"가".to_string()));
    assert!(a.contains(&"다".to_string()));
    a.remove(&"다".to_string());
    assert_eq!(a.len(), 2);
    assert!(!a.contains(&"다".to_string()));
}
