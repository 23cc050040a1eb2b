use noun_extractor::codec::{decode_model, decode_serving, encode_model, encode_serving};
use noun_extractor::model::{State, Suffix};
use noun_extractor::score::{Prob, Score};
use noun_extractor::strset::StrSet;

#[test]
fn snapshot_round_trip_reproduces_every_get() {
    let mut state = State::new();
    state.train_line("가나다가", &[(0, 2)]);
    state.observe_postnoun('힣', "테스트".to_string());
    state.observe_postother('a', "b".to_string());
    let bytes = encode_model(&state);
    let (entries, noun_count, other_count) = decode_model(&bytes).unwrap();
    let reopened = State::assemble(entries, noun_count, other_count);
    assert_eq!(reopened.noun_count(), state.noun_count());
    assert_eq!(reopened.other_count(), state.other_count());
    assert_eq!(reopened.key_count(), state.key_count());
    for (c, s) in [('가', "나"), ('나', "다"), ('힣', "테스트"), ('a', "b")] {
        let concrete = Suffix::concrete_for(c, s.to_string());
        assert_eq!(reopened.get_count(&concrete), state.get_count(&concrete));
        let wildcard = Suffix::wildcard_for(c, s.to_string());
        assert_eq!(reopened.get_count(&wildcard), state.get_count(&wildcard));
    }
}

#[test]
fn empty_model_round_trips() {
    let state = State::new();
    let bytes = encode_model(&state);
    let (entries, noun_count, other_count) = decode_model(&bytes).unwrap();
    assert_eq!(entries.len(), 0);
    assert_eq!(noun_count, 0);
    assert_eq!(other_count, 0);
}

#[test]
fn corrupt_snapshots_are_rejected() {
    assert!(decode_model(&Vec::new()).is_none());
    assert!(decode_model(&vec![0u8; 23]).is_none());
    let mut state = State::new();
    state.observe_postother('가', "나".to_string());
    let bytes = encode_model(&state);
    // truncation loses the last entry's bytes
    let truncated: Vec<u8> = bytes[..bytes.len() - 1].to_vec();
    assert!(decode_model(&truncated).is_none());
    // trailing garbage is rejected, not ignored
    let mut padded = bytes.clone();
    padded.push(0);
    assert!(decode_model(&padded).is_none());
}

#[test]
fn serving_snapshot_round_trips_scores_and_nouns_exactly() {
    let mut suffixes = StrSet::new();
    suffixes.insert("이".to_string());
    suffixes.insert("가".to_string());
    let score = Score::new(Prob::new(95, 100).unwrap(), 42, suffixes);
    let nan_score = Score::new(
        Prob::new(0, 1).unwrap().merge(&Prob::new(1, 1).unwrap()),
        7,
        StrSet::new(),
    );
    assert!(nan_score.noun_probability.nan());
    let entries = vec![("톩톩".to_string(), score), ("없음".to_string(), nan_score)];
    let nouns = vec!["톩톩".to_string()];
    let bytes = encode_serving(&entries, &nouns);
    let (decoded, decoded_nouns) = decode_serving(&bytes).unwrap();
    assert_eq!(decoded.len(), 2);
    assert_eq!(decoded[0].0, "톩톩");
    assert_eq!(decoded[0].1.count, 42);
    assert_eq!(decoded[0].1.noun_probability.numerator(), 95);
    assert_eq!(decoded[0].1.noun_probability.denominator(), 100);
    assert_eq!(decoded[0].1.unique_suffixes.len(), 2);
    assert!(decoded[0].1.unique_suffixes.contains(&"이".to_string()));
    assert!(decoded[1].1.noun_probability.nan());
    assert_eq!(decoded_nouns, nouns);
    // the decoded snapshot re-encodes to the same bytes
    assert_eq!(encode_serving(&decoded, &decoded_nouns), bytes);
}

#[test]
fn corrupt_serving_snapshots_are_rejected() {
    assert!(decode_serving(&vec![1u8; 4]).is_none());
    let bytes = encode_serving(&Vec::new(), &vec!["가".to_string()]);
    let truncated: Vec<u8> = bytes[..bytes.len() - 1].to_vec();
    assert!(decode_serving(&truncated).is_none());
}
