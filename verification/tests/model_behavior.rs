use noun_extractor::model::{Count, State, Suffix};

#[test]
fn it_has_support() {
    assert_eq!(noun_extractor::has_support('가'), false);
    assert_eq!(noun_extractor::has_support('갘'), true);
    assert_eq!(noun_extractor::has_support('히'), false);
    assert_eq!(noun_extractor::has_support('힣'), true);
    assert_eq!(noun_extractor::has_support('1'), false);
    assert_eq!(noun_extractor::has_support(' '), false);
    assert_eq!(noun_extractor::has_support('Z'), false);
}

#[test]
fn model2_it_has_support() {
    assert_eq!(noun_extractor::has_support('가'), false);
    assert_eq!(noun_extractor::has_support('갘'), true);
    assert_eq!(noun_extractor::has_support('히'), false);
    assert_eq!(noun_extractor::has_support('힣'), true);
    assert_eq!(noun_extractor::has_support('1'), false);
    assert_eq!(noun_extractor::has_support(' '), false);
    assert_eq!(noun_extractor::has_support('Z'), false);
}

#[test]
fn observe_writes_concrete_and_wildcard_keys() {
    let mut state = State::new();
    state.observe_postnoun('가', "테스트1".to_string());
    state.observe_postother('가', "테스트1".to_string());
    state.observe_postnoun('가', "테스트2".to_string());
    assert_eq!(state.noun_count(), 2);
    assert_eq!(state.other_count(), 1);
    let concrete = Suffix::concrete_for('가', "테스트1".to_string());
    assert_eq!(
        state.get_count(&concrete),
        Some(Count { postnoun: 1, postother: 1 })
    );
    let wildcard = Suffix::wildcard_for('가', "테스트1".to_string());
    assert_eq!(
        state.get_count(&wildcard),
        Some(Count { postnoun: 1, postother: 1 })
    );
    let concrete2 = Suffix::concrete_for('가', "테스트2".to_string());
    assert_eq!(
        state.get_count(&concrete2),
        Some(Count { postnoun: 1, postother: 0 })
    );
    let absent = Suffix::concrete_for('나', "테스트1".to_string());
    assert_eq!(state.get_count(&absent), None);
}

#[test]
fn wildcard_context_observation_counts_the_shared_key_twice() {
    // the wildcard key of a NUL trailing character is the concrete key itself
    let mut state = State::new();
    state.observe_postother('\0', "가".to_string());
    let key = Suffix::wildcard_for('\0', "가".to_string());
    assert_eq!(state.get_count(&key), Some(Count { postnoun: 0, postother: 2 }));
}

#[test]
fn train_single_line_without_spans_counts_only_other_boundaries() {
    // one line, no noun spans: every boundary classifies as "other"; the
    // global tally grows once per boundary, sentinel included, and no
    // noun-side counter moves
    let mut state = State::new();
    state.train_line("가나다가", &[]);
    assert_eq!(state.other_count(), 4);
    assert_eq!(state.noun_count(), 0);
    let k = Suffix::concrete_for('가', "나".to_string());
    assert_eq!(state.get_count(&k), Some(Count { postnoun: 0, postother: 1 }));
    let k = Suffix::concrete_for('가', "나다".to_string());
    assert_eq!(state.get_count(&k), Some(Count { postnoun: 0, postother: 1 }));
    let k = Suffix::concrete_for('나', "다가".to_string());
    assert_eq!(state.get_count(&k), Some(Count { postnoun: 0, postother: 1 }));
    let k = Suffix::concrete_for('다', "가".to_string());
    assert_eq!(state.get_count(&k), Some(Count { postnoun: 0, postother: 1 }));
    // the boundary before the sentinel has no window left to record
    let k = Suffix::concrete_for('가', "\n".to_string());
    assert_eq!(state.get_count(&k), None);
}

#[test]
fn train_line_with_span_counts_noun_boundary() {
    // span (0, 2) ends at boundary 2: that boundary is noun-final
    let mut state = State::new();
    state.train_line("가나다가", &[(0, 2)]);
    assert_eq!(state.noun_count(), 1);
    assert_eq!(state.other_count(), 3);
    let k = Suffix::concrete_for('나', "다".to_string());
    assert_eq!(state.get_count(&k), Some(Count { postnoun: 1, postother: 0 }));
}

#[test]
fn training_order_does_not_change_the_model() {
    let mut a = State::new();
    a.observe_postnoun('가', "나".to_string());
    a.observe_postother('다', "라".to_string());
    a.observe_postother('가', "나".to_string());
    let mut b = State::new();
    b.observe_postother('가', "나".to_string());
    b.observe_postnoun('가', "나".to_string());
    b.observe_postother('다', "라".to_string());
    assert_eq!(a.noun_count(), b.noun_count());
    assert_eq!(a.other_count(), b.other_count());
    for (c, s) in [('가', "나"), ('다', "라")] {
        let k = Suffix::concrete_for(c, s.to_string());
        assert_eq!(a.get_count(&k), b.get_count(&k));
        let k = Suffix::wildcard_for(c, s.to_string());
        assert_eq!(a.get_count(&k), b.get_count(&k));
    }
}

#[test]
fn empty_line_trains_nothing() {
    let mut state = State::new();
    state.train_line("", &[]);
    assert_eq!(state.other_count(), 0);
    assert_eq!(state.key_count(), 0);
}

#[test]
fn train_dataset_lines_in_file_order() {
    let mut state = State::new();
    let dataset = "[\"가나다가\", []]\n\n[\"가나\", [[0, 2]]]";
    assert!(state.train(dataset).is_ok());
    // four other boundaries from the first line, one more from the second
    assert_eq!(state.other_count(), 5);
    assert_eq!(state.noun_count(), 1);
}

#[test]
fn train_dataset_aborts_on_malformed_line_keeping_earlier_lines() {
    let mut state = State::new();
    let dataset = "[\"가나다가\", []]\nnot json";
    let r = state.train(dataset);
    assert_eq!(r, Err(noun_extractor::dataset::TrainError::MalformedInput));
    // the well-formed first line is already trained
    assert_eq!(state.other_count(), 4);
}

#[test]
fn below_minimum_evidence_is_not_a_valid_suffix() {
    let mut state = State::new();
    for _ in 0..249 {
        state.observe_postother('가', "나".to_string());
    }
    let k = Suffix::concrete_for('가', "나".to_string());
    assert!(!state.is_valid_suffix(&k));
    state.observe_postother('가', "나".to_string());
    assert!(state.is_valid_suffix(&k));
}
