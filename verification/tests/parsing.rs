use noun_extractor::analytics::{asterisk_as_none, mecab_csv_nnp_format, split_string, Analytics,
    ParseError};

#[test]
fn parse_reads_a_full_tagger_line() {
    let line = "세종시\tNNP,지명,F,세종시,Compound,*,*,세종+시,세종/NNP/*+시/NNG/*";
    let a = Analytics::parse(line).unwrap();
    assert_eq!(a.token, "세종시");
    assert_eq!(a.tags, vec!["NNP".to_string()]);
    assert_eq!(a.symantic_group, Some("지명".to_string()));
    assert_eq!(a.has_support, Some(false));
    assert_eq!(a.pronounce, Some("세종시".to_string()));
    assert_eq!(a.kind, Some("Compound".to_string()));
    assert_eq!(a.left_tag, None);
    assert_eq!(a.right_tag, None);
    let ms = a.morphemes.unwrap();
    assert_eq!(ms.len(), 2);
    assert_eq!(ms[0].token, "세종");
    assert_eq!(ms[0].tag, "NNP");
    assert_eq!(ms[1].token, "시");
    assert_eq!(ms[1].tag, "NNG");
}

#[test]
fn parse_reads_a_simple_line_without_detail_field() {
    let line = "안녕\tIC,*,T,안녕,*,*,*,*";
    let a = Analytics::parse(line).unwrap();
    assert_eq!(a.token, "안녕");
    assert_eq!(a.tags, vec!["IC".to_string()]);
    assert_eq!(a.symantic_group, None);
    assert_eq!(a.has_support, Some(true));
    assert_eq!(a.pronounce, Some("안녕".to_string()));
    assert_eq!(a.kind, None);
    assert!(a.morphemes.is_none());
}

#[test]
fn parse_rejects_lines_without_a_tab_or_with_missing_fields() {
    assert!(matches!(Analytics::parse("세종시"), Err(ParseError::Malformed)));
    assert!(Analytics::parse("세종시\tNNP,지명,F").is_err());
}

#[test]
fn parse_resolves_simple_morphemes_through_the_detail_field() {
    // the simple field has bare tokens; their tags come from the detail field
    let line = "한강\tNNP,지명,T,한강,Compound,*,*,한+강,한/NNP/*+강/NNG/*";
    let a = Analytics::parse(line).unwrap();
    let ms = a.morphemes.unwrap();
    assert_eq!(ms[0].tag, "NNP");
    assert_eq!(ms[1].tag, "NNG");
}

#[test]
fn parse_fails_when_a_simple_token_is_not_in_the_detail_field() {
    let line = "한강\tNNP,지명,T,한강,Compound,*,*,없음+강,한/NNP/*+강/NNG/*";
    assert!(Analytics::parse(line).is_err());
}

#[test]
fn asterisk_is_an_absent_feature() {
    assert_eq!(asterisk_as_none("*".to_string()), None);
    assert_eq!(asterisk_as_none("지명".to_string()), Some("지명".to_string()));
    assert_eq!(asterisk_as_none("".to_string()), Some("".to_string()));
}

#[test]
fn split_keeps_empty_fields() {
    let f = split_string("a,,b,", ',');
    assert_eq!(f, vec!["a".to_string(), "".to_string(), "b".to_string(), "".to_string()]);
    let f = split_string("", ',');
    assert_eq!(f, vec!["".to_string()]);
}

#[test]
fn nnp_rows_carry_the_final_consonant_flag() {
    assert_eq!(
        mecab_csv_nnp_format("뤣쉙퀡").unwrap(),
        "뤣쉙퀡,,,,NNP,*,T,뤣쉙퀡,*,*,*,*"
    );
    assert_eq!(
        mecab_csv_nnp_format("바나나").unwrap(),
        "바나나,,,,NNP,*,F,바나나,*,*,*,*"
    );
    assert!(mecab_csv_nnp_format("").is_err());
}
