use wordsegment::table::FrequencyTable;
use wordsegment::table::LoadError;
use wordsegment::table::parse_weight;
use wordsegment::table::split_fields;

fn chars(s: &str) -> Vec<char> {
    s.chars().collect()
}

#[test]
fn weights_are_parsed_in_thousandths() {
    assert_eq!(parse_weight(&chars("10")), Some(10_000));
    assert_eq!(parse_weight(&chars("0")), Some(0));
    assert_eq!(parse_weight(&chars("2.5")), Some(2_500));
    assert_eq!(parse_weight(&chars(".5")), Some(500));
    assert_eq!(parse_weight(&chars("3.")), Some(3_000));
    assert_eq!(parse_weight(&chars("1.2345")), Some(1_234));
}

#[test]
fn non_numbers_are_rejected() {
    assert_eq!(parse_weight(&chars("")), None);
    assert_eq!(parse_weight(&chars(".")), None);
    assert_eq!(parse_weight(&chars("abc")), None);
    assert_eq!(parse_weight(&chars("-1")), None);
    assert_eq!(parse_weight(&chars("1.2.3")), None);
    assert_eq!(parse_weight(&chars("1e3")), None);
    assert_eq!(parse_weight(&chars("nan")), None);
}

#[test]
fn zero_weights_are_numbers() {
    assert_eq!(parse_weight(&chars("0.000")), Some(0));
    assert_eq!(parse_weight(&chars("00")), Some(0));
}

#[test]
fn extra_fields_are_ignored() {
    let ul = vec!["the 10 trailing note".to_string()];
    let t = FrequencyTable::from_lines(&ul, &Vec::new()).unwrap();
    assert_eq!(t.unigram_weight(&chars("the")), Some(10_000));
}

#[test]
fn huge_weights_saturate() {
    assert_eq!(
        parse_weight(&chars("999999999999999999999999")),
        Some(u64::MAX)
    );
}

#[test]
fn fields_split_on_any_whitespace() {
    let fs = split_fields(&chars("  the\tquick  brown\n"));
    assert_eq!(fs, vec![chars("the"), chars("quick"), chars("brown")]);
}

#[test]
fn tables_load_and_answer_lookups() {
    let ul = vec!["the 23135851162".to_string(), "of 13151942776".to_string()];
    let bl = vec!["of the 2766332391".to_string()];
    let t = FrequencyTable::from_lines(&ul, &bl).unwrap();
    assert_eq!(t.unigram_weight(&chars("the")), Some(23_135_851_162_000));
    assert!(t.unigram_weight(&chars("of")).is_some());
    assert_eq!(t.unigram_weight(&chars("word")), None);
    assert!(t.bigram_weight(&chars("of"), &chars("the")).is_some());
    assert_eq!(t.bigram_weight(&chars("the"), &chars("of")), None);
    assert_eq!(t.max_unigram_len(), 3);
}

#[test]
fn fatal_load_error_on_non_numeric_weight() {
    // a unigram line whose weight is not a number aborts construction
    let ul = vec!["the 10".to_string(), "of ten".to_string()];
    let r = FrequencyTable::from_lines(&ul, &Vec::new());
    assert_eq!(r.unwrap_err(), LoadError::BadUnigramLine(1));
}

#[test]
fn fatal_load_error_on_missing_fields() {
    let ul = vec!["alone".to_string()];
    let r = FrequencyTable::from_lines(&ul, &Vec::new());
    assert_eq!(r.unwrap_err(), LoadError::BadUnigramLine(0));
    let bl = vec!["of the".to_string()];
    let r2 = FrequencyTable::from_lines(&Vec::new(), &bl);
    assert_eq!(r2.unwrap_err(), LoadError::BadBigramLine(0));
}

#[test]
fn empty_tables_load() {
    let t = FrequencyTable::from_lines(&Vec::new(), &Vec::new()).unwrap();
    assert_eq!(t.unigram_weight(&chars("a")), None);
    assert_eq!(t.max_unigram_len(), 0);
}
