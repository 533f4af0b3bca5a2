use wordsegment::segment::segment_run;
use wordsegment::table::FrequencyTable;

fn table_of(uni: &[&str], bi: &[&str]) -> FrequencyTable {
    let ul: Vec<String> = uni.iter().map(|s| s.to_string()).collect();
    let bl: Vec<String> = bi.iter().map(|s| s.to_string()).collect();
    FrequencyTable::from_lines(&ul, &bl).unwrap()
}

#[test]
fn known_word_identity() {
    let t = table_of(&["hello 5"], &[]);
    assert_eq!(segment_run(&t, "hello").unwrap(), vec!["hello".to_string()]);
}

#[test]
fn known_word_identity_survives_casing() {
    let t = table_of(&["hello 5"], &[]);
    assert_eq!(segment_run(&t, "HeLLo").unwrap(), vec!["hello".to_string()]);
}

#[test]
fn one_known_word_beats_its_own_pieces() {
    // "aa" is known and so is "a": the single word still wins
    let t = table_of(&["aa 1", "a 1000000"], &[]);
    assert_eq!(segment_run(&t, "aa").unwrap(), vec!["aa".to_string()]);
}

#[test]
fn uniform_weights_scenario() {
    let t = table_of(&["this 10", "is 10", "a 10", "test 10"], &[]);
    assert_eq!(
        segment_run(&t, "thisisatest").unwrap(),
        vec![
            "this".to_string(),
            "is".to_string(),
            "a".to_string(),
            "test".to_string()
        ]
    );
}

#[test]
fn no_match_falls_back_verbatim() {
    let t = FrequencyTable::new();
    assert_eq!(segment_run(&t, "xyzxyz").unwrap_err(), "xyzxyz".to_string());
}

#[test]
fn no_match_falls_back_verbatim_with_nonempty_table() {
    let t = table_of(&["hello 5"], &[]);
    assert_eq!(segment_run(&t, "qqq").unwrap_err(), "qqq".to_string());
}

#[test]
fn known_words_beat_unknown_remainders() {
    let t = table_of(&["ab 10", "cd 10", "abc 10"], &[]);
    assert_eq!(
        segment_run(&t, "abcd").unwrap(),
        vec!["ab".to_string(), "cd".to_string()]
    );
}

#[test]
fn a_confirmed_bigram_outweighs_two_unigrams() {
    // without the bigram the split is ab + cd; with it, abc + d wins
    let t = table_of(&["ab 10", "cd 10", "abc 10"], &["abc d 100"]);
    assert_eq!(
        segment_run(&t, "abcd").unwrap(),
        vec!["abc".to_string(), "d".to_string()]
    );
}

#[test]
fn heavier_words_win() {
    let t = table_of(&["a 1000000", "bc 10", "ab 10", "c 10"], &[]);
    assert_eq!(
        segment_run(&t, "abc").unwrap(),
        vec!["a".to_string(), "bc".to_string()]
    );
    let t2 = table_of(&["a 10", "bc 10", "ab 1000000", "c 1000000"], &[]);
    assert_eq!(
        segment_run(&t2, "abc").unwrap(),
        vec!["ab".to_string(), "c".to_string()]
    );
}

#[test]
fn equal_scores_prefer_the_longer_final_word() {
    // a+bc and ab+c score the same; the longer final word wins
    let t = table_of(&["a 10", "ab 10", "bc 10", "c 10"], &[]);
    assert_eq!(
        segment_run(&t, "abc").unwrap(),
        vec!["a".to_string(), "bc".to_string()]
    );
}

#[test]
fn all_known_letters_segment_fully() {
    let t = table_of(&["a 10", "b 10"], &[]);
    assert_eq!(
        segment_run(&t, "ab").unwrap(),
        vec!["a".to_string(), "b".to_string()]
    );
}

#[test]
fn one_unknown_letter_alone_is_a_failure() {
    // the single-letter run scores exactly the floor, so it is not segmented
    let t = table_of(&["hello 5"], &[]);
    assert!(segment_run(&t, "q").is_err());
}

#[test]
fn mixed_known_and_unknown_can_still_be_valid() {
    // x is unknown, but "a" is known: xa splits above the floor
    let t = table_of(&["a 10"], &[]);
    assert_eq!(
        segment_run(&t, "xa").unwrap(),
        vec!["x".to_string(), "a".to_string()]
    );
}

#[test]
fn empty_run_is_an_empty_split() {
    let t = FrequencyTable::new();
    assert_eq!(segment_run(&t, "").unwrap(), Vec::<String>::new());
}
