use wordsegment::pipeline::process_text;
use wordsegment::table::FrequencyTable;

fn table_of(uni: &[&str], bi: &[&str]) -> FrequencyTable {
    let ul: Vec<String> = uni.iter().map(|s| s.to_string()).collect();
    let bl: Vec<String> = bi.iter().map(|s| s.to_string()).collect();
    FrequencyTable::from_lines(&ul, &bl).unwrap()
}

#[test]
fn segmentation_scenario() {
    // unigram weights this=10, is=10, a=10, test=10 and no informative bigrams
    let t = table_of(&["this 10", "is 10", "a 10", "test 10"], &[]);
    let (out, diags) = process_text(&t, "thisisatest");
    assert_eq!(out, "this is a test");
    assert!(diags.is_empty());
}

#[test]
fn fallback_on_failure() {
    // an empty table: no substring of the run is known
    let t = FrequencyTable::new();
    let (out, diags) = process_text(&t, "xyzxyz");
    assert_eq!(out, "xyzxyz");
    assert_eq!(diags, vec!["xyzxyz".to_string()]);
}

#[test]
fn fallback_does_not_stop_the_pipeline() {
    let t = table_of(&["this 10", "is 10", "a 10", "test 10"], &[]);
    let (out, diags) = process_text(&t, "qqqzz, thisisatest");
    assert_eq!(out, "qqqzz, this is a test");
    assert_eq!(diags, vec!["qqqzz".to_string()]);
}

#[test]
fn hyphen_join_feeds_classification() {
    let t = table_of(&["example 10"], &[]);
    let (out, diags) = process_text(&t, "exam-ple");
    assert_eq!(out, "example");
    assert!(diags.is_empty());
}

#[test]
fn ligature_run_segments_like_expanded_form() {
    let t = table_of(&["file 10", "a 10"], &[]);
    let (lig, d1) = process_text(&t, "a\u{fb01}le");
    let (plain, d2) = process_text(&t, "afile");
    assert_eq!(lig, plain);
    assert_eq!(lig, "a file");
    assert!(d1.is_empty() && d2.is_empty());
}

#[test]
fn passthrough_runs_are_kept_verbatim() {
    let t = table_of(&["pages 10"], &[]);
    let (out, diags) = process_text(&t, "pages3-4");
    assert_eq!(out, "pages3-4");
    assert!(diags.is_empty());
}

#[test]
fn punctuation_is_normalized_at_the_end() {
    let t = table_of(&["hello 10", "world 10"], &[]);
    let (out, _) = process_text(&t, "hello ,world");
    assert_eq!(out, "hello, world");
}

#[test]
fn empty_input_is_empty_output() {
    let t = FrequencyTable::new();
    let (out, diags) = process_text(&t, "");
    assert_eq!(out, "");
    assert!(diags.is_empty());
}

#[test]
fn output_is_lowercased_words() {
    let t = table_of(&["this 10", "is 10", "a 10", "test 10"], &[]);
    let (out, _) = process_text(&t, "ThisIsATest");
    assert_eq!(out, "this is a test");
}

#[test]
fn form_feeds_are_dropped() {
    let t = table_of(&["ab 10"], &[]);
    let (out, _) = process_text(&t, "a\u{c}b");
    assert_eq!(out, "ab");
}

#[test]
fn whole_pipeline_is_idempotent_on_its_output() {
    let t = table_of(&["this 10", "is 10", "a 10", "test 10"], &[]);
    let (once, _) = process_text(&t, "thisisatest (yes , it-is)");
    let (twice, _) = process_text(&t, once.as_str());
    assert_eq!(once, twice);
}
