use wordsegment::classify::seg_to_asciis;
use wordsegment::hyphen::hyphen_join;

#[test]
fn runs_alternate_and_keep_order() {
    let runs = seg_to_asciis("ab1 cd!".to_string());
    assert_eq!(
        runs,
        vec![
            (true, "ab".to_string()),
            (false, "1 ".to_string()),
            (true, "cd".to_string()),
            (false, "!".to_string()),
        ]
    );
}

#[test]
fn classification_is_lossless() {
    let input = "Across 12 lines\nof  mixed text!?";
    let runs = seg_to_asciis(input.to_string());
    let rebuilt: String = runs.into_iter().map(|(_, text)| text).collect();
    assert_eq!(rebuilt, input);
}

#[test]
fn form_feed_is_dropped_ligatures_expand() {
    let runs = seg_to_asciis("o\u{c}\u{fb01}ce \u{fb02}y".to_string());
    assert_eq!(
        runs,
        vec![
            (true, "ofice".to_string()),
            (false, " ".to_string()),
            (true, "fly".to_string()),
        ]
    );
}

#[test]
fn ligature_joins_adjacent_passthrough_boundary() {
    // a ligature right after a passthrough span starts a new segmentable run
    let runs = seg_to_asciis("1\u{fb01}n".to_string());
    assert_eq!(
        runs,
        vec![(false, "1".to_string()), (true, "fin".to_string())]
    );
}

#[test]
fn non_latin_text_is_passthrough() {
    let runs = seg_to_asciis("abc \u{3b1}\u{3b2} def".to_string());
    assert_eq!(
        runs,
        vec![
            (true, "abc".to_string()),
            (false, " \u{3b1}\u{3b2} ".to_string()),
            (true, "def".to_string()),
        ]
    );
}

#[test]
fn empty_text_has_no_runs() {
    assert_eq!(seg_to_asciis(String::new()), Vec::new());
}

#[test]
fn hyphen_join_collapses_letter_hyphen_letter() {
    assert_eq!(hyphen_join("exam-ple"), "example");
    assert_eq!(hyphen_join("a-b-c"), "ab-c");
    assert_eq!(hyphen_join("3-4"), "3-4");
    assert_eq!(hyphen_join("end-"), "end-");
    assert_eq!(hyphen_join("-tip"), "-tip");
    assert_eq!(hyphen_join("x -y"), "x -y");
    assert_eq!(hyphen_join(""), "");
}

#[test]
fn hyphen_join_is_leftmost_first() {
    assert_eq!(hyphen_join("aa-bb-cc"), "aabbcc");
    assert_eq!(hyphen_join("a-b-c"), "ab-c");
}
