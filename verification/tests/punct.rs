use wordsegment::punct::normalize_punct;

#[test]
fn punctuation_scenario() {
    assert_eq!(
        normalize_punct("hello , world ( yes )"),
        "hello, world (yes) "
    );
}

#[test]
fn no_space_before_closing_one_after() {
    assert_eq!(normalize_punct("a )b"), "a) b");
    assert_eq!(normalize_punct("a)b"), "a) b");
}

#[test]
fn open_paren_keeps_single_space_and_tightens_inside() {
    assert_eq!(normalize_punct("a   (   b"), "a (b");
    assert_eq!(normalize_punct("a(b"), "a(b");
}

#[test]
fn marks_lose_leading_space_and_gain_one_after() {
    assert_eq!(normalize_punct("one . two ; three"), "one. two; three");
    assert_eq!(normalize_punct("one.two"), "one. two");
    assert_eq!(normalize_punct("why ?!"), "why? ! ");
}

#[test]
fn all_marks_are_covered() {
    assert_eq!(
        normalize_punct("a. b, c! d\" e' f\u{2019} g; h: i?"),
        "a. b, c! d\" e' f\u{2019} g; h: i? "
    );
}

#[test]
fn plain_text_is_untouched() {
    assert_eq!(normalize_punct("nothing special here"), "nothing special here");
    assert_eq!(normalize_punct(""), "");
}

#[test]
fn whitespace_alone_is_untouched() {
    assert_eq!(normalize_punct("  \t\n "), "  \t\n ");
}

#[test]
fn idempotent_on_scenario_outputs() {
    let cases = [
        "hello , world ( yes )",
        "a )b",
        "a(b",
        "one . two ; three",
        "why ?!",
        ") .",
        ".)",
        "( )",
        "((",
        "))",
        "a,,b",
        ". , .",
        "x ( . ) y",
        "tabs\tand\nnewlines ( here )",
        "'quoted' \u{2019}text\u{2019}",
    ];
    for c in cases {
        let once = normalize_punct(c);
        let twice = normalize_punct(once.as_str());
        assert_eq!(once, twice);
    }
}
