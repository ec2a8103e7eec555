use choice_string::{parse_raw, Error, ErrorKind, Selection, SomeElementType};

#[test]
fn fails_broken_range_start() {
    parse_raw("1-").unwrap_err();
}

#[test]
fn fails_broken_range_both() {
    parse_raw("-").unwrap_err();
}

#[test]
fn fails_broken_range_end() {
    parse_raw("-5").unwrap_err();
}

#[test]
fn content_none() {
    assert_eq!(parse_raw("").unwrap(), Selection::Nothing);
}

#[test]
fn content_none2() {
    assert_eq!(parse_raw("none").unwrap(), Selection::Nothing);
}

#[test]
fn content_all() {
    assert_eq!(parse_raw("all").unwrap(), Selection::All);
}

#[test]
fn content_individual() {
    assert_eq!(
        parse_raw("8").unwrap(),
        Selection::Subset(vec![SomeElementType::Individual(8)])
    );
}

#[test]
fn content_individual_multi() {
    assert_eq!(
        parse_raw("8 9 10").unwrap(),
        Selection::Subset(vec![
            SomeElementType::Individual(8),
            SomeElementType::Individual(9),
            SomeElementType::Individual(10)
        ])
    );
}

#[test]
fn content_individual_multi_ranges_individuals() {
    assert_eq!(
        parse_raw("8 9-12 4").unwrap(),
        Selection::Subset(vec![
            SomeElementType::Individual(8),
            SomeElementType::Range(9..=12),
            SomeElementType::Individual(4)
        ])
    );
}

#[test]
fn test_error() {
    let err = parse_raw("1 3 5 6-8 1-;455").unwrap_err();
    match err {
        Error::ParsingFailed(kind) => assert_eq!(kind, ErrorKind::Digit),
        #[allow(unreachable_patterns)]
        _ => panic!("Wrong kind"),
    }
}

#[test]
fn accepts_grammar_forms() {
    for text in [
        "all", "none", "", "1", "1-9", "8-2", "1-90", "10-90", "10-0", "1 2 3", "1-3 5-8",
        "1    5 8", "1,,,,5,8", "1;;;;5;;;;8", "1;,,;5 ,;  ;8", "1;5;8", "1,5,8", "1-10 15 20",
        "1 5 8 ", "1\t2",
    ] {
        assert!(parse_raw(text).is_ok(), "{}", text);
    }
}

#[test]
fn inverted_range_parses_unchanged() {
    assert_eq!(
        parse_raw("8-2").unwrap(),
        Selection::Subset(vec![SomeElementType::Range(8..=2)])
    );
}

#[test]
fn keywords_ignore_case() {
    assert_eq!(parse_raw("ALL").unwrap(), Selection::All);
    assert_eq!(parse_raw("NoNe").unwrap(), Selection::Nothing);
}

#[test]
fn keyword_followed_by_text_fails_at_end() {
    assert_eq!(parse_raw("none1"), Err(Error::ParsingFailed(ErrorKind::Eof)));
    assert_eq!(parse_raw("all 3"), Err(Error::ParsingFailed(ErrorKind::Eof)));
}

#[test]
fn trailing_garbage_fails_at_end() {
    assert_eq!(parse_raw("1 2x"), Err(Error::ParsingFailed(ErrorKind::Eof)));
    assert_eq!(parse_raw("1-2-3"), Err(Error::ParsingFailed(ErrorKind::Eof)));
}

#[test]
fn missing_digits_fail() {
    assert_eq!(parse_raw("-5"), Err(Error::ParsingFailed(ErrorKind::Digit)));
    assert_eq!(parse_raw("1-"), Err(Error::ParsingFailed(ErrorKind::Digit)));
    assert_eq!(parse_raw("1, x"), Err(Error::ParsingFailed(ErrorKind::Digit)));
    assert_eq!(parse_raw(","), Err(Error::ParsingFailed(ErrorKind::Digit)));
}

#[test]
fn overflow_fails() {
    assert_eq!(
        parse_raw("99999999999999999999999"),
        Err(Error::ParsingFailed(ErrorKind::MapRes))
    );
    assert_eq!(
        parse_raw("1-99999999999999999999999"),
        Err(Error::ParsingFailed(ErrorKind::MapRes))
    );
    let max = format!("{}", usize::MAX);
    assert_eq!(
        parse_raw(&max).unwrap(),
        Selection::Subset(vec![SomeElementType::Individual(usize::MAX)])
    );
}
