use choice_string::{condense_selections, Selection, SomeElementType};

#[test]
fn selection_contains_item() {
    assert!(Selection::All.contains_item(6543268));
    assert!(!Selection::Nothing.contains_item(385188));

    assert!(Selection::Subset(vec![SomeElementType::Individual(1)]).contains_item(1));
    assert!(Selection::Subset(vec![SomeElementType::Range(1..=1)]).contains_item(1));
    assert!(Selection::Subset(vec![SomeElementType::Range(1..=3)]).contains_item(1));
    assert!(Selection::Subset(vec![SomeElementType::Range(1..=3)]).contains_item(3));

    let selection = Selection::Subset(vec![
        SomeElementType::Individual(2),
        SomeElementType::Individual(6),
        SomeElementType::Range(4..=8),
    ]);
    assert!(selection.contains_item(2));
    assert!(selection.contains_item(6));
    assert!(selection.contains_item(5));
    assert!(selection.contains_item(8));
    assert!(selection.contains_item(4));
    assert!(!selection.contains_item(3));
    assert!(!selection.contains_item(9));
    assert!(!selection.contains_item(1));
    assert!(!selection.contains_item(3));
}

#[test]
fn condense_ranges() {
    let c = condense_selections(vec![
        SomeElementType::Individual(1),
        SomeElementType::Individual(3),
        SomeElementType::Range(5..=9),
        SomeElementType::Individual(8),
        SomeElementType::Individual(10),
    ]);

    assert_eq!(
        c,
        vec![
            SomeElementType::Individual(1),
            SomeElementType::Individual(3),
            SomeElementType::Range(5..=10),
        ]
    );
}

#[test]
fn condense_ranges_more_complex() {
    let c = condense_selections(vec![
        SomeElementType::Individual(1),
        SomeElementType::Individual(3),
        SomeElementType::Range(5..=9),
        SomeElementType::Range(11..=20),
        SomeElementType::Individual(10),
    ]);

    assert_eq!(
        c,
        vec![
            SomeElementType::Individual(1),
            SomeElementType::Individual(3),
            SomeElementType::Range(5..=20),
        ]
    );
}

#[test]
fn condense_empty_list() {
    assert_eq!(condense_selections(vec![]), vec![]);
}

#[test]
fn condense_inverted_range_alone_is_empty() {
    assert_eq!(condense_selections(vec![SomeElementType::Range(8..=2)]), vec![]);
    assert!(!Selection::Subset(vec![SomeElementType::Range(8..=2)]).contains_item(5));
}

#[test]
fn condense_inverted_range_among_others_is_dropped() {
    let c = condense_selections(vec![
        SomeElementType::Range(8..=2),
        SomeElementType::Individual(4),
    ]);
    assert_eq!(c, vec![SomeElementType::Individual(4)]);
}

#[test]
fn condense_merges_adjacent_and_duplicates() {
    let c = condense_selections(vec![
        SomeElementType::Range(6..=15),
        SomeElementType::Individual(5),
        SomeElementType::Individual(5),
        SomeElementType::Individual(16),
        SomeElementType::Individual(18),
    ]);
    assert_eq!(
        c,
        vec![SomeElementType::Range(5..=16), SomeElementType::Individual(18)]
    );
}

#[test]
fn condense_single_point_range_becomes_individual() {
    assert_eq!(
        condense_selections(vec![SomeElementType::Range(7..=7)]),
        vec![SomeElementType::Individual(7)]
    );
}

#[test]
fn condense_is_idempotent() {
    let once = condense_selections(vec![
        SomeElementType::Individual(9),
        SomeElementType::Range(1..=4),
        SomeElementType::Range(3..=6),
    ]);
    assert_eq!(
        once,
        vec![SomeElementType::Range(1..=6), SomeElementType::Individual(9)]
    );
    let twice = condense_selections(vec![
        SomeElementType::Range(1..=6),
        SomeElementType::Individual(9),
    ]);
    assert_eq!(once, twice);
}

#[test]
fn condense_keeps_minimal_list() {
    let input = vec![
        SomeElementType::Individual(0),
        SomeElementType::Range(2..=5),
        SomeElementType::Individual(7),
        SomeElementType::Range(9..=usize::MAX),
    ];
    let expected = vec![
        SomeElementType::Individual(0),
        SomeElementType::Range(2..=5),
        SomeElementType::Individual(7),
        SomeElementType::Range(9..=usize::MAX),
    ];
    assert_eq!(condense_selections(input), expected);
}

#[test]
fn condense_union_membership_agrees() {
    let input = vec![
        SomeElementType::Range(10..=12),
        SomeElementType::Individual(3),
        SomeElementType::Range(4..=4),
        SomeElementType::Range(20..=14),
        SomeElementType::Individual(13),
    ];
    let raw = Selection::Subset(vec![
        SomeElementType::Range(10..=12),
        SomeElementType::Individual(3),
        SomeElementType::Range(4..=4),
        SomeElementType::Range(20..=14),
        SomeElementType::Individual(13),
    ]);
    let condensed = Selection::Subset(condense_selections(input));
    for x in 0..=25usize {
        assert_eq!(raw.contains_item(x), condensed.contains_item(x));
    }
}

#[test]
fn exhausted_range_holds_nothing() {
    let mut r = 3..=3;
    for _ in r.by_ref() {}
    let sel = Selection::Subset(vec![SomeElementType::Range(r)]);
    assert!(!sel.contains_item(3));
}

#[test]
fn element_contains_item() {
    assert!(SomeElementType::Individual(4).contains_item(4));
    assert!(!SomeElementType::Individual(4).contains_item(5));
    assert!(SomeElementType::Range(2..=6).contains_item(6));
    assert!(!SomeElementType::Range(2..=6).contains_item(7));
}
