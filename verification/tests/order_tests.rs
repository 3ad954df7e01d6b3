use music_organizer::order::{name_le_str, sort_names};

#[test]
fn numeric_prefixes_compare_by_value() {
    // "2..." comes before "10..." although "1" < "2" lexicographically.
    assert!(name_le_str(true, "2_b.flac", "10_a.flac"));
    assert!(!name_le_str(true, "10_a.flac", "2_b.flac"));
}

#[test]
fn copy_order_puts_two_before_ten() {
    let names = vec!["10_a.flac".to_string(), "2_b.flac".to_string()];
    let sorted = sort_names(names, true);
    assert_eq!(sorted, vec!["2_b.flac".to_string(), "10_a.flac".to_string()]);
}

#[test]
fn numbered_names_sort_before_unnumbered() {
    assert!(name_le_str(true, "9 last.flac", "aria.flac"));
    assert!(!name_le_str(true, "aria.flac", "9 last.flac"));
}

#[test]
fn equal_values_fall_back_to_lexicographic() {
    // Both prefixes are worth one; "01x" < "1x" lexicographically.
    assert!(name_le_str(true, "01x", "1x"));
    assert!(!name_le_str(true, "1x", "01x"));
    let sorted = sort_names(vec!["1x".to_string(), "01x".to_string()], true);
    assert_eq!(sorted, vec!["01x".to_string(), "1x".to_string()]);
}

#[test]
fn unnumbered_names_sort_lexicographically() {
    assert!(name_le_str(true, "alpha", "beta"));
    assert!(name_le_str(false, "10", "2"));
    let sorted = sort_names(
        vec![
            "b".to_string(),
            "a".to_string(),
            "10".to_string(),
            "2".to_string(),
        ],
        false,
    );
    assert_eq!(
        sorted,
        vec![
            "10".to_string(),
            "2".to_string(),
            "a".to_string(),
            "b".to_string(),
        ]
    );
}

#[test]
fn natural_order_on_album_listing() {
    let names = vec![
        "cover.jpg".to_string(),
        "10 - ten.flac".to_string(),
        "2 - two.flac".to_string(),
        "1 - one.flac".to_string(),
    ];
    let sorted = sort_names(names, true);
    assert_eq!(
        sorted,
        vec![
            "1 - one.flac".to_string(),
            "2 - two.flac".to_string(),
            "10 - ten.flac".to_string(),
            "cover.jpg".to_string(),
        ]
    );
}
