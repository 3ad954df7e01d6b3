use music_organizer::prefix::compute_prefix_renames;

#[test]
fn strips_the_prefix_and_trims() {
    let names = vec![
        "01 - a.mp3".to_string(),
        "b.mp3".to_string(),
        "x.txt".to_string(),
    ];
    let renames = compute_prefix_renames(&names, "01 - ", "mp3");
    assert_eq!(
        renames,
        vec![
            ("01 - a.mp3".to_string(), "a.mp3".to_string()),
            ("b.mp3".to_string(), "b.mp3".to_string()),
        ]
    );
}

#[test]
fn a_name_that_would_vanish_is_left_alone() {
    let names = vec!["pre.mp3".to_string()];
    let renames = compute_prefix_renames(&names, "pre.mp3", "mp3");
    assert_eq!(renames.len(), 0);
}

#[test]
fn surrounding_whitespace_goes_with_the_prefix() {
    let names = vec!["junk   space.mp3".to_string()];
    let renames = compute_prefix_renames(&names, "junk", "mp3");
    assert_eq!(
        renames,
        vec![("junk   space.mp3".to_string(), "space.mp3".to_string())]
    );
}

#[test]
fn other_extensions_are_not_touched() {
    let names = vec!["01 keep.flac".to_string()];
    let renames = compute_prefix_renames(&names, "01 ", "mp3");
    assert_eq!(renames.len(), 0);
}

#[test]
fn unicode_whitespace_is_trimmed_too() {
    // Vertical tab, no-break space and ideographic space all go.
    let names = vec![
        "pre\u{b}a.mp3".to_string(),
        "pre\u{a0}b.mp3".to_string(),
        "pre\u{3000}c.mp3".to_string(),
    ];
    let renames = compute_prefix_renames(&names, "pre", "mp3");
    assert_eq!(
        renames,
        vec![
            ("pre\u{b}a.mp3".to_string(), "a.mp3".to_string()),
            ("pre\u{a0}b.mp3".to_string(), "b.mp3".to_string()),
            ("pre\u{3000}c.mp3".to_string(), "c.mp3".to_string()),
        ]
    );
}
