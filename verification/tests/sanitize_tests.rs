use music_organizer::sanitize::{sanitize_filename_string, sanitize_pathbuf_for_fat32};

#[test]
fn replaces_forbidden_characters() {
    assert_eq!(sanitize_filename_string("a<b>.flac"), "a_b_.flac");
    assert_eq!(sanitize_filename_string("w:h|o?.mp3"), "w_h_o_.mp3");
    assert_eq!(sanitize_filename_string("tab\tname.txt"), "tab_name.txt");
    assert_eq!(sanitize_filename_string("bell\u{7}.txt"), "bell_.txt");
    assert_eq!(sanitize_filename_string("del\u{7f}.txt"), "del_.txt");
}

#[test]
fn trims_trailing_spaces_and_periods_from_stem() {
    assert_eq!(sanitize_filename_string("song . .mp3"), "song.mp3");
    assert_eq!(sanitize_filename_string("name...txt"), "name.txt");
}

#[test]
fn empty_stem_becomes_replacement() {
    assert_eq!(sanitize_filename_string(". . .txt"), "_.txt");
    assert_eq!(sanitize_filename_string("..."), "_");
    assert_eq!(sanitize_filename_string(""), "_");
}

#[test]
fn reserved_names_get_suffix() {
    assert_eq!(sanitize_filename_string("CON.txt"), "CON_.txt");
    assert_eq!(sanitize_filename_string("con"), "con_");
    assert_eq!(sanitize_filename_string("Lpt7.log"), "Lpt7_.log");
    assert_eq!(sanitize_filename_string("COM0.txt"), "COM0.txt");
    assert_eq!(sanitize_filename_string("console.txt"), "console.txt");
}

#[test]
fn extension_loses_spaces_and_periods() {
    assert_eq!(sanitize_filename_string("a. b"), "a._b");
}

#[test]
fn long_names_are_truncated_to_limit() {
    let long_stem = "a".repeat(300);
    let name = format!("{long_stem}.flac");
    let out = sanitize_filename_string(&name);
    assert_eq!(out.chars().count(), 255);
    assert!(out.ends_with(".flac"));
    let no_ext = "b".repeat(400);
    let out2 = sanitize_filename_string(&no_ext);
    assert_eq!(out2.chars().count(), 255);
}

#[test]
fn truncation_reapplies_reserved_check() {
    // Room for exactly three stem characters: 251-character extension.
    let ext = "x".repeat(251);
    let name = format!("CONSOLE.{ext}");
    let out = sanitize_filename_string(&name);
    assert!(out.starts_with("CO_."));
}

#[test]
fn sanitizing_twice_changes_nothing() {
    for name in [
        "a<b>.flac",
        "song . .mp3",
        "CON.txt",
        "...",
        "plain.flac",
        "no extension",
        "01 Mr. Blue Sky.flac",
    ] {
        let once = sanitize_filename_string(name);
        let twice = sanitize_filename_string(&once);
        assert_eq!(once, twice);
    }
}

#[test]
fn inner_periods_survive_a_second_pass_when_stable() {
    // "a.b." loses only its trailing period; the result resplits at its
    // inner period into pieces a second pass leaves alone.
    let once = sanitize_filename_string("a.b.");
    assert_eq!(once, "a.b");
    assert_eq!(sanitize_filename_string(&once), "a.b");
}

#[test]
fn a_reserved_name_can_reappear_behind_an_inner_period() {
    // The algorithm's own steps map "con.foo." to "con.foo", whose stem
    // is reserved again; only the next pass appends the replacement.
    let once = sanitize_filename_string("con.foo.");
    assert_eq!(once, "con.foo");
    assert_eq!(sanitize_filename_string(&once), "con_.foo");
}

#[test]
fn output_has_no_forbidden_character() {
    for name in ["a<b|c?.fl*ac", "x:y\\z.txt", "CON. . ."] {
        let out = sanitize_filename_string(name);
        for c in out.chars() {
            assert!(!"<>:\"/\\|?*".contains(c));
            assert!(c as u32 >= 32 && c as u32 != 127);
        }
    }
}

#[test]
fn path_sanitization_touches_only_the_last_component() {
    assert_eq!(
        sanitize_pathbuf_for_fat32("music/CON.flac"),
        "music/CON_.flac"
    );
    assert_eq!(sanitize_pathbuf_for_fat32("a<b.txt"), "a_b.txt");
    assert_eq!(sanitize_pathbuf_for_fat32("dir/sub/"), "dir/sub/");
    assert_eq!(
        sanitize_pathbuf_for_fat32("di<r/keep.flac"),
        "di<r/keep.flac"
    );
}
