use music_organizer::metadata::SongMetadata;

#[test]
fn leading_digits_parse_before_a_slash() {
    assert_eq!(SongMetadata::parse_track_number("3/12"), Some(3));
}

#[test]
fn plain_numbers_parse() {
    assert_eq!(SongMetadata::parse_track_number("7"), Some(7));
    assert_eq!(SongMetadata::parse_track_number("007"), Some(7));
    assert_eq!(SongMetadata::parse_track_number("42 of 90"), Some(42));
}

#[test]
fn values_without_leading_digits_give_nothing() {
    assert_eq!(SongMetadata::parse_track_number(""), None);
    assert_eq!(SongMetadata::parse_track_number("abc"), None);
    assert_eq!(SongMetadata::parse_track_number("A7"), None);
    assert_eq!(SongMetadata::parse_track_number("-3"), None);
}

#[test]
fn overflowing_runs_give_nothing() {
    assert_eq!(SongMetadata::parse_track_number("4294967295"), Some(u32::MAX));
    assert_eq!(SongMetadata::parse_track_number("4294967296"), None);
    assert_eq!(SongMetadata::parse_track_number("99999999999999999999"), None);
}

#[test]
fn leading_zeros_do_not_overflow() {
    assert_eq!(SongMetadata::parse_track_number("00000000003"), Some(3));
}
