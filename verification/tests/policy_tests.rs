use music_organizer::policy::{plan_tag_rewrite, TrackNumberModification};

#[test]
fn include_disc_number_defaults_missing_disc_to_zero() {
    let tag = plan_tag_rewrite(TrackNumberModification::IncludeDiscNumber, Some(7), None);
    assert_eq!(tag, Some("007".to_string()));
}

#[test]
fn include_disc_number_concatenates_disc_and_padded_track() {
    let tag = plan_tag_rewrite(TrackNumberModification::IncludeDiscNumber, Some(13), Some(2));
    assert_eq!(tag, Some("213".to_string()));
}

#[test]
fn plain_number_is_unpadded() {
    let tag = plan_tag_rewrite(TrackNumberModification::Number, Some(7), Some(1));
    assert_eq!(tag, Some("7".to_string()));
    let wide = plan_tag_rewrite(TrackNumberModification::Number, Some(123), None);
    assert_eq!(wide, Some("123".to_string()));
}

#[test]
fn padded_number_uses_two_digits() {
    let tag = plan_tag_rewrite(TrackNumberModification::PaddedNumber, Some(7), None);
    assert_eq!(tag, Some("07".to_string()));
    let wide = plan_tag_rewrite(TrackNumberModification::PaddedNumber, Some(123), None);
    assert_eq!(wide, Some("123".to_string()));
}

#[test]
fn unchanged_policy_writes_nothing() {
    let tag = plan_tag_rewrite(TrackNumberModification::Unchanged, Some(7), Some(1));
    assert_eq!(tag, None);
}

#[test]
fn unknown_track_number_writes_nothing() {
    let tag = plan_tag_rewrite(TrackNumberModification::IncludeDiscNumber, None, Some(1));
    assert_eq!(tag, None);
}
