use music_organizer::analysis::SongsAnalysis;
use music_organizer::metadata::SongMetadata;

fn song(
    artist: Option<&str>,
    title: Option<&str>,
    album: Option<&str>,
    disc: Option<u32>,
    track: Option<u32>,
    path: &str,
) -> SongMetadata {
    SongMetadata {
        artist: artist.map(|s| s.to_string()),
        title: title.map(|s| s.to_string()),
        album: album.map(|s| s.to_string()),
        disc_number: disc,
        track_number: track,
        filepath: path.to_string(),
    }
}

#[test]
fn counts_missing_fields_per_category() {
    let songs = vec![
        song(Some("A"), Some("t1"), Some("X"), Some(1), Some(1), "p1"),
        song(None, Some("t2"), None, None, Some(2), "p2"),
        song(None, None, None, None, None, "p3"),
    ];
    let a = SongsAnalysis::from_song_metadata(songs);
    assert_eq!(a.missing_song_info.artist, 2);
    assert_eq!(a.missing_song_info.title, 1);
    assert_eq!(a.missing_song_info.album, 2);
    assert_eq!(a.missing_song_info.disc_number, 2);
    assert_eq!(a.missing_song_info.track_number, 1);
    assert_eq!(a.song_metadata.len(), 3);
}

#[test]
fn artists_are_distinct_and_sorted() {
    let songs = vec![
        song(Some("Zeppelin"), None, None, None, None, "p1"),
        song(Some("Abba"), None, None, None, None, "p2"),
        song(Some("Zeppelin"), None, None, None, None, "p3"),
        song(None, None, None, None, None, "p4"),
    ];
    let a = SongsAnalysis::from_song_metadata(songs);
    assert_eq!(a.artists, vec!["Abba".to_string(), "Zeppelin".to_string()]);
}

#[test]
fn albums_carry_their_artists_and_default_the_unknown() {
    let songs = vec![
        song(Some("Band"), None, Some("Live"), None, None, "p1"),
        song(Some("Band"), None, Some("Live"), None, None, "p2"),
        song(None, None, Some("Mystery"), None, None, "p3"),
        song(Some("Act"), None, None, None, None, "p4"),
    ];
    let a = SongsAnalysis::from_song_metadata(songs);
    assert_eq!(
        a.albums,
        vec![
            "Live (Band)".to_string(),
            "Mystery (Unknown artist)".to_string(),
        ]
    );
}

#[test]
fn albums_sort_by_artist_then_album() {
    let songs = vec![
        song(Some("B"), None, Some("First"), None, None, "p1"),
        song(Some("A"), None, Some("Second"), None, None, "p2"),
        song(Some("A"), None, Some("Alpha"), None, None, "p3"),
    ];
    let a = SongsAnalysis::from_song_metadata(songs);
    assert_eq!(
        a.albums,
        vec![
            "Alpha (A)".to_string(),
            "Second (A)".to_string(),
            "First (B)".to_string(),
        ]
    );
}

#[test]
fn widest_track_number_counts_digits() {
    let songs = vec![
        song(None, None, None, None, Some(7), "p1"),
        song(None, None, None, None, Some(123), "p2"),
        song(None, None, None, None, None, "p3"),
    ];
    let a = SongsAnalysis::from_song_metadata(songs);
    assert_eq!(a.misc.most_digits_in_track_number, 3);
}

#[test]
fn zero_track_number_still_counts_one_digit() {
    let songs = vec![song(None, None, None, None, Some(0), "p1")];
    let a = SongsAnalysis::from_song_metadata(songs);
    assert_eq!(a.misc.most_digits_in_track_number, 1);
}

#[test]
fn empty_collection_summarizes_to_nothing() {
    let a = SongsAnalysis::from_song_metadata(vec![]);
    assert_eq!(a.artists.len(), 0);
    assert_eq!(a.albums.len(), 0);
    assert_eq!(a.missing_song_info.artist, 0);
    assert_eq!(a.misc.most_digits_in_track_number, 0);
}

#[test]
fn analysis_of_three_matched_files_ignores_the_cover() {
    // The three audio files of a directory listing; the cover never
    // becomes metadata, so no count reflects it.
    let songs = vec![
        song(None, None, None, None, Some(3), "src/03.flac"),
        song(None, None, None, None, Some(1), "src/1.flac"),
        song(None, None, None, None, Some(2), "src/2.flac"),
    ];
    let a = SongsAnalysis::from_song_metadata(songs);
    assert_eq!(a.song_metadata.len(), 3);
    assert_eq!(a.missing_song_info.artist, 3);
    assert_eq!(a.missing_song_info.track_number, 0);
    assert!(!a.song_metadata.iter().any(|m| m.filepath.contains("cover")));
}
