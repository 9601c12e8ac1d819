use media_manager::parse::{parse_track_filename, ParseOptions};

fn opts() -> ParseOptions {
    ParseOptions::default()
}

#[test]
fn plain_track_and_title() {
    let t = parse_track_filename("01 - Feeling Good.mp3", &opts());
    assert_eq!(t.track.as_value().copied(), Some(1));
    assert_eq!(t.disc.as_value().copied(), None);
    assert_eq!(t.title.as_value().map(String::as_str), Some("Feeling Good"));
    assert!(!t.ambiguous_artist_title);
}

#[test]
fn dotted_track_prefix() {
    let t = parse_track_filename("07. Mr. Bojangles.flac", &opts());
    assert_eq!(t.track.as_value().copied(), Some(7));
    assert_eq!(t.title.as_value().map(String::as_str), Some("Mr. Bojangles"));
}

#[test]
fn disc_track_dash_form() {
    let t = parse_track_filename("1-07 - Money.flac", &opts());
    assert_eq!(t.disc.as_value().copied(), Some(1));
    assert_eq!(t.track.as_value().copied(), Some(7));
    assert_eq!(t.title.as_value().map(String::as_str), Some("Money"));
}

#[test]
fn disc_track_dot_form() {
    let t = parse_track_filename("2.03 Come Together.m4a", &opts());
    assert_eq!(t.disc.as_value().copied(), Some(2));
    assert_eq!(t.track.as_value().copied(), Some(3));
    assert_eq!(t.title.as_value().map(String::as_str), Some("Come Together"));
}

#[test]
fn no_track_number_at_all() {
    let t = parse_track_filename("Bohemian Rhapsody.mp3", &opts());
    assert!(t.track.as_value().is_none());
    assert!(t.disc.as_value().is_none());
    assert_eq!(t.title.as_value().map(String::as_str), Some("Bohemian Rhapsody"));
}

#[test]
fn bare_year_like_prefix_is_not_a_track_number() {
    // Four digits never match the track/disc prefixes (max 3), so this
    // is left as a plain title rather than misread as a track number.
    let t = parse_track_filename("1999 Little Red Corvette.mp3", &opts());
    assert!(t.track.as_value().is_none());
    assert_eq!(
        t.title.as_value().map(String::as_str),
        Some("1999 Little Red Corvette")
    );
}

#[test]
fn ambiguous_artist_title_split_is_not_guessed() {
    // `N - A - B` without tags: left for review.
    let t = parse_track_filename("03 - Nina Simone - Feeling Good.mp3", &opts());
    assert_eq!(t.track.as_value().copied(), Some(3));
    assert!(t.ambiguous_artist_title);
    assert!(t.title.as_value().is_none());
}

#[test]
fn title_containing_a_literal_dash_without_track_number_is_not_flagged_ambiguous() {
    // Without a track number nothing splits the name.
    let t = parse_track_filename("Nina Simone - Feeling Good.mp3", &opts());
    assert!(!t.ambiguous_artist_title);
    assert_eq!(
        t.title.as_value().map(String::as_str),
        Some("Nina Simone - Feeling Good")
    );
}

#[test]
fn no_separator_after_number_is_left_alone() {
    // `01Title` has no separator between the number and the rest, so
    // there's no reliable cut point.
    let t = parse_track_filename("01Title.mp3", &opts());
    assert!(t.track.as_value().is_none());
    assert_eq!(t.title.as_value().map(String::as_str), Some("01Title"));
}

#[test]
fn empty_filename_yields_all_unknown() {
    let t = parse_track_filename(".mp3", &opts());
    assert!(t.title.as_value().is_none());
    assert!(t.track.as_value().is_none());
}
