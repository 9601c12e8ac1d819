use media_manager::domain::config::Config;
use media_manager::domain::identity::SourcePreference;
use media_manager::domain::plan::Readiness;
use media_manager::domain::provenance::{Confidence, Field, Source};
use media_manager::engine::music_resolve::{AudioTags, ResolvedTrack};
use media_manager::parse::ParsedTrack;

fn parsed_track() -> ParsedTrack {
    ParsedTrack::new()
}

#[test]
fn tags_outrank_filename_for_album() {
    let prefs = SourcePreference::conservative_default();
    let mut r = ResolvedTrack::from_parsed(&parsed_track());
    r.album = Field::known("From Filename".to_string(), Source::Filename, Confidence::High);

    let tags = AudioTags {
        album: Some("From Tag".to_string()),
        ..Default::default()
    };
    r.merge_tags(&tags, &prefs);

    assert_eq!(r.album.as_value().map(String::as_str), Some("From Tag"));
    assert_eq!(r.album.source(), Some(Source::EmbeddedTag));
}

#[test]
fn album_artist_falls_back_to_track_artist_when_not_compilation() {
    let prefs = SourcePreference::conservative_default();
    let mut r = ResolvedTrack::from_parsed(&parsed_track());
    let tags = AudioTags {
        artist: Some("Nina Simone".to_string()),
        album_artist: None,
        ..Default::default()
    };
    r.merge_tags(&tags, &prefs);
    assert_eq!(
        r.album_artist.as_value().map(String::as_str),
        Some("Nina Simone")
    );
}

#[test]
fn compilation_does_not_fall_back_to_per_track_artist() {
    let prefs = SourcePreference::conservative_default();
    let mut r = ResolvedTrack::from_parsed(&parsed_track());
    let tags = AudioTags {
        artist: Some("Some One-Off Artist".to_string()),
        album_artist: None,
        compilation: Some(true),
        ..Default::default()
    };
    r.merge_tags(&tags, &prefs);
    assert_eq!(
        r.album_artist.as_value().map(String::as_str),
        Some("Various Artists"),
        "compilation with no album-artist tag must not key on the individual track artist"
    );
}

#[test]
fn explicit_various_artists_album_artist_is_respected_and_detected_as_compilation() {
    let prefs = SourcePreference::conservative_default();
    let mut r = ResolvedTrack::from_parsed(&parsed_track());
    let tags = AudioTags {
        artist: Some("Track Artist".to_string()),
        album_artist: Some("Various Artists".to_string()),
        ..Default::default()
    };
    r.merge_tags(&tags, &prefs);
    assert!(r.compilation);
    assert_eq!(
        r.album_artist.as_value().map(String::as_str),
        Some("Various Artists")
    );
}

#[test]
fn readiness_requires_album_artist_album_title_but_not_track() {
    let cfg = Config::default();
    let mut r = ResolvedTrack::from_parsed(&parsed_track());
    r.album_artist = Field::known("Artist".to_string(), Source::Filename, Confidence::Medium);
    r.album = Field::known("Album".to_string(), Source::Filename, Confidence::Medium);
    r.title = Field::known("Title".to_string(), Source::Filename, Confidence::Medium);
    assert!(matches!(r.readiness(&cfg), Readiness::Ready));
}

#[test]
fn ambiguous_title_surfaces_specific_reason() {
    let cfg = Config::default();
    let mut r = ResolvedTrack::from_parsed(&parsed_track());
    r.album_artist = Field::known("Artist".to_string(), Source::Filename, Confidence::Medium);
    r.album = Field::known("Album".to_string(), Source::Filename, Confidence::Medium);
    r.ambiguous_artist_title = true;
    match r.readiness(&cfg) {
        Readiness::NeedsReview { reasons, .. } => {
            assert!(reasons.iter().any(|r| r.contains("§3.3")));
        }
        other => panic!("expected NeedsReview, got {other:?}"),
    }
}
