use media_manager::domain::provenance::{Confidence, Field, Source};
use media_manager::engine::music_group::{group_albums, has_partial_disc_info, is_multi_disc};
use media_manager::engine::music_resolve::ResolvedTrack;

fn track(album_artist: Option<&str>, album: Option<&str>, year: Option<u16>) -> ResolvedTrack {
    let mut t = ResolvedTrack::default();
    if let Some(a) = album_artist {
        t.album_artist = Field::known(a.to_string(), Source::EmbeddedTag, Confidence::High);
    }
    if let Some(a) = album {
        t.album = Field::known(a.to_string(), Source::EmbeddedTag, Confidence::High);
    }
    if let Some(y) = year {
        t.year = Field::known(y, Source::EmbeddedTag, Confidence::High);
    }
    t
}

#[test]
fn groups_by_album_artist_and_album() {
    let a = track(Some("Nina Simone"), Some("Wild Is the Wind"), Some(1966));
    let b = track(Some("Nina Simone"), Some("Wild Is the Wind"), Some(1966));
    let c = track(Some("Miles Davis"), Some("Kind of Blue"), Some(1959));
    let items = vec![(0, &a), (1, &b), (2, &c)];
    let groups = group_albums(&items);
    assert_eq!(groups.len(), 2);
    let nina = groups
        .iter()
        .find(|g| g.id.album_artist.key.contains("nina"))
        .unwrap();
    assert_eq!(nina.items.len(), 2);
}

#[test]
fn items_missing_either_discriminator_are_excluded() {
    let a = track(Some("Artist"), None, None);
    let b = track(None, Some("Album"), None);
    let items = vec![(0, &a), (1, &b)];
    let groups = group_albums(&items);
    assert!(groups.is_empty());
}

#[test]
fn canonical_year_is_majority() {
    let a = track(Some("X"), Some("Y"), Some(2000));
    let b = track(Some("X"), Some("Y"), Some(2000));
    let c = track(Some("X"), Some("Y"), Some(1999));
    let items = vec![(0, &a), (1, &b), (2, &c)];
    let groups = group_albums(&items);
    assert_eq!(groups.len(), 1);
    assert_eq!(groups[0].id.year, Some(2000));
}

#[test]
fn partial_disc_info_detected() {
    let mut a = track(Some("X"), Some("Y"), None);
    a.disc = Field::known(1u16, Source::EmbeddedTag, Confidence::High);
    let b = track(Some("X"), Some("Y"), None);
    let tracks = vec![(0, &a), (1, &b)];
    assert!(has_partial_disc_info(&[0, 1], &tracks));
    assert!(!has_partial_disc_info(&[0], &tracks));
}

#[test]
fn multi_disc_detection() {
    let mut a = track(Some("X"), Some("Y"), None);
    a.disc = Field::known(1u16, Source::EmbeddedTag, Confidence::High);
    let mut b = track(Some("X"), Some("Y"), None);
    b.disc = Field::known(2u16, Source::EmbeddedTag, Confidence::High);
    let tracks = vec![(0, &a), (1, &b)];
    assert!(is_multi_disc(&[0, 1], &tracks));
    assert!(!is_multi_disc(&[0], &tracks));
}
