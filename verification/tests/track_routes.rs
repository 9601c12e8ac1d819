use media_manager::domain::classify::FileClass;
use media_manager::domain::config::Config;
use media_manager::domain::identity::{AlbumId, Norm};
use media_manager::domain::path::FilePath;
use media_manager::domain::provenance::{Confidence, Field, Source};
use media_manager::domain::volume::VolumeSemantics;
use media_manager::engine::music_resolve::ResolvedTrack;
use media_manager::engine::music_route::{route, MusicRouteContext};

fn ctx<'a>(
    root: &'a FilePath,
    id: &'a AlbumId,
    resolved: &'a ResolvedTrack,
    multi_disc: bool,
    volume: &'a VolumeSemantics,
    cfg: &'a Config,
) -> MusicRouteContext<'a> {
    MusicRouteContext {
        root,
        id,
        resolved,
        multi_disc,
        volume,
        cfg,
    }
}

fn resolved_track() -> ResolvedTrack {
    let mut r = ResolvedTrack::default();
    r.album_artist = Field::known("Nina Simone".to_string(), Source::EmbeddedTag, Confidence::High);
    r.album = Field::known("Wild Is the Wind".to_string(), Source::EmbeddedTag, Confidence::High);
    r.year = Field::known(1966u16, Source::EmbeddedTag, Confidence::High);
    r.track = Field::known(3u16, Source::EmbeddedTag, Confidence::High);
    r.title = Field::known("Four Women".to_string(), Source::EmbeddedTag, Confidence::High);
    r
}

#[test]
fn routes_basic_track() {
    let root = FilePath::new("/music");
    let resolved = resolved_track();
    let id = AlbumId::new(
        Norm::from_display("Nina Simone"),
        Norm::from_display("Wild Is the Wind"),
    );
    let volume = VolumeSemantics::conservative();
    let cfg = Config::default();
    let c = ctx(&root, &id, &resolved, false, &volume, &cfg);

    let (_abs, rel) = route(&c, FileClass::Audio, &FilePath::new("03 Four Women.flac")).unwrap();
    assert_eq!(rel.to_text(), "Nina Simone/Wild Is the Wind (1966)/03 - Four Women.flac");
}

#[test]
fn disc_dir_only_when_multi_disc_and_known() {
    let root = FilePath::new("/music");
    let mut resolved = resolved_track();
    resolved.disc = Field::known(2u16, Source::EmbeddedTag, Confidence::High);
    let id = AlbumId::new(
        Norm::from_display("Nina Simone"),
        Norm::from_display("Wild Is the Wind"),
    );
    let volume = VolumeSemantics::conservative();
    let cfg = Config::default();
    let c = ctx(&root, &id, &resolved, true, &volume, &cfg);

    let (_abs, rel) = route(&c, FileClass::Audio, &FilePath::new("2-03 Four Women.flac")).unwrap();
    assert_eq!(rel.to_text(), "Nina Simone/Wild Is the Wind (1966)/CD 2/03 - Four Women.flac");
}

#[test]
fn root_prefix_stripped_for_artist_folder() {
    let root = FilePath::new("/music/Nina Simone");
    let resolved = resolved_track();
    let id = AlbumId::new(
        Norm::from_display("Nina Simone"),
        Norm::from_display("Wild Is the Wind"),
    );
    let volume = VolumeSemantics::conservative();
    let cfg = Config::default();
    let c = ctx(&root, &id, &resolved, false, &volume, &cfg);

    let (_abs, rel) = route(&c, FileClass::Audio, &FilePath::new("03 Four Women.flac")).unwrap();
    assert_eq!(rel.to_text(), "Wild Is the Wind (1966)/03 - Four Women.flac");
}
