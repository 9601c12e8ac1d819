use media_manager::domain::provenance::{Confidence, Source};
use media_manager::parse::model::known;
use media_manager::parse::render::render_movie;
use media_manager::parse::{parse_movie, MediaParse, ParsedMovie};

fn movie(filename: &str) -> ParsedMovie {
    match parse_movie(filename) {
        MediaParse::Movie(m) => m,
        _ => panic!("expected movie"),
    }
}

#[test]
fn parses_inception() {
    let m = movie("Inception.2010.1080p.BluRay.x264.mkv");
    assert_eq!(m.title.as_value().unwrap(), "Inception");
    assert_eq!(m.year.as_value().copied().unwrap(), 2010);
    assert_eq!(m.resolution.as_value().unwrap(), "1080p");
    assert_eq!(m.source.as_value().unwrap(), "BluRay");
    assert_eq!(m.video_codec.as_value().unwrap(), "x264");
}

#[test]
fn blade_runner_year_in_title() {
    let m = movie("Blade Runner 2049 (2017).mkv");
    assert_eq!(m.title.as_value().unwrap(), "Blade Runner 2049");
    assert_eq!(m.year.as_value().copied().unwrap(), 2017);
}

#[test]
fn edition_at_end() {
    let m = movie("Inception (2010) Director's Cut 1080p.mkv");
    assert_eq!(m.title.as_value().unwrap(), "Inception");
    assert_eq!(m.edition.as_value().unwrap(), "Director's Cut");
}

#[test]
fn renders_movie() {
    let m = ParsedMovie {
        title: known("Inception".into(), Source::Filename, Confidence::Medium),
        year: known(2010, Source::Filename, Confidence::High),
        resolution: known("1080p".into(), Source::Filename, Confidence::Medium),
        source: known("BluRay".into(), Source::Filename, Confidence::Medium),
        video_codec: known("x264".into(), Source::Filename, Confidence::Medium),
        ..Default::default()
    };
    assert_eq!(render_movie(&m), "Inception (2010) - 1080p - BluRay - x264");
}
