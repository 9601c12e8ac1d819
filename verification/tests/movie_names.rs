use media_manager::parse::movie::{parse_movie_filename, ParseOptions};

fn opts() -> ParseOptions {
    ParseOptions { min_year: 1888, max_year: 2027 }
}

#[test]
fn simple_title_year_resolution_source_codec() {
    let p = parse_movie_filename("Inception.2010.1080p.BluRay.x264-RARBG.mkv", &opts());
    assert_eq!(p.title.as_value().unwrap(), "Inception");
    assert_eq!(*p.year.as_value().unwrap(), 2010);
    assert_eq!(p.resolution.as_value().unwrap(), "1080p");
    assert_eq!(p.source.as_value().unwrap(), "BluRay");
    assert_eq!(p.video_codec.as_value().unwrap(), "x264");
    assert_eq!(p.release_group.as_value().unwrap(), "RARBG");
}

#[test]
fn year_in_title_uses_rightmost_bare_or_bracketed() {
    let p = parse_movie_filename("Blade Runner 2049 (2017).mkv", &opts());
    assert_eq!(p.title.as_value().unwrap(), "Blade Runner 2049");
    assert_eq!(*p.year.as_value().unwrap(), 2017);
}

#[test]
fn edition_is_vocabulary_matched_not_left_in_title() {
    let p = parse_movie_filename(
        "Blade Runner 2049 (2017) - Director's Cut - 1080p.mkv",
        &opts(),
    );
    assert_eq!(p.title.as_value().unwrap(), "Blade Runner 2049");
    assert_eq!(*p.year.as_value().unwrap(), 2017);
    assert_eq!(p.edition.as_value().unwrap(), "Director's Cut");
    assert_eq!(p.resolution.as_value().unwrap(), "1080p");
}

#[test]
fn flags_episode_like_names_as_ambiguous() {
    let p = parse_movie_filename("Show.Name.S01E01.1080p.mkv", &opts());
    assert!(p.ambiguous_episode_like);
}

#[test]
fn no_year_present_is_unknown_not_guessed() {
    let p = parse_movie_filename("Movie Title 1080p.mkv", &opts());
    assert!(p.year.as_value().is_none());
    assert_eq!(p.title.as_value().unwrap(), "Movie Title");
}

#[test]
fn movie_never_panics_on_arbitrary_input() {
    for s in ["", ".", "🎬🎬.mkv", "(((((", "S01E01E02E03E04.mkv", "1999.1999.1999.mkv"] {
        let _ = parse_movie_filename(s, &opts());
    }
}
