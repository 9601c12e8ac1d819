use media_manager::parse::tokens::{release_group_of, tokenize};

#[test]
fn tokenises_basic_movie() {
    let toks = tokenize("Inception.2010.1080p.BluRay.x264.mkv");
    assert_eq!(
        toks.iter().map(|t| t.text.as_str()).collect::<Vec<_>>(),
        vec!["Inception", "2010", "1080p", "BluRay", "x264"]
    );
}

#[test]
fn strips_release_group() {
    let toks = tokenize("Movie.2020.1080p-RARBG.mkv");
    assert!(!toks.iter().any(|t| t.text == "RARBG"));
    assert_eq!(
        release_group_of("Movie.2020.1080p-RARBG.mkv").as_deref(),
        Some("RARBG")
    );
}

#[test]
fn strips_bracketed_release_group() {
    let name = "Whiplash.2014.720p.WEB-DL.AV1.TrueHD[YTS.MX].mkv";
    assert_eq!(release_group_of(name).as_deref(), Some("YTS.MX"));
    let toks = tokenize(name);
    assert!(!toks.iter().any(|t| t.text.contains("YTS")));
    // WEB-DL, a legitimate dash-containing source tag, must survive.
    assert!(toks.iter().any(|t| t.text == "WEB-DL"));
}

#[test]
fn bracketed_year_is_not_a_release_group() {
    assert_eq!(release_group_of("Inception (2010).mkv"), None);
    assert_eq!(release_group_of("Movie.[2010].mkv"), None);
}

#[test]
fn trailing_vocab_tag_is_not_a_release_group() {
    // A source tag ending the name (no group after it) must not be
    // mistaken for a release group, even though it contains a dash.
    assert_eq!(release_group_of("Movie.2020.1080p.WEB-DL.mkv"), None);
    assert_eq!(
        release_group_of("Spirited Away (2001) [1080p] [BluRay] [x264].mkv"),
        None
    );
}
