use media_manager::parse::{parse_episode_filename, ParseOptions, ParsedEpisode};

fn ep(name: &str) -> ParsedEpisode {
    parse_episode_filename(name, &ParseOptions::default())
}

#[test]
fn parses_plain_single_episode() {
    let p = ep("Show.Name.S01E02.1080p.WEB.x264-GROUP.mkv");
    assert_eq!(p.title.as_value().unwrap(), "Show Name");
    assert_eq!(p.season.as_value().copied().unwrap(), 1);
    assert_eq!(p.episodes.as_value().unwrap(), &vec![2]);
    assert_eq!(p.resolution.as_value().unwrap(), "1080p");
    assert_eq!(p.release_group.as_value().unwrap(), "GROUP");
}

#[test]
fn parses_episode_title_between_marker_and_resolution() {
    let p = ep("Show (2011) - S01E01 - Winter Is Coming - 1080p.mkv");
    assert_eq!(p.title.as_value().unwrap(), "Show");
    assert_eq!(p.year.as_value().copied().unwrap(), 2011);
    assert_eq!(p.season.as_value().copied().unwrap(), 1);
    assert_eq!(p.episodes.as_value().unwrap(), &vec![1]);
    assert_eq!(p.episode_title.as_value().unwrap(), "Winter Is Coming");
    assert_eq!(p.resolution.as_value().unwrap(), "1080p");
}

#[test]
fn concatenated_multi_episode() {
    let p = ep("Show.Name.S01E01E02.720p.mkv");
    assert_eq!(p.season.as_value().copied().unwrap(), 1);
    assert_eq!(p.episodes.as_value().unwrap(), &vec![1, 2]);
}

#[test]
fn dash_e_multi_episode() {
    let p = ep("Show.Name.S01E01-E02.720p.mkv");
    assert_eq!(p.season.as_value().copied().unwrap(), 1);
    assert_eq!(p.episodes.as_value().unwrap(), &vec![1, 2]);
}

#[test]
fn dash_bare_multi_episode() {
    let p = ep("Show.Name.S01E01-02.720p.mkv");
    assert_eq!(p.season.as_value().copied().unwrap(), 1);
    assert_eq!(p.episodes.as_value().unwrap(), &vec![1, 2]);
}

#[test]
fn cross_season_dash_same_season_expands() {
    let p = ep("Show.Name.S01E01-S01E02.mkv");
    assert_eq!(p.season.as_value().copied().unwrap(), 1);
    assert_eq!(p.episodes.as_value().unwrap(), &vec![1, 2]);
}

#[test]
fn cross_season_dash_different_season_is_ambiguous() {
    let p = ep("Show.Name.S01E10-S02E01.mkv");
    assert!(p.ambiguous);
    assert!(p.season.as_value().is_none());
    assert!(p.episodes.as_value().is_none());
}

#[test]
fn ampersand_multi_episode() {
    let p = ep("Show.Name.S01E01.&.S01E02.mkv");
    assert_eq!(p.season.as_value().copied().unwrap(), 1);
    assert_eq!(p.episodes.as_value().unwrap(), &vec![1, 2]);
}

#[test]
fn absolute_style_nxnn() {
    let p = ep("Show.Name.1x05.720p.mkv");
    assert_eq!(p.season.as_value().copied().unwrap(), 1);
    assert_eq!(p.episodes.as_value().unwrap(), &vec![5]);
    assert!(!p.ambiguous);
}

#[test]
fn nxnn_multi_episode() {
    let p = ep("Show.Name.1x01x02.mkv");
    assert_eq!(p.season.as_value().copied().unwrap(), 1);
    assert_eq!(p.episodes.as_value().unwrap(), &vec![1, 2]);
}

#[test]
fn bare_e_range_no_season() {
    let p = ep("Show.Name.E01-E03.mkv");
    assert!(p.season.as_value().is_none());
    assert_eq!(p.episodes.as_value().unwrap(), &vec![1, 2, 3]);
}

#[test]
fn special_numeric_is_season_zero() {
    let p = ep("Show.Name.S00E01.720p.mkv");
    assert_eq!(p.season.as_value().copied().unwrap(), 0);
    assert_eq!(p.episodes.as_value().unwrap(), &vec![1]);
}

#[test]
fn special_word_numeric_is_season_zero() {
    let p = ep("Show.Name.Special.05.mkv");
    assert_eq!(p.season.as_value().copied().unwrap(), 0);
    assert_eq!(p.episodes.as_value().unwrap(), &vec![5]);
}

#[test]
fn title_only_special_never_invents_episode_number() {
    let p = ep("Show Name - Christmas Special.mkv");
    assert_eq!(p.title.as_value().unwrap(), "Show Name");
    assert_eq!(p.season.as_value().copied().unwrap(), 0);
    assert!(p.episodes.as_value().is_none(), "must never invent a number");
    assert_eq!(p.episode_title.as_value().unwrap(), "Christmas Special");
}

#[test]
fn absolute_numbering_is_ambiguous_and_not_a_year() {
    let p = ep("Show Name - 137.mkv");
    assert!(p.ambiguous);
    assert_eq!(p.episodes.as_value().unwrap(), &vec![137]);
    assert!(p.season.as_value().is_none());
}

#[test]
fn trailing_bare_year_is_not_absolute_numbering() {
    // A plain trailing "- 2011" must not be misread as absolute episode
    // numbering just because there is no S/E marker — 2011 is in the
    // configured year range and must be left alone by the marker finder.
    let p = ep("Some Show - 2011.mkv");
    assert!(!p.ambiguous);
    assert!(p.episodes.as_value().is_none());
}

#[test]
fn underscore_separated_marker_is_still_found() {
    let p = ep("Show_Name_S01E02_1080p.mkv");
    assert_eq!(p.season.as_value().copied().unwrap(), 1);
    assert_eq!(p.episodes.as_value().unwrap(), &vec![2]);
    assert_eq!(p.title.as_value().unwrap(), "Show Name");
}

#[test]
fn year_after_marker_is_not_confused_with_marker() {
    let p = ep("Show.Name.S01E02.2019.1080p.mkv");
    assert_eq!(p.season.as_value().copied().unwrap(), 1);
    assert_eq!(p.episodes.as_value().unwrap(), &vec![2]);
    assert_eq!(p.year.as_value().copied().unwrap(), 2019);
}

#[test]
fn multi_episode_never_split_to_first_only() {
    let p = ep("Show.Name.S02E05E06E07.mkv");
    assert_eq!(p.episodes.as_value().unwrap().len(), 3);
    assert_eq!(p.episodes.as_value().unwrap(), &vec![5, 6, 7]);
}
