use media_manager::domain::provenance::{Confidence, Field, Source};
use media_manager::engine::tv_group::group_shows;
use media_manager::engine::tv_resolve::ResolvedEpisode;

fn resolved(title: &str, year: Option<u16>) -> ResolvedEpisode {
    ResolvedEpisode {
        title: Field::known(title.to_string(), Source::Filename, Confidence::Medium),
        year: match year {
            Some(y) => Field::known(y, Source::Filename, Confidence::Medium),
            None => Field::unknown(vec![]),
        },
        season: Field::known(1u16, Source::Filename, Confidence::High),
        episodes: Field::known(vec![1u16], Source::Filename, Confidence::High),
        ..Default::default()
    }
}

#[test]
fn groups_episodes_missing_year_with_episodes_that_have_it() {
    let a = resolved("Show", Some(2011));
    let b = resolved("Show", None);
    let items = vec![(0usize, &a), (1usize, &b)];
    let groups = group_shows(&items);
    assert_eq!(groups.len(), 1);
    assert_eq!(groups[0].id.year, Some(2011));
    assert_eq!(groups[0].items.len(), 2);
}

#[test]
fn different_titles_are_different_groups() {
    let a = resolved("Show One", Some(2011));
    let b = resolved("Show Two", Some(2015));
    let items = vec![(0usize, &a), (1usize, &b)];
    let groups = group_shows(&items);
    assert_eq!(groups.len(), 2);
}
