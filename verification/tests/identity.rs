use media_manager::domain::identity::{
    pick_best, AlbumId, Edition, EpisodeId, MovieId, Norm, ShowId, SourcePreference,
};
use media_manager::domain::provenance::{Confidence, Field, Source};

#[test]
fn normalises_case_and_punctuation() {
    let n = Norm::from_display("The Matrix: Reloaded!");
    assert_eq!(n.key, "the matrix reloaded");
    assert_eq!(n.display, "The Matrix: Reloaded!");
}

#[test]
fn strips_articles_when_configured() {
    let n = Norm::from_display_with("The Matrix", Norm::options(true));
    assert_eq!(n.key, "matrix");
}

#[test]
fn episode_code_multi() {
    let id = EpisodeId::new(ShowId::new(Norm::from_display("Foo")), 1, vec![1, 2]);
    assert_eq!(id.code(), "S01E01E02");
}

#[test]
fn confidence_ordering() {
    assert!(Confidence::High > Confidence::Medium);
    assert!(Confidence::Medium > Confidence::Low);
    assert!(Confidence::High.meets(Confidence::Medium));
    assert!(!Confidence::Low.meets(Confidence::Medium));
}

#[test]
fn pick_best_prefers_higher_source() {
    let prefs = SourcePreference::conservative_default();
    let a = Field::known("from-file".to_string(), Source::Filename, Confidence::High);
    let b = Field::known("from-tag".to_string(), Source::EmbeddedTag, Confidence::High);
    let best = pick_best(&a, &b, &prefs);
    assert_eq!(best.as_value().unwrap(), &"from-tag".to_string());
}

#[test]
fn identity_goes_by_the_key_not_the_spelling() {
    let a = Norm::from_display("AMELIE!");
    let b = Norm::from_display("Amelie");
    assert!(a == b);
    assert_ne!(a.display, b.display);
    assert!(MovieId::new(Norm::from_display("Heat")) == MovieId::new(Norm::from_display("HEAT")));
    let mut cut = MovieId::new(Norm::from_display("Heat"));
    cut.edition = Some(Edition::new("Director's Cut".to_string()));
    assert!(cut != MovieId::new(Norm::from_display("Heat")));
}

#[test]
fn composed_and_decomposed_letters_have_one_key() {
    let composed = Norm::from_display("Am\u{e9}lie");
    let decomposed = Norm::from_display("Ame\u{301}lie");
    assert_eq!(composed.key, decomposed.key);
}

#[test]
fn ids_of_shows_and_episodes_compare_by_their_parts() {
    let show = ShowId::new(Norm::from_display("Foo"));
    let same = ShowId::new(Norm::from_display("FOO"));
    assert!(show.same(&same));
    let a = EpisodeId::new(show, 1, vec![1]);
    let b = EpisodeId::new(same, 1, vec![1, 2]);
    assert!(!a.same(&b));
    assert_eq!(a.code(), "S01E01");
    let album = AlbumId::new(Norm::from_display("Nina Simone"), Norm::from_display("Pastel Blues"));
    assert!(album == AlbumId::new(Norm::from_display("nina simone"), Norm::from_display("Pastel Blues")));
}

#[test]
fn code_of_a_special_names_no_episode() {
    let id = EpisodeId::new(ShowId::new(Norm::from_display("Foo")), 0, vec![5]);
    assert_eq!(id.code(), "S00");
}

#[test]
fn pick_best_takes_what_is_known() {
    let prefs = SourcePreference::conservative_default();
    let a: Field<u16> = Field::unknown(vec![Source::EmbeddedTag]);
    let b = Field::known(2010u16, Source::Filename, Confidence::Low);
    assert_eq!(pick_best(&a, &b, &prefs).as_value().copied(), Some(2010));
    assert_eq!(pick_best(&b, &a, &prefs).as_value().copied(), Some(2010));
}

#[test]
fn field_accessors() {
    let f = Field::known(7u16, Source::Fallback, Confidence::Low);
    assert!(f.is_known());
    assert!(f.is_fallback());
    assert_eq!(f.source(), Some(Source::Fallback));
    assert_eq!(f.confidence(), Some(Confidence::Low));
    assert_eq!(f.map(|n: u16| n + 1).ok(), Some(8));
    let u: Field<u16> = Field::unknown(vec![Source::Filename]);
    assert_eq!(u.source(), None);
    assert_eq!(u.as_value(), None);
    assert!(!u.is_fallback());
}
