use media_manager::domain::config::Config;
use media_manager::domain::plan::{FieldName, Readiness};
use media_manager::domain::provenance::{Confidence, Field, Source};
use media_manager::engine::tv_resolve::ResolvedEpisode;

fn known<T>(v: T, c: Confidence) -> Field<T> {
    Field::known(v, Source::Filename, c)
}

#[test]
fn ready_when_title_season_episodes_known() {
    let r = ResolvedEpisode {
        title: known("Show".to_string(), Confidence::Medium),
        season: known(1u16, Confidence::High),
        episodes: known(vec![2u16], Confidence::High),
        ..Default::default()
    };
    let cfg = Config::default();
    assert_eq!(r.readiness(&cfg), Readiness::Ready);
}

#[test]
fn missing_episodes_needs_review() {
    let r = ResolvedEpisode {
        title: known("Show".to_string(), Confidence::Medium),
        season: known(1u16, Confidence::High),
        ..Default::default()
    };
    let cfg = Config::default();
    match r.readiness(&cfg) {
        Readiness::NeedsReview { missing, .. } => {
            assert!(missing.contains(&FieldName::Episodes));
        }
        other => panic!("expected NeedsReview, got {other:?}"),
    }
}

#[test]
fn ambiguous_marker_is_ambiguous_readiness_not_needs_review() {
    let r = ResolvedEpisode {
        title: known("Show".to_string(), Confidence::Medium),
        ambiguous: true,
        ..Default::default()
    };
    let cfg = Config::default();
    assert!(matches!(r.readiness(&cfg), Readiness::Ambiguous { .. }));
}

#[test]
fn year_not_required_by_default() {
    let r = ResolvedEpisode {
        title: known("Show".to_string(), Confidence::Medium),
        season: known(1u16, Confidence::High),
        episodes: known(vec![1u16], Confidence::High),
        ..Default::default()
    };
    let cfg = Config::default();
    assert!(!cfg.behaviour.require_year_for_tv);
    assert_eq!(r.readiness(&cfg), Readiness::Ready);
}
