use media_manager::domain::classify::FileClass;
use media_manager::domain::config::{
    all_sources, config_print, detection_failure_severity, source_rank, Config, ConfigOverrides,
    ConflictPolicy, StrategyConfig, VerifyMode, Workers,
};
use media_manager::domain::error::Severity;
use media_manager::domain::identity::SourcePreference;
use media_manager::domain::provenance::Source;
use media_manager::domain::volume::NoReplaceStrategy;

#[test]
fn defaults_are_valid() {
    assert!(Config::default().validate().is_ok());
}

#[test]
fn later_layers_win() {
    let mut user = Config::default();
    user.moves.verify = VerifyMode::Hash;
    let overrides = ConfigOverrides {
        strategy: Some(StrategyConfig::Reserve),
        conflict_policy: Some(ConflictPolicy::Skip),
        ..Default::default()
    };
    let cfg = Config::layered(Some(user), None, &overrides).unwrap();
    assert_eq!(cfg.moves.verify, VerifyMode::Hash);
    assert_eq!(cfg.moves.no_replace_strategy, StrategyConfig::Reserve);
    assert_eq!(cfg.conflict.policy, ConflictPolicy::Skip);
}

#[test]
fn overrides_that_say_nothing_change_nothing() {
    let cfg = Config::layered(None, None, &ConfigOverrides::default()).unwrap();
    assert_eq!(cfg.moves.no_replace_strategy, Config::default().moves.no_replace_strategy);
    assert_eq!(cfg.conflict.policy, Config::default().conflict.policy);
}

#[test]
fn extensions_decide_the_class() {
    let cfg = Config::default();
    assert_eq!(cfg.classify_ext("mkv"), FileClass::Video);
    assert_eq!(cfg.classify_ext("flac"), FileClass::Audio);
    assert_eq!(cfg.classify_ext("srt"), FileClass::Subtitle);
    assert_eq!(cfg.classify_ext("xyz"), FileClass::Unknown);
}

#[test]
fn strategies_and_workers_resolve() {
    assert_eq!(
        StrategyConfig::Auto.resolve(NoReplaceStrategy::Reserve),
        NoReplaceStrategy::Reserve
    );
    assert_eq!(
        StrategyConfig::Native.resolve(NoReplaceStrategy::Reserve),
        NoReplaceStrategy::Native
    );
    assert_eq!(Workers::Auto.resolve(4), 4);
    assert_eq!(Workers::Fixed(2).resolve(4), 2);
}

#[test]
fn digest_is_that_of_the_text() {
    assert_eq!(
        Config::digest("abc"),
        "6437b3ac3846"
    );
    assert_ne!(Config::digest("a"), Config::digest("b"));
}

#[test]
fn printed_config_names_its_settings() {
    let lines = config_print(&Config::default());
    assert!(!lines.is_empty());
    assert!(lines.iter().all(|(k, _)| !k.is_empty()));
}

#[test]
fn sources_are_listed_and_ranked() {
    let all = all_sources();
    assert_eq!(all.len(), 7);
    assert_eq!(all[0], Source::EmbeddedTag);
    let prefs = SourcePreference::conservative_default();
    for s in all {
        assert_eq!(source_rank(&prefs, s), prefs.rank(s).0);
    }
    assert!(source_rank(&prefs, Source::EmbeddedTag) != source_rank(&prefs, Source::Filename));
    assert_eq!(detection_failure_severity(), Severity::Warning);
}

#[test]
fn overrides_alone_are_written_into_the_defaults() {
    let mut flags = ConfigOverrides::default();
    assert_eq!(config_print(&flags.to_config()), config_print(&Config::default()));
    flags.conflict_policy = Some(ConflictPolicy::Replace);
    assert_eq!(flags.to_config().conflict.policy, ConflictPolicy::Replace);
}
