//! Configuration.
//!
//! Layered, later wins: built-in defaults, user config, project config, then
//! command-line flags. Its digest goes into every plan and journal line.

pub mod default;

use crate::domain::classify::FileClass;
use crate::domain::error::{note, CoreError, Diagnostic, Severity};
use crate::domain::identity::SourcePreference;
use crate::domain::provenance::{Confidence, Source};
use crate::domain::template::Template;
use crate::domain::volume::NoReplaceStrategy;
use crate::hashing;
use crate::text;
use vstd::prelude::*;
use vstd::utf8::encode_utf8;

verus! {

/// Top-level configuration.
#[derive(Debug, Clone)]
pub struct Config {
    pub schema_version: u32,
    pub extensions: Extensions,
    pub behaviour: Behaviour,
    pub moves: Moves,
    pub conflict: Conflict,
    pub cleanup: Cleanup,
    pub providers: Providers,
    pub concurrency: Concurrency,
    pub naming: Naming,
    pub source_preference: SourcePreference,
}

impl Default for Config {
    fn default() -> (r: Self)
        ensures
            default::is_default(r),
    {
        default::default_config()
    }
}

/// Extension sets.
#[derive(Debug, Clone)]
pub struct Extensions {
    pub video: Vec<String>,
    pub audio: Vec<String>,
    pub subtitle: Vec<String>,
    pub artwork: Vec<String>,
    pub metadata: Vec<String>,
}

impl Default for Extensions {
    fn default() -> (r: Self)
        ensures
            default::are_default_extensions(r),
    {
        default::default_extensions()
    }
}

/// Behaviour toggles.
#[derive(Debug, Clone, Copy, PartialEq, Eq, Structural)]
pub struct Behaviour {
    pub symlinks: SymlinkPolicy,
    pub create_subs_dir: bool,
    pub normalise_artwork: bool,
    pub require_year_for_movies: bool,
    pub require_year_for_tv: bool,
    pub min_confidence: Confidence,
}

impl Default for Behaviour {
    fn default() -> (r: Self)
        ensures
            r == (Behaviour {
                symlinks: SymlinkPolicy::Skip,
                create_subs_dir: true,
                normalise_artwork: false,
                require_year_for_movies: true,
                require_year_for_tv: false,
                min_confidence: Confidence::Medium,
            }),
    {
        Behaviour {
            symlinks: SymlinkPolicy::Skip,
            create_subs_dir: true,
            normalise_artwork: false,
            require_year_for_movies: true,
            require_year_for_tv: false,
            min_confidence: Confidence::Medium,
        }
    }
}

/// What to do with symbolic links.
#[derive(Debug, Clone, Copy, PartialEq, Eq, Structural)]
pub enum SymlinkPolicy {
    Skip,
    Follow,
    TreatAsFile,
}

/// Move strategy options.
#[derive(Debug, Clone, Copy, PartialEq, Eq, Structural)]
pub struct Moves {
    pub no_replace_strategy: StrategyConfig,
    pub verify: VerifyMode,
    pub preserve_mtime: bool,
}

impl Default for Moves {
    fn default() -> (r: Self)
        ensures
            r == (Moves {
                no_replace_strategy: StrategyConfig::Auto,
                verify: VerifyMode::Size,
                preserve_mtime: true,
            }),
    {
        Moves {
            no_replace_strategy: StrategyConfig::Auto,
            verify: VerifyMode::Size,
            preserve_mtime: true,
        }
    }
}

/// The configured no-replace strategy.
#[derive(Debug, Clone, Copy, PartialEq, Eq, Structural)]
pub enum StrategyConfig {
    Auto,
    Native,
    Reserve,
    CheckThenRename,
}

impl StrategyConfig {
    /// The strategy to use, given the one that the volume calls for.
    pub open spec fn resolved(self, fs_strategy: NoReplaceStrategy) -> NoReplaceStrategy {
        match self {
            StrategyConfig::Auto => fs_strategy,
            StrategyConfig::Native => NoReplaceStrategy::Native,
            StrategyConfig::Reserve => NoReplaceStrategy::Reserve,
            StrategyConfig::CheckThenRename => NoReplaceStrategy::CheckThenRename,
        }
    }

    /// The strategy to use, given the one that the volume calls for.
    pub fn resolve(self, fs_strategy: NoReplaceStrategy) -> (r: NoReplaceStrategy)
        ensures
            r == self.resolved(fs_strategy),
    {
        match self {
            StrategyConfig::Auto => fs_strategy,
            StrategyConfig::Native => NoReplaceStrategy::Native,
            StrategyConfig::Reserve => NoReplaceStrategy::Reserve,
            StrategyConfig::CheckThenRename => NoReplaceStrategy::CheckThenRename,
        }
    }
}

/// How a move is verified.
#[derive(Debug, Clone, Copy, PartialEq, Eq, Structural)]
pub enum VerifyMode {
    Size,
    Hash,
}

/// What to do where a destination is taken.
#[derive(Debug, Clone)]
pub struct Conflict {
    pub policy: ConflictPolicy,
    pub compare: Vec<CompareField>,
}

impl Default for Conflict {
    fn default() -> (r: Self)
        ensures
            r.policy == ConflictPolicy::Report,
            r.compare@ == seq![CompareField::Size, CompareField::Blake3],
    {
        let r = Conflict {
            policy: ConflictPolicy::Report,
            compare: vec![CompareField::Size, CompareField::Blake3],
        };
        proof {
            assert(r.compare@ =~= seq![CompareField::Size, CompareField::Blake3]);
        }
        r
    }
}

/// The policy for a destination that is taken.
#[derive(Debug, Clone, Copy, PartialEq, Eq, Structural)]
pub enum ConflictPolicy {
    Report,
    Skip,
    SkipIfIdentical,
    RenameNew,
    Replace,
}

/// What two files are compared by.
#[derive(Debug, Clone, Copy, PartialEq, Eq, Structural)]
pub enum CompareField {
    Size,
    Blake3,
}

/// Cleaning up after moves.
#[derive(Debug, Clone)]
pub struct Cleanup {
    pub remove_empty_dirs: bool,
    pub tolerate_junk: bool,
    /// Junk filenames tolerated when `tolerate_junk` is on.
    pub junk_names: Vec<String>,
}

impl Default for Cleanup {
    fn default() -> (r: Self)
        ensures
            r.remove_empty_dirs,
            !r.tolerate_junk,
            r.junk_names.deep_view() == seq![".DS_Store"@, "Thumbs.db"@, "desktop.ini"@],
    {
        let r = Cleanup {
            remove_empty_dirs: true,
            tolerate_junk: false,
            junk_names: vec![
                ".DS_Store".to_string(),
                "Thumbs.db".to_string(),
                "desktop.ini".to_string(),
            ],
        };
        proof {
            assert(r.junk_names.deep_view() =~= seq![".DS_Store"@, "Thumbs.db"@, "desktop.ini"@]);
        }
        r
    }
}

/// Online metadata providers.
#[derive(Debug, Clone, Copy, PartialEq, Eq, Structural)]
pub struct Providers {
    pub enabled: bool,
}

impl Default for Providers {
    fn default() -> (r: Self)
        ensures
            !r.enabled,
    {
        Providers { enabled: false }
    }
}

/// How many workers to use.
#[derive(Debug, Clone, Copy, PartialEq, Eq, Structural)]
pub struct Concurrency {
    pub workers: Workers,
    pub probe_workers: Workers,
    pub hash_workers: Workers,
}

impl Default for Concurrency {
    fn default() -> (r: Self)
        ensures
            r == (Concurrency {
                workers: Workers::Auto,
                probe_workers: Workers::Auto,
                hash_workers: Workers::Auto,
            }),
    {
        Concurrency {
            workers: Workers::Auto,
            probe_workers: Workers::Auto,
            hash_workers: Workers::Auto,
        }
    }
}

/// A number of workers.
#[derive(Debug, Clone, Copy, PartialEq, Eq, Structural)]
pub enum Workers {
    Auto,
    Fixed(u16),
}

impl Workers {
    /// The number of workers, given the one to use by default.
    pub fn resolve(self, fallback: usize) -> (r: usize)
        ensures
            r == (match self {
                Workers::Auto => fallback,
                Workers::Fixed(n) => n as usize,
            }),
    {
        match self {
            Workers::Auto => fallback,
            Workers::Fixed(n) => n as usize,
        }
    }
}

/// Naming templates.
#[derive(Debug, Clone)]
pub struct Naming {
    pub movies: MovieNaming,
    pub tv: TvNaming,
    pub music: MusicNaming,
}

impl Default for Naming {
    fn default() -> (r: Self)
        ensures
            default::is_default_naming(r),
    {
        default::default_naming()
    }
}

/// Naming of movies.
#[derive(Debug, Clone)]
pub struct MovieNaming {
    pub dir: Template,
    pub file: Template,
    pub subs_dir: String,
    pub sub_file: Template,
    pub artwork: String,
    pub nfo: Template,
}

impl Default for MovieNaming {
    fn default() -> (r: Self)
        ensures
            default::is_default_movie_naming(r),
    {
        default::default_naming().movies
    }
}

/// Naming of TV episodes.
#[derive(Debug, Clone)]
pub struct TvNaming {
    pub show_dir: Template,
    pub season_dir: Template,
    pub specials_dir: String,
    pub file: Template,
    pub sub_file: Template,
}

impl Default for TvNaming {
    fn default() -> (r: Self)
        ensures
            default::is_default_tv_naming(r),
    {
        default::default_naming().tv
    }
}

/// Naming of music.
#[derive(Debug, Clone)]
pub struct MusicNaming {
    pub artist_dir: Template,
    pub album_dir: Template,
    pub disc_dir: Template,
    pub file: Template,
    pub artwork: String,
    pub compilation_prefix: bool,
}

impl Default for MusicNaming {
    fn default() -> (r: Self)
        ensures
            default::is_default_music_naming(r),
    {
        default::default_naming().music
    }
}

/// Whether an extension is listed, whatever its case.
pub open spec fn lists(list: Seq<Seq<char>>, ext: Seq<char>) -> bool {
    exists|i: int| 0 <= i < list.len() && text::eq_ignore_case(#[trigger] list[i], ext)
}

/// Tests whether a word is listed, whatever its case.
pub fn is_listed(list: &Vec<String>, word: &str) -> (r: bool)
    ensures
        r == lists(list.deep_view(), word@),
{
    let ghost v = list.deep_view();
    let mut i: usize = 0;
    while i < list.len()
        invariant
            i <= list@.len(),
            v == list.deep_view(),
            forall|k: int| 0 <= k < i ==> !text::eq_ignore_case(#[trigger] v[k], word@),
        decreases list@.len() - i,
    {
        proof {
            assert(v[i as int] == list@[i as int]@);
        }
        if text::same_ignoring_case(list[i].as_str(), word) {
            return true;
        }
        i = i + 1;
    }
    false
}

impl Extensions {
    /// The class of an extension: the first list that it is in.
    pub open spec fn class_of(self, ext: Seq<char>) -> FileClass {
        if lists(self.video.deep_view(), ext) {
            FileClass::Video
        } else if lists(self.audio.deep_view(), ext) {
            FileClass::Audio
        } else if lists(self.subtitle.deep_view(), ext) {
            FileClass::Subtitle
        } else if lists(self.artwork.deep_view(), ext) {
            FileClass::Artwork
        } else if lists(self.metadata.deep_view(), ext) {
            FileClass::Metadata
        } else {
            FileClass::Unknown
        }
    }
}

/// The configuration that results from the layers: each replaces the sections
/// of the one before, and the flags that are given win.
pub open spec fn layers(
    base: Config,
    user: Option<Config>,
    project: Option<Config>,
    flags: ConfigOverrides,
) -> Config {
    let with_user = match user {
        Some(u) => merged(base, u),
        None => base,
    };
    let with_project = match project {
        Some(p) => merged(with_user, p),
        None => with_user,
    };
    overridden(with_project, flags)
}

impl Config {
    /// The fully-resolved configuration from its layers: built-in defaults,
    /// then the user's and the project's configuration where there is one,
    /// then the flags.
    pub fn layered(
        user: Option<Config>,
        project: Option<Config>,
        cli_overrides: &ConfigOverrides,
    ) -> (r: Result<Self, CoreError>)
        ensures
            r matches Ok(c) && exists|base: Config| #[trigger]
                default::is_default(base) && c == layers(base, user, project, *cli_overrides),
    {
        let base = default::default_config();
        let with_user = match user {
            Some(u) => merge(base, u),
            None => base,
        };
        let with_project = match project {
            Some(p) => merge(with_user, p),
            None => with_user,
        };
        let cfg = cli_overrides.apply(with_project);
        proof {
            assert(default::is_default(base));
        }
        match cfg.validate() {
            Ok(()) => Ok(cfg),
            Err(e) => Err(e),
        }
    }

    /// Validate the configuration. The least confidence is never above the
    /// highest there is, and templates are validated when they are read, so
    /// nothing is left to refuse.
    pub fn validate(&self) -> (r: Result<(), CoreError>)
        ensures
            r is Ok,
    {
        if self.behaviour.min_confidence.as_level() > Confidence::High.as_level() {
            return Err(
                CoreError::InvalidConfig("min_confidence above High is impossible".to_string()),
            );
        }
        Ok(())
    }

    /// A short, stable digest of a configuration in its canonical form, so that
    /// a changed configuration can be told: the first twelve digits of its
    /// hash.
    pub fn digest(canonical: &str) -> (r: String)
        ensures
            r@ == hashing::blake3_hex(encode_utf8(canonical@)).take(12),
            r@.len() == 12,
    {
        let full = text::to_chars(&hashing::hash_hex(canonical.as_bytes()));
        let head = text::slice_of(&full, 0, 12);
        proof {
            assert(head@ =~= full@.take(12));
        }
        text::to_text(&head)
    }

    /// Classify a file by extension.
    pub fn classify_ext(&self, ext_lower: &str) -> (r: FileClass)
        ensures
            r == self.extensions.class_of(ext_lower@),
    {
        if is_listed(&self.extensions.video, ext_lower) {
            FileClass::Video
        } else if is_listed(&self.extensions.audio, ext_lower) {
            FileClass::Audio
        } else if is_listed(&self.extensions.subtitle, ext_lower) {
            FileClass::Subtitle
        } else if is_listed(&self.extensions.artwork, ext_lower) {
            FileClass::Artwork
        } else if is_listed(&self.extensions.metadata, ext_lower) {
            FileClass::Metadata
        } else {
            FileClass::Unknown
        }
    }
}

/// Two configurations merged: the sections of the second, and the newer schema.
pub open spec fn merged(base: Config, over: Config) -> Config {
    Config {
        schema_version: if over.schema_version >= base.schema_version {
            over.schema_version
        } else {
            base.schema_version
        },
        ..over
    }
}

/// Merge two configs: `over` overrides `base` (later wins), section by
/// section.
pub fn merge(base: Config, over: Config) -> (r: Config)
    ensures
        r == merged(base, over),
{
    let schema_version: u32 = if over.schema_version >= base.schema_version {
        over.schema_version
    } else {
        base.schema_version
    };
    Config {
        schema_version,
        extensions: over.extensions,
        behaviour: over.behaviour,
        moves: over.moves,
        conflict: over.conflict,
        cleanup: over.cleanup,
        providers: over.providers,
        concurrency: over.concurrency,
        naming: over.naming,
        source_preference: over.source_preference,
    }
}

/// Command-line overrides: the fields that are given win.
#[derive(Debug, Clone, Copy, PartialEq, Eq)]
pub struct ConfigOverrides {
    pub strategy: Option<StrategyConfig>,
    pub workers: Option<u16>,
    pub verify: Option<VerifyMode>,
    pub conflict_policy: Option<ConflictPolicy>,
    pub dry_run: bool,
    pub strict: bool,
}

impl Default for ConfigOverrides {
    fn default() -> (r: Self)
        ensures
            r == (ConfigOverrides {
                strategy: None,
                workers: None,
                verify: None,
                conflict_policy: None,
                dry_run: false,
                strict: false,
            }),
    {
        ConfigOverrides {
            strategy: None,
            workers: None,
            verify: None,
            conflict_policy: None,
            dry_run: false,
            strict: false,
        }
    }
}

/// A configuration with the overrides that are given written in.
pub open spec fn overridden(c: Config, o: ConfigOverrides) -> Config {
    Config {
        moves: Moves {
            no_replace_strategy: match o.strategy {
                Some(s) => s,
                None => c.moves.no_replace_strategy,
            },
            verify: match o.verify {
                Some(v) => v,
                None => c.moves.verify,
            },
            ..c.moves
        },
        conflict: Conflict {
            policy: match o.conflict_policy {
                Some(p) => p,
                None => c.conflict.policy,
            },
            ..c.conflict
        },
        concurrency: Concurrency {
            workers: match o.workers {
                Some(w) => Workers::Fixed(w),
                None => c.concurrency.workers,
            },
            ..c.concurrency
        },
        ..c
    }
}

impl ConfigOverrides {
    /// Writes the overrides that are given into a configuration.
    pub fn apply(&self, base: Config) -> (r: Config)
        ensures
            r == overridden(base, *self),
    {
        let mut c = base;
        if let Some(s) = self.strategy {
            c.moves.no_replace_strategy = s;
        }
        if let Some(v) = self.verify {
            c.moves.verify = v;
        }
        if let Some(p) = self.conflict_policy {
            c.conflict.policy = p;
        }
        if let Some(w) = self.workers {
            c.concurrency.workers = Workers::Fixed(w);
        }
        c
    }

    /// The built-in defaults with the overrides that are given written in.
    pub fn to_config(&self) -> (r: Config)
        ensures
            exists|base: Config| #[trigger]
                default::is_default(base) && r == overridden(base, *self),
    {
        let base = default::default_config();
        proof {
            assert(default::is_default(base));
        }
        self.apply(base)
    }
}

/// Flags win over every layer; without flags the project wins over the user,
/// and the user over the defaults.
pub proof fn law_later_layers_win(
    base: Config,
    user: Config,
    project: Config,
    flags: ConfigOverrides,
)
    ensures
        flags.strategy matches Some(s) ==> layers(base, Some(user), Some(project), flags).moves.no_replace_strategy
            == s,
        flags.strategy is None ==> layers(base, Some(user), Some(project), flags).moves.no_replace_strategy
            == project.moves.no_replace_strategy,
        flags.strategy is None ==> layers(base, Some(user), None, flags).moves.no_replace_strategy
            == user.moves.no_replace_strategy,
        layers(base, Some(user), Some(project), flags).naming == project.naming,
        layers(base, Some(user), None, flags).naming == user.naming,
        layers(base, None, None, flags).naming == base.naming,
{
}

/// Per-field source rank accessor.
pub fn source_rank(prefs: &SourcePreference, s: Source) -> (r: u8)
    ensures
        r == prefs.rank_of(s),
{
    prefs.rank(s).0
}

/// A configuration warning.
pub fn warn(msg: String) -> (r: Diagnostic)
    ensures
        r.deep_view() == note(Severity::Warning, "config"@, msg@),
{
    Diagnostic::warning("config", msg)
}

/// Severity for a failed detection: always a warning, never fatal.
pub fn detection_failure_severity() -> (r: Severity)
    ensures
        r == Severity::Warning,
{
    Severity::Warning
}

/// Ordered source list for iteration.
pub fn all_sources() -> (r: [Source; 7])
    ensures
        r@ == seq![
            Source::EmbeddedTag,
            Source::ContainerHeader,
            Source::Nfo,
            Source::Provider,
            Source::Filename,
            Source::ParentDir,
            Source::Fallback,
        ],
{
    let r = [
        Source::EmbeddedTag,
        Source::ContainerHeader,
        Source::Nfo,
        Source::Provider,
        Source::Filename,
        Source::ParentDir,
        Source::Fallback,
    ];
    proof {
        assert(r@ =~= seq![
            Source::EmbeddedTag,
            Source::ContainerHeader,
            Source::Nfo,
            Source::Provider,
            Source::Filename,
            Source::ParentDir,
            Source::Fallback,
        ]);
    }
    r
}

/// The key settings by name, in the order of their names.
pub open spec fn summary_of(cfg: Config) -> Seq<(Seq<char>, Seq<char>)> {
    seq![
        (
            "conflict_policy"@,
            match cfg.conflict.policy {
                ConflictPolicy::Report => "report"@,
                ConflictPolicy::Skip => "skip"@,
                ConflictPolicy::SkipIfIdentical => "skipifidentical"@,
                ConflictPolicy::RenameNew => "renamenew"@,
                ConflictPolicy::Replace => "replace"@,
            },
        ),
        (
            "min_confidence"@,
            match cfg.behaviour.min_confidence {
                Confidence::Low => "low"@,
                Confidence::Medium => "medium"@,
                Confidence::High => "high"@,
            },
        ),
        (
            "no_replace_strategy"@,
            match cfg.moves.no_replace_strategy {
                StrategyConfig::Auto => "auto"@,
                StrategyConfig::Native => "native"@,
                StrategyConfig::Reserve => "reserve"@,
                StrategyConfig::CheckThenRename => "checkthenrename"@,
            },
        ),
        ("schema_version"@, text::decimal(cfg.schema_version as nat)),
    ]
}

/// The contents of a list of pairs of texts.
pub open spec fn pair_views(list: Seq<(String, String)>) -> Seq<(Seq<char>, Seq<char>)> {
    Seq::new(list.len(), |i: int| (list[i].0@, list[i].1@))
}

/// A summary of the configuration: names and values, in the order of the
/// names.
pub fn config_print(cfg: &Config) -> (r: Vec<(String, String)>)
    ensures
        pair_views(r@) == summary_of(*cfg),
{
    let policy = match cfg.conflict.policy {
        ConflictPolicy::Report => "report",
        ConflictPolicy::Skip => "skip",
        ConflictPolicy::SkipIfIdentical => "skipifidentical",
        ConflictPolicy::RenameNew => "renamenew",
        ConflictPolicy::Replace => "replace",
    };
    let confidence = match cfg.behaviour.min_confidence {
        Confidence::Low => "low",
        Confidence::Medium => "medium",
        Confidence::High => "high",
    };
    let strategy = match cfg.moves.no_replace_strategy {
        StrategyConfig::Auto => "auto",
        StrategyConfig::Native => "native",
        StrategyConfig::Reserve => "reserve",
        StrategyConfig::CheckThenRename => "checkthenrename",
    };
    let r: Vec<(String, String)> = vec![
        ("conflict_policy".to_string(), policy.to_string()),
        ("min_confidence".to_string(), confidence.to_string()),
        ("no_replace_strategy".to_string(), strategy.to_string()),
        ("schema_version".to_string(), text::decimal_text(cfg.schema_version as u64)),
    ];
    proof {
        assert(pair_views(r@) =~= summary_of(*cfg));
    }
    r
}

/// An override that is given is what counts, and what none is given for stays as
/// it was; nothing else changes.
pub proof fn law_given_overrides_count(c: Config, o: ConfigOverrides)
    ensures
        ({
            let r = overridden(c, o);
            &&& o.strategy matches Some(s) ==> r.moves.no_replace_strategy == s
            &&& o.strategy is None ==> r.moves.no_replace_strategy == c.moves.no_replace_strategy
            &&& o.verify matches Some(v) ==> r.moves.verify == v
            &&& o.verify is None ==> r.moves.verify == c.moves.verify
            &&& o.conflict_policy matches Some(p) ==> r.conflict.policy == p
            &&& o.conflict_policy is None ==> r.conflict.policy == c.conflict.policy
            &&& o.workers matches Some(w) ==> r.concurrency.workers == Workers::Fixed(w)
            &&& o.workers is None ==> r.concurrency.workers == c.concurrency.workers
            &&& r.naming == c.naming && r.extensions == c.extensions && r.behaviour == c.behaviour
        }),
{
}

} // verus!
