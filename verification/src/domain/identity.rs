//! Identity keys.
//!
//! Keys are derived over mandatory discriminators only, so an optional year
//! present on some files and not on others does not split a group.

use crate::domain::duplicate::Duplicate;
use crate::domain::provenance::{Field, Source};
use crate::text;
use crate::text::{CharClass, Class};
use crate::unicode;
use vstd::prelude::*;

verus! {

/// A normalised, case-folded, punctuation-collapsed form carrying its display
/// string alongside. Two are equal when their keys are.
#[derive(Debug, Clone)]
pub struct Norm {
    /// The normalised form used for comparison.
    pub key: String,
    /// The display form (NFC).
    pub display: String,
}

/// The contents of a [`Norm`].
#[verifier::ext_equal]
pub struct NormView {
    pub key: Seq<char>,
    pub display: Seq<char>,
}

impl DeepView for Norm {
    type V = NormView;

    open spec fn deep_view(&self) -> NormView {
        NormView { key: self.key@, display: self.display@ }
    }
}

impl Duplicate for Norm {
    fn duplicate(&self) -> (r: Self) {
        Norm { key: self.key.clone(), display: self.display.clone() }
    }
}

impl PartialEq for Norm {
    fn eq(&self, other: &Self) -> (r: bool) {
        text::same_text(&self.key, &other.key)
    }
}

impl Eq for Norm {

}

impl vstd::std_specs::cmp::PartialEqSpecImpl for Norm {
    open spec fn obeys_eq_spec() -> bool {
        true
    }

    open spec fn eq_spec(&self, other: &Self) -> bool {
        self.key@ == other.key@
    }
}

/// Options controlling normalisation.
#[derive(Debug, Clone, Copy, PartialEq, Eq, Structural)]
pub struct NormOptions {
    pub strip_articles: bool,
}

impl Default for NormOptions {
    fn default() -> (r: Self)
        ensures
            !r.strip_articles,
    {
        NormOptions { strip_articles: false }
    }
}

/// Punctuation that counts as a space between words.
pub open spec fn is_collapsible(c: char) -> bool {
    c == '-' || c == '_' || c == '.' || c == ',' || c == ';' || c == ':' || c == '/' || c == '\\'
        || c == '(' || c == ')' || c == '[' || c == ']' || c == '{' || c == '}' || c == '\'' || c
        == '"' || c == '`' || c == '+' || c == '=' || c == '*' || c == '&' || c == '|' || c == '!'
        || c == '?'
}

/// Tests for punctuation that counts as a space between words.
fn is_collapsible_punct(c: char) -> (r: bool)
    ensures
        r == is_collapsible(c),
{
    c == '-' || c == '_' || c == '.' || c == ',' || c == ';' || c == ':' || c == '/' || c == '\\'
        || c == '(' || c == ')' || c == '[' || c == ']' || c == '{' || c == '}' || c == '\'' || c
        == '"' || c == '`' || c == '+' || c == '=' || c == '*' || c == '&' || c == '|' || c == '!'
        || c == '?'
}

/// The letters and digits of a text, with one space for each run of whitespace
/// and collapsible punctuation between them, and nothing for what else there
/// is.
pub open spec fn folded(s: Seq<char>) -> Seq<char>
    decreases s.len(),
{
    if s.len() == 0 {
        Seq::empty()
    } else {
        let rest = folded(s.drop_last());
        let c = s.last();
        if unicode::char_is_alphanumeric(c) {
            rest.push(c)
        } else if (unicode::char_is_whitespace(c) || is_collapsible(c)) && rest.len() > 0
            && rest.last() != ' ' {
            rest.push(' ')
        } else {
            rest
        }
    }
}

/// Folds a text.
fn fold(s: &Vec<char>) -> (r: Vec<char>)
    ensures
        r@ == folded(s@),
{
    let mut out: Vec<char> = Vec::new();
    let mut i: usize = 0;
    while i < s.len()
        invariant
            i <= s@.len(),
            out@ == folded(s@.take(i as int)),
        decreases s@.len() - i,
    {
        let c = s[i];
        proof {
            assert(s@.take(i + 1).drop_last() =~= s@.take(i as int));
            assert(s@.take(i + 1).last() == c);
        }
        if unicode::is_alphanumeric(c) {
            out.push(c);
        } else if (unicode::is_whitespace(c) || is_collapsible_punct(c)) && out.len() > 0
            && out[out.len() - 1] != ' ' {
            out.push(' ');
        }
        i = i + 1;
    }
    proof {
        assert(s@.take(i as int) =~= s@);
    }
    out
}

/// The articles that may be stripped from the start of a key.
pub open spec fn articles() -> Seq<Seq<char>> {
    seq![
        "the "@,
        "a "@,
        "an "@,
        "le "@,
        "la "@,
        "les "@,
        "el "@,
        "los "@,
        "las "@,
        "der "@,
        "die "@,
        "das "@,
    ]
}

/// A text without the first of the given prefixes that it begins with.
pub open spec fn without_prefix(s: Seq<char>, prefixes: Seq<Seq<char>>) -> Seq<char>
    decreases prefixes.len(),
{
    if prefixes.len() == 0 {
        s
    } else if text::begins_with(s, prefixes[0]) {
        s.skip(prefixes[0].len() as int)
    } else {
        without_prefix(s, prefixes.skip(1))
    }
}

/// The articles that may be stripped from the start of a key.
fn article_list() -> (r: &'static [&'static str])
    ensures
        r.deep_view() == articles(),
{
    &[
        "the ",
        "a ",
        "an ",
        "le ",
        "la ",
        "les ",
        "el ",
        "los ",
        "las ",
        "der ",
        "die ",
        "das ",
    ]
}

/// Strips a leading article.
fn strip_leading_article(s: Vec<char>) -> (r: Vec<char>)
    ensures
        r@ == without_prefix(s@, articles()),
{
    let list = article_list();
    let ghost v = articles();
    let mut i: usize = 0;
    proof {
        assert(v.skip(0) =~= v);
    }
    while i < list.len()
        invariant
            i <= list@.len(),
            list.deep_view() == v,
            v == articles(),
            without_prefix(s@, v) == without_prefix(s@, v.skip(i as int)),
        decreases list@.len() - i,
    {
        let art = text::to_chars(list[i]);
        proof {
            assert(list.deep_view()[i as int] == list@[i as int]@);
            assert(v.skip(i as int)[0] == art@);
            assert(v.skip(i as int).skip(1) =~= v.skip(i + 1));
        }
        if text::starts(&s, &art) {
            let r = text::slice_of(&s, art.len(), s.len());
            proof {
                assert(r@ =~= s@.skip(art@.len() as int));
            }
            return r;
        }
        i = i + 1;
    }
    proof {
        assert(list.deep_view().len() == v.len());
        assert(v.skip(i as int) =~= Seq::empty());
    }
    s
}

/// The key of a composed display text.
pub open spec fn key_of(s: Seq<char>, strip_articles: bool) -> Seq<char> {
    let plain = text::trim_end(
        folded(unicode::lowercase(unicode::nfkd(s))),
        CharClass::Space,
    );
    if strip_articles {
        without_prefix(plain, articles())
    } else {
        plain
    }
}

/// The normalised form of a display text.
pub open spec fn norm_of(display: Seq<char>, strip_articles: bool) -> NormView {
    NormView {
        key: key_of(unicode::nfc(display), strip_articles),
        display: unicode::nfc(display),
    }
}

/// Builds the key of a composed display text. The key is lossy on purpose.
fn normalise_key(s: &str, opts: NormOptions) -> (r: String)
    ensures
        r@ == key_of(s@, opts.strip_articles),
{
    let lower = unicode::to_lowercase(&unicode::to_nfkd(s));
    let plain = text::trimmed_end(&fold(&text::to_chars(&lower)), Class::Space);
    if opts.strip_articles {
        text::to_text(&strip_leading_article(plain))
    } else {
        text::to_text(&plain)
    }
}

impl Norm {
    /// Build a normalised key from a display string.
    pub fn from_display(display: &str) -> (r: Norm)
        ensures
            r.deep_view() == norm_of(display@, false),
    {
        Self::from_display_with(display, NormOptions::default())
    }

    /// Build a normalised key from a display string, with options.
    pub fn from_display_with(display: &str, opts: NormOptions) -> (r: Norm)
        ensures
            r.deep_view() == norm_of(display@, opts.strip_articles),
    {
        let composed = unicode::to_nfc(display);
        let key = normalise_key(&composed, opts);
        Norm { key, display: composed }
    }

    /// Empty normalised value.
    pub fn empty() -> (r: Self)
        ensures
            r.deep_view() == (NormView { key: Seq::empty(), display: Seq::empty() }),
    {
        let r = Norm { key: String::new(), display: String::new() };
        proof {
            reveal_strlit("");
            assert(r.key@ =~= Seq::empty());
            assert(r.display@ =~= Seq::empty());
        }
        r
    }

    /// Normalisation options.
    pub fn options(strip_articles: bool) -> (r: NormOptions)
        ensures
            r.strip_articles == strip_articles,
    {
        NormOptions { strip_articles }
    }
}

/// Edition: a director's cut is no duplicate of the theatrical one.
#[derive(Debug, Clone, PartialEq, Eq, Hash)]
pub struct Edition(pub String);

impl DeepView for Edition {
    type V = Seq<char>;

    open spec fn deep_view(&self) -> Seq<char> {
        self.0@
    }
}

impl Duplicate for Edition {
    fn duplicate(&self) -> (r: Self) {
        Edition(self.0.clone())
    }
}

impl Edition {
    /// An edition.
    pub fn new(s: String) -> (r: Self)
        ensures
            r.deep_view() == s@,
    {
        Edition(s)
    }

    /// The name of the edition.
    pub fn as_str(&self) -> (r: &str)
        ensures
            r@ == self.deep_view(),
    {
        self.0.as_str()
    }
}

/// A movie identity. The year is for display: two are equal when title and
/// edition are.
#[derive(Debug, Clone)]
pub struct MovieId {
    pub title: Norm,
    pub year: Option<u16>,
    pub edition: Option<Edition>,
}

/// The contents of a [`MovieId`].
#[verifier::ext_equal]
pub struct MovieIdView {
    pub title: NormView,
    pub year: Option<u16>,
    pub edition: Option<Seq<char>>,
}

impl DeepView for MovieId {
    type V = MovieIdView;

    open spec fn deep_view(&self) -> MovieIdView {
        MovieIdView {
            title: self.title.deep_view(),
            year: self.year,
            edition: self.edition.deep_view(),
        }
    }
}

impl MovieIdView {
    /// What movies are told apart by.
    pub open spec fn key(self) -> (Seq<char>, Option<Seq<char>>) {
        (self.title.key, self.edition)
    }
}

impl Duplicate for MovieId {
    fn duplicate(&self) -> (r: Self) {
        MovieId {
            title: self.title.duplicate(),
            year: self.year,
            edition: self.edition.duplicate(),
        }
    }
}

/// Whether two optional editions are the same.
pub fn same_edition(a: &Option<Edition>, b: &Option<Edition>) -> (r: bool)
    ensures
        r == (a.deep_view() == b.deep_view()),
{
    match (a, b) {
        (Some(x), Some(y)) => text::same_text(x.as_str(), y.as_str()),
        (None, None) => true,
        _ => false,
    }
}

impl PartialEq for MovieId {
    fn eq(&self, other: &Self) -> (r: bool) {
        text::same_text(&self.title.key, &other.title.key) && same_edition(
            &self.edition,
            &other.edition,
        )
    }
}

impl Eq for MovieId {

}

impl vstd::std_specs::cmp::PartialEqSpecImpl for MovieId {
    open spec fn obeys_eq_spec() -> bool {
        true
    }

    open spec fn eq_spec(&self, other: &Self) -> bool {
        self.title.key@ == other.title.key@ && self.edition.deep_view()
            == other.edition.deep_view()
    }
}

impl MovieId {
    /// The identity of a movie of which only the title is known.
    pub fn new(title: Norm) -> (r: Self)
        ensures
            r == (MovieId { title, year: None, edition: None }),
    {
        MovieId { title, year: None, edition: None }
    }
}

/// A show identity.
#[derive(Debug, Clone, PartialEq, Eq)]
pub struct ShowId {
    pub title: Norm,
    pub year: Option<u16>,
}

/// The contents of a [`ShowId`].
#[verifier::ext_equal]
pub struct ShowIdView {
    pub title: NormView,
    pub year: Option<u16>,
}

impl DeepView for ShowId {
    type V = ShowIdView;

    open spec fn deep_view(&self) -> ShowIdView {
        ShowIdView { title: self.title.deep_view(), year: self.year }
    }
}

impl Duplicate for ShowId {
    fn duplicate(&self) -> (r: Self) {
        ShowId { title: self.title.duplicate(), year: self.year }
    }
}

impl ShowIdView {
    /// What shows are told apart by.
    pub open spec fn key(self) -> (Seq<char>, Option<u16>) {
        (self.title.key, self.year)
    }
}

/// Whether two optional years are the same.
pub fn same_year(a: Option<u16>, b: Option<u16>) -> (r: bool)
    ensures
        r == (a == b),
{
    match (a, b) {
        (Some(x), Some(y)) => x == y,
        (None, None) => true,
        _ => false,
    }
}

impl ShowId {
    /// Whether two are of the same show.
    pub fn same(&self, other: &ShowId) -> (r: bool)
        ensures
            r == (self.deep_view().key() == other.deep_view().key()),
    {
        text::same_text(&self.title.key, &other.title.key) && same_year(self.year, other.year)
    }

    /// The identity of a show of which only the title is known.
    pub fn new(title: Norm) -> (r: Self)
        ensures
            r == (ShowId { title, year: None }),
    {
        ShowId { title, year: None }
    }
}

/// An episode identity. A file may hold several episodes.
#[derive(Debug, Clone, PartialEq, Eq)]
pub struct EpisodeId {
    pub show: ShowId,
    pub season: u16,
    pub episodes: Vec<u16>,
}

/// The contents of an [`EpisodeId`].
#[verifier::ext_equal]
pub struct EpisodeIdView {
    pub show: ShowIdView,
    pub season: u16,
    pub episodes: Seq<u16>,
}

impl DeepView for EpisodeId {
    type V = EpisodeIdView;

    open spec fn deep_view(&self) -> EpisodeIdView {
        EpisodeIdView {
            show: self.show.deep_view(),
            season: self.season,
            episodes: self.episodes.deep_view(),
        }
    }
}

impl Duplicate for EpisodeId {
    fn duplicate(&self) -> (r: Self) {
        EpisodeId {
            show: self.show.duplicate(),
            season: self.season,
            episodes: self.episodes.duplicate(),
        }
    }
}

impl EpisodeIdView {
    /// What episodes are told apart by.
    pub open spec fn key(self) -> (Seq<char>, Option<u16>, u16, Seq<u16>) {
        (self.show.title.key, self.show.year, self.season, self.episodes)
    }
}

/// Whether two lists of numbers are the same.
pub fn same_numbers(a: &Vec<u16>, b: &Vec<u16>) -> (r: bool)
    ensures
        r == (a.deep_view() == b.deep_view()),
{
    if a.len() != b.len() {
        proof {
            assert(a.deep_view().len() != b.deep_view().len());
        }
        return false;
    }
    let mut i: usize = 0;
    while i < a.len()
        invariant
            i <= a@.len(),
            a@.len() == b@.len(),
            forall|k: int| 0 <= k < i ==> a@[k] == b@[k],
        decreases a@.len() - i,
    {
        if a[i] != b[i] {
            proof {
                assert(a.deep_view()[i as int] != b.deep_view()[i as int]);
            }
            return false;
        }
        i = i + 1;
    }
    proof {
        assert(a.deep_view() =~= b.deep_view());
    }
    true
}

/// The episode codes, one after the other.
pub open spec fn episode_codes(episodes: Seq<u16>) -> Seq<char>
    decreases episodes.len(),
{
    if episodes.len() == 0 {
        Seq::empty()
    } else {
        episode_codes(episodes.drop_last()) + seq!['E'] + text::decimal2(episodes.last() as nat)
    }
}

/// The code of the episodes of a season: `S01E02`, or the season alone for
/// specials and where no episode is given.
pub open spec fn episode_code(season: u16, episodes: Seq<u16>) -> Seq<char> {
    let head = seq!['S'] + text::decimal2(season as nat);
    if season == 0 || episodes.len() == 0 {
        head
    } else {
        head + episode_codes(episodes)
    }
}

/// Writes the codes of episodes after a season.
pub fn write_code(season: u16, episodes: &Vec<u16>, specials_too: bool) -> (r: String)
    ensures
        r@ == (if (season == 0 && !specials_too) || episodes@.len() == 0 {
            seq!['S'] + text::decimal2(season as nat)
        } else {
            seq!['S'] + text::decimal2(season as nat) + episode_codes(episodes@)
        }),
{
    let mut out = String::new();
    out.push('S');
    out.append(&text::decimal2_text(season as u64));
    let ghost head = seq!['S'] + text::decimal2(season as nat);
    proof {
        assert(out@ =~= head);
    }
    if season == 0 && !specials_too {
        return out;
    }
    let mut i: usize = 0;
    proof {
        assert(head + episode_codes(episodes@.take(0)) =~= head);
    }
    while i < episodes.len()
        invariant
            i <= episodes@.len(),
            head == seq!['S'] + text::decimal2(season as nat),
            out@ == head + episode_codes(episodes@.take(i as int)),
        decreases episodes@.len() - i,
    {
        out.push('E');
        out.append(&text::decimal2_text(episodes[i] as u64));
        proof {
            let t = episodes@.take(i + 1);
            assert(t.drop_last() =~= episodes@.take(i as int));
            assert(t.last() == episodes@[i as int]);
            assert(out@ =~= head + episode_codes(t));
        }
        i = i + 1;
    }
    proof {
        assert(episodes@.take(i as int) =~= episodes@);
        if episodes@.len() == 0 {
            assert(out@ =~= head);
        }
    }
    out
}

impl EpisodeId {
    /// Whether two are of the same episodes.
    pub fn same(&self, other: &EpisodeId) -> (r: bool)
        ensures
            r == (self.deep_view().key() == other.deep_view().key()),
    {
        self.show.same(&other.show) && self.season == other.season && same_numbers(
            &self.episodes,
            &other.episodes,
        )
    }

    /// The identity of the episodes of a season.
    pub fn new(show: ShowId, season: u16, episodes: Vec<u16>) -> (r: Self)
        ensures
            r == (EpisodeId { show, season, episodes }),
    {
        EpisodeId { show, season, episodes }
    }

    /// `S01E02`-style code for display, or `S00` for specials.
    pub fn code(&self) -> (r: String)
        ensures
            r@ == episode_code(self.season, self.episodes@),
    {
        write_code(self.season, &self.episodes, false)
    }
}

/// An album identity. The year is for display: two are equal when album artist
/// and album are.
#[derive(Debug, Clone)]
pub struct AlbumId {
    pub album_artist: Norm,
    pub album: Norm,
    pub year: Option<u16>,
}

/// The contents of an [`AlbumId`].
#[verifier::ext_equal]
pub struct AlbumIdView {
    pub album_artist: NormView,
    pub album: NormView,
    pub year: Option<u16>,
}

impl DeepView for AlbumId {
    type V = AlbumIdView;

    open spec fn deep_view(&self) -> AlbumIdView {
        AlbumIdView {
            album_artist: self.album_artist.deep_view(),
            album: self.album.deep_view(),
            year: self.year,
        }
    }
}

impl Duplicate for AlbumId {
    fn duplicate(&self) -> (r: Self) {
        AlbumId {
            album_artist: self.album_artist.duplicate(),
            album: self.album.duplicate(),
            year: self.year,
        }
    }
}

impl PartialEq for AlbumId {
    fn eq(&self, other: &Self) -> (r: bool) {
        text::same_text(&self.album_artist.key, &other.album_artist.key) && text::same_text(
            &self.album.key,
            &other.album.key,
        )
    }
}

impl Eq for AlbumId {

}

impl vstd::std_specs::cmp::PartialEqSpecImpl for AlbumId {
    open spec fn obeys_eq_spec() -> bool {
        true
    }

    open spec fn eq_spec(&self, other: &Self) -> bool {
        self.album_artist.key@ == other.album_artist.key@ && self.album.key@ == other.album.key@
    }
}

impl AlbumId {
    /// The identity of an album of which the year is not known.
    pub fn new(album_artist: Norm, album: Norm) -> (r: Self)
        ensures
            r == (AlbumId { album_artist, album, year: None }),
    {
        AlbumId { album_artist, album, year: None }
    }
}

/// A track identity.
#[derive(Debug, Clone, PartialEq, Eq)]
pub struct TrackId {
    pub album: AlbumId,
    pub disc: Option<u16>,
    pub track: Option<u16>,
    pub title: Option<String>,
}

/// The rank of a field source: the higher wins.
#[derive(Debug, Clone, Copy, PartialEq, Eq, PartialOrd, Ord, Structural)]
pub struct SourceRank(pub u8);

/// Per-field source-preference table: the rank of each source. A source of
/// rank zero never wins over one that has a rank.
#[derive(Debug, Clone, Copy, PartialEq, Eq, Structural)]
pub struct SourcePreference {
    pub embedded_tag: u8,
    pub container_header: u8,
    pub nfo: u8,
    pub provider: u8,
    pub filename: u8,
    pub parent_dir: u8,
    pub fallback: u8,
}

impl Default for SourcePreference {
    fn default() -> (r: Self)
        ensures
            forall|s: Source| r.rank_of(s) == 0,
    {
        SourcePreference {
            embedded_tag: 0,
            container_header: 0,
            nfo: 0,
            provider: 0,
            filename: 0,
            parent_dir: 0,
            fallback: 0,
        }
    }
}

/// The ranks that are used unless others are configured. A provider never
/// overrides an embedded tag, and a container header beats an `.nfo` file.
pub open spec fn conservative_preference() -> SourcePreference {
    SourcePreference {
        embedded_tag: 100,
        container_header: 90,
        nfo: 50,
        provider: 40,
        filename: 20,
        parent_dir: 15,
        fallback: 0,
    }
}

impl SourcePreference {
    /// The rank of a source.
    pub open spec fn rank_of(self, s: Source) -> u8 {
        match s {
            Source::EmbeddedTag => self.embedded_tag,
            Source::ContainerHeader => self.container_header,
            Source::Nfo => self.nfo,
            Source::Provider => self.provider,
            Source::Filename => self.filename,
            Source::ParentDir => self.parent_dir,
            Source::Fallback => self.fallback,
        }
    }

    /// The rank of a source.
    pub fn rank(&self, s: Source) -> (r: SourceRank)
        ensures
            r == SourceRank(self.rank_of(s)),
    {
        let v: u8 = match s {
            Source::EmbeddedTag => self.embedded_tag,
            Source::ContainerHeader => self.container_header,
            Source::Nfo => self.nfo,
            Source::Provider => self.provider,
            Source::Filename => self.filename,
            Source::ParentDir => self.parent_dir,
            Source::Fallback => self.fallback,
        };
        SourceRank(v)
    }

    /// The conservative default.
    pub fn conservative_default() -> (r: Self)
        ensures
            r == conservative_preference(),
    {
        SourcePreference {
            embedded_tag: 100,
            container_header: 90,
            nfo: 50,
            provider: 40,
            filename: 20,
            parent_dir: 15,
            fallback: 0,
        }
    }
}

/// Whether the second of two candidates for a field wins: it is known and the
/// first is not, or its source ranks higher, or, at equal rank, its confidence
/// is higher.
pub open spec fn second_wins<T>(a: Field<T>, b: Field<T>, prefs: SourcePreference) -> bool {
    match (a, b) {
        (_, Field::Unknown { .. }) => false,
        (Field::Unknown { .. }, _) => true,
        (
            Field::Known { source: sa, confidence: ca, .. },
            Field::Known { source: sb, confidence: cb, .. },
        ) => prefs.rank_of(sb) > prefs.rank_of(sa) || (prefs.rank_of(sb) == prefs.rank_of(sa)
            && cb.level() > ca.level()),
    }
}

/// Pick the best of two candidates for the same field by source rank, breaking
/// ties by confidence. Returns a reference to the winner.
pub fn pick_best<'a, T>(a: &'a Field<T>, b: &'a Field<T>, prefs: &SourcePreference) -> (r: &'a Field<
    T,
>)
    ensures
        r == (if second_wins(*a, *b, *prefs) {
            b
        } else {
            a
        }),
{
    match b {
        Field::Unknown { .. } => a,
        Field::Known { source: sb, confidence: cb, .. } => match a {
            Field::Unknown { .. } => b,
            Field::Known { source: sa, confidence: ca, .. } => {
                let ra: u8 = prefs.rank(*sa).0;
                let rb: u8 = prefs.rank(*sb).0;
                if rb > ra || (rb == ra && cb.as_level() > ca.as_level()) {
                    b
                } else {
                    a
                }
            },
        },
    }
}

/// With the conservative ranks a provider never overrides an embedded tag.
pub proof fn law_provider_never_overrides_tag<T>(a: Field<T>, b: Field<T>)
    requires
        a matches Field::Known { source, .. } && source == Source::EmbeddedTag,
        b matches Field::Known { source, .. } && source == Source::Provider,
    ensures
        !second_wins(a, b, conservative_preference()),
        second_wins(b, a, conservative_preference()),
{
}

/// Folding keeps the letters and digits of a text, all of them and in their
/// order.
pub proof fn law_folding_keeps_letters_and_digits(s: Seq<char>)
    ensures
        folded(s).filter(|c: char| unicode::char_is_alphanumeric(c)) == s.filter(
            |c: char| unicode::char_is_alphanumeric(c),
        ),
    decreases s.len(),
{
    reveal(Seq::filter);
    let keep = |c: char| unicode::char_is_alphanumeric(c);
    if s.len() == 0 {
        assert(folded(s) =~= s);
    } else {
        let less = s.drop_last();
        law_folding_keeps_letters_and_digits(less);
        let rest = folded(less);
        let c = s.last();
        if unicode::char_is_alphanumeric(c) {
            assert(rest.push(c).drop_last() =~= rest);
        } else if folded(s) != rest {
            assert(rest.push(' ').drop_last() =~= rest);
        }
    }
}

/// A folded text is letters and digits with single spaces between its words,
/// and does not begin with one.
pub proof fn law_folded_text_is_words(s: Seq<char>)
    ensures
        forall|i: int|
            0 <= i < folded(s).len() ==> unicode::char_is_alphanumeric(#[trigger] folded(s)[i])
                || folded(s)[i] == ' ' && i > 0 && folded(s)[i - 1] != ' ',
    decreases s.len(),
{
    if s.len() > 0 {
        law_folded_text_is_words(s.drop_last());
        let rest = folded(s.drop_last());
        let all = folded(s);
        assert forall|i: int| 0 <= i < all.len() implies unicode::char_is_alphanumeric(
            #[trigger] all[i],
        ) || all[i] == ' ' && i > 0 && all[i - 1] != ' ' by {
            if i < rest.len() {
                assert(all[i] == rest[i]);
            }
        }
    }
}

/// Punctuation or whitespace between letters or digits is folded into one space,
/// whichever it is; what is neither that nor a letter or digit is dropped.
pub proof fn law_punctuation_folds_to_a_space(s: Seq<char>, c: char, d: char)
    requires
        s.len() > 0,
        unicode::char_is_alphanumeric(s.last()),
        unicode::char_is_alphanumeric(d),
        !unicode::char_is_alphanumeric(c),
    ensures
        folded(s + seq![c, d]) == (if unicode::char_is_whitespace(c) || is_collapsible(c) {
            folded(s) + seq![' ', d]
        } else {
            folded(s).push(d)
        }),
{
    let a = s.push(c);
    let b = a.push(d);
    assert(s + seq![c, d] =~= b);
    assert(b.drop_last() =~= a);
    assert(a.drop_last() =~= s);
    assert(s.drop_last().push(s.last()) =~= s);
    assert(folded(s) == folded(s.drop_last()).push(s.last()));
    assert(folded(s).last() == s.last());
    assert(!unicode::char_is_alphanumeric(' '));
    if unicode::char_is_whitespace(c) || is_collapsible(c) {
        assert(folded(a) == folded(s).push(' '));
    } else {
        assert(folded(a) == folded(s));
    }
    assert(folded(b) =~= (if unicode::char_is_whitespace(c) || is_collapsible(c) {
        folded(s) + seq![' ', d]
    } else {
        folded(s).push(d)
    }));
}

/// A key without its article is the key with one of the articles taken off its
/// front, or the key itself where it begins with none.
pub proof fn law_key_loses_at_most_an_article(s: Seq<char>)
    ensures
        ({
            let whole = key_of(s, false);
            let bare = key_of(s, true);
            ||| exists|i: int| 0 <= i < articles().len() && whole == #[trigger] articles()[i] + bare
            ||| bare == whole && forall|i: int|
                0 <= i < articles().len() ==> !(#[trigger] articles()[i]).is_prefix_of(whole)
        }),
{
    lemma_without_prefix(key_of(s, false), articles());
}

/// What is left of a text once a prefix is taken off.
proof fn lemma_without_prefix(s: Seq<char>, list: Seq<Seq<char>>)
    ensures
        ({
            let r = without_prefix(s, list);
            ||| exists|i: int| 0 <= i < list.len() && s == #[trigger] list[i] + r
            ||| r == s && forall|i: int|
                0 <= i < list.len() ==> !(#[trigger] list[i]).is_prefix_of(s)
        }),
    decreases list.len(),
{
    if list.len() > 0 {
        let p = list[0];
        let r = without_prefix(s, list);
        if text::begins_with(s, p) {
            assert(s =~= p + r) by {
                assert(s.subrange(0, p.len() as int) =~= p);
                assert forall|i: int| 0 <= i < p.len() implies s[i] == p[i] by {
                    assert(s.subrange(0, p.len() as int)[i] == s[i]);
                }
            }
            assert(s == list[0] + r);
        } else {
            let rest = list.skip(1);
            lemma_without_prefix(s, rest);
            assert(!p.is_prefix_of(s)) by {
                if p.is_prefix_of(s) {
                    assert(s.subrange(0, p.len() as int) =~= p);
                }
            }
            if exists|i: int| 0 <= i < rest.len() && s == #[trigger] rest[i] + r {
                let i = choose|i: int| 0 <= i < rest.len() && s == #[trigger] rest[i] + r;
                assert(list[i + 1] == rest[i]);
            } else {
                assert forall|i: int| 0 <= i < list.len() implies !(
                #[trigger] list[i]).is_prefix_of(s) by {
                    if i > 0 {
                        assert(rest[i - 1] == list[i]);
                    }
                }
            }
        }
    }
}

} // verus!
