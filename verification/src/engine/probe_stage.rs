//! Probe stage.
//!
//! Runs after provisional grouping and before field resolution is finalised.
//! Only videos that already have a title, so that they could be moved, are
//! probed. What was found is kept by file identity, size and time of
//! modification, never by path. What cannot be probed degrades to the fields
//! of the filename and a warning. HDR is never taken from the container.

use crate::domain::classify::FileClass;
use crate::domain::config::Config;
use crate::domain::duplicate::Duplicate;
use crate::domain::error::{Diagnostic, DiagnosticView, Severity};
use crate::domain::fs::{
    goes_on, identifies, only_asks, Call, FileId, FileMeta, FileSystem, NodeView, Stamp, Tree,
};
use crate::domain::identity::SourcePreference;
use crate::domain::path::{FilePath, PathView};
use crate::domain::plan::ItemId;
use crate::domain::provenance::{Confidence, Field, FieldView, Source};
use crate::engine::music_resolve::{AudioTags, AudioTagsView};
use crate::engine::resolve::{better, merge_field, ResolvedMovie, ResolvedMovieView};
use vstd::prelude::*;

verus! {

/// What is said where a container does not tell the resolution.
pub const CONTAINER_PROBING_UNAVAILABLE: &'static str =
    "container probing unavailable; falling back to filename";

/// What a container says of its video track.
#[derive(Debug, Clone, PartialEq, Eq)]
pub struct VideoProbe {
    /// The label of the resolution (`1080p`), where the container gives one.
    pub resolution: Option<String>,
    pub codec: Option<String>,
}

/// The contents of a [`VideoProbe`].
#[verifier::ext_equal]
pub struct VideoProbeView {
    pub resolution: Option<Seq<char>>,
    pub codec: Option<Seq<char>>,
}

impl DeepView for VideoProbe {
    type V = VideoProbeView;

    open spec fn deep_view(&self) -> VideoProbeView {
        VideoProbeView { resolution: self.resolution.deep_view(), codec: self.codec.deep_view() }
    }
}

impl Duplicate for VideoProbe {
    fn duplicate(&self) -> (r: Self) {
        VideoProbe { resolution: self.resolution.duplicate(), codec: self.codec.duplicate() }
    }
}

/// What a file says of itself.
#[derive(Debug, Clone, PartialEq, Eq)]
pub struct Probe {
    pub video: Option<VideoProbe>,
    pub audio: Option<AudioTags>,
}

/// The contents of a [`Probe`].
#[verifier::ext_equal]
pub struct ProbeView {
    pub video: Option<VideoProbeView>,
    pub audio: Option<AudioTagsView>,
}

impl DeepView for Probe {
    type V = ProbeView;

    open spec fn deep_view(&self) -> ProbeView {
        ProbeView { video: self.video.deep_view(), audio: self.audio.deep_view() }
    }
}

impl Duplicate for Probe {
    fn duplicate(&self) -> (r: Self) {
        Probe { video: self.video.duplicate(), audio: self.audio.duplicate() }
    }
}

/// What came of probing a file.
#[derive(Debug, Clone, PartialEq, Eq)]
pub enum ProbeOutcome {
    Probed(Probe),
    Unsupported { reason: String, ext: String },
    Failed { error: String },
}

/// A file that was to be looked into, as a video or as an audio file.
pub struct Looking {
    pub path: PathView,
    pub audio: bool,
}

/// What looks into files.
pub trait Prober: Sized {
    /// What it has been asked to look into so far, where it tells.
    open spec fn asked(&self) -> Option<Seq<Looking>> {
        None
    }

    /// Whether it may say this of a file, as a video or as an audio file. What
    /// it may say does not change. Left open where an implementation does not
    /// say.
    open spec fn may_answer(
        &self,
        path: PathView,
        audio: bool,
        outcome: Option<ProbeOutcome>,
    ) -> bool {
        true
    }

    /// Looks into a video, unless this one does not look into files.
    fn probe_path(&mut self, path: &FilePath) -> (r: Option<ProbeOutcome>)
        ensures
            old(self).may_answer(path.deep_view(), false, r),
            old(self).asked() matches Some(before) ==> final(self).asked() == Some(
                before.push((Looking { path: path.deep_view(), audio: false })),
            ),
            forall|p: PathView, a: bool, o: Option<ProbeOutcome>| #[trigger]
                final(self).may_answer(p, a, o) == old(self).may_answer(p, a, o),
    ;

    /// Looks into an audio file, unless this one does not look into files.
    fn probe_audio_path(&mut self, path: &FilePath) -> (r: Option<ProbeOutcome>)
        ensures
            old(self).may_answer(path.deep_view(), true, r),
            old(self).asked() matches Some(before) ==> final(self).asked() == Some(
                before.push((Looking { path: path.deep_view(), audio: true })),
            ),
            forall|p: PathView, a: bool, o: Option<ProbeOutcome>| #[trigger]
                final(self).may_answer(p, a, o) == old(self).may_answer(p, a, o),
    ;
}

/// Looks into nothing.
#[derive(Debug, Clone, Copy, PartialEq, Eq)]
pub struct NoProber;

impl Prober for NoProber {
    open spec fn may_answer(
        &self,
        path: PathView,
        audio: bool,
        outcome: Option<ProbeOutcome>,
    ) -> bool {
        outcome is None
    }

    fn probe_path(&mut self, path: &FilePath) -> (r: Option<ProbeOutcome>) {
        None
    }

    fn probe_audio_path(&mut self, path: &FilePath) -> (r: Option<ProbeOutcome>) {
        None
    }
}

/// Whether what looks into files was asked to look into these, one after the
/// other.
pub open spec fn asks_also<P: Prober>(a: P, b: P, more: Seq<Looking>) -> bool {
    a.asked() matches Some(before) ==> b.asked() == Some(before + more)
}

/// Whether two states of what looks into files may say the same.
pub open spec fn answers_alike<P: Prober>(a: P, b: P) -> bool {
    forall|p: PathView, audio: bool, o: Option<ProbeOutcome>| #[trigger]
        b.may_answer(p, audio, o) == a.may_answer(p, audio, o)
}

/// What a probe is kept by. The path is no part of it.
#[derive(Debug, Clone, Copy, PartialEq, Eq)]
pub struct CacheKey {
    pub file: FileId,
    pub len: u64,
    pub modified: Option<Stamp>,
}

impl CacheKey {
    /// The key of a file.
    pub fn from_meta(file: FileId, meta: &FileMeta) -> (r: Self)
        ensures
            r == (CacheKey { file, len: meta.len, modified: meta.modified }),
    {
        CacheKey { file, len: meta.len, modified: meta.modified }
    }

    /// Whether two keys are the same.
    pub fn same(&self, other: &CacheKey) -> (r: bool)
        ensures
            r == (*self == *other),
    {
        let stamps = match (self.modified, other.modified) {
            (Some(a), Some(b)) => a.secs == b.secs && a.nanos == b.nanos,
            (None, None) => true,
            _ => false,
        };
        self.file.device == other.file.device && self.file.inode == other.file.inode && self.len
            == other.len && stamps
    }
}

/// Probes by key, held in memory. The last one that was put in counts.
#[derive(Debug, Clone)]
pub struct ProbeCache {
    entries: Vec<(CacheKey, Probe)>,
}

impl ProbeCache {
    /// The entries from the latest back.
    pub closed spec fn latest(self, key: CacheKey, n: int) -> Option<ProbeView>
        decreases n,
    {
        if n <= 0 {
            None
        } else if self.entries@[n - 1].0 == key {
            Some(self.entries@[n - 1].1.deep_view())
        } else {
            self.latest(key, n - 1)
        }
    }

    /// The probe of a key.
    pub closed spec fn found(self, key: CacheKey) -> Option<ProbeView> {
        self.latest(key, self.entries@.len() as int)
    }

    /// A cache with nothing in it.
    pub fn in_memory() -> (r: Self)
        ensures
            forall|key: CacheKey| #[trigger] r.found(key) is None,
    {
        ProbeCache { entries: Vec::new() }
    }

    /// The probe of a key, if there is one.
    pub fn get(&self, key: &CacheKey) -> (r: Option<Probe>)
        ensures
            r.deep_view() == self.found(*key),
    {
        let mut i: usize = self.entries.len();
        while i > 0
            invariant
                i <= self.entries@.len(),
                self.found(*key) == self.latest(*key, i as int),
            decreases i,
        {
            if self.entries[i - 1].0.same(key) {
                return Some(self.entries[i - 1].1.duplicate());
            }
            i = i - 1;
        }
        None
    }

    /// Keeps the probe of a key.
    pub fn insert(&mut self, key: CacheKey, probe: Probe)
        ensures
            forall|k: CacheKey| #[trigger]
                final(self).found(k) == (if k == key {
                    Some(probe.deep_view())
                } else {
                    old(self).found(k)
                }),
    {
        let ghost before = *self;
        self.entries.push((key, probe));
        proof {
            assert forall|k: CacheKey| #[trigger]
                self.found(k) == (if k == key {
                    Some(probe.deep_view())
                } else {
                    before.found(k)
                }) by {
                lemma_latest_stays(before, *self, k, before.entries@.len() as int);
            }
        }
    }
}

/// One more entry changes nothing about those before it.
proof fn lemma_latest_stays(a: ProbeCache, b: ProbeCache, key: CacheKey, n: int)
    requires
        n <= a.entries@.len() <= b.entries@.len(),
        forall|i: int| 0 <= i < a.entries@.len() ==> a.entries@[i] == b.entries@[i],
    ensures
        a.latest(key, n) == b.latest(key, n),
    decreases n,
{
    if n > 0 {
        lemma_latest_stays(a, b, key, n - 1);
    }
}

/// An empty cache for a run.
pub fn open_cache() -> (r: ProbeCache)
    ensures
        forall|key: CacheKey| #[trigger] r.found(key) is None,
{
    ProbeCache::in_memory()
}

/// `true` if this video is in a group that could become a move.
pub fn could_become_move(class: FileClass, resolved: Option<&ResolvedMovie>) -> (r: bool)
    ensures
        r == may_become_move(class, resolved.deep_view()),
{
    class == FileClass::Video && (match resolved {
        Some(m) => m.title.is_known(),
        None => false,
    })
}

/// Whether a video is worth probing: it has a title.
pub open spec fn may_become_move(class: FileClass, resolved: Option<ResolvedMovieView>) -> bool {
    class == FileClass::Video && (resolved matches Some(m) && m.title.is_known())
}

/// A warning about probing an item.
pub open spec fn probe_note(id: ItemId, message: Seq<char>) -> DiagnosticView {
    DiagnosticView {
        severity: Severity::Warning,
        item: Some(id),
        stage: "probe"@,
        message,
        io_kind: None,
    }
}

/// Warns about probing an item.
pub fn warn_item(notes: &mut Vec<Diagnostic>, id: ItemId, message: String)
    ensures
        final(notes).deep_view() == old(notes).deep_view().push(probe_note(id, message@)),
{
    let ghost before = notes.deep_view();
    let ghost said = message@;
    notes.push(
        Diagnostic {
            severity: Severity::Warning,
            item: Some(id),
            stage: "probe".to_string(),
            message,
            io_kind: None,
        },
    );
    proof {
        assert(notes.deep_view() =~= before.push(probe_note(id, said)));
    }
}

/// What probing is called in messages.
pub open spec fn probing_of(audio: bool) -> Seq<char> {
    if audio {
        "audio tag probe failed: "@
    } else {
        "container probe failed: "@
    }
}

/// What is said of an outcome.
pub open spec fn outcome_notes(id: ItemId, outcome: Option<ProbeOutcome>, audio: bool) -> Seq<
    DiagnosticView,
> {
    match outcome {
        Some(ProbeOutcome::Unsupported { reason, ext }) => seq![
            probe_note(id, reason@ + " (."@ + ext@ + ")"@),
        ],
        Some(ProbeOutcome::Failed { error }) => seq![
            probe_note(id, probing_of(audio) + error@ + "; falling back to filename"@),
        ],
        _ => Seq::empty(),
    }
}

/// What is made of an outcome: the probe where there is one, else a warning.
pub fn accept_outcome(
    outcome: Option<ProbeOutcome>,
    id: ItemId,
    audio: bool,
    notes: &mut Vec<Diagnostic>,
) -> (r: Option<Probe>)
    ensures
        r.deep_view() == (match outcome {
            Some(ProbeOutcome::Probed(p)) => Some(p.deep_view()),
            _ => None,
        }),
        final(notes).deep_view() == old(notes).deep_view() + outcome_notes(id, outcome, audio),
{
    let ghost before = notes.deep_view();
    let ghost told = outcome_notes(id, outcome, audio);
    let r = match outcome {
        Some(ProbeOutcome::Probed(p)) => Some(p),
        Some(ProbeOutcome::Unsupported { reason, ext }) => {
            warn_item(notes, id, reason.concat(" (.").concat(&ext).concat(")"));
            None
        },
        Some(ProbeOutcome::Failed { error }) => {
            let what = if audio {
                "audio tag probe failed: "
            } else {
                "container probe failed: "
            };
            let message = what.to_string().concat(&error).concat("; falling back to filename");
            warn_item(notes, id, message);
            None
        },
        None => None,
    };
    proof {
        assert(notes.deep_view() =~= before + told);
    }
    r
}

/// What is answered when a file is to be probed.
pub enum ProbeAnswer {
    /// It was not to be probed.
    Passed,
    /// Its metadata could not be read.
    NoMeta { message: Seq<char> },
    /// Its identity could not be read.
    NoId { message: Seq<char> },
    /// A probe of it is kept.
    Kept { key: CacheKey, probe: ProbeView },
    /// None was kept, and it was looked into.
    Asked { key: CacheKey, outcome: Option<ProbeOutcome> },
}

impl ProbeAnswer {
    /// The probe that comes of it.
    pub open spec fn probe(self) -> Option<ProbeView> {
        match self {
            ProbeAnswer::Kept { probe, .. } => Some(probe),
            ProbeAnswer::Asked { outcome: Some(ProbeOutcome::Probed(p)), .. } => Some(
                p.deep_view(),
            ),
            _ => None,
        }
    }

    /// The probe that is kept from then on, and by what.
    pub open spec fn given(self) -> Option<(CacheKey, ProbeView)> {
        match self {
            ProbeAnswer::Asked { key, outcome: Some(ProbeOutcome::Probed(p)) } => Some(
                (key, p.deep_view()),
            ),
            _ => None,
        }
    }

    /// What is said of it.
    pub open spec fn notes(self, id: ItemId, audio: bool) -> Seq<DiagnosticView> {
        match self {
            ProbeAnswer::Passed => Seq::empty(),
            ProbeAnswer::NoMeta { message } => seq![
                probe_note(id, "probe skipped: metadata failed: "@ + message),
            ],
            ProbeAnswer::NoId { message } => seq![
                probe_note(id, "probe skipped: file id failed: "@ + message),
            ],
            ProbeAnswer::Kept { .. } => Seq::empty(),
            ProbeAnswer::Asked { outcome, .. } => outcome_notes(id, outcome, audio),
        }
    }

    /// What was asked for it.
    pub open spec fn looking(self, path: PathView, audio: bool) -> Seq<Looking> {
        if self is Asked {
            seq![Looking { path, audio }]
        } else {
            Seq::empty()
        }
    }

    /// Whether it comes of what is kept, and what is kept afterwards is what is
    /// due: the probe that was found, by the key of the file, and else what was
    /// kept before.
    pub open spec fn accords(self, before: ProbeCache, after: ProbeCache) -> bool {
        match self {
            ProbeAnswer::Kept { key, probe } => before.found(key) == Some(probe) && after == before,
            ProbeAnswer::Asked { key, .. } => {
                &&& before.found(key) is None
                &&& match self.given() {
                    Some((_, probe)) => forall|k: CacheKey| #[trigger]
                        after.found(k) == (if k == key {
                            Some(probe)
                        } else {
                            before.found(k)
                        }),
                    None => after == before,
                }
            },
            _ => after == before,
        }
    }

    /// Whether it comes of what was answered for other files before: what is
    /// kept was found in one with the same key, and no file is looked into where
    /// that is so.
    pub open spec fn follows(self, earlier: Seq<ProbeAnswer>) -> bool {
        match self {
            ProbeAnswer::Kept { key, probe } => kept_of(earlier, key) == Some(probe),
            ProbeAnswer::Asked { key, .. } => kept_of(earlier, key) is None,
            _ => true,
        }
    }
}

/// The probe that is kept by a key after some answers.
pub open spec fn kept_of(answers: Seq<ProbeAnswer>, key: CacheKey) -> Option<ProbeView>
    decreases answers.len(),
{
    if answers.len() == 0 {
        None
    } else {
        match answers.last().given() {
            Some((k, probe)) if k == key => Some(probe),
            _ => kept_of(answers.drop_last(), key),
        }
    }
}

/// Whether each answer comes of those before it.
pub open spec fn each_follows(answers: Seq<ProbeAnswer>) -> bool {
    forall|i: int| 0 <= i < answers.len() ==> (#[trigger] answers[i]).follows(answers.take(i))
}

/// Whether a cache holds what is kept after some answers.
pub open spec fn holds_given(cache: ProbeCache, answers: Seq<ProbeAnswer>) -> bool {
    forall|key: CacheKey| #[trigger] cache.found(key) == kept_of(answers, key)
}

/// An answer that comes of a cache follows those that the cache holds.
pub proof fn lemma_follows_cache(
    before: ProbeCache,
    after: ProbeCache,
    answers: Seq<ProbeAnswer>,
    a: ProbeAnswer,
)
    requires
        holds_given(before, answers),
        each_follows(answers),
        a.accords(before, after),
    ensures
        holds_given(after, answers.push(a)),
        each_follows(answers.push(a)),
{
    let all = answers.push(a);
    assert(all.drop_last() =~= answers);
    assert forall|key: CacheKey| #[trigger] after.found(key) == kept_of(all, key) by {
        assert(before.found(key) == kept_of(answers, key));
    }
    assert forall|i: int| 0 <= i < all.len() implies (#[trigger] all[i]).follows(all.take(i)) by {
        if i < answers.len() {
            assert(all.take(i) =~= answers.take(i));
            assert(answers[i].follows(answers.take(i)));
        } else {
            assert(all.take(i) =~= answers);
            if let ProbeAnswer::Kept { key, .. } = a {
                assert(before.found(key) == kept_of(answers, key));
            }
            if let ProbeAnswer::Asked { key, .. } = a {
                assert(before.found(key) == kept_of(answers, key));
            }
        }
    }
}

/// Whether a key is that of a file: the identity that was told of its path, and
/// its length and time.
pub open spec fn is_key(
    key: CacheKey,
    path: PathView,
    t: Tree,
    h0: Seq<Call>,
    h1: Seq<Call>,
) -> bool {
    &&& exists|k: int|
        h0.len() <= k < h1.len() && #[trigger] identifies(h1[k], path, key.file)
    &&& exists|k: int|
        h0.len() <= k < h1.len() && #[trigger] h1[k] == (Call::Stat { path, len: Some(key.len) })
    &&& t.dom().contains(path)
    &&& t[path] matches NodeView::File { data, modified } ==> key.len as nat == data.len()
        && key.modified == modified
}

/// What is not asked has been asked nothing more.
pub proof fn lemma_asks_nothing<P: Prober>(a: P)
    ensures
        asks_also(a, a, Seq::empty()),
{
    if a.asked() is Some {
        assert(a.asked()->0 + Seq::<Looking>::empty() =~= a.asked()->0);
    }
}

/// What was asked in two stretches was asked one after the other.
pub proof fn lemma_asks_more<P: Prober>(a: P, b: P, c: P, u: Seq<Looking>, v: Seq<Looking>)
    requires
        asks_also(a, b, u),
        asks_also(b, c, v),
    ensures
        asks_also(a, c, u + v),
{
    if a.asked() is Some {
        assert(a.asked()->0 + u + v =~= a.asked()->0 + (u + v));
    }
}

/// Whether a file was rightly answered for: on a steady file system its metadata
/// and its identity can be read where it is there, what is kept is kept by its
/// key, and what is said of it may be.
pub open spec fn answered_rightly<P: Prober>(
    a: ProbeAnswer,
    path: PathView,
    audio: bool,
    prober: P,
    t: Tree,
    h0: Seq<Call>,
    h1: Seq<Call>,
    steady: bool,
) -> bool {
    match a {
        ProbeAnswer::Passed => false,
        ProbeAnswer::NoMeta { .. } | ProbeAnswer::NoId { .. } => steady ==> !t.dom().contains(path),
        ProbeAnswer::Kept { key, .. } => is_key(key, path, t, h0, h1),
        ProbeAnswer::Asked { key, outcome } => {
            &&& is_key(key, path, t, h0, h1)
            &&& prober.may_answer(path, audio, outcome)
        },
    }
}

/// What was rightly answered is so whatever else was asked before and after.
pub proof fn lemma_answered_among<P: Prober>(
    a: ProbeAnswer,
    path: PathView,
    audio: bool,
    asked: P,
    prober: P,
    t: Tree,
    h0: Seq<Call>,
    h1: Seq<Call>,
    h2: Seq<Call>,
    h3: Seq<Call>,
    now: bool,
    steady: bool,
)
    requires
        answered_rightly(a, path, audio, asked, t, h1, h2, now),
        answers_alike(prober, asked),
        goes_on(h0, h1),
        goes_on(h2, h3),
        steady ==> now,
    ensures
        answered_rightly(a, path, audio, prober, t, h0, h3, steady),
{
    let key = match a {
        ProbeAnswer::Kept { key, .. } => Some(key),
        ProbeAnswer::Asked { key, .. } => Some(key),
        _ => None,
    };
    if let Some(key) = key {
        let k = choose|k: int|
            h1.len() <= k < h2.len() && #[trigger] identifies(h2[k], path, key.file);
        assert(h3[k] == h2[k]);
        assert(identifies(h3[k], path, key.file));
        let j = choose|j: int|
            h1.len() <= j < h2.len() && #[trigger] h2[j] == (Call::Stat {
                path,
                len: Some(key.len),
            });
        assert(h3[j] == h2[j]);
    }
    if let ProbeAnswer::Asked { outcome, .. } = a {
        assert(asked.may_answer(path, audio, outcome) == prober.may_answer(path, audio, outcome));
    }
}

/// The probe of a file: the one that is kept, else a new one, which is then
/// kept. There is none where the file's metadata or identity cannot be read or
/// nothing could be found out, and at most one warning says why.
pub fn cached_or_probe<F: FileSystem, P: Prober>(
    fs: &mut F,
    prober: &mut P,
    source: &FilePath,
    id: ItemId,
    audio: bool,
    cache: &mut ProbeCache,
    notes: &mut Vec<Diagnostic>,
) -> (r: Option<Probe>)
    ensures
        old(fs).is_steady() ==> final(fs).is_steady(),
        only_asks(old(fs).history(), final(fs).history()),
        final(fs).tree() == old(fs).tree(),
        answers_alike(*old(prober), *final(prober)),
        exists|a: ProbeAnswer|
            r.deep_view() == #[trigger] a.probe() && a.accords(*old(cache), *final(cache))
                && asks_also(
                *old(prober),
                *final(prober),
                a.looking(source.deep_view(), audio),
            ) && final(notes).deep_view() == old(notes).deep_view() + a.notes(id, audio)
                && answered_rightly(
                a,
                source.deep_view(),
                audio,
                *old(prober),
                old(fs).tree(),
                old(fs).history(),
                final(fs).history(),
                old(fs).is_steady(),
            ),
{
    let ghost before = notes.deep_view();
    proof {
        lemma_asks_nothing(*prober);
    }
    let meta = match fs.metadata(source) {
        Ok(m) => m,
        Err(e) => {
            let message = "probe skipped: metadata failed: ".to_string().concat(&e.message);
            warn_item(notes, id, message);
            proof {
                let a = ProbeAnswer::NoMeta { message: e.message@ };
                assert(a.probe() is None);
                assert(notes.deep_view() =~= before + a.notes(id, audio));
            }
            return None;
        },
    };
    let file = match fs.file_id(source) {
        Ok(f) => f,
        Err(e) => {
            let message = "probe skipped: file id failed: ".to_string().concat(&e.message);
            warn_item(notes, id, message);
            proof {
                let a = ProbeAnswer::NoId { message: e.message@ };
                assert(a.probe() is None);
                assert(notes.deep_view() =~= before + a.notes(id, audio));
            }
            return None;
        },
    };
    let key = CacheKey::from_meta(file, &meta);
    proof {
        let n = old(fs).history().len() as int;
        let h1 = fs.history();
        assert(h1[n] == (Call::Stat { path: source.deep_view(), len: Some(key.len) }));
        assert(identifies(h1[n + 1], source.deep_view(), key.file));
        assert(is_key(key, source.deep_view(), fs.tree(), old(fs).history(), h1));
    }
    if let Some(hit) = cache.get(&key) {
        proof {
            assert(cache.found(key) == Some(hit.deep_view()));
            let a = ProbeAnswer::Kept { key, probe: hit.deep_view() };
            assert(a.probe() == Some(hit.deep_view()));
            assert(notes.deep_view() =~= before + a.notes(id, audio));
        }
        return Some(hit);
    }
    let outcome = if audio {
        prober.probe_audio_path(source)
    } else {
        prober.probe_path(source)
    };
    let ghost a = ProbeAnswer::Asked { key, outcome };
    proof {
        if old(prober).asked() is Some {
            let was = old(prober).asked()->0;
            let one = Looking { path: source.deep_view(), audio };
            assert(was.push(one) =~= was + seq![one]);
        }
    }
    let r = accept_outcome(outcome, id, audio, notes);
    proof {
        assert(r.deep_view() == a.probe());
        assert(notes.deep_view() == before + a.notes(id, audio));
    }
    match r {
        Some(p) => {
            cache.insert(key, p.duplicate());
            proof {
                assert(a.given() == Some((key, p.deep_view())));
            }
            Some(p)
        },
        None => None,
    }
}

/// A candidate from the container.
pub open spec fn from_container(v: Seq<char>) -> FieldView<Seq<char>> {
    FieldView::Known { value: v, source: Source::ContainerHeader, confidence: Confidence::High }
}

impl ResolvedMovieView {
    /// The movie with what the container says of resolution and codec folded
    /// in.
    pub open spec fn with_video(self, v: VideoProbeView, prefs: SourcePreference) -> Self {
        ResolvedMovieView {
            resolution: match v.resolution {
                Some(label) => better(self.resolution, from_container(label), prefs),
                None => self.resolution,
            },
            video_codec: match v.codec {
                Some(codec) => better(self.video_codec, from_container(codec), prefs),
                None => self.video_codec,
            },
            ..self
        }
    }

    /// The movie with what a probe says folded in.
    pub open spec fn with_probe(self, p: ProbeView, prefs: SourcePreference) -> Self {
        match p.video {
            Some(v) => self.with_video(v, prefs),
            None => self,
        }
    }

    /// The movie with what was answered folded in.
    pub open spec fn with_answer(self, a: ProbeAnswer, prefs: SourcePreference) -> Self {
        match a.probe() {
            Some(p) => self.with_probe(p, prefs),
            None => self,
        }
    }
}

/// What is said where a probe lacks something.
pub open spec fn probe_remarks(id: ItemId, m: ResolvedMovieView, p: ProbeView) -> Seq<DiagnosticView> {
    match p.video {
        None => seq![
            probe_note(id, "container has no video track; falling back to filename"@),
        ],
        Some(v) => if v.resolution is None && !m.resolution.is_known() {
            seq![probe_note(id, CONTAINER_PROBING_UNAVAILABLE@)]
        } else {
            Seq::empty()
        },
    }
}

/// What is said of what was answered, and of what a probe lacks.
pub open spec fn answer_notes(id: ItemId, m: ResolvedMovieView, a: ProbeAnswer) -> Seq<
    DiagnosticView,
> {
    a.notes(id, false) + (match a.probe() {
        Some(p) => probe_remarks(id, m, p),
        None => Seq::empty(),
    })
}

/// Folds a probe into a movie.
pub fn merge_probe(
    resolved: &mut ResolvedMovie,
    probe: &Probe,
    id: ItemId,
    cfg: &Config,
    notes: &mut Vec<Diagnostic>,
)
    ensures
        final(resolved).deep_view() == old(resolved).deep_view().with_probe(
            probe.deep_view(),
            cfg.source_preference,
        ),
        final(notes).deep_view() == old(notes).deep_view() + probe_remarks(
            id,
            old(resolved).deep_view(),
            probe.deep_view(),
        ),
{
    let ghost before = notes.deep_view();
    let ghost m = resolved.deep_view();
    let prefs = &cfg.source_preference;
    match &probe.video {
        None => {
            warn_item(
                notes,
                id,
                "container has no video track; falling back to filename".to_string(),
            );
        },
        Some(video) => {
            match &video.resolution {
                Some(label) => {
                    let candidate = Field::known(
                        label.clone(),
                        Source::ContainerHeader,
                        Confidence::High,
                    );
                    resolved.resolution = merge_field(&resolved.resolution, candidate, prefs);
                },
                None => {
                    if !resolved.resolution.is_known() {
                        warn_item(notes, id, CONTAINER_PROBING_UNAVAILABLE.to_string());
                    }
                },
            }
            if let Some(codec) = &video.codec {
                let candidate = Field::known(
                    codec.clone(),
                    Source::ContainerHeader,
                    Confidence::High,
                );
                resolved.video_codec = merge_field(&resolved.video_codec, candidate, prefs);
            }
        },
    }
    proof {
        assert(notes.deep_view() =~= before + probe_remarks(id, m, probe.deep_view()));
    }
}

/// Probe `source` and merge container resolution and codec into `resolved`.
/// Nothing else about the movie changes.
pub fn probe_and_merge<F: FileSystem, P: Prober>(
    fs: &mut F,
    prober: &mut P,
    source: &FilePath,
    id: ItemId,
    resolved: &mut ResolvedMovie,
    cache: &mut ProbeCache,
    cfg: &Config,
    notes: &mut Vec<Diagnostic>,
)
    ensures
        old(fs).is_steady() ==> final(fs).is_steady(),
        only_asks(old(fs).history(), final(fs).history()),
        final(fs).tree() == old(fs).tree(),
        answers_alike(*old(prober), *final(prober)),
        exists|a: ProbeAnswer|
            final(resolved).deep_view() == #[trigger] old(resolved).deep_view().with_answer(
                a,
                cfg.source_preference,
            ) && final(notes).deep_view() == old(notes).deep_view() + answer_notes(
                id,
                old(resolved).deep_view(),
                a,
            ) && asks_also(
                *old(prober),
                *final(prober),
                a.looking(source.deep_view(), false),
            ) && a.accords(*old(cache), *final(cache)) && answered_rightly(
                a,
                source.deep_view(),
                false,
                *old(prober),
                old(fs).tree(),
                old(fs).history(),
                final(fs).history(),
                old(fs).is_steady(),
            ),
{
    let ghost before = notes.deep_view();
    let ghost t = fs.tree();
    let ghost steady = fs.is_steady();
    let ghost h = fs.history();
    let ghost m = resolved.deep_view();
    match cached_or_probe(fs, prober, source, id, false, cache, notes) {
        Some(probe) => {
            let ghost heard = notes.deep_view();
            merge_probe(resolved, &probe, id, cfg, notes);
            proof {
                let a = choose|a: ProbeAnswer|
                    Some(probe.deep_view()) == #[trigger] a.probe() && heard == before + a.notes(
                        id,
                        false,
                    ) && asks_also(
                        *old(prober),
                        *prober,
                        a.looking(source.deep_view(), false),
                    ) && a.accords(*old(cache), *cache) && answered_rightly(
                        a,
                        source.deep_view(),
                        false,
                        *old(prober),
                        t,
                        h,
                        fs.history(),
                        steady,
                    );
                assert(resolved.deep_view() == m.with_answer(a, cfg.source_preference));
                assert(notes.deep_view() =~= before + answer_notes(id, m, a));
            }
        },
        None => {
            proof {
                let a = choose|a: ProbeAnswer|
                    #[trigger] a.probe() is None && notes.deep_view() == before + a.notes(
                        id,
                        false,
                    ) && asks_also(
                        *old(prober),
                        *prober,
                        a.looking(source.deep_view(), false),
                    ) && a.accords(*old(cache), *cache) && answered_rightly(
                        a,
                        source.deep_view(),
                        false,
                        *old(prober),
                        t,
                        h,
                        fs.history(),
                        steady,
                    );
                assert(resolved.deep_view() == m.with_answer(a, cfg.source_preference));
                assert(notes.deep_view() =~= before + answer_notes(id, m, a));
            }
        },
    }
}

/// HDR is never taken from the container, nor is anything else but resolution
/// and codec.
pub proof fn law_container_gives_resolution_and_codec_only(
    m: ResolvedMovieView,
    p: ProbeView,
    prefs: SourcePreference,
)
    ensures
        m.with_probe(p, prefs) == (ResolvedMovieView {
            resolution: m.with_probe(p, prefs).resolution,
            video_codec: m.with_probe(p, prefs).video_codec,
            ..m
        }),
{
}

} // verus!
