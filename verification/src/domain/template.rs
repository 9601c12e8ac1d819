//! Naming templates.
//!
//! A validated list of placeholders plus optional segments in brackets. A
//! placeholder that may be absent must stand in brackets, so a template that
//! would leave a dangling separator is refused when it is read.

use crate::domain::duplicate::Duplicate;
use crate::domain::error::{CoreError, CoreErrorView};
use crate::text;
use crate::text::{CharClass, Class};
use vstd::prelude::*;

verus! {

/// The placeholder names of the grammar.
pub const KNOWN_PLACEHOLDERS: [&'static str; 19] = [
    "title",
    "year",
    "edition",
    "resolution",
    "hdr",
    "source",
    "video_codec",
    "audio_format",
    "discriminators",
    "season",
    "episode_code",
    "episode_title",
    "album_artist",
    "album",
    "disc",
    "track",
    "track_artist",
    "language",
    "flags",
];

/// Whether a name is a placeholder of the grammar.
pub open spec fn is_known(name: Seq<char>) -> bool {
    ||| name == "title"@
    ||| name == "year"@
    ||| name == "edition"@
    ||| name == "resolution"@
    ||| name == "hdr"@
    ||| name == "source"@
    ||| name == "video_codec"@
    ||| name == "audio_format"@
    ||| name == "discriminators"@
    ||| name == "season"@
    ||| name == "episode_code"@
    ||| name == "episode_title"@
    ||| name == "album_artist"@
    ||| name == "album"@
    ||| name == "disc"@
    ||| name == "track"@
    ||| name == "track_artist"@
    ||| name == "language"@
    ||| name == "flags"@
}

/// Tests for a placeholder of the grammar.
pub fn is_known_placeholder(name: &str) -> (r: bool)
    ensures
        r == is_known(name@),
{
    text::same_text(name, "title") || text::same_text(name, "year") || text::same_text(
        name,
        "edition",
    ) || text::same_text(name, "resolution") || text::same_text(name, "hdr") || text::same_text(
        name,
        "source",
    ) || text::same_text(name, "video_codec") || text::same_text(name, "audio_format")
        || text::same_text(name, "discriminators") || text::same_text(name, "season")
        || text::same_text(name, "episode_code") || text::same_text(name, "episode_title")
        || text::same_text(name, "album_artist") || text::same_text(name, "album")
        || text::same_text(name, "disc") || text::same_text(name, "track") || text::same_text(
        name,
        "track_artist",
    ) || text::same_text(name, "language") || text::same_text(name, "flags")
}

/// Whether a placeholder may be absent, so that it must be bracketed.
pub open spec fn is_optional(name: Seq<char>) -> bool {
    ||| name == "year"@
    ||| name == "edition"@
    ||| name == "resolution"@
    ||| name == "hdr"@
    ||| name == "source"@
    ||| name == "video_codec"@
    ||| name == "audio_format"@
    ||| name == "episode_title"@
    ||| name == "track"@
    ||| name == "track_artist"@
    ||| name == "flags"@
}

/// Which placeholders may be absent: bracketing them is mandatory.
/// `discriminators` brings its own separators and `language` always renders,
/// so neither is among them.
pub fn is_optional_placeholder(name: &str) -> (r: bool)
    ensures
        r == is_optional(name@),
{
    text::same_text(name, "year") || text::same_text(name, "edition") || text::same_text(
        name,
        "resolution",
    ) || text::same_text(name, "hdr") || text::same_text(name, "source") || text::same_text(
        name,
        "video_codec",
    ) || text::same_text(name, "audio_format") || text::same_text(name, "episode_title")
        || text::same_text(name, "track") || text::same_text(name, "track_artist")
        || text::same_text(name, "flags")
}

/// One piece of a template.
#[derive(Debug, PartialEq, Eq)]
pub enum Segment {
    Literal(String),
    /// A single placeholder.
    Required(String),
    /// A group that is rendered only when all its placeholders are present.
    Optional(Vec<Segment>),
}

/// The contents of a [`Segment`].
pub enum SegmentView {
    Literal(Seq<char>),
    Required(Seq<char>),
    Optional(Seq<SegmentView>),
}

/// The contents of one piece.
pub open spec fn segment_view(s: Segment) -> SegmentView
    decreases s,
{
    match s {
        Segment::Literal(t) => SegmentView::Literal(t@),
        Segment::Required(t) => SegmentView::Required(t@),
        Segment::Optional(inner) => SegmentView::Optional(segment_views(inner@)),
    }
}

/// The contents of several pieces.
pub open spec fn segment_views(s: Seq<Segment>) -> Seq<SegmentView>
    decreases s,
{
    if s.len() == 0 {
        Seq::empty()
    } else {
        segment_views(s.drop_last()).push(segment_view(s.last()))
    }
}

/// A compiled template.
#[derive(Debug, PartialEq, Eq)]
pub struct Template {
    pub raw: String,
    pub segments: Vec<Segment>,
}

/// The contents of a [`Template`].
#[verifier::ext_equal]
pub struct TemplateView {
    pub raw: Seq<char>,
    pub segments: Seq<SegmentView>,
}

impl DeepView for Template {
    type V = TemplateView;

    open spec fn deep_view(&self) -> TemplateView {
        TemplateView { raw: self.raw@, segments: segment_views(self.segments@) }
    }
}

/// Copies a piece of a template.
fn copy_segment(s: &Segment) -> (r: Segment)
    ensures
        segment_view(r) == segment_view(*s),
    decreases s,
{
    match s {
        Segment::Literal(t) => Segment::Literal(t.clone()),
        Segment::Required(t) => Segment::Required(t.clone()),
        Segment::Optional(inner) => Segment::Optional(copy_segments(inner)),
    }
}

/// Copies the pieces of a template.
fn copy_segments(list: &Vec<Segment>) -> (r: Vec<Segment>)
    ensures
        segment_views(r@) == segment_views(list@),
    decreases list,
{
    let mut out: Vec<Segment> = Vec::new();
    let mut i: usize = 0;
    while i < list.len()
        invariant
            i <= list@.len(),
            segment_views(out@) == segment_views(list@.take(i as int)),
        decreases list@.len() - i,
    {
        let ghost before = out@;
        out.push(copy_segment(&list[i]));
        proof {
            assert(out@.drop_last() =~= before);
            assert(list@.take(i + 1).drop_last() =~= list@.take(i as int));
        }
        i = i + 1;
    }
    proof {
        assert(list@.take(i as int) =~= list@);
    }
    out
}

impl Clone for Segment {
    fn clone(&self) -> (r: Self)
        ensures
            segment_view(r) == segment_view(*self),
    {
        copy_segment(self)
    }
}

impl Clone for Template {
    fn clone(&self) -> (r: Self)
        ensures
            r.deep_view() == self.deep_view(),
    {
        self.duplicate()
    }
}

impl Duplicate for Template {
    fn duplicate(&self) -> (r: Self) {
        Template { raw: self.raw.clone(), segments: copy_segments(&self.segments) }
    }
}

// ---------------------------------------------------------------------------
// Reading
// ---------------------------------------------------------------------------

/// What is wrong with a template; positions are in bytes.
pub enum Fault {
    UnmatchedClose(nat),
    UnmatchedOpen(nat),
    UnmatchedBrace(nat),
    Unknown(Seq<char>),
    Unbracketed(Seq<char>),
}

impl Fault {
    /// The fault in words.
    pub open spec fn message(self) -> Seq<char> {
        match self {
            Fault::UnmatchedClose(i) => "unmatched ']' at byte "@ + text::decimal(i),
            Fault::UnmatchedOpen(i) => "unmatched '[' at byte "@ + text::decimal(i),
            Fault::UnmatchedBrace(i) => "unmatched '{' at byte "@ + text::decimal(i),
            Fault::Unknown(name) => "unknown placeholder '{"@ + name + "}'"@,
            Fault::Unbracketed(name) => "placeholder '{"@ + name
                + "}' is optional and must be bracketed: [...]"@,
        }
    }
}

/// The byte at which a character stands.
pub open spec fn byte_of(s: Seq<char>, i: int) -> nat {
    text::utf8_len(s.take(i))
}

/// Where the first closing brace from `i` on stands; the length where there is
/// none.
pub open spec fn brace_end(s: Seq<char>, i: int) -> int {
    i + text::first_where(s.skip(i), CharClass::Is('}'), true)
}

/// Where the bracket opened at `open` is closed, looking from `i` on with
/// `depth` brackets open. What stands in braces is passed over.
pub open spec fn close_from(s: Seq<char>, open: int, i: int, depth: int) -> Result<int, Fault>
    decreases s.len() - i,
{
    if i < 0 || i >= s.len() {
        Err(Fault::UnmatchedOpen(byte_of(s, open)))
    } else if s[i] == '[' {
        close_from(s, open, i + 1, depth + 1)
    } else if s[i] == ']' {
        if depth == 1 {
            Ok(i)
        } else {
            close_from(s, open, i + 1, depth - 1)
        }
    } else if s[i] == '{' {
        let end = brace_end(s, i);
        if i < end < s.len() {
            close_from(s, open, end + 1, depth)
        } else {
            Err(Fault::UnmatchedBrace(byte_of(s, i)))
        }
    } else {
        close_from(s, open, i + 1, depth)
    }
}

/// A literal, unless it is empty.
pub open spec fn literal(lit: Seq<char>) -> Seq<SegmentView> {
    if lit.len() == 0 {
        Seq::empty()
    } else {
        seq![SegmentView::Literal(lit)]
    }
}

/// Pieces put before what is read after them.
pub open spec fn prepend(
    before: Seq<SegmentView>,
    rest: Result<Seq<SegmentView>, Fault>,
) -> Result<Seq<SegmentView>, Fault> {
    match rest {
        Ok(r) => Ok(before + r),
        Err(f) => Err(f),
    }
}

/// The name of a placeholder: what stands before a colon.
pub open spec fn placeholder_name(full: Seq<char>) -> Seq<char> {
    full.take(text::first_where(full, CharClass::Is(':'), true))
}

/// The pieces of a template from `i` on, with a literal begun before.
pub open spec fn pieces_from(s: Seq<char>, i: int, lit: Seq<char>) -> Result<
    Seq<SegmentView>,
    Fault,
>
    decreases s.len(), s.len() - i,
{
    if i < 0 || i >= s.len() {
        Ok(literal(lit))
    } else if s[i] == '[' {
        match close_from(s, i, i, 0) {
            Ok(close) => if i < close < s.len() {
                match pieces_from(s.subrange(i + 1, close), 0, Seq::empty()) {
                    Ok(inner) => prepend(
                        literal(lit).push(SegmentView::Optional(inner)),
                        pieces_from(s, close + 1, Seq::empty()),
                    ),
                    Err(f) => Err(f),
                }
            } else {
                Err(Fault::UnmatchedOpen(byte_of(s, i)))
            },
            Err(f) => Err(f),
        }
    } else if s[i] == ']' {
        Err(Fault::UnmatchedClose(byte_of(s, i)))
    } else if s[i] == '{' {
        let end = brace_end(s, i);
        if i < end < s.len() {
            let name = placeholder_name(s.subrange(i + 1, end));
            if is_known(name) {
                prepend(
                    literal(lit).push(SegmentView::Required(name)),
                    pieces_from(s, end + 1, Seq::empty()),
                )
            } else {
                Err(Fault::Unknown(name))
            }
        } else {
            Err(Fault::UnmatchedBrace(byte_of(s, i)))
        }
    } else {
        pieces_from(s, i + 1, lit.push(s[i]))
    }
}

/// The first optional placeholder that does not stand in brackets.
pub open spec fn first_unbracketed(segs: Seq<SegmentView>) -> Option<Seq<char>>
    decreases segs.len(),
{
    if segs.len() == 0 {
        None
    } else {
        match segs[0] {
            SegmentView::Required(name) => if is_optional(name) {
                Some(name)
            } else {
                first_unbracketed(segs.skip(1))
            },
            _ => first_unbracketed(segs.skip(1)),
        }
    }
}

/// The pieces of a template that is well formed and leaves no optional
/// placeholder without brackets.
pub open spec fn compiled(raw: Seq<char>) -> Result<Seq<SegmentView>, Fault> {
    match pieces_from(raw, 0, Seq::empty()) {
        Ok(segs) => match first_unbracketed(segs) {
            Some(name) => Err(Fault::Unbracketed(name)),
            None => Ok(segs),
        },
        Err(f) => Err(f),
    }
}

/// Whether an error tells of a fault.
pub open spec fn tells(e: CoreError, f: Fault) -> bool {
    e.deep_view() == CoreErrorView::InvalidTemplate(f.message())
}

/// The byte at which a character stands.
fn byte_at(s: &Vec<char>, i: usize) -> (r: usize)
    requires
        i <= s@.len(),
    ensures
        r as nat == byte_of(s@, i as int),
{
    let head = text::slice_of(s, 0, i);
    proof {
        assert(head@ =~= s@.take(i as int));
    }
    text::byte_len(&text::to_text(&head))
}

/// An error that tells of a fault at a position.
fn fault_at(what: &str, s: &Vec<char>, i: usize) -> (r: CoreError)
    requires
        i <= s@.len(),
    ensures
        r.deep_view() == CoreErrorView::InvalidTemplate(what@ + text::decimal(byte_of(s@, i as int))),
{
    let at: usize = byte_at(s, i);
    CoreError::InvalidTemplate(what.to_string().concat(&text::decimal_text(at as u64)))
}

/// Finds the first closing brace from `i` on.
fn find_brace(s: &Vec<char>, i: usize) -> (r: Option<usize>)
    requires
        i < s@.len(),
        s@[i as int] == '{',
    ensures
        match r {
            Some(end) => end as int == brace_end(s@, i as int) && i < end < s@.len(),
            None => brace_end(s@, i as int) >= s@.len(),
        },
{
    let tail = text::slice_of(s, i, s.len());
    proof {
        assert(tail@ =~= s@.skip(i as int));
        text::lemma_first_where(tail@, CharClass::Is('}'), true);
        assert(tail@[0] == '{');
    }
    let n: usize = text::find_first(&tail, Class::Is('}'), true);
    if n == tail.len() {
        None
    } else {
        Some(i + n)
    }
}

/// Finds where a bracket is closed.
fn find_close(s: &Vec<char>, open: usize) -> (r: Result<usize, CoreError>)
    requires
        open < s@.len(),
        s@[open as int] == '[',
    ensures
        match close_from(s@, open as int, open as int, 0) {
            Ok(close) => r matches Ok(c) && c as int == close && open < c < s@.len(),
            Err(f) => r matches Err(e) && tells(e, f),
        },
{
    let mut i: usize = open;
    let mut depth: usize = 0;
    while i < s.len()
        invariant
            open <= i <= s@.len(),
            open < s@.len(),
            s@[open as int] == '[',
            depth <= i - open,
            i > open ==> depth >= 1,
            i == open ==> depth == 0,
            close_from(s@, open as int, open as int, 0) == close_from(
                s@,
                open as int,
                i as int,
                depth as int,
            ),
        decreases s@.len() - i,
    {
        if s[i] == '[' {
            depth = depth + 1;
            i = i + 1;
        } else if s[i] == ']' {
            if depth == 1 {
                return Ok(i);
            }
            depth = depth - 1;
            i = i + 1;
        } else if s[i] == '{' {
            match find_brace(s, i) {
                Some(end) => {
                    i = end + 1;
                },
                None => {
                    return Err(fault_at("unmatched '{' at byte ", s, i));
                },
            }
        } else {
            i = i + 1;
        }
    }
    Err(fault_at("unmatched '[' at byte ", s, open))
}

/// Takes a literal that has been begun as a piece.
fn flush(segs: &mut Vec<Segment>, lit: &mut Vec<char>)
    ensures
        segment_views(final(segs)@) == segment_views(old(segs)@) + literal(old(lit)@),
        final(lit)@ == Seq::<char>::empty(),
{
    if lit.len() > 0 {
        segs.push(Segment::Literal(text::to_text(lit)));
        proof {
            assert(segs@.drop_last() =~= old(segs)@);
            assert(segment_view(segs@.last()) == SegmentView::Literal(old(lit)@));
            assert(segment_views(segs@) =~= segment_views(old(segs)@) + literal(old(lit)@));
        }
        *lit = Vec::new();
    } else {
        proof {
            assert(lit@ =~= Seq::empty());
            assert(segment_views(segs@) + literal(lit@) =~= segment_views(segs@));
        }
    }
}

/// What has been read, put before what is still to be read.
proof fn lemma_prepend(
    a: Seq<SegmentView>,
    b: Seq<SegmentView>,
    rest: Result<Seq<SegmentView>, Fault>,
)
    ensures
        prepend(a, prepend(b, rest)) == prepend(a + b, rest),
{
    match rest {
        Ok(r) => {
            assert(a + (b + r) =~= (a + b) + r);
        },
        Err(_) => {},
    }
}

/// Reads the pieces of a template.
fn parse_segments(s: &Vec<char>) -> (r: Result<Vec<Segment>, CoreError>)
    ensures
        match pieces_from(s@, 0, Seq::empty()) {
            Ok(p) => r matches Ok(segs) && segment_views(segs@) == p,
            Err(f) => r matches Err(e) && tells(e, f),
        },
    decreases s@.len(),
{
    let mut segs: Vec<Segment> = Vec::new();
    let mut lit: Vec<char> = Vec::new();
    let mut i: usize = 0;
    let ghost goal = pieces_from(s@, 0, Seq::empty());
    proof {
        assert(lit@ =~= Seq::empty());
        match goal {
            Ok(p) => {
                assert(Seq::<SegmentView>::empty() + p =~= p);
            },
            Err(_) => {},
        }
    }
    while i < s.len()
        invariant
            i <= s@.len(),
            goal == pieces_from(s@, 0, Seq::empty()),
            goal == prepend(segment_views(segs@), pieces_from(s@, i as int, lit@)),
        decreases s@.len() - i,
    {
        let ghost before = segment_views(segs@);
        let ghost begun = lit@;
        let c = s[i];
        if c == '[' {
            match find_close(s, i) {
                Ok(close) => {
                    let inner_text = text::slice_of(s, i + 1, close);
                    match parse_segments(&inner_text) {
                        Ok(inner) => {
                            flush(&mut segs, &mut lit);
                            let ghost mid = segs@;
                            segs.push(Segment::Optional(inner));
                            proof {
                                assert(segs@.drop_last() =~= mid);
                                let piece = SegmentView::Optional(segment_views(inner@));
                                assert(segment_view(segs@.last()) == piece);
                                assert(segment_views(segs@) =~= before + literal(begun).push(piece));
                                lemma_prepend(
                                    before,
                                    literal(begun).push(piece),
                                    pieces_from(s@, close + 1, Seq::empty()),
                                );
                            }
                            i = close + 1;
                        },
                        Err(e) => {
                            return Err(e);
                        },
                    }
                },
                Err(e) => {
                    return Err(e);
                },
            }
        } else if c == ']' {
            return Err(fault_at("unmatched ']' at byte ", s, i));
        } else if c == '{' {
            match find_brace(s, i) {
                Some(end) => {
                    let full = text::slice_of(s, i + 1, end);
                    let n: usize = text::find_first(&full, Class::Is(':'), true);
                    let name_chars = text::slice_of(&full, 0, n);
                    proof {
                        assert(name_chars@ =~= placeholder_name(full@));
                    }
                    let name = text::to_text(&name_chars);
                    if !is_known_placeholder(&name) {
                        let mut message = String::from_str("unknown placeholder '{");
                        message.append(&name);
                        message.append("}'");
                        return Err(CoreError::InvalidTemplate(message));
                    }
                    flush(&mut segs, &mut lit);
                    let ghost mid = segs@;
                    segs.push(Segment::Required(name));
                    proof {
                        assert(segs@.drop_last() =~= mid);
                        let piece = SegmentView::Required(name_chars@);
                        assert(segment_view(segs@.last()) == piece);
                        assert(segment_views(segs@) =~= before + literal(begun).push(piece));
                        lemma_prepend(
                            before,
                            literal(begun).push(piece),
                            pieces_from(s@, end + 1, Seq::empty()),
                        );
                    }
                    i = end + 1;
                },
                None => {
                    return Err(fault_at("unmatched '{' at byte ", s, i));
                },
            }
        } else {
            lit.push(c);
            i = i + 1;
        }
    }
    flush(&mut segs, &mut lit);
    Ok(segs)
}

/// Checks that no optional placeholder stands without brackets.
fn validate(segs: &Vec<Segment>) -> (r: Result<(), CoreError>)
    ensures
        match first_unbracketed(segment_views(segs@)) {
            Some(name) => r matches Err(e) && tells(e, Fault::Unbracketed(name)),
            None => r is Ok,
        },
{
    let ghost v = segment_views(segs@);
    let mut i: usize = 0;
    proof {
        assert(v.skip(0) =~= v);
        lemma_segment_views(segs@);
    }
    while i < segs.len()
        invariant
            i <= segs@.len(),
            v == segment_views(segs@),
            v.len() == segs@.len(),
            forall|k: int| 0 <= k < v.len() ==> v[k] == segment_view(#[trigger] segs@[k]),
            first_unbracketed(v) == first_unbracketed(v.skip(i as int)),
        decreases segs@.len() - i,
    {
        proof {
            assert(v.skip(i as int)[0] == segment_view(segs@[i as int]));
            assert(v.skip(i as int).skip(1) =~= v.skip(i + 1));
        }
        if let Segment::Required(name) = &segs[i] {
            if is_optional_placeholder(name) {
                let mut message = String::from_str("placeholder '{");
                message.append(name);
                message.append("}' is optional and must be bracketed: [...]");
                return Err(CoreError::InvalidTemplate(message));
            }
        }
        i = i + 1;
    }
    proof {
        assert(v.skip(i as int) =~= Seq::empty());
    }
    Ok(())
}

/// The contents of the pieces, one by one.
pub proof fn lemma_segment_views(segs: Seq<Segment>)
    ensures
        segment_views(segs).len() == segs.len(),
        forall|i: int|
            0 <= i < segs.len() ==> segment_views(segs)[i] == segment_view(#[trigger] segs[i]),
    decreases segs.len(),
{
    if segs.len() > 0 {
        lemma_segment_views(segs.drop_last());
        assert forall|i: int| 0 <= i < segs.len() implies segment_views(segs)[i] == segment_view(
            #[trigger] segs[i],
        ) by {
            if i < segs.len() - 1 {
                assert(segs.drop_last()[i] == segs[i]);
            }
        }
    }
}

impl Default for Template {
    fn default() -> (r: Self)
        ensures
            r.deep_view() == (TemplateView {
                raw: "{title}"@,
                segments: seq![SegmentView::Required("title"@)],
            }),
    {
        let segments: Vec<Segment> = vec![Segment::Required("title".to_string())];
        proof {
            assert(segments@.drop_last() =~= Seq::empty());
            assert(segment_views(segments@.drop_last()) =~= Seq::empty());
            assert(segment_view(segments@.last()) == SegmentView::Required("title"@));
            assert(segment_views(segments@) =~= seq![SegmentView::Required("title"@)]);
        }
        Template { raw: "{title}".to_string(), segments }
    }
}

impl Template {
    /// Parse and validate a template string.
    pub fn parse(raw: &str) -> (r: Result<Self, CoreError>)
        ensures
            match compiled(raw@) {
                Ok(segments) => r matches Ok(t) && t.deep_view() == (TemplateView {
                    raw: raw@,
                    segments,
                }),
                Err(f) => r matches Err(e) && tells(e, f),
            },
    {
        let segments = match parse_segments(&text::to_chars(raw)) {
            Ok(s) => s,
            Err(e) => {
                return Err(e);
            },
        };
        match validate(&segments) {
            Ok(()) => Ok(Template { raw: raw.to_string(), segments }),
            Err(e) => Err(e),
        }
    }

    /// Render the template against a value source.
    pub fn render<V: ValueSource + ?Sized>(&self, values: &V) -> (r: String)
        ensures
            r@ == rendered(self.deep_view().segments, values),
    {
        let mut out = String::new();
        render_segments(&self.segments, values, &mut out);
        proof {
            reveal_strlit("");
            assert(out@ =~= rendered(self.deep_view().segments, values));
        }
        out
    }
}

// ---------------------------------------------------------------------------
// Rendering
// ---------------------------------------------------------------------------

/// Where the values of placeholders come from.
pub trait ValueSource {
    /// The value of a placeholder, where it is present. Left open where an
    /// implementation does not say.
    open spec fn value(&self, name: Seq<char>) -> Option<Seq<char>> {
        arbitrary()
    }

    /// The value of a placeholder, where it is present.
    fn get(&self, name: &str) -> (r: Option<String>)
        ensures
            r.deep_view() == self.value(name@),
    ;
}

/// Whether every placeholder of the pieces is present.
pub open spec fn all_present<V: ValueSource + ?Sized>(segs: Seq<SegmentView>, values: &V) -> bool
    decreases segs,
{
    if segs.len() == 0 {
        true
    } else {
        all_present(segs.drop_last(), values) && match segs.last() {
            SegmentView::Literal(_) => true,
            SegmentView::Required(n) => values.value(n) is Some,
            SegmentView::Optional(inner) => all_present(inner, values),
        }
    }
}

/// The text of the pieces: a literal as it is, a placeholder by its value or
/// nothing, a group only where all its placeholders are present.
pub open spec fn rendered<V: ValueSource + ?Sized>(segs: Seq<SegmentView>, values: &V) -> Seq<char>
    decreases segs,
{
    if segs.len() == 0 {
        Seq::empty()
    } else {
        rendered(segs.drop_last(), values) + match segs.last() {
            SegmentView::Literal(s) => s,
            SegmentView::Required(n) => match values.value(n) {
                Some(v) => v,
                None => Seq::empty(),
            },
            SegmentView::Optional(inner) => if all_present(inner, values) {
                rendered(inner, values)
            } else {
                Seq::empty()
            },
        }
    }
}

/// Tests that every placeholder of the pieces is present.
fn optional_present<V: ValueSource + ?Sized>(segs: &Vec<Segment>, values: &V) -> (r: bool)
    ensures
        r == all_present(segment_views(segs@), values),
    decreases segs,
{
    let ghost v = segment_views(segs@);
    let mut i: usize = 0;
    proof {
        lemma_segment_views(segs@);
        assert(v.take(0) =~= Seq::empty());
    }
    while i < segs.len()
        invariant
            i <= segs@.len(),
            v == segment_views(segs@),
            v.len() == segs@.len(),
            forall|k: int| 0 <= k < v.len() ==> v[k] == segment_view(#[trigger] segs@[k]),
            all_present(v.take(i as int), values),
        decreases segs@.len() - i,
    {
        proof {
            assert(v.take(i + 1).drop_last() =~= v.take(i as int));
            assert(v.take(i + 1).last() == segment_view(segs@[i as int]));
        }
        let ok = match &segs[i] {
            Segment::Literal(_) => true,
            Segment::Required(n) => values.get(n).is_some(),
            Segment::Optional(inner) => optional_present(inner, values),
        };
        if !ok {
            proof {
                assert(!all_present(v.take(i + 1), values));
                lemma_absent_stays(v, i + 1, values);
            }
            return false;
        }
        i = i + 1;
    }
    proof {
        assert(v.take(i as int) =~= v);
    }
    true
}

/// Pieces that miss a placeholder do not gain it by having more after them.
proof fn lemma_absent_stays<V: ValueSource + ?Sized>(segs: Seq<SegmentView>, i: int, values: &V)
    requires
        0 <= i <= segs.len(),
        !all_present(segs.take(i), values),
    ensures
        !all_present(segs, values),
    decreases segs.len() - i,
{
    if i == segs.len() {
        assert(segs.take(i) =~= segs);
    } else {
        assert(segs.take(i + 1).drop_last() =~= segs.take(i));
        lemma_absent_stays(segs, i + 1, values);
    }
}

/// Appends the text of the pieces.
fn render_segments<V: ValueSource + ?Sized>(segs: &Vec<Segment>, values: &V, out: &mut String)
    ensures
        final(out)@ == old(out)@ + rendered(segment_views(segs@), values),
    decreases segs,
{
    let ghost v = segment_views(segs@);
    let ghost start = out@;
    let mut i: usize = 0;
    proof {
        lemma_segment_views(segs@);
        assert(v.take(0) =~= Seq::empty());
        assert(start + rendered(v.take(0), values) =~= start);
    }
    while i < segs.len()
        invariant
            i <= segs@.len(),
            v == segment_views(segs@),
            v.len() == segs@.len(),
            forall|k: int| 0 <= k < v.len() ==> v[k] == segment_view(#[trigger] segs@[k]),
            out@ == start + rendered(v.take(i as int), values),
        decreases segs@.len() - i,
    {
        proof {
            assert(v.take(i + 1).drop_last() =~= v.take(i as int));
            assert(v.take(i + 1).last() == segment_view(segs@[i as int]));
        }
        match &segs[i] {
            Segment::Literal(s) => {
                out.append(s);
            },
            Segment::Required(name) => {
                if let Some(val) = values.get(name) {
                    out.append(&val);
                }
            },
            Segment::Optional(inner) => {
                if optional_present(inner, values) {
                    render_segments(inner, values, out);
                }
            },
        }
        proof {
            assert(out@ =~= start + rendered(v.take(i + 1), values));
        }
        i = i + 1;
    }
    proof {
        assert(v.take(i as int) =~= v);
    }
}

/// A compiled template leaves no optional placeholder without brackets: what
/// it requires is never absent by design.
pub proof fn law_compiled_requires_nothing_optional(raw: Seq<char>)
    ensures
        compiled(raw) matches Ok(segs) ==> forall|i: int|
            0 <= i < segs.len() ==> (#[trigger] segs[i] matches SegmentView::Required(n)
                ==> !is_optional(n)),
{
    match compiled(raw) {
        Ok(segs) => {
            lemma_none_unbracketed(segs);
        },
        Err(_) => {},
    }
}

/// Where no first unbracketed optional placeholder is found, there is none.
proof fn lemma_none_unbracketed(segs: Seq<SegmentView>)
    requires
        first_unbracketed(segs) is None,
    ensures
        forall|i: int|
            0 <= i < segs.len() ==> (#[trigger] segs[i] matches SegmentView::Required(n)
                ==> !is_optional(n)),
    decreases segs.len(),
{
    if segs.len() > 0 {
        lemma_none_unbracketed(segs.skip(1));
        assert forall|i: int| 0 <= i < segs.len() implies (#[trigger] segs[i] matches
            SegmentView::Required(n) ==> !is_optional(n)) by {
            if i > 0 {
                assert(segs[i] == segs.skip(1)[i - 1]);
            }
        }
    }
}

} // verus!
