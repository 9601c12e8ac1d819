//! Paths, and names that are safe to use in them.
//!
//! A path is a list of components, absolute or relative. Empty components and
//! `.` are dropped when a path is read, so two texts for the same path give
//! the same value.

use crate::domain::duplicate::Duplicate;
use crate::domain::volume::ComponentLimit;
use crate::text;
use crate::text::{CharClass, Class};
use crate::unicode;
use vstd::prelude::*;

verus! {

// ---------------------------------------------------------------------------
// Paths
// ---------------------------------------------------------------------------

/// A path: absolute or relative, and its components from the top down.
#[derive(Debug, Clone, PartialEq, Eq, Hash)]
pub struct FilePath {
    pub absolute: bool,
    pub parts: Vec<String>,
}

/// The contents of a [`FilePath`].
#[verifier::ext_equal]
pub struct PathView {
    pub absolute: bool,
    pub parts: Seq<Seq<char>>,
}

impl DeepView for FilePath {
    type V = PathView;

    open spec fn deep_view(&self) -> PathView {
        PathView { absolute: self.absolute, parts: self.parts.deep_view() }
    }
}

impl Duplicate for FilePath {
    fn duplicate(&self) -> (r: Self) {
        FilePath { absolute: self.absolute, parts: self.parts.duplicate() }
    }
}

/// The components among the pieces of a text between slashes.
pub open spec fn components(pieces: Seq<Seq<char>>) -> Seq<Seq<char>>
    decreases pieces.len(),
{
    if pieces.len() == 0 {
        Seq::empty()
    } else {
        let rest = components(pieces.drop_last());
        let p = pieces.last();
        if p.len() == 0 || p == seq!['.'] {
            rest
        } else {
            rest.push(p)
        }
    }
}

/// The path that a text denotes.
pub open spec fn path_of(s: Seq<char>) -> PathView {
    PathView {
        absolute: s.len() > 0 && s[0] == '/',
        parts: components(text::split(s, CharClass::Is('/'))),
    }
}

impl PathView {
    /// The empty relative path.
    pub open spec fn empty() -> Self {
        PathView { absolute: false, parts: Seq::empty() }
    }

    /// The path as a text.
    pub open spec fn text(self) -> Seq<char> {
        let joined = text::join(self.parts, seq!['/']);
        if self.absolute {
            seq!['/'] + joined
        } else {
            joined
        }
    }

    /// The path with another put under it; the other itself where it is
    /// absolute.
    pub open spec fn join(self, other: PathView) -> PathView {
        if other.absolute {
            other
        } else {
            PathView { absolute: self.absolute, parts: self.parts + other.parts }
        }
    }

    /// The path of a component directly under this one.
    pub open spec fn child(self, name: Seq<char>) -> PathView {
        PathView { absolute: self.absolute, parts: self.parts.push(name) }
    }

    /// The path above, if there is one.
    pub open spec fn parent(self) -> Option<PathView> {
        if self.parts.len() == 0 {
            None
        } else {
            Some(PathView { absolute: self.absolute, parts: self.parts.drop_last() })
        }
    }

    /// The last component, unless it is `..`.
    pub open spec fn file_name(self) -> Option<Seq<char>> {
        if self.parts.len() == 0 || self.parts.last() == seq!['.', '.'] {
            None
        } else {
            Some(self.parts.last())
        }
    }

    /// Whether this is `base` or lies under it.
    pub open spec fn starts_with(self, base: PathView) -> bool {
        self.absolute == base.absolute && base.parts.len() <= self.parts.len() && self.parts.take(
            base.parts.len() as int,
        ) == base.parts
    }

    /// The path from `base` to this one.
    pub open spec fn strip_prefix(self, base: PathView) -> Option<PathView> {
        if self.starts_with(base) {
            Some(
                PathView { absolute: false, parts: self.parts.skip(base.parts.len() as int) },
            )
        } else {
            None
        }
    }

    /// How many components there are, the root counted as one.
    pub open spec fn depth(self) -> nat {
        self.parts.len() + if self.absolute {
            1nat
        } else {
            0nat
        }
    }

    /// The last component without its extension.
    pub open spec fn stem(self) -> Option<Seq<char>> {
        match self.file_name() {
            Some(n) => Some(name_stem(n)),
            None => None,
        }
    }

    /// The extension of the last component.
    pub open spec fn extension(self) -> Option<Seq<char>> {
        match self.file_name() {
            Some(n) => name_extension(n),
            None => None,
        }
    }
}

/// A name without its extension: a leading dot begins no extension.
pub open spec fn name_stem(name: Seq<char>) -> Seq<char> {
    let dot = text::last_where(name, CharClass::Is('.'), true);
    if dot > 0 {
        name.take(dot)
    } else {
        name
    }
}

/// The extension of a name.
pub open spec fn name_extension(name: Seq<char>) -> Option<Seq<char>> {
    let dot = text::last_where(name, CharClass::Is('.'), true);
    if dot > 0 {
        Some(name.skip(dot + 1))
    } else {
        None
    }
}

/// Takes the extension off a name.
pub fn stem_of_name(name: &str) -> (r: String)
    ensures
        r@ == name_stem(name@),
{
    let chars = text::to_chars(name);
    match text::rfind_char(&chars, '.') {
        Some(dot) => if dot > 0 {
            let head = text::slice_of(&chars, 0, dot);
            proof {
                assert(head@ =~= name@.take(dot as int));
            }
            text::to_text(&head)
        } else {
            name.to_string()
        },
        None => name.to_string(),
    }
}

/// Reads the extension of a name.
pub fn extension_of_name(name: &str) -> (r: Option<String>)
    ensures
        r.deep_view() == name_extension(name@),
{
    let chars = text::to_chars(name);
    match text::rfind_char(&chars, '.') {
        Some(dot) => if dot > 0 {
            let tail = text::slice_of(&chars, dot + 1, chars.len());
            proof {
                assert(tail@ =~= name@.skip(dot + 1));
            }
            Some(text::to_text(&tail))
        } else {
            None
        },
        None => None,
    }
}

/// Whether two lists of texts are the same.
pub fn same_parts(a: &Vec<String>, b: &Vec<String>) -> (r: bool)
    ensures
        r == (a.deep_view() == b.deep_view()),
{
    if a.len() != b.len() {
        proof {
            assert(a.deep_view().len() != b.deep_view().len());
        }
        return false;
    }
    let mut i: usize = 0;
    while i < a.len()
        invariant
            i <= a@.len(),
            a@.len() == b@.len(),
            forall|k: int| 0 <= k < i ==> a.deep_view()[k] == b.deep_view()[k],
        decreases a@.len() - i,
    {
        if a[i] != b[i] {
            proof {
                assert(a.deep_view()[i as int] != b.deep_view()[i as int]);
            }
            return false;
        }
        i = i + 1;
    }
    proof {
        assert(a.deep_view() =~= b.deep_view());
    }
    true
}

impl FilePath {
    /// The empty relative path.
    pub fn empty() -> (r: Self)
        ensures
            r.deep_view() == PathView::empty(),
    {
        let r = FilePath { absolute: false, parts: Vec::new() };
        proof {
            assert(r.parts.deep_view() =~= Seq::empty());
        }
        r
    }

    /// Reads a path.
    pub fn new(s: &str) -> (r: Self)
        ensures
            r.deep_view() == path_of(s@),
    {
        let chars = text::to_chars(s);
        let absolute = chars.len() > 0 && chars[0] == '/';
        let pieces = text::split_at_class(&chars, Class::Is('/'));
        let ghost v = text::texts(pieces@);
        let mut parts: Vec<String> = Vec::new();
        let mut i: usize = 0;
        proof {
            assert(parts.deep_view() =~= Seq::empty());
        }
        while i < pieces.len()
            invariant
                i <= pieces@.len(),
                v == text::texts(pieces@),
                parts.deep_view() == components(v.take(i as int)),
            decreases pieces@.len() - i,
        {
            let ghost before = parts.deep_view();
            proof {
                assert(v.take(i + 1).drop_last() =~= v.take(i as int));
                assert(v.take(i + 1).last() == pieces@[i as int]@);
            }
            let dot = pieces[i].len() == 1 && pieces[i][0] == '.';
            proof {
                if dot {
                    assert(pieces@[i as int]@ =~= seq!['.']);
                }
            }
            if pieces[i].len() > 0 && !dot {
                parts.push(text::to_text(&pieces[i]));
                proof {
                    assert(parts.deep_view() =~= before.push(pieces@[i as int]@));
                }
            }
            i = i + 1;
        }
        proof {
            assert(v.take(i as int) =~= v);
        }
        FilePath { absolute, parts }
    }

    /// The path as a text.
    pub fn to_text(&self) -> (r: String)
        ensures
            r@ == self.deep_view().text(),
    {
        let ghost v = self.parts.deep_view();
        let mut list: Vec<Vec<char>> = Vec::new();
        let mut i: usize = 0;
        while i < self.parts.len()
            invariant
                i <= self.parts@.len(),
                v == self.parts.deep_view(),
                text::texts(list@) == v.take(i as int),
            decreases self.parts@.len() - i,
        {
            let ghost before = text::texts(list@);
            list.push(text::to_chars(self.parts[i].as_str()));
            proof {
                assert(text::texts(list@) =~= before.push(v[i as int]));
                assert(v.take(i + 1) =~= v.take(i as int).push(v[i as int]));
            }
            i = i + 1;
        }
        proof {
            assert(v.take(i as int) =~= v);
        }
        let slash: Vec<char> = vec!['/'];
        proof {
            assert(slash@ =~= seq!['/']);
        }
        let joined = text::joined(&list, &slash);
        if self.absolute {
            let mut out = String::new();
            out.push('/');
            out.append(&text::to_text(&joined));
            proof {
                assert(out@ =~= seq!['/'] + joined@);
            }
            out
        } else {
            text::to_text(&joined)
        }
    }

    /// Puts another path under this one; an absolute one replaces it.
    pub fn join(&self, other: &FilePath) -> (r: Self)
        ensures
            r.deep_view() == self.deep_view().join(other.deep_view()),
    {
        if other.absolute {
            return other.duplicate();
        }
        let mut parts = self.parts.duplicate();
        let mut more = other.parts.duplicate();
        let ghost a = parts.deep_view();
        let ghost b = more.deep_view();
        parts.append(&mut more);
        proof {
            assert(parts.deep_view() =~= a + b);
        }
        FilePath { absolute: self.absolute, parts }
    }

    /// The path of a component directly under this one.
    pub fn child(&self, name: &str) -> (r: Self)
        ensures
            r.deep_view() == self.deep_view().child(name@),
    {
        let mut parts = self.parts.duplicate();
        let ghost a = parts.deep_view();
        parts.push(name.to_string());
        proof {
            assert(parts.deep_view() =~= a.push(name@));
        }
        FilePath { absolute: self.absolute, parts }
    }

    /// The path above, if there is one.
    pub fn parent(&self) -> (r: Option<Self>)
        ensures
            r.deep_view() == self.deep_view().parent(),
    {
        if self.parts.len() == 0 {
            return None;
        }
        let mut parts = self.parts.duplicate();
        let ghost a = parts.deep_view();
        let _ = parts.pop();
        proof {
            assert(parts.deep_view() =~= a.drop_last());
        }
        Some(FilePath { absolute: self.absolute, parts })
    }

    /// The last component, unless it is `..`.
    pub fn file_name(&self) -> (r: Option<&str>)
        ensures
            match r {
                Some(n) => self.deep_view().file_name() == Some(n@),
                None => self.deep_view().file_name() is None,
            },
    {
        if self.parts.len() == 0 {
            return None;
        }
        let last = self.parts[self.parts.len() - 1].as_str();
        proof {
            assert(self.deep_view().parts.last() == last@);
            reveal_strlit("..");
            assert(".."@ =~= seq!['.', '.']);
        }
        if text::same_text(last, "..") {
            None
        } else {
            Some(last)
        }
    }

    /// The last component without its extension.
    pub fn file_stem(&self) -> (r: Option<String>)
        ensures
            r.deep_view() == self.deep_view().stem(),
    {
        match self.file_name() {
            Some(n) => Some(stem_of_name(n)),
            None => None,
        }
    }

    /// The extension of the last component.
    pub fn extension(&self) -> (r: Option<String>)
        ensures
            r.deep_view() == self.deep_view().extension(),
    {
        match self.file_name() {
            Some(n) => extension_of_name(n),
            None => None,
        }
    }

    /// Whether this is the same path.
    pub fn same(&self, other: &FilePath) -> (r: bool)
        ensures
            r == (self.deep_view() == other.deep_view()),
    {
        self.absolute == other.absolute && same_parts(&self.parts, &other.parts)
    }

    /// Whether this is `base` or lies under it.
    pub fn starts_with(&self, base: &FilePath) -> (r: bool)
        ensures
            r == self.deep_view().starts_with(base.deep_view()),
    {
        self.strip_prefix(base).is_some()
    }

    /// The path from `base` to this one.
    pub fn strip_prefix(&self, base: &FilePath) -> (r: Option<Self>)
        ensures
            r.deep_view() == self.deep_view().strip_prefix(base.deep_view()),
    {
        if self.absolute != base.absolute || base.parts.len() > self.parts.len() {
            return None;
        }
        let ghost v = self.parts.deep_view();
        let ghost w = base.parts.deep_view();
        let mut i: usize = 0;
        while i < base.parts.len()
            invariant
                i <= base.parts@.len(),
                base.parts@.len() <= self.parts@.len(),
                v == self.parts.deep_view(),
                w == base.parts.deep_view(),
                forall|k: int| 0 <= k < i ==> v[k] == w[k],
            decreases base.parts@.len() - i,
        {
            if self.parts[i] != base.parts[i] {
                proof {
                    assert(v.take(w.len() as int)[i as int] != w[i as int]);
                }
                return None;
            }
            i = i + 1;
        }
        proof {
            assert(v.take(w.len() as int) =~= w);
        }
        let mut parts: Vec<String> = Vec::new();
        proof {
            assert(parts.deep_view() =~= v.skip(w.len() as int).take(0));
        }
        while i < self.parts.len()
            invariant
                base.parts@.len() <= i <= self.parts@.len(),
                v == self.parts.deep_view(),
                w == base.parts.deep_view(),
                w.len() == base.parts@.len(),
                parts.deep_view() == v.skip(w.len() as int).take(i - w.len()),
            decreases self.parts@.len() - i,
        {
            let ghost before = parts.deep_view();
            parts.push(self.parts[i].clone());
            proof {
                assert(parts.deep_view() =~= before.push(v[i as int]));
                assert(v.skip(w.len() as int).take(i + 1 - w.len()) =~= v.skip(
                    w.len() as int,
                ).take(i - w.len()).push(v[i as int]));
            }
            i = i + 1;
        }
        proof {
            assert(v.skip(w.len() as int).take(i - w.len()) =~= v.skip(w.len() as int));
        }
        Some(FilePath { absolute: false, parts })
    }

    /// How many components there are, the root counted as one.
    pub fn depth(&self) -> (r: u64)
        ensures
            r as nat == (if self.deep_view().depth() <= u64::MAX {
                self.deep_view().depth()
            } else {
                u64::MAX as nat
            }),
    {
        let n: u64 = self.parts.len() as u64;
        if self.absolute {
            if n == u64::MAX {
                n
            } else {
                n + 1
            }
        } else {
            n
        }
    }
}

/// What lies under a path, put together with it, is the path itself.
pub proof fn law_strip_prefix_undoes_join(base: PathView, rel: PathView)
    requires
        !rel.absolute,
    ensures
        base.join(rel).starts_with(base),
        base.join(rel).strip_prefix(base) == Some(rel),
{
    let j = base.join(rel);
    assert(j.parts.take(base.parts.len() as int) =~= base.parts);
    assert(j.parts.skip(base.parts.len() as int) =~= rel.parts);
}

/// The parent of a component under a path is the path, and its name is the
/// component.
pub proof fn law_child_parent(base: PathView, name: Seq<char>)
    requires
        name != seq!['.', '.'],
    ensures
        base.child(name).parent() == Some(base),
        base.child(name).file_name() == Some(name),
        base.child(name).starts_with(base),
{
    let c = base.child(name);
    assert(c.parts.drop_last() =~= base.parts);
    assert(c.parts.take(base.parts.len() as int) =~= base.parts);
}

// ---------------------------------------------------------------------------
// Names
// ---------------------------------------------------------------------------

/// The configurable character substitution map. `/` and `\` are not
/// configurable: they are always replaced by `-`.
#[derive(Debug, Clone, PartialEq, Eq)]
pub struct SanitiseMap(pub Vec<(char, String)>);

/// What a substitution map puts for a character: the first entry for it.
pub open spec fn lookup(map: Seq<(char, Seq<char>)>, c: char) -> Option<Seq<char>>
    decreases map.len(),
{
    if map.len() == 0 {
        None
    } else if map[0].0 == c {
        Some(map[0].1)
    } else {
        lookup(map.skip(1), c)
    }
}

impl DeepView for SanitiseMap {
    type V = Seq<(char, Seq<char>)>;

    open spec fn deep_view(&self) -> Seq<(char, Seq<char>)> {
        Seq::new(self.0@.len(), |i: int| (self.0@[i].0, self.0@[i].1@))
    }
}

/// The substitutions that are made unless others are configured.
pub open spec fn default_map() -> Seq<(char, Seq<char>)> {
    seq![
        (':', " -"@),
        ('?', ""@),
        ('<', ""@),
        ('>', ""@),
        ('"', "'"@),
        ('|', "-"@),
        ('*', ""@),
        ('/', "-"@),
        ('\\', "-"@),
    ]
}

impl Default for SanitiseMap {
    fn default() -> (r: Self)
        ensures
            r.deep_view() == default_map(),
    {
        let r = SanitiseMap(
            vec![
                (':', " -".to_string()),
                ('?', "".to_string()),
                ('<', "".to_string()),
                ('>', "".to_string()),
                ('"', "'".to_string()),
                ('|', "-".to_string()),
                ('*', "".to_string()),
                ('/', "-".to_string()),
                ('\\', "-".to_string()),
            ],
        );
        proof {
            assert(r.deep_view() =~= default_map());
        }
        r
    }
}

impl SanitiseMap {
    /// What the map puts for a character.
    pub fn get(&self, c: char) -> (r: Option<&str>)
        ensures
            match r {
                Some(s) => lookup(self.deep_view(), c) == Some(s@),
                None => lookup(self.deep_view(), c) is None,
            },
    {
        let ghost v = self.deep_view();
        let mut i: usize = 0;
        proof {
            assert(v.skip(0) =~= v);
        }
        while i < self.0.len()
            invariant
                i <= self.0@.len(),
                v == self.deep_view(),
                lookup(v, c) == lookup(v.skip(i as int), c),
            decreases self.0@.len() - i,
        {
            proof {
                assert(v.skip(i as int)[0] == v[i as int]);
                assert(v.skip(i as int).skip(1) =~= v.skip(i + 1));
            }
            if self.0[i].0 == c {
                return Some(self.0[i].1.as_str());
            }
            i = i + 1;
        }
        proof {
            assert(v.skip(i as int) =~= Seq::empty());
        }
        None
    }
}

/// What stands for one character in a name: nothing for a control character,
/// a dash for a slash or backslash, else what the map says.
pub open spec fn substitute(map: Seq<(char, Seq<char>)>, c: char) -> Seq<char> {
    if (c as u32) < 0x20 {
        Seq::empty()
    } else if c == '/' || c == '\\' {
        seq!['-']
    } else {
        match lookup(map, c) {
            Some(s) => s,
            None => seq![c],
        }
    }
}

/// A name with every character substituted.
pub open spec fn substituted(map: Seq<(char, Seq<char>)>, s: Seq<char>) -> Seq<char>
    decreases s.len(),
{
    if s.len() == 0 {
        Seq::empty()
    } else {
        substituted(map, s.drop_last()) + substitute(map, s.last())
    }
}

/// Substitutes the characters of a name.
fn substitute_all(map: &SanitiseMap, s: &Vec<char>) -> (r: Vec<char>)
    ensures
        r@ == substituted(map.deep_view(), s@),
{
    let mut out: Vec<char> = Vec::new();
    let mut i: usize = 0;
    while i < s.len()
        invariant
            i <= s@.len(),
            out@ == substituted(map.deep_view(), s@.take(i as int)),
        decreases s@.len() - i,
    {
        let c = s[i];
        let ghost before = out@;
        proof {
            assert(s@.take(i + 1).drop_last() =~= s@.take(i as int));
            assert(s@.take(i + 1).last() == c);
        }
        if (c as u32) < 0x20 {
            proof {
                assert(before + Seq::<char>::empty() =~= before);
            }
        } else if c == '/' || c == '\\' {
            out.push('-');
            proof {
                assert(out@ =~= before + seq!['-']);
            }
        } else if let Some(repl) = map.get(c) {
            text::push_chars(&mut out, &text::to_chars(repl));
        } else {
            out.push(c);
            proof {
                assert(out@ =~= before + seq![c]);
            }
        }
        i = i + 1;
    }
    proof {
        assert(s@.take(i as int) =~= s@);
    }
    out
}

/// A text with every run of whitespace made one space.
pub open spec fn squeezed(s: Seq<char>) -> Seq<char>
    decreases s.len(),
{
    if s.len() == 0 {
        Seq::empty()
    } else {
        let rest = squeezed(s.drop_last());
        if !unicode::char_is_whitespace(s.last()) {
            rest.push(s.last())
        } else if s.len() > 1 && unicode::char_is_whitespace(s[s.len() - 2]) {
            rest
        } else {
            rest.push(' ')
        }
    }
}

/// Makes every run of whitespace one space.
fn squeeze(s: &Vec<char>) -> (r: Vec<char>)
    ensures
        r@ == squeezed(s@),
{
    let mut out: Vec<char> = Vec::new();
    let mut i: usize = 0;
    let mut prev_space = false;
    while i < s.len()
        invariant
            i <= s@.len(),
            prev_space == (i > 0 && unicode::char_is_whitespace(s@[i - 1])),
            out@ == squeezed(s@.take(i as int)),
        decreases s@.len() - i,
    {
        proof {
            assert(s@.take(i + 1).drop_last() =~= s@.take(i as int));
        }
        if unicode::is_whitespace(s[i]) {
            if !prev_space {
                out.push(' ');
                prev_space = true;
            }
        } else {
            out.push(s[i]);
            prev_space = false;
        }
        i = i + 1;
    }
    proof {
        assert(s@.take(i as int) =~= s@);
    }
    out
}

/// What stands before the first dot of a name.
pub open spec fn device_stem(name: Seq<char>) -> Seq<char> {
    name.take(text::first_where(name, CharClass::Is('.'), true))
}

/// Whether a lowercase stem is reserved.
pub open spec fn is_device(s: Seq<char>) -> bool {
    ||| s == "con"@
    ||| s == "prn"@
    ||| s == "aux"@
    ||| s == "nul"@
    ||| s == "conin$"@
    ||| s == "conout$"@
    ||| s == "clock$"@
    ||| (s.len() == 4 && (s.take(3) == "com"@ || s.take(3) == "lpt"@) && text::is_digit(s[3]))
}

/// Whether a name is reserved for a device: what stands before its first dot,
/// whatever its case.
pub open spec fn is_reserved(name: Seq<char>) -> bool {
    is_device(text::ascii_lowercase(device_stem(name)))
}

/// Tests for the reserved Windows device names.
pub fn is_reserved_device_name(name: &str) -> (r: bool)
    ensures
        r == is_reserved(name@),
{
    is_reserved_name(&text::to_chars(name))
}

/// Tests for the reserved Windows device names.
fn is_reserved_name(name: &Vec<char>) -> (r: bool)
    ensures
        r == is_reserved(name@),
{
    let n: usize = text::find_first(name, Class::Is('.'), true);
    let stem = text::slice_of(name, 0, n);
    proof {
        assert(stem@ =~= device_stem(name@));
    }
    let lower = text::lowered(&stem);
    let s = text::to_text(&lower);
    if text::same_text(&s, "con") || text::same_text(&s, "prn") || text::same_text(&s, "aux")
        || text::same_text(&s, "nul") || text::same_text(&s, "conin$") || text::same_text(
        &s,
        "conout$",
    ) || text::same_text(&s, "clock$") {
        return true;
    }
    if lower.len() == 4 {
        let head = text::slice_of(&lower, 0, 3);
        proof {
            assert(head@ =~= lower@.take(3));
        }
        let head_text = text::to_text(&head);
        return (text::same_text(&head_text, "com") || text::same_text(&head_text, "lpt"))
            && '0' <= lower[3] && lower[3] <= '9';
    }
    false
}

/// A name with `_` put right after its reserved stem.
pub open spec fn with_reserved_suffix(name: Seq<char>) -> Seq<char> {
    let cut = text::first_where(name, CharClass::Is('.'), true);
    name.take(cut) + seq!['_'] + name.skip(cut)
}

/// A name that is not reserved.
pub open spec fn unreserved(name: Seq<char>) -> Seq<char> {
    if is_reserved(name) {
        with_reserved_suffix(name)
    } else {
        name
    }
}

/// Puts `_` right after a reserved stem: `CON.mkv` becomes `CON_.mkv`.
fn unreserve(name: Vec<char>) -> (r: Vec<char>)
    ensures
        r@ == unreserved(name@),
{
    if !is_reserved_name(&name) {
        return name;
    }
    let cut: usize = text::find_first(&name, Class::Is('.'), true);
    let mut out = text::slice_of(&name, 0, cut);
    out.push('_');
    let tail = text::slice_of(&name, cut, name.len());
    text::push_chars(&mut out, &tail);
    proof {
        assert(out@ =~= with_reserved_suffix(name@));
    }
    out
}

/// A dot and a space.
pub open spec fn dot_or_space() -> CharClass {
    CharClass::In(seq!['.', ' '])
}

/// A name brought within a length limit.
pub open spec fn shortened(name: Seq<char>, limit: ComponentLimit) -> Seq<char> {
    if limit.admits(name) {
        name
    } else {
        unreserved(text::trim_end(limit.cut(name), dot_or_space()))
    }
}

/// A name made safe: composed, substituted, whitespace collapsed, no dots or
/// spaces at its start or end, no reserved stem, within the limit but for the
/// mark behind a reserved stem.
pub open spec fn safe_name(
    name: Seq<char>,
    map: Seq<(char, Seq<char>)>,
    limit: ComponentLimit,
) -> Seq<char> {
    let clean = squeezed(substituted(map, unicode::nfc(name)));
    let bare = text::trim_start(text::trim_end(clean, dot_or_space()), CharClass::Is(' '));
    unreserved(text::trim(shortened(unreserved(bare), limit), dot_or_space()))
}

/// Whether a name can stand as a component everywhere: there is something of it,
/// it neither begins nor ends with a dot or a space, and it is not reserved.
pub open spec fn is_proper(name: Seq<char>) -> bool {
    &&& name.len() > 0
    &&& !dot_or_space().holds(name[0])
    &&& !dot_or_space().holds(name.last())
    &&& !is_reserved(name)
}

/// Sanitise a single path component (no slashes).
///
/// Returns `None` if the result is empty: an empty name needs review, and is
/// never given a fallback.
pub fn sanitise_component(name: &str, map: &SanitiseMap, limit: ComponentLimit) -> (r: Option<
    String,
>)
    ensures
        r.deep_view() == (if safe_name(name@, map.deep_view(), limit).len() == 0 {
            None
        } else {
            Some(safe_name(name@, map.deep_view(), limit))
        }),
        // The name stays one component: it holds no path separator, as long
        // as no configured substitution brings one in.
        (forall|i: int| 0 <= i < map.deep_view().len() ==> no_separator(
            (#[trigger] map.deep_view()[i]).1,
        )) ==> (r matches Some(n) ==> no_separator(n@)),
        // Nor does it hold a control character, on the same terms.
        (forall|i: int| 0 <= i < map.deep_view().len() ==> no_control(
            (#[trigger] map.deep_view()[i]).1,
        )) ==> (r matches Some(n) ==> no_control(n@)),
        r matches Some(n) ==> is_proper(n@),
{
    let ends: Vec<char> = vec!['.', ' '];
    proof {
        assert(ends@ =~= seq!['.', ' ']);
    }
    let composed = text::to_chars(&unicode::to_nfc(name));
    let clean = squeeze(&substitute_all(map, &composed));
    let tail = text::trimmed_end(&clean, Class::In(&ends));
    let bare = text::trimmed_start(&tail, Class::Is(' '));
    let named = unreserve(bare);
    let named_text = text::to_text(&named);
    let ghost named_view = named@;
    let short = if limit.fits(&named_text) {
        named
    } else {
        let cut = text::to_chars(&limit.truncate(&named_text));
        unreserve(text::trimmed_end(&cut, Class::In(&ends)))
    };
    let ghost short_view = short@;
    let done = unreserve(text::trimmed(&short, Class::In(&ends)));
    proof {
        let m = map.deep_view();
        if forall|i: int| 0 <= i < m.len() ==> no_separator((#[trigger] m[i]).1) {
            lemma_safe_name_is_clear(name@, m, limit, named_view, false);
        }
        if forall|i: int| 0 <= i < m.len() ==> no_control((#[trigger] m[i]).1) {
            lemma_safe_name_is_clear(name@, m, limit, named_view, true);
        }
        lemma_proper_when_trimmed(short_view);
    }
    if done.len() == 0 {
        None
    } else {
        Some(text::to_text(&done))
    }
}

/// A destination path from sanitised components.
pub open spec fn joined_under(root: PathView, parts: Seq<Seq<char>>) -> PathView
    decreases parts.len(),
{
    if parts.len() == 0 {
        root
    } else {
        joined_under(root, parts.drop_last()).join(path_of(parts.last()))
    }
}

/// Build a destination path from sanitised components.
pub fn join_components(root: &FilePath, parts: &[String]) -> (r: FilePath)
    ensures
        r.deep_view() == joined_under(root.deep_view(), parts.deep_view()),
{
    let ghost v = parts.deep_view();
    let mut p = root.duplicate();
    let mut i: usize = 0;
    while i < parts.len()
        invariant
            i <= parts@.len(),
            v == parts.deep_view(),
            p.deep_view() == joined_under(root.deep_view(), v.take(i as int)),
        decreases parts@.len() - i,
    {
        proof {
            assert(v.take(i + 1).drop_last() =~= v.take(i as int));
            assert(v.take(i + 1).last() == parts@[i as int]@);
        }
        p = p.join(&FilePath::new(parts[i].as_str()));
        i = i + 1;
    }
    proof {
        assert(v.take(i as int) =~= v);
    }
    p
}

/// The components of a path with `..` taken back; nothing where there is
/// nothing left to take back.
pub open spec fn resolved(parts: Seq<Seq<char>>) -> Option<Seq<Seq<char>>>
    decreases parts.len(),
{
    if parts.len() == 0 {
        Some(Seq::empty())
    } else {
        match resolved(parts.drop_last()) {
            Some(rest) => if parts.last() == ".."@ {
                if rest.len() == 0 {
                    None
                } else {
                    Some(rest.drop_last())
                }
            } else {
                Some(rest.push(parts.last()))
            },
            None => None,
        }
    }
}

/// Normalise a relative path: drop `.` components, collapse `..` lexically
/// (without touching the fs). Returns `None` if the path escapes root.
pub fn normalise_relative(rel: &FilePath) -> (r: Option<FilePath>)
    ensures
        r.deep_view() == (if rel.deep_view().absolute {
            None
        } else {
            match resolved(rel.deep_view().parts) {
                Some(parts) => Some(PathView { absolute: false, parts }),
                None => None,
            }
        }),
{
    if rel.absolute {
        return None;
    }
    let ghost v = rel.parts.deep_view();
    let mut parts: Vec<String> = Vec::new();
    let mut i: usize = 0;
    proof {
        assert(parts.deep_view() =~= Seq::empty());
    }
    while i < rel.parts.len()
        invariant
            i <= rel.parts@.len(),
            !rel.absolute,
            v == rel.parts.deep_view(),
            resolved(v.take(i as int)) == Some(parts.deep_view()),
        decreases rel.parts@.len() - i,
    {
        let ghost before = parts.deep_view();
        proof {
            assert(v.take(i + 1).drop_last() =~= v.take(i as int));
            assert(v.take(i + 1).last() == rel.parts@[i as int]@);
        }
        if text::same_text(rel.parts[i].as_str(), "..") {
            if parts.len() == 0 {
                proof {
                    assert(resolved(v.take(i + 1)) is None);
                    lemma_escape_stays(v, i + 1);
                }
                return None;
            }
            let _ = parts.pop();
            proof {
                assert(parts.deep_view() =~= before.drop_last());
            }
        } else {
            parts.push(rel.parts[i].clone());
            proof {
                assert(parts.deep_view() =~= before.push(rel.parts@[i as int]@));
            }
        }
        i = i + 1;
    }
    proof {
        assert(v.take(i as int) =~= v);
    }
    Some(FilePath { absolute: false, parts })
}

/// A path that has escaped does not come back.
proof fn lemma_escape_stays(parts: Seq<Seq<char>>, i: int)
    requires
        0 <= i <= parts.len(),
        resolved(parts.take(i)) is None,
    ensures
        resolved(parts) is None,
    decreases parts.len() - i,
{
    if i == parts.len() {
        assert(parts.take(i) =~= parts);
    } else {
        assert(parts.take(i + 1).drop_last() =~= parts.take(i));
        lemma_escape_stays(parts, i + 1);
    }
}

/// A normalised path holds no `..`.
pub proof fn law_normalised_has_no_parent_dir(parts: Seq<Seq<char>>)
    ensures
        resolved(parts) matches Some(out) ==> forall|i: int|
            0 <= i < out.len() ==> #[trigger] out[i] != ".."@,
    decreases parts.len(),
{
    if parts.len() > 0 {
        law_normalised_has_no_parent_dir(parts.drop_last());
    }
}

/// Whether a text holds neither a slash nor a backslash.
pub open spec fn no_separator(s: Seq<char>) -> bool {
    forall|i: int| 0 <= i < s.len() ==> #[trigger] s[i] != '/' && s[i] != '\\'
}

/// Whether a text holds no control character.
pub open spec fn no_control(s: Seq<char>) -> bool {
    forall|i: int| 0 <= i < s.len() ==> (#[trigger] s[i]) as u32 >= 0x20
}

/// Whether a text holds no control character, or else no separator.
spec fn is_clear(s: Seq<char>, controls: bool) -> bool {
    if controls {
        no_control(s)
    } else {
        no_separator(s)
    }
}

/// Substitution leaves none of either.
proof fn lemma_substituted_is_clear(map: Seq<(char, Seq<char>)>, s: Seq<char>, controls: bool)
    requires
        forall|i: int| 0 <= i < map.len() ==> is_clear((#[trigger] map[i]).1, controls),
    ensures
        is_clear(substituted(map, s), controls),
    decreases s.len(),
{
    if s.len() > 0 {
        lemma_substituted_is_clear(map, s.drop_last(), controls);
        lemma_lookup_is_clear(map, s.last(), controls);
    }
}

/// What a map puts for a character is one of its entries.
proof fn lemma_lookup_is_clear(map: Seq<(char, Seq<char>)>, c: char, controls: bool)
    requires
        forall|i: int| 0 <= i < map.len() ==> is_clear((#[trigger] map[i]).1, controls),
    ensures
        lookup(map, c) matches Some(s) ==> is_clear(s, controls),
    decreases map.len(),
{
    if map.len() > 0 && map[0].0 != c {
        assert forall|i: int| 0 <= i < map.skip(1).len() implies is_clear(
            (#[trigger] map.skip(1)[i]).1,
            controls,
        ) by {
            assert(map.skip(1)[i] == map[i + 1]);
        }
        lemma_lookup_is_clear(map.skip(1), c, controls);
    }
}

/// Squeezing whitespace adds none of either.
proof fn lemma_squeezed_is_clear(s: Seq<char>, controls: bool)
    requires
        is_clear(s, controls),
    ensures
        is_clear(squeezed(s), controls),
    decreases s.len(),
{
    if s.len() > 0 {
        let rest = s.drop_last();
        assert forall|i: int| 0 <= i < rest.len() implies #[trigger] rest[i] == s[i] by {}
        lemma_squeezed_is_clear(rest, controls);
        assert(s[s.len() - 1] == s.last());
    }
}

/// Trimming and the reserved suffix add none of either.
proof fn lemma_parts_are_clear(s: Seq<char>, k: CharClass, controls: bool)
    requires
        is_clear(s, controls),
    ensures
        is_clear(text::trim_end(s, k), controls),
        is_clear(text::trim_start(s, k), controls),
        is_clear(text::trim(s, k), controls),
        is_clear(unreserved(s), controls),
{
    text::lemma_last_where(s, k, false);
    text::lemma_first_where(s, k, false);
    text::lemma_first_where(s, CharClass::Is('.'), true);
    let t = text::trim_start(s, k);
    assert(is_clear(t, controls));
    text::lemma_last_where(t, k, false);
}

/// A sanitised name holds no path separator and no control character, as long
/// as no configured substitution brings one in and a cut name is a beginning of
/// the name.
proof fn lemma_safe_name_is_clear(
    name: Seq<char>,
    map: Seq<(char, Seq<char>)>,
    limit: ComponentLimit,
    named: Seq<char>,
    controls: bool,
)
    requires
        forall|i: int| 0 <= i < map.len() ==> is_clear((#[trigger] map[i]).1, controls),
        named == unreserved(
            text::trim_start(
                text::trim_end(squeezed(substituted(map, unicode::nfc(name))), dot_or_space()),
                CharClass::Is(' '),
            ),
        ),
        !limit.admits(named) ==> limit.cut(named).is_prefix_of(named),
    ensures
        is_clear(safe_name(name, map, limit), controls),
{
    let sub = substituted(map, unicode::nfc(name));
    lemma_substituted_is_clear(map, unicode::nfc(name), controls);
    lemma_squeezed_is_clear(sub, controls);
    let clean = squeezed(sub);
    lemma_parts_are_clear(clean, dot_or_space(), controls);
    let a = text::trim_end(clean, dot_or_space());
    lemma_parts_are_clear(a, CharClass::Is(' '), controls);
    let bare = text::trim_start(a, CharClass::Is(' '));
    lemma_parts_are_clear(bare, dot_or_space(), controls);
    if !limit.admits(named) {
        let cut = limit.cut(named);
        assert forall|i: int| 0 <= i < cut.len() implies #[trigger] cut[i] == named[i] by {}
        lemma_parts_are_clear(cut, dot_or_space(), controls);
        lemma_parts_are_clear(text::trim_end(cut, dot_or_space()), dot_or_space(), controls);
    }
    let short = shortened(named, limit);
    lemma_parts_are_clear(short, dot_or_space(), controls);
    lemma_parts_are_clear(text::trim(short, dot_or_space()), dot_or_space(), controls);
}

/// A name with `_` put right after its reserved stem is not reserved.
proof fn lemma_suffixed_is_not_reserved(name: Seq<char>)
    requires
        is_reserved(name),
    ensures
        !is_reserved(with_reserved_suffix(name)),
        0 < text::first_where(name, CharClass::Is('.'), true) <= name.len(),
{
    let dot = CharClass::Is('.');
    let cut = text::first_where(name, dot, true);
    let out = with_reserved_suffix(name);
    let end = text::first_where(out, dot, true);
    text::lemma_first_where(name, dot, true);
    text::lemma_first_where(out, dot, true);
    assert forall|i: int| 0 <= i <= cut implies !dot.holds(#[trigger] out[i]) by {
        if i < cut {
            assert(out[i] == name[i]);
        }
    }
    if cut < name.len() {
        assert(out[cut + 1] == name[cut]);
    }
    assert(end == cut + 1);
    let stem = text::ascii_lowercase(device_stem(out));
    assert(device_stem(out)[cut] == '_');
    assert(stem.len() == cut + 1 && stem[cut] == '_');
    reveal_strlit("con");
    reveal_strlit("prn");
    reveal_strlit("aux");
    reveal_strlit("nul");
    reveal_strlit("conin$");
    reveal_strlit("conout$");
    reveal_strlit("clock$");
    assert(stem.last() == '_');
    let before = text::ascii_lowercase(device_stem(name));
    assert(before.len() == cut);
}

/// What is trimmed and not reserved is proper, if anything is left.
proof fn lemma_proper_when_trimmed(s: Seq<char>)
    ensures
        ({
            let n = unreserved(text::trim(s, dot_or_space()));
            n.len() > 0 ==> is_proper(n)
        }),
{
    let k = dot_or_space();
    let a = text::trim_start(s, k);
    let x = text::trim(s, k);
    text::lemma_first_where(s, k, false);
    text::lemma_last_where(a, k, false);
    if a.len() > 0 {
        assert(a[0] == s[text::first_where(s, k, false)]);
    }
    if x.len() > 0 {
        assert(x[0] == a[0]);
        assert(x.last() == a[x.len() - 1]);
    }
    if is_reserved(x) {
        lemma_suffixed_is_not_reserved(x);
        let cut = text::first_where(x, CharClass::Is('.'), true);
        let n = with_reserved_suffix(x);
        assert(n[0] == x[0]);
        assert(n.last() == if cut < x.len() {
            x.last()
        } else {
            '_'
        });
        assert(!k.holds('_'));
    }
}

/// What is put for characters by default holds no separator and no control
/// character.
pub proof fn lemma_default_map_is_clear()
    ensures
        forall|i: int|
            0 <= i < default_map().len() ==> no_separator((#[trigger] default_map()[i]).1)
                && no_control(default_map()[i].1),
{
    reveal_strlit("");
    reveal_strlit("-");
    reveal_strlit("'");
    reveal_strlit(" -");
}

/// A name is its stem, and where it has an extension a dot and the extension
/// behind it, in which there is no dot. A name without a dot but at its front
/// has no extension.
pub proof fn law_name_is_stem_and_extension(name: Seq<char>)
    ensures
        name_extension(name) matches Some(e) ==> name == name_stem(name) + seq!['.'] + e
            && !e.contains('.') && name_stem(name).len() > 0,
        name_extension(name) is None ==> name_stem(name) == name && forall|i: int|
            0 < i < name.len() ==> #[trigger] name[i] != '.',
{
    let k = CharClass::Is('.');
    text::lemma_last_where(name, k, true);
    let dot = text::last_where(name, k, true);
    if let Some(e) = name_extension(name) {
        assert(name[dot] == '.');
        assert(name =~= name_stem(name) + seq!['.'] + e);
        if e.contains('.') {
            let i = choose|i: int| 0 <= i < e.len() && e[i] == '.';
            assert(name[dot + 1 + i] == '.');
        }
    }
}

/// A stem with a dot and an extension behind it has that extension and that
/// stem.
pub proof fn law_extension_is_read_back(stem: Seq<char>, ext: Seq<char>)
    requires
        stem.len() > 0,
        !ext.contains('.'),
    ensures
        name_extension(stem + seq!['.'] + ext) == Some(ext),
        name_stem(stem + seq!['.'] + ext) == stem,
{
    let name = stem + seq!['.'] + ext;
    let k = CharClass::Is('.');
    let n = stem.len() as int;
    text::lemma_last_where(name, k, true);
    let dot = text::last_where(name, k, true);
    assert(name[n] == '.');
    if dot > n {
        assert(name[dot] == ext[dot - n - 1]);
    }
    assert(name.take(n) =~= stem);
    assert(name.skip(n + 1) =~= ext);
}

} // verus!
