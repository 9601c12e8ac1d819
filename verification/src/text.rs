//! Character-level text operations.
//!
//! Texts are modelled as sequences of characters. The executable functions
//! work on character slices and convert to and from `str` at the edges.

use crate::unicode;
use vstd::prelude::*;
use vstd::utf8::{encode_scalar, encode_utf8};

verus! {

/// A set of characters, as a specification sees it.
pub enum CharClass {
    Is(char),
    In(Seq<char>),
    Space,
}

impl CharClass {
    /// Whether a character belongs to the class.
    pub open spec fn holds(self, c: char) -> bool {
        match self {
            CharClass::Is(d) => c == d,
            CharClass::In(set) => set.contains(c),
            CharClass::Space => unicode::char_is_whitespace(c),
        }
    }
}

/// A set of characters that code can test against.
#[derive(Clone, Copy)]
pub enum Class<'a> {
    Is(char),
    In(&'a [char]),
    Space,
}

impl<'a> DeepView for Class<'a> {
    type V = CharClass;

    open spec fn deep_view(&self) -> CharClass {
        match *self {
            Class::Is(d) => CharClass::Is(d),
            Class::In(set) => CharClass::In(set@),
            Class::Space => CharClass::Space,
        }
    }
}

impl<'a> Class<'a> {
    /// Tests one character.
    pub fn test(&self, c: char) -> (r: bool)
        ensures
            r == self.deep_view().holds(c),
    {
        match self {
            Class::Is(d) => c == *d,
            Class::In(set) => contains_char(set, c),
            Class::Space => unicode::is_whitespace(c),
        }
    }
}

/// Whether a slice holds a character.
pub fn contains_char(s: &[char], c: char) -> (r: bool)
    ensures
        r == s@.contains(c),
{
    let mut i: usize = 0;
    while i < s.len()
        invariant
            i <= s@.len(),
            forall|k: int| 0 <= k < i ==> s@[k] != c,
        decreases s@.len() - i,
    {
        if s[i] == c {
            return true;
        }
        i = i + 1;
    }
    false
}

/// The texts held by a list of character vectors.
pub open spec fn texts(v: Seq<Vec<char>>) -> Seq<Seq<char>> {
    Seq::new(v.len(), |i: int| v[i]@)
}

// ---------------------------------------------------------------------------
// Conversion
// ---------------------------------------------------------------------------

/// The characters of a string.
pub fn to_chars(s: &str) -> (r: Vec<char>)
    ensures
        r@ == s@,
{
    let mut out: Vec<char> = Vec::new();
    for c in it: s.chars()
        invariant
            out@ == it.seq().take(it.index() as int),
            it.seq() == s@,
    {
        out.push(c);
    }
    out
}

/// The string made of the given characters.
pub fn to_text(v: &[char]) -> (r: String)
    ensures
        r@ == v@,
{
    let mut out = String::new();
    let mut i: usize = 0;
    while i < v.len()
        invariant
            i <= v@.len(),
            out@ == v@.take(i as int),
        decreases v@.len() - i,
    {
        out.push(v[i]);
        i = i + 1;
    }
    out
}

/// The characters from `from` up to, not including, `to`.
pub fn slice_of(v: &[char], from: usize, to: usize) -> (r: Vec<char>)
    requires
        from <= to <= v@.len(),
    ensures
        r@ == v@.subrange(from as int, to as int),
{
    let mut out: Vec<char> = Vec::new();
    let mut i: usize = from;
    while i < to
        invariant
            from <= i <= to <= v@.len(),
            out@ == v@.subrange(from as int, i as int),
        decreases to - i,
    {
        out.push(v[i]);
        i = i + 1;
    }
    out
}

/// Appends every character of `s`.
pub fn push_chars(out: &mut Vec<char>, s: &[char])
    ensures
        final(out)@ == old(out)@ + s@,
{
    let mut i: usize = 0;
    while i < s.len()
        invariant
            i <= s@.len(),
            out@ == old(out)@ + s@.take(i as int),
        decreases s@.len() - i,
    {
        out.push(s[i]);
        i = i + 1;
    }
}

/// Whether two character slices are the same.
pub fn same_chars(a: &[char], b: &[char]) -> (r: bool)
    ensures
        r == (a@ == b@),
{
    if a.len() != b.len() {
        return false;
    }
    let mut i: usize = 0;
    while i < a.len()
        invariant
            i <= a@.len(),
            a@.len() == b@.len(),
            a@.take(i as int) == b@.take(i as int),
        decreases a@.len() - i,
    {
        if a[i] != b[i] {
            proof {
                assert(a@[i as int] != b@[i as int]);
            }
            return false;
        }
        proof {
            assert(a@.take(i + 1) =~= a@.take(i as int).push(a@[i as int]));
            assert(b@.take(i + 1) =~= b@.take(i as int).push(b@[i as int]));
        }
        i = i + 1;
    }
    proof {
        assert(a@.take(i as int) =~= a@);
        assert(b@.take(i as int) =~= b@);
    }
    true
}

/// Whether two strings are the same.
pub fn same_text(a: &str, b: &str) -> (r: bool)
    ensures
        r == (a@ == b@),
{
    let x = to_chars(a);
    let y = to_chars(b);
    same_chars(&x, &y)
}

// ---------------------------------------------------------------------------
// Lengths
// ---------------------------------------------------------------------------

/// How many bytes a character takes in UTF-8.
pub open spec fn char_width(c: char) -> nat {
    if (c as u32) < 0x80 {
        1
    } else if (c as u32) < 0x800 {
        2
    } else if (c as u32) < 0x10000 {
        3
    } else {
        4
    }
}

/// How many bytes a text takes in UTF-8.
pub open spec fn utf8_len(s: Seq<char>) -> nat
    decreases s.len(),
{
    if s.len() == 0 {
        0
    } else {
        char_width(s[0]) + utf8_len(s.skip(1))
    }
}

/// The length of a text put together from two is the sum of theirs.
pub proof fn lemma_utf8_len_concat(a: Seq<char>, b: Seq<char>)
    ensures
        utf8_len(a + b) == utf8_len(a) + utf8_len(b),
    decreases a.len(),
{
    if a.len() == 0 {
        assert(a + b =~= b);
    } else {
        assert((a + b).skip(1) =~= a.skip(1) + b);
        lemma_utf8_len_concat(a.skip(1), b);
    }
}

/// The length of a part of a text is at most that of the whole.
pub proof fn lemma_utf8_len_prefix(s: Seq<char>, i: int)
    requires
        0 <= i <= s.len(),
    ensures
        utf8_len(s.take(i)) + utf8_len(s.skip(i)) == utf8_len(s),
{
    lemma_utf8_len_concat(s.take(i), s.skip(i));
    assert(s.take(i) + s.skip(i) =~= s);
}

/// A text has at least as many bytes as characters.
pub proof fn lemma_utf8_len_at_least(s: Seq<char>)
    ensures
        s.len() <= utf8_len(s) <= 4 * s.len(),
    decreases s.len(),
{
    if s.len() > 0 {
        lemma_utf8_len_at_least(s.skip(1));
    }
}

/// The bytes of a string are those that its characters encode to.
pub proof fn lemma_utf8_len_is_encoding(s: Seq<char>)
    ensures
        utf8_len(s) == encode_utf8(s).len(),
    decreases s.len(),
{
    if s.len() > 0 {
        lemma_utf8_len_is_encoding(s.skip(1));
        assert(s.skip(1) =~= s.drop_first());
        assert(char_width(s[0]) == encode_scalar(s[0] as u32).len()) by {
            vstd::utf8::char_is_scalar(s[0]);
        }
    }
}

/// The length of a string in bytes.
pub fn byte_len(s: &str) -> (r: usize)
    ensures
        r as nat == utf8_len(s@),
{
    proof {
        lemma_utf8_len_is_encoding(s@);
    }
    s.as_bytes().len()
}

/// How many bytes one character takes.
pub fn width_of(c: char) -> (r: usize)
    ensures
        r as nat == char_width(c),
{
    let n: u32 = c as u32;
    if n < 0x80 {
        1
    } else if n < 0x800 {
        2
    } else if n < 0x10000 {
        3
    } else {
        4
    }
}

/// How many UTF-16 code units a text takes.
pub open spec fn utf16_len(s: Seq<char>) -> nat
    decreases s.len(),
{
    if s.len() == 0 {
        0
    } else {
        (if (s[0] as u32) < 0x10000 {
            1nat
        } else {
            2nat
        }) + utf16_len(s.skip(1))
    }
}

/// The length of a text put together from two is the sum of theirs.
pub proof fn lemma_utf16_len_concat(a: Seq<char>, b: Seq<char>)
    ensures
        utf16_len(a + b) == utf16_len(a) + utf16_len(b),
    decreases a.len(),
{
    if a.len() == 0 {
        assert(a + b =~= b);
    } else {
        assert((a + b).skip(1) =~= a.skip(1) + b);
        lemma_utf16_len_concat(a.skip(1), b);
    }
}

/// A text takes no more UTF-16 code units than bytes.
pub proof fn lemma_utf16_at_most_utf8(s: Seq<char>)
    ensures
        utf16_len(s) <= utf8_len(s),
    decreases s.len(),
{
    if s.len() > 0 {
        lemma_utf16_at_most_utf8(s.skip(1));
    }
}

/// The length of a string in UTF-16 code units.
pub fn units_of(s: &str) -> (r: usize)
    ensures
        r as nat == utf16_len(s@),
{
    let chars = to_chars(s);
    let total: usize = byte_len(s);
    let mut n: usize = 0;
    let mut i: usize = 0;
    proof {
        assert(s@.take(0) =~= Seq::empty());
    }
    while i < chars.len()
        invariant
            i <= chars@.len(),
            chars@ == s@,
            total as nat == utf8_len(s@),
            n as nat == utf16_len(s@.take(i as int)),
        decreases chars@.len() - i,
    {
        let w: usize = if (chars[i] as u32) < 0x10000 {
            1
        } else {
            2
        };
        proof {
            let one = seq![s@[i as int]];
            assert(s@.take(i + 1) =~= s@.take(i as int) + one);
            lemma_utf16_len_concat(s@.take(i as int), one);
            assert(one.skip(1) =~= Seq::empty());
            assert(utf16_len(one.skip(1)) == 0);
            assert(utf16_len(one) == w);
            lemma_utf16_at_most_utf8(s@.take(i + 1));
            lemma_utf8_len_prefix(s@, i + 1);
        }
        n = n + w;
        i = i + 1;
    }
    proof {
        assert(s@.take(i as int) =~= s@);
    }
    n
}

// ---------------------------------------------------------------------------
// Searching
// ---------------------------------------------------------------------------

/// The first position whose character is in the class (or, with `want` false,
/// is not); the length of the text where there is none.
pub open spec fn first_where(s: Seq<char>, k: CharClass, want: bool) -> int
    decreases s.len(),
{
    if s.len() == 0 || k.holds(s[0]) == want {
        0
    } else {
        1 + first_where(s.skip(1), k, want)
    }
}

/// The last position whose character is in the class (or, with `want` false,
/// is not); -1 where there is none.
pub open spec fn last_where(s: Seq<char>, k: CharClass, want: bool) -> int
    decreases s.len(),
{
    if s.len() == 0 || k.holds(s.last()) == want {
        s.len() - 1
    } else {
        last_where(s.drop_last(), k, want)
    }
}

/// What `first_where` finds, and that nothing comes before it.
pub proof fn lemma_first_where(s: Seq<char>, k: CharClass, want: bool)
    ensures
        0 <= first_where(s, k, want) <= s.len(),
        first_where(s, k, want) < s.len() ==> k.holds(s[first_where(s, k, want)]) == want,
        forall|j: int| 0 <= j < first_where(s, k, want) ==> k.holds(#[trigger] s[j]) != want,
    decreases s.len(),
{
    if s.len() == 0 || k.holds(s[0]) == want {
    } else {
        let t = s.skip(1);
        lemma_first_where(t, k, want);
        assert forall|j: int| 0 <= j < first_where(s, k, want) implies k.holds(#[trigger] s[j])
            != want by {
            if j > 0 {
                assert(s[j] == t[j - 1]);
            }
        }
    }
}

/// The position that `first_where` finds is the only one with nothing before
/// it.
pub proof fn lemma_first_where_is(s: Seq<char>, k: CharClass, want: bool, i: int)
    requires
        0 <= i <= s.len(),
        forall|j: int| 0 <= j < i ==> k.holds(#[trigger] s[j]) != want,
        i < s.len() ==> k.holds(s[i]) == want,
    ensures
        first_where(s, k, want) == i,
{
    lemma_first_where(s, k, want);
    let f = first_where(s, k, want);
    if f < i {
        assert(k.holds(s[f]) != want);
    }
    if i < f {
        assert(k.holds(s[i]) != want);
    }
}

/// What `last_where` finds, and that nothing comes after it.
pub proof fn lemma_last_where(s: Seq<char>, k: CharClass, want: bool)
    ensures
        -1 <= last_where(s, k, want) < s.len(),
        last_where(s, k, want) >= 0 ==> k.holds(s[last_where(s, k, want)]) == want,
        forall|j: int| last_where(s, k, want) < j < s.len() ==> k.holds(#[trigger] s[j]) != want,
    decreases s.len(),
{
    if s.len() == 0 || k.holds(s.last()) == want {
    } else {
        let t = s.drop_last();
        lemma_last_where(t, k, want);
        assert forall|j: int| last_where(s, k, want) < j < s.len() implies k.holds(#[trigger] s[j])
            != want by {
            if j < t.len() {
                assert(s[j] == t[j]);
            }
        }
    }
}

/// The position that `last_where` finds is the only one with nothing after it.
pub proof fn lemma_last_where_is(s: Seq<char>, k: CharClass, want: bool, i: int)
    requires
        -1 <= i < s.len(),
        forall|j: int| i < j < s.len() ==> k.holds(#[trigger] s[j]) != want,
        i >= 0 ==> k.holds(s[i]) == want,
    ensures
        last_where(s, k, want) == i,
{
    lemma_last_where(s, k, want);
    let f = last_where(s, k, want);
    if f > i {
        assert(k.holds(s[f]) != want);
    }
    if i > f {
        assert(k.holds(s[i]) != want);
    }
}

/// Finds the first position from the left; the length where there is none.
pub fn find_first(s: &[char], k: Class, want: bool) -> (r: usize)
    ensures
        r as int == first_where(s@, k.deep_view(), want),
        r <= s@.len(),
{
    let mut i: usize = 0;
    while i < s.len()
        invariant
            i <= s@.len(),
            forall|j: int| 0 <= j < i ==> k.deep_view().holds(#[trigger] s@[j]) != want,
        decreases s@.len() - i,
    {
        if k.test(s[i]) == want {
            proof {
                lemma_first_where_is(s@, k.deep_view(), want, i as int);
            }
            return i;
        }
        i = i + 1;
    }
    proof {
        lemma_first_where_is(s@, k.deep_view(), want, i as int);
    }
    i
}

/// Finds the first position from the right, as the number of characters up to
/// and with it; zero where there is none.
pub fn find_last_end(s: &[char], k: Class, want: bool) -> (r: usize)
    ensures
        r as int == last_where(s@, k.deep_view(), want) + 1,
        r <= s@.len(),
{
    let mut i: usize = s.len();
    while i > 0
        invariant
            i <= s@.len(),
            forall|j: int| i <= j < s@.len() ==> k.deep_view().holds(#[trigger] s@[j]) != want,
        decreases i,
    {
        if k.test(s[i - 1]) == want {
            proof {
                lemma_last_where_is(s@, k.deep_view(), want, i - 1);
            }
            return i;
        }
        i = i - 1;
    }
    proof {
        lemma_last_where_is(s@, k.deep_view(), want, -1);
    }
    i
}

/// Finds the last occurrence of a character.
pub fn rfind_char(s: &[char], c: char) -> (r: Option<usize>)
    ensures
        match r {
            Some(i) => i as int == last_where(s@, CharClass::Is(c), true) && i < s@.len() && s@[i as int]
                == c,
            None => last_where(s@, CharClass::Is(c), true) == -1,
        },
{
    let n: usize = find_last_end(s, Class::Is(c), true);
    proof {
        lemma_last_where(s@, CharClass::Is(c), true);
    }
    if n == 0 {
        None
    } else {
        Some(n - 1)
    }
}

/// Whether `p` stands in `s` at position `i`.
pub open spec fn occurs_at(s: Seq<char>, p: Seq<char>, i: int) -> bool {
    0 <= i && i + p.len() <= s.len() && s.subrange(i, i + p.len()) == p
}

/// Tests whether `p` stands in `s` at position `i`.
pub fn is_at(s: &[char], p: &[char], i: usize) -> (r: bool)
    ensures
        r == occurs_at(s@, p@, i as int),
{
    if i > s.len() || p.len() > s.len() - i {
        return false;
    }
    let mut j: usize = 0;
    while j < p.len()
        invariant
            j <= p@.len(),
            i + p.len() <= s.len(),
            forall|k: int| 0 <= k < j ==> #[trigger] p@[k] == s@[i + k],
        decreases p@.len() - j,
    {
        if s[i + j] != p[j] {
            proof {
                assert(s@.subrange(i as int, i + p@.len())[j as int] != p@[j as int]);
            }
            return false;
        }
        j = j + 1;
    }
    proof {
        assert(s@.subrange(i as int, i + p@.len()) =~= p@);
    }
    true
}

/// Whether a text begins with another.
pub open spec fn begins_with(s: Seq<char>, p: Seq<char>) -> bool {
    occurs_at(s, p, 0)
}

/// Whether a text ends with another.
pub open spec fn ends_with(s: Seq<char>, p: Seq<char>) -> bool {
    occurs_at(s, p, s.len() - p.len())
}

/// Tests whether a text begins with another.
pub fn starts(s: &[char], p: &[char]) -> (r: bool)
    ensures
        r == begins_with(s@, p@),
{
    is_at(s, p, 0)
}

/// Tests whether a text ends with another.
pub fn ends(s: &[char], p: &[char]) -> (r: bool)
    ensures
        r == ends_with(s@, p@),
{
    if p.len() > s.len() {
        return false;
    }
    is_at(s, p, s.len() - p.len())
}

/// The first position from `from` on at which `p` stands in `s`; -1 where
/// there is none.
pub open spec fn find_from(s: Seq<char>, p: Seq<char>, from: int) -> int
    decreases s.len() - from + 1,
{
    if from + p.len() > s.len() {
        -1
    } else if occurs_at(s, p, from) {
        from
    } else {
        find_from(s, p, from + 1)
    }
}

/// The last position, at most `upto`, at which `p` stands in `s`; -1 where
/// there is none.
pub open spec fn rfind_upto(s: Seq<char>, p: Seq<char>, upto: int) -> int
    decreases upto + 1,
{
    if upto < 0 {
        -1
    } else if occurs_at(s, p, upto) {
        upto
    } else {
        rfind_upto(s, p, upto - 1)
    }
}

/// Finds the first occurrence of a text.
pub fn find_text(s: &[char], p: &[char]) -> (r: Option<usize>)
    ensures
        match r {
            Some(i) => i as int == find_from(s@, p@, 0) && occurs_at(s@, p@, i as int),
            None => find_from(s@, p@, 0) == -1,
        },
{
    let mut i: usize = 0;
    if p.len() > s.len() {
        return None;
    }
    let last: usize = s.len() - p.len();
    while i <= last
        invariant
            i <= last + 1,
            last + p@.len() == s@.len(),
            find_from(s@, p@, 0) == find_from(s@, p@, i as int),
        decreases last + 1 - i,
    {
        if is_at(s, p, i) {
            return Some(i);
        }
        if i == last {
            proof {
                assert(find_from(s@, p@, i + 1) == -1);
            }
            return None;
        }
        i = i + 1;
    }
    None
}

/// Finds the last occurrence of a text.
pub fn rfind_text(s: &[char], p: &[char]) -> (r: Option<usize>)
    ensures
        match r {
            Some(i) => i as int == rfind_upto(s@, p@, s@.len() as int) && occurs_at(
                s@,
                p@,
                i as int,
            ),
            None => rfind_upto(s@, p@, s@.len() as int) == -1,
        },
{
    let mut i: usize = s.len();
    loop
        invariant
            i <= s@.len(),
            rfind_upto(s@, p@, s@.len() as int) == rfind_upto(s@, p@, i as int),
        decreases i,
    {
        if is_at(s, p, i) {
            return Some(i);
        }
        if i == 0 {
            proof {
                assert(rfind_upto(s@, p@, -1) == -1);
            }
            return None;
        }
        i = i - 1;
    }
}

// ---------------------------------------------------------------------------
// Trimming, splitting and joining
// ---------------------------------------------------------------------------

/// A text without the characters of the class at its end.
pub open spec fn trim_end(s: Seq<char>, k: CharClass) -> Seq<char> {
    s.take(last_where(s, k, false) + 1)
}

/// A text without the characters of the class at its start.
pub open spec fn trim_start(s: Seq<char>, k: CharClass) -> Seq<char> {
    s.skip(first_where(s, k, false))
}

/// A text without the characters of the class at either end.
pub open spec fn trim(s: Seq<char>, k: CharClass) -> Seq<char> {
    trim_end(trim_start(s, k), k)
}

/// Drops the characters of the class at the end.
pub fn trimmed_end(s: &[char], k: Class) -> (r: Vec<char>)
    ensures
        r@ == trim_end(s@, k.deep_view()),
{
    let n: usize = find_last_end(s, k, false);
    slice_of(s, 0, n)
}

/// Drops the characters of the class at the start.
pub fn trimmed_start(s: &[char], k: Class) -> (r: Vec<char>)
    ensures
        r@ == trim_start(s@, k.deep_view()),
{
    let n: usize = find_first(s, k, false);
    slice_of(s, n, s.len())
}

/// Drops the characters of the class at either end.
pub fn trimmed(s: &[char], k: Class) -> (r: Vec<char>)
    ensures
        r@ == trim(s@, k.deep_view()),
{
    let t = trimmed_start(s, k);
    trimmed_end(&t, k)
}

/// The pieces of a text between the characters of the class, empty ones
/// included.
pub open spec fn split(s: Seq<char>, k: CharClass) -> Seq<Seq<char>>
    decreases s.len(),
{
    let i = first_where(s, k, true);
    if 0 <= i < s.len() {
        seq![s.take(i)] + split(s.skip(i + 1), k)
    } else {
        seq![s]
    }
}

/// Splits a text at the characters of the class.
pub fn split_at_class(s: &[char], k: Class) -> (r: Vec<Vec<char>>)
    ensures
        texts(r@) == split(s@, k.deep_view()),
{
    let mut out: Vec<Vec<char>> = Vec::new();
    let mut from: usize = 0;
    proof {
        assert(s@.skip(0) =~= s@);
        assert(texts(out@) + split(s@, k.deep_view()) =~= split(s@, k.deep_view()));
    }
    loop
        invariant
            from <= s@.len(),
            texts(out@) + split(s@.skip(from as int), k.deep_view()) == split(
                s@,
                k.deep_view(),
            ),
        decreases s@.len() - from,
    {
        let rest = slice_of(s, from, s.len());
        let i: usize = find_first(&rest, k, true);
        let ghost before = texts(out@);
        proof {
            assert(rest@ =~= s@.skip(from as int));
            lemma_first_where(rest@, k.deep_view(), true);
        }
        if i == rest.len() {
            out.push(rest);
            proof {
                assert(texts(out@) =~= before.push(s@.skip(from as int)));
            }
            return out;
        }
        out.push(slice_of(&rest, 0, i));
        proof {
            assert(texts(out@) =~= before.push(s@.skip(from as int).take(i as int)));
            assert(s@.skip(from as int).skip(i + 1) =~= s@.skip(from + i + 1));
            assert(texts(out@) + split(s@.skip(from + i + 1), k.deep_view()) =~= before
                + split(s@.skip(from as int), k.deep_view()));
        }
        from = from + i + 1;
    }
}

/// The words of a text: its maximal runs without whitespace, in order.
pub open spec fn words(s: Seq<char>) -> Seq<Seq<char>>
    decreases s.len(),
{
    let n = first_where(s, CharClass::Space, true);
    if s.len() == 0 {
        Seq::empty()
    } else if n <= 0 || n > s.len() {
        words(s.skip(1))
    } else {
        seq![s.take(n)] + words(s.skip(n))
    }
}

/// Splits a text into its words.
pub fn to_words(s: &[char]) -> (r: Vec<Vec<char>>)
    ensures
        texts(r@) == words(s@),
{
    let mut out: Vec<Vec<char>> = Vec::new();
    let mut from: usize = 0;
    proof {
        assert(s@.skip(0) =~= s@);
        assert(texts(out@) + words(s@) =~= words(s@));
    }
    while from < s.len()
        invariant
            from <= s@.len(),
            texts(out@) + words(s@.skip(from as int)) == words(s@),
        decreases s@.len() - from,
    {
        let rest = slice_of(s, from, s.len());
        let n: usize = find_first(&rest, Class::Space, true);
        let ghost before = texts(out@);
        proof {
            assert(rest@ =~= s@.skip(from as int));
        }
        if n == 0 {
            proof {
                assert(rest@.skip(1) =~= s@.skip(from + 1));
            }
            from = from + 1;
        } else {
            out.push(slice_of(&rest, 0, n));
            proof {
                assert(texts(out@) =~= before.push(rest@.take(n as int)));
                assert(rest@.skip(n as int) =~= s@.skip(from + n));
                assert(texts(out@) + words(s@.skip(from + n)) =~= before + words(rest@));
            }
            from = from + n;
        }
    }
    proof {
        assert(s@.skip(from as int) =~= Seq::empty());
        assert(texts(out@) + words(s@.skip(from as int)) =~= texts(out@));
    }
    out
}

/// The texts put one after the other, with `sep` between each two.
pub open spec fn join(parts: Seq<Seq<char>>, sep: Seq<char>) -> Seq<char>
    decreases parts.len(),
{
    if parts.len() == 0 {
        Seq::empty()
    } else if parts.len() == 1 {
        parts[0]
    } else {
        join(parts.drop_last(), sep) + sep + parts.last()
    }
}

/// Joins texts.
pub fn joined(parts: &[Vec<char>], sep: &[char]) -> (r: Vec<char>)
    ensures
        r@ == join(texts(parts@), sep@),
{
    let mut out: Vec<char> = Vec::new();
    let mut i: usize = 0;
    while i < parts.len()
        invariant
            i <= parts@.len(),
            out@ == join(texts(parts@).take(i as int), sep@),
        decreases parts@.len() - i,
    {
        if i > 0 {
            push_chars(&mut out, sep);
        }
        push_chars(&mut out, &parts[i]);
        proof {
            let t = texts(parts@).take(i + 1);
            assert(t.drop_last() =~= texts(parts@).take(i as int));
            assert(t.last() == parts@[i as int]@);
            if i == 0 {
                assert(out@ =~= parts@[0]@);
            }
        }
        i = i + 1;
    }
    proof {
        assert(texts(parts@).take(i as int) =~= texts(parts@));
    }
    out
}

/// A text with every run of whitespace made one space, and none at the ends.
pub open spec fn collapse(s: Seq<char>) -> Seq<char> {
    join(words(s), seq![' '])
}

/// Collapses whitespace.
pub fn collapsed(s: &[char]) -> (r: Vec<char>)
    ensures
        r@ == collapse(s@),
{
    let w = to_words(s);
    let space: Vec<char> = vec![' '];
    proof {
        assert(space@ =~= seq![' ']);
    }
    joined(&w, &space)
}

/// A text with the characters of the class replaced by a space.
pub open spec fn spaced(s: Seq<char>, k: CharClass) -> Seq<char> {
    Seq::new(
        s.len(),
        |i: int|
            if k.holds(s[i]) {
                ' '
            } else {
                s[i]
            },
    )
}

/// Replaces the characters of the class by spaces.
pub fn with_spaces(s: &[char], k: Class) -> (r: Vec<char>)
    ensures
        r@ == spaced(s@, k.deep_view()),
{
    let mut out: Vec<char> = Vec::new();
    let mut i: usize = 0;
    while i < s.len()
        invariant
            i <= s@.len(),
            out@ == spaced(s@, k.deep_view()).take(i as int),
        decreases s@.len() - i,
    {
        out.push(if k.test(s[i]) { ' ' } else { s[i] });
        i = i + 1;
    }
    out
}

// ---------------------------------------------------------------------------
// ASCII case
// ---------------------------------------------------------------------------

/// The lowercase form of an ASCII capital; any other character as it is.
pub open spec fn ascii_lower(c: char) -> char {
    if 'A' <= c && c <= 'Z' {
        ((c as u8) + 32) as char
    } else {
        c
    }
}

/// A text with its ASCII capitals made lowercase.
pub open spec fn ascii_lowercase(s: Seq<char>) -> Seq<char> {
    Seq::new(s.len(), |i: int| ascii_lower(s[i]))
}

/// Makes ASCII capitals lowercase.
pub fn lowered(s: &[char]) -> (r: Vec<char>)
    ensures
        r@ == ascii_lowercase(s@),
{
    let mut out: Vec<char> = Vec::new();
    let mut i: usize = 0;
    while i < s.len()
        invariant
            i <= s@.len(),
            out@ == ascii_lowercase(s@).take(i as int),
        decreases s@.len() - i,
    {
        let c = s[i];
        out.push(if 'A' <= c && c <= 'Z' { ((c as u8) + 32u8) as char } else { c });
        i = i + 1;
    }
    out
}

/// Makes the ASCII capitals of a string lowercase.
pub fn lowered_text(s: &str) -> (r: String)
    ensures
        r@ == ascii_lowercase(s@),
{
    let v = to_chars(s);
    to_text(&lowered(&v))
}

/// Whether two texts are the same but for the case of ASCII letters.
pub open spec fn eq_ignore_case(a: Seq<char>, b: Seq<char>) -> bool {
    ascii_lowercase(a) == ascii_lowercase(b)
}

/// Compares two texts without regard to the case of ASCII letters.
pub fn same_ignoring_case(a: &str, b: &str) -> (r: bool)
    ensures
        r == eq_ignore_case(a@, b@),
{
    let x = lowered(&to_chars(a));
    let y = lowered(&to_chars(b));
    same_chars(&x, &y)
}

/// Whether a character is an ASCII digit.
pub open spec fn is_digit(c: char) -> bool {
    '0' <= c && c <= '9'
}

/// Whether a character is an ASCII letter or digit.
pub open spec fn is_ascii_alnum(c: char) -> bool {
    is_digit(c) || ('a' <= c && c <= 'z') || ('A' <= c && c <= 'Z')
}

/// Tests for an ASCII letter or digit.
pub fn ascii_alnum(c: char) -> (r: bool)
    ensures
        r == is_ascii_alnum(c),
{
    ('0' <= c && c <= '9') || ('a' <= c && c <= 'z') || ('A' <= c && c <= 'Z')
}

/// Whether a text is all ASCII letters and digits.
pub open spec fn all_ascii_alnum(s: Seq<char>) -> bool {
    forall|i: int| 0 <= i < s.len() ==> is_ascii_alnum(#[trigger] s[i])
}

/// Tests that every character is an ASCII letter or digit.
pub fn is_all_alnum(s: &[char]) -> (r: bool)
    ensures
        r == all_ascii_alnum(s@),
{
    let mut i: usize = 0;
    while i < s.len()
        invariant
            i <= s@.len(),
            forall|k: int| 0 <= k < i ==> is_ascii_alnum(#[trigger] s@[k]),
        decreases s@.len() - i,
    {
        if !ascii_alnum(s[i]) {
            return false;
        }
        i = i + 1;
    }
    true
}

// ---------------------------------------------------------------------------
// Numbers
// ---------------------------------------------------------------------------

/// The value of an ASCII digit.
pub open spec fn digit_value(c: char) -> nat {
    ((c as u32) - 48) as nat
}

/// The value of a run of decimal digits.
pub open spec fn decimal_value(s: Seq<char>) -> nat
    decreases s.len(),
{
    if s.len() == 0 {
        0
    } else {
        decimal_value(s.drop_last()) * 10 + digit_value(s.last())
    }
}

/// Whether a text is all decimal digits.
pub open spec fn all_digits(s: Seq<char>) -> bool {
    forall|i: int| 0 <= i < s.len() ==> is_digit(#[trigger] s[i])
}

/// Tests whether a text is digits only.
pub fn ascii_digits(s: &[char]) -> (r: bool)
    ensures
        r == all_digits(s@),
{
    let mut i: usize = 0;
    while i < s.len()
        invariant
            i <= s@.len(),
            forall|k: int| 0 <= k < i ==> is_digit(#[trigger] s@[k]),
        decreases s@.len() - i,
    {
        if !('0' <= s[i] && s[i] <= '9') {
            return false;
        }
        i = i + 1;
    }
    true
}

/// What follows an optional plus sign.
pub open spec fn unsigned_part(s: Seq<char>) -> Seq<char> {
    if s.len() > 0 && s[0] == '+' {
        s.skip(1)
    } else {
        s
    }
}

/// The number that a text denotes as a 16-bit unsigned integer: an optional
/// plus sign, then at least one decimal digit, with a value that fits.
pub open spec fn number(s: Seq<char>) -> Option<u16> {
    let t = unsigned_part(s);
    if t.len() > 0 && all_digits(t) && decimal_value(t) <= 65535 {
        Some(decimal_value(t) as u16)
    } else {
        None
    }
}

/// Reads a 16-bit unsigned integer.
pub fn parse_u16(s: &[char]) -> (r: Option<u16>)
    ensures
        r == number(s@),
{
    let start: usize = if s.len() > 0 && s[0] == '+' { 1 } else { 0 };
    let ghost t = unsigned_part(s@);
    proof {
        assert(t =~= s@.skip(start as int));
    }
    if s.len() == start {
        return None;
    }
    let mut i: usize = start;
    let mut value: u32 = 0;
    let mut over = false;
    while i < s.len()
        invariant
            start <= i <= s@.len(),
            start <= 1,
            t == s@.skip(start as int),
            t == unsigned_part(s@),
            all_digits(t.take(i - start)),
            !over ==> value as nat == decimal_value(t.take(i - start)),
            value <= 65535,
            over ==> decimal_value(t.take(i - start)) > 65535,
        decreases s@.len() - i,
    {
        let c = s[i];
        proof {
            assert(t[i - start] == c);
            assert(t.take(i + 1 - start).drop_last() =~= t.take(i - start));
            assert(t.take(i + 1 - start).last() == c);
        }
        if c < '0' || '9' < c {
            proof {
                assert(!is_digit(t[i - start]));
            }
            return None;
        }
        proof {
            assert forall|k: int| 0 <= k < t.take(i + 1 - start).len() implies is_digit(
                #[trigger] t.take(i + 1 - start)[k],
            ) by {
                if k < i - start {
                    assert(t.take(i - start)[k] == t.take(i + 1 - start)[k]);
                }
            }
        }
        let d: u32 = (c as u32) - 48;
        let next: u32 = value * 10 + d;
        if next > 65535 || over {
            over = true;
        } else {
            value = next;
        }
        i = i + 1;
    }
    proof {
        assert(t.take(i - start) =~= t);
    }
    if over {
        None
    } else {
        Some(value as u16)
    }
}

/// Reads a 16-bit unsigned integer from a string.
pub fn parse_number(s: &str) -> (r: Option<u16>)
    ensures
        r == number(s@),
{
    parse_u16(&to_chars(s))
}

/// The ASCII digit of a value below ten.
pub open spec fn digit_char(n: nat) -> char {
    (48 + n) as u8 as char
}

/// The decimal digits of a number, without leading zeros.
pub open spec fn decimal(n: nat) -> Seq<char>
    decreases n,
{
    if n < 10 {
        seq![digit_char(n)]
    } else {
        decimal(n / 10).push(digit_char(n % 10))
    }
}

/// The decimal digits of a number, at least two of them.
pub open spec fn decimal2(n: nat) -> Seq<char> {
    if n < 10 {
        seq!['0', digit_char(n)]
    } else {
        decimal(n)
    }
}

/// The decimal digits of a number, with zeros in front up to a width.
pub open spec fn padded(n: nat, width: nat) -> Seq<char> {
    let d = decimal(n);
    if d.len() < width {
        Seq::new((width - d.len()) as nat, |i: int| '0') + d
    } else {
        d
    }
}

/// The decimal digits of a number, with zeros in front up to a width.
pub fn padded_text(n: u64, width: usize) -> (r: String)
    ensures
        r@ == padded(n as nat, width as nat),
{
    let mut digits: Vec<char> = Vec::new();
    push_decimal(&mut digits, n);
    proof {
        assert(digits@ =~= decimal(n as nat));
    }
    let mut out: Vec<char> = Vec::new();
    let mut i: usize = digits.len();
    while i < width
        invariant
            digits@.len() <= i,
            i <= width || i == digits@.len(),
            out@ == Seq::new((i - digits@.len()) as nat, |k: int| '0'),
        decreases width - i,
    {
        out.push('0');
        i = i + 1;
        proof {
            assert(out@ =~= Seq::new((i - digits@.len()) as nat, |k: int| '0'));
        }
    }
    push_chars(&mut out, &digits);
    proof {
        assert(out@ =~= padded(n as nat, width as nat));
    }
    to_text(&out)
}

/// Appends the decimal digits of a number.
pub fn push_decimal(out: &mut Vec<char>, n: u64)
    ensures
        final(out)@ == old(out)@ + decimal(n as nat),
    decreases n,
{
    if n < 10 {
        out.push((48u8 + (n as u8)) as char);
    } else {
        push_decimal(out, n / 10);
        out.push((48u8 + ((n % 10) as u8)) as char);
    }
}

/// The decimal digits of a number.
pub fn decimal_text(n: u64) -> (r: String)
    ensures
        r@ == decimal(n as nat),
{
    let mut out: Vec<char> = Vec::new();
    push_decimal(&mut out, n);
    proof {
        assert(out@ =~= decimal(n as nat));
    }
    to_text(&out)
}

/// The decimal digits of a number, at least two of them.
pub fn decimal2_text(n: u64) -> (r: String)
    ensures
        r@ == decimal2(n as nat),
{
    let mut out: Vec<char> = Vec::new();
    if n < 10 {
        out.push('0');
    }
    push_decimal(&mut out, n);
    proof {
        assert(out@ =~= decimal2(n as nat));
    }
    to_text(&out)
}

/// The digits of a number are digits, and denote the number.
pub proof fn lemma_decimal(n: nat)
    ensures
        decimal(n).len() > 0,
        all_digits(decimal(n)),
        decimal_value(decimal(n)) == n,
    decreases n,
{
    if n < 10 {
        let s = decimal(n);
        assert(s.drop_last() =~= Seq::empty());
        assert(decimal_value(s.drop_last()) == 0);
        assert(s.last() == digit_char(n));
    } else {
        lemma_decimal(n / 10);
        let s = decimal(n);
        assert(s.drop_last() =~= decimal(n / 10));
        assert(s.last() == digit_char(n % 10));
        assert forall|i: int| 0 <= i < s.len() implies is_digit(#[trigger] s[i]) by {
            if i < s.len() - 1 {
                assert(s[i] == decimal(n / 10)[i]);
            }
        }
    }
}

/// Reading back the digits of a number gives the number.
pub proof fn lemma_number_of_decimal(n: u16)
    ensures
        number(decimal(n as nat)) == Some(n),
{
    lemma_decimal(n as nat);
    let s = decimal(n as nat);
    assert(is_digit(s[0]));
    assert(unsigned_part(s) == s);
}

/// Whether a text has a line: between line breaks, or the ends of the text.
pub open spec fn has_line(s: Seq<char>, line: Seq<char>) -> bool {
    exists|before: Seq<char>, after: Seq<char>|
        #![trigger before + line + after]
        s == before + line + after && (before.len() == 0 || before.last() == '\n') && (after.len()
            == 0 || after[0] == '\n')
}

/// Every one of joined lines is a line of the text.
pub proof fn lemma_joined_has_line(lines: Seq<Seq<char>>, k: int)
    requires
        0 <= k < lines.len(),
    ensures
        has_line(join(lines, "\n"@), lines[k]),
    decreases lines.len(),
{
    reveal_strlit("\n");
    let br = "\n"@;
    let none = Seq::<char>::empty();
    let all = join(lines, br);
    if lines.len() == 1 {
        assert(all =~= none + lines[0] + none);
    } else {
        let head = join(lines.drop_last(), br);
        if k == lines.len() - 1 {
            assert(all =~= (head + br) + lines[k] + none);
            assert((head + br).last() == '\n');
        } else {
            lemma_joined_has_line(lines.drop_last(), k);
            let (before, after) = choose|before: Seq<char>, after: Seq<char>|
                #![trigger before + lines[k] + after]
                head == before + lines[k] + after && (before.len() == 0 || before.last() == '\n')
                    && (after.len() == 0 || after[0] == '\n');
            let rest = after + br + lines.last();
            assert(all =~= before + lines[k] + rest);
            assert(rest[0] == '\n') by {
                if after.len() > 0 {
                    assert(rest[0] == after[0]);
                }
            }
        }
    }
}

/// Whether no character of a text is of a class.
pub open spec fn free_of(s: Seq<char>, k: CharClass) -> bool {
    forall|i: int| 0 <= i < s.len() ==> !k.holds(#[trigger] s[i])
}

/// A text with a separator and a piece behind it splits into one piece more.
proof fn lemma_one_more_piece(s: Seq<char>, sep: char, w: Seq<char>, k: CharClass)
    requires
        k.holds(sep),
        free_of(w, k),
    ensures
        split(s + seq![sep] + w, k) == split(s, k).push(w),
    decreases s.len(),
{
    let t = s + seq![sep] + w;
    let n = s.len() as int;
    lemma_first_where(s, k, true);
    lemma_first_where(w, k, true);
    let i = first_where(s, k, true);
    if 0 <= i < n {
        assert(t[i] == s[i]);
        assert forall|j: int| 0 <= j < i implies !k.holds(#[trigger] t[j]) by {
            assert(t[j] == s[j]);
        }
        lemma_first_where_is(t, k, true, i);
        assert(t.take(i) =~= s.take(i));
        assert(t.skip(i + 1) =~= s.skip(i + 1) + seq![sep] + w);
        lemma_one_more_piece(s.skip(i + 1), sep, w, k);
        assert(split(t, k) =~= split(s, k).push(w));
    } else {
        assert(t[n] == sep);
        assert forall|j: int| 0 <= j < n implies !k.holds(#[trigger] t[j]) by {
            assert(t[j] == s[j]);
        }
        lemma_first_where_is(t, k, true, n);
        assert(t.take(n) =~= s);
        assert(t.skip(n + 1) =~= w);
        assert(split(w, k) =~= seq![w]);
        assert(split(t, k) =~= split(s, k).push(w));
    }
}

/// Pieces that are joined by a separator are parted again where a text is split
/// at it.
pub proof fn law_split_undoes_join(parts: Seq<Seq<char>>, sep: char, k: CharClass)
    requires
        parts.len() > 0,
        k.holds(sep),
        forall|i: int| 0 <= i < parts.len() ==> free_of(#[trigger] parts[i], k),
    ensures
        split(join(parts, seq![sep]), k) == parts,
    decreases parts.len(),
{
    let w = parts[parts.len() - 1];
    assert(free_of(w, k));
    if parts.len() == 1 {
        lemma_first_where(w, k, true);
        assert(split(w, k) =~= seq![w]);
        assert(parts =~= seq![w]);
    } else {
        let less = parts.drop_last();
        assert forall|i: int| 0 <= i < less.len() implies free_of(#[trigger] less[i], k) by {
            assert(less[i] == parts[i]);
        }
        law_split_undoes_join(less, sep, k);
        lemma_one_more_piece(join(less, seq![sep]), sep, w, k);
        assert(less.push(w) =~= parts);
    }
}

} // verus!
