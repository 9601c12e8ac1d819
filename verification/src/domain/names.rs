//! Names that are safe as they are.

use crate::domain::path::{
    dot_or_space, is_reserved, lookup, safe_name, shortened, squeezed, substitute, substituted,
    unreserved,
};
use crate::domain::volume::ComponentLimit;
use crate::text;
use crate::text::CharClass;
use crate::unicode;
use vstd::prelude::*;

verus! {

/// Whether a name is clean: composed, without control characters, slashes and
/// characters that are substituted, with no whitespace but single spaces, none
/// and no dot at its ends, not reserved, and within a limit.
pub open spec fn is_clean(
    name: Seq<char>,
    map: Seq<(char, Seq<char>)>,
    limit: ComponentLimit,
) -> bool {
    &&& unicode::nfc(name) == name
    &&& name.len() > 0
    &&& forall|i: int|
        0 <= i < name.len() ==> (#[trigger] name[i]) as u32 >= 0x20 && name[i] != '/' && name[i]
            != '\\' && lookup(map, name[i]) is None
    &&& forall|i: int|
        0 <= i < name.len() && unicode::char_is_whitespace(#[trigger] name[i]) ==> name[i] == ' '
            && (i > 0 ==> !unicode::char_is_whitespace(name[i - 1]))
    &&& name[0] != ' ' && name[0] != '.'
    &&& name.last() != ' ' && name.last() != '.'
    &&& !is_reserved(name)
    &&& limit.admits(name)
}

/// Nothing is substituted where nothing is to be.
proof fn lemma_substituted(map: Seq<(char, Seq<char>)>, s: Seq<char>)
    requires
        forall|i: int|
            0 <= i < s.len() ==> (#[trigger] s[i]) as u32 >= 0x20 && s[i] != '/' && s[i] != '\\'
                && lookup(map, s[i]) is None,
    ensures
        substituted(map, s) == s,
    decreases s.len(),
{
    if s.len() == 0 {
        assert(substituted(map, s) =~= s);
    } else {
        let less = s.drop_last();
        assert forall|i: int| 0 <= i < less.len() implies (#[trigger] less[i]) as u32 >= 0x20
            && less[i] != '/' && less[i] != '\\' && lookup(map, less[i]) is None by {
            assert(less[i] == s[i]);
        }
        lemma_substituted(map, less);
        let c = s[s.len() - 1];
        assert(s.last() == c);
        assert(substitute(map, c) == seq![c]);
        assert(less + seq![c] =~= s);
    }
}

/// Nothing is squeezed where there are only single spaces.
proof fn lemma_squeezed(s: Seq<char>)
    requires
        forall|i: int|
            0 <= i < s.len() && unicode::char_is_whitespace(#[trigger] s[i]) ==> s[i] == ' ' && (i
                > 0 ==> !unicode::char_is_whitespace(s[i - 1])),
    ensures
        squeezed(s) == s,
    decreases s.len(),
{
    if s.len() == 0 {
        assert(squeezed(s) =~= s);
    } else {
        let less = s.drop_last();
        assert forall|i: int|
            0 <= i < less.len() && unicode::char_is_whitespace(#[trigger] less[i]) implies less[i]
            == ' ' && (i > 0 ==> !unicode::char_is_whitespace(less[i - 1])) by {
            assert(less[i] == s[i]);
        }
        lemma_squeezed(less);
        let n = s.len() - 1;
        assert(s.last() == s[n]);
        assert(less.push(s[n]) =~= s);
    }
}

/// Nothing is trimmed of a text that neither begins nor ends with what is
/// trimmed.
proof fn lemma_trimmed(s: Seq<char>, k: CharClass)
    requires
        s.len() > 0,
        !k.holds(s[0]),
        !k.holds(s.last()),
    ensures
        text::trim_start(s, k) == s,
        text::trim_end(s, k) == s,
        text::trim(s, k) == s,
{
    assert(text::first_where(s, k, false) == 0);
    assert(text::last_where(s, k, false) == s.len() - 1);
    assert(text::trim_start(s, k) =~= s);
    assert(text::trim_end(s, k) =~= s);
}

/// A clean name is kept as it is.
pub proof fn law_clean_name_is_kept(
    name: Seq<char>,
    map: Seq<(char, Seq<char>)>,
    limit: ComponentLimit,
)
    requires
        is_clean(name, map, limit),
    ensures
        safe_name(name, map, limit) == name,
{
    lemma_substituted(map, name);
    lemma_squeezed(name);
    let k = dot_or_space();
    let set = seq!['.', ' '];
    assert forall|c: char| c != '.' && c != ' ' implies !#[trigger] k.holds(c) by {
        if set.contains(c) {
            let i = choose|i: int| 0 <= i < set.len() && set[i] == c;
        }
    }
    lemma_trimmed(name, k);
    lemma_trimmed(name, CharClass::Is(' '));
    assert(unreserved(name) == name);
    assert(shortened(name, limit) == name);
}

} // verus!
