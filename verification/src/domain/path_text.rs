//! What the text of a path says of the path.

use crate::domain::path::{components, path_of, PathView};
use crate::text;
use crate::text::CharClass;
use vstd::prelude::*;

verus! {

/// Whether a text can stand between slashes as a component of its own.
pub open spec fn is_component(s: Seq<char>) -> bool {
    s.len() > 0 && s != seq!['.'] && text::free_of(s, CharClass::Is('/'))
}

/// Components are all kept, with or without an empty piece in front.
proof fn lemma_components_are_kept(parts: Seq<Seq<char>>)
    requires
        forall|i: int| 0 <= i < parts.len() ==> is_component(#[trigger] parts[i]),
    ensures
        components(parts) == parts,
        components(seq![Seq::<char>::empty()] + parts) == parts,
    decreases parts.len(),
{
    let lead = seq![Seq::<char>::empty()];
    if parts.len() == 0 {
        assert((lead + parts).drop_last() =~= Seq::<Seq<char>>::empty());
        assert((lead + parts).last().len() == 0);
        assert(components((lead + parts).drop_last()) =~= parts);
    } else {
        let less = parts.drop_last();
        assert forall|i: int| 0 <= i < less.len() implies is_component(#[trigger] less[i]) by {
            assert(less[i] == parts[i]);
        }
        lemma_components_are_kept(less);
        assert(is_component(parts[parts.len() - 1]));
        assert((lead + parts).drop_last() =~= lead + less);
        assert((lead + parts).last() == parts.last());
        assert(less.push(parts.last()) =~= parts);
    }
}

/// Joined components begin as the first of them does.
proof fn lemma_joined_begins(parts: Seq<Seq<char>>)
    requires
        parts.len() > 0,
        parts[0].len() > 0,
    ensures
        text::join(parts, seq!['/']).len() > 0,
        text::join(parts, seq!['/'])[0] == parts[0][0],
    decreases parts.len(),
{
    if parts.len() > 1 {
        lemma_joined_begins(parts.drop_last());
    }
}

/// A path is read back from its text: the same components in the same order,
/// from the top where it begins there.
pub proof fn law_path_is_read_back_from_its_text(p: PathView)
    requires
        forall|i: int| 0 <= i < p.parts.len() ==> is_component(#[trigger] p.parts[i]),
    ensures
        path_of(p.text()) == p,
{
    let slash = CharClass::Is('/');
    let joined = text::join(p.parts, seq!['/']);
    let s = p.text();
    lemma_components_are_kept(p.parts);
    if p.parts.len() > 0 {
        assert forall|i: int| 0 <= i < p.parts.len() implies text::free_of(
            #[trigger] p.parts[i],
            slash,
        ) by {
            assert(is_component(p.parts[i]));
        }
        text::law_split_undoes_join(p.parts, '/', slash);
        assert(is_component(p.parts[0]));
        lemma_joined_begins(p.parts);
        assert(!slash.holds(p.parts[0][0]));
    } else {
        text::lemma_first_where(joined, slash, true);
        assert(text::split(joined, slash) =~= seq![joined]);
        lemma_components_are_kept(p.parts);
        assert(seq![joined] =~= seq![Seq::<char>::empty()] + p.parts);
    }
    if p.absolute {
        assert(s[0] == '/');
        text::lemma_first_where_is(s, slash, true, 0);
        assert(s.skip(1) =~= joined);
        assert(s.take(0) =~= Seq::<char>::empty());
        assert(text::split(s, slash) =~= seq![Seq::<char>::empty()] + text::split(joined, slash));
        if p.parts.len() == 0 {
            let twice = seq![Seq::<char>::empty()] + seq![joined];
            assert(twice.drop_last() =~= seq![joined]);
            assert(twice.last().len() == 0);
        }
    }
    assert(path_of(s).parts =~= p.parts);
}

} // verus!
