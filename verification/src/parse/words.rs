//! Words and the single spaces between them.

use crate::parse::normalize::unified;
use crate::parse::tokens::{
    base_name, law_tokens_are_words, normal_form, separators, split_group, token_texts, tokens_from,
    tokens_of, TokenView,
};
use crate::text;
use crate::text::CharClass;
use vstd::prelude::*;

verus! {

/// Whether a character is whitespace.
pub open spec fn blank(c: char) -> bool {
    CharClass::Space.holds(c)
}

/// Whether a text is a word: not empty, and free of whitespace.
pub open spec fn is_word(w: Seq<char>) -> bool {
    w.len() > 0 && forall|i: int| 0 <= i < w.len() ==> !blank(#[trigger] w[i])
}

/// Whether all of some texts are words.
pub open spec fn are_words(all: Seq<Seq<char>>) -> bool {
    forall|i: int| 0 <= i < all.len() ==> is_word(#[trigger] all[i])
}

/// Whether a text has no whitespace but single spaces, and none at its ends.
pub open spec fn is_tight(s: Seq<char>) -> bool {
    &&& forall|i: int|
        0 <= i < s.len() && blank(#[trigger] s[i]) ==> s[i] == ' ' && 0 < i < s.len() - 1
    &&& forall|i: int, j: int|
        0 <= i < j < s.len() && j == i + 1 && blank(#[trigger] s[i]) ==> !blank(#[trigger] s[j])
}

/// The characters of a text that are not whitespace, in order.
pub open spec fn visible(s: Seq<char>) -> Seq<char>
    decreases s.len(),
{
    if s.len() == 0 {
        Seq::empty()
    } else if blank(s.last()) {
        visible(s.drop_last())
    } else {
        visible(s.drop_last()).push(s.last())
    }
}

/// The characters of a text that are neither whitespace nor separators, in
/// order.
pub open spec fn letters(s: Seq<char>) -> Seq<char>
    decreases s.len(),
{
    if s.len() == 0 {
        Seq::empty()
    } else if blank(s.last()) || separators().holds(s.last()) {
        letters(s.drop_last())
    } else {
        letters(s.drop_last()).push(s.last())
    }
}

/// What is visible of two texts one after the other.
proof fn lemma_visible_concat(a: Seq<char>, b: Seq<char>)
    ensures
        visible(a + b) == visible(a) + visible(b),
    decreases b.len(),
{
    if b.len() == 0 {
        assert(a + b =~= a);
        assert(visible(a) + visible(b) =~= visible(a));
    } else {
        assert((a + b).drop_last() =~= a + b.drop_last());
        assert((a + b).last() == b.last());
        lemma_visible_concat(a, b.drop_last());
        assert(visible(a + b) =~= visible(a) + visible(b));
    }
}

/// All of a word is visible.
proof fn lemma_word_is_visible(w: Seq<char>)
    requires
        forall|i: int| 0 <= i < w.len() ==> !blank(#[trigger] w[i]),
    ensures
        visible(w) == w,
    decreases w.len(),
{
    if w.len() > 0 {
        let head = w.drop_last();
        assert forall|i: int| 0 <= i < head.len() implies !blank(#[trigger] head[i]) by {
            assert(head[i] == w[i]);
        }
        lemma_word_is_visible(head);
        assert(!blank(w[w.len() - 1]));
        assert(visible(w) =~= w);
    }
}

/// A visible character is among the visible characters.
proof fn lemma_visible_has(s: Seq<char>, i: int)
    requires
        0 <= i < s.len(),
        !blank(s[i]),
    ensures
        visible(s).contains(s[i]),
    decreases s.len(),
{
    let head = visible(s.drop_last());
    if i == s.len() - 1 {
        assert(visible(s)[head.len() as int] == s[i]);
    } else {
        lemma_visible_has(s.drop_last(), i);
        let k = choose|k: int| 0 <= k < head.len() && head[k] == s[i];
        assert(visible(s)[k] == s[i]);
    }
}

/// The characters that are letters are no separators.
proof fn lemma_letters_are_plain(s: Seq<char>)
    ensures
        forall|i: int| 0 <= i < letters(s).len() ==> !separators().holds(#[trigger] letters(s)[i]),
    decreases s.len(),
{
    if s.len() > 0 {
        lemma_letters_are_plain(s.drop_last());
        let head = letters(s.drop_last());
        assert forall|i: int| 0 <= i < letters(s).len() implies !separators().holds(
            #[trigger] letters(s)[i],
        ) by {
            if i < head.len() {
                assert(letters(s)[i] == head[i]);
            }
        }
    }
}

/// What is visible once separators have been made spaces.
proof fn lemma_visible_spaced(s: Seq<char>)
    ensures
        visible(text::spaced(s, separators())) == letters(s),
    decreases s.len(),
{
    if s.len() > 0 {
        let t = text::spaced(s, separators());
        assert(t.drop_last() =~= text::spaced(s.drop_last(), separators()));
        lemma_visible_spaced(s.drop_last());
    }
}

/// The words of a text are words.
pub proof fn lemma_words_are_words(s: Seq<char>)
    ensures
        are_words(text::words(s)),
    decreases s.len(),
{
    let n = text::first_where(s, CharClass::Space, true);
    text::lemma_first_where(s, CharClass::Space, true);
    if s.len() == 0 {
    } else if n == 0 {
        lemma_words_are_words(s.skip(1));
    } else {
        let w = s.take(n);
        let rest = text::words(s.skip(n));
        lemma_words_are_words(s.skip(n));
        assert(is_word(w)) by {
            assert forall|i: int| 0 <= i < w.len() implies !blank(#[trigger] w[i]) by {
                assert(w[i] == s[i]);
            }
        }
        assert forall|i: int| 0 <= i < text::words(s).len() implies is_word(
            #[trigger] text::words(s)[i],
        ) by {
            if i > 0 {
                assert(text::words(s)[i] == rest[i - 1]);
            }
        }
    }
}

/// A text with a space and a word after it has one word more.
pub(crate) proof fn lemma_one_more_word(s: Seq<char>, w: Seq<char>)
    requires
        is_word(w),
    ensures
        text::words(s + seq![' '] + w) == text::words(s).push(w),
        text::words(w) == seq![w],
    decreases s.len(),
{
    let t = s + seq![' '] + w;
    let m = w.len() as int;
    text::lemma_first_where(w, CharClass::Space, true);
    text::lemma_first_where(t, CharClass::Space, true);
    text::lemma_first_where(s, CharClass::Space, true);
    assert(text::first_where(w, CharClass::Space, true) == m);
    assert(w.take(m) =~= w);
    assert(w.skip(m) =~= Seq::empty());
    assert(text::words(w.skip(m)) =~= Seq::empty());
    assert(text::words(w) =~= seq![w]);
    if s.len() == 0 {
        assert(t[0] == ' ');
        assert(t.skip(1) =~= w);
        assert(text::words(s).push(w) =~= seq![w]);
    } else {
        let n = text::first_where(s, CharClass::Space, true);
        if n == 0 {
            assert(t[0] == s[0]);
            assert(t.skip(1) =~= s.skip(1) + seq![' '] + w);
            lemma_one_more_word(s.skip(1), w);
        } else {
            assert(t.len() > n);
            assert(blank(t[n])) by {
                if n == s.len() {
                    assert(t[n] == ' ');
                } else {
                    assert(t[n] == s[n]);
                }
            }
            assert forall|j: int| 0 <= j < n implies !blank(#[trigger] t[j]) by {
                assert(t[j] == s[j]);
            }
            text::lemma_first_where_is(t, CharClass::Space, true, n);
            assert(t.take(n) =~= s.take(n));
            assert(t.skip(n) =~= s.skip(n) + seq![' '] + w);
            lemma_one_more_word(s.skip(n), w);
            assert(text::words(t) =~= text::words(s).push(w));
        }
    }
}

/// Words that are joined by spaces can be parted again. The text has no
/// whitespace but single spaces, and what is visible of it is the words.
pub(crate) proof fn lemma_joined_words(all: Seq<Seq<char>>)
    requires
        are_words(all),
    ensures
        text::words(text::join(all, seq![' '])) == all,
        is_tight(text::join(all, seq![' '])),
        all.len() > 0 ==> text::join(all, seq![' ']).len() > 0 && !blank(
            text::join(all, seq![' ']).last(),
        ),
        visible(text::join(all, seq![' '])) == all.flatten(),
    decreases all.len(),
{
    let t = text::join(all, seq![' ']);
    if all.len() == 0 {
        assert(text::words(t) =~= all);
        assert(all.flatten() =~= Seq::empty());
    } else {
        let head = all.drop_last();
        let w = all.last();
        assert(is_word(all[all.len() - 1]));
        assert(are_words(head)) by {
            assert forall|i: int| 0 <= i < head.len() implies is_word(#[trigger] head[i]) by {
                assert(head[i] == all[i]);
            }
        }
        lemma_joined_words(head);
        let front = text::join(head, seq![' ']);
        lemma_one_more_word(front, w);
        lemma_word_is_visible(w);
        assert(head.push(w) =~= all);
        lemma_flatten_push(head, w);
        if all.len() == 1 {
            assert(head =~= Seq::empty());
            assert(seq![w] =~= all);
            assert(t == w);
            assert(head.flatten() =~= Seq::<char>::empty());
            assert(all.flatten() =~= w);
        } else {
            assert(t == front + seq![' '] + w);
            lemma_visible_concat(front + seq![' '], w);
            lemma_visible_concat(front, seq![' ']);
            assert(visible(seq![' ']) =~= Seq::empty()) by {
                assert(seq![' '].drop_last() =~= Seq::empty());
                assert(visible(Seq::<char>::empty()) =~= Seq::empty());
            }
            assert(visible(t) =~= head.flatten() + w);
            let n = front.len() as int;
            assert forall|i: int| 0 <= i < t.len() && blank(#[trigger] t[i]) implies t[i] == ' '
                && 0 < i < t.len() - 1 by {
                if i < n {
                    assert(front[i] == t[i]);
                } else if i > n {
                    assert(t[i] == w[i - n - 1]);
                }
            }
            assert forall|i: int, j: int|
                0 <= i < j < t.len() && j == i + 1 && blank(#[trigger] t[i]) implies !blank(
                #[trigger] t[j],
            ) by {
                if i < n {
                    assert(front[i] == t[i]);
                    assert(front[j] == t[j]);
                } else {
                    assert(t[j] == w[j - n - 1]);
                }
            }
            assert(t.last() == w.last());
        }
    }
}

/// Texts and one more, one after the other.
proof fn lemma_flatten_push(all: Seq<Seq<char>>, w: Seq<char>)
    ensures
        all.push(w).flatten() == all.flatten() + w,
    decreases all.len(),
{
    if all.len() == 0 {
        let one = all.push(w);
        assert(one.first() == w);
        assert(one.drop_first() =~= Seq::empty());
        assert(one.drop_first().flatten() =~= Seq::empty());
        assert(one.flatten() =~= w);
        assert(all.flatten() =~= Seq::empty());
        assert(all.flatten() + w =~= w);
    } else {
        assert(all.push(w).drop_first() =~= all.drop_first().push(w));
        assert(all.push(w).first() == all.first());
        lemma_flatten_push(all.drop_first(), w);
        assert(all.push(w).flatten() =~= all.flatten() + w);
    }
}

/// What is visible of a text is its words.
proof fn lemma_words_are_visible(s: Seq<char>)
    ensures
        visible(s) == text::words(s).flatten(),
    decreases s.len(),
{
    let n = text::first_where(s, CharClass::Space, true);
    text::lemma_first_where(s, CharClass::Space, true);
    if s.len() == 0 {
        assert(text::words(s).flatten() =~= Seq::empty());
    } else if n == 0 {
        lemma_words_are_visible(s.skip(1));
        let one = s.take(1);
        assert(one + s.skip(1) =~= s);
        lemma_visible_concat(one, s.skip(1));
        assert(one.drop_last() =~= Seq::empty());
        assert(one.last() == s[0]);
        assert(visible(one.drop_last()) =~= Seq::empty());
        assert(visible(one) =~= Seq::empty());
        assert(visible(s) =~= visible(s.skip(1)));
    } else {
        lemma_words_are_visible(s.skip(n));
        let w = s.take(n);
        assert(w + s.skip(n) =~= s);
        lemma_visible_concat(w, s.skip(n));
        assert forall|i: int| 0 <= i < w.len() implies !blank(#[trigger] w[i]) by {
            assert(w[i] == s[i]);
        }
        lemma_word_is_visible(w);
        let all = text::words(s);
        assert(all.first() == w);
        assert(all.drop_first() =~= text::words(s.skip(n)));
        assert(all.flatten() =~= w + text::words(s.skip(n)).flatten());
    }
}

/// Collapsing whitespace leaves no whitespace but single spaces, none of them
/// at an end. It keeps every other character in its place among the others,
/// and the words. A text that has been collapsed stays as it is.
pub proof fn law_collapsed_text_is_tight(s: Seq<char>)
    ensures
        is_tight(text::collapse(s)),
        visible(text::collapse(s)) == visible(s),
        text::words(text::collapse(s)) == text::words(s),
        text::collapse(text::collapse(s)) == text::collapse(s),
{
    lemma_words_are_words(s);
    lemma_joined_words(text::words(s));
    lemma_words_are_visible(s);
}

/// Unifying separators leaves no separator and no whitespace but single spaces,
/// none of them at an end. It keeps every other character in its place among
/// the others. Doing it again changes nothing.
pub proof fn law_unified_text_has_no_separator(s: Seq<char>)
    ensures
        forall|i: int|
            0 <= i < unified(s).len() ==> {
                let c = #[trigger] unified(s)[i];
                c != '.' && c != '_' && c != '+'
            },
        is_tight(unified(s)),
        visible(unified(s)) == letters(s),
        unified(unified(s)) == unified(s),
{
    let t = text::spaced(s, separators());
    let u = unified(s);
    law_collapsed_text_is_tight(t);
    lemma_visible_spaced(s);
    lemma_letters_are_plain(s);
    let seps = seq!['.', '_', '+'];
    assert(seps[0] == '.' && seps[1] == '_' && seps[2] == '+');
    assert forall|i: int| 0 <= i < u.len() implies !separators().holds(#[trigger] u[i]) by {
        if blank(u[i]) {
            assert(u[i] == ' ');
        } else {
            lemma_visible_has(u, i);
            let k = choose|k: int| 0 <= k < letters(s).len() && letters(s)[k] == u[i];
            assert(!separators().holds(letters(s)[k]));
        }
    }
    assert forall|i: int| 0 <= i < u.len() implies {
        let c = #[trigger] u[i];
        c != '.' && c != '_' && c != '+'
    } by {
        assert(!separators().holds(u[i]));
        assert(seps.contains('.') && seps.contains('_') && seps.contains('+'));
    }
    assert(text::spaced(u, separators()) =~= u);
}

/// A token stands where its span says: its text begins at the character before
/// which there are as many bytes.
pub open spec fn stands_at(s: Seq<char>, base: nat, t: TokenView, i: int) -> bool {
    &&& 0 <= i
    &&& i + t.text.len() <= s.len()
    &&& s.subrange(i, i + t.text.len()) == t.text
    &&& t.start == base + text::utf8_len(s.take(i))
    &&& t.end == t.start + text::utf8_len(t.text)
}

/// The place of a token in the rest of a text is one in the text.
proof fn lemma_stands_further(s: Seq<char>, base: nat, m: int, t: TokenView, i: int)
    requires
        0 <= m <= s.len(),
        stands_at(s.skip(m), base + text::utf8_len(s.take(m)), t, i),
    ensures
        stands_at(s, base, t, m + i),
{
    assert(s.take(m + i) =~= s.take(m) + s.skip(m).take(i));
    text::lemma_utf8_len_concat(s.take(m), s.skip(m).take(i));
    assert(s.subrange(m + i, m + i + t.text.len()) =~= s.skip(m).subrange(i, i + t.text.len()));
}

/// Every token stands where its span says.
pub proof fn law_tokens_stand_at_their_spans(s: Seq<char>, base: nat, k: int)
    requires
        0 <= k < tokens_from(s, base).len(),
    ensures
        exists|i: int| #[trigger] stands_at(s, base, tokens_from(s, base)[k], i),
    decreases s.len(),
{
    let all = tokens_from(s, base);
    let n = text::first_where(s, CharClass::Space, true);
    text::lemma_first_where(s, CharClass::Space, true);
    if n == 0 {
        let one = s.take(1);
        assert(text::utf8_len(one) == text::char_width(s[0])) by {
            assert(one[0] == s[0]);
            assert(one.skip(1) =~= Seq::empty());
            assert(text::utf8_len(one.skip(1)) == 0);
        }
        let next = base + text::char_width(s[0]);
        law_tokens_stand_at_their_spans(s.skip(1), next, k);
        let i = choose|i: int| #[trigger]
            stands_at(s.skip(1), next, tokens_from(s.skip(1), next)[k], i);
        lemma_stands_further(s, base, 1, all[k], i);
    } else if k == 0 {
        assert(s.take(0) =~= Seq::empty());
        assert(s.subrange(0, n) =~= s.take(n));
        assert(stands_at(s, base, all[0], 0));
    } else {
        let next = base + text::utf8_len(s.take(n));
        let tail = tokens_from(s.skip(n), next);
        assert(all[k] == tail[k - 1]);
        law_tokens_stand_at_their_spans(s.skip(n), next, k - 1);
        let i = choose|i: int| #[trigger] stands_at(s.skip(n), next, tail[k - 1], i);
        lemma_stands_further(s, base, n, all[k], i);
    }
}

/// Whether each token stands one byte after the one before it.
pub open spec fn one_apart(all: Seq<TokenView>) -> bool {
    forall|k: int, j: int|
        0 <= k < j < all.len() && j == k + 1 ==> (#[trigger] all[k]).end + 1 == (
        #[trigger] all[j]).start
}

/// Tokens of a text without whitespace but single spaces stand one byte apart,
/// the first at the beginning.
proof fn lemma_tokens_one_apart(s: Seq<char>, base: nat)
    requires
        is_tight(s),
    ensures
        s.len() > 0 ==> tokens_from(s, base).len() > 0 && tokens_from(s, base)[0].start == base,
        one_apart(tokens_from(s, base)),
    decreases s.len(),
{
    let all = tokens_from(s, base);
    let n = text::first_where(s, CharClass::Space, true);
    text::lemma_first_where(s, CharClass::Space, true);
    if s.len() > 0 {
        assert(n > 0) by {
            if n == 0 {
                assert(blank(s[0]));
            }
        }
        let end = base + text::utf8_len(s.take(n));
        let rest = s.skip(n);
        let tail = tokens_from(rest, end);
        if n < s.len() {
            let more = rest.skip(1);
            assert(blank(s[n]));
            assert(rest[0] == s[n]);
            assert(text::char_width(' ') == 1);
            assert(tail == tokens_from(more, end + 1));
            assert(is_tight(more)) by {
                assert forall|i: int|
                    0 <= i < more.len() && blank(#[trigger] more[i]) implies more[i] == ' ' && 0
                    < i < more.len() - 1 by {
                    assert(more[i] == s[n + 1 + i]);
                }
                assert forall|i: int, j: int|
                    0 <= i < j < more.len() && j == i + 1 && blank(#[trigger] more[i]) implies
                    !blank(#[trigger] more[j]) by {
                    assert(more[i] == s[n + 1 + i]);
                    assert(more[j] == s[n + 1 + j]);
                }
            }
            lemma_tokens_one_apart(more, end + 1);
            assert(more.len() > 0);
        } else {
            assert(rest =~= Seq::empty());
        }
        assert forall|k: int, j: int| 0 <= k < j < all.len() && j == k + 1 implies (
        #[trigger] all[k]).end + 1 == (#[trigger] all[j]).start by {
            assert(all[j] == tail[k]);
            if k > 0 {
                assert(all[k] == tail[k - 1]);
            }
        }
    }
}

/// Whether a token stands where its span says.
pub open spec fn stands(s: Seq<char>, t: TokenView) -> bool {
    exists|i: int| stands_at(s, 0, t, i)
}

/// Whether every token stands where its span says.
pub open spec fn stand_at_spans(all: Seq<TokenView>, s: Seq<char>) -> bool {
    forall|k: int| 0 <= k < all.len() ==> #[trigger] stands(s, all[k])
}

/// Every token of a text stands where its span says.
proof fn lemma_all_stand_at_spans(s: Seq<char>)
    ensures
        stand_at_spans(tokens_from(s, 0), s),
{
    let all = tokens_from(s, 0);
    assert forall|k: int| 0 <= k < all.len() implies #[trigger] stands(s, all[k]) by {
        law_tokens_stand_at_their_spans(s, 0, k);
    }
}

/// Whether tokens make up a text: none is empty or holds whitespace, each
/// stands where its span says and one byte after the one before it, and joined
/// by single spaces they are the text.
pub open spec fn make_up(all: Seq<TokenView>, s: Seq<char>) -> bool {
    &&& are_words(token_texts(all))
    &&& text::join(token_texts(all), seq![' ']) == s
    &&& stand_at_spans(all, s)
    &&& one_apart(all)
}

/// The tokens of a text that has been collapsed make it up.
pub proof fn law_tokens_make_up_collapsed_text(s: Seq<char>)
    ensures
        make_up(tokens_from(text::collapse(s), 0), text::collapse(s)),
{
    let n = text::collapse(s);
    let all = tokens_from(n, 0);
    assert(are_words(token_texts(all)) && text::join(token_texts(all), seq![' ']) == n) by {
        law_collapsed_text_is_tight(s);
        law_tokens_are_words(n, 0);
        lemma_words_are_words(n);
    }
    assert(one_apart(all)) by {
        law_collapsed_text_is_tight(s);
        lemma_tokens_one_apart(n, 0);
    }
    assert(stand_at_spans(all, n)) by {
        lemma_all_stand_at_spans(n);
    }
}

/// The tokens of a name make up its normalised form.
pub proof fn law_tokens_make_up_the_normal_form(name: Seq<char>)
    ensures
        make_up(tokens_of(name), normal_form(name)),
{
    law_tokens_make_up_collapsed_text(
        text::spaced(split_group(base_name(name)).0, separators()),
    );
}

} // verus!
