//! Store-wide laws, stated over the map model that the store's contracts use.

use vstd::prelude::*;
use crate::assoc::{map_of, distinct_keys, has_key, lemma_map_of_dom};
use crate::store::{lookup, count_with_language};

verus! {

/// After `add_word(w, t)` the headword `w` is found, whatever the store held
/// before; that it is not found before follows from `find_word`'s own
/// contract on any store without an entry for `w`.
pub proof fn lemma_find_after_add(
    m: Map<Seq<char>, Map<Seq<char>, Seq<char>>>,
    w: Seq<char>,
    t: Map<Seq<char>, Seq<char>>,
)
    ensures
        m.insert(w, t).dom().contains(w),
{
}

/// Immediately after `add_word(w, t)`, each language of `t` is returned with
/// the translation `t` gave it, and no other language is.
pub proof fn lemma_get_after_add(
    m: Map<Seq<char>, Map<Seq<char>, Seq<char>>>,
    w: Seq<char>,
    t: Map<Seq<char>, Seq<char>>,
    l: Seq<char>,
)
    ensures
        t.dom().contains(l) ==> lookup(m.insert(w, t), w, l) == Some(t[l]),
        !t.dom().contains(l) ==> lookup(m.insert(w, t), w, l) is None,
{
}

/// A headword never added, or a language absent under an existing headword,
/// yields no translation.
pub proof fn lemma_get_absent(
    m: Map<Seq<char>, Map<Seq<char>, Seq<char>>>,
    w: Seq<char>,
    l: Seq<char>,
)
    ensures
        !m.dom().contains(w) ==> lookup(m, w, l) is None,
        m.dom().contains(w) && !m[w].dom().contains(l) ==> lookup(m, w, l) is None,
{
}

/// The headwords of `m` whose translation map carries the language `l`.
pub open spec fn words_with_language(
    m: Map<Seq<char>, Map<Seq<char>, Seq<char>>>,
    l: Seq<char>,
) -> Set<Seq<char>> {
    m.dom().filter(|w: Seq<char>| m[w].dom().contains(l))
}

/// The per-language total that `count_words_per_language` reports equals, for
/// each language, the number of headwords whose translation map carries it.
pub proof fn lemma_count_is_headword_count(
    s: Seq<(Seq<char>, Map<Seq<char>, Seq<char>>)>,
    l: Seq<char>,
)
    requires
        distinct_keys(s),
    ensures
        count_with_language(s, l) == words_with_language(map_of(s), l).len(),
    decreases s.len(),
{
    if s.len() == 0 {
        assert(words_with_language(map_of(s), l) =~= Set::<Seq<char>>::empty());
    } else {
        let s0 = s.drop_last();
        let k = s.last().0;
        let v = s.last().1;
        assert(distinct_keys(s0));
        lemma_count_is_headword_count(s0, l);
        lemma_map_of_dom(s0);
        let m0 = map_of(s0);
        let m = map_of(s);
        assert(!has_key(s0, k)) by {
            if has_key(s0, k) {
                let i = choose|i: int| 0 <= i < s0.len() && s0[i].0 == k;
                assert(s[i].0 == s[s.len() - 1].0);
                assert(false);
            }
        }
        assert(!m0.dom().contains(k));
        m0.dom().lemma_len_filter(|w: Seq<char>| m0[w].dom().contains(l));
        if v.dom().contains(l) {
            assert(words_with_language(m, l) =~= words_with_language(m0, l).insert(k));
            assert(!words_with_language(m0, l).contains(k));
        } else {
            assert(words_with_language(m, l) =~= words_with_language(m0, l));
        }
    }
}

} // verus!
