//! The in-memory vocabulary store: headwords mapped to per-language
//! translations.
//!
//! Both levels are kept as vectors of key/value pairs with distinct keys (a
//! type invariant), and are read as finite maps through `assoc::map_of`.

use vstd::prelude::*;
use vstd::string::StringExecFns;
use crate::assoc::{map_of, distinct_keys, has_key};
use crate::assoc::{
    lemma_map_of_dom, lemma_map_of_index, lemma_map_of_absent, lemma_map_of_update,
    lemma_map_of_push, lemma_map_of_len,
};
use crate::text::str_eq;

verus! {

/// The characters of an optional string.
pub open spec fn opt_chars(r: Option<String>) -> Option<Seq<char>> {
    match r {
        Some(s) => Some(s@),
        None => None,
    }
}

/// What looking a language up in one entry's translation map yields.
pub open spec fn lookup_translation(m: Map<Seq<char>, Seq<char>>, l: Seq<char>) -> Option<
    Seq<char>,
> {
    if m.dom().contains(l) {
        Some(m[l])
    } else {
        None
    }
}

/// What looking a headword and language up in the whole store yields.
pub open spec fn lookup(
    m: Map<Seq<char>, Map<Seq<char>, Seq<char>>>,
    w: Seq<char>,
    l: Seq<char>,
) -> Option<Seq<char>> {
    if m.dom().contains(w) {
        lookup_translation(m[w], l)
    } else {
        None
    }
}

/// One headword's language-to-translation mapping.
pub struct Translations {
    pairs: Vec<(String, String)>,
}

impl Translations {
    /// The sequence of language/translation pairs, as character sequences.
    pub closed spec fn kv(self) -> Seq<(Seq<char>, Seq<char>)> {
        self.pairs@.map_values(|p: (String, String)| (p.0@, p.1@))
    }

    #[verifier::type_invariant]
    closed spec fn wf(self) -> bool {
        distinct_keys(self.kv())
    }

    /// An empty translation map.
    pub fn new() -> (r: Translations)
        ensures
            r@ == Map::<Seq<char>, Seq<char>>::empty(),
            r.kv() == Seq::<(Seq<char>, Seq<char>)>::empty(),
    {
        let r = Translations { pairs: Vec::new() };
        proof {
            assert(r.kv() =~= Seq::<(Seq<char>, Seq<char>)>::empty());
        }
        r
    }

    /// The index of the pair carrying `language`, if any.
    fn find_idx(&self, language: &str) -> (r: Option<usize>)
        ensures
            match r {
                Some(i) => i < self.kv().len() && self.kv()[i as int].0 == language@,
                None => !has_key(self.kv(), language@),
            },
    {
        let n = self.pairs.len();
        let mut i: usize = 0;
        while i < n
            invariant
                0 <= i <= n,
                n == self.kv().len(),
                forall|j: int| 0 <= j < i ==> self.kv()[j].0 != language@,
            decreases n - i,
        {
            if str_eq(self.pairs[i].0.as_str(), language) {
                return Some(i);
            }
            i = i + 1;
        }
        None
    }

    /// Inserts or replaces the translation for `language`.
    pub fn insert(&mut self, language: String, translation: String)
        ensures
            final(self)@ == old(self)@.insert(language@, translation@),
            old(self)@.dom().contains(language@) ==> exists|i: int|
                0 <= i < old(self).kv().len() && old(self).kv()[i].0 == language@
                    && final(self).kv() == old(self).kv().update(i, (language@, translation@)),
            !old(self)@.dom().contains(language@) ==> final(self).kv() == old(self).kv().push(
                (language@, translation@),
            ),
    {
        proof {
            use_type_invariant(&*self);
            lemma_map_of_dom(self.kv());
        }
        let idx = self.find_idx(language.as_str());
        let mut pairs: Vec<(String, String)> = Vec::new();
        core::mem::swap(&mut self.pairs, &mut pairs);
        let ghost old_kv = pairs@.map_values(|p: (String, String)| (p.0@, p.1@));
        match idx {
            Some(i) => {
                pairs.remove(i);
                pairs.insert(i, (language, translation));
                proof {
                    let new_kv = pairs@.map_values(|p: (String, String)| (p.0@, p.1@));
                    assert(new_kv =~= old_kv.update(i as int, (language@, translation@)));
                    lemma_map_of_update(old_kv, i as int, translation@);
                    assert(distinct_keys(new_kv));
                }
            },
            None => {
                pairs.push((language, translation));
                proof {
                    let new_kv = pairs@.map_values(|p: (String, String)| (p.0@, p.1@));
                    assert(new_kv =~= old_kv.push((language@, translation@)));
                    lemma_map_of_push(old_kv, language@, translation@);
                    assert(distinct_keys(new_kv));
                }
            },
        }
        self.pairs = pairs;
    }

    /// The translation stored for `language`, if any.
    pub fn get(&self, language: &str) -> (r: Option<String>)
        ensures
            opt_chars(r) == lookup_translation(self@, language@),
    {
        proof {
            use_type_invariant(&*self);
        }
        match self.find_idx(language) {
            Some(i) => {
                proof {
                    lemma_map_of_index(self.kv(), i as int);
                }
                Some(self.pairs[i].1.clone())
            },
            None => {
                proof {
                    lemma_map_of_absent(self.kv(), language@);
                }
                None
            },
        }
    }

    /// How many languages this entry carries.
    pub fn len(&self) -> (r: usize)
        ensures
            r == self@.dom().len(),
    {
        proof {
            use_type_invariant(&*self);
            lemma_map_of_len(self.kv());
        }
        self.pairs.len()
    }

    /// How many pairs this entry carries, for iteration.
    pub(crate) fn pair_count(&self) -> (r: usize)
        ensures
            r == self.kv().len(),
    {
        self.pairs.len()
    }

    /// The language and translation of the pair at `i`.
    pub(crate) fn pair_at(&self, i: usize) -> (r: (String, String))
        requires
            i < self.kv().len(),
        ensures
            (r.0@, r.1@) == self.kv()[i as int],
    {
        let p = &self.pairs[i];
        (p.0.clone(), p.1.clone())
    }
}

impl View for Translations {
    type V = Map<Seq<char>, Seq<char>>;

    closed spec fn view(&self) -> Map<Seq<char>, Seq<char>> {
        map_of(self.kv())
    }
}

/// How many of the listed entries carry the language `l`.
pub open spec fn count_with_language(
    s: Seq<(Seq<char>, Map<Seq<char>, Seq<char>>)>,
    l: Seq<char>,
) -> nat
    decreases s.len(),
{
    if s.len() == 0 {
        0
    } else {
        count_with_language(s.drop_last(), l) + if s.last().1.dom().contains(l) {
            1nat
        } else {
            0nat
        }
    }
}

/// A count never exceeds the number of entries.
pub proof fn lemma_count_bounded(s: Seq<(Seq<char>, Map<Seq<char>, Seq<char>>)>, l: Seq<char>)
    ensures
        count_with_language(s, l) <= s.len(),
    decreases s.len(),
{
    if s.len() > 0 {
        lemma_count_bounded(s.drop_last(), l);
    }
}

/// Taking one more entry raises the count by one exactly when that entry
/// carries the language.
proof fn lemma_count_take_step(
    s: Seq<(Seq<char>, Map<Seq<char>, Seq<char>>)>,
    l: Seq<char>,
    i: int,
)
    requires
        0 <= i < s.len(),
    ensures
        count_with_language(s.take(i + 1), l) == count_with_language(s.take(i), l) + if s[i].1.dom(
        ).contains(l) {
            1nat
        } else {
            0nat
        },
{
    assert(s.take(i + 1).drop_last() =~= s.take(i));
    assert(s.take(i + 1).last() == s[i]);
}

/// The per-language totals that `count_words_per_language` reports.
pub struct LanguageCounts {
    pairs: Vec<(String, usize)>,
}

impl LanguageCounts {
    /// The sequence of language/total pairs, as character sequences.
    pub closed spec fn kv(self) -> Seq<(Seq<char>, usize)> {
        self.pairs@.map_values(|p: (String, usize)| (p.0@, p.1))
    }

    #[verifier::type_invariant]
    closed spec fn wf(self) -> bool {
        distinct_keys(self.kv())
    }

    /// An empty table of totals.
    pub fn new() -> (r: LanguageCounts)
        ensures
            r@ == Map::<Seq<char>, usize>::empty(),
    {
        let r = LanguageCounts { pairs: Vec::new() };
        proof {
            assert(r.kv() =~= Seq::<(Seq<char>, usize)>::empty());
        }
        r
    }

    /// The index of the pair carrying `language`, if any.
    fn find_idx(&self, language: &str) -> (r: Option<usize>)
        ensures
            match r {
                Some(i) => i < self.kv().len() && self.kv()[i as int].0 == language@,
                None => !has_key(self.kv(), language@),
            },
    {
        let n = self.pairs.len();
        let mut i: usize = 0;
        while i < n
            invariant
                0 <= i <= n,
                n == self.kv().len(),
                forall|j: int| 0 <= j < i ==> self.kv()[j].0 != language@,
            decreases n - i,
        {
            if str_eq(self.pairs[i].0.as_str(), language) {
                return Some(i);
            }
            i = i + 1;
        }
        None
    }

    /// The total recorded for `language`, if any.
    pub fn get(&self, language: &str) -> (r: Option<usize>)
        ensures
            r == if self@.dom().contains(language@) {
                Some(self@[language@])
            } else {
                None::<usize>
            },
    {
        proof {
            use_type_invariant(&*self);
        }
        match self.find_idx(language) {
            Some(i) => {
                proof {
                    lemma_map_of_index(self.kv(), i as int);
                }
                Some(self.pairs[i].1)
            },
            None => {
                proof {
                    lemma_map_of_absent(self.kv(), language@);
                }
                None
            },
        }
    }

    /// Raises the total for `language` by one, starting it at one.
    fn bump(&mut self, language: String)
        requires
            old(self)@.dom().contains(language@) ==> old(self)@[language@] < usize::MAX,
        ensures
            final(self)@ == old(self)@.insert(
                language@,
                if old(self)@.dom().contains(language@) {
                    (old(self)@[language@] + 1) as usize
                } else {
                    1usize
                },
            ),
    {
        proof {
            use_type_invariant(&*self);
            lemma_map_of_dom(self.kv());
        }
        let idx = self.find_idx(language.as_str());
        let mut pairs: Vec<(String, usize)> = Vec::new();
        core::mem::swap(&mut self.pairs, &mut pairs);
        let ghost old_kv = pairs@.map_values(|p: (String, usize)| (p.0@, p.1));
        match idx {
            Some(i) => {
                proof {
                    lemma_map_of_index(old_kv, i as int);
                }
                let total = pairs[i].1;
                pairs.remove(i);
                pairs.insert(i, (language, total + 1));
                proof {
                    let new_kv = pairs@.map_values(|p: (String, usize)| (p.0@, p.1));
                    assert(new_kv =~= old_kv.update(i as int, (language@, (total + 1) as usize)));
                    lemma_map_of_update(old_kv, i as int, (total + 1) as usize);
                    assert(distinct_keys(new_kv));
                }
            },
            None => {
                pairs.push((language, 1));
                proof {
                    let new_kv = pairs@.map_values(|p: (String, usize)| (p.0@, p.1));
                    assert(new_kv =~= old_kv.push((language@, 1usize)));
                    lemma_map_of_push(old_kv, language@, 1usize);
                    assert(distinct_keys(new_kv));
                }
            },
        }
        self.pairs = pairs;
    }
}

impl View for LanguageCounts {
    type V = Map<Seq<char>, usize>;

    closed spec fn view(&self) -> Map<Seq<char>, usize> {
        map_of(self.kv())
    }
}

/// The vocabulary store: each headword owns its translation map.
pub struct VocabularyManager {
    words: Vec<(String, Translations)>,
}

impl VocabularyManager {
    /// The sequence of headword/translation-map pairs.
    pub closed spec fn kv(self) -> Seq<(Seq<char>, Map<Seq<char>, Seq<char>>)> {
        self.words@.map_values(|e: (String, Translations)| (e.0@, e.1@))
    }

    /// The entries down to single pairs, keeping both levels' order.
    pub closed spec fn table(self) -> Seq<(Seq<char>, Seq<(Seq<char>, Seq<char>)>)> {
        self.words@.map_values(|e: (String, Translations)| (e.0@, e.1.kv()))
    }

    #[verifier::type_invariant]
    closed spec fn wf(self) -> bool {
        &&& distinct_keys(self.kv())
        &&& forall|i: int|
            0 <= i < self.words@.len() ==> distinct_keys(#[trigger] self.words@[i].1.kv())
    }

    /// An empty dictionary.
    pub fn new() -> (r: VocabularyManager)
        ensures
            r@ == Map::<Seq<char>, Map<Seq<char>, Seq<char>>>::empty(),
            r.table() == Seq::<(Seq<char>, Seq<(Seq<char>, Seq<char>)>)>::empty(),
    {
        let r = VocabularyManager { words: Vec::new() };
        proof {
            assert(r.kv() =~= Seq::<(Seq<char>, Map<Seq<char>, Seq<char>>)>::empty());
            assert(r.table() =~= Seq::<(Seq<char>, Seq<(Seq<char>, Seq<char>)>)>::empty());
        }
        r
    }

    /// The index of the entry carrying `english`, if any.
    fn find_idx(&self, english: &str) -> (r: Option<usize>)
        ensures
            match r {
                Some(i) => i < self.kv().len() && self.kv()[i as int].0 == english@,
                None => !has_key(self.kv(), english@),
            },
    {
        let n = self.words.len();
        let mut i: usize = 0;
        while i < n
            invariant
                0 <= i <= n,
                n == self.kv().len(),
                forall|j: int| 0 <= j < i ==> self.kv()[j].0 != english@,
            decreases n - i,
        {
            if str_eq(self.words[i].0.as_str(), english) {
                return Some(i);
            }
            i = i + 1;
        }
        None
    }

    /// Inserts or overwrites the entry for `english` with the given
    /// translation map.
    pub fn add_word(&mut self, english: String, translations: Translations)
        ensures
            final(self)@ == old(self)@.insert(english@, translations@),
            old(self)@.dom().contains(english@) ==> exists|i: int|
                0 <= i < old(self).table().len() && old(self).table()[i].0 == english@
                    && final(self).table() == old(self).table().update(
                    i,
                    (english@, translations.kv()),
                ),
            !old(self)@.dom().contains(english@) ==> final(self).table() == old(
                self,
            ).table().push((english@, translations.kv())),
    {
        proof {
            use_type_invariant(&*self);
            use_type_invariant(&translations);
            lemma_map_of_dom(self.kv());
        }
        let ghost pre = *self;
        let idx = self.find_idx(english.as_str());
        let mut words: Vec<(String, Translations)> = Vec::new();
        core::mem::swap(&mut self.words, &mut words);
        let ghost old_kv = words@.map_values(|e: (String, Translations)| (e.0@, e.1@));
        let ghost old_table = words@.map_values(|e: (String, Translations)| (e.0@, e.1.kv()));
        let ghost tmap = translations@;
        let ghost tkv = translations.kv();
        match idx {
            Some(i) => {
                words.remove(i);
                words.insert(i, (english, translations));
                proof {
                    let new_kv = words@.map_values(|e: (String, Translations)| (e.0@, e.1@));
                    let new_table = words@.map_values(
                        |e: (String, Translations)| (e.0@, e.1.kv()),
                    );
                    assert(old_kv[i as int].0 == english@);
                    assert(old_table[i as int].0 == english@);
                    assert(new_kv =~= old_kv.update(i as int, (english@, tmap)));
                    assert(new_table =~= old_table.update(i as int, (english@, tkv)));
                    lemma_map_of_update(old_kv, i as int, tmap);
                    assert(distinct_keys(new_kv));
                }
            },
            None => {
                words.push((english, translations));
                proof {
                    let new_kv = words@.map_values(|e: (String, Translations)| (e.0@, e.1@));
                    let new_table = words@.map_values(
                        |e: (String, Translations)| (e.0@, e.1.kv()),
                    );
                    assert(new_kv =~= old_kv.push((english@, tmap)));
                    assert(new_table =~= old_table.push((english@, tkv)));
                    lemma_map_of_push(old_kv, english@, tmap);
                    assert(distinct_keys(new_kv));
                }
            },
        }
        self.words = words;
        proof {
            if let Some(i) = idx {
                assert(0 <= (i as int) < pre.table().len());
                assert(pre.table()[i as int].0 == english@);
                assert(self.table() =~= pre.table().update(i as int, (english@, tkv)));
            } else {
                assert(self.table() =~= pre.table().push((english@, tkv)));
            }
        }
    }

    /// The translation of `english` in `language`, when both exist.
    pub fn get_translation(&self, english: &str, language: &str) -> (r: Option<String>)
        ensures
            opt_chars(r) == lookup(self@, english@, language@),
    {
        proof {
            use_type_invariant(&*self);
        }
        match self.find_idx(english) {
            Some(i) => {
                proof {
                    lemma_map_of_index(self.kv(), i as int);
                }
                let entry = &self.words[i];
                entry.1.get(language)
            },
            None => {
                proof {
                    lemma_map_of_absent(self.kv(), english@);
                }
                None
            },
        }
    }

    /// Sets the translation of `english` in `language` and reports true; when
    /// `english` was never added, changes nothing and reports false.
    pub fn update_translation(&mut self, english: &str, language: &str, new_translation: String)
        -> (r: bool)
        ensures
            r == old(self)@.dom().contains(english@),
            !old(self)@.dom().contains(english@) ==> *final(self) == *old(self),
            old(self)@.dom().contains(english@) ==> final(self)@ == old(self)@.insert(
                english@,
                old(self)@[english@].insert(language@, new_translation@),
            ),
    {
        proof {
            use_type_invariant(&*self);
            lemma_map_of_dom(self.kv());
        }
        let idx = self.find_idx(english);
        match idx {
            Some(i) => {
                proof {
                    lemma_map_of_index(self.kv(), i as int);
                }
                let mut words: Vec<(String, Translations)> = Vec::new();
                core::mem::swap(&mut self.words, &mut words);
                let ghost old_kv = words@.map_values(|e: (String, Translations)| (e.0@, e.1@));
                let mut entry = words.remove(i);
                entry.1.insert(language.to_owned(), new_translation);
                let ghost emap = entry.1@;
                proof {
                    use_type_invariant(&entry.1);
                }
                words.insert(i, entry);
                proof {
                    let new_kv = words@.map_values(|e: (String, Translations)| (e.0@, e.1@));
                    assert(new_kv =~= old_kv.update(i as int, (old_kv[i as int].0, emap)));
                    lemma_map_of_update(old_kv, i as int, emap);
                    assert(distinct_keys(new_kv));
                }
                self.words = words;
                true
            },
            None => {
                proof {
                    lemma_map_of_absent(self.kv(), english@);
                }
                false
            },
        }
    }

    /// Whether `english` has an entry.
    pub fn find_word(&self, english: &str) -> (r: bool)
        ensures
            r == self@.dom().contains(english@),
    {
        proof {
            use_type_invariant(&*self);
            lemma_map_of_dom(self.kv());
        }
        match self.find_idx(english) {
            Some(_) => true,
            None => false,
        }
    }

    /// How many headwords the store holds.
    pub fn word_count(&self) -> (r: usize)
        ensures
            r == self@.dom().len(),
    {
        proof {
            use_type_invariant(&*self);
            lemma_map_of_len(self.kv());
        }
        self.words.len()
    }

    /// For every language occurring in some entry, how many headwords carry
    /// it.
    pub fn count_words_per_language(&self) -> (r: LanguageCounts)
        ensures
            forall|l: Seq<char>| #[trigger]
                r@.dom().contains(l) <==> count_with_language(self.kv(), l) > 0,
            forall|l: Seq<char>| #[trigger]
                r@.dom().contains(l) ==> r@[l] == count_with_language(self.kv(), l),
            forall|l: Seq<char>| #[trigger]
                r@.dom().contains(l) <==> crate::laws::words_with_language(self@, l).len() > 0,
            forall|l: Seq<char>| #[trigger]
                r@.dom().contains(l) ==> r@[l] == crate::laws::words_with_language(self@, l).len(),
    {
        proof {
            use_type_invariant(&*self);
        }
        let mut counts = LanguageCounts::new();
        let n = self.words.len();
        let mut i: usize = 0;
        while i < n
            invariant
                0 <= i <= n,
                n == self.kv().len(),
                forall|j: int| 0 <= j < n ==> distinct_keys(#[trigger] self.words@[j].1.kv()),
                forall|l: Seq<char>| #[trigger]
                    counts@.dom().contains(l) <==> count_with_language(self.kv().take(i as int), l)
                        > 0,
                forall|l: Seq<char>| #[trigger]
                    counts@.dom().contains(l) ==> counts@[l] == count_with_language(
                        self.kv().take(i as int),
                        l,
                    ),
            decreases n - i,
        {
            let entry = &self.words[i];
            let m = entry.1.pair_count();
            let mut j: usize = 0;
            while j < m
                invariant
                    0 <= i < n,
                    0 <= j <= m,
                    n == self.kv().len(),
                    m == self.words@[i as int].1.kv().len(),
                    entry == self.words@[i as int],
                    forall|jj: int|
                        0 <= jj < n ==> distinct_keys(#[trigger] self.words@[jj].1.kv()),
                    forall|l: Seq<char>| #[trigger]
                        counts@.dom().contains(l) <==> count_with_language(
                            self.kv().take(i as int),
                            l,
                        ) + prefix_mark(self.words@[i as int].1.kv(), j as int, l) > 0,
                    forall|l: Seq<char>| #[trigger]
                        counts@.dom().contains(l) ==> counts@[l] == count_with_language(
                            self.kv().take(i as int),
                            l,
                        ) + prefix_mark(self.words@[i as int].1.kv(), j as int, l),
                decreases m - j,
            {
                let p = entry.1.pair_at(j);
                let ghost ikv = self.words@[i as int].1.kv();
                let ghost l0 = ikv[j as int].0;
                proof {
                    lemma_count_bounded(self.kv().take(i as int), l0);
                    assert(self.kv().take(i as int).len() == i as int);
                    assert(prefix_mark(ikv, j as int, l0) == 0) by {
                        if has_key(ikv.take(j as int), l0) {
                            let jj = choose|jj: int|
                                0 <= jj < j as int && ikv.take(j as int)[jj].0 == l0;
                            assert(ikv[jj].0 == ikv[j as int].0);
                            assert(false);
                        }
                    }
                }
                counts.bump(p.0);
                proof {
                    assert forall|l: Seq<char>|
                        prefix_mark(ikv, j as int + 1, l) == if l == l0 {
                            1nat
                        } else {
                            prefix_mark(ikv, j as int, l)
                        } by {
                        let tk1 = ikv.take(j as int + 1);
                        let tk0 = ikv.take(j as int);
                        if l == l0 {
                            assert(tk1[j as int].0 == l);
                            assert(has_key(tk1, l));
                        } else {
                            if has_key(tk1, l) {
                                let jj = choose|jj: int| 0 <= jj < tk1.len() && tk1[jj].0 == l;
                                assert(jj < j as int);
                                assert(tk0[jj].0 == l);
                            }
                            if has_key(tk0, l) {
                                let jj = choose|jj: int| 0 <= jj < tk0.len() && tk0[jj].0 == l;
                                assert(tk1[jj].0 == l);
                            }
                        }
                    }
                }
                j = j + 1;
            }
            proof {
                let ikv = self.words@[i as int].1.kv();
                let imap = self.kv()[i as int].1;
                lemma_map_of_dom(ikv);
                assert(ikv.take(m as int) =~= ikv);
                assert forall|l: Seq<char>|
                    count_with_language(self.kv().take(i as int), l) + prefix_mark(
                        ikv,
                        m as int,
                        l,
                    ) == count_with_language(self.kv().take(i as int + 1), l) by {
                    lemma_count_take_step(self.kv(), l, i as int);
                    assert(imap == map_of(ikv));
                    assert(imap.dom().contains(l) <==> has_key(ikv, l));
                }
            }
            i = i + 1;
        }
        proof {
            assert(self.kv().take(n as int) =~= self.kv());
            assert forall|l: Seq<char>|
                count_with_language(self.kv(), l) == crate::laws::words_with_language(
                    self@,
                    l,
                ).len() by {
                crate::laws::lemma_count_is_headword_count(self.kv(), l);
            }
        }
        counts
    }

    /// How many entries the store holds, for iteration.
    pub(crate) fn entry_count(&self) -> (r: usize)
        ensures
            r == self.table().len(),
    {
        self.words.len()
    }

    /// The headword of the entry at `i`.
    pub(crate) fn headword_at(&self, i: usize) -> (r: String)
        requires
            i < self.table().len(),
        ensures
            r@ == self.table()[i as int].0,
    {
        self.words[i].0.clone()
    }

    /// The translation map of the entry at `i`.
    pub(crate) fn translations_at(&self, i: usize) -> (r: &Translations)
        requires
            i < self.table().len(),
        ensures
            r.kv() == self.table()[i as int].1,
    {
        &self.words[i].1
    }

    /// One line per headword, `Headword: lang1: trans1, lang2: trans2`.
    pub fn render(&self) -> (r: String)
        ensures
            r@ == render_table(self.table()),
    {
        let mut out = String::new();
        let n = self.words.len();
        let mut i: usize = 0;
        while i < n
            invariant
                0 <= i <= n,
                n == self.table().len(),
                out@ == render_table(self.table().take(i as int)),
            decreases n - i,
        {
            let entry = &self.words[i];
            out.append(entry.0.as_str());
            out.append(": ");
            let m = entry.1.pair_count();
            let mut j: usize = 0;
            while j < m
                invariant
                    0 <= i < n,
                    0 <= j <= m,
                    n == self.table().len(),
                    entry == self.words@[i as int],
                    m == self.table()[i as int].1.len(),
                    out@ == render_table(self.table().take(i as int)) + self.table()[i as int].0
                        + ": "@ + render_pairs(self.table()[i as int].1.take(j as int)),
                decreases m - j,
            {
                if j > 0 {
                    out.append(", ");
                }
                let p = entry.1.pair_at(j);
                out.append(p.0.as_str());
                out.append(": ");
                out.append(p.1.as_str());
                proof {
                    let ps = self.table()[i as int].1;
                    assert(ps.take(j as int + 1).drop_last() =~= ps.take(j as int));
                    assert(ps.take(j as int + 1).last() == ps[j as int]);
                    if j == 0 {
                        assert(ps.take(1)[0] == ps[0]);
                    }
                    assert(out@ =~= render_table(self.table().take(i as int))
                        + self.table()[i as int].0 + ": "@ + render_pairs(
                        ps.take(j as int + 1),
                    ));
                }
                j = j + 1;
            }
            out.append("\n");
            proof {
                let t = self.table();
                assert(t[i as int].1.take(m as int) =~= t[i as int].1);
                assert(t.take(i as int + 1).drop_last() =~= t.take(i as int));
                assert(t.take(i as int + 1).last() == t[i as int]);
                assert(out@ =~= render_table(t.take(i as int + 1)));
            }
            i = i + 1;
        }
        proof {
            assert(self.table().take(n as int) =~= self.table());
        }
        out
    }
}

/// One entry's pairs as displayed: `lang1: trans1, lang2: trans2`.
pub open spec fn render_pairs(ps: Seq<(Seq<char>, Seq<char>)>) -> Seq<char>
    decreases ps.len(),
{
    if ps.len() == 0 {
        Seq::empty()
    } else if ps.len() == 1 {
        ps[0].0 + ": "@ + ps[0].1
    } else {
        render_pairs(ps.drop_last()) + ", "@ + ps.last().0 + ": "@ + ps.last().1
    }
}

/// The display of a whole store: one line per headword.
pub open spec fn render_table(t: Seq<(Seq<char>, Seq<(Seq<char>, Seq<char>)>)>) -> Seq<char>
    decreases t.len(),
{
    if t.len() == 0 {
        Seq::empty()
    } else {
        render_table(t.drop_last()) + t.last().0 + ": "@ + render_pairs(t.last().1) + "\n"@
    }
}

/// `u` occurs contiguously somewhere within `t`.
pub open spec fn contains_seq(t: Seq<char>, u: Seq<char>) -> bool {
    exists|a: int|
        0 <= a && a + u.len() <= t.len() && #[trigger] t.subrange(a, a + u.len()) == u
}

/// A sequence occurs within itself.
proof fn lemma_contains_self(u: Seq<char>)
    ensures
        contains_seq(u, u),
{
    assert(u.subrange(0, 0 + u.len() as int) =~= u);
}

/// An occurrence in the left half is one in the whole.
proof fn lemma_contains_in_left(x: Seq<char>, y: Seq<char>, u: Seq<char>)
    requires
        contains_seq(x, u),
    ensures
        contains_seq(x + y, u),
{
    let a = choose|a: int|
        0 <= a && a + u.len() <= x.len() && #[trigger] x.subrange(a, a + u.len()) == u;
    assert((x + y).subrange(a, a + u.len()) =~= x.subrange(a, a + u.len()));
}

/// An occurrence in the right half is one in the whole.
proof fn lemma_contains_in_right(x: Seq<char>, y: Seq<char>, u: Seq<char>)
    requires
        contains_seq(y, u),
    ensures
        contains_seq(x + y, u),
{
    let a = choose|a: int|
        0 <= a && a + u.len() <= y.len() && #[trigger] y.subrange(a, a + u.len()) == u;
    assert((x + y).subrange(x.len() + a, x.len() + a + u.len()) =~= y.subrange(a, a + u.len()));
}

/// An occurrence within an occurrence is an occurrence.
proof fn lemma_contains_trans(t: Seq<char>, u: Seq<char>, v: Seq<char>)
    requires
        contains_seq(t, u),
        contains_seq(u, v),
    ensures
        contains_seq(t, v),
{
    let a = choose|a: int|
        0 <= a && a + u.len() <= t.len() && #[trigger] t.subrange(a, a + u.len()) == u;
    let b = choose|b: int|
        0 <= b && b + v.len() <= u.len() && #[trigger] u.subrange(b, b + v.len()) == v;
    assert(t.subrange(a + b, a + b + v.len()) =~= u.subrange(b, b + v.len()));
}

/// The one line the rendering writes for an entry.
pub open spec fn line_of(e: (Seq<char>, Seq<(Seq<char>, Seq<char>)>)) -> Seq<char> {
    e.0 + ": "@ + render_pairs(e.1) + "\n"@
}

/// Each entry's whole line stands in the rendering.
proof fn lemma_render_has_line(t: Seq<(Seq<char>, Seq<(Seq<char>, Seq<char>)>)>, i: int)
    requires
        0 <= i < t.len(),
    ensures
        contains_seq(render_table(t), line_of(t[i])),
    decreases t.len(),
{
    assert(render_table(t) =~= render_table(t.drop_last()) + line_of(t.last()));
    if i == t.len() - 1 {
        lemma_contains_self(line_of(t[i]));
        lemma_contains_in_right(render_table(t.drop_last()), line_of(t.last()), line_of(t[i]));
    } else {
        lemma_render_has_line(t.drop_last(), i);
        assert(t.drop_last()[i] == t[i]);
        lemma_contains_in_left(render_table(t.drop_last()), line_of(t.last()), line_of(t[i]));
    }
}

/// Each pair's `language: translation` text stands in its entry's run of
/// pairs.
proof fn lemma_render_pairs_has_pair(ps: Seq<(Seq<char>, Seq<char>)>, j: int)
    requires
        0 <= j < ps.len(),
    ensures
        contains_seq(render_pairs(ps), ps[j].0 + ": "@ + ps[j].1),
    decreases ps.len(),
{
    let u = ps[j].0 + ": "@ + ps[j].1;
    if ps.len() == 1 {
        lemma_contains_self(u);
        assert(render_pairs(ps) =~= u);
    } else if j == ps.len() - 1 {
        let x = render_pairs(ps.drop_last()) + ", "@;
        assert(render_pairs(ps) =~= x + u);
        lemma_contains_self(u);
        lemma_contains_in_right(x, u, u);
    } else {
        lemma_render_pairs_has_pair(ps.drop_last(), j);
        assert(ps.drop_last()[j] == ps[j]);
        let y = ", "@ + ps.last().0 + ": "@ + ps.last().1;
        assert(render_pairs(ps) =~= render_pairs(ps.drop_last()) + y);
        lemma_contains_in_left(render_pairs(ps.drop_last()), y, u);
    }
}

/// For every entry of a rendered store, the output holds the entry's line —
/// the headword followed by `": "` opens it — and, within that line, each of
/// the entry's pairs as `language: translation`, whatever the order of
/// entries and pairs.
pub proof fn lemma_render_shows_entry(
    t: Seq<(Seq<char>, Seq<(Seq<char>, Seq<char>)>)>,
    i: int,
    j: int,
)
    requires
        0 <= i < t.len(),
        0 <= j < t[i].1.len(),
    ensures
        contains_seq(render_table(t), line_of(t[i])),
        contains_seq(render_table(t), t[i].0 + ": "@),
        contains_seq(render_table(t), t[i].1[j].0 + ": "@ + t[i].1[j].1),
{
    lemma_render_has_line(t, i);
    let head = t[i].0 + ": "@;
    assert(contains_seq(line_of(t[i]), head)) by {
        assert(line_of(t[i]).subrange(0, 0 + head.len() as int) =~= head);
    }
    lemma_contains_trans(render_table(t), line_of(t[i]), head);
    lemma_render_pairs_has_pair(t[i].1, j);
    let x = t[i].0 + ": "@;
    let y = render_pairs(t[i].1) + "\n"@;
    assert(line_of(t[i]) =~= x + y);
    lemma_contains_in_left(render_pairs(t[i].1), "\n"@, t[i].1[j].0 + ": "@ + t[i].1[j].1);
    assert(contains_seq(y, t[i].1[j].0 + ": "@ + t[i].1[j].1)) by {
        assert(y =~= render_pairs(t[i].1) + "\n"@);
    }
    lemma_contains_in_right(x, y, t[i].1[j].0 + ": "@ + t[i].1[j].1);
    lemma_contains_trans(render_table(t), line_of(t[i]), t[i].1[j].0 + ": "@ + t[i].1[j].1);
}

/// One when the language occurs among the first `j` pairs, else zero.
pub open spec fn prefix_mark(ikv: Seq<(Seq<char>, Seq<char>)>, j: int, l: Seq<char>) -> nat {
    if has_key(ikv.take(j), l) {
        1nat
    } else {
        0nat
    }
}

/// The store's mapping is what its table of entries denotes, so a saved and
/// reloaded store carries the same mapping.
pub proof fn lemma_view_of_table(vm: VocabularyManager)
    ensures
        vm@ == crate::json::map2_of(vm.table()),
{
    assert(vm.kv() =~= vm.table().map_values(
        |p: (Seq<char>, Seq<(Seq<char>, Seq<char>)>)| (p.0, map_of(p.1)),
    ));
}

impl View for VocabularyManager {
    type V = Map<Seq<char>, Map<Seq<char>, Seq<char>>>;

    closed spec fn view(&self) -> Map<Seq<char>, Map<Seq<char>, Seq<char>>> {
        map_of(self.kv())
    }
}

} // verus!
