//! Association lists with string keys, and their reading as finite maps.
//!
//! The store keeps its entries in vectors of key/value pairs; these spec
//! functions say what map such a sequence of pairs denotes, and the lemmas
//! relate the sequence operations the executable code performs to map
//! operations on that denotation.

use vstd::prelude::*;

verus! {

/// The map denoted by a sequence of key/value pairs: later pairs win.
pub open spec fn map_of<V>(s: Seq<(Seq<char>, V)>) -> Map<Seq<char>, V>
    decreases s.len(),
{
    if s.len() == 0 {
        Map::empty()
    } else {
        map_of(s.drop_last()).insert(s.last().0, s.last().1)
    }
}

/// No key occurs twice in the sequence of pairs.
pub open spec fn distinct_keys<V>(s: Seq<(Seq<char>, V)>) -> bool {
    forall|i: int, j: int| 0 <= i < j < s.len() ==> s[i].0 != s[j].0
}

/// Some pair of the sequence carries the key `k`.
pub open spec fn has_key<V>(s: Seq<(Seq<char>, V)>, k: Seq<char>) -> bool {
    exists|i: int| 0 <= i < s.len() && s[i].0 == k
}

/// The domain of the denoted map is exactly the set of keys of the pairs,
/// and it is finite.
pub proof fn lemma_map_of_dom<V>(s: Seq<(Seq<char>, V)>)
    ensures
        map_of(s).dom().finite(),
        forall|k: Seq<char>| #[trigger] map_of(s).dom().contains(k) <==> has_key(s, k),
    decreases s.len(),
{
    if s.len() == 0 {
        assert(forall|k: Seq<char>| !has_key(Seq::<(Seq<char>, V)>::empty(), k));
    } else {
        lemma_map_of_dom(s.drop_last());
        assert forall|k: Seq<char>| #[trigger] map_of(s).dom().contains(k) implies has_key(s, k) by {
            if k == s.last().0 {
                assert(s[s.len() - 1].0 == k);
            } else {
                let i = choose|i: int| 0 <= i < s.drop_last().len() && s.drop_last()[i].0 == k;
                assert(s[i].0 == k);
            }
        }
        assert forall|k: Seq<char>| has_key(s, k) implies #[trigger] map_of(s).dom().contains(k) by {
            let i = choose|i: int| 0 <= i < s.len() && s[i].0 == k;
            if i < s.len() - 1 {
                assert(s.drop_last()[i].0 == k);
                assert(has_key(s.drop_last(), k));
            }
        }
    }
}

/// Under distinct keys, the pair at index `i` gives the value of the map at
/// its key.
pub proof fn lemma_map_of_index<V>(s: Seq<(Seq<char>, V)>, i: int)
    requires
        distinct_keys(s),
        0 <= i < s.len(),
    ensures
        map_of(s).dom().contains(s[i].0),
        map_of(s)[s[i].0] == s[i].1,
    decreases s.len(),
{
    if i == s.len() - 1 {
        lemma_map_of_dom(s);
        assert(has_key(s, s[i].0));
    } else {
        assert(distinct_keys(s.drop_last()));
        lemma_map_of_index(s.drop_last(), i);
        assert(s.drop_last()[i] == s[i]);
        assert(s[i].0 != s.last().0);
    }
}

/// A key that no pair carries is outside the denoted map.
pub proof fn lemma_map_of_absent<V>(s: Seq<(Seq<char>, V)>, k: Seq<char>)
    requires
        !has_key(s, k),
    ensures
        !map_of(s).dom().contains(k),
{
    lemma_map_of_dom(s);
}

/// Replacing the value of the pair at index `i`, keeping its key, updates the
/// denoted map at that key.
pub proof fn lemma_map_of_update<V>(s: Seq<(Seq<char>, V)>, i: int, v: V)
    requires
        distinct_keys(s),
        0 <= i < s.len(),
    ensures
        map_of(s.update(i, (s[i].0, v))) == map_of(s).insert(s[i].0, v),
    decreases s.len(),
{
    let t = s.update(i, (s[i].0, v));
    if i == s.len() - 1 {
        assert(t.drop_last() =~= s.drop_last());
        assert(t.last() == (s[i].0, v));
        assert(map_of(t) =~= map_of(s).insert(s[i].0, v));
    } else {
        assert(distinct_keys(s.drop_last()));
        assert(s.drop_last()[i] == s[i]);
        lemma_map_of_update(s.drop_last(), i, v);
        assert(t.drop_last() =~= s.drop_last().update(i, (s[i].0, v)));
        assert(t.last() == s.last());
        assert(s[i].0 != s.last().0);
        assert(map_of(t) =~= map_of(s).insert(s[i].0, v));
    }
}

/// Appending a pair inserts its key into the denoted map.
pub proof fn lemma_map_of_push<V>(s: Seq<(Seq<char>, V)>, k: Seq<char>, v: V)
    ensures
        map_of(s.push((k, v))) == map_of(s).insert(k, v),
{
    assert(s.push((k, v)).drop_last() =~= s);
    assert(s.push((k, v)).last() == (k, v));
}

/// Prepending a pair leaves the denoted map as it was when the key occurs
/// again later (later pairs win), and otherwise inserts it.
pub proof fn lemma_map_of_cons<V>(p: (Seq<char>, V), s: Seq<(Seq<char>, V)>)
    ensures
        map_of(seq![p] + s) == if has_key(s, p.0) {
            map_of(s)
        } else {
            map_of(s).insert(p.0, p.1)
        },
    decreases s.len(),
{
    let c = seq![p] + s;
    if s.len() == 0 {
        assert(c.len() == 1);
        assert(c.drop_last() =~= Seq::<(Seq<char>, V)>::empty());
        assert(c.last() == p);
        assert(!has_key(s, p.0));
        assert(map_of(c) == map_of(c.drop_last()).insert(c.last().0, c.last().1));
        assert(map_of(c.drop_last()) == Map::<Seq<char>, V>::empty());
        assert(map_of(s) == Map::<Seq<char>, V>::empty());
        assert(map_of(c) =~= map_of(s).insert(p.0, p.1));
    } else {
        let s0 = s.drop_last();
        assert(c.drop_last() =~= seq![p] + s0);
        assert(c.last() == s.last());
        lemma_map_of_cons(p, s0);
        if p.0 == s.last().0 {
            assert(s[s.len() - 1].0 == p.0);
            assert(has_key(s, p.0));
            if has_key(s0, p.0) {
                assert(map_of(c) =~= map_of(s));
            } else {
                assert(map_of(c) =~= map_of(s));
            }
        } else {
            if has_key(s0, p.0) {
                let i = choose|i: int| 0 <= i < s0.len() && s0[i].0 == p.0;
                assert(s[i].0 == p.0);
                assert(has_key(s, p.0));
                assert(map_of(c) =~= map_of(s));
            } else {
                assert(!has_key(s, p.0)) by {
                    if has_key(s, p.0) {
                        let i = choose|i: int| 0 <= i < s.len() && s[i].0 == p.0;
                        assert(i < s.len() - 1);
                        assert(s0[i].0 == p.0);
                        assert(false);
                    }
                }
                assert(map_of(c) =~= map_of(s).insert(p.0, p.1));
            }
        }
    }
}

/// Under distinct keys, the denoted map has exactly one entry per pair.
pub proof fn lemma_map_of_len<V>(s: Seq<(Seq<char>, V)>)
    requires
        distinct_keys(s),
    ensures
        map_of(s).dom().len() == s.len(),
    decreases s.len(),
{
    if s.len() > 0 {
        assert(distinct_keys(s.drop_last()));
        lemma_map_of_len(s.drop_last());
        lemma_map_of_dom(s.drop_last());
        assert(!has_key(s.drop_last(), s.last().0)) by {
            if has_key(s.drop_last(), s.last().0) {
                let i = choose|i: int|
                    0 <= i < s.drop_last().len() && s.drop_last()[i].0 == s.last().0;
                assert(s[i].0 == s[s.len() - 1].0);
                assert(false);
            }
        }
        assert(map_of(s).dom() =~= map_of(s.drop_last()).dom().insert(s.last().0));
    }
}

} // verus!
