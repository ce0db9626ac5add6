//! Association lists keyed by byte strings, and the map each one denotes.
//! The index types of this crate store their entries as vectors of pairs
//! with pairwise-distinct keys; these lemmas let their methods speak in
//! terms of `Map` insertions.

use vstd::prelude::*;

verus! {

/// The map denoted by an association list; a later pair wins, though every
/// list used in this crate keeps its keys pairwise distinct.
pub open spec fn assoc_map<V>(s: Seq<(Seq<u8>, V)>) -> Map<Seq<u8>, V>
    decreases s.len(),
{
    if s.len() == 0 {
        Map::empty()
    } else {
        assoc_map(s.drop_last()).insert(s.last().0, s.last().1)
    }
}

/// No two pairs of the list share a key.
pub open spec fn distinct_keys<V>(s: Seq<(Seq<u8>, V)>) -> bool {
    forall|i: int, j: int| 0 <= i < j < s.len() ==> s[i].0 != s[j].0
}

/// A key is in the denoted map exactly when some pair carries it.
pub proof fn lemma_assoc_map_domain<V>(s: Seq<(Seq<u8>, V)>)
    ensures
        forall|w: Seq<u8>|
            #[trigger] assoc_map(s).contains_key(w) <==> exists|i: int|
                0 <= i < s.len() && s[i].0 == w,
    decreases s.len(),
{
    if s.len() > 0 {
        lemma_assoc_map_domain(s.drop_last());
        assert forall|w: Seq<u8>| #[trigger]
            assoc_map(s).contains_key(w) implies exists|i: int| 0 <= i < s.len() && s[i].0 == w by {
            if w == s.last().0 {
                assert(s[s.len() - 1].0 == w);
            } else {
                assert(assoc_map(s.drop_last()).contains_key(w));
                let i = choose|i: int| 0 <= i < s.drop_last().len() && s.drop_last()[i].0 == w;
                assert(s.drop_last()[i] == s[i]);
                assert(s[i].0 == w);
            }
        }
        assert forall|w: Seq<u8>|
            exists|i: int| 0 <= i < s.len() && s[i].0 == w implies #[trigger] assoc_map(
            s,
        ).contains_key(w) by {
            let i = choose|i: int| 0 <= i < s.len() && s[i].0 == w;
            if i < s.len() - 1 {
                assert(s.drop_last()[i].0 == w);
                assert(assoc_map(s.drop_last()).contains_key(w));
            } else {
                assert(w == s.last().0);
            }
        }
    }
}

/// With distinct keys, the denoted map sends each pair's key to its value.
pub proof fn lemma_assoc_map_index<V>(s: Seq<(Seq<u8>, V)>, k: int)
    requires
        distinct_keys(s),
        0 <= k < s.len(),
    ensures
        assoc_map(s).contains_key(s[k].0),
        assoc_map(s)[s[k].0] == s[k].1,
    decreases s.len(),
{
    if k < s.len() - 1 {
        assert(distinct_keys(s.drop_last())) by {
            assert(forall|i: int, j: int|
                0 <= i < j < s.drop_last().len() ==> s.drop_last()[i].0 == s[i].0
                    && s.drop_last()[j].0 == s[j].0);
        }
        lemma_assoc_map_index(s.drop_last(), k);
        assert(s.drop_last()[k] == s[k]);
        assert(s.last().0 != s[k].0);
    }
}

/// Replacing the value of the pair at `k` inserts into the denoted map.
pub proof fn lemma_assoc_map_update<V>(s: Seq<(Seq<u8>, V)>, k: int, v: V)
    requires
        distinct_keys(s),
        0 <= k < s.len(),
    ensures
        assoc_map(s.update(k, (s[k].0, v))) == assoc_map(s).insert(s[k].0, v),
    decreases s.len(),
{
    let t = s.update(k, (s[k].0, v));
    if k == s.len() - 1 {
        assert(t.drop_last() =~= s.drop_last());
        assert(t.last() == (s[k].0, v));
        assert(assoc_map(t) =~= assoc_map(s).insert(s[k].0, v));
    } else {
        assert(distinct_keys(s.drop_last())) by {
            assert(forall|i: int, j: int|
                0 <= i < j < s.drop_last().len() ==> s.drop_last()[i].0 == s[i].0
                    && s.drop_last()[j].0 == s[j].0);
        }
        assert(s.drop_last()[k] == s[k]);
        lemma_assoc_map_update(s.drop_last(), k, v);
        assert(t.drop_last() =~= s.drop_last().update(k, (s[k].0, v)));
        assert(t.last() == s.last());
        assert(s.last().0 != s[k].0);
        assert(assoc_map(t) =~= assoc_map(s).insert(s[k].0, v));
    }
}

/// Appending a pair inserts into the denoted map.
pub proof fn lemma_assoc_map_push<V>(s: Seq<(Seq<u8>, V)>, key: Seq<u8>, v: V)
    ensures
        assoc_map(s.push((key, v))) == assoc_map(s).insert(key, v),
{
    assert(s.push((key, v)).drop_last() =~= s);
    assert(s.push((key, v)).last() == (key, v));
}

} // verus!
