//! Association lists keyed by character sequences, and their map model.
//! Registries and variable stores are kept as vectors of pairs with
//! pairwise-distinct keys; contracts speak about the corresponding
//! mathematical map.

use vstd::prelude::*;

verus! {

/// No two pairs share a key.
pub open spec fn distinct_keys<V>(ps: Seq<(Seq<char>, V)>) -> bool {
    forall|i: int, j: int| 0 <= i < j < ps.len() ==> ps[i].0 != ps[j].0
}

/// The map that an association list denotes (later pairs win, which is
/// irrelevant when the keys are distinct).
pub open spec fn assoc_map<V>(ps: Seq<(Seq<char>, V)>) -> Map<Seq<char>, V>
    decreases ps.len(),
{
    if ps.len() == 0 {
        Map::empty()
    } else {
        assoc_map(ps.drop_last()).insert(ps.last().0, ps.last().1)
    }
}

/// A key is in the map exactly when some pair holds it.
pub proof fn lemma_assoc_map_dom<V>(ps: Seq<(Seq<char>, V)>)
    ensures
        forall|k: Seq<char>|
            #[trigger] assoc_map(ps).contains_key(k) <==> exists|i: int|
                0 <= i < ps.len() && ps[i].0 == k,
    decreases ps.len(),
{
    if ps.len() > 0 {
        lemma_assoc_map_dom(ps.drop_last());
        assert forall|k: Seq<char>| #[trigger]
            assoc_map(ps).contains_key(k) implies exists|i: int|
            0 <= i < ps.len() && ps[i].0 == k by {
            if k == ps.last().0 {
                assert(ps[ps.len() - 1].0 == k);
            } else {
                assert(assoc_map(ps.drop_last()).contains_key(k));
                let i = choose|i: int| 0 <= i < ps.drop_last().len() && ps.drop_last()[i].0 == k;
                assert(ps[i] == ps.drop_last()[i]);
                assert(ps[i].0 == k);
            }
        }
        assert forall|k: Seq<char>|
            (exists|i: int| 0 <= i < ps.len() && ps[i].0 == k) implies #[trigger]
            assoc_map(ps).contains_key(k) by {
            let i = choose|i: int| 0 <= i < ps.len() && ps[i].0 == k;
            if i < ps.len() - 1 {
                assert(ps.drop_last()[i].0 == k);
                assert(exists|j: int|
                    0 <= j < ps.drop_last().len() && ps.drop_last()[j].0 == k);
                assert(assoc_map(ps.drop_last()).contains_key(k));
            }
        }
    }
}

/// With distinct keys, each pair gives the value the map holds at its key.
pub proof fn lemma_assoc_map_at<V>(ps: Seq<(Seq<char>, V)>)
    requires
        distinct_keys(ps),
    ensures
        forall|i: int|
            0 <= i < ps.len() ==> assoc_map(ps).contains_key(#[trigger] ps[i].0) && assoc_map(
                ps,
            )[ps[i].0] == ps[i].1,
    decreases ps.len(),
{
    if ps.len() > 0 {
        assert(distinct_keys(ps.drop_last())) by {
            assert forall|i: int, j: int| 0 <= i < j < ps.drop_last().len() implies
                ps.drop_last()[i].0 != ps.drop_last()[j].0 by {
                assert(ps[i].0 != ps[j].0);
            }
        }
        lemma_assoc_map_at(ps.drop_last());
        assert forall|i: int|
            0 <= i < ps.len() implies assoc_map(ps).contains_key(#[trigger] ps[i].0) && assoc_map(
            ps,
        )[ps[i].0] == ps[i].1 by {
            if i < ps.len() - 1 {
                assert(ps.drop_last()[i] == ps[i]);
                assert(ps[i].0 != ps.last().0);
            }
        }
    }
}

/// Appending a fresh pair inserts its binding.
pub proof fn lemma_assoc_map_push<V>(ps: Seq<(Seq<char>, V)>, k: Seq<char>, v: V)
    ensures
        assoc_map(ps.push((k, v))) == assoc_map(ps).insert(k, v),
{
    assert(ps.push((k, v)).drop_last() =~= ps);
    assert(ps.push((k, v)).last() == (k, v));
}

/// Updating the value at one position inserts the new binding at that key.
pub proof fn lemma_assoc_map_update<V>(ps: Seq<(Seq<char>, V)>, i: int, v: V)
    requires
        distinct_keys(ps),
        0 <= i < ps.len(),
    ensures
        assoc_map(ps.update(i, (ps[i].0, v))) == assoc_map(ps).insert(ps[i].0, v),
    decreases ps.len(),
{
    let q = ps.update(i, (ps[i].0, v));
    if i == ps.len() - 1 {
        assert(q.drop_last() =~= ps.drop_last());
        assert(q.last() == (ps[i].0, v));
        assert(assoc_map(q) =~= assoc_map(ps).insert(ps[i].0, v));
    } else {
        assert(distinct_keys(ps.drop_last())) by {
            assert forall|a: int, b: int| 0 <= a < b < ps.drop_last().len() implies
                ps.drop_last()[a].0 != ps.drop_last()[b].0 by {
                assert(ps[a].0 != ps[b].0);
            }
        }
        lemma_assoc_map_update(ps.drop_last(), i, v);
        assert(q.drop_last() =~= ps.drop_last().update(i, (ps[i].0, v))) by {
            assert(ps.drop_last()[i] == ps[i]);
        }
        assert(q.last() == ps.last());
        // the updated key differs from the last key, so the inserts commute
        assert(ps[i].0 != ps.last().0);
        assert(assoc_map(q) =~= assoc_map(ps).insert(ps[i].0, v));
    }
}

/// Removing one pair removes its binding.
pub proof fn lemma_assoc_map_remove<V>(ps: Seq<(Seq<char>, V)>, i: int)
    requires
        distinct_keys(ps),
        0 <= i < ps.len(),
    ensures
        assoc_map(ps.remove(i)) == assoc_map(ps).remove(ps[i].0),
    decreases ps.len(),
{
    let q = ps.remove(i);
    if i == ps.len() - 1 {
        assert(q =~= ps.drop_last());
        lemma_assoc_map_dom(ps.drop_last());
        assert forall|a: int| 0 <= a < ps.drop_last().len() implies
            ps.drop_last()[a].0 != ps[i].0 by {
            assert(ps[a].0 != ps[i].0);
        }
        assert(!assoc_map(ps.drop_last()).contains_key(ps[i].0));
        assert(assoc_map(q) =~= assoc_map(ps).remove(ps[i].0));
    } else {
        assert(distinct_keys(ps.drop_last())) by {
            assert forall|a: int, b: int| 0 <= a < b < ps.drop_last().len() implies
                ps.drop_last()[a].0 != ps.drop_last()[b].0 by {
                assert(ps[a].0 != ps[b].0);
            }
        }
        lemma_assoc_map_remove(ps.drop_last(), i);
        assert(q.drop_last() =~= ps.drop_last().remove(i)) by {
            assert(ps.drop_last()[i] == ps[i]);
        }
        assert(q.last() == ps.last());
        assert(ps[i].0 != ps.last().0);
        assert(assoc_map(q) =~= assoc_map(ps).remove(ps[i].0));
    }
}

/// Inserting a pair with a fresh key at any position inserts its binding.
pub proof fn lemma_assoc_map_insert_mid<V>(ps: Seq<(Seq<char>, V)>, p: int, k: Seq<char>, v: V)
    requires
        0 <= p <= ps.len(),
        forall|j: int| 0 <= j < ps.len() ==> (#[trigger] ps[j]).0 != k,
    ensures
        assoc_map(ps.insert(p, (k, v))) == assoc_map(ps).insert(k, v),
    decreases ps.len(),
{
    let q = ps.insert(p, (k, v));
    if p == ps.len() {
        assert(q =~= ps.push((k, v)));
        lemma_assoc_map_push(ps, k, v);
    } else {
        assert(q.last() == ps.last());
        assert(q.drop_last() =~= ps.drop_last().insert(p, (k, v)));
        assert forall|j: int|
            0 <= j < ps.drop_last().len() implies (#[trigger] ps.drop_last()[j]).0 != k by {
            assert(ps[j].0 != k);
        }
        lemma_assoc_map_insert_mid(ps.drop_last(), p, k, v);
        assert(ps.last().0 != k);
        assert(assoc_map(q) =~= assoc_map(ps).insert(k, v));
    }
}

/// First-match lookup in an association list.
pub open spec fn assoc_find<V>(ps: Seq<(Seq<char>, V)>, k: Seq<char>) -> Option<V>
    decreases ps.len(),
{
    if ps.len() == 0 {
        None
    } else if ps[0].0 == k {
        Some(ps[0].1)
    } else {
        assoc_find(ps.skip(1), k)
    }
}

/// Lookup at the key of the first pair holding it gives that pair's value.
pub proof fn lemma_assoc_find_first<V>(ps: Seq<(Seq<char>, V)>, i: int)
    requires
        0 <= i < ps.len(),
        forall|j: int| 0 <= j < i ==> (#[trigger] ps[j]).0 != ps[i].0,
    ensures
        assoc_find(ps, ps[i].0) == Some(ps[i].1),
    decreases ps.len(),
{
    if i > 0 {
        assert(ps[0].0 != ps[i].0);
        assert forall|j: int| 0 <= j < i - 1 implies (#[trigger] ps.skip(1)[j]).0 != ps.skip(
            1,
        )[i - 1].0 by {
            assert(ps[j + 1].0 != ps[i].0);
            assert(ps.skip(1)[i - 1] == ps[i]);
        }
        lemma_assoc_find_first(ps.skip(1), i - 1);
        assert(ps.skip(1)[i - 1] == ps[i]);
    }
}

/// Lookup of a key that no pair holds gives nothing.
pub proof fn lemma_assoc_find_absent<V>(ps: Seq<(Seq<char>, V)>, k: Seq<char>)
    requires
        forall|i: int| 0 <= i < ps.len() ==> ps[i].0 != k,
    ensures
        assoc_find(ps, k) is None,
    decreases ps.len(),
{
    if ps.len() > 0 {
        assert(ps[0].0 != k);
        assert forall|i: int| 0 <= i < ps.skip(1).len() implies ps.skip(1)[i].0 != k by {
            assert(ps[i + 1].0 != k);
        }
        lemma_assoc_find_absent(ps.skip(1), k);
    }
}

/// Two lists with the same keys and the same values away from position `i`
/// agree on lookups of every other key.
pub proof fn lemma_assoc_find_agree<V>(ps: Seq<(Seq<char>, V)>, qs: Seq<(Seq<char>, V)>, i: int)
    requires
        ps.len() == qs.len(),
        0 <= i < ps.len(),
        forall|j: int| 0 <= j < ps.len() ==> ps[j].0 == qs[j].0,
        forall|j: int| 0 <= j < ps.len() && j != i ==> ps[j].1 == qs[j].1,
    ensures
        forall|k: Seq<char>| k != ps[i].0 ==> assoc_find(ps, k) == assoc_find(qs, k),
    decreases ps.len(),
{
    if i == 0 {
        assert(ps.skip(1) =~= qs.skip(1)) by {
            assert forall|j: int| 0 <= j < ps.skip(1).len() implies ps.skip(1)[j] == qs.skip(
                1,
            )[j] by {
                assert(ps[j + 1].0 == qs[j + 1].0);
                assert(ps[j + 1].1 == qs[j + 1].1);
            }
        }
    } else {
        assert forall|j: int| 0 <= j < ps.skip(1).len() implies ps.skip(1)[j].0 == qs.skip(
            1,
        )[j].0 by {
            assert(ps[j + 1].0 == qs[j + 1].0);
        }
        assert forall|j: int| 0 <= j < ps.skip(1).len() && j != i - 1 implies ps.skip(1)[j].1
            == qs.skip(1)[j].1 by {
            assert(ps[j + 1].1 == qs[j + 1].1);
        }
        lemma_assoc_find_agree(ps.skip(1), qs.skip(1), i - 1);
        assert forall|k: Seq<char>| k != ps[i].0 implies assoc_find(ps, k) == assoc_find(
            qs,
            k,
        ) by {
            assert(qs[0].0 == ps[0].0);
            if ps[0].0 == k {
                assert(ps[0].1 == qs[0].1);
                assert(assoc_find(ps, k) == Some(ps[0].1));
                assert(assoc_find(qs, k) == Some(qs[0].1));
            } else {
                assert(assoc_find(ps, k) == assoc_find(ps.skip(1), k));
                assert(assoc_find(qs, k) == assoc_find(qs.skip(1), k));
                assert(ps.skip(1)[i - 1].0 == ps[i].0);
                assert(k != ps.skip(1)[i - 1].0);
            }
        }
    }
}

/// Lookup in a list with one more pair at the end: the old binding wins if
/// there is one, else the new pair answers for its own key.
pub proof fn lemma_assoc_find_push<V>(ps: Seq<(Seq<char>, V)>, p: (Seq<char>, V), k: Seq<char>)
    ensures
        assoc_find(ps.push(p), k) == (if assoc_find(ps, k) is Some {
            assoc_find(ps, k)
        } else if p.0 == k {
            Some(p.1)
        } else {
            None::<V>
        }),
    decreases ps.len(),
{
    if ps.len() == 0 {
        assert(ps.push(p)[0] == p);
        assert(ps.push(p).skip(1) =~= Seq::<(Seq<char>, V)>::empty());
        if p.0 == k {
            assert(assoc_find(ps.push(p), k) == Some(p.1));
        } else {
            assert(assoc_find(ps.push(p), k) == assoc_find(ps.push(p).skip(1), k));
        }
    } else {
        assert(ps.push(p)[0] == ps[0]);
        lemma_assoc_find_push(ps.skip(1), p, k);
        assert(ps.push(p).skip(1) =~= ps.skip(1).push(p));
        if ps[0].0 == k {
            assert(assoc_find(ps.push(p), k) == Some(ps[0].1));
            assert(assoc_find(ps, k) == Some(ps[0].1));
        } else {
            assert(assoc_find(ps.push(p), k) == assoc_find(ps.skip(1).push(p), k));
            assert(assoc_find(ps, k) == assoc_find(ps.skip(1), k));
        }
    }
}

} // verus!
