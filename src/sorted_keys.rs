use vstd::prelude::*;

use crate::expiration_index::{holds, BucketView};
use crate::keys::{lex_lt, lemma_lex_lt_irreflexive, lemma_lex_lt_transitive};

verus! {

/// Keys in strictly increasing byte order: sorted and without repeats.
pub open spec fn keys_sorted(keys: Seq<Seq<u8>>) -> bool {
    forall|i: int, j: int| 0 <= i < j < keys.len() ==> lex_lt(#[trigger] keys[i], #[trigger] keys[j])
}

/// `keys` sorted around position `i`: the ones before `k` stand before `i`, the rest after.
pub open spec fn sorted_position(keys: Seq<Seq<u8>>, i: int, k: Seq<u8>) -> bool {
    &&& 0 <= i <= keys.len()
    &&& forall|j: int| 0 <= j < i ==> lex_lt(#[trigger] keys[j], k)
    &&& forall|j: int| i <= j < keys.len() ==> lex_lt(k, #[trigger] keys[j])
}

/// The index holds exactly the keys that have a moment, each at its moment.
pub open spec fn matches_index(
    keys: Seq<Seq<u8>>,
    moments: Seq<Option<int>>,
    idx: Seq<BucketView>,
) -> bool {
    &&& keys.len() == moments.len()
    &&& forall|id: Seq<u8>, m: int|
        #[trigger] holds(idx, id, m) <==> exists|i: int|
            0 <= i < keys.len() && #[trigger] keys[i] == id && moments[i] == Some(m)
}

/// The values by key.
pub open spec fn keyed_map<T>(keys: Seq<Seq<u8>>, vals: Seq<T>) -> Map<Seq<u8>, T> {
    Map::new(
        |k: Seq<u8>| keys.contains(k),
        |k: Seq<u8>| vals[choose|i: int| 0 <= i < keys.len() && keys[i] == k],
    )
}

pub proof fn lemma_unique(keys: Seq<Seq<u8>>, i: int, j: int)
    requires
        keys_sorted(keys),
        0 <= i < keys.len(),
        0 <= j < keys.len(),
        keys[i] == keys[j],
    ensures
        i == j,
{
    lemma_lex_lt_irreflexive(keys[i]);
    if i < j {
        assert(lex_lt(keys[i], keys[j]));
    } else if j < i {
        assert(lex_lt(keys[j], keys[i]));
    }
}

pub proof fn lemma_keyed_map_at<T>(keys: Seq<Seq<u8>>, vals: Seq<T>, i: int)
    requires
        keys_sorted(keys),
        keys.len() == vals.len(),
        0 <= i < keys.len(),
    ensures
        keyed_map(keys, vals).contains_key(keys[i]),
        keyed_map(keys, vals)[keys[i]] == vals[i],
{
    assert(keys.contains(keys[i]));
    let j = choose|j: int| 0 <= j < keys.len() && keys[j] == keys[i];
    lemma_unique(keys, i, j);
}

pub proof fn lemma_absent(keys: Seq<Seq<u8>>, i: int, k: Seq<u8>)
    requires
        sorted_position(keys, i, k),
    ensures
        !keys.contains(k),
{
    lemma_lex_lt_irreflexive(k);
    if keys.contains(k) {
        let j = choose|j: int| 0 <= j < keys.len() && keys[j] == k;
        if j < i {
            assert(lex_lt(keys[j], k));
        } else {
            assert(lex_lt(k, keys[j]));
        }
    }
}

pub proof fn lemma_sorted_insert(keys: Seq<Seq<u8>>, i: int, k: Seq<u8>)
    requires
        keys_sorted(keys),
        sorted_position(keys, i, k),
    ensures
        keys_sorted(keys.insert(i, k)),
{
    let keys2 = keys.insert(i, k);
    assert forall|a: int, b: int| 0 <= a < b < keys2.len() implies lex_lt(
        #[trigger] keys2[a],
        #[trigger] keys2[b],
    ) by {
        if b < i {
            assert(lex_lt(keys[a], keys[b]));
        } else if a > i {
            assert(lex_lt(keys[a - 1], keys[b - 1]));
        } else if a == i {
            assert(keys2[b] == keys[b - 1]);
        } else if b == i {
            assert(keys2[a] == keys[a]);
        } else {
            lemma_lex_lt_transitive(keys[a], k, keys[b - 1]);
        }
    }
}

pub proof fn lemma_sorted_remove(keys: Seq<Seq<u8>>, i: int)
    requires
        keys_sorted(keys),
        0 <= i < keys.len(),
    ensures
        keys_sorted(keys.remove(i)),
{
    let keys2 = keys.remove(i);
    assert forall|a: int, b: int| 0 <= a < b < keys2.len() implies lex_lt(
        #[trigger] keys2[a],
        #[trigger] keys2[b],
    ) by {
        if b < i {
            assert(lex_lt(keys[a], keys[b]));
        } else if a >= i {
            assert(lex_lt(keys[a + 1], keys[b + 1]));
        } else {
            assert(lex_lt(keys[a], keys[b + 1]));
        }
    }
}

pub proof fn lemma_holds_at(keys: Seq<Seq<u8>>, moments: Seq<Option<int>>, idx: Seq<BucketView>, i: int, m: int)
    requires
        keys_sorted(keys),
        matches_index(keys, moments, idx),
        0 <= i < keys.len(),
    ensures
        holds(idx, keys[i], m) == (moments[i] == Some(m)),
{
    if holds(idx, keys[i], m) {
        let j = choose|j: int| 0 <= j < keys.len() && #[trigger] keys[j] == keys[i] && moments[j] == Some(m);
        lemma_unique(keys, i, j);
    }
}

pub proof fn lemma_holds_absent(keys: Seq<Seq<u8>>, moments: Seq<Option<int>>, idx: Seq<BucketView>, k: Seq<u8>, m: int)
    requires
        matches_index(keys, moments, idx),
        !keys.contains(k),
    ensures
        !holds(idx, k, m),
{
    if holds(idx, k, m) {
        let j = choose|j: int| 0 <= j < keys.len() && #[trigger] keys[j] == k && moments[j] == Some(m);
        assert(keys.contains(k));
    }
}

pub proof fn lemma_matches_insert(
    keys: Seq<Seq<u8>>,
    moments: Seq<Option<int>>,
    idx: Seq<BucketView>,
    idx2: Seq<BucketView>,
    i: int,
    k: Seq<u8>,
    mo: Option<int>,
)
    requires
        keys_sorted(keys),
        sorted_position(keys, i, k),
        matches_index(keys, moments, idx),
        forall|id: Seq<u8>, m: int|
            #[trigger] holds(idx2, id, m) == (holds(idx, id, m) || (id == k && mo == Some(m))),
    ensures
        matches_index(keys.insert(i, k), moments.insert(i, mo), idx2),
{
    let keys2 = keys.insert(i, k);
    let mom2 = moments.insert(i, mo);
    assert forall|id: Seq<u8>, m: int|
        #[trigger] holds(idx2, id, m) <==> exists|j: int|
            0 <= j < keys2.len() && #[trigger] keys2[j] == id && mom2[j] == Some(m) by {
        if holds(idx2, id, m) {
            if holds(idx, id, m) {
                let j = choose|j: int| 0 <= j < keys.len() && #[trigger] keys[j] == id && moments[j] == Some(m);
                if j < i {
                    assert(keys2[j] == keys[j] && mom2[j] == moments[j]);
                } else {
                    assert(keys2[j + 1] == keys[j] && mom2[j + 1] == moments[j]);
                }
            } else {
                assert(keys2[i] == k && mom2[i] == mo);
            }
        }
        if exists|j: int| 0 <= j < keys2.len() && #[trigger] keys2[j] == id && mom2[j] == Some(m) {
            let j = choose|j: int| 0 <= j < keys2.len() && #[trigger] keys2[j] == id && mom2[j] == Some(m);
            if j < i {
                assert(keys[j] == keys2[j] && moments[j] == mom2[j]);
                assert(holds(idx, id, m));
            } else if j > i {
                assert(keys[j - 1] == keys2[j] && moments[j - 1] == mom2[j]);
                assert(holds(idx, id, m));
            }
        }
    }
}

pub proof fn lemma_matches_remove(
    keys: Seq<Seq<u8>>,
    moments: Seq<Option<int>>,
    idx: Seq<BucketView>,
    idx2: Seq<BucketView>,
    i: int,
)
    requires
        keys_sorted(keys),
        matches_index(keys, moments, idx),
        0 <= i < keys.len(),
        forall|id: Seq<u8>, m: int|
            #[trigger] holds(idx2, id, m) == (holds(idx, id, m) && !(id == keys[i] && moments[i] == Some(m))),
    ensures
        matches_index(keys.remove(i), moments.remove(i), idx2),
{
    let keys2 = keys.remove(i);
    let mom2 = moments.remove(i);
    assert forall|id: Seq<u8>, m: int|
        #[trigger] holds(idx2, id, m) <==> exists|j: int|
            0 <= j < keys2.len() && #[trigger] keys2[j] == id && mom2[j] == Some(m) by {
        if holds(idx2, id, m) {
            let j = choose|j: int| 0 <= j < keys.len() && #[trigger] keys[j] == id && moments[j] == Some(m);
            if j < i {
                assert(keys2[j] == keys[j] && mom2[j] == moments[j]);
            } else if j > i {
                assert(keys2[j - 1] == keys[j] && mom2[j - 1] == moments[j]);
            }
        }
        if exists|j: int| 0 <= j < keys2.len() && #[trigger] keys2[j] == id && mom2[j] == Some(m) {
            let j = choose|j: int| 0 <= j < keys2.len() && #[trigger] keys2[j] == id && mom2[j] == Some(m);
            let j0 = if j < i { j } else { j + 1 };
            assert(keys[j0] == keys2[j] && moments[j0] == mom2[j]);
            assert(holds(idx, id, m));
            if id == keys[i] {
                lemma_unique(keys, i, j0);
            }
        }
    }
}

pub proof fn lemma_keyed_map_insert<T>(keys: Seq<Seq<u8>>, vals: Seq<T>, i: int, k: Seq<u8>, v: T)
    requires
        keys_sorted(keys),
        keys.len() == vals.len(),
        sorted_position(keys, i, k),
    ensures
        keyed_map(keys.insert(i, k), vals.insert(i, v)) == keyed_map(keys, vals).insert(k, v),
{
    let keys2 = keys.insert(i, k);
    let vals2 = vals.insert(i, v);
    lemma_sorted_insert(keys, i, k);
    lemma_absent(keys, i, k);
    lemma_keyed_map_at(keys2, vals2, i);
    assert forall|key: Seq<u8>| #[trigger] keys2.contains(key) == (keys.contains(key) || key == k) by {
        if keys.contains(key) {
            let j = choose|j: int| 0 <= j < keys.len() && keys[j] == key;
            if j < i {
                assert(keys2[j] == keys[j]);
            } else {
                assert(keys2[j + 1] == keys[j]);
            }
        }
        if keys2.contains(key) {
            let j = choose|j: int| 0 <= j < keys2.len() && keys2[j] == key;
            if j < i {
                assert(keys2[j] == keys[j]);
            } else if j > i {
                assert(keys2[j] == keys[j - 1]);
            }
        }
    }
    assert forall|key: Seq<u8>| keys2.contains(key) && key != k implies keyed_map(keys2, vals2)[key]
        == keyed_map(keys, vals)[key] by {
        let j = choose|j: int| 0 <= j < keys2.len() && keys2[j] == key;
        lemma_keyed_map_at(keys2, vals2, j);
        if j < i {
            lemma_keyed_map_at(keys, vals, j);
        } else {
            lemma_keyed_map_at(keys, vals, j - 1);
        }
    }
    assert(keyed_map(keys2, vals2) =~= keyed_map(keys, vals).insert(k, v));
}

pub proof fn lemma_keyed_map_remove<T>(keys: Seq<Seq<u8>>, vals: Seq<T>, i: int)
    requires
        keys_sorted(keys),
        keys.len() == vals.len(),
        0 <= i < keys.len(),
    ensures
        keyed_map(keys.remove(i), vals.remove(i)) == keyed_map(keys, vals).remove(keys[i]),
{
    let keys2 = keys.remove(i);
    let vals2 = vals.remove(i);
    let k = keys[i];
    lemma_sorted_remove(keys, i);
    assert forall|key: Seq<u8>| #[trigger] keys2.contains(key) == (keys.contains(key) && key != k) by {
        if keys.contains(key) && key != k {
            let j = choose|j: int| 0 <= j < keys.len() && keys[j] == key;
            if j < i {
                assert(keys2[j] == keys[j]);
            } else {
                assert(keys2[j - 1] == keys[j]);
            }
        }
        if keys2.contains(key) {
            let j = choose|j: int| 0 <= j < keys2.len() && keys2[j] == key;
            let j0 = if j < i { j } else { j + 1 };
            assert(keys2[j] == keys[j0]);
            if key == k {
                lemma_unique(keys, i, j0);
            }
        }
    }
    assert forall|key: Seq<u8>| keys2.contains(key) implies keyed_map(keys2, vals2)[key]
        == keyed_map(keys, vals)[key] by {
        let j = choose|j: int| 0 <= j < keys2.len() && keys2[j] == key;
        lemma_keyed_map_at(keys2, vals2, j);
        let j0 = if j < i { j } else { j + 1 };
        lemma_keyed_map_at(keys, vals, j0);
    }
    assert(keyed_map(keys2, vals2) =~= keyed_map(keys, vals).remove(k));
}

pub proof fn lemma_keyed_map_update<T>(keys: Seq<Seq<u8>>, vals: Seq<T>, i: int, v: T)
    requires
        keys_sorted(keys),
        keys.len() == vals.len(),
        0 <= i < keys.len(),
    ensures
        keyed_map(keys, vals.update(i, v)) == keyed_map(keys, vals).insert(keys[i], v),
{
    let vals2 = vals.update(i, v);
    lemma_keyed_map_at(keys, vals2, i);
    assert forall|key: Seq<u8>| keys.contains(key) && key != keys[i] implies keyed_map(keys, vals2)[key]
        == keyed_map(keys, vals)[key] by {
        let j = choose|j: int| 0 <= j < keys.len() && keys[j] == key;
        lemma_keyed_map_at(keys, vals2, j);
        lemma_keyed_map_at(keys, vals, j);
    }
    assert(keyed_map(keys, vals2) =~= keyed_map(keys, vals).insert(keys[i], v));
}

/// The sum of a sequence of integers.
pub open spec fn int_sum(s: Seq<int>) -> int
    decreases s.len(),
{
    if s.len() == 0 {
        0
    } else {
        int_sum(s.drop_last()) + s.last()
    }
}

/// One for each moment that is there, zero for each that is not.
pub open spec fn indicators(moments: Seq<Option<int>>) -> Seq<int> {
    moments.map_values(|m: Option<int>| if m is Some { 1int } else { 0int })
}

pub proof fn lemma_int_sum_bounds(s: Seq<int>, hi: int)
    requires
        forall|i: int| 0 <= i < s.len() ==> 0 <= #[trigger] s[i] <= hi,
    ensures
        0 <= int_sum(s) <= hi * s.len(),
    decreases s.len(),
{
    if s.len() > 0 {
        lemma_int_sum_bounds(s.drop_last(), hi);
        assert(hi * s.len() == hi * (s.len() - 1) + hi) by (nonlinear_arith);
    }
}

pub proof fn lemma_int_sum_update(s: Seq<int>, i: int, v: int)
    requires
        0 <= i < s.len(),
    ensures
        int_sum(s.update(i, v)) == int_sum(s) - s[i] + v,
    decreases s.len(),
{
    if i == s.len() - 1 {
        assert(s.update(i, v).drop_last() =~= s.drop_last());
    } else {
        lemma_int_sum_update(s.drop_last(), i, v);
        assert(s.update(i, v).drop_last() =~= s.drop_last().update(i, v));
    }
}

pub proof fn lemma_int_sum_insert(s: Seq<int>, i: int, v: int)
    requires
        0 <= i <= s.len(),
    ensures
        int_sum(s.insert(i, v)) == int_sum(s) + v,
    decreases s.len(),
{
    if i == s.len() {
        assert(s.insert(i, v).drop_last() =~= s);
    } else {
        lemma_int_sum_insert(s.drop_last(), i, v);
        assert(s.insert(i, v).drop_last() =~= s.drop_last().insert(i, v));
    }
}

pub proof fn lemma_int_sum_remove(s: Seq<int>, i: int)
    requires
        0 <= i < s.len(),
    ensures
        int_sum(s.remove(i)) == int_sum(s) - s[i],
    decreases s.len(),
{
    if i == s.len() - 1 {
        assert(s.remove(i) =~= s.drop_last());
    } else {
        lemma_int_sum_remove(s.drop_last(), i);
        assert(s.remove(i).drop_last() =~= s.drop_last().remove(i));
    }
}

pub proof fn lemma_int_sum_prefix(s: Seq<int>, i: int)
    requires
        0 <= i < s.len(),
    ensures
        int_sum(s.take(i + 1)) == int_sum(s.take(i)) + s[i],
{
    assert(s.take(i + 1).drop_last() =~= s.take(i));
}

} // verus!
