use vstd::prelude::*;

verus! {

/// Entry `i` counts as read before entry `j`: an older moment, or on a tie the later entry
/// (the order that a stable sort by descending moment leaves at its tail).
pub open spec fn read_before(moments: Seq<i64>, i: int, j: int) -> bool {
    moments[i] < moments[j] || (moments[i] == moments[j] && i > j)
}

/// Entry `q` was read after the entry `last` (any entry, where there is no `last`).
pub open spec fn candidate(moments: Seq<i64>, has_last: bool, last: int, q: int) -> bool {
    !has_last || read_before(moments, last, q)
}

/// `r` lists, oldest first, the `amount` entries that were read least recently.
pub open spec fn is_oldest_selection(moments: Seq<i64>, amount: int, r: Seq<usize>) -> bool {
    &&& r.len() == amount
    &&& forall|k: int| 0 <= k < r.len() ==> (#[trigger] r[k]) < moments.len()
    &&& forall|k: int, l: int| 0 <= k < l < r.len() ==> read_before(moments, r[k] as int, r[l] as int)
    &&& forall|j: int|
        0 <= j < moments.len() && r.len() > 0 && !read_before(moments, r.last() as int, j)
            ==> #[trigger] r.contains(j as usize)
}

/// The positions of the `amount` entries with the oldest moments, oldest first; on equal
/// moments the later entry counts as older.
pub fn select_oldest(moments: &Vec<i64>, amount: usize) -> (r: Vec<usize>)
    requires
        amount <= moments@.len(),
    ensures
        is_oldest_selection(moments@, amount as int, r@),
{
    let n = moments.len();
    let mut r: Vec<usize> = Vec::new();
    while r.len() < amount
        invariant
            n == moments@.len(),
            amount <= n,
            r@.len() <= amount,
            forall|k: int| 0 <= k < r@.len() ==> (#[trigger] r@[k]) < n,
            forall|k: int, l: int|
                0 <= k < l < r@.len() ==> read_before(moments@, r@[k] as int, r@[l] as int),
            forall|j: int|
                0 <= j < n && r@.len() > 0 && !read_before(moments@, r@.last() as int, j)
                    ==> #[trigger] r@.contains(j as usize),
            forall|j: int|
                0 <= j < n && #[trigger] r@.contains(j as usize) ==> (r@.len() > 0 && !read_before(
                    moments@,
                    r@.last() as int,
                    j,
                )),
        decreases amount - r@.len(),
    {
        let has_last = r.len() > 0;
        let last: usize = if has_last {
            r[r.len() - 1]
        } else {
            0
        };
        let mut best: usize = n;
        let mut j: usize = 0;
        while j < n
            invariant
                n == moments@.len(),
                j <= n,
                has_last == (r@.len() > 0),
                has_last ==> last == r@.last() && last < n,
                best == n || (best < j && (!has_last || read_before(
                    moments@,
                    last as int,
                    best as int,
                ))),
                best < n ==> forall|q: int|
                    0 <= q < j && candidate(moments@, has_last, last as int, q)
                        ==> !read_before(moments@, q, best as int),
                best == n ==> forall|q: int|
                    0 <= q < j ==> !candidate(moments@, has_last, last as int, q),
            decreases n - j,
        {
            let later = !has_last || moments[last] < moments[j] || (moments[last] == moments[j]
                && last > j);
            assert(later == candidate(moments@, has_last, last as int, j as int));
            if later {
                if best == n || moments[j] <= moments[best] {
                    let ghost old_best = best;
                    best = j;
                    proof {
                        assert forall|q: int|
                            0 <= q < j + 1 && candidate(moments@, has_last, last as int, q)
                                implies !read_before(moments@, q, best as int) by {
                            if q < j && old_best < n {
                                assert(moments@[j as int] <= moments@[old_best as int]);
                                assert(!read_before(moments@, q, old_best as int));
                            } else if q < j {
                                assert(!candidate(moments@, has_last, last as int, q));
                            }
                        }
                    }
                }
            }
            j = j + 1;
        }
        proof {
            if best == n {
                // every entry is at or before the last one chosen: all of them were chosen
                assert forall|q: int| 0 <= q < n implies #[trigger] r@.contains(q as usize) by {
                    assert(!candidate(moments@, has_last, last as int, q));
                }
                assert(r@.len() >= n) by {
                    lemma_all_contained(r@, n as int);
                }
                assert(false);
            }
        }
        let ghost prev = r@;
        r.push(best);
        proof {
            assert forall|k: int, l: int| 0 <= k < l < r@.len() implies read_before(
                moments@,
                r@[k] as int,
                r@[l] as int,
            ) by {
                if l == r@.len() - 1 && k < l {
                    if prev.len() > 0 && k < prev.len() - 1 {
                        assert(read_before(moments@, prev[k] as int, prev.last() as int));
                    }
                }
            }
            assert forall|q: int|
                0 <= q < n && r@.len() > 0 && !read_before(
                    moments@,
                    r@.last() as int,
                    q,
                ) implies #[trigger] r@.contains(q as usize) by {
                if q == best as int {
                    assert(r@[r@.len() - 1] == best);
                } else if has_last && !read_before(moments@, last as int, q) {
                    assert(prev.contains(q as usize));
                    let k = choose|k: int| 0 <= k < prev.len() && prev[k] == q as usize;
                    assert(r@[k] == q as usize);
                } else {
                    assert(!read_before(moments@, q, best as int));
                }
            }
            assert forall|q: int| 0 <= q < n && #[trigger] r@.contains(q as usize) implies (r@.len()
                > 0 && !read_before(moments@, r@.last() as int, q)) by {
                let k = choose|k: int| 0 <= k < r@.len() && r@[k] == q as usize;
                if k < prev.len() {
                    assert(prev.contains(q as usize));
                }
            }
        }
    }
    r
}

/// A sequence that holds every value below `n` has at least `n` entries.
proof fn lemma_all_contained(r: Seq<usize>, n: int)
    requires
        0 <= n <= usize::MAX,
        forall|q: int| 0 <= q < n ==> #[trigger] r.contains(q as usize),
    ensures
        r.len() >= n,
{
    let ri = r.map_values(|x: usize| x as int);
    let s = vstd::set_lib::set_int_range(0, n);
    let t = ri.to_set();
    assert forall|q: int| s.contains(q) implies t.contains(q) by {
        assert(r.contains(q as usize));
        let k = choose|k: int| 0 <= k < r.len() && r[k] == q as usize;
        assert(ri[k] == q);
    }
    vstd::seq_lib::seq_to_set_is_finite(ri);
    vstd::set_lib::lemma_int_range(0, n);
    vstd::set_lib::lemma_len_subset(s, t);
    ri.lemma_cardinality_of_set();
}

} // verus!
