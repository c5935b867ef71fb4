use vstd::prelude::*;

use crate::db_row::{DbRow, Expiration};
use crate::expiration_index::{
    holds, total, BucketView, ExpirationIndexContainer, flatten, expired_count,
};
use crate::gc_select::{is_oldest_selection, select_oldest};
use crate::keys::{compare_bytes, copy_bytes, lex_lt, lemma_lex_lt_irreflexive, lemma_lex_lt_transitive};
use crate::time::DateTimeAsMicroseconds;

verus! {

/// Rows sorted strictly by row key, so that no key appears twice.
pub open spec fn row_keys_sorted(rows: Seq<DbRow>) -> bool {
    forall|i: int, j: int|
        0 <= i < j < rows.len() ==> lex_lt(
            #[trigger] rows[i].row_key_view(),
            #[trigger] rows[j].row_key_view(),
        )
}

/// Some row has key `k`.
pub open spec fn has_key(rows: Seq<DbRow>, k: Seq<u8>) -> bool {
    exists|i: int| 0 <= i < rows.len() && (#[trigger] rows[i]).row_key_view() == k
}

/// The row with key `k`.
pub open spec fn row_of(rows: Seq<DbRow>, k: Seq<u8>) -> DbRow {
    rows[choose|i: int| 0 <= i < rows.len() && (#[trigger] rows[i]).row_key_view() == k]
}

/// The rows by key.
pub open spec fn rows_map(rows: Seq<DbRow>) -> Map<Seq<u8>, DbRow> {
    Map::new(|k: Seq<u8>| has_key(rows, k), |k: Seq<u8>| row_of(rows, k))
}

/// The index holds exactly the rows that have an expiration, each at its moment.
pub open spec fn index_matches(rows: Seq<DbRow>, idx: Seq<BucketView>) -> bool {
    forall|id: Seq<u8>, m: int|
        #[trigger] holds(idx, id, m) <==> exists|i: int|
            0 <= i < rows.len() && (#[trigger] rows[i]).row_key_view() == id
                && rows[i].expires_moment() == Some(m)
}

/// The number of rows that have an expiration.
pub open spec fn expiring_count(rows: Seq<DbRow>) -> int
    decreases rows.len(),
{
    if rows.len() == 0 {
        0
    } else {
        expiring_count(rows.drop_last()) + if rows.last().expires_moment() is Some {
            1int
        } else {
            0int
        }
    }
}

/// The total number of document bytes of the rows.
pub open spec fn sizes(rows: Seq<DbRow>) -> int
    decreases rows.len(),
{
    if rows.len() == 0 {
        0
    } else {
        sizes(rows.drop_last()) + rows.last().raw_view().len()
    }
}

pub proof fn lemma_sizes_nonneg(rows: Seq<DbRow>)
    ensures
        sizes(rows) >= 0,
    decreases rows.len(),
{
    if rows.len() > 0 {
        lemma_sizes_nonneg(rows.drop_last());
    }
}

proof fn lemma_sizes_update(rows: Seq<DbRow>, i: int, r: DbRow)
    requires
        0 <= i < rows.len(),
    ensures
        sizes(rows.update(i, r)) == sizes(rows) - rows[i].raw_view().len() + r.raw_view().len(),
    decreases rows.len(),
{
    if i == rows.len() - 1 {
        assert(rows.update(i, r).drop_last() =~= rows.drop_last());
    } else {
        lemma_sizes_update(rows.drop_last(), i, r);
        assert(rows.update(i, r).drop_last() =~= rows.drop_last().update(i, r));
    }
}

proof fn lemma_sizes_insert(rows: Seq<DbRow>, i: int, r: DbRow)
    requires
        0 <= i <= rows.len(),
    ensures
        sizes(rows.insert(i, r)) == sizes(rows) + r.raw_view().len(),
    decreases rows.len(),
{
    if i == rows.len() {
        assert(rows.insert(i, r).drop_last() =~= rows);
    } else {
        lemma_sizes_insert(rows.drop_last(), i, r);
        assert(rows.insert(i, r).drop_last() =~= rows.drop_last().insert(i, r));
    }
}

proof fn lemma_sizes_remove(rows: Seq<DbRow>, i: int)
    requires
        0 <= i < rows.len(),
    ensures
        sizes(rows.remove(i)) == sizes(rows) - rows[i].raw_view().len(),
    decreases rows.len(),
{
    if i == rows.len() - 1 {
        assert(rows.remove(i) =~= rows.drop_last());
    } else {
        lemma_sizes_remove(rows.drop_last(), i);
        assert(rows.remove(i).drop_last() =~= rows.drop_last().remove(i));
    }
}

/// The map of rows with the expiration of row `k` set to `e`, where there is such a row.
pub open spec fn map_with_expiration(
    m: Map<Seq<u8>, DbRow>,
    k: Seq<u8>,
    e: Option<Expiration>,
) -> Map<Seq<u8>, DbRow> {
    if m.contains_key(k) {
        m.insert(k, m[k].with_expiration(e))
    } else {
        m
    }
}

/// The moments at which the rows were last read, in row order.
pub open spec fn last_reads(rows: Seq<DbRow>) -> Seq<i64> {
    rows.map_values(|r: DbRow| r.last_read_view() as i64)
}

pub proof fn lemma_expiring_count_bounds(rows: Seq<DbRow>)
    ensures
        0 <= expiring_count(rows) <= rows.len(),
    decreases rows.len(),
{
    if rows.len() > 0 {
        lemma_expiring_count_bounds(rows.drop_last());
    }
}

proof fn lemma_expiring_count_update(rows: Seq<DbRow>, i: int, r: DbRow)
    requires
        0 <= i < rows.len(),
    ensures
        expiring_count(rows.update(i, r)) == expiring_count(rows) - (if rows[i].expires_moment() is Some {
            1int
        } else {
            0int
        }) + (if r.expires_moment() is Some {
            1int
        } else {
            0int
        }),
    decreases rows.len(),
{
    if i == rows.len() - 1 {
        assert(rows.update(i, r).drop_last() =~= rows.drop_last());
    } else {
        lemma_expiring_count_update(rows.drop_last(), i, r);
        assert(rows.update(i, r).drop_last() =~= rows.drop_last().update(i, r));
    }
}

proof fn lemma_expiring_count_insert(rows: Seq<DbRow>, i: int, r: DbRow)
    requires
        0 <= i <= rows.len(),
    ensures
        expiring_count(rows.insert(i, r)) == expiring_count(rows) + (if r.expires_moment() is Some {
            1int
        } else {
            0int
        }),
    decreases rows.len(),
{
    if i == rows.len() {
        assert(rows.insert(i, r).drop_last() =~= rows);
    } else {
        lemma_expiring_count_insert(rows.drop_last(), i, r);
        assert(rows.insert(i, r).drop_last() =~= rows.drop_last().insert(i, r));
    }
}

proof fn lemma_expiring_count_remove(rows: Seq<DbRow>, i: int)
    requires
        0 <= i < rows.len(),
    ensures
        expiring_count(rows.remove(i)) == expiring_count(rows) - (if rows[i].expires_moment() is Some {
            1int
        } else {
            0int
        }),
    decreases rows.len(),
{
    if i == rows.len() - 1 {
        assert(rows.remove(i) =~= rows.drop_last());
    } else {
        lemma_expiring_count_remove(rows.drop_last(), i);
        assert(rows.remove(i).drop_last() =~= rows.drop_last().remove(i));
    }
}

/// In sorted rows a key stands at one position only.
pub proof fn lemma_key_unique(rows: Seq<DbRow>, i: int, j: int)
    requires
        row_keys_sorted(rows),
        0 <= i < rows.len(),
        0 <= j < rows.len(),
        rows[i].row_key_view() == rows[j].row_key_view(),
    ensures
        i == j,
{
    lemma_lex_lt_irreflexive(rows[i].row_key_view());
    if i < j {
        assert(lex_lt(rows[i].row_key_view(), rows[j].row_key_view()));
    } else if j < i {
        assert(lex_lt(rows[j].row_key_view(), rows[i].row_key_view()));
    }
}

pub proof fn lemma_row_of(rows: Seq<DbRow>, i: int)
    requires
        row_keys_sorted(rows),
        0 <= i < rows.len(),
    ensures
        has_key(rows, rows[i].row_key_view()),
        row_of(rows, rows[i].row_key_view()) == rows[i],
        rows_map(rows).contains_key(rows[i].row_key_view()),
        rows_map(rows)[rows[i].row_key_view()] == rows[i],
{
    let k = rows[i].row_key_view();
    assert(has_key(rows, k));
    let j = choose|j: int| 0 <= j < rows.len() && (#[trigger] rows[j]).row_key_view() == k;
    lemma_key_unique(rows, i, j);
}

/// The expiration of a row's key in sorted rows: held in a matching index exactly at the
/// row's moment.
proof fn lemma_holds_key(rows: Seq<DbRow>, idx: Seq<BucketView>, i: int, m: int)
    requires
        row_keys_sorted(rows),
        index_matches(rows, idx),
        0 <= i < rows.len(),
    ensures
        holds(idx, rows[i].row_key_view(), m) == (rows[i].expires_moment() == Some(m)),
{
    let k = rows[i].row_key_view();
    if holds(idx, k, m) {
        let j = choose|j: int|
            0 <= j < rows.len() && (#[trigger] rows[j]).row_key_view() == k
                && rows[j].expires_moment() == Some(m);
        lemma_key_unique(rows, i, j);
    }
}

/// A key missing from the rows is held nowhere in a matching index.
proof fn lemma_holds_missing(rows: Seq<DbRow>, idx: Seq<BucketView>, k: Seq<u8>, m: int)
    requires
        index_matches(rows, idx),
        !has_key(rows, k),
    ensures
        !holds(idx, k, m),
{
    if holds(idx, k, m) {
        let j = choose|j: int|
            0 <= j < rows.len() && (#[trigger] rows[j]).row_key_view() == k
                && rows[j].expires_moment() == Some(m);
        assert(has_key(rows, k));
    }
}

/// After a row is replaced in place by one with the same key, the index that dropped the old
/// moment and took the new one matches again.
proof fn lemma_matches_after_update(
    rows: Seq<DbRow>,
    i: int,
    row: DbRow,
    idx: Seq<BucketView>,
    idx2: Seq<BucketView>,
)
    requires
        row_keys_sorted(rows),
        index_matches(rows, idx),
        0 <= i < rows.len(),
        row.row_key_view() == rows[i].row_key_view(),
        forall|id: Seq<u8>, m: int|
            #[trigger] holds(idx2, id, m) == ((holds(idx, id, m) && !(id == row.row_key_view()
                && rows[i].expires_moment() == Some(m))) || (id == row.row_key_view()
                && row.expires_moment() == Some(m))),
    ensures
        row_keys_sorted(rows.update(i, row)),
        index_matches(rows.update(i, row), idx2),
{
    let k = row.row_key_view();
    let rows2 = rows.update(i, row);
    assert forall|a: int, b: int| 0 <= a < b < rows2.len() implies lex_lt(
        #[trigger] rows2[a].row_key_view(),
        #[trigger] rows2[b].row_key_view(),
    ) by {
        assert(lex_lt(rows[a].row_key_view(), rows[b].row_key_view()));
    }
    assert forall|id: Seq<u8>, m: int|
        #[trigger] holds(idx2, id, m) <==> exists|j: int|
            0 <= j < rows2.len() && (#[trigger] rows2[j]).row_key_view() == id
                && rows2[j].expires_moment() == Some(m) by {
        lemma_holds_key(rows, idx, i, m);
        if holds(idx2, id, m) {
            if id == k {
                if row.expires_moment() == Some(m) {
                    assert(rows2[i].row_key_view() == id);
                } else {
                    assert(holds(idx, k, m));
                }
            } else {
                let j = choose|j: int|
                    0 <= j < rows.len() && (#[trigger] rows[j]).row_key_view() == id
                        && rows[j].expires_moment() == Some(m);
                assert(rows2[j] == rows[j]);
            }
        }
        if exists|j: int|
            0 <= j < rows2.len() && (#[trigger] rows2[j]).row_key_view() == id
                && rows2[j].expires_moment() == Some(m) {
            let j = choose|j: int|
                0 <= j < rows2.len() && (#[trigger] rows2[j]).row_key_view() == id
                    && rows2[j].expires_moment() == Some(m);
            if j != i {
                assert(rows[j] == rows2[j]);
                assert(holds(idx, id, m));
                if id == k {
                    lemma_key_unique(rows, i, j);
                }
            }
        }
    }
}

/// After a row with a new key is put at its sorted place, the index that took its moment
/// matches again.
proof fn lemma_matches_after_insert(
    rows: Seq<DbRow>,
    i: int,
    row: DbRow,
    idx: Seq<BucketView>,
    idx2: Seq<BucketView>,
)
    requires
        row_keys_sorted(rows),
        index_matches(rows, idx),
        0 <= i <= rows.len(),
        forall|j: int| 0 <= j < i ==> lex_lt(#[trigger] rows[j].row_key_view(), row.row_key_view()),
        forall|j: int|
            i <= j < rows.len() ==> lex_lt(row.row_key_view(), #[trigger] rows[j].row_key_view()),
        forall|id: Seq<u8>, m: int|
            #[trigger] holds(idx2, id, m) == (holds(idx, id, m) || (id == row.row_key_view()
                && row.expires_moment() == Some(m))),
    ensures
        row_keys_sorted(rows.insert(i, row)),
        index_matches(rows.insert(i, row), idx2),
        !has_key(rows, row.row_key_view()),
{
    let k = row.row_key_view();
    let rows2 = rows.insert(i, row);
    lemma_lex_lt_irreflexive(k);
    assert forall|a: int, b: int| 0 <= a < b < rows2.len() implies lex_lt(
        #[trigger] rows2[a].row_key_view(),
        #[trigger] rows2[b].row_key_view(),
    ) by {
        if b < i {
            assert(lex_lt(rows[a].row_key_view(), rows[b].row_key_view()));
        } else if a > i {
            assert(lex_lt(rows[a - 1].row_key_view(), rows[b - 1].row_key_view()));
        } else if a == i {
            assert(rows2[b] == rows[b - 1]);
        } else if b == i {
            assert(rows2[a] == rows[a]);
        } else {
            lemma_lex_lt_transitive(rows[a].row_key_view(), k, rows[b - 1].row_key_view());
        }
    }
    assert(!has_key(rows, k)) by {
        if has_key(rows, k) {
            let j = choose|j: int| 0 <= j < rows.len() && (#[trigger] rows[j]).row_key_view() == k;
            if j < i {
                assert(lex_lt(rows[j].row_key_view(), k));
            } else {
                assert(lex_lt(k, rows[j].row_key_view()));
            }
        }
    }
    assert forall|id: Seq<u8>, m: int|
        #[trigger] holds(idx2, id, m) <==> exists|j: int|
            0 <= j < rows2.len() && (#[trigger] rows2[j]).row_key_view() == id
                && rows2[j].expires_moment() == Some(m) by {
        if holds(idx2, id, m) {
            if holds(idx, id, m) {
                let j = choose|j: int|
                    0 <= j < rows.len() && (#[trigger] rows[j]).row_key_view() == id
                        && rows[j].expires_moment() == Some(m);
                if j < i {
                    assert(rows2[j] == rows[j]);
                } else {
                    assert(rows2[j + 1] == rows[j]);
                }
            } else {
                assert(rows2[i] == row);
            }
        }
        if exists|j: int|
            0 <= j < rows2.len() && (#[trigger] rows2[j]).row_key_view() == id
                && rows2[j].expires_moment() == Some(m) {
            let j = choose|j: int|
                0 <= j < rows2.len() && (#[trigger] rows2[j]).row_key_view() == id
                    && rows2[j].expires_moment() == Some(m);
            if j < i {
                assert(rows[j] == rows2[j]);
                assert(holds(idx, id, m));
            } else if j > i {
                assert(rows[j - 1] == rows2[j]);
                assert(holds(idx, id, m));
            }
        }
    }
}

/// After a row leaves, the index that dropped its moment matches again.
proof fn lemma_matches_after_remove(
    rows: Seq<DbRow>,
    i: int,
    idx: Seq<BucketView>,
    idx2: Seq<BucketView>,
)
    requires
        row_keys_sorted(rows),
        index_matches(rows, idx),
        0 <= i < rows.len(),
        forall|id: Seq<u8>, m: int|
            #[trigger] holds(idx2, id, m) == (holds(idx, id, m) && !(id == rows[i].row_key_view()
                && rows[i].expires_moment() == Some(m))),
    ensures
        row_keys_sorted(rows.remove(i)),
        index_matches(rows.remove(i), idx2),
{
    let k = rows[i].row_key_view();
    let rows2 = rows.remove(i);
    assert forall|a: int, b: int| 0 <= a < b < rows2.len() implies lex_lt(
        #[trigger] rows2[a].row_key_view(),
        #[trigger] rows2[b].row_key_view(),
    ) by {
        if b < i {
            assert(lex_lt(rows[a].row_key_view(), rows[b].row_key_view()));
        } else if a >= i {
            assert(lex_lt(rows[a + 1].row_key_view(), rows[b + 1].row_key_view()));
        } else {
            assert(lex_lt(rows[a].row_key_view(), rows[b + 1].row_key_view()));
        }
    }
    assert forall|id: Seq<u8>, m: int|
        #[trigger] holds(idx2, id, m) <==> exists|j: int|
            0 <= j < rows2.len() && (#[trigger] rows2[j]).row_key_view() == id
                && rows2[j].expires_moment() == Some(m) by {
        if holds(idx2, id, m) {
            let j = choose|j: int|
                0 <= j < rows.len() && (#[trigger] rows[j]).row_key_view() == id
                    && rows[j].expires_moment() == Some(m);
            if j < i {
                assert(rows2[j] == rows[j]);
            } else if j > i {
                assert(rows2[j - 1] == rows[j]);
            }
        }
        if exists|j: int|
            0 <= j < rows2.len() && (#[trigger] rows2[j]).row_key_view() == id
                && rows2[j].expires_moment() == Some(m) {
            let j = choose|j: int|
                0 <= j < rows2.len() && (#[trigger] rows2[j]).row_key_view() == id
                    && rows2[j].expires_moment() == Some(m);
            let j0 = if j < i {
                j
            } else {
                j + 1
            };
            assert(rows[j0] == rows2[j]);
            assert(holds(idx, id, m));
            if id == k {
                lemma_key_unique(rows, i, j0);
            }
        }
    }
}

/// The map of rows after an in-place replacement by a row of the same key.
proof fn lemma_map_update(rows: Seq<DbRow>, i: int, row: DbRow)
    requires
        row_keys_sorted(rows),
        row_keys_sorted(rows.update(i, row)),
        0 <= i < rows.len(),
        row.row_key_view() == rows[i].row_key_view(),
    ensures
        rows_map(rows.update(i, row)) == rows_map(rows).insert(row.row_key_view(), row),
{
    let rows2 = rows.update(i, row);
    let k = row.row_key_view();
    lemma_row_of(rows2, i);
    assert forall|key: Seq<u8>| #[trigger] has_key(rows2, key) == (has_key(rows, key) || key == k) by {
        if has_key(rows, key) {
            let j = choose|j: int| 0 <= j < rows.len() && (#[trigger] rows[j]).row_key_view() == key;
            if j != i {
                assert(rows2[j] == rows[j]);
            }
        }
        if has_key(rows2, key) {
            let j = choose|j: int| 0 <= j < rows2.len() && (#[trigger] rows2[j]).row_key_view() == key;
            if j != i {
                assert(rows2[j] == rows[j]);
            }
        }
    }
    assert forall|key: Seq<u8>| has_key(rows2, key) && key != k implies row_of(rows2, key)
        == row_of(rows, key) by {
        let j = choose|j: int| 0 <= j < rows2.len() && (#[trigger] rows2[j]).row_key_view() == key;
        lemma_row_of(rows2, j);
        assert(j != i);
        assert(rows2[j] == rows[j]);
        lemma_row_of(rows, j);
    }
    assert(rows_map(rows2) =~= rows_map(rows).insert(k, row));
}

/// The map of rows after a row with a new key is put in.
proof fn lemma_map_insert(rows: Seq<DbRow>, i: int, row: DbRow)
    requires
        row_keys_sorted(rows),
        row_keys_sorted(rows.insert(i, row)),
        0 <= i <= rows.len(),
    ensures
        rows_map(rows.insert(i, row)) == rows_map(rows).insert(row.row_key_view(), row),
{
    let rows2 = rows.insert(i, row);
    let k = row.row_key_view();
    lemma_row_of(rows2, i);
    assert forall|key: Seq<u8>| #[trigger] has_key(rows2, key) == (has_key(rows, key) || key == k) by {
        if has_key(rows, key) {
            let j = choose|j: int| 0 <= j < rows.len() && (#[trigger] rows[j]).row_key_view() == key;
            if j < i {
                assert(rows2[j] == rows[j]);
            } else {
                assert(rows2[j + 1] == rows[j]);
            }
        }
        if has_key(rows2, key) {
            let j = choose|j: int| 0 <= j < rows2.len() && (#[trigger] rows2[j]).row_key_view() == key;
            if j < i {
                assert(rows2[j] == rows[j]);
            } else if j > i {
                assert(rows2[j] == rows[j - 1]);
            }
        }
    }
    assert forall|key: Seq<u8>| has_key(rows2, key) && key != k implies row_of(rows2, key)
        == row_of(rows, key) by {
        let j = choose|j: int| 0 <= j < rows2.len() && (#[trigger] rows2[j]).row_key_view() == key;
        lemma_row_of(rows2, j);
        assert(j != i);
        if j < i {
            assert(rows2[j] == rows[j]);
            lemma_row_of(rows, j);
        } else {
            assert(rows2[j] == rows[j - 1]);
            lemma_row_of(rows, j - 1);
        }
    }
    assert(rows_map(rows2) =~= rows_map(rows).insert(k, row));
}

/// The map of rows after one leaves.
proof fn lemma_map_remove(rows: Seq<DbRow>, i: int)
    requires
        row_keys_sorted(rows),
        row_keys_sorted(rows.remove(i)),
        0 <= i < rows.len(),
    ensures
        rows_map(rows.remove(i)) == rows_map(rows).remove(rows[i].row_key_view()),
{
    let rows2 = rows.remove(i);
    let k = rows[i].row_key_view();
    assert forall|key: Seq<u8>| #[trigger] has_key(rows2, key) == (has_key(rows, key) && key != k) by {
        if has_key(rows, key) && key != k {
            let j = choose|j: int| 0 <= j < rows.len() && (#[trigger] rows[j]).row_key_view() == key;
            if j < i {
                assert(rows2[j] == rows[j]);
            } else {
                assert(rows2[j - 1] == rows[j]);
            }
        }
        if has_key(rows2, key) {
            let j = choose|j: int| 0 <= j < rows2.len() && (#[trigger] rows2[j]).row_key_view() == key;
            let j0 = if j < i {
                j
            } else {
                j + 1
            };
            assert(rows2[j] == rows[j0]);
            if key == k {
                lemma_key_unique(rows, i, j0);
            }
        }
    }
    assert forall|key: Seq<u8>| has_key(rows2, key) implies row_of(rows2, key) == row_of(rows, key) by {
        let j = choose|j: int| 0 <= j < rows2.len() && (#[trigger] rows2[j]).row_key_view() == key;
        lemma_row_of(rows2, j);
        let j0 = if j < i {
            j
        } else {
            j + 1
        };
        assert(rows2[j] == rows[j0]);
        lemma_row_of(rows, j0);
    }
    assert(rows_map(rows2) =~= rows_map(rows).remove(k));
}

/// Sorted rows are none exactly where their map is empty.
pub proof fn lemma_rows_map_empty(rows: Seq<DbRow>)
    requires
        row_keys_sorted(rows),
    ensures
        (rows.len() == 0) == (rows_map(rows) == Map::<Seq<u8>, DbRow>::empty()),
{
    if rows.len() == 0 {
        assert(rows_map(rows) =~= Map::<Seq<u8>, DbRow>::empty());
    } else {
        lemma_row_of(rows, 0);
        assert(!Map::<Seq<u8>, DbRow>::empty().contains_key(rows[0].row_key_view()));
    }
}

/// The rows of a partition, sorted by row key, with the index of their expirations.
pub struct DbRowsContainer {
    data: Vec<DbRow>,
    rows_with_expiration_index: ExpirationIndexContainer,
}

impl DbRowsContainer {
    pub closed spec fn rows(&self) -> Seq<DbRow> {
        self.data@
    }

    pub closed spec fn index(&self) -> Seq<BucketView> {
        self.rows_with_expiration_index@
    }

    pub open spec fn map(&self) -> Map<Seq<u8>, DbRow> {
        rows_map(self.rows())
    }

    pub closed spec fn wf(&self) -> bool {
        &&& forall|i: int| 0 <= i < self.data@.len() ==> (#[trigger] self.data@[i]).wf()
        &&& row_keys_sorted(self.data@)
        &&& self.rows_with_expiration_index.wf()
        &&& index_matches(self.data@, self.rows_with_expiration_index@)
        &&& total(self.rows_with_expiration_index@) == expiring_count(self.data@)
    }

    /// What the container guarantees: sorted rows, each well formed, and an index that holds
    /// exactly the rows with an expiration, each once, at its moment.
    pub proof fn lemma_wf(&self)
        requires
            self.wf(),
        ensures
            forall|i: int| 0 <= i < self.rows().len() ==> (#[trigger] self.rows()[i]).wf(),
            row_keys_sorted(self.rows()),
            crate::expiration_index::buckets_wf(self.index()),
            index_matches(self.rows(), self.index()),
            total(self.index()) == expiring_count(self.rows()),
    {
    }

    pub fn new() -> (r: Self)
        ensures
            r.wf(),
            r.rows() == Seq::<DbRow>::empty(),
            r.index() == Seq::<BucketView>::empty(),
    {
        DbRowsContainer {
            data: Vec::new(),
            rows_with_expiration_index: ExpirationIndexContainer::new(),
        }
    }

    pub fn len(&self) -> (r: usize)
        ensures
            r == self.rows().len(),
    {
        self.data.len()
    }

    /// The number of rows the expiration index holds.
    pub fn rows_with_expiration_index_len(&self) -> (r: usize)
        requires
            self.wf(),
        ensures
            r == total(self.index()),
            r == expiring_count(self.rows()),
    {
        self.rows_with_expiration_index.len()
    }

    /// The position of `row_key`, or where it would be inserted.
    fn find(&self, row_key: &[u8]) -> (r: Result<usize, usize>)
        requires
            self.wf(),
        ensures
            r matches Ok(i) ==> i < self.rows().len() && self.rows()[i as int].row_key_view()
                == row_key@,
            r matches Err(i) ==> i <= self.rows().len() && (forall|j: int|
                0 <= j < i ==> lex_lt(#[trigger] self.rows()[j].row_key_view(), row_key@)) && (
            forall|j: int|
                i <= j < self.rows().len() ==> lex_lt(
                    row_key@,
                    #[trigger] self.rows()[j].row_key_view(),
                )),
    {
        let mut lo: usize = 0;
        let mut hi: usize = self.data.len();
        while lo < hi
            invariant
                self.wf(),
                lo <= hi <= self.data@.len(),
                forall|j: int|
                    0 <= j < lo ==> lex_lt(#[trigger] self.data@[j].row_key_view(), row_key@),
                forall|j: int|
                    hi <= j < self.data@.len() ==> lex_lt(
                        row_key@,
                        #[trigger] self.data@[j].row_key_view(),
                    ),
            decreases hi - lo,
        {
            let mid = lo + (hi - lo) / 2;
            let c = compare_bytes(self.data[mid].get_row_key(), row_key);
            if c == 0 {
                return Ok(mid);
            } else if c < 0 {
                proof {
                    assert forall|j: int| 0 <= j < mid + 1 implies lex_lt(
                        #[trigger] self.data@[j].row_key_view(),
                        row_key@,
                    ) by {
                        if j < mid {
                            lemma_lex_lt_transitive(
                                self.data@[j].row_key_view(),
                                self.data@[mid as int].row_key_view(),
                                row_key@,
                            );
                        }
                    }
                }
                lo = mid + 1;
            } else {
                proof {
                    assert forall|j: int| mid <= j < self.data@.len() implies lex_lt(
                        row_key@,
                        #[trigger] self.data@[j].row_key_view(),
                    ) by {
                        if j > mid {
                            lemma_lex_lt_transitive(
                                row_key@,
                                self.data@[mid as int].row_key_view(),
                                self.data@[j].row_key_view(),
                            );
                        }
                    }
                }
                hi = mid;
            }
        }
        Err(lo)
    }

    /// Puts a row in, replacing the row of the same key, which is returned. The index drops
    /// the replaced row's moment and takes the new row's.
    pub fn insert(&mut self, db_row: DbRow) -> (r: Option<DbRow>)
        requires
            old(self).wf(),
            db_row.wf(),
        ensures
            final(self).wf(),
            final(self).map() == old(self).map().insert(db_row.row_key_view(), db_row),
            r matches Some(d) ==> old(self).map().contains_key(db_row.row_key_view()) && d == old(
                self,
            ).map()[db_row.row_key_view()],
            r is None ==> !old(self).map().contains_key(db_row.row_key_view()),
            final(self).rows().len() == old(self).rows().len() + if r is None {
                1int
            } else {
                0int
            },
            sizes(final(self).rows()) == sizes(old(self).rows()) + db_row.raw_view().len() - match r {
                Some(d) => d.raw_view().len() as int,
                None => 0int,
            },
    {
        let ghost rows0 = self.data@;
        let ghost idx0 = self.rows_with_expiration_index@;
        let ghost row = db_row;
        let _n0 = self.data.len();
        let new_exp = db_row.get_expires();
        let key = copy_bytes(db_row.get_row_key());
        match self.find(key.as_slice()) {
            Ok(i) => {
                let displaced = self.data.remove(i);
                self.data.insert(i, db_row);
                assert(self.data@ =~= rows0.update(i as int, row));
                proof {
                    lemma_row_of(rows0, i as int);
                    lemma_expiring_count_remove(rows0, i as int);
                    lemma_expiring_count_bounds(rows0.remove(i as int));
                    lemma_expiring_count_update(rows0, i as int, row);
                }
                let old_exp = displaced.get_expires();
                proof {
                    if let Some(m) = old_exp {
                        lemma_holds_key(rows0, idx0, i as int, m.unix_microseconds as int);
                    }
                }
                self.rows_with_expiration_index.remove(key.as_slice(), old_exp);
                let ghost idx1 = self.rows_with_expiration_index@;
                proof {
                    if let Some(m) = old_exp {
                        lemma_holds_key(rows0, idx0, i as int, m.unix_microseconds as int);
                    }
                    if let Some(m) = new_exp {
                        lemma_holds_key(rows0, idx0, i as int, m.unix_microseconds as int);
                    }
                }
                self.rows_with_expiration_index.add(key.as_slice(), new_exp);
                proof {
                    lemma_matches_after_update(
                        rows0,
                        i as int,
                        row,
                        idx0,
                        self.rows_with_expiration_index@,
                    );
                    lemma_map_update(rows0, i as int, row);
                    lemma_sizes_update(rows0, i as int, row);
                }
                Some(displaced)
            },
            Err(i) => {
                self.data.insert(i, db_row);
                let _n = self.data.len();
                proof {
                    lemma_expiring_count_bounds(rows0);
                    lemma_expiring_count_insert(rows0, i as int, row);
                }
                self.rows_with_expiration_index.add(key.as_slice(), new_exp);
                proof {
                    lemma_matches_after_insert(
                        rows0,
                        i as int,
                        row,
                        idx0,
                        self.rows_with_expiration_index@,
                    );
                    if let Some(m) = new_exp {
                        lemma_holds_missing(rows0, idx0, row.row_key_view(), m.unix_microseconds as int);
                    }
                    lemma_map_insert(rows0, i as int, row);
                    lemma_sizes_insert(rows0, i as int, row);
                }
                None
            },
        }
    }

    /// Takes out the row of `row_key`, if there is one, and its moment from the index.
    pub fn remove(&mut self, row_key: &[u8]) -> (r: Option<DbRow>)
        requires
            old(self).wf(),
        ensures
            final(self).wf(),
            final(self).map() == old(self).map().remove(row_key@),
            r matches Some(d) ==> old(self).map().contains_key(row_key@) && d == old(
                self,
            ).map()[row_key@],
            r is None ==> !old(self).map().contains_key(row_key@) && final(self).rows() == old(
                self,
            ).rows(),
            final(self).rows().len() == old(self).rows().len() - if r is None {
                0int
            } else {
                1int
            },
            sizes(final(self).rows()) == sizes(old(self).rows()) - match r {
                Some(d) => d.raw_view().len() as int,
                None => 0int,
            },
    {
        let ghost rows0 = self.data@;
        let ghost idx0 = self.rows_with_expiration_index@;
        match self.find(row_key) {
            Ok(i) => {
                proof {
                    lemma_row_of(rows0, i as int);
                    lemma_expiring_count_remove(rows0, i as int);
                }
                let removed = self.data.remove(i);
                let old_exp = removed.get_expires();
                proof {
                    if let Some(m) = old_exp {
                        lemma_holds_key(rows0, idx0, i as int, m.unix_microseconds as int);
                    }
                }
                self.rows_with_expiration_index.remove(row_key, old_exp);
                proof {
                    if let Some(m) = old_exp {
                        lemma_holds_key(rows0, idx0, i as int, m.unix_microseconds as int);
                    }
                    lemma_matches_after_remove(rows0, i as int, idx0, self.rows_with_expiration_index@);
                    lemma_map_remove(rows0, i as int);
                    lemma_sizes_remove(rows0, i as int);
                }
                Some(removed)
            },
            Err(i) => {
                proof {
                    lemma_lex_lt_irreflexive(row_key@);
                    assert(!rows_map(rows0).contains_key(row_key@)) by {
                        if has_key(rows0, row_key@) {
                            let j = choose|j: int|
                                0 <= j < rows0.len() && (#[trigger] rows0[j]).row_key_view()
                                    == row_key@;
                            if j < i {
                                assert(lex_lt(rows0[j].row_key_view(), row_key@));
                            } else {
                                assert(lex_lt(row_key@, rows0[j].row_key_view()));
                            }
                        }
                    }
                    assert(self.map() =~= old(self).map().remove(row_key@));
                }
                None
            },
        }
    }

    pub fn get(&self, row_key: &[u8]) -> (r: Option<&DbRow>)
        requires
            self.wf(),
        ensures
            r matches Some(d) ==> self.map().contains_key(row_key@) && *d == self.map()[row_key@],
            r is None ==> !self.map().contains_key(row_key@),
    {
        match self.find(row_key) {
            Ok(i) => {
                proof {
                    lemma_row_of(self.data@, i as int);
                }
                Some(&self.data[i])
            },
            Err(i) => {
                proof {
                    lemma_lex_lt_irreflexive(row_key@);
                    if has_key(self.data@, row_key@) {
                        let j = choose|j: int|
                            0 <= j < self.data@.len() && (#[trigger] self.data@[j]).row_key_view()
                                == row_key@;
                        if j < i {
                            assert(lex_lt(self.data@[j].row_key_view(), row_key@));
                        } else {
                            assert(lex_lt(row_key@, self.data@[j].row_key_view()));
                        }
                    }
                }
                None
            },
        }
    }

    pub fn has_db_row(&self, row_key: &[u8]) -> (r: bool)
        requires
            self.wf(),
        ensures
            r == self.map().contains_key(row_key@),
    {
        self.get(row_key).is_some()
    }

    /// All rows, sorted by row key.
    pub fn get_all(&self) -> (r: &[DbRow])
        ensures
            r@ == self.rows(),
    {
        self.data.as_slice()
    }

    /// The rows from the lowest key up to and including `row_key`, sorted by key.
    pub fn get_highest_row_and_below(&self, row_key: &[u8]) -> (r: &[DbRow])
        requires
            self.wf(),
        ensures
            r@ == self.rows().take(r@.len() as int),
            forall|j: int| 0 <= j < r@.len() ==> !lex_lt(row_key@, #[trigger] self.rows()[j].row_key_view()),
            r@.len() < self.rows().len() ==> lex_lt(row_key@, self.rows()[r@.len() as int].row_key_view()),
    {
        let _n = self.data.len();
        let end = match self.find(row_key) {
            Ok(i) => {
                proof {
                    assert forall|j: int| 0 <= j < i + 1 implies !lex_lt(
                        row_key@,
                        #[trigger] self.data@[j].row_key_view(),
                    ) by {
                        lemma_lex_lt_irreflexive(row_key@);
                        if j < i {
                            crate::keys::lemma_lex_lt_asymmetric(
                                self.data@[j].row_key_view(),
                                self.data@[i as int].row_key_view(),
                            );
                        }
                    }
                }
                i + 1
            },
            Err(i) => {
                proof {
                    assert forall|j: int| 0 <= j < i implies !lex_lt(
                        row_key@,
                        #[trigger] self.data@[j].row_key_view(),
                    ) by {
                        crate::keys::lemma_lex_lt_asymmetric(self.data@[j].row_key_view(), row_key@);
                    }
                }
                i
            },
        };
        let r = &self.data.as_slice()[0..end];
        assert(r@ =~= self.data@.take(end as int));
        r
    }

    /// Sets the expiration of the row of `row_key` and moves it in the index. Returns a copy of
    /// the row where its moment changed.
    pub fn update_expiration_time(&mut self, row_key: &[u8], expiration_time: Option<Expiration>) -> (r:
        Option<DbRow>)
        requires
            old(self).wf(),
        ensures
            final(self).wf(),
            final(self).map().dom() == old(self).map().dom(),
            forall|k: Seq<u8>|
                #[trigger] old(self).map().contains_key(k) && k != row_key@ ==> final(self).map()[k]
                    == old(self).map()[k],
            old(self).map().contains_key(row_key@) ==> final(self).map()[row_key@].expires_moment()
                == crate::db_row::moment_of(expiration_time),
            final(self).map() == map_with_expiration(old(self).map(), row_key@, expiration_time),
            r matches Some(d) ==> old(self).map().contains_key(row_key@) && d.same_row(
                &final(self).map()[row_key@],
            ) && old(self).map()[row_key@].expires_moment() != crate::db_row::moment_of(
                expiration_time,
            ),
            r is None ==> !old(self).map().contains_key(row_key@) || old(
                self,
            ).map()[row_key@].expires_moment() == crate::db_row::moment_of(expiration_time),
            sizes(final(self).rows()) == sizes(old(self).rows()),
            final(self).rows().len() == old(self).rows().len(),
    {
        let ghost rows0 = self.data@;
        let ghost idx0 = self.rows_with_expiration_index@;
        let _n0 = self.data.len();
        match self.find(row_key) {
            Ok(i) => {
                proof {
                    lemma_row_of(rows0, i as int);
                    lemma_expiring_count_remove(rows0, i as int);
                    lemma_expiring_count_bounds(rows0.remove(i as int));
                }
                let old_exp = self.data[i].update_expires(expiration_time);
                let new_exp = self.data[i].get_expires();
                let ghost row = self.data@[i as int];
                assert(self.data@ =~= rows0.update(i as int, row));
                let unchanged = match (old_exp, new_exp) {
                    (Some(a), Some(b)) => a.unix_microseconds == b.unix_microseconds,
                    (None, None) => true,
                    _ => false,
                };
                if unchanged {
                    proof {
                        assert(row.expires_moment() == rows0[i as int].expires_moment());
                        lemma_expiring_count_update(rows0, i as int, row);
                        assert forall|id: Seq<u8>, m: int| #[trigger]
                            holds(idx0, id, m) == ((holds(idx0, id, m) && !(id
                                == row.row_key_view() && rows0[i as int].expires_moment()
                                == Some(m))) || (id == row.row_key_view() && row.expires_moment()
                                == Some(m))) by {
                            if id == row.row_key_view() {
                                lemma_holds_key(rows0, idx0, i as int, m);
                            }
                        }
                        lemma_matches_after_update(rows0, i as int, row, idx0, idx0);
                        lemma_map_update(rows0, i as int, row);
                        lemma_sizes_update(rows0, i as int, row);
                    }
                    return None;
                }
                proof {
                    if let Some(m) = old_exp {
                        lemma_holds_key(rows0, idx0, i as int, m.unix_microseconds as int);
                    }
                }
                self.rows_with_expiration_index.remove(row_key, old_exp);
                proof {
                    if let Some(m) = old_exp {
                        lemma_holds_key(rows0, idx0, i as int, m.unix_microseconds as int);
                    }
                    if let Some(m) = new_exp {
                        lemma_holds_key(rows0, idx0, i as int, m.unix_microseconds as int);
                    }
                }
                self.rows_with_expiration_index.add(row_key, new_exp);
                proof {
                    lemma_expiring_count_update(rows0, i as int, row);
                    lemma_matches_after_update(
                        rows0,
                        i as int,
                        row,
                        idx0,
                        self.rows_with_expiration_index@,
                    );
                    lemma_map_update(rows0, i as int, row);
                    lemma_sizes_update(rows0, i as int, row);
                }
                let copy = self.data[i].clone();
                Some(copy)
            },
            Err(i) => {
                proof {
                    lemma_lex_lt_irreflexive(row_key@);
                    if has_key(rows0, row_key@) {
                        let j = choose|j: int|
                            0 <= j < rows0.len() && (#[trigger] rows0[j]).row_key_view()
                                == row_key@;
                        if j < i {
                            assert(lex_lt(rows0[j].row_key_view(), row_key@));
                        } else {
                            assert(lex_lt(row_key@, rows0[j].row_key_view()));
                        }
                    }
                }
                None
            },
        }
    }

    /// The keys of the rows whose expiration is not later than `now`, earliest moment first.
    pub fn get_rows_to_expire(&self, now: DateTimeAsMicroseconds) -> (r: Vec<Vec<u8>>)
        requires
            self.wf(),
        ensures
            r@.map_values(|x: Vec<u8>| x@) == flatten(
                self.index().take(expired_count(self.index(), now.unix_microseconds as int) as int),
            ),
    {
        self.rows_with_expiration_index.get_items_to_expire(now)
    }

    /// Where there are more than `max_rows_amount` rows: the keys of the surplus rows that were
    /// read least recently, oldest first.
    pub fn get_rows_to_gc_by_max_amount(&self, max_rows_amount: usize) -> (r: Option<Vec<Vec<u8>>>)
        requires
            self.wf(),
        ensures
            r is None <==> self.rows().len() <= max_rows_amount,
            r matches Some(keys) ==> exists|sel: Seq<usize>|
                #[trigger] is_oldest_selection(
                    last_reads(self.rows()),
                    self.rows().len() - max_rows_amount,
                    sel,
                ) && keys@.map_values(|x: Vec<u8>| x@) == sel.map_values(
                    |i: usize| self.rows()[i as int].row_key_view(),
                ),
    {
        let n = self.data.len();
        if n <= max_rows_amount {
            return None;
        }
        let mut moments: Vec<i64> = Vec::new();
        let mut i: usize = 0;
        while i < n
            invariant
                n == self.data@.len(),
                i <= n,
                moments@ == last_reads(self.data@).take(i as int),
            decreases n - i,
        {
            moments.push(self.data[i].get_last_read_access().unix_microseconds);
            proof {
                assert(moments@ =~= last_reads(self.data@).take(i + 1));
            }
            i = i + 1;
        }
        assert(moments@ =~= last_reads(self.data@));
        let sel = select_oldest(&moments, n - max_rows_amount);
        let mut keys: Vec<Vec<u8>> = Vec::new();
        let mut k: usize = 0;
        while k < sel.len()
            invariant
                self.wf(),
                n == self.data@.len(),
                k <= sel@.len(),
                forall|q: int| 0 <= q < sel@.len() ==> (#[trigger] sel@[q]) < n,
                keys@.map_values(|x: Vec<u8>| x@) == sel@.take(k as int).map_values(
                    |i: usize| self.data@[i as int].row_key_view(),
                ),
            decreases sel@.len() - k,
        {
            let key = copy_bytes(self.data[sel[k]].get_row_key());
            let ghost prev = keys@;
            keys.push(key);
            proof {
                assert(keys@ == prev.push(key));
                assert(key@ == self.data@[sel@[k as int] as int].row_key_view());
                assert(sel@.take(k + 1) =~= sel@.take(k as int).push(sel@[k as int]));
                assert(keys@.map_values(|x: Vec<u8>| x@) =~= prev.map_values(|x: Vec<u8>| x@).push(
                    key@,
                ));
                assert(keys@.map_values(|x: Vec<u8>| x@) =~= sel@.take(k + 1).map_values(
                    |i: usize| self.data@[i as int].row_key_view(),
                ));
            }
            k = k + 1;
        }
        assert(sel@.take(k as int) =~= sel@);
        assert(is_oldest_selection(
            last_reads(self.rows()),
            self.rows().len() - max_rows_amount,
            sel@,
        ));
        Some(keys)
    }

    /// The index of the rows' expirations.
    pub fn get_expiration_index(&self) -> (r: &ExpirationIndexContainer)
        requires
            self.wf(),
        ensures
            r@ == self.index(),
            r.wf(),
    {
        &self.rows_with_expiration_index
    }
}

} // verus!
