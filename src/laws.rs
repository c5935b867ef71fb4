use vstd::prelude::*;

use crate::db_partition::DbPartition;
use crate::db_partitions_container::{
    pkeys, pmoments, view_with_expiration, view_with_row, DbPartitionsContainer,
};
use crate::db_row::{DbRow, Expiration};
use crate::db_rows_container::{map_with_expiration, sizes, DbRowsContainer};
use crate::expiration_index::{holds, lemma_present_once};
use crate::sorted_keys::{lemma_holds_at};

verus! {

/// The content size of a partition is the sum of the document sizes of its rows, whatever
/// inserts, replacements and removals came before: every operation keeps `wf`.
pub proof fn law_content_size(p: &DbPartition)
    requires
        p.wf(),
    ensures
        p.content_size_view() == sizes(p.rows.rows()),
{
    p.lemma_content_size();
}

/// A row with an expiration sits exactly once in its partition's index, in the bucket of its
/// moment, and at no other moment.
pub proof fn law_row_expiration_indexed(c: &DbRowsContainer, i: int, m: int)
    requires
        c.wf(),
        0 <= i < c.rows().len(),
        c.rows()[i].expires_moment() == Some(m),
    ensures
        holds(c.index(), c.rows()[i].row_key_view(), m),
        exists|b: int, j: int|
            0 <= b < c.index().len() && 0 <= j < c.index()[b].1.len() && #[trigger] c.index()[b].1[j]
                == c.rows()[i].row_key_view() && c.index()[b].0 == m && forall|b2: int, j2: int|
                0 <= b2 < c.index().len() && 0 <= j2 < c.index()[b2].1.len() && c.index()[b2].0 == m
                    && #[trigger] c.index()[b2].1[j2] == c.rows()[i].row_key_view() ==> b2 == b && j2
                    == j,
        forall|m2: int| m2 != m ==> !holds(c.index(), c.rows()[i].row_key_view(), m2),
{
    c.lemma_wf();
    let k = c.rows()[i].row_key_view();
    assert(holds(c.index(), k, m));
    lemma_present_once(c.index(), k, m);
    assert forall|m2: int| m2 != m implies !holds(c.index(), k, m2) by {
        if holds(c.index(), k, m2) {
            let j = choose|j: int|
                0 <= j < c.rows().len() && (#[trigger] c.rows()[j]).row_key_view() == k
                    && c.rows()[j].expires_moment() == Some(m2);
            crate::db_rows_container::lemma_key_unique(c.rows(), i, j);
        }
    }
}

/// A partition with an expiration sits exactly once in the partition-expiration index, in the
/// bucket of its moment, and at no other moment.
pub proof fn law_partition_expiration_indexed(c: &DbPartitionsContainer, i: int, m: int)
    requires
        c.wf(),
        0 <= i < c.parts().len(),
        pmoments(c.parts())[i] == Some(m),
    ensures
        holds(c.index(), c.parts()[i].partition_key@, m),
        exists|b: int, j: int|
            0 <= b < c.index().len() && 0 <= j < c.index()[b].1.len() && #[trigger] c.index()[b].1[j]
                == c.parts()[i].partition_key@ && c.index()[b].0 == m && forall|b2: int, j2: int|
                0 <= b2 < c.index().len() && 0 <= j2 < c.index()[b2].1.len() && c.index()[b2].0 == m
                    && #[trigger] c.index()[b2].1[j2] == c.parts()[i].partition_key@ ==> b2 == b && j2
                    == j,
        forall|m2: int| m2 != m ==> !holds(c.index(), c.parts()[i].partition_key@, m2),
{
    c.lemma_wf();
    let keys = pkeys(c.parts());
    assert(keys[i] == c.parts()[i].partition_key@);
    lemma_holds_at(keys, pmoments(c.parts()), c.index(), i, m);
    lemma_present_once(c.index(), keys[i], m);
    assert forall|m2: int| m2 != m implies !holds(c.index(), keys[i], m2) by {
        lemma_holds_at(keys, pmoments(c.parts()), c.index(), i, m2);
    }
}

/// A row whose document had no `Expires` and that has no expiration is written back exactly as
/// it was received.
pub proof fn law_round_trip_without_expires(row: &DbRow)
    requires
        row.wf(),
        row.expires_position() is None,
        row.expires_moment() is None,
    ensures
        row.json() == row.raw_view(),
{
    row.lemma_json_without_expires();
}

/// Putting the same row in twice leaves the rows as putting it in once.
pub proof fn law_insert_or_replace_idempotent(
    view: Map<Seq<u8>, Map<Seq<u8>, DbRow>>,
    row: DbRow,
)
    ensures
        view_with_row(view_with_row(view, row), row) == view_with_row(view, row),
{
    let once = view_with_row(view, row);
    let pk = row.partition_key_view();
    assert(once.contains_key(pk));
    assert(once[pk].insert(row.row_key_view(), row) =~= once[pk]);
    assert(view_with_row(once, row) =~= once);
}

/// Setting the same expiration on a row twice leaves the rows as setting it once.
pub proof fn law_update_expiration_idempotent(
    view: Map<Seq<u8>, Map<Seq<u8>, DbRow>>,
    partition_key: Seq<u8>,
    row_key: Seq<u8>,
    e: Option<Expiration>,
)
    ensures
        view_with_expiration(
            view_with_expiration(view, partition_key, row_key, e),
            partition_key,
            row_key,
            e,
        ) == view_with_expiration(view, partition_key, row_key, e),
{
    let once = view_with_expiration(view, partition_key, row_key, e);
    if view.contains_key(partition_key) {
        let rows = view[partition_key];
        if rows.contains_key(row_key) {
            rows[row_key].lemma_with_expiration_twice(e);
            assert(map_with_expiration(map_with_expiration(rows, row_key, e), row_key, e)
                =~= map_with_expiration(rows, row_key, e));
        }
        assert(view_with_expiration(once, partition_key, row_key, e) =~= once);
    }
}

} // verus!
