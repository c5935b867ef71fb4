use vstd::prelude::*;

use crate::db_partition::{displaced_rows, insert_rows, key_set, removed_rows, DbPartition};
use crate::db_partitions_container::{rows_of, view_with_row};
use crate::db_row::DbRow;
use crate::db_rows_container::sizes;
use crate::db_table::{derefs, json_array, table_rows, DbTableAttributes, DbTableInner};
use crate::time::DateTimeAsMicroseconds;

verus! {

/// A table as a reading node holds it: rows by partition, without write moments or limits.
pub struct DbTable {
    pub inner: DbTableInner,
}

impl DbTable {
    pub open spec fn wf(&self) -> bool {
        self.inner.wf()
    }

    /// The rows of each partition, by partition key.
    pub open spec fn rows_view(&self) -> Map<Seq<u8>, Map<Seq<u8>, DbRow>> {
        self.inner.rows_view()
    }

    pub fn new(name: &[u8]) -> (r: Self)
        ensures
            r.wf(),
            r.inner.name@ == name@,
            r.rows_view() == Map::<Seq<u8>, Map<Seq<u8>, DbRow>>::empty(),
    {
        let zero = DateTimeAsMicroseconds::new(0);
        DbTable { inner: DbTableInner::new(name, DbTableAttributes::create_default(zero), zero) }
    }

    pub fn get_partitions_amount(&self) -> (r: usize)
        ensures
            r == self.inner.partitions.parts().len(),
    {
        self.inner.get_partitions_amount()
    }

    /// All rows, partition by partition.
    pub fn get_all_rows(&self) -> (r: Vec<&DbRow>)
        requires
            self.wf(),
        ensures
            derefs(r@) == table_rows(self.inner.partitions.parts()),
    {
        let r = self.inner.get_all_rows(None, None);
        proof {
            let rows = table_rows(self.inner.partitions.parts());
            assert(rows.skip(0) =~= rows);
        }
        r
    }

    pub fn get_table_as_json_array(&self) -> (r: Vec<u8>)
        requires
            self.wf(),
        ensures
            r@ == json_array(table_rows(self.inner.partitions.parts())),
    {
        self.inner.get_table_as_json_array()
    }

    pub fn get_rows_amount(&self) -> (r: usize)
        requires
            self.wf(),
        ensures
            r == crate::db_table::capped(
                crate::sorted_keys::int_sum(crate::db_table::prows(self.inner.partitions.parts())),
            ),
    {
        self.inner.get_rows_amount()
    }

    pub fn get_table_size(&self) -> (r: usize)
        requires
            self.wf(),
        ensures
            r == self.inner.partitions.table_size(),
    {
        self.inner.get_table_size()
    }

    pub fn get_partition_as_json_array(&self, partition_key: &[u8]) -> (r: Vec<u8>)
        requires
            self.wf(),
        ensures
            self.inner.partitions.map().contains_key(partition_key@) ==> r@ == json_array(
                self.inner.partitions.map()[partition_key@].rows.rows(),
            ),
            !self.inner.partitions.map().contains_key(partition_key@) ==> r@ == json_array(
                Seq::<DbRow>::empty(),
            ),
    {
        self.inner.get_partition_as_json_array(partition_key)
    }

    pub fn get_partition(&self, partition_key: &[u8]) -> (r: Option<&DbPartition>)
        requires
            self.wf(),
        ensures
            r matches Some(p) ==> self.inner.partitions.map().contains_key(partition_key@) && *p
                == self.inner.partitions.map()[partition_key@],
            r is None ==> !self.inner.partitions.map().contains_key(partition_key@),
    {
        self.inner.get_partition(partition_key)
    }

    pub fn get_partitions(&self) -> (r: &[DbPartition])
        ensures
            r@ == self.inner.partitions.parts(),
    {
        self.inner.get_partitions()
    }

    /// Puts a row into the partition of its key, made where there was none, replacing the row
    /// of its key, which is returned.
    pub fn insert_or_replace_row(&mut self, db_row: DbRow, now: DateTimeAsMicroseconds) -> (r:
        Option<DbRow>)
        requires
            old(self).wf(),
            db_row.wf(),
            old(self).inner.partitions.table_size() + db_row.raw_view().len() <= usize::MAX,
        ensures
            final(self).wf(),
            final(self).rows_view() == view_with_row(old(self).rows_view(), db_row),
            r is None <==> !rows_of(old(self).rows_view(), db_row.partition_key_view()).contains_key(
                db_row.row_key_view(),
            ),
            r matches Some(d) ==> d == rows_of(old(self).rows_view(), db_row.partition_key_view())[db_row.row_key_view()],
    {
        self.inner.insert_or_replace_row(db_row, now, None).1
    }

    /// Puts a row in unless its partition holds its key already; tells whether it went in.
    pub fn insert_row(&mut self, db_row: DbRow, now: DateTimeAsMicroseconds) -> (r: bool)
        requires
            old(self).wf(),
            db_row.wf(),
            old(self).inner.partitions.table_size() + db_row.raw_view().len() <= usize::MAX,
        ensures
            final(self).wf(),
            r == !rows_of(old(self).rows_view(), db_row.partition_key_view()).contains_key(
                db_row.row_key_view(),
            ),
            r ==> final(self).rows_view() == view_with_row(old(self).rows_view(), db_row),
            !r ==> final(self).rows_view() == old(self).rows_view(),
    {
        self.inner.insert_row(db_row, now, None).is_some()
    }

    /// Puts rows into partition `partition_key` one after another; returns the rows replaced.
    pub fn bulk_insert_or_replace(
        &mut self,
        partition_key: &[u8],
        db_rows: Vec<DbRow>,
        now: DateTimeAsMicroseconds,
    ) -> (r: Vec<DbRow>)
        requires
            old(self).wf(),
            forall|i: int| 0 <= i < db_rows@.len() ==> (#[trigger] db_rows@[i]).wf(),
            old(self).inner.partitions.table_size() + sizes(db_rows@) <= usize::MAX,
        ensures
            final(self).wf(),
            final(self).rows_view() == old(self).rows_view().insert(
                partition_key@,
                insert_rows(rows_of(old(self).rows_view(), partition_key@), db_rows@),
            ),
            r@ == displaced_rows(rows_of(old(self).rows_view(), partition_key@), db_rows@),
    {
        self.inner.bulk_insert_or_replace(partition_key, db_rows, now, None).1
    }

    /// Puts a partition in as it is, replacing the partition of its key.
    pub fn init_partition(&mut self, db_partition: DbPartition)
        requires
            old(self).wf(),
            db_partition.wf(),
            old(self).inner.partitions.table_size() + db_partition.content_size_view() <= usize::MAX,
        ensures
            final(self).wf(),
            final(self).inner.partitions.map() == old(self).inner.partitions.map().insert(
                db_partition.partition_key@,
                db_partition,
            ),
    {
        self.inner.init_partition(db_partition)
    }

    /// Removes one row; gives it back with whether its partition is then empty, dropping an
    /// empty partition where asked to.
    pub fn remove_row(&mut self, partition_key: &[u8], row_key: &[u8], delete_empty_partition: bool) -> (r:
        Option<(DbRow, bool)>)
        requires
            old(self).wf(),
        ensures
            final(self).wf(),
            r is None ==> !rows_of(old(self).rows_view(), partition_key@).contains_key(row_key@)
                && final(self).rows_view() == old(self).rows_view(),
            r matches Some((d, empty)) ==> {
                let rows = rows_of(old(self).rows_view(), partition_key@);
                &&& rows.contains_key(row_key@)
                &&& d == rows[row_key@]
                &&& empty == (rows.remove(row_key@) == Map::<Seq<u8>, DbRow>::empty())
                &&& final(self).rows_view() == if delete_empty_partition && empty {
                    old(self).rows_view().remove(partition_key@)
                } else {
                    old(self).rows_view().insert(partition_key@, rows.remove(row_key@))
                }
            },
    {
        match self.inner.remove_row(partition_key, row_key, delete_empty_partition, None) {
            Some((_, d, empty)) => Some((d, empty)),
            None => None,
        }
    }

    /// Removes the rows of the given keys from one partition; gives back those removed with
    /// whether the partition is then empty, or none where nothing was removed.
    pub fn bulk_remove_rows(
        &mut self,
        partition_key: &[u8],
        row_keys: &Vec<Vec<u8>>,
        delete_empty_partition: bool,
    ) -> (r: Option<(Vec<DbRow>, bool)>)
        requires
            old(self).wf(),
        ensures
            final(self).wf(),
            r is None <==> forall|k: Seq<u8>|
                #[trigger] key_set(row_keys@).contains(k) ==> !rows_of(
                    old(self).rows_view(),
                    partition_key@,
                ).contains_key(k),
            r is None ==> final(self).rows_view() == old(self).rows_view(),
            r matches Some((v, empty)) ==> {
                let rows = rows_of(old(self).rows_view(), partition_key@);
                let left = rows.remove_keys(key_set(row_keys@));
                &&& v@ == removed_rows(rows, row_keys@.map_values(|k: Vec<u8>| k@))
                &&& empty == (left == Map::<Seq<u8>, DbRow>::empty())
                &&& final(self).rows_view() == if delete_empty_partition && empty {
                    old(self).rows_view().remove(partition_key@)
                } else {
                    old(self).rows_view().insert(partition_key@, left)
                }
            },
    {
        match self.inner.bulk_remove_rows(partition_key, row_keys, delete_empty_partition, None) {
            Some((_, removed, empty)) => Some((removed, empty)),
            None => None,
        }
    }

    /// Removes a whole partition.
    pub fn remove_partition(&mut self, partition_key: &[u8]) -> (r: Option<DbPartition>)
        requires
            old(self).wf(),
        ensures
            final(self).wf(),
            final(self).rows_view() == old(self).rows_view().remove(partition_key@),
            r is Some <==> old(self).rows_view().contains_key(partition_key@),
    {
        self.inner.remove_partition(partition_key, None)
    }

    /// Empties the table; hands back its partitions, or none where it had none.
    pub fn clear_table(&mut self) -> (r: Option<Vec<DbPartition>>)
        requires
            old(self).wf(),
        ensures
            final(self).wf(),
            final(self).inner.partitions.parts().len() == 0,
            r is None <==> old(self).inner.partitions.parts().len() == 0,
    {
        self.inner.clear_table()
    }
}

} // verus!
