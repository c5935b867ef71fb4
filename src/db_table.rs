use vstd::prelude::*;

use crate::db_partition::{displaced_rows, insert_rows, key_set, removed_rows, DbPartition};
use crate::db_partitions_container::{partition_written, psizes, rows_of, DbPartitionsContainer};
use crate::db_row::{DbRow, Expiration};
use crate::db_rows_container::{expiring_count, sizes};
use crate::keys::copy_bytes;
use crate::sorted_keys::{int_sum, lemma_int_sum_prefix};
use crate::time::DateTimeAsMicroseconds;

verus! {

/// The settings a table was made with.
#[derive(Clone, Copy, Debug)]
pub struct DbTableAttributes {
    pub persist: bool,
    pub max_partitions_amount: Option<usize>,
    pub max_rows_per_partition_amount: Option<usize>,
    pub created: DateTimeAsMicroseconds,
}

impl DbTableAttributes {
    /// Persisted, with no limits on partitions or rows.
    pub fn create_default(created: DateTimeAsMicroseconds) -> (r: Self)
        ensures
            r.persist,
            r.max_partitions_amount is None,
            r.max_rows_per_partition_amount is None,
            r.created == created,
    {
        DbTableAttributes {
            persist: true,
            max_partitions_amount: None,
            max_rows_per_partition_amount: None,
            created,
        }
    }
}

/// A typical row size: each size seen moves the estimate halfway towards it.
#[derive(Clone, Copy, Debug)]
pub struct AvgSize {
    pub avg: usize,
    pub count: usize,
}

impl AvgSize {
    pub fn new() -> (r: Self)
        ensures
            r.avg == 0,
            r.count == 0,
    {
        AvgSize { avg: 0, count: 0 }
    }

    /// Takes in the size of one more row.
    pub fn add(&mut self, size: usize)
        ensures
            old(self).count == 0 ==> final(self).avg == size,
            old(self).count > 0 ==> final(self).avg == (old(self).avg + size) / 2,
            final(self).count == if old(self).count < usize::MAX {
                old(self).count + 1
            } else {
                old(self).count as int
            },
    {
        if self.count == 0 {
            self.avg = size;
        } else {
            self.avg = self.avg / 2 + size / 2 + (self.avg % 2 + size % 2) / 2;
        }
        if self.count < usize::MAX {
            self.count = self.count + 1;
        }
    }
}

/// The rows of the partitions, partition by partition, each in key order.
pub open spec fn table_rows(parts: Seq<DbPartition>) -> Seq<DbRow>
    decreases parts.len(),
{
    if parts.len() == 0 {
        Seq::empty()
    } else {
        table_rows(parts.drop_last()) + parts.last().rows.rows()
    }
}

/// The rows whose row key is `row_key`, in order.
pub open spec fn rows_with_key(rows: Seq<DbRow>, row_key: Seq<u8>) -> Seq<DbRow>
    decreases rows.len(),
{
    if rows.len() == 0 {
        Seq::empty()
    } else if rows.last().row_key_view() == row_key {
        rows_with_key(rows.drop_last(), row_key).push(rows.last())
    } else {
        rows_with_key(rows.drop_last(), row_key)
    }
}

/// The part of `rows` that skipping `skip` and keeping at most `limit` leaves.
pub open spec fn window(rows: Seq<DbRow>, skip: Option<usize>, limit: Option<usize>) -> Seq<DbRow> {
    let s = match skip {
        Some(n) => if n <= rows.len() {
            n as int
        } else {
            rows.len() as int
        },
        None => 0,
    };
    let rest = rows.skip(s);
    match limit {
        Some(l) => if l <= rest.len() {
            rest.take(l as int)
        } else {
            rest
        },
        None => rest,
    }
}

/// A count that stops at the largest `usize`.
pub open spec fn capped(n: int) -> int {
    if n <= usize::MAX {
        n
    } else {
        usize::MAX as int
    }
}

/// The number of rows of each partition, in order.
pub open spec fn prows(parts: Seq<DbPartition>) -> Seq<int> {
    parts.map_values(|p: DbPartition| p.rows.rows().len() as int)
}

/// The number of rows with an expiration in each partition, in order.
pub open spec fn pexpiring(parts: Seq<DbPartition>) -> Seq<int> {
    parts.map_values(|p: DbPartition| expiring_count(p.rows.rows()))
}

/// The rows that a sequence of references points to.
pub open spec fn derefs(s: Seq<&DbRow>) -> Seq<DbRow> {
    s.map_values(|r: &DbRow| *r)
}

/// Picks the window of `all`.
fn take_window<'a>(all: &Vec<&'a DbRow>, skip: Option<usize>, limit: Option<usize>) -> (r: Vec<&'a DbRow>)
    ensures
        derefs(r@) == window(derefs(all@), skip, limit),
{
    let n = all.len();
    let start: usize = match skip {
        Some(k) => if k <= n {
            k
        } else {
            n
        },
        None => 0,
    };
    let end: usize = match limit {
        Some(l) => if l <= n - start {
            start + l
        } else {
            n
        },
        None => n,
    };
    let mut r: Vec<&'a DbRow> = Vec::new();
    let mut i: usize = start;
    while i < end
        invariant
            start <= i <= end <= n == all@.len(),
            derefs(r@) == derefs(all@).subrange(start as int, i as int),
        decreases end - i,
    {
        let ghost prev = r@;
        r.push(all[i]);
        assert(r@ == prev.push(all@[i as int]));
        assert(derefs(r@) =~= derefs(prev).push(*all@[i as int]));
        assert(derefs(r@) =~= derefs(all@).subrange(start as int, i + 1));
        i = i + 1;
    }
    assert(derefs(r@) =~= window(derefs(all@), skip, limit));
    r
}

/// The documents of the rows, separated by commas.
pub open spec fn json_join(rows: Seq<DbRow>) -> Seq<u8>
    decreases rows.len(),
{
    if rows.len() == 0 {
        Seq::empty()
    } else if rows.len() == 1 {
        rows[0].json()
    } else {
        json_join(rows.drop_last()) + seq![44u8] + rows.last().json()
    }
}

/// The documents of the rows as a JSON array.
pub open spec fn json_array(rows: Seq<DbRow>) -> Seq<u8> {
    seq![91u8] + json_join(rows) + seq![93u8]
}

/// Appends the documents of `rows` to an array under way that already holds `before`.
fn write_rows(out: &mut Vec<u8>, rows: &[DbRow], nothing_before: bool, Ghost(before): Ghost<Seq<DbRow>>)
    requires
        nothing_before == (before.len() == 0),
        forall|i: int| 0 <= i < rows@.len() ==> (#[trigger] rows@[i]).wf(),
        old(out)@ == seq![91u8] + json_join(before),
    ensures
        final(out)@ == seq![91u8] + json_join(before + rows@),
{
    let mut j: usize = 0;
    assert(before + rows@.take(0) =~= before);
    while j < rows.len()
        invariant
            j <= rows@.len(),
            nothing_before == (before.len() == 0),
            forall|i: int| 0 <= i < rows@.len() ==> (#[trigger] rows@[i]).wf(),
            out@ == seq![91u8] + json_join(before + rows@.take(j as int)),
        decreases rows@.len() - j,
    {
        let ghost done = before + rows@.take(j as int);
        if j > 0 || !nothing_before {
            out.push(44u8);
        }
        rows[j].write_json(out);
        proof {
            let next = before + rows@.take(j + 1);
            assert(next.drop_last() =~= done);
            assert(next.last() == rows@[j as int]);
            if done.len() == 0 {
                assert(next.len() == 1);
            }
        }
        j = j + 1;
    }
    assert(rows@.take(j as int) =~= rows@);
}

/// A partition key with the moment its partition was last written.
pub struct PartitionLastWriteMoment {
    pub partition_key: Vec<u8>,
    pub last_write_moment: DateTimeAsMicroseconds,
}

/// A table: its partitions, its settings and the moment it was last written.
pub struct DbTableInner {
    pub name: Vec<u8>,
    pub partitions: DbPartitionsContainer,
    pub avg_size: AvgSize,
    pub last_write_moment: DateTimeAsMicroseconds,
    pub attributes: DbTableAttributes,
}

impl DbTableInner {
    pub open spec fn wf(&self) -> bool {
        self.partitions.wf()
    }

    /// The rows of each partition, by partition key.
    pub open spec fn rows_view(&self) -> Map<Seq<u8>, Map<Seq<u8>, DbRow>> {
        self.partitions.rows_view()
    }

    pub fn new(name: &[u8], attributes: DbTableAttributes, now: DateTimeAsMicroseconds) -> (r: Self)
        ensures
            r.wf(),
            r.name@ == name@,
            r.rows_view() == Map::<Seq<u8>, Map<Seq<u8>, DbRow>>::empty(),
            r.partitions.table_size() == 0,
            r.last_write_moment == now,
            r.attributes == attributes,
    {
        let partitions = DbPartitionsContainer::new();
        proof {
            assert(partitions.rows_view() =~= Map::<Seq<u8>, Map<Seq<u8>, DbRow>>::empty());
            assert(psizes(partitions.parts()) =~= Seq::<int>::empty());
        }
        DbTableInner {
            name: copy_bytes(name),
            partitions,
            avg_size: AvgSize::new(),
            last_write_moment: now,
            attributes,
        }
    }

    /// Puts a partition in as it is, replacing the partition of its key.
    pub fn restore_partition(&mut self, db_partition: DbPartition)
        requires
            old(self).wf(),
            db_partition.wf(),
            old(self).partitions.table_size() + db_partition.content_size_view() <= usize::MAX,
        ensures
            final(self).wf(),
            final(self).partitions.map() == old(self).partitions.map().insert(
                db_partition.partition_key@,
                db_partition,
            ),
    {
        self.partitions.insert(db_partition);
    }

    /// Puts a partition in as it is, replacing the partition of its key.
    pub fn init_partition(&mut self, db_partition: DbPartition)
        requires
            old(self).wf(),
            db_partition.wf(),
            old(self).partitions.table_size() + db_partition.content_size_view() <= usize::MAX,
        ensures
            final(self).wf(),
            final(self).partitions.map() == old(self).partitions.map().insert(
                db_partition.partition_key@,
                db_partition,
            ),
    {
        self.partitions.insert(db_partition);
    }

    pub fn get_partitions_amount(&self) -> (r: usize)
        ensures
            r == self.partitions.parts().len(),
    {
        self.partitions.len()
    }

    pub fn get_last_write_moment(&self) -> (r: DateTimeAsMicroseconds)
        ensures
            r == self.last_write_moment,
    {
        self.last_write_moment
    }

    pub fn get_partition(&self, partition_key: &[u8]) -> (r: Option<&DbPartition>)
        requires
            self.wf(),
        ensures
            r matches Some(p) ==> self.partitions.map().contains_key(partition_key@) && *p
                == self.partitions.map()[partition_key@],
            r is None ==> !self.partitions.map().contains_key(partition_key@),
    {
        self.partitions.get(partition_key)
    }

    pub fn get_partitions(&self) -> (r: &[DbPartition])
        ensures
            r@ == self.partitions.parts(),
    {
        self.partitions.get_partitions()
    }

    /// The sum of the document sizes of all rows.
    pub fn get_table_size(&self) -> (r: usize)
        requires
            self.wf(),
        ensures
            r == self.partitions.table_size(),
    {
        let parts = self.partitions.get_partitions();
        proof {
            self.partitions.lemma_wf();
        }
        let mut result: usize = 0;
        let mut i: usize = 0;
        assert(psizes(parts@).take(0) =~= Seq::<int>::empty());
        while i < parts.len()
            invariant
                parts@ == self.partitions.parts(),
                i <= parts@.len(),
                result == int_sum(psizes(parts@).take(i as int)),
                forall|j: int| 0 <= j < parts@.len() ==> (#[trigger] parts@[j]).wf(),
                int_sum(psizes(parts@)) <= usize::MAX,
            decreases parts@.len() - i,
        {
            proof {
                lemma_int_sum_prefix(psizes(parts@), i as int);
                lemma_prefix_bound(psizes(parts@), i + 1, parts@);
            }
            result = result + parts[i].get_content_size();
            i = i + 1;
        }
        assert(psizes(parts@).take(i as int) =~= psizes(parts@));
        result
    }

    /// All documents of the table as one JSON array.
    pub fn get_table_as_json_array(&self) -> (r: Vec<u8>)
        requires
            self.wf(),
        ensures
            r@ == json_array(table_rows(self.partitions.parts())),
    {
        let parts = self.partitions.get_partitions();
        proof {
            self.partitions.lemma_wf();
        }
        let mut out: Vec<u8> = Vec::new();
        out.push(91u8);
        let mut i: usize = 0;
        let mut nothing_yet = true;
        proof {
            assert(parts@.take(0) =~= Seq::<DbPartition>::empty());
            assert(out@ =~= seq![91u8] + json_join(table_rows(parts@.take(0))));
        }
        while i < parts.len()
            invariant
                parts@ == self.partitions.parts(),
                i <= parts@.len(),
                forall|j: int| 0 <= j < parts@.len() ==> (#[trigger] parts@[j]).wf(),
                out@ == seq![91u8] + json_join(table_rows(parts@.take(i as int))),
                nothing_yet == (table_rows(parts@.take(i as int)).len() == 0),
            decreases parts@.len() - i,
        {
            let rows = parts[i].get_all_rows();
            proof {
                parts@[i as int].rows.lemma_wf();
            }
            write_rows(&mut out, rows, nothing_yet, Ghost(table_rows(parts@.take(i as int))));
            nothing_yet = nothing_yet && rows.len() == 0;
            proof {
                assert(parts@.take(i + 1).drop_last() =~= parts@.take(i as int));
            }
            i = i + 1;
        }
        out.push(93u8);
        assert(parts@.take(i as int) =~= parts@);
        assert(out@ =~= json_array(table_rows(parts@)));
        out
    }

    /// The documents of one partition as a JSON array; an empty array where it is missing.
    pub fn get_partition_as_json_array(&self, partition_key: &[u8]) -> (r: Vec<u8>)
        requires
            self.wf(),
        ensures
            self.partitions.map().contains_key(partition_key@) ==> r@ == json_array(
                self.partitions.map()[partition_key@].rows.rows(),
            ),
            !self.partitions.map().contains_key(partition_key@) ==> r@ == json_array(
                Seq::<DbRow>::empty(),
            ),
    {
        let mut out: Vec<u8> = Vec::new();
        out.push(91u8);
        proof {
            assert(out@ =~= seq![91u8] + json_join(Seq::<DbRow>::empty()));
        }
        if let Some(p) = self.partitions.get(partition_key) {
            proof {
                self.partitions.lemma_wf();
            }
            let rows = p.get_all_rows();
            proof {
                p.rows.lemma_wf();
            }
            write_rows(&mut out, rows, true, Ghost(Seq::<DbRow>::empty()));
            assert(Seq::<DbRow>::empty() + rows@ =~= rows@);
        }
        out.push(93u8);
        proof {
            assert(out@ =~= json_array(
                if self.partitions.map().contains_key(partition_key@) {
                    self.partitions.map()[partition_key@].rows.rows()
                } else {
                    Seq::<DbRow>::empty()
                },
            ));
        }
        out
    }
}

/// Read operations
impl DbTableInner {
    /// All rows, partition by partition, each partition in key order.
    fn all_rows(&self) -> (r: Vec<&DbRow>)
        requires
            self.wf(),
        ensures
            derefs(r@) == table_rows(self.partitions.parts()),
    {
        let parts = self.partitions.get_partitions();
        let mut out: Vec<&DbRow> = Vec::new();
        let mut i: usize = 0;
        assert(parts@.take(0) =~= Seq::<DbPartition>::empty());
        while i < parts.len()
            invariant
                parts@ == self.partitions.parts(),
                i <= parts@.len(),
                derefs(out@) == table_rows(parts@.take(i as int)),
            decreases parts@.len() - i,
        {
            let rows = parts[i].get_all_rows();
            let ghost before = out@;
            let mut j: usize = 0;
            while j < rows.len()
                invariant
                    j <= rows@.len(),
                    derefs(out@) == derefs(before) + rows@.take(j as int),
                decreases rows@.len() - j,
            {
                let ghost prev = out@;
                out.push(&rows[j]);
                assert(derefs(out@) =~= derefs(prev).push(rows@[j as int]));
                assert(derefs(out@) =~= derefs(before) + rows@.take(j + 1));
                j = j + 1;
            }
            proof {
                assert(rows@.take(j as int) =~= rows@);
                assert(parts@.take(i + 1).drop_last() =~= parts@.take(i as int));
            }
            i = i + 1;
        }
        assert(parts@.take(i as int) =~= parts@);
        out
    }

    /// The rows of the table, partition by partition, after skipping `skip` and keeping at
    /// most `limit`.
    pub fn get_all_rows(&self, skip: Option<usize>, limit: Option<usize>) -> (r: Vec<&DbRow>)
        requires
            self.wf(),
        ensures
            derefs(r@) == window(table_rows(self.partitions.parts()), skip, limit),
    {
        let all = self.all_rows();
        take_window(&all, skip, limit)
    }

    /// The rows of row key `row_key` in every partition, after skipping `skip` and keeping at
    /// most `limit`.
    pub fn get_by_row_key(&self, row_key: &[u8], skip: Option<usize>, limit: Option<usize>) -> (r:
        Vec<&DbRow>)
        requires
            self.wf(),
        ensures
            derefs(r@) == window(rows_with_key(table_rows(self.partitions.parts()), row_key@), skip, limit),
    {
        let all = self.all_rows();
        proof {
            self.partitions.lemma_wf();
            lemma_table_rows_wf(self.partitions.parts());
        }
        let mut found: Vec<&DbRow> = Vec::new();
        let mut i: usize = 0;
        let ghost rows = derefs(all@);
        assert(rows.take(0) =~= Seq::<DbRow>::empty());
        assert(derefs(found@) =~= Seq::<DbRow>::empty());
        while i < all.len()
            invariant
                i <= all@.len(),
                rows == derefs(all@),
                forall|j: int| 0 <= j < rows.len() ==> (#[trigger] rows[j]).wf(),
                derefs(found@) == rows_with_key(rows.take(i as int), row_key@),
            decreases all@.len() - i,
        {
            proof {
                assert(rows.take(i + 1).drop_last() =~= rows.take(i as int));
                assert(rows[i as int] == *all@[i as int]);
            }
            if crate::keys::bytes_eq(all[i].get_row_key(), row_key) {
                let ghost prev = found@;
                found.push(all[i]);
                assert(derefs(found@) =~= derefs(prev).push(rows[i as int]));
            }
            i = i + 1;
        }
        assert(rows.take(i as int) =~= rows);
        take_window(&found, skip, limit)
    }

    /// The moment each partition was last written, in partition key order.
    pub fn get_partitions_last_write_moment(&self) -> (r: Vec<PartitionLastWriteMoment>)
        ensures
            r@.len() == self.partitions.parts().len(),
            forall|i: int|
                0 <= i < r@.len() ==> (#[trigger] r@[i]).partition_key@ == self.partitions.parts()[i].partition_key@
                    && r@[i].last_write_moment == self.partitions.parts()[i].last_write_moment,
    {
        let parts = self.partitions.get_partitions();
        let mut r: Vec<PartitionLastWriteMoment> = Vec::new();
        let mut i: usize = 0;
        while i < parts.len()
            invariant
                parts@ == self.partitions.parts(),
                i <= parts@.len(),
                r@.len() == i,
                forall|j: int|
                    0 <= j < i ==> (#[trigger] r@[j]).partition_key@ == parts@[j].partition_key@
                        && r@[j].last_write_moment == parts@[j].last_write_moment,
            decreases parts@.len() - i,
        {
            r.push(
                PartitionLastWriteMoment {
                    partition_key: copy_bytes(parts[i].partition_key.as_slice()),
                    last_write_moment: parts[i].last_write_moment,
                },
            );
            i = i + 1;
        }
        r
    }

    /// The number of rows of all partitions (stopping at the largest `usize`).
    pub fn get_rows_amount(&self) -> (r: usize)
        requires
            self.wf(),
        ensures
            r == capped(int_sum(prows(self.partitions.parts()))),
    {
        let parts = self.partitions.get_partitions();
        let mut result: usize = 0;
        let mut i: usize = 0;
        assert(prows(parts@).take(0) =~= Seq::<int>::empty());
        while i < parts.len()
            invariant
                parts@ == self.partitions.parts(),
                i <= parts@.len(),
                result == capped(int_sum(prows(parts@).take(i as int))),
                int_sum(prows(parts@).take(i as int)) >= 0,
            decreases parts@.len() - i,
        {
            proof {
                lemma_int_sum_prefix(prows(parts@), i as int);
            }
            let add = parts[i].rows_count();
            if result > usize::MAX - add {
                result = usize::MAX;
            } else {
                result = result + add;
            }
            i = i + 1;
        }
        assert(prows(parts@).take(i as int) =~= prows(parts@));
        result
    }

    /// The number of rows of all partitions that have an expiration (stopping at the largest
    /// `usize`).
    pub fn get_expiration_index_rows_amount(&self) -> (r: usize)
        requires
            self.wf(),
        ensures
            r == capped(int_sum(pexpiring(self.partitions.parts()))),
    {
        let parts = self.partitions.get_partitions();
        proof {
            self.partitions.lemma_wf();
        }
        let mut result: usize = 0;
        let mut i: usize = 0;
        assert(pexpiring(parts@).take(0) =~= Seq::<int>::empty());
        while i < parts.len()
            invariant
                parts@ == self.partitions.parts(),
                forall|j: int| 0 <= j < parts@.len() ==> (#[trigger] parts@[j]).wf(),
                i <= parts@.len(),
                result == capped(int_sum(pexpiring(parts@).take(i as int))),
                int_sum(pexpiring(parts@).take(i as int)) >= 0,
            decreases parts@.len() - i,
        {
            proof {
                lemma_int_sum_prefix(pexpiring(parts@), i as int);
                crate::db_rows_container::lemma_expiring_count_bounds(parts@[i as int].rows.rows());
            }
            let add = parts[i].get_expiration_index_rows_amount();
            if result > usize::MAX - add {
                result = usize::MAX;
            } else {
                result = result + add;
            }
            i = i + 1;
        }
        assert(pexpiring(parts@).take(i as int) =~= pexpiring(parts@));
        result
    }
}

/// Insert operations
impl DbTableInner {
    /// Puts a row into the partition of its key, made where there was none, replacing the row
    /// of its key; gives back the partition key and the replaced row.
    pub fn insert_or_replace_row(
        &mut self,
        db_row: DbRow,
        now: DateTimeAsMicroseconds,
        set_last_write_moment: Option<DateTimeAsMicroseconds>,
    ) -> (r: (Vec<u8>, Option<DbRow>))
        requires
            old(self).wf(),
            db_row.wf(),
            old(self).partitions.table_size() + db_row.raw_view().len() <= usize::MAX,
        ensures
            final(self).wf(),
            r.0@ == db_row.partition_key_view(),
            final(self).rows_view() == crate::db_partitions_container::view_with_row(
                old(self).rows_view(),
                db_row,
            ),
            final(self).rows_view() == old(self).rows_view().insert(
                db_row.partition_key_view(),
                rows_of(old(self).rows_view(), db_row.partition_key_view()).insert(
                    db_row.row_key_view(),
                    db_row,
                ),
            ),
            r.1 matches Some(d) ==> d == rows_of(old(self).rows_view(), db_row.partition_key_view())[db_row.row_key_view()],
            r.1 is None <==> !rows_of(old(self).rows_view(), db_row.partition_key_view()).contains_key(
                db_row.row_key_view(),
            ),
            final(self).partitions.table_size() == old(self).partitions.table_size()
                + db_row.raw_view().len() - match r.1 {
                Some(d) => d.raw_view().len() as int,
                None => 0int,
            },
            set_last_write_moment matches Some(m) ==> final(self).last_write_moment == m,
            set_last_write_moment is None ==> final(self).last_write_moment == old(self).last_write_moment,
            partition_written(
                old(self).partitions.map(),
                final(self).partitions.map(),
                db_row.partition_key_view(),
                now,
                set_last_write_moment,
            ),
    {
        self.avg_size.add(db_row.get_src_as_slice().len());
        let partition_key = copy_bytes(db_row.get_partition_key());
        let removed = self.partitions.insert_or_replace_row(db_row, now, set_last_write_moment);
        if let Some(m) = set_last_write_moment {
            self.last_write_moment = m;
        }
        (partition_key, removed)
    }

    /// Puts a row in unless its partition holds its key already; gives back the partition key
    /// where it went in.
    pub fn insert_row(
        &mut self,
        db_row: DbRow,
        now: DateTimeAsMicroseconds,
        set_last_write_moment: Option<DateTimeAsMicroseconds>,
    ) -> (r: Option<Vec<u8>>)
        requires
            old(self).wf(),
            db_row.wf(),
            old(self).partitions.table_size() + db_row.raw_view().len() <= usize::MAX,
        ensures
            final(self).wf(),
            r is Some == !rows_of(old(self).rows_view(), db_row.partition_key_view()).contains_key(
                db_row.row_key_view(),
            ),
            r matches Some(pk) ==> pk@ == db_row.partition_key_view() && final(self).rows_view()
                == old(self).rows_view().insert(
                db_row.partition_key_view(),
                rows_of(old(self).rows_view(), db_row.partition_key_view()).insert(
                    db_row.row_key_view(),
                    db_row,
                ),
            ),
            r is None ==> final(self).rows_view() == old(self).rows_view(),
            r is Some ==> final(self).partitions.table_size() == old(self).partitions.table_size()
                + db_row.raw_view().len() && partition_written(
                old(self).partitions.map(),
                final(self).partitions.map(),
                db_row.partition_key_view(),
                now,
                set_last_write_moment,
            ),
            r is None ==> final(self).partitions.table_size() == old(self).partitions.table_size()
                && final(self).partitions.map() == old(self).partitions.map()
                && final(self).last_write_moment == old(self).last_write_moment,
            r is Some ==> (set_last_write_moment matches Some(m) ==> final(self).last_write_moment == m),
            r is Some && set_last_write_moment is None ==> final(self).last_write_moment == old(self).last_write_moment,
    {
        self.avg_size.add(db_row.get_src_as_slice().len());
        let partition_key = copy_bytes(db_row.get_partition_key());
        let inserted = self.partitions.insert_row(db_row, now, set_last_write_moment);
        if inserted {
            if let Some(m) = set_last_write_moment {
                self.last_write_moment = m;
            }
            Some(partition_key)
        } else {
            None
        }
    }

    /// Puts rows into partition `partition_key` one after another; returns the rows replaced.
    pub fn bulk_insert_or_replace(
        &mut self,
        partition_key: &[u8],
        db_rows: Vec<DbRow>,
        now: DateTimeAsMicroseconds,
        set_last_write_moment: Option<DateTimeAsMicroseconds>,
    ) -> (r: (Vec<u8>, Vec<DbRow>))
        requires
            old(self).wf(),
            forall|i: int| 0 <= i < db_rows@.len() ==> (#[trigger] db_rows@[i]).wf(),
            old(self).partitions.table_size() + sizes(db_rows@) <= usize::MAX,
        ensures
            final(self).wf(),
            r.0@ == partition_key@,
            final(self).rows_view() == old(self).rows_view().insert(
                partition_key@,
                insert_rows(rows_of(old(self).rows_view(), partition_key@), db_rows@),
            ),
            r.1@ == displaced_rows(rows_of(old(self).rows_view(), partition_key@), db_rows@),
            partition_written(
                old(self).partitions.map(),
                final(self).partitions.map(),
                partition_key@,
                now,
                set_last_write_moment,
            ),
            set_last_write_moment matches Some(m) ==> final(self).last_write_moment == m,
            set_last_write_moment is None ==> final(self).last_write_moment == old(self).last_write_moment,
    {
        let mut i: usize = 0;
        while i < db_rows.len()
            invariant
                i <= db_rows@.len(),
                self.wf(),
                self.partitions == old(self).partitions,
                self.last_write_moment == old(self).last_write_moment,
            decreases db_rows@.len() - i,
        {
            self.avg_size.add(db_rows[i].get_src_as_slice().len());
            i = i + 1;
        }
        let removed = self.partitions.bulk_insert_or_replace(
            partition_key,
            db_rows,
            now,
            set_last_write_moment,
        );
        if let Some(m) = set_last_write_moment {
            self.last_write_moment = m;
        }
        (copy_bytes(partition_key), removed)
    }
}

/// Delete operations
impl DbTableInner {
    /// Removes one row; gives it back with whether its partition is then empty. An empty
    /// partition goes too where `delete_empty_partition` asks for it.
    pub fn remove_row(
        &mut self,
        partition_key: &[u8],
        row_key: &[u8],
        delete_empty_partition: bool,
        set_last_write_moment: Option<DateTimeAsMicroseconds>,
    ) -> (r: Option<(Vec<u8>, DbRow, bool)>)
        requires
            old(self).wf(),
        ensures
            final(self).wf(),
            r is None ==> !rows_of(old(self).rows_view(), partition_key@).contains_key(row_key@)
                && final(self).rows_view() == old(self).rows_view(),
            r matches Some((pk, d, empty)) ==> {
                let rows = rows_of(old(self).rows_view(), partition_key@);
                &&& pk@ == partition_key@
                &&& rows.contains_key(row_key@)
                &&& d == rows[row_key@]
                &&& empty == (rows.remove(row_key@) == Map::<Seq<u8>, DbRow>::empty())
                &&& final(self).rows_view() == if delete_empty_partition && empty {
                    old(self).rows_view().remove(partition_key@)
                } else {
                    old(self).rows_view().insert(partition_key@, rows.remove(row_key@))
                }
            },
            r is None ==> final(self).last_write_moment == old(self).last_write_moment,
            r is Some ==> (set_last_write_moment matches Some(m) ==> final(self).last_write_moment == m),
            r is Some && set_last_write_moment is None ==> final(self).last_write_moment == old(self).last_write_moment,
            r matches Some((_, _, empty)) ==> !(delete_empty_partition && empty) ==> partition_written(
                old(self).partitions.map(),
                final(self).partitions.map(),
                partition_key@,
                DateTimeAsMicroseconds { unix_microseconds: 0 },
                set_last_write_moment,
            ),
    {
        match self.partitions.remove_row(
            partition_key,
            row_key,
            delete_empty_partition,
            set_last_write_moment,
        ) {
            Some((d, empty)) => {
                if let Some(m) = set_last_write_moment {
                    self.last_write_moment = m;
                }
                Some((copy_bytes(partition_key), d, empty))
            },
            None => None,
        }
    }

    /// Removes the rows of the given keys from one partition; gives back those removed, in the
    /// order of their keys, with whether the partition is then empty, or none where none of the
    /// keys was there. An empty partition goes too where `delete_empty_partition` asks for it.
    pub fn bulk_remove_rows(
        &mut self,
        partition_key: &[u8],
        row_keys: &Vec<Vec<u8>>,
        delete_empty_partition: bool,
        set_last_write_moment: Option<DateTimeAsMicroseconds>,
    ) -> (r: Option<(Vec<u8>, Vec<DbRow>, bool)>)
        requires
            old(self).wf(),
        ensures
            final(self).wf(),
            r is None <==> forall|k: Seq<u8>|
                #[trigger] key_set(row_keys@).contains(k) ==> !rows_of(
                    old(self).rows_view(),
                    partition_key@,
                ).contains_key(k),
            r is None ==> final(self).rows_view() == old(self).rows_view()
                && final(self).last_write_moment == old(self).last_write_moment,
            r matches Some((pk, v, empty)) ==> {
                let rows = rows_of(old(self).rows_view(), partition_key@);
                let left = rows.remove_keys(key_set(row_keys@));
                &&& pk@ == partition_key@
                &&& v@ == removed_rows(rows, row_keys@.map_values(|k: Vec<u8>| k@))
                &&& empty == (left == Map::<Seq<u8>, DbRow>::empty())
                &&& final(self).rows_view() == if delete_empty_partition && empty {
                    old(self).rows_view().remove(partition_key@)
                } else {
                    old(self).rows_view().insert(partition_key@, left)
                }
            },
            r is Some ==> (set_last_write_moment matches Some(m) ==> final(self).last_write_moment == m),
            r is Some && set_last_write_moment is None ==> final(self).last_write_moment == old(self).last_write_moment,
            r matches Some((_, _, empty)) ==> !(delete_empty_partition && empty) ==> partition_written(
                old(self).partitions.map(),
                final(self).partitions.map(),
                partition_key@,
                DateTimeAsMicroseconds { unix_microseconds: 0 },
                set_last_write_moment,
            ),
    {
        match self.partitions.bulk_remove_rows(
            partition_key,
            row_keys,
            delete_empty_partition,
            set_last_write_moment,
        ) {
            Some((removed, empty)) => {
                if let Some(m) = set_last_write_moment {
                    self.last_write_moment = m;
                }
                Some((copy_bytes(partition_key), removed, empty))
            },
            None => None,
        }
    }

    /// Removes a whole partition.
    pub fn remove_partition(
        &mut self,
        partition_key: &[u8],
        set_last_write_moment: Option<DateTimeAsMicroseconds>,
    ) -> (r: Option<DbPartition>)
        requires
            old(self).wf(),
        ensures
            final(self).wf(),
            final(self).rows_view() == old(self).rows_view().remove(partition_key@),
            r is Some <==> old(self).rows_view().contains_key(partition_key@),
    {
        let removed = self.partitions.remove_partition(partition_key);
        if removed.is_some() {
            if let Some(m) = set_last_write_moment {
                self.last_write_moment = m;
            }
        }
        removed
    }

    /// Empties the table; hands back its partitions, or none where it had none.
    pub fn clear_table(&mut self) -> (r: Option<Vec<DbPartition>>)
        requires
            old(self).wf(),
        ensures
            final(self).wf(),
            final(self).partitions.parts().len() == 0,
            r is None <==> old(self).partitions.parts().len() == 0,
            r matches Some(v) ==> v@ == old(self).partitions.parts(),
    {
        self.partitions.clear()
    }

    /// Sets the expiration of one row; returns a copy of it where its moment changed.
    pub fn update_expiration_time(
        &mut self,
        partition_key: &[u8],
        row_key: &[u8],
        expiration_time: Option<Expiration>,
    ) -> (r: Option<DbRow>)
        requires
            old(self).wf(),
        ensures
            final(self).wf(),
            final(self).rows_view().dom() == old(self).rows_view().dom(),
            r is Some <==> rows_of(old(self).rows_view(), partition_key@).contains_key(row_key@)
                && rows_of(old(self).rows_view(), partition_key@)[row_key@].expires_moment()
                != crate::db_row::moment_of(expiration_time),
            rows_of(old(self).rows_view(), partition_key@).contains_key(row_key@) ==> rows_of(
                final(self).rows_view(),
                partition_key@,
            )[row_key@].expires_moment() == crate::db_row::moment_of(expiration_time),
            final(self).rows_view() == crate::db_partitions_container::view_with_expiration(
                old(self).rows_view(),
                partition_key@,
                row_key@,
                expiration_time,
            ),
    {
        self.partitions.update_expiration_time(partition_key, row_key, expiration_time)
    }
}

proof fn lemma_table_rows_wf(parts: Seq<DbPartition>)
    requires
        forall|j: int| 0 <= j < parts.len() ==> (#[trigger] parts[j]).wf(),
    ensures
        forall|j: int| 0 <= j < table_rows(parts).len() ==> (#[trigger] table_rows(parts)[j]).wf(),
    decreases parts.len(),
{
    if parts.len() > 0 {
        lemma_table_rows_wf(parts.drop_last());
        parts.last().rows.lemma_wf();
        let a = table_rows(parts.drop_last());
        let b = parts.last().rows.rows();
        assert forall|j: int| 0 <= j < table_rows(parts).len() implies (#[trigger] table_rows(
            parts,
        )[j]).wf() by {
            if j < a.len() {
                assert(table_rows(parts)[j] == a[j]);
            } else {
                assert(table_rows(parts)[j] == b[j - a.len()]);
            }
        }
    }
}

proof fn lemma_prefix_bound(s: Seq<int>, i: int, parts: Seq<DbPartition>)
    requires
        0 <= i <= s.len(),
        s == psizes(parts),
        forall|j: int| 0 <= j < parts.len() ==> (#[trigger] parts[j]).wf(),
    ensures
        int_sum(s.take(i)) <= int_sum(s),
    decreases s.len() - i,
{
    if i < s.len() {
        lemma_int_sum_prefix(s, i);
        parts[i].lemma_content_size();
        lemma_prefix_bound(s, i + 1, parts);
    } else {
        assert(s.take(i) =~= s);
    }
}

} // verus!
