use vstd::prelude::*;

use crate::db_row::{DbRow, Expiration};
use crate::db_rows_container::{
    expiring_count, sizes, lemma_sizes_nonneg, DbRowsContainer,
};
use crate::expiration_index::{expired_count, flatten, holds};
use crate::keys::copy_bytes;
use crate::time::DateTimeAsMicroseconds;

verus! {

/// `m` after putting in `rows` one by one, a later row replacing an earlier one of its key.
pub open spec fn insert_rows(m: Map<Seq<u8>, DbRow>, rows: Seq<DbRow>) -> Map<Seq<u8>, DbRow>
    decreases rows.len(),
{
    if rows.len() == 0 {
        m
    } else {
        insert_rows(m, rows.drop_last()).insert(rows.last().row_key_view(), rows.last())
    }
}

/// The rows that putting in `rows` one by one replaces, in the order of `rows`: for each, the
/// row held under its key just before it went in, where there was one.
pub open spec fn displaced_rows(m: Map<Seq<u8>, DbRow>, rows: Seq<DbRow>) -> Seq<DbRow>
    decreases rows.len(),
{
    if rows.len() == 0 {
        Seq::empty()
    } else {
        let prev = rows.drop_last();
        let cur = insert_rows(m, prev);
        let k = rows.last().row_key_view();
        displaced_rows(m, prev) + if cur.contains_key(k) {
            seq![cur[k]]
        } else {
            Seq::<DbRow>::empty()
        }
    }
}

/// The rows that removing `keys` one by one takes out, in the order of `keys`.
pub open spec fn removed_rows(m: Map<Seq<u8>, DbRow>, keys: Seq<Seq<u8>>) -> Seq<DbRow>
    decreases keys.len(),
{
    if keys.len() == 0 {
        Seq::empty()
    } else {
        let prev = keys.drop_last();
        let cur = m.remove_keys(prev.to_set());
        let k = keys.last();
        removed_rows(m, prev) + if cur.contains_key(k) {
            seq![cur[k]]
        } else {
            Seq::<DbRow>::empty()
        }
    }
}

/// The keys of a list of byte strings, as a set.
pub open spec fn key_set(keys: Seq<Vec<u8>>) -> Set<Seq<u8>> {
    keys.map_values(|k: Vec<u8>| k@).to_set()
}

proof fn lemma_sizes_prefix(rows: Seq<DbRow>, i: int)
    requires
        0 <= i <= rows.len(),
    ensures
        sizes(rows.take(i)) <= sizes(rows),
        i < rows.len() ==> sizes(rows.take(i + 1)) == sizes(rows.take(i)) + rows[i].raw_view().len(),
    decreases rows.len(),
{
    if i < rows.len() {
        assert(rows.take(i + 1).drop_last() =~= rows.take(i));
        lemma_sizes_prefix(rows.drop_last(), if i == rows.len() - 1 { i } else { i });
        if i == rows.len() - 1 {
            assert(rows.drop_last() =~= rows.take(i));
            assert(rows.take(i + 1) =~= rows);
        } else {
            assert(rows.drop_last().take(i) =~= rows.take(i));
            assert(rows.drop_last().take(i + 1) =~= rows.take(i + 1));
            lemma_sizes_nonneg(rows.take(i));
        }
    } else {
        assert(rows.take(i) =~= rows);
    }
}

/// A partition as the partition-expiration index sees it: its key and its expiration.
pub struct DbPartitionExpirationIndexOwned {
    pub partition_key: Vec<u8>,
    pub expires: Option<DateTimeAsMicroseconds>,
}

/// The rows that share one partition key, with their total document size.
pub struct DbPartition {
    pub partition_key: Vec<u8>,
    pub expires: Option<DateTimeAsMicroseconds>,
    pub rows: DbRowsContainer,
    pub last_read_moment: DateTimeAsMicroseconds,
    pub last_write_moment: DateTimeAsMicroseconds,
    pub content_size: usize,
}

impl DbPartition {
    pub open spec fn content_size_view(&self) -> int {
        self.content_size as int
    }

    pub open spec fn wf(&self) -> bool {
        &&& self.rows.wf()
        &&& self.content_size_view() == sizes(self.rows.rows())
    }

    pub fn new(partition_key: &[u8], now: DateTimeAsMicroseconds) -> (r: Self)
        ensures
            r.wf(),
            r.partition_key@ == partition_key@,
            r.rows.map() == Map::<Seq<u8>, DbRow>::empty(),
            r.rows.rows().len() == 0,
            r.expires is None,
            r.last_read_moment == now,
            r.last_write_moment == now,
            r.content_size_view() == 0,
    {
        let rows = DbRowsContainer::new();
        proof {
            assert(rows.map() =~= Map::<Seq<u8>, DbRow>::empty());
        }
        DbPartition {
            partition_key: copy_bytes(partition_key),
            expires: None,
            rows,
            last_read_moment: now,
            last_write_moment: now,
            content_size: 0,
        }
    }

    /// Every partition keeps its content size equal to the sum of its rows' document sizes.
    pub proof fn lemma_content_size(&self)
        requires
            self.wf(),
        ensures
            self.content_size_view() == sizes(self.rows.rows()),
            self.content_size_view() >= 0,
    {
        lemma_sizes_nonneg(self.rows.rows());
    }

    /// The keys of the rows whose expiration is not later than `now`.
    pub fn get_rows_to_expire(&self, now: DateTimeAsMicroseconds) -> (r: Vec<Vec<u8>>)
        requires
            self.wf(),
        ensures
            r@.map_values(|x: Vec<u8>| x@) == flatten(
                self.rows.index().take(
                    expired_count(self.rows.index(), now.unix_microseconds as int) as int,
                ),
            ),
    {
        self.rows.get_rows_to_expire(now)
    }

    pub fn get_expiration_index_owned(&self) -> (r: DbPartitionExpirationIndexOwned)
        ensures
            r.partition_key@ == self.partition_key@,
            r.expires == self.expires,
    {
        DbPartitionExpirationIndexOwned {
            partition_key: copy_bytes(self.partition_key.as_slice()),
            expires: self.expires,
        }
    }

    pub fn get_content_size(&self) -> (r: usize)
        requires
            self.wf(),
        ensures
            r == sizes(self.rows.rows()),
    {
        self.content_size
    }

    pub fn rows_count(&self) -> (r: usize)
        ensures
            r == self.rows.rows().len(),
    {
        self.rows.len()
    }

    /// Puts a row in, unless one with its key is there already; tells whether it went in.
    pub fn insert_row(&mut self, db_row: DbRow) -> (r: bool)
        requires
            old(self).wf(),
            db_row.wf(),
            sizes(old(self).rows.rows()) + db_row.raw_view().len() <= usize::MAX,
        ensures
            final(self).wf(),
            r == !old(self).rows.map().contains_key(db_row.row_key_view()),
            r ==> final(self).rows.map() == old(self).rows.map().insert(db_row.row_key_view(), db_row),
            r ==> final(self).content_size_view() == old(self).content_size_view()
                + db_row.raw_view().len(),
            !r ==> final(self).rows.map() == old(self).rows.map() && final(self).content_size_view()
                == old(self).content_size_view(),
            final(self).partition_key == old(self).partition_key,
            final(self).expires == old(self).expires,
            final(self).last_write_moment == old(self).last_write_moment,
    {
        if self.rows.has_db_row(db_row.get_row_key()) {
            return false;
        }
        let _ = self.insert_or_replace_row(db_row);
        true
    }

    /// Puts a row in, replacing the row of the same key, which is returned.
    pub fn insert_or_replace_row(&mut self, db_row: DbRow) -> (r: Option<DbRow>)
        requires
            old(self).wf(),
            db_row.wf(),
            sizes(old(self).rows.rows()) + db_row.raw_view().len() <= usize::MAX,
        ensures
            final(self).wf(),
            final(self).rows.map() == old(self).rows.map().insert(db_row.row_key_view(), db_row),
            r matches Some(d) ==> old(self).rows.map().contains_key(db_row.row_key_view()) && d
                == old(self).rows.map()[db_row.row_key_view()],
            r is None ==> !old(self).rows.map().contains_key(db_row.row_key_view()),
            final(self).content_size_view() == old(self).content_size_view()
                + db_row.raw_view().len() - match r {
                Some(d) => d.raw_view().len() as int,
                None => 0int,
            },
            final(self).partition_key == old(self).partition_key,
            final(self).expires == old(self).expires,
            final(self).last_write_moment == old(self).last_write_moment,
            final(self).last_read_moment == old(self).last_read_moment,
    {
        let size = db_row.get_src_as_slice().len();
        self.content_size = self.content_size + size;
        let result = self.rows.insert(db_row);
        if let Some(removed_item) = &result {
            proof {
                lemma_sizes_nonneg(self.rows.rows());
            }
            self.content_size = self.content_size - removed_item.get_src_as_slice().len();
        }
        result
    }

    /// Removes the row of `row_key`, if there is one.
    pub fn remove_row(&mut self, row_key: &[u8]) -> (r: Option<DbRow>)
        requires
            old(self).wf(),
        ensures
            final(self).wf(),
            final(self).rows.map() == old(self).rows.map().remove(row_key@),
            r matches Some(d) ==> old(self).rows.map().contains_key(row_key@) && d == old(
                self,
            ).rows.map()[row_key@],
            r is None ==> !old(self).rows.map().contains_key(row_key@),
            final(self).content_size_view() == old(self).content_size_view() - match r {
                Some(d) => d.raw_view().len() as int,
                None => 0int,
            },
            final(self).partition_key == old(self).partition_key,
            final(self).expires == old(self).expires,
            final(self).last_write_moment == old(self).last_write_moment,
            final(self).last_read_moment == old(self).last_read_moment,
    {
        let result = self.rows.remove(row_key);
        if let Some(removed_item) = &result {
            proof {
                lemma_sizes_nonneg(self.rows.rows());
            }
            self.content_size = self.content_size - removed_item.get_src_as_slice().len();
        }
        result
    }

    pub fn get_all_rows(&self) -> (r: &[DbRow])
        ensures
            r@ == self.rows.rows(),
    {
        self.rows.get_all()
    }

    pub fn get_rows_amount(&self) -> (r: usize)
        ensures
            r == self.rows.rows().len(),
    {
        self.rows.len()
    }

    /// The number of rows of the partition that the expiration index holds.
    pub fn get_expiration_index_rows_amount(&self) -> (r: usize)
        requires
            self.wf(),
        ensures
            r == expiring_count(self.rows.rows()),
    {
        self.rows.rows_with_expiration_index_len()
    }

    pub fn get_row(&self, row_key: &[u8]) -> (r: Option<&DbRow>)
        requires
            self.wf(),
        ensures
            r matches Some(d) ==> self.rows.map().contains_key(row_key@) && *d
                == self.rows.map()[row_key@],
            r is None ==> !self.rows.map().contains_key(row_key@),
    {
        self.rows.get(row_key)
    }

    pub fn get_row_and_clone(&self, row_key: &[u8]) -> (r: Option<DbRow>)
        requires
            self.wf(),
        ensures
            r matches Some(d) ==> self.rows.map().contains_key(row_key@) && d.same_row(
                &self.rows.map()[row_key@],
            ),
            r is None ==> !self.rows.map().contains_key(row_key@),
    {
        match self.rows.get(row_key) {
            Some(row) => Some(row.clone()),
            None => None,
        }
    }

    pub fn is_empty(&self) -> (r: bool)
        ensures
            r == (self.rows.rows().len() == 0),
    {
        self.rows.len() == 0
    }

    /// Sets the expiration of the row of `row_key`; returns a copy of the row where its moment
    /// changed.
    pub fn update_expiration_time(&mut self, row_key: &[u8], expiration_time: Option<Expiration>) -> (r:
        Option<DbRow>)
        requires
            old(self).wf(),
        ensures
            final(self).wf(),
            final(self).rows.map().dom() == old(self).rows.map().dom(),
            forall|k: Seq<u8>|
                #[trigger] old(self).rows.map().contains_key(k) && k != row_key@
                    ==> final(self).rows.map()[k] == old(self).rows.map()[k],
            old(self).rows.map().contains_key(row_key@) ==> final(self).rows.map()[row_key@].expires_moment()
                == crate::db_row::moment_of(expiration_time),
            final(self).rows.map() == crate::db_rows_container::map_with_expiration(
                old(self).rows.map(),
                row_key@,
                expiration_time,
            ),
            final(self).last_write_moment == old(self).last_write_moment,
            final(self).last_read_moment == old(self).last_read_moment,
            r is Some <==> old(self).rows.map().contains_key(row_key@) && old(
                self,
            ).rows.map()[row_key@].expires_moment() != crate::db_row::moment_of(expiration_time),
            final(self).content_size_view() == old(self).content_size_view(),
            final(self).partition_key == old(self).partition_key,
            final(self).expires == old(self).expires,
    {
        self.rows.update_expiration_time(row_key, expiration_time)
    }

    pub fn update_last_read_moment(&mut self, now: DateTimeAsMicroseconds)
        ensures
            *final(self) == (DbPartition { last_read_moment: now, ..*old(self) }),
    {
        self.last_read_moment = now;
    }

    pub fn get_last_write_moment(&self) -> (r: DateTimeAsMicroseconds)
        ensures
            r == self.last_write_moment,
    {
        self.last_write_moment
    }

    pub fn get_last_read_moment(&self) -> (r: DateTimeAsMicroseconds)
        ensures
            r == self.last_read_moment,
    {
        self.last_read_moment
    }

    /// Puts rows in one after another, each replacing the row of its key; returns the rows
    /// that were replaced.
    pub fn insert_or_replace_rows_bulk(&mut self, db_rows: Vec<DbRow>) -> (r: Vec<DbRow>)
        requires
            old(self).wf(),
            forall|i: int| 0 <= i < db_rows@.len() ==> (#[trigger] db_rows@[i]).wf(),
            sizes(old(self).rows.rows()) + sizes(db_rows@) <= usize::MAX,
        ensures
            final(self).wf(),
            final(self).rows.map() == insert_rows(old(self).rows.map(), db_rows@),
            final(self).content_size_view() <= old(self).content_size_view() + sizes(db_rows@),
            r@ == displaced_rows(old(self).rows.map(), db_rows@),
            final(self).partition_key == old(self).partition_key,
            final(self).expires == old(self).expires,
            final(self).last_write_moment == old(self).last_write_moment,
    {
        let ghost all = db_rows@;
        let ghost start = sizes(self.rows.rows());
        let n = db_rows.len();
        let mut rest = db_rows;
        let mut result: Vec<DbRow> = Vec::new();
        let mut i: usize = 0;
        proof {
            assert(all.take(0) =~= Seq::<DbRow>::empty());
            assert(all.skip(0) =~= all);
        }
        while rest.len() > 0
            invariant
                self.wf(),
                i <= all.len(),
                n == all.len(),
                rest@ == all.skip(i as int),
                self.rows.map() == insert_rows(old(self).rows.map(), all.take(i as int)),
                forall|j: int| 0 <= j < all.len() ==> (#[trigger] all[j]).wf(),
                start == sizes(old(self).rows.rows()),
                start + sizes(all) <= usize::MAX,
                sizes(self.rows.rows()) <= start + sizes(all.take(i as int)),
                result@ == displaced_rows(old(self).rows.map(), all.take(i as int)),
                self.partition_key == old(self).partition_key,
                self.expires == old(self).expires,
                self.last_write_moment == old(self).last_write_moment,
            decreases rest@.len(),
        {
            let db_row = rest.remove(0);
            proof {
                assert(db_row == all[i as int]);
                lemma_sizes_prefix(all, i as int);
                lemma_sizes_prefix(all, i + 1);
                lemma_sizes_nonneg(self.rows.rows());
            }
            let ghost before = result@;
            let removed = self.insert_or_replace_row(db_row);
            if let Some(d) = removed {
                result.push(d);
            }
            proof {
                assert(all.take(i + 1).drop_last() =~= all.take(i as int));
                assert(all.take(i + 1).last() == all[i as int]);
                if removed is Some {
                    assert(result@ =~= before + seq![removed->0]);
                } else {
                    assert(result@ =~= before + Seq::<DbRow>::empty());
                }
                assert(rest@ =~= all.skip(i + 1));
                lemma_sizes_nonneg(Seq::<DbRow>::empty());
            }
            i = i + 1;
        }
        proof {
            assert(all.take(i as int) =~= all);
        }
        result
    }

    /// Removes the rows of the given keys; returns those removed, or none where none was there.
    pub fn remove_rows_bulk(&mut self, row_keys: &Vec<Vec<u8>>) -> (r: Option<Vec<DbRow>>)
        requires
            old(self).wf(),
        ensures
            final(self).wf(),
            final(self).rows.map() == old(self).rows.map().remove_keys(key_set(row_keys@)),
            r is None <==> forall|k: Seq<u8>|
                #[trigger] key_set(row_keys@).contains(k) ==> !old(self).rows.map().contains_key(k),
            r is None ==> final(self).rows.map() == old(self).rows.map(),
            final(self).content_size_view() <= old(self).content_size_view(),
            r matches Some(v) ==> v@ == removed_rows(
                old(self).rows.map(),
                row_keys@.map_values(|k: Vec<u8>| k@),
            ),
            final(self).partition_key == old(self).partition_key,
            final(self).expires == old(self).expires,
            final(self).last_write_moment == old(self).last_write_moment,
    {
        let ghost keys = row_keys@.map_values(|k: Vec<u8>| k@);
        let mut result: Vec<DbRow> = Vec::new();
        let mut i: usize = 0;
        proof {
            assert(keys.take(0).to_set() =~= Set::<Seq<u8>>::empty());
            assert(old(self).rows.map().remove_keys(Set::<Seq<u8>>::empty()) =~= old(self).rows.map());
        }
        while i < row_keys.len()
            invariant
                self.wf(),
                i <= row_keys@.len(),
                keys == row_keys@.map_values(|k: Vec<u8>| k@),
                self.rows.map() == old(self).rows.map().remove_keys(keys.take(i as int).to_set()),
                (result@.len() == 0) <==> forall|k: Seq<u8>|
                    #[trigger] keys.take(i as int).to_set().contains(k)
                        ==> !old(self).rows.map().contains_key(k),
                result@ == removed_rows(old(self).rows.map(), keys.take(i as int)),
                self.content_size_view() <= old(self).content_size_view(),
                self.partition_key == old(self).partition_key,
                self.expires == old(self).expires,
                self.last_write_moment == old(self).last_write_moment,
            decreases row_keys@.len() - i,
        {
            let ghost before = self.rows.map();
            let ghost had = result@.len() == 0;
            let ghost res0 = result@;
            let removed = self.remove_row(row_keys[i].as_slice());
            proof {
                assert(keys.take(i + 1) =~= keys.take(i as int).push(keys[i as int]));
                let t0 = keys.take(i as int);
                let t1 = keys.take(i + 1);
                assert forall|x: Seq<u8>| #[trigger] t1.to_set().contains(x) == t0.to_set().insert(
                    keys[i as int],
                ).contains(x) by {
                    if t1.contains(x) {
                        let j = choose|j: int| 0 <= j < t1.len() && t1[j] == x;
                        if j < i {
                            assert(t0[j] == x);
                        }
                    }
                    if t0.contains(x) {
                        let j = choose|j: int| 0 <= j < t0.len() && t0[j] == x;
                        assert(t1[j] == x);
                    }
                    if x == keys[i as int] {
                        assert(t1[i as int] == x);
                    }
                }
                assert(t1.to_set() =~= t0.to_set().insert(keys[i as int]));
                assert(self.rows.map() =~= old(self).rows.map().remove_keys(
                    keys.take(i + 1).to_set(),
                ));
            }
            if let Some(d) = removed {
                result.push(d);
            }
            proof {
                assert(keys.take(i + 1).drop_last() =~= keys.take(i as int));
                assert(keys.take(i + 1).last() == keys[i as int]);
                assert(row_keys@[i as int]@ == keys[i as int]);
                if removed is Some {
                    assert(result@ =~= res0 + seq![removed->0]);
                } else {
                    assert(result@ =~= res0 + Seq::<DbRow>::empty());
                }
                if removed is Some {
                    assert(old(self).rows.map().contains_key(keys[i as int]));
                    assert(keys.take(i + 1).to_set().contains(keys[i as int]));
                } else if had {
                    assert forall|k: Seq<u8>| #[trigger]
                        keys.take(i + 1).to_set().contains(k) implies !old(
                        self,
                    ).rows.map().contains_key(k) by {
                        if k != keys[i as int] {
                            assert(keys.take(i as int).to_set().contains(k));
                        }
                    }
                } else {
                    let k0 = choose|k: Seq<u8>|
                        #[trigger] keys.take(i as int).to_set().contains(k) && old(
                            self,
                        ).rows.map().contains_key(k);
                    assert(keys.take(i + 1).to_set().contains(k0));
                }
            }
            i = i + 1;
        }
        proof {
            assert(keys.take(i as int) =~= keys);
            assert(key_set(row_keys@) == keys.to_set());
            if result@.len() == 0 {
                assert(self.rows.map() =~= old(self).rows.map());
            }
        }
        if result.len() == 0 {
            None
        } else {
            Some(result)
        }
    }

    /// The rows from the lowest key up to and including `row_key`.
    pub fn get_highest_row_and_below(&self, row_key: &[u8]) -> (r: &[DbRow])
        requires
            self.wf(),
        ensures
            r@ == self.rows.rows().take(r@.len() as int),
            forall|j: int|
                0 <= j < r@.len() ==> !crate::keys::lex_lt(
                    row_key@,
                    #[trigger] self.rows.rows()[j].row_key_view(),
                ),
            r@.len() < self.rows.rows().len() ==> crate::keys::lex_lt(
                row_key@,
                self.rows.rows()[r@.len() as int].row_key_view(),
            ),
    {
        self.rows.get_highest_row_and_below(row_key)
    }
}

} // verus!
