use vstd::prelude::*;

use crate::db_partition::{displaced_rows, insert_rows, key_set, removed_rows, DbPartition};
use crate::db_rows_container::sizes;
use crate::db_row::{moment_of, DbRow, Expiration};
use crate::db_rows_container::lemma_rows_map_empty;
use crate::expiration_index::{
    expired_count, flatten, holds, opt_moment, total, BucketView, ExpirationIndexContainer,
};
use crate::gc_select::{is_oldest_selection, select_oldest};
use crate::keys::{compare_bytes, copy_bytes, lex_lt, lemma_lex_lt_transitive};
use crate::sorted_keys::{
    indicators, int_sum, keyed_map, keys_sorted, lemma_absent, lemma_holds_absent, lemma_holds_at,
    lemma_int_sum_bounds, lemma_int_sum_insert, lemma_int_sum_remove, lemma_int_sum_update,
    lemma_keyed_map_at, lemma_keyed_map_insert, lemma_keyed_map_remove, lemma_keyed_map_update,
    lemma_matches_insert, lemma_matches_remove, lemma_sorted_insert, lemma_sorted_remove,
    matches_index, sorted_position,
};
use crate::time::DateTimeAsMicroseconds;

verus! {

/// The keys of the partitions, in order.
pub open spec fn pkeys(parts: Seq<DbPartition>) -> Seq<Seq<u8>> {
    parts.map_values(|p: DbPartition| p.partition_key@)
}

/// The expiration moments of the partitions, in order.
pub open spec fn pmoments(parts: Seq<DbPartition>) -> Seq<Option<int>> {
    parts.map_values(|p: DbPartition| opt_moment(p.expires))
}

/// The content sizes of the partitions, in order.
pub open spec fn psizes(parts: Seq<DbPartition>) -> Seq<int> {
    parts.map_values(|p: DbPartition| p.content_size_view())
}

/// The moments at which the partitions were last read, in order.
pub open spec fn plast_reads(parts: Seq<DbPartition>) -> Seq<i64> {
    parts.map_values(|p: DbPartition| p.last_read_moment.unix_microseconds)
}

/// The rows of partition `pk` in a view of rows by partition; none where it has no partition.
pub open spec fn rows_of(view: Map<Seq<u8>, Map<Seq<u8>, DbRow>>, pk: Seq<u8>) -> Map<Seq<u8>, DbRow> {
    if view.contains_key(pk) {
        view[pk]
    } else {
        Map::empty()
    }
}

/// A partition changed in place, keeping its key and expiration: the keys and moments stay, the
/// sizes change at that place, and the map takes the new partition.
proof fn lemma_partition_changed(parts: Seq<DbPartition>, i: int, p: DbPartition)
    requires
        keys_sorted(pkeys(parts)),
        0 <= i < parts.len(),
        p.partition_key@ == parts[i].partition_key@,
        p.expires == parts[i].expires,
    ensures
        pkeys(parts.update(i, p)) == pkeys(parts),
        pmoments(parts.update(i, p)) == pmoments(parts),
        psizes(parts.update(i, p)) == psizes(parts).update(i, p.content_size_view()),
        keyed_map(pkeys(parts), parts.update(i, p)) == keyed_map(pkeys(parts), parts).insert(
            p.partition_key@,
            p,
        ),
{
    assert(pkeys(parts.update(i, p)) =~= pkeys(parts));
    assert(pmoments(parts.update(i, p)) =~= pmoments(parts));
    assert(psizes(parts.update(i, p)) =~= psizes(parts).update(i, p.content_size_view()));
    lemma_keyed_map_update(pkeys(parts), parts, i, p);
}

/// The rows by partition after `row` is put into the partition of its key, replacing the row of
/// its key.
pub open spec fn view_with_row(view: Map<Seq<u8>, Map<Seq<u8>, DbRow>>, row: DbRow) -> Map<
    Seq<u8>,
    Map<Seq<u8>, DbRow>,
> {
    view.insert(
        row.partition_key_view(),
        rows_of(view, row.partition_key_view()).insert(row.row_key_view(), row),
    )
}

/// The rows by partition with the expiration of row `rk` of partition `pk` set to `e`, where
/// there is such a row.
pub open spec fn view_with_expiration(
    view: Map<Seq<u8>, Map<Seq<u8>, DbRow>>,
    pk: Seq<u8>,
    rk: Seq<u8>,
    e: Option<Expiration>,
) -> Map<Seq<u8>, Map<Seq<u8>, DbRow>> {
    if view.contains_key(pk) {
        view.insert(pk, crate::db_rows_container::map_with_expiration(view[pk], rk, e))
    } else {
        view
    }
}

/// Partition `pk` is there after a write: it keeps its expiration (none where it is new), its
/// last write moment is `set` where given, else it is kept (`now` where it is new); every other
/// partition stays as it was.
pub open spec fn partition_written(
    before: Map<Seq<u8>, DbPartition>,
    after: Map<Seq<u8>, DbPartition>,
    pk: Seq<u8>,
    now: DateTimeAsMicroseconds,
    set: Option<DateTimeAsMicroseconds>,
) -> bool {
    &&& after.contains_key(pk)
    &&& after[pk].expires == if before.contains_key(pk) {
        before[pk].expires
    } else {
        None
    }
    &&& after[pk].last_write_moment == match set {
        Some(m) => m,
        None => if before.contains_key(pk) {
            before[pk].last_write_moment
        } else {
            now
        },
    }
    &&& after.dom() == before.dom().insert(pk)
    &&& forall|k: Seq<u8>| #[trigger] before.contains_key(k) && k != pk ==> after[k] == before[k]
}

/// An empty partition holds no content.
proof fn lemma_empty_partition_size(p: DbPartition)
    requires
        p.wf(),
        p.rows.rows().len() == 0,
    ensures
        p.content_size_view() == 0,
{
    assert(p.rows.rows() =~= Seq::<DbRow>::empty());
}

/// A partition picked for collection, with the moment it was last read.
pub struct PartitionToGc {
    pub partition_key: Vec<u8>,
    pub last_read_moment: DateTimeAsMicroseconds,
}

/// The partitions of a table, sorted by partition key, with the index of their expirations.
pub struct DbPartitionsContainer {
    partitions: Vec<DbPartition>,
    partitions_to_expire_index: ExpirationIndexContainer,
}

impl DbPartitionsContainer {
    pub closed spec fn parts(&self) -> Seq<DbPartition> {
        self.partitions@
    }

    pub closed spec fn index(&self) -> Seq<BucketView> {
        self.partitions_to_expire_index@
    }

    /// The partitions by key.
    pub open spec fn map(&self) -> Map<Seq<u8>, DbPartition> {
        keyed_map(pkeys(self.parts()), self.parts())
    }

    /// The rows of each partition, by partition key.
    pub open spec fn rows_view(&self) -> Map<Seq<u8>, Map<Seq<u8>, DbRow>> {
        Map::new(|k: Seq<u8>| self.map().contains_key(k), |k: Seq<u8>| self.map()[k].rows.map())
    }

    /// The sum of the content sizes of the partitions.
    pub open spec fn table_size(&self) -> int {
        int_sum(psizes(self.parts()))
    }

    pub closed spec fn wf(&self) -> bool {
        &&& forall|i: int| 0 <= i < self.partitions@.len() ==> (#[trigger] self.partitions@[i]).wf()
        &&& keys_sorted(pkeys(self.partitions@))
        &&& self.partitions_to_expire_index.wf()
        &&& matches_index(pkeys(self.partitions@), pmoments(self.partitions@), self.partitions_to_expire_index@)
        &&& total(self.partitions_to_expire_index@) == int_sum(indicators(pmoments(self.partitions@)))
        &&& int_sum(psizes(self.partitions@)) <= usize::MAX
    }

    /// What the container guarantees: partitions sorted by key, each well formed, and an index
    /// that holds exactly the partitions with an expiration, each once, at its moment.
    pub proof fn lemma_wf(&self)
        requires
            self.wf(),
        ensures
            forall|i: int| 0 <= i < self.parts().len() ==> (#[trigger] self.parts()[i]).wf(),
            keys_sorted(pkeys(self.parts())),
            crate::expiration_index::buckets_wf(self.index()),
            matches_index(pkeys(self.parts()), pmoments(self.parts()), self.index()),
            0 <= self.table_size() <= usize::MAX,
            forall|k: Seq<u8>| #[trigger] self.map().contains_key(k) ==> self.map()[k].wf(),
    {
        self.lemma_sizes_nonneg();
        assert forall|k: Seq<u8>| #[trigger] self.map().contains_key(k) implies self.map()[k].wf() by {
            let keys = pkeys(self.partitions@);
            let i = choose|i: int| 0 <= i < keys.len() && keys[i] == k;
            lemma_keyed_map_at(keys, self.partitions@, i);
        }
    }

    proof fn lemma_sizes_nonneg(&self)
        requires
            forall|i: int| 0 <= i < self.partitions@.len() ==> (#[trigger] self.partitions@[i]).wf(),
        ensures
            int_sum(psizes(self.partitions@)) >= 0,
    {
        let s = psizes(self.partitions@);
        assert forall|i: int| 0 <= i < s.len() implies 0 <= #[trigger] s[i] <= usize::MAX by {
            self.partitions@[i].lemma_content_size();
        }
        lemma_int_sum_bounds(s, usize::MAX as int);
    }

    pub fn new() -> (r: Self)
        ensures
            r.wf(),
            r.parts().len() == 0,
            r.map() == Map::<Seq<u8>, DbPartition>::empty(),
    {
        let r = DbPartitionsContainer {
            partitions: Vec::new(),
            partitions_to_expire_index: ExpirationIndexContainer::new(),
        };
        proof {
            assert(pkeys(r.partitions@) =~= Seq::<Seq<u8>>::empty());
            assert(pmoments(r.partitions@) =~= Seq::<Option<int>>::empty());
            assert(indicators(pmoments(r.partitions@)) =~= Seq::<int>::empty());
            assert(psizes(r.partitions@) =~= Seq::<int>::empty());
            assert(r.map() =~= Map::<Seq<u8>, DbPartition>::empty());
        }
        r
    }

    pub fn len(&self) -> (r: usize)
        ensures
            r == self.parts().len(),
    {
        self.partitions.len()
    }

    /// All partitions, sorted by key.
    pub fn get_partitions(&self) -> (r: &[DbPartition])
        ensures
            r@ == self.parts(),
    {
        self.partitions.as_slice()
    }

    /// The keys of the partitions whose expiration is not later than `now`.
    pub fn get_partitions_to_expire(&self, now: DateTimeAsMicroseconds) -> (r: Vec<Vec<u8>>)
        requires
            self.wf(),
        ensures
            r@.map_values(|x: Vec<u8>| x@) == flatten(
                self.index().take(expired_count(self.index(), now.unix_microseconds as int) as int),
            ),
    {
        self.partitions_to_expire_index.get_items_to_expire(now)
    }

    fn find(&self, partition_key: &[u8]) -> (r: Result<usize, usize>)
        requires
            self.wf(),
        ensures
            r matches Ok(i) ==> i < self.parts().len() && pkeys(self.parts())[i as int]
                == partition_key@,
            r matches Err(i) ==> sorted_position(pkeys(self.parts()), i as int, partition_key@),
    {
        let ghost keys = pkeys(self.partitions@);
        let mut lo: usize = 0;
        let mut hi: usize = self.partitions.len();
        while lo < hi
            invariant
                self.wf(),
                keys == pkeys(self.partitions@),
                lo <= hi <= self.partitions@.len(),
                forall|j: int| 0 <= j < lo ==> lex_lt(#[trigger] keys[j], partition_key@),
                forall|j: int| hi <= j < keys.len() ==> lex_lt(partition_key@, #[trigger] keys[j]),
            decreases hi - lo,
        {
            let mid = lo + (hi - lo) / 2;
            let c = compare_bytes(self.partitions[mid].partition_key.as_slice(), partition_key);
            assert(keys[mid as int] == self.partitions@[mid as int].partition_key@);
            if c == 0 {
                return Ok(mid);
            } else if c < 0 {
                proof {
                    assert forall|j: int| 0 <= j < mid + 1 implies lex_lt(
                        #[trigger] keys[j],
                        partition_key@,
                    ) by {
                        if j < mid {
                            lemma_lex_lt_transitive(keys[j], keys[mid as int], partition_key@);
                        }
                    }
                }
                lo = mid + 1;
            } else {
                proof {
                    assert forall|j: int| mid <= j < keys.len() implies lex_lt(
                        partition_key@,
                        #[trigger] keys[j],
                    ) by {
                        if j > mid {
                            lemma_lex_lt_transitive(partition_key@, keys[mid as int], keys[j]);
                        }
                    }
                }
                hi = mid;
            }
        }
        Err(lo)
    }

    pub fn get(&self, partition_key: &[u8]) -> (r: Option<&DbPartition>)
        requires
            self.wf(),
        ensures
            r matches Some(p) ==> self.map().contains_key(partition_key@) && *p
                == self.map()[partition_key@],
            r is None ==> !self.map().contains_key(partition_key@),
    {
        match self.find(partition_key) {
            Ok(i) => {
                proof {
                    lemma_keyed_map_at(pkeys(self.partitions@), self.partitions@, i as int);
                }
                Some(&self.partitions[i])
            },
            Err(i) => {
                proof {
                    lemma_absent(pkeys(self.partitions@), i as int, partition_key@);
                }
                None
            },
        }
    }

    pub fn has_partition(&self, partition_key: &[u8]) -> (r: bool)
        requires
            self.wf(),
        ensures
            r == self.map().contains_key(partition_key@),
    {
        self.get(partition_key).is_some()
    }

    /// Takes out the partition at position `i`, and its expiration from the index.
    fn remove_at(&mut self, i: usize) -> (r: DbPartition)
        requires
            old(self).wf(),
            i < old(self).parts().len(),
        ensures
            final(self).wf(),
            final(self).parts() == old(self).parts().remove(i as int),
            r == old(self).parts()[i as int],
            final(self).map() == old(self).map().remove(r.partition_key@),
            final(self).table_size() == old(self).table_size() - r.content_size_view(),
    {
        let ghost parts0 = self.partitions@;
        let ghost idx0 = self.partitions_to_expire_index@;
        let removed = self.partitions.remove(i);
        proof {
            if let Some(m) = removed.expires {
                assert(pkeys(parts0)[i as int] == removed.partition_key@);
                assert(pmoments(parts0)[i as int] == opt_moment(removed.expires));
                lemma_holds_at(pkeys(parts0), pmoments(parts0), idx0, i as int, m.unix_microseconds as int);
            }
        }
        self.partitions_to_expire_index.remove(removed.partition_key.as_slice(), removed.expires);
        proof {
            let keys0 = pkeys(parts0);
            let mom0 = pmoments(parts0);
            assert(pkeys(self.partitions@) =~= keys0.remove(i as int));
            assert(pmoments(self.partitions@) =~= mom0.remove(i as int));
            assert(psizes(self.partitions@) =~= psizes(parts0).remove(i as int));
            assert(indicators(pmoments(self.partitions@)) =~= indicators(mom0).remove(i as int));
            lemma_sorted_remove(keys0, i as int);
            if let Some(m) = removed.expires {
                lemma_holds_at(keys0, mom0, idx0, i as int, m.unix_microseconds as int);
            }
            lemma_matches_remove(keys0, mom0, idx0, self.partitions_to_expire_index@, i as int);
            lemma_int_sum_remove(indicators(mom0), i as int);
            lemma_int_sum_remove(psizes(parts0), i as int);
            lemma_keyed_map_remove(keys0, parts0, i as int);
            parts0[i as int].lemma_content_size();
            self.lemma_sizes_nonneg();
        }
        removed
    }

    /// Puts a partition in at its sorted position `pos`, and its expiration into the index.
    fn insert_at(&mut self, pos: usize, db_partition: DbPartition)
        requires
            old(self).wf(),
            db_partition.wf(),
            sorted_position(pkeys(old(self).parts()), pos as int, db_partition.partition_key@),
            old(self).table_size() + db_partition.content_size_view() <= usize::MAX,
        ensures
            final(self).wf(),
            final(self).parts() == old(self).parts().insert(pos as int, db_partition),
            final(self).map() == old(self).map().insert(db_partition.partition_key@, db_partition),
            final(self).table_size() == old(self).table_size() + db_partition.content_size_view(),
            db_partition.expires is None ==> final(self).index() == old(self).index(),
    {
        let ghost p = db_partition;
        let ghost k = db_partition.partition_key@;
        let ghost parts1 = self.partitions@;
        let ghost idx1 = self.partitions_to_expire_index@;
        let expires = db_partition.expires;
        let key = copy_bytes(db_partition.partition_key.as_slice());
        self.partitions.insert(pos, db_partition);
        let _n1 = self.partitions.len();
        proof {
            let keys1 = pkeys(parts1);
            let mom1 = pmoments(parts1);
            assert(pkeys(self.partitions@) =~= keys1.insert(pos as int, k));
            assert(pmoments(self.partitions@) =~= mom1.insert(pos as int, opt_moment(expires)));
            assert(psizes(self.partitions@) =~= psizes(parts1).insert(pos as int, p.content_size_view()));
            assert(indicators(pmoments(self.partitions@)) =~= indicators(mom1).insert(
                pos as int,
                if expires is Some { 1int } else { 0int },
            ));
            lemma_int_sum_insert(indicators(mom1), pos as int, if expires is Some { 1int } else { 0int });
            lemma_int_sum_insert(psizes(parts1), pos as int, p.content_size_view());
            assert forall|j: int| 0 <= j < indicators(mom1).len() implies 0 <= #[trigger] indicators(mom1)[j] <= 1 by {
            }
            lemma_int_sum_bounds(indicators(mom1), 1);
            lemma_sorted_insert(keys1, pos as int, k);
            lemma_absent(keys1, pos as int, k);
            if let Some(m) = expires {
                lemma_holds_absent(keys1, mom1, idx1, k, m.unix_microseconds as int);
            }
        }
        self.partitions_to_expire_index.add(key.as_slice(), expires);
        proof {
            let keys1 = pkeys(parts1);
            let mom1 = pmoments(parts1);
            lemma_matches_insert(
                keys1,
                mom1,
                idx1,
                self.partitions_to_expire_index@,
                pos as int,
                k,
                opt_moment(expires),
            );
            lemma_keyed_map_insert(keys1, parts1, pos as int, k, p);
        }
    }

    /// Puts a partition in, replacing the partition of the same key; the index drops the
    /// replaced partition's expiration and takes the new one's.
    pub fn insert(&mut self, db_partition: DbPartition)
        requires
            old(self).wf(),
            db_partition.wf(),
            old(self).table_size() + db_partition.content_size_view() <= usize::MAX,
        ensures
            final(self).wf(),
            final(self).map() == old(self).map().insert(db_partition.partition_key@, db_partition),
    {
        let ghost k = db_partition.partition_key@;
        proof {
            self.lemma_sizes_nonneg();
            db_partition.lemma_content_size();
        }
        match self.find(db_partition.partition_key.as_slice()) {
            Ok(i) => {
                let ghost keys0 = pkeys(self.partitions@);
                let removed = self.remove_at(i);
                proof {
                    removed.lemma_content_size();
                    let keys1 = pkeys(self.partitions@);
                    assert(keys1 =~= keys0.remove(i as int));
                    assert forall|j: int| 0 <= j < i implies lex_lt(#[trigger] keys1[j], k) by {
                        assert(lex_lt(keys0[j], keys0[i as int]));
                    }
                    assert forall|j: int| i <= j < keys1.len() implies lex_lt(k, #[trigger] keys1[j]) by {
                        assert(lex_lt(keys0[i as int], keys0[j + 1]));
                    }
                }
                self.insert_at(i, db_partition);
                proof {
                    assert(old(self).map().remove(k).insert(k, db_partition) =~= old(self).map().insert(k, db_partition));
                }
            },
            Err(i) => {
                self.insert_at(i, db_partition);
            },
        }
    }

    /// Takes out the partition of `partition_key`, if there is one.
    pub fn remove(&mut self, partition_key: &[u8]) -> (r: Option<DbPartition>)
        requires
            old(self).wf(),
        ensures
            final(self).wf(),
            final(self).map() == old(self).map().remove(partition_key@),
            r matches Some(p) ==> old(self).map().contains_key(partition_key@) && p == old(
                self,
            ).map()[partition_key@],
            r is None ==> !old(self).map().contains_key(partition_key@),
    {
        match self.find(partition_key) {
            Ok(i) => {
                proof {
                    lemma_keyed_map_at(pkeys(self.partitions@), self.partitions@, i as int);
                }
                Some(self.remove_at(i))
            },
            Err(i) => {
                proof {
                    lemma_absent(pkeys(self.partitions@), i as int, partition_key@);
                    assert(old(self).map().remove(partition_key@) =~= old(self).map());
                }
                None
            },
        }
    }

    /// Empties the container; hands back the partitions it held, or none where it held none.
    pub fn clear(&mut self) -> (r: Option<Vec<DbPartition>>)
        requires
            old(self).wf(),
        ensures
            final(self).wf(),
            final(self).parts().len() == 0,
            r matches Some(v) ==> v@ == old(self).parts() && v@.len() > 0,
            r is None ==> old(self).parts().len() == 0,
    {
        if self.partitions.len() == 0 {
            return None;
        }
        let mut result: Vec<DbPartition> = Vec::new();
        std::mem::swap(&mut result, &mut self.partitions);
        self.partitions_to_expire_index.clear();
        proof {
            assert(pkeys(self.partitions@) =~= Seq::<Seq<u8>>::empty());
            assert(pmoments(self.partitions@) =~= Seq::<Option<int>>::empty());
            assert(indicators(pmoments(self.partitions@)) =~= Seq::<int>::empty());
            assert(psizes(self.partitions@) =~= Seq::<int>::empty());
        }
        Some(result)
    }

    /// The position of the partition of `partition_key`, made empty where there was none.
    pub fn add_partition_if_not_exists(&mut self, partition_key: &[u8], now: DateTimeAsMicroseconds) -> (r:
        usize)
        requires
            old(self).wf(),
        ensures
            final(self).wf(),
            r < final(self).parts().len(),
            final(self).parts()[r as int].partition_key@ == partition_key@,
            final(self).map().contains_key(partition_key@),
            final(self).map()[partition_key@] == final(self).parts()[r as int],
            final(self).table_size() == old(self).table_size(),
            old(self).map().contains_key(partition_key@) ==> final(self).map() == old(self).map(),
            !old(self).map().contains_key(partition_key@) ==> final(self).rows_view() == old(
                self,
            ).rows_view().insert(partition_key@, Map::empty()) && final(self).map().remove(
                partition_key@,
            ) == old(self).map(),
            forall|k: Seq<u8>|
                #[trigger] old(self).map().contains_key(k) ==> final(self).map().contains_key(k)
                    && final(self).map()[k] == old(self).map()[k],
            !old(self).map().contains_key(partition_key@) ==> {
                let p = final(self).map()[partition_key@];
                &&& p.expires is None
                &&& p.content_size_view() == 0
                &&& p.last_write_moment == now
                &&& p.last_read_moment == now
                &&& p.rows.map() == Map::<Seq<u8>, DbRow>::empty()
            },
            final(self).index() == old(self).index(),
            final(self).parts().len() == old(self).parts().len() + if old(self).map().contains_key(
                partition_key@,
            ) {
                0int
            } else {
                1int
            },
    {
        match self.find(partition_key) {
            Ok(i) => {
                proof {
                    lemma_keyed_map_at(pkeys(self.partitions@), self.partitions@, i as int);
                }
                i
            },
            Err(i) => {
                let p = DbPartition::new(partition_key, now);
                proof {
                    self.lemma_sizes_nonneg();
                    lemma_absent(pkeys(self.partitions@), i as int, partition_key@);
                }
                let ghost gp = p;
                self.insert_at(i, p);
                proof {
                    lemma_keyed_map_at(pkeys(self.partitions@), self.partitions@, i as int);
                    assert(self.rows_view() =~= old(self).rows_view().insert(
                        partition_key@,
                        Map::empty(),
                    ));
                    assert(self.map().remove(partition_key@) =~= old(self).map());
                }
                i
            },
        }
    }

    /// Puts a row into the partition of its key, made where there was none; replaces the row of
    /// the same key, which is returned.
    pub fn insert_or_replace_row(
        &mut self,
        db_row: DbRow,
        now: DateTimeAsMicroseconds,
        set_last_write_moment: Option<DateTimeAsMicroseconds>,
    ) -> (r: Option<DbRow>)
        requires
            old(self).wf(),
            db_row.wf(),
            old(self).table_size() + db_row.raw_view().len() <= usize::MAX,
        ensures
            final(self).wf(),
            final(self).rows_view() == view_with_row(old(self).rows_view(), db_row),
            final(self).rows_view() == old(self).rows_view().insert(
                db_row.partition_key_view(),
                rows_of(old(self).rows_view(), db_row.partition_key_view()).insert(
                    db_row.row_key_view(),
                    db_row,
                ),
            ),
            r matches Some(d) ==> rows_of(old(self).rows_view(), db_row.partition_key_view()).contains_key(
                db_row.row_key_view(),
            ) && d == rows_of(old(self).rows_view(), db_row.partition_key_view())[db_row.row_key_view()],
            r is None ==> !rows_of(old(self).rows_view(), db_row.partition_key_view()).contains_key(
                db_row.row_key_view(),
            ),
            final(self).table_size() == old(self).table_size() + db_row.raw_view().len() - match r {
                Some(d) => d.raw_view().len() as int,
                None => 0int,
            },
            partition_written(old(self).map(), final(self).map(), db_row.partition_key_view(), now, set_last_write_moment),
    {
        let ghost pk = db_row.partition_key_view();
        let ghost row = db_row;
        let i = self.add_partition_if_not_exists(db_row.get_partition_key(), now);
        let ghost mid = self.rows_view();
        let ghost parts1 = self.partitions@;
        proof {
            self.lemma_sizes_nonneg();
            parts1[i as int].lemma_content_size();
            lemma_int_sum_update(psizes(parts1), i as int, 0);
            assert(psizes(parts1).update(i as int, 0)[i as int] == 0);
            assert forall|j: int| 0 <= j < psizes(parts1).update(i as int, 0).len() implies 0
                <= #[trigger] psizes(parts1).update(i as int, 0)[j] <= usize::MAX by {
                if j != i {
                    parts1[j].lemma_content_size();
                }
            }
            lemma_int_sum_bounds(psizes(parts1).update(i as int, 0), usize::MAX as int);
        }
        let removed = self.partitions[i].insert_or_replace_row(db_row);
        if let Some(m) = set_last_write_moment {
            self.partitions[i].last_write_moment = m;
        }
        proof {
            let np = self.partitions@[i as int];
            assert(self.partitions@ == parts1.update(i as int, np));
            lemma_partition_changed(parts1, i as int, np);
            lemma_int_sum_update(psizes(parts1), i as int, np.content_size_view());
            lemma_keyed_map_at(pkeys(parts1), parts1, i as int);
            let map1 = keyed_map(pkeys(parts1), parts1);
            assert(parts1[i as int].rows.map() == rows_of(old(self).rows_view(), pk)) by {
                if old(self).map().contains_key(pk) {
                    assert(map1 == old(self).map());
                } else {
                    assert(mid.contains_key(pk));
                    assert(mid[pk] == Map::<Seq<u8>, DbRow>::empty());
                }
            }
            assert forall|k: Seq<u8>| k != pk implies (#[trigger] self.map().contains_key(k)
                == old(self).map().contains_key(k)) && (self.map().contains_key(k) ==> self.map()[k]
                == old(self).map()[k]) by {
                if !old(self).map().contains_key(pk) {
                    assert(map1.remove(pk).contains_key(k) == map1.contains_key(k));
                }
            }
            assert(self.rows_view() =~= old(self).rows_view().insert(
                pk,
                rows_of(old(self).rows_view(), pk).insert(row.row_key_view(), row),
            ));
            lemma_keyed_map_at(pkeys(self.partitions@), self.partitions@, i as int);
            if old(self).map().contains_key(pk) {
                assert(map1 == old(self).map());
            }
        }
        removed
    }

    /// Removes the row `row_key` of partition `partition_key`; gives it back with whether the
    /// partition is then empty, and drops an empty partition where asked to.
    pub fn remove_row(
        &mut self,
        partition_key: &[u8],
        row_key: &[u8],
        delete_empty_partition: bool,
        set_last_write_moment: Option<DateTimeAsMicroseconds>,
    ) -> (r: Option<(DbRow, bool)>)
        requires
            old(self).wf(),
        ensures
            final(self).wf(),
            r is None ==> !rows_of(old(self).rows_view(), partition_key@).contains_key(row_key@)
                && final(self).rows_view() == old(self).rows_view(),
            r matches Some((d, empty)) ==> {
                let rows = rows_of(old(self).rows_view(), partition_key@);
                &&& rows.contains_key(row_key@)
                &&& d == rows[row_key@]
                &&& empty == (rows.remove(row_key@) == Map::<Seq<u8>, DbRow>::empty())
                &&& final(self).rows_view() == if delete_empty_partition && empty {
                    old(self).rows_view().remove(partition_key@)
                } else {
                    old(self).rows_view().insert(partition_key@, rows.remove(row_key@))
                }
            },
            final(self).table_size() == old(self).table_size() - match r {
                Some((d, _)) => d.raw_view().len() as int,
                None => 0int,
            },
            r matches Some((_, empty)) ==> !(delete_empty_partition && empty) ==> partition_written(
                old(self).map(),
                final(self).map(),
                partition_key@,
                DateTimeAsMicroseconds { unix_microseconds: 0 },
                set_last_write_moment,
            ),
    {
        match self.find(partition_key) {
            Err(i) => {
                proof {
                    lemma_absent(pkeys(self.partitions@), i as int, partition_key@);
                }
                None
            },
            Ok(i) => {
                let ghost parts1 = self.partitions@;
                proof {
                    lemma_keyed_map_at(pkeys(parts1), parts1, i as int);
                    self.lemma_sizes_nonneg();
                }
                let removed = self.partitions[i].remove_row(row_key);
                match removed {
                    None => {
                        proof {
                            let np = self.partitions@[i as int];
                            assert(self.partitions@ == parts1.update(i as int, np));
                            lemma_partition_changed(parts1, i as int, np);
                            assert(psizes(self.partitions@) =~= psizes(parts1));
                            assert(np.rows.map() =~= parts1[i as int].rows.map());
                            assert(self.rows_view() =~= old(self).rows_view());
                        }
                        None
                    },
                    Some(d) => {
                        if let Some(m) = set_last_write_moment {
                            self.partitions[i].last_write_moment = m;
                        }
                        let empty = self.partitions[i].is_empty();
                        let ghost parts2 = self.partitions@;
                        proof {
                            let np = parts2[i as int];
                            assert(parts2 == parts1.update(i as int, np));
                            lemma_partition_changed(parts1, i as int, np);
                            lemma_int_sum_update(psizes(parts1), i as int, np.content_size_view());
                            np.rows.lemma_wf();
                            lemma_rows_map_empty(np.rows.rows());
                            assert forall|j: int| 0 <= j < psizes(parts2).len() implies 0
                                <= #[trigger] psizes(parts2)[j] <= usize::MAX by {
                                parts2[j].lemma_content_size();
                            }
                            lemma_int_sum_bounds(psizes(parts2), usize::MAX as int);
                            assert(self.rows_view() =~= old(self).rows_view().insert(
                                partition_key@,
                                rows_of(old(self).rows_view(), partition_key@).remove(row_key@),
                            ));
                            lemma_keyed_map_at(pkeys(parts2), parts2, i as int);
                            assert(self.map().dom() =~= old(self).map().dom().insert(partition_key@));
                        }
                        if delete_empty_partition && empty {
                            let _ = self.remove_at(i);
                            proof {
                                lemma_empty_partition_size(parts2[i as int]);
                                assert(self.rows_view() =~= old(self).rows_view().remove(partition_key@));
                            }
                        }
                        Some((d, empty))
                    },
                }
            },
        }
    }

    /// Removes the rows of the given keys from partition `partition_key`; gives back the rows
    /// removed, in the order of their keys, with whether the partition is then empty, and drops
    /// an empty partition where asked to. Gives none where none of the keys was there.
    pub fn bulk_remove_rows(
        &mut self,
        partition_key: &[u8],
        row_keys: &Vec<Vec<u8>>,
        delete_empty_partition: bool,
        set_last_write_moment: Option<DateTimeAsMicroseconds>,
    ) -> (r: Option<(Vec<DbRow>, bool)>)
        requires
            old(self).wf(),
        ensures
            final(self).wf(),
            r is None <==> forall|k: Seq<u8>|
                #[trigger] key_set(row_keys@).contains(k) ==> !rows_of(
                    old(self).rows_view(),
                    partition_key@,
                ).contains_key(k),
            r is None ==> final(self).rows_view() == old(self).rows_view(),
            r matches Some((v, empty)) ==> {
                let rows = rows_of(old(self).rows_view(), partition_key@);
                let left = rows.remove_keys(key_set(row_keys@));
                &&& v@ == removed_rows(rows, row_keys@.map_values(|k: Vec<u8>| k@))
                &&& empty == (left == Map::<Seq<u8>, DbRow>::empty())
                &&& final(self).rows_view() == if delete_empty_partition && empty {
                    old(self).rows_view().remove(partition_key@)
                } else {
                    old(self).rows_view().insert(partition_key@, left)
                }
            },
            r matches Some((_, empty)) ==> !(delete_empty_partition && empty) ==> partition_written(
                old(self).map(),
                final(self).map(),
                partition_key@,
                DateTimeAsMicroseconds { unix_microseconds: 0 },
                set_last_write_moment,
            ),
    {
        match self.find(partition_key) {
            Err(i) => {
                proof {
                    lemma_absent(pkeys(self.partitions@), i as int, partition_key@);
                }
                None
            },
            Ok(i) => {
                let ghost parts1 = self.partitions@;
                proof {
                    lemma_keyed_map_at(pkeys(parts1), parts1, i as int);
                    self.lemma_sizes_nonneg();
                }
                let removed = self.partitions[i].remove_rows_bulk(row_keys);
                let ghost parts2 = self.partitions@;
                proof {
                    let np = parts2[i as int];
                    assert(parts2 == parts1.update(i as int, np));
                    lemma_partition_changed(parts1, i as int, np);
                    lemma_int_sum_update(psizes(parts1), i as int, np.content_size_view());
                    parts1[i as int].lemma_content_size();
                    np.lemma_content_size();
                    crate::db_rows_container::lemma_sizes_nonneg(np.rows.rows());
                    assert forall|j: int| 0 <= j < psizes(parts2).len() implies 0
                        <= #[trigger] psizes(parts2)[j] <= usize::MAX by {
                        parts2[j].lemma_content_size();
                    }
                    lemma_int_sum_bounds(psizes(parts2), usize::MAX as int);
                }
                match removed {
                    None => {
                        proof {
                            assert(self.rows_view() =~= old(self).rows_view());
                        }
                        None
                    },
                    Some(v) => {
                        if let Some(m) = set_last_write_moment {
                            self.partitions[i].last_write_moment = m;
                        }
                        let empty = self.partitions[i].is_empty();
                        let ghost parts3 = self.partitions@;
                        proof {
                            let np = parts3[i as int];
                            assert(parts3 == parts1.update(i as int, np));
                            lemma_partition_changed(parts1, i as int, np);
                            assert(psizes(parts3) =~= psizes(parts2));
                            np.rows.lemma_wf();
                            crate::db_rows_container::lemma_rows_map_empty(np.rows.rows());
                            assert(self.rows_view() =~= old(self).rows_view().insert(
                                partition_key@,
                                rows_of(old(self).rows_view(), partition_key@).remove_keys(
                                    key_set(row_keys@),
                                ),
                            ));
                            lemma_keyed_map_at(pkeys(parts3), parts3, i as int);
                            assert(self.map().dom() =~= old(self).map().dom().insert(partition_key@));
                        }
                        if delete_empty_partition && empty {
                            let _ = self.remove_at(i);
                            proof {
                                lemma_empty_partition_size(parts3[i as int]);
                                assert(self.rows_view() =~= old(self).rows_view().remove(partition_key@));
                            }
                        }
                        Some((v, empty))
                    },
                }
            },
        }
    }

    /// Sets the expiration of row `row_key` of partition `partition_key`; returns a copy of the
    /// row where its moment changed.
    pub fn update_expiration_time(
        &mut self,
        partition_key: &[u8],
        row_key: &[u8],
        expiration_time: Option<Expiration>,
    ) -> (r: Option<DbRow>)
        requires
            old(self).wf(),
        ensures
            final(self).wf(),
            final(self).table_size() == old(self).table_size(),
            final(self).rows_view().dom() == old(self).rows_view().dom(),
            forall|k: Seq<u8>|
                #[trigger] old(self).rows_view().contains_key(k) && k != partition_key@
                    ==> final(self).rows_view()[k] == old(self).rows_view()[k],
            old(self).rows_view().contains_key(partition_key@) ==> {
                let before = old(self).rows_view()[partition_key@];
                let after = final(self).rows_view()[partition_key@];
                &&& after.dom() == before.dom()
                &&& forall|k: Seq<u8>|
                    #[trigger] before.contains_key(k) && k != row_key@ ==> after[k] == before[k]
                &&& before.contains_key(row_key@) ==> after[row_key@].expires_moment() == moment_of(
                    expiration_time,
                )
            },
            r is Some <==> rows_of(old(self).rows_view(), partition_key@).contains_key(row_key@)
                && rows_of(old(self).rows_view(), partition_key@)[row_key@].expires_moment()
                != moment_of(expiration_time),
            final(self).rows_view() == view_with_expiration(
                old(self).rows_view(),
                partition_key@,
                row_key@,
                expiration_time,
            ),
    {
        match self.find(partition_key) {
            Err(i) => {
                proof {
                    lemma_absent(pkeys(self.partitions@), i as int, partition_key@);
                }
                None
            },
            Ok(i) => {
                let ghost parts1 = self.partitions@;
                proof {
                    lemma_keyed_map_at(pkeys(parts1), parts1, i as int);
                }
                let r = self.partitions[i].update_expiration_time(row_key, expiration_time);
                proof {
                    let np = self.partitions@[i as int];
                    assert(self.partitions@ == parts1.update(i as int, np));
                    lemma_partition_changed(parts1, i as int, np);
                    assert(psizes(self.partitions@) =~= psizes(parts1));
                    assert(self.rows_view().dom() =~= old(self).rows_view().dom());
                    assert(self.rows_view() =~= view_with_expiration(
                        old(self).rows_view(),
                        partition_key@,
                        row_key@,
                        expiration_time,
                    ));
                }
                r
            },
        }
    }

    /// Puts rows in, one after another, into partition `partition_key`, made where there was
    /// none; returns the rows they replaced.
    pub fn bulk_insert_or_replace(
        &mut self,
        partition_key: &[u8],
        db_rows: Vec<DbRow>,
        now: DateTimeAsMicroseconds,
        set_last_write_moment: Option<DateTimeAsMicroseconds>,
    ) -> (r: Vec<DbRow>)
        requires
            old(self).wf(),
            forall|i: int| 0 <= i < db_rows@.len() ==> (#[trigger] db_rows@[i]).wf(),
            old(self).table_size() + sizes(db_rows@) <= usize::MAX,
        ensures
            final(self).wf(),
            final(self).rows_view() == old(self).rows_view().insert(
                partition_key@,
                insert_rows(rows_of(old(self).rows_view(), partition_key@), db_rows@),
            ),
            r@ == displaced_rows(rows_of(old(self).rows_view(), partition_key@), db_rows@),
            partition_written(old(self).map(), final(self).map(), partition_key@, now, set_last_write_moment),
    {
        let ghost pk = partition_key@;
        let ghost all = db_rows@;
        let i = self.add_partition_if_not_exists(partition_key, now);
        let ghost mid = self.rows_view();
        let ghost parts1 = self.partitions@;
        proof {
            self.lemma_sizes_nonneg();
            parts1[i as int].lemma_content_size();
            lemma_int_sum_update(psizes(parts1), i as int, 0);
            assert forall|j: int| 0 <= j < psizes(parts1).update(i as int, 0).len() implies 0
                <= #[trigger] psizes(parts1).update(i as int, 0)[j] <= usize::MAX by {
                if j != i {
                    parts1[j].lemma_content_size();
                }
            }
            lemma_int_sum_bounds(psizes(parts1), usize::MAX as int);
            lemma_int_sum_bounds(psizes(parts1).update(i as int, 0), usize::MAX as int);
        }
        let removed = self.partitions[i].insert_or_replace_rows_bulk(db_rows);
        if let Some(m) = set_last_write_moment {
            self.partitions[i].last_write_moment = m;
        }
        proof {
            let np = self.partitions@[i as int];
            assert(self.partitions@ == parts1.update(i as int, np));
            lemma_partition_changed(parts1, i as int, np);
            lemma_int_sum_update(psizes(parts1), i as int, np.content_size_view());
            np.lemma_content_size();
            assert forall|j: int| 0 <= j < psizes(self.partitions@).len() implies 0
                <= #[trigger] psizes(self.partitions@)[j] <= usize::MAX by {
                self.partitions@[j].lemma_content_size();
            }
            lemma_keyed_map_at(pkeys(parts1), parts1, i as int);
            let map1 = keyed_map(pkeys(parts1), parts1);
            assert(parts1[i as int].rows.map() == rows_of(old(self).rows_view(), pk)) by {
                if old(self).map().contains_key(pk) {
                    assert(map1 == old(self).map());
                } else {
                    assert(mid.contains_key(pk));
                    assert(mid[pk] == Map::<Seq<u8>, DbRow>::empty());
                }
            }
            assert forall|k: Seq<u8>| k != pk implies (#[trigger] self.map().contains_key(k)
                == old(self).map().contains_key(k)) && (self.map().contains_key(k) ==> self.map()[k]
                == old(self).map()[k]) by {
                if !old(self).map().contains_key(pk) {
                    assert(map1.remove(pk).contains_key(k) == map1.contains_key(k));
                }
            }
            assert(self.rows_view() =~= old(self).rows_view().insert(
                pk,
                insert_rows(rows_of(old(self).rows_view(), pk), all),
            ));
            lemma_keyed_map_at(pkeys(self.partitions@), self.partitions@, i as int);
            if old(self).map().contains_key(pk) {
                assert(map1 == old(self).map());
            }
        }
        removed
    }

    /// Where there are more than `max_partitions_amount` partitions: the surplus ones that were
    /// read least recently, most recently read first.
    pub fn get_partitions_to_gc_by_max_amount(&self, max_partitions_amount: usize) -> (r: Option<
        Vec<PartitionToGc>,
    >)
        requires
            self.wf(),
        ensures
            r is None <==> self.parts().len() <= max_partitions_amount,
            r matches Some(v) ==> exists|sel: Seq<usize>|
                #[trigger] is_oldest_selection(
                    plast_reads(self.parts()),
                    self.parts().len() - max_partitions_amount,
                    sel,
                ) && v@.len() == sel.len() && forall|q: int|
                    0 <= q < v@.len() ==> (#[trigger] v@[q]).partition_key@ == self.parts()[sel[sel.len()
                        - 1 - q] as int].partition_key@ && v@[q].last_read_moment == self.parts()[sel[sel.len()
                        - 1 - q] as int].last_read_moment,
    {
        let n = self.partitions.len();
        if n <= max_partitions_amount {
            return None;
        }
        let mut moments: Vec<i64> = Vec::new();
        let mut i: usize = 0;
        while i < n
            invariant
                n == self.partitions@.len(),
                i <= n,
                moments@ == plast_reads(self.partitions@).take(i as int),
            decreases n - i,
        {
            moments.push(self.partitions[i].last_read_moment.unix_microseconds);
            proof {
                assert(moments@ =~= plast_reads(self.partitions@).take(i + 1));
            }
            i = i + 1;
        }
        assert(moments@ =~= plast_reads(self.partitions@));
        let sel = select_oldest(&moments, n - max_partitions_amount);
        let mut result: Vec<PartitionToGc> = Vec::new();
        let mut k: usize = sel.len();
        while k > 0
            invariant
                n == self.partitions@.len(),
                k <= sel@.len(),
                forall|q: int| 0 <= q < sel@.len() ==> (#[trigger] sel@[q]) < n,
                result@.len() == sel@.len() - k,
                forall|q: int|
                    0 <= q < result@.len() ==> (#[trigger] result@[q]).partition_key@
                        == self.partitions@[sel@[sel@.len() - 1 - q] as int].partition_key@
                        && result@[q].last_read_moment == self.partitions@[sel@[sel@.len() - 1
                        - q] as int].last_read_moment,
            decreases k,
        {
            k = k - 1;
            let p = &self.partitions[sel[k]];
            result.push(
                PartitionToGc {
                    partition_key: copy_bytes(p.partition_key.as_slice()),
                    last_read_moment: p.last_read_moment,
                },
            );
        }
        assert(is_oldest_selection(
            plast_reads(self.parts()),
            self.parts().len() - max_partitions_amount,
            sel@,
        ));
        Some(result)
    }

    /// Puts a row in unless its partition has a row of its key already; tells whether it went
    /// in.
    pub fn insert_row(
        &mut self,
        db_row: DbRow,
        now: DateTimeAsMicroseconds,
        set_last_write_moment: Option<DateTimeAsMicroseconds>,
    ) -> (r: bool)
        requires
            old(self).wf(),
            db_row.wf(),
            old(self).table_size() + db_row.raw_view().len() <= usize::MAX,
        ensures
            final(self).wf(),
            r == !rows_of(old(self).rows_view(), db_row.partition_key_view()).contains_key(
                db_row.row_key_view(),
            ),
            r ==> final(self).rows_view() == old(self).rows_view().insert(
                db_row.partition_key_view(),
                rows_of(old(self).rows_view(), db_row.partition_key_view()).insert(
                    db_row.row_key_view(),
                    db_row,
                ),
            ) && final(self).table_size() == old(self).table_size() + db_row.raw_view().len(),
            !r ==> final(self).rows_view() == old(self).rows_view() && final(self).table_size()
                == old(self).table_size() && final(self).map() == old(self).map(),
            r ==> partition_written(old(self).map(), final(self).map(), db_row.partition_key_view(), now, set_last_write_moment),
    {
        if let Some(p) = self.get(db_row.get_partition_key()) {
            if p.get_row(db_row.get_row_key()).is_some() {
                return false;
            }
        }
        let _ = self.insert_or_replace_row(db_row, now, set_last_write_moment);
        true
    }

    /// Takes out the partition of `partition_key`, keeping the rows of the others.
    pub fn remove_partition(&mut self, partition_key: &[u8]) -> (r: Option<DbPartition>)
        requires
            old(self).wf(),
        ensures
            final(self).wf(),
            final(self).rows_view() == old(self).rows_view().remove(partition_key@),
            r is Some <==> old(self).rows_view().contains_key(partition_key@),
            r matches Some(p) ==> p.rows.map() == old(self).rows_view()[partition_key@],
    {
        let r = self.remove(partition_key);
        assert(self.rows_view() =~= old(self).rows_view().remove(partition_key@));
        r
    }
}

} // verus!
