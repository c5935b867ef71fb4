use vstd::prelude::*;

use crate::db_partitions_container::{pkeys, plast_reads, PartitionToGc};
use crate::db_rows_container::last_reads;
use crate::db_table::DbTableInner;
use crate::gc_select::is_oldest_selection;
use crate::expiration_index::{expired_count, flatten};
use crate::keys::{bytes_eq, copy_bytes};
use crate::time::DateTimeAsMicroseconds;

verus! {

/// The rows of one partition picked for collection.
pub struct DbRowsToGc {
    pub partition_key: Vec<u8>,
    pub row_keys: Vec<Vec<u8>>,
}

/// The row keys of an entry.
pub open spec fn row_keys_of(e: DbRowsToGc) -> Seq<Seq<u8>> {
    e.row_keys@.map_values(|k: Vec<u8>| k@)
}

/// A plan of collection: whole partitions to drop, and rows to drop from other partitions.
pub struct DataToGc {
    pub partitions: Vec<Vec<u8>>,
    pub db_rows: Vec<DbRowsToGc>,
}

impl DataToGc {
    /// The keys of the partitions to drop.
    pub open spec fn partitions_view(&self) -> Seq<Seq<u8>> {
        self.partitions@.map_values(|k: Vec<u8>| k@)
    }

    /// The partition keys of the row entries.
    pub open spec fn row_partitions_view(&self) -> Seq<Seq<u8>> {
        self.db_rows@.map_values(|e: DbRowsToGc| e.partition_key@)
    }

    pub fn new() -> (r: Self)
        ensures
            r.partitions_view() == Seq::<Seq<u8>>::empty(),
            r.row_partitions_view() == Seq::<Seq<u8>>::empty(),
    {
        let r = DataToGc { partitions: Vec::new(), db_rows: Vec::new() };
        assert(r.partitions_view() =~= Seq::<Seq<u8>>::empty());
        assert(r.row_partitions_view() =~= Seq::<Seq<u8>>::empty());
        r
    }

    /// A partition to drop is listed.
    pub fn has_partition_to_gc(&self, partition_key: &[u8]) -> (r: bool)
        ensures
            r == self.partitions_view().contains(partition_key@),
    {
        let mut i: usize = 0;
        while i < self.partitions.len()
            invariant
                i <= self.partitions@.len(),
                forall|j: int| 0 <= j < i ==> self.partitions_view()[j] != partition_key@,
            decreases self.partitions@.len() - i,
        {
            if bytes_eq(self.partitions[i].as_slice(), partition_key) {
                assert(self.partitions_view()[i as int] == partition_key@);
                return true;
            }
            i = i + 1;
        }
        false
    }

    /// Lists a partition to drop, once.
    pub fn add_partition_to_expire(&mut self, partition_key: &[u8])
        ensures
            old(self).partitions_view().contains(partition_key@) ==> final(self).partitions_view()
                == old(self).partitions_view(),
            !old(self).partitions_view().contains(partition_key@) ==> final(self).partitions_view()
                == old(self).partitions_view().push(partition_key@),
            final(self).db_rows@ == old(self).db_rows@,
    {
        if self.has_partition_to_gc(partition_key) {
            return;
        }
        let k = copy_bytes(partition_key);
        self.partitions.push(k);
        assert(self.partitions_view() =~= old(self).partitions_view().push(partition_key@));
    }

    /// Lists rows of a partition to drop, after those listed for it already.
    pub fn add_rows_to_expire(&mut self, partition_key: &[u8], row_keys: Vec<Vec<u8>>)
        requires
            old(self).row_partitions_view().no_duplicates(),
        ensures
            final(self).row_partitions_view().no_duplicates(),
            forall|j: int|
                0 <= j < old(self).db_rows@.len() && (#[trigger] old(self).db_rows@[j]).partition_key@
                    != partition_key@ ==> final(self).db_rows@[j] == old(self).db_rows@[j],
            forall|j: int|
                0 <= j < old(self).db_rows@.len() && (#[trigger] old(self).db_rows@[j]).partition_key@
                    == partition_key@ ==> final(self).db_rows@[j].partition_key@ == partition_key@
                    && row_keys_of(final(self).db_rows@[j]) == row_keys_of(old(self).db_rows@[j])
                    + row_keys@.map_values(|k: Vec<u8>| k@),
            old(self).row_partitions_view().contains(partition_key@) ==> final(self).db_rows@.len()
                == old(self).db_rows@.len(),
            !old(self).row_partitions_view().contains(partition_key@) ==> final(self).db_rows@.len()
                == old(self).db_rows@.len() + 1 && final(self).db_rows@.last().partition_key@
                == partition_key@ && row_keys_of(final(self).db_rows@.last()) == row_keys@.map_values(
                |k: Vec<u8>| k@,
            ),
            final(self).partitions@ == old(self).partitions@,
            old(self).row_partitions_view().contains(partition_key@) ==> final(self).row_partitions_view()
                == old(self).row_partitions_view(),
            !old(self).row_partitions_view().contains(partition_key@) ==> final(self).row_partitions_view() == old(self).row_partitions_view().push(partition_key@),
            final(self).row_partitions_view().contains(partition_key@),
            forall|k: Seq<u8>| #[trigger]
                old(self).row_partitions_view().contains(k) ==> final(self).row_partitions_view().contains(k),
    {
        let mut i: usize = 0;
        while i < self.db_rows.len()
            invariant
                i <= self.db_rows@.len(),
                self.db_rows@ == old(self).db_rows@,
                self.partitions@ == old(self).partitions@,
                old(self).row_partitions_view().no_duplicates(),
                forall|j: int| 0 <= j < i ==> self.row_partitions_view()[j] != partition_key@,
            decreases self.db_rows@.len() - i,
        {
            if bytes_eq(self.db_rows[i].partition_key.as_slice(), partition_key) {
                let ghost before = self.db_rows@;
                let ghost added = row_keys@.map_values(|k: Vec<u8>| k@);
                let mut k: usize = 0;
                assert(added.take(0) =~= Seq::<Seq<u8>>::empty());
                assert(row_keys_of(before[i as int]) + added.take(0) =~= row_keys_of(before[i as int]));
                while k < row_keys.len()
                    invariant
                        i < self.db_rows@.len(),
                        k <= row_keys@.len(),
                        added == row_keys@.map_values(|k: Vec<u8>| k@),
                        self.db_rows@.len() == before.len(),
                        self.partitions@ == old(self).partitions@,
                        forall|j: int|
                            0 <= j < before.len() ==> (#[trigger] self.db_rows@[j]).partition_key@
                                == before[j].partition_key@,
                        forall|j: int|
                            0 <= j < before.len() && j != i ==> #[trigger] self.db_rows@[j] == before[j],
                        row_keys_of(self.db_rows@[i as int]) == row_keys_of(before[i as int])
                            + added.take(k as int),
                    decreases row_keys@.len() - k,
                {
                    let key = copy_bytes(row_keys[k].as_slice());
                    let ghost prev = self.db_rows@[i as int].row_keys@;
                    self.db_rows[i].row_keys.push(key);
                    proof {
                        assert(self.db_rows@[i as int].row_keys@ == prev.push(key));
                        assert(row_keys_of(self.db_rows@[i as int]) =~= prev.map_values(
                            |k: Vec<u8>| k@,
                        ).push(key@));
                        assert(added.take(k + 1) =~= added.take(k as int).push(added[k as int]));
                    }
                    k = k + 1;
                }
                assert(added.take(k as int) =~= added);
                proof {
                    assert(self.row_partitions_view() =~= old(self).row_partitions_view());
                    assert(old(self).row_partitions_view()[i as int] == partition_key@);
                    assert(self.row_partitions_view()[i as int] == partition_key@);
                    let o = old(self).row_partitions_view();
                    assert forall|j: int|
                        0 <= j < old(self).db_rows@.len() && (#[trigger] old(self).db_rows@[j]).partition_key@ == partition_key@ implies j == i by {
                        assert(o[j] == partition_key@);
                        assert(o[i as int] == partition_key@);
                    }
                }
                return;
            }
            i = i + 1;
        }
        proof {
            if old(self).row_partitions_view().contains(partition_key@) {
                let q = choose|q: int|
                    0 <= q < old(self).row_partitions_view().len()
                        && old(self).row_partitions_view()[q] == partition_key@;
                assert(self.row_partitions_view()[q] != partition_key@);
            }
        }
        let entry = DbRowsToGc { partition_key: copy_bytes(partition_key), row_keys };
        self.db_rows.push(entry);
        assert(self.row_partitions_view() =~= old(self).row_partitions_view().push(partition_key@));
        proof {
            let v = self.row_partitions_view();
            let o = old(self).row_partitions_view();
            assert(v[v.len() - 1] == partition_key@);
            lemma_push_no_dup_new(o, partition_key@);
            assert forall|j: int| 0 <= j < old(self).db_rows@.len() implies (#[trigger] old(self).db_rows@[j]).partition_key@ != partition_key@ by {
                assert(o[j] == old(self).db_rows@[j].partition_key@);
            }
            assert(row_keys_of(self.db_rows@.last()) =~= row_keys@.map_values(|k: Vec<u8>| k@));
            assert forall|k: Seq<u8>| #[trigger] o.contains(k) implies v.contains(k) by {
                let j = choose|j: int| 0 <= j < o.len() && o[j] == k;
                assert(v[j] == k);
            }
        }
    }
}

/// The table holds more partitions than its limit.
pub open spec fn over_partition_limit(t: &DbTableInner) -> bool {
    t.attributes.max_partitions_amount matches Some(m) && t.partitions.parts().len() > m
}

/// The keys of the partitions whose expiration is not later than `now`, earliest first.
pub open spec fn expired_partitions(t: &DbTableInner, now: DateTimeAsMicroseconds) -> Seq<Seq<u8>> {
    flatten(
        t.partitions.index().take(
            expired_count(t.partitions.index(), now.unix_microseconds as int) as int,
        ),
    )
}

/// `keys` are those of the partitions over the limit that were read least recently.
pub open spec fn gc_keys_match(t: &DbTableInner, keys: Seq<Seq<u8>>) -> bool {
    exists|sel: Seq<usize>|
        #[trigger] is_oldest_selection(
            plast_reads(t.partitions.parts()),
            t.partitions.parts().len() - t.attributes.max_partitions_amount->0,
            sel,
        ) && forall|k: Seq<u8>| #[trigger]
            keys.contains(k) == exists|q: int|
                0 <= q < sel.len() && t.partitions.parts()[sel[q] as int].partition_key@ == k
}

/// The keys of the rows of `p` whose expiration is not later than `now`, earliest first.
pub open spec fn expired_rows(p: crate::db_partition::DbPartition, now: DateTimeAsMicroseconds) -> Seq<
    Seq<u8>,
> {
    flatten(p.rows.index().take(expired_count(p.rows.index(), now.unix_microseconds as int) as int))
}

/// `k` lists, oldest first, the rows of `p` over the row limit that were read least recently;
/// nothing where there is no limit or `p` keeps to it.
pub open spec fn surplus_rows(
    p: crate::db_partition::DbPartition,
    max_rows: Option<usize>,
    k: Seq<Seq<u8>>,
) -> bool {
    if max_rows matches Some(m) && p.rows.rows().len() > m {
        exists|sel: Seq<usize>|
            #[trigger] is_oldest_selection(
                last_reads(p.rows.rows()),
                p.rows.rows().len() - max_rows->0,
                sel,
            ) && k == sel.map_values(|i: usize| p.rows.rows()[i as int].row_key_view())
    } else {
        k.len() == 0
    }
}

/// `keys` are the rows of `p` to collect: its expired rows, then its surplus ones.
pub open spec fn rows_planned(
    p: crate::db_partition::DbPartition,
    now: DateTimeAsMicroseconds,
    max_rows: Option<usize>,
    keys: Seq<Seq<u8>>,
) -> bool {
    let e = expired_rows(p, now);
    &&& e.len() <= keys.len()
    &&& keys.take(e.len() as int) == e
    &&& surplus_rows(p, max_rows, keys.skip(e.len() as int))
}

/// An entry of the plan lists the rows to collect of a partition of the table.
pub open spec fn entry_planned(
    parts: Seq<crate::db_partition::DbPartition>,
    upto: int,
    e: DbRowsToGc,
    now: DateTimeAsMicroseconds,
    max_rows: Option<usize>,
) -> bool {
    exists|q: int|
        0 <= q < upto && #[trigger] parts[q].partition_key@ == e.partition_key@ && rows_planned(
            parts[q],
            now,
            max_rows,
            row_keys_of(e),
        )
}

/// A partition has rows to collect at `now`: expired ones, or more than the row limit.
pub open spec fn needs_row_gc(
    p: crate::db_partition::DbPartition,
    now: DateTimeAsMicroseconds,
    max_rows: Option<usize>,
) -> bool {
    flatten(p.rows.index().take(expired_count(p.rows.index(), now.unix_microseconds as int) as int)).len()
        > 0 || (max_rows matches Some(m) && p.rows.rows().len() > m)
}

impl DbTableInner {
    /// Plans a collection at `now`: the partitions over the partition limit that were read
    /// least recently and the expired partitions are dropped whole; from every other partition
    /// its expired rows, and its rows over the row limit that were read least recently.
    pub fn get_data_to_gc(&self, now: DateTimeAsMicroseconds) -> (r: DataToGc)
        requires
            self.wf(),
        ensures
            r.partitions_view().no_duplicates(),
            forall|k: Seq<u8>|
                #[trigger] flatten(
                    self.partitions.index().take(
                        expired_count(self.partitions.index(), now.unix_microseconds as int) as int,
                    ),
                ).contains(k) ==> r.partitions_view().contains(k),
            forall|j: int|
                0 <= j < r.row_partitions_view().len() ==> !r.partitions_view().contains(
                    #[trigger] r.row_partitions_view()[j],
                ),
            forall|q: int|
                0 <= q < self.partitions.parts().len() && !r.partitions_view().contains(
                    (#[trigger] self.partitions.parts()[q]).partition_key@,
                ) && needs_row_gc(self.partitions.parts()[q], now, self.attributes.max_rows_per_partition_amount)
                    ==> r.row_partitions_view().contains(self.partitions.parts()[q].partition_key@),
            forall|j: int|
                0 <= j < r.db_rows@.len() ==> entry_planned(
                    self.partitions.parts(),
                    self.partitions.parts().len() as int,
                    #[trigger] r.db_rows@[j],
                    now,
                    self.attributes.max_rows_per_partition_amount,
                ),
            !over_partition_limit(self) ==> forall|k: Seq<u8>| #[trigger]
                r.partitions_view().contains(k) == expired_partitions(self, now).contains(k),
            over_partition_limit(self) ==> exists|sel: Seq<usize>|
                #[trigger] is_oldest_selection(
                    plast_reads(self.partitions.parts()),
                    self.partitions.parts().len() - self.attributes.max_partitions_amount->0,
                    sel,
                ) && forall|k: Seq<u8>| #[trigger]
                    r.partitions_view().contains(k) == (expired_partitions(self, now).contains(k)
                        || exists|q: int|
                        0 <= q < sel.len() && self.partitions.parts()[sel[q] as int].partition_key@
                            == k),
    {
        let mut result = DataToGc::new();
        let ghost expired = flatten(
            self.partitions.index().take(
                expired_count(self.partitions.index(), now.unix_microseconds as int) as int,
            ),
        );
        let ghost mut sel_keys: Seq<Seq<u8>> = Seq::empty();
        if let Some(max_partitions_amount) = self.attributes.max_partitions_amount {
            if let Some(partitions_to_gc) = self.partitions.get_partitions_to_gc_by_max_amount(
                max_partitions_amount,
            ) {
                proof {
                    sel_keys = partitions_to_gc@.map_values(|p: PartitionToGc| p.partition_key@);
                    let parts = self.partitions.parts();
                    let sel = choose|sel: Seq<usize>|
                        #[trigger] is_oldest_selection(
                            plast_reads(parts),
                            parts.len() - max_partitions_amount,
                            sel,
                        ) && partitions_to_gc@.len() == sel.len() && forall|q: int|
                            0 <= q < partitions_to_gc@.len() ==> (#[trigger] partitions_to_gc@[q]).partition_key@
                                == parts[sel[sel.len() - 1 - q] as int].partition_key@
                                && partitions_to_gc@[q].last_read_moment == parts[sel[sel.len() - 1
                                - q] as int].last_read_moment;
                    assert forall|k: Seq<u8>| #[trigger] sel_keys.contains(k) == exists|q: int|
                        0 <= q < sel.len() && parts[sel[q] as int].partition_key@ == k by {
                        if sel_keys.contains(k) {
                            let q = choose|q: int| 0 <= q < sel_keys.len() && sel_keys[q] == k;
                            assert(partitions_to_gc@[q].partition_key@ == k);
                            let q2 = sel.len() - 1 - q;
                            assert(parts[sel[q2] as int].partition_key@ == k);
                        }
                        if exists|q: int| 0 <= q < sel.len() && parts[sel[q] as int].partition_key@ == k {
                            let q = choose|q: int| 0 <= q < sel.len() && parts[sel[q] as int].partition_key@ == k;
                            let q2 = sel.len() - 1 - q;
                            assert(partitions_to_gc@[q2].partition_key@ == k);
                            assert(sel_keys[q2] == k);
                        }
                    }
                    assert(is_oldest_selection(
                        plast_reads(parts),
                        parts.len() - max_partitions_amount,
                        sel,
                    ));
                    assert(gc_keys_match(self, sel_keys));
                }
                let mut i: usize = 0;
                assert(sel_keys.take(0) =~= Seq::<Seq<u8>>::empty());
                while i < partitions_to_gc.len()
                    invariant
                        i <= partitions_to_gc@.len(),
                        sel_keys == partitions_to_gc@.map_values(|p: PartitionToGc| p.partition_key@),
                        result.partitions_view().no_duplicates(),
                        result.row_partitions_view() == Seq::<Seq<u8>>::empty(),
                        forall|k: Seq<u8>| #[trigger] result.partitions_view().contains(k) == sel_keys.take(
                            i as int,
                        ).contains(k),
                    decreases partitions_to_gc@.len() - i,
                {
                    let ghost prev = result.partitions_view();
                    let ghost k0 = partitions_to_gc@[i as int].partition_key@;
                    result.add_partition_to_expire(partitions_to_gc[i].partition_key.as_slice());
                    proof {
                        if !prev.contains(k0) {
                            lemma_push_no_dup_new(prev, k0);
                        }
                        let t0 = sel_keys.take(i as int);
                        let t1 = sel_keys.take(i + 1);
                        assert(t1 =~= t0.push(k0));
                        let now_v = result.partitions_view();
                        assert forall|k: Seq<u8>| #[trigger] now_v.contains(k) == t1.contains(k) by {
                            if now_v.contains(k) && k != k0 {
                                if !prev.contains(k0) {
                                    let q = choose|q: int| 0 <= q < now_v.len() && now_v[q] == k;
                                    if q < prev.len() {
                                        assert(prev[q] == k);
                                    }
                                }
                                assert(prev.contains(k));
                                let q = choose|q: int| 0 <= q < t0.len() && t0[q] == k;
                                assert(t1[q] == k);
                            }
                            if t1.contains(k) && k != k0 {
                                let q = choose|q: int| 0 <= q < t1.len() && t1[q] == k;
                                assert(t0[q] == k);
                                assert(prev.contains(k));
                                if !prev.contains(k0) {
                                    let q2 = choose|q2: int| 0 <= q2 < prev.len() && prev[q2] == k;
                                    assert(now_v[q2] == k);
                                }
                            }
                            if k == k0 {
                                assert(t1[i as int] == k0);
                                if !prev.contains(k0) {
                                    assert(now_v[prev.len() as int] == k0);
                                }
                            }
                        }
                    }
                    i = i + 1;
                }
                assert(sel_keys.take(i as int) =~= sel_keys);
            }
        }
        assert(over_partition_limit(self) ==> gc_keys_match(self, sel_keys));
        assert(!over_partition_limit(self) ==> sel_keys.len() == 0);
        let ghost before_expired = result.partitions_view();
        assert forall|k: Seq<u8>| #[trigger] before_expired.contains(k) == sel_keys.contains(k) by {
        }
        let expired_keys = self.partitions.get_partitions_to_expire(now);
        let mut i: usize = 0;
        while i < expired_keys.len()
            invariant
                i <= expired_keys@.len(),
                expired_keys@.map_values(|x: Vec<u8>| x@) == expired,
                result.partitions_view().no_duplicates(),
                result.row_partitions_view() == Seq::<Seq<u8>>::empty(),
                forall|j: int| 0 <= j < i ==> result.partitions_view().contains(#[trigger] expired[j]),
                forall|k: Seq<u8>| #[trigger] result.partitions_view().contains(k) ==> before_expired.contains(k)
                    || expired.contains(k),
                forall|k: Seq<u8>| #[trigger] before_expired.contains(k) ==> result.partitions_view().contains(k),
            decreases expired_keys@.len() - i,
        {
            let ghost prev = result.partitions_view();
            result.add_partition_to_expire(expired_keys[i].as_slice());
            proof {
                assert(expired[i as int] == expired_keys@[i as int]@);
                let now_v = result.partitions_view();
                if !prev.contains(expired[i as int]) {
                    assert(now_v == prev.push(expired[i as int]));
                    assert(now_v[prev.len() as int] == expired[i as int]);
                    assert forall|j: int| 0 <= j < i implies now_v.contains(#[trigger] expired[j]) by {
                        let q = choose|q: int| 0 <= q < prev.len() && prev[q] == expired[j];
                        assert(now_v[q] == expired[j]);
                    }
                    assert forall|k: Seq<u8>| #[trigger] now_v.contains(k) implies before_expired.contains(k)
                        || expired.contains(k) by {
                        let q = choose|q: int| 0 <= q < now_v.len() && now_v[q] == k;
                        if q < prev.len() {
                            assert(prev[q] == k);
                            assert(prev.contains(k));
                        } else {
                            assert(expired[i as int] == k);
                        }
                    }
                    lemma_push_no_dup_new(prev, expired[i as int]);
                    assert forall|k: Seq<u8>| #[trigger] before_expired.contains(k) implies now_v.contains(k) by {
                        assert(prev.contains(k));
                        let q = choose|q: int| 0 <= q < prev.len() && prev[q] == k;
                        assert(now_v[q] == k);
                    }
                }
            }
            i = i + 1;
        }
        proof {
            assert forall|k: Seq<u8>| #[trigger] expired.contains(k) implies result.partitions_view().contains(k) by {
                let q = choose|q: int| 0 <= q < expired.len() && expired[q] == k;
            }
            if self.attributes.max_partitions_amount is None {
                assert(before_expired.len() == 0);
            }
        }
        let parts = self.partitions.get_partitions();
        proof {
            self.partitions.lemma_wf();
        }
        let ghost dropped = result.partitions_view();
        proof {
            assert forall|k: Seq<u8>| #[trigger] dropped.contains(k) == (expired.contains(k)
                || sel_keys.contains(k)) by {
                if dropped.contains(k) {
                    assert(result.partitions_view().contains(k));
                    assert(before_expired.contains(k) || expired.contains(k));
                }
                if sel_keys.contains(k) {
                    assert(before_expired.contains(k));
                    assert(result.partitions_view().contains(k));
                }
                if expired.contains(k) {
                    assert(result.partitions_view().contains(k));
                }
            }
        }
        let mut p: usize = 0;
        while p < parts.len()
            invariant
                p <= parts@.len(),
                forall|j: int| 0 <= j < parts@.len() ==> (#[trigger] parts@[j]).wf(),
                result.partitions_view().no_duplicates(),
                forall|k: Seq<u8>| #[trigger] expired.contains(k) ==> result.partitions_view().contains(k),
                forall|k: Seq<u8>| #[trigger] result.partitions_view().contains(k) ==> before_expired.contains(k)
                    || expired.contains(k),
                forall|j: int|
                    0 <= j < result.row_partitions_view().len() ==> !result.partitions_view().contains(
                        #[trigger] result.row_partitions_view()[j],
                    ),
                parts@ == self.partitions.parts(),
                result.partitions_view() == dropped,
                result.row_partitions_view().no_duplicates(),
                forall|q: int|
                    0 <= q < p && !result.partitions_view().contains(
                        (#[trigger] parts@[q]).partition_key@,
                    ) && needs_row_gc(parts@[q], now, self.attributes.max_rows_per_partition_amount)
                        ==> result.row_partitions_view().contains(parts@[q].partition_key@),
                forall|j: int|
                    0 <= j < result.db_rows@.len() ==> entry_planned(
                        parts@,
                        p as int,
                        #[trigger] result.db_rows@[j],
                        now,
                        self.attributes.max_rows_per_partition_amount,
                    ),
                keys_sorted_parts(parts@),
            decreases parts@.len() - p,
        {
            let partition = &parts[p];
            let pk = partition.partition_key.as_slice();
            let ghost start_rows = result.db_rows@;
            let ghost max_rows_opt = self.attributes.max_rows_per_partition_amount;
            proof {
                assert forall|j: int| 0 <= j < start_rows.len() implies (#[trigger] start_rows[j]).partition_key@
                    != pk@ by {
                    assert(entry_planned(parts@, p as int, start_rows[j], now, max_rows_opt));
                    let q = choose|q: int|
                        0 <= q < p && #[trigger] parts@[q].partition_key@ == start_rows[j].partition_key@
                            && rows_planned(parts@[q], now, max_rows_opt, row_keys_of(start_rows[j]));
                    lemma_part_keys_differ(parts@, q, p as int);
                }
                assert(!result.row_partitions_view().contains(pk@)) by {
                    if result.row_partitions_view().contains(pk@) {
                        let j = choose|j: int|
                            0 <= j < result.row_partitions_view().len()
                                && result.row_partitions_view()[j] == pk@;
                        assert(start_rows[j].partition_key@ != pk@);
                    }
                }
            }
            if !result.has_partition_to_gc(pk) {
                let rows_to_expire = partition.get_rows_to_expire(now);
                let ghost e_view = rows_to_expire@.map_values(|x: Vec<u8>| x@);
                let ghost mut planned: Seq<Seq<u8>> = Seq::empty();
                let ghost mut surplus_keys: Seq<Seq<u8>> = Seq::empty();
                if rows_to_expire.len() > 0 {
                    let ghost prev = result.row_partitions_view();
                    result.add_rows_to_expire(pk, rows_to_expire);
                    proof {
                        lemma_push_keeps(prev, result.row_partitions_view(), pk@, result.partitions_view());
                        planned = e_view;
                        assert(result.db_rows@.len() == start_rows.len() + 1);
                        assert(row_keys_of(result.db_rows@[start_rows.len() as int]) == planned);
                    }
                }
                proof {
                    assert(e_view.len() == 0 ==> result.db_rows@ == start_rows);
                }
                let mut surplus = false;
                if let Some(max_rows) = self.attributes.max_rows_per_partition_amount {
                    if let Some(rows_to_gc) = partition.rows.get_rows_to_gc_by_max_amount(max_rows) {
                        let ghost prev = result.row_partitions_view();
                        let ghost mid_rows = result.db_rows@;
                        let ghost k_view = rows_to_gc@.map_values(|x: Vec<u8>| x@);
                        result.add_rows_to_expire(pk, rows_to_gc);
                        proof {
                            lemma_push_keeps(prev, result.row_partitions_view(), pk@, result.partitions_view());
                            if e_view.len() > 0 {
                                assert(mid_rows.last().partition_key@ == pk@);
                                assert(mid_rows[start_rows.len() as int].partition_key@ == pk@);
                            }
                            if e_view.len() > 0 {
                                assert(row_keys_of(mid_rows[start_rows.len() as int]) == planned);
                                assert(row_keys_of(result.db_rows@[start_rows.len() as int]) == planned
                                    + k_view);
                            } else {
                                assert(mid_rows == start_rows);
                                assert(row_keys_of(result.db_rows@.last()) == k_view);
                                assert(planned + k_view =~= k_view);
                            }
                            planned = planned + k_view;
                            surplus_keys = k_view;
                            assert(result.db_rows@.len() == start_rows.len() + 1);
                            assert(row_keys_of(result.db_rows@[start_rows.len() as int]) == planned);
                            assert(surplus_rows(parts@[p as int], max_rows_opt, k_view));
                        }
                        surplus = true;
                    }
                }
                proof {
                    let e = expired_rows(parts@[p as int], now);
                    assert(e_view == e);
                    assert(surplus_rows(parts@[p as int], max_rows_opt, surplus_keys));
                    assert(planned =~= e_view + surplus_keys) by {
                        if !surplus {
                            assert(surplus_keys.len() == 0);
                            if e_view.len() == 0 {
                                assert(planned.len() == 0);
                            }
                        }
                    }
                    assert forall|j: int| 0 <= j < result.db_rows@.len() implies entry_planned(
                        parts@,
                        p + 1,
                        #[trigger] result.db_rows@[j],
                        now,
                        max_rows_opt,
                    ) by {
                        if j < start_rows.len() {
                            assert(result.db_rows@[j] == start_rows[j]);
                            assert(entry_planned(parts@, p as int, start_rows[j], now, max_rows_opt));
                            let q = choose|q: int|
                                0 <= q < p && #[trigger] parts@[q].partition_key@ == start_rows[j].partition_key@
                                    && rows_planned(parts@[q], now, max_rows_opt, row_keys_of(start_rows[j]));
                            assert(parts@[q].partition_key@ == result.db_rows@[j].partition_key@);
                        } else {
                            assert(j == start_rows.len());
                            assert(result.db_rows@[j].partition_key@ == pk@);
                            assert(parts@[p as int].partition_key@ == pk@);
                            let keys = row_keys_of(result.db_rows@[j]);
                            assert(keys == planned);
                            assert(keys.take(e.len() as int) =~= e);
                            assert(keys.skip(e.len() as int) =~= surplus_keys);
                            assert(rows_planned(parts@[p as int], now, max_rows_opt, keys));
                        }
                    }
                }
            }
            p = p + 1;
        }
        proof {
            if over_partition_limit(self) {
                let sel = choose|sel: Seq<usize>|
                    #[trigger] is_oldest_selection(
                        plast_reads(self.partitions.parts()),
                        self.partitions.parts().len() - self.attributes.max_partitions_amount->0,
                        sel,
                    ) && forall|k: Seq<u8>| #[trigger]
                        sel_keys.contains(k) == exists|q: int|
                            0 <= q < sel.len() && self.partitions.parts()[sel[q] as int].partition_key@
                                == k;
                assert forall|k: Seq<u8>| #[trigger]
                    result.partitions_view().contains(k) == (expired.contains(k) || exists|q: int|
                        0 <= q < sel.len() && self.partitions.parts()[sel[q] as int].partition_key@
                            == k) by {
                    assert(sel_keys.contains(k) == exists|q: int|
                        0 <= q < sel.len() && self.partitions.parts()[sel[q] as int].partition_key@
                            == k);
                }
            } else {
                assert forall|k: Seq<u8>| #[trigger] result.partitions_view().contains(k)
                    == expired.contains(k) by {
                    if sel_keys.contains(k) {
                        let q = choose|q: int| 0 <= q < sel_keys.len() && sel_keys[q] == k;
                    }
                }
            }
        }
        result
    }
}

/// The keys of the partitions are sorted and so distinct.
pub open spec fn keys_sorted_parts(parts: Seq<crate::db_partition::DbPartition>) -> bool {
    crate::sorted_keys::keys_sorted(pkeys(parts))
}

proof fn lemma_part_keys_differ(parts: Seq<crate::db_partition::DbPartition>, q: int, p: int)
    requires
        keys_sorted_parts(parts),
        0 <= q < p < parts.len(),
    ensures
        parts[q].partition_key@ != parts[p].partition_key@,
{
    let keys = pkeys(parts);
    assert(keys[q] == parts[q].partition_key@);
    assert(keys[p] == parts[p].partition_key@);
    if keys[q] == keys[p] {
        crate::sorted_keys::lemma_unique(keys, q, p);
    }
}

proof fn lemma_push_no_dup_new(s: Seq<Seq<u8>>, k: Seq<u8>)
    requires
        s.no_duplicates(),
        !s.contains(k),
    ensures
        s.push(k).no_duplicates(),
{
    assert forall|a: int, b: int| 0 <= a < b < s.push(k).len() implies s.push(k)[a] != s.push(k)[b] by {
        if b == s.len() {
            assert(s[a] == s.push(k)[a]);
        }
    }
}

/// Row entries stay clear of the partitions to drop when the entry added is for a partition
/// that is not dropped.
proof fn lemma_push_keeps(prev: Seq<Seq<u8>>, next: Seq<Seq<u8>>, k: Seq<u8>, dropped: Seq<Seq<u8>>)
    requires
        next == prev || next == prev.push(k),
        !dropped.contains(k),
        forall|j: int| 0 <= j < prev.len() ==> !dropped.contains(#[trigger] prev[j]),
    ensures
        forall|j: int| 0 <= j < next.len() ==> !dropped.contains(#[trigger] next[j]),
{
    assert forall|j: int| 0 <= j < next.len() implies !dropped.contains(#[trigger] next[j]) by {
        if j < prev.len() {
            assert(next[j] == prev[j]);
        }
    }
}

} // verus!
