use vstd::prelude::*;

use crate::keys::{bytes_eq, copy_bytes};
use crate::time::DateTimeAsMicroseconds;

verus! {

/// A bucket as seen by the contracts: its moment and the ids that expire then.
pub type BucketView = (int, Seq<Seq<u8>>);

/// Buckets sorted strictly by moment; each bucket holds at least one id and no id twice.
pub open spec fn buckets_wf(v: Seq<BucketView>) -> bool {
    &&& forall|i: int, j: int| 0 <= i < j < v.len() ==> #[trigger] v[i].0 < #[trigger] v[j].0
    &&& forall|i: int| 0 <= i < v.len() ==> (#[trigger] v[i]).1.len() > 0 && v[i].1.no_duplicates()
}

/// The number of ids over all buckets.
pub open spec fn total(v: Seq<BucketView>) -> int
    decreases v.len(),
{
    if v.len() == 0 {
        0
    } else {
        total(v.drop_last()) + v.last().1.len()
    }
}

/// All ids of the buckets, bucket by bucket, each in insertion order.
pub open spec fn flatten(v: Seq<BucketView>) -> Seq<Seq<u8>>
    decreases v.len(),
{
    if v.len() == 0 {
        Seq::empty()
    } else {
        flatten(v.drop_last()) + v.last().1
    }
}

/// The number of leading buckets whose moment is not later than `now`.
pub open spec fn expired_count(v: Seq<BucketView>, now: int) -> nat
    decreases v.len(),
{
    if v.len() == 0 || v[0].0 > now {
        0
    } else {
        1 + expired_count(v.drop_first(), now)
    }
}

/// `id` is held in the bucket of moment `m`.
pub open spec fn holds(v: Seq<BucketView>, id: Seq<u8>, m: int) -> bool {
    exists|i: int| 0 <= i < v.len() && (#[trigger] v[i]).0 == m && v[i].1.contains(id)
}

/// The moment of an optional time, as an integer.
pub open spec fn opt_moment(o: Option<DateTimeAsMicroseconds>) -> Option<int> {
    match o {
        Some(m) => Some(m.unix_microseconds as int),
        None => None,
    }
}

/// After adding `id` at moment `m`: nothing changes where it is held there; otherwise it goes
/// last into the bucket of `m`, or into a new bucket of its own at its sorted place.
pub open spec fn added_at_end(before: Seq<BucketView>, after: Seq<BucketView>, id: Seq<u8>, m: int) -> bool {
    &&& holds(before, id, m) ==> after == before
    &&& (!holds(before, id, m) && holds_moment(before, m)) ==> exists|i: int|
        0 <= i < before.len() && #[trigger] before[i].0 == m && after == before.update(
            i,
            (m, before[i].1.push(id)),
        )
    &&& !holds_moment(before, m) ==> exists|i: int|
        0 <= i <= before.len() && after == #[trigger] before.insert(i, (m, seq![id]))
}

/// Some bucket has moment `m`.
pub open spec fn holds_moment(v: Seq<BucketView>, m: int) -> bool {
    exists|i: int| 0 <= i < v.len() && (#[trigger] v[i]).0 == m
}

pub proof fn lemma_total_nonneg(v: Seq<BucketView>)
    ensures
        total(v) >= 0,
    decreases v.len(),
{
    if v.len() > 0 {
        lemma_total_nonneg(v.drop_last());
    }
}

pub proof fn lemma_total_update(v: Seq<BucketView>, i: int, b: BucketView)
    requires
        0 <= i < v.len(),
    ensures
        total(v.update(i, b)) == total(v) - v[i].1.len() + b.1.len(),
    decreases v.len(),
{
    if i == v.len() - 1 {
        assert(v.update(i, b).drop_last() =~= v.drop_last());
    } else {
        lemma_total_update(v.drop_last(), i, b);
        assert(v.update(i, b).drop_last() =~= v.drop_last().update(i, b));
    }
}

pub proof fn lemma_total_insert(v: Seq<BucketView>, i: int, b: BucketView)
    requires
        0 <= i <= v.len(),
    ensures
        total(v.insert(i, b)) == total(v) + b.1.len(),
    decreases v.len(),
{
    if i == v.len() {
        assert(v.insert(i, b).drop_last() =~= v);
    } else {
        lemma_total_insert(v.drop_last(), i, b);
        assert(v.insert(i, b).drop_last() =~= v.drop_last().insert(i, b));
    }
}

pub proof fn lemma_total_remove(v: Seq<BucketView>, i: int)
    requires
        0 <= i < v.len(),
    ensures
        total(v.remove(i)) == total(v) - v[i].1.len(),
    decreases v.len(),
{
    if i == v.len() - 1 {
        assert(v.remove(i) =~= v.drop_last());
    } else {
        lemma_total_remove(v.drop_last(), i);
        assert(v.remove(i).drop_last() =~= v.drop_last().remove(i));
    }
}

proof fn lemma_expired_count(v: Seq<BucketView>, now: int, k: int)
    requires
        buckets_wf(v),
        0 <= k <= v.len(),
        forall|i: int| 0 <= i < k ==> (#[trigger] v[i]).0 <= now,
        k < v.len() ==> v[k].0 > now,
    ensures
        expired_count(v, now) == k,
    decreases v.len(),
{
    if v.len() > 0 && k > 0 {
        let w = v.drop_first();
        assert forall|i: int, j: int| 0 <= i < j < w.len() implies #[trigger] w[i].0
            < #[trigger] w[j].0 by {
            assert(v[i + 1].0 < v[j + 1].0);
        }
        assert forall|i: int| 0 <= i < w.len() implies (#[trigger] w[i]).1.len() > 0
            && w[i].1.no_duplicates() by {
            assert(v[i + 1] == w[i]);
        }
        assert forall|i: int| 0 <= i < k - 1 implies (#[trigger] w[i]).0 <= now by {
            assert(v[i + 1] == w[i]);
        }
        lemma_expired_count(w, now, k - 1);
    }
}

/// In well-formed buckets an id held at a moment sits in exactly one bucket, at exactly one
/// position.
pub proof fn lemma_present_once(v: Seq<BucketView>, id: Seq<u8>, m: int)
    requires
        buckets_wf(v),
        holds(v, id, m),
    ensures
        exists|i: int, j: int|
            0 <= i < v.len() && 0 <= j < v[i].1.len() && #[trigger] v[i].1[j] == id && v[i].0 == m
                && forall|i2: int, j2: int|
                0 <= i2 < v.len() && 0 <= j2 < v[i2].1.len() && v[i2].0 == m && #[trigger] v[i2].1[j2]
                    == id ==> i2 == i && j2 == j,
{
    let i = choose|i: int| 0 <= i < v.len() && (#[trigger] v[i]).0 == m && v[i].1.contains(id);
    let j = choose|j: int| 0 <= j < v[i].1.len() && v[i].1[j] == id;
    assert forall|i2: int, j2: int|
        0 <= i2 < v.len() && 0 <= j2 < v[i2].1.len() && v[i2].0 == m && #[trigger] v[i2].1[j2]
            == id implies i2 == i && j2 == j by {
        if i2 < i {
            assert(v[i2].0 < v[i].0);
        } else if i < i2 {
            assert(v[i].0 < v[i2].0);
        }
    }
}

/// Where `key` stands among `items`, if it does.
fn position_of(items: &Vec<Vec<u8>>, key: &[u8]) -> (r: Option<usize>)
    ensures
        match r {
            Some(k) => k < items@.len() && items@[k as int]@ == key@,
            None => forall|j: int| 0 <= j < items@.len() ==> items@[j]@ != key@,
        },
{
    let mut k: usize = 0;
    while k < items.len()
        invariant
            k <= items@.len(),
            forall|j: int| 0 <= j < k ==> items@[j]@ != key@,
        decreases items@.len() - k,
    {
        if bytes_eq(items[k].as_slice(), key) {
            return Some(k);
        }
        k = k + 1;
    }
    None
}

/// The ids that expire at one moment.
pub struct ExpirationIndexItem {
    pub moment: DateTimeAsMicroseconds,
    pub items: Vec<Vec<u8>>,
}

impl ExpirationIndexItem {
    pub open spec fn ids(&self) -> Seq<Seq<u8>> {
        self.items@.map_values(|v: Vec<u8>| v@)
    }

    pub open spec fn bucket(&self) -> BucketView {
        (self.moment.unix_microseconds as int, self.ids())
    }

    pub fn new(moment: DateTimeAsMicroseconds, itm: &[u8]) -> (r: Self)
        ensures
            r.moment == moment,
            r.ids() == seq![itm@],
    {
        let mut items: Vec<Vec<u8>> = Vec::new();
        items.push(copy_bytes(itm));
        let r = Self { moment, items };
        assert(r.ids() =~= seq![itm@]);
        r
    }

    /// Removes `key_as_str` from the bucket; tells whether the bucket is then empty.
    pub fn remove(&mut self, key_as_str: &[u8]) -> (is_empty: bool)
        requires
            old(self).ids().no_duplicates(),
        ensures
            final(self).moment == old(self).moment,
            final(self).ids().no_duplicates(),
            forall|x: Seq<u8>| #[trigger]
                final(self).ids().contains(x) == (old(self).ids().contains(x) && x != key_as_str@),
            final(self).ids().len() == old(self).ids().len() - if old(self).ids().contains(
                key_as_str@,
            ) {
                1int
            } else {
                0int
            },
            is_empty == (final(self).ids().len() == 0),
    {
        let found = position_of(&self.items, key_as_str);
        assert(found is None ==> !self.ids().contains(key_as_str@));
        if let Some(k) = found {
            let ghost old_ids = self.ids();
            assert(old_ids[k as int] == key_as_str@);
            self.items.remove(k);
            proof {
                let ids = self.ids();
                assert(ids =~= old_ids.remove(k as int));
                assert forall|x: Seq<u8>| #[trigger]
                    ids.contains(x) == (old_ids.contains(x) && x != key_as_str@) by {
                    if ids.contains(x) {
                        let j = choose|j: int| 0 <= j < ids.len() && ids[j] == x;
                        if j < k {
                            assert(old_ids[j] == x);
                        } else {
                            assert(old_ids[j + 1] == x);
                        }
                    }
                    if old_ids.contains(x) && x != key_as_str@ {
                        let j = choose|j: int| 0 <= j < old_ids.len() && old_ids[j] == x;
                        if j < k {
                            assert(ids[j] == x);
                        } else {
                            assert(ids[j - 1] == x);
                        }
                    }
                }
                assert(old_ids.contains(key_as_str@));
            }
        }
        self.items.len() == 0
    }
}

/// Ids grouped in buckets by the moment at which they expire, buckets sorted by moment.
pub struct ExpirationIndexContainer {
    index: Vec<ExpirationIndexItem>,
    amount: usize,
}

impl View for ExpirationIndexContainer {
    type V = Seq<BucketView>;

    closed spec fn view(&self) -> Seq<BucketView> {
        self.index@.map_values(|b: ExpirationIndexItem| b.bucket())
    }
}

impl ExpirationIndexContainer {
    /// The number of ids that the container counts.
    pub closed spec fn amount(&self) -> int {
        self.amount as int
    }

    pub open spec fn wf(&self) -> bool {
        buckets_wf(self@) && self.amount() == total(self@)
    }

    pub fn new() -> (r: Self)
        ensures
            r.wf(),
            r@ == Seq::<BucketView>::empty(),
    {
        let r = Self { index: Vec::new(), amount: 0 };
        assert(r@ =~= Seq::<BucketView>::empty());
        r
    }

    fn find_index(&self, expiration_moment: DateTimeAsMicroseconds) -> (r: Result<usize, usize>)
        requires
            self.wf(),
        ensures
            r matches Ok(i) ==> i < self@.len() && self@[i as int].0
                == expiration_moment.unix_microseconds,
            r matches Err(i) ==> i <= self@.len() && (forall|j: int|
                0 <= j < i ==> (#[trigger] self@[j]).0 < expiration_moment.unix_microseconds) && (
            forall|j: int|
                i <= j < self@.len() ==> (#[trigger] self@[j]).0
                    > expiration_moment.unix_microseconds),
    {
        let m = expiration_moment.unix_microseconds;
        let mut lo: usize = 0;
        let mut hi: usize = self.index.len();
        while lo < hi
            invariant
                self.wf(),
                lo <= hi <= self@.len(),
                m == expiration_moment.unix_microseconds,
                self@.len() == self.index@.len(),
                forall|j: int| 0 <= j < lo ==> (#[trigger] self@[j]).0 < m,
                forall|j: int| hi <= j < self@.len() ==> (#[trigger] self@[j]).0 > m,
            decreases hi - lo,
        {
            let mid = lo + (hi - lo) / 2;
            let mm = self.index[mid].moment.unix_microseconds;
            assert(self@[mid as int].0 == mm);
            if mm == m {
                assert(mid < self@.len() && self@[mid as int].0 == m);
                return Ok(mid);
            } else if mm < m {
                assert forall|j: int| 0 <= j < mid + 1 implies (#[trigger] self@[j]).0 < m by {
                    if j < mid {
                        assert(self@[j].0 < self@[mid as int].0);
                    }
                }
                lo = mid + 1;
            } else {
                assert forall|j: int| mid <= j < self@.len() implies (#[trigger] self@[j]).0
                    > m by {
                    if j > mid {
                        assert(self@[mid as int].0 < self@[j].0);
                    }
                }
                hi = mid;
            }
        }
        Err(lo)
    }

    /// Puts `id` into the bucket of `expiration_moment`; nothing happens without a moment or
    /// when the id is there already. `Some(true)` tells that a new bucket was made.
    pub fn add(&mut self, id: &[u8], expiration_moment: Option<DateTimeAsMicroseconds>) -> (r:
        Option<bool>)
        requires
            old(self).wf(),
            total(old(self)@) < usize::MAX,
        ensures
            final(self).wf(),
            match expiration_moment {
                None => r is None && final(self)@ == old(self)@,
                Some(m) => {
                    &&& r == Some(!holds_moment(old(self)@, m.unix_microseconds as int))
                    &&& forall|id2: Seq<u8>, m2: int|
                        holds(final(self)@, id2, m2) == (holds(old(self)@, id2, m2) || (id2 == id@ && m2
                            == m.unix_microseconds))
                    &&& total(final(self)@) == total(old(self)@) + if holds(
                        old(self)@,
                        id@,
                        m.unix_microseconds as int,
                    ) {
                        0int
                    } else {
                        1int
                    }
                },
            },
            opt_moment(expiration_moment) matches Some(m) ==> added_at_end(old(self)@, final(self)@, id@, m),
    {
        match expiration_moment {
            None => None,
            Some(m) => {
                let ghost v = self@;
                match self.find_index(m) {
                    Ok(i) => {
                        let found = position_of(&self.index[i].items, id);
                        assert(self.index@[i as int].bucket() == v[i as int]);
                        if let Some(k) = found {
                            proof {
                                assert(v[i as int].1[k as int] == id@);
                                assert(v[i as int].1.contains(id@));
                                assert(holds(v, id@, m.unix_microseconds as int));
                                assert(holds_moment(v, m.unix_microseconds as int));
                            }
                            return Some(false);
                        }
                        assert forall|j: int| 0 <= j < v[i as int].1.len() implies v[i as int].1[j]
                            != id@ by {
                            assert(v[i as int].1[j] == self.index@[i as int].items@[j]@);
                        }
                        assert(!v[i as int].1.contains(id@));
                        assert(!holds(v, id@, m.unix_microseconds as int)) by {
                            if holds(v, id@, m.unix_microseconds as int) {
                                let i2 = choose|i2: int|
                                    0 <= i2 < v.len() && (#[trigger] v[i2]).0
                                        == m.unix_microseconds && v[i2].1.contains(id@);
                                if i2 < i {
                                    assert(v[i2].0 < v[i as int].0);
                                } else if i2 > i {
                                    assert(v[i as int].0 < v[i2].0);
                                }
                            }
                        }
                        let ghost b = v[i as int];
                        self.index[i].items.push(copy_bytes(id));
                        proof {
                            let nb = (b.0, b.1.push(id@));
                            assert(self.index@[i as int].ids() =~= b.1.push(id@));
                            assert(self@ =~= v.update(i as int, nb));
                            assert(v[i as int].0 == m.unix_microseconds);
                            assert(self@ == v.update(i as int, (m.unix_microseconds as int, v[i as int].1.push(id@))));
                            lemma_total_update(v, i as int, nb);
                            let w = self@;
                            assert forall|id2: Seq<u8>, m2: int|
                                holds(w, id2, m2) == (holds(v, id2, m2) || (id2 == id@ && m2
                                    == m.unix_microseconds)) by {
                                if holds(w, id2, m2) {
                                    let j = choose|j: int|
                                        0 <= j < w.len() && (#[trigger] w[j]).0 == m2
                                            && w[j].1.contains(id2);
                                    if j != i && holds(w, id2, m2) {
                                        assert(v[j] == w[j]);
                                    } else if id2 != id@ {
                                        let q = choose|q: int|
                                            0 <= q < w[j].1.len() && w[j].1[q] == id2;
                                        assert(v[j].1[q] == id2);
                                    }
                                }
                                if holds(v, id2, m2) {
                                    let j = choose|j: int|
                                        0 <= j < v.len() && (#[trigger] v[j]).0 == m2
                                            && v[j].1.contains(id2);
                                    if j != i {
                                        assert(v[j] == w[j]);
                                    } else {
                                        let q = choose|q: int|
                                            0 <= q < v[j].1.len() && v[j].1[q] == id2;
                                        assert(w[j].1[q] == id2);
                                    }
                                }
                                if id2 == id@ && m2 == m.unix_microseconds {
                                    assert(w[i as int].1[b.1.len() as int] == id@);
                                    assert(w[i as int].1.contains(id@));
                                }
                            }
                            assert(holds_moment(v, m.unix_microseconds as int));
                            assert forall|j: int| 0 <= j < w.len() implies (#[trigger] w[j]).1.len()
                                > 0 && w[j].1.no_duplicates() by {
                                if j == i {
                                    assert forall|x: int, y: int|
                                        0 <= x < y < w[j].1.len() implies w[j].1[x]
                                        != w[j].1[y] by {
                                        if y == b.1.len() {
                                            assert(b.1[x] == w[j].1[x]);
                                            assert(b.1.contains(b.1[x]));
                                        }
                                    }
                                }
                            }
                            assert forall|x: int, y: int| 0 <= x < y < w.len() implies #[trigger] w[x].0
                                < #[trigger] w[y].0 by {
                                assert(v[x].0 < v[y].0);
                            }
                        }
                        self.amount = self.amount + 1;
                        Some(false)
                    },
                    Err(i) => {
                        let item = ExpirationIndexItem::new(m, id);
                        self.index.insert(i, item);
                        proof {
                            let nb = (m.unix_microseconds as int, seq![id@]);
                            assert(self@ =~= v.insert(i as int, nb));
                            assert(self@ == v.insert(i as int, (m.unix_microseconds as int, seq![id@])));
                            lemma_total_insert(v, i as int, nb);
                            let w = self@;
                            assert(!holds_moment(v, m.unix_microseconds as int));
                            assert(!holds(v, id@, m.unix_microseconds as int));
                            assert forall|id2: Seq<u8>, m2: int|
                                holds(w, id2, m2) == (holds(v, id2, m2) || (id2 == id@ && m2
                                    == m.unix_microseconds)) by {
                                if holds(w, id2, m2) {
                                    let j = choose|j: int|
                                        0 <= j < w.len() && (#[trigger] w[j]).0 == m2
                                            && w[j].1.contains(id2);
                                    if j < i {
                                        assert(v[j] == w[j]);
                                    } else if j > i {
                                        assert(v[j - 1] == w[j]);
                                    } else {
                                        let q = choose|q: int|
                                            0 <= q < w[j].1.len() && w[j].1[q] == id2;
                                        assert(q == 0);
                                    }
                                }
                                if holds(v, id2, m2) {
                                    let j = choose|j: int|
                                        0 <= j < v.len() && (#[trigger] v[j]).0 == m2
                                            && v[j].1.contains(id2);
                                    if j < i {
                                        assert(v[j] == w[j]);
                                    } else {
                                        assert(v[j] == w[j + 1]);
                                    }
                                }
                                if id2 == id@ && m2 == m.unix_microseconds {
                                    assert(w[i as int].1[0] == id@);
                                    assert(w[i as int].1.contains(id@));
                                }
                            }
                            assert forall|j: int| 0 <= j < w.len() implies (#[trigger] w[j]).1.len()
                                > 0 && w[j].1.no_duplicates() by {
                                if j < i {
                                    assert(v[j] == w[j]);
                                } else if j > i {
                                    assert(v[j - 1] == w[j]);
                                }
                            }
                            assert forall|x: int, y: int| 0 <= x < y < w.len() implies #[trigger] w[x].0
                                < #[trigger] w[y].0 by {
                                if y < i {
                                    assert(v[x].0 < v[y].0);
                                } else if x > i {
                                    assert(v[x - 1].0 < v[y - 1].0);
                                } else if x < i && y > i {
                                    assert(v[x].0 < v[y - 1].0);
                                } else if x == i {
                                    assert(v[y - 1] == w[y]);
                                } else {
                                    assert(v[x] == w[x]);
                                }
                            }
                        }
                        self.amount = self.amount + 1;
                        Some(true)
                    },
                }
            },
        }
    }

    /// Takes `id` out of the bucket of `expiration_moment`; a bucket left empty goes too.
    fn do_remove(&mut self, expiration_moment: DateTimeAsMicroseconds, key_as_str: &[u8])
        requires
            old(self).wf(),
        ensures
            final(self).wf(),
            forall|id2: Seq<u8>, m2: int|
                holds(final(self)@, id2, m2) == (holds(old(self)@, id2, m2) && !(id2 == key_as_str@
                    && m2 == expiration_moment.unix_microseconds)),
            total(final(self)@) == total(old(self)@) - if holds(
                old(self)@,
                key_as_str@,
                expiration_moment.unix_microseconds as int,
            ) {
                1int
            } else {
                0int
            },
    {
        let ghost v = self@;
        let ghost m = expiration_moment.unix_microseconds as int;
        match self.find_index(expiration_moment) {
            Ok(i) => {
                let ghost b = v[i as int];
                assert(self.index@[i as int].bucket() == b);
                let before = self.index[i].items.len();
                let is_empty = self.index[i].remove(key_as_str);
                let after = self.index[i].items.len();
                let ghost nb = self.index@[i as int].bucket();
                proof {
                    assert(self@ =~= v.update(i as int, nb));
                    lemma_total_update(v, i as int, nb);
                    assert(holds(v, key_as_str@, m) == b.1.contains(key_as_str@)) by {
                        if holds(v, key_as_str@, m) {
                            let j = choose|j: int|
                                0 <= j < v.len() && (#[trigger] v[j]).0 == m && v[j].1.contains(
                                    key_as_str@,
                                );
                            if j < i {
                                assert(v[j].0 < v[i as int].0);
                            } else if j > i {
                                assert(v[i as int].0 < v[j].0);
                            }
                        }
                    }
                }
                if is_empty {
                    self.index.remove(i);
                    proof {
                        assert(self@ =~= v.remove(i as int));
                        lemma_total_remove(v, i as int);
                    }
                }
                proof {
                    let w = self@;
                    assert forall|id2: Seq<u8>, m2: int|
                        holds(w, id2, m2) == (holds(v, id2, m2) && !(id2 == key_as_str@ && m2
                            == m)) by {
                        if holds(w, id2, m2) {
                            let j = choose|j: int|
                                0 <= j < w.len() && (#[trigger] w[j]).0 == m2 && w[j].1.contains(
                                    id2,
                                );
                            if is_empty {
                                if j < i {
                                    assert(v[j] == w[j]);
                                } else {
                                    assert(v[j + 1] == w[j]);
                                    assert(v[i as int].0 < v[j + 1].0);
                                }
                            } else if j != i {
                                assert(v[j] == w[j]);
                                if j < i {
                                    assert(v[j].0 < v[i as int].0);
                                } else {
                                    assert(v[i as int].0 < v[j].0);
                                }
                            } else {
                                assert(nb.1.contains(id2));
                                assert(b.1.contains(id2));
                            }
                        }
                        if holds(v, id2, m2) && !(id2 == key_as_str@ && m2 == m) {
                            let j = choose|j: int|
                                0 <= j < v.len() && (#[trigger] v[j]).0 == m2 && v[j].1.contains(
                                    id2,
                                );
                            if j == i {
                                assert(nb.1.contains(id2));
                                assert(w[j] == nb);
                            } else if is_empty && j > i {
                                assert(w[j - 1] == v[j]);
                            } else {
                                assert(w[j] == v[j]);
                            }
                        }
                    }
                    assert forall|j: int| 0 <= j < w.len() implies (#[trigger] w[j]).1.len() > 0
                        && w[j].1.no_duplicates() by {
                        if is_empty && j >= i {
                            assert(w[j] == v[j + 1]);
                        } else if j != i {
                            assert(w[j] == v[j]);
                        }
                    }
                    assert forall|x: int, y: int| 0 <= x < y < w.len() implies #[trigger] w[x].0
                        < #[trigger] w[y].0 by {
                        if is_empty {
                            if y < i {
                                assert(v[x].0 < v[y].0);
                            } else if x >= i {
                                assert(v[x + 1].0 < v[y + 1].0);
                            } else {
                                assert(v[x].0 < v[y + 1].0);
                            }
                        } else {
                            assert(v[x].0 < v[y].0);
                        }
                    }
                }
                if after < before {
                    proof {
                        lemma_total_nonneg(self@);
                    }
                    self.amount = self.amount - 1;
                }
            },
            Err(_) => {
                assert(!holds(v, key_as_str@, m));
            },
        }
    }

    /// Takes `itm` out of the bucket of `expiration_moment`; nothing happens without a moment.
    pub fn remove(&mut self, itm: &[u8], expiration_moment: Option<DateTimeAsMicroseconds>)
        requires
            old(self).wf(),
            opt_moment(expiration_moment) matches Some(m) ==> holds(old(self)@, itm@, m),
        ensures
            final(self).wf(),
            expiration_moment is None ==> final(self)@ == old(self)@,
            forall|id2: Seq<u8>, m2: int|
                holds(final(self)@, id2, m2) == (holds(old(self)@, id2, m2) && !(id2 == itm@
                    && opt_moment(expiration_moment) == Some(m2))),
            total(final(self)@) == total(old(self)@) - if opt_moment(expiration_moment) matches Some(
                m,
            ) && holds(old(self)@, itm@, m) {
                1int
            } else {
                0int
            },
    {
        if let Some(m) = expiration_moment {
            self.do_remove(m, itm);
        }
    }

    /// Moves `itm` from the bucket of `old_expires` to that of its new moment `new_expires`.
    pub fn update(
        &mut self,
        old_expires: Option<DateTimeAsMicroseconds>,
        itm: &[u8],
        new_expires: Option<DateTimeAsMicroseconds>,
    )
        requires
            old(self).wf(),
            opt_moment(old_expires) matches Some(m) ==> holds(old(self)@, itm@, m),
            total(old(self)@) < usize::MAX,
        ensures
            final(self).wf(),
            forall|id2: Seq<u8>, m2: int|
                holds(final(self)@, id2, m2) == ((holds(old(self)@, id2, m2) && !(id2 == itm@
                    && opt_moment(old_expires) == Some(m2))) || (id2 == itm@ && opt_moment(
                    new_expires,
                ) == Some(m2))),
            total(final(self)@) == total(old(self)@) - (if opt_moment(old_expires) matches Some(
                m,
            ) && holds(old(self)@, itm@, m) {
                1int
            } else {
                0int
            }) + (if opt_moment(new_expires) matches Some(m) && !holds(
                old(self)@,
                itm@,
                m,
            ) {
                1int
            } else if opt_moment(new_expires) matches Some(m) && opt_moment(old_expires) == Some(m) {
                1int
            } else {
                0int
            }),
    {
        self.remove(itm, old_expires);
        self.add(itm, new_expires);
    }

    /// The ids of every bucket whose moment is not later than `now`, bucket by bucket.
    pub fn get_items_to_expire(&self, now: DateTimeAsMicroseconds) -> (r: Vec<Vec<u8>>)
        requires
            self.wf(),
        ensures
            r@.map_values(|x: Vec<u8>| x@) == flatten(
                self@.take(expired_count(self@, now.unix_microseconds as int) as int),
            ),
    {
        let mut result: Vec<Vec<u8>> = Vec::new();
        let mut i: usize = 0;
        proof {
            assert(self@.take(0) =~= Seq::<BucketView>::empty());
            assert(result@.map_values(|x: Vec<u8>| x@) =~= Seq::<Seq<u8>>::empty());
        }
        while i < self.index.len() && self.index[i].moment.unix_microseconds
            <= now.unix_microseconds
            invariant
                self.wf(),
                i <= self@.len(),
                self@.len() == self.index@.len(),
                forall|j: int| 0 <= j < i ==> (#[trigger] self@[j]).0 <= now.unix_microseconds,
                result@.map_values(|x: Vec<u8>| x@) == flatten(self@.take(i as int)),
            decreases self@.len() - i,
        {
            let ghost before = result@.map_values(|x: Vec<u8>| x@);
            assert(self.index@[i as int].bucket() == self@[i as int]);
            let items = &self.index[i].items;
            let mut k: usize = 0;
            while k < items.len()
                invariant
                    k <= items@.len(),
                    result@.map_values(|x: Vec<u8>| x@) == before + items@.map_values(
                        |x: Vec<u8>| x@,
                    ).take(k as int),
                decreases items@.len() - k,
            {
                let c = copy_bytes(items[k].as_slice());
                let ghost prev = result@;
                result.push(c);
                proof {
                    assert(result@ == prev.push(c));
                    assert(result@.map_values(|x: Vec<u8>| x@) =~= prev.map_values(|x: Vec<u8>| x@).push(
                        items@[k as int]@,
                    ));
                    assert(result@.map_values(|x: Vec<u8>| x@) =~= before + items@.map_values(
                        |x: Vec<u8>| x@,
                    ).take(k + 1));
                }
                k = k + 1;
            }
            proof {
                assert(items@.map_values(|x: Vec<u8>| x@).take(k as int) =~= self@[i as int].1);
                assert(self@.take(i + 1).drop_last() =~= self@.take(i as int));
            }
            i = i + 1;
        }
        proof {
            lemma_expired_count(self@, now.unix_microseconds as int, i as int);
        }
        result
    }

    /// Some bucket has the moment `expiration_moment`.
    pub fn has_data_with_expiration_moment(&self, expiration_moment: DateTimeAsMicroseconds) -> (r:
        bool)
        requires
            self.wf(),
        ensures
            r == holds_moment(self@, expiration_moment.unix_microseconds as int),
    {
        let r = self.find_index(expiration_moment);
        proof {
            if holds_moment(self@, expiration_moment.unix_microseconds as int) {
                let j = choose|j: int|
                    0 <= j < self@.len() && (#[trigger] self@[j]).0
                        == expiration_moment.unix_microseconds;
            }
        }
        r.is_ok()
    }

    /// The number of ids held.
    pub fn len(&self) -> (r: usize)
        requires
            self.wf(),
        ensures
            r == total(self@),
    {
        self.amount
    }

    pub fn clear(&mut self)
        ensures
            final(self).wf(),
            final(self)@ == Seq::<BucketView>::empty(),
    {
        self.index.clear();
        self.amount = 0;
        assert(self@ =~= Seq::<BucketView>::empty());
    }

    /// The moments of the buckets, in order.
    pub fn get_moments(&self) -> (r: Vec<i64>)
        requires
            self.wf(),
        ensures
            r@.len() == self@.len(),
            forall|i: int| 0 <= i < r@.len() ==> r@[i] as int == #[trigger] self@[i].0,
    {
        let mut r: Vec<i64> = Vec::new();
        let mut i: usize = 0;
        while i < self.index.len()
            invariant
                i <= self.index@.len(),
                self@.len() == self.index@.len(),
                r@.len() == i,
                forall|j: int| 0 <= j < i ==> r@[j] as int == #[trigger] self@[j].0,
            decreases self.index@.len() - i,
        {
            r.push(self.index[i].moment.unix_microseconds);
            i = i + 1;
        }
        r
    }
}

} // verus!
