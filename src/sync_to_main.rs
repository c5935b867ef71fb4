use vstd::prelude::*;

use crate::keys::{bytes_eq, copy_bytes};
use crate::time::DateTimeAsMicroseconds;

verus! {

/// The parts of a key: a table and a partition, and for row queues a row.
pub open spec fn key_view(key: Seq<Vec<u8>>) -> Seq<Seq<u8>> {
    key.map_values(|p: Vec<u8>| p@)
}

/// One pending update: its key and the value to send.
pub struct SyncQueueEntry<V> {
    pub key: Vec<Vec<u8>>,
    pub value: V,
}

/// Updates waiting to be sent to the main node, at most one per key.
pub struct SyncQueue<V> {
    entries: Vec<SyncQueueEntry<V>>,
}

/// The latest moment at which each partition of each table was read.
pub type UpdatePartitionsLastReadTimeQueue = SyncQueue<DateTimeAsMicroseconds>;

/// The latest moment at which each row was read.
pub type UpdateRowsLastReadTimeQueue = SyncQueue<DateTimeAsMicroseconds>;

/// The expiration each partition is to get.
pub type UpdatePartitionExpirationTimeQueue = SyncQueue<Option<DateTimeAsMicroseconds>>;

/// The expiration each row is to get.
pub type UpdateRowsExpirationTimeQueue = SyncQueue<Option<DateTimeAsMicroseconds>>;

fn key_eq(a: &Vec<Vec<u8>>, b: &[Vec<u8>]) -> (r: bool)
    ensures
        r == (key_view(a@) == key_view(b@)),
{
    if a.len() != b.len() {
        assert(key_view(a@).len() != key_view(b@).len());
        return false;
    }
    let mut i: usize = 0;
    while i < a.len()
        invariant
            a@.len() == b@.len(),
            i <= a@.len(),
            forall|j: int| 0 <= j < i ==> a@[j]@ == b@[j]@,
        decreases a@.len() - i,
    {
        if !bytes_eq(a[i].as_slice(), b[i].as_slice()) {
            assert(key_view(a@)[i as int] != key_view(b@)[i as int]);
            return false;
        }
        i = i + 1;
    }
    assert(key_view(a@) =~= key_view(b@));
    true
}

fn copy_key(key: &[Vec<u8>]) -> (r: Vec<Vec<u8>>)
    ensures
        key_view(r@) == key_view(key@),
{
    let mut r: Vec<Vec<u8>> = Vec::new();
    let mut i: usize = 0;
    while i < key.len()
        invariant
            i <= key@.len(),
            key_view(r@) == key_view(key@).take(i as int),
        decreases key@.len() - i,
    {
        let c = copy_bytes(key[i].as_slice());
        let ghost prev = r@;
        r.push(c);
        assert(r@ == prev.push(c));
        assert(key_view(r@) =~= key_view(prev).push(c@));
        assert(key_view(r@) =~= key_view(key@).take(i + 1));
        i = i + 1;
    }
    assert(key_view(key@).take(i as int) =~= key_view(key@));
    r
}

impl<V: Copy> SyncQueue<V> {
    /// The keys, in the order they were first queued.
    pub closed spec fn keys(&self) -> Seq<Seq<Seq<u8>>> {
        self.entries@.map_values(|e: SyncQueueEntry<V>| key_view(e.key@))
    }

    /// The value queued for each key.
    pub closed spec fn view(&self) -> Map<Seq<Seq<u8>>, V> {
        Map::new(
            |k: Seq<Seq<u8>>| self.keys().contains(k),
            |k: Seq<Seq<u8>>|
                self.entries@[choose|i: int| 0 <= i < self.keys().len() && self.keys()[i] == k].value,
        )
    }

    pub closed spec fn wf(&self) -> bool {
        self.keys().no_duplicates()
    }

    proof fn lemma_view_at(&self, i: int)
        requires
            self.wf(),
            0 <= i < self.entries@.len(),
        ensures
            self.view().contains_key(self.keys()[i]),
            self.view()[self.keys()[i]] == self.entries@[i].value,
    {
        let k = self.keys()[i];
        assert(self.keys().contains(k));
        let j = choose|j: int| 0 <= j < self.keys().len() && self.keys()[j] == k;
        assert(i == j);
    }

    pub fn new() -> (r: Self)
        ensures
            r.wf(),
            r.view() == Map::<Seq<Seq<u8>>, V>::empty(),
    {
        let r = SyncQueue { entries: Vec::new() };
        assert(r.view() =~= Map::<Seq<Seq<u8>>, V>::empty());
        r
    }

    pub fn len(&self) -> (r: usize)
        requires
            self.wf(),
        ensures
            r == self.keys().len(),
    {
        self.entries.len()
    }

    fn position(&self, key: &[Vec<u8>]) -> (r: Option<usize>)
        requires
            self.wf(),
        ensures
            r matches Some(i) ==> i < self.entries@.len() && self.keys()[i as int] == key_view(key@),
            r is None ==> !self.keys().contains(key_view(key@)),
    {
        let mut i: usize = 0;
        while i < self.entries.len()
            invariant
                i <= self.entries@.len(),
                forall|j: int| 0 <= j < i ==> self.keys()[j] != key_view(key@),
            decreases self.entries@.len() - i,
        {
            if key_eq(&self.entries[i].key, key) {
                return Some(i);
            }
            i = i + 1;
        }
        None
    }

    /// Queues `value` for `key`, replacing what was queued for it: the last writer wins.
    pub fn enqueue(&mut self, key: &[Vec<u8>], value: V)
        requires
            old(self).wf(),
        ensures
            final(self).wf(),
            final(self).view() == old(self).view().insert(key_view(key@), value),
    {
        let ghost k = key_view(key@);
        match self.position(key) {
            Some(i) => {
                let ghost before = self.keys();
                self.entries[i].value = value;
                proof {
                    assert(self.keys() =~= before);
                    self.lemma_view_at(i as int);
                    assert forall|k2: Seq<Seq<u8>>| self.keys().contains(k2) && k2 != k implies self.view()[k2]
                        == old(self).view()[k2] by {
                        let j = choose|j: int| 0 <= j < self.keys().len() && self.keys()[j] == k2;
                        self.lemma_view_at(j);
                        old(self).lemma_view_at(j);
                    }
                    assert(self.view() =~= old(self).view().insert(k, value));
                }
            },
            None => {
                let ghost before = self.keys();
                let entry = SyncQueueEntry { key: copy_key(key), value };
                self.entries.push(entry);
                proof {
                    assert(self.keys() =~= before.push(k));
                    assert forall|a: int, b: int| 0 <= a < b < self.keys().len() implies self.keys()[a]
                        != self.keys()[b] by {
                        if b == before.len() {
                            assert(before[a] == self.keys()[a]);
                            assert(before.contains(before[a]));
                        }
                    }
                    self.lemma_view_at(before.len() as int);
                    assert forall|k2: Seq<Seq<u8>>| #[trigger] self.keys().contains(k2) == (before.contains(k2)
                        || k2 == k) by {
                        if self.keys().contains(k2) {
                            let j = choose|j: int| 0 <= j < self.keys().len() && self.keys()[j] == k2;
                            if j < before.len() {
                                assert(before[j] == k2);
                            }
                        }
                        if before.contains(k2) {
                            let j = choose|j: int| 0 <= j < before.len() && before[j] == k2;
                            assert(self.keys()[j] == k2);
                        }
                    }
                    assert forall|k2: Seq<Seq<u8>>| self.keys().contains(k2) && k2 != k implies self.view()[k2]
                        == old(self).view()[k2] by {
                        let j = choose|j: int| 0 <= j < self.keys().len() && self.keys()[j] == k2;
                        self.lemma_view_at(j);
                        old(self).lemma_view_at(j);
                    }
                    assert(self.view() =~= old(self).view().insert(k, value));
                }
            },
        }
    }

    /// Takes out everything queued, in the order the keys were first queued.
    pub fn dequeue_all(&mut self) -> (r: Vec<SyncQueueEntry<V>>)
        requires
            old(self).wf(),
        ensures
            final(self).wf(),
            final(self).view() == Map::<Seq<Seq<u8>>, V>::empty(),
            r@.map_values(|e: SyncQueueEntry<V>| key_view(e.key@)) == old(self).keys(),
            forall|i: int| 0 <= i < r@.len() ==> old(self).view().contains_key(key_view(#[trigger] r@[i].key@))
                && old(self).view()[key_view(r@[i].key@)] == r@[i].value,
    {
        let mut result: Vec<SyncQueueEntry<V>> = Vec::new();
        std::mem::swap(&mut result, &mut self.entries);
        proof {
            assert(self.view() =~= Map::<Seq<Seq<u8>>, V>::empty());
            assert forall|i: int| 0 <= i < result@.len() implies old(self).view().contains_key(
                key_view(#[trigger] result@[i].key@),
            ) && old(self).view()[key_view(result@[i].key@)] == result@[i].value by {
                old(self).lemma_view_at(i);
            }
        }
        result
    }
}

impl SyncQueue<DateTimeAsMicroseconds> {
    /// Queues a read moment for `key`, unless a later one is queued already.
    pub fn enqueue_latest(&mut self, key: &[Vec<u8>], moment: DateTimeAsMicroseconds)
        requires
            old(self).wf(),
        ensures
            final(self).wf(),
            old(self).view().contains_key(key_view(key@)) && old(self).view()[key_view(
                key@,
            )].unix_microseconds >= moment.unix_microseconds ==> final(self).view() == old(self).view(),
            !(old(self).view().contains_key(key_view(key@)) && old(self).view()[key_view(
                key@,
            )].unix_microseconds >= moment.unix_microseconds) ==> final(self).view() == old(
                self,
            ).view().insert(key_view(key@), moment),
    {
        match self.position(key) {
            Some(i) => {
                proof {
                    self.lemma_view_at(i as int);
                }
                if self.entries[i].value.unix_microseconds < moment.unix_microseconds {
                    self.enqueue(key, moment);
                }
            },
            None => {
                self.enqueue(key, moment);
            },
        }
    }
}

} // verus!
