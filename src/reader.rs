use vstd::prelude::*;

use crate::keys::{bytes_eq};

verus! {

/// An entity held by the mock reader, with its keys.
pub struct MockEntity<T> {
    pub partition_key: Vec<u8>,
    pub row_key: Vec<u8>,
    pub entity: T,
}

/// A reader that serves entities put into it by hand, for tests of code that reads a table.
pub struct MyNoSqlDataReaderMock<T> {
    pub items: Vec<MockEntity<T>>,
}

/// The keys of the entities, in order.
pub open spec fn mock_keys<T>(items: Seq<MockEntity<T>>) -> Seq<(Seq<u8>, Seq<u8>)> {
    items.map_values(|e: MockEntity<T>| (e.partition_key@, e.row_key@))
}

impl<T> MyNoSqlDataReaderMock<T> {
    pub open spec fn wf(&self) -> bool {
        mock_keys(self.items@).no_duplicates()
    }

    pub fn new() -> (r: Self)
        ensures
            r.wf(),
            r.items@.len() == 0,
    {
        MyNoSqlDataReaderMock { items: Vec::new() }
    }

    fn position(&self, partition_key: &[u8], row_key: &[u8]) -> (r: Option<usize>)
        ensures
            r matches Some(i) ==> i < self.items@.len() && mock_keys(self.items@)[i as int] == (
                partition_key@,
                row_key@,
            ),
            r is None ==> !mock_keys(self.items@).contains((partition_key@, row_key@)),
    {
        let mut i: usize = 0;
        while i < self.items.len()
            invariant
                i <= self.items@.len(),
                forall|j: int| 0 <= j < i ==> mock_keys(self.items@)[j] != (partition_key@, row_key@),
            decreases self.items@.len() - i,
        {
            if bytes_eq(self.items[i].partition_key.as_slice(), partition_key) && bytes_eq(
                self.items[i].row_key.as_slice(),
                row_key,
            ) {
                return Some(i);
            }
            i = i + 1;
        }
        None
    }

    /// The entity of the given keys.
    pub fn get_entity(&self, partition_key: &[u8], row_key: &[u8]) -> (r: Option<&T>)
        ensures
            r matches Some(e) ==> exists|i: int|
                0 <= i < self.items@.len() && #[trigger] mock_keys(self.items@)[i] == (
                    partition_key@,
                    row_key@,
                ) && self.items@[i].entity == *e,
            r is None ==> !mock_keys(self.items@).contains((partition_key@, row_key@)),
    {
        match self.position(partition_key, row_key) {
            Some(i) => Some(&self.items[i].entity),
            None => None,
        }
    }

    /// All entities, or none where there is none.
    pub fn get_table_snapshot_as_vec(&self) -> (r: Option<Vec<&T>>)
        ensures
            r is None <==> self.items@.len() == 0,
            r matches Some(v) ==> v@.len() == self.items@.len() && forall|i: int|
                0 <= i < v@.len() ==> *(#[trigger] v@[i]) == self.items@[i].entity,
    {
        if self.items.len() == 0 {
            return None;
        }
        let mut v: Vec<&T> = Vec::new();
        let mut i: usize = 0;
        while i < self.items.len()
            invariant
                i <= self.items@.len(),
                v@.len() == i,
                forall|j: int| 0 <= j < i ==> *(#[trigger] v@[j]) == self.items@[j].entity,
            decreases self.items@.len() - i,
        {
            v.push(&self.items[i].entity);
            i = i + 1;
        }
        Some(v)
    }

    /// Puts an entity in, replacing the entity of the same keys.
    pub fn update(&mut self, item: MockEntity<T>)
        requires
            old(self).wf(),
        ensures
            final(self).wf(),
            mock_keys(final(self).items@).contains((item.partition_key@, item.row_key@)),
            final(self).items@.last() == item,
            forall|j: int|
                0 <= j < old(self).items@.len() && mock_keys(old(self).items@)[j] != (
                    item.partition_key@,
                    item.row_key@,
                ) ==> final(self).items@.contains(#[trigger] old(self).items@[j]),
    {
        let ghost k = (item.partition_key@, item.row_key@);
        let ghost o = self.items@;
        if let Some(i) = self.position(item.partition_key.as_slice(), item.row_key.as_slice()) {
            let ghost before = mock_keys(self.items@);
            self.items.remove(i);
            proof {
                assert forall|j: int|
                    0 <= j < o.len() && mock_keys(o)[j] != k implies self.items@.contains(
                    #[trigger] o[j],
                ) by {
                    if j < i {
                        assert(self.items@[j] == o[j]);
                    } else {
                        assert(j != i);
                        assert(self.items@[j - 1] == o[j]);
                    }
                }
                let after = mock_keys(self.items@);
                assert(after =~= before.remove(i as int));
                assert forall|a: int, b: int| 0 <= a < b < after.len() implies after[a] != after[b] by {
                    let a0 = if a < i { a } else { a + 1 };
                    let b0 = if b < i { b } else { b + 1 };
                    assert(after[a] == before[a0] && after[b] == before[b0]);
                }
                assert(!after.contains(k)) by {
                    if after.contains(k) {
                        let q = choose|q: int| 0 <= q < after.len() && after[q] == k;
                        let q0 = if q < i { q } else { q + 1 };
                        assert(before[q0] == k);
                    }
                }
            }
        }
        assert(forall|j: int|
            0 <= j < o.len() && mock_keys(o)[j] != k ==> self.items@.contains(#[trigger] o[j])) by {
            assert forall|j: int| 0 <= j < o.len() && mock_keys(o)[j] != k implies self.items@.contains(
                #[trigger] o[j],
            ) by {
                if self.items@ == o {
                    assert(self.items@[j] == o[j]);
                }
            }
        }
        let ghost before = mock_keys(self.items@);
        let ghost mid = self.items@;
        self.items.push(item);
        proof {
            let after = mock_keys(self.items@);
            assert(after =~= before.push(k));
            assert forall|j: int| 0 <= j < o.len() && mock_keys(o)[j] != k implies self.items@.contains(
                #[trigger] o[j],
            ) by {
                assert(mid.contains(o[j]));
                let q = choose|q: int| 0 <= q < mid.len() && mid[q] == o[j];
                assert(self.items@[q] == o[j]);
            }
            assert(after[after.len() - 1] == k);
            assert forall|a: int, b: int| 0 <= a < b < after.len() implies after[a] != after[b] by {
                if b == after.len() - 1 {
                    assert(before[a] == after[a]);
                }
            }
        }
    }

    /// Takes out the entity of the given keys, if there is one.
    pub fn delete(&mut self, partition_key: &[u8], row_key: &[u8]) -> (r: Option<MockEntity<T>>)
        requires
            old(self).wf(),
        ensures
            final(self).wf(),
            !mock_keys(final(self).items@).contains((partition_key@, row_key@)),
            r is None ==> final(self).items@ == old(self).items@,
            forall|j: int|
                0 <= j < old(self).items@.len() && mock_keys(old(self).items@)[j] != (
                    partition_key@,
                    row_key@,
                ) ==> final(self).items@.contains(#[trigger] old(self).items@[j]),
    {
        match self.position(partition_key, row_key) {
            Some(i) => {
                let ghost k = (partition_key@, row_key@);
                let ghost before = mock_keys(self.items@);
                let ghost o = self.items@;
                let removed = self.items.remove(i);
                proof {
                    assert forall|j: int|
                        0 <= j < o.len() && mock_keys(o)[j] != k implies self.items@.contains(
                        #[trigger] o[j],
                    ) by {
                        if j < i {
                            assert(self.items@[j] == o[j]);
                        } else {
                            assert(j != i);
                            assert(self.items@[j - 1] == o[j]);
                        }
                    }
                    let after = mock_keys(self.items@);
                    assert(after =~= before.remove(i as int));
                    assert forall|a: int, b: int| 0 <= a < b < after.len() implies after[a] != after[b] by {
                        let a0 = if a < i { a } else { a + 1 };
                        let b0 = if b < i { b } else { b + 1 };
                        assert(after[a] == before[a0] && after[b] == before[b0]);
                    }
                    if after.contains(k) {
                        let q = choose|q: int| 0 <= q < after.len() && after[q] == k;
                        let q0 = if q < i { q } else { q + 1 };
                        assert(before[q0] == k);
                    }
                }
                Some(removed)
            },
            None => None,
        }
    }
}

/// Serializes and reads the packets that a reader exchanges with the store.
pub struct MyNoSqlReaderTcpSerializer {}

impl MyNoSqlReaderTcpSerializer {
    pub fn new() -> (r: Self) {
        MyNoSqlReaderTcpSerializer {  }
    }
}

/// The settings through which a reader finds the store.
pub struct TcpConnectionSettings<S> {
    pub settings: S,
}

impl<S> TcpConnectionSettings<S> {
    pub fn new(settings: S) -> (r: Self)
        ensures
            r.settings == settings,
    {
        TcpConnectionSettings { settings }
    }
}

} // verus!
