use vstd::prelude::*;

use crate::keys::{bytes_eq, copy_bytes};

verus! {

/// The tables that one application (name and version) writes to, with their settings.
pub struct PingDataItem<S> {
    pub name: Vec<u8>,
    pub version: Vec<u8>,
    pub table_settings: Vec<(Vec<u8>, S)>,
}

/// The applications that announce themselves to the store, and whether the announcing runs.
pub struct PingPoolInner<S> {
    pub items: Vec<PingDataItem<S>>,
    pub started: bool,
}

/// What a ping announces: an application, its version and the tables it writes to.
pub struct PingModel {
    pub name: String,
    pub version: String,
    pub tables: Vec<String>,
}

impl<S> PingPoolInner<S> {
    /// The name and version of each application, in order.
    pub open spec fn apps(&self) -> Seq<(Seq<u8>, Seq<u8>)> {
        self.items@.map_values(|i: PingDataItem<S>| (i.name@, i.version@))
    }

    pub fn new() -> (r: Self)
        ensures
            r.items@.len() == 0,
            !r.started,
    {
        PingPoolInner { items: Vec::new(), started: false }
    }

    /// Adds a table of an application. Returns true the first time, when the announcing is to
    /// be started.
    pub fn register(&mut self, name: &[u8], version: &[u8], table: &[u8], settings: S) -> (r: bool)
        ensures
            r == !old(self).started,
            final(self).started,
            old(self).apps().contains((name@, version@)) ==> final(self).apps() == old(self).apps(),
            !old(self).apps().contains((name@, version@)) ==> final(self).apps() == old(
                self,
            ).apps().push((name@, version@)),
    {
        let start = !self.started;
        self.started = true;
        let mut i: usize = 0;
        while i < self.items.len()
            invariant
                i <= self.items@.len(),
                self.items@ == old(self).items@,
                self.started,
                start == !old(self).started,
                forall|j: int| 0 <= j < i ==> self.apps()[j] != (name@, version@),
            decreases self.items@.len() - i,
        {
            if bytes_eq(self.items[i].name.as_slice(), name) && bytes_eq(
                self.items[i].version.as_slice(),
                version,
            ) {
                let ghost before = self.items@;
                self.items[i].table_settings.push((copy_bytes(table), settings));
                proof {
                    assert(self.apps() =~= old(self).apps());
                    assert(old(self).apps()[i as int] == (name@, version@));
                }
                return start;
            }
            i = i + 1;
        }
        proof {
            if old(self).apps().contains((name@, version@)) {
                let q = choose|q: int|
                    0 <= q < old(self).apps().len() && old(self).apps()[q] == (name@, version@);
                assert(self.apps()[q] != (name@, version@));
            }
        }
        let mut table_settings: Vec<(Vec<u8>, S)> = Vec::new();
        table_settings.push((copy_bytes(table), settings));
        self.items.push(
            PingDataItem { name: copy_bytes(name), version: copy_bytes(version), table_settings },
        );
        assert(self.apps() =~= old(self).apps().push((name@, version@)));
        start
    }
}

/// A group of tables that share one URL, as the contracts see it.
pub type UrlGroup = (Seq<u8>, Seq<Seq<u8>>);

/// The tables grouped by URL: groups in the order their URL first comes, tables in order.
pub open spec fn group_by_url(pairs: Seq<(Seq<u8>, Seq<u8>)>) -> Seq<UrlGroup>
    decreases pairs.len(),
{
    if pairs.len() == 0 {
        Seq::empty()
    } else {
        let g = group_by_url(pairs.drop_last());
        let (table, url) = pairs.last();
        if exists|i: int| 0 <= i < g.len() && (#[trigger] g[i]).0 == url {
            let i = choose|i: int| 0 <= i < g.len() && (#[trigger] g[i]).0 == url;
            g.update(i, (url, g[i].1.push(table)))
        } else {
            g.push((url, seq![table]))
        }
    }
}

/// A group of tables that share one URL.
pub struct TablesOfUrl {
    pub url: Vec<u8>,
    pub tables: Vec<Vec<u8>>,
}

pub open spec fn group_view(g: TablesOfUrl) -> UrlGroup {
    (g.url@, g.tables@.map_values(|t: Vec<u8>| t@))
}

/// The URLs of the groups are distinct.
pub open spec fn urls_distinct(g: Seq<UrlGroup>) -> bool {
    forall|i: int, j: int| 0 <= i < j < g.len() ==> (#[trigger] g[i]).0 != (#[trigger] g[j]).0
}

proof fn lemma_group_distinct(pairs: Seq<(Seq<u8>, Seq<u8>)>)
    ensures
        urls_distinct(group_by_url(pairs)),
    decreases pairs.len(),
{
    if pairs.len() > 0 {
        lemma_group_distinct(pairs.drop_last());
        let g = group_by_url(pairs.drop_last());
        let url = pairs.last().1;
        if !(exists|i: int| 0 <= i < g.len() && (#[trigger] g[i]).0 == url) {
            let g2 = g.push((url, seq![pairs.last().0]));
            assert forall|i: int, j: int| 0 <= i < j < g2.len() implies (#[trigger] g2[i]).0
                != (#[trigger] g2[j]).0 by {
                if j == g.len() {
                    assert(g2[i] == g[i]);
                }
            }
        } else {
            let i0 = choose|i: int| 0 <= i < g.len() && (#[trigger] g[i]).0 == url;
            let g2 = g.update(i0, (url, g[i0].1.push(pairs.last().0)));
            assert forall|i: int, j: int| 0 <= i < j < g2.len() implies (#[trigger] g2[i]).0
                != (#[trigger] g2[j]).0 by {
                assert(g2[i].0 == g[i].0);
                assert(g2[j].0 == g[j].0);
            }
        }
    }
}

/// Groups tables by the URL they are written to, so that each URL gets one ping that lists its
/// tables. `pairs` holds a table and its URL each.
pub fn group_tables_by_url(pairs: &Vec<(Vec<u8>, Vec<u8>)>) -> (r: Vec<TablesOfUrl>)
    ensures
        r@.map_values(|g: TablesOfUrl| group_view(g)) == group_by_url(
            pairs@.map_values(|p: (Vec<u8>, Vec<u8>)| (p.0@, p.1@)),
        ),
{
    let ghost pv = pairs@.map_values(|p: (Vec<u8>, Vec<u8>)| (p.0@, p.1@));
    let mut r: Vec<TablesOfUrl> = Vec::new();
    let mut k: usize = 0;
    assert(pv.take(0) =~= Seq::<(Seq<u8>, Seq<u8>)>::empty());
    assert(r@.map_values(|g: TablesOfUrl| group_view(g)) =~= Seq::<UrlGroup>::empty());
    while k < pairs.len()
        invariant
            k <= pairs@.len(),
            pv == pairs@.map_values(|p: (Vec<u8>, Vec<u8>)| (p.0@, p.1@)),
            r@.map_values(|g: TablesOfUrl| group_view(g)) == group_by_url(pv.take(k as int)),
        decreases pairs@.len() - k,
    {
        let ghost g = group_by_url(pv.take(k as int));
        proof {
            assert(pv.take(k + 1).drop_last() =~= pv.take(k as int));
            lemma_group_distinct(pv.take(k as int));
        }
        let table = &pairs[k].0;
        let url = &pairs[k].1;
        let mut i: usize = 0;
        let mut found = false;
        while i < r.len() && !found
            invariant
                i <= r@.len(),
                r@.map_values(|g: TablesOfUrl| group_view(g)) == g,
                !found ==> forall|j: int| 0 <= j < i ==> r@[j].url@ != url@,
                found ==> i < r@.len() && r@[i as int].url@ == url@,
            decreases r@.len() - i + if found { 0int } else { 1int },
        {
            if crate::keys::bytes_eq(r[i].url.as_slice(), url.as_slice()) {
                found = true;
            } else {
                i = i + 1;
            }
        }
        if found {
            let ghost before = r@;
            let t = copy_bytes(table.as_slice());
            let ghost old_tables = r@[i as int].tables@;
            r[i].tables.push(t);
            proof {
                let url_v = url@;
                assert(g[i as int].0 == url_v);
                let i0 = choose|q: int| 0 <= q < g.len() && (#[trigger] g[q]).0 == url_v;
                assert(i0 == i as int);
                assert(r@[i as int].tables@ == old_tables.push(t));
                assert(r@[i as int].tables@.map_values(|t: Vec<u8>| t@) =~= old_tables.map_values(
                    |t: Vec<u8>| t@,
                ).push(table@));
                assert(r@.map_values(|g: TablesOfUrl| group_view(g)) =~= g.update(
                    i as int,
                    (url_v, g[i as int].1.push(table@)),
                ));
            }
        } else {
            let mut tables: Vec<Vec<u8>> = Vec::new();
            tables.push(copy_bytes(table.as_slice()));
            let ghost before = r@;
            let group = TablesOfUrl { url: copy_bytes(url.as_slice()), tables };
            proof {
                assert(group.tables@.map_values(|t: Vec<u8>| t@) =~= seq![table@]);
            }
            r.push(group);
            proof {
                assert(!(exists|q: int| 0 <= q < g.len() && (#[trigger] g[q]).0 == url@)) by {
                    if exists|q: int| 0 <= q < g.len() && (#[trigger] g[q]).0 == url@ {
                        let q = choose|q: int| 0 <= q < g.len() && (#[trigger] g[q]).0 == url@;
                        assert(g[q] == group_view(before[q]));
                        assert(before[q].url@ != url@);
                    }
                }
                assert(r@.map_values(|g: TablesOfUrl| group_view(g)) =~= g.push(
                    (url@, seq![table@]),
                ));
            }
        }
        k = k + 1;
    }
    assert(pv.take(k as int) =~= pv);
    r
}

} // verus!
