//! The two table types of the library: a [`RawTable`] maps keys to raw value
//! text for one resource file, and an [`AggregatedTable`] maps resource
//! identifiers to raw tables for a whole directory of resource files.
//!
//! Both are association vectors with pairwise-distinct keys, kept in
//! insertion order; their mathematical model is a `Map` over `Seq<char>`.

use vstd::pervasive::VecAdditionalExecFns;
use vstd::prelude::*;

verus! {

/// The mapping described by an association sequence; a later entry for the
/// same key wins.
pub open spec fn assoc_map<V>(s: Seq<(Seq<char>, V)>) -> Map<Seq<char>, V>
    decreases s.len(),
{
    if s.len() == 0 {
        Map::empty()
    } else {
        assoc_map(s.drop_last()).insert(s.last().0, s.last().1)
    }
}

/// The keys of `s` are pairwise distinct.
pub open spec fn distinct_keys<V>(s: Seq<(Seq<char>, V)>) -> bool {
    forall|i: int, j: int| 0 <= i < j < s.len() ==> (#[trigger] s[i]).0 != (#[trigger] s[j]).0
}

pub proof fn lemma_assoc_map_index<V>(s: Seq<(Seq<char>, V)>, i: int)
    requires
        distinct_keys(s),
        0 <= i < s.len(),
    ensures
        assoc_map(s).contains_key(s[i].0),
        assoc_map(s)[s[i].0] == s[i].1,
    decreases s.len(),
{
    if i < s.len() - 1 {
        lemma_assoc_map_index(s.drop_last(), i);
        assert(s.drop_last()[i] == s[i]);
        assert(s[i].0 != s.last().0);
    }
}

pub proof fn lemma_assoc_map_absent<V>(s: Seq<(Seq<char>, V)>, k: Seq<char>)
    requires
        forall|i: int| 0 <= i < s.len() ==> (#[trigger] s[i]).0 != k,
    ensures
        !assoc_map(s).contains_key(k),
    decreases s.len(),
{
    if s.len() > 0 {
        lemma_assoc_map_absent(s.drop_last(), k);
    }
}

pub proof fn lemma_assoc_map_update<V>(s: Seq<(Seq<char>, V)>, i: int, k: Seq<char>, v: V)
    requires
        0 <= i < s.len(),
        s[i].0 == k,
        forall|j: int| i < j < s.len() ==> (#[trigger] s[j]).0 != k,
    ensures
        assoc_map(s.update(i, (k, v))) == assoc_map(s).insert(k, v),
    decreases s.len(),
{
    let su = s.update(i, (k, v));
    if i == s.len() - 1 {
        assert(su.drop_last() =~= s.drop_last());
        assert(assoc_map(su) == assoc_map(s.drop_last()).insert(k, v));
        assert(assoc_map(s.drop_last()).insert(s.last().0, s.last().1).insert(k, v)
            =~= assoc_map(s.drop_last()).insert(k, v));
    } else {
        lemma_assoc_map_update(s.drop_last(), i, k, v);
        assert(su.drop_last() =~= s.drop_last().update(i, (k, v)));
        assert(su.last() == s.last());
        assert(s.last().0 != k);
        assert(assoc_map(s.drop_last()).insert(k, v).insert(s.last().0, s.last().1)
            =~= assoc_map(s.drop_last()).insert(s.last().0, s.last().1).insert(k, v));
    }
}

/// The key-to-raw-value table parsed out of one resource file.
///
/// `entries` holds the entries in insertion order with pairwise-distinct
/// keys; the model of the table is the finite map [`RawTable::model`].
pub struct RawTable {
    pub entries: Vec<(String, String)>,
}

impl RawTable {
    /// The entries as pairs of character sequences, in order.
    pub open spec fn entry_views(&self) -> Seq<(Seq<char>, Seq<char>)> {
        self.entries@.map_values(|p: (String, String)| (p.0@, p.1@))
    }

    /// The mapping from key to raw value text.
    pub open spec fn model(&self) -> Map<Seq<char>, Seq<char>> {
        assoc_map(self.entry_views())
    }

    /// Keys are pairwise distinct, so the entry order never hides an entry.
    pub open spec fn wf(&self) -> bool {
        distinct_keys(self.entry_views())
    }

    pub fn new() -> (r: RawTable)
        ensures
            r.wf(),
            r.model() == Map::<Seq<char>, Seq<char>>::empty(),
            r.entry_views() == Seq::<(Seq<char>, Seq<char>)>::empty(),
    {
        let r = RawTable { entries: Vec::new() };
        proof {
            assert(r.entry_views() =~= Seq::<(Seq<char>, Seq<char>)>::empty());
        }
        r
    }

    /// Binds `key` to `value`, replacing any earlier binding of `key`.
    pub fn insert(&mut self, key: String, value: String)
        requires
            old(self).wf(),
        ensures
            final(self).wf(),
            final(self).model() == old(self).model().insert(key@, value@),
    {
        let n = self.entries.len();
        let mut i: usize = 0;
        while i < n
            invariant
                n == self.entries.len(),
                i <= n,
                forall|j: int| 0 <= j < i ==> (#[trigger] self.entry_views()[j]).0 != key@,
                self == old(self),
                self.wf(),
            decreases n - i,
        {
            if self.entries[i].0 == key {
                proof {
                    let s0 = self.entry_views();
                    assert(s0[i as int].0 == key@);
                    assert forall|j: int| i < j < s0.len() implies (#[trigger] s0[j]).0 != key@ by {
                        assert(s0[i as int].0 != s0[j].0);
                    }
                    lemma_assoc_map_update(s0, i as int, key@, value@);
                }
                let ghost pre = self.entry_views();
                self.entries.set(i, (key, value));
                proof {
                    assert(self.entry_views() =~= pre.update(i as int, (key@, value@)));
                    let s1 = self.entry_views();
                    assert forall|p: int, q: int| 0 <= p < q < s1.len() implies
                        (#[trigger] s1[p]).0 != (#[trigger] s1[q]).0 by {
                        assert(s1[p].0 == pre[p].0);
                        assert(s1[q].0 == pre[q].0);
                        assert(pre[p].0 != pre[q].0);
                    }
                }
                return ;
            }
            i = i + 1;
        }
        let ghost pre = self.entry_views();
        self.entries.push((key, value));
        proof {
            assert(self.entry_views() =~= pre.push((key@, value@)));
            assert(self.entry_views().drop_last() =~= pre);
        }
    }

    /// The raw value bound to `key`, if any.
    pub fn get<'a>(&'a self, key: &str) -> (r: Option<&'a String>)
        requires
            self.wf(),
        ensures
            match r {
                Some(v) => self.model().contains_key(key@) && v@ == self.model()[key@],
                None => !self.model().contains_key(key@),
            },
    {
        let n = self.entries.len();
        let mut i: usize = 0;
        while i < n
            invariant
                self.wf(),
                n == self.entries.len(),
                i <= n,
                forall|j: int| 0 <= j < i ==> (#[trigger] self.entry_views()[j]).0 != key@,
            decreases n - i,
        {
            if crate::text::str_eq(self.entries[i].0.as_str(), key) {
                proof {
                    lemma_assoc_map_index(self.entry_views(), i as int);
                }
                return Some(&self.entries[i].1);
            }
            i = i + 1;
        }
        proof {
            lemma_assoc_map_absent(self.entry_views(), key@);
        }
        None
    }

    /// How many entries the table holds.
    pub fn len(&self) -> (n: usize)
        ensures
            n == self.entry_views().len(),
    {
        self.entries.len()
    }

    /// The key of the entry at position `i`.
    pub fn key_at<'a>(&'a self, i: usize) -> (k: &'a String)
        requires
            i < self.entry_views().len(),
        ensures
            k@ == self.entry_views()[i as int].0,
    {
        &self.entries[i].0
    }

    /// The raw value of the entry at position `i`.
    pub fn value_at<'a>(&'a self, i: usize) -> (v: &'a String)
        requires
            i < self.entry_views().len(),
        ensures
            v@ == self.entry_views()[i as int].1,
    {
        &self.entries[i].1
    }

    /// An entry-for-entry copy of the table.
    pub fn duplicate(&self) -> (r: RawTable)
        ensures
            r.entries@ == self.entries@,
            r.entry_views() == self.entry_views(),
            r.model() == self.model(),
            r.wf() == self.wf(),
    {
        let n = self.entries.len();
        let mut entries: Vec<(String, String)> = Vec::new();
        let mut i: usize = 0;
        while i < n
            invariant
                n == self.entries.len(),
                i <= n,
                entries@ =~= self.entries@.subrange(0, i as int),
            decreases n - i,
        {
            entries.push((self.entries[i].0.clone(), self.entries[i].1.clone()));
            i = i + 1;
        }
        proof {
            assert(entries@ =~= self.entries@);
        }
        let r = RawTable { entries };
        proof {
            assert(r.entry_views() =~= self.entry_views());
        }
        r
    }
}

/// The resource-identifier-to-table mapping built from one directory.
pub struct AggregatedTable {
    pub resources: Vec<(String, RawTable)>,
}

impl AggregatedTable {
    /// The resources as pairs of identifier and entry sequence, in order.
    pub open spec fn deep_entries(&self) -> Seq<(Seq<char>, Seq<(Seq<char>, Seq<char>)>)> {
        self.resources@.map_values(|p: (String, RawTable)| (p.0@, p.1.entry_views()))
    }

    /// The resources as pairs of identifier and table model, in order.
    pub open spec fn resource_views(&self) -> Seq<(Seq<char>, Map<Seq<char>, Seq<char>>)> {
        self.resources@.map_values(|p: (String, RawTable)| (p.0@, p.1.model()))
    }

    /// The mapping from resource identifier to that resource's table.
    pub open spec fn model(&self) -> Map<Seq<char>, Map<Seq<char>, Seq<char>>> {
        assoc_map(self.resource_views())
    }

    pub open spec fn wf(&self) -> bool {
        &&& distinct_keys(self.resource_views())
        &&& forall|i: int| 0 <= i < self.resources@.len() ==> (#[trigger] self.resources@[i]).1.wf()
    }

    pub fn new() -> (r: AggregatedTable)
        ensures
            r.wf(),
            r.model() == Map::<Seq<char>, Map<Seq<char>, Seq<char>>>::empty(),
            r.resource_views() == Seq::<(Seq<char>, Map<Seq<char>, Seq<char>>)>::empty(),
    {
        let r = AggregatedTable { resources: Vec::new() };
        proof {
            assert(r.resource_views() =~= Seq::<(Seq<char>, Map<Seq<char>, Seq<char>>)>::empty());
        }
        r
    }

    /// Binds `id` to `table`, replacing any earlier binding of `id`.
    pub fn insert(&mut self, id: String, table: RawTable)
        requires
            old(self).wf(),
            table.wf(),
        ensures
            final(self).wf(),
            final(self).model() == old(self).model().insert(id@, table.model()),
    {
        let n = self.resources.len();
        let mut i: usize = 0;
        while i < n
            invariant
                n == self.resources.len(),
                i <= n,
                forall|j: int| 0 <= j < i ==> (#[trigger] self.resource_views()[j]).0 != id@,
                self == old(self),
                self.wf(),
                table.wf(),
            decreases n - i,
        {
            if self.resources[i].0 == id {
                proof {
                    let s0 = self.resource_views();
                    assert(s0[i as int].0 == id@);
                    assert forall|j: int| i < j < s0.len() implies (#[trigger] s0[j]).0 != id@ by {
                        assert(s0[i as int].0 != s0[j].0);
                    }
                    lemma_assoc_map_update(s0, i as int, id@, table.model());
                }
                let ghost pre = self.resource_views();
                let ghost tm = table.model();
                let ghost prev = self.resources@;
                self.resources.set(i, (id, table));
                proof {
                    assert(self.resource_views() =~= pre.update(i as int, (id@, tm)));
                    let s1 = self.resource_views();
                    assert forall|p: int, q: int| 0 <= p < q < s1.len() implies
                        (#[trigger] s1[p]).0 != (#[trigger] s1[q]).0 by {
                        assert(s1[p].0 == pre[p].0);
                        assert(s1[q].0 == pre[q].0);
                        assert(pre[p].0 != pre[q].0);
                    }
                    assert forall|j: int| 0 <= j < self.resources@.len() implies
                        (#[trigger] self.resources@[j]).1.wf() by {
                        if j != i {
                            assert(self.resources@[j] == prev[j]);
                        }
                    }
                }
                return ;
            }
            i = i + 1;
        }
        let ghost pre = self.resource_views();
        let ghost tm = table.model();
        self.resources.push((id, table));
        proof {
            assert(self.resource_views() =~= pre.push((id@, tm)));
            assert(self.resource_views().drop_last() =~= pre);
        }
    }

    /// The table of the resource named `id`, if any.
    pub fn get<'a>(&'a self, id: &str) -> (r: Option<&'a RawTable>)
        requires
            self.wf(),
        ensures
            match r {
                Some(t) => {
                    &&& self.model().contains_key(id@)
                    &&& t.model() == self.model()[id@]
                    &&& t.wf()
                },
                None => !self.model().contains_key(id@),
            },
    {
        let n = self.resources.len();
        let mut i: usize = 0;
        while i < n
            invariant
                self.wf(),
                n == self.resources.len(),
                i <= n,
                forall|j: int| 0 <= j < i ==> (#[trigger] self.resource_views()[j]).0 != id@,
            decreases n - i,
        {
            if crate::text::str_eq(self.resources[i].0.as_str(), id) {
                proof {
                    lemma_assoc_map_index(self.resource_views(), i as int);
                    assert(self.resources@[i as int].1.wf());
                }
                return Some(&self.resources[i].1);
            }
            i = i + 1;
        }
        proof {
            lemma_assoc_map_absent(self.resource_views(), id@);
        }
        None
    }

    /// How many resources the table holds.
    pub fn len(&self) -> (n: usize)
        ensures
            n == self.resource_views().len(),
    {
        self.resources.len()
    }

    /// The identifier of the resource at position `i`.
    pub fn id_at<'a>(&'a self, i: usize) -> (k: &'a String)
        requires
            i < self.resource_views().len(),
        ensures
            k@ == self.resource_views()[i as int].0,
    {
        &self.resources[i].0
    }

    /// The table of the resource at position `i`.
    pub fn table_at<'a>(&'a self, i: usize) -> (t: &'a RawTable)
        requires
            i < self.resource_views().len(),
        ensures
            t == self.resources@[i as int].1,
            t.model() == self.resource_views()[i as int].1,
            t.entry_views() == self.deep_entries()[i as int].1,
            self.wf() ==> t.wf(),
    {
        &self.resources[i].1
    }

    /// A resource-for-resource copy of the table.
    pub fn duplicate(&self) -> (r: AggregatedTable)
        ensures
            r.resource_views() == self.resource_views(),
            r.model() == self.model(),
            r.wf() == self.wf(),
    {
        let n = self.resources.len();
        let mut resources: Vec<(String, RawTable)> = Vec::new();
        let mut i: usize = 0;
        while i < n
            invariant
                n == self.resources.len(),
                i <= n,
                resources@.len() == i,
                forall|j: int| 0 <= j < i ==> (#[trigger] resources@[j]).0@
                    == self.resources@[j].0@,
                forall|j: int| 0 <= j < i ==> (#[trigger] resources@[j]).1.entries@
                    == self.resources@[j].1.entries@,
            decreases n - i,
        {
            resources.push((self.resources[i].0.clone(), self.resources[i].1.duplicate()));
            i = i + 1;
        }
        let r = AggregatedTable { resources };
        proof {
            assert(r.resource_views() =~= self.resource_views());
            assert forall|j: int| 0 <= j < n implies
                ((#[trigger] r.resources@[j]).1.wf() == self.resources@[j].1.wf()) by {
                assert(r.resources@[j].1.entry_views() =~= self.resources@[j].1.entry_views());
            }
            assert forall|j: int| 0 <= j < n implies
                ((#[trigger] self.resources@[j]).1.wf() == r.resources@[j].1.wf()) by {
                assert(r.resources@[j].1.entry_views() =~= self.resources@[j].1.entry_views());
            }
            assert(r.wf() == self.wf());
        }
        r
    }
}

} // verus!
