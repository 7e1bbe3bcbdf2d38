//! The key-value state machine a DHT node owns: per-table maps that
//! committed log entries apply to. Raft itself — elections, the log,
//! snapshots — stays outside the library; this is the state its committed
//! entries drive, with exact contracts for every operation.

use vstd::prelude::*;
use vstd::pervasive::VecAdditionalExecFns;
use crate::dht::{Key, Value};
use crate::schema::bytes_eq;

verus! {

/// A table name: an opaque byte string.
pub type TableName = Vec<u8>;

/// Where a table lookup lands: the index of the first table with this
/// name, if any.
pub open spec fn find_table(ts: Seq<(TableName, Seq<(Key, Value)>)>, name: Seq<u8>, i: int) -> Option<
    int,
>
    decreases ts.len() - i,
{
    if i < 0 || i >= ts.len() {
        None
    } else if ts[i].0@ == name {
        Some(i)
    } else {
        find_table(ts, name, i + 1)
    }
}

/// Where a key lookup lands within a table.
pub open spec fn find_key(entries: Seq<(Key, Value)>, key: Seq<u8>, i: int) -> Option<int>
    decreases entries.len() - i,
{
    if i < 0 || i >= entries.len() {
        None
    } else if entries[i].0@ == key {
        Some(i)
    } else {
        find_key(entries, key, i + 1)
    }
}

/// The ghost image of the store: table name, then that table's entries.
pub open spec fn tables_view(ts: Seq<(TableName, Vec<(Key, Value)>)>) -> Seq<
    (TableName, Seq<(Key, Value)>),
> {
    ts.map_values(|t: (TableName, Vec<(Key, Value)>)| (t.0, t.1@))
}

/// The per-table maps committed entries apply to.
pub struct StateMachineStore {
    pub tables: Vec<(TableName, Vec<(Key, Value)>)>,
}

impl StateMachineStore {
    /// Table names are unique, and so are the keys within each table.
    pub open spec fn wf(&self) -> bool {
        &&& forall|a: int, b: int|
            0 <= a < b < self.tables@.len() ==> (#[trigger] self.tables@[a]).0@ != (
            #[trigger] self.tables@[b]).0@
        &&& forall|t: int, a: int, b: int|
            0 <= t < self.tables@.len() && 0 <= a < b < self.tables@[t].1@.len() ==> (
            #[trigger] self.tables@[t].1@[a]).0@ != (#[trigger] self.tables@[t].1@[b]).0@
    }

    pub open spec fn view_tables(&self) -> Seq<(TableName, Seq<(Key, Value)>)> {
        tables_view(self.tables@)
    }

    pub fn new() -> (r: Self)
        ensures
            r.wf(),
            r.tables@.len() == 0,
    {
        StateMachineStore { tables: Vec::new() }
    }

    /// The index of a table, if it exists.
    fn table_index(&self, name: &Vec<u8>) -> (r: Option<usize>)
        ensures
            match r {
                Some(i) => find_table(self.view_tables(), name@, 0) == Some(i as int) && i
                    < self.tables@.len(),
                None => find_table(self.view_tables(), name@, 0) is None,
            },
    {
        let mut i: usize = 0;
        while i < self.tables.len()
            invariant
                i <= self.tables@.len(),
                find_table(self.view_tables(), name@, 0) == find_table(
                    self.view_tables(),
                    name@,
                    i as int,
                ),
            decreases self.tables@.len() - i,
        {
            let entry = &self.tables[i];
            proof {
                assert(self.view_tables()[i as int] == (self.tables@[i as int].0,
                self.tables@[i as int].1@));
            }
            if bytes_eq(&entry.0, name) {
                return Some(i);
            }
            i += 1;
        }
        None
    }

    /// Creates an empty table; creating an existing table changes
    /// nothing.
    pub fn create_table(&mut self, name: Vec<u8>)
        requires
            old(self).wf(),
        ensures
            final(self).wf(),
            find_table(old(self).view_tables(), name@, 0) is Some ==> final(self).view_tables()
                == old(self).view_tables(),
            find_table(old(self).view_tables(), name@, 0) is None ==> final(self).view_tables()
                == old(self).view_tables().push((name, Seq::<(Key, Value)>::empty())),
    {
        if self.table_index(&name).is_some() {
            return ;
        }
        proof {
            lemma_find_table_none_means_absent(self.view_tables(), name@, 0);
        }
        let ghost pre = self.view_tables();
        self.tables.push((name, Vec::new()));
        proof {
            assert(self.view_tables() =~= pre.push(
                (self.tables@.last().0, Seq::<(Key, Value)>::empty()),
            ));
            assert forall|a: int, b: int|
                0 <= a < b < self.tables@.len() implies (#[trigger] self.tables@[a]).0@ != (
            #[trigger] self.tables@[b]).0@ by {
                if b < self.tables@.len() - 1 {
                    assert(self.tables@[a] == old(self).tables@[a]);
                    assert(self.tables@[b] == old(self).tables@[b]);
                } else {
                    assert(self.tables@[a] == old(self).tables@[a]);
                    assert(pre[a].0@ == self.tables@[a].0@);
                }
            }
        }
    }

    /// Removes a table and everything in it; dropping a missing table
    /// changes nothing.
    pub fn drop_table(&mut self, name: &Vec<u8>)
        requires
            old(self).wf(),
        ensures
            final(self).wf(),
            match find_table(old(self).view_tables(), name@, 0) {
                Some(i) => final(self).view_tables() == old(self).view_tables().remove(i),
                None => final(self).view_tables() == old(self).view_tables(),
            },
    {
        let idx = match self.table_index(name) {
            Some(i) => i,
            None => {
                return ;
            },
        };
        let ghost pre = self.view_tables();
        let _ = self.tables.remove(idx);
        proof {
            assert(self.view_tables() =~= pre.remove(idx as int));
            assert forall|a: int, b: int|
                0 <= a < b < self.tables@.len() implies (#[trigger] self.tables@[a]).0@ != (
            #[trigger] self.tables@[b]).0@ by {
                let a0: int = if a < idx {
                    a
                } else {
                    a + 1
                };
                let b0: int = if b < idx {
                    b
                } else {
                    b + 1
                };
                assert(self.tables@[a] == old(self).tables@[a0]);
                assert(self.tables@[b] == old(self).tables@[b0]);
            }
            assert forall|t: int, a: int, b: int|
                0 <= t < self.tables@.len() && 0 <= a < b < self.tables@[t].1@.len() implies (
            #[trigger] self.tables@[t].1@[a]).0@ != (#[trigger] self.tables@[t].1@[b]).0@ by {
                let t0: int = if t < idx {
                    t
                } else {
                    t + 1
                };
                assert(self.tables@[t] == old(self).tables@[t0]);
            }
        }
    }

    /// Reads one key of one table.
    pub fn get(&self, table: &Vec<u8>, key: &Vec<u8>) -> (r: Option<&Value>)
        ensures
            ({
                let tv = self.view_tables();
                match find_table(tv, table@, 0) {
                    None => r is None,
                    Some(t) => match find_key(tv[t].1, key@, 0) {
                        None => r is None,
                        Some(k) => r matches Some(v) && v@ == tv[t].1[k].1@,
                    },
                }
            }),
    {
        let t = match self.table_index(table) {
            Some(t) => t,
            None => {
                return None;
            },
        };
        let entries = &self.tables[t].1;
        proof {
            assert(self.view_tables()[t as int] == (self.tables@[t as int].0,
            self.tables@[t as int].1@));
        }
        let mut i: usize = 0;
        while i < entries.len()
            invariant
                i <= entries@.len(),
                entries@ == self.tables@[t as int].1@,
                t < self.tables@.len(),
                find_table(self.view_tables(), table@, 0) == Some(t as int),
                find_key(entries@, key@, 0) == find_key(entries@, key@, i as int),
            decreases entries@.len() - i,
        {
            let pair = &entries[i];
            if bytes_eq(&pair.0, key) {
                proof {
                    assert(find_table(self.view_tables(), table@, 0) == Some(t as int));
                    assert(find_key(entries@, key@, i as int) == Some(i as int));
                    assert(find_key(entries@, key@, 0) == Some(i as int));
                    assert(self.view_tables()[t as int] == (self.tables@[t as int].0,
                    self.tables@[t as int].1@));
                    assert(self.view_tables()[t as int].1 == entries@);
                    assert(pair.1@ == entries@[i as int].1@);
                }
                return Some(&pair.1);
            }
            i += 1;
        }
        None
    }

    /// Writes one key of one table, replacing an existing value; the
    /// table is created when it does not exist yet, as applying a
    /// committed write must always succeed.
    pub fn set(&mut self, table: Vec<u8>, key: Vec<u8>, value: Vec<u8>)
        requires
            old(self).wf(),
        ensures
            final(self).wf(),
            ({
                let tv = old(self).view_tables();
                let fv = final(self).view_tables();
                match find_table(tv, table@, 0) {
                    None => fv == tv.push((table, seq![(key, value)])),
                    Some(t) => {
                        &&& fv.len() == tv.len()
                        &&& forall|x: int| 0 <= x < tv.len() && x != t ==> fv[x] == tv[x]
                        &&& fv[t].0 == tv[t].0
                        &&& match find_key(tv[t].1, key@, 0) {
                            None => fv[t].1 == tv[t].1.push((key, value)),
                            Some(k) => fv[t].1 == tv[t].1.update(k, (key, value)),
                        }
                    },
                }
            }),
    {
        let idx = match self.table_index(&table) {
            Some(t) => t,
            None => {
                proof {
                    lemma_find_table_none_means_absent(self.view_tables(), table@, 0);
                }
                let ghost pre = self.view_tables();
                let mut entries: Vec<(Key, Value)> = Vec::new();
                entries.push((key, value));
                self.tables.push((table, entries));
                proof {
                    assert(self.view_tables() =~= pre.push(
                        (self.tables@.last().0, self.tables@.last().1@),
                    ));
                    assert(self.tables@.last().1@ =~= seq![
                        (self.tables@.last().1@[0].0, self.tables@.last().1@[0].1),
                    ]);
                    assert forall|a: int, b: int|
                        0 <= a < b < self.tables@.len() implies (
                    #[trigger] self.tables@[a]).0@ != (#[trigger] self.tables@[b]).0@ by {
                        if b < self.tables@.len() - 1 {
                            assert(self.tables@[a] == old(self).tables@[a]);
                            assert(self.tables@[b] == old(self).tables@[b]);
                        } else {
                            assert(self.tables@[a] == old(self).tables@[a]);
                            assert(pre[a].0@ == self.tables@[a].0@);
                        }
                    }
                    assert forall|t: int, a: int, b: int|
                        0 <= t < self.tables@.len() && 0 <= a < b
                            < self.tables@[t].1@.len() implies (
                    #[trigger] self.tables@[t].1@[a]).0@ != (
                    #[trigger] self.tables@[t].1@[b]).0@ by {
                        if t < self.tables@.len() - 1 {
                            assert(self.tables@[t] == old(self).tables@[t]);
                        }
                    }
                }
                return ;
            },
        };
        let ghost pre = self.view_tables();
        proof {
            assert(pre[idx as int] == (self.tables@[idx as int].0, self.tables@[idx as int].1@));
        }
        // find the key's slot in the table
        let ghost entries0 = self.tables@[idx as int].1@;
        let mut at: Option<usize> = None;
        let mut i: usize = 0;
        let n = self.tables[idx].1.len();
        while i < n && at.is_none()
            invariant
                i <= n,
                n == entries0.len(),
                idx < self.tables@.len(),
                self.tables@[idx as int].1@ == entries0,
                self.tables@ == old(self).tables@,
                match at {
                    None => find_key(entries0, key@, 0) == find_key(entries0, key@, i as int),
                    Some(k) => find_key(entries0, key@, 0) == Some(k as int) && k < n,
                },
            decreases n - i + (if at is None {
                1int
            } else {
                0int
            }),
        {
            let pair = &self.tables[idx].1[i];
            if bytes_eq(&pair.0, &key) {
                at = Some(i);
            } else {
                i += 1;
            }
        }
        let inner = &mut self.tables[idx];
        match at {
            Some(k) => {
                inner.1.set(k, (key, value));
            },
            None => {
                inner.1.push((key, value));
            },
        }
        proof {
            assert(self.tables@[idx as int].0 == old(self).tables@[idx as int].0);
            assert forall|x: int|
                0 <= x < self.tables@.len() && x != idx implies #[trigger] self.tables@[x]
                == old(self).tables@[x] by {}
            assert forall|x: int|
                0 <= x < pre.len() && x != idx implies #[trigger] self.view_tables()[x] == pre[x]
                by {
                assert(self.view_tables()[x] == (self.tables@[x].0, self.tables@[x].1@));
            }
            assert(self.view_tables().len() == pre.len());
            assert(self.view_tables()[idx as int] == (self.tables@[idx as int].0,
            self.tables@[idx as int].1@));
            match at {
                Some(k) => {
                    lemma_find_key_some(entries0, key@, 0, k as int);
                },
                None => {
                    lemma_find_key_none_means_absent(entries0, key@, 0);
                },
            }
            // keys stay unique in the touched table
            assert forall|t: int, a: int, b: int|
                0 <= t < self.tables@.len() && 0 <= a < b < self.tables@[t].1@.len() implies (
            #[trigger] self.tables@[t].1@[a]).0@ != (#[trigger] self.tables@[t].1@[b]).0@ by {
                if t != idx {
                    assert(self.tables@[t] == old(self).tables@[t]);
                } else {
                    match at {
                        Some(k) => {
                            if a != k && b != k {
                                assert(self.tables@[t].1@[a] == entries0[a]);
                                assert(self.tables@[t].1@[b] == entries0[b]);
                            } else if a == k {
                                assert(self.tables@[t].1@[a].0@ == key@);
                                assert(entries0[a].0@ == key@);
                                assert(self.tables@[t].1@[b] == entries0[b]);
                            } else {
                                assert(self.tables@[t].1@[a] == entries0[a]);
                                assert(self.tables@[t].1@[b].0@ == key@);
                                assert(entries0[b].0@ == key@);
                            }
                        },
                        None => {
                            if b < self.tables@[t].1@.len() - 1 {
                                assert(self.tables@[t].1@[a] == entries0[a]);
                                assert(self.tables@[t].1@[b] == entries0[b]);
                            } else {
                                assert(self.tables@[t].1@[a] == entries0[a]);
                            }
                        },
                    }
                }
            }
        }
    }

    /// The names of all tables, in creation order. Fanning callers sort
    /// and deduplicate across nodes.
    pub fn all_tables(&self) -> (r: Vec<TableName>)
        ensures
            r@.len() == self.view_tables().len(),
            forall|i: int|
                0 <= i < r@.len() ==> (#[trigger] r@[i])@ == self.view_tables()[i].0@,
    {
        let mut out: Vec<TableName> = Vec::new();
        let mut i: usize = 0;
        while i < self.tables.len()
            invariant
                i <= self.tables@.len(),
                out@.len() == i,
                forall|j: int| 0 <= j < i ==> (#[trigger] out@[j])@ == self.view_tables()[j].0@,
            decreases self.tables@.len() - i,
        {
            let entry = &self.tables[i];
            let name = entry.0.clone();
            proof {
                assert(self.view_tables()[i as int] == (self.tables@[i as int].0,
                self.tables@[i as int].1@));
                assert(name@ =~= self.tables@[i as int].0@);
            }
            out.push(name);
            i += 1;
        }
        out
    }
}

/// A missed table lookup means no table of that name.
proof fn lemma_find_table_none_means_absent(
    ts: Seq<(TableName, Seq<(Key, Value)>)>,
    name: Seq<u8>,
    i: int,
)
    requires
        0 <= i,
        find_table(ts, name, i) is None,
    ensures
        forall|j: int| i <= j < ts.len() ==> (#[trigger] ts[j]).0@ != name,
    decreases ts.len() - i,
{
    if i < ts.len() {
        lemma_find_table_none_means_absent(ts, name, i + 1);
    }
}

/// A successful key lookup names an entry of that key.
proof fn lemma_find_key_some(entries: Seq<(Key, Value)>, key: Seq<u8>, i: int, k: int)
    requires
        0 <= i,
        find_key(entries, key, i) == Some(k),
    ensures
        i <= k < entries.len(),
        entries[k].0@ == key,
    decreases entries.len() - i,
{
    if i < entries.len() && entries[i].0@ != key {
        lemma_find_key_some(entries, key, i + 1, k);
    }
}

/// A missed key lookup means no entry of that key.
proof fn lemma_find_key_none_means_absent(entries: Seq<(Key, Value)>, key: Seq<u8>, i: int)
    requires
        0 <= i,
        find_key(entries, key, i) is None,
    ensures
        forall|j: int| i <= j < entries.len() ==> (#[trigger] entries[j]).0@ != key,
    decreases entries.len() - i,
{
    if i < entries.len() {
        lemma_find_key_none_means_absent(entries, key, i + 1);
    }
}

} // verus!
