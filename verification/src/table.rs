//! The nested result: an outer table keyed by object name, whose values are inner
//! tables keyed by the integers from 1 upwards.

use vstd::prelude::*;
use vstd::set_lib::lemma_subset_equality;
use vstd::std_specs::cmp::PartialEqSpecImpl;
use crate::model::Vector3;

verus! {

/// What is kept of one vertex for the caller to emit. All four fields are always
/// present. Position, normal, `u` and `v` are the numbers as read from the text:
/// placing the position, flipping `v` and scaling `u` and `v` are the caller's.
#[derive(Clone, Copy, Debug, PartialEq, Eq, Structural)]
pub struct Record {
    pub pos: Vector3,
    pub normal: Vector3,
    pub u: u32,
    pub v: u32,
}

/// The keys under which an inner table with these rows stores them: 1, 2, ... up to
/// the number of rows.
pub open spec fn keys(rows: Seq<Record>) -> Set<int> {
    Set::new(|k: int| 1 <= k <= rows.len())
}

/// The rows as a keyed table: key `k` holds the `k`-th row, counting from 1.
pub open spec fn keyed(rows: Seq<Record>) -> Map<int, Record> {
    Map::new(|k: int| 1 <= k <= rows.len(), |k: int| rows[k - 1])
}

/// The vertices of one object in emission order. The row at position `i` of `rows`
/// has the key `i + 1`.
#[derive(Clone, Debug)]
pub struct InnerTable {
    pub rows: Vec<Record>,
}

impl View for InnerTable {
    type V = Seq<Record>;

    open spec fn view(&self) -> Seq<Record> {
        self.rows@
    }
}

impl PartialEq for InnerTable {
    /// Two inner tables are equal when they hold the same rows under the same keys.
    fn eq(&self, other: &InnerTable) -> (equal: bool) {
        if self.rows.len() != other.rows.len() {
            return false;
        }
        let mut i: usize = 0;
        while i < self.rows.len()
            invariant
                i <= self.rows.len(),
                self.rows.len() == other.rows.len(),
                forall|k: int| 0 <= k < i ==> self@[k] == other@[k],
            decreases self.rows.len() - i,
        {
            if self.rows[i] != other.rows[i] {
                return false;
            }
            i = i + 1;
        }
        assert(self@ =~= other@);
        true
    }
}

impl PartialEqSpecImpl for InnerTable {
    open spec fn obeys_eq_spec() -> bool {
        true
    }

    open spec fn eq_spec(&self, other: &InnerTable) -> bool {
        self@ == other@
    }
}

impl Eq for InnerTable {

}

impl InnerTable {
    /// A table without rows.
    pub fn new() -> (table: Self)
        ensures
            table@ == Seq::<Record>::empty(),
    {
        InnerTable { rows: Vec::new() }
    }

    /// The number of rows, which is also the largest key.
    pub fn len(&self) -> (n: usize)
        ensures
            n == self@.len(),
    {
        self.rows.len()
    }

    /// Appends a row and returns the key it was given: one more than the number of
    /// rows before the call.
    pub fn push(&mut self, record: Record) -> (key: usize)
        ensures
            final(self)@ == old(self)@.push(record),
            key == old(self)@.len() + 1,
    {
        self.rows.push(record);
        self.rows.len()
    }

    /// The row stored under `key`, if `key` is one of the table's keys.
    pub fn get(&self, key: usize) -> (row: Option<Record>)
        ensures
            keys(self@).contains(key as int) ==> row == Some(keyed(self@)[key as int]),
            !keys(self@).contains(key as int) ==> row is None,
    {
        if 1 <= key && key <= self.rows.len() {
            Some(self.rows[key - 1])
        } else {
            None
        }
    }
}

/// One slot of the outer table.
#[derive(Clone, Debug)]
struct Entry {
    name: String,
    table: InnerTable,
}

/// Inner tables keyed by object name. No name occurs twice: storing under a name
/// that is already present replaces what was stored there.
#[derive(Debug)]
pub struct OuterTable {
    entries: Vec<Entry>,
}

impl OuterTable {
    /// The names in the order in which they were first stored.
    pub closed spec fn names(&self) -> Seq<Seq<char>> {
        self.entries@.map_values(|e: Entry| e.name@)
    }

    /// No name occurs twice.
    #[verifier::type_invariant]
    spec fn distinct(&self) -> bool {
        self.names().no_duplicates()
    }

    /// The table as a map from object name to the rows stored under it.
    pub closed spec fn view(&self) -> Map<Seq<char>, Seq<Record>> {
        Map::new(
            |n: Seq<char>| self.names().contains(n),
            |n: Seq<char>| self.entries@[self.names().index_of(n)].table@,
        )
    }

    /// The slot that holds a name is the one found for it.
    proof fn lemma_slot(&self, i: int)
        requires
            self.names().no_duplicates(),
            0 <= i < self.entries@.len(),
        ensures
            self.names()[i] == self.entries@[i].name@,
            self.names().contains(self.entries@[i].name@),
            self.names().index_of(self.entries@[i].name@) == i,
            self@.contains_key(self.entries@[i].name@),
            self@[self.entries@[i].name@] == self.entries@[i].table@,
    {
        let names = self.names();
        assert(names[i] == self.entries@[i].name@);
        let j = names.index_of(names[i]);
        assert(0 <= j < names.len() && names[j] == names[i]);
    }

    /// The names are exactly the keys of the map, each once.
    proof fn lemma_names(&self)
        requires
            self.names().no_duplicates(),
        ensures
            self.names().to_set() == self@.dom(),
            self@.dom().finite(),
            self@.dom().len() == self.names().len(),
    {
        assert(self.names().to_set() =~= self@.dom());
        self.names().unique_seq_to_set();
        vstd::seq_lib::seq_to_set_is_finite(self.names());
    }

    /// An empty table.
    pub fn new() -> (table: Self)
        ensures
            table@ == Map::<Seq<char>, Seq<Record>>::empty(),
            table.names() == Seq::<Seq<char>>::empty(),
    {
        let entries: Vec<Entry> = Vec::new();
        assert(entries@.map_values(|e: Entry| e.name@) =~= Seq::<Seq<char>>::empty());
        let table = OuterTable { entries };
        assert(table@ =~= Map::<Seq<char>, Seq<Record>>::empty());
        table
    }

    /// The number of names. Every name is a key of the map, and no name comes
    /// twice.
    pub fn len(&self) -> (n: usize)
        ensures
            n == self.names().len(),
            self.names().no_duplicates(),
            self.names().to_set() == self@.dom(),
            self@.dom().finite(),
            n == self@.dom().len(),
    {
        proof {
            use_type_invariant(self);
            self.lemma_names();
        }
        self.entries.len()
    }

    /// Whether the table holds no name at all.
    pub fn is_empty(&self) -> (empty: bool)
        ensures
            empty == (self@ == Map::<Seq<char>, Seq<Record>>::empty()),
    {
        proof {
            use_type_invariant(self);
            self.lemma_names();
            if self.entries@.len() > 0 {
                self.lemma_slot(0);
            } else {
                assert(self@ =~= Map::<Seq<char>, Seq<Record>>::empty());
            }
        }
        self.entries.len() == 0
    }

    /// The slot of `name`, if the table holds it.
    fn position(&self, name: &String) -> (slot: Option<usize>)
        ensures
            match slot {
                Some(i) => i < self.names().len() && self.names()[i as int] == name@,
                None => !self.names().contains(name@),
            },
    {
        let mut i: usize = 0;
        while i < self.entries.len()
            invariant
                i <= self.entries.len(),
                forall|k: int| 0 <= k < i ==> self.names()[k] != name@,
            decreases self.entries.len() - i,
        {
            if self.entries[i].name == *name {
                return Some(i);
            }
            i = i + 1;
        }
        None
    }

    /// Stores `table` under `name`. What was stored under that name before, if
    /// anything, is replaced; every other name keeps its rows.
    pub fn set(&mut self, name: String, table: InnerTable)
        ensures
            final(self)@ == old(self)@.insert(name@, table@),
            final(self).names() == if old(self).names().contains(name@) {
                old(self).names()
            } else {
                old(self).names().push(name@)
            },
    {
        proof {
            use_type_invariant(&*self);
        }
        let ghost before = *self;
        let ghost key = name@;
        let ghost rows = table@;
        let slot = self.position(&name);
        let mut taken = OuterTable::new();
        core::mem::swap(self, &mut taken);
        let OuterTable { entries: mut entries } = taken;
        match slot {
            Some(i) => {
                entries[i].table = table;
            },
            None => {
                entries.push(Entry { name, table });
            },
        }
        proof {
            let names = entries@.map_values(|e: Entry| e.name@);
            match slot {
                Some(i) => {
                    assert(names =~= before.names());
                },
                None => {
                    assert(names =~= before.names().push(key));
                },
            }
        }
        *self = OuterTable { entries };
        proof {
            match slot {
                Some(i) => {
                    assert forall|n: Seq<char>| self@.contains_key(n) implies self@[n]
                        == before@.insert(key, rows)[n] by {
                        let j = self.names().index_of(n);
                        assert(0 <= j < self.names().len() && self.names()[j] == n);
                        if n != key {
                            assert(j != i);
                            assert(self.entries@[j] == before.entries@[j]);
                        }
                    }
                },
                None => {
                    let last = before.names().len() as int;
                    assert forall|n: Seq<char>| self@.contains_key(n) implies self@[n]
                        == before@.insert(key, rows)[n] by {
                        let j = self.names().index_of(n);
                        assert(0 <= j < self.names().len() && self.names()[j] == n);
                        if n != key {
                            assert(j != last);
                            assert(before.names()[j] == n);
                            let k = before.names().index_of(n);
                            assert(0 <= k < before.names().len() && before.names()[k] == n);
                            assert(self.names()[k] == n);
                            assert(k == j);
                            assert(self.entries@[j] == before.entries@[j]);
                        } else {
                            assert(self.names()[last] == key);
                            assert(j == last);
                        }
                    }
                    assert forall|n: Seq<char>| before@.insert(key, rows).contains_key(n)
                        implies self@.contains_key(n) by {
                        if n != key {
                            let k = before.names().index_of(n);
                            assert(0 <= k < before.names().len() && before.names()[k] == n);
                            assert(self.names()[k] == n);
                        } else {
                            assert(self.names()[last] == key);
                        }
                    }
                },
            }
            assert(self@ =~= before@.insert(key, rows));
        }
    }

    /// The inner table stored under `name`, if the table holds that name.
    pub fn get(&self, name: &String) -> (found: Option<&InnerTable>)
        ensures
            match found {
                Some(table) => self@.contains_key(name@) && table@ == self@[name@],
                None => !self@.contains_key(name@),
            },
    {
        match self.position(name) {
            Some(i) => {
                proof {
                    use_type_invariant(self);
                    self.lemma_slot(i as int);
                }
                Some(&self.entries[i].table)
            },
            None => None,
        }
    }

    /// The name in slot `i`, counting from 0 in order of first storing.
    pub fn name_at(&self, i: usize) -> (name: &String)
        requires
            i < self.names().len(),
        ensures
            name@ == self.names()[i as int],
            self@.contains_key(name@),
    {
        proof {
            use_type_invariant(self);
            self.lemma_slot(i as int);
        }
        &self.entries[i].name
    }

    /// The inner table in slot `i`: the one stored under the name in that slot.
    pub fn table_at(&self, i: usize) -> (table: &InnerTable)
        requires
            i < self.names().len(),
        ensures
            self@.contains_key(self.names()[i as int]),
            table@ == self@[self.names()[i as int]],
    {
        proof {
            use_type_invariant(self);
            self.lemma_slot(i as int);
        }
        &self.entries[i].table
    }
}

impl PartialEq for OuterTable {
    /// Two outer tables are equal when they hold the same names and the same rows
    /// under each, in whatever order the names were stored.
    fn eq(&self, other: &OuterTable) -> (equal: bool) {
        let n = self.len();
        let m = other.len();
        if n != m {
            return false;
        }
        let mut i: usize = 0;
        while i < n
            invariant
                i <= n,
                n == self.names().len(),
                forall|k: int|
                    0 <= k < i ==> other@.contains_key(#[trigger] self.names()[k]) && other@[self.names()[k]]
                        == self@[self.names()[k]],
            decreases n - i,
        {
            let mine = self.table_at(i);
            match other.get(self.name_at(i)) {
                None => {
                    return false;
                },
                Some(theirs) => {
                    if *mine != *theirs {
                        return false;
                    }
                },
            }
            i = i + 1;
        }
        proof {
            assert forall|name: Seq<char>| self@.contains_key(name) implies other@.contains_key(
                name,
            ) && other@[name] == self@[name] by {
                assert(self.names().to_set().contains(name));
                let k = self.names().index_of(name);
                assert(0 <= k < n && self.names()[k] == name);
            }
            assert(self@.dom().subset_of(other@.dom()));
            lemma_subset_equality(self@.dom(), other@.dom());
            assert(self@ =~= other@);
        }
        true
    }
}

impl PartialEqSpecImpl for OuterTable {
    open spec fn obeys_eq_spec() -> bool {
        true
    }

    open spec fn eq_spec(&self, other: &OuterTable) -> bool {
        self@ == other@
    }
}

impl Eq for OuterTable {

}

} // verus!
