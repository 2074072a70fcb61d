//! A fixed-capacity table of fixed-width keys and values, held in memory.
//!
//! It behaves as the pinned kernel map does towards a single client: lookup,
//! insert-or-update, delete and a scan of all live entries. The protocols of
//! the registry are written and proved against it.

use vstd::prelude::*;
use vstd::slice::slice_to_vec;

verus! {

/// One live entry of a table: a key and the value stored under it.
#[derive(Debug)]
pub struct Entry {
    pub key: Vec<u8>,
    pub value: Vec<u8>,
}

/// Why a table operation failed.
#[derive(Debug, Clone, Copy, PartialEq, Eq, Structural)]
pub enum TableError {
    /// The key does not have the table's key size.
    KeySize,
    /// The value does not have the table's value size.
    ValueSize,
    /// The key is new and the table already holds its maximum of entries.
    Full,
    /// There is no entry under the key.
    NotFound,
}

/// The contents of a table as a mathematical map from key to value.
pub type Contents = Map<Seq<u8>, Seq<u8>>;

/// The shape of a table: the lengths of its keys and values, and how many
/// entries it can hold.
pub struct Shape {
    pub key_size: nat,
    pub value_size: nat,
    pub capacity: nat,
}

/// What an insert of `key` and `value` answers on a table of the given shape
/// and contents: the key's length is looked at first, then the value's, then
/// whether a new key still fits.
pub open spec fn insert_outcome(m: Contents, shape: Shape, key: Seq<u8>, value: Seq<u8>) -> Result<
    (),
    TableError,
> {
    if key.len() != shape.key_size {
        Err(TableError::KeySize)
    } else if value.len() != shape.value_size {
        Err(TableError::ValueSize)
    } else if !m.dom().contains(key) && m.dom().len() >= shape.capacity {
        Err(TableError::Full)
    } else {
        Ok(())
    }
}

/// The map that a sequence of entries spells out; a later entry overrides an
/// earlier one under the same key.
pub open spec fn map_of(es: Seq<Entry>) -> Contents
    decreases es.len(),
{
    if es.len() == 0 {
        Map::empty()
    } else {
        map_of(es.drop_last()).insert(es.last().key@, es.last().value@)
    }
}

/// No two entries of `es` share a key.
pub open spec fn keys_distinct(es: Seq<Entry>) -> bool {
    forall|i: int, j: int| 0 <= i < j < es.len() ==> es[i].key@ != es[j].key@
}

/// Some entry of `es` has the key `k`.
pub open spec fn has_key(es: Seq<Entry>, k: Seq<u8>) -> bool {
    exists|i: int| 0 <= i < es.len() && (#[trigger] es[i]).key@ == k
}

/// `es` is a scan of `m`: it lists every entry of `m` exactly once, in some
/// order, and nothing else.
pub open spec fn is_scan_of(es: Seq<Entry>, m: Contents) -> bool {
    &&& keys_distinct(es)
    &&& forall|i: int|
        0 <= i < es.len() ==> m.dom().contains((#[trigger] es[i]).key@) && m[es[i].key@]
            == es[i].value@
    &&& forall|k: Seq<u8>| #[trigger] m.dom().contains(k) ==> has_key(es, k)
}

/// A sequence of entries with distinct keys is a scan of the map it spells
/// out, and that map has as many keys as there are entries.
pub proof fn lemma_map_of(es: Seq<Entry>)
    requires
        keys_distinct(es),
    ensures
        is_scan_of(es, map_of(es)),
        map_of(es).dom().finite(),
        map_of(es).dom().len() == es.len(),
    decreases es.len(),
{
    if es.len() > 0 {
        let front = es.drop_last();
        lemma_map_of(front);
        let m = map_of(es);
        assert(!map_of(front).dom().contains(es.last().key@)) by {
            if map_of(front).dom().contains(es.last().key@) {
                let i = choose|i: int| 0 <= i < front.len() && (#[trigger] front[i]).key@ == es.last().key@;
                assert(es[i].key@ == es[es.len() - 1].key@);
            }
        }
        assert forall|i: int| 0 <= i < es.len() implies m.dom().contains((#[trigger] es[i]).key@)
            && m[es[i].key@] == es[i].value@ by {
            if i < es.len() - 1 {
                assert(front[i] == es[i]);
            }
        }
        assert forall|k: Seq<u8>| m.dom().contains(k) implies has_key(es, k) by {
            if k == es.last().key@ {
                assert(es[es.len() - 1].key@ == k);
            } else {
                assert(has_key(front, k));
                let i = choose|i: int| 0 <= i < front.len() && (#[trigger] front[i]).key@ == k;
                assert(es[i].key@ == k);
            }
        }
    }
}

/// Whether two byte strings are equal.
pub fn bytes_eq(a: &[u8], b: &[u8]) -> (same: bool)
    ensures
        same == (a@ == b@),
{
    if a.len() != b.len() {
        return false;
    }
    let mut i: usize = 0;
    while i < a.len()
        invariant
            a.len() == b.len(),
            i <= a.len(),
            forall|j: int| 0 <= j < i ==> a@[j] == b@[j],
        decreases a.len() - i,
    {
        if a[i] != b[i] {
            return false;
        }
        i = i + 1;
    }
    assert(a@ =~= b@);
    true
}

/// A table of at most `capacity()` entries whose keys are `key_size()` and
/// whose values are `value_size()` bytes long.
pub struct Table {
    key_size: usize,
    value_size: usize,
    max_entries: usize,
    entries: Vec<Entry>,
}

impl View for Table {
    type V = Contents;

    closed spec fn view(&self) -> Contents {
        map_of(self.entries@)
    }
}

impl Table {
    /// The length that every key of this table has.
    pub closed spec fn key_size(&self) -> nat {
        self.key_size as nat
    }

    /// The length that every value of this table has.
    pub closed spec fn value_size(&self) -> nat {
        self.value_size as nat
    }

    /// The number of entries that this table can hold.
    pub closed spec fn capacity(&self) -> nat {
        self.max_entries as nat
    }

    /// The table's shape.
    pub open spec fn shape(&self) -> Shape {
        Shape {
            key_size: self.key_size(),
            value_size: self.value_size(),
            capacity: self.capacity(),
        }
    }

    /// The table's invariant: distinct keys, all of the table's key size,
    /// values of the table's value size, and no more entries than fit.
    pub closed spec fn wf(&self) -> bool {
        &&& keys_distinct(self.entries@)
        &&& self.entries@.len() <= self.max_entries
        &&& forall|i: int|
            0 <= i < self.entries@.len() ==> (#[trigger] self.entries@[i]).key@.len()
                == self.key_size && self.entries@[i].value@.len() == self.value_size
    }

    /// What the invariant means for the table's contents.
    pub proof fn lemma_wf(&self)
        requires
            self.wf(),
        ensures
            self@.dom().finite(),
            self@.dom().len() <= self.capacity(),
            forall|k: Seq<u8>| #[trigger]
                self@.dom().contains(k) ==> k.len() == self.key_size() && self@[k].len()
                    == self.value_size(),
    {
        lemma_map_of(self.entries@);
        assert forall|k: Seq<u8>| #[trigger] self@.dom().contains(k) implies k.len()
            == self.key_size() && self@[k].len() == self.value_size() by {
            let i = choose|i: int|
                0 <= i < self.entries@.len() && (#[trigger] self.entries@[i]).key@ == k;
            assert(self@[self.entries@[i].key@] == self.entries@[i].value@);
        }
    }

    /// An empty table of the given shape.
    pub fn new(key_size: usize, value_size: usize, max_entries: usize) -> (table: Table)
        ensures
            table.wf(),
            table@ == Contents::empty(),
            table.key_size() == key_size,
            table.value_size() == value_size,
            table.capacity() == max_entries,
    {
        Table { key_size, value_size, max_entries, entries: Vec::new() }
    }

    /// The length of this table's keys.
    pub fn key_len(&self) -> (n: usize)
        ensures
            n == self.key_size(),
    {
        self.key_size
    }

    /// The length of this table's values.
    pub fn value_len(&self) -> (n: usize)
        ensures
            n == self.value_size(),
    {
        self.value_size
    }

    /// The number of entries this table can hold.
    pub fn max_entries(&self) -> (n: usize)
        ensures
            n == self.capacity(),
    {
        self.max_entries
    }

    /// The number of live entries.
    pub fn len(&self) -> (n: usize)
        requires
            self.wf(),
        ensures
            n == self@.dom().len(),
    {
        proof {
            lemma_map_of(self.entries@);
        }
        self.entries.len()
    }

    fn position(&self, key: &[u8]) -> (at: Option<usize>)
        requires
            self.wf(),
        ensures
            match at {
                Some(i) => i < self.entries@.len() && self.entries@[i as int].key@ == key@,
                None => !has_key(self.entries@, key@),
            },
    {
        let mut i: usize = 0;
        while i < self.entries.len()
            invariant
                i <= self.entries@.len(),
                forall|j: int| 0 <= j < i ==> (#[trigger] self.entries@[j]).key@ != key@,
            decreases self.entries@.len() - i,
        {
            if bytes_eq(self.entries[i].key.as_slice(), key) {
                return Some(i);
            }
            i = i + 1;
        }
        None
    }

    /// The value stored under `key`, if there is one.
    pub fn lookup(&self, key: &[u8]) -> (found: Option<Vec<u8>>)
        requires
            self.wf(),
        ensures
            match found {
                Some(value) => self@.dom().contains(key@) && value@ == self@[key@],
                None => !self@.dom().contains(key@),
            },
    {
        proof {
            lemma_map_of(self.entries@);
        }
        match self.position(key) {
            Some(i) => {
                assert(self@.dom().contains(self.entries@[i as int].key@));
                Some(slice_to_vec(self.entries[i].value.as_slice()))
            },
            None => None,
        }
    }

    /// Stores `value` under `key`, creating the entry or overwriting it.
    ///
    /// Fails, leaving the table as it was, when the key or the value has the
    /// wrong length (the key is looked at first), or when the key is new and
    /// the table is full.
    pub fn insert(&mut self, key: &[u8], value: &[u8]) -> (r: Result<(), TableError>)
        requires
            old(self).wf(),
        ensures
            final(self).wf(),
            final(self).shape() == old(self).shape(),
            r == insert_outcome(old(self)@, old(self).shape(), key@, value@),
            r is Ok ==> final(self)@ == old(self)@.insert(key@, value@),
            r is Err ==> final(self)@ == old(self)@,
    {
        proof {
            lemma_map_of(self.entries@);
        }
        if key.len() != self.key_size {
            return Err(TableError::KeySize);
        }
        if value.len() != self.value_size {
            return Err(TableError::ValueSize);
        }
        let entry = Entry { key: slice_to_vec(key), value: slice_to_vec(value) };
        let ghost before = self.entries@;
        match self.position(key) {
            Some(i) => {
                assert(self@.dom().contains(before[i as int].key@));
                self.entries.set(i, entry);
                proof {
                    let after = self.entries@;
                    assert(keys_distinct(after)) by {
                        assert forall|a: int, b: int| 0 <= a < b < after.len() implies after[a].key@
                            != after[b].key@ by {
                            assert(after[a].key@ == before[a].key@);
                            assert(after[b].key@ == before[b].key@);
                        }
                    }
                    lemma_map_of(after);
                    let target = map_of(before).insert(key@, value@);
                    assert forall|k: Seq<u8>| #[trigger] map_of(after).dom().contains(k) implies target.dom().contains(k) by {
                        let j = choose|j: int| 0 <= j < after.len() && (#[trigger] after[j]).key@ == k;
                        assert(before[j].key@ == after[j].key@);
                        assert(map_of(before).dom().contains(before[j].key@));
                    }
                    assert forall|k: Seq<u8>| #[trigger] target.dom().contains(k) implies map_of(after).dom().contains(k)
                        && map_of(after)[k] == target[k] by {
                        if k == key@ {
                            assert(map_of(after).dom().contains(after[i as int].key@));
                        } else {
                            let j = choose|j: int| 0 <= j < before.len() && (#[trigger] before[j]).key@ == k;
                            assert(after[j] == before[j]);
                            assert(map_of(after).dom().contains(after[j].key@));
                            assert(map_of(before).dom().contains(before[j].key@));
                        }
                    }
                    assert(map_of(after) =~= target);
                }
                Ok(())
            },
            None => {
                if self.entries.len() >= self.max_entries {
                    return Err(TableError::Full);
                }
                self.entries.push(entry);
                proof {
                    let after = self.entries@;
                    assert(after.drop_last() =~= before);
                    assert(keys_distinct(after)) by {
                        assert forall|a: int, b: int| 0 <= a < b < after.len() implies after[a].key@
                            != after[b].key@ by {
                            if b == after.len() - 1 {
                                assert(before[a].key@ != key@);
                            }
                        }
                    }
                }
                Ok(())
            },
        }
    }

    /// Removes the entry under `key`. Fails, leaving the table as it was,
    /// exactly when there is no such entry.
    pub fn delete(&mut self, key: &[u8]) -> (r: Result<(), TableError>)
        requires
            old(self).wf(),
        ensures
            final(self).wf(),
            final(self).shape() == old(self).shape(),
            old(self)@.dom().contains(key@) ==> r == Ok::<(), TableError>(()) && final(self)@
                == old(self)@.remove(key@),
            !old(self)@.dom().contains(key@) ==> r == Err::<(), TableError>(TableError::NotFound)
                && final(self)@ == old(self)@,
    {
        proof {
            lemma_map_of(self.entries@);
        }
        let ghost before = self.entries@;
        match self.position(key) {
            Some(i) => {
                assert(self@.dom().contains(before[i as int].key@));
                let _ = self.entries.remove(i);
                proof {
                    let after = self.entries@;
                    assert(after == before.remove(i as int));
                    assert forall|a: int| 0 <= a < after.len() implies #[trigger] after[a] == before[if a
                        < i {
                        a
                    } else {
                        a + 1
                    }] by {}
                    assert(keys_distinct(after));
                    lemma_map_of(after);
                    let target = map_of(before).remove(key@);
                    assert forall|k: Seq<u8>| #[trigger] map_of(after).dom().contains(k) implies target.dom().contains(k)
                        && map_of(after)[k] == target[k] by {
                        let j = choose|j: int| 0 <= j < after.len() && (#[trigger] after[j]).key@ == k;
                        let jj = if j < i { j } else { j + 1 };
                        assert(after[j] == before[jj]);
                        assert(map_of(before).dom().contains(before[jj].key@));
                        assert(map_of(after).dom().contains(after[j].key@));
                    }
                    assert forall|k: Seq<u8>| #[trigger] target.dom().contains(k) implies map_of(after).dom().contains(k) by {
                        let j = choose|j: int| 0 <= j < before.len() && (#[trigger] before[j]).key@ == k;
                        let jj = if j < i { j } else { j - 1 };
                        assert(after[jj] == before[j]);
                        assert(map_of(after).dom().contains(after[jj].key@));
                    }
                    assert(map_of(after) =~= target);
                }
                Ok(())
            },
            None => Err(TableError::NotFound),
        }
    }

    /// All live entries, each exactly once, in the table's own order.
    pub fn entries(&self) -> (scan: Vec<Entry>)
        requires
            self.wf(),
        ensures
            is_scan_of(scan@, self@),
            scan@.len() == self@.dom().len(),
    {
        proof {
            lemma_map_of(self.entries@);
        }
        let mut scan: Vec<Entry> = Vec::new();
        let mut i: usize = 0;
        while i < self.entries.len()
            invariant
                i <= self.entries@.len(),
                scan@.len() == i,
                forall|j: int|
                    0 <= j < i ==> (#[trigger] scan@[j]).key@ == self.entries@[j].key@ && scan@[j].value@
                        == self.entries@[j].value@,
            decreases self.entries@.len() - i,
        {
            let entry = Entry {
                key: slice_to_vec(self.entries[i].key.as_slice()),
                value: slice_to_vec(self.entries[i].value.as_slice()),
            };
            scan.push(entry);
            i = i + 1;
        }
        proof {
            let es = self.entries@;
            assert forall|k: Seq<u8>| self@.dom().contains(k) implies has_key(scan@, k) by {
                let j = choose|j: int| 0 <= j < es.len() && (#[trigger] es[j]).key@ == k;
                assert(scan@[j].key@ == k);
            }
            assert forall|j: int| 0 <= j < scan@.len() implies self@.dom().contains(
                (#[trigger] scan@[j]).key@,
            ) && self@[scan@[j].key@] == scan@[j].value@ by {
                assert(self@.dom().contains(es[j].key@));
            }
        }
        scan
    }
}

} // verus!
