//! A simple in-memory chunk store: the smallest storage collaborator, used
//! by the examples and the tests.

use vstd::prelude::*;
use crate::storage::{Storage, StorageError};

verus! {

/// The error a `SimpleStorage` operation reports: only a missing chunk.
#[derive(Debug, Clone)]
pub struct SimpleStorageError {}


impl StorageError for SimpleStorageError {}

impl SimpleStorageError {
    /// A short description of the error, in place of a `Display` rendering.
    pub fn description(&self) -> (r: &'static str)
        ensures
            r@ == "Failed to get data from SimpleStorage"@,
    {
        "Failed to get data from SimpleStorage"
    }
}

#[derive(Debug)]
struct Entry {
    name: Vec<u8>,
    data: Vec<u8>,
}

/// An in-memory key/value store backed by a vector of entries with unique
/// names.
///
/// This store deliberately behaves as a map, diverging from an append-only
/// log: `put` under an existing name replaces that entry in place of adding
/// a second one, so `get` returns the latest data and `num_entries` counts
/// distinct names.  The engine requires exactly this — a close re-`put`s the
/// names of unchanged chunks, and a later `get` must see the chunk that was
/// stored, not an older entry that happened to share the name.
#[derive(Debug)]
pub struct SimpleStorage {
    entries: Vec<Entry>,
}

/// The map that a sequence of entries with unique names represents.
spec fn entries_map(entries: Seq<Entry>) -> Map<Seq<u8>, Seq<u8>>
    decreases entries.len(),
{
    if entries.len() == 0 {
        Map::empty()
    } else {
        entries_map(entries.drop_last()).insert(
            entries.last().name@,
            entries.last().data@,
        )
    }
}

/// No two entries share a name.
spec fn names_unique(entries: Seq<Entry>) -> bool {
    forall|i: int, j: int| 0 <= i < j < entries.len()
        ==> (#[trigger] entries[i]).name@ != (#[trigger] entries[j]).name@
}

/// Membership in `entries_map` is membership among the entries, and under
/// unique names the data found for a name is the data of its entry.
proof fn lemma_entries_map(entries: Seq<Entry>, name: Seq<u8>)
    ensures
        entries_map(entries).contains_key(name)
            <==> exists|i: int| 0 <= i < entries.len()
                && (#[trigger] entries[i]).name@ == name,
        forall|i: int| 0 <= i < entries.len() && (#[trigger] entries[i]).name@ == name
            && (forall|j: int| i < j < entries.len()
                ==> (#[trigger] entries[j]).name@ != name)
            ==> entries_map(entries)[name] == entries[i].data@,
    decreases entries.len(),
{
    if entries.len() > 0 {
        lemma_entries_map(entries.drop_last(), name);
        assert(forall|i: int| 0 <= i < entries.len() - 1
            ==> (#[trigger] entries[i]) == entries.drop_last()[i]);
    }
}

/// With unique names, the map holds exactly one key per entry.
proof fn lemma_entries_map_len(entries: Seq<Entry>)
    requires
        names_unique(entries),
    ensures
        entries_map(entries).len() == entries.len(),
        entries_map(entries).dom().finite(),
    decreases entries.len(),
{
    if entries.len() > 0 {
        let prefix = entries.drop_last();
        assert(forall|i: int| 0 <= i < prefix.len()
            ==> (#[trigger] prefix[i]) == entries[i]);
        lemma_entries_map_len(prefix);
        lemma_entries_map(prefix, entries.last().name@);
        assert(!entries_map(prefix).contains_key(entries.last().name@));
    }
}

/// Removing the one entry that bears a name takes exactly that name out of
/// the map.
proof fn lemma_entries_map_remove(entries: Seq<Entry>, i: int)
    requires
        names_unique(entries),
        0 <= i < entries.len(),
    ensures
        entries_map(entries.remove(i)) == entries_map(entries).remove(entries[i].name@),
    decreases entries.len(),
{
    let name = entries[i].name@;
    let prefix = entries.drop_last();
    assert(forall|k: int| 0 <= k < prefix.len()
        ==> (#[trigger] prefix[k]) == entries[k]);
    if i == entries.len() - 1 {
        assert(entries.remove(i) =~= prefix);
        lemma_entries_map(prefix, name);
        assert(!entries_map(prefix).contains_key(name));
        assert(entries_map(prefix) =~= entries_map(entries).remove(name));
    } else {
        assert(entries.remove(i).drop_last() =~= prefix.remove(i));
        assert(entries.remove(i).last() == entries.last());
        lemma_entries_map_remove(prefix, i);
        assert(entries_map(entries.remove(i))
            == entries_map(prefix).remove(name).insert(
                entries.last().name@,
                entries.last().data@,
            ));
        assert(entries.last().name@ != name);
        assert(entries_map(prefix).remove(name).insert(
            entries.last().name@,
            entries.last().data@,
        ) =~= entries_map(entries).remove(name));
    }
}

impl SimpleStorage {
    /// The names of the entries never repeat, so the vector and the map it
    /// represents stay in step.
    #[verifier::type_invariant]
    spec fn wf(&self) -> bool {
        names_unique(self.entries@)
    }

    /// Create an empty store.
    pub fn new() -> (r: SimpleStorage)
        ensures
            r.contents() == Map::<Seq<u8>, Seq<u8>>::empty(),
    {
        SimpleStorage { entries: Vec::new() }
    }

    /// Whether a chunk is stored under `name`.
    pub fn has_chunk(&self, name: &[u8]) -> (r: bool)
        ensures
            r == self.contents().contains_key(name@),
    {
        self.find(name).is_some()
    }

    /// How many chunks the store holds.
    pub fn num_entries(&self) -> (r: usize)
        ensures
            r == self.contents().len(),
    {
        proof {
            use_type_invariant(self);
            lemma_entries_map_len(self.entries@);
        }
        self.entries.len()
    }

    /// Find the index of the entry bearing `name`, if one does.
    fn find(&self, name: &[u8]) -> (r: Option<usize>)
        ensures
            r matches Some(i) ==> i < self.entries@.len()
                && self.entries@[i as int].name@ == name@
                && self.contents().contains_key(name@)
                && self.contents()[name@] == self.entries@[i as int].data@,
            r is None ==> !self.contents().contains_key(name@),
    {
        proof {
            use_type_invariant(self);
            lemma_entries_map(self.entries@, name@);
        }
        let mut i: usize = 0;
        while i < self.entries.len()
            invariant
                0 <= i <= self.entries@.len(),
                forall|j: int| 0 <= j < i ==> (#[trigger] self.entries@[j]).name@ != name@,
            decreases self.entries@.len() - i,
        {
            if compare_bytes(self.entries[i].name.as_slice(), name) {
                proof {
                    use_type_invariant(self);
                    lemma_entries_map(self.entries@, name@);
                    assert forall|j: int| i < j < self.entries@.len()
                        implies (#[trigger] self.entries@[j]).name@ != name@ by {
                        assert(self.entries@[i as int].name@ == name@);
                    }
                    assert(self.contents().contains_key(name@)) by {
                        assert(self.entries@[i as int].name@ == name@);
                    }
                    assert(self.contents()[name@] == self.entries@[i as int].data@);
                }
                return Some(i);
            }
            i = i + 1;
        }
        None
    }
}

/// Whether two byte strings hold the same bytes.
fn compare_bytes(a: &[u8], b: &[u8]) -> (r: bool)
    ensures
        r == (a@ == b@),
{
    if a.len() != b.len() {
        return false;
    }
    let mut i: usize = 0;
    while i < a.len()
        invariant
            0 <= i <= a@.len(),
            a@.len() == b@.len(),
            forall|j: int| 0 <= j < i ==> a@[j] == b@[j],
        decreases a@.len() - i,
    {
        if a[i] != b[i] {
            return false;
        }
        i = i + 1;
    }
    proof {
        assert(a@ =~= b@);
    }
    true
}

impl Storage<SimpleStorageError> for SimpleStorage {
    closed spec fn contents(&self) -> Map<Seq<u8>, Seq<u8>> {
        entries_map(self.entries@)
    }

    fn get(&self, name: &[u8]) -> (r: Result<Vec<u8>, SimpleStorageError>)
        ensures
            r is Ok <==> self.contents().contains_key(name@),
    {
        match self.find(name) {
            Some(i) => Ok(self.entries[i].data.clone()),
            None => Err(SimpleStorageError {}),
        }
    }

    fn put(&mut self, name: Vec<u8>, data: Vec<u8>) -> (r: Result<(), SimpleStorageError>)
        ensures
            r is Ok,
    {
        proof {
            use_type_invariant(&*self);
        }
        let ghost entries0 = self.entries@;
        let found = self.find(name.as_slice());
        let mut entries: Vec<Entry> = Vec::new();
        core::mem::swap(&mut self.entries, &mut entries);
        match found {
            Some(i) => {
                proof {
                    lemma_entries_map_remove(entries0, i as int);
                }
                let _ = entries.remove(i);
                let ghost removed = entries@;
                proof {
                    assert forall|a: int, b: int| 0 <= a < b < removed.len()
                        implies (#[trigger] removed[a]).name@ != (#[trigger] removed[b]).name@ by {
                        if b < i {
                            assert(removed[a] == entries0[a] && removed[b] == entries0[b]);
                        } else if a < i {
                            assert(removed[a] == entries0[a] && removed[b] == entries0[b + 1]);
                        } else {
                            assert(removed[a] == entries0[a + 1] && removed[b] == entries0[b + 1]);
                        }
                    }
                    lemma_entries_map(removed, name@);
                }
                entries.push(Entry { name, data });
                proof {
                    assert(entries@.drop_last() == removed);
                    assert(entries_map(entries@) =~= entries_map(entries0).insert(name@, data@));
                }
            },
            None => {
                proof {
                    lemma_entries_map(entries0, name@);
                }
                entries.push(Entry { name, data });
                proof {
                    assert(entries@.drop_last() == entries0);
                }
            },
        }
        core::mem::swap(&mut self.entries, &mut entries);
        Ok(())
    }

    fn delete(&mut self, name: &[u8]) -> (r: Result<(), SimpleStorageError>)
        ensures
            r is Ok,
    {
        proof {
            use_type_invariant(&*self);
        }
        let ghost entries0 = self.entries@;
        let found = self.find(name);
        match found {
            Some(i) => {
                proof {
                    lemma_entries_map_remove(entries0, i as int);
                }
                let mut entries: Vec<Entry> = Vec::new();
                core::mem::swap(&mut self.entries, &mut entries);
                let _ = entries.remove(i);
                proof {
                    let removed = entries@;
                    assert forall|a: int, b: int| 0 <= a < b < removed.len()
                        implies (#[trigger] removed[a]).name@ != (#[trigger] removed[b]).name@ by {
                        if b < i {
                            assert(removed[a] == entries0[a] && removed[b] == entries0[b]);
                        } else if a < i {
                            assert(removed[a] == entries0[a] && removed[b] == entries0[b + 1]);
                        } else {
                            assert(removed[a] == entries0[a + 1] && removed[b] == entries0[b + 1]);
                        }
                    }
                }
                core::mem::swap(&mut self.entries, &mut entries);
                Ok(())
            },
            None => {
                proof {
                    lemma_entries_map(entries0, name@);
                    assert(entries_map(entries0) =~= entries_map(entries0).remove(name@));
                }
                Ok(())
            },
        }
    }
}

} // verus!
