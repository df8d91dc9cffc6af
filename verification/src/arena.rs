//! An append-only arena addressed by index, such as the materials or the
//! textures of a scene. Index 0 holds the default entry it was created with,
//! so every arena has at least one entry.

use vstd::prelude::*;

verus! {

/// Entries addressed by the index at which they were added: the default entry
/// at index 0, then the added ones.
pub struct Arena<T> {
    default_entry: T,
    added: Vec<T>,
}

impl<T> Arena<T> {
    /// The entries, in index order.
    pub closed spec fn entries(self) -> Seq<T> {
        seq![self.default_entry] + self.added@
    }

    /// An arena that holds only `default_entry`, at index 0.
    pub fn with_default(default_entry: T) -> (arena: Arena<T>)
        ensures
            arena.entries() == seq![default_entry],
    {
        let arena = Arena { default_entry, added: Vec::new() };
        assert(arena.entries() =~= seq![default_entry]);
        arena
    }

    /// Appends `entry` and returns the index at which it now stands; the
    /// entries already stored keep their indices and values.
    pub fn add(&mut self, entry: T) -> (index: usize)
        ensures
            final(self).entries() == old(self).entries().push(entry),
            index == old(self).entries().len(),
            index >= 1,
    {
        self.added.push(entry);
        proof {
            assert(self.entries() =~= old(self).entries().push(entry));
        }
        self.added.len()
    }

    /// The number of entries, at least one.
    pub fn len(&self) -> (n: usize)
        requires
            self.entries().len() <= usize::MAX,
        ensures
            n == self.entries().len(),
            n >= 1,
    {
        self.added.len() + 1
    }

    /// The entry at `index`, which must exist.
    pub fn get(&self, index: usize) -> (entry: &T)
        requires
            index < self.entries().len(),
        ensures
            *entry == self.entries()[index as int],
    {
        if index == 0 {
            &self.default_entry
        } else {
            &self.added[index - 1]
        }
    }
}

/// Reading back what was added: the entry at the index that `add` returned
/// is the entry added, and every earlier entry reads back unchanged.
pub proof fn lemma_arena_read_after_add<T>(before: Arena<T>, after: Arena<T>, added: T)
    requires
        after.entries() == before.entries().push(added),
    ensures
        after.entries().len() == before.entries().len() + 1,
        after.entries()[before.entries().len() as int] == added,
        forall|j: int|
            0 <= j < before.entries().len() ==> #[trigger] after.entries()[j] == before.entries()[j],
{
}

} // verus!
