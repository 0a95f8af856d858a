//! The index: the ordered list of staged files.

use vstd::prelude::*;
use crate::object::BlobHash;
use crate::object::pairs_view;

verus! {

/// What an [`Entry`] holds, as plain values.
pub struct EntryModel {
    pub file_name: Seq<char>,
    pub blob_hash: Seq<u8>,
}

/// One staged file: its path and the hash of the blob of its content.
#[derive(Debug)]
pub struct Entry {
    pub file_name: String,
    pub blob_hash: BlobHash,
}

impl View for Entry {
    type V = EntryModel;

    open spec fn view(&self) -> EntryModel {
        EntryModel { file_name: self.file_name@, blob_hash: self.blob_hash@ }
    }
}

impl Clone for Entry {
    fn clone(&self) -> (r: Self)
        ensures
            r@ == self@,
    {
        Entry { file_name: self.file_name.clone(), blob_hash: self.blob_hash.clone() }
    }
}

/// The plain values of a list of entries.
pub open spec fn entries_view(entries: Seq<Entry>) -> Seq<EntryModel> {
    entries.map_values(|e: Entry| e@)
}

/// The `(path, hash)` pairs of a list of entries, in order.
pub open spec fn entry_pairs(entries: Seq<EntryModel>) -> Seq<(Seq<char>, Seq<u8>)> {
    entries.map_values(|e: EntryModel| (e.file_name, e.blob_hash))
}

/// The staged files, in the order in which they were added. A path that is
/// added again is listed again.
#[derive(Debug)]
pub struct Index {
    pub entries: Vec<Entry>,
}

impl View for Index {
    type V = Seq<EntryModel>;

    open spec fn view(&self) -> Seq<EntryModel> {
        entries_view(self.entries@)
    }
}

impl Default for Index {
    fn default() -> (r: Self)
        ensures
            r@ == Seq::<EntryModel>::empty(),
    {
        let r = Index { entries: Vec::new() };
        assert(r@ =~= Seq::<EntryModel>::empty());
        r
    }
}

impl Clone for Index {
    fn clone(&self) -> (r: Self)
        ensures
            r@ == self@,
    {
        let mut entries: Vec<Entry> = Vec::new();
        let mut i: usize = 0;
        while i < self.entries.len()
            invariant
                i <= self.entries.len(),
                entries_view(entries@) == self@.take(i as int),
            decreases self.entries.len() - i,
        {
            let ghost copied = entries_view(entries@);
            entries.push(self.entries[i].clone());
            i += 1;
            assert(entries_view(entries@) =~= copied.push(self.entries@[i - 1]@));
            assert(entries_view(entries@) =~= self@.take(i as int));
        }
        assert(self@.take(self.entries.len() as int) =~= self@);
        Index { entries }
    }
}

impl Index {
    /// The index with no entry.
    pub fn new() -> (r: Self)
        ensures
            r@ == Seq::<EntryModel>::empty(),
    {
        let r = Index { entries: Vec::new() };
        assert(r@ =~= Seq::<EntryModel>::empty());
        r
    }

    /// The number of entries.
    pub fn len(&self) -> (n: usize)
        ensures
            n == self@.len(),
    {
        self.entries.len()
    }

    /// Adds `entry` at the end, whatever is listed already.
    pub fn append(&mut self, entry: Entry)
        ensures
            final(self)@ == old(self)@.push(entry@),
            final(self).entries@ == old(self).entries@.push(entry),
    {
        self.entries.push(entry);
        assert(self@ =~= old(self)@.push(entry@));
    }

    /// The `(path, hash)` pairs of the entries, in order.
    pub fn pairs(&self) -> (r: Vec<(String, crate::object::Hash)>)
        ensures
            pairs_view(r@) == entry_pairs(self@),
    {
        let mut r: Vec<(String, crate::object::Hash)> = Vec::new();
        let mut i: usize = 0;
        while i < self.entries.len()
            invariant
                i <= self.entries.len(),
                pairs_view(r@) == entry_pairs(self@.take(i as int)),
            decreases self.entries.len() - i,
        {
            let ghost done = pairs_view(r@);
            let name = self.entries[i].file_name.clone();
            let hash = self.entries[i].blob_hash.0.clone();
            r.push((name, hash));
            i += 1;
            assert(pairs_view(r@) =~= done.push((name@, hash@)));
            assert(pairs_view(r@) =~= entry_pairs(self@.take(i as int)));
        }
        assert(self@.take(self.entries.len() as int) =~= self@);
        r
    }
}

/// A file to stage: its path and its content.
#[derive(Debug)]
pub struct Content {
    pub file_name: String,
    pub content: String,
}

impl Content {
    /// The file `file_name` with the content `content`.
    pub fn new(file_name: String, content: String) -> (r: Self)
        ensures
            r.file_name@ == file_name@,
            r.content@ == content@,
    {
        Self { file_name, content }
    }
}

} // verus!
