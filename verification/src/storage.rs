//! Storage held in memory: the objects in the order in which they were
//! stored, the index, and the head.

use vstd::prelude::*;
use crate::fs::FileSystem;
use crate::index::Content;
use crate::index::Entry;
use crate::index::EntryModel;
use crate::index::Index;
use crate::object::blob_of;
use crate::object::option_hash_view;
use crate::object::BlobHash;
use crate::object::Object;
use crate::object::ObjectModel;
use crate::runner::commit_for;
use crate::runner::staged;
use crate::runner::tree_for;

verus! {

/// The plain values of a list of objects.
pub open spec fn objects_view(objects: Seq<Object>) -> Seq<ObjectModel> {
    objects.map_values(|o: Object| o@)
}

/// The blobs of the contents of `contents`, in order.
pub open spec fn blobs_of(contents: Seq<Content>) -> Seq<ObjectModel> {
    contents.map_values(|c: Content| blob_of(c.content@))
}

/// The entries that stage `contents`, in order.
pub open spec fn entries_of(contents: Seq<Content>) -> Seq<EntryModel> {
    contents.map_values(|c: Content| staged(c.file_name@, c.content@))
}

/// What a storage offers: an index to stage entries in, and a list of
/// objects, each stored under the hash that it carries.
pub trait Storage {
    /// The entries of the index.
    spec fn staged_entries(&self) -> Seq<EntryModel>;

    /// The objects, in the order in which they were stored.
    spec fn stored_objects(&self) -> Seq<ObjectModel>;

    /// The index.
    fn index(&self) -> (r: &Index)
        ensures
            r@ == self.staged_entries(),
    ;

    /// The objects.
    fn objects(&self) -> (r: &Vec<Object>)
        ensures
            objects_view(r@) == self.stored_objects(),
    ;

    /// Puts what `modifier` makes of the index in the place of the index.
    fn modify_index<M: FnOnce(Index) -> Index>(&mut self, modifier: M)
        requires
            forall|index: Index|
                index@ == old(self).staged_entries() ==> modifier.requires((index,)),
        ensures
            exists|before: Index, after: Index|
                before@ == old(self).staged_entries() && modifier.ensures((before,), after)
                    && final(self).staged_entries() == after@,
            final(self).stored_objects() == old(self).stored_objects(),
    ;

    /// Adds `entry` at the end of the index.
    fn add_entry(&mut self, entry: Entry)
        ensures
            final(self).staged_entries() == old(self).staged_entries().push(entry@),
            final(self).stored_objects() == old(self).stored_objects(),
    ;

    /// Stores `object` and gives its hash.
    fn hash_object(&mut self, object: Object) -> (h: crate::object::Hash)
        ensures
            h@ == object@.hash(),
            final(self).stored_objects() == old(self).stored_objects().push(object@),
            final(self).staged_entries() == old(self).staged_entries(),
    ;

    /// Stages `content`: stores the blob of its content and adds its entry
    /// at the end of the index.
    fn update_index(&mut self, content: Content)
        ensures
            final(self).stored_objects() == old(self).stored_objects().push(
                blob_of(content.content@),
            ),
            final(self).staged_entries() == old(self).staged_entries().push(
                staged(content.file_name@, content.content@),
            ),
    ;
}

/// A storage in memory beside the file system that it will be written to.
pub struct JsonStorage<F: FileSystem> {
    pub index: Index,
    pub objects: Vec<Object>,
    pub fs: F,
}

impl<F: FileSystem> JsonStorage<F> {
    /// The empty storage beside `fs`.
    pub fn new(fs: F) -> (r: Self)
        ensures
            r.fs == fs,
            r.staged_entries() == Seq::<EntryModel>::empty(),
            r.stored_objects() == Seq::<ObjectModel>::empty(),
    {
        let r = Self { index: Index::new(), objects: Vec::new(), fs };
        assert(r.stored_objects() =~= Seq::<ObjectModel>::empty());
        r
    }
}

impl<F: FileSystem> Storage for JsonStorage<F> {
    open spec fn staged_entries(&self) -> Seq<EntryModel> {
        self.index@
    }

    open spec fn stored_objects(&self) -> Seq<ObjectModel> {
        objects_view(self.objects@)
    }

    fn index(&self) -> (r: &Index) {
        &self.index
    }

    fn objects(&self) -> (r: &Vec<Object>) {
        &self.objects
    }

    fn modify_index<M: FnOnce(Index) -> Index>(&mut self, modifier: M) {
        let mut taken = Index::new();
        std::mem::swap(&mut self.index, &mut taken);
        self.index = modifier(taken);
    }

    fn add_entry(&mut self, entry: Entry) {
        self.index.append(entry);
    }

    fn hash_object(&mut self, object: Object) -> (h: crate::object::Hash) {
        let hash = object.hash();
        self.objects.push(object);
        assert(self.stored_objects() =~= old(self).stored_objects().push(object@));
        hash
    }

    fn update_index(&mut self, content: Content) {
        let Content { file_name, content } = content;
        let hash = self.hash_object(Object::blob(content));
        self.index.append(Entry { file_name, blob_hash: BlobHash(hash) });
    }
}

/// A snapshot of a repository: its index and its objects.
#[derive(Debug)]
pub struct G1t {
    pub index: Index,
    pub objects: Vec<Object>,
}

/// The storage of a repository held in memory.
#[derive(Debug)]
pub struct AbsStorage {
    pub objects: Vec<Object>,
    pub index: Index,
    pub head: Option<crate::object::Hash>,
}

impl AbsStorage {
    /// The storage with no object, no entry and no head.
    pub fn new() -> (r: Self)
        ensures
            objects_view(r.objects@) == Seq::<ObjectModel>::empty(),
            r.index@ == Seq::<EntryModel>::empty(),
            r.head is None,
    {
        let r = Self { objects: Vec::new(), index: Index::new(), head: None };
        assert(objects_view(r.objects@) =~= Seq::<ObjectModel>::empty());
        r
    }

    /// Stores `object` and gives its hash.
    pub fn hash_object(&mut self, object: Object) -> (h: crate::object::Hash)
        ensures
            h@ == object@.hash(),
            objects_view(final(self).objects@) == objects_view(old(self).objects@).push(object@),
            final(self).index == old(self).index,
            final(self).head == old(self).head,
    {
        let hash = object.hash();
        self.objects.push(object);
        assert(objects_view(self.objects@) =~= objects_view(old(self).objects@).push(object@));
        hash
    }

    /// Stages every file of `contents`, in order: stores the blob of its
    /// content and adds its entry at the end of the index.
    pub fn update_index(&mut self, contents: Vec<Content>)
        ensures
            objects_view(final(self).objects@) == objects_view(old(self).objects@) + blobs_of(
                contents@,
            ),
            final(self).index@ == old(self).index@ + entries_of(contents@),
            final(self).head == old(self).head,
    {
        let mut i: usize = 0;
        assert(blobs_of(contents@.take(0)) =~= Seq::<ObjectModel>::empty());
        assert(entries_of(contents@.take(0)) =~= Seq::<EntryModel>::empty());
        assert(objects_view(self.objects@) =~= objects_view(old(self).objects@) + blobs_of(
            contents@.take(0),
        ));
        assert(self.index@ =~= old(self).index@ + entries_of(contents@.take(0)));
        while i < contents.len()
            invariant
                i <= contents.len(),
                objects_view(self.objects@) == objects_view(old(self).objects@) + blobs_of(
                    contents@.take(i as int),
                ),
                self.index@ == old(self).index@ + entries_of(contents@.take(i as int)),
                self.head == old(self).head,
            decreases contents.len() - i,
        {
            let file_name = contents[i].file_name.clone();
            let content = contents[i].content.clone();
            let hash = self.hash_object(Object::blob(content));
            self.index.append(Entry { file_name, blob_hash: BlobHash(hash) });
            proof {
                let next = contents@.take(i + 1);
                assert(next.drop_last() =~= contents@.take(i as int));
                assert(blobs_of(next) =~= blobs_of(contents@.take(i as int)).push(
                    blob_of(contents@[i as int].content@),
                ));
                assert(entries_of(next) =~= entries_of(contents@.take(i as int)).push(
                    staged(contents@[i as int].file_name@, contents@[i as int].content@),
                ));
                assert(objects_view(self.objects@) =~= objects_view(old(self).objects@)
                    + blobs_of(next));
                assert(self.index@ =~= old(self).index@ + entries_of(next));
            }
            i += 1;
        }
        assert(contents@.take(contents.len() as int) =~= contents@);
    }

    /// Records the staged entries under `message`: stores the tree of the
    /// entries, then the commit that points to the tree and to the head,
    /// and makes that commit the head. The index stays as it is.
    pub fn commit(&mut self, message: String)
        ensures
            objects_view(final(self).objects@) == objects_view(old(self).objects@).push(
                tree_for(old(self).index@),
            ).push(commit_for(old(self).index@, message@, option_hash_view(old(self).head))),
            option_hash_view(final(self).head) == Some(
                commit_for(old(self).index@, message@, option_hash_view(old(self).head)).hash(),
            ),
            final(self).index == old(self).index,
    {
        let tree = Object::tree(self.index.pairs());
        let tree_hash = self.hash_object(tree);
        let parent = match &self.head {
            Some(head) => Some(head.clone()),
            None => None,
        };
        let commit = Object::commit(message, tree_hash, parent);
        self.head = Some(commit.hash());
        let _ = self.hash_object(commit);
    }
}

} // verus!
