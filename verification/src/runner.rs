//! The storage of a repository, its index beside its object store, and the
//! commands that stage a file and record a commit.

use vstd::prelude::*;
use crate::codec::encode_index;
use crate::codec::encode_object;
use crate::codec::index_text;
use crate::codec::object_text;
use crate::fs::content_in;
use crate::fs::is_dir_in;
use crate::fs::is_file_in;
use crate::fs::join;
use crate::fs::join_path;
use crate::fs::no_file_error;
use crate::fs::FileSystem;
use crate::fs::FsError;
use crate::fs::Node;
use crate::fsmap::inserted;
use crate::fsmap::FsMap;
use crate::index::entry_pairs;
use crate::index::Content;
use crate::index::Entry;
use crate::index::EntryModel;
use crate::index::Index;
use crate::object::blob_of;
use crate::object::commit_of;
use crate::object::option_hash_view;
use crate::object::text_digest;
use crate::object::tree_of;
use crate::object::BlobHash;
use crate::object::Object;
use crate::object::ObjectModel;
use crate::parse::decode_index;
use crate::parse::decoded;
use crate::parse::lemma_decode_encode;

verus! {

/// The path of the index file of the repository at `mount`.
pub open spec fn index_path(mount: Seq<char>) -> Seq<char> {
    join(mount, "index.json"@)
}

/// The root of the object store of the repository at `mount`.
pub open spec fn objects_path(mount: Seq<char>) -> Seq<char> {
    join(mount, "objects"@)
}

/// The entries that the index file of the repository at `mount` holds.
pub open spec fn index_in(nodes: Map<Seq<char>, Node>, mount: Seq<char>) -> Option<Seq<EntryModel>> {
    if is_file_in(nodes, index_path(mount)) {
        decoded(content_in(nodes, index_path(mount)))
    } else {
        None
    }
}

/// The file system after the index file of the repository at `mount` was
/// written for `entries`.
pub open spec fn saved(nodes: Map<Seq<char>, Node>, mount: Seq<char>, entries: Seq<EntryModel>) -> Map<
    Seq<char>,
    Node,
> {
    nodes.insert(index_path(mount), Node::File(index_text(entries)))
}

/// The file system after the storage at `mount` was opened: with an empty
/// index file and the root of the object store, each where it was missing.
pub open spec fn opened(nodes: Map<Seq<char>, Node>, mount: Seq<char>) -> Map<Seq<char>, Node> {
    let with_index = if nodes.contains_key(index_path(mount)) {
        nodes
    } else {
        saved(nodes, mount, Seq::empty())
    };
    if with_index.contains_key(objects_path(mount)) {
        with_index
    } else {
        with_index.insert(objects_path(mount), Node::Dir)
    }
}

/// The file system after `object` was put into the store at `store`.
pub open spec fn object_stored(nodes: Map<Seq<char>, Node>, store: Seq<char>, object: ObjectModel) -> Map<
    Seq<char>,
    Node,
> {
    inserted(nodes, store, object.hash(), object_text(object))
}

/// The entry that stages the file `file_name` with the content `content`.
pub open spec fn staged(file_name: Seq<char>, content: Seq<char>) -> EntryModel {
    EntryModel { file_name, blob_hash: text_digest(content) }
}

/// The tree that a commit of `entries` records.
pub open spec fn tree_for(entries: Seq<EntryModel>) -> ObjectModel {
    tree_of(entry_pairs(entries))
}

/// The commit of `entries` with `message` on top of `head`.
pub open spec fn commit_for(
    entries: Seq<EntryModel>,
    message: Seq<char>,
    head: Option<Seq<u8>>,
) -> ObjectModel {
    commit_of(message, tree_for(entries).hash(), head)
}

/// The file system after `entries` were committed with `message` on top of
/// `head`: the tree is stored, then the commit.
pub open spec fn committed(
    nodes: Map<Seq<char>, Node>,
    store: Seq<char>,
    entries: Seq<EntryModel>,
    message: Seq<char>,
    head: Option<Seq<u8>>,
) -> Map<Seq<char>, Node> {
    object_stored(
        object_stored(nodes, store, tree_for(entries)),
        store,
        commit_for(entries, message, head),
    )
}

/// Why the storage could not be opened or read.
#[derive(Debug, Clone, Copy, PartialEq, Eq, Structural)]
pub enum StorageError {
    /// The file system refused an operation.
    Fs(FsError),
    /// The index file does not hold the text of an index.
    CorruptIndex,
    /// A file stands where the root of the object store belongs.
    MountDirNotFound,
}

/// Writes the whole of `text` to the file at `path`, in place of what it held.
pub fn write_file<F: FileSystem>(fs: &mut F, path: &str, text: &str) -> (r: Result<(), FsError>)
    requires
        old(fs).wf(),
    ensures
        final(fs).wf(),
        match r {
            Ok(()) => {
                &&& !is_dir_in(old(fs).nodes(), path@)
                &&& final(fs).nodes() == old(fs).nodes().insert(path@, Node::File(text@))
            },
            Err(e) => {
                &&& e == FsError::NotAFile
                &&& is_dir_in(old(fs).nodes(), path@)
                &&& final(fs).nodes() == old(fs).nodes()
            },
        },
{
    match fs.create_file(path) {
        Ok(()) => {},
        Err(e) => {
            return Err(e);
        },
    }
    let appended = fs.append_file(path, text);
    assert(appended is Ok);
    assert(Seq::<char>::empty() + text@ =~= text@);
    assert(final(fs).nodes() =~= old(fs).nodes().insert(path@, Node::File(text@)));
    Ok(())
}

/// The storage of a repository: the index in memory, and the object store
/// below the repository's directory.
#[derive(Debug)]
pub struct FsMapedJson {
    pub index: Index,
    pub objects: FsMap,
    pub mount: String,
}

impl FsMapedJson {
    /// Whether the object store lies where the repository keeps it.
    pub open spec fn wf(&self) -> bool {
        self.objects.mount@ == objects_path(self.mount@)
    }

    /// Opens the storage at `mount`. An index file that is missing is
    /// written first, for the empty index; then the index is read, and the
    /// root of the object store is created if it is missing. Where a file
    /// stands at the root of the object store nothing is done.
    pub fn new<F: FileSystem>(mount: String, fs: &mut F) -> (r: Result<Self, StorageError>)
        requires
            old(fs).wf(),
        ensures
            final(fs).wf(),
            match r {
                Ok(storage) => {
                    &&& storage.wf()
                    &&& storage.mount@ == mount@
                    &&& !is_file_in(old(fs).nodes(), objects_path(mount@))
                    &&& is_dir_in(final(fs).nodes(), objects_path(mount@))
                    &&& final(fs).nodes() == opened(old(fs).nodes(), mount@)
                    &&& index_in(final(fs).nodes(), mount@) == Some(storage.index@)
                },
                Err(StorageError::MountDirNotFound) => {
                    &&& is_file_in(old(fs).nodes(), objects_path(mount@))
                    &&& final(fs).nodes() == old(fs).nodes()
                },
                Err(StorageError::Fs(e)) => {
                    &&& !is_file_in(old(fs).nodes(), objects_path(mount@))
                    &&& is_dir_in(old(fs).nodes(), index_path(mount@))
                    &&& e == FsError::NotAFile
                    &&& final(fs).nodes() == old(fs).nodes()
                },
                Err(StorageError::CorruptIndex) => {
                    &&& !is_file_in(old(fs).nodes(), objects_path(mount@))
                    &&& is_file_in(old(fs).nodes(), index_path(mount@))
                    &&& index_in(old(fs).nodes(), mount@) is None
                    &&& final(fs).nodes() == old(fs).nodes()
                },
            },
    {
        let store = join_path(mount.as_str(), "objects");
        if fs.is_present(store.as_str()) && !fs.is_dir(store.as_str()) {
            return Err(StorageError::MountDirNotFound);
        }
        let index_file = join_path(mount.as_str(), "index.json");
        if !fs.is_present(index_file.as_str()) {
            proof {
                lemma_paths_differ(mount@);
            }
            let empty = encode_index(&Index::default());
            let written = write_file(fs, index_file.as_str(), empty.as_str());
            assert(written is Ok);
            proof {
                lemma_decode_encode(Seq::empty());
            }
        }
        let text = match fs.read_file(index_file.as_str()) {
            Ok(text) => text,
            Err(e) => {
                return Err(StorageError::Fs(e));
            },
        };
        let index = match decode_index(text.as_str()) {
            Some(index) => index,
            None => {
                return Err(StorageError::CorruptIndex);
            },
        };
        if !fs.is_present(store.as_str()) {
            let made = fs.create_dir(store.as_str());
            assert(made is Ok);
        }
        let objects = match FsMap::open(store, &*fs) {
            Ok(objects) => objects,
            Err(_) => {
                return Err(StorageError::MountDirNotFound);
            },
        };
        proof {
            lemma_paths_differ(mount@);
            assert(final(fs).nodes() =~= opened(old(fs).nodes(), mount@));
        }
        Ok(Self { index, objects, mount })
    }

    /// Writes the index in memory to the index file, in place of what it held.
    pub fn save<F: FileSystem>(&self, fs: &mut F) -> (r: Result<(), FsError>)
        requires
            old(fs).wf(),
        ensures
            final(fs).wf(),
            match r {
                Ok(()) => {
                    &&& !is_dir_in(old(fs).nodes(), index_path(self.mount@))
                    &&& final(fs).nodes() == saved(old(fs).nodes(), self.mount@, self.index@)
                    &&& index_in(final(fs).nodes(), self.mount@) == Some(self.index@)
                },
                Err(e) => {
                    &&& is_dir_in(old(fs).nodes(), index_path(self.mount@))
                    &&& e == FsError::NotAFile
                    &&& final(fs).nodes() == old(fs).nodes()
                },
            },
    {
        let index_file = join_path(self.mount.as_str(), "index.json");
        let text = encode_index(&self.index);
        proof {
            lemma_decode_encode(self.index@);
        }
        write_file(fs, index_file.as_str(), text.as_str())
    }

    /// Reads the index file into the index in memory.
    pub fn load<F: FileSystem>(&mut self, fs: &F) -> (r: Result<(), StorageError>)
        requires
            fs.wf(),
        ensures
            final(self).mount == old(self).mount,
            final(self).objects == old(self).objects,
            match r {
                Ok(()) => index_in(fs.nodes(), old(self).mount@) == Some(final(self).index@),
                Err(StorageError::Fs(e)) => {
                    &&& !is_file_in(fs.nodes(), index_path(old(self).mount@))
                    &&& e == no_file_error(fs.nodes(), index_path(old(self).mount@))
                    &&& final(self).index == old(self).index
                },
                Err(StorageError::CorruptIndex) => {
                    &&& is_file_in(fs.nodes(), index_path(old(self).mount@))
                    &&& index_in(fs.nodes(), old(self).mount@) is None
                    &&& final(self).index == old(self).index
                },
                Err(StorageError::MountDirNotFound) => false,
            },
    {
        let index_file = join_path(self.mount.as_str(), "index.json");
        let text = match fs.read_file(index_file.as_str()) {
            Ok(text) => text,
            Err(e) => {
                return Err(StorageError::Fs(e));
            },
        };
        match decode_index(text.as_str()) {
            Some(index) => {
                self.index = index;
                Ok(())
            },
            None => Err(StorageError::CorruptIndex),
        }
    }

    /// Puts `object` into the object store, under its hash, and gives the hash.
    pub fn hash_object<F: FileSystem>(&mut self, object: Object, fs: &mut F) -> (h: crate::object::Hash)
        requires
            object@.hash().len() >= 1,
            old(fs).wf(),
        ensures
            final(fs).wf(),
            h@ == object@.hash(),
            final(self).mount == old(self).mount,
            final(self).objects.mount@ == old(self).objects.mount@,
            final(self).index == old(self).index,
            final(fs).nodes() == object_stored(old(fs).nodes(), old(self).objects.mount@, object@),
    {
        let hash = object.hash();
        let text = encode_object(&object);
        self.objects.insert(hash.clone(), text, fs);
        hash
    }

    /// Stages `content`: stores the blob of its content, adds its entry at
    /// the end of the index, and writes the index file. Where the index file
    /// cannot be written the index in memory is left as it was.
    #[verifier::rlimit(50)]
    pub fn update_index<F: FileSystem>(&mut self, content: Content, fs: &mut F) -> (r: Result<
        (),
        FsError,
    >)
        requires
            old(fs).wf(),
        ensures
            final(fs).wf(),
            final(self).mount == old(self).mount,
            final(self).objects.mount@ == old(self).objects.mount@,
            ({
                let with_blob = object_stored(
                    old(fs).nodes(),
                    old(self).objects.mount@,
                    blob_of(content.content@),
                );
                let entries = old(self).index@.push(staged(content.file_name@, content.content@));
                match r {
                    Ok(()) => {
                        &&& !is_dir_in(with_blob, index_path(old(self).mount@))
                        &&& final(self).index@ == entries
                        &&& final(fs).nodes() == saved(with_blob, old(self).mount@, entries)
                        &&& index_in(final(fs).nodes(), old(self).mount@) == Some(entries)
                    },
                    Err(e) => {
                        &&& is_dir_in(with_blob, index_path(old(self).mount@))
                        &&& e == FsError::NotAFile
                        &&& final(self).index@ == old(self).index@
                        &&& final(fs).nodes() == with_blob
                    },
                }
            }),
    {
        let Content { file_name, content } = content;
        let blob = Object::blob(content);
        let hash = self.hash_object(blob, fs);
        let ghost before = self.index@;
        let ghost held = self.index.entries@;
        self.index.append(Entry { file_name, blob_hash: BlobHash(hash) });
        match self.save(fs) {
            Ok(()) => Ok(()),
            Err(e) => {
                self.index.entries.pop();
                assert(self.index.entries@ =~= held);
                assert(self.index@ =~= before);
                Err(e)
            },
        }
    }
}

/// A command on an open repository.
#[derive(Debug)]
pub enum Cmd {
    /// Stage the file at `file_name`.
    Add { file_name: String },
    /// Record the staged entries under `message`.
    Commit { message: String },
}

/// Why a command was not carried out.
#[derive(Debug, Clone, Copy, PartialEq, Eq, Structural)]
pub enum RunError {
    /// No file stands at the path that was to be staged.
    FileNotFound,
    /// The file system refused an operation.
    Fs(FsError),
}

/// An open repository: its storage, and the commit that was recorded last.
#[derive(Debug)]
pub struct Runner {
    pub storage: FsMapedJson,
    pub head: Option<crate::object::Hash>,
}

/// What staging the file `file_name` comes to, from the file system `before`
/// and the index `entries` to the file system `after` and the index `staged_entries`.
pub open spec fn stage_outcome(
    before: Map<Seq<char>, Node>,
    store: Seq<char>,
    mount: Seq<char>,
    entries: Seq<EntryModel>,
    file_name: Seq<char>,
    r: Result<(), RunError>,
    after: Map<Seq<char>, Node>,
    staged_entries: Seq<EntryModel>,
) -> bool {
    if !is_file_in(before, file_name) {
        &&& r == Err::<(), RunError>(RunError::FileNotFound)
        &&& after == before
        &&& staged_entries == entries
    } else {
        let content = content_in(before, file_name);
        let with_blob = object_stored(before, store, blob_of(content));
        if is_dir_in(with_blob, index_path(mount)) {
            &&& r == Err::<(), RunError>(RunError::Fs(FsError::NotAFile))
            &&& after == with_blob
            &&& staged_entries == entries
        } else {
            &&& r == Ok::<(), RunError>(())
            &&& staged_entries == entries.push(staged(file_name, content))
            &&& after == saved(with_blob, mount, staged_entries)
        }
    }
}

impl Runner {
    /// Opens the repository at `root`, with no commit recorded yet.
    pub fn new<F: FileSystem>(root: String, fs: &mut F) -> (r: Result<Self, StorageError>)
        requires
            old(fs).wf(),
        ensures
            final(fs).wf(),
            match r {
                Ok(runner) => {
                    &&& runner.storage.wf()
                    &&& runner.storage.mount@ == root@
                    &&& runner.head is None
                    &&& !is_file_in(old(fs).nodes(), objects_path(root@))
                    &&& is_dir_in(final(fs).nodes(), objects_path(root@))
                    &&& final(fs).nodes() == opened(old(fs).nodes(), root@)
                    &&& index_in(final(fs).nodes(), root@) == Some(runner.storage.index@)
                },
                Err(StorageError::MountDirNotFound) => {
                    &&& is_file_in(old(fs).nodes(), objects_path(root@))
                    &&& final(fs).nodes() == old(fs).nodes()
                },
                Err(StorageError::Fs(e)) => {
                    &&& !is_file_in(old(fs).nodes(), objects_path(root@))
                    &&& is_dir_in(old(fs).nodes(), index_path(root@))
                    &&& e == FsError::NotAFile
                    &&& final(fs).nodes() == old(fs).nodes()
                },
                Err(StorageError::CorruptIndex) => {
                    &&& !is_file_in(old(fs).nodes(), objects_path(root@))
                    &&& is_file_in(old(fs).nodes(), index_path(root@))
                    &&& index_in(old(fs).nodes(), root@) is None
                    &&& final(fs).nodes() == old(fs).nodes()
                },
            },
    {
        match FsMapedJson::new(root, fs) {
            Ok(storage) => Ok(Self { storage, head: None }),
            Err(e) => Err(e),
        }
    }

    /// Stages the file at `file_name`: reads the whole of it, stores the
    /// blob of its content, adds its entry to the index and writes the index
    /// file. Where no file stands at the path nothing changes.
    pub fn add<F: FileSystem>(&mut self, file_name: String, fs: &mut F) -> (r: Result<(), RunError>)
        requires
            old(fs).wf(),
        ensures
            final(fs).wf(),
            final(self).head == old(self).head,
            final(self).storage.mount == old(self).storage.mount,
            final(self).storage.objects.mount@ == old(self).storage.objects.mount@,
            stage_outcome(
                old(fs).nodes(),
                old(self).storage.objects.mount@,
                old(self).storage.mount@,
                old(self).storage.index@,
                file_name@,
                r,
                final(fs).nodes(),
                final(self).storage.index@,
            ),
    {
        let content = match fs.read_file(file_name.as_str()) {
            Ok(content) => content,
            Err(_) => {
                return Err(RunError::FileNotFound);
            },
        };
        match self.storage.update_index(Content::new(file_name, content), fs) {
            Ok(()) => Ok(()),
            Err(e) => Err(RunError::Fs(e)),
        }
    }

    /// Records the staged entries under `message`: stores the tree of the
    /// entries, then the commit that points to the tree and to the commit
    /// recorded before, and makes that commit the head. The index stays as
    /// it is, so a later commit records these entries again.
    pub fn commit<F: FileSystem>(&mut self, message: String, fs: &mut F) -> (h: crate::object::Hash)
        requires
            old(fs).wf(),
        ensures
            final(fs).wf(),
            final(self).storage.mount == old(self).storage.mount,
            final(self).storage.objects.mount@ == old(self).storage.objects.mount@,
            final(self).storage.index == old(self).storage.index,
            h@ == commit_for(
                old(self).storage.index@,
                message@,
                option_hash_view(old(self).head),
            ).hash(),
            option_hash_view(final(self).head) == Some(h@),
            final(fs).nodes() == committed(
                old(fs).nodes(),
                old(self).storage.objects.mount@,
                old(self).storage.index@,
                message@,
                option_hash_view(old(self).head),
            ),
    {
        let tree = Object::tree(self.storage.index.pairs());
        let tree_hash = self.storage.hash_object(tree, fs);
        let parent = match &self.head {
            Some(head) => Some(head.clone()),
            None => None,
        };
        let commit = Object::commit(message, tree_hash, parent);
        let hash = self.storage.hash_object(commit, fs);
        self.head = Some(hash.clone());
        hash
    }

    /// Carries out `cmd`.
    pub fn run<F: FileSystem>(&mut self, cmd: Cmd, fs: &mut F) -> (r: Result<(), RunError>)
        requires
            old(fs).wf(),
        ensures
            final(fs).wf(),
            final(self).storage.mount == old(self).storage.mount,
            final(self).storage.objects.mount@ == old(self).storage.objects.mount@,
            match cmd {
                Cmd::Add { file_name } => {
                    &&& final(self).head == old(self).head
                    &&& stage_outcome(
                        old(fs).nodes(),
                        old(self).storage.objects.mount@,
                        old(self).storage.mount@,
                        old(self).storage.index@,
                        file_name@,
                        r,
                        final(fs).nodes(),
                        final(self).storage.index@,
                    )
                },
                Cmd::Commit { message } => {
                    &&& r is Ok
                    &&& final(self).storage.index == old(self).storage.index
                    &&& option_hash_view(final(self).head) == Some(
                        commit_for(
                            old(self).storage.index@,
                            message@,
                            option_hash_view(old(self).head),
                        ).hash(),
                    )
                    &&& final(fs).nodes() == committed(
                        old(fs).nodes(),
                        old(self).storage.objects.mount@,
                        old(self).storage.index@,
                        message@,
                        option_hash_view(old(self).head),
                    )
                },
            },
    {
        match cmd {
            Cmd::Add { file_name } => self.add(file_name, fs),
            Cmd::Commit { message } => {
                let _ = self.commit(message, fs);
                Ok(())
            },
        }
    }
}

/// The index file and the root of the object store stand at different paths.
pub proof fn lemma_paths_differ(mount: Seq<char>)
    ensures
        index_path(mount) != objects_path(mount),
{
    reveal_strlit("index.json");
    reveal_strlit("objects");
    let a = index_path(mount);
    let b = objects_path(mount);
    assert(a[mount.len() + 1int] == 'i');
    assert(b[mount.len() + 1int] == 'o');
}

/// Opening the storage again leaves the index file as it is: what the file
/// held before, it holds after, so a runtime that starts anew reads the
/// entries that the last one wrote.
pub proof fn lemma_reopen_keeps_index(nodes: Map<Seq<char>, Node>, mount: Seq<char>)
    requires
        index_in(nodes, mount) is Some,
    ensures
        index_in(opened(nodes, mount), mount) == index_in(nodes, mount),
{
    lemma_paths_differ(mount);
}

/// The entries after the files of `files`, each a path with a content, were
/// staged in order behind `entries`.
pub open spec fn staged_all(entries: Seq<EntryModel>, files: Seq<(Seq<char>, Seq<char>)>) -> Seq<
    EntryModel,
>
    decreases files.len(),
{
    if files.len() == 0 {
        entries
    } else {
        staged_all(entries, files.drop_last()).push(staged(files.last().0, files.last().1))
    }
}

/// The file system after the files of `files` were staged in order: each
/// step stores the blob of the file and writes the index file anew.
pub open spec fn after_adds(
    nodes: Map<Seq<char>, Node>,
    store: Seq<char>,
    mount: Seq<char>,
    entries: Seq<EntryModel>,
    files: Seq<(Seq<char>, Seq<char>)>,
) -> Map<Seq<char>, Node>
    decreases files.len(),
{
    if files.len() == 0 {
        nodes
    } else {
        saved(
            object_stored(
                after_adds(nodes, store, mount, entries, files.drop_last()),
                store,
                blob_of(files.last().1),
            ),
            mount,
            staged_all(entries, files),
        )
    }
}

/// Whatever files are staged, one after the other, the index file then
/// holds the entries it held before and theirs behind, in the order of
/// staging; and a storage that is opened afterwards reads exactly these.
pub proof fn lemma_adds_persist(
    nodes: Map<Seq<char>, Node>,
    store: Seq<char>,
    mount: Seq<char>,
    entries: Seq<EntryModel>,
    files: Seq<(Seq<char>, Seq<char>)>,
)
    requires
        index_in(nodes, mount) == Some(entries),
    ensures
        index_in(after_adds(nodes, store, mount, entries, files), mount) == Some(
            staged_all(entries, files),
        ),
        index_in(opened(after_adds(nodes, store, mount, entries, files), mount), mount) == Some(
            staged_all(entries, files),
        ),
{
    if files.len() > 0 {
        lemma_decode_encode(staged_all(entries, files));
    }
    lemma_reopen_keeps_index(after_adds(nodes, store, mount, entries, files), mount);
}

/// Reloading after saving gives the entries that were saved, in their order.
pub proof fn lemma_save_then_load(
    nodes: Map<Seq<char>, Node>,
    mount: Seq<char>,
    entries: Seq<EntryModel>,
)
    ensures
        index_in(saved(nodes, mount, entries), mount) == Some(entries),
{
    lemma_decode_encode(entries);
}

} // verus!
