//! The repository runtime: the four commands, carried out against a file
//! system that the runtime owns.

use vstd::prelude::*;
use crate::fs::content_in;
use crate::fs::is_dir_in;
use crate::fs::is_file_in;
use crate::fs::join_path;
use crate::fs::no_dir_error;
use crate::fs::no_file_error;
use crate::fs::strings_view;
use crate::fs::without_tree;
use crate::fs::FileSystem;
use crate::fs::FsError;
use crate::fs::Node;
use crate::fsmap::contents_at;
use crate::fsmap::walk;
use crate::fsmap::FsMap;
use crate::fsmap::WALK_DEPTH;
use crate::index::Index;
use crate::object::blob_of;
use crate::object::option_hash_view;
use crate::runner::commit_for;
use crate::runner::committed;
use crate::runner::index_in;
use crate::runner::index_path;
use crate::runner::lemma_paths_differ;
use crate::runner::object_stored;
use crate::runner::objects_path;
use crate::runner::opened;
use crate::runner::saved;
use crate::runner::staged;
use crate::runner::write_file;
use crate::runner::FsMapedJson;
use crate::runner::RunError;
use crate::runner::Runner;
use crate::runner::StorageError;
use crate::codec::encode_index;
use crate::codec::object_text;
use crate::index::EntryModel;
use crate::object::Object;
use crate::object::ObjectModel;
use crate::object_parse::decode_object;
use crate::object_parse::object_decoded;
use crate::storage::objects_view;

verus! {

/// A command of the repository.
#[derive(Debug)]
pub enum SubCommand {
    /// Create the repository.
    Init,
    /// Delete the repository.
    Reset,
    /// Stage the file at `path`.
    Add { path: String },
    /// Record the staged entries under `message`.
    Commit { message: String },
}

/// A command line that was read.
#[derive(Debug)]
pub struct Cli {
    pub command: SubCommand,
}

/// Why a command failed.
#[derive(Debug, Clone, Copy, PartialEq, Eq, Structural)]
pub enum RuntimeError {
    /// The repository's directory stands already.
    AlreadyInitialized,
    /// No file stands at the path that was to be staged.
    FileNotFound,
    /// The index file does not hold the text of an index.
    CorruptIndex,
    /// The file system refused an operation.
    Fs(FsError),
}

/// Why the objects of the store could not be read.
#[derive(Debug, Clone, Copy, PartialEq, Eq, Structural)]
pub enum ObjectsError {
    /// The file system refused an operation.
    Fs(FsError),
    /// A file of the object store does not hold the text of an object.
    CorruptObject,
}

/// The words for a failure of a command.
pub open spec fn runtime_error_text(e: RuntimeError) -> Seq<char> {
    match e {
        RuntimeError::AlreadyInitialized => "repository is already initialized"@,
        RuntimeError::FileNotFound => "File not found"@,
        RuntimeError::CorruptIndex => "index file is corrupt"@,
        RuntimeError::Fs(e) => crate::fs::fs_error_text(e),
    }
}

impl RuntimeError {
    /// The failure in words.
    pub fn message(&self) -> (s: String)
        ensures
            s@ == runtime_error_text(*self),
    {
        match self {
            RuntimeError::AlreadyInitialized => String::from_str(
                "repository is already initialized",
            ),
            RuntimeError::FileNotFound => String::from_str("File not found"),
            RuntimeError::CorruptIndex => String::from_str("index file is corrupt"),
            RuntimeError::Fs(e) => e.message(),
        }
    }
}

/// The file system after the repository at `root` was created: its
/// directory, the root of its object store, and the index file of the empty
/// index.
pub open spec fn initialized(nodes: Map<Seq<char>, Node>, root: Seq<char>) -> Map<Seq<char>, Node> {
    let with_root = nodes.insert(root, Node::Dir);
    let with_store = if with_root.contains_key(objects_path(root)) {
        with_root
    } else {
        with_root.insert(objects_path(root), Node::Dir)
    };
    saved(with_store, root, Seq::empty())
}

/// What `Init` comes to.
pub open spec fn init_outcome(
    before: Map<Seq<char>, Node>,
    root: Seq<char>,
    r: Result<String, RuntimeError>,
    after: Map<Seq<char>, Node>,
) -> bool {
    if before.contains_key(root) {
        r == Err::<String, RuntimeError>(RuntimeError::AlreadyInitialized) && after == before
    } else if is_dir_in(before, index_path(root)) {
        r == Err::<String, RuntimeError>(RuntimeError::Fs(FsError::NotAFile)) && after == before
    } else if is_file_in(before, objects_path(root)) {
        r == Err::<String, RuntimeError>(RuntimeError::Fs(FsError::NotADirectory)) && after
            == before
    } else {
        r is Ok && after == initialized(before, root)
    }
}

/// What `Reset` comes to.
pub open spec fn reset_outcome(
    before: Map<Seq<char>, Node>,
    root: Seq<char>,
    r: Result<String, RuntimeError>,
    after: Map<Seq<char>, Node>,
) -> bool {
    if !is_dir_in(before, objects_path(root)) {
        r == Err::<String, RuntimeError>(
            RuntimeError::Fs(no_dir_error(before, objects_path(root))),
        ) && after == before
    } else if !is_dir_in(before, root) {
        r == Err::<String, RuntimeError>(RuntimeError::Fs(no_dir_error(before, root))) && after
            == before
    } else {
        r is Ok && after == without_tree(before, root)
    }
}

/// What opening the storage at `root` fails with, if it fails.
pub open spec fn open_failure(before: Map<Seq<char>, Node>, root: Seq<char>) -> Option<RuntimeError> {
    if is_file_in(before, objects_path(root)) {
        Some(RuntimeError::Fs(FsError::NotADirectory))
    } else if is_dir_in(before, index_path(root)) {
        Some(RuntimeError::Fs(FsError::NotAFile))
    } else if is_file_in(before, index_path(root)) && index_in(before, root) is None {
        Some(RuntimeError::CorruptIndex)
    } else {
        None
    }
}

/// What `Add` comes to.
pub open spec fn add_outcome(
    before: Map<Seq<char>, Node>,
    root: Seq<char>,
    path: Seq<char>,
    r: Result<String, RuntimeError>,
    after: Map<Seq<char>, Node>,
) -> bool {
    if !is_file_in(before, path) {
        r == Err::<String, RuntimeError>(RuntimeError::FileNotFound) && after == before
    } else if open_failure(before, root) is Some {
        r == Err::<String, RuntimeError>(open_failure(before, root)->0) && after == before
    } else {
        let content = content_in(before, path);
        let open = opened(before, root);
        let with_blob = object_stored(open, objects_path(root), blob_of(content));
        &&& r is Ok
        &&& index_in(open, root) is Some
        &&& after == saved(with_blob, root, index_in(open, root)->0.push(staged(path, content)))
    }
}

/// What `Commit` comes to.
pub open spec fn commit_outcome(
    before: Map<Seq<char>, Node>,
    root: Seq<char>,
    message: Seq<char>,
    head: Option<Seq<u8>>,
    r: Result<String, RuntimeError>,
    after: Map<Seq<char>, Node>,
    new_head: Option<Seq<u8>>,
) -> bool {
    if open_failure(before, root) is Some {
        &&& r == Err::<String, RuntimeError>(open_failure(before, root)->0)
        &&& after == before
        &&& new_head == head
    } else {
        let open = opened(before, root);
        &&& r is Ok
        &&& index_in(open, root) is Some
        &&& after == committed(open, objects_path(root), index_in(open, root)->0, message, head)
        &&& new_head == Some(commit_for(index_in(open, root)->0, message, head).hash())
    }
}

/// The runtime of the repository at `root` in the file system `infs`.
#[derive(Debug)]
pub struct Runtime<F: FileSystem> {
    pub infs: F,
    pub root: String,
    pub head: Option<crate::object::Hash>,
}

impl<F: FileSystem> Runtime<F> {
    /// The runtime of the repository at `root` in `infs`, with no commit
    /// recorded yet.
    pub fn new(root: String, infs: F) -> (r: Self)
        ensures
            r.infs == infs,
            r.root@ == root@,
            r.head is None,
    {
        Self { infs, root, head: None }
    }

    /// The failure of a command that could not open the storage.
    fn map_open_error(e: StorageError) -> (r: RuntimeError)
        ensures
            r == match e {
                StorageError::Fs(e) => RuntimeError::Fs(e),
                StorageError::CorruptIndex => RuntimeError::CorruptIndex,
                StorageError::MountDirNotFound => RuntimeError::Fs(FsError::NotADirectory),
            },
    {
        match e {
            StorageError::Fs(e) => RuntimeError::Fs(e),
            StorageError::CorruptIndex => RuntimeError::CorruptIndex,
            StorageError::MountDirNotFound => RuntimeError::Fs(FsError::NotADirectory),
        }
    }

    /// Creates the repository: its directory, the root of its object store
    /// and the index file of the empty index. Where the directory stands
    /// already the call fails and changes nothing.
    #[verifier::rlimit(50)]
    pub fn init(&mut self) -> (r: Result<String, RuntimeError>)
        requires
            old(self).infs.wf(),
        ensures
            final(self).infs.wf(),
            final(self).root == old(self).root,
            final(self).head == old(self).head,
            init_outcome(old(self).infs.nodes(), old(self).root@, r, final(self).infs.nodes()),
            r is Ok ==> r->Ok_0@ == "Success"@,
    {
        if self.infs.is_present(self.root.as_str()) {
            return Err(RuntimeError::AlreadyInitialized);
        }
        let index_file = join_path(self.root.as_str(), "index.json");
        if self.infs.is_dir(index_file.as_str()) {
            return Err(RuntimeError::Fs(FsError::NotAFile));
        }
        let store = join_path(self.root.as_str(), "objects");
        if self.infs.is_present(store.as_str()) && !self.infs.is_dir(store.as_str()) {
            return Err(RuntimeError::Fs(FsError::NotADirectory));
        }
        let made = self.infs.create_dir(self.root.as_str());
        assert(made is Ok);
        if !self.infs.is_present(store.as_str()) {
            let made_store = self.infs.create_dir(store.as_str());
            assert(made_store is Ok);
        }
        let empty = encode_index(&Index::default());
        proof {
            lemma_paths_differ(self.root@);
            lemma_below_root(self.root@);
        }
        let written = write_file(&mut self.infs, index_file.as_str(), empty.as_str());
        assert(written is Ok);
        assert(self.infs.nodes() =~= initialized(old(self).infs.nodes(), self.root@));
        Ok(String::from_str("Success"))
    }

    /// Deletes the repository: the object store with all that lies below
    /// it, then the repository's directory with all that lies below it.
    /// Where one of the two directories is missing the call fails and
    /// changes nothing.
    #[verifier::rlimit(50)]
    pub fn reset(&mut self) -> (r: Result<String, RuntimeError>)
        requires
            old(self).infs.wf(),
        ensures
            final(self).infs.wf(),
            final(self).root == old(self).root,
            r is Ok ==> final(self).head is None,
            r is Err ==> final(self).head == old(self).head,
            reset_outcome(old(self).infs.nodes(), old(self).root@, r, final(self).infs.nodes()),
            r is Ok ==> r->Ok_0@ == "Success"@,
    {
        let store = join_path(self.root.as_str(), "objects");
        proof {
            lemma_below_root(self.root@);
        }
        if !self.infs.is_dir(store.as_str()) {
            return match self.infs.read_dir(store.as_str()) {
                Ok(_) => Err(RuntimeError::Fs(FsError::NotFound)),
                Err(e) => Err(RuntimeError::Fs(e)),
            };
        }
        if !self.infs.is_dir(self.root.as_str()) {
            return match self.infs.read_dir(self.root.as_str()) {
                Ok(_) => Err(RuntimeError::Fs(FsError::NotFound)),
                Err(e) => Err(RuntimeError::Fs(e)),
            };
        }
        let gone = self.infs.remove_dir(store.as_str());
        assert(gone is Ok);
        let done = self.infs.remove_dir(self.root.as_str());
        assert(done is Ok);
        proof {
            lemma_reset_removes_all(old(self).infs.nodes(), self.root@);
        }
        self.head = None;
        Ok(String::from_str("Success"))
    }

    /// Stages the file at `path`. Where no file stands there the call fails
    /// and changes nothing: the index file holds what it held.
    #[verifier::rlimit(50)]
    pub fn add(&mut self, path: String) -> (r: Result<String, RuntimeError>)
        requires
            old(self).infs.wf(),
        ensures
            final(self).infs.wf(),
            final(self).root == old(self).root,
            final(self).head == old(self).head,
            add_outcome(old(self).infs.nodes(), old(self).root@, path@, r, final(self).infs.nodes()),
            r is Ok ==> r->Ok_0@ == "Success"@,
    {
        if !self.infs.read_file(path.as_str()).is_ok() {
            return Err(RuntimeError::FileNotFound);
        }
        let mut runner = match Runner::new(self.root.clone(), &mut self.infs) {
            Ok(runner) => runner,
            Err(e) => {
                return Err(Self::map_open_error(e));
            },
        };
        proof {
            lemma_opened_keeps(old(self).infs.nodes(), self.root@, path@);
            lemma_store_apart(
                self.root@,
                blob_of(content_in(old(self).infs.nodes(), path@)).hash(),
            );
        }
        match runner.add(path, &mut self.infs) {
            Ok(()) => Ok(String::from_str("Success")),
            Err(RunError::FileNotFound) => Err(RuntimeError::FileNotFound),
            Err(RunError::Fs(e)) => Err(RuntimeError::Fs(e)),
        }
    }

    /// Records the staged entries under `message`, on top of the commit
    /// recorded last, and makes the new commit the head.
    #[verifier::rlimit(50)]
    pub fn commit(&mut self, message: String) -> (r: Result<String, RuntimeError>)
        requires
            old(self).infs.wf(),
        ensures
            final(self).infs.wf(),
            final(self).root == old(self).root,
            commit_outcome(
                old(self).infs.nodes(),
                old(self).root@,
                message@,
                option_hash_view(old(self).head),
                r,
                final(self).infs.nodes(),
                option_hash_view(final(self).head),
            ),
            r is Ok ==> r->Ok_0@ == "Success"@,
    {
        let mut runner = match Runner::new(self.root.clone(), &mut self.infs) {
            Ok(runner) => runner,
            Err(e) => {
                return Err(Self::map_open_error(e));
            },
        };
        runner.head = match &self.head {
            Some(head) => Some(head.clone()),
            None => None,
        };
        let hash = runner.commit(message, &mut self.infs);
        self.head = Some(hash);
        Ok(String::from_str("Success"))
    }

    /// Carries out `cmd` and reports `Success`, or why it failed.
    #[verifier::rlimit(50)]
    pub fn run(&mut self, cmd: SubCommand) -> (r: Result<String, RuntimeError>)
        requires
            old(self).infs.wf(),
        ensures
            final(self).infs.wf(),
            final(self).root == old(self).root,
            r is Ok ==> r->Ok_0@ == "Success"@,
            match cmd {
                SubCommand::Init => final(self).head == old(self).head && init_outcome(
                    old(self).infs.nodes(),
                    old(self).root@,
                    r,
                    final(self).infs.nodes(),
                ),
                SubCommand::Reset => reset_outcome(
                    old(self).infs.nodes(),
                    old(self).root@,
                    r,
                    final(self).infs.nodes(),
                ),
                SubCommand::Add { path } => final(self).head == old(self).head && add_outcome(
                    old(self).infs.nodes(),
                    old(self).root@,
                    path@,
                    r,
                    final(self).infs.nodes(),
                ),
                SubCommand::Commit { message } => commit_outcome(
                    old(self).infs.nodes(),
                    old(self).root@,
                    message@,
                    option_hash_view(old(self).head),
                    r,
                    final(self).infs.nodes(),
                    option_hash_view(final(self).head),
                ),
            },
    {
        match cmd {
            SubCommand::Init => self.init(),
            SubCommand::Reset => self.reset(),
            SubCommand::Add { path } => self.add(path),
            SubCommand::Commit { message } => self.commit(message),
        }
    }

    /// The index that the index file holds.
    pub fn get_index(&self) -> (r: Result<Index, StorageError>)
        requires
            self.infs.wf(),
        ensures
            match r {
                Ok(index) => index_in(self.infs.nodes(), self.root@) == Some(index@),
                Err(StorageError::Fs(e)) => {
                    &&& !is_file_in(self.infs.nodes(), index_path(self.root@))
                    &&& e == no_file_error(self.infs.nodes(), index_path(self.root@))
                },
                Err(StorageError::CorruptIndex) => {
                    &&& is_file_in(self.infs.nodes(), index_path(self.root@))
                    &&& index_in(self.infs.nodes(), self.root@) is None
                },
                Err(StorageError::MountDirNotFound) => false,
            },
    {
        let store = join_path(self.root.as_str(), "objects");
        let mut storage = FsMapedJson {
            index: Index::new(),
            objects: FsMap { mount: store },
            mount: self.root.clone(),
        };
        match storage.load(&self.infs) {
            Ok(()) => Ok(storage.index),
            Err(e) => Err(e),
        }
    }

    /// Every object in the store, in the order of the walk through the
    /// store, each read from the text of its file.
    #[verifier::rlimit(50)]
    pub fn get_objects(&self) -> (r: Result<Vec<Object>, ObjectsError>)
        requires
            self.infs.wf(),
        ensures
            match r {
                Ok(objects) => {
                    &&& is_dir_in(self.infs.nodes(), objects_path(self.root@))
                    &&& read_as(objects_view(objects@)) == objects_in(
                        stored_texts(&self.infs, self.root@),
                    )
                },
                Err(ObjectsError::Fs(e)) => {
                    &&& !is_dir_in(self.infs.nodes(), objects_path(self.root@))
                    &&& e == no_dir_error(self.infs.nodes(), objects_path(self.root@))
                },
                Err(ObjectsError::CorruptObject) => {
                    &&& is_dir_in(self.infs.nodes(), objects_path(self.root@))
                    &&& exists|i: int|
                        0 <= i < stored_texts(&self.infs, self.root@).len() && object_decoded(
                            #[trigger] stored_texts(&self.infs, self.root@)[i],
                        ) is None
                },
            },
    {
        let store = FsMap { mount: join_path(self.root.as_str(), "objects") };
        let texts = match store.get_all(&self.infs) {
            Ok(texts) => texts,
            Err(e) => {
                return Err(ObjectsError::Fs(e));
            },
        };
        let ghost all = stored_texts(&self.infs, self.root@);
        let mut objects: Vec<Object> = Vec::new();
        let mut i: usize = 0;
        assert(read_as(objects_view(objects@)) =~= objects_in(all.take(0)));
        while i < texts.len()
            invariant
                i <= texts.len(),
                all == strings_view(texts@),
                all == stored_texts(&self.infs, self.root@),
                is_dir_in(self.infs.nodes(), objects_path(self.root@)),
                read_as(objects_view(objects@)) == objects_in(all.take(i as int)),
            decreases texts.len() - i,
        {
            let ghost read = read_as(objects_view(objects@));
            let ghost text = all[i as int];
            let found = decode_object(texts[i].as_str());
            assert(texts@[i as int]@ == text);
            assert(crate::object_parse::option_object_view(found) == object_decoded(text));
            match found {
                Some(object) => {
                    assert(object_decoded(text) == Some(object@));
                    objects.push(object);
                    assert(read_as(objects_view(objects@)) =~= read.push(Some(object@)));
                    assert(objects_in(all.take(i + 1)) =~= objects_in(all.take(i as int)).push(
                        object_decoded(text),
                    ));
                },
                None => {
                    assert(object_decoded(text) is None);
                    return Err(ObjectsError::CorruptObject);
                },
            }
            i += 1;
        }
        assert(all.take(texts.len() as int) =~= all);
        Ok(objects)
    }
}

/// The texts of the object files of the repository at `root`, in the order
/// of the walk through the store.
pub open spec fn stored_texts<F: FileSystem>(fs: &F, root: Seq<char>) -> Seq<Seq<char>> {
    contents_at(fs.nodes(), walk(fs, objects_path(root), WALK_DEPTH as nat))
}

/// What each of `texts` is read as, in order.
pub open spec fn objects_in(texts: Seq<Seq<char>>) -> Seq<Option<ObjectModel>> {
    texts.map_values(|t: Seq<char>| object_decoded(t))
}

/// The outcome of reading each of `objects` with success, in order.
pub open spec fn read_as(objects: Seq<ObjectModel>) -> Seq<Option<ObjectModel>> {
    objects.map_values(|o: ObjectModel| Some(o))
}

/// The paths of the index file and of the object store lie below the
/// repository's directory, and the directory lies below neither.
pub proof fn lemma_below_root(root: Seq<char>)
    ensures
        index_path(root) != root,
        objects_path(root) != root,
        crate::fs::under(objects_path(root), root),
        crate::fs::under(index_path(root), root),
        !crate::fs::under(root, objects_path(root)),
{
    assert(objects_path(root).take(root.len() + 1int) =~= root + seq!['/']);
    assert(index_path(root).take(root.len() + 1int) =~= root + seq!['/']);
}

/// The files of the object store and their shard directories stand at other
/// paths than the index file.
pub proof fn lemma_store_apart(root: Seq<char>, hash: Seq<u8>)
    ensures
        crate::fsmap::shard_path(objects_path(root), hash) != index_path(root),
        crate::fsmap::object_path(objects_path(root), hash) != index_path(root),
{
    reveal_strlit("index.json");
    reveal_strlit("objects");
    let at = root.len() + 1int;
    assert(index_path(root)[at] == 'i');
    assert(crate::fsmap::shard_path(objects_path(root), hash)[at] == 'o');
    assert(crate::fsmap::object_path(objects_path(root), hash)[at] == 'o');
}

/// Removing the object store and then the repository's directory removes
/// the directory with all that lies below it, no more and no less.
pub proof fn lemma_reset_removes_all(nodes: Map<Seq<char>, Node>, root: Seq<char>)
    ensures
        without_tree(without_tree(nodes, objects_path(root)), root) == without_tree(nodes, root),
{
    let store = objects_path(root);
    lemma_below_root(root);
    assert forall|p: Seq<char>| crate::fs::under(p, store) implies crate::fs::under(p, root) by {
        let head = p.take(store.len() + 1int);
        assert(p.take(root.len() + 1int) =~= head.take(root.len() + 1int));
        assert((store + seq!['/']).take(root.len() + 1int) =~= root + seq!['/']);
    }
    assert(without_tree(without_tree(nodes, store), root) =~= without_tree(nodes, root));
}

/// The objects that the first commit of one file puts into the store, each
/// a hash with its text: the blob of the file, the tree of the one entry,
/// and the commit without a parent.
pub open spec fn first_commit_items(path: Seq<char>, content: Seq<char>, message: Seq<char>) -> Seq<
    (Seq<u8>, Seq<char>),
> {
    let entries = seq![staged(path, content)];
    let blob = blob_of(content);
    let tree = crate::runner::tree_for(entries);
    let commit = commit_for(entries, message, None);
    seq![
        (blob.hash(), object_text(blob)),
        (tree.hash(), object_text(tree)),
        (commit.hash(), object_text(commit)),
    ]
}

/// Writing the index file and putting an object into the store do not
/// touch one another: they can be done in either order.
pub proof fn lemma_store_beside_index(
    nodes: Map<Seq<char>, Node>,
    root: Seq<char>,
    entries: Seq<EntryModel>,
    hash: Seq<u8>,
    payload: Seq<char>,
)
    ensures
        crate::fsmap::inserted(saved(nodes, root, entries), objects_path(root), hash, payload)
            == saved(
            crate::fsmap::inserted(nodes, objects_path(root), hash, payload),
            root,
            entries,
        ),
{
    lemma_store_apart(root, hash);
    assert(crate::fsmap::inserted(saved(nodes, root, entries), objects_path(root), hash, payload)
        =~= saved(
        crate::fsmap::inserted(nodes, objects_path(root), hash, payload),
        root,
        entries,
    ));
}

/// A repository that was just created, or whose index file holds an index
/// beside a store root that is a directory, opens as it is.
pub proof fn lemma_opens_as_is(nodes: Map<Seq<char>, Node>, root: Seq<char>)
    requires
        index_in(nodes, root) is Some,
        is_dir_in(nodes, objects_path(root)),
    ensures
        opened(nodes, root) == nodes,
        open_failure(nodes, root) is None,
{
    assert(opened(nodes, root) =~= nodes);
}

/// After `Init` the index file holds the empty index, and the root of the
/// store is a directory.
pub proof fn lemma_after_init(
    before: Map<Seq<char>, Node>,
    root: Seq<char>,
    r: Result<String, RuntimeError>,
    made: Map<Seq<char>, Node>,
)
    requires
        init_outcome(before, root, r, made),
        r is Ok,
    ensures
        made == initialized(before, root),
        index_in(made, root) == Some(Seq::<EntryModel>::empty()),
        is_dir_in(made, objects_path(root)),
        forall|p: Seq<char>|
            made.contains_key(p) ==> before.contains_key(p) || p == root || p == objects_path(root)
                || p == index_path(root),
{
    lemma_paths_differ(root);
    lemma_below_root(root);
    crate::parse::lemma_decode_encode(Seq::empty());
}

/// After an object was put into the store the index file holds what it
/// held, and the root of the store is what it was.
pub proof fn lemma_insert_beside(
    nodes: Map<Seq<char>, Node>,
    root: Seq<char>,
    hash: Seq<u8>,
    payload: Seq<char>,
)
    requires
        hash.len() >= 1,
        is_dir_in(nodes, objects_path(root)),
    ensures
        index_in(crate::fsmap::inserted(nodes, objects_path(root), hash, payload), root)
            == index_in(nodes, root),
        is_dir_in(
            crate::fsmap::inserted(nodes, objects_path(root), hash, payload),
            objects_path(root),
        ),
{
    lemma_store_apart(root, hash);
}

/// What `Add` of a file makes of a repository that opens as it is.
pub proof fn lemma_added_state(
    made: Map<Seq<char>, Node>,
    root: Seq<char>,
    path: Seq<char>,
    r: Result<String, RuntimeError>,
    added: Map<Seq<char>, Node>,
    entries: Seq<EntryModel>,
)
    requires
        add_outcome(made, root, path, r, added),
        r is Ok,
        index_in(made, root) == Some(entries),
        is_dir_in(made, objects_path(root)),
    ensures
        added == saved(
            object_stored(made, objects_path(root), blob_of(content_in(made, path))),
            root,
            entries.push(staged(path, content_in(made, path))),
        ),
{
    lemma_opens_as_is(made, root);
}

/// What `Commit` makes of a repository that opens as it is.
pub proof fn lemma_committed_state(
    added: Map<Seq<char>, Node>,
    root: Seq<char>,
    message: Seq<char>,
    head: Option<Seq<u8>>,
    r: Result<String, RuntimeError>,
    after: Map<Seq<char>, Node>,
    new_head: Option<Seq<u8>>,
    entries: Seq<EntryModel>,
)
    requires
        commit_outcome(added, root, message, head, r, after, new_head),
        r is Ok,
        index_in(added, root) == Some(entries),
        is_dir_in(added, objects_path(root)),
    ensures
        after == committed(added, objects_path(root), entries, message, head),
        new_head == Some(commit_for(entries, message, head).hash()),
{
    lemma_opens_as_is(added, root);
}

/// The store after the three objects of a first commit were put into it,
/// with the index file written in between.
pub proof fn lemma_first_commit_store(
    made: Map<Seq<char>, Node>,
    root: Seq<char>,
    entries: Seq<EntryModel>,
    items: Seq<(Seq<u8>, Seq<char>)>,
    hash: Seq<u8>,
)
    requires
        items.len() == 3,
        hash.len() >= 1,
        forall|i: int| 0 <= i < 3 ==> (#[trigger] items[i]).0.len() >= 1,
        !made.contains_key(crate::fsmap::object_path(objects_path(root), hash)),
    ensures
        crate::fsmap::stored(
            crate::fsmap::inserted(
                crate::fsmap::inserted(
                    saved(
                        crate::fsmap::inserted(made, objects_path(root), items[0].0, items[0].1),
                        root,
                        entries,
                    ),
                    objects_path(root),
                    items[1].0,
                    items[1].1,
                ),
                objects_path(root),
                items[2].0,
                items[2].1,
            ),
            objects_path(root),
            hash,
        ) == crate::fsmap::first_payload(items, hash),
{
    let store = objects_path(root);
    let with_blob = crate::fsmap::inserted(made, store, items[0].0, items[0].1);
    let with_tree = crate::fsmap::inserted(with_blob, store, items[1].0, items[1].1);
    let with_commit = crate::fsmap::inserted(with_tree, store, items[2].0, items[2].1);
    lemma_store_beside_index(with_blob, root, entries, items[1].0, items[1].1);
    lemma_store_beside_index(with_tree, root, entries, items[2].0, items[2].1);
    assert(crate::fsmap::inserted_all(made, store, items) == with_commit) by {
        let two = items.drop_last();
        let one = two.drop_last();
        assert(one.drop_last() =~= Seq::<(Seq<u8>, Seq<char>)>::empty());
        assert(one.last() == items[0] && two.last() == items[1] && items.last() == items[2]);
        assert(crate::fsmap::inserted_all(made, store, one.drop_last()) == made);
        assert(crate::fsmap::inserted_all(made, store, one) == with_blob);
        assert(crate::fsmap::inserted_all(made, store, two) == with_tree);
    }
    crate::fsmap::lemma_store_round_trip(made, store, items, hash);
    lemma_store_apart(root, hash);
}

/// From a fresh root, `Init`, then `Add` of one file, then `Commit` leave
/// in the store the blob of the file, the tree of its entry and the commit
/// without a parent, each under its hash, and nothing under any other hash;
/// and the head is the commit.
#[verifier::rlimit(50)]
pub proof fn lemma_first_commit(
    before: Map<Seq<char>, Node>,
    root: Seq<char>,
    path: Seq<char>,
    message: Seq<char>,
    made: Map<Seq<char>, Node>,
    added: Map<Seq<char>, Node>,
    after: Map<Seq<char>, Node>,
    r1: Result<String, RuntimeError>,
    r2: Result<String, RuntimeError>,
    r3: Result<String, RuntimeError>,
    head: Option<Seq<u8>>,
    hash: Seq<u8>,
)
    requires
        init_outcome(before, root, r1, made),
        add_outcome(made, root, path, r2, added),
        commit_outcome(added, root, message, None, r3, after, head),
        r1 is Ok,
        r2 is Ok,
        r3 is Ok,
        hash.len() >= 1,
        !before.contains_key(crate::fsmap::object_path(objects_path(root), hash)),
        forall|i: int|
            0 <= i < 3 ==> (#[trigger] first_commit_items(
                path,
                content_in(made, path),
                message,
            )[i]).0.len() >= 1,
    ensures
        crate::fsmap::stored(after, objects_path(root), hash) == crate::fsmap::first_payload(
            first_commit_items(path, content_in(made, path), message),
            hash,
        ),
        head == Some(
            commit_for(seq![staged(path, content_in(made, path))], message, None).hash(),
        ),
{
    let store = objects_path(root);
    let content = content_in(made, path);
    let entries = seq![staged(path, content)];
    let items = first_commit_items(path, content, message);
    lemma_after_init(before, root, r1, made);
    lemma_added_state(made, root, path, r2, added, Seq::empty());
    assert(Seq::<EntryModel>::empty().push(staged(path, content)) =~= entries);
    let with_blob = object_stored(made, store, blob_of(content));
    assert(index_in(added, root) == Some(entries) && is_dir_in(added, store)) by {
        crate::runner::lemma_save_then_load(with_blob, root, entries);
        assert(items[0].0.len() >= 1);
        lemma_insert_beside(made, root, items[0].0, items[0].1);
        lemma_paths_differ(root);
    }
    lemma_committed_state(added, root, message, None, r3, after, head, entries);
    assert(!made.contains_key(crate::fsmap::object_path(store, hash))) by {
        lemma_store_apart(root, hash);
        assert(crate::fsmap::object_path(store, hash).len() > store.len());
        lemma_below_root(root);
    }
    lemma_first_commit_store(made, root, entries, items, hash);
}

/// Opening the storage leaves every file that stood before as it was.
pub proof fn lemma_opened_keeps(nodes: Map<Seq<char>, Node>, root: Seq<char>, path: Seq<char>)
    requires
        is_file_in(nodes, path),
    ensures
        is_file_in(opened(nodes, root), path),
        content_in(opened(nodes, root), path) == content_in(nodes, path),
{
}

/// A repository that was created stands: its directory is there, so a
/// second `Init` is refused and changes nothing.
pub proof fn lemma_init_guard(
    nodes: Map<Seq<char>, Node>,
    root: Seq<char>,
    r: Result<String, RuntimeError>,
    after: Map<Seq<char>, Node>,
)
    requires
        init_outcome(initialized(nodes, root), root, r, after),
    ensures
        r == Err::<String, RuntimeError>(RuntimeError::AlreadyInitialized),
        after == initialized(nodes, root),
{
    lemma_below_root(root);
}

/// Staging a path at which no file stands leaves the file system, and with
/// it the index file, as it was.
pub proof fn lemma_add_missing(
    nodes: Map<Seq<char>, Node>,
    root: Seq<char>,
    path: Seq<char>,
    r: Result<String, RuntimeError>,
    after: Map<Seq<char>, Node>,
)
    requires
        !is_file_in(nodes, path),
        add_outcome(nodes, root, path, r, after),
    ensures
        r == Err::<String, RuntimeError>(RuntimeError::FileNotFound),
        after == nodes,
        index_in(after, root) == index_in(nodes, root),
{
}

/// After a file was staged, the index file holds the entries it held
/// before, in their order, and the new entry behind them.
pub proof fn lemma_add_persists(
    nodes: Map<Seq<char>, Node>,
    root: Seq<char>,
    path: Seq<char>,
    r: Result<String, RuntimeError>,
    after: Map<Seq<char>, Node>,
)
    requires
        add_outcome(nodes, root, path, r, after),
        r is Ok,
    ensures
        index_in(opened(nodes, root), root) is Some,
        index_in(after, root) == Some(
            index_in(opened(nodes, root), root)->0.push(staged(path, content_in(nodes, path))),
        ),
{
    crate::parse::lemma_decode_encode(
        index_in(opened(nodes, root), root)->0.push(staged(path, content_in(nodes, path))),
    );
}

} // verus!
