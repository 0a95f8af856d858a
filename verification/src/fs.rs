//! The file system that the store is kept in, as a small interface over a
//! flat model: a map from path to node.

use vstd::prelude::*;

verus! {

/// What stands at a path: a file with its content, or a directory.
pub enum Node {
    File(Seq<char>),
    Dir,
}

/// Why an operation on the file system was refused.
#[derive(Debug, Clone, Copy, PartialEq, Eq, Structural)]
pub enum FsError {
    /// Nothing stands at the path.
    NotFound,
    /// Something stands at the path already.
    AlreadyExists,
    /// A directory stands where a file was asked for.
    NotAFile,
    /// A file stands where a directory was asked for.
    NotADirectory,
}

/// The path of `name` inside `dir`.
pub open spec fn join(dir: Seq<char>, name: Seq<char>) -> Seq<char> {
    dir + seq!['/'] + name
}

/// A name that holds no separator.
pub open spec fn plain_name(name: Seq<char>) -> bool {
    forall|i: int| 0 <= i < name.len() ==> name[i] != '/'
}

/// Whether `path` lies below `dir`, at any depth.
pub open spec fn under(path: Seq<char>, dir: Seq<char>) -> bool {
    path.len() > dir.len() && path.take(dir.len() + 1int) == dir + seq!['/']
}

/// Whether a directory stands at `path`.
pub open spec fn is_dir_in(nodes: Map<Seq<char>, Node>, path: Seq<char>) -> bool {
    nodes.contains_key(path) && nodes[path] is Dir
}

/// Whether a file stands at `path`.
pub open spec fn is_file_in(nodes: Map<Seq<char>, Node>, path: Seq<char>) -> bool {
    nodes.contains_key(path) && nodes[path] is File
}

/// The content of the file at `path`.
pub open spec fn content_in(nodes: Map<Seq<char>, Node>, path: Seq<char>) -> Seq<char> {
    match nodes[path] {
        Node::File(content) => content,
        Node::Dir => Seq::empty(),
    }
}

/// The error for a path at which no file can be read.
pub open spec fn no_file_error(nodes: Map<Seq<char>, Node>, path: Seq<char>) -> FsError {
    if nodes.contains_key(path) {
        FsError::NotAFile
    } else {
        FsError::NotFound
    }
}

/// The error for a path at which no directory can be read.
pub open spec fn no_dir_error(nodes: Map<Seq<char>, Node>, path: Seq<char>) -> FsError {
    if nodes.contains_key(path) {
        FsError::NotADirectory
    } else {
        FsError::NotFound
    }
}

/// Whether `names` lists the children of `dir`: each once, and exactly the
/// plain names that stand directly inside it.
pub open spec fn lists(nodes: Map<Seq<char>, Node>, dir: Seq<char>, names: Seq<Seq<char>>) -> bool {
    &&& names.no_duplicates()
    &&& forall|name: Seq<char>| #[trigger]
        names.contains(name) <==> plain_name(name) && nodes.contains_key(join(dir, name))
}

/// What is left of `nodes` when `dir` and all below it are removed.
pub open spec fn without_tree(nodes: Map<Seq<char>, Node>, dir: Seq<char>) -> Map<Seq<char>, Node> {
    Map::new(
        |p: Seq<char>| nodes.contains_key(p) && p != dir && !under(p, dir),
        |p: Seq<char>| nodes[p],
    )
}

/// The views of a vector of strings.
pub open spec fn strings_view(v: Seq<String>) -> Seq<Seq<char>> {
    v.map_values(|s: String| s@)
}

/// The primitives that the store consumes. An operation takes effect in full
/// or not at all, and says which; an implementation that meets a failure
/// outside this model (a device error, a missing permission) does not return.
///
/// The three functions of the model have defaults that claim nothing: `wf`
/// is false by default, and every contract asks for it. An implementation
/// that is not verified keeps the defaults, and nothing is then said of it;
/// a verified one states its own model and proves each operation against it.
pub trait FileSystem {
    /// Whether the value is in a state that the operations can start from.
    open spec fn wf(&self) -> bool {
        false
    }

    /// What stands at each path.
    open spec fn nodes(&self) -> Map<Seq<char>, Node> {
        Map::empty()
    }

    /// The names inside a directory, in the order in which they are listed.
    open spec fn listing(&self, dir: Seq<char>) -> Seq<Seq<char>> {
        Seq::empty()
    }

    /// Whether anything stands at `path`.
    fn is_present(&self, path: &str) -> (b: bool)
        requires
            self.wf(),
        ensures
            b == self.nodes().contains_key(path@),
    ;

    /// Whether a directory stands at `path`.
    fn is_dir(&self, path: &str) -> (b: bool)
        requires
            self.wf(),
        ensures
            b == is_dir_in(self.nodes(), path@),
    ;

    /// Creates a directory at a path where nothing stands.
    fn create_dir(&mut self, path: &str) -> (r: Result<(), FsError>)
        requires
            old(self).wf(),
        ensures
            final(self).wf(),
            match r {
                Ok(()) => {
                    &&& !old(self).nodes().contains_key(path@)
                    &&& final(self).nodes() == old(self).nodes().insert(path@, Node::Dir)
                },
                Err(e) => {
                    &&& e == FsError::AlreadyExists
                    &&& old(self).nodes().contains_key(path@)
                    &&& final(self).nodes() == old(self).nodes()
                },
            },
    ;

    /// Creates an empty file at `path`, or empties the file that stands there.
    fn create_file(&mut self, path: &str) -> (r: Result<(), FsError>)
        requires
            old(self).wf(),
        ensures
            final(self).wf(),
            match r {
                Ok(()) => {
                    &&& !is_dir_in(old(self).nodes(), path@)
                    &&& final(self).nodes() == old(self).nodes().insert(
                        path@,
                        Node::File(Seq::empty()),
                    )
                },
                Err(e) => {
                    &&& e == FsError::NotAFile
                    &&& is_dir_in(old(self).nodes(), path@)
                    &&& final(self).nodes() == old(self).nodes()
                },
            },
    ;

    /// Appends `data` to the file at `path`.
    fn append_file(&mut self, path: &str, data: &str) -> (r: Result<(), FsError>)
        requires
            old(self).wf(),
        ensures
            final(self).wf(),
            match r {
                Ok(()) => {
                    &&& is_file_in(old(self).nodes(), path@)
                    &&& final(self).nodes() == old(self).nodes().insert(
                        path@,
                        Node::File(content_in(old(self).nodes(), path@) + data@),
                    )
                },
                Err(e) => {
                    &&& !is_file_in(old(self).nodes(), path@)
                    &&& e == no_file_error(old(self).nodes(), path@)
                    &&& final(self).nodes() == old(self).nodes()
                },
            },
    ;

    /// The whole content of the file at `path`.
    fn read_file(&self, path: &str) -> (r: Result<String, FsError>)
        requires
            self.wf(),
        ensures
            match r {
                Ok(content) => is_file_in(self.nodes(), path@) && content@ == content_in(
                    self.nodes(),
                    path@,
                ),
                Err(e) => !is_file_in(self.nodes(), path@) && e == no_file_error(
                    self.nodes(),
                    path@,
                ),
            },
    ;

    /// The names inside the directory at `path`.
    fn read_dir(&self, path: &str) -> (r: Result<Vec<String>, FsError>)
        requires
            self.wf(),
        ensures
            match r {
                Ok(names) => {
                    &&& is_dir_in(self.nodes(), path@)
                    &&& strings_view(names@) == self.listing(path@)
                    &&& lists(self.nodes(), path@, self.listing(path@))
                },
                Err(e) => !is_dir_in(self.nodes(), path@) && e == no_dir_error(
                    self.nodes(),
                    path@,
                ),
            },
    ;

    /// Removes the directory at `path` and all that lies below it.
    fn remove_dir(&mut self, path: &str) -> (r: Result<(), FsError>)
        requires
            old(self).wf(),
        ensures
            final(self).wf(),
            match r {
                Ok(()) => is_dir_in(old(self).nodes(), path@) && final(self).nodes()
                    == without_tree(old(self).nodes(), path@),
                Err(e) => !is_dir_in(old(self).nodes(), path@) && e == no_dir_error(
                    old(self).nodes(),
                    path@,
                ) && final(self).nodes() == old(self).nodes(),
            },
    ;
}

/// The words for an error of the file system.
pub open spec fn fs_error_text(e: FsError) -> Seq<char> {
    match e {
        FsError::NotFound => "no such file or directory"@,
        FsError::AlreadyExists => "file or directory exists already"@,
        FsError::NotAFile => "is a directory"@,
        FsError::NotADirectory => "not a directory"@,
    }
}

impl FsError {
    /// The error in words.
    pub fn message(&self) -> (s: String)
        ensures
            s@ == fs_error_text(*self),
    {
        match self {
            FsError::NotFound => String::from_str("no such file or directory"),
            FsError::AlreadyExists => String::from_str("file or directory exists already"),
            FsError::NotAFile => String::from_str("is a directory"),
            FsError::NotADirectory => String::from_str("not a directory"),
        }
    }
}

/// The path of `name` inside `dir`.
pub fn join_path(dir: &str, name: &str) -> (path: String)
    ensures
        path@ == join(dir@, name@),
{
    let mut path = String::from_str(dir);
    path.push('/');
    path.append(name);
    assert(path@ =~= join(dir@, name@));
    path
}

} // verus!
