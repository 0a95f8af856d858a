//! Creating a file together with the directories above it.

use vstd::prelude::*;
use crate::fs::content_in;
use crate::fs::is_file_in;
use crate::fs::no_file_error;
use crate::fs::FileSystem;
use crate::fs::FsError;
use crate::fs::Node;
use crate::text::from_chars;
use crate::text::to_chars;

verus! {

/// The file system with a directory at `path`, where nothing stood there.
pub open spec fn with_dir(nodes: Map<Seq<char>, Node>, path: Seq<char>) -> Map<Seq<char>, Node> {
    if nodes.contains_key(path) {
        nodes
    } else {
        nodes.insert(path, Node::Dir)
    }
}

/// Whether a step of `path` ends before place `k`: at a separator, or at
/// the end of the path.
pub open spec fn step_end(path: Seq<char>, k: int) -> bool {
    0 < k <= path.len() && (k == path.len() || path[k] == '/')
}

/// The file system after a directory was made, where nothing stood, at
/// every step of `path` that ends at or before place `k`, the shorter first.
pub open spec fn with_steps(nodes: Map<Seq<char>, Node>, path: Seq<char>, k: int) -> Map<
    Seq<char>,
    Node,
>
    decreases k,
{
    if k <= 0 {
        nodes
    } else if step_end(path, k) {
        with_dir(with_steps(nodes, path, k - 1), path.take(k))
    } else {
        with_steps(nodes, path, k - 1)
    }
}

/// The file system after `path` and every directory above it were made.
pub open spec fn with_all_dirs(nodes: Map<Seq<char>, Node>, path: Seq<char>) -> Map<Seq<char>, Node> {
    with_steps(nodes, path, path.len() as int)
}

/// The place of the last separator of `path`, or 0 where it has none.
pub open spec fn parent_len(path: Seq<char>) -> int
    decreases path.len(),
{
    if path.len() == 0 {
        0
    } else if path.last() == '/' {
        path.len() - 1
    } else {
        parent_len(path.drop_last())
    }
}

/// The directory that `path` lies in: what stands before its last separator.
pub open spec fn parent_of(path: Seq<char>) -> Seq<char> {
    path.take(parent_len(path))
}

/// The file system after the file at `path` was made ready for writing: the
/// directories above it made, and an empty file where nothing stood at `path`.
pub open spec fn with_file(nodes: Map<Seq<char>, Node>, path: Seq<char>) -> Map<Seq<char>, Node> {
    let above = with_all_dirs(nodes, parent_of(path));
    if above.contains_key(path) {
        above
    } else {
        above.insert(path, Node::File(Seq::empty()))
    }
}

/// A file system with the operations that make what is missing.
pub struct VfsWrapper<F: FileSystem> {
    pub fs: F,
}

/// A file that was made ready for writing.
#[derive(Debug)]
pub struct FileWriter {
    pub path: String,
    pub already_created: bool,
}

impl<F: FileSystem> VfsWrapper<F> {
    /// The wrapper of `fs`.
    pub fn new(fs: F) -> (r: Self)
        ensures
            r.fs == fs,
    {
        Self { fs }
    }

    /// Makes a directory at `path` and at every step above it, where
    /// nothing stands yet.
    pub fn create_dir_all(&mut self, path: &str)
        requires
            old(self).fs.wf(),
        ensures
            final(self).fs.wf(),
            final(self).fs.nodes() == with_all_dirs(old(self).fs.nodes(), path@),
    {
        let chars = to_chars(path);
        let mut prefix: Vec<char> = Vec::new();
        let mut k: usize = 0;
        while k < chars.len()
            invariant
                self.fs.wf(),
                k <= chars.len(),
                chars@ == path@,
                prefix@ == chars@.take(k as int),
                self.fs.nodes() == with_steps(old(self).fs.nodes(), chars@, k as int),
            decreases chars.len() - k,
        {
            prefix.push(chars[k]);
            k += 1;
            assert(prefix@ =~= chars@.take(k as int));
            if k == chars.len() || chars[k] == '/' {
                let step = from_chars(&prefix);
                if !self.fs.is_present(step.as_str()) {
                    let made = self.fs.create_dir(step.as_str());
                    assert(made is Ok);
                }
            }
        }
    }

    /// Makes the file at `path` ready for writing: makes the directories
    /// above it, and an empty file where nothing stands at `path`. The
    /// writer says whether something stood there already.
    pub fn create_file(&mut self, path: &str) -> (w: FileWriter)
        requires
            old(self).fs.wf(),
        ensures
            final(self).fs.wf(),
            w.path@ == path@,
            w.already_created == with_all_dirs(
                old(self).fs.nodes(),
                parent_of(path@),
            ).contains_key(path@),
            final(self).fs.nodes() == with_file(old(self).fs.nodes(), path@),
    {
        let chars = to_chars(path);
        let mut cut: usize = 0;
        let mut k: usize = 0;
        while k < chars.len()
            invariant
                k <= chars.len(),
                cut <= k,
                cut as int == parent_len(chars@.take(k as int)),
            decreases chars.len() - k,
        {
            if chars[k] == '/' {
                cut = k;
            }
            proof {
                let next = chars@.take(k + 1);
                assert(next.drop_last() =~= chars@.take(k as int));
                assert(next.last() == chars@[k as int]);
            }
            k += 1;
        }
        assert(chars@.take(chars.len() as int) =~= chars@);
        let mut above: Vec<char> = Vec::new();
        let mut i: usize = 0;
        while i < cut
            invariant
                i <= cut <= chars.len(),
                above@ == chars@.take(i as int),
            decreases cut - i,
        {
            above.push(chars[i]);
            i += 1;
            assert(above@ =~= chars@.take(i as int));
        }
        let parent = from_chars(&above);
        self.create_dir_all(parent.as_str());
        let mut already_created = true;
        if !self.fs.is_present(path) {
            let made = self.fs.create_file(path);
            assert(made is Ok);
            already_created = false;
        }
        FileWriter { path: String::from_str(path), already_created }
    }
}

impl FileWriter {
    /// Appends `buf` to the file.
    pub fn write<F: FileSystem>(&self, fs: &mut F, buf: &str) -> (r: Result<(), FsError>)
        requires
            old(fs).wf(),
        ensures
            final(fs).wf(),
            match r {
                Ok(()) => {
                    &&& is_file_in(old(fs).nodes(), self.path@)
                    &&& final(fs).nodes() == old(fs).nodes().insert(
                        self.path@,
                        Node::File(content_in(old(fs).nodes(), self.path@) + buf@),
                    )
                },
                Err(e) => {
                    &&& !is_file_in(old(fs).nodes(), self.path@)
                    &&& e == no_file_error(old(fs).nodes(), self.path@)
                    &&& final(fs).nodes() == old(fs).nodes()
                },
            },
    {
        fs.append_file(self.path.as_str(), buf)
    }

    /// Whether something stood at the path before the writer was made.
    pub fn already_created(&self) -> (r: bool)
        ensures
            r == self.already_created,
    {
        self.already_created
    }
}

} // verus!
