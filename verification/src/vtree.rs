//! A tree of files and directories, built step by step.

use vstd::prelude::*;

verus! {

/// A file with its content, or a directory with what it holds.
#[derive(Debug)]
pub enum Data {
    File { name: String, content: String },
    Directory { name: String, contents: Vec<Data> },
}

impl Data {
    /// The file `name` with the content `content`.
    pub fn file(name: String, content: String) -> (r: Self)
        ensures
            r == (Data::File { name, content }),
    {
        Self::File { name, content }
    }

    /// The directory `name` that holds `contents`.
    pub fn directory(name: String, contents: Vec<Data>) -> (r: Self)
        ensures
            r == (Data::Directory { name, contents }),
    {
        Self::Directory { name, contents }
    }
}

/// The top level of a tree of files and directories.
#[derive(Debug)]
pub struct VFS {
    pub datas: Vec<Data>,
}

impl VFS {
    /// The tree that holds nothing.
    pub fn new() -> (r: Self)
        ensures
            r.datas@ == Seq::<Data>::empty(),
    {
        Self { datas: Vec::new() }
    }

    /// Adds the directory `directory_name` at the end, holding what
    /// `child_builder` makes of an empty tree, and hands the tree back for
    /// the next step.
    pub fn mkdir<B: FnOnce(VFS) -> VFS>(
        &mut self,
        directory_name: String,
        child_builder: B,
    ) -> (r: &mut Self)
        requires
            forall|start: VFS| start.datas@.len() == 0 ==> child_builder.requires((start,)),
        ensures
            exists|start: VFS, built: VFS|
                start.datas@.len() == 0 && child_builder.ensures((start,), built) && r.datas@
                    == old(self).datas@.push(
                    Data::Directory { name: directory_name, contents: built.datas },
                ),
            *final(self) == *final(r),
    {
        let built = child_builder(VFS::new());
        self.datas.push(Data::directory(directory_name, built.datas));
        self
    }

    /// Adds the file `file_name` with the content `content` at the end, and
    /// hands the tree back for the next step.
    pub fn touch(&mut self, file_name: String, content: String) -> (r: &mut Self)
        ensures
            r.datas@ == old(self).datas@.push(Data::File { name: file_name, content }),
            *final(self) == *final(r),
    {
        self.datas.push(Data::file(file_name, content));
        self
    }
}

} // verus!
