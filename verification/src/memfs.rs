//! A file system held in memory: a list of nodes, each under its full path.

use vstd::prelude::*;
use crate::fs::join;
use crate::fs::lists;
use crate::fs::plain_name;
use crate::fs::strings_view;
use crate::fs::under;
use crate::fs::without_tree;
use crate::fs::FileSystem;
use crate::fs::FsError;
use crate::fs::Node;
use crate::text::chars_eq;
use crate::text::from_chars;
use crate::text::to_chars;

verus! {

/// One node of the file system in memory.
pub struct MemNode {
    path: Vec<char>,
    dir: bool,
    content: String,
}

impl MemNode {
    /// What the node stands for in the model.
    pub closed spec fn node(self) -> Node {
        if self.dir {
            Node::Dir
        } else {
            Node::File(self.content@)
        }
    }

    /// The path that the node stands at.
    pub closed spec fn at(self) -> Seq<char> {
        self.path@
    }
}

/// The paths of a list of nodes, in order.
pub open spec fn node_paths(entries: Seq<MemNode>) -> Seq<Seq<char>> {
    entries.map_values(|e: MemNode| e.at())
}

/// The name of `path` as a child of `dir`, if it is one.
pub open spec fn child_name(path: Seq<char>, dir: Seq<char>) -> Option<Seq<char>> {
    if under(path, dir) && plain_name(path.skip(dir.len() + 1int)) {
        Some(path.skip(dir.len() + 1int))
    } else {
        None
    }
}

/// The names of the children of `dir` among `paths`, in order.
pub open spec fn names_in(paths: Seq<Seq<char>>, dir: Seq<char>) -> Seq<Seq<char>>
    decreases paths.len(),
{
    if paths.len() == 0 {
        Seq::empty()
    } else {
        let before = names_in(paths.drop_last(), dir);
        match child_name(paths.last(), dir) {
            Some(name) => before.push(name),
            None => before,
        }
    }
}

/// A path is a child of `dir` under the name `name` exactly when it is
/// their join and the name is plain.
pub proof fn lemma_child_name(path: Seq<char>, dir: Seq<char>, name: Seq<char>)
    ensures
        child_name(path, dir) == Some(name) <==> path == join(dir, name) && plain_name(name),
{
    let cut = dir.len() + 1int;
    if child_name(path, dir) == Some(name) {
        assert(path =~= path.take(cut) + path.skip(cut));
        assert(path =~= join(dir, name));
    }
    if path == join(dir, name) && plain_name(name) {
        assert(path.take(cut) =~= dir + seq!['/']);
        assert(path.skip(cut) =~= name);
    }
}

/// Among paths that occur once each, the names of the children of `dir`
/// occur once each and are exactly the plain names whose join is a path.
#[verifier::rlimit(50)]
pub proof fn lemma_names_in(paths: Seq<Seq<char>>, dir: Seq<char>)
    requires
        paths.no_duplicates(),
    ensures
        names_in(paths, dir).no_duplicates(),
        forall|name: Seq<char>| #[trigger]
            names_in(paths, dir).contains(name) <==> plain_name(name) && paths.contains(
                join(dir, name),
            ),
    decreases paths.len(),
{
    if paths.len() > 0 {
        let front = paths.drop_last();
        let before = names_in(front, dir);
        lemma_names_in(front, dir);
        assert forall|p: Seq<char>| paths.contains(p) <==> front.contains(p) || p
            == paths.last() by {
            if paths.contains(p) {
                let i = choose|i: int| 0 <= i < paths.len() && paths[i] == p;
                if i < front.len() {
                    assert(front[i] == p);
                }
            }
            if front.contains(p) {
                let i = choose|i: int| 0 <= i < front.len() && front[i] == p;
                assert(paths[i] == p);
            }
            if p == paths.last() {
                assert(paths[paths.len() - 1] == p);
            }
        }
        assert(!front.contains(paths.last())) by {
            if front.contains(paths.last()) {
                let i = choose|i: int| 0 <= i < front.len() && front[i] == paths.last();
                assert(paths[i] == paths[paths.len() - 1]);
            }
        }
        assert forall|name: Seq<char>| #[trigger]
            names_in(paths, dir).contains(name) <==> plain_name(name) && paths.contains(
                join(dir, name),
            ) by {
            lemma_child_name(paths.last(), dir, name);
            match child_name(paths.last(), dir) {
                Some(last) => {
                    assert(before.push(last).contains(name) <==> before.contains(name) || name
                        == last) by {
                        if before.push(last).contains(name) {
                            let i = choose|i: int|
                                0 <= i < before.push(last).len() && before.push(last)[i] == name;
                            if i < before.len() {
                                assert(before[i] == name);
                            }
                        }
                        if before.contains(name) {
                            let i = choose|i: int| 0 <= i < before.len() && before[i] == name;
                            assert(before.push(last)[i] == name);
                        }
                        if name == last {
                            assert(before.push(last)[before.len() as int] == name);
                        }
                    }
                },
                None => {},
            }
        }
        match child_name(paths.last(), dir) {
            Some(last) => {
                lemma_child_name(paths.last(), dir, last);
                assert(!before.contains(last));
                assert(before.push(last).no_duplicates());
            },
            None => {},
        }
    }
}

/// A copy of `v`.
pub fn copy_chars(v: &Vec<char>) -> (r: Vec<char>)
    ensures
        r@ == v@,
{
    let mut r: Vec<char> = Vec::new();
    let mut i: usize = 0;
    while i < v.len()
        invariant
            i <= v.len(),
            r@ == v@.take(i as int),
        decreases v.len() - i,
    {
        r.push(v[i]);
        i += 1;
        assert(r@ =~= v@.take(i as int));
    }
    assert(v@.take(v.len() as int) =~= v@);
    r
}

/// Whether `path` lies below `dir`.
pub fn is_under(path: &Vec<char>, dir: &Vec<char>) -> (r: bool)
    ensures
        r == under(path@, dir@),
{
    if path.len() <= dir.len() {
        return false;
    }
    let ghost head = path@.take(dir.len() + 1int);
    let ghost want = dir@ + seq!['/'];
    let mut i: usize = 0;
    while i < dir.len()
        invariant
            i <= dir.len(),
            dir.len() < path.len(),
            forall|k: int| 0 <= k < i ==> path@[k] == dir@[k],
            head == path@.take(dir.len() + 1int),
            want == dir@ + seq!['/'],
        decreases dir.len() - i,
    {
        if path[i] != dir[i] {
            assert(head[i as int] != want[i as int]);
            return false;
        }
        i += 1;
    }
    if path[dir.len()] != '/' {
        assert(head[dir.len() as int] != want[dir.len() as int]);
        return false;
    }
    assert(head =~= want);
    true
}

/// The name of `path` as a child of `dir`, if it is one.
pub fn child_of(path: &Vec<char>, dir: &Vec<char>) -> (r: Option<Vec<char>>)
    ensures
        match r {
            Some(name) => child_name(path@, dir@) == Some(name@),
            None => child_name(path@, dir@) is None,
        },
{
    if !is_under(path, dir) {
        return None;
    }
    assert(dir.len() < path.len());
    let start: usize = dir.len() + 1;
    let ghost tail = path@.skip(start as int);
    let mut name: Vec<char> = Vec::new();
    let mut i: usize = start;
    while i < path.len()
        invariant
            start <= i <= path.len(),
            start == dir.len() + 1,
            tail == path@.skip(start as int),
            name@ == tail.take(i - start),
            plain_name(name@),
        decreases path.len() - i,
    {
        if path[i] == '/' {
            assert(tail[i - start] == '/');
            return None;
        }
        name.push(path[i]);
        i += 1;
        assert(name@ =~= tail.take(i - start));
    }
    assert(tail.take(path.len() - start) =~= tail);
    Some(name)
}

/// A file system held in memory.
pub struct MemFs {
    entries: Vec<MemNode>,
    model: Ghost<Map<Seq<char>, Node>>,
}

/// Whether `path` survives the removal of `dir` and all below it.
pub open spec fn survives(path: Seq<char>, dir: Seq<char>) -> bool {
    path != dir && !under(path, dir)
}

/// The nodes of `entries` that survive the removal of `dir`.
#[verifier::rlimit(50)]
fn prune(entries: Vec<MemNode>, dir: &Vec<char>) -> (kept: Vec<MemNode>)
    requires
        node_paths(entries@).no_duplicates(),
    ensures
        node_paths(kept@).no_duplicates(),
        forall|j: int|
            0 <= j < kept@.len() ==> entries@.contains(#[trigger] kept@[j]) && survives(
                kept@[j].at(),
                dir@,
            ),
        forall|i: int|
            0 <= i < entries@.len() && survives((#[trigger] entries@[i]).at(), dir@)
                ==> kept@.contains(entries@[i]),
{
    let ghost given = entries@;
    let mut rest = entries;
    let mut kept: Vec<MemNode> = Vec::new();
    while rest.len() > 0
        invariant
            rest@ == given.take(rest@.len() as int),
            rest@.len() <= given.len(),
            node_paths(given).no_duplicates(),
            node_paths(kept@).no_duplicates(),
            forall|j: int|
                0 <= j < kept@.len() ==> survives((#[trigger] kept@[j]).at(), dir@) && exists|
                    i: int,
                |
                    rest@.len() <= i < given.len() && given[i] == kept@[j],
            forall|i: int|
                rest@.len() <= i < given.len() && survives((#[trigger] given[i]).at(), dir@)
                    ==> kept@.contains(given[i]),
        decreases rest@.len(),
    {
        let ghost n = rest@.len() - 1;
        let ghost held = kept@;
        let e = rest.pop().unwrap();
        assert(e == given[n]);
        assert(rest@ =~= given.take(n));
        let gone = chars_eq(&e.path, dir) || is_under(&e.path, dir);
        if !gone {
            kept.push(e);
            proof {
                assert forall|a: int, b: int| 0 <= a < b < kept@.len() implies node_paths(kept@)[a]
                    != node_paths(kept@)[b] by {
                    if b == held.len() {
                        let i = choose|i: int| n < i < given.len() && given[i] == held[a];
                        assert(node_paths(given)[i] != node_paths(given)[n]);
                    } else {
                        assert(node_paths(held)[a] != node_paths(held)[b]);
                    }
                }
                assert forall|i: int|
                    n <= i < given.len() && survives(
                        (#[trigger] given[i]).at(),
                        dir@,
                    ) implies kept@.contains(given[i]) by {
                    if i == n {
                        assert(kept@[held.len() as int] == given[i]);
                    } else {
                        let j = choose|j: int| 0 <= j < held.len() && held[j] == given[i];
                        assert(kept@[j] == given[i]);
                    }
                }
                assert forall|j: int| 0 <= j < kept@.len() implies survives(
                    (#[trigger] kept@[j]).at(),
                    dir@,
                ) && exists|i: int| n <= i < given.len() && given[i] == kept@[j] by {
                    if j < held.len() {
                        assert(kept@[j] == held[j]);
                    }
                }
            }
        }
    }
    proof {
        assert forall|j: int| 0 <= j < kept@.len() implies given.contains(#[trigger] kept@[j])
            && survives(kept@[j].at(), dir@) by {
            let i = choose|i: int| 0 <= i < given.len() && given[i] == kept@[j];
            assert(given[i] == kept@[j]);
        }
    }
    kept
}

impl MemFs {
    /// The paths of the nodes, in order.
    pub closed spec fn paths(&self) -> Seq<Seq<char>> {
        node_paths(self.entries@)
    }

    /// The nodes stand for the model: each path once, each node under its
    /// path, and no path in the model without a node.
    pub closed spec fn inv(&self) -> bool {
        &&& self.paths().no_duplicates()
        &&& forall|i: int|
            0 <= i < self.entries@.len() ==> self.model@.contains_key(
                (#[trigger] self.entries@[i]).at(),
            ) && self.model@[self.entries@[i].at()] == self.entries@[i].node()
        &&& forall|p: Seq<char>| #[trigger] self.model@.contains_key(p) ==> self.paths().contains(p)
    }

    /// A listing names exactly the children of its directory.
    pub proof fn listing_lists(&self, dir: Seq<char>)
        requires
            self.wf(),
        ensures
            lists(self.nodes(), dir, self.listing(dir)),
    {
        lemma_names_in(self.paths(), dir);
        assert forall|name: Seq<char>| #[trigger]
            self.listing(dir).contains(name) <==> plain_name(name) && self.nodes().contains_key(
                join(dir, name),
            ) by {
            let p = join(dir, name);
            if self.paths().contains(p) {
                let k = choose|k: int| 0 <= k < self.paths().len() && self.paths()[k] == p;
                assert(self.entries@[k].at() == p);
            }
        }
    }

    /// An empty file system.
    pub fn new() -> (fs: Self)
        ensures
            fs.wf(),
            fs.nodes() == Map::<Seq<char>, Node>::empty(),
    {
        let fs = MemFs { entries: Vec::new(), model: Ghost(Map::empty()) };
        assert(fs.paths() =~= Seq::empty());
        fs
    }

    /// The place of the node at `path`.
    fn find(&self, path: &Vec<char>) -> (r: Option<usize>)
        requires
            self.inv(),
        ensures
            match r {
                Some(i) => i < self.entries@.len() && self.entries@[i as int].at() == path@
                    && self.model@.contains_key(path@) && self.model@[path@]
                    == self.entries@[i as int].node(),
                None => !self.model@.contains_key(path@),
            },
    {
        let mut i: usize = 0;
        while i < self.entries.len()
            invariant
                self.inv(),
                i <= self.entries.len(),
                forall|k: int| 0 <= k < i ==> self.paths()[k] != path@,
            decreases self.entries.len() - i,
        {
            if chars_eq(&self.entries[i].path, path) {
                assert(self.model@.contains_key(self.entries@[i as int].at()));
                return Some(i);
            }
            i += 1;
        }
        proof {
            if self.model@.contains_key(path@) {
                let k = choose|k: int| 0 <= k < self.paths().len() && self.paths()[k] == path@;
                assert(false);
            }
        }
        None
    }

    /// Puts `node` at a path where nothing stands.
    fn add(&mut self, node: MemNode)
        requires
            old(self).inv(),
            !old(self).model@.contains_key(node.at()),
        ensures
            final(self).inv(),
            final(self).model@ == old(self).model@.insert(node.at(), node.node()),
    {
        let ghost before = self.entries@;
        self.entries.push(node);
        self.model = Ghost(self.model@.insert(node.at(), node.node()));
        proof {
            assert forall|a: int, b: int| 0 <= a < b < self.paths().len() implies self.paths()[a]
                != self.paths()[b] by {
                if b == before.len() {
                    assert(old(self).model@.contains_key(before[a].at()));
                } else {
                    assert(old(self).paths()[a] != old(self).paths()[b]);
                }
            }
            assert forall|i: int| 0 <= i < self.entries@.len() implies self.model@.contains_key(
                (#[trigger] self.entries@[i]).at(),
            ) && self.model@[self.entries@[i].at()] == self.entries@[i].node() by {
                if i < before.len() {
                    assert(self.entries@[i] == before[i]);
                    assert(old(self).model@.contains_key(before[i].at()));
                }
            }
            assert forall|p: Seq<char>| #[trigger]
                self.model@.contains_key(p) implies self.paths().contains(p) by {
                if p == node.at() {
                    assert(self.paths()[before.len() as int] == p);
                } else {
                    let k = choose|k: int|
                        0 <= k < old(self).paths().len() && old(self).paths()[k] == p;
                    assert(self.paths()[k] == p);
                }
            }
        }
    }

    /// Replaces the content of the file at place `i`.
    fn put(&mut self, i: usize, content: String)
        requires
            old(self).inv(),
            i < old(self).entries@.len(),
        ensures
            final(self).inv(),
            final(self).model@ == old(self).model@.insert(
                old(self).entries@[i as int].at(),
                Node::File(content@),
            ),
    {
        let ghost before = self.entries@;
        let path = copy_chars(&self.entries[i].path);
        let node = MemNode { path, dir: false, content };
        self.entries.set(i, node);
        self.model = Ghost(self.model@.insert(node.at(), node.node()));
        proof {
            assert(self.paths() =~= old(self).paths());
            assert forall|k: int| 0 <= k < self.entries@.len() implies self.model@.contains_key(
                (#[trigger] self.entries@[k]).at(),
            ) && self.model@[self.entries@[k].at()] == self.entries@[k].node() by {
                if k != i {
                    assert(self.entries@[k] == before[k]);
                    assert(old(self).model@.contains_key(before[k].at()));
                    assert(old(self).paths()[k] != old(self).paths()[i as int]);
                }
            }
            assert forall|p: Seq<char>| #[trigger]
                self.model@.contains_key(p) implies self.paths().contains(p) by {
                if p == node.at() {
                    assert(self.paths()[i as int] == p);
                }
            }
        }
    }
}

impl FileSystem for MemFs {
    closed spec fn wf(&self) -> bool {
        self.inv()
    }

    closed spec fn nodes(&self) -> Map<Seq<char>, Node> {
        self.model@
    }

    closed spec fn listing(&self, dir: Seq<char>) -> Seq<Seq<char>> {
        names_in(self.paths(), dir)
    }

    fn is_present(&self, path: &str) -> (b: bool) {
        let p = to_chars(path);
        self.find(&p).is_some()
    }

    fn is_dir(&self, path: &str) -> (b: bool) {
        let p = to_chars(path);
        match self.find(&p) {
            Some(i) => self.entries[i].dir,
            None => false,
        }
    }

    fn create_dir(&mut self, path: &str) -> (r: Result<(), FsError>) {
        let p = to_chars(path);
        match self.find(&p) {
            Some(_) => Err(FsError::AlreadyExists),
            None => {
                self.add(MemNode { path: p, dir: true, content: String::new() });
                Ok(())
            },
        }
    }

    fn create_file(&mut self, path: &str) -> (r: Result<(), FsError>) {
        let p = to_chars(path);
        match self.find(&p) {
            Some(i) => {
                if self.entries[i].dir {
                    Err(FsError::NotAFile)
                } else {
                    self.put(i, String::new());
                    Ok(())
                }
            },
            None => {
                self.add(MemNode { path: p, dir: false, content: String::new() });
                Ok(())
            },
        }
    }

    fn append_file(&mut self, path: &str, data: &str) -> (r: Result<(), FsError>) {
        let p = to_chars(path);
        match self.find(&p) {
            Some(i) => {
                if self.entries[i].dir {
                    Err(FsError::NotAFile)
                } else {
                    let mut content = self.entries[i].content.clone();
                    content.append(data);
                    self.put(i, content);
                    Ok(())
                }
            },
            None => Err(FsError::NotFound),
        }
    }

    fn read_file(&self, path: &str) -> (r: Result<String, FsError>) {
        let p = to_chars(path);
        match self.find(&p) {
            Some(i) => {
                if self.entries[i].dir {
                    Err(FsError::NotAFile)
                } else {
                    Ok(self.entries[i].content.clone())
                }
            },
            None => Err(FsError::NotFound),
        }
    }

    fn read_dir(&self, path: &str) -> (r: Result<Vec<String>, FsError>) {
        let p = to_chars(path);
        match self.find(&p) {
            Some(i) => {
                if !self.entries[i].dir {
                    return Err(FsError::NotADirectory);
                }
            },
            None => {
                return Err(FsError::NotFound);
            },
        }
        let mut names: Vec<String> = Vec::new();
        let mut k: usize = 0;
        while k < self.entries.len()
            invariant
                k <= self.entries.len(),
                p@ == path@,
                strings_view(names@) == names_in(self.paths().take(k as int), p@),
            decreases self.entries.len() - k,
        {
            let ghost listed = strings_view(names@);
            match child_of(&self.entries[k].path, &p) {
                Some(name) => {
                    names.push(from_chars(&name));
                    assert(strings_view(names@) =~= listed.push(name@));
                },
                None => {},
            }
            proof {
                let next = self.paths().take(k + 1);
                assert(next.drop_last() =~= self.paths().take(k as int));
                assert(next.last() == self.entries@[k as int].at());
            }
            k += 1;
        }
        assert(self.paths().take(self.entries.len() as int) =~= self.paths());
        proof {
            self.listing_lists(p@);
        }
        Ok(names)
    }

    fn remove_dir(&mut self, path: &str) -> (r: Result<(), FsError>) {
        let p = to_chars(path);
        match self.find(&p) {
            Some(i) => {
                if !self.entries[i].dir {
                    return Err(FsError::NotADirectory);
                }
            },
            None => {
                return Err(FsError::NotFound);
            },
        }
        let ghost before = self.entries@;
        let mut taken: Vec<MemNode> = Vec::new();
        std::mem::swap(&mut self.entries, &mut taken);
        let kept = prune(taken, &p);
        self.entries = kept;
        self.model = Ghost(without_tree(self.model@, p@));
        proof {
            assert forall|i: int| 0 <= i < self.entries@.len() implies self.model@.contains_key(
                (#[trigger] self.entries@[i]).at(),
            ) && self.model@[self.entries@[i].at()] == self.entries@[i].node() by {
                let e = self.entries@[i];
                let k = choose|k: int| 0 <= k < before.len() && before[k] == e;
                assert(old(self).model@.contains_key(before[k].at()));
            }
            assert forall|q: Seq<char>| #[trigger]
                self.model@.contains_key(q) implies self.paths().contains(q) by {
                let k = choose|k: int|
                    0 <= k < old(self).paths().len() && old(self).paths()[k] == q;
                assert(survives(before[k].at(), p@));
                let j = choose|j: int|
                    0 <= j < self.entries@.len() && self.entries@[j] == before[k];
                assert(self.paths()[j] == q);
            }
        }
        Ok(())
    }
}

} // verus!
