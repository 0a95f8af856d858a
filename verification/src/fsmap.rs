//! The object store: one file per object, under a path computed from its
//! hash, fanned out over shard directories.

use vstd::prelude::*;
use crate::fs::content_in;
use crate::fs::is_dir_in;
use crate::fs::is_file_in;
use crate::fs::join;
use crate::fs::join_path;
use crate::fs::lists;
use crate::fs::plain_name;
use crate::fs::no_dir_error;
use crate::fs::strings_view;
use crate::fs::FileSystem;
use crate::fs::FsError;
use crate::fs::Node;
use crate::codec::hex_char;
use crate::codec::hex_digit;
use crate::fs::under;
use crate::text::from_chars;

verus! {

/// The numeral of one byte: its two hexadecimal digits, in lower case.
pub open spec fn byte_name(b: u8) -> Seq<char> {
    seq![hex_char((b / 16) as nat), hex_char((b % 16) as nat)]
}

/// The numerals of `bytes`, one after the other, each two digits wide.
pub open spec fn numerals(bytes: Seq<u8>) -> Seq<char>
    decreases bytes.len(),
{
    if bytes.len() == 0 {
        Seq::empty()
    } else {
        numerals(bytes.drop_last()) + byte_name(bytes.last())
    }
}

/// The name of the shard directory of a hash: the numeral of its first byte.
pub open spec fn shard_name(hash: Seq<u8>) -> Seq<char> {
    numerals(hash.take(1))
}

/// The name of the file of a hash inside its shard: the numerals of the
/// bytes after the first.
pub open spec fn rest_name(hash: Seq<u8>) -> Seq<char> {
    numerals(hash.skip(1))
}

/// The shard directory of a hash in the store at `mount`.
pub open spec fn shard_path(mount: Seq<char>, hash: Seq<u8>) -> Seq<char> {
    join(mount, shard_name(hash))
}

/// The path of the object with the given hash in the store at `mount`.
pub open spec fn object_path(mount: Seq<char>, hash: Seq<u8>) -> Seq<char> {
    join(shard_path(mount, hash), rest_name(hash))
}

/// The file system after the object `hash` with `payload` was put into the
/// store at `mount`: unchanged where the object's path is taken, else with
/// the shard directory, if it was missing, and the object's file.
pub open spec fn inserted(
    nodes: Map<Seq<char>, Node>,
    mount: Seq<char>,
    hash: Seq<u8>,
    payload: Seq<char>,
) -> Map<Seq<char>, Node> {
    let dir = shard_path(mount, hash);
    let path = object_path(mount, hash);
    if nodes.contains_key(path) {
        nodes
    } else if nodes.contains_key(dir) {
        nodes.insert(path, Node::File(payload))
    } else {
        nodes.insert(dir, Node::Dir).insert(path, Node::File(payload))
    }
}

/// What the store at `mount` holds under `hash`.
pub open spec fn stored(nodes: Map<Seq<char>, Node>, mount: Seq<char>, hash: Seq<u8>) -> Option<
    Seq<char>,
> {
    let path = object_path(mount, hash);
    if is_file_in(nodes, path) {
        Some(content_in(nodes, path))
    } else {
        None
    }
}

/// The files found from `dir` through the children `names`, in the order of
/// the listings, descending at most `depth` directories; a directory comes
/// where its name stands, with the files below it.
pub open spec fn walk_names<F: FileSystem>(
    fs: &F,
    dir: Seq<char>,
    names: Seq<Seq<char>>,
    depth: nat,
) -> Seq<Seq<char>>
    decreases depth, names.len(),
{
    if names.len() == 0 {
        Seq::empty()
    } else {
        let before = walk_names(fs, dir, names.drop_last(), depth);
        let path = join(dir, names.last());
        if is_dir_in(fs.nodes(), path) {
            if depth > 0 {
                before + walk_names(fs, path, fs.listing(path), (depth - 1) as nat)
            } else {
                before
            }
        } else {
            before.push(path)
        }
    }
}

/// The files below `dir`, descending at most `depth` directories.
pub open spec fn walk<F: FileSystem>(fs: &F, dir: Seq<char>, depth: nat) -> Seq<Seq<char>> {
    walk_names(fs, dir, fs.listing(dir), depth)
}

/// The contents of the files at `paths`, in order.
pub open spec fn contents_at(nodes: Map<Seq<char>, Node>, paths: Seq<Seq<char>>) -> Seq<Seq<char>> {
    paths.map_values(|p: Seq<char>| content_in(nodes, p))
}

/// How many directories the walk through the store descends at most: more
/// than a tree in a file system is deep.
pub const WALK_DEPTH: usize = usize::MAX;

/// Appends the numeral of `b` to `out`.
pub fn push_byte_name(out: &mut Vec<char>, b: u8)
    ensures
        final(out)@ == old(out)@ + byte_name(b),
{
    let high: u32 = (b / 16) as u32;
    let low: u32 = (b % 16) as u32;
    out.push(hex_digit(high));
    out.push(hex_digit(low));
    assert(out@ =~= old(out)@ + byte_name(b));
}

/// The numerals of `bytes[from..]`, one after the other, as a string.
pub fn numerals_from(bytes: &Vec<u8>, from: usize) -> (name: String)
    requires
        from <= bytes.len(),
    ensures
        name@ == numerals(bytes@.skip(from as int)),
{
    let ghost tail = bytes@.skip(from as int);
    let mut out: Vec<char> = Vec::new();
    let mut i: usize = from;
    while i < bytes.len()
        invariant
            from <= i <= bytes.len(),
            tail == bytes@.skip(from as int),
            out@ == numerals(tail.take(i - from)),
        decreases bytes.len() - i,
    {
        push_byte_name(&mut out, bytes[i]);
        proof {
            let next = tail.take(i + 1 - from);
            assert(next.drop_last() =~= tail.take(i - from));
            assert(next.last() == bytes@[i as int]);
        }
        i += 1;
    }
    assert(tail.take(bytes.len() - from) =~= tail);
    from_chars(&out)
}

/// The name of the shard directory of `hash`.
pub fn shard_of(hash: &crate::object::Hash) -> (name: String)
    requires
        hash@.len() >= 1,
    ensures
        name@ == shard_name(hash@),
{
    let mut out: Vec<char> = Vec::new();
    push_byte_name(&mut out, hash.0[0]);
    proof {
        let first = hash@.take(1);
        assert(first.drop_last() =~= Seq::<u8>::empty());
        assert(numerals(first.drop_last()) =~= Seq::<char>::empty());
        assert(first.last() == hash@[0]);
        assert(out@ =~= numerals(first));
    }
    from_chars(&out)
}

/// The files below `dir`, descending at most `depth` directories, in the
/// order of the listings.
#[verifier::rlimit(50)]
pub fn ls_files<F: FileSystem>(fs: &F, dir: &str, depth: usize) -> (r: Result<Vec<String>, FsError>)
    requires
        fs.wf(),
    ensures
        match r {
            Ok(paths) => {
                &&& is_dir_in(fs.nodes(), dir@)
                &&& strings_view(paths@) == walk(fs, dir@, depth as nat)
                &&& forall|i: int|
                    0 <= i < paths@.len() ==> is_file_in(fs.nodes(), #[trigger] strings_view(paths@)[i])
            },
            Err(e) => !is_dir_in(fs.nodes(), dir@) && e == no_dir_error(fs.nodes(), dir@),
        },
    decreases depth,
{
    let names = match fs.read_dir(dir) {
        Ok(names) => names,
        Err(e) => {
            return Err(e);
        },
    };
    let ghost listing = fs.listing(dir@);
    let mut result: Vec<String> = Vec::new();
    let mut k: usize = 0;
    while k < names.len()
        invariant
            fs.wf(),
            k <= names.len(),
            listing == strings_view(names@),
            listing == fs.listing(dir@),
            crate::fs::lists(fs.nodes(), dir@, listing),
            strings_view(result@) == walk_names(fs, dir@, listing.take(k as int), depth as nat),
            forall|i: int|
                0 <= i < result@.len() ==> is_file_in(fs.nodes(), #[trigger] strings_view(result@)[i]),
        decreases names.len() - k,
    {
        let ghost found = strings_view(result@);
        let path = join_path(dir, names[k].as_str());
        proof {
            let next = listing.take(k + 1);
            assert(next.drop_last() =~= listing.take(k as int));
            assert(next.last() == names@[k as int]@);
            assert(listing.contains(listing[k as int]));
            assert(fs.nodes().contains_key(path@));
        }
        if fs.is_dir(path.as_str()) {
            if depth > 0 {
                match ls_files(fs, path.as_str(), depth - 1) {
                    Ok(mut below) => {
                        let ghost sub = strings_view(below@);
                        result.append(&mut below);
                        assert(strings_view(result@) =~= found + sub);
                    },
                    Err(e) => {
                        return Err(e);
                    },
                }
            }
        } else {
            result.push(path);
            assert(strings_view(result@) =~= found.push(path@));
        }
        k += 1;
    }
    assert(listing.take(names.len() as int) =~= listing);
    Ok(result)
}

/// Why the store could not be opened.
#[derive(Debug, Clone, Copy, PartialEq, Eq, Structural)]
pub enum FsMapError {
    /// No directory stands at the store's root.
    MountDirNotFound,
}

/// The store of objects below the directory `mount`.
#[derive(Debug)]
pub struct FsMap {
    pub mount: String,
}

impl FsMap {
    /// Opens the store at `mount`, where a directory must stand.
    pub fn open<F: FileSystem>(mount: String, fs: &F) -> (r: Result<Self, FsMapError>)
        requires
            fs.wf(),
        ensures
            match r {
                Ok(store) => is_dir_in(fs.nodes(), mount@) && store.mount@ == mount@,
                Err(e) => !is_dir_in(fs.nodes(), mount@) && e == FsMapError::MountDirNotFound,
            },
    {
        if fs.is_dir(mount.as_str()) {
            Ok(Self { mount })
        } else {
            Err(FsMapError::MountDirNotFound)
        }
    }

    /// The path of the object with hash `key`, after the path of its shard.
    pub fn paths_of(&self, key: &crate::object::Hash) -> (r: (String, String))
        requires
            key@.len() >= 1,
        ensures
            r.0@ == shard_path(self.mount@, key@),
            r.1@ == object_path(self.mount@, key@),
    {
        let shard = shard_of(key);
        let rest = numerals_from(&key.0, 1);
        let dir = join_path(self.mount.as_str(), shard.as_str());
        let file = join_path(dir.as_str(), rest.as_str());
        (dir, file)
    }

    /// Puts `value` under `key`, once: where the object's path is taken the
    /// call changes nothing, else it creates the shard directory if it is
    /// missing and writes the whole of `value` to the object's file.
    pub fn insert<F: FileSystem>(&mut self, key: crate::object::Hash, value: String, fs: &mut F)
        requires
            key@.len() >= 1,
            old(fs).wf(),
        ensures
            final(fs).wf(),
            final(self).mount@ == old(self).mount@,
            final(fs).nodes() == inserted(old(fs).nodes(), old(self).mount@, key@, value@),
    {
        let (dir, file) = self.paths_of(&key);
        if fs.is_present(file.as_str()) {
            return ;
        }
        if !fs.is_present(dir.as_str()) {
            let made = fs.create_dir(dir.as_str());
            assert(made is Ok);
        }
        let created = fs.create_file(file.as_str());
        assert(created is Ok);
        let written = fs.append_file(file.as_str(), value.as_str());
        assert(written is Ok);
        assert(Seq::<char>::empty() + value@ =~= value@);
        assert(final(fs).nodes() =~= inserted(old(fs).nodes(), old(self).mount@, key@, value@));
    }

    /// The whole of what was stored under `key`, if anything was.
    pub fn get<F: FileSystem>(&self, key: crate::object::Hash, fs: &F) -> (r: Option<String>)
        requires
            key@.len() >= 1,
            fs.wf(),
        ensures
            match r {
                Some(value) => stored(fs.nodes(), self.mount@, key@) == Some(value@),
                None => stored(fs.nodes(), self.mount@, key@) is None,
            },
    {
        let (_, file) = self.paths_of(&key);
        match fs.read_file(file.as_str()) {
            Ok(content) => Some(content),
            Err(_) => None,
        }
    }

    /// The content of every file below the store's root, at whatever depth,
    /// directories in the order in which they are listed, each file where
    /// its name stands.
    pub fn get_all<F: FileSystem>(&self, fs: &F) -> (r: Result<Vec<String>, FsError>)
        requires
            fs.wf(),
        ensures
            match r {
                Ok(contents) => is_dir_in(fs.nodes(), self.mount@) && strings_view(contents@)
                    == contents_at(fs.nodes(), walk(fs, self.mount@, WALK_DEPTH as nat)),
                Err(e) => !is_dir_in(fs.nodes(), self.mount@) && e == no_dir_error(
                    fs.nodes(),
                    self.mount@,
                ),
            },
    {
        let paths = match ls_files(fs, self.mount.as_str(), WALK_DEPTH) {
            Ok(paths) => paths,
            Err(e) => {
                return Err(e);
            },
        };
        let ghost found = strings_view(paths@);
        let mut result: Vec<String> = Vec::new();
        let mut i: usize = 0;
        while i < paths.len()
            invariant
                fs.wf(),
                i <= paths.len(),
                found == strings_view(paths@),
                forall|k: int| 0 <= k < found.len() ==> is_file_in(fs.nodes(), #[trigger] found[k]),
                strings_view(result@) == contents_at(fs.nodes(), found.take(i as int)),
            decreases paths.len() - i,
        {
            let ghost read = strings_view(result@);
            assert(is_file_in(fs.nodes(), found[i as int]));
            match fs.read_file(paths[i].as_str()) {
                Ok(content) => {
                    result.push(content);
                    assert(strings_view(result@) =~= read.push(content@));
                    assert(strings_view(result@) =~= contents_at(fs.nodes(), found.take(i + 1)));
                },
                Err(e) => {
                    return Err(e);
                },
            }
            i += 1;
        }
        assert(found.take(paths.len() as int) =~= found);
        Ok(result)
    }
}

/// Putting the same object into the store a second time changes nothing:
/// after the first time its file is there, and the second leaves the file
/// system as it is.
pub proof fn lemma_insert_idempotent(
    nodes: Map<Seq<char>, Node>,
    mount: Seq<char>,
    hash: Seq<u8>,
    payload: Seq<char>,
)
    ensures
        is_file_in(nodes, object_path(mount, hash)) ==> inserted(nodes, mount, hash, payload)
            == nodes,
        inserted(inserted(nodes, mount, hash, payload), mount, hash, payload) == inserted(
            nodes,
            mount,
            hash,
            payload,
        ),
        !nodes.contains_key(object_path(mount, hash)) ==> is_file_in(
            inserted(nodes, mount, hash, payload),
            object_path(mount, hash),
        ),
{
}

/// The store never writes over what is there: whatever stood at a path
/// before an object was put into the store stands there after, unchanged.
pub proof fn lemma_insert_keeps(
    nodes: Map<Seq<char>, Node>,
    mount: Seq<char>,
    hash: Seq<u8>,
    payload: Seq<char>,
    path: Seq<char>,
)
    requires
        nodes.contains_key(path),
    ensures
        inserted(nodes, mount, hash, payload).contains_key(path),
        inserted(nodes, mount, hash, payload)[path] == nodes[path],
{
}

/// What was put under a hash is what is read back: after an object was put
/// at a free path the store holds its payload under the hash, and where a
/// file stood at the path before, the store still holds that file's content.
pub proof fn lemma_insert_then_get(
    nodes: Map<Seq<char>, Node>,
    mount: Seq<char>,
    hash: Seq<u8>,
    payload: Seq<char>,
)
    ensures
        !nodes.contains_key(object_path(mount, hash)) ==> stored(
            inserted(nodes, mount, hash, payload),
            mount,
            hash,
        ) == Some(payload),
        nodes.contains_key(object_path(mount, hash)) ==> stored(
            inserted(nodes, mount, hash, payload),
            mount,
            hash,
        ) == stored(nodes, mount, hash),
{
}

/// The numerals of bytes hold no separator.
pub proof fn lemma_numerals_plain(bytes: Seq<u8>)
    ensures
        plain_name(numerals(bytes)),
    decreases bytes.len(),
{
    if bytes.len() > 0 {
        lemma_numerals_plain(bytes.drop_last());
    }
}

/// A file among the children of a directory is found by the walk.
pub proof fn lemma_walk_has_file<F: FileSystem>(
    fs: &F,
    dir: Seq<char>,
    names: Seq<Seq<char>>,
    depth: nat,
    i: int,
)
    requires
        0 <= i < names.len(),
        !is_dir_in(fs.nodes(), join(dir, names[i])),
    ensures
        walk_names(fs, dir, names, depth).contains(join(dir, names[i])),
    decreases names.len(),
{
    let before = walk_names(fs, dir, names.drop_last(), depth);
    let out = walk_names(fs, dir, names, depth);
    if i == names.len() - 1 {
        assert(out == before.push(join(dir, names[i])));
        assert(out[before.len() as int] == join(dir, names[i]));
    } else {
        lemma_walk_has_file(fs, dir, names.drop_last(), depth, i);
        let k = choose|k: int| 0 <= k < before.len() && before[k] == join(dir, names[i]);
        assert(out[k] == join(dir, names[i]));
    }
}

/// What the walk finds below a child directory, it finds from the directory.
pub proof fn lemma_walk_descends<F: FileSystem>(
    fs: &F,
    dir: Seq<char>,
    names: Seq<Seq<char>>,
    depth: nat,
    i: int,
    path: Seq<char>,
)
    requires
        0 <= i < names.len(),
        depth > 0,
        is_dir_in(fs.nodes(), join(dir, names[i])),
        walk(fs, join(dir, names[i]), (depth - 1) as nat).contains(path),
    ensures
        walk_names(fs, dir, names, depth).contains(path),
    decreases names.len(),
{
    let before = walk_names(fs, dir, names.drop_last(), depth);
    let out = walk_names(fs, dir, names, depth);
    if i == names.len() - 1 {
        let below = walk(fs, join(dir, names[i]), (depth - 1) as nat);
        assert(out == before + below);
        let k = choose|k: int| 0 <= k < below.len() && below[k] == path;
        assert(out[before.len() + k] == path);
    } else {
        lemma_walk_descends(fs, dir, names.drop_last(), depth, i, path);
        let k = choose|k: int| 0 <= k < before.len() && before[k] == path;
        assert(out[k] == path);
    }
}

/// Every object in the store is found: where the shard directory of a hash
/// is a directory and the object's file is a file, the walk through the
/// store comes to the file, and what is read along the walk holds its content.
pub proof fn lemma_walk_finds_object<F: FileSystem>(fs: &F, mount: Seq<char>, hash: Seq<u8>)
    requires
        lists(fs.nodes(), mount, fs.listing(mount)),
        lists(fs.nodes(), shard_path(mount, hash), fs.listing(shard_path(mount, hash))),
        is_dir_in(fs.nodes(), shard_path(mount, hash)),
        is_file_in(fs.nodes(), object_path(mount, hash)),
    ensures
        walk(fs, mount, WALK_DEPTH as nat).contains(object_path(mount, hash)),
        contents_at(fs.nodes(), walk(fs, mount, WALK_DEPTH as nat)).contains(
            content_in(fs.nodes(), object_path(mount, hash)),
        ),
{
    let shard = shard_path(mount, hash);
    let file = object_path(mount, hash);
    lemma_numerals_plain(hash.take(1));
    lemma_numerals_plain(hash.skip(1));
    let inner = fs.listing(shard);
    assert(inner.contains(rest_name(hash)));
    let j = choose|j: int| 0 <= j < inner.len() && inner[j] == rest_name(hash);
    lemma_walk_has_file(fs, shard, inner, (WALK_DEPTH - 1) as nat, j);
    let outer = fs.listing(mount);
    assert(outer.contains(shard_name(hash)));
    let i = choose|i: int| 0 <= i < outer.len() && outer[i] == shard_name(hash);
    lemma_walk_descends(fs, mount, outer, WALK_DEPTH as nat, i, file);
    let found = walk(fs, mount, WALK_DEPTH as nat);
    let k = choose|k: int| 0 <= k < found.len() && found[k] == file;
    assert(contents_at(fs.nodes(), found)[k] == content_in(fs.nodes(), file));
}

/// The numerals of bytes are two characters for each byte.
pub proof fn lemma_numerals_len(bytes: Seq<u8>)
    ensures
        numerals(bytes).len() == 2 * bytes.len(),
    decreases bytes.len(),
{
    if bytes.len() > 0 {
        lemma_numerals_len(bytes.drop_last());
    }
}

/// The bytes can be read back from their numerals: different bytes have
/// different numerals.
pub proof fn lemma_numerals_injective(a: Seq<u8>, b: Seq<u8>)
    requires
        numerals(a) == numerals(b),
    ensures
        a == b,
    decreases a.len(),
{
    lemma_numerals_len(a);
    lemma_numerals_len(b);
    if a.len() == 0 {
        assert(a =~= b);
    } else {
        let fa = a.drop_last();
        let fb = b.drop_last();
        lemma_numerals_len(fa);
        lemma_numerals_len(fb);
        let n = numerals(fa).len() as int;
        assert(numerals(a)[n] == byte_name(a.last())[0]);
        assert(numerals(a)[n + 1] == byte_name(a.last())[1]);
        assert(numerals(b)[n] == byte_name(b.last())[0]);
        assert(numerals(b)[n + 1] == byte_name(b.last())[1]);
        assert(a.last() / 16 == b.last() / 16);
        assert(a.last() % 16 == b.last() % 16);
        assert(a.last() == b.last());
        assert(numerals(fa) =~= numerals(a).take(n));
        assert(numerals(fb) =~= numerals(b).take(n));
        lemma_numerals_injective(fa, fb);
        assert(a =~= fa.push(a.last()));
        assert(b =~= fb.push(b.last()));
    }
}

/// The path of an object tells its hash: two hashes with one object path
/// are one hash.
pub proof fn lemma_object_path_injective(mount: Seq<char>, h1: Seq<u8>, h2: Seq<u8>)
    requires
        h1.len() >= 1,
        h2.len() >= 1,
        object_path(mount, h1) == object_path(mount, h2),
    ensures
        h1 == h2,
{
    let p1 = object_path(mount, h1);
    let p2 = object_path(mount, h2);
    lemma_numerals_len(h1.take(1));
    lemma_numerals_len(h2.take(1));
    let at = mount.len() + 1int;
    assert(shard_name(h1) =~= p1.subrange(at, at + 2));
    assert(shard_name(h2) =~= p2.subrange(at, at + 2));
    assert(rest_name(h1) =~= p1.skip(at + 3));
    assert(rest_name(h2) =~= p2.skip(at + 3));
    lemma_numerals_injective(h1.take(1), h2.take(1));
    lemma_numerals_injective(h1.skip(1), h2.skip(1));
    assert(h1 =~= h1.take(1) + h1.skip(1));
    assert(h2 =~= h2.take(1) + h2.skip(1));
}

/// No object stands where a shard directory stands: the path of an object
/// is longer than that of any shard.
pub proof fn lemma_object_is_no_shard(mount: Seq<char>, h1: Seq<u8>, h2: Seq<u8>)
    requires
        h1.len() >= 1,
        h2.len() >= 1,
    ensures
        object_path(mount, h1) != shard_path(mount, h2),
{
    lemma_numerals_len(h1.take(1));
    lemma_numerals_len(h2.take(1));
    assert(shard_path(mount, h2).len() == mount.len() + 3);
    assert(object_path(mount, h1).len() >= mount.len() + 4);
}

/// The file system after the objects of `items`, each a hash with its
/// payload, were put into the store one after the other.
pub open spec fn inserted_all(
    nodes: Map<Seq<char>, Node>,
    mount: Seq<char>,
    items: Seq<(Seq<u8>, Seq<char>)>,
) -> Map<Seq<char>, Node>
    decreases items.len(),
{
    if items.len() == 0 {
        nodes
    } else {
        inserted(inserted_all(nodes, mount, items.drop_last()), mount, items.last().0, items.last().1)
    }
}

/// The payload of the first of `items` that has the hash `hash`.
pub open spec fn first_payload(items: Seq<(Seq<u8>, Seq<char>)>, hash: Seq<u8>) -> Option<Seq<char>>
    decreases items.len(),
{
    if items.len() == 0 {
        None
    } else {
        match first_payload(items.drop_last(), hash) {
            Some(payload) => Some(payload),
            None => if items.last().0 == hash {
                Some(items.last().1)
            } else {
                None
            },
        }
    }
}

/// What is put under a hash is what is read back under it, and under no
/// other: in a store whose object paths were free, after any objects were
/// put into it, the store holds under each hash the payload that was first
/// put under that hash, and nothing under a hash that was never put.
pub proof fn lemma_store_round_trip(
    nodes: Map<Seq<char>, Node>,
    mount: Seq<char>,
    items: Seq<(Seq<u8>, Seq<char>)>,
    hash: Seq<u8>,
)
    requires
        hash.len() >= 1,
        forall|i: int| 0 <= i < items.len() ==> (#[trigger] items[i]).0.len() >= 1,
        !nodes.contains_key(object_path(mount, hash)),
    ensures
        stored(inserted_all(nodes, mount, items), mount, hash) == first_payload(items, hash),
        inserted_all(nodes, mount, items).contains_key(object_path(mount, hash)) <==> first_payload(
            items,
            hash,
        ) is Some,
    decreases items.len(),
{
    if items.len() > 0 {
        let front = items.drop_last();
        let last = items.last();
        assert forall|i: int| 0 <= i < front.len() implies (#[trigger] front[i]).0.len() >= 1 by {
            assert(front[i] == items[i]);
        }
        lemma_store_round_trip(nodes, mount, front, hash);
        lemma_object_is_no_shard(mount, hash, last.0);
        if last.0 != hash {
            if object_path(mount, last.0) == object_path(mount, hash) {
                lemma_object_path_injective(mount, last.0, hash);
            }
        }
    }
}

/// Whether `path` is reached from `dir` through `steps` directories, each a
/// child of the one before, as a child of the last.
pub open spec fn reaches(nodes: Map<Seq<char>, Node>, dir: Seq<char>, path: Seq<char>, steps: nat) -> bool
    decreases steps,
{
    if steps == 0 {
        exists|name: Seq<char>| plain_name(name) && #[trigger] join(dir, name) == path
    } else {
        exists|name: Seq<char>|
            plain_name(name) && is_dir_in(nodes, #[trigger] join(dir, name)) && reaches(
                nodes,
                join(dir, name),
                path,
                (steps - 1) as nat,
            )
    }
}

/// The walk is complete: every file that is reached from `dir` through at
/// most `depth` directories is found by the walk from `dir`.
pub proof fn lemma_walk_complete<F: FileSystem>(
    fs: &F,
    dir: Seq<char>,
    path: Seq<char>,
    steps: nat,
    depth: nat,
)
    requires
        forall|d: Seq<char>| lists(fs.nodes(), d, #[trigger] fs.listing(d)),
        steps <= depth,
        reaches(fs.nodes(), dir, path, steps),
        is_file_in(fs.nodes(), path),
    ensures
        walk(fs, dir, depth).contains(path),
        contents_at(fs.nodes(), walk(fs, dir, depth)).contains(content_in(fs.nodes(), path)),
    decreases steps,
{
    let names = fs.listing(dir);
    assert(lists(fs.nodes(), dir, names));
    if steps == 0 {
        let name = choose|name: Seq<char>| plain_name(name) && #[trigger] join(dir, name) == path;
        assert(names.contains(name));
        let j = choose|j: int| 0 <= j < names.len() && names[j] == name;
        lemma_walk_has_file(fs, dir, names, depth, j);
    } else {
        let name = choose|name: Seq<char>|
            plain_name(name) && is_dir_in(fs.nodes(), #[trigger] join(dir, name)) && reaches(
                fs.nodes(),
                join(dir, name),
                path,
                (steps - 1) as nat,
            );
        lemma_walk_complete(fs, join(dir, name), path, (steps - 1) as nat, (depth - 1) as nat);
        assert(names.contains(name));
        let i = choose|i: int| 0 <= i < names.len() && names[i] == name;
        lemma_walk_descends(fs, dir, names, depth, i, path);
    }
    let found = walk(fs, dir, depth);
    let k = choose|k: int| 0 <= k < found.len() && found[k] == path;
    assert(contents_at(fs.nodes(), found)[k] == content_in(fs.nodes(), path));
}

/// Whether `path` is the child `name` of `dir`, or lies below that child.
pub open spec fn within(path: Seq<char>, dir: Seq<char>, name: Seq<char>) -> bool {
    path == join(dir, name) || under(path, join(dir, name))
}

/// Whether every one of `names` is a plain name of something inside `dir`.
pub open spec fn children(nodes: Map<Seq<char>, Node>, dir: Seq<char>, names: Seq<Seq<char>>) -> bool {
    forall|i: int|
        0 <= i < names.len() ==> plain_name(#[trigger] names[i]) && nodes.contains_key(
            join(dir, names[i]),
        )
}

/// What lies below a child of a directory lies below the directory.
pub proof fn lemma_under_child(path: Seq<char>, dir: Seq<char>, name: Seq<char>)
    requires
        within(path, dir, name),
    ensures
        under(path, dir),
{
    let child = join(dir, name);
    let cut = dir.len() + 1int;
    if path == child {
        assert(path.take(cut) =~= dir + seq!['/']);
    } else {
        let head = path.take(child.len() + 1int);
        assert(path.take(cut) =~= head.take(cut));
        assert((child + seq!['/']).take(cut) =~= dir + seq!['/']);
    }
}

/// A path lies within one child of a directory only: two plain names that
/// both lead to it are one name.
pub proof fn lemma_within_unique(path: Seq<char>, dir: Seq<char>, n1: Seq<char>, n2: Seq<char>)
    requires
        plain_name(n1),
        plain_name(n2),
        within(path, dir, n1),
        within(path, dir, n2),
    ensures
        n1 == n2,
{
    let base = dir.len() + 1int;
    lemma_within_shape(path, dir, n1);
    lemma_within_shape(path, dir, n2);
    if n1.len() < n2.len() {
        assert(path[base + n1.len()] == n2[n1.len() as int]);
        assert(false);
    } else if n2.len() < n1.len() {
        assert(path[base + n2.len()] == n1[n2.len() as int]);
        assert(false);
    } else {
        assert forall|i: int| 0 <= i < n1.len() implies n1[i] == n2[i] by {
            assert(path[base + i] == n1[i]);
            assert(path[base + i] == n2[i]);
        }
        assert(n1 =~= n2);
    }
}

/// A path within the child `name` of `dir` spells the name behind the
/// directory and its separator, and goes on with a separator if it goes on.
pub proof fn lemma_within_shape(path: Seq<char>, dir: Seq<char>, name: Seq<char>)
    requires
        within(path, dir, name),
    ensures
        path.len() >= dir.len() + 1 + name.len(),
        forall|i: int| 0 <= i < name.len() ==> path[dir.len() + 1int + i] == name[i],
        path.len() > dir.len() + 1 + name.len() ==> path[dir.len() + 1int + name.len()] == '/',
{
    let child = join(dir, name);
    let base = dir.len() + 1int;
    if path == child {
    } else {
        let head = path.take(child.len() + 1int);
        assert(head == child + seq!['/']);
        assert forall|i: int| 0 <= i < name.len() implies path[base + i] == name[i] by {
            assert(head[base + i] == path[base + i]);
            assert((child + seq!['/'])[base + i] == name[i]);
        }
        assert(head[base + name.len()] == path[base + name.len()]);
        assert((child + seq!['/'])[base + name.len()] == '/');
    }
}

/// The names of a listing are plain names of what stands inside the directory.
pub proof fn lemma_listing_children<F: FileSystem>(fs: &F, dir: Seq<char>)
    requires
        lists(fs.nodes(), dir, fs.listing(dir)),
    ensures
        children(fs.nodes(), dir, fs.listing(dir)),
        fs.listing(dir).no_duplicates(),
{
    let names = fs.listing(dir);
    assert forall|i: int| 0 <= i < names.len() implies plain_name(#[trigger] names[i])
        && fs.nodes().contains_key(join(dir, names[i])) by {
        assert(names.contains(names[i]));
    }
}

/// The walk is sound: whatever it finds through the children `names` of
/// `dir` is a file, and lies within one of these children.
pub proof fn lemma_walk_within<F: FileSystem>(
    fs: &F,
    dir: Seq<char>,
    names: Seq<Seq<char>>,
    depth: nat,
    k: int,
)
    requires
        forall|d: Seq<char>| lists(fs.nodes(), d, #[trigger] fs.listing(d)),
        children(fs.nodes(), dir, names),
        0 <= k < walk_names(fs, dir, names, depth).len(),
    ensures
        is_file_in(fs.nodes(), walk_names(fs, dir, names, depth)[k]),
        exists|j: int|
            0 <= j < names.len() && within(
                walk_names(fs, dir, names, depth)[k],
                dir,
                #[trigger] names[j],
            ),
    decreases depth, names.len(),
{
    let out = walk_names(fs, dir, names, depth);
    let front = names.drop_last();
    let before = walk_names(fs, dir, front, depth);
    let child = join(dir, names.last());
    assert(children(fs.nodes(), dir, front)) by {
        assert forall|i: int| 0 <= i < front.len() implies plain_name(#[trigger] front[i])
            && fs.nodes().contains_key(join(dir, front[i])) by {
            assert(front[i] == names[i]);
        }
    }
    if k < before.len() {
        lemma_walk_within(fs, dir, front, depth, k);
        assert(out[k] == before[k]);
        let j = choose|j: int| 0 <= j < front.len() && within(before[k], dir, #[trigger] front[j]);
        assert(within(out[k], dir, names[j]));
    } else {
        let last = names.len() - 1;
        assert(plain_name(names[last]) && fs.nodes().contains_key(child));
        if is_dir_in(fs.nodes(), child) {
            let inner = fs.listing(child);
            lemma_listing_children(fs, child);
            let rest = walk_names(fs, child, inner, (depth - 1) as nat);
            assert(out == before + rest);
            let m = k - before.len();
            lemma_walk_within(fs, child, inner, (depth - 1) as nat, m);
            assert(out[k] == rest[m]);
            let j = choose|j: int| 0 <= j < inner.len() && within(rest[m], child, #[trigger] inner[j]);
            lemma_under_child(rest[m], child, inner[j]);
            assert(within(out[k], dir, names[last]));
        } else {
            assert(out == before.push(child));
            assert(out[k] == child);
            assert(within(out[k], dir, names[last]));
        }
    }
}

/// The walk finds nothing twice: through children with different names it
/// comes to different files.
pub proof fn lemma_walk_no_duplicates<F: FileSystem>(
    fs: &F,
    dir: Seq<char>,
    names: Seq<Seq<char>>,
    depth: nat,
)
    requires
        forall|d: Seq<char>| lists(fs.nodes(), d, #[trigger] fs.listing(d)),
        children(fs.nodes(), dir, names),
        names.no_duplicates(),
    ensures
        walk_names(fs, dir, names, depth).no_duplicates(),
    decreases depth, names.len(),
{
    if names.len() > 0 {
        let out = walk_names(fs, dir, names, depth);
        let front = names.drop_last();
        let before = walk_names(fs, dir, front, depth);
        let last = names.len() - 1;
        let child = join(dir, names.last());
        assert(children(fs.nodes(), dir, front)) by {
            assert forall|i: int| 0 <= i < front.len() implies plain_name(#[trigger] front[i])
                && fs.nodes().contains_key(join(dir, front[i])) by {
                assert(front[i] == names[i]);
            }
        }
        assert(front.no_duplicates()) by {
            assert forall|a: int, b: int| 0 <= a < b < front.len() implies front[a] != front[b] by {
                assert(front[a] == names[a] && front[b] == names[b]);
            }
        }
        lemma_walk_no_duplicates(fs, dir, front, depth);
        assert(plain_name(names[last]) && fs.nodes().contains_key(child));
        if is_dir_in(fs.nodes(), child) && depth > 0 {
            lemma_listing_children(fs, child);
            lemma_walk_no_duplicates(fs, child, fs.listing(child), (depth - 1) as nat);
        }
        assert forall|a: int, b: int| 0 <= a < b < out.len() implies out[a] != out[b] by {
            if b < before.len() {
                assert(out[a] == before[a] && out[b] == before[b]);
            } else if a >= before.len() {
                if is_dir_in(fs.nodes(), child) {
                    let rest = walk_names(fs, child, fs.listing(child), (depth - 1) as nat);
                    assert(out[a] == rest[a - before.len()]);
                    assert(out[b] == rest[b - before.len()]);
                }
            } else {
                lemma_walk_within(fs, dir, front, depth, a);
                lemma_walk_within(fs, dir, names, depth, b);
                assert(out[a] == before[a]);
                let j = choose|j: int|
                    0 <= j < front.len() && within(before[a], dir, #[trigger] front[j]);
                let i = choose|i: int| 0 <= i < names.len() && within(out[b], dir, #[trigger] names[i]);
                if out[a] == out[b] {
                    lemma_walk_last_child(fs, dir, names, depth, b);
                    lemma_within_unique(out[a], dir, front[j], names[last]);
                    assert(names[j] == names[last]);
                }
            }
        }
    }
}

/// What the walk finds behind all that it found through the earlier
/// children lies within the last child.
pub proof fn lemma_walk_last_child<F: FileSystem>(
    fs: &F,
    dir: Seq<char>,
    names: Seq<Seq<char>>,
    depth: nat,
    k: int,
)
    requires
        forall|d: Seq<char>| lists(fs.nodes(), d, #[trigger] fs.listing(d)),
        children(fs.nodes(), dir, names),
        names.len() > 0,
        walk_names(fs, dir, names.drop_last(), depth).len() <= k < walk_names(
            fs,
            dir,
            names,
            depth,
        ).len(),
    ensures
        within(walk_names(fs, dir, names, depth)[k], dir, names.last()),
{
    let out = walk_names(fs, dir, names, depth);
    let before = walk_names(fs, dir, names.drop_last(), depth);
    let child = join(dir, names.last());
    let last = names.len() - 1;
    assert(plain_name(names[last]) && fs.nodes().contains_key(child));
    if is_dir_in(fs.nodes(), child) {
        let inner = fs.listing(child);
        lemma_listing_children(fs, child);
        let rest = walk_names(fs, child, inner, (depth - 1) as nat);
        assert(out == before + rest);
        let m = k - before.len();
        lemma_walk_within(fs, child, inner, (depth - 1) as nat, m);
        assert(out[k] == rest[m]);
        let j = choose|j: int| 0 <= j < inner.len() && within(rest[m], child, #[trigger] inner[j]);
        lemma_under_child(rest[m], child, inner[j]);
    } else {
        assert(out == before.push(child));
    }
}

/// The walk from a directory finds files only, each below the directory,
/// and each once.
pub proof fn lemma_walk_exact<F: FileSystem>(fs: &F, dir: Seq<char>, depth: nat)
    requires
        forall|d: Seq<char>| lists(fs.nodes(), d, #[trigger] fs.listing(d)),
    ensures
        walk(fs, dir, depth).no_duplicates(),
        forall|k: int|
            0 <= k < walk(fs, dir, depth).len() ==> is_file_in(
                fs.nodes(),
                #[trigger] walk(fs, dir, depth)[k],
            ) && under(walk(fs, dir, depth)[k], dir),
{
    let names = fs.listing(dir);
    lemma_listing_children(fs, dir);
    lemma_walk_no_duplicates(fs, dir, names, depth);
    assert forall|k: int| 0 <= k < walk(fs, dir, depth).len() implies is_file_in(
        fs.nodes(),
        #[trigger] walk(fs, dir, depth)[k],
    ) && under(walk(fs, dir, depth)[k], dir) by {
        lemma_walk_within(fs, dir, names, depth, k);
        let j = choose|j: int|
            0 <= j < names.len() && within(walk(fs, dir, depth)[k], dir, #[trigger] names[j]);
        lemma_under_child(walk(fs, dir, depth)[k], dir, names[j]);
    }
}

} // verus!
