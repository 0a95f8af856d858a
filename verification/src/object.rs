//! The object model: hashes, the three kinds of object, and the staged
//! entries of the index.

use vstd::prelude::*;
use vstd::utf8::encode_utf8;
use crate::digest::sha1_digest;
use crate::order::lemma_sorted_canonical;
use crate::order::sort_pairs;
use crate::order::sorted_entries;
use crate::digest::sha1_of;
use crate::text::decimal;
use crate::text::from_chars;
use crate::text::push_decimal;

verus! {

/// The digest that identifies and addresses one object.
#[derive(Debug)]
pub struct Hash(pub Vec<u8>);

impl View for Hash {
    type V = Seq<u8>;

    open spec fn view(&self) -> Seq<u8> {
        self.0@
    }
}

/// A copy of `v`.
pub fn copy_bytes(v: &Vec<u8>) -> (r: Vec<u8>)
    ensures
        r@ == v@,
{
    let mut r: Vec<u8> = Vec::new();
    let mut i: usize = 0;
    while i < v.len()
        invariant
            i <= v.len(),
            r@ == v@.take(i as int),
        decreases v.len() - i,
    {
        r.push(v[i]);
        i += 1;
        assert(r@ =~= v@.take(i as int));
    }
    assert(v@.take(v.len() as int) =~= v@);
    r
}

impl Clone for Hash {
    fn clone(&self) -> (r: Self)
        ensures
            r@ == self@,
    {
        Hash(copy_bytes(&self.0))
    }
}

impl Hash {
    /// The hash made of the bytes of `vec`.
    pub fn from_vec(vec: Vec<u8>) -> (r: Self)
        ensures
            r@ == vec@,
    {
        Hash(vec)
    }

    /// Whether both hashes hold the same bytes.
    pub fn same(&self, other: &Hash) -> (r: bool)
        ensures
            r == (self@ == other@),
    {
        if self.0.len() != other.0.len() {
            return false;
        }
        let mut i: usize = 0;
        while i < self.0.len()
            invariant
                i <= self.0.len(),
                self.0.len() == other.0.len(),
                forall|k: int| 0 <= k < i ==> self@[k] == other@[k],
            decreases self.0.len() - i,
        {
            if self.0[i] != other.0[i] {
                return false;
            }
            i += 1;
        }
        assert(self@ =~= other@);
        true
    }
}

/// The hash of a blob.
#[derive(Debug)]
pub struct BlobHash(pub Hash);

impl View for BlobHash {
    type V = Seq<u8>;

    open spec fn view(&self) -> Seq<u8> {
        self.0@
    }
}

impl Clone for BlobHash {
    fn clone(&self) -> (r: Self)
        ensures
            r@ == self@,
    {
        BlobHash(self.0.clone())
    }
}

/// The kind of object that a tree entry points to.
#[derive(Debug, Clone, Copy, PartialEq, Eq, Structural)]
pub enum ObjectMode {
    Blob,
    Tree,
    Commit,
}

/// What an [`Object`] holds, as plain values.
pub enum ObjectModel {
    Blob { hash: Seq<u8>, content: Seq<char> },
    Tree { hash: Seq<u8>, contents: Seq<(Seq<char>, ObjectMode, Seq<u8>)> },
    Commit { hash: Seq<u8>, message: Seq<char>, tree_hash: Seq<u8>, parent_commit: Option<Seq<u8>> },
}

/// An immutable, content-addressed unit of storage.
#[derive(Debug)]
#[allow(inconsistent_fields)]
pub enum Object {
    Blob { hash: BlobHash, content: String },
    Tree { hash: Hash, contents: Vec<(String, ObjectMode, Hash)> },
    Commit { hash: Hash, message: String, tree_hash: Hash, parent_commit: Option<Hash> },
}

/// The plain value of an optional hash.
pub open spec fn option_hash_view(h: Option<Hash>) -> Option<Seq<u8>> {
    match h {
        Some(h) => Some(h@),
        None => None,
    }
}

/// The plain value of one tree entry.
pub open spec fn tree_entry_view(e: (String, ObjectMode, Hash)) -> (Seq<char>, ObjectMode, Seq<u8>) {
    (e.0@, e.1, e.2@)
}

/// The plain values of the entries of a tree.
pub open spec fn tree_entries_view(contents: Seq<(String, ObjectMode, Hash)>) -> Seq<
    (Seq<char>, ObjectMode, Seq<u8>),
> {
    contents.map_values(|e: (String, ObjectMode, Hash)| tree_entry_view(e))
}

impl View for Object {
    type V = ObjectModel;

    open spec fn view(&self) -> ObjectModel {
        match *self {
            Object::Blob { hash, content } => ObjectModel::Blob { hash: hash@, content: content@ },
            Object::Tree { hash, contents } => ObjectModel::Tree {
                hash: hash@,
                contents: tree_entries_view(contents@),
            },
            Object::Commit { hash, message, tree_hash, parent_commit } => ObjectModel::Commit {
                hash: hash@,
                message: message@,
                tree_hash: tree_hash@,
                parent_commit: option_hash_view(parent_commit),
            },
        }
    }
}

impl ObjectModel {
    /// The hash that the object carries.
    pub open spec fn hash(self) -> Seq<u8> {
        match self {
            ObjectModel::Blob { hash, .. } => hash,
            ObjectModel::Tree { hash, .. } => hash,
            ObjectModel::Commit { hash, .. } => hash,
        }
    }
}

/// The digest of a text: SHA-1 over its UTF-8 bytes.
pub open spec fn text_digest(text: Seq<char>) -> Seq<u8> {
    sha1_of(encode_utf8(text))
}

/// The numerals of `bytes`, with `sep` between neighbours.
pub open spec fn byte_items(bytes: Seq<u8>, sep: Seq<char>) -> Seq<char>
    decreases bytes.len(),
{
    if bytes.len() == 0 {
        Seq::empty()
    } else if bytes.len() == 1 {
        decimal(bytes[0] as nat)
    } else {
        byte_items(bytes.drop_last(), sep) + sep + decimal(bytes.last() as nat)
    }
}

/// A list of bytes in square brackets.
pub open spec fn byte_list(bytes: Seq<u8>, sep: Seq<char>) -> Seq<char> {
    seq!['['] + byte_items(bytes, sep) + seq![']']
}

/// The separator of a listing: a comma and a space.
pub open spec fn listing_sep() -> Seq<char> {
    seq![',', ' ']
}

/// The byte lists of `hashes`, separated by a comma and a space.
pub open spec fn hash_items(hashes: Seq<Seq<u8>>) -> Seq<char>
    decreases hashes.len(),
{
    if hashes.len() == 0 {
        Seq::empty()
    } else if hashes.len() == 1 {
        byte_list(hashes[0], listing_sep())
    } else {
        hash_items(hashes.drop_last()) + listing_sep() + byte_list(hashes.last(), listing_sep())
    }
}

/// The listing of a sequence of hashes that a tree is hashed over: each hash
/// as a bracketed list of decimal bytes, the whole in brackets, in the order
/// given.
pub open spec fn hash_listing(hashes: Seq<Seq<u8>>) -> Seq<char> {
    seq!['['] + hash_items(hashes) + seq![']']
}

/// The hashes that the entries of a tree point to, in order.
pub open spec fn child_hashes(entries: Seq<(Seq<char>, Seq<u8>)>) -> Seq<Seq<u8>> {
    entries.map_values(|e: (Seq<char>, Seq<u8>)| e.1)
}

/// The entries of a tree built from `(path, hash)` pairs: each points to a blob.
pub open spec fn blob_entries(entries: Seq<(Seq<char>, Seq<u8>)>) -> Seq<
    (Seq<char>, ObjectMode, Seq<u8>),
> {
    entries.map_values(|e: (Seq<char>, Seq<u8>)| (e.0, ObjectMode::Blob, e.1))
}

/// The plain values of `(path, hash)` pairs.
pub open spec fn pairs_view(pairs: Seq<(String, Hash)>) -> Seq<(Seq<char>, Seq<u8>)> {
    pairs.map_values(|p: (String, Hash)| (p.0@, p.1@))
}

/// The blob that holds `content`.
pub open spec fn blob_of(content: Seq<char>) -> ObjectModel {
    ObjectModel::Blob { hash: text_digest(content), content }
}

/// The tree over `entries`: the entries in canonical order, hashed over
/// the listing of their hashes in that order.
pub open spec fn tree_of(entries: Seq<(Seq<char>, Seq<u8>)>) -> ObjectModel {
    let canonical = sorted_entries(entries);
    ObjectModel::Tree {
        hash: text_digest(hash_listing(child_hashes(canonical))),
        contents: blob_entries(canonical),
    }
}

/// The commit with the given message, tree and parent, hashed over the message.
pub open spec fn commit_of(
    message: Seq<char>,
    tree_hash: Seq<u8>,
    parent: Option<Seq<u8>>,
) -> ObjectModel {
    ObjectModel::Commit { hash: text_digest(message), message, tree_hash, parent_commit: parent }
}

/// Appends the bracketed list of the bytes of `bytes` to `out`, with a comma
/// and, if `spaced`, a space between neighbours.
pub fn push_byte_list(out: &mut Vec<char>, bytes: &Vec<u8>, spaced: bool)
    ensures
        final(out)@ == old(out)@ + byte_list(
            bytes@,
            if spaced {
                listing_sep()
            } else {
                seq![',']
            },
        ),
{
    let ghost sep = if spaced {
        listing_sep()
    } else {
        seq![',']
    };
    out.push('[');
    let mut i: usize = 0;
    while i < bytes.len()
        invariant
            i <= bytes.len(),
            out@ == old(out)@ + seq!['['] + byte_items(bytes@.take(i as int), sep),
            sep == if spaced {
                listing_sep()
            } else {
                seq![',']
            },
        decreases bytes.len() - i,
    {
        let ghost before = out@;
        if i > 0 {
            out.push(',');
            if spaced {
                out.push(' ');
            }
        }
        assert(out@ =~= before + (if i > 0 {
            sep
        } else {
            Seq::empty()
        }));
        push_decimal(out, bytes[i]);
        proof {
            let next = bytes@.take(i + 1);
            assert(next.drop_last() =~= bytes@.take(i as int));
            assert(next.last() == bytes@[i as int]);
            assert(out@ =~= old(out)@ + seq!['['] + byte_items(next, sep));
        }
        i += 1;
    }
    assert(bytes@.take(bytes.len() as int) =~= bytes@);
    out.push(']');
    assert(out@ =~= old(out)@ + byte_list(bytes@, sep));
}

/// The digest of the text held in `chars`.
pub fn digest_chars(chars: &Vec<char>) -> (h: Hash)
    ensures
        h@ == text_digest(chars@),
        h@.len() == 20,
{
    let s = from_chars(chars);
    Hash(sha1_digest(s.as_str().as_bytes()))
}

impl Object {
    /// The hash that the object carries. It is read, never computed again.
    pub fn hash(&self) -> (h: Hash)
        ensures
            h@ == self@.hash(),
    {
        match self {
            Object::Blob { hash, .. } => hash.0.clone(),
            Object::Tree { hash, .. } => hash.clone(),
            Object::Commit { hash, .. } => hash.clone(),
        }
    }

    /// The blob that holds `content`, addressed by the digest of its bytes.
    pub fn blob(content: String) -> (r: Self)
        ensures
            r@ == blob_of(content@),
            r@.hash().len() == 20,
    {
        let hash = Hash(sha1_digest(content.as_str().as_bytes()));
        Object::Blob { hash: BlobHash(hash), content }
    }

    /// The tree over `contents`, each entry a blob. The entries are put in
    /// canonical order, by path and by hash where the paths are equal, and
    /// the hash is the digest of the listing of their hashes in that order:
    /// it does not depend on the order in which the entries are given.
    pub fn tree(contents: Vec<(String, Hash)>) -> (r: Self)
        ensures
            r@ == tree_of(pairs_view(contents@)),
            r@.hash().len() == 20,
    {
        let contents = sort_pairs(contents);
        let ghost pairs = pairs_view(contents@);
        let mut listing: Vec<char> = Vec::new();
        let mut entries: Vec<(String, ObjectMode, Hash)> = Vec::new();
        listing.push('[');
        let mut i: usize = 0;
        while i < contents.len()
            invariant
                i <= contents.len(),
                pairs == pairs_view(contents@),
                listing@ == seq!['['] + hash_items(child_hashes(pairs.take(i as int))),
                entries@.len() == i,
                tree_entries_view(entries@) == blob_entries(pairs.take(i as int)),
            decreases contents.len() - i,
        {
            let ghost before = listing@;
            if i > 0 {
                listing.push(',');
                listing.push(' ');
            }
            assert(listing@ =~= before + (if i > 0 {
                listing_sep()
            } else {
                Seq::empty()
            }));
            push_byte_list(&mut listing, &contents[i].1.0, true);
            let ghost staged = entries@;
            entries.push((contents[i].0.clone(), ObjectMode::Blob, contents[i].1.clone()));
            proof {
                let next = child_hashes(pairs.take(i + 1));
                assert(next.drop_last() =~= child_hashes(pairs.take(i as int)));
                assert(next.last() == contents@[i as int].1@);
                assert(listing@ =~= seq!['['] + hash_items(next));
                let done = blob_entries(pairs.take(i + 1));
                assert forall|k: int| 0 <= k < done.len() implies tree_entries_view(entries@)[k]
                    == done[k] by {
                    if k < i {
                        assert(entries@[k] == staged[k]);
                        assert(tree_entries_view(staged)[k] == blob_entries(pairs.take(i as int))[k]);
                    } else {
                        assert(pairs[k] == (contents@[k].0@, contents@[k].1@));
                    }
                }
                assert(tree_entries_view(entries@) =~= done);
            }
            i += 1;
        }
        assert(pairs.take(contents.len() as int) =~= pairs);
        listing.push(']');
        assert(listing@ =~= hash_listing(child_hashes(pairs)));
        let hash = digest_chars(&listing);
        Object::Tree { hash, contents: entries }
    }

    /// The commit with the given message, tree and parent. Its hash is the
    /// digest of the message alone: commits that share a message share a hash.
    pub fn commit(message: String, tree_hash: Hash, parent_commit: Option<Hash>) -> (r: Self)
        ensures
            r@ == commit_of(message@, tree_hash@, option_hash_view(parent_commit)),
            r@.hash().len() == 20,
    {
        let hash = Hash(sha1_digest(message.as_str().as_bytes()));
        Object::Commit { hash, message, tree_hash, parent_commit }
    }
}

/// Whether `a` and `b` are two texts with one digest.
pub open spec fn collide(a: Seq<char>, b: Seq<char>) -> bool {
    a != b && text_digest(a) == text_digest(b)
}

/// Hashing is determined by the content: the blobs of one content carry
/// one hash.
pub proof fn lemma_blob_hash_determined(c1: Seq<char>, c2: Seq<char>)
    ensures
        c1 == c2 ==> blob_of(c1).hash() == blob_of(c2).hash(),
        blob_of(c1).hash() == text_digest(c1),
{
}

/// Two contents whose digests do not collide have blobs with the same hash
/// exactly when they are the same content.
pub proof fn lemma_blob_hash_tells_apart(c1: Seq<char>, c2: Seq<char>)
    requires
        !collide(c1, c2),
    ensures
        blob_of(c1).hash() == blob_of(c2).hash() <==> c1 == c2,
{
}

/// The tree of a set of entries is reproducible: sequences that hold the
/// same entries, each as often, in whatever order, give the same tree with
/// the same hash.
pub proof fn lemma_tree_reproducible(a: Seq<(Seq<char>, Seq<u8>)>, b: Seq<(Seq<char>, Seq<u8>)>)
    requires
        a.to_multiset() == b.to_multiset(),
    ensures
        tree_of(a) == tree_of(b),
{
    lemma_sorted_canonical(a, b);
}

} // verus!
