//! Reading the text of an object file back, and the proof that reading
//! undoes writing.

use vstd::prelude::*;
use crate::canon::canonical;
use crate::canon::canonical_text;
use crate::codec::encode_object;
use crate::codec::json_bytes;
use crate::codec::json_string;
use crate::codec::mode_text;
use crate::codec::object_text;
use crate::codec::parent_text;
use crate::codec::tree_entry_text;
use crate::codec::tree_items;
use crate::object::tree_entries_view;
use crate::object::tree_entry_view;
use crate::object::BlobHash;
use crate::object::Object;
use crate::object::ObjectMode;
use crate::object::ObjectModel;
use crate::parse::at;
use crate::parse::bytes_at;
use crate::parse::expect;
use crate::parse::lemma_at_concat;
use crate::parse::lemma_concat_assoc;
use crate::parse::lemma_at_index;
use crate::parse::lemma_bytes_at;
use crate::parse::lemma_string_at;
use crate::parse::read_bytes;
use crate::parse::read_string;
use crate::parse::string_at;
use crate::text::chars_eq;
use crate::text::to_chars;

verus! {

/// The mode whose name starts at `pos`, with the place behind it.
pub open spec fn mode_at(text: Seq<char>, pos: int) -> Option<(ObjectMode, int)> {
    if at(text, pos, "\"Blob\""@) {
        Some((ObjectMode::Blob, pos + "\"Blob\""@.len()))
    } else if at(text, pos, "\"Tree\""@) {
        Some((ObjectMode::Tree, pos + "\"Tree\""@.len()))
    } else if at(text, pos, "\"Commit\""@) {
        Some((ObjectMode::Commit, pos + "\"Commit\""@.len()))
    } else {
        None
    }
}

/// Reading the name of a mode gives the mode.
pub proof fn lemma_mode_at(text: Seq<char>, pos: int, mode: ObjectMode)
    requires
        at(text, pos, mode_text(mode)),
    ensures
        mode_at(text, pos) == Some((mode, pos + mode_text(mode).len())),
{
    reveal_strlit("\"Blob\"");
    reveal_strlit("\"Tree\"");
    reveal_strlit("\"Commit\"");
    lemma_at_index(text, pos, mode_text(mode), 1);
    if at(text, pos, "\"Blob\""@) {
        lemma_at_index(text, pos, "\"Blob\""@, 1);
    }
    if at(text, pos, "\"Tree\""@) {
        lemma_at_index(text, pos, "\"Tree\""@, 1);
    }
}

/// The mode whose name starts at `pos`, with the place behind it.
pub fn read_mode(text: &Vec<char>, pos: usize) -> (r: Option<(ObjectMode, usize)>)
    ensures
        match r {
            Some((mode, next)) => mode_at(text@, pos as int) == Some((mode, next as int)),
            None => mode_at(text@, pos as int) is None,
        },
{
    match expect(text, pos, "\"Blob\"") {
        Some(next) => {
            return Some((ObjectMode::Blob, next));
        },
        None => {},
    }
    match expect(text, pos, "\"Tree\"") {
        Some(next) => {
            return Some((ObjectMode::Tree, next));
        },
        None => {},
    }
    match expect(text, pos, "\"Commit\"") {
        Some(next) => Some((ObjectMode::Commit, next)),
        None => None,
    }
}

/// The tree entry whose JSON array starts at `pos`, with the place behind it.
pub open spec fn tree_entry_at(text: Seq<char>, pos: int) -> Option<
    ((Seq<char>, ObjectMode, Seq<u8>), int),
> {
    if at(text, pos, "["@) {
        match string_at(text, pos + "["@.len()) {
            Some((path, behind_path)) => if at(text, behind_path, ","@) {
                match mode_at(text, behind_path + ","@.len()) {
                    Some((mode, behind_mode)) => if at(text, behind_mode, ","@) {
                        match bytes_at(text, behind_mode + ","@.len()) {
                            Some((hash, behind_hash)) => if at(text, behind_hash, "]"@) {
                                Some(((path, mode, hash), behind_hash + "]"@.len()))
                            } else {
                                None
                            },
                            None => None,
                        }
                    } else {
                        None
                    },
                    None => None,
                }
            } else {
                None
            },
            None => None,
        }
    } else {
        None
    }
}

/// Reading the JSON array of a tree entry gives the entry.
#[verifier::rlimit(50)]
pub proof fn lemma_tree_entry_at(text: Seq<char>, pos: int, e: (Seq<char>, ObjectMode, Seq<u8>))
    requires
        at(text, pos, tree_entry_text(e)),
    ensures
        tree_entry_at(text, pos) == Some((e, pos + tree_entry_text(e).len())),
{
    let open = "["@;
    let comma = ","@;
    let close = "]"@;
    let path = json_string(e.0);
    let mode = mode_text(e.1);
    let hash = json_bytes(e.2);
    assert(tree_entry_text(e) == open + (path + (comma + (mode + (comma + (hash + close)))))) by {
        let r5 = hash + close;
        let r4 = comma + r5;
        let r3 = mode + r4;
        let r2 = comma + r3;
        let t1 = open + path;
        let t2 = t1 + comma;
        let t3 = t2 + mode;
        let t4 = t3 + comma;
        lemma_concat_assoc(t4, hash, close);
        lemma_concat_assoc(t3, comma, r5);
        lemma_concat_assoc(t2, mode, r4);
        lemma_concat_assoc(t1, comma, r3);
        lemma_concat_assoc(open, path, r2);
    }
    lemma_at_concat(text, pos, open, path + (comma + (mode + (comma + (hash + close)))));
    let p1 = pos + open.len();
    lemma_at_concat(text, p1, path, comma + (mode + (comma + (hash + close))));
    lemma_string_at(text, p1, e.0);
    let p2 = p1 + path.len();
    lemma_at_concat(text, p2, comma, mode + (comma + (hash + close)));
    let p3 = p2 + comma.len();
    lemma_at_concat(text, p3, mode, comma + (hash + close));
    lemma_mode_at(text, p3, e.1);
    let p4 = p3 + mode.len();
    lemma_at_concat(text, p4, comma, hash + close);
    let p5 = p4 + comma.len();
    lemma_at_concat(text, p5, hash, close);
    lemma_bytes_at(text, p5, e.2);
}

/// The tree entry whose JSON array starts at `pos`, with the place behind it.
pub fn read_tree_entry(text: &Vec<char>, pos: usize) -> (r: Option<
    ((String, ObjectMode, crate::object::Hash), usize),
>)
    ensures
        match r {
            Some((e, next)) => tree_entry_at(text@, pos as int) == Some(
                (tree_entry_view(e), next as int),
            ) && pos < next <= text@.len(),
            None => tree_entry_at(text@, pos as int) is None,
        },
{
    let p1 = match expect(text, pos, "[") {
        Some(p) => p,
        None => {
            return None;
        },
    };
    let (path, p2) = match read_string(text, p1) {
        Some(found) => found,
        None => {
            return None;
        },
    };
    let p3 = match expect(text, p2, ",") {
        Some(p) => p,
        None => {
            return None;
        },
    };
    let (mode, p4) = match read_mode(text, p3) {
        Some(found) => found,
        None => {
            return None;
        },
    };
    let p5 = match expect(text, p4, ",") {
        Some(p) => p,
        None => {
            return None;
        },
    };
    let (bytes, p6) = match read_bytes(text, p5) {
        Some(found) => found,
        None => {
            return None;
        },
    };
    let p7 = match expect(text, p6, "]") {
        Some(p) => p,
        None => {
            return None;
        },
    };
    Some(((path, mode, crate::object::Hash(bytes)), p7))
}

/// The tree entries read from `pos` on, one by one, behind those of `acc`,
/// with the place behind the end of the text of the tree.
pub open spec fn scan_tree_entries(
    text: Seq<char>,
    pos: int,
    acc: Seq<(Seq<char>, ObjectMode, Seq<u8>)>,
) -> Option<(Seq<(Seq<char>, ObjectMode, Seq<u8>)>, int)>
    decreases text.len() - pos,
{
    match tree_entry_at(text, pos) {
        None => None,
        Some((e, next)) => if !(pos < next) {
            None
        } else if at(text, next, ","@) {
            scan_tree_entries(text, next + ","@.len(), acc.push(e))
        } else if at(text, next, "]}}"@) {
            Some((acc.push(e), next + "]}}"@.len()))
        } else {
            None
        },
    }
}

/// The JSON arrays of two or more tree entries start with that of the first.
pub proof fn lemma_tree_items_front(entries: Seq<(Seq<char>, ObjectMode, Seq<u8>)>)
    requires
        entries.len() >= 2,
    ensures
        tree_items(entries) == tree_entry_text(entries[0]) + ","@ + tree_items(
            entries.drop_first(),
        ),
    decreases entries.len(),
{
    let front = entries.drop_last();
    let tail = entries.drop_first();
    if entries.len() == 2 {
        assert(tree_items(front) == tree_entry_text(entries[0]));
        assert(tree_items(tail) == tree_entry_text(entries[1]));
    } else {
        lemma_tree_items_front(front);
        assert(front.drop_first() =~= tail.drop_last());
        assert(tree_items(entries) =~= tree_entry_text(entries[0]) + ","@ + tree_items(tail));
    }
}

/// The JSON array of a tree entry is not empty and starts with a bracket.
pub proof fn lemma_tree_entry_text_start(e: (Seq<char>, ObjectMode, Seq<u8>))
    ensures
        tree_entry_text(e).len() >= 1,
        tree_entry_text(e)[0] == '[',
{
    reveal_strlit("[");
}

/// Reading the JSON arrays of a list of tree entries gives the entries.
#[verifier::rlimit(50)]
pub proof fn lemma_scan_tree_entries(
    text: Seq<char>,
    pos: int,
    acc: Seq<(Seq<char>, ObjectMode, Seq<u8>)>,
    entries: Seq<(Seq<char>, ObjectMode, Seq<u8>)>,
)
    requires
        entries.len() >= 1,
        at(text, pos, tree_items(entries) + "]}}"@),
    ensures
        scan_tree_entries(text, pos, acc) == Some(
            (acc + entries, pos + tree_items(entries).len() + "]}}"@.len()),
        ),
    decreases entries.len(),
{
    reveal_strlit(",");
    reveal_strlit("]}}");
    let first = tree_entry_text(entries[0]);
    lemma_tree_entry_text_start(entries[0]);
    if entries.len() == 1 {
        lemma_at_concat(text, pos, first, "]}}"@);
        lemma_tree_entry_at(text, pos, entries[0]);
        let next = pos + first.len();
        lemma_at_index(text, next, "]}}"@, 0);
        if at(text, next, ","@) {
            lemma_at_index(text, next, ","@, 0);
        }
        assert(acc.push(entries[0]) =~= acc + entries);
    } else {
        let tail = entries.drop_first();
        lemma_tree_items_front(entries);
        let after = ","@ + (tree_items(tail) + "]}}"@);
        assert(tree_items(entries) + "]}}"@ =~= first + after);
        lemma_at_concat(text, pos, first, after);
        lemma_tree_entry_at(text, pos, entries[0]);
        let next = pos + first.len();
        lemma_at_concat(text, next, ","@, tree_items(tail) + "]}}"@);
        lemma_scan_tree_entries(text, next + ","@.len(), acc.push(entries[0]), tail);
        assert(acc.push(entries[0]) + tail =~= acc + entries);
    }
}

/// The optional hash that starts at `pos`, with the place behind it.
pub open spec fn parent_at(text: Seq<char>, pos: int) -> Option<(Option<Seq<u8>>, int)> {
    if at(text, pos, "null"@) {
        Some((None, pos + "null"@.len()))
    } else {
        match bytes_at(text, pos) {
            Some((hash, next)) => Some((Some(hash), next)),
            None => None,
        }
    }
}

/// Reading the JSON value of an optional hash gives it.
pub proof fn lemma_parent_at(text: Seq<char>, pos: int, parent: Option<Seq<u8>>)
    requires
        at(text, pos, parent_text(parent)),
    ensures
        parent_at(text, pos) == Some((parent, pos + parent_text(parent).len())),
{
    reveal_strlit("null");
    match parent {
        Some(hash) => {
            lemma_bytes_at(text, pos, hash);
            lemma_at_index(text, pos, json_bytes(hash), 0);
            if at(text, pos, "null"@) {
                lemma_at_index(text, pos, "null"@, 0);
            }
        },
        None => {},
    }
}

/// The blob whose fields start at `pos`.
pub open spec fn blob_at(text: Seq<char>, pos: int) -> Option<ObjectModel> {
    match bytes_at(text, pos) {
        Some((hash, p1)) => if at(text, p1, ",\"content\":"@) {
            match string_at(text, p1 + ",\"content\":"@.len()) {
                Some((content, p2)) => if at(text, p2, "}}"@) && p2 + "}}"@.len() == text.len() {
                    Some(ObjectModel::Blob { hash, content })
                } else {
                    None
                },
                None => None,
            }
        } else {
            None
        },
        None => None,
    }
}

/// The tree whose fields start at `pos`.
pub open spec fn tree_at(text: Seq<char>, pos: int) -> Option<ObjectModel> {
    match bytes_at(text, pos) {
        Some((hash, p1)) => if at(text, p1, ",\"contents\":["@) {
            let p2 = p1 + ",\"contents\":["@.len();
            if at(text, p2, "]}}"@) {
                if p2 + "]}}"@.len() == text.len() {
                    Some(ObjectModel::Tree { hash, contents: Seq::empty() })
                } else {
                    None
                }
            } else {
                match scan_tree_entries(text, p2, Seq::empty()) {
                    Some((contents, end)) => if end == text.len() {
                        Some(ObjectModel::Tree { hash, contents })
                    } else {
                        None
                    },
                    None => None,
                }
            }
        } else {
            None
        },
        None => None,
    }
}

/// The commit whose fields start at `pos`.
pub open spec fn commit_at(text: Seq<char>, pos: int) -> Option<ObjectModel> {
    match bytes_at(text, pos) {
        Some((hash, p1)) => if at(text, p1, ",\"message\":"@) {
            match string_at(text, p1 + ",\"message\":"@.len()) {
                Some((message, p2)) => if at(text, p2, ",\"tree_hash\":"@) {
                    match bytes_at(text, p2 + ",\"tree_hash\":"@.len()) {
                        Some((tree_hash, p3)) => if at(text, p3, ",\"parent_commit\":"@) {
                            match parent_at(text, p3 + ",\"parent_commit\":"@.len()) {
                                Some((parent_commit, p4)) => if at(text, p4, "}}"@) && p4
                                    + "}}"@.len() == text.len() {
                                    Some(
                                        ObjectModel::Commit {
                                            hash,
                                            message,
                                            tree_hash,
                                            parent_commit,
                                        },
                                    )
                                } else {
                                    None
                                },
                                None => None,
                            }
                        } else {
                            None
                        },
                        None => None,
                    }
                } else {
                    None
                },
                None => None,
            }
        } else {
            None
        },
        None => None,
    }
}

/// The object that a text of an object file holds.
pub open spec fn object_at(text: Seq<char>) -> Option<ObjectModel> {
    if at(text, 0, "{\"Blob\":{\"hash\":"@) {
        blob_at(text, "{\"Blob\":{\"hash\":"@.len() as int)
    } else if at(text, 0, "{\"Tree\":{\"hash\":"@) {
        tree_at(text, "{\"Tree\":{\"hash\":"@.len() as int)
    } else if at(text, 0, "{\"Commit\":{\"hash\":"@) {
        commit_at(text, "{\"Commit\":{\"hash\":"@.len() as int)
    } else {
        None
    }
}

/// A text stands in itself at the start.
pub proof fn lemma_at_whole(text: Seq<char>)
    ensures
        at(text, 0, text),
{
    assert(text.subrange(0, text.len() as int) =~= text);
}

/// Reading the fields of a blob gives the blob.
#[verifier::rlimit(50)]
pub proof fn lemma_blob_at(text: Seq<char>, pos: int, hash: Seq<u8>, content: Seq<char>)
    requires
        at(text, pos, json_bytes(hash) + (",\"content\":"@ + (json_string(content) + "}}"@))),
        pos + (json_bytes(hash) + (",\"content\":"@ + (json_string(content) + "}}"@))).len()
            == text.len(),
    ensures
        blob_at(text, pos) == Some(ObjectModel::Blob { hash, content }),
{
    let key = ",\"content\":"@;
    let close = "}}"@;
    lemma_at_concat(text, pos, json_bytes(hash), key + (json_string(content) + close));
    lemma_bytes_at(text, pos, hash);
    let p1 = pos + json_bytes(hash).len();
    lemma_at_concat(text, p1, key, json_string(content) + close);
    let p2 = p1 + key.len();
    lemma_at_concat(text, p2, json_string(content), close);
    lemma_string_at(text, p2, content);
}

/// Reading the fields of a tree gives the tree.
#[verifier::rlimit(50)]
pub proof fn lemma_tree_at(
    text: Seq<char>,
    pos: int,
    hash: Seq<u8>,
    contents: Seq<(Seq<char>, ObjectMode, Seq<u8>)>,
)
    requires
        at(text, pos, json_bytes(hash) + (",\"contents\":["@ + (tree_items(contents) + "]}}"@))),
        pos + (json_bytes(hash) + (",\"contents\":["@ + (tree_items(contents) + "]}}"@))).len()
            == text.len(),
    ensures
        tree_at(text, pos) == Some(ObjectModel::Tree { hash, contents }),
{
    reveal_strlit("]}}");
    let key = ",\"contents\":["@;
    let close = "]}}"@;
    lemma_at_concat(text, pos, json_bytes(hash), key + (tree_items(contents) + close));
    lemma_bytes_at(text, pos, hash);
    let p1 = pos + json_bytes(hash).len();
    lemma_at_concat(text, p1, key, tree_items(contents) + close);
    let p2 = p1 + key.len();
    let rest = tree_items(contents) + close;
    if contents.len() == 0 {
        assert(rest =~= close);
        assert(contents =~= Seq::<(Seq<char>, ObjectMode, Seq<u8>)>::empty());
    } else {
        lemma_tree_entry_text_start(contents[0]);
        if contents.len() >= 2 {
            lemma_tree_items_front(contents);
        }
        assert(rest[0] == '[');
        lemma_at_index(text, p2, rest, 0);
        if at(text, p2, close) {
            lemma_at_index(text, p2, close, 0);
        }
        lemma_scan_tree_entries(text, p2, Seq::empty(), contents);
        assert(Seq::<(Seq<char>, ObjectMode, Seq<u8>)>::empty() + contents =~= contents);
    }
}

/// Reading the fields of a commit gives the commit.
#[verifier::rlimit(40)]
pub proof fn lemma_commit_at(
    text: Seq<char>,
    pos: int,
    hash: Seq<u8>,
    message: Seq<char>,
    tree_hash: Seq<u8>,
    parent_commit: Option<Seq<u8>>,
)
    requires
        at(
            text,
            pos,
            json_bytes(hash) + (",\"message\":"@ + (json_string(message) + (",\"tree_hash\":"@ + (
            json_bytes(tree_hash) + (",\"parent_commit\":"@ + (parent_text(parent_commit) + "}}"@)))))),
        ),
        pos + (json_bytes(hash) + (",\"message\":"@ + (json_string(message) + (",\"tree_hash\":"@
            + (json_bytes(tree_hash) + (",\"parent_commit\":"@ + (parent_text(parent_commit)
            + "}}"@))))))).len() == text.len(),
    ensures
        commit_at(text, pos) == Some(
            ObjectModel::Commit { hash, message, tree_hash, parent_commit },
        ),
{
    let k1 = ",\"message\":"@;
    let k2 = ",\"tree_hash\":"@;
    let k3 = ",\"parent_commit\":"@;
    let close = "}}"@;
    let a = json_bytes(hash);
    let b = json_string(message);
    let c = json_bytes(tree_hash);
    let d = parent_text(parent_commit);
    lemma_at_concat(text, pos, a, k1 + (b + (k2 + (c + (k3 + (d + close))))));
    lemma_bytes_at(text, pos, hash);
    let p1 = pos + a.len();
    lemma_at_concat(text, p1, k1, b + (k2 + (c + (k3 + (d + close)))));
    let p2 = p1 + k1.len();
    lemma_at_concat(text, p2, b, k2 + (c + (k3 + (d + close))));
    lemma_string_at(text, p2, message);
    let p3 = p2 + b.len();
    lemma_at_concat(text, p3, k2, c + (k3 + (d + close)));
    let p4 = p3 + k2.len();
    lemma_at_concat(text, p4, c, k3 + (d + close));
    lemma_bytes_at(text, p4, tree_hash);
    let p5 = p4 + c.len();
    lemma_at_concat(text, p5, k3, d + close);
    let p6 = p5 + k3.len();
    lemma_at_concat(text, p6, d, close);
    lemma_parent_at(text, p6, parent_commit);
}

/// The three openings of an object file differ in their third character.
pub proof fn lemma_openings()
    ensures
        "{\"Blob\":{\"hash\":"@.len() > 2,
        "{\"Tree\":{\"hash\":"@.len() > 2,
        "{\"Commit\":{\"hash\":"@.len() > 2,
        "{\"Blob\":{\"hash\":"@[2] == 'B',
        "{\"Tree\":{\"hash\":"@[2] == 'T',
        "{\"Commit\":{\"hash\":"@[2] == 'C',
{
    reveal_strlit("{\"Blob\":{\"hash\":");
    reveal_strlit("{\"Tree\":{\"hash\":");
    reveal_strlit("{\"Commit\":{\"hash\":");
}

/// Reading the text of a blob gives the blob.
pub proof fn lemma_blob_text(hash: Seq<u8>, content: Seq<char>)
    ensures
        object_at(object_text(ObjectModel::Blob { hash, content })) == Some(
            ObjectModel::Blob { hash, content },
        ),
{
    let text = object_text(ObjectModel::Blob { hash, content });
    let open = "{\"Blob\":{\"hash\":"@;
    let rest = json_bytes(hash) + (",\"content\":"@ + (json_string(content) + "}}"@));
    assert(text =~= open + rest);
    lemma_at_whole(text);
    lemma_at_concat(text, 0, open, rest);
    lemma_blob_at(text, open.len() as int, hash, content);
}

/// Reading the text of a tree gives the tree.
#[verifier::rlimit(50)]
pub proof fn lemma_tree_text(hash: Seq<u8>, contents: Seq<(Seq<char>, ObjectMode, Seq<u8>)>)
    ensures
        object_at(object_text(ObjectModel::Tree { hash, contents })) == Some(
            ObjectModel::Tree { hash, contents },
        ),
{
    lemma_openings();
    let text = object_text(ObjectModel::Tree { hash, contents });
    let open = "{\"Tree\":{\"hash\":"@;
    let blob_open = "{\"Blob\":{\"hash\":"@;
    let rest = json_bytes(hash) + (",\"contents\":["@ + (tree_items(contents) + "]}}"@));
    assert(text =~= open + rest);
    lemma_at_whole(text);
    lemma_at_concat(text, 0, open, rest);
    lemma_at_index(text, 0, open, 2);
    assert(!at(text, 0, blob_open)) by {
        if at(text, 0, blob_open) {
            lemma_at_index(text, 0, blob_open, 2);
        }
    }
    lemma_tree_at(text, open.len() as int, hash, contents);
}

/// The text of a commit, piece behind piece.
pub proof fn lemma_commit_shape(
    hash: Seq<u8>,
    message: Seq<char>,
    tree_hash: Seq<u8>,
    parent_commit: Option<Seq<u8>>,
)
    ensures
        object_text(ObjectModel::Commit { hash, message, tree_hash, parent_commit })
            == "{\"Commit\":{\"hash\":"@ + (json_bytes(hash) + (",\"message\":"@ + (json_string(
            message,
        ) + (",\"tree_hash\":"@ + (json_bytes(tree_hash) + (",\"parent_commit\":"@ + (
        parent_text(parent_commit) + "}}"@))))))),
{
    let o = "{\"Commit\":{\"hash\":"@;
    let a = json_bytes(hash);
    let k1 = ",\"message\":"@;
    let b = json_string(message);
    let k2 = ",\"tree_hash\":"@;
    let c = json_bytes(tree_hash);
    let k3 = ",\"parent_commit\":"@;
    let d = parent_text(parent_commit);
    let close = "}}"@;
    let r7 = d + close;
    let r6 = k3 + r7;
    let r5 = c + r6;
    let r4 = k2 + r5;
    let r3 = b + r4;
    let r2 = k1 + r3;
    let r1 = a + r2;
    let t1 = o + a;
    let t2 = t1 + k1;
    let t3 = t2 + b;
    let t4 = t3 + k2;
    let t5 = t4 + c;
    let t6 = t5 + k3;
    lemma_concat_assoc(t6, d, close);
    lemma_concat_assoc(t5, k3, r7);
    lemma_concat_assoc(t4, c, r6);
    lemma_concat_assoc(t3, k2, r5);
    lemma_concat_assoc(t2, b, r4);
    lemma_concat_assoc(t1, k1, r3);
    lemma_concat_assoc(o, a, r2);
}

/// Reading the text of a commit gives the commit.
#[verifier::rlimit(40)]
pub proof fn lemma_commit_text(
    hash: Seq<u8>,
    message: Seq<char>,
    tree_hash: Seq<u8>,
    parent_commit: Option<Seq<u8>>,
)
    ensures
        object_at(object_text(ObjectModel::Commit { hash, message, tree_hash, parent_commit }))
            == Some(ObjectModel::Commit { hash, message, tree_hash, parent_commit }),
{
    lemma_openings();
    let text = object_text(ObjectModel::Commit { hash, message, tree_hash, parent_commit });
    let open = "{\"Commit\":{\"hash\":"@;
    let blob_open = "{\"Blob\":{\"hash\":"@;
    let tree_open = "{\"Tree\":{\"hash\":"@;
    let rest = json_bytes(hash) + (",\"message\":"@ + (json_string(message) + (",\"tree_hash\":"@
        + (json_bytes(tree_hash) + (",\"parent_commit\":"@ + (parent_text(parent_commit)
        + "}}"@))))));
    lemma_commit_shape(hash, message, tree_hash, parent_commit);
    lemma_at_whole(text);
    lemma_at_concat(text, 0, open, rest);
    lemma_at_index(text, 0, open, 2);
    assert(!at(text, 0, blob_open)) by {
        if at(text, 0, blob_open) {
            lemma_at_index(text, 0, blob_open, 2);
        }
    }
    assert(!at(text, 0, tree_open)) by {
        if at(text, 0, tree_open) {
            lemma_at_index(text, 0, tree_open, 2);
        }
    }
    lemma_commit_at(text, open.len() as int, hash, message, tree_hash, parent_commit);
}

/// Reading the text of an object gives the object.
pub proof fn lemma_object_at(o: ObjectModel)
    ensures
        object_at(object_text(o)) == Some(o),
{
    match o {
        ObjectModel::Blob { hash, content } => {
            lemma_blob_text(hash, content);
        },
        ObjectModel::Tree { hash, contents } => {
            lemma_tree_text(hash, contents);
        },
        ObjectModel::Commit { hash, message, tree_hash, parent_commit } => {
            lemma_commit_text(hash, message, tree_hash, parent_commit);
        },
    }
}

/// Two objects with the same text are the same object: the text of an
/// object file tells the kind and every field.
pub proof fn lemma_object_text_injective(a: ObjectModel, b: ObjectModel)
    requires
        object_text(a) == object_text(b),
    ensures
        a == b,
{
    lemma_object_at(a);
    lemma_object_at(b);
}

/// The object that `text` is the text of, letter for letter, if it is the
/// text of one.
pub open spec fn object_decoded_exact(text: Seq<char>) -> Option<ObjectModel> {
    match object_at(text) {
        Some(o) => if object_text(o) == text {
            Some(o)
        } else {
            None
        },
        None => None,
    }
}

/// The object that `text` is JSON for. A text in canonical spelling is read
/// as it stands; any other is first brought into canonical spelling, which
/// leaves out white space between tokens and spells every escape in a
/// string anew.
pub open spec fn object_decoded(text: Seq<char>) -> Option<ObjectModel> {
    match object_decoded_exact(text) {
        Some(o) => Some(o),
        None => match canonical_text(text) {
            Some(spelled) => object_decoded_exact(spelled),
            None => None,
        },
    }
}

/// A text is read as an object exactly when it, or its canonical spelling,
/// is the text of that object.
pub proof fn lemma_object_spelling(text: Seq<char>, o: ObjectModel)
    ensures
        object_decoded(text) == Some(o) <==> text == object_text(o) || (object_decoded_exact(text)
            is None && canonical_text(text) == Some(object_text(o))),
{
    lemma_object_at(o);
}

/// Reading undoes writing: the text of an object is read back as the object.
pub proof fn lemma_object_round_trip(o: ObjectModel)
    ensures
        object_decoded(object_text(o)) == Some(o),
{
    lemma_object_at(o);
}

/// The plain value of an optional object.
pub open spec fn option_object_view(r: Option<Object>) -> Option<ObjectModel> {
    match r {
        Some(o) => Some(o@),
        None => None,
    }
}

/// The blob whose fields start at `pos`.
fn read_blob(text: &Vec<char>, pos: usize) -> (r: Option<Object>)
    ensures
        option_object_view(r) == blob_at(text@, pos as int),
{
    let (hash, p1) = match read_bytes(text, pos) {
        Some(found) => found,
        None => {
            return None;
        },
    };
    let p2 = match expect(text, p1, ",\"content\":") {
        Some(p) => p,
        None => {
            return None;
        },
    };
    let (content, p3) = match read_string(text, p2) {
        Some(found) => found,
        None => {
            return None;
        },
    };
    match expect(text, p3, "}}") {
        Some(end) => {
            if end == text.len() {
                Some(Object::Blob { hash: BlobHash(crate::object::Hash(hash)), content })
            } else {
                None
            }
        },
        None => None,
    }
}

/// The tree whose fields start at `pos`.
#[verifier::rlimit(50)]
fn read_tree(text: &Vec<char>, pos: usize) -> (r: Option<Object>)
    ensures
        option_object_view(r) == tree_at(text@, pos as int),
{
    let n: usize = text.len();
    let (hash, p1) = match read_bytes(text, pos) {
        Some(found) => found,
        None => {
            return None;
        },
    };
    let start = match expect(text, p1, ",\"contents\":[") {
        Some(p) => p,
        None => {
            return None;
        },
    };
    let mut contents: Vec<(String, ObjectMode, crate::object::Hash)> = Vec::new();
    assert(tree_entries_view(contents@) =~= Seq::<(Seq<char>, ObjectMode, Seq<u8>)>::empty());
    match expect(text, start, "]}}") {
        Some(end) => {
            if end == n {
                return Some(Object::Tree { hash: crate::object::Hash(hash), contents });
            } else {
                return None;
            }
        },
        None => {},
    }
    let mut i: usize = start;
    loop
        invariant
            n == text@.len(),
            i <= n,
            tree_at(text@, pos as int) == match scan_tree_entries(
                text@,
                i as int,
                tree_entries_view(contents@),
            ) {
                Some((found, end)) => if end == n {
                    Some(ObjectModel::Tree { hash: hash@, contents: found })
                } else {
                    None
                },
                None => None,
            },
        decreases n - i,
    {
        let ghost read = tree_entries_view(contents@);
        let (e, next) = match read_tree_entry(text, i) {
            Some(found) => found,
            None => {
                return None;
            },
        };
        match expect(text, next, ",") {
            Some(behind) => {
                contents.push(e);
                assert(tree_entries_view(contents@) =~= read.push(tree_entry_view(e)));
                i = behind;
            },
            None => {
                match expect(text, next, "]}}") {
                    Some(end) => {
                        if end == n {
                            contents.push(e);
                            assert(tree_entries_view(contents@) =~= read.push(tree_entry_view(e)));
                            return Some(Object::Tree { hash: crate::object::Hash(hash), contents });
                        } else {
                            return None;
                        }
                    },
                    None => {
                        return None;
                    },
                }
            },
        }
    }
}

/// The commit whose fields start at `pos`.
fn read_commit(text: &Vec<char>, pos: usize) -> (r: Option<Object>)
    ensures
        option_object_view(r) == commit_at(text@, pos as int),
{
    let (hash, p1) = match read_bytes(text, pos) {
        Some(found) => found,
        None => {
            return None;
        },
    };
    let p2 = match expect(text, p1, ",\"message\":") {
        Some(p) => p,
        None => {
            return None;
        },
    };
    let (message, p3) = match read_string(text, p2) {
        Some(found) => found,
        None => {
            return None;
        },
    };
    let p4 = match expect(text, p3, ",\"tree_hash\":") {
        Some(p) => p,
        None => {
            return None;
        },
    };
    let (tree_hash, p5) = match read_bytes(text, p4) {
        Some(found) => found,
        None => {
            return None;
        },
    };
    let p6 = match expect(text, p5, ",\"parent_commit\":") {
        Some(p) => p,
        None => {
            return None;
        },
    };
    let (parent_commit, p7) = match expect(text, p6, "null") {
        Some(p) => (None, p),
        None => match read_bytes(text, p6) {
            Some((bytes, p)) => (Some(crate::object::Hash(bytes)), p),
            None => {
                return None;
            },
        },
    };
    match expect(text, p7, "}}") {
        Some(end) => {
            if end == text.len() {
                Some(
                    Object::Commit {
                        hash: crate::object::Hash(hash),
                        message,
                        tree_hash: crate::object::Hash(tree_hash),
                        parent_commit,
                    },
                )
            } else {
                None
            }
        },
        None => None,
    }
}

/// The object that `text` holds, read from left to right.
pub fn read_object(text: &Vec<char>) -> (r: Option<Object>)
    ensures
        option_object_view(r) == object_at(text@),
{
    match expect(text, 0, "{\"Blob\":{\"hash\":") {
        Some(p) => {
            return read_blob(text, p);
        },
        None => {},
    }
    match expect(text, 0, "{\"Tree\":{\"hash\":") {
        Some(p) => {
            return read_tree(text, p);
        },
        None => {},
    }
    match expect(text, 0, "{\"Commit\":{\"hash\":") {
        Some(p) => read_commit(text, p),
        None => None,
    }
}

/// The object that `text` is the text of, letter for letter.
pub fn decode_object_chars(chars: &Vec<char>) -> (r: Option<Object>)
    ensures
        option_object_view(r) == object_decoded_exact(chars@),
        match r {
            Some(o) => chars@ == object_text(o@),
            None => forall|o: ObjectModel| chars@ != object_text(o),
        },
{
    let found = read_object(chars);
    proof {
        assert forall|o: ObjectModel| chars@ == object_text(o) implies object_at(chars@) == Some(
            o,
        ) by {
            lemma_object_at(o);
        }
    }
    match found {
        Some(o) => {
            let again = to_chars(encode_object(&o).as_str());
            if chars_eq(&again, chars) {
                Some(o)
            } else {
                None
            }
        },
        None => None,
    }
}

/// The object that `text` is JSON for: white space between tokens and the
/// spelling of escapes do not matter. A text that is JSON for no object is
/// refused.
pub fn decode_object(text: &str) -> (r: Option<Object>)
    ensures
        option_object_view(r) == object_decoded(text@),
{
    let chars = to_chars(text);
    match decode_object_chars(&chars) {
        Some(o) => Some(o),
        None => match canonical(&chars) {
            Some(spelled) => decode_object_chars(&spelled),
            None => None,
        },
    }
}

} // verus!
