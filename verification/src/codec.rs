//! The text of the index file and of the object files: JSON, written
//! without white space.

use vstd::prelude::*;
use crate::index::Entry;
use crate::index::EntryModel;
use crate::index::Index;
use crate::object::byte_list;
use crate::object::push_byte_list;
use crate::object::Object;
use crate::object::ObjectMode;
use crate::object::ObjectModel;
use crate::text::push_all;
use crate::text::to_chars;
use crate::text::from_chars;

verus! {

/// The character of the hexadecimal digit `d`, in lower case.
pub open spec fn hex_char(d: nat) -> char {
    if d == 0 {
        '0'
    } else if d == 1 {
        '1'
    } else if d == 2 {
        '2'
    } else if d == 3 {
        '3'
    } else if d == 4 {
        '4'
    } else if d == 5 {
        '5'
    } else if d == 6 {
        '6'
    } else if d == 7 {
        '7'
    } else if d == 8 {
        '8'
    } else if d == 9 {
        '9'
    } else if d == 10 {
        'a'
    } else if d == 11 {
        'b'
    } else if d == 12 {
        'c'
    } else if d == 13 {
        'd'
    } else if d == 14 {
        'e'
    } else {
        'f'
    }
}

/// How one character stands inside a JSON string: the quote, the backslash
/// and the control characters escaped, every other character as it is.
pub open spec fn escape_char(c: char) -> Seq<char> {
    if c == '"' {
        seq!['\\', '"']
    } else if c == '\\' {
        seq!['\\', '\\']
    } else if c == '\u{08}' {
        seq!['\\', 'b']
    } else if c == '\u{0c}' {
        seq!['\\', 'f']
    } else if c == '\n' {
        seq!['\\', 'n']
    } else if c == '\r' {
        seq!['\\', 'r']
    } else if c == '\t' {
        seq!['\\', 't']
    } else if (c as u32) < 0x20 {
        seq!['\\', 'u', '0', '0', hex_char((c as u32 / 16) as nat), hex_char((c as u32 % 16) as nat)]
    } else {
        seq![c]
    }
}

/// The characters of `s`, each as it stands inside a JSON string.
pub open spec fn escaped(s: Seq<char>) -> Seq<char>
    decreases s.len(),
{
    if s.len() == 0 {
        Seq::empty()
    } else {
        escaped(s.drop_last()) + escape_char(s.last())
    }
}

/// The JSON string that holds `s`.
pub open spec fn json_string(s: Seq<char>) -> Seq<char> {
    seq!['"'] + escaped(s) + seq!['"']
}

/// The JSON array of the bytes of a hash.
pub open spec fn json_bytes(bytes: Seq<u8>) -> Seq<char> {
    byte_list(bytes, seq![','])
}

/// The JSON object of one entry.
pub open spec fn entry_text(e: EntryModel) -> Seq<char> {
    "{\"file_name\":"@ + json_string(e.file_name) + ",\"blob_hash\":"@ + json_bytes(e.blob_hash)
        + "}"@
}

/// The JSON objects of `entries`, separated by commas.
pub open spec fn entry_items(entries: Seq<EntryModel>) -> Seq<char>
    decreases entries.len(),
{
    if entries.len() == 0 {
        Seq::empty()
    } else if entries.len() == 1 {
        entry_text(entries[0])
    } else {
        entry_items(entries.drop_last()) + ","@ + entry_text(entries.last())
    }
}

/// The text of the index file: a JSON object with the one field `entries`,
/// an array of the entries in the order in which they were added.
pub open spec fn index_text(entries: Seq<EntryModel>) -> Seq<char> {
    "{\"entries\":["@ + entry_items(entries) + "]}"@
}

/// The name of a mode, as a JSON string.
pub open spec fn mode_text(mode: ObjectMode) -> Seq<char> {
    match mode {
        ObjectMode::Blob => "\"Blob\""@,
        ObjectMode::Tree => "\"Tree\""@,
        ObjectMode::Commit => "\"Commit\""@,
    }
}

/// The JSON array of one tree entry: path, mode, hash.
pub open spec fn tree_entry_text(e: (Seq<char>, ObjectMode, Seq<u8>)) -> Seq<char> {
    "["@ + json_string(e.0) + ","@ + mode_text(e.1) + ","@ + json_bytes(e.2) + "]"@
}

/// The JSON arrays of tree entries, separated by commas.
pub open spec fn tree_items(entries: Seq<(Seq<char>, ObjectMode, Seq<u8>)>) -> Seq<char>
    decreases entries.len(),
{
    if entries.len() == 0 {
        Seq::empty()
    } else if entries.len() == 1 {
        tree_entry_text(entries[0])
    } else {
        tree_items(entries.drop_last()) + ","@ + tree_entry_text(entries.last())
    }
}

/// The JSON value of an optional hash: its array, or `null`.
pub open spec fn parent_text(parent: Option<Seq<u8>>) -> Seq<char> {
    match parent {
        Some(h) => json_bytes(h),
        None => "null"@,
    }
}

/// The text of an object file: a JSON object with one field, named after
/// the kind, that holds the object's fields.
pub open spec fn object_text(o: ObjectModel) -> Seq<char> {
    match o {
        ObjectModel::Blob { hash, content } => "{\"Blob\":{\"hash\":"@ + json_bytes(hash)
            + ",\"content\":"@ + json_string(content) + "}}"@,
        ObjectModel::Tree { hash, contents } => "{\"Tree\":{\"hash\":"@ + json_bytes(hash)
            + ",\"contents\":["@ + tree_items(contents) + "]}}"@,
        ObjectModel::Commit { hash, message, tree_hash, parent_commit } => "{\"Commit\":{\"hash\":"@
            + json_bytes(hash) + ",\"message\":"@ + json_string(message) + ",\"tree_hash\":"@
            + json_bytes(tree_hash) + ",\"parent_commit\":"@ + parent_text(parent_commit) + "}}"@,
    }
}

/// The character of one hexadecimal digit.
pub fn hex_digit(d: u32) -> (c: char)
    requires
        d < 16,
    ensures
        c == hex_char(d as nat),
{
    if d == 0 {
        '0'
    } else if d == 1 {
        '1'
    } else if d == 2 {
        '2'
    } else if d == 3 {
        '3'
    } else if d == 4 {
        '4'
    } else if d == 5 {
        '5'
    } else if d == 6 {
        '6'
    } else if d == 7 {
        '7'
    } else if d == 8 {
        '8'
    } else if d == 9 {
        '9'
    } else if d == 10 {
        'a'
    } else if d == 11 {
        'b'
    } else if d == 12 {
        'c'
    } else if d == 13 {
        'd'
    } else if d == 14 {
        'e'
    } else {
        'f'
    }
}

/// Appends the characters of `s` to `out`.
pub fn push_str(out: &mut Vec<char>, s: &str)
    ensures
        final(out)@ == old(out)@ + s@,
{
    let chars = to_chars(s);
    push_all(out, &chars);
}

/// Appends `c` to `out` as it stands inside a JSON string.
pub fn push_escaped_char(out: &mut Vec<char>, c: char)
    ensures
        final(out)@ == old(out)@ + escape_char(c),
{
    if c == '"' {
        out.push('\\');
        out.push('"');
    } else if c == '\\' {
        out.push('\\');
        out.push('\\');
    } else if c == '\u{08}' {
        out.push('\\');
        out.push('b');
    } else if c == '\u{0c}' {
        out.push('\\');
        out.push('f');
    } else if c == '\n' {
        out.push('\\');
        out.push('n');
    } else if c == '\r' {
        out.push('\\');
        out.push('r');
    } else if c == '\t' {
        out.push('\\');
        out.push('t');
    } else if (c as u32) < 0x20 {
        out.push('\\');
        out.push('u');
        out.push('0');
        out.push('0');
        out.push(hex_digit(c as u32 / 16));
        out.push(hex_digit(c as u32 % 16));
    } else {
        out.push(c);
    }
    assert(out@ =~= old(out)@ + escape_char(c));
}

/// Appends the JSON string that holds `s` to `out`.
pub fn push_json_string(out: &mut Vec<char>, s: &str)
    ensures
        final(out)@ == old(out)@ + json_string(s@),
{
    let chars = to_chars(s);
    out.push('"');
    let mut i: usize = 0;
    while i < chars.len()
        invariant
            i <= chars.len(),
            out@ == old(out)@ + seq!['"'] + escaped(chars@.take(i as int)),
        decreases chars.len() - i,
    {
        push_escaped_char(out, chars[i]);
        proof {
            let next = chars@.take(i + 1);
            assert(next.drop_last() =~= chars@.take(i as int));
            assert(next.last() == chars@[i as int]);
            assert(out@ =~= old(out)@ + seq!['"'] + escaped(next));
        }
        i += 1;
    }
    assert(chars@.take(chars.len() as int) =~= chars@);
    out.push('"');
    assert(out@ =~= old(out)@ + json_string(s@));
}

/// Appends the JSON object of `entry` to `out`.
pub fn push_entry(out: &mut Vec<char>, entry: &Entry)
    ensures
        final(out)@ == old(out)@ + entry_text(entry@),
{
    push_str(out, "{\"file_name\":");
    push_json_string(out, entry.file_name.as_str());
    push_str(out, ",\"blob_hash\":");
    push_byte_list(out, &entry.blob_hash.0.0, false);
    push_str(out, "}");
    assert(out@ =~= old(out)@ + entry_text(entry@));
}

/// The text of the index file for `index`.
pub fn encode_index(index: &Index) -> (text: String)
    ensures
        text@ == index_text(index@),
{
    let mut out: Vec<char> = Vec::new();
    push_str(&mut out, "{\"entries\":[");
    let mut i: usize = 0;
    while i < index.entries.len()
        invariant
            i <= index.entries.len(),
            out@ == "{\"entries\":["@ + entry_items(index@.take(i as int)),
        decreases index.entries.len() - i,
    {
        let ghost before = out@;
        if i > 0 {
            push_str(&mut out, ",");
        }
        push_entry(&mut out, &index.entries[i]);
        proof {
            let next = index@.take(i + 1);
            assert(next.drop_last() =~= index@.take(i as int));
            assert(next.last() == index.entries@[i as int]@);
            assert(out@ =~= "{\"entries\":["@ + entry_items(next));
        }
        i += 1;
    }
    assert(index@.take(index.entries.len() as int) =~= index@);
    push_str(&mut out, "]}");
    assert(out@ =~= index_text(index@));
    from_chars(&out)
}

/// Appends the name of `mode`, as a JSON string, to `out`.
pub fn push_mode(out: &mut Vec<char>, mode: ObjectMode)
    ensures
        final(out)@ == old(out)@ + mode_text(mode),
{
    match mode {
        ObjectMode::Blob => push_str(out, "\"Blob\""),
        ObjectMode::Tree => push_str(out, "\"Tree\""),
        ObjectMode::Commit => push_str(out, "\"Commit\""),
    }
}

/// Appends the JSON array of one tree entry to `out`.
pub fn push_tree_entry(out: &mut Vec<char>, entry: &(String, ObjectMode, crate::object::Hash))
    ensures
        final(out)@ == old(out)@ + tree_entry_text(crate::object::tree_entry_view(*entry)),
{
    push_str(out, "[");
    push_json_string(out, entry.0.as_str());
    push_str(out, ",");
    push_mode(out, entry.1);
    push_str(out, ",");
    push_byte_list(out, &entry.2.0, false);
    push_str(out, "]");
    assert(out@ =~= old(out)@ + tree_entry_text(crate::object::tree_entry_view(*entry)));
}

/// The text of the object file for `object`.
pub fn encode_object(object: &Object) -> (text: String)
    ensures
        text@ == object_text(object@),
{
    let mut out: Vec<char> = Vec::new();
    match object {
        Object::Blob { hash, content } => {
            push_str(&mut out, "{\"Blob\":{\"hash\":");
            push_byte_list(&mut out, &hash.0.0, false);
            push_str(&mut out, ",\"content\":");
            push_json_string(&mut out, content.as_str());
            push_str(&mut out, "}}");
            assert(out@ =~= object_text(object@));
        },
        Object::Tree { hash, contents } => {
            push_str(&mut out, "{\"Tree\":{\"hash\":");
            push_byte_list(&mut out, &hash.0, false);
            push_str(&mut out, ",\"contents\":[");
            let ghost head = out@;
            let ghost all = crate::object::tree_entries_view(contents@);
            let mut i: usize = 0;
            while i < contents.len()
                invariant
                    i <= contents.len(),
                    all == crate::object::tree_entries_view(contents@),
                    out@ == head + tree_items(all.take(i as int)),
                decreases contents.len() - i,
            {
                if i > 0 {
                    push_str(&mut out, ",");
                }
                push_tree_entry(&mut out, &contents[i]);
                proof {
                    let next = all.take(i + 1);
                    assert(next.drop_last() =~= all.take(i as int));
                    assert(next.last() == crate::object::tree_entry_view(contents@[i as int]));
                    assert(out@ =~= head + tree_items(next));
                }
                i += 1;
            }
            assert(all.take(contents.len() as int) =~= all);
            push_str(&mut out, "]}}");
            assert(out@ =~= object_text(object@));
        },
        Object::Commit { hash, message, tree_hash, parent_commit } => {
            push_str(&mut out, "{\"Commit\":{\"hash\":");
            push_byte_list(&mut out, &hash.0, false);
            push_str(&mut out, ",\"message\":");
            push_json_string(&mut out, message.as_str());
            push_str(&mut out, ",\"tree_hash\":");
            push_byte_list(&mut out, &tree_hash.0, false);
            push_str(&mut out, ",\"parent_commit\":");
            match parent_commit {
                Some(parent) => push_byte_list(&mut out, &parent.0, false),
                None => push_str(&mut out, "null"),
            }
            push_str(&mut out, "}}");
            assert(out@ =~= object_text(object@));
        },
    }
    from_chars(&out)
}

} // verus!
