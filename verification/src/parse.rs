//! Reading the text of the index file back, and the proof that reading
//! undoes writing.

use vstd::prelude::*;
use crate::canon::canonical;
use crate::canon::canonical_text;
use crate::codec::encode_index;
use crate::codec::entry_items;
use crate::codec::entry_text;
use crate::codec::index_text;
use crate::codec::escape_char;
use crate::codec::escaped;
use crate::codec::hex_char;
use crate::codec::json_bytes;
use crate::codec::json_string;
use crate::index::Entry;
use crate::index::EntryModel;
use crate::index::Index;
use crate::index::entries_view;
use crate::object::byte_items;
use crate::object::BlobHash;
use crate::text::chars_eq;
use crate::text::from_chars;
use crate::text::decimal;
use crate::text::to_chars;

verus! {

/// Whether `piece` stands in `text` at `pos`.
pub open spec fn at(text: Seq<char>, pos: int, piece: Seq<char>) -> bool {
    &&& 0 <= pos
    &&& pos + piece.len() <= text.len()
    &&& text.subrange(pos, pos + piece.len()) == piece
}

/// A text made of two pieces stands at a position exactly when the first
/// stands there and the second right behind it.
pub proof fn lemma_at_concat(text: Seq<char>, pos: int, a: Seq<char>, b: Seq<char>)
    ensures
        at(text, pos, a + b) <==> at(text, pos, a) && at(text, pos + a.len(), b),
{
    if at(text, pos, a + b) {
        assert(text.subrange(pos, pos + a.len()) =~= (a + b).subrange(0, a.len() as int));
        assert((a + b).subrange(0, a.len() as int) =~= a);
        assert(text.subrange(pos + a.len(), pos + a.len() + b.len()) =~= (a + b).subrange(
            a.len() as int,
            (a + b).len() as int,
        ));
        assert((a + b).subrange(a.len() as int, (a + b).len() as int) =~= b);
    }
    if at(text, pos, a) && at(text, pos + a.len(), b) {
        assert(text.subrange(pos, pos + (a + b).len()) =~= text.subrange(pos, pos + a.len())
            + text.subrange(pos + a.len(), pos + a.len() + b.len()));
    }
}

/// Putting three texts together gives the same whichever two are put
/// together first.
pub proof fn lemma_concat_assoc(a: Seq<char>, b: Seq<char>, c: Seq<char>)
    ensures
        (a + b) + c == a + (b + c),
{
    assert((a + b) + c =~= a + (b + c));
}

/// A piece that stands at a position gives the characters there.
pub proof fn lemma_at_index(text: Seq<char>, pos: int, piece: Seq<char>, k: int)
    requires
        at(text, pos, piece),
        0 <= k < piece.len(),
    ensures
        text[pos + k] == piece[k],
{
    assert(text.subrange(pos, pos + piece.len())[k] == text[pos + k]);
}

/// The place behind `lit`, where `lit` stands in `text` at `pos`.
pub fn expect(text: &Vec<char>, pos: usize, lit: &str) -> (r: Option<usize>)
    ensures
        match r {
            Some(next) => at(text@, pos as int, lit@) && next == pos + lit@.len(),
            None => !at(text@, pos as int, lit@),
        },
{
    let want = to_chars(lit);
    if pos > text.len() || want.len() > text.len() - pos {
        return None;
    }
    let ghost here = text@.subrange(pos as int, pos + want.len());
    let mut k: usize = 0;
    while k < want.len()
        invariant
            k <= want.len(),
            want@ == lit@,
            pos + want.len() <= text.len(),
            here == text@.subrange(pos as int, pos + want.len()),
            forall|j: int| 0 <= j < k ==> here[j] == want@[j],
        decreases want.len() - k,
    {
        if text[pos + k] != want[k] {
            assert(here[k as int] != want@[k as int]);
            return None;
        }
        k += 1;
    }
    assert(here =~= want@);
    Some(pos + want.len())
}

/// The value of a decimal digit.
pub open spec fn digit_val(c: char) -> Option<nat> {
    if c == '0' {
        Some(0)
    } else if c == '1' {
        Some(1)
    } else if c == '2' {
        Some(2)
    } else if c == '3' {
        Some(3)
    } else if c == '4' {
        Some(4)
    } else if c == '5' {
        Some(5)
    } else if c == '6' {
        Some(6)
    } else if c == '7' {
        Some(7)
    } else if c == '8' {
        Some(8)
    } else if c == '9' {
        Some(9)
    } else {
        None
    }
}

/// The digit at `pos`, if one stands there.
pub open spec fn digit_at(text: Seq<char>, pos: int) -> Option<nat> {
    if 0 <= pos < text.len() {
        digit_val(text[pos])
    } else {
        None
    }
}

/// The byte whose numeral of up to three digits starts at `pos`, with the
/// place behind it.
pub open spec fn byte_at(text: Seq<char>, pos: int) -> Option<(u8, int)> {
    match digit_at(text, pos) {
        None => None,
        Some(a) => match digit_at(text, pos + 1) {
            None => Some((a as u8, pos + 1)),
            Some(b) => match digit_at(text, pos + 2) {
                None => Some(((10 * a + b) as u8, pos + 2)),
                Some(c) => if 100 * a + 10 * b + c <= 255 {
                    Some(((100 * a + 10 * b + c) as u8, pos + 3))
                } else {
                    None
                },
            },
        },
    }
}

/// Reading the numeral of a byte gives the byte, where no digit follows.
pub proof fn lemma_byte_at(text: Seq<char>, pos: int, b: u8)
    requires
        at(text, pos, decimal(b as nat)),
        digit_at(text, pos + decimal(b as nat).len()) is None,
    ensures
        byte_at(text, pos) == Some((b, pos + decimal(b as nat).len())),
{
    reveal_with_fuel(decimal, 3);
    let d = decimal(b as nat);
    let n = b as nat;
    if n < 10 {
        lemma_at_index(text, pos, d, 0);
    } else if n < 100 {
        lemma_at_index(text, pos, d, 0);
        lemma_at_index(text, pos, d, 1);
    } else {
        lemma_at_index(text, pos, d, 0);
        lemma_at_index(text, pos, d, 1);
        lemma_at_index(text, pos, d, 2);
    }
}

/// The value of the digit `c`, if it is one.
pub fn digit_value(c: char) -> (r: Option<u8>)
    ensures
        match r {
            Some(d) => digit_val(c) == Some(d as nat) && d < 10,
            None => digit_val(c) is None,
        },
{
    if c == '0' {
        Some(0)
    } else if c == '1' {
        Some(1)
    } else if c == '2' {
        Some(2)
    } else if c == '3' {
        Some(3)
    } else if c == '4' {
        Some(4)
    } else if c == '5' {
        Some(5)
    } else if c == '6' {
        Some(6)
    } else if c == '7' {
        Some(7)
    } else if c == '8' {
        Some(8)
    } else if c == '9' {
        Some(9)
    } else {
        None
    }
}

/// The digit at `pos`, if one stands there.
pub fn read_digit(text: &Vec<char>, pos: usize) -> (r: Option<u8>)
    ensures
        match r {
            Some(d) => digit_at(text@, pos as int) == Some(d as nat) && d < 10,
            None => digit_at(text@, pos as int) is None,
        },
{
    if pos < text.len() {
        digit_value(text[pos])
    } else {
        None
    }
}

/// The byte whose numeral starts at `pos`, with the place behind it.
pub fn read_byte(text: &Vec<char>, pos: usize) -> (r: Option<(u8, usize)>)
    ensures
        match r {
            Some((b, next)) => byte_at(text@, pos as int) == Some((b, next as int)) && pos < next
                <= text@.len(),
            None => byte_at(text@, pos as int) is None,
        },
{
    let a = match read_digit(text, pos) {
        Some(a) => a,
        None => {
            return None;
        },
    };
    let n: usize = text.len();
    assert(pos < n);
    let b = match read_digit(text, pos + 1) {
        Some(b) => b,
        None => {
            return Some((a, pos + 1));
        },
    };
    assert(pos + 1 < n);
    let c = match read_digit(text, pos + 2) {
        Some(c) => c,
        None => {
            return Some((10 * a + b, pos + 2));
        },
    };
    let value: u16 = 100 * (a as u16) + 10 * (b as u16) + (c as u16);
    if value <= 255 {
        Some((value as u8, pos + 3))
    } else {
        None
    }
}

/// The bytes of a list read from `pos` on, item by item, behind those of
/// `acc`, with the place behind the closing bracket.
pub open spec fn scan_bytes(text: Seq<char>, pos: int, acc: Seq<u8>) -> Option<(Seq<u8>, int)>
    decreases text.len() - pos,
{
    match byte_at(text, pos) {
        None => None,
        Some((b, next)) => if !(pos < next < text.len()) {
            None
        } else if text[next] == ',' {
            scan_bytes(text, next + 1, acc.push(b))
        } else if text[next] == ']' {
            Some((acc.push(b), next + 1))
        } else {
            None
        },
    }
}

/// The bytes of the bracketed list that starts at `pos`, with the place
/// behind it.
pub open spec fn bytes_at(text: Seq<char>, pos: int) -> Option<(Seq<u8>, int)> {
    if 0 <= pos && pos + 1 < text.len() && text[pos] == '[' {
        if text[pos + 1] == ']' {
            Some((Seq::empty(), pos + 2))
        } else {
            scan_bytes(text, pos + 1, Seq::empty())
        }
    } else {
        None
    }
}

/// The numerals of two or more bytes start with the numeral of the first.
pub proof fn lemma_byte_items_front(bytes: Seq<u8>, sep: Seq<char>)
    requires
        bytes.len() >= 2,
    ensures
        byte_items(bytes, sep) == decimal(bytes[0] as nat) + sep + byte_items(
            bytes.drop_first(),
            sep,
        ),
    decreases bytes.len(),
{
    let front = bytes.drop_last();
    let tail = bytes.drop_first();
    if bytes.len() == 2 {
        assert(byte_items(front, sep) == decimal(bytes[0] as nat));
        assert(byte_items(tail, sep) == decimal(bytes[1] as nat));
    } else {
        lemma_byte_items_front(front, sep);
        assert(front.drop_first() =~= tail.drop_last());
        assert(byte_items(bytes, sep) =~= decimal(bytes[0] as nat) + sep + byte_items(tail, sep));
    }
}

/// The numeral of a byte starts with a digit.
pub proof fn lemma_decimal_digits(b: u8)
    ensures
        decimal(b as nat).len() >= 1,
        digit_val(decimal(b as nat)[0]) is Some,
{
    reveal_with_fuel(decimal, 3);
}

/// Reading the items of a list of bytes gives the bytes.
#[verifier::rlimit(50)]
pub proof fn lemma_scan_bytes(text: Seq<char>, pos: int, acc: Seq<u8>, bytes: Seq<u8>)
    requires
        bytes.len() >= 1,
        at(text, pos, byte_items(bytes, seq![',']) + seq![']']),
    ensures
        scan_bytes(text, pos, acc) == Some(
            (acc + bytes, pos + byte_items(bytes, seq![',']).len() + 1),
        ),
    decreases bytes.len(),
{
    let sep = seq![','];
    let first = decimal(bytes[0] as nat);
    lemma_decimal_digits(bytes[0]);
    if bytes.len() == 1 {
        lemma_at_concat(text, pos, first, seq![']']);
        lemma_at_index(text, pos + first.len(), seq![']'], 0);
        lemma_byte_at(text, pos, bytes[0]);
        assert(acc.push(bytes[0]) =~= acc + bytes);
    } else {
        let tail = bytes.drop_first();
        lemma_byte_items_front(bytes, sep);
        let after = sep + (byte_items(tail, sep) + seq![']']);
        assert(byte_items(bytes, sep) + seq![']'] =~= first + after);
        lemma_at_concat(text, pos, first, after);
        lemma_at_concat(text, pos + first.len(), sep, byte_items(tail, sep) + seq![']']);
        lemma_at_index(text, pos + first.len(), sep, 0);
        lemma_byte_at(text, pos, bytes[0]);
        lemma_scan_bytes(text, pos + first.len() + 1, acc.push(bytes[0]), tail);
        assert(acc.push(bytes[0]) + tail =~= acc + bytes);
    }
}

/// Reading the list of the bytes of a hash gives the bytes.
pub proof fn lemma_bytes_at(text: Seq<char>, pos: int, bytes: Seq<u8>)
    requires
        at(text, pos, json_bytes(bytes)),
    ensures
        bytes_at(text, pos) == Some((bytes, pos + json_bytes(bytes).len())),
{
    let sep = seq![','];
    let inner = byte_items(bytes, sep) + seq![']'];
    assert(json_bytes(bytes) =~= seq!['['] + inner);
    lemma_at_concat(text, pos, seq!['['], inner);
    lemma_at_index(text, pos, seq!['['], 0);
    if bytes.len() == 0 {
        assert(inner =~= seq![']']);
        lemma_at_index(text, pos + 1, inner, 0);
        assert(bytes =~= Seq::<u8>::empty());
    } else {
        lemma_decimal_digits(bytes[0]);
        if bytes.len() >= 2 {
            lemma_byte_items_front(bytes, sep);
        }
        assert(inner[0] == decimal(bytes[0] as nat)[0]);
        lemma_at_index(text, pos + 1, inner, 0);
        lemma_scan_bytes(text, pos + 1, Seq::empty(), bytes);
        assert(Seq::<u8>::empty() + bytes =~= bytes);
    }
}

/// The bytes of the bracketed list that starts at `pos`, with the place
/// behind it.
pub fn read_bytes(text: &Vec<char>, pos: usize) -> (r: Option<(Vec<u8>, usize)>)
    ensures
        match r {
            Some((bytes, next)) => bytes_at(text@, pos as int) == Some((bytes@, next as int))
                && pos < next <= text@.len(),
            None => bytes_at(text@, pos as int) is None,
        },
{
    let n: usize = text.len();
    if pos >= n || n - pos < 2 || text[pos] != '[' {
        return None;
    }
    let mut acc: Vec<u8> = Vec::new();
    if text[pos + 1] == ']' {
        return Some((acc, pos + 2));
    }
    let mut i: usize = pos + 1;
    loop
        invariant
            n == text@.len(),
            pos < i <= n,
            scan_bytes(text@, i as int, acc@) == bytes_at(text@, pos as int),
        decreases n - i,
    {
        let (b, next) = match read_byte(text, i) {
            Some(found) => found,
            None => {
                return None;
            },
        };
        if next >= n {
            return None;
        }
        if text[next] == ',' {
            acc.push(b);
            i = next + 1;
        } else if text[next] == ']' {
            acc.push(b);
            return Some((acc, next + 1));
        } else {
            return None;
        }
    }
}

/// The character that an escape letter stands for.
pub open spec fn unescape(c: char) -> Option<char> {
    if c == '"' {
        Some('"')
    } else if c == '\\' {
        Some('\\')
    } else if c == 'b' {
        Some('\u{08}')
    } else if c == 'f' {
        Some('\u{0c}')
    } else if c == 'n' {
        Some('\n')
    } else if c == 'r' {
        Some('\r')
    } else if c == 't' {
        Some('\t')
    } else {
        None
    }
}

/// The value of a hexadecimal digit in lower case.
pub open spec fn hex_val(c: char) -> Option<nat> {
    if c == 'a' {
        Some(10)
    } else if c == 'b' {
        Some(11)
    } else if c == 'c' {
        Some(12)
    } else if c == 'd' {
        Some(13)
    } else if c == 'e' {
        Some(14)
    } else if c == 'f' {
        Some(15)
    } else {
        digit_val(c)
    }
}

/// The control character with the code `16 * high + low`.
pub open spec fn control_char(high: nat, low: nat) -> char {
    ((16 * high + low) as u8) as char
}

/// The characters of a JSON string read from `pos` on, behind those of
/// `acc`, with the place behind the closing quote.
pub open spec fn scan_string(text: Seq<char>, pos: int, acc: Seq<char>) -> Option<
    (Seq<char>, int),
>
    decreases text.len() - pos,
{
    if !(0 <= pos < text.len()) {
        None
    } else if text[pos] == '"' {
        Some((acc, pos + 1))
    } else if text[pos] == '\\' {
        if pos + 1 >= text.len() {
            None
        } else if text[pos + 1] == 'u' {
            if pos + 5 < text.len() && text[pos + 2] == '0' && text[pos + 3] == '0' {
                match (hex_val(text[pos + 4]), hex_val(text[pos + 5])) {
                    (Some(high), Some(low)) => if 16 * high + low < 0x20 {
                        scan_string(text, pos + 6, acc.push(control_char(high, low)))
                    } else {
                        None
                    },
                    _ => None,
                }
            } else {
                None
            }
        } else {
            match unescape(text[pos + 1]) {
                Some(c) => scan_string(text, pos + 2, acc.push(c)),
                None => None,
            }
        }
    } else {
        scan_string(text, pos + 1, acc.push(text[pos]))
    }
}

/// The characters of the JSON string that starts at `pos`, with the place
/// behind it.
pub open spec fn string_at(text: Seq<char>, pos: int) -> Option<(Seq<char>, int)> {
    if 0 <= pos < text.len() && text[pos] == '"' {
        scan_string(text, pos + 1, Seq::empty())
    } else {
        None
    }
}

/// Reading a character as it stands inside a JSON string gives the character.
pub proof fn lemma_scan_char(text: Seq<char>, pos: int, acc: Seq<char>, c: char)
    requires
        at(text, pos, escape_char(c)),
    ensures
        scan_string(text, pos, acc) == scan_string(
            text,
            pos + escape_char(c).len(),
            acc.push(c),
        ),
{
    let e = escape_char(c);
    lemma_at_index(text, pos, e, 0);
    if e.len() >= 2 {
        lemma_at_index(text, pos, e, 1);
    }
    if e.len() == 6 {
        lemma_at_index(text, pos, e, 2);
        lemma_at_index(text, pos, e, 3);
        lemma_at_index(text, pos, e, 4);
        lemma_at_index(text, pos, e, 5);
        let code = c as u32;
        let high = (code / 16) as nat;
        let low = (code % 16) as nat;
        assert(hex_val(hex_char(high)) == Some(high));
        assert(hex_val(hex_char(low)) == Some(low));
        assert(16 * high + low == code);
        assert(control_char(high, low) == c);
    }
}

/// The characters of a text as they stand inside a JSON string start with
/// the first of them.
pub proof fn lemma_escaped_front(s: Seq<char>)
    requires
        s.len() >= 1,
    ensures
        escaped(s) == escape_char(s[0]) + escaped(s.drop_first()),
    decreases s.len(),
{
    let front = s.drop_last();
    let tail = s.drop_first();
    if s.len() == 1 {
        assert(escaped(front) =~= Seq::<char>::empty());
        assert(escaped(tail) =~= Seq::<char>::empty());
        assert(escaped(s) =~= escape_char(s[0]) + escaped(tail));
    } else {
        lemma_escaped_front(front);
        assert(front.drop_first() =~= tail.drop_last());
        assert(escaped(s) =~= escape_char(s[0]) + escaped(tail));
    }
}

/// Reading the inside of a JSON string gives the characters it was written
/// from.
#[verifier::rlimit(50)]
pub proof fn lemma_scan_string(text: Seq<char>, pos: int, acc: Seq<char>, s: Seq<char>)
    requires
        at(text, pos, escaped(s) + seq!['"']),
    ensures
        scan_string(text, pos, acc) == Some((acc + s, pos + escaped(s).len() + 1)),
    decreases s.len(),
{
    if s.len() == 0 {
        assert(escaped(s) + seq!['"'] =~= seq!['"']);
        lemma_at_index(text, pos, seq!['"'], 0);
        assert(acc + s =~= acc);
    } else {
        let tail = s.drop_first();
        let first = escape_char(s[0]);
        lemma_escaped_front(s);
        assert(escaped(s) + seq!['"'] =~= first + (escaped(tail) + seq!['"']));
        lemma_at_concat(text, pos, first, escaped(tail) + seq!['"']);
        lemma_scan_char(text, pos, acc, s[0]);
        lemma_scan_string(text, pos + first.len(), acc.push(s[0]), tail);
        assert(acc.push(s[0]) + tail =~= acc + s);
    }
}

/// Reading a JSON string gives the text it was written from.
pub proof fn lemma_string_at(text: Seq<char>, pos: int, s: Seq<char>)
    requires
        at(text, pos, json_string(s)),
    ensures
        string_at(text, pos) == Some((s, pos + json_string(s).len())),
{
    let inner = escaped(s) + seq!['"'];
    assert(json_string(s) =~= seq!['"'] + inner);
    lemma_at_concat(text, pos, seq!['"'], inner);
    lemma_at_index(text, pos, seq!['"'], 0);
    lemma_scan_string(text, pos + 1, Seq::empty(), s);
    assert(Seq::<char>::empty() + s =~= s);
}

/// The character that the escape letter `c` stands for.
pub fn unescaped(c: char) -> (r: Option<char>)
    ensures
        r == unescape(c),
{
    if c == '"' {
        Some('"')
    } else if c == '\\' {
        Some('\\')
    } else if c == 'b' {
        Some('\u{08}')
    } else if c == 'f' {
        Some('\u{0c}')
    } else if c == 'n' {
        Some('\n')
    } else if c == 'r' {
        Some('\r')
    } else if c == 't' {
        Some('\t')
    } else {
        None
    }
}

/// The value of the hexadecimal digit `c`, if it is one in lower case.
pub fn hex_value(c: char) -> (r: Option<u8>)
    ensures
        match r {
            Some(d) => hex_val(c) == Some(d as nat) && d < 16,
            None => hex_val(c) is None,
        },
{
    if c == 'a' {
        Some(10)
    } else if c == 'b' {
        Some(11)
    } else if c == 'c' {
        Some(12)
    } else if c == 'd' {
        Some(13)
    } else if c == 'e' {
        Some(14)
    } else if c == 'f' {
        Some(15)
    } else {
        digit_value(c)
    }
}

/// The characters of the JSON string that starts at `pos`, with the place
/// behind it.
#[verifier::rlimit(50)]
pub fn read_string(text: &Vec<char>, pos: usize) -> (r: Option<(String, usize)>)
    ensures
        match r {
            Some((s, next)) => string_at(text@, pos as int) == Some((s@, next as int)) && pos
                < next <= text@.len(),
            None => string_at(text@, pos as int) is None,
        },
{
    let n: usize = text.len();
    if pos >= n || text[pos] != '"' {
        return None;
    }
    let mut acc: Vec<char> = Vec::new();
    let mut i: usize = pos + 1;
    loop
        invariant
            n == text@.len(),
            pos < i <= n,
            scan_string(text@, i as int, acc@) == string_at(text@, pos as int),
        decreases n - i,
    {
        if i >= n {
            return None;
        }
        let c = text[i];
        if c == '"' {
            return Some((from_chars(&acc), i + 1));
        } else if c == '\\' {
            if n - i < 2 {
                return None;
            }
            let d = text[i + 1];
            if d == 'u' {
                if n - i < 6 || text[i + 2] != '0' || text[i + 3] != '0' {
                    return None;
                }
                let high = match hex_value(text[i + 4]) {
                    Some(high) => high,
                    None => {
                        return None;
                    },
                };
                let low = match hex_value(text[i + 5]) {
                    Some(low) => low,
                    None => {
                        return None;
                    },
                };
                let code: u8 = 16 * high + low;
                if code >= 0x20 {
                    return None;
                }
                acc.push(code as char);
                i = i + 6;
            } else {
                match unescaped(d) {
                    Some(plain) => {
                        acc.push(plain);
                        i = i + 2;
                    },
                    None => {
                        return None;
                    },
                }
            }
        } else {
            acc.push(c);
            i = i + 1;
        }
    }
}

/// The entry whose JSON object starts at `pos`, with the place behind it.
pub open spec fn entry_at(text: Seq<char>, pos: int) -> Option<(EntryModel, int)> {
    let name_key = "{\"file_name\":"@;
    let hash_key = ",\"blob_hash\":"@;
    if at(text, pos, name_key) {
        match string_at(text, pos + name_key.len()) {
            Some((file_name, behind_name)) => if at(text, behind_name, hash_key) {
                match bytes_at(text, behind_name + hash_key.len()) {
                    Some((blob_hash, behind_hash)) => if at(text, behind_hash, "}"@) {
                        Some((EntryModel { file_name, blob_hash }, behind_hash + "}"@.len()))
                    } else {
                        None
                    },
                    None => None,
                }
            } else {
                None
            },
            None => None,
        }
    } else {
        None
    }
}

/// Reading the JSON object of an entry gives the entry.
#[verifier::rlimit(50)]
pub proof fn lemma_entry_at(text: Seq<char>, pos: int, e: EntryModel)
    requires
        at(text, pos, entry_text(e)),
    ensures
        entry_at(text, pos) == Some((e, pos + entry_text(e).len())),
{
    let name_key = "{\"file_name\":"@;
    let hash_key = ",\"blob_hash\":"@;
    let name = json_string(e.file_name);
    let hash = json_bytes(e.blob_hash);
    let close = "}"@;
    assert(entry_text(e) =~= name_key + (name + (hash_key + (hash + close))));
    lemma_at_concat(text, pos, name_key, name + (hash_key + (hash + close)));
    let p1 = pos + name_key.len();
    lemma_at_concat(text, p1, name, hash_key + (hash + close));
    lemma_string_at(text, p1, e.file_name);
    let p2 = p1 + name.len();
    lemma_at_concat(text, p2, hash_key, hash + close);
    let p3 = p2 + hash_key.len();
    lemma_at_concat(text, p3, hash, close);
    lemma_bytes_at(text, p3, e.blob_hash);
}

/// The entry whose JSON object starts at `pos`, with the place behind it.
pub fn read_entry(text: &Vec<char>, pos: usize) -> (r: Option<(Entry, usize)>)
    ensures
        match r {
            Some((e, next)) => entry_at(text@, pos as int) == Some((e@, next as int)) && pos
                < next <= text@.len(),
            None => entry_at(text@, pos as int) is None,
        },
{
    let p1 = match expect(text, pos, "{\"file_name\":") {
        Some(p) => p,
        None => {
            return None;
        },
    };
    let (file_name, p2) = match read_string(text, p1) {
        Some(found) => found,
        None => {
            return None;
        },
    };
    let p3 = match expect(text, p2, ",\"blob_hash\":") {
        Some(p) => p,
        None => {
            return None;
        },
    };
    let (bytes, p4) = match read_bytes(text, p3) {
        Some(found) => found,
        None => {
            return None;
        },
    };
    let p5 = match expect(text, p4, "}") {
        Some(p) => p,
        None => {
            return None;
        },
    };
    Some((Entry { file_name, blob_hash: BlobHash(crate::object::Hash(bytes)) }, p5))
}

/// The entries read from `pos` on, one by one, behind those of `acc`, with
/// the place behind the end of the text of the index.
pub open spec fn scan_entries(text: Seq<char>, pos: int, acc: Seq<EntryModel>) -> Option<
    (Seq<EntryModel>, int),
>
    decreases text.len() - pos,
{
    match entry_at(text, pos) {
        None => None,
        Some((e, next)) => if !(pos < next) {
            None
        } else if at(text, next, ","@) {
            scan_entries(text, next + ","@.len(), acc.push(e))
        } else if at(text, next, "]}"@) {
            Some((acc.push(e), next + "]}"@.len()))
        } else {
            None
        },
    }
}

/// The entries that a text of the index holds.
pub open spec fn index_at(text: Seq<char>) -> Option<Seq<EntryModel>> {
    let open = "{\"entries\":["@;
    if at(text, 0, open) {
        if at(text, open.len() as int, "]}"@) {
            if open.len() + "]}"@.len() == text.len() {
                Some(Seq::empty())
            } else {
                None
            }
        } else {
            match scan_entries(text, open.len() as int, Seq::empty()) {
                Some((entries, end)) => if end == text.len() {
                    Some(entries)
                } else {
                    None
                },
                None => None,
            }
        }
    } else {
        None
    }
}

/// The JSON objects of two or more entries start with that of the first.
pub proof fn lemma_entry_items_front(entries: Seq<EntryModel>)
    requires
        entries.len() >= 2,
    ensures
        entry_items(entries) == entry_text(entries[0]) + ","@ + entry_items(entries.drop_first()),
    decreases entries.len(),
{
    let front = entries.drop_last();
    let tail = entries.drop_first();
    if entries.len() == 2 {
        assert(entry_items(front) == entry_text(entries[0]));
        assert(entry_items(tail) == entry_text(entries[1]));
    } else {
        lemma_entry_items_front(front);
        assert(front.drop_first() =~= tail.drop_last());
        assert(entry_items(entries) =~= entry_text(entries[0]) + ","@ + entry_items(tail));
    }
}

/// The JSON object of an entry is not empty and starts with a brace.
pub proof fn lemma_entry_text_start(e: EntryModel)
    ensures
        entry_text(e).len() >= 1,
        entry_text(e)[0] == '{',
{
    reveal_strlit("{\"file_name\":");
}

/// Reading the JSON objects of a list of entries gives the entries.
#[verifier::rlimit(50)]
pub proof fn lemma_scan_entries(
    text: Seq<char>,
    pos: int,
    acc: Seq<EntryModel>,
    entries: Seq<EntryModel>,
)
    requires
        entries.len() >= 1,
        at(text, pos, entry_items(entries) + "]}"@),
    ensures
        scan_entries(text, pos, acc) == Some(
            (acc + entries, pos + entry_items(entries).len() + "]}"@.len()),
        ),
    decreases entries.len(),
{
    reveal_strlit(",");
    reveal_strlit("]}");
    let first = entry_text(entries[0]);
    lemma_entry_text_start(entries[0]);
    if entries.len() == 1 {
        lemma_at_concat(text, pos, first, "]}"@);
        lemma_entry_at(text, pos, entries[0]);
        let next = pos + first.len();
        lemma_at_index(text, next, "]}"@, 0);
        if at(text, next, ","@) {
            lemma_at_index(text, next, ","@, 0);
        }
        assert(acc.push(entries[0]) =~= acc + entries);
    } else {
        let tail = entries.drop_first();
        lemma_entry_items_front(entries);
        let after = ","@ + (entry_items(tail) + "]}"@);
        assert(entry_items(entries) + "]}"@ =~= first + after);
        lemma_at_concat(text, pos, first, after);
        lemma_entry_at(text, pos, entries[0]);
        let next = pos + first.len();
        lemma_at_concat(text, next, ","@, entry_items(tail) + "]}"@);
        lemma_scan_entries(text, next + ","@.len(), acc.push(entries[0]), tail);
        assert(acc.push(entries[0]) + tail =~= acc + entries);
    }
}

/// Reading the text of an index gives its entries, in order.
#[verifier::rlimit(50)]
pub proof fn lemma_index_at(entries: Seq<EntryModel>)
    ensures
        index_at(index_text(entries)) == Some(entries),
{
    reveal_strlit("]}");
    let open = "{\"entries\":["@;
    let text = index_text(entries);
    let rest = entry_items(entries) + "]}"@;
    assert(text =~= open + rest);
    assert(text.subrange(0, text.len() as int) =~= text);
    lemma_at_concat(text, 0, open, rest);
    let p = open.len() as int;
    if entries.len() == 0 {
        assert(rest =~= "]}"@);
        assert(entries =~= Seq::<EntryModel>::empty());
    } else {
        lemma_entry_text_start(entries[0]);
        if entries.len() >= 2 {
            lemma_entry_items_front(entries);
        }
        assert(rest[0] == '{');
        lemma_at_index(text, p, rest, 0);
        if at(text, p, "]}"@) {
            lemma_at_index(text, p, "]}"@, 0);
        }
        lemma_scan_entries(text, p, Seq::empty(), entries);
        assert(Seq::<EntryModel>::empty() + entries =~= entries);
    }
}

/// Two indexes with the same text hold the same entries in the same order.
pub proof fn lemma_index_text_injective(a: Seq<EntryModel>, b: Seq<EntryModel>)
    requires
        index_text(a) == index_text(b),
    ensures
        a == b,
{
    lemma_index_at(a);
    lemma_index_at(b);
}

/// The entries that `text` holds, read from left to right.
#[verifier::rlimit(50)]
pub fn read_index(text: &Vec<char>) -> (r: Option<Index>)
    ensures
        match r {
            Some(index) => index_at(text@) == Some(index@),
            None => index_at(text@) is None,
        },
{
    let n: usize = text.len();
    let start = match expect(text, 0, "{\"entries\":[") {
        Some(p) => p,
        None => {
            return None;
        },
    };
    match expect(text, start, "]}") {
        Some(end) => {
            if end == n {
                return Some(Index::new());
            } else {
                return None;
            }
        },
        None => {},
    }
    let mut entries: Vec<Entry> = Vec::new();
    let mut i: usize = start;
    assert(entries_view(entries@) =~= Seq::<EntryModel>::empty());
    loop
        invariant
            n == text@.len(),
            i <= n,
            index_at(text@) == match scan_entries(text@, i as int, entries_view(entries@)) {
                Some((found, end)) => if end == n {
                    Some(found)
                } else {
                    None
                },
                None => None,
            },
        decreases n - i,
    {
        let ghost read = entries_view(entries@);
        let (e, next) = match read_entry(text, i) {
            Some(found) => found,
            None => {
                return None;
            },
        };
        match expect(text, next, ",") {
            Some(behind) => {
                entries.push(e);
                assert(entries_view(entries@) =~= read.push(e@));
                i = behind;
            },
            None => {
                match expect(text, next, "]}") {
                    Some(end) => {
                        if end == n {
                            entries.push(e);
                            assert(entries_view(entries@) =~= read.push(e@));
                            return Some(Index { entries });
                        } else {
                            return None;
                        }
                    },
                    None => {
                        return None;
                    },
                }
            },
        }
    }
}

/// The entries of the index that `text` is the text of, letter for letter,
/// if it is the text of one.
pub open spec fn decoded_exact(text: Seq<char>) -> Option<Seq<EntryModel>> {
    match index_at(text) {
        Some(entries) => if index_text(entries) == text {
            Some(entries)
        } else {
            None
        },
        None => None,
    }
}

/// The entries of the index that `text` is JSON for. A text in canonical
/// spelling is read as it stands; any other is first brought into canonical
/// spelling, which leaves out white space between tokens and spells every
/// escape in a string anew.
pub open spec fn decoded(text: Seq<char>) -> Option<Seq<EntryModel>> {
    match decoded_exact(text) {
        Some(entries) => Some(entries),
        None => match canonical_text(text) {
            Some(spelled) => decoded_exact(spelled),
            None => None,
        },
    }
}

/// Reading undoes writing: the text of an index is read back as the same
/// entries in the same order.
pub proof fn lemma_decode_encode(entries: Seq<EntryModel>)
    ensures
        decoded(index_text(entries)) == Some(entries),
{
    lemma_index_at(entries);
}

/// A text is read letter for letter as an index exactly when it is the text
/// of that index.
pub proof fn lemma_decoded_iff(text: Seq<char>, entries: Seq<EntryModel>)
    ensures
        decoded_exact(text) == Some(entries) <==> text == index_text(entries),
{
    lemma_index_at(entries);
}

/// A text is read as an index exactly when it, or its canonical spelling,
/// is the text of that index.
pub proof fn lemma_decoded_spelling(text: Seq<char>, entries: Seq<EntryModel>)
    ensures
        decoded(text) == Some(entries) <==> text == index_text(entries) || (decoded_exact(text)
            is None && canonical_text(text) == Some(index_text(entries))),
{
    lemma_index_at(entries);
    if decoded_exact(text) is None && canonical_text(text) is Some {
        lemma_decoded_iff(canonical_text(text)->0, entries);
    }
}

/// The plain value of an optional index.
pub open spec fn option_index_view(r: Option<Index>) -> Option<Seq<EntryModel>> {
    match r {
        Some(index) => Some(index@),
        None => None,
    }
}

/// The index that `text` is the text of, letter for letter.
pub fn decode_chars(chars: &Vec<char>) -> (r: Option<Index>)
    ensures
        option_index_view(r) == decoded_exact(chars@),
        match r {
            Some(index) => chars@ == index_text(index@),
            None => forall|entries: Seq<EntryModel>| chars@ != index_text(entries),
        },
{
    let found = read_index(chars);
    proof {
        assert forall|entries: Seq<EntryModel>| chars@ == index_text(entries) implies index_at(
            chars@,
        ) == Some(entries) by {
            lemma_index_at(entries);
        }
    }
    match found {
        Some(index) => {
            let again = to_chars(encode_index(&index).as_str());
            if chars_eq(&again, chars) {
                Some(index)
            } else {
                None
            }
        },
        None => None,
    }
}

/// The index that `text` is JSON for: white space between tokens and the
/// spelling of escapes do not matter. A text that is JSON for no index is
/// refused.
pub fn decode_index(text: &str) -> (r: Option<Index>)
    ensures
        option_index_view(r) == decoded(text@),
{
    let chars = to_chars(text);
    match decode_chars(&chars) {
        Some(index) => Some(index),
        None => match canonical(&chars) {
            Some(spelled) => decode_chars(&spelled),
            None => None,
        },
    }
}

} // verus!
