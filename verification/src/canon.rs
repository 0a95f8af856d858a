//! The canonical spelling of a JSON text: no white space between tokens,
//! and every character of a string spelled in one way.

use vstd::prelude::*;
use crate::codec::escape_char;
use crate::codec::push_escaped_char;
use crate::parse::hex_val;
use crate::parse::hex_value;
use crate::parse::unescape;
use crate::parse::unescaped;

verus! {

/// `char::from_u32` gives the character with the code `i`, where `i` is a
/// Unicode scalar value: below the surrogates, or above them and at most
/// `0x10FFFF`; it gives nothing for any other number.
pub assume_specification[ char::from_u32 ](i: u32) -> (r: Option<char>)
    ensures
        r is Some <==> (i < 0xD800 || (0xE000 <= i && i <= 0x10FFFF)),
        r is Some ==> r->0 as int == i as int,
;

/// White space that JSON allows between tokens.
pub open spec fn is_space(c: char) -> bool {
    c == ' ' || c == '\n' || c == '\r' || c == '\t'
}

/// The characters that stand alone as tokens, and the quote.
pub open spec fn is_mark(c: char) -> bool {
    c == '{' || c == '}' || c == '[' || c == ']' || c == ':' || c == ',' || c == '"'
}

/// A character of a number or of a word such as `null`.
pub open spec fn is_word(c: char) -> bool {
    !is_space(c) && !is_mark(c)
}

/// The value of a hexadecimal digit, in either case.
pub open spec fn hex_any(c: char) -> Option<nat> {
    if c == 'A' {
        Some(10)
    } else if c == 'B' {
        Some(11)
    } else if c == 'C' {
        Some(12)
    } else if c == 'D' {
        Some(13)
    } else if c == 'E' {
        Some(14)
    } else if c == 'F' {
        Some(15)
    } else {
        hex_val(c)
    }
}

/// The number that the four hexadecimal digits from `pos` on spell.
pub open spec fn hex4_at(text: Seq<char>, pos: int) -> Option<nat> {
    if 0 <= pos && pos + 3 < text.len() {
        match (
            hex_any(text[pos]),
            hex_any(text[pos + 1]),
            hex_any(text[pos + 2]),
            hex_any(text[pos + 3]),
        ) {
            (Some(a), Some(b), Some(c), Some(d)) => Some(4096 * a + 256 * b + 16 * c + d),
            _ => None,
        }
    } else {
        None
    }
}

/// The code of a character.
pub open spec fn code_of(c: char) -> nat {
    c as nat
}

/// The character with the code `code`.
pub open spec fn char_of(code: nat) -> char {
    choose|c: char| #[trigger] code_of(c) == code
}

/// The character that an escape letter stands for; the slash may be escaped.
pub open spec fn unescape_any(c: char) -> Option<char> {
    if c == '/' {
        Some('/')
    } else {
        unescape(c)
    }
}

/// The character that the escape at `pos` stands for, with the place behind
/// the escape. A code above the basic plane is spelled as two surrogates.
pub open spec fn escape_at(text: Seq<char>, pos: int) -> Option<(char, int)> {
    if !(0 <= pos && pos + 1 < text.len()) {
        None
    } else if text[pos + 1] == 'u' {
        match hex4_at(text, pos + 2) {
            None => None,
            Some(code) => if code < 0xD800 || code >= 0xE000 {
                Some((char_of(code), pos + 6))
            } else if code >= 0xDC00 {
                None
            } else if pos + 7 < text.len() && text[pos + 6] == '\\' && text[pos + 7] == 'u' {
                match hex4_at(text, pos + 8) {
                    Some(low) => if 0xDC00 <= low < 0xE000 {
                        Some(
                            (
                                char_of(
                                    (0x10000 + (code - 0xD800) * 0x400 + (low - 0xDC00)) as nat,
                                ),
                                pos + 12,
                            ),
                        )
                    } else {
                        None
                    },
                    None => None,
                }
            } else {
                None
            },
        }
    } else {
        match unescape_any(text[pos + 1]) {
            Some(c) => Some((c, pos + 2)),
            None => None,
        }
    }
}

/// The canonical spelling of `text` from `pos` on, behind `acc`. Outside a
/// string white space is left out, but not between two characters of one
/// number or word; inside a string every escape is spelled anew, and a
/// control character that is not escaped is refused. `in_string` says
/// whether `pos` lies inside a string, `gap` whether white space was left
/// out since the last character of `acc`.
pub open spec fn canon_from(text: Seq<char>, pos: int, in_string: bool, gap: bool, acc: Seq<char>) -> Option<
    Seq<char>,
>
    decreases text.len() - pos,
{
    if !(0 <= pos < text.len()) {
        if in_string {
            None
        } else {
            Some(acc)
        }
    } else if in_string {
        if text[pos] == '"' {
            canon_from(text, pos + 1, false, false, acc.push('"'))
        } else if text[pos] == '\\' {
            match escape_at(text, pos) {
                Some((c, next)) => if pos < next {
                    canon_from(text, next, true, false, acc + escape_char(c))
                } else {
                    None
                },
                None => None,
            }
        } else if (text[pos] as u32) < 0x20 {
            None
        } else {
            canon_from(text, pos + 1, true, false, acc.push(text[pos]))
        }
    } else if is_space(text[pos]) {
        canon_from(text, pos + 1, false, true, acc)
    } else if text[pos] == '"' {
        canon_from(text, pos + 1, true, false, acc.push('"'))
    } else if is_mark(text[pos]) {
        canon_from(text, pos + 1, false, false, acc.push(text[pos]))
    } else if gap && acc.len() > 0 && is_word(acc.last()) {
        None
    } else {
        canon_from(text, pos + 1, false, false, acc.push(text[pos]))
    }
}

/// The canonical spelling of a JSON text, if it has one.
pub open spec fn canonical_text(text: Seq<char>) -> Option<Seq<char>> {
    canon_from(text, 0, false, false, Seq::empty())
}

/// The plain value of an optional text.
pub open spec fn option_chars_view(r: Option<Vec<char>>) -> Option<Seq<char>> {
    match r {
        Some(v) => Some(v@),
        None => None,
    }
}

/// The value of the hexadecimal digit `c`, in either case.
pub fn hex_any_value(c: char) -> (r: Option<u32>)
    ensures
        match r {
            Some(d) => hex_any(c) == Some(d as nat) && d < 16,
            None => hex_any(c) is None,
        },
{
    if c == 'A' {
        Some(10)
    } else if c == 'B' {
        Some(11)
    } else if c == 'C' {
        Some(12)
    } else if c == 'D' {
        Some(13)
    } else if c == 'E' {
        Some(14)
    } else if c == 'F' {
        Some(15)
    } else {
        match hex_value(c) {
            Some(d) => Some(d as u32),
            None => None,
        }
    }
}

/// The number that the four hexadecimal digits from `pos` on spell.
pub fn read_hex4(text: &Vec<char>, pos: usize) -> (r: Option<u32>)
    ensures
        match r {
            Some(v) => hex4_at(text@, pos as int) == Some(v as nat) && v < 0x10000,
            None => hex4_at(text@, pos as int) is None,
        },
{
    let n: usize = text.len();
    if pos >= n || n - pos < 4 {
        return None;
    }
    let a = match hex_any_value(text[pos]) {
        Some(v) => v,
        None => {
            return None;
        },
    };
    let b = match hex_any_value(text[pos + 1]) {
        Some(v) => v,
        None => {
            return None;
        },
    };
    let c = match hex_any_value(text[pos + 2]) {
        Some(v) => v,
        None => {
            return None;
        },
    };
    let d = match hex_any_value(text[pos + 3]) {
        Some(v) => v,
        None => {
            return None;
        },
    };
    Some(4096 * a + 256 * b + 16 * c + d)
}

/// The character with the code `code`, a Unicode scalar value.
pub fn scalar(code: u32) -> (c: char)
    requires
        code < 0xD800 || (0xE000 <= code && code <= 0x10FFFF),
    ensures
        c == char_of(code as nat),
{
    let found = char::from_u32(code);
    let c = match found {
        Some(c) => c,
        None => ' ',
    };
    assert(code_of(c) == code as nat);
    assert(code_of(char_of(code as nat)) == code as nat);
    c
}

/// The character that the escape at `pos` stands for, with the place behind
/// the escape.
pub fn read_escape(text: &Vec<char>, pos: usize) -> (r: Option<(char, usize)>)
    ensures
        match r {
            Some((c, next)) => escape_at(text@, pos as int) == Some((c, next as int)) && pos < next
                <= text@.len(),
            None => escape_at(text@, pos as int) is None,
        },
{
    let n: usize = text.len();
    if pos >= n || n - pos < 2 {
        return None;
    }
    if text[pos + 1] == 'u' {
        if n - pos < 6 {
            return None;
        }
        let code = match read_hex4(text, pos + 2) {
            Some(code) => code,
            None => {
                return None;
            },
        };
        if code < 0xD800 || code >= 0xE000 {
            return Some((scalar(code), pos + 6));
        }
        if code >= 0xDC00 {
            return None;
        }
        if n - pos < 12 || text[pos + 6] != '\\' || text[pos + 7] != 'u' {
            return None;
        }
        let low = match read_hex4(text, pos + 8) {
            Some(low) => low,
            None => {
                return None;
            },
        };
        if low < 0xDC00 || low >= 0xE000 {
            return None;
        }
        let point: u32 = 0x10000 + (code - 0xD800) * 0x400 + (low - 0xDC00);
        Some((scalar(point), pos + 12))
    } else if text[pos + 1] == '/' {
        Some(('/', pos + 2))
    } else {
        match unescaped(text[pos + 1]) {
            Some(c) => Some((c, pos + 2)),
            None => None,
        }
    }
}

/// Whether `c` is white space that JSON allows between tokens.
pub fn space(c: char) -> (r: bool)
    ensures
        r == is_space(c),
{
    c == ' ' || c == '\n' || c == '\r' || c == '\t'
}

/// Whether `c` stands alone as a token, or is the quote.
pub fn mark(c: char) -> (r: bool)
    ensures
        r == is_mark(c),
{
    c == '{' || c == '}' || c == '[' || c == ']' || c == ':' || c == ',' || c == '"'
}

/// The canonical spelling of `text`, if it has one.
pub fn canonical(text: &Vec<char>) -> (r: Option<Vec<char>>)
    ensures
        option_chars_view(r) == canonical_text(text@),
{
    let n: usize = text.len();
    let mut out: Vec<char> = Vec::new();
    let mut in_string = false;
    let mut gap = false;
    let mut i: usize = 0;
    while i < n
        invariant
            n == text@.len(),
            i <= n,
            canon_from(text@, i as int, in_string, gap, out@) == canonical_text(text@),
        decreases n - i,
    {
        let c = text[i];
        if in_string {
            if c == '"' {
                out.push('"');
                in_string = false;
                gap = false;
                i += 1;
            } else if c == '\\' {
                match read_escape(text, i) {
                    Some((plain, next)) => {
                        push_escaped_char(&mut out, plain);
                        gap = false;
                        i = next;
                    },
                    None => {
                        return None;
                    },
                }
            } else if (c as u32) < 0x20 {
                return None;
            } else {
                out.push(c);
                gap = false;
                i += 1;
            }
        } else if space(c) {
            gap = true;
            i += 1;
        } else if c == '"' {
            out.push('"');
            in_string = true;
            gap = false;
            i += 1;
        } else if mark(c) {
            out.push(c);
            gap = false;
            i += 1;
        } else {
            if gap && out.len() > 0 {
                let last = out[out.len() - 1];
                if !space(last) && !mark(last) {
                    return None;
                }
            }
            out.push(c);
            gap = false;
            i += 1;
        }
    }
    if in_string {
        None
    } else {
        Some(out)
    }
}

} // verus!
