//! The escape codec: the mapping between the characters of a text and the
//! characters that stand for them between two quotes.

use vstd::prelude::*;
use vstd::utf8::{char_u32_cast, is_scalar};
use crate::error::{Error, ErrorView, view_result};
use crate::text::chars_of;

verus! {

/// The lower-case hexadecimal digit for a number below sixteen.
pub open spec fn hex_digit(n: int) -> char {
    if n < 10 {
        ((0x30 + n) as u8) as char
    } else {
        ((0x61 + n - 10) as u8) as char
    }
}

/// How one character is written inside a string: the quote, the backslash
/// and the control characters are escaped, every other character stands for
/// itself.
pub open spec fn escape_spec(c: char) -> Seq<char> {
    if c == '"' {
        seq!['\\', '"']
    } else if c == '\\' {
        seq!['\\', '\\']
    } else if c == '\x08' {
        seq!['\\', 'b']
    } else if c == '\x0c' {
        seq!['\\', 'f']
    } else if c == '\n' {
        seq!['\\', 'n']
    } else if c == '\r' {
        seq!['\\', 'r']
    } else if c == '\t' {
        seq!['\\', 't']
    } else if (c as u32) < 0x20 {
        seq!['\\', 'u', '0', '0', hex_digit((c as u32) as int / 16), hex_digit((c as u32) as int % 16)]
    } else {
        seq![c]
    }
}

/// A whole text, each character escaped in turn.
pub open spec fn escape_text(s: Seq<char>) -> Seq<char>
    decreases s.len(),
{
    if s.len() == 0 {
        Seq::empty()
    } else {
        escape_spec(s[0]) + escape_text(s.drop_first())
    }
}

/// The number a hexadecimal digit stands for, in either case.
pub open spec fn hex_value(c: char) -> Option<u32> {
    let n = c as u32;
    if 0x30 <= n <= 0x39 {
        Some((n - 0x30) as u32)
    } else if 0x61 <= n <= 0x66 {
        Some((n - 0x61 + 10) as u32)
    } else if 0x41 <= n <= 0x46 {
        Some((n - 0x41 + 10) as u32)
    } else {
        None
    }
}

/// The number four hexadecimal digits stand for.
pub open spec fn hex_quad(a: char, b: char, c: char, d: char) -> Option<u32> {
    match (hex_value(a), hex_value(b), hex_value(c), hex_value(d)) {
        (Some(w), Some(x), Some(y), Some(z)) => Some((((w * 16 + x) * 16 + y) * 16 + z) as u32),
        _ => None,
    }
}

/// The character an escape stands for, given the character after the
/// backslash. An escape that is not known stands for that character itself.
pub open spec fn escaped_char(c: char) -> char {
    if c == 'b' {
        '\x08'
    } else if c == 'f' {
        '\x0c'
    } else if c == 'n' {
        '\n'
    } else if c == 'r' {
        '\r'
    } else if c == 't' {
        '\t'
    } else {
        c
    }
}

/// `c` put in front of a text that was decoded without failure.
pub open spec fn prepend(c: char, rest: Result<Seq<char>, ErrorView>) -> Result<
    Seq<char>,
    ErrorView,
> {
    match rest {
        Ok(text) => Ok(seq![c] + text),
        Err(e) => Err(e),
    }
}

/// The text that the characters between two quotes stand for.
///
/// A backslash with nothing after it, and a `\u` that is not followed by
/// four hexadecimal digits naming a scalar value, are `InvalidEscape`. All
/// four digits count, so the escape reaches every scalar value below
/// U+10000. The surrogate range holds no scalar value: a surrogate pair is
/// not decoded.
pub open spec fn unescape_spec(s: Seq<char>) -> Result<Seq<char>, ErrorView>
    decreases s.len(),
{
    if s.len() == 0 {
        Ok(Seq::empty())
    } else if s[0] != '\\' {
        prepend(s[0], unescape_spec(s.drop_first()))
    } else if s.len() < 2 {
        Err(ErrorView::InvalidEscape)
    } else if s[1] == 'u' {
        if s.len() < 6 {
            Err(ErrorView::InvalidEscape)
        } else {
            match hex_quad(s[2], s[3], s[4], s[5]) {
                Some(v) => if is_scalar(v) {
                    prepend(v as char, unescape_spec(s.skip(6)))
                } else {
                    Err(ErrorView::InvalidEscape)
                },
                None => Err(ErrorView::InvalidEscape),
            }
        }
    } else {
        prepend(escaped_char(s[1]), unescape_spec(s.skip(2)))
    }
}

/// The hexadecimal digit for a number below sixteen.
fn hex_char(n: u8) -> (c: char)
    requires
        n < 16,
    ensures
        c == hex_digit(n as int),
{
    if n < 10 {
        (0x30 + n) as char
    } else {
        (0x61 + n - 10) as char
    }
}

/// Writes one character as it stands inside a string.
pub fn escape(c: char) -> (s: String)
    ensures
        s@ == escape_spec(c),
{
    let mut s = String::new();
    if c == '"' {
        s.push('\\');
        s.push('"');
    } else if c == '\\' {
        s.push('\\');
        s.push('\\');
    } else if c == '\x08' {
        s.push('\\');
        s.push('b');
    } else if c == '\x0c' {
        s.push('\\');
        s.push('f');
    } else if c == '\n' {
        s.push('\\');
        s.push('n');
    } else if c == '\r' {
        s.push('\\');
        s.push('r');
    } else if c == '\t' {
        s.push('\\');
        s.push('t');
    } else if (c as u32) < 0x20 {
        let n: u8 = c as u32 as u8;
        s.push('\\');
        s.push('u');
        s.push('0');
        s.push('0');
        s.push(hex_char(n / 16));
        s.push(hex_char(n % 16));
    } else {
        s.push(c);
    }
    assert(s@ =~= escape_spec(c));
    s
}

/// The number a hexadecimal digit stands for.
fn hex_number(c: char) -> (r: Option<u32>)
    ensures
        r == hex_value(c),
{
    let n: u32 = c as u32;
    if 0x30 <= n && n <= 0x39 {
        Some(n - 0x30)
    } else if 0x61 <= n && n <= 0x66 {
        Some(n - 0x61 + 10)
    } else if 0x41 <= n && n <= 0x46 {
        Some(n - 0x41 + 10)
    } else {
        None
    }
}

/// The character four hexadecimal digits name, if they name one.
fn hex_scalar(a: char, b: char, c: char, d: char) -> (r: Option<char>)
    ensures
        r is Some <==> (hex_quad(a, b, c, d) matches Some(v) && is_scalar(v)),
        r matches Some(ch) ==> ch == (hex_quad(a, b, c, d)->0) as char,
{
    match (hex_number(a), hex_number(b), hex_number(c), hex_number(d)) {
        (Some(w), Some(x), Some(y), Some(z)) => {
            let v: u32 = ((w * 16 + x) * 16 + y) * 16 + z;
            let r = char::from_u32(v);
            proof {
                if let Some(ch) = r {
                    char_u32_cast(ch, v);
                }
            }
            r
        },
        _ => None,
    }
}

/// Decodes the characters between two quotes.
pub fn unescape(s: &str) -> (r: Result<String, Error>)
    ensures
        view_result(r) == unescape_spec(s@),
{
    let chars = chars_of(s);
    let mut out = String::new();
    let mut i: usize = 0;
    assert(chars@.skip(0) =~= chars@);
    while i < chars.len()
        invariant
            i <= chars.len(),
            chars@ == s@,
            unescape_spec(s@) == prepend_text(out@, unescape_spec(chars@.skip(i as int))),
        decreases chars.len() - i,
    {
        let ghost rest = chars@.skip(i as int);
        let ghost done = out@;
        let c = chars[i];
        assert(rest[0] == c);
        if c != '\\' {
            out.push(c);
            assert(rest.drop_first() =~= chars@.skip(i + 1));
            proof {
                lemma_prepend_text(done, c, unescape_spec(rest.drop_first()));
            }
            i = i + 1;
        } else if chars.len() - i < 2 {
            return Err(Error::InvalidEscape);
        } else {
            let e = chars[i + 1];
            assert(rest[1] == e);
            if e == 'u' {
                if chars.len() - i < 6 {
                    return Err(Error::InvalidEscape);
                }
                assert(rest[2] == chars@[i + 2] && rest[3] == chars@[i + 3] && rest[4] == chars@[i
                    + 4] && rest[5] == chars@[i + 5]);
                match hex_scalar(chars[i + 2], chars[i + 3], chars[i + 4], chars[i + 5]) {
                    Some(ch) => {
                        out.push(ch);
                        assert(rest.skip(6) =~= chars@.skip(i + 6));
                        proof {
                            lemma_prepend_text(done, ch, unescape_spec(rest.skip(6)));
                        }
                        i = i + 6;
                    },
                    None => {
                        return Err(Error::InvalidEscape);
                    },
                }
            } else {
                let ch = unescaped(e);
                out.push(ch);
                assert(rest.skip(2) =~= chars@.skip(i + 2));
                proof {
                    lemma_prepend_text(done, ch, unescape_spec(rest.skip(2)));
                }
                i = i + 2;
            }
        }
    }
    assert(out@ + Seq::<char>::empty() =~= out@);
    Ok(out)
}

/// The character that the escape `\c` stands for.
fn unescaped(c: char) -> (r: char)
    ensures
        r == escaped_char(c),
{
    if c == 'b' {
        '\x08'
    } else if c == 'f' {
        '\x0c'
    } else if c == 'n' {
        '\n'
    } else if c == 'r' {
        '\r'
    } else if c == 't' {
        '\t'
    } else {
        c
    }
}

/// A text put in front of a text that was decoded without failure.
spec fn prepend_text(done: Seq<char>, rest: Result<Seq<char>, ErrorView>) -> Result<
    Seq<char>,
    ErrorView,
> {
    match rest {
        Ok(text) => Ok(done + text),
        Err(e) => Err(e),
    }
}

/// A character behind the text read so far is a character in front of the
/// text still to be read.
proof fn lemma_prepend_text(done: Seq<char>, c: char, rest: Result<Seq<char>, ErrorView>)
    ensures
        prepend_text(done, prepend(c, rest)) == prepend_text(done.push(c), rest),
{
    if let Ok(text) = rest {
        assert(done + (seq![c] + text) =~= done.push(c) + text);
    }
}

} // verus!
