//! The check on a line typed in answer to a read operation.
use vstd::prelude::*;
use vstd::string::StrSliceExecFns;

verus! {

/// A line without its terminator: one trailing `\n` or `\r\n`.
pub open spec fn line_body(s: Seq<char>) -> Seq<char> {
    if s.len() >= 2 && s[s.len() - 2] == '\r' && s.last() == '\n' {
        s.take(s.len() - 2)
    } else if s.len() >= 1 && s.last() == '\n' {
        s.drop_last()
    } else {
        s
    }
}

/// The byte a line stands for: its one character, where that character's
/// code is below 256.
pub open spec fn byte_of(s: Seq<char>) -> Option<u8> {
    let b = line_body(s);
    if b.len() == 1 && (b[0] as u32) < 256 {
        Some(b[0] as u32 as u8)
    } else {
        None
    }
}

/// Reads a typed line as a single byte; `None` where the line, without its
/// terminator, is not exactly one character with a code below 256.
pub fn byte_of_line(line: &str) -> (r: Option<u8>)
    ensures
        r == byte_of(line@),
{
    let n = line.unicode_len();
    let mut end = n;
    if n >= 1 && line.get_char(n - 1) == '\n' {
        end = n - 1;
        if n >= 2 && line.get_char(n - 2) == '\r' {
            end = n - 2;
        }
    }
    if end != 1 {
        return None;
    }
    let c = line.get_char(0);
    proof {
        assert(line_body(line@).len() == 1);
        assert(line_body(line@)[0] == c);
    }
    if (c as u32) < 256 {
        Some(c as u32 as u8)
    } else {
        None
    }
}

} // verus!
