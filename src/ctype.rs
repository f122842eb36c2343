//! Character classification on the low byte of a C `int`, and a walk over a
//! NUL-terminated byte string.

use vstd::prelude::*;

verus! {

/// The byte that a C `int` character argument stands for (its low eight bits).
pub open spec fn char_byte(c: i32) -> u8 {
    (c as u8)
}

/// Space, tab, newline, carriage return, vertical tab or form feed.
pub open spec fn is_space_byte(b: u8) -> bool {
    b == 0x20 || b == 0x09 || b == 0x0a || b == 0x0d || b == 0x0b || b == 0x0c
}

/// `1` when the low byte of `c` is white space, `0` otherwise.
pub fn isspace(c: i32) -> (r: i32)
    ensures
        r == (if is_space_byte(char_byte(c)) { 1i32 } else { 0i32 }),
{
    let b = c as u8;
    if b == 0x20 || b == 0x09 || b == 0x0a || b == 0x0d || b == 0x0b || b == 0x0c {
        1
    } else {
        0
    }
}

/// `1` when the low byte of `c` is an ASCII decimal digit, `0` otherwise.
pub fn isdigit(c: i32) -> (r: i32)
    ensures
        r == (if 0x30 <= char_byte(c) <= 0x39 { 1i32 } else { 0i32 }),
{
    let b = c as u8;
    if 0x30 <= b && b <= 0x39 {
        1
    } else {
        0
    }
}

/// `1` when the low byte of `c` is an ASCII upper-case letter, `0` otherwise.
pub fn isupper(c: i32) -> (r: i32)
    ensures
        r == (if 0x41 <= char_byte(c) <= 0x5a { 1i32 } else { 0i32 }),
{
    let b = c as u8;
    if 0x41 <= b && b <= 0x5a {
        1
    } else {
        0
    }
}

/// `1` when the low byte of `c` is an ASCII letter, `0` otherwise.
pub fn isalpha(c: i32) -> (r: i32)
    ensures
        r == (if 0x41 <= char_byte(c) <= 0x5a || 0x61 <= char_byte(c) <= 0x7a {
            1i32
        } else {
            0i32
        }),
{
    let b = c as u8;
    if (0x41 <= b && b <= 0x5a) || (0x61 <= b && b <= 0x7a) {
        1
    } else {
        0
    }
}

/// Walks a NUL-terminated byte string, one byte at a time.
pub struct CStringIter<'a> {
    bytes: &'a [u8],
    idx: usize,
}

impl<'a> CStringIter<'a> {
    /// The bytes still to be walked.
    pub closed spec fn rest(&self) -> Seq<u8> {
        self.bytes@.subrange(self.idx as int, self.bytes@.len() as int)
    }

    pub closed spec fn wf(&self) -> bool {
        self.idx <= self.bytes@.len()
    }

    /// An iterator over `s`, from its first byte.
    pub fn new(s: &'a [u8]) -> (r: CStringIter<'a>)
        ensures
            r.wf(),
            r.rest() == s@,
    {
        let r = CStringIter { bytes: s, idx: 0 };
        proof {
            assert(r.rest() =~= s@);
        }
        r
    }

    /// The next byte, or `None` at the terminating NUL or at the end of the
    /// bytes; only a returned byte is consumed.
    pub fn next(&mut self) -> (r: Option<u8>)
        requires
            old(self).wf(),
        ensures
            final(self).wf(),
            old(self).rest().len() > 0 && old(self).rest()[0] != 0 ==> r == Some(old(self).rest()[0])
                && final(self).rest() == old(self).rest().drop_first(),
            !(old(self).rest().len() > 0 && old(self).rest()[0] != 0) ==> r is None && final(self).rest()
                == old(self).rest(),
    {
        if self.idx >= self.bytes.len() {
            return None;
        }
        let c = self.bytes[self.idx];
        if c == 0 {
            None
        } else {
            proof {
                assert(self.rest()[0] == c);
            }
            self.idx = self.idx + 1;
            proof {
                assert(self.rest() =~= old(self).rest().drop_first());
            }
            Some(c)
        }
    }
}

} // verus!
