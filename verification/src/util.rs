//! Bytes in a form that people can read.

use vstd::prelude::*;

verus! {

/// The upper-case hexadecimal digit for `n`, for `n` below sixteen.
pub open spec fn hex_digit(n: int) -> char {
    if n < 10 {
        (n + '0' as int) as char
    } else {
        (n - 10 + 'A' as int) as char
    }
}

/// The two hexadecimal digits of a byte.
pub open spec fn hex_byte(b: u8) -> Seq<char> {
    seq![hex_digit(b as int / 16), hex_digit(b as int % 16)]
}

/// The first `k` bytes in hexadecimal, separated by spaces.
pub open spec fn hex_bytes(bytes: Seq<u8>, k: int) -> Seq<char>
    decreases k,
{
    if k <= 0 {
        Seq::empty()
    } else {
        hex_bytes(bytes, k - 1) + (if k > 1 {
            seq![' ']
        } else {
            Seq::empty()
        }) + hex_byte(bytes[k - 1])
    }
}

/// The bytes in hexadecimal, separated by spaces, in square brackets.
pub open spec fn hex_dump(bytes: Seq<u8>) -> Seq<char> {
    seq!['['] + hex_bytes(bytes, bytes.len() as int) + seq![']']
}

/// A slice of bytes that can be written in hexadecimal.
pub struct HexDumper<'a> {
    pub slice: &'a [u8],
}

fn digit(n: u8) -> (c: char)
    requires
        n < 16,
    ensures
        c == hex_digit(n as int),
{
    if n < 10 {
        let b: u8 = 48 + n;
        b as char
    } else {
        let b: u8 = 55 + n;
        b as char
    }
}

impl<'a> HexDumper<'a> {
    /// A dumper of `slice`.
    pub fn new(slice: &'a [u8]) -> (dumper: Self)
        ensures
            dumper.slice@ == slice@,
    {
        Self { slice }
    }

    /// The bytes in hexadecimal, separated by spaces, in square brackets.
    pub fn to_string(&self) -> (s: String)
        ensures
            s@ == hex_dump(self.slice@),
    {
        let mut s = String::new();
        s.push('[');
        let mut i: usize = 0;
        assert(s@ =~= seq!['['] + hex_bytes(self.slice@, 0));
        while i < self.slice.len()
            invariant
                i <= self.slice.len(),
                s@ == seq!['['] + hex_bytes(self.slice@, i as int),
            decreases self.slice.len() - i,
        {
            if i > 0 {
                s.push(' ');
            }
            let b = self.slice[i];
            s.push(digit(b / 16));
            s.push(digit(b % 16));
            assert(s@ =~= seq!['['] + hex_bytes(self.slice@, i + 1));
            i += 1;
        }
        s.push(']');
        assert(s@ =~= hex_dump(self.slice@));
        s
    }
}

} // verus!
