use vstd::prelude::*;

use crate::text::{push_repeated, upper_hex, upper_hex_char, upper_hex_string, zero_padded};

verus! {

/// The two upper-case hexadecimal digits of a byte.
pub open spec fn byte_hex(b: u8) -> Seq<char> {
    seq![upper_hex_char((b / 16) as nat), upper_hex_char((b % 16) as nat)]
}

/// The bytes in upper-case hexadecimal, two digits each, with `sep`
/// between two bytes.
pub open spec fn hex_joined(bs: Seq<u8>, sep: Seq<char>) -> Seq<char>
    decreases bs.len(),
{
    if bs.len() == 0 {
        Seq::empty()
    } else if bs.len() == 1 {
        byte_hex(bs[0])
    } else {
        hex_joined(bs.drop_last(), sep) + sep + byte_hex(bs.last())
    }
}

/// An offset in upper-case hexadecimal, zero-padded to `width` digits,
/// followed by `h`.
pub open spec fn offset_text(offset: u64, width: nat) -> Seq<char> {
    zero_padded(upper_hex(offset as nat), width).push('h')
}

/// Text formatting of bytes and offsets for hex output.
pub struct OutputFormatter;

fn push_byte_hex(out: &mut String, b: u8)
    ensures
        final(out)@ == old(out)@ + byte_hex(b),
{
    let hi = b / 16;
    let lo = b % 16;
    out.push(if hi < 10 { (hi + 48) as char } else { (hi + 55) as char });
    out.push(if lo < 10 { (lo + 48) as char } else { (lo + 55) as char });
    assert(final(out)@ =~= old(out)@ + byte_hex(b));
}

impl OutputFormatter {
    /// The bytes as two upper-case hexadecimal digits each, joined by
    /// `separator`.
    pub fn format_bytes_as_hex(bytes: &[u8], separator: &str) -> (r: String)
        ensures
            r@ == hex_joined(bytes@, separator@),
    {
        let mut out = String::new();
        let mut i: usize = 0;
        assert(bytes@.take(0) =~= Seq::<u8>::empty());
        while i < bytes.len()
            invariant
                i <= bytes@.len(),
                out@ == hex_joined(bytes@.take(i as int), separator@),
            decreases bytes@.len() - i,
        {
            let ghost t = bytes@.take(i + 1);
            assert(t.drop_last() =~= bytes@.take(i as int));
            if i > 0 {
                out.append(separator);
            }
            push_byte_hex(&mut out, bytes[i]);
            proof {
                if i == 0 {
                    assert(out@ =~= hex_joined(t, separator@));
                } else {
                    assert(out@ =~= hex_joined(t, separator@));
                }
            }
            i = i + 1;
        }
        assert(bytes@.take(i as int) =~= bytes@);
        out
    }

    /// The offset in upper-case hexadecimal, zero-padded to
    /// `hex_offset_length` digits, followed by `h`.
    pub fn format_offset(offset: u64, hex_offset_length: usize) -> (r: String)
        ensures
            r@ == offset_text(offset, hex_offset_length as nat),
    {
        let digits = upper_hex_string(offset);
        let n = digits.as_str().unicode_len();
        let mut out = String::new();
        if n < hex_offset_length {
            push_repeated(&mut out, '0', hex_offset_length - n);
        }
        out.append(digits.as_str());
        out.push('h');
        assert(out@ =~= offset_text(offset, hex_offset_length as nat));
        out
    }

    /// The number of hexadecimal digits of `file_size`.
    pub fn calculate_hex_offset_length(file_size: u64) -> (r: usize)
        ensures
            r == upper_hex(file_size as nat).len(),
    {
        let digits = upper_hex_string(file_size);
        digits.as_str().unicode_len()
    }

    /// A hex line with its offset in front: `offset : hex`.
    pub fn format_line_with_offset(offset: u64, hex_data: &str, hex_offset_length: usize) -> (r:
        String)
        ensures
            r@ == offset_text(offset, hex_offset_length as nat) + " : "@ + hex_data@,
    {
        let mut out = Self::format_offset(offset, hex_offset_length);
        out.append(" : ");
        out.append(hex_data);
        out
    }
}

} // verus!
