use crate::spec::{signed_encoding, unsigned_encoding};
use vstd::prelude::*;

verus! {

/// Appends the LEB128 encoding of an unsigned integer to `out`.
pub fn encode_unsigned(value: u128, out: &mut Vec<u8>)
    ensures
        final(out)@ == old(out)@ + unsigned_encoding(value as nat),
{
    let mut v = value;
    while v > 0x7F
        invariant
            out@ + unsigned_encoding(v as nat) == old(out)@ + unsigned_encoding(value as nat),
        decreases v,
    {
        let byte = (v & 0x7F) as u8 | 0x80;
        let rest = v >> 7u32;
        proof {
            assert((v & 0x7F) as u8 | 0x80 == (v % 128 + 128) as u8) by (bit_vector);
            assert(v >> 7u32 == v / 128) by (bit_vector);
            assert(out@.push(byte) + unsigned_encoding(rest as nat) =~= out@ + unsigned_encoding(
                v as nat,
            ));
        }
        out.push(byte);
        v = rest;
    }
    let last = v as u8;
    proof {
        assert(out@.push(last) =~= out@ + unsigned_encoding(v as nat));
    }
    out.push(last);
}

/// Appends the LEB128 encoding of a signed integer to `out`.
///
/// Groups are taken from the two's-complement bit pattern with an arithmetic
/// shift, until what remains lies in `-64..=63`: then the top payload bit of
/// the last group repeats the sign, and a decoder can extend it.
pub fn encode_signed(value: i128, out: &mut Vec<u8>)
    ensures
        final(out)@ == old(out)@ + signed_encoding(value as int),
{
    let mut v = value;
    while v < -64 || v > 63
        invariant
            out@ + signed_encoding(v as int) == old(out)@ + signed_encoding(value as int),
        decreases (if v >= 0 { v as int } else { -v }),
    {
        let byte = (v & 0x7F) as u8 | 0x80;
        let rest = v >> 7u32;
        proof {
            assert((v & 0x7F) as u8 | 0x80 == (v % 128 + 128) as u8) by (bit_vector);
            assert(v >> 7u32 == v / 128) by (bit_vector);
            assert(out@.push(byte) + signed_encoding(rest as int) =~= out@ + signed_encoding(
                v as int,
            ));
        }
        out.push(byte);
        v = rest;
    }
    let last = (v & 0x7F) as u8;
    proof {
        assert((v & 0x7F) as u8 == v % 128) by (bit_vector);
        assert(out@.push(last) =~= out@ + signed_encoding(v as int));
    }
    out.push(last);
}


/// A type that can be written in LEB128 encoding.
pub trait Writer: Sized {
    /// The LEB128 encoding of this value.
    spec fn leb128_encoding(&self) -> Seq<u8>;

    /// Appends the LEB128 encoding of `self` to `out`.
    fn leb128_write(self, out: &mut Vec<u8>)
        ensures
            final(out)@ == old(out)@ + self.leb128_encoding(),
    ;
}

impl Writer for u8 {
    open spec fn leb128_encoding(&self) -> Seq<u8> {
        unsigned_encoding(*self as nat)
    }

    fn leb128_write(self, out: &mut Vec<u8>) {
        encode_unsigned(self as u128, out)
    }
}

impl Writer for u16 {
    open spec fn leb128_encoding(&self) -> Seq<u8> {
        unsigned_encoding(*self as nat)
    }

    fn leb128_write(self, out: &mut Vec<u8>) {
        encode_unsigned(self as u128, out)
    }
}

impl Writer for u32 {
    open spec fn leb128_encoding(&self) -> Seq<u8> {
        unsigned_encoding(*self as nat)
    }

    fn leb128_write(self, out: &mut Vec<u8>) {
        encode_unsigned(self as u128, out)
    }
}

impl Writer for u64 {
    open spec fn leb128_encoding(&self) -> Seq<u8> {
        unsigned_encoding(*self as nat)
    }

    fn leb128_write(self, out: &mut Vec<u8>) {
        encode_unsigned(self as u128, out)
    }
}

impl Writer for u128 {
    open spec fn leb128_encoding(&self) -> Seq<u8> {
        unsigned_encoding(*self as nat)
    }

    fn leb128_write(self, out: &mut Vec<u8>) {
        encode_unsigned(self as u128, out)
    }
}

impl Writer for usize {
    open spec fn leb128_encoding(&self) -> Seq<u8> {
        unsigned_encoding(*self as nat)
    }

    fn leb128_write(self, out: &mut Vec<u8>) {
        encode_unsigned(self as u128, out)
    }
}

impl Writer for i8 {
    open spec fn leb128_encoding(&self) -> Seq<u8> {
        signed_encoding(*self as int)
    }

    fn leb128_write(self, out: &mut Vec<u8>) {
        encode_signed(self as i128, out)
    }
}

impl Writer for i16 {
    open spec fn leb128_encoding(&self) -> Seq<u8> {
        signed_encoding(*self as int)
    }

    fn leb128_write(self, out: &mut Vec<u8>) {
        encode_signed(self as i128, out)
    }
}

impl Writer for i32 {
    open spec fn leb128_encoding(&self) -> Seq<u8> {
        signed_encoding(*self as int)
    }

    fn leb128_write(self, out: &mut Vec<u8>) {
        encode_signed(self as i128, out)
    }
}

impl Writer for i64 {
    open spec fn leb128_encoding(&self) -> Seq<u8> {
        signed_encoding(*self as int)
    }

    fn leb128_write(self, out: &mut Vec<u8>) {
        encode_signed(self as i128, out)
    }
}

impl Writer for i128 {
    open spec fn leb128_encoding(&self) -> Seq<u8> {
        signed_encoding(*self as int)
    }

    fn leb128_write(self, out: &mut Vec<u8>) {
        encode_signed(self as i128, out)
    }
}

impl Writer for isize {
    open spec fn leb128_encoding(&self) -> Seq<u8> {
        signed_encoding(*self as int)
    }

    fn leb128_write(self, out: &mut Vec<u8>) {
        encode_signed(self as i128, out)
    }
}

} // verus!
