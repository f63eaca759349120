use vstd::arithmetic::power2::pow2;
use vstd::prelude::*;

verus! {

/// What decoding a byte sequence yields, as a mathematical outcome.
pub enum Decoded {
    /// The integer, and the number of bytes that encode it.
    Value(int, nat),
    /// The input ends before a group without the continuation bit.
    Short,
    /// The encoded integer cannot be represented at the requested width.
    TooLarge,
}

/// The widths for which the codec is defined.
pub open spec fn valid_bits(bits: nat) -> bool {
    bits == 8 || bits == 16 || bits == 32 || bits == 64 || bits == 128
}

/// The seven payload bits of a group.
pub open spec fn payload(b: u8) -> nat {
    (b % 128) as nat
}

/// Whether a group is followed by another.
pub open spec fn continues(b: u8) -> bool {
    b >= 128
}

/// The unsigned value of the first `n` groups of `bytes`, least significant
/// group first.
pub open spec fn groups_value(bytes: Seq<u8>, n: nat) -> nat
    decreases n,
{
    if n == 0 {
        0
    } else {
        groups_value(bytes, (n - 1) as nat) + payload(bytes[n - 1]) * pow2((7 * (n - 1)) as nat)
    }
}

/// The two's-complement value of the first `n` groups of `bytes`: their
/// `7 * n` payload bits, with the top one as the sign.
pub open spec fn signed_groups_value(bytes: Seq<u8>, n: nat) -> int {
    let v = groups_value(bytes, n);
    if v >= pow2((7 * n - 1) as nat) {
        v - pow2(7 * n)
    } else {
        v as int
    }
}

/// Whether `v` is representable in an integer type of the given width and
/// signedness.
pub open spec fn in_range(v: int, bits: nat, signed: bool) -> bool {
    if signed {
        -pow2((bits - 1) as nat) <= v < pow2((bits - 1) as nat)
    } else {
        0 <= v < pow2(bits)
    }
}

/// Largest number of groups that a decoder of the given width reads.
pub open spec fn max_groups(bits: nat) -> nat {
    bits / 7 + 1
}

/// Decoding `bytes` from group `i` on, all groups before `i` having the
/// continuation bit set.
///
/// A group that continues although the next one would start at or beyond the
/// width makes the integer too large; so does a final group whose value
/// cannot be represented.
pub open spec fn decode_from(bytes: Seq<u8>, bits: nat, signed: bool, i: nat) -> Decoded
    decreases bytes.len() - i,
{
    if i >= bytes.len() {
        Decoded::Short
    } else if !continues(bytes[i as int]) {
        let v = if signed {
            signed_groups_value(bytes, i + 1)
        } else {
            groups_value(bytes, i + 1) as int
        };
        if in_range(v, bits, signed) {
            Decoded::Value(v, i + 1)
        } else {
            Decoded::TooLarge
        }
    } else if 7 * (i + 1) > bits {
        Decoded::TooLarge
    } else {
        decode_from(bytes, bits, signed, i + 1)
    }
}

/// The outcome of decoding an integer of the given width and signedness from
/// the start of `bytes`.
pub open spec fn decoding(bytes: Seq<u8>, bits: nat, signed: bool) -> Decoded {
    decode_from(bytes, bits, signed, 0)
}

/// The LEB128 encoding of an unsigned integer: the fewest groups that hold
/// all its set bits, and at least one.
pub open spec fn unsigned_encoding(v: nat) -> Seq<u8>
    decreases v,
{
    if v < 128 {
        seq![v as u8]
    } else {
        seq![(v % 128 + 128) as u8] + unsigned_encoding(v / 128)
    }
}

/// The LEB128 encoding of a signed integer: the fewest groups whose last
/// payload bit already gives the sign.
pub open spec fn signed_encoding(v: int) -> Seq<u8>
    decreases (if v >= 0 { v } else { -v }),
{
    if -64 <= v < 64 {
        seq![(v % 128) as u8]
    } else {
        seq![(v % 128 + 128) as u8] + signed_encoding(v / 128)
    }
}

} // verus!
