use crate::error::{end_of_input, Error};
use crate::laws::lemma_decoded_in_range;
use crate::spec::{
    continues, decode_from, decoding, groups_value, payload, signed_groups_value,
    valid_bits, Decoded,
};
use vstd::arithmetic::power2::{
    lemma2_to64, lemma2_to64_rest, lemma_pow2_adds, lemma_pow2_strictly_increases, lemma_pow2_unfold,
    pow2,
};
use vstd::prelude::*;

verus! {

/// `2^128`, the first power of two beyond `u128`.
proof fn lemma_pow2_128()
    ensures
        pow2(128) == u128::MAX + 1,
        pow2(127) == i128::MAX + 1,
{
    lemma2_to64();
    lemma2_to64_rest();
    lemma_pow2_adds(64, 64);
    lemma_pow2_adds(63, 64);
}

/// The ranges of the integer types, as powers of two.
proof fn lemma_width_bounds()
    ensures
        pow2(7) == 128,
        pow2(8) == u8::MAX + 1,
        pow2(16) == u16::MAX + 1,
        pow2(32) == u32::MAX + 1,
        pow2(64) == u64::MAX + 1,
        pow2(128) == u128::MAX + 1,
        pow2(15) == i16::MAX + 1,
        pow2(31) == i32::MAX + 1,
        pow2(63) == i64::MAX + 1,
        pow2(127) == i128::MAX + 1,
        valid_bits(usize::BITS as nat),
        usize::BITS == isize::BITS,
        pow2(usize::BITS as nat) == usize::MAX + 1,
        pow2((isize::BITS - 1) as nat) == isize::MAX + 1,
{
    lemma2_to64();
    lemma2_to64_rest();
    lemma_pow2_128();
    vstd::layout::signed_int_min_max_values();
}

/// Adding a group above the low `s` bits: the sum stays below `2^(s + k)`
/// exactly when the group's payload stays below `2^k`.
proof fn lemma_group_bound(value: nat, low: nat, s: nat, k: nat)
    requires
        value < pow2(s),
    ensures
        (value + low * pow2(s) < pow2(s + k)) == (low < pow2(k)),
{
    lemma_pow2_adds(s, k);
    let p = pow2(s);
    let q = pow2(k);
    if low < q {
        assert(low * p <= (q - 1) * p) by (nonlinear_arith)
            requires
                low <= q - 1,
        ;
        assert((q - 1) * p == q * p - p) by (nonlinear_arith);
    } else {
        assert(low * p >= q * p) by (nonlinear_arith)
            requires
                low >= q,
        ;
    }
    assert(q * p == p * q) by (nonlinear_arith);
}

/// The signed counterpart of `lemma_group_bound`, for a payload `q` that may
/// be negative.
proof fn lemma_signed_group_bound(value: nat, q: int, s: nat, k: nat)
    requires
        value < pow2(s),
    ensures
        (-pow2(s + k) <= value + q * pow2(s) < pow2(s + k)) == (-pow2(k) <= q < pow2(k)),
        -pow2(k) <= q < pow2(k) ==> -pow2(s + k) <= q * pow2(s) < pow2(s + k),
{
    lemma_pow2_adds(s, k);
    let p = pow2(s);
    let m = pow2(k);
    assert(m * p == p * m) by (nonlinear_arith);
    if q >= m {
        assert(q * p >= m * p) by (nonlinear_arith)
            requires
                q >= m,
                p >= 0,
        ;
    } else if q < -m {
        assert(q * p <= (-m - 1) * p) by (nonlinear_arith)
            requires
                q <= -m - 1,
                p >= 0,
        ;
        assert((-m - 1) * p == -(m * p) - p) by (nonlinear_arith);
    } else {
        assert(q * p <= (m - 1) * p) by (nonlinear_arith)
            requires
                q <= m - 1,
                p >= 0,
        ;
        assert((m - 1) * p == m * p - p) by (nonlinear_arith);
        assert(q * p >= -m * p) by (nonlinear_arith)
            requires
                q >= -m,
                p >= 0,
        ;
        assert(-m * p == -(m * p)) by (nonlinear_arith);
    }
}

/// `2^k` for a shift that fits in one group.
fn small_pow2(k: u32) -> (r: u8)
    requires
        k < 7,
    ensures
        r == pow2(k as nat),
{
    let mut r: u8 = 1;
    let mut i: u32 = 0;
    proof {
        lemma2_to64();
    }
    while i < k
        invariant
            i <= k < 7,
            r == pow2(i as nat),
            pow2(6) == 64,
        decreases k - i,
    {
        proof {
            lemma_pow2_unfold((i + 1) as nat);
            lemma_pow2_strictly_increases(i as nat, 6);
        }
        r = r * 2;
        i = i + 1;
    }
    r
}

/// Facts on one byte that the decoders branch on.
proof fn lemma_byte(byte: u8)
    ensures
        (byte & 0x7F) as nat == payload(byte),
        (byte & 0x80 == 0) == !continues(byte),
{
    assert(byte & 0x7F == byte % 128) by (bit_vector);
    assert((byte & 0x80 == 0) == (byte < 128)) by (bit_vector);
}

/// Decodes an unsigned integer of width `bits` from the start of `input`,
/// and returns it with the number of bytes it took.
///
/// At most `bits / 7 + 1` bytes are read, and none after the first group
/// without the continuation bit. An input that ends before that group is an
/// `IoError`; an integer of `bits` bits or more is an `Overflow`.
pub fn decode_unsigned(input: &[u8], bits: u32) -> (r: Result<(u128, usize), Error>)
    requires
        valid_bits(bits as nat),
    ensures
        match r {
            Ok((v, n)) => decoding(input@, bits as nat, false) == Decoded::Value(v as int, n as nat),
            Err(Error::IoError(_)) => decoding(input@, bits as nat, false) is Short,
            Err(Error::Overflow) => decoding(input@, bits as nat, false) is TooLarge,
        },
{
    let mut value: u128 = 0;
    let mut scale: u128 = 1;
    let mut shift: u32 = 0;
    let mut i: usize = 0;
    proof {
        lemma2_to64();
        lemma_pow2_128();
    }
    loop
        invariant
            valid_bits(bits as nat),
            i <= input.len(),
            shift == 7 * i,
            shift < bits,
            scale == pow2(shift as nat),
            value == groups_value(input@, i as nat),
            value < pow2(shift as nat),
            pow2(7) == 128,
            pow2(128) == u128::MAX + 1,
            decoding(input@, bits as nat, false) == decode_from(input@, bits as nat, false, i as nat),
        decreases input.len() - i,
    {
        if i >= input.len() {
            return Err(Error::IoError(end_of_input()));
        }
        let byte = input[i];
        let low = (byte & 0x7F) as u128;
        proof {
            lemma_byte(byte);
            if (shift as nat) + 7 <= 128 {
                lemma_pow2_strictly_increases((shift + 7) as nat, 128);
            }
        }
        if byte & 0x80 == 0 {
            // The last group holds `room` bits of the width; any payload bit
            // above them would not fit.
            let room = bits - shift;
            proof {
                lemma_group_bound(value as nat, low as nat, shift as nat, room as nat);
            }
            if room < 7 {
                let limit = small_pow2(room);
                if low >= limit as u128 {
                    return Err(Error::Overflow);
                }
            } else if room > 7 {
                proof {
                    lemma_pow2_strictly_increases(7, room as nat);
                }
            }
            proof {
                if bits < 128 {
                    lemma_pow2_strictly_increases(bits as nat, 128);
                }
                assert(groups_value(input@, (i + 1) as nat) == value + low * scale);
            }
            return Ok((value + low * scale, i + 1));
        }
        // Another group would start beyond the width.
        if shift + 7 > bits {
            return Err(Error::Overflow);
        }
        proof {
            lemma_group_bound(value as nat, low as nat, shift as nat, 7);
            lemma_pow2_adds(shift as nat, 7);
            assert(groups_value(input@, (i + 1) as nat) == value + low * scale);
        }
        value = value + low * scale;
        scale = scale * 128;
        shift = shift + 7;
        i = i + 1;
    }
}


/// Decodes a signed integer of width `bits` from the start of `input`, and
/// returns it with the number of bytes it took.
///
/// The groups are read as for `decode_unsigned`. The top payload bit of the
/// last group is the sign: the value is sign-extended from there. Where the
/// last group reaches beyond the width, the bits beyond it must all repeat
/// the value's sign bit, else the integer is an `Overflow`.
pub fn decode_signed(input: &[u8], bits: u32) -> (r: Result<(i128, usize), Error>)
    requires
        valid_bits(bits as nat),
    ensures
        match r {
            Ok((v, n)) => decoding(input@, bits as nat, true) == Decoded::Value(v as int, n as nat),
            Err(Error::IoError(_)) => decoding(input@, bits as nat, true) is Short,
            Err(Error::Overflow) => decoding(input@, bits as nat, true) is TooLarge,
        },
{
    let mut value: u128 = 0;
    let mut scale: u128 = 1;
    let mut shift: u32 = 0;
    let mut i: usize = 0;
    proof {
        lemma2_to64();
        lemma_pow2_128();
    }
    loop
        invariant
            valid_bits(bits as nat),
            i <= input.len(),
            shift == 7 * i,
            shift < bits,
            scale == pow2(shift as nat),
            value == groups_value(input@, i as nat),
            value < pow2(shift as nat),
            pow2(7) == 128,
            pow2(128) == u128::MAX + 1,
            decoding(input@, bits as nat, true) == decode_from(input@, bits as nat, true, i as nat),
        decreases input.len() - i,
    {
        if i >= input.len() {
            return Err(Error::IoError(end_of_input()));
        }
        let byte = input[i];
        let low = (byte & 0x7F) as u128;
        proof {
            lemma_byte(byte);
            if (shift as nat) + 7 <= 128 {
                lemma_pow2_strictly_increases((shift + 7) as nat, 128);
            }
        }
        if byte & 0x80 == 0 {
            // Below the width's sign bit, the last group holds `room` bits.
            // Its bits from the sign bit up are all equal exactly when its
            // payload, read as a signed 7-bit number `q`, lies in
            // `-2^room..2^room`.
            let room = bits - 1 - shift;
            let q: i128 = if low >= 64 {
                low as i128 - 128
            } else {
                low as i128
            };
            proof {
                lemma2_to64();
                lemma_pow2_128();
                lemma_signed_group_bound(value as nat, q as int, shift as nat, room as nat);
                lemma_group_bound(value as nat, low as nat, shift as nat, 6);
                lemma_pow2_adds(shift as nat, 7);
                assert(pow2(6) == 64);
                assert((low - 128) * scale == low * scale - 128 * scale) by (nonlinear_arith);
                assert(groups_value(input@, (i + 1) as nat) == value + low * scale);
                assert(signed_groups_value(input@, (i + 1) as nat) == value + q * scale);
            }
            if room < 6 {
                let limit = small_pow2(room) as i128;
                if q >= limit || q < -limit {
                    return Err(Error::Overflow);
                }
            } else if room > 6 {
                proof {
                    lemma_pow2_strictly_increases(6, room as nat);
                }
            }
            proof {
                lemma_pow2_strictly_increases(shift as nat, 127);
                if bits < 128 {
                    lemma_pow2_strictly_increases((bits - 1) as nat, 127);
                }
            }
            return Ok((value as i128 + q * (scale as i128), i + 1));
        }
        // Another group would start beyond the width.
        if shift + 7 > bits {
            return Err(Error::Overflow);
        }
        proof {
            lemma_group_bound(value as nat, low as nat, shift as nat, 7);
            lemma_pow2_adds(shift as nat, 7);
            assert(groups_value(input@, (i + 1) as nat) == value + low * scale);
        }
        value = value + low * scale;
        scale = scale * 128;
        shift = shift + 7;
        i = i + 1;
    }
}


/// A type that can be read from a LEB128 encoding.
pub trait Reader: Sized {
    /// The integer that a value of this type stands for.
    spec fn integer(&self) -> int;

    /// What decoding a value of this type from the start of `bytes` yields.
    spec fn leb128_decoding(bytes: Seq<u8>) -> Decoded;

    /// Reads a LEB128-encoded integer from the start of `input`, and returns
    /// it with the number of bytes it took.
    fn leb128_read(input: &[u8]) -> (r: Result<(Self, usize), Error>)
        ensures
            match r {
                Ok((v, n)) => Self::leb128_decoding(input@) == Decoded::Value(v.integer(), n as nat),
                Err(Error::IoError(_)) => Self::leb128_decoding(input@) is Short,
                Err(Error::Overflow) => Self::leb128_decoding(input@) is TooLarge,
            },
    ;
}

impl Reader for u8 {
    open spec fn integer(&self) -> int {
        *self as int
    }

    open spec fn leb128_decoding(bytes: Seq<u8>) -> Decoded {
        decoding(bytes, 8, false)
    }

    fn leb128_read(input: &[u8]) -> (r: Result<(u8, usize), Error>) {
        proof {
            lemma_width_bounds();
        }
        match decode_unsigned(input, 8) {
            Ok((v, n)) => {
                proof {
                    lemma_decoded_in_range(input@, 8, false);
                }
                Ok((v as u8, n))
            }
            Err(e) => Err(e),
        }
    }
}

impl Reader for u16 {
    open spec fn integer(&self) -> int {
        *self as int
    }

    open spec fn leb128_decoding(bytes: Seq<u8>) -> Decoded {
        decoding(bytes, 16, false)
    }

    fn leb128_read(input: &[u8]) -> (r: Result<(u16, usize), Error>) {
        proof {
            lemma_width_bounds();
        }
        match decode_unsigned(input, 16) {
            Ok((v, n)) => {
                proof {
                    lemma_decoded_in_range(input@, 16, false);
                }
                Ok((v as u16, n))
            }
            Err(e) => Err(e),
        }
    }
}

impl Reader for u32 {
    open spec fn integer(&self) -> int {
        *self as int
    }

    open spec fn leb128_decoding(bytes: Seq<u8>) -> Decoded {
        decoding(bytes, 32, false)
    }

    fn leb128_read(input: &[u8]) -> (r: Result<(u32, usize), Error>) {
        proof {
            lemma_width_bounds();
        }
        match decode_unsigned(input, 32) {
            Ok((v, n)) => {
                proof {
                    lemma_decoded_in_range(input@, 32, false);
                }
                Ok((v as u32, n))
            }
            Err(e) => Err(e),
        }
    }
}

impl Reader for u64 {
    open spec fn integer(&self) -> int {
        *self as int
    }

    open spec fn leb128_decoding(bytes: Seq<u8>) -> Decoded {
        decoding(bytes, 64, false)
    }

    fn leb128_read(input: &[u8]) -> (r: Result<(u64, usize), Error>) {
        proof {
            lemma_width_bounds();
        }
        match decode_unsigned(input, 64) {
            Ok((v, n)) => {
                proof {
                    lemma_decoded_in_range(input@, 64, false);
                }
                Ok((v as u64, n))
            }
            Err(e) => Err(e),
        }
    }
}

impl Reader for u128 {
    open spec fn integer(&self) -> int {
        *self as int
    }

    open spec fn leb128_decoding(bytes: Seq<u8>) -> Decoded {
        decoding(bytes, 128, false)
    }

    fn leb128_read(input: &[u8]) -> (r: Result<(u128, usize), Error>) {
        proof {
            lemma_width_bounds();
        }
        match decode_unsigned(input, 128) {
            Ok((v, n)) => {
                proof {
                    lemma_decoded_in_range(input@, 128, false);
                }
                Ok((v as u128, n))
            }
            Err(e) => Err(e),
        }
    }
}

impl Reader for usize {
    open spec fn integer(&self) -> int {
        *self as int
    }

    open spec fn leb128_decoding(bytes: Seq<u8>) -> Decoded {
        decoding(bytes, usize::BITS as nat, false)
    }

    fn leb128_read(input: &[u8]) -> (r: Result<(usize, usize), Error>) {
        proof {
            lemma_width_bounds();
        }
        match decode_unsigned(input, usize::BITS) {
            Ok((v, n)) => {
                proof {
                    lemma_decoded_in_range(input@, usize::BITS as nat, false);
                }
                Ok((v as usize, n))
            }
            Err(e) => Err(e),
        }
    }
}

impl Reader for i8 {
    open spec fn integer(&self) -> int {
        *self as int
    }

    open spec fn leb128_decoding(bytes: Seq<u8>) -> Decoded {
        decoding(bytes, 8, true)
    }

    fn leb128_read(input: &[u8]) -> (r: Result<(i8, usize), Error>) {
        proof {
            lemma_width_bounds();
        }
        match decode_signed(input, 8) {
            Ok((v, n)) => {
                proof {
                    lemma_decoded_in_range(input@, 8, true);
                }
                Ok((v as i8, n))
            }
            Err(e) => Err(e),
        }
    }
}

impl Reader for i16 {
    open spec fn integer(&self) -> int {
        *self as int
    }

    open spec fn leb128_decoding(bytes: Seq<u8>) -> Decoded {
        decoding(bytes, 16, true)
    }

    fn leb128_read(input: &[u8]) -> (r: Result<(i16, usize), Error>) {
        proof {
            lemma_width_bounds();
        }
        match decode_signed(input, 16) {
            Ok((v, n)) => {
                proof {
                    lemma_decoded_in_range(input@, 16, true);
                }
                Ok((v as i16, n))
            }
            Err(e) => Err(e),
        }
    }
}

impl Reader for i32 {
    open spec fn integer(&self) -> int {
        *self as int
    }

    open spec fn leb128_decoding(bytes: Seq<u8>) -> Decoded {
        decoding(bytes, 32, true)
    }

    fn leb128_read(input: &[u8]) -> (r: Result<(i32, usize), Error>) {
        proof {
            lemma_width_bounds();
        }
        match decode_signed(input, 32) {
            Ok((v, n)) => {
                proof {
                    lemma_decoded_in_range(input@, 32, true);
                }
                Ok((v as i32, n))
            }
            Err(e) => Err(e),
        }
    }
}

impl Reader for i64 {
    open spec fn integer(&self) -> int {
        *self as int
    }

    open spec fn leb128_decoding(bytes: Seq<u8>) -> Decoded {
        decoding(bytes, 64, true)
    }

    fn leb128_read(input: &[u8]) -> (r: Result<(i64, usize), Error>) {
        proof {
            lemma_width_bounds();
        }
        match decode_signed(input, 64) {
            Ok((v, n)) => {
                proof {
                    lemma_decoded_in_range(input@, 64, true);
                }
                Ok((v as i64, n))
            }
            Err(e) => Err(e),
        }
    }
}

impl Reader for i128 {
    open spec fn integer(&self) -> int {
        *self as int
    }

    open spec fn leb128_decoding(bytes: Seq<u8>) -> Decoded {
        decoding(bytes, 128, true)
    }

    fn leb128_read(input: &[u8]) -> (r: Result<(i128, usize), Error>) {
        proof {
            lemma_width_bounds();
        }
        match decode_signed(input, 128) {
            Ok((v, n)) => {
                proof {
                    lemma_decoded_in_range(input@, 128, true);
                }
                Ok((v as i128, n))
            }
            Err(e) => Err(e),
        }
    }
}

impl Reader for isize {
    open spec fn integer(&self) -> int {
        *self as int
    }

    open spec fn leb128_decoding(bytes: Seq<u8>) -> Decoded {
        decoding(bytes, isize::BITS as nat, true)
    }

    fn leb128_read(input: &[u8]) -> (r: Result<(isize, usize), Error>) {
        proof {
            lemma_width_bounds();
        }
        match decode_signed(input, isize::BITS) {
            Ok((v, n)) => {
                proof {
                    lemma_decoded_in_range(input@, isize::BITS as nat, true);
                }
                Ok((v as isize, n))
            }
            Err(e) => Err(e),
        }
    }
}

} // verus!
