use crate::spec::{
    max_groups, continues, decode_from, decoding, groups_value, in_range, payload, signed_encoding,
    signed_groups_value, unsigned_encoding, valid_bits, Decoded,
};
use vstd::arithmetic::power2::{
    lemma2_to64, lemma_pow2_adds, lemma_pow2_strictly_increases, pow2,
};
use vstd::prelude::*;

verus! {

/// Decoding from group `i` on yields only values representable at the width.
proof fn lemma_decoded_from_in_range(bytes: Seq<u8>, bits: nat, signed: bool, i: nat)
    ensures
        decode_from(bytes, bits, signed, i) matches Decoded::Value(v, n) ==> in_range(v, bits, signed)
            && i < n <= bytes.len(),
    decreases bytes.len() - i,
{
    if i < bytes.len() && bytes[i as int] >= 128 && 7 * (i + 1) <= bits {
        lemma_decoded_from_in_range(bytes, bits, signed, i + 1);
    }
}

/// A decoder never hands back a value that its type cannot hold: whatever
/// does not fit is reported as too large, never truncated.
pub proof fn lemma_decoded_in_range(bytes: Seq<u8>, bits: nat, signed: bool)
    ensures
        decoding(bytes, bits, signed) matches Decoded::Value(v, n) ==> in_range(v, bits, signed) && 0
            < n <= bytes.len(),
{
    lemma_decoded_from_in_range(bytes, bits, signed, 0);
}

/// Prepending a group to a byte sequence multiplies the value of the groups
/// after it by `128`.
proof fn lemma_groups_value_cons(b: u8, s: Seq<u8>, k: nat)
    requires
        k <= s.len(),
    ensures
        groups_value(seq![b] + s, k + 1) == payload(b) + 128 * groups_value(s, k),
    decreases k,
{
    let t = seq![b] + s;
    lemma2_to64();
    if k == 0 {
        assert(t[0] == b);
        assert(groups_value(t, 1) == groups_value(t, 0) + payload(t[0]) * pow2(0));
    } else {
        lemma_groups_value_cons(b, s, (k - 1) as nat);
        assert(t[k as int] == s[k - 1]);
        lemma_pow2_adds(7, (7 * (k - 1)) as nat);
        assert(7 + 7 * (k - 1) == 7 * k);
        let p = pow2((7 * (k - 1)) as nat);
        let x = payload(s[k - 1]);
        assert(pow2(7 * k) == 128 * p);
        assert(groups_value(t, k + 1) == groups_value(t, k) + x * pow2(7 * k));
        assert(groups_value(s, k) == groups_value(s, (k - 1) as nat) + x * p);
        assert(x * (128 * p) == 128 * (x * p)) by (nonlinear_arith);
    }
}

/// The value of the first `k` groups does not depend on what follows them.
proof fn lemma_groups_value_prefix(s: Seq<u8>, rest: Seq<u8>, k: nat)
    requires
        k <= s.len(),
    ensures
        groups_value(s + rest, k) == groups_value(s, k),
    decreases k,
{
    if k > 0 {
        lemma_groups_value_prefix(s, rest, (k - 1) as nat);
        assert((s + rest)[k - 1] == s[k - 1]);
    }
}

/// The shape of a byte sequence whose first `n` bytes are one encoded
/// integer.
pub open spec fn one_integer(bytes: Seq<u8>, n: nat) -> bool {
    &&& 1 <= n <= bytes.len()
    &&& forall|j: int| 0 <= j < n - 1 ==> continues(#[trigger] bytes[j])
    &&& !continues(bytes[n - 1])
}

/// Scanning the continuation groups of one encoded integer reaches its last
/// group, as long as the width admits that many groups.
proof fn lemma_scan_to_last(bytes: Seq<u8>, bits: nat, signed: bool, n: nat, i: nat)
    requires
        one_integer(bytes, n),
        i < n,
        7 * (n - 1) <= bits,
    ensures
        decode_from(bytes, bits, signed, i) == decode_from(bytes, bits, signed, (n - 1) as nat),
    decreases n - i,
{
    if i < n - 1 {
        assert(continues(bytes[i as int]));
        lemma_scan_to_last(bytes, bits, signed, n, i + 1);
    }
}

/// The unsigned encoding is one integer whose groups hold `v`, in the fewest
/// groups that can.
proof fn lemma_unsigned_encoding(v: nat)
    ensures
        one_integer(unsigned_encoding(v), unsigned_encoding(v).len()),
        groups_value(unsigned_encoding(v), unsigned_encoding(v).len()) == v,
        v < pow2(7 * unsigned_encoding(v).len()),
        unsigned_encoding(v).len() == 1 || pow2((7 * (unsigned_encoding(v).len() - 1)) as nat)
            <= v,
    decreases v,
{
    let e = unsigned_encoding(v);
    lemma2_to64();
    if v < 128 {
        assert(e[0] == v as u8);
        assert(groups_value(e, 1) == groups_value(e, 0) + payload(e[0]) * pow2(0));
    } else {
        let q = v / 128;
        let b = (v % 128 + 128) as u8;
        let t = unsigned_encoding(q);
        lemma_unsigned_encoding(q);
        let k = t.len();
        assert(e == seq![b] + t);
        assert forall|j: int| 0 <= j < e.len() - 1 implies continues(#[trigger] e[j]) by {
            if j > 0 {
                assert(e[j] == t[j - 1]);
            }
        }
        assert(e[e.len() - 1] == t[k - 1]);
        lemma_groups_value_cons(b, t, k);
        lemma_pow2_adds(7, 7 * k);
        lemma_pow2_adds(7, (7 * (k - 1)) as nat);
        assert(7 * (k + 1) == 7 + 7 * k);
        assert(7 * k == 7 + 7 * (k - 1)) by {
            assert(k >= 1);
        }
        if k == 1 {
            assert(pow2(7 * (e.len() - 1) as nat) == pow2(7));
        }
    }
}

/// The signed encoding is one integer whose groups, read in two's
/// complement, hold `v`, in the fewest groups that can.
proof fn lemma_signed_encoding(v: int)
    ensures
        one_integer(signed_encoding(v), signed_encoding(v).len()),
        signed_groups_value(signed_encoding(v), signed_encoding(v).len()) == v,
        -pow2((7 * signed_encoding(v).len() - 1) as nat) <= v < pow2(
            (7 * signed_encoding(v).len() - 1) as nat,
        ),
        signed_encoding(v).len() == 1 || !(-pow2((7 * signed_encoding(v).len() - 8) as nat) <= v
            < pow2((7 * signed_encoding(v).len() - 8) as nat)),
    decreases (if v >= 0 { v } else { -v }),
{
    let e = signed_encoding(v);
    lemma2_to64();
    if -64 <= v < 64 {
        assert(e[0] == (v % 128) as u8);
        assert(groups_value(e, 1) == groups_value(e, 0) + payload(e[0]) * pow2(0));
    } else {
        let q = v / 128;
        let b = (v % 128 + 128) as u8;
        let t = signed_encoding(q);
        lemma_signed_encoding(q);
        let k = t.len();
        assert(e == seq![b] + t);
        assert forall|j: int| 0 <= j < e.len() - 1 implies continues(#[trigger] e[j]) by {
            if j > 0 {
                assert(e[j] == t[j - 1]);
            }
        }
        assert(e[e.len() - 1] == t[k - 1]);
        lemma_groups_value_cons(b, t, k);
        let g = groups_value(t, k);
        lemma_pow2_adds(7, 7 * k);
        lemma_pow2_adds(7, (7 * k - 1) as nat);
        assert(7 * (k + 1) == 7 + 7 * k);
        assert(7 * (k + 1) - 1 == 7 + (7 * k - 1));
        if k == 1 {
            assert(7 * (k + 1) - 8 == 6);
        } else {
            lemma_pow2_adds(7, (7 * k - 8) as nat);
            assert(7 * (k + 1) - 8 == 7 + (7 * k - 8));
        }
    }
}

/// Canonical length of the unsigned encoding: it has the fewest groups that
/// hold every set bit of `v`, and at least one.
pub proof fn lemma_unsigned_canonical_length(v: nat)
    ensures
        unsigned_encoding(v).len() >= 1,
        v < pow2(7 * unsigned_encoding(v).len()),
        unsigned_encoding(v).len() == 1 || pow2((7 * (unsigned_encoding(v).len() - 1)) as nat)
            <= v,
{
    lemma_unsigned_encoding(v);
}

/// Canonical length of the signed encoding: it has the fewest groups whose
/// payload bits, read in two's complement with the top one as the sign, can
/// hold `v`.
pub proof fn lemma_signed_canonical_length(v: int)
    ensures
        signed_encoding(v).len() >= 1,
        -pow2((7 * signed_encoding(v).len() - 1) as nat) <= v < pow2(
            (7 * signed_encoding(v).len() - 1) as nat,
        ),
        signed_encoding(v).len() == 1 || !(-pow2((7 * signed_encoding(v).len() - 8) as nat) <= v
            < pow2((7 * signed_encoding(v).len() - 8) as nat)),
{
    lemma_signed_encoding(v);
}

/// Round trip of unsigned integers: decoding the encoding of any value
/// representable at the width gives that value back, and takes exactly the
/// bytes of the encoding, whatever follows them.
pub proof fn lemma_unsigned_round_trip(v: nat, bits: nat, rest: Seq<u8>)
    requires
        valid_bits(bits),
        in_range(v as int, bits, false),
    ensures
        decoding(unsigned_encoding(v) + rest, bits, false) == Decoded::Value(
            v as int,
            unsigned_encoding(v).len(),
        ),
{
    let e = unsigned_encoding(v);
    let n = e.len();
    let bytes = e + rest;
    lemma_unsigned_encoding(v);
    lemma_groups_value_prefix(e, rest, n);
    assert forall|j: int| 0 <= j < n - 1 implies continues(#[trigger] bytes[j]) by {
        assert(bytes[j] == e[j]);
    }
    assert(bytes[n - 1] == e[n - 1]);
    if n > 1 && 7 * (n - 1) >= bits {
        if 7 * (n - 1) > bits {
            lemma_pow2_strictly_increases(bits, (7 * (n - 1)) as nat);
        }
    }
    lemma_scan_to_last(bytes, bits, false, n, 0);
}

/// Round trip of signed integers: decoding the encoding of any value
/// representable at the width gives that value back, and takes exactly the
/// bytes of the encoding, whatever follows them.
pub proof fn lemma_signed_round_trip(v: int, bits: nat, rest: Seq<u8>)
    requires
        valid_bits(bits),
        in_range(v, bits, true),
    ensures
        decoding(signed_encoding(v) + rest, bits, true) == Decoded::Value(v, signed_encoding(v).len()),
{
    let e = signed_encoding(v);
    let n = e.len();
    let bytes = e + rest;
    lemma_signed_encoding(v);
    lemma_groups_value_prefix(e, rest, n);
    assert forall|j: int| 0 <= j < n - 1 implies continues(#[trigger] bytes[j]) by {
        assert(bytes[j] == e[j]);
    }
    assert(bytes[n - 1] == e[n - 1]);
    assert(signed_groups_value(bytes, n) == v);
    if n > 1 && 7 * n - 8 >= bits - 1 {
        if 7 * n - 8 > bits - 1 {
            lemma_pow2_strictly_increases((bits - 1) as nat, (7 * n - 8) as nat);
        }
    }
    lemma_scan_to_last(bytes, bits, true, n, 0);
}

/// Decoding never reads more than `bits / 7 + 1` groups: where all of them
/// have the continuation bit set, the integer is too large, whatever follows.
pub proof fn lemma_overlong_is_too_large(bytes: Seq<u8>, bits: nat, signed: bool)
    requires
        valid_bits(bits),
        bytes.len() >= max_groups(bits),
        forall|j: int| 0 <= j < max_groups(bits) ==> continues(#[trigger] bytes[j]),
    ensures
        decoding(bytes, bits, signed) is TooLarge,
{
    lemma_overlong_from(bytes, bits, signed, 0);
}

proof fn lemma_overlong_from(bytes: Seq<u8>, bits: nat, signed: bool, i: nat)
    requires
        valid_bits(bits),
        i < max_groups(bits),
        bytes.len() >= max_groups(bits),
        forall|j: int| 0 <= j < max_groups(bits) ==> continues(#[trigger] bytes[j]),
    ensures
        decode_from(bytes, bits, signed, i) is TooLarge,
    decreases max_groups(bits) - i,
{
    assert(continues(bytes[i as int]));
    if 7 * (i + 1) <= bits {
        lemma_overlong_from(bytes, bits, signed, i + 1);
    }
}

/// An unsigned integer whose groups end within the width's group limit but
/// whose value needs more bits than the width is too large.
pub proof fn lemma_unsigned_excess_is_too_large(bytes: Seq<u8>, bits: nat, n: nat)
    requires
        valid_bits(bits),
        one_integer(bytes, n),
        7 * (n - 1) <= bits,
        groups_value(bytes, n) >= pow2(bits),
    ensures
        decoding(bytes, bits, false) is TooLarge,
{
    lemma_scan_to_last(bytes, bits, false, n, 0);
}

/// A signed integer whose groups end within the width's group limit but
/// whose two's-complement value lies outside the width's range is too large.
pub proof fn lemma_signed_excess_is_too_large(bytes: Seq<u8>, bits: nat, n: nat)
    requires
        valid_bits(bits),
        one_integer(bytes, n),
        7 * (n - 1) <= bits,
        !in_range(signed_groups_value(bytes, n), bits, true),
    ensures
        decoding(bytes, bits, true) is TooLarge,
{
    lemma_scan_to_last(bytes, bits, true, n, 0);
}

} // verus!
