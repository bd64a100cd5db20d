//! A stream of bytes read as one number, most significant byte first: the
//! view in which the coder's intervals are ranges of streams.

use crate::interval::{be_bytes, leading_byte, shifted, unsettled, Interval};
use vstd::prelude::*;

verus! {

/// 256 to the power `n`: the number of streams of `n` bytes.
pub open spec fn pow256(n: nat) -> nat
    decreases n,
{
    if n == 0 {
        1
    } else {
        256 * pow256((n - 1) as nat)
    }
}

/// The number that a stream stands for, most significant byte first.
pub open spec fn be_value(s: Seq<u8>) -> nat
    decreases s.len(),
{
    if s.len() == 0 {
        0
    } else {
        be_value(s.drop_last()) * 256 + s.last() as nat
    }
}

/// A power of 256 is positive, and the power of a sum is the product of
/// the powers.
pub proof fn lemma_pow256(m: nat, n: nat)
    ensures
        pow256(m) > 0,
        pow256(m + n) == pow256(m) * pow256(n),
        pow256(4) == 0x1_0000_0000,
    decreases m,
{
    reveal_with_fuel(pow256, 5);
    if m > 0 {
        lemma_pow256((m - 1) as nat, n);
        let a: int = pow256((m - 1) as nat) as int;
        let b: int = pow256(n) as int;
        assert(pow256(m + n) == 256 * pow256((m + n - 1) as nat));
        assert(256 * (a * b) == (256 * a) * b) by (nonlinear_arith);
    } else {
        assert(pow256(0) * pow256(n) == pow256(n)) by (nonlinear_arith)
            requires
                pow256(0) == 1,
        ;
    }
}

/// The number of a stream is under the number of streams of its length.
pub proof fn lemma_be_value_bound(s: Seq<u8>)
    ensures
        be_value(s) < pow256(s.len()),
    decreases s.len(),
{
    if s.len() > 0 {
        lemma_be_value_bound(s.drop_last());
    }
}

/// The number of two streams one after the other: the number of the first
/// moved up by the length of the second, and the number of the second.
pub proof fn lemma_be_value_concat(a: Seq<u8>, b: Seq<u8>)
    ensures
        be_value(a + b) == be_value(a) * pow256(b.len()) + be_value(b),
    decreases b.len(),
{
    if b.len() == 0 {
        assert(a + b =~= a);
        assert(be_value(a) * pow256(0) == be_value(a)) by (nonlinear_arith)
            requires
                pow256(0) == 1,
        ;
    } else {
        lemma_be_value_concat(a, b.drop_last());
        assert((a + b).drop_last() =~= a + b.drop_last());
        let x: int = be_value(a) as int;
        let p: int = pow256((b.len() - 1) as nat) as int;
        assert((x * p) * 256 == x * (256 * p)) by (nonlinear_arith);
    }
}

/// The four bytes of a register stand for the register.
pub proof fn lemma_be_value_of_register(x: u32)
    ensures
        be_bytes(x).len() == 4,
        be_value(be_bytes(x)) == x,
{
    let s = be_bytes(x);
    reveal_with_fuel(be_value, 5);
    assert(s.drop_last() =~= seq![s[0], s[1], s[2]]);
    assert(s.drop_last().drop_last() =~= seq![s[0], s[1]]);
    assert(s.drop_last().drop_last().drop_last() =~= seq![s[0]]);
    assert(s.drop_last().drop_last().drop_last().drop_last() =~= Seq::<u8>::empty());
}

/// The number of a stream of four bytes, byte by byte.
pub proof fn lemma_be_value_of_four(s: Seq<u8>)
    requires
        s.len() == 4,
    ensures
        be_value(s) == s[0] * 0x100_0000 + s[1] * 0x1_0000 + s[2] * 0x100 + s[3],
{
    reveal_with_fuel(be_value, 5);
    assert(s.drop_last() =~= seq![s[0], s[1], s[2]]);
    assert(s.drop_last().drop_last() =~= seq![s[0], s[1]]);
    assert(s.drop_last().drop_last().drop_last() =~= seq![s[0]]);
    assert(s.drop_last().drop_last().drop_last().drop_last() =~= Seq::<u8>::empty());
}

/// What the tests and steps of renormalization mean as arithmetic: an
/// interval is unsettled where both ends have the same leading byte, and
/// a step takes that byte off both and moves what is left up by a byte.
pub proof fn lemma_shift_as_arithmetic(iv: Interval)
    ensures
        leading_byte(iv.low) == iv.low / 0x100_0000,
        unsettled(iv) <==> iv.low / 0x100_0000 == iv.high / 0x100_0000,
        shifted(iv).low == (iv.low % 0x100_0000) * 256,
        shifted(iv).high == (iv.high % 0x100_0000) * 256 + 255,
{
    let l: u32 = iv.low;
    let h: u32 = iv.high;
    assert(l >> 24 == l / 0x100_0000 && (l >> 24) < 256) by (bit_vector);
    assert((l ^ h) < 0x0100_0000u32 <==> l / 0x100_0000 == h / 0x100_0000) by (bit_vector);
    assert(l << 8 == (l % 0x100_0000) * 256) by (bit_vector);
    assert((h << 8) | 0xFF == (h % 0x100_0000) * 256 + 255) by (bit_vector);
}

/// Feeding a byte into `code` drops the leading byte and moves the rest
/// up by a byte.
pub proof fn lemma_feed_as_arithmetic(code: u32, byte: u8)
    ensures
        (code << 8) | (byte as u32) == (code % 0x100_0000) * 256 + byte,
{
    let b: u32 = byte as u32;
    assert((code << 8) | b == (code % 0x100_0000) * 256 + b) by (bit_vector)
        requires
            b < 256,
    ;
}

} // verus!
