//! The coding interval: a pair of 32-bit registers `low` and `high`, how a
//! symbol narrows it to the symbol's share, and how it is renormalized once
//! both registers agree in their leading byte.

use crate::cumulative::is_cumulative;
use crate::frequency::wide_counts_of;
use vstd::prelude::*;

verus! {

/// Renormalization goes on while `low ^ high` is under this threshold, that
/// is while `low` and `high` have the same leading byte.
pub const RENORM_THRESHOLD: u32 = 0x0100_0000;

/// The coding interval, both ends included.
#[derive(Clone, Copy, Debug, PartialEq, Eq, Structural)]
pub struct Interval {
    pub low: u32,
    pub high: u32,
}

/// The interval that every pass starts from: all 32-bit values.
pub open spec fn full() -> Interval {
    Interval { low: 0, high: 0xFFFF_FFFF }
}

/// The number of values in an interval, `high - low + 1`, the difference
/// taken as the 32-bit registers hold it.
pub open spec fn width(iv: Interval) -> int {
    (iv.high - iv.low) % 0x1_0000_0000 + 1
}

/// The part of a width that lies under the bound `c` of the total `t`,
/// rounded down.
pub open spec fn share(w: int, c: int, t: int) -> int {
    w * c / t
}

/// How far over `low` the slot of the symbol `s` starts.
pub open spec fn slot_start(iv: Interval, bounds: Seq<nat>, s: int) -> int {
    share(width(iv), bounds[s] as int, bounds.last() as int)
}

/// How far over `low` the slot of the symbol after `s` starts.
pub open spec fn slot_end(iv: Interval, bounds: Seq<nat>, s: int) -> int {
    share(width(iv), bounds[s + 1] as int, bounds.last() as int)
}

/// The interval narrowed to the slot of the symbol `s`: from
/// `low + slot_start` to `low + slot_end - 1`, both as 32-bit registers
/// hold them.
pub open spec fn narrowed(iv: Interval, bounds: Seq<nat>, s: int) -> Interval {
    Interval {
        low: ((iv.low + slot_start(iv, bounds, s)) % 0x1_0000_0000) as u32,
        high: ((iv.low + slot_end(iv, bounds, s) - 1) % 0x1_0000_0000) as u32,
    }
}

/// Whether the slot of `s` holds a value: the interval is in order and the
/// slot does not end where it starts. A symbol can be told from the others
/// only where this holds.
pub open spec fn slot_holds(iv: Interval, bounds: Seq<nat>, s: int) -> bool {
    iv.low <= iv.high && slot_start(iv, bounds, s) < slot_end(iv, bounds, s)
}

/// Whether an interval is to be renormalized: `low` and `high` have the
/// same leading byte.
pub open spec fn unsettled(iv: Interval) -> bool {
    (iv.low ^ iv.high) < RENORM_THRESHOLD
}

/// The leading byte of a register.
pub open spec fn leading_byte(x: u32) -> u8 {
    (x >> 24) as u8
}

/// An interval after one step of renormalization: both registers lose
/// their leading byte, `low` gets a zero byte at its end and `high` a byte
/// of ones.
pub open spec fn shifted(iv: Interval) -> Interval {
    Interval { low: iv.low << 8, high: (iv.high << 8) | 0xFF }
}

/// An interval after renormalization.
pub open spec fn settled(iv: Interval) -> Interval
    decreases 0xFFFF_FFFF - (iv.low ^ iv.high),
{
    if unsettled(iv) {
        proof {
            lemma_shift_spreads(iv.low, iv.high);
        }
        settled(shifted(iv))
    } else {
        iv
    }
}

/// The bytes that renormalization sheds: the leading byte of `low` at each
/// step.
pub open spec fn shed(iv: Interval) -> Seq<u8>
    decreases 0xFFFF_FFFF - (iv.low ^ iv.high),
{
    if unsettled(iv) {
        proof {
            lemma_shift_spreads(iv.low, iv.high);
        }
        seq![leading_byte(iv.low)] + shed(shifted(iv))
    } else {
        Seq::empty()
    }
}

/// The four bytes of a register, most significant first.
pub open spec fn be_bytes(x: u32) -> Seq<u8> {
    seq![
        (x / 0x100_0000) as u8,
        (x / 0x1_0000 % 256) as u8,
        (x / 0x100 % 256) as u8,
        (x % 256) as u8,
    ]
}

/// A step of renormalization moves the place where `low` and `high` first
/// differ up by a byte, so renormalization ends.
pub proof fn lemma_shift_spreads(low: u32, high: u32)
    ensures
        (low ^ high) < RENORM_THRESHOLD ==> ((low << 8) ^ ((high << 8) | 0xFF)) > (low ^ high),
{
    assert((low ^ high) < 0x0100_0000u32 ==> ((low << 8) ^ ((high << 8) | 0xFF)) > (low ^ high))
        by (bit_vector);
}

/// The share of a width under a bound lies between nothing and the width.
pub proof fn lemma_share_bounds(w: int, c: int, t: int)
    by (nonlinear_arith)
    requires
        0 <= w,
        0 <= c <= t,
        0 < t,
    ensures
        0 <= share(w, c, t) <= w,
{
}

/// Narrows the interval from `low` to `high` to the slot of `symbol`.
pub fn narrow(low: u32, high: u32, symbol: u32, cumulative: &[u64]) -> (r: Interval)
    requires
        is_cumulative(wide_counts_of(cumulative@)),
        symbol < cumulative@.len() - 1,
    ensures
        r == narrowed(Interval { low, high }, wide_counts_of(cumulative@), symbol as int),
{
    let ghost bounds = wide_counts_of(cumulative@);
    let ghost iv = Interval { low, high };
    let range: u64 = high.wrapping_sub(low) as u64 + 1;
    let total: u64 = cumulative[cumulative.len() - 1];
    let sym_low: u64 = cumulative[symbol as usize];
    let sym_high: u64 = cumulative[symbol as usize + 1];
    proof {
        assert(range == width(iv));
        assert(bounds[symbol as int] <= bounds[symbol + 1] <= bounds.last());
        lemma_share_bounds(range as int, sym_low as int, total as int);
        lemma_share_bounds(range as int, sym_high as int, total as int);
        assert(range * sym_low <= 0x1_0000_0000 * 0xFFFF_FFFF_FFFF_FFFF) by (nonlinear_arith)
            requires
                range <= 0x1_0000_0000,
                sym_low <= 0xFFFF_FFFF_FFFF_FFFF,
        ;
        assert(range * sym_high <= 0x1_0000_0000 * 0xFFFF_FFFF_FFFF_FFFF) by (nonlinear_arith)
            requires
                range <= 0x1_0000_0000,
                sym_high <= 0xFFFF_FFFF_FFFF_FFFF,
        ;
    }
    let start: u128 = (range as u128 * sym_low as u128) / (total as u128);
    let end: u128 = (range as u128 * sym_high as u128) / (total as u128);
    assert(start == slot_start(iv, bounds, symbol as int));
    assert(end == slot_end(iv, bounds, symbol as int));
    let new_low: u64 = (low as u64 + start as u64) % 0x1_0000_0000;
    let new_high: u64 = (low as u64 + end as u64 + 0xFFFF_FFFF) % 0x1_0000_0000;
    Interval { low: new_low as u32, high: new_high as u32 }
}

/// Tells whether the slot of `symbol` in the interval from `low` to `high`
/// holds a value.
pub fn slot_has_value(low: u32, high: u32, symbol: u32, cumulative: &[u64]) -> (r: bool)
    requires
        is_cumulative(wide_counts_of(cumulative@)),
        symbol < cumulative@.len() - 1,
    ensures
        r == slot_holds(Interval { low, high }, wide_counts_of(cumulative@), symbol as int),
{
    if low > high {
        return false;
    }
    let ghost bounds = wide_counts_of(cumulative@);
    let ghost iv = Interval { low, high };
    let range: u64 = (high - low) as u64 + 1;
    let total: u64 = cumulative[cumulative.len() - 1];
    let sym_low: u64 = cumulative[symbol as usize];
    let sym_high: u64 = cumulative[symbol as usize + 1];
    proof {
        assert(range == width(iv));
        assert(range * sym_low <= 0x1_0000_0000 * 0xFFFF_FFFF_FFFF_FFFF) by (nonlinear_arith)
            requires
                range <= 0x1_0000_0000,
                sym_low <= 0xFFFF_FFFF_FFFF_FFFF,
        ;
        assert(range * sym_high <= 0x1_0000_0000 * 0xFFFF_FFFF_FFFF_FFFF) by (nonlinear_arith)
            requires
                range <= 0x1_0000_0000,
                sym_high <= 0xFFFF_FFFF_FFFF_FFFF,
        ;
    }
    let start: u128 = (range as u128 * sym_low as u128) / (total as u128);
    let end: u128 = (range as u128 * sym_high as u128) / (total as u128);
    start < end
}

/// Renormalizes the interval from `low` to `high`.
pub fn settle(low: u32, high: u32) -> (r: Interval)
    ensures
        r == settled(Interval { low, high }),
{
    let mut low: u32 = low;
    let mut high: u32 = high;
    let ghost start = Interval { low, high };
    while (low ^ high) < RENORM_THRESHOLD
        invariant
            settled(Interval { low, high }) == settled(start),
        decreases 0xFFFF_FFFF - (low ^ high),
    {
        proof {
            lemma_shift_spreads(low, high);
        }
        low = low << 8;
        high = (high << 8) | 0xFF;
    }
    Interval { low, high }
}

} // verus!
