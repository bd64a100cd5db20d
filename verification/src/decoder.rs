//! The decoder: it follows the encoder's interval, and tells each symbol
//! from the place in the interval of the `code` register, which holds the
//! four bytes of the stream that the encoder had not yet shed.

use crate::cumulative::{
    find_symbol, is_cumulative, is_symbol_at, lemma_symbol_at_exists, symbol_at,
};
use crate::error::{Fault, RangeError};
use crate::frequency::{wide_counts_of, EOF_SYMBOL, SYMBOL_LIMIT};
use crate::interval::{
    lemma_share_bounds, lemma_shift_spreads, narrow, narrowed, share, shifted, slot_end,
    slot_start, unsettled, width, Interval, RENORM_THRESHOLD,
};
use vstd::prelude::*;

verus! {

/// The state of a decoding pass over some bytes.
pub struct Reading {
    /// The coding interval.
    pub interval: Interval,
    /// The four bytes of the stream that were read last.
    pub code: u32,
    /// How many bytes of the stream have been read.
    pub pos: nat,
    /// Whether a byte was asked for after the last byte of the stream.
    pub starved: bool,
}

/// The state before any byte is read.
pub open spec fn unread() -> Reading {
    Reading { interval: crate::interval::full(), code: 0, pos: 0, starved: false }
}

/// What keeps a state in order: `code` lies in the interval, and no more
/// bytes were read than there are.
pub open spec fn in_order(st: Reading, data: Seq<u8>) -> bool {
    &&& st.interval.low <= st.code <= st.interval.high
    &&& st.pos <= data.len()
}

/// The byte that is read next: the next byte of the stream, or zero after
/// its end.
pub open spec fn next_byte(st: Reading, data: Seq<u8>) -> u8 {
    if st.pos < data.len() {
        data[st.pos as int]
    } else {
        0
    }
}

/// The state after a byte was read: one byte further in the stream, or
/// starved at its end.
pub open spec fn after_read(st: Reading, data: Seq<u8>) -> Reading {
    if st.pos < data.len() {
        Reading { pos: st.pos + 1, ..st }
    } else {
        Reading { starved: true, ..st }
    }
}

/// The state after the next byte was read and moved into `code` at the low
/// end, the leading byte of `code` dropping out.
pub open spec fn fed(st: Reading, data: Seq<u8>) -> Reading {
    Reading { code: (st.code << 8) | (next_byte(st, data) as u32), ..after_read(st, data) }
}

/// The state at the start of a pass: the full interval, and `code` filled
/// with the first four bytes.
pub open spec fn primed(data: Seq<u8>) -> Reading {
    fed(fed(fed(fed(unread(), data), data), data), data)
}

/// The value by which the next symbol is found: where `code` lies in the
/// interval, scaled to the total of the table.
pub open spec fn target(st: Reading, bounds: Seq<nat>) -> nat {
    (((st.code - st.interval.low + 1) * bounds.last() - 1) / width(st.interval)) as nat
}

/// The next symbol: the one whose slot holds the target.
pub open spec fn next_symbol(st: Reading, bounds: Seq<nat>) -> int {
    symbol_at(bounds, target(st, bounds))
}

/// A state renormalized: at each step the interval is shifted and the
/// next byte fed into `code`.
pub open spec fn resettled(st: Reading, data: Seq<u8>) -> Reading
    decreases 0xFFFF_FFFF - (st.interval.low ^ st.interval.high),
{
    if unsettled(st.interval) {
        proof {
            lemma_shift_spreads(st.interval.low, st.interval.high);
        }
        resettled(fed(Reading { interval: shifted(st.interval), ..st }, data), data)
    } else {
        st
    }
}

/// The state after the next symbol was decoded: the interval narrowed to
/// the symbol's slot, and the whole renormalized.
pub open spec fn advanced(st: Reading, bounds: Seq<nat>, data: Seq<u8>) -> Reading {
    resettled(
        Reading { interval: narrowed(st.interval, bounds, next_symbol(st, bounds)), ..st },
        data,
    )
}

/// For a divisor over zero, `q` is at most the quotient of `x` where
/// `q` times the divisor is at most `x`.
pub proof fn lemma_quotient_at_least(x: int, d: int, q: int)
    by (nonlinear_arith)
    requires
        d > 0,
    ensures
        q <= x / d <==> q * d <= x,
{
}

/// The share under a bound `c` is at most an offset `o` exactly where `c`
/// is at most the target that belongs to `o`.
pub proof fn lemma_share_meets_target(w: int, t: int, o: int, c: int)
    requires
        w > 0,
        t > 0,
    ensures
        share(w, c, t) <= o <==> c <= ((o + 1) * t - 1) / w,
{
    lemma_quotient_at_least(w * c, t, o + 1);
    lemma_quotient_at_least((o + 1) * t - 1, w, c);
    assert(c * w == w * c) by (nonlinear_arith);
}

/// The target of a state in order is under the total, and the slot of the
/// symbol found by it holds `code`.
pub proof fn lemma_next_symbol_holds_code(st: Reading, bounds: Seq<nat>)
    requires
        is_cumulative(bounds),
        st.interval.low <= st.code <= st.interval.high,
    ensures
        target(st, bounds) < bounds.last(),
        0 <= next_symbol(st, bounds) < bounds.len() - 1,
        is_symbol_at(bounds, target(st, bounds), next_symbol(st, bounds)),
        bounds[next_symbol(st, bounds)] <= target(st, bounds) < bounds[next_symbol(st, bounds)
            + 1],
        0 <= slot_start(st.interval, bounds, next_symbol(st, bounds)) <= st.code
            - st.interval.low < slot_end(st.interval, bounds, next_symbol(st, bounds)) <= width(
            st.interval,
        ),
        narrowed(st.interval, bounds, next_symbol(st, bounds)).low == st.interval.low
            + slot_start(st.interval, bounds, next_symbol(st, bounds)),
        narrowed(st.interval, bounds, next_symbol(st, bounds)).high == st.interval.low
            + slot_end(st.interval, bounds, next_symbol(st, bounds)) - 1,
{
    let w: int = width(st.interval);
    let t: int = bounds.last() as int;
    let o: int = st.code - st.interval.low;
    let v: int = ((o + 1) * t - 1) / w;
    let s: int = next_symbol(st, bounds);
    assert(w == st.interval.high - st.interval.low + 1);
    // the target lies under the total
    lemma_share_meets_target(w, t, o, t);
    assert(share(w, t, t) == w) by (nonlinear_arith)
        requires
            t > 0,
    ;
    lemma_share_meets_target(w, t, o, 0);
    assert(share(w, 0, t) == 0) by (nonlinear_arith)
        requires
            t > 0,
    ;
    assert(0 <= v < t);
    lemma_symbol_at_exists(bounds, v as nat);
    assert(bounds[s + 1] <= bounds.last());
    assert(v < bounds[s + 1]);
    lemma_share_meets_target(w, t, o, bounds[s] as int);
    lemma_share_meets_target(w, t, o, bounds[s + 1] as int);
    lemma_share_bounds(w, bounds[s] as int, t);
    lemma_share_bounds(w, bounds[s + 1] as int, t);
}

/// Renormalization keeps a state in order, reads on in the stream, and,
/// where it has a step to make, moves on in the stream or starves.
pub proof fn lemma_resettled_in_order(st: Reading, data: Seq<u8>)
    requires
        in_order(st, data),
    ensures
        in_order(resettled(st, data), data),
        !unsettled(resettled(st, data).interval),
        resettled(st, data).pos >= st.pos,
        st.starved ==> resettled(st, data).starved,
        unsettled(st.interval) ==> resettled(st, data).pos > st.pos || resettled(
            st,
            data,
        ).starved,
        !unsettled(st.interval) ==> resettled(st, data) == st,
    decreases 0xFFFF_FFFF - (st.interval.low ^ st.interval.high),
{
    if unsettled(st.interval) {
        lemma_shift_spreads(st.interval.low, st.interval.high);
        let next = fed(Reading { interval: shifted(st.interval), ..st }, data);
        lemma_shift_keeps_order(st.interval.low, st.interval.high, st.code, next_byte(st, data));
        lemma_resettled_in_order(next, data);
    }
}

/// A step of renormalization keeps `code` in the interval, whatever byte
/// is fed.
pub proof fn lemma_shift_keeps_order(low: u32, high: u32, code: u32, byte: u8)
    requires
        (low ^ high) < RENORM_THRESHOLD,
        low <= code <= high,
    ensures
        (low << 8) <= ((code << 8) | (byte as u32)) <= ((high << 8) | 0xFF),
{
    let b: u32 = byte as u32;
    assert((low << 8) <= ((code << 8) | b) <= ((high << 8) | 0xFF)) by (bit_vector)
        requires
            (low ^ high) < 0x0100_0000u32,
            low <= code <= high,
            b < 256,
    ;
}

/// Decoding a symbol keeps a state in order.
pub proof fn lemma_advanced_in_order(st: Reading, bounds: Seq<nat>, data: Seq<u8>)
    requires
        is_cumulative(bounds),
        in_order(st, data),
    ensures
        in_order(advanced(st, bounds, data), data),
        !unsettled(advanced(st, bounds, data).interval),
{
    lemma_next_symbol_holds_code(st, bounds);
    let slot = Reading { interval: narrowed(st.interval, bounds, next_symbol(st, bounds)), ..st };
    lemma_resettled_in_order(slot, data);
}

/// Whether the bounds are those of the coder's alphabet and give the
/// end-of-stream symbol a slot, so that a stream under them can end.
pub open spec fn can_end(bounds: Seq<nat>) -> bool {
    &&& is_cumulative(bounds)
    &&& bounds.len() == SYMBOL_LIMIT + 1
    &&& bounds[EOF_SYMBOL as int] < bounds[SYMBOL_LIMIT as int]
}

/// A share under a bound that is under the total is under the width.
pub proof fn lemma_share_under_width(w: int, c: int, t: int)
    by (nonlinear_arith)
    requires
        w > 0,
        0 <= c < t,
    ensures
        share(w, c, t) < w,
{
}

/// Decoding a symbol that is not the end-of-stream symbol makes
/// progress: the state moves on in the stream, or starves, or its interval
/// loses width.
pub proof fn lemma_advanced_progress(st: Reading, bounds: Seq<nat>, data: Seq<u8>)
    requires
        in_order(st, data),
        can_end(bounds),
        !st.starved,
        next_symbol(st, bounds) != EOF_SYMBOL,
    ensures
        in_order(advanced(st, bounds, data), data),
        advanced(st, bounds, data).pos >= st.pos,
        advanced(st, bounds, data).pos > st.pos || advanced(st, bounds, data).starved || width(
            advanced(st, bounds, data).interval,
        ) < width(st.interval),
{
    let s: int = next_symbol(st, bounds);
    lemma_next_symbol_holds_code(st, bounds);
    lemma_advanced_in_order(st, bounds, data);
    let slot = Reading { interval: narrowed(st.interval, bounds, s), ..st };
    lemma_resettled_in_order(slot, data);
    assert(bounds[s + 1] <= bounds[EOF_SYMBOL as int]);
    lemma_share_under_width(width(st.interval), bounds[s + 1] as int, bounds.last() as int);
}

/// The bytes that a pass decodes from the state `st` on, up to the
/// end-of-stream symbol. The pass fails where a symbol is to be decoded
/// and the state is starved.
pub open spec fn unpacked(st: Reading, bounds: Seq<nat>, data: Seq<u8>) -> Result<
    Seq<u8>,
    RangeError,
>
    decreases data.len() - st.pos, (if st.starved {
            0int
        } else {
            1int
        }), width(st.interval),
    when in_order(st, data) && can_end(bounds)
    via unpacked_decreases
{
    if st.starved {
        Err(RangeError(Fault::MissingEndOfStream))
    } else if next_symbol(st, bounds) == EOF_SYMBOL {
        Ok(Seq::empty())
    } else {
        match unpacked(advanced(st, bounds, data), bounds, data) {
            Ok(rest) => Ok(seq![next_symbol(st, bounds) as u8] + rest),
            Err(e) => Err(e),
        }
    }
}

#[via_fn]
proof fn unpacked_decreases(st: Reading, bounds: Seq<nat>, data: Seq<u8>) {
    if !st.starved && next_symbol(st, bounds) != EOF_SYMBOL {
        lemma_advanced_progress(st, bounds, data);
    }
}

/// The state of a decoding pass over the bytes `data`.
pub struct RangeDecoder<'a> {
    low: u32,
    high: u32,
    code: u32,
    data: &'a [u8],
    pos: usize,
    starved: bool,
}

impl<'a> RangeDecoder<'a> {
    /// The state of the pass.
    pub closed spec fn state(&self) -> Reading {
        Reading {
            interval: Interval { low: self.low, high: self.high },
            code: self.code,
            pos: self.pos as nat,
            starved: self.starved,
        }
    }

    /// The bytes that the pass reads.
    pub closed spec fn input(&self) -> Seq<u8> {
        self.data@
    }

    /// Whether the state is in order; every function here keeps it so.
    pub open spec fn wf(&self) -> bool {
        in_order(self.state(), self.input())
    }

    /// Starts a pass over `data`: the full interval, and `code` filled with
    /// the first four bytes, zeros standing in for bytes that are missing.
    pub fn new(data: &'a [u8]) -> (dec: Self)
        ensures
            dec.wf(),
            dec.input() == data@,
            dec.state() == primed(data@),
    {
        let mut dec =
            RangeDecoder { low: 0, high: 0xFFFF_FFFF, code: 0, data, pos: 0, starved: false };
        let b0: u32 = dec.read_byte() as u32;
        dec.code = (dec.code << 8) | b0;
        let b1: u32 = dec.read_byte() as u32;
        dec.code = (dec.code << 8) | b1;
        let b2: u32 = dec.read_byte() as u32;
        dec.code = (dec.code << 8) | b2;
        let b3: u32 = dec.read_byte() as u32;
        dec.code = (dec.code << 8) | b3;
        dec
    }

    /// The lower end of the coding interval.
    pub fn low(&self) -> (low: u32)
        ensures
            low == self.state().interval.low,
    {
        self.low
    }

    /// The upper end of the coding interval.
    pub fn high(&self) -> (high: u32)
        ensures
            high == self.state().interval.high,
    {
        self.high
    }

    /// The four bytes of the stream that were read last.
    pub fn code(&self) -> (code: u32)
        ensures
            code == self.state().code,
    {
        self.code
    }

    /// How many bytes of the stream have been read.
    pub fn position(&self) -> (pos: usize)
        ensures
            pos == self.state().pos,
    {
        self.pos
    }

    /// Whether a byte was asked for after the last byte of the stream.
    pub fn is_starved(&self) -> (starved: bool)
        ensures
            starved == self.state().starved,
    {
        self.starved
    }

    /// Reads the next byte of the stream; after its end, reads a zero and
    /// marks the pass as starved.
    pub fn read_byte(&mut self) -> (b: u8)
        requires
            old(self).state().pos <= old(self).input().len(),
        ensures
            b == next_byte(old(self).state(), old(self).input()),
            final(self).state() == after_read(old(self).state(), old(self).input()),
            final(self).input() == old(self).input(),
    {
        if self.pos < self.data.len() {
            let b: u8 = self.data[self.pos];
            self.pos += 1;
            b
        } else {
            self.starved = true;
            0
        }
    }

    /// Decodes one symbol: finds the symbol whose slot holds `code`,
    /// narrows the interval to that slot, and renormalizes, feeding a byte
    /// of the stream into `code` at each step.
    pub fn decode_symbol(&mut self, cumulative: &[u64]) -> (symbol: u32)
        requires
            old(self).wf(),
            is_cumulative(wide_counts_of(cumulative@)),
            cumulative@.len() <= 0xFFFF_FFFF,
        ensures
            final(self).wf(),
            final(self).input() == old(self).input(),
            symbol == next_symbol(old(self).state(), wide_counts_of(cumulative@)),
            final(self).state() == advanced(
                old(self).state(),
                wide_counts_of(cumulative@),
                old(self).input(),
            ),
    {
        let ghost bounds = wide_counts_of(cumulative@);
        let ghost st = self.state();
        proof {
            lemma_next_symbol_holds_code(st, bounds);
        }
        let range: u64 = (self.high - self.low) as u64 + 1;
        let total: u64 = cumulative[cumulative.len() - 1];
        let offset: u64 = (self.code - self.low) as u64;
        assert((offset + 1) * total <= 0x1_0000_0000 * 0xFFFF_FFFF_FFFF_FFFF) by (nonlinear_arith)
            requires
                offset + 1 <= 0x1_0000_0000,
                total <= 0xFFFF_FFFF_FFFF_FFFF,
        ;
        assert((offset + 1) * total >= 1) by (nonlinear_arith)
            requires
                offset >= 0,
                total >= 1,
        ;
        let value: u128 = ((offset as u128 + 1) * (total as u128) - 1) / (range as u128);
        assert(value == target(st, bounds));
        let symbol: u32 = find_symbol(cumulative, value as u64);
        let slot = narrow(self.low, self.high, symbol, cumulative);
        self.low = slot.low;
        self.high = slot.high;
        let ghost narrowed_state = self.state();
        proof {
            lemma_resettled_in_order(narrowed_state, self.input());
        }
        while (self.low ^ self.high) < RENORM_THRESHOLD
            invariant
                self.wf(),
                self.input() == old(self).input(),
                resettled(self.state(), self.input()) == resettled(
                    narrowed_state,
                    old(self).input(),
                ),
            decreases 0xFFFF_FFFF - (self.low ^ self.high),
        {
            proof {
                lemma_shift_spreads(self.low, self.high);
                lemma_shift_keeps_order(
                    self.low,
                    self.high,
                    self.code,
                    next_byte(self.state(), self.input()),
                );
            }
            self.low = self.low << 8;
            self.high = (self.high << 8) | 0xFF;
            let b: u32 = self.read_byte() as u32;
            self.code = (self.code << 8) | b;
        }
        symbol
    }
}

} // verus!
