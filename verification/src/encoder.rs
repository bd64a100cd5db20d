//! The encoder: it narrows the coding interval symbol by symbol and sheds
//! the bytes on which both ends of the interval have come to agree.

use crate::cumulative::is_cumulative;
use crate::frequency::{wide_counts_of, EOF_SYMBOL};
use crate::interval::{
    be_bytes, full, leading_byte, lemma_shift_spreads, narrow, narrowed, settled, shed, shifted,
    Interval, RENORM_THRESHOLD,
};
use vstd::prelude::*;

verus! {

/// The state of an encoding pass: the coding interval, and the bytes
/// written so far.
pub struct RangeEncoder {
    low: u32,
    high: u32,
    out: Vec<u8>,
}

/// The symbols that a message is coded as: its bytes, and the
/// end-of-stream symbol after them.
pub open spec fn symbols(data: Seq<u8>) -> Seq<int> {
    Seq::new(
        data.len() + 1,
        |i: int|
            if i < data.len() {
                data[i] as int
            } else {
                EOF_SYMBOL as int
            },
    )
}

/// The bytes that a pass writes for the symbols `syms`, from the interval
/// `iv` on: for each symbol what renormalization sheds once the interval
/// is narrowed to the symbol's slot, and at the end the four bytes of
/// `low`.
pub open spec fn coded(iv: Interval, bounds: Seq<nat>, syms: Seq<int>) -> Seq<u8>
    decreases syms.len(),
{
    if syms.len() == 0 {
        be_bytes(iv.low)
    } else {
        shed(narrowed(iv, bounds, syms[0])) + coded(
            settled(narrowed(iv, bounds, syms[0])),
            bounds,
            syms.drop_first(),
        )
    }
}

/// What is left of a register after `n` of its bytes have been written:
/// the register shifted up by as many bytes.
pub open spec fn rest_of(x: u32, n: u32) -> u32 {
    if n == 0 {
        x
    } else if n == 1 {
        x << 8
    } else if n == 2 {
        (x << 8) << 8
    } else if n == 3 {
        ((x << 8) << 8) << 8
    } else {
        0
    }
}

impl RangeEncoder {
    /// The coding interval.
    pub closed spec fn interval(&self) -> Interval {
        Interval { low: self.low, high: self.high }
    }

    /// The bytes written so far.
    pub closed spec fn output(&self) -> Seq<u8> {
        self.out@
    }

    /// Starts a pass that writes after the bytes of `out`, with the full
    /// interval.
    pub fn new(out: Vec<u8>) -> (enc: Self)
        ensures
            enc.interval() == full(),
            enc.output() == out@,
    {
        RangeEncoder { low: 0, high: 0xFFFF_FFFF, out }
    }

    /// Codes one symbol: narrows the interval to the symbol's slot, then
    /// renormalizes it, writing the bytes that this sheds.
    pub fn encode_symbol(&mut self, symbol: u32, cumulative: &[u64])
        requires
            is_cumulative(wide_counts_of(cumulative@)),
            symbol < cumulative@.len() - 1,
        ensures
            final(self).interval() == settled(
                narrowed(old(self).interval(), wide_counts_of(cumulative@), symbol as int),
            ),
            final(self).output() == old(self).output() + shed(
                narrowed(old(self).interval(), wide_counts_of(cumulative@), symbol as int),
            ),
    {
        let slot = narrow(self.low, self.high, symbol, cumulative);
        self.low = slot.low;
        self.high = slot.high;
        while (self.low ^ self.high) < RENORM_THRESHOLD
            invariant
                settled(self.interval()) == settled(slot),
                self.out@ + shed(self.interval()) == old(self).out@ + shed(slot),
            decreases 0xFFFF_FFFF - (self.low ^ self.high),
        {
            proof {
                lemma_shift_spreads(self.low, self.high);
                assert(self.out@.push(leading_byte(self.low)) + shed(shifted(self.interval()))
                    =~= self.out@ + shed(self.interval()));
            }
            let cur: u32 = self.low;
            assert(cur >> 24 < 256) by (bit_vector);
            let byte: u8 = (cur >> 24) as u8;
            self.out.push(byte);
            self.low = cur << 8;
            self.high = (self.high << 8) | 0xFF;
        }
        assert(self.out@ + shed(self.interval()) =~= self.out@);
    }

    /// Ends the pass: writes the four bytes of `low`, most significant
    /// first, whatever the state of the interval.
    pub fn finish(&mut self)
        ensures
            final(self).output() == old(self).output() + be_bytes(old(self).interval().low),
            final(self).interval() == (Interval { low: 0, high: old(self).interval().high }),
    {
        let low: u32 = self.low;
        let mut i: u32 = 0;
        while i < 4
            invariant
                i <= 4,
                self.high == old(self).high,
                self.low == rest_of(low, i),
                self.out@ == old(self).out@ + be_bytes(low).take(i as int),
            decreases 4 - i,
        {
            let cur: u32 = self.low;
            assert(cur >> 24 < 256) by (bit_vector);
            let byte: u8 = (cur >> 24) as u8;
            self.out.push(byte);
            self.low = cur << 8;
            proof {
                assert((((low << 8) << 8) << 8) << 8 == 0) by (bit_vector);
                assert(low >> 24 == low / 0x100_0000 && low >> 24 < 256) by (bit_vector);
                assert((low << 8) >> 24 == low / 0x1_0000 % 256) by (bit_vector);
                assert(((low << 8) << 8) >> 24 == low / 0x100 % 256) by (bit_vector);
                assert((((low << 8) << 8) << 8) >> 24 == low % 256) by (bit_vector);
                assert(byte == be_bytes(low)[i as int]);
                assert(be_bytes(low).take(i + 1) =~= be_bytes(low).take(i as int).push(byte));
            }
            i = i + 1;
        }
        assert(be_bytes(low).take(4) =~= be_bytes(low));
    }

    /// The lower end of the coding interval.
    pub fn low(&self) -> (low: u32)
        ensures
            low == self.interval().low,
    {
        self.low
    }

    /// The upper end of the coding interval.
    pub fn high(&self) -> (high: u32)
        ensures
            high == self.interval().high,
    {
        self.high
    }

    /// Hands back all the bytes written.
    pub fn into_bytes(self) -> (out: Vec<u8>)
        ensures
            out@ == self.output(),
    {
        self.out
    }
}

} // verus!
