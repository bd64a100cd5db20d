//! Bits in bytes: a sequence of bits is written eight to a byte, the first
//! bit in the most significant place, and the last byte filled up with
//! zeros.

use vstd::prelude::*;

verus! {

/// The bit at place `k` of a sequence, or zero after its end.
pub open spec fn bit_or_zero(bits: Seq<bool>, k: int) -> nat {
    if 0 <= k < bits.len() && bits[k] {
        1
    } else {
        0
    }
}

/// The byte number `i` of a sequence of bits: its bits from `8 * i` on,
/// the first in the most significant place.
pub open spec fn byte_value(bits: Seq<bool>, i: int) -> nat {
    128 * bit_or_zero(bits, 8 * i) + 64 * bit_or_zero(bits, 8 * i + 1) + 32 * bit_or_zero(
        bits,
        8 * i + 2,
    ) + 16 * bit_or_zero(bits, 8 * i + 3) + 8 * bit_or_zero(bits, 8 * i + 4) + 4 * bit_or_zero(
        bits,
        8 * i + 5,
    ) + 2 * bit_or_zero(bits, 8 * i + 6) + bit_or_zero(bits, 8 * i + 7)
}

/// The bytes that hold a sequence of bits.
pub open spec fn packed(bits: Seq<bool>) -> Seq<u8> {
    Seq::new((bits.len() + 7) / 8, |i: int| byte_value(bits, i) as u8)
}

/// The weight of the bit in place `j` of a byte, the most significant
/// place being place 0.
pub open spec fn weight(j: int) -> nat {
    if j == 0 {
        128
    } else if j == 1 {
        64
    } else if j == 2 {
        32
    } else if j == 3 {
        16
    } else if j == 4 {
        8
    } else if j == 5 {
        4
    } else if j == 6 {
        2
    } else {
        1
    }
}

/// The bit at place `k` of the bits that some bytes hold, or zero after
/// the last byte.
pub open spec fn stream_bit(bytes: Seq<u8>, k: int) -> bool {
    0 <= k < 8 * bytes.len() && (bytes[k / 8] as nat / weight(k % 8)) % 2 == 1
}

/// A sequence of bits is read back from its bytes, with zeros after it.
pub proof fn lemma_packed_bit(bits: Seq<bool>, k: int)
    requires
        0 <= k,
    ensures
        stream_bit(packed(bits), k) == (k < bits.len() && bits[k]),
        packed(bits).len() == (bits.len() + 7) / 8,
{
    let i: int = k / 8;
    if k < 8 * packed(bits).len() {
        let b0: nat = bit_or_zero(bits, 8 * i);
        let b1: nat = bit_or_zero(bits, 8 * i + 1);
        let b2: nat = bit_or_zero(bits, 8 * i + 2);
        let b3: nat = bit_or_zero(bits, 8 * i + 3);
        let b4: nat = bit_or_zero(bits, 8 * i + 4);
        let b5: nat = bit_or_zero(bits, 8 * i + 5);
        let b6: nat = bit_or_zero(bits, 8 * i + 6);
        let b7: nat = bit_or_zero(bits, 8 * i + 7);
        let v: nat = byte_value(bits, i);
        assert(v == 128 * b0 + 64 * b1 + 32 * b2 + 16 * b3 + 8 * b4 + 4 * b5 + 2 * b6 + b7);
        assert(v < 256);
        assert(packed(bits)[i] == v);
        assert(v / 128 % 2 == b0);
        assert(v / 64 % 2 == b1);
        assert(v / 32 % 2 == b2);
        assert(v / 16 % 2 == b3);
        assert(v / 8 % 2 == b4);
        assert(v / 4 % 2 == b5);
        assert(v / 2 % 2 == b6);
        assert(v / 1 % 2 == b7);
        assert(k == 8 * i + k % 8);
    }
}

/// A writer of bits after some bytes: it holds back the bits of the byte
/// that is not yet full.
pub struct BitWriter {
    writer: Vec<u8>,
    buffer: u8,
    bits_in_buffer: u8,
    start: Ghost<nat>,
    bits: Ghost<Seq<bool>>,
}

impl BitWriter {
    /// All the bits written so far.
    pub closed spec fn written(&self) -> Seq<bool> {
        self.bits@
    }

    /// The bytes that were there before the first bit.
    pub closed spec fn base(&self) -> Seq<u8> {
        self.writer@.take(self.start@ as int)
    }

    /// All the bytes: those that were there before, and those that are
    /// full so far.
    pub closed spec fn bytes(&self) -> Seq<u8> {
        self.writer@
    }

    /// How many bits wait for their byte to be full.
    pub closed spec fn pending(&self) -> nat {
        self.bits_in_buffer as nat
    }

    /// What a writer keeps: the full bytes hold the bits written so far,
    /// and the buffer the bits after them.
    pub closed spec fn wf(&self) -> bool {
        &&& self.bits_in_buffer < 8
        &&& self.start@ <= self.writer@.len()
        &&& self.bits@.len() == 8 * (self.writer@.len() - self.start@) + self.bits_in_buffer
        &&& forall|i: int|
            0 <= i < self.writer@.len() - self.start@ ==> self.writer@[self.start@ + i]
                == byte_value(self.bits@, i)
        &&& self.buffer as nat * weight(self.bits_in_buffer - 1) == byte_value(
            self.bits@,
            self.writer@.len() - self.start@,
        )
    }

    /// A writer that writes after the bytes of `writer`.
    pub fn new(writer: Vec<u8>) -> (w: Self)
        ensures
            w.wf(),
            w.written() == Seq::<bool>::empty(),
            w.base() == writer@,
            w.bytes() == writer@,
            w.pending() == 0,
    {
        let ghost start: nat = writer@.len();
        assert(writer@.take(start as int) =~= writer@);
        let w = BitWriter {
            writer,
            buffer: 0,
            bits_in_buffer: 0,
            start: Ghost(start),
            bits: Ghost(Seq::empty()),
        };
        assert(w.buffer as nat * weight(w.bits_in_buffer - 1) == byte_value(
            w.bits@,
            w.writer@.len() - w.start@,
        ));
        w
    }

    /// Writes the lowest bit of `bit`.
    pub fn write_bit(&mut self, bit: u8)
        requires
            old(self).wf(),
        ensures
            final(self).wf(),
            final(self).written() == old(self).written().push(bit % 2 == 1),
            final(self).base() == old(self).base(),
            final(self).pending() == (old(self).pending() + 1) % 8,
            final(self).bytes() == old(self).base() + packed(final(self).written()).take(
                final(self).written().len() as int / 8,
            ),
    {
        let ghost before = self.bits@;
        let ghost m: int = self.writer@.len() - self.start@;
        let ghost base = self.base();
        let low: u8 = bit & 1;
        assert(low == bit % 2) by (bit_vector)
            requires
                low == bit & 1,
        ;
        proof {
            assert(self.buffer as nat * weight(self.bits_in_buffer - 1) < 256);
        }
        self.buffer = self.buffer * 2 + low;
        self.bits_in_buffer = self.bits_in_buffer + 1;
        proof {
            self.bits@ = before.push(bit % 2 == 1);
            assert forall|i: int| 0 <= i < m implies self.writer@[self.start@ + i] == byte_value(
                self.bits@,
                i,
            ) by {
                assert(byte_value(self.bits@, i) == byte_value(before, i));
            }
            assert(self.buffer as nat * weight(self.bits_in_buffer - 1) == byte_value(
                self.bits@,
                m,
            ));
        }
        if self.bits_in_buffer == 8 {
            self.writer.push(self.buffer);
            self.bits_in_buffer = 0;
            self.buffer = 0;
            assert(self.writer@.take(self.start@ as int) =~= base);
        }
        assert(self.writer@ =~= base + packed(self.bits@).take(self.bits@.len() as int / 8));
    }

    /// Fills the last byte up with zeros and writes it. After this the
    /// bytes hold all the bits written.
    pub fn flush(&mut self)
        requires
            old(self).wf(),
        ensures
            final(self).wf(),
            final(self).bytes() == old(self).base() + packed(old(self).written()),
            final(self).base() == old(self).base(),
            final(self).pending() == 0,
    {
        let ghost before = self.bits@;
        let ghost m: int = self.writer@.len() - self.start@;
        let ghost base = self.base();
        if self.bits_in_buffer > 0 {
            let mut filled: u8 = self.buffer;
            let mut n: u8 = self.bits_in_buffer;
            while n < 8
                invariant
                    0 < n <= 8,
                    filled as nat * weight(n - 1) == byte_value(before, m),
                decreases 8 - n,
            {
                filled = filled * 2;
                n = n + 1;
            }
            self.writer.push(filled);
            self.bits_in_buffer = 0;
            self.buffer = 0;
            proof {
                self.bits@ = before + Seq::new((8 * (m + 1) - before.len()) as nat, |i: int| false);
                assert forall|i: int| 0 <= i <= m implies byte_value(self.bits@, i) == byte_value(
                    before,
                    i,
                ) by {}
            }
        }
        assert(self.writer@.take(self.start@ as int) =~= base);
        assert(self.writer@ =~= base + packed(before));
    }

    /// Hands back all the bytes.
    pub fn into_bytes(self) -> (out: Vec<u8>)
        ensures
            out@ == self.bytes(),
    {
        self.writer
    }
}

/// A reader of the bits that some bytes hold.
pub struct BitReader<'a> {
    data: &'a [u8],
    pos: usize,
    current_byte: u8,
    bits_remaining: u8,
    reached_eof: bool,
}

impl<'a> BitReader<'a> {
    /// The bytes that are read.
    pub closed spec fn input(&self) -> Seq<u8> {
        self.data@
    }

    /// How many bits have been read.
    pub closed spec fn bits_read(&self) -> nat {
        (8 * self.pos - self.bits_remaining) as nat
    }

    /// Whether a bit was asked for after the last bit.
    pub closed spec fn at_end(&self) -> bool {
        self.reached_eof
    }

    /// What a reader keeps: it holds what is left of the byte that it
    /// reads from.
    pub closed spec fn wf(&self) -> bool {
        &&& self.pos <= self.data@.len()
        &&& self.bits_remaining <= 8
        &&& self.bits_remaining > 0 ==> self.pos > 0 && self.current_byte == self.data@[self.pos
            - 1]
        &&& self.reached_eof ==> self.bits_remaining == 0 && self.pos == self.data@.len()
    }

    /// A reader at the first bit of `data`.
    pub fn new(data: &'a [u8]) -> (r: Self)
        ensures
            r.wf(),
            r.input() == data@,
            r.bits_read() == 0,
            !r.at_end(),
    {
        BitReader { data, pos: 0, current_byte: 0, bits_remaining: 0, reached_eof: false }
    }

    /// Reads the next bit. After the last bit it reads a zero, and marks
    /// the reader as being at the end.
    pub fn read_bit(&mut self) -> (bit: u8)
        requires
            old(self).wf(),
        ensures
            final(self).wf(),
            final(self).input() == old(self).input(),
            bit == if stream_bit(old(self).input(), old(self).bits_read() as int) {
                1u8
            } else {
                0u8
            },
            old(self).bits_read() < 8 * old(self).input().len() ==> final(self).bits_read() == old(
                self,
            ).bits_read() + 1 && final(self).at_end() == old(self).at_end(),
            old(self).bits_read() >= 8 * old(self).input().len() ==> final(self).bits_read() == old(
                self,
            ).bits_read() && final(self).at_end(),
    {
        if self.bits_remaining == 0 {
            if self.pos < self.data.len() {
                self.current_byte = self.data[self.pos];
                self.pos = self.pos + 1;
                self.bits_remaining = 8;
            } else {
                self.reached_eof = true;
                return 0;
            }
        }
        self.bits_remaining = self.bits_remaining - 1;
        let byte: u8 = self.current_byte;
        let shift: u8 = self.bits_remaining;
        assert((byte >> shift) & 1 == (byte / (1u8 << shift)) % 2) by (bit_vector)
            requires
                shift < 8,
        ;
        assert((1u8 << shift) == weight(7 - shift)) by {
            assert(1u8 << 0u8 == 1) by (bit_vector);
            assert(1u8 << 1u8 == 2) by (bit_vector);
            assert(1u8 << 2u8 == 4) by (bit_vector);
            assert(1u8 << 3u8 == 8) by (bit_vector);
            assert(1u8 << 4u8 == 16) by (bit_vector);
            assert(1u8 << 5u8 == 32) by (bit_vector);
            assert(1u8 << 6u8 == 64) by (bit_vector);
            assert(1u8 << 7u8 == 128) by (bit_vector);
        }
        (byte >> shift) & 1
    }

    /// Whether a bit was asked for after the last bit.
    pub fn eof(&self) -> (r: bool)
        ensures
            r == self.at_end(),
    {
        self.reached_eof
    }
}

} // verus!
