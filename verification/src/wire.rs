//! The wire format of the header: a magic marker, the number of counts, and
//! the counts, each number as four bytes, least significant first.

use crate::error::{Fault, RangeError};
use crate::frequency::counts_of;
use vstd::prelude::*;

verus! {

/// The longest table that a header may declare.
pub const MAX_TABLE_LEN: u32 = 1024;

/// The marker that every stream starts with: the letters `RCNC`.
pub open spec fn magic() -> Seq<u8> {
    seq![0x52u8, 0x43u8, 0x4Eu8, 0x43u8]
}

/// The four bytes of a number under 2^32, least significant first.
pub open spec fn le_bytes(v: nat) -> Seq<u8> {
    seq![
        (v % 256) as u8,
        (v / 0x100 % 256) as u8,
        (v / 0x1_0000 % 256) as u8,
        (v / 0x100_0000 % 256) as u8,
    ]
}

/// The number that four bytes stand for, least significant first.
pub open spec fn le_value(bytes: Seq<u8>) -> nat {
    (bytes[0] + 0x100 * bytes[1] + 0x1_0000 * bytes[2] + 0x100_0000 * bytes[3]) as nat
}

/// The counts of a table, each as four bytes, one after the other.
pub open spec fn table_bytes(counts: Seq<nat>) -> Seq<u8>
    decreases counts.len(),
{
    if counts.len() == 0 {
        Seq::empty()
    } else {
        table_bytes(counts.drop_last()) + le_bytes(counts.last())
    }
}

/// The header that carries a table.
pub open spec fn header_bytes(counts: Seq<nat>) -> Seq<u8> {
    magic() + le_bytes(counts.len()) + table_bytes(counts)
}

/// The number of bytes of the header that carries `n` counts.
pub open spec fn header_len(n: nat) -> nat {
    8 + 4 * n
}

/// The number that the four bytes from `at` on stand for.
pub open spec fn word_at(input: Seq<u8>, at: int) -> nat {
    le_value(input.subrange(at, at + 4))
}

/// The table that a header carries, or the fault in it.
pub open spec fn parsed_header(input: Seq<u8>) -> Result<Seq<nat>, RangeError> {
    if input.len() < 8 {
        Err(RangeError(Fault::InputTooShort))
    } else if input.subrange(0, 4) != magic() {
        Err(RangeError(Fault::BadMagic))
    } else if word_at(input, 4) == 0 || word_at(input, 4) > MAX_TABLE_LEN {
        Err(RangeError(Fault::BadSymbolCount))
    } else if input.len() < header_len(word_at(input, 4)) {
        Err(RangeError(Fault::TruncatedFrequencies))
    } else {
        Ok(Seq::new(word_at(input, 4), |i: int| word_at(input, 8 + 4 * i)))
    }
}

/// Where reading stops in a header: at its end where it is well formed,
/// before the magic marker where that is missing, after the table length
/// where that is refused, and after the last whole count where the table
/// is cut short.
pub open spec fn parsed_len(input: Seq<u8>) -> nat {
    match parsed_header(input) {
        Ok(counts) => header_len(counts.len()),
        Err(RangeError(Fault::BadSymbolCount)) => 8,
        Err(RangeError(Fault::TruncatedFrequencies)) => (8 + 4 * ((input.len() - 8) / 4)) as nat,
        Err(_) => 0,
    }
}

/// Four bytes stand for a number under 2^32, of which they are the bytes.
pub proof fn lemma_le_bytes_of_value(bytes: Seq<u8>)
    requires
        bytes.len() == 4,
    ensures
        le_value(bytes) < 0x1_0000_0000,
        le_bytes(le_value(bytes)) == bytes,
{
    let b0: int = bytes[0] as int;
    let b1: int = bytes[1] as int;
    let b2: int = bytes[2] as int;
    let b3: int = bytes[3] as int;
    let v: int = b0 + 0x100 * b1 + 0x1_0000 * b2 + 0x100_0000 * b3;
    assert(v == le_value(bytes));
    assert(v % 256 == b0 && v / 0x100 == b1 + 0x100 * b2 + 0x1_0000 * b3);
    assert(v / 0x100 % 256 == b1);
    assert(v / 0x1_0000 == b2 + 0x100 * b3);
    assert(v / 0x1_0000 % 256 == b2);
    assert(v / 0x100_0000 == b3);
    assert(le_bytes(le_value(bytes)) =~= bytes);
}

/// The bytes of a number under 2^32 stand for that number.
pub proof fn lemma_le_value_of_bytes(v: nat)
    requires
        v < 0x1_0000_0000,
    ensures
        le_bytes(v).len() == 4,
        le_value(le_bytes(v)) == v,
{
}

/// The bytes of a table are four for each count.
pub proof fn lemma_table_bytes_len(counts: Seq<nat>)
    ensures
        table_bytes(counts).len() == 4 * counts.len(),
    decreases counts.len(),
{
    if counts.len() > 0 {
        lemma_table_bytes_len(counts.drop_last());
    }
}

/// The count at place `i` of a table stands at byte `4 * i` of its bytes.
pub proof fn lemma_table_bytes_word(counts: Seq<nat>, i: int)
    requires
        0 <= i < counts.len(),
    ensures
        table_bytes(counts).len() == 4 * counts.len(),
        table_bytes(counts).subrange(4 * i, 4 * i + 4) == le_bytes(counts[i]),
    decreases counts.len(),
{
    lemma_table_bytes_len(counts);
    lemma_table_bytes_len(counts.drop_last());
    if i < counts.len() - 1 {
        lemma_table_bytes_word(counts.drop_last(), i);
        assert(table_bytes(counts).subrange(4 * i, 4 * i + 4) =~= table_bytes(
            counts.drop_last(),
        ).subrange(4 * i, 4 * i + 4));
    } else {
        assert(table_bytes(counts).subrange(4 * i, 4 * i + 4) =~= le_bytes(counts[i]));
    }
}

/// A count under 2^32 is read back from the bytes of its table, whatever
/// stands before and after them.
pub proof fn lemma_word_after(front: Seq<u8>, counts: Seq<nat>, rest: Seq<u8>, i: int)
    requires
        0 <= i < counts.len(),
        counts[i] < 0x1_0000_0000,
    ensures
        word_at(front + table_bytes(counts) + rest, front.len() + 4 * i) == counts[i],
{
    let input = front + table_bytes(counts) + rest;
    lemma_table_bytes_word(counts, i);
    assert(input.subrange(front.len() + 4 * i, front.len() + 4 * i + 4) =~= table_bytes(
        counts,
    ).subrange(4 * i, 4 * i + 4));
    lemma_le_value_of_bytes(counts[i]);
}

/// A header is read back as the table that it carries, whatever follows
/// it, where the table has between 1 and `MAX_TABLE_LEN` counts, each
/// under 2^32.
pub proof fn lemma_header_round_trip(counts: Seq<nat>, body: Seq<u8>)
    requires
        1 <= counts.len() <= MAX_TABLE_LEN,
        forall|i: int| 0 <= i < counts.len() ==> counts[i] < 0x1_0000_0000,
    ensures
        header_bytes(counts).len() == header_len(counts.len()),
        parsed_header(header_bytes(counts) + body) == Ok::<Seq<nat>, RangeError>(counts),
        parsed_len(header_bytes(counts) + body) == header_len(counts.len()),
        (header_bytes(counts) + body).skip(header_len(counts.len()) as int) == body,
{
    let input = header_bytes(counts) + body;
    lemma_table_bytes_len(counts);
    assert(input.subrange(0, 4) =~= magic());
    assert(input.subrange(4, 8) =~= le_bytes(counts.len()));
    lemma_le_value_of_bytes(counts.len());
    let table = Seq::new(word_at(input, 4), |i: int| word_at(input, 8 + 4 * i));
    let front = magic() + le_bytes(counts.len());
    assert(input =~= front + table_bytes(counts) + body);
    assert forall|i: int| 0 <= i < counts.len() implies table[i] == counts[i] by {
        lemma_word_after(front, counts, body, i);
    }
    assert(table =~= counts);
    assert(input.skip(header_len(counts.len()) as int) =~= body);
}

/// Appends the four bytes of `v`, least significant first.
pub fn write_u32_le(out: &mut Vec<u8>, v: u32)
    ensures
        final(out)@ == old(out)@ + le_bytes(v as nat),
{
    assert(v & 0xFF == v % 256) by (bit_vector);
    assert((v >> 8) & 0xFF == v / 0x100 % 256) by (bit_vector);
    assert((v >> 16) & 0xFF == v / 0x1_0000 % 256) by (bit_vector);
    assert((v >> 24) & 0xFF == v / 0x100_0000 % 256) by (bit_vector);
    out.push((v & 0xFF) as u8);
    out.push(((v >> 8) & 0xFF) as u8);
    out.push(((v >> 16) & 0xFF) as u8);
    out.push(((v >> 24) & 0xFF) as u8);
    assert(out@ =~= old(out)@ + le_bytes(v as nat));
}

/// Reads the number that the four bytes from `*pos` on stand for, and
/// moves `*pos` past them. Where fewer than four bytes are left it reads
/// nothing and leaves `*pos` where it is.
pub fn read_u32_le(input: &[u8], pos: &mut usize) -> (r: Option<u32>)
    ensures
        r is Some <==> *old(pos) + 4 <= input@.len(),
        r matches Some(v) ==> v == word_at(input@, *old(pos) as int) && *final(pos) == *old(pos)
            + 4,
        r is None ==> *final(pos) == *old(pos),
{
    if input.len() < 4 || *pos > input.len() - 4 {
        return None;
    }
    let at: usize = *pos;
    let b0: u32 = input[at] as u32;
    let b1: u32 = input[at + 1] as u32;
    let b2: u32 = input[at + 2] as u32;
    let b3: u32 = input[at + 3] as u32;
    assert((b0 | (b1 << 8) | (b2 << 16) | (b3 << 24)) == b0 + 0x100 * b1 + 0x1_0000 * b2
        + 0x100_0000 * b3) by (bit_vector)
        requires
            b0 < 256,
            b1 < 256,
            b2 < 256,
            b3 < 256,
    ;
    let v: u32 = b0 | (b1 << 8) | (b2 << 16) | (b3 << 24);
    *pos = at + 4;
    Some(v)
}

/// Appends the header that carries the table `freq`.
pub fn write_header(out: &mut Vec<u8>, freq: &[u32])
    requires
        freq@.len() <= 0xFFFF_FFFF,
    ensures
        final(out)@ == old(out)@ + header_bytes(counts_of(freq@)),
{
    let ghost counts = counts_of(freq@);
    out.push(0x52);
    out.push(0x43);
    out.push(0x4E);
    out.push(0x43);
    write_u32_le(out, freq.len() as u32);
    assert(out@ =~= old(out)@ + magic() + le_bytes(counts.len()));
    let mut i: usize = 0;
    while i < freq.len()
        invariant
            i <= freq.len(),
            counts == counts_of(freq@),
            out@ == old(out)@ + magic() + le_bytes(counts.len()) + table_bytes(
                counts.take(i as int),
            ),
        decreases freq.len() - i,
    {
        write_u32_le(out, freq[i]);
        proof {
            assert(counts.take(i + 1).drop_last() =~= counts.take(i as int));
            assert(out@ =~= old(out)@ + magic() + le_bytes(counts.len()) + table_bytes(
                counts.take(i + 1),
            ));
        }
        i = i + 1;
    }
    assert(counts.take(i as int) =~= counts);
    assert(out@ =~= old(out)@ + header_bytes(counts));
}

/// Reads the header at the start of `input` and leaves in `*pos` the place
/// where reading stopped.
///
/// The header is refused where the input has fewer than 8 bytes, where it
/// does not start with the magic marker, where the table length is zero or
/// over `MAX_TABLE_LEN`, and where the input ends before the last count.
pub fn read_header(input: &[u8], pos: &mut usize) -> (r: Result<Vec<u32>, RangeError>)
    ensures
        match r {
            Ok(freq) => parsed_header(input@) == Ok::<Seq<nat>, RangeError>(counts_of(freq@)),
            Err(e) => parsed_header(input@) == Err::<Seq<nat>, RangeError>(e),
        },
        r is Ok ==> *final(pos) == parsed_len(input@),
        r matches Err(e) ==> *final(pos) == if e.0 == Fault::InputTooShort || e.0
            == Fault::BadMagic {
            *old(pos)
        } else {
            parsed_len(input@) as usize
        },
{
    if input.len() < 8 {
        return Err(RangeError(Fault::InputTooShort));
    }
    if input[0] != 0x52 || input[1] != 0x43 || input[2] != 0x4E || input[3] != 0x43 {
        assert(input@.subrange(0, 4)[0] == input@[0]);
        assert(input@.subrange(0, 4)[1] == input@[1]);
        assert(input@.subrange(0, 4)[2] == input@[2]);
        assert(input@.subrange(0, 4)[3] == input@[3]);
        return Err(RangeError(Fault::BadMagic));
    }
    assert(input@.subrange(0, 4) =~= magic());
    *pos = 4;
    let count: u32 = match read_u32_le(input, pos) {
        Some(v) => v,
        None => { return Err(RangeError(Fault::InputTooShort)); },
    };
    if count == 0 || count > MAX_TABLE_LEN {
        return Err(RangeError(Fault::BadSymbolCount));
    }
    let mut freq: Vec<u32> = Vec::with_capacity(count as usize);
    let mut i: u32 = 0;
    while i < count
        invariant
            0 < count <= MAX_TABLE_LEN,
            i <= count,
            input@.len() >= 8,
            input@.subrange(0, 4) == magic(),
            count == word_at(input@, 4),
            *pos == 8 + 4 * i,
            *pos <= input@.len(),
            freq@.len() == i,
            forall|j: int| 0 <= j < i ==> freq@[j] == word_at(input@, 8 + 4 * j),
        decreases count - i,
    {
        match read_u32_le(input, pos) {
            Some(v) => {
                freq.push(v);
            },
            None => {
                return Err(RangeError(Fault::TruncatedFrequencies));
            },
        }
        i = i + 1;
    }
    assert(counts_of(freq@) =~= Seq::new(
        word_at(input@, 4),
        |i: int| word_at(input@, 8 + 4 * i),
    ));
    Ok(freq)
}

} // verus!
