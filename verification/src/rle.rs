//! Run-length coding: a message as its runs of equal bytes, each run as a
//! record of five bytes, the length of the run as four bytes, least
//! significant first, and the byte that is repeated.

use crate::wire::{le_bytes, lemma_le_value_of_bytes, word_at, write_u32_le};
use vstd::prelude::*;

verus! {

/// The longest run that one record holds.
pub const MAX_RUN: u32 = 0xFFFF_FFFF;

/// Why a run-length stream was refused.
#[derive(Clone, Copy, Debug, PartialEq, Eq, Structural)]
pub enum RleError {
    /// The stream ends within the length of a run.
    TruncatedCount,
    /// A run has the length zero.
    ZeroCount,
    /// The stream ends before the byte of a run.
    MissingValue,
}

/// A run: `count` times the byte `value`.
#[derive(Clone, Copy, Debug, PartialEq, Eq, Structural)]
pub struct Run {
    pub count: u32,
    pub value: u8,
}

/// The runs of a message: each byte lengthens the run before it where it
/// is the same byte and the run is not yet of the length `MAX_RUN`, and
/// starts a run else.
pub open spec fn runs_of(data: Seq<u8>) -> Seq<Run>
    decreases data.len(),
{
    if data.len() == 0 {
        Seq::empty()
    } else {
        let before = runs_of(data.drop_last());
        if before.len() > 0 && before.last().value == data.last() && before.last().count
            < MAX_RUN {
            before.drop_last().push(
                Run { count: (before.last().count + 1) as u32, value: data.last() },
            )
        } else {
            before.push(Run { count: 1, value: data.last() })
        }
    }
}

/// The record of a run.
pub open spec fn record(run: Run) -> Seq<u8> {
    le_bytes(run.count as nat).push(run.value)
}

/// The records of some runs, one after the other.
pub open spec fn records(runs: Seq<Run>) -> Seq<u8>
    decreases runs.len(),
{
    if runs.len() == 0 {
        Seq::empty()
    } else {
        records(runs.drop_last()) + record(runs.last())
    }
}

/// The run-length stream of a message.
pub open spec fn rle_encoded(data: Seq<u8>) -> Seq<u8> {
    records(runs_of(data))
}

/// The bytes of a run.
pub open spec fn repeated(run: Run) -> Seq<u8> {
    Seq::new(run.count as nat, |i: int| run.value)
}

/// The bytes of some runs, one after the other.
pub open spec fn expanded(runs: Seq<Run>) -> Seq<u8>
    decreases runs.len(),
{
    if runs.len() == 0 {
        Seq::empty()
    } else {
        expanded(runs.drop_last()) + repeated(runs.last())
    }
}

/// The message of a run-length stream: the bytes of its records, one
/// after the other. A stream is refused where it ends within a record, or
/// holds a record of the length zero.
pub open spec fn rle_decoded(bytes: Seq<u8>) -> Result<Seq<u8>, RleError>
    decreases bytes.len(),
{
    if bytes.len() == 0 {
        Ok(Seq::empty())
    } else if bytes.len() < 4 {
        Err(RleError::TruncatedCount)
    } else if word_at(bytes, 0) == 0 {
        Err(RleError::ZeroCount)
    } else if bytes.len() < 5 {
        Err(RleError::MissingValue)
    } else {
        match rle_decoded(bytes.skip(5)) {
            Ok(rest) => Ok(
                repeated(Run { count: word_at(bytes, 0) as u32, value: bytes[4] }) + rest,
            ),
            Err(e) => Err(e),
        }
    }
}

/// The result of decoding the rest of a stream, after the bytes that were
/// decoded before it.
pub open spec fn rle_after(prefix: Seq<u8>, rest: Result<Seq<u8>, RleError>) -> Result<
    Seq<u8>,
    RleError,
> {
    match rest {
        Ok(bytes) => Ok(prefix + bytes),
        Err(e) => Err(e),
    }
}

/// The records of some runs after a first run: the record of the first,
/// then the records of the others.
pub proof fn lemma_records_front(first: Run, others: Seq<Run>)
    ensures
        records(seq![first] + others) == record(first) + records(others),
    decreases others.len(),
{
    let all = seq![first] + others;
    if others.len() == 0 {
        assert(all.drop_last() =~= Seq::<Run>::empty());
        assert(records(all.drop_last()) =~= Seq::<u8>::empty());
        assert(records(others) =~= Seq::<u8>::empty());
        assert(all.last() == first);
        assert(records(all) =~= record(first) + records(others));
    } else {
        lemma_records_front(first, others.drop_last());
        assert(all.drop_last() =~= seq![first] + others.drop_last());
        assert(records(all) =~= record(first) + records(others));
    }
}

/// The bytes of some runs after a first run: the bytes of the first, then
/// the bytes of the others.
pub proof fn lemma_expanded_front(first: Run, others: Seq<Run>)
    ensures
        expanded(seq![first] + others) == repeated(first) + expanded(others),
    decreases others.len(),
{
    let all = seq![first] + others;
    if others.len() == 0 {
        assert(all.drop_last() =~= Seq::<Run>::empty());
        assert(expanded(all.drop_last()) =~= Seq::<u8>::empty());
        assert(expanded(others) =~= Seq::<u8>::empty());
        assert(all.last() == first);
        assert(expanded(all) =~= repeated(first) + expanded(others));
    } else {
        lemma_expanded_front(first, others.drop_last());
        assert(all.drop_last() =~= seq![first] + others.drop_last());
        assert(expanded(all) =~= repeated(first) + expanded(others));
    }
}

/// The runs of a message hold at least one byte each, and their bytes,
/// one run after the other, are the message.
pub proof fn lemma_runs_expand(data: Seq<u8>)
    ensures
        forall|i: int| 0 <= i < runs_of(data).len() ==> runs_of(data)[i].count >= 1,
        expanded(runs_of(data)) == data,
        data.len() > 0 ==> runs_of(data).len() > 0 && runs_of(data).last().value == data.last(),
    decreases data.len(),
{
    if data.len() > 0 {
        let before = runs_of(data.drop_last());
        lemma_runs_expand(data.drop_last());
        if before.len() > 0 && before.last().value == data.last() && before.last().count
            < MAX_RUN {
            let longer = Run { count: (before.last().count + 1) as u32, value: data.last() };
            let runs = before.drop_last().push(longer);
            assert(runs.drop_last() =~= before.drop_last());
            assert(repeated(longer) =~= repeated(before.last()).push(data.last()));
            assert(expanded(runs) =~= expanded(before).push(data.last()));
            assert(data =~= data.drop_last().push(data.last()));
        } else {
            let runs = before.push(Run { count: 1, value: data.last() });
            assert(runs.drop_last() =~= before);
            assert(repeated(runs.last()) =~= seq![data.last()]);
            assert(expanded(runs) =~= expanded(before).push(data.last()));
            assert(data =~= data.drop_last().push(data.last()));
        }
    }
}

/// The records of runs that hold at least one byte each are decoded to
/// the bytes of the runs.
pub proof fn lemma_records_decoded(runs: Seq<Run>)
    requires
        forall|i: int| 0 <= i < runs.len() ==> runs[i].count >= 1,
    ensures
        rle_decoded(records(runs)) == Ok::<Seq<u8>, RleError>(expanded(runs)),
    decreases runs.len(),
{
    if runs.len() > 0 {
        let first = runs[0];
        let others = runs.drop_first();
        assert(runs =~= seq![first] + others);
        lemma_records_front(first, others);
        lemma_expanded_front(first, others);
        lemma_records_decoded(others);
        let bytes = records(runs);
        lemma_le_value_of_bytes(first.count as nat);
        assert(bytes.subrange(0, 4) =~= le_bytes(first.count as nat));
        assert(bytes[4] == first.value);
        assert(bytes.skip(5) =~= records(others));
    }
}

/// Round trip: every message is decoded from its run-length stream as it
/// was.
pub proof fn lemma_rle_round_trip(data: Seq<u8>)
    ensures
        rle_decoded(rle_encoded(data)) == Ok::<Seq<u8>, RleError>(data),
{
    lemma_runs_expand(data);
    lemma_records_decoded(runs_of(data));
}

/// Reads the length of the next run and moves `*pos` past it. At the end
/// of the stream there is no run to read; a stream that ends within the
/// four bytes of the length is refused.
pub fn read_u32_le(input: &[u8], pos: &mut usize) -> (r: Result<Option<u32>, RleError>)
    requires
        *old(pos) <= input@.len(),
    ensures
        *old(pos) == input@.len() ==> r == Ok::<Option<u32>, RleError>(None) && *final(pos)
            == *old(pos),
        *old(pos) < input@.len() < *old(pos) + 4 ==> r == Err::<Option<u32>, RleError>(
            RleError::TruncatedCount,
        ) && *final(pos) == *old(pos),
        *old(pos) + 4 <= input@.len() ==> r == Ok::<Option<u32>, RleError>(
            Some(word_at(input@, *old(pos) as int) as u32),
        ) && *final(pos) == *old(pos) + 4,
{
    if *pos == input.len() {
        return Ok(None);
    }
    match crate::wire::read_u32_le(input, pos) {
        Some(count) => Ok(Some(count)),
        None => Err(RleError::TruncatedCount),
    }
}

/// Encodes a message as its runs.
pub fn rle_encode_file(input: &[u8]) -> (out: Vec<u8>)
    ensures
        out@ == rle_encoded(input@),
{
    let mut out: Vec<u8> = Vec::new();
    if input.len() == 0 {
        return out;
    }
    let mut current: u8 = input[0];
    let mut count: u32 = 1;
    let mut i: usize = 1;
    proof {
        reveal_with_fuel(runs_of, 2);
        assert(input@.take(1).drop_last() =~= Seq::<u8>::empty());
        assert(runs_of(input@.take(1)) =~= seq![Run { count: 1, value: current }]);
        assert(runs_of(input@.take(1)).drop_last() =~= Seq::<Run>::empty());
    }
    while i < input.len()
        invariant
            1 <= i <= input.len(),
            runs_of(input@.take(i as int)).len() > 0,
            runs_of(input@.take(i as int)).last() == (Run { count, value: current }),
            out@ == records(runs_of(input@.take(i as int)).drop_last()),
        decreases input.len() - i,
    {
        let b: u8 = input[i];
        let ghost before = runs_of(input@.take(i as int));
        proof {
            assert(input@.take(i + 1).drop_last() =~= input@.take(i as int));
        }
        if b == current && count < MAX_RUN {
            count = count + 1;
            proof {
                assert(runs_of(input@.take(i + 1)).drop_last() =~= before.drop_last());
            }
        } else {
            write_u32_le(&mut out, count);
            out.push(current);
            current = b;
            count = 1;
            proof {
                assert(runs_of(input@.take(i + 1)).drop_last() =~= before);
                assert(out@ =~= records(before.drop_last()) + record(before.last()));
            }
        }
        i = i + 1;
    }
    write_u32_le(&mut out, count);
    out.push(current);
    proof {
        assert(input@.take(i as int) =~= input@);
        assert(out@ =~= records(runs_of(input@).drop_last()) + record(runs_of(input@).last()));
    }
    out
}

/// Decodes a run-length stream.
pub fn rle_decode_file(input: &[u8]) -> (r: Result<Vec<u8>, RleError>)
    ensures
        r matches Ok(out) ==> rle_decoded(input@) == Ok::<Seq<u8>, RleError>(out@),
        r matches Err(e) ==> rle_decoded(input@) == Err::<Seq<u8>, RleError>(e),
{
    let mut out: Vec<u8> = Vec::new();
    let mut pos: usize = 0;
    assert(input@.skip(0) =~= input@);
    assert(out@ + Seq::<u8>::empty() =~= Seq::<u8>::empty());
    loop
        invariant
            pos <= input.len(),
            rle_after(out@, rle_decoded(input@.skip(pos as int))) == rle_decoded(input@),
        decreases input.len() - pos,
    {
        let ghost rest = input@.skip(pos as int);
        let ghost so_far = out@;
        let count: u32 = match read_u32_le(input, &mut pos) {
            Ok(Some(count)) => count,
            Ok(None) => {
                assert(so_far + Seq::<u8>::empty() =~= so_far);
                return Ok(out);
            },
            Err(e) => { return Err(e); },
        };
        assert(rest.subrange(0, 4) =~= input@.subrange(pos - 4, pos as int));
        if count == 0 {
            return Err(RleError::ZeroCount);
        }
        if pos == input.len() {
            return Err(RleError::MissingValue);
        }
        let value: u8 = input[pos];
        pos = pos + 1;
        let ghost run = Run { count, value };
        assert(rest[4] == value);
        assert(rest.skip(5) =~= input@.skip(pos as int));
        let mut remaining: u32 = count;
        while remaining > 0
            invariant
                remaining <= count,
                out@ == so_far + repeated(run).take(count - remaining),
                run == (Run { count, value }),
            decreases remaining,
        {
            out.push(value);
            remaining = remaining - 1;
            proof {
                assert(repeated(run).take(count - remaining) =~= repeated(run).take(
                    count - remaining - 1,
                ).push(value));
            }
        }
        proof {
            assert(repeated(run).take(count as int) =~= repeated(run));
            let tail = rle_decoded(input@.skip(pos as int));
            if tail is Ok {
                assert(out@ + tail->Ok_0 =~= so_far + (repeated(run) + tail->Ok_0));
            }
        }
    }
}

} // verus!
