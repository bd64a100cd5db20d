//! What happens to a stream that was cut short or whose header was
//! damaged: it is refused, never decoded to something else.

use crate::codec::decoded;
use crate::cumulative::cumulative;
use crate::decoder::{
    advanced, can_end, fed, in_order, lemma_advanced_progress, next_symbol, primed, resettled,
    unpacked, unread, Reading,
};
use crate::error::{kind_of, ErrorKind, Fault, RangeError};
use crate::frequency::{EOF_SYMBOL, SYMBOL_LIMIT};
use crate::interval::{lemma_shift_spreads, narrowed, shifted, unsettled, width};
use crate::wire::{header_len, magic, parsed_header, word_at};
use vstd::prelude::*;

verus! {

/// How many bytes a pass has read when it decodes the end-of-stream
/// symbol, or when it is to decode a symbol and is starved.
pub open spec fn reach(st: Reading, bounds: Seq<nat>, data: Seq<u8>) -> nat
    decreases data.len() - st.pos, (if st.starved {
            0int
        } else {
            1int
        }), width(st.interval),
    when in_order(st, data) && can_end(bounds)
    via reach_decreases
{
    if st.starved || next_symbol(st, bounds) == EOF_SYMBOL {
        st.pos
    } else {
        reach(advanced(st, bounds, data), bounds, data)
    }
}

#[via_fn]
proof fn reach_decreases(st: Reading, bounds: Seq<nat>, data: Seq<u8>) {
    if !st.starved && next_symbol(st, bounds) != EOF_SYMBOL {
        lemma_advanced_progress(st, bounds, data);
    }
}

/// How many bytes of a stream that decodes are read when the
/// end-of-stream symbol is decoded: the header, and what the pass over
/// the body has read by then.
pub open spec fn stream_end(input: Seq<u8>) -> nat {
    let counts = parsed_header(input)->Ok_0;
    let body = input.skip(header_len(counts.len()) as int);
    header_len(counts.len()) + reach(primed(body), cumulative(counts), body)
}

/// A pass that ends well is not starved before it ends, and has read at
/// least what was read before it.
pub proof fn lemma_reach_from(st: Reading, bounds: Seq<nat>, data: Seq<u8>)
    requires
        in_order(st, data),
        can_end(bounds),
        unpacked(st, bounds, data) is Ok,
    ensures
        !st.starved,
        st.pos <= reach(st, bounds, data) <= data.len(),
    decreases data.len() - st.pos, (if st.starved {
            0int
        } else {
            1int
        }), width(st.interval),
{
    if !st.starved && next_symbol(st, bounds) != EOF_SYMBOL {
        lemma_advanced_progress(st, bounds, data);
        lemma_reach_from(advanced(st, bounds, data), bounds, data);
    }
}

/// Renormalization over a stream that was cut at `m` bytes: where the
/// whole stream gives it all its bytes within the first `m`, the cut makes
/// no difference; else the cut starves it.
pub proof fn lemma_resettled_cut(st: Reading, data: Seq<u8>, m: int)
    requires
        st.pos <= m <= data.len(),
        !resettled(st, data).starved,
    ensures
        resettled(st, data).pos <= m ==> resettled(st, data.take(m)) == resettled(st, data),
        resettled(st, data).pos > m ==> resettled(st, data.take(m)).starved,
    decreases 0xFFFF_FFFF - (st.interval.low ^ st.interval.high),
{
    if unsettled(st.interval) {
        lemma_shift_spreads(st.interval.low, st.interval.high);
        let moved = Reading { interval: shifted(st.interval), ..st };
        let whole = fed(moved, data);
        let cut = fed(moved, data.take(m));
        lemma_resettled_starved(whole, data);
        if st.pos < m {
            assert(whole == cut);
            lemma_resettled_cut(whole, data, m);
        } else {
            lemma_resettled_starved(cut, data.take(m));
            lemma_resettled_pos(whole, data);
        }
    }
}

/// Renormalization leaves a starved state starved.
pub proof fn lemma_resettled_starved(st: Reading, data: Seq<u8>)
    ensures
        st.starved ==> resettled(st, data).starved,
    decreases 0xFFFF_FFFF - (st.interval.low ^ st.interval.high),
{
    if unsettled(st.interval) {
        lemma_shift_spreads(st.interval.low, st.interval.high);
        lemma_resettled_starved(fed(Reading { interval: shifted(st.interval), ..st }, data), data);
    }
}

/// Renormalization never moves back in the stream.
pub proof fn lemma_resettled_pos(st: Reading, data: Seq<u8>)
    ensures
        resettled(st, data).pos >= st.pos,
    decreases 0xFFFF_FFFF - (st.interval.low ^ st.interval.high),
{
    if unsettled(st.interval) {
        lemma_shift_spreads(st.interval.low, st.interval.high);
        lemma_resettled_pos(fed(Reading { interval: shifted(st.interval), ..st }, data), data);
    }
}

/// A pass over a stream that was cut at `m` bytes, where the pass over the
/// whole stream ends well: it ends as well where the cut leaves what is
/// read up to the end-of-stream symbol, and fails else.
pub proof fn lemma_unpacked_cut(st: Reading, bounds: Seq<nat>, data: Seq<u8>, m: int)
    requires
        in_order(st, data),
        can_end(bounds),
        st.pos <= m <= data.len(),
        unpacked(st, bounds, data) is Ok,
    ensures
        m >= reach(st, bounds, data) ==> unpacked(st, bounds, data.take(m)) == unpacked(
            st,
            bounds,
            data,
        ),
        m < reach(st, bounds, data) ==> unpacked(st, bounds, data.take(m)) == Err::<
            Seq<u8>,
            RangeError,
        >(RangeError(Fault::MissingEndOfStream)),
    decreases data.len() - st.pos, (if st.starved {
            0int
        } else {
            1int
        }), width(st.interval),
{
    let cut = data.take(m);
    assert(in_order(st, cut));
    if next_symbol(st, bounds) != EOF_SYMBOL {
        let s: int = next_symbol(st, bounds);
        lemma_advanced_progress(st, bounds, data);
        lemma_advanced_progress(st, bounds, cut);
        let next = advanced(st, bounds, data);
        let slot = Reading { interval: narrowed(st.interval, bounds, s), ..st };
        lemma_reach_from(next, bounds, data);
        lemma_resettled_cut(slot, data, m);
        let next_cut = advanced(st, bounds, cut);
        assert(next_cut == resettled(slot, cut));
        assert(next == resettled(slot, data));
        if next.pos <= m {
            assert(next_cut == next);
            lemma_unpacked_cut(next, bounds, data, m);
            assert(reach(st, bounds, data) == reach(next, bounds, data));
        } else {
            assert(next_cut.starved);
            assert(in_order(next_cut, cut));
            assert(unpacked(next_cut, bounds, cut) == Err::<Seq<u8>, RangeError>(
                RangeError(Fault::MissingEndOfStream),
            ));
        }
    } else {
        assert(reach(st, bounds, data) == st.pos);
    }
}

/// The start of a pass over a stream that was cut at `m` bytes: the cut
/// makes no difference where it leaves four bytes, and else the pass
/// starts starved. A pass that does not start starved has read four bytes.
pub proof fn lemma_primed_cut(body: Seq<u8>, m: int)
    requires
        0 <= m <= body.len(),
    ensures
        m >= 4 ==> primed(body.take(m)) == primed(body) && primed(body).pos == 4,
        m < 4 ==> primed(body.take(m)).starved,
        in_order(primed(body), body),
        primed(body).pos <= 4,
        !primed(body).starved ==> primed(body).pos == 4,
{
    let cut = body.take(m);
    let a1 = fed(unread(), body);
    let a2 = fed(a1, body);
    let a3 = fed(a2, body);
    let b1 = fed(unread(), cut);
    let b2 = fed(b1, cut);
    let b3 = fed(b2, cut);
}

/// A header that is cut short is refused; one that is whole is read the
/// same whatever follows it.
pub proof fn lemma_parsed_header_cut(input: Seq<u8>, n: int)
    requires
        0 <= n <= input.len(),
        parsed_header(input) is Ok,
    ensures
        n >= header_len(parsed_header(input)->Ok_0.len()) ==> parsed_header(input.take(n))
            == parsed_header(input),
        n < header_len(parsed_header(input)->Ok_0.len()) ==> parsed_header(input.take(n)) is Err
            && kind_of(parsed_header(input.take(n))->Err_0.0) == ErrorKind::Format,
{
    let cut = input.take(n);
    let counts = parsed_header(input)->Ok_0;
    if n >= 8 {
        assert(cut.subrange(0, 4) =~= input.subrange(0, 4));
        assert(cut.subrange(4, 8) =~= input.subrange(4, 8));
        if n >= header_len(counts.len()) {
            let again = parsed_header(cut)->Ok_0;
            assert forall|i: int| 0 <= i < counts.len() implies again[i] == counts[i] by {
                assert(cut.subrange(8 + 4 * i, 8 + 4 * i + 4) =~= input.subrange(
                    8 + 4 * i,
                    8 + 4 * i + 4,
                ));
            }
            assert(again =~= counts);
        }
    }
}

/// A stream that was cut short: of a stream that decodes, a cut that
/// leaves everything up to where the end-of-stream symbol is reached
/// decodes to the same message, and every shorter cut is refused, with a
/// fault of kind `CorruptStream` where it leaves the header whole and of
/// kind `Format` where it does not.
pub proof fn lemma_truncated_stream(input: Seq<u8>, n: int)
    requires
        0 <= n <= input.len(),
        decoded(input) is Ok,
    ensures
        header_len(SYMBOL_LIMIT as nat) + 4 <= stream_end(input) <= input.len(),
        n >= stream_end(input) ==> decoded(input.take(n)) == decoded(input),
        n < stream_end(input) ==> decoded(input.take(n)) is Err,
        header_len(SYMBOL_LIMIT as nat) <= n < stream_end(input) ==> decoded(input.take(n))
            == Err::<Seq<u8>, RangeError>(RangeError(Fault::MissingEndOfStream)),
        n < header_len(SYMBOL_LIMIT as nat) ==> kind_of(decoded(input.take(n))->Err_0.0)
            == ErrorKind::Format,
{
    let counts = parsed_header(input)->Ok_0;
    let h: int = header_len(counts.len()) as int;
    let body = input.skip(h);
    let bounds = cumulative(counts);
    lemma_parsed_header_cut(input, n);
    lemma_primed_cut(body, 0);
    lemma_reach_from(primed(body), bounds, body);
    if n >= h {
        let m: int = n - h;
        assert(input.take(n).skip(h) =~= body.take(m));
        lemma_primed_cut(body, m);
        if m >= 4 {
            lemma_unpacked_cut(primed(body), bounds, body, m);
        }
    }
}

/// A stream with a damaged header: one that does not start with the
/// magic marker, or declares a table that is not over the coder's 257
/// symbols, is refused with a fault of kind `Format`.
pub proof fn lemma_damaged_header_refused(input: Seq<u8>)
    requires
        input.len() < 8 || input.subrange(0, 4) != magic() || word_at(input, 4) != SYMBOL_LIMIT,
    ensures
        decoded(input) is Err,
        kind_of(decoded(input)->Err_0.0) == ErrorKind::Format,
{
}

/// A stream is refused with a fault of kind `Format` for its header
/// alone, and with one of kind `CorruptStream` for its body alone.
pub proof fn lemma_kinds_of_refusal(input: Seq<u8>)
    ensures
        decoded(input) matches Err(e) && kind_of(e.0) == ErrorKind::Format <==> !(parsed_header(
            input,
        ) matches Ok(counts) && counts.len() == SYMBOL_LIMIT),
        decoded(input) matches Err(e) ==> (kind_of(e.0) == ErrorKind::CorruptStream <==> e.0
            == Fault::MissingEndOfStream),
{
    if parsed_header(input) is Ok && parsed_header(input)->Ok_0.len() == SYMBOL_LIMIT {
        let counts = parsed_header(input)->Ok_0;
        let body = input.skip(header_len(counts.len()) as int);
        let bounds = cumulative(counts);
        if can_end(bounds) {
            lemma_primed_cut(body, 0);
            lemma_unpacked_fault(primed(body), bounds, body);
        }
    }
}

/// A pass fails for one reason only: the end-of-stream symbol is missing.
pub proof fn lemma_unpacked_fault(st: Reading, bounds: Seq<nat>, data: Seq<u8>)
    requires
        in_order(st, data),
        can_end(bounds),
    ensures
        unpacked(st, bounds, data) matches Err(e) ==> e.0 == Fault::MissingEndOfStream,
    decreases data.len() - st.pos, (if st.starved {
            0int
        } else {
            1int
        }), width(st.interval),
{
    if !st.starved && next_symbol(st, bounds) != EOF_SYMBOL {
        lemma_advanced_progress(st, bounds, data);
        lemma_unpacked_fault(advanced(st, bounds, data), bounds, data);
    }
}

} // verus!
