//! Why decoding gives back what was encoded, and for which messages.
//!
//! The encoder's interval is a range of streams: every stream that the
//! encoder can still write lies, read as a number, between `low` and
//! `high`. The decoder's `code` is the head of that stream, so it lies in
//! the slot of the symbol that the encoder narrowed to, and the decoder
//! finds that symbol. This holds as long as every symbol finds the
//! interval wide enough to give its slot a value.

use crate::codec::{decoded, encoded};
use crate::cumulative::{
    build_cumulative, cumulative, is_cumulative, lemma_cumulative_is_cumulative,
    lemma_cumulative_monotone, lemma_symbol_at_slot,
};
use crate::decoder::{
    advanced, can_end, fed, in_order, lemma_advanced_progress, lemma_next_symbol_holds_code,
    lemma_share_meets_target, next_byte, next_symbol, primed, resettled, target, unpacked,
    unread, Reading,
};
use crate::encoder::{coded, symbols};
use crate::error::RangeError;
use crate::frequency::{
    build_frequencies, lemma_count_le_total, lemma_model_invariant, model, wide_counts_of,
    EOF_SYMBOL, SYMBOL_LIMIT,
};
use crate::interval::{
    full, leading_byte, lemma_share_bounds, lemma_shift_spreads, narrow, narrowed, settle,
    settled, shed, shifted, slot_end, slot_has_value, slot_holds, slot_start, unsettled, width,
    Interval,
};
use crate::stream::{
    be_value, lemma_be_value_bound, lemma_be_value_concat, lemma_be_value_of_four,
    lemma_be_value_of_register, lemma_feed_as_arithmetic, lemma_pow256,
    lemma_shift_as_arithmetic, pow256,
};
use crate::wire::lemma_header_round_trip;
use vstd::prelude::*;

verus! {

/// Whether every symbol is one of the alphabet that the bounds are for.
pub open spec fn in_alphabet(bounds: Seq<nat>, syms: Seq<int>) -> bool {
    forall|i: int| 0 <= i < syms.len() ==> 0 <= #[trigger] syms[i] < bounds.len() - 1
}

/// Whether the interval stays wide enough for the symbols `syms`: each
/// symbol, at its turn, finds a slot that holds a value.
pub open spec fn has_room(iv: Interval, bounds: Seq<nat>, syms: Seq<int>) -> bool
    decreases syms.len(),
{
    syms.len() == 0 || (slot_holds(iv, bounds, syms[0]) && has_room(
        settled(narrowed(iv, bounds, syms[0])),
        bounds,
        syms.drop_first(),
    ))
}

/// Whether the coder's interval stays wide enough for the message `data`
/// under the table of that message.
pub open spec fn codable(data: Seq<u8>) -> bool {
    has_room(full(), cumulative(model(data)), symbols(data))
}

/// A slot that holds a value lies within the interval, and narrowing to it
/// does not wrap.
pub proof fn lemma_narrowed_within(iv: Interval, bounds: Seq<nat>, s: int)
    requires
        is_cumulative(bounds),
        0 <= s < bounds.len() - 1,
        slot_holds(iv, bounds, s),
    ensures
        narrowed(iv, bounds, s).low == iv.low + slot_start(iv, bounds, s),
        narrowed(iv, bounds, s).high == iv.low + slot_end(iv, bounds, s) - 1,
        iv.low <= narrowed(iv, bounds, s).low <= narrowed(iv, bounds, s).high <= iv.high,
{
    lemma_share_bounds(width(iv), bounds[s] as int, bounds.last() as int);
    lemma_share_bounds(width(iv), bounds[s + 1] as int, bounds.last() as int);
}

/// Renormalization keeps the ends of an interval in order, and ends with
/// an interval whose ends differ in their leading byte.
pub proof fn lemma_settled_in_order(iv: Interval)
    requires
        iv.low <= iv.high,
    ensures
        settled(iv).low <= settled(iv).high,
        !unsettled(settled(iv)),
    decreases 0xFFFF_FFFF - (iv.low ^ iv.high),
{
    if unsettled(iv) {
        lemma_shift_spreads(iv.low, iv.high);
        lemma_shift_as_arithmetic(iv);
        lemma_settled_in_order(shifted(iv));
    }
}

proof fn lemma_shift_streams(t: int, a: int, b: int, x: int, p: int)
    by (nonlinear_arith)
    requires
        0 <= a,
        0 <= b,
        0 <= t,
        p > 0,
        (256 * a) * p <= x < (256 * b + 255 + 1) * p,
    ensures
        (t * 0x100_0000 + a) * (256 * p) <= t * (0x1_0000_0000 * p) + x < (t * 0x100_0000 + b + 1)
            * (256 * p),
{
}

/// The streams of an interval before renormalization are the bytes that
/// renormalization sheds, followed by the streams of the interval after
/// it.
pub proof fn lemma_settled_streams(iv: Interval, rest: Seq<u8>)
    requires
        iv.low <= iv.high,
        rest.len() >= 4,
        settled(iv).low * pow256((rest.len() - 4) as nat) <= be_value(rest) < (settled(iv).high
            + 1) * pow256((rest.len() - 4) as nat),
    ensures
        iv.low * pow256((shed(iv).len() + rest.len() - 4) as nat) <= be_value(shed(iv) + rest) < (
        iv.high + 1) * pow256((shed(iv).len() + rest.len() - 4) as nat),
    decreases 0xFFFF_FFFF - (iv.low ^ iv.high),
{
    if unsettled(iv) {
        lemma_shift_spreads(iv.low, iv.high);
        lemma_shift_as_arithmetic(iv);
        let next = shifted(iv);
        lemma_settled_streams(next, rest);
        let tail = shed(next) + rest;
        let t: int = iv.low as int / 0x100_0000;
        let p: nat = pow256((tail.len() - 4) as nat);
        assert(shed(iv) + rest =~= seq![leading_byte(iv.low)] + tail);
        lemma_be_value_concat(seq![leading_byte(iv.low)], tail);
        assert(be_value(seq![leading_byte(iv.low)]) == t) by {
            reveal_with_fuel(be_value, 2);
        }
        lemma_pow256(4, (tail.len() - 4) as nat);
        lemma_pow256(1, (tail.len() - 4) as nat);
        lemma_pow256((tail.len() - 4) as nat, 0);
        assert(pow256(1) == 256) by {
            reveal_with_fuel(pow256, 2);
        }
        assert(pow256(tail.len()) == 0x1_0000_0000 * p);
        assert(pow256((shed(iv).len() + rest.len() - 4) as nat) == 256 * p);
        lemma_shift_streams(
            t,
            iv.low as int % 0x100_0000,
            iv.high as int % 0x100_0000,
            be_value(tail) as int,
            p as int,
        );
    } else {
        assert(shed(iv) + rest =~= rest);
    }
}

proof fn lemma_scale_ordered(a: int, b: int, p: int)
    by (nonlinear_arith)
    requires
        a <= b,
        p >= 0,
    ensures
        a * p <= b * p,
{
}

/// The stream that is coded from an interval on lies in that interval:
/// read as a number with four bytes before the point, it is at least `low`
/// and under `high + 1`.
pub proof fn lemma_coded_in_interval(iv: Interval, bounds: Seq<nat>, syms: Seq<int>)
    requires
        is_cumulative(bounds),
        in_alphabet(bounds, syms),
        iv.low <= iv.high,
        has_room(iv, bounds, syms),
    ensures
        coded(iv, bounds, syms).len() >= 4,
        iv.low * pow256((coded(iv, bounds, syms).len() - 4) as nat) <= be_value(
            coded(iv, bounds, syms),
        ) < (iv.high + 1) * pow256((coded(iv, bounds, syms).len() - 4) as nat),
    decreases syms.len(),
{
    if syms.len() == 0 {
        lemma_be_value_of_register(iv.low);
        assert(pow256(0) == 1);
        assert(iv.low * 1 == iv.low && (iv.high + 1) * 1 == iv.high + 1);
    } else {
        let slot = narrowed(iv, bounds, syms[0]);
        let rest = coded(settled(slot), bounds, syms.drop_first());
        lemma_narrowed_within(iv, bounds, syms[0]);
        lemma_settled_in_order(slot);
        assert(in_alphabet(bounds, syms.drop_first())) by {
            assert forall|i: int| 0 <= i < syms.drop_first().len() implies 0
                <= #[trigger] syms.drop_first()[i] < bounds.len() - 1 by {
                assert(syms.drop_first()[i] == syms[i + 1]);
            }
        }
        lemma_coded_in_interval(settled(slot), bounds, syms.drop_first());
        lemma_settled_streams(slot, rest);
        let p: int = pow256((shed(slot).len() + rest.len() - 4) as nat) as int;
        lemma_scale_ordered(iv.low as int, slot.low as int, p);
        lemma_scale_ordered(slot.high + 1, iv.high + 1, p);
    }
}

/// Whether a decoding state keeps step with the encoder: it has the
/// encoder's interval `iv`, is four bytes ahead in the stream, of which
/// `rest` is what the encoder had yet to write, and holds the first four
/// bytes of `rest` in `code`.
pub open spec fn follows(st: Reading, iv: Interval, data: Seq<u8>, rest: Seq<u8>) -> bool {
    &&& st.interval == iv
    &&& !st.starved
    &&& rest.len() >= 4
    &&& st.pos >= 4
    &&& st.pos + rest.len() == data.len() + 4
    &&& data.skip(st.pos - 4) == rest
    &&& st.code == be_value(rest.take(4))
}

proof fn lemma_sandwich(lo: int, hi: int, c: int, r: int, p: int)
    by (nonlinear_arith)
    requires
        p > 0,
        0 <= r < p,
        lo * p <= c * p + r < (hi + 1) * p,
    ensures
        lo <= c <= hi,
{
}

/// A state that keeps step with the encoder before renormalization keeps
/// step with it after: the decoder reads a byte for each byte that the
/// encoder shed.
pub proof fn lemma_resettled_follows(st: Reading, data: Seq<u8>, rest: Seq<u8>)
    requires
        rest.len() >= 4,
        follows(st, st.interval, data, shed(st.interval) + rest),
    ensures
        follows(resettled(st, data), settled(st.interval), data, rest),
    decreases 0xFFFF_FFFF - (st.interval.low ^ st.interval.high),
{
    let iv = st.interval;
    let whole = shed(iv) + rest;
    if unsettled(iv) {
        lemma_shift_spreads(iv.low, iv.high);
        let next = fed(Reading { interval: shifted(iv), ..st }, data);
        let tail = shed(shifted(iv)) + rest;
        assert(whole =~= seq![leading_byte(iv.low)] + tail);
        assert(whole.skip(1) =~= tail);
        assert(data.skip(st.pos - 4)[4] == data[st.pos as int]);
        assert(data.skip(next.pos - 4) =~= whole.skip(1));
        lemma_be_value_of_four(whole.take(4));
        lemma_be_value_of_four(tail.take(4));
        lemma_feed_as_arithmetic(st.code, next_byte(st, data));
        assert(tail.take(4)[0] == whole[1]);
        assert(tail.take(4)[1] == whole[2]);
        assert(tail.take(4)[2] == whole[3]);
        assert(tail.take(4)[3] == whole[4]);
        assert(next.code == be_value(tail.take(4)));
        lemma_resettled_follows(next, data, rest);
    } else {
        assert(whole =~= rest);
    }
}

/// Where a state keeps step with the encoder, `code` lies in the slot of
/// the symbol that the encoder codes next.
pub proof fn lemma_code_in_slot(
    st: Reading,
    iv: Interval,
    bounds: Seq<nat>,
    syms: Seq<int>,
    data: Seq<u8>,
)
    requires
        is_cumulative(bounds),
        in_alphabet(bounds, syms),
        syms.len() > 0,
        iv.low <= iv.high,
        has_room(iv, bounds, syms),
        follows(st, iv, data, coded(iv, bounds, syms)),
    ensures
        narrowed(iv, bounds, syms[0]).low <= st.code <= narrowed(iv, bounds, syms[0]).high,
        in_order(st, data),
        next_symbol(st, bounds) == syms[0],
{
    let s: int = syms[0];
    let slot = narrowed(iv, bounds, s);
    let rest = coded(settled(slot), bounds, syms.drop_first());
    let whole = coded(iv, bounds, syms);
    lemma_narrowed_within(iv, bounds, s);
    lemma_settled_in_order(slot);
    assert(in_alphabet(bounds, syms.drop_first())) by {
        assert forall|i: int| 0 <= i < syms.drop_first().len() implies 0
            <= #[trigger] syms.drop_first()[i] < bounds.len() - 1 by {
            assert(syms.drop_first()[i] == syms[i + 1]);
        }
    }
    lemma_coded_in_interval(settled(slot), bounds, syms.drop_first());
    lemma_settled_streams(slot, rest);
    assert(whole =~= whole.take(4) + whole.skip(4));
    lemma_be_value_concat(whole.take(4), whole.skip(4));
    lemma_be_value_bound(whole.skip(4));
    lemma_pow256((whole.len() - 4) as nat, 0);
    lemma_sandwich(
        slot.low as int,
        slot.high as int,
        st.code as int,
        be_value(whole.skip(4)) as int,
        pow256((whole.len() - 4) as nat) as int,
    );
    let w: int = width(iv);
    let t: int = bounds.last() as int;
    let o: int = st.code - iv.low;
    lemma_share_meets_target(w, t, o, bounds[s] as int);
    lemma_share_meets_target(w, t, o, bounds[s + 1] as int);
    lemma_symbol_at_slot(bounds, target(st, bounds), s);
}

/// A decoding pass that keeps step with the encoder decodes the rest of
/// the message.
pub proof fn lemma_unpacked_follows(
    st: Reading,
    iv: Interval,
    bounds: Seq<nat>,
    msg: Seq<u8>,
    k: int,
    data: Seq<u8>,
)
    requires
        can_end(bounds),
        0 <= k <= msg.len(),
        iv.low <= iv.high,
        has_room(iv, bounds, symbols(msg).skip(k)),
        follows(st, iv, data, coded(iv, bounds, symbols(msg).skip(k))),
    ensures
        unpacked(st, bounds, data) == Ok::<Seq<u8>, RangeError>(msg.skip(k)),
    decreases msg.len() - k,
{
    let syms = symbols(msg).skip(k);
    assert(in_alphabet(bounds, syms));
    lemma_code_in_slot(st, iv, bounds, syms, data);
    let s: int = syms[0];
    if k == msg.len() {
        assert(msg.skip(k) =~= Seq::<u8>::empty());
    } else {
        let slot = Reading { interval: narrowed(iv, bounds, s), ..st };
        let rest = coded(settled(slot.interval), bounds, syms.drop_first());
        assert(syms.drop_first() =~= symbols(msg).skip(k + 1));
        assert(in_alphabet(bounds, syms.drop_first()));
        lemma_narrowed_within(iv, bounds, s);
        lemma_settled_in_order(slot.interval);
        lemma_coded_in_interval(settled(slot.interval), bounds, syms.drop_first());
        lemma_resettled_follows(slot, data, rest);
        lemma_unpacked_follows(
            advanced(st, bounds, data),
            settled(slot.interval),
            bounds,
            msg,
            k + 1,
            data,
        );
        assert(seq![s as u8] + msg.skip(k + 1) =~= msg.skip(k));
        lemma_advanced_progress(st, bounds, data);
    }
}

/// The table of a message is over the coder's alphabet, its counts fit
/// the header's four bytes, and the bounds under it give the
/// end-of-stream symbol a slot.
pub proof fn lemma_model_can_end(msg: Seq<u8>)
    ensures
        model(msg).len() == SYMBOL_LIMIT,
        forall|i: int| 0 <= i < model(msg).len() ==> model(msg)[i] < 0x1_0000_0000,
        model(msg)[EOF_SYMBOL as int] >= 1,
        can_end(cumulative(model(msg))),
{
    let table = model(msg);
    lemma_model_invariant(msg);
    assert forall|i: int| 0 <= i < table.len() implies table[i] < 0x1_0000_0000 by {
        lemma_count_le_total(table, i);
    }
    lemma_cumulative_monotone(table);
    lemma_cumulative_is_cumulative(table);
}

/// At the start of a pass over a stream of at least four bytes the
/// decoder keeps step with an encoder that has yet to write all of it.
pub proof fn lemma_primed_follows(body: Seq<u8>)
    requires
        body.len() >= 4,
    ensures
        follows(primed(body), full(), body, body),
{
    let s0 = unread();
    let s1 = fed(s0, body);
    let s2 = fed(s1, body);
    let s3 = fed(s2, body);
    let s4 = fed(s3, body);
    lemma_feed_as_arithmetic(s0.code, body[0]);
    lemma_feed_as_arithmetic(s1.code, body[1]);
    lemma_feed_as_arithmetic(s2.code, body[2]);
    lemma_feed_as_arithmetic(s3.code, body[3]);
    lemma_be_value_of_four(body.take(4));
    assert(body.skip(0) =~= body);
}

/// Round trip: a message for which the coder's interval stays wide enough
/// is decoded from its stream as it was.
pub proof fn lemma_round_trip(msg: Seq<u8>)
    requires
        codable(msg),
    ensures
        decoded(encoded(msg)) == Ok::<Seq<u8>, RangeError>(msg),
{
    let table = model(msg);
    let bounds = cumulative(table);
    let body = coded(full(), bounds, symbols(msg));
    lemma_model_can_end(msg);
    lemma_header_round_trip(table, body);
    assert(symbols(msg).skip(0) =~= symbols(msg));
    assert(in_alphabet(bounds, symbols(msg)));
    lemma_coded_in_interval(full(), bounds, symbols(msg));
    lemma_primed_follows(body);
    lemma_unpacked_follows(primed(body), full(), bounds, msg, 0, body);
    assert(msg.skip(0) =~= msg);
}

/// The decoder renormalizes its interval as the encoder does, whatever
/// the stream holds.
pub proof fn lemma_resettled_interval(st: Reading, data: Seq<u8>)
    ensures
        resettled(st, data).interval == settled(st.interval),
    decreases 0xFFFF_FFFF - (st.interval.low ^ st.interval.high),
{
    if unsettled(st.interval) {
        lemma_shift_spreads(st.interval.low, st.interval.high);
        lemma_resettled_interval(fed(Reading { interval: shifted(st.interval), ..st }, data), data);
    }
}

/// Whatever a pass decodes, the interval had room for: the decoder only
/// ever finds symbols whose slot holds `code`.
pub proof fn lemma_unpacked_has_room(st: Reading, bounds: Seq<nat>, data: Seq<u8>, out: Seq<u8>)
    requires
        in_order(st, data),
        can_end(bounds),
        unpacked(st, bounds, data) == Ok::<Seq<u8>, RangeError>(out),
    ensures
        has_room(st.interval, bounds, symbols(out)),
    decreases out.len(),
{
    let s: int = next_symbol(st, bounds);
    lemma_next_symbol_holds_code(st, bounds);
    assert(slot_holds(st.interval, bounds, s));
    if s == EOF_SYMBOL {
        assert(symbols(out)[0] == s);
        assert(symbols(out).drop_first() =~= Seq::<int>::empty());
        assert(has_room(
            settled(narrowed(st.interval, bounds, s)),
            bounds,
            symbols(out).drop_first(),
        ));
    } else {
        lemma_advanced_progress(st, bounds, data);
        let next = advanced(st, bounds, data);
        let rest = unpacked(next, bounds, data)->Ok_0;
        assert(out == seq![s as u8] + rest);
        assert(out[0] == s);
        lemma_resettled_interval(
            Reading { interval: narrowed(st.interval, bounds, s), ..st },
            data,
        );
        lemma_unpacked_has_room(next, bounds, data, rest);
        assert(symbols(out)[0] == s);
        assert(symbols(out).drop_first() =~= symbols(rest));
        assert(has_room(
            settled(narrowed(st.interval, bounds, s)),
            bounds,
            symbols(out).drop_first(),
        ));
    }
}

/// Round trip, the other way: a message that is decoded from its stream
/// as it was is one for which the coder's interval stays wide enough. So
/// `codable` leaves out exactly the messages that do not survive the round
/// trip.
pub proof fn lemma_round_trip_needs_room(msg: Seq<u8>)
    requires
        decoded(encoded(msg)) == Ok::<Seq<u8>, RangeError>(msg),
    ensures
        codable(msg),
{
    let table = model(msg);
    let bounds = cumulative(table);
    let body = coded(full(), bounds, symbols(msg));
    lemma_model_can_end(msg);
    lemma_header_round_trip(table, body);
    lemma_unpacked_has_room(primed(body), bounds, body, msg);
}

/// Tells whether a message survives the round trip through `encode` and
/// `decode`: whether the coder's interval stays wide enough for it.
pub fn is_codable(input: &[u8]) -> (ok: bool)
    ensures
        ok == codable(input@),
{
    let freq = build_frequencies(input);
    let cumulative = build_cumulative(freq.as_slice());
    let ghost bounds = wide_counts_of(cumulative@);
    let ghost syms = symbols(input@);
    proof {
        lemma_cumulative_is_cumulative(model(input@));
    }
    let mut iv = Interval { low: 0, high: 0xFFFF_FFFF };
    let mut i: usize = 0;
    assert(syms.skip(0) =~= syms);
    while i < input.len()
        invariant
            i <= input.len(),
            syms == symbols(input@),
            bounds == wide_counts_of(cumulative@),
            bounds == crate::cumulative::cumulative(model(input@)),
            is_cumulative(bounds),
            cumulative@.len() == SYMBOL_LIMIT + 1,
            has_room(iv, bounds, syms.skip(i as int)) == codable(input@),
        decreases input.len() - i,
    {
        proof {
            assert(syms.skip(i as int)[0] == input@[i as int]);
            assert(syms.skip(i as int).drop_first() =~= syms.skip(i + 1));
        }
        if !slot_has_value(iv.low, iv.high, input[i] as u32, cumulative.as_slice()) {
            return false;
        }
        let slot = narrow(iv.low, iv.high, input[i] as u32, cumulative.as_slice());
        iv = settle(slot.low, slot.high);
        i = i + 1;
    }
    proof {
        assert(syms.skip(i as int)[0] == EOF_SYMBOL);
        assert(syms.skip(i as int).drop_first() =~= Seq::<int>::empty());
        assert(has_room(
            settled(narrowed(iv, bounds, EOF_SYMBOL as int)),
            bounds,
            syms.skip(i as int).drop_first(),
        ));
    }
    slot_has_value(iv.low, iv.high, EOF_SYMBOL as u32, cumulative.as_slice())
}

} // verus!
