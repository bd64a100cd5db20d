//! The codec: a whole message to a stream, and a stream back to the
//! message.

use crate::cumulative::{
    build_cumulative, cumulative, is_cumulative, lemma_cumulative_is_cumulative,
};
use crate::decoder::{
    can_end, lemma_advanced_progress, lemma_next_symbol_holds_code, primed, unpacked,
    RangeDecoder,
};
use crate::encoder::{coded, symbols, RangeEncoder};
use crate::error::{Fault, RangeError};
use crate::frequency::{
    build_frequencies, counts_of, model, wide_counts_of, EOF_SYMBOL, SYMBOL_LIMIT,
};
use crate::interval::{be_bytes, full, width};
use crate::roundtrip::{codable, lemma_round_trip, lemma_round_trip_needs_room};
use crate::wire::{header_bytes, header_len, parsed_header, read_header, write_header};
use vstd::prelude::*;
use vstd::slice::slice_subrange;

verus! {

/// The stream of a message: the header that carries the table of the
/// message, and the message coded under that table, the end-of-stream
/// symbol after its last byte.
pub open spec fn encoded(data: Seq<u8>) -> Seq<u8> {
    header_bytes(model(data)) + coded(full(), cumulative(model(data)), symbols(data))
}

/// What the body of a stream decodes to under the bounds of its table.
/// Under bounds that give the end-of-stream symbol no slot no stream can
/// end, and the body is refused.
pub open spec fn decoded_body(bounds: Seq<nat>, body: Seq<u8>) -> Result<Seq<u8>, RangeError> {
    if can_end(bounds) {
        unpacked(primed(body), bounds, body)
    } else {
        Err(RangeError(Fault::MissingEndOfStream))
    }
}

/// What a stream decodes to: the fault of its header, or, where the
/// header carries a table over the coder's 257 symbols, what the bytes
/// after the header decode to.
pub open spec fn decoded(input: Seq<u8>) -> Result<Seq<u8>, RangeError> {
    match parsed_header(input) {
        Err(e) => Err(e),
        Ok(counts) => if counts.len() != SYMBOL_LIMIT {
            Err(RangeError(Fault::UnexpectedSymbolCount))
        } else {
            decoded_body(cumulative(counts), input.skip(header_len(counts.len()) as int))
        },
    }
}

/// Encoding is a function of the message: the same message has the same
/// stream, byte for byte.
pub proof fn lemma_encoding_deterministic(a: Seq<u8>, b: Seq<u8>)
    requires
        a =~= b,
    ensures
        encoded(a) == encoded(b),
{
}

/// The result of a pass, after the bytes that were decoded before it.
pub open spec fn after(prefix: Seq<u8>, rest: Result<Seq<u8>, RangeError>) -> Result<
    Seq<u8>,
    RangeError,
> {
    match rest {
        Ok(bytes) => Ok(prefix + bytes),
        Err(e) => Err(e),
    }
}

/// Encodes a message. Every message has a stream: the result is never an
/// error. The stream decodes to the message again where the coder's
/// interval stays wide enough for the message, and only there.
pub fn encode(input: &[u8]) -> (r: Result<Vec<u8>, RangeError>)
    ensures
        r matches Ok(out) && out@ == encoded(input@),
        r matches Ok(out) && (decoded(out@) == Ok::<Seq<u8>, RangeError>(input@) <==> codable(
            input@,
        )),
{
    proof {
        if codable(input@) {
            lemma_round_trip(input@);
        }
        if decoded(encoded(input@)) == Ok::<Seq<u8>, RangeError>(input@) {
            lemma_round_trip_needs_room(input@);
        }
    }
    let freq = build_frequencies(input);
    let cumulative = build_cumulative(freq.as_slice());
    let ghost bounds = wide_counts_of(cumulative@);
    let ghost syms = symbols(input@);
    proof {
        lemma_cumulative_is_cumulative(model(input@));
    }
    let mut out: Vec<u8> = Vec::with_capacity(input.len());
    write_header(&mut out, freq.as_slice());
    assert(out@ =~= header_bytes(model(input@)));
    let mut enc = RangeEncoder::new(out);
    let mut i: usize = 0;
    assert(syms.skip(0) =~= syms);
    while i < input.len()
        invariant
            i <= input.len(),
            syms == symbols(input@),
            bounds == wide_counts_of(cumulative@),
            bounds == self::cumulative(model(input@)),
            is_cumulative(bounds),
            cumulative@.len() == SYMBOL_LIMIT + 1,
            enc.output() + coded(enc.interval(), bounds, syms.skip(i as int)) == encoded(input@),
        decreases input.len() - i,
    {
        let ghost before = enc.output();
        let ghost iv = enc.interval();
        enc.encode_symbol(input[i] as u32, cumulative.as_slice());
        proof {
            assert(syms.skip(i as int)[0] == input@[i as int]);
            assert(syms.skip(i as int).drop_first() =~= syms.skip(i + 1));
            assert(enc.output() + coded(enc.interval(), bounds, syms.skip(i + 1)) =~= before
                + coded(iv, bounds, syms.skip(i as int)));
        }
        i = i + 1;
    }
    let ghost before = enc.output();
    let ghost iv = enc.interval();
    enc.encode_symbol(EOF_SYMBOL as u32, cumulative.as_slice());
    let ghost last = enc.interval();
    enc.finish();
    proof {
        assert(syms.skip(i as int)[0] == EOF_SYMBOL);
        assert(syms.skip(i as int).drop_first() =~= Seq::<int>::empty());
        assert(coded(last, bounds, Seq::<int>::empty()) == be_bytes(last.low));
        assert(enc.output() =~= before + coded(iv, bounds, syms.skip(i as int)));
    }
    Ok(enc.into_bytes())
}

/// Decodes a stream.
///
/// The stream is refused with a fault of the kind `Format` where its
/// header is malformed or carries a table that is not over the coder's 257
/// symbols, and with `MissingEndOfStream` where its body gives out before
/// the end-of-stream symbol is decoded.
pub fn decode(encoded: &[u8]) -> (r: Result<Vec<u8>, RangeError>)
    ensures
        r matches Ok(data) ==> decoded(encoded@) == Ok::<Seq<u8>, RangeError>(data@),
        r matches Err(e) ==> decoded(encoded@) == Err::<Seq<u8>, RangeError>(e),
{
    let mut pos: usize = 0;
    let freq = match read_header(encoded, &mut pos) {
        Ok(freq) => freq,
        Err(e) => { return Err(e); },
    };
    if freq.len() != SYMBOL_LIMIT {
        return Err(RangeError(Fault::UnexpectedSymbolCount));
    }
    let cumulative = build_cumulative(freq.as_slice());
    let ghost bounds = wide_counts_of(cumulative@);
    proof {
        lemma_cumulative_is_cumulative(counts_of(freq@));
    }
    if cumulative[EOF_SYMBOL] >= cumulative[SYMBOL_LIMIT] {
        return Err(RangeError(Fault::MissingEndOfStream));
    }
    let body = slice_subrange(encoded, pos, encoded.len());
    assert(body@ =~= encoded@.skip(pos as int));
    let mut dec = RangeDecoder::new(body);
    let mut out: Vec<u8> = Vec::with_capacity(encoded.len());
    assert(out@ + Seq::<u8>::empty() =~= Seq::<u8>::empty());
    loop
        invariant
            dec.wf(),
            dec.input() == body@,
            bounds == wide_counts_of(cumulative@),
            can_end(bounds),
            cumulative@.len() == SYMBOL_LIMIT + 1,
            after(out@, unpacked(dec.state(), bounds, body@)) == decoded(encoded@),
        decreases
                body@.len() - dec.state().pos,
                (if dec.state().starved {
                    0int
                } else {
                    1int
                }),
                width(dec.state().interval),
    {
        if dec.is_starved() {
            return Err(RangeError(Fault::MissingEndOfStream));
        }
        let ghost st = dec.state();
        let ghost so_far = out@;
        let symbol: u32 = dec.decode_symbol(cumulative.as_slice());
        if symbol as usize == EOF_SYMBOL {
            assert(so_far + Seq::<u8>::empty() =~= so_far);
            return Ok(out);
        }
        proof {
            lemma_advanced_progress(st, bounds, body@);
            lemma_next_symbol_holds_code(st, bounds);
        }
        out.push(symbol as u8);
        proof {
            let rest = unpacked(dec.state(), bounds, body@);
            if rest is Ok {
                assert(out@ + rest->Ok_0 =~= so_far + (seq![symbol as u8] + rest->Ok_0));
            }
        }
    }
}

} // verus!
