//! The Huffman coder: a message as the codes of its bytes under the code
//! tree of its own table, after a header that carries the table.

use crate::bits::{packed, stream_bit, BitReader, BitWriter};
use crate::frequency::{counts_of, histogram, occurrences, EOF_SYMBOL, SYMBOL_LIMIT};
use crate::tree::{build_tree, is_leaf, is_leaf_node, symbols_under, tree_of, Node};
use crate::wire::{le_bytes, read_u32_le, table_bytes, word_at, write_u32_le};
use vstd::prelude::*;
use vstd::slice::slice_subrange;

verus! {

/// Why a Huffman stream was refused.
#[derive(Clone, Copy, Debug, PartialEq, Eq, Structural)]
pub enum HuffmanError {
    /// The stream is shorter than the magic marker.
    TruncatedMagic,
    /// The stream does not start with the magic marker.
    BadMagic,
    /// The stream ends within the table.
    TruncatedFrequencies,
    /// The table is not over the coder's 257 symbols.
    BadSymbolCount,
    /// The bits lead out of the code tree, or end before the
    /// end-of-stream symbol.
    CorruptData,
}

/// The marker that every Huffman stream starts with: the letters `HFMN`.
pub open spec fn huffman_magic() -> Seq<u8> {
    seq![0x48u8, 0x46u8, 0x4Du8, 0x4Eu8]
}

/// The way from the root of a tree to the leaf of the symbol `s`: for
/// each step `true` where it goes right. Where a symbol has more than one
/// leaf, the way is to the rightmost.
pub open spec fn code_of(node: Node, s: u32) -> Option<Seq<bool>>
    decreases node,
{
    if is_leaf_node(node) {
        if node.symbol == s {
            Some(Seq::empty())
        } else {
            None
        }
    } else {
        let right = match node.right {
            Some(right) => code_of(*right, s),
            None => None,
        };
        let left = match node.left {
            Some(left) => code_of(*left, s),
            None => None,
        };
        match right {
            Some(path) => Some(seq![true] + path),
            None => match left {
                Some(path) => Some(seq![false] + path),
                None => None,
            },
        }
    }
}

/// The code that a symbol gets where its leaf was found under a node that
/// the way `prefix` leads to, or `otherwise` where it was not found. A
/// tree that is a single leaf gives its symbol the code of one zero bit.
pub open spec fn entry(found: Option<Seq<bool>>, prefix: Seq<bool>, otherwise: Seq<bool>) -> Seq<
    bool,
> {
    match found {
        Some(path) => if prefix.len() == 0 && path.len() == 0 {
            seq![false]
        } else {
            prefix + path
        },
        None => otherwise,
    }
}

/// The codes of the 257 symbols under a tree; the code of a symbol
/// without a leaf is empty.
pub open spec fn code_table(root: Node) -> Seq<Seq<bool>> {
    Seq::new(
        SYMBOL_LIMIT as nat,
        |s: int| entry(code_of(root, s as u32), Seq::empty(), Seq::empty()),
    )
}

/// The codes of the bytes of a message, one after the other.
pub open spec fn coded_bits(data: Seq<u8>, codes: Seq<Seq<bool>>) -> Seq<bool>
    decreases data.len(),
{
    if data.len() == 0 {
        Seq::empty()
    } else {
        coded_bits(data.drop_last(), codes) + codes[data.last() as int]
    }
}

/// The table of a message of at most 2^32 - 1 bytes: each byte value with
/// its number of occurrences, and the end-of-stream symbol with count 1.
pub open spec fn huffman_table(data: Seq<u8>) -> Seq<u32> {
    Seq::new(
        SYMBOL_LIMIT as nat,
        |s: int|
            if s == EOF_SYMBOL {
                1u32
            } else {
                occurrences(data, s) as u32
            },
    )
}

/// The Huffman stream of a message: the magic marker, the table of the
/// message, and the codes of its bytes and of the end-of-stream symbol
/// under the tree of that table.
pub open spec fn huffman_encoded(data: Seq<u8>) -> Seq<u8> {
    let table = huffman_table(data);
    let codes = code_table(tree_of(table));
    huffman_magic() + le_bytes(SYMBOL_LIMIT as nat) + table_bytes(counts_of(table)) + packed(
        coded_bits(data, codes) + codes[EOF_SYMBOL as int],
    )
}

/// The result of decoding the rest of a stream, after the bytes that were
/// decoded before it.
pub open spec fn huffman_after(prefix: Seq<u8>, rest: Result<Seq<u8>, HuffmanError>) -> Result<
    Seq<u8>,
    HuffmanError,
> {
    match rest {
        Ok(bytes) => Ok(prefix + bytes),
        Err(e) => Err(e),
    }
}

/// What the bits of `body` from bit `k` on decode to, from the node `cur`
/// of the tree `root` on. Each bit leads to the left or the right child;
/// a leaf gives its symbol and leads back to the root, and the leaf of
/// the end-of-stream symbol ends the message. After the last bit zeros
/// are read, up to the next leaf; the message is refused unless that leaf
/// is the one of the end-of-stream symbol.
pub open spec fn walked(root: Node, cur: Node, body: Seq<u8>, k: nat) -> Result<
    Seq<u8>,
    HuffmanError,
>
    decreases 8 * body.len() - k, cur,
{
    let at_end = k >= 8 * body.len();
    let child = if stream_bit(body, k as int) {
        cur.right
    } else {
        cur.left
    };
    match child {
        None => Err(HuffmanError::CorruptData),
        Some(next) => if is_leaf_node(*next) {
            if next.symbol == EOF_SYMBOL {
                Ok(Seq::empty())
            } else if at_end {
                Err(HuffmanError::CorruptData)
            } else {
                huffman_after(seq![next.symbol as u8], walked(root, root, body, k + 1))
            }
        } else {
            walked(
                root,
                *next,
                body,
                if at_end {
                    k
                } else {
                    k + 1
                },
            )
        },
    }
}

/// The table that a Huffman stream carries after its magic marker, or the
/// fault in it.
pub open spec fn parsed_frequencies(input: Seq<u8>) -> Result<Seq<u32>, HuffmanError> {
    if input.len() < 8 {
        Err(HuffmanError::TruncatedFrequencies)
    } else if word_at(input, 4) != SYMBOL_LIMIT {
        Err(HuffmanError::BadSymbolCount)
    } else if input.len() < 8 + 4 * SYMBOL_LIMIT {
        Err(HuffmanError::TruncatedFrequencies)
    } else {
        Ok(Seq::new(SYMBOL_LIMIT as nat, |i: int| word_at(input, 8 + 4 * i) as u32))
    }
}

/// What a Huffman stream decodes to.
pub open spec fn huffman_decoded(input: Seq<u8>) -> Result<Seq<u8>, HuffmanError> {
    if input.len() < 4 {
        Err(HuffmanError::TruncatedMagic)
    } else if input.subrange(0, 4) != huffman_magic() {
        Err(HuffmanError::BadMagic)
    } else {
        match parsed_frequencies(input) {
            Err(e) => Err(e),
            Ok(table) => walked(
                tree_of(table),
                tree_of(table),
                input.skip(8 + 4 * SYMBOL_LIMIT as int),
                0,
            ),
        }
    }
}

/// The codes of a table of codes, as sequences of bits.
pub open spec fn codes_view(codes: Seq<Vec<bool>>) -> Seq<Seq<bool>> {
    Seq::new(codes.len(), |i: int| codes[i]@)
}

/// A symbol that has a leaf in a tree is under every bound on the symbols
/// of the tree.
pub proof fn lemma_code_under(node: Node, s: u32, bound: int)
    requires
        symbols_under(node, bound),
        code_of(node, s) is Some,
    ensures
        s < bound,
    decreases node,
{
    if !is_leaf_node(node) {
        if node.right is Some && code_of(*node.right->Some_0, s) is Some {
            lemma_code_under(*node.right->Some_0, s, bound);
        } else {
            lemma_code_under(*node.left->Some_0, s, bound);
        }
    }
}

/// The table with count one for every symbol.
pub fn default_frequencies() -> (freq: Vec<u32>)
    ensures
        freq@ == Seq::new(SYMBOL_LIMIT as nat, |i: int| 1u32),
{
    let freq = vec![1u32; SYMBOL_LIMIT];
    assert(freq@ =~= Seq::new(SYMBOL_LIMIT as nat, |i: int| 1u32));
    freq
}

/// Builds the table of a message: the number of occurrences of each byte
/// value, and count 1 for the end-of-stream symbol.
pub fn build_frequencies_from_file(data: &[u8]) -> (freq: Vec<u32>)
    requires
        data@.len() <= 0xFFFF_FFFF,
    ensures
        freq@ == huffman_table(data@),
        counts_of(freq@) == histogram(data@),
{
    let mut freq: Vec<u32> = vec![0u32; SYMBOL_LIMIT];
    let mut i: usize = 0;
    while i < data.len()
        invariant
            i <= data.len(),
            data@.len() <= 0xFFFF_FFFF,
            freq@.len() == SYMBOL_LIMIT,
            forall|s: int| 0 <= s < 256 ==> freq@[s] == occurrences(data@.take(i as int), s),
            forall|s: int| 0 <= s < 256 ==> freq@[s] <= i,
            freq@[256] == 0,
        decreases data.len() - i,
    {
        let b: usize = data[i] as usize;
        assert(data@.take(i + 1).drop_last() =~= data@.take(i as int));
        freq.set(b, freq[b] + 1);
        i = i + 1;
    }
    assert(data@.take(i as int) =~= data@);
    freq.set(EOF_SYMBOL, 1);
    assert(freq@ =~= huffman_table(data@));
    assert(counts_of(freq@) =~= histogram(data@));
    freq
}

/// Appends a table: the number of its counts, and the counts.
pub fn write_frequencies(out: &mut Vec<u8>, freq: &[u32])
    requires
        freq@.len() <= 0xFFFF_FFFF,
    ensures
        final(out)@ == old(out)@ + le_bytes(freq@.len()) + table_bytes(counts_of(freq@)),
{
    let ghost counts = counts_of(freq@);
    write_u32_le(out, freq.len() as u32);
    let mut i: usize = 0;
    assert(out@ =~= old(out)@ + le_bytes(freq@.len()) + table_bytes(counts.take(0)));
    while i < freq.len()
        invariant
            i <= freq.len(),
            counts == counts_of(freq@),
            out@ == old(out)@ + le_bytes(freq@.len()) + table_bytes(counts.take(i as int)),
        decreases freq.len() - i,
    {
        write_u32_le(out, freq[i]);
        proof {
            assert(counts.take(i + 1).drop_last() =~= counts.take(i as int));
            assert(out@ =~= old(out)@ + le_bytes(freq@.len()) + table_bytes(counts.take(i + 1)));
        }
        i = i + 1;
    }
    assert(counts.take(i as int) =~= counts);
}

/// Where reading stops in the table of a stream: at its end where it is
/// whole, before its length where that is cut short, after its length
/// where that is refused, and after the last whole count else.
pub open spec fn parsed_frequencies_len(input: Seq<u8>) -> nat {
    if input.len() < 8 {
        4
    } else if word_at(input, 4) != SYMBOL_LIMIT {
        8
    } else if input.len() < 8 + 4 * SYMBOL_LIMIT {
        (8 + 4 * ((input.len() - 8) / 4)) as nat
    } else {
        (8 + 4 * SYMBOL_LIMIT) as nat
    }
}

/// Reads the table of a stream, from the byte after the magic marker on,
/// and leaves in `*pos` the place where reading stopped.
pub fn read_frequencies(input: &[u8], pos: &mut usize) -> (r: Result<Vec<u32>, HuffmanError>)
    requires
        *old(pos) == 4,
    ensures
        r matches Ok(freq) ==> parsed_frequencies(input@) == Ok::<Seq<u32>, HuffmanError>(freq@),
        r matches Err(e) ==> parsed_frequencies(input@) == Err::<Seq<u32>, HuffmanError>(e),
        *final(pos) == parsed_frequencies_len(input@),
{
    let count: u32 = match read_u32_le(input, pos) {
        Some(count) => count,
        None => { return Err(HuffmanError::TruncatedFrequencies); },
    };
    if count as usize != SYMBOL_LIMIT {
        return Err(HuffmanError::BadSymbolCount);
    }
    let mut freq: Vec<u32> = Vec::with_capacity(SYMBOL_LIMIT);
    let mut i: usize = 0;
    while i < SYMBOL_LIMIT
        invariant
            i <= SYMBOL_LIMIT,
            input@.len() >= 8,
            word_at(input@, 4) == SYMBOL_LIMIT,
            *pos == 8 + 4 * i,
            *pos <= input@.len(),
            freq@.len() == i,
            forall|j: int| 0 <= j < i ==> freq@[j] == word_at(input@, 8 + 4 * j),
        decreases SYMBOL_LIMIT - i,
    {
        match read_u32_le(input, pos) {
            Some(v) => {
                freq.push(v);
            },
            None => {
                return Err(HuffmanError::TruncatedFrequencies);
            },
        }
        i = i + 1;
    }
    assert(freq@ =~= Seq::new(SYMBOL_LIMIT as nat, |i: int| word_at(input@, 8 + 4 * i) as u32));
    Ok(freq)
}

/// A copy of some bits.
fn copy_bits(bits: &Vec<bool>) -> (copy: Vec<bool>)
    ensures
        copy@ == bits@,
{
    let mut copy: Vec<bool> = Vec::with_capacity(bits.len());
    let mut i: usize = 0;
    while i < bits.len()
        invariant
            i <= bits.len(),
            copy@ == bits@.take(i as int),
        decreases bits.len() - i,
    {
        copy.push(bits[i]);
        proof {
            assert(copy@ =~= bits@.take(i + 1));
        }
        i = i + 1;
    }
    assert(bits@.take(i as int) =~= bits@);
    copy
}

/// Gives every symbol with a leaf under `node` its code: the way
/// `prefix` that leads to `node`, and the way from `node` to the leaf.
/// The codes of the other symbols stay as they are.
pub fn build_codes(node: &Node, codes: &mut Vec<Vec<bool>>, prefix: &mut Vec<bool>)
    requires
        symbols_under(*node, old(codes)@.len() as int),
    ensures
        final(prefix)@ == old(prefix)@,
        final(codes)@.len() == old(codes)@.len(),
        forall|s: u32|
            s < old(codes)@.len() ==> #[trigger] final(codes)@[s as int]@ == entry(
                code_of(*node, s),
                old(prefix)@,
                old(codes)@[s as int]@,
            ),
    decreases *node,
{
    if is_leaf(node) {
        let code = if prefix.len() == 0 {
            vec![false]
        } else {
            copy_bits(prefix)
        };
        assert(old(prefix)@ + Seq::<bool>::empty() =~= old(prefix)@);
        codes.set(node.symbol as usize, code);
        return ;
    }
    let ghost at_start = codes@;
    match &node.left {
        Some(left) => {
            prefix.push(false);
            build_codes(left, codes, prefix);
            prefix.pop();
        },
        None => {},
    }
    let ghost after_left = codes@;
    assert(prefix@ =~= old(prefix)@);
    match &node.right {
        Some(right) => {
            prefix.push(true);
            build_codes(right, codes, prefix);
            prefix.pop();
        },
        None => {},
    }
    assert(prefix@ =~= old(prefix)@);
    proof {
        assert forall|s: u32| s < old(codes)@.len() implies #[trigger] codes@[s as int]@ == entry(
            code_of(*node, s),
            old(prefix)@,
            old(codes)@[s as int]@,
        ) by {
            let in_left = match node.left {
                Some(left) => code_of(*left, s),
                None => None,
            };
            let in_right = match node.right {
                Some(right) => code_of(*right, s),
                None => None,
            };
            assert(after_left[s as int]@ == entry(
                in_left,
                old(prefix)@.push(false),
                at_start[s as int]@,
            ));
            assert(codes@[s as int]@ == entry(
                in_right,
                old(prefix)@.push(true),
                after_left[s as int]@,
            ));
            if in_right is Some {
                assert(old(prefix)@.push(true) + in_right->Some_0 =~= old(prefix)@ + (seq![true]
                    + in_right->Some_0));
            } else if in_left is Some {
                assert(old(prefix)@.push(false) + in_left->Some_0 =~= old(prefix)@ + (seq![false]
                    + in_left->Some_0));
            }
        }
    }
}

/// Writes the bits of a code.
fn write_code(writer: &mut BitWriter, code: &Vec<bool>)
    requires
        old(writer).wf(),
    ensures
        final(writer).wf(),
        final(writer).written() == old(writer).written() + code@,
        final(writer).base() == old(writer).base(),
{
    let mut i: usize = 0;
    assert(writer.written() + code@.take(0) =~= writer.written());
    while i < code.len()
        invariant
            i <= code.len(),
            writer.wf(),
            writer.base() == old(writer).base(),
            writer.written() == old(writer).written() + code@.take(i as int),
        decreases code.len() - i,
    {
        let bit: u8 = if code[i] {
            1
        } else {
            0
        };
        writer.write_bit(bit);
        proof {
            assert(old(writer).written() + code@.take(i + 1) =~= (old(writer).written()
                + code@.take(i as int)).push(code@[i as int]));
        }
        i = i + 1;
    }
    assert(code@.take(i as int) =~= code@);
}

/// Encodes a message of at most 2^32 - 1 bytes.
pub fn huffman_encode_file(input: &[u8]) -> (out: Vec<u8>)
    requires
        input@.len() <= 0xFFFF_FFFF,
    ensures
        out@ == huffman_encoded(input@),
{
    compress_file(input)
}

/// Decodes a Huffman stream.
pub fn huffman_decode_file(input: &[u8]) -> (r: Result<Vec<u8>, HuffmanError>)
    ensures
        r matches Ok(out) ==> huffman_decoded(input@) == Ok::<Seq<u8>, HuffmanError>(out@),
        r matches Err(e) ==> huffman_decoded(input@) == Err::<Seq<u8>, HuffmanError>(e),
{
    decompress_file(input)
}

/// Encodes a message of at most 2^32 - 1 bytes: builds its table, the
/// tree and the codes, and writes the header and the codes of the bytes
/// and of the end-of-stream symbol.
pub fn compress_file(input: &[u8]) -> (out: Vec<u8>)
    requires
        input@.len() <= 0xFFFF_FFFF,
    ensures
        out@ == huffman_encoded(input@),
{
    let freq = build_frequencies_from_file(input);
    let root = build_tree(freq.as_slice());
    let mut codes: Vec<Vec<bool>> = Vec::with_capacity(SYMBOL_LIMIT);
    let mut s: usize = 0;
    while s < SYMBOL_LIMIT
        invariant
            s <= SYMBOL_LIMIT,
            codes@.len() == s,
            forall|i: int| 0 <= i < s ==> (#[trigger] codes@[i])@ == Seq::<bool>::empty(),
        decreases SYMBOL_LIMIT - s,
    {
        codes.push(Vec::new());
        s = s + 1;
    }
    let mut prefix: Vec<bool> = Vec::new();
    build_codes(&root, &mut codes, &mut prefix);
    let ghost table = code_table(root);
    assert(codes_view(codes@) =~= table) by {
        assert forall|s: int| 0 <= s < SYMBOL_LIMIT implies codes@[s]@ == table[s] by {
            assert(codes@[(s as u32) as int]@ == table[s]);
        }
    }
    let mut out: Vec<u8> = Vec::with_capacity(input.len());
    out.push(0x48);
    out.push(0x46);
    out.push(0x4D);
    out.push(0x4E);
    write_frequencies(&mut out, freq.as_slice());
    let ghost header = out@;
    assert(header =~= huffman_magic() + le_bytes(SYMBOL_LIMIT as nat) + table_bytes(
        counts_of(huffman_table(input@)),
    ));
    let mut writer = BitWriter::new(out);
    let mut i: usize = 0;
    assert(input@.take(0) =~= Seq::<u8>::empty());
    while i < input.len()
        invariant
            i <= input.len(),
            writer.wf(),
            writer.base() == header,
            codes@.len() == SYMBOL_LIMIT,
            codes_view(codes@) == table,
            writer.written() == coded_bits(input@.take(i as int), table),
        decreases input.len() - i,
    {
        proof {
            assert(input@.take(i + 1).drop_last() =~= input@.take(i as int));
            assert(codes_view(codes@)[input@[i as int] as int] == codes@[input@[i as int] as int]@);
        }
        write_code(&mut writer, &codes[input[i] as usize]);
        i = i + 1;
    }
    proof {
        assert(input@.take(i as int) =~= input@);
        assert(codes_view(codes@)[EOF_SYMBOL as int] == codes@[EOF_SYMBOL as int]@);
    }
    write_code(&mut writer, &codes[EOF_SYMBOL]);
    writer.flush();
    writer.into_bytes()
}

/// Decodes a Huffman stream: reads the header, builds the tree of its
/// table, and follows the bits through the tree.
pub fn decompress_file(input: &[u8]) -> (r: Result<Vec<u8>, HuffmanError>)
    ensures
        r matches Ok(out) ==> huffman_decoded(input@) == Ok::<Seq<u8>, HuffmanError>(out@),
        r matches Err(e) ==> huffman_decoded(input@) == Err::<Seq<u8>, HuffmanError>(e),
{
    if input.len() < 4 {
        return Err(HuffmanError::TruncatedMagic);
    }
    if input[0] != 0x48 || input[1] != 0x46 || input[2] != 0x4D || input[3] != 0x4E {
        assert(input@.subrange(0, 4)[0] == input@[0]);
        assert(input@.subrange(0, 4)[1] == input@[1]);
        assert(input@.subrange(0, 4)[2] == input@[2]);
        assert(input@.subrange(0, 4)[3] == input@[3]);
        return Err(HuffmanError::BadMagic);
    }
    assert(input@.subrange(0, 4) =~= huffman_magic());
    let mut pos: usize = 4;
    let freq = match read_frequencies(input, &mut pos) {
        Ok(freq) => freq,
        Err(e) => { return Err(e); },
    };
    let root = build_tree(freq.as_slice());
    let body = slice_subrange(input, pos, input.len());
    assert(body@ =~= input@.skip(8 + 4 * SYMBOL_LIMIT as int));
    let mut reader = BitReader::new(body);
    let mut node_ref: &Node = &root;
    let mut out: Vec<u8> = Vec::new();
    assert(out@ + Seq::<u8>::empty() =~= Seq::<u8>::empty());
    loop
        invariant
            reader.wf(),
            reader.input() == body@,
            reader.bits_read() <= 8 * body@.len(),
            reader.at_end() ==> reader.bits_read() == 8 * body@.len(),
            huffman_after(out@, walked(root, *node_ref, body@, reader.bits_read()))
                == huffman_decoded(input@),
        decreases 8 * body@.len() - reader.bits_read(), *node_ref,
    {
        let ghost k = reader.bits_read();
        let ghost so_far = out@;
        let ghost cur = *node_ref;
        let bit: u8 = reader.read_bit();
        let child = if bit == 0 {
            &node_ref.left
        } else {
            &node_ref.right
        };
        match child {
            Some(next) => {
                node_ref = next;
            },
            None => {
                return Err(HuffmanError::CorruptData);
            },
        }
        if is_leaf(node_ref) {
            if node_ref.symbol == EOF_SYMBOL as u32 {
                assert(so_far + Seq::<u8>::empty() =~= so_far);
                return Ok(out);
            }
            let byte: u8 = #[verifier::truncate]
            (node_ref.symbol as u8);
            out.push(byte);
            node_ref = &root;
            if reader.eof() {
                return Err(HuffmanError::CorruptData);
            }
            proof {
                let rest = walked(root, root, body@, k + 1);
                if rest is Ok {
                    assert(out@ + rest->Ok_0 =~= so_far + (seq![byte] + rest->Ok_0));
                }
            }
        }
    }
}

} // verus!
