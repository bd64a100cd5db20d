//! Why the Huffman decoder gives back what was encoded: every symbol of
//! the message has its leaf in the tree, the bits of its code lead from
//! the root to that leaf, and the bits are read back from the bytes as
//! they were written.

use crate::bits::{lemma_packed_bit, packed, stream_bit};
use crate::frequency::{
    counts_of, lemma_occurrence, lemma_occurrences_bounds, occurrences, EOF_SYMBOL, SYMBOL_LIMIT,
};
use crate::huffman::{
    code_of, code_table, coded_bits, huffman_after, huffman_decoded, huffman_encoded,
    huffman_magic, huffman_table, parsed_frequencies, walked, HuffmanError,
};
use crate::tree::{
    first_index, is_leaf_node, joined, leaf, leaves_of, lemma_first_index_in_range, merged,
    tree_of, wrapped, Node,
};
use crate::wire::{
    le_bytes, lemma_le_value_of_bytes, lemma_table_bytes_len, lemma_word_after, table_bytes,
    word_at,
};
use vstd::prelude::*;

verus! {

/// The bits of the code of a symbol lead from a node over its leaf to
/// that leaf: what is decoded from there on is the symbol, and what the
/// bits after the code decode to from the root on. At the leaf of the
/// end-of-stream symbol the message ends.
pub proof fn lemma_walk_code(root: Node, cur: Node, body: Seq<u8>, k: nat, s: u32, path: Seq<bool>)
    requires
        code_of(cur, s) == Some(path),
        !is_leaf_node(cur),
        k + path.len() <= 8 * body.len(),
        forall|j: int| 0 <= j < path.len() ==> stream_bit(body, k + j) == path[j],
    ensures
        path.len() > 0,
        walked(root, cur, body, k) == if s == EOF_SYMBOL {
            Ok::<Seq<u8>, HuffmanError>(Seq::empty())
        } else {
            huffman_after(seq![s as u8], walked(root, root, body, k + path.len()))
        },
    decreases cur,
{
    let in_right = match cur.right {
        Some(right) => code_of(*right, s),
        None => None,
    };
    let in_left = match cur.left {
        Some(left) => code_of(*left, s),
        None => None,
    };
    let next = if in_right is Some {
        *cur.right->Some_0
    } else {
        *cur.left->Some_0
    };
    let tail = if in_right is Some {
        in_right->Some_0
    } else {
        in_left->Some_0
    };
    assert(path[0] == (in_right is Some));
    assert(stream_bit(body, k as int + 0) == path[0]);
    assert(path.skip(1) =~= tail);
    if !is_leaf_node(next) {
        assert forall|j: int| 0 <= j < tail.len() implies stream_bit(body, k + 1 + j)
            == tail[j] by {
            assert(stream_bit(body, k + (j + 1)) == path[j + 1]);
        }
        lemma_walk_code(root, next, body, k + 1, s, tail);
    }
}

/// A symbol that has a leaf in one of two trees has a leaf in the node
/// over them.
pub proof fn lemma_joined_keeps_leaves(a: Node, b: Node, s: u32)
    requires
        code_of(a, s) is Some || code_of(b, s) is Some,
    ensures
        code_of(joined(a, b), s) is Some,
{
}

/// A symbol that has a leaf in a tree of a forest has a leaf in the tree
/// that the forest is merged to.
pub proof fn lemma_merged_keeps_leaves(forest: Seq<Node>, k: int, s: u32)
    requires
        0 <= k < forest.len(),
        code_of(forest[k], s) is Some,
    ensures
        code_of(merged(forest), s) is Some,
    decreases forest.len(),
{
    if forest.len() > 1 {
        let i = first_index(forest);
        let rest = forest.remove(i);
        lemma_first_index_in_range(forest);
        let j = first_index(rest);
        lemma_first_index_in_range(rest);
        let others = rest.remove(j);
        let node = joined(forest[i], rest[j]);
        let next = others.push(node);
        assert(rest.len() == forest.len() - 1);
        assert(others.len() == forest.len() - 2);
        assert(next[next.len() - 1] == node);
        assert(merged(forest) == merged(next));
        if k == i {
            lemma_joined_keeps_leaves(forest[i], rest[j], s);
            lemma_merged_keeps_leaves(next, next.len() - 1, s);
        } else {
            let in_rest: int = if k < i {
                k
            } else {
                k - 1
            };
            assert(rest[in_rest] == forest[k]);
            if in_rest == j {
                lemma_joined_keeps_leaves(forest[i], rest[j], s);
                lemma_merged_keeps_leaves(next, next.len() - 1, s);
            } else {
                let in_others: int = if in_rest < j {
                    in_rest
                } else {
                    in_rest - 1
                };
                assert(others[in_others] == rest[in_rest]);
                assert(next[in_others] == forest[k]);
                lemma_merged_keeps_leaves(next, in_others, s);
            }
        }
    }
}

/// A forest of two or more trees is merged to a tree that is not a leaf.
pub proof fn lemma_merged_is_node(forest: Seq<Node>)
    requires
        forest.len() >= 2,
    ensures
        !is_leaf_node(merged(forest)),
    decreases forest.len(),
{
    let i = first_index(forest);
    let rest = forest.remove(i);
    lemma_first_index_in_range(forest);
    let j = first_index(rest);
    lemma_first_index_in_range(rest);
    let node = joined(forest[i], rest[j]);
    let next = rest.remove(j).push(node);
    assert(rest.len() == forest.len() - 1);
    assert(next.len() == forest.len() - 1);
    assert(merged(forest) == merged(next));
    if next.len() >= 2 {
        lemma_merged_is_node(next);
    } else {
        assert(next[0] == node);
        assert(merged(next) == node);
        assert(node.left is Some);
    }
}

/// A symbol with a count over zero has its leaf among the leaves of the
/// table.
pub proof fn lemma_leaves_hold(table: Seq<u32>, s: int) -> (k: int)
    requires
        0 <= s < table.len() <= 0xFFFF_FFFF,
        table[s] != 0,
    ensures
        0 <= k < leaves_of(table).len(),
        leaves_of(table)[k] == leaf(s as u32, table[s] as u64),
    decreases table.len(),
{
    if s == table.len() - 1 {
        leaves_of(table).len() - 1
    } else {
        let k = lemma_leaves_hold(table.drop_last(), s);
        k
    }
}

/// A symbol with a count over zero has a leaf in the tree of the table,
/// and that tree is not a leaf.
pub proof fn lemma_tree_holds(table: Seq<u32>, s: int)
    requires
        0 <= s < table.len() <= 0xFFFF_FFFF,
        table[s] != 0,
    ensures
        code_of(tree_of(table), s as u32) is Some,
        !is_leaf_node(tree_of(table)),
{
    let leaves = leaves_of(table);
    let k = lemma_leaves_hold(table, s);
    assert(code_of(leaves[k], s as u32) is Some);
    if leaves.len() == 1 {
        assert(code_of(wrapped(leaves[0]), s as u32) is Some);
    } else {
        lemma_merged_keeps_leaves(leaves, k, s as u32);
        lemma_merged_is_node(leaves);
    }
}

/// The codes of two messages one after the other are the codes of the
/// first and then the codes of the second.
pub proof fn lemma_coded_bits_concat(a: Seq<u8>, b: Seq<u8>, codes: Seq<Seq<bool>>)
    ensures
        coded_bits(a + b, codes) == coded_bits(a, codes) + coded_bits(b, codes),
    decreases b.len(),
{
    if b.len() == 0 {
        assert(a + b =~= a);
        assert(coded_bits(a, codes) + coded_bits(b, codes) =~= coded_bits(a, codes));
    } else {
        lemma_coded_bits_concat(a, b.drop_last(), codes);
        assert((a + b).drop_last() =~= a + b.drop_last());
        assert(coded_bits(a + b, codes) =~= coded_bits(a, codes) + coded_bits(b, codes));
    }
}

/// The bits of a message from its byte `i` on are decoded to the bytes
/// from `i` on.
pub proof fn lemma_walk_message(data: Seq<u8>, i: int)
    requires
        0 <= i <= data.len() <= 0xFFFF_FFFF,
    ensures
        walked(
            tree_of(huffman_table(data)),
            tree_of(huffman_table(data)),
            packed(
                coded_bits(data, code_table(tree_of(huffman_table(data)))) + code_table(
                    tree_of(huffman_table(data)),
                )[EOF_SYMBOL as int],
            ),
            coded_bits(data.take(i), code_table(tree_of(huffman_table(data)))).len(),
        ) == Ok::<Seq<u8>, HuffmanError>(data.skip(i)),
    decreases data.len() - i,
{
    let table = huffman_table(data);
    let root = tree_of(table);
    let codes = code_table(root);
    let bits = coded_bits(data, codes) + codes[EOF_SYMBOL as int];
    let body = packed(bits);
    let before = coded_bits(data.take(i), codes);
    let s: int = if i < data.len() {
        data[i] as int
    } else {
        EOF_SYMBOL as int
    };
    if i < data.len() {
        lemma_occurs(data, i);
    }
    lemma_tree_holds(table, s);
    let path = code_of(root, s as u32)->Some_0;
    assert(codes[s] == path);
    // where the code of the symbol stands among the bits
    lemma_coded_bits_concat(data.take(i), data.skip(i), codes);
    assert(data.take(i) + data.skip(i) =~= data);
    if i < data.len() {
        lemma_coded_bits_concat(seq![data[i]], data.skip(i + 1), codes);
        assert(seq![data[i]] + data.skip(i + 1) =~= data.skip(i));
        assert(seq![data[i]].drop_last() =~= Seq::<u8>::empty());
        assert(coded_bits(seq![data[i]], codes) =~= path) by {
            reveal_with_fuel(coded_bits, 2);
        }
        lemma_coded_bits_concat(data.take(i), seq![data[i]], codes);
        assert(data.take(i) + seq![data[i]] =~= data.take(i + 1));
    } else {
        assert(data.skip(i) =~= Seq::<u8>::empty());
    }
    assert forall|j: int| 0 <= j < path.len() implies stream_bit(body, before.len() + j)
        == path[j] by {
        lemma_packed_bit(bits, before.len() + j);
        assert(bits[before.len() + j] == path[j]);
    }
    lemma_packed_bit(bits, 0);
    lemma_walk_code(root, root, body, before.len(), s as u32, path);
    if i < data.len() {
        lemma_walk_message(data, i + 1);
        assert(seq![s as u8] + data.skip(i + 1) =~= data.skip(i));
    }
}

/// A byte of a message of at most 2^32 - 1 bytes has a count over zero in
/// the table of the message.
pub proof fn lemma_occurs(data: Seq<u8>, i: int)
    requires
        0 <= i < data.len() <= 0xFFFF_FFFF,
    ensures
        huffman_table(data)[data[i] as int] != 0,
        huffman_table(data)[data[i] as int] == occurrences(data, data[i] as int),
{
    lemma_occurrences_bounds(data, data[i] as int);
    lemma_occurrence(data, i);
}

/// The header of the Huffman stream of a message is read back as the
/// table of the message, and what follows it are the bytes that hold the
/// codes.
pub proof fn lemma_huffman_header(data: Seq<u8>)
    ensures
        huffman_encoded(data).len() >= 8 + 4 * SYMBOL_LIMIT,
        huffman_encoded(data).subrange(0, 4) == huffman_magic(),
        parsed_frequencies(huffman_encoded(data)) == Ok::<Seq<u32>, HuffmanError>(
            huffman_table(data),
        ),
        huffman_encoded(data).skip(8 + 4 * SYMBOL_LIMIT as int) == packed(
            coded_bits(data, code_table(tree_of(huffman_table(data)))) + code_table(
                tree_of(huffman_table(data)),
            )[EOF_SYMBOL as int],
        ),
{
    let table = huffman_table(data);
    let codes = code_table(tree_of(table));
    let body = packed(coded_bits(data, codes) + codes[EOF_SYMBOL as int]);
    let counts = counts_of(table);
    let front = huffman_magic() + le_bytes(SYMBOL_LIMIT as nat);
    let input = huffman_encoded(data);
    lemma_table_bytes_len(counts);
    assert(front.len() == 8);
    assert(table_bytes(counts).len() == 4 * SYMBOL_LIMIT);
    assert(input =~= front + table_bytes(counts) + body);
    assert(input.subrange(0, 4) =~= huffman_magic());
    assert(input.subrange(4, 8) =~= le_bytes(SYMBOL_LIMIT as nat));
    lemma_le_value_of_bytes(SYMBOL_LIMIT as nat);
    assert(word_at(input, 4) == SYMBOL_LIMIT);
    let parsed = Seq::new(SYMBOL_LIMIT as nat, |i: int| word_at(input, 8 + 4 * i) as u32);
    assert forall|i: int| 0 <= i < SYMBOL_LIMIT implies parsed[i] == table[i] by {
        lemma_word_after(front, counts, body, i);
        assert(counts[i] == table[i]);
    }
    assert(parsed =~= table);
    assert(input.skip(8 + 4 * SYMBOL_LIMIT as int) =~= body);
}

/// Round trip: every message of at most 2^32 - 1 bytes is decoded from
/// its Huffman stream as it was.
pub proof fn lemma_huffman_round_trip(data: Seq<u8>)
    requires
        data.len() <= 0xFFFF_FFFF,
    ensures
        huffman_decoded(huffman_encoded(data)) == Ok::<Seq<u8>, HuffmanError>(data),
{
    lemma_huffman_header(data);
    lemma_walk_message(data, 0);
    assert(data.take(0) =~= Seq::<u8>::empty());
    assert(data.skip(0) =~= data);
}

} // verus!
