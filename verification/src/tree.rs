//! The code tree of the Huffman coder: a leaf for each symbol that occurs,
//! and the two trees of least weight joined again and again until one
//! tree is left.

use crate::frequency::EOF_SYMBOL;
use vstd::prelude::*;

verus! {

/// A tree: a leaf with its symbol, or a node over one or two trees. The
/// weight `freq` of a node is the sum of the weights under it.
#[derive(Debug, PartialEq, Eq)]
pub struct Node {
    pub symbol: u32,
    pub freq: u64,
    pub left: Option<Box<Node>>,
    pub right: Option<Box<Node>>,
}

/// Whether a tree is a leaf.
pub open spec fn is_leaf_node(node: Node) -> bool {
    node.left is None && node.right is None
}

/// The leaf of a symbol.
pub open spec fn leaf(symbol: u32, freq: u64) -> Node {
    Node { symbol, freq, left: None, right: None }
}

/// The node over two trees.
pub open spec fn joined(a: Node, b: Node) -> Node {
    Node {
        symbol: 0,
        freq: (a.freq + b.freq) as u64,
        left: Some(Box::new(a)),
        right: Some(Box::new(b)),
    }
}

/// The node over a single tree.
pub open spec fn wrapped(only: Node) -> Node {
    Node { symbol: 0, freq: only.freq, left: Some(Box::new(only)), right: None }
}

/// The order in which trees are taken: by weight, and among trees of one
/// weight by symbol.
pub open spec fn ranks_before(a: Node, b: Node) -> bool {
    a.freq < b.freq || (a.freq == b.freq && a.symbol < b.symbol)
}

/// The place of the tree that is taken next: the first of those that no
/// other tree ranks before.
pub open spec fn first_index(forest: Seq<Node>) -> int
    decreases forest.len(),
{
    if forest.len() <= 1 {
        0
    } else {
        let before = first_index(forest.drop_last());
        if ranks_before(forest.last(), forest[before]) {
            forest.len() - 1
        } else {
            before
        }
    }
}

/// The leaves of a table: one for each symbol with a count over zero, in
/// the order of the symbols.
pub open spec fn leaves_of(table: Seq<u32>) -> Seq<Node>
    decreases table.len(),
{
    if table.len() == 0 {
        Seq::empty()
    } else if table.last() == 0 {
        leaves_of(table.drop_last())
    } else {
        leaves_of(table.drop_last()).push(leaf((table.len() - 1) as u32, table.last() as u64))
    }
}

/// The tree that is left when the two trees that rank first are joined
/// until there is one.
pub open spec fn merged(forest: Seq<Node>) -> Node
    decreases forest.len(),
{
    if forest.len() <= 1 {
        forest[0]
    } else {
        let i = first_index(forest);
        let rest = forest.remove(i);
        let j = first_index(rest);
        proof {
            lemma_first_index_in_range(forest);
            lemma_first_index_in_range(rest);
        }
        merged(rest.remove(j).push(joined(forest[i], rest[j])))
    }
}

/// The code tree of a table. A table without a count gives the leaf of
/// the end-of-stream symbol, and a table with one count the node over
/// the leaf of its symbol.
pub open spec fn tree_of(table: Seq<u32>) -> Node {
    let leaves = leaves_of(table);
    if leaves.len() == 0 {
        leaf(EOF_SYMBOL as u32, 1)
    } else if leaves.len() == 1 {
        wrapped(leaves[0])
    } else {
        merged(leaves)
    }
}

/// Whether every leaf of a tree has a symbol under `bound`.
pub open spec fn symbols_under(node: Node, bound: int) -> bool
    decreases node,
{
    if is_leaf_node(node) {
        node.symbol < bound
    } else {
        &&& node.left matches Some(left) ==> symbols_under(*left, bound)
        &&& node.right matches Some(right) ==> symbols_under(*right, bound)
    }
}

/// The sum of the weights of some trees.
pub open spec fn weight_sum(forest: Seq<Node>) -> nat
    decreases forest.len(),
{
    if forest.len() == 0 {
        0
    } else {
        weight_sum(forest.drop_last()) + forest.last().freq as nat
    }
}

/// The place of the tree that is taken next is a place of the forest.
pub proof fn lemma_first_index_in_range(forest: Seq<Node>)
    requires
        forest.len() > 0,
    ensures
        0 <= first_index(forest) < forest.len(),
    decreases forest.len(),
{
    if forest.len() > 1 {
        lemma_first_index_in_range(forest.drop_last());
    }
}

/// Taking a tree out of a forest takes its weight from the sum.
pub proof fn lemma_weight_sum_remove(forest: Seq<Node>, i: int)
    requires
        0 <= i < forest.len(),
    ensures
        weight_sum(forest.remove(i)) + forest[i].freq == weight_sum(forest),
    decreases forest.len(),
{
    if i == forest.len() - 1 {
        assert(forest.remove(i) =~= forest.drop_last());
    } else {
        lemma_weight_sum_remove(forest.drop_last(), i);
        assert(forest.remove(i).drop_last() =~= forest.drop_last().remove(i));
    }
}

/// Putting a tree into a forest adds its weight to the sum.
pub proof fn lemma_weight_sum_push(forest: Seq<Node>, node: Node)
    ensures
        weight_sum(forest.push(node)) == weight_sum(forest) + node.freq,
{
    assert(forest.push(node).drop_last() =~= forest);
}

/// The weights of the leaves of a table add up to at most the greatest
/// count for each symbol.
pub proof fn lemma_leaves_weight(table: Seq<u32>)
    ensures
        weight_sum(leaves_of(table)) <= table.len() * 0xFFFF_FFFF,
        leaves_of(table).len() <= table.len(),
    decreases table.len(),
{
    if table.len() > 0 {
        lemma_leaves_weight(table.drop_last());
        if table.last() != 0 {
            lemma_weight_sum_push(
                leaves_of(table.drop_last()),
                leaf((table.len() - 1) as u32, table.last() as u64),
            );
        }
    }
}

/// A tree whose symbols are under a bound has them under every greater
/// bound.
pub proof fn lemma_symbols_under_more(node: Node, bound: int, more: int)
    requires
        symbols_under(node, bound),
        bound <= more,
    ensures
        symbols_under(node, more),
    decreases node,
{
    if !is_leaf_node(node) {
        if node.left is Some {
            lemma_symbols_under_more(*node.left->Some_0, bound, more);
        }
        if node.right is Some {
            lemma_symbols_under_more(*node.right->Some_0, bound, more);
        }
    }
}

/// Tells whether a tree is a leaf.
pub fn is_leaf(node: &Node) -> (r: bool)
    ensures
        r == is_leaf_node(*node),
{
    node.left.is_none() && node.right.is_none()
}

/// Takes out of the forest the tree that ranks first.
pub fn take_first(forest: &mut Vec<Node>) -> (node: Node)
    requires
        old(forest)@.len() > 0,
    ensures
        node == old(forest)@[first_index(old(forest)@)],
        final(forest)@ == old(forest)@.remove(first_index(old(forest)@)),
{
    let mut best: usize = 0;
    let mut k: usize = 1;
    assert(forest@.take(1).drop_last() =~= Seq::<Node>::empty());
    while k < forest.len()
        invariant
            1 <= k <= forest.len(),
            0 <= best < k,
            best == first_index(forest@.take(k as int)),
        decreases forest.len() - k,
    {
        proof {
            assert(forest@.take(k + 1).drop_last() =~= forest@.take(k as int));
        }
        let other = &forest[k];
        let least = &forest[best];
        if other.freq < least.freq || (other.freq == least.freq && other.symbol < least.symbol) {
            best = k;
        }
        k = k + 1;
    }
    assert(forest@.take(k as int) =~= forest@);
    forest.remove(best)
}

/// Builds the code tree of a table.
pub fn build_tree(freq: &[u32]) -> (root: Node)
    requires
        freq@.len() <= 0xFFFF_FFFF,
    ensures
        root == tree_of(freq@),
        symbols_under(root, freq@.len() as int) || root == leaf(EOF_SYMBOL as u32, 1),
{
    let mut heap: Vec<Node> = Vec::new();
    let mut s: usize = 0;
    while s < freq.len()
        invariant
            s <= freq.len(),
            freq@.len() <= 0xFFFF_FFFF,
            heap@ == leaves_of(freq@.take(s as int)),
            forall|k: int| 0 <= k < heap@.len() ==> symbols_under(#[trigger] heap@[k], s as int),
        decreases freq.len() - s,
    {
        proof {
            assert(freq@.take(s + 1).drop_last() =~= freq@.take(s as int));
        }
        proof {
            assert forall|k: int| 0 <= k < heap@.len() implies symbols_under(
                #[trigger] heap@[k],
                s + 1,
            ) by {
                lemma_symbols_under_more(heap@[k], s as int, s + 1);
            }
        }
        if freq[s] != 0 {
            heap.push(Node { symbol: s as u32, freq: freq[s] as u64, left: None, right: None });
        }
        s = s + 1;
    }
    proof {
        assert(freq@.take(s as int) =~= freq@);
        lemma_leaves_weight(freq@);
    }
    if heap.len() == 0 {
        return Node { symbol: EOF_SYMBOL as u32, freq: 1, left: None, right: None };
    }
    if heap.len() == 1 {
        let only = take_first(&mut heap);
        return Node { symbol: 0, freq: only.freq, left: Some(Box::new(only)), right: None };
    }
    let ghost leaves = heap@;
    while heap.len() > 1
        invariant
            heap@.len() >= 1,
            merged(heap@) == merged(leaves),
            weight_sum(heap@) <= 0xFFFF_FFFF * 0xFFFF_FFFF,
            forall|k: int|
                0 <= k < heap@.len() ==> symbols_under(#[trigger] heap@[k], freq@.len() as int),
        decreases heap@.len(),
    {
        let ghost forest = heap@;
        proof {
            lemma_first_index_in_range(forest);
            lemma_weight_sum_remove(forest, first_index(forest));
        }
        let a = take_first(&mut heap);
        let ghost rest = heap@;
        proof {
            lemma_first_index_in_range(rest);
            lemma_weight_sum_remove(rest, first_index(rest));
        }
        let b = take_first(&mut heap);
        proof {
            lemma_weight_sum_push(heap@, joined(a, b));
        }
        let sum: u64 = a.freq + b.freq;
        heap.push(Node { symbol: 0, freq: sum, left: Some(Box::new(a)), right: Some(Box::new(b)) });
    }
    take_first(&mut heap)
}

} // verus!
