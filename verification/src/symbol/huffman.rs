//! Huffman codes.
//!
//! A Huffman tree over `n` symbols with given weights arises from `n`
//! leaves, one per symbol, by merging the two nodes of least weight into a
//! new node, whose weight is the sum of theirs, until one node is left.
//! Among nodes of the same weight the one with the lower index comes
//! first; the leaves have the indices of their symbols, and the node of the
//! `k`-th merge has the index `n + k`. The course of the merges describes
//! the tree: [`huffman_merges`].

use vstd::prelude::*;

use crate::bit_array::BitArray;
use crate::symbol::{DecodingError, EncodingError};

verus! {

/// Whether the node `a` comes before the node `b`: nodes are pairs of a
/// weight and an index, ordered by weight and then by index.
pub open spec fn node_before(a: (nat, nat), b: (nat, nat)) -> bool {
    a.0 < b.0 || (a.0 == b.0 && a.1 < b.1)
}

/// The place of the first node of `heap` that no other one comes before.
pub open spec fn min_index(heap: Seq<(nat, nat)>) -> int
    decreases heap.len(),
{
    if heap.len() <= 1 {
        0
    } else {
        let best = min_index(heap.drop_last());
        if node_before(heap.last(), heap[best]) {
            heap.len() - 1
        } else {
            best
        }
    }
}

/// The sum of the weights of the nodes of `heap`.
pub open spec fn total_weight(heap: Seq<(nat, nat)>) -> nat
    decreases heap.len(),
{
    if heap.len() == 0 {
        0
    } else {
        total_weight(heap.drop_last()) + heap.last().0
    }
}

/// The leaves of the tree for the weights `weights`.
pub open spec fn leaves(weights: Seq<nat>) -> Seq<(nat, nat)> {
    Seq::new(weights.len(), |i: int| (weights[i], i as nat))
}

/// The nodes that are left after the two least nodes of `heap` were merged
/// into the node with the index `next`.
pub open spec fn merge_step(heap: Seq<(nat, nat)>, next: nat) -> Seq<(nat, nat)> {
    let first = min_index(heap);
    let rest = heap.remove(first);
    let second = min_index(rest);
    rest.remove(second).push((heap[first].0 + rest[second].0, next))
}

/// The indices of the two nodes that are merged first: the least node of
/// `heap`, and the least of the others.
pub open spec fn merged_pair(heap: Seq<(nat, nat)>) -> (nat, nat) {
    let first = min_index(heap);
    let rest = heap.remove(first);
    (heap[first].1, rest[min_index(rest)].1)
}

/// The course of the merges from the nodes `heap` on, the next new node
/// having the index `next`: for every merge the indices of the two nodes
/// that were merged, the lesser node first.
pub open spec fn huffman_merges(heap: Seq<(nat, nat)>, next: nat) -> Seq<(nat, nat)>
    decreases heap.len(),
{
    if heap.len() < 2 {
        Seq::empty()
    } else {
        proof {
            lemma_merge_step(heap, next);
        }
        seq![merged_pair(heap)] + huffman_merges(merge_step(heap, next), next + 1)
    }
}

/// The array of an encoder tree over `n` symbols whose merges are
/// `merges`: the entry of a node holds twice the index of the node it was
/// merged into, plus one if it was the second of the two; the entry of the
/// root, and of a node that was never merged, is zero.
pub open spec fn encoder_nodes(merges: Seq<(nat, nat)>, n: nat) -> Seq<nat>
    decreases merges.len(),
{
    if merges.len() == 0 {
        Seq::new((2 * n - 1) as nat, |i: int| 0nat)
    } else {
        let k = (merges.len() - 1) as nat;
        encoder_nodes(merges.drop_last(), n).update(merges.last().0 as int, 2 * (n + k)).update(
            merges.last().1 as int,
            2 * (n + k) + 1,
        )
    }
}

/// Whether `merges` can be the course of the merges of a tree over `n`
/// symbols: every merge joins two nodes that are there before it.
pub open spec fn merges_ordered(merges: Seq<(nat, nat)>, n: nat) -> bool {
    forall|k: int|
        0 <= k < merges.len() ==> (#[trigger] merges[k]).0 < n + k && merges[k].1 < n + k
}

/// The bits on the way from the node `index` up to the root of the encoder
/// tree `nodes`: for every node on the way whether it was the second of the
/// two that were merged.
pub open spec fn bits_to_root(nodes: Seq<nat>, index: nat) -> Seq<bool>
    decreases nodes.len() - index,
{
    if index >= nodes.len() || nodes[index as int] == 0 || nodes[index as int] / 2 <= index
        || nodes[index as int] / 2 >= nodes.len() {
        Seq::empty()
    } else {
        seq![nodes[index as int] % 2 == 1] + bits_to_root(nodes, nodes[index as int] / 2)
    }
}

/// The codeword of `symbol` in the encoder tree `nodes`: the bits on the
/// way from the root down to the leaf of the symbol.
pub open spec fn codeword(nodes: Seq<nat>, symbol: nat) -> Seq<bool> {
    bits_to_root(nodes, symbol).reverse()
}

/// The symbol that the decoder tree `nodes` over `n` symbols finds from
/// the node `index` on by the bits of `bits` from `pos` on, and the place
/// behind the last bit that it has read; `None` where the bits run out.
pub open spec fn walk_down(nodes: Seq<(nat, nat)>, n: nat, bits: Seq<bool>, index: nat, pos: nat) -> Option<
    (nat, nat),
>
    decreases index,
{
    if index < n {
        Some((index, pos))
    } else if pos >= bits.len() || index - n >= nodes.len() {
        None
    } else {
        let child = if bits[pos as int] {
            nodes[index - n].1
        } else {
            nodes[index - n].0
        };
        if child < index {
            walk_down(nodes, n, bits, child, pos + 1)
        } else {
            None
        }
    }
}

/// The nodes of a heap of the executable code, as pairs of numbers.
pub open spec fn heap_view(heap: Seq<(u128, usize)>) -> Seq<(nat, nat)> {
    Seq::new(heap.len(), |i: int| (heap[i].0 as nat, heap[i].1 as nat))
}

/// The numeric values of weights.
pub open spec fn weight_values<P: BitArray>(weights: Seq<P>) -> Seq<nat> {
    Seq::new(weights.len(), |i: int| weights[i].as_nat())
}

/// The least node of `heap` is one of its nodes.
pub proof fn lemma_min_index_in(heap: Seq<(nat, nat)>)
    requires
        heap.len() > 0,
    ensures
        0 <= min_index(heap) < heap.len(),
    decreases heap.len(),
{
    if heap.len() > 1 {
        lemma_min_index_in(heap.drop_last());
    }
}

/// The total weight of a heap without one of its nodes.
pub proof fn lemma_total_remove(heap: Seq<(nat, nat)>, i: int)
    requires
        0 <= i < heap.len(),
    ensures
        total_weight(heap.remove(i)) + heap[i].0 == total_weight(heap),
    decreases heap.len(),
{
    if i == heap.len() - 1 {
        assert(heap.remove(i) =~= heap.drop_last());
    } else {
        lemma_total_remove(heap.drop_last(), i);
        assert(heap.remove(i).drop_last() =~= heap.drop_last().remove(i));
        assert(heap.remove(i).last() == heap.last());
    }
}

/// The total weight of a heap with one more node.
pub proof fn lemma_total_push(heap: Seq<(nat, nat)>, node: (nat, nat))
    ensures
        total_weight(heap.push(node)) == total_weight(heap) + node.0,
{
    assert(heap.push(node).drop_last() =~= heap);
}

/// A merge leaves the total weight as it is and takes one node away.
pub proof fn lemma_merge_step(heap: Seq<(nat, nat)>, next: nat)
    requires
        heap.len() >= 2,
    ensures
        merge_step(heap, next).len() == heap.len() - 1,
        total_weight(merge_step(heap, next)) == total_weight(heap),
{
    let first = min_index(heap);
    lemma_min_index_in(heap);
    let rest = heap.remove(first);
    let second = min_index(rest);
    lemma_min_index_in(rest);
    lemma_total_remove(heap, first);
    lemma_total_remove(rest, second);
    lemma_total_push(rest.remove(second), (heap[first].0 + rest[second].0, next));
}

/// The total weight of leaves whose weights fit 64 bits.
pub proof fn lemma_total_leaves(heap: Seq<(nat, nat)>)
    requires
        forall|i: int| 0 <= i < heap.len() ==> (#[trigger] heap[i]).0 < 0x1_0000_0000_0000_0000,
    ensures
        total_weight(heap) <= heap.len() * 0xffff_ffff_ffff_ffff,
    decreases heap.len(),
{
    if heap.len() > 0 {
        assert forall|i: int| 0 <= i < heap.drop_last().len() implies (
        #[trigger] heap.drop_last()[i]).0 < 0x1_0000_0000_0000_0000 by {
            assert(heap.drop_last()[i] == heap[i]);
        }
        lemma_total_leaves(heap.drop_last());
        assert(heap.len() * 0xffff_ffff_ffff_ffff == (heap.len() - 1) * 0xffff_ffff_ffff_ffff
            + 0xffff_ffff_ffff_ffff) by (nonlinear_arith);
    } else {
        assert(0 * 0xffff_ffff_ffff_ffff == 0) by (nonlinear_arith);
    }
}

/// No node weighs more than all nodes together.
pub proof fn lemma_weight_below_total(heap: Seq<(nat, nat)>, i: int)
    requires
        0 <= i < heap.len(),
    ensures
        heap[i].0 <= total_weight(heap),
{
    lemma_total_remove(heap, i);
}

/// Takes the least node out of `heap` and hands it back.
fn pop_min(heap: &mut Vec<(u128, usize)>) -> (node: (u128, usize))
    requires
        old(heap)@.len() > 0,
    ensures
        node == old(heap)@[min_index(heap_view(old(heap)@))],
        final(heap)@ == old(heap)@.remove(min_index(heap_view(old(heap)@))),
        0 <= min_index(heap_view(old(heap)@)) < old(heap)@.len(),
{
    let ghost all = heap_view(heap@);
    let mut best: usize = 0;
    let mut i: usize = 1;
    proof {
        assert(all.take(1).len() == 1);
    }
    while i < heap.len()
        invariant
            1 <= i <= heap@.len(),
            best < i,
            all == heap_view(heap@),
            heap@ == old(heap)@,
            best == min_index(all.take(i as int)),
        decreases heap@.len() - i,
    {
        proof {
            assert(all.take(i + 1).drop_last() =~= all.take(i as int));
            assert(all.take(i + 1).last() == all[i as int]);
            assert(all.take(i as int)[best as int] == all[best as int]);
        }
        let candidate = heap[i];
        let current = heap[best];
        if candidate.0 < current.0 || (candidate.0 == current.0 && candidate.1 < current.1) {
            best = i;
        }
        i += 1;
    }
    proof {
        assert(all.take(i as int) =~= all);
    }
    heap.remove(best)
}

/// An encoder for a Huffman code.
#[derive(Debug)]
pub struct EncoderHuffmanTree {
    nodes: Vec<usize>,
}

/// A decoder for a Huffman code.
#[derive(Debug)]
pub struct DecoderHuffmanTree {
    nodes: Vec<[usize; 2]>,
}

/// The numbers of an array of indices.
pub open spec fn index_values(nodes: Seq<usize>) -> Seq<nat> {
    Seq::new(nodes.len(), |i: int| nodes[i] as nat)
}

/// The pairs of an array of arrays of two indices.
pub open spec fn pair_values(nodes: Seq<[usize; 2]>) -> Seq<(nat, nat)> {
    Seq::new(nodes.len(), |i: int| (nodes[i][0] as nat, nodes[i][1] as nat))
}

/// The heap of the leaves for `probabilities`.
fn leaf_heap<P: BitArray>(probabilities: &[P]) -> (heap: Vec<(u128, usize)>)
    ensures
        heap_view(heap@) == leaves(weight_values(probabilities@)),
{
    let mut heap: Vec<(u128, usize)> = Vec::new();
    let mut i: usize = 0;
    while i < probabilities.len()
        invariant
            i <= probabilities@.len(),
            heap@.len() == i,
            forall|j: int|
                0 <= j < i ==> (#[trigger] heap@[j]).0 == probabilities@[j].as_nat() && heap@[j].1
                    == j,
        decreases probabilities@.len() - i,
    {
        heap.push((probabilities[i].to_u64() as u128, i));
        i += 1;
    }
    proof {
        assert(heap_view(heap@) =~= leaves(weight_values(probabilities@)));
    }
    heap
}

impl Clone for EncoderHuffmanTree {
    fn clone(&self) -> (copy: Self)
        ensures
            copy.nodes_spec() == self.nodes_spec(),
    {
        proof {
            use_type_invariant(self);
        }
        let mut nodes: Vec<usize> = Vec::new();
        let mut i: usize = 0;
        while i < self.nodes.len()
            invariant
                i <= self.nodes@.len(),
                nodes@ == self.nodes@.take(i as int),
            decreases self.nodes@.len() - i,
        {
            nodes.push(self.nodes[i]);
            proof {
                assert(self.nodes@.take(i as int).push(self.nodes@[i as int]) =~= self.nodes@.take(
                    i + 1,
                ));
            }
            i += 1;
        }
        proof {
            assert(self.nodes@.take(i as int) =~= self.nodes@);
        }
        Self { nodes }
    }
}

impl Clone for DecoderHuffmanTree {
    fn clone(&self) -> (copy: Self)
        ensures
            copy.nodes_spec() == self.nodes_spec(),
    {
        proof {
            use_type_invariant(self);
        }
        let mut nodes: Vec<[usize; 2]> = Vec::new();
        let mut i: usize = 0;
        while i < self.nodes.len()
            invariant
                i <= self.nodes@.len(),
                nodes@ == self.nodes@.take(i as int),
            decreases self.nodes@.len() - i,
        {
            nodes.push(self.nodes[i]);
            proof {
                assert(self.nodes@.take(i as int).push(self.nodes@[i as int]) =~= self.nodes@.take(
                    i + 1,
                ));
            }
            i += 1;
        }
        proof {
            assert(self.nodes@.take(i as int) =~= self.nodes@);
        }
        Self { nodes }
    }
}

impl EncoderHuffmanTree {
    #[verifier::type_invariant]
    spec fn inv(&self) -> bool {
        self.wf()
    }

    /// The array of the tree.
    pub closed spec fn nodes_spec(&self) -> Seq<nat> {
        index_values(self.nodes@)
    }

    /// The tree is not empty, and every entry is zero or names a node with
    /// a higher index.
    pub open spec fn wf(&self) -> bool {
        &&& self.nodes_spec().len() >= 1
        &&& forall|i: int|
            0 <= i < self.nodes_spec().len() ==> #[trigger] self.nodes_spec()[i] == 0 || i
                < self.nodes_spec()[i] / 2 < self.nodes_spec().len()
    }

    /// The encoder for the Huffman code of the symbols `0, 1, ...` with
    /// the weights `probabilities`.
    pub fn from_probabilities<P: BitArray>(probabilities: &[P]) -> (tree: Self)
        requires
            1 <= probabilities@.len() <= usize::MAX / 4,
        ensures
            tree.wf(),
            tree.nodes_spec() == encoder_nodes(
                huffman_merges(
                    leaves(weight_values(probabilities@)),
                    probabilities@.len() as nat,
                ),
                probabilities@.len() as nat,
            ),
    {
        let n: usize = probabilities.len();
        let mut heap = leaf_heap(probabilities);
        let mut nodes: Vec<usize> = Vec::new();
        let mut i: usize = 0;
        while i < 2 * n - 1
            invariant
                i <= 2 * n - 1,
                1 <= n <= usize::MAX / 4,
                nodes@.len() == i,
                forall|j: int| 0 <= j < i ==> nodes@[j] == 0,
            decreases 2 * n - 1 - i,
        {
            nodes.push(0);
            i += 1;
        }
        let ghost start = heap_view(heap@);
        let ghost done = Seq::<(nat, nat)>::empty();
        let mut next: usize = n;
        proof {
            assert forall|j: int| 0 <= j < start.len() implies (#[trigger] start[j]).0
                < 0x1_0000_0000_0000_0000 by {
                probabilities@[j].lemma_value_bound();
                vstd::arithmetic::power2::lemma2_to64_rest();
                P::lemma_width();
                crate::arith::lemma_pow2_le(P::spec_bits(), 64);
            }
            lemma_total_leaves(start);
            assert forall|j: int| 0 <= j < heap@.len() implies (#[trigger] heap@[j]).1 < n by {
                assert(start[j].1 == j);
            }
            assert(start.len() * 0xffff_ffff_ffff_ffff <= 0x3fff_ffff_ffff_ffff
                * 0xffff_ffff_ffff_ffff) by (nonlinear_arith)
                requires
                    start.len() <= 0x3fff_ffff_ffff_ffff,
            ;
            assert(index_values(nodes@) =~= encoder_nodes(done, n as nat));
            assert(done + huffman_merges(start, n as nat) =~= huffman_merges(start, n as nat));
        }
        while heap.len() >= 2
            invariant
                1 <= n <= usize::MAX / 4,
                nodes@.len() == 2 * n - 1,
                heap@.len() >= 1,
                next == n + done.len(),
                heap@.len() + done.len() == n,
                total_weight(heap_view(heap@)) <= 0x3fff_ffff_ffff_ffff * 0xffff_ffff_ffff_ffff,
                forall|j: int| 0 <= j < heap@.len() ==> (#[trigger] heap@[j]).1 < next,
                done + huffman_merges(heap_view(heap@), next as nat) == huffman_merges(
                    start,
                    n as nat,
                ),
                index_values(nodes@) == encoder_nodes(done, n as nat),
                forall|j: int|
                    0 <= j < nodes@.len() ==> #[trigger] nodes@[j] == 0 || j < nodes@[j] / 2 < next,
            decreases heap@.len(),
        {
            let ghost before = heap_view(heap@);
            let ghost before_exec = heap@;
            let first = pop_min(&mut heap);
            let ghost rest = heap_view(heap@);
            let ghost rest_exec = heap@;
            proof {
                assert(rest =~= before.remove(min_index(before)));
            }
            let second = pop_min(&mut heap);
            proof {
                assert(heap_view(heap@) =~= rest.remove(min_index(rest)));
                lemma_merge_step(before, next as nat);
                lemma_weight_below_total(before, min_index(before));
                lemma_total_remove(before, min_index(before));
                lemma_weight_below_total(rest, min_index(rest));
                assert(first.0 + second.0 <= total_weight(before));
            }
            let ghost earlier = heap@;
            heap.push((first.0 + second.0, next));
            proof {
                assert(heap_view(heap@) =~= merge_step(before, next as nat));
                assert(merged_pair(before) == (first.1 as nat, second.1 as nat));
                let rest_merges = huffman_merges(merge_step(before, next as nat), (next + 1) as nat);
                assert(done.push(merged_pair(before)) + rest_merges =~= done + (seq![
                    merged_pair(before),
                ] + rest_merges));
                assert(before_exec[min_index(before)].1 < next);
                assert(rest_exec[min_index(rest)].1 < next);
            }
            let ghost old_nodes = nodes@;
            nodes.set(first.1, next * 2);
            nodes.set(second.1, next * 2 + 1);
            proof {
                let grown = done.push(merged_pair(before));
                assert(grown.drop_last() =~= done);
                assert(index_values(nodes@) =~= encoder_nodes(grown, n as nat));
                done = grown;
            }
            next += 1;
        }
        proof {
            assert(huffman_merges(heap_view(heap@), next as nat) =~= Seq::empty());
            assert(done + Seq::<(nat, nat)>::empty() =~= done);
        }
        Self { nodes }
    }

    /// The encoder for the tree whose merges are `merges`, over one symbol
    /// more than there are merges; `None` where a merge names a node that
    /// is not there before it, or where the merges are too many.
    pub fn from_merges(merges: &[[usize; 2]]) -> (result: Option<Self>)
        ensures
            result is Some <==> merges@.len() < usize::MAX / 4 && merges_ordered(
                pair_values(merges@),
                (merges@.len() + 1) as nat,
            ),
            result is Some ==> result->Some_0.nodes_spec() == encoder_nodes(
                pair_values(merges@),
                (merges@.len() + 1) as nat,
            ),
    {
        let count: usize = merges.len();
        if count >= usize::MAX / 4 {
            return None;
        }
        let n: usize = count + 1;
        let mut nodes: Vec<usize> = Vec::new();
        let mut i: usize = 0;
        while i < 2 * n - 1
            invariant
                i <= 2 * n - 1,
                1 <= n <= usize::MAX / 4,
                nodes@.len() == i,
                forall|j: int| 0 <= j < i ==> nodes@[j] == 0,
            decreases 2 * n - 1 - i,
        {
            nodes.push(0);
            i += 1;
        }
        let ghost pairs = pair_values(merges@);
        proof {
            assert(pairs.take(0) =~= Seq::<(nat, nat)>::empty());
            assert(index_values(nodes@) =~= encoder_nodes(pairs.take(0), n as nat));
        }
        let mut k: usize = 0;
        while k < count
            invariant
                k <= count,
                count == merges@.len(),
                n == count + 1,
                count < usize::MAX / 4,
                pairs == pair_values(merges@),
                nodes@.len() == 2 * n - 1,
                forall|j: int| 0 <= j < k ==> (#[trigger] pairs[j]).0 < n + j && pairs[j].1 < n + j,
                index_values(nodes@) == encoder_nodes(pairs.take(k as int), n as nat),
                forall|j: int|
                    0 <= j < nodes@.len() ==> #[trigger] nodes@[j] == 0 || j < nodes@[j] / 2 < n + k,
            decreases count - k,
        {
            let pair: [usize; 2] = merges[k];
            let first: usize = pair[0];
            let second: usize = pair[1];
            proof {
                assert(pairs[k as int] == (first as nat, second as nat));
            }
            if first >= n + k || second >= n + k {
                return None;
            }
            nodes.set(first, (n + k) * 2);
            nodes.set(second, (n + k) * 2 + 1);
            proof {
                let grown = pairs.take(k + 1);
                assert(grown.drop_last() =~= pairs.take(k as int));
                assert(grown.last() == pairs[k as int]);
                assert(index_values(nodes@) =~= encoder_nodes(grown, n as nat));
            }
            k += 1;
        }
        proof {
            assert(pairs.take(count as int) =~= pairs);
        }
        let tree = Self { nodes };
        proof {
            assert(tree.nodes_spec() == encoder_nodes(pairs, n as nat));
            assert forall|j: int| 0 <= j < tree.nodes_spec().len() implies #[trigger] tree.nodes_spec()[j]
                == 0 || j < tree.nodes_spec()[j] / 2 < tree.nodes_spec().len() by {
                assert(tree.nodes_spec()[j] == tree.nodes@[j]);
            }
        }
        Some(tree)
    }

    /// The number of symbols.
    pub fn num_symbols(&self) -> (n: usize)
        ensures
            n == self.nodes_spec().len() / 2 + 1,
    {
        self.nodes.len() / 2 + 1
    }

    /// The array of the tree.
    pub fn nodes(&self) -> (nodes: &Vec<usize>)
        ensures
            index_values(nodes@) == self.nodes_spec(),
    {
        &self.nodes
    }

    /// The codeword of `symbol`: the bits on the way from the root of the
    /// tree down to the leaf of the symbol. Fails where the tree has no
    /// such symbol.
    pub fn encode_symbol(&self, symbol: usize) -> (result: Result<Vec<bool>, EncodingError>)
        ensures
            symbol > self.nodes_spec().len() / 2 ==> result == Err::<Vec<bool>, EncodingError>(
                EncodingError::ImpossibleSymbol,
            ),
            symbol <= self.nodes_spec().len() / 2 ==> result is Ok && result->Ok_0@ == codeword(
                self.nodes_spec(),
                symbol as nat,
            ),
    {
        proof {
            use_type_invariant(self);
        }
        if symbol > self.nodes.len() / 2 {
            return Err(EncodingError::ImpossibleSymbol);
        }
        let mut reverse_codeword: Vec<bool> = Vec::new();
        let mut node_index: usize = symbol;
        let ghost nodes = self.nodes_spec();
        proof {
            assert(reverse_codeword@ + bits_to_root(nodes, node_index as nat) =~= bits_to_root(
                nodes,
                symbol as nat,
            ));
        }
        loop
            invariant
                self.wf(),
                nodes == self.nodes_spec(),
                node_index < nodes.len(),
                reverse_codeword@ + bits_to_root(nodes, node_index as nat) == bits_to_root(
                    nodes,
                    symbol as nat,
                ),
            ensures
                reverse_codeword@ == bits_to_root(nodes, symbol as nat),
            decreases nodes.len() - node_index,
        {
            let node: usize = self.nodes[node_index];
            proof {
                assert(nodes[node_index as int] == node);
            }
            if node == 0 {
                proof {
                    assert(reverse_codeword@ + Seq::<bool>::empty() =~= reverse_codeword@);
                }
                break ;
            }
            let ghost earlier = reverse_codeword@;
            reverse_codeword.push(node % 2 == 1);
            proof {
                let rest = bits_to_root(nodes, (node / 2) as nat);
                assert(earlier.push(node % 2 == 1) + rest =~= earlier + (seq![node % 2 == 1]
                    + rest));
            }
            node_index = node / 2;
        }
        let mut code: Vec<bool> = Vec::new();
        let mut i: usize = reverse_codeword.len();
        proof {
            assert(reverse_codeword@.skip(i as int).reverse() =~= Seq::<bool>::empty());
        }
        while i > 0
            invariant
                i <= reverse_codeword@.len(),
                code@ == reverse_codeword@.skip(i as int).reverse(),
            decreases i,
        {
            i -= 1;
            code.push(reverse_codeword[i]);
            proof {
                assert(reverse_codeword@.skip(i + 1).reverse().push(reverse_codeword@[i as int])
                    =~= reverse_codeword@.skip(i as int).reverse());
            }
        }
        proof {
            assert(reverse_codeword@.skip(0) =~= reverse_codeword@);
        }
        Ok(code)
    }
}

impl DecoderHuffmanTree {
    #[verifier::type_invariant]
    spec fn inv(&self) -> bool {
        self.wf()
    }

    /// The array of the tree: for every node that is not a leaf the
    /// indices of the two nodes that were merged into it.
    pub closed spec fn nodes_spec(&self) -> Seq<(nat, nat)> {
        pair_values(self.nodes@)
    }

    /// The number of symbols.
    pub open spec fn symbols(&self) -> nat {
        self.nodes_spec().len() + 1
    }

    /// Every node was merged from nodes with lower indices.
    pub open spec fn wf(&self) -> bool {
        &&& self.nodes_spec().len() <= usize::MAX / 2
        &&& forall|k: int|
            0 <= k < self.nodes_spec().len() ==> (#[trigger] self.nodes_spec()[k]).0
                < self.symbols() + k && self.nodes_spec()[k].1 < self.symbols() + k
    }

    /// The decoder for the Huffman code of the symbols `0, 1, ...` with
    /// the weights `probabilities`.
    pub fn from_probabilities<P: BitArray>(probabilities: &[P]) -> (tree: Self)
        requires
            1 <= probabilities@.len() <= usize::MAX / 2,
        ensures
            tree.wf(),
            tree.nodes_spec() == huffman_merges(
                leaves(weight_values(probabilities@)),
                probabilities@.len() as nat,
            ),
            tree.symbols() == probabilities@.len(),
    {
        let n: usize = probabilities.len();
        let mut heap = leaf_heap(probabilities);
        let mut nodes: Vec<[usize; 2]> = Vec::new();
        let ghost start = heap_view(heap@);
        let mut next: usize = n;
        proof {
            assert forall|j: int| 0 <= j < start.len() implies (#[trigger] start[j]).0
                < 0x1_0000_0000_0000_0000 by {
                probabilities@[j].lemma_value_bound();
                vstd::arithmetic::power2::lemma2_to64_rest();
                P::lemma_width();
                crate::arith::lemma_pow2_le(P::spec_bits(), 64);
            }
            lemma_total_leaves(start);
            assert forall|j: int| 0 <= j < heap@.len() implies (#[trigger] heap@[j]).1 < n by {
                assert(start[j].1 == j);
            }
            assert(start.len() * 0xffff_ffff_ffff_ffff <= 0x7fff_ffff_ffff_ffff
                * 0xffff_ffff_ffff_ffff) by (nonlinear_arith)
                requires
                    start.len() <= 0x7fff_ffff_ffff_ffff,
            ;
            assert(pair_values(nodes@) =~= Seq::<(nat, nat)>::empty());
            assert(pair_values(nodes@) + huffman_merges(start, n as nat) =~= huffman_merges(
                start,
                n as nat,
            ));
        }
        while heap.len() >= 2
            invariant
                1 <= n <= usize::MAX / 2,
                heap@.len() >= 1,
                next == n + nodes@.len(),
                heap@.len() + nodes@.len() == n,
                total_weight(heap_view(heap@)) <= 0x7fff_ffff_ffff_ffff * 0xffff_ffff_ffff_ffff,
                forall|j: int| 0 <= j < heap@.len() ==> (#[trigger] heap@[j]).1 < next,
                pair_values(nodes@) + huffman_merges(heap_view(heap@), next as nat)
                    == huffman_merges(start, n as nat),
                forall|k: int|
                    0 <= k < nodes@.len() ==> (#[trigger] pair_values(nodes@)[k]).0 < n + k
                        && pair_values(nodes@)[k].1 < n + k,
            decreases heap@.len(),
        {
            let ghost before = heap_view(heap@);
            let ghost before_exec = heap@;
            let first = pop_min(&mut heap);
            let ghost rest = heap_view(heap@);
            let ghost rest_exec = heap@;
            proof {
                assert(rest =~= before.remove(min_index(before)));
            }
            let second = pop_min(&mut heap);
            proof {
                assert(heap_view(heap@) =~= rest.remove(min_index(rest)));
                lemma_merge_step(before, next as nat);
                lemma_weight_below_total(before, min_index(before));
                lemma_total_remove(before, min_index(before));
                lemma_weight_below_total(rest, min_index(rest));
                assert(first.0 + second.0 <= total_weight(before));
                assert(before_exec[min_index(before)].1 < next);
                assert(rest_exec[min_index(rest)].1 < next);
            }
            heap.push((first.0 + second.0, next));
            let ghost earlier = nodes@;
            nodes.push([first.1, second.1]);
            proof {
                assert(heap_view(heap@) =~= merge_step(before, next as nat));
                assert(merged_pair(before) == (first.1 as nat, second.1 as nat));
                let rest_merges = huffman_merges(merge_step(before, next as nat), (next + 1) as nat);
                assert(pair_values(nodes@) =~= pair_values(earlier).push(merged_pair(before)));
                assert(pair_values(earlier).push(merged_pair(before)) + rest_merges
                    =~= pair_values(earlier) + (seq![merged_pair(before)] + rest_merges));
                assert forall|k: int| 0 <= k < nodes@.len() implies (#[trigger] pair_values(
                    nodes@,
                )[k]).0 < n + k && pair_values(nodes@)[k].1 < n + k by {
                    if k < earlier.len() {
                        assert(pair_values(nodes@)[k] == pair_values(earlier)[k]);
                    }
                }
            }
            next += 1;
        }
        proof {
            assert(huffman_merges(heap_view(heap@), next as nat) =~= Seq::empty());
            assert(pair_values(nodes@) + Seq::<(nat, nat)>::empty() =~= pair_values(nodes@));
        }
        Self { nodes }
    }

    /// The decoder for the tree whose merges are `merges`, over one symbol
    /// more than there are merges; `None` where a merge names a node that
    /// is not there before it, or where the merges are too many.
    pub fn from_merges(merges: Vec<[usize; 2]>) -> (result: Option<Self>)
        ensures
            result is Some <==> merges@.len() <= usize::MAX / 2 && merges_ordered(
                pair_values(merges@),
                (merges@.len() + 1) as nat,
            ),
            result is Some ==> result->Some_0.nodes_spec() == pair_values(merges@),
    {
        let count: usize = merges.len();
        if count > usize::MAX / 2 {
            return None;
        }
        let n: usize = count + 1;
        let ghost pairs = pair_values(merges@);
        let mut k: usize = 0;
        while k < count
            invariant
                k <= count,
                count == merges@.len(),
                n == count + 1,
                count <= usize::MAX / 2,
                pairs == pair_values(merges@),
                forall|j: int| 0 <= j < k ==> (#[trigger] pairs[j]).0 < n + j && pairs[j].1 < n + j,
            decreases count - k,
        {
            let pair: [usize; 2] = merges[k];
            proof {
                assert(pairs[k as int] == (pair[0] as nat, pair[1] as nat));
            }
            if pair[0] >= n + k || pair[1] >= n + k {
                return None;
            }
            k += 1;
        }
        Some(Self { nodes: merges })
    }

    /// The number of symbols.
    pub fn num_symbols(&self) -> (n: usize)
        ensures
            n == self.symbols(),
    {
        proof {
            use_type_invariant(self);
        }
        self.nodes.len() + 1
    }

    /// The array of the tree.
    pub fn nodes(&self) -> (nodes: &Vec<[usize; 2]>)
        ensures
            pair_values(nodes@) == self.nodes_spec(),
    {
        &self.nodes
    }

    /// Decodes one symbol from the bits `source`: walks from the root down
    /// to a leaf, one bit per step, and hands back the symbol of the leaf
    /// and the number of bits that it has read. Fails where the bits run
    /// out before a leaf is reached.
    pub fn decode_symbol(&self, source: &[bool]) -> (result: Result<(usize, usize), DecodingError>)
        ensures
            match walk_down(
                self.nodes_spec(),
                self.symbols(),
                source@,
                (2 * self.nodes_spec().len()) as nat,
                0,
            ) {
                Some((symbol, read)) => result == Ok::<(usize, usize), DecodingError>(
                    (symbol as usize, read as usize),
                ) && symbol < self.symbols() && read <= source@.len(),
                None => result == Err::<(usize, usize), DecodingError>(
                    DecodingError::OutOfCompressedData,
                ),
            },
    {
        proof {
            use_type_invariant(self);
        }
        let num_nodes: usize = self.nodes.len();
        let num_symbols: usize = num_nodes + 1;
        let mut node_index: usize = 2 * num_nodes;
        let mut read: usize = 0;
        let ghost nodes = self.nodes_spec();
        while node_index >= num_symbols
            invariant
                self.wf(),
                nodes == self.nodes_spec(),
                num_nodes == nodes.len(),
                num_symbols == num_nodes + 1,
                node_index <= 2 * num_nodes,
                read <= source@.len(),
                walk_down(nodes, num_symbols as nat, source@, node_index as nat, read as nat)
                    == walk_down(nodes, num_symbols as nat, source@, (2 * num_nodes) as nat, 0),
            decreases node_index,
        {
            if read >= source.len() {
                return Err(DecodingError::OutOfCompressedData);
            }
            let bit: bool = source[read];
            let pair: [usize; 2] = self.nodes[node_index - num_symbols];
            proof {
                assert(nodes[node_index - num_symbols] == (pair[0] as nat, pair[1] as nat));
            }
            if bit {
                node_index = pair[1];
            } else {
                node_index = pair[0];
            }
            read += 1;
        }
        Ok((node_index, read))
    }
}

/// Whether the node in the place `i` of `heap` has the index `v`.
pub open spec fn index_at(heap: Seq<(nat, nat)>, i: int, v: nat) -> bool {
    0 <= i < heap.len() && heap[i].1 == v
}

/// Whether a node of `heap` has the index `v`.
pub open spec fn has_index(heap: Seq<(nat, nat)>, v: nat) -> bool {
    exists|i: int| index_at(heap, i, v)
}

/// Whether no two nodes of `heap` have the same index, and all indices are
/// below `next`.
pub open spec fn indices_distinct(heap: Seq<(nat, nat)>, next: nat) -> bool {
    &&& forall|i: int| 0 <= i < heap.len() ==> (#[trigger] heap[i]).1 < next
    &&& forall|i: int, j: int|
        0 <= i < heap.len() && 0 <= j < heap.len() && i != j ==> (#[trigger] heap[i]).1 != (
        #[trigger] heap[j]).1
}

/// Whether the node `v` was one of the two nodes of the merge `k`.
pub open spec fn child_at(merges: Seq<(nat, nat)>, k: int, v: nat) -> bool {
    0 <= k < merges.len() && (merges[k].0 == v || merges[k].1 == v)
}

/// Whether the node `v` was merged into another node.
pub open spec fn is_child(merges: Seq<(nat, nat)>, v: nat) -> bool {
    exists|k: int| child_at(merges, k, v)
}

/// The index of the node that is left when the merges from `heap` on are
/// done.
pub open spec fn root_index(heap: Seq<(nat, nat)>, next: nat) -> nat {
    if heap.len() == 1 {
        heap[0].1
    } else {
        (next + heap.len() - 2) as nat
    }
}

/// What the merges from a heap on are like: there is one merge less than
/// there are nodes; every merge takes two different nodes that are nodes
/// of the heap or came from earlier merges; no node is merged twice; and
/// every node but the last one that is left is merged.
pub open spec fn merges_structured(heap: Seq<(nat, nat)>, next: nat, merges: Seq<(nat, nat)>) -> bool {
    &&& merges.len() == heap.len() - 1
    &&& forall|k: int|
        0 <= k < merges.len() ==> (#[trigger] merges[k]).0 != merges[k].1 && (has_index(
            heap,
            merges[k].0,
        ) || next <= merges[k].0 < next + k) && (has_index(heap, merges[k].1) || next
            <= merges[k].1 < next + k)
    &&& forall|k: int, j: int, v: nat|
        child_at(merges, k, v) && child_at(merges, j, v) ==> k == j
    &&& forall|v: nat|
        (has_index(heap, v) || next <= v < next + merges.len()) && v != root_index(heap, next)
            ==> is_child(merges, v)
}

/// A heap without one of its nodes has the indices of the heap without the
/// index of that node.
pub proof fn lemma_remove_indices(heap: Seq<(nat, nat)>, i: int, next: nat)
    requires
        0 <= i < heap.len(),
        indices_distinct(heap, next),
    ensures
        indices_distinct(heap.remove(i), next),
        forall|v: nat| has_index(heap.remove(i), v) <==> has_index(heap, v) && v != heap[i].1,
{
    let rest = heap.remove(i);
    assert forall|a: int| 0 <= a < rest.len() implies (#[trigger] rest[a]).1 < next by {
        if a < i {
            assert(rest[a] == heap[a]);
        } else {
            assert(rest[a] == heap[a + 1]);
        }
    }
    assert forall|a: int, b: int|
        0 <= a < rest.len() && 0 <= b < rest.len() && a != b implies (#[trigger] rest[a]).1 != (
    #[trigger] rest[b]).1 by {
        let a0 = if a < i {
            a
        } else {
            a + 1
        };
        let b0 = if b < i {
            b
        } else {
            b + 1
        };
        assert(rest[a] == heap[a0]);
        assert(rest[b] == heap[b0]);
    }
    assert forall|v: nat| has_index(rest, v) <==> has_index(heap, v) && v != heap[i].1 by {
        if has_index(rest, v) {
            let a = choose|a: int| index_at(rest, a, v);
            let a0 = if a < i {
                a
            } else {
                a + 1
            };
            assert(rest[a] == heap[a0]);
            assert(index_at(heap, a0, v));
        }
        if has_index(heap, v) && v != heap[i].1 {
            let a0 = choose|a0: int| index_at(heap, a0, v);
            let a = if a0 < i {
                a0
            } else {
                a0 - 1
            };
            assert(rest[a] == heap[a0]);
            assert(index_at(rest, a, v));
        }
    }
}

/// The heap after a merge has the indices of the heap before without the
/// indices of the two merged nodes, and the index of the new node.
pub proof fn lemma_merge_indices(heap: Seq<(nat, nat)>, next: nat)
    requires
        heap.len() >= 2,
        indices_distinct(heap, next),
    ensures
        indices_distinct(merge_step(heap, next), next + 1),
        merged_pair(heap).0 != merged_pair(heap).1,
        has_index(heap, merged_pair(heap).0),
        has_index(heap, merged_pair(heap).1),
        forall|v: nat|
            has_index(merge_step(heap, next), v) <==> (has_index(heap, v) && v != merged_pair(
                heap,
            ).0 && v != merged_pair(heap).1) || v == next,
{
    let first = min_index(heap);
    lemma_min_index_in(heap);
    let rest = heap.remove(first);
    let second = min_index(rest);
    lemma_min_index_in(rest);
    let rest2 = rest.remove(second);
    let node = (heap[first].0 + rest[second].0, next);
    let after = rest2.push(node);
    lemma_remove_indices(heap, first, next);
    lemma_remove_indices(rest, second, next);
    assert(index_at(heap, first, heap[first].1));
    assert(index_at(rest, second, rest[second].1));
    assert(has_index(rest, rest[second].1));
    assert forall|a: int| 0 <= a < after.len() implies (#[trigger] after[a]).1 < next + 1 by {
        if a < rest2.len() {
            assert(after[a] == rest2[a]);
        }
    }
    assert forall|a: int, b: int|
        0 <= a < after.len() && 0 <= b < after.len() && a != b implies (#[trigger] after[a]).1 != (
    #[trigger] after[b]).1 by {
        if a < rest2.len() {
            assert(after[a] == rest2[a]);
        }
        if b < rest2.len() {
            assert(after[b] == rest2[b]);
        }
    }
    assert forall|v: nat|
        has_index(after, v) <==> (has_index(heap, v) && v != merged_pair(heap).0 && v
            != merged_pair(heap).1) || v == next by {
        if has_index(after, v) {
            let a = choose|a: int| index_at(after, a, v);
            if a < rest2.len() {
                assert(after[a] == rest2[a]);
                assert(index_at(rest2, a, v));
            }
        }
        if has_index(heap, v) && v != merged_pair(heap).0 && v != merged_pair(heap).1 {
            assert(has_index(rest2, v));
            let a = choose|a: int| index_at(rest2, a, v);
            assert(after[a] == rest2[a]);
            assert(index_at(after, a, v));
        }
        if v == next {
            assert(index_at(after, rest2.len() as int, v));
        }
    }
}

/// The merges from a heap on are structured; see [`merges_structured`].
pub proof fn lemma_merges_structured(heap: Seq<(nat, nat)>, next: nat)
    requires
        heap.len() >= 1,
        indices_distinct(heap, next),
    ensures
        merges_structured(heap, next, huffman_merges(heap, next)),
    decreases heap.len(),
{
    let merges = huffman_merges(heap, next);
    if heap.len() < 2 {
        assert forall|v: nat|
            (has_index(heap, v) || next <= v < next + merges.len()) && v != root_index(
                heap,
                next,
            ) implies is_child(merges, v) by {
            if has_index(heap, v) {
                let i = choose|i: int| index_at(heap, i, v);
            }
        }
    } else {
        let after = merge_step(heap, next);
        let pair = merged_pair(heap);
        lemma_merge_step(heap, next);
        lemma_merge_indices(heap, next);
        lemma_merges_structured(after, next + 1);
        let rest = huffman_merges(after, next + 1);
        assert(merges =~= seq![pair] + rest);
        assert(merges[0] == pair);
        assert forall|k: int| 1 <= k < merges.len() implies merges[k] == rest[k - 1] by {}
        // every merge takes two different nodes that are there
        assert forall|k: int| 0 <= k < merges.len() implies (#[trigger] merges[k]).0 != merges[k].1
            && (has_index(heap, merges[k].0) || next <= merges[k].0 < next + k) && (has_index(
            heap,
            merges[k].1,
        ) || next <= merges[k].1 < next + k) by {
            if k > 0 {
                assert(merges[k] == rest[k - 1]);
            }
        }
        // no node is merged twice
        assert forall|k: int, j: int, v: nat|
            child_at(merges, k, v) && child_at(merges, j, v) implies k == j by {
            if k > 0 {
                assert(child_at(rest, k - 1, v));
                assert(rest[k - 1] == merges[k]);
            }
            if j > 0 {
                assert(child_at(rest, j - 1, v));
                assert(rest[j - 1] == merges[j]);
            }
            if k == 0 && j > 0 {
                assert(has_index(after, v) || next + 1 <= v < next + 1 + (j - 1));
            }
            if j == 0 && k > 0 {
                assert(has_index(after, v) || next + 1 <= v < next + 1 + (k - 1));
            }
        }
        // every node but the root is merged
        assert forall|v: nat|
            (has_index(heap, v) || next <= v < next + merges.len()) && v != root_index(
                heap,
                next,
            ) implies is_child(merges, v) by {
            if v == pair.0 || v == pair.1 {
                assert(child_at(merges, 0, v));
            } else {
                if has_index(heap, v) {
                    assert(has_index(merge_step(heap, next), v) <==> (has_index(heap, v) && v
                        != merged_pair(heap).0 && v != merged_pair(heap).1) || v == next);
                    assert(has_index(after, v));
                } else if v == next {
                    assert(has_index(merge_step(heap, next), v) <==> (has_index(heap, v) && v
                        != merged_pair(heap).0 && v != merged_pair(heap).1) || v == next);
                    assert(has_index(after, v));
                }
                assert(has_index(after, v) || next + 1 <= v < next + 1 + rest.len());
                if after.len() == 1 {
                    assert(index_at(after, 0, next));
                    assert(has_index(after, next));
                    if has_index(after, v) {
                        let i = choose|i: int| index_at(after, i, v);
                    }
                }
                assert(v != root_index(after, next + 1));
                assert(is_child(rest, v));
                let k = choose|k: int| child_at(rest, k, v);
                assert(merges[k + 1] == rest[k]);
                assert(child_at(merges, k + 1, v));
            }
        }
    }
}

/// The leaves have the indices of their symbols.
pub proof fn lemma_leaves_distinct(weights: Seq<nat>)
    ensures
        indices_distinct(leaves(weights), weights.len()),
        forall|v: nat| has_index(leaves(weights), v) <==> v < weights.len(),
{
    let heap = leaves(weights);
    assert forall|v: nat| has_index(heap, v) <==> v < weights.len() by {
        if has_index(heap, v) {
            let i = choose|i: int| index_at(heap, i, v);
        }
        if v < weights.len() {
            assert(index_at(heap, v as int, v));
        }
    }
}

/// The encoder array holds for every node that was merged the node it was
/// merged into and its side, and zero for every other node.
pub proof fn lemma_encoder_nodes(merges: Seq<(nat, nat)>, n: nat, count: nat)
    requires
        count <= merges.len(),
        n >= 1,
        forall|k: int|
            0 <= k < merges.len() ==> (#[trigger] merges[k]).0 < 2 * n - 1 && merges[k].1 < 2 * n
                - 1 && merges[k].0 != merges[k].1,
        forall|k: int, j: int, v: nat|
            child_at(merges, k, v) && child_at(merges, j, v) ==> k == j,
    ensures
        encoder_nodes(merges.take(count as int), n).len() == 2 * n - 1,
        forall|k: int|
            0 <= k < count ==> encoder_nodes(merges.take(count as int), n)[(
            #[trigger] merges[k]).0 as int] == 2 * (n + k) && encoder_nodes(
                merges.take(count as int),
                n,
            )[merges[k].1 as int] == 2 * (n + k) + 1,
        forall|v: nat|
            v < 2 * n - 1 && !is_child(merges.take(count as int), v) ==> encoder_nodes(
                merges.take(count as int),
                n,
            )[v as int] == 0,
    decreases count,
{
    let part = merges.take(count as int);
    if count == 0 {
    } else {
        let before = merges.take(count - 1);
        assert(part.drop_last() =~= before);
        assert(part.last() == merges[count - 1]);
        lemma_encoder_nodes(merges, n, (count - 1) as nat);
        let last = merges[count - 1];
        assert forall|k: int| 0 <= k < count implies encoder_nodes(part, n)[(
        #[trigger] merges[k]).0 as int] == 2 * (n + k) && encoder_nodes(
            part,
            n,
        )[merges[k].1 as int] == 2 * (n + k) + 1 by {
            if k < count - 1 {
                assert(child_at(merges, k, merges[k].0));
                assert(child_at(merges, k, merges[k].1));
                assert(child_at(merges, count - 1, last.0));
                assert(child_at(merges, count - 1, last.1));
            }
        }
        assert forall|v: nat| v < 2 * n - 1 && !is_child(part, v) implies encoder_nodes(
            part,
            n,
        )[v as int] == 0 by {
            assert(part[count - 1] == last);
            if v == last.0 || v == last.1 {
                assert(child_at(part, count - 1, v));
            }
            if is_child(before, v) {
                let k = choose|k: int| child_at(before, k, v);
                assert(before[k] == part[k]);
                assert(child_at(part, k, v));
            }
        }
    }
}

/// What the trees for the weights `weights` are like: the decoder tree has
/// one node less than there are symbols, whose two nodes have lower
/// indices than it has; the entry of the encoder tree for each of the two
/// holds the index of that node and the side; and the entry of the root,
/// the last node, is zero.
pub proof fn lemma_trees_agree(weights: Seq<nat>)
    requires
        weights.len() >= 1,
    ensures
        ({
            let n = weights.len();
            let merges = huffman_merges(leaves(weights), n);
            let nodes = encoder_nodes(merges, n);
            &&& merges.len() == n - 1
            &&& nodes.len() == 2 * n - 1
            &&& nodes[2 * n - 2] == 0
            &&& forall|k: int|
                0 <= k < merges.len() ==> (#[trigger] merges[k]).0 < n + k && merges[k].1 < n + k
                    && merges[k].0 != merges[k].1 && nodes[merges[k].0 as int] == 2 * (n + k)
                    && nodes[merges[k].1 as int] == 2 * (n + k) + 1
            &&& forall|v: nat| v < 2 * n - 2 ==> #[trigger] nodes[v as int] != 0
        }),
{
    let n = weights.len();
    let heap = leaves(weights);
    let merges = huffman_merges(heap, n);
    lemma_leaves_distinct(weights);
    lemma_merges_structured(heap, n);
    assert(merges.take(merges.len() as int) =~= merges);
    assert forall|k: int| 0 <= k < merges.len() implies (#[trigger] merges[k]).0 < n + k
        && merges[k].1 < n + k by {}
    lemma_encoder_nodes(merges, n, merges.len());
    let nodes = encoder_nodes(merges, n);
    assert(root_index(heap, n) == 2 * n - 2);
    let root = (2 * n - 2) as nat;
    assert(nodes[root as int] == 0) by {
        if is_child(merges, root) {
            let k = choose|k: int| child_at(merges, k, root);
            assert(merges[k].0 < n + k && merges[k].1 < n + k);
        }
    }
    assert forall|v: nat| v < 2 * n - 2 implies #[trigger] nodes[v as int] != 0 by {
        assert(is_child(merges, v));
        let k = choose|k: int| child_at(merges, k, v);
        assert(nodes[merges[k].0 as int] == 2 * (n + k));
    }
}

/// The decoder finds every node by the bits on the way to it: from the
/// root, by the bits on the way from the root down to the node `node`,
/// whatever follows them, it comes to that node.
pub proof fn lemma_walk_reaches(weights: Seq<nat>, node: nat, tail: Seq<bool>)
    requires
        weights.len() >= 1,
        node <= 2 * weights.len() - 2,
    ensures
        ({
            let n = weights.len();
            let merges = huffman_merges(leaves(weights), n);
            let nodes = encoder_nodes(merges, n);
            let way = bits_to_root(nodes, node).reverse();
            walk_down(merges, n, way + tail, (2 * n - 2) as nat, 0) == walk_down(
                merges,
                n,
                way + tail,
                node,
                way.len(),
            )
        }),
    decreases 2 * weights.len() - 2 - node,
{
    let n = weights.len();
    let merges = huffman_merges(leaves(weights), n);
    let nodes = encoder_nodes(merges, n);
    let way = bits_to_root(nodes, node).reverse();
    lemma_trees_agree(weights);
    if node == 2 * n - 2 {
        assert(way =~= Seq::<bool>::empty());
    } else {
        assert(nodes[node as int] != 0);
        assert(is_child(merges, node)) by {
            lemma_leaves_distinct(weights);
            lemma_merges_structured(leaves(weights), n);
            assert(root_index(leaves(weights), n) == 2 * n - 2);
        }
        let k = choose|k: int| child_at(merges, k, node);
        let parent = (n + k) as nat;
        let side = merges[k].1 == node;
        assert(nodes[node as int] == 2 * parent + (if side {
            1nat
        } else {
            0nat
        }));
        assert(nodes[node as int] / 2 == parent);
        assert((nodes[node as int] % 2 == 1) == side);
        let up = bits_to_root(nodes, parent);
        assert(bits_to_root(nodes, node) =~= seq![side] + up);
        let parent_way = up.reverse();
        assert(way =~= parent_way + seq![side]);
        lemma_walk_reaches(weights, parent, seq![side] + tail);
        assert(parent_way + (seq![side] + tail) =~= way + tail);
        let bits = way + tail;
        assert(bits[parent_way.len() as int] == side);
        assert(merges[parent - n] == merges[k]);
    }
}

/// Decoding undoes encoding: from the codeword of a symbol, whatever
/// follows it, the decoder finds the symbol and reads the codeword and no
/// more.
pub proof fn lemma_huffman_decodes(weights: Seq<nat>, symbol: nat, tail: Seq<bool>)
    requires
        symbol < weights.len(),
    ensures
        ({
            let n = weights.len();
            let merges = huffman_merges(leaves(weights), n);
            let word = codeword(encoder_nodes(merges, n), symbol);
            walk_down(merges, n, word + tail, (2 * n - 2) as nat, 0) == Some((symbol, word.len()))
        }),
{
    lemma_walk_reaches(weights, symbol, tail);
}

/// Whether the bits `a` are the first bits of `b`.
pub open spec fn is_prefix(a: Seq<bool>, b: Seq<bool>) -> bool {
    a.len() <= b.len() && b.take(a.len() as int) == a
}

/// A Huffman code is a prefix code: the codeword of no symbol starts with
/// the codeword of another symbol.
pub proof fn lemma_huffman_prefix_free(weights: Seq<nat>, a: nat, b: nat)
    requires
        a < weights.len(),
        b < weights.len(),
        a != b,
    ensures
        ({
            let nodes = encoder_nodes(
                huffman_merges(leaves(weights), weights.len()),
                weights.len(),
            );
            !is_prefix(codeword(nodes, a), codeword(nodes, b))
        }),
{
    let n = weights.len();
    let merges = huffman_merges(leaves(weights), n);
    let nodes = encoder_nodes(merges, n);
    let word_a = codeword(nodes, a);
    let word_b = codeword(nodes, b);
    if is_prefix(word_a, word_b) {
        let tail = word_b.skip(word_a.len() as int);
        assert(word_a + tail =~= word_b);
        assert(word_b + Seq::<bool>::empty() =~= word_b);
        lemma_huffman_decodes(weights, a, tail);
        lemma_huffman_decodes(weights, b, Seq::empty());
    }
}

} // verus!
