//! Mathematical model of an encoded stream: a message is a sequence of
//! `k` source blocks of `s` bytes each, and a droplet's payload is the XOR
//! of the blocks its edges name.  The lemmas here carry the peeling
//! decoder: folding a named block into a payload removes that edge.

use vstd::prelude::*;
use crate::xor::{xor_seq, lemma_xor_byte_self_inverse, lemma_xor_seq_self_inverse};

verus! {

/// The all-zero block of `s` bytes.
pub open spec fn zero_block(s: nat) -> Seq<u8> {
    Seq::new(s, |i: int| 0u8)
}

/// `bl` is a table of `k` source blocks, each exactly `s` bytes.
pub open spec fn blocks_wf(bl: Seq<Seq<u8>>, s: nat, k: int) -> bool {
    &&& bl.len() == k
    &&& forall|i: int| 0 <= i < bl.len() ==> (#[trigger] bl[i]).len() == s
}

/// Machine indices as model indices.
pub open spec fn idxs(v: Seq<usize>) -> Seq<int> {
    v.map_values(|x: usize| x as int)
}

/// Every index in `es` names one of the `k` blocks.
pub open spec fn edges_in_range(es: Seq<int>, k: int) -> bool {
    forall|j: int| 0 <= j < es.len() ==> 0 <= #[trigger] es[j] < k
}

/// XOR of the blocks that `es` names, over block table `bl`; repeats
/// cancel arithmetically.
pub open spec fn xor_blocks(bl: Seq<Seq<u8>>, es: Seq<int>, s: nat) -> Seq<u8>
    decreases es.len(),
{
    if es.len() == 0 {
        zero_block(s)
    } else {
        xor_seq(xor_blocks(bl, es.drop_last(), s), bl[es.last()])
    }
}

/// A droplet with edge list `es` and payload `data` says of `bl` exactly
/// this.
pub open spec fn droplet_matches(bl: Seq<Seq<u8>>, s: nat, es: Seq<int>, data: Seq<u8>) -> bool {
    data == xor_blocks(bl, es, s)
}

/// A block table is consistent with a history of received droplets when
/// every droplet's payload is the XOR of the blocks its edges name.
pub open spec fn consistent(bl: Seq<Seq<u8>>, s: nat, hist: Seq<(Seq<int>, Seq<u8>)>) -> bool {
    forall|h: int| 0 <= h < hist.len() ==> droplet_matches(bl, s, (#[trigger] hist[h]).0, hist[h].1)
}

pub proof fn lemma_edges_in_range_drop_last(es: Seq<int>, k: int)
    requires
        edges_in_range(es, k),
        es.len() > 0,
    ensures
        edges_in_range(es.drop_last(), k),
{
    assert forall|j: int| 0 <= j < es.drop_last().len() implies 0 <= #[trigger] es.drop_last()[j]
        < k by {
        assert(es.drop_last()[j] == es[j]);
    }
}

/// An XOR of well-formed blocks is a block.
pub proof fn lemma_xor_blocks_len(bl: Seq<Seq<u8>>, es: Seq<int>, s: nat, k: int)
    requires
        blocks_wf(bl, s, k),
        edges_in_range(es, k),
    ensures
        xor_blocks(bl, es, s).len() == s,
    decreases es.len(),
{
    if es.len() > 0 {
        lemma_edges_in_range_drop_last(es, k);
        lemma_xor_blocks_len(bl, es.drop_last(), s, k);
    }
}

/// A degree-1 droplet carries its block outright.
pub proof fn lemma_xor_blocks_singleton(bl: Seq<Seq<u8>>, i: int, s: nat, k: int)
    requires
        blocks_wf(bl, s, k),
        0 <= i < k,
    ensures
        xor_blocks(bl, seq![i], s) == bl[i],
{
    let es = seq![i];
    assert(es.len() == 1 && es.last() == i);
    assert(es.drop_last() =~= Seq::<int>::empty());
    assert(xor_blocks(bl, es.drop_last(), s) == zero_block(s));
    assert(xor_blocks(bl, es, s) == xor_seq(zero_block(s), bl[i]));
    assert forall|t: int| 0 <= t < s implies xor_seq(zero_block(s), bl[i])[t] == bl[i][t] by {
        let v = bl[i][t];
        assert(0u8 ^ v == v) by (bit_vector);
    }
    assert(xor_seq(zero_block(s), bl[i]) =~= bl[i]);
}

/// XOR-ing two masks into a span in either order gives the same span.
pub proof fn lemma_xor_seq_exchange(a: Seq<u8>, b: Seq<u8>, c: Seq<u8>)
    requires
        b.len() == a.len(),
        c.len() == a.len(),
    ensures
        xor_seq(xor_seq(a, b), c) == xor_seq(xor_seq(a, c), b),
{
    assert forall|t: int| 0 <= t < a.len() implies xor_seq(xor_seq(a, b), c)[t] == xor_seq(
        xor_seq(a, c),
        b,
    )[t] by {
        let x = a[t];
        let y = b[t];
        let z = c[t];
        assert((x ^ y) ^ z == (x ^ z) ^ y) by (bit_vector);
    }
    assert(xor_seq(xor_seq(a, b), c) =~= xor_seq(xor_seq(a, c), b));
}

/// Folding block `es[j]` into an XOR of blocks removes that edge: the
/// peeling decoder's one algebraic step.
pub proof fn lemma_xor_blocks_remove(bl: Seq<Seq<u8>>, es: Seq<int>, s: nat, k: int, j: int)
    requires
        blocks_wf(bl, s, k),
        edges_in_range(es, k),
        0 <= j < es.len(),
    ensures
        xor_blocks(bl, es.remove(j), s) == xor_seq(xor_blocks(bl, es, s), bl[es[j]]),
    decreases es.len(),
{
    let n = es.len() as int;
    lemma_edges_in_range_drop_last(es, k);
    lemma_xor_blocks_len(bl, es.drop_last(), s, k);
    if j == n - 1 {
        assert(es.remove(j) =~= es.drop_last());
        lemma_xor_seq_self_inverse(xor_blocks(bl, es.drop_last(), s), bl[es.last()]);
    } else {
        let es1 = es.drop_last();
        let b_last = bl[es.last()];
        let b_j = bl[es[j]];
        assert(es.remove(j).drop_last() =~= es1.remove(j));
        assert(es.remove(j).last() == es.last());
        lemma_xor_blocks_remove(bl, es1, s, k, j);
        // xor_blocks(es.remove(j)) unfolds over its last element
        assert(xor_blocks(bl, es.remove(j), s) == xor_seq(
            xor_blocks(bl, es1.remove(j), s),
            b_last,
        ));
        assert(es1[j] == es[j]);
        lemma_xor_blocks_len(bl, es1, s, k);
        lemma_xor_seq_exchange(xor_blocks(bl, es1, s), b_j, b_last);
    }
}

/// Appending an edge is XOR-ing its block in.
pub proof fn lemma_xor_blocks_push(bl: Seq<Seq<u8>>, es: Seq<int>, s: nat, k: int, i: int)
    requires
        blocks_wf(bl, s, k),
        edges_in_range(es, k),
        0 <= i < k,
    ensures
        xor_blocks(bl, es.push(i), s) == xor_seq(xor_blocks(bl, es, s), bl[i]),
{
    assert(es.push(i).drop_last() =~= es);
    assert(es.push(i).last() == i);
}

/// A droplet reduced against the complete known set is spent: its residual
/// edge list is empty and its payload is all zero.
pub proof fn lemma_full_reduction_is_zero(bl: Seq<Seq<u8>>, es: Seq<int>, s: nat, k: int)
    requires
        blocks_wf(bl, s, k),
        edges_in_range(es, k),
    ensures
        xor_seq(xor_blocks(bl, es, s), xor_blocks(bl, es, s)) == zero_block(s),
{
    lemma_xor_blocks_len(bl, es, s, k);
    let x = xor_blocks(bl, es, s);
    assert forall|t: int| 0 <= t < s implies xor_seq(x, x)[t] == 0u8 by {
        lemma_xor_byte_self_inverse(x[t], x[t]);
    }
    assert(xor_seq(x, x) =~= zero_block(s));
}

/// Concatenation of the first `n` blocks of a table.
pub open spec fn concat_blocks(bl: Seq<Seq<u8>>, n: int) -> Seq<u8>
    decreases n,
{
    if n <= 0 {
        Seq::empty()
    } else {
        concat_blocks(bl, n - 1) + bl[n - 1]
    }
}

/// Blocks cut from a flat buffer concatenate back to its prefix.
pub proof fn lemma_concat_blocks_chunks(bl: Seq<Seq<u8>>, buf: Seq<u8>, s: nat, k: int, n: int)
    requires
        s >= 1,
        0 <= n <= k,
        bl.len() == k,
        n * (s as int) <= buf.len(),
        forall|t: int|
            0 <= t < n ==> #[trigger] bl[t] == buf.subrange(t * (s as int), (t + 1) * (s as int)),
    ensures
        concat_blocks(bl, n) == buf.take(n * (s as int)),
    decreases n,
{
    let si = s as int;
    if n <= 0 {
        assert(n * si == 0) by (nonlinear_arith)
            requires
                n == 0,
        ;
        assert(concat_blocks(bl, 0) =~= buf.take(0));
    } else {
        assert((n - 1) * si <= n * si && 0 <= (n - 1) * si && (n - 1) * si + si == n * si)
            by (nonlinear_arith)
            requires
                si >= 1,
                n >= 1,
        ;
        lemma_concat_blocks_chunks(bl, buf, s, k, n - 1);
        assert(bl[n - 1] == buf.subrange((n - 1) * si, n * si));
        assert(concat_blocks(bl, n) =~= buf.take(n * si));
    }
}

} // verus!
