//! Peeling belief-propagation decoder.  Droplets arrive one at a time;
//! degree-1 droplets resolve blocks, resolved blocks are folded into the
//! droplets pending on them, and newly degree-1 droplets cascade through a
//! work queue until every block is known.
//!
//! The decoder's contract is relative to the received history: whatever
//! block table is consistent with every caught droplet, the known blocks
//! match it, and a finished reconstruction equals its concatenation.

use vstd::prelude::*;
use crate::block::Block;
use crate::droplet::{expanded, Droplet, Edges, RxDroplet};
use crate::encoder::Encoder;
use crate::model::{
    blocks_wf, concat_blocks, consistent, droplet_matches, edges_in_range, idxs,
    lemma_xor_blocks_len, lemma_xor_blocks_remove, lemma_xor_blocks_singleton, xor_blocks,
    zero_block,
};
use crate::xor::{xor_bytes, xor_seq, xored_with};

verus! {

/// Per-call decoding statistics; purely observational.
#[derive(Debug, Clone, Copy)]
pub struct Statistics {
    /// Droplets received so far, well-formed or not.
    pub cnt_droplets: usize,
    /// Total number of source blocks `k`.
    pub cnt_chunks: usize,
    /// `100 * cnt_droplets / cnt_chunks`, in whole percent, saturating.
    pub overhead: u64,
    /// Blocks not yet resolved.
    pub unknown_chunks: usize,
}

/// Outcome of catching one droplet.
#[derive(Debug)]
pub enum CatchResult {
    /// All blocks are known; the reconstructed message is returned.
    Finished(Vec<u8>, Statistics),
    /// Some blocks are still unknown.
    Missing(Statistics),
    /// The droplet's payload length or block index did not fit this stream.
    MalformedDroplet(Statistics),
}

/// Outcome of catching one droplet when decoding into a caller's buffer.
#[derive(Debug)]
pub enum CatchToResult {
    /// All blocks are known; the message length is returned and the buffer
    /// holds the message.
    Finished(usize, Statistics),
    /// Some blocks are still unknown.
    Missing(Statistics),
    /// The droplet's payload length or block index did not fit this stream.
    MalformedDroplet(Statistics),
}

/// How many of the first `n` blocks are known.
pub open spec fn count_known(bs: Seq<Block>, n: int) -> int
    decreases n,
{
    if n <= 0 {
        0
    } else {
        count_known(bs, n - 1) + if bs[n - 1].is_known {
            1int
        } else {
            0int
        }
    }
}

proof fn lemma_count_known_bounds(bs: Seq<Block>, n: int)
    requires
        0 <= n <= bs.len(),
    ensures
        0 <= count_known(bs, n) <= n,
    decreases n,
{
    if n > 0 {
        lemma_count_known_bounds(bs, n - 1);
    }
}

/// Two tables with the same flags have the same count.
proof fn lemma_count_known_congruence(bs1: Seq<Block>, bs2: Seq<Block>, n: int)
    requires
        forall|t: int| 0 <= t < n ==> bs1[t].is_known == bs2[t].is_known,
    ensures
        count_known(bs1, n) == count_known(bs2, n),
    decreases n,
{
    if n > 0 {
        lemma_count_known_congruence(bs1, bs2, n - 1);
    }
}

/// Setting one flag from false to true raises the count by one.
proof fn lemma_count_known_flip(bs1: Seq<Block>, bs2: Seq<Block>, n: int, i: int)
    requires
        0 <= i < n,
        !bs1[i].is_known,
        bs2[i].is_known,
        forall|t: int| 0 <= t < n && t != i ==> bs1[t].is_known == bs2[t].is_known,
    ensures
        count_known(bs2, n) == count_known(bs1, n) + 1,
    decreases n,
{
    if i == n - 1 {
        lemma_count_known_congruence(bs1, bs2, n - 1);
    } else {
        lemma_count_known_flip(bs1, bs2, n - 1, i);
    }
}

/// An unknown block keeps the count below full.
proof fn lemma_count_known_missing(bs: Seq<Block>, n: int, i: int)
    requires
        0 <= i < n <= bs.len(),
        !bs[i].is_known,
    ensures
        count_known(bs, n) <= n - 1,
    decreases n,
{
    lemma_count_known_bounds(bs, n - 1);
    if i < n - 1 {
        lemma_count_known_missing(bs, n - 1, i);
    }
}

/// A full count means every block is known.
proof fn lemma_count_known_full(bs: Seq<Block>, n: int)
    requires
        0 <= n <= bs.len(),
        count_known(bs, n) == n,
    ensures
        forall|t: int| 0 <= t < n ==> (#[trigger] bs[t]).is_known,
    decreases n,
{
    if n > 0 {
        lemma_count_known_bounds(bs, n - 1);
        lemma_count_known_full(bs, n - 1);
    }
}

/// How many blocks one arena droplet can still resolve: one while it has
/// two or more residual edges, or a single edge on a still-unknown block;
/// none once it is spent.
pub open spec fn droplet_credit(r: RxDroplet, bs: Seq<Block>) -> int {
    if r.edges_idx@.len() >= 2 {
        1
    } else if r.edges_idx@.len() == 1 && 0 <= (r.edges_idx@[0] as int) < bs.len() && !bs[(
    r.edges_idx@[0] as int)].is_known {
        1
    } else {
        0
    }
}

/// How many more blocks the first `n` arena droplets could resolve.
pub open spec fn credits(ds: Seq<RxDroplet>, bs: Seq<Block>, n: int) -> int
    decreases n,
{
    if n <= 0 {
        0
    } else {
        credits(ds, bs, n - 1) + droplet_credit(ds[n - 1], bs)
    }
}

proof fn lemma_credits_nonneg(ds: Seq<RxDroplet>, bs: Seq<Block>, n: int)
    ensures
        credits(ds, bs, n) >= 0,
    decreases
            if n > 0 {
                n
            } else {
                0
            },
{
    if n > 0 {
        lemma_credits_nonneg(ds, bs, n - 1);
    }
}

/// Two droplet tables that agree entrywise carry the same credit.
proof fn lemma_credits_agree(ds1: Seq<RxDroplet>, ds2: Seq<RxDroplet>, bs: Seq<Block>, n: int)
    requires
        forall|d: int| 0 <= d < n ==> ds1[d] == ds2[d],
    ensures
        credits(ds1, bs, n) == credits(ds2, bs, n),
    decreases n,
{
    if n > 0 {
        lemma_credits_agree(ds1, ds2, bs, n - 1);
    }
}

/// Replacing one droplet shifts the sum by the difference of its credit.
proof fn lemma_credits_update(ds: Seq<RxDroplet>, bs: Seq<Block>, n: int, id: int, r: RxDroplet)
    requires
        0 <= id < n <= ds.len(),
    ensures
        credits(ds.update(id, r), bs, n) == credits(ds, bs, n) - droplet_credit(ds[id], bs)
            + droplet_credit(r, bs),
    decreases n,
{
    if id == n - 1 {
        lemma_credits_agree(ds.update(id, r), ds, bs, n - 1);
    } else {
        lemma_credits_update(ds, bs, n - 1, id, r);
    }
}

/// Appending a droplet adds its credit.
proof fn lemma_credits_push(ds: Seq<RxDroplet>, bs: Seq<Block>, r: RxDroplet)
    ensures
        credits(ds.push(r), bs, ds.len() as int + 1) == credits(ds, bs, ds.len() as int)
            + droplet_credit(r, bs),
{
    lemma_credits_agree(ds.push(r), ds, bs, ds.len() as int);
}

/// Credits depend on the block table only through its flags.
proof fn lemma_credits_same_flags(ds: Seq<RxDroplet>, bs1: Seq<Block>, bs2: Seq<Block>, n: int)
    requires
        bs1.len() == bs2.len(),
        forall|t: int| 0 <= t < bs1.len() ==> bs1[t].is_known == bs2[t].is_known,
    ensures
        credits(ds, bs1, n) == credits(ds, bs2, n),
    decreases
            if n > 0 {
                n
            } else {
                0
            },
{
    if n > 0 {
        lemma_credits_same_flags(ds, bs1, bs2, n - 1);
    }
}

/// Marking more blocks known can only lower the credits.
proof fn lemma_credits_more_known(ds: Seq<RxDroplet>, bs1: Seq<Block>, bs2: Seq<Block>, n: int)
    requires
        bs1.len() == bs2.len(),
        forall|t: int| 0 <= t < bs1.len() ==> ((#[trigger] bs1[t]).is_known ==> bs2[t].is_known),
    ensures
        credits(ds, bs2, n) <= credits(ds, bs1, n),
    decreases
            if n > 0 {
                n
            } else {
                0
            },
{
    if n > 0 {
        lemma_credits_more_known(ds, bs1, bs2, n - 1);
        assert(droplet_credit(ds[n - 1], bs2) <= droplet_credit(ds[n - 1], bs1));
    }
}

/// Decoder for Luby Transform codes: reconstructs the message from caught
/// droplets.
pub struct Decoder {
    file_size: usize,
    drop_size: usize,
    n_chunks: usize,
    drops_caught: usize,
    unknown_chunks: usize,
    blocks: Vec<Block>,
    block_data: Vec<Vec<u8>>,
    droplets: Vec<RxDroplet>,
    history: Ghost<Seq<(Seq<int>, Seq<u8>)>>,
}

impl Decoder {
    /// Message length `L` in bytes.
    pub closed spec fn msg_len(self) -> int {
        self.file_size as int
    }

    /// Chunk size `s` in bytes.
    pub closed spec fn chunk_size(self) -> int {
        self.drop_size as int
    }

    /// Number of source blocks `k`.
    pub closed spec fn chunks(self) -> int {
        self.n_chunks as int
    }

    /// Droplets received so far.
    pub closed spec fn received(self) -> int {
        self.drops_caught as int
    }

    /// Blocks not yet resolved.
    pub closed spec fn unknown(self) -> int {
        self.unknown_chunks as int
    }

    /// The well-formed droplets caught so far: expanded edge list and
    /// payload of each.
    pub closed spec fn caught(self) -> Seq<(Seq<int>, Seq<u8>)> {
        self.history@
    }

    /// Whether block `i` has been resolved.
    pub closed spec fn knows(self, i: int) -> bool {
        0 <= i < self.chunks() && self.blocks@[i].is_known
    }

    /// No droplet is pending on any block.
    pub closed spec fn no_pending(self) -> bool {
        self.droplets@.len() == 0
    }

    /// Contents of the reconstruction buffer, block by block.
    pub closed spec fn buffered(self) -> Seq<Seq<u8>> {
        self.block_data@.map_values(|v: Vec<u8>| v@)
    }

    /// Structural well-formedness of the decoder state.
    pub closed spec fn shape_wf(self) -> bool {
        &&& self.file_size >= 1
        &&& self.drop_size >= 1
        &&& self.n_chunks >= 1
        &&& self.file_size <= self.n_chunks * self.drop_size
        &&& self.n_chunks * self.drop_size < self.file_size + self.drop_size
        &&& self.n_chunks * self.drop_size <= usize::MAX
        &&& self.blocks@.len() == self.n_chunks
        &&& self.block_data@.len() == self.n_chunks
        &&& forall|i: int|
            0 <= i < self.n_chunks ==> (#[trigger] self.blocks@[i]).idx == i
                && self.blocks@[i].begin_at == i * self.drop_size
        &&& forall|i: int|
            0 <= i < self.n_chunks ==> (#[trigger] self.block_data@[i])@.len() == self.drop_size
        &&& forall|i: int, p: int|
            0 <= i < self.n_chunks && 0 <= p < self.blocks@[i].edges@.len()
                ==> (#[trigger] self.blocks@[i].edges@[p]) < self.droplets@.len()
        &&& forall|d: int|
            0 <= d < self.droplets@.len() ==> (#[trigger] self.droplets@[d]).data@.len()
                == self.drop_size
        &&& forall|d: int, j: int|
            0 <= d < self.droplets@.len() && 0 <= j < self.droplets@[d].edges_idx@.len()
                ==> (#[trigger] self.droplets@[d].edges_idx@[j]) < self.n_chunks
        &&& self.unknown_chunks == self.n_chunks - count_known(self.blocks@, self.n_chunks as int)
    }

    /// The decoder state says this of any block table `bl` that is
    /// consistent with the received history: known blocks match `bl`, and
    /// every pending droplet's residual payload is the XOR of the blocks
    /// its residual edges name.
    pub closed spec fn state_matches(self, bl: Seq<Seq<u8>>) -> bool {
        &&& forall|i: int|
            0 <= i < self.chunks() && (#[trigger] self.blocks@[i]).is_known
                ==> self.block_data@[i]@ == bl[i]
        &&& forall|d: int|
            0 <= d < self.droplets@.len() ==> droplet_matches(
                bl,
                self.chunk_size() as nat,
                idxs((#[trigger] self.droplets@[d]).edges_idx@),
                self.droplets@[d].data@,
            )
    }

    /// Full decoder invariant: structure plus semantics relative to every
    /// consistent block table.
    pub closed spec fn inv(self) -> bool {
        &&& self.shape_wf()
        &&& forall|bl: Seq<Seq<u8>>|
            blocks_wf(bl, self.chunk_size() as nat, self.chunks()) && consistent(
                bl,
                self.chunk_size() as nat,
                self.caught(),
            ) ==> self.state_matches(bl)
        &&& count_known(self.blocks@, self.n_chunks as int) + credits(
            self.droplets@,
            self.blocks@,
            self.droplets@.len() as int,
        ) <= self.drops_caught
    }

    /// Saturating overhead percentage.
    pub open spec fn overhead_spec(received: int, k: int) -> int {
        if 100 * received / k > u64::MAX {
            u64::MAX as int
        } else {
            100 * received / k
        }
    }

    /// What the statistics of a decoder state are.
    pub open spec fn stats_ok(self, st: Statistics) -> bool {
        &&& st.cnt_droplets == self.received()
        &&& st.cnt_chunks == self.chunks()
        &&& st.unknown_chunks == self.unknown()
        &&& st.overhead == Self::overhead_spec(self.received(), self.chunks())
    }

    fn make_stats(&self) -> (st: Statistics)
        requires
            self.shape_wf(),
        ensures
            self.stats_ok(st),
    {
        let o128: u128 = 100u128 * (self.drops_caught as u128) / (self.n_chunks as u128);
        let overhead: u64 = if o128 > u64::MAX as u128 {
            u64::MAX
        } else {
            o128 as u64
        };
        Statistics {
            cnt_droplets: self.drops_caught,
            cnt_chunks: self.n_chunks,
            overhead,
            unknown_chunks: self.unknown_chunks,
        }
    }

    /// A decoder for a message of `file_size` bytes cut into chunks of
    /// `drop_size` bytes.  Empty messages and empty chunks are rejected;
    /// the sizes must also be small enough that the padded length
    /// `k * drop_size` fits in a machine word.
    pub fn new(file_size: usize, drop_size: usize) -> (r: Decoder)
        requires
            file_size >= 1,
            drop_size >= 1,
            file_size + drop_size - 1 <= usize::MAX,
        ensures
            r.inv(),
            r.msg_len() == file_size,
            r.chunk_size() == drop_size,
            r.chunks() == (file_size + drop_size - 1) / (drop_size as int),
            r.received() == 0,
            r.unknown() == r.chunks(),
            r.caught() == Seq::<(Seq<int>, Seq<u8>)>::empty(),
            r.no_pending(),
            forall|i: int| 0 <= i < r.chunks() ==> !r.knows(i),
    {
        let n_chunks = (file_size - 1) / drop_size + 1;
        proof {
            let l = file_size as int;
            let s = drop_size as int;
            let k = n_chunks as int;
            assert(k == (l + s - 1) / s) by (nonlinear_arith)
                requires
                    l >= 1,
                    s >= 1,
                    k == (l - 1) / s + 1,
            ;
            assert(l <= k * s && k * s < l + s && k >= 1) by (nonlinear_arith)
                requires
                    l >= 1,
                    s >= 1,
                    k == (l + s - 1) / s,
            ;
        }
        let mut blocks: Vec<Block> = Vec::new();
        let mut block_data: Vec<Vec<u8>> = Vec::new();
        let mut i: usize = 0;
        while i < n_chunks
            invariant
                i <= n_chunks,
                n_chunks >= 1,
                drop_size >= 1,
                n_chunks * drop_size <= usize::MAX,
                blocks@.len() == i,
                block_data@.len() == i,
                forall|t: int|
                    0 <= t < i ==> (#[trigger] blocks@[t]).idx == t && blocks@[t].begin_at == t
                        * drop_size && !blocks@[t].is_known && blocks@[t].edges@.len() == 0,
                forall|t: int| 0 <= t < i ==> (#[trigger] block_data@[t])@.len() == drop_size,
            decreases n_chunks - i,
        {
            proof {
                assert(i * drop_size <= n_chunks * drop_size) by (nonlinear_arith)
                    requires
                        0 <= i <= n_chunks,
                        drop_size >= 1,
                ;
            }
            let begin_at = i * drop_size;
            blocks.push(Block::new(i, begin_at, false));
            let mut zeros: Vec<u8> = Vec::new();
            let mut t: usize = 0;
            while t < drop_size
                invariant
                    t <= drop_size,
                    zeros@.len() == t,
                decreases drop_size - t,
            {
                zeros.push(0u8);
                t += 1;
            }
            block_data.push(zeros);
            i += 1;
        }
        proof {
            lemma_count_known_all_false(blocks@, n_chunks as int);
        }
        Decoder {
            file_size,
            drop_size,
            n_chunks,
            drops_caught: 0,
            unknown_chunks: n_chunks,
            blocks,
            block_data,
            droplets: Vec::new(),
            history: Ghost(Seq::empty()),
        }
    }

    /// Record block `j` as solved with payload `pj`.  `pj` must be what
    /// every consistent block table holds at `j`.
    fn mark_solved(&mut self, j: usize, pj: Vec<u8>)
        requires
            old(self).inv(),
            count_known(old(self).blocks@, old(self).n_chunks as int) + credits(
                old(self).droplets@,
                old(self).blocks@,
                old(self).droplets@.len() as int,
            ) + 1 <= old(self).drops_caught,
            j < old(self).chunks(),
            !old(self).knows(j as int),
            pj@.len() == old(self).chunk_size(),
            forall|bl: Seq<Seq<u8>>|
                blocks_wf(bl, old(self).chunk_size() as nat, old(self).chunks()) && consistent(
                    bl,
                    old(self).chunk_size() as nat,
                    old(self).caught(),
                ) ==> pj@ == bl[j as int],
        ensures
            final(self).inv(),
            final(self).file_size == old(self).file_size,
            final(self).drop_size == old(self).drop_size,
            final(self).n_chunks == old(self).n_chunks,
            final(self).drops_caught == old(self).drops_caught,
            final(self).history == old(self).history,
            final(self).droplets@ == old(self).droplets@,
            final(self).unknown_chunks == old(self).unknown_chunks - 1,
            final(self).blocks@.len() == old(self).blocks@.len(),
            forall|t: int|
                0 <= t < old(self).blocks@.len() && t != j ==> final(self).blocks@[t] == old(self).blocks@[t],
            final(self).blocks@[j as int].is_known,
            final(self).blocks@[j as int].edges == old(self).blocks@[j as int].edges,
            final(self).blocks@[j as int].idx == old(self).blocks@[j as int].idx,
            final(self).blocks@[j as int].begin_at == old(self).blocks@[j as int].begin_at,
            final(self).block_data@ == old(self).block_data@.update(j as int, pj),
    {
        let ghost pre = *self;
        proof {
            lemma_count_known_bounds(pre.blocks@, pre.n_chunks as int);
            lemma_count_known_missing(pre.blocks@, pre.n_chunks as int, j as int);
        }
        self.block_data[j] = pj;
        self.blocks[j].is_known = true;
        self.unknown_chunks = self.unknown_chunks - 1;
        proof {
            lemma_count_known_flip(pre.blocks@, self.blocks@, self.n_chunks as int, j as int);
            lemma_credits_more_known(
                self.droplets@,
                pre.blocks@,
                self.blocks@,
                self.droplets@.len() as int,
            );
            assert forall|t: int, p: int|
                0 <= t < self.n_chunks && 0 <= p < self.blocks@[t].edges@.len() implies (
            #[trigger] self.blocks@[t].edges@[p]) < self.droplets@.len() by {
                if t == j {
                    assert(self.blocks@[t].edges == pre.blocks@[t].edges);
                    assert(pre.blocks@[t].edges@[p] < pre.droplets@.len());
                } else {
                    assert(self.blocks@[t] == pre.blocks@[t]);
                    assert(pre.blocks@[t].edges@[p] < pre.droplets@.len());
                }
            }
            let s_nat = self.drop_size as nat;
            let kk = self.n_chunks as int;
            assert forall|bl: Seq<Seq<u8>>|
                blocks_wf(bl, s_nat, kk) && consistent(bl, s_nat, self.caught()) implies self
                .state_matches(bl) by {
                assert(pre.state_matches(bl));
            }
        }
    }

    /// Solve block `i` with payload `payload`, then cascade: fold each
    /// newly known block into the droplets pending on it, solving further
    /// blocks as their degrees collapse to one.
    fn solve_and_cascade(&mut self, i: usize, payload: Vec<u8>)
        requires
            old(self).inv(),
            count_known(old(self).blocks@, old(self).n_chunks as int) + credits(
                old(self).droplets@,
                old(self).blocks@,
                old(self).droplets@.len() as int,
            ) + 1 <= old(self).drops_caught,
            i < old(self).chunks(),
            !old(self).knows(i as int),
            payload@.len() == old(self).chunk_size(),
            forall|bl: Seq<Seq<u8>>|
                blocks_wf(bl, old(self).chunk_size() as nat, old(self).chunks()) && consistent(
                    bl,
                    old(self).chunk_size() as nat,
                    old(self).caught(),
                ) ==> payload@ == bl[i as int],
        ensures
            final(self).inv(),
            final(self).file_size == old(self).file_size,
            final(self).drop_size == old(self).drop_size,
            final(self).n_chunks == old(self).n_chunks,
            final(self).drops_caught == old(self).drops_caught,
            final(self).history == old(self).history,
            final(self).droplets@.len() == old(self).droplets@.len(),
            final(self).unknown() <= old(self).unknown() - 1,
            final(self).knows(i as int),
            forall|t: int| old(self).knows(t) ==> final(self).knows(t),
            old(self).no_pending() ==> final(self).unknown() == old(self).unknown() - 1,
    {
        let ghost b0 = old(self).blocks@;
        let ghost d0 = old(self).droplets@.len();
        self.mark_solved(i, payload);
        let mut work: Vec<usize> = Vec::new();
        work.push(i);
        let ghost u1 = self.unknown_chunks;
        while work.len() > 0
            invariant
                self.inv(),
                self.file_size == old(self).file_size,
                self.drop_size == old(self).drop_size,
                self.n_chunks == old(self).n_chunks,
                self.drops_caught == old(self).drops_caught,
                self.history == old(self).history,
                self.droplets@.len() == d0,
                self.unknown_chunks <= u1,
                u1 == old(self).unknown() - 1,
                i < self.n_chunks,
                self.blocks@[i as int].is_known,
                forall|w: int|
                    0 <= w < work@.len() ==> (#[trigger] work@[w]) < self.n_chunks
                        && self.blocks@[work@[w] as int].is_known,
                forall|t: int|
                    0 <= t < self.n_chunks && b0[t].is_known ==> (
                    #[trigger] self.blocks@[t]).is_known,
                d0 == 0 ==> self.unknown_chunks == u1,
            decreases 2 * self.unknown_chunks + work@.len(),
        {
            let ghost m0 = 2 * self.unknown_chunks as int + work@.len() - 1;
            let b = match work.pop() {
                Some(b) => b,
                None => {
                    proof {
                        assert(false);
                    }
                    0
                },
            };
            let ghost pre_swap = *self;
            let pending: Vec<usize> = self.blocks[b].edges.split_off(0);
            proof {
                assert(self.blocks@.len() == pre_swap.blocks@.len());
                assert(forall|t: int|
                    0 <= t < self.blocks@.len() && t != b ==> self.blocks@[t]
                        == pre_swap.blocks@[t]);
                assert(self.blocks@[b as int].is_known == pre_swap.blocks@[b as int].is_known);
                assert(self.blocks@[b as int].edges@.len() == 0);
                assert forall|t: int, p: int|
                    0 <= t < self.n_chunks && 0 <= p < self.blocks@[t].edges@.len() implies (
                #[trigger] self.blocks@[t].edges@[p]) < self.droplets@.len() by {
                    assert(t != b);
                    assert(self.blocks@[t] == pre_swap.blocks@[t]);
                    assert(pre_swap.blocks@[t].edges@[p] < pre_swap.droplets@.len());
                }
                lemma_count_known_congruence(pre_swap.blocks@, self.blocks@, self.n_chunks as int);
                lemma_credits_same_flags(
                    self.droplets@,
                    pre_swap.blocks@,
                    self.blocks@,
                    self.droplets@.len() as int,
                );
                let s_nat = self.drop_size as nat;
                let kk = self.n_chunks as int;
                assert forall|bl: Seq<Seq<u8>>|
                    blocks_wf(bl, s_nat, kk) && consistent(bl, s_nat, self.caught()) implies self
                    .state_matches(bl) by {
                    assert(pre_swap.state_matches(bl));
                }
                assert forall|w: int| 0 <= w < pending@.len() implies (#[trigger] pending@[w])
                    < d0 by {}
                if d0 == 0 {
                    assert(pending@.len() == 0) by {
                        if pending@.len() > 0 {
                            assert(pending@[0] < d0);
                        }
                    }
                }
            }
            let mut q: usize = 0;
            while q < pending.len()
                invariant
                    self.inv(),
                    self.file_size == old(self).file_size,
                    self.drop_size == old(self).drop_size,
                    self.n_chunks == old(self).n_chunks,
                    self.drops_caught == old(self).drops_caught,
                    self.history == old(self).history,
                    self.droplets@.len() == d0,
                    q <= pending@.len(),
                    b < self.n_chunks,
                    i < self.n_chunks,
                    self.blocks@[b as int].is_known,
                    self.blocks@[i as int].is_known,
                    forall|w: int| 0 <= w < pending@.len() ==> (#[trigger] pending@[w]) < d0,
                    forall|w: int|
                        0 <= w < work@.len() ==> (#[trigger] work@[w]) < self.n_chunks
                            && self.blocks@[work@[w] as int].is_known,
                    forall|t: int|
                        0 <= t < self.n_chunks && b0[t].is_known ==> (
                        #[trigger] self.blocks@[t]).is_known,
                    2 * self.unknown_chunks as int + work@.len() <= m0,
                    self.unknown_chunks <= u1,
                    d0 == 0 ==> self.unknown_chunks == u1,
                decreases pending@.len() - q,
            {
                let id = pending[q];
                let pos_opt = find_pos(&self.droplets[id].edges_idx, b);
                if let Some(pos) = pos_opt {
                    let ghost pre = *self;
                    let ghost es_old = self.droplets@[id as int].edges_idx@;
                    xor_bytes(&mut self.droplets[id].data, &self.block_data[b]);
                    self.droplets[id].edges_idx.remove(pos);
                    proof {
                        let s_nat = self.drop_size as nat;
                        let kk = self.n_chunks as int;
                        assert forall|bl: Seq<Seq<u8>>|
                            blocks_wf(bl, s_nat, kk) && consistent(
                                bl,
                                s_nat,
                                self.caught(),
                            ) implies self.state_matches(bl) by {
                            assert(pre.state_matches(bl));
                            let es = idxs(es_old);
                            let old_data = pre.droplets@[id as int].data@;
                            assert(droplet_matches(bl, s_nat, es, old_data));
                            lemma_xor_blocks_len(bl, es, s_nat, kk);
                            assert(xored_with(
                                self.droplets@[id as int].data@,
                                old_data,
                                pre.block_data@[b as int]@,
                            ));
                            assert(pre.block_data@[b as int]@ == bl[b as int]);
                            assert(self.droplets@[id as int].data@ =~= xor_seq(
                                old_data,
                                bl[b as int],
                            ));
                            lemma_xor_blocks_remove(bl, es, s_nat, kk, pos as int);
                            lemma_idxs_remove(es_old, pos as int);
                            assert(es[pos as int] == b as int);
                            assert(droplet_matches(
                                bl,
                                s_nat,
                                idxs(self.droplets@[id as int].edges_idx@),
                                self.droplets@[id as int].data@,
                            ));
                        }
                        // the touched droplet's credit cannot rise
                        assert(self.droplets@ =~= pre.droplets@.update(
                            id as int,
                            self.droplets@[id as int],
                        ));
                        lemma_credits_update(
                            pre.droplets@,
                            self.blocks@,
                            pre.droplets@.len() as int,
                            id as int,
                            self.droplets@[id as int],
                        );
                        lemma_credits_agree(
                            self.droplets@,
                            pre.droplets@.update(id as int, self.droplets@[id as int]),
                            self.blocks@,
                            self.droplets@.len() as int,
                        );
                        if es_old.len() == 1 {
                            assert(es_old[0] == b);
                            assert(droplet_credit(pre.droplets@[id as int], self.blocks@) == 0);
                            assert(droplet_credit(self.droplets@[id as int], self.blocks@) == 0);
                        } else {
                            assert(droplet_credit(pre.droplets@[id as int], self.blocks@) == 1);
                        }
                    }
                    if self.droplets[id].edges_idx.len() == 1 {
                        let j = self.droplets[id].edges_idx[0];
                        if !self.blocks[j].is_known {
                            let pj = copy_bytes(&self.droplets[id].data);
                            proof {
                                let s_nat = self.drop_size as nat;
                                let kk = self.n_chunks as int;
                                assert forall|bl: Seq<Seq<u8>>|
                                    blocks_wf(bl, s_nat, kk) && consistent(
                                        bl,
                                        s_nat,
                                        self.caught(),
                                    ) implies pj@ == bl[j as int] by {
                                    assert(self.state_matches(bl));
                                    let es1 = idxs(self.droplets@[id as int].edges_idx@);
                                    assert(droplet_matches(bl, s_nat, es1, pj@));
                                    assert(es1 =~= seq![j as int]);
                                    lemma_xor_blocks_singleton(bl, j as int, s_nat, kk);
                                }
                            }
                            // spend the droplet: fold its own payload
                            // back in and drop its last edge, so its
                            // residual is empty and all zero
                            let ghost pre_spend = *self;
                            xor_bytes(&mut self.droplets[id].data, &pj);
                            self.droplets[id].edges_idx.remove(0);
                            proof {
                                let s_nat = self.drop_size as nat;
                                let kk = self.n_chunks as int;
                                assert(self.droplets@[id as int].edges_idx@ =~= Seq::<
                                    usize,
                                >::empty());
                                assert forall|bl: Seq<Seq<u8>>|
                                    blocks_wf(bl, s_nat, kk) && consistent(
                                        bl,
                                        s_nat,
                                        self.caught(),
                                    ) implies self.state_matches(bl) by {
                                    assert(pre_spend.state_matches(bl));
                                    assert(xored_with(
                                        self.droplets@[id as int].data@,
                                        pre_spend.droplets@[id as int].data@,
                                        pj@,
                                    ));
                                    assert(pj@ == pre_spend.droplets@[id as int].data@);
                                    assert forall|t: int| 0 <= t < s_nat implies self.droplets@[
                                        id as int
                                    ].data@[t] == 0u8 by {
                                        let x = pj@[t];
                                        assert(x ^ x == 0u8) by (bit_vector);
                                    }
                                    assert(self.droplets@[id as int].data@ =~= zero_block(s_nat));
                                    assert(droplet_matches(
                                        bl,
                                        s_nat,
                                        idxs(self.droplets@[id as int].edges_idx@),
                                        self.droplets@[id as int].data@,
                                    )) by {
                                        assert(idxs(self.droplets@[id as int].edges_idx@) =~= Seq::<
                                            int,
                                        >::empty());
                                    }
                                }
                                assert(self.droplets@ =~= pre_spend.droplets@.update(
                                    id as int,
                                    self.droplets@[id as int],
                                ));
                                lemma_credits_update(
                                    pre_spend.droplets@,
                                    self.blocks@,
                                    pre_spend.droplets@.len() as int,
                                    id as int,
                                    self.droplets@[id as int],
                                );
                                lemma_credits_agree(
                                    self.droplets@,
                                    pre_spend.droplets@.update(
                                        id as int,
                                        self.droplets@[id as int],
                                    ),
                                    self.blocks@,
                                    self.droplets@.len() as int,
                                );
                                assert(droplet_credit(pre_spend.droplets@[id as int], self.blocks@)
                                    == 1);
                                assert(droplet_credit(self.droplets@[id as int], self.blocks@)
                                    == 0);
                            }
                            self.mark_solved(j, pj);
                            work.push(j);
                        }
                    }
                }
                q += 1;
            }
        }
    }
}

/// A droplet that cannot belong to this stream: wrong payload length, or
/// a single edge naming a block that does not exist.
pub open spec fn malformed_droplet(drop: Droplet, s: int, k: int) -> bool {
    ||| drop.data@.len() != s
    ||| match drop.edges {
        Edges::Edge(i) => i as int >= k,
        Edges::Seeded(_, _) => false,
    }
}

impl Decoder {
    /// Every edge in `es` names an already-known block.
    pub open spec fn all_known(self, es: Seq<int>) -> bool {
        forall|j: int| 0 <= j < es.len() ==> self.knows(#[trigger] es[j])
    }

    /// Copy out the reconstructed message; callable once every block is
    /// known.
    fn assemble(&self) -> (out: Vec<u8>)
        requires
            self.inv(),
            self.unknown() == 0,
        ensures
            out@.len() == self.msg_len(),
            forall|bl: Seq<Seq<u8>>|
                blocks_wf(bl, self.chunk_size() as nat, self.chunks()) && consistent(
                    bl,
                    self.chunk_size() as nat,
                    self.caught(),
                ) ==> out@ == concat_blocks(bl, self.chunks()).take(self.msg_len()),
    {
        proof {
            lemma_count_known_bounds(self.blocks@, self.n_chunks as int);
            lemma_count_known_full(self.blocks@, self.n_chunks as int);
        }
        let ghost s_nat = self.drop_size as nat;
        let ghost kk = self.n_chunks as int;
        let mut out: Vec<u8> = Vec::new();
        let mut i: usize = 0;
        while i < self.n_chunks
            invariant
                self.inv(),
                i <= self.n_chunks,
                forall|t: int| 0 <= t < self.n_chunks ==> (#[trigger] self.blocks@[t]).is_known,
                out@.len() == i * self.drop_size,
                s_nat == self.drop_size as nat,
                kk == self.n_chunks as int,
                forall|bl: Seq<Seq<u8>>|
                    blocks_wf(bl, s_nat, kk) && consistent(bl, s_nat, self.caught()) ==> out@
                        == concat_blocks(bl, i as int),
            decreases self.n_chunks - i,
        {
            let ghost out0 = out@;
            let mut t: usize = 0;
            proof {
                assert((i + 1) * self.drop_size <= self.n_chunks * self.drop_size)
                    by (nonlinear_arith)
                    requires
                        0 <= i < self.n_chunks,
                        self.drop_size >= 1,
                ;
            }
            while t < self.drop_size
                invariant
                    self.inv(),
                    i < self.n_chunks,
                    t <= self.drop_size,
                    out@ == out0 + self.block_data@[i as int]@.take(t as int),
                decreases self.drop_size - t,
            {
                out.push(self.block_data[i][t]);
                proof {
                    assert(self.block_data@[i as int]@.take(t + 1) =~= self.block_data@[
                        i as int
                    ]@.take(t as int).push(self.block_data@[i as int]@[t as int]));
                }
                t += 1;
            }
            proof {
                assert(self.block_data@[i as int]@.take(self.drop_size as int) =~= self.block_data@[
                    i as int
                ]@);
                assert forall|bl: Seq<Seq<u8>>|
                    blocks_wf(bl, s_nat, kk) && consistent(bl, s_nat, self.caught()) implies out@
                    == concat_blocks(bl, i + 1) by {
                    assert(out0 == concat_blocks(bl, i as int));
                    assert(self.state_matches(bl));
                    assert((#[trigger] self.blocks@[i as int]).is_known);
                    assert(self.block_data@[i as int]@ == bl[i as int]);
                }
                assert(out@.len() == (i + 1) * self.drop_size) by (nonlinear_arith)
                    requires
                        out@.len() == i * self.drop_size + self.drop_size,
                ;
            }
            i += 1;
        }
        proof {
            assert(out@.len() == self.n_chunks * self.drop_size);
            assert(self.file_size <= out@.len());
        }
        let ghost pre_trunc = out@;
        out.truncate(self.file_size);
        proof {
            assert forall|bl: Seq<Seq<u8>>|
                blocks_wf(bl, s_nat, kk) && consistent(bl, s_nat, self.caught()) implies out@
                == concat_blocks(bl, kk).take(self.msg_len()) by {
                assert(pre_trunc == concat_blocks(bl, kk));
                assert(out@ == pre_trunc.subrange(0, self.file_size as int));
                assert(concat_blocks(bl, kk).take(self.msg_len()) =~= pre_trunc.subrange(
                    0,
                    self.file_size as int,
                ));
            }
        }
        out
    }

    /// Catches a Droplet.
    /// When it is possible to reconstruct the whole message, the bytes are
    /// returned.
    pub fn catch(&mut self, drop: Droplet) -> (r: CatchResult)
        requires
            old(self).inv(),
            old(self).received() < usize::MAX,
        ensures
            final(self).inv(),
            final(self).msg_len() == old(self).msg_len(),
            final(self).chunk_size() == old(self).chunk_size(),
            final(self).chunks() == old(self).chunks(),
            final(self).received() == old(self).received() + 1,
            final(self).unknown() <= old(self).unknown(),
            // each resolved block consumed a distinct received droplet,
            // so overhead never drops below the information-theoretic
            // minimum on completion
            final(self).chunks() - final(self).unknown() <= final(self).received(),
            forall|t: int| old(self).knows(t) ==> final(self).knows(t),
            // a malformed droplet is rejected outright: nothing beyond
            // the received counter changes
            malformed_droplet(drop, old(self).chunk_size(), old(self).chunks()) ==> (
            r matches CatchResult::MalformedDroplet(_)) && final(self).caught() == old(self).caught() && final(self).unknown() == old(self).unknown() && final(self).buffered()
                == old(self).buffered() && (forall|t: int|
                final(self).knows(t) == old(self).knows(t)) && final(self).no_pending() == old(self).no_pending(),
            !malformed_droplet(drop, old(self).chunk_size(), old(self).chunks()) ==> final(self).caught() == old(self).caught().push(
                (expanded(drop.edges, old(self).chunks()), drop.data@),
            ) && !(r matches CatchResult::MalformedDroplet(_)),
            match r {
                CatchResult::Finished(out, st) => {
                    &&& final(self).unknown() == 0
                    &&& final(self).stats_ok(st)
                    &&& st.overhead >= 100
                    &&& out@.len() == final(self).msg_len()
                    &&& forall|bl: Seq<Seq<u8>>|
                        blocks_wf(bl, final(self).chunk_size() as nat, final(self).chunks())
                            && consistent(
                            bl,
                            final(self).chunk_size() as nat,
                            final(self).caught(),
                        ) ==> out@ == concat_blocks(bl, final(self).chunks()).take(
                            final(self).msg_len(),
                        )
                },
                CatchResult::Missing(st) => final(self).unknown() != 0 && final(self).stats_ok(st),
                CatchResult::MalformedDroplet(st) => final(self).stats_ok(st) && malformed_droplet(
                    drop,
                    old(self).chunk_size(),
                    old(self).chunks(),
                ),
            },
            // a droplet naming only known blocks is a no-op beyond the
            // counters
            (!malformed_droplet(drop, old(self).chunk_size(), old(self).chunks()) && old(self).all_known(expanded(drop.edges, old(self).chunks()))) ==> final(self).unknown() == old(self).unknown() && final(self).buffered() == old(self).buffered() && (forall|t: int|
                final(self).knows(t) == old(self).knows(t)) && final(self).no_pending() == old(self).no_pending(),
            // a fresh degree-1 droplet on a decoder with nothing pending
            // resolves exactly one block
            ({
                let es = expanded(drop.edges, old(self).chunks());
                (!malformed_droplet(drop, old(self).chunk_size(), old(self).chunks()) && old(self).no_pending() && es.len() == 1 && !old(self).knows(es[0])) ==> final(self).unknown() == old(self).unknown() - 1 && final(self).no_pending() && final(self).knows(es[0])
            }),
    {
        let ghost pre = *old(self);
        let ghost k_int = self.n_chunks as int;
        let ghost s_nat = self.drop_size as nat;
        self.drops_caught = self.drops_caught + 1;
        proof {
            lemma_inv_core(pre, *self);
            assert(count_known(self.blocks@, self.n_chunks as int) + credits(
                self.droplets@,
                self.blocks@,
                self.droplets@.len() as int,
            ) + 1 <= self.drops_caught);
        }
        if drop.data.len() != self.drop_size {
            let st = self.make_stats();
            proof {
                lemma_resolved_bound(*self);
            }
            return CatchResult::MalformedDroplet(st);
        }
        match &drop.edges {
            Edges::Edge(e0) => {
                if *e0 >= self.n_chunks {
                    let st = self.make_stats();
                    proof {
                        lemma_resolved_bound(*self);
                    }
                    return CatchResult::MalformedDroplet(st);
                }
            },
            Edges::Seeded(_, _) => {},
        }
        let idx_list = drop.edges.iter_with_range(self.n_chunks);
        let ghost es_full = expanded(drop.edges, k_int);
        proof {
            assert(idxs(idx_list@) =~= es_full);
            match drop.edges {
                Edges::Edge(e0) => {
                    let m = idx_list@.map_values(|x: usize| x as int);
                    assert(m == expanded(drop.edges, k_int));
                    assert(expanded(drop.edges, k_int) == seq![e0 as int]);
                    assert(m.len() == idx_list@.len());
                    assert(seq![e0 as int].len() == 1);
                    assert(m[0] == idx_list@[0] as int);
                    assert(idx_list@.len() == 1 && idx_list@[0] == e0);
                },
                Edges::Seeded(_, _) => {},
            }
            assert(forall|j: int|
                0 <= j < idx_list@.len() ==> (#[trigger] idx_list@[j]) < self.n_chunks);
            assert(forall|j: int|
                0 <= j < es_full.len() ==> es_full[j] == (#[trigger] idx_list@[j]) as int);
            self.history@ = self.history@.push((es_full, drop.data@));
            assert forall|bl: Seq<Seq<u8>>|
                blocks_wf(bl, s_nat, k_int) && consistent(bl, s_nat, self.caught()) implies self
                .state_matches(bl) by {
                assert forall|h: int| 0 <= h < pre.history@.len() implies droplet_matches(
                    bl,
                    s_nat,
                    (#[trigger] pre.history@[h]).0,
                    pre.history@[h].1,
                ) by {
                    assert(self.history@[h] == pre.history@[h]);
                    assert(droplet_matches(bl, s_nat, self.history@[h].0, self.history@[h].1));
                }
                assert(consistent(bl, s_nat, pre.history@));
                assert(pre.state_matches(bl));
            }
            assert(self.caught()[self.caught().len() - 1] == (es_full, drop.data@));
        }
        let ghost post_hist = *self;
        let mut payload = drop.data;
        if idx_list.len() == 1 {
            let i0 = idx_list[0];
            if self.blocks[i0].is_known {
                // Redundant: its only block is already known; discard.
                proof {
                    assert(pre.knows(es_full[0]));
                }
            } else {
                proof {
                    assert forall|bl: Seq<Seq<u8>>|
                        blocks_wf(bl, s_nat, k_int) && consistent(
                            bl,
                            s_nat,
                            self.caught(),
                        ) implies payload@ == bl[i0 as int] by {
                        let h = self.caught().len() - 1;
                        assert(droplet_matches(bl, s_nat, self.caught()[h].0, self.caught()[h].1));
                        assert(es_full =~= seq![i0 as int]);
                        lemma_xor_blocks_singleton(bl, i0 as int, s_nat, k_int);
                    }
                    assert(!pre.all_known(es_full)) by {
                        assert(es_full[0] == i0 as int);
                        assert(!pre.knows(es_full[0]));
                    }
                }
                self.solve_and_cascade(i0, payload);
            }
        } else {
            let mut edges: Vec<usize> = Vec::new();
            let ghost mut wit: Seq<int> = Seq::empty();
            proof {
                assert forall|bl: Seq<Seq<u8>>|
                    blocks_wf(bl, s_nat, k_int) && consistent(
                        bl,
                        s_nat,
                        self.caught(),
                    ) implies payload@ == xor_blocks(
                    bl,
                    idxs(edges@) + es_full.skip(0),
                    s_nat,
                ) by {
                    let h = self.caught().len() - 1;
                    assert(droplet_matches(bl, s_nat, self.caught()[h].0, self.caught()[h].1));
                    assert(idxs(edges@) + es_full.skip(0) =~= es_full);
                }
            }
            let mut t: usize = 0;
            while t < idx_list.len()
                invariant
                    *self == post_hist,
                    self.inv(),
                    count_known(self.blocks@, self.n_chunks as int) + credits(
                        self.droplets@,
                        self.blocks@,
                        self.droplets@.len() as int,
                    ) + 1 <= self.drops_caught,
                    k_int == self.n_chunks as int,
                    s_nat == self.drop_size as nat,
                    t <= idx_list@.len(),
                    es_full.len() == idx_list@.len(),
                    forall|j: int|
                        0 <= j < idx_list@.len() ==> (#[trigger] idx_list@[j]) < self.n_chunks,
                    forall|j: int|
                        0 <= j < es_full.len() ==> es_full[j] == (#[trigger] idx_list@[j]) as int,
                    forall|p: int|
                        0 <= p < edges@.len() ==> (#[trigger] edges@[p]) < self.n_chunks
                            && !self.blocks@[edges@[p] as int].is_known,
                    wit.len() == edges@.len(),
                    forall|p: int|
                        0 <= p < edges@.len() ==> 0 <= #[trigger] wit[p] < t && es_full[wit[p]]
                            == edges@[p] as int,
                    payload@.len() == s_nat,
                    forall|bl: Seq<Seq<u8>>|
                        blocks_wf(bl, s_nat, k_int) && consistent(bl, s_nat, self.caught())
                            ==> payload@ == xor_blocks(
                            bl,
                            idxs(edges@) + es_full.skip(t as int),
                            s_nat,
                        ),
                decreases idx_list@.len() - t,
            {
                let e = idx_list[t];
                proof {
                    assert(es_full.skip(t as int) =~= seq![es_full[t as int]] + es_full.skip(
                        t + 1,
                    ));
                }
                if self.blocks[e].is_known {
                    let ghost pay0 = payload@;
                    xor_bytes(&mut payload, &self.block_data[e]);
                    proof {
                        assert forall|bl: Seq<Seq<u8>>|
                            blocks_wf(bl, s_nat, k_int) && consistent(
                                bl,
                                s_nat,
                                self.caught(),
                            ) implies payload@ == xor_blocks(
                            bl,
                            idxs(edges@) + es_full.skip(t + 1),
                            s_nat,
                        ) by {
                            let comb = idxs(edges@) + es_full.skip(t as int);
                            assert(pay0 == xor_blocks(bl, comb, s_nat));
                            assert(edges_in_range(comb, k_int)) by {
                                assert forall|j: int| 0 <= j < comb.len() implies 0 <= (
                                #[trigger] comb[j]) < k_int by {
                                    if j < idxs(edges@).len() {
                                        assert(comb[j] == edges@[j] as int);
                                    } else {
                                        let m = j - edges@.len() + t;
                                        assert(comb[j] == es_full.skip(t as int)[j - edges@.len()]);
                                        assert(comb[j] == es_full[m]);
                                        assert(es_full[m] == idx_list@[m] as int);
                                        assert(idx_list@[m] < self.n_chunks);
                                    }
                                }
                            }
                            lemma_xor_blocks_len(bl, comb, s_nat, k_int);
                            assert(self.state_matches(bl));
                            assert((#[trigger] self.blocks@[e as int]).is_known);
                            assert(self.block_data@[e as int]@ == bl[e as int]);
                            assert(payload@ =~= xor_seq(pay0, bl[e as int]));
                            let j0 = edges@.len() as int;
                            assert(comb[j0] == es_full[t as int] == e as int);
                            lemma_xor_blocks_remove(bl, comb, s_nat, k_int, j0);
                            assert(comb.remove(j0) =~= idxs(edges@) + es_full.skip(t + 1));
                        }
                    }
                } else {
                    match find_pos(&edges, e) {
                        Some(p) => {
                            let ghost edges0 = edges@;
                            edges.remove(p);
                            proof {
                                assert forall|bl: Seq<Seq<u8>>|
                                    blocks_wf(bl, s_nat, k_int) && consistent(
                                        bl,
                                        s_nat,
                                        self.caught(),
                                    ) implies payload@ == xor_blocks(
                                    bl,
                                    idxs(edges@) + es_full.skip(t + 1),
                                    s_nat,
                                ) by {
                                    let comb = idxs(edges0) + es_full.skip(t as int);
                                    assert(payload@ == xor_blocks(bl, comb, s_nat));
                                    assert(edges_in_range(comb, k_int)) by {
                                        assert forall|j: int| 0 <= j < comb.len() implies 0 <= (
                                        #[trigger] comb[j]) < k_int by {
                                            if j < edges0.len() {
                                                assert(comb[j] == edges0[j] as int);
                                            } else {
                                                let m = j - edges0.len() + t;
                                                assert(comb[j] == es_full.skip(t as int)[j
                                                    - edges0.len()]);
                                                assert(comb[j] == es_full[m]);
                                                assert(es_full[m] == idx_list@[m] as int);
                                                assert(idx_list@[m] < self.n_chunks);
                                            }
                                        }
                                    }
                                    let j0 = edges0.len() as int;
                                    assert(comb[j0] == es_full[t as int] == e as int);
                                    lemma_xor_blocks_remove(bl, comb, s_nat, k_int, j0);
                                    let comb1 = comb.remove(j0);
                                    assert(comb1 =~= idxs(edges0) + es_full.skip(t + 1));
                                    assert(edges_in_range(comb1, k_int)) by {
                                        assert forall|j: int| 0 <= j < comb1.len() implies 0 <= (
                                        #[trigger] comb1[j]) < k_int by {
                                            assert(comb1[j] == if j < j0 {
                                                comb[j]
                                            } else {
                                                comb[j + 1]
                                            });
                                        }
                                    }
                                    assert(comb1[p as int] == edges0[p as int] as int == e as int);
                                    lemma_xor_blocks_remove(bl, comb1, s_nat, k_int, p as int);
                                    lemma_idxs_remove(edges0, p as int);
                                    assert(comb1.remove(p as int) =~= idxs(edges0.remove(p as int))
                                        + es_full.skip(t + 1));
                                    lemma_xor_blocks_len(bl, comb, s_nat, k_int);
                                    crate::xor::lemma_xor_seq_self_inverse(
                                        xor_blocks(bl, comb, s_nat),
                                        bl[e as int],
                                    );
                                    assert(xor_blocks(bl, comb1.remove(p as int), s_nat)
                                        == payload@);
                                    assert(idxs(edges@) == idxs(edges0.remove(p as int)));
                                }
                                wit = wit.remove(p as int);
                                assert forall|p2: int| 0 <= p2 < edges@.len() implies 0 <= (
                                #[trigger] wit[p2]) < t + 1 && es_full[wit[p2]] == edges@[
                                    p2
                                ] as int by {
                                    let orig: int = if p2 < p {
                                        p2
                                    } else {
                                        p2 + 1
                                    };
                                    assert(edges@[p2] == edges0[orig]);
                                }
                            }
                        },
                        None => {
                            let ghost edges0 = edges@;
                            edges.push(e);
                            proof {
                                assert(idxs(edges@) =~= idxs(edges0).push(e as int));
                                assert forall|bl: Seq<Seq<u8>>|
                                    blocks_wf(bl, s_nat, k_int) && consistent(
                                        bl,
                                        s_nat,
                                        self.caught(),
                                    ) implies payload@ == xor_blocks(
                                    bl,
                                    idxs(edges@) + es_full.skip(t + 1),
                                    s_nat,
                                ) by {
                                    assert(idxs(edges@) + es_full.skip(t + 1) =~= idxs(edges0)
                                        + es_full.skip(t as int));
                                }
                                wit = wit.push(t as int);
                                assert forall|p2: int| 0 <= p2 < edges@.len() implies 0 <= (
                                #[trigger] wit[p2]) < t + 1 && es_full[wit[p2]] == edges@[
                                    p2
                                ] as int by {
                                    if p2 < edges0.len() {
                                        assert(edges@[p2] == edges0[p2]);
                                    } else {
                                        assert(edges@[p2] == e);
                                        assert(es_full[t as int] == e as int);
                                    }
                                }
                            }
                        },
                    }
                }
                t += 1;
            }
            proof {
                assert(es_full.skip(idx_list@.len() as int) =~= Seq::<int>::empty());
                assert forall|bl: Seq<Seq<u8>>|
                    blocks_wf(bl, s_nat, k_int) && consistent(
                        bl,
                        s_nat,
                        self.caught(),
                    ) implies payload@ == xor_blocks(bl, idxs(edges@), s_nat) by {
                    assert(idxs(edges@) + es_full.skip(idx_list@.len() as int) =~= idxs(edges@));
                }
            }
            if edges.len() == 0 {
                // Collapsed to nothing: no new information; discard.
            } else if edges.len() == 1 {
                let i0 = edges[0];
                proof {
                    assert(!self.blocks@[i0 as int].is_known);
                    assert forall|bl: Seq<Seq<u8>>|
                        blocks_wf(bl, s_nat, k_int) && consistent(
                            bl,
                            s_nat,
                            self.caught(),
                        ) implies payload@ == bl[i0 as int] by {
                        assert(idxs(edges@) =~= seq![i0 as int]);
                        lemma_xor_blocks_singleton(bl, i0 as int, s_nat, k_int);
                    }
                    assert(!pre.all_known(es_full)) by {
                        assert(es_full[wit[0]] == i0 as int);
                        assert(!pre.knows(es_full[wit[0]]));
                    }
                }
                self.solve_and_cascade(i0, payload);
            } else {
                let ghost pre_attach = *self;
                let ghost evs = edges@;
                let id = self.droplets.len();
                self.droplets.push(RxDroplet { edges_idx: edges, data: payload });
                proof {
                    assert forall|t2: int, p: int|
                        0 <= t2 < self.n_chunks && 0 <= p < self.blocks@[t2].edges@.len() implies (
                    #[trigger] self.blocks@[t2].edges@[p]) < self.droplets@.len() by {
                        assert(pre_attach.blocks@[t2].edges@[p] < pre_attach.droplets@.len());
                    }
                    assert forall|bl: Seq<Seq<u8>>|
                        blocks_wf(bl, s_nat, k_int) && consistent(
                            bl,
                            s_nat,
                            self.caught(),
                        ) implies self.state_matches(bl) by {
                        assert(pre_attach.state_matches(bl));
                        assert forall|d: int| 0 <= d < self.droplets@.len() implies droplet_matches(
                            bl,
                            s_nat,
                            idxs((#[trigger] self.droplets@[d]).edges_idx@),
                            self.droplets@[d].data@,
                        ) by {
                            if d < id {
                                assert(self.droplets@[d] == pre_attach.droplets@[d]);
                            } else {
                                assert(self.droplets@[d].edges_idx@ == evs);
                            }
                        }
                    }
                    assert(!pre.all_known(es_full)) by {
                        assert(es_full[wit[0]] == evs[0] as int);
                        assert(!pre.knows(es_full[wit[0]]));
                    }
                    assert(self.droplets@ =~= pre_attach.droplets@.push(
                        self.droplets@[id as int],
                    ));
                    lemma_credits_push(
                        pre_attach.droplets@,
                        self.blocks@,
                        self.droplets@[id as int],
                    );
                    lemma_credits_agree(
                        self.droplets@,
                        pre_attach.droplets@.push(self.droplets@[id as int]),
                        self.blocks@,
                        self.droplets@.len() as int,
                    );
                    assert(droplet_credit(self.droplets@[id as int], self.blocks@) == 1);
                }
                let num = self.droplets[id].edges_idx.len();
                let ghost post_attach = *self;
                let mut t2: usize = 0;
                while t2 < num
                    invariant
                        self.inv(),
                        t2 <= num,
                        id < self.droplets@.len(),
                        self.droplets@ == post_attach.droplets@,
                        self.block_data@ == post_attach.block_data@,
                        self.blocks@.len() == post_attach.blocks@.len(),
                        forall|w: int|
                            0 <= w < self.blocks@.len() ==> (#[trigger] self.blocks@[w]).is_known
                                == post_attach.blocks@[w].is_known,
                        self.unknown_chunks == post_attach.unknown_chunks,
                        self.history == post_attach.history,
                        self.drops_caught == post_attach.drops_caught,
                        self.file_size == post_attach.file_size,
                        self.drop_size == post_attach.drop_size,
                        self.n_chunks == post_attach.n_chunks,
                        num == self.droplets@[id as int].edges_idx@.len(),
                    decreases num - t2,
                {
                    let e2 = self.droplets[id].edges_idx[t2];
                    let ghost pre_push = *self;
                    self.blocks[e2].edges.push(id);
                    proof {
                        lemma_pending_push(pre_push, *self, e2 as int, id as int);
                    }
                    t2 += 1;
                }
            }
        }
        proof {
            lemma_resolved_bound(*self);
            if self.unknown_chunks == 0 {
                assert(Self::overhead_spec(self.received(), self.chunks()) >= 100) by {
                    assert(100 * self.received() / self.chunks() >= 100) by (nonlinear_arith)
                        requires
                            self.received() >= self.chunks() >= 1,
                    ;
                }
            }
        }
        if self.unknown_chunks == 0 {
            let out = self.assemble();
            let st = self.make_stats();
            CatchResult::Finished(out, st)
        } else {
            let st = self.make_stats();
            CatchResult::Missing(st)
        }
    }

    /// Catches a Droplet, decoding into a caller-supplied buffer.  On
    /// completion the first `L` bytes of `out_buf` hold the message and
    /// its length is returned; the rest of the buffer is untouched.
    pub fn catch_to(&mut self, drop: Droplet, out_buf: &mut Vec<u8>) -> (r: CatchToResult)
        requires
            old(self).inv(),
            old(self).received() < usize::MAX,
            old(out_buf)@.len() >= old(self).msg_len(),
        ensures
            final(self).inv(),
            final(self).msg_len() == old(self).msg_len(),
            final(self).chunk_size() == old(self).chunk_size(),
            final(self).chunks() == old(self).chunks(),
            final(self).received() == old(self).received() + 1,
            final(self).unknown() <= old(self).unknown(),
            final(self).chunks() - final(self).unknown() <= final(self).received(),
            final(out_buf)@.len() == old(out_buf)@.len(),
            malformed_droplet(drop, old(self).chunk_size(), old(self).chunks()) ==> (
            r matches CatchToResult::MalformedDroplet(_)) && final(self).caught() == old(self).caught(),
            !malformed_droplet(drop, old(self).chunk_size(), old(self).chunks()) ==> final(self).caught() == old(self).caught().push(
                (expanded(drop.edges, old(self).chunks()), drop.data@),
            ) && !(r matches CatchToResult::MalformedDroplet(_)),
            match r {
                CatchToResult::Finished(n, st) => {
                    &&& final(self).unknown() == 0
                    &&& final(self).stats_ok(st)
                    &&& st.overhead >= 100
                    &&& n == final(self).msg_len()
                    &&& final(out_buf)@.skip(n as int) == old(out_buf)@.skip(n as int)
                    &&& forall|bl: Seq<Seq<u8>>|
                        blocks_wf(bl, final(self).chunk_size() as nat, final(self).chunks())
                            && consistent(
                            bl,
                            final(self).chunk_size() as nat,
                            final(self).caught(),
                        ) ==> final(out_buf)@.take(n as int) == concat_blocks(
                            bl,
                            final(self).chunks(),
                        ).take(final(self).msg_len())
                },
                CatchToResult::Missing(st) => final(self).unknown() != 0 && final(self).stats_ok(
                    st,
                ) && final(out_buf)@ == old(out_buf)@,
                CatchToResult::MalformedDroplet(st) => final(self).stats_ok(st)
                    && malformed_droplet(drop, old(self).chunk_size(), old(self).chunks())
                    && final(out_buf)@ == old(out_buf)@,
            },
    {
        match self.catch(drop) {
            CatchResult::Finished(out, st) => {
                let ghost buf0 = out_buf@;
                let n = out.len();
                let mut t: usize = 0;
                while t < n
                    invariant
                        n == out@.len(),
                        n <= out_buf@.len(),
                        t <= n,
                        out_buf@.len() == buf0.len(),
                        forall|j: int| 0 <= j < t ==> out_buf@[j] == out@[j],
                        forall|j: int| t <= j < buf0.len() ==> out_buf@[j] == buf0[j],
                    decreases n - t,
                {
                    let v = out[t];
                    out_buf[t] = v;
                    t += 1;
                }
                proof {
                    assert(out_buf@.take(n as int) =~= out@);
                    assert(out_buf@.skip(n as int) =~= buf0.skip(n as int));
                }
                CatchToResult::Finished(n, st)
            },
            CatchResult::Missing(st) => CatchToResult::Missing(st),
            CatchResult::MalformedDroplet(st) => CatchToResult::MalformedDroplet(st),
        }
    }
}

/// Every resolved block was paid for by a received droplet.
proof fn lemma_resolved_bound(d: Decoder)
    requires
        d.inv(),
    ensures
        d.chunks() - d.unknown() <= d.received(),
{
    lemma_credits_nonneg(d.droplets@, d.blocks@, d.droplets@.len() as int);
}

/// The invariant does not depend on the received-droplet counter.
proof fn lemma_inv_core(pre: Decoder, post: Decoder)
    requires
        pre.inv(),
        post.drops_caught >= pre.drops_caught,
        post.file_size == pre.file_size,
        post.drop_size == pre.drop_size,
        post.n_chunks == pre.n_chunks,
        post.unknown_chunks == pre.unknown_chunks,
        post.history == pre.history,
        post.blocks@ == pre.blocks@,
        post.block_data@ == pre.block_data@,
        post.droplets@ == pre.droplets@,
    ensures
        post.inv(),
{
    assert(post.shape_wf());
    assert(credits(post.droplets@, post.blocks@, post.droplets@.len() as int) == credits(
        pre.droplets@,
        pre.blocks@,
        pre.droplets@.len() as int,
    ));
    assert forall|bl: Seq<Seq<u8>>|
        blocks_wf(bl, post.chunk_size() as nat, post.chunks()) && consistent(
            bl,
            post.chunk_size() as nat,
            post.caught(),
        ) implies post.state_matches(bl) by {
        assert(pre.state_matches(bl));
    }
}

/// Appending a droplet id to one block's pending list preserves the
/// invariant: pending lists carry no semantic weight of their own.
proof fn lemma_pending_push(pre: Decoder, post: Decoder, e: int, id: int)
    requires
        pre.inv(),
        0 <= e < pre.n_chunks,
        0 <= id < pre.droplets@.len(),
        post.file_size == pre.file_size,
        post.drop_size == pre.drop_size,
        post.n_chunks == pre.n_chunks,
        post.drops_caught == pre.drops_caught,
        post.unknown_chunks == pre.unknown_chunks,
        post.history == pre.history,
        post.droplets@ == pre.droplets@,
        post.block_data@ == pre.block_data@,
        post.blocks@.len() == pre.blocks@.len(),
        forall|t: int|
            0 <= t < post.blocks@.len() && t != e ==> post.blocks@[t] == pre.blocks@[t],
        post.blocks@[e].idx == pre.blocks@[e].idx,
        post.blocks@[e].begin_at == pre.blocks@[e].begin_at,
        post.blocks@[e].is_known == pre.blocks@[e].is_known,
        post.blocks@[e].edges@ == pre.blocks@[e].edges@.push(id as usize),
    ensures
        post.inv(),
{
    lemma_count_known_congruence(pre.blocks@, post.blocks@, pre.n_chunks as int);
    lemma_credits_same_flags(
        post.droplets@,
        pre.blocks@,
        post.blocks@,
        post.droplets@.len() as int,
    );
    assert forall|t: int, p: int|
        0 <= t < post.n_chunks && 0 <= p < post.blocks@[t].edges@.len() implies (
    #[trigger] post.blocks@[t].edges@[p]) < post.droplets@.len() by {
        if t == e && p == post.blocks@[t].edges@.len() - 1 {
            assert(post.blocks@[t].edges@[p] == id as usize);
        } else {
            assert(post.blocks@[t].edges@[p] == pre.blocks@[t].edges@[p]);
            assert(pre.blocks@[t].edges@[p] < pre.droplets@.len());
        }
    }
    assert forall|t: int| 0 <= t < post.n_chunks implies (#[trigger] post.blocks@[t]).idx == t
        && post.blocks@[t].begin_at == t * post.drop_size by {
        assert(pre.blocks@[t].idx == t);
    }
    assert(post.shape_wf());
    assert forall|bl: Seq<Seq<u8>>|
        blocks_wf(bl, post.chunk_size() as nat, post.chunks()) && consistent(
            bl,
            post.chunk_size() as nat,
            post.caught(),
        ) implies post.state_matches(bl) by {
        assert(pre.state_matches(bl));
        assert forall|i: int|
            0 <= i < post.chunks() && (#[trigger] post.blocks@[i]).is_known implies post
            .block_data@[i]@ == bl[i] by {
            assert(pre.blocks@[i].is_known);
        }
    }
}

/// Linear scan for `x`; the decoder uses it to find an edge in a
/// droplet's residual edge list.
fn find_pos(v: &Vec<usize>, x: usize) -> (r: Option<usize>)
    ensures
        match r {
            Some(p) => p < v@.len() && v@[p as int] == x,
            None => forall|j: int| 0 <= j < v@.len() ==> v@[j] != x,
        },
{
    let mut t: usize = 0;
    while t < v.len()
        invariant
            t <= v@.len(),
            forall|j: int| 0 <= j < t ==> v@[j] != x,
        decreases v@.len() - t,
    {
        if v[t] == x {
            return Some(t);
        }
        t += 1;
    }
    None
}

/// Byte-for-byte copy of a buffer.
fn copy_bytes(v: &Vec<u8>) -> (r: Vec<u8>)
    ensures
        r@ == v@,
{
    let mut r: Vec<u8> = Vec::new();
    let mut t: usize = 0;
    while t < v.len()
        invariant
            t <= v@.len(),
            r@ == v@.take(t as int),
        decreases v@.len() - t,
    {
        r.push(v[t]);
        proof {
            assert(v@.take(t + 1) =~= v@.take(t as int).push(v@[t as int]));
        }
        t += 1;
    }
    proof {
        assert(v@.take(v@.len() as int) =~= v@);
    }
    r
}

proof fn lemma_idxs_remove(v: Seq<usize>, p: int)
    requires
        0 <= p < v.len(),
    ensures
        idxs(v.remove(p)) == idxs(v).remove(p),
{
    assert(idxs(v.remove(p)) =~= idxs(v).remove(p));
}

proof fn lemma_count_known_all_false(bs: Seq<Block>, n: int)
    requires
        0 <= n <= bs.len(),
        forall|t: int| 0 <= t < n ==> !(#[trigger] bs[t]).is_known,
    ensures
        count_known(bs, n) == 0,
    decreases n,
{
    if n > 0 {
        lemma_count_known_all_false(bs, n - 1);
    }
}

proof fn lemma_count_known_mono(bs: Seq<Block>, m: int, n: int)
    requires
        0 <= m <= n,
    ensures
        count_known(bs, m) <= count_known(bs, n),
    decreases n - m,
{
    if m < n {
        lemma_count_known_mono(bs, m, n - 1);
    }
}

proof fn lemma_count_known_prefix(bs: Seq<Block>, m: int)
    requires
        0 <= m,
        forall|t: int| 0 <= t < m ==> (#[trigger] bs[t]).is_known,
    ensures
        count_known(bs, m) == m,
    decreases m,
{
    if m > 0 {
        lemma_count_known_prefix(bs, m - 1);
    }
}

/// Every caught droplet in `dec` came from `enc`'s block table.
pub open spec fn fed_from(dec: Decoder, enc: Encoder) -> bool {
    forall|h: int|
        0 <= h < dec.caught().len() ==> droplet_matches(
            enc.blocks_view(),
            enc.chunk_size() as nat,
            (#[trigger] dec.caught()[h]).0,
            dec.caught()[h].1,
        )
}

/// Encoder and decoder agree on the stream parameters.
pub open spec fn paired(dec: Decoder, enc: Encoder) -> bool {
    &&& dec.msg_len() == enc.msg_len()
    &&& dec.chunk_size() == enc.chunk_size()
    &&& dec.chunks() == enc.chunks()
}

/// Pump droplets from `enc` into `dec` for at most `max_drops` rounds.
/// Whenever decoding completes, the reconstruction is byte-exact: it
/// equals the encoder's source message.
pub fn pump(enc: &mut Encoder, dec: &mut Decoder, max_drops: usize) -> (r: Option<Vec<u8>>)
    requires
        old(enc).wf(),
        old(dec).inv(),
        paired(*old(dec), *old(enc)),
        fed_from(*old(dec), *old(enc)),
        old(dec).received() + max_drops <= usize::MAX,
        old(enc).emitted() + max_drops <= usize::MAX,
    ensures
        final(enc).wf(),
        final(dec).inv(),
        paired(*final(dec), *final(enc)),
        fed_from(*final(dec), *final(enc)),
        final(enc).source() == old(enc).source(),
        match r {
            Some(out) => out@ == old(enc).source() && final(dec).unknown() == 0,
            None => final(dec).received() == old(dec).received() + max_drops && final(enc).emitted() == old(enc).emitted() + max_drops,
        },
{
    let mut steps: usize = 0;
    while steps < max_drops
        invariant
            steps <= max_drops,
            enc.wf(),
            dec.inv(),
            paired(*dec, *enc),
            fed_from(*dec, *enc),
            enc.blocks_view() == old(enc).blocks_view(),
            enc.source() == old(enc).source(),
            enc.chunks() == old(enc).chunks(),
            enc.msg_len() == old(enc).msg_len(),
            enc.chunk_size() == old(enc).chunk_size(),
            dec.received() == old(dec).received() + steps,
            enc.emitted() == old(enc).emitted() + steps,
            old(dec).received() + max_drops <= usize::MAX,
            old(enc).emitted() + max_drops <= usize::MAX,
        decreases max_drops - steps,
    {
        let ghost bv = enc.blocks_view();
        let ghost s_nat = enc.chunk_size() as nat;
        let d = enc.next();
        proof {
            assert(!malformed_droplet(d, dec.chunk_size(), dec.chunks()));
        }
        let ghost pre_dec = *dec;
        let res = dec.catch(d);
        proof {
            assert forall|h: int| 0 <= h < dec.caught().len() implies droplet_matches(
                enc.blocks_view(),
                enc.chunk_size() as nat,
                (#[trigger] dec.caught()[h]).0,
                dec.caught()[h].1,
            ) by {
                if h < pre_dec.caught().len() {
                    assert(dec.caught()[h] == pre_dec.caught()[h]);
                } else {
                    assert(dec.caught()[h] == (expanded(d.edges, pre_dec.chunks()), d.data@));
                }
            }
        }
        match res {
            CatchResult::Finished(out, _st) => {
                proof {
                    enc.lemma_blocks_wf();
                    assert(consistent(bv, s_nat, dec.caught()));
                    assert(out@ == concat_blocks(bv, dec.chunks()).take(dec.msg_len()));
                }
                return Some(out);
            },
            CatchResult::Missing(_st) => {},
            CatchResult::MalformedDroplet(_st) => {},
        }
        steps += 1;
    }
    None
}

/// With a systematic encoder and no loss, decoding completes after
/// exactly `k` catches, each one resolving exactly one block, and the
/// reconstruction equals the source message.  At every intermediate
/// step the statistics satisfy
/// `cnt_chunks - unknown_chunks == cnt_droplets`.
pub fn pump_systematic(enc: &mut Encoder, dec: &mut Decoder) -> (out: Vec<u8>)
    requires
        old(enc).wf(),
        old(dec).inv(),
        paired(*old(dec), *old(enc)),
        old(enc).systematic(),
        old(enc).emitted() == 0,
        old(dec).received() == 0,
        old(dec).caught() == Seq::<(Seq<int>, Seq<u8>)>::empty(),
        old(dec).unknown() == old(dec).chunks(),
        old(dec).no_pending(),
        forall|t: int| !old(dec).knows(t),
        old(dec).chunks() < usize::MAX,
    ensures
        final(dec).inv(),
        final(dec).received() == old(dec).chunks(),
        final(dec).unknown() == 0,
        out@ == old(enc).source(),
{
    let k = dec.n_chunks;
    let mut i: usize = 0;
    while i < k - 1
        invariant
            i <= k - 1,
            k >= 1,
            enc.wf(),
            dec.inv(),
            paired(*dec, *enc),
            fed_from(*dec, *enc),
            enc.systematic(),
            enc.blocks_view() == old(enc).blocks_view(),
            enc.source() == old(enc).source(),
            k == dec.chunks(),
            k < usize::MAX,
            enc.emitted() == i,
            dec.received() == i,
            dec.unknown() == k - i,
            dec.no_pending(),
            forall|t: int| 0 <= t < i ==> dec.knows(t),
        decreases k - i,
    {
        let d = enc.next();
        proof {
            systematic_step_facts(enc, dec, i as int, d);
        }
        let ghost pre_dec = *dec;
        let res = dec.catch(d);
        proof {
            extend_fed_from(pre_dec, *dec, *enc, d);
            assert(dec.unknown() == k - i - 1);
            assert(dec.knows(i as int));
        }
        match res {
            CatchResult::Finished(_out, _st) => {
                proof {
                    assert(false);
                }
            },
            CatchResult::Missing(st) => {
                proof {
                    // the statistics equation kept on the lossless
                    // systematic prefix
                    assert(st.cnt_chunks - st.unknown_chunks == st.cnt_droplets);
                }
            },
            CatchResult::MalformedDroplet(_st) => {
                proof {
                    assert(false);
                }
            },
        }
        i += 1;
    }
    // the final systematic droplet resolves the last unknown block
    let ghost bv = enc.blocks_view();
    let ghost s_nat = enc.chunk_size() as nat;
    let d = enc.next();
    proof {
        systematic_step_facts(enc, dec, i as int, d);
    }
    let ghost pre_dec = *dec;
    let res = dec.catch(d);
    proof {
        extend_fed_from(pre_dec, *dec, *enc, d);
        assert(dec.unknown() == 0);
        assert(dec.received() == k);
    }
    match res {
        CatchResult::Finished(out, st) => {
            proof {
                assert(st.cnt_chunks - st.unknown_chunks == st.cnt_droplets);
                enc.lemma_blocks_wf();
                assert(consistent(bv, s_nat, dec.caught()));
                assert(out@ == concat_blocks(bv, dec.chunks()).take(dec.msg_len()));
            }
            out
        },
        CatchResult::Missing(_st) => {
            proof {
                assert(false);
            }
            Vec::new()
        },
        CatchResult::MalformedDroplet(_st) => {
            proof {
                assert(false);
            }
            Vec::new()
        },
    }
}

/// The `i`-th droplet of a lossless systematic prefix is the `i`-th
/// source block, and block `i` is still unknown when the first `i`
/// blocks account for the whole known count.
proof fn systematic_step_facts(enc: &Encoder, dec: &Decoder, i: int, d: Droplet)
    requires
        enc.wf(),
        dec.inv(),
        paired(*dec, *enc),
        0 <= i < dec.chunks(),
        dec.unknown() == dec.chunks() - i,
        forall|t: int| 0 <= t < i ==> dec.knows(t),
        d.data@.len() == enc.chunk_size(),
        match d.edges {
            Edges::Edge(e0) => e0 == i && (e0 as int) < enc.chunks(),
            Edges::Seeded(_, _) => false,
        },
    ensures
        !malformed_droplet(d, dec.chunk_size(), dec.chunks()),
        expanded(d.edges, dec.chunks()) =~= seq![i],
        !dec.knows(i),
{
    let k = dec.chunks();
    assert forall|t: int| 0 <= t < i implies (#[trigger] dec.blocks@[t]).is_known by {
        assert(dec.knows(t));
    }
    lemma_count_known_bounds(dec.blocks@, k);
    if dec.blocks@[i].is_known {
        lemma_count_known_prefix(dec.blocks@, i);
        lemma_count_known_mono(dec.blocks@, i + 1, k);
        assert(count_known(dec.blocks@, i + 1) == count_known(dec.blocks@, i) + 1);
        assert(false);
    }
    match d.edges {
        Edges::Edge(e0) => {
            assert(expanded(d.edges, k) =~= seq![i]);
        },
        Edges::Seeded(_, _) => {},
    }
}

/// A droplet produced by `enc` keeps the decoder's history fed from
/// `enc`'s block table.
proof fn extend_fed_from(pre: Decoder, post: Decoder, enc: Encoder, d: Droplet)
    requires
        enc.wf(),
        fed_from(pre, enc),
        paired(pre, enc),
        droplet_matches(
            enc.blocks_view(),
            enc.chunk_size() as nat,
            expanded(d.edges, enc.chunks()),
            d.data@,
        ),
        post.caught() == pre.caught() || post.caught() == pre.caught().push(
            (expanded(d.edges, pre.chunks()), d.data@),
        ),
    ensures
        fed_from(post, enc),
{
    assert forall|h: int| 0 <= h < post.caught().len() implies droplet_matches(
        enc.blocks_view(),
        enc.chunk_size() as nat,
        (#[trigger] post.caught()[h]).0,
        post.caught()[h].1,
    ) by {
        if h < pre.caught().len() {
            assert(post.caught()[h] == pre.caught()[h]);
        } else {
            assert(post.caught()[h] == (expanded(d.edges, pre.chunks()), d.data@));
        }
    }
}

} // verus!
