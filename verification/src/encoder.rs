//! Encoder: turns a byte message into an unbounded, lazily produced
//! stream of droplets.  In systematic mode the first `k` droplets are the
//! source blocks themselves; after that (or from the start in random
//! mode) each droplet XORs a sampled set of blocks, identified on the
//! wire by its `(seed, degree)` pair.

use vstd::prelude::*;
use crate::droplet::{edge_indices, expanded, Droplet, Edges};
use crate::model::{
    blocks_wf, concat_blocks, droplet_matches, edges_in_range, idxs, lemma_concat_blocks_chunks,
    lemma_xor_blocks_len, lemma_xor_blocks_push, lemma_xor_blocks_singleton, xor_blocks,
    zero_block,
};
use crate::prng::{sm_output, SplitMix64};
use crate::soliton::{
    cdf_pick, ratio_wf, robust_table, scaled_target, IdealSoliton, Ratio, RobustSoliton,
};
use crate::xor::{xor_bytes, xor_seq, xored_with};

verus! {

/// Whether the encoder leads with the systematic prefix.
#[derive(Debug, Clone, Copy)]
pub enum EncoderType {
    /// The first `k` droplets are the source blocks themselves.
    Systematic,
    /// Every droplet is random from the start.
    Random,
}

/// Fixed default seed for encoders built without an explicit one.
pub const DEFAULT_SEED: u64 = 0x5EED_F0F0_CAFE_0001;

/// The degree sampler an encoder draws from.
enum Sampler {
    Ideal(IdealSoliton),
    Robust(RobustSoliton),
}

/// Encoder for Luby Transform codes: a stateful producer of droplets.
pub struct Encoder {
    blocks: Vec<Vec<u8>>,
    len: usize,
    blocksize: usize,
    n_chunks: usize,
    enc_type: EncoderType,
    sampler: Sampler,
    seeder: SplitMix64,
    cnt: usize,
}

impl Encoder {
    /// Original message length `L`.
    pub closed spec fn msg_len(self) -> int {
        self.len as int
    }

    /// Chunk size `s`.
    pub closed spec fn chunk_size(self) -> int {
        self.blocksize as int
    }

    /// Number of source blocks `k`.
    pub closed spec fn chunks(self) -> int {
        self.n_chunks as int
    }

    /// Droplets produced so far.
    pub closed spec fn emitted(self) -> int {
        self.cnt as int
    }

    /// Whether the systematic prefix is being produced.
    pub closed spec fn systematic(self) -> bool {
        self.enc_type is Systematic
    }

    /// The source blocks: the padded message, cut into `k` blocks of `s`
    /// bytes.
    pub closed spec fn blocks_view(self) -> Seq<Seq<u8>> {
        self.blocks@.map_values(|v: Vec<u8>| v@)
    }

    /// Whether the degree sampler is the Ideal Soliton.
    pub closed spec fn ideal_sampler(self) -> bool {
        self.sampler is Ideal
    }

    /// The seed the degree sampler was built from.
    pub closed spec fn sampler_seed(self) -> u64 {
        match self.sampler {
            Sampler::Ideal(sam) => sam.seed(),
            Sampler::Robust(sam) => sam.seed(),
        }
    }

    /// How many degrees have been drawn.
    pub closed spec fn sampler_pos(self) -> nat {
        match self.sampler {
            Sampler::Ideal(sam) => sam.pos(),
            Sampler::Robust(sam) => sam.pos(),
        }
    }

    /// The Robust sampler's cached table; empty for the Ideal sampler.
    pub closed spec fn sampler_table(self) -> Seq<u64> {
        match self.sampler {
            Sampler::Ideal(_) => Seq::empty(),
            Sampler::Robust(sam) => sam.table(),
        }
    }

    /// The seed the droplet-seed stream was built from.
    pub closed spec fn seeder_seed(self) -> u64 {
        self.seeder.seed@
    }

    /// How many droplet seeds have been drawn.
    pub closed spec fn seeder_pos(self) -> nat {
        self.seeder.pos@
    }

    /// The droplet seed the next random droplet will carry.
    pub closed spec fn next_seed(self) -> u64 {
        sm_output(self.seeder.seed@, self.seeder.pos@)
    }

    /// The degree the sampler will yield next: a function of the
    /// sampler's seed, table and position alone.
    pub closed spec fn next_degree(self) -> int {
        match self.sampler {
            Sampler::Ideal(sam) => IdealSoliton::degree_at(sam.seed(), sam.chunks(), sam.pos()),
            Sampler::Robust(sam) => cdf_pick(
                sam.table(),
                scaled_target(
                    sm_output(sam.seed(), sam.pos()),
                    sam.table()[sam.table().len() - 1],
                ) as u64,
                0,
            ) + 1,
        }
    }

    /// The original message: the concatenation of the blocks, cut back
    /// to `L` bytes.
    pub open spec fn source(self) -> Seq<u8> {
        concat_blocks(self.blocks_view(), self.chunks()).take(self.msg_len())
    }

    /// Internal consistency of the encoder.
    pub closed spec fn wf(self) -> bool {
        &&& self.len >= 1
        &&& self.blocksize >= 1
        &&& self.n_chunks >= 1
        &&& self.len <= self.n_chunks * self.blocksize
        &&& self.n_chunks * self.blocksize < self.len + self.blocksize
        &&& self.n_chunks * self.blocksize <= usize::MAX
        &&& self.blocks@.len() == self.n_chunks
        &&& forall|i: int|
            0 <= i < self.n_chunks ==> (#[trigger] self.blocks@[i])@.len() == self.blocksize
        &&& match self.sampler {
            Sampler::Ideal(sam) => sam.wf() && sam.chunks() == self.n_chunks,
            Sampler::Robust(sam) => sam.wf() && sam.chunks() == self.n_chunks,
        }
        &&& self.seeder.wf()
    }

    /// An encoder over `data` with chunk size `blocksize`, using the
    /// Ideal Soliton sampler with a fixed default seed.
    pub fn new(data: Vec<u8>, blocksize: usize, enc_type: EncoderType) -> (r: Encoder)
        requires
            data@.len() >= 1,
            blocksize >= 1,
            data@.len() + blocksize - 1 <= usize::MAX,
        ensures
            r.wf(),
            r.msg_len() == data@.len(),
            r.chunk_size() == blocksize,
            r.chunks() == (data@.len() + blocksize - 1) / (blocksize as int),
            r.source() == data@,
            r.emitted() == 0,
            r.systematic() == (enc_type is Systematic),
            r.ideal_sampler(),
            r.sampler_seed() == DEFAULT_SEED,
            r.sampler_pos() == 0,
            r.seeder_seed() == (DEFAULT_SEED ^ 0x9E3779B97F4A7C15u64),
            r.seeder_pos() == 0,
    {
        Self::ideal(data, blocksize, enc_type, DEFAULT_SEED)
    }

    /// An encoder using the Ideal Soliton degree sampler seeded with
    /// `seed`; the droplet-seed stream is derived from the same seed.
    pub fn ideal(data: Vec<u8>, blocksize: usize, enc_type: EncoderType, seed: u64) -> (r: Encoder)
        requires
            data@.len() >= 1,
            blocksize >= 1,
            data@.len() + blocksize - 1 <= usize::MAX,
        ensures
            r.wf(),
            r.msg_len() == data@.len(),
            r.chunk_size() == blocksize,
            r.chunks() == (data@.len() + blocksize - 1) / (blocksize as int),
            r.source() == data@,
            r.emitted() == 0,
            r.systematic() == (enc_type is Systematic),
            r.sampler_seed() == seed,
            r.sampler_pos() == 0,
            r.seeder_seed() == (seed ^ 0x9E3779B97F4A7C15u64),
            r.seeder_pos() == 0,
            r.ideal_sampler(),
    {
        Self::build(data, blocksize, enc_type, seed, None)
    }

    /// An encoder using the Robust Soliton degree sampler with
    /// parameters `c` and `delta` and optional spike override, seeded
    /// with `seed`.
    pub fn robust(
        data: Vec<u8>,
        blocksize: usize,
        enc_type: EncoderType,
        c: Ratio,
        delta: Ratio,
        spike: Option<usize>,
        seed: u64,
    ) -> (r: Encoder)
        requires
            1 <= data@.len() <= 0xFFFF_FFFF,
            blocksize >= 1,
            data@.len() + blocksize - 1 <= usize::MAX,
            ratio_wf(c),
            ratio_wf(delta),
            delta.num < delta.den,
        ensures
            r.wf(),
            r.msg_len() == data@.len(),
            r.chunk_size() == blocksize,
            r.chunks() == (data@.len() + blocksize - 1) / (blocksize as int),
            r.source() == data@,
            r.emitted() == 0,
            r.systematic() == (enc_type is Systematic),
            r.sampler_seed() == seed,
            r.sampler_pos() == 0,
            r.seeder_seed() == (seed ^ 0x9E3779B97F4A7C15u64),
            r.seeder_pos() == 0,
            !r.ideal_sampler(),
            r.sampler_table() == robust_table(r.chunks(), c, delta, spike),
    {
        Self::build(data, blocksize, enc_type, seed, Some((c, delta, spike)))
    }

    /// Shared constructor: pad the message to `k` whole blocks, cut it,
    /// and seed the sampler and the droplet-seed stream.
    fn build(
        data: Vec<u8>,
        blocksize: usize,
        enc_type: EncoderType,
        seed: u64,
        robust: Option<(Ratio, Ratio, Option<usize>)>,
    ) -> (r: Encoder)
        requires
            data@.len() >= 1,
            blocksize >= 1,
            data@.len() + blocksize - 1 <= usize::MAX,
            match robust {
                Some((c, delta, _)) => ratio_wf(c) && ratio_wf(delta) && delta.num < delta.den
                    && data@.len() <= 0xFFFF_FFFF,
                None => true,
            },
        ensures
            r.wf(),
            r.msg_len() == data@.len(),
            r.chunk_size() == blocksize,
            r.chunks() == (data@.len() + blocksize - 1) / (blocksize as int),
            r.source() == data@,
            r.emitted() == 0,
            r.systematic() == (enc_type is Systematic),
            r.sampler_seed() == seed,
            r.sampler_pos() == 0,
            r.seeder_seed() == (seed ^ 0x9E3779B97F4A7C15u64),
            r.seeder_pos() == 0,
            match robust {
                None => r.ideal_sampler(),
                Some((c, delta, spike)) => !r.ideal_sampler() && r.sampler_table()
                    == robust_table(r.chunks(), c, delta, spike),
            },
    {
        let len = data.len();
        let n_chunks = (len - 1) / blocksize + 1;
        proof {
            let l = len as int;
            let s = blocksize as int;
            let k = n_chunks as int;
            assert(k == (l + s - 1) / s && l <= k * s && k * s < l + s && k >= 1 && k <= l)
                by (nonlinear_arith)
                requires
                    l >= 1,
                    s >= 1,
                    k == (l - 1) / s + 1,
            ;
        }
        let target = n_chunks * blocksize;
        let mut padded = data;
        while padded.len() < target
            invariant
                padded@.len() <= target,
                target == n_chunks * blocksize,
                padded@.len() >= data@.len(),
                padded@.take(data@.len() as int) == data@,
                forall|j: int| data@.len() <= j < padded@.len() ==> padded@[j] == 0u8,
            decreases target - padded@.len(),
        {
            padded.push(0u8);
            proof {
                assert(padded@.take(data@.len() as int) =~= data@);
            }
        }
        let mut blocks: Vec<Vec<u8>> = Vec::new();
        let mut i: usize = 0;
        while i < n_chunks
            invariant
                i <= n_chunks,
                blocksize >= 1,
                n_chunks >= 1,
                n_chunks * blocksize <= usize::MAX,
                padded@.len() == n_chunks * blocksize,
                blocks@.len() == i,
                forall|t: int| 0 <= t < i ==> (#[trigger] blocks@[t])@.len() == blocksize,
                forall|t: int|
                    0 <= t < i ==> (#[trigger] blocks@[t])@ == padded@.subrange(
                        t * blocksize,
                        (t + 1) * blocksize,
                    ),
            decreases n_chunks - i,
        {
            proof {
                assert(0 <= i * blocksize && (i + 1) * blocksize <= n_chunks * blocksize && i
                    * blocksize + blocksize == (i + 1) * blocksize) by (nonlinear_arith)
                    requires
                        0 <= i < n_chunks,
                        blocksize >= 1,
                ;
            }
            let begin = i * blocksize;
            let mut one: Vec<u8> = Vec::new();
            let mut t: usize = 0;
            while t < blocksize
                invariant
                    t <= blocksize,
                    begin == i * blocksize,
                    begin + blocksize <= padded@.len(),
                    padded@.len() <= usize::MAX,
                    one@.len() == t,
                    forall|j: int| 0 <= j < t ==> one@[j] == padded@[begin + j],
                decreases blocksize - t,
            {
                one.push(padded[begin + t]);
                t += 1;
            }
            proof {
                assert(one@ =~= padded@.subrange(
                    i * blocksize,
                    (i as int + 1) * blocksize,
                ));
            }
            blocks.push(one);
            i += 1;
        }
        let r = Encoder {
            blocks,
            len,
            blocksize,
            n_chunks,
            enc_type,
            sampler: match robust {
                Some((c, delta, spike)) => Sampler::Robust(
                    RobustSoliton::new(n_chunks, seed, c, delta, spike),
                ),
                None => Sampler::Ideal(IdealSoliton::new(n_chunks, seed)),
            },
            seeder: SplitMix64::new(seed ^ 0x9E3779B97F4A7C15u64),
            cnt: 0,
        };
        proof {
            let bv = r.blocks_view();
            assert(bv.len() == n_chunks);
            assert forall|t: int| 0 <= t < n_chunks implies (#[trigger] bv[t]) == padded@.subrange(
                t * (blocksize as int),
                (t + 1) * (blocksize as int),
            ) by {
                assert(bv[t] == blocks@[t]@);
            }
            lemma_concat_blocks_chunks(
                bv,
                padded@,
                blocksize as nat,
                n_chunks as int,
                n_chunks as int,
            );
            assert(concat_blocks(bv, n_chunks as int) == padded@.take(
                (n_chunks as int) * (blocksize as int),
            ));
            assert(padded@.take((n_chunks as int) * (blocksize as int)) =~= padded@);
            assert(r.source() =~= data@);
        }
        r
    }

    /// The encoder's block table is well-formed: `k` blocks of `s`
    /// bytes each.
    pub proof fn lemma_blocks_wf(self)
        requires
            self.wf(),
        ensures
            blocks_wf(self.blocks_view(), self.chunk_size() as nat, self.chunks()),
            self.chunks() >= 1,
            self.chunk_size() >= 1,
            self.msg_len() >= 1,
            self.msg_len() <= self.chunks() * self.chunk_size(),
    {
        assert forall|i: int| 0 <= i < self.blocks_view().len() implies (
        #[trigger] self.blocks_view()[i]).len() == self.chunk_size() as nat by {
            assert(self.blocks_view()[i] == self.blocks@[i]@);
        }
    }

    /// Produce the next droplet.  Every droplet's payload is the XOR of
    /// the source blocks its edge descriptor expands to, so any block
    /// table equal to this encoder's is consistent with it.
    pub fn next(&mut self) -> (d: Droplet)
        requires
            old(self).wf(),
            old(self).emitted() < usize::MAX,
        ensures
            final(self).wf(),
            final(self).msg_len() == old(self).msg_len(),
            final(self).chunk_size() == old(self).chunk_size(),
            final(self).chunks() == old(self).chunks(),
            final(self).blocks_view() == old(self).blocks_view(),
            final(self).source() == old(self).source(),
            final(self).systematic() == old(self).systematic(),
            final(self).emitted() == old(self).emitted() + 1,
            d.data@.len() == old(self).chunk_size(),
            droplet_matches(
                old(self).blocks_view(),
                old(self).chunk_size() as nat,
                expanded(d.edges, old(self).chunks()),
                d.data@,
            ),
            match d.edges {
                Edges::Edge(i) => (i as int) < old(self).chunks(),
                Edges::Seeded(_, deg) => 2 <= deg <= old(self).chunks(),
            },
            (old(self).systematic() && old(self).emitted() < old(self).chunks()) ==> (match d
                .edges {
                Edges::Edge(i) => i == old(self).emitted(),
                Edges::Seeded(_, _) => false,
            }),
            final(self).ideal_sampler() == old(self).ideal_sampler(),
            final(self).sampler_seed() == old(self).sampler_seed(),
            final(self).sampler_table() == old(self).sampler_table(),
            final(self).seeder_seed() == old(self).seeder_seed(),
            // the systematic prefix consumes no randomness
            (old(self).systematic() && old(self).emitted() < old(self).chunks()) ==> final(self).sampler_pos() == old(self).sampler_pos() && final(self).seeder_pos() == old(self).seeder_pos(),
            // a random droplet is fully determined by the degree-sampler
            // and droplet-seed streams at their current positions
            !(old(self).systematic() && old(self).emitted() < old(self).chunks()) ==> ({
                &&& final(self).sampler_pos() == old(self).sampler_pos() + 1
                &&& final(self).seeder_pos() == old(self).seeder_pos() + 1
                &&& match d.edges {
                    Edges::Seeded(sd, deg) => sd == old(self).next_seed() && deg as int == old(self).next_degree() && old(self).next_degree() >= 2,
                    Edges::Edge(i) => old(self).next_degree() == 1 && i as int == edge_indices(
                        old(self).next_seed(),
                        old(self).chunks(),
                        1,
                    )[0],
                }
            }),
    {
        let ghost bv = self.blocks_view();
        let ghost k_int = self.n_chunks as int;
        let ghost s_nat = self.blocksize as nat;
        let systematic_now = match self.enc_type {
            EncoderType::Systematic => self.cnt < self.n_chunks,
            EncoderType::Random => false,
        };
        if systematic_now {
            let i = self.cnt;
            let data = copy_block(&self.blocks[i]);
            self.cnt = self.cnt + 1;
            proof {
                assert(blocks_wf(bv, s_nat, k_int));
                lemma_xor_blocks_singleton(bv, i as int, s_nat, k_int);
                assert(expanded(Edges::Edge(i), k_int) == seq![i as int]);
                assert(data@ == bv[i as int]);
            }
            Droplet { edges: Edges::Edge(i), data }
        } else {
            let degree = match &mut self.sampler {
                Sampler::Ideal(sam) => sam.next(),
                Sampler::Robust(sam) => sam.next(),
            };
            let seed = self.seeder.next_u64();
            proof {
                assert(degree as int == old(self).next_degree());
                assert(seed == old(self).next_seed());
            }
            let e = Edges::Seeded(seed, degree);
            let idx_v = e.iter_with_range(self.n_chunks);
            let ghost es = expanded(e, k_int);
            proof {
                assert(idxs(idx_v@) =~= es);
                assert(forall|j: int|
                    0 <= j < idx_v@.len() ==> 0 <= (#[trigger] idx_v@[j]) < self.n_chunks);
            }
            let mut payload = zero_bytes(self.blocksize);
            proof {
                assert(payload@ =~= zero_block(s_nat));
                assert(idxs(idx_v@).take(0) =~= Seq::<int>::empty());
                assert(xor_blocks(bv, idxs(idx_v@).take(0), s_nat) == zero_block(s_nat));
            }
            let mut t: usize = 0;
            while t < idx_v.len()
                invariant
                    self.wf(),
                    bv == self.blocks_view(),
                    k_int == self.n_chunks as int,
                    s_nat == self.blocksize as nat,
                    t <= idx_v@.len(),
                    forall|j: int|
                        0 <= j < idx_v@.len() ==> 0 <= (#[trigger] idx_v@[j]) < self.n_chunks,
                    payload@.len() == s_nat,
                    payload@ == xor_blocks(bv, idxs(idx_v@).take(t as int), s_nat),
                decreases idx_v@.len() - t,
            {
                let e2 = idx_v[t];
                let ghost pay0 = payload@;
                xor_bytes(&mut payload, &self.blocks[e2]);
                proof {
                    assert(blocks_wf(bv, s_nat, k_int));
                    let pref = idxs(idx_v@).take(t as int);
                    assert(edges_in_range(pref, k_int)) by {
                        assert forall|j: int| 0 <= j < pref.len() implies 0 <= (
                        #[trigger] pref[j]) < k_int by {
                            assert(pref[j] == idx_v@[j] as int);
                        }
                    }
                    lemma_xor_blocks_len(bv, pref, s_nat, k_int);
                    assert(self.blocks@[e2 as int]@ == bv[e2 as int]);
                    assert(payload@ =~= xor_seq(pay0, bv[e2 as int]));
                    lemma_xor_blocks_push(bv, pref, s_nat, k_int, e2 as int);
                    assert(idxs(idx_v@).take(t + 1) =~= pref.push(e2 as int));
                }
                t += 1;
            }
            proof {
                assert(idxs(idx_v@).take(idx_v@.len() as int) =~= idxs(idx_v@));
                assert(payload@ == xor_blocks(bv, es, s_nat));
            }
            self.cnt = self.cnt + 1;
            if degree == 1 {
                let i0 = idx_v[0];
                proof {
                    assert(expanded(Edges::Edge(i0), k_int) == seq![i0 as int]);
                    assert(es =~= seq![i0 as int]);
                    assert(i0 as int == edge_indices(seed, k_int, 1)[0]) by {
                        assert(idxs(idx_v@)[0] == i0 as int);
                    }
                }
                Droplet { edges: Edges::Edge(i0), data: payload }
            } else {
                Droplet { edges: e, data: payload }
            }
        }
    }
}

/// A fresh all-zero buffer of `n` bytes.
fn zero_bytes(n: usize) -> (r: Vec<u8>)
    ensures
        r@.len() == n,
        forall|j: int| 0 <= j < n ==> r@[j] == 0u8,
{
    let mut r: Vec<u8> = Vec::new();
    let mut t: usize = 0;
    while t < n
        invariant
            t <= n,
            r@.len() == t,
            forall|j: int| 0 <= j < t ==> r@[j] == 0u8,
        decreases n - t,
    {
        r.push(0u8);
        t += 1;
    }
    r
}

/// Byte-for-byte copy of one source block.
fn copy_block(v: &Vec<u8>) -> (r: Vec<u8>)
    ensures
        r@ == v@,
{
    let mut r: Vec<u8> = Vec::new();
    let mut t: usize = 0;
    while t < v.len()
        invariant
            t <= v@.len(),
            r@ == v@.take(t as int),
        decreases v@.len() - t,
    {
        r.push(v[t]);
        proof {
            assert(v@.take(t + 1) =~= v@.take(t as int).push(v@[t as int]));
        }
        t += 1;
    }
    proof {
        assert(v@.take(v@.len() as int) =~= v@);
    }
    r
}

} // verus!
