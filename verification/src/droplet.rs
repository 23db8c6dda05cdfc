//! Droplets: the wire objects the encoder emits, and the decoder's mutable
//! working copies.  The edge descriptor is either a single block index or a
//! `(seed, degree)` pair that expands through the canonical seeded
//! generator, which both sides share.

use vstd::prelude::*;
use rand::distributions::Uniform;
use rand::rngs::StdRng;
use rand::Rng;
use rand::SeedableRng;

verus! {

/// The index sequence that the canonical seeded generator yields for
/// `(seed, k, degree)`: `degree` uniform draws from `[0, k)`.
pub uninterp spec fn edge_indices(seed: u64, k: int, degree: int) -> Seq<int>;

/// Edge descriptor of a droplet.
#[derive(Debug, Clone)]
pub enum Edges {
    /// A single (degree 1) edge.
    Edge(usize),
    /// A list of edges compressed into a tuple of (seed, degree).
    Seeded(u64, usize),
}

/// What an edge descriptor expands to over `k` source blocks.
pub open spec fn expanded(edges: Edges, k: int) -> Seq<int> {
    match edges {
        Edges::Edge(i) => seq![i as int],
        Edges::Seeded(seed, degree) => edge_indices(seed, k, degree as int),
    }
}

/// Relies on rand's `StdRng::seed_from_u64` and `Uniform`: the iterator
/// yields values in `[0, k)` (`Uniform::new(0, k)` requires `k >= 1`), and
/// a seeded `StdRng` is a deterministic stream, so the sequence is a
/// function of `(seed, k, degree)` alone.
#[verifier::external_body]
fn sample_indices(seed: u64, k: usize, degree: usize) -> (r: Vec<usize>)
    requires
        k >= 1,
    ensures
        r@.len() == degree,
        forall|i: int| 0 <= i < r@.len() ==> 0 <= #[trigger] r@[i] < k,
        r@.map_values(|x: usize| x as int) == edge_indices(seed, k as int, degree as int),
{
    let rng: StdRng = SeedableRng::seed_from_u64(seed);
    rng.sample_iter(Uniform::new(0usize, k)).take(degree).collect()
}

impl Edges {
    /// Materialize the edge descriptor into block indices over `k` blocks.
    /// A `Seeded` descriptor always lands in `[0, k)`; a plain `Edge`
    /// carries whatever index the wire held, which the decoder checks.
    pub fn iter_with_range(&self, k: usize) -> (r: Vec<usize>)
        requires
            k >= 1,
        ensures
            r@.map_values(|x: usize| x as int) == expanded(*self, k as int),
            match *self {
                Edges::Edge(_) => r@.len() == 1,
                Edges::Seeded(_, degree) => r@.len() == degree,
            },
            matches!(*self, Edges::Seeded(..)) ==> forall|i: int|
                0 <= i < r@.len() ==> 0 <= #[trigger] r@[i] < k,
    {
        match self {
            Edges::Edge(e) => {
                let mut v: Vec<usize> = Vec::new();
                v.push(*e);
                assert(v@.map_values(|x: usize| x as int) =~= expanded(*self, k as int));
                v
            },
            Edges::Seeded(seed, degree) => sample_indices(*seed, k, *degree),
        }
    }
}

/// Two expansions of the same `(seed, degree, k)` triple are the same
/// index sequence: the generator is deterministic, so encoder and decoder
/// agree on every droplet's edges.
pub proof fn lemma_edge_expansion_reproducible(e1: Seq<int>, e2: Seq<int>, seed: u64, k: int, degree: int)
    requires
        e1 == edge_indices(seed, k, degree),
        e2 == edge_indices(seed, k, degree),
    ensures
        e1 == e2,
{
}

/// A Droplet is created by the Encoder.
#[derive(Debug)]
pub struct Droplet {
    /// The droptype can be based on seed or a list of edges.
    pub edges: Edges,
    /// The payload of the Droplet.
    pub data: Vec<u8>,
}

/// Decoder-side working copy of a droplet: the materialized edge indices
/// and a payload that shrinks as known blocks are folded in.
#[derive(Debug, Clone)]
pub struct RxDroplet {
    /// Residual edges: unknown blocks this droplet still covers.
    pub edges_idx: Vec<usize>,
    /// Residual payload: XOR of the blocks in `edges_idx`.
    pub data: Vec<u8>,
}

} // verus!
