//! Decoder-side bookkeeping for one source block: whether it is known,
//! where its payload region begins, and which pending droplets still
//! reference it.

use vstd::prelude::*;

verus! {

/// One source block of the decoder's block table.  Pending droplets are
/// named by their index in the decoder's droplet arena, so the bipartite
/// graph holds no owning back-pointers.
pub struct Block {
    /// This block's index in the table.
    pub idx: usize,
    /// Arena indices of the droplets pending on this block.
    pub edges: Vec<usize>,
    /// Byte offset of this block's payload in the reconstruction buffer.
    pub begin_at: usize,
    /// Whether the payload of this block has been resolved.
    pub is_known: bool,
}

impl Block {
    /// A fresh block with no pending droplets.
    pub fn new(idx: usize, begin_at: usize, is_known: bool) -> (r: Block)
        ensures
            r.idx == idx,
            r.begin_at == begin_at,
            r.is_known == is_known,
            r.edges@ == Seq::<usize>::empty(),
    {
        Block { idx, edges: Vec::new(), begin_at, is_known }
    }
}

} // verus!
