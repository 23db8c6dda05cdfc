//! Byte-level XOR primitive, the inner loop of both the encoder and the
//! decoder.  Three strided variants share one exact contract, so their
//! outputs are provably identical.

use vstd::prelude::*;

verus! {

/// Pointwise XOR of two equal-length byte sequences.
pub open spec fn xor_seq(a: Seq<u8>, b: Seq<u8>) -> Seq<u8> {
    Seq::new(a.len(), |i: int| a[i] ^ b[i])
}

/// What every XOR variant does to `lhs`: bytes up to the common length are
/// XORed with `rhs`, bytes past it are untouched, and the length is kept.
pub open spec fn xored_with(out: Seq<u8>, a: Seq<u8>, b: Seq<u8>) -> bool {
    &&& out.len() == a.len()
    &&& forall|i: int|
        0 <= i < a.len() ==> out[i] == (if i < b.len() {
            a[i] ^ b[i]
        } else {
            a[i]
        })
}

/// XOR is its own inverse on each byte.
pub proof fn lemma_xor_byte_self_inverse(x: u8, y: u8)
    ensures
        (x ^ y) ^ y == x,
        x ^ x == 0,
        x ^ 0 == x,
{
    assert((x ^ y) ^ y == x) by (bit_vector);
    assert(x ^ x == 0) by (bit_vector);
    assert(x ^ 0 == x) by (bit_vector);
}

/// XOR of byte sequences is self-inverse: applying the same mask twice
/// gives the original span back.
pub proof fn lemma_xor_seq_self_inverse(a: Seq<u8>, b: Seq<u8>)
    requires
        a.len() == b.len(),
    ensures
        xor_seq(xor_seq(a, b), b) == a,
{
    assert forall|i: int| 0 <= i < a.len() implies xor_seq(xor_seq(a, b), b)[i] == a[i] by {
        lemma_xor_byte_self_inverse(a[i], b[i]);
    }
    assert(xor_seq(xor_seq(a, b), b) =~= a);
}

/// All variants of the primitive are bit-identical: any two outputs that
/// meet the shared contract on the same inputs are the same bytes.
pub proof fn lemma_xor_variants_agree(out1: Seq<u8>, out2: Seq<u8>, a: Seq<u8>, b: Seq<u8>)
    requires
        xored_with(out1, a, b),
        xored_with(out2, a, b),
    ensures
        out1 == out2,
{
    assert(out1 =~= out2);
}

/// Scalar byte-wise XOR of `rhs` into `lhs`, over the common prefix.
pub fn xor_bytes_fallback(lhs: &mut Vec<u8>, rhs: &Vec<u8>)
    ensures
        xored_with(final(lhs)@, old(lhs)@, rhs@),
{
    let ghost orig = lhs@;
    let n: usize = if lhs.len() < rhs.len() {
        lhs.len()
    } else {
        rhs.len()
    };
    let mut i: usize = 0;
    while i < n
        invariant
            n <= orig.len(),
            n <= rhs@.len(),
            n == if orig.len() < rhs@.len() {
                orig.len()
            } else {
                rhs@.len()
            },
            i <= n,
            lhs@.len() == orig.len(),
            forall|j: int| 0 <= j < i ==> lhs@[j] == (orig[j] ^ rhs@[j]),
            forall|j: int| i <= j < orig.len() ==> lhs@[j] == orig[j],
        decreases n - i,
    {
        let v: u8 = lhs[i] ^ rhs[i];
        lhs[i] = v;
        i += 1;
    }
}

/// XOR in 16-byte strides with a scalar tail; identical output to the
/// scalar path by contract.
pub fn xor_bytes_wide16(lhs: &mut Vec<u8>, rhs: &Vec<u8>)
    ensures
        xored_with(final(lhs)@, old(lhs)@, rhs@),
{
    let ghost orig = lhs@;
    let n: usize = if lhs.len() < rhs.len() {
        lhs.len()
    } else {
        rhs.len()
    };
    let mut i: usize = 0;
    while n - i >= 16 && i < n
        invariant
            n <= orig.len(),
            n <= rhs@.len(),
            n == if orig.len() < rhs@.len() {
                orig.len()
            } else {
                rhs@.len()
            },
            i <= n,
            lhs@.len() == orig.len(),
            forall|j: int| 0 <= j < i ==> lhs@[j] == (orig[j] ^ rhs@[j]),
            forall|j: int| i <= j < orig.len() ==> lhs@[j] == orig[j],
        decreases n - i,
    {
        let mut j: usize = 0;
        while j < 16
            invariant
                i + 16 <= n,
                n <= orig.len(),
                n <= rhs@.len(),
                j <= 16,
                lhs@.len() == orig.len(),
                forall|t: int| 0 <= t < i + j ==> lhs@[t] == (orig[t] ^ rhs@[t]),
                forall|t: int| i + j <= t < orig.len() ==> lhs@[t] == orig[t],
            decreases 16 - j,
        {
            let v: u8 = lhs[i + j] ^ rhs[i + j];
            lhs[i + j] = v;
            j += 1;
        }
        i += 16;
    }
    while i < n
        invariant
            n <= orig.len(),
            n <= rhs@.len(),
            n == if orig.len() < rhs@.len() {
                orig.len()
            } else {
                rhs@.len()
            },
            i <= n,
            lhs@.len() == orig.len(),
            forall|j: int| 0 <= j < i ==> lhs@[j] == (orig[j] ^ rhs@[j]),
            forall|j: int| i <= j < orig.len() ==> lhs@[j] == orig[j],
        decreases n - i,
    {
        let v: u8 = lhs[i] ^ rhs[i];
        lhs[i] = v;
        i += 1;
    }
}

/// XOR in 32-byte strides with a scalar tail; identical output to the
/// scalar path by contract.
pub fn xor_bytes_wide32(lhs: &mut Vec<u8>, rhs: &Vec<u8>)
    ensures
        xored_with(final(lhs)@, old(lhs)@, rhs@),
{
    let ghost orig = lhs@;
    let n: usize = if lhs.len() < rhs.len() {
        lhs.len()
    } else {
        rhs.len()
    };
    let mut i: usize = 0;
    while n - i >= 32 && i < n
        invariant
            n <= orig.len(),
            n <= rhs@.len(),
            n == if orig.len() < rhs@.len() {
                orig.len()
            } else {
                rhs@.len()
            },
            i <= n,
            lhs@.len() == orig.len(),
            forall|j: int| 0 <= j < i ==> lhs@[j] == (orig[j] ^ rhs@[j]),
            forall|j: int| i <= j < orig.len() ==> lhs@[j] == orig[j],
        decreases n - i,
    {
        let mut j: usize = 0;
        while j < 32
            invariant
                i + 32 <= n,
                n <= orig.len(),
                n <= rhs@.len(),
                j <= 32,
                lhs@.len() == orig.len(),
                forall|t: int| 0 <= t < i + j ==> lhs@[t] == (orig[t] ^ rhs@[t]),
                forall|t: int| i + j <= t < orig.len() ==> lhs@[t] == orig[t],
            decreases 32 - j,
        {
            let v: u8 = lhs[i + j] ^ rhs[i + j];
            lhs[i + j] = v;
            j += 1;
        }
        i += 32;
    }
    while i < n
        invariant
            n <= orig.len(),
            n <= rhs@.len(),
            n == if orig.len() < rhs@.len() {
                orig.len()
            } else {
                rhs@.len()
            },
            i <= n,
            lhs@.len() == orig.len(),
            forall|j: int| 0 <= j < i ==> lhs@[j] == (orig[j] ^ rhs@[j]),
            forall|j: int| i <= j < orig.len() ==> lhs@[j] == orig[j],
        decreases n - i,
    {
        let v: u8 = lhs[i] ^ rhs[i];
        lhs[i] = v;
        i += 1;
    }
}

/// In-place `lhs ^= rhs`.  Takes the widest stride; runtime CPU-feature
/// dispatch to vector instructions cannot be expressed in verified code and
/// lives in the unverified front end instead.
pub fn xor_bytes(lhs: &mut Vec<u8>, rhs: &Vec<u8>)
    ensures
        xored_with(final(lhs)@, old(lhs)@, rhs@),
{
    xor_bytes_wide32(lhs, rhs);
}

} // verus!
