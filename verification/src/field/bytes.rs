//! The fixed-width little-endian byte form of a field element: 56 bytes,
//! seven for each pair of limbs.
use crate::field::limbs::{lemma_value_skip, limbs_bounded, limbs_value, radix};
use vstd::arithmetic::div_mod::*;
use vstd::prelude::*;

verus! {

/// The number that a little-endian byte string stands for.
pub open spec fn bytes_value(b: Seq<u8>) -> nat
    decreases b.len(),
{
    if b.len() == 0 {
        0
    } else {
        b[0] as nat + 256 * bytes_value(b.skip(1))
    }
}

/// The value of the suffix from `i` on is byte `i` plus 256 times the
/// value of the next suffix.
pub proof fn lemma_bytes_skip(b: Seq<u8>, i: int)
    requires
        0 <= i < b.len(),
    ensures
        bytes_value(b.skip(i)) == b[i] as nat + 256 * bytes_value(b.skip(i + 1)),
{
    assert(b.skip(i).skip(1) =~= b.skip(i + 1));
}

/// The value of a suffix in terms of its first seven bytes and the rest.
pub proof fn lemma_bytes_chunk(b: Seq<u8>, i: int)
    requires
        0 <= i,
        i + 7 <= b.len(),
    ensures
        bytes_value(b.skip(i)) == b[i] as nat + 0x100 * (b[i + 1] as nat) + 0x1_0000 * (b[i
            + 2] as nat) + 0x100_0000 * (b[i + 3] as nat) + 0x1_0000_0000 * (b[i + 4] as nat)
            + 0x100_0000_0000 * (b[i + 5] as nat) + 0x1_0000_0000_0000 * (b[i + 6] as nat)
            + 0x100_0000_0000_0000 * bytes_value(b.skip(i + 7)),
{
    lemma_bytes_skip(b, i);
    lemma_bytes_skip(b, i + 1);
    lemma_bytes_skip(b, i + 2);
    lemma_bytes_skip(b, i + 3);
    lemma_bytes_skip(b, i + 4);
    lemma_bytes_skip(b, i + 5);
    lemma_bytes_skip(b, i + 6);
}

/// Two byte strings of the same length stand for the same number only
/// if they are the same string.
pub proof fn lemma_bytes_value_injective(a: Seq<u8>, b: Seq<u8>)
    requires
        a.len() == b.len(),
        bytes_value(a) == bytes_value(b),
    ensures
        a =~= b,
    decreases a.len(),
{
    if a.len() > 0 {
        let ra = bytes_value(a.skip(1));
        let rb = bytes_value(b.skip(1));
        lemma_fundamental_div_mod_converse(bytes_value(a) as int, 256, ra as int, a[0] as int);
        lemma_fundamental_div_mod_converse(bytes_value(b) as int, 256, rb as int, b[0] as int);
        lemma_bytes_value_injective(a.skip(1), b.skip(1));
        assert forall|i: int| 0 <= i < a.len() implies a[i] == b[i] by {
            if i > 0 {
                assert(a.skip(1)[i - 1] == a[i]);
                assert(b.skip(1)[i - 1] == b[i]);
            }
        }
    }
}

/// The 56 bytes that stand for the same number as sixteen limbs below
/// the radix.
pub(crate) fn limbs_to_bytes(l: &[u64; 16]) -> (out: [u8; 56])
    requires
        limbs_bounded(l@),
    ensures
        bytes_value(out@) == limbs_value(l@),
{
    let mut out: [u8; 56] = [0u8; 56];
    let mut k: usize = 8;
    proof {
        assert(out@.skip(56).len() == 0);
        assert(l@.skip(16).len() == 0);
    }
    while k > 0
        invariant
            0 <= k <= 8,
            limbs_bounded(l@),
            bytes_value(out@.skip(7 * k)) == limbs_value(l@.skip(2 * k)),
        decreases k,
    {
        k -= 1;
        let lo: u64 = l[2 * k];
        let hi: u64 = l[2 * k + 1];
        assert(l@[2 * k] < radix() && l@[2 * k + 1] < radix());
        let w: u64 = lo + hi * 0x1000_0000;
        let ghost prev = out@;
        let base: usize = 7 * k;
        let q1: u64 = w / 0x100;
        let q2: u64 = q1 / 0x100;
        let q3: u64 = q2 / 0x100;
        let q4: u64 = q3 / 0x100;
        let q5: u64 = q4 / 0x100;
        let q6: u64 = q5 / 0x100;
        out[base] = (w % 0x100) as u8;
        out[base + 1] = (q1 % 0x100) as u8;
        out[base + 2] = (q2 % 0x100) as u8;
        out[base + 3] = (q3 % 0x100) as u8;
        out[base + 4] = (q4 % 0x100) as u8;
        out[base + 5] = (q5 % 0x100) as u8;
        out[base + 6] = (q6 % 0x100) as u8;
        proof {
            assert(out@.skip(base + 7) =~= prev.skip(base + 7));
            lemma_bytes_chunk(out@, base as int);
            lemma_value_skip(l@, 2 * k);
            lemma_value_skip(l@, 2 * k + 1);
        }
    }
    proof {
        assert(out@.skip(0) =~= out@);
        assert(l@.skip(0) =~= l@);
    }
    out
}

/// Sixteen limbs below the radix that stand for the same number as 56
/// bytes.
pub(crate) fn bytes_to_limbs(b: &[u8; 56]) -> (l: [u64; 16])
    ensures
        limbs_bounded(l@),
        limbs_value(l@) == bytes_value(b@),
{
    let mut l: [u64; 16] = [0u64; 16];
    let mut k: usize = 8;
    proof {
        assert(b@.skip(56).len() == 0);
        assert(l@.skip(16).len() == 0);
    }
    while k > 0
        invariant
            0 <= k <= 8,
            forall|j: int| 0 <= j < 16 ==> l[j] < radix(),
            bytes_value(b@.skip(7 * k)) == limbs_value(l@.skip(2 * k)),
        decreases k,
    {
        k -= 1;
        let base: usize = 7 * k;
        let w: u64 = (b[base] as u64) + (b[base + 1] as u64) * 0x100 + (b[base + 2] as u64)
            * 0x1_0000 + (b[base + 3] as u64) * 0x100_0000 + (b[base + 4] as u64) * 0x1_0000_0000
            + (b[base + 5] as u64) * 0x100_0000_0000 + (b[base + 6] as u64) * 0x1_0000_0000_0000;
        let ghost prev = l@;
        l[2 * k] = w % 0x1000_0000;
        l[2 * k + 1] = w / 0x1000_0000;
        proof {
            assert(l@.skip(2 * k + 2) =~= prev.skip(2 * k + 2));
            lemma_bytes_chunk(b@, base as int);
            lemma_value_skip(l@, 2 * k);
            lemma_value_skip(l@, 2 * k + 1);
        }
    }
    proof {
        assert(b@.skip(0) =~= b@);
        assert(l@.skip(0) =~= l@);
    }
    l
}

/// A string of zero bytes stands for zero.
pub proof fn lemma_bytes_value_zero(b: Seq<u8>)
    requires
        forall|i: int| 0 <= i < b.len() ==> b[i] == 0,
    ensures
        bytes_value(b) == 0,
    decreases b.len(),
{
    if b.len() > 0 {
        lemma_bytes_value_zero(b.skip(1));
    }
}

} // verus!
