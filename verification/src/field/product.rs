//! Multiplication of limb sequences: the column sums of the schoolbook
//! product, and the folding of the columns above the fifteenth by
//! `radix()^16 = radix()^8 + 1` modulo the field prime.
use crate::field::arith::modulus;
use crate::field::limbs::{
    lemma_radix_pow_values,
    lemma_value_add_at,
    lemma_value_take_succ,
    lemma_value_zero,
    limbs_bounded,
    limbs_value,
    radix,
    radix_pow,
    reduce,
};
use vstd::arithmetic::div_mod::*;
use vstd::arithmetic::power::*;
use vstd::prelude::*;

verus! {

/// The largest product of two limbs below the radix, `(2^28 - 1)^2`.
pub open spec fn max_limb_product() -> nat {
    0xff_ffff_e000_0001
}

/// The largest column sum of a sixteen-by-sixteen limb product.
pub open spec fn max_column() -> nat {
    16 * max_limb_product()
}

/// Powers of the radix multiply by adding exponents.
proof fn lemma_radix_pow_adds(i: nat, j: nat)
    ensures
        radix_pow(i + j) == radix_pow(i) * radix_pow(j),
{
    lemma_pow_adds(radix() as int, i, j);
    lemma_pow_positive(radix() as int, i);
    lemma_pow_positive(radix() as int, j);
    lemma_pow_positive(radix() as int, i + j);
}

/// The column sums of the product: column `k` holds the sum of
/// `a[i] * b[j]` over `i + j == k`.
pub(crate) fn product_columns(a: &[u64; 16], b: &[u64; 16]) -> (c: [u64; 31])
    requires
        limbs_bounded(a@),
        limbs_bounded(b@),
    ensures
        forall|k: int| 0 <= k < 31 ==> c[k] <= max_column(),
        limbs_value(c@) == limbs_value(a@) * limbs_value(b@),
{
    let mut c: [u64; 31] = [0u64; 31];
    let mut i: usize = 0;
    proof {
        lemma_value_zero(c@);
        assert(a@.take(0).len() == 0);
        assert(limbs_value(a@.take(0)) * limbs_value(b@) == 0) by (nonlinear_arith)
            requires
                limbs_value(a@.take(0)) == 0,
        ;
    }
    while i < 16
        invariant
            0 <= i <= 16,
            limbs_bounded(a@),
            limbs_bounded(b@),
            forall|k: int| 0 <= k < 31 ==> c[k] <= i * max_limb_product(),
            limbs_value(c@) == limbs_value(a@.take(i as int)) * limbs_value(b@),
        decreases 16 - i,
    {
        let ai: u64 = a[i];
        let ghost wi = radix_pow(i as nat);
        let ghost base = limbs_value(a@.take(i as int)) * limbs_value(b@);
        let mut j: usize = 0;
        proof {
            assert(b@.take(0).len() == 0);
            assert(ai as nat * wi * limbs_value(b@.take(0)) == 0) by (nonlinear_arith)
                requires
                    limbs_value(b@.take(0)) == 0,
            ;
        }
        while j < 16
            invariant
                0 <= i < 16,
                0 <= j <= 16,
                ai == a[i as int],
                ai < radix(),
                wi == radix_pow(i as nat),
                base == limbs_value(a@.take(i as int)) * limbs_value(b@),
                limbs_bounded(b@),
                forall|k: int|
                    0 <= k < 31 ==> c[k] <= (if i <= k < i + j {
                        i + 1
                    } else {
                        i as int
                    }) * max_limb_product(),
                limbs_value(c@) == base + ai as nat * wi * limbs_value(b@.take(j as int)),
            decreases 16 - j,
        {
            let bj: u64 = b[j];
            assert(ai * bj <= max_limb_product()) by (nonlinear_arith)
                requires
                    ai < radix(),
                    bj < radix(),
            ;
            let prod: u64 = ai * bj;
            let ghost prev = c@;
            c[i + j] = c[i + j] + prod;
            proof {
                lemma_value_add_at(prev, (i + j) as int, prod);
                assert(c@ =~= prev.update((i + j) as int, (prev[(i + j) as int] + prod) as u64));
                lemma_value_take_succ(b@, j as int);
                lemma_radix_pow_adds(i as nat, j as nat);
                let wj = radix_pow(j as nat);
                let wij = radix_pow((i + j) as nat);
                let vb = limbs_value(b@.take(j as int));
                let an = ai as nat;
                let bn = bj as nat;
                assert(an * wi * (vb + bn * wj) == an * wi * vb + (an * bn) * wij)
                    by (nonlinear_arith)
                    requires
                        wij == wi * wj,
                ;
            }
            j += 1;
        }
        proof {
            assert(b@.take(16) =~= b@);
            lemma_value_take_succ(a@, i as int);
            let va = limbs_value(a@.take(i as int));
            let vb = limbs_value(b@);
            let an = ai as nat;
            assert((va + an * wi) * vb == va * vb + an * wi * vb) by (nonlinear_arith);
        }
        i += 1;
    }
    proof {
        assert(a@.take(16) =~= a@);
    }
    c
}

/// Folds the columns of a product into sixteen limbs that stand for the
/// same residue modulo the field prime.
pub(crate) fn fold_columns(c: &[u64; 31]) -> (r: [u64; 16])
    requires
        forall|k: int| 0 <= k < 31 ==> c[k] <= max_column(),
    ensures
        forall|i: int| 0 <= i < 16 ==> r[i] <= 4 * max_column(),
        limbs_value(r@) % modulus() == limbs_value(c@) % modulus(),
{
    let mut w: [u64; 31] = *c;
    let mut n: usize = 31;
    let ghost mut m: nat = 0;
    let ghost p = modulus();
    proof {
        assert(w@.take(31) =~= c@);
        assert(m * p == 0) by (nonlinear_arith)
            requires
                m == 0,
        ;
    }
    while n > 16
        invariant
            16 <= n <= 31,
            p == modulus(),
            forall|t: int| 0 <= t < 31 ==> w[t] <= 4 * max_column(),
            forall|t: int| 16 <= t < 31 ==> w[t] <= 2 * max_column(),
            forall|t: int| 23 <= t < 31 ==> w[t] <= max_column(),
            forall|t: int| 0 <= t && t + 16 < n ==> w[t] <= max_column(),
            forall|t: int| 8 <= t && t + 8 < n ==> w[t] <= 2 * max_column(),
            forall|t: int| 16 <= t && t + 8 < n ==> w[t] <= max_column(),
            limbs_value(w@.take(n as int)) + m * p == limbs_value(c@),
        decreases n,
    {
        let s: usize = n - 1;
        let top: u64 = w[s];
        let ghost w0 = w@;
        w[s - 8] = w[s - 8] + top;
        let ghost w1 = w@;
        w[s - 16] = w[s - 16] + top;
        proof {
            let lo = w0.take(s as int);
            lemma_value_take_succ(w0, s as int);
            lemma_value_add_at(lo, s - 8, top);
            let mid = lo.update(s - 8, (lo[s - 8] + top) as u64);
            lemma_value_add_at(mid, s - 16, top);
            assert(w@.take(s as int) =~= mid.update(s - 16, (mid[s - 16] + top) as u64));
            lemma_radix_pow_values();
            lemma_radix_pow_adds((s - 16) as nat, 16);
            lemma_radix_pow_adds((s - 16) as nat, 8);
            let u = radix_pow((s - 16) as nat);
            let r8 = radix_pow(8);
            let r16 = radix_pow(16);
            let tn = top as nat;
            assert(tn * (u * r16) == tn * (u * r8) + tn * u + (tn * u) * p) by (nonlinear_arith)
                requires
                    p == r16 - r8 - 1,
            ;
            let m1 = m + tn * u;
            assert(m1 * p == m * p + (tn * u) * p) by (nonlinear_arith)
                requires
                    m1 == m + tn * u,
            ;
            m = m1;
        }
        n = s;
    }
    let mut r: [u64; 16] = [0u64; 16];
    let mut i: usize = 0;
    while i < 16
        invariant
            0 <= i <= 16,
            forall|j: int| 0 <= j < i ==> r[j] == w[j],
        decreases 16 - i,
    {
        r[i] = w[i];
        i += 1;
    }
    proof {
        assert(r@ =~= w@.take(16));
        lemma_mod_multiples_vanish(m as int, limbs_value(r@) as int, p as int);
        assert(m * p == p * m) by (nonlinear_arith);
    }
    r
}

/// The canonical limbs of the product of two limb sequences modulo the
/// field prime.
pub(crate) fn mul_limbs(a: &[u64; 16], b: &[u64; 16]) -> (out: [u64; 16])
    requires
        limbs_bounded(a@),
        limbs_bounded(b@),
    ensures
        limbs_bounded(out@),
        limbs_value(out@) == (limbs_value(a@) * limbs_value(b@)) % modulus(),
{
    let c = product_columns(a, b);
    let r = fold_columns(&c);
    reduce(&r)
}

} // verus!
