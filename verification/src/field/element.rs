//! The executable field element: sixteen limbs of 28 bits, always held
//! in canonical form, with every operation specified by the arithmetic
//! of the field.
use crate::ct::{select_u32, words_ct_eq};
use crate::field::arith::{
    field_abs,
    field_add,
    field_inv,
    field_inv_sqrt,
    field_mul,
    field_neg,
    field_pow,
    field_square,
    field_sub,
    inv_sqrt_exponent,
    inversion_exponent,
    is_inv_sqrt,
    is_negative,
    lemma_field_pow_add,
    lemma_field_pow_mul,
    lemma_field_pow_one,
    lemma_field_pow_zero,
    modulus,
};
use crate::field::bytes::{bytes_to_limbs, bytes_value, limbs_to_bytes};
use crate::field::limbs::{
    add_limbs,
    horner_value,
    lemma_radix_pow_unfold,
    lemma_value_add_at,
    lemma_value_horner,
    lemma_value_injective,
    lemma_value_is_horner,
    lemma_value_skip,
    lemma_value_zero,
    limbs_bounded,
    limbs_value,
    radix,
    radix_pow,
    reduce,
    sub_limbs,
};
use crate::field::product::mul_limbs;
use vstd::arithmetic::div_mod::*;
use vstd::prelude::*;
use vstd::std_specs::cmp::PartialEqSpecImpl;

verus! {

/// An element of the field of `2^448 - 2^224 - 1` elements.
#[derive(Clone, Copy, Debug)]
pub struct FieldElement {
    limbs: [u32; 16],
}

/// The limbs of a word sequence, widened for arithmetic.
pub open spec fn widen(s: Seq<u32>) -> Seq<u64> {
    Seq::new(s.len(), |i: int| s[i] as u64)
}

/// The number that sixteen raw limbs of 28 bits stand for, before any
/// reduction: the sum of `limbs[i] * 2^(28*i)`.
pub open spec fn raw_value(limbs: Seq<u32>) -> nat {
    limbs_value(widen(limbs))
}

impl View for FieldElement {
    type V = nat;

    /// The canonical representative, a number below the field prime.
    closed spec fn view(&self) -> nat {
        limbs_value(widen(self.limbs@))
    }
}

impl FieldElement {
    /// Canonical form: every limb is below `2^28` and the value is below
    /// the field prime.
    #[verifier::type_invariant]
    pub closed spec fn wf(self) -> bool {
        &&& limbs_bounded(widen(self.limbs@))
        &&& limbs_value(widen(self.limbs@)) < modulus()
    }

    /// A well-formed element is reduced.
    pub proof fn lemma_wf_reduced(self)
        requires
            self.wf(),
        ensures
            self@ < modulus(),
    {
    }

    /// The limbs, widened for arithmetic.
    fn load(&self) -> (w: [u64; 16])
        ensures
            w@ == widen(self.limbs@),
            limbs_bounded(w@),
            limbs_value(w@) == self@,
            self@ < modulus(),
    {
        proof {
            use_type_invariant(self);
        }
        let mut w: [u64; 16] = [0u64; 16];
        let mut i: usize = 0;
        while i < 16
            invariant
                0 <= i <= 16,
                forall|j: int| 0 <= j < i ==> w[j] == self.limbs[j] as u64,
            decreases 16 - i,
        {
            w[i] = self.limbs[i] as u64;
            i += 1;
        }
        proof {
            assert(w@ =~= widen(self.limbs@));
        }
        w
    }

    /// The element with the given canonical limbs.
    fn store(w: &[u64; 16]) -> (r: FieldElement)
        requires
            limbs_bounded(w@),
            limbs_value(w@) < modulus(),
        ensures
            r@ == limbs_value(w@),
    {
        let mut limbs: [u32; 16] = [0u32; 16];
        let mut i: usize = 0;
        while i < 16
            invariant
                0 <= i <= 16,
                limbs_bounded(w@),
                forall|j: int| 0 <= j < i ==> limbs[j] as u64 == w[j],
            decreases 16 - i,
        {
            assert(w@[i as int] < radix());
            limbs[i] = w[i] as u32;
            i += 1;
        }
        proof {
            assert(widen(limbs@) =~= w@);
        }
        FieldElement { limbs }
    }

    /// The element that sixteen raw limbs of 28 bits stand for. Limbs
    /// beyond 28 bits and values beyond the prime are reduced.
    pub fn from_raw_slice(limbs: [u32; 16]) -> (r: FieldElement)
        ensures
            r@ == raw_value(limbs@) % modulus(),
    {
        let mut w: [u64; 16] = [0u64; 16];
        let mut i: usize = 0;
        while i < 16
            invariant
                0 <= i <= 16,
                forall|j: int| 0 <= j < i ==> w[j] == limbs[j] as u64,
                forall|j: int| 0 <= j < 16 ==> w[j] <= u32::MAX,
            decreases 16 - i,
        {
            w[i] = limbs[i] as u64;
            i += 1;
        }
        proof {
            assert(w@ =~= widen(limbs@));
        }
        let out = reduce(&w);
        Self::store(&out)
    }

    /// The element that a small number stands for.
    pub fn from_u32(x: u32) -> (r: FieldElement)
        ensures
            r@ == x,
    {
        let mut w: [u64; 16] = [0u64; 16];
        proof {
            lemma_value_zero(w@);
        }
        let ghost zeros = w@;
        w[0] = x as u64;
        proof {
            lemma_value_add_at(zeros, 0, x as u64);
            lemma_radix_pow_unfold(0);
            assert(w@ =~= zeros.update(0, (zeros[0] + x as u64) as u64));
            assert(x as nat * radix_pow(0) == x as nat) by (nonlinear_arith)
                requires
                    radix_pow(0) == 1,
            ;
            lemma_small_mod(x as nat, modulus());
        }
        let out = reduce(&w);
        Self::store(&out)
    }

    /// The additive identity.
    pub fn zero() -> (r: FieldElement)
        ensures
            r@ == 0,
    {
        Self::from_u32(0)
    }

    /// The multiplicative identity.
    pub fn one() -> (r: FieldElement)
        ensures
            r@ == 1,
    {
        Self::from_u32(1)
    }

    /// The sum of two elements.
    pub fn add(&self, rhs: &FieldElement) -> (r: FieldElement)
        ensures
            r@ == field_add(self@, rhs@),
    {
        let a = self.load();
        let b = rhs.load();
        let out = add_limbs(&a, &b);
        Self::store(&out)
    }

    /// The difference of two elements.
    pub fn sub(&self, rhs: &FieldElement) -> (r: FieldElement)
        ensures
            r@ == field_sub(self@, rhs@),
    {
        let a = self.load();
        let b = rhs.load();
        let out = sub_limbs(&a, &b);
        proof {
            let p = modulus() as int;
            lemma_mod_multiples_vanish(2, self@ as int - rhs@ as int, p);
        }
        Self::store(&out)
    }

    /// The additive inverse.
    pub fn negate(&self) -> (r: FieldElement)
        ensures
            r@ == field_neg(self@),
    {
        Self::zero().sub(self)
    }

    /// The product of two elements.
    pub fn mul(&self, rhs: &FieldElement) -> (r: FieldElement)
        ensures
            r@ == field_mul(self@, rhs@),
    {
        let a = self.load();
        let b = rhs.load();
        let out = mul_limbs(&a, &b);
        Self::store(&out)
    }

    /// The square of an element.
    pub fn square(&self) -> (r: FieldElement)
        ensures
            r@ == field_square(self@),
    {
        self.mul(self)
    }

    /// `a` for a clear choice and `b` for a set one, limb by limb and
    /// without a branch on the choice.
    pub fn conditional_select(a: &FieldElement, b: &FieldElement, choice: bool) -> (r:
        FieldElement)
        ensures
            r@ == if choice { b@ } else { a@ },
    {
        proof {
            use_type_invariant(a);
            use_type_invariant(b);
        }
        let mut limbs: [u32; 16] = [0u32; 16];
        let mut i: usize = 0;
        while i < 16
            invariant
                0 <= i <= 16,
                forall|j: int|
                    0 <= j < i ==> limbs[j] == (if choice { b.limbs[j] } else { a.limbs[j] }),
            decreases 16 - i,
        {
            limbs[i] = select_u32(a.limbs[i], b.limbs[i], choice);
            i += 1;
        }
        proof {
            if choice {
                assert(limbs@ =~= b.limbs@);
            } else {
                assert(limbs@ =~= a.limbs@);
            }
        }
        FieldElement { limbs }
    }

    /// The negation of the element for a set choice, the element itself
    /// for a clear one.
    pub fn conditional_negate(&self, choice: bool) -> (r: FieldElement)
        ensures
            r@ == if choice { field_neg(self@) } else { self@ },
    {
        let neg = self.negate();
        Self::conditional_select(self, &neg, choice)
    }

    /// The power of the element by a small exponent. The running time
    /// depends on the exponent, which is meant to be public.
    pub fn pow_u64(&self, e: u64) -> (r: FieldElement)
        ensures
            r@ == field_pow(self@, e as nat),
    {
        let mut acc = Self::one();
        let mut base = *self;
        let mut rest: u64 = e;
        let ghost mut low: nat = 0;
        let ghost mut sc: nat = 1;
        proof {
            use_type_invariant(self);
            lemma_field_pow_zero(self@);
            lemma_field_pow_one(self@);
            lemma_small_mod(self@, modulus());
            assert(rest as nat * sc + low == e) by (nonlinear_arith)
                requires
                    rest == e,
                    sc == 1,
                    low == 0,
            ;
        }
        while rest > 0
            invariant
                e == rest as nat * sc + low,
                base@ == field_pow(self@, sc),
                acc@ == field_pow(self@, low),
            decreases rest,
        {
            let bit: bool = rest % 2 == 1;
            let m = acc.mul(&base);
            acc = Self::conditional_select(&acc, &m, bit);
            base = base.square();
            proof {
                lemma_field_pow_add(self@, low, sc);
                lemma_field_pow_add(self@, sc, sc);
                let half = (rest / 2) as nat;
                let b: nat = if bit { 1 } else { 0 };
                let low1 = low + b * sc;
                assert(half * (2 * sc) + low1 == rest as nat * sc + low) by (nonlinear_arith)
                    requires
                        rest as nat == 2 * half + b,
                        low1 == low + b * sc,
                ;
                assert(b * sc == if bit { sc } else { 0 }) by (nonlinear_arith)
                    requires
                        b == (if bit { 1nat } else { 0nat }),
                ;
                low = low1;
                sc = 2 * sc;
            }
            rest = rest / 2;
        }
        proof {
            assert(rest as nat * sc == 0) by (nonlinear_arith)
                requires
                    rest == 0,
            ;
        }
        acc
    }

    /// The power of the element by an exponent given as sixteen limbs.
    fn pow_limbs(&self, e: &[u64; 16]) -> (r: FieldElement)
        requires
            limbs_bounded(e@),
        ensures
            r@ == field_pow(self@, limbs_value(e@)),
    {
        let mut acc = Self::one();
        let mut i: usize = 16;
        proof {
            lemma_field_pow_zero(self@);
            assert(e@.skip(16).len() == 0);
        }
        while i > 0
            invariant
                0 <= i <= 16,
                limbs_bounded(e@),
                acc@ == field_pow(self@, limbs_value(e@.skip(i as int))),
            decreases i,
        {
            i -= 1;
            let ghost n = limbs_value(e@.skip(i + 1));
            let shifted = acc.pow_u64(0x1000_0000);
            let part = self.pow_u64(e[i]);
            acc = shifted.mul(&part);
            proof {
                lemma_field_pow_mul(self@, n, radix());
                lemma_field_pow_add(self@, n * radix(), e[i as int] as nat);
                lemma_value_skip(e@, i as int);
                assert(n * radix() == radix() * n) by (nonlinear_arith);
            }
        }
        proof {
            assert(e@.skip(0) =~= e@);
        }
        acc
    }

    /// The limbs of `p - 2`.
    fn inversion_exponent_limbs() -> (e: [u64; 16])
        ensures
            limbs_bounded(e@),
            limbs_value(e@) == inversion_exponent(),
    {
        let e: [u64; 16] = [
            0x0ffffffd,
            0x0fffffff,
            0x0fffffff,
            0x0fffffff,
            0x0fffffff,
            0x0fffffff,
            0x0fffffff,
            0x0fffffff,
            0x0ffffffe,
            0x0fffffff,
            0x0fffffff,
            0x0fffffff,
            0x0fffffff,
            0x0fffffff,
            0x0fffffff,
            0x0fffffff,
        ];
        proof {
            lemma_value_is_horner(e@, 0);
            assert(e@.skip(0) =~= e@);
            reveal_with_fuel(horner_value, 17);
        }
        e
    }

    /// The limbs of `(p - 3) / 4`.
    fn inv_sqrt_exponent_limbs() -> (e: [u64; 16])
        ensures
            limbs_bounded(e@),
            limbs_value(e@) == inv_sqrt_exponent(),
    {
        let e: [u64; 16] = [
            0x0fffffff,
            0x0fffffff,
            0x0fffffff,
            0x0fffffff,
            0x0fffffff,
            0x0fffffff,
            0x0fffffff,
            0x0bffffff,
            0x0fffffff,
            0x0fffffff,
            0x0fffffff,
            0x0fffffff,
            0x0fffffff,
            0x0fffffff,
            0x0fffffff,
            0x03ffffff,
        ];
        proof {
            lemma_value_is_horner(e@, 0);
            assert(e@.skip(0) =~= e@);
            reveal_with_fuel(horner_value, 17);
        }
        e
    }

    /// The inverse of the element, computed as the power `self^(p-2)`;
    /// zero for zero.
    pub fn invert(&self) -> (r: FieldElement)
        ensures
            r@ == field_inv(self@),
    {
        let e = Self::inversion_exponent_limbs();
        self.pow_limbs(&e)
    }

    /// The power `self^((p-3)/4)`, with the flag that tells whether it is
    /// an inverse square root of the element. The flag is clear for zero
    /// and for every element that is not a square.
    pub fn inverse_square_root(&self) -> (res: (FieldElement, bool))
        ensures
            res.0@ == field_inv_sqrt(self@),
            res.1 == is_inv_sqrt(self@, res.0@),
    {
        let e = Self::inv_sqrt_exponent_limbs();
        let r = self.pow_limbs(&e);
        let check = self.mul(&r.square());
        let one = Self::one();
        let ok = check.eq(&one);
        (r, ok)
    }

    /// The sign of the element: the low bit of its canonical value.
    pub fn is_negative(&self) -> (r: bool)
        ensures
            r == is_negative(self@),
    {
        proof {
            use_type_invariant(self);
            lemma_value_horner(widen(self.limbs@));
        }
        self.limbs[0] % 2 == 1
    }

    /// The non-negative one of the element and its negation.
    pub fn abs(&self) -> (r: FieldElement)
        ensures
            r@ == field_abs(self@),
    {
        self.conditional_negate(self.is_negative())
    }

    /// The canonical encoding: 56 bytes, little-endian.
    pub fn to_bytes(&self) -> (b: [u8; 56])
        ensures
            bytes_value(b@) == self@,
    {
        let w = self.load();
        limbs_to_bytes(&w)
    }

    /// The element that 56 little-endian bytes stand for, reduced
    /// modulo the field prime.
    pub fn from_bytes(b: &[u8; 56]) -> (r: FieldElement)
        ensures
            r@ == bytes_value(b@) % modulus(),
    {
        let w = bytes_to_limbs(b);
        let out = reduce(&w);
        Self::store(&out)
    }

    /// Whether the element is zero.
    pub fn is_zero(&self) -> (r: bool)
        ensures
            r == (self@ == 0),
    {
        let z = Self::zero();
        self.eq(&z)
    }
}

impl PartialEq for FieldElement {
    /// Equality of field elements, decided on the canonical limbs in
    /// time that does not depend on them.
    fn eq(&self, other: &FieldElement) -> (r: bool) {
        proof {
            use_type_invariant(self);
            use_type_invariant(other);
            if self@ == other@ {
                lemma_value_injective(widen(self.limbs@), widen(other.limbs@));
                assert forall|i: int| 0 <= i < 16 implies self.limbs@[i] == other.limbs@[i] by {
                    assert(widen(self.limbs@)[i] == widen(other.limbs@)[i]);
                }
                assert(self.limbs@ =~= other.limbs@);
            }
        }
        words_ct_eq(&self.limbs, &other.limbs)
    }
}

impl PartialEqSpecImpl for FieldElement {
    open spec fn obeys_eq_spec() -> bool {
        true
    }

    open spec fn eq_spec(&self, other: &FieldElement) -> bool {
        self@ == other@
    }
}

impl Eq for FieldElement {

}

} // verus!
