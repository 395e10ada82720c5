//! Arithmetic modulo the field prime, as specification functions on
//! natural numbers, with the ring laws that the curve layers rely on.
use vstd::arithmetic::div_mod::*;
use vstd::arithmetic::mul::*;
use vstd::arithmetic::power::*;
use vstd::prelude::*;

verus! {

/// The field prime `p = 2^448 - 2^224 - 1`.
pub open spec fn modulus() -> nat {
    0xffffffff_ffffffff_ffffffff_ffffffff_ffffffff_ffffffff_fffffffe_ffffffff_ffffffff_ffffffff_ffffffff_ffffffff_ffffffff_ffffffffnat
}

/// `a + b` in the field.
pub open spec fn field_add(a: nat, b: nat) -> nat {
    (a + b) % modulus()
}

/// `a - b` in the field.
pub open spec fn field_sub(a: nat, b: nat) -> nat {
    ((a as int - b as int) % (modulus() as int)) as nat
}

/// `-a` in the field.
pub open spec fn field_neg(a: nat) -> nat {
    field_sub(0, a)
}

/// `a * b` in the field.
pub open spec fn field_mul(a: nat, b: nat) -> nat {
    (a * b) % modulus()
}

/// `a^2` in the field.
pub open spec fn field_square(a: nat) -> nat {
    field_mul(a, a)
}

/// `a^e` in the field.
pub open spec fn field_pow(a: nat, e: nat) -> nat {
    (pow(a as int, e) % (modulus() as int)) as nat
}

/// The exponent `p - 2` of the inversion.
pub open spec fn inversion_exponent() -> nat {
    (modulus() - 2) as nat
}

/// The exponent `(p - 3) / 4` of the inverse square root.
pub open spec fn inv_sqrt_exponent() -> nat {
    ((modulus() - 3) / 4) as nat
}

/// `a^(p-2)`. For a prime modulus this is the inverse of every nonzero
/// `a`, by Fermat's little theorem, and it is zero for zero. The theorem
/// is not proved here: a law that needs `a * a^(p-2) = 1` asks for
/// `is_unit(a)`.
pub open spec fn field_inv(a: nat) -> nat {
    field_pow(a, inversion_exponent())
}

/// `a^((p-3)/4)`: the candidate for `1/sqrt(a)`. Whether it is one is
/// what `is_inv_sqrt` tests.
pub open spec fn field_inv_sqrt(a: nat) -> nat {
    field_pow(a, inv_sqrt_exponent())
}

/// `a / b` in the field: `a` times the inverse power of `b`.
pub open spec fn field_div(a: nat, b: nat) -> nat {
    field_mul(a, field_inv(b))
}

/// Whether `r` is an inverse square root of `a`, that is `a * r^2 = 1`.
pub open spec fn is_inv_sqrt(a: nat, r: nat) -> bool {
    field_mul(a, field_square(r)) == 1
}

/// Whether `field_inv(a)` is a multiplicative inverse of `a`.
pub open spec fn is_unit(a: nat) -> bool {
    field_mul(a, field_inv(a)) == 1
}

/// The sign of a reduced element: the low bit of its canonical value.
pub open spec fn is_negative(a: nat) -> bool {
    a % 2 == 1
}

/// The non-negative one of `a` and `-a`.
pub open spec fn field_abs(a: nat) -> nat {
    if is_negative(a) { field_neg(a) } else { a }
}

/// Congruence of integers modulo the field prime.
pub open spec fn congruent(a: int, b: int) -> bool {
    a % (modulus() as int) == b % (modulus() as int)
}

/// Reduced numbers that are congruent are equal.
pub proof fn lemma_congruent_reduced(a: nat, b: nat)
    requires
        a < modulus(),
        b < modulus(),
        congruent(a as int, b as int),
    ensures
        a == b,
{
    lemma_small_mod(a, modulus());
    lemma_small_mod(b, modulus());
}

/// A field sum is congruent to the sum of what its terms are congruent
/// to.
pub proof fn lemma_congruent_add(a: nat, x: int, b: nat, y: int)
    requires
        congruent(a as int, x),
        congruent(b as int, y),
    ensures
        congruent(field_add(a, b) as int, x + y),
{
    let p = modulus() as int;
    lemma_add_mod_noop(a as int, b as int, p);
    lemma_add_mod_noop(x, y, p);
    lemma_mod_twice(a as int + b as int, p);
}

/// A field difference is congruent to the difference of what its terms
/// are congruent to.
pub proof fn lemma_congruent_sub(a: nat, x: int, b: nat, y: int)
    requires
        congruent(a as int, x),
        congruent(b as int, y),
    ensures
        congruent(field_sub(a, b) as int, x - y),
{
    let p = modulus() as int;
    lemma_sub_mod_noop(a as int, b as int, p);
    lemma_sub_mod_noop(x, y, p);
    lemma_mod_twice(a as int - b as int, p);
}

/// A field negation is congruent to the negation of what its argument
/// is congruent to.
pub proof fn lemma_congruent_neg(a: nat, x: int)
    requires
        congruent(a as int, x),
    ensures
        congruent(field_neg(a) as int, -x),
{
    lemma_congruent_sub(0, 0, a, x);
}

/// A field product is congruent to the product of what its factors are
/// congruent to.
pub proof fn lemma_congruent_mul(a: nat, x: int, b: nat, y: int)
    requires
        congruent(a as int, x),
        congruent(b as int, y),
    ensures
        congruent(field_mul(a, b) as int, x * y),
{
    let p = modulus() as int;
    lemma_mul_mod_noop(a as int, b as int, p);
    lemma_mul_mod_noop(x, y, p);
    lemma_mod_twice(a as int * b as int, p);
}

/// Sums of congruent integers are congruent.
pub proof fn lemma_congruent_sums(a: int, b: int, c: int, d: int)
    requires
        congruent(a, b),
        congruent(c, d),
    ensures
        congruent(a + c, b + d),
{
    let p = modulus() as int;
    lemma_add_mod_noop(a, c, p);
    lemma_add_mod_noop(b, d, p);
}

/// Differences of congruent integers are congruent.
pub proof fn lemma_congruent_differences(a: int, b: int, c: int, d: int)
    requires
        congruent(a, b),
        congruent(c, d),
    ensures
        congruent(a - c, b - d),
{
    let p = modulus() as int;
    lemma_sub_mod_noop(a, c, p);
    lemma_sub_mod_noop(b, d, p);
}

/// Products of congruent integers are congruent.
pub proof fn lemma_congruent_products(a: int, b: int, c: int, d: int)
    requires
        congruent(a, b),
        congruent(c, d),
    ensures
        congruent(a * c, b * d),
{
    let p = modulus() as int;
    lemma_mul_mod_noop(a, c, p);
    lemma_mul_mod_noop(b, d, p);
}

/// Multiplication in the field is commutative.
pub proof fn lemma_field_mul_comm(a: nat, b: nat)
    ensures
        field_mul(a, b) == field_mul(b, a),
{
    lemma_mul_is_commutative(a as int, b as int);
}

/// Zero is neutral for addition and subtraction of reduced elements.
pub proof fn lemma_field_add_zero(a: nat)
    requires
        a < modulus(),
    ensures
        field_add(0, a) == a,
        field_add(a, 0) == a,
        field_sub(a, 0) == a,
{
    lemma_small_mod(a, modulus());
}

/// One is neutral for multiplication of reduced elements.
pub proof fn lemma_field_mul_one(a: nat)
    requires
        a < modulus(),
    ensures
        field_mul(1, a) == a,
        field_mul(a, 1) == a,
{
    lemma_small_mod(a, modulus());
    assert(1 * a == a && a * 1 == a) by (nonlinear_arith);
}

/// Zero annihilates.
pub proof fn lemma_field_mul_zero(a: nat)
    ensures
        field_mul(0, a) == 0,
        field_mul(a, 0) == 0,
{
    assert(0 * a == 0 && a * 0 == 0) by (nonlinear_arith);
}

/// Negation is an involution on reduced elements.
pub proof fn lemma_field_neg_neg(a: nat)
    requires
        a < modulus(),
    ensures
        field_neg(field_neg(a)) == a,
{
    lemma_small_mod(a, modulus());
    lemma_congruent_neg(a, a as int);
    lemma_congruent_neg(field_neg(a), -(a as int));
    lemma_congruent_reduced(field_neg(field_neg(a)), a);
}

/// A negated factor negates the product.
pub proof fn lemma_field_mul_neg(a: nat, b: nat)
    ensures
        field_mul(field_neg(a), b) == field_neg(field_mul(a, b)),
        field_mul(a, field_neg(b)) == field_neg(field_mul(a, b)),
{
    let ai = a as int;
    let bi = b as int;
    lemma_congruent_neg(a, ai);
    lemma_congruent_neg(b, bi);
    lemma_congruent_mul(field_neg(a), -ai, b, bi);
    lemma_congruent_mul(a, ai, field_neg(b), -bi);
    lemma_congruent_mul(a, ai, b, bi);
    lemma_congruent_neg(field_mul(a, b), ai * bi);
    assert((-ai) * bi == -(ai * bi) && ai * (-bi) == -(ai * bi)) by (nonlinear_arith);
    lemma_congruent_reduced(field_mul(field_neg(a), b), field_neg(field_mul(a, b)));
    lemma_congruent_reduced(field_mul(a, field_neg(b)), field_neg(field_mul(a, b)));
}

/// An element and its negation have the same square.
pub proof fn lemma_field_neg_square(a: nat)
    ensures
        field_square(field_neg(a)) == field_square(a),
{
    let n = field_neg(a);
    lemma_congruent_neg(a, a as int);
    lemma_congruent_mul(n, -(a as int), n, -(a as int));
    lemma_congruent_mul(a, a as int, a, a as int);
    assert((-(a as int)) * (-(a as int)) == (a as int) * (a as int)) by (nonlinear_arith);
    lemma_congruent_reduced(field_square(n), field_square(a));
}

/// The prime is odd, so a nonzero reduced element and its negation have
/// opposite signs, and zero is its own negation.
pub proof fn lemma_field_neg_sign(a: nat)
    requires
        a < modulus(),
    ensures
        a != 0 ==> is_negative(field_neg(a)) == !is_negative(a),
        a != 0 ==> field_neg(a) == modulus() - a,
        a == 0 ==> field_neg(a) == 0,
{
    if a != 0 {
        lemma_small_mod((modulus() - a) as nat, modulus());
        lemma_mod_multiples_vanish(1, -(a as int), modulus() as int);
    }
}

/// The absolute value is reduced and non-negative.
pub proof fn lemma_field_abs_non_negative(a: nat)
    requires
        a < modulus(),
    ensures
        field_abs(a) < modulus(),
        !is_negative(field_abs(a)),
{
    lemma_field_neg_sign(a);
}

/// An element and its negation have the same absolute value.
pub proof fn lemma_field_abs_neg(a: nat)
    requires
        a < modulus(),
    ensures
        field_abs(field_neg(a)) == field_abs(a),
{
    lemma_field_neg_sign(a);
    lemma_field_neg_neg(a);
}

/// Doubling by addition: `a + a = 2a`, and doubled terms add and
/// subtract to the doubled sum and difference.
pub proof fn lemma_double_terms(a: nat, b: nat)
    ensures
        field_add(a, a) == field_mul(2, a),
        field_sub(field_add(a, a), field_add(b, b)) == field_mul(2, field_sub(a, b)),
        field_add(field_add(a, a), field_add(b, b)) == field_mul(2, field_add(a, b)),
{
    let ai = a as int;
    let bi = b as int;
    lemma_congruent_add(a, ai, a, ai);
    lemma_congruent_add(b, bi, b, bi);
    lemma_congruent_mul(2, 2, a, ai);
    lemma_congruent_reduced(field_add(a, a), field_mul(2, a));
    lemma_congruent_sub(field_add(a, a), ai + ai, field_add(b, b), bi + bi);
    lemma_congruent_add(field_add(a, a), ai + ai, field_add(b, b), bi + bi);
    lemma_congruent_sub(a, ai, b, bi);
    lemma_congruent_add(a, ai, b, bi);
    lemma_congruent_mul(2, 2, field_sub(a, b), ai - bi);
    lemma_congruent_mul(2, 2, field_add(a, b), ai + bi);
    lemma_congruent_reduced(
        field_sub(field_add(a, a), field_add(b, b)),
        field_mul(2, field_sub(a, b)),
    );
    lemma_congruent_reduced(
        field_add(field_add(a, a), field_add(b, b)),
        field_mul(2, field_add(a, b)),
    );
}

/// `(a + b)^2 - a^2 - b^2 = 2ab`.
pub proof fn lemma_square_of_sum(a: nat, b: nat)
    ensures
        field_sub(field_sub(field_square(field_add(a, b)), field_square(a)), field_square(b))
            == field_mul(2, field_mul(a, b)),
{
    let ai = a as int;
    let bi = b as int;
    let s = field_add(a, b);
    lemma_congruent_add(a, ai, b, bi);
    lemma_congruent_mul(s, ai + bi, s, ai + bi);
    lemma_congruent_mul(a, ai, a, ai);
    lemma_congruent_mul(b, bi, b, bi);
    lemma_congruent_sub(field_square(s), (ai + bi) * (ai + bi), field_square(a), ai * ai);
    lemma_congruent_sub(
        field_sub(field_square(s), field_square(a)),
        (ai + bi) * (ai + bi) - ai * ai,
        field_square(b),
        bi * bi,
    );
    lemma_congruent_mul(a, ai, b, bi);
    lemma_congruent_mul(2, 2, field_mul(a, b), ai * bi);
    assert((ai + bi) * (ai + bi) - ai * ai - bi * bi == 2 * (ai * bi)) by (nonlinear_arith);
    lemma_congruent_reduced(
        field_sub(field_sub(field_square(s), field_square(a)), field_square(b)),
        field_mul(2, field_mul(a, b)),
    );
}

/// The difference and the sum of `(a+b)(c+d)` and `(a-b)(c-d)` are twice
/// the mixed and twice the straight products.
pub proof fn lemma_sum_diff_products(a: nat, b: nat, c: nat, d: nat)
    ensures
        field_sub(
            field_mul(field_add(a, b), field_add(c, d)),
            field_mul(field_sub(a, b), field_sub(c, d)),
        ) == field_mul(2, field_add(field_mul(b, c), field_mul(a, d))),
        field_add(
            field_mul(field_add(a, b), field_add(c, d)),
            field_mul(field_sub(a, b), field_sub(c, d)),
        ) == field_mul(2, field_add(field_mul(a, c), field_mul(b, d))),
{
    let ai = a as int;
    let bi = b as int;
    let ci = c as int;
    let di = d as int;
    let s1 = field_add(a, b);
    let s2 = field_add(c, d);
    let d1 = field_sub(a, b);
    let d2 = field_sub(c, d);
    let hi = field_mul(s1, s2);
    let lo = field_mul(d1, d2);
    lemma_congruent_add(a, ai, b, bi);
    lemma_congruent_add(c, ci, d, di);
    lemma_congruent_sub(a, ai, b, bi);
    lemma_congruent_sub(c, ci, d, di);
    lemma_congruent_mul(s1, ai + bi, s2, ci + di);
    lemma_congruent_mul(d1, ai - bi, d2, ci - di);
    lemma_congruent_sub(hi, (ai + bi) * (ci + di), lo, (ai - bi) * (ci - di));
    lemma_congruent_add(hi, (ai + bi) * (ci + di), lo, (ai - bi) * (ci - di));
    lemma_congruent_mul(b, bi, c, ci);
    lemma_congruent_mul(a, ai, d, di);
    lemma_congruent_mul(a, ai, c, ci);
    lemma_congruent_mul(b, bi, d, di);
    let mixed = field_add(field_mul(b, c), field_mul(a, d));
    let straight = field_add(field_mul(a, c), field_mul(b, d));
    lemma_congruent_add(field_mul(b, c), bi * ci, field_mul(a, d), ai * di);
    lemma_congruent_add(field_mul(a, c), ai * ci, field_mul(b, d), bi * di);
    lemma_congruent_mul(2, 2, mixed, bi * ci + ai * di);
    lemma_congruent_mul(2, 2, straight, ai * ci + bi * di);
    assert((ai + bi) * (ci + di) - (ai - bi) * (ci - di) == 2 * (bi * ci + ai * di))
        by (nonlinear_arith);
    assert((ai + bi) * (ci + di) + (ai - bi) * (ci - di) == 2 * (ai * ci + bi * di))
        by (nonlinear_arith);
    lemma_congruent_reduced(field_sub(hi, lo), field_mul(2, mixed));
    lemma_congruent_reduced(field_add(hi, lo), field_mul(2, straight));
}

/// Every power with exponent zero is one.
pub proof fn lemma_field_pow_zero(a: nat)
    ensures
        field_pow(a, 0) == 1,
{
    lemma_pow0(a as int);
}

/// The first power of an element is the element, reduced.
pub proof fn lemma_field_pow_one(a: nat)
    ensures
        field_pow(a, 1) == a % modulus(),
{
    lemma_pow1(a as int);
}

/// Every positive power of zero is zero.
pub proof fn lemma_field_pow_of_zero(e: nat)
    requires
        e > 0,
    ensures
        field_pow(0, e) == 0,
{
    lemma0_pow(e);
}

/// Powers of one base multiply by adding exponents.
pub proof fn lemma_field_pow_add(a: nat, x: nat, y: nat)
    ensures
        field_mul(field_pow(a, x), field_pow(a, y)) == field_pow(a, x + y),
{
    let p = modulus() as int;
    let px = pow(a as int, x);
    let py = pow(a as int, y);
    lemma_pow_adds(a as int, x, y);
    lemma_mul_mod_noop(px, py, p);
}

/// A power of a power is the power by the product of the exponents.
pub proof fn lemma_field_pow_mul(a: nat, x: nat, y: nat)
    ensures
        field_pow(field_pow(a, x), y) == field_pow(a, x * y),
{
    let p = modulus() as int;
    let px = pow(a as int, x);
    lemma_pow_multiplies(a as int, x, y);
    lemma_pow_mod_noop(px, y, p);
}

/// The inverse of one is one.
pub proof fn lemma_field_inv_one()
    ensures
        field_inv(1) == 1,
{
    lemma1_pow(inversion_exponent());
}

/// A power of a product is the product of the powers.
pub proof fn lemma_field_pow_product(a: nat, b: nat, e: nat)
    ensures
        field_pow(field_mul(a, b), e) == field_mul(field_pow(a, e), field_pow(b, e)),
{
    let p = modulus() as int;
    let ai = a as int;
    let bi = b as int;
    lemma_pow_mod_noop(ai * bi, e, p);
    lemma_pow_distributes(ai, bi, e);
    lemma_mul_mod_noop(pow(ai, e), pow(bi, e), p);
}

/// The third and the sixth power of an element, as congruences.
pub proof fn lemma_field_pow_small(a: nat)
    ensures
        congruent(field_pow(a, 3) as int, (a as int * a as int) * a as int),
        congruent(
            field_pow(a, 6) as int,
            ((a as int * a as int) * (a as int * a as int)) * (a as int * a as int),
        ),
{
    let ai = a as int;
    reveal_with_fuel(pow, 7);
    assert(pow(ai, 3) == ai * (ai * (ai * 1)));
    assert(pow(ai, 6) == ai * (ai * (ai * (ai * (ai * (ai * 1))))));
    let c = ai * ai;
    assert(ai * (ai * (ai * 1)) == c * ai) by (nonlinear_arith)
        requires
            c == ai * ai,
    ;
    assert(ai * (ai * (ai * (ai * (ai * (ai * 1))))) == (c * c) * c) by (nonlinear_arith)
        requires
            c == ai * ai,
    ;
    lemma_mod_twice(pow(ai, 3), modulus() as int);
    lemma_mod_twice(pow(ai, 6), modulus() as int);
}

/// The difference of two negations is the negation of the difference.
pub proof fn lemma_field_sub_neg(a: nat, b: nat)
    ensures
        field_sub(field_neg(a), field_neg(b)) == field_neg(field_sub(a, b)),
{
    let ai = a as int;
    let bi = b as int;
    lemma_congruent_neg(a, ai);
    lemma_congruent_neg(b, bi);
    lemma_congruent_sub(field_neg(a), -ai, field_neg(b), -bi);
    lemma_congruent_sub(a, ai, b, bi);
    lemma_congruent_neg(field_sub(a, b), ai - bi);
    lemma_congruent_reduced(field_sub(field_neg(a), field_neg(b)), field_neg(field_sub(a, b)));
}

} // verus!
