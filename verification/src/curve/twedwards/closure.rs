//! The sum of two points of the curve is a point of the curve.
//!
//! With `N = x1*y2 + y1*x2`, `M = y1*y2 + x1*x2` and `k = d*x1*x2*y1*y2`
//! the sum is `(N / (1 + k), M / (1 - k))`. Cleared of denominators, the
//! curve equation of the sum reads
//! `M^2*(1+k)^2 - N^2*(1-k)^2 = (1-k^2)^2 + d*N^2*M^2`,
//! and the difference of its two sides is a multiple of the field prime
//! when both summands satisfy the curve equation.
use crate::constants::curve_d;
use crate::curve::twedwards::affine::{
    affine_add,
    AffineCoords,
    cross_term,
    lemma_cross_term_product,
    on_curve,
};
use crate::field::arith::{
    congruent,
    field_add,
    field_inv,
    field_mul,
    field_square,
    field_sub,
    is_unit,
    lemma_congruent_add,
    lemma_congruent_differences,
    lemma_congruent_mul,
    lemma_congruent_products,
    lemma_congruent_reduced,
    lemma_congruent_sub,
    lemma_congruent_sums,
};
use vstd::prelude::*;

verus! {

/// `M^2 - N^2 = (y1^2 - x1^2) * (y2^2 - x2^2)`.
#[verifier::rlimit(40)]
proof fn lemma_difference_of_squares(x1: int, y1: int, x2: int, y2: int)
    ensures
        (y1 * y2 + x1 * x2) * (y1 * y2 + x1 * x2) - (x1 * y2 + y1 * x2) * (x1 * y2 + y1 * x2) == (
        y1 * y1 - x1 * x1) * (y2 * y2 - x2 * x2),
{
    let a = y1 * y2;
    let b = x1 * x2;
    let c = x1 * y2;
    let e = y1 * x2;
    assert((a + b) * (a + b) == a * a + 2 * (a * b) + b * b) by (nonlinear_arith);
    assert((c + e) * (c + e) == c * c + 2 * (c * e) + e * e) by (nonlinear_arith);
    assert(a * b == c * e) by (nonlinear_arith)
        requires
            a == y1 * y2,
            b == x1 * x2,
            c == x1 * y2,
            e == y1 * x2,
    ;
    let y1s = y1 * y1;
    let x1s = x1 * x1;
    let y2s = y2 * y2;
    let x2s = x2 * x2;
    assert(a * a == y1s * y2s) by (nonlinear_arith)
        requires
            a == y1 * y2,
            y1s == y1 * y1,
            y2s == y2 * y2,
    ;
    assert(b * b == x1s * x2s) by (nonlinear_arith)
        requires
            b == x1 * x2,
            x1s == x1 * x1,
            x2s == x2 * x2,
    ;
    assert(c * c == x1s * y2s) by (nonlinear_arith)
        requires
            c == x1 * y2,
            x1s == x1 * x1,
            y2s == y2 * y2,
    ;
    assert(e * e == y1s * x2s) by (nonlinear_arith)
        requires
            e == y1 * x2,
            y1s == y1 * y1,
            x2s == x2 * x2,
    ;
    assert((y1s - x1s) * (y2s - x2s) == y1s * y2s - y1s * x2s - x1s * y2s + x1s * x2s)
        by (nonlinear_arith);
}

/// `M^2 + N^2 = (x1^2 + y1^2) * (x2^2 + y2^2) + 4 * (x1*y1) * (x2*y2)`.
#[verifier::rlimit(40)]
proof fn lemma_sum_of_squares(x1: int, y1: int, x2: int, y2: int)
    ensures
        (y1 * y2 + x1 * x2) * (y1 * y2 + x1 * x2) + (x1 * y2 + y1 * x2) * (x1 * y2 + y1 * x2) == (
        x1 * x1 + y1 * y1) * (x2 * x2 + y2 * y2) + 4 * ((x1 * y1) * (x2 * y2)),
{
    let a = y1 * y2;
    let b = x1 * x2;
    let c = x1 * y2;
    let e = y1 * x2;
    assert((a + b) * (a + b) == a * a + 2 * (a * b) + b * b) by (nonlinear_arith);
    assert((c + e) * (c + e) == c * c + 2 * (c * e) + e * e) by (nonlinear_arith);
    let pp = (x1 * y1) * (x2 * y2);
    assert(a * b == pp && c * e == pp) by (nonlinear_arith)
        requires
            a == y1 * y2,
            b == x1 * x2,
            c == x1 * y2,
            e == y1 * x2,
            pp == (x1 * y1) * (x2 * y2),
    ;
    let y1s = y1 * y1;
    let x1s = x1 * x1;
    let y2s = y2 * y2;
    let x2s = x2 * x2;
    assert(a * a == y1s * y2s) by (nonlinear_arith)
        requires
            a == y1 * y2,
            y1s == y1 * y1,
            y2s == y2 * y2,
    ;
    assert(b * b == x1s * x2s) by (nonlinear_arith)
        requires
            b == x1 * x2,
            x1s == x1 * x1,
            x2s == x2 * x2,
    ;
    assert(c * c == x1s * y2s) by (nonlinear_arith)
        requires
            c == x1 * y2,
            x1s == x1 * x1,
            y2s == y2 * y2,
    ;
    assert(e * e == y1s * x2s) by (nonlinear_arith)
        requires
            e == y1 * x2,
            y1s == y1 * y1,
            x2s == x2 * x2,
    ;
    assert((x1s + y1s) * (x2s + y2s) == x1s * x2s + x1s * y2s + y1s * x2s + y1s * y2s)
        by (nonlinear_arith);
}

/// `N * M = (x1*y1) * (x2^2 + y2^2) + (x2*y2) * (x1^2 + y1^2)`.
#[verifier::rlimit(40)]
proof fn lemma_product_of_numerators(x1: int, y1: int, x2: int, y2: int)
    ensures
        (x1 * y2 + y1 * x2) * (y1 * y2 + x1 * x2) == (x1 * y1) * (x2 * x2 + y2 * y2) + (x2 * y2)
            * (x1 * x1 + y1 * y1),
{
    let a = y1 * y2;
    let b = x1 * x2;
    let c = x1 * y2;
    let e = y1 * x2;
    let p1 = x1 * y1;
    let p2 = x2 * y2;
    let y1s = y1 * y1;
    let x1s = x1 * x1;
    let y2s = y2 * y2;
    let x2s = x2 * x2;
    assert((c + e) * (a + b) == c * a + c * b + e * a + e * b) by (nonlinear_arith);
    assert(c * a == p1 * y2s) by (nonlinear_arith)
        requires
            c == x1 * y2,
            a == y1 * y2,
            p1 == x1 * y1,
            y2s == y2 * y2,
    ;
    assert(c * b == p2 * x1s) by (nonlinear_arith)
        requires
            c == x1 * y2,
            b == x1 * x2,
            p2 == x2 * y2,
            x1s == x1 * x1,
    ;
    assert(e * a == p2 * y1s) by (nonlinear_arith)
        requires
            e == y1 * x2,
            a == y1 * y2,
            p2 == x2 * y2,
            y1s == y1 * y1,
    ;
    assert(e * b == p1 * x2s) by (nonlinear_arith)
        requires
            e == y1 * x2,
            b == x1 * x2,
            p1 == x1 * y1,
            x2s == x2 * x2,
    ;
    assert(p1 * (x2s + y2s) + p2 * (x1s + y1s) == p1 * x2s + p1 * y2s + p2 * x1s + p2 * y1s)
        by (nonlinear_arith);
}

/// `(x^2 + y^2)^2 = (y^2 - x^2)^2 + 4 * (x*y)^2`.
proof fn lemma_square_of_norm(x: int, y: int)
    ensures
        (x * x + y * y) * (x * x + y * y) == (y * y - x * x) * (y * y - x * x) + 4 * ((x * y) * (x
            * y)),
{
    let xs = x * x;
    let ys = y * y;
    assert((xs + ys) * (xs + ys) == (ys - xs) * (ys - xs) + 4 * (xs * ys)) by (nonlinear_arith);
    assert((x * y) * (x * y) == xs * ys) by (nonlinear_arith)
        requires
            xs == x * x,
            ys == y * y,
    ;
}

/// The difference of the two sides of the cleared curve equation, in
/// terms of `c_i = y_i^2 - x_i^2`, `e_i = d * (x_i*y_i)^2` and `k`:
/// for `a = M^2`, `b = N^2`, `nm = N*M`, with the four identities above
/// and `k = d * p1 * p2`,
/// `a*(1+k)^2 - b*(1-k)^2 - (1-k^2)^2 - d*nm^2
///  = c1*c2*(1+k^2) - (1-k^2)^2 - e1*c2^2 - e2*c1^2`.
#[verifier::rlimit(40)]
proof fn lemma_cleared_difference(
    a: int,
    b: int,
    nm: int,
    c1: int,
    c2: int,
    s1: int,
    s2: int,
    p1: int,
    p2: int,
    d: int,
    k: int,
)
    requires
        a - b == c1 * c2,
        a + b == s1 * s2 + 4 * (p1 * p2),
        nm == p1 * s2 + p2 * s1,
        s1 * s1 == c1 * c1 + 4 * (p1 * p1),
        s2 * s2 == c2 * c2 + 4 * (p2 * p2),
        k == d * (p1 * p2),
    ensures
        a * ((1 + k) * (1 + k)) - b * ((1 - k) * (1 - k)) - (1 - k * k) * (1 - k * k) - d * (nm
            * nm) == (c1 * c2) * (1 + k * k) - (1 - k * k) * (1 - k * k) - (d * (p1 * p1)) * (c2
            * c2) - (d * (p2 * p2)) * (c1 * c1),
{
    let kk = k * k;
    assert(a * ((1 + k) * (1 + k)) - b * ((1 - k) * (1 - k)) == (a - b) * (1 + kk) + (2 * k) * (a
        + b)) by (nonlinear_arith)
        requires
            kk == k * k,
    ;
    let ss = s1 * s2;
    let pp = p1 * p2;
    let q1 = p1 * p1;
    let q2 = p2 * p2;
    let t1 = s1 * s1;
    let t2 = s2 * s2;
    let u = p1 * s2;
    let v = p2 * s1;
    assert(nm * nm == u * u + 2 * (u * v) + v * v) by (nonlinear_arith)
        requires
            nm == u + v,
    ;
    assert(u * u == q1 * t2) by (nonlinear_arith)
        requires
            u == p1 * s2,
            q1 == p1 * p1,
            t2 == s2 * s2,
    ;
    assert(v * v == q2 * t1) by (nonlinear_arith)
        requires
            v == p2 * s1,
            q2 == p2 * p2,
            t1 == s1 * s1,
    ;
    assert(u * v == pp * ss) by (nonlinear_arith)
        requires
            u == p1 * s2,
            v == p2 * s1,
            pp == p1 * p2,
            ss == s1 * s2,
    ;
    let g1 = c1 * c1;
    let g2 = c2 * c2;
    assert(q1 * q2 == pp * pp) by (nonlinear_arith)
        requires
            pp == p1 * p2,
            q1 == p1 * p1,
            q2 == p2 * p2,
    ;
    let h1 = q1 * g2;
    let h2 = q2 * g1;
    let h3 = pp * ss;
    let h4 = pp * pp;
    assert(q1 * (g2 + 4 * q2) == h1 + 4 * h4) by (nonlinear_arith)
        requires
            h1 == q1 * g2,
            q1 * q2 == h4,
    ;
    assert(q2 * (g1 + 4 * q1) == h2 + 4 * h4) by (nonlinear_arith)
        requires
            h2 == q2 * g1,
            q1 * q2 == h4,
    ;
    assert(d * (h1 + 8 * h4 + 2 * h3 + h2) == d * h1 + 8 * (d * h4) + 2 * (d * h3) + d * h2)
        by (nonlinear_arith);
    assert(d * h1 == (d * q1) * g2) by (nonlinear_arith)
        requires
            h1 == q1 * g2,
    ;
    assert(d * h2 == (d * q2) * g1) by (nonlinear_arith)
        requires
            h2 == q2 * g1,
    ;
    assert(d * h3 == (d * pp) * ss) by (nonlinear_arith)
        requires
            h3 == pp * ss,
    ;
    assert(d * (q1 * (g2 + 4 * q2) + 2 * (pp * ss) + q2 * (g1 + 4 * q1)) == (d * q1) * g2 + (d
        * q2) * g1 + 8 * (d * (pp * pp)) + 2 * ((d * pp) * ss));
    assert((2 * k) * (ss + 4 * pp) == 2 * ((d * pp) * ss) + 8 * (d * (pp * pp)))
        by (nonlinear_arith)
        requires
            k == d * pp,
    ;
}

/// With `e1 = c1 - 1` and `e2 = c2 - 1` the difference vanishes.
proof fn lemma_difference_vanishes(c1: int, c2: int)
    ensures
        ({
            let kk = (c1 - 1) * (c2 - 1);
            (c1 * c2) * (1 + kk) - (1 - kk) * (1 - kk) - (c1 - 1) * (c2 * c2) - (c2 - 1) * (c1
                * c1)
        }) == 0,
{
    let kk = (c1 - 1) * (c2 - 1);
    let cc = c1 * c2;
    assert(kk == cc - c1 - c2 + 1) by (nonlinear_arith)
        requires
            kk == (c1 - 1) * (c2 - 1),
            cc == c1 * c2,
    ;
    let g1 = c1 * c1;
    let g2 = c2 * c2;
    let w = c1 + c2 - cc;
    assert(w * w == g1 + g2 + cc * cc + 2 * cc - 2 * (c1 * cc) - 2 * (c2 * cc))
        by (nonlinear_arith)
        requires
            w == c1 + c2 - cc,
            g1 == c1 * c1,
            g2 == c2 * c2,
            cc == c1 * c2,
    ;
    assert(cc * (2 + cc - c1 - c2) == 2 * cc + cc * cc - c1 * cc - c2 * cc) by (nonlinear_arith);
    assert((c1 - 1) * g2 == c2 * cc - g2) by (nonlinear_arith)
        requires
            g2 == c2 * c2,
            cc == c1 * c2,
    ;
    assert((c2 - 1) * g1 == c1 * cc - g1) by (nonlinear_arith)
        requires
            g1 == c1 * c1,
            cc == c1 * c2,
    ;
}

/// Where `e1` is congruent to `c1 - 1` and `e2` to `c2 - 1`, the
/// difference is congruent to zero.
proof fn lemma_difference_congruent_zero(c1: int, c2: int, e1: int, e2: int, kk: int)
    requires
        congruent(e1, c1 - 1),
        congruent(e2, c2 - 1),
        kk == e1 * e2,
    ensures
        congruent(
            (c1 * c2) * (1 + kk) - (1 - kk) * (1 - kk) - e1 * (c2 * c2) - e2 * (c1 * c1),
            0,
        ),
{
    let kr = (c1 - 1) * (c2 - 1);
    lemma_congruent_products(e1, c1 - 1, e2, c2 - 1);
    lemma_congruent_sums(1, 1, kk, kr);
    lemma_congruent_differences(1, 1, kk, kr);
    lemma_congruent_products(c1 * c2, c1 * c2, 1 + kk, 1 + kr);
    lemma_congruent_products(1 - kk, 1 - kr, 1 - kk, 1 - kr);
    lemma_congruent_products(e1, c1 - 1, c2 * c2, c2 * c2);
    lemma_congruent_products(e2, c2 - 1, c1 * c1, c1 * c1);
    let t1 = (c1 * c2) * (1 + kk);
    let t2 = (1 - kk) * (1 - kk);
    let t3 = e1 * (c2 * c2);
    let t4 = e2 * (c1 * c1);
    let r1 = (c1 * c2) * (1 + kr);
    let r2 = (1 - kr) * (1 - kr);
    let r3 = (c1 - 1) * (c2 * c2);
    let r4 = (c2 - 1) * (c1 * c1);
    lemma_congruent_differences(t1, r1, t2, r2);
    lemma_congruent_differences(t1 - t2, r1 - r2, t3, r3);
    lemma_congruent_differences(t1 - t2 - t3, r1 - r2 - r3, t4, r4);
    lemma_difference_vanishes(c1, c2);
}

/// The curve equation of a point, as a congruence of integers:
/// `d * (x*y)^2` is congruent to `(y^2 - x^2) - 1`.
proof fn lemma_curve_equation_congruence(a: AffineCoords)
    requires
        on_curve(a),
    ensures
        congruent(
            curve_d() as int * ((a.x as int * a.y as int) * (a.x as int * a.y as int)),
            (a.y as int * a.y as int - a.x as int * a.x as int) - 1,
        ),
{
    let d = curve_d();
    let di = d as int;
    let x = a.x as int;
    let y = a.y as int;
    lemma_congruent_mul(a.x, x, a.x, x);
    lemma_congruent_mul(a.y, y, a.y, y);
    lemma_congruent_sub(field_square(a.y), y * y, field_square(a.x), x * x);
    lemma_congruent_mul(d, di, field_square(a.x), x * x);
    lemma_congruent_mul(field_mul(d, field_square(a.x)), di * (x * x), field_square(a.y), y * y);
    lemma_congruent_add(
        1,
        1,
        field_mul(field_mul(d, field_square(a.x)), field_square(a.y)),
        di * (x * x) * (y * y),
    );
    let c = y * y - x * x;
    let e = di * ((x * y) * (x * y));
    assert(di * (x * x) * (y * y) == e) by (nonlinear_arith)
        requires
            e == di * ((x * y) * (x * y)),
    ;
    assert(congruent(c, 1 + e));
    lemma_congruent_differences(1 + e, c, 1, 1);
}

/// The cleared curve equation of the sum holds modulo the field prime
/// when both summands are on the curve:
/// `M^2*(1+k)^2 - N^2*(1-k)^2 - (1+k)^2*(1-k)^2 - d*N^2*M^2` is
/// congruent to zero.
#[verifier::rlimit(40)]
proof fn lemma_cleared_equation(a: AffineCoords, b: AffineCoords)
    requires
        on_curve(a),
        on_curve(b),
    ensures
        ({
            let x1 = a.x as int;
            let y1 = a.y as int;
            let x2 = b.x as int;
            let y2 = b.y as int;
            let di = curve_d() as int;
            let n = x1 * y2 + y1 * x2;
            let m = y1 * y2 + x1 * x2;
            let k = di * (x1 * x2) * (y1 * y2);
            let a2 = (1 + k) * (1 + k);
            let b2 = (1 - k) * (1 - k);
            congruent((m * m) * a2 - (n * n) * b2 - a2 * b2 - di * ((n * n) * (m * m)), 0)
        }),
{
    let x1 = a.x as int;
    let y1 = a.y as int;
    let x2 = b.x as int;
    let y2 = b.y as int;
    let di = curve_d() as int;
    let n = x1 * y2 + y1 * x2;
    let m = y1 * y2 + x1 * x2;
    let k = di * (x1 * x2) * (y1 * y2);
    let a2 = (1 + k) * (1 + k);
    let b2 = (1 - k) * (1 - k);
    let c1 = y1 * y1 - x1 * x1;
    let c2 = y2 * y2 - x2 * x2;
    let s1 = x1 * x1 + y1 * y1;
    let s2 = x2 * x2 + y2 * y2;
    let p1 = x1 * y1;
    let p2 = x2 * y2;
    let e1 = di * (p1 * p1);
    let e2 = di * (p2 * p2);
    let kk = k * k;
    lemma_difference_of_squares(x1, y1, x2, y2);
    lemma_sum_of_squares(x1, y1, x2, y2);
    lemma_product_of_numerators(x1, y1, x2, y2);
    lemma_square_of_norm(x1, y1);
    lemma_square_of_norm(x2, y2);
    assert(k == di * (p1 * p2)) by (nonlinear_arith)
        requires
            k == di * (x1 * x2) * (y1 * y2),
            p1 == x1 * y1,
            p2 == x2 * y2,
    ;
    lemma_cleared_difference(m * m, n * n, n * m, c1, c2, s1, s2, p1, p2, di, k);
    assert(kk == e1 * e2) by (nonlinear_arith)
        requires
            kk == k * k,
            k == di * (p1 * p2),
            e1 == di * (p1 * p1),
            e2 == di * (p2 * p2),
    ;
    lemma_curve_equation_congruence(a);
    lemma_curve_equation_congruence(b);
    lemma_difference_congruent_zero(c1, c2, e1, e2, kk);
    assert(a2 * b2 == (1 - kk) * (1 - kk)) by (nonlinear_arith)
        requires
            a2 == (1 + k) * (1 + k),
            b2 == (1 - k) * (1 - k),
            kk == k * k,
    ;
    assert((n * m) * (n * m) == (n * n) * (m * m)) by (nonlinear_arith);
}

/// Clearing the denominators: with `p = a2*u2` and `q = b2*v2` both
/// congruent to one, the cleared equation gives the equation itself.
#[verifier::rlimit(40)]
proof fn lemma_restore_denominators(
    m2: int,
    n2: int,
    u2: int,
    v2: int,
    a2: int,
    b2: int,
    di: int,
)
    requires
        congruent(a2 * u2, 1),
        congruent(b2 * v2, 1),
        congruent(m2 * a2 - n2 * b2 - a2 * b2 - di * (n2 * m2), 0),
    ensures
        congruent(m2 * v2 - n2 * u2, 1 + (di * (n2 * u2)) * (m2 * v2)),
{
    let p = a2 * u2;
    let q = b2 * v2;
    let dd = a2 * b2;
    let jj = u2 * v2;
    let li = m2 * v2 - n2 * u2;
    let ri = 1 + (di * (n2 * u2)) * (m2 * v2);
    let ma = m2 * a2;
    let nb = n2 * b2;
    let dnm = di * (n2 * m2);
    // li * dd and ri * dd, with p and q brought together
    let nu = n2 * u2;
    let mv = m2 * v2;
    let nm = n2 * m2;
    let pq = p * q;
    assert(mv * dd == ma * q) by (nonlinear_arith)
        requires
            mv == m2 * v2,
            dd == a2 * b2,
            ma == m2 * a2,
            q == b2 * v2,
    ;
    assert(nu * dd == nb * p) by (nonlinear_arith)
        requires
            nu == n2 * u2,
            dd == a2 * b2,
            nb == n2 * b2,
            p == a2 * u2,
    ;
    assert(li * dd == mv * dd - nu * dd) by (nonlinear_arith)
        requires
            li == mv - nu,
    ;
    assert(dd * jj == pq) by (nonlinear_arith)
        requires
            dd == a2 * b2,
            jj == u2 * v2,
            pq == (a2 * u2) * (b2 * v2),
    ;
    assert(nu * mv == nm * jj) by (nonlinear_arith)
        requires
            nu == n2 * u2,
            mv == m2 * v2,
            nm == n2 * m2,
            jj == u2 * v2,
    ;
    let t = nu * mv;
    assert(((di * nu) * mv) * dd == di * (t * dd)) by (nonlinear_arith)
        requires
            t == nu * mv,
    ;
    assert(t * dd == nm * pq) by (nonlinear_arith)
        requires
            t == nm * jj,
            dd * jj == pq,
    ;
    assert(di * (nm * pq) == (di * nm) * pq) by (nonlinear_arith);
    assert((di * nu) * mv * dd == dnm * (p * q));
    let w = (di * nu) * mv;
    assert(ri * dd == dd + w * dd) by (nonlinear_arith)
        requires
            ri == 1 + w,
    ;
    // replace p and q by one
    lemma_congruent_products(ma, ma, q, 1);
    lemma_congruent_products(nb, nb, p, 1);
    lemma_congruent_differences(ma * q, ma * 1, nb * p, nb * 1);
    lemma_congruent_products(p, 1, q, 1);
    lemma_congruent_products(dnm, dnm, p * q, 1int * 1int);
    lemma_congruent_sums(dd, dd, dnm * (p * q), dnm * (1int * 1int));
    assert(ma * 1 - nb * 1 == ma - nb) by (nonlinear_arith);
    assert(dnm * (1int * 1int) == dnm) by (nonlinear_arith);
    assert(congruent(li * dd, ma - nb));
    assert(congruent(ri * dd, dd + dnm));
    // the cleared equation
    lemma_congruent_sums(ma - nb - dd - dnm, 0, dd + dnm, dd + dnm);
    assert(congruent(li * dd, ri * dd));
    // multiply by jj
    lemma_congruent_products(li * dd, ri * dd, jj, jj);
    assert((li * dd) * jj == li * (p * q)) by (nonlinear_arith)
        requires
            dd * jj == p * q,
    ;
    assert((ri * dd) * jj == ri * (p * q)) by (nonlinear_arith)
        requires
            dd * jj == p * q,
    ;
    lemma_congruent_products(li, li, p * q, 1int * 1int);
    lemma_congruent_products(ri, ri, p * q, 1int * 1int);
    assert(li * (1int * 1int) == li) by (nonlinear_arith);
    assert(ri * (1int * 1int) == ri) by (nonlinear_arith);
}

/// The sum of two points of the curve is a point of the curve,
/// wherever the two denominators of the addition law have inverses.
#[verifier::rlimit(40)]
pub proof fn lemma_add_on_curve(a: AffineCoords, b: AffineCoords)
    requires
        on_curve(a),
        on_curve(b),
        is_unit(field_add(1, cross_term(a, b))),
        is_unit(field_sub(1, cross_term(a, b))),
    ensures
        on_curve(affine_add(a, b)),
{
    let d = curve_d();
    let di = d as int;
    let x1 = a.x as int;
    let y1 = a.y as int;
    let x2 = b.x as int;
    let y2 = b.y as int;
    let n = x1 * y2 + y1 * x2;
    let m = y1 * y2 + x1 * x2;
    let k = di * (x1 * x2) * (y1 * y2);
    let dx = field_add(1, cross_term(a, b));
    let dy = field_sub(1, cross_term(a, b));
    let ui = field_inv(dx);
    let vi = field_inv(dy);
    let u = ui as int;
    let v = vi as int;
    let xn = field_add(field_mul(a.x, b.y), field_mul(a.y, b.x));
    let yn = field_add(field_mul(a.y, b.y), field_mul(a.x, b.x));
    let sum = affine_add(a, b);
    // numerators and denominators as integers
    lemma_congruent_mul(a.x, x1, b.y, y2);
    lemma_congruent_mul(a.y, y1, b.x, x2);
    lemma_congruent_mul(a.y, y1, b.y, y2);
    lemma_congruent_mul(a.x, x1, b.x, x2);
    lemma_congruent_add(field_mul(a.x, b.y), x1 * y2, field_mul(a.y, b.x), y1 * x2);
    lemma_congruent_add(field_mul(a.y, b.y), y1 * y2, field_mul(a.x, b.x), x1 * x2);
    lemma_cross_term_product(a, b);
    lemma_congruent_add(1, 1, cross_term(a, b), k);
    lemma_congruent_sub(1, 1, cross_term(a, b), k);
    lemma_congruent_mul(dx, 1 + k, ui, u);
    lemma_congruent_mul(dy, 1 - k, vi, v);
    // the coordinates of the sum
    lemma_congruent_mul(xn, n, ui, u);
    lemma_congruent_mul(yn, m, vi, v);
    lemma_congruent_mul(sum.x, n * u, sum.x, n * u);
    lemma_congruent_mul(sum.y, m * v, sum.y, m * v);
    lemma_congruent_sub(
        field_square(sum.y),
        (m * v) * (m * v),
        field_square(sum.x),
        (n * u) * (n * u),
    );
    lemma_congruent_mul(d, di, field_square(sum.x), (n * u) * (n * u));
    lemma_congruent_mul(
        field_mul(d, field_square(sum.x)),
        di * ((n * u) * (n * u)),
        field_square(sum.y),
        (m * v) * (m * v),
    );
    lemma_congruent_add(
        1,
        1,
        field_mul(field_mul(d, field_square(sum.x)), field_square(sum.y)),
        (di * ((n * u) * (n * u))) * ((m * v) * (m * v)),
    );
    // squares
    let m2 = m * m;
    let n2 = n * n;
    let u2 = u * u;
    let v2 = v * v;
    let a2 = (1 + k) * (1 + k);
    let b2 = (1 - k) * (1 - k);
    assert((m * v) * (m * v) == m2 * v2) by (nonlinear_arith)
        requires
            m2 == m * m,
            v2 == v * v,
    ;
    assert((n * u) * (n * u) == n2 * u2) by (nonlinear_arith)
        requires
            n2 == n * n,
            u2 == u * u,
    ;
    let au = (1 + k) * u;
    let bv = (1 - k) * v;
    lemma_congruent_products(au, 1, au, 1);
    lemma_congruent_products(bv, 1, bv, 1);
    assert(au * au == a2 * u2) by (nonlinear_arith)
        requires
            au == (1 + k) * u,
            a2 == (1 + k) * (1 + k),
            u2 == u * u,
    ;
    assert(bv * bv == b2 * v2) by (nonlinear_arith)
        requires
            bv == (1 - k) * v,
            b2 == (1 - k) * (1 - k),
            v2 == v * v,
    ;
    lemma_cleared_equation(a, b);
    lemma_restore_denominators(m2, n2, u2, v2, a2, b2, di);
    lemma_congruent_reduced(
        field_sub(field_square(sum.y), field_square(sum.x)),
        field_add(1, field_mul(field_mul(d, field_square(sum.x)), field_square(sum.y))),
    );
}

} // verus!
