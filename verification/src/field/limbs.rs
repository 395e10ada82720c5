//! Little-endian limb sequences in radix `2^28` and the reduction of a
//! sixteen-limb accumulator to the canonical representative modulo the
//! field prime.
use crate::ct::select_u64;
use crate::field::arith::modulus;
use vstd::arithmetic::div_mod::*;
use vstd::arithmetic::mul::*;
use vstd::arithmetic::power::*;
use vstd::prelude::*;

verus! {

/// The radix of one limb, `2^28`.
pub open spec fn radix() -> nat {
    0x1000_0000
}

/// `radix()^i`.
pub open spec fn radix_pow(i: nat) -> nat {
    pow(radix() as int, i) as nat
}

/// The number that a little-endian limb sequence stands for:
/// the sum of `s[i] * radix()^i`.
pub open spec fn limbs_value(s: Seq<u64>) -> nat
    decreases s.len(),
{
    if s.len() == 0 {
        0
    } else {
        limbs_value(s.drop_last()) + s.last() as nat * radix_pow((s.len() - 1) as nat)
    }
}

/// Every limb is below the radix.
pub open spec fn limbs_bounded(s: Seq<u64>) -> bool {
    forall|i: int| 0 <= i < s.len() ==> (#[trigger] s[i]) < radix()
}

/// The powers of the radix: the zeroth is one, each next one is the
/// radix times the one before, and all are positive.
pub proof fn lemma_radix_pow_unfold(i: nat)
    ensures
        radix_pow(0) == 1,
        radix_pow(i + 1) == radix() * radix_pow(i),
        radix_pow(i) > 0,
{
    reveal(pow);
    lemma_pow_positive(radix() as int, i);
    lemma_pow_positive(radix() as int, i + 1);
    assert(pow(radix() as int, i + 1) == (radix() as int) * pow(radix() as int, i));
    assert(pow(radix() as int, 0) == 1);
}

/// The eighth and the sixteenth power of the radix, `2^224` and `2^448`,
/// and the field prime in terms of them.
pub proof fn lemma_radix_pow_values()
    ensures
        radix_pow(8) == 0x1_00000000_00000000_00000000_00000000_00000000_00000000_00000000int,
        radix_pow(16) == 0x1_00000000_00000000_00000000_00000000_00000000_00000000_00000000_00000000_00000000_00000000_00000000_00000000_00000000_00000000int,
        modulus() == radix_pow(16) - radix_pow(8) - 1,
{
    let r = radix() as int;
    let r1 = pow(r, 1);
    let r2 = pow(r, 2);
    let r4 = pow(r, 4);
    let r8 = pow(r, 8);
    let r16 = pow(r, 16);
    lemma_pow1(r);
    lemma_pow_adds(r, 1, 1);
    lemma_pow_adds(r, 2, 2);
    lemma_pow_adds(r, 4, 4);
    lemma_pow_adds(r, 8, 8);
    assert(r2 == 0x1000000_00000000int) by (nonlinear_arith)
        requires
            r2 == r1 * r1,
            r1 == 0x1000_0000,
    ;
    assert(r4 == 0x10000_00000000_00000000_00000000int) by (nonlinear_arith)
        requires
            r4 == r2 * r2,
            r2 == 0x1000000_00000000int,
    ;
    assert(r8 == 0x1_00000000_00000000_00000000_00000000_00000000_00000000_00000000int) by (nonlinear_arith)
        requires
            r8 == r4 * r4,
            r4 == 0x10000_00000000_00000000_00000000int,
    ;
    assert(r16 == 0x1_00000000_00000000_00000000_00000000_00000000_00000000_00000000_00000000_00000000_00000000_00000000_00000000_00000000_00000000int) by (nonlinear_arith)
        requires
            r16 == r8 * r8,
            r8 == 0x1_00000000_00000000_00000000_00000000_00000000_00000000_00000000int,
    ;
}

/// Appending a limb adds its weighted value.
pub proof fn lemma_value_take_succ(s: Seq<u64>, i: int)
    requires
        0 <= i < s.len(),
    ensures
        limbs_value(s.take(i + 1)) == limbs_value(s.take(i)) + s[i] as nat * radix_pow(i as nat),
{
    assert(s.take(i + 1).drop_last() =~= s.take(i));
}

/// A sequence of zero limbs stands for zero.
pub proof fn lemma_value_zero(s: Seq<u64>)
    requires
        forall|i: int| 0 <= i < s.len() ==> s[i] == 0,
    ensures
        limbs_value(s) == 0,
    decreases s.len(),
{
    if s.len() > 0 {
        lemma_value_zero(s.drop_last());
        assert(s.last() as nat * radix_pow((s.len() - 1) as nat) == 0) by (nonlinear_arith)
            requires
                s.last() == 0,
        ;
    }
}

/// The value of a sequence is its first limb plus the radix times the
/// value of the rest.
pub proof fn lemma_value_horner(s: Seq<u64>)
    requires
        s.len() > 0,
    ensures
        limbs_value(s) == s[0] as nat + radix() * limbs_value(s.skip(1)),
    decreases s.len(),
{
    let n = s.len();
    if n == 1 {
        assert(s.drop_last().len() == 0);
        assert(s.skip(1).len() == 0);
        lemma_radix_pow_unfold(0);
        assert(limbs_value(s.drop_last()) == 0);
        assert(limbs_value(s.skip(1)) == 0);
    } else {
        let dl = s.drop_last();
        lemma_value_horner(dl);
        assert(dl.skip(1) =~= s.skip(1).drop_last());
        lemma_radix_pow_unfold((n - 2) as nat);
        let w = radix_pow((n - 2) as nat);
        let last = s.last() as nat;
        let rest = limbs_value(dl.skip(1));
        assert(s.skip(1).last() == s.last());
        assert(limbs_value(s.skip(1)) == rest + last * w);
        assert(radix() * (rest + last * w) == radix() * rest + last * (radix() * w))
            by (nonlinear_arith);
    }
}

/// Replacing one limb changes the value by the weighted difference.
pub proof fn lemma_value_update(s: Seq<u64>, k: int, v: u64)
    requires
        0 <= k < s.len(),
    ensures
        limbs_value(s.update(k, v)) + s[k] as nat * radix_pow(k as nat) == limbs_value(s)
            + v as nat * radix_pow(k as nat),
    decreases s.len(),
{
    let t = s.update(k, v);
    if k == s.len() - 1 {
        assert(t.drop_last() =~= s.drop_last());
    } else {
        assert(t.drop_last() =~= s.drop_last().update(k, v));
        lemma_value_update(s.drop_last(), k, v);
    }
}

/// Adding `c` to one limb adds `c` times the limb's weight to the value.
pub proof fn lemma_value_add_at(s: Seq<u64>, k: int, c: u64)
    requires
        0 <= k < s.len(),
        s[k] + c <= u64::MAX,
    ensures
        limbs_value(s.update(k, (s[k] + c) as u64)) == limbs_value(s) + c as nat * radix_pow(
            k as nat,
        ),
{
    let v = (s[k] + c) as u64;
    lemma_value_update(s, k, v);
    let w = radix_pow(k as nat);
    let a = s[k] as nat;
    let cn = c as nat;
    assert((a + cn) * w == a * w + cn * w) by (nonlinear_arith);
}

/// A sequence of limbs below the radix is below the radix to the power
/// of its length.
pub proof fn lemma_value_bound(s: Seq<u64>)
    requires
        limbs_bounded(s),
    ensures
        limbs_value(s) < radix_pow(s.len()),
    decreases s.len(),
{
    if s.len() == 0 {
        lemma_radix_pow_unfold(0);
    } else {
        let dl = s.drop_last();
        lemma_value_bound(dl);
        let n = (s.len() - 1) as nat;
        lemma_radix_pow_unfold(n);
        let w = radix_pow(n);
        let last = s.last() as nat;
        assert(last < radix());
        assert(last * w + w <= radix() * w) by (nonlinear_arith)
            requires
                last < radix(),
        ;
    }
}

/// Two sequences of the same length with limbs below the radix stand
/// for the same number only if they are the same sequence.
pub proof fn lemma_value_injective(a: Seq<u64>, b: Seq<u64>)
    requires
        a.len() == b.len(),
        limbs_bounded(a),
        limbs_bounded(b),
        limbs_value(a) == limbs_value(b),
    ensures
        a =~= b,
    decreases a.len(),
{
    if a.len() > 0 {
        lemma_value_horner(a);
        lemma_value_horner(b);
        let ra = limbs_value(a.skip(1));
        let rb = limbs_value(b.skip(1));
        let r = radix() as int;
        lemma_fundamental_div_mod_converse(limbs_value(a) as int, r, ra as int, a[0] as int);
        lemma_fundamental_div_mod_converse(limbs_value(b) as int, r, rb as int, b[0] as int);
        assert(a[0] == b[0]);
        assert(ra == rb);
        assert forall|i: int| 0 <= i < a.skip(1).len() implies (#[trigger] a.skip(1)[i])
            < radix() by {
            assert(a.skip(1)[i] == a[i + 1]);
        }
        assert forall|i: int| 0 <= i < b.skip(1).len() implies (#[trigger] b.skip(1)[i])
            < radix() by {
            assert(b.skip(1)[i] == b[i + 1]);
        }
        lemma_value_injective(a.skip(1), b.skip(1));
        assert forall|i: int| 0 <= i < a.len() implies a[i] == b[i] by {
            if i > 0 {
                assert(a.skip(1)[i - 1] == a[i]);
                assert(b.skip(1)[i - 1] == b[i]);
            }
        }
    }
}

/// One pass of carry propagation: every limb of the result is below the
/// radix, and what does not fit in sixteen limbs is returned as the carry.
pub(crate) fn carry_pass(acc: &[u64; 16]) -> (res: ([u64; 16], u64))
    requires
        forall|i: int| 0 <= i < 16 ==> acc[i] < 0x8000_0000_0000_0000,
    ensures
        limbs_bounded(res.0@),
        limbs_value(acc@) == limbs_value(res.0@) + res.1 as nat * radix_pow(16),
        res.1 < 0x10_0000_0000,
{
    let mut out: [u64; 16] = [0u64; 16];
    let mut carry: u64 = 0;
    let mut i: usize = 0;
    proof {
        lemma_radix_pow_unfold(0);
        assert(acc@.take(0).len() == 0);
        assert(out@.take(0).len() == 0);
    }
    while i < 16
        invariant
            0 <= i <= 16,
            carry < 0x10_0000_0000,
            forall|j: int| 0 <= j < 16 ==> acc[j] < 0x8000_0000_0000_0000,
            forall|j: int| 0 <= j < i ==> out[j] < radix(),
            limbs_value(acc@.take(i as int)) == limbs_value(out@.take(i as int)) + carry as nat
                * radix_pow(i as nat),
        decreases 16 - i,
    {
        let t: u64 = acc[i] + carry;
        let ghost prev = out@;
        let ghost old_carry = carry as nat;
        out[i] = t % 0x1000_0000;
        carry = t / 0x1000_0000;
        proof {
            lemma_value_take_succ(acc@, i as int);
            lemma_value_take_succ(out@, i as int);
            assert(out@.take(i as int) =~= prev.take(i as int));
            lemma_radix_pow_unfold(i as nat);
            let w = radix_pow(i as nat);
            let o = out[i as int] as nat;
            let c = carry as nat;
            let a = acc[i as int] as nat;
            assert(old_carry * w + a * w == o * w + c * (radix() * w)) by (nonlinear_arith)
                requires
                    a + old_carry == o + radix() * c,
            ;
        }
        i += 1;
    }
    proof {
        assert(acc@.take(16) =~= acc@);
        assert(out@.take(16) =~= out@);
    }
    (out, carry)
}

/// Adds `c * (radix()^8 + 1)` to a limb sequence. Since `radix()^16` is
/// congruent to `radix()^8 + 1`, this is how a carry out of the top limb
/// re-enters.
fn fold_carry(l: &[u64; 16], c: u64) -> (r: [u64; 16])
    requires
        limbs_bounded(l@),
        c < 0x10_0000_0000,
    ensures
        forall|i: int| 0 <= i < 16 ==> r[i] < 0x20_0000_0000,
        limbs_value(r@) == limbs_value(l@) + c as nat * radix_pow(8) + c as nat,
{
    let mut r: [u64; 16] = *l;
    r[0] = l[0] + c;
    proof {
        lemma_value_add_at(l@, 0, c);
        lemma_radix_pow_unfold(0);
        assert(c as nat * radix_pow(0) == c as nat) by (nonlinear_arith)
            requires
                radix_pow(0) == 1,
        ;
        assert(r@ =~= l@.update(0, (l[0] + c) as u64));
    }
    let ghost mid = r@;
    r[8] = l[8] + c;
    proof {
        lemma_value_add_at(mid, 8, c);
        assert(r@ =~= mid.update(8, (mid[8] + c) as u64));
    }
    r
}

/// The canonical limbs of `limbs_value(acc@)` modulo the field prime.
pub(crate) fn reduce(acc: &[u64; 16]) -> (out: [u64; 16])
    requires
        forall|i: int| 0 <= i < 16 ==> acc[i] < 0x8000_0000_0000_0000,
    ensures
        limbs_bounded(out@),
        limbs_value(out@) == limbs_value(acc@) % modulus(),
{
    let ghost p = modulus();
    let ghost r8 = radix_pow(8);
    let ghost r16 = radix_pow(16);
    proof {
        lemma_radix_pow_values();
    }
    let (l1, c1) = carry_pass(acc);
    let a2 = fold_carry(&l1, c1);
    let (l2, c2) = carry_pass(&a2);
    proof {
        lemma_value_bound(l1@);
        lemma_value_bound(l2@);
        assert(c1 as nat * r16 == c1 as nat * p + c1 as nat * r8 + c1 as nat) by (nonlinear_arith)
            requires
                p == r16 - r8 - 1,
        ;
        assert(c1 as nat * r8 + (c1 as nat) < r16) by (nonlinear_arith)
            requires
                c1 < 0x10_0000_0000,
                r8 == 0x1_00000000_00000000_00000000_00000000_00000000_00000000_00000000int,
                r16 == 0x1_00000000_00000000_00000000_00000000_00000000_00000000_00000000_00000000_00000000_00000000_00000000_00000000_00000000_00000000int,
        ;
        assert(c2 <= 1) by (nonlinear_arith)
            requires
                c2 as nat * r16 <= limbs_value(a2@),
                limbs_value(a2@) < 2 * r16,
                r16 > 0,
        ;
    }
    let a3 = fold_carry(&l2, c2);
    let (l3, c3) = carry_pass(&a3);
    proof {
        lemma_value_bound(l3@);
        assert(c2 as nat * r16 == c2 as nat * p + c2 as nat * r8 + c2 as nat) by (nonlinear_arith)
            requires
                p == r16 - r8 - 1,
        ;
        assert(limbs_value(a3@) < r16);
        assert(c3 == 0) by (nonlinear_arith)
            requires
                c3 as nat * r16 <= limbs_value(a3@),
                limbs_value(a3@) < r16,
        ;
    }
    let a4 = fold_carry(&l3, 1);
    let (l4, c4) = carry_pass(&a4);
    proof {
        lemma_value_bound(l4@);
        assert(c4 <= 1) by (nonlinear_arith)
            requires
                c4 as nat * r16 <= limbs_value(a4@),
                limbs_value(a4@) < 2 * r16,
                r16 > 0,
        ;
    }
    let over: bool = c4 == 1;
    let mut out: [u64; 16] = [0u64; 16];
    let mut i: usize = 0;
    while i < 16
        invariant
            0 <= i <= 16,
            forall|j: int| 0 <= j < i ==> out[j] == (if over { l4[j] } else { l3[j] }),
        decreases 16 - i,
    {
        out[i] = select_u64(l3[i], l4[i], over);
        i += 1;
    }
    proof {
        if over {
            assert(out@ =~= l4@);
        } else {
            assert(out@ =~= l3@);
        }
        let k = c1 as nat + c2 as nat + c4 as nat;
        let v = limbs_value(out@);
        assert(k * p == c1 as nat * p + c2 as nat * p + c4 as nat * p) by (nonlinear_arith)
            requires
                k == c1 as nat + c2 as nat + c4 as nat,
        ;
        assert(limbs_value(acc@) == k * p + v);
        lemma_fundamental_div_mod_converse(limbs_value(acc@) as int, p as int, k as int, v as int);
    }
    out
}

/// The canonical limbs of the sum of two limb sequences modulo the field
/// prime.
pub(crate) fn add_limbs(a: &[u64; 16], b: &[u64; 16]) -> (out: [u64; 16])
    requires
        limbs_bounded(a@),
        limbs_bounded(b@),
    ensures
        limbs_bounded(out@),
        limbs_value(out@) == (limbs_value(a@) + limbs_value(b@)) % modulus(),
{
    let mut acc: [u64; 16] = [0u64; 16];
    let mut i: usize = 0;
    proof {
        assert(acc@.take(0).len() == 0);
        assert(a@.take(0).len() == 0);
        assert(b@.take(0).len() == 0);
    }
    while i < 16
        invariant
            0 <= i <= 16,
            limbs_bounded(a@),
            limbs_bounded(b@),
            forall|j: int| 0 <= j < 16 ==> acc[j] < 2 * radix(),
            limbs_value(acc@.take(i as int)) == limbs_value(a@.take(i as int)) + limbs_value(
                b@.take(i as int),
            ),
        decreases 16 - i,
    {
        let ghost prev = acc@;
        acc[i] = a[i] + b[i];
        proof {
            lemma_value_take_succ(acc@, i as int);
            lemma_value_take_succ(a@, i as int);
            lemma_value_take_succ(b@, i as int);
            assert(acc@.take(i as int) =~= prev.take(i as int));
            let w = radix_pow(i as nat);
            let x = a[i as int] as nat;
            let y = b[i as int] as nat;
            assert((x + y) * w == x * w + y * w) by (nonlinear_arith);
        }
        i += 1;
    }
    proof {
        assert(acc@.take(16) =~= acc@);
        assert(a@.take(16) =~= a@);
        assert(b@.take(16) =~= b@);
    }
    reduce(&acc)
}

/// The canonical limbs of the difference of two limb sequences modulo
/// the field prime. Twice the prime is added limb by limb before the
/// subtraction, so that no limb goes below zero.
pub(crate) fn sub_limbs(a: &[u64; 16], b: &[u64; 16]) -> (out: [u64; 16])
    requires
        limbs_bounded(a@),
        limbs_bounded(b@),
    ensures
        limbs_bounded(out@),
        limbs_value(out@) == ((limbs_value(a@) + 2 * modulus() - limbs_value(b@)) as nat)
            % modulus(),
        limbs_value(b@) < 2 * modulus(),
{
    let mut acc: [u64; 16] = [0u64; 16];
    let mut i: usize = 0;
    proof {
        assert(acc@.take(0).len() == 0);
        assert(a@.take(0).len() == 0);
        assert(b@.take(0).len() == 0);
        lemma_radix_pow_unfold(0);
    }
    while i < 16
        invariant
            0 <= i <= 16,
            limbs_bounded(a@),
            limbs_bounded(b@),
            forall|j: int| 0 <= j < 16 ==> acc[j] < 3 * radix(),
            limbs_value(acc@.take(i as int)) + limbs_value(b@.take(i as int)) + 2 + (if i > 8 {
                2 * radix_pow(8)
            } else {
                0
            }) == limbs_value(a@.take(i as int)) + 2 * radix_pow(i as nat),
        decreases 16 - i,
    {
        let ghost prev = acc@;
        let k: u64 = if i == 8 {
            0x1fff_fffc
        } else {
            0x1fff_fffe
        };
        acc[i] = a[i] + k - b[i];
        proof {
            lemma_value_take_succ(acc@, i as int);
            lemma_value_take_succ(a@, i as int);
            lemma_value_take_succ(b@, i as int);
            assert(acc@.take(i as int) =~= prev.take(i as int));
            lemma_radix_pow_unfold(i as nat);
            let w = radix_pow(i as nat);
            let x = a[i as int] as nat;
            let y = b[i as int] as nat;
            let z = acc[i as int] as nat;
            let kn = k as nat;
            assert(z * w + y * w == x * w + kn * w) by (nonlinear_arith)
                requires
                    z + y == x + kn,
            ;
            assert(kn * w + (if i == 8 {
                2 * w
            } else {
                0
            }) + 2 * w == 2 * (radix() * w)) by (nonlinear_arith)
                requires
                    kn == (if i == 8 {
                        0x1fff_fffcnat
                    } else {
                        0x1fff_fffenat
                    }),
                    radix() == 0x1000_0000,
            ;
        }
        i += 1;
    }
    proof {
        assert(acc@.take(16) =~= acc@);
        assert(a@.take(16) =~= a@);
        assert(b@.take(16) =~= b@);
        lemma_radix_pow_values();
        lemma_value_bound(b@);
    }
    reduce(&acc)
}

/// The value of a suffix is its first limb plus the radix times the
/// value of the next suffix.
pub proof fn lemma_value_skip(s: Seq<u64>, i: int)
    requires
        0 <= i < s.len(),
    ensures
        limbs_value(s.skip(i)) == s[i] as nat + radix() * limbs_value(s.skip(i + 1)),
{
    lemma_value_horner(s.skip(i));
    assert(s.skip(i).skip(1) =~= s.skip(i + 1));
}

/// The value of a sequence by Horner's rule from limb `k` on.
pub open spec fn horner_value(s: Seq<u64>, k: int) -> nat
    decreases s.len() - k,
{
    if 0 <= k < s.len() {
        s[k] as nat + radix() * horner_value(s, k + 1)
    } else {
        0
    }
}

/// Horner's rule computes the value of every suffix.
pub proof fn lemma_value_is_horner(s: Seq<u64>, k: int)
    requires
        0 <= k <= s.len(),
    ensures
        limbs_value(s.skip(k)) == horner_value(s, k),
    decreases s.len() - k,
{
    if k < s.len() {
        lemma_value_skip(s, k);
        lemma_value_is_horner(s, k + 1);
    } else {
        assert(s.skip(k).len() == 0);
    }
}

} // verus!
