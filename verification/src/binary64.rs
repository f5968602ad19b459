//! Round-to-nearest-even binary64 arithmetic on positive rationals, in
//! integers: the rounding that IEEE 754 double precision applies to the exact
//! result of each division, product and difference.
use vstd::prelude::*;

verus! {

/// `2^k`.
pub open spec fn pow2(k: nat) -> nat
    decreases k,
{
    if k == 0 {
        1
    } else {
        2 * pow2((k - 1) as nat)
    }
}

/// `2^52`, the least 53-bit mantissa.
pub open spec fn two52() -> nat {
    4503599627370496
}

/// `2^53`, one past the greatest 53-bit mantissa.
pub open spec fn two53() -> nat {
    9007199254740992
}

/// `a / b` rounded to the nearest integer, ties to the even one.
pub open spec fn rne_div(a: nat, b: nat) -> nat {
    let f = a / b;
    let r = a % b;
    if 2 * r > b || (2 * r == b && f % 2 == 1) {
        f + 1
    } else {
        f
    }
}

/// `n / q` scaled by `2^k` lies in `[2^52, 2^53)`: `k` is the scale at which a
/// 53-bit mantissa holds the integer part of the value.
pub open spec fn is_f64_scale(n: nat, q: nat, k: nat) -> bool {
    two52() * q <= n * pow2(k) && n * pow2(k) < two53() * q
}

/// The binary64 number nearest to `n / q` (ties to an even mantissa), as
/// `(m, k)` standing for `m / 2^k`. This is the rounding of every positive
/// value below `2^53` and above the subnormal range.
pub open spec fn f64_round(n: nat, q: nat) -> (nat, nat) {
    let k = choose|k: nat| is_f64_scale(n, q, k);
    (rne_div(n * pow2(k), q), k)
}

/// The value `m / 2^k` truncated towards zero.
pub open spec fn f64_trunc(d: (nat, nat)) -> nat {
    d.0 / pow2(d.1)
}

pub proof fn lemma_pow2_positive(k: nat)
    ensures
        pow2(k) >= 1,
        pow2(k) >= k,
    decreases k,
{
    if k > 0 {
        lemma_pow2_positive((k - 1) as nat);
    }
}

pub proof fn lemma_pow2_add(a: nat, b: nat)
    ensures
        pow2(a + b) == pow2(a) * pow2(b),
    decreases b,
{
    if b > 0 {
        lemma_pow2_add(a, (b - 1) as nat);
        assert((a + b - 1) as nat == a + (b - 1) as nat);
        assert(pow2(a + b) == 2 * pow2((a + b - 1) as nat));
        assert(pow2(a) * pow2(b) == pow2(a) * (2 * pow2((b - 1) as nat)));
        assert(pow2(a) * (2 * pow2((b - 1) as nat)) == 2 * (pow2(a) * pow2((b - 1) as nat)))
            by (nonlinear_arith);
    } else {
        assert(pow2(a) * 1 == pow2(a));
    }
}

/// Rounding `a / b` to an integer does not pass an integer bound above it.
pub proof fn lemma_rne_div_below(a: nat, b: nat, c: nat)
    requires
        b >= 1,
        a < c * b,
    ensures
        rne_div(a, b) <= c,
{
    assert(a / b < c) by (nonlinear_arith)
        requires
            b >= 1,
            a < c * b,
    ;
}

/// There is one scale at most.
pub proof fn lemma_f64_scale_unique(n: nat, q: nat, k1: nat, k2: nat)
    requires
        is_f64_scale(n, q, k1),
        is_f64_scale(n, q, k2),
    ensures
        k1 == k2,
{
    if k1 < k2 {
        lemma_scale_step(n, q, k1, k2);
    } else if k2 < k1 {
        lemma_scale_step(n, q, k2, k1);
    }
}

/// Above a scale, the scaled value is past the mantissa range.
proof fn lemma_scale_step(n: nat, q: nat, k1: nat, k2: nat)
    requires
        k1 < k2,
        is_f64_scale(n, q, k1),
    ensures
        !is_f64_scale(n, q, k2),
{
    let d = (k2 - k1) as nat;
    lemma_pow2_add(k1, d);
    lemma_pow2_positive((d - 1) as nat);
    assert(pow2(d) == 2 * pow2((d - 1) as nat));
    let p1 = pow2(k1);
    let pd = pow2(d);
    assert(n * pow2(k2) == (n * p1) * pd) by (nonlinear_arith)
        requires
            pow2(k2) == p1 * pd,
    ;
    assert((n * p1) * pd >= 2 * (n * p1)) by (nonlinear_arith)
        requires
            pd >= 2,
    ;
}

/// Computes `f64_round(n, q)` with `2^k` alongside: the mantissa, the scale and `2^k`.
pub fn round_f64(n: u128, q: u128) -> (r: (u128, u128, u128))
    requires
        n >= 1,
        1 <= q <= 0x1_0000_0000_0000_0000,
        n < two53() * q,
    ensures
        (r.0 as nat, r.1 as nat) == f64_round(n as nat, q as nat),
        r.2 == pow2(r.1 as nat),
        is_f64_scale(n as nat, q as nat, r.1 as nat),
        two52() <= r.0 <= two53(),
{
    let mut k: u128 = 0;
    let mut p2: u128 = 1;
    let mut a: u128 = n;
    while a < 4503599627370496 * q
        invariant
            n >= 1,
            1 <= q <= 0x1_0000_0000_0000_0000,
            a == n * p2,
            p2 == pow2(k as nat),
            a < two53() * q,
            k <= p2,
            p2 <= a,
        decreases two53() * q - a,
    {
        proof {
            assert(p2 <= a) by (nonlinear_arith)
                requires
                    a == n * p2,
                    n >= 1,
            ;
            assert(2 * a == n * (2 * p2)) by (nonlinear_arith)
                requires
                    a == n * p2,
            ;
            assert(pow2((k + 1) as nat) == 2 * pow2(k as nat));
        }
        a = 2 * a;
        p2 = 2 * p2;
        k = k + 1;
    }
    let f = a / q;
    let rem = a % q;
    let m = if 2 * rem > q || (2 * rem == q && f % 2 == 1) { f + 1 } else { f };
    proof {
        assert(is_f64_scale(n as nat, q as nat, k as nat));
        let kc = choose|kk: nat| is_f64_scale(n as nat, q as nat, kk);
        lemma_f64_scale_unique(n as nat, q as nat, k as nat, kc);
        assert(two52() <= f < two53()) by (nonlinear_arith)
            requires
                two52() * q <= a < two53() * q,
                f == a / q,
                q >= 1,
        ;
    }
    (m, k, p2)
}

/// Every positive value below `2^53` has a scale.
pub proof fn lemma_scale_exists(n: nat, q: nat)
    requires
        n >= 1,
        q >= 1,
        n < two53() * q,
    ensures
        exists|k: nat| is_f64_scale(n, q, k),
    decreases two53() * q - n,
{
    if n >= two52() * q {
        assert(pow2(0) == 1);
        assert(n * pow2(0) == n);
        assert(is_f64_scale(n, q, 0));
    } else {
        let n2 = 2 * n;
        lemma_scale_exists(n2, q);
        let k = choose|k: nat| is_f64_scale(n2, q, k);
        assert(n * pow2(k + 1) == (2 * n) * pow2(k)) by (nonlinear_arith)
            requires
                pow2(k + 1) == 2 * pow2(k),
        ;
        assert(is_f64_scale(n, q, k + 1));
    }
}

/// A whole number below `2^53` is a binary64 number: rounding `v * q / q`
/// gives `v` exactly, with mantissa `v * 2^k`.
pub proof fn lemma_round_whole(v: nat, q: nat)
    requires
        1 <= v < two53(),
        q >= 1,
    ensures
        f64_round(v * q, q).0 == v * pow2(f64_round(v * q, q).1),
        f64_trunc(f64_round(v * q, q)) == v,
{
    assert(v * q < two53() * q) by (nonlinear_arith)
        requires
            v < two53(),
            q >= 1,
    ;
    let vq = v * q;
    assert(vq >= 1) by (nonlinear_arith)
        requires
            vq == v * q,
            v >= 1,
            q >= 1,
    ;
    lemma_scale_exists(vq, q);
    let k = choose|k: nat| is_f64_scale(vq, q, k);
    let p = pow2(k);
    lemma_pow2_positive(k);
    assert((v * q) * p == (v * p) * q) by (nonlinear_arith);
    assert(((v * p) * q) / q == v * p && ((v * p) * q) % q == 0) by (nonlinear_arith)
        requires
            q >= 1,
    ;
    assert((v * p) / p == v) by (nonlinear_arith)
        requires
            p >= 1,
    ;
}

/// Rounding to the nearest integer is off by at most one half.
pub proof fn lemma_rne_div_close(a: nat, b: nat)
    requires
        b >= 1,
    ensures
        2 * b * rne_div(a, b) <= 2 * a + b,
        2 * b * rne_div(a, b) + b >= 2 * a,
{
    let f = a / b;
    let r = a % b;
    assert(a == f * b + r && r < b) by (nonlinear_arith)
        requires
            b >= 1,
            f == a / b,
            r == a % b,
    ;
    assert(2 * b * f == 2 * (f * b)) by (nonlinear_arith);
    assert(2 * b * (f + 1) == 2 * (f * b) + 2 * b) by (nonlinear_arith);
}

/// The facts about a rounding that the bounds below rest on: the scale, and
/// the mantissa within one half of the scaled value.
pub proof fn lemma_round_facts(n: nat, q: nat)
    requires
        n >= 1,
        q >= 1,
        n < two53() * q,
    ensures
        is_f64_scale(n, q, f64_round(n, q).1),
        2 * q * f64_round(n, q).0 <= 2 * (n * pow2(f64_round(n, q).1)) + q,
        2 * q * f64_round(n, q).0 + q >= 2 * (n * pow2(f64_round(n, q).1)),
        f64_round(n, q).0 <= two53(),
        pow2(f64_round(n, q).1) >= 1,
{
    lemma_scale_exists(n, q);
    let k = f64_round(n, q).1;
    assert(is_f64_scale(n, q, k));
    lemma_pow2_positive(k);
    lemma_rne_div_close(n * pow2(k), q);
    lemma_rne_div_below(n * pow2(k), q, two53());
}

} // verus!
