//! Rounding a non-negative rational to a binary significand of fixed width.
//!
//! A rational `n / d` is rounded to `k * 2^s`, where `s` is the smallest
//! non-negative exponent that leaves `k` within the significand and `k` is the
//! nearest integer to `n / (d * 2^s)`, the even one of the two on a tie. This is
//! the rounding that IEEE 754 calls `roundTiesToEven`, with the weight of the
//! last place of the subnormal numbers as the unit.

use vstd::arithmetic::div_mod::{lemma_fundamental_div_mod, lemma_fundamental_div_mod_converse};
use vstd::arithmetic::power2::{
    lemma_pow2_adds, lemma_pow2_pos, lemma_pow2_strictly_increases, lemma_pow2_unfold, pow2,
};
use vstd::prelude::*;

verus! {

/// The integer nearest to `n / d`, the even neighbour where both are as near.
pub open spec fn half_even(n: nat, d: nat) -> nat {
    let q = n / d;
    let r = n % d;
    if 2 * r < d || (2 * r == d && q % 2 == 0) {
        q
    } else {
        q + 1
    }
}

/// The smallest `s` for which `n / (d * 2^s)` is below `2^p`.
pub open spec fn ulp_shift(p: nat, n: nat, d: nat) -> nat
    decreases (if d <= n { n - d + 1 } else { 0 }),
{
    if d == 0 || n < d * pow2(p) {
        0
    } else {
        proof {
            lemma_pow2_pos(p);
            assert(d * pow2(p) >= d) by (nonlinear_arith)
                requires
                    pow2(p) >= 1,
                    d >= 0,
            ;
        }
        1 + ulp_shift(p, n, 2 * d)
    }
}

/// `x` where it is not negative, else 0.
pub open spec fn above(x: int) -> nat {
    if x >= 0 {
        x as nat
    } else {
        0
    }
}

/// `ulp_shift` is the one exponent between the two powers that enclose `n / d`.
pub proof fn lemma_ulp_shift_is(p: nat, n: nat, d: nat, s: nat)
    requires
        d > 0,
        n < d * (pow2(p) * pow2(s)),
        s > 0 ==> d * (pow2(p) * pow2((s - 1) as nat)) <= n,
    ensures
        ulp_shift(p, n, d) == s,
    decreases s,
{
    lemma_pow2_pos(p);
    if s == 0 {
        assert(pow2(0) == 1) by {
            vstd::arithmetic::power2::lemma2_to64();
        }
        assert(d * (pow2(p) * 1) == d * pow2(p)) by (nonlinear_arith);
    } else {
        lemma_pow2_unfold(s);
        lemma_pow2_pos((s - 1) as nat);
        let h = pow2((s - 1) as nat);
        assert(d * (pow2(p) * h) >= d * pow2(p)) by (nonlinear_arith)
            requires
                h >= 1,
        ;
        assert(d * (pow2(p) * (2 * h)) == (2 * d) * (pow2(p) * h)) by (nonlinear_arith);
        if s > 1 {
            lemma_pow2_unfold((s - 1) as nat);
            let g = pow2((s - 2) as nat);
            assert(d * (pow2(p) * (2 * g)) == (2 * d) * (pow2(p) * g)) by (nonlinear_arith);
        }
        lemma_ulp_shift_is(p, n, 2 * d, (s - 1) as nat);
    }
}

/// A common factor changes nothing.
pub proof fn lemma_half_even_scale(n: nat, d: nat, c: nat)
    requires
        d > 0,
        c > 0,
    ensures
        half_even(n * c, d * c) == half_even(n, d),
{
    let q = n / d;
    let r = n % d;
    lemma_fundamental_div_mod(n as int, d as int);
    assert(n * c == q * (d * c) + r * c) by (nonlinear_arith)
        requires
            n == d * q + r,
    ;
    assert(0 <= r * c < d * c) by (nonlinear_arith)
        requires
            0 <= r < d,
            c > 0,
    ;
    lemma_fundamental_div_mod_converse((n * c) as int, (d * c) as int, q as int, (r * c) as int);
    assert((2 * r < d) == (2 * (r * c) < d * c)) by (nonlinear_arith)
        requires
            c > 0,
    ;
    assert((2 * r == d) == (2 * (r * c) == d * c)) by (nonlinear_arith)
        requires
            c > 0,
    ;
}

/// Rounding `q + r / e` to multiples of `2 * h`: the fraction matters only where
/// `q` lies exactly half way between two of them.
pub proof fn lemma_half_even_sticky(q: nat, r: nat, e: nat, h: nat)
    requires
        e > 0,
        r < e,
        h > 0,
    ensures
        half_even((q * e + r) as nat, (e * (2 * h)) as nat) == ({
            let a = q / (2 * h);
            let b = q % (2 * h);
            if b < h || (b == h && r == 0 && a % 2 == 0) {
                a
            } else {
                a + 1
            }
        }),
{
    let t = 2 * h;
    let a = q / t;
    let b = q % t;
    lemma_fundamental_div_mod(q as int, t as int);
    assert(q * e + r == a * (e * t) + (b * e + r)) by (nonlinear_arith)
        requires
            q == t * a + b,
    ;
    assert(b * e + r < e * t) by (nonlinear_arith)
        requires
            b + 1 <= t,
            r < e,
    ;
    assert(0 <= b * e + r) by (nonlinear_arith)
        requires
            0 <= b,
            0 <= e,
            0 <= r,
    ;
    lemma_fundamental_div_mod_converse(
        (q * e + r) as int,
        (e * t) as int,
        a as int,
        (b * e + r) as int,
    );
    if b < h {
        assert(2 * (b * e + r) < e * t) by (nonlinear_arith)
            requires
                b + 1 <= h,
                r < e,
                t == 2 * h,
        ;
    } else if b > h {
        assert(2 * (b * e + r) > e * t) by (nonlinear_arith)
            requires
                b >= h + 1,
                r >= 0,
                e > 0,
                t == 2 * h,
        ;
    } else {
        assert(2 * (b * e + r) == e * t + 2 * r) by (nonlinear_arith)
            requires
                b == h,
                t == 2 * h,
        ;
    }
}

/// `2^t`.
pub(crate) fn power_of_two(t: u32) -> (r: u128)
    requires
        t <= 127,
    ensures
        r == pow2(t as nat),
{
    let mut r: u128 = 1;
    let mut i: u32 = 0;
    proof {
        vstd::arithmetic::power2::lemma2_to64();
    }
    while i < t
        invariant
            i <= t <= 127,
            r == pow2(i as nat),
        decreases t - i,
    {
        proof {
            lemma_pow2_unfold((i + 1) as nat);
            lemma_pow2_values();
            if i + 1 < 127 {
                lemma_pow2_strictly_increases((i + 1) as nat, 127);
            }
        }
        r = r * 2;
        i = i + 1;
    }
    r
}

/// The powers of two at the widths used here.
pub proof fn lemma_pow2_values()
    ensures
        pow2(0) == 1,
        pow2(1) == 2,
        pow2(23) == 0x80_0000,
        pow2(24) == 0x100_0000,
        pow2(30) == 0x4000_0000,
        pow2(52) == 0x10_0000_0000_0000,
        pow2(53) == 0x20_0000_0000_0000,
        pow2(60) == 0x1000_0000_0000_0000,
        pow2(64) == 0x1_0000_0000_0000_0000,
        pow2(126) == 0x4000_0000_0000_0000_0000_0000_0000_0000,
        pow2(127) == 0x8000_0000_0000_0000_0000_0000_0000_0000,
        pow2(128) == 0x1_0000_0000_0000_0000_0000_0000_0000_0000,
{
    vstd::arithmetic::power2::lemma2_to64();
    vstd::arithmetic::power2::lemma2_to64_rest();
    lemma_pow2_adds(62, 62);
    lemma_pow2_adds(64, 62);
    lemma_pow2_adds(64, 63);
    lemma_pow2_adds(64, 64);
}

/// The number of binary digits of `q`.
pub(crate) fn bit_length(q: u128) -> (b: u32)
    requires
        q > 0,
    ensures
        1 <= b <= 128,
        pow2((b - 1) as nat) <= q < pow2(b as nat),
{
    let mut b: u32 = 1;
    let mut rest: u128 = q / 2;
    proof {
        lemma_pow2_values();
    }
    while rest > 0
        invariant
            1 <= b <= 128,
            q > 0,
            rest * pow2(b as nat) <= q < (rest + 1) * pow2(b as nat),
            pow2((b - 1) as nat) <= q,
        decreases rest,
    {
        proof {
            lemma_pow2_unfold((b + 1) as nat);
            lemma_pow2_pos(b as nat);
            lemma_pow2_values();
            let p = pow2(b as nat);
            assert(p <= q) by (nonlinear_arith)
                requires
                    rest * p <= q,
                    rest >= 1,
            ;
            if b >= 128 {
                if b > 128 {
                    lemma_pow2_strictly_increases(128, b as nat);
                }
                assert(false);
            }
            assert((rest / 2) * (2 * p) <= rest * p) by (nonlinear_arith)
                requires
                    (rest / 2) * 2 <= rest,
            ;
            assert((rest + 1) * p <= (rest / 2 + 1) * (2 * p)) by (nonlinear_arith)
                requires
                    rest + 1 <= (rest / 2 + 1) * 2,
            ;
        }
        rest = rest / 2;
        b = b + 1;
    }
    assert((0 + 1) * pow2(b as nat) == pow2(b as nat)) by (nonlinear_arith);
    b
}

/// Rounds `(q + f) * 2^x` to `p` significant binary digits, where `f` is some
/// fraction in `[0, 1)` that is zero exactly if `sticky` is not set.
pub(crate) fn round_scaled(
    p: u32,
    q: u128,
    sticky: bool,
    x: i32,
    Ghost(n): Ghost<nat>,
    Ghost(d): Ghost<nat>,
) -> (r: (u64, u32))
    requires
        24 <= p <= 53,
        pow2(p as nat) <= q < pow2(126),
        -4000 <= x <= 4000,
        d > 0,
        q * (d * pow2(above(x as int))) <= n * pow2(above(-x)) < (q + 1) * (d * pow2(
            above(x as int),
        )),
        sticky <==> q * (d * pow2(above(x as int))) < n * pow2(above(-x)),
    ensures
        r.1 == ulp_shift(p as nat, n, d),
        r.0 == half_even(n, d * pow2(r.1 as nat)),
        r.0 <= pow2(p as nat),
        r.1 <= 5000,
{
    proof {
        lemma_pow2_pos(p as nat);
    }
    let b: u32 = bit_length(q);
    proof {
        if b <= p {
            if b < p {
                lemma_pow2_strictly_increases(b as nat, p as nat);
            }
            assert(false);
        }
        if b > 126 {
            if b - 1 > 126 {
                lemma_pow2_strictly_increases(126, (b - 1) as nat);
            }
            assert(false);
        }
    }
    let mut t: i32 = b as i32 - p as i32;
    if x + t < 0 {
        t = -x;
    }
    let s: u32 = (x + t) as u32;
    proof {
        lemma_scaled_shift(p as nat, q as nat, x as int, t as nat, s as nat, b as nat, n, d);
    }
    if t > 126 {
        proof {
            lemma_scaled_round(q as nat, x as int, t as nat, s as nat, n, d);
            if t - 1 > 126 {
                lemma_pow2_strictly_increases(126, (t - 1) as nat);
            }
            lemma_pow2_unfold(t as nat);
            lemma_pow2_pos((t - 1) as nat);
            vstd::arithmetic::div_mod::lemma_basic_div(q as int, pow2(t as nat) as int);
            vstd::arithmetic::div_mod::lemma_small_mod(q as nat, pow2(t as nat));
        }
        return (0, s);
    }
    let w: u128 = power_of_two(t as u32);
    let h: u128 = power_of_two((t - 1) as u32);
    proof {
        lemma_pow2_unfold(t as nat);
        lemma_pow2_pos((t - 1) as nat);
        lemma_scaled_round(q as nat, x as int, t as nat, s as nat, n, d);
    }
    let a: u128 = q / w;
    let m: u128 = q % w;
    proof {
        // `q < 2^b <= 2^(p + t)`, so the quotient has at most `p` digits.
        lemma_pow2_adds(p as nat, t as nat);
        if (b as int) < p + t {
            lemma_pow2_strictly_increases(b as nat, (p + t) as nat);
        }
        lemma_fundamental_div_mod(q as int, w as int);
        assert(a < pow2(p as nat)) by (nonlinear_arith)
            requires
                q == w * a + m,
                q < pow2(p as nat) * w,
                w > 0,
                m >= 0,
        ;
        lemma_pow2_values();
        if p < 53 {
            lemma_pow2_strictly_increases(p as nat, 53);
        }
    }
    if m < h || (m == h && !sticky && a % 2 == 0) {
        (a as u64, s)
    } else {
        ((a + 1) as u64, s)
    }
}

/// Moves the factors of an equality `a * t == w * c` round a common factor `d`.
proof fn lemma_regroup(d: nat, a: nat, t: nat, w: nat, c: nat)
    requires
        a * t == w * c,
    ensures
        t * (d * a) == (d * w) * c,
{
    assert(t * (d * a) == d * (a * t)) by (nonlinear_arith);
    assert(d * (w * c) == (d * w) * c) by (nonlinear_arith);
}

/// The exponent that `round_scaled` picks is `ulp_shift`.
proof fn lemma_scaled_shift(p: nat, q: nat, x: int, t: nat, s: nat, b: nat, n: nat, d: nat)
    requires
        d > 0,
        b > p,
        pow2((b - 1) as nat) <= q < pow2(b),
        q * (d * pow2(above(x))) <= n * pow2(above(-x)) < (q + 1) * (d * pow2(above(x))),
        s == x + t,
        t >= b - p,
        s > 0 ==> t == b - p,
    ensures
        ulp_shift(p, n, d) == s,
{
    let xp = above(x);
    let xn = above(-x);
    let e = d * pow2(xp);
    lemma_pow2_pos(xp);
    lemma_pow2_pos(xn);
    if b < p + t {
        lemma_pow2_strictly_increases(b, p + t);
    }
    let top = pow2(p + t);
    lemma_pow2_adds(xp, p + t);
    lemma_pow2_adds(p, s);
    lemma_pow2_adds(p + s, xn);
    assert(xp + (p + t) == (p + s) + xn);
    let ps = pow2(p) * pow2(s);
    let c = pow2(xn);
    assert((q + 1) * e <= top * e) by (nonlinear_arith)
        requires
            q + 1 <= top,
            e >= 0,
    ;
    lemma_regroup(d, pow2(xp), top, ps, c);
    assert(n < d * ps) by (nonlinear_arith)
        requires
            n * c < (d * ps) * c,
            c > 0,
    ;
    if s > 0 {
        let low = pow2((p + t - 1) as nat);
        assert(low == pow2((b - 1) as nat));
        lemma_pow2_adds(xp, (p + t - 1) as nat);
        lemma_pow2_adds(p, (s - 1) as nat);
        lemma_pow2_adds((p + s - 1) as nat, xn);
        assert(xp + (p + t - 1) == (p + s - 1) + xn);
        let pl = pow2(p) * pow2((s - 1) as nat);
        assert(low * e <= q * e) by (nonlinear_arith)
            requires
                low <= q,
                e >= 0,
        ;
        lemma_regroup(d, pow2(xp), low, pl, c);
        assert(d * pl <= n) by (nonlinear_arith)
            requires
                (d * pl) * c <= n * c,
                c > 0,
        ;
    }
    lemma_ulp_shift_is(p, n, d, s);
}

/// Rounding to multiples of `2^t` in the scale of `q`.
proof fn lemma_scaled_round(q: nat, x: int, t: nat, s: nat, n: nat, d: nat)
    requires
        d > 0,
        t >= 1,
        s == x + t,
        q * (d * pow2(above(x))) <= n * pow2(above(-x)) < (q + 1) * (d * pow2(above(x))),
    ensures
        half_even(n, d * pow2(s)) == ({
            let a = q / pow2(t);
            let b = q % pow2(t);
            let h = pow2((t - 1) as nat);
            if b < h || (b == h && q * (d * pow2(above(x))) == n * pow2(above(-x)) && a % 2 == 0) {
                a
            } else {
                a + 1
            }
        }),
{
    let xp = above(x);
    let xn = above(-x);
    let e = d * pow2(xp);
    let h = pow2((t - 1) as nat);
    lemma_pow2_pos(xp);
    lemma_pow2_pos(xn);
    lemma_pow2_pos(s);
    lemma_pow2_pos((t - 1) as nat);
    lemma_pow2_unfold(t);
    lemma_pow2_adds(xp, t);
    lemma_pow2_adds(s, xn);
    assert(xp + t == s + xn);
    assert(e > 0) by (nonlinear_arith)
        requires
            d > 0,
            pow2(xp) > 0,
            e == d * pow2(xp),
    ;
    assert(d * pow2(s) > 0) by (nonlinear_arith)
        requires
            d > 0,
            pow2(s) > 0,
    ;
    lemma_half_even_scale(n, d * pow2(s), pow2(xn));
    assert((d * pow2(s)) * pow2(xn) == e * (2 * h)) by (nonlinear_arith)
        requires
            pow2(s) * pow2(xn) == pow2(xp) * (2 * h),
            e == d * pow2(xp),
    ;
    let r = (n * pow2(xn) - q * e) as nat;
    assert((q + 1) * e == q * e + e) by (nonlinear_arith);
    lemma_half_even_sticky(q, r, e, h);
}

} // verus!
