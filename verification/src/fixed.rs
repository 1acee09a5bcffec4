//! Numbers as text with a fixed number of decimals.

use crate::binary64::{Binary64, INF64};
use crate::rounding::{half_even, lemma_pow2_values, power_of_two};
use crate::text::{decimal, digit_char, digits, padded, push_decimal, push_padded};
use vstd::arithmetic::power2::{lemma_pow2_adds, lemma_pow2_pos, lemma_pow2_strictly_increases, pow2};
use vstd::prelude::*;
use vstd::string::*;

verus! {

/// Whether these are decimal digits, the lowest first, without idle zeros on top.
pub open spec fn digit_list(ds: Seq<u8>) -> bool {
    &&& ds.len() > 0
    &&& forall|i: int| 0 <= i < ds.len() ==> #[trigger] ds[i] < 10
    &&& ds.last() == 0 ==> ds.len() == 1
}

/// The number that a list of digits stands for, the lowest first.
pub open spec fn list_value(ds: Seq<u8>) -> nat
    decreases ds.len(),
{
    if ds.len() == 0 {
        0
    } else {
        ds[0] as nat + 10 * list_value(ds.skip(1))
    }
}

/// The digits of a number, the lowest first.
pub open spec fn digit_seq(n: nat) -> Seq<u8>
    decreases n,
{
    if n < 10 {
        seq![n as u8]
    } else {
        seq![(n % 10) as u8] + digit_seq(n / 10)
    }
}

/// The digits of twice a number and a carry.
pub open spec fn doubled(ds: Seq<u8>, carry: nat) -> Seq<u8>
    decreases ds.len(),
{
    if ds.len() == 0 {
        if carry == 0 {
            Seq::empty()
        } else {
            seq![carry as u8]
        }
    } else {
        let d = ds[0] * 2 + carry;
        seq![(d % 10) as u8] + doubled(ds.skip(1), (d / 10) as nat)
    }
}

/// The text of a list of digits.
pub open spec fn list_text(ds: Seq<u8>) -> Seq<char>
    decreases ds.len(),
{
    if ds.len() == 0 {
        Seq::empty()
    } else {
        list_text(ds.skip(1)).push(digit_char(ds[0] as nat))
    }
}

proof fn lemma_digit_seq(n: nat)
    ensures
        digit_list(digit_seq(n)),
        list_value(digit_seq(n)) == n,
        n > 0 ==> digit_seq(n).last() > 0,
    decreases n,
{
    let ds = digit_seq(n);
    reveal_with_fuel(list_value, 2);
    if n < 10 {
        assert(ds.skip(1) =~= Seq::empty());
    } else {
        lemma_digit_seq(n / 10);
        assert(ds.skip(1) =~= digit_seq(n / 10));
    }
}

proof fn lemma_doubled(ds: Seq<u8>, carry: nat)
    requires
        carry <= 1,
        forall|i: int| 0 <= i < ds.len() ==> #[trigger] ds[i] < 10,
        ds.len() > 0 ==> ds.last() > 0,
    ensures
        list_value(doubled(ds, carry)) == 2 * list_value(ds) + carry,
        forall|i: int| 0 <= i < doubled(ds, carry).len() ==> #[trigger] doubled(ds, carry)[i] < 10,
        doubled(ds, carry).len() > 0 ==> doubled(ds, carry).last() > 0,
        doubled(ds, carry).len() >= ds.len(),
    decreases ds.len(),
{
    let r = doubled(ds, carry);
    reveal_with_fuel(list_value, 2);
    if ds.len() == 0 {
        assert(r.skip(1) =~= Seq::empty() || r.len() == 0);
    } else {
        let d = ds[0] * 2 + carry;
        let rest = doubled(ds.skip(1), (d / 10) as nat);
        assert(ds.skip(1).len() > 0 ==> ds.skip(1).last() == ds.last());
        lemma_doubled(ds.skip(1), (d / 10) as nat);
        assert(r.skip(1) =~= rest);
        if rest.len() == 0 {
            assert(ds.len() == 1);
            assert(r.last() == (d % 10) as u8);
        } else {
            assert(r.last() == rest.last());
        }
    }
}

proof fn lemma_list_text(ds: Seq<u8>)
    requires
        digit_list(ds),
    ensures
        list_text(ds) == decimal(list_value(ds)),
    decreases ds.len(),
{
    let rest = ds.skip(1);
    let n = list_value(ds);
    if ds.len() == 1 {
        assert(rest =~= Seq::empty());
        assert(list_text(rest) =~= Seq::empty());
        assert(list_text(ds) =~= digits(n, 10));
    } else {
        assert(rest.last() == ds.last());
        lemma_list_text(rest);
        lemma_list_positive(rest);
        assert(n / 10 == list_value(rest) && n % 10 == ds[0]);
        assert(list_text(ds) =~= digits(n, 10));
    }
}

proof fn lemma_list_positive(ds: Seq<u8>)
    requires
        ds.len() > 0,
        ds.last() > 0,
    ensures
        list_value(ds) > 0,
    decreases ds.len(),
{
    if ds.len() > 1 {
        assert(ds.skip(1).last() == ds.last());
        lemma_list_positive(ds.skip(1));
    }
}

fn double_digits(ds: &Vec<u8>) -> (r: Vec<u8>)
    requires
        digit_list(ds@),
        ds@.last() > 0,
    ensures
        digit_list(r@),
        r@.last() > 0,
        list_value(r@) == 2 * list_value(ds@),
{
    let mut r: Vec<u8> = Vec::new();
    let mut carry: u8 = 0;
    let mut i: usize = 0;
    proof {
        assert(ds@.skip(0) =~= ds@);
        assert(r@ + doubled(ds@, 0) =~= doubled(ds@, 0));
    }
    while i < ds.len()
        invariant
            i <= ds@.len(),
            carry <= 1,
            digit_list(ds@),
            r@ + doubled(ds@.skip(i as int), carry as nat) == doubled(ds@, 0),
        decreases ds@.len() - i,
    {
        let ghost rest = ds@.skip(i as int);
        let d: u8 = ds[i] * 2 + carry;
        proof {
            assert(rest[0] == ds@[i as int]);
            assert(rest.skip(1) =~= ds@.skip(i + 1));
            assert(r@.push(d % 10) + doubled(ds@.skip(i + 1), (d / 10) as nat) =~= r@ + doubled(
                rest,
                carry as nat,
            ));
        }
        r.push(d % 10);
        carry = d / 10;
        i = i + 1;
    }
    proof {
        assert(ds@.skip(i as int) =~= Seq::empty());
        lemma_doubled(ds@, 0);
    }
    if carry > 0 {
        proof {
            assert(r@.push(carry) =~= doubled(ds@, 0));
        }
        r.push(carry);
    } else {
        assert(r@ =~= doubled(ds@, 0));
    }
    r
}

/// Appends `m * 2^t` in decimal.
pub fn push_doubled(s: &mut String, m: u64, t: u32)
    requires
        m > 0,
    ensures
        final(s)@ == old(s)@ + decimal(m as nat * pow2(t as nat)),
{
    let mut ds: Vec<u8> = Vec::new();
    let mut rest: u64 = m;
    proof {
        assert(ds@ + digit_seq(m as nat) =~= digit_seq(m as nat));
        lemma_digit_seq(m as nat);
    }
    while rest >= 10
        invariant
            ds@ + digit_seq(rest as nat) == digit_seq(m as nat),
        decreases rest,
    {
        proof {
            assert(ds@.push((rest % 10) as u8) + digit_seq((rest / 10) as nat) =~= ds@ + digit_seq(
                rest as nat,
            ));
        }
        ds.push((rest % 10) as u8);
        rest = rest / 10;
    }
    proof {
        assert(ds@.push(rest as u8) =~= digit_seq(m as nat));
    }
    ds.push(rest as u8);
    let mut j: u32 = 0;
    proof {
        lemma_pow2_values();
        assert(m * pow2(0) == m) by (nonlinear_arith)
            requires
                pow2(0) == 1,
        ;
    }
    while j < t
        invariant
            j <= t,
            digit_list(ds@),
            ds@.last() > 0,
            list_value(ds@) == m * pow2(j as nat),
        decreases t - j,
    {
        ds = double_digits(&ds);
        j = j + 1;
        proof {
            vstd::arithmetic::power2::lemma_pow2_unfold(j as nat);
            assert(2 * (m * pow2((j - 1) as nat)) == m * (2 * pow2((j - 1) as nat)))
                by (nonlinear_arith);
        }
    }
    proof {
        lemma_list_text(ds@);
    }
    let ghost before = s@;
    let mut i: usize = ds.len();
    proof {
        assert(ds@.skip(i as int) =~= Seq::empty());
        assert(list_text(ds@.skip(i as int)) =~= Seq::empty());
        assert(before + list_text(ds@.skip(i as int)) =~= before);
    }
    while i > 0
        invariant
            i <= ds@.len(),
            digit_list(ds@),
            s@ == before + list_text(ds@.skip(i as int)),
        decreases i,
    {
        i = i - 1;
        let ghost part = ds@.skip(i as int);
        proof {
            assert(part.skip(1) =~= ds@.skip(i + 1));
            assert(part[0] == ds@[i as int]);
            assert(before + list_text(part) =~= (before + list_text(part.skip(1))).push(
                digit_char(ds@[i as int] as nat),
            ));
        }
        s.push((48 + ds[i]) as char);
    }
    proof {
        assert(ds@.skip(0) =~= ds@);
    }
}

/// A number with six decimals: the nearest multiple of a millionth, of two equally near
/// ones the even.
pub open spec fn six_decimals(x: Binary64) -> Seq<char> {
    let millionths = half_even(x.units() * 1_000_000, pow2(1074));
    decimal(millionths / 1_000_000) + "."@ + padded(decimal(millionths % 1_000_000), 6)
}

/// A number with six decimals, or `inf`.
pub open spec fn six_decimals_or_inf(x: Binary64) -> Seq<char> {
    if x.finite() {
        six_decimals(x)
    } else {
        "inf"@
    }
}

/// Writes a number with six decimals.
pub fn fixed_six(x: Binary64) -> (s: String)
    ensures
        s@ == six_decimals_or_inf(x),
{
    if x.bits >= INF64 {
        return String::from_str("inf");
    }
    let (m, e) = x.parts();
    let ghost n = x.units();
    let mut s = String::from_str("");
    proof {
        reveal_strlit("");
        assert(s@ =~= Seq::empty());
        lemma_pow2_values();
        lemma_pow2_pos(1074);
    }
    if e >= 1074 {
        let t: u32 = e - 1074;
        proof {
            lemma_pow2_adds(t as nat, 1074);
            let whole = m * pow2(t as nat);
            assert(n * 1_000_000 == (whole * 1_000_000) * pow2(1074)) by (nonlinear_arith)
                requires
                    n == m * pow2(e as nat),
                    pow2(e as nat) == pow2(t as nat) * pow2(1074),
                    whole == m * pow2(t as nat),
            ;
            lemma_half_even_exact((whole * 1_000_000) as nat, pow2(1074));
            assert((whole * 1_000_000) / 1_000_000 == whole);
            assert((whole * 1_000_000) % 1_000_000 == 0);
        }
        push_doubled(&mut s, m, t);
        s.append(".");
        push_padded(&mut s, 0, 10, 6);
        return s;
    }
    let k: u32 = 1074 - e;
    let big: u128 = m as u128 * 1_000_000;
    proof {
        lemma_pow2_adds(e as nat, k as nat);
        lemma_pow2_pos(e as nat);
        lemma_pow2_pos(k as nat);
        assert(n * 1_000_000 == big * pow2(e as nat)) by (nonlinear_arith)
            requires
                n == m * pow2(e as nat),
                big == m * 1_000_000,
        ;
        assert(pow2(1074) == pow2(k as nat) * pow2(e as nat)) by (nonlinear_arith)
            requires
                pow2(1074) == pow2(e as nat) * pow2(k as nat),
        ;
        crate::rounding::lemma_half_even_scale(big as nat, pow2(k as nat), pow2(e as nat));
    }
    let q: u128 = if k >= 80 {
        proof {
            vstd::arithmetic::power2::lemma2_to64();
            lemma_pow2_adds(53, 20);
            assert(big < pow2(73)) by (nonlinear_arith)
                requires
                    big == m * 1_000_000,
                    m < pow2(53),
                    pow2(20) >= 1_000_000,
                    pow2(53) * pow2(20) == pow2(73),
            ;
            lemma_pow2_strictly_increases(74, 79);
            if k > 80 {
                lemma_pow2_strictly_increases(80, k as nat);
            }
            lemma_pow2_adds(79, 1);
            lemma_pow2_adds(73, 1);
            vstd::arithmetic::div_mod::lemma_basic_div(big as int, pow2(k as nat) as int);
            vstd::arithmetic::div_mod::lemma_small_mod(big as nat, pow2(k as nat));
        }
        0
    } else {
        let d: u128 = power_of_two(k);
        let quotient: u128 = big / d;
        let rest: u128 = big % d;
        proof {
            lemma_pow2_strictly_increases(k as nat, 80);
            lemma_pow2_strictly_increases(80, 126);
        }
        if rest * 2 > d || (rest * 2 == d && quotient % 2 == 1) {
            quotient + 1
        } else {
            quotient
        }
    };
    proof {
        assert(q <= 0x20_0000_0000_0000 * 1_000_000) by {
            lemma_half_even_bound(big as nat, pow2(k as nat));
        }
    }
    push_decimal(&mut s, (q / 1_000_000) as u64);
    s.append(".");
    push_padded(&mut s, (q % 1_000_000) as u64, 10, 6);
    s
}

proof fn lemma_half_even_exact(n: nat, d: nat)
    requires
        d > 0,
    ensures
        half_even(n * d, d) == n,
{
    vstd::arithmetic::div_mod::lemma_div_by_multiple(n as int, d as int);
    vstd::arithmetic::div_mod::lemma_mod_multiples_basic(n as int, d as int);
}

proof fn lemma_half_even_bound(n: nat, d: nat)
    requires
        d > 0,
    ensures
        half_even(n, d) <= n,
{
    vstd::arithmetic::div_mod::lemma_fundamental_div_mod(n as int, d as int);
    let (q, r) = (n / d, n % d);
    assert(q <= n && (r > 0 ==> q + 1 <= n)) by (nonlinear_arith)
        requires
            n == d * q + r,
            d > 0,
            r >= 0,
            q >= 0,
    ;
}

} // verus!
