//! Text: numbers in decimal and hexadecimal, and the strings made of them.

use vstd::prelude::*;
use vstd::string::*;

verus! {

/// `String::push` appends the given character to the end of the string; the
/// contract says that and no more.
pub assume_specification[ String::push ](s: &mut String, ch: char)
    ensures
        final(s)@ == old(s)@.push(ch),
;

/// The text as [`quote`] writes it.
pub uninterp spec fn quoted(text: Seq<char>) -> Seq<char>;

/// The text as `{:?}` of std writes it, in quotes and with escapes. The contract claims
/// that it depends on the text alone.
#[verifier::external_body]
pub(crate) fn quote(text: &str) -> (r: String)
    ensures
        r@ == quoted(text@),
{
    format!("{text:?}")
}

/// The character of a digit, `0` to `9` and then `A` to `F`.
pub open spec fn digit_char(d: nat) -> char {
    if d < 10 {
        (48 + d) as char
    } else {
        (55 + d) as char
    }
}

/// The digits of `n` in a base, without leading zeros.
pub open spec fn digits(n: nat, base: nat) -> Seq<char>
    decreases n,
{
    if base < 2 || n < base {
        seq![digit_char(n)]
    } else {
        proof {
            vstd::arithmetic::div_mod::lemma_div_decreases(n as int, base as int);
        }
        digits(n / base, base).push(digit_char(n % base))
    }
}

/// `n` in decimal, as `{}` writes it.
pub open spec fn decimal(n: nat) -> Seq<char> {
    digits(n, 10)
}

/// `n` in decimal, with a minus sign where it is negative.
pub open spec fn signed_decimal(n: int) -> Seq<char> {
    if n < 0 {
        seq!['-'] + decimal((-n) as nat)
    } else {
        decimal(n as nat)
    }
}

/// `s` behind as many zeros as fill it up to `width` characters.
pub open spec fn padded(s: Seq<char>, width: nat) -> Seq<char> {
    if s.len() < width {
        Seq::new((width - s.len()) as nat, |i: int| '0') + s
    } else {
        s
    }
}

fn push_digit(s: &mut String, d: u64)
    requires
        d < 16,
    ensures
        final(s)@ == old(s)@.push(digit_char(d as nat)),
{
    if d < 10 {
        s.push((48u8 + d as u8) as char);
    } else {
        s.push((55u8 + d as u8) as char);
    }
}

/// Appends the digits of `n`.
pub fn push_digits(s: &mut String, n: u64, base: u64)
    requires
        2 <= base <= 16,
    ensures
        final(s)@ == old(s)@ + digits(n as nat, base as nat),
    decreases n,
{
    if n >= base {
        proof {
            vstd::arithmetic::div_mod::lemma_div_decreases(n as int, base as int);
        }
        push_digits(s, n / base, base);
    }
    push_digit(s, n % base);
    proof {
        if n < base {
            vstd::arithmetic::div_mod::lemma_small_mod(n as nat, base as nat);
        }
        assert(s@ =~= old(s)@ + digits(n as nat, base as nat));
    }
}

/// Appends `n` in decimal.
pub fn push_decimal(s: &mut String, n: u64)
    ensures
        final(s)@ == old(s)@ + decimal(n as nat),
{
    push_digits(s, n, 10);
}

/// Appends `n` in decimal, with its sign.
pub fn push_signed(s: &mut String, n: i64)
    requires
        n > i64::MIN,
    ensures
        final(s)@ == old(s)@ + signed_decimal(n as int),
{
    if n < 0 {
        s.push('-');
        push_decimal(s, (-n) as u64);
        proof {
            assert(s@ =~= old(s)@ + signed_decimal(n as int));
        }
    } else {
        push_decimal(s, n as u64);
    }
}

/// Appends the digits of `n` behind zeros, `width` characters at least.
pub fn push_padded(s: &mut String, n: u64, base: u64, width: usize)
    requires
        2 <= base <= 16,
    ensures
        final(s)@ == old(s)@ + padded(digits(n as nat, base as nat), width as nat),
{
    let mut plain: String = String::new();
    push_digits(&mut plain, n, base);
    let len: usize = plain.as_str().unicode_len();
    let ghost start = s@;
    if len < width {
        let mut i: usize = 0;
        let fill: usize = width - len;
        while i < fill
            invariant
                i <= fill,
                s@ == start + Seq::new(i as nat, |j: int| '0'),
            decreases fill - i,
        {
            s.push('0');
            i = i + 1;
            proof {
                assert(s@ =~= start + Seq::new(i as nat, |j: int| '0'));
            }
        }
    }
    s.append(plain.as_str());
    proof {
        assert(plain@ =~= digits(n as nat, base as nat));
        assert(s@ =~= start + padded(digits(n as nat, base as nat), width as nat));
    }
}

} // verus!
