//! How amounts are written.
use vstd::prelude::*;
use crate::money::{Money, MoneyV};
use crate::numbers::pow10;
use crate::rational::abs;
use crate::text::{decimal_digits, digit_char, string_from_chars};

verus! {

/// `n / d` rounded toward zero.
pub open spec fn trunc_div(n: int, d: int) -> int {
    if n >= 0 {
        n / d
    } else {
        -((-n) / d)
    }
}

/// The first `p` decimals of the fraction of `n / d`, from its first `p + 1`
/// decimals: the last of them rounds the others up when it is 5 or more.
/// It is `10^p` when the rounding carries into the integer part.
pub open spec fn rounded_decimals(n: int, d: int, p: nat) -> nat {
    let r = (abs(n) as int) % d;
    let s = (r * pow10(p + 2) / d) / 10;
    (s / 10 + (if s % 10 >= 5 { 1int } else { 0int })) as nat
}

/// The rounding carries: the decimals are written with one digit more than
/// `p`. With `p == 0` this is always so.
pub open spec fn carries(n: int, d: int, p: nat) -> bool {
    decimal_digits(rounded_decimals(n, d, p)).len() == p + 1
}

/// An integer in decimal, with a minus sign when negative.
pub open spec fn integer_text(i: int) -> Seq<char> {
    if i < 0 {
        seq!['-'] + decimal_digits((-i) as nat)
    } else {
        decimal_digits(i as nat)
    }
}

/// `x` in decimal, with zeros in front up to `w` digits.
pub open spec fn zero_padded(x: nat, w: nat) -> Seq<char> {
    let ds = decimal_digits(x);
    if ds.len() < w {
        Seq::new((w - ds.len()) as nat, |i: int| '0') + ds
    } else {
        ds
    }
}

/// `n / d` written with `p` decimals: the integer part (truncated, its sign
/// lost when it is zero), a point, the rounded decimals. A carry moves the
/// integer part one away from zero when it is positive, one down otherwise,
/// and leaves the decimals zero.
pub open spec fn amount_text(n: int, d: int, p: nat) -> Seq<char> {
    let ip = trunc_div(n, d);
    let c = carries(n, d, p);
    let ip2 = if c {
        if ip > 0 {
            ip + 1
        } else {
            ip - 1
        }
    } else {
        ip
    };
    let dec = if c {
        0
    } else {
        rounded_decimals(n, d, p)
    };
    integer_text(ip2) + seq!['.'] + zero_padded(dec, p)
}

/// A money written with `p` decimals and its commodity's name after a space;
/// `Zero` is `0`.
pub open spec fn money_text(m: MoneyV, p: nat) -> Seq<char> {
    match m.0 {
        Some(c) => amount_text(m.1.0, m.1.1, p) + seq![' '] + c.name@,
        None => seq!['0'],
    }
}

fn digit_of(d: u128) -> (res: char)
    requires
        d < 10,
    ensures
        res == digit_char(d as nat),
{
    if d == 0 { '0' } else if d == 1 { '1' } else if d == 2 { '2' } else if d == 3 { '3' } else if d == 4 {
        '4'
    } else if d == 5 { '5' } else if d == 6 { '6' } else if d == 7 { '7' } else if d == 8 { '8' } else { '9' }
}

fn digits_u128(n: u128) -> (res: Vec<char>)
    ensures
        res@ == decimal_digits(n as nat),
    decreases n,
{
    if n < 10 {
        let mut v = Vec::new();
        v.push(digit_of(n));
        assert(v@ =~= seq![digit_char(n as nat)]);
        v
    } else {
        let mut v = digits_u128(n / 10);
        v.push(digit_of(n % 10));
        v
    }
}

proof fn lemma_pow10_le(i: nat, j: nat)
    requires
        i <= j,
    ensures
        1 <= pow10(i) <= pow10(j),
    decreases j,
{
    if j > i {
        lemma_pow10_le(i, (j - 1) as nat);
    } else if i > 0 {
        lemma_pow10_le((i - 1) as nat, (i - 1) as nat);
    }
}

fn pow10_u128(n: usize) -> (res: u128)
    requires
        n <= 9,
    ensures
        res == pow10(n as nat),
        res <= 1_000_000_000,
{
    proof {
        assert(pow10(9) == 1_000_000_000) by {
            reveal_with_fuel(pow10, 10);
        }
        lemma_pow10_le(n as nat, 9);
    }
    let mut acc: u128 = 1;
    for i in 0..n
        invariant
            n <= 9,
            acc == pow10(i as nat),
    {
        proof {
            lemma_pow10_le(i as nat, 8);
            assert(pow10(8) == 100_000_000) by {
                reveal_with_fuel(pow10, 9);
            }
        }
        acc = acc * 10;
    }
    acc
}

fn amount_parts(n: i64, d: i64, p: usize) -> (res: (u64, u128))
    requires
        d > 0,
        n > i64::MIN,
        p <= 7,
    ensures
        res.0 as int == (abs(n as int) as int) / (d as int),
        res.1 == rounded_decimals(n as int, d as int, p as nat),
{
    let a: u64 = if n >= 0 { n as u64 } else { (-n) as u64 };
    let du: u64 = d as u64;
    let q: u64 = a / du;
    let r: u64 = a % du;
    let pw = pow10_u128(p + 2);
    proof {
        assert((r as int) * (pw as int) <= (du as int) * 1_000_000_000) by (nonlinear_arith)
            requires
                r < du,
                pw <= 1_000_000_000,
        ;
    }
    let prod: u128 = (r as u128) * pw;
    let dp: u128 = prod / (du as u128);
    let s: u128 = dp / 10;
    let dec0: u128 = s / 10 + if s % 10 >= 5 { 1 } else { 0 };
    proof {
        assert(abs(n as int) == a as int);
    }
    (q, dec0)
}

fn push_all(out: &mut Vec<char>, v: &Vec<char>)
    ensures
        final(out)@ == old(out)@ + v@,
{
    for k in 0..v.len()
        invariant
            out@ == old(out)@ + v@.take(k as int),
    {
        out.push(v[k]);
        assert(out@ =~= old(out)@ + v@.take(k + 1));
    }
    assert(v@.take(v@.len() as int) =~= v@);
}

fn padded(x: u128, w: usize) -> (res: Vec<char>)
    ensures
        res@ == zero_padded(x as nat, w as nat),
{
    let ds = digits_u128(x);
    let mut out: Vec<char> = Vec::new();
    if ds.len() < w {
        for k in 0..w - ds.len()
            invariant
                out@ == Seq::new(k as nat, |i: int| '0'),
        {
            out.push('0');
            assert(out@ =~= Seq::new((k + 1) as nat, |i: int| '0'));
        }
    }
    push_all(&mut out, &ds);
    out
}

/// `n / d` written with `p` decimals (see `amount_text`).
pub fn format_amount(n: i64, d: i64, p: usize) -> (res: Vec<char>)
    requires
        d > 0,
        n > i64::MIN,
        p <= 7,
    ensures
        res@ == amount_text(n as int, d as int, p as nat),
{
    let (q, dec0) = amount_parts(n, d, p);
    let digits = digits_u128(dec0);
    let carry = digits.len() == p + 1;
    let neg = n < 0;
    let ghost ip: int = trunc_div(n as int, d as int);
    let ghost ip2: int = if carry {
        if ip > 0 {
            ip + 1
        } else {
            ip - 1
        }
    } else {
        ip
    };
    assert(neg ==> ip == -(q as int));
    assert(!neg ==> ip == q as int);
    let (mag, minus): (u128, bool) = if carry {
        if !neg && q > 0 {
            (q as u128 + 1, false)
        } else if q == 0 {
            (1, true)
        } else {
            (q as u128 + 1, true)
        }
    } else {
        (q as u128, neg && q > 0)
    };
    assert(minus ==> ip2 < 0 && -ip2 == mag);
    assert(!minus ==> ip2 >= 0 && ip2 == mag);
    let mut out: Vec<char> = Vec::new();
    if minus {
        out.push('-');
    }
    let int_digits = digits_u128(mag);
    push_all(&mut out, &int_digits);
    assert(out@ =~= integer_text(ip2));
    out.push('.');
    let dec: u128 = if carry { 0 } else { dec0 };
    let tail = padded(dec, p);
    push_all(&mut out, &tail);
    out
}

impl Money {
    /// The money written with `decimals` decimals (see `money_text`).
    pub fn to_text(&self, decimals: usize) -> (res: String)
        requires
            decimals <= 7,
        ensures
            res@ == money_text(self@, decimals as nat),
    {
        match self {
            Money::Zero => {
                let mut v = Vec::new();
                v.push('0');
                assert(v@ =~= seq!['0']);
                string_from_chars(v.as_slice())
            },
            Money::Money { amount, currency } => {
                let (n, d) = amount.parts();
                let mut v = format_amount(n, d, decimals);
                v.push(' ');
                let mut s = string_from_chars(v.as_slice());
                s.append(currency.name.as_str());
                s
            },
        }
    }
}

} // verus!
