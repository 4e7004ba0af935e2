//! Numbers and dates as they are written in a journal.
use vstd::prelude::*;
use crate::chars::Tokenizer;
use crate::date::{Date, valid_ymd};
use crate::error::{ParserError, ParserErrorV};
use crate::rational::{Rational, normalize};
use crate::text::{is_numeric, numeric};

verus! {

pub open spec fn is_digit(c: char) -> bool {
    '0' <= c && c <= '9'
}

pub open spec fn all_digits(s: Seq<char>) -> bool {
    forall|i: int| 0 <= i < s.len() ==> is_digit(#[trigger] s[i])
}

/// The number written by the decimal digits `s`.
pub open spec fn digits_value(s: Seq<char>) -> int
    decreases s.len(),
{
    if s.len() == 0 {
        0
    } else {
        digits_value(s.drop_last()) * 10 + (s.last() as int - '0' as int)
    }
}

/// The integer written by `s`: digits, with a leading minus for a negative one.
pub open spec fn int_value(s: Seq<char>) -> Option<int> {
    if s.len() > 0 && s[0] == '-' {
        if s.len() > 1 && all_digits(s.drop_first()) {
            Some(-digits_value(s.drop_first()))
        } else {
            None
        }
    } else if s.len() > 0 && all_digits(s) {
        Some(digits_value(s))
    } else {
        None
    }
}

pub open spec fn pow10(n: nat) -> int
    decreases n,
{
    if n == 0 {
        1
    } else {
        10 * pow10((n - 1) as nat)
    }
}

/// Integers an exact amount can hold.
pub open spec fn fits(v: int) -> bool {
    i64::MIN < v <= i64::MAX
}

proof fn lemma_digits_nonneg(s: Seq<char>)
    requires
        all_digits(s),
    ensures
        digits_value(s) >= 0,
    decreases s.len(),
{
    if s.len() > 0 {
        assert(all_digits(s.drop_last())) by {
            assert forall|i: int| 0 <= i < s.drop_last().len() implies is_digit(#[trigger] s.drop_last()[i]) by {
                assert(s.drop_last()[i] == s[i]);
            }
        }
        lemma_digits_nonneg(s.drop_last());
    }
}

/// The value of decimal digits, when it fits in 63 bits.
fn digits_u64(s: &Vec<char>, from: usize) -> (res: Option<u64>)
    requires
        from <= s@.len(),
    ensures
        all_digits(s@.subrange(from as int, s@.len() as int)) && digits_value(s@.subrange(from as int, s@.len() as int))
            <= i64::MAX ==> res == Some(digits_value(s@.subrange(from as int, s@.len() as int)) as u64),
        res matches Some(v) ==> all_digits(s@.subrange(from as int, s@.len() as int)) && v == digits_value(
            s@.subrange(from as int, s@.len() as int),
        ) && v <= i64::MAX,
{
    let mut acc: u64 = 0;
    let n = s.len();
    for i in from..n
        invariant
            n == s@.len(),
            from <= i <= n,
            all_digits(s@.subrange(from as int, i as int)),
            acc == digits_value(s@.subrange(from as int, i as int)),
            acc <= i64::MAX,
    {
        let c = s[i];
        let ghost pre = s@.subrange(from as int, i as int);
        proof {
            assert(s@.subrange(from as int, i + 1).drop_last() =~= pre);
            assert(s@.subrange(from as int, i + 1).last() == c);
        }
        if !('0' <= c && c <= '9') {
            proof {
                assert(!is_digit(s@.subrange(from as int, n as int)[i - from]));
            }
            return None;
        }
        let d: u64 = (c as u32 - '0' as u32) as u64;
        if acc > 922337203685477580 || (acc == 922337203685477580 && d > 7) {
            proof {
                let t = s@.subrange(from as int, n as int);
                assert(is_digit(c));
                assert(digits_value(s@.subrange(from as int, i + 1)) == acc * 10 + d);
                if all_digits(t) {
                    lemma_digits_prefix_bound(t, i + 1 - from);
                    assert(t.take(i + 1 - from) =~= s@.subrange(from as int, i + 1));
                }
            }
            return None;
        }
        acc = acc * 10 + d;
        proof {
            let t = s@.subrange(from as int, i + 1);
            assert forall|k: int| 0 <= k < t.len() implies is_digit(#[trigger] t[k]) by {
                if k < t.len() - 1 {
                    assert(t[k] == pre[k]);
                }
            }
        }
    }
    assert(s@.subrange(from as int, n as int) =~= s@.subrange(from as int, n as int));
    Some(acc)
}

/// A prefix of a digit string never writes a larger number.
proof fn lemma_digits_prefix_bound(t: Seq<char>, k: int)
    requires
        all_digits(t),
        0 <= k <= t.len(),
    ensures
        digits_value(t.take(k)) <= digits_value(t),
    decreases t.len() - k,
{
    if k < t.len() {
        lemma_digits_prefix_bound(t, k + 1);
        assert(t.take(k + 1).drop_last() =~= t.take(k));
        assert(all_digits(t.take(k))) by {
            assert forall|i: int| 0 <= i < t.take(k).len() implies is_digit(#[trigger] t.take(k)[i]) by {
                assert(t.take(k)[i] == t[i]);
            }
        }
        lemma_digits_nonneg(t.take(k));
    } else {
        assert(t.take(k) =~= t);
    }
}

/// The integer written by `s`, when it is one that an amount can hold.
pub fn parse_int(s: &Vec<char>) -> (res: Option<i64>)
    ensures
        res matches Some(v) ==> int_value(s@) == Some(v as int) && fits(v as int),
        res is None ==> (int_value(s@) is None || !fits(int_value(s@).unwrap())),
{
    if s.len() == 0 {
        return None;
    }
    if s[0] == '-' {
        if s.len() == 1 {
            return None;
        }
        proof {
            assert(s@.subrange(1, s@.len() as int) =~= s@.drop_first());
        }
        match digits_u64(s, 1) {
            Some(v) => {
                let r: i64 = v as i64;
                Some(-r)
            },
            None => None,
        }
    } else {
        proof {
            assert(s@.subrange(0, s@.len() as int) =~= s@);
        }
        match digits_u64(s, 0) {
            Some(v) => Some(v as i64),
            None => None,
        }
    }
}

/// Whether `s` writes an integer: digits after an optional minus sign.
pub fn is_int_syntax(s: &Vec<char>) -> (res: bool)
    ensures
        res == (int_value(s@) is Some),
{
    let n = s.len();
    if n == 0 {
        return false;
    }
    let start: usize = if s[0] == '-' {
        1
    } else {
        0
    };
    if start == n {
        return false;
    }
    for i in start..n
        invariant
            n == s@.len(),
            start <= i <= n,
            start < n,
            start == (if s@[0] == '-' { 1int } else { 0int }),
            forall|k: int| start <= k < i ==> is_digit(#[trigger] s@[k]),
    {
        if !('0' <= s[i] && s[i] <= '9') {
            proof {
                if start == 1 {
                    assert(!is_digit(s@.drop_first()[i - 1]));
                } else {
                    assert(!is_digit(s@[i as int]));
                }
            }
            return false;
        }
    }
    proof {
        if start == 1 {
            assert forall|k: int| 0 <= k < s@.drop_first().len() implies is_digit(#[trigger] s@.drop_first()[k]) by {
                assert(s@.drop_first()[k] == s@[k + 1]);
            }
        }
    }
    true
}

/// `10^n`, when it fits in 63 bits.
pub fn pow10_i64(n: usize) -> (res: Option<i64>)
    ensures
        res matches Some(v) ==> v == pow10(n as nat) && v > 0,
        pow10(n as nat) <= i64::MAX ==> res is Some,
{
    let mut acc: i64 = 1;
    for i in 0..n
        invariant
            acc == pow10(i as nat),
            acc > 0,
    {
        if acc > 922337203685477580 {
            proof {
                lemma_pow10_mono(i as nat + 1, n as nat);
            }
            return None;
        }
        acc = acc * 10;
    }
    Some(acc)
}

proof fn lemma_pow10_mono(a: nat, b: nat)
    requires
        a <= b,
    ensures
        pow10(a) <= pow10(b),
        pow10(a) > 0,
    decreases b,
{
    if b > a {
        lemma_pow10_mono(a, (b - 1) as nat);
    } else if a > 0 {
        lemma_pow10_mono((a - 1) as nat, (a - 1) as nat);
    }
}

/// The scan of an amount from position `i`: where it stopped and, unless a
/// second decimal point stopped it, the digits and minus signs read with
/// the number of digits after the point.
pub open spec fn amount_scan(content: Seq<char>, i: int, decimal: bool, num: Seq<char>, scale: nat) -> (int, Option<
    (Seq<char>, nat),
>)
    decreases content.len() - i,
{
    if i < 0 || i >= content.len() {
        (i, Some((num, scale)))
    } else {
        let c = content[i];
        if c == '.' {
            if decimal {
                (i, None)
            } else {
                amount_scan(content, i + 1, true, num, scale)
            }
        } else if c == '-' || numeric(c) {
            amount_scan(content, i + 1, decimal, num.push(c), if decimal {
                scale + 1
            } else {
                scale
            })
        } else {
            (i, Some((num, scale)))
        }
    }
}

/// The scan of an amount never moves backwards or past the end.
pub proof fn lemma_amount_scan(content: Seq<char>, i: int, decimal: bool, num: Seq<char>, scale: nat)
    requires
        0 <= i <= content.len(),
    ensures
        i <= amount_scan(content, i, decimal, num, scale).0 <= content.len(),
    decreases content.len() - i,
{
    if i < content.len() {
        let c = content[i];
        if c == '.' {
            if !decimal {
                lemma_amount_scan(content, i + 1, true, num, scale);
            }
        } else if c == '-' || numeric(c) {
            lemma_amount_scan(content, i + 1, decimal, num.push(c), if decimal {
                scale + 1
            } else {
                scale
            });
        }
    }
}

/// What `parse_amount` gives for a scan result.
pub open spec fn amount_result(r: Option<(Seq<char>, nat)>) -> Result<(int, int), ParserErrorV> {
    match r {
        None => Err(ParserErrorV::UnexpectedInput(Some("Too many decimal separators"@))),
        Some((num, scale)) => match int_value(num) {
            None => Err(ParserErrorV::UnexpectedInput(Some("Wrong number format"@))),
            Some(v) => if fits(v) && pow10(scale) <= i64::MAX {
                Ok(normalize(v, pow10(scale)))
            } else {
                Err(ParserErrorV::Overflow)
            },
        },
    }
}

/// Reads an amount such as `-12.50`: digits and minus signs with at most
/// one decimal point. The amount is exact: `12.50` is `1250/100`.
pub fn parse_amount(tokenizer: &mut Tokenizer) -> (res: Result<Rational, ParserError>)
    requires
        old(tokenizer).wf(),
    ensures
        final(tokenizer).wf(),
        final(tokenizer).moved_from(*old(tokenizer)),
        ({
            let (e, r) = amount_scan(old(tokenizer).content@, old(tokenizer).position as int, false, Seq::empty(), 0);
            &&& final(tokenizer).position == e
            &&& match (res, amount_result(r)) {
                (Ok(a), Ok(v)) => a.view() == v,
                (Err(x), Err(y)) => x.view() == y,
                _ => false,
            }
        }),
{
    let ghost c = tokenizer.content@;
    let ghost p0 = tokenizer.position as int;
    let mut num: Vec<char> = Vec::new();
    let mut scale: usize = 0;
    let mut decimal = false;
    let mut stopped = false;
    while !stopped && tokenizer.position < tokenizer.content.len()
        invariant
            tokenizer.wf(),
            c == tokenizer.content@,
            tokenizer.content@ == old(tokenizer).content@,
            tokenizer.file == old(tokenizer).file,
            tokenizer.seen_files@ == old(tokenizer).seen_files@,
            p0 == old(tokenizer).position,
            p0 <= tokenizer.position,
            scale <= tokenizer.position - p0,
            tokenizer.line_index == old(tokenizer).line_index,
            tokenizer.line_position == old(tokenizer).line_position + (tokenizer.position - p0),
            forall|j: int| p0 <= j < tokenizer.position ==> c[j] != '\n',
            !decimal ==> scale == 0,
            amount_scan(c, p0, false, Seq::empty(), 0) == (if stopped {
                (tokenizer.position as int, Some((num@, scale as nat)))
            } else {
                amount_scan(c, tokenizer.position as int, decimal, num@, scale as nat)
            }),
        decreases c.len() - tokenizer.position, if stopped { 0int } else { 1int },
    {
        let ch = tokenizer.content[tokenizer.position];
        if ch == '.' {
            if decimal {
                proof {
                    crate::chars::lemma_advance_no_newline(c, p0, p0, tokenizer.position as int, old(tokenizer).line_index as int, old(tokenizer).line_position as int);
                }
                return Err(ParserError::UnexpectedInput(Some(String::from_str("Too many decimal separators"))));
            }
            decimal = true;
        } else if ch == '-' || is_numeric(ch) {
            num.push(ch);
            if decimal {
                scale = scale + 1;
            }
        } else {
            stopped = true;
        }
        if !stopped {
            tokenizer.position = tokenizer.position + 1;
            tokenizer.line_position = tokenizer.line_position + 1;
        }
    }
    proof {
        crate::chars::lemma_advance_no_newline(c, p0, p0, tokenizer.position as int, old(tokenizer).line_index as int, old(tokenizer).line_position as int);
    }
    let n = match parse_int(&num) {
        Some(n) => n,
        None => {
            if !is_int_syntax(&num) {
                return Err(ParserError::UnexpectedInput(Some(String::from_str("Wrong number format"))));
            } else {
                return Err(ParserError::Overflow);
            }
        },
    };
    let d = match pow10_i64(scale) {
        Some(d) => d,
        None => {
            return Err(ParserError::Overflow);
        },
    };
    match Rational::new(n, d) {
        Some(r) => Ok(r),
        None => {
            proof {
                crate::rational::lemma_normalize_numer_bound(n as int, d as int);
            }
            Err(ParserError::Overflow)
        },
    }
}

/// `yyyy-mm-dd` or `yyyy/mm/dd` at the start of `s`, with one separator.
pub open spec fn date_shape(s: Seq<char>) -> bool {
    &&& s.len() >= 10
    &&& all_digits(s.subrange(0, 4))
    &&& all_digits(s.subrange(5, 7))
    &&& all_digits(s.subrange(8, 10))
    &&& (s[4] == '-' || s[4] == '/')
    &&& s[7] == s[4]
}

/// The date written at the start of `s`, if it is one.
pub open spec fn date_value(s: Seq<char>) -> Option<(int, int, int)> {
    if date_shape(s) {
        let y = digits_value(s.subrange(0, 4));
        let m = digits_value(s.subrange(5, 7));
        let d = digits_value(s.subrange(8, 10));
        if valid_ymd(y, m, d) {
            Some((y, m, d))
        } else {
            None
        }
    } else {
        None
    }
}

fn digits_small(s: &Vec<char>, from: usize, to: usize) -> (res: Option<u32>)
    requires
        from <= to <= s@.len(),
        to - from <= 4,
    ensures
        all_digits(s@.subrange(from as int, to as int)) <==> res is Some,
        res matches Some(v) ==> v == digits_value(s@.subrange(from as int, to as int)) && v < pow10(
            (to - from) as nat,
        ),
{
    let mut acc: u32 = 0;
    for i in from..to
        invariant
            from <= i <= to,
            to <= s@.len(),
            to - from <= 4,
            all_digits(s@.subrange(from as int, i as int)),
            acc == digits_value(s@.subrange(from as int, i as int)),
            acc < pow10((i - from) as nat),
    {
        let c = s[i];
        let ghost pre = s@.subrange(from as int, i as int);
        proof {
            assert(s@.subrange(from as int, i + 1).drop_last() =~= pre);
        }
        if !('0' <= c && c <= '9') {
            proof {
                assert(!is_digit(s@.subrange(from as int, to as int)[i - from]));
            }
            return None;
        }
        proof {
            assert(pow10((i + 1 - from) as nat) == 10 * pow10((i - from) as nat));
            assert(pow10((i - from) as nat) <= 1000) by {
                reveal_with_fuel(pow10, 5);
            }
        }
        acc = acc * 10 + (c as u32 - '0' as u32);
        proof {
            let t = s@.subrange(from as int, i + 1);
            assert forall|k: int| 0 <= k < t.len() implies is_digit(#[trigger] t[k]) by {
                if k < t.len() - 1 {
                    assert(t[k] == pre[k]);
                }
            }
        }
    }
    Some(acc)
}

/// Reads the date at the start of `s`: four digits, a separator (`-` or
/// `/`), two digits, the same separator and two digits, naming an existing
/// day. Anything else is unexpected input.
pub fn parse_date(s: &Vec<char>) -> (res: Result<Date, ParserError>)
    ensures
        match date_value(s@) {
            Some((y, m, d)) => res matches Ok(r) && r.year == y && r.month == m && r.day == d,
            None => res == Err::<Date, ParserError>(ParserError::UnexpectedInput(None)),
        },
{
    if s.len() < 10 {
        return Err(ParserError::UnexpectedInput(None));
    }
    let sep = s[4];
    if !((sep == '-' || sep == '/') && s[7] == sep) {
        return Err(ParserError::UnexpectedInput(None));
    }
    let y = match digits_small(s, 0, 4) {
        Some(v) => v,
        None => {
            return Err(ParserError::UnexpectedInput(None));
        },
    };
    let m = match digits_small(s, 5, 7) {
        Some(v) => v,
        None => {
            return Err(ParserError::UnexpectedInput(None));
        },
    };
    let d = match digits_small(s, 8, 10) {
        Some(v) => v,
        None => {
            return Err(ParserError::UnexpectedInput(None));
        },
    };
    assert(pow10(4) == 10000) by {
        reveal_with_fuel(pow10, 5);
    }
    assert(y < 10000);
    match Date::from_ymd_opt(y as i32, m, d) {
        Some(r) => Ok(r),
        None => Err(ParserError::UnexpectedInput(None)),
    }
}

} // verus!
