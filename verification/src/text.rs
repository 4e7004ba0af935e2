//! Characters and strings.
use vstd::prelude::*;

verus! {

/// Unicode `White_Space`, the property that `char::is_whitespace` tests.
pub open spec fn is_ws(c: char) -> bool {
    ||| c == '\t'
    ||| c == '\n'
    ||| c == '\u{0B}'
    ||| c == '\u{0C}'
    ||| c == '\r'
    ||| c == ' '
    ||| c == '\u{85}'
    ||| c == '\u{A0}'
    ||| c == '\u{1680}'
    ||| ('\u{2000}' <= c && c <= '\u{200A}')
    ||| c == '\u{2028}'
    ||| c == '\u{2029}'
    ||| c == '\u{202F}'
    ||| c == '\u{205F}'
    ||| c == '\u{3000}'
}

/// Whether `c` is white space, as `char::is_whitespace` decides.
pub fn is_whitespace(c: char) -> (res: bool)
    ensures
        res == is_ws(c),
{
    c == '\t' || c == '\n' || c == '\u{0B}' || c == '\u{0C}' || c == '\r' || c == ' ' || c
        == '\u{85}' || c == '\u{A0}' || c == '\u{1680}' || ('\u{2000}' <= c && c <= '\u{200A}')
        || c == '\u{2028}' || c == '\u{2029}' || c == '\u{202F}' || c == '\u{205F}' || c
        == '\u{3000}'
}

/// What `char::is_numeric` answers for `c`.
pub uninterp spec fn numeric(c: char) -> bool;

/// Calls `char::is_numeric` (Unicode general categories Nd, Nl and No). The
/// contract names the result and states the one fact the documentation makes
/// plain: among ASCII characters exactly the digits `0`-`9` are numeric.
#[verifier::external_body]
pub(crate) fn is_numeric(c: char) -> (res: bool)
    ensures
        res == numeric(c),
        (c as u32) < 128 ==> (res <==> ('0' <= c && c <= '9')),
{
    c.is_numeric()
}

/// What `str::to_lowercase` returns for a string.
pub uninterp spec fn lowercase(s: Seq<char>) -> Seq<char>;

/// Calls `str::to_lowercase`; the result is named by `lowercase`.
#[verifier::external_body]
pub(crate) fn to_lowercase(s: &str) -> (res: String)
    ensures
        res@ == lowercase(s@),
{
    s.to_lowercase()
}

/// Whether the regular expression `pattern` matches somewhere in `text`, as
/// the `regex` crate decides; `None` when `pattern` is not a valid expression.
pub uninterp spec fn regex_match(pattern: Seq<char>, text: Seq<char>) -> Option<bool>;

/// Compiles `pattern` with `regex::Regex::new` and tests it on `text` with
/// `Regex::is_match`. The result is named by `regex_match`: it depends on the
/// pattern and the text alone.
#[verifier::external_body]
pub(crate) fn pattern_is_match(pattern: &str, text: &str) -> (res: Option<bool>)
    ensures
        res == regex_match(pattern@, text@),
{
    match regex::Regex::new(pattern) {
        Ok(re) => Some(re.is_match(text)),
        Err(_) => None,
    }
}

/// Collects characters into a `String` (`FromIterator<&char> for String`).
#[verifier::external_body]
pub(crate) fn string_from_chars(v: &[char]) -> (res: String)
    ensures
        res@ == v@,
{
    v.iter().collect()
}

/// The characters of a string, in order.
pub fn chars_of(s: &str) -> (res: Vec<char>)
    ensures
        res@ == s@,
{
    let mut v: Vec<char> = Vec::new();
    for c in it: s.chars()
        invariant
            v@ == it.seq().take(it.index() as int),
            it.seq() == s@,
    {
        v.push(c);
    }
    v
}

/// `s` without its leading white space.
pub open spec fn ltrim(s: Seq<char>) -> Seq<char>
    decreases s.len(),
{
    if s.len() > 0 && is_ws(s[0]) {
        ltrim(s.drop_first())
    } else {
        s
    }
}

/// `s` without its trailing white space.
pub open spec fn rtrim(s: Seq<char>) -> Seq<char>
    decreases s.len(),
{
    if s.len() > 0 && is_ws(s.last()) {
        rtrim(s.drop_last())
    } else {
        s
    }
}

/// `s` without leading and trailing white space, as `str::trim` returns it.
pub open spec fn trim(s: Seq<char>) -> Seq<char> {
    rtrim(ltrim(s))
}

/// `s` with leading and trailing white space removed.
pub fn trim_str(s: &str) -> (res: &str)
    ensures
        res@ == trim(s@),
{
    let chars = chars_of(s);
    let n = chars.len();
    let mut i: usize = 0;
    assert(s@.subrange(0, n as int) =~= s@);
    while i < n && is_whitespace(chars[i])
        invariant
            i <= n,
            n == s@.len(),
            chars@ == s@,
            ltrim(s@) == ltrim(s@.subrange(i as int, n as int)),
        decreases n - i,
    {
        assert(s@.subrange(i as int, n as int).drop_first() =~= s@.subrange(i + 1, n as int));
        i = i + 1;
    }
    assert(ltrim(s@) == s@.subrange(i as int, n as int));
    let mut j: usize = n;
    while j > i && is_whitespace(chars[j - 1])
        invariant
            i <= j <= n,
            n == s@.len(),
            chars@ == s@,
            trim(s@) == rtrim(s@.subrange(i as int, j as int)),
        decreases j,
    {
        assert(s@.subrange(i as int, j as int).drop_last() =~= s@.subrange(i as int, j - 1));
        j = j - 1;
    }
    s.substring_char(i, j)
}

/// Whether two strings hold the same characters.
pub fn str_eq(a: &str, b: &str) -> (res: bool)
    ensures
        res == (a@ == b@),
{
    let x = chars_of(a);
    let y = chars_of(b);
    if x.len() != y.len() {
        return false;
    }
    let n = x.len();
    for i in 0..n
        invariant
            n == x@.len(),
            n == y@.len(),
            x@ == a@,
            y@ == b@,
            forall|j: int| 0 <= j < i ==> x@[j] == y@[j],
    {
        if x[i] != y[i] {
            return false;
        }
    }
    assert(x@ =~= y@);
    true
}

/// `needle` occurs in `hay` at position `i`.
pub open spec fn occurs_at(hay: Seq<char>, needle: Seq<char>, i: int) -> bool {
    0 <= i && i + needle.len() <= hay.len() && hay.subrange(i, i + needle.len()) == needle
}

/// `needle` occurs somewhere in `hay`.
pub open spec fn contains_str(hay: Seq<char>, needle: Seq<char>) -> bool {
    exists|i: int| occurs_at(hay, needle, i)
}

fn occurs_at_exec(h: &Vec<char>, nd: &Vec<char>, i: usize) -> (res: bool)
    requires
        i + nd@.len() <= h@.len(),
    ensures
        res == occurs_at(h@, nd@, i as int),
{
    let m = nd.len();
    for j in 0..m
        invariant
            m == nd@.len(),
            i + m <= h.len(),
            forall|q: int| 0 <= q < j ==> h@[i + q] == nd@[q],
    {
        if h[i + j] != nd[j] {
            proof {
                if occurs_at(h@, nd@, i as int) {
                    assert(h@.subrange(i as int, i + nd@.len())[j as int] == nd@[j as int]);
                }
            }
            return false;
        }
    }
    assert(h@.subrange(i as int, i + nd@.len()) =~= nd@);
    true
}

/// Whether `needle` occurs in `hay` (what `str::find` answers with `Some`).
pub fn find_str(hay: &str, needle: &str) -> (res: bool)
    ensures
        res == contains_str(hay@, needle@),
{
    let h = chars_of(hay);
    let nd = chars_of(needle);
    if nd.len() > h.len() {
        proof {
            assert forall|i: int| !occurs_at(hay@, needle@, i) by {}
        }
        return false;
    }
    let last = h.len() - nd.len();
    for i in 0..last
        invariant
            h@ == hay@,
            nd@ == needle@,
            last == h@.len() - nd@.len(),
            forall|k: int| 0 <= k < i ==> !occurs_at(hay@, needle@, k),
    {
        if occurs_at_exec(&h, &nd, i) {
            return true;
        }
    }
    let r = occurs_at_exec(&h, &nd, last);
    proof {
        if !r {
            assert forall|k: int| !occurs_at(hay@, needle@, k) by {
                if 0 <= k && k + needle@.len() <= hay@.len() {
                    assert(k <= last);
                }
            }
        }
    }
    r
}

/// The decimal digits of `n`.
pub open spec fn decimal_digits(n: nat) -> Seq<char>
    decreases n,
{
    if n < 10 {
        seq![digit_char(n)]
    } else {
        decimal_digits(n / 10).push(digit_char(n % 10))
    }
}

pub open spec fn digit_char(d: nat) -> char {
    if d == 0 { '0' } else if d == 1 { '1' } else if d == 2 { '2' } else if d == 3 { '3' } else if d == 4 {
        '4'
    } else if d == 5 { '5' } else if d == 6 { '6' } else if d == 7 { '7' } else if d == 8 { '8' } else { '9' }
}

fn digit_char_exec(d: usize) -> (res: char)
    requires
        d < 10,
    ensures
        res == digit_char(d as nat),
{
    if d == 0 { '0' } else if d == 1 { '1' } else if d == 2 { '2' } else if d == 3 { '3' } else if d == 4 {
        '4'
    } else if d == 5 { '5' } else if d == 6 { '6' } else if d == 7 { '7' } else if d == 8 { '8' } else { '9' }
}

fn decimal_vec(n: usize) -> (res: Vec<char>)
    ensures
        res@ == decimal_digits(n as nat),
    decreases n,
{
    if n < 10 {
        let mut v = Vec::new();
        v.push(digit_char_exec(n));
        assert(v@ =~= seq![digit_char(n as nat)]);
        v
    } else {
        let mut v = decimal_vec(n / 10);
        v.push(digit_char_exec(n % 10));
        v
    }
}

/// `n` written in decimal.
pub fn decimal(n: usize) -> (res: String)
    ensures
        res@ == decimal_digits(n as nat),
{
    let v = decimal_vec(n);
    string_from_chars(v.as_slice())
}

} // verus!
