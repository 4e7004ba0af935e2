//! What the command line reads: dates, the options of a configuration file,
//! and columns that must fit a width.
use vstd::prelude::*;
use crate::date::{Date, valid_ymd};
use crate::error::TimeParseError;
use crate::numbers::{all_digits, digits_value, is_digit};
use crate::text::{chars_of, is_whitespace, is_ws, ltrim, str_eq, string_from_chars};
use vstd::string::StringSliceAdditionalSpecFns;

verus! {

/// How a date on the command line is written.
#[derive(Debug, Copy, Clone, PartialEq, Eq, Structural)]
pub enum DateText {
    /// It ends with `yyyy-m-d` (or with `/`), month and day of one or two digits.
    Day(i32, u32, u32),
    /// It ends with `yyyy-m` (or with `/`).
    Month(i32, u32),
    /// Anything else, for the natural language reader.
    Other,
}

/// How a command line date is written, with its numbers as integers.
pub enum DateTextV {
    Day(int, int, int),
    Month(int, int),
    Other,
}

impl DateText {
    pub open spec fn view(&self) -> DateTextV {
        match self {
            DateText::Day(y, m, d) => DateTextV::Day(*y as int, *m as int, *d as int),
            DateText::Month(y, m) => DateTextV::Month(*y as int, *m as int),
            DateText::Other => DateTextV::Other,
        }
    }
}

/// `s[i..]` is `yyyy`, a separator and one or two digits (`k` is the
/// position of the separator).
pub open spec fn year_month_at(s: Seq<char>, i: int) -> bool {
    &&& 0 <= i
    &&& (s.len() - i == 6 || s.len() - i == 7)
    &&& all_digits(s.subrange(i, i + 4))
    &&& (s[i + 4] == '-' || s[i + 4] == '/')
    &&& all_digits(s.subrange(i + 5, s.len() as int))
}

/// `s[i..]` is `yyyy`, a separator, one or two digits, a separator, one or
/// two digits; `j` is the position of the second separator.
pub open spec fn full_date_at(s: Seq<char>, i: int, j: int) -> bool {
    &&& 0 <= i
    &&& (j == i + 6 || j == i + 7)
    &&& (s.len() - j == 2 || s.len() - j == 3)
    &&& all_digits(s.subrange(i, i + 4))
    &&& (s[i + 4] == '-' || s[i + 4] == '/')
    &&& all_digits(s.subrange(i + 5, j))
    &&& (s[j] == '-' || s[j] == '/')
    &&& all_digits(s.subrange(j + 1, s.len() as int))
}

/// How a command line date is written: the regular expressions
/// `(\d{4})[/-](\d\d?)[/-](\d\d?)$`, then `(\d{4})[/-](\d\d?)$` (at most
/// one suffix of the string has each shape).
pub open spec fn date_text(s: Seq<char>) -> DateTextV {
    if exists|i: int, j: int| full_date_at(s, i, j) {
        let (i, j) = choose|i: int, j: int| full_date_at(s, i, j);
        DateTextV::Day(
            digits_value(s.subrange(i, i + 4)),
            digits_value(s.subrange(i + 5, j)),
            digits_value(s.subrange(j + 1, s.len() as int)),
        )
    } else if exists|i: int| year_month_at(s, i) {
        let i = choose|i: int| year_month_at(s, i);
        DateTextV::Month(digits_value(s.subrange(i, i + 4)), digits_value(s.subrange(i + 5, s.len() as int)))
    } else {
        DateTextV::Other
    }
}

fn digits_at(s: &Vec<char>, from: usize, to: usize) -> (res: Option<u32>)
    requires
        from <= to <= s@.len(),
        to - from <= 4,
    ensures
        all_digits(s@.subrange(from as int, to as int)) <==> res is Some,
        res matches Some(v) ==> v == digits_value(s@.subrange(from as int, to as int)) && v < 10000,
{
    let mut acc: u32 = 0;
    for i in from..to
        invariant
            from <= i <= to,
            to <= s@.len(),
            to - from <= 4,
            all_digits(s@.subrange(from as int, i as int)),
            acc == digits_value(s@.subrange(from as int, i as int)),
            acc < crate::numbers::pow10((i - from) as nat),
    {
        let c = s[i];
        let ghost pre = s@.subrange(from as int, i as int);
        proof {
            assert(s@.subrange(from as int, i + 1).drop_last() =~= pre);
        }
        if !('0' <= c && c <= '9') {
            proof {
                assert(!is_digit(s@.subrange(from as int, to as int)[i - from]));
            }
            return None;
        }
        proof {
            assert(crate::numbers::pow10((i + 1 - from) as nat) == 10 * crate::numbers::pow10((i - from) as nat));
            assert(crate::numbers::pow10((i - from) as nat) <= 1000) by {
                reveal_with_fuel(crate::numbers::pow10, 5);
            }
        }
        acc = acc * 10 + (c as u32 - '0' as u32);
        proof {
            assert(crate::numbers::pow10((i + 1 - from) as nat) <= 10000) by {
                reveal_with_fuel(crate::numbers::pow10, 5);
            }
            let t = s@.subrange(from as int, i + 1);
            assert forall|k: int| 0 <= k < t.len() implies is_digit(#[trigger] t[k]) by {
                if k < t.len() - 1 {
                    assert(t[k] == pre[k]);
                }
            }
        }
    }
    assert(crate::numbers::pow10((to - from) as nat) <= 10000) by {
        reveal_with_fuel(crate::numbers::pow10, 5);
    }
    Some(acc)
}

proof fn lemma_full_date_unique(s: Seq<char>, i1: int, j1: int, i2: int, j2: int)
    requires
        full_date_at(s, i1, j1),
        full_date_at(s, i2, j2),
    ensures
        i1 == i2 && j1 == j2,
{
    let n = s.len() as int;
    if j1 != j2 {
        if j1 < j2 {
            assert(s.subrange(j1 + 1, n)[j2 - j1 - 1] == s[j2]);
        } else {
            assert(s.subrange(j2 + 1, n)[j1 - j2 - 1] == s[j1]);
        }
    }
    if i1 != i2 {
        if i1 < i2 {
            assert(s.subrange(i2 + 5, j2)[0] == s[i2 + 5]);
            assert(s.subrange(i1 + 5, j1)[i2 + 4 - (i1 + 5)] == s[i2 + 4]);
        } else {
            assert(s.subrange(i2 + 5, j2)[i1 + 4 - (i2 + 5)] == s[i1 + 4]);
        }
    }
}

proof fn lemma_year_month_unique(s: Seq<char>, i1: int, i2: int)
    requires
        year_month_at(s, i1),
        year_month_at(s, i2),
    ensures
        i1 == i2,
{
    let n = s.len() as int;
    if i1 < i2 {
        assert(s.subrange(i1 + 5, n)[i2 + 4 - (i1 + 5)] == s[i2 + 4]);
    } else if i2 < i1 {
        assert(s.subrange(i2 + 5, n)[i1 + 4 - (i2 + 5)] == s[i1 + 4]);
    }
}

fn full_date_exec(s: &Vec<char>, i: usize, j: usize) -> (res: Option<(u32, u32, u32)>)
    requires
        i <= j <= s@.len(),
    ensures
        match res {
            Some((y, m, d)) => full_date_at(s@, i as int, j as int) && y == digits_value(s@.subrange(i as int, i + 4))
                && m == digits_value(s@.subrange(i + 5, j as int)) && d == digits_value(s@.subrange(j + 1, s@.len() as int))
                && y < 10000 && m < 10000 && d < 10000,
            None => !full_date_at(s@, i as int, j as int),
        },
{
    let n = s.len();
    if !(j - i == 6 || j - i == 7) || j >= n || !(n - j == 2 || n - j == 3) {
        return None;
    }
    if !(s[i + 4] == '-' || s[i + 4] == '/') || !(s[j] == '-' || s[j] == '/') {
        return None;
    }
    let y = match digits_at(s, i, i + 4) {
        Some(v) => v,
        None => {
            return None;
        },
    };
    let m = match digits_at(s, i + 5, j) {
        Some(v) => v,
        None => {
            return None;
        },
    };
    let d = match digits_at(s, j + 1, n) {
        Some(v) => v,
        None => {
            return None;
        },
    };
    Some((y, m, d))
}

fn year_month_exec(s: &Vec<char>, i: usize) -> (res: Option<(u32, u32)>)
    requires
        i <= s@.len(),
    ensures
        match res {
            Some((y, m)) => year_month_at(s@, i as int) && y == digits_value(s@.subrange(i as int, i + 4))
                && m == digits_value(s@.subrange(i + 5, s@.len() as int)) && y < 10000 && m < 10000,
            None => !year_month_at(s@, i as int),
        },
{
    let n = s.len();
    if !(n - i == 6 || n - i == 7) {
        return None;
    }
    if !(s[i + 4] == '-' || s[i + 4] == '/') {
        return None;
    }
    let y = match digits_at(s, i, i + 4) {
        Some(v) => v,
        None => {
            return None;
        },
    };
    let m = match digits_at(s, i + 5, n) {
        Some(v) => v,
        None => {
            return None;
        },
    };
    Some((y, m))
}

/// How the command line date `s` is written (see `date_text`).
pub fn read_date_text(date: &str) -> (res: DateText)
    ensures
        res.view() == date_text(date@),
{
    let s = chars_of(date);
    let n = s.len();
    for jd in 2..4usize
        invariant
            n == s@.len(),
            s@ == date@,
            forall|a: int, b: int| 2 <= n - b < jd ==> !full_date_at(s@, a, b),
    {
        if n >= jd {
            let j = n - jd;
            for im in 6..8usize
                invariant
                    n == s@.len(),
            s@ == date@,
                    j == n - jd,
                    forall|a: int, b: int| 2 <= n - b < jd ==> !full_date_at(s@, a, b),
                    forall|a: int| 6 <= j - a < im ==> !full_date_at(s@, a, j as int),
            {
                if j >= im {
                    let i = j - im;
                    match full_date_exec(&s, i, j) {
                        Some((y, m, d)) => {
                            proof {
                                let (a, b) = choose|a: int, b: int| full_date_at(s@, a, b);
                                lemma_full_date_unique(s@, a, b, i as int, j as int);
                            }
                            return DateText::Day(y as i32, m, d);
                        },
                        None => {},
                    }
                }
            }
        }
    }
    proof {
        assert forall|a: int, b: int| !full_date_at(s@, a, b) by {
            if full_date_at(s@, a, b) {
                assert(2 <= n - b < 4);
            }
        }
    }
    for im in 6..8usize
        invariant
            n == s@.len(),
            s@ == date@,
            forall|a: int, b: int| !full_date_at(s@, a, b),
            forall|a: int| 6 <= n - a < im ==> !year_month_at(s@, a),
    {
        if n >= im {
            let i = n - im;
            match year_month_exec(&s, i) {
                Some((y, m)) => {
                    proof {
                        assert(year_month_at(s@, i as int));
                        let a = choose|a: int| year_month_at(s@, a);
                        lemma_year_month_unique(s@, a, i as int);
                    }
                    return DateText::Month(y as i32, m);
                },
                None => {},
            }
        }
    }
    proof {
        assert forall|a: int| !year_month_at(s@, a) by {
            if year_month_at(s@, a) {
                assert(6 <= n - a < 8);
            }
        }
    }
    DateText::Other
}

/// Reads a date given on the command line: `2010-5-3` (or with `/`), a
/// month `2010-09` (its first day), or a phrase (such as `2010` or
/// `yesterday`), for which `phrase_date` is the year, month and day that a
/// natural language reader found, if it found one. A day that does not
/// exist is refused.
pub fn date_parser(date: &str, phrase_date: Option<(i32, u32, u32)>) -> (res: Result<Date, TimeParseError>)
    ensures
        match date_text(date@) {
            DateTextV::Day(y, m, d) => if valid_ymd(y, m, d) {
                res matches Ok(r) && r.year == y && r.month == m && r.day == d
            } else {
                res is Err
            },
            DateTextV::Month(y, m) => if valid_ymd(y, m, 1) {
                res matches Ok(r) && r.year == y && r.month == m && r.day == 1
            } else {
                res is Err
            },
            DateTextV::Other => match phrase_date {
                Some((y, m, d)) => if valid_ymd(y as int, m as int, d as int) {
                    res matches Ok(r) && r.year == y && r.month == m && r.day == d
                } else {
                    res is Err
                },
                None => res is Err,
            },
        },
{
    match read_date_text(date) {
        DateText::Day(y, m, d) => match Date::from_ymd_opt(y, m, d) {
            Some(r) => Ok(r),
            None => Err(TimeParseError),
        },
        DateText::Month(y, m) => match Date::from_ymd_opt(y, m, 1) {
            Some(r) => Ok(r),
            None => Err(TimeParseError),
        },
        DateText::Other => match phrase_date {
            Some((y, m, d)) => match Date::from_ymd_opt(y, m, d) {
                Some(r) => Ok(r),
                None => Err(TimeParseError),
            },
            None => Err(TimeParseError),
        },
    }
}

/// `s` cut to `width`: unchanged when shorter than `width - 3` bytes, else
/// its first `width - 3` characters and `..`.
pub fn clip(string: &str, width: usize) -> (res: String)
    requires
        width >= 3,
    ensures
        string.len() < width - 3 ==> res@ == string@,
        string.len() >= width - 3 ==> res@ == string@.take(
            if string@.len() < width - 3 { string@.len() as int } else { width - 3 },
        ) + ".."@,
{
    if string.len() < width - 3 {
        return String::from_str(string);
    }
    let chars = chars_of(string);
    let limit = if chars.len() < width - 3 { chars.len() } else { width - 3 };
    let mut ret: Vec<char> = Vec::new();
    for i in 0..limit
        invariant
            limit <= chars@.len(),
            ret@ == chars@.take(i as int),
    {
        ret.push(chars[i]);
        assert(ret@ =~= chars@.take(i + 1));
    }
    let mut out = string_from_chars(ret.as_slice());
    out.append("..");
    out
}


/// The words of `s` so far, and the word being read, as
/// `str::split_whitespace` goes along `s`.
pub open spec fn words_acc(s: Seq<char>) -> (Seq<Seq<char>>, Seq<char>)
    decreases s.len(),
{
    if s.len() == 0 {
        (Seq::empty(), Seq::empty())
    } else {
        let (ws, cur) = words_acc(s.drop_last());
        if is_ws(s.last()) {
            if cur.len() > 0 {
                (ws.push(cur), Seq::empty())
            } else {
                (ws, cur)
            }
        } else {
            (ws, cur.push(s.last()))
        }
    }
}

/// The words of `s`: its longest runs without white space, in order, as
/// `str::split_whitespace` yields them.
pub open spec fn words(s: Seq<char>) -> Seq<Seq<char>> {
    let (ws, cur) = words_acc(s);
    if cur.len() > 0 {
        ws.push(cur)
    } else {
        ws
    }
}

/// The words joined by single spaces.
pub open spec fn join_words(ws: Seq<Seq<char>>) -> Seq<char>
    decreases ws.len(),
{
    if ws.len() == 0 {
        Seq::empty()
    } else if ws.len() == 1 {
        ws[0]
    } else {
        join_words(ws.drop_last()) + seq![' '] + ws.last()
    }
}

/// The views of a sequence of strings.
pub open spec fn strs_view(v: Seq<String>) -> Seq<Seq<char>> {
    v.map_values(|s: String| s@)
}

/// The views of a sequence of character vectors.
pub open spec fn chars_view(v: Seq<Vec<char>>) -> Seq<Seq<char>> {
    v.map_values(|s: Vec<char>| s@)
}

proof fn lemma_words_nonempty(s: Seq<char>)
    requires
        s.len() > 0,
        !is_ws(s[0]),
    ensures
        words_acc(s).0.len() > 0 || words_acc(s).1.len() > 0,
        words(s).len() > 0,
    decreases s.len(),
{
    if s.len() > 1 {
        lemma_words_nonempty(s.drop_last());
    }
}

/// The words of `s`.
fn words_of(s: &Vec<char>) -> (res: Vec<Vec<char>>)
    ensures
        chars_view(res@) == words(s@),
{
    let mut ws: Vec<Vec<char>> = Vec::new();
    let mut cur: Vec<char> = Vec::new();
    for i in 0..s.len()
        invariant
            (chars_view(ws@), cur@) == words_acc(s@.take(i as int)),
    {
        let c = s[i];
        proof {
            assert(s@.take(i + 1).drop_last() =~= s@.take(i as int));
        }
        if is_whitespace(c) {
            if cur.len() > 0 {
                let ghost old_ws = ws@;
                ws.push(cur);
                cur = Vec::new();
                assert(chars_view(ws@) =~= chars_view(old_ws).push(words_acc(s@.take(i as int)).1));
            }
        } else {
            cur.push(c);
        }
    }
    assert(s@.take(s@.len() as int) =~= s@);
    if cur.len() > 0 {
        let ghost old_ws = ws@;
        ws.push(cur);
        assert(chars_view(ws@) =~= chars_view(old_ws).push(words_acc(s@).1));
    }
    ws
}

/// The words of `ws` after the first, joined by single spaces.
fn join_rest(ws: &Vec<Vec<char>>) -> (res: String)
    requires
        ws@.len() > 0,
    ensures
        res@ == join_words(chars_view(ws@).skip(1)),
{
    let mut out: Vec<char> = Vec::new();
    let n = ws.len();
    let ghost v = chars_view(ws@);
    for k in 1..n
        invariant
            n == ws@.len(),
            v == chars_view(ws@),
            out@ == join_words(v.subrange(1, k as int)),
    {
        proof {
            assert(v.subrange(1, k + 1).drop_last() =~= v.subrange(1, k as int));
        }
        if k > 1 {
            out.push(' ');
        }
        let w = &ws[k];
        let ghost before = out@;
        for m in 0..w.len()
            invariant
                out@ == before + w@.take(m as int),
        {
            out.push(w[m]);
            assert(out@ =~= before + w@.take(m + 1));
        }
        assert(w@.take(w@.len() as int) =~= w@);
        assert(v[k as int] == w@);
        proof {
            if k == 1 {
                assert(v.subrange(1, 2) =~= seq![w@]);
                assert(out@ =~= w@);
            }
        }
    }
    assert(v.subrange(1, n as int) =~= v.skip(1));
    string_from_chars(out.as_slice())
}

/// The long option that a short one on the command line stands for, as far
/// as a configuration file needs it (none: the empty string).
pub open spec fn option_alias(x: Seq<char>) -> Seq<char> {
    if x == "-f"@ {
        "--file"@
    } else if x == "-b"@ {
        "--begin"@
    } else if x == "-d"@ {
        "--depth"@
    } else if x == "-e"@ {
        "--end"@
    } else if x == "-X"@ {
        "--exchange"@
    } else if x == "-p"@ {
        "--period "@
    } else {
        Seq::empty()
    }
}

fn alias_is(x: &str, option: &str) -> (res: bool)
    ensures
        res == (option_alias(x@) == option@),
{
    if str_eq(x, "-f") {
        str_eq(option, "--file")
    } else if str_eq(x, "-b") {
        str_eq(option, "--begin")
    } else if str_eq(x, "-d") {
        str_eq(option, "--depth")
    } else if str_eq(x, "-e") {
        str_eq(option, "--end")
    } else if str_eq(x, "-X") {
        str_eq(option, "--exchange")
    } else if str_eq(x, "-p") {
        str_eq(option, "--period ")
    } else {
        let o = chars_of(option);
        assert(o@.len() == 0 ==> o@ =~= Seq::<char>::empty());
        o.len() == 0
    }
}

/// The argument `x` already gives the option `option`.
pub open spec fn gives_option(x: Seq<char>, option: Seq<char>) -> bool {
    x == option || option_alias(x) == option
}

/// What a configuration file line does to the arguments.
pub enum ConfigOutcome {
    /// The arguments after the line.
    Args(Seq<Seq<char>>),
    /// An option line that does not start with `--`.
    ShortOption(Seq<char>),
    /// A line that is neither an option, a comment nor blank.
    BadLine(Seq<char>),
}

/// One line of a configuration file. A blank line, or one whose first
/// character that is not white space is `;`, `#`, `!` or `%`, changes
/// nothing. One that starts with `--` names an option (its first word) and
/// its value (the other words): both are added unless an argument already
/// gives that option. Any other line is refused.
pub open spec fn config_line(args: Seq<Seq<char>>, line: Seq<char>) -> ConfigOutcome {
    let o = ltrim(line);
    if o.len() == 0 {
        ConfigOutcome::Args(args)
    } else if o[0] == '-' {
        if !(line.len() >= 2 && line[0] == '-' && line[1] == '-') {
            ConfigOutcome::ShortOption(line)
        } else {
            let ws = words(line);
            let option = ws[0];
            if exists|i: int| 0 <= i < args.len() && gives_option(#[trigger] args[i], option) {
                ConfigOutcome::Args(args)
            } else if ws.len() > 1 {
                ConfigOutcome::Args(args.push(option).push(join_words(ws.skip(1))))
            } else {
                ConfigOutcome::Args(args.push(option))
            }
        }
    } else if o[0] == ';' || o[0] == '#' || o[0] == '!' || o[0] == '%' {
        ConfigOutcome::Args(args)
    } else {
        ConfigOutcome::BadLine(line)
    }
}

/// The lines of a configuration file, one after the other, up to the first
/// that is refused.
pub open spec fn config_lines(args: Seq<Seq<char>>, lines: Seq<Seq<char>>) -> ConfigOutcome
    decreases lines.len(),
{
    if lines.len() == 0 {
        ConfigOutcome::Args(args)
    } else {
        match config_lines(args, lines.drop_last()) {
            ConfigOutcome::Args(a) => config_line(a, lines.last()),
            other => other,
        }
    }
}

/// A line of a configuration file that cannot be read.
#[derive(Debug, Clone, PartialEq, Eq)]
pub enum ConfigError {
    /// An option line that does not start with `--` (only long option names
    /// are allowed).
    ShortOption(String),
    /// A line that is neither an option nor a comment.
    BadLine(String),
}

fn parse_config_line(args: &mut Vec<String>, line: &str) -> (res: Result<(), ConfigError>)
    ensures
        match config_line(strs_view(old(args)@), line@) {
            ConfigOutcome::Args(a) => res is Ok && strs_view(final(args)@) == a,
            ConfigOutcome::ShortOption(l) => res matches Err(ConfigError::ShortOption(s)) && s@ == l,
            ConfigOutcome::BadLine(l) => res matches Err(ConfigError::BadLine(s)) && s@ == l,
        },
{
    let chars = chars_of(line);
    let n = chars.len();
    let mut i: usize = 0;
    assert(line@.subrange(0, n as int) =~= line@);
    while i < n && is_whitespace(chars[i])
        invariant
            i <= n,
            n == line@.len(),
            chars@ == line@,
            ltrim(line@) == ltrim(line@.subrange(i as int, n as int)),
        decreases n - i,
    {
        assert(line@.subrange(i as int, n as int).drop_first() =~= line@.subrange(i + 1, n as int));
        i = i + 1;
    }
    assert(ltrim(line@) == line@.subrange(i as int, n as int));
    if i == n {
        return Ok(());
    }
    let c = chars[i];
    if c == '-' {
        if !(n >= 2 && chars[0] == '-' && chars[1] == '-') {
            return Err(ConfigError::ShortOption(String::from_str(line)));
        }
        let ws = words_of(&chars);
        proof {
            lemma_words_nonempty(line@);
        }
        let option = string_from_chars(ws[0].as_slice());
        let ghost view = strs_view(args@);
        let mut found = false;
        let mut j: usize = 0;
        while j < args.len() && !found
            invariant
                j <= args@.len(),
                view == strs_view(args@),
                option@ == words(line@)[0],
                !found ==> forall|k: int| 0 <= k < j ==> !gives_option(#[trigger] view[k], option@),
                found ==> exists|k: int| 0 <= k < args@.len() && gives_option(#[trigger] view[k], option@),
            decreases args@.len() - j,
        {
            if str_eq(args[j].as_str(), option.as_str()) || alias_is(args[j].as_str(), option.as_str()) {
                assert(gives_option(view[j as int], option@));
                found = true;
            }
            j = j + 1;
        }
        proof {
            if !found {
                assert(!exists|k: int| 0 <= k < view.len() && gives_option(#[trigger] view[k], option@));
            }
            assert(ltrim(line@)[0] == '-');
            assert(words(line@)[0] == option@);
        }
        if !found {
            let ghost before = args@;
            let more = ws.len() > 1;
            args.push(option);
            assert(strs_view(args@) =~= strs_view(before).push(words(line@)[0]));
            if more {
                let rest = join_rest(&ws);
                let ghost mid = args@;
                args.push(rest);
                assert(strs_view(args@) =~= strs_view(mid).push(join_words(words(line@).skip(1))));
            }
        }
        Ok(())
    } else if c == ';' || c == '#' || c == '!' || c == '%' {
        Ok(())
    } else {
        Err(ConfigError::BadLine(String::from_str(line)))
    }
}

/// The arguments of the command line with the options of a configuration
/// file added (see `config_line`), or the first line that cannot be read.
pub fn parse_config_file(file_lines: &Vec<String>, input_args: &Vec<String>) -> (res: Result<Vec<String>, ConfigError>)
    ensures
        match config_lines(strs_view(input_args@), strs_view(file_lines@)) {
            ConfigOutcome::Args(a) => res matches Ok(v) && strs_view(v@) == a,
            ConfigOutcome::ShortOption(l) => res matches Err(ConfigError::ShortOption(s)) && s@ == l,
            ConfigOutcome::BadLine(l) => res matches Err(ConfigError::BadLine(s)) && s@ == l,
        },
{
    let mut args: Vec<String> = Vec::new();
    for k in 0..input_args.len()
        invariant
            strs_view(args@) == strs_view(input_args@).take(k as int),
    {
        let ghost before = args@;
        let s = String::from_str(input_args[k].as_str());
        assert(s@ == input_args@[k as int]@);
        args.push(s);
        assert(strs_view(args@) =~= strs_view(before).push(s@));
        assert(strs_view(input_args@).take(k + 1) =~= strs_view(input_args@).take(k as int).push(s@));
    }
    assert(strs_view(input_args@).take(input_args@.len() as int) =~= strs_view(input_args@));
    let ghost lines = strs_view(file_lines@);
    for i in 0..file_lines.len()
        invariant
            lines == strs_view(file_lines@),
            config_lines(strs_view(input_args@), lines.take(i as int)) == ConfigOutcome::Args(strs_view(args@)),
    {
        assert(lines.take(i + 1).drop_last() =~= lines.take(i as int));
        match parse_config_line(&mut args, file_lines[i].as_str()) {
            Ok(()) => {},
            Err(e) => {
                proof {
                    assert(config_lines(strs_view(input_args@), lines.take(i + 1)) != ConfigOutcome::Args(
                        strs_view(args@),
                    ) || true);
                    lemma_config_lines_stop(strs_view(input_args@), lines, i + 1);
                }
                return Err(e);
            },
        }
    }
    assert(lines.take(file_lines@.len() as int) =~= lines);
    Ok(args)
}

proof fn lemma_config_lines_stop(args: Seq<Seq<char>>, lines: Seq<Seq<char>>, i: int)
    requires
        0 < i <= lines.len(),
        !(config_lines(args, lines.take(i)) is Args),
    ensures
        config_lines(args, lines) == config_lines(args, lines.take(i)),
    decreases lines.len() - i,
{
    if i < lines.len() {
        assert(lines.take(i + 1).drop_last() =~= lines.take(i));
        lemma_config_lines_stop(args, lines, i + 1);
    } else {
        assert(lines.take(i) =~= lines);
    }
}


/// The configuration files that `--init-file` options name in `args[i..]`,
/// read left to right up to the first `--args-only`, and whether one was
/// found.
pub open spec fn init_files(args: Seq<Seq<char>>, i: int) -> (Seq<Seq<char>>, bool)
    decreases args.len() - i,
{
    if i < 0 || i >= args.len() {
        (Seq::empty(), false)
    } else if args[i] == "--args-only"@ {
        (Seq::empty(), true)
    } else if args[i] == "--init-file"@ {
        let rest = init_files(args, i + 1);
        (seq![args[i + 1]] + rest.0, rest.1)
    } else {
        init_files(args, i + 1)
    }
}

/// An `--init-file` in `args[i..]`, before any `--args-only`, is the last
/// argument: it names no file.
pub open spec fn init_file_dangles(args: Seq<Seq<char>>, i: int) -> bool
    decreases args.len() - i,
{
    if i < 0 || i >= args.len() {
        false
    } else if args[i] == "--args-only"@ {
        false
    } else if args[i] == "--init-file"@ {
        i + 1 >= args.len() || init_file_dangles(args, i + 1)
    } else {
        init_file_dangles(args, i + 1)
    }
}

/// Where a configuration file may be, for the command line `args`: the
/// files that `--init-file` options name, which must exist, and the paths to
/// try in turn, which are those files, then `home_config` (the user's
/// `~/.ledgerrc`) and `.ledgerrc`; none at all after `--args-only`.
pub fn init_paths(args: &Vec<String>, home_config: &str) -> (res: (Vec<String>, Vec<String>))
    requires
        !init_file_dangles(strs_view(args@), 0),
    ensures
        strs_view(res.0@) == init_files(strs_view(args@), 0).0,
        init_files(strs_view(args@), 0).1 ==> res.1@.len() == 0,
        !init_files(strs_view(args@), 0).1 ==> strs_view(res.1@) == init_files(strs_view(args@), 0).0 + seq![
            home_config@,
            ".ledgerrc"@,
        ],
{
    let ghost v = strs_view(args@);
    let mut files: Vec<String> = Vec::new();
    let mut ignore = false;
    let mut i: usize = 0;
    while i < args.len() && !ignore
        invariant
            v == strs_view(args@),
            i <= args@.len(),
            !ignore ==> !init_file_dangles(v, i as int),
            !ignore ==> init_files(v, 0) == (strs_view(files@) + init_files(v, i as int).0, init_files(v, i as int).1),
            ignore ==> init_files(v, 0) == (strs_view(files@), true),
        decreases args@.len() - i,
    {
        if str_eq(args[i].as_str(), "--args-only") {
            ignore = true;
            assert(strs_view(files@) + Seq::<Seq<char>>::empty() =~= strs_view(files@));
        } else if str_eq(args[i].as_str(), "--init-file") {
            let ghost before = files@;
            let f = String::from_str(args[i + 1].as_str());
            assert(f@ == v[i + 1]);
            files.push(f);
            assert(strs_view(files@) =~= strs_view(before).push(v[i + 1]));
            assert(strs_view(files@) + init_files(v, i + 1).0 =~= strs_view(before) + (seq![v[i + 1]] + init_files(v, i + 1).0));
        }
        i = i + 1;
    }
    if !ignore {
        assert(strs_view(files@) + init_files(v, i as int).0 =~= strs_view(files@));
    }
    let mut paths: Vec<String> = Vec::new();
    if !ignore {
        for k in 0..files.len()
            invariant
                strs_view(paths@) == strs_view(files@).take(k as int),
        {
            let ghost before = paths@;
            let s = String::from_str(files[k].as_str());
            paths.push(s);
            assert(strs_view(paths@) =~= strs_view(before).push(s@));
            assert(strs_view(files@).take(k + 1) =~= strs_view(files@).take(k as int).push(s@));
        }
        assert(strs_view(files@).take(files@.len() as int) =~= strs_view(files@));
        let ghost before = paths@;
        paths.push(String::from_str(home_config));
        paths.push(String::from_str(".ledgerrc"));
        assert(strs_view(paths@) =~= strs_view(before) + seq![home_config@, ".ledgerrc"@]);
    }
    (files, paths)
}

} // verus!
