//! Reading a journal: directives, prices, transactions and their postings.
use vstd::prelude::*;
use crate::chars::{
    LineType, Tokenizer, consume_str, consume_whitespaces, consume_whitespaces_and_lines, get_line,
    get_string, line_end, skip_blank,
};
use crate::date::Date;
use crate::error::{Error, ParserError, ParserErrorV};
use crate::list::{List, list_added, list_same};
use std::rc::Rc;
use crate::models::{Account, Comment, Currency, Origin, Payee, Tag};
use crate::numbers::{is_digit, parse_amount, parse_date, parse_int, pow10_i64};
use crate::rational::Rational;
use crate::text::{chars_of, is_numeric, is_whitespace, is_ws, numeric, str_eq, string_from_chars, trim, trim_str};
use crate::transaction::{Cleared, PostingType, PriceType, Transaction, TransactionType};

verus! {

/// A posting as it is written: names and amounts not yet tied to the
/// accounts and commodities of the ledger.
#[derive(Debug)]
pub struct Posting {
    pub account: String,
    pub money_amount: Option<Rational>,
    pub money_currency: Option<String>,
    pub cost_amount: Option<Rational>,
    pub cost_currency: Option<String>,
    pub cost_type: Option<PriceType>,
    pub balance_amount: Option<Rational>,
    pub balance_currency: Option<String>,
    pub comments: Vec<Comment>,
    pub amount_expr: Option<String>,
    pub kind: PostingType,
}

/// A `P` directive: one unit of `commodity` is worth `other_quantity` of
/// `other_commodity` from `date` on.
#[derive(Debug)]
pub struct ParsedPrice {
    pub date: Date,
    pub commodity: String,
    pub other_commodity: String,
    pub other_quantity: Rational,
}

/// Everything read from a journal.
#[derive(Debug)]
pub struct ParsedLedger {
    pub accounts: List<Account>,
    pub payees: List<Payee>,
    pub commodities: List<Currency>,
    pub transactions: Vec<Transaction<Posting>>,
    pub prices: Vec<ParsedPrice>,
    pub comments: Vec<Comment>,
    pub tags: Vec<Tag>,
}

impl ParsedLedger {
    pub open spec fn wf(&self) -> bool {
        &&& self.accounts.wf()
        &&& self.payees.wf()
        &&& self.commodities.wf()
        &&& self.accounts.aliases_resolve()
        &&& self.payees.aliases_resolve()
        &&& self.commodities.aliases_resolve()
    }

    pub fn new() -> (res: ParsedLedger)
        ensures
            res.wf(),
            res.accounts.keys().len() == 0,
            res.accounts.alias_map() == Map::<Seq<char>, Seq<char>>::empty(),
            res.payees.keys().len() == 0,
            res.commodities.keys().len() == 0,
            res.commodities.alias_map() == Map::<Seq<char>, Seq<char>>::empty(),
            res.transactions@.len() == 0,
            res.prices@.len() == 0,
            res.comments@.len() == 0,
            res.tags@.len() == 0,
            lists_empty(res),
    {
        ParsedLedger {
            accounts: List::new(),
            payees: List::new(),
            commodities: List::new(),
            transactions: Vec::new(),
            prices: Vec::new(),
            comments: Vec::new(),
            tags: Vec::new(),
        }
    }

    /// Moves the transactions, prices, comments and tags of `other` to the
    /// end of this ledger and adds its accounts, payees and commodities.
    pub fn append(&mut self, other: &mut ParsedLedger)
        requires
            old(self).wf(),
            old(other).wf(),
        ensures
            final(self).wf(),
            final(self).accounts.items() == old(self).accounts.items().union_prefer_right(old(other).accounts.items()),
            final(self).payees.items() == old(self).payees.items().union_prefer_right(old(other).payees.items()),
            final(self).commodities.items() == old(self).commodities.items().union_prefer_right(
                old(other).commodities.items(),
            ),
            final(self).accounts.alias_map() == old(self).accounts.alias_map().union_prefer_right(
                old(other).accounts.alias_map(),
            ),
            final(self).payees.alias_map() == old(self).payees.alias_map().union_prefer_right(
                old(other).payees.alias_map(),
            ),
            final(self).commodities.alias_map() == old(self).commodities.alias_map().union_prefer_right(
                old(other).commodities.alias_map(),
            ),
            final(self).transactions@ == old(self).transactions@ + old(other).transactions@,
            final(self).prices@ == old(self).prices@ + old(other).prices@,
            final(self).comments@ == old(self).comments@ + old(other).comments@,
            final(self).tags@ == old(self).tags@ + old(other).tags@,
            final(other).transactions@.len() == 0,
            final(other).prices@.len() == 0,
            final(other).comments@.len() == 0,
            final(other).tags@.len() == 0,
    {
        self.accounts.append(&other.accounts);
        self.payees.append(&other.payees);
        self.commodities.append(&other.commodities);
        self.transactions.append(&mut other.transactions);
        self.comments.append(&mut other.comments);
        self.prices.append(&mut other.prices);
        self.tags.append(&mut other.tags);
    }

    /// The number of items read.
    pub fn len(&self) -> (res: usize)
        requires
            self.accounts.keys().len() + self.payees.keys().len() + self.commodities.keys().len()
                + self.transactions@.len() + self.prices@.len() + self.comments@.len()
                + self.tags@.len() <= usize::MAX,
        ensures
            res == self.accounts.keys().len() + self.payees.keys().len() + self.commodities.keys().len()
                + self.transactions@.len() + self.prices@.len() + self.comments@.len() + self.tags@.len(),
    {
        self.accounts.len() + self.payees.len() + self.commodities.len() + self.transactions.len()
            + self.prices.len() + self.comments.len() + self.tags.len()
    }
}

/// Moves one character to the right within the line.
fn step(tokenizer: &mut Tokenizer)
    requires
        old(tokenizer).wf(),
        old(tokenizer).position < old(tokenizer).content@.len(),
        old(tokenizer).content@[old(tokenizer).position as int] != '\n',
    ensures
        final(tokenizer).wf(),
        final(tokenizer).moved_from(*old(tokenizer)),
        final(tokenizer).position == old(tokenizer).position + 1,
{
    proof {
        reveal_with_fuel(crate::chars::advance, 2);
    }
    let n = tokenizer.content.len();
    assert(tokenizer.position < n);
    tokenizer.position = tokenizer.position + 1;
    tokenizer.line_position = tokenizer.line_position + 1;
}

/// Where the text of a comment whose marker is at `p` starts: after the
/// marker and the blank space (newlines included) that follows it.
pub open spec fn comment_start(c: Seq<char>, p: int) -> int {
    skip_blank(c, p + 1)
}

/// Where reading a comment whose marker is at `p` stops: after the newline
/// that ends its text, or at the end.
pub open spec fn comment_end(c: Seq<char>, p: int) -> int {
    let e = line_end(c, comment_start(c, p));
    if e < c.len() {
        e + 1
    } else {
        e
    }
}

/// Reads a comment: skips its marker and the blank space after it, and
/// takes the rest of that line.
pub fn parse_comment(tokenizer: &mut Tokenizer) -> (res: Comment)
    requires
        old(tokenizer).wf(),
        old(tokenizer).position < old(tokenizer).content@.len(),
        old(tokenizer).content@[old(tokenizer).position as int] != '\n',
    ensures
        final(tokenizer).wf(),
        final(tokenizer).content@ == old(tokenizer).content@,
        final(tokenizer).file == old(tokenizer).file,
        final(tokenizer).seen_files@ == old(tokenizer).seen_files@,
        final(tokenizer).position > old(tokenizer).position,
        ({
            let c = old(tokenizer).content@;
            let a = comment_start(c, old(tokenizer).position as int);
            &&& res.comment@ == c.subrange(a, line_end(c, a))
            &&& final(tokenizer).position == comment_end(c, old(tokenizer).position as int)
            &&& line_end(c, a) < c.len() ==> final(tokenizer).line_position == 0
        }),
{
    step(tokenizer);
    consume_whitespaces_and_lines(tokenizer);
    proof {
        crate::chars::lemma_skip_blank(tokenizer.content@, old(tokenizer).position + 1);
    }
    Comment { comment: get_line(tokenizer) }
}

/// The first position at which `kw` is followed by a space.
pub open spec fn keyword_at(line: Seq<char>, kw: Seq<char>, i: int) -> bool {
    0 <= i && i + kw.len() < line.len() && line.subrange(i, i + kw.len()) == kw && line[i + kw.len()] == ' '
}

pub open spec fn first_keyword(line: Seq<char>, kw: Seq<char>, i: int) -> bool {
    keyword_at(line, kw, i) && forall|j: int| 0 <= j < i ==> !keyword_at(line, kw, j)
}

/// `s` without its leading spaces.
pub open spec fn strip_spaces(s: Seq<char>) -> Seq<char>
    decreases s.len(),
{
    if s.len() > 0 && s[0] == ' ' {
        strip_spaces(s.drop_first())
    } else {
        s
    }
}

/// What follows the first `kw` and its spaces in a directive line, as a
/// pattern `kw +(.*)` would capture it; `None` when the line has no `kw `.
pub open spec fn directive_argument(line: Seq<char>, kw: Seq<char>) -> Option<Seq<char>> {
    if exists|i: int| first_keyword(line, kw, i) {
        let i = choose|i: int| first_keyword(line, kw, i);
        Some(strip_spaces(line.subrange(i + kw.len(), line.len() as int)))
    } else {
        None
    }
}

fn keyword_at_exec(line: &Vec<char>, kw: &Vec<char>, i: usize) -> (res: bool)
    ensures
        res == keyword_at(line@, kw@, i as int),
{
    let n = kw.len();
    if i >= line.len() || n >= line.len() - i {
        return false;
    }
    for j in 0..n
        invariant
            n == kw@.len(),
            i + n < line.len(),
            forall|q: int| 0 <= q < j ==> line@[i + q] == kw@[q],
    {
        if line[i + j] != kw[j] {
            proof {
                if keyword_at(line@, kw@, i as int) {
                    assert(line@.subrange(i as int, i + n)[j as int] == kw@[j as int]);
                }
            }
            return false;
        }
    }
    assert(line@.subrange(i as int, i + n) =~= kw@);
    line[i + n] == ' '
}

/// The text after the first `kw ` of `line` with its leading spaces removed.
pub fn directive_argument_exec(line: &Vec<char>, kw: &str) -> (res: Option<Vec<char>>)
    ensures
        match res {
            Some(v) => directive_argument(line@, kw@) == Some(v@),
            None => directive_argument(line@, kw@) is None,
        },
{
    let k = chars_of(kw);
    let n = line.len();
    let mut i: usize = 0;
    while i < n
        invariant
            n == line@.len(),
            k@ == kw@,
            forall|j: int| 0 <= j < i ==> !keyword_at(line@, kw@, j),
        decreases n - i,
    {
        if keyword_at_exec(line, &k, i) {
            proof {
                assert(first_keyword(line@, kw@, i as int));
                let w = choose|w: int| first_keyword(line@, kw@, w);
                assert(w == i) by {
                    if w < i {
                        assert(!keyword_at(line@, kw@, w));
                    }
                    if w > i {
                        assert(!keyword_at(line@, kw@, i as int));
                    }
                }
            }
            let mut j = i + k.len();
            assert(line@.subrange(j as int, n as int) =~= line@.subrange(j as int, n as int));
            while j < n && line[j] == ' '
                invariant
                    n == line@.len(),
                    j <= n,
                    strip_spaces(line@.subrange(i + kw@.len(), n as int)) == strip_spaces(line@.subrange(j as int, n as int)),
                decreases n - j,
            {
                assert(line@.subrange(j as int, n as int).drop_first() =~= line@.subrange(j + 1, n as int));
                j = j + 1;
            }
            let mut out: Vec<char> = Vec::new();
            let start = j;
            while j < n
                invariant
                    n == line@.len(),
                    start <= j <= n,
                    out@ == line@.subrange(start as int, j as int),
                decreases n - j,
            {
                out.push(line[j]);
                j = j + 1;
                assert(out@ =~= line@.subrange(start as int, j as int));
            }
            return Some(out);
        }
        i = i + 1;
    }
    proof {
        if exists|w: int| first_keyword(line@, kw@, w) {
            let w = choose|w: int| first_keyword(line@, kw@, w);
            assert(w < n);
            assert(!keyword_at(line@, kw@, w));
        }
    }
    None
}

/// Reads the trimmed rest of the line.
fn trimmed_line(tokenizer: &mut Tokenizer) -> (res: String)
    requires
        old(tokenizer).wf(),
    ensures
        final(tokenizer).wf(),
        final(tokenizer).content@ == old(tokenizer).content@,
        final(tokenizer).file == old(tokenizer).file,
        final(tokenizer).seen_files@ == old(tokenizer).seen_files@,
        final(tokenizer).position >= old(tokenizer).position,
        ({
            let c = old(tokenizer).content@;
            let p0 = old(tokenizer).position as int;
            let e = line_end(c, p0);
            &&& res@ == trim(c.subrange(p0, e))
            &&& final(tokenizer).position == (if e < c.len() { e + 1 } else { e })
            &&& e < c.len() ==> final(tokenizer).line_position == 0
        }),
{
    proof {
        crate::chars::lemma_line_end(tokenizer.content@, tokenizer.position as int);
    }
    let line = get_line(tokenizer);
    String::from_str(trim_str(line.as_str()))
}

/// Pushes `s` unless an equal string is there already.
pub fn push_unique(v: &mut Vec<String>, s: String)
    ensures
        old(v)@.map_values(|x: String| x@).contains(s@) ==> final(v)@ == old(v)@,
        !old(v)@.map_values(|x: String| x@).contains(s@) ==> final(v)@ == old(v)@.push(s),
{
    let n = v.len();
    for i in 0..n
        invariant
            n == v@.len(),
            v@ == old(v)@,
            forall|j: int| 0 <= j < i ==> v@[j]@ != s@,
    {
        if v[i] == s {
            assert(v@.map_values(|x: String| x@)[i as int] == s@);
            return;
        }
    }
    proof {
        if v@.map_values(|x: String| x@).contains(s@) {
            let k = v@.map_values(|x: String| x@).index_of(s@);
            assert(v@[k]@ == s@);
        }
    }
    v.push(s);
}

/// The text of the line starting at `p`.
pub open spec fn line_at(c: Seq<char>, p: int) -> Seq<char> {
    c.subrange(p, line_end(c, p))
}

/// The tokenizer reads the same content.
pub open spec fn same_text(a: Tokenizer, b: Tokenizer) -> bool {
    &&& a.content@ == b.content@
    &&& a.file == b.file
    &&& a.seen_files@ == b.seen_files@
}

/// The tokenizer moved forward over the same content.
pub open spec fn same_source(a: Tokenizer, b: Tokenizer) -> bool {
    &&& a.content@ == b.content@
    &&& a.file == b.file
    &&& a.seen_files@ == b.seen_files@
    &&& a.position >= b.position
}

/// A setting of a directive: its key word and the trimmed rest of its line.
pub type Setting = (Seq<char>, Seq<char>);

/// The settings of a directive as characters.
pub open spec fn settings_view(v: Seq<(String, String)>) -> Seq<Setting> {
    v.map_values(|s: (String, String)| (s.0@, s.1@))
}

/// The cursor is at a line break, or its position in the line is the
/// column of its position.
pub open spec fn column_known(t: Tokenizer) -> bool {
    let c = t.content@;
    let p = t.position as int;
    p >= c.len() || c[p] == '\n' || t.line_position == crate::chars::column(c, p)
}

/// Reading the indented lines of a directive from `i` on, with the
/// settings `kv` read so far: where they end (at the first line that is
/// not indented) and the settings, or the error. A comment line is
/// skipped; any other line starts with a key word, which must be one of
/// `keys`; `default` stands alone, any other key takes the trimmed rest of
/// its line. A line that reads nothing is unexpected input.
pub open spec fn directive_lines(c: Seq<char>, i: int, keys: Seq<Seq<char>>, kv: Seq<Setting>) -> Result<
    (int, Seq<Setting>),
    ParserErrorV,
>
    decreases c.len() - i,
{
    let q = crate::chars::skip_blank(c, i);
    if !(q < c.len() && crate::chars::column(c, q) != 0) {
        Ok((q, kv))
    } else if c[q] == ';' {
        let n = comment_end(c, q);
        if i < n <= c.len() {
            directive_lines(c, n, keys, kv)
        } else {
            Err(ParserErrorV::UnexpectedInput(None))
        }
    } else {
        let (b, w) = crate::chars::word_scan(c, crate::chars::skip_ws(c, q), false, Seq::empty());
        let g = crate::chars::skip_ws(c, b);
        if !keys.contains(w) {
            Err(ParserErrorV::UnexpectedInput(None))
        } else {
            let e = line_end(c, g);
            let n = if w == "default"@ {
                g
            } else if e < c.len() {
                e + 1
            } else {
                e
            };
            let v = if w == "default"@ {
                Seq::<char>::empty()
            } else {
                trim(c.subrange(g, e))
            };
            if i < n <= c.len() {
                directive_lines(c, n, keys, kv.push((w, v)))
            } else {
                Err(ParserErrorV::UnexpectedInput(None))
            }
        }
    }
}

/// Reads the indented lines of a directive (see `directive_lines`).
#[verifier::rlimit(60)]
fn directive_settings(tokenizer: &mut Tokenizer, keys: &Vec<&str>) -> (res: Result<Vec<(String, String)>, ParserError>)
    requires
        old(tokenizer).wf(),
        column_known(*old(tokenizer)),
    ensures
        final(tokenizer).wf(),
        same_source(*final(tokenizer), *old(tokenizer)),
        match directive_lines(
            old(tokenizer).content@,
            old(tokenizer).position as int,
            keys@.map_values(|k: &str| k@),
            seq![],
        ) {
            Err(v) => res matches Err(x) && x@ == v,
            Ok((n, kv)) => res matches Ok(s) && settings_view(s@) == kv && final(tokenizer).position == n,
        },
        res is Ok ==> column_known(*final(tokenizer)),
{
    let ghost c0 = tokenizer.content@;
    let ghost start = tokenizer.position as int;
    let ghost ks = keys@.map_values(|k: &str| k@);
    let mut settings: Vec<(String, String)> = Vec::new();
    assert(settings_view(settings@) =~= Seq::<Setting>::empty());
    let mut more = true;
    while more
        invariant
            tokenizer.wf(),
            same_source(*tokenizer, *old(tokenizer)),
            c0 == tokenizer.content@,
            c0 == old(tokenizer).content@,
            start == old(tokenizer).position as int,
            ks == keys@.map_values(|k: &str| k@),
            column_known(*tokenizer),
            more ==> directive_lines(c0, start, ks, seq![]) == directive_lines(
                c0,
                tokenizer.position as int,
                ks,
                settings_view(settings@),
            ),
            !more ==> directive_lines(c0, start, ks, seq![]) == Ok::<(int, Seq<Setting>), ParserErrorV>(
                (tokenizer.position as int, settings_view(settings@)),
            ),
        decreases tokenizer.content@.len() - tokenizer.position, if more { 1int } else { 0int },
    {
        let before = tokenizer.position;
        let ghost t0 = *tokenizer;
        let ghost s0 = settings@;
        let lt = consume_whitespaces_and_lines(tokenizer);
        proof {
            let q = tokenizer.position as int;
            crate::chars::lemma_skip_blank(c0, before as int);
            if (before as int) < c0.len() {
                if c0[before as int] == '\n' {
                    crate::chars::lemma_skip_blank(c0, before + 1);
                    assert(q == crate::chars::skip_blank(c0, before + 1));
                }
                crate::chars::lemma_advance_column(c0, before as int, q, t0.line_index as int, t0.line_position as int);
            }
        }
        match lt {
            LineType::Blank => {
                more = false;
            },
            LineType::Indented => {
                let c = tokenizer.content[tokenizer.position];
                if c == ';' {
                    let ghost q = tokenizer.position as int;
                    parse_comment(tokenizer);
                    proof {
                        crate::chars::lemma_skip_blank(c0, q + 1);
                        crate::chars::lemma_line_end(c0, comment_start(c0, q));
                    }
                } else {
                    let ghost t1 = *tokenizer;
                    let word = get_string(tokenizer);
                    proof {
                        crate::chars::lemma_advance_column(
                            c0,
                            t1.position as int,
                            tokenizer.position as int,
                            t1.line_index as int,
                            t1.line_position as int,
                        );
                    }
                    let mut known = false;
                    let mut k: usize = 0;
                    while k < keys.len() && !known
                        invariant
                            k <= keys@.len(),
                            ks == keys@.map_values(|x: &str| x@),
                            known ==> ks.contains(word@),
                            !known ==> forall|j: int| 0 <= j < k ==> ks[j] != word@,
                        decreases keys@.len() - k,
                    {
                        if str_eq(keys[k], word.as_str()) {
                            assert(ks[k as int] == word@);
                            known = true;
                        }
                        k = k + 1;
                    }
                    if !known {
                        proof {
                            if ks.contains(word@) {
                                let j = ks.index_of(word@);
                                assert(ks[j] == word@);
                            }
                        }
                        return Err(ParserError::UnexpectedInput(None));
                    }
                    let value = if str_eq(word.as_str(), "default") {
                        String::new()
                    } else {
                        proof {
                            crate::chars::lemma_line_end(c0, tokenizer.position as int);
                        }
                        trimmed_line(tokenizer)
                    };
                    let ghost sv = (word@, value@);
                    settings.push((word, value));
                    assert(settings_view(settings@) =~= settings_view(s0).push(sv));
                }
                if tokenizer.position <= before {
                    return Err(ParserError::UnexpectedInput(None));
                }
            },
        }
    }
    Ok(settings)
}

/// The value of the last setting with key `key`.
pub open spec fn last_value(kv: Seq<Setting>, key: Seq<char>) -> Option<Seq<char>>
    decreases kv.len(),
{
    if kv.len() == 0 {
        None
    } else if kv.last().0 == key {
        Some(kv.last().1)
    } else {
        last_value(kv.drop_last(), key)
    }
}

/// The values of the settings with key `key`, in order.
pub open spec fn all_values(kv: Seq<Setting>, key: Seq<char>) -> Seq<Seq<char>>
    decreases kv.len(),
{
    if kv.len() == 0 {
        seq![]
    } else if kv.last().0 == key {
        all_values(kv.drop_last(), key).push(kv.last().1)
    } else {
        all_values(kv.drop_last(), key)
    }
}

/// The values of the settings with key `key`, in order, each once.
pub open spec fn unique_values(kv: Seq<Setting>, key: Seq<char>) -> Seq<Seq<char>>
    decreases kv.len(),
{
    if kv.len() == 0 {
        seq![]
    } else {
        let u = unique_values(kv.drop_last(), key);
        if kv.last().0 == key && !u.contains(kv.last().1) {
            u.push(kv.last().1)
        } else {
            u
        }
    }
}

/// Some setting has key `key`.
pub open spec fn has_key(kv: Seq<Setting>, key: Seq<char>) -> bool {
    exists|i: int| 0 <= i < kv.len() && (#[trigger] kv[i]).0 == key
}

/// The views of strings.
pub open spec fn strings_view(v: Seq<String>) -> Seq<Seq<char>> {
    v.map_values(|x: String| x@)
}

fn last_value_exec(settings: &Vec<(String, String)>, key: &str) -> (res: Option<String>)
    ensures
        match last_value(settings_view(settings@), key@) {
            Some(v) => res matches Some(s) && s@ == v,
            None => res is None,
        },
{
    let ghost kv = settings_view(settings@);
    let mut res: Option<String> = None;
    for i in 0..settings.len()
        invariant
            kv == settings_view(settings@),
            match last_value(kv.take(i as int), key@) {
                Some(v) => res matches Some(s) && s@ == v,
                None => res is None,
            },
    {
        assert(kv.take(i + 1).drop_last() =~= kv.take(i as int));
        if str_eq(settings[i].0.as_str(), key) {
            res = Some(String::from_str(settings[i].1.as_str()));
        }
    }
    assert(kv.take(settings@.len() as int) =~= kv);
    res
}

fn all_values_exec(settings: &Vec<(String, String)>, key: &str) -> (res: Vec<String>)
    ensures
        strings_view(res@) == all_values(settings_view(settings@), key@),
{
    let ghost kv = settings_view(settings@);
    let mut res: Vec<String> = Vec::new();
    for i in 0..settings.len()
        invariant
            kv == settings_view(settings@),
            strings_view(res@) == all_values(kv.take(i as int), key@),
    {
        assert(kv.take(i + 1).drop_last() =~= kv.take(i as int));
        if str_eq(settings[i].0.as_str(), key) {
            let ghost before = res@;
            let v = String::from_str(settings[i].1.as_str());
            res.push(v);
            assert(strings_view(res@) =~= strings_view(before).push(v@));
        }
    }
    assert(kv.take(settings@.len() as int) =~= kv);
    res
}

fn unique_values_exec(settings: &Vec<(String, String)>, key: &str) -> (res: Vec<String>)
    ensures
        strings_view(res@) == unique_values(settings_view(settings@), key@),
{
    let ghost kv = settings_view(settings@);
    let mut res: Vec<String> = Vec::new();
    for i in 0..settings.len()
        invariant
            kv == settings_view(settings@),
            strings_view(res@) == unique_values(kv.take(i as int), key@),
    {
        assert(kv.take(i + 1).drop_last() =~= kv.take(i as int));
        if str_eq(settings[i].0.as_str(), key) {
            let ghost before = res@;
            let v = String::from_str(settings[i].1.as_str());
            let ghost vv = v@;
            push_unique(&mut res, v);
            proof {
                assert(strings_view(before) == before.map_values(|x: String| x@));
                if !strings_view(before).contains(vv) {
                    assert(strings_view(res@) =~= strings_view(before).push(vv));
                }
            }
        }
    }
    assert(kv.take(settings@.len() as int) =~= kv);
    res
}

fn has_key_exec(settings: &Vec<(String, String)>, key: &str) -> (res: bool)
    ensures
        res == has_key(settings_view(settings@), key@),
{
    let ghost kv = settings_view(settings@);
    for i in 0..settings.len()
        invariant
            kv == settings_view(settings@),
            forall|j: int| 0 <= j < i ==> kv[j].0 != key@,
    {
        if str_eq(settings[i].0.as_str(), key) {
            assert(kv[i as int].0 == key@);
            return true;
        }
    }
    false
}

/// Where the lines after the first line of a directive at `p` start.
pub open spec fn next_line(c: Seq<char>, p: int) -> int {
    let e = line_end(c, p);
    if e < c.len() {
        e + 1
    } else {
        e
    }
}

/// The keys of the settings of each directive.
pub open spec fn tag_keys() -> Seq<Seq<char>> {
    seq!["check"@, "assert"@]
}

pub open spec fn commodity_keys() -> Seq<Seq<char>> {
    seq!["note"@, "alias"@, "format"@, "default"@]
}

pub open spec fn account_keys() -> Seq<Seq<char>> {
    seq!["note"@, "alias"@, "check"@, "assert"@, "payee"@, "isin"@, "default"@]
}

pub open spec fn payee_keys() -> Seq<Seq<char>> {
    seq!["note"@, "alias"@]
}

/// Reads the first line of a directive and returns its argument after the
/// keyword `kw`; the cursor is then at the start of the next line.
fn directive_header(tokenizer: &mut Tokenizer, kw: &str) -> (res: Option<Vec<char>>)
    requires
        old(tokenizer).wf(),
    ensures
        final(tokenizer).wf(),
        same_source(*final(tokenizer), *old(tokenizer)),
        column_known(*final(tokenizer)),
        final(tokenizer).position == next_line(old(tokenizer).content@, old(tokenizer).position as int),
        match directive_argument(line_at(old(tokenizer).content@, old(tokenizer).position as int), kw@) {
            Some(a) => res matches Some(v) && v@ == a,
            None => res is None,
        },
{
    proof {
        crate::chars::lemma_line_end(tokenizer.content@, tokenizer.position as int);
    }
    let line = get_line(tokenizer);
    proof {
        let c = tokenizer.content@;
        let p = tokenizer.position as int;
        if p < c.len() {
            assert(c[p - 1] == '\n');
            assert(crate::chars::column(c, p) == 0);
        }
    }
    let chars = chars_of(line.as_str());
    directive_argument_exec(&chars, kw)
}

/// Reads a `tag` directive: the name is the trimmed text after `tag`; the
/// indented lines that follow may hold `check` and `assert` expressions and
/// comments.
pub fn parse_tag(tokenizer: &mut Tokenizer) -> (res: Result<Tag, ParserError>)
    requires
        old(tokenizer).wf(),
    ensures
        final(tokenizer).wf(),
        same_source(*final(tokenizer), *old(tokenizer)),
        res is Ok ==> column_known(*final(tokenizer)),
        ({
            let c = old(tokenizer).content@;
            let p0 = old(tokenizer).position as int;
            match directive_argument(line_at(c, p0), "tag"@) {
                None => res matches Err(ParserError::UnexpectedInput(None)),
                Some(a) => match directive_lines(c, next_line(c, p0), tag_keys(), seq![]) {
                    Err(v) => res matches Err(x) && x@ == v,
                    Ok((n, kv)) => res matches Ok(t) && {
                        &&& t.name@ == trim(a)
                        &&& strings_view(t.check@) == all_values(kv, "check"@)
                        &&& strings_view(t.assert@) == all_values(kv, "assert"@)
                        &&& t.value is None
                        &&& final(tokenizer).position == n
                    },
                },
            }
        }),
{
    let arg = match directive_header(tokenizer, "tag") {
        Some(a) => a,
        None => {
            return Err(ParserError::UnexpectedInput(None));
        },
    };
    let arg_str = string_from_chars(arg.as_slice());
    let name = String::from_str(trim_str(arg_str.as_str()));
    let keys: Vec<&str> = vec!["check", "assert"];
    assert(keys@.map_values(|k: &str| k@) =~= tag_keys());
    let settings = directive_settings(tokenizer, &keys)?;
    Ok(Tag {
        name,
        check: all_values_exec(&settings, "check"),
        assert: all_values_exec(&settings, "assert"),
        value: None,
    })
}

/// Reads a `commodity` directive: the name is the text after `commodity`;
/// the indented lines may set a `note`, an `alias`, a `format`, mark it
/// `default`, or be comments. The last `note` and `format` count; each
/// alias is kept once.
pub fn parse_commodity(tokenizer: &mut Tokenizer) -> (res: Result<Currency, ParserError>)
    requires
        old(tokenizer).wf(),
    ensures
        final(tokenizer).wf(),
        same_source(*final(tokenizer), *old(tokenizer)),
        res is Ok ==> column_known(*final(tokenizer)),
        ({
            let c = old(tokenizer).content@;
            let p0 = old(tokenizer).position as int;
            match directive_argument(line_at(c, p0), "commodity"@) {
                None => res matches Err(ParserError::UnexpectedInput(None)),
                Some(a) => match directive_lines(c, next_line(c, p0), commodity_keys(), seq![]) {
                    Err(v) => res matches Err(x) && x@ == v,
                    Ok((n, kv)) => res matches Ok(t) && {
                        &&& t.name@ == a
                        &&& t.origin == Origin::FromDirective
                        &&& opt_view(t.note) == last_value(kv, "note"@)
                        &&& strings_view(t.aliases@) == unique_values(kv, "alias"@)
                        &&& opt_view(t.format) == last_value(kv, "format"@)
                        &&& t.default == has_key(kv, "default"@)
                        &&& final(tokenizer).position == n
                    },
                },
            }
        }),
{
    let arg = match directive_header(tokenizer, "commodity") {
        Some(a) => a,
        None => {
            return Err(ParserError::UnexpectedInput(None));
        },
    };
    let name = string_from_chars(arg.as_slice());
    let keys: Vec<&str> = vec!["note", "alias", "format", "default"];
    assert(keys@.map_values(|k: &str| k@) =~= commodity_keys());
    let settings = directive_settings(tokenizer, &keys)?;
    Ok(Currency {
        name,
        origin: Origin::FromDirective,
        note: last_value_exec(&settings, "note"),
        aliases: unique_values_exec(&settings, "alias"),
        format: last_value_exec(&settings, "format"),
        default: has_key_exec(&settings, "default"),
    })
}

/// An optional string as characters.
pub open spec fn opt_view(s: Option<String>) -> Option<Seq<char>> {
    match s {
        Some(x) => Some(x@),
        None => None,
    }
}

/// Reads an `account` directive: the name is the text after `account`;
/// the indented lines may set a `note`, an `alias`, `check` and `assert`
/// expressions, a `payee`, an `isin`, mark it `default`, or be comments.
/// The last `note` and `isin` count; each alias is kept once.
pub fn parse_account(tokenizer: &mut Tokenizer) -> (res: Result<Account, ParserError>)
    requires
        old(tokenizer).wf(),
    ensures
        final(tokenizer).wf(),
        same_source(*final(tokenizer), *old(tokenizer)),
        res is Ok ==> column_known(*final(tokenizer)),
        ({
            let c = old(tokenizer).content@;
            let p0 = old(tokenizer).position as int;
            match directive_argument(line_at(c, p0), "account"@) {
                None => res matches Err(ParserError::UnexpectedInput(None)),
                Some(a) => match directive_lines(c, next_line(c, p0), account_keys(), seq![]) {
                    Err(v) => res matches Err(x) && x@ == v,
                    Ok((n, kv)) => res matches Ok(t) && {
                        &&& t.name@ == a
                        &&& t.origin == Origin::FromDirective
                        &&& opt_view(t.note) == last_value(kv, "note"@)
                        &&& opt_view(t.isin) == last_value(kv, "isin"@)
                        &&& strings_view(t.aliases@) == unique_values(kv, "alias"@)
                        &&& strings_view(t.check@) == all_values(kv, "check"@)
                        &&& strings_view(t.assert@) == all_values(kv, "assert"@)
                        &&& strings_view(t.payee@) == all_values(kv, "payee"@)
                        &&& t.default == has_key(kv, "default"@)
                        &&& final(tokenizer).position == n
                    },
                },
            }
        }),
{
    let arg = match directive_header(tokenizer, "account") {
        Some(a) => a,
        None => {
            return Err(ParserError::UnexpectedInput(None));
        },
    };
    let name = string_from_chars(arg.as_slice());
    let keys: Vec<&str> = vec!["note", "alias", "check", "assert", "payee", "isin", "default"];
    assert(keys@.map_values(|k: &str| k@) =~= account_keys());
    let settings = directive_settings(tokenizer, &keys)?;
    Ok(Account {
        name,
        origin: Origin::FromDirective,
        note: last_value_exec(&settings, "note"),
        isin: last_value_exec(&settings, "isin"),
        aliases: unique_values_exec(&settings, "alias"),
        check: all_values_exec(&settings, "check"),
        assert: all_values_exec(&settings, "assert"),
        payee: all_values_exec(&settings, "payee"),
        default: has_key_exec(&settings, "default"),
    })
}

/// Reads a `payee` directive: the name is the text after `payee`; the
/// indented lines may set a `note`, an `alias`, or be comments. The last
/// `note` counts; each alias is kept once.
pub fn parse_payee(tokenizer: &mut Tokenizer) -> (res: Result<Payee, ParserError>)
    requires
        old(tokenizer).wf(),
    ensures
        final(tokenizer).wf(),
        same_source(*final(tokenizer), *old(tokenizer)),
        res is Ok ==> column_known(*final(tokenizer)),
        ({
            let c = old(tokenizer).content@;
            let p0 = old(tokenizer).position as int;
            match directive_argument(line_at(c, p0), "payee"@) {
                None => res matches Err(ParserError::UnexpectedInput(None)),
                Some(a) => match directive_lines(c, next_line(c, p0), payee_keys(), seq![]) {
                    Err(v) => res matches Err(x) && x@ == v,
                    Ok((n, kv)) => res matches Ok(t) && {
                        &&& t.name@ == a
                        &&& t.origin == Origin::FromDirective
                        &&& opt_view(t.note) == last_value(kv, "note"@)
                        &&& strings_view(t.alias@) == unique_values(kv, "alias"@)
                        &&& final(tokenizer).position == n
                    },
                },
            }
        }),
{
    let arg = match directive_header(tokenizer, "payee") {
        Some(a) => a,
        None => {
            return Err(ParserError::UnexpectedInput(None));
        },
    };
    let name = string_from_chars(arg.as_slice());
    let keys: Vec<&str> = vec!["note", "alias"];
    assert(keys@.map_values(|k: &str| k@) =~= payee_keys());
    let settings = directive_settings(tokenizer, &keys)?;
    Ok(Payee {
        name,
        note: last_value_exec(&settings, "note"),
        alias: unique_values_exec(&settings, "alias"),
        origin: Origin::FromDirective,
    })
}

/// The first position from `i` on that is not a space.
pub open spec fn skip_sp(s: Seq<char>, i: int) -> int
    decreases s.len() - i,
{
    if 0 <= i < s.len() && s[i] == ' ' {
        skip_sp(s, i + 1)
    } else {
        i
    }
}

proof fn lemma_skip_sp(s: Seq<char>, i: int)
    requires
        0 <= i <= s.len(),
    ensures
        i <= skip_sp(s, i) <= s.len(),
        forall|k: int| i <= k < skip_sp(s, i) ==> s[k] == ' ',
        skip_sp(s, i) < s.len() ==> s[skip_sp(s, i)] != ' ',
    decreases s.len() - i,
{
    if i < s.len() && s[i] == ' ' {
        lemma_skip_sp(s, i + 1);
    }
}

fn skip_sp_exec(s: &Vec<char>, i: usize) -> (res: usize)
    requires
        i <= s@.len(),
    ensures
        res == skip_sp(s@, i as int),
        i <= res <= s@.len(),
{
    proof {
        lemma_skip_sp(s@, i as int);
    }
    let mut j = i;
    while j < s.len() && s[j] == ' '
        invariant
            i <= j <= s@.len(),
            skip_sp(s@, i as int) == skip_sp(s@, j as int),
        decreases s@.len() - j,
    {
        j = j + 1;
    }
    j
}

fn sub_vec(s: &Vec<char>, from: usize, to: usize) -> (res: Vec<char>)
    requires
        from <= to <= s@.len(),
    ensures
        res@ == s@.subrange(from as int, to as int),
{
    let mut out: Vec<char> = Vec::new();
    for j in from..to
        invariant
            to <= s@.len(),
            from <= j <= to,
            out@ == s@.subrange(from as int, j as int),
    {
        out.push(s[j]);
        assert(out@ =~= s@.subrange(from as int, j + 1));
    }
    out
}

/// `k` is where a transaction code ends: a `)` followed by a space.
pub open spec fn code_end_at(s: Seq<char>, from: int, k: int) -> bool {
    from < k && k + 1 < s.len() && s[k] == ')' && s[k + 1] == ' '
}

/// The last position after `from` where a code can end.
pub open spec fn last_code_end(s: Seq<char>, from: int) -> Option<int> {
    if exists|k: int| code_end_at(s, from, k) {
        Some(choose|k: int| code_end_at(s, from, k) && forall|q: int| k < q ==> !code_end_at(s, from, q))
    } else {
        None
    }
}

/// The first line of a transaction, read.
#[derive(Debug)]
pub struct Header {
    pub date: Date,
    pub effective_date: Option<Date>,
    pub cleared: Cleared,
    pub code: Option<String>,
    pub description: String,
}

/// The parts of a transaction's first line, by position: the date ends at
/// 10; an effective date (`=`, an optional space and a date) may follow;
/// then at least one space; a `*` or `!` followed by a space marks the
/// transaction cleared or not; a code in parentheses, up to the last `) `,
/// may follow; the rest is the description.
pub open spec fn header_layout(s: Seq<char>) -> Option<(Option<int>, int, Cleared, Option<(int, int)>, int)> {
    let has_eff = s.len() > 10 && s[10] == '=';
    let e0 = if has_eff && s.len() > 11 && s[11] == ' ' { 12int } else { 11int };
    let after_dates = if has_eff { e0 + 10 } else { 10int };
    if s.len() < 10 || after_dates >= s.len() || s[after_dates] != ' ' {
        None
    } else {
        let a = skip_sp(s, after_dates);
        let flagged = a + 1 < s.len() && (s[a] == '*' || s[a] == '!') && s[a + 1] == ' ';
        let cleared = if flagged {
            if s[a] == '*' { Cleared::Cleared } else { Cleared::NotCleared }
        } else {
            Cleared::Unknown
        };
        let b = if flagged { skip_sp(s, a + 1) } else { a };
        let code = if b < s.len() && s[b] == '(' {
            match last_code_end(s, b) {
                Some(k) => Some((b, k + 2)),
                None => None,
            }
        } else {
            None
        };
        let d = match code {
            Some((_, e)) => e,
            None => b,
        };
        Some((if has_eff { Some(e0) } else { None }, after_dates, cleared, code, d))
    }
}

/// Reads the first line of a transaction (see `header_layout`). The dates
/// must exist; anything else is unexpected input.
pub fn parse_header(s: &Vec<char>) -> (res: Result<Header, ParserError>)
    ensures
        match header_layout(s@) {
            None => res matches Err(ParserError::UnexpectedInput(None)),
            Some((eff, _, cleared, code, d)) => match res {
                Ok(h) => {
                    &&& crate::numbers::date_value(s@) == Some((h.date.year as int, h.date.month as int, h.date.day as int))
                    &&& (match eff {
                        Some(e) => h.effective_date matches Some(x) && crate::numbers::date_value(s@.skip(e)) == Some(
                            (x.year as int, x.month as int, x.day as int),
                        ),
                        None => h.effective_date is None,
                    })
                    &&& h.cleared == cleared
                    &&& (match code {
                        Some((b, e)) => h.code matches Some(c) && c@ == s@.subrange(b, e),
                        None => h.code is None,
                    })
                    &&& h.description@ == s@.skip(d)
                },
                Err(e) => e matches ParserError::UnexpectedInput(None) && (crate::numbers::date_value(s@) is None || (eff matches Some(x)
                    && crate::numbers::date_value(s@.skip(x)) is None)),
            },
        },
{
    let n = s.len();
    let has_eff = n > 10 && s[10] == '=';
    let e0: usize = if has_eff && n > 11 && s[11] == ' ' { 12 } else { 11 };
    let after_dates: usize = if has_eff { e0 + 10 } else { 10 };
    if n < 10 || after_dates >= n || s[after_dates] != ' ' {
        return Err(ParserError::UnexpectedInput(None));
    }
    let date = parse_date(s)?;
    let effective_date = if has_eff {
        let rest = sub_vec(s, e0, n);
        assert(rest@ =~= s@.skip(e0 as int));
        Some(parse_date(&rest)?)
    } else {
        None
    };
    let a = skip_sp_exec(s, after_dates);
    let flagged = n > 0 && a < n - 1 && (s[a] == '*' || s[a] == '!') && s[a + 1] == ' ';
    let cleared = if flagged {
        if s[a] == '*' { Cleared::Cleared } else { Cleared::NotCleared }
    } else {
        Cleared::Unknown
    };
    let b = if flagged { skip_sp_exec(s, a + 1) } else { a };
    let mut code: Option<String> = None;
    let mut d = b;
    if b < n && s[b] == '(' {
        let mut k = n;
        let mut found = false;
        while k > b && !found
            invariant
                b < n,
                b <= k <= n,
                n == s@.len(),
                found ==> code_end_at(s@, b as int, k as int) && forall|q: int| k < q ==> !code_end_at(s@, b as int, q),
                !found ==> forall|q: int| k < q ==> !code_end_at(s@, b as int, q),
            decreases k, if found { 0int } else { 1int },
        {
            if k > b && k < n - 1 && s[k] == ')' && s[k + 1] == ' ' {
                found = true;
            } else {
                k = k - 1;
            }
        }
        if found {
            proof {
                assert(code_end_at(s@, b as int, k as int));
                let w = choose|w: int| code_end_at(s@, b as int, w) && forall|q: int| w < q ==> !code_end_at(s@, b as int, q);
                assert(w == k) by {
                    if w < k {
                        assert(!code_end_at(s@, b as int, k as int));
                    }
                    if w > k {
                        assert(!code_end_at(s@, b as int, w));
                    }
                }
            }
            let c = sub_vec(s, b, k + 2);
            code = Some(string_from_chars(c.as_slice()));
            d = k + 2;
        } else {
            proof {
                assert forall|q: int| !code_end_at(s@, b as int, q) by {
                    if code_end_at(s@, b as int, q) {
                        assert(q >= k);
                    }
                }
            }
        }
    }
    let desc = sub_vec(s, d, n);
    assert(desc@ =~= s@.skip(d as int));
    Ok(Header { date, effective_date, cleared, code, description: string_from_chars(desc.as_slice()) })
}

/// An amount and the name of its commodity.
pub type MoneyText = ((int, int), Seq<char>);

/// What reading an amount of money at `p` gives: where it stops, and the
/// amount with its commodity or the error. An amount (its first character a
/// digit, `.` or `-`) is followed by the commodity; otherwise the commodity
/// comes first. White space after the commodity is read too.
pub open spec fn money_scan(c: Seq<char>, p: int) -> (int, Result<MoneyText, ParserErrorV>) {
    if p >= c.len() {
        (p, Err(ParserErrorV::UnexpectedInput(Some("Expected ammount missing"@))))
    } else if numeric(c[p]) || c[p] == '.' || c[p] == '-' {
        let (e, r) = crate::numbers::amount_scan(c, p, false, Seq::empty(), 0);
        match crate::numbers::amount_result(r) {
            Err(v) => (e, Err(v)),
            Ok(a) => {
                let (b, w) = crate::chars::word_scan(c, crate::chars::skip_ws(c, e), false, Seq::empty());
                (crate::chars::skip_ws(c, b), Ok((a, w)))
            },
        }
    } else {
        let (b, w) = crate::chars::word_scan(c, crate::chars::skip_ws(c, p), false, Seq::empty());
        let (e, r) = crate::numbers::amount_scan(c, crate::chars::skip_ws(c, b), false, Seq::empty(), 0);
        match crate::numbers::amount_result(r) {
            Err(v) => (e, Err(v)),
            Ok(a) => (e, Ok((a, w))),
        }
    }
}

/// Reads an amount of money: an amount followed by a commodity (`12.50 EUR`)
/// or a commodity followed by an amount (`EUR 12.50`).
pub fn parse_money(tokenizer: &mut Tokenizer) -> (res: Result<(Rational, String), ParserError>)
    requires
        old(tokenizer).wf(),
    ensures
        final(tokenizer).wf(),
        final(tokenizer).moved_from(*old(tokenizer)),
        final(tokenizer).position >= old(tokenizer).position,
        ({
            let (e, r) = money_scan(old(tokenizer).content@, old(tokenizer).position as int);
            &&& final(tokenizer).position == e
            &&& match r {
                Err(v) => res matches Err(x) && x@ == v,
                Ok((a, w)) => res matches Ok((am, cur)) && am.view() == a && cur@ == w,
            }
        }),
{
    let ghost t0 = *tokenizer;
    match tokenizer.get_char() {
        Some(c) => {
            if is_numeric(c) || c == '.' || c == '-' {
                let amount = parse_amount(tokenizer);
                let ghost t1 = *tokenizer;
                proof {
                    crate::numbers::lemma_amount_scan(t0.content@, t0.position as int, false, Seq::empty(), 0);
                }
                match amount {
                    Ok(a) => {
                        let currency = get_string(tokenizer);
                        proof {
                            crate::chars::lemma_advance_split(t0.content@, t0.position as int, t1.position as int, tokenizer.position as int, t0.line_index as int, t0.line_position as int);
                        }
                        Ok((a, currency))
                    },
                    Err(e) => Err(e),
                }
            } else {
                let currency = get_string(tokenizer);
                let ghost t1 = *tokenizer;
                let amount = parse_amount(tokenizer);
                proof {
                    crate::numbers::lemma_amount_scan(t1.content@, t1.position as int, false, Seq::empty(), 0);
                    crate::chars::lemma_advance_split(t0.content@, t0.position as int, t1.position as int, tokenizer.position as int, t0.line_index as int, t0.line_position as int);
                }
                match amount {
                    Ok(a) => Ok((a, currency)),
                    Err(e) => Err(e),
                }
            }
        },
        None => Err(ParserError::UnexpectedInput(Some(String::from_str("Expected ammount missing")))),
    }
}

/// The fields of a posting that come in pairs are set together, and a cost
/// comes only after an amount.
pub open spec fn posting_consistent(p: Posting) -> bool {
    &&& (p.money_amount is Some <==> p.money_currency is Some)
    &&& (p.cost_amount is Some <==> p.cost_currency is Some)
    &&& (p.cost_amount is Some <==> p.cost_type is Some)
    &&& (p.balance_amount is Some <==> p.balance_currency is Some)
    &&& (p.cost_amount is Some ==> p.money_amount is Some)
}

/// Where the account name of a posting that starts at `i` ends, the
/// characters it is read from (`acc` those read so far), and whether the
/// posting ends there. A tab or a newline ends the name (the newline is
/// left unread), so do two white space characters; a single one between two
/// other characters is part of it.
pub open spec fn account_scan(c: Seq<char>, i: int, acc: Seq<char>) -> (int, Seq<char>, bool)
    decreases c.len() - i,
{
    if i < 0 || i >= c.len() {
        (i, acc, true)
    } else if !is_ws(c[i]) {
        account_scan(c, i + 1, acc.push(c[i]))
    } else if c[i] == '\t' {
        (i + 1, acc, false)
    } else if c[i] == '\n' {
        (i, acc, true)
    } else if i + 1 >= c.len() {
        (i + 1, acc, true)
    } else if is_ws(c[i + 1]) {
        (i + 2, acc, false)
    } else {
        account_scan(c, i + 2, acc.push(c[i]).push(c[i + 1]))
    }
}

/// A posting that ends with its account name ends at a newline or at the end.
proof fn lemma_account_scan_end(c: Seq<char>, i: int, acc: Seq<char>)
    requires
        0 <= i,
    ensures
        account_scan(c, i, acc).2 ==> account_scan(c, i, acc).0 >= c.len() || c[account_scan(c, i, acc).0] == '\n',
    decreases c.len() - i,
{
    if 0 <= i < c.len() {
        if !is_ws(c[i]) {
            lemma_account_scan_end(c, i + 1, acc.push(c[i]));
        } else if c[i] != '\t' && c[i] != '\n' && i + 1 < c.len() && !is_ws(c[i + 1]) {
            lemma_account_scan_end(c, i + 2, acc.push(c[i]).push(c[i + 1]));
        }
    }
}

/// The account name and the kind of a posting from the characters read:
/// `(name)` is virtual, `[name]` virtual and must balance (the name is then
/// trimmed); an opening bracket without its closing one is refused.
pub open spec fn posting_account(raw: Seq<char>) -> Result<(Seq<char>, PostingType), ParserErrorV> {
    if raw.len() > 0 && (raw[0] == '(' || raw[0] == '[') {
        let round = raw[0] == '(';
        let closing = if round { ')' } else { ']' };
        if raw.last() != closing {
            Err(ParserErrorV::UnexpectedInput(Some(if round { "Expected ')'"@ } else { "Expected ']'"@ })))
        } else {
            let inner = raw.drop_last();
            let rest = if inner.len() > 0 { inner.skip(1) } else { inner };
            Ok((trim(rest), if round { PostingType::Virtual } else { PostingType::VirtualMustBalance }))
        }
    } else {
        Ok((raw, PostingType::Real))
    }
}

/// What the part of a posting after its account name gives: the amount,
/// the cost (per unit or total), the balance assertion, a comment and, in an
/// automated transaction, an amount expression.
pub type PostingItems = (
    Option<MoneyText>,
    Option<(PriceType, MoneyText)>,
    Option<MoneyText>,
    Option<Seq<char>>,
    Option<Seq<char>>,
);

/// The items that a posting holds.
pub open spec fn posting_items_of(p: Posting) -> PostingItems {
    (
        match (p.money_amount, p.money_currency) {
            (Some(a), Some(c)) => Some((a.view(), c@)),
            _ => None,
        },
        match (p.cost_type, p.cost_amount, p.cost_currency) {
            (Some(k), Some(a), Some(c)) => Some((k, (a.view(), c@))),
            _ => None,
        },
        match (p.balance_amount, p.balance_currency) {
            (Some(a), Some(c)) => Some((a.view(), c@)),
            _ => None,
        },
        if p.comments@.len() > 0 {
            Some(p.comments@[0].comment@)
        } else {
            None
        },
        match p.amount_expr {
            Some(s) => Some(s@),
            None => None,
        },
    )
}

/// Reading the items of a posting from `i` on, with `st` read so far: where
/// it stops (at the newline that ends the posting, or after its comment)
/// and what it read, or the error. An item is an amount, `@` or `@@` and a
/// cost, `=` and a balance, or `;` and a comment (the last item); an amount
/// that cannot be read is an error, except in an automated transaction,
/// where the rest of the line is kept as an expression. White space follows
/// each item; an item that reads nothing is unexpected input.
pub open spec fn posting_items(c: Seq<char>, i: int, st: PostingItems, automated: bool) -> Result<
    (int, PostingItems),
    ParserErrorV,
>
    decreases c.len() - i,
{
    if i < 0 || i >= c.len() || c[i] == '\n' {
        Ok((i, st))
    } else if c[i] == ';' {
        let a = comment_start(c, i);
        Ok((comment_end(c, i), (st.0, st.1, st.2, Some(c.subrange(a, line_end(c, a))), st.4)))
    } else {
        let item: Result<(int, PostingItems), ParserErrorV> = if c[i] == '=' {
            let (e, r) = money_scan(c, crate::chars::skip_ws(c, i + 1));
            match r {
                Err(v) => Err(v),
                Ok(m) => Ok((e, (st.0, st.1, Some(m), st.3, st.4))),
            }
        } else if c[i] == '@' {
            if st.0 is None {
                Err(ParserErrorV::UnexpectedInput(Some("Amount not found"@)))
            } else {
                let total = i + 1 < c.len() && c[i + 1] == '@';
                let j = if total { i + 2 } else { i + 1 };
                let (e, r) = money_scan(c, crate::chars::skip_ws(c, j));
                match r {
                    Err(v) => Err(v),
                    Ok(m) => Ok((e, (st.0, Some((if total { PriceType::Total } else { PriceType::PerUnit }, m)), st.2, st.3, st.4))),
                }
            }
        } else {
            let (e, r) = money_scan(c, i);
            match r {
                Ok(m) => Ok((e, (Some(m), st.1, st.2, st.3, st.4))),
                Err(v) => if automated {
                    let le = line_end(c, e);
                    Ok((le, (st.0, st.1, st.2, st.3, Some(c.subrange(e, le)))))
                } else {
                    Err(v)
                },
            }
        };
        match item {
            Err(v) => Err(v),
            Ok((e, s2)) => {
                let n = crate::chars::skip_ws(c, e);
                if i < n <= c.len() {
                    posting_items(c, n, s2, automated)
                } else {
                    Err(ParserErrorV::UnexpectedInput(None))
                }
            },
        }
    }
}

/// A posting as its account name, its kind and its items.
pub type PostingDesc = (Seq<char>, PostingType, PostingItems);

pub open spec fn posting_desc(p: Posting) -> PostingDesc {
    (p.account@, p.kind, posting_items_of(p))
}

/// Reading a posting at `p`: where it stops and what it holds, or the
/// error. The account name comes first (see `account_scan` and
/// `posting_account`); unless the posting ends with it, its items follow
/// after white space (see `posting_items`).
pub open spec fn posting_read(c: Seq<char>, p: int, automated: bool) -> Result<(int, PostingDesc), ParserErrorV> {
    let (e, raw, fin) = account_scan(c, p, Seq::empty());
    match posting_account(raw) {
        Err(v) => Err(v),
        Ok((name, kind)) => if fin {
            Ok((e, (name, kind, (None, None, None, None, None))))
        } else {
            match posting_items(c, crate::chars::skip_ws(c, e), (None, None, None, None, None), automated) {
                Err(v) => Err(v),
                Ok((end, items)) => Ok((end, (name, kind, items))),
            }
        },
    }
}

/// The cursor is at a line break: at the end, on a newline, or at the start
/// of a line with the position in the line at zero.
pub open spec fn at_line_break(c: Seq<char>, p: int, lp: int) -> bool {
    p >= c.len() || c[p] == '\n' || (p > 0 && c[p - 1] == '\n' && lp == 0)
}

/// Reads a posting: the account name (single spaces may be part of it; two
/// spaces, a tab or the end of the line end it), `(account)` for a virtual
/// posting and `[account]` for a virtual posting that must balance; then an
/// amount, a cost after `@` (per unit) or `@@` (total), a balance assertion
/// after `=`, and a comment after `;`. In an automated transaction an
/// amount that does not read as money is kept as an expression.
#[verifier::rlimit(40)]
pub fn parse_posting(tokenizer: &mut Tokenizer, transaction_type: TransactionType) -> (res: Result<Posting, ParserError>)
    requires
        old(tokenizer).wf(),
    ensures
        final(tokenizer).wf(),
        final(tokenizer).content@ == old(tokenizer).content@,
        final(tokenizer).file == old(tokenizer).file,
        final(tokenizer).seen_files@ == old(tokenizer).seen_files@,
        res matches Ok(p) ==> posting_consistent(p),
        match posting_read(old(tokenizer).content@, old(tokenizer).position as int, transaction_type == TransactionType::Automated) {
            Err(v) => res matches Err(x) && x@ == v,
            Ok((end, d)) => res matches Ok(p) && posting_desc(p) == d && final(tokenizer).position == end,
        },
        res is Ok ==> at_line_break(final(tokenizer).content@, final(tokenizer).position as int, final(tokenizer).line_position as int),
{
    let ghost c0 = old(tokenizer).content@;
    let ghost p0 = old(tokenizer).position as int;
    let mut account: Vec<char> = Vec::new();
    let mut finished = false;
    let mut reading = true;
    while reading
        invariant
            tokenizer.wf(),
            tokenizer.content@ == old(tokenizer).content@,
            tokenizer.file == old(tokenizer).file,
            tokenizer.seen_files@ == old(tokenizer).seen_files@,
            c0 == tokenizer.content@,
            reading ==> !finished,
            reading ==> account_scan(c0, p0, Seq::empty()) == account_scan(c0, tokenizer.position as int, account@),
            !reading ==> account_scan(c0, p0, Seq::empty()) == (tokenizer.position as int, account@, finished),
        decreases tokenizer.content@.len() - tokenizer.position, if reading { 1int } else { 0int },
    {
        if tokenizer.position >= tokenizer.content.len() {
            finished = true;
            reading = false;
        } else {
            let ghost i = tokenizer.position as int;
            let ghost old_account = account@;
            let c = tokenizer.next();
            if !is_whitespace(c) {
                account.push(c);
            } else if c == '\t' || c == '\n' {
                if c == '\n' {
                    if tokenizer.line_index > 0 {
                        tokenizer.line_index = tokenizer.line_index - 1;
                    }
                    tokenizer.position = tokenizer.position - 1;
                    finished = true;
                }
                reading = false;
            } else if tokenizer.position >= tokenizer.content.len() {
                finished = true;
                reading = false;
            } else {
                let d = tokenizer.next();
                if is_whitespace(d) {
                    reading = false;
                } else {
                    account.push(c);
                    account.push(d);
                    assert(account@ =~= old_account.push(c).push(d));
                }
            }
        }
    }
    let ghost raw = account@;
    let ghost scan_end = tokenizer.position as int;
    let mut kind = PostingType::Real;
    if account.len() > 0 && (account[0] == '(' || account[0] == '[') {
        let closing = if account[0] == '(' { ')' } else { ']' };
        kind = if account[0] == '(' { PostingType::Virtual } else { PostingType::VirtualMustBalance };
        let last = account.pop();
        match last {
            Some(x) => {
                if x != closing {
                    if closing == ')' {
                        return Err(ParserError::UnexpectedInput(Some(String::from_str("Expected ')'"))));
                    } else {
                        return Err(ParserError::UnexpectedInput(Some(String::from_str("Expected ']'"))));
                    }
                }
            },
            None => {},
        }
        let rest = if account.len() > 0 { sub_vec(&account, 1, account.len()) } else { Vec::new() };
        let rest_str = string_from_chars(rest.as_slice());
        account = chars_of(trim_str(rest_str.as_str()));
    }
    let mut posting = Posting {
        account: string_from_chars(account.as_slice()),
        money_amount: None,
        money_currency: None,
        cost_amount: None,
        cost_currency: None,
        cost_type: None,
        balance_amount: None,
        balance_currency: None,
        comments: Vec::new(),
        amount_expr: None,
        kind,
    };
    assert(posting_account(raw) == Ok::<(Seq<char>, PostingType), ParserErrorV>((posting.account@, kind)));
    let ghost name = posting.account@;
    if finished {
        proof {
            lemma_account_scan_end(c0, p0, Seq::empty());
        }
        return Ok(posting);
    }
    consume_whitespaces(tokenizer);
    let ghost c0 = tokenizer.content@;
    let ghost auto = transaction_type == TransactionType::Automated;
    let ghost start = tokenizer.position as int;
    assert(posting_items_of(posting) == (
        None::<MoneyText>,
        None::<(PriceType, MoneyText)>,
        None::<MoneyText>,
        None::<Seq<char>>,
        None::<Seq<char>>,
    ));
    let mut more = true;
    while more
        invariant
            tokenizer.wf(),
            tokenizer.content@ == old(tokenizer).content@,
            tokenizer.file == old(tokenizer).file,
            tokenizer.seen_files@ == old(tokenizer).seen_files@,
            posting_consistent(posting),
            posting.account@ == name,
            posting.kind == kind,
            posting.comments@.len() == 0,
            account_scan(old(tokenizer).content@, old(tokenizer).position as int, Seq::empty()) == (scan_end, raw, false),
            posting_account(raw) == Ok::<(Seq<char>, PostingType), ParserErrorV>((name, kind)),
            c0 == tokenizer.content@,
            start == crate::chars::skip_ws(c0, scan_end),
            auto == (transaction_type == TransactionType::Automated),
            more ==> posting_items(c0, start, (None, None, None, None, None), auto) == posting_items(
                c0,
                tokenizer.position as int,
                posting_items_of(posting),
                auto,
            ),
            !more ==> posting_items(c0, start, (None, None, None, None, None), auto) == Ok::<
                (int, PostingItems),
                ParserErrorV,
            >((tokenizer.position as int, posting_items_of(posting))),
            !more ==> (tokenizer.position >= c0.len() || c0[tokenizer.position as int] == '\n'),
        decreases tokenizer.content@.len() - tokenizer.position, if more { 1int } else { 0int },
    {
        let before = tokenizer.position;
        let ghost st = posting_items_of(posting);
        match tokenizer.get_char() {
            None => {
                more = false;
            },
            Some(c) => {
                if c == '\n' {
                    more = false;
                } else if c == ';' {
                    let comment = parse_comment(tokenizer);
                    posting.comments.push(comment);
                    proof {
                        assert(posting.comments@[0] == comment);
                        let a = comment_start(c0, before as int);
                        crate::chars::lemma_skip_blank(c0, before + 1);
                        crate::chars::lemma_line_end(c0, a);
                    }
                    return Ok(posting);
                } else if c == '=' {
                    step(tokenizer);
                    consume_whitespaces(tokenizer);
                    let (amount, currency) = parse_money(tokenizer)?;
                    posting.balance_amount = Some(amount);
                    posting.balance_currency = Some(currency);
                } else if c == '@' {
                    if posting.money_amount.is_none() {
                        return Err(ParserError::UnexpectedInput(Some(String::from_str("Amount not found"))));
                    }
                    step(tokenizer);
                    let total = match tokenizer.get_char() {
                        Some(x) => x == '@',
                        None => false,
                    };
                    if total {
                        step(tokenizer);
                        posting.cost_type = Some(PriceType::Total);
                    } else {
                        posting.cost_type = Some(PriceType::PerUnit);
                    }
                    consume_whitespaces(tokenizer);
                    match parse_money(tokenizer) {
                        Ok((amount, currency)) => {
                            posting.cost_amount = Some(amount);
                            posting.cost_currency = Some(currency);
                        },
                        Err(e) => {
                            return Err(e);
                        },
                    }
                } else {
                    match parse_money(tokenizer) {
                        Ok((amount, currency)) => {
                            posting.money_amount = Some(amount);
                            posting.money_currency = Some(currency);
                        },
                        Err(e) => {
                            match transaction_type {
                                TransactionType::Automated => {
                                    let q0 = tokenizer.position;
                                    proof {
                                        crate::chars::lemma_line_end(c0, q0 as int);
                                    }
                                    posting.amount_expr = Some(get_line(tokenizer));
                                    if tokenizer.position > q0 && tokenizer.content[tokenizer.position - 1] == '\n' {
                                        tokenizer.line_index = tokenizer.line_index - 1;
                                        tokenizer.position = tokenizer.position - 1;
                                    }
                                },
                                _ => {
                                    return Err(e);
                                },
                            }
                        },
                    }
                }
                if more {
                    consume_whitespaces(tokenizer);
                    if tokenizer.position <= before {
                        return Err(ParserError::UnexpectedInput(None));
                    }
                }
            },
        }
    }
    Ok(posting)
}

/// The transaction holds what its first line `s` gives (see `parse_header`):
/// the dates, the state, the code and the description.
pub open spec fn header_read(t: Transaction<Posting>, s: Seq<char>) -> bool {
    header_layout(s) matches Some((eff, _, cleared, code, d)) && {
        &&& t.date matches Some(x) && crate::numbers::date_value(s) == Some((x.year as int, x.month as int, x.day as int))
        &&& (match eff {
            Some(e) => t.effective_date matches Some(x) && crate::numbers::date_value(s.skip(e)) == Some(
                (x.year as int, x.month as int, x.day as int),
            ),
            None => t.effective_date is None,
        })
        &&& t.cleared == cleared
        &&& (match code {
            Some((b, e)) => t.code matches Some(x) && x@ == s.subrange(b, e),
            None => t.code is None,
        })
        &&& t.description@ == s.skip(d)
    }
}

/// The descriptions of postings.
pub open spec fn postings_desc(v: Seq<Posting>) -> Seq<PostingDesc> {
    v.map_values(|p: Posting| posting_desc(p))
}

/// The texts of comments.
pub open spec fn comment_texts(v: Seq<Comment>) -> Seq<Seq<char>> {
    v.map_values(|c: Comment| c.comment@)
}

/// The first line of a real transaction can be read: its layout is right
/// and its dates exist.
pub open spec fn header_ok(s: Seq<char>) -> bool {
    header_layout(s) matches Some((eff, _, _, _, _)) && crate::numbers::date_value(s) is Some && (eff matches Some(x)
        ==> crate::numbers::date_value(s.skip(x)) is Some)
}

/// Reading the lines of a transaction after its first line, from `i` on,
/// with the postings `ps` and comments `cs` read so far: where it stops
/// (at the first line that is not indented) and the postings and comments,
/// or the error. An indented line holds a comment (`;`) or a posting; one
/// that starts with a digit is refused, and so is a line that reads
/// nothing.
pub open spec fn generic_lines(
    c: Seq<char>,
    i: int,
    automated: bool,
    ps: Seq<PostingDesc>,
    cs: Seq<Seq<char>>,
) -> Result<(int, Seq<PostingDesc>, Seq<Seq<char>>), ParserErrorV>
    decreases c.len() - i,
{
    let q = crate::chars::skip_blank(c, i);
    if !(q < c.len() && crate::chars::column(c, q) != 0) {
        Ok((q, ps, cs))
    } else if c[q] == ';' {
        let a = comment_start(c, q);
        let n = comment_end(c, q);
        if i < n <= c.len() {
            generic_lines(c, n, automated, ps, cs.push(c.subrange(a, line_end(c, a))))
        } else {
            Err(ParserErrorV::UnexpectedInput(None))
        }
    } else if numeric(c[q]) {
        Err(ParserErrorV::UnexpectedInput(Some("Expecting account name"@)))
    } else {
        match posting_read(c, q, automated) {
            Err(v) => Err(v),
            Ok((n, d)) => if i < n <= c.len() {
                generic_lines(c, n, automated, ps.push(d), cs)
            } else {
                Err(ParserErrorV::UnexpectedInput(None))
            },
        }
    }
}

/// Reads a transaction: its first line (a real transaction's date, state,
/// code and description, see `parse_header`; an automated one's whole line
/// as its description), then its indented postings and comments.
#[verifier::rlimit(60)]
pub fn parse_generic(tokenizer: &mut Tokenizer, is_real: bool) -> (res: Result<Transaction<Posting>, ParserError>)
    requires
        old(tokenizer).wf(),
    ensures
        final(tokenizer).wf(),
        same_text(*final(tokenizer), *old(tokenizer)),
        res matches Ok(t) ==> {
            &&& t.transaction_type == (if is_real { TransactionType::Real } else { TransactionType::Automated })
            &&& t.status == crate::transaction::TransactionStatus::NotChecked
            &&& t.virtual_postings@.len() == 0
            &&& t.virtual_postings_balance@.len() == 0
            &&& forall|i: int| 0 <= i < t.postings@.len() ==> posting_consistent(#[trigger] t.postings@[i])
            &&& is_real ==> t.date is Some
            &&& !is_real ==> t.date is None && t.description@ == line_at(old(tokenizer).content@, old(tokenizer).position as int)
            &&& is_real ==> header_read(t, line_at(old(tokenizer).content@, old(tokenizer).position as int))
        },
        is_real && header_layout(line_at(old(tokenizer).content@, old(tokenizer).position as int)) is None ==> res matches Err(
            ParserError::UnexpectedInput(None),
        ),
        is_real && !header_ok(line_at(old(tokenizer).content@, old(tokenizer).position as int)) ==> res matches Err(
            ParserError::UnexpectedInput(None),
        ),
        res is Ok ==> column_known(*final(tokenizer)),
        ({
            let c = old(tokenizer).content@;
            let e = line_end(c, old(tokenizer).position as int);
            let start = if e < c.len() { e + 1 } else { e };
            (!is_real || header_ok(line_at(c, old(tokenizer).position as int))) ==> match generic_lines(c, start, !is_real, seq![], seq![]) {
                Err(v) => res matches Err(x) && x@ == v,
                Ok((end, ps, cs)) => res matches Ok(t) && postings_desc(t.postings@) == ps && comment_texts(t.comments@) == cs
                    && final(tokenizer).position == end,
            }
        }),
{
    let ghost c0 = tokenizer.content@;
    proof {
        crate::chars::lemma_line_end(tokenizer.content@, tokenizer.position as int);
    }
    let line = get_line(tokenizer);
    let chars = chars_of(line.as_str());
    let mut transaction: Transaction<Posting> = Transaction::new(if is_real {
        TransactionType::Real
    } else {
        TransactionType::Automated
    });
    if is_real {
        let header = parse_header(&chars)?;
        transaction.date = Some(header.date);
        transaction.effective_date = header.effective_date;
        transaction.cleared = header.cleared;
        transaction.code = header.code;
        transaction.description = header.description;
    } else {
        transaction.description = line;
    }
    let ghost start = tokenizer.position as int;
    assert(postings_desc(transaction.postings@) =~= Seq::<PostingDesc>::empty());
    assert(comment_texts(transaction.comments@) =~= Seq::<Seq<char>>::empty());
    let mut more = true;
    while more
        invariant
            tokenizer.wf(),
            same_text(*tokenizer, *old(tokenizer)),
            c0 == tokenizer.content@,
            c0 == old(tokenizer).content@,
            start == (if line_end(c0, old(tokenizer).position as int) < c0.len() {
                line_end(c0, old(tokenizer).position as int) + 1
            } else {
                line_end(c0, old(tokenizer).position as int)
            }),
            is_real ==> header_ok(line_at(c0, old(tokenizer).position as int)),
            tokenizer.position >= c0.len() || c0[tokenizer.position as int] == '\n' || tokenizer.line_position
                == crate::chars::column(c0, tokenizer.position as int),
            more ==> generic_lines(c0, start, !is_real, seq![], seq![]) == generic_lines(
                c0,
                tokenizer.position as int,
                !is_real,
                postings_desc(transaction.postings@),
                comment_texts(transaction.comments@),
            ),
            !more ==> generic_lines(c0, start, !is_real, seq![], seq![]) == Ok::<
                (int, Seq<PostingDesc>, Seq<Seq<char>>),
                ParserErrorV,
            >((tokenizer.position as int, postings_desc(transaction.postings@), comment_texts(transaction.comments@))),
            transaction.transaction_type == (if is_real { TransactionType::Real } else { TransactionType::Automated }),
            transaction.status == crate::transaction::TransactionStatus::NotChecked,
            transaction.virtual_postings@.len() == 0,
            transaction.virtual_postings_balance@.len() == 0,
            forall|i: int| 0 <= i < transaction.postings@.len() ==> posting_consistent(#[trigger] transaction.postings@[i]),
            is_real ==> transaction.date is Some,
            !is_real ==> transaction.date is None && transaction.description@ == line_at(old(tokenizer).content@, old(tokenizer).position as int),
            is_real ==> header_read(transaction, line_at(old(tokenizer).content@, old(tokenizer).position as int)),
        decreases tokenizer.content@.len() - tokenizer.position, if more { 1int } else { 0int },
    {
        let before = tokenizer.position;
        let ghost t0 = *tokenizer;
        let ghost ps0 = transaction.postings@;
        let ghost cs0 = transaction.comments@;
        let lt = consume_whitespaces_and_lines(tokenizer);
        proof {
            let q = tokenizer.position as int;
            crate::chars::lemma_skip_blank(c0, before as int);
            if (before as int) < c0.len() {
                if c0[before as int] == '\n' {
                    crate::chars::lemma_skip_blank(c0, before + 1);
                    assert(q == crate::chars::skip_blank(c0, before + 1));
                }
                crate::chars::lemma_advance_column(c0, before as int, q, t0.line_index as int, t0.line_position as int);
            }
        }
        match lt {
            LineType::Blank => {
                more = false;
            },
            LineType::Indented => {
                let c = tokenizer.content[tokenizer.position];
                if c == ';' {
                    let ghost q = tokenizer.position as int;
                    let comment = parse_comment(tokenizer);
                    transaction.comments.push(comment);
                    proof {
                        assert(comment_texts(transaction.comments@) =~= comment_texts(cs0).push(comment.comment@));
                        crate::chars::lemma_skip_blank(c0, q + 1);
                        crate::chars::lemma_line_end(c0, comment_start(c0, q));
                    }
                } else if is_numeric(c) {
                    return Err(ParserError::UnexpectedInput(Some(String::from_str("Expecting account name"))));
                } else {
                    let posting = parse_posting(tokenizer, transaction.transaction_type)?;
                    let ghost d = posting_desc(posting);
                    transaction.postings.push(posting);
                    proof {
                        assert(postings_desc(transaction.postings@) =~= postings_desc(ps0).push(d));
                    }
                }
                if tokenizer.position <= before {
                    return Err(ParserError::UnexpectedInput(None));
                }
            },
        }
    }
    Ok(transaction)
}

/// `c` may be part of a price's quantity.
pub open spec fn quantity_char(c: char) -> bool {
    is_digit(c) || c == '.' || c == ','
}

/// The end of the quantity that starts at `i`.
pub open spec fn quantity_end(s: Seq<char>, i: int) -> int
    decreases s.len() - i,
{
    if 0 <= i < s.len() && quantity_char(s[i]) {
        quantity_end(s, i + 1)
    } else {
        i
    }
}

/// A price line can be split at the space `a`: after it come more spaces,
/// a quantity and at least one space.
pub open spec fn price_split(s: Seq<char>, from: int, a: int) -> bool {
    &&& from <= a < s.len()
    &&& s[a] == ' '
    &&& quantity_end(s, skip_sp(s, a + 1)) > skip_sp(s, a + 1)
    &&& quantity_end(s, skip_sp(s, a + 1)) < s.len()
    &&& s[quantity_end(s, skip_sp(s, a + 1))] == ' '
}

proof fn lemma_quantity_end(s: Seq<char>, i: int)
    requires
        0 <= i <= s.len(),
    ensures
        i <= quantity_end(s, i) <= s.len(),
        forall|k: int| i <= k < quantity_end(s, i) ==> quantity_char(s[k]),
    decreases s.len() - i,
{
    if i < s.len() && quantity_char(s[i]) {
        lemma_quantity_end(s, i + 1);
    }
}

/// The last space from `from` on at which the price line `s` can be split
/// (see `price_split`).
pub open spec fn last_price_split(s: Seq<char>, from: int) -> Option<int> {
    if exists|a: int| price_split(s, from, a) && forall|q: int| a < q ==> !#[trigger] price_split(s, from, q) {
        Some(choose|a: int| price_split(s, from, a) && forall|q: int| a < q ==> !#[trigger] price_split(s, from, q))
    } else {
        None
    }
}

/// Where the parts of a price line are: the date at `d` and the split
/// after the commodity at `a`; none when the line is not a price.
pub open spec fn price_layout(s: Seq<char>) -> Option<(int, int)> {
    if s.len() == 0 || s[0] != 'P' {
        None
    } else {
        let d = skip_sp(s, 1);
        if d == 1 || s.len() - d < 11 || crate::numbers::date_value(s.skip(d)) is None || s[d + 10] != ' ' {
            None
        } else {
            match last_price_split(s, skip_sp(s, d + 10)) {
                Some(a) => Some((d, a)),
                None => None,
            }
        }
    }
}

/// Reads a `P` directive: `P`, spaces, a date, spaces, the commodity, spaces,
/// the quantity (digits, `.` and `,`), spaces and the other commodity. The
/// commodity extends to the last space that is followed by a quantity and a
/// space.
pub fn parse_price(tokenizer: &mut Tokenizer) -> (res: Result<ParsedPrice, ParserError>)
    requires
        old(tokenizer).wf(),
    ensures
        final(tokenizer).wf(),
        same_source(*final(tokenizer), *old(tokenizer)),
        column_known(*final(tokenizer)),
        final(tokenizer).position == next_line(old(tokenizer).content@, old(tokenizer).position as int),
        ({
            let line = line_at(old(tokenizer).content@, old(tokenizer).position as int);
            match price_layout(line) {
                None => res matches Err(ParserError::UnexpectedInput(Some(m))) && m@ == "Expected price."@,
                Some((d, a)) => {
                    let b = skip_sp(line, a + 1);
                    let e = quantity_end(line, b);
                    match quantity_value(line.subrange(b, e)) {
                        Err(v) => res matches Err(x) && x@ == v,
                        Ok(q) => res matches Ok(p) && {
                            &&& crate::numbers::date_value(line.skip(d)) == Some(
                                (p.date.year as int, p.date.month as int, p.date.day as int),
                            )
                            &&& p.commodity@ == line.subrange(skip_sp(line, d + 10), a)
                            &&& p.other_quantity.view() == q
                            &&& p.other_commodity@ == line.skip(skip_sp(line, e))
                        },
                    }
                },
            }
        }),
{
    proof {
        crate::chars::lemma_line_end(tokenizer.content@, tokenizer.position as int);
    }
    let text = get_line(tokenizer);
    let line = chars_of(text.as_str());
    let n = line.len();
    if n == 0 || line[0] != 'P' {
        return Err(ParserError::UnexpectedInput(Some(String::from_str("Expected price."))));
    }
    let d = skip_sp_exec(&line, 1);
    if d == 1 || n - d < 11 {
        return Err(ParserError::UnexpectedInput(Some(String::from_str("Expected price."))));
    }
    let date_chars = sub_vec(&line, d, n);
    assert(date_chars@ =~= line@.skip(d as int));
    let date = match parse_date(&date_chars) {
        Ok(x) => x,
        Err(_) => {
            return Err(ParserError::UnexpectedInput(Some(String::from_str("Expected price."))));
        },
    };
    if line[d + 10] != ' ' {
        return Err(ParserError::UnexpectedInput(Some(String::from_str("Expected price."))));
    }
    let start = skip_sp_exec(&line, d + 10);
    let mut a = n;
    let mut found = false;
    while a > start && !found
        invariant
            n == line@.len(),
            d + 10 <= start <= a <= n,
            start == skip_sp(line@, (d + 10) as int),
            found ==> price_split(line@, start as int, a as int) && forall|q: int| a < q ==> !#[trigger] price_split(line@, start as int, q),
            !found ==> forall|q: int| a <= q ==> !#[trigger] price_split(line@, start as int, q),
        decreases a, if found { 0int } else { 1int },
    {
        let k = a - 1;
        if line[k] == ' ' {
            let b = skip_sp_exec(&line, k + 1);
            let mut e = b;
            proof {
                lemma_quantity_end(line@, b as int);
            }
            while e < n && (('0' <= line[e] && line[e] <= '9') || line[e] == '.' || line[e] == ',')
                invariant
                    n == line@.len(),
                    b <= e <= n,
                    quantity_end(line@, b as int) == quantity_end(line@, e as int),
                decreases n - e,
            {
                e = e + 1;
            }
            if e > b && e < n && line[e] == ' ' {
                found = true;
                a = k;
            } else {
                a = k;
            }
        } else {
            a = k;
        }
    }
    if !found {
        proof {
            assert(!exists|x: int| price_split(line@, start as int, x));
        }
        return Err(ParserError::UnexpectedInput(Some(String::from_str("Expected price."))));
    }
    proof {
        let w = choose|x: int| price_split(line@, start as int, x) && forall|q: int| x < q ==> !#[trigger] price_split(line@, start as int, q);
        assert(price_split(line@, start as int, w));
        if w < a {
            assert(!price_split(line@, start as int, a as int));
        }
        if a < w {
            assert(!price_split(line@, start as int, w));
        }
        assert(last_price_split(line@, start as int) == Some(a as int));
    }
    let b = skip_sp_exec(&line, a + 1);
    let mut e = b;
    proof {
        lemma_quantity_end(line@, b as int);
    }
    while e < n && (('0' <= line[e] && line[e] <= '9') || line[e] == '.' || line[e] == ',')
        invariant
            n == line@.len(),
            b <= e <= n,
            quantity_end(line@, b as int) == quantity_end(line@, e as int),
        decreases n - e,
    {
        e = e + 1;
    }
    let commodity = string_from_chars(sub_vec(&line, start, a).as_slice());
    let quantity = sub_vec(&line, b, e);
    let o = skip_sp_exec(&line, e);
    let other = sub_vec(&line, o, n);
    assert(other@ =~= line@.skip(o as int));
    let other_quantity = parse_quantity(&quantity)?;
    Ok(ParsedPrice {
        date,
        commodity,
        other_commodity: string_from_chars(other.as_slice()),
        other_quantity,
    })
}

/// The quantity of a price read from `s`: digits and minus signs with at
/// most one decimal point, up to the first other character. A numerator that
/// does not fit 64 bits is a wrong number format, a denominator that does not
/// fit is unexpected input.
pub open spec fn quantity_value(s: Seq<char>) -> Result<(int, int), ParserErrorV> {
    match crate::numbers::amount_scan(s, 0, false, Seq::empty(), 0).1 {
        None => Err(ParserErrorV::UnexpectedInput(Some("Too many decimal separators"@))),
        Some((num, scale)) => match crate::numbers::int_value(num) {
            Some(v) => if !crate::numbers::fits(v) {
                Err(ParserErrorV::UnexpectedInput(Some("Wrong number format"@)))
            } else if crate::numbers::pow10(scale) > i64::MAX {
                Err(ParserErrorV::UnexpectedInput(None))
            } else if crate::rational::normalize(v, crate::numbers::pow10(scale)).0 == i64::MIN {
                Err(ParserErrorV::Overflow)
            } else {
                Ok(crate::rational::normalize(v, crate::numbers::pow10(scale)))
            },
            None => Err(ParserErrorV::UnexpectedInput(Some("Wrong number format"@))),
        },
    }
}

/// Reads the quantity of a price (see `quantity_value`).
fn parse_quantity(s: &Vec<char>) -> (res: Result<Rational, ParserError>)
    ensures
        match quantity_value(s@) {
            Ok(q) => res matches Ok(r) && r.view() == q,
            Err(v) => res matches Err(x) && x@ == v,
        },
{
    let mut num: Vec<char> = Vec::new();
    let mut scale: usize = 0;
    let mut decimal = false;
    let n = s.len();
    let mut i: usize = 0;
    let mut stopped = false;
    while i < n && !stopped
        invariant
            n == s@.len(),
            i <= n,
            scale <= i,
            !decimal ==> scale == 0,
            crate::numbers::amount_scan(s@, 0, false, Seq::empty(), 0) == (if stopped {
                (i as int, Some((num@, scale as nat)))
            } else {
                crate::numbers::amount_scan(s@, i as int, decimal, num@, scale as nat)
            }),
        decreases n - i, if stopped { 0int } else { 1int },
    {
        let c = s[i];
        if c == '.' {
            if decimal {
                return Err(ParserError::UnexpectedInput(Some(String::from_str("Too many decimal separators"))));
            }
            decimal = true;
            i = i + 1;
        } else if c == '-' || is_numeric(c) {
            num.push(c);
            if decimal {
                scale = scale + 1;
            }
            i = i + 1;
        } else {
            stopped = true;
        }
    }
    let v = match parse_int(&num) {
        Some(v) => v,
        None => {
            return Err(ParserError::UnexpectedInput(Some(String::from_str("Wrong number format"))));
        },
    };
    let d = match pow10_i64(scale) {
        Some(d) => d,
        None => {
            return Err(ParserError::UnexpectedInput(None));
        },
    };
    match Rational::new(v, d) {
        Some(r) => Ok(r),
        None => Err(ParserError::Overflow),
    }
}

/// The kinds of item a journal holds.
#[derive(Debug, Copy, Clone, PartialEq, Eq, Structural)]
pub enum JournalItem {
    Comment,
    Real,
    Automated,
    Commodity,
    Payee,
    Tag,
    Account,
    Price,
}

/// The text of the comment whose marker is at `q`.
pub open spec fn comment_text_at(c: Seq<char>, q: int) -> Seq<char> {
    c.subrange(comment_start(c, q), line_end(c, comment_start(c, q)))
}

/// Reading the item whose first line starts at `q`: its kind and where it
/// ends, or the error. The first character tells the kind: a comment marker
/// (`;`, `!`, `*`, `%`, `#`), a digit (a transaction), `=` (an automated
/// transaction), `c`, `p`, `t`, `a` (the `commodity`, `payee`, `tag` and
/// `account` directives) or `P` (a price).
pub open spec fn item_end(c: Seq<char>, q: int) -> Result<(JournalItem, int), ParserErrorV> {
    let ch = c[q];
    let line = line_at(c, q);
    if ch == ';' || ch == '!' || ch == '*' || ch == '%' || ch == '#' {
        Ok((JournalItem::Comment, comment_end(c, q)))
    } else if numeric(ch) || ch == '=' {
        let is_real = numeric(ch);
        if is_real && !header_ok(line) {
            Err(ParserErrorV::UnexpectedInput(None))
        } else {
            match generic_lines(c, next_line(c, q), !is_real, seq![], seq![]) {
                Err(v) => Err(v),
                Ok((n, _, _)) => Ok((if is_real { JournalItem::Real } else { JournalItem::Automated }, n)),
            }
        }
    } else if ch == 'c' || ch == 'p' || ch == 't' || ch == 'a' {
        let (kw, keys, kind) = if ch == 'c' {
            ("commodity"@, commodity_keys(), JournalItem::Commodity)
        } else if ch == 'p' {
            ("payee"@, payee_keys(), JournalItem::Payee)
        } else if ch == 't' {
            ("tag"@, tag_keys(), JournalItem::Tag)
        } else {
            ("account"@, account_keys(), JournalItem::Account)
        };
        match directive_argument(line, kw) {
            None => Err(ParserErrorV::UnexpectedInput(None)),
            Some(_) => match directive_lines(c, next_line(c, q), keys, seq![]) {
                Err(v) => Err(v),
                Ok((n, _)) => Ok((kind, n)),
            },
        }
    } else if ch == 'P' {
        match price_layout(line) {
            None => Err(ParserErrorV::UnexpectedInput(Some("Expected price."@))),
            Some((d, a)) => {
                let b = skip_sp(line, a + 1);
                match quantity_value(line.subrange(b, quantity_end(line, b))) {
                    Err(v) => Err(v),
                    Ok(_) => Ok((JournalItem::Price, next_line(c, q))),
                }
            },
        }
    } else {
        Err(ParserErrorV::UnexpectedInput(None))
    }
}

/// Reading a journal from `i` on, with the items `items` (kinds and
/// positions) read so far: where it stops, the items, and the pattern of
/// the `include` directive it stopped at (if any), or the error. Items
/// start at the beginning of a line; blank lines are skipped and an
/// indented line is refused. An item that reads nothing is unexpected
/// input.
pub open spec fn journal_items(c: Seq<char>, i: int, items: Seq<(JournalItem, int)>) -> Result<
    (int, Seq<(JournalItem, int)>, Option<Seq<char>>),
    ParserErrorV,
>
    decreases c.len() - i,
{
    let q = crate::chars::skip_blank(c, i);
    if q >= c.len() {
        Ok((q, items, None))
    } else if crate::chars::column(c, q) != 0 {
        Err(ParserErrorV::UnexpectedInput(Some("Unexpected indentation"@)))
    } else if c[q] == 'i' {
        let k = q + "include "@.len();
        if k <= c.len() && c.subrange(q, k) == "include "@ {
            Ok((next_line(c, k), items, Some(c.subrange(k, line_end(c, k)))))
        } else {
            Err(ParserErrorV::UnexpectedInput(None))
        }
    } else {
        match item_end(c, q) {
            Err(v) => Err(v),
            Ok((kind, n)) => if i < n <= c.len() {
                journal_items(c, n, items.push((kind, q)))
            } else {
                Err(ParserErrorV::UnexpectedInput(None))
            },
        }
    }
}

/// What `parse_generic` gives for the transaction at `q`.
pub open spec fn transaction_read(t: Transaction<Posting>, c: Seq<char>, q: int, is_real: bool) -> bool {
    let line = line_at(c, q);
    &&& t.transaction_type == (if is_real { TransactionType::Real } else { TransactionType::Automated })
    &&& t.status == crate::transaction::TransactionStatus::NotChecked
    &&& t.virtual_postings@.len() == 0
    &&& t.virtual_postings_balance@.len() == 0
    &&& forall|i: int| 0 <= i < t.postings@.len() ==> posting_consistent(#[trigger] t.postings@[i])
    &&& is_real ==> header_read(t, line)
    &&& !is_real ==> t.date is None && t.description@ == line
    &&& generic_lines(c, next_line(c, q), !is_real, seq![], seq![]) matches Ok((_, ps, cs)) && postings_desc(t.postings@)
        == ps && comment_texts(t.comments@) == cs
}

/// What `parse_price` gives for the price at `q`.
pub open spec fn price_read(p: ParsedPrice, c: Seq<char>, q: int) -> bool {
    let line = line_at(c, q);
    price_layout(line) matches Some((d, a)) && {
        let b = skip_sp(line, a + 1);
        let e = quantity_end(line, b);
        &&& crate::numbers::date_value(line.skip(d)) == Some((p.date.year as int, p.date.month as int, p.date.day as int))
        &&& p.commodity@ == line.subrange(skip_sp(line, d + 10), a)
        &&& quantity_value(line.subrange(b, e)) == Ok::<(int, int), ParserErrorV>(p.other_quantity.view())
        &&& p.other_commodity@ == line.skip(skip_sp(line, e))
    }
}

/// What `parse_tag` gives for the tag directive at `q`.
pub open spec fn tag_read(tg: Tag, c: Seq<char>, q: int) -> bool {
    directive_argument(line_at(c, q), "tag"@) matches Some(a) && directive_lines(c, next_line(c, q), tag_keys(), seq![])
        matches Ok((_, kv)) && {
        &&& tg.name@ == trim(a)
        &&& strings_view(tg.check@) == all_values(kv, "check"@)
        &&& strings_view(tg.assert@) == all_values(kv, "assert"@)
        &&& tg.value is None
    }
}

/// What `parse_account` gives for the account directive at `q`.
pub open spec fn account_read(t: Account, c: Seq<char>, q: int) -> bool {
    directive_argument(line_at(c, q), "account"@) matches Some(a) && directive_lines(
        c,
        next_line(c, q),
        account_keys(),
        seq![],
    ) matches Ok((_, kv)) && {
        &&& t.name@ == a
        &&& t.origin == Origin::FromDirective
        &&& opt_view(t.note) == last_value(kv, "note"@)
        &&& opt_view(t.isin) == last_value(kv, "isin"@)
        &&& strings_view(t.aliases@) == unique_values(kv, "alias"@)
        &&& strings_view(t.check@) == all_values(kv, "check"@)
        &&& strings_view(t.assert@) == all_values(kv, "assert"@)
        &&& strings_view(t.payee@) == all_values(kv, "payee"@)
        &&& t.default == has_key(kv, "default"@)
    }
}

/// What `parse_commodity` gives for the commodity directive at `q`.
pub open spec fn commodity_read(t: Currency, c: Seq<char>, q: int) -> bool {
    directive_argument(line_at(c, q), "commodity"@) matches Some(a) && directive_lines(
        c,
        next_line(c, q),
        commodity_keys(),
        seq![],
    ) matches Ok((_, kv)) && {
        &&& t.name@ == a
        &&& t.origin == Origin::FromDirective
        &&& opt_view(t.note) == last_value(kv, "note"@)
        &&& strings_view(t.aliases@) == unique_values(kv, "alias"@)
        &&& opt_view(t.format) == last_value(kv, "format"@)
        &&& t.default == has_key(kv, "default"@)
    }
}

/// What `parse_payee` gives for the payee directive at `q`.
pub open spec fn payee_read(t: Payee, c: Seq<char>, q: int) -> bool {
    directive_argument(line_at(c, q), "payee"@) matches Some(a) && directive_lines(
        c,
        next_line(c, q),
        payee_keys(),
        seq![],
    ) matches Ok((_, kv)) && {
        &&& t.name@ == a
        &&& t.origin == Origin::FromDirective
        &&& opt_view(t.note) == last_value(kv, "note"@)
        &&& strings_view(t.alias@) == unique_values(kv, "alias"@)
    }
}

/// What reading the item of kind `kind` at `q` did to the accounts, the
/// commodities and the payees: the element of an account, commodity or payee
/// directive is inserted into its list; the other lists stay as they were.
pub open spec fn lists_step(a: ParsedLedger, b: ParsedLedger, c: Seq<char>, kind: JournalItem, q: int) -> bool {
    &&& (kind == JournalItem::Account ==> exists|x: Account| #[trigger] account_read(x, c, q) && list_added(a.accounts, b.accounts, x))
    &&& (kind != JournalItem::Account ==> list_same(a.accounts, b.accounts))
    &&& (kind == JournalItem::Commodity ==> exists|x: Currency| #[trigger] commodity_read(x, c, q) && list_added(
        a.commodities,
        b.commodities,
        x,
    ))
    &&& (kind != JournalItem::Commodity ==> list_same(a.commodities, b.commodities))
    &&& (kind == JournalItem::Payee ==> exists|x: Payee| #[trigger] payee_read(x, c, q) && list_added(a.payees, b.payees, x))
    &&& (kind != JournalItem::Payee ==> list_same(a.payees, b.payees))
}

/// What reading `items` did to the accounts, the commodities and the payees:
/// the element of each of their directives was inserted, in order.
pub open spec fn lists_run(a: ParsedLedger, b: ParsedLedger, c: Seq<char>, items: Seq<(JournalItem, int)>) -> bool
    decreases items.len(),
{
    if items.len() == 0 {
        &&& list_same(a.accounts, b.accounts)
        &&& list_same(a.commodities, b.commodities)
        &&& list_same(a.payees, b.payees)
    } else {
        exists|m: ParsedLedger|
            lists_run(a, m, c, items.drop_last()) && #[trigger] lists_step(m, b, c, items.last().0, items.last().1)
    }
}

/// The accounts, the commodities and the payees are empty.
pub open spec fn lists_empty(a: ParsedLedger) -> bool {
    &&& a.accounts.items() == Map::<Seq<char>, Rc<Account>>::empty()
    &&& a.accounts.keys() == Seq::<Seq<char>>::empty()
    &&& a.accounts.alias_map() == Map::<Seq<char>, Seq<char>>::empty()
    &&& a.commodities.items() == Map::<Seq<char>, Rc<Currency>>::empty()
    &&& a.commodities.keys() == Seq::<Seq<char>>::empty()
    &&& a.commodities.alias_map() == Map::<Seq<char>, Seq<char>>::empty()
    &&& a.payees.items() == Map::<Seq<char>, Rc<Payee>>::empty()
    &&& a.payees.keys() == Seq::<Seq<char>>::empty()
    &&& a.payees.alias_map() == Map::<Seq<char>, Seq<char>>::empty()
}

/// What reading the item of kind `kind` at `q` did to the ledger: a comment,
/// a transaction, a price or a tag is added at the end of its list (the
/// others stay as they were); a commodity, payee or account goes into its
/// list, the others stay.
pub open spec fn ledger_step(a: ParsedLedger, b: ParsedLedger, c: Seq<char>, kind: JournalItem, q: int) -> bool {
    &&& b.comments@ == (if kind == JournalItem::Comment {
        a.comments@.push(b.comments@.last())
    } else {
        a.comments@
    })
    &&& (kind == JournalItem::Comment ==> b.comments@.last().comment@ == comment_text_at(c, q))
    &&& b.transactions@ == (if kind == JournalItem::Real || kind == JournalItem::Automated {
        a.transactions@.push(b.transactions@.last())
    } else {
        a.transactions@
    })
    &&& (kind == JournalItem::Real || kind == JournalItem::Automated ==> transaction_read(
        b.transactions@.last(),
        c,
        q,
        kind == JournalItem::Real,
    ))
    &&& b.prices@ == (if kind == JournalItem::Price {
        a.prices@.push(b.prices@.last())
    } else {
        a.prices@
    })
    &&& (kind == JournalItem::Price ==> price_read(b.prices@.last(), c, q))
    &&& b.tags@ == (if kind == JournalItem::Tag {
        a.tags@.push(b.tags@.last())
    } else {
        a.tags@
    })
    &&& (kind == JournalItem::Tag ==> tag_read(b.tags@.last(), c, q))
    &&& lists_step(a, b, c, kind, q)
}

/// The texts of the comments among `items`, in order.
pub open spec fn item_comments(c: Seq<char>, items: Seq<(JournalItem, int)>) -> Seq<Seq<char>>
    decreases items.len(),
{
    if items.len() == 0 {
        seq![]
    } else {
        let r = item_comments(c, items.drop_last());
        if items.last().0 == JournalItem::Comment {
            r.push(comment_text_at(c, items.last().1))
        } else {
            r
        }
    }
}

/// The transactions among `items`, in order: whether each is real, and its
/// position.
pub open spec fn transaction_items(items: Seq<(JournalItem, int)>) -> Seq<(bool, int)>
    decreases items.len(),
{
    if items.len() == 0 {
        seq![]
    } else {
        let r = transaction_items(items.drop_last());
        if items.last().0 == JournalItem::Real || items.last().0 == JournalItem::Automated {
            r.push((items.last().0 == JournalItem::Real, items.last().1))
        } else {
            r
        }
    }
}

/// The positions of the items of kind `kind` among `items`, in order.
pub open spec fn kind_items(items: Seq<(JournalItem, int)>, kind: JournalItem) -> Seq<int>
    decreases items.len(),
{
    if items.len() == 0 {
        seq![]
    } else {
        let r = kind_items(items.drop_last(), kind);
        if items.last().0 == kind {
            r.push(items.last().1)
        } else {
            r
        }
    }
}

/// What reading the items `items` did to the ledger: their comments,
/// transactions, prices and tags were added at the end, in order, each as
/// its parser reads it.
pub open spec fn ledger_run(a: ParsedLedger, b: ParsedLedger, c: Seq<char>, items: Seq<(JournalItem, int)>) -> bool {
    let ti = transaction_items(items);
    let pi = kind_items(items, JournalItem::Price);
    let gi = kind_items(items, JournalItem::Tag);
    &&& comment_texts(b.comments@) == comment_texts(a.comments@) + item_comments(c, items)
    &&& b.transactions@.len() == a.transactions@.len() + ti.len()
    &&& forall|k: int| 0 <= k < a.transactions@.len() ==> b.transactions@[k] == a.transactions@[k]
    &&& forall|k: int|
        0 <= k < ti.len() ==> transaction_read(#[trigger] b.transactions@[a.transactions@.len() + k], c, ti[k].1, ti[k].0)
    &&& b.prices@.len() == a.prices@.len() + pi.len()
    &&& forall|k: int| 0 <= k < a.prices@.len() ==> b.prices@[k] == a.prices@[k]
    &&& forall|k: int| 0 <= k < pi.len() ==> price_read(#[trigger] b.prices@[a.prices@.len() + k], c, pi[k])
    &&& b.tags@.len() == a.tags@.len() + gi.len()
    &&& forall|k: int| 0 <= k < a.tags@.len() ==> b.tags@[k] == a.tags@[k]
    &&& forall|k: int| 0 <= k < gi.len() ==> tag_read(#[trigger] b.tags@[a.tags@.len() + k], c, gi[k])
    &&& lists_run(a, b, c, items)
}

/// The ledger holds exactly what reading `items` gives: their comments,
/// transactions, prices and tags, in order.
pub open spec fn ledger_holds(b: ParsedLedger, c: Seq<char>, items: Seq<(JournalItem, int)>) -> bool {
    let ti = transaction_items(items);
    let pi = kind_items(items, JournalItem::Price);
    let gi = kind_items(items, JournalItem::Tag);
    &&& comment_texts(b.comments@) == item_comments(c, items)
    &&& b.transactions@.len() == ti.len()
    &&& forall|k: int| 0 <= k < ti.len() ==> transaction_read(#[trigger] b.transactions@[k], c, ti[k].1, ti[k].0)
    &&& b.prices@.len() == pi.len()
    &&& forall|k: int| 0 <= k < pi.len() ==> price_read(#[trigger] b.prices@[k], c, pi[k])
    &&& b.tags@.len() == gi.len()
    &&& forall|k: int| 0 <= k < gi.len() ==> tag_read(#[trigger] b.tags@[k], c, gi[k])
    &&& exists|a: ParsedLedger| lists_empty(a) && #[trigger] lists_run(a, b, c, items)
}

proof fn lemma_ledger_run_step(
    a: ParsedLedger,
    m: ParsedLedger,
    b: ParsedLedger,
    c: Seq<char>,
    items: Seq<(JournalItem, int)>,
    kind: JournalItem,
    q: int,
)
    requires
        ledger_run(a, m, c, items),
        ledger_step(m, b, c, kind, q),
    ensures
        ledger_run(a, b, c, items.push((kind, q))),
{
    let its = items.push((kind, q));
    assert(its.drop_last() =~= items);
    assert(its.last() == (kind, q));
    let ti = transaction_items(items);
    let ti2 = transaction_items(its);
    let al = a.transactions@.len();
    if kind == JournalItem::Comment {
        assert(comment_texts(b.comments@) =~= comment_texts(m.comments@).push(comment_text_at(c, q)));
        assert(comment_texts(b.comments@) =~= comment_texts(a.comments@) + item_comments(c, its));
    } else {
        assert(comment_texts(b.comments@) =~= comment_texts(a.comments@) + item_comments(c, its));
    }
    if kind == JournalItem::Real || kind == JournalItem::Automated {
        assert forall|k: int| 0 <= k < ti2.len() implies transaction_read(#[trigger] b.transactions@[al + k], c, ti2[k].1, ti2[k].0) by {
            if k < ti.len() {
                assert(b.transactions@[al + k] == m.transactions@[al + k]);
                assert(ti2[k] == ti[k]);
            }
        }
    }
    let pi = kind_items(items, JournalItem::Price);
    let pi2 = kind_items(its, JournalItem::Price);
    let pl = a.prices@.len();
    if kind == JournalItem::Price {
        assert forall|k: int| 0 <= k < pi2.len() implies price_read(#[trigger] b.prices@[pl + k], c, pi2[k]) by {
            if k < pi.len() {
                assert(b.prices@[pl + k] == m.prices@[pl + k]);
                assert(pi2[k] == pi[k]);
            }
        }
    }
    assert(lists_run(a, m, c, its.drop_last()) && lists_step(m, b, c, its.last().0, its.last().1));
    let gi = kind_items(items, JournalItem::Tag);
    let gi2 = kind_items(its, JournalItem::Tag);
    let gl = a.tags@.len();
    if kind == JournalItem::Tag {
        assert forall|k: int| 0 <= k < gi2.len() implies tag_read(#[trigger] b.tags@[gl + k], c, gi2[k]) by {
            if k < gi.len() {
                assert(b.tags@[gl + k] == m.tags@[gl + k]);
                assert(gi2[k] == gi[k]);
            }
        }
    }
}

impl Tokenizer {
    /// The error `err` at the cursor.
    pub fn error(&self, err: ParserError) -> (res: Error)
        ensures
            res.error == err,
            res.file == self.file,
            res.line_index == self.line_index,
            res.line_position == self.line_position,
    {
        let file = match &self.file {
            Some(f) => Some(f.clone()),
            None => None,
        };
        Error { error: err, file, line_index: self.line_index, line_position: self.line_position }
    }

    /// Reads the item whose first line starts at the cursor into `ledger`
    /// (see `item_end` and `ledger_step`).
    #[verifier::rlimit(60)]
    fn read_item(&mut self, ledger: &mut ParsedLedger) -> (res: Result<(), Error>)
        requires
            old(self).wf(),
            old(ledger).wf(),
            old(self).position < old(self).content@.len(),
            old(self).content@[old(self).position as int] != 'i',
        ensures
            final(self).wf(),
            final(ledger).wf(),
            same_text(*final(self), *old(self)),
            match item_end(old(self).content@, old(self).position as int) {
                Err(v) => res matches Err(x) && x.error@ == v,
                Ok((kind, n)) => res is Ok && final(self).position == n && column_known(*final(self)) && ledger_step(
                    *old(ledger),
                    *final(ledger),
                    old(self).content@,
                    kind,
                    old(self).position as int,
                ),
            },
    {
        let ghost c0 = self.content@;
        let ghost q = self.position as int;
        let c = self.content[self.position];
        if c == ';' || c == '!' || c == '*' || c == '%' || c == '#' {
            let comment = parse_comment(self);
            ledger.comments.push(comment);
            proof {
                crate::chars::lemma_skip_blank(c0, q + 1);
                crate::chars::lemma_line_end(c0, comment_start(c0, q));
            }
            Ok(())
        } else if is_numeric(c) || c == '=' {
            let is_real = is_numeric(c);
            match parse_generic(self, is_real) {
                Ok(t) => {
                    ledger.transactions.push(t);
                    Ok(())
                },
                Err(e) => Err(self.error(e)),
            }
        } else if c == 'c' {
            match parse_commodity(self) {
                Ok(x) => {
                    let ghost xg = x;
                    ledger.commodities.insert(x);
                    assert(commodity_read(xg, c0, q));
                    Ok(())
                },
                Err(e) => Err(self.error(e)),
            }
        } else if c == 'p' {
            match parse_payee(self) {
                Ok(x) => {
                    let ghost xg = x;
                    ledger.payees.insert(x);
                    assert(payee_read(xg, c0, q));
                    Ok(())
                },
                Err(e) => Err(self.error(e)),
            }
        } else if c == 't' {
            match parse_tag(self) {
                Ok(x) => {
                    ledger.tags.push(x);
                    Ok(())
                },
                Err(e) => Err(self.error(e)),
            }
        } else if c == 'a' {
            match parse_account(self) {
                Ok(x) => {
                    let ghost xg = x;
                    ledger.accounts.insert(x);
                    assert(account_read(xg, c0, q));
                    Ok(())
                },
                Err(e) => Err(self.error(e)),
            }
        } else if c == 'P' {
            match parse_price(self) {
                Ok(x) => {
                    ledger.prices.push(x);
                    Ok(())
                },
                Err(e) => Err(self.error(e)),
            }
        } else {
            Err(self.error(ParserError::UnexpectedInput(None)))
        }
    }

    /// Reads items into `ledger` up to the end of the content, or up to an
    /// `include` directive, whose pattern is returned (the cursor is then
    /// after its line): the caller reads the files it names into the ledger
    /// and calls again. See `journal_items` and `ledger_run`.
    pub fn tokenize_step(&mut self, ledger: &mut ParsedLedger) -> (res: Result<Option<String>, Error>)
        requires
            old(self).wf(),
            old(ledger).wf(),
            column_known(*old(self)),
        ensures
            final(self).wf(),
            final(ledger).wf(),
            same_text(*final(self), *old(self)),
            match journal_items(old(self).content@, old(self).position as int, seq![]) {
                Err(v) => res matches Err(x) && x.error@ == v,
                Ok((end, items, inc)) => {
                    &&& final(self).position == end
                    &&& column_known(*final(self))
                    &&& (match inc {
                        Some(pat) => res matches Ok(Some(s)) && s@ == pat,
                        None => res matches Ok(None),
                    })
                    &&& ledger_run(*old(ledger), *final(ledger), old(self).content@, items)
                },
            },
    {
        let ghost c0 = self.content@;
        let ghost start = self.position as int;
        let ghost mut items: Seq<(JournalItem, int)> = seq![];
        assert(comment_texts(ledger.comments@) + item_comments(c0, items) =~= comment_texts(ledger.comments@));
        loop
            invariant
                self.wf(),
                ledger.wf(),
                same_text(*self, *old(self)),
                c0 == self.content@,
                c0 == old(self).content@,
                start == old(self).position as int,
                column_known(*self),
                journal_items(c0, start, seq![]) == journal_items(c0, self.position as int, items),
                ledger_run(*old(ledger), *ledger, c0, items),
            decreases self.content@.len() - self.position,
        {
            let before = self.position;
            let ghost t0 = *self;
            let lt = consume_whitespaces_and_lines(self);
            proof {
                let q = self.position as int;
                crate::chars::lemma_skip_blank(c0, before as int);
                if (before as int) < c0.len() {
                    if c0[before as int] == '\n' {
                        crate::chars::lemma_skip_blank(c0, before + 1);
                        assert(q == crate::chars::skip_blank(c0, before + 1));
                    }
                    crate::chars::lemma_advance_column(c0, before as int, q, t0.line_index as int, t0.line_position as int);
                }
            }
            if self.position >= self.content.len() {
                return Ok(None);
            }
            match lt {
                LineType::Indented => {
                    let e = self.error(ParserError::UnexpectedInput(Some(String::from_str("Unexpected indentation"))));
                    return Err(e);
                },
                LineType::Blank => {},
            }
            let ghost q = self.position as int;
            let c = self.content[self.position];
            if c == 'i' {
                match consume_str(self, "include ") {
                    Ok(()) => {},
                    Err(e) => {
                        proof {
                            let k = q + "include "@.len();
                            if k <= c0.len() && c0.subrange(q, k) == "include "@ {
                                let j = self.position - q;
                                assert(c0.subrange(q, k)[j] == c0[self.position as int]);
                            }
                        }
                        return Err(self.error(e));
                    },
                }
                proof {
                    assert("include "@.take("include "@.len() as int) =~= "include "@);
                    crate::chars::lemma_line_end(c0, self.position as int);
                }
                let pattern = get_line(self);
                proof {
                    let p = self.position as int;
                    if p < c0.len() {
                        assert(c0[p - 1] == '\n');
                    }
                }
                return Ok(Some(pattern));
            }
            let ghost mid = *ledger;
            match self.read_item(ledger) {
                Ok(()) => {},
                Err(e) => {
                    return Err(e);
                },
            }
            if self.position <= before {
                return Err(self.error(ParserError::UnexpectedInput(None)));
            }
            proof {
                let (kind, n) = item_end(c0, q)->Ok_0;
                lemma_ledger_run_step(*old(ledger), mid, *ledger, c0, items, kind, q);
                items = items.push((kind, q));
            }
        }
    }

    /// Reads the whole content into a parsed ledger. An `include` directive
    /// cannot be followed here (its files are not read by the library): it is
    /// reported as a file that cannot be read, with its pattern.
    pub fn tokenize(&mut self) -> (res: Result<ParsedLedger, Error>)
        requires
            old(self).wf(),
            column_known(*old(self)),
        ensures
            final(self).wf(),
            same_text(*final(self), *old(self)),
            match journal_items(old(self).content@, old(self).position as int, seq![]) {
                Err(v) => res matches Err(x) && x.error@ == v,
                Ok((end, items, inc)) => match inc {
                    Some(pat) => res matches Err(x) && x.error@ == ParserErrorV::CannotReadFile(pat),
                    None => res matches Ok(l) && l.wf() && ledger_holds(l, old(self).content@, items),
                },
            },
    {
        let mut ledger = ParsedLedger::new();
        let ghost empty = ledger;
        match self.tokenize_step(&mut ledger) {
            Ok(None) => {
                proof {
                    let items = (journal_items(old(self).content@, old(self).position as int, seq![])->Ok_0).1;
                    assert(comment_texts(empty.comments@) =~= Seq::<Seq<char>>::empty());
                    assert(comment_texts(empty.comments@) + item_comments(old(self).content@, items) =~= item_comments(
                        old(self).content@,
                        items,
                    ));
                    let c = old(self).content@;
                    let ti = transaction_items(items);
                    let pi = kind_items(items, JournalItem::Price);
                    let gi = kind_items(items, JournalItem::Tag);
                    assert forall|k: int| 0 <= k < ti.len() implies transaction_read(#[trigger] ledger.transactions@[k], c, ti[k].1, ti[k].0) by {
                        assert(ledger.transactions@[empty.transactions@.len() + k] == ledger.transactions@[k]);
                    }
                    assert forall|k: int| 0 <= k < pi.len() implies price_read(#[trigger] ledger.prices@[k], c, pi[k]) by {
                        assert(ledger.prices@[empty.prices@.len() + k] == ledger.prices@[k]);
                    }
                    assert forall|k: int| 0 <= k < gi.len() implies tag_read(#[trigger] ledger.tags@[k], c, gi[k]) by {
                        assert(ledger.tags@[empty.tags@.len() + k] == ledger.tags@[k]);
                    }
                    assert(lists_empty(empty) && lists_run(empty, ledger, c, items));
                }
                Ok(ledger)
            },
            Ok(Some(pattern)) => Err(self.error(ParserError::CannotReadFile(pattern))),
            Err(e) => Err(e),
        }
    }
}

} // verus!
