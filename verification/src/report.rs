//! The figures of the balance and register reports.
use vstd::prelude::*;
use std::rc::Rc;
use crate::filter::{filter, matches_any};
use crate::money::{Balance, MoneyV, bal_fold, bal_insert, bal_is_zero, fold_fits, insert_fits, lemma_fold_fits, rc_clone};
use crate::text::{chars_of, lowercase, str_eq, string_from_chars};
use crate::models::{Currency, count_char, first_index_of, lemma_first_index_of, spec_depth};
use crate::assoc::{amap, assoc_find, distinct_keys};
use crate::rational::{Rational, mul_fits, rat_mul};
use crate::money::Money;
use crate::date::{Date, date_lt};
use crate::transaction::{AccountBalances, Posting, PostingType, PostingV, Transaction, postings_view};

verus! {

/// A posting that the report takes: selected by the query, with an amount.
pub open spec fn selected(p: PostingV, query: Seq<String>, real_only: bool) -> bool {
    &&& (!real_only || p.4 == PostingType::Real)
    &&& (query.len() == 0 || matches_any(lowercase(p.0.name@), query))
    &&& p.1 is Some
}

/// A transaction's date lies in the reporting period: not before `begin`
/// and before `end`, where they are given.
pub open spec fn in_period(d: Option<Date>, begin: Option<Date>, end: Option<Date>) -> bool {
    &&& (begin matches Some(b) ==> (d matches Some(x) && !date_lt(x, b)))
    &&& (end matches Some(e) ==> (d matches Some(x) && date_lt(x, e)))
}

/// Whether the date lies in the reporting period (see `in_period`).
pub fn in_period_exec(d: &Option<Date>, begin: &Option<Date>, end: &Option<Date>) -> (res: bool)
    ensures
        res == in_period(*d, *begin, *end),
{
    if let Some(b) = begin {
        match d {
            Some(x) => {
                if x.lt(b) {
                    return false;
                }
            },
            None => {
                return false;
            },
        }
    }
    if let Some(e) = end {
        match d {
            Some(x) => {
                if !x.lt(e) {
                    return false;
                }
            },
            None => {
                return false;
            },
        }
    }
    true
}

/// The transactions of the reporting period, in order.
pub open spec fn period_transactions(ts: Seq<Transaction<Posting>>, begin: Option<Date>, end: Option<Date>) -> Seq<
    Transaction<Posting>,
>
    decreases ts.len(),
{
    if ts.len() == 0 {
        seq![]
    } else {
        let r = period_transactions(ts.drop_last(), begin, end);
        if in_period(ts.last().date, begin, end) {
            r.push(ts.last())
        } else {
            r
        }
    }
}

/// The balances by account name after adding the amount of `p`.
pub open spec fn add_posting(m: Map<Seq<char>, Seq<MoneyV>>, p: PostingV) -> Map<Seq<char>, Seq<MoneyV>> {
    let name = p.0.name@;
    let cur = if m.contains_key(name) {
        m[name]
    } else {
        seq![]
    };
    m.insert(name, bal_insert(cur, p.1.unwrap()))
}

/// The balances by account name after the selected postings of `ps`.
pub open spec fn report_fold(m: Map<Seq<char>, Seq<MoneyV>>, ps: Seq<PostingV>, query: Seq<String>, real_only: bool) -> Map<
    Seq<char>,
    Seq<MoneyV>,
>
    decreases ps.len(),
{
    if ps.len() == 0 {
        m
    } else {
        let r = report_fold(m, ps.drop_last(), query, real_only);
        if selected(ps.last(), query, real_only) {
            add_posting(r, ps.last())
        } else {
            r
        }
    }
}

/// The postings of a transaction: real, then `(virtual)`, then `[virtual]`.
pub open spec fn transaction_postings(t: Transaction<Posting>) -> Seq<PostingV> {
    postings_view(t.postings@) + postings_view(t.virtual_postings@) + postings_view(t.virtual_postings_balance@)
}

/// The postings of all the transactions, in order.
pub open spec fn all_postings(ts: Seq<Transaction<Posting>>) -> Seq<PostingV>
    decreases ts.len(),
{
    if ts.len() == 0 {
        seq![]
    } else {
        all_postings(ts.drop_last()) + transaction_postings(ts.last())
    }
}

pub proof fn lemma_report_fold_concat(m: Map<Seq<char>, Seq<MoneyV>>, a: Seq<PostingV>, b: Seq<PostingV>, query: Seq<String>, real_only: bool)
    ensures
        report_fold(m, a + b, query, real_only) == report_fold(report_fold(m, a, query, real_only), b, query, real_only),
    decreases b.len(),
{
    if b.len() == 0 {
        assert(a + b =~= a);
    } else {
        assert((a + b).drop_last() =~= a + b.drop_last());
        assert((a + b).last() == b.last());
        lemma_report_fold_concat(m, a, b.drop_last(), query, real_only);
    }
}

/// Every selected posting of `ps` is added to the balance of its account
/// without overflow.
pub open spec fn report_fits(m: Map<Seq<char>, Seq<MoneyV>>, ps: Seq<PostingV>, query: Seq<String>, real_only: bool) -> bool
    decreases ps.len(),
{
    if ps.len() == 0 {
        true
    } else {
        let r = report_fold(m, ps.drop_last(), query, real_only);
        let name = ps.last().0.name@;
        &&& report_fits(m, ps.drop_last(), query, real_only)
        &&& selected(ps.last(), query, real_only) ==> insert_fits(
            if r.contains_key(name) {
                r[name]
            } else {
                seq![]
            },
            ps.last().1.unwrap(),
        )
    }
}

pub proof fn lemma_report_fits_concat(
    m: Map<Seq<char>, Seq<MoneyV>>,
    a: Seq<PostingV>,
    b: Seq<PostingV>,
    query: Seq<String>,
    real_only: bool,
)
    ensures
        report_fits(m, a + b, query, real_only) == (report_fits(m, a, query, real_only) && report_fits(
            report_fold(m, a, query, real_only),
            b,
            query,
            real_only,
        )),
    decreases b.len(),
{
    if b.len() == 0 {
        assert(a + b =~= a);
    } else {
        assert((a + b).drop_last() =~= a + b.drop_last());
        assert((a + b).last() == b.last());
        lemma_report_fits_concat(m, a, b.drop_last(), query, real_only);
        lemma_report_fold_concat(m, a, b.drop_last(), query, real_only);
    }
}

/// The postings of the first transactions fit when those of all fit.
proof fn lemma_report_fits_prefix(
    m: Map<Seq<char>, Seq<MoneyV>>,
    ts: Seq<Transaction<Posting>>,
    i: int,
    begin: Option<Date>,
    end: Option<Date>,
    query: Seq<String>,
    real_only: bool,
)
    requires
        report_fits(m, all_postings(period_transactions(ts, begin, end)), query, real_only),
        0 <= i <= ts.len(),
    ensures
        report_fits(m, all_postings(period_transactions(ts.take(i), begin, end)), query, real_only),
    decreases ts.len(),
{
    if i == ts.len() {
        assert(ts.take(i) =~= ts);
    } else {
        let pt = period_transactions(ts.drop_last(), begin, end);
        if in_period(ts.last().date, begin, end) {
            assert(pt.push(ts.last()).drop_last() =~= pt);
            lemma_report_fits_concat(m, all_postings(pt), transaction_postings(ts.last()), query, real_only);
        }
        lemma_report_fits_prefix(m, ts.drop_last(), i, begin, end, query, real_only);
        assert(ts.drop_last().take(i) =~= ts.take(i));
    }
}

/// Adds the selected postings of `v` to `balances`; `false` on overflow.
fn add_postings(
    balances: &mut AccountBalances,
    t: &Transaction<Posting>,
    v: &Vec<Posting>,
    query: &Vec<String>,
    real_only: bool,
) -> (ok: bool)
    requires
        old(balances).wf(),
    ensures
        final(balances).wf(),
        ok ==> final(balances).as_map() == report_fold(old(balances).as_map(), postings_view(v@), query@, real_only),
        report_fits(old(balances).as_map(), postings_view(v@), query@, real_only) ==> ok,
{
    let ghost ps = postings_view(v@);
    let ghost fits = report_fits(old(balances).as_map(), ps, query@, real_only);
    proof {
        assert(ps.take(0) + ps.skip(0) =~= ps);
        lemma_report_fits_concat(old(balances).as_map(), ps.take(0), ps.skip(0), query@, real_only);
        assert(ps.take(0) =~= Seq::<PostingV>::empty());
    }
    let n = v.len();
    for i in 0..n
        invariant
            n == v@.len(),
            ps == postings_view(v@),
            balances.wf(),
            balances.as_map() == report_fold(old(balances).as_map(), ps.take(i as int), query@, real_only),
            fits == report_fits(old(balances).as_map(), ps, query@, real_only),
            fits ==> report_fits(balances.as_map(), ps.skip(i as int), query@, real_only),
    {
        let p = &v[i];
        proof {
            assert(ps.take(i + 1).drop_last() =~= ps.take(i as int));
            assert(ps.take(i + 1).last() == p@);
            assert(ps[i as int] == p@);
            if fits {
                assert(ps.skip(i as int) =~= seq![p@] + ps.skip(i + 1));
                lemma_report_fits_concat(balances.as_map(), seq![p@], ps.skip(i + 1), query@, real_only);
                assert(seq![p@].drop_last() =~= Seq::<PostingV>::empty());
                assert(seq![p@].last() == p@);
            }
        }
        if filter(query, t, p, real_only) {
            match &p.amount {
                Some(m) => {
                    let mut cur = match balances.get(p.account.name.as_str()) {
                        Some(b) => b.copy(),
                        None => Balance::new(),
                    };
                    proof {
                        assert(balances.as_map().contains_key(p@.0.name@) == balances.contains(p@.0.name@));
                    }
                    if !cur.insert_money(m) {
                        return false;
                    }
                    balances.insert(rc_clone(&p.account), cur);
                },
                None => {},
            }
        }
        proof {
            assert(ps.take(i as int) + seq![p@] =~= ps.take(i + 1));
            lemma_report_fold_concat(old(balances).as_map(), ps.take(i as int), seq![p@], query@, real_only);
        }
    }
    assert(ps.take(n as int) =~= ps);
    true
}

/// The balance of every account over the postings of the transactions of
/// the period that the query selects (and, with `real_only`, only the real
/// ones); `None` on overflow.
pub fn account_balances(
    transactions: &Vec<Transaction<Posting>>,
    query: &Vec<String>,
    real_only: bool,
    begin: Option<Date>,
    end: Option<Date>,
) -> (res: Option<AccountBalances>)
    ensures
        res matches Some(b) ==> b.wf() && b.as_map() == report_fold(
            Map::<Seq<char>, Seq<MoneyV>>::empty(),
            all_postings(period_transactions(transactions@, begin, end)),
            query@,
            real_only,
        ),
        report_fits(
            Map::<Seq<char>, Seq<MoneyV>>::empty(),
            all_postings(period_transactions(transactions@, begin, end)),
            query@,
            real_only,
        ) ==> res is Some,
{
    let ghost fits = report_fits(
        Map::<Seq<char>, Seq<MoneyV>>::empty(),
        all_postings(period_transactions(transactions@, begin, end)),
        query@,
        real_only,
    );
    let mut balances = AccountBalances::new();
    assert(balances.as_map() =~= Map::<Seq<char>, Seq<MoneyV>>::empty());
    let n = transactions.len();
    for i in 0..n
        invariant
            n == transactions@.len(),
            balances.wf(),
            balances.as_map() == report_fold(
                Map::<Seq<char>, Seq<MoneyV>>::empty(),
                all_postings(period_transactions(transactions@.take(i as int), begin, end)),
                query@,
                real_only,
            ),
            fits == report_fits(
                Map::<Seq<char>, Seq<MoneyV>>::empty(),
                all_postings(period_transactions(transactions@, begin, end)),
                query@,
                real_only,
            ),
    {
        let t = &transactions[i];
        proof {
            assert(transactions@.take(i + 1).drop_last() =~= transactions@.take(i as int));
            assert(transactions@.take(i + 1).last() == *t);
        }
        if in_period_exec(&t.date, &begin, &end) {
            let ghost before = balances.as_map();
            let ghost a = postings_view(t.postings@);
            let ghost b = postings_view(t.virtual_postings@);
            let ghost c = postings_view(t.virtual_postings_balance@);
            proof {
                if fits {
                    let e = Map::<Seq<char>, Seq<MoneyV>>::empty();
                    let pt = period_transactions(transactions@.take(i as int), begin, end);
                    lemma_report_fits_prefix(e, transactions@, i + 1, begin, end, query@, real_only);
                    assert(period_transactions(transactions@.take(i + 1), begin, end) == pt.push(*t));
                    assert(pt.push(*t).drop_last() =~= pt);
                    assert(all_postings(pt.push(*t)) == all_postings(pt) + transaction_postings(*t));
                    lemma_report_fits_concat(e, all_postings(pt), a + b + c, query@, real_only);
                    lemma_report_fits_concat(before, a + b, c, query@, real_only);
                    lemma_report_fits_concat(before, a, b, query@, real_only);
                    lemma_report_fold_concat(before, a, b, query@, real_only);
                }
            }
            if !add_postings(&mut balances, t, &t.postings, query, real_only) {
                return None;
            }
            if !add_postings(&mut balances, t, &t.virtual_postings, query, real_only) {
                return None;
            }
            if !add_postings(&mut balances, t, &t.virtual_postings_balance, query, real_only) {
                return None;
            }
            proof {
                let e = Map::<Seq<char>, Seq<MoneyV>>::empty();
                let pt = period_transactions(transactions@.take(i as int), begin, end);
                let prev = all_postings(pt);
                assert(period_transactions(transactions@.take(i + 1), begin, end) == pt.push(*t));
                assert(pt.push(*t).drop_last() =~= pt);
                assert(all_postings(pt.push(*t)) == prev + transaction_postings(*t));
                lemma_report_fold_concat(e, prev, a + b + c, query@, real_only);
                lemma_report_fold_concat(before, a + b, c, query@, real_only);
                lemma_report_fold_concat(before, a, b, query@, real_only);
            }
        }
    }
    assert(transactions@.take(n as int) =~= transactions@);
    Some(balances)
}

/// How the rows of the balance report are formed.
#[derive(Debug, Copy, Clone, PartialEq, Eq, Structural)]
pub enum RowMode {
    /// Every account and every parent account, with the total under it.
    Tree,
    /// Every account with a balance, by its own name.
    Flat,
    /// Accounts cut to their first levels, accounts with the same cut name together.
    FlatDepth(usize),
}

/// `name` lies under `prefix` in the account tree: it is `prefix` or starts
/// with `prefix` and a colon.
pub open spec fn under(name: Seq<char>, prefix: Seq<char>) -> bool {
    name == prefix || (name.len() > prefix.len() && name.take(prefix.len() as int) == prefix && name[prefix.len() as int]
        == ':')
}

/// The first `d` levels of an account name.
pub open spec fn cut(name: Seq<char>, d: nat) -> Seq<char>
    decreases name.len(),
{
    let k = first_index_of(name, ':');
    if d == 0 {
        seq![]
    } else if k < 0 {
        name
    } else if d == 1 {
        name.take(k)
    } else {
        proof {
            lemma_first_index_of(name, ':');
        }
        name.take(k + 1) + cut(name.skip(k + 1), (d - 1) as nat)
    }
}

/// An account of the entries counts towards row `c`.
pub open spec fn counts_for(mode: RowMode, name: Seq<char>, bal: Seq<MoneyV>, c: Seq<char>) -> bool {
    match mode {
        RowMode::Tree => under(name, c),
        RowMode::Flat => !bal_is_zero(bal) && name == c,
        RowMode::FlatDepth(d) => !bal_is_zero(bal) && cut(name, d as nat) == c,
    }
}

/// The balances of the accounts as names and balances, in order.
pub open spec fn entries_view(b: AccountBalances) -> Seq<(Seq<char>, Seq<MoneyV>)> {
    b.entries@.map_values(|e: (Rc<crate::models::Account>, Balance)| (e.0.name@, e.1@))
}

/// The total of row `c`: the balances that count towards it, added in order.
pub open spec fn group_total(es: Seq<(Seq<char>, Seq<MoneyV>)>, mode: RowMode, c: Seq<char>) -> Seq<MoneyV>
    decreases es.len(),
{
    if es.len() == 0 {
        seq![]
    } else {
        let r = group_total(es.drop_last(), mode, c);
        if counts_for(mode, es.last().0, es.last().1, c) {
            bal_fold(r, es.last().1)
        } else {
            r
        }
    }
}

/// `c` names a row: some account counts towards it.
pub open spec fn is_row_name(es: Seq<(Seq<char>, Seq<MoneyV>)>, mode: RowMode, c: Seq<char>) -> bool {
    exists|i: int| 0 <= i < es.len() && #[trigger] counts_for(mode, es[i].0, es[i].1, c)
}

/// Code point order of strings.
pub open spec fn str_lt(a: Seq<char>, b: Seq<char>) -> bool
    decreases a.len(),
{
    if a.len() == 0 {
        b.len() > 0
    } else if b.len() == 0 {
        false
    } else if a[0] != b[0] {
        a[0] < b[0]
    } else {
        str_lt(a.drop_first(), b.drop_first())
    }
}

/// Whether `a` comes before `b` in code point order.
pub fn str_less(a: &Vec<char>, b: &Vec<char>) -> (res: bool)
    ensures
        res == str_lt(a@, b@),
{
    let n = if a.len() < b.len() { a.len() } else { b.len() };
    let mut i: usize = 0;
    assert(a@.skip(0) =~= a@);
    assert(b@.skip(0) =~= b@);
    while i < n && a[i] == b[i]
        invariant
            i <= n,
            n <= a@.len(),
            n <= b@.len(),
            n == a@.len() || n == b@.len(),
            str_lt(a@, b@) == str_lt(a@.skip(i as int), b@.skip(i as int)),
        decreases n - i,
    {
        assert(a@.skip(i as int).drop_first() =~= a@.skip(i + 1));
        assert(b@.skip(i as int).drop_first() =~= b@.skip(i + 1));
        i = i + 1;
    }
    if i < n {
        assert(a@.skip(i as int)[0] == a@[i as int]);
        assert(b@.skip(i as int)[0] == b@[i as int]);
        a[i] < b[i]
    } else {
        b.len() > i
    }
}

/// Some candidate is `x`.
pub open spec fn has_candidate(v: Seq<Vec<char>>, x: Seq<char>) -> bool {
    exists|i: int| 0 <= i < v.len() && v[i]@ == x
}

fn vec_eq(a: &Vec<char>, b: &Vec<char>) -> (res: bool)
    ensures
        res == (a@ == b@),
{
    if a.len() != b.len() {
        return false;
    }
    let n = a.len();
    for i in 0..n
        invariant
            n == a@.len(),
            n == b@.len(),
            forall|j: int| 0 <= j < i ==> a@[j] == b@[j],
    {
        if a[i] != b[i] {
            return false;
        }
    }
    assert(a@ =~= b@);
    true
}

/// Adds `c` to the candidates unless it is there.
fn push_candidate(v: &mut Vec<Vec<char>>, c: Vec<char>)
    requires
        forall|i: int, j: int| 0 <= i < j < old(v)@.len() ==> old(v)@[i]@ != old(v)@[j]@,
    ensures
        forall|i: int, j: int| 0 <= i < j < final(v)@.len() ==> final(v)@[i]@ != final(v)@[j]@,
        forall|x: Seq<char>| #[trigger] has_candidate(final(v)@, x) <==> (x == c@ || has_candidate(old(v)@, x)),
{
    let n = v.len();
    for i in 0..n
        invariant
            n == v@.len(),
            v@ == old(v)@,
            forall|a: int, b: int| 0 <= a < b < v@.len() ==> v@[a]@ != v@[b]@,
            forall|j: int| 0 <= j < i ==> v@[j]@ != c@,
    {
        if vec_eq(&v[i], &c) {
            proof {
                assert forall|x: Seq<char>| #[trigger] has_candidate(v@, x) <==> (x == c@ || has_candidate(old(v)@, x)) by {
                    if x == c@ {
                        assert(v@[i as int]@ == x);
                    }
                }
            }
            return;
        }
    }
    let ghost before = v@;
    v.push(c);
    proof {
        assert forall|x: Seq<char>| #[trigger] has_candidate(v@, x) <==> (x == c@ || has_candidate(before, x)) by {
            if has_candidate(v@, x) {
                let i = choose|i: int| 0 <= i < v@.len() && v@[i]@ == x;
                if i < before.len() {
                    assert(before[i] == v@[i]);
                }
            }
            if x == c@ {
                assert(v@[before.len() as int]@ == x);
            } else if has_candidate(before, x) {
                let i = choose|i: int| 0 <= i < before.len() && before[i]@ == x;
                assert(v@[i] == before[i]);
            }
        }
        assert forall|i: int, j: int| 0 <= i < j < v@.len() implies v@[i]@ != v@[j]@ by {
            if j == before.len() {
                assert(v@[i] == before[i]);
            } else {
                assert(v@[i] == before[i]);
                assert(v@[j] == before[j]);
            }
        }
    }
}

/// The first `d` levels of the name `n[from..]`.
fn cut_exec(n: &Vec<char>, from: usize, d: usize) -> (res: Vec<char>)
    requires
        from <= n@.len(),
    ensures
        res@ == cut(n@.skip(from as int), d as nat),
    decreases n@.len() - from,
{
    let ghost t = n@.skip(from as int);
    proof {
        lemma_first_index_of(t, ':');
    }
    if d == 0 {
        return Vec::new();
    }
    let mut k = from;
    while k < n.len() && n[k] != ':'
        invariant
            from <= k <= n@.len(),
            t == n@.skip(from as int),
            forall|j: int| from <= j < k ==> n@[j] != ':',
        decreases n@.len() - k,
    {
        k = k + 1;
    }
    proof {
        let f = first_index_of(t, ':');
        if k < n.len() {
            assert(t[k - from] == ':');
            if f >= 0 && f < k - from {
                assert(t[f] == n@[from + f]);
            }
            assert(f == k - from) by {
                if f < 0 {
                    assert(t[k - from] != ':');
                }
                if f > k - from {
                    assert(t[k - from] != ':');
                }
            }
        } else {
            if f >= 0 {
                assert(t[f] == n@[from + f]);
            }
        }
    }
    let mut out: Vec<char> = Vec::new();
    let mut j = from;
    let end = if k < n.len() && d > 1 { k + 1 } else { k };
    while j < end
        invariant
            from <= j <= end,
            end <= n@.len(),
            out@ == n@.subrange(from as int, j as int),
        decreases end - j,
    {
        out.push(n[j]);
        j = j + 1;
        assert(out@ =~= n@.subrange(from as int, j as int));
    }
    if k < n.len() && d > 1 {
        let rest = cut_exec(n, k + 1, d - 1);
        assert(n@.skip(k + 1) =~= t.skip(k - from + 1));
        assert(t.take(k - from + 1) =~= out@);
        let mut all = out;
        let m = rest.len();
        for q in 0..m
            invariant
                m == rest@.len(),
                all@ == n@.subrange(from as int, (k + 1) as int) + rest@.take(q as int),
        {
            all.push(rest[q]);
            assert(rest@.take(q + 1) =~= rest@.take(q as int).push(rest@[q as int]));
            assert(all@ =~= n@.subrange(from as int, (k + 1) as int) + rest@.take(q + 1));
        }
        assert(rest@.take(m as int) =~= rest@);
        all
    } else {
        proof {
            if k < n.len() {
                assert(t.take(k - from) =~= out@);
            } else {
                assert(t =~= out@);
            }
        }
        out
    }
}

/// Adding up the balances of row `c` does not overflow.
pub open spec fn group_fits(es: Seq<(Seq<char>, Seq<MoneyV>)>, mode: RowMode, c: Seq<char>) -> bool {
    forall|k: int|
        0 <= k < es.len() && counts_for(mode, es[k].0, es[k].1, c) ==> fold_fits(
            group_total(es.take(k), mode, c),
            (#[trigger] es[k]).1,
        )
}

/// The total of the balances that count towards row `c`.
fn group_total_exec(balances: &AccountBalances, mode: RowMode, c: &Vec<char>) -> (res: Option<Balance>)
    requires
        balances.wf(),
    ensures
        res matches Some(b) ==> b@ == group_total(entries_view(*balances), mode, c@) && b.wf(),
        group_fits(entries_view(*balances), mode, c@) ==> res is Some,
{
    let ghost es = entries_view(*balances);
    let mut total = Balance::new();
    let n = balances.entries.len();
    for i in 0..n
        invariant
            n == balances.entries@.len(),
            es == entries_view(*balances),
            balances.wf(),
            total.wf(),
            total@ == group_total(es.take(i as int), mode, c@),
    {
        let name = chars_of(balances.entries[i].0.name.as_str());
        let bal = &balances.entries[i].1;
        proof {
            assert(es.take(i + 1).drop_last() =~= es.take(i as int));
            assert(es.take(i + 1).last() == (name@, bal@));
            assert(es[i as int] == (name@, bal@));
            assert(bal.wf());
        }
        let counts = match mode {
            RowMode::Tree => {
                let k = c.len();
                vec_eq(&name, c) || (name.len() > k && name[k] == ':' && {
                    let head = cut_prefix(&name, k);
                    vec_eq(&head, c)
                })
            },
            RowMode::Flat => !bal.is_zero() && vec_eq(&name, c),
            RowMode::FlatDepth(d) => !bal.is_zero() && {
                let cn = cut_exec(&name, 0, d);
                assert(name@.skip(0) =~= name@);
                vec_eq(&cn, c)
            },
        };
        if counts {
            total = total.add(bal)?;
        }
    }
    assert(es.take(n as int) =~= es);
    Some(total)
}

/// Every balance, added in order.
pub open spec fn all_total(es: Seq<(Seq<char>, Seq<MoneyV>)>) -> Seq<MoneyV>
    decreases es.len(),
{
    if es.len() == 0 {
        seq![]
    } else {
        bal_fold(all_total(es.drop_last()), es.last().1)
    }
}

/// Adding up every balance does not overflow.
pub open spec fn all_fits(es: Seq<(Seq<char>, Seq<MoneyV>)>) -> bool {
    forall|k: int| 0 <= k < es.len() ==> fold_fits(all_total(es.take(k)), (#[trigger] es[k]).1)
}

/// The total line of the balance report: the balances of all accounts,
/// added in order. `None` on overflow.
pub fn balances_total(balances: &AccountBalances) -> (res: Option<Balance>)
    requires
        balances.wf(),
    ensures
        res matches Some(b) ==> b@ == all_total(entries_view(*balances)) && b.wf(),
        (res is Some) == all_fits(entries_view(*balances)),
{
    let ghost es = entries_view(*balances);
    let mut total = Balance::new();
    let n = balances.entries.len();
    for i in 0..n
        invariant
            n == balances.entries@.len(),
            es == entries_view(*balances),
            balances.wf(),
            total.wf(),
            total@ == all_total(es.take(i as int)),
            forall|k: int| 0 <= k < i ==> fold_fits(all_total(es.take(k)), (#[trigger] es[k]).1),
    {
        let bal = &balances.entries[i].1;
        proof {
            assert(es.take(i + 1).drop_last() =~= es.take(i as int));
            assert(es[i as int].1 == bal@);
            assert(bal.wf());
        }
        match total.add(bal) {
            Some(t) => {
                total = t;
            },
            None => {
                return None;
            },
        }
    }
    assert(es.take(n as int) =~= es);
    Some(total)
}

/// Whether a row of the balance report is shown under a depth limit: its
/// name has at most `depth` levels (every row is shown without a limit).
pub fn within_depth(name: &Vec<char>, depth: Option<usize>) -> (res: bool)
    ensures
        res == match depth {
            Some(d) => spec_depth(name@) <= d,
            None => true,
        },
{
    match depth {
        None => true,
        Some(d) => {
            let mut count: usize = 0;
            let n = name.len();
            for i in 0..n
                invariant
                    n == name@.len(),
                    count == count_char(name@.take(i as int), ':'),
                    count <= i,
            {
                assert(name@.take(i + 1).drop_last() =~= name@.take(i as int));
                if name[i] == ':' {
                    count = count + 1;
                }
            }
            assert(name@.take(n as int) =~= name@);
            count < d
        },
    }
}

fn cut_prefix(n: &Vec<char>, k: usize) -> (res: Vec<char>)
    requires
        k <= n@.len(),
    ensures
        res@ == n@.take(k as int),
{
    let mut out: Vec<char> = Vec::new();
    for j in 0..k
        invariant
            k <= n@.len(),
            out@ == n@.take(j as int),
    {
        out.push(n[j]);
        assert(out@ =~= n@.take(j + 1));
    }
    out
}

pub proof fn lemma_str_lt_irreflexive(a: Seq<char>)
    ensures
        !str_lt(a, a),
    decreases a.len(),
{
    if a.len() > 0 {
        lemma_str_lt_irreflexive(a.drop_first());
    }
}

pub proof fn lemma_str_lt_total(a: Seq<char>, b: Seq<char>)
    requires
        a != b,
    ensures
        str_lt(a, b) || str_lt(b, a),
    decreases a.len(),
{
    if a.len() > 0 && b.len() > 0 && a[0] == b[0] {
        if a.drop_first() == b.drop_first() {
            assert(a =~= seq![a[0]] + a.drop_first());
            assert(b =~= seq![b[0]] + b.drop_first());
        }
        lemma_str_lt_total(a.drop_first(), b.drop_first());
    } else if a.len() > 0 && b.len() > 0 {
    } else if a.len() == 0 && b.len() == 0 {
        assert(a =~= b);
    }
}

pub proof fn lemma_str_lt_transitive(a: Seq<char>, b: Seq<char>, c: Seq<char>)
    requires
        str_lt(a, b),
        str_lt(b, c),
    ensures
        str_lt(a, c),
    decreases a.len(),
{
    if a.len() > 0 && b.len() > 0 && c.len() > 0 && a[0] == b[0] && b[0] == c[0] {
        lemma_str_lt_transitive(a.drop_first(), b.drop_first(), c.drop_first());
    }
}

pub proof fn lemma_str_lt_asym(a: Seq<char>, b: Seq<char>)
    requires
        str_lt(a, b),
    ensures
        !str_lt(b, a),
    decreases a.len(),
{
    if a.len() > 0 && b.len() > 0 && a[0] == b[0] {
        lemma_str_lt_asym(a.drop_first(), b.drop_first());
    }
}

/// Some row is named `x`.
pub open spec fn has_row(v: Seq<(Vec<char>, Balance)>, x: Seq<char>) -> bool {
    exists|i: int| 0 <= i < v.len() && v[i].0@ == x
}

/// Row names in strictly increasing order.
pub open spec fn rows_sorted(v: Seq<(Vec<char>, Balance)>) -> bool {
    forall|i: int, j: int| 0 <= i < j < v.len() ==> str_lt(v[i].0@, v[j].0@)
}

/// What every row of the report holds: a name that some account counts
/// towards, the total of those accounts, and (for the tree) not zero.
pub open spec fn row_ok(es: Seq<(Seq<char>, Seq<MoneyV>)>, mode: RowMode, r: (Vec<char>, Balance)) -> bool {
    &&& is_row_name(es, mode, r.0@)
    &&& r.1@ == group_total(es, mode, r.0@)
    &&& r.1.wf()
    &&& (mode == RowMode::Tree ==> !bal_is_zero(r.1@))
}

/// Sorts rows with distinct names by name.
fn sort_rows(rows: Vec<(Vec<char>, Balance)>, Ghost(es): Ghost<Seq<(Seq<char>, Seq<MoneyV>)>>, mode: RowMode) -> (res: Vec<(Vec<char>, Balance)>)
    requires
        forall|i: int, j: int| 0 <= i < j < rows@.len() ==> rows@[i].0@ != rows@[j].0@,
        forall|i: int| 0 <= i < rows@.len() ==> row_ok(es, mode, #[trigger] rows@[i]),
    ensures
        rows_sorted(res@),
        forall|i: int| 0 <= i < res@.len() ==> row_ok(es, mode, #[trigger] res@[i]),
        forall|x: Seq<char>| #[trigger] has_row(res@, x) <==> has_row(rows@, x),
{
    let mut rest = rows;
    let mut out: Vec<(Vec<char>, Balance)> = Vec::new();
    let ghost all = rest@;
    while rest.len() > 0
        invariant
            rows_sorted(out@),
            forall|i: int| 0 <= i < out@.len() ==> row_ok(es, mode, #[trigger] out@[i]),
            forall|i: int| 0 <= i < rest@.len() ==> row_ok(es, mode, #[trigger] rest@[i]),
            forall|i: int, j: int| 0 <= i < j < rest@.len() ==> rest@[i].0@ != rest@[j].0@,
            forall|i: int, j: int| 0 <= i < out@.len() && 0 <= j < rest@.len() ==> out@[i].0@ != rest@[j].0@,
            forall|x: Seq<char>| (has_row(out@, x) || has_row(rest@, x)) <==> #[trigger] has_row(all, x),
        decreases rest@.len(),
    {
        let ghost r0 = rest@;
        let ghost o0 = out@;
        let r = rest.remove(0);
        assert(r == r0[0]);
        let mut k = out.len();
        while k > 0 && str_less(&r.0, &out[k - 1].0)
            invariant
                k <= out@.len(),
                out@ == o0,
                forall|j: int| k <= j < out@.len() ==> str_lt(r.0@, out@[j].0@),
            decreases k,
        {
            k = k - 1;
        }
        proof {
            if k > 0 {
                assert(out@[k - 1].0@ != r.0@);
                lemma_str_lt_total(out@[k - 1].0@, r.0@);
            }
        }
        out.insert(k, r);
        proof {
            assert forall|i: int, j: int| 0 <= i < j < out@.len() implies str_lt(out@[i].0@, out@[j].0@) by {
                if j < k {
                    assert(out@[i] == o0[i] && out@[j] == o0[j]);
                } else if j == k {
                    assert(out@[i] == o0[i]);
                    if i < k - 1 {
                        lemma_str_lt_transitive(o0[i].0@, o0[k - 1].0@, r.0@);
                    }
                } else if i == k {
                    assert(out@[j] == o0[j - 1]);
                } else if i < k {
                    assert(out@[i] == o0[i] && out@[j] == o0[j - 1]);
                } else {
                    assert(out@[i] == o0[i - 1] && out@[j] == o0[j - 1]);
                }
            }
            assert forall|i: int| 0 <= i < out@.len() implies row_ok(es, mode, #[trigger] out@[i]) by {
                if i < k {
                    assert(out@[i] == o0[i]);
                } else if i > k {
                    assert(out@[i] == o0[i - 1]);
                }
            }
            assert forall|i: int| 0 <= i < rest@.len() implies row_ok(es, mode, #[trigger] rest@[i]) by {
                assert(rest@[i] == r0[i + 1]);
            }
            assert forall|i: int, j: int| 0 <= i < j < rest@.len() implies rest@[i].0@ != rest@[j].0@ by {
                assert(rest@[i] == r0[i + 1] && rest@[j] == r0[j + 1]);
            }
            assert forall|i: int, j: int| 0 <= i < out@.len() && 0 <= j < rest@.len() implies out@[i].0@ != rest@[j].0@ by {
                assert(rest@[j] == r0[j + 1]);
                if i < k {
                    assert(out@[i] == o0[i]);
                } else if i > k {
                    assert(out@[i] == o0[i - 1]);
                }
            }
            assert forall|x: Seq<char>| (has_row(out@, x) || has_row(rest@, x)) <==> #[trigger] has_row(all, x) by {
                if has_row(out@, x) {
                    let i = choose|i: int| 0 <= i < out@.len() && out@[i].0@ == x;
                    if i < k {
                        assert(out@[i] == o0[i]);
                        assert(has_row(o0, x));
                    } else if i > k {
                        assert(out@[i] == o0[i - 1]);
                        assert(has_row(o0, x));
                    } else {
                        assert(r0[0].0@ == x);
                        assert(has_row(r0, x));
                    }
                }
                if has_row(rest@, x) {
                    let i = choose|i: int| 0 <= i < rest@.len() && rest@[i].0@ == x;
                    assert(rest@[i] == r0[i + 1]);
                    assert(has_row(r0, x));
                }
                if has_row(o0, x) {
                    let i = choose|i: int| 0 <= i < o0.len() && o0[i].0@ == x;
                    if i < k {
                        assert(out@[i] == o0[i]);
                    } else {
                        assert(out@[i + 1] == o0[i]);
                    }
                    assert(has_row(out@, x));
                }
                if has_row(r0, x) {
                    let i = choose|i: int| 0 <= i < r0.len() && r0[i].0@ == x;
                    if i == 0 {
                        assert(out@[k as int] == r);
                        assert(has_row(out@, x));
                    } else {
                        assert(rest@[i - 1] == r0[i]);
                        assert(has_row(rest@, x));
                    }
                }
            }
        }
    }
    proof {
        assert forall|x: Seq<char>| #[trigger] has_row(out@, x) <==> has_row(all, x) by {
            if has_row(rest@, x) {
                let i = choose|i: int| 0 <= i < rest@.len() && rest@[i].0@ == x;
            }
        }
    }
    out
}

/// The rows of the balance report, sorted by name. In the tree every
/// account and every parent account with a non-zero total has a row; flat,
/// every account with a non-zero balance has one (cut to `d` levels with
/// `FlatDepth(d)`, accounts with the same cut name together). `None` on
/// overflow.
pub fn balance_rows(balances: &AccountBalances, mode: RowMode) -> (res: Option<Vec<(Vec<char>, Balance)>>)
    requires
        balances.wf(),
    ensures
        res matches Some(rows) ==> {
            let es = entries_view(*balances);
            &&& rows_sorted(rows@)
            &&& forall|i: int| 0 <= i < rows@.len() ==> row_ok(es, mode, #[trigger] rows@[i])
            &&& forall|c: Seq<char>| is_row_name(es, mode, c) && (mode == RowMode::Tree ==> !bal_is_zero(group_total(es, mode, c)))
                ==> #[trigger] has_row(rows@, c)
        },
        (forall|c: Seq<char>| #[trigger] is_row_name(entries_view(*balances), mode, c) ==> group_fits(
            entries_view(*balances),
            mode,
            c,
        )) ==> res is Some,
{
    let ghost es = entries_view(*balances);
    let ghost fits = forall|c: Seq<char>| #[trigger] is_row_name(es, mode, c) ==> group_fits(es, mode, c);
    let mut cands: Vec<Vec<char>> = Vec::new();
    let n = balances.entries.len();
    for i in 0..n
        invariant
            n == balances.entries@.len(),
            es == entries_view(*balances),
            balances.wf(),
            forall|a: int, b: int| 0 <= a < b < cands@.len() ==> cands@[a]@ != cands@[b]@,
            forall|c: Seq<char>| #[trigger] has_candidate(cands@, c) ==> is_row_name(es, mode, c),
            forall|c: Seq<char>| is_row_name(es.take(i as int), mode, c) ==> #[trigger] has_candidate(cands@, c),
    {
        let name = chars_of(balances.entries[i].0.name.as_str());
        let bal = &balances.entries[i].1;
        let ghost e = es[i as int];
        assert(e == (name@, bal@));
        let ghost before = cands@;
        match mode {
            RowMode::Tree => {
                let m = name.len();
                for k in 0..m
                    invariant
                        m == name@.len(),
                        e == es[i as int],
                        e.0 == name@,
                        0 <= i < es.len(),
                        forall|a: int, b: int| 0 <= a < b < cands@.len() ==> cands@[a]@ != cands@[b]@,
                        forall|c: Seq<char>| #[trigger] has_candidate(cands@, c) ==> is_row_name(es, mode, c),
                        forall|c: Seq<char>| has_candidate(before, c) ==> #[trigger] has_candidate(cands@, c),
                        forall|q: int| 0 <= q < k && name@[q] == ':' ==> #[trigger] has_candidate(cands@, name@.take(q)),
                        mode == RowMode::Tree,
                {
                    if name[k] == ':' {
                        let head = cut_prefix(&name, k);
                        proof {
                            assert(under(name@, head@));
                            assert(counts_for(mode, es[i as int].0, es[i as int].1, head@));
                        }
                        push_candidate(&mut cands, head);
                    }
                }
                proof {
                    assert(under(name@, name@));
                    assert(counts_for(mode, es[i as int].0, es[i as int].1, name@));
                }
                push_candidate(&mut cands, name);
                proof {
                    assert forall|c: Seq<char>| is_row_name(es.take(i + 1), mode, c) implies #[trigger] has_candidate(cands@, c) by {
                        let w = choose|w: int| 0 <= w < es.take(i + 1).len() && #[trigger] counts_for(mode, es.take(i + 1)[w].0, es.take(i + 1)[w].1, c);
                        if w < i {
                            assert(es.take(i as int)[w] == es.take(i + 1)[w]);
                            assert(is_row_name(es.take(i as int), mode, c));
                        } else {
                            assert(es.take(i + 1)[w] == e);
                            if c != e.0 {
                                let q = c.len() as int;
                                assert(name@.take(q) == c);
                                assert(name@[q] == ':');
                                assert(has_candidate(cands@, name@.take(q)));
                            }
                        }
                    }
                }
            },
            RowMode::Flat => {
                if !bal.is_zero() {
                    proof {
                        assert(counts_for(mode, es[i as int].0, es[i as int].1, name@));
                    }
                    push_candidate(&mut cands, name);
                }
                proof {
                    assert forall|c: Seq<char>| is_row_name(es.take(i + 1), mode, c) implies #[trigger] has_candidate(cands@, c) by {
                        let w = choose|w: int| 0 <= w < es.take(i + 1).len() && #[trigger] counts_for(mode, es.take(i + 1)[w].0, es.take(i + 1)[w].1, c);
                        if w < i {
                            assert(es.take(i as int)[w] == es.take(i + 1)[w]);
                            assert(is_row_name(es.take(i as int), mode, c));
                        } else {
                            assert(es.take(i + 1)[w] == e);
                        }
                    }
                }
            },
            RowMode::FlatDepth(d) => {
                if !bal.is_zero() {
                    let cn = cut_exec(&name, 0, d);
                    proof {
                        assert(name@.skip(0) =~= name@);
                        assert(counts_for(mode, es[i as int].0, es[i as int].1, cn@));
                    }
                    push_candidate(&mut cands, cn);
                }
                proof {
                    assert(name@.skip(0) =~= name@);
                    assert forall|c: Seq<char>| is_row_name(es.take(i + 1), mode, c) implies #[trigger] has_candidate(cands@, c) by {
                        let w = choose|w: int| 0 <= w < es.take(i + 1).len() && #[trigger] counts_for(mode, es.take(i + 1)[w].0, es.take(i + 1)[w].1, c);
                        if w < i {
                            assert(es.take(i as int)[w] == es.take(i + 1)[w]);
                            assert(is_row_name(es.take(i as int), mode, c));
                        } else {
                            assert(es.take(i + 1)[w] == e);
                        }
                    }
                }
            },
        }
    }
    assert(es.take(n as int) =~= es);
    let mut rows: Vec<(Vec<char>, Balance)> = Vec::new();
    let m = cands.len();
    let mut j: usize = 0;
    while j < m
        invariant
            j <= m,
            m == cands@.len(),
            es == entries_view(*balances),
            balances.wf(),
            forall|a: int, b: int| 0 <= a < b < cands@.len() ==> cands@[a]@ != cands@[b]@,
            forall|c: Seq<char>| #[trigger] has_candidate(cands@, c) ==> is_row_name(es, mode, c),
            forall|c: Seq<char>| is_row_name(es, mode, c) ==> #[trigger] has_candidate(cands@, c),
            forall|a: int| 0 <= a < rows@.len() ==> row_ok(es, mode, #[trigger] rows@[a]),
            forall|a: int, b: int| 0 <= a < b < rows@.len() ==> rows@[a].0@ != rows@[b].0@,
            forall|a: int| 0 <= a < rows@.len() ==> exists|q: int| 0 <= q < j && (#[trigger] rows@[a]).0@ == cands@[q]@,
            forall|q: int| 0 <= q < j && (mode == RowMode::Tree ==> !bal_is_zero(group_total(es, mode, cands@[q]@)))
                ==> #[trigger] has_row(rows@, cands@[q]@),
            fits == (forall|c: Seq<char>| #[trigger] is_row_name(es, mode, c) ==> group_fits(es, mode, c)),
        decreases m - j,
    {
        let c = &cands[j];
        proof {
            assert(has_candidate(cands@, c@));
        }
        let total = group_total_exec(balances, mode, c)?;
        let keep = match mode {
            RowMode::Tree => !total.is_zero(),
            _ => true,
        };
        if keep {
            let ghost r0 = rows@;
            rows.push((vec_clone(c), total));
            proof {
                assert forall|a: int, b: int| 0 <= a < b < rows@.len() implies rows@[a].0@ != rows@[b].0@ by {
                    if b == r0.len() {
                        assert(rows@[a] == r0[a]);
                        let q = choose|q: int| 0 <= q < j && r0[a].0@ == cands@[q]@;
                    } else {
                        assert(rows@[a] == r0[a] && rows@[b] == r0[b]);
                    }
                }
                assert forall|a: int| 0 <= a < rows@.len() implies exists|q: int| 0 <= q < j + 1 && (#[trigger] rows@[a]).0@ == cands@[q]@ by {
                    if a < r0.len() {
                        assert(rows@[a] == r0[a]);
                        let q = choose|q: int| 0 <= q < j && r0[a].0@ == cands@[q]@;
                    } else {
                        assert(rows@[a].0@ == cands@[j as int]@);
                    }
                }
                assert forall|q: int| 0 <= q < j + 1 && (mode == RowMode::Tree ==> !bal_is_zero(group_total(es, mode, cands@[q]@)))
                    implies #[trigger] has_row(rows@, cands@[q]@) by {
                    if q < j {
                        assert(has_row(r0, cands@[q]@));
                        let a = choose|a: int| 0 <= a < r0.len() && r0[a].0@ == cands@[q]@;
                        assert(rows@[a] == r0[a]);
                    } else {
                        assert(rows@[r0.len() as int].0@ == cands@[q]@);
                    }
                }
            }
        } else {
            proof {
                assert forall|a: int| 0 <= a < rows@.len() implies exists|q: int| 0 <= q < j + 1 && (#[trigger] rows@[a]).0@ == cands@[q]@ by {
                    let q = choose|q: int| 0 <= q < j && rows@[a].0@ == cands@[q]@;
                    assert(0 <= q < j + 1 && rows@[a].0@ == cands@[q]@);
                }
            }
        }
        j = j + 1;
    }
    proof {
        assert forall|c: Seq<char>| is_row_name(es, mode, c) && (mode == RowMode::Tree ==> !bal_is_zero(group_total(es, mode, c)))
            implies #[trigger] has_row(rows@, c) by {
            assert(has_candidate(cands@, c));
            let q = choose|q: int| 0 <= q < cands@.len() && cands@[q]@ == c;
        }
    }
    Some(sort_rows(rows, Ghost(es), mode))
}

fn vec_clone(v: &Vec<char>) -> (res: Vec<char>)
    ensures
        res@ == v@,
{
    let mut out: Vec<char> = Vec::new();
    for i in 0..v.len()
        invariant
            out@ == v@.take(i as int),
    {
        out.push(v[i]);
        assert(out@ =~= v@.take(i + 1));
    }
    assert(out@ =~= v@);
    out
}


/// A row of the register report: the index of its transaction, its posting,
/// and the running balance of the selected postings up to it.
pub struct RegisterRow {
    pub transaction: usize,
    pub posting: Posting,
    pub balance: Balance,
}

/// A register row as numbers.
pub type RegisterRowV = (int, PostingV, Seq<MoneyV>);

impl RegisterRow {
    pub open spec fn view(&self) -> RegisterRowV {
        (self.transaction as int, self.posting@, self.balance@)
    }
}

/// The views of register rows.
pub open spec fn rows_view(v: Seq<RegisterRow>) -> Seq<RegisterRowV> {
    v.map_values(|r: RegisterRow| r@)
}

/// The postings (not the virtual ones) of the transactions of the period,
/// in order, each with the index of its transaction.
pub open spec fn indexed_postings(ts: Seq<Transaction<Posting>>, begin: Option<Date>, end: Option<Date>) -> Seq<
    (int, PostingV),
>
    decreases ts.len(),
{
    if ts.len() == 0 {
        seq![]
    } else if in_period(ts.last().date, begin, end) {
        indexed_postings(ts.drop_last(), begin, end) + postings_view(ts.last().postings@).map_values(
            |p: PostingV| (ts.len() - 1, p),
        )
    } else {
        indexed_postings(ts.drop_last(), begin, end)
    }
}

/// The register rows of the selected postings of `xs`, and the balance after
/// them: each selected posting adds its amount to the running balance and
/// gives a row with the balance reached.
pub open spec fn register_fold(xs: Seq<(int, PostingV)>, query: Seq<String>, real_only: bool) -> (
    Seq<RegisterRowV>,
    Seq<MoneyV>,
)
    decreases xs.len(),
{
    if xs.len() == 0 {
        (seq![], seq![])
    } else {
        let (rows, b) = register_fold(xs.drop_last(), query, real_only);
        let x = xs.last();
        if selected(x.1, query, real_only) {
            let nb = bal_insert(b, x.1.1.unwrap());
            (rows.push((x.0, x.1, nb)), nb)
        } else {
            (rows, b)
        }
    }
}

proof fn lemma_register_fold_concat(xs: Seq<(int, PostingV)>, ys: Seq<(int, PostingV)>, query: Seq<String>, real_only: bool)
    requires
        ys.len() > 0,
    ensures
        register_fold(xs + ys, query, real_only) == ({
            let r = register_fold((xs + ys).drop_last(), query, real_only);
            let x = ys.last();
            if selected(x.1, query, real_only) {
                let nb = bal_insert(r.1, x.1.1.unwrap());
                (r.0.push((x.0, x.1, nb)), nb)
            } else {
                r
            }
        }),
{
    assert((xs + ys).last() == ys.last());
}

/// Every selected posting of `xs` is added to the running balance without
/// overflow.
pub open spec fn register_fits(xs: Seq<(int, PostingV)>, query: Seq<String>, real_only: bool) -> bool {
    forall|k: int|
        0 <= k < xs.len() && selected(xs[k].1, query, real_only) ==> insert_fits(
            register_fold(xs.take(k), query, real_only).1,
            (#[trigger] xs[k]).1.1.unwrap(),
        )
}

/// The postings of the first transactions come first among the postings of
/// all.
proof fn lemma_indexed_prefix(ts: Seq<Transaction<Posting>>, i: int, begin: Option<Date>, end: Option<Date>)
    requires
        0 <= i <= ts.len(),
    ensures
        indexed_postings(ts.take(i), begin, end).len() <= indexed_postings(ts, begin, end).len(),
        indexed_postings(ts, begin, end).take(indexed_postings(ts.take(i), begin, end).len() as int)
            == indexed_postings(ts.take(i), begin, end),
    decreases ts.len(),
{
    if i == ts.len() {
        assert(ts.take(i) =~= ts);
        assert(indexed_postings(ts, begin, end).take(indexed_postings(ts, begin, end).len() as int) =~= indexed_postings(ts, begin, end));
    } else {
        lemma_indexed_prefix(ts.drop_last(), i, begin, end);
        assert(ts.drop_last().take(i) =~= ts.take(i));
        let a = indexed_postings(ts.drop_last(), begin, end);
        let full = indexed_postings(ts, begin, end);
        let p = indexed_postings(ts.take(i), begin, end);
        assert(full.take(a.len() as int) =~= a);
        assert(full.take(p.len() as int) =~= a.take(p.len() as int));
    }
}

/// The rows of the register report: one per selected posting of the
/// transactions of the period (with `real_only`, real postings only; the
/// virtual ones are not listed), in the order of the transactions, with the
/// running balance; `None` on overflow.
pub fn register_rows(
    transactions: &Vec<Transaction<Posting>>,
    query: &Vec<String>,
    real_only: bool,
    begin: Option<Date>,
    end: Option<Date>,
) -> (res: Option<Vec<RegisterRow>>)
    ensures
        res matches Some(rows) ==> rows_view(rows@) == register_fold(
            indexed_postings(transactions@, begin, end),
            query@,
            real_only,
        ).0,
        res matches Some(rows) ==> forall|i: int| 0 <= i < rows@.len() ==> (#[trigger] rows@[i]).balance.wf(),
        register_fits(indexed_postings(transactions@, begin, end), query@, real_only) ==> res is Some,
{
    let ghost all = indexed_postings(transactions@, begin, end);
    let ghost fits = register_fits(all, query@, real_only);
    let mut rows: Vec<RegisterRow> = Vec::new();
    let mut balance = Balance::new();
    let n = transactions.len();
    for i in 0..n
        invariant
            n == transactions@.len(),
            balance.wf(),
            forall|k: int| 0 <= k < rows@.len() ==> (#[trigger] rows@[k]).balance.wf(),
            register_fold(indexed_postings(transactions@.take(i as int), begin, end), query@, real_only) == (
                rows_view(rows@),
                balance@,
            ),
            all == indexed_postings(transactions@, begin, end),
            fits == register_fits(all, query@, real_only),
    {
        let t = &transactions[i];
        let ghost pre = indexed_postings(transactions@.take(i as int), begin, end);
        let ghost mine = postings_view(t.postings@).map_values(|p: PostingV| (i as int, p));
        proof {
            assert(transactions@.take(i + 1).drop_last() =~= transactions@.take(i as int));
            assert(transactions@.take(i + 1).last() == *t);
        }
        let in_range = in_period_exec(&t.date, &begin, &end);
        proof {
            if in_range {
                assert(indexed_postings(transactions@.take(i + 1), begin, end) =~= pre + mine);
            } else {
                assert(indexed_postings(transactions@.take(i + 1), begin, end) == pre);
            }
        }
        proof {
            lemma_indexed_prefix(transactions@, i + 1, begin, end);
        }
        let m = if in_range { t.postings.len() } else { 0 };
        for j in 0..m
            invariant
                n == transactions@.len(),
                0 <= i < n,
                *t == transactions@[i as int],
                mine == postings_view(t.postings@).map_values(|p: PostingV| (i as int, p)),
                balance.wf(),
                forall|k: int| 0 <= k < rows@.len() ==> (#[trigger] rows@[k]).balance.wf(),
                register_fold(pre + mine.take(j as int), query@, real_only) == (rows_view(rows@), balance@),
                in_range ==> m == t.postings@.len(),
                !in_range ==> m == 0,
                in_range ==> indexed_postings(transactions@.take(i + 1), begin, end) == pre + mine,
                all == indexed_postings(transactions@, begin, end),
                fits == register_fits(all, query@, real_only),
                all.take(indexed_postings(transactions@.take(i + 1), begin, end).len() as int) == indexed_postings(
                    transactions@.take(i + 1),
                    begin,
                    end,
                ),
                indexed_postings(transactions@.take(i + 1), begin, end).len() <= all.len(),
        {
            let p = &t.postings[j];
            proof {
                assert((pre + mine.take(j + 1)).drop_last() =~= pre + mine.take(j as int));
                assert(mine.take(j + 1).last() == (i as int, p@));
                lemma_register_fold_concat(pre, mine.take(j + 1), query@, real_only);
            }
            proof {
                if fits {
                    let k = pre.len() + j;
                    let whole = pre + mine;
                    assert(whole.take(k + 1) =~= pre + mine.take(j + 1));
                    assert(all.take(k + 1) =~= whole.take(k + 1));
                    assert(all[k] == (i as int, p@));
                    assert(all.take(k) =~= pre + mine.take(j as int));
                }
            }
            if filter(query, t, p, real_only) {
                match &p.amount {
                    Some(amount) => {
                        if !balance.insert_money(amount) {
                            return None;
                        }
                        let ghost before = rows@;
                        rows.push(RegisterRow { transaction: i, posting: p.copy(), balance: balance.copy() });
                        assert(rows_view(rows@) =~= rows_view(before).push((i as int, p@, balance@)));
                    },
                    None => {},
                }
            }
        }
        proof {
            if in_range {
                assert(mine.take(m as int) =~= mine);
            } else {
                assert(pre + mine.take(0) =~= pre);
            }
        }
    }
    assert(transactions@.take(n as int) =~= transactions@);
    Some(rows)
}


/// A money in `currency` where `multipliers` has a factor for its commodity
/// (its amount times the factor), the money itself otherwise.
pub open spec fn convert_money(m: MoneyV, multipliers: Map<Seq<char>, Rational>, currency: Rc<Currency>) -> MoneyV {
    if m.0 is Some && multipliers.contains_key(m.0->0.name@) {
        (Some(currency), rat_mul(m.1, multipliers[m.0->0.name@].view()))
    } else {
        m
    }
}

/// Converting the moneys does not overflow: each product with
/// its factor, and adding the converted moneys up.
pub open spec fn convert_fits(b: Seq<MoneyV>, multipliers: Map<Seq<char>, Rational>, currency: Rc<Currency>) -> bool {
    &&& forall|k: int|
        0 <= k < b.len() && b[k].0 is Some && multipliers.contains_key((#[trigger] b[k]).0->0.name@) ==> {
            let f = multipliers[b[k].0->0.name@].view();
            mul_fits(b[k].1, f)
        }
    &&& fold_fits(seq![], b.map_values(|m: MoneyV| convert_money(m, multipliers, currency)))
}

/// The balance with every money converted into `currency` by the factors of
/// `multipliers`, keyed by commodity name (see `convert_money`), the
/// converted moneys added up; `None` on overflow.
pub fn convert_balance(balance: &Balance, multipliers: &Vec<(String, Rational)>, currency: &Rc<Currency>) -> (res:
    Option<Balance>)
    requires
        balance.wf(),
        distinct_keys(multipliers@),
        forall|i: int| 0 <= i < balance@.len() ==> (#[trigger] balance@[i]).0 is Some,
    ensures
        res matches Some(b) ==> b.wf() && b@ == bal_fold(
            seq![],
            balance@.map_values(|m: MoneyV| convert_money(m, amap(multipliers@), *currency)),
        ),
        convert_fits(balance@, amap(multipliers@), *currency) ==> res is Some,
{
    let ghost conv = balance@.map_values(|m: MoneyV| convert_money(m, amap(multipliers@), *currency));
    let mut new_balance = Balance::new();
    let moneys = balance.iter();
    let n = moneys.len();
    for i in 0..n
        invariant
            n == moneys@.len(),
            moneys@.len() == balance@.len(),
            forall|k: int| 0 <= k < n ==> (#[trigger] moneys@[k])@ == balance@[k],
            forall|k: int| 0 <= k < balance@.len() ==> (#[trigger] balance@[k]).0 is Some,
            conv == balance@.map_values(|m: MoneyV| convert_money(m, amap(multipliers@), *currency)),
            distinct_keys(multipliers@),
            new_balance.wf(),
            new_balance@ == bal_fold(seq![], conv.take(i as int)),
    {
        let m = &moneys[i];
        proof {
            assert(conv.take(i + 1).drop_last() =~= conv.take(i as int));
            assert(conv.take(i + 1).last() == conv[i as int]);
            assert(m@ == balance@[i as int]);
            if convert_fits(balance@, amap(multipliers@), *currency) {
                lemma_fold_fits(seq![], conv, i as int);
            }
        }
        match m {
            Money::Zero => {},
            Money::Money { amount, currency: c } => {
                match assoc_find(multipliers, c.name.as_str()) {
                    Some(j) => {
                        let mult = &multipliers[j].1;
                        match amount.checked_mul(mult) {
                            Some(a) => {
                                let converted = Money::Money { amount: a, currency: rc_clone(currency) };
                                if !new_balance.insert_money(&converted) {
                                    return None;
                                }
                            },
                            None => {
                                return None;
                            },
                        }
                    },
                    None => {
                        if !new_balance.insert_money(m) {
                            return None;
                        }
                    },
                }
            },
        }
    }
    assert(conv.take(n as int) =~= conv);
    Some(new_balance)
}

} // verus!
