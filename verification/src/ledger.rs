//! From a parsed journal to a balanced ledger.
use vstd::prelude::*;
use std::rc::Rc;
use vstd::multiset::Multiset;
use crate::date::{Date, date_le};
use crate::error::LedgerError;
use crate::list::List;
use crate::models::{Account, Currency, HasAliases};
use crate::money::{Balance, Money, MoneyV, money_is_negative, money_neg, rc_clone};
use crate::rational::{div_fits, rat_div};
use crate::parser::{ParsedLedger, ParsedPrice, posting_consistent, push_unique};
use crate::parser::Posting as ParsedPosting;
use crate::text::lowercase;
use crate::rational::Rational;
use crate::transaction::{
    AccountBalances, Cost, Posting, PostingType, PostingV, PriceType, Transaction, TransactionStatus,
    TransactionType, accounts_known, balance_outcome, costs_have_commodity, outcome_fits, postings_view,
    spec_total_balance, total_fits,
};
use crate::laws::{
    balances_ok, fills_have_no_cost, law_balanced_transaction_balances, lemma_balance_outcome_ok, out_contributions,
    posting_ok, postings_ok,
};
use crate::money::{bal_can_be_zero, bal_fold};

verus! {

/// A price: one unit of `commodity` is worth `price` on `date`.
#[derive(Debug)]
pub struct Price {
    pub date: Date,
    pub commodity: Rc<Currency>,
    pub price: Money,
}

impl Price {
    pub open spec fn view(&self) -> PriceV {
        (self.date, self.commodity, self.price@)
    }

    /// What one unit of the commodity is worth.
    pub fn get_price(&self) -> (res: Money)
        ensures
            res@ == self.price@,
    {
        self.price.copy()
    }
}

/// A balanced ledger: accounts, commodities, transactions in date order and
/// the prices known.
#[derive(Debug)]
pub struct Ledger {
    pub accounts: List<Account>,
    pub commodities: List<Currency>,
    pub transactions: Vec<Transaction<Posting>>,
    pub prices: Vec<Price>,
}

impl Ledger {
    pub fn new() -> (res: Ledger)
        ensures
            res.accounts.wf(),
            res.commodities.wf(),
            res.accounts.keys().len() == 0,
            res.commodities.keys().len() == 0,
            res.transactions@.len() == 0,
            res.prices@.len() == 0,
    {
        Ledger { accounts: List::new(), commodities: List::new(), transactions: Vec::new(), prices: Vec::new() }
    }
}

/// The date of a transaction that has one.
pub open spec fn tdate<P>(t: Transaction<P>) -> Date {
    t.date.unwrap()
}

/// Transactions in date order.
pub open spec fn sorted_by_date<P>(s: Seq<Transaction<P>>) -> bool {
    forall|i: int, j: int| 0 <= i < j < s.len() ==> date_le(tdate(s[i]), tdate(s[j]))
}

/// Where a transaction dated `d` goes among `s`: after the last one that is
/// not later than `d`.
pub open spec fn insert_at<P>(s: Seq<Transaction<P>>, d: Date) -> int
    decreases s.len(),
{
    if s.len() == 0 {
        0
    } else if date_le(tdate(s.last()), d) {
        s.len() as int
    } else {
        insert_at(s.drop_last(), d)
    }
}

/// The transactions in date order: each in turn goes after the ones before
/// it that are not later, so that transactions of one date keep their order.
pub open spec fn sorted_spec<P>(ts: Seq<Transaction<P>>) -> Seq<Transaction<P>>
    decreases ts.len(),
{
    if ts.len() == 0 {
        seq![]
    } else {
        let s = sorted_spec(ts.drop_last());
        s.insert(insert_at(s, tdate(ts.last())), ts.last())
    }
}

/// The place `insert_at` gives is the one after the last transaction not
/// later than `d`.
proof fn lemma_insert_at<P>(s: Seq<Transaction<P>>, d: Date, k: int)
    requires
        0 <= k <= s.len(),
        k == 0 || date_le(tdate(s[k - 1]), d),
        forall|j: int| k <= j < s.len() ==> !date_le(tdate(#[trigger] s[j]), d),
    ensures
        insert_at(s, d) == k,
    decreases s.len(),
{
    if s.len() > 0 && k < s.len() {
        assert(!date_le(tdate(s[s.len() - 1]), d));
        lemma_insert_at(s.drop_last(), d, k);
    }
}

/// `insert_at` is a place of `s`, and it depends on the dates alone.
proof fn lemma_insert_at_dates<P, Q>(s: Seq<Transaction<P>>, r: Seq<Transaction<Q>>, d: Date)
    requires
        s.len() == r.len(),
        forall|j: int| 0 <= j < s.len() ==> (#[trigger] s[j]).date == r[j].date,
    ensures
        0 <= insert_at(s, d) <= s.len(),
        insert_at(s, d) == insert_at(r, d),
    decreases s.len(),
{
    if s.len() > 0 {
        assert(s.last().date == r.last().date);
        lemma_insert_at_dates(s.drop_last(), r.drop_last(), d);
    }
}

/// Sorting two lists of transactions whose dates agree one by one moves
/// their transactions alike: a relation between them one by one still holds
/// after sorting.
proof fn lemma_sorted_alike<P, Q>(
    a: Seq<Transaction<P>>,
    b: Seq<Transaction<Q>>,
    rel: spec_fn(Transaction<P>, Transaction<Q>) -> bool,
)
    requires
        a.len() == b.len(),
        forall|j: int| 0 <= j < a.len() ==> (#[trigger] a[j]).date == b[j].date && rel(a[j], b[j]),
    ensures
        sorted_spec(a).len() == a.len(),
        sorted_spec(b).len() == b.len(),
        forall|j: int| 0 <= j < a.len() ==> (#[trigger] sorted_spec(a)[j]).date == sorted_spec(b)[j].date && rel(
            sorted_spec(a)[j],
            sorted_spec(b)[j],
        ),
    decreases a.len(),
{
    if a.len() > 0 {
        let a0 = a.drop_last();
        let b0 = b.drop_last();
        lemma_sorted_alike(a0, b0, rel);
        let sa = sorted_spec(a0);
        let sb = sorted_spec(b0);
        let d = tdate(a.last());
        assert(a.last().date == b.last().date);
        lemma_insert_at_dates(sa, sb, d);
        let k = insert_at(sa, d);
        assert(sorted_spec(a) == sa.insert(k, a.last()));
        assert(sorted_spec(b) == sb.insert(k, b.last()));
        assert forall|j: int| 0 <= j < a.len() implies (#[trigger] sorted_spec(a)[j]).date == sorted_spec(b)[j].date
            && rel(sorted_spec(a)[j], sorted_spec(b)[j]) by {
            if j < k {
                assert(sorted_spec(a)[j] == sa[j] && sorted_spec(b)[j] == sb[j]);
            } else if j > k {
                assert(sorted_spec(a)[j] == sa[j - 1] && sorted_spec(b)[j] == sb[j - 1]);
            }
        }
    }
}

/// Sorts transactions by date; transactions of the same date keep their order.
pub fn sort_by_date<P>(ts: Vec<Transaction<P>>) -> (res: Vec<Transaction<P>>)
    requires
        forall|i: int| 0 <= i < ts@.len() ==> (#[trigger] ts@[i]).date is Some,
    ensures
        res@ == sorted_spec(ts@),
        sorted_by_date(res@),
        res@.to_multiset() == ts@.to_multiset(),
{
    broadcast use vstd::seq_lib::group_to_multiset_ensures, vstd::multiset::group_multiset_axioms;
    let mut rest = ts;
    let mut out: Vec<Transaction<P>> = Vec::new();
    let ghost all = rest@;
    let ghost mut done: int = 0;
    proof {
        assert(out@ =~= Seq::<Transaction<P>>::empty());
        assert(out@.to_multiset() =~= Multiset::<Transaction<P>>::empty());
        assert(out@.to_multiset().add(rest@.to_multiset()) =~= all.to_multiset());
        assert(all.take(0) =~= Seq::<Transaction<P>>::empty());
        assert(rest@ =~= all.skip(0));
    }
    while rest.len() > 0
        invariant
            sorted_by_date(out@),
            forall|i: int| 0 <= i < rest@.len() ==> (#[trigger] rest@[i]).date is Some,
            forall|i: int| 0 <= i < out@.len() ==> (#[trigger] out@[i]).date is Some,
            out@.to_multiset().add(rest@.to_multiset()) == all.to_multiset(),
            0 <= done <= all.len(),
            rest@ == all.skip(done),
            out@ == sorted_spec(all.take(done)),
        decreases rest@.len(),
    {
        let ghost r0 = rest@;
        let t = rest.remove(0);
        assert(r0[0] == t);
        let d = t.date.unwrap();
        let mut k = out.len();
        while k > 0 && !out[k - 1].date.unwrap().le(&d)
            invariant
                k <= out@.len(),
                forall|i: int| 0 <= i < out@.len() ==> (#[trigger] out@[i]).date is Some,
                forall|j: int| k <= j < out@.len() ==> date_le(d, tdate(out@[j])) && d != tdate(out@[j]),
            decreases k,
        {
            k = k - 1;
        }
        proof {
            assert forall|j: int| k <= j < out@.len() implies !date_le(tdate(out@[j]), d) by {}
            lemma_insert_at(out@, d, k as int);
            assert(all.take(done + 1).drop_last() =~= all.take(done));
            assert(all[done] == t);
        }
        let ghost o0 = out@;
        out.insert(k, t);
        proof {
            done = done + 1;
            assert(rest@ =~= all.skip(done));
        }
        proof {
            assert(sorted_by_date(out@)) by {
                assert forall|i: int, j: int| 0 <= i < j < out@.len() implies date_le(tdate(out@[i]), tdate(out@[j])) by {
                    if j < k {
                        assert(out@[i] == o0[i] && out@[j] == o0[j]);
                    } else if j == k {
                        assert(out@[i] == o0[i]);
                        if k > 0 {
                            assert(date_le(tdate(o0[k - 1]), d));
                            assert(date_le(tdate(o0[i]), tdate(o0[k - 1])) || i == k - 1);
                        }
                    } else if i == k {
                        assert(out@[j] == o0[j - 1]);
                        assert(date_le(d, tdate(o0[j - 1])));
                    } else if i < k {
                        assert(out@[i] == o0[i] && out@[j] == o0[j - 1]);
                    } else {
                        assert(out@[i] == o0[i - 1] && out@[j] == o0[j - 1]);
                    }
                }
            }
            assert(rest@ == r0.remove(0));
            assert(out@ == o0.insert(k as int, t));
            vstd::seq_lib::to_multiset_remove(r0, 0);
            vstd::seq_lib::to_multiset_insert(o0, k as int, t);
            vstd::seq_lib::to_multiset_contains(r0, t);
            assert(r0.contains(t)) by {
                assert(r0[0] == t);
            }
            assert(r0.to_multiset() =~= rest@.to_multiset().insert(t));
            assert(out@.to_multiset() == o0.to_multiset().insert(t));
            assert(out@.to_multiset().add(rest@.to_multiset()) =~= o0.to_multiset().add(r0.to_multiset()));
        }
    }
    proof {
        assert(all.take(done) =~= all);
        assert(rest@ =~= Seq::<Transaction<P>>::empty());
        assert(rest@.to_multiset() =~= Multiset::<Transaction<P>>::empty());
        assert(out@.to_multiset() =~= out@.to_multiset().add(rest@.to_multiset()));
    }
    out
}

/// Whether every per unit cost of a posting with an amount has a commodity.
pub fn costs_have_commodity_exec(postings: &Vec<Posting>) -> (res: bool)
    ensures
        res == costs_have_commodity(postings_view(postings@)),
{
    let ghost ps = postings_view(postings@);
    let n = postings.len();
    for i in 0..n
        invariant
            n == postings@.len(),
            ps == postings_view(postings@),
            forall|j: int| 0 <= j < i ==> ((#[trigger] ps[j]).1 is Some ==> (ps[j].3 matches Some(c) ==> (c.0
                == PriceType::PerUnit ==> c.1.0 is Some))),
    {
        let p = &postings[i];
        assert(ps[i as int] == p@);
        if p.amount.is_some() {
            match &p.cost {
                Some(Cost::PerUnit { amount: Money::Zero }) => {
                    return false;
                },
                _ => {},
            }
        }
    }
    true
}

/// Whether every posting's account has a running balance.
pub fn accounts_known_exec(postings: &Vec<Posting>, balances: &AccountBalances) -> (res: bool)
    requires
        balances.wf(),
    ensures
        res == accounts_known(postings_view(postings@), balances.as_map()),
{
    let ghost ps = postings_view(postings@);
    let n = postings.len();
    for i in 0..n
        invariant
            n == postings@.len(),
            balances.wf(),
            ps == postings_view(postings@),
            forall|j: int| 0 <= j < i ==> balances.as_map().contains_key((#[trigger] ps[j]).0.name@),
    {
        let p = &postings[i];
        assert(ps[i as int] == p@);
        if balances.get(p.account.name.as_str()).is_none() {
            return false;
        }
    }
    true
}

/// The amounts of a transaction's postings are valid fractions, and a
/// posting that only asserts a balance has no cost.
pub open spec fn postings_valid(t: Transaction<Posting>) -> bool {
    &&& postings_ok(postings_view(t.postings@))
    &&& fills_have_no_cost(postings_view(t.postings@))
}

/// The transaction balances: the amounts of its postings, each converted by
/// its cost, can add up to zero.
pub open spec fn balances_out(t: Transaction<Posting>) -> bool {
    bal_can_be_zero(bal_fold(seq![], out_contributions(postings_view(t.postings@))))
}

/// The real transactions, in order.
pub open spec fn reals<P>(ts: Seq<Transaction<P>>) -> Seq<Transaction<P>>
    decreases ts.len(),
{
    if ts.len() == 0 {
        seq![]
    } else {
        let r = reals(ts.drop_last());
        if ts.last().transaction_type == TransactionType::Real {
            r.push(ts.last())
        } else {
            r
        }
    }
}

/// A transaction of the ledger was made from the written transaction `a`:
/// a real one, with its dates, code, description and note.
pub open spec fn built_from(b: Transaction<Posting>, a: Transaction<ParsedPosting>) -> bool {
    &&& b.transaction_type == TransactionType::Real
    &&& b.date == a.date
    &&& b.effective_date == a.effective_date
    &&& b.code == a.code
    &&& b.description == a.description
    &&& b.note == a.note
}

/// The money written as a commodity and an amount, with the commodity of
/// the list.
pub open spec fn written_money(cur: Option<String>, amount: Option<Rational>, commodities: List<Currency>) -> Option<
    MoneyV,
> {
    match (cur, amount) {
        (Some(c), Some(a)) => Some((Some(commodities.named(c@)), a@)),
        _ => None,
    }
}

/// The posting of the ledger that a written posting becomes: its account
/// and commodities taken from the lists; a cost only beside an amount.
pub open spec fn built_posting(p: ParsedPosting, accounts: List<Account>, commodities: List<Currency>) -> PostingV {
    let amount = written_money(p.money_currency, p.money_amount, commodities);
    let cost = match (p.cost_type, written_money(p.cost_currency, p.cost_amount, commodities)) {
        (Some(kind), Some(m)) => if amount is Some {
            Some((kind, m))
        } else {
            None
        },
        _ => None,
    };
    (accounts.named(p.account@), amount, written_money(p.balance_currency, p.balance_amount, commodities), cost, p.kind)
}

/// The postings of kind `kind` that the written postings become, in order.
pub open spec fn built_postings(
    ps: Seq<ParsedPosting>,
    kind: PostingType,
    accounts: List<Account>,
    commodities: List<Currency>,
) -> Seq<PostingV>
    decreases ps.len(),
{
    if ps.len() == 0 {
        seq![]
    } else {
        let r = built_postings(ps.drop_last(), kind, accounts, commodities);
        if ps.last().kind == kind {
            r.push(built_posting(ps.last(), accounts, commodities))
        } else {
            r
        }
    }
}

/// The status of a transaction made from the real postings `ps`: internally
/// balanced exactly when their costs name a commodity, their sum is computed
/// in `i64` and it can add up to zero; not checked otherwise.
pub open spec fn status_ok(st: TransactionStatus, ps: Seq<PostingV>) -> bool {
    &&& st == TransactionStatus::InternallyBalanced || st == TransactionStatus::NotChecked
    &&& (st == TransactionStatus::InternallyBalanced) == (costs_have_commodity(ps) && total_fits(ps) && bal_can_be_zero(
        spec_total_balance(ps),
    ))
}

/// A transaction of the ledger was made from the written transaction `a`
/// with the lists: its header, its status and its virtual postings (its
/// real postings may have been balanced since).
pub open spec fn made_but_postings(
    b: Transaction<Posting>,
    a: Transaction<ParsedPosting>,
    accounts: List<Account>,
    commodities: List<Currency>,
) -> bool {
    &&& built_from(b, a)
    &&& status_ok(b.status, built_postings(a.postings@, PostingType::Real, accounts, commodities))
    &&& postings_view(b.virtual_postings@) == built_postings(a.postings@, PostingType::Virtual, accounts, commodities)
    &&& postings_view(b.virtual_postings_balance@) == built_postings(
        a.postings@,
        PostingType::VirtualMustBalance,
        accounts,
        commodities,
    )
}

/// A transaction of the ledger was made from the written transaction `a`
/// with the lists, before it was balanced.
pub open spec fn made_from(
    b: Transaction<Posting>,
    a: Transaction<ParsedPosting>,
    accounts: List<Account>,
    commodities: List<Currency>,
) -> bool {
    &&& made_but_postings(b, a, accounts, commodities)
    &&& postings_view(b.postings@) == built_postings(a.postings@, PostingType::Real, accounts, commodities)
}

/// The real postings and the `[virtual]` postings of the transaction made
/// from `a`.
pub open spec fn built_pair(a: Transaction<ParsedPosting>, accounts: List<Account>, commodities: List<Currency>) -> (
    Seq<PostingV>,
    Seq<PostingV>,
) {
    (
        built_postings(a.postings@, PostingType::Real, accounts, commodities),
        built_postings(a.postings@, PostingType::VirtualMustBalance, accounts, commodities),
    )
}

/// The real postings and the `[virtual]` postings of the transactions made
/// from `ts`.
pub open spec fn built_pairs(
    ts: Seq<Transaction<ParsedPosting>>,
    accounts: List<Account>,
    commodities: List<Currency>,
) -> Seq<(Seq<PostingV>, Seq<PostingV>)> {
    ts.map_values(|a: Transaction<ParsedPosting>| built_pair(a, accounts, commodities))
}

/// Every account of the list, with nothing in it yet.
pub open spec fn start_balances(accounts: List<Account>) -> Map<Seq<char>, Seq<MoneyV>> {
    Map::new(
        |k: Seq<char>| exists|i: int| 0 <= i < accounts.keys().len() && (#[trigger] accounts.item_at(i)).name@ == k,
        |k: Seq<char>| Seq::<MoneyV>::empty(),
    )
}

/// Balancing transactions in turn, each given by its real postings and its
/// `[virtual]` postings, from the running balances `bals`: the real
/// postings of each once balanced, or the error of the first that does not
/// balance.
pub open spec fn balance_all(ts: Seq<(Seq<PostingV>, Seq<PostingV>)>, bals: Map<Seq<char>, Seq<MoneyV>>, skip: bool) -> Result<
    Seq<Seq<PostingV>>,
    LedgerError,
>
    decreases ts.len(),
{
    if ts.len() == 0 {
        Ok(seq![])
    } else {
        let o = balance_outcome(ts[0].0, spec_total_balance(ts[0].1), bals, skip);
        match o.0 {
            Err(e) => Err(e),
            Ok(_) => prepend(seq![o.1], balance_all(ts.drop_first(), o.2, skip)),
        }
    }
}

/// `xs` in front of a successful result; an error stays.
pub open spec fn prepend(xs: Seq<Seq<PostingV>>, r: Result<Seq<Seq<PostingV>>, LedgerError>) -> Result<
    Seq<Seq<PostingV>>,
    LedgerError,
> {
    match r {
        Ok(rest) => Ok(xs + rest),
        Err(e) => Err(e),
    }
}

/// The real postings of each transaction.
pub open spec fn real_postings(ts: Seq<Transaction<Posting>>) -> Seq<Seq<PostingV>> {
    ts.map_values(|t: Transaction<Posting>| postings_view(t.postings@))
}

/// Strings as character sequences.
pub open spec fn str_views(v: Seq<String>) -> Seq<Seq<char>> {
    v.map_values(|x: String| x@)
}

/// Whether a written posting names the commodity `name`: its amount, its
/// cost or its balance assertion.
pub open spec fn posting_names_commodity(p: ParsedPosting, name: Seq<char>) -> bool {
    ||| p.money_currency matches Some(c) && c@ == name
    ||| p.cost_currency matches Some(c) && c@ == name
    ||| p.balance_currency matches Some(c) && c@ == name
}

/// Whether some posting of `ts` is on the account `name`.
pub open spec fn uses_account(ts: Seq<Transaction<ParsedPosting>>, name: Seq<char>) -> bool {
    exists|i: int, j: int|
        0 <= i < ts.len() && 0 <= j < ts[i].postings@.len() && (#[trigger] ts[i].postings@[j]).account@ == name
}

/// Whether some posting of `ts` or some price of `prices` names the
/// commodity `name`.
pub open spec fn uses_commodity(ts: Seq<Transaction<ParsedPosting>>, prices: Seq<ParsedPrice>, name: Seq<char>) -> bool {
    ||| exists|i: int, j: int|
        0 <= i < ts.len() && 0 <= j < ts[i].postings@.len() && posting_names_commodity(
            #[trigger] ts[i].postings@[j],
            name,
        )
    ||| exists|k: int| 0 <= k < prices.len() && ((#[trigger] prices[k]).commodity@ == name || prices[k].other_commodity@ == name)
}

/// The account and the commodities that a written posting names are known.
pub open spec fn names_known(p: ParsedPosting, accounts: List<Account>, commodities: List<Currency>) -> bool {
    &&& accounts.has_name(p.account@)
    &&& (p.money_currency matches Some(c) ==> commodities.has_name(c@))
    &&& (p.cost_currency matches Some(c) ==> commodities.has_name(c@))
    &&& (p.balance_currency matches Some(c) ==> commodities.has_name(c@))
}

/// `after` keeps every element of `before` and its aliases.
pub open spec fn list_keeps<T>(before: List<T>, after: List<T>) -> bool {
    &&& after.alias_map() == before.alias_map()
    &&& forall|k: Seq<char>| #[trigger]
        before.items().contains_key(k) ==> after.items().contains_key(k) && after.items()[k] == before.items()[k]
}

/// A price as its date, its commodity and what one unit is worth.
pub type PriceV = (Date, Rc<Currency>, MoneyV);

/// The prices as their views.
pub open spec fn prices_view(ps: Seq<Price>) -> Seq<PriceV> {
    ps.map_values(|p: Price| p@)
}

/// The price that a `P` directive gives, with the commodities of the list.
pub open spec fn directive_price(d: ParsedPrice, commodities: List<Currency>) -> PriceV {
    (d.date, commodities.named(d.commodity@), (Some(commodities.named(d.other_commodity@)), d.other_quantity@))
}

/// The prices of the `P` directives, in order.
pub open spec fn directive_prices(ds: Seq<ParsedPrice>, commodities: List<Currency>) -> Seq<PriceV> {
    ds.map_values(|d: ParsedPrice| directive_price(d, commodities))
}

/// The price that the cost of a written posting gives on `date`: one unit
/// of the posting's commodity is worth the cost of one unit.
pub open spec fn cost_price(p: ParsedPosting, date: Date, commodities: List<Currency>) -> Option<PriceV> {
    match (p.cost_currency, p.cost_amount, p.cost_type, p.money_currency, p.money_amount) {
        (Some(c), Some(a), Some(kind), Some(mc), Some(m)) => Some(
            (
                date,
                commodities.named(mc@),
                (Some(commodities.named(c@)), if kind == PriceType::Total {
                    rat_div(a@, m@)
                } else {
                    a@
                }),
            ),
        ),
        _ => None,
    }
}

/// The prices that the costs of the postings give on `date`, in order.
pub open spec fn posting_cost_prices(ps: Seq<ParsedPosting>, date: Date, commodities: List<Currency>) -> Seq<PriceV>
    decreases ps.len(),
{
    if ps.len() == 0 {
        seq![]
    } else {
        let r = posting_cost_prices(ps.drop_last(), date, commodities);
        match cost_price(ps.last(), date, commodities) {
            Some(x) => r.push(x),
            None => r,
        }
    }
}

/// The prices that the costs of the postings of `ts` give, in order.
pub open spec fn cost_prices(ts: Seq<Transaction<ParsedPosting>>, commodities: List<Currency>) -> Seq<PriceV>
    decreases ts.len(),
{
    if ts.len() == 0 {
        seq![]
    } else {
        cost_prices(ts.drop_last(), commodities) + posting_cost_prices(ts.last().postings@, tdate(ts.last()), commodities)
    }
}

/// A written posting whose total cost (`@@`) is given for an amount of
/// zero: no price per unit follows from it.
pub open spec fn zero_total_cost(p: ParsedPosting) -> bool {
    &&& p.cost_type == Some(PriceType::Total)
    &&& p.cost_currency is Some
    &&& p.cost_amount is Some
    &&& p.money_currency is Some
    &&& p.money_amount matches Some(m) && m@.0 == 0
}

/// A money without its sign.
pub open spec fn money_abs(m: MoneyV) -> MoneyV {
    if money_is_negative(m) {
        money_neg(m)
    } else {
        m
    }
}

/// The price that a transaction that balances to two commodities gives on
/// `date`: one unit of the first is worth what the second weighs against it.
pub open spec fn balance_price(b: Seq<MoneyV>, date: Date) -> Option<PriceV> {
    if b.len() == 2 && money_abs(b[0]).0 is Some && money_abs(b[1]).0 is Some {
        Some((date, money_abs(b[0]).0.unwrap(), (money_abs(b[1]).0, rat_div(money_abs(b[1]).1, money_abs(b[0]).1))))
    } else {
        None
    }
}

/// The prices that balancing the transactions made from `ts` in turn gives,
/// from the running balances `bals`, up to the first that does not balance.
pub open spec fn balance_prices(
    ts: Seq<Transaction<ParsedPosting>>,
    accounts: List<Account>,
    commodities: List<Currency>,
    bals: Map<Seq<char>, Seq<MoneyV>>,
    skip: bool,
) -> Seq<PriceV>
    decreases ts.len(),
{
    if ts.len() == 0 {
        seq![]
    } else {
        let pr = built_pair(ts[0], accounts, commodities);
        let o = balance_outcome(pr.0, spec_total_balance(pr.1), bals, skip);
        match o.0 {
            Err(_) => seq![],
            Ok(b) => {
                let rest = balance_prices(ts.drop_first(), accounts, commodities, o.2, skip);
                match balance_price(b, tdate(ts[0])) {
                    Some(x) => seq![x] + rest,
                    None => rest,
                }
            },
        }
    }
}

/// The names of the accounts (second) and of the commodities (first) that
/// the postings and the prices use, each once.
fn used_names(ts: &Vec<Transaction<ParsedPosting>>, prices: &Vec<ParsedPrice>) -> (res: (Vec<String>, Vec<String>))
    ensures
        forall|i: int, j: int|
            0 <= i < ts@.len() && 0 <= j < ts@[i].postings@.len() ==> {
                let p = #[trigger] ts@[i].postings@[j];
                &&& str_views(res.1@).contains(p.account@)
                &&& (p.money_currency matches Some(c) ==> str_views(res.0@).contains(c@))
                &&& (p.cost_currency matches Some(c) ==> str_views(res.0@).contains(c@))
                &&& (p.balance_currency matches Some(c) ==> str_views(res.0@).contains(c@))
            },
        forall|k: int|
            0 <= k < prices@.len() ==> str_views(res.0@).contains((#[trigger] prices@[k]).commodity@) && str_views(
                res.0@,
            ).contains(prices@[k].other_commodity@),
        forall|k: int| 0 <= k < res.1@.len() ==> uses_account(ts@, (#[trigger] res.1@[k])@),
        forall|k: int| 0 <= k < res.0@.len() ==> uses_commodity(ts@, prices@, (#[trigger] res.0@[k])@),
{
    let mut commodity_strs: Vec<String> = Vec::new();
    let mut account_strs: Vec<String> = Vec::new();
    let nt = ts.len();
    for i in 0..nt
        invariant
            nt == ts@.len(),
            forall|a: int, j: int|
                0 <= a < i && 0 <= j < ts@[a].postings@.len() ==> {
                    let p = #[trigger] ts@[a].postings@[j];
                    &&& str_views(account_strs@).contains(p.account@)
                    &&& (p.money_currency matches Some(c) ==> str_views(commodity_strs@).contains(c@))
                    &&& (p.cost_currency matches Some(c) ==> str_views(commodity_strs@).contains(c@))
                    &&& (p.balance_currency matches Some(c) ==> str_views(commodity_strs@).contains(c@))
                },
            forall|k: int| 0 <= k < account_strs@.len() ==> uses_account(ts@, (#[trigger] account_strs@[k])@),
            forall|k: int| 0 <= k < commodity_strs@.len() ==> uses_commodity(ts@, prices@, (#[trigger] commodity_strs@[k])@),
    {
        let t = &ts[i];
        let np = t.postings.len();
        for j in 0..np
            invariant
                np == t.postings@.len(),
                t == ts@[i as int],
                0 <= i < nt,
                nt == ts@.len(),
                forall|a: int, b: int|
                    (0 <= a < i && 0 <= b < ts@[a].postings@.len()) || (a == i && 0 <= b < j) ==> {
                        let p = #[trigger] ts@[a].postings@[b];
                        &&& str_views(account_strs@).contains(p.account@)
                        &&& (p.money_currency matches Some(c) ==> str_views(commodity_strs@).contains(c@))
                        &&& (p.cost_currency matches Some(c) ==> str_views(commodity_strs@).contains(c@))
                        &&& (p.balance_currency matches Some(c) ==> str_views(commodity_strs@).contains(c@))
                    },
                forall|k: int| 0 <= k < account_strs@.len() ==> uses_account(ts@, (#[trigger] account_strs@[k])@),
                forall|k: int|
                    0 <= k < commodity_strs@.len() ==> uses_commodity(ts@, prices@, (#[trigger] commodity_strs@[k])@),
        {
            let p = &t.postings[j];
            let ghost pv = ts@[i as int].postings@[j as int];
            assert(*p == pv);
            let ghost a0 = account_strs@;
            push_unique(&mut account_strs, p.account.clone());
            assert(uses_account(ts@, p.account@));
            proof {
                lemma_views_grow(a0, account_strs@, p.account);
            }
            if let Some(c) = &p.money_currency {
                let ghost c0 = commodity_strs@;
                push_unique(&mut commodity_strs, c.clone());
                assert(posting_names_commodity(ts@[i as int].postings@[j as int], c@));
                proof {
                    lemma_views_grow(c0, commodity_strs@, *c);
                }
            }
            if let Some(c) = &p.cost_currency {
                let ghost c0 = commodity_strs@;
                push_unique(&mut commodity_strs, c.clone());
                assert(posting_names_commodity(ts@[i as int].postings@[j as int], c@));
                proof {
                    lemma_views_grow(c0, commodity_strs@, *c);
                }
            }
            if let Some(c) = &p.balance_currency {
                let ghost c0 = commodity_strs@;
                push_unique(&mut commodity_strs, c.clone());
                assert(posting_names_commodity(ts@[i as int].postings@[j as int], c@));
                proof {
                    lemma_views_grow(c0, commodity_strs@, *c);
                }
            }
        }
    }
    let npr = prices.len();
    for i in 0..npr
        invariant
            npr == prices@.len(),
            nt == ts@.len(),
            forall|a: int, j: int|
                0 <= a < nt && 0 <= j < ts@[a].postings@.len() ==> {
                    let p = #[trigger] ts@[a].postings@[j];
                    &&& str_views(account_strs@).contains(p.account@)
                    &&& (p.money_currency matches Some(c) ==> str_views(commodity_strs@).contains(c@))
                    &&& (p.cost_currency matches Some(c) ==> str_views(commodity_strs@).contains(c@))
                    &&& (p.balance_currency matches Some(c) ==> str_views(commodity_strs@).contains(c@))
                },
            forall|k: int|
                0 <= k < i ==> str_views(commodity_strs@).contains((#[trigger] prices@[k]).commodity@) && str_views(
                    commodity_strs@,
                ).contains(prices@[k].other_commodity@),
            forall|k: int| 0 <= k < account_strs@.len() ==> uses_account(ts@, (#[trigger] account_strs@[k])@),
            forall|k: int| 0 <= k < commodity_strs@.len() ==> uses_commodity(ts@, prices@, (#[trigger] commodity_strs@[k])@),
    {
        let ghost c0 = commodity_strs@;
        assert(uses_commodity(ts@, prices@, prices@[i as int].commodity@));
        assert(uses_commodity(ts@, prices@, prices@[i as int].other_commodity@));
        push_unique(&mut commodity_strs, prices[i].commodity.clone());
        proof {
            lemma_views_grow(c0, commodity_strs@, prices@[i as int].commodity);
        }
        let ghost c1 = commodity_strs@;
        push_unique(&mut commodity_strs, prices[i].other_commodity.clone());
        proof {
            lemma_views_grow(c1, commodity_strs@, prices@[i as int].other_commodity);
        }
    }
    (commodity_strs, account_strs)
}

/// After `push_unique`, the strings there before are still there, and the
/// new one too.
proof fn lemma_views_grow(before: Seq<String>, after: Seq<String>, s: String)
    requires
        str_views(before).contains(s@) ==> after == before,
        !str_views(before).contains(s@) ==> after == before.push(s),
    ensures
        str_views(after).contains(s@),
        forall|x: Seq<char>| str_views(before).contains(x) ==> #[trigger] str_views(after).contains(x),
        forall|k: int| 0 <= k < after.len() ==> after[k] == s || (k < before.len() && after[k] == before[k]),
{
    if !str_views(before).contains(s@) {
        assert(str_views(after)[before.len() as int] == s@);
        assert forall|x: Seq<char>| str_views(before).contains(x) implies #[trigger] str_views(after).contains(x) by {
            let k = choose|k: int| 0 <= k < str_views(before).len() && str_views(before)[k] == x;
            assert(str_views(after)[k] == x);
        }
    }
}

/// Adds a commodity for every name that the list does not know yet.
fn add_commodities(list: &mut List<Currency>, names: &Vec<String>)
    requires
        old(list).wf(),
        old(list).aliases_resolve(),
    ensures
        final(list).wf(),
        final(list).aliases_resolve(),
        list_keeps(*old(list), *final(list)),
        forall|k: Seq<char>| #[trigger]
            final(list).items().contains_key(k) ==> old(list).items().contains_key(k) || exists|j: int|
                0 <= j < names@.len() && lowercase((#[trigger] names@[j])@) == k,
        forall|j: int| 0 <= j < names@.len() ==> final(list).has_name((#[trigger] names@[j])@),
{
    let n = names.len();
    for i in 0..n
        invariant
            n == names@.len(),
            list.wf(),
            list.aliases_resolve(),
            list_keeps(*old(list), *list),
            forall|k: Seq<char>| #[trigger]
                list.items().contains_key(k) ==> old(list).items().contains_key(k) || exists|j: int|
                    0 <= j < i && lowercase((#[trigger] names@[j])@) == k,
            forall|j: int| 0 <= j < i ==> list.has_name((#[trigger] names@[j])@),
    {
        if list.get(names[i].as_str()).is_err() {
            let c = Currency::from(names[i].as_str());
            assert(c.alias_names().len() == 0);
            list.insert(c);
        }
    }
}

/// Adds an account for every name that the list does not know yet.
fn add_accounts(list: &mut List<Account>, names: &Vec<String>)
    requires
        old(list).wf(),
        old(list).aliases_resolve(),
    ensures
        final(list).wf(),
        final(list).aliases_resolve(),
        list_keeps(*old(list), *final(list)),
        forall|k: Seq<char>| #[trigger]
            final(list).items().contains_key(k) ==> old(list).items().contains_key(k) || exists|j: int|
                0 <= j < names@.len() && lowercase((#[trigger] names@[j])@) == k,
        forall|j: int| 0 <= j < names@.len() ==> final(list).has_name((#[trigger] names@[j])@),
{
    let n = names.len();
    for i in 0..n
        invariant
            n == names@.len(),
            list.wf(),
            list.aliases_resolve(),
            list_keeps(*old(list), *list),
            forall|k: Seq<char>| #[trigger]
                list.items().contains_key(k) ==> old(list).items().contains_key(k) || exists|j: int|
                    0 <= j < i && lowercase((#[trigger] names@[j])@) == k,
            forall|j: int| 0 <= j < i ==> list.has_name((#[trigger] names@[j])@),
    {
        if list.get(names[i].as_str()).is_err() {
            let a = Account::from(names[i].as_str());
            assert(a.alias_names().len() == 0);
            list.insert(a);
        }
    }
}

/// The lists that `to_ledger` works with, made from the accounts and
/// commodities of a parsed ledger: they keep every element and alias there,
/// know every name that the postings `ts` and the prices use, and hold
/// nothing else.
pub open spec fn lists_for(
    accounts0: List<Account>,
    commodities0: List<Currency>,
    ts: Seq<Transaction<ParsedPosting>>,
    prices: Seq<ParsedPrice>,
    accounts: List<Account>,
    commodities: List<Currency>,
) -> bool {
    &&& accounts.wf()
    &&& accounts.aliases_resolve()
    &&& commodities.wf()
    &&& commodities.aliases_resolve()
    &&& list_keeps(accounts0, accounts)
    &&& list_keeps(commodities0, commodities)
    &&& forall|k: Seq<char>| #[trigger]
        accounts.items().contains_key(k) ==> accounts0.items().contains_key(k) || exists|name: Seq<char>|
            #[trigger] uses_account(ts, name) && lowercase(name) == k
    &&& forall|k: Seq<char>| #[trigger]
        commodities.items().contains_key(k) ==> commodities0.items().contains_key(k) || exists|name: Seq<char>|
            #[trigger] uses_commodity(ts, prices, name) && lowercase(name) == k
    &&& forall|i: int, j: int|
        0 <= i < ts.len() && 0 <= j < ts[i].postings@.len() ==> names_known(#[trigger] ts[i].postings@[j], accounts, commodities)
    &&& forall|k: int|
        0 <= k < prices.len() ==> commodities.has_name((#[trigger] prices[k]).commodity@) && commodities.has_name(
            prices[k].other_commodity@,
        )
}

/// The cost of a written posting gives a price that can be computed: a
/// total cost is for an amount other than zero, and the price of one unit
/// does not overflow.
pub open spec fn cost_computable(p: ParsedPosting) -> bool {
    match (p.cost_currency, p.cost_amount, p.cost_type, p.money_currency, p.money_amount) {
        (Some(_), Some(a), Some(kind), Some(_), Some(m)) => kind == PriceType::Total ==> {
            &&& m@.0 != 0
            &&& div_fits(a@, m@)
        },
        _ => true,
    }
}

/// The price that a balance of two commodities gives can be computed: the
/// first amount is not zero, and the quotient does not overflow.
pub open spec fn price_computable(b: Seq<MoneyV>) -> bool {
    b.len() == 2 && money_abs(b[0]).0 is Some && money_abs(b[1]).0 is Some ==> {
        &&& money_abs(b[0]).1.0 != 0
        &&& div_fits(money_abs(b[1]).1, money_abs(b[0]).1)
    }
}

/// The transactions made from `ts` balance one after the other from the
/// running balances `bals`: every account is known, every per unit cost has
/// a commodity, the balancing does not overflow and succeeds, and
/// the price it may give can be computed.
pub open spec fn balancing_ok(
    ts: Seq<Transaction<ParsedPosting>>,
    accounts: List<Account>,
    commodities: List<Currency>,
    bals: Map<Seq<char>, Seq<MoneyV>>,
    skip: bool,
) -> bool
    decreases ts.len(),
{
    if ts.len() == 0 {
        true
    } else {
        let pr = built_pair(ts[0], accounts, commodities);
        let o = balance_outcome(pr.0, spec_total_balance(pr.1), bals, skip);
        &&& accounts_known(pr.0, bals)
        &&& costs_have_commodity(pr.0)
        &&& costs_have_commodity(pr.1)
        &&& outcome_fits(pr.0, pr.1, bals, skip)
        &&& o.0 is Ok
        &&& price_computable(o.0->Ok_0)
        &&& balancing_ok(ts.drop_first(), accounts, commodities, o.2, skip)
    }
}

/// What `to_ledger` needs to succeed with the lists: every real transaction
/// has a date, every cost gives a price that can be computed, and the real
/// transactions, in date order, balance one after the other.
pub open spec fn ledger_ok(
    ts: Seq<Transaction<ParsedPosting>>,
    accounts: List<Account>,
    commodities: List<Currency>,
    skip: bool,
) -> bool {
    &&& forall|i: int| 0 <= i < ts.len() && ts[i].transaction_type == TransactionType::Real ==> (#[trigger] ts[i]).date is Some
    &&& forall|i: int, j: int|
        0 <= i < ts.len() && ts[i].transaction_type == TransactionType::Real && 0 <= j < ts[i].postings@.len()
            ==> cost_computable(#[trigger] ts[i].postings@[j])
    &&& balancing_ok(sorted_spec(reals(ts)), accounts, commodities, start_balances(accounts), skip)
}

/// The error that building transactions from the postings `ps` meets
/// first, if any: a total cost for an amount of zero.
pub open spec fn posting_error(ps: Seq<ParsedPosting>) -> Option<LedgerError>
    decreases ps.len(),
{
    if ps.len() == 0 {
        None
    } else {
        match posting_error(ps.drop_last()) {
            Some(e) => Some(e),
            None => if zero_total_cost(ps.last()) {
                Some(LedgerError::DivisionByZero)
            } else {
                None
            },
        }
    }
}

/// The error that building the real transactions of `ts` meets first, if
/// any: a real transaction without a date, or a total cost for an amount of
/// zero.
pub open spec fn building_error(ts: Seq<Transaction<ParsedPosting>>) -> Option<LedgerError>
    decreases ts.len(),
{
    if ts.len() == 0 {
        None
    } else {
        match building_error(ts.drop_last()) {
            Some(e) => Some(e),
            None => {
                let t = ts.last();
                if t.transaction_type != TransactionType::Real {
                    None
                } else if t.date is None {
                    Some(LedgerError::TransactionIsNotBalanced)
                } else {
                    posting_error(t.postings@)
                }
            },
        }
    }
}

/// A balance of two commodities whose first amount is zero: no price
/// follows from it.
pub open spec fn zero_price(b: Seq<MoneyV>) -> bool {
    b.len() == 2 && money_abs(b[0]).0 is Some && money_abs(b[1]).0 is Some && money_abs(b[0]).1.0 == 0
}

/// The error that balancing the transactions made from `ts` in turn, from
/// the running balances `bals`, meets first, if any.
pub open spec fn balancing_error(
    ts: Seq<Transaction<ParsedPosting>>,
    accounts: List<Account>,
    commodities: List<Currency>,
    bals: Map<Seq<char>, Seq<MoneyV>>,
    skip: bool,
) -> Option<LedgerError>
    decreases ts.len(),
{
    if ts.len() == 0 {
        None
    } else {
        let pr = built_pair(ts[0], accounts, commodities);
        let o = balance_outcome(pr.0, spec_total_balance(pr.1), bals, skip);
        if !accounts_known(pr.0, bals) {
            Some(LedgerError::AliasNotInList(ts[0].description))
        } else if !costs_have_commodity(pr.0) || !costs_have_commodity(pr.1) {
            Some(LedgerError::TransactionIsNotBalanced)
        } else {
            match o.0 {
                Err(e) => Some(e),
                Ok(b) => if zero_price(b) {
                    Some(LedgerError::DivisionByZero)
                } else {
                    balancing_error(ts.drop_first(), accounts, commodities, o.2, skip)
                },
            }
        }
    }
}

/// The price that the cost of a written posting gives does not overflow: a
/// total cost for an amount other than zero is divided by it in `i64`.
pub open spec fn cost_fits(p: ParsedPosting) -> bool {
    match (p.cost_currency, p.cost_amount, p.cost_type, p.money_currency, p.money_amount) {
        (Some(_), Some(a), Some(kind), Some(_), Some(m)) => kind == PriceType::Total && m@.0 != 0 ==> div_fits(a@, m@),
        _ => true,
    }
}

/// Balancing the transactions made from `ts` in turn, from the running
/// balances `bals`, does not overflow up to the first error: neither the
/// balancing nor the price it may give.
pub open spec fn balancing_fits(
    ts: Seq<Transaction<ParsedPosting>>,
    accounts: List<Account>,
    commodities: List<Currency>,
    bals: Map<Seq<char>, Seq<MoneyV>>,
    skip: bool,
) -> bool
    decreases ts.len(),
{
    if ts.len() == 0 {
        true
    } else {
        let pr = built_pair(ts[0], accounts, commodities);
        let o = balance_outcome(pr.0, spec_total_balance(pr.1), bals, skip);
        if !accounts_known(pr.0, bals) || !costs_have_commodity(pr.0) || !costs_have_commodity(pr.1) {
            true
        } else {
            &&& outcome_fits(pr.0, pr.1, bals, skip)
            &&& match o.0 {
                Err(_) => true,
                Ok(b) => if zero_price(b) {
                    true
                } else {
                    &&& (b.len() == 2 && money_abs(b[0]).0 is Some && money_abs(b[1]).0 is Some ==> div_fits(
                        money_abs(b[1]).1,
                        money_abs(b[0]).1,
                    ))
                    &&& balancing_fits(ts.drop_first(), accounts, commodities, o.2, skip)
                },
            }
        }
    }
}

/// Nothing that `to_ledger` computes with the lists overflows `i64` before
/// its first error: the prices of the costs, the balancing of the
/// transactions and the prices they give.
pub open spec fn ledger_fits(
    ts: Seq<Transaction<ParsedPosting>>,
    accounts: List<Account>,
    commodities: List<Currency>,
    skip: bool,
) -> bool {
    &&& forall|i: int, j: int|
        0 <= i < ts.len() && ts[i].transaction_type == TransactionType::Real && 0 <= j < ts[i].postings@.len()
            ==> cost_fits(#[trigger] ts[i].postings@[j])
    &&& balancing_fits(sorted_spec(reals(ts)), accounts, commodities, start_balances(accounts), skip)
}

/// The error that `to_ledger` meets first with the lists, if any: one of
/// building the transactions, in the order they are written, else one of
/// balancing them, in date order.
pub open spec fn ledger_error(
    ts: Seq<Transaction<ParsedPosting>>,
    accounts: List<Account>,
    commodities: List<Currency>,
    skip: bool,
) -> Option<LedgerError> {
    match building_error(ts) {
        Some(e) => Some(e),
        None => balancing_error(sorted_spec(reals(ts)), accounts, commodities, start_balances(accounts), skip),
    }
}

/// Once a prefix meets an error, the whole does.
proof fn lemma_posting_error_prefix(ps: Seq<ParsedPosting>, i: int)
    requires
        0 <= i <= ps.len(),
        posting_error(ps.take(i)) is Some,
    ensures
        posting_error(ps) == posting_error(ps.take(i)),
    decreases ps.len(),
{
    if i < ps.len() {
        assert(ps.drop_last().take(i) =~= ps.take(i));
        lemma_posting_error_prefix(ps.drop_last(), i);
    } else {
        assert(ps.take(i) =~= ps);
    }
}

/// Once a prefix meets an error, the whole does.
proof fn lemma_building_error_prefix(ts: Seq<Transaction<ParsedPosting>>, i: int)
    requires
        0 <= i <= ts.len(),
        building_error(ts.take(i)) is Some,
    ensures
        building_error(ts) == building_error(ts.take(i)),
    decreases ts.len(),
{
    if i < ts.len() {
        assert(ts.drop_last().take(i) =~= ts.take(i));
        lemma_building_error_prefix(ts.drop_last(), i);
    } else {
        assert(ts.take(i) =~= ts);
    }
}

/// One step of the folds over the transactions made from `sp`, at `d`.
proof fn lemma_folds_step(
    sp: Seq<Transaction<ParsedPosting>>,
    accounts: List<Account>,
    commodities: List<Currency>,
    d: int,
    bals: Map<Seq<char>, Seq<MoneyV>>,
    skip: bool,
)
    requires
        0 <= d < sp.len(),
    ensures
        ({
            let pairs = built_pairs(sp, accounts, commodities);
            let o = balance_outcome(pairs[d].0, spec_total_balance(pairs[d].1), bals, skip);
            &&& balance_all(pairs.skip(d), bals, skip) == match o.0 {
                Err(e) => Err(e),
                Ok(_) => prepend(seq![o.1], balance_all(pairs.skip(d + 1), o.2, skip)),
            }
            &&& balance_prices(sp.skip(d), accounts, commodities, bals, skip) == match o.0 {
                Err(_) => Seq::<PriceV>::empty(),
                Ok(b) => match balance_price(b, tdate(sp[d])) {
                    Some(x) => seq![x] + balance_prices(sp.skip(d + 1), accounts, commodities, o.2, skip),
                    None => balance_prices(sp.skip(d + 1), accounts, commodities, o.2, skip),
                },
            }
            &&& balancing_ok(sp.skip(d), accounts, commodities, bals, skip) == ({
                &&& accounts_known(pairs[d].0, bals)
                &&& costs_have_commodity(pairs[d].0)
                &&& costs_have_commodity(pairs[d].1)
                &&& outcome_fits(pairs[d].0, pairs[d].1, bals, skip)
                &&& o.0 is Ok
                &&& price_computable(o.0->Ok_0)
                &&& balancing_ok(sp.skip(d + 1), accounts, commodities, o.2, skip)
            })
            &&& balancing_error(sp.skip(d), accounts, commodities, bals, skip) == if !accounts_known(pairs[d].0, bals) {
                Some(LedgerError::AliasNotInList(sp[d].description))
            } else if !costs_have_commodity(pairs[d].0) || !costs_have_commodity(pairs[d].1) {
                Some(LedgerError::TransactionIsNotBalanced)
            } else {
                match o.0 {
                    Err(e) => Some(e),
                    Ok(b) => if zero_price(b) {
                        Some(LedgerError::DivisionByZero)
                    } else {
                        balancing_error(sp.skip(d + 1), accounts, commodities, o.2, skip)
                    },
                }
            }
            &&& balancing_fits(sp.skip(d), accounts, commodities, bals, skip) == if !accounts_known(pairs[d].0, bals)
                || !costs_have_commodity(pairs[d].0) || !costs_have_commodity(pairs[d].1) {
                true
            } else {
                &&& outcome_fits(pairs[d].0, pairs[d].1, bals, skip)
                &&& match o.0 {
                    Err(_) => true,
                    Ok(b) => if zero_price(b) {
                        true
                    } else {
                        &&& (b.len() == 2 && money_abs(b[0]).0 is Some && money_abs(b[1]).0 is Some ==> div_fits(
                            money_abs(b[1]).1,
                            money_abs(b[0]).1,
                        ))
                        &&& balancing_fits(sp.skip(d + 1), accounts, commodities, o.2, skip)
                    },
                }
            }
        }),
{
    let pairs = built_pairs(sp, accounts, commodities);
    assert(pairs.skip(d).drop_first() =~= pairs.skip(d + 1));
    assert(pairs.skip(d)[0] == pairs[d]);
    assert(sp.skip(d).drop_first() =~= sp.skip(d + 1));
    assert(sp.skip(d)[0] == sp[d]);
    assert(pairs[d] == built_pair(sp[d], accounts, commodities));
}

/// A copy of an optional string.
fn copy_opt_string(s: &Option<String>) -> (res: Option<String>)
    ensures
        res == *s,
{
    match s {
        Some(x) => Some(x.clone()),
        None => None,
    }
}

impl ParsedLedger {
    /// Builds the ledger: the names used by postings and prices become
    /// accounts and commodities, prices (from `P` directives and from
    /// costs) are collected, real transactions are kept (automated and
    /// periodic ones are skipped), sorted by date (those of one date keep
    /// their order) and balanced one after the other against the running
    /// balances of the accounts; a transaction that balances to two
    /// commodities gives a price too. `no_checks` skips the balance
    /// assertions. It succeeds when every real transaction has a date, every
    /// cost gives a price and the transactions balance (see `ledger_ok`, over
    /// the lists that `lists_for` describes).
    #[verifier::rlimit(60)]
    pub fn to_ledger(self, no_checks: bool) -> (res: Result<Ledger, LedgerError>)
        requires
            self.wf(),
        ensures
            res matches Ok(l) ==> {
                &&& sorted_by_date(l.transactions@)
                &&& l.accounts.wf()
                &&& l.commodities.wf()
                &&& forall|i: int| 0 <= i < l.transactions@.len() ==> (#[trigger] l.transactions@[i]).transaction_type
                    == TransactionType::Real && l.transactions@[i].date is Some
                &&& forall|i: int| 0 <= i < l.transactions@.len() ==> balances_out(#[trigger] l.transactions@[i])
                &&& l.transactions@.len() == reals(self.transactions@).len()
                &&& forall|k: int| 0 <= k < l.transactions@.len() ==> made_but_postings(
                    #[trigger] l.transactions@[k],
                    sorted_spec(reals(self.transactions@))[k],
                    l.accounts,
                    l.commodities,
                )
                &&& balance_all(
                    built_pairs(sorted_spec(reals(self.transactions@)), l.accounts, l.commodities),
                    start_balances(l.accounts),
                    no_checks,
                ) == Ok::<Seq<Seq<PostingV>>, LedgerError>(real_postings(l.transactions@))
                &&& forall|i: int| 0 <= i < self.transactions@.len() && self.transactions@[i].transaction_type
                    == TransactionType::Real ==> (#[trigger] self.transactions@[i]).date is Some
                &&& forall|i: int, j: int|
                    0 <= i < self.transactions@.len() && self.transactions@[i].transaction_type == TransactionType::Real
                        && 0 <= j < self.transactions@[i].postings@.len() ==> !zero_total_cost(
                        #[trigger] self.transactions@[i].postings@[j],
                    )
                &&& forall|i: int, j: int|
                    0 <= i < self.transactions@.len() && 0 <= j < self.transactions@[i].postings@.len() ==> names_known(
                        #[trigger] self.transactions@[i].postings@[j],
                        l.accounts,
                        l.commodities,
                    )
                &&& lists_for(self.accounts, self.commodities, self.transactions@, self.prices@, l.accounts, l.commodities)
                &&& list_keeps(self.accounts, l.accounts)
                &&& list_keeps(self.commodities, l.commodities)
                &&& forall|k: Seq<char>| #[trigger]
                    l.accounts.items().contains_key(k) ==> self.accounts.items().contains_key(k) || exists|
                        name: Seq<char>,
                    | #[trigger] uses_account(self.transactions@, name) && lowercase(name) == k
                &&& forall|k: Seq<char>| #[trigger]
                    l.commodities.items().contains_key(k) ==> self.commodities.items().contains_key(k) || exists|
                        name: Seq<char>,
                    | #[trigger] uses_commodity(self.transactions@, self.prices@, name) && lowercase(name) == k
                &&& prices_view(l.prices@) == directive_prices(self.prices@, l.commodities) + cost_prices(
                    reals(self.transactions@),
                    l.commodities,
                ) + balance_prices(
                    sorted_spec(reals(self.transactions@)),
                    l.accounts,
                    l.commodities,
                    start_balances(l.accounts),
                    no_checks,
                )
            },
            res matches Err(e) ==> exists|a: List<Account>, c: List<Currency>|
                #[trigger] lists_for(self.accounts, self.commodities, self.transactions@, self.prices@, a, c)
                    && !ledger_ok(self.transactions@, a, c, no_checks) && (!(e is Overflow) ==> ledger_error(
                    self.transactions@,
                    a,
                    c,
                    no_checks,
                ) == Some(e)) && (e is Overflow ==> !ledger_fits(self.transactions@, a, c, no_checks)),
    {
        let ghost input = self.transactions@;
        let ghost accounts0 = self.accounts;
        let ghost commodities0 = self.commodities;
        let ghost prices0 = self.prices@;
        let mut parsed = self;
        // 1. The names of commodities and accounts in use.
        let (commodity_strs, account_strs) = used_names(&parsed.transactions, &parsed.prices);
        // 2. Unknown names become new commodities and accounts.
        add_commodities(&mut parsed.commodities, &commodity_strs);
        add_accounts(&mut parsed.accounts, &account_strs);
        proof {
            assert forall|i: int, j: int|
                0 <= i < input.len() && 0 <= j < input[i].postings@.len() implies names_known(
                #[trigger] input[i].postings@[j],
                parsed.accounts,
                parsed.commodities,
            ) by {
                let p = input[i].postings@[j];
                let a = choose|a: int| 0 <= a < str_views(account_strs@).len() && str_views(account_strs@)[a] == p.account@;
                assert(parsed.accounts.has_name(account_strs@[a]@));
                match p.money_currency {
                    Some(c) => {
                        let b = choose|b: int| 0 <= b < str_views(commodity_strs@).len() && str_views(commodity_strs@)[b] == c@;
                        assert(parsed.commodities.has_name(commodity_strs@[b]@));
                    },
                    None => {},
                }
                match p.cost_currency {
                    Some(c) => {
                        let b = choose|b: int| 0 <= b < str_views(commodity_strs@).len() && str_views(commodity_strs@)[b] == c@;
                        assert(parsed.commodities.has_name(commodity_strs@[b]@));
                    },
                    None => {},
                }
                match p.balance_currency {
                    Some(c) => {
                        let b = choose|b: int| 0 <= b < str_views(commodity_strs@).len() && str_views(commodity_strs@)[b] == c@;
                        assert(parsed.commodities.has_name(commodity_strs@[b]@));
                    },
                    None => {},
                }
            }
            assert forall|k: Seq<char>| #[trigger] parsed.accounts.items().contains_key(k) implies accounts0.items().contains_key(k)
                || exists|name: Seq<char>| #[trigger] uses_account(input, name) && lowercase(name) == k by {
                if !accounts0.items().contains_key(k) {
                    let j = choose|j: int| 0 <= j < account_strs@.len() && lowercase((#[trigger] account_strs@[j])@) == k;
                    assert(uses_account(input, account_strs@[j]@));
                }
            }
            assert forall|k: Seq<char>| #[trigger] parsed.commodities.items().contains_key(k) implies commodities0.items().contains_key(k)
                || exists|name: Seq<char>| #[trigger] uses_commodity(input, prices0, name) && lowercase(name) == k by {
                if !commodities0.items().contains_key(k) {
                    let j = choose|j: int| 0 <= j < commodity_strs@.len() && lowercase((#[trigger] commodity_strs@[j])@) == k;
                    assert(uses_commodity(input, prices0, commodity_strs@[j]@));
                }
            }
        }
        proof {
            assert forall|k: int| 0 <= k < parsed.prices@.len() implies parsed.commodities.has_name(
                (#[trigger] parsed.prices@[k]).commodity@,
            ) && parsed.commodities.has_name(parsed.prices@[k].other_commodity@) by {
                let a = choose|a: int| 0 <= a < str_views(commodity_strs@).len() && str_views(commodity_strs@)[a]
                    == parsed.prices@[k].commodity@;
                assert(parsed.commodities.has_name(commodity_strs@[a]@));
                let b = choose|b: int| 0 <= b < str_views(commodity_strs@).len() && str_views(commodity_strs@)[b]
                    == parsed.prices@[k].other_commodity@;
                assert(parsed.commodities.has_name(commodity_strs@[b]@));
            }
        }
        assert(lists_for(accounts0, commodities0, input, prices0, parsed.accounts, parsed.commodities));
        // 3. Prices from price directives.
        let mut prices: Vec<Price> = Vec::new();
        let npr = parsed.prices.len();
        for i in 0..npr
            invariant
                npr == parsed.prices@.len(),
                parsed.wf(),
                prices@.len() == i,
                forall|k: int| 0 <= k < npr ==> parsed.commodities.has_name((#[trigger] parsed.prices@[k]).commodity@)
                    && parsed.commodities.has_name(parsed.prices@[k].other_commodity@),
                prices_view(prices@) == directive_prices(parsed.prices@.take(i as int), parsed.commodities),
        {
            let pr = &parsed.prices[i];
            let commodity = rc_clone(parsed.commodities.get(pr.commodity.as_str()).unwrap());
            let other = rc_clone(parsed.commodities.get(pr.other_commodity.as_str()).unwrap());
            let ghost pv0 = prices_view(prices@);
            prices.push(Price { date: pr.date, commodity, price: Money::from((other, pr.other_quantity)) });
            proof {
                assert(parsed.prices@.take(i + 1) =~= parsed.prices@.take(i as int).push(parsed.prices@[i as int]));
                assert(prices_view(prices@) =~= pv0.push(directive_price(parsed.prices@[i as int], parsed.commodities)));
                assert(directive_prices(parsed.prices@.take(i + 1), parsed.commodities) =~= directive_prices(
                    parsed.prices@.take(i as int),
                    parsed.commodities,
                ).push(directive_price(parsed.prices@[i as int], parsed.commodities)));
            }
        }
        let ghost p3 = prices_view(prices@);
        assert(parsed.prices@.take(npr as int) =~= parsed.prices@);
        // 4. Transactions with postings tied to accounts and commodities.
        let mut transactions: Vec<Transaction<Posting>> = Vec::new();
        let nt = parsed.transactions.len();
        for i in 0..nt
            invariant
                nt == parsed.transactions@.len(),
                parsed.wf(),
                lists_for(accounts0, commodities0, input, prices0, parsed.accounts, parsed.commodities),
                accounts0 == self.accounts,
                commodities0 == self.commodities,
                input == self.transactions@,
                prices0 == self.prices@,
                building_error(input.take(i as int)) is None,
                forall|k: int| 0 <= k < transactions@.len() ==> (#[trigger] transactions@[k]).date is Some
                    && transactions@[k].transaction_type == TransactionType::Real && postings_valid(transactions@[k]),
                parsed.transactions@ == input,
                transactions@.len() == reals(input.take(i as int)).len(),
                forall|k: int| 0 <= k < transactions@.len() ==> made_from(
                    #[trigger] transactions@[k],
                    reals(input.take(i as int))[k],
                    parsed.accounts,
                    parsed.commodities,
                ),
                prices_view(prices@) == p3 + cost_prices(reals(input.take(i as int)), parsed.commodities),
                forall|k: int| 0 <= k < i && input[k].transaction_type == TransactionType::Real ==> (#[trigger] input[k]).date is Some,
                forall|k: int, j: int|
                    0 <= k < i && input[k].transaction_type == TransactionType::Real && 0 <= j < input[k].postings@.len()
                        ==> !zero_total_cost(#[trigger] input[k].postings@[j]),
        {
            proof {
                assert(input.take(i + 1).drop_last() =~= input.take(i as int));
            }
            let parsed_t = &parsed.transactions[i];
            match parsed_t.transaction_type {
                TransactionType::Real => {
                    let date = match parsed_t.date {
                        Some(d) => d,
                        None => {
                            proof {
                                assert(input[i as int].date is None);
                                assert(!ledger_ok(input, parsed.accounts, parsed.commodities, no_checks));
                                assert(building_error(input.take(i + 1)) == Some(LedgerError::TransactionIsNotBalanced));
                                lemma_building_error_prefix(input, i + 1);
                            }
                            return Err(LedgerError::TransactionIsNotBalanced);
                        },
                    };
                    let mut transaction: Transaction<Posting> = Transaction::new(TransactionType::Real);
                    transaction.description = parsed_t.description.clone();
                    transaction.code = copy_opt_string(&parsed_t.code);
                    transaction.note = copy_opt_string(&parsed_t.note);
                    transaction.date = Some(date);
                    transaction.effective_date = parsed_t.effective_date;
                    let np = parsed_t.postings.len();
                    for j in 0..np
                        invariant
                            np == parsed_t.postings@.len(),
                            parsed.wf(),
                            lists_for(accounts0, commodities0, input, prices0, parsed.accounts, parsed.commodities),
                            accounts0 == self.accounts,
                            commodities0 == self.commodities,
                            input == self.transactions@,
                            prices0 == self.prices@,
                            0 <= i < input.len(),
                            input[i as int].transaction_type == TransactionType::Real,
                            input[i as int].date is Some,
                            input.take(i + 1).drop_last() == input.take(i as int),
                            building_error(input.take(i as int)) is None,
                            posting_error(parsed_t.postings@.take(j as int)) is None,
                            transaction.date == Some(date),
                            transaction.transaction_type == TransactionType::Real,
                            built_from(transaction, input[i as int]),
                            transaction.status == TransactionStatus::NotChecked,
                            parsed_t == input[i as int],
                            forall|k: int, b: int|
                                0 <= k < i && input[k].transaction_type == TransactionType::Real && 0 <= b
                                    < input[k].postings@.len() ==> !zero_total_cost(#[trigger] input[k].postings@[b]),
                            forall|b: int| 0 <= b < j ==> !zero_total_cost(#[trigger] parsed_t.postings@[b]),
                            postings_view(transaction.postings@) == built_postings(
                                parsed_t.postings@.take(j as int),
                                PostingType::Real,
                                parsed.accounts,
                                parsed.commodities,
                            ),
                            postings_view(transaction.virtual_postings@) == built_postings(
                                parsed_t.postings@.take(j as int),
                                PostingType::Virtual,
                                parsed.accounts,
                                parsed.commodities,
                            ),
                            postings_view(transaction.virtual_postings_balance@) == built_postings(
                                parsed_t.postings@.take(j as int),
                                PostingType::VirtualMustBalance,
                                parsed.accounts,
                                parsed.commodities,
                            ),
                            postings_valid(transaction),
                            prices_view(prices@) == p3 + cost_prices(reals(input.take(i as int)), parsed.commodities)
                                + posting_cost_prices(parsed_t.postings@.take(j as int), date, parsed.commodities),
                    {
                        let p = &parsed_t.postings[j];
                        assert(names_known(input[i as int].postings@[j as int], parsed.accounts, parsed.commodities));
                        let account = rc_clone(parsed.accounts.get(p.account.as_str())?);
                        let mut posting = Posting::new(&account, p.kind);
                        match (&p.money_currency, &p.money_amount) {
                            (Some(c), Some(a)) => {
                                let cur = rc_clone(parsed.commodities.get(c.as_str())?);
                                proof {
                                    use_type_invariant(a);
                                    a.lemma_wf_view();
                                }
                                posting.amount = Some(Money::from((cur, *a)));
                            },
                            _ => {},
                        }
                        let ghost pv_before = prices_view(prices@);
                        match (&p.cost_currency, &p.cost_amount, &p.cost_type, &p.money_currency, &posting.amount) {
                            (Some(c), Some(a), Some(kind), Some(mc), Some(posting_amount)) => {
                                let posting_currency = rc_clone(parsed.commodities.get(mc.as_str())?);
                                let cur = rc_clone(parsed.commodities.get(c.as_str())?);
                                let unit = match kind {
                                    PriceType::Total => match a.checked_div(&posting_amount.get_amount()) {
                                        Some(u) => u,
                                        None => {
                                            proof {
                                                assert(!cost_computable(input[i as int].postings@[j as int]));
                                                assert(!ledger_ok(input, parsed.accounts, parsed.commodities, no_checks));
                                            }
                                            if posting_amount.get_amount().is_zero() {
                                                proof {
                                                    let ps = parsed_t.postings@;
                                                    assert(zero_total_cost(ps[j as int]));
                                                    assert(ps.take(j + 1).drop_last() =~= ps.take(j as int));
                                                    assert(posting_error(ps.take(j + 1)) == Some(LedgerError::DivisionByZero));
                                                    lemma_posting_error_prefix(ps, j + 1);
                                                    assert(building_error(input.take(i + 1)) == Some(LedgerError::DivisionByZero));
                                                    lemma_building_error_prefix(input, i + 1);
                                                }
                                                return Err(LedgerError::DivisionByZero);
                                            }
                                            return Err(LedgerError::Overflow);
                                        },
                                    },
                                    PriceType::PerUnit => *a,
                                };
                                prices.push(Price {
                                    date,
                                    commodity: posting_currency,
                                    price: Money::from((rc_clone(&cur), unit)),
                                });
                                assert(prices_view(prices@) =~= pv_before.push(cost_price(*p, date, parsed.commodities)->Some_0));
                                proof {
                                    use_type_invariant(a);
                                    a.lemma_wf_view();
                                }
                                let amount = Money::from((cur, *a));
                                posting.cost = match kind {
                                    PriceType::Total => Some(Cost::Total { amount }),
                                    PriceType::PerUnit => Some(Cost::PerUnit { amount }),
                                };
                            },
                            _ => {
                                assert(cost_price(*p, date, parsed.commodities) is None);
                            },
                        }
                        match (&p.balance_currency, &p.balance_amount) {
                            (Some(c), Some(a)) => {
                                let cur = rc_clone(parsed.commodities.get(c.as_str())?);
                                proof {
                                    use_type_invariant(a);
                                    a.lemma_wf_view();
                                }
                                posting.balance = Some(Money::from((cur, *a)));
                            },
                            _ => {},
                        }
                        assert(posting_ok(posting@));
                        assert(posting@.1 is None && posting@.2 is Some ==> posting@.3 is None);
                        let ghost before = transaction.postings@;
                        let ghost vbefore = transaction.virtual_postings@;
                        let ghost bbefore = transaction.virtual_postings_balance@;
                        let ghost pv = posting@;
                        assert(pv == built_posting(parsed_t.postings@[j as int], parsed.accounts, parsed.commodities));
                        assert(parsed_t.postings@.take(j + 1).drop_last() =~= parsed_t.postings@.take(j as int));
                        match posting.kind {
                            PostingType::Real => {
                                transaction.postings.push(posting);
                                assert(postings_view(transaction.postings@) =~= postings_view(before).push(pv));
                            },
                            PostingType::Virtual => {
                                transaction.virtual_postings.push(posting);
                                assert(postings_view(transaction.virtual_postings@) =~= postings_view(vbefore).push(pv));
                            },
                            PostingType::VirtualMustBalance => {
                                transaction.virtual_postings_balance.push(posting);
                                assert(postings_view(transaction.virtual_postings_balance@) =~= postings_view(bbefore).push(
                                    pv,
                                ));
                            },
                        }
                    }
                    assert(parsed_t.postings@.take(np as int) =~= parsed_t.postings@);
                    if costs_have_commodity_exec(&transaction.postings) {
                        match transaction.is_balanced() {
                            Some(true) => {
                                transaction.status = TransactionStatus::InternallyBalanced;
                            },
                            _ => {},
                        }
                    }
                    transactions.push(transaction);
                    proof {
                        let cp = cost_prices(reals(input.take(i as int)), parsed.commodities);
                        let pcp = posting_cost_prices(parsed_t.postings@, date, parsed.commodities);
                        assert(reals(input.take(i + 1)) == reals(input.take(i as int)).push(input[i as int]));
                        let r = reals(input.take(i as int)).push(input[i as int]);
                        assert(r.drop_last() =~= reals(input.take(i as int)));
                        assert(tdate(r.last()) == date);
                        assert(cost_prices(reals(input.take(i + 1)), parsed.commodities) == cp + pcp);
                        assert(p3 + cp + pcp =~= p3 + (cp + pcp));
                        assert(input.take(i + 1).last() == input[i as int]);
                        assert(building_error(input.take(i + 1)) is None);
                    }
                },
                _ => {
                    assert(reals(input.take(i + 1)) == reals(input.take(i as int)));
                    assert(input.take(i + 1).last() == input[i as int]);
                    assert(building_error(input.take(i + 1)) is None);
                },
            }
        }
        // 5. Date order.
        assert(input.take(nt as int) =~= input);
        let ghost tg = transactions@;
        let mut sorted = sort_by_date(transactions);
        proof {
            vstd::seq_lib::to_multiset_len(sorted@);
            vstd::seq_lib::to_multiset_len(tg);
        }
        proof {
            assert forall|k: int| 0 <= k < sorted@.len() implies (#[trigger] sorted@[k]).transaction_type == TransactionType::Real
                && sorted@[k].date is Some by {
                vstd::seq_lib::to_multiset_contains(sorted@, sorted@[k]);
                vstd::seq_lib::to_multiset_contains(tg, sorted@[k]);
                assert(sorted@.contains(sorted@[k]));
                assert(tg.contains(sorted@[k]));
                let w = choose|w: int| 0 <= w < tg.len() && tg[w] == sorted@[k];
                assert(tg[w].transaction_type == TransactionType::Real);
                assert(tg[w].date is Some);
            }
            assert forall|k: int| 0 <= k < sorted@.len() implies postings_valid(#[trigger] sorted@[k]) by {
                vstd::seq_lib::to_multiset_contains(sorted@, sorted@[k]);
                vstd::seq_lib::to_multiset_contains(tg, sorted@[k]);
                assert(sorted@.contains(sorted@[k]));
                assert(tg.contains(sorted@[k]));
                let w = choose|w: int| 0 <= w < tg.len() && tg[w] == sorted@[k];
                assert(postings_valid(tg[w]));
            }
        }
        proof {
            lemma_sorted_alike(
                tg,
                reals(input),
                |b: Transaction<Posting>, a: Transaction<ParsedPosting>| made_from(b, a, parsed.accounts, parsed.commodities),
            );
        }
        // 6. Running balances, starting at zero for every account.
        let mut balances = AccountBalances::new();
        let values = parsed.accounts.values();
        let nv = values.len();
        assert(balances_ok(balances.as_map()));
        for i in 0..nv
            invariant
                nv == values@.len(),
                balances.wf(),
                balances_ok(balances.as_map()),
                forall|k: Seq<char>| #[trigger]
                    balances.as_map().contains_key(k) <==> exists|j: int| 0 <= j < i && (#[trigger] values@[j]).name@ == k,
                forall|k: Seq<char>| #[trigger] balances.as_map().contains_key(k) ==> balances.as_map()[k] == Seq::<MoneyV>::empty(),
        {
            let ghost before = balances.as_map();
            let acc = rc_clone(&values[i]);
            let ghost name = acc.name@;
            balances.insert(acc, Balance::new());
            assert forall|k: Seq<char>| #[trigger] balances.as_map().contains_key(k) implies crate::laws::bal_ok(balances.as_map()[k]) by {
                if k != name {
                    assert(before.contains_key(k));
                }
            }
            assert forall|k: Seq<char>| #[trigger] balances.as_map().contains_key(k) <==> exists|j: int|
                0 <= j < i + 1 && (#[trigger] values@[j]).name@ == k by {
                if k == name {
                    assert(values@[i as int].name@ == k);
                } else if exists|j: int| 0 <= j < i + 1 && (#[trigger] values@[j]).name@ == k {
                    let j = choose|j: int| 0 <= j < i + 1 && (#[trigger] values@[j]).name@ == k;
                    assert(j < i);
                    assert(before.contains_key(k));
                }
            }
        }
        proof {
            assert(balances.as_map() =~= start_balances(parsed.accounts)) by {
                assert forall|k: Seq<char>| #[trigger] balances.as_map().contains_key(k) <==> start_balances(
                    parsed.accounts,
                ).contains_key(k) by {
                    if balances.as_map().contains_key(k) {
                        let j = choose|j: int| 0 <= j < nv && (#[trigger] values@[j]).name@ == k;
                        assert(parsed.accounts.item_at(j).name@ == k);
                    }
                    if start_balances(parsed.accounts).contains_key(k) {
                        let j = choose|j: int| 0 <= j < parsed.accounts.keys().len() && (#[trigger] parsed.accounts.item_at(j)).name@ == k;
                        assert(values@[j].name@ == k);
                    }
                }
            }
        }
        // 7. Balance the transactions in date order.
        let mut done: Vec<Transaction<Posting>> = Vec::new();
        let ghost total = sorted@.len();
        let ghost sp = sorted_spec(reals(input));
        let ghost pairs = built_pairs(sp, parsed.accounts, parsed.commodities);
        let ghost b0 = balances.as_map();
        proof {
            assert(pairs.skip(0) =~= pairs);
            assert(sp.skip(0) =~= sp);
            assert(real_postings(done@) =~= Seq::<Seq<PostingV>>::empty());
            match balance_all(pairs, b0, no_checks) {
                Ok(rest) => {
                    assert(real_postings(done@) + rest =~= rest);
                },
                Err(_) => {},
            }
            assert forall|k: int| 0 <= k < sorted@.len() implies (
                postings_view((#[trigger] sorted@[k]).postings@),
                postings_view(sorted@[k].virtual_postings_balance@),
            ) == pairs[k] by {
                assert(made_from(sorted@[k], sp[k], parsed.accounts, parsed.commodities));
            }
        }
        while sorted.len() > 0
            invariant
                balances.wf(),
                sorted_by_date(done@ + sorted@),
                forall|k: int| 0 <= k < done@.len() ==> (#[trigger] done@[k]).transaction_type == TransactionType::Real
                    && done@[k].date is Some,
                forall|k: int| 0 <= k < sorted@.len() ==> (#[trigger] sorted@[k]).transaction_type == TransactionType::Real
                    && sorted@[k].date is Some,
                forall|k: int| 0 <= k < sorted@.len() ==> postings_valid(#[trigger] sorted@[k]),
                forall|k: int| 0 <= k < done@.len() ==> balances_out(#[trigger] done@[k]),
                balances_ok(balances.as_map()),
                (done@ + sorted@).len() == sorted_spec(reals(input)).len(),
                lists_for(accounts0, commodities0, input, prices0, parsed.accounts, parsed.commodities),
                accounts0 == self.accounts,
                commodities0 == self.commodities,
                input == self.transactions@,
                prices0 == self.prices@,
                b0 == start_balances(parsed.accounts),
                building_error(input) is None,
                balancing_fits(sp, parsed.accounts, parsed.commodities, b0, no_checks) ==> balancing_fits(
                    sp.skip(done@.len() as int),
                    parsed.accounts,
                    parsed.commodities,
                    balances.as_map(),
                    no_checks,
                ),
                balancing_error(sp, parsed.accounts, parsed.commodities, b0, no_checks) == balancing_error(
                    sp.skip(done@.len() as int),
                    parsed.accounts,
                    parsed.commodities,
                    balances.as_map(),
                    no_checks,
                ),
                balancing_ok(sp, parsed.accounts, parsed.commodities, b0, no_checks) ==> balancing_ok(
                    sp.skip(done@.len() as int),
                    parsed.accounts,
                    parsed.commodities,
                    balances.as_map(),
                    no_checks,
                ),
                sp == sorted_spec(reals(input)),
                pairs == built_pairs(sp, parsed.accounts, parsed.commodities),
                pairs.len() == sp.len(),
                forall|k: int| 0 <= k < sp.len() ==> made_but_postings(
                    #[trigger] (done@ + sorted@)[k],
                    sp[k],
                    parsed.accounts,
                    parsed.commodities,
                ),
                forall|k: int| 0 <= k < sorted@.len() ==> (
                    postings_view((#[trigger] sorted@[k]).postings@),
                    postings_view(sorted@[k].virtual_postings_balance@),
                ) == pairs[done@.len() + k],
                balance_all(pairs, b0, no_checks) == prepend(
                    real_postings(done@),
                    balance_all(pairs.skip(done@.len() as int), balances.as_map(), no_checks),
                ),
                prices_view(prices@) + balance_prices(
                    sp.skip(done@.len() as int),
                    parsed.accounts,
                    parsed.commodities,
                    balances.as_map(),
                    no_checks,
                ) == p3 + cost_prices(reals(input), parsed.commodities) + balance_prices(
                    sp,
                    parsed.accounts,
                    parsed.commodities,
                    b0,
                    no_checks,
                ),
            decreases sorted@.len(),
        {
            let ghost before = done@ + sorted@;
            let ghost sorted0 = sorted@;
            let mut t = sorted.remove(0);
            proof {
                let d = done@.len() as int;
                lemma_folds_step(sp, parsed.accounts, parsed.commodities, d, balances.as_map(), no_checks);
                assert(sorted0[0] == t);
                assert(pairs[d] == (postings_view(t.postings@), postings_view(t.virtual_postings_balance@)));
                assert(before[d] == t);
                assert(made_but_postings(before[d], sp[d], parsed.accounts, parsed.commodities));
            }
            if !accounts_known_exec(&t.postings, &balances) {
                assert(!ledger_ok(input, parsed.accounts, parsed.commodities, no_checks));
                return Err(LedgerError::AliasNotInList(t.description.clone()));
            }
            if !costs_have_commodity_exec(&t.postings) || !costs_have_commodity_exec(&t.virtual_postings_balance) {
                assert(!ledger_ok(input, parsed.accounts, parsed.commodities, no_checks));
                return Err(LedgerError::TransactionIsNotBalanced);
            }
            let ghost t0 = t;
            let ghost bals0 = balances.as_map();
            assert(postings_valid(t0));
            let balance = match t.balance(&mut balances, no_checks) {
                Ok(b) => b,
                Err(e) => {
                    assert(!ledger_ok(input, parsed.accounts, parsed.commodities, no_checks));
                    return Err(e);
                },
            };
            proof {
                let ps0 = postings_view(t0.postings@);
                let vb0 = spec_total_balance(postings_view(t0.virtual_postings_balance@));
                law_balanced_transaction_balances(ps0, vb0, bals0, no_checks);
                lemma_balance_outcome_ok(ps0, vb0, bals0, no_checks);
                assert(balances_out(t));
            }
            let ghost pv7 = prices_view(prices@);
            proof {
                assert(made_but_postings(before[done@.len() as int], sp[done@.len() as int], parsed.accounts, parsed.commodities));
                assert(t.date == sp[done@.len() as int].date);
            }
            if balance.len() == 2 {
                let m0 = balance.balance[0].abs();
                let m1 = balance.balance[1].abs();
                assert(balance.balance@[0]@ == balance@[0] && balance.balance@[1]@ == balance@[1]);
                match (m0.get_commodity(), m1.get_commodity(), t.date) {
                    (Some(c0), Some(c1), Some(date)) => {
                        let amount = match m1.get_amount().checked_div(&m0.get_amount()) {
                            Some(a) => a,
                            None => {
                                proof {
                                    assert(!price_computable(balance@));
                                    assert(!ledger_ok(input, parsed.accounts, parsed.commodities, no_checks));
                                }
                                if m0.get_amount().is_zero() {
                                    return Err(LedgerError::DivisionByZero);
                                }
                                return Err(LedgerError::Overflow);
                            },
                        };
                        prices.push(Price { date, commodity: c0, price: Money::from((c1, amount)) });
                        assert(prices_view(prices@) =~= pv7.push(
                            balance_price(balance@, tdate(sp[done@.len() as int]))->Some_0,
                        ));
                    },
                    _ => {
                        assert(balance_price(balance@, tdate(sp[done@.len() as int])) is None);
                    },
                }
            } else {
                assert(balance_price(balance@, tdate(sp[done@.len() as int])) is None);
            }
            let ghost d0 = done@;
            let ghost tb = t;
            done.push(t);
            assert(done@[d0.len() as int] == tb);
            proof {
                let d = d0.len() as int;
                let ps0 = postings_view(t0.postings@);
                let vb = postings_view(t0.virtual_postings_balance@);
                assert(sorted0[0] == t0);
                assert(pairs[d] == (ps0, vb));
                let o = balance_outcome(ps0, spec_total_balance(vb), bals0, no_checks);
                assert(pairs.skip(d).drop_first() =~= pairs.skip(d + 1));
                assert(pairs.skip(d)[0] == pairs[d]);
                assert(balance_all(pairs.skip(d), bals0, no_checks) == prepend(
                    seq![o.1],
                    balance_all(pairs.skip(d + 1), o.2, no_checks),
                ));
                assert(real_postings(done@) =~= real_postings(d0).push(o.1));
                match balance_all(pairs.skip(d + 1), o.2, no_checks) {
                    Ok(rest) => {
                        assert(real_postings(d0) + (seq![o.1] + rest) =~= real_postings(done@) + rest);
                    },
                    Err(_) => {},
                }
                assert forall|k: int| 0 <= k < sorted@.len() implies (
                    postings_view((#[trigger] sorted@[k]).postings@),
                    postings_view(sorted@[k].virtual_postings_balance@),
                ) == pairs[done@.len() + k] by {
                    assert(sorted@[k] == sorted0[k + 1]);
                }
                lemma_folds_step(sp, parsed.accounts, parsed.commodities, d, bals0, no_checks);
                let rest = balance_prices(sp.skip(d + 1), parsed.accounts, parsed.commodities, o.2, no_checks);
                match balance_price(o.0->Ok_0, tdate(sp[d])) {
                    Some(x) => {
                        assert(pv7.push(x) + rest =~= pv7 + (seq![x] + rest));
                    },
                    None => {},
                }
            }
            proof {
                assert(t.date == t0.date);
                assert(done@ + sorted@ =~= before.update(d0.len() as int, t));
                assert(before[d0.len() as int] == t0);
                assert(sorted_by_date(done@ + sorted@)) by {
                    let s = done@ + sorted@;
                    assert forall|i: int, j: int| 0 <= i < j < s.len() implies date_le(tdate(s[i]), tdate(s[j])) by {
                        assert(tdate(s[i]) == tdate(before[i]));
                        assert(tdate(s[j]) == tdate(before[j]));
                    }
                }
            }
        }
        assert(done@ + sorted@ =~= done@);
        proof {
            assert(pairs.skip(done@.len() as int) =~= Seq::<(Seq<PostingV>, Seq<PostingV>)>::empty());
            assert(real_postings(done@) + Seq::<Seq<PostingV>>::empty() =~= real_postings(done@));
        }
        Ok(Ledger { accounts: parsed.accounts, commodities: parsed.commodities, transactions: done, prices })
    }
}

} // verus!
