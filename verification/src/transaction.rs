//! Transactions, postings and how a transaction is balanced.
use vstd::prelude::*;
use std::rc::Rc;
use crate::date::Date;
use crate::error::LedgerError;
use crate::models::{Account, Comment};
use crate::money::{
    fold_fits, insert_fits,
    Balance, Money, MoneyV, bal_can_be_zero, bal_eq, bal_fold, bal_insert, bal_neg, keys_distinct,
    money_is_negative, money_neg, nonzero,
    rc_clone,
};
use crate::rational::{Rational, mul_fits, rat_mul};

verus! {

#[derive(Debug, Copy, Clone, PartialEq, Eq, Structural)]
pub enum TransactionStatus {
    NotChecked,
    InternallyBalanced,
    Correct,
}

#[derive(Debug, Copy, Clone, PartialEq, Eq, Structural)]
pub enum TransactionType {
    Real,
    Automated,
    Periodic,
}

#[derive(Debug, Copy, Clone, PartialEq, Eq, Structural)]
pub enum Cleared {
    Unknown,
    NotCleared,
    Cleared,
}

/// Real postings, `(virtual)` postings and `[virtual]` postings that must balance.
#[derive(Debug, Copy, Clone, PartialEq, Eq, Structural)]
pub enum PostingType {
    Real,
    Virtual,
    VirtualMustBalance,
}

/// Whether a price (`@` or `@@`) is given per unit or for the total.
#[derive(Debug, Copy, Clone, PartialEq, Eq, Structural)]
pub enum PriceType {
    Total,
    PerUnit,
}

/// The cost of a posting, as written after `@@` (total) or `@` (per unit).
#[derive(Debug)]
pub enum Cost {
    Total { amount: Money },
    PerUnit { amount: Money },
}

/// A cost as its kind and its money.
pub type CostV = (PriceType, MoneyV);

impl Cost {
    pub open spec fn view(&self) -> CostV {
        match self {
            Cost::Total { amount } => (PriceType::Total, amount@),
            Cost::PerUnit { amount } => (PriceType::PerUnit, amount@),
        }
    }

    pub fn copy(&self) -> (res: Cost)
        ensures
            res@ == self@,
    {
        match self {
            Cost::Total { amount } => Cost::Total { amount: amount.copy() },
            Cost::PerUnit { amount } => Cost::PerUnit { amount: amount.copy() },
        }
    }
}

/// A posting of a balanced ledger.
#[derive(Debug)]
pub struct Posting {
    pub account: Rc<Account>,
    pub amount: Option<Money>,
    pub balance: Option<Money>,
    pub cost: Option<Cost>,
    pub kind: PostingType,
}

/// A posting as its account, amount, balance assertion, cost and kind.
pub type PostingV = (Rc<Account>, Option<MoneyV>, Option<MoneyV>, Option<CostV>, PostingType);

pub open spec fn opt_money(m: Option<Money>) -> Option<MoneyV> {
    match m {
        Some(x) => Some(x@),
        None => None,
    }
}

pub open spec fn opt_cost(c: Option<Cost>) -> Option<CostV> {
    match c {
        Some(x) => Some(x@),
        None => None,
    }
}

fn copy_money(m: &Option<Money>) -> (res: Option<Money>)
    ensures
        opt_money(res) == opt_money(*m),
{
    match m {
        Some(x) => Some(x.copy()),
        None => None,
    }
}

fn copy_cost(c: &Option<Cost>) -> (res: Option<Cost>)
    ensures
        opt_cost(res) == opt_cost(*c),
{
    match c {
        Some(x) => Some(x.copy()),
        None => None,
    }
}

impl Posting {
    pub open spec fn view(&self) -> PostingV {
        (self.account, opt_money(self.amount), opt_money(self.balance), opt_cost(self.cost), self.kind)
    }

    /// A posting to `account` with no amount yet.
    pub fn new(account: &Rc<Account>, kind: PostingType) -> (res: Posting)
        ensures
            res@ == (*account, None::<MoneyV>, None::<MoneyV>, None::<CostV>, kind),
    {
        Posting { account: rc_clone(account), amount: None, balance: None, cost: None, kind }
    }

    pub fn set_amount(&mut self, money: Money)
        ensures
            final(self)@ == (old(self)@.0, Some(money@), old(self)@.2, old(self)@.3, old(self)@.4),
    {
        self.amount = Some(money)
    }

    pub fn copy(&self) -> (res: Posting)
        ensures
            res@ == self@,
    {
        Posting {
            account: rc_clone(&self.account),
            amount: copy_money(&self.amount),
            balance: copy_money(&self.balance),
            cost: copy_cost(&self.cost),
            kind: self.kind,
        }
    }
}

pub open spec fn postings_view(v: Seq<Posting>) -> Seq<PostingV> {
    v.map_values(|p: Posting| p@)
}

/// A journal entry: a date, a description and postings.
#[derive(Debug)]
pub struct Transaction<P> {
    pub status: TransactionStatus,
    pub date: Option<Date>,
    pub effective_date: Option<Date>,
    pub cleared: Cleared,
    pub code: Option<String>,
    pub description: String,
    pub note: Option<String>,
    pub postings: Vec<P>,
    pub virtual_postings: Vec<P>,
    pub virtual_postings_balance: Vec<P>,
    pub comments: Vec<Comment>,
    pub transaction_type: TransactionType,
}

impl<P> Transaction<P> {
    /// An empty transaction of the given type.
    pub fn new(t_type: TransactionType) -> (res: Transaction<P>)
        ensures
            res.status == TransactionStatus::NotChecked,
            res.date is None,
            res.effective_date is None,
            res.cleared == Cleared::Unknown,
            res.code is None,
            res.description@ == Seq::<char>::empty(),
            res.note is None,
            res.postings@.len() == 0,
            res.virtual_postings@.len() == 0,
            res.virtual_postings_balance@.len() == 0,
            res.comments@.len() == 0,
            res.transaction_type == t_type,
    {
        Transaction {
            status: TransactionStatus::NotChecked,
            date: None,
            effective_date: None,
            cleared: Cleared::Unknown,
            code: None,
            description: String::new(),
            note: None,
            postings: Vec::new(),
            virtual_postings: Vec::new(),
            virtual_postings_balance: Vec::new(),
            comments: Vec::new(),
            transaction_type: t_type,
        }
    }
}

/// What a posting with an amount adds to `total_balance`: its amount, or
/// its cost (negated for a negative amount; per unit costs are multiplied by
/// the amount and by its sign).
pub open spec fn total_contribution(p: PostingV) -> MoneyV {
    let a = p.1.unwrap();
    match p.3 {
        None => a,
        Some(c) => if c.0 == PriceType::Total {
            if money_is_negative(a) {
                money_neg(c.1)
            } else {
                c.1
            }
        } else {
            (c.1.0, rat_mul(rat_mul(c.1.1, a.1), if money_is_negative(a) {
                (-1int, 1int)
            } else {
                (1int, 1int)
            }))
        },
    }
}

/// Per unit costs need a commodity (a cost of `Zero` has none).
pub open spec fn costs_have_commodity(ps: Seq<PostingV>) -> bool {
    forall|i: int|
        0 <= i < ps.len() ==> ((#[trigger] ps[i]).1 is Some ==> (ps[i].3 matches Some(c) ==> (c.0
            == PriceType::PerUnit ==> c.1.0 is Some)))
}

/// The contributions of the postings that have an amount.
pub open spec fn total_contributions(ps: Seq<PostingV>) -> Seq<MoneyV>
    decreases ps.len(),
{
    if ps.len() == 0 {
        seq![]
    } else if ps.last().1 is Some {
        total_contributions(ps.drop_last()).push(total_contribution(ps.last()))
    } else {
        total_contributions(ps.drop_last())
    }
}

/// The balance of a group of postings.
pub open spec fn spec_total_balance(ps: Seq<PostingV>) -> Seq<MoneyV> {
    bal_fold(seq![], total_contributions(ps))
}

/// Computing the contribution of a posting with an amount does not
/// overflow: for a per unit cost, both products are computed in `i64`.
pub open spec fn contribution_fits(p: PostingV) -> bool {
    match p.3 {
        Some(c) => c.0 == PriceType::PerUnit ==> {
            let a = p.1.unwrap();
            let u = rat_mul(c.1.1, a.1);
            &&& mul_fits(c.1.1, a.1)
            &&& mul_fits(u, if money_is_negative(a) {
                (-1int, 1int)
            } else {
                (1int, 1int)
            })
        },
        None => true,
    }
}

/// Every step of `spec_total_balance(ps)` does not overflow.
pub open spec fn total_fits(ps: Seq<PostingV>) -> bool
    decreases ps.len(),
{
    if ps.len() == 0 {
        true
    } else {
        &&& total_fits(ps.drop_last())
        &&& ps.last().1 is Some ==> contribution_fits(ps.last()) && insert_fits(
            spec_total_balance(ps.drop_last()),
            total_contribution(ps.last()),
        )
    }
}

/// The steps of a prefix fit when all steps do.
pub proof fn lemma_total_fits_prefix(ps: Seq<PostingV>, i: int)
    requires
        total_fits(ps),
        0 <= i <= ps.len(),
    ensures
        total_fits(ps.take(i)),
    decreases ps.len(),
{
    if i < ps.len() {
        lemma_total_fits_prefix(ps.drop_last(), i);
        assert(ps.drop_last().take(i) =~= ps.take(i));
    } else {
        assert(ps.take(i) =~= ps);
    }
}

fn total_contribution_of(p: &Posting) -> (res: Option<Money>)
    requires
        p@.1 is Some,
        costs_have_commodity(seq![p@]),
    ensures
        res matches Some(m) ==> m@ == total_contribution(p@),
        (res is Some) == contribution_fits(p@),
{
    assert(seq![p@][0] == p@);
    let a = match &p.amount {
        Some(a) => a,
        None => {
            return None;
        },
    };
    match &p.cost {
        None => Some(a.copy()),
        Some(Cost::Total { amount }) => {
            if a.is_negative() {
                Some(amount.neg())
            } else {
                Some(amount.copy())
            }
        },
        Some(Cost::PerUnit { amount }) => {
            match amount {
                Money::Zero => None,
                Money::Money { amount: c, currency } => {
                    let units = match c.checked_mul(&a.get_amount()) {
                        Some(u) => u,
                        None => {
                            return None;
                        },
                    };
                    let sign = if a.is_negative() {
                        Rational::from_integer(-1)
                    } else {
                        Rational::from_integer(1)
                    };
                    match units.checked_mul(&sign) {
                        Some(v) => Some(Money::Money { amount: v, currency: rc_clone(currency) }),
                        None => None,
                    }
                },
            }
        },
    }
}

/// The balance of a group of postings; `None` on overflow.
pub fn total_balance(postings: &Vec<Posting>) -> (res: Option<Balance>)
    requires
        costs_have_commodity(postings_view(postings@)),
    ensures
        res matches Some(b) ==> b@ == spec_total_balance(postings_view(postings@)) && b.wf(),
        (res is Some) == total_fits(postings_view(postings@)),
{
    let mut bal = Balance::new();
    let n = postings.len();
    let ghost ps = postings_view(postings@);
    for i in 0..n
        invariant
            n == postings.len(),
            ps == postings_view(postings@),
            costs_have_commodity(ps),
            bal.wf(),
            bal@ == bal_fold(seq![], total_contributions(ps.take(i as int))),
            total_fits(ps.take(i as int)),
    {
        let p = &postings[i];
        proof {
            assert(ps.take(i + 1).drop_last() =~= ps.take(i as int));
            assert(ps.take(i + 1).last() == p@);
            assert(ps[i as int] == p@);
        }
        if p.amount.is_some() {
            proof {
                assert(seq![p@][0] == p@);
                assert(costs_have_commodity(seq![p@]));
                if total_fits(ps) {
                    lemma_total_fits_prefix(ps, i + 1);
                    assert(ps.take(i + 1).last() == p@);
                    assert(spec_total_balance(ps.take(i as int)) == bal@);
                }
            }
            let m = match total_contribution_of(p) {
                Some(m) => m,
                None => {
                    proof {
                        if total_fits(ps) {
                            lemma_total_fits_prefix(ps, i + 1);
                        }
                    }
                    return None;
                },
            };
            if !bal.insert_money(&m) {
                proof {
                    if total_fits(ps) {
                        lemma_total_fits_prefix(ps, i + 1);
                    }
                }
                return None;
            }
            proof {
                let tc = total_contributions(ps.take(i as int));
                assert(total_contributions(ps.take(i + 1)) == tc.push(m@));
                assert(tc.push(m@).drop_last() =~= tc);
            }
        }
    }
    assert(ps.take(n as int) =~= ps);
    Some(bal)
}

} // verus!

verus! {

/// The running balance of every account, by account name.
#[derive(Debug)]
pub struct AccountBalances {
    pub entries: Vec<(Rc<Account>, Balance)>,
}

impl AccountBalances {
    pub open spec fn names(&self) -> Seq<Seq<char>> {
        self.entries@.map_values(|e: (Rc<Account>, Balance)| e.0.name@)
    }

    pub open spec fn wf(&self) -> bool {
        &&& forall|i: int, j: int| 0 <= i < j < self.entries@.len() ==> self.names()[i] != self.names()[j]
        &&& forall|i: int| 0 <= i < self.entries@.len() ==> (#[trigger] self.entries@[i]).1.wf()
    }

    pub open spec fn contains(&self, name: Seq<char>) -> bool {
        self.names().contains(name)
    }

    /// The balances as a map from account names.
    pub open spec fn as_map(&self) -> Map<Seq<char>, Seq<MoneyV>> {
        Map::new(|k: Seq<char>| self.contains(k), |k: Seq<char>| self.get_spec(k))
    }

    /// The balance of the account with this name.
    pub open spec fn get_spec(&self, name: Seq<char>) -> Seq<MoneyV> {
        self.entries@[self.names().index_of(name)].1@
    }

    pub fn new() -> (res: AccountBalances)
        ensures
            res.wf(),
            forall|k: Seq<char>| !res.contains(k),
    {
        AccountBalances { entries: Vec::new() }
    }

    fn find(&self, name: &str) -> (res: Option<usize>)
        requires
            self.wf(),
        ensures
            match res {
                Some(i) => i < self.entries@.len() && self.names()[i as int] == name@
                    && self.names().index_of(name@) == i,
                None => !self.contains(name@),
            },
    {
        let n = self.entries.len();
        let key = String::from_str(name);
        for i in 0..n
            invariant
                n == self.entries.len(),
                key@ == name@,
                self.wf(),
                forall|j: int| 0 <= j < i ==> self.names()[j] != name@,
        {
            if self.entries[i].0.name == key {
                assert(self.names()[i as int] == name@);
                assert(self.contains(name@));
                let ghost k = self.names().index_of(name@);
                assert(self.names()[k] == name@);
                assert(k == i);
                return Some(i);
            }
        }
        None
    }

    /// The balance of the account named `name`, if it has one.
    pub fn get(&self, name: &str) -> (res: Option<&Balance>)
        requires
            self.wf(),
        ensures
            res is Some <==> self.contains(name@),
            res matches Some(b) ==> b@ == self.get_spec(name@) && b.wf(),
    {
        match self.find(name) {
            Some(i) => Some(&self.entries[i].1),
            None => None,
        }
    }

    /// Sets the balance of `account`.
    pub fn insert(&mut self, account: Rc<Account>, balance: Balance)
        requires
            old(self).wf(),
            balance.wf(),
        ensures
            final(self).wf(),
            forall|k: Seq<char>| #[trigger] final(self).contains(k) <==> (old(self).contains(k) || k == account.name@),
            final(self).get_spec(account.name@) == balance@,
            forall|k: Seq<char>| k != account.name@ && old(self).contains(k) ==> #[trigger] final(self).get_spec(k) == old(self).get_spec(k),
            final(self).as_map() == old(self).as_map().insert(account.name@, balance@),
    {
        let ghost name = account.name@;
        match self.find(account.name.as_str()) {
            Some(i) => {
                self.entries.set(i, (account, balance));
                proof {
                    assert(self.names() =~= old(self).names());
                    assert forall|k: Seq<char>| k != name && old(self).contains(k) implies #[trigger] self.get_spec(k) == old(self).get_spec(k) by {
                        let a = old(self).names().index_of(k);
                        assert(old(self).names()[a] == k);
                        assert(a != i);
                    }
                    let b = self.names().index_of(name);
                    assert(self.names()[b] == name);
                    assert(self.as_map() =~= old(self).as_map().insert(name, balance@));
                }
            },
            None => {
                self.entries.push((account, balance));
                proof {
                    assert(self.names() =~= old(self).names().push(name));
                    assert forall|k: Seq<char>| #[trigger] self.contains(k) <==> (old(self).contains(k) || k == name) by {
                        if old(self).contains(k) {
                            let a = old(self).names().index_of(k);
                            assert(self.names()[a] == k);
                        }
                        if k == name {
                            assert(self.names()[old(self).names().len() as int] == k);
                        }
                    }
                    assert forall|k: Seq<char>| k != name && old(self).contains(k) implies #[trigger] self.get_spec(k) == old(self).get_spec(k) by {
                        let a = old(self).names().index_of(k);
                        assert(old(self).names()[a] == k);
                        assert(self.names()[a] == k);
                        let b = self.names().index_of(k);
                        assert(self.names()[b] == k);
                        assert(a == b);
                    }
                    assert(self.names()[old(self).names().len() as int] == name);
                    let b = self.names().index_of(name);
                    assert(self.names()[b] == name);
                    assert(self.as_map() =~= old(self).as_map().insert(name, balance@));
                }
            },
        }
    }
}

} // verus!

verus! {

/// What a posting with an amount adds to the balance of its transaction:
/// its amount, or its cost (a total cost negated for a negative amount, a per
/// unit cost multiplied by the amount).
pub open spec fn balance_contribution(p: PostingV) -> MoneyV {
    let a = p.1.unwrap();
    match p.3 {
        None => a,
        Some(c) => if c.0 == PriceType::Total {
            if money_is_negative(a) {
                money_neg(c.1)
            } else {
                c.1
            }
        } else {
            (c.1.0, rat_mul(c.1.1, a.1))
        },
    }
}

/// The state of `Transaction::balance` after some postings: the account
/// balances, the balance of the transaction, the postings kept so far and
/// the account of the posting that has neither amount nor balance.
pub type BalanceState = (Map<Seq<char>, Seq<MoneyV>>, Seq<MoneyV>, Seq<PostingV>, Option<Rc<Account>>);

/// One posting of `Transaction::balance`.
pub open spec fn balance_step(st: BalanceState, p: PostingV, skip: bool) -> Result<BalanceState, LedgerError> {
    let name = p.0.name@;
    match p.1 {
        Some(a) => {
            let expected = bal_insert(st.0[name], a);
            if !skip && p.2 is Some && !bal_eq(seq![p.2.unwrap()], expected) {
                Err(LedgerError::TransactionIsNotBalanced)
            } else {
                Ok((
                    st.0.insert(name, expected),
                    bal_insert(st.1, balance_contribution(p)),
                    st.2.push((p.0, p.1, None, p.3, PostingType::Real)),
                    st.3,
                ))
            }
        },
        None => if p.2 is Some && !skip {
            let nz = nonzero(bal_fold(seq![p.2.unwrap()], bal_neg(st.0[name])));
            if nz.len() > 1 {
                Err(LedgerError::TransactionIsNotBalanced)
            } else {
                let money: MoneyV = if nz.len() == 0 {
                    (None, (0, 1))
                } else {
                    nz[0]
                };
                Ok((
                    if nz.len() == 0 {
                        st.0
                    } else {
                        st.0.insert(name, bal_insert(st.0[name], money))
                    },
                    bal_insert(st.1, money),
                    st.2.push((p.0, Some(money), None, p.3, PostingType::Real)),
                    st.3,
                ))
            }
        } else {
            Ok((st.0, st.1, st.2, Some(p.0)))
        },
    }
}

/// The postings of `ps`, one after the other; an error comes with the account
/// balances as they were when it was found.
pub open spec fn balance_run(st: BalanceState, ps: Seq<PostingV>, skip: bool) -> Result<
    BalanceState,
    (LedgerError, Map<Seq<char>, Seq<MoneyV>>),
>
    decreases ps.len(),
{
    if ps.len() == 0 {
        Ok(st)
    } else {
        match balance_run(st, ps.drop_last(), skip) {
            Err(e) => Err(e),
            Ok(s) => match balance_step(s, ps.last(), skip) {
                Ok(s2) => Ok(s2),
                Err(e) => Err((e, s.0)),
            },
        }
    }
}

/// The postings that fill the empty posting: one per money of `ms`, each
/// added to the balance of the `fill` account.
pub open spec fn fill_run(
    bals: Map<Seq<char>, Seq<MoneyV>>,
    out: Seq<PostingV>,
    fill: Rc<Account>,
    ms: Seq<MoneyV>,
) -> (Map<Seq<char>, Seq<MoneyV>>, Seq<PostingV>)
    decreases ms.len(),
{
    if ms.len() == 0 {
        (bals, out)
    } else {
        let (b, o) = fill_run(bals, out, fill, ms.drop_last());
        (
            b.insert(fill.name@, bal_insert(b[fill.name@], ms.last())),
            o.push((fill, Some(ms.last()), None, None, PostingType::Real)),
        )
    }
}

/// What `Transaction::balance` does with postings `ps`, the balance `vb` of
/// the virtual postings that must balance and the account balances `bals`:
/// its result, the postings that replace `ps` (when it succeeds) and the
/// account balances afterwards.
pub open spec fn balance_outcome(
    ps: Seq<PostingV>,
    vb: Seq<MoneyV>,
    bals: Map<Seq<char>, Seq<MoneyV>>,
    skip: bool,
) -> (Result<Seq<MoneyV>, LedgerError>, Seq<PostingV>, Map<Seq<char>, Seq<MoneyV>>) {
    if !bal_can_be_zero(vb) {
        (Err(LedgerError::TransactionIsNotBalanced), ps, bals)
    } else {
        match balance_run((bals, seq![], seq![], None), ps, skip) {
            Err((e, b)) => (Err(e), ps, b),
            Ok(s) => {
                let empties = ps.len() - s.2.len();
                if empties > 1 {
                    (Err(LedgerError::TooManyEmptyPostings(empties as usize)), ps, s.0)
                } else if empties == 0 {
                    if bal_can_be_zero(s.1) {
                        (Ok(s.1), s.2, s.0)
                    } else {
                        (Err(LedgerError::TransactionIsNotBalanced), ps, s.0)
                    }
                } else {
                    let (b, o) = fill_run(s.0, s.2, s.3.unwrap(), bal_neg(s.1));
                    (Ok(seq![]), o, b)
                }
            },
        }
    }
}

/// Computing what a posting adds to the balance of its transaction does not
/// overflow: for a per unit cost, the product is computed in `i64`.
pub open spec fn balance_contribution_fits(p: PostingV) -> bool {
    match p.3 {
        Some(c) => c.0 == PriceType::PerUnit ==> {
            let a = p.1.unwrap();
            mul_fits(c.1.1, a.1)
        },
        None => true,
    }
}

/// One posting of `Transaction::balance` does not overflow.
pub open spec fn step_fits(st: BalanceState, p: PostingV, skip: bool) -> bool {
    let name = p.0.name@;
    match p.1 {
        Some(a) => {
            &&& insert_fits(st.0[name], a)
            &&& balance_contribution_fits(p)
            &&& insert_fits(st.1, balance_contribution(p))
        },
        None => p.2 is Some && !skip ==> {
            let nz = nonzero(bal_fold(seq![p.2.unwrap()], bal_neg(st.0[name])));
            &&& fold_fits(seq![p.2.unwrap()], bal_neg(st.0[name]))
            &&& nz.len() == 1 ==> insert_fits(st.1, nz[0]) && insert_fits(st.0[name], nz[0])
        },
    }
}

/// Every posting of `balance_run(st, ps, skip)` does not overflow.
pub open spec fn run_fits(st: BalanceState, ps: Seq<PostingV>, skip: bool) -> bool
    decreases ps.len(),
{
    if ps.len() == 0 {
        true
    } else {
        &&& run_fits(st, ps.drop_last(), skip)
        &&& (balance_run(st, ps.drop_last(), skip) matches Ok(s) ==> step_fits(s, ps.last(), skip))
    }
}

/// The steps of a prefix fit when all steps do.
pub proof fn lemma_run_fits_prefix(st: BalanceState, ps: Seq<PostingV>, i: int, skip: bool)
    requires
        run_fits(st, ps, skip),
        0 <= i <= ps.len(),
    ensures
        run_fits(st, ps.take(i), skip),
    decreases ps.len(),
{
    if i < ps.len() {
        lemma_run_fits_prefix(st, ps.drop_last(), i, skip);
        assert(ps.drop_last().take(i) =~= ps.take(i));
    } else {
        assert(ps.take(i) =~= ps);
    }
}

/// Every money of `fill_run(bals, out, fill, ms)` is added without overflow.
pub open spec fn fill_fits(bals: Map<Seq<char>, Seq<MoneyV>>, out: Seq<PostingV>, fill: Rc<Account>, ms: Seq<MoneyV>) -> bool
    decreases ms.len(),
{
    if ms.len() == 0 {
        true
    } else {
        &&& fill_fits(bals, out, fill, ms.drop_last())
        &&& insert_fits(fill_run(bals, out, fill, ms.drop_last()).0[fill.name@], ms.last())
    }
}

/// The steps of a prefix fit when all steps do.
pub proof fn lemma_fill_fits_prefix(
    bals: Map<Seq<char>, Seq<MoneyV>>,
    out: Seq<PostingV>,
    fill: Rc<Account>,
    ms: Seq<MoneyV>,
    i: int,
)
    requires
        fill_fits(bals, out, fill, ms),
        0 <= i <= ms.len(),
    ensures
        fill_fits(bals, out, fill, ms.take(i)),
    decreases ms.len(),
{
    if i < ms.len() {
        lemma_fill_fits_prefix(bals, out, fill, ms.drop_last(), i);
        assert(ms.drop_last().take(i) =~= ms.take(i));
    } else {
        assert(ms.take(i) =~= ms);
    }
}

/// Everything `Transaction::balance` computes does not overflow:
/// the balance of the `[virtual]` postings `vps`, every posting of `ps`, and
/// the filling of the empty posting.
pub open spec fn outcome_fits(ps: Seq<PostingV>, vps: Seq<PostingV>, bals: Map<Seq<char>, Seq<MoneyV>>, skip: bool) -> bool {
    let st: BalanceState = (bals, seq![], seq![], None);
    &&& total_fits(vps)
    &&& run_fits(st, ps, skip)
    &&& (balance_run(st, ps, skip) matches Ok(s) ==> (s.3 matches Some(f) ==> fill_fits(s.0, s.2, f, bal_neg(s.1))))
}

/// Every posting's account has a running balance.
pub open spec fn accounts_known(ps: Seq<PostingV>, bals: Map<Seq<char>, Seq<MoneyV>>) -> bool {
    forall|i: int| 0 <= i < ps.len() ==> bals.contains_key((#[trigger] ps[i]).0.name@)
}

/// The fields other than the real postings are the same.
pub open spec fn same_but_postings<P>(a: Transaction<P>, b: Transaction<P>) -> bool {
    &&& a.status == b.status
    &&& a.date == b.date
    &&& a.effective_date == b.effective_date
    &&& a.cleared == b.cleared
    &&& a.code == b.code
    &&& a.description == b.description
    &&& a.note == b.note
    &&& a.virtual_postings == b.virtual_postings
    &&& a.virtual_postings_balance == b.virtual_postings_balance
    &&& a.comments == b.comments
    &&& a.transaction_type == b.transaction_type
}

} // verus!

verus! {

fn balance_contribution_of(p: &Posting) -> (res: Option<Money>)
    requires
        p@.1 is Some,
        costs_have_commodity(seq![p@]),
    ensures
        res matches Some(m) ==> m@ == balance_contribution(p@),
        (res is Some) == balance_contribution_fits(p@),
{
    assert(seq![p@][0] == p@);
    let a = match &p.amount {
        Some(a) => a,
        None => {
            return None;
        },
    };
    match &p.cost {
        None => Some(a.copy()),
        Some(Cost::Total { amount }) => {
            if a.is_negative() {
                Some(amount.neg())
            } else {
                Some(amount.copy())
            }
        },
        Some(Cost::PerUnit { amount }) => {
            match amount {
                Money::Zero => None,
                Money::Money { amount: c, currency } => {
                    match c.checked_mul(&a.get_amount()) {
                        Some(u) => Some(Money::Money { amount: u, currency: rc_clone(currency) }),
                        None => None,
                    }
                },
            }
        },
    }
}

/// One posting of `Transaction::balance`; `Overflow` when an amount does not fit.
fn balance_one(
    p: &Posting,
    balances: &mut AccountBalances,
    tb: &mut Balance,
    out: &mut Vec<Posting>,
    fill: &mut Option<Rc<Account>>,
    skip: bool,
) -> (res: Result<(), LedgerError>)
    requires
        old(balances).wf(),
        old(tb).wf(),
        old(balances).contains(p@.0.name@),
        costs_have_commodity(seq![p@]),
    ensures
        final(balances).wf(),
        final(tb).wf(),
        forall|k: Seq<char>| old(balances).contains(k) ==> #[trigger] final(balances).contains(k),
        res is Ok ==> balance_step(
            (old(balances).as_map(), old(tb)@, postings_view(old(out)@), *old(fill)),
            p@,
            skip,
        ) == Ok::<BalanceState, LedgerError>(
            (final(balances).as_map(), final(tb)@, postings_view(final(out)@), *final(fill)),
        ),
        res matches Err(e) ==> (e is Overflow || (balance_step(
            (old(balances).as_map(), old(tb)@, postings_view(old(out)@), *old(fill)),
            p@,
            skip,
        ) == Err::<BalanceState, LedgerError>(e) && final(balances).as_map() == old(
            balances,
        ).as_map())),
        step_fits((old(balances).as_map(), old(tb)@, postings_view(old(out)@), *old(fill)), p@, skip) ==> !(res matches Err(
            LedgerError::Overflow,
        )),
{
    let ghost st = (old(balances).as_map(), old(tb)@, postings_view(old(out)@), *old(fill));
    let ghost name = p@.0.name@;
    assert(balances.as_map().contains_key(name));
    match &p.amount {
        Some(money) => {
            let cur = balances.get(p.account.name.as_str());
            let mut expected = cur.unwrap().copy();
            if !expected.insert_money(money) {
                return Err(LedgerError::Overflow);
            }
            assert(expected@ == bal_insert(st.0[name], money@));
            if !skip {
                if let Some(b) = &p.balance {
                    let bb = Balance::from(b.copy());
                    if !bb.eq(&expected) {
                        return Err(LedgerError::TransactionIsNotBalanced);
                    }
                }
            }
            balances.insert(rc_clone(&p.account), expected);
            let c = match balance_contribution_of(p) {
                Some(c) => c,
                None => {
                    return Err(LedgerError::Overflow);
                },
            };
            if !tb.insert_money(&c) {
                return Err(LedgerError::Overflow);
            }
            let np = Posting {
                account: rc_clone(&p.account),
                amount: copy_money(&p.amount),
                balance: None,
                cost: copy_cost(&p.cost),
                kind: PostingType::Real,
            };
            out.push(np);
            assert(postings_view(out@) =~= postings_view(old(out)@).push(np@));
            Ok(())
        },
        None => {
            if p.balance.is_some() && !skip {
                let b = p.balance.as_ref().unwrap();
                let account_bal = balances.get(p.account.name.as_str()).unwrap();
                let bb = Balance::from(b.copy());
                let amount_bal = match bb.sub(account_bal) {
                    Some(x) => x,
                    None => {
                        return Err(LedgerError::Overflow);
                    },
                };
                let money = match amount_bal.to_money() {
                    Ok(m) => m,
                    Err(_) => {
                        return Err(LedgerError::TransactionIsNotBalanced);
                    },
                };
                if !tb.insert_money(&money) {
                    return Err(LedgerError::Overflow);
                }
                match &money {
                    Money::Zero => {},
                    Money::Money { .. } => {
                        let mut updated = account_bal.copy();
                        if !updated.insert_money(&money) {
                            return Err(LedgerError::Overflow);
                        }
                        balances.insert(rc_clone(&p.account), updated);
                    },
                }
                let np = Posting {
                    account: rc_clone(&p.account),
                    amount: Some(money),
                    balance: None,
                    cost: copy_cost(&p.cost),
                    kind: PostingType::Real,
                };
                out.push(np);
                assert(postings_view(out@) =~= postings_view(old(out)@).push(np@));
                Ok(())
            } else {
                *fill = Some(rc_clone(&p.account));
                Ok(())
            }
        },
    }
}

} // verus!

verus! {

/// A result of `Transaction::balance` with the balance by its view.
pub open spec fn balance_result_view(r: Result<Balance, LedgerError>) -> Result<Seq<MoneyV>, LedgerError> {
    match r {
        Ok(b) => Ok(b@),
        Err(e) => Err(e),
    }
}

/// Once a prefix of the postings fails, the whole run fails the same way.
proof fn lemma_run_err_prefix(st: BalanceState, ps: Seq<PostingV>, k: int, skip: bool)
    requires
        0 <= k <= ps.len(),
        balance_run(st, ps.take(k), skip) is Err,
    ensures
        balance_run(st, ps, skip) == balance_run(st, ps.take(k), skip),
    decreases ps.len(),
{
    if ps.len() == k {
        assert(ps.take(k) =~= ps);
    } else {
        assert(ps.drop_last().take(k) =~= ps.take(k));
        lemma_run_err_prefix(st, ps.drop_last(), k, skip);
    }
}

impl Transaction<Posting> {
    /// Balances the transaction against the running `balances` of the accounts.
    ///
    /// The `[virtual]` postings must balance among themselves. Every real
    /// posting with an amount is added to its account (and checked against its
    /// balance assertion unless `skip_balance_check`); a posting with only a
    /// balance assertion gets the amount that makes the assertion true, and
    /// that amount goes to its account, which then holds the asserted
    /// balance; the
    /// one posting with neither is filled with what balances the transaction.
    pub fn balance(&mut self, balances: &mut AccountBalances, skip_balance_check: bool) -> (res:
        Result<Balance, LedgerError>)
        requires
            old(balances).wf(),
            accounts_known(postings_view(old(self).postings@), old(balances).as_map()),
            costs_have_commodity(postings_view(old(self).postings@)),
            costs_have_commodity(postings_view(old(self).virtual_postings_balance@)),
        ensures
            final(balances).wf(),
            same_but_postings(*final(self), *old(self)),
            !(res matches Err(LedgerError::Overflow)) ==> {
                let out = balance_outcome(
                    postings_view(old(self).postings@),
                    spec_total_balance(postings_view(old(self).virtual_postings_balance@)),
                    old(balances).as_map(),
                    skip_balance_check,
                );
                &&& balance_result_view(res) == out.0
                &&& postings_view(final(self).postings@) == out.1
                &&& final(balances).as_map() == out.2
            },
            outcome_fits(
                postings_view(old(self).postings@),
                postings_view(old(self).virtual_postings_balance@),
                old(balances).as_map(),
                skip_balance_check,
            ) ==> !(res matches Err(LedgerError::Overflow)),
    {
        let ghost ps = postings_view(self.postings@);
        let ghost bals0 = balances.as_map();
        let ghost st0: BalanceState = (bals0, seq![], seq![], None);
        let ghost fits = outcome_fits(ps, postings_view(self.virtual_postings_balance@), bals0, skip_balance_check);
        let vb = match total_balance(&self.virtual_postings_balance) {
            Some(b) => b,
            None => {
                return Err(LedgerError::Overflow);
            },
        };
        if !vb.can_be_zero() {
            return Err(LedgerError::TransactionIsNotBalanced);
        }
        let mut tb = Balance::new();
        let mut out: Vec<Posting> = Vec::new();
        let mut fill: Option<Rc<Account>> = None;
        let n = self.postings.len();
        proof {
            assert(ps.take(0) =~= Seq::<PostingV>::empty());
            assert(postings_view(out@) =~= Seq::<PostingV>::empty());
        }
        for i in 0..n
            invariant
                n == self.postings.len(),
                self.postings@ == old(self).postings@,
                same_but_postings(*self, *old(self)),
                vb@ == spec_total_balance(postings_view(old(self).virtual_postings_balance@)),
                bal_can_be_zero(vb@),
                bals0 == old(balances).as_map(),
                st0 == (bals0, Seq::<MoneyV>::empty(), Seq::<PostingV>::empty(), None::<Rc<Account>>),
                ps == postings_view(self.postings@),
                accounts_known(ps, bals0),
                costs_have_commodity(ps),
                balances.wf(),
                tb.wf(),
                forall|k: Seq<char>| bals0.contains_key(k) ==> #[trigger] balances.contains(k),
                balance_run(st0, ps.take(i as int), skip_balance_check) == Ok::<BalanceState, (LedgerError, Map<Seq<char>, Seq<MoneyV>>)>(
                    (balances.as_map(), tb@, postings_view(out@), fill),
                ),
                out.len() <= i,
                fill is None ==> out.len() == i,
                fill matches Some(a) ==> balances.contains(a.name@),
                fits ==> run_fits(st0, ps, skip_balance_check),
                fits == outcome_fits(ps, postings_view(old(self).virtual_postings_balance@), bals0, skip_balance_check),
        {
            let p = &self.postings[i];
            proof {
                assert(ps[i as int] == p@);
                assert(bals0.contains_key(p@.0.name@));
                assert(seq![p@][0] == p@);
                assert(costs_have_commodity(seq![p@]));
                assert(ps.take(i + 1).drop_last() =~= ps.take(i as int));
                assert(ps.take(i + 1).last() == p@);
            }
            let ghost before: BalanceState = (balances.as_map(), tb@, postings_view(out@), fill);
            let ghost out_before = out@;
            proof {
                if fits {
                    lemma_run_fits_prefix(st0, ps, i + 1, skip_balance_check);
                    assert(step_fits(before, p@, skip_balance_check));
                }
            }
            let r = balance_one(p, balances, &mut tb, &mut out, &mut fill, skip_balance_check);
            match r {
                Ok(()) => {
                    proof {
                        assert(postings_view(out_before).len() == out_before.len());
                        assert(postings_view(out@).len() == out@.len());
                    }
                },
                Err(e) => {
                    proof {
                        if !(e is Overflow) {
                            assert(balance_run(st0, ps.take(i + 1).drop_last(), skip_balance_check) == Ok::<BalanceState, (LedgerError, Map<Seq<char>, Seq<MoneyV>>)>(before));
                            assert(balance_step(before, p@, skip_balance_check) == Err::<BalanceState, LedgerError>(e));
                            assert(balance_run(st0, ps.take(i + 1), skip_balance_check) == Err::<BalanceState, (LedgerError, Map<Seq<char>, Seq<MoneyV>>)>((e, before.0)));
                            lemma_run_err_prefix(st0, ps, i + 1, skip_balance_check);
                            assert(balance_result_view(Err(e)) == Err::<Seq<MoneyV>, LedgerError>(e));
                        }
                    }
                    return Err(e);
                },
            }
        }
        assert(ps.take(n as int) =~= ps);
        let empties = n - out.len();
        if empties > 1 {
            return Err(LedgerError::TooManyEmptyPostings(empties));
        }
        if empties == 0 {
            if tb.can_be_zero() {
                self.postings = out;
                return Ok(tb);
            } else {
                return Err(LedgerError::TransactionIsNotBalanced);
            }
        }
        let fill_account = match fill {
            Some(a) => a,
            None => {
                return Err(LedgerError::EmptyPostingShouldBeLast);
            },
        };
        let negated = tb.neg();
        let ghost b0 = balances.as_map();
        let ghost o0 = postings_view(out@);
        let m = negated.balance.len();
        for j in 0..m
            invariant
                m == negated.balance.len(),
                same_but_postings(*self, *old(self)),
                balances.wf(),
                balances.contains(fill_account.name@),
                fill_run(b0, o0, fill_account, negated@.take(j as int)) == (balances.as_map(), postings_view(out@)),
                fits ==> fill_fits(b0, o0, fill_account, negated@),
                fits == outcome_fits(ps, postings_view(old(self).virtual_postings_balance@), bals0, skip_balance_check),
                ps == postings_view(old(self).postings@),
                bals0 == old(balances).as_map(),
        {
            let money = &negated.balance[j];
            let cur = balances.get(fill_account.name.as_str());
            let mut expected = cur.unwrap().copy();
            proof {
                assert(negated@.take(j + 1).drop_last() =~= negated@.take(j as int));
                assert(negated@.take(j + 1).last() == money@);
            }
            proof {
                if fits {
                    lemma_fill_fits_prefix(b0, o0, fill_account, negated@, j + 1);
                    assert(balances.as_map()[fill_account.name@] == expected@);

                }
            }
            if !expected.insert_money(money) {
                return Err(LedgerError::Overflow);
            }
            balances.insert(rc_clone(&fill_account), expected);
            let np = Posting {
                account: rc_clone(&fill_account),
                amount: Some(money.copy()),
                balance: None,
                cost: None,
                kind: PostingType::Real,
            };
            let ghost prev = out@;
            out.push(np);
            proof {
                assert(postings_view(out@) =~= postings_view(prev).push(np@));
            }
        }
        assert(negated@.take(m as int) =~= negated@);
        self.postings = out;
        Ok(Balance::new())
    }
}

} // verus!

verus! {

/// A posting with neither an amount nor a balance assertion.
pub open spec fn is_empty_posting(p: PostingV) -> bool {
    p.1 is None && p.2 is None
}

/// The number of empty postings.
pub open spec fn count_empty(ps: Seq<PostingV>) -> nat
    decreases ps.len(),
{
    if ps.len() == 0 {
        0
    } else {
        count_empty(ps.drop_last()) + if is_empty_posting(ps.last()) {
            1nat
        } else {
            0nat
        }
    }
}

impl<P> Transaction<P> {
    /// All the postings: the real ones, then the `(virtual)` ones, then the
    /// `[virtual]` ones.
    pub fn postings_iter(&self) -> (res: Vec<&P>)
        ensures
            res@.len() == self.postings@.len() + self.virtual_postings@.len()
                + self.virtual_postings_balance@.len(),
            forall|i: int| 0 <= i < self.postings@.len() ==> *res@[i] == self.postings@[i],
            forall|i: int|
                0 <= i < self.virtual_postings@.len() ==> *res@[self.postings@.len() + i]
                    == self.virtual_postings@[i],
            forall|i: int|
                0 <= i < self.virtual_postings_balance@.len() ==> *res@[self.postings@.len()
                    + self.virtual_postings@.len() + i] == self.virtual_postings_balance@[i],
    {
        let mut res: Vec<&P> = Vec::new();
        for i in 0..self.postings.len()
            invariant
                res@.len() == i,
                forall|k: int| 0 <= k < i ==> *res@[k] == self.postings@[k],
        {
            res.push(&self.postings[i]);
        }
        let a = self.postings.len();
        for i in 0..self.virtual_postings.len()
            invariant
                a == self.postings@.len(),
                res@.len() == a + i,
                forall|k: int| 0 <= k < a ==> *res@[k] == self.postings@[k],
                forall|k: int| 0 <= k < i ==> *res@[a + k] == self.virtual_postings@[k],
        {
            res.push(&self.virtual_postings[i]);
        }
        let b = self.virtual_postings.len();
        for i in 0..self.virtual_postings_balance.len()
            invariant
                a == self.postings@.len(),
                b == self.virtual_postings@.len(),
                res@.len() == a + b + i,
                forall|k: int| 0 <= k < a ==> *res@[k] == self.postings@[k],
                forall|k: int| 0 <= k < b ==> *res@[a + k] == self.virtual_postings@[k],
                forall|k: int| 0 <= k < i ==> *res@[a + b + k] == self.virtual_postings_balance@[k],
        {
            res.push(&self.virtual_postings_balance[i]);
        }
        res
    }
}

impl Transaction<Posting> {
    /// Whether the real postings can balance to zero; `None` on overflow.
    pub fn is_balanced(&self) -> (res: Option<bool>)
        requires
            costs_have_commodity(postings_view(self.postings@)),
        ensures
            res matches Some(b) ==> b == bal_can_be_zero(spec_total_balance(postings_view(self.postings@))),
            (res is Some) == total_fits(postings_view(self.postings@)),
    {
        match total_balance(&self.postings) {
            Some(b) => Some(b.can_be_zero()),
            None => None,
        }
    }

    /// The number of postings with neither an amount nor a balance assertion.
    pub fn num_empty_postings(&self) -> (res: usize)
        ensures
            res == count_empty(postings_view(self.postings@)),
    {
        let ghost ps = postings_view(self.postings@);
        let mut count: usize = 0;
        let n = self.postings.len();
        for i in 0..n
            invariant
                n == self.postings.len(),
                ps == postings_view(self.postings@),
                count == count_empty(ps.take(i as int)),
                count <= i,
        {
            proof {
                assert(ps.take(i + 1).drop_last() =~= ps.take(i as int));
                assert(ps.take(i + 1).last() == self.postings@[i as int]@);
            }
            let p = &self.postings[i];
            if p.amount.is_none() && p.balance.is_none() {
                count = count + 1;
            }
        }
        assert(ps.take(n as int) =~= ps);
        count
    }

    /// Appends a real posting to `account` with no amount.
    pub fn add_empty_posting(&mut self, account: &Rc<Account>)
        ensures
            same_but_postings(*final(self), *old(self)),
            postings_view(final(self).postings@) == postings_view(old(self).postings@).push(
                (*account, None::<MoneyV>, None::<MoneyV>, None::<CostV>, PostingType::Real),
            ),
    {
        let p = Posting::new(account, PostingType::Real);
        self.postings.push(p);
        assert(postings_view(self.postings@) =~= postings_view(old(self).postings@).push(p@));
    }
}

} // verus!
