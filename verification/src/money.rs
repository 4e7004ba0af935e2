//! Amounts of money and multi-commodity balances.
use vstd::prelude::*;
use std::rc::Rc;
use crate::models::Currency;
use crate::rational::{Rational, add_fits, mul_fits, rat_add, rat_eq, rat_mul, rat_neg};
use crate::error::BalanceError;

verus! {

/// Clones an `Rc` with `Rc::clone`: the copy points to the same value.
#[verifier::external_body]
pub(crate) fn rc_clone<T>(r: &Rc<T>) -> (res: Rc<T>)
    ensures
        res == *r,
{
    Rc::clone(r)
}

/// Whether a cost is given for the total or per unit.
#[derive(Debug, Copy, Clone, PartialEq, Eq, Structural)]
pub enum CostType {
    Total,
    PerUnit,
}

/// An amount of money: nothing at all, or an amount of one commodity.
#[derive(Debug)]
pub enum Money {
    Zero,
    Money { amount: Rational, currency: Rc<Currency> },
}

/// A money as the commodity it is in (none for `Zero`) and its exact amount.
pub type MoneyV = (Option<Rc<Currency>>, (int, int));

/// The key under which a balance keeps a money: the commodity's name.
pub open spec fn mkey(m: MoneyV) -> Option<Seq<char>> {
    match m.0 {
        Some(c) => Some(c.name@),
        None => None,
    }
}

pub open spec fn money_is_zero(m: MoneyV) -> bool {
    m.0 is None || m.1.0 == 0
}

/// `Zero` counts as positive and as negative.
pub open spec fn money_is_positive(m: MoneyV) -> bool {
    m.0 is None || m.1.0 > 0
}

pub open spec fn money_is_negative(m: MoneyV) -> bool {
    m.0 is None || m.1.0 < 0
}

pub open spec fn money_neg(m: MoneyV) -> MoneyV {
    match m.0 {
        Some(c) => (Some(c), rat_neg(m.1)),
        None => m,
    }
}

/// Equality of money: two amounts of the same commodity with the same value,
/// or zero on either side of `Zero`.
pub open spec fn money_eq(a: MoneyV, b: MoneyV) -> bool {
    if a.0 is None {
        money_is_zero(b)
    } else if b.0 is None {
        money_is_zero(a)
    } else {
        rat_eq(a.1, b.1) && mkey(a) == mkey(b)
    }
}

impl Money {
    pub open spec fn view(&self) -> MoneyV {
        match self {
            Money::Zero => (None, (0, 1)),
            Money::Money { amount, currency } => (Some(*currency), amount.view()),
        }
    }

    /// A copy of this money.
    pub fn copy(&self) -> (res: Money)
        ensures
            res == *self,
    {
        match self {
            Money::Zero => Money::Zero,
            Money::Money { amount, currency } => Money::Money {
                amount: *amount,
                currency: rc_clone(currency),
            },
        }
    }

    pub fn new() -> (res: Money)
        ensures
            res is Zero,
    {
        Money::Zero
    }

    /// An amount of a commodity.
    pub fn from(cur_amount: (Rc<Currency>, Rational)) -> (res: Money)
        ensures
            res@ == (Some(cur_amount.0), cur_amount.1.view()),
    {
        let (currency, amount) = cur_amount;
        Money::Money { amount, currency }
    }

    pub fn is_zero(&self) -> (res: bool)
        ensures
            res == money_is_zero(self@),
    {
        match self {
            Money::Zero => true,
            Money::Money { amount, .. } => amount.is_zero(),
        }
    }

    pub fn is_positive(&self) -> (res: bool)
        ensures
            res == money_is_positive(self@),
    {
        match self {
            Money::Zero => true,
            Money::Money { amount, .. } => amount.is_positive(),
        }
    }

    pub fn is_negative(&self) -> (res: bool)
        ensures
            res == money_is_negative(self@),
    {
        match self {
            Money::Zero => true,
            Money::Money { amount, .. } => amount.is_negative(),
        }
    }

    pub fn get_commodity(&self) -> (res: Option<Rc<Currency>>)
        ensures
            res == self@.0,
    {
        match self {
            Money::Zero => None,
            Money::Money { currency, .. } => Some(rc_clone(currency)),
        }
    }

    pub fn get_amount(&self) -> (res: Rational)
        ensures
            res.view() == self@.1,
    {
        match self {
            Money::Zero => Rational::zero(),
            Money::Money { amount, .. } => *amount,
        }
    }

    pub fn neg(&self) -> (res: Money)
        ensures
            res@ == money_neg(self@),
    {
        match self {
            Money::Zero => Money::Zero,
            Money::Money { amount, currency } => Money::Money {
                amount: amount.neg(),
                currency: rc_clone(currency),
            },
        }
    }

    /// The absolute value; `Zero` stays `Zero`.
    pub fn abs(&self) -> (res: Money)
        ensures
            res@ == (if money_is_negative(self@) {
                money_neg(self@)
            } else {
                self@
            }),
    {
        if self.is_negative() {
            self.neg()
        } else {
            self.copy()
        }
    }

    /// The money scaled by `rhs`; `None` on overflow.
    pub fn mul(&self, rhs: &Rational) -> (res: Option<Money>)
        ensures
            res matches Some(r) ==> r@ == (match self@.0 {
                Some(c) => (Some(c), rat_mul(self@.1, rhs.view())),
                None => self@,
            }),
            (res is Some) == (self@.0 is None || mul_fits(self@.1, rhs.view())),
    {
        match self {
            Money::Zero => Some(Money::Zero),
            Money::Money { amount, currency } => match amount.checked_mul(rhs) {
                Some(a) => Some(Money::Money { amount: a, currency: rc_clone(currency) }),
                None => None,
            },
        }
    }

    /// Equality as money: same commodity and value, or zero against `Zero`.
    pub fn eq(&self, other: &Money) -> (res: bool)
        ensures
            res == money_eq(self@, other@),
    {
        match self {
            Money::Zero => other.is_zero(),
            Money::Money { amount: a1, currency: c1 } => match other {
                Money::Zero => a1.is_zero(),
                Money::Money { amount: a2, currency: c2 } => a1.same_value(a2) && c1.name == c2.name,
            },
        }
    }
}

/// Inserts one money into a balance: added to the money already kept under
/// its commodity, or appended when the commodity is new.
pub open spec fn bal_insert(acc: Seq<MoneyV>, m: MoneyV) -> Seq<MoneyV> {
    if exists|i: int| 0 <= i < acc.len() && mkey(acc[i]) == mkey(m) {
        let i = choose|i: int| 0 <= i < acc.len() && mkey(acc[i]) == mkey(m);
        if m.0 is Some {
            acc.update(i, (m.0, rat_add(m.1, acc[i].1)))
        } else {
            acc
        }
    } else {
        acc.push(m)
    }
}

/// Inserts every money of `s`, in order.
pub open spec fn bal_fold(acc: Seq<MoneyV>, s: Seq<MoneyV>) -> Seq<MoneyV>
    decreases s.len(),
{
    if s.len() == 0 {
        acc
    } else {
        bal_insert(bal_fold(acc, s.drop_last()), s.last())
    }
}

/// Inserting `m` into `acc` does not overflow: when a money of the same
/// commodity is there, their `i64` sum is computed.
pub open spec fn insert_fits(acc: Seq<MoneyV>, m: MoneyV) -> bool {
    forall|i: int|
        0 <= i < acc.len() && mkey(#[trigger] acc[i]) == mkey(m) && m.0 is Some ==> add_fits(m.1, acc[i].1)
}

/// Every insertion of `bal_fold(acc, s)` fits.
pub open spec fn fold_fits(acc: Seq<MoneyV>, s: Seq<MoneyV>) -> bool
    decreases s.len(),
{
    if s.len() == 0 {
        true
    } else {
        fold_fits(acc, s.drop_last()) && insert_fits(bal_fold(acc, s.drop_last()), s.last())
    }
}

/// The insertions of a fold that fits fit one by one.
pub proof fn lemma_fold_fits(acc: Seq<MoneyV>, s: Seq<MoneyV>, i: int)
    requires
        fold_fits(acc, s),
        0 <= i < s.len(),
    ensures
        insert_fits(bal_fold(acc, s.take(i)), s[i]),
    decreases s.len(),
{
    if i < s.len() - 1 {
        lemma_fold_fits(acc, s.drop_last(), i);
        assert(s.drop_last().take(i) =~= s.take(i));
    } else {
        assert(s.take(i) =~= s.drop_last());
    }
}

pub open spec fn keys_distinct(s: Seq<MoneyV>) -> bool {
    forall|i: int, j: int| 0 <= i < j < s.len() ==> mkey(s[i]) != mkey(s[j])
}

pub open spec fn bal_is_zero(s: Seq<MoneyV>) -> bool {
    forall|i: int| 0 <= i < s.len() ==> money_is_zero(#[trigger] s[i])
}

/// A balance can be zero when it is zero, or when it holds a positive and a
/// negative money (in different commodities, a price can make them cancel).
pub open spec fn bal_can_be_zero(s: Seq<MoneyV>) -> bool {
    bal_is_zero(s) || ((exists|i: int| 0 <= i < s.len() && money_is_positive(#[trigger] s[i]))
        && (exists|j: int| 0 <= j < s.len() && money_is_negative(#[trigger] s[j])))
}

pub open spec fn bal_neg(s: Seq<MoneyV>) -> Seq<MoneyV> {
    s.map_values(|m: MoneyV| money_neg(m))
}

/// The moneys of a balance that are not zero.
pub open spec fn nonzero(s: Seq<MoneyV>) -> Seq<MoneyV> {
    s.filter(|m: MoneyV| !money_is_zero(m))
}

/// Equality of balances, as `Balance::eq` compares them: every money of `a`
/// equals the money of `b` in its commodity, or is zero when `b` has none.
pub open spec fn bal_eq(a: Seq<MoneyV>, b: Seq<MoneyV>) -> bool {
    forall|i: int|
        0 <= i < a.len() ==> if exists|j: int| 0 <= j < b.len() && mkey(b[j]) == mkey(#[trigger] a[i]) {
            money_eq(a[i], b[choose|j: int| 0 <= j < b.len() && mkey(b[j]) == mkey(a[i])])
        } else {
            money_is_zero(a[i])
        }
}

/// A balance: at most one money per commodity.
#[derive(Debug)]
pub struct Balance {
    pub balance: Vec<Money>,
}

impl Balance {
    pub open spec fn view(&self) -> Seq<MoneyV> {
        self.balance@.map_values(|m: Money| m@)
    }

    pub open spec fn wf(&self) -> bool {
        keys_distinct(self@)
    }

    pub fn new() -> (res: Balance)
        ensures
            res@ == Seq::<MoneyV>::empty(),
            res.wf(),
    {
        Balance { balance: Vec::new() }
    }

    /// The balance holding one money.
    pub fn from(money: Money) -> (res: Balance)
        ensures
            res@ == seq![money@],
            res.wf(),
    {
        let mut v = Vec::new();
        v.push(money);
        let res = Balance { balance: v };
        assert(res@ =~= seq![money@]);
        res
    }

    /// A copy of this balance.
    pub fn copy(&self) -> (res: Balance)
        ensures
            res@ == self@,
    {
        let mut v: Vec<Money> = Vec::new();
        let n = self.balance.len();
        for i in 0..n
            invariant
                n == self.balance.len(),
                v.len() == i,
                forall|j: int| 0 <= j < i ==> v@[j] == self.balance@[j],
        {
            v.push(self.balance[i].copy());
        }
        let res = Balance { balance: v };
        assert(res@ =~= self@);
        res
    }

    pub fn len(&self) -> (res: usize)
        ensures
            res == self@.len(),
    {
        self.balance.len()
    }

    /// The moneys of this balance, one per commodity.
    pub fn iter(&self) -> (res: &Vec<Money>)
        ensures
            res@.map_values(|m: Money| m@) == self@,
    {
        &self.balance
    }

    fn find(&self, m: &Money) -> (res: Option<usize>)
        requires
            self.wf(),
        ensures
            match res {
                Some(i) => i < self@.len() && mkey(self@[i as int]) == mkey(m@),
                None => !(exists|i: int| 0 <= i < self@.len() && mkey(self@[i]) == mkey(m@)),
            },
    {
        let n = self.balance.len();
        for i in 0..n
            invariant
                n == self.balance.len(),
                forall|j: int| 0 <= j < i ==> mkey(self@[j]) != mkey(m@),
        {
            let same = match (&self.balance[i], m) {
                (Money::Zero, Money::Zero) => true,
                (Money::Money { currency: c1, .. }, Money::Money { currency: c2, .. }) => c1.name
                    == c2.name,
                _ => false,
            };
            if same {
                return Some(i);
            }
        }
        None
    }

    /// Adds one money in place; `false` (with `self` unspecified) on overflow.
    pub fn insert_money(&mut self, m: &Money) -> (ok: bool)
        requires
            old(self).wf(),
        ensures
            ok ==> final(self)@ == bal_insert(old(self)@, m@),
            !ok ==> final(self)@ == old(self)@,
            ok == insert_fits(old(self)@, m@),
            final(self).wf(),
    {
        match self.find(m) {
            Some(i) => {
                let ghost k = choose|k: int| 0 <= k < old(self)@.len() && mkey(old(self)@[k]) == mkey(m@);
                assert(k == i);
                match m {
                    Money::Zero => true,
                    Money::Money { amount, currency } => {
                        let prev = self.balance[i].get_amount();
                        proof {
                            assert forall|j: int|
                                0 <= j < old(self)@.len() && mkey(#[trigger] old(self)@[j]) == mkey(m@) implies j == i by {
                                if j != i {
                                    assert(mkey(old(self)@[j]) == mkey(old(self)@[i as int]));
                                }
                            }
                        }
                        match amount.checked_add(&prev) {
                            Some(sum) => {
                                let nm = Money::Money { amount: sum, currency: rc_clone(currency) };
                                self.balance.set(i, nm);
                                assert(self@ =~= bal_insert(old(self)@, m@));
                                true
                            },
                            None => false,
                        }
                    },
                }
            },
            None => {
                self.balance.push(m.copy());
                assert(self@ =~= bal_insert(old(self)@, m@));
                true
            },
        }
    }

    /// The sum of two balances; `None` on overflow.
    pub fn add(&self, rhs: &Balance) -> (res: Option<Balance>)
        requires
            self.wf(),
        ensures
            res matches Some(r) ==> r@ == bal_fold(self@, rhs@) && r.wf(),
            (res is Some) == fold_fits(self@, rhs@),
    {
        let mut acc = self.copy();
        let n = rhs.balance.len();
        for i in 0..n
            invariant
                n == rhs.balance.len(),
                acc.wf(),
                acc@ == bal_fold(self@, rhs@.take(i as int)),
                fold_fits(self@, rhs@.take(i as int)),
        {
            proof {
                if fold_fits(self@, rhs@) {
                    lemma_fold_fits(self@, rhs@, i as int);
                }
                assert(rhs.balance@[i as int]@ == rhs@[i as int]);
            }
            let ok = acc.insert_money(&rhs.balance[i]);
            if !ok {
                return None;
            }
            assert(rhs@.take(i + 1).drop_last() =~= rhs@.take(i as int));
            assert(rhs@.take(i + 1).last() == rhs@[i as int]);
        }
        assert(rhs@.take(n as int) =~= rhs@);
        Some(acc)
    }

    /// The negated balance.
    pub fn neg(&self) -> (res: Balance)
        ensures
            res@ == bal_neg(self@),
    {
        let mut v: Vec<Money> = Vec::new();
        let n = self.balance.len();
        for i in 0..n
            invariant
                n == self.balance.len(),
                v.len() == i,
                forall|j: int| 0 <= j < i ==> v@[j]@ == money_neg(self.balance@[j]@),
        {
            v.push(self.balance[i].neg());
        }
        let res = Balance { balance: v };
        assert(res@ =~= bal_neg(self@));
        res
    }

    /// `self - rhs`; `None` on overflow.
    pub fn sub(&self, rhs: &Balance) -> (res: Option<Balance>)
        requires
            self.wf(),
        ensures
            res matches Some(r) ==> r@ == bal_fold(self@, bal_neg(rhs@)) && r.wf(),
            (res is Some) == fold_fits(self@, bal_neg(rhs@)),
    {
        let negative = rhs.neg();
        self.add(&negative)
    }

    pub fn is_zero(&self) -> (res: bool)
        ensures
            res == bal_is_zero(self@),
    {
        let n = self.balance.len();
        for i in 0..n
            invariant
                n == self.balance.len(),
                forall|j: int| 0 <= j < i ==> money_is_zero(#[trigger] self@[j]),
        {
            if !self.balance[i].is_zero() {
                assert(!money_is_zero(self@[i as int]));
                return false;
            }
        }
        true
    }

    pub fn can_be_zero(&self) -> (res: bool)
        ensures
            res == bal_can_be_zero(self@),
    {
        if self.is_zero() {
            return true;
        }
        let mut positive = false;
        let mut negative = false;
        let n = self.balance.len();
        for i in 0..n
            invariant
                n == self.balance.len(),
                !bal_is_zero(self@),
                positive == (exists|j: int| 0 <= j < i && money_is_positive(#[trigger] self@[j])),
                negative == (exists|j: int| 0 <= j < i && money_is_negative(#[trigger] self@[j])),
                !(positive && negative),
        {
            let m = &self.balance[i];
            assert(m@ == self@[i as int]);
            positive = m.is_positive() || positive;
            negative = m.is_negative() || negative;
            if positive && negative {
                return true;
            }
        }
        false
    }

    /// The single money of a balance: `Zero` when nothing is left, the one
    /// non-zero money, or an error when there are more commodities.
    pub fn to_money(&self) -> (res: Result<Money, BalanceError>)
        ensures
            nonzero(self@).len() == 0 ==> (res matches Ok(m) && m is Zero),
            nonzero(self@).len() == 1 ==> (res matches Ok(m) && m@ == nonzero(self@)[0]),
            nonzero(self@).len() > 1 ==> (res matches Err(BalanceError::TooManyCurrencies(b))
                && b@ == self@),
    {
        let mut found: Option<usize> = None;
        let n = self.balance.len();
        for i in 0..n
            invariant
                n == self.balance.len(),
                match found {
                    None => nonzero(self@.take(i as int)).len() == 0,
                    Some(k) => k < i && nonzero(self@.take(i as int)).len() == 1 && nonzero(
                        self@.take(i as int),
                    )[0] == self@[k as int],
                },
        {
            proof {
                reveal_with_fuel(Seq::filter, 1);
                assert(self@.take(i + 1).drop_last() =~= self@.take(i as int));
            }
            if !self.balance[i].is_zero() {
                match found {
                    None => {
                        found = Some(i);
                    },
                    Some(_) => {
                        proof {
                            lemma_nonzero_prefix(self@, (i + 1) as int);
                        }
                        return Err(BalanceError::TooManyCurrencies(self.copy()));
                    },
                }
            }
        }
        assert(self@.take(n as int) =~= self@);
        match found {
            None => Ok(Money::Zero),
            Some(k) => Ok(self.balance[k].copy()),
        }
    }

    /// Equality of balances, as `Balance::eq` compares them.
    pub fn eq(&self, other: &Balance) -> (res: bool)
        requires
            other.wf(),
        ensures
            res == bal_eq(self@, other@),
    {
        let n = self.balance.len();
        for i in 0..n
            invariant
                n == self.balance.len(),
                other.wf(),
                forall|k: int|
                    0 <= k < i ==> if exists|j: int| 0 <= j < other@.len() && mkey(other@[j]) == mkey(#[trigger] self@[k]) {
                        money_eq(self@[k], other@[choose|j: int| 0 <= j < other@.len() && mkey(other@[j]) == mkey(self@[k])])
                    } else {
                        money_is_zero(self@[k])
                    },
        {
            let v = &self.balance[i];
            match other.find(v) {
                Some(j) => {
                    let ghost c = choose|j: int| 0 <= j < other@.len() && mkey(other@[j]) == mkey(self@[i as int]);
                    assert(c == j);
                    if !other.balance[j].eq(v) {
                        return false;
                    }
                },
                None => {
                    if !v.is_zero() {
                        return false;
                    }
                },
            }
        }
        true
    }
}

/// A prefix of a sequence never has more non-zero moneys than the whole.
proof fn lemma_nonzero_prefix(s: Seq<MoneyV>, n: int)
    requires
        0 <= n <= s.len(),
    ensures
        nonzero(s.take(n)).len() <= nonzero(s).len(),
    decreases s.len() - n,
{
    if n < s.len() {
        lemma_nonzero_prefix(s, n + 1);
        reveal_with_fuel(Seq::filter, 1);
        assert(s.take(n + 1).drop_last() =~= s.take(n));
    } else {
        assert(s.take(n) =~= s);
    }
}

} // verus!
