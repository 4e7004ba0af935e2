//! Properties of the library as a whole, proved over the models that the
//! contracts of its functions use.
use vstd::prelude::*;
use crate::money::{
    MoneyV, bal_can_be_zero, bal_fold, bal_insert, bal_is_zero, bal_neg, keys_distinct, mkey, money_eq,
    money_is_zero, money_neg,
};
use crate::money::nonzero;
use crate::rational::{abs, gcd, lemma_gcd_pos, lemma_normalize_numer_bound, normalize, rat_add, rat_div, rat_eq, rat_mul, rat_neg};
use crate::period::spec_twr;
use crate::transaction::{
    BalanceState, PostingType, PostingV, PriceType, accounts_known, balance_contribution, balance_outcome,
    total_contribution,
    balance_run, balance_step, fill_run,
};
use crate::error::LedgerError;
use crate::chars::{advance, occurrences};
use crate::date::{Date, date_le, days_in_month};
use crate::models::{count_char, first_index_of, last_index_of, lemma_first_index_of, spec_depth, spec_parent_name};
use crate::report::cut;
use crate::filter::{query_fold, spec_preprocess_query, term_expression};
use crate::parser::{header_layout, skip_sp};
use crate::transaction::Cleared;
use crate::text::trim;
use crate::period::{Frequency, quarter_start, spec_period_beginning, spec_period_ending};

verus! {

/// A money whose fraction has a positive denominator, as every `Rational` has.
pub open spec fn money_ok(m: MoneyV) -> bool {
    m.1.1 > 0
}

/// Every money of a balance has a positive denominator.
pub open spec fn bal_ok(s: Seq<MoneyV>) -> bool {
    forall|i: int| 0 <= i < s.len() ==> money_ok(#[trigger] s[i])
}

proof fn lemma_gcd_le(a: nat, b: nat)
    requires
        b > 0,
    ensures
        gcd(a, b) <= b,
    decreases b,
{
    reveal_with_fuel(gcd, 2);
    if a % b != 0 {
        lemma_gcd_le(b, a % b);
        assert(a % b < b);
    }
}

/// Reducing a fraction with a positive denominator keeps it positive.
pub proof fn lemma_normalize_denom(n: int, d: int)
    requires
        d > 0,
    ensures
        normalize(n, d).1 > 0,
{
    lemma_gcd_pos(abs(n), d as nat);
    lemma_gcd_le(abs(n), d as nat);
    let g = gcd(abs(n), d as nat) as int;
    assert(d / g >= 1) by (nonlinear_arith)
        requires
            1 <= g <= d,
    ;
}

/// Zero stays zero when reduced.
pub proof fn lemma_normalize_zero(d: int)
    requires
        d > 0,
    ensures
        normalize(0, d).0 == 0,
{
    lemma_gcd_pos(abs(0), d as nat);
}

pub proof fn lemma_rat_add_ok(a: (int, int), b: (int, int))
    requires
        a.1 > 0,
        b.1 > 0,
    ensures
        rat_add(a, b).1 > 0,
{
    assert(a.1 * b.1 > 0) by (nonlinear_arith)
        requires
            a.1 > 0,
            b.1 > 0,
    ;
    lemma_normalize_denom(a.0 * b.1 + b.0 * a.1, a.1 * b.1);
}

/// Inserting a money keeps the denominators positive and the commodities distinct.
pub proof fn lemma_bal_insert_ok(acc: Seq<MoneyV>, m: MoneyV)
    requires
        bal_ok(acc),
        money_ok(m),
    ensures
        bal_ok(bal_insert(acc, m)),
        keys_distinct(acc) ==> keys_distinct(bal_insert(acc, m)),
{
    if exists|i: int| 0 <= i < acc.len() && mkey(acc[i]) == mkey(m) {
        let i = choose|i: int| 0 <= i < acc.len() && mkey(acc[i]) == mkey(m);
        if m.0 is Some {
            lemma_rat_add_ok(m.1, acc[i].1);
            let r = bal_insert(acc, m);
            assert(r == acc.update(i, (m.0, rat_add(m.1, acc[i].1))));
            assert forall|j: int| 0 <= j < r.len() implies money_ok(#[trigger] r[j]) by {
                if j != i {
                    assert(r[j] == acc[j]);
                }
            }
            assert(mkey(r[i]) == mkey(acc[i]));
            assert forall|j: int, k: int| 0 <= j < k < r.len() && keys_distinct(acc) implies mkey(r[j]) != mkey(r[k]) by {
                assert(mkey(r[j]) == mkey(acc[j]));
                assert(mkey(r[k]) == mkey(acc[k]));
            }
        }
    } else {
        let r = bal_insert(acc, m);
        assert(r == acc.push(m));
        assert forall|j: int| 0 <= j < r.len() implies money_ok(#[trigger] r[j]) by {
            if j < acc.len() {
                assert(r[j] == acc[j]);
            }
        }
        assert forall|j: int, k: int| 0 <= j < k < r.len() && keys_distinct(acc) implies mkey(r[j]) != mkey(r[k]) by {
            assert(r[j] == acc[j]);
            if k == acc.len() {
            } else {
                assert(r[k] == acc[k]);
            }
        }
    }
}

/// Folding moneys keeps the denominators positive and the commodities distinct.
pub proof fn lemma_bal_fold_ok(acc: Seq<MoneyV>, s: Seq<MoneyV>)
    requires
        bal_ok(acc),
        bal_ok(s),
    ensures
        bal_ok(bal_fold(acc, s)),
        keys_distinct(acc) ==> keys_distinct(bal_fold(acc, s)),
    decreases s.len(),
{
    if s.len() > 0 {
        assert(bal_ok(s.drop_last())) by {
            assert forall|i: int| 0 <= i < s.drop_last().len() implies money_ok(#[trigger] s.drop_last()[i]) by {
                assert(s.drop_last()[i] == s[i]);
            }
        }
        lemma_bal_fold_ok(acc, s.drop_last());
        assert(money_ok(s[s.len() - 1]));
        lemma_bal_insert_ok(bal_fold(acc, s.drop_last()), s.last());
    }
}

/// Folding a concatenation is folding one part after the other.
pub proof fn lemma_bal_fold_concat(acc: Seq<MoneyV>, s: Seq<MoneyV>, t: Seq<MoneyV>)
    ensures
        bal_fold(acc, s + t) == bal_fold(bal_fold(acc, s), t),
    decreases t.len(),
{
    if t.len() == 0 {
        assert(s + t =~= s);
    } else {
        assert((s + t).drop_last() =~= s + t.drop_last());
        assert((s + t).last() == t.last());
        lemma_bal_fold_concat(acc, s, t.drop_last());
    }
}

/// After folding the first `k` negated moneys of `b` into `b`, those `k`
/// moneys are zero and the others are untouched.
proof fn lemma_cancel_prefix(b: Seq<MoneyV>, k: int)
    requires
        keys_distinct(b),
        bal_ok(b),
        0 <= k <= b.len(),
    ensures
        bal_fold(b, bal_neg(b).take(k)).len() == b.len(),
        forall|i: int| 0 <= i < b.len() ==> mkey(#[trigger] bal_fold(b, bal_neg(b).take(k))[i]) == mkey(b[i]),
        forall|i: int| 0 <= i < k ==> money_is_zero(#[trigger] bal_fold(b, bal_neg(b).take(k))[i]),
        forall|i: int| k <= i < b.len() ==> #[trigger] bal_fold(b, bal_neg(b).take(k))[i] == b[i],
    decreases k,
{
    if k == 0 {
        assert(bal_neg(b).take(0) =~= Seq::<MoneyV>::empty());
    } else {
        lemma_cancel_prefix(b, k - 1);
        let prev = bal_fold(b, bal_neg(b).take(k - 1));
        assert(bal_neg(b).take(k).drop_last() =~= bal_neg(b).take(k - 1));
        let m = bal_neg(b)[k - 1];
        assert(bal_neg(b).take(k).last() == m);
        assert(m == money_neg(b[k - 1]));
        assert(mkey(m) == mkey(b[k - 1]));
        assert(mkey(prev[k - 1]) == mkey(m));
        let i = choose|i: int| 0 <= i < prev.len() && mkey(prev[i]) == mkey(m);
        assert(i == k - 1) by {
            if i != k - 1 {
                assert(mkey(prev[i]) == mkey(b[i]));
                if i < k - 1 {
                    assert(mkey(b[i]) != mkey(b[k - 1]));
                } else {
                    assert(mkey(b[k - 1]) != mkey(b[i]));
                }
            }
        }
        let r = bal_fold(b, bal_neg(b).take(k));
        assert(r == bal_insert(prev, m));
        assert(prev[k - 1] == b[k - 1]);
        assert(money_ok(b[k - 1]));
        if m.0 is Some {
            assert(r == prev.update(k - 1, (m.0, rat_add(m.1, prev[k - 1].1))));
            let d = b[k - 1].1.1;
            let n = b[k - 1].1.0;
            assert(m.1 == (-n, d));
            assert(-n * d + n * d == 0) by (nonlinear_arith);
            assert(d * d > 0) by (nonlinear_arith)
                requires
                    d > 0,
            ;
            lemma_normalize_zero(d * d);
            assert(rat_add(m.1, prev[k - 1].1) == normalize(0, d * d));
        } else {
            assert(r == prev);
        }
    }
}

/// A balance minus itself is zero: adding the negation of every money of a
/// balance to the balance leaves only zero amounts.
pub proof fn law_balance_minus_itself_is_zero(b: Seq<MoneyV>)
    requires
        keys_distinct(b),
        bal_ok(b),
    ensures
        bal_is_zero(bal_fold(b, bal_neg(b))),
{
    lemma_cancel_prefix(b, b.len() as int);
    assert(bal_neg(b).take(b.len() as int) =~= bal_neg(b));
}

/// Negating a money twice gives it back.
pub proof fn law_money_neg_involution(m: MoneyV)
    ensures
        money_neg(money_neg(m)) == m,
{
}

/// Negating a balance twice gives it back.
pub proof fn law_balance_neg_involution(b: Seq<MoneyV>)
    ensures
        bal_neg(bal_neg(b)) == b,
{
    assert(bal_neg(bal_neg(b)) =~= b);
}

/// Equality of money is symmetric.
pub proof fn law_money_eq_symmetric(a: MoneyV, b: MoneyV)
    ensures
        money_eq(a, b) == money_eq(b, a),
{
}

/// Addition of exact amounts does not depend on the order of the operands.
pub proof fn law_rat_add_commutative(a: (int, int), b: (int, int))
    ensures
        rat_add(a, b) == rat_add(b, a),
{
    assert(a.1 * b.1 == b.1 * a.1) by (nonlinear_arith);
}

/// What the postings of a balanced transaction add to its balance: each
/// amount, converted by its cost.
pub open spec fn out_contributions(ps: Seq<PostingV>) -> Seq<MoneyV>
    decreases ps.len(),
{
    if ps.len() == 0 {
        seq![]
    } else if ps.last().1 is Some {
        out_contributions(ps.drop_last()).push(balance_contribution(ps.last()))
    } else {
        out_contributions(ps.drop_last())
    }
}

/// Every money of a posting has a positive denominator.
pub open spec fn posting_ok(p: PostingV) -> bool {
    &&& (p.1 matches Some(a) ==> money_ok(a))
    &&& (p.2 matches Some(b) ==> money_ok(b))
    &&& (p.3 matches Some(c) ==> money_ok(c.1))
}

pub open spec fn postings_ok(ps: Seq<PostingV>) -> bool {
    forall|i: int| 0 <= i < ps.len() ==> posting_ok(#[trigger] ps[i])
}

pub open spec fn balances_ok(bals: Map<Seq<char>, Seq<MoneyV>>) -> bool {
    forall|k: Seq<char>| #[trigger] bals.contains_key(k) ==> bal_ok(bals[k])
}

/// A posting that only asserts a balance has no cost.
pub open spec fn fills_have_no_cost(ps: Seq<PostingV>) -> bool {
    forall|i: int| 0 <= i < ps.len() ==> ((#[trigger] ps[i]).1 is None && ps[i].2 is Some ==> ps[i].3 is None)
}

proof fn lemma_contribution_ok(p: PostingV)
    requires
        posting_ok(p),
        p.1 is Some,
    ensures
        money_ok(balance_contribution(p)),
{
    match p.3 {
        None => {},
        Some(c) => {
            if c.0 != PriceType::Total {
                let a = p.1.unwrap();
                let cf: (int, int) = (c.1).1;
                let af: (int, int) = a.1;
                assert(money_ok(c.1));
                assert(cf.1 * af.1 > 0) by (nonlinear_arith)
                    requires
                        cf.1 > 0,
                        af.1 > 0,
                ;
                lemma_normalize_denom(cf.0 * af.0, cf.1 * af.1);
            }
        },
    }
}

/// The invariant of a run of `balance_step`: the balance of the transaction
/// is what the postings kept so far contribute, every balance keeps
/// positive denominators, and no account appears or disappears.
pub open spec fn run_inv(s: BalanceState, dom: Set<Seq<char>>) -> bool {
    &&& s.1 == bal_fold(seq![], out_contributions(s.2))
    &&& balances_ok(s.0)
    &&& bal_ok(s.1)
    &&& keys_distinct(s.1)
    &&& s.0.dom() == dom
    &&& (s.3 matches Some(a) ==> dom.contains(a.name@))
}

proof fn lemma_step_inv(s: BalanceState, p: PostingV, skip: bool, dom: Set<Seq<char>>)
    requires
        run_inv(s, dom),
        posting_ok(p),
        p.1 is None && p.2 is Some ==> p.3 is None,
        dom.contains(p.0.name@),
        balance_step(s, p, skip) is Ok,
    ensures
        run_inv(balance_step(s, p, skip)->Ok_0, dom),
        (balance_step(s, p, skip)->Ok_0).2.len() <= s.2.len() + 1,
        (balance_step(s, p, skip)->Ok_0).3 is None ==> s.3 is None && (balance_step(s, p, skip)->Ok_0).2.len()
            == s.2.len() + 1,
{
    let name = p.0.name@;
    let r = balance_step(s, p, skip)->Ok_0;
    assert(s.0.contains_key(name));
    assert(bal_ok(s.0[name]));
    match p.1 {
        Some(a) => {
            lemma_bal_insert_ok(s.0[name], a);
            lemma_contribution_ok(p);
            lemma_bal_insert_ok(s.1, balance_contribution(p));
            let q = (p.0, p.1, None::<MoneyV>, p.3, PostingType::Real);
            assert(r.2 == s.2.push(q));
            assert(r.2.drop_last() =~= s.2);
            assert(out_contributions(r.2) == out_contributions(s.2).push(balance_contribution(p)));
            assert forall|k: Seq<char>| #[trigger] r.0.contains_key(k) implies bal_ok(r.0[k]) by {
                if k != name {
                    assert(s.0.contains_key(k));
                }
            }
            assert(r.0.dom() =~= dom);
            let t = out_contributions(s.2);
            assert(t.push(balance_contribution(p)).drop_last() =~= t);
            assert(t.push(balance_contribution(p)).last() == balance_contribution(p));
            assert(bal_fold(seq![], t.push(balance_contribution(p))) == bal_insert(bal_fold(seq![], t), balance_contribution(p)));
            assert(r.1 == bal_fold(seq![], out_contributions(r.2)));
        },
        None => {
            if p.2 is Some && !skip {
                let b = p.2.unwrap();
                let folded = bal_fold(seq![b], bal_neg(s.0[name]));
                assert(bal_ok(seq![b])) by {
                    assert forall|i: int| 0 <= i < seq![b].len() implies money_ok(#[trigger] seq![b][i]) by {}
                }
                assert(bal_ok(bal_neg(s.0[name]))) by {
                    assert forall|i: int| 0 <= i < bal_neg(s.0[name]).len() implies money_ok(#[trigger] bal_neg(s.0[name])[i]) by {
                        assert(money_ok(s.0[name][i]));
                    }
                }
                lemma_bal_fold_ok(seq![b], bal_neg(s.0[name]));
                let nz = nonzero(folded);
                let money: MoneyV = if nz.len() == 0 {
                    (None, (0, 1))
                } else {
                    nz[0]
                };
                if nz.len() > 0 {
                    assert(nz.contains(nz[0]));
                    folded.lemma_filter_contains_rev(|m: MoneyV| !money_is_zero(m), nz[0]);
                    let w = choose|w: int| 0 <= w < folded.len() && folded[w] == nz[0];
                    assert(money_ok(folded[w]));
                }
                assert(money_ok(money));
                lemma_bal_insert_ok(s.1, money);
                if nz.len() > 0 {
                    lemma_bal_insert_ok(s.0[name], money);
                    assert forall|k: Seq<char>| #[trigger] r.0.contains_key(k) implies bal_ok(r.0[k]) by {
                        if k != name {
                            assert(s.0.contains_key(k));
                        }
                    }
                    assert(r.0.dom() =~= dom);
                }
                let q = (p.0, Some(money), None::<MoneyV>, p.3, PostingType::Real);
                assert(r.2 == s.2.push(q));
                assert(r.2.drop_last() =~= s.2);
                assert(balance_contribution(q) == money);
                assert(out_contributions(r.2) == out_contributions(s.2).push(money));
                let t = out_contributions(s.2);
                assert(t.push(money).drop_last() =~= t);
                assert(bal_fold(seq![], t.push(money)) == bal_insert(bal_fold(seq![], t), money));
                assert(r.1 == bal_fold(seq![], out_contributions(r.2)));
            } else {
                assert(r == (s.0, s.1, s.2, Some(p.0)));
            }
        },
    }
}

/// The invariant holds along a whole run.
proof fn lemma_run_inv(st: BalanceState, ps: Seq<PostingV>, skip: bool, dom: Set<Seq<char>>)
    requires
        run_inv(st, dom),
        postings_ok(ps),
        fills_have_no_cost(ps),
        forall|i: int| 0 <= i < ps.len() ==> dom.contains((#[trigger] ps[i]).0.name@),
        balance_run(st, ps, skip) is Ok,
    ensures
        run_inv(balance_run(st, ps, skip)->Ok_0, dom),
        (balance_run(st, ps, skip)->Ok_0).2.len() <= st.2.len() + ps.len(),
        (balance_run(st, ps, skip)->Ok_0).3 is None ==> st.3 is None && (balance_run(st, ps, skip)->Ok_0).2.len()
            == st.2.len() + ps.len(),
    decreases ps.len(),
{
    if ps.len() > 0 {
        let pre = ps.drop_last();
        assert(postings_ok(pre)) by {
            assert forall|i: int| 0 <= i < pre.len() implies posting_ok(#[trigger] pre[i]) by {
                assert(pre[i] == ps[i]);
            }
        }
        assert(fills_have_no_cost(pre)) by {
            assert forall|i: int| 0 <= i < pre.len() implies ((#[trigger] pre[i]).1 is None && pre[i].2 is Some ==> pre[i].3 is None) by {
                assert(pre[i] == ps[i]);
            }
        }
        assert forall|i: int| 0 <= i < pre.len() implies dom.contains((#[trigger] pre[i]).0.name@) by {
            assert(pre[i] == ps[i]);
        }
        lemma_run_inv(st, pre, skip, dom);
        let s = balance_run(st, pre, skip)->Ok_0;
        let last = ps[ps.len() - 1];
        assert(ps.last() == last);
        lemma_step_inv(s, last, skip, dom);
    }
}

/// The postings that fill the empty posting contribute their amounts.
proof fn lemma_fill_contributions(
    bals: Map<Seq<char>, Seq<MoneyV>>,
    out: Seq<PostingV>,
    fill: std::rc::Rc<crate::models::Account>,
    ms: Seq<MoneyV>,
)
    ensures
        out_contributions(fill_run(bals, out, fill, ms).1) == out_contributions(out) + ms,
    decreases ms.len(),
{
    if ms.len() == 0 {
        assert(out_contributions(out) + ms =~= out_contributions(out));
    } else {
        lemma_fill_contributions(bals, out, fill, ms.drop_last());
        let o = fill_run(bals, out, fill, ms.drop_last()).1;
        let q = (fill, Some(ms.last()), None::<MoneyV>, None::<(PriceType, MoneyV)>, PostingType::Real);
        assert(fill_run(bals, out, fill, ms).1 == o.push(q));
        assert(o.push(q).drop_last() =~= o);
        assert(out_contributions(out) + ms =~= (out_contributions(out) + ms.drop_last()).push(ms.last()));
    }
}

/// A transaction that `balance` accepts balances: the amounts of its new
/// postings, each converted by its cost, can add up to zero. When the
/// empty posting was filled, they add up to exactly zero.
pub proof fn law_balanced_transaction_balances(
    ps: Seq<PostingV>,
    vb: Seq<MoneyV>,
    bals: Map<Seq<char>, Seq<MoneyV>>,
    skip: bool,
)
    requires
        balance_outcome(ps, vb, bals, skip).0 is Ok,
        accounts_known(ps, bals),
        balances_ok(bals),
        postings_ok(ps),
        fills_have_no_cost(ps),
    ensures
        bal_can_be_zero(bal_fold(seq![], out_contributions(balance_outcome(ps, vb, bals, skip).1))),
        balance_outcome(ps, vb, bals, skip).0 == Ok::<Seq<MoneyV>, LedgerError>(seq![]) ==> bal_is_zero(
            bal_fold(seq![], out_contributions(balance_outcome(ps, vb, bals, skip).1)),
        ),
{
    let st: BalanceState = (bals, seq![], seq![], None);
    assert(out_contributions(Seq::<PostingV>::empty()) == Seq::<MoneyV>::empty());
    assert(bal_fold(seq![], Seq::<MoneyV>::empty()) == Seq::<MoneyV>::empty());
    assert(run_inv(st, bals.dom()));
    assert forall|i: int| 0 <= i < ps.len() implies bals.dom().contains((#[trigger] ps[i]).0.name@) by {
        assert(bals.contains_key(ps[i].0.name@));
    }
    assert(bal_can_be_zero(vb));
    assert(balance_run(st, ps, skip) is Ok);
    lemma_run_inv(st, ps, skip, bals.dom());
    let s = balance_run(st, ps, skip)->Ok_0;
    let empties = ps.len() - s.2.len();
    assert(0 <= empties <= 1);
    if empties == 0 {
        assert(balance_outcome(ps, vb, bals, skip).1 == s.2);
        assert(balance_outcome(ps, vb, bals, skip).0 == Ok::<Seq<MoneyV>, LedgerError>(s.1));
        assert(bal_fold(seq![], out_contributions(s.2)) == s.1);
        if s.1 == Seq::<MoneyV>::empty() {
            assert(bal_is_zero(s.1));
        }
    } else {
        let fill = s.3.unwrap();
        let o = fill_run(s.0, s.2, fill, bal_neg(s.1)).1;
        assert(balance_outcome(ps, vb, bals, skip).1 == o);
        lemma_fill_contributions(s.0, s.2, fill, bal_neg(s.1));
        lemma_bal_fold_concat(seq![], out_contributions(s.2), bal_neg(s.1));
        law_balance_minus_itself_is_zero(s.1);
        assert(bal_fold(seq![], out_contributions(o)) == bal_fold(s.1, bal_neg(s.1)));
    }
}

/// Filling keeps every balance valid and every account.
proof fn lemma_fill_run_ok(
    bals: Map<Seq<char>, Seq<MoneyV>>,
    out: Seq<PostingV>,
    fill: std::rc::Rc<crate::models::Account>,
    ms: Seq<MoneyV>,
)
    requires
        balances_ok(bals),
        bal_ok(ms),
        bals.contains_key(fill.name@),
    ensures
        balances_ok(fill_run(bals, out, fill, ms).0),
        fill_run(bals, out, fill, ms).0.dom() == bals.dom(),
    decreases ms.len(),
{
    if ms.len() > 0 {
        let pre = ms.drop_last();
        assert(bal_ok(pre)) by {
            assert forall|i: int| 0 <= i < pre.len() implies money_ok(#[trigger] pre[i]) by {
                assert(pre[i] == ms[i]);
            }
        }
        lemma_fill_run_ok(bals, out, fill, pre);
        let b = fill_run(bals, out, fill, pre).0;
        assert(b.contains_key(fill.name@));
        assert(money_ok(ms[ms.len() - 1]));
        lemma_bal_insert_ok(b[fill.name@], ms.last());
        let b2 = fill_run(bals, out, fill, ms).0;
        assert(b2 == b.insert(fill.name@, bal_insert(b[fill.name@], ms.last())));
        assert forall|k: Seq<char>| #[trigger] b2.contains_key(k) implies bal_ok(b2[k]) by {
            if k != fill.name@ {
                assert(b.contains_key(k));
            }
        }
        assert(b2.dom() =~= b.dom());
    }
}

/// Balancing a transaction keeps every running balance valid and every
/// account.
pub proof fn lemma_balance_outcome_ok(ps: Seq<PostingV>, vb: Seq<MoneyV>, bals: Map<Seq<char>, Seq<MoneyV>>, skip: bool)
    requires
        balance_outcome(ps, vb, bals, skip).0 is Ok,
        accounts_known(ps, bals),
        balances_ok(bals),
        postings_ok(ps),
        fills_have_no_cost(ps),
    ensures
        balances_ok(balance_outcome(ps, vb, bals, skip).2),
        balance_outcome(ps, vb, bals, skip).2.dom() == bals.dom(),
{
    let st: BalanceState = (bals, seq![], seq![], None);
    assert(out_contributions(Seq::<PostingV>::empty()) == Seq::<MoneyV>::empty());
    assert(bal_fold(seq![], Seq::<MoneyV>::empty()) == Seq::<MoneyV>::empty());
    assert(run_inv(st, bals.dom()));
    assert forall|i: int| 0 <= i < ps.len() implies bals.dom().contains((#[trigger] ps[i]).0.name@) by {
        assert(bals.contains_key(ps[i].0.name@));
    }
    lemma_run_inv(st, ps, skip, bals.dom());
    let s = balance_run(st, ps, skip)->Ok_0;
    let empties = ps.len() - s.2.len();
    if empties == 1 {
        let fill = s.3.unwrap();
        assert(bal_ok(bal_neg(s.1))) by {
            assert forall|i: int| 0 <= i < bal_neg(s.1).len() implies money_ok(#[trigger] bal_neg(s.1)[i]) by {
                assert(money_ok(s.1[i]));
            }
        }
        lemma_fill_run_ok(s.0, s.2, fill, bal_neg(s.1));
    }
}

/// A period starts no later than, and ends no earlier than, any of its days.
pub proof fn law_period_contains_date(d: Date, f: Frequency)
    requires
        d.wf(),
    ensures
        date_le(spec_period_beginning(d, f), d),
        date_le(d, spec_period_ending(d, f)),
{
    let q = quarter_start(d.month as int);
    assert(q <= d.month <= q + 2);
}

/// The line counter is the number of newlines read.
pub proof fn law_lines_count_newlines(c: Seq<char>, from: int, to: int, li: int, lp: int)
    requires
        0 <= from <= to <= c.len(),
    ensures
        advance(c, from, to, li, lp).0 == li + occurrences(c.subrange(from, to), '\n'),
    decreases to - from,
{
    if to > from {
        law_lines_count_newlines(c, from, to - 1, li, lp);
        assert(c.subrange(from, to).drop_last() =~= c.subrange(from, to - 1));
        assert(c.subrange(from, to).last() == c[to - 1]);
    }
}

proof fn lemma_count_char_take(s: Seq<char>, c: char, k: int)
    requires
        0 <= k < s.len(),
        s[k] == c,
        forall|i: int| k < i < s.len() ==> s[i] != c,
    ensures
        count_char(s, c) == count_char(s.take(k), c) + 1,
    decreases s.len(),
{
    if s.len() - 1 == k {
        assert(s.drop_last() =~= s.take(k));
    } else {
        assert(s.drop_last().take(k) =~= s.take(k));
        lemma_count_char_take(s.drop_last(), c, k);
    }
}

proof fn lemma_last_index_props(s: Seq<char>, c: char)
    ensures
        last_index_of(s, c) >= 0 ==> s[last_index_of(s, c)] == c && forall|i: int|
            last_index_of(s, c) < i < s.len() ==> s[i] != c,
        last_index_of(s, c) < s.len(),
        last_index_of(s, c) < 0 ==> count_char(s, c) == 0,
        count_char(s, c) > 0 ==> last_index_of(s, c) >= 0,
    decreases s.len(),
{
    if s.len() > 0 {
        lemma_last_index_props(s.drop_last(), c);
        if s.last() != c {
            assert forall|i: int| 0 <= i < s.len() - 1 implies s[i] == s.drop_last()[i] by {}
        }
    }
}

/// An account has a parent exactly when it has more than one level.
pub proof fn law_parent_iff_deeper(name: Seq<char>)
    ensures
        (spec_parent_name(name) is Some) == (spec_depth(name) > 1),
{
}

/// A blank word of a query changes nothing in the search expression.
pub proof fn law_blank_terms_are_ignored(terms: Seq<String>, blank: String)
    requires
        trim(blank@).len() == 0,
    ensures
        spec_preprocess_query(terms.push(blank)) == spec_preprocess_query(terms),
{
    assert(terms.push(blank).drop_last() =~= terms);
}

/// Removing a blank word anywhere in a query leaves the expansion as it was.
proof fn lemma_fold_without_blank(terms: Seq<String>, i: int)
    requires
        0 <= i < terms.len(),
        trim(terms[i]@).len() == 0,
    ensures
        query_fold(terms.remove(i)) == query_fold(terms),
    decreases terms.len(),
{
    if i == terms.len() - 1 {
        assert(terms.remove(i) =~= terms.drop_last());
    } else {
        lemma_fold_without_blank(terms.drop_last(), i);
        assert(terms.remove(i).drop_last() =~= terms.drop_last().remove(i));
        assert(terms.remove(i).last() == terms.last());
    }
}

/// A blank word anywhere in a query changes nothing in the search
/// expression.
pub proof fn law_blank_term_anywhere_is_ignored(terms: Seq<String>, i: int)
    requires
        0 <= i < terms.len(),
        trim(terms[i]@).len() == 0,
    ensures
        spec_preprocess_query(terms.remove(i)) == spec_preprocess_query(terms),
{
    lemma_fold_without_blank(terms, i);
}

/// Replacing a word by the same word with other blank space around it
/// leaves the expansion as it was.
proof fn lemma_fold_padded(terms: Seq<String>, i: int, t: String)
    requires
        0 <= i < terms.len(),
        trim(t@) == trim(terms[i]@),
    ensures
        query_fold(terms.update(i, t)) == query_fold(terms),
    decreases terms.len(),
{
    if i == terms.len() - 1 {
        assert(terms.update(i, t).drop_last() =~= terms.drop_last());
    } else {
        lemma_fold_padded(terms.drop_last(), i, t);
        assert(terms.update(i, t).drop_last() =~= terms.drop_last().update(i, t));
        assert(terms.update(i, t).last() == terms.last());
    }
}

/// Blank space around a word of a query changes nothing in the search
/// expression.
pub proof fn law_padded_term_is_the_same(terms: Seq<String>, i: int, t: String)
    requires
        0 <= i < terms.len(),
        trim(t@) == trim(terms[i]@),
    ensures
        spec_preprocess_query(terms.update(i, t)) == spec_preprocess_query(terms),
{
    lemma_fold_padded(terms, i, t);
}

/// A word of a query that is neither blank nor a keyword.
pub open spec fn content_term(raw: Seq<char>) -> bool {
    let term = trim(raw);
    term.len() != 0 && term != "and"@ && term != "or"@ && term != "expr"@
}

proof fn lemma_fold_empty(terms: Seq<String>)
    ensures
        (query_fold(terms).0.len() == 0) == (forall|i: int| 0 <= i < terms.len() ==> !content_term(#[trigger] terms[i]@)),
    decreases terms.len(),
{
    if terms.len() > 0 {
        let d = terms.drop_last();
        lemma_fold_empty(d);
        let prev = query_fold(d);
        let last = terms.last();
        assert(query_fold(terms) == crate::filter::query_step(prev, last@));
        assert(terms[terms.len() - 1] == last);
        if !content_term(last@) {
            assert(query_fold(terms).0 == prev.0);
            if forall|i: int| 0 <= i < d.len() ==> !content_term(#[trigger] d[i]@) {
                assert forall|i: int| 0 <= i < terms.len() implies !content_term(#[trigger] terms[i]@) by {
                    if i < d.len() {
                        assert(terms[i] == d[i]);
                    }
                }
            } else {
                let k = choose|k: int| 0 <= k < d.len() && content_term(#[trigger] d[k]@);
                assert(terms[k] == d[k]);
            }
        } else {
            reveal_strlit(")");
            assert(query_fold(terms).0.len() > 0);
        }
    }
}

/// The search expression is `()` exactly when the query has no word but
/// blanks and keywords.
pub proof fn law_empty_query_expression(terms: Seq<String>)
    ensures
        (spec_preprocess_query(terms) == "()"@) == (forall|i: int| 0 <= i < terms.len() ==> !content_term(
            #[trigger] terms[i]@,
        )),
{
    lemma_fold_empty(terms);
    reveal_strlit("()");
    reveal_strlit("(");
    reveal_strlit(")");
    let e = query_fold(terms).0;
    if spec_preprocess_query(terms) == "()"@ {
        assert(("("@ + e + ")"@).len() == e.len() + 2);
    } else if e.len() == 0 {
        assert("("@ + e + ")"@ =~= "()"@);
    }
}

/// An account is one level below its parent.
pub proof fn law_parent_is_one_level_up(name: Seq<char>)
    requires
        spec_parent_name(name) is Some,
    ensures
        spec_depth(spec_parent_name(name).unwrap()) + 1 == spec_depth(name),
{
    lemma_last_index_props(name, ':');
    let k = last_index_of(name, ':');
    lemma_count_char_take(name, ':', k);
}


/// Two words of a query with no keyword between them are joined with `or`,
/// whatever came before them: an `and` joins only the word right after it.
pub proof fn law_adjacent_terms_are_joined_with_or(terms: Seq<String>, a: String, b: String)
    requires
        content_term(a@),
        content_term(b@),
    ensures
        query_fold(terms.push(a).push(b)).0 == query_fold(terms.push(a)).0 + " or ("@ + term_expression(trim(b@))
            + ")"@,
{
    assert(terms.push(a).drop_last() =~= terms);
    assert(terms.push(a).push(b).drop_last() =~= terms.push(a));
    reveal_strlit("and");
    reveal_strlit("or");
    reveal_strlit("expr");
}

/// The keyword `and` joins the word that follows it with `and`.
pub proof fn law_and_joins_the_next_term(terms: Seq<String>, a: String, k: String, b: String)
    requires
        content_term(a@),
        trim(k@) == "and"@,
        content_term(b@),
    ensures
        query_fold(terms.push(a).push(k).push(b)).0 == query_fold(terms.push(a)).0 + " and ("@ + term_expression(
            trim(b@),
        ) + ")"@,
{
    assert(terms.push(a).drop_last() =~= terms);
    assert(terms.push(a).push(k).drop_last() =~= terms.push(a));
    assert(terms.push(a).push(k).push(b).drop_last() =~= terms.push(a).push(k));
    reveal_strlit("and");
    reveal_strlit("or");
    reveal_strlit("expr");
    let s1 = query_fold(terms.push(a));
    assert(s1.1 == false && s1.2 == false && s1.3 == false);
    let s2 = query_fold(terms.push(a).push(k));
    assert(s2 == crate::filter::query_step(s1, k@));
    assert(s2 == (s1.0, true, false, false));
    assert(query_fold(terms.push(a).push(k).push(b)) == crate::filter::query_step(s2, b@));
}

proof fn lemma_skip_sp_to(s: Seq<char>, i: int, a: int)
    requires
        0 <= i <= a < s.len(),
        forall|j: int| i <= j < a ==> s[j] == ' ',
        s[a] != ' ',
    ensures
        skip_sp(s, i) == a,
    decreases a - i,
{
    if i < a {
        lemma_skip_sp_to(s, i + 1, a);
    }
}

/// The flag of a transaction's first line: after the date and the blank
/// space that follows it, a `*` and a space mark the transaction cleared,
/// a `!` and a space mark it not cleared.
pub proof fn law_header_flag(s: Seq<char>, a: int)
    requires
        10 < a,
        a + 1 < s.len(),
        forall|j: int| 10 <= j < a ==> s[j] == ' ',
        s[a] == '*' || s[a] == '!',
        s[a + 1] == ' ',
    ensures
        header_layout(s) matches Some((_, _, c, _, _)) && (c == Cleared::Cleared) == (s[a] == '*') && (c
            == Cleared::NotCleared) == (s[a] == '!'),
{
    lemma_skip_sp_to(s, 10, a);
}


/// The greatest common divisor divides both numbers.
proof fn lemma_gcd_divides(a: nat, b: nat)
    requires
        a > 0 || b > 0,
    ensures
        gcd(a, b) > 0,
        gcd(a, b) * (a as int / gcd(a, b) as int) == a,
        gcd(a, b) * (b as int / gcd(a, b) as int) == b,
    decreases b,
{
    lemma_gcd_pos(a, b);
    if b == 0 {
        vstd::arithmetic::div_mod::lemma_div_multiples_vanish(1, a as int);
        vstd::arithmetic::div_mod::lemma_div_multiples_vanish(0, a as int);
        assert(gcd(a, b) == a);
        assert(a as int * 0 == 0);
    } else {
        let r = a % b;
        lemma_gcd_divides(b, r);
        let g = gcd(b, r) as int;
        assert(gcd(a, b) == gcd(b, r));
        vstd::arithmetic::div_mod::lemma_fundamental_div_mod(a as int, b as int);
        let x = b as int / g;
        let y = r as int / g;
        let q = a as int / b as int;
        assert(a == g * (x * q + y)) by (nonlinear_arith)
            requires
                a == b * q + r,
                b == g * x,
                r == g * y,
        ;
        vstd::arithmetic::div_mod::lemma_div_multiples_vanish(x * q + y, g);
    }
}

/// Reducing a fraction keeps its value: `normalize(n, d)` is `n / d`.
proof fn lemma_normalize_value(n: int, d: int)
    requires
        d > 0,
    ensures
        normalize(n, d).0 * d == n * normalize(n, d).1,
        normalize(n, d).1 > 0,
        (normalize(n, d).0 == 0) == (n == 0),
{
    lemma_normalize_denom(n, d);
    lemma_gcd_divides(abs(n), d as nat);
    let g = gcd(abs(n), d as nat) as int;
    let q = abs(n) as int / g;
    if n >= 0 {
        assert(n == g * q);
    } else {
        assert(n == g * (-q)) by (nonlinear_arith)
            requires
                -n == g * q,
        ;
        vstd::arithmetic::div_mod::lemma_div_multiples_vanish(-q, g);
    }
    assert(n == g * (n / g));
    let e = d / g;
    assert(d == g * e);
    assert((n / g) * d == n * e) by (nonlinear_arith)
        requires
            n == g * (n / g),
            d == g * e,
    ;
    assert((n / g == 0) == (n == 0)) by (nonlinear_arith)
        requires
            n == g * (n / g),
            g > 0,
    ;
}

/// A cost counts towards the balance of a transaction with the sign of the
/// posting's amount, for a positive cost: selling (a negative amount) at a
/// total cost (`@@`) brings the cost in negated, buying brings it in as it
/// is; a per unit cost (`@`) brings in the price times the amount.
pub proof fn law_contribution_has_the_sign_of_the_amount(p: PostingV)
    requires
        p.1 matches Some(a) && a.0 is Some && a.1.1 > 0 && a.1.0 != 0,
        p.3 matches Some(c) && c.1.0 is Some && c.1.1.0 > 0 && c.1.1.1 > 0,
    ensures
        balance_contribution(p).0 == p.3.unwrap().1.0,
        balance_contribution(p).1.0 != 0,
        (balance_contribution(p).1.0 < 0) == (p.1.unwrap().1.0 < 0),
        p.3.unwrap().0 == PriceType::Total ==> abs(balance_contribution(p).1.0) == p.3.unwrap().1.1.0
            && balance_contribution(p).1.1 == p.3.unwrap().1.1.1,
{
    let a = p.1.unwrap();
    let c = p.3.unwrap();
    if c.0 != PriceType::Total {
        let n = c.1.1.0 * a.1.0;
        let d = c.1.1.1 * a.1.1;
        assert(d > 0 && (n < 0) == (a.1.0 < 0) && n != 0) by (nonlinear_arith)
            requires
                c.1.1.0 > 0,
                c.1.1.1 > 0,
                a.1.1 > 0,
                a.1.0 != 0,
                n == c.1.1.0 * a.1.0,
                d == c.1.1.1 * a.1.1,
        ;
        lemma_normalize_numer_bound(n, d);
        lemma_normalize_value(n, d);
    }
}

/// In the sum that decides whether a transaction is balanced, a total cost
/// (`@@`) also counts with the sign of the posting's amount.
pub proof fn law_total_cost_has_the_sign_of_the_amount(p: PostingV)
    requires
        p.1 matches Some(a) && a.0 is Some && a.1.0 != 0,
        p.3 matches Some(c) && c.0 == PriceType::Total && c.1.0 is Some && c.1.1.0 > 0,
    ensures
        total_contribution(p).0 == p.3.unwrap().1.0,
        (total_contribution(p).1.0 < 0) == (p.1.unwrap().1.0 < 0),
        abs(total_contribution(p).1.0) == p.3.unwrap().1.1.0,
        total_contribution(p).1.1 == p.3.unwrap().1.1.1,
{
}


/// The sum of two fractions has the value `(a.0 * b.1 + b.0 * a.1) / (a.1 * b.1)`.
proof fn lemma_rat_add_value(a: (int, int), b: (int, int))
    requires
        a.1 > 0,
        b.1 > 0,
    ensures
        rat_add(a, b).0 * (a.1 * b.1) == (a.0 * b.1 + b.0 * a.1) * rat_add(a, b).1,
        rat_add(a, b).1 > 0,
{
    assert(a.1 * b.1 > 0) by (nonlinear_arith)
        requires
            a.1 > 0,
            b.1 > 0,
    ;
    lemma_normalize_value(a.0 * b.1 + b.0 * a.1, a.1 * b.1);
}

/// The quotient `q` of two fractions satisfies `q * y == x`.
proof fn lemma_rat_div_value(x: (int, int), y: (int, int))
    requires
        x.1 > 0,
        y.1 > 0,
        y.0 != 0,
    ensures
        rat_div(x, y).0 * x.1 * y.0 == x.0 * y.1 * rat_div(x, y).1,
        rat_div(x, y).1 > 0,
{
    let q = rat_div(x, y);
    if y.0 < 0 {
        assert(-(x.1 * y.0) > 0) by (nonlinear_arith)
            requires
                x.1 > 0,
                y.0 < 0,
        ;
        lemma_normalize_value(-(x.0 * y.1), -(x.1 * y.0));
        assert(q.0 * x.1 * y.0 == x.0 * y.1 * q.1) by (nonlinear_arith)
            requires
                q.0 * (-(x.1 * y.0)) == -(x.0 * y.1) * q.1,
        ;
    } else {
        assert(x.1 * y.0 > 0) by (nonlinear_arith)
            requires
                x.1 > 0,
                y.0 > 0,
        ;
        lemma_normalize_value(x.0 * y.1, x.1 * y.0);
        assert(q.0 * x.1 * y.0 == x.0 * y.1 * q.1) by (nonlinear_arith)
            requires
                q.0 * (x.1 * y.0) == (x.0 * y.1) * q.1,
        ;
    }
}

/// With nothing at the start of a period and a cash flow, the time weighted
/// return `r` satisfies `r * flow == -(end + flow)`: what the period ended
/// with beyond the money put in, over that money. Ending with more than was
/// put in (`end > -flow > 0`) is a positive return.
pub proof fn law_twr_from_nothing(initial: (int, int), end: (int, int), flow: (int, int))
    requires
        initial.0 == 0,
        flow.0 != 0,
        end.1 > 0,
        flow.1 > 0,
    ensures
        spec_twr(initial, end, flow) matches Some(r) && r.1 > 0 && r.0 * flow.0 * (end.1 * flow.1) == -(end.0
            * flow.1 + flow.0 * end.1) * (r.1 * flow.1),
        flow.0 < 0 && end.0 * flow.1 + flow.0 * end.1 > 0 ==> spec_twr(initial, end, flow).unwrap().0 > 0,
{
    let s = rat_add(end, flow);
    lemma_rat_add_value(end, flow);
    let ns = rat_neg(s);
    lemma_rat_div_value(ns, flow);
    let r = rat_div(ns, flow);
    assert(spec_twr(initial, end, flow) == Some(r));
    let n = end.0 * flow.1 + flow.0 * end.1;
    let e = end.1 * flow.1;
    let x = r.0 * flow.0;
    assert(x * s.1 == -s.0 * flow.1 * r.1) by (nonlinear_arith)
        requires
            r.0 * s.1 * flow.0 == (-s.0) * flow.1 * r.1,
            x == r.0 * flow.0,
    ;
    assert(s.1 * (x * e + n * flow.1 * r.1) == 0) by (nonlinear_arith)
        requires
            x * s.1 == -s.0 * flow.1 * r.1,
            s.0 * e == n * s.1,
    ;
    assert(x * e == -n * (r.1 * flow.1)) by (nonlinear_arith)
        requires
            s.1 * (x * e + n * flow.1 * r.1) == 0,
            s.1 > 0,
    ;
    if flow.0 < 0 && n > 0 {
        assert(r.0 > 0) by (nonlinear_arith)
            requires
                r.0 * flow.0 * e == -n * (r.1 * flow.1),
                e == end.1 * flow.1,
                end.1 > 0,
                flow.1 > 0,
                r.1 > 0,
                n > 0,
                flow.0 < 0,
        ;
    }
}


/// With money at the start of a period, the time weighted return `r`
/// satisfies `r * initial == end - initial + flow`: the gain of the period
/// over what it started with.
pub proof fn law_twr_relative_gain(initial: (int, int), end: (int, int), flow: (int, int))
    requires
        initial.0 != 0,
        initial.1 > 0,
        end.1 > 0,
        flow.1 > 0,
    ensures
        spec_twr(initial, end, flow) matches Some(r) && r.1 > 0 && r.0 * initial.0 * (end.1 * initial.1 * flow.1) == (
        (end.0 * initial.1 - initial.0 * end.1) * flow.1 + flow.0 * (end.1 * initial.1)) * (r.1 * initial.1),
{
    let i = initial;
    let d = rat_add(end, rat_neg(i));
    lemma_rat_add_value(end, rat_neg(i));
    let s = rat_add(d, flow);
    lemma_rat_add_value(d, flow);
    lemma_rat_div_value(s, i);
    let r = rat_div(s, i);
    assert(spec_twr(i, end, flow) == Some(r));
    let m = end.0 * i.1 - i.0 * end.1;
    let e1 = end.1 * i.1;
    let t = m * flow.1 + flow.0 * e1;
    let e2 = e1 * flow.1;
    assert(d.0 * e1 == m * d.1) by (nonlinear_arith)
        requires
            d.0 * (end.1 * i.1) == (end.0 * i.1 + (-i.0) * end.1) * d.1,
            e1 == end.1 * i.1,
            m == end.0 * i.1 - i.0 * end.1,
    ;
    let b = d.0 * flow.1 + flow.0 * d.1;
    assert(b * e1 == d.1 * t) by (nonlinear_arith)
        requires
            b == d.0 * flow.1 + flow.0 * d.1,
            d.0 * e1 == m * d.1,
            t == m * flow.1 + flow.0 * e1,
    ;
    let sf = s.0 * flow.1;
    assert(sf * d.1 == b * s.1) by (nonlinear_arith)
        requires
            s.0 * (d.1 * flow.1) == b * s.1,
            sf == s.0 * flow.1,
    ;
    assert((sf * e1) * d.1 == (t * s.1) * d.1) by (nonlinear_arith)
        requires
            sf * d.1 == b * s.1,
            b * e1 == d.1 * t,
    ;
    assert(sf * e1 == t * s.1) by (nonlinear_arith)
        requires
            (sf * e1) * d.1 == (t * s.1) * d.1,
            d.1 > 0,
    ;
    assert(s.0 * e2 == t * s.1) by (nonlinear_arith)
        requires
            sf * e1 == t * s.1,
            sf == s.0 * flow.1,
            e2 == e1 * flow.1,
    ;
    let ri = r.0 * i.0;
    assert(ri * s.1 == s.0 * (i.1 * r.1)) by (nonlinear_arith)
        requires
            r.0 * s.1 * i.0 == s.0 * i.1 * r.1,
            ri == r.0 * i.0,
    ;
    assert((ri * e2) * s.1 == (t * (r.1 * i.1)) * s.1) by (nonlinear_arith)
        requires
            ri * s.1 == s.0 * (i.1 * r.1),
            s.0 * e2 == t * s.1,
    ;
    assert(ri * e2 == t * (r.1 * i.1)) by (nonlinear_arith)
        requires
            (ri * e2) * s.1 == (t * (r.1 * i.1)) * s.1,
            s.1 > 0,
    ;
    assert(e2 == end.1 * i.1 * flow.1);
}


proof fn lemma_count_char_concat(a: Seq<char>, b: Seq<char>, c: char)
    ensures
        count_char(a + b, c) == count_char(a, c) + count_char(b, c),
    decreases b.len(),
{
    if b.len() == 0 {
        assert(a + b =~= a);
    } else {
        lemma_count_char_concat(a, b.drop_last(), c);
        assert((a + b).drop_last() =~= a + b.drop_last());
        assert((a + b).last() == b.last());
    }
}

proof fn lemma_count_char_none(s: Seq<char>, c: char)
    requires
        forall|i: int| 0 <= i < s.len() ==> s[i] != c,
    ensures
        count_char(s, c) == 0,
    decreases s.len(),
{
    if s.len() > 0 {
        lemma_count_char_none(s.drop_last(), c);
    }
}

/// Cutting an account name to `d` levels (the flat report with a depth)
/// keeps its first `d` levels, all of them when it has fewer: the cut name
/// has the smaller of `d` and the name's number of levels, and it is the
/// name itself or the part of the name before one of its colons.
pub proof fn law_cut_keeps_the_first_levels(name: Seq<char>, d: nat)
    requires
        d >= 1,
    ensures
        spec_depth(cut(name, d)) == if d < spec_depth(name) {
            d
        } else {
            spec_depth(name)
        },
        cut(name, d) == name || (cut(name, d).len() < name.len() && cut(name, d) == name.take(cut(name, d).len() as int)
            && name[cut(name, d).len() as int] == ':'),
    decreases name.len(),
{
    lemma_first_index_of(name, ':');
    let k = first_index_of(name, ':');
    if k < 0 {
        lemma_count_char_none(name, ':');
    } else {
        lemma_count_char_none(name.take(k), ':');
        assert(name.take(k + 1).drop_last() =~= name.take(k));
        assert(count_char(name.take(k + 1), ':') == 1);
        let rest = name.skip(k + 1);
        assert(name =~= name.take(k + 1) + rest);
        lemma_count_char_concat(name.take(k + 1), rest, ':');
        if d > 1 {
            law_cut_keeps_the_first_levels(rest, (d - 1) as nat);
            let cr = cut(rest, (d - 1) as nat);
            assert(cut(name, d) == name.take(k + 1) + cr);
            lemma_count_char_concat(name.take(k + 1), cr, ':');
            if cr != rest {
                let m = cr.len() as int;
                assert(name.take(k + 1) + cr =~= name.take(k + 1 + m));
                assert(name[k + 1 + m] == rest[m]);
            }
        }
    }
}

} // verus!
