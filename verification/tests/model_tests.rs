use dinero::filter::{filter, preprocess_query};
use dinero::error::LedgerError;
use dinero::list::List;
use dinero::models::{Account, Currency, HasName, Payee};
use dinero::period::{get_period_index, period_beginning, period_ending, Frequency, Period, PeriodGroup};
use dinero::date::Date;
use dinero::rational::Rational;
use dinero::money::{Balance, Money};
use std::rc::Rc;
use dinero::transaction::{Posting, PostingType, Transaction, TransactionType};

#[test]
fn list() {
    let name = "ACME Inc.";
    let payee = Payee::from(name);
    let mut list: List<Payee> = List::new();
    list.insert(payee.clone());

    // Get ACME from the list, using a regex
    let retrieved = list.get_regex("ACME");

    assert!(retrieved.is_some());
    assert_eq!(retrieved.unwrap().get_name(), "ACME Inc.");
    assert_eq!(list.len_alias(), 1);

    // Now add and alias
    list.add_alias("ACME is awesome".to_string(), &payee);
    assert_eq!(list.len_alias(), 2);

    // Retrieve an element that is not in the list
    assert!(list.get_regex("Warner").is_none());
    assert!(list.get("Warner").is_err());
    assert!(list.get_regex("awesome").is_some());
}

#[test]
fn repeated_alias_is_refused() {
    let mut list: List<Payee> = List::new();
    list.insert(Payee::from("ACME"));
    let retrieved = (**list.get("ACME").unwrap()).clone();
    assert!(list.try_add_alias("ACME, Inc.".to_string(), &retrieved));
    assert!(!list.try_add_alias("ACME, Inc.".to_string(), &retrieved));
}

#[test]
fn currency_aliases() {
    let mut currencies = List::<Currency>::new();
    currencies.insert(Currency::from("eur"));
    currencies.insert(Currency::from("eur"));
    currencies.insert(Currency::from("usd"));
    currencies.insert(Currency::from("usd"));
    assert_eq!(currencies.len_alias(), 2, "Alias len should be 2");
    let eur = Currency::from("eur");
    currencies.add_alias("euro".to_string(), &eur);
    assert_eq!(currencies.len_alias(), 3, "Alias len should be 3");
    currencies.add_alias("€".to_string(), &eur);
    assert_eq!(currencies.len(), 2, "List len should be 2");
    assert_eq!(currencies.len_alias(), 4, "Alias len should be 4");
    assert_eq!(currencies.get("eur").unwrap().get_name(), "eur");
    assert_eq!(currencies.get("€").unwrap().get_name(), "eur");
    assert_eq!(currencies.get("EUR").unwrap().get_name(), "eur");
}

#[test]
fn parent_names() {
    let mut account = Account::from("Expenses:Groceries");
    assert_eq!(account.parent_name(), Some("Expenses".to_string()));
    account = Account::from("Expenses:Groceries:Supermarket");
    assert_eq!(account.parent_name(), Some("Expenses:Groceries".to_string()));
    assert_eq!(account.depth(), 3);
    account = Account::from("Expenses");
    assert_eq!(account.parent_name(), None);
    assert_eq!(account.depth(), 1);
}

#[test]
fn query_shorthand() {
    let params: Vec<String> = vec!["@payee", "savings", "and", "checking", "and", "expr", "/aeiou/"]
        .iter()
        .map(|x| x.to_string())
        .collect();
    let processed = preprocess_query(&params);
    assert_eq!(
        processed,
        "((payee =~ /(?i)payee/) or (account =~ /(?i)savings/) and (account =~ /(?i)checking/) and (/aeiou/))"
    );
    let empty: Vec<String> = vec!["  ".to_string()];
    assert_eq!(preprocess_query(&empty), "()");
    let tag: Vec<String> = vec!["%holiday".to_string(), "or".to_string(), "/^Assets/".to_string()];
    assert_eq!(preprocess_query(&tag), "((has_tag(/(?i)holiday/)) or (account =~ /^Assets/))");
}

#[test]
fn account_filter() {
    let t: Transaction<Posting> = Transaction::new(TransactionType::Real);
    let acc = Rc::new(Account::from("Assets:Checking"));
    let real = Posting::new(&acc, PostingType::Real);
    let virt = Posting::new(&acc, PostingType::Virtual);
    assert!(filter(&vec![], &t, &real, true));
    assert!(!filter(&vec![], &t, &virt, true));
    assert!(filter(&vec!["check".to_string()], &t, &virt, false));
    assert!(!filter(&vec!["savings".to_string()], &t, &real, false));
}

#[test]
fn test_january() {
    let date = Date::from_ymd_opt(2019, 1, 15).unwrap();
    let d = |y, m, dd| Date::from_ymd_opt(y, m, dd).unwrap();
    assert_eq!(period_ending(date, Frequency::Monthly), d(2019, 1, 31));
    assert_eq!(period_ending(date, Frequency::Quarterly), d(2019, 3, 31));
    assert_eq!(period_ending(date, Frequency::Yearly), d(2019, 12, 31));
    assert_eq!(period_beginning(date, Frequency::Monthly), d(2019, 1, 1));
    assert_eq!(period_beginning(date, Frequency::Quarterly), d(2019, 1, 1));
    assert_eq!(period_beginning(date, Frequency::Yearly), d(2019, 1, 1));
}

#[test]
fn test_march() {
    let date = Date::from_ymd_opt(2019, 3, 15).unwrap();
    let d = |y, m, dd| Date::from_ymd_opt(y, m, dd).unwrap();
    assert_eq!(period_ending(date, Frequency::Monthly), d(2019, 3, 31));
    assert_eq!(period_ending(date, Frequency::Quarterly), d(2019, 3, 31));
    assert_eq!(period_ending(date, Frequency::Yearly), d(2019, 12, 31));
    assert_eq!(period_beginning(date, Frequency::Monthly), d(2019, 3, 1));
    assert_eq!(period_beginning(date, Frequency::Quarterly), d(2019, 1, 1));
    assert_eq!(period_beginning(date, Frequency::Yearly), d(2019, 1, 1));
}

#[test]
fn frequencies() {
    let g = |y, q, m| PeriodGroup { yearly: y, quarterly: q, monthly: m };
    assert_eq!(Frequency::from(g(false, false, false)), Frequency::Yearly);
    assert_eq!(Frequency::from(g(false, true, false)), Frequency::Quarterly);
    assert_eq!(Frequency::from(g(false, false, true)), Frequency::Monthly);
    assert_eq!(Frequency::try_from_group(g(true, true, false)), None);
    let feb = Date::from_ymd_opt(2020, 2, 10).unwrap();
    assert_eq!(period_ending(feb, Frequency::Monthly), Date::from_ymd_opt(2020, 2, 29).unwrap());
    let nov = Date::from_ymd_opt(2021, 11, 3).unwrap();
    assert_eq!(period_beginning(nov, Frequency::Quarterly), Date::from_ymd_opt(2021, 10, 1).unwrap());
}

#[test]
fn rationals() {
    let a = Rational::new(6, 4).unwrap();
    assert_eq!((a.numer(), a.denom()), (3, 2));
    let b = Rational::new(-1, 3).unwrap();
    let s = a.checked_add(&b).unwrap();
    assert_eq!((s.numer(), s.denom()), (7, 6));
    let p = a.checked_mul(&b).unwrap();
    assert_eq!((p.numer(), p.denom()), (-1, 2));
    let q = a.checked_div(&b).unwrap();
    assert_eq!((q.numer(), q.denom()), (-9, 2));
    assert!(a.checked_div(&Rational::zero()).is_none());
    assert!(Rational::new(i64::MAX, 1).unwrap().checked_add(&Rational::from_integer(1)).is_none());
    let d = a.checked_sub(&a).unwrap();
    assert!(d.is_zero());
}

#[test]
fn money_balances() {
    let usd = Rc::new(Currency::from("usd"));
    let eur = Rc::new(Currency::from("eur"));
    let m1 = Money::from((eur.clone(), Rational::from_integer(100)));
    let m2 = Money::from((eur.clone(), Rational::from_integer(200)));
    let b1 = Balance::from(m1.copy()).add(&Balance::from(m2)).unwrap();
    assert_eq!(b1.len(), 1);
    assert_eq!(b1.balance[0].get_amount().numer(), 300);
    let d1 = Money::from((usd.clone(), Rational::from_integer(50)));
    let b2 = Balance::from(d1).add(&Balance::from(m1)).unwrap();
    assert_eq!(b2.len(), 2);
    assert!(!b2.is_zero());
    assert!(!b2.can_be_zero());
    let zero = b2.sub(&b2).unwrap();
    assert!(zero.is_zero());
    assert!(b2.neg().neg().eq(&b2));
    assert!(Money::Zero.eq(&Money::from((usd, Rational::zero()))));
}

#[test]
fn periods_are_found_by_their_start() {
    let mut periods = Vec::new();
    let d1 = Date::from_ymd_opt(2019, 1, 15).unwrap();
    let d2 = Date::from_ymd_opt(2019, 3, 2).unwrap();
    let d3 = Date::from_ymd_opt(2019, 1, 31).unwrap();
    assert_eq!(get_period_index(d1, &mut periods, Frequency::Monthly), 0);
    assert_eq!(periods.len(), 1);
    assert_eq!(get_period_index(d2, &mut periods, Frequency::Monthly), 0);
    assert_eq!(periods.len(), 2);
    assert_eq!(periods[1].start, Date::from_ymd_opt(2019, 1, 1).unwrap());
    assert_eq!(get_period_index(d3, &mut periods, Frequency::Monthly), 1);
    assert_eq!(periods.len(), 2);
    assert_eq!(periods[0].end, Date::from_ymd_opt(2019, 3, 31).unwrap());
}

#[test]
fn amounts_are_written_with_their_decimals() {
    let eur = Rc::new(Currency::from("EUR"));
    let m = |n: i64, d: i64| Money::from((eur.clone(), Rational::new(n, d).unwrap()));
    assert_eq!(m(198, 25).to_text(2), "7.92 EUR");
    assert_eq!(m(-198, 25).to_text(2), "-7.92 EUR");
    assert_eq!(m(2, 3).to_text(2), "0.67 EUR");
    assert_eq!(m(1, 3).to_text(2), "0.33 EUR");
    assert_eq!(m(1, 20).to_text(2), "0.05 EUR");
    assert_eq!(m(1999, 1000).to_text(2), "2.00 EUR");
    assert_eq!(m(-1999, 1000).to_text(2), "-2.00 EUR");
    assert_eq!(m(12345, 1000).to_text(3), "12.345 EUR");
    assert_eq!(Money::Zero.to_text(2), "0");
}

#[test]
fn missing_element_is_named() {
    let list: List<Payee> = List::new();
    match list.get("Warner \"Bros\"") {
        Err(LedgerError::AliasNotInList(m)) => assert_eq!(m, "\"Warner \\\"Bros\\\"\" not found"),
        _ => panic!("an empty list finds nothing"),
    }
}

#[test]
fn time_weighted_return_of_a_period() {
    let eur = Rc::new(Currency::from("EUR"));
    let d = Date::from_ymd_opt(2021, 1, 1).unwrap();
    let mut p = Period::from_date(d, Frequency::Monthly);
    p.initial_money = Some(Money::from((eur.clone(), Rational::from_integer(100))));
    p.final_money = Some(Money::from((eur.clone(), Rational::from_integer(130))));
    p.cash_flow = Money::from((eur.clone(), Rational::from_integer(-10)));
    // (130 - 100 - 10) / 100 = 1/5
    let r = p.twr().unwrap();
    assert_eq!((r.numer(), r.denom()), (1, 5));
}

#[test]
fn small_differences_are_computed() {
    let a = Rational::new(1, 2).unwrap();
    let b = Rational::new(1, 3).unwrap();
    let d = a.checked_sub(&b).unwrap();
    assert_eq!((d.numer(), d.denom()), (1, 6));
}

#[test]
fn transaction_without_costs_is_balanced() {
    let eur = Rc::new(Currency::from("EUR"));
    let a = Rc::new(Account::from("A"));
    let b = Rc::new(Account::from("B"));
    let mut t: Transaction<Posting> = Transaction::new(TransactionType::Real);
    let mut p1 = Posting::new(&a, PostingType::Real);
    p1.set_amount(Money::from((eur.clone(), Rational::from_integer(5))));
    let mut p2 = Posting::new(&b, PostingType::Real);
    p2.set_amount(Money::from((eur.clone(), Rational::from_integer(-5))));
    t.postings.push(p1);
    t.postings.push(p2);
    assert_eq!(t.is_balanced(), Some(true));
}

#[test]
fn aliases_are_counted() {
    let eur = Currency::from("eur");
    let mut cs: List<Currency> = List::new();
    cs.insert(Currency::from("eur"));
    cs.insert(Currency::from("eur"));
    cs.insert(Currency::from("usd"));
    cs.insert(Currency::from("usd"));
    assert_eq!(cs.len(), 2);
    assert_eq!(cs.len_alias(), 2);
    cs.add_alias("euro".to_string(), &eur);
    assert_eq!(cs.len_alias(), 3);
    cs.add_alias("€".to_string(), &eur);
    assert_eq!(cs.len(), 2);
    assert_eq!(cs.len_alias(), 4);
    assert_eq!(cs.get("€").unwrap().get_name(), "eur");
}
