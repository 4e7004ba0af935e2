use dinero::chars::Tokenizer;
use dinero::date::Date;
use dinero::ledger::Ledger;
use dinero::money::Balance;
use dinero::models::HasName;
use dinero::models::Currency;
use dinero::money::Money;
use dinero::rational::Rational;
use dinero::report::{account_balances, balance_rows, balances_total, convert_balance, register_rows, within_depth, RowMode};
use std::rc::Rc;

const JOURNAL: &str = "2021-01-01 Groceries
    Expenses:Food  10 EUR
    Assets:Bank
2021-01-02 Rent
    Expenses:Rent  100 EUR
    Assets:Bank
2021-01-03 Virtual
    (Budget:Food)  -10 EUR
";

fn ledger() -> Ledger {
    let mut tokenizer = Tokenizer::from_content(JOURNAL);
    tokenizer.tokenize().unwrap().to_ledger(false).unwrap()
}

fn single_amount(b: &Balance) -> (i64, i64) {
    assert_eq!(b.iter().len(), 1);
    let a = b.iter()[0].get_amount();
    (a.numer(), a.denom())
}

fn names(rows: &Vec<(Vec<char>, Balance)>) -> Vec<String> {
    rows.iter().map(|r| r.0.iter().collect::<String>()).collect()
}

#[test]
fn balances_per_account() {
    let l = ledger();
    let b = account_balances(&l.transactions, &vec![], false, None, None).unwrap();
    assert_eq!(single_amount(b.get("Expenses:Food").unwrap()), (10, 1));
    assert_eq!(single_amount(b.get("Expenses:Rent").unwrap()), (100, 1));
    assert_eq!(single_amount(b.get("Assets:Bank").unwrap()), (-110, 1));
    assert_eq!(single_amount(b.get("Budget:Food").unwrap()), (-10, 1));
    assert!(b.get("Expenses").is_none());
}

#[test]
fn balances_of_real_postings_only() {
    let l = ledger();
    let b = account_balances(&l.transactions, &vec![], true, None, None).unwrap();
    assert!(b.get("Budget:Food").is_none());
    assert_eq!(single_amount(b.get("Assets:Bank").unwrap()), (-110, 1));
}

#[test]
fn balances_of_selected_accounts() {
    let l = ledger();
    let b = account_balances(&l.transactions, &vec!["food".to_string()], false, None, None).unwrap();
    assert_eq!(single_amount(b.get("Expenses:Food").unwrap()), (10, 1));
    assert_eq!(single_amount(b.get("Budget:Food").unwrap()), (-10, 1));
    assert!(b.get("Assets:Bank").is_none());
    assert!(b.get("Expenses:Rent").is_none());
}

#[test]
fn tree_rows() {
    let l = ledger();
    let b = account_balances(&l.transactions, &vec![], true, None, None).unwrap();
    let rows = balance_rows(&b, RowMode::Tree).unwrap();
    assert_eq!(names(&rows), vec!["Assets", "Assets:Bank", "Expenses", "Expenses:Food", "Expenses:Rent"]);
    assert_eq!(single_amount(&rows[0].1), (-110, 1));
    assert_eq!(single_amount(&rows[2].1), (110, 1));
    assert_eq!(single_amount(&rows[3].1), (10, 1));
}

#[test]
fn flat_rows() {
    let l = ledger();
    let b = account_balances(&l.transactions, &vec![], false, None, None).unwrap();
    let rows = balance_rows(&b, RowMode::Flat).unwrap();
    assert_eq!(names(&rows), vec!["Assets:Bank", "Budget:Food", "Expenses:Food", "Expenses:Rent"]);
    let rows = balance_rows(&b, RowMode::FlatDepth(1)).unwrap();
    assert_eq!(names(&rows), vec!["Assets", "Budget", "Expenses"]);
    assert_eq!(single_amount(&rows[2].1), (110, 1));
}

#[test]
fn zero_totals_have_no_tree_row() {
    let journal = "2021-01-01 Move\n    A:X  5 EUR\n    A:Y  -5 EUR\n";
    let mut tokenizer = Tokenizer::from_content(journal);
    let l = tokenizer.tokenize().unwrap().to_ledger(false).unwrap();
    let b = account_balances(&l.transactions, &vec![], false, None, None).unwrap();
    let rows = balance_rows(&b, RowMode::Tree).unwrap();
    assert_eq!(names(&rows), vec!["A:X", "A:Y"]);
}

#[test]
fn register_running_balance() {
    let l = ledger();
    let rows = register_rows(&l.transactions, &vec![], false, None, None).unwrap();
    assert_eq!(rows.len(), 4);
    let accounts: Vec<&str> = rows.iter().map(|r| r.posting.account.get_name()).collect();
    assert_eq!(accounts, vec!["Expenses:Food", "Assets:Bank", "Expenses:Rent", "Assets:Bank"]);
    assert_eq!(rows.iter().map(|r| r.transaction).collect::<Vec<usize>>(), vec![0, 0, 1, 1]);
    assert_eq!(single_amount(&rows[0].balance), (10, 1));
    assert!(rows[1].balance.is_zero());
    assert_eq!(single_amount(&rows[2].balance), (100, 1));
    assert!(rows[3].balance.is_zero());
}

#[test]
fn register_of_selected_accounts() {
    let l = ledger();
    let rows = register_rows(&l.transactions, &vec!["expenses".to_string()], true, None, None).unwrap();
    assert_eq!(rows.len(), 2);
    assert_eq!(single_amount(&rows[1].balance), (110, 1));
}

#[test]
fn balances_are_converted() {
    let eur = Rc::new(Currency::from("EUR"));
    let usd = Rc::new(Currency::from("USD"));
    let gbp = Rc::new(Currency::from("GBP"));
    let b = Balance::from(Money::from((usd.clone(), Rational::from_integer(10))))
        .add(&Balance::from(Money::from((eur.clone(), Rational::from_integer(3)))))
        .unwrap()
        .add(&Balance::from(Money::from((gbp.clone(), Rational::from_integer(2)))))
        .unwrap();
    let multipliers = vec![("USD".to_string(), Rational::new(9, 10).unwrap())];
    let c = convert_balance(&b, &multipliers, &eur).unwrap();
    assert_eq!(c.len(), 2);
    assert_eq!(c.iter()[0].get_commodity().unwrap().get_name(), "EUR");
    let a = c.iter()[0].get_amount();
    assert_eq!((a.numer(), a.denom()), (12, 1));
    assert_eq!(c.iter()[1].get_commodity().unwrap().get_name(), "GBP");
}

#[test]
fn reports_of_a_period() {
    let l = ledger();
    let jan2 = Date::from_ymd_opt(2021, 1, 2);
    let jan3 = Date::from_ymd_opt(2021, 1, 3);
    let b = account_balances(&l.transactions, &vec![], false, jan2, jan3).unwrap();
    assert!(b.get("Expenses:Food").is_none());
    assert_eq!(single_amount(b.get("Expenses:Rent").unwrap()), (100, 1));
    assert!(b.get("Budget:Food").is_none());
    let b = account_balances(&l.transactions, &vec![], false, jan2, None).unwrap();
    assert_eq!(single_amount(b.get("Budget:Food").unwrap()), (-10, 1));
    let rows = register_rows(&l.transactions, &vec![], false, None, jan2).unwrap();
    assert_eq!(rows.len(), 2);
    assert_eq!(rows.iter().map(|r| r.transaction).collect::<Vec<usize>>(), vec![0, 0]);
    let rows = register_rows(&l.transactions, &vec![], false, jan2, None).unwrap();
    assert_eq!(rows.iter().map(|r| r.transaction).collect::<Vec<usize>>(), vec![1, 1]);
    assert_eq!(single_amount(&rows[0].balance), (100, 1));
}

#[test]
fn total_of_all_balances() {
    let l = ledger();
    let b = account_balances(&l.transactions, &vec![], false, None, None).unwrap();
    let total = balances_total(&b).unwrap();
    assert_eq!(single_amount(&total), (-10, 1));
    let real = account_balances(&l.transactions, &vec![], true, None, None).unwrap();
    let total = balances_total(&real).unwrap();
    assert!(total.is_zero());
}

#[test]
fn rows_within_depth() {
    let name: Vec<char> = "Expenses:Food:Fruit".chars().collect();
    assert!(within_depth(&name, None));
    assert!(within_depth(&name, Some(3)));
    assert!(!within_depth(&name, Some(2)));
    let top: Vec<char> = "Assets".chars().collect();
    assert!(within_depth(&top, Some(1)));
    assert!(!within_depth(&top, Some(0)));
}
