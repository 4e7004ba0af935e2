use dinero::chars::Tokenizer;
use dinero::transaction::TransactionStatus;
use dinero::error::LedgerError;
use dinero::models::HasName;

const README_JOURNAL: &str = "; This is a comment
; A date followed by a description identifies the beginning of a transaction
2021-02-01 Buy fruit
     Expenses:Groceries          7.92 EUR
     Assets:Checking account             ; you can leave this blank, dinero balances the transactions for you
";

#[test]
fn readme_transaction_balances() {
    let mut tokenizer = Tokenizer::from_content(README_JOURNAL);
    let parsed = tokenizer.tokenize().unwrap();
    assert_eq!(parsed.transactions.len(), 1);
    let ledger = parsed.to_ledger(false).unwrap();
    assert_eq!(ledger.transactions.len(), 1);
    let t = &ledger.transactions[0];
    assert_eq!(t.postings.len(), 2);
    let filled = t.postings[1].amount.as_ref().unwrap();
    assert_eq!(filled.get_amount().numer(), -198);
    assert_eq!(filled.get_amount().denom(), 25);
    assert_eq!(t.postings[1].account.get_name(), "Assets:Checking account");
}

#[test]
fn unbalanced_transaction_is_refused() {
    let journal = "2021-01-01 Wrong\n    A  10 EUR\n    B  -5 EUR\n";
    let mut tokenizer = Tokenizer::from_content(journal);
    let parsed = tokenizer.tokenize().unwrap();
    match parsed.to_ledger(false) {
        Err(LedgerError::TransactionIsNotBalanced) => {}
        other => panic!("unexpected {:?}", other.map(|_| ())),
    }
}

#[test]
fn balance_assertion_fills_amount() {
    let journal = "2021-01-01 Open\n    Assets:Bank  100 EUR\n    Equity\n2021-01-02 Check\n    Assets:Bank  = 80 EUR\n    Expenses:Food\n";
    let mut tokenizer = Tokenizer::from_content(journal);
    let parsed = tokenizer.tokenize().unwrap();
    let ledger = parsed.to_ledger(false).unwrap();
    let t = &ledger.transactions[1];
    let bank = t.postings[0].amount.as_ref().unwrap();
    assert_eq!(bank.get_amount().numer(), -20);
    let food = t.postings[1].amount.as_ref().unwrap();
    assert_eq!(food.get_amount().numer(), 20);
}

#[test]
fn transactions_are_sorted_by_date() {
    let journal = "2021-03-01 Later\n    A  1 EUR\n    B\n2021-01-01 Sooner\n    A  2 EUR\n    B\n";
    let mut tokenizer = Tokenizer::from_content(journal);
    let ledger = tokenizer.tokenize().unwrap().to_ledger(false).unwrap();
    assert_eq!(ledger.transactions[0].description, "Sooner");
    assert_eq!(ledger.transactions[1].description, "Later");
}

#[test]
fn cost_gives_a_price() {
    let journal = "2021-01-01 Buy\n    Assets:Stock  10 ACME @ 5 EUR\n    Assets:Cash\n";
    let mut tokenizer = Tokenizer::from_content(journal);
    let ledger = tokenizer.tokenize().unwrap().to_ledger(false).unwrap();
    assert_eq!(ledger.prices.len(), 1);
    let p = ledger.prices[0].get_price();
    assert_eq!(p.get_amount().numer(), 5);
    let cash = ledger.transactions[0].postings[1].amount.as_ref().unwrap();
    assert_eq!(cash.get_amount().numer(), -50);
}

#[test]
fn names_in_use_become_accounts_and_commodities() {
    let journal = "account Assets:Bank\n    alias bank\nP 2021-01-01 ACME 5 EUR\n2021-01-02 Pay\n    bank  -3 USD\n    Expenses:Food\n";
    let mut tokenizer = Tokenizer::from_content(journal);
    let ledger = tokenizer.tokenize().unwrap().to_ledger(false).unwrap();
    // The alias names the declared account: no new account for it.
    assert_eq!(ledger.accounts.len(), 2);
    assert_eq!(ledger.accounts.get("bank").unwrap().get_name(), "Assets:Bank");
    assert_eq!(ledger.accounts.get("expenses:food").unwrap().get_name(), "Expenses:Food");
    assert_eq!(ledger.commodities.len(), 3);
    assert!(ledger.commodities.get("usd").is_ok());
    // The price of the directive comes first.
    assert_eq!(ledger.prices[0].commodity.get_name(), "ACME");
    let p = ledger.prices[0].get_price();
    assert_eq!(p.get_amount().numer(), 5);
    assert_eq!(p.get_commodity().unwrap().get_name(), "EUR");
}

#[test]
fn prices_come_from_directives_costs_and_exchanges() {
    let journal = "P 2021-01-01 ACME 5 EUR\n2021-01-02 Buy\n    Assets:Stock  10 ACME @@ 40 EUR\n    Assets:Cash\n2021-01-03 Exchange\n    Assets:USD  100 USD\n    Assets:EUR  -90 EUR\n";
    let mut tokenizer = Tokenizer::from_content(journal);
    let ledger = tokenizer.tokenize().unwrap().to_ledger(false).unwrap();
    assert_eq!(ledger.prices.len(), 3);
    // The directive.
    assert_eq!(ledger.prices[0].commodity.get_name(), "ACME");
    assert_eq!(ledger.prices[0].get_price().get_amount().numer(), 5);
    // The total cost, per unit.
    assert_eq!(ledger.prices[1].commodity.get_name(), "ACME");
    let unit = ledger.prices[1].get_price();
    assert_eq!(unit.get_amount().numer(), 4);
    assert_eq!(unit.get_amount().denom(), 1);
    assert_eq!(unit.get_commodity().unwrap().get_name(), "EUR");
    // The exchange: one dollar is worth nine tenths of a euro.
    assert_eq!(ledger.prices[2].commodity.get_name(), "USD");
    let rate = ledger.prices[2].get_price();
    assert_eq!(rate.get_amount().numer(), 9);
    assert_eq!(rate.get_amount().denom(), 10);
    assert_eq!(rate.get_commodity().unwrap().get_name(), "EUR");
}

#[test]
fn transactions_of_one_date_keep_their_order() {
    let journal = "2021-02-01 First\n    A  1 EUR\n    B\n2021-01-01 Earlier\n    A  1 EUR\n    B\n2021-02-01 Second\n    A  1 EUR\n    B\n";
    let mut tokenizer = Tokenizer::from_content(journal);
    let ledger = tokenizer.tokenize().unwrap().to_ledger(false).unwrap();
    let names: Vec<&str> = ledger.transactions.iter().map(|t| t.description.as_str()).collect();
    assert_eq!(names, vec!["Earlier", "First", "Second"]);
}

#[test]
fn balance_assignment_sets_the_account_balance() {
    let journal = "2021-01-01 Open\n    Assets:Bank  100 EUR\n    Equity\n2021-01-02 Check\n    Assets:Bank  = 80 EUR\n    Expenses:Food\n2021-01-03 More\n    Assets:Bank  10 EUR = 90 EUR\n    Equity\n";
    let mut tokenizer = Tokenizer::from_content(journal);
    let ledger = tokenizer.tokenize().unwrap().to_ledger(false).unwrap();
    assert_eq!(ledger.transactions.len(), 3);
}

#[test]
fn transactions_that_add_up_are_internally_balanced() {
    let journal = "2021-02-28 * Flights to Rome | Alitalia\n    Expenses:Travel             153.17 EUR\n    Assets:Checking account     -180 USD\n2021-03-01 Lunch\n    Expenses:Food  10 EUR\n    Assets:Cash\n";
    let mut tokenizer = Tokenizer::from_content(journal);
    let ledger = tokenizer.tokenize().unwrap().to_ledger(false).unwrap();
    assert_eq!(ledger.transactions[0].status, TransactionStatus::InternallyBalanced);
    assert_eq!(ledger.transactions[1].status, TransactionStatus::NotChecked);
    assert_eq!(ledger.prices.len(), 1);
}

#[test]
fn large_amounts_balance() {
    let journal = "2021-01-01 Big\n    Assets:Bank  3000000000 EUR\n    Equity\n";
    let mut tokenizer = Tokenizer::from_content(journal);
    let ledger = tokenizer.tokenize().unwrap().to_ledger(false).unwrap();
    let filled = ledger.transactions[0].postings[1].amount.as_ref().unwrap();
    assert_eq!(filled.get_amount().numer(), -3000000000);
}
