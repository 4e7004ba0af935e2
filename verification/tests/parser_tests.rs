use dinero::chars::Tokenizer;
use dinero::models::{Comment, HasName};
use dinero::parser::{parse_posting, parse_tag};
use dinero::transaction::{PostingType, PriceType, TransactionType};

#[test]
fn test_spaces_in_tag_names() {
    let mut tokenizer = Tokenizer::from_content("tag   A tag name with spaces   ");
    let tag = parse_tag(&mut tokenizer).unwrap();
    assert_eq!(tag.get_name(), "A tag name with spaces");
}

#[test]
fn test_empty_string() {
    let mut tokenizer = Tokenizer::from_content("");
    let items = tokenizer.tokenize().unwrap();
    assert_eq!(items.len(), 0, "Should be empty");
}

#[test]
fn test_only_spaces() {
    let mut tokenizer = Tokenizer::from_content("\n\n\n\n\n");
    let items = tokenizer.tokenize().unwrap();
    assert_eq!(items.len(), 0, "Should be empty")
}

#[test]
fn multi_tag() {
    let comment = Comment {
        comment: ":tag_1:tag_2:tag_3:".to_string(),
    };
    let tags = comment.get_tags();
    assert_eq!(tags.len(), 3, "There should be three tags");
    assert_eq!(tags[0].get_name(), "tag_1");
    assert_eq!(tags[1].get_name(), "tag_2");
    assert_eq!(tags[2].get_name(), "tag_3");
}

#[test]
fn no_tag() {
    let comment = Comment {
        comment: ":tag_1:tag_2:tag_3: this is not valid".to_string(),
    };
    let tags = comment.get_tags();
    assert_eq!(tags.len(), 0, "There should no tags");
}

#[test]
fn not_a_tag() {
    let comment = Comment {
        comment: "not a tag whatsoever".to_string(),
    };
    let tags = comment.get_tags();
    assert_eq!(tags.len(), 0, "There should no tags");
}

#[test]
fn tag_value() {
    let comment = Comment {
        comment: "tag: value".to_string(),
    };
    let tags = comment.get_tags();
    assert_eq!(tags.len(), 1, "There should be one tag");
    let tag = tags[0].clone();
    assert_eq!(tag.get_name(), "tag");
    assert_eq!(tag.value.unwrap(), "value".to_string());
}

#[test]
fn tag_value_spaces() {
    let comment = Comment {
        comment: " tag: value with spaces".to_string(),
    };
    let tags = comment.get_tags();
    assert_eq!(tags.len(), 1, "There should be one tag");
    let tag = tags[0].clone();
    assert_eq!(tag.get_name(), "tag");
    assert_eq!(tag.value.unwrap(), "value with spaces".to_string());
}

#[test]
fn comments_are_read() {
    let content = "; This is a comment\n\n\n; This is another comment\n\n\n";
    let mut tokenizer = Tokenizer::from_content(content);
    let items = tokenizer.tokenize().unwrap();
    assert_eq!(items.len(), 2, "Should have parsed two comments");
    assert_eq!(items.comments[0].comment, "This is a comment");
}

#[test]
fn unexpected_indentation() {
    let mut tokenizer = Tokenizer::from_content("   ; indented\n");
    let err = tokenizer.tokenize().unwrap_err();
    assert_eq!(err.line_index, 0);
}

#[test]
fn commodity_directive() {
    let mut tokenizer = Tokenizer::from_content("commodity EUR\n    alias euro\n    alias €\n    default\n");
    let items = tokenizer.tokenize().unwrap();
    assert_eq!(items.commodities.len(), 1);
    assert_eq!(items.commodities.len_alias(), 3);
    assert_eq!(items.commodities.get("€").unwrap().get_name(), "EUR");
}

#[test]
fn price_directive() {
    let mut tokenizer = Tokenizer::from_content("P 2021-01-02 BTC 30000.5 USD\n");
    let items = tokenizer.tokenize().unwrap();
    assert_eq!(items.prices.len(), 1);
    let p = &items.prices[0];
    assert_eq!(p.commodity, "BTC");
    assert_eq!(p.other_commodity, "USD");
    assert_eq!(p.other_quantity.numer(), 60001);
    assert_eq!(p.other_quantity.denom(), 2);
    assert_eq!((p.date.year, p.date.month, p.date.day), (2021, 1, 2));
}

#[test]
fn transaction_header() {
    let mut tokenizer =
        Tokenizer::from_content("2021-02-01=2021-02-03 * (42) Buy fruit\n    Expenses:Groceries  7.92 EUR\n    Assets:Checking\n");
    let items = tokenizer.tokenize().unwrap();
    assert_eq!(items.transactions.len(), 1);
    let t = &items.transactions[0];
    assert_eq!(t.description, "Buy fruit");
    assert_eq!(t.code.as_deref(), Some("(42) "));
    let d = t.effective_date.unwrap();
    assert_eq!((d.year, d.month, d.day), (2021, 2, 3));
    assert_eq!(t.postings.len(), 2);
    assert_eq!(t.postings[0].account, "Expenses:Groceries");
    assert_eq!(t.postings[0].money_currency.as_deref(), Some("EUR"));
    assert_eq!(t.postings[0].money_amount.unwrap().numer(), 198);
    assert_eq!(t.postings[0].money_amount.unwrap().denom(), 25);
    assert!(t.postings[1].money_amount.is_none());
}

#[test]
fn bad_date_is_an_error() {
    let mut tokenizer = Tokenizer::from_content("2021-02-30 Nothing\n");
    assert!(tokenizer.tokenize().is_err());
}

#[test]
fn posting_items_are_read() {
    let mut t = Tokenizer::from_content("Assets:Bank account  10.5 EUR @@ 21 USD = 100 EUR ; paid\nnext");
    let p = parse_posting(&mut t, TransactionType::Real).unwrap();
    assert_eq!(p.account, "Assets:Bank account");
    assert_eq!(p.kind, PostingType::Real);
    let a = p.money_amount.unwrap();
    assert_eq!((a.numer(), a.denom()), (21, 2));
    assert_eq!(p.money_currency.as_deref(), Some("EUR"));
    assert_eq!(p.cost_type, Some(PriceType::Total));
    assert_eq!(p.cost_amount.unwrap().numer(), 21);
    assert_eq!(p.cost_currency.as_deref(), Some("USD"));
    assert_eq!(p.balance_amount.unwrap().numer(), 100);
    assert_eq!(p.comments.len(), 1);
    assert_eq!(p.comments[0].comment, "paid");
    assert_eq!(t.position, 57);
}

#[test]
fn posting_items_errors() {
    let mut t = Tokenizer::from_content("(Assets:Bank  @ 2 USD\n");
    assert!(parse_posting(&mut t, TransactionType::Real).is_err());
    let mut t = Tokenizer::from_content("[Budget]  EUR 3\n");
    let p = parse_posting(&mut t, TransactionType::Real).unwrap();
    assert_eq!(p.kind, PostingType::VirtualMustBalance);
    assert_eq!(p.account, "Budget");
    assert_eq!(p.money_currency.as_deref(), Some("EUR"));
    let mut t = Tokenizer::from_content("Assets  @ 2 USD\n");
    assert!(parse_posting(&mut t, TransactionType::Real).is_err());
    let mut t = Tokenizer::from_content("Expenses  (amount * 2)\n");
    let p = parse_posting(&mut t, TransactionType::Automated).unwrap();
    assert_eq!(p.amount_expr.as_deref(), Some("* 2)"));
    assert_eq!(t.position, 22);
}

#[test]
fn first_directive_of_a_name_wins() {
    let journal = "account Assets:Bank\n    note first\n    alias bank\naccount assets:bank\n    note second\npayee Shop\n    alias store\n";
    let mut tokenizer = Tokenizer::from_content(journal);
    let parsed = tokenizer.tokenize().unwrap();
    assert_eq!(parsed.accounts.len(), 1);
    let bank = parsed.accounts.get("BANK").unwrap();
    assert_eq!(bank.get_name(), "Assets:Bank");
    assert_eq!(bank.note.as_deref(), Some("first"));
    assert_eq!(parsed.payees.len(), 1);
    assert_eq!(parsed.payees.get("store").unwrap().get_name(), "Shop");
    assert_eq!(parsed.commodities.len(), 0);
}
