use dinero::error::{EmptyLedgerFileError, LedgerError, MissingFileError, TimeParseError};
use dinero::chars::Tokenizer;

#[test]
fn empty_file() {
    let an_error = EmptyLedgerFileError {};

    assert_eq!(
        an_error.message(),
        "The journal file does not have any information"
    );
}

#[test]
fn error_empty_posting_last() {
    let mut tokenizer = Tokenizer::from_content(
        "2021-06-05 Flight
        Assets:Checking
        Expenses:Comissions
        Expenses:Travel      200 EUR",
    );
    let parsed = tokenizer.tokenize().unwrap();
    let ledger = parsed.to_ledger(false);
    assert!(ledger.is_err());
    let mut output: String = String::new();
    if let Err(err) = ledger {
        match &err {
            LedgerError::TooManyEmptyPostings(x) => assert_eq!(*x, 2),
            other => {
                panic!("Too many empty postings {:?}", other);
            }
        }
        output = err.message().unwrap();
    }
    assert_eq!(output, format!("{} 2", "Too many empty postings:"));
}

#[test]
fn missing_file_messages() {
    let e = MissingFileError::ConfigFileDoesNotExistError("a.rc".to_string());
    assert_eq!(e.message(), "Configuration file does not exist: a.rc");
    let e = MissingFileError::JournalFileDoesNotExistError("b.ledger".to_string());
    assert_eq!(e.message(), "Journal file does not exist: b.ledger");
    assert_eq!(TimeParseError.message(), "Couldn't parse time.");
}

#[test]
fn ledger_error_messages() {
    assert_eq!(
        LedgerError::AliasNotInList("x".to_string()).message().unwrap(),
        "Alias not found: x"
    );
    assert_eq!(
        LedgerError::TooManyEmptyPostings(12).message().unwrap(),
        "Too many empty postings: 12"
    );
    assert!(LedgerError::Overflow.message().is_none());
}
