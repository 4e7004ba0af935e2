//! Errors of the library.
use vstd::prelude::*;
use crate::money::Balance;
use crate::text::decimal;

verus! {

/// Errors while reading a journal.
#[derive(Debug)]
pub enum ParserError {
    CannotReadFile(String),
    UnexpectedInput(Option<String>),
    IncludeLoop(String),
    /// A number does not fit the 64-bit fractions the library computes with.
    Overflow,
}

/// A parser error with its texts as characters.
pub enum ParserErrorV {
    CannotReadFile(Seq<char>),
    UnexpectedInput(Option<Seq<char>>),
    IncludeLoop(Seq<char>),
    Overflow,
}

impl ParserError {
    pub open spec fn view(&self) -> ParserErrorV {
        match self {
            ParserError::CannotReadFile(s) => ParserErrorV::CannotReadFile(s@),
            ParserError::UnexpectedInput(Some(s)) => ParserErrorV::UnexpectedInput(Some(s@)),
            ParserError::UnexpectedInput(None) => ParserErrorV::UnexpectedInput(None),
            ParserError::IncludeLoop(s) => ParserErrorV::IncludeLoop(s@),
            ParserError::Overflow => ParserErrorV::Overflow,
        }
    }
}

/// A parser error with the place where it was found.
#[derive(Debug)]
pub struct Error {
    pub error: ParserError,
    pub file: Option<String>,
    pub line_index: usize,
    pub line_position: usize,
}

/// Errors while building or balancing a ledger.
#[derive(Debug)]
pub enum LedgerError {
    TransactionIsNotBalanced,
    EmptyPostingShouldBeLast,
    AliasNotInList(String),
    TooManyEmptyPostings(usize),
    /// An amount does not fit the 64-bit fractions the library computes with.
    Overflow,
    /// A price would divide by an amount of zero.
    DivisionByZero,
}

/// Errors while turning a balance into a single amount.
#[derive(Debug)]
pub enum BalanceError {
    TransactionIsNotBalanced,
    TooManyCurrencies(Balance),
}

/// The journal holds nothing.
#[derive(Debug)]
pub struct EmptyLedgerFileError;

impl EmptyLedgerFileError {
    /// The text shown for this error.
    pub fn message(&self) -> (res: String)
        ensures
            res@ == "The journal file does not have any information"@,
    {
        String::from_str("The journal file does not have any information")
    }
}

/// A file named on the command line or in the configuration is missing.
#[derive(Debug)]
pub enum MissingFileError {
    ConfigFileDoesNotExistError(String),
    JournalFileDoesNotExistError(String),
}

impl MissingFileError {
    /// The text shown for this error: which kind of file, and its path.
    pub fn message(&self) -> (res: String)
        ensures
            res@ == (match self {
                MissingFileError::ConfigFileDoesNotExistError(f) => "Configuration"@ + " file does not exist: "@ + f@,
                MissingFileError::JournalFileDoesNotExistError(f) => "Journal"@ + " file does not exist: "@ + f@,
            }),
    {
        let (title, file) = match self {
            MissingFileError::ConfigFileDoesNotExistError(x) => ("Configuration", x),
            MissingFileError::JournalFileDoesNotExistError(x) => ("Journal", x),
        };
        let mut res = String::from_str(title);
        res.append(" file does not exist: ");
        res.append(file.as_str());
        res
    }
}

/// A date on the command line could not be read.
#[derive(Debug)]
pub struct TimeParseError;

impl TimeParseError {
    /// The text shown for this error.
    pub fn message(&self) -> (res: String)
        ensures
            res@ == "Couldn't parse time."@,
    {
        String::from_str("Couldn't parse time.")
    }
}

impl LedgerError {
    /// The text shown for the errors that have one.
    pub fn message(&self) -> (res: Option<String>)
        ensures
            match self {
                LedgerError::AliasNotInList(x) => res matches Some(m) && m@ == "Alias not found: "@ + x@,
                LedgerError::TooManyEmptyPostings(n) => res matches Some(m) && m@ == "Too many empty postings: "@
                    + crate::text::decimal_digits(*n as nat),
                LedgerError::TransactionIsNotBalanced => res matches Some(m) && m@ == "Transaction is not balanced"@,
                _ => res is None,
            },
    {
        match self {
            LedgerError::AliasNotInList(x) => {
                let mut m = String::from_str("Alias not found: ");
                m.append(x.as_str());
                Some(m)
            },
            LedgerError::TooManyEmptyPostings(n) => {
                let mut m = String::from_str("Too many empty postings: ");
                let d = decimal(*n);
                m.append(d.as_str());
                Some(m)
            },
            LedgerError::TransactionIsNotBalanced => Some(String::from_str("Transaction is not balanced")),
            _ => None,
        }
    }
}

} // verus!
