# dinero

Dinero reads ledger journal files (double entry accounting, in the format of
ledger-cli), balances their transactions and prints balance and register
reports.

Amounts are fractions of 64-bit integers (`num`'s `Ratio<i64>`), kept in
lowest terms, so every sum and product is exact as long as it fits: an
operation whose numerator or denominator would leave the `i64` range stops
with an `Overflow` error rather than giving a rounded or wrapped result.

The library under `src/` is written in Verus: each function carries a
contract, and Verus proves the code against it.

- `rational`, `money`, `format`: amounts as `i64` fractions, balances of
  several commodities, and how amounts are written.
- `text`, `chars`, `numbers`, `date`: characters, the cursor over a journal,
  numbers and dates.
- `models`, `list`, `assoc`: accounts, commodities, payees, tags, comments,
  and the lists that find them by name, alias or regular expression.
- `parser`: journal items (transactions, postings, directives, prices) and
  the parsed ledger.
- `transaction`, `ledger`: balancing transactions and building the ledger.
- `filter`, `report`, `period`: queries, the figures of the balance and
  register reports, reporting periods.
- `cli`: command line dates, configuration files, columns.
- `laws`: properties of the library as a whole, with their proofs.

`app/` is the command line program around the library: options, reading
files (and the files they include), configuration files and printing.
`tests/` holds the tests.
