# ledger

A double-entry accounting library whose behaviour is stated in Verus
contracts and proved: transactions are settled (prices resolved,
an elided amount inferred, the balance checked), grouped by account,
valued at lot, market or historical prices, and reported as balances
(flat, hierarchical or compact, at one or several dates), as a register
with running totals, or written back in journal format.

Layout:

- `src/` — the verified library. The main modules:
  - `decimal`, `date`, `symbol`, `quantity`, `amount`: numbers (through
    `rust_decimal`), calendar days (through `chrono`), commodities and
    amounts of several commodities;
  - `number`, `parser`, `pricedb`: number formats, comments and tags,
    market-price lines;
  - `xact`: parsed and settled transactions, the journal;
  - `prices`: the price database;
  - `holdings`, `ntypes`, `tamount`: lots with averaged prices, values at
    dates;
  - `accview`, `balview`, `ledger`, `account`: account trees and balance
    views, postings grouped by account, balances;
  - `register`, `print`, `catalog`, `report`: the reports.
- `tests/` — tests of the library.
- `app/` — the command line program (`balance`, `register`, `print`,
  `info`). It reads journals in their JSON form (one transaction object,
  or a list of them) and price databases as `P` lines; journals written
  in the plain-text ledger syntax are not read.
