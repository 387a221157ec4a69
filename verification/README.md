# recon

Reconciles a bank statement export (ANZ) against an accounting-ledger
export (QuickBooks) and reports the amounts that disagree.

- `src/` is the verified library (Verus):
  - `amounts` trims trailing zeros and a trailing point from an amount;
  - `records` holds the record and message types and the `AsRef` trait;
  - `amount_map` is an insertion-ordered map keyed by amount strings;
  - `matching` sets aside records with a partner on the other side, groups
    and counts records by amount, and cancels equal counts;
  - `reconcile` runs the whole reconciliation and states what it reports;
  - `messages`, `text` and `report` build the messages and the report text.
- `app/` reads the two CSV files, calls `reconcile_checked` and writes the
  three report files.
- `tests/` exercises the library on concrete records.
