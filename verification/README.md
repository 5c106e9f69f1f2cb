# pint-sg-validator

A validator for Peppol PINT SG billing documents (UBL 2.1 invoices and credit
notes), written in Verus: the rules, the extraction of fields from the XML
tree and the reading of amounts are verified against their specifications.

Layout:

- `src/xml.rs` — the XML tree; parsing is done by roxmltree behind trusted
  accessors, and the nodes are copied into the library's own `XmlDocument`.
- `src/parse.rs` — extraction of the billing `Document` from the tree.
- `src/number.rs` — reading amounts and percentages exactly (to 1100 decimal places),
  sums, the half-cent comparison, the exact comparison of a rate with a whole
  number, and the renderings used in messages.
- `src/wide.rs` — fixed-width decimal magnitudes (digit strings added,
  subtracted and ordered digit by digit) and the bound where a binary64 float
  overflows, so that amounts stay finite and exact over the whole float range.
- `src/rules.rs` — the PINT SG / EN 16931 / UBL rules and the `Report`.
- `src/laws.rs` — properties of the validator as a whole.
- `src/text.rs` — character-level helpers (trimming, comparison, digits).
- `app/main.rs` — the `pintsg` command line (file or stdin, text or `--json`).
