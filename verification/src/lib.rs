//! # pint-sg-validator
//!
//! A validator for Peppol **PINT SG** (Singapore) billing invoices and credit
//! notes — the format Singapore businesses must exchange over the InvoiceNow
//! (Peppol) network.
//!
//! Parse a UBL 2.1 Invoice or CreditNote and check it against the rules that
//! most often go wrong in practice: the PINT SG specification identifiers, the
//! Singapore participant scheme, GST tax coding (Singapore uses GST, not VAT),
//! the document-total arithmetic from EN 16931, and the mandatory business
//! terms. Each finding carries a rule id, a severity, and a human message.
//!
//! It is not a drop-in replacement for the official Schematron: it implements
//! the high-value subset by hand. Treat a clean result as "very likely to pass
//! an Access Point", not "guaranteed".

pub mod laws;
pub mod model;
pub mod number;
pub mod parse;
pub mod rules;
pub mod text;
pub mod wide;
pub mod xml;

pub use model::{DocKind, Document};
pub use rules::{Finding, Report, Severity};

use vstd::prelude::*;

verus! {

/// The report on an XML text: the rules' findings on the document it holds,
/// or a single `XML-PARSE` error saying why it could not be read.
pub open spec fn report_on(text: Seq<char>) -> rules::ReportView {
    match parse::parse_outcome(text) {
        Ok(d) => rules::report_of(rules::findings_of(d)),
        Err(msg) => rules::report_of(rules::error("XML-PARSE"@, msg)),
    }
}

/// Validate a UBL billing document supplied as an XML string.
///
/// Returns a [`Report`] even when the XML is malformed — a parse failure is
/// itself reported as a single fatal finding, so a caller never has to handle
/// two different error channels.
pub fn validate(xml: &str) -> (r: Report)
    ensures
        r@ == report_on(xml@),
{
    match parse::parse(xml) {
        Ok(doc) => rules::run(&doc),
        Err(msg) => Report::fatal("XML-PARSE", msg.as_str()),
    }
}

} // verus!
