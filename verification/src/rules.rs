//! The rule set.
//!
//! Every rule inspects the parsed [`Document`] and adds zero or more
//! [`Finding`]s. Rule ids are namespaced by origin so a reader knows where
//! the requirement comes from:
//!
//! * `PINT-SG-*` — Singapore country rules (this crate's reading of the spec)
//! * `EN16931-*` — the European semantic core PINT builds on
//! * `UBL-*`     — structural / cardinality
//!
//! The values that could change with a spec revision (the customization id,
//! the current GST standard rate) are constants at the top of this file, each
//! citing its source, so a correction is a one-line edit that anyone can check
//! against the live specification.

use vstd::prelude::*;

use crate::model::{Document, DocumentView, LineView, Party, PartyView, TaxSubtotalView};
use crate::number::{
    add_numbers, amount_in, amount_of, equals_units, money_eq, number_in_str, number_of,
    push_plain_decimal, push_two_decimals, plain_decimal, sum, text_equals_units, two_decimals,
    value_of, within_half_cent, zero_number, Number, Value,
};
use crate::text::{nat_digits, push_nat_digits, str_eq};
use crate::xml::opt_string_view;

verus! {

/// PINT SG billing customization identifier.
/// Source: https://docs.peppol.eu/poac/sg/pint-sg/ (Billing v1.x).
/// The `@sg-1` jurisdiction suffix is what distinguishes SG from the base PINT
/// and from other jurisdictions (e.g. `@aus-1`, `@nz-1`).
pub const PINT_SG_CUSTOMIZATION: &'static str = "urn:peppol:pint:billing-1@sg-1";

/// Peppol billing process identifier (shared across PINT jurisdictions).
pub const PEPPOL_BILLING_PROFILE: &'static str = "urn:peppol:bis:billing";

/// Singapore participant scheme: UEN under ISO/IEC 6523 code `0195`.
/// Source: Peppol Policy for use of Identifiers / SG participant registration.
pub const SG_UEN_SCHEME: &'static str = "0195";

/// Current Singapore GST standard rate, in percent. Informational only — an
/// `S`-category line at a different rate is flagged as INFO, not an error,
/// because the rate is set by IRAS and has changed (7% -> 8% -> 9%).
pub const GST_STANDARD_RATE: u32 = 9;

#[derive(Clone, Copy, Debug, PartialEq, Eq, Structural)]
pub enum Severity {
    /// Would be rejected by an Access Point / does not conform.
    Error,
    /// Conforms, but likely wrong or risky — check before sending.
    Warning,
    /// Worth knowing; no action required.
    Info,
}

#[derive(Clone, Debug)]
pub struct Finding {
    pub rule: String,
    pub severity: Severity,
    pub message: String,
}

pub struct FindingView {
    pub rule: Seq<char>,
    pub severity: Severity,
    pub message: Seq<char>,
}

impl View for Finding {
    type V = FindingView;

    open spec fn view(&self) -> FindingView {
        FindingView { rule: self.rule@, severity: self.severity, message: self.message@ }
    }
}

#[derive(Clone, Debug)]
pub struct Report {
    pub findings: Vec<Finding>,
    /// True when there are no `Error` findings.
    pub conforms: bool,
    pub errors: usize,
    pub warnings: usize,
}

pub struct ReportView {
    pub findings: Seq<FindingView>,
    pub conforms: bool,
    pub errors: nat,
    pub warnings: nat,
}

pub open spec fn findings_view(v: Seq<Finding>) -> Seq<FindingView> {
    v.map_values(|f: Finding| f@)
}

impl View for Report {
    type V = ReportView;

    open spec fn view(&self) -> ReportView {
        ReportView {
            findings: findings_view(self.findings@),
            conforms: self.conforms,
            errors: self.errors as nat,
            warnings: self.warnings as nat,
        }
    }
}

/// How many findings have the given severity.
pub open spec fn count_severity(fs: Seq<FindingView>, s: Severity) -> nat
    decreases fs.len(),
{
    if fs.len() == 0 {
        0
    } else {
        count_severity(fs.drop_last(), s) + if fs.last().severity == s {
            1nat
        } else {
            0nat
        }
    }
}

/// The report on a list of findings: it conforms when no finding is an
/// error, and it counts errors and warnings.
pub open spec fn report_of(fs: Seq<FindingView>) -> ReportView {
    ReportView {
        findings: fs,
        conforms: count_severity(fs, Severity::Error) == 0,
        errors: count_severity(fs, Severity::Error),
        warnings: count_severity(fs, Severity::Warning),
    }
}

pub open spec fn finding(rule: Seq<char>, severity: Severity, message: Seq<char>) -> FindingView {
    FindingView { rule, severity, message }
}

pub open spec fn error(rule: Seq<char>, message: Seq<char>) -> Seq<FindingView> {
    seq![finding(rule, Severity::Error, message)]
}

pub open spec fn warning(rule: Seq<char>, message: Seq<char>) -> Seq<FindingView> {
    seq![finding(rule, Severity::Warning, message)]
}

pub open spec fn info(rule: Seq<char>, message: Seq<char>) -> Seq<FindingView> {
    seq![finding(rule, Severity::Info, message)]
}

pub open spec fn none() -> Seq<FindingView> {
    Seq::empty()
}

// ---------------------------------------------------------------------------
// What each rule finds
// ---------------------------------------------------------------------------

/// Absent, or present but empty.
pub open spec fn is_blank(v: Option<Seq<char>>) -> bool {
    match v {
        Some(s) => s.len() == 0,
        None => true,
    }
}

/// A mandatory business term: an error naming it where it is blank.
pub open spec fn require_findings(rule: Seq<char>, bt: Seq<char>, v: Option<Seq<char>>) -> Seq<
    FindingView,
> {
    if is_blank(v) {
        error(rule, bt + " is mandatory but missing or empty"@)
    } else {
        none()
    }
}

pub open spec fn profile_findings(d: DocumentView) -> Seq<FindingView> {
    (match d.customization_id {
        None => error("PINT-SG-01"@, "CustomizationID (BT-24) is missing"@),
        Some(v) => if v == PINT_SG_CUSTOMIZATION@ {
            none()
        } else {
            error(
                "PINT-SG-01"@,
                "CustomizationID is '"@ + v + "', expected '"@ + PINT_SG_CUSTOMIZATION@
                    + "' for PINT SG billing"@,
            )
        },
    }) + (match d.profile_id {
        None => error("PINT-SG-02"@, "ProfileID (BT-23) is missing"@),
        Some(v) => if v == PEPPOL_BILLING_PROFILE@ {
            none()
        } else {
            error(
                "PINT-SG-02"@,
                "ProfileID is '"@ + v + "', expected '"@ + PEPPOL_BILLING_PROFILE@ + "'"@,
            )
        },
    })
}

pub open spec fn is_ascii_digit(c: char) -> bool {
    '0' <= c && c <= '9'
}

/// An xs:date as PINT writes it: `YYYY-MM-DD`, ten ASCII characters.
pub open spec fn is_iso_date(s: Seq<char>) -> bool {
    &&& s.len() == 10
    &&& s[4] == '-'
    &&& s[7] == '-'
    &&& forall|i: int| 0 <= i < 10 && i != 4 && i != 7 ==> is_ascii_digit(#[trigger] s[i])
}

/// Three ASCII capital letters, as an ISO 4217 code is written.
pub open spec fn is_currency_code(s: Seq<char>) -> bool {
    &&& s.len() == 3
    &&& forall|i: int| 0 <= i < 3 ==> 'A' <= #[trigger] s[i] && s[i] <= 'Z'
}

pub open spec fn header_findings(d: DocumentView) -> Seq<FindingView> {
    require_findings("UBL-01"@, "Invoice number (BT-1)"@, d.id) + require_findings(
        "UBL-02"@,
        "Issue date (BT-2)"@,
        d.issue_date,
    ) + (match d.issue_date {
        Some(s) => if is_iso_date(s) {
            none()
        } else {
            error("EN16931-02"@, "Issue date '"@ + s + "' is not in YYYY-MM-DD form"@)
        },
        None => none(),
    }) + require_findings("UBL-03"@, "Document type code"@, d.type_code) + (match d.currency {
        None => error("UBL-04"@, "DocumentCurrencyCode (BT-5) is missing"@),
        Some(c) => if !is_currency_code(c) {
            error("EN16931-05"@, "Currency '"@ + c + "' is not a 3-letter ISO 4217 code"@)
        } else if c != "SGD"@ {
            info("PINT-SG-05"@, "Currency is '"@ + c + "'; SGD is usual for domestic SG invoices"@)
        } else {
            none()
        },
    })
}

/// The checks on one party: its name and its network endpoint.
pub open spec fn party_findings(who: Seq<char>, base: Seq<char>, p: PartyView) -> Seq<FindingView> {
    (if is_blank(p.name) {
        error(base + "-NAME"@, who + " name is missing"@)
    } else {
        none()
    }) + (if is_blank(p.endpoint.value) {
        error(
            base + "-EP"@,
            who
                + " EndpointID is missing — a party cannot be addressed on the network without it"@,
        )
    } else {
        match p.endpoint.scheme {
            None => error(base + "-EPSCHEME"@, who + " EndpointID has no schemeID"@),
            Some(s) => if s == SG_UEN_SCHEME@ {
                none()
            } else {
                info(
                    base + "-EPSCHEME"@,
                    who + " EndpointID scheme is '"@ + s
                        + "', not the Singapore UEN scheme '"@ + SG_UEN_SCHEME@ + "'"@,
                )
            },
        }
    })
}

/// Some tax subtotal is standard-rated.
pub open spec fn charges_standard_rate(d: DocumentView) -> bool {
    exists|i: int| 0 <= i < d.tax_subtotals.len() && #[trigger] d.tax_subtotals[i].category == Some(
        "S"@,
    )
}

pub open spec fn parties_findings(d: DocumentView) -> Seq<FindingView> {
    party_findings("Supplier"@, "PINT-SG-SELLER"@, d.supplier) + party_findings(
        "Customer"@,
        "PINT-SG-BUYER"@,
        d.customer,
    ) + (if charges_standard_rate(d) && is_blank(d.supplier.tax_company_id) {
        error(
            "PINT-SG-SELLER-GST"@,
            "Standard-rated GST is charged but the supplier has no GST registration id (PartyTaxScheme/CompanyID)"@,
        )
    } else {
        none()
    })
}

/// The GST category codes of EN 16931 (UNCL5305) as PINT SG uses them.
pub open spec fn is_valid_category(code: Seq<char>) -> bool {
    code == "S"@ || code == "Z"@ || code == "E"@ || code == "G"@ || code == "O"@ || code == "AE"@
}

pub open spec fn percent_of(p: Option<Seq<char>>) -> Option<Value> {
    match p {
        Some(s) => number_of(s),
        None => None,
    }
}

/// Whether a rate written as `text`, which reads as `r`, is other than the
/// whole number `units`: NaN never is, an infinity always is, and a finite
/// rate is unless the text is exactly that number.
pub open spec fn rate_differs(text: Seq<char>, r: Value, units: nat) -> bool {
    match r {
        Value::NotANumber => false,
        Value::Infinite { .. } => true,
        Value::Finite { .. } => !equals_units(text, units),
    }
}

pub open spec fn subtotal_findings(st: TaxSubtotalView) -> Seq<FindingView> {
    match st.category {
        None => error("EN16931-TAXCAT"@, "A tax subtotal has no category code"@),
        Some(code) => if !is_valid_category(code) {
            warning(
                "PINT-SG-TAXCAT"@,
                "Tax category '"@ + code
                    + "' is unusual for SG GST (expected one of [\"S\", \"Z\", \"E\", \"G\", \"O\", \"AE\"])"@,
            )
        } else if code == "S"@ {
            match percent_of(st.percent) {
                None => error("EN16931-TAXRATE"@, "Standard-rated (S) subtotal has no percent"@),
                Some(r) => if rate_differs(st.percent->0, r, GST_STANDARD_RATE as nat) {
                    info(
                        "PINT-SG-GSTRATE"@,
                        "Standard rate is "@ + plain_decimal(r) + "%, current SG GST is "@
                            + nat_digits(GST_STANDARD_RATE as nat) + "% — intended?"@,
                    )
                } else {
                    none()
                },
            }
        } else {
            none()
        },
    }
}

pub open spec fn subtotals_findings(sts: Seq<TaxSubtotalView>) -> Seq<FindingView>
    decreases sts.len(),
{
    if sts.len() == 0 {
        none()
    } else {
        subtotals_findings(sts.drop_last()) + subtotal_findings(sts.last())
    }
}

pub open spec fn tax_findings(d: DocumentView) -> Seq<FindingView> {
    (if d.tax_total_amount is None {
        error("EN16931-TAX"@, "TaxTotal/TaxAmount (BT-110) is missing"@)
    } else {
        none()
    }) + if d.tax_subtotals.len() == 0 {
        error("EN16931-TAXCAT"@, "No tax subtotal / category found"@)
    } else {
        subtotals_findings(d.tax_subtotals)
    }
}

pub open spec fn amount_opt(v: Option<Seq<char>>) -> Option<Value> {
    match v {
        Some(s) => amount_of(s),
        None => None,
    }
}

pub open spec fn negative_zero() -> Value {
    Value::Finite { negative: true, magnitude: 0 }
}

/// The sum of the line amounts that read as numbers, added in order from
/// negative zero (as a float sum does).
pub open spec fn line_sum(ls: Seq<LineView>) -> Value
    decreases ls.len(),
{
    if ls.len() == 0 {
        negative_zero()
    } else {
        match amount_opt(ls.last().line_extension) {
            Some(n) => sum(line_sum(ls.drop_last()), n),
            None => line_sum(ls.drop_last()),
        }
    }
}

/// EN16931 BR-CO-15: tax-inclusive = tax-exclusive + total tax.
pub open spec fn co15_findings(d: DocumentView) -> Seq<FindingView> {
    match (
        amount_opt(d.totals.tax_exclusive),
        amount_opt(d.totals.tax_inclusive),
        amount_opt(d.tax_total_amount),
    ) {
        (Some(excl), Some(incl), Some(tax)) => if !within_half_cent(incl, sum(excl, tax)) {
            error(
                "EN16931-CO-15"@,
                "TaxInclusiveAmount ("@ + two_decimals(incl) + ") != TaxExclusiveAmount ("@
                    + two_decimals(excl) + ") + TaxTotal ("@ + two_decimals(tax) + ") = "@
                    + two_decimals(sum(excl, tax)),
            )
        } else {
            none()
        },
        _ => none(),
    }
}

/// The declared line extension total equals the sum of the lines.
pub open spec fn co10_findings(d: DocumentView) -> Seq<FindingView> {
    match amount_opt(d.totals.line_extension) {
        Some(declared) => {
            let summed = line_sum(d.lines);
            if d.lines.len() != 0 && !within_half_cent(declared, summed) {
                error(
                    "EN16931-CO-10"@,
                    "LineExtensionAmount ("@ + two_decimals(declared) + ") != sum of line amounts ("@
                        + two_decimals(summed) + ")"@,
                )
            } else {
                none()
            }
        },
        None => none(),
    }
}

pub open spec fn totals_findings(d: DocumentView) -> Seq<FindingView> {
    require_findings(
        "UBL-TOTAL"@,
        "LegalMonetaryTotal/PayableAmount (BT-115)"@,
        d.totals.payable,
    ) + co15_findings(d) + co10_findings(d)
}

/// The checks on the line numbered `n` (from 1).
pub open spec fn line_findings(n: nat, l: LineView) -> Seq<FindingView> {
    let prefix = "Line "@ + nat_digits(n) + ": "@;
    (if is_blank(l.id) {
        error("UBL-LINE-ID"@, prefix + "missing line ID"@)
    } else {
        none()
    }) + (if is_blank(l.item_name) {
        error("EN16931-LINE-NAME"@, prefix + "item has no Name (BT-153)"@)
    } else {
        none()
    }) + (if amount_opt(l.line_extension) is None {
        error(
            "EN16931-LINE-AMT"@,
            prefix + "missing or non-numeric LineExtensionAmount (BT-131)"@,
        )
    } else {
        none()
    }) + (if is_blank(l.quantity) {
        error("UBL-LINE-QTY"@, prefix + "missing quantity"@)
    } else {
        none()
    })
}

pub open spec fn each_line_findings(ls: Seq<LineView>) -> Seq<FindingView>
    decreases ls.len(),
{
    if ls.len() == 0 {
        none()
    } else {
        each_line_findings(ls.drop_last()) + line_findings(ls.len(), ls.last())
    }
}

pub open spec fn lines_findings(d: DocumentView) -> Seq<FindingView> {
    if d.lines.len() == 0 {
        error("EN16931-LINE"@, "The document has no invoice lines"@)
    } else {
        each_line_findings(d.lines)
    }
}

/// Every finding on a document, rule by rule in a fixed order.
pub open spec fn findings_of(d: DocumentView) -> Seq<FindingView> {
    profile_findings(d) + header_findings(d) + parties_findings(d) + tax_findings(d)
        + totals_findings(d) + lines_findings(d)
}

// ---------------------------------------------------------------------------
// Reports
// ---------------------------------------------------------------------------

impl Report {
    /// The report on a list of findings (see [`report_of`]).
    pub fn from(findings: Vec<Finding>) -> (r: Report)
        ensures
            r@ == report_of(findings_view(findings@)),
    {
        let ghost fs = findings_view(findings@);
        let mut errors: usize = 0;
        let mut warnings: usize = 0;
        let mut i: usize = 0;
        assert(fs.take(0) =~= Seq::<FindingView>::empty());
        while i < findings.len()
            invariant
                fs == findings_view(findings@),
                i <= findings.len(),
                errors <= i,
                warnings <= i,
                errors == count_severity(fs.take(i as int), Severity::Error),
                warnings == count_severity(fs.take(i as int), Severity::Warning),
            decreases findings.len() - i,
        {
            proof {
                assert(fs.take(i + 1).drop_last() =~= fs.take(i as int));
                assert(fs[i as int] == findings@[i as int]@);
            }
            if findings[i].severity == Severity::Error {
                errors = errors + 1;
            }
            if findings[i].severity == Severity::Warning {
                warnings = warnings + 1;
            }
            i = i + 1;
        }
        assert(fs.take(findings.len() as int) =~= fs);
        Report { conforms: errors == 0, errors, warnings, findings }
    }

    /// A single fatal finding (used when the XML will not even parse).
    pub fn fatal(rule: &str, message: &str) -> (r: Report)
        ensures
            r@ == report_of(error(rule@, message@)),
    {
        let f = Finding { rule: rule.to_string(), severity: Severity::Error, message: message.to_string() };
        let mut v: Vec<Finding> = Vec::new();
        v.push(f);
        assert(findings_view(v@) =~= error(rule@, message@));
        Report::from(v)
    }
}

/// The findings gathered so far.
pub struct Ctx {
    pub out: Vec<Finding>,
}

impl Ctx {
    pub open spec fn found(&self) -> Seq<FindingView> {
        findings_view(self.out@)
    }

    /// A context with no findings yet.
    pub fn new() -> (c: Ctx)
        ensures
            c.found() == Seq::<FindingView>::empty(),
    {
        let c = Ctx { out: Vec::new() };
        assert(c.found() =~= Seq::<FindingView>::empty());
        c
    }

    pub fn record(&mut self, rule: &str, severity: Severity, msg: String)
        ensures
            final(self).found() == old(self).found() + seq![finding(rule@, severity, msg@)],
    {
        self.out.push(Finding { rule: rule.to_string(), severity, message: msg });
        assert(self.found() =~= old(self).found() + seq![finding(rule@, severity, msg@)]);
    }

    pub fn err(&mut self, rule: &str, msg: String)
        ensures
            final(self).found() == old(self).found() + error(rule@, msg@),
    {
        self.record(rule, Severity::Error, msg);
    }

    pub fn warn(&mut self, rule: &str, msg: String)
        ensures
            final(self).found() == old(self).found() + warning(rule@, msg@),
    {
        self.record(rule, Severity::Warning, msg);
    }

    pub fn info(&mut self, rule: &str, msg: String)
        ensures
            final(self).found() == old(self).found() + info(rule@, msg@),
    {
        self.record(rule, Severity::Info, msg);
    }

    /// Require a field; emit an error naming the business term if absent.
    pub fn require(&mut self, rule: &str, bt: &str, value: &Option<String>)
        ensures
            final(self).found() == old(self).found() + require_findings(
                rule@,
                bt@,
                opt_string_view(*value),
            ),
    {
        let blank = match value {
            Some(v) => v.as_str().is_empty(),
            None => true,
        };
        if blank {
            let mut m = bt.to_string();
            m.append(" is mandatory but missing or empty");
            self.err(rule, m);
        } else {
            assert(self.found() =~= self.found() + none());
        }
    }
}

// ---------------------------------------------------------------------------
// The rules
// ---------------------------------------------------------------------------

pub fn run(doc: &Document) -> (r: Report)
    ensures
        r@ == report_of(findings_of(doc@)),
{
    let mut c = Ctx::new();
    profile(&mut c, doc);
    header(&mut c, doc);
    parties(&mut c, doc);
    tax(&mut c, doc);
    totals(&mut c, doc);
    lines(&mut c, doc);
    assert(c.found() =~= findings_of(doc@));
    Report::from(c.out)
}

pub fn profile(c: &mut Ctx, doc: &Document)
    ensures
        final(c).found() == old(c).found() + profile_findings(doc@),
{
    let ghost start = c.found();
    match &doc.customization_id {
        None => c.err("PINT-SG-01", "CustomizationID (BT-24) is missing".to_string()),
        Some(v) => {
            if !str_eq(v.as_str(), PINT_SG_CUSTOMIZATION) {
                let mut m = "CustomizationID is '".to_string();
                m.append(v.as_str());
                m.append("', expected '");
                m.append(PINT_SG_CUSTOMIZATION);
                m.append("' for PINT SG billing");
                c.err("PINT-SG-01", m);
            }
        },
    }
    let ghost mid = c.found();
    match &doc.profile_id {
        None => c.err("PINT-SG-02", "ProfileID (BT-23) is missing".to_string()),
        Some(v) => {
            if !str_eq(v.as_str(), PEPPOL_BILLING_PROFILE) {
                let mut m = "ProfileID is '".to_string();
                m.append(v.as_str());
                m.append("', expected '");
                m.append(PEPPOL_BILLING_PROFILE);
                m.append("'");
                c.err("PINT-SG-02", m);
            }
        },
    }
    assert(c.found() =~= start + profile_findings(doc@));
}

fn is_iso_date_exec(s: &str) -> (r: bool)
    ensures
        r == is_iso_date(s@),
{
    let v = crate::text::chars_of(s);
    if v.len() != 10 || v[4] != '-' || v[7] != '-' {
        return false;
    }
    let mut i: usize = 0;
    while i < 10
        invariant
            v@ == s@,
            v.len() == 10,
            i <= 10,
            forall|k: int| 0 <= k < i && k != 4 && k != 7 ==> is_ascii_digit(#[trigger] s@[k]),
        decreases 10 - i,
    {
        if i != 4 && i != 7 && !('0' <= v[i] && v[i] <= '9') {
            return false;
        }
        i = i + 1;
    }
    true
}

fn is_currency_code_exec(s: &str) -> (r: bool)
    ensures
        r == is_currency_code(s@),
{
    let v = crate::text::chars_of(s);
    if v.len() != 3 {
        return false;
    }
    let mut i: usize = 0;
    while i < 3
        invariant
            v@ == s@,
            v.len() == 3,
            i <= 3,
            forall|k: int| 0 <= k < i ==> 'A' <= #[trigger] s@[k] && s@[k] <= 'Z',
        decreases 3 - i,
    {
        if !('A' <= v[i] && v[i] <= 'Z') {
            return false;
        }
        i = i + 1;
    }
    true
}

pub fn header(c: &mut Ctx, doc: &Document)
    ensures
        final(c).found() == old(c).found() + header_findings(doc@),
{
    let ghost start = c.found();
    c.require("UBL-01", "Invoice number (BT-1)", &doc.id);
    c.require("UBL-02", "Issue date (BT-2)", &doc.issue_date);
    if let Some(d) = &doc.issue_date {
        // PINT dates are xs:date: YYYY-MM-DD.
        if !is_iso_date_exec(d.as_str()) {
            let mut m = "Issue date '".to_string();
            m.append(d.as_str());
            m.append("' is not in YYYY-MM-DD form");
            c.err("EN16931-02", m);
        }
    }
    c.require("UBL-03", "Document type code", &doc.type_code);
    match &doc.currency {
        None => c.err("UBL-04", "DocumentCurrencyCode (BT-5) is missing".to_string()),
        Some(cur) => {
            if !is_currency_code_exec(cur.as_str()) {
                let mut m = "Currency '".to_string();
                m.append(cur.as_str());
                m.append("' is not a 3-letter ISO 4217 code");
                c.err("EN16931-05", m);
            } else if !str_eq(cur.as_str(), "SGD") {
                let mut m = "Currency is '".to_string();
                m.append(cur.as_str());
                m.append("'; SGD is usual for domestic SG invoices");
                c.info("PINT-SG-05", m);
            }
        },
    }
    assert(c.found() =~= start + header_findings(doc@));
}

pub fn check_party(c: &mut Ctx, who: &str, rule_base: &str, p: &Party)
    ensures
        final(c).found() == old(c).found() + party_findings(who@, rule_base@, p@),
{
    let ghost start = c.found();
    let name_blank = match &p.name {
        Some(n) => n.as_str().is_empty(),
        None => true,
    };
    if name_blank {
        let mut rule = rule_base.to_string();
        rule.append("-NAME");
        let mut m = who.to_string();
        m.append(" name is missing");
        c.err(rule.as_str(), m);
    }
    let value_blank = match &p.endpoint.value {
        Some(v) => v.as_str().is_empty(),
        None => true,
    };
    if value_blank {
        let mut rule = rule_base.to_string();
        rule.append("-EP");
        let mut m = who.to_string();
        m.append(" EndpointID is missing — a party cannot be addressed on the network without it");
        c.err(rule.as_str(), m);
    } else {
        match &p.endpoint.scheme {
            None => {
                let mut rule = rule_base.to_string();
                rule.append("-EPSCHEME");
                let mut m = who.to_string();
                m.append(" EndpointID has no schemeID");
                c.err(rule.as_str(), m);
            },
            Some(other) => {
                if !str_eq(other.as_str(), SG_UEN_SCHEME) {
                    let mut rule = rule_base.to_string();
                    rule.append("-EPSCHEME");
                    let mut m = who.to_string();
                    m.append(" EndpointID scheme is '");
                    m.append(other.as_str());
                    m.append("', not the Singapore UEN scheme '");
                    m.append(SG_UEN_SCHEME);
                    m.append("'");
                    c.info(rule.as_str(), m);
                }
            },
        }
    }
    assert(c.found() =~= start + party_findings(who@, rule_base@, p@));
}

fn charges_tax(doc: &Document) -> (r: bool)
    ensures
        r == charges_standard_rate(doc@),
{
    let mut i: usize = 0;
    while i < doc.tax_subtotals.len()
        invariant
            i <= doc.tax_subtotals.len(),
            forall|k: int| 0 <= k < i ==> #[trigger] doc@.tax_subtotals[k].category != Some("S"@),
        decreases doc.tax_subtotals.len() - i,
    {
        assert(doc@.tax_subtotals[i as int] == doc.tax_subtotals@[i as int]@);
        match &doc.tax_subtotals[i].category {
            Some(cat) => {
                if str_eq(cat.as_str(), "S") {
                    assert(doc@.tax_subtotals[i as int].category == Some("S"@));
                    return true;
                }
            },
            None => {},
        }
        i = i + 1;
    }
    false
}

pub fn parties(c: &mut Ctx, doc: &Document)
    ensures
        final(c).found() == old(c).found() + parties_findings(doc@),
{
    let ghost start = c.found();
    check_party(c, "Supplier", "PINT-SG-SELLER", &doc.supplier);
    check_party(c, "Customer", "PINT-SG-BUYER", &doc.customer);
    // If any tax is charged, the seller must carry a GST registration id.
    let id_blank = match &doc.supplier.tax_company_id {
        Some(v) => v.as_str().is_empty(),
        None => true,
    };
    if charges_tax(doc) && id_blank {
        c.err(
            "PINT-SG-SELLER-GST",
            "Standard-rated GST is charged but the supplier has no GST registration id (PartyTaxScheme/CompanyID)".to_string(),
        );
    }
    assert(c.found() =~= start + parties_findings(doc@));
}

fn is_valid_category_exec(code: &str) -> (r: bool)
    ensures
        r == is_valid_category(code@),
{
    str_eq(code, "S") || str_eq(code, "Z") || str_eq(code, "E") || str_eq(code, "G") || str_eq(
        code,
        "O",
    ) || str_eq(code, "AE")
}

pub fn check_subtotal(c: &mut Ctx, st: &crate::model::TaxSubtotal)
    ensures
        final(c).found() == old(c).found() + subtotal_findings(st@),
{
    let ghost start = c.found();
    match &st.category {
        None => c.err("EN16931-TAXCAT", "A tax subtotal has no category code".to_string()),
        Some(code) => {
            if !is_valid_category_exec(code.as_str()) {
                let mut m = "Tax category '".to_string();
                m.append(code.as_str());
                m.append("' is unusual for SG GST (expected one of [\"S\", \"Z\", \"E\", \"G\", \"O\", \"AE\"])");
                c.warn("PINT-SG-TAXCAT", m);
            } else if str_eq(code.as_str(), "S") {
                let rate = match &st.percent {
                    Some(p) => number_in_str(p.as_str()),
                    None => None,
                };
                match rate {
                    None => c.err(
                        "EN16931-TAXRATE",
                        "Standard-rated (S) subtotal has no percent".to_string(),
                    ),
                    Some(r) => {
                        let differs = match &r {
                            Number::NotANumber => false,
                            Number::Infinite { .. } => true,
                            Number::Finite { .. } => match &st.percent {
                                Some(p) => !text_equals_units(p.as_str(), GST_STANDARD_RATE),
                                None => true,
                            },
                        };
                        if differs {
                            let mut m = "Standard rate is ".to_string();
                            push_plain_decimal(&mut m, &r);
                            m.append("%, current SG GST is ");
                            push_nat_digits(&mut m, GST_STANDARD_RATE as u128);
                            m.append("% — intended?");
                            c.info("PINT-SG-GSTRATE", m);
                        }
                    },
                }
            }
        },
    }
    assert(c.found() =~= start + subtotal_findings(st@));
}

pub fn tax(c: &mut Ctx, doc: &Document)
    ensures
        final(c).found() == old(c).found() + tax_findings(doc@),
{
    let ghost start = c.found();
    if doc.tax_total_amount.is_none() {
        c.err("EN16931-TAX", "TaxTotal/TaxAmount (BT-110) is missing".to_string());
    }
    let ghost mid = c.found();
    if doc.tax_subtotals.len() == 0 {
        c.err("EN16931-TAXCAT", "No tax subtotal / category found".to_string());
        assert(c.found() =~= start + tax_findings(doc@));
        return;
    }
    let ghost sts = doc@.tax_subtotals;
    let mut i: usize = 0;
    assert(sts.take(0) =~= Seq::<TaxSubtotalView>::empty());
    assert(mid =~= mid + subtotals_findings(sts.take(0)));
    while i < doc.tax_subtotals.len()
        invariant
            sts == doc@.tax_subtotals,
            i <= doc.tax_subtotals.len(),
            c.found() == mid + subtotals_findings(sts.take(i as int)),
        decreases doc.tax_subtotals.len() - i,
    {
        proof {
            assert(sts.take(i + 1).drop_last() =~= sts.take(i as int));
            assert(sts[i as int] == doc.tax_subtotals@[i as int]@);
        }
        check_subtotal(c, &doc.tax_subtotals[i]);
        i = i + 1;
        assert(c.found() =~= mid + subtotals_findings(sts.take(i as int)));
    }
    assert(sts.take(doc.tax_subtotals.len() as int) =~= sts);
    assert(c.found() =~= start + tax_findings(doc@));
}

fn amount(v: &Option<String>) -> (r: Option<Number>)
    ensures
        value_of(r) == amount_opt(opt_string_view(*v)),
        r matches Some(n) ==> n.wf(),
{
    match v {
        Some(s) => amount_in(s.as_str()),
        None => None,
    }
}

fn sum_lines(doc: &Document) -> (r: Number)
    ensures
        r@ == line_sum(doc@.lines),
        r.wf(),
{
    let ghost ls = doc@.lines;
    let mut acc = zero_number(true);
    let mut i: usize = 0;
    assert(ls.take(0) =~= Seq::<LineView>::empty());
    while i < doc.lines.len()
        invariant
            ls == doc@.lines,
            i <= doc.lines.len(),
            acc@ == line_sum(ls.take(i as int)),
            acc.wf(),
        decreases doc.lines.len() - i,
    {
        proof {
            assert(ls.take(i + 1).drop_last() =~= ls.take(i as int));
            assert(ls[i as int] == doc.lines@[i as int]@);
        }
        match amount(&doc.lines[i].line_extension) {
            Some(n) => {
                acc = add_numbers(&acc, &n);
            },
            None => {},
        }
        i = i + 1;
    }
    assert(ls.take(doc.lines.len() as int) =~= ls);
    acc
}

pub fn totals(c: &mut Ctx, doc: &Document)
    ensures
        final(c).found() == old(c).found() + totals_findings(doc@),
{
    let ghost start = c.found();
    let t = &doc.totals;
    c.require("UBL-TOTAL", "LegalMonetaryTotal/PayableAmount (BT-115)", &t.payable);
    let ghost mid = c.found();
    // EN16931 BR-CO-15: tax-inclusive = tax-exclusive + total tax.
    let excl = amount(&t.tax_exclusive);
    let incl = amount(&t.tax_inclusive);
    let tax = amount(&doc.tax_total_amount);
    match (excl, incl, tax) {
        (Some(excl), Some(incl), Some(tax)) => {
            let total = add_numbers(&excl, &tax);
            if !money_eq(&incl, &total) {
                let mut m = "TaxInclusiveAmount (".to_string();
                push_two_decimals(&mut m, &incl);
                m.append(") != TaxExclusiveAmount (");
                push_two_decimals(&mut m, &excl);
                m.append(") + TaxTotal (");
                push_two_decimals(&mut m, &tax);
                m.append(") = ");
                push_two_decimals(&mut m, &total);
                c.err("EN16931-CO-15", m);
            }
        },
        _ => {},
    }
    assert(c.found() =~= mid + co15_findings(doc@));
    let ghost mid2 = c.found();
    // Line extension total should equal the sum of the lines.
    if let Some(declared) = amount(&t.line_extension) {
        let summed = sum_lines(doc);
        if doc.lines.len() != 0 && !money_eq(&declared, &summed) {
            let mut m = "LineExtensionAmount (".to_string();
            push_two_decimals(&mut m, &declared);
            m.append(") != sum of line amounts (");
            push_two_decimals(&mut m, &summed);
            m.append(")");
            c.err("EN16931-CO-10", m);
        }
    }
    assert(c.found() =~= mid2 + co10_findings(doc@));
    assert(c.found() =~= start + totals_findings(doc@));
}

pub fn check_line(c: &mut Ctx, n: usize, l: &crate::model::Line)
    ensures
        final(c).found() == old(c).found() + line_findings(n as nat, l@),
{
    let ghost start = c.found();
    let mut prefix = "Line ".to_string();
    push_nat_digits(&mut prefix, n as u128);
    prefix.append(": ");
    let id_blank = match &l.id {
        Some(v) => v.as_str().is_empty(),
        None => true,
    };
    if id_blank {
        let mut m = prefix.clone();
        m.append("missing line ID");
        c.err("UBL-LINE-ID", m);
    }
    let name_blank = match &l.item_name {
        Some(v) => v.as_str().is_empty(),
        None => true,
    };
    if name_blank {
        let mut m = prefix.clone();
        m.append("item has no Name (BT-153)");
        c.err("EN16931-LINE-NAME", m);
    }
    if amount(&l.line_extension).is_none() {
        let mut m = prefix.clone();
        m.append("missing or non-numeric LineExtensionAmount (BT-131)");
        c.err("EN16931-LINE-AMT", m);
    }
    let qty_blank = match &l.quantity {
        Some(v) => v.as_str().is_empty(),
        None => true,
    };
    if qty_blank {
        let mut m = prefix.clone();
        m.append("missing quantity");
        c.err("UBL-LINE-QTY", m);
    }
    assert(c.found() =~= start + line_findings(n as nat, l@));
}

pub fn lines(c: &mut Ctx, doc: &Document)
    ensures
        final(c).found() == old(c).found() + lines_findings(doc@),
{
    let ghost start = c.found();
    if doc.lines.len() == 0 {
        c.err("EN16931-LINE", "The document has no invoice lines".to_string());
        return;
    }
    let ghost ls = doc@.lines;
    let mut i: usize = 0;
    assert(ls.take(0) =~= Seq::<LineView>::empty());
    assert(start =~= start + each_line_findings(ls.take(0)));
    while i < doc.lines.len()
        invariant
            ls == doc@.lines,
            i <= doc.lines.len(),
            c.found() == start + each_line_findings(ls.take(i as int)),
        decreases doc.lines.len() - i,
    {
        proof {
            assert(ls.take(i + 1).drop_last() =~= ls.take(i as int));
            assert(ls[i as int] == doc.lines@[i as int]@);
        }
        check_line(c, i + 1, &doc.lines[i]);
        i = i + 1;
        assert(c.found() =~= start + each_line_findings(ls.take(i as int)));
    }
    assert(ls.take(doc.lines.len() as int) =~= ls);
}

} // verus!
