use pint_sg_validator::model::{
    DocKind, Document, Line, MonetaryTotal, Party, SchemedId, TaxSubtotal,
};
use pint_sg_validator::rules::run;
use pint_sg_validator::{Report, Severity};

fn s(v: &str) -> Option<String> {
    Some(v.to_string())
}

fn party(name: &str, endpoint: &str) -> Party {
    Party {
        endpoint: SchemedId { scheme: s("0195"), value: s(endpoint) },
        name: s(name),
        tax_company_id: s("M2-1234567-K"),
        tax_scheme_id: s("GST"),
    }
}

fn line(id: &str, amount: &str) -> Line {
    Line {
        id: s(id),
        quantity: s("1"),
        line_extension: s(amount),
        item_name: s("Widget"),
        price_amount: s(amount),
    }
}

fn good() -> Document {
    Document {
        kind: DocKind::Invoice,
        customization_id: s("urn:peppol:pint:billing-1@sg-1"),
        profile_id: s("urn:peppol:bis:billing"),
        id: s("INV-1"),
        issue_date: s("2026-01-15"),
        type_code: s("380"),
        currency: s("SGD"),
        supplier: party("Acme", "SGUEN200406416G"),
        customer: party("Buyer", "SGUEN201912345A"),
        tax_total_amount: s("9.00"),
        tax_subtotals: vec![TaxSubtotal { category: s("S"), percent: s("9") }],
        totals: MonetaryTotal {
            line_extension: s("100.00"),
            tax_exclusive: s("100.00"),
            tax_inclusive: s("109.00"),
            payable: s("109.00"),
        },
        lines: vec![line("1", "60.00"), line("2", "40.00")],
        namespaces: Vec::new(),
    }
}

fn found(r: &Report) -> Vec<(String, Severity, String)> {
    r.findings.iter().map(|f| (f.rule.clone(), f.severity, f.message.clone())).collect()
}

fn only(r: &Report, rule: &str, severity: Severity, message: &str) {
    assert_eq!(found(r), vec![(rule.to_string(), severity, message.to_string())]);
}

#[test]
fn a_complete_document_has_no_findings() {
    let r = run(&good());
    assert!(r.findings.is_empty(), "{:?}", r.findings);
    assert!(r.conforms);
    assert_eq!((r.errors, r.warnings), (0, 0));
}

#[test]
fn customization_and_profile_are_checked() {
    let mut d = good();
    d.customization_id = None;
    only(&run(&d), "PINT-SG-01", Severity::Error, "CustomizationID (BT-24) is missing");
    d.customization_id = s("urn:peppol:pint:billing-1@aus-1");
    only(
        &run(&d),
        "PINT-SG-01",
        Severity::Error,
        "CustomizationID is 'urn:peppol:pint:billing-1@aus-1', expected 'urn:peppol:pint:billing-1@sg-1' for PINT SG billing",
    );
    let mut d = good();
    d.profile_id = s("urn:x");
    only(&run(&d), "PINT-SG-02", Severity::Error, "ProfileID is 'urn:x', expected 'urn:peppol:bis:billing'");
    d.profile_id = None;
    only(&run(&d), "PINT-SG-02", Severity::Error, "ProfileID (BT-23) is missing");
}

#[test]
fn mandatory_header_terms_are_required() {
    let mut d = good();
    d.id = s("");
    d.type_code = None;
    let r = run(&d);
    assert_eq!(
        found(&r),
        vec![
            ("UBL-01".to_string(), Severity::Error, "Invoice number (BT-1) is mandatory but missing or empty".to_string()),
            ("UBL-03".to_string(), Severity::Error, "Document type code is mandatory but missing or empty".to_string()),
        ]
    );
    assert_eq!(r.errors, 2);
    let mut d = good();
    d.issue_date = None;
    only(&run(&d), "UBL-02", Severity::Error, "Issue date (BT-2) is mandatory but missing or empty");
}

#[test]
fn issue_dates_must_be_iso() {
    for bad in ["2026/01/15", "15-01-2026", "2026-1-15", "2026-01-1x", "２026-01-15"] {
        let mut d = good();
        d.issue_date = s(bad);
        only(&run(&d), "EN16931-02", Severity::Error, &format!("Issue date '{bad}' is not in YYYY-MM-DD form"));
    }
}

#[test]
fn currency_codes_are_checked() {
    let mut d = good();
    d.currency = s("USD");
    let r = run(&d);
    only(&r, "PINT-SG-05", Severity::Info, "Currency is 'USD'; SGD is usual for domestic SG invoices");
    assert!(r.conforms);
    d.currency = s("sgd");
    only(&run(&d), "EN16931-05", Severity::Error, "Currency 'sgd' is not a 3-letter ISO 4217 code");
    d.currency = s("SGDX");
    only(&run(&d), "EN16931-05", Severity::Error, "Currency 'SGDX' is not a 3-letter ISO 4217 code");
    d.currency = None;
    only(&run(&d), "UBL-04", Severity::Error, "DocumentCurrencyCode (BT-5) is missing");
}

#[test]
fn parties_are_checked() {
    let mut d = good();
    d.supplier.name = None;
    only(&run(&d), "PINT-SG-SELLER-NAME", Severity::Error, "Supplier name is missing");
    let mut d = good();
    d.customer.endpoint.value = s("");
    only(
        &run(&d),
        "PINT-SG-BUYER-EP",
        Severity::Error,
        "Customer EndpointID is missing — a party cannot be addressed on the network without it",
    );
    let mut d = good();
    d.customer.endpoint.scheme = None;
    only(&run(&d), "PINT-SG-BUYER-EPSCHEME", Severity::Error, "Customer EndpointID has no schemeID");
    let mut d = good();
    d.supplier.endpoint.scheme = s("0088");
    only(
        &run(&d),
        "PINT-SG-SELLER-EPSCHEME",
        Severity::Info,
        "Supplier EndpointID scheme is '0088', not the Singapore UEN scheme '0195'",
    );
}

#[test]
fn standard_rated_gst_needs_a_supplier_registration() {
    let mut d = good();
    d.supplier.tax_company_id = None;
    only(
        &run(&d),
        "PINT-SG-SELLER-GST",
        Severity::Error,
        "Standard-rated GST is charged but the supplier has no GST registration id (PartyTaxScheme/CompanyID)",
    );
    d.tax_subtotals = vec![TaxSubtotal { category: s("Z"), percent: s("0") }];
    assert!(run(&d).findings.is_empty());
}

#[test]
fn tax_subtotals_are_checked() {
    let mut d = good();
    d.tax_total_amount = None;
    d.tax_subtotals = Vec::new();
    let r = run(&d);
    let rules: Vec<String> = r.findings.iter().map(|f| f.rule.clone()).collect();
    assert_eq!(rules, vec!["EN16931-TAX", "EN16931-TAXCAT"]);
    assert_eq!(r.findings[1].message, "No tax subtotal / category found");

    let mut d = good();
    d.tax_subtotals = vec![
        TaxSubtotal { category: None, percent: None },
        TaxSubtotal { category: s("VAT"), percent: s("20") },
        TaxSubtotal { category: s("S"), percent: None },
        TaxSubtotal { category: s("S"), percent: s("8") },
        TaxSubtotal { category: s("S"), percent: s("9.50") },
        TaxSubtotal { category: s("S"), percent: s("9.0") },
        TaxSubtotal { category: s("S"), percent: s("NaN") },
        TaxSubtotal { category: s("S"), percent: s("9,0") },
        TaxSubtotal { category: s("AE"), percent: None },
    ];
    let r = run(&d);
    assert_eq!(
        found(&r),
        vec![
            ("EN16931-TAXCAT".to_string(), Severity::Error, "A tax subtotal has no category code".to_string()),
            (
                "PINT-SG-TAXCAT".to_string(),
                Severity::Warning,
                "Tax category 'VAT' is unusual for SG GST (expected one of [\"S\", \"Z\", \"E\", \"G\", \"O\", \"AE\"])".to_string()
            ),
            ("EN16931-TAXRATE".to_string(), Severity::Error, "Standard-rated (S) subtotal has no percent".to_string()),
            ("PINT-SG-GSTRATE".to_string(), Severity::Info, "Standard rate is 8%, current SG GST is 9% — intended?".to_string()),
            ("PINT-SG-GSTRATE".to_string(), Severity::Info, "Standard rate is 9.5%, current SG GST is 9% — intended?".to_string()),
            ("EN16931-TAXRATE".to_string(), Severity::Error, "Standard-rated (S) subtotal has no percent".to_string()),
        ]
    );
    assert_eq!((r.errors, r.warnings), (3, 1));
    assert!(!r.conforms);
}

#[test]
fn document_totals_must_add_up() {
    let mut d = good();
    d.totals.tax_inclusive = s("119.00");
    only(
        &run(&d),
        "EN16931-CO-15",
        Severity::Error,
        "TaxInclusiveAmount (119.00) != TaxExclusiveAmount (100.00) + TaxTotal (9.00) = 109.00",
    );
    // Within half a cent counts as equal; commas are thousands separators.
    let mut d = good();
    d.totals.tax_inclusive = s(" 1,09.004 ");
    assert!(run(&d).findings.is_empty());
    // A total that is not a number is not compared.
    let mut d = good();
    d.totals.tax_exclusive = s("n/a");
    assert!(run(&d).findings.is_empty());
    let mut d = good();
    d.totals.payable = None;
    only(&run(&d), "UBL-TOTAL", Severity::Error, "LegalMonetaryTotal/PayableAmount (BT-115) is mandatory but missing or empty");
}

#[test]
fn line_total_must_match_the_lines() {
    let mut d = good();
    d.totals.line_extension = s("200.00");
    only(
        &run(&d),
        "EN16931-CO-10",
        Severity::Error,
        "LineExtensionAmount (200.00) != sum of line amounts (100.00)",
    );
    let mut d = good();
    d.lines[1].line_extension = s("40.004");
    assert!(run(&d).findings.is_empty());
}

#[test]
fn lines_are_checked_one_by_one() {
    let mut d = good();
    d.lines[1] = Line { id: None, quantity: s(""), line_extension: s("abc"), item_name: None, price_amount: None };
    d.totals.line_extension = s("60");
    let r = run(&d);
    assert_eq!(
        found(&r),
        vec![
            ("UBL-LINE-ID".to_string(), Severity::Error, "Line 2: missing line ID".to_string()),
            ("EN16931-LINE-NAME".to_string(), Severity::Error, "Line 2: item has no Name (BT-153)".to_string()),
            ("EN16931-LINE-AMT".to_string(), Severity::Error, "Line 2: missing or non-numeric LineExtensionAmount (BT-131)".to_string()),
            ("UBL-LINE-QTY".to_string(), Severity::Error, "Line 2: missing quantity".to_string()),
        ]
    );
    let mut d = good();
    d.lines = Vec::new();
    only(&run(&d), "EN16931-LINE", Severity::Error, "The document has no invoice lines");
}

#[test]
fn findings_come_in_rule_order_and_name_their_origin() {
    let mut d = good();
    d.customization_id = None;
    d.currency = s("EUR");
    d.customer.name = None;
    d.tax_subtotals = Vec::new();
    d.totals.payable = None;
    d.lines = Vec::new();
    let r = run(&d);
    let rules: Vec<String> = r.findings.iter().map(|f| f.rule.clone()).collect();
    assert_eq!(
        rules,
        vec!["PINT-SG-01", "PINT-SG-05", "PINT-SG-BUYER-NAME", "EN16931-TAXCAT", "UBL-TOTAL", "EN16931-LINE"]
    );
    for rule in &rules {
        assert!(rule.starts_with("PINT-SG-") || rule.starts_with("EN16931-") || rule.starts_with("UBL-"));
    }
    assert_eq!((r.errors, r.warnings), (5, 0));
    assert!(!r.conforms);
}

#[test]
fn a_fatal_report_has_one_error() {
    let r = Report::fatal("XML-PARSE", "boom");
    assert_eq!(found(&r), vec![("XML-PARSE".to_string(), Severity::Error, "boom".to_string())]);
    assert!(!r.conforms);
    assert_eq!((r.errors, r.warnings), (1, 0));
}

#[test]
fn document_kinds_name_their_root() {
    assert_eq!(DocKind::Invoice.as_str(), "Invoice");
    assert_eq!(DocKind::CreditNote.as_str(), "CreditNote");
}

#[test]
fn a_rate_a_hair_off_the_standard_rate_is_noticed() {
    let mut d = good();
    d.tax_subtotals = vec![TaxSubtotal { category: s("S"), percent: s("9.0000000001") }];
    let r = run(&d);
    assert_eq!(found(&r).len(), 1);
    assert_eq!(r.findings[0].rule, "PINT-SG-GSTRATE");
    assert_eq!(r.findings[0].severity, Severity::Info);
    assert_eq!(r.findings[0].message, "Standard rate is 9.0000000001%, current SG GST is 9% — intended?");
    let mut d = good();
    d.tax_subtotals = vec![TaxSubtotal { category: s("S"), percent: s("9.000") }];
    assert!(found(&run(&d)).is_empty());
}

#[test]
fn large_totals_add_up() {
    let mut d = good();
    d.totals.tax_exclusive = s("1e30");
    d.totals.tax_inclusive = s("1e30");
    d.totals.line_extension = s("1e30");
    d.tax_total_amount = s("0");
    d.lines = vec![line("1", "1e30")];
    let r = run(&d);
    assert!(!found(&r).iter().any(|f| f.0 == "EN16931-CO-15" || f.0 == "EN16931-CO-10"));
}

#[test]
fn totals_within_half_a_cent_pass() {
    let mut d = good();
    d.totals.tax_exclusive = s("0");
    d.totals.tax_inclusive = s("0.0049999995");
    d.totals.line_extension = s("0.0049999995");
    d.tax_total_amount = s("0");
    d.lines = vec![line("1", "0")];
    let r = run(&d);
    assert!(!found(&r).iter().any(|f| f.0 == "EN16931-CO-15" || f.0 == "EN16931-CO-10"));
    d.totals.tax_inclusive = s("0.005");
    d.totals.line_extension = s("0.005");
    let r = run(&d);
    assert!(found(&r).iter().any(|f| f.0 == "EN16931-CO-15"));
    assert!(found(&r).iter().any(|f| f.0 == "EN16931-CO-10"));
}
