use pint_sg_validator::{validate, Severity};

const VALID: &str = r#"<?xml version="1.0" encoding="UTF-8"?>
<Invoice xmlns="urn:oasis:names:specification:ubl:schema:xsd:Invoice-2"
  xmlns:cac="urn:oasis:names:specification:ubl:schema:xsd:CommonAggregateComponents-2"
  xmlns:cbc="urn:oasis:names:specification:ubl:schema:xsd:CommonBasicComponents-2">
  <cbc:CustomizationID>urn:peppol:pint:billing-1@sg-1</cbc:CustomizationID>
  <cbc:ProfileID>urn:peppol:bis:billing</cbc:ProfileID>
  <cbc:ID>INV-2026-0001</cbc:ID>
  <cbc:IssueDate>2026-01-15</cbc:IssueDate>
  <cbc:InvoiceTypeCode>380</cbc:InvoiceTypeCode>
  <cbc:DocumentCurrencyCode>SGD</cbc:DocumentCurrencyCode>
  <cac:AccountingSupplierParty>
    <cac:Party>
      <cbc:EndpointID schemeID="0195">SGUEN200406416G</cbc:EndpointID>
      <cac:PartyName>
        <cbc:Name>Acme Supplies Pte Ltd</cbc:Name>
      </cac:PartyName>
      <cac:PartyTaxScheme>
        <cbc:CompanyID>M2-1234567-K</cbc:CompanyID>
        <cac:TaxScheme>
          <cbc:ID>GST</cbc:ID>
        </cac:TaxScheme>
      </cac:PartyTaxScheme>
    </cac:Party>
  </cac:AccountingSupplierParty>
  <cac:AccountingCustomerParty>
    <cac:Party>
      <cbc:EndpointID schemeID="0195">SGUEN201912345A</cbc:EndpointID>
      <cac:PartyLegalEntity>
        <cbc:RegistrationName>Buyer Holdings Pte Ltd</cbc:RegistrationName>
      </cac:PartyLegalEntity>
    </cac:Party>
  </cac:AccountingCustomerParty>
  <cac:TaxTotal>
    <cbc:TaxAmount currencyID="SGD">9.00</cbc:TaxAmount>
    <cac:TaxSubtotal>
      <cbc:TaxableAmount currencyID="SGD">100.00</cbc:TaxableAmount>
      <cbc:TaxAmount currencyID="SGD">9.00</cbc:TaxAmount>
      <cac:TaxCategory>
        <cbc:ID>S</cbc:ID>
        <cbc:Percent>9</cbc:Percent>
        <cac:TaxScheme>
          <cbc:ID>GST</cbc:ID>
        </cac:TaxScheme>
      </cac:TaxCategory>
    </cac:TaxSubtotal>
  </cac:TaxTotal>
  <cac:LegalMonetaryTotal>
    <cbc:LineExtensionAmount currencyID="SGD">100.00</cbc:LineExtensionAmount>
    <cbc:TaxExclusiveAmount currencyID="SGD">100.00</cbc:TaxExclusiveAmount>
    <cbc:TaxInclusiveAmount currencyID="SGD">109.00</cbc:TaxInclusiveAmount>
    <cbc:PayableAmount currencyID="SGD">109.00</cbc:PayableAmount>
  </cac:LegalMonetaryTotal>
  <cac:InvoiceLine>
    <cbc:ID>1</cbc:ID>
    <cbc:InvoicedQuantity unitCode="EA">10</cbc:InvoicedQuantity>
    <cbc:LineExtensionAmount currencyID="SGD">100.00</cbc:LineExtensionAmount>
    <cac:Item>
      <cbc:Name>Widget</cbc:Name>
    </cac:Item>
    <cac:Price>
      <cbc:PriceAmount currencyID="SGD">10.00</cbc:PriceAmount>
    </cac:Price>
  </cac:InvoiceLine>
</Invoice>
"#;

#[test]
fn a_conforming_invoice_passes() {
    let r = validate(VALID);
    let errs: Vec<_> = r
        .findings
        .iter()
        .filter(|f| f.severity == Severity::Error)
        .collect();
    assert!(r.conforms, "expected conforming, got errors: {errs:?}");
    assert_eq!(r.errors, 0);
}

#[test]
fn wrong_customization_id_is_an_error() {
    let bad = VALID.replace("urn:peppol:pint:billing-1@sg-1", "urn:peppol:pint:billing-1@aus-1");
    let r = validate(&bad);
    assert!(!r.conforms);
    assert!(r.findings.iter().any(|f| f.rule == "PINT-SG-01"));
}

#[test]
fn broken_total_arithmetic_is_caught() {
    // TaxInclusive should be 109.00; corrupt it.
    let bad = VALID.replace(
        "<cbc:TaxInclusiveAmount currencyID=\"SGD\">109.00</cbc:TaxInclusiveAmount>",
        "<cbc:TaxInclusiveAmount currencyID=\"SGD\">119.00</cbc:TaxInclusiveAmount>",
    );
    let r = validate(&bad);
    assert!(r.findings.iter().any(|f| f.rule == "EN16931-CO-15"), "arithmetic rule should fire");
}

#[test]
fn line_sum_mismatch_is_caught() {
    let bad = VALID.replace(
        "<cbc:LineExtensionAmount currencyID=\"SGD\">100.00</cbc:LineExtensionAmount>\n    <cbc:TaxExclusiveAmount",
        "<cbc:LineExtensionAmount currencyID=\"SGD\">200.00</cbc:LineExtensionAmount>\n    <cbc:TaxExclusiveAmount",
    );
    let r = validate(&bad);
    assert!(r.findings.iter().any(|f| f.rule == "EN16931-CO-10"));
}

#[test]
fn missing_endpoint_scheme_flags_the_seller() {
    let bad = VALID.replace("schemeID=\"0195\">SGUEN200406416G", ">SGUEN200406416G");
    let r = validate(&bad);
    assert!(r.findings.iter().any(|f| f.rule == "PINT-SG-SELLER-EPSCHEME"));
}

#[test]
fn malformed_xml_is_one_fatal_finding_not_a_panic() {
    let r = validate("<Invoice><unclosed>");
    assert!(!r.conforms);
    assert_eq!(r.findings.len(), 1);
    assert_eq!(r.findings[0].rule, "XML-PARSE");
}

#[test]
fn wrong_root_element_is_reported() {
    let r = validate("<?xml version=\"1.0\"?><Order xmlns=\"x\"><a/></Order>");
    assert!(!r.conforms);
    assert_eq!(r.findings[0].rule, "XML-PARSE");
}

#[test]
fn a_line_id_is_not_the_invoice_number() {
    let r = validate("<Invoice><InvoiceLine><ID>1</ID></InvoiceLine></Invoice>");
    assert!(r.findings.iter().any(|f| f.rule == "UBL-01" && f.severity == Severity::Error));
}
