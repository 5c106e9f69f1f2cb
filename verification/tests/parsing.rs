use pint_sg_validator::model::DocKind;
use pint_sg_validator::parse::parse;
use pint_sg_validator::validate;
use pint_sg_validator::xml::read_xml;

const CREDIT_NOTE: &str = r#"<?xml version="1.0"?>
<cn:CreditNote xmlns:cn="urn:oasis:names:specification:ubl:schema:xsd:CreditNote-2"
    xmlns:cac="urn:cac" xmlns:cbc="urn:cbc" xmlns="urn:default">
  <cbc:CustomizationID>  urn:peppol:pint:billing-1@sg-1  </cbc:CustomizationID>
  <cbc:ID>CN-7</cbc:ID>
  <cbc:CreditNoteTypeCode>381</cbc:CreditNoteTypeCode>
  <cac:AccountingSupplierParty>
    <cac:Party>
      <cbc:EndpointID x:schemeID="0195" xmlns:x="urn:x">  SGUEN1  </cbc:EndpointID>
      <cac:PartyName><cbc:Name>   </cbc:Name></cac:PartyName>
      <cac:PartyLegalEntity><cbc:RegistrationName>Legal Name</cbc:RegistrationName></cac:PartyLegalEntity>
    </cac:Party>
  </cac:AccountingSupplierParty>
  <cac:TaxTotal>
    <cbc:TaxAmount>0</cbc:TaxAmount>
    <cac:TaxSubtotal><cac:TaxCategory><cbc:ID>Z</cbc:ID><cbc:Percent>0</cbc:Percent></cac:TaxCategory></cac:TaxSubtotal>
    <cac:TaxSubtotal><cac:TaxCategory><cbc:ID>E</cbc:ID></cac:TaxCategory></cac:TaxSubtotal>
  </cac:TaxTotal>
  <cac:CreditNoteLine>
    <cbc:ID>1</cbc:ID>
    <cbc:CreditedQuantity>2</cbc:CreditedQuantity>
    <cbc:LineExtensionAmount>5.00</cbc:LineExtensionAmount>
    <cac:Item><cbc:Name>Refund</cbc:Name></cac:Item>
    <cac:Price><cbc:PriceAmount>2.50</cbc:PriceAmount></cac:Price>
  </cac:CreditNoteLine>
</cn:CreditNote>"#;

#[test]
fn a_credit_note_is_read_by_local_names() {
    let d = parse(CREDIT_NOTE).unwrap();
    assert_eq!(d.kind, DocKind::CreditNote);
    assert_eq!(d.customization_id.as_deref(), Some("urn:peppol:pint:billing-1@sg-1"));
    assert_eq!(d.id.as_deref(), Some("CN-7"));
    assert_eq!(d.type_code.as_deref(), Some("381"));
    assert_eq!(d.profile_id, None);
    // The attribute is found by local name whatever its prefix.
    assert_eq!(d.supplier.endpoint.scheme.as_deref(), Some("0195"));
    assert_eq!(d.supplier.endpoint.value.as_deref(), Some("SGUEN1"));
    // A blank PartyName/Name falls back to the registration name.
    assert_eq!(d.supplier.name.as_deref(), Some("Legal Name"));
    assert_eq!(d.customer.name, None);
    assert_eq!(d.tax_total_amount.as_deref(), Some("0"));
    assert_eq!(d.tax_subtotals.len(), 2);
    assert_eq!(d.tax_subtotals[0].category.as_deref(), Some("Z"));
    assert_eq!(d.tax_subtotals[0].percent.as_deref(), Some("0"));
    assert_eq!(d.tax_subtotals[1].category.as_deref(), Some("E"));
    assert_eq!(d.tax_subtotals[1].percent, None);
    assert_eq!(d.lines.len(), 1);
    assert_eq!(d.lines[0].quantity.as_deref(), Some("2"));
    assert_eq!(d.lines[0].item_name.as_deref(), Some("Refund"));
    assert_eq!(d.lines[0].price_amount.as_deref(), Some("2.50"));
    let ns: Vec<(&str, &str)> = d.namespaces.iter().map(|(k, v)| (k.as_str(), v.as_str())).collect();
    assert_eq!(
        ns,
        vec![
            ("(default)", "urn:default"),
            ("cac", "urn:cac"),
            ("cbc", "urn:cbc"),
            ("cn", "urn:oasis:names:specification:ubl:schema:xsd:CreditNote-2"),
        ]
    );
}

#[test]
fn a_foreign_root_is_refused_by_name() {
    let e = parse("<Order xmlns=\"x\"><a/></Order>").unwrap_err();
    assert_eq!(e, "root element is <Order>, expected <Invoice> or <CreditNote>");
}

#[test]
fn malformed_xml_is_refused_with_the_parser_message() {
    let e = parse("<Invoice><unclosed>").unwrap_err();
    let expected = roxmltree::Document::parse("<Invoice><unclosed>").unwrap_err().to_string();
    assert_eq!(e, format!("not well-formed XML: {expected}"));
    let r = validate("<Invoice><unclosed>");
    assert_eq!(r.findings[0].message, e);
    assert_eq!(r.errors, 1);
    assert_eq!(r.warnings, 0);
}

#[test]
fn the_tree_keeps_names_texts_attributes_and_parents() {
    let x = read_xml("<?xml version=\"1.0\"?><!-- c --><p:a xmlns:p=\"urn:p\"><b k=\"v\"> t </b><p:b/>tail</p:a>").unwrap();
    let root = &x.nodes[x.root];
    assert!(root.element);
    assert_eq!(root.name, "a");
    assert_eq!(root.parent, Some(0));
    let names: Vec<&str> = x.nodes.iter().map(|n| n.name.as_str()).collect();
    assert_eq!(names, vec!["", "", "a", "b", "", "b", ""]);
    let b = &x.nodes[x.root + 1];
    assert_eq!(b.text.as_deref(), Some(" t "));
    assert_eq!(b.scheme_id, None);
    assert_eq!(b.parent, Some(x.root));
    assert_eq!(x.nodes[x.root + 2].text.as_deref(), Some(" t "));
    assert!(!x.nodes[x.root + 2].element);
    assert_eq!(x.nodes[x.root + 2].parent, Some(x.root + 1));
    assert_eq!(x.root_namespaces, vec![(Some("p".to_string()), "urn:p".to_string())]);
    let y = read_xml("<e schemeID=\"0195\"/>").unwrap();
    assert_eq!(y.nodes[y.root].scheme_id.as_deref(), Some("0195"));
    assert!(read_xml("<a></b>").is_err());
}

#[test]
fn an_invoice_with_only_an_empty_root_reports_every_missing_term() {
    let r = validate("<Invoice/>");
    assert!(!r.conforms);
    let rules: Vec<&str> = r.findings.iter().map(|f| f.rule.as_str()).collect();
    assert_eq!(
        rules,
        vec![
            "PINT-SG-01", "PINT-SG-02", "UBL-01", "UBL-02", "UBL-03", "UBL-04",
            "PINT-SG-SELLER-NAME", "PINT-SG-SELLER-EP", "PINT-SG-BUYER-NAME", "PINT-SG-BUYER-EP",
            "EN16931-TAX", "EN16931-TAXCAT", "UBL-TOTAL", "EN16931-LINE",
        ]
    );
    assert_eq!(r.errors, rules.len());
}
