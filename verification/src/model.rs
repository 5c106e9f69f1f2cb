//! The subset of a UBL billing document that the rules reason about.
//!
//! Only the fields the PINT SG rules touch are lifted out of the XML. Every
//! field is optional so that a missing element becomes a rule finding with a
//! clear message, never a parse error.

use vstd::prelude::*;

use crate::xml::opt_string_view;

verus! {

/// Which UBL document was submitted.
#[derive(Clone, Copy, Debug, PartialEq, Eq, Structural)]
pub enum DocKind {
    Invoice,
    CreditNote,
}

impl DocKind {
    pub open spec fn spec_name(self) -> Seq<char> {
        match self {
            DocKind::Invoice => "Invoice"@,
            DocKind::CreditNote => "CreditNote"@,
        }
    }

    /// The root element's name for this kind of document.
    pub fn as_str(self) -> (r: &'static str)
        ensures
            r@ == self.spec_name(),
    {
        match self {
            DocKind::Invoice => "Invoice",
            DocKind::CreditNote => "CreditNote",
        }
    }
}

/// A party endpoint identifier, e.g. `<cbc:EndpointID schemeID="0195">…`.
#[derive(Clone, Debug, Default)]
pub struct SchemedId {
    pub scheme: Option<String>,
    pub value: Option<String>,
}

pub struct SchemedIdView {
    pub scheme: Option<Seq<char>>,
    pub value: Option<Seq<char>>,
}

impl View for SchemedId {
    type V = SchemedIdView;

    open spec fn view(&self) -> SchemedIdView {
        SchemedIdView { scheme: opt_string_view(self.scheme), value: opt_string_view(self.value) }
    }
}

#[derive(Clone, Debug, Default)]
pub struct Party {
    pub endpoint: SchemedId,
    pub name: Option<String>,
    /// CompanyID under cac:PartyTaxScheme — the GST registration number.
    pub tax_company_id: Option<String>,
    pub tax_scheme_id: Option<String>,
}

pub struct PartyView {
    pub endpoint: SchemedIdView,
    pub name: Option<Seq<char>>,
    pub tax_company_id: Option<Seq<char>>,
    pub tax_scheme_id: Option<Seq<char>>,
}

impl View for Party {
    type V = PartyView;

    open spec fn view(&self) -> PartyView {
        PartyView {
            endpoint: self.endpoint@,
            name: opt_string_view(self.name),
            tax_company_id: opt_string_view(self.tax_company_id),
            tax_scheme_id: opt_string_view(self.tax_scheme_id),
        }
    }
}

#[derive(Clone, Debug, Default)]
pub struct TaxSubtotal {
    pub category: Option<String>,
    pub percent: Option<String>,
}

pub struct TaxSubtotalView {
    pub category: Option<Seq<char>>,
    pub percent: Option<Seq<char>>,
}

impl View for TaxSubtotal {
    type V = TaxSubtotalView;

    open spec fn view(&self) -> TaxSubtotalView {
        TaxSubtotalView {
            category: opt_string_view(self.category),
            percent: opt_string_view(self.percent),
        }
    }
}

#[derive(Clone, Debug, Default)]
pub struct MonetaryTotal {
    pub line_extension: Option<String>,
    pub tax_exclusive: Option<String>,
    pub tax_inclusive: Option<String>,
    pub payable: Option<String>,
}

pub struct MonetaryTotalView {
    pub line_extension: Option<Seq<char>>,
    pub tax_exclusive: Option<Seq<char>>,
    pub tax_inclusive: Option<Seq<char>>,
    pub payable: Option<Seq<char>>,
}

impl View for MonetaryTotal {
    type V = MonetaryTotalView;

    open spec fn view(&self) -> MonetaryTotalView {
        MonetaryTotalView {
            line_extension: opt_string_view(self.line_extension),
            tax_exclusive: opt_string_view(self.tax_exclusive),
            tax_inclusive: opt_string_view(self.tax_inclusive),
            payable: opt_string_view(self.payable),
        }
    }
}

#[derive(Clone, Debug, Default)]
pub struct Line {
    pub id: Option<String>,
    pub quantity: Option<String>,
    pub line_extension: Option<String>,
    pub item_name: Option<String>,
    pub price_amount: Option<String>,
}

pub struct LineView {
    pub id: Option<Seq<char>>,
    pub quantity: Option<Seq<char>>,
    pub line_extension: Option<Seq<char>>,
    pub item_name: Option<Seq<char>>,
    pub price_amount: Option<Seq<char>>,
}

impl View for Line {
    type V = LineView;

    open spec fn view(&self) -> LineView {
        LineView {
            id: opt_string_view(self.id),
            quantity: opt_string_view(self.quantity),
            line_extension: opt_string_view(self.line_extension),
            item_name: opt_string_view(self.item_name),
            price_amount: opt_string_view(self.price_amount),
        }
    }
}

/// The parsed document. `namespaces` keeps the namespaces in scope on the
/// root element, for diagnostics: one entry per prefix (`(default)` for the
/// default namespace), sorted by prefix.
#[derive(Clone, Debug)]
pub struct Document {
    pub kind: DocKind,
    pub customization_id: Option<String>,
    pub profile_id: Option<String>,
    pub id: Option<String>,
    pub issue_date: Option<String>,
    pub type_code: Option<String>,
    pub currency: Option<String>,
    pub supplier: Party,
    pub customer: Party,
    pub tax_total_amount: Option<String>,
    pub tax_subtotals: Vec<TaxSubtotal>,
    pub totals: MonetaryTotal,
    pub lines: Vec<Line>,
    /// Namespaces seen on the root, for diagnostics.
    pub namespaces: Vec<(String, String)>,
}

pub struct DocumentView {
    pub kind: DocKind,
    pub customization_id: Option<Seq<char>>,
    pub profile_id: Option<Seq<char>>,
    pub id: Option<Seq<char>>,
    pub issue_date: Option<Seq<char>>,
    pub type_code: Option<Seq<char>>,
    pub currency: Option<Seq<char>>,
    pub supplier: PartyView,
    pub customer: PartyView,
    pub tax_total_amount: Option<Seq<char>>,
    pub tax_subtotals: Seq<TaxSubtotalView>,
    pub totals: MonetaryTotalView,
    pub lines: Seq<LineView>,
    pub namespaces: Seq<(Seq<char>, Seq<char>)>,
}

impl View for Document {
    type V = DocumentView;

    open spec fn view(&self) -> DocumentView {
        DocumentView {
            kind: self.kind,
            customization_id: opt_string_view(self.customization_id),
            profile_id: opt_string_view(self.profile_id),
            id: opt_string_view(self.id),
            issue_date: opt_string_view(self.issue_date),
            type_code: opt_string_view(self.type_code),
            currency: opt_string_view(self.currency),
            supplier: self.supplier@,
            customer: self.customer@,
            tax_total_amount: opt_string_view(self.tax_total_amount),
            tax_subtotals: self.tax_subtotals@.map_values(|t: TaxSubtotal| t@),
            totals: self.totals@,
            lines: self.lines@.map_values(|l: Line| l@),
            namespaces: self.namespaces@.map_values(|p: (String, String)| (p.0@, p.1@)),
        }
    }
}

} // verus!
