//! UBL → [`Document`] extraction.
//!
//! Elements are found by local name; namespace prefixes are ignored (they
//! vary between senders) while the namespace URIs on the root are kept for
//! diagnostics. Nothing here judges the document: parsing only lifts fields
//! out, and [`crate::rules`] decides what is wrong.

use vstd::prelude::*;

use crate::model::{
    DocKind, Document, DocumentView, Line, LineView, MonetaryTotal, MonetaryTotalView, Party, PartyView,
    SchemedId, SchemedIdView, TaxSubtotal, TaxSubtotalView,
};
use crate::text::{str_eq, trim, trim_str};
use crate::xml::{read_xml, xml_parse, document_model, XmlDocument, XmlDocumentView, XmlNodeView};

verus! {

// ---------------------------------------------------------------------------
// Finding elements
// ---------------------------------------------------------------------------

/// Node `k` lies in the subtree of node `a` (`a` itself included), following
/// parent links.
pub open spec fn is_descendant(nodes: Seq<XmlNodeView>, k: nat, a: nat) -> bool
    decreases k,
{
    if k == a {
        true
    } else if k < a || k >= nodes.len() {
        false
    } else {
        match nodes[k as int].parent {
            Some(p) => p < k && is_descendant(nodes, p, a),
            None => false,
        }
    }
}

/// Node `k` is an element with the given local name.
pub open spec fn is_named_element(nodes: Seq<XmlNodeView>, k: nat, local: Seq<char>) -> bool {
    k < nodes.len() && nodes[k as int].element && nodes[k as int].name == local
}

/// The first node at or after position `k`, in document order, that is an
/// element named `local` in the subtree of `a`.
pub open spec fn first_from(nodes: Seq<XmlNodeView>, a: nat, local: Seq<char>, k: nat) -> Option<
    nat,
>
    decreases nodes.len() - k,
{
    if k >= nodes.len() {
        None
    } else if is_descendant(nodes, k, a) && is_named_element(nodes, k, local) {
        Some(k)
    } else {
        first_from(nodes, a, local, k + 1)
    }
}

/// The first element named `local` in the subtree of `a` (`a` included), in
/// document order.
pub open spec fn first_named(nodes: Seq<XmlNodeView>, a: nat, local: Seq<char>) -> Option<nat> {
    first_from(nodes, a, local, a)
}

/// The first node at or after position `k` that is an element named `local`
/// whose parent is `a`.
pub open spec fn first_child_from(nodes: Seq<XmlNodeView>, a: nat, local: Seq<char>, k: nat) -> Option<
    nat,
>
    decreases nodes.len() - k,
{
    if k >= nodes.len() {
        None
    } else if is_named_element(nodes, k, local) && nodes[k as int].parent == Some(a) {
        Some(k)
    } else {
        first_child_from(nodes, a, local, k + 1)
    }
}

/// The first element named `local` among the children of `a`, in document
/// order.
pub open spec fn first_child_named(nodes: Seq<XmlNodeView>, a: nat, local: Seq<char>) -> Option<nat> {
    first_child_from(nodes, a, local, 0)
}

/// A text, trimmed, where anything is left.
pub open spec fn trimmed_nonempty(t: Option<Seq<char>>) -> Option<Seq<char>> {
    match t {
        Some(s) => if trim(s).len() > 0 {
            Some(trim(s))
        } else {
            None
        },
        None => None,
    }
}

/// The trimmed, non-empty text of the first element named `local` in the
/// subtree of `a`.
pub open spec fn text_at(nodes: Seq<XmlNodeView>, a: nat, local: Seq<char>) -> Option<Seq<char>> {
    match first_named(nodes, a, local) {
        Some(k) => trimmed_nonempty(nodes[k as int].text),
        None => None,
    }
}

/// The trimmed, non-empty text of the first child of `a` named `local`.
pub open spec fn child_text(nodes: Seq<XmlNodeView>, a: nat, local: Seq<char>) -> Option<Seq<char>> {
    match first_child_named(nodes, a, local) {
        Some(k) => trimmed_nonempty(nodes[k as int].text),
        None => None,
    }
}

/// [`text_at`] within the first element named `outer` in the subtree of `a`.
pub open spec fn text_at_within(
    nodes: Seq<XmlNodeView>,
    a: nat,
    outer: Seq<char>,
    inner: Seq<char>,
) -> Option<Seq<char>> {
    match first_named(nodes, a, outer) {
        Some(k) => text_at(nodes, k, inner),
        None => None,
    }
}

pub open spec fn or_else<T>(a: Option<T>, b: Option<T>) -> Option<T> {
    if a is Some {
        a
    } else {
        b
    }
}

/// The nodes named `local` (of any kind) at or after position `k` in the
/// subtree of `a`, in document order.
pub open spec fn named_from(nodes: Seq<XmlNodeView>, a: nat, local: Seq<char>, k: nat) -> Seq<nat>
    decreases nodes.len() - k,
{
    if k >= nodes.len() {
        Seq::empty()
    } else if is_descendant(nodes, k, a) && nodes[k as int].name == local {
        seq![k] + named_from(nodes, a, local, k + 1)
    } else {
        named_from(nodes, a, local, k + 1)
    }
}

// ---------------------------------------------------------------------------
// The document model
// ---------------------------------------------------------------------------

pub open spec fn no_party() -> PartyView {
    PartyView {
        endpoint: SchemedIdView { scheme: None, value: None },
        name: None,
        tax_company_id: None,
        tax_scheme_id: None,
    }
}

/// A party read from the subtree of `a`.
pub open spec fn party_model(nodes: Seq<XmlNodeView>, a: nat) -> PartyView {
    PartyView {
        endpoint: match first_named(nodes, a, "EndpointID"@) {
            Some(ep) => SchemedIdView {
                scheme: nodes[ep as int].scheme_id,
                value: trimmed_nonempty(nodes[ep as int].text),
            },
            None => SchemedIdView { scheme: None, value: None },
        },
        name: or_else(
            text_at_within(nodes, a, "PartyName"@, "Name"@),
            text_at(nodes, a, "RegistrationName"@),
        ),
        tax_company_id: text_at_within(nodes, a, "PartyTaxScheme"@, "CompanyID"@),
        tax_scheme_id: match first_named(nodes, a, "PartyTaxScheme"@) {
            Some(pts) => text_at_within(nodes, pts, "TaxScheme"@, "ID"@),
            None => None,
        },
    }
}

/// The party under the first element named `outer` below the root.
pub open spec fn party_under(nodes: Seq<XmlNodeView>, root: nat, outer: Seq<char>) -> PartyView {
    match first_child_named(nodes, root, outer) {
        Some(p) => party_model(nodes, p),
        None => no_party(),
    }
}

pub open spec fn subtotal_model(nodes: Seq<XmlNodeView>, st: nat) -> TaxSubtotalView {
    TaxSubtotalView {
        category: text_at_within(nodes, st, "TaxCategory"@, "ID"@),
        percent: text_at_within(nodes, st, "TaxCategory"@, "Percent"@),
    }
}

pub open spec fn line_tag(kind: DocKind) -> Seq<char> {
    match kind {
        DocKind::Invoice => "InvoiceLine"@,
        DocKind::CreditNote => "CreditNoteLine"@,
    }
}

pub open spec fn quantity_tag(kind: DocKind) -> Seq<char> {
    match kind {
        DocKind::Invoice => "InvoicedQuantity"@,
        DocKind::CreditNote => "CreditedQuantity"@,
    }
}

pub open spec fn line_model(nodes: Seq<XmlNodeView>, ln: nat, kind: DocKind) -> LineView {
    LineView {
        id: text_at(nodes, ln, "ID"@),
        quantity: text_at(nodes, ln, quantity_tag(kind)),
        line_extension: text_at(nodes, ln, "LineExtensionAmount"@),
        item_name: text_at_within(nodes, ln, "Item"@, "Name"@),
        price_amount: text_at_within(nodes, ln, "Price"@, "PriceAmount"@),
    }
}

pub open spec fn totals_model(nodes: Seq<XmlNodeView>, root: nat) -> MonetaryTotalView {
    match first_child_named(nodes, root, "LegalMonetaryTotal"@) {
        Some(t) => MonetaryTotalView {
            line_extension: text_at(nodes, t, "LineExtensionAmount"@),
            tax_exclusive: text_at(nodes, t, "TaxExclusiveAmount"@),
            tax_inclusive: text_at(nodes, t, "TaxInclusiveAmount"@),
            payable: text_at(nodes, t, "PayableAmount"@),
        },
        None => MonetaryTotalView {
            line_extension: None,
            tax_exclusive: None,
            tax_inclusive: None,
            payable: None,
        },
    }
}

/// The key a namespace is filed under: its prefix, or `(default)`.
pub open spec fn namespace_key(prefix: Option<Seq<char>>) -> Seq<char> {
    match prefix {
        Some(p) => p,
        None => "(default)"@,
    }
}

/// Lexicographic order of texts by character.
pub open spec fn text_less(a: Seq<char>, b: Seq<char>) -> bool
    decreases a.len(),
{
    if b.len() == 0 {
        false
    } else if a.len() == 0 {
        true
    } else if a[0] != b[0] {
        a[0] < b[0]
    } else {
        text_less(a.drop_first(), b.drop_first())
    }
}

/// Files `(k, v)` into a list kept in key order: an entry with the same key
/// is replaced, otherwise the pair goes before the first larger key.
pub open spec fn sorted_insert(m: Seq<(Seq<char>, Seq<char>)>, k: Seq<char>, v: Seq<char>) -> Seq<
    (Seq<char>, Seq<char>),
>
    decreases m.len(),
{
    if m.len() == 0 {
        seq![(k, v)]
    } else if m[0].0 == k {
        seq![(k, v)] + m.drop_first()
    } else if text_less(k, m[0].0) {
        seq![(k, v)] + m
    } else {
        seq![m[0]] + sorted_insert(m.drop_first(), k, v)
    }
}

/// The namespaces filed one after another, each by its key.
pub open spec fn namespace_map(nss: Seq<(Option<Seq<char>>, Seq<char>)>) -> Seq<
    (Seq<char>, Seq<char>),
>
    decreases nss.len(),
{
    if nss.len() == 0 {
        Seq::empty()
    } else {
        sorted_insert(namespace_map(nss.drop_last()), namespace_key(nss.last().0), nss.last().1)
    }
}

pub open spec fn root_name_error(name: Seq<char>) -> Seq<char> {
    "root element is <"@ + name + ">, expected <Invoice> or <CreditNote>"@
}

/// The document a tree holds, or why it is not a billing document.
///
/// The header fields (customization, profile, number, issue date, type code,
/// currency) and the document-level aggregates (the two parties, `TaxTotal`,
/// `LegalMonetaryTotal`) are read among the root element's own children, so
/// that an element of the same name inside a line is never taken for them.
/// Fields inside those aggregates, and the lines, are found by local name
/// anywhere below.
pub open spec fn document_of(x: XmlDocumentView) -> Result<DocumentView, Seq<char>> {
    let nodes = x.nodes;
    let root = x.root;
    let root_name = nodes[root as int].name;
    if root_name != "Invoice"@ && root_name != "CreditNote"@ {
        Err(root_name_error(root_name))
    } else {
        let kind = if root_name == "Invoice"@ {
            DocKind::Invoice
        } else {
            DocKind::CreditNote
        };
        let tax_total = first_child_named(nodes, root, "TaxTotal"@);
        Ok(
            DocumentView {
                kind,
                customization_id: child_text(nodes, root, "CustomizationID"@),
                profile_id: child_text(nodes, root, "ProfileID"@),
                id: child_text(nodes, root, "ID"@),
                issue_date: child_text(nodes, root, "IssueDate"@),
                type_code: or_else(
                    child_text(nodes, root, "InvoiceTypeCode"@),
                    child_text(nodes, root, "CreditNoteTypeCode"@),
                ),
                currency: child_text(nodes, root, "DocumentCurrencyCode"@),
                supplier: party_under(nodes, root, "AccountingSupplierParty"@),
                customer: party_under(nodes, root, "AccountingCustomerParty"@),
                tax_total_amount: match tax_total {
                    Some(tt) => text_at(nodes, tt, "TaxAmount"@),
                    None => None,
                },
                tax_subtotals: match tax_total {
                    Some(tt) => named_from(nodes, tt, "TaxSubtotal"@, tt).map_values(
                        |st: nat| subtotal_model(nodes, st),
                    ),
                    None => Seq::empty(),
                },
                totals: totals_model(nodes, root),
                lines: named_from(nodes, root, line_tag(kind), root).map_values(
                    |ln: nat| line_model(nodes, ln, kind),
                ),
                namespaces: namespace_map(x.namespaces),
            },
        )
    }
}

/// What an XML text parses to: the document, or the reason it is refused.
pub open spec fn parse_outcome(text: Seq<char>) -> Result<DocumentView, Seq<char>> {
    match xml_parse(text) {
        Err(m) => Err("not well-formed XML: "@ + m),
        Ok(nodes) => document_of(document_model(nodes)),
    }
}

pub open spec fn result_view(r: Result<Document, String>) -> Result<DocumentView, Seq<char>> {
    match r {
        Ok(d) => Ok(d@),
        Err(e) => Err(e@),
    }
}

// ---------------------------------------------------------------------------
// Extraction
// ---------------------------------------------------------------------------

pub open spec fn opt_nat(o: Option<usize>) -> Option<nat> {
    match o {
        Some(i) => Some(i as nat),
        None => None,
    }
}

/// Whether node `k` lies in the subtree of node `a`.
fn descends_from(x: &XmlDocument, k: usize, a: usize) -> (r: bool)
    requires
        k < x.nodes.len(),
    ensures
        r == is_descendant(x@.nodes, k as nat, a as nat),
{
    let ghost nodes = x@.nodes;
    let mut cur = k;
    loop
        invariant
            nodes == x@.nodes,
            cur < x.nodes.len(),
            is_descendant(nodes, k as nat, a as nat) == is_descendant(nodes, cur as nat, a as nat),
        decreases cur,
    {
        if cur == a {
            return true;
        }
        if cur < a {
            return false;
        }
        assert(nodes[cur as int] == x.nodes@[cur as int]@);
        match x.nodes[cur].parent {
            Some(p) => {
                if p < cur {
                    cur = p;
                } else {
                    return false;
                }
            },
            None => {
                return false;
            },
        }
    }
}

proof fn lemma_first_from_step(nodes: Seq<XmlNodeView>, a: nat, local: Seq<char>, k: nat)
    requires
        k < nodes.len(),
        !(is_descendant(nodes, k, a) && is_named_element(nodes, k, local)),
    ensures
        first_from(nodes, a, local, k) == first_from(nodes, a, local, k + 1),
{
}

/// The first element named `local` in the subtree of `a`.
fn first(x: &XmlDocument, a: usize, local: &str) -> (r: Option<usize>)
    ensures
        opt_nat(r) == first_named(x@.nodes, a as nat, local@),
        r matches Some(k) ==> k < x.nodes.len(),
{
    let ghost nodes = x@.nodes;
    let n = x.nodes.len();
    let mut k = a;
    while k < n
        invariant
            nodes == x@.nodes,
            n == x.nodes.len() == nodes.len(),
            a <= k,
            first_named(nodes, a as nat, local@) == first_from(nodes, a as nat, local@, k as nat),
        decreases n - k,
    {
        assert(nodes[k as int] == x.nodes@[k as int]@);
        if x.nodes[k].element && str_eq(x.nodes[k].name.as_str(), local) && descends_from(x, k, a) {
            return Some(k);
        }
        proof {
            lemma_first_from_step(nodes, a as nat, local@, k as nat);
        }
        k = k + 1;
    }
    None
}

proof fn lemma_first_child_step(nodes: Seq<XmlNodeView>, a: nat, local: Seq<char>, k: nat)
    requires
        k < nodes.len(),
        !(is_named_element(nodes, k, local) && nodes[k as int].parent == Some(a)),
    ensures
        first_child_from(nodes, a, local, k) == first_child_from(nodes, a, local, k + 1),
{
}

/// The first element named `local` among the children of `a`.
fn first_child(x: &XmlDocument, a: usize, local: &str) -> (r: Option<usize>)
    ensures
        opt_nat(r) == first_child_named(x@.nodes, a as nat, local@),
        r matches Some(k) ==> k < x.nodes.len(),
{
    let ghost nodes = x@.nodes;
    let n = x.nodes.len();
    let mut k: usize = 0;
    while k < n
        invariant
            nodes == x@.nodes,
            n == x.nodes.len() == nodes.len(),
            first_child_named(nodes, a as nat, local@) == first_child_from(
                nodes,
                a as nat,
                local@,
                k as nat,
            ),
        decreases n - k,
    {
        assert(nodes[k as int] == x.nodes@[k as int]@);
        let is_child = match x.nodes[k].parent {
            Some(p) => p == a,
            None => false,
        };
        if is_child && x.nodes[k].element && str_eq(x.nodes[k].name.as_str(), local) {
            return Some(k);
        }
        proof {
            lemma_first_child_step(nodes, a as nat, local@, k as nat);
        }
        k = k + 1;
    }
    None
}

/// The text, trimmed, where anything is left.
fn trimmed_text(t: &Option<String>) -> (r: Option<String>)
    ensures
        crate::xml::opt_string_view(r) == trimmed_nonempty(crate::xml::opt_string_view(*t)),
{
    match t {
        Some(s) => {
            let tt = trim_str(s.as_str());
            if tt.as_str().is_empty() {
                None
            } else {
                Some(tt)
            }
        },
        None => None,
    }
}

/// The trimmed, non-empty text of the first element named `local` in the
/// subtree of `a`.
fn text_of(x: &XmlDocument, a: usize, local: &str) -> (r: Option<String>)
    ensures
        crate::xml::opt_string_view(r) == text_at(x@.nodes, a as nat, local@),
{
    match first(x, a, local) {
        Some(k) => {
            assert(x@.nodes[k as int] == x.nodes@[k as int]@);
            trimmed_text(&x.nodes[k].text)
        },
        None => None,
    }
}

/// The trimmed, non-empty text of the first child of `a` named `local`.
fn child_text_of(x: &XmlDocument, a: usize, local: &str) -> (r: Option<String>)
    ensures
        crate::xml::opt_string_view(r) == child_text(x@.nodes, a as nat, local@),
{
    match first_child(x, a, local) {
        Some(k) => {
            assert(x@.nodes[k as int] == x.nodes@[k as int]@);
            trimmed_text(&x.nodes[k].text)
        },
        None => None,
    }
}

fn text_within(x: &XmlDocument, a: usize, outer: &str, inner: &str) -> (r: Option<String>)
    ensures
        crate::xml::opt_string_view(r) == text_at_within(x@.nodes, a as nat, outer@, inner@),
{
    match first(x, a, outer) {
        Some(k) => text_of(x, k, inner),
        None => None,
    }
}

fn clone_opt(o: &Option<String>) -> (r: Option<String>)
    ensures
        crate::xml::opt_string_view(r) == crate::xml::opt_string_view(*o),
{
    match o {
        Some(s) => Some(s.clone()),
        None => None,
    }
}

/// A party read from the subtree of `a`.
fn parse_party(x: &XmlDocument, a: usize) -> (r: Party)
    ensures
        r@ == party_model(x@.nodes, a as nat),
{
    let endpoint = match first(x, a, "EndpointID") {
        Some(ep) => {
            assert(x@.nodes[ep as int] == x.nodes@[ep as int]@);
            SchemedId {
                scheme: clone_opt(&x.nodes[ep].scheme_id),
                value: trimmed_text(&x.nodes[ep].text),
            }
        },
        None => SchemedId { scheme: None, value: None },
    };
    // PartyName/Name, or fall back to PartyLegalEntity/RegistrationName.
    let name = match text_within(x, a, "PartyName", "Name") {
        Some(n) => Some(n),
        None => text_of(x, a, "RegistrationName"),
    };
    let (tax_company_id, tax_scheme_id) = match first(x, a, "PartyTaxScheme") {
        Some(pts) => (text_of(x, pts, "CompanyID"), text_within(x, pts, "TaxScheme", "ID")),
        None => (None, None),
    };
    Party { endpoint, name, tax_company_id, tax_scheme_id }
}

fn party_under_exec(x: &XmlDocument, root: usize, outer: &str) -> (r: Party)
    ensures
        r@ == party_under(x@.nodes, root as nat, outer@),
{
    match first_child(x, root, outer) {
        Some(p) => parse_party(x, p),
        None => Party {
            endpoint: SchemedId { scheme: None, value: None },
            name: None,
            tax_company_id: None,
            tax_scheme_id: None,
        },
    }
}

proof fn lemma_named_from_step(nodes: Seq<XmlNodeView>, a: nat, local: Seq<char>, k: nat)
    requires
        k < nodes.len(),
    ensures
        named_from(nodes, a, local, k) == (if is_descendant(nodes, k, a) && nodes[k as int].name
            == local {
            seq![k]
        } else {
            Seq::empty()
        }) + named_from(nodes, a, local, k + 1),
{
    if !(is_descendant(nodes, k, a) && nodes[k as int].name == local) {
        assert(Seq::<nat>::empty() + named_from(nodes, a, local, k + 1) =~= named_from(
            nodes,
            a,
            local,
            k + 1,
        ));
    }
}

/// The positions of the nodes named `local` in the subtree of `a`, in
/// document order.
fn named_nodes(x: &XmlDocument, a: usize, local: &str) -> (r: Vec<usize>)
    ensures
        r@.map_values(|i: usize| i as nat) == named_from(x@.nodes, a as nat, local@, a as nat),
        forall|i: int| 0 <= i < r@.len() ==> #[trigger] r@[i] < x.nodes.len(),
{
    let ghost nodes = x@.nodes;
    let n = x.nodes.len();
    let mut r: Vec<usize> = Vec::new();
    let mut k = a;
    if a >= n {
        assert(r@.map_values(|i: usize| i as nat) =~= Seq::<nat>::empty());
        return r;
    }
    while k < n
        invariant
            nodes == x@.nodes,
            n == x.nodes.len() == nodes.len(),
            a <= k <= n,
            named_from(nodes, a as nat, local@, a as nat) == r@.map_values(|i: usize| i as nat)
                + named_from(nodes, a as nat, local@, k as nat),
            forall|i: int| 0 <= i < r@.len() ==> #[trigger] r@[i] < n,
        decreases n - k,
    {
        assert(nodes[k as int] == x.nodes@[k as int]@);
        proof {
            lemma_named_from_step(nodes, a as nat, local@, k as nat);
        }
        let ghost before = r@;
        if str_eq(x.nodes[k].name.as_str(), local) && descends_from(x, k, a) {
            r.push(k);
            assert(r@.map_values(|i: usize| i as nat) =~= before.map_values(|i: usize| i as nat)
                + seq![k as nat]);
        }
        k = k + 1;
    }
    assert(named_from(nodes, a as nat, local@, n as nat) =~= Seq::<nat>::empty());
    assert(r@.map_values(|i: usize| i as nat) + Seq::<nat>::empty() =~= r@.map_values(
        |i: usize| i as nat,
    ));
    r
}

proof fn lemma_text_less_skip(a: Seq<char>, b: Seq<char>, i: int)
    requires
        0 <= i < a.len(),
        i < b.len(),
        a[i] == b[i],
    ensures
        text_less(a.skip(i), b.skip(i)) == text_less(a.skip(i + 1), b.skip(i + 1)),
{
    assert(a.skip(i).drop_first() =~= a.skip(i + 1));
    assert(b.skip(i).drop_first() =~= b.skip(i + 1));
}

/// Whether `a` comes before `b` in character order.
fn text_less_exec(a: &str, b: &str) -> (r: bool)
    ensures
        r == text_less(a@, b@),
{
    let x = crate::text::chars_of(a);
    let y = crate::text::chars_of(b);
    let mut i: usize = 0;
    assert(a@.skip(0) =~= a@);
    assert(b@.skip(0) =~= b@);
    while i < x.len() && i < y.len() && x[i] == y[i]
        invariant
            x@ == a@,
            y@ == b@,
            i <= x.len(),
            i <= y.len(),
            text_less(a@, b@) == text_less(a@.skip(i as int), b@.skip(i as int)),
        decreases x.len() - i,
    {
        proof {
            lemma_text_less_skip(a@, b@, i as int);
        }
        i = i + 1;
    }
    let ghost sa = a@.skip(i as int);
    let ghost sb = b@.skip(i as int);
    if i == y.len() {
        assert(sb.len() == 0);
        false
    } else if i == x.len() {
        assert(sa.len() == 0);
        true
    } else {
        assert(sa[0] == x@[i as int] && sb[0] == y@[i as int]);
        x[i] < y[i]
    }
}

pub open spec fn pairs_view(m: Seq<(String, String)>) -> Seq<(Seq<char>, Seq<char>)> {
    m.map_values(|p: (String, String)| (p.0@, p.1@))
}

proof fn lemma_sorted_insert_skip(
    m: Seq<(Seq<char>, Seq<char>)>,
    k: Seq<char>,
    v: Seq<char>,
    i: int,
)
    requires
        0 <= i < m.len(),
        m[i].0 != k,
        !text_less(k, m[i].0),
    ensures
        m.take(i) + sorted_insert(m.skip(i), k, v) == m.take(i + 1) + sorted_insert(
            m.skip(i + 1),
            k,
            v,
        ),
{
    assert(m.skip(i).drop_first() =~= m.skip(i + 1));
    assert(sorted_insert(m.skip(i), k, v) == seq![m[i]] + sorted_insert(m.skip(i + 1), k, v));
    assert(m.take(i + 1) =~= m.take(i) + seq![m[i]]);
}

/// Files `(k, v)` into the key-ordered list (see [`sorted_insert`]).
fn file_pair(m: &mut Vec<(String, String)>, k: String, v: String)
    ensures
        pairs_view(final(m)@) == sorted_insert(pairs_view(old(m)@), k@, v@),
{
    let ghost mv = pairs_view(m@);
    let mut i: usize = 0;
    assert(mv.take(0) + mv.skip(0) =~= mv);
    assert(mv.skip(0) =~= mv);
    assert(mv.take(0) + sorted_insert(mv.skip(0), k@, v@) =~= sorted_insert(mv, k@, v@));
    while i < m.len() && !str_eq(m[i].0.as_str(), k.as_str()) && !text_less_exec(
        k.as_str(),
        m[i].0.as_str(),
    )
        invariant
            mv == pairs_view(m@),
            i <= m.len(),
            sorted_insert(mv, k@, v@) == mv.take(i as int) + sorted_insert(
                mv.skip(i as int),
                k@,
                v@,
            ),
        decreases m.len() - i,
    {
        proof {
            assert(mv[i as int] == (m@[i as int].0@, m@[i as int].1@));
            lemma_sorted_insert_skip(mv, k@, v@, i as int);
        }
        i = i + 1;
    }
    let ghost rest = mv.skip(i as int);
    if i == m.len() {
        assert(rest.len() == 0);
        m.push((k, v));
        assert(pairs_view(m@) =~= mv.take(i as int) + seq![(k@, v@)]);
    } else if str_eq(m[i].0.as_str(), k.as_str()) {
        assert(rest[0] == mv[i as int]);
        m.set(i, (k, v));
        assert(pairs_view(m@) =~= mv.take(i as int) + (seq![(k@, v@)] + rest.drop_first()));
    } else {
        assert(rest[0] == mv[i as int]);
        m.insert(i, (k, v));
        assert(pairs_view(m@) =~= mv.take(i as int) + (seq![(k@, v@)] + rest));
    }
}

proof fn lemma_namespace_map_push(
    nss: Seq<(Option<Seq<char>>, Seq<char>)>,
    i: int,
)
    requires
        0 <= i < nss.len(),
    ensures
        namespace_map(nss.take(i + 1)) == sorted_insert(
            namespace_map(nss.take(i)),
            namespace_key(nss[i].0),
            nss[i].1,
        ),
{
    assert(nss.take(i + 1).drop_last() =~= nss.take(i));
}

/// The namespaces in scope on the root, filed by prefix.
fn namespace_list(x: &XmlDocument) -> (r: Vec<(String, String)>)
    ensures
        pairs_view(r@) == namespace_map(x@.namespaces),
{
    let ghost nss = x@.namespaces;
    let mut r: Vec<(String, String)> = Vec::new();
    let mut i: usize = 0;
    assert(nss.take(0) =~= Seq::<(Option<Seq<char>>, Seq<char>)>::empty());
    assert(pairs_view(r@) =~= Seq::<(Seq<char>, Seq<char>)>::empty());
    while i < x.root_namespaces.len()
        invariant
            nss == x@.namespaces,
            i <= x.root_namespaces.len(),
            pairs_view(r@) == namespace_map(nss.take(i as int)),
        decreases x.root_namespaces.len() - i,
    {
        let ns = &x.root_namespaces[i];
        assert(nss[i as int] == crate::xml::namespace_view(x.root_namespaces@[i as int]));
        let key = match &ns.0 {
            Some(p) => p.clone(),
            None => "(default)".to_string(),
        };
        proof {
            lemma_namespace_map_push(nss, i as int);
        }
        file_pair(&mut r, key, ns.1.clone());
        i = i + 1;
    }
    assert(nss.take(x.root_namespaces.len() as int) =~= nss);
    r
}

/// The tax subtotals below the `TaxTotal` element at `tt`.
fn parse_subtotals(x: &XmlDocument, tt: usize) -> (r: Vec<TaxSubtotal>)
    ensures
        r@.map_values(|t: TaxSubtotal| t@) == named_from(
            x@.nodes,
            tt as nat,
            "TaxSubtotal"@,
            tt as nat,
        ).map_values(|st: nat| subtotal_model(x@.nodes, st)),
{
    let sts = named_nodes(x, tt, "TaxSubtotal");
    let ghost idx = sts@.map_values(|i: usize| i as nat);
    let mut r: Vec<TaxSubtotal> = Vec::new();
    let mut j: usize = 0;
    while j < sts.len()
        invariant
            idx == sts@.map_values(|i: usize| i as nat),
            j <= sts.len(),
            r@.len() == j,
            forall|t: int| 0 <= t < j ==> (#[trigger] r@[t])@ == subtotal_model(x@.nodes, idx[t]),
        decreases sts.len() - j,
    {
        let st = sts[j];
        let category = text_within(x, st, "TaxCategory", "ID");
        let percent = text_within(x, st, "TaxCategory", "Percent");
        r.push(TaxSubtotal { category, percent });
        j = j + 1;
    }
    assert(r@.map_values(|t: TaxSubtotal| t@) =~= idx.map_values(
        |st: nat| subtotal_model(x@.nodes, st),
    ));
    r
}

/// The lines of a document of the given kind.
fn parse_lines(x: &XmlDocument, root: usize, kind: DocKind) -> (r: Vec<Line>)
    ensures
        r@.map_values(|l: Line| l@) == named_from(
            x@.nodes,
            root as nat,
            line_tag(kind),
            root as nat,
        ).map_values(|ln: nat| line_model(x@.nodes, ln, kind)),
{
    let (tag, qty) = match kind {
        DocKind::Invoice => ("InvoiceLine", "InvoicedQuantity"),
        DocKind::CreditNote => ("CreditNoteLine", "CreditedQuantity"),
    };
    let lns = named_nodes(x, root, tag);
    let ghost idx = lns@.map_values(|i: usize| i as nat);
    let mut r: Vec<Line> = Vec::new();
    let mut j: usize = 0;
    while j < lns.len()
        invariant
            idx == lns@.map_values(|i: usize| i as nat),
            qty@ == quantity_tag(kind),
            j <= lns.len(),
            r@.len() == j,
            forall|t: int| 0 <= t < j ==> (#[trigger] r@[t])@ == line_model(x@.nodes, idx[t], kind),
        decreases lns.len() - j,
    {
        let ln = lns[j];
        let line = Line {
            id: text_of(x, ln, "ID"),
            quantity: text_of(x, ln, qty),
            line_extension: text_of(x, ln, "LineExtensionAmount"),
            item_name: text_within(x, ln, "Item", "Name"),
            price_amount: text_within(x, ln, "Price", "PriceAmount"),
        };
        r.push(line);
        j = j + 1;
    }
    assert(r@.map_values(|l: Line| l@) =~= idx.map_values(|ln: nat| line_model(x@.nodes, ln, kind)));
    r
}

fn parse_totals(x: &XmlDocument, root: usize) -> (r: MonetaryTotal)
    ensures
        r@ == totals_model(x@.nodes, root as nat),
{
    match first_child(x, root, "LegalMonetaryTotal") {
        Some(t) => MonetaryTotal {
            line_extension: text_of(x, t, "LineExtensionAmount"),
            tax_exclusive: text_of(x, t, "TaxExclusiveAmount"),
            tax_inclusive: text_of(x, t, "TaxInclusiveAmount"),
            payable: text_of(x, t, "PayableAmount"),
        },
        None => MonetaryTotal {
            line_extension: None,
            tax_exclusive: None,
            tax_inclusive: None,
            payable: None,
        },
    }
}

/// Reads the billing document a tree holds.
///
/// The root element must be `Invoice` or `CreditNote`; otherwise the error
/// names the root found. Header fields and document-level aggregates are
/// read among the root's children, other fields by local name below them
/// (see [`document_of`]); a missing or empty field is `None`.
pub fn extract_document(x: &XmlDocument) -> (r: Result<Document, String>)
    requires
        x@.wf(),
    ensures
        result_view(r) == document_of(x@),
{
    let root = x.root;
    assert(x@.nodes[root as int] == x.nodes@[root as int]@);
    let root_name = x.nodes[root].name.as_str();
    let kind = if str_eq(root_name, "Invoice") {
        DocKind::Invoice
    } else if str_eq(root_name, "CreditNote") {
        DocKind::CreditNote
    } else {
        let mut msg = "root element is <".to_string();
        msg.append(root_name);
        msg.append(">, expected <Invoice> or <CreditNote>");
        return Err(msg);
    };
    let namespaces = namespace_list(x);
    // Header fields and the document-level aggregates are children of the root.
    let customization_id = child_text_of(x, root, "CustomizationID");
    let profile_id = child_text_of(x, root, "ProfileID");
    let id = child_text_of(x, root, "ID");
    let issue_date = child_text_of(x, root, "IssueDate");
    let type_code = match child_text_of(x, root, "InvoiceTypeCode") {
        Some(t) => Some(t),
        None => child_text_of(x, root, "CreditNoteTypeCode"),
    };
    let currency = child_text_of(x, root, "DocumentCurrencyCode");
    let supplier = party_under_exec(x, root, "AccountingSupplierParty");
    let customer = party_under_exec(x, root, "AccountingCustomerParty");
    // Tax: the TaxTotal/TaxAmount plus each subtotal's category and percent.
    let (tax_total_amount, tax_subtotals) = match first_child(x, root, "TaxTotal") {
        Some(tt) => (text_of(x, tt, "TaxAmount"), parse_subtotals(x, tt)),
        None => (None, Vec::new()),
    };
    let totals = parse_totals(x, root);
    let lines = parse_lines(x, root, kind);
    let d = Document {
        kind,
        customization_id,
        profile_id,
        id,
        issue_date,
        type_code,
        currency,
        supplier,
        customer,
        tax_total_amount,
        tax_subtotals,
        totals,
        lines,
        namespaces,
    };
    proof {
        let dv = document_of(x@)->Ok_0;
        assert(d@.tax_subtotals =~= dv.tax_subtotals);
        assert(d@.lines =~= dv.lines);
        assert(d@.namespaces =~= dv.namespaces);
    }
    Ok(d)
}

/// Parses a UBL billing document.
///
/// A text that is not well-formed XML is refused with roxmltree's message
/// after `not well-formed XML: `; a root other than `Invoice` or
/// `CreditNote` is refused by name; otherwise the fields are extracted.
pub fn parse(xml: &str) -> (r: Result<Document, String>)
    ensures
        result_view(r) == parse_outcome(xml@),
{
    match read_xml(xml) {
        Ok(x) => extract_document(&x),
        Err(m) => {
            let mut msg = "not well-formed XML: ".to_string();
            msg.append(m.as_str());
            Err(msg)
        },
    }
}

} // verus!
