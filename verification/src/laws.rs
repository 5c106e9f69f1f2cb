//! Properties of the validator as a whole.

use vstd::prelude::*;

use crate::model::DocKind;
use crate::number::{
    amount_of, half_cent, lemma_pow10_positive, signed_magnitude, sum, within_half_cent,
    without_commas, Value,
};
use crate::wide::{overflow_magnitude, FRACTION_DIGITS};
use crate::parse::{
    is_descendant, named_from, namespace_map, parse_outcome, sorted_insert, text_less,
};
use crate::report_on;
use crate::model::{DocumentView, LineView, PartyView, TaxSubtotalView};
use crate::rules::{
    amount_opt, co10_findings, co15_findings, count_severity, each_line_findings, findings_of,
    header_findings, line_findings, lines_findings, parties_findings, party_findings,
    profile_findings, require_findings, subtotal_findings, subtotals_findings, tax_findings,
    totals_findings, error, finding, line_sum, none, FindingView, Severity,
};
use crate::text::nat_digits;
use crate::xml::{document_model, xml_parse};

verus! {

/// A text that cannot be read as a billing document is reported as exactly
/// one `XML-PARSE` error, and the report does not conform.
pub proof fn malformed_text_is_one_fatal_finding(text: Seq<char>)
    requires
        parse_outcome(text) is Err,
    ensures
        report_on(text).findings.len() == 1,
        report_on(text).findings[0].rule == "XML-PARSE"@,
        report_on(text).findings[0].severity == Severity::Error,
        report_on(text).findings[0].message == parse_outcome(text)->Err_0,
        !report_on(text).conforms,
        report_on(text).errors == 1,
        report_on(text).warnings == 0,
{
    let fs = report_on(text).findings;
    assert(fs.drop_last() =~= Seq::<FindingView>::empty());
    assert(count_severity(fs.drop_last(), Severity::Error) == 0);
    assert(count_severity(fs.drop_last(), Severity::Warning) == 0);
}

proof fn lemma_count_severity(fs: Seq<FindingView>, s: Severity)
    ensures
        count_severity(fs, s) == 0 <==> forall|i: int| 0 <= i < fs.len() ==> #[trigger] fs[i].severity
            != s,
        count_severity(fs, s) <= fs.len(),
    decreases fs.len(),
{
    if fs.len() > 0 {
        let rest = fs.drop_last();
        lemma_count_severity(rest, s);
        if count_severity(fs, s) == 0 {
            assert forall|i: int| 0 <= i < fs.len() implies #[trigger] fs[i].severity != s by {
                if i < fs.len() - 1 {
                    assert(rest[i] == fs[i]);
                }
            }
        }
        if forall|i: int| 0 <= i < fs.len() ==> #[trigger] fs[i].severity != s {
            assert forall|i: int| 0 <= i < rest.len() implies #[trigger] rest[i].severity != s by {
                assert(rest[i] == fs[i]);
            }
            assert(fs[fs.len() - 1].severity != s);
        }
    }
}

proof fn lemma_count_two_severities(fs: Seq<FindingView>)
    ensures
        count_severity(fs, Severity::Error) + count_severity(fs, Severity::Warning) <= fs.len(),
    decreases fs.len(),
{
    if fs.len() > 0 {
        lemma_count_two_severities(fs.drop_last());
    }
}

/// A report conforms exactly when none of its findings is an error; it
/// counts its errors and warnings, which together are at most its findings.
pub proof fn conforms_iff_no_error_finding(text: Seq<char>)
    ensures
        report_on(text).conforms <==> forall|i: int|
            0 <= i < report_on(text).findings.len() ==> #[trigger] report_on(text).findings[i].severity
                != Severity::Error,
        report_on(text).conforms <==> report_on(text).errors == 0,
        report_on(text).errors == count_severity(report_on(text).findings, Severity::Error),
        report_on(text).warnings == count_severity(report_on(text).findings, Severity::Warning),
        report_on(text).errors + report_on(text).warnings <= report_on(text).findings.len(),
{
    lemma_count_severity(report_on(text).findings, Severity::Error);
    lemma_count_two_severities(report_on(text).findings);
}

/// Parsing judges nothing: a text is refused only when it is not
/// well-formed XML or its root element is neither `Invoice` nor `CreditNote`.
pub proof fn parse_refuses_only_unreadable_text(text: Seq<char>)
    ensures
        parse_outcome(text) is Err <==> (xml_parse(text) is Err || ({
            let x = document_model(xml_parse(text)->Ok_0);
            let name = x.nodes[x.root as int].name;
            name != "Invoice"@ && name != "CreditNote"@
        })),
{
}

/// Sums are exact: a finite sum carries the sum of the signed values, and
/// the order of the terms does not matter.
pub proof fn sums_are_exact_and_commutative(a: Value, b: Value)
    ensures
        sum(a, b) == sum(b, a),
        (a is Finite && b is Finite && sum(a, b) is Finite) ==> signed_magnitude(sum(a, b))
            == signed_magnitude(a) + signed_magnitude(b),
{
}

/// Money equality within half a cent is symmetric and reflexive on finite
/// values.
pub proof fn half_cent_equality_is_symmetric(a: Value, b: Value)
    ensures
        within_half_cent(a, b) == within_half_cent(b, a),
        a is Finite ==> within_half_cent(a, a),
{
    lemma_pow10_positive((FRACTION_DIGITS - 3) as nat);
}

proof fn lemma_without_commas_idempotent(s: Seq<char>)
    ensures
        without_commas(without_commas(s)) == without_commas(s),
    decreases s.len(),
{
    if s.len() > 0 {
        lemma_without_commas_idempotent(s.drop_last());
        let w = without_commas(s.drop_last());
        if s.last() != ',' {
            let ww = w.push(s.last());
            assert(ww.drop_last() =~= w);
        }
    }
}

/// Thousands separators are ignored in amounts: a text reads as the same
/// amount as the text without its commas.
pub proof fn commas_are_ignored_in_amounts(s: Seq<char>)
    ensures
        amount_of(s) == amount_of(without_commas(s)),
{
    lemma_without_commas_idempotent(s);
}

pub open spec fn starts_with(s: Seq<char>, p: Seq<char>) -> bool {
    p.len() <= s.len() && s.take(p.len() as int) == p
}

/// A rule id names where its requirement comes from: the Singapore country
/// rules, the EN 16931 core, or UBL structure.
pub open spec fn names_origin(rule: Seq<char>) -> bool {
    ||| starts_with(rule, "PINT-SG-"@)
    ||| starts_with(rule, "EN16931-"@)
    ||| starts_with(rule, "UBL-"@)
}

pub open spec fn all_name_origin(fs: Seq<FindingView>) -> bool {
    forall|i: int| 0 <= i < fs.len() ==> names_origin(#[trigger] fs[i].rule)
}

proof fn lemma_all_concat(a: Seq<FindingView>, b: Seq<FindingView>)
    requires
        all_name_origin(a),
        all_name_origin(b),
    ensures
        all_name_origin(a + b),
{
    assert forall|i: int| 0 <= i < (a + b).len() implies names_origin(#[trigger] (a + b)[i].rule) by {
        if i < a.len() {
            assert((a + b)[i] == a[i]);
        } else {
            assert((a + b)[i] == b[i - a.len()]);
        }
    }
}

proof fn lemma_extend(base: Seq<char>, suffix: Seq<char>, p: Seq<char>)
    requires
        starts_with(base, p),
    ensures
        starts_with(base + suffix, p),
{
    assert((base + suffix).take(p.len() as int) =~= base.take(p.len() as int));
}

proof fn lemma_literal_origins()
    ensures
        names_origin("PINT-SG-01"@),
        names_origin("PINT-SG-02"@),
        names_origin("PINT-SG-05"@),
        names_origin("PINT-SG-SELLER-GST"@),
        names_origin("PINT-SG-TAXCAT"@),
        names_origin("PINT-SG-GSTRATE"@),
        starts_with("PINT-SG-SELLER"@, "PINT-SG-"@),
        starts_with("PINT-SG-BUYER"@, "PINT-SG-"@),
        names_origin("EN16931-02"@),
        names_origin("EN16931-05"@),
        names_origin("EN16931-TAX"@),
        names_origin("EN16931-TAXCAT"@),
        names_origin("EN16931-TAXRATE"@),
        names_origin("EN16931-CO-15"@),
        names_origin("EN16931-CO-10"@),
        names_origin("EN16931-LINE"@),
        names_origin("EN16931-LINE-NAME"@),
        names_origin("EN16931-LINE-AMT"@),
        names_origin("UBL-01"@),
        names_origin("UBL-02"@),
        names_origin("UBL-03"@),
        names_origin("UBL-04"@),
        names_origin("UBL-TOTAL"@),
        names_origin("UBL-LINE-ID"@),
        names_origin("UBL-LINE-QTY"@),
{
    reveal_strlit("PINT-SG-");
    reveal_strlit("EN16931-");
    reveal_strlit("UBL-");
    reveal_strlit("PINT-SG-01");
    reveal_strlit("PINT-SG-02");
    reveal_strlit("PINT-SG-05");
    reveal_strlit("PINT-SG-SELLER-GST");
    reveal_strlit("PINT-SG-TAXCAT");
    reveal_strlit("PINT-SG-GSTRATE");
    reveal_strlit("PINT-SG-SELLER");
    reveal_strlit("PINT-SG-BUYER");
    reveal_strlit("EN16931-02");
    reveal_strlit("EN16931-05");
    reveal_strlit("EN16931-TAX");
    reveal_strlit("EN16931-TAXCAT");
    reveal_strlit("EN16931-TAXRATE");
    reveal_strlit("EN16931-CO-15");
    reveal_strlit("EN16931-CO-10");
    reveal_strlit("EN16931-LINE");
    reveal_strlit("EN16931-LINE-NAME");
    reveal_strlit("EN16931-LINE-AMT");
    reveal_strlit("UBL-01");
    reveal_strlit("UBL-02");
    reveal_strlit("UBL-03");
    reveal_strlit("UBL-04");
    reveal_strlit("UBL-TOTAL");
    reveal_strlit("UBL-LINE-ID");
    reveal_strlit("UBL-LINE-QTY");
    assert("PINT-SG-01"@.take(8) =~= "PINT-SG-"@);
    assert("PINT-SG-02"@.take(8) =~= "PINT-SG-"@);
    assert("PINT-SG-05"@.take(8) =~= "PINT-SG-"@);
    assert("PINT-SG-SELLER-GST"@.take(8) =~= "PINT-SG-"@);
    assert("PINT-SG-TAXCAT"@.take(8) =~= "PINT-SG-"@);
    assert("PINT-SG-GSTRATE"@.take(8) =~= "PINT-SG-"@);
    assert("PINT-SG-SELLER"@.take(8) =~= "PINT-SG-"@);
    assert("PINT-SG-BUYER"@.take(8) =~= "PINT-SG-"@);
    assert("EN16931-02"@.take(8) =~= "EN16931-"@);
    assert("EN16931-05"@.take(8) =~= "EN16931-"@);
    assert("EN16931-TAX"@.take(8) =~= "EN16931-"@);
    assert("EN16931-TAXCAT"@.take(8) =~= "EN16931-"@);
    assert("EN16931-TAXRATE"@.take(8) =~= "EN16931-"@);
    assert("EN16931-CO-15"@.take(8) =~= "EN16931-"@);
    assert("EN16931-CO-10"@.take(8) =~= "EN16931-"@);
    assert("EN16931-LINE"@.take(8) =~= "EN16931-"@);
    assert("EN16931-LINE-NAME"@.take(8) =~= "EN16931-"@);
    assert("EN16931-LINE-AMT"@.take(8) =~= "EN16931-"@);
    assert("UBL-01"@.take(4) =~= "UBL-"@);
    assert("UBL-02"@.take(4) =~= "UBL-"@);
    assert("UBL-03"@.take(4) =~= "UBL-"@);
    assert("UBL-04"@.take(4) =~= "UBL-"@);
    assert("UBL-TOTAL"@.take(4) =~= "UBL-"@);
    assert("UBL-LINE-ID"@.take(4) =~= "UBL-"@);
    assert("UBL-LINE-QTY"@.take(4) =~= "UBL-"@);
}

proof fn lemma_require(rule: Seq<char>, bt: Seq<char>, v: Option<Seq<char>>)
    requires
        names_origin(rule),
    ensures
        all_name_origin(require_findings(rule, bt, v)),
{
}

proof fn lemma_party(who: Seq<char>, base: Seq<char>, p: PartyView)
    requires
        starts_with(base, "PINT-SG-"@),
    ensures
        all_name_origin(party_findings(who, base, p)),
{
    lemma_extend(base, "-NAME"@, "PINT-SG-"@);
    lemma_extend(base, "-EP"@, "PINT-SG-"@);
    lemma_extend(base, "-EPSCHEME"@, "PINT-SG-"@);
}

proof fn lemma_subtotals(sts: Seq<TaxSubtotalView>)
    ensures
        all_name_origin(subtotals_findings(sts)),
    decreases sts.len(),
{
    lemma_literal_origins();
    if sts.len() > 0 {
        lemma_subtotals(sts.drop_last());
        assert(all_name_origin(subtotal_findings(sts.last())));
        lemma_all_concat(subtotals_findings(sts.drop_last()), subtotal_findings(sts.last()));
    }
}

proof fn lemma_each_line(ls: Seq<LineView>)
    ensures
        all_name_origin(each_line_findings(ls)),
    decreases ls.len(),
{
    lemma_literal_origins();
    if ls.len() > 0 {
        lemma_each_line(ls.drop_last());
        assert(all_name_origin(line_findings(ls.len(), ls.last())));
        lemma_all_concat(each_line_findings(ls.drop_last()), line_findings(ls.len(), ls.last()));
    }
}

/// Every rule id names its origin: `PINT-SG-` for the Singapore country
/// rules, `EN16931-` for the European semantic core, `UBL-` for structure.
pub proof fn rule_ids_name_their_origin(d: DocumentView)
    ensures
        all_name_origin(findings_of(d)),
{
    lemma_literal_origins();
    let p = profile_findings(d);
    let h = header_findings(d);
    let pa = parties_findings(d);
    let t = tax_findings(d);
    let to = totals_findings(d);
    let l = lines_findings(d);
    assert(all_name_origin(p));
    lemma_require("UBL-01"@, "Invoice number (BT-1)"@, d.id);
    lemma_require("UBL-02"@, "Issue date (BT-2)"@, d.issue_date);
    lemma_require("UBL-03"@, "Document type code"@, d.type_code);
    lemma_require("UBL-TOTAL"@, "LegalMonetaryTotal/PayableAmount (BT-115)"@, d.totals.payable);
    assert(all_name_origin(h)) by {
        let a = require_findings("UBL-01"@, "Invoice number (BT-1)"@, d.id);
        let b = require_findings("UBL-02"@, "Issue date (BT-2)"@, d.issue_date);
        let c = match d.issue_date {
            Some(s) => if crate::rules::is_iso_date(s) {
                crate::rules::none()
            } else {
                crate::rules::error(
                    "EN16931-02"@,
                    "Issue date '"@ + s + "' is not in YYYY-MM-DD form"@,
                )
            },
            None => crate::rules::none(),
        };
        let e = require_findings("UBL-03"@, "Document type code"@, d.type_code);
        let f = h.skip((a.len() + b.len() + c.len() + e.len()) as int);
        assert(all_name_origin(c));
        assert(all_name_origin(f)) by {
            assert(h =~= a + b + c + e + f);
        }
        lemma_all_concat(a, b);
        lemma_all_concat(a + b, c);
        lemma_all_concat(a + b + c, e);
        lemma_all_concat(a + b + c + e, f);
        assert(h =~= a + b + c + e + f);
    }
    lemma_party("Supplier"@, "PINT-SG-SELLER"@, d.supplier);
    lemma_party("Customer"@, "PINT-SG-BUYER"@, d.customer);
    assert(all_name_origin(pa)) by {
        let a = party_findings("Supplier"@, "PINT-SG-SELLER"@, d.supplier);
        let b = party_findings("Customer"@, "PINT-SG-BUYER"@, d.customer);
        let c = pa.skip((a.len() + b.len()) as int);
        assert(pa =~= a + b + c);
        assert(all_name_origin(c));
        lemma_all_concat(a, b);
        lemma_all_concat(a + b, c);
    }
    lemma_subtotals(d.tax_subtotals);
    assert(all_name_origin(t)) by {
        let a = t.take(if d.tax_total_amount is None { 1int } else { 0int });
        let b = t.skip(a.len() as int);
        assert(t =~= a + b);
        assert(all_name_origin(a));
        assert(all_name_origin(b));
        lemma_all_concat(a, b);
    }
    assert(all_name_origin(co15_findings(d)));
    assert(all_name_origin(co10_findings(d)));
    assert(all_name_origin(to)) by {
        let a = require_findings(
            "UBL-TOTAL"@,
            "LegalMonetaryTotal/PayableAmount (BT-115)"@,
            d.totals.payable,
        );
        lemma_all_concat(a, co15_findings(d));
        lemma_all_concat(a + co15_findings(d), co10_findings(d));
    }
    lemma_each_line(d.lines);
    assert(all_name_origin(l));
    lemma_all_concat(p, h);
    lemma_all_concat(p + h, pa);
    lemma_all_concat(p + h + pa, t);
    lemma_all_concat(p + h + pa + t, to);
    lemma_all_concat(p + h + pa + t + to, l);
}

proof fn lemma_text_less_transitive(a: Seq<char>, b: Seq<char>, c: Seq<char>)
    requires
        text_less(a, b),
        text_less(b, c),
    ensures
        text_less(a, c),
    decreases a.len(),
{
    if a.len() > 0 && b.len() > 0 && c.len() > 0 && a[0] == b[0] && b[0] == c[0] {
        lemma_text_less_transitive(a.drop_first(), b.drop_first(), c.drop_first());
    }
}

proof fn lemma_text_less_total(a: Seq<char>, b: Seq<char>)
    requires
        a != b,
    ensures
        text_less(a, b) || text_less(b, a),
    decreases a.len(),
{
    if a.len() > 0 && b.len() > 0 && a[0] == b[0] {
        if a.drop_first() == b.drop_first() {
            assert(a =~= seq![a[0]] + a.drop_first());
            assert(b =~= seq![b[0]] + b.drop_first());
        }
        lemma_text_less_total(a.drop_first(), b.drop_first());
    } else if a.len() == 0 && b.len() == 0 {
        assert(a =~= b);
    }
}

/// The keys of a list strictly increase, so none occurs twice.
pub open spec fn keys_increase(m: Seq<(Seq<char>, Seq<char>)>) -> bool {
    forall|i: int, j: int| 0 <= i < j < m.len() ==> text_less(#[trigger] m[i].0, #[trigger] m[j].0)
}

proof fn lemma_sorted_insert(m: Seq<(Seq<char>, Seq<char>)>, k: Seq<char>, v: Seq<char>, b: Seq<char>)
    requires
        keys_increase(m),
    ensures
        keys_increase(sorted_insert(m, k, v)),
        (text_less(b, k) && forall|j: int| 0 <= j < m.len() ==> text_less(b, #[trigger] m[j].0))
            ==> forall|i: int|
            0 <= i < sorted_insert(m, k, v).len() ==> text_less(b, #[trigger] sorted_insert(m, k, v)[i].0),
    decreases m.len(),
{
    let r = sorted_insert(m, k, v);
    if m.len() == 0 {
    } else if m[0].0 == k {
        assert forall|i: int, j: int| 0 <= i < j < r.len() implies text_less(
            #[trigger] r[i].0,
            #[trigger] r[j].0,
        ) by {
            if i == 0 {
                assert(r[j] == m[j]);
            } else {
                assert(r[i] == m[i] && r[j] == m[j]);
            }
        }
        if text_less(b, k) && forall|j: int| 0 <= j < m.len() ==> text_less(b, #[trigger] m[j].0) {
            assert forall|i: int| 0 <= i < r.len() implies text_less(b, #[trigger] r[i].0) by {
                if i > 0 {
                    assert(r[i] == m[i]);
                }
            }
        }
    } else if text_less(k, m[0].0) {
        assert forall|i: int, j: int| 0 <= i < j < r.len() implies text_less(
            #[trigger] r[i].0,
            #[trigger] r[j].0,
        ) by {
            if i == 0 {
                assert(r[j] == m[j - 1]);
                if j > 1 {
                    assert(text_less(m[0].0, m[j - 1].0));
                    lemma_text_less_transitive(k, m[0].0, m[j - 1].0);
                }
            } else {
                assert(r[i] == m[i - 1] && r[j] == m[j - 1]);
            }
        }
        if text_less(b, k) && forall|j: int| 0 <= j < m.len() ==> text_less(b, #[trigger] m[j].0) {
            assert forall|i: int| 0 <= i < r.len() implies text_less(b, #[trigger] r[i].0) by {
                if i > 0 {
                    assert(r[i] == m[i - 1]);
                }
            }
        }
    } else {
        let rest = m.drop_first();
        assert(keys_increase(rest)) by {
            assert forall|i: int, j: int| 0 <= i < j < rest.len() implies text_less(
                #[trigger] rest[i].0,
                #[trigger] rest[j].0,
            ) by {
                assert(rest[i] == m[i + 1] && rest[j] == m[j + 1]);
            }
        }
        lemma_text_less_total(m[0].0, k);
        assert(text_less(m[0].0, k));
        lemma_sorted_insert(rest, k, v, m[0].0);
        assert forall|j: int| 0 <= j < rest.len() implies text_less(m[0].0, #[trigger] rest[j].0) by {
            assert(rest[j] == m[j + 1]);
        }
        let tail = sorted_insert(rest, k, v);
        assert(r == seq![m[0]] + tail);
        assert forall|i: int, j: int| 0 <= i < j < r.len() implies text_less(
            #[trigger] r[i].0,
            #[trigger] r[j].0,
        ) by {
            if i == 0 {
                assert(r[j] == tail[j - 1]);
            } else {
                assert(r[i] == tail[i - 1] && r[j] == tail[j - 1]);
            }
        }
        if text_less(b, k) && forall|j: int| 0 <= j < m.len() ==> text_less(b, #[trigger] m[j].0) {
            lemma_sorted_insert(rest, k, v, b);
            assert forall|j: int| 0 <= j < rest.len() implies text_less(b, #[trigger] rest[j].0) by {
                assert(rest[j] == m[j + 1]);
            }
            assert forall|i: int| 0 <= i < r.len() implies text_less(b, #[trigger] r[i].0) by {
                if i > 0 {
                    assert(r[i] == tail[i - 1]);
                }
            }
        }
    }
}

proof fn lemma_namespace_map_increases(nss: Seq<(Option<Seq<char>>, Seq<char>)>)
    ensures
        keys_increase(namespace_map(nss)),
    decreases nss.len(),
{
    if nss.len() > 0 {
        lemma_namespace_map_increases(nss.drop_last());
        lemma_sorted_insert(
            namespace_map(nss.drop_last()),
            crate::parse::namespace_key(nss.last().0),
            nss.last().1,
            Seq::empty(),
        );
    }
}

/// The namespaces of a parsed document are filed under distinct keys in
/// increasing order, as in a sorted map.
pub proof fn namespaces_are_sorted_by_distinct_keys(text: Seq<char>)
    requires
        parse_outcome(text) is Ok,
    ensures
        keys_increase(parse_outcome(text)->Ok_0.namespaces),
{
    let x = document_model(xml_parse(text)->Ok_0);
    lemma_namespace_map_increases(x.namespaces);
}


proof fn lemma_amount_below_overflow(t: Seq<char>)
    ensures
        amount_of(t) matches Some(Value::Finite { magnitude, .. }) ==> magnitude < overflow_magnitude(),
{
}

/// Totals that add up exactly raise no BR-CO-15 error, however large the
/// amounts: a tax-inclusive amount equal to the tax-exclusive amount plus
/// the tax passes.
pub proof fn exact_totals_add_up(d: DocumentView)
    requires
        amount_opt(d.totals.tax_exclusive) matches Some(e) && e is Finite,
        amount_opt(d.tax_total_amount) matches Some(x) && x is Finite,
        amount_opt(d.totals.tax_inclusive) matches Some(i) && i is Finite,
        signed_magnitude(amount_opt(d.totals.tax_inclusive)->0) == signed_magnitude(
            amount_opt(d.totals.tax_exclusive)->0,
        ) + signed_magnitude(amount_opt(d.tax_total_amount)->0),
    ensures
        co15_findings(d) == Seq::<FindingView>::empty(),
{
    lemma_amount_below_overflow(d.totals.tax_inclusive->0);
    lemma_pow10_positive((FRACTION_DIGITS - 3) as nat);
}


/// Totals that do not add up are reported: when the three totals read as
/// finite amounts and the tax-inclusive amount is half a cent or more away
/// from tax-exclusive plus tax, in either direction, the totals check
/// reports exactly one EN16931-CO-15 error.
pub proof fn totals_that_do_not_add_up_are_reported(d: DocumentView)
    requires
        amount_opt(d.totals.tax_exclusive) matches Some(e) && e is Finite,
        amount_opt(d.tax_total_amount) matches Some(x) && x is Finite,
        amount_opt(d.totals.tax_inclusive) matches Some(i) && i is Finite,
        signed_magnitude(amount_opt(d.totals.tax_inclusive)->0) - (signed_magnitude(
            amount_opt(d.totals.tax_exclusive)->0,
        ) + signed_magnitude(amount_opt(d.tax_total_amount)->0)) >= half_cent() || (
        signed_magnitude(amount_opt(d.totals.tax_exclusive)->0) + signed_magnitude(
            amount_opt(d.tax_total_amount)->0,
        )) - signed_magnitude(amount_opt(d.totals.tax_inclusive)->0) >= half_cent(),
    ensures
        co15_findings(d).len() == 1,
        co15_findings(d)[0].rule == "EN16931-CO-15"@,
        co15_findings(d)[0].severity == Severity::Error,
        exists|k: int|
            0 <= k < totals_findings(d).len() && #[trigger] totals_findings(d)[k].rule
                == "EN16931-CO-15"@ && totals_findings(d)[k].severity == Severity::Error,
{
    let r = require_findings(
        "UBL-TOTAL"@,
        "LegalMonetaryTotal/PayableAmount (BT-115)"@,
        d.totals.payable,
    );
    assert(totals_findings(d)[r.len() as int] == co15_findings(d)[0]);
}

/// Totals within half a cent pass: when the three totals are finite,
/// tax-exclusive plus tax stays below the overflow bound and the
/// tax-inclusive amount is less than half a cent away from it, the totals
/// check reports no EN16931-CO-15 error.
pub proof fn totals_within_half_a_cent_pass(d: DocumentView)
    requires
        amount_opt(d.totals.tax_exclusive) matches Some(e) && e is Finite,
        amount_opt(d.tax_total_amount) matches Some(x) && x is Finite,
        amount_opt(d.totals.tax_inclusive) matches Some(i) && i is Finite,
        -(half_cent() as int) < signed_magnitude(amount_opt(d.totals.tax_inclusive)->0) - (
        signed_magnitude(amount_opt(d.totals.tax_exclusive)->0) + signed_magnitude(
            amount_opt(d.tax_total_amount)->0,
        )) < half_cent(),
        -(overflow_magnitude() as int) < signed_magnitude(amount_opt(d.totals.tax_exclusive)->0)
            + signed_magnitude(amount_opt(d.tax_total_amount)->0) < overflow_magnitude(),
    ensures
        co15_findings(d) == Seq::<FindingView>::empty(),
{
}

/// A declared line total that differs from the sum of the lines is
/// reported: with at least one line, when the declared line extension
/// amount and the sum of the line amounts are finite and half a cent or more
/// apart, in either direction, the totals check reports exactly one
/// EN16931-CO-10 error.
pub proof fn a_wrong_line_total_is_reported(d: DocumentView)
    requires
        d.lines.len() > 0,
        amount_opt(d.totals.line_extension) matches Some(v) && v is Finite,
        line_sum(d.lines) is Finite,
        signed_magnitude(amount_opt(d.totals.line_extension)->0) - signed_magnitude(
            line_sum(d.lines),
        ) >= half_cent() || signed_magnitude(line_sum(d.lines)) - signed_magnitude(
            amount_opt(d.totals.line_extension)->0,
        ) >= half_cent(),
    ensures
        co10_findings(d).len() == 1,
        co10_findings(d)[0].rule == "EN16931-CO-10"@,
        co10_findings(d)[0].severity == Severity::Error,
{
}

/// The signed sum of the line amounts, each taken as written.
pub open spec fn signed_line_total(ls: Seq<LineView>) -> int
    decreases ls.len(),
{
    if ls.len() == 0 {
        0
    } else {
        signed_line_total(ls.drop_last()) + match amount_opt(ls.last().line_extension) {
            Some(v) => signed_magnitude(v),
            None => 0,
        }
    }
}

/// The sum of the lines adds up every line amount: where no line amount is
/// infinite or NaN and the sum stays finite, its signed value is the sum of
/// the signed line amounts.
pub proof fn the_line_sum_adds_every_line(ls: Seq<LineView>)
    requires
        forall|j: int|
            0 <= j < ls.len() ==> !(amount_opt(#[trigger] ls[j].line_extension) matches Some(v)
                && !(v is Finite)),
        line_sum(ls) is Finite,
    ensures
        signed_magnitude(line_sum(ls)) == signed_line_total(ls),
    decreases ls.len(),
{
    if ls.len() > 0 {
        let pre = ls.drop_last();
        assert forall|j: int| 0 <= j < pre.len() implies !(amount_opt(
            #[trigger] pre[j].line_extension,
        ) matches Some(v) && !(v is Finite)) by {
            assert(pre[j] == ls[j]);
        }
        assert(ls.last() == ls[ls.len() - 1]);
        if !(line_sum(pre) is Finite) {
            assert(line_sum(pre) is Infinite || line_sum(pre) is NotANumber);
        }
        the_line_sum_adds_every_line(pre);
    }
}

/// A standard-rated subtotal anywhere in the tax total, with no supplier
/// GST registration id, is reported as a PINT-SG-SELLER-GST error.
pub proof fn standard_rate_anywhere_needs_a_registration(d: DocumentView, i: int)
    requires
        0 <= i < d.tax_subtotals.len(),
        d.tax_subtotals[i].category == Some("S"@),
        d.supplier.tax_company_id is None || d.supplier.tax_company_id->0.len() == 0,
    ensures
        exists|k: int|
            0 <= k < parties_findings(d).len() && #[trigger] parties_findings(d)[k] == finding(
                "PINT-SG-SELLER-GST"@,
                Severity::Error,
                "Standard-rated GST is charged but the supplier has no GST registration id (PartyTaxScheme/CompanyID)"@,
            ),
{
    let f = parties_findings(d);
    assert(f[f.len() - 1] == finding(
        "PINT-SG-SELLER-GST"@,
        Severity::Error,
        "Standard-rated GST is charged but the supplier has no GST registration id (PartyTaxScheme/CompanyID)"@,
    ));
}

proof fn lemma_each_line_holds(ls: Seq<LineView>, i: int) -> (k: int)
    requires
        0 <= i < ls.len(),
    ensures
        0 <= k,
        k + line_findings((i + 1) as nat, ls[i]).len() <= each_line_findings(ls).len(),
        each_line_findings(ls).subrange(k, k + line_findings((i + 1) as nat, ls[i]).len())
            == line_findings((i + 1) as nat, ls[i]),
    decreases ls.len(),
{
    let pre = ls.drop_last();
    let e = each_line_findings(ls);
    let lf = line_findings((i + 1) as nat, ls[i]);
    assert(e == each_line_findings(pre) + line_findings(ls.len(), ls.last()));
    if i == ls.len() - 1 {
        let k = each_line_findings(pre).len() as int;
        assert(e.subrange(k, k + lf.len()) =~= lf);
        k
    } else {
        let k = lemma_each_line_holds(pre, i);
        assert(pre[i] == ls[i]);
        assert(e.subrange(k, k + lf.len()) =~= each_line_findings(pre).subrange(k, k + lf.len()));
        k
    }
}

/// Every line is checked: for each line position `i`, the findings of the
/// lines check hold the findings of that line, numbered `i + 1`, in a row.
pub proof fn every_line_is_checked(d: DocumentView, i: int)
    requires
        0 <= i < d.lines.len(),
    ensures
        exists|k: int|
            0 <= k && k + line_findings((i + 1) as nat, d.lines[i]).len() <= lines_findings(
                d,
            ).len() && #[trigger] lines_findings(d).subrange(
                k,
                k + line_findings((i + 1) as nat, d.lines[i]).len(),
            ) == line_findings((i + 1) as nat, d.lines[i]),
{
    let k = lemma_each_line_holds(d.lines, i);
    assert(lines_findings(d) == each_line_findings(d.lines));
}

/// A line whose item has no name, at any position, is reported as an
/// EN16931-LINE-NAME error that names its position (from 1).
pub proof fn a_nameless_item_is_reported(d: DocumentView, i: int)
    requires
        0 <= i < d.lines.len(),
        d.lines[i].item_name is None || d.lines[i].item_name->0.len() == 0,
    ensures
        exists|k: int|
            0 <= k < lines_findings(d).len() && #[trigger] lines_findings(d)[k] == finding(
                "EN16931-LINE-NAME"@,
                Severity::Error,
                "Line "@ + nat_digits((i + 1) as nat) + ": "@ + "item has no Name (BT-153)"@,
            ),
{
    let k = lemma_each_line_holds(d.lines, i);
    assert(lines_findings(d) == each_line_findings(d.lines));
    let l = d.lines[i];
    let lf = line_findings((i + 1) as nat, l);
    let j: int = if l.id is None || l.id->0.len() == 0 {
        1
    } else {
        0
    };
    let prefix = "Line "@ + nat_digits((i + 1) as nat) + ": "@;
    let a: Seq<FindingView> = if l.id is None || l.id->0.len() == 0 {
        error("UBL-LINE-ID"@, prefix + "missing line ID"@)
    } else {
        none()
    };
    let b = error("EN16931-LINE-NAME"@, prefix + "item has no Name (BT-153)"@);
    let rest = lf.skip((a + b).len() as int);
    assert(lf =~= (a + b) + rest);
    assert((a + b)[j] == b[0]);
    assert(lf[j] == finding(
        "EN16931-LINE-NAME"@,
        Severity::Error,
        "Line "@ + nat_digits((i + 1) as nat) + ": "@ + "item has no Name (BT-153)"@,
    ));
    assert(lines_findings(d).subrange(k, k + lf.len())[j] == lines_findings(d)[k + j]);
}

/// How many nodes, from position `k` on, are named `local` and lie in the
/// subtree of `a`.
pub open spec fn count_named(nodes: Seq<crate::xml::XmlNodeView>, a: nat, local: Seq<char>, k: nat) -> nat
    decreases nodes.len() - k,
{
    if k >= nodes.len() {
        0
    } else {
        (if is_descendant(nodes, k, a) && nodes[k as int].name == local {
            1nat
        } else {
            0nat
        }) + count_named(nodes, a, local, k + 1)
    }
}

proof fn lemma_named_from_counts(
    nodes: Seq<crate::xml::XmlNodeView>,
    a: nat,
    local: Seq<char>,
    k: nat,
)
    ensures
        named_from(nodes, a, local, k).len() == count_named(nodes, a, local, k),
    decreases nodes.len() - k,
{
    if k < nodes.len() {
        lemma_named_from_counts(nodes, a, local, k + 1);
    }
}

proof fn lemma_count_before_root(
    nodes: Seq<crate::xml::XmlNodeView>,
    a: nat,
    local: Seq<char>,
    k: nat,
)
    requires
        k <= a,
    ensures
        count_named(nodes, a, local, k) == count_named(nodes, a, local, a),
    decreases a - k,
{
    if k < a && k < nodes.len() {
        assert(!is_descendant(nodes, k, a));
        lemma_count_before_root(nodes, a, local, k + 1);
    }
}

/// Every line element is read: a document read from a text has one line
/// for each element named `InvoiceLine` (`CreditNoteLine` in a credit note)
/// in the root's subtree, wherever it stands.
pub proof fn every_line_element_is_read(text: Seq<char>)
    requires
        parse_outcome(text) is Ok,
    ensures
        ({
            let x = document_model(xml_parse(text)->Ok_0);
            let d = parse_outcome(text)->Ok_0;
            let tag = if d.kind == DocKind::Invoice {
                "InvoiceLine"@
            } else {
                "CreditNoteLine"@
            };
            d.lines.len() == count_named(x.nodes, x.root, tag, 0)
        }),
{
    let x = document_model(xml_parse(text)->Ok_0);
    let d = parse_outcome(text)->Ok_0;
    let tag = if d.kind == DocKind::Invoice {
        "InvoiceLine"@
    } else {
        "CreditNoteLine"@
    };
    lemma_named_from_counts(x.nodes, x.root, tag, x.root);
    lemma_count_before_root(x.nodes, x.root, tag, 0);
}

} // verus!
