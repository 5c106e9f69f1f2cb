//! The XML tree the validator reads.
//!
//! roxmltree parses the text. Its document is a collection of nodes in
//! document order; [`xml_nodes`] names what each node holds as far as the
//! validator reads it, and the trusted items below say, node by node, what
//! roxmltree's accessors return over that name. [`read_xml`] copies the
//! parsed nodes into the library's own [`XmlDocument`], which the rest of the
//! crate works on.

use roxmltree::Document as ParsedXml;
use vstd::prelude::*;

verus! {

#[verifier::external_type_specification]
#[verifier::external_body]
pub struct ExRoxDocument<'input>(ParsedXml<'input>);

/// One node of a parsed document as roxmltree's accessors show it.
pub struct ParsedNode {
    /// `is_element()`.
    pub element: bool,
    /// `tag_name().name()`: the local name, empty for a non-element.
    pub name: Seq<char>,
    /// `text()`.
    pub text: Option<Seq<char>>,
    /// `attributes()`: local name and value of each, in document order.
    pub attributes: Seq<(Seq<char>, Seq<char>)>,
    /// `namespaces()`: prefix (`None` for the default namespace) and URI.
    pub namespaces: Seq<(Option<Seq<char>>, Seq<char>)>,
    /// `parent()`, by position in the document.
    pub parent: Option<nat>,
}

/// The nodes of a parsed roxmltree document, in document order (the
/// document root first).
pub uninterp spec fn xml_nodes(doc: ParsedXml<'_>) -> Seq<ParsedNode>;

/// What `roxmltree::Document::parse` gives for a text: its nodes, or the
/// error's message.
pub uninterp spec fn xml_parse(text: Seq<char>) -> Result<Seq<ParsedNode>, Seq<char>>;

/// The value of the first attribute with the given local name.
pub open spec fn attribute_value(attrs: Seq<(Seq<char>, Seq<char>)>, name: Seq<char>) -> Option<
    Seq<char>,
>
    decreases attrs.len(),
{
    if attrs.len() == 0 {
        None
    } else if attrs[0].0 == name {
        Some(attrs[0].1)
    } else {
        attribute_value(attrs.drop_first(), name)
    }
}

/// `j` is the first element among the children of the document root.
pub open spec fn is_root_element(nodes: Seq<ParsedNode>, j: int) -> bool {
    &&& 0 <= j < nodes.len()
    &&& nodes[j].element
    &&& nodes[j].parent == Some(0nat)
    &&& forall|k: int| 0 <= k < j ==> !(#[trigger] nodes[k].element && nodes[k].parent == Some(0nat))
}

pub open spec fn opt_string_view(o: Option<String>) -> Option<Seq<char>> {
    match o {
        Some(s) => Some(s@),
        None => None,
    }
}

/// `roxmltree::Document::parse` with its default options; an error comes
/// back as its message (`Display`).
///
/// Trusted: the result is the parse named by [`xml_parse`], and a document
/// holds at most `u32::MAX` nodes (roxmltree's default node limit).
#[verifier::external_body]
fn parse_document(text: &str) -> (r: Result<ParsedXml<'_>, String>)
    ensures
        match r {
            Ok(d) => xml_parse(text@) == Ok::<Seq<ParsedNode>, Seq<char>>(xml_nodes(d))
                && xml_nodes(d).len() <= u32::MAX,
            Err(m) => xml_parse(text@) == Err::<Seq<ParsedNode>, Seq<char>>(m@),
        },
{
    match ParsedXml::parse(text) {
        Ok(d) => Ok(d),
        Err(e) => Err(e.to_string()),
    }
}

/// `Document::descendants().count()`: the number of nodes.
///
/// Trusted: it is the length of [`xml_nodes`].
#[verifier::external_body]
fn node_count(d: &ParsedXml<'_>) -> (r: usize)
    ensures
        r == xml_nodes(*d).len(),
{
    d.descendants().count()
}

/// `Node::is_element()` of the node at position `i`.
///
/// Trusted: it is the `element` field of that node in [`xml_nodes`].
#[verifier::external_body]
fn node_is_element(d: &ParsedXml<'_>, i: usize) -> (r: bool)
    requires
        i < xml_nodes(*d).len() <= u32::MAX,
    ensures
        r == xml_nodes(*d)[i as int].element,
{
    d.get_node(roxmltree::NodeId::new(i as u32)).unwrap().is_element()
}

/// `Node::tag_name().name()` of the node at position `i`.
///
/// Trusted: it is the `name` field of that node in [`xml_nodes`].
#[verifier::external_body]
fn node_local_name(d: &ParsedXml<'_>, i: usize) -> (r: String)
    requires
        i < xml_nodes(*d).len() <= u32::MAX,
    ensures
        r@ == xml_nodes(*d)[i as int].name,
{
    d.get_node(roxmltree::NodeId::new(i as u32)).unwrap().tag_name().name().to_string()
}

/// `Node::text()` of the node at position `i`.
///
/// Trusted: it is the `text` field of that node in [`xml_nodes`].
#[verifier::external_body]
fn node_text(d: &ParsedXml<'_>, i: usize) -> (r: Option<String>)
    requires
        i < xml_nodes(*d).len() <= u32::MAX,
    ensures
        opt_string_view(r) == xml_nodes(*d)[i as int].text,
{
    d.get_node(roxmltree::NodeId::new(i as u32)).unwrap().text().map(|t| t.to_string())
}

/// `Node::attribute(name)` of the node at position `i`, for a name without
/// a namespace.
///
/// Trusted: roxmltree returns the value of the first attribute whose local
/// name is `name`, whatever its namespace.
#[verifier::external_body]
fn node_attribute(d: &ParsedXml<'_>, i: usize, name: &str) -> (r: Option<String>)
    requires
        i < xml_nodes(*d).len() <= u32::MAX,
    ensures
        opt_string_view(r) == attribute_value(xml_nodes(*d)[i as int].attributes, name@),
{
    d.get_node(roxmltree::NodeId::new(i as u32)).unwrap().attribute(name).map(|v| v.to_string())
}

/// `Node::parent()` of the node at position `i`, by position.
///
/// Trusted: it is the `parent` field of that node in [`xml_nodes`].
#[verifier::external_body]
fn node_parent(d: &ParsedXml<'_>, i: usize) -> (r: Option<usize>)
    requires
        i < xml_nodes(*d).len() <= u32::MAX,
    ensures
        match r {
            Some(p) => xml_nodes(*d)[i as int].parent == Some(p as nat),
            None => xml_nodes(*d)[i as int].parent is None,
        },
{
    d.get_node(roxmltree::NodeId::new(i as u32)).unwrap().parent().map(|p| p.id().get_usize())
}

/// `Node::namespaces()` of the node at position `i`.
///
/// Trusted: it is the `namespaces` field of that node in [`xml_nodes`].
#[verifier::external_body]
fn node_namespaces(d: &ParsedXml<'_>, i: usize) -> (r: Vec<(Option<String>, String)>)
    requires
        i < xml_nodes(*d).len() <= u32::MAX,
    ensures
        r@.len() == xml_nodes(*d)[i as int].namespaces.len(),
        forall|k: int|
            0 <= k < r@.len() ==> (opt_string_view(#[trigger] r@[k].0), r@[k].1@)
                == xml_nodes(*d)[i as int].namespaces[k],
{
    let n = d.get_node(roxmltree::NodeId::new(i as u32)).unwrap();
    n.namespaces().map(|ns| (ns.name().map(|p| p.to_string()), ns.uri().to_string())).collect()
}

/// `Document::root_element()`, by position.
///
/// Trusted: roxmltree's root element is the first element child of the
/// document root, and every parsed document has one.
#[verifier::external_body]
fn root_element(d: &ParsedXml<'_>) -> (r: usize)
    ensures
        is_root_element(xml_nodes(*d), r as int),
{
    d.root_element().id().get_usize()
}

// ---------------------------------------------------------------------------
// The library's own tree
// ---------------------------------------------------------------------------

/// One node of a document, holding what the validator reads of it.
#[derive(Clone, Debug)]
pub struct XmlNode {
    /// Whether the node is an element.
    pub element: bool,
    /// Local name (namespace prefixes are ignored); empty for other nodes.
    pub name: String,
    /// The element's first child text, untrimmed.
    pub text: Option<String>,
    /// The value of the `schemeID` attribute.
    pub scheme_id: Option<String>,
    /// The parent's position in the document.
    pub parent: Option<usize>,
}

pub struct XmlNodeView {
    pub element: bool,
    pub name: Seq<char>,
    pub text: Option<Seq<char>>,
    pub scheme_id: Option<Seq<char>>,
    pub parent: Option<nat>,
}

impl View for XmlNode {
    type V = XmlNodeView;

    open spec fn view(&self) -> XmlNodeView {
        XmlNodeView {
            element: self.element,
            name: self.name@,
            text: opt_string_view(self.text),
            scheme_id: opt_string_view(self.scheme_id),
            parent: match self.parent {
                Some(p) => Some(p as nat),
                None => None,
            },
        }
    }
}

/// A parsed document: its nodes in document order, the position of the root
/// element, and the namespaces declared in scope on the root element.
#[derive(Clone, Debug)]
pub struct XmlDocument {
    pub nodes: Vec<XmlNode>,
    pub root: usize,
    pub root_namespaces: Vec<(Option<String>, String)>,
}

pub struct XmlDocumentView {
    pub nodes: Seq<XmlNodeView>,
    pub root: nat,
    pub namespaces: Seq<(Option<Seq<char>>, Seq<char>)>,
}

impl XmlDocumentView {
    /// The root element is one of the nodes.
    pub open spec fn wf(self) -> bool {
        self.root < self.nodes.len()
    }
}

pub open spec fn namespace_view(ns: (Option<String>, String)) -> (Option<Seq<char>>, Seq<char>) {
    (opt_string_view(ns.0), ns.1@)
}

impl View for XmlDocument {
    type V = XmlDocumentView;

    open spec fn view(&self) -> XmlDocumentView {
        XmlDocumentView {
            nodes: self.nodes@.map_values(|n: XmlNode| n@),
            root: self.root as nat,
            namespaces: self.root_namespaces@.map_values(
                |ns: (Option<String>, String)| namespace_view(ns),
            ),
        }
    }
}

pub open spec fn scheme_id_name() -> Seq<char> {
    seq!['s', 'c', 'h', 'e', 'm', 'e', 'I', 'D']
}

/// What the library keeps of a parsed node.
pub open spec fn node_model(p: ParsedNode) -> XmlNodeView {
    XmlNodeView {
        element: p.element,
        name: p.name,
        text: p.text,
        scheme_id: attribute_value(p.attributes, scheme_id_name()),
        parent: p.parent,
    }
}

/// The position of the root element.
pub open spec fn root_position(nodes: Seq<ParsedNode>) -> int {
    choose|j: int| is_root_element(nodes, j)
}

/// What the library keeps of a parsed document.
pub open spec fn document_model(nodes: Seq<ParsedNode>) -> XmlDocumentView {
    let root = root_position(nodes);
    XmlDocumentView {
        nodes: nodes.map_values(|p: ParsedNode| node_model(p)),
        root: root as nat,
        namespaces: nodes[root].namespaces,
    }
}

proof fn lemma_root_element_unique(nodes: Seq<ParsedNode>, j: int)
    requires
        is_root_element(nodes, j),
    ensures
        root_position(nodes) == j,
{
    let c = root_position(nodes);
    assert(is_root_element(nodes, c));
    if c < j {
        assert(!(nodes[c].element && nodes[c].parent == Some(0nat)));
    } else if j < c {
        assert(!(nodes[j].element && nodes[j].parent == Some(0nat)));
    }
}

/// Parses an XML text into the library's tree.
///
/// The text is parsed by roxmltree; where it is not well-formed, its error
/// message comes back.
pub fn read_xml(text: &str) -> (r: Result<XmlDocument, String>)
    ensures
        match xml_parse(text@) {
            Ok(nodes) => r matches Ok(x) && x@ == document_model(nodes) && x@.wf(),
            Err(m) => r matches Err(e) && e@ == m,
        },
{
    let d = match parse_document(text) {
        Ok(d) => d,
        Err(m) => {
            return Err(m);
        },
    };
    let ghost ns = xml_nodes(d);
    let count = node_count(&d);
    let scheme = "schemeID";
    proof {
        reveal_strlit("schemeID");
        assert(scheme@ =~= scheme_id_name());
    }
    let mut nodes: Vec<XmlNode> = Vec::new();
    let mut i: usize = 0;
    while i < count
        invariant
            count == ns.len() <= u32::MAX,
            ns == xml_nodes(d),
            scheme@ == scheme_id_name(),
            i <= count,
            nodes@.len() == i,
            forall|k: int| 0 <= k < i ==> (#[trigger] nodes@[k])@ == node_model(ns[k]),
        decreases count - i,
    {
        let element = node_is_element(&d, i);
        let name = node_local_name(&d, i);
        let text = node_text(&d, i);
        let scheme_id = node_attribute(&d, i, scheme);
        let parent = node_parent(&d, i);
        let node = XmlNode { element, name, text, scheme_id, parent };
        proof {
            assert(node@.parent == ns[i as int].parent);
        }
        nodes.push(node);
        i = i + 1;
    }
    let root = root_element(&d);
    let root_namespaces = node_namespaces(&d, root);
    let x = XmlDocument { nodes, root, root_namespaces };
    proof {
        lemma_root_element_unique(ns, root as int);
        let m = document_model(ns);
        assert(x@.nodes =~= m.nodes);
        assert(x@.namespaces =~= m.namespaces);
    }
    Ok(x)
}

} // verus!
