//! A parsed catalog document. The XML itself is read by `roxmltree`; what this
//! library learns of it comes through the few calls below, each a function of
//! the document's text and a node's position in it.
use vstd::prelude::*;

verus! {

#[verifier::external_type_specification]
#[verifier::external_body]
pub struct ExXmlDocument<'input>(roxmltree::Document<'input>);

#[verifier::external_type_specification]
#[verifier::external_body]
pub struct ExXmlError(roxmltree::Error);

/// Whether `roxmltree` accepts the text as an XML document.
pub uninterp spec fn xml_well_formed(text: Seq<char>) -> bool;

/// Ids of all nodes of the document, in document order.
pub uninterp spec fn xml_nodes(text: Seq<char>) -> Seq<usize>;

/// Ids of the children of a node, in document order.
pub uninterp spec fn xml_children(text: Seq<char>, node: usize) -> Seq<usize>;

/// Whether a node is an element with the given local name.
pub uninterp spec fn xml_has_tag(text: Seq<char>, node: usize, tag: Seq<char>) -> bool;

/// The value of a node's attribute, if it has one by that name.
pub uninterp spec fn xml_attribute(text: Seq<char>, node: usize, name: Seq<char>) -> Option<
    Seq<char>,
>;

/// The text of a node: for an element, that of its first child when it is a text node.
pub uninterp spec fn xml_text(text: Seq<char>, node: usize) -> Option<Seq<char>>;

/// Relies on `roxmltree::Document::parse`: it succeeds or fails depending on the text alone.
#[verifier::external_body]
fn parse_document<'a>(text: &'a str) -> (r: Result<roxmltree::Document<'a>, roxmltree::Error>)
    ensures
        r is Ok <==> xml_well_formed(text@),
{
    roxmltree::Document::parse(text)
}

/// A package catalog: an XML document together with the text it was parsed from.
pub struct Catalog<'a> {
    text: &'a str,
    doc: roxmltree::Document<'a>,
}

/// Why a catalog could not be read.
#[derive(Clone, Copy, Debug, PartialEq, Eq, Structural)]
pub enum CatalogError {
    /// The document is not well-formed XML.
    MalformedXml,
    /// A `host-os` element has no text.
    MissingHostOs,
    /// A download `url` element has no text.
    MissingUrl,
    /// A `dependency` element has no `path` attribute.
    MissingDependencyPath,
}

impl<'a> View for Catalog<'a> {
    type V = Seq<char>;

    /// The text the catalog was parsed from.
    closed spec fn view(&self) -> Seq<char> {
        self.text@
    }
}

impl<'a> Catalog<'a> {
    /// Parses the catalog document.
    pub fn parse(text: &'a str) -> (r: Result<Catalog<'a>, CatalogError>)
        ensures
            match r {
                Ok(c) => xml_well_formed(text@) && c@ == text@,
                Err(e) => !xml_well_formed(text@) && e == CatalogError::MalformedXml,
            },
    {
        match parse_document(text) {
            Ok(doc) => Ok(Catalog { text, doc }),
            Err(_) => Err(CatalogError::MalformedXml),
        }
    }

    /// Relies on `roxmltree::Document::descendants`: every node, in document order;
    /// so the children of each node are among them.
    #[verifier::external_body]
    pub(crate) fn nodes(&self) -> (r: Vec<usize>)
        ensures
            r@ == xml_nodes(self@),
            forall|n: usize, c: usize|
                r@.contains(n) && #[trigger] xml_children(self@, n).contains(c) ==> r@.contains(c),
    {
        self.doc.descendants().map(|n| n.id().get_usize()).collect()
    }

    /// Relies on `roxmltree::Node::children`: the children of a node, which are nodes
    /// of the same document.
    #[verifier::external_body]
    pub(crate) fn children(&self, node: usize) -> (r: Vec<usize>)
        requires
            xml_nodes(self@).contains(node),
        ensures
            r@ == xml_children(self@, node),
            forall|i: int| 0 <= i < r@.len() ==> xml_nodes(self@).contains(#[trigger] r@[i]),
    {
        let n = self.doc.get_node(roxmltree::NodeId::new(node as u32)).unwrap();
        n.children().map(|c| c.id().get_usize()).collect()
    }

    /// Relies on `roxmltree::Node::has_tag_name`.
    #[verifier::external_body]
    pub(crate) fn has_tag(&self, node: usize, tag: &str) -> (r: bool)
        requires
            xml_nodes(self@).contains(node),
        ensures
            r == xml_has_tag(self@, node, tag@),
    {
        let n = self.doc.get_node(roxmltree::NodeId::new(node as u32)).unwrap();
        n.has_tag_name(tag)
    }

    /// Relies on `roxmltree::Node::attribute`.
    #[verifier::external_body]
    pub(crate) fn attribute(&self, node: usize, name: &str) -> (r: Option<String>)
        requires
            xml_nodes(self@).contains(node),
        ensures
            match r {
                Some(v) => xml_attribute(self@, node, name@) == Some(v@),
                None => xml_attribute(self@, node, name@) is None,
            },
    {
        let n = self.doc.get_node(roxmltree::NodeId::new(node as u32)).unwrap();
        n.attribute(name).map(|v| v.to_string())
    }

    /// Relies on `roxmltree::Node::text`.
    #[verifier::external_body]
    pub(crate) fn text_of(&self, node: usize) -> (r: Option<String>)
        requires
            xml_nodes(self@).contains(node),
        ensures
            match r {
                Some(v) => xml_text(self@, node) == Some(v@),
                None => xml_text(self@, node) is None,
            },
    {
        let n = self.doc.get_node(roxmltree::NodeId::new(node as u32)).unwrap();
        n.text().map(|v| v.to_string())
    }
}

} // verus!
