//! The markup collaborator: `roxmltree` parses the text and keeps the
//! document; this module says what the library reads of it.
//!
//! Nothing here is proved. A document is taken to be a function of its text,
//! and each call below to return what it returned before on the same node.

use vstd::prelude::*;

verus! {

/// One node of a document: an element, a text, a comment, the root.
pub struct MarkupNode {
    /// Whether the node is an element.
    pub element: bool,
    /// The local name of an element's tag; empty for any other node.
    pub name: Seq<char>,
    /// The attributes of an element, by local name. Where several have one
    /// local name, the first of them stands, whatever its namespace.
    pub attributes: Map<Seq<char>, Seq<char>>,
    /// The children, first to last, each by its place in the document.
    pub children: Seq<usize>,
}

/// `roxmltree::Document`: a parsed document.
#[verifier::external_type_specification]
#[verifier::external_body]
pub struct ExDocument<'input>(roxmltree::Document<'input>);

/// `roxmltree::Error`: why a text is no well-formed document.
#[verifier::external_type_specification]
#[verifier::external_body]
pub struct ExMarkupError(roxmltree::Error);

/// The nodes of a document in document order: the root first, each element
/// before its children.
pub uninterp spec fn document_nodes(doc: roxmltree::Document) -> Seq<MarkupNode>;

/// The nodes of the document that `text` is, or `None` where `text` is not
/// well-formed.
pub uninterp spec fn parsed_markup(text: Seq<char>) -> Option<Seq<MarkupNode>>;

/// `core::str::from_utf8`: the text that `bytes` encode, if they are UTF-8.
#[verifier::external_body]
pub(crate) fn utf8_text(bytes: &[u8]) -> (r: Option<&str>)
    ensures
        match r {
            Some(text) => vstd::utf8::valid_utf8(bytes@) && text@ == vstd::utf8::decode_utf8(bytes@),
            None => !vstd::utf8::valid_utf8(bytes@),
        },
{
    core::str::from_utf8(bytes).ok()
}

/// `roxmltree::Document::parse`: the document that `text` is. Its nodes are
/// those that `parsed_markup` names for the text; an error means that it names
/// none.
#[verifier::external_body]
pub(crate) fn parse_document<'a>(text: &'a str) -> (r: Result<
    roxmltree::Document<'a>,
    roxmltree::Error,
>)
    ensures
        match r {
            Ok(doc) => parsed_markup(text@) == Some(document_nodes(doc)),
            Err(_) => parsed_markup(text@) is None,
        },
{
    roxmltree::Document::parse(text)
}

/// `Document::descendants`, which runs through every node of the document:
/// how many there are.
#[verifier::external_body]
pub(crate) fn node_count(doc: &roxmltree::Document) -> (r: usize)
    ensures
        r == document_nodes(*doc).len(),
{
    doc.descendants().len()
}

/// `Node::is_element` of the node at place `at`.
#[verifier::external_body]
pub(crate) fn node_is_element(doc: &roxmltree::Document, at: usize) -> (r: bool)
    requires
        at < document_nodes(*doc).len(),
    ensures
        r == document_nodes(*doc)[at as int].element,
{
    doc.get_node(roxmltree::NodeId::from(at)).unwrap().is_element()
}

/// `Node::tag_name` of the node at place `at`: its local name.
#[verifier::external_body]
pub(crate) fn node_name<'a>(doc: &'a roxmltree::Document, at: usize) -> (r: &'a str)
    requires
        at < document_nodes(*doc).len(),
    ensures
        r@ == document_nodes(*doc)[at as int].name,
{
    doc.get_node(roxmltree::NodeId::from(at)).unwrap().tag_name().name()
}

/// `Node::attribute` of the node at place `at`: the value of the first
/// attribute with the local name `name`, whatever its namespace, if the node
/// has one.
#[verifier::external_body]
pub(crate) fn node_attribute<'a>(doc: &'a roxmltree::Document, at: usize, name: &str) -> (r:
    Option<&'a str>)
    requires
        at < document_nodes(*doc).len(),
    ensures
        match r {
            Some(value) => document_nodes(*doc)[at as int].attributes.contains_key(name@)
                && document_nodes(*doc)[at as int].attributes[name@] == value@,
            None => !document_nodes(*doc)[at as int].attributes.contains_key(name@),
        },
{
    doc.get_node(roxmltree::NodeId::from(at)).unwrap().attribute(name)
}

/// `Node::children` of the node at place `at`: the place of each child, first
/// to last. Every child is a node of the same document.
#[verifier::external_body]
pub(crate) fn node_children(doc: &roxmltree::Document, at: usize) -> (r: Vec<usize>)
    requires
        at < document_nodes(*doc).len(),
    ensures
        r@ == document_nodes(*doc)[at as int].children,
        forall|i: int| 0 <= i < r@.len() ==> r@[i] < document_nodes(*doc).len(),
{
    doc.get_node(roxmltree::NodeId::from(at)).unwrap().children().map(|c| c.id().get_usize()).collect()
}

} // verus!
