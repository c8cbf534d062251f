//! XML documents as the library reads them: the nodes of a parsed document in
//! document order, each with its tag name, attributes, text and depth.
use vstd::prelude::*;
use crate::text::{chars_of, eq_str, lemma_chars_deep_view};

verus! {

broadcast use lemma_chars_deep_view;

/// One node of a parsed XML document.
pub struct XmlNode {
    /// The node is an element.
    pub is_element: bool,
    /// The node is a text node.
    pub is_text: bool,
    /// The local tag name of an element; empty for other nodes.
    pub name: String,
    /// The element's attributes as (local name, value), in document order.
    pub attributes: Vec<(String, String)>,
    /// For an element its first child's text if that child is text; for a
    /// text or comment node its own text.
    pub text: Option<String>,
    /// The number of nodes from this one up to the document root, both counted.
    pub depth: usize,
}

/// The abstract value of an `XmlNode`.
pub struct XmlNodeView {
    pub is_element: bool,
    pub is_text: bool,
    pub name: Seq<char>,
    pub attributes: Seq<(Seq<char>, Seq<char>)>,
    pub text: Option<Seq<char>>,
    pub depth: int,
}

impl View for XmlNode {
    type V = XmlNodeView;

    open spec fn view(&self) -> XmlNodeView {
        XmlNodeView {
            is_element: self.is_element,
            is_text: self.is_text,
            name: self.name@,
            attributes: self.attributes.deep_view(),
            text: self.text.deep_view(),
            depth: self.depth as int,
        }
    }
}

pub open spec fn nodes_view(v: Seq<XmlNode>) -> Seq<XmlNodeView> {
    v.map_values(|n: XmlNode| n@)
}

/// The name of the nodes, in document order, that `roxmltree` parses out of
/// `text` (`None` where it rejects the text).
pub uninterp spec fn xml_document(text: Seq<char>) -> Option<Seq<XmlNodeView>>;

/// Parses `text` with `roxmltree::Document::parse` (default options) and
/// lists `descendants()` of the document, each node copied field by field; a
/// parse error comes back as its display text. The contract claims only that
/// the result is the one named `xml_document`.
#[verifier::external_body]
pub(crate) fn parse_xml(text: &str) -> (r: Result<Vec<XmlNode>, String>)
    ensures
        r matches Ok(v) ==> xml_document(text@) == Some(nodes_view(v@)),
        r is Err ==> xml_document(text@) is None,
{
    let doc = roxmltree::Document::parse(text).map_err(|err| err.to_string())?;
    Ok(doc.descendants().map(|n| XmlNode {
        is_element: n.is_element(),
        is_text: n.is_text(),
        name: n.tag_name().name().to_string(),
        attributes: n.attributes().map(|a| (a.name().to_string(), a.value().to_string())).collect(),
        text: n.text().map(|t| t.to_string()),
        depth: n.ancestors().count(),
    }).collect())
}

/// The value of the first attribute, in document order, whose local name is
/// `name`, whatever namespace it is in: `Node::attribute` called with a plain
/// name compares local names only.
pub open spec fn attribute_spec(attrs: Seq<(Seq<char>, Seq<char>)>, name: Seq<char>) -> Option<Seq<char>>
    decreases attrs.len(),
{
    if attrs.len() == 0 {
        None
    } else if attrs[0].0 == name {
        Some(attrs[0].1)
    } else {
        attribute_spec(attrs.drop_first(), name)
    }
}

/// The value of the node's attribute named `name`.
pub fn attribute(node: &XmlNode, name: &str) -> (r: Option<Vec<char>>)
    ensures
        r.deep_view() == attribute_spec(node@.attributes, name@),
{
    let attrs = &node.attributes;
    let mut i: usize = 0;
    assert(node@.attributes.skip(0) =~= node@.attributes);
    while i < attrs.len()
        invariant
            i <= attrs.len(),
            attrs == node.attributes,
            attribute_spec(node@.attributes, name@) == attribute_spec(
                node@.attributes.skip(i as int),
                name@,
            ),
        decreases attrs.len() - i,
    {
        proof {
            assert(node@.attributes.skip(i as int).drop_first() =~= node@.attributes.skip(i + 1));
            assert(node@.attributes.skip(i as int)[0] == attrs@[i as int].deep_view());
        }
        let key = chars_of(attrs[i].0.as_str());
        if eq_str(&key, name) {
            return Some(chars_of(attrs[i].1.as_str()));
        }
        i = i + 1;
    }
    None
}

/// The first node at an index in `[from, to)` whose tag name is `name`
/// (and that is an element, where `element_only` holds).
pub open spec fn first_named(
    nodes: Seq<XmlNodeView>,
    name: Seq<char>,
    element_only: bool,
    from: int,
    to: int,
) -> Option<int>
    decreases to - from,
{
    if from < 0 || from >= to || from >= nodes.len() {
        None
    } else if nodes[from].name == name && (!element_only || nodes[from].is_element) {
        Some(from)
    } else {
        first_named(nodes, name, element_only, from + 1, to)
    }
}

pub proof fn lemma_first_named_bounds(
    nodes: Seq<XmlNodeView>,
    name: Seq<char>,
    element_only: bool,
    from: int,
    to: int,
)
    ensures
        first_named(nodes, name, element_only, from, to) matches Some(i) ==> from <= i < to && i
            < nodes.len() && nodes[i].name == name && (!element_only || nodes[i].is_element),
    decreases to - from,
{
    if !(from < 0 || from >= to || from >= nodes.len()) && !(nodes[from].name == name && (
    !element_only || nodes[from].is_element)) {
        lemma_first_named_bounds(nodes, name, element_only, from + 1, to);
    }
}

/// The first node in `nodes[from..to]` named `name`.
pub fn find_named(nodes: &Vec<XmlNode>, name: &str, element_only: bool, from: usize, to: usize) -> (r:
    Option<usize>)
    ensures
        r matches Some(i) ==> first_named(nodes_view(nodes@), name@, element_only, from as int, to as int)
            == Some(i as int),
        r is None ==> first_named(nodes_view(nodes@), name@, element_only, from as int, to as int)
            is None,
        r matches Some(i) ==> from <= i < to && i < nodes.len(),
{
    let ghost nv = nodes_view(nodes@);
    let mut i = from;
    while i < to && i < nodes.len()
        invariant
            from <= i,
            nv == nodes_view(nodes@),
            first_named(nv, name@, element_only, from as int, to as int) == first_named(
                nv,
                name@,
                element_only,
                i as int,
                to as int,
            ),
        decreases to - i,
    {
        let n = &nodes[i];
        let nm = chars_of(n.name.as_str());
        if eq_str(&nm, name) && (!element_only || n.is_element) {
            return Some(i);
        }
        i = i + 1;
    }
    None
}

/// One past the last descendant of node `i`: the first later node that is not
/// deeper than it, or the end of the document.
pub open spec fn subtree_end(nodes: Seq<XmlNodeView>, i: int, j: int) -> int
    decreases nodes.len() - j,
{
    if j >= nodes.len() || j < 0 || nodes[j].depth <= nodes[i].depth {
        if j < 0 { 0 } else { j }
    } else {
        subtree_end(nodes, i, j + 1)
    }
}

/// Node `i` and its descendants are the nodes `[i, subtree_end(nodes, i, i + 1))`.
pub fn descendants_end(nodes: &Vec<XmlNode>, i: usize) -> (r: usize)
    requires
        i < nodes.len(),
    ensures
        r as int == subtree_end(nodes_view(nodes@), i as int, i + 1),
        i < r <= nodes.len(),
{
    let ghost nv = nodes_view(nodes@);
    let mut j = i + 1;
    while j < nodes.len() && nodes[j].depth > nodes[i].depth
        invariant
            i < j <= nodes.len(),
            nv == nodes_view(nodes@),
            subtree_end(nv, i as int, i + 1) == subtree_end(nv, i as int, j as int),
        decreases nodes.len() - j,
    {
        j = j + 1;
    }
    j
}

} // verus!
