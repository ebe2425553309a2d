//! The XML document as the extraction reads it: its nodes in document
//! order, each with its tag, attributes, text and the size of its subtree.

use vstd::prelude::*;
use crate::error::LoadError;
use crate::text::text_of;

verus! {

/// One attribute of an element.
#[derive(Debug, Clone, PartialEq, Eq)]
pub struct XmlAttribute {
    /// The URI of the namespace that the attribute's prefix stands for, if
    /// it has a prefix.
    pub namespace: Option<String>,
    /// The name without its prefix.
    pub name: String,
    pub value: String,
}

/// One node of a document: the root, an element, a text, a comment or a
/// processing instruction.
#[derive(Debug, Clone, PartialEq, Eq)]
pub struct XmlNode {
    /// An element's name without its prefix; empty for every other node.
    pub tag: String,
    /// An element's attributes, in the order in which they are written.
    pub attributes: Vec<XmlAttribute>,
    /// An element's text, if it begins with text; the text of a text node
    /// or of a comment.
    pub text: Option<String>,
    /// The number of nodes in the subtree rooted here, this node included.
    pub span: usize,
}

pub struct XmlAttributeView {
    pub namespace: Option<Seq<char>>,
    pub name: Seq<char>,
    pub value: Seq<char>,
}

pub struct XmlNodeView {
    pub tag: Seq<char>,
    pub attributes: Seq<XmlAttributeView>,
    pub text: Option<Seq<char>>,
    pub span: nat,
}

impl View for XmlAttribute {
    type V = XmlAttributeView;

    open spec fn view(&self) -> XmlAttributeView {
        XmlAttributeView {
            namespace: match self.namespace {
                Some(uri) => Some(uri@),
                None => None,
            },
            name: self.name@,
            value: self.value@,
        }
    }
}

impl View for XmlNode {
    type V = XmlNodeView;

    open spec fn view(&self) -> XmlNodeView {
        XmlNodeView {
            tag: self.tag@,
            attributes: self.attributes@.map_values(|a: XmlAttribute| a@),
            text: match self.text {
                Some(t) => Some(t@),
                None => None,
            },
            span: self.span as nat,
        }
    }
}

/// The views of a list of nodes.
pub open spec fn nodes_view(nodes: Seq<XmlNode>) -> Seq<XmlNodeView> {
    nodes.map_values(|n: XmlNode| n@)
}

/// Every subtree holds its root and lies within the document.
pub open spec fn spans_fit(nodes: Seq<XmlNodeView>) -> bool {
    forall|i: int|
        0 <= i < nodes.len() ==> 1 <= (#[trigger] nodes[i]).span && i + nodes[i].span
            <= nodes.len()
}

/// One past the last node of the subtree rooted at node `i`.
pub open spec fn subtree_end(nodes: Seq<XmlNodeView>, i: int) -> int {
    i + nodes[i].span
}

/// The value of the first attribute from `from` on that has the name `name`
/// and no namespace.
pub open spec fn attribute_value(attributes: Seq<XmlAttributeView>, name: Seq<char>, from: int)
    -> Option<Seq<char>>
    decreases attributes.len() - from,
{
    if 0 <= from < attributes.len() {
        if attributes[from].namespace is None && attributes[from].name == name {
            Some(attributes[from].value)
        } else {
            attribute_value(attributes, name, from + 1)
        }
    } else {
        None
    }
}

/// The first node of `lo..hi` with the tag `tag`.
pub open spec fn first_tagged(nodes: Seq<XmlNodeView>, tag: Seq<char>, lo: int, hi: int) -> Option<
    int,
>
    decreases hi - lo,
{
    if lo < hi {
        if nodes[lo].tag == tag {
            Some(lo)
        } else {
            first_tagged(nodes, tag, lo + 1, hi)
        }
    } else {
        None
    }
}

/// Some node of `lo..hi` has the tag `tag`.
pub open spec fn has_tagged(nodes: Seq<XmlNodeView>, tag: Seq<char>, lo: int, hi: int) -> bool {
    exists|j: int| lo <= j < hi && (#[trigger] nodes[j]).tag == tag
}

/// What `first_tagged` finds: a node with the tag, before which, from `lo`
/// on, none has it; or nothing, where none has it.
pub proof fn lemma_first_tagged(nodes: Seq<XmlNodeView>, tag: Seq<char>, lo: int, hi: int)
    ensures
        match first_tagged(nodes, tag, lo, hi) {
            Some(j) => {
                &&& lo <= j < hi
                &&& nodes[j].tag == tag
                &&& forall|k: int| lo <= k < j ==> (#[trigger] nodes[k]).tag != tag
            },
            None => !has_tagged(nodes, tag, lo, hi),
        },
        first_tagged(nodes, tag, lo, hi) is Some <==> has_tagged(nodes, tag, lo, hi),
    decreases hi - lo,
{
    if lo < hi && nodes[lo].tag != tag {
        lemma_first_tagged(nodes, tag, lo + 1, hi);
    }
}

/// The nodes that roxmltree makes of a text, in document order, or `None`
/// where it rejects the text.
pub uninterp spec fn xml_nodes(text: Seq<char>) -> Option<Seq<XmlNodeView>>;

/// `roxmltree::Error`, of which nothing is read but its text.
#[verifier::external_type_specification]
#[verifier::external_body]
pub struct ExXmlError(roxmltree::Error);

/// Calls `roxmltree::Document::parse` and copies out of each node of
/// `Document::descendants` what `Node::tag_name`, `Node::attributes`,
/// `Node::text` and `Node::descendants` give for it.
///
/// Trusted: the nodes are a function of the text alone; and of each node
/// `Node::descendants` yields the node itself first and then only nodes of
/// the document that follow it, so that their number is at least one and
/// reaches no further than the document's end.
#[verifier::external_body]
fn parse_nodes(text: &str) -> (r: Result<Vec<XmlNode>, roxmltree::Error>)
    ensures
        match r {
            Ok(nodes) => xml_nodes(text@) == Some(nodes_view(nodes@)) && spans_fit(
                nodes_view(nodes@),
            ),
            Err(_) => xml_nodes(text@) is None,
        },
{
    let doc = roxmltree::Document::parse(text)?;
    let attribute = |a: roxmltree::Attribute| XmlAttribute {
        namespace: a.namespace().map(str::to_string),
        name: a.name().to_string(),
        value: a.value().to_string(),
    };
    Ok(doc.descendants().map(|n| XmlNode {
        tag: n.tag_name().name().to_string(),
        attributes: n.attributes().map(attribute).collect(),
        text: n.text().map(str::to_string),
        span: n.descendants().len(),
    }).collect())
}

/// Calls `to_string` on a `roxmltree::Error`, which goes through its
/// `Display`. Nothing is claimed of the text.
#[verifier::external_body]
fn error_text(e: &roxmltree::Error) -> (text: String) {
    e.to_string()
}

impl XmlNode {
    /// The value of the attribute that has the name `name` and no
    /// namespace.
    pub fn attribute(&self, name: &str) -> (value: Option<String>)
        ensures
            text_of(value) == attribute_value(self@.attributes, name@, 0),
    {
        let key = name.to_owned();
        let mut i: usize = 0;
        while i < self.attributes.len()
            invariant
                i <= self.attributes.len(),
                key@ == name@,
                attribute_value(self@.attributes, name@, 0) == attribute_value(
                    self@.attributes,
                    name@,
                    i as int,
                ),
            decreases self.attributes.len() - i,
        {
            assert(self@.attributes[i as int] == self.attributes@[i as int]@);
            if self.attributes[i].namespace.is_none() && self.attributes[i].name == key {
                return Some(self.attributes[i].value.clone());
            }
            i += 1;
        }
        None
    }
}

/// A parsed document.
#[derive(Debug)]
pub struct XmlDocument {
    nodes: Vec<XmlNode>,
}

impl View for XmlDocument {
    type V = Seq<XmlNodeView>;

    closed spec fn view(&self) -> Seq<XmlNodeView> {
        nodes_view(self.nodes@)
    }
}

impl XmlDocument {
    #[verifier::type_invariant]
    pub open spec fn well_formed(self) -> bool {
        spans_fit(self@)
    }

    /// A document of the given nodes, if every subtree holds its root and
    /// lies within the document.
    pub fn new(nodes: Vec<XmlNode>) -> (r: Option<XmlDocument>)
        ensures
            r is Some <==> spans_fit(nodes_view(nodes@)),
            r matches Some(doc) ==> doc@ == nodes_view(nodes@),
    {
        let n = nodes.len();
        let mut i: usize = 0;
        while i < n
            invariant
                n == nodes.len(),
                i <= n,
                forall|k: int|
                    0 <= k < i ==> 1 <= (#[trigger] nodes_view(nodes@)[k]).span && k + nodes_view(
                        nodes@,
                    )[k].span <= n,
            decreases n - i,
        {
            if nodes[i].span == 0 || nodes[i].span > n - i {
                assert(nodes_view(nodes@)[i as int].span == nodes[i as int].span);
                return None;
            }
            i += 1;
        }
        Some(XmlDocument { nodes })
    }

    /// Parses a text. Fails exactly where the parser rejects the text.
    pub fn parse(text: &str) -> (r: Result<XmlDocument, LoadError>)
        ensures
            match r {
                Ok(doc) => xml_nodes(text@) == Some(doc@),
                Err(e) => xml_nodes(text@) is None && e is Parse,
            },
    {
        match parse_nodes(text) {
            Ok(nodes) => Ok(XmlDocument { nodes }),
            Err(e) => Err(LoadError::Parse(error_text(&e))),
        }
    }

    /// The number of nodes.
    pub fn len(&self) -> (n: usize)
        ensures
            n == self@.len(),
    {
        self.nodes.len()
    }

    /// The node at position `i` in document order.
    pub fn node(&self, i: usize) -> (node: &XmlNode)
        requires
            i < self@.len(),
        ensures
            node@ == self@[i as int],
    {
        &self.nodes[i]
    }

    /// The first node of `lo..hi` with the tag `tag`.
    pub fn find_tagged(&self, tag: &String, lo: usize, hi: usize) -> (found: Option<usize>)
        requires
            lo <= hi <= self@.len(),
        ensures
            match found {
                Some(j) => lo <= j < hi && first_tagged(self@, tag@, lo as int, hi as int) == Some(
                    j as int,
                ),
                None => first_tagged(self@, tag@, lo as int, hi as int) is None,
            },
    {
        let mut j = lo;
        while j < hi
            invariant
                lo <= j <= hi <= self@.len(),
                first_tagged(self@, tag@, lo as int, hi as int) == first_tagged(
                    self@,
                    tag@,
                    j as int,
                    hi as int,
                ),
            decreases hi - j,
        {
            assert(self@[j as int] == self.nodes@[j as int]@);
            if self.nodes[j].tag == *tag {
                return Some(j);
            }
            j += 1;
        }
        None
    }

    /// One past the last node of the subtree rooted at node `i`.
    pub fn subtree_end(&self, i: usize) -> (end: usize)
        requires
            i < self@.len(),
        ensures
            end == subtree_end(self@, i as int),
            end <= self@.len(),
    {
        let n = self.nodes.len();
        proof {
            use_type_invariant(self);
            assert(i + self@[i as int].span <= n);
        }
        i + self.nodes[i].span
    }
}

} // verus!
