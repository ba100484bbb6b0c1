//! Snapshot trees: immutable descriptions of what should be shown.

use crate::attributes::{pairs_html, Attributes};
use crate::tree::{lemma_nodes_in_monotonic, nodes_in, Tree};
use vstd::prelude::*;
use vstd::string::StringExecFns;

verus! {

/// A node of a snapshot. A text node has neither attributes nor children.
#[derive(Debug, PartialEq)]
pub enum VirtualNode {
    Element(VElement),
    Text(VText),
}

/// An element of a snapshot: a tag, its attributes and its children in the
/// order in which they are shown.
#[derive(Debug, PartialEq)]
pub struct VElement {
    pub tag: String,
    pub attrs: Attributes,
    pub children: Vec<VirtualNode>,
}

/// A run of text in a snapshot.
#[derive(Debug, PartialEq)]
pub struct VText {
    pub text: String,
}

impl View for VirtualNode {
    type V = Tree;

    open spec fn view(&self) -> Tree
        decreases self,
    {
        match self {
            VirtualNode::Element(element) => Tree::Element {
                tag: element.tag@,
                attributes: element.attrs@,
                children: Seq::new(
                    element.children.len() as nat,
                    |i: int|
                        if 0 <= i < element.children.len() {
                            element.children[i]@
                        } else {
                            Tree::Text { content: Seq::empty() }
                        },
                ),
            },
            VirtualNode::Text(text) => Tree::Text { content: text.text@ },
        }
    }
}

impl View for VElement {
    type V = Tree;

    open spec fn view(&self) -> Tree {
        Tree::Element {
            tag: self.tag@,
            attributes: self.attrs@,
            children: trees_of(self.children@),
        }
    }
}

impl View for VText {
    type V = Seq<char>;

    open spec fn view(&self) -> Seq<char> {
        self.text@
    }
}

/// The trees that a list of snapshot nodes stands for.
pub open spec fn trees_of(nodes: Seq<VirtualNode>) -> Seq<Tree> {
    Seq::new(nodes.len(), |i: int| nodes[i]@)
}

/// The trees that a list of borrowed snapshot nodes stands for.
pub open spec fn trees_of_refs(nodes: Seq<&VirtualNode>) -> Seq<Tree> {
    Seq::new(nodes.len(), |i: int| nodes[i]@)
}

impl VirtualNode {
    /// An element `tag` without attributes or children.
    pub fn new(tag: &str) -> (node: VirtualNode)
        ensures
            node@ == (Tree::Element {
                tag: tag@,
                attributes: Map::empty(),
                children: Seq::empty(),
            }),
    {
        let node = VirtualNode::Element(VElement::new(tag));
        proof {
            lemma_view_element(&node);
        }
        node
    }

    /// A text node that reads `text`.
    pub fn text(text: &str) -> (node: VirtualNode)
        ensures
            node@ == (Tree::Text { content: text@ }),
    {
        VirtualNode::Text(VText::new(text))
    }

    /// The number of nodes of the snapshot, this one included, or `None`
    /// where a `usize` cannot hold it.
    pub fn node_count(&self) -> (count: Option<usize>)
        ensures
            match count {
                Some(n) => n == self@.node_count(),
                None => self@.node_count() > usize::MAX,
            },
        decreases self,
    {
        match self {
            VirtualNode::Text(_) => Some(1),
            VirtualNode::Element(element) => {
                let ghost children = self@.children();
                let mut count: usize = 1;
                let mut index: usize = 0;
                while index < element.children.len()
                    invariant
                        self is Element && self->Element_0 == *element,
                        children == self@.children(),
                        children.len() == element.children.len(),
                        forall|i: int|
                            0 <= i < children.len() ==> children[i]
                                == #[trigger] element.children[i]@,
                        index <= element.children.len(),
                        count == 1 + nodes_in(children, index as nat),
                    decreases element.children.len() - index,
                {
                    proof {
                        lemma_nodes_in_monotonic(children, (index + 1) as nat, children.len());
                    }
                    let below = match element.children[index].node_count() {
                        Some(below) => below,
                        None => {
                            return None;
                        },
                    };
                    count = match count.checked_add(below) {
                        Some(sum) => sum,
                        None => {
                            return None;
                        },
                    };
                    index += 1;
                }
                Some(count)
            },
        }
    }
}

impl VElement {
    /// An element `tag` without attributes or children.
    pub fn new(tag: &str) -> (element: VElement)
        ensures
            element@ == (Tree::Element {
                tag: tag@,
                attributes: Map::empty(),
                children: Seq::empty(),
            }),
    {
        let element = VElement {
            tag: tag.to_owned(),
            attrs: Attributes::new(),
            children: Vec::new(),
        };
        assert(trees_of(element.children@) =~= Seq::empty());
        element
    }
}

impl VText {
    /// A text node that reads `text`.
    pub fn new(text: &str) -> (node: VText)
        ensures
            node@ == text@,
    {
        VText { text: text.to_owned() }
    }
}

impl VirtualNode {
    /// The snapshot as markup. A text is written as it reads. An element is
    /// written as its opening tag with the attributes in the order in
    /// which they are listed, then its children, then its closing tag.
    /// Nothing is escaped.
    pub open spec fn html(&self) -> Seq<char>
        decreases self, 0nat,
    {
        match self {
            VirtualNode::Element(element) => "<"@ + element.tag@ + pairs_html(
                element.attrs.listing(),
            ) + ">"@ + html_of(element.children@, element.children@.len()) + "</"@ + element.tag@
                + ">"@,
            VirtualNode::Text(text) => text.text@,
        }
    }

    /// Writes the snapshot as markup.
    pub fn to_string(&self) -> (markup: String)
        ensures
            markup@ == self.html(),
    {
        let mut markup = String::new();
        self.write_html(&mut markup);
        markup
    }

    /// Writes the snapshot behind `out` as markup.
    pub fn write_html(&self, out: &mut String)
        ensures
            final(out)@ == old(out)@ + self.html(),
        decreases self,
    {
        let ghost start = out@;
        match self {
            VirtualNode::Element(element) => {
                out.append("<");
                out.append(element.tag.as_str());
                element.attrs.write_html(out);
                out.append(">");
                let ghost opened = out@;
                let mut index: usize = 0;
                while index < element.children.len()
                    invariant
                        self is Element && self->Element_0 == *element,
                        index <= element.children.len(),
                        out@ == opened + html_of(element.children@, index as nat),
                    decreases element.children.len() - index,
                {
                    element.children[index].write_html(out);
                    proof {
                        assert(out@ =~= opened + html_of(element.children@, (index + 1) as nat));
                    }
                    index += 1;
                }
                out.append("</");
                out.append(element.tag.as_str());
                out.append(">");
                proof {
                    assert(out@ =~= start + self.html());
                }
            },
            VirtualNode::Text(text) => {
                out.append(text.text.as_str());
            },
        }
    }
}

/// The first `n` of `nodes` as markup, one behind the other.
pub open spec fn html_of(nodes: Seq<VirtualNode>, n: nat) -> Seq<char>
    decreases nodes, n,
{
    if 0 < n <= nodes.len() {
        html_of(nodes, (n - 1) as nat) + nodes[n - 1].html()
    } else {
        Seq::empty()
    }
}

impl From<String> for VirtualNode {
    /// A text node that reads `text`.
    fn from(text: String) -> (node: VirtualNode) {
        VirtualNode::Text(VText { text })
    }
}

impl vstd::std_specs::convert::FromSpecImpl<String> for VirtualNode {
    open spec fn obeys_from_spec() -> bool {
        true
    }

    open spec fn from_spec(text: String) -> VirtualNode {
        VirtualNode::Text(VText { text })
    }
}

impl<'a> From<&'a String> for VirtualNode {
    /// A text node that reads `text`.
    fn from(text: &'a String) -> (node: VirtualNode) {
        VirtualNode::Text(VText { text: text.clone() })
    }
}

impl<'a> vstd::std_specs::convert::FromSpecImpl<&'a String> for VirtualNode {
    open spec fn obeys_from_spec() -> bool {
        true
    }

    open spec fn from_spec(text: &'a String) -> VirtualNode {
        VirtualNode::Text(VText { text: *text })
    }
}

impl<'a> From<&'a str> for VirtualNode {
    /// A text node that reads `text`.
    fn from(text: &'a str) -> (node: VirtualNode)
        ensures
            node@ == (Tree::Text { content: text@ }),
    {
        VirtualNode::text(text)
    }
}

/// A borrowed text decides what the node reads, not which string holds it:
/// the conversion is stated by the `ensures` of `from` alone.
impl<'a> vstd::std_specs::convert::FromSpecImpl<&'a str> for VirtualNode {
    open spec fn obeys_from_spec() -> bool {
        false
    }

    open spec fn from_spec(text: &'a str) -> VirtualNode {
        arbitrary()
    }
}

/// The tree of an element node is the tree of the element in it.
pub proof fn lemma_view_element(node: &VirtualNode)
    requires
        node is Element,
    ensures
        node@ == node->Element_0@,
{
    let element = node->Element_0;
    assert(node@.children() =~= trees_of(element.children@));
}

} // verus!
