//! The live tree: the nodes that are shown, which patches change in place.
//!
//! It is kept in memory and owned as a whole from its root. Children stay in
//! the order in which they were appended.

use crate::attributes::Attributes;
use crate::tree::Tree;
use crate::virtual_node::VirtualNode;
use vstd::prelude::*;

verus! {

/// A live node.
#[derive(Debug, PartialEq)]
pub enum DomNode {
    Element(DomElement),
    Text(String),
}

/// A live element.
#[derive(Debug, PartialEq)]
pub struct DomElement {
    pub tag: String,
    pub attributes: Attributes,
    pub child_nodes: Vec<DomNode>,
}

impl View for DomNode {
    type V = Tree;

    open spec fn view(&self) -> Tree
        decreases self,
    {
        match self {
            DomNode::Element(element) => Tree::Element {
                tag: element.tag@,
                attributes: element.attributes@,
                children: Seq::new(
                    element.child_nodes.len() as nat,
                    |i: int|
                        if 0 <= i < element.child_nodes.len() {
                            element.child_nodes[i]@
                        } else {
                            Tree::Text { content: Seq::empty() }
                        },
                ),
            },
            DomNode::Text(data) => Tree::Text { content: data@ },
        }
    }
}

impl View for DomElement {
    type V = Tree;

    open spec fn view(&self) -> Tree {
        Tree::Element {
            tag: self.tag@,
            attributes: self.attributes@,
            children: live_trees(self.child_nodes@),
        }
    }
}

/// The trees that a list of live nodes stands for.
pub open spec fn live_trees(nodes: Seq<DomNode>) -> Seq<Tree> {
    Seq::new(nodes.len(), |i: int| nodes[i]@)
}

impl VirtualNode {
    /// Builds the live node, with all below it, that shows this snapshot.
    pub fn create_element(&self) -> (node: DomNode)
        ensures
            node@ == self@,
        decreases self,
    {
        match self {
            VirtualNode::Element(element) => {
                let mut child_nodes: Vec<DomNode> = Vec::new();
                let mut index: usize = 0;
                while index < element.children.len()
                    invariant
                        self is Element && self->Element_0 == *element,
                        index <= element.children.len(),
                        child_nodes@.len() == index,
                        forall|i: int|
                            0 <= i < index ==> (#[trigger] child_nodes@[i])@
                                == element.children@[i]@,
                    decreases element.children.len() - index,
                {
                    let child = element.children[index].create_element();
                    child_nodes.push(child);
                    index += 1;
                }
                let node = DomNode::Element(
                    DomElement {
                        tag: element.tag.clone(),
                        attributes: element.attrs.clone(),
                        child_nodes,
                    },
                );
                proof {
                    assert(node@.children() =~= self@.children());
                }
                node
            },
            VirtualNode::Text(text) => DomNode::Text(text.text.clone()),
        }
    }
}

impl DomElement {
    /// Sets the attribute `name` to `value`.
    pub fn set_attribute(&mut self, name: &str, value: &str)
        ensures
            final(self).tag == old(self).tag,
            final(self).child_nodes == old(self).child_nodes,
            final(self).attributes@ == old(self).attributes@.insert(name@, value@),
    {
        self.attributes.insert(name.to_owned(), value.to_owned());
    }

    /// Removes the attribute `name`, if the element has it.
    pub fn remove_attribute(&mut self, name: &str)
        ensures
            final(self).tag == old(self).tag,
            final(self).child_nodes == old(self).child_nodes,
            final(self).attributes@ == old(self).attributes@.remove(name@),
    {
        self.attributes.remove(name);
    }

    /// Puts `child` behind the children that the element has.
    pub fn append_child(&mut self, child: DomNode)
        ensures
            final(self).tag == old(self).tag,
            final(self).attributes == old(self).attributes,
            final(self).child_nodes@ == old(self).child_nodes@.push(child),
    {
        self.child_nodes.push(child);
    }
}

/// The tree of a live element node is the tree of the element in it.
pub proof fn lemma_view_live_element(node: &DomNode)
    requires
        node is Element,
    ensures
        node@ == node->Element_0@,
{
    let element = node->Element_0;
    assert(node@.children() =~= live_trees(element.child_nodes@));
}

} // verus!
