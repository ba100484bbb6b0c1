//! The differ: from two snapshots to the ordered list of patches that turns
//! what the old one shows into what the new one shows.
//!
//! Children are matched by position only. A child that moved is not found
//! again; it is compared with whatever stands in its old place.

use crate::attributes::{added_attributes, removed_attributes};
use crate::edit::Edit;
use crate::laws::{diff_positions_are_valid, diff_same_is_empty};
use crate::patch::{edits_of, Patch};
use crate::tree::{lemma_node_count_positive, lemma_nodes_in_monotonic, nodes_in, Tree};
use crate::virtual_node::{trees_of_refs, VirtualNode};
use vstd::prelude::*;

verus! {

/// Compares two snapshots and lists the patches that turn what `old` shows
/// into what `new` shows.
///
/// The positions in the patches count the nodes of `old`, so `old` must not
/// have more nodes than a `usize` can count.
pub fn diff<'a>(old: &'a VirtualNode, new: &'a VirtualNode) -> (patches: Vec<Patch<'a>>)
    requires
        old@.node_count() <= usize::MAX,
    ensures
        edits_of(patches@) == diff_trees(old@, new@),
        forall|k: int|
            0 <= k < patches@.len() ==> (#[trigger] patches@[k]).position() < old@.node_count(),
        old@ == new@ ==> patches@.len() == 0,
{
    let mut cur_node_idx: usize = 0;
    let patches = diff_recursive(old, new, &mut cur_node_idx);
    proof {
        assert forall|k: int| 0 <= k < patches@.len() implies (#[trigger] patches@[k]).position()
            < old@.node_count() by {
            diff_positions_are_valid(old@, new@, k);
            assert(edits_of(patches@)[k] == patches@[k]@);
        }
        if old@ == new@ {
            diff_same_is_empty(old@);
        }
    }
    patches
}

/// The edits that turn `old` into `new`, with the root of `old` at
/// position 0.
pub open spec fn diff_trees(old: Tree, new: Tree) -> Seq<Edit> {
    diff_node(old, new, 0)
}

/// The edits that turn `old`, whose root has position `idx`, into `new`.
///
/// For one node they come in this order: attributes to set, attributes to
/// take off, children to append, children to drop, and then the edits of
/// each child that both trees have, from left to right.
pub open spec fn diff_node(old: Tree, new: Tree, idx: nat) -> Seq<Edit>
    decreases old, 0nat,
{
    if replaces(old, new) {
        seq![Edit::Replace(idx, new)]
    } else {
        match old {
            Tree::Text { content: old_content } => {
                if old_content != new->content {
                    seq![Edit::ChangeText(idx, new->content)]
                } else {
                    Seq::<Edit>::empty()
                }
            },
            Tree::Element { attributes: old_attributes, children: old_children, .. } => {
                attribute_edits(old_attributes, new->attributes, idx) + child_count_edits(
                    old_children,
                    new->children,
                    idx,
                ) + diff_children(
                    old_children,
                    new->children,
                    shorter(old_children.len(), new->children.len()),
                    idx + 1,
                )
            },
        }
    }
}

/// The edits of the first `n` children that both lists have, where the
/// first old child has position `first`.
pub open spec fn diff_children(olds: Seq<Tree>, news: Seq<Tree>, n: nat, first: nat) -> Seq<Edit>
    decreases olds, n,
{
    if 0 < n <= olds.len() && n <= news.len() {
        diff_children(olds, news, (n - 1) as nat, first) + diff_node(
            olds[n - 1],
            news[n - 1],
            first + nodes_in(olds, (n - 1) as nat),
        )
    } else {
        Seq::<Edit>::empty()
    }
}

/// Whether `new` has to take the place of `old` as a whole: one is an
/// element and the other a text, or they are elements of different tags.
pub open spec fn replaces(old: Tree, new: Tree) -> bool {
    match old {
        Tree::Element { tag: old_tag, .. } => match new {
            Tree::Element { tag: new_tag, .. } => old_tag != new_tag,
            Tree::Text { .. } => true,
        },
        Tree::Text { .. } => new is Element,
    }
}

/// The edits to the attributes of the node at `idx`: what to set, if
/// anything, and then what to take off, if anything. A name whose value
/// changed is set again and not taken off.
pub open spec fn attribute_edits(
    old: Map<Seq<char>, Seq<char>>,
    new: Map<Seq<char>, Seq<char>>,
    idx: nat,
) -> Seq<Edit> {
    let add = added_attributes(old, new);
    let remove = removed_attributes(old, new);
    let adding = if add == Map::<Seq<char>, Seq<char>>::empty() {
        Seq::<Edit>::empty()
    } else {
        seq![Edit::AddAttributes(idx, add)]
    };
    let removing = if remove == Set::<Seq<char>>::empty() {
        Seq::<Edit>::empty()
    } else {
        seq![Edit::RemoveAttributes(idx, remove)]
    };
    adding + removing
}

/// The edit to the number of children of the node at `idx`: the new trailing
/// children are appended as they are, or the old trailing children dropped.
pub open spec fn child_count_edits(olds: Seq<Tree>, news: Seq<Tree>, idx: nat) -> Seq<Edit> {
    if news.len() > olds.len() {
        seq![Edit::AppendChildren(idx, news.skip(olds.len() as int))]
    } else if news.len() < olds.len() {
        seq![Edit::TruncateChildren(idx, news.len())]
    } else {
        Seq::<Edit>::empty()
    }
}

/// The smaller of two lengths.
pub open spec fn shorter(a: nat, b: nat) -> nat {
    if a <= b {
        a
    } else {
        b
    }
}

/// Lists the patches that turn `old_node` into `new_node`. On entry the
/// counter holds the position of `old_node`; on return it holds the
/// position of the last node below `old_node`, whether or not the nodes
/// that were counted got patches.
pub fn diff_recursive<'a>(
    old_node: &'a VirtualNode,
    new_node: &'a VirtualNode,
    cur_node_idx: &mut usize,
) -> (patches: Vec<Patch<'a>>)
    requires
        *old(cur_node_idx) + old_node@.node_count() - 1 <= usize::MAX,
    ensures
        *final(cur_node_idx) == *old(cur_node_idx) + old_node@.node_count() - 1,
        edits_of(patches@) == diff_node(old_node@, new_node@, *old(cur_node_idx) as nat),
    decreases old_node,
{
    let mut patches: Vec<Patch<'a>> = Vec::new();
    let node_idx = *cur_node_idx;
    let ghost old_children = old_node@.children();
    let ghost new_children = new_node@.children();
    proof {
        assert(edits_of(patches@) =~= Seq::<Edit>::empty());
    }

    if needs_replace(old_node, new_node) {
        patches.push(Patch::Replace(node_idx, new_node));
        proof {
            assert(edits_of(patches@) =~= seq![Edit::Replace(node_idx as nat, new_node@)]);
        }
        if let VirtualNode::Element(old_element) = old_node {
            let mut index: usize = 0;
            while index < old_element.children.len()
                invariant
                    old_node is Element && old_node->Element_0 == *old_element,
                    index <= old_element.children.len(),
                    old_children.len() == old_element.children.len(),
                    forall|i: int|
                        0 <= i < old_children.len() ==> old_children[i]
                            == #[trigger] old_element.children[i]@,
                    node_idx + nodes_in(old_children, old_children.len()) <= usize::MAX,
                    *cur_node_idx == node_idx + nodes_in(old_children, index as nat),
                decreases old_element.children.len() - index,
            {
                proof {
                    lemma_nodes_in_monotonic(
                        old_children,
                        (index + 1) as nat,
                        old_children.len(),
                    );
                }
                increment_node_idx_for_children(&old_element.children[index], cur_node_idx);
                index += 1;
            }
        }
        return patches;
    }
    match old_node {
        VirtualNode::Text(old_text) => {
            if let VirtualNode::Text(new_text) = new_node {
                if !(old_text.text == new_text.text) {
                    patches.push(Patch::ChangeText(node_idx, new_text));
                    proof {
                        assert(edits_of(patches@) =~= seq![
                            Edit::ChangeText(node_idx as nat, new_text@),
                        ]);
                    }
                }
            }
        },
        VirtualNode::Element(old_element) => {
            if let VirtualNode::Element(new_element) = new_node {
                let add_attributes = new_element.attrs.changed_since(&old_element.attrs);
                let remove_attributes = old_element.attrs.names_missing_in(&new_element.attrs);
                if add_attributes.len() > 0 {
                    patches.push(Patch::AddAttributes(node_idx, add_attributes));
                }
                if remove_attributes.len() > 0 {
                    patches.push(Patch::RemoveAttributes(node_idx, remove_attributes));
                }
                let ghost attribute_part = edits_of(patches@);
                proof {
                    assert(attribute_part =~= attribute_edits(
                        old_element.attrs@,
                        new_element.attrs@,
                        node_idx as nat,
                    ));
                }

                let old_child_count = old_element.children.len();
                let new_child_count = new_element.children.len();

                if new_child_count > old_child_count {
                    let mut append_patch: Vec<&'a VirtualNode> = Vec::new();
                    let mut index: usize = old_child_count;
                    while index < new_child_count
                        invariant
                            old_child_count <= index <= new_child_count,
                            new_child_count == new_element.children.len(),
                            new_children.len() == new_child_count,
                            forall|i: int|
                                0 <= i < new_children.len() ==> new_children[i]
                                    == #[trigger] new_element.children[i]@,
                            trees_of_refs(append_patch@) == new_children.subrange(
                                old_child_count as int,
                                index as int,
                            ),
                        decreases new_child_count - index,
                    {
                        let ghost so_far = trees_of_refs(append_patch@);
                        append_patch.push(&new_element.children[index]);
                        proof {
                            assert(trees_of_refs(append_patch@) =~= so_far.push(
                                new_children[index as int],
                            ));
                            assert(trees_of_refs(append_patch@) =~= new_children.subrange(
                                old_child_count as int,
                                index + 1,
                            ));
                        }
                        index += 1;
                    }
                    proof {
                        assert(new_children.subrange(
                            old_child_count as int,
                            new_child_count as int,
                        ) =~= new_children.skip(old_child_count as int));
                    }
                    patches.push(Patch::AppendChildren(node_idx, append_patch));
                }
                if new_child_count < old_child_count {
                    patches.push(Patch::TruncateChildren(node_idx, new_child_count));
                }
                let ghost own_part = edits_of(patches@);
                proof {
                    assert(own_part =~= attribute_part + child_count_edits(
                        old_children,
                        new_children,
                        node_idx as nat,
                    ));
                }

                let min_count = if old_child_count <= new_child_count {
                    old_child_count
                } else {
                    new_child_count
                };
                let mut index: usize = 0;
                while index < min_count
                    invariant
                        old_node is Element && old_node->Element_0 == *old_element,
                        index <= min_count,
                        min_count <= old_element.children.len(),
                        min_count <= new_element.children.len(),
                        old_children.len() == old_element.children.len(),
                        new_children.len() == new_element.children.len(),
                        forall|i: int|
                            0 <= i < old_children.len() ==> old_children[i]
                                == #[trigger] old_element.children[i]@,
                        forall|i: int|
                            0 <= i < new_children.len() ==> new_children[i]
                                == #[trigger] new_element.children[i]@,
                        node_idx + nodes_in(old_children, old_children.len()) <= usize::MAX,
                        *cur_node_idx == node_idx + nodes_in(old_children, index as nat),
                        edits_of(patches@) == own_part + diff_children(
                            old_children,
                            new_children,
                            index as nat,
                            (node_idx + 1) as nat,
                        ),
                    decreases min_count - index,
                {
                    proof {
                        lemma_nodes_in_monotonic(
                            old_children,
                            (index + 1) as nat,
                            old_children.len(),
                        );
                        lemma_node_count_positive(old_children[index as int]);
                    }
                    *cur_node_idx = *cur_node_idx + 1;
                    let old_child = &old_element.children[index];
                    let new_child = &new_element.children[index];
                    let ghost so_far = edits_of(patches@);
                    let mut child_patches = diff_recursive(old_child, new_child, cur_node_idx);
                    let ghost child_part = edits_of(child_patches@);
                    patches.append(&mut child_patches);
                    proof {
                        assert(edits_of(patches@) =~= so_far + child_part);
                        assert(own_part + diff_children(
                            old_children,
                            new_children,
                            index as nat,
                            (node_idx + 1) as nat,
                        ) + child_part =~= own_part + diff_children(
                            old_children,
                            new_children,
                            (index + 1) as nat,
                            (node_idx + 1) as nat,
                        ));
                    }
                    index += 1;
                }
                if new_child_count < old_child_count {
                    let mut index: usize = min_count;
                    while index < old_child_count
                        invariant
                            old_node is Element && old_node->Element_0 == *old_element,
                            index <= old_child_count,
                            old_child_count == old_element.children.len(),
                            old_children.len() == old_element.children.len(),
                            forall|i: int|
                                0 <= i < old_children.len() ==> old_children[i]
                                    == #[trigger] old_element.children[i]@,
                            node_idx + nodes_in(old_children, old_children.len()) <= usize::MAX,
                            *cur_node_idx == node_idx + nodes_in(old_children, index as nat),
                        decreases old_child_count - index,
                    {
                        proof {
                            lemma_nodes_in_monotonic(
                                old_children,
                                (index + 1) as nat,
                                old_children.len(),
                            );
                        }
                        increment_node_idx_for_children(
                            &old_element.children[index],
                            cur_node_idx,
                        );
                        index += 1;
                    }
                }
            }
        },
    }
    patches
}

/// Whether `new` has to take the place of `old` as a whole.
pub fn needs_replace(old: &VirtualNode, new: &VirtualNode) -> (replace: bool)
    ensures
        replace == replaces(old@, new@),
{
    match old {
        VirtualNode::Element(old_element) => match new {
            VirtualNode::Element(new_element) => !(old_element.tag == new_element.tag),
            VirtualNode::Text(_) => true,
        },
        VirtualNode::Text(_) => match new {
            VirtualNode::Element(_) => true,
            VirtualNode::Text(_) => false,
        },
    }
}

/// Counts `old_node` and every node below it into the counter.
pub fn increment_node_idx_for_children(old_node: &VirtualNode, cur_node_idx: &mut usize)
    requires
        *old(cur_node_idx) + old_node@.node_count() <= usize::MAX,
    ensures
        *final(cur_node_idx) == *old(cur_node_idx) + old_node@.node_count(),
    decreases old_node,
{
    let ghost start = *cur_node_idx;
    let ghost children = old_node@.children();
    *cur_node_idx += 1;
    if let VirtualNode::Element(element_node) = old_node {
        let mut index: usize = 0;
        while index < element_node.children.len()
            invariant
                old_node is Element && old_node->Element_0 == *element_node,
                index <= element_node.children.len(),
                children.len() == element_node.children.len(),
                forall|i: int|
                    0 <= i < children.len() ==> children[i] == #[trigger] element_node.children[i]@,
                start + 1 + nodes_in(children, children.len()) <= usize::MAX,
                *cur_node_idx == start + 1 + nodes_in(children, index as nat),
            decreases element_node.children.len() - index,
        {
            proof {
                lemma_nodes_in_monotonic(children, (index + 1) as nat, children.len());
            }
            increment_node_idx_for_children(&element_node.children[index], cur_node_idx);
            index += 1;
        }
    }
}

} // verus!
