//! Patches: the instructions that a diff yields and an apply consumes.
//!
//! Each patch names its node by the node's position in the old snapshot,
//! counted depth first:
//!
//! ```text
//!             0
//!         +---+---+
//!         1       4
//!       +-+-+   +-+-+
//!       2   3   5 6 7
//! ```
//!
//! A patch borrows what it carries from the new snapshot.

use crate::attributes::{borrowed_pairs, names_of, pairs_map};
use crate::dom::{lemma_view_live_element, live_trees, DomNode};
use crate::edit::{
    apply_at, apply_edit, apply_edits, apply_first, apply_here, lemma_failure_stays, Edit,
    EditError, Outcome,
};
use crate::tree::{
    lemma_node_count_positive, lemma_nodes_in_monotonic, lemma_path_among_child,
    lemma_path_of_exists, nodes_in, path_of, Tree,
};
use crate::virtual_node::{trees_of_refs, VText, VirtualNode};
use std::collections::{HashMap, HashSet};
use vstd::prelude::*;

verus! {

/// One instruction for the live tree.
#[derive(Debug, PartialEq)]
pub enum Patch<'a> {
    /// Append these nodes, in this order, to the children of the node.
    AppendChildren(usize, Vec<&'a VirtualNode>),
    /// Keep the first so many children of the node and remove the others.
    TruncateChildren(usize, usize),
    /// Replace the node, and all below it, with another.
    Replace(usize, &'a VirtualNode),
    /// Set these attributes; a later pair of the same name decides.
    AddAttributes(usize, Vec<(&'a str, &'a str)>),
    /// Remove these attributes.
    RemoveAttributes(usize, Vec<&'a str>),
    /// Change what a text node reads.
    ChangeText(usize, &'a VText),
}

impl<'a> View for Patch<'a> {
    type V = Edit;

    open spec fn view(&self) -> Edit {
        match self {
            Patch::AppendChildren(idx, nodes) => Edit::AppendChildren(
                *idx as nat,
                trees_of_refs(nodes@),
            ),
            Patch::TruncateChildren(idx, keep) => Edit::TruncateChildren(*idx as nat, *keep as nat),
            Patch::Replace(idx, node) => Edit::Replace(*idx as nat, node@),
            Patch::AddAttributes(idx, pairs) => Edit::AddAttributes(
                *idx as nat,
                pairs_map(borrowed_pairs(pairs@)),
            ),
            Patch::RemoveAttributes(idx, names) => Edit::RemoveAttributes(
                *idx as nat,
                names_of(names@),
            ),
            Patch::ChangeText(idx, text) => Edit::ChangeText(*idx as nat, text@),
        }
    }
}

/// The edits that a list of patches asks for, in order.
pub open spec fn edits_of(patches: Seq<Patch<'_>>) -> Seq<Edit> {
    Seq::new(patches.len(), |i: int| patches[i]@)
}

impl<'a> Patch<'a> {
    /// The position of the node that the patch is for.
    pub open spec fn position(&self) -> usize {
        match self {
            Patch::AppendChildren(node_idx, _) => *node_idx,
            Patch::TruncateChildren(node_idx, _) => *node_idx,
            Patch::Replace(node_idx, _) => *node_idx,
            Patch::AddAttributes(node_idx, _) => *node_idx,
            Patch::RemoveAttributes(node_idx, _) => *node_idx,
            Patch::ChangeText(node_idx, _) => *node_idx,
        }
    }

    /// The position of the node that the patch is for.
    #[verifier::when_used_as_spec(position)]
    pub fn node_idx(&self) -> (idx: usize)
        ensures
            idx == self.position(),
            idx == self@.node_idx(),
    {
        match self {
            Patch::AppendChildren(node_idx, _) => *node_idx,
            Patch::TruncateChildren(node_idx, _) => *node_idx,
            Patch::Replace(node_idx, _) => *node_idx,
            Patch::AddAttributes(node_idx, _) => *node_idx,
            Patch::RemoveAttributes(node_idx, _) => *node_idx,
            Patch::ChangeText(node_idx, _) => *node_idx,
        }
    }
}

/// Why a patch could not be applied; each holds the position that the patch
/// names.
#[derive(Debug, Clone, Copy, PartialEq, Eq)]
pub enum PatchError {
    /// The live tree has no node at the position, or no longer has it.
    NodeNotFound(usize),
    /// The node is a text and the patch is for elements.
    ExpectedElement(usize),
    /// The node is an element and the patch is for texts.
    ExpectedText(usize),
}

impl View for PatchError {
    type V = EditError;

    open spec fn view(&self) -> EditError {
        match self {
            PatchError::NodeNotFound(idx) => EditError::NodeNotFound(*idx as nat),
            PatchError::ExpectedElement(idx) => EditError::ExpectedElement(*idx as nat),
            PatchError::ExpectedText(idx) => EditError::ExpectedText(*idx as nat),
        }
    }
}

/// Applies `patches` to the live tree below `root_node`, in the order in
/// which they are listed.
///
/// The nodes that the patches name are looked up first, all in one walk
/// through the tree as it is before any patch is applied, so that no patch
/// shifts the positions that the later ones go by. The first patch that
/// cannot be applied ends the call with its error; what the patches before
/// it did stays done.
pub fn patch(root_node: &mut DomNode, patches: &Vec<Patch>) -> (result: Result<(), PatchError>)
    ensures
        ended_as(final(root_node)@, result, apply_edits(old(root_node)@, edits_of(patches@))),
{
    broadcast use vstd::std_specs::hash::group_hash_axioms;

    let ghost initial = root_node@;
    let ghost edits = edits_of(patches@);
    let nodes_to_patch = find_nodes_to_patch(root_node, patches);

    let mut index: usize = 0;
    while index < patches.len()
        invariant
            index <= patches.len(),
            edits == edits_of(patches@),
            initial == old(root_node)@,
            located(initial, patches@, nodes_to_patch@),
            apply_first(initial, initial, edits, 0, index as nat) == (Outcome {
                tree: root_node@,
                error: None,
            }),
        decreases patches.len() - index,
    {
        let patch = &patches[index];
        let patch_node_idx = patch.node_idx();
        proof {
            lemma_path_of_exists(initial, patch_node_idx as nat);
        }
        let ghost before = root_node@;
        let result = match nodes_to_patch.get(&patch_node_idx) {
            Some(path) => {
                proof {
                    assert(steps(path@).skip(0) =~= steps(path@));
                }
                apply_at_path(root_node, path, 0, patch)
            },
            None => Err(PatchError::NodeNotFound(patch_node_idx)),
        };
        proof {
            assert(edits[index as int] == patch@);
            assert(carried_out(
                before,
                root_node@,
                result,
                apply_edit(initial, before, patch@, 0),
            ));
        }
        if let Err(error) = result {
            proof {
                lemma_failure_stays(initial, initial, edits, 0, (index + 1) as nat, edits.len());
            }
            return Err(error);
        }
        index += 1;
    }
    Ok(())
}

/// Whether a call that changed a live tree to `after` and returned `result`
/// ended as `outcome` says.
pub open spec fn ended_as(after: Tree, result: Result<(), PatchError>, outcome: Outcome) -> bool {
    &&& after == outcome.tree
    &&& match outcome.error {
        None => result is Ok,
        Some(error) => result is Err && result->Err_0@ == error,
    }
}

/// Looks up the nodes that `patches` name, all in one walk through the
/// tree: for each position that a patch names and the tree has, the path
/// from `root_node` to the node there.
pub fn find_nodes_to_patch(root_node: &DomNode, patches: &Vec<Patch>) -> (nodes_to_patch: HashMap<
    usize,
    Vec<usize>,
>)
    ensures
        located(root_node@, patches@, nodes_to_patch@),
{
    broadcast use vstd::std_specs::hash::group_hash_axioms;

    let mut cur_node_idx: usize = 0;
    let mut nodes_to_find: HashSet<usize> = HashSet::new();
    let mut nodes_to_patch: HashMap<usize, Vec<usize>> = HashMap::new();

    let mut index: usize = 0;
    while index < patches.len()
        invariant
            index <= patches.len(),
            forall|idx: usize| #[trigger]
                nodes_to_find@.contains(idx) <==> exists|j: int|
                    0 <= j < index && (#[trigger] patches[j]).position() == idx,
        decreases patches.len() - index,
    {
        let ghost before = nodes_to_find@;
        nodes_to_find.insert(patches[index].node_idx());
        proof {
            assert forall|idx: usize| #[trigger] nodes_to_find@.contains(idx) implies exists|j: int|
                0 <= j < index + 1 && (#[trigger] patches[j]).position() == idx by {
                if before.contains(idx) {
                    let j = choose|j: int|
                        0 <= j < index && (#[trigger] patches[j]).position() == idx;
                    assert(patches[j].position() == idx);
                } else {
                    assert(patches[index as int].position() == idx);
                }
            }
            assert forall|idx: usize|
                (exists|j: int|
                    0 <= j < index + 1 && (#[trigger] patches[j]).position()
                        == idx) implies #[trigger] nodes_to_find@.contains(idx) by {
                let j = choose|j: int|
                    0 <= j < index + 1 && (#[trigger] patches[j]).position() == idx;
                if j < index {
                    assert(before.contains(idx));
                }
            }
        }
        index += 1;
    }

    let mut path: Vec<usize> = Vec::new();
    find_nodes(root_node, &mut cur_node_idx, &mut path, &mut nodes_to_find, &mut nodes_to_patch);
    proof {
        assert(steps(Seq::<usize>::empty()) =~= Seq::<nat>::empty());
        assert forall|idx: usize| #[trigger]
            nodes_to_patch@.contains_key(idx) implies path_of(root_node@, idx as nat) == Some(
            steps(nodes_to_patch@[idx]@),
        ) by {
            assert(steps(nodes_to_patch@[idx]@).skip(0) =~= steps(nodes_to_patch@[idx]@));
        }
    }
    nodes_to_patch
}

/// Whether `found` holds, for each position that one of `patches` names
/// and `tree` has, the path to the node at that position, and nothing else.
pub open spec fn located(
    tree: Tree,
    patches: Seq<Patch<'_>>,
    found: Map<usize, Vec<usize>>,
) -> bool {
    &&& forall|idx: usize| #[trigger]
        found.contains_key(idx) <==> idx < tree.node_count() && exists|j: int|
            0 <= j < patches.len() && (#[trigger] patches[j]).position() == idx
    &&& forall|idx: usize| #[trigger]
        found.contains_key(idx) ==> path_of(tree, idx as nat) == Some(steps(found[idx]@))
}

/// Walks through `node` and all below it once, depth first, and notes the
/// path of each wanted position that it comes by.
///
/// On entry the counter holds the position of `node` and `path` the way
/// to it. The walk ends early when nothing is wanted any more or when the
/// counter cannot count further; it then returns `true`, and no position at
/// or behind that of `node` is still wanted.
pub fn find_nodes(
    node: &DomNode,
    cur_node_idx: &mut usize,
    path: &mut Vec<usize>,
    nodes_to_find: &mut HashSet<usize>,
    nodes_to_patch: &mut HashMap<usize, Vec<usize>>,
) -> (done: bool)
    ensures
        final(path)@ == old(path)@,
        noted(
            node@,
            *old(cur_node_idx) as nat,
            steps(old(path)@),
            node@.node_count(),
            old(nodes_to_find)@,
            final(nodes_to_find)@,
            old(nodes_to_patch)@,
            final(nodes_to_patch)@,
        ),
        !done ==> *final(cur_node_idx) == *old(cur_node_idx) + node@.node_count() - 1,
        done ==> forall|i: usize| #[trigger]
            final(nodes_to_find)@.contains(i) ==> i < *old(cur_node_idx),
    decreases node,
{
    broadcast use vstd::std_specs::hash::group_hash_axioms;

    let ghost base = *cur_node_idx as nat;
    let ghost prefix = steps(path@);
    let ghost wanted_before = nodes_to_find@;
    let ghost found_before = nodes_to_patch@;
    let ghost children = node@.children();
    proof {
        lemma_node_count_positive(node@);
    }

    if nodes_to_find.contains(cur_node_idx) {
        let here = path.clone();
        proof {
            assert(steps(here@) =~= prefix);
            assert(steps(here@).skip(prefix.len() as int) =~= Seq::<nat>::empty());
            assert(steps(here@).take(prefix.len() as int) =~= prefix);
        }
        nodes_to_patch.insert(*cur_node_idx, here);
        nodes_to_find.remove(cur_node_idx);
    }
    proof {
        assert(noted(
            node@,
            base,
            prefix,
            1,
            wanted_before,
            nodes_to_find@,
            found_before,
            nodes_to_patch@,
        ));
    }
    if nodes_to_find.is_empty() {
        proof {
            lemma_noted_rest(
                node@,
                base,
                prefix,
                1,
                node@.node_count(),
                wanted_before,
                nodes_to_find@,
                found_before,
                nodes_to_patch@,
            );
        }
        return true;
    }
    match node {
        DomNode::Element(element) => {
            let mut index: usize = 0;
            while index < element.child_nodes.len()
                invariant
                    *node is Element && node->Element_0 == *element,
                    base == *old(cur_node_idx),
                    prefix == steps(old(path)@),
                    wanted_before == old(nodes_to_find)@,
                    found_before == old(nodes_to_patch)@,
                    node@.node_count() == 1 + nodes_in(children, children.len()),
                    children == node@.children(),
                    children.len() == element.child_nodes.len(),
                    forall|i: int|
                        0 <= i < children.len() ==> children[i]
                            == #[trigger] element.child_nodes[i]@,
                    index <= element.child_nodes.len(),
                    path@ == old(path)@,
                    prefix == steps(path@),
                    *cur_node_idx == base + nodes_in(children, index as nat),
                    noted(
                        node@,
                        base,
                        prefix,
                        1 + nodes_in(children, index as nat),
                        wanted_before,
                        nodes_to_find@,
                        found_before,
                        nodes_to_patch@,
                    ),
                decreases element.child_nodes.len() - index,
            {
                let ghost visited = 1 + nodes_in(children, index as nat);
                let ghost wanted_middle = nodes_to_find@;
                let ghost found_middle = nodes_to_patch@;
                if *cur_node_idx == usize::MAX {
                    proof {
                        lemma_nodes_in_monotonic(children, index as nat, children.len());
                        lemma_noted_rest(
                            node@,
                            base,
                            prefix,
                            visited,
                            node@.node_count(),
                            wanted_before,
                            nodes_to_find@,
                            found_before,
                            nodes_to_patch@,
                        );
                    }
                    return true;
                }
                *cur_node_idx += 1;
                path.push(index);
                let ghost child_prefix = steps(path@);
                let done = find_nodes(
                    &element.child_nodes[index],
                    cur_node_idx,
                    path,
                    nodes_to_find,
                    nodes_to_patch,
                );
                path.pop();
                proof {
                    let child = children[index as int];
                    let after = visited + child.node_count();
                    assert(child_prefix =~= prefix.push(index as nat));
                    assert(path@ =~= old(path)@);
                    assert(after == 1 + nodes_in(children, (index + 1) as nat));
                    lemma_nodes_in_monotonic(children, (index + 1) as nat, children.len());
                    assert forall|i: usize|
                        wanted_before.contains(i) && base <= i < base + after implies path_of(
                            node@,
                            (i - base) as nat,
                        ) == Some(steps(#[trigger] nodes_to_patch@[i]@).skip(prefix.len() as int))
                        && steps(nodes_to_patch@[i]@).take(prefix.len() as int) == prefix
                        && nodes_to_patch@[i]@.len() >= prefix.len() by {
                        if i >= base + visited {
                            let inner = (i - base - visited) as nat;
                            let noted_path = steps(nodes_to_patch@[i]@);
                            assert(wanted_middle.contains(i));
                            lemma_path_of_exists(child, inner);
                            lemma_path_among_child(
                                children,
                                children.len(),
                                index as nat,
                                (i - base - 1) as nat,
                            );
                            assert(noted_path.take(child_prefix.len() as int) == child_prefix);
                            assert(noted_path.take(prefix.len() as int) =~= prefix);
                            assert(noted_path[prefix.len() as int]
                                == child_prefix[prefix.len() as int]);
                            assert(noted_path.skip(prefix.len() as int) =~= seq![index as nat]
                                + noted_path.skip(child_prefix.len() as int));
                        } else {
                            assert(found_middle.contains_key(i));
                            assert(!(wanted_middle.contains(i) && base + visited <= i < base
                                + after));
                        }
                    }
                    assert(noted(
                        node@,
                        base,
                        prefix,
                        after,
                        wanted_before,
                        nodes_to_find@,
                        found_before,
                        nodes_to_patch@,
                    ));
                }
                if done {
                    proof {
                        assert forall|i: usize| #[trigger]
                            nodes_to_find@.contains(i) implies i < base by {
                            if i >= base {
                                assert(i < base + visited);
                                assert(wanted_middle.contains(i));
                            }
                        }
                        lemma_noted_rest(
                            node@,
                            base,
                            prefix,
                            visited + children[index as int].node_count(),
                            node@.node_count(),
                            wanted_before,
                            nodes_to_find@,
                            found_before,
                            nodes_to_patch@,
                        );
                    }
                    return true;
                }
                index += 1;
            }
            false
        },
        DomNode::Text(_) => false,
    }
}

/// What a walk has noted once it has been through the first `visited`
/// positions of `tree`, whose root has position `base` and is reached by
/// `prefix`: each wanted position among them is wanted no longer and has
/// its path noted, and nothing else has changed.
pub open spec fn noted(
    tree: Tree,
    base: nat,
    prefix: Seq<nat>,
    visited: nat,
    wanted_before: Set<usize>,
    wanted_after: Set<usize>,
    found_before: Map<usize, Vec<usize>>,
    found_after: Map<usize, Vec<usize>>,
) -> bool {
    &&& forall|i: usize| #[trigger]
        wanted_after.contains(i) <==> wanted_before.contains(i) && !(base <= i < base + visited)
    &&& forall|i: usize| #[trigger]
        found_after.contains_key(i) <==> found_before.contains_key(i) || (wanted_before.contains(i)
            && base <= i < base + visited)
    &&& forall|i: usize|
        wanted_before.contains(i) && base <= i < base + visited ==> path_of(
            tree,
            (i - base) as nat,
        ) == Some(steps(#[trigger] found_after[i]@).skip(prefix.len() as int)) && steps(
            found_after[i]@,
        ).take(prefix.len() as int) == prefix && found_after[i]@.len() >= prefix.len()
    &&& forall|i: usize|
        found_before.contains_key(i) && !(wanted_before.contains(i) && base <= i < base + visited)
            ==> #[trigger] found_after[i] == found_before[i]
}

/// Carries one patch out on the node that the rest of `path` leads to from
/// `node`, the first `depth` steps having been gone already.
pub fn apply_at_path(node: &mut DomNode, path: &Vec<usize>, depth: usize, patch: &Patch) -> (result:
    Result<(), PatchError>)
    requires
        depth <= path.len(),
    ensures
        carried_out(
            old(node)@,
            final(node)@,
            result,
            apply_at(old(node)@, steps(path@).skip(depth as int), patch@),
        ),
    decreases path.len() - depth,
{
    let ghost rest = steps(path@).skip(depth as int);
    if depth == path.len() {
        return apply_patch(node, patch);
    }
    let step = path[depth];
    proof {
        assert(rest[0] == step);
        assert(rest.skip(1) =~= steps(path@).skip(depth + 1));
    }
    let result = match node {
        DomNode::Element(element) => {
            if step < element.child_nodes.len() {
                apply_at_path(&mut element.child_nodes[step], path, depth + 1, patch)
            } else {
                Err(PatchError::NodeNotFound(patch.node_idx()))
            }
        },
        DomNode::Text(_) => Err(PatchError::NodeNotFound(patch.node_idx())),
    };
    proof {
        if *old(node) is Element && *node is Element {
            lemma_view_live_element(&*old(node));
            lemma_view_live_element(&*node);
            if let Ok(tree) = apply_at(old(node)@, rest, patch@) {
                assert(node@.children() =~= tree.children());
            } else {
                assert(node@.children() =~= old(node)@.children());
            }
        }
    }
    result
}

/// The steps of a path as numbers without bound.
pub open spec fn steps(path: Seq<usize>) -> Seq<nat> {
    Seq::new(path.len(), |i: int| path[i] as nat)
}

/// Carries one patch out on the node that it is for.
pub fn apply_patch(node: &mut DomNode, patch: &Patch) -> (result: Result<(), PatchError>)
    ensures
        carried_out(old(node)@, final(node)@, result, apply_here(old(node)@, patch@)),
{
    let result = match patch {
        Patch::AddAttributes(node_idx, attributes) => {
            match node {
                DomNode::Element(element) => {
                    let ghost before = *element;
                    let ghost pairs = borrowed_pairs(attributes@);
                    let mut index: usize = 0;
                    while index < attributes.len()
                        invariant
                            index <= attributes.len(),
                            pairs == borrowed_pairs(attributes@),
                            element.tag == before.tag,
                            element.child_nodes == before.child_nodes,
                            element.attributes@ == before.attributes@.union_prefer_right(
                                pairs_map(pairs.take(index as int)),
                            ),
                        decreases attributes.len() - index,
                    {
                        let (attrib_name, attrib_val) = attributes[index];
                        element.set_attribute(attrib_name, attrib_val);
                        proof {
                            assert(pairs.take(index + 1).drop_last() =~= pairs.take(index as int));
                            assert(element.attributes@ =~= before.attributes@.union_prefer_right(
                                pairs_map(pairs.take(index + 1)),
                            ));
                        }
                        index += 1;
                    }
                    proof {
                        assert(pairs.take(index as int) =~= pairs);
                    }
                    Ok(())
                },
                DomNode::Text(_) => Err(PatchError::ExpectedElement(*node_idx)),
            }
        },
        Patch::RemoveAttributes(node_idx, attributes) => {
            match node {
                DomNode::Element(element) => {
                    let ghost before = *element;
                    let mut index: usize = 0;
                    while index < attributes.len()
                        invariant
                            index <= attributes.len(),
                            element.tag == before.tag,
                            element.child_nodes == before.child_nodes,
                            element.attributes@ == before.attributes@.remove_keys(
                                names_of(attributes@.take(index as int)),
                            ),
                        decreases attributes.len() - index,
                    {
                        element.remove_attribute(attributes[index]);
                        proof {
                            let seen = names_of(attributes@.take(index as int));
                            let next = names_of(attributes@.take(index + 1));
                            assert(next =~= seen.insert(attributes@[index as int]@)) by {
                                assert forall|name: Seq<char>|
                                    next.contains(name) implies seen.insert(
                                    attributes@[index as int]@,
                                ).contains(name) by {
                                    let i = choose|i: int|
                                        0 <= i < attributes@.take(index + 1).len() && (
                                        #[trigger] attributes@.take(index + 1)[i])@ == name;
                                    if i < index {
                                        assert(attributes@.take(index as int)[i]@ == name);
                                    }
                                }
                                assert forall|name: Seq<char>|
                                    seen.insert(attributes@[index as int]@).contains(
                                        name,
                                    ) implies next.contains(name) by {
                                    if seen.contains(name) {
                                        let i = choose|i: int|
                                            0 <= i < attributes@.take(index as int).len() && (
                                            #[trigger] attributes@.take(index as int)[i])@ == name;
                                        assert(attributes@.take(index + 1)[i]@ == name);
                                    } else {
                                        assert(attributes@.take(index + 1)[index as int]@ == name);
                                    }
                                }
                            }
                            assert(element.attributes@ =~= before.attributes@.remove_keys(next));
                        }
                        index += 1;
                    }
                    proof {
                        assert(attributes@.take(index as int) =~= attributes@);
                    }
                    Ok(())
                },
                DomNode::Text(_) => Err(PatchError::ExpectedElement(*node_idx)),
            }
        },
        Patch::Replace(_node_idx, new_node) => {
            *node = new_node.create_element();
            Ok(())
        },
        Patch::TruncateChildren(node_idx, len) => {
            match node {
                DomNode::Element(element) => {
                    element.child_nodes.truncate(*len);
                    Ok(())
                },
                DomNode::Text(_) => Err(PatchError::ExpectedElement(*node_idx)),
            }
        },
        Patch::ChangeText(node_idx, new_node) => {
            match node {
                DomNode::Text(data) => {
                    *data = new_node.text.clone();
                    Ok(())
                },
                DomNode::Element(_) => Err(PatchError::ExpectedText(*node_idx)),
            }
        },
        Patch::AppendChildren(node_idx, new_nodes) => {
            match node {
                DomNode::Element(element) => {
                    let ghost before = *element;
                    let mut index: usize = 0;
                    while index < new_nodes.len()
                        invariant
                            index <= new_nodes.len(),
                            element.tag == before.tag,
                            element.attributes == before.attributes,
                            live_trees(element.child_nodes@) == live_trees(before.child_nodes@)
                                + trees_of_refs(new_nodes@).take(index as int),
                        decreases new_nodes.len() - index,
                    {
                        let ghost so_far = live_trees(element.child_nodes@);
                        let child = new_nodes[index].create_element();
                        element.append_child(child);
                        proof {
                            assert(live_trees(element.child_nodes@) =~= so_far.push(
                                new_nodes@[index as int]@,
                            ));
                            assert(live_trees(element.child_nodes@) =~= live_trees(
                                before.child_nodes@,
                            ) + trees_of_refs(new_nodes@).take(index + 1));
                        }
                        index += 1;
                    }
                    proof {
                        assert(trees_of_refs(new_nodes@).take(index as int) =~= trees_of_refs(
                            new_nodes@,
                        ));
                    }
                    Ok(())
                },
                DomNode::Text(_) => Err(PatchError::ExpectedElement(*node_idx)),
            }
        },
    };
    proof {
        if *old(node) is Element && *node is Element {
            lemma_view_live_element(&*old(node));
            lemma_view_live_element(&*node);
            if let Ok(tree) = apply_here(old(node)@, patch@) {
                assert(node@.children() =~= tree.children());
            }
        }
    }
    result
}

/// Whether a call that changed a live tree from `before` to `after` and
/// returned `result` did what `wanted` says: on success the tree is the
/// wanted one, on failure the error is the wanted one and the tree is
/// untouched.
pub open spec fn carried_out(
    before: Tree,
    after: Tree,
    result: Result<(), PatchError>,
    wanted: Result<Tree, EditError>,
) -> bool {
    match wanted {
        Ok(tree) => result is Ok && after == tree,
        Err(error) => result is Err && result->Err_0@ == error && after == before,
    }
}

/// Once no position at or behind `base` is wanted any more, what was noted
/// for the first `visited` positions holds for any number of them.
pub proof fn lemma_noted_rest(
    tree: Tree,
    base: nat,
    prefix: Seq<nat>,
    visited: nat,
    all: nat,
    wanted_before: Set<usize>,
    wanted_after: Set<usize>,
    found_before: Map<usize, Vec<usize>>,
    found_after: Map<usize, Vec<usize>>,
)
    requires
        visited <= all,
        noted(tree, base, prefix, visited, wanted_before, wanted_after, found_before, found_after),
        forall|i: usize| #[trigger] wanted_after.contains(i) ==> i < base,
    ensures
        noted(tree, base, prefix, all, wanted_before, wanted_after, found_before, found_after),
{
    assert forall|i: usize| wanted_before.contains(i) && base <= i implies i < base + visited by {
        if i >= base + visited {
            assert(wanted_after.contains(i));
        }
    }
}

} // verus!
