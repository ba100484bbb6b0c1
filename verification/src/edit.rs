//! Edits: what one patch asks for, stated over mathematical trees.

use crate::tree::{path_of, Tree};
use vstd::prelude::*;

verus! {

/// One mutation of the node at a position of the old tree.
#[verifier::ext_equal]
pub enum Edit {
    /// Add these trees, in this order, behind the node's children.
    AppendChildren(nat, Seq<Tree>),
    /// Keep this many of the node's children and drop the rest.
    TruncateChildren(nat, nat),
    /// Put this tree in the node's place.
    Replace(nat, Tree),
    /// Set each of these attributes on the node.
    AddAttributes(nat, Map<Seq<char>, Seq<char>>),
    /// Take each of these attributes off the node.
    RemoveAttributes(nat, Set<Seq<char>>),
    /// Let the text node read this.
    ChangeText(nat, Seq<char>),
}

impl Edit {
    /// The position of the node that the edit is for.
    pub open spec fn node_idx(self) -> nat {
        match self {
            Edit::AppendChildren(idx, _) => idx,
            Edit::TruncateChildren(idx, _) => idx,
            Edit::Replace(idx, _) => idx,
            Edit::AddAttributes(idx, _) => idx,
            Edit::RemoveAttributes(idx, _) => idx,
            Edit::ChangeText(idx, _) => idx,
        }
    }
}

/// Why an edit could not be carried out; each holds the position that the
/// edit names.
pub enum EditError {
    /// The tree has no node at the position, or no longer has it.
    NodeNotFound(nat),
    /// The node is a text and the edit is for elements.
    ExpectedElement(nat),
    /// The node is an element and the edit is for texts.
    ExpectedText(nat),
}

/// A tree and, if an edit failed, why.
pub struct Outcome {
    pub tree: Tree,
    pub error: Option<EditError>,
}

/// The tree after `edits` were carried out on `tree` in order. Every edit
/// finds its node by the node's position in `tree` as it was before the
/// first edit. An edit that fails ends the run: the tree stays as the edits
/// before it left it.
pub open spec fn apply_edits(tree: Tree, edits: Seq<Edit>) -> Outcome {
    apply_all(tree, tree, edits, 0)
}

/// The tree after all of `edits` were carried out on `start` in order, the
/// nodes being found by their positions in `initial`, whose root has
/// position `base`.
pub open spec fn apply_all(initial: Tree, start: Tree, edits: Seq<Edit>, base: nat) -> Outcome {
    apply_first(initial, start, edits, base, edits.len())
}

/// The tree after the first `n` of `edits` were carried out on `start` in
/// order, or after those before the first that failed.
pub open spec fn apply_first(
    initial: Tree,
    start: Tree,
    edits: Seq<Edit>,
    base: nat,
    n: nat,
) -> Outcome
    decreases n,
{
    if 0 < n <= edits.len() {
        let before = apply_first(initial, start, edits, base, (n - 1) as nat);
        if before.error is Some {
            before
        } else {
            match apply_edit(initial, before.tree, edits[n - 1], base) {
                Ok(tree) => Outcome { tree, error: None },
                Err(error) => Outcome { tree: before.tree, error: Some(error) },
            }
        }
    } else {
        Outcome { tree: start, error: None }
    }
}

/// What `edit` makes of `current`. The node is found by its position in
/// `initial`, where the root of `initial` has position `base`; the way that
/// leads to it there is then gone in `current`.
pub open spec fn apply_edit(initial: Tree, current: Tree, edit: Edit, base: nat) -> Result<
    Tree,
    EditError,
> {
    if edit.node_idx() < base {
        Err(EditError::NodeNotFound(edit.node_idx()))
    } else {
        match path_of(initial, (edit.node_idx() - base) as nat) {
            Some(path) => apply_at(current, path, edit),
            None => Err(EditError::NodeNotFound(edit.node_idx())),
        }
    }
}

/// What `edit` makes of `tree` when it is carried out at the node that
/// `path` leads to.
pub open spec fn apply_at(tree: Tree, path: Seq<nat>, edit: Edit) -> Result<Tree, EditError>
    decreases path.len(),
{
    if path.len() == 0 {
        apply_here(tree, edit)
    } else {
        match tree {
            Tree::Element { tag, attributes, children } => {
                if path[0] < children.len() {
                    match apply_at(children[path[0] as int], path.skip(1), edit) {
                        Ok(child) => Ok(
                            Tree::Element {
                                tag,
                                attributes,
                                children: children.update(path[0] as int, child),
                            },
                        ),
                        Err(error) => Err(error),
                    }
                } else {
                    Err(EditError::NodeNotFound(edit.node_idx()))
                }
            },
            Tree::Text { .. } => Err(EditError::NodeNotFound(edit.node_idx())),
        }
    }
}

/// What `edit` makes of `tree` when it is carried out at the root.
pub open spec fn apply_here(tree: Tree, edit: Edit) -> Result<Tree, EditError> {
    match edit {
        Edit::Replace(_, new) => Ok(new),
        Edit::ChangeText(idx, content) => match tree {
            Tree::Text { .. } => Ok(Tree::Text { content }),
            Tree::Element { .. } => Err(EditError::ExpectedText(idx)),
        },
        Edit::AppendChildren(idx, more) => match tree {
            Tree::Element { tag, attributes, children } => Ok(
                Tree::Element { tag, attributes, children: children + more },
            ),
            Tree::Text { .. } => Err(EditError::ExpectedElement(idx)),
        },
        Edit::TruncateChildren(idx, keep) => match tree {
            Tree::Element { tag, attributes, children } => Ok(
                Tree::Element {
                    tag,
                    attributes,
                    children: if keep <= children.len() {
                        children.take(keep as int)
                    } else {
                        children
                    },
                },
            ),
            Tree::Text { .. } => Err(EditError::ExpectedElement(idx)),
        },
        Edit::AddAttributes(idx, pairs) => match tree {
            Tree::Element { tag, attributes, children } => Ok(
                Tree::Element { tag, attributes: attributes.union_prefer_right(pairs), children },
            ),
            Tree::Text { .. } => Err(EditError::ExpectedElement(idx)),
        },
        Edit::RemoveAttributes(idx, names) => match tree {
            Tree::Element { tag, attributes, children } => Ok(
                Tree::Element { tag, attributes: attributes.remove_keys(names), children },
            ),
            Tree::Text { .. } => Err(EditError::ExpectedElement(idx)),
        },
    }
}

/// Once an edit has failed, the edits behind it change nothing.
pub proof fn lemma_failure_stays(
    initial: Tree,
    start: Tree,
    edits: Seq<Edit>,
    base: nat,
    failed: nat,
    n: nat,
)
    requires
        failed <= n <= edits.len(),
        apply_first(initial, start, edits, base, failed).error is Some,
    ensures
        apply_first(initial, start, edits, base, n) == apply_first(
            initial,
            start,
            edits,
            base,
            failed,
        ),
    decreases n,
{
    if failed < n {
        lemma_failure_stays(initial, start, edits, base, failed, (n - 1) as nat);
    }
}

/// The first `n` edits decide what the tree is after them, whatever
/// follows in the list.
pub proof fn lemma_apply_prefix(
    initial: Tree,
    start: Tree,
    edits: Seq<Edit>,
    others: Seq<Edit>,
    base: nat,
    n: nat,
)
    requires
        n <= edits.len(),
        n <= others.len(),
        forall|i: int| 0 <= i < n ==> edits[i] == others[i],
    ensures
        apply_first(initial, start, edits, base, n) == apply_first(initial, start, others, base, n),
    decreases n,
{
    if n > 0 {
        lemma_apply_prefix(initial, start, edits, others, base, (n - 1) as nat);
    }
}

/// Carrying out one list of edits and then another is carrying out the two
/// put together, as long as the first list does not fail.
pub proof fn lemma_apply_concat(
    initial: Tree,
    start: Tree,
    first: Seq<Edit>,
    second: Seq<Edit>,
    base: nat,
)
    requires
        apply_all(initial, start, first, base).error is None,
    ensures
        apply_all(initial, start, first + second, base) == apply_all(
            initial,
            apply_all(initial, start, first, base).tree,
            second,
            base,
        ),
{
    lemma_apply_concat_first(initial, start, first, second, base, second.len());
}

/// The same for the first `n` edits of the second list.
pub proof fn lemma_apply_concat_first(
    initial: Tree,
    start: Tree,
    first: Seq<Edit>,
    second: Seq<Edit>,
    base: nat,
    n: nat,
)
    requires
        apply_all(initial, start, first, base).error is None,
        n <= second.len(),
    ensures
        apply_first(initial, start, first + second, base, first.len() + n) == apply_first(
            initial,
            apply_all(initial, start, first, base).tree,
            second,
            base,
            n,
        ),
    decreases n,
{
    if n == 0 {
        lemma_apply_prefix(initial, start, first + second, first, base, first.len());
    } else {
        lemma_apply_concat_first(initial, start, first, second, base, (n - 1) as nat);
        assert((first + second)[first.len() + n - 1] == second[n - 1]);
    }
}

/// An edit for the root of the tree is carried out at the root.
pub proof fn lemma_apply_at_root(initial: Tree, current: Tree, edit: Edit, base: nat)
    requires
        edit.node_idx() == base,
    ensures
        apply_edit(initial, current, edit, base) == apply_here(current, edit),
{
}

/// A list of one edit does what the edit does.
pub proof fn lemma_apply_one(initial: Tree, start: Tree, edit: Edit, base: nat)
    ensures
        apply_all(initial, start, seq![edit], base) == match apply_edit(
            initial,
            start,
            edit,
            base,
        ) {
            Ok(tree) => Outcome { tree, error: None },
            Err(error) => Outcome { tree: start, error: Some(error) },
        },
{
    reveal_with_fuel(apply_first, 2);
}

} // verus!
