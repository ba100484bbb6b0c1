//! The mathematical tree that a snapshot or a live node stands for.
//!
//! Nodes are addressed by their position in depth-first order, a parent
//! before its children and the children from left to right; the root has
//! position 0.

use vstd::prelude::*;

verus! {

/// A node with everything below it.
#[verifier::ext_equal]
pub enum Tree {
    Element { tag: Seq<char>, attributes: Map<Seq<char>, Seq<char>>, children: Seq<Tree> },
    Text { content: Seq<char> },
}

impl Tree {
    /// The children of an element; a text node has none.
    pub open spec fn children(self) -> Seq<Tree> {
        match self {
            Tree::Element { children, .. } => children,
            Tree::Text { .. } => Seq::empty(),
        }
    }

    /// The element with another list of children; a text node stays as it
    /// is.
    pub open spec fn with_children(self, children: Seq<Tree>) -> Tree {
        match self {
            Tree::Element { tag, attributes, .. } => Tree::Element { tag, attributes, children },
            Tree::Text { .. } => self,
        }
    }

    /// The number of nodes in the tree, the root included.
    pub open spec fn node_count(self) -> nat
        decreases self, 0nat,
    {
        match self {
            Tree::Element { children, .. } => 1 + nodes_in(children, children.len()),
            Tree::Text { .. } => 1,
        }
    }
}

/// The number of nodes in the first `n` trees of `trees`, all told.
pub open spec fn nodes_in(trees: Seq<Tree>, n: nat) -> nat
    decreases trees, n,
{
    if 0 < n <= trees.len() {
        nodes_in(trees, (n - 1) as nat) + trees[n - 1].node_count()
    } else {
        0
    }
}

/// `path` with `first` put in front of it, if there is a path.
pub open spec fn prepend(first: nat, path: Option<Seq<nat>>) -> Option<Seq<nat>> {
    match path {
        Some(rest) => Some(seq![first] + rest),
        None => None,
    }
}

/// The way from the root of `tree` to the node at position `idx`: for each
/// step down, which child is taken. `None` if the tree has no such node.
pub open spec fn path_of(tree: Tree, idx: nat) -> Option<Seq<nat>>
    decreases tree, 0nat,
{
    if idx == 0 {
        Some(Seq::empty())
    } else {
        match tree {
            Tree::Element { children, .. } => path_among(
                children,
                children.len(),
                (idx - 1) as nat,
            ),
            Tree::Text { .. } => None,
        }
    }
}

/// The way to the node at position `idx` among the first `n` trees of
/// `trees`, where the root of the first tree has position 0 and the trees
/// are counted through one after the other.
pub open spec fn path_among(trees: Seq<Tree>, n: nat, idx: nat) -> Option<Seq<nat>>
    decreases trees, n,
{
    if 0 < n <= trees.len() {
        let before = nodes_in(trees, (n - 1) as nat);
        if idx < before {
            path_among(trees, (n - 1) as nat, idx)
        } else {
            prepend((n - 1) as nat, path_of(trees[n - 1], (idx - before) as nat))
        }
    } else {
        None
    }
}

/// Every tree has at least its root.
pub proof fn lemma_node_count_positive(tree: Tree)
    ensures
        tree.node_count() >= 1,
{
}

/// Counting more trees never gives less.
pub proof fn lemma_nodes_in_monotonic(trees: Seq<Tree>, m: nat, n: nat)
    requires
        m <= n <= trees.len(),
    ensures
        nodes_in(trees, m) <= nodes_in(trees, n),
    decreases n,
{
    if m < n {
        lemma_nodes_in_monotonic(trees, m, (n - 1) as nat);
    }
}

/// A position has a path exactly if it is below the number of nodes.
pub proof fn lemma_path_of_exists(tree: Tree, idx: nat)
    ensures
        path_of(tree, idx) is Some <==> idx < tree.node_count(),
    decreases tree, 0nat,
{
    if idx > 0 {
        match tree {
            Tree::Element { children, .. } => {
                lemma_path_among_exists(children, children.len(), (idx - 1) as nat);
            },
            Tree::Text { .. } => {},
        }
    }
}

/// A position has a path among the first `n` trees exactly if it is below
/// the number of their nodes.
pub proof fn lemma_path_among_exists(trees: Seq<Tree>, n: nat, idx: nat)
    requires
        n <= trees.len(),
    ensures
        path_among(trees, n, idx) is Some <==> idx < nodes_in(trees, n),
    decreases trees, n,
{
    if 0 < n {
        let before = nodes_in(trees, (n - 1) as nat);
        if idx < before {
            lemma_path_among_exists(trees, (n - 1) as nat, idx);
        } else {
            lemma_path_of_exists(trees[n - 1], (idx - before) as nat);
        }
    }
}

/// The path to a position inside the child `i` goes to that child first and
/// then on as the child's own path does.
pub proof fn lemma_path_among_child(trees: Seq<Tree>, n: nat, i: nat, idx: nat)
    requires
        i < n <= trees.len(),
        nodes_in(trees, i) <= idx < nodes_in(trees, i + 1),
    ensures
        path_among(trees, n, idx) == prepend(
            i,
            path_of(trees[i as int], (idx - nodes_in(trees, i)) as nat),
        ),
    decreases n,
{
    if n - 1 > i {
        lemma_nodes_in_monotonic(trees, i + 1, (n - 1) as nat);
        lemma_path_among_child(trees, (n - 1) as nat, i, idx);
    }
}

} // verus!
