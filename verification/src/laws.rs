//! What holds of every diff, of every apply and of every reading of tags.

use crate::attributes::{added_attributes, differs, removed_attributes};
use crate::diff::{
    attribute_edits, child_count_edits, diff_children, diff_node, diff_trees, replaces, shorter,
};
use crate::edit::{
    apply_all, apply_at, apply_edits, apply_first, lemma_apply_at_root, lemma_apply_concat,
    lemma_apply_one, Edit, Outcome,
};
use crate::html_parser::{
    accepts_all, read_all, self_closing, tags_of, tags_of_all, writable, Reading, TagView,
};
use crate::tree::{
    lemma_nodes_in_monotonic, lemma_path_among_child, lemma_path_of_exists, nodes_in, path_of,
    Tree,
};
use vstd::prelude::*;

verus! {

/// A tree compared with itself needs no edit.
pub proof fn diff_same_is_empty(tree: Tree)
    ensures
        diff_trees(tree, tree) == Seq::<Edit>::empty(),
{
    lemma_diff_node_same(tree, 0);
}

/// A tree at any position, compared with itself, needs no edit.
pub proof fn lemma_diff_node_same(tree: Tree, idx: nat)
    ensures
        diff_node(tree, tree, idx) == Seq::<Edit>::empty(),
    decreases tree, 0nat,
{
    match tree {
        Tree::Element { attributes, children, .. } => {
            assert(added_attributes(attributes, attributes) =~= Map::empty());
            assert(removed_attributes(attributes, attributes) =~= Set::empty());
            lemma_diff_children_same(children, children.len(), idx + 1);
        },
        Tree::Text { .. } => {},
    }
}

/// Children compared with themselves need no edit.
pub proof fn lemma_diff_children_same(trees: Seq<Tree>, n: nat, first: nat)
    requires
        n <= trees.len(),
    ensures
        diff_children(trees, trees, n, first) == Seq::<Edit>::empty(),
    decreases trees, n,
{
    if n > 0 {
        lemma_diff_children_same(trees, (n - 1) as nat, first);
        lemma_diff_node_same(trees[n - 1], first + nodes_in(trees, (n - 1) as nat));
    }
}

/// Every edit of a diff names a node of the old tree: its position is below
/// the number of the old tree's nodes.
pub proof fn diff_positions_are_valid(old: Tree, new: Tree, k: int)
    requires
        0 <= k < diff_trees(old, new).len(),
    ensures
        diff_trees(old, new)[k].node_idx() < old.node_count(),
{
    lemma_diff_node_positions(old, new, 0, k);
}

/// Every edit for a tree at position `idx` names a node of that tree.
pub proof fn lemma_diff_node_positions(old: Tree, new: Tree, idx: nat, k: int)
    requires
        0 <= k < diff_node(old, new, idx).len(),
    ensures
        idx <= diff_node(old, new, idx)[k].node_idx() < idx + old.node_count(),
    decreases old, 0nat,
{
    if !replaces(old, new) {
        match old {
            Tree::Element { attributes, children, .. } => {
                let own = attribute_edits(attributes, new->attributes, idx) + child_count_edits(
                    children,
                    new->children,
                    idx,
                );
                let n = shorter(children.len(), new->children.len());
                if k >= own.len() {
                    lemma_diff_children_positions(
                        children,
                        new->children,
                        n,
                        idx + 1,
                        k - own.len(),
                    );
                    lemma_nodes_in_monotonic(children, n, children.len());
                }
            },
            Tree::Text { .. } => {},
        }
    }
}

/// Every edit for the first `n` children names a node of one of them.
pub proof fn lemma_diff_children_positions(
    olds: Seq<Tree>,
    news: Seq<Tree>,
    n: nat,
    first: nat,
    k: int,
)
    requires
        n <= olds.len(),
        0 <= k < diff_children(olds, news, n, first).len(),
    ensures
        first <= diff_children(olds, news, n, first)[k].node_idx() < first + nodes_in(olds, n),
    decreases olds, n,
{
    if n > 0 {
        let front = diff_children(olds, news, (n - 1) as nat, first);
        if k < front.len() {
            lemma_diff_children_positions(olds, news, (n - 1) as nat, first, k);
        } else {
            lemma_diff_node_positions(
                olds[n - 1],
                news[n - 1],
                first + nodes_in(olds, (n - 1) as nat),
                k - front.len(),
            );
        }
    }
}

/// Carrying out the edits of a diff on the old tree gives the new tree.
pub proof fn diff_then_patch_round_trip(old: Tree, new: Tree)
    ensures
        apply_edits(old, diff_trees(old, new)) == (Outcome { tree: new, error: None }),
{
    lemma_round_trip_node(old, new, 0);
}

/// Carrying out the edits for a tree at any position on that tree gives
/// the new tree.
pub proof fn lemma_round_trip_node(old: Tree, new: Tree, base: nat)
    ensures
        apply_all(old, old, diff_node(old, new, base), base) == (Outcome {
            tree: new,
            error: None,
        }),
    decreases old, 1nat, 0nat,
{
    if replaces(old, new) {
        let edit = Edit::Replace(base, new);
        lemma_apply_one(old, old, edit, base);
        lemma_apply_at_root(old, old, edit, base);
    } else {
        match old {
            Tree::Text { content } => {
                if content != new->content {
                    let edit = Edit::ChangeText(base, new->content);
                    lemma_apply_one(old, old, edit, base);
                    lemma_apply_at_root(old, old, edit, base);
                }
            },
            Tree::Element { tag, attributes, children } => {
                let own = attribute_edits(attributes, new->attributes, base) + child_count_edits(
                    children,
                    new->children,
                    base,
                );
                let n = shorter(children.len(), new->children.len());
                let below = diff_children(children, new->children, n, base + 1);
                let counted = children_after_count_edits(children, new->children);
                let middle = Tree::Element { tag, attributes: new->attributes, children: counted };
                lemma_own_edits(old, new, old, base);
                lemma_round_trip_children(old, middle, new->children, n, base);
                lemma_apply_concat(old, old, own, below, base);
                assert(children_updated(counted, new->children, n) =~= new->children);
            },
        }
    }
}

/// Carrying out the edits for the first `n` children brings these up to
/// date and leaves the rest of the element as it is.
pub proof fn lemma_round_trip_children(
    initial: Tree,
    current: Tree,
    news: Seq<Tree>,
    n: nat,
    base: nat,
)
    requires
        initial is Element,
        current is Element,
        n <= initial->children.len(),
        n <= news.len(),
        n <= current->children.len(),
        forall|j: int| 0 <= j < n ==> current->children[j] == initial->children[j],
    ensures
        apply_all(
            initial,
            current,
            diff_children(initial->children, news, n, base + 1),
            base,
        ) == (Outcome {
            tree: current.with_children(children_updated(current->children, news, n)),
            error: None,
        }),
    decreases initial, 0nat, n,
{
    let olds = initial->children;
    if n == 0 {
        assert(children_updated(current->children, news, 0) =~= current->children);
    } else {
        let m = (n - 1) as nat;
        let front = diff_children(olds, news, m, base + 1);
        let child_base = base + 1 + nodes_in(olds, m);
        let last = diff_node(olds[m as int], news[m as int], child_base);
        lemma_round_trip_children(initial, current, news, m, base);
        let before = current.with_children(children_updated(current->children, news, m));
        lemma_round_trip_node(olds[m as int], news[m as int], child_base);
        assert forall|k: int| 0 <= k < last.len() implies child_base <= (
        #[trigger] last[k]).node_idx() < base + 1 + nodes_in(olds, m + 1) by {
            lemma_diff_node_positions(olds[m as int], news[m as int], child_base, k);
        }
        lemma_apply_in_child(initial, before, last, base, m, last.len());
        lemma_apply_concat(initial, current, front, last, base);
        assert(before->children.update(m as int, news[m as int]) =~= children_updated(
            current->children,
            news,
            n,
        ));
    }
}

/// What the edits to the root of an element make of it: it has the new
/// attributes and as many children as the new element, of which those
/// that the old element had are still the old ones.
pub proof fn lemma_own_edits(old: Tree, new: Tree, current: Tree, base: nat)
    requires
        old is Element,
        new is Element,
        current is Element,
        current->attributes == old->attributes,
        current->children == old->children,
    ensures
        apply_all(
            old,
            current,
            attribute_edits(old->attributes, new->attributes, base) + child_count_edits(
                old->children,
                new->children,
                base,
            ),
            base,
        ) == (Outcome {
            tree: Tree::Element {
                tag: current->tag,
                attributes: new->attributes,
                children: children_after_count_edits(old->children, new->children),
            },
            error: None,
        }),
{
    let add = added_attributes(old->attributes, new->attributes);
    let remove = removed_attributes(old->attributes, new->attributes);
    let adding = if add == Map::<Seq<char>, Seq<char>>::empty() {
        Seq::<Edit>::empty()
    } else {
        seq![Edit::AddAttributes(base, add)]
    };
    let removing = if remove == Set::<Seq<char>>::empty() {
        Seq::<Edit>::empty()
    } else {
        seq![Edit::RemoveAttributes(base, remove)]
    };
    let counting = child_count_edits(old->children, new->children, base);
    let tag = current->tag;
    let olds = old->children;

    let added = Tree::Element {
        tag,
        attributes: old->attributes.union_prefer_right(add),
        children: olds,
    };
    assert(apply_all(old, current, adding, base) == Outcome { tree: added, error: None }) by {
        if add == Map::<Seq<char>, Seq<char>>::empty() {
            assert(old->attributes.union_prefer_right(add) =~= old->attributes);
        } else {
            lemma_apply_one(old, current, Edit::AddAttributes(base, add), base);
            lemma_apply_at_root(old, current, Edit::AddAttributes(base, add), base);
        }
    }
    let removed = Tree::Element { tag, attributes: new->attributes, children: olds };
    assert(apply_all(old, added, removing, base) == Outcome { tree: removed, error: None }) by {
        lemma_attributes_round_trip(old->attributes, new->attributes);
        if remove == Set::<Seq<char>>::empty() {
            assert(added->attributes.remove_keys(remove) =~= added->attributes);
        } else {
            lemma_apply_one(old, added, Edit::RemoveAttributes(base, remove), base);
            lemma_apply_at_root(old, added, Edit::RemoveAttributes(base, remove), base);
        }
    }
    let counted = Tree::Element {
        tag,
        attributes: new->attributes,
        children: children_after_count_edits(olds, new->children),
    };
    assert(apply_all(old, removed, counting, base) == Outcome { tree: counted, error: None }) by {
        if new->children.len() > olds.len() {
            let edit = Edit::AppendChildren(base, new->children.skip(olds.len() as int));
            lemma_apply_one(old, removed, edit, base);
            lemma_apply_at_root(old, removed, edit, base);
        } else if new->children.len() < olds.len() {
            let edit = Edit::TruncateChildren(base, new->children.len());
            lemma_apply_one(old, removed, edit, base);
            lemma_apply_at_root(old, removed, edit, base);
        } else {
            assert(olds.take(new->children.len() as int) =~= olds);
        }
    }
    lemma_apply_concat(old, current, adding, removing, base);
    lemma_apply_concat(old, current, adding + removing, counting, base);
}

/// The children that the edit to the number of children leaves: the old
/// ones that stay, and behind them the new trailing ones.
pub open spec fn children_after_count_edits(olds: Seq<Tree>, news: Seq<Tree>) -> Seq<Tree> {
    if news.len() > olds.len() {
        olds + news.skip(olds.len() as int)
    } else {
        olds.take(news.len() as int)
    }
}

/// The children after the first `n` of them were brought up to date.
pub open spec fn children_updated(current: Seq<Tree>, news: Seq<Tree>, n: nat) -> Seq<Tree> {
    Seq::new(current.len(), |j: int| if j < n { news[j] } else { current[j] })
}

/// The attributes that the attribute edits leave are the new ones.
pub proof fn lemma_attributes_round_trip(
    old: Map<Seq<char>, Seq<char>>,
    new: Map<Seq<char>, Seq<char>>,
)
    ensures
        old.union_prefer_right(added_attributes(old, new)).remove_keys(
            removed_attributes(old, new),
        ) == new,
{
    let after = old.union_prefer_right(added_attributes(old, new)).remove_keys(
        removed_attributes(old, new),
    );
    assert forall|name: Seq<char>| after.contains_key(name) <==> new.contains_key(name) by {
        if new.contains_key(name) && !differs(old, (name, new[name])) {
            assert(old.contains_key(name));
        }
    }
    assert forall|name: Seq<char>| #[trigger] after.contains_key(name) implies after[name]
        == new[name] by {
        if !differs(old, (name, new[name])) {
            assert(old[name] == new[name]);
        }
    }
    assert(after =~= new);
}

/// Edits that name nodes of one child only change that child only, and
/// change it as they would if the child stood alone.
pub proof fn lemma_apply_in_child(
    initial: Tree,
    current: Tree,
    edits: Seq<Edit>,
    base: nat,
    i: nat,
    n: nat,
)
    requires
        initial is Element,
        current is Element,
        i < initial->children.len(),
        i < current->children.len(),
        n <= edits.len(),
        forall|k: int|
            0 <= k < edits.len() ==> base + 1 + nodes_in(initial->children, i) <= (
            #[trigger] edits[k]).node_idx() < base + 1 + nodes_in(initial->children, i + 1),
    ensures
        ({
            let inner = apply_first(
                initial->children[i as int],
                current->children[i as int],
                edits,
                base + 1 + nodes_in(initial->children, i),
                n,
            );
            apply_first(initial, current, edits, base, n) == (Outcome {
                tree: current.with_children(current->children.update(i as int, inner.tree)),
                error: inner.error,
            })
        }),
    decreases n,
{
    let olds = initial->children;
    let child_base = base + 1 + nodes_in(olds, i);
    if n == 0 {
        assert(current->children.update(i as int, current->children[i as int])
            =~= current->children);
    } else {
        lemma_apply_in_child(initial, current, edits, base, i, (n - 1) as nat);
        let inner_before = apply_first(
            olds[i as int],
            current->children[i as int],
            edits,
            child_base,
            (n - 1) as nat,
        );
        let before = apply_first(initial, current, edits, base, (n - 1) as nat);
        if inner_before.error is None {
            let edit = edits[n - 1];
            let inside = (edit.node_idx() - child_base) as nat;
            lemma_path_of_exists(olds[i as int], inside);
            lemma_path_among_child(olds, olds.len(), i, (edit.node_idx() - base - 1) as nat);
            let path = path_of(olds[i as int], inside)->Some_0;
            let whole = seq![i] + path;
            assert(path_of(initial, (edit.node_idx() - base) as nat) == Some(whole));
            assert(whole.skip(1) =~= path);
            assert(whole[0] == i);
            let children_before = current->children.update(i as int, inner_before.tree);
            assert(before.tree->children == children_before);
            match apply_at(inner_before.tree, path, edit) {
                Ok(child) => {
                    assert(children_before.update(i as int, child) =~= current->children.update(
                        i as int,
                        child,
                    ));
                },
                Err(_) => {},
            }
        }
    }
}

/// Reading the tags of a tree from the start, and closing what is open,
/// gives the tree back; and every tag can be read when its turn comes.
pub proof fn written_tree_reads_back(tree: Tree)
    requires
        writable(tree),
    ensures
        read_all(Reading::start(), tags_of(tree), tags_of(tree).len()).finished() == Some(tree),
        accepts_all(Reading::start(), tags_of(tree), tags_of(tree).len()),
{
    lemma_read_tree(Reading::start(), tree);
}

/// Reading the tags of a tree where a node has a place puts the tree in
/// that place, and every tag can be read when its turn comes.
pub proof fn lemma_read_tree(reading: Reading, tree: Tree)
    requires
        reading.has_room(),
        writable(tree),
    ensures
        read_all(reading, tags_of(tree), tags_of(tree).len()) == reading.attach(tree),
        accepts_all(reading, tags_of(tree), tags_of(tree).len()),
    decreases tree, 1nat, 0nat,
{
    reveal_with_fuel(read_all, 2);
    match tree {
        Tree::Text { .. } => {},
        Tree::Element { tag, attributes, children } => {
            let opening = seq![TagView::Open { name: tag, attributes }];
            let bare = Tree::Element { tag, attributes, children: Seq::empty() };
            if self_closing(tag) {
                assert(children =~= Seq::empty());
            } else {
                let closing = seq![TagView::Close { name: tag }];
                let inner = tags_of_all(children, children.len());
                let opened = Reading { open: reading.open.push(bare), root: reading.root };
                assert(read_all(reading, opening, 1) == opened);
                lemma_read_children(opened, children, children.len());
                let filled = read_all(opened, inner, inner.len());
                lemma_read_concat(reading, opening, inner, inner.len());
                lemma_accepts_concat(reading, opening, inner);
                lemma_read_concat(reading, opening + inner, closing, 1);
                lemma_accepts_concat(reading, opening + inner, closing);
                assert(filled.open.drop_last() =~= reading.open);
                assert(bare.children() + children.take(children.len() as int) =~= children);
            }
        },
    }
}

/// Reading the tags of the first `n` children while an element is open
/// puts these children behind the children that the element has.
pub proof fn lemma_read_children(reading: Reading, trees: Seq<Tree>, n: nat)
    requires
        reading.open.len() > 0,
        n <= trees.len(),
        forall|i: int| 0 <= i < trees.len() ==> writable(#[trigger] trees[i]),
    ensures
        ({
            let tags = tags_of_all(trees, n);
            let top = reading.open.last();
            &&& read_all(reading, tags, tags.len()) == (Reading {
                open: reading.open.drop_last().push(
                    top.with_children(top.children() + trees.take(n as int)),
                ),
                root: reading.root,
            })
            &&& accepts_all(reading, tags, tags.len())
        }),
    decreases trees, n,
{
    let top = reading.open.last();
    if n == 0 {
        assert(top.children() + trees.take(0) =~= top.children());
        assert(reading.open.drop_last().push(top.with_children(top.children()))
            =~= reading.open);
    } else {
        let m = (n - 1) as nat;
        let front = tags_of_all(trees, m);
        let last = tags_of(trees[m as int]);
        lemma_read_children(reading, trees, m);
        let before = read_all(reading, front, front.len());
        lemma_read_tree(before, trees[m as int]);
        lemma_read_concat(reading, front, last, last.len());
        lemma_accepts_concat(reading, front, last);
        assert(before.open.drop_last() =~= reading.open.drop_last());
        assert((top.children() + trees.take(m as int)).push(trees[m as int]) =~= top.children()
            + trees.take(n as int));
    }
}

/// Reading one list of tags and then another is reading the two put
/// together.
pub proof fn lemma_read_concat(reading: Reading, first: Seq<TagView>, second: Seq<TagView>, n: nat)
    requires
        n <= second.len(),
    ensures
        read_all(reading, first + second, first.len() + n) == read_all(
            read_all(reading, first, first.len()),
            second,
            n,
        ),
    decreases n,
{
    if n == 0 {
        lemma_read_prefix(reading, first + second, first, first.len());
    } else {
        lemma_read_concat(reading, first, second, (n - 1) as nat);
        assert((first + second)[first.len() + n - 1] == second[n - 1]);
    }
}

/// The first `n` tags decide the reading after them.
pub proof fn lemma_read_prefix(reading: Reading, tags: Seq<TagView>, others: Seq<TagView>, n: nat)
    requires
        n <= tags.len(),
        n <= others.len(),
        forall|i: int| 0 <= i < n ==> tags[i] == others[i],
    ensures
        read_all(reading, tags, n) == read_all(reading, others, n),
    decreases n,
{
    if n > 0 {
        lemma_read_prefix(reading, tags, others, (n - 1) as nat);
    }
}

/// Where every tag of two lists can be read in its turn, every tag of the
/// two put together can.
pub proof fn lemma_accepts_concat(reading: Reading, first: Seq<TagView>, second: Seq<TagView>)
    requires
        accepts_all(reading, first, first.len()),
        accepts_all(read_all(reading, first, first.len()), second, second.len()),
    ensures
        accepts_all(reading, first + second, (first + second).len()),
{
    let both = first + second;
    assert forall|k: int| 0 <= k < both.len() implies read_all(reading, both, k as nat).accepts(
        #[trigger] both[k],
    ) by {
        if k < first.len() {
            lemma_read_prefix(reading, both, first, k as nat);
            assert(both[k] == first[k]);
        } else {
            lemma_read_concat(reading, first, second, (k - first.len()) as nat);
            assert(both[k] == second[k - first.len()]);
        }
    }
}

} // verus!
