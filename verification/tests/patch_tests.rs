use virtual_dom_rs::{
    diff, find_nodes_to_patch, patch, Attributes, DomElement, DomNode, DomUpdater, Patch,
    PatchError, VElement, VText, VirtualNode,
};

fn element(tag: &str, attrs: &[(&str, &str)], children: Vec<VirtualNode>) -> VirtualNode {
    let mut attributes = Attributes::new();
    for (name, value) in attrs {
        attributes.insert(name.to_string(), value.to_string());
    }
    VirtualNode::Element(VElement { tag: tag.to_string(), attrs: attributes, children })
}

fn empty(tag: &str) -> VirtualNode {
    element(tag, &[], vec![])
}

fn text(content: &str) -> VirtualNode {
    VirtualNode::text(content)
}

/// Shows `old`, patches what is shown with the diff to `new`, and holds the
/// result against what `new` shows.
fn round_trip(old: VirtualNode, new: VirtualNode) {
    let mut live = old.create_element();
    let patches = diff(&old, &new);
    assert_eq!(patch(&mut live, &patches), Ok(()));
    assert_eq!(live, new.create_element());
}

#[test]
fn round_trip_replaces_root() {
    round_trip(empty("div"), empty("span"));
    round_trip(text("Old"), empty("span"));
    round_trip(empty("span"), text("New"));
}

#[test]
fn round_trip_changes_text() {
    round_trip(text("Old"), text("New"));
    round_trip(
        element("div", &[], vec![text("a"), text("b")]),
        element("div", &[], vec![text("a"), text("c")]),
    );
}

#[test]
fn round_trip_changes_attributes() {
    round_trip(
        element("div", &[("id", "a"), ("class", "x"), ("style", "s")], vec![]),
        element("div", &[("class", "y"), ("id", "a"), ("title", "t")], vec![]),
    );
}

#[test]
fn round_trip_grows_and_shrinks() {
    round_trip(
        element("div", &[], vec![empty("b")]),
        element("div", &[], vec![empty("b"), element("i", &[], vec![text("x")]), text("tail")]),
    );
    round_trip(
        element("div", &[], vec![empty("b"), element("i", &[], vec![text("x")]), text("tail")]),
        element("div", &[], vec![empty("b")]),
    );
    round_trip(element("div", &[], vec![empty("b"), empty("i")]), empty("div"));
}

#[test]
fn round_trip_deep_tree() {
    let old = element(
        "div",
        &[("id", "root")],
        vec![
            element("b", &[], vec![empty("i"), empty("i")]),
            element("b", &[("k", "v")], vec![text("1")]),
            element("ul", &[], vec![element("li", &[], vec![text("one")]), empty("li")]),
            text("end"),
        ],
    );
    let new = element(
        "div",
        &[("id", "top")],
        vec![
            element("b", &[], vec![empty("i")]),
            element("i", &[], vec![text("1")]),
            element(
                "ul",
                &[("class", "list")],
                vec![
                    element("li", &[], vec![text("uno")]),
                    element("li", &[], vec![text("dos")]),
                    empty("li"),
                ],
            ),
        ],
    );
    round_trip(old, new);
}

#[test]
fn same_snapshot_needs_no_patch() {
    let tree = element(
        "div",
        &[("id", "a"), ("class", "b")],
        vec![element("span", &[], vec![text("x")]), text("y")],
    );
    let same = element(
        "div",
        &[("class", "b"), ("id", "a")],
        vec![element("span", &[], vec![text("x")]), text("y")],
    );
    assert_eq!(diff(&tree, &tree), vec![]);
    assert_eq!(diff(&tree, &same), vec![]);
}

#[test]
fn every_patch_names_a_node_of_the_old_snapshot() {
    let old = element(
        "div",
        &[],
        vec![element("b", &[], vec![empty("i"), empty("i")]), empty("b"), text("t")],
    );
    let new = element(
        "div",
        &[("id", "x")],
        vec![element("b", &[("a", "b")], vec![empty("u")]), empty("i"), text("u"), empty("p")],
    );
    assert_eq!(old.node_count(), Some(6));
    let patches = diff(&old, &new);
    assert!(!patches.is_empty());
    for patch in &patches {
        assert!(patch.node_idx() < 6);
    }
}

#[test]
fn patch_reports_a_missing_node() {
    let mut live = element("div", &[], vec![empty("b")]).create_element();
    let before = element("div", &[], vec![empty("b")]).create_element();
    let patches = vec![Patch::TruncateChildren(2, 0)];
    assert_eq!(patch(&mut live, &patches), Err(PatchError::NodeNotFound(2)));
    assert_eq!(live, before);
}

#[test]
fn patch_reports_a_node_that_is_gone() {
    let mut live = element("div", &[], vec![element("b", &[], vec![empty("i")])]).create_element();
    let keep = [("id", "x")];
    let patches = vec![
        Patch::TruncateChildren(0, 0),
        Patch::AddAttributes(2, keep.to_vec()),
    ];
    assert_eq!(patch(&mut live, &patches), Err(PatchError::NodeNotFound(2)));
    assert_eq!(live, empty("div").create_element());
}

#[test]
fn patch_reports_a_text_where_an_element_is_needed() {
    let mut live = element("div", &[], vec![text("t")]).create_element();
    let before = element("div", &[], vec![text("t")]).create_element();
    let child = empty("b");
    assert_eq!(
        patch(&mut live, &vec![Patch::AppendChildren(1, vec![&child])]),
        Err(PatchError::ExpectedElement(1))
    );
    assert_eq!(
        patch(&mut live, &vec![Patch::TruncateChildren(1, 0)]),
        Err(PatchError::ExpectedElement(1))
    );
    assert_eq!(
        patch(&mut live, &vec![Patch::AddAttributes(1, vec![("a", "b")])]),
        Err(PatchError::ExpectedElement(1))
    );
    assert_eq!(
        patch(&mut live, &vec![Patch::RemoveAttributes(1, vec!["a"])]),
        Err(PatchError::ExpectedElement(1))
    );
    assert_eq!(live, before);
}

#[test]
fn patch_reports_an_element_where_a_text_is_needed() {
    let mut live = element("div", &[], vec![text("t")]).create_element();
    let new_text = VText::new("u");
    assert_eq!(
        patch(&mut live, &vec![Patch::ChangeText(0, &new_text)]),
        Err(PatchError::ExpectedText(0))
    );
    assert_eq!(patch(&mut live, &vec![Patch::ChangeText(1, &new_text)]), Ok(()));
    assert_eq!(live, element("div", &[], vec![text("u")]).create_element());
}

#[test]
fn patch_stops_at_the_first_failure() {
    let mut live = element("div", &[], vec![text("t")]).create_element();
    let new_text = VText::new("u");
    let patches = vec![
        Patch::AddAttributes(0, vec![("id", "x")]),
        Patch::ChangeText(0, &new_text),
        Patch::ChangeText(1, &new_text),
    ];
    assert_eq!(patch(&mut live, &patches), Err(PatchError::ExpectedText(0)));
    assert_eq!(live, element("div", &[("id", "x")], vec![text("t")]).create_element());
}

#[test]
fn patches_find_their_nodes_in_the_tree_as_it_was() {
    // Position 3 is the second child of the root as long as the first child
    // has its two children; the patch for it still reaches the second child
    // after the first has lost them.
    let mut live = element(
        "div",
        &[],
        vec![element("b", &[], vec![empty("i"), empty("i")]), empty("b")],
    )
    .create_element();
    let replacement = empty("u");
    let patches = vec![Patch::TruncateChildren(1, 0), Patch::Replace(4, &replacement)];
    assert_eq!(patch(&mut live, &patches), Ok(()));
    assert_eq!(live, element("div", &[], vec![empty("b"), empty("u")]).create_element());
}

#[test]
fn truncate_keeps_what_is_there_when_asked_to_keep_more() {
    let mut live = element("div", &[], vec![empty("b")]).create_element();
    assert_eq!(patch(&mut live, &vec![Patch::TruncateChildren(0, 5)]), Ok(()));
    assert_eq!(live, element("div", &[], vec![empty("b")]).create_element());
}

#[test]
fn add_attributes_lets_the_later_pair_decide() {
    let mut live = empty("div").create_element();
    let patches = vec![Patch::AddAttributes(0, vec![("id", "a"), ("id", "b")])];
    assert_eq!(patch(&mut live, &patches), Ok(()));
    assert_eq!(live, element("div", &[("id", "b")], vec![]).create_element());
}

#[test]
fn remove_attributes_passes_over_a_missing_name() {
    let mut live = element("div", &[("id", "a")], vec![]).create_element();
    let patches = vec![Patch::RemoveAttributes(0, vec!["class", "id"])];
    assert_eq!(patch(&mut live, &patches), Ok(()));
    assert_eq!(live, empty("div").create_element());
}

#[test]
fn create_element_copies_the_snapshot() {
    let snapshot = element("div", &[("id", "a")], vec![text("t"), empty("b")]);
    let mut attributes = Attributes::new();
    attributes.insert("id".to_string(), "a".to_string());
    let expected = DomNode::Element(DomElement {
        tag: "div".to_string(),
        attributes,
        child_nodes: vec![
            DomNode::Text("t".to_string()),
            DomNode::Element(DomElement {
                tag: "b".to_string(),
                attributes: Attributes::new(),
                child_nodes: vec![],
            }),
        ],
    });
    assert_eq!(snapshot.create_element(), expected);
}

#[test]
fn updater_shows_the_latest_snapshot() {
    let first = element("div", &[("id", "a")], vec![text("one")]);
    let mut updater = DomUpdater::new(first);
    assert_eq!(
        *updater.root_node(),
        element("div", &[("id", "a")], vec![text("one")]).create_element()
    );
    updater.update(element("div", &[("id", "b")], vec![text("two"), empty("hr")]));
    assert_eq!(
        *updater.root_node(),
        element("div", &[("id", "b")], vec![text("two"), empty("hr")]).create_element()
    );
    updater.update(text("done"));
    assert_eq!(*updater.root_node(), DomNode::Text("done".to_string()));
}

#[test]
fn node_count_counts_every_node() {
    assert_eq!(text("t").node_count(), Some(1));
    assert_eq!(empty("div").node_count(), Some(1));
    let tree = element(
        "div",
        &[],
        vec![element("b", &[], vec![text("1"), empty("i")]), text("2")],
    );
    assert_eq!(tree.node_count(), Some(5));
}

#[test]
fn nodes_are_found_by_their_positions() {
    //         0
    //     1       4
    //   2   3   5 6 7
    let live = element(
        "div",
        &[],
        vec![
            element("a", &[], vec![empty("b"), empty("c")]),
            element("d", &[], vec![empty("e"), text("f"), empty("g")]),
        ],
    )
    .create_element();
    let node = empty("x");
    let patches = vec![
        Patch::Replace(7, &node),
        Patch::TruncateChildren(0, 2),
        Patch::Replace(3, &node),
        Patch::TruncateChildren(4, 3),
        Patch::Replace(6, &node),
        Patch::Replace(8, &node),
        Patch::Replace(3, &node),
    ];
    let found = find_nodes_to_patch(&live, &patches);
    assert_eq!(found.len(), 5);
    assert_eq!(found.get(&0), Some(&vec![]));
    assert_eq!(found.get(&3), Some(&vec![0, 1]));
    assert_eq!(found.get(&4), Some(&vec![1]));
    assert_eq!(found.get(&6), Some(&vec![1, 1]));
    assert_eq!(found.get(&7), Some(&vec![1, 2]));
    assert_eq!(found.get(&8), None);
    assert!(find_nodes_to_patch(&live, &vec![]).is_empty());
}

#[test]
fn live_elements_take_attributes_and_children() {
    let mut live = DomElement {
        tag: "div".to_string(),
        attributes: Attributes::new(),
        child_nodes: vec![],
    };
    live.set_attribute("id", "a");
    live.set_attribute("class", "c");
    live.set_attribute("id", "b");
    live.remove_attribute("class");
    live.remove_attribute("title");
    live.append_child(DomNode::Text("t".to_string()));
    live.append_child(empty("b").create_element());
    assert_eq!(
        DomNode::Element(live),
        element("div", &[("id", "b")], vec![text("t"), empty("b")]).create_element()
    );
}

#[test]
fn updater_hands_out_the_snapshot_that_is_shown() {
    let mut updater = DomUpdater::new(empty("div"));
    assert_eq!(*updater.current_vdom(), empty("div"));
    updater.update(element("p", &[("id", "x")], vec![]));
    assert_eq!(*updater.current_vdom(), element("p", &[("id", "x")], vec![]));
    assert_eq!(*updater.root_node(), updater.current_vdom().create_element());
}
