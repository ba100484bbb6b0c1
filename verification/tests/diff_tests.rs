use virtual_dom_rs::{diff, Attributes, Patch, VElement, VText, VirtualNode};

fn element(tag: &str, attrs: &[(&str, &str)], children: Vec<VirtualNode>) -> VirtualNode {
    let mut attributes = Attributes::new();
    for (name, value) in attrs {
        attributes.insert(name.to_string(), value.to_string());
    }
    VirtualNode::Element(VElement { tag: tag.to_string(), attrs: attributes, children })
}

fn empty(tag: &str) -> VirtualNode {
    element(tag, &[], vec![])
}

struct DiffTestCase<'a> {
    old: VirtualNode,
    new: VirtualNode,
    expected: Vec<Patch<'a>>,
    description: &'static str,
}

impl<'a> DiffTestCase<'a> {
    fn test(&self) {
        let patches = diff(&self.old, &self.new);
        assert_eq!(patches, self.expected, "{}", self.description);
    }
}

#[test]
fn replace_node() {
    DiffTestCase {
        old: empty("div"),
        new: empty("span"),
        expected: vec![Patch::Replace(0, &empty("span"))],
        description: "Replace the root if the tag changed",
    }
    .test();
    DiffTestCase {
        old: element("div", &[], vec![empty("b")]),
        new: element("div", &[], vec![empty("strong")]),
        expected: vec![Patch::Replace(1, &empty("strong"))],
        description: "Replace a child node",
    }
    .test();
    DiffTestCase {
        old: element(
            "div",
            &[],
            vec![element("b", &[], vec![VirtualNode::text("1")]), empty("b")],
        ),
        new: element(
            "div",
            &[],
            vec![element("i", &[], vec![VirtualNode::text("1")]), empty("i")],
        ),
        expected: vec![
            Patch::Replace(1, &element("i", &[], vec![VirtualNode::text("1")])),
            Patch::Replace(3, &empty("i")),
        ],
        description: "Replace node with a child",
    }
    .test();
}

#[test]
fn add_children() {
    DiffTestCase {
        old: element("div", &[], vec![empty("b")]),
        new: element("div", &[], vec![empty("b"), empty("new")]),
        expected: vec![Patch::AppendChildren(0, vec![&empty("new")])],
        description: "Added a new node to the root node",
    }
    .test();
}

#[test]
fn remove_nodes() {
    DiffTestCase {
        old: element("div", &[], vec![empty("b"), empty("span")]),
        new: empty("div"),
        expected: vec![Patch::TruncateChildren(0, 0)],
        description: "Remove all child nodes at and after child sibling index 1",
    }
    .test();
    DiffTestCase {
        old: element(
            "div",
            &[],
            vec![element("span", &[], vec![empty("b"), empty("i")]), empty("strong")],
        ),
        new: element("div", &[], vec![element("span", &[], vec![empty("b")])]),
        expected: vec![Patch::TruncateChildren(0, 1), Patch::TruncateChildren(1, 1)],
        description: "Remove a child and a grandchild node",
    }
    .test();
    DiffTestCase {
        old: element(
            "div",
            &[],
            vec![element("b", &[], vec![empty("i"), empty("i")]), empty("b")],
        ),
        new: element("div", &[], vec![element("b", &[], vec![empty("i")]), empty("i")]),
        expected: vec![Patch::TruncateChildren(1, 1), Patch::Replace(4, &empty("i"))],
        description: "Removing child and change next node after parent",
    }
    .test();
}

#[test]
fn add_attributes() {
    let attributes = vec![("id", "hello")];

    DiffTestCase {
        old: empty("div"),
        new: element("div", &[("id", "hello")], vec![]),
        expected: vec![Patch::AddAttributes(0, attributes.clone())],
        description: "Add attributes",
    }
    .test();

    DiffTestCase {
        old: element("div", &[("id", "foobar")], vec![]),
        new: element("div", &[("id", "hello")], vec![]),
        expected: vec![Patch::AddAttributes(0, attributes)],
        description: "Change attribute",
    }
    .test();
}

#[test]
fn remove_attributes() {
    DiffTestCase {
        old: element("div", &[("id", "hey-there")], vec![]),
        new: empty("div"),
        expected: vec![Patch::RemoveAttributes(0, vec!["id"])],
        description: "Add attributes",
    }
    .test();
}

#[test]
fn change_attribute() {
    let attributes = vec![("id", "changed")];

    DiffTestCase {
        old: element("div", &[("id", "hey-there")], vec![]),
        new: element("div", &[("id", "changed")], vec![]),
        expected: vec![Patch::AddAttributes(0, attributes)],
        description: "Add attributes",
    }
    .test();
}

#[test]
fn replace_text_node() {
    DiffTestCase {
        old: VirtualNode::text("Old"),
        new: VirtualNode::text("New"),
        expected: vec![Patch::ChangeText(0, &VText::new("New"))],
        description: "Replace text node",
    }
    .test();
}

#[test]
fn changed_value_is_set_again_and_not_removed() {
    let old = element("div", &[("id", "a")], vec![]);
    let new = element("div", &[("id", "b")], vec![]);
    assert_eq!(diff(&old, &new), vec![Patch::AddAttributes(0, vec![("id", "b")])]);
}

#[test]
fn new_trailing_child_is_appended_as_it_is() {
    let old = element("div", &[], vec![empty("b")]);
    let new = element("div", &[], vec![empty("b"), empty("i")]);
    assert_eq!(diff(&old, &new), vec![Patch::AppendChildren(0, vec![&empty("i")])]);
}

#[test]
fn appended_children_are_not_compared() {
    let old = empty("div");
    let new = element(
        "div",
        &[],
        vec![element("ul", &[("id", "x")], vec![empty("li"), VirtualNode::text("t")]), empty("p")],
    );
    let ul = element("ul", &[("id", "x")], vec![empty("li"), VirtualNode::text("t")]);
    assert_eq!(diff(&old, &new), vec![Patch::AppendChildren(0, vec![&ul, &empty("p")])]);
}

#[test]
fn dropped_children_are_truncated() {
    let old = element("div", &[], vec![empty("b"), empty("i")]);
    let new = empty("div");
    assert_eq!(diff(&old, &new), vec![Patch::TruncateChildren(0, 0)]);
}

#[test]
fn patches_of_one_node_come_in_order() {
    let old = element(
        "div",
        &[("id", "a"), ("class", "c"), ("style", "s")],
        vec![VirtualNode::text("x"), empty("b"), empty("i")],
    );
    let new = element(
        "div",
        &[("id", "b"), ("title", "t"), ("style", "s")],
        vec![VirtualNode::text("y"), empty("u")],
    );
    assert_eq!(
        diff(&old, &new),
        vec![
            Patch::AddAttributes(0, vec![("id", "b"), ("title", "t")]),
            Patch::RemoveAttributes(0, vec!["class"]),
            Patch::TruncateChildren(0, 2),
            Patch::ChangeText(1, &VText::new("y")),
            Patch::Replace(2, &empty("u")),
        ]
    );
}

#[test]
fn element_and_text_replace_each_other() {
    let old = element("div", &[], vec![VirtualNode::text("t"), empty("b")]);
    let new = element("div", &[], vec![empty("b"), VirtualNode::text("t")]);
    assert_eq!(
        diff(&old, &new),
        vec![Patch::Replace(1, &empty("b")), Patch::Replace(2, &VirtualNode::text("t"))]
    );
}

#[test]
fn equal_texts_need_no_patch() {
    assert_eq!(diff(&VirtualNode::text("same"), &VirtualNode::text("same")), vec![]);
}

#[test]
fn removed_child_in_the_middle_shifts_its_siblings() {
    let old = element("ul", &[], vec![empty("a"), empty("b"), empty("c")]);
    let new = element("ul", &[], vec![empty("a"), empty("c")]);
    assert_eq!(
        diff(&old, &new),
        vec![Patch::TruncateChildren(0, 2), Patch::Replace(2, &empty("c"))]
    );
}

#[test]
fn node_idx_is_the_position_in_the_patch() {
    let node = empty("div");
    let text = VText::new("t");
    assert_eq!(Patch::AppendChildren(1, vec![&node]).node_idx(), 1);
    assert_eq!(Patch::TruncateChildren(2, 0).node_idx(), 2);
    assert_eq!(Patch::Replace(3, &node).node_idx(), 3);
    assert_eq!(Patch::AddAttributes(4, vec![("a", "b")]).node_idx(), 4);
    assert_eq!(Patch::RemoveAttributes(5, vec!["a"]).node_idx(), 5);
    assert_eq!(Patch::ChangeText(6, &text).node_idx(), 6);
}
