use virtual_dom_rs::{AttrValue, Attributes, HtmlParser, Tag, TagType, VElement, VirtualNode};

fn element(tag: &str, attrs: &[(&str, &str)], children: Vec<VirtualNode>) -> VirtualNode {
    let mut attributes = Attributes::new();
    for (name, value) in attrs {
        attributes.insert(name.to_string(), value.to_string());
    }
    VirtualNode::Element(VElement { tag: tag.to_string(), attrs: attributes, children })
}

fn with_children(tag: &str, children: Vec<VirtualNode>) -> VirtualNode {
    element(tag, &[], children)
}

fn open(name: &str) -> Tag {
    Tag::Open { name: name.to_string(), attrs: vec![] }
}

fn open_with(name: &str, attrs: &[(&str, &str)]) -> Tag {
    Tag::Open {
        name: name.to_string(),
        attrs: attrs
            .iter()
            .map(|(key, value)| (key.to_string(), AttrValue::Text(value.to_string())))
            .collect(),
    }
}

fn close(name: &str) -> Tag {
    Tag::Close { name: name.to_string() }
}

fn text(text: &str) -> Tag {
    Tag::Text { text: text.to_string() }
}

fn braced(nodes: Vec<VirtualNode>) -> Tag {
    Tag::Braced { nodes }
}

/// Reads the tags of a template and hands out its snapshot.
fn html(tags: Vec<Tag>) -> VirtualNode {
    let mut parser = HtmlParser::new();
    for tag in tags {
        assert!(parser.accepts(&tag), "this tag cannot stand here");
        parser.push_tag(tag);
    }
    parser.finish().expect("a template has a root node")
}

struct HtmlMacroTest<'a> {
    desc: &'a str,
    generated: VirtualNode,
    expected: VirtualNode,
}

impl<'a> HtmlMacroTest<'a> {
    /// Ensure that the generated and the expected virtual node are equal.
    fn test(self) {
        assert_eq!(self.generated, self.expected, "{}", self.desc);
    }
}

#[test]
fn lib_empty_div() {
    HtmlMacroTest {
        desc: "Empty div",
        generated: html(vec![open("div"), close("div")]),
        expected: VirtualNode::new("div"),
    }
    .test();
}

#[test]
fn lib_one_prop() {
    let expected = element("div", &[("id", "hello-world")], vec![]);

    HtmlMacroTest {
        desc: "One property",
        generated: html(vec![open_with("div", &[("id", "hello-world")]), close("div")]),
        expected,
    }
    .test();
}

#[test]
fn lib_event() {
    HtmlMacroTest {
        desc: "Events are ignored in non wasm-32 targets",
        generated: html(vec![
            Tag::Open {
                name: "div".to_string(),
                attrs: vec![("onclick".to_string(), AttrValue::Callback)],
            },
            close("div"),
        ]),
        expected: html(vec![open("div"), close("div")]),
    }
    .test();
}

#[test]
fn lib_child_node() {
    let expected = with_children("div", vec![VirtualNode::new("span")]);

    HtmlMacroTest {
        desc: "Child node",
        generated: html(vec![open("div"), open("span"), close("span"), close("div")]),
        expected,
    }
    .test();
}

#[test]
fn lib_sibling_child_nodes() {
    let expected = with_children("div", vec![VirtualNode::new("span"), VirtualNode::new("b")]);

    HtmlMacroTest {
        desc: "Sibling child nodes",
        generated: html(vec![
            open("div"),
            open("span"),
            close("span"),
            open("b"),
            close("b"),
            close("div"),
        ]),
        expected,
    }
    .test();
}

#[test]
fn lib_three_nodes_deep() {
    let child = with_children("span", vec![VirtualNode::new("b")]);
    let expected = with_children("div", vec![child]);

    HtmlMacroTest {
        desc: "Nested 3 nodes deep",
        generated: html(vec![
            open("div"),
            open("span"),
            open("b"),
            close("b"),
            close("span"),
            close("div"),
        ]),
        expected,
    }
    .test()
}

#[test]
fn sibling_text_nodes() {
    let expected = with_children("div", vec![VirtualNode::text("This is a text node")]);

    HtmlMacroTest {
        desc: "Nested text node",
        generated: html(vec![open("div"), text("This is a text node"), close("div")]),
        expected,
    }
    .test();
}

#[test]
fn lib_nested_macro() {
    let child_2 = html(vec![open("b"), close("b")]);

    let expected = with_children("div", vec![VirtualNode::new("span"), VirtualNode::new("b")]);

    HtmlMacroTest {
        desc: "Nested macros",
        generated: html(vec![
            open("div"),
            braced(vec![html(vec![open("span"), close("span")])]),
            braced(vec![child_2]),
            close("div"),
        ]),
        expected,
    }
    .test();
}

#[test]
fn block_root() {
    let em = html(vec![open("em"), close("em")]);

    let expected = VirtualNode::new("em");

    HtmlMacroTest { desc: "Block root node", generated: html(vec![braced(vec![em])]), expected }
        .test();
}

#[test]
fn text_next_to_block() {
    let child = html(vec![open("ul"), close("ul")]);

    let expected =
        with_children("div", vec![VirtualNode::text("A bit of text"), VirtualNode::new("ul")]);

    HtmlMacroTest {
        desc: "Text node next to a block",
        generated: html(vec![
            open("div"),
            text("A bit of text"),
            braced(vec![child]),
            close("div"),
        ]),
        expected,
    }
    .test();
}

#[test]
fn punctuation_comma() {
    let text_value = "Hello, World";

    HtmlMacroTest {
        desc: "Comma",
        generated: html(vec![text("Hello, World")]),
        expected: VirtualNode::text(text_value),
    }
    .test()
}

#[test]
fn punctuation_exclamation() {
    let text_value = "Hello World!";

    HtmlMacroTest {
        desc: "Exclamation point",
        generated: html(vec![text("Hello World!")]),
        expected: VirtualNode::text(text_value),
    }
    .test()
}

#[test]
fn punctuation_period() {
    let text_value = "Hello.";

    HtmlMacroTest {
        desc: "Period",
        generated: html(vec![text("Hello.")]),
        expected: VirtualNode::text(text_value),
    }
    .test()
}

#[test]
fn vec_of_nodes() {
    let children =
        vec![html(vec![open("div"), close("div")]), html(vec![open("strong"), close("strong")])];

    let expected = with_children("div", vec![VirtualNode::new("div"), VirtualNode::new("strong")]);

    HtmlMacroTest {
        desc: "Vec of nodes",
        generated: html(vec![open("div"), braced(children), close("div")]),
        expected,
    }
    .test();
}

#[test]
fn text_root_node() {
    HtmlMacroTest {
        desc: "Text as root node",
        generated: html(vec![text("some text")]),
        expected: VirtualNode::text("some text"),
    }
    .test()
}

/// `type` is a keyword of the language; as the name of an attribute it is a
/// string like any other.
#[test]
fn type_attribute() {
    let link = html(vec![open_with(
        "link",
        &[("rel", "stylesheet"), ("type", "text/css"), ("href", "/app.css")],
    )]);
    match &link {
        VirtualNode::Element(link) => {
            assert_eq!(link.tag, "link");
            assert_eq!(link.attrs.len(), 3);
            assert_eq!(link.attrs.get("rel").map(|v| v.as_str()), Some("stylesheet"));
            assert_eq!(link.attrs.get("type").map(|v| v.as_str()), Some("text/css"));
            assert_eq!(link.attrs.get("href").map(|v| v.as_str()), Some("/app.css"));
            assert!(link.children.is_empty());
        }
        VirtualNode::Text(_) => panic!("an element was written"),
    }
}

#[test]
fn text_macro() {
    let text_var = "some text";

    HtmlMacroTest {
        desc: "text! creates text from variables",
        generated: VirtualNode::from(text_var),
        expected: VirtualNode::text("some text"),
    }
    .test()
}

// Verify that all of our self closing tags work as both.
// Self closing tags can be written as either <tag> and <tag />
#[test]
fn self_closing_tag() {
    let children = vec![
        "area", "base", "br", "col", "hr", "img", "input", "link", "meta", "param", "command",
        "keygen", "source",
    ]
    .iter()
    .map(|tag| VirtualNode::new(tag))
    .collect();
    let expected = with_children("div", children);

    let desc = &format!("Self closing tag without baskslash");
    HtmlMacroTest {
        desc,
        generated: html(vec![
            open("div"),
            open("area"),
            open("base"),
            open("br"),
            open("col"),
            open("hr"),
            open("img"),
            open("input"),
            open("link"),
            open("meta"),
            open("param"),
            open("command"),
            open("keygen"),
            open("source"),
            close("div"),
        ]),
        expected,
    }
    .test();

    let desc = &format!("Self closing tag with backslash");
    HtmlMacroTest {
        desc,
        generated: html(vec![open("br"), close("br")]),
        expected: VirtualNode::new("br"),
    }
    .test();
}

#[test]
fn html_macro_empty_div() {
    let node = html(vec![open("div"), close("div")]);

    let expected_node = VirtualNode::new("div");

    assert_eq!(node, expected_node);
}

#[test]
fn html_macro_one_prop() {
    let node = html(vec![open_with("div", &[("id", "hello-world")]), close("div")]);

    let mut props = Attributes::new();
    props.insert("id".to_string(), "hello-world".to_string());
    let expected_node =
        VirtualNode::Element(VElement { tag: "div".to_string(), attrs: props, children: vec![] });

    assert_eq!(node, expected_node);
}

fn children_of(node: &VirtualNode) -> &Vec<VirtualNode> {
    match node {
        VirtualNode::Element(element) => &element.children,
        VirtualNode::Text(_) => panic!("a text has no children"),
    }
}

#[test]
fn html_macro_child_node() {
    let node = html(vec![open("div"), open("span"), close("span"), close("div")]);

    let expected_node = with_children("div", vec![VirtualNode::new("span")]);

    assert_eq!(node, expected_node);
    assert_eq!(children_of(&expected_node).len(), 1);
}

#[test]
fn html_macro_sibling_child_nodes() {
    let node = html(vec![
        open("div"),
        open("span"),
        close("span"),
        open("b"),
        close("b"),
        close("div"),
    ]);

    let expected_node =
        with_children("div", vec![VirtualNode::new("span"), VirtualNode::new("b")]);

    assert_eq!(node, expected_node);
    assert_eq!(children_of(&node).len(), 2);
}

#[test]
fn html_macro_three_nodes_deep() {
    let node = html(vec![
        open("div"),
        open("span"),
        open("b"),
        close("b"),
        close("span"),
        close("div"),
    ]);

    let child = with_children("span", vec![VirtualNode::new("b")]);
    let expected_node = with_children("div", vec![child]);

    assert_eq!(node, expected_node);
    assert_eq!(children_of(&node).len(), 1, "1 Child");
}

#[test]
fn nested_text_node() {
    let node = html(vec![
        open("div"),
        braced(vec![VirtualNode::from("This is a text node")]),
        braced(vec![VirtualNode::from("More"), VirtualNode::from("Text")]),
        close("div"),
    ]);

    let expected_node = with_children(
        "div",
        vec![
            VirtualNode::text("This is a text node"),
            VirtualNode::text("More"),
            VirtualNode::text("Text"),
        ],
    );

    assert_eq!(node, expected_node);
    assert_eq!(children_of(&node).len(), 3, "3 text node children");

    for (index, child) in children_of(&node).iter().enumerate() {
        assert_eq!(child, &children_of(&expected_node)[index]);
    }
}

#[test]
fn html_macro_nested_macro() {
    let child_2 = html(vec![open("b"), close("b")]);

    let node = html(vec![
        open("div"),
        braced(vec![html(vec![open("span"), close("span")]), child_2]),
        close("div"),
    ]);

    let expected_node =
        with_children("div", vec![VirtualNode::new("span"), VirtualNode::new("b")]);

    assert_eq!(node, expected_node);
}

#[test]
fn strings() {
    let text = "This is a text node";
    let text = format!("{}", text);

    let text_ref = &format!("{}", text);

    let node = html(vec![
        open("div"),
        braced(vec![VirtualNode::from(text.clone()), VirtualNode::from(text_ref)]),
        close("div"),
    ]);

    let expected_node = with_children(
        "div",
        vec![VirtualNode::text("This is a text node"), VirtualNode::text("This is a text node")],
    );

    assert_eq!(node, expected_node);
}

#[test]
fn to_string() {
    let node = html(vec![
        open_with("div", &[("id", "some-id")]),
        open("span"),
        braced(vec![VirtualNode::from("Hello world")]),
        close("span"),
        close("div"),
    ]);
    let expected = r#"<div id="some-id"><span>Hello world</span></div>"#;

    assert_eq!(node.to_string(), expected);
}

#[test]
fn later_attribute_of_the_same_name_decides() {
    let node = html(vec![open_with("div", &[("id", "a"), ("class", "c"), ("id", "b")])]);
    assert_eq!(node, element("div", &[("class", "c"), ("id", "b")], vec![]));
}

#[test]
fn callbacks_are_passed_over_among_attributes() {
    let node = html(vec![Tag::Open {
        name: "button".to_string(),
        attrs: vec![
            ("id".to_string(), AttrValue::Text("a".to_string())),
            ("onclick".to_string(), AttrValue::Callback),
            ("class".to_string(), AttrValue::Text("c".to_string())),
            ("id".to_string(), AttrValue::Callback),
        ],
    }]);
    assert_eq!(node, element("button", &[("id", "a"), ("class", "c")], vec![]));
}

#[test]
fn open_elements_are_closed_at_the_end() {
    let node = html(vec![open("div"), open("span"), text("t")]);
    assert_eq!(
        node,
        with_children("div", vec![with_children("span", vec![VirtualNode::text("t")])])
    );
}

#[test]
fn closing_tag_without_open_element_says_nothing() {
    let node = html(vec![close("div"), open("p"), close("p"), close("p")]);
    assert_eq!(node, VirtualNode::new("p"));
}

#[test]
fn closing_tag_is_not_held_against_the_name() {
    let node = html(vec![open("div"), open("b"), close("i"), open("u"), close("div")]);
    assert_eq!(
        node,
        with_children("div", vec![VirtualNode::new("b"), VirtualNode::new("u")])
    );
}

#[test]
fn nothing_read_gives_no_snapshot() {
    assert_eq!(HtmlParser::new().finish(), None);
    let mut parser = HtmlParser::new();
    parser.push_tag(close("div"));
    assert_eq!(parser.finish(), None);
    let mut parser = HtmlParser::new();
    parser.push_tag(braced(vec![]));
    assert_eq!(parser.finish(), None);
}

#[test]
fn only_one_root_is_accepted() {
    let mut parser = HtmlParser::new();
    assert!(parser.accepts(&open("div")));
    assert!(parser.accepts(&text("t")));
    assert!(parser.accepts(&braced(vec![VirtualNode::new("a")])));
    assert!(!parser.accepts(&braced(vec![VirtualNode::new("a"), VirtualNode::new("b")])));
    parser.push_tag(open("div"));
    assert!(parser.accepts(&braced(vec![VirtualNode::new("a"), VirtualNode::new("b")])));
    parser.push_tag(close("div"));
    assert!(!parser.accepts(&open("div")));
    assert!(!parser.accepts(&text("t")));
    assert!(!parser.accepts(&braced(vec![])));
    assert!(parser.accepts(&close("div")));
}

#[test]
fn last_tag_type_follows_opening_and_closing_tags() {
    let mut parser = HtmlParser::new();
    assert_eq!(parser.last_tag_type(), None);
    parser.push_tag(open("div"));
    assert_eq!(parser.last_tag_type(), Some(TagType::Open));
    parser.push_tag(text("t"));
    assert_eq!(parser.last_tag_type(), Some(TagType::Open));
    parser.push_tag(open("br"));
    assert_eq!(parser.last_tag_type(), Some(TagType::Close));
    parser.push_tag(open("b"));
    assert_eq!(parser.last_tag_type(), Some(TagType::Open));
    parser.push_tag(close("div"));
    assert_eq!(parser.last_tag_type(), Some(TagType::Close));
    assert_eq!(open("a").tag_type(), Some(TagType::Open));
    assert_eq!(open("img").tag_type(), Some(TagType::Close));
    assert_eq!(close("a").tag_type(), Some(TagType::Close));
    assert_eq!(text("a").tag_type(), None);
    assert_eq!(braced(vec![]).tag_type(), None);
}

/// Writes a snapshot as the tags that a template would hold for it.
fn tags_of(node: &VirtualNode, tags: &mut Vec<Tag>) {
    match node {
        VirtualNode::Text(text) => tags.push(Tag::Text { text: text.text.clone() }),
        VirtualNode::Element(element) => {
            tags.push(Tag::Open {
                name: element.tag.clone(),
                attrs: element
                    .attrs
                    .entries()
                    .iter()
                    .map(|(name, value)| (name.clone(), AttrValue::Text(value.clone())))
                    .collect(),
            });
            if !virtual_dom_rs::html_parser::is_self_closing(&element.tag) {
                for child in &element.children {
                    tags_of(child, tags);
                }
                tags.push(Tag::Close { name: element.tag.clone() });
            }
        }
    }
}

#[test]
fn reading_the_tags_of_a_snapshot_gives_it_back() {
    let tree = element(
        "div",
        &[("id", "app"), ("class", "main")],
        vec![
            VirtualNode::text("intro"),
            element("img", &[("src", "a.png")], vec![]),
            element(
                "ul",
                &[],
                vec![
                    with_children("li", vec![VirtualNode::text("one")]),
                    with_children("li", vec![VirtualNode::new("br"), VirtualNode::text("two")]),
                ],
            ),
            VirtualNode::new("p"),
        ],
    );
    let mut tags = vec![];
    tags_of(&tree, &mut tags);
    assert_eq!(tags.len(), 15);
    assert_eq!(html(tags), tree);
}

#[test]
fn self_closing_names() {
    for name in [
        "area", "base", "br", "col", "hr", "img", "input", "link", "meta", "param", "command",
        "keygen", "source",
    ] {
        assert!(virtual_dom_rs::html_parser::is_self_closing(name), "{}", name);
    }
    for name in ["div", "span", "b", "", "BR", "brx", "a", "sourc"] {
        assert!(!virtual_dom_rs::html_parser::is_self_closing(name), "{}", name);
    }
}
