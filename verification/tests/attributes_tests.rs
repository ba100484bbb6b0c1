use virtual_dom_rs::strings::str_eq;
use virtual_dom_rs::{Attributes, VElement, VirtualNode};

fn attributes(pairs: &[(&str, &str)]) -> Attributes {
    let mut attributes = Attributes::new();
    for (name, value) in pairs {
        attributes.insert(name.to_string(), value.to_string());
    }
    attributes
}

fn listed(attributes: &Attributes) -> Vec<(&str, &str)> {
    attributes.entries().iter().map(|(name, value)| (name.as_str(), value.as_str())).collect()
}

#[test]
fn new_attributes_are_empty() {
    let empty = Attributes::new();
    assert_eq!(empty.len(), 0);
    assert!(empty.is_empty());
    assert_eq!(empty.get("id"), None);
    assert!(!empty.contains_key("id"));
    assert!(empty.entries().is_empty());
}

#[test]
fn insert_sets_and_overwrites() {
    let mut attrs = attributes(&[("id", "a"), ("class", "c")]);
    assert_eq!(attrs.len(), 2);
    assert!(!attrs.is_empty());
    assert_eq!(attrs.get("id").map(|v| v.as_str()), Some("a"));
    attrs.insert("id".to_string(), "b".to_string());
    assert_eq!(attrs.len(), 2);
    assert_eq!(attrs.get("id").map(|v| v.as_str()), Some("b"));
    assert_eq!(attrs.get("class").map(|v| v.as_str()), Some("c"));
    assert_eq!(listed(&attrs), vec![("id", "b"), ("class", "c")]);
    attrs.insert("title".to_string(), "t".to_string());
    assert_eq!(listed(&attrs), vec![("id", "b"), ("class", "c"), ("title", "t")]);
}

#[test]
fn remove_takes_one_name_out() {
    let mut attrs = attributes(&[("id", "a"), ("class", "c"), ("title", "t")]);
    attrs.remove("class");
    assert_eq!(listed(&attrs), vec![("id", "a"), ("title", "t")]);
    assert!(!attrs.contains_key("class"));
    attrs.remove("class");
    assert_eq!(listed(&attrs), vec![("id", "a"), ("title", "t")]);
    attrs.remove("id");
    attrs.remove("title");
    assert!(attrs.is_empty());
}

#[test]
fn equality_does_not_depend_on_the_order() {
    assert_eq!(attributes(&[("a", "1"), ("b", "2")]), attributes(&[("b", "2"), ("a", "1")]));
    assert_ne!(attributes(&[("a", "1"), ("b", "2")]), attributes(&[("a", "1"), ("b", "3")]));
    assert_ne!(attributes(&[("a", "1"), ("b", "2")]), attributes(&[("a", "1"), ("c", "2")]));
    assert_ne!(attributes(&[("a", "1")]), attributes(&[("a", "1"), ("b", "2")]));
    assert_ne!(attributes(&[("a", "1"), ("b", "2")]), attributes(&[("a", "1")]));
    assert_eq!(Attributes::new(), Attributes::new());
}

#[test]
fn clone_keeps_pairs_and_order() {
    let attrs = attributes(&[("id", "a"), ("class", "c")]);
    let copy = attrs.clone();
    assert_eq!(copy, attrs);
    assert_eq!(listed(&copy), vec![("id", "a"), ("class", "c")]);
}

#[test]
fn changed_since_lists_new_and_changed_names() {
    let old = attributes(&[("id", "a"), ("class", "c"), ("style", "s")]);
    let new = attributes(&[("style", "s"), ("id", "b"), ("title", "t")]);
    assert_eq!(new.changed_since(&old), vec![("id", "b"), ("title", "t")]);
    assert_eq!(old.changed_since(&old), vec![]);
    assert_eq!(new.changed_since(&Attributes::new()), listed(&new));
    assert_eq!(Attributes::new().changed_since(&old), vec![]);
}

#[test]
fn names_missing_in_lists_dropped_names() {
    let old = attributes(&[("id", "a"), ("class", "c"), ("style", "s")]);
    let new = attributes(&[("style", "other"), ("title", "t")]);
    assert_eq!(old.names_missing_in(&new), vec!["id", "class"]);
    assert_eq!(old.names_missing_in(&old), Vec::<&str>::new());
    assert_eq!(old.names_missing_in(&Attributes::new()), vec!["id", "class", "style"]);
}

#[test]
fn write_html_lists_the_pairs() {
    let mut out = String::from("<a");
    attributes(&[("href", "/x"), ("class", "")]).write_html(&mut out);
    assert_eq!(out, r#"<a href="/x" class="""#);
    let mut out = String::new();
    Attributes::new().write_html(&mut out);
    assert_eq!(out, "");
}

#[test]
fn to_string_writes_markup() {
    let node = VirtualNode::Element(VElement {
        tag: "ul".to_string(),
        attrs: attributes(&[("id", "list"), ("class", "big")]),
        children: vec![
            VirtualNode::Element(VElement {
                tag: "li".to_string(),
                attrs: Attributes::new(),
                children: vec![VirtualNode::text("one"), VirtualNode::new("br")],
            }),
            VirtualNode::text("two"),
        ],
    });
    assert_eq!(node.to_string(), r#"<ul id="list" class="big"><li>one<br></br></li>two</ul>"#);
    assert_eq!(VirtualNode::text("a < b").to_string(), "a < b");
    assert_eq!(VirtualNode::new("div").to_string(), "<div></div>");
}

#[test]
fn str_eq_compares_what_strings_read() {
    assert!(str_eq("", ""));
    assert!(str_eq("div", "div"));
    assert!(!str_eq("div", "dib"));
    assert!(!str_eq("div", "di"));
    assert!(!str_eq("di", "div"));
    assert!(!str_eq("", "a"));
    assert!(str_eq("grüße", "grüße"));
    assert!(!str_eq("grüße", "grusse"));
    assert!(!str_eq("é", "e\u{301}"));
}

#[test]
fn from_text_makes_text_nodes() {
    assert_eq!(VirtualNode::from("t"), VirtualNode::text("t"));
    assert_eq!(VirtualNode::from("t".to_string()), VirtualNode::text("t"));
    assert_eq!(VirtualNode::from(&"t".to_string()), VirtualNode::text("t"));
}
