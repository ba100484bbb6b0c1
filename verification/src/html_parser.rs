//! Reading markup: from the tags of a template, in the order in which they
//! are written, to the snapshot that the template describes.
//!
//! The snapshot is built from the leaves up. An element is held back while
//! it is open and handed to its parent, complete, when it is closed.

use crate::attributes::{pairs_map, Attributes};
use crate::strings::str_eq;
use crate::tree::Tree;
use crate::virtual_node::{lemma_view_element, trees_of, VElement, VirtualNode};
use vstd::prelude::*;

verus! {

/// What a tag does to the nesting of elements: it leaves an element open,
/// or it leaves one complete.
///
/// What follows an `Open` tag comes into the element just opened; what
/// follows a `Close` tag comes behind the element just completed.
#[derive(Clone, Copy, Debug, PartialEq, Eq, Structural)]
pub enum TagType {
    Open,
    Close,
}

/// What stands behind the `=` of an attribute.
#[derive(Debug, PartialEq)]
pub enum AttrValue {
    /// A value that is written into the snapshot.
    Text(String),
    /// A callback. Snapshots hold no callbacks: the attribute is passed
    /// over.
    Callback,
}

/// One piece of a template.
#[derive(Debug, PartialEq)]
pub enum Tag {
    /// `<name key="value" ..>`. Of two attributes with one name the later
    /// decides.
    Open { name: String, attrs: Vec<(String, AttrValue)> },
    /// `</name>`.
    Close { name: String },
    /// Text between tags.
    Text { text: String },
    /// Nodes that were built elsewhere and stand in the template as they are.
    Braced { nodes: Vec<VirtualNode> },
}

/// What a tag says, stated over mathematical trees.
pub enum TagView {
    Open { name: Seq<char>, attributes: Map<Seq<char>, Seq<char>> },
    Close { name: Seq<char> },
    Text { content: Seq<char> },
    Braced { nodes: Seq<Tree> },
}

/// The pairs among the first `n` attributes whose values are written into
/// the snapshot, in order.
pub open spec fn written_pairs(attrs: Seq<(String, AttrValue)>, n: nat) -> Seq<
    (Seq<char>, Seq<char>),
>
    decreases n,
{
    if 0 < n <= attrs.len() {
        let before = written_pairs(attrs, (n - 1) as nat);
        match attrs[n - 1].1 {
            AttrValue::Text(value) => before.push((attrs[n - 1].0@, value@)),
            AttrValue::Callback => before,
        }
    } else {
        Seq::empty()
    }
}

impl View for Tag {
    type V = TagView;

    open spec fn view(&self) -> TagView {
        match self {
            Tag::Open { name, attrs } => TagView::Open {
                name: name@,
                attributes: pairs_map(written_pairs(attrs@, attrs@.len())),
            },
            Tag::Close { name } => TagView::Close { name: name@ },
            Tag::Text { text } => TagView::Text { content: text@ },
            Tag::Braced { nodes } => TagView::Braced { nodes: trees_of(nodes@) },
        }
    }
}

impl TagView {
    /// Whether the tag leaves an element open or complete; neither for text
    /// and for nodes built elsewhere. The opening tag of an element that
    /// closes itself leaves it complete.
    pub open spec fn tag_type(self) -> Option<TagType> {
        match self {
            TagView::Open { name, .. } => Some(
                if self_closing(name) {
                    TagType::Close
                } else {
                    TagType::Open
                },
            ),
            TagView::Close { .. } => Some(TagType::Close),
            _ => None,
        }
    }
}

impl Tag {
    /// Whether the tag leaves an element open or complete; neither for text
    /// and for nodes built elsewhere.
    pub fn tag_type(&self) -> (tag_type: Option<TagType>)
        ensures
            tag_type == self@.tag_type(),
    {
        match self {
            Tag::Open { name, .. } => Some(
                if is_self_closing(name.as_str()) {
                    TagType::Close
                } else {
                    TagType::Open
                },
            ),
            Tag::Close { .. } => Some(TagType::Close),
            _ => None,
        }
    }
}

/// Whether elements of this name never have children: they are complete
/// with their opening tag, and a closing tag for them says nothing.
pub open spec fn self_closing(name: Seq<char>) -> bool {
    ||| name == "area"@
    ||| name == "base"@
    ||| name == "br"@
    ||| name == "col"@
    ||| name == "hr"@
    ||| name == "img"@
    ||| name == "input"@
    ||| name == "link"@
    ||| name == "meta"@
    ||| name == "param"@
    ||| name == "command"@
    ||| name == "keygen"@
    ||| name == "source"@
}

/// Whether elements of this name never have children.
pub fn is_self_closing(name: &str) -> (b: bool)
    ensures
        b == self_closing(name@),
{
    str_eq(name, "area") || str_eq(name, "base") || str_eq(name, "br") || str_eq(name, "col")
        || str_eq(name, "hr") || str_eq(name, "img") || str_eq(name, "input") || str_eq(
        name,
        "link",
    ) || str_eq(name, "meta") || str_eq(name, "param") || str_eq(name, "command") || str_eq(
        name,
        "keygen",
    ) || str_eq(name, "source")
}

/// How far a template has been read: the elements that are open, the
/// outermost first, each with the children that it has so far; and the
/// root, once it is complete.
pub struct Reading {
    pub open: Seq<Tree>,
    pub root: Option<Tree>,
}

impl Reading {
    /// Nothing has been read.
    pub open spec fn start() -> Reading {
        Reading { open: Seq::empty(), root: None }
    }

    /// Whether a node that comes now has a place: as a child of the
    /// innermost open element, or as the root.
    pub open spec fn has_room(self) -> bool {
        self.open.len() > 0 || self.root is None
    }

    /// `node` put where it belongs: behind the children of the innermost
    /// open element, or at the root where no element is open and there is no
    /// root yet. A node without a place is dropped.
    pub open spec fn attach(self, node: Tree) -> Reading {
        if self.open.len() > 0 {
            let top = self.open.last();
            Reading {
                open: self.open.drop_last().push(top.with_children(top.children().push(node))),
                root: self.root,
            }
        } else if self.root is None {
            Reading { open: self.open, root: Some(node) }
        } else {
            self
        }
    }

    /// The first `n` of `nodes` put where they belong, one after the other.
    pub open spec fn attach_all(self, nodes: Seq<Tree>, n: nat) -> Reading
        decreases n,
    {
        if 0 < n <= nodes.len() {
            self.attach_all(nodes, (n - 1) as nat).attach(nodes[n - 1])
        } else {
            self
        }
    }

    /// The innermost open element closed: it is complete and put where it
    /// belongs.
    pub open spec fn close(self) -> Reading {
        if self.open.len() > 0 {
            (Reading { open: self.open.drop_last(), root: self.root }).attach(self.open.last())
        } else {
            self
        }
    }

    /// The reading after one more tag.
    pub open spec fn read(self, tag: TagView) -> Reading {
        match tag {
            TagView::Open { name, attributes } => {
                let element = Tree::Element { tag: name, attributes, children: Seq::empty() };
                if self_closing(name) {
                    self.attach(element)
                } else {
                    Reading { open: self.open.push(element), root: self.root }
                }
            },
            TagView::Close { name } => {
                if self_closing(name) {
                    self
                } else {
                    self.close()
                }
            },
            TagView::Text { content } => self.attach(Tree::Text { content }),
            TagView::Braced { nodes } => self.attach_all(nodes, nodes.len()),
        }
    }

    /// Whether `tag` can be read now: a closing tag always; anything else
    /// where a node has a place, and nodes built elsewhere only one at a
    /// time where they come as the root.
    pub open spec fn accepts(self, tag: TagView) -> bool {
        match tag {
            TagView::Close { .. } => true,
            TagView::Braced { nodes } => self.open.len() > 0 || (self.root is None && nodes.len()
                <= 1),
            _ => self.has_room(),
        }
    }

    /// The root once every element that is still open has been closed, the
    /// innermost first; `None` where nothing was read.
    pub open spec fn finished(self) -> Option<Tree>
        decreases self.open.len(),
    {
        if self.open.len() == 0 {
            self.root
        } else {
            self.close().finished()
        }
    }
}

/// The reading after the first `n` of `tags`.
pub open spec fn read_all(reading: Reading, tags: Seq<TagView>, n: nat) -> Reading
    decreases n,
{
    if 0 < n <= tags.len() {
        read_all(reading, tags, (n - 1) as nat).read(tags[n - 1])
    } else {
        reading
    }
}

/// Whether every one of the first `n` of `tags` can be read when its turn
/// comes.
pub open spec fn accepts_all(reading: Reading, tags: Seq<TagView>, n: nat) -> bool {
    forall|k: int| 0 <= k < n ==> read_all(reading, tags, k as nat).accepts(#[trigger] tags[k])
}

/// Whether a tree can be written as tags: no element that closes itself
/// has children.
pub open spec fn writable(tree: Tree) -> bool
    decreases tree,
{
    match tree {
        Tree::Element { tag, children, .. } => {
            if self_closing(tag) {
                children.len() == 0
            } else {
                forall|i: int| 0 <= i < children.len() ==> writable(#[trigger] children[i])
            }
        },
        Tree::Text { .. } => true,
    }
}

/// A tree written as tags: a text as itself; an element as its opening
/// tag, its children, and its closing tag unless it closes itself.
pub open spec fn tags_of(tree: Tree) -> Seq<TagView>
    decreases tree, 0nat,
{
    match tree {
        Tree::Element { tag, attributes, children } => {
            if self_closing(tag) {
                seq![TagView::Open { name: tag, attributes }]
            } else {
                seq![TagView::Open { name: tag, attributes }] + tags_of_all(
                    children,
                    children.len(),
                ) + seq![TagView::Close { name: tag }]
            }
        },
        Tree::Text { content } => seq![TagView::Text { content }],
    }
}

/// The first `n` of `trees` written as tags, one behind the other.
pub open spec fn tags_of_all(trees: Seq<Tree>, n: nat) -> Seq<TagView>
    decreases trees, n,
{
    if 0 < n <= trees.len() {
        tags_of_all(trees, (n - 1) as nat) + tags_of(trees[n - 1])
    } else {
        Seq::empty()
    }
}

/// Builds a snapshot from the tags of a template.
pub struct HtmlParser {
    open: Vec<VElement>,
    root: Option<VirtualNode>,
    last_tag_type: Option<TagType>,
}

impl View for HtmlParser {
    type V = Reading;

    closed spec fn view(&self) -> Reading {
        Reading {
            open: Seq::new(self.open@.len(), |i: int| self.open@[i]@),
            root: match self.root {
                Some(node) => Some(node@),
                None => None,
            },
        }
    }
}

impl HtmlParser {
    /// What the last tag that opened or closed an element did; `None`
    /// before the first such tag.
    pub closed spec fn last(&self) -> Option<TagType> {
        self.last_tag_type
    }

    /// A parser that has read nothing.
    pub fn new() -> (parser: HtmlParser)
        ensures
            parser@ == Reading::start(),
            parser.last() is None,
    {
        let parser = HtmlParser { open: Vec::new(), root: None, last_tag_type: None };
        assert(parser@.open =~= Seq::empty());
        parser
    }

    /// Whether `tag` can be read now.
    pub fn accepts(&self, tag: &Tag) -> (b: bool)
        ensures
            b == self@.accepts(tag@),
    {
        match tag {
            Tag::Close { .. } => true,
            Tag::Braced { nodes } => self.open.len() > 0 || (self.root.is_none() && nodes.len()
                <= 1),
            _ => self.open.len() > 0 || self.root.is_none(),
        }
    }

    /// What the last tag that opened or closed an element did; `None`
    /// before the first such tag.
    pub fn last_tag_type(&self) -> (tag_type: Option<TagType>)
        ensures
            tag_type == self.last(),
    {
        self.last_tag_type
    }

    /// Puts `node` where it belongs.
    fn attach(&mut self, node: VirtualNode)
        ensures
            final(self)@ == old(self)@.attach(node@),
            final(self).last() == old(self).last(),
    {
        let ghost before = self@;
        let open_count = self.open.len();
        if open_count > 0 {
            let ghost top = self.open@[open_count - 1];
            self.open[open_count - 1].children.push(node);
            proof {
                let after = self.open@[open_count - 1];
                assert(after.tag == top.tag && after.attrs == top.attrs);
                assert(trees_of(after.children@) =~= trees_of(top.children@).push(node@));
                assert(self@.open =~= before.attach(node@).open);
            }
        } else if self.root.is_none() {
            self.root = Some(node);
            proof {
                assert(self@.open =~= before.open);
            }
        }
    }

    /// Reads one more tag.
    ///
    /// A closing tag is not held against the name of the element that it
    /// closes: it closes the innermost open element, and says nothing where
    /// none is open.
    pub fn push_tag(&mut self, tag: Tag)
        requires
            old(self)@.accepts(tag@),
        ensures
            final(self)@ == old(self)@.read(tag@),
            final(self).last() == match tag@.tag_type() {
                Some(tag_type) => Some(tag_type),
                None => old(self).last(),
            },
    {
        let ghost before = self@;
        match tag {
            Tag::Open { name, attrs } => {
                let mut attributes = Attributes::new();
                for attr in iter: attrs.into_iter()
                    invariant
                        iter.seq() == attrs@,
                        attributes@ == pairs_map(written_pairs(attrs@, iter.index() as nat)),
                {
                    let ghost before = written_pairs(attrs@, iter.index() as nat);
                    let (key, value) = attr;
                    match value {
                        AttrValue::Text(value) => {
                            proof {
                                assert(before.push((key@, value@)).drop_last() =~= before);
                            }
                            attributes.insert(key, value);
                        },
                        AttrValue::Callback => {},
                    }
                }
                let self_closes = is_self_closing(name.as_str());
                let element = VElement { tag: name, attrs: attributes, children: Vec::new() };
                proof {
                    assert(trees_of(element.children@) =~= Seq::empty());
                }
                if self_closes {
                    let node = VirtualNode::Element(element);
                    proof {
                        lemma_view_element(&node);
                    }
                    self.attach(node);
                } else {
                    self.open.push(element);
                    proof {
                        assert(self@.open =~= before.open.push(element@));
                    }
                }
                self.last_tag_type = Some(
                    if self_closes {
                        TagType::Close
                    } else {
                        TagType::Open
                    },
                );
            },
            Tag::Close { name } => {
                if !is_self_closing(name.as_str()) {
                    self.close();
                }
                self.last_tag_type = Some(TagType::Close);
            },
            Tag::Text { text } => {
                self.attach(VirtualNode::Text(crate::virtual_node::VText { text }));
            },
            Tag::Braced { nodes } => {
                let ghost trees = trees_of(nodes@);
                for node in iter: nodes.into_iter()
                    invariant
                        iter.seq() == nodes@,
                        trees == trees_of(nodes@),
                        self@ == before.attach_all(trees, iter.index() as nat),
                        self.last() == old(self).last(),
                {
                    self.attach(node);
                }
            },
        }
    }

    /// Closes the innermost open element.
    fn close(&mut self)
        ensures
            final(self)@ == old(self)@.close(),
            final(self).last() == old(self).last(),
    {
        let ghost before = self@;
        match self.open.pop() {
            Some(element) => {
                proof {
                    assert(self@.open =~= before.open.drop_last());
                }
                let node = VirtualNode::Element(element);
                proof {
                    lemma_view_element(&node);
                }
                self.attach(node);
            },
            None => {},
        }
    }

    /// Closes every element that is still open and hands out the snapshot,
    /// or `None` where nothing was read.
    pub fn finish(self) -> (root: Option<VirtualNode>)
        ensures
            match root {
                Some(node) => self@.finished() == Some(node@),
                None => self@.finished() is None,
            },
    {
        let mut parser = self;
        while parser.open.len() > 0
            invariant
                parser@.finished() == self@.finished(),
            decreases parser.open.len(),
        {
            parser.close();
        }
        parser.root
    }
}

} // verus!
