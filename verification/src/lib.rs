//! Virtual DOM reconciliation.
//!
//! A snapshot ([`VirtualNode`]) describes what should be shown at one moment.
//! [`diff`] compares two snapshots and lists the [`Patch`]es that turn what
//! the old one shows into what the new one shows; [`patch`] carries them out
//! on the live tree ([`DomNode`]), changing only the nodes that differ.
//! [`DomUpdater`] keeps a live tree in step with the latest snapshot, and
//! [`HtmlParser`] builds a snapshot from the tags of a template.
//!
//! Nodes have no identity of their own. A patch names its node by the
//! node's position in the old snapshot, counted depth first from the root;
//! children are matched by their place among their siblings.
//!
//! The contracts are stated over mathematical trees ([`tree::Tree`]) and
//! edits ([`edit::Edit`]); [`laws`] holds what follows from them: a snapshot
//! compared with itself needs no patch, every patch names a node of the old
//! snapshot, and the patches of a diff, applied to what the old snapshot
//! shows, give what the new one shows.

pub mod attributes;
pub mod diff;
pub mod dom;
pub mod dom_updater;
pub mod edit;
pub mod html_parser;
pub mod laws;
pub mod patch;
pub mod strings;
pub mod tree;
pub mod virtual_node;

pub use attributes::Attributes;
pub use diff::diff;
pub use dom::{DomElement, DomNode};
pub use dom_updater::DomUpdater;
pub use html_parser::{AttrValue, HtmlParser, Tag, TagType};
pub use patch::{find_nodes_to_patch, patch, Patch, PatchError};
pub use virtual_node::{VElement, VText, VirtualNode};
