//! Keeps a live tree up to date with the latest snapshot.

use crate::diff::diff;
use crate::dom::DomNode;
use crate::laws::diff_then_patch_round_trip;
use crate::patch::patch;
use crate::tree::Tree;
use crate::virtual_node::VirtualNode;
use vstd::prelude::*;

verus! {

/// A live tree together with the snapshot that it shows.
///
/// Whatever is done through the updater, the live tree shows the snapshot
/// that was handed in last.
pub struct DomUpdater {
    current_vdom: VirtualNode,
    root_node: DomNode,
}

impl DomUpdater {
    #[verifier::type_invariant]
    closed spec fn in_step(&self) -> bool {
        &&& self.root_node@ == self.current_vdom@
        &&& self.current_vdom@.node_count() <= usize::MAX
    }

    /// The tree that is shown.
    pub closed spec fn shown(&self) -> Tree {
        self.root_node@
    }

    /// The snapshot that is shown.
    pub closed spec fn current(&self) -> VirtualNode {
        self.current_vdom
    }

    /// Builds the live tree that shows `current_vdom`.
    ///
    /// Later updates count the nodes of `current_vdom`, so it must not have
    /// more of them than a `usize` can count.
    pub fn new(current_vdom: VirtualNode) -> (updater: DomUpdater)
        requires
            current_vdom@.node_count() <= usize::MAX,
        ensures
            updater.shown() == current_vdom@,
            updater.current() == current_vdom,
    {
        let root_node = current_vdom.create_element();
        DomUpdater { current_vdom, root_node }
    }

    /// Compares the snapshot that is shown with `new_vdom` and patches the
    /// live tree so that it shows `new_vdom`.
    pub fn update(&mut self, new_vdom: VirtualNode)
        requires
            new_vdom@.node_count() <= usize::MAX,
        ensures
            final(self).shown() == new_vdom@,
            final(self).current() == new_vdom,
    {
        // The parts are taken out and an updater that shows an empty text is
        // left in their place, so that `self` is in step at every moment.
        let mut taken = DomUpdater::new(VirtualNode::text(""));
        core::mem::swap(self, &mut taken);
        proof {
            use_type_invariant(&taken);
        }
        let DomUpdater { current_vdom, mut root_node } = taken;
        {
            let patches = diff(&current_vdom, &new_vdom);
            proof {
                diff_then_patch_round_trip(current_vdom@, new_vdom@);
            }
            patch(&mut root_node, &patches).unwrap();
        }
        *self = DomUpdater { current_vdom: new_vdom, root_node };
    }

    /// The snapshot that is shown: the one that was handed in last.
    pub fn current_vdom(&self) -> (snapshot: &VirtualNode)
        ensures
            *snapshot == self.current(),
            snapshot@ == self.shown(),
            snapshot@.node_count() <= usize::MAX,
    {
        proof {
            use_type_invariant(self);
        }
        &self.current_vdom
    }

    /// The root of the live tree.
    pub fn root_node(&self) -> (root: &DomNode)
        ensures
            root@ == self.shown(),
    {
        &self.root_node
    }
}

} // verus!
