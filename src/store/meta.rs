//! A device's replication frontier.
use crate::store::patch::{contains_ref, push_unique};
use crate::PatchRef;
use vstd::prelude::*;

verus! {

/// The patches that a device's state depends on. Ancestors reachable through
/// their parents may be left out.
#[derive(Debug, Clone)]
pub struct Meta {
    patches: Vec<PatchRef>,
}

impl View for Meta {
    type V = Set<PatchRef>;

    closed spec fn view(&self) -> Set<PatchRef> {
        self.patches@.to_set()
    }
}

impl Meta {
    /// Each reference is held once.
    pub closed spec fn wf(&self) -> bool {
        self.patches@.no_duplicates()
    }

    pub fn new() -> (r: Meta)
        ensures
            r.wf(),
            r@ == Set::<PatchRef>::empty(),
    {
        let r = Meta { patches: Vec::new() };
        assert(r@ =~= Set::empty());
        r
    }

    pub fn add_patch(&mut self, patch_ref: PatchRef)
        requires
            old(self).wf(),
        ensures
            final(self).wf(),
            final(self)@ == old(self)@.insert(patch_ref),
    {
        push_unique(&mut self.patches, patch_ref);
    }

    /// The references in the order they were added.
    pub closed spec fn refs(&self) -> Seq<PatchRef> {
        self.patches@
    }

    /// The references.
    pub fn patches(&self) -> (r: &Vec<PatchRef>)
        ensures
            r@ == self.refs(),
            r@.to_set() == self@,
    {
        &self.patches
    }

    /// The references, taking the frontier apart.
    pub fn into_patches(self) -> (r: Vec<PatchRef>)
        ensures
            r@.to_set() == self@,
    {
        self.patches
    }

    pub fn contains(&self, patch_ref: PatchRef) -> (r: bool)
        ensures
            r == self@.contains(patch_ref),
    {
        contains_ref(&self.patches, patch_ref)
    }
}

} // verus!
