//! Durable storage of patches and of a device's frontier.
pub mod meta;
pub mod patch;
pub mod sync_folder_store;

use crate::store::meta::Meta;
use crate::store::patch::Patch;
use crate::PatchRef;
use vstd::prelude::*;

verus! {

/// Keyed storage of patches and of one device's frontier. Nothing is
/// assumed of what an implementation returns: the replay checks it.
pub trait Store {
    type Error;

    fn get_meta(&self) -> Result<Meta, Self::Error>;

    fn save_meta(&mut self, meta: &Meta) -> Result<(), Self::Error>;

    fn get_patch(&self, patch_ref: &PatchRef) -> Result<Patch, Self::Error>;

    fn add_patch(&mut self, patch: &Patch) -> Result<(), Self::Error>;
}

} // verus!
