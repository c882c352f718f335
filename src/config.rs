//! Where a device keeps its data.
use crate::store::sync_folder_store::SyncFolderStore;
use vstd::prelude::*;

verus! {

/// The shared directory and the name of this device in it.
#[derive(Debug, Clone)]
pub struct Config {
    pub sync_folder: String,
    pub device_id: String,
}

impl Config {
    /// The locations of this device's files in the shared directory.
    pub fn store(&self) -> (r: SyncFolderStore)
        ensures
            !r.spec_init(),
            r.spec_root() == self.sync_folder@,
            r.spec_device() == self.device_id@,
            r.spec_patch_folder() == self.sync_folder@ + "/patches"@,
    {
        SyncFolderStore::new(self.sync_folder.clone(), self.device_id.clone())
    }
}

} // verus!
