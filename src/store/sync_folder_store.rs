//! Where a shared directory keeps patches and frontiers: one file per patch
//! under `«root»/patches/`, one frontier file per device under `«root»/meta/`.
use crate::PatchRef;
use vstd::prelude::*;
use vstd::string::StringExecFns;

verus! {

/// The lower-case hexadecimal digit of `n`, for `n` below 16.
pub open spec fn hex_digit(n: u128) -> char {
    seq!['0', '1', '2', '3', '4', '5', '6', '7', '8', '9', 'a', 'b', 'c', 'd', 'e', 'f'][n as int]
}

/// The `j`-th of the 32 hexadecimal digits of `r`, most significant first.
pub open spec fn nibble(r: PatchRef, j: int) -> u128 {
    (r >> ((124 - 4 * j) as u128)) & 15u128
}

/// Which digit stands at position `i` of the hyphenated text.
pub open spec fn digit_at(i: int) -> int {
    if i < 8 {
        i
    } else if i < 13 {
        i - 1
    } else if i < 18 {
        i - 2
    } else if i < 23 {
        i - 3
    } else {
        i - 4
    }
}

/// The hyphenated lower-case text of a UUID: its 32 hexadecimal digits,
/// most significant first, in groups of 8, 4, 4, 4 and 12 joined by `-`.
pub open spec fn uuid_text(r: PatchRef) -> Seq<char> {
    Seq::new(
        36,
        |i: int|
            if i == 8 || i == 13 || i == 18 || i == 23 {
                '-'
            } else {
                hex_digit(nibble(r, digit_at(i)))
            },
    )
}

/// Relies on `uuid::Uuid::from_u128` (big-endian bytes) and the `Display`
/// of `Uuid`, which writes the hyphenated lower-case form.
#[verifier::external_body]
fn hyphenated(r: PatchRef) -> (s: String)
    ensures
        s@ == uuid_text(r),
{
    uuid::Uuid::from_u128(r).to_string()
}

/// The locations of a shared directory's files, for one device.
#[derive(Debug, Clone)]
pub struct SyncFolderStore {
    /// Whether a missing frontier file counts as an empty frontier.
    init: bool,
    root_folder: String,
    patch_folder: String,
    device_id: String,
}

impl SyncFolderStore {
    pub closed spec fn spec_init(&self) -> bool {
        self.init
    }

    pub closed spec fn spec_root(&self) -> Seq<char> {
        self.root_folder@
    }

    pub closed spec fn spec_device(&self) -> Seq<char> {
        self.device_id@
    }

    pub closed spec fn spec_patch_folder(&self) -> Seq<char> {
        self.patch_folder@
    }

    pub fn new(root_folder: String, device_id: String) -> (r: SyncFolderStore)
        ensures
            !r.spec_init(),
            r.spec_root() == root_folder@,
            r.spec_device() == device_id@,
            r.spec_patch_folder() == root_folder@ + "/patches"@,
    {
        let patch_folder = root_folder.clone().concat("/patches");
        SyncFolderStore { init: false, root_folder, patch_folder, device_id }
    }

    pub fn should_init(self, should_init: bool) -> (r: SyncFolderStore)
        ensures
            r.spec_init() == should_init,
            r.spec_root() == self.spec_root(),
            r.spec_device() == self.spec_device(),
            r.spec_patch_folder() == self.spec_patch_folder(),
    {
        let mut r = self;
        r.init = should_init;
        r
    }

    pub fn init(&self) -> (r: bool)
        ensures
            r == self.spec_init(),
    {
        self.init
    }

    pub fn device_id(&self) -> (r: &String)
        ensures
            r@ == self.spec_device(),
    {
        &self.device_id
    }

    /// The directory of the frontier files.
    pub fn meta_folder(&self) -> (r: String)
        ensures
            r@ == self.spec_root() + "/meta"@,
    {
        self.root_folder.clone().concat("/meta")
    }

    /// The frontier file of this device.
    pub fn meta_file_path(&self) -> (r: String)
        ensures
            r@ == self.spec_root() + "/meta/"@ + self.spec_device() + ".toml"@,
    {
        self.root_folder.clone().concat("/meta/").concat(self.device_id.as_str()).concat(".toml")
    }

    /// The directory of the patch files.
    pub fn patch_folder(&self) -> (r: &String)
        ensures
            r@ == self.spec_patch_folder(),
    {
        &self.patch_folder
    }

    /// The file of patch `patch_ref`, named by its hyphenated UUID.
    pub fn patch_file_path(&self, patch_ref: PatchRef) -> (r: String)
        ensures
            r@ == self.spec_patch_folder() + "/"@ + uuid_text(patch_ref) + ".toml"@,
    {
        let name = hyphenated(patch_ref);
        self.patch_folder.clone().concat("/").concat(name.as_str()).concat(".toml")
    }
}

} // verus!
