use augr_core::action::TagRef;
use augr_core::config::Config;
use augr_core::store::sync_folder_store::SyncFolderStore;
use augr_core::{Meta, Patch};
use uuid::Uuid;

#[test]
fn sync_folder_paths() {
    let store = SyncFolderStore::new("/data/augr".to_string(), "laptop".to_string());
    assert!(!store.init());
    assert_eq!(store.meta_folder(), "/data/augr/meta");
    assert_eq!(store.meta_file_path(), "/data/augr/meta/laptop.toml");
    assert_eq!(store.patch_folder(), "/data/augr/patches");
    let store = store.should_init(true);
    assert!(store.init());
    assert_eq!(store.device_id(), "laptop");
}

#[test]
fn patch_files_are_named_by_uuid() {
    let store = SyncFolderStore::new("root".to_string(), "laptop".to_string());
    let r = Uuid::parse_str("e39076fe-6b5a-4a7f-b927-7fc1df5ba275").unwrap().as_u128();
    assert_eq!(store.patch_file_path(r), "root/patches/e39076fe-6b5a-4a7f-b927-7fc1df5ba275.toml");
}

#[test]
fn config_points_at_the_store() {
    let config = Config { sync_folder: "/sync".to_string(), device_id: "desk".to_string() };
    let store = config.store();
    assert_eq!(store.meta_file_path(), "/sync/meta/desk.toml");
}

#[test]
fn tag_ref_from_strs() {
    let t = TagRef::from_strs("101", "lunch");
    assert_eq!(t.action(), "101");
    assert_eq!(t.tag(), "lunch");
}

#[test]
fn meta_holds_each_reference_once() {
    let mut m = Meta::new();
    m.add_patch(7);
    m.add_patch(9);
    m.add_patch(7);
    assert_eq!(m.patches(), &vec![7, 9]);
    assert!(m.contains(9));
    assert!(!m.contains(8));
    assert_eq!(m.into_patches(), vec![7, 9]);
}

#[test]
fn patch_parents_are_the_union_of_operation_parents() {
    let mut p = Patch::with_id(1)
        .add_start(2, "a".to_string(), augr_core::Timestamp::new(0, 0))
        .remove_start(3, "a".to_string(), augr_core::Timestamp::new(0, 0))
        .add_tag(2, "a".to_string(), "x".to_string())
        .remove_tag(4, "a".to_string(), "y".to_string());
    p.add_tag[0].parents = vec![5, 3];
    let mut parents = p.parents();
    parents.sort();
    assert_eq!(parents, vec![2, 3, 4, 5]);
    assert_ne!(Patch::new().id, Patch::new().id);
    assert!(Patch::with_id(9).parents().is_empty());
}
