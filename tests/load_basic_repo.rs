use augr_core::repository::timesheet::Error as TimesheetError;
use augr_core::repository::Error as RepositoryError;
use augr_core::{Meta, Patch, PatchRef, Repository, Store, Timestamp};
use std::collections::{BTreeMap, BTreeSet};
use uuid::Uuid;

#[derive(Debug)]
struct MemStore {
    meta: Meta,
    patches: BTreeMap<PatchRef, Patch>,
}

#[derive(Eq, PartialEq, Debug)]
pub enum MemStoreError {
    PatchNotFound { patch_ref: PatchRef },
    ReadOnly,
}

impl Store for MemStore {
    type Error = MemStoreError;

    fn get_meta(&self) -> Result<Meta, Self::Error> {
        Ok(self.meta.clone())
    }

    fn save_meta(&mut self, _meta: &Meta) -> Result<(), Self::Error> {
        Err(MemStoreError::ReadOnly)
    }

    fn add_patch(&mut self, _patch: &Patch) -> Result<(), Self::Error> {
        Err(MemStoreError::ReadOnly)
    }

    fn get_patch(&self, patch_ref: &PatchRef) -> Result<Patch, Self::Error> {
        self.patches
            .get(patch_ref)
            .cloned()
            .ok_or(MemStoreError::PatchNotFound { patch_ref: *patch_ref })
    }
}

fn dt(s: &str) -> Timestamp {
    Timestamp::parse(s).expect("Valid datetime")
}

fn sl(tags: &[&str]) -> BTreeSet<String> {
    tags.iter().map(|t| t.to_string()).collect()
}

fn vl(tags: &[&str]) -> Vec<String> {
    tags.iter().map(|t| t.to_string()).collect()
}

fn uuid(s: &str) -> PatchRef {
    Uuid::parse_str(s).unwrap().as_u128()
}

fn meta(refs: &[PatchRef]) -> Meta {
    let mut m = Meta::new();
    for r in refs {
        m.add_patch(*r);
    }
    m
}

fn store(meta: Meta, patches: Vec<Patch>) -> MemStore {
    MemStore { meta, patches: patches.into_iter().map(|p| (*p.patch_ref(), p)).collect() }
}

fn basic_patches() -> (PatchRef, PatchRef, Vec<Patch>) {
    let patch1 = uuid("d83f2984-8f59-4a32-9492-f910717b683c");
    let patch2 = uuid("386d2d62-7c3f-4518-9709-d2145261b853");
    let patches = vec![
        Patch::with_id(patch1)
            .create_event("a".to_string(), dt("2019-07-23T12:00:00Z"), vl(&["lunch", "food"]))
            .create_event("b".to_string(), dt("2019-07-23T13:00:00Z"), vl(&["work"])),
        Patch::with_id(patch2)
            .remove_start(patch1, "a".to_string(), dt("2019-07-23T12:00:00Z"))
            .add_start(patch1, "a".to_string(), dt("2019-07-23T12:30:00Z"))
            .remove_tag(patch1, "a".to_string(), "food".to_string())
            .add_tag(patch1, "b".to_string(), "awesome-project".to_string()),
    ];
    (patch1, patch2, patches)
}

fn events_of(repository: &Repository<MemStore>) -> BTreeMap<Timestamp, BTreeSet<String>> {
    let timesheet = repository.timesheet().flatten();
    assert!(timesheet.is_ok());
    timesheet
        .ok()
        .unwrap()
        .events()
        .into_iter()
        .map(|(t, tags)| (t, tags.into_iter().collect()))
        .collect()
}

#[test]
fn check_repository_state() {
    let (_, patch2, patches) = basic_patches();
    let repository = Repository::from_store(store(meta(&[patch2]), patches));
    assert!(repository.is_ok());
    let repository = repository.ok().unwrap();

    let mut expected_timesheet: BTreeMap<Timestamp, BTreeSet<String>> = BTreeMap::new();
    expected_timesheet.insert(dt("2019-07-23T12:30:00Z"), sl(&["lunch"]));
    expected_timesheet.insert(dt("2019-07-23T13:00:00Z"), sl(&["work", "awesome-project"]));

    assert_eq!(events_of(&repository), expected_timesheet);
}

#[test]
fn scenario_single_creation_flattens_to_its_start() {
    let p1 = uuid("d83f2984-8f59-4a32-9492-f910717b683c");
    let patches = vec![Patch::with_id(p1).create_event(
        "a".to_string(),
        dt("2019-07-23T12:00:00Z"),
        vl(&["lunch", "food"]),
    )];
    let repository = Repository::from_store(store(meta(&[p1]), patches)).ok().unwrap();
    let mut expected = BTreeMap::new();
    expected.insert(dt("2019-07-23T12:00:00Z"), sl(&["lunch", "food"]));
    assert_eq!(events_of(&repository), expected);
}

#[test]
fn scenario_edits_apply_in_either_fetch_order() {
    let (patch1, patch2, patches) = basic_patches();
    let mut expected = BTreeMap::new();
    expected.insert(dt("2019-07-23T12:30:00Z"), sl(&["lunch"]));
    expected.insert(dt("2019-07-23T13:00:00Z"), sl(&["work", "awesome-project"]));

    let parent_first = Repository::from_store(store(meta(&[patch1, patch2]), patches.clone())).ok().unwrap();
    let child_first = Repository::from_store(store(meta(&[patch2, patch1]), patches)).ok().unwrap();
    assert_eq!(events_of(&parent_first), expected);
    assert_eq!(events_of(&child_first), expected);
}

#[test]
fn scenario_unknown_event_is_reported() {
    let p1 = uuid("d83f2984-8f59-4a32-9492-f910717b683c");
    let p2 = uuid("386d2d62-7c3f-4518-9709-d2145261b853");
    let p3 = uuid("2a226f4d-60f2-493d-9e9a-d6c71d98b515");
    let patches = vec![
        Patch::with_id(p1).create_event("a".to_string(), dt("2019-07-23T12:00:00Z"), vl(&["lunch"])),
        Patch::with_id(p2).add_tag(p1, "b".to_string(), "work".to_string()),
        Patch::with_id(p3).add_tag(p1, "a".to_string(), "food".to_string()),
    ];
    let errors = Repository::from_store(store(meta(&[p2, p3]), patches)).err().unwrap();
    assert_eq!(
        errors,
        vec![RepositoryError::PatchingTimesheet {
            patch: p2,
            conflicts: vec![TimesheetError::UnknownEvent { patch: p2, event: "b".to_string() }],
        }]
    );
}

#[test]
fn scenario_duplicate_event_id_is_reported() {
    let p1 = uuid("d83f2984-8f59-4a32-9492-f910717b683c");
    let p2 = uuid("386d2d62-7c3f-4518-9709-d2145261b853");
    let patches = vec![
        Patch::with_id(p1).create_event("a".to_string(), dt("2019-07-23T12:00:00Z"), vl(&["lunch"])),
        Patch::with_id(p2).create_event("a".to_string(), dt("2019-07-23T18:00:00Z"), vl(&["dinner"])),
    ];
    let errors = Repository::from_store(store(meta(&[p1, p2]), patches)).err().unwrap();
    assert_eq!(
        errors,
        vec![RepositoryError::PatchingTimesheet {
            patch: p2,
            conflicts: vec![TimesheetError::DuplicateEventId { id: "a".to_string() }],
        }]
    );
}

#[test]
fn duplicate_start_time_names_both_events() {
    let p1 = uuid("d83f2984-8f59-4a32-9492-f910717b683c");
    let patches = vec![Patch::with_id(p1)
        .create_event("a".to_string(), dt("2019-07-23T12:00:00Z"), vl(&["lunch"]))
        .create_event("b".to_string(), dt("2019-07-23T12:00:00Z"), vl(&["work"]))
        .create_event("c".to_string(), dt("2019-07-23T14:00:00Z"), vl(&["tea"]))];
    let repository = Repository::from_store(store(meta(&[p1]), patches)).ok().unwrap();
    let errors = repository.timesheet().flatten().err().unwrap();
    assert_eq!(
        errors,
        vec![TimesheetError::DuplicateEventTime { event_a: "a".to_string(), event_b: "b".to_string() }]
    );
}

#[test]
fn conflicting_events_are_each_reported_once() {
    let p1 = uuid("d83f2984-8f59-4a32-9492-f910717b683c");
    let p2 = uuid("386d2d62-7c3f-4518-9709-d2145261b853");
    let patches = vec![
        Patch::with_id(p1)
            .create_event("a".to_string(), dt("2019-07-23T12:00:00Z"), vl(&["lunch"]))
            .create_event("b".to_string(), dt("2019-07-23T13:00:00Z"), vl(&["work"]))
            .create_event("c".to_string(), dt("2019-07-23T14:00:00Z"), vl(&["tea"])),
        Patch::with_id(p2)
            .add_start(p1, "a".to_string(), dt("2019-07-23T12:15:00Z"))
            .add_start(p1, "a".to_string(), dt("2019-07-23T12:20:00Z"))
            .remove_start(p1, "c".to_string(), dt("2019-07-23T14:00:00Z")),
    ];
    let repository = Repository::from_store(store(meta(&[p2]), patches)).ok().unwrap();
    let errors = repository.timesheet().flatten().err().unwrap();
    assert_eq!(errors.len(), 2);
    assert!(errors.iter().filter(|e| matches!(e, TimesheetError::FlattenEventError { event, .. } if event == "a")).count() == 1);
    assert!(errors.iter().filter(|e| matches!(e, TimesheetError::FlattenEventError { event, .. } if event == "c")).count() == 1);
}

#[test]
fn same_patches_in_other_orders_flatten_alike() {
    let p1 = uuid("d83f2984-8f59-4a32-9492-f910717b683c");
    let p2 = uuid("386d2d62-7c3f-4518-9709-d2145261b853");
    let p3 = uuid("2a226f4d-60f2-493d-9e9a-d6c71d98b515");
    let patches = vec![
        Patch::with_id(p1).create_event("a".to_string(), dt("2019-07-23T12:00:00Z"), vl(&["lunch"])),
        Patch::with_id(p2).create_event("b".to_string(), dt("2019-07-23T13:00:00Z"), vl(&["work"])),
        Patch::with_id(p3)
            .add_tag(p1, "a".to_string(), "food".to_string())
            .remove_tag(p2, "b".to_string(), "work".to_string())
            .add_tag(p2, "b".to_string(), "coding".to_string()),
    ];
    let orders = [[p1, p2, p3], [p3, p2, p1], [p2, p3, p1]];
    let results: Vec<_> = orders
        .iter()
        .map(|o| events_of(&Repository::from_store(store(meta(o), patches.clone())).ok().unwrap()))
        .collect();
    assert_eq!(results[0], results[1]);
    assert_eq!(results[0], results[2]);
    assert_eq!(results[0][&dt("2019-07-23T13:00:00Z")], sl(&["coding"]));
}

#[test]
fn segments_run_to_the_next_start() {
    let (_, patch2, patches) = basic_patches();
    let repository = Repository::from_store(store(meta(&[patch2]), patches)).ok().unwrap();
    let timesheet = repository.timesheet().flatten().ok().unwrap();
    let now = dt("2019-07-23T17:00:00Z");
    let segments = timesheet.segments_until(now);
    assert_eq!(segments.len(), 2);
    assert_eq!(segments[0].event_ref, "a");
    assert_eq!(segments[0].start_time, dt("2019-07-23T12:30:00Z"));
    assert_eq!(segments[0].end_time, dt("2019-07-23T13:00:00Z"));
    assert_eq!(segments[0].duration, 30 * 60 * 1_000_000_000);
    assert_eq!(segments[0].tags, vl(&["lunch"]));
    assert_eq!(segments[1].event_ref, "b");
    assert_eq!(segments[1].end_time, now);
    assert_eq!(segments[1].duration, 4 * 3600 * 1_000_000_000);
    let live = timesheet.segments();
    assert_eq!(live.len(), 2);
    assert_eq!(live[0].end_time, dt("2019-07-23T13:00:00Z"));
}

#[test]
fn tags_at_time_looks_at_the_latest_earlier_start() {
    let (_, patch2, patches) = basic_patches();
    let repository = Repository::from_store(store(meta(&[patch2]), patches)).ok().unwrap();
    let timesheet = repository.timesheet().flatten().ok().unwrap();
    assert_eq!(timesheet.tags_at_time(&dt("2019-07-23T12:00:00Z")), None);
    assert_eq!(timesheet.tags_at_time(&dt("2019-07-23T12:30:00Z")), None);
    assert_eq!(timesheet.tags_at_time(&dt("2019-07-23T12:31:00Z")), Some(vl(&["lunch"])));
    let later: BTreeSet<String> =
        timesheet.tags_at_time(&dt("2019-07-24T00:00:00Z")).unwrap().into_iter().collect();
    assert_eq!(later, sl(&["work", "awesome-project"]));
}

#[test]
fn empty_repository_flattens_to_nothing() {
    let repository = Repository::from_store(store(Meta::new(), vec![])).ok().unwrap();
    let timesheet = repository.timesheet().flatten().ok().unwrap();
    assert!(timesheet.events().is_empty());
    assert!(timesheet.segments().is_empty());
}
