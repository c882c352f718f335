use augr_core::repository::event::Error as EventError;
use augr_core::repository::timesheet::Error as TimesheetError;
use augr_core::repository::{Error as RepositoryError, Next, Replay};
use augr_core::{Meta, Patch, PatchRef, Repository, Store, Timestamp};
use std::collections::BTreeMap;
use uuid::Uuid;

#[derive(Debug)]
struct MemStore {
    meta: Option<Meta>,
    patches: BTreeMap<PatchRef, Patch>,
    saved_meta: Option<Meta>,
    saved_patches: Vec<PatchRef>,
    refuse_writes: bool,
}

impl MemStore {
    fn new(meta: Meta) -> Self {
        Self {
            meta: Some(meta),
            patches: BTreeMap::new(),
            saved_meta: None,
            saved_patches: Vec::new(),
            refuse_writes: false,
        }
    }

    fn patch(mut self, patch: Patch) -> Self {
        self.patches.insert(*patch.patch_ref(), patch);
        self
    }
}

#[derive(Eq, PartialEq, Debug)]
pub enum MemStoreError {
    MetaNotFound { device_id: String },
    PatchNotFound { patch_ref: PatchRef },
    WriteRefused,
}

impl Store for MemStore {
    type Error = MemStoreError;

    fn get_meta(&self) -> Result<Meta, Self::Error> {
        self.meta.clone().ok_or(MemStoreError::MetaNotFound { device_id: "mem".to_string() })
    }

    fn save_meta(&mut self, meta: &Meta) -> Result<(), Self::Error> {
        if self.refuse_writes {
            return Err(MemStoreError::WriteRefused);
        }
        self.saved_meta = Some(meta.clone());
        Ok(())
    }

    fn add_patch(&mut self, patch: &Patch) -> Result<(), Self::Error> {
        if self.refuse_writes {
            return Err(MemStoreError::WriteRefused);
        }
        self.saved_patches.push(*patch.patch_ref());
        Ok(())
    }

    fn get_patch(&self, patch_ref: &PatchRef) -> Result<Patch, Self::Error> {
        self.patches
            .get(patch_ref)
            .cloned()
            .ok_or(MemStoreError::PatchNotFound { patch_ref: *patch_ref })
    }
}

fn dt(s: &str) -> Timestamp {
    Timestamp::parse(s).expect("Valid datetime")
}

fn sl(tags: &[&str]) -> Vec<String> {
    tags.iter().map(|t| t.to_string()).collect()
}

fn uuid(s: &str) -> PatchRef {
    Uuid::parse_str(s).unwrap().as_u128()
}

fn fresh() -> PatchRef {
    Uuid::new_v4().as_u128()
}

fn meta(refs: &[PatchRef]) -> Meta {
    let mut m = Meta::new();
    for r in refs {
        m.add_patch(*r);
    }
    m
}

#[test]
fn unknown_event_ref_reported() {
    let patch1 = uuid("2a226f4d-60f2-493d-9e9a-d6c71d98b515");
    let patch2 = uuid("dad9051e-2e83-446e-b9aa-299bd4a34b37");

    let store = MemStore::new(meta(&[patch2]))
        .patch(Patch::with_id(patch1).create_event(
            "a".to_string(),
            dt("2019-07-23T12:00:00Z"),
            sl(&["lunch", "food"]),
        ))
        .patch(Patch::with_id(patch2).remove_start(patch1, "b".to_string(), dt("2019-07-23T12:00:00Z")));

    let errors = Repository::from_store(store).err().expect("patches to produce error");

    assert!(errors.contains(&RepositoryError::PatchingTimesheet {
        patch: patch2,
        conflicts: vec![TimesheetError::UnknownEvent { patch: patch2, event: "b".to_string() }],
    }));
}

#[test]
fn unknown_patch_reported() {
    let patch1 = fresh();
    let patch2 = fresh();

    let store = MemStore::new(meta(&[patch2])).patch(Patch::with_id(patch1));

    let errors = Repository::from_store(store).err().unwrap();

    assert!(errors.contains(&RepositoryError::PatchNotFound {
        source: MemStoreError::PatchNotFound { patch_ref: patch2 },
        patch: patch2,
    }));
}

#[test]
fn invalid_number_of_start_times() {
    let patch1 = fresh();
    let patch2 = fresh();
    let patch3 = fresh();

    let store = MemStore::new(meta(&[patch2, patch3]))
        .patch(
            Patch::with_id(patch1)
                .create_event("a".to_string(), dt("2019-07-23T12:00:00Z"), sl(&["lunch", "food"]))
                .create_event("b".to_string(), dt("2019-07-23T13:00:00Z"), sl(&["work"])),
        )
        .patch(Patch::with_id(patch2).add_start(patch1, "a".to_string(), dt("2019-07-23T12:30:00Z")))
        .patch(Patch::with_id(patch3).remove_start(patch1, "b".to_string(), dt("2019-07-23T13:00:00Z")));

    let repo = Repository::from_store(store).ok().unwrap();
    let current_timesheet = repo.timesheet();
    let errors = current_timesheet
        .flatten()
        .err()
        .expect("flattening conflicted repository to report errors");

    assert!(errors.contains(&TimesheetError::FlattenEventError {
        source: EventError::MultipleStartTimes,
        event: "a".to_string()
    }));
    assert!(errors.contains(&TimesheetError::FlattenEventError {
        source: EventError::NoStartTimes,
        event: "b".to_string()
    }));
    assert_eq!(errors.len(), 2);
}

#[test]
fn unknown_event_does_not_stop_unrelated_patches() {
    let p1 = fresh();
    let p2 = fresh();
    let p3 = fresh();
    let store = MemStore::new(meta(&[p1, p2, p3]))
        .patch(Patch::with_id(p1).create_event("a".to_string(), dt("2019-07-23T12:00:00Z"), sl(&["lunch"])))
        .patch(Patch::with_id(p2).add_tag(p1, "b".to_string(), "work".to_string()))
        .patch(Patch::with_id(p3).add_tag(p1, "a".to_string(), "food".to_string()));
    let store_errors = Repository::from_store(store).err().unwrap();
    assert_eq!(
        store_errors,
        vec![RepositoryError::PatchingTimesheet {
            patch: p2,
            conflicts: vec![TimesheetError::UnknownEvent { patch: p2, event: "b".to_string() }],
        }]
    );
}

#[test]
fn second_creation_of_an_id_is_refused_and_not_merged() {
    let p1 = fresh();
    let p2 = fresh();
    let store = MemStore::new(meta(&[p1, p2]))
        .patch(Patch::with_id(p1).create_event("a".to_string(), dt("2019-07-23T12:00:00Z"), sl(&["lunch"])))
        .patch(Patch::with_id(p2).create_event("a".to_string(), dt("2019-07-23T15:00:00Z"), sl(&["work"])));
    let errors = Repository::from_store(store).err().unwrap();
    assert_eq!(
        errors,
        vec![RepositoryError::PatchingTimesheet {
            patch: p2,
            conflicts: vec![TimesheetError::DuplicateEventId { id: "a".to_string() }],
        }]
    );
    let mut repo = Repository::from_store(MemStore::new(Meta::new())).ok().unwrap();
    repo.load_patch(Patch::with_id(p1).create_event("a".to_string(), dt("2019-07-23T12:00:00Z"), sl(&["lunch"])))
        .unwrap();
    let refused = repo.load_patch(
        Patch::with_id(p2).create_event("a".to_string(), dt("2019-07-23T15:00:00Z"), sl(&["work"])),
    );
    assert_eq!(
        refused,
        Err(RepositoryError::PatchingTimesheet {
            patch: p2,
            conflicts: vec![TimesheetError::DuplicateEventId { id: "a".to_string() }],
        })
    );
    let event = repo.timesheet().event(&"a".to_string()).unwrap();
    assert_eq!(event.starts(), vec![(p1, dt("2019-07-23T12:00:00Z"))]);
    assert_eq!(event.tags(), vec![(p1, "lunch".to_string())]);
}

#[test]
fn duplicate_ids_in_one_patch_are_refused() {
    let p1 = fresh();
    let mut repo = Repository::from_store(MemStore::new(Meta::new())).ok().unwrap();
    let refused = repo.load_patch(
        Patch::with_id(p1)
            .create_event("a".to_string(), dt("2019-07-23T12:00:00Z"), sl(&["lunch"]))
            .create_event("a".to_string(), dt("2019-07-23T13:00:00Z"), sl(&["work"])),
    );
    assert_eq!(
        refused,
        Err(RepositoryError::PatchingTimesheet {
            patch: p1,
            conflicts: vec![TimesheetError::DuplicateEventId { id: "a".to_string() }],
        })
    );
    assert!(repo.timesheet().event(&"a".to_string()).is_none());
}

#[test]
fn loading_a_patch_twice_is_refused() {
    let p1 = fresh();
    let p2 = fresh();
    let mut repo = Repository::from_store(MemStore::new(Meta::new())).ok().unwrap();
    repo.load_patch(Patch::with_id(p1).create_event("a".to_string(), dt("2019-07-23T12:00:00Z"), sl(&["lunch"])))
        .unwrap();
    let add = Patch::with_id(p2).add_tag(p1, "a".to_string(), "food".to_string());
    repo.load_patch(add.clone()).unwrap();
    let tags_once = repo.timesheet().event(&"a".to_string()).unwrap().tags();
    assert_eq!(repo.load_patch(add), Err(RepositoryError::PatchAlreadyLoaded { patch: p2 }));
    let tags_twice = repo.timesheet().event(&"a".to_string()).unwrap().tags();
    assert_eq!(tags_once, tags_twice);
    assert_eq!(tags_twice.len(), 2);
}

#[test]
fn patch_with_unloaded_parents_is_deferred() {
    let p1 = fresh();
    let p2 = fresh();
    let mut repo = Repository::from_store(MemStore::new(Meta::new())).ok().unwrap();
    let child = Patch::with_id(p2).add_tag(p1, "a".to_string(), "food".to_string());
    assert_eq!(
        repo.load_patch(child.clone()),
        Err(RepositoryError::MissingParentPatches { patch: p2, parents: vec![p1] })
    );
    assert!(repo.timesheet().event(&"a".to_string()).is_none());
}

#[test]
fn child_fetched_before_parent_is_applied_after_it() {
    let p1 = fresh();
    let p2 = fresh();
    let store = MemStore::new(meta(&[p2]))
        .patch(Patch::with_id(p1).create_event("a".to_string(), dt("2019-07-23T12:00:00Z"), sl(&["lunch"])))
        .patch(Patch::with_id(p2).add_tag(p1, "a".to_string(), "food".to_string()));
    let repo = Repository::from_store(store).ok().unwrap();
    let ts = repo.timesheet().flatten().ok().unwrap();
    let events = ts.events();
    assert_eq!(events.len(), 1);
    assert_eq!(events[0].0, dt("2019-07-23T12:00:00Z"));
    let mut tags = events[0].1.clone();
    tags.sort();
    assert_eq!(tags, sl(&["food", "lunch"]));
}

#[test]
fn children_of_a_failed_patch_are_reported() {
    let p1 = fresh();
    let p2 = fresh();
    let p3 = fresh();
    let store = MemStore::new(meta(&[p3]))
        .patch(Patch::with_id(p1).create_event("a".to_string(), dt("2019-07-23T12:00:00Z"), sl(&["lunch"])))
        .patch(Patch::with_id(p2).add_tag(p1, "b".to_string(), "food".to_string()))
        .patch(Patch::with_id(p3).add_tag(p2, "a".to_string(), "work".to_string()));
    let errors = Repository::from_store(store).err().unwrap();
    assert_eq!(errors.len(), 2);
    assert!(errors.contains(&RepositoryError::ParentsFailed { patch: p3, parents: vec![p2] }));
}

#[test]
fn store_answering_with_another_patch_is_reported() {
    let p1 = fresh();
    let p2 = fresh();
    let mut store = MemStore::new(meta(&[p1]));
    store.patches.insert(p1, Patch::with_id(p2));
    let errors = Repository::from_store(store).err().unwrap();
    assert_eq!(errors, vec![RepositoryError::PatchRefMismatch { requested: p1, found: p2 }]);
}

#[test]
fn cycle_of_parents_stops_at_the_step_limit() {
    let p1 = fresh();
    let p2 = fresh();
    let store = MemStore::new(Meta::new())
        .patch(Patch::with_id(p1).add_tag(p2, "a".to_string(), "x".to_string()))
        .patch(Patch::with_id(p2).add_tag(p1, "a".to_string(), "y".to_string()));
    let mut repo = Repository::from_store(store).ok().unwrap();
    let errors = repo.load_patches(vec![p1], 50).err().unwrap();
    assert_eq!(errors.len(), 1);
    match &errors[0] {
        RepositoryError::ReplayLimitReached { pending } => assert!(!pending.is_empty()),
        other => panic!("unexpected error {:?}", other),
    }
    assert!(repo.timesheet().event(&"a".to_string()).is_none());
}

#[test]
fn missing_meta_is_reported() {
    let mut store = MemStore::new(Meta::new());
    store.meta = None;
    let errors = Repository::from_store(store).err().unwrap();
    assert_eq!(
        errors,
        vec![RepositoryError::LoadMeta { source: MemStoreError::MetaNotFound { device_id: "mem".to_string() } }]
    );
}

#[test]
fn save_meta_writes_the_applied_patches() {
    let p1 = fresh();
    let p2 = fresh();
    let store = MemStore::new(meta(&[p2]))
        .patch(Patch::with_id(p1).create_event("a".to_string(), dt("2019-07-23T12:00:00Z"), sl(&["lunch"])))
        .patch(Patch::with_id(p2).add_tag(p1, "a".to_string(), "food".to_string()));
    let mut repo = Repository::from_store(store).ok().unwrap();
    let frontier = repo.frontier();
    assert!(frontier.contains(p1) && frontier.contains(p2));
    assert_eq!(frontier.patches().len(), 2);
    assert_eq!(repo.save_meta(), Ok(()));
}

#[test]
fn failing_writes_are_reported() {
    let p1 = fresh();
    let mut store = MemStore::new(Meta::new());
    store.refuse_writes = true;
    let mut repo = Repository::from_store(store).ok().unwrap();
    assert_eq!(repo.save_meta(), Err(RepositoryError::SaveMeta { source: MemStoreError::WriteRefused }));
    let created = Patch::with_id(p1).create_event("a".to_string(), dt("2019-07-23T12:00:00Z"), sl(&["lunch"]));
    assert_eq!(
        repo.add_patch(created),
        Err(RepositoryError::SavePatch { source: MemStoreError::WriteRefused, patch: p1 })
    );
    assert!(repo.timesheet().event(&"a".to_string()).is_some());
}

#[test]
fn add_patch_applies_and_stores() {
    let p1 = fresh();
    let mut repo = Repository::from_store(MemStore::new(Meta::new())).ok().unwrap();
    let created = Patch::with_id(p1).create_event("a".to_string(), dt("2019-07-23T12:00:00Z"), sl(&["lunch"]));
    assert_eq!(repo.add_patch(created), Ok(()));
    assert!(repo.frontier().contains(p1));
    let again = Patch::with_id(p1);
    assert_eq!(repo.add_patch(again), Err(RepositoryError::PatchAlreadyLoaded { patch: p1 }));
}

#[test]
fn sync_loads_the_patches_of_other_devices() {
    let p1 = fresh();
    let p2 = fresh();
    let store = MemStore::new(Meta::new())
        .patch(Patch::with_id(p1).create_event("a".to_string(), dt("2019-07-23T12:00:00Z"), sl(&["lunch"])))
        .patch(Patch::with_id(p2).create_event("b".to_string(), dt("2019-07-23T13:00:00Z"), sl(&["work"])));
    let mut repo = Repository::from_store(store).ok().unwrap();
    assert_eq!(repo.try_sync_data(vec![meta(&[p1]), meta(&[p2])]), Ok(()));
    assert!(repo.frontier().contains(p1) && repo.frontier().contains(p2));
    let ts = repo.timesheet().flatten().ok().unwrap();
    assert_eq!(ts.events().len(), 2);
}

#[test]
fn replay_steps_defer_a_child_behind_its_parent() {
    let p1 = fresh();
    let p2 = fresh();
    let parent = Patch::with_id(p1).create_event("a".to_string(), dt("2019-07-23T12:00:00Z"), sl(&["lunch"]));
    let child = Patch::with_id(p2).add_tag(p1, "a".to_string(), "food".to_string());
    let mut repo = Repository::from_store(MemStore::new(Meta::new())).ok().unwrap();
    let mut st: Replay<MemStoreError> = Replay::new(vec![p2], 10);
    assert_eq!(repo.next_ref(&mut st), Next::Fetch(p2));
    repo.on_fetched(p2, Ok(child), &mut st);
    assert_eq!(repo.next_ref(&mut st), Next::Fetch(p1));
    repo.on_fetched(p1, Ok(parent), &mut st);
    assert_eq!(repo.next_ref(&mut st), Next::Fetch(p2));
    let child = Patch::with_id(p2).add_tag(p1, "a".to_string(), "food".to_string());
    repo.on_fetched(p2, Ok(child), &mut st);
    assert_eq!(repo.next_ref(&mut st), Next::Done);
    assert_eq!(st.into_result(), Ok(()));
    assert_eq!(repo.timesheet().event(&"a".to_string()).unwrap().tags().len(), 2);
}

#[test]
fn replay_step_reports_a_failed_fetch_and_skips_it_later() {
    let p1 = fresh();
    let mut repo = Repository::from_store(MemStore::new(Meta::new())).ok().unwrap();
    let mut st: Replay<MemStoreError> = Replay::new(vec![p1, p1], 10);
    assert_eq!(repo.next_ref(&mut st), Next::Fetch(p1));
    repo.on_fetched(p1, Err(MemStoreError::PatchNotFound { patch_ref: p1 }), &mut st);
    assert_eq!(repo.next_ref(&mut st), Next::Skip(p1));
    assert_eq!(repo.next_ref(&mut st), Next::Done);
    assert_eq!(
        st.into_result(),
        Err(vec![RepositoryError::PatchNotFound { source: MemStoreError::PatchNotFound { patch_ref: p1 }, patch: p1 }])
    );
}

#[test]
fn no_budget_leaves_everything_pending() {
    let p1 = fresh();
    let mut repo = Repository::from_store(MemStore::new(Meta::new())).ok().unwrap();
    assert_eq!(
        repo.load_patches(vec![p1], 0),
        Err(vec![RepositoryError::ReplayLimitReached { pending: vec![p1] }])
    );
    assert_eq!(repo.load_patches(vec![], 0), Ok(()));
}

#[test]
fn from_meta_applies_the_frontier() {
    let p1 = fresh();
    let p2 = fresh();
    let store = MemStore::new(Meta::new())
        .patch(Patch::with_id(p1).create_event("a".to_string(), dt("2019-07-23T12:00:00Z"), sl(&["lunch"])))
        .patch(Patch::with_id(p2).add_tag(p1, "a".to_string(), "food".to_string()));
    let repo = Repository::from_meta(store, meta(&[p2])).ok().unwrap();
    assert!(repo.frontier().contains(p1) && repo.frontier().contains(p2));
    let empty = Repository::from_meta(MemStore::new(Meta::new()), Meta::new());
    assert!(empty.is_ok());
}
