//! The multi-valued aggregate that patches are replayed into.
use crate::repository::event::{Error as EventError, EventState, PatchedEvent};
use crate::store::patch::{CreateEvent, CreateView, OpView, Patch, PatchView};
use crate::time::Timestamp;
use crate::timesheet::{starts_map, Timesheet};
use crate::{EventRef, PatchRef, Tag};
use vstd::prelude::*;

verus! {

/// An entry's key and abstract state.
pub open spec fn entry_view(e: (EventRef, PatchedEvent)) -> (Seq<char>, EventState) {
    (e.0@, e.1@)
}

/// The event ids of a list of entries, in order.
pub open spec fn keys_of(es: Seq<(Seq<char>, EventState)>) -> Seq<Seq<char>> {
    es.map_values(|e: (Seq<char>, EventState)| e.0)
}

/// The index of the entry with key `k` (meaningful where there is one).
pub open spec fn index_of(es: Seq<(Seq<char>, EventState)>, k: Seq<char>) -> int {
    choose|i: int| 0 <= i < es.len() && (#[trigger] es[i]).0 == k
}

/// A list of entries with distinct keys, read as a map.
pub open spec fn entries_map(es: Seq<(Seq<char>, EventState)>) -> Map<Seq<char>, EventState> {
    Map::new(|k: Seq<char>| keys_of(es).contains(k), |k: Seq<char>| es[index_of(es, k)].1)
}

/// One edit of one event's two-phase sets.
pub enum Edit {
    AddStart(PatchRef, Timestamp),
    RemoveStart(PatchRef, Timestamp),
    AddTag(PatchRef, Tag),
    RemoveTag(PatchRef, Tag),
}

pub open spec fn edited(st: EventState, e: Edit) -> EventState {
    match e {
        Edit::AddStart(p, t) => EventState { starts_added: st.starts_added.insert((p, t)), ..st },
        Edit::RemoveStart(p, t) => EventState {
            starts_removed: st.starts_removed.insert((p, t)),
            ..st
        },
        Edit::AddTag(p, t) => EventState { tags_added: st.tags_added.insert((p, t@)), ..st },
        Edit::RemoveTag(p, t) => EventState { tags_removed: st.tags_removed.insert((p, t@)), ..st },
    }
}

/// A conflict found while applying a patch or flattening a timesheet.
#[derive(Debug, Clone, PartialEq, Eq)]
pub enum Error {
    FlattenEventError { source: EventError, event: EventRef },
    DuplicateEventTime { event_a: EventRef, event_b: EventRef },
    UnknownEvent { patch: PatchRef, event: EventRef },
    DuplicateEventId { id: EventRef },
}

pub enum ErrorView {
    FlattenEventError { source: EventError, event: Seq<char> },
    DuplicateEventTime { event_a: Seq<char>, event_b: Seq<char> },
    UnknownEvent { patch: PatchRef, event: Seq<char> },
    DuplicateEventId { id: Seq<char> },
}

impl View for Error {
    type V = ErrorView;

    open spec fn view(&self) -> ErrorView {
        match self {
            Error::FlattenEventError { source, event } => ErrorView::FlattenEventError {
                source: *source,
                event: event@,
            },
            Error::DuplicateEventTime { event_a, event_b } => ErrorView::DuplicateEventTime {
                event_a: event_a@,
                event_b: event_b@,
            },
            Error::UnknownEvent { patch, event } => ErrorView::UnknownEvent {
                patch: *patch,
                event: event@,
            },
            Error::DuplicateEventId { id } => ErrorView::DuplicateEventId { id: id@ },
        }
    }
}

pub open spec fn errors_view(v: Seq<Error>) -> Seq<ErrorView> {
    v.map_values(|e: Error| e@)
}

/// One `UnknownEvent` for each operation, in order, whose event is not known.
pub open spec fn unknown_events<T>(
    id: PatchRef,
    ops: Seq<OpView<T>>,
    known: Set<Seq<char>>,
) -> Seq<ErrorView>
    decreases ops.len(),
{
    if ops.len() == 0 {
        Seq::empty()
    } else {
        let rest = unknown_events(id, ops.drop_last(), known);
        if known.contains(ops.last().event) {
            rest
        } else {
            rest.push(ErrorView::UnknownEvent { patch: id, event: ops.last().event })
        }
    }
}

/// The ids of a list of creations, in order.
pub open spec fn created_ids(cs: Seq<CreateView>) -> Seq<Seq<char>> {
    cs.map_values(|c: CreateView| c.event)
}

/// One `DuplicateEventId` for each creation, in order, whose id is known
/// already or was created by an earlier creation of the list.
pub open spec fn duplicate_ids(cs: Seq<CreateView>, known: Set<Seq<char>>) -> Seq<ErrorView>
    decreases cs.len(),
{
    if cs.len() == 0 {
        Seq::empty()
    } else {
        let rest = duplicate_ids(cs.drop_last(), known);
        let id = cs.last().event;
        if known.contains(id) || created_ids(cs.drop_last()).contains(id) {
            rest.push(ErrorView::DuplicateEventId { id })
        } else {
            rest
        }
    }
}

/// Every conflict of patch `p` against the events `s`: the unknown events of
/// its additions and removals of starts and tags, then its duplicate ids.
pub open spec fn patch_conflicts(s: Map<Seq<char>, EventState>, p: PatchView) -> Seq<
    ErrorView,
> {
    unknown_events(p.id, p.add_start, s.dom()) + unknown_events(p.id, p.remove_start, s.dom())
        + unknown_events(p.id, p.add_tag, s.dom()) + unknown_events(p.id, p.remove_tag, s.dom())
        + duplicate_ids(p.create_event, s.dom())
}

/// The `(patch, value)` pairs that additions among `ops` bring to event `k`,
/// each paired with the adding patch `id`.
pub open spec fn added_pairs<T>(id: PatchRef, ops: Seq<OpView<T>>, k: Seq<char>) -> Set<
    (PatchRef, T),
> {
    Set::new(
        |x: (PatchRef, T)|
            exists|i: int| 0 <= i < ops.len() && (#[trigger] ops[i]).event == k && x == (id, ops[i].value),
    )
}

/// The `(patch, value)` pairs that removals among `ops` take from event `k`.
pub open spec fn removed_pairs<T>(ops: Seq<OpView<T>>, k: Seq<char>) -> Set<(PatchRef, T)> {
    Set::new(
        |x: (PatchRef, T)|
            exists|i: int|
                0 <= i < ops.len() && (#[trigger] ops[i]).event == k && x == (
                    ops[i].target,
                    ops[i].value,
                ),
    )
}

/// The events of `s` once the given additions and removals by patch `id`
/// are applied.
pub open spec fn with_edits(
    s: Map<Seq<char>, EventState>,
    id: PatchRef,
    add_start: Seq<OpView<Timestamp>>,
    remove_start: Seq<OpView<Timestamp>>,
    add_tag: Seq<OpView<Seq<char>>>,
    remove_tag: Seq<OpView<Seq<char>>>,
) -> Map<Seq<char>, EventState> {
    Map::new(
        |k: Seq<char>| s.contains_key(k),
        |k: Seq<char>|
            EventState {
                starts_added: s[k].starts_added.union(added_pairs(id, add_start, k)),
                starts_removed: s[k].starts_removed.union(removed_pairs(remove_start, k)),
                tags_added: s[k].tags_added.union(added_pairs(id, add_tag, k)),
                tags_removed: s[k].tags_removed.union(removed_pairs(remove_tag, k)),
            },
    )
}

/// The state of an event that patch `id` creates with `c`.
pub open spec fn created_state(id: PatchRef, c: CreateView) -> EventState {
    EventState {
        starts_added: set![(id, c.start)],
        starts_removed: Set::empty(),
        tags_added: c.tags.to_set().map(|t: Seq<char>| (id, t)),
        tags_removed: Set::empty(),
    }
}

/// The creation of `k` among `cs` (meaningful where there is one).
pub open spec fn creation_of(cs: Seq<CreateView>, k: Seq<char>) -> CreateView {
    cs[choose|i: int| 0 <= i < cs.len() && (#[trigger] cs[i]).event == k]
}

/// The events `s` after patch `p`: every addition and removal applied to the
/// existing events, and the created events added.
pub open spec fn applied(s: Map<Seq<char>, EventState>, p: PatchView) -> Map<
    Seq<char>,
    EventState,
> {
    Map::new(
        |k: Seq<char>| s.contains_key(k) || created_ids(p.create_event).contains(k),
        |k: Seq<char>|
            if s.contains_key(k) {
                with_edits(s, p.id, p.add_start, p.remove_start, p.add_tag, p.remove_tag)[k]
            } else {
                created_state(p.id, creation_of(p.create_event, k))
            },
    )
}

pub proof fn lemma_added_step<T>(id: PatchRef, ops: Seq<OpView<T>>, i: int, k: Seq<char>)
    requires
        0 <= i < ops.len(),
    ensures
        added_pairs(id, ops.take(i + 1), k) == if ops[i].event == k {
            added_pairs(id, ops.take(i), k).insert((id, ops[i].value))
        } else {
            added_pairs(id, ops.take(i), k)
        },
{
    let a = ops.take(i);
    let b = ops.take(i + 1);
    assert forall|x: (PatchRef, T)| #[trigger] added_pairs(id, b, k).contains(x) implies (if ops[i].event
        == k {
        added_pairs(id, a, k).insert((id, ops[i].value))
    } else {
        added_pairs(id, a, k)
    }).contains(x) by {
        let j = choose|j: int| 0 <= j < b.len() && (#[trigger] b[j]).event == k && x == (id, b[j].value);
        if j < i {
            assert(a[j] == b[j]);
        }
    }
    assert forall|x: (PatchRef, T)| (if ops[i].event == k {
        added_pairs(id, a, k).insert((id, ops[i].value))
    } else {
        added_pairs(id, a, k)
    }).contains(x) implies #[trigger] added_pairs(id, b, k).contains(x) by {
        if added_pairs(id, a, k).contains(x) {
            let j = choose|j: int| 0 <= j < a.len() && (#[trigger] a[j]).event == k && x == (id, a[j].value);
            assert(b[j] == a[j]);
        } else {
            assert(b[i] == ops[i]);
        }
    }
    assert(added_pairs(id, b, k) =~= (if ops[i].event == k {
        added_pairs(id, a, k).insert((id, ops[i].value))
    } else {
        added_pairs(id, a, k)
    }));
}

pub proof fn lemma_removed_step<T>(ops: Seq<OpView<T>>, i: int, k: Seq<char>)
    requires
        0 <= i < ops.len(),
    ensures
        removed_pairs(ops.take(i + 1), k) == if ops[i].event == k {
            removed_pairs(ops.take(i), k).insert((ops[i].target, ops[i].value))
        } else {
            removed_pairs(ops.take(i), k)
        },
{
    let a = ops.take(i);
    let b = ops.take(i + 1);
    let r = if ops[i].event == k {
        removed_pairs(a, k).insert((ops[i].target, ops[i].value))
    } else {
        removed_pairs(a, k)
    };
    assert forall|x: (PatchRef, T)| #[trigger] removed_pairs(b, k).contains(x) implies r.contains(x) by {
        let j = choose|j: int|
            0 <= j < b.len() && (#[trigger] b[j]).event == k && x == (b[j].target, b[j].value);
        if j < i {
            assert(a[j] == b[j]);
        }
    }
    assert forall|x: (PatchRef, T)| r.contains(x) implies #[trigger] removed_pairs(b, k).contains(x) by {
        if removed_pairs(a, k).contains(x) {
            let j = choose|j: int|
                0 <= j < a.len() && (#[trigger] a[j]).event == k && x == (a[j].target, a[j].value);
            assert(b[j] == a[j]);
        } else {
            assert(b[i] == ops[i]);
        }
    }
    assert(removed_pairs(b, k) =~= r);
}

/// With no operations, nothing changes.
pub proof fn lemma_no_edits(s: Map<Seq<char>, EventState>, id: PatchRef)
    ensures
        with_edits(s, id, Seq::empty(), Seq::empty(), Seq::empty(), Seq::empty()) == s,
{
    let e = with_edits(s, id, Seq::empty(), Seq::empty(), Seq::empty(), Seq::empty());
    assert forall|k: Seq<char>| #[trigger] s.contains_key(k) implies e[k] == s[k] by {
        assert(added_pairs(id, Seq::<OpView<Timestamp>>::empty(), k) =~= Set::empty());
        assert(removed_pairs(Seq::<OpView<Timestamp>>::empty(), k) =~= Set::empty());
        assert(added_pairs(id, Seq::<OpView<Seq<char>>>::empty(), k) =~= Set::empty());
        assert(removed_pairs(Seq::<OpView<Seq<char>>>::empty(), k) =~= Set::empty());
        assert(e[k].starts_added =~= s[k].starts_added);
        assert(e[k].starts_removed =~= s[k].starts_removed);
        assert(e[k].tags_added =~= s[k].tags_added);
        assert(e[k].tags_removed =~= s[k].tags_removed);
    }
    assert(e =~= s);
}

/// Where no operation is reported, every operation's event is known.
pub proof fn lemma_unknown_events_empty<T>(id: PatchRef, ops: Seq<OpView<T>>, known: Set<Seq<char>>)
    requires
        unknown_events(id, ops, known).len() == 0,
    ensures
        forall|i: int| 0 <= i < ops.len() ==> known.contains((#[trigger] ops[i]).event),
    decreases ops.len(),
{
    if ops.len() > 0 {
        let rest = unknown_events(id, ops.drop_last(), known);
        if !known.contains(ops.last().event) {
            assert(unknown_events(id, ops, known).len() == rest.len() + 1);
        }
        lemma_unknown_events_empty(id, ops.drop_last(), known);
        assert forall|i: int| 0 <= i < ops.len() implies known.contains((#[trigger] ops[i]).event) by {
            if i < ops.len() - 1 {
                assert(ops.drop_last()[i] == ops[i]);
            }
        }
    }
}

/// Where no duplicate id is reported, the created ids are new and distinct.
pub proof fn lemma_duplicate_ids_empty(cs: Seq<CreateView>, known: Set<Seq<char>>)
    requires
        duplicate_ids(cs, known).len() == 0,
    ensures
        created_ids(cs).no_duplicates(),
        forall|i: int| 0 <= i < cs.len() ==> !known.contains((#[trigger] cs[i]).event),
    decreases cs.len(),
{
    if cs.len() > 0 {
        let rest = duplicate_ids(cs.drop_last(), known);
        let id = cs.last().event;
        if known.contains(id) || created_ids(cs.drop_last()).contains(id) {
            assert(duplicate_ids(cs, known).len() == rest.len() + 1);
        }
        lemma_duplicate_ids_empty(cs.drop_last(), known);
        let ids = created_ids(cs);
        let pre = created_ids(cs.drop_last());
        assert(ids == pre.push(id));
        assert forall|i: int, j: int| 0 <= i < ids.len() && 0 <= j < ids.len() && i != j implies ids[i] != ids[j] by {
            if j == ids.len() - 1 {
                assert(pre[i] == ids[i]);
            } else if i == ids.len() - 1 {
                assert(pre[j] == ids[j]);
            } else {
                assert(pre[i] == ids[i] && pre[j] == ids[j]);
            }
        }
        assert forall|i: int| 0 <= i < cs.len() implies !known.contains((#[trigger] cs[i]).event) by {
            if i < cs.len() - 1 {
                assert(cs.drop_last()[i] == cs[i]);
            }
        }
    }
}

/// A patch without conflicts only edits known events and creates new,
/// distinct ones.
pub proof fn lemma_no_conflicts(s: Map<Seq<char>, EventState>, p: PatchView)
    requires
        patch_conflicts(s, p).len() == 0,
    ensures
        forall|i: int| 0 <= i < p.add_start.len() ==> s.contains_key((#[trigger] p.add_start[i]).event),
        forall|i: int| 0 <= i < p.remove_start.len() ==> s.contains_key((#[trigger] p.remove_start[i]).event),
        forall|i: int| 0 <= i < p.add_tag.len() ==> s.contains_key((#[trigger] p.add_tag[i]).event),
        forall|i: int| 0 <= i < p.remove_tag.len() ==> s.contains_key((#[trigger] p.remove_tag[i]).event),
        created_ids(p.create_event).no_duplicates(),
        forall|i: int| 0 <= i < p.create_event.len() ==> !s.contains_key((#[trigger] p.create_event[i]).event),
{
    let d = s.dom();
    lemma_unknown_events_empty(p.id, p.add_start, d);
    lemma_unknown_events_empty(p.id, p.remove_start, d);
    lemma_unknown_events_empty(p.id, p.add_tag, d);
    lemma_unknown_events_empty(p.id, p.remove_tag, d);
    lemma_duplicate_ids_empty(p.create_event, d);
}

/// The event that last claimed each start time, going through `es` in order
/// and counting only the events with a single start time.
pub open spec fn flat_claims(es: Seq<(Seq<char>, EventState)>) -> Map<Timestamp, Seq<char>>
    decreases es.len(),
{
    if es.len() == 0 {
        Map::empty()
    } else {
        let rest = flat_claims(es.drop_last());
        match es.last().1.flat_start() {
            Ok(t) => rest.insert(t, es.last().0),
            Err(_) => rest,
        }
    }
}

/// The conflicts found while flattening `es` in order: a `FlattenEventError`
/// for each event without a single start time, and a `DuplicateEventTime`
/// for each event whose start time an earlier event claimed (naming the
/// latest such event first).
pub open spec fn flat_errors(es: Seq<(Seq<char>, EventState)>) -> Seq<ErrorView>
    decreases es.len(),
{
    if es.len() == 0 {
        Seq::empty()
    } else {
        let rest = flat_errors(es.drop_last());
        let claims = flat_claims(es.drop_last());
        let k = es.last().0;
        match es.last().1.flat_start() {
            Err(e) => rest.push(ErrorView::FlattenEventError { source: e, event: k }),
            Ok(t) => if claims.contains_key(t) {
                rest.push(ErrorView::DuplicateEventTime { event_a: claims[t], event_b: k })
            } else {
                rest
            },
        }
    }
}

/// This representation of a timesheet is an intermediate form that allows
/// an event to have several start times.
#[derive(Debug)]
pub struct PatchedTimesheet {
    events: Vec<(EventRef, PatchedEvent)>,
}

impl View for PatchedTimesheet {
    type V = Map<Seq<char>, EventState>;

    closed spec fn view(&self) -> Map<Seq<char>, EventState> {
        entries_map(self.entries())
    }
}

impl PatchedTimesheet {
    /// The events in the order in which they were created.
    pub closed spec fn entries(&self) -> Seq<(Seq<char>, EventState)> {
        self.events@.map_values(|e: (EventRef, PatchedEvent)| entry_view(e))
    }

    /// Event ids are distinct and every event is well formed.
    pub closed spec fn wf(&self) -> bool {
        &&& keys_of(self.entries()).no_duplicates()
        &&& forall|i: int| 0 <= i < self.events@.len() ==> (#[trigger] self.events@[i]).1.wf()
    }

    /// How the entries make up the map.
    pub proof fn lemma_view(&self)
        requires
            self.wf(),
        ensures
            keys_of(self.entries()).no_duplicates(),
            self@ == entries_map(self.entries()),
            forall|i: int|
                0 <= i < self.entries().len() ==> self@.contains_key(
                    (#[trigger] self.entries()[i]).0,
                ) && self@[self.entries()[i].0] == self.entries()[i].1,
            forall|k: Seq<char>| self@.contains_key(k) <==> keys_of(self.entries()).contains(k),
            forall|k: Seq<char>| #[trigger] self@.contains_key(k) ==> self@[k].is_finite(),
    {
        let es = self.entries();
        assert forall|i: int| 0 <= i < es.len() implies self@.contains_key(
            (#[trigger] es[i]).0,
        ) && self@[es[i].0] == es[i].1 by {
            assert(keys_of(es)[i] == es[i].0);
            let j = index_of(es, es[i].0);
            assert(keys_of(es)[j] == es[i].0);
        }
        assert forall|k: Seq<char>| #[trigger] self@.contains_key(k) implies self@[k].is_finite() by {
            let j = index_of(es, k);
            let i = choose|i: int| 0 <= i < keys_of(es).len() && keys_of(es)[i] == k;
            assert(es[i].0 == k);
            self.events@[j].1.lemma_finite();
        }
    }

    pub fn new() -> (r: PatchedTimesheet)
        ensures
            r.wf(),
            r@ == Map::<Seq<char>, EventState>::empty(),
            r.entries().len() == 0,
    {
        let r = PatchedTimesheet { events: Vec::new() };
        assert(r.entries() =~= Seq::empty());
        assert(keys_of(r.entries()) =~= Seq::empty());
        assert(r@ =~= Map::empty());
        r
    }

    /// The position of event `k`, if there is one.
    fn find(&self, k: &EventRef) -> (r: Option<usize>)
        requires
            self.wf(),
        ensures
            match r {
                Some(i) => i < self.entries().len() && self.entries()[i as int].0 == k@,
                None => !self@.contains_key(k@),
            },
    {
        let mut i: usize = 0;
        while i < self.events.len()
            invariant
                0 <= i <= self.events.len(),
                forall|j: int| 0 <= j < i ==> (#[trigger] self.events@[j]).0@ != k@,
            decreases self.events.len() - i,
        {
            if self.events[i].0 == *k {
                return Some(i);
            }
            i += 1;
        }
        proof {
            self.lemma_view();
            if self@.contains_key(k@) {
                let es = self.entries();
                let j = choose|j: int| 0 <= j < keys_of(es).len() && keys_of(es)[j] == k@;
                assert(es[j].0 == self.events@[j].0@);
            }
        }
        None
    }

    /// The state of event `k`, if it was created.
    pub fn event(&self, k: &EventRef) -> (r: Option<&PatchedEvent>)
        requires
            self.wf(),
        ensures
            match r {
                Some(e) => self@.contains_key(k@) && e@ == self@[k@] && e.wf(),
                None => !self@.contains_key(k@),
            },
    {
        match self.find(k) {
            Some(i) => {
                proof {
                    self.lemma_view();
                    assert(self.entries()[i as int] == entry_view(self.events@[i as int]));
                }
                Some(&self.events[i].1)
            },
            None => None,
        }
    }

    /// Appends an `UnknownEvent` to `errors` where `k` is not known.
    fn check_known(&self, id: PatchRef, k: &EventRef, errors: &mut Vec<Error>)
        requires
            self.wf(),
        ensures
            errors_view(final(errors)@) == if self@.contains_key(k@) {
                errors_view(old(errors)@)
            } else {
                errors_view(old(errors)@).push(ErrorView::UnknownEvent { patch: id, event: k@ })
            },
    {
        if self.find(k).is_none() {
            errors.push(Error::UnknownEvent { patch: id, event: k.clone() });
            assert(errors_view(errors@) =~= errors_view(old(errors)@).push(
                ErrorView::UnknownEvent { patch: id, event: k@ },
            ));
        } else {
            proof {
                self.lemma_view();
            }
        }
    }

    /// Collects every conflict of `patch` with the current events, without
    /// changing anything.
    fn verify_patch(&self, patch: &Patch) -> (r: Result<(), Vec<Error>>)
        requires
            self.wf(),
        ensures
            match r {
                Ok(()) => patch_conflicts(self@, patch@).len() == 0,
                Err(errors) => errors_view(errors@) == patch_conflicts(self@, patch@)
                    && errors@.len() > 0,
            },
    {
        let ghost p = patch@;
        let ghost known = self@.dom();
        let mut errors: Vec<Error> = Vec::new();
        let mut i: usize = 0;
        while i < patch.add_start.len()
            invariant
                0 <= i <= patch.add_start.len(),
                self.wf(),
                p == patch@,
                known == self@.dom(),
                errors_view(errors@) == unknown_events(p.id, p.add_start.take(i as int), known),
            decreases patch.add_start.len() - i,
        {
            assert(p.add_start.take(i + 1).drop_last() == p.add_start.take(i as int));
            self.check_known(patch.id, &patch.add_start[i].event, &mut errors);
            i += 1;
        }
        assert(p.add_start.take(p.add_start.len() as int) == p.add_start);
        let ghost e1 = errors_view(errors@);
        let mut i: usize = 0;
        while i < patch.remove_start.len()
            invariant
                0 <= i <= patch.remove_start.len(),
                self.wf(),
                p == patch@,
                known == self@.dom(),
                errors_view(errors@) == e1 + unknown_events(
                    p.id,
                    p.remove_start.take(i as int),
                    known,
                ),
            decreases patch.remove_start.len() - i,
        {
            assert(p.remove_start.take(i + 1).drop_last() == p.remove_start.take(i as int));
            self.check_known(patch.id, &patch.remove_start[i].event, &mut errors);
            assert(errors_view(errors@) =~= e1 + unknown_events(
                p.id,
                p.remove_start.take(i + 1),
                known,
            ));
            i += 1;
        }
        assert(p.remove_start.take(p.remove_start.len() as int) == p.remove_start);
        let ghost e2 = errors_view(errors@);
        let mut i: usize = 0;
        while i < patch.add_tag.len()
            invariant
                0 <= i <= patch.add_tag.len(),
                self.wf(),
                p == patch@,
                known == self@.dom(),
                errors_view(errors@) == e2 + unknown_events(p.id, p.add_tag.take(i as int), known),
            decreases patch.add_tag.len() - i,
        {
            assert(p.add_tag.take(i + 1).drop_last() == p.add_tag.take(i as int));
            self.check_known(patch.id, &patch.add_tag[i].event, &mut errors);
            assert(errors_view(errors@) =~= e2 + unknown_events(
                p.id,
                p.add_tag.take(i + 1),
                known,
            ));
            i += 1;
        }
        assert(p.add_tag.take(p.add_tag.len() as int) == p.add_tag);
        let ghost e3 = errors_view(errors@);
        let mut i: usize = 0;
        while i < patch.remove_tag.len()
            invariant
                0 <= i <= patch.remove_tag.len(),
                self.wf(),
                p == patch@,
                known == self@.dom(),
                errors_view(errors@) == e3 + unknown_events(
                    p.id,
                    p.remove_tag.take(i as int),
                    known,
                ),
            decreases patch.remove_tag.len() - i,
        {
            assert(p.remove_tag.take(i + 1).drop_last() == p.remove_tag.take(i as int));
            self.check_known(patch.id, &patch.remove_tag[i].event, &mut errors);
            assert(errors_view(errors@) =~= e3 + unknown_events(
                p.id,
                p.remove_tag.take(i + 1),
                known,
            ));
            i += 1;
        }
        assert(p.remove_tag.take(p.remove_tag.len() as int) == p.remove_tag);
        let ghost e4 = errors_view(errors@);
        let mut seen: Vec<EventRef> = Vec::new();
        let mut i: usize = 0;
        while i < patch.create_event.len()
            invariant
                0 <= i <= patch.create_event.len(),
                self.wf(),
                p == patch@,
                known == self@.dom(),
                crate::timesheet::names_view(seen@) == created_ids(p.create_event.take(i as int)),
                errors_view(errors@) == e4 + duplicate_ids(p.create_event.take(i as int), known),
            decreases patch.create_event.len() - i,
        {
            let id = &patch.create_event[i].event;
            let ghost cs = p.create_event.take(i + 1);
            assert(cs.drop_last() == p.create_event.take(i as int));
            assert(cs.last().event == id@);
            let in_patch = crate::timesheet::contains_name(&seen, id);
            let present = self.find(id).is_some();
            proof {
                self.lemma_view();
                assert(created_ids(cs) =~= created_ids(cs.drop_last()).push(id@));
                assert(present == known.contains(id@));
                assert(in_patch == created_ids(cs.drop_last()).contains(id@));
            }
            let ghost before = errors@;
            if present || in_patch {
                errors.push(Error::DuplicateEventId { id: id.clone() });
                assert(errors_view(errors@) =~= errors_view(before).push(
                    ErrorView::DuplicateEventId { id: id@ },
                ));
            }
            assert(errors_view(errors@) =~= e4 + duplicate_ids(cs, known));
            let ghost seen_before = seen@;
            seen.push(id.clone());
            assert(crate::timesheet::names_view(seen@) =~= crate::timesheet::names_view(
                seen_before,
            ).push(id@));
            i += 1;
        }
        assert(p.create_event.take(p.create_event.len() as int) == p.create_event);
        assert(errors_view(errors@) =~= patch_conflicts(self@, p));
        if errors.len() > 0 {
            Err(errors)
        } else {
            Ok(())
        }
    }

    /// Checks `patch` against the current events and, where nothing
    /// conflicts, applies every one of its operations; otherwise changes
    /// nothing and returns every conflict.
    pub fn apply_patch(&mut self, patch: &Patch) -> (r: Result<(), Vec<Error>>)
        requires
            old(self).wf(),
        ensures
            final(self).wf(),
            match r {
                Ok(()) => {
                    &&& patch_conflicts(old(self)@, patch@).len() == 0
                    &&& final(self)@ == applied(old(self)@, patch@)
                    &&& keys_of(final(self).entries()) == keys_of(old(self).entries()) + created_ids(
                        patch@.create_event,
                    )
                },
                Err(errors) => {
                    &&& errors_view(errors@) == patch_conflicts(old(self)@, patch@)
                    &&& errors@.len() > 0
                    &&& final(self)@ == old(self)@
                    &&& final(self).entries() == old(self).entries()
                },
            },
    {
        if let Err(errors) = self.verify_patch(patch) {
            return Err(errors);
        }
        let ghost s = self@;
        let ghost keys0 = keys_of(self.entries());
        let ghost p = patch@;
        let id = patch.id;
        proof {
            lemma_no_conflicts(s, p);
            lemma_no_edits(s, id);
        }
        assert(p.add_start.take(0) =~= Seq::empty());
        let mut i: usize = 0;
        while i < patch.add_start.len()
            invariant
                0 <= i <= patch.add_start.len(),
                self.wf(),
                p == patch@,
                id == p.id,
                forall|j: int| 0 <= j < p.add_start.len() ==> s.contains_key((#[trigger] p.add_start[j]).event),
                keys_of(self.entries()) == keys0,
                self@ == with_edits(s, id, p.add_start.take(i as int), Seq::empty(), Seq::empty(), Seq::empty()),
            decreases patch.add_start.len() - i,
        {
            let op = &patch.add_start[i];
            let ghost prev = self@;
            assert(p.add_start[i as int] == op@);
            self.edit_event(&op.event, Edit::AddStart(id, op.time));
            proof {
                let n = with_edits(s, id, p.add_start.take(i + 1), Seq::empty(), Seq::empty(), Seq::empty());
                assert forall|k: Seq<char>| #[trigger] n.contains_key(k) implies n[k] == self@[k] by {
                    lemma_added_step(id, p.add_start, i as int, k);
                    assert(n[k].starts_added =~= self@[k].starts_added);
                }
                assert(self@ =~= n);
            }
            i += 1;
        }
        assert(p.add_start.take(p.add_start.len() as int) == p.add_start);
        assert(p.remove_start.take(0) =~= Seq::empty());
        let mut i: usize = 0;
        while i < patch.remove_start.len()
            invariant
                0 <= i <= patch.remove_start.len(),
                self.wf(),
                p == patch@,
                id == p.id,
                forall|j: int| 0 <= j < p.remove_start.len() ==> s.contains_key((#[trigger] p.remove_start[j]).event),
                keys_of(self.entries()) == keys0,
                self@ == with_edits(s, id, p.add_start, p.remove_start.take(i as int), Seq::empty(), Seq::empty()),
            decreases patch.remove_start.len() - i,
        {
            let op = &patch.remove_start[i];
            assert(p.remove_start[i as int] == op@);
            self.edit_event(&op.event, Edit::RemoveStart(op.patch, op.time));
            proof {
                let n = with_edits(s, id, p.add_start, p.remove_start.take(i + 1), Seq::empty(), Seq::empty());
                assert forall|k: Seq<char>| #[trigger] n.contains_key(k) implies n[k] == self@[k] by {
                    lemma_removed_step(p.remove_start, i as int, k);
                    assert(n[k].starts_removed =~= self@[k].starts_removed);
                }
                assert(self@ =~= n);
            }
            i += 1;
        }
        assert(p.remove_start.take(p.remove_start.len() as int) == p.remove_start);
        assert(p.add_tag.take(0) =~= Seq::empty());
        let mut i: usize = 0;
        while i < patch.add_tag.len()
            invariant
                0 <= i <= patch.add_tag.len(),
                self.wf(),
                p == patch@,
                id == p.id,
                forall|j: int| 0 <= j < p.add_tag.len() ==> s.contains_key((#[trigger] p.add_tag[j]).event),
                keys_of(self.entries()) == keys0,
                self@ == with_edits(s, id, p.add_start, p.remove_start, p.add_tag.take(i as int), Seq::empty()),
            decreases patch.add_tag.len() - i,
        {
            let op = &patch.add_tag[i];
            assert(p.add_tag[i as int] == op@);
            self.edit_event(&op.event, Edit::AddTag(id, op.tag.clone()));
            proof {
                let n = with_edits(s, id, p.add_start, p.remove_start, p.add_tag.take(i + 1), Seq::empty());
                assert forall|k: Seq<char>| #[trigger] n.contains_key(k) implies n[k] == self@[k] by {
                    lemma_added_step(id, p.add_tag, i as int, k);
                    assert(n[k].tags_added =~= self@[k].tags_added);
                }
                assert(self@ =~= n);
            }
            i += 1;
        }
        assert(p.add_tag.take(p.add_tag.len() as int) == p.add_tag);
        assert(p.remove_tag.take(0) =~= Seq::empty());
        let mut i: usize = 0;
        while i < patch.remove_tag.len()
            invariant
                0 <= i <= patch.remove_tag.len(),
                self.wf(),
                p == patch@,
                id == p.id,
                forall|j: int| 0 <= j < p.remove_tag.len() ==> s.contains_key((#[trigger] p.remove_tag[j]).event),
                keys_of(self.entries()) == keys0,
                self@ == with_edits(s, id, p.add_start, p.remove_start, p.add_tag, p.remove_tag.take(i as int)),
            decreases patch.remove_tag.len() - i,
        {
            let op = &patch.remove_tag[i];
            assert(p.remove_tag[i as int] == op@);
            self.edit_event(&op.event, Edit::RemoveTag(op.patch, op.tag.clone()));
            proof {
                let n = with_edits(s, id, p.add_start, p.remove_start, p.add_tag, p.remove_tag.take(i + 1));
                assert forall|k: Seq<char>| #[trigger] n.contains_key(k) implies n[k] == self@[k] by {
                    lemma_removed_step(p.remove_tag, i as int, k);
                    assert(n[k].tags_removed =~= self@[k].tags_removed);
                }
                assert(self@ =~= n);
            }
            i += 1;
        }
        assert(p.remove_tag.take(p.remove_tag.len() as int) == p.remove_tag);
        let ghost s1 = self@;
        let cs = &patch.create_event;
        let mut i: usize = 0;
        while i < cs.len()
            invariant
                0 <= i <= cs.len(),
                self.wf(),
                p == patch@,
                id == p.id,
                p.create_event == cs@.map_values(|c: CreateEvent| c@),
                s1 == with_edits(s, p.id, p.add_start, p.remove_start, p.add_tag, p.remove_tag),
                s1.dom() == s.dom(),
                created_ids(p.create_event).no_duplicates(),
                forall|j: int| 0 <= j < p.create_event.len() ==> !s.contains_key((#[trigger] p.create_event[j]).event),
                keys_of(self.entries()) == keys0 + created_ids(p.create_event.take(i as int)),
                keys_of(self.entries()).no_duplicates(),
                self@ == Map::new(
                    |k: Seq<char>| s.contains_key(k) || created_ids(p.create_event.take(i as int)).contains(k),
                    |k: Seq<char>| if s.contains_key(k) { s1[k] } else { created_state(id, creation_of(p.create_event, k)) },
                ),
            decreases cs.len() - i,
        {
            let c = &cs[i];
            let ghost cv = c@;
            assert(p.create_event[i as int] == cv);
            let mut ev = PatchedEvent::new();
            ev.add_start(id, c.start);
            let mut j: usize = 0;
            while j < c.tags.len()
                invariant
                    0 <= j <= c.tags.len(),
                    ev.wf(),
                    cv == c@,
                    ev@.starts_added == set![(id, c.start)],
                    ev@.starts_removed == Set::<(PatchRef, Timestamp)>::empty(),
                    ev@.tags_removed == Set::<(PatchRef, Seq<char>)>::empty(),
                    ev@.tags_added == cv.tags.take(j as int).to_set().map(|t: Seq<char>| (id, t)),
                decreases c.tags.len() - j,
            {
                let ghost t = c.tags[j as int]@;
                assert(cv.tags[j as int] == t);
                proof {
                    assert(cv.tags.take(j + 1) == cv.tags.take(j as int).push(t));
                    crate::repository::event::lemma_push_to_set(cv.tags.take(j as int), t);
                    cv.tags.take(j as int).to_set().lemma_set_map_insert_commute(t, |t: Seq<char>| (id, t));
                }
                ev.add_tag(id, c.tags[j].clone());
                j += 1;
            }
            proof {
                assert(cv.tags.take(cv.tags.len() as int) == cv.tags);
                assert(Set::<(PatchRef, Timestamp)>::empty().insert((id, c.start)) == set![(id, c.start)]);
                assert(ev@ == created_state(id, cv));
                let ids = created_ids(p.create_event);
                assert(ids[i as int] == cv.event);
                assert(creation_of(p.create_event, cv.event) == cv) by {
                    let j = choose|j: int| 0 <= j < p.create_event.len() && (#[trigger] p.create_event[j]).event == cv.event;
                    assert(ids[j] == ids[i as int]);
                }
                assert(!self@.contains_key(cv.event)) by {
                    if self@.contains_key(cv.event) {
                        assert(!s.contains_key(cv.event));
                        let pre = created_ids(p.create_event.take(i as int));
                        let j = choose|j: int| 0 <= j < pre.len() && pre[j] == cv.event;
                        assert(ids[j] == pre[j]);
                    }
                }
            }
            let key = c.event.clone();
            let ghost e_before = self.entries();
            let ghost prev = self@;
            self.insert_new(key, ev);
            proof {
                assert(keys_of(self.entries()) =~= keys_of(e_before).push(cv.event));
                let pre = created_ids(p.create_event.take(i as int));
                let post = created_ids(p.create_event.take(i + 1));
                assert(post =~= pre.push(cv.event));
                assert(keys_of(self.entries()) =~= keys0 + post);
                let n = Map::new(
                    |k: Seq<char>| s.contains_key(k) || post.contains(k),
                    |k: Seq<char>| if s.contains_key(k) { s1[k] } else { created_state(id, creation_of(p.create_event, k)) },
                );
                assert forall|k: Seq<char>| #[trigger] n.contains_key(k) <==> self@.contains_key(k) by {
                    if post.contains(k) && k != cv.event {
                        let j = choose|j: int| 0 <= j < post.len() && post[j] == k;
                        assert(pre[j] == k);
                    }
                    if pre.contains(k) {
                        let j = choose|j: int| 0 <= j < pre.len() && pre[j] == k;
                        assert(post[j] == k);
                    }
                    assert(post[i as int] == cv.event);
                }
                assert(self@.dom() =~= n.dom());
                assert forall|k: Seq<char>| #[trigger] n.contains_key(k) implies n[k] == self@[k] by {
                    if k != cv.event {
                        assert(self@[k] == prev[k]);
                    }
                }
                assert(self@ =~= n);
            }
            i += 1;
        }
        proof {
            assert(p.create_event.take(p.create_event.len() as int) == p.create_event);
            assert(self@ =~= applied(s, p));
        }
        Ok(())
    }

    /// Collapses every event to its single start time and tags; refuses,
    /// with every conflict found, where an event has no single start time or
    /// two events start at the same time.
    pub fn flatten(&self) -> (r: Result<Timesheet<'_>, Vec<Error>>)
        requires
            self.wf(),
        ensures
            match r {
                Ok(ts) => {
                    &&& flat_errors(self.entries()).len() == 0
                    &&& ts.wf()
                    &&& crate::timesheet::strictly_sorted(ts.starts())
                    &&& ts.patched() == self@
                    &&& starts_map(ts.starts()) == flat_claims(self.entries())
                },
                Err(errors) => errors_view(errors@) == flat_errors(self.entries()) && errors@.len()
                    > 0,
            },
    {
        let ghost es = self.entries();
        proof {
            self.lemma_view();
        }
        let mut timesheet = Timesheet::new(self);
        let mut errors: Vec<Error> = Vec::new();
        assert(starts_map(timesheet.starts()) =~= Map::empty());
        assert(es.take(0) =~= Seq::empty());
        assert(errors_view(errors@) =~= Seq::empty());
        let mut i: usize = 0;
        while i < self.events.len()
            invariant
                0 <= i <= self.events.len(),
                self.wf(),
                es == self.entries(),
                es.len() == self.events.len(),
                forall|j: int| 0 <= j < es.len() ==> self@.contains_key((#[trigger] es[j]).0),
                timesheet.wf(),
                timesheet.patched() == self@,
                starts_map(timesheet.starts()) == flat_claims(es.take(i as int)),
                errors_view(errors@) == flat_errors(es.take(i as int)),
            decreases self.events.len() - i,
        {
            let key = &self.events[i].0;
            let ghost pre = es.take(i as int);
            let ghost cur = es.take(i + 1);
            assert(cur.drop_last() == pre);
            assert(cur.last() == es[i as int]);
            assert(es[i as int] == (key@, self.events@[i as int].1@));
            assert(self.events@[i as int].1.wf());
            let ghost before = errors_view(errors@);
            match self.events[i].1.flatten() {
                Ok(event) => {
                    let start = *event.start();
                    match timesheet.event_at_time(start, key.clone()) {
                        Some(prev) => {
                            errors.push(
                                Error::DuplicateEventTime { event_a: prev, event_b: key.clone() },
                            );
                            assert(errors_view(errors@) =~= before.push(
                                ErrorView::DuplicateEventTime {
                                    event_a: flat_claims(pre)[start],
                                    event_b: key@,
                                },
                            ));
                        },
                        None => {},
                    }
                },
                Err(source) => {
                    errors.push(Error::FlattenEventError { source, event: key.clone() });
                    assert(errors_view(errors@) =~= before.push(
                        ErrorView::FlattenEventError { source, event: key@ },
                    ));
                },
            }
            i += 1;
        }
        assert(es.take(es.len() as int) == es);
        proof {
            timesheet.lemma_sorted();
        }
        if errors.len() > 0 {
            Err(errors)
        } else {
            Ok(timesheet)
        }
    }

    /// Adds the new event `k`.
    fn insert_new(&mut self, k: EventRef, ev: PatchedEvent)
        requires
            old(self).wf(),
            ev.wf(),
            !old(self)@.contains_key(k@),
        ensures
            final(self).wf(),
            final(self)@ == old(self)@.insert(k@, ev@),
            final(self).entries() == old(self).entries().push((k@, ev@)),
    {
        let ghost kv = k@;
        let ghost evv = ev@;
        proof {
            old(self).lemma_view();
        }
        self.events.push((k, ev));
        proof {
            let o = old(self).entries();
            let n = self.entries();
            assert(n =~= o.push((kv, evv)));
            assert(keys_of(n) =~= keys_of(o).push(kv));
            crate::repository::event::lemma_push_no_dup(keys_of(o), kv);
            assert forall|j: int| 0 <= j < self.events@.len() implies (#[trigger] self.events@[j]).1.wf() by {
                if j < old(self).events@.len() {
                    assert(self.events@[j] == old(self).events@[j]);
                }
            }
            self.lemma_view();
            assert forall|kk: Seq<char>| #[trigger] self@.contains_key(kk) <==> old(self)@.insert(kv, evv).contains_key(kk) by {
                if keys_of(n).contains(kk) && kk != kv {
                    let j = choose|j: int| 0 <= j < keys_of(n).len() && keys_of(n)[j] == kk;
                    assert(keys_of(o)[j] == kk);
                }
                if keys_of(o).contains(kk) {
                    let j = choose|j: int| 0 <= j < keys_of(o).len() && keys_of(o)[j] == kk;
                    assert(keys_of(n)[j] == kk);
                }
                assert(keys_of(n)[o.len() as int] == kv);
            }
            assert forall|kk: Seq<char>| #[trigger] self@.contains_key(kk) implies self@[kk] == old(self)@.insert(kv, evv)[kk] by {
                let j = choose|j: int| 0 <= j < keys_of(n).len() && keys_of(n)[j] == kk;
                assert(n[j].0 == kk);
                if j < o.len() {
                    assert(o[j] == n[j]);
                }
            }
            assert(self@ =~= old(self)@.insert(kv, evv));
        }
    }

    /// Applies one edit to the existing event `k`.
    fn edit_event(&mut self, k: &EventRef, e: Edit)
        requires
            old(self).wf(),
            old(self)@.contains_key(k@),
        ensures
            final(self).wf(),
            final(self)@ == old(self)@.insert(k@, edited(old(self)@[k@], e)),
            keys_of(final(self).entries()) == keys_of(old(self).entries()),
    {
        let i = match self.find(k) {
            Some(i) => i,
            None => {
                assert(false);
                0
            },
        };
        proof {
            old(self).lemma_view();
        }
        let (key, mut ev) = self.events.remove(i);
        assert(ev.wf());
        match e {
            Edit::AddStart(p, t) => ev.add_start(p, t),
            Edit::RemoveStart(p, t) => ev.remove_start(p, t),
            Edit::AddTag(p, t) => ev.add_tag(p, t),
            Edit::RemoveTag(p, t) => ev.remove_tag(p, t),
        }
        self.events.insert(i, (key, ev));
        proof {
            let o = old(self).entries();
            let n = self.entries();
            assert(self.events@ == old(self).events@.update(i as int, (key, ev)));
            assert(n == o.update(i as int, (k@, ev@)));
            assert(keys_of(n) =~= keys_of(o));
            assert forall|j: int| 0 <= j < self.events@.len() implies (
            #[trigger] self.events@[j]).1.wf() by {
                if j != i {
                    assert(self.events@[j] == old(self).events@[j]);
                }
            }
            self.lemma_view();
            assert(ev@ == edited(old(self)@[k@], e));
            assert forall|kk: Seq<char>| #[trigger] self@.contains_key(kk) <==> old(self)@.insert(
                k@,
                ev@,
            ).contains_key(kk) by {}
            assert forall|kk: Seq<char>| #[trigger] self@.contains_key(kk) implies self@[kk]
                == old(self)@.insert(k@, ev@)[kk] by {
                let j = choose|j: int| 0 <= j < keys_of(n).len() && keys_of(n)[j] == kk;
                assert(n[j].0 == kk);
                if j != i {
                    assert(o[j] == n[j]);
                    assert(kk != k@) by {
                        assert(keys_of(o)[j] == kk && keys_of(o)[i as int] == k@);
                    }
                }
            }
            assert(self@ =~= old(self)@.insert(k@, ev@));
        }
    }
}

} // verus!
