//! Patches: immutable, identified bundles of operations on events.
use crate::time::Timestamp;
use crate::timesheet::names_view;
use crate::{EventRef, PatchRef, Tag};
use vstd::prelude::*;

verus! {

/// Relies on `uuid::Uuid::new_v4` and `Uuid::as_u128`: a random reference,
/// about which nothing is promised.
#[verifier::external_body]
fn random_patch_ref() -> (r: PatchRef) {
    uuid::Uuid::new_v4().as_u128()
}

/// Adds a start time to an existing event.
#[derive(Debug, Clone)]
pub struct AddStart {
    pub parents: Vec<PatchRef>,
    pub parent: PatchRef,
    pub event: EventRef,
    pub time: Timestamp,
}

/// Removes the start time that patch `patch` added to an event.
#[derive(Debug, Clone)]
pub struct RemoveStart {
    pub parents: Vec<PatchRef>,
    pub patch: PatchRef,
    pub event: EventRef,
    pub time: Timestamp,
}

/// Adds a tag to an existing event.
#[derive(Debug, Clone)]
pub struct AddTag {
    pub parents: Vec<PatchRef>,
    pub parent: PatchRef,
    pub event: EventRef,
    pub tag: Tag,
}

/// Removes the tag that patch `patch` added to an event.
#[derive(Debug, Clone)]
pub struct RemoveTag {
    pub parents: Vec<PatchRef>,
    pub patch: PatchRef,
    pub event: EventRef,
    pub tag: Tag,
}

/// Creates a new event with its first start time and tags.
#[derive(Debug, Clone)]
pub struct CreateEvent {
    pub event: EventRef,
    pub start: Timestamp,
    pub tags: Vec<Tag>,
}

/// The abstract content of one operation that edits an existing event:
/// the event, the patch it points at (`target`: the parent for an addition,
/// the patch whose pair is removed for a removal), the other parents, and
/// the value (a start time, or a tag).
pub struct OpView<T> {
    pub parents: Seq<PatchRef>,
    pub target: PatchRef,
    pub event: Seq<char>,
    pub value: T,
}

pub struct CreateView {
    pub event: Seq<char>,
    pub start: Timestamp,
    pub tags: Seq<Seq<char>>,
}

pub struct PatchView {
    pub id: PatchRef,
    pub add_start: Seq<OpView<Timestamp>>,
    pub remove_start: Seq<OpView<Timestamp>>,
    pub add_tag: Seq<OpView<Seq<char>>>,
    pub remove_tag: Seq<OpView<Seq<char>>>,
    pub create_event: Seq<CreateView>,
}

impl View for AddStart {
    type V = OpView<Timestamp>;

    open spec fn view(&self) -> OpView<Timestamp> {
        OpView { parents: self.parents@, target: self.parent, event: self.event@, value: self.time }
    }
}

impl View for RemoveStart {
    type V = OpView<Timestamp>;

    open spec fn view(&self) -> OpView<Timestamp> {
        OpView { parents: self.parents@, target: self.patch, event: self.event@, value: self.time }
    }
}

impl View for AddTag {
    type V = OpView<Seq<char>>;

    open spec fn view(&self) -> OpView<Seq<char>> {
        OpView { parents: self.parents@, target: self.parent, event: self.event@, value: self.tag@ }
    }
}

impl View for RemoveTag {
    type V = OpView<Seq<char>>;

    open spec fn view(&self) -> OpView<Seq<char>> {
        OpView { parents: self.parents@, target: self.patch, event: self.event@, value: self.tag@ }
    }
}

impl View for CreateEvent {
    type V = CreateView;

    open spec fn view(&self) -> CreateView {
        CreateView { event: self.event@, start: self.start, tags: names_view(self.tags@) }
    }
}

impl<T> OpView<T> {
    /// The patches that the operation depends on.
    pub open spec fn refs(self) -> Set<PatchRef> {
        self.parents.to_set().insert(self.target)
    }
}

/// The union of the patches that a sequence of operations depends on.
pub open spec fn refs_of<T>(ops: Seq<OpView<T>>) -> Set<PatchRef>
    decreases ops.len(),
{
    if ops.len() == 0 {
        Set::empty()
    } else {
        refs_of(ops.drop_last()).union(ops.last().refs())
    }
}

impl PatchView {
    /// Every patch that some operation of this patch depends on.
    pub open spec fn parents(self) -> Set<PatchRef> {
        refs_of(self.add_start).union(refs_of(self.remove_start)).union(
            refs_of(self.add_tag),
        ).union(refs_of(self.remove_tag))
    }
}

/// A patch: a randomly assigned reference and five sets of operations.
#[derive(Debug, Clone)]
pub struct Patch {
    pub id: PatchRef,
    pub add_start: Vec<AddStart>,
    pub remove_start: Vec<RemoveStart>,
    pub add_tag: Vec<AddTag>,
    pub remove_tag: Vec<RemoveTag>,
    pub create_event: Vec<CreateEvent>,
}

impl View for Patch {
    type V = PatchView;

    open spec fn view(&self) -> PatchView {
        PatchView {
            id: self.id,
            add_start: self.add_start@.map_values(|o: AddStart| o@),
            remove_start: self.remove_start@.map_values(|o: RemoveStart| o@),
            add_tag: self.add_tag@.map_values(|o: AddTag| o@),
            remove_tag: self.remove_tag@.map_values(|o: RemoveTag| o@),
            create_event: self.create_event@.map_values(|o: CreateEvent| o@),
        }
    }
}

/// `v` holds `x`.
pub fn contains_ref(v: &Vec<PatchRef>, x: PatchRef) -> (r: bool)
    ensures
        r == v@.contains(x),
{
    let mut i: usize = 0;
    while i < v.len()
        invariant
            0 <= i <= v.len(),
            forall|j: int| 0 <= j < i ==> v@[j] != x,
        decreases v.len() - i,
    {
        if v[i] == x {
            return true;
        }
        i += 1;
    }
    false
}

/// Adds `x` to `out` unless it is there already.
pub fn push_unique(out: &mut Vec<PatchRef>, x: PatchRef)
    requires
        old(out)@.no_duplicates(),
    ensures
        final(out)@.no_duplicates(),
        final(out)@.to_set() == old(out)@.to_set().insert(x),
{
    if !contains_ref(out, x) {
        proof {
            crate::repository::event::lemma_push_to_set(out@, x);
            crate::repository::event::lemma_push_no_dup(out@, x);
        }
        out.push(x);
    } else {
        assert(old(out)@.to_set().insert(x) =~= old(out)@.to_set());
    }
}

/// Adds to `out` the patches that one operation depends on.
fn push_refs(out: &mut Vec<PatchRef>, target: PatchRef, parents: &Vec<PatchRef>)
    requires
        old(out)@.no_duplicates(),
    ensures
        final(out)@.no_duplicates(),
        final(out)@.to_set() == old(out)@.to_set().union(parents@.to_set().insert(target)),
{
    push_unique(out, target);
    let mut i: usize = 0;
    while i < parents.len()
        invariant
            0 <= i <= parents.len(),
            out@.no_duplicates(),
            out@.to_set() == old(out)@.to_set().insert(target).union(
                parents@.take(i as int).to_set(),
            ),
        decreases parents.len() - i,
    {
        proof {
            assert(parents@.take(i + 1) == parents@.take(i as int).push(parents@[i as int]));
            crate::repository::event::lemma_push_to_set(
                parents@.take(i as int),
                parents@[i as int],
            );
        }
        push_unique(out, parents[i]);
        assert(out@.to_set() =~= old(out)@.to_set().insert(target).union(
            parents@.take(i + 1).to_set(),
        ));
        i += 1;
    }
    assert(parents@.take(parents.len() as int) == parents@);
    assert(final(out)@.to_set() =~= old(out)@.to_set().union(parents@.to_set().insert(target)));
}

impl Patch {
    /// An empty patch with a fresh random reference.
    pub fn new() -> (r: Patch)
        ensures
            r@.add_start.len() == 0,
            r@.remove_start.len() == 0,
            r@.add_tag.len() == 0,
            r@.remove_tag.len() == 0,
            r@.create_event.len() == 0,
    {
        Patch::with_id(random_patch_ref())
    }

    /// An empty patch with the given reference.
    pub fn with_id(id: PatchRef) -> (r: Patch)
        ensures
            r@ == (PatchView {
                id,
                add_start: Seq::empty(),
                remove_start: Seq::empty(),
                add_tag: Seq::empty(),
                remove_tag: Seq::empty(),
                create_event: Seq::empty(),
            }),
    {
        let r = Patch {
            id,
            add_start: Vec::new(),
            remove_start: Vec::new(),
            add_tag: Vec::new(),
            remove_tag: Vec::new(),
            create_event: Vec::new(),
        };
        assert(r@.add_start =~= Seq::empty());
        assert(r@.remove_start =~= Seq::empty());
        assert(r@.add_tag =~= Seq::empty());
        assert(r@.remove_tag =~= Seq::empty());
        assert(r@.create_event =~= Seq::empty());
        r
    }

    pub fn patch_ref(&self) -> (r: &PatchRef)
        ensures
            *r == self.id,
    {
        &self.id
    }

    /// Every patch that some operation of this patch depends on, once each.
    pub fn parents(&self) -> (r: Vec<PatchRef>)
        ensures
            r@.no_duplicates(),
            r@.to_set() == self@.parents(),
    {
        let mut out: Vec<PatchRef> = Vec::new();
        assert(out@.to_set() =~= Set::empty());
        let ghost v = self@;
        let mut i: usize = 0;
        while i < self.add_start.len()
            invariant
                0 <= i <= self.add_start.len(),
                v == self@,
                out@.no_duplicates(),
                out@.to_set() == refs_of(v.add_start.take(i as int)),
            decreases self.add_start.len() - i,
        {
            assert(v.add_start.take(i + 1).drop_last() == v.add_start.take(i as int));
            push_refs(&mut out, self.add_start[i].parent, &self.add_start[i].parents);
            i += 1;
        }
        assert(v.add_start.take(v.add_start.len() as int) == v.add_start);
        let ghost a = out@.to_set();
        let mut i: usize = 0;
        while i < self.remove_start.len()
            invariant
                0 <= i <= self.remove_start.len(),
                v == self@,
                out@.no_duplicates(),
                out@.to_set() == a.union(refs_of(v.remove_start.take(i as int))),
            decreases self.remove_start.len() - i,
        {
            assert(v.remove_start.take(i + 1).drop_last() == v.remove_start.take(i as int));
            push_refs(&mut out, self.remove_start[i].patch, &self.remove_start[i].parents);
            assert(out@.to_set() =~= a.union(refs_of(v.remove_start.take(i + 1))));
            i += 1;
        }
        assert(v.remove_start.take(v.remove_start.len() as int) == v.remove_start);
        let ghost b = out@.to_set();
        let mut i: usize = 0;
        while i < self.add_tag.len()
            invariant
                0 <= i <= self.add_tag.len(),
                v == self@,
                out@.no_duplicates(),
                out@.to_set() == b.union(refs_of(v.add_tag.take(i as int))),
            decreases self.add_tag.len() - i,
        {
            assert(v.add_tag.take(i + 1).drop_last() == v.add_tag.take(i as int));
            push_refs(&mut out, self.add_tag[i].parent, &self.add_tag[i].parents);
            assert(out@.to_set() =~= b.union(refs_of(v.add_tag.take(i + 1))));
            i += 1;
        }
        assert(v.add_tag.take(v.add_tag.len() as int) == v.add_tag);
        let ghost c = out@.to_set();
        let mut i: usize = 0;
        while i < self.remove_tag.len()
            invariant
                0 <= i <= self.remove_tag.len(),
                v == self@,
                out@.no_duplicates(),
                out@.to_set() == c.union(refs_of(v.remove_tag.take(i as int))),
            decreases self.remove_tag.len() - i,
        {
            assert(v.remove_tag.take(i + 1).drop_last() == v.remove_tag.take(i as int));
            push_refs(&mut out, self.remove_tag[i].patch, &self.remove_tag[i].parents);
            assert(out@.to_set() =~= c.union(refs_of(v.remove_tag.take(i + 1))));
            i += 1;
        }
        assert(v.remove_tag.take(v.remove_tag.len() as int) == v.remove_tag);
        out
    }

    pub fn add_start(self, parent: PatchRef, event: EventRef, time: Timestamp) -> (r: Patch)
        ensures
            r@ == (PatchView {
                add_start: self@.add_start.push(
                    OpView { parents: Seq::empty(), target: parent, event: event@, value: time },
                ),
                ..self@
            }),
    {
        let mut r = self;
        let op = AddStart { parents: Vec::new(), parent, event, time };
        assert(op@.parents =~= Seq::<PatchRef>::empty());
        r.add_start.push(op);
        assert(r@.add_start =~= self@.add_start.push(op@));
        r
    }

    pub fn remove_start(self, patch: PatchRef, event: EventRef, time: Timestamp) -> (r: Patch)
        ensures
            r@ == (PatchView {
                remove_start: self@.remove_start.push(
                    OpView { parents: Seq::empty(), target: patch, event: event@, value: time },
                ),
                ..self@
            }),
    {
        let mut r = self;
        let op = RemoveStart { parents: Vec::new(), patch, event, time };
        assert(op@.parents =~= Seq::<PatchRef>::empty());
        r.remove_start.push(op);
        assert(r@.remove_start =~= self@.remove_start.push(op@));
        r
    }

    pub fn add_tag(self, parent: PatchRef, event: EventRef, tag: Tag) -> (r: Patch)
        ensures
            r@ == (PatchView {
                add_tag: self@.add_tag.push(
                    OpView { parents: Seq::empty(), target: parent, event: event@, value: tag@ },
                ),
                ..self@
            }),
    {
        let mut r = self;
        let op = AddTag { parents: Vec::new(), parent, event, tag };
        assert(op@.parents =~= Seq::<PatchRef>::empty());
        r.add_tag.push(op);
        assert(r@.add_tag =~= self@.add_tag.push(op@));
        r
    }

    pub fn remove_tag(self, patch: PatchRef, event: EventRef, tag: Tag) -> (r: Patch)
        ensures
            r@ == (PatchView {
                remove_tag: self@.remove_tag.push(
                    OpView { parents: Seq::empty(), target: patch, event: event@, value: tag@ },
                ),
                ..self@
            }),
    {
        let mut r = self;
        let op = RemoveTag { parents: Vec::new(), patch, event, tag };
        assert(op@.parents =~= Seq::<PatchRef>::empty());
        r.remove_tag.push(op);
        assert(r@.remove_tag =~= self@.remove_tag.push(op@));
        r
    }

    pub fn create_event(self, event: EventRef, start: Timestamp, tags: Vec<Tag>) -> (r: Patch)
        ensures
            r@ == (PatchView {
                create_event: self@.create_event.push(
                    CreateView { event: event@, start, tags: names_view(tags@) },
                ),
                ..self@
            }),
    {
        let mut r = self;
        let op = CreateEvent { event, start, tags };
        r.create_event.push(op);
        assert(r@.create_event =~= self@.create_event.push(op@));
        r
    }

    pub fn insert_add_start(&mut self, add_start: AddStart)
        ensures
            final(self)@ == (PatchView {
                add_start: old(self)@.add_start.push(add_start@),
                ..old(self)@
            }),
    {
        self.add_start.push(add_start);
        assert(self@.add_start =~= old(self)@.add_start.push(add_start@));
    }

    pub fn insert_remove_start(&mut self, remove_start: RemoveStart)
        ensures
            final(self)@ == (PatchView {
                remove_start: old(self)@.remove_start.push(remove_start@),
                ..old(self)@
            }),
    {
        self.remove_start.push(remove_start);
        assert(self@.remove_start =~= old(self)@.remove_start.push(remove_start@));
    }

    pub fn insert_add_tag(&mut self, add_tag: AddTag)
        ensures
            final(self)@ == (PatchView { add_tag: old(self)@.add_tag.push(add_tag@), ..old(self)@ }),
    {
        self.add_tag.push(add_tag);
        assert(self@.add_tag =~= old(self)@.add_tag.push(add_tag@));
    }

    pub fn insert_remove_tag(&mut self, remove_tag: RemoveTag)
        ensures
            final(self)@ == (PatchView {
                remove_tag: old(self)@.remove_tag.push(remove_tag@),
                ..old(self)@
            }),
    {
        self.remove_tag.push(remove_tag);
        assert(self@.remove_tag =~= old(self)@.remove_tag.push(remove_tag@));
    }

    pub fn insert_create_event(&mut self, create_event: CreateEvent)
        ensures
            final(self)@ == (PatchView {
                create_event: old(self)@.create_event.push(create_event@),
                ..old(self)@
            }),
    {
        self.create_event.push(create_event);
        assert(self@.create_event =~= old(self)@.create_event.push(create_event@));
    }
}

} // verus!
