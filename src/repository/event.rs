//! The per-event two-phase-set state that patches accumulate into.
use crate::time::Timestamp;
use crate::timesheet::{names_view, Event};
use crate::{PatchRef, Tag};
use vstd::prelude::*;

verus! {

/// The abstract state of one event: which `(patch, start)` and `(patch, tag)`
/// pairs were added and which were removed.
pub struct EventState {
    pub starts_added: Set<(PatchRef, Timestamp)>,
    pub starts_removed: Set<(PatchRef, Timestamp)>,
    pub tags_added: Set<(PatchRef, Seq<char>)>,
    pub tags_removed: Set<(PatchRef, Seq<char>)>,
}

/// Why a multi-valued event has no single value.
#[derive(Clone, Copy, Debug, PartialEq, Eq, Structural)]
pub enum Error {
    MultipleStartTimes,
    NoStartTimes,
}

impl EventState {
    pub open spec fn empty() -> EventState {
        EventState {
            starts_added: Set::empty(),
            starts_removed: Set::empty(),
            tags_added: Set::empty(),
            tags_removed: Set::empty(),
        }
    }

    /// The start times that survive: added and not removed.
    pub open spec fn starts(self) -> Set<(PatchRef, Timestamp)> {
        self.starts_added.difference(self.starts_removed)
    }

    /// The tags that survive: added and not removed.
    pub open spec fn tags(self) -> Set<(PatchRef, Seq<char>)> {
        self.tags_added.difference(self.tags_removed)
    }

    /// The surviving tags without the patches that added them.
    pub open spec fn tag_names(self) -> Set<Seq<char>> {
        self.tags().map(|p: (PatchRef, Seq<char>)| p.1)
    }

    /// The single start time, or why there is none.
    pub open spec fn flat_start(self) -> Result<Timestamp, Error> {
        if self.starts().len() >= 2 {
            Err(Error::MultipleStartTimes)
        } else if self.starts().len() == 0 {
            Err(Error::NoStartTimes)
        } else {
            Ok(self.starts().choose().1)
        }
    }

    pub open spec fn is_finite(self) -> bool {
        &&& self.starts_added.finite()
        &&& self.starts_removed.finite()
        &&& self.tags_added.finite()
        &&& self.tags_removed.finite()
    }
}

pub open spec fn tag_view(p: (PatchRef, Tag)) -> (PatchRef, Seq<char>) {
    (p.0, p.1@)
}

/// One event as patches leave it: a two-phase set of start times and one of
/// tags, each value paired with the patch that introduced it. Inserting a pair
/// that is already there changes nothing.
#[derive(Debug)]
pub struct PatchedEvent {
    starts_added: Vec<(PatchRef, Timestamp)>,
    starts_removed: Vec<(PatchRef, Timestamp)>,
    tags_added: Vec<(PatchRef, Tag)>,
    tags_removed: Vec<(PatchRef, Tag)>,
}

pub open spec fn tags_seq_view(v: Seq<(PatchRef, Tag)>) -> Seq<(PatchRef, Seq<char>)> {
    v.map_values(|p: (PatchRef, Tag)| tag_view(p))
}

fn contains_start(v: &Vec<(PatchRef, Timestamp)>, x: (PatchRef, Timestamp)) -> (r: bool)
    ensures
        r == v@.contains(x),
{
    let mut i: usize = 0;
    while i < v.len()
        invariant
            0 <= i <= v.len(),
            forall|j: int| 0 <= j < i ==> v@[j] != x,
        decreases v.len() - i,
    {
        if v[i].0 == x.0 && v[i].1 == x.1 {
            return true;
        }
        i += 1;
    }
    false
}

fn contains_tag(v: &Vec<(PatchRef, Tag)>, patch: PatchRef, tag: &Tag) -> (r: bool)
    ensures
        r == tags_seq_view(v@).contains((patch, tag@)),
{
    let mut i: usize = 0;
    while i < v.len()
        invariant
            0 <= i <= v.len(),
            forall|j: int| 0 <= j < i ==> tag_view(#[trigger] v@[j]) != (patch, tag@),
        decreases v.len() - i,
    {
        if v[i].0 == patch && v[i].1 == *tag {
            assert(tags_seq_view(v@)[i as int] == (patch, tag@));
            return true;
        }
        i += 1;
    }
    proof {
        if tags_seq_view(v@).contains((patch, tag@)) {
            let j = choose|j: int|
                0 <= j < tags_seq_view(v@).len() && tags_seq_view(v@)[j] == (patch, tag@);
            assert(tag_view(v@[j]) == (patch, tag@));
        }
    }
    false
}

fn insert_start(v: &mut Vec<(PatchRef, Timestamp)>, x: (PatchRef, Timestamp))
    requires
        old(v)@.no_duplicates(),
    ensures
        final(v)@.no_duplicates(),
        final(v)@.to_set() == old(v)@.to_set().insert(x),
{
    if !contains_start(v, x) {
        v.push(x);
        proof {
            lemma_push_to_set(old(v)@, x);
            assert forall|i: int, j: int|
                0 <= i < v@.len() && 0 <= j < v@.len() && i != j implies v@[i] != v@[j] by {
                if j == v@.len() - 1 {
                    assert(old(v)@[i] == v@[i]);
                } else if i == v@.len() - 1 {
                    assert(old(v)@[j] == v@[j]);
                }
            }
        }
    } else {
        assert(old(v)@.to_set().insert(x) =~= old(v)@.to_set());
    }
}

fn insert_tag(v: &mut Vec<(PatchRef, Tag)>, patch: PatchRef, tag: Tag)
    requires
        tags_seq_view(old(v)@).no_duplicates(),
    ensures
        tags_seq_view(final(v)@).no_duplicates(),
        tags_seq_view(final(v)@).to_set() == tags_seq_view(old(v)@).to_set().insert((patch, tag@)),
{
    if !contains_tag(v, patch, &tag) {
        let ghost x = (patch, tag@);
        v.push((patch, tag));
        proof {
            assert(tags_seq_view(v@) =~= tags_seq_view(old(v)@).push(x));
            lemma_push_to_set(tags_seq_view(old(v)@), x);
            let s = tags_seq_view(v@);
            let o = tags_seq_view(old(v)@);
            assert forall|i: int, j: int|
                0 <= i < s.len() && 0 <= j < s.len() && i != j implies s[i] != s[j] by {
                if j == s.len() - 1 {
                    assert(o[i] == s[i]);
                } else if i == s.len() - 1 {
                    assert(o[j] == s[j]);
                } else {
                    assert(o[i] == s[i] && o[j] == s[j]);
                }
            }
        }
    } else {
        assert(tags_seq_view(old(v)@).to_set().insert((patch, tag@)) =~= tags_seq_view(
            old(v)@,
        ).to_set());
    }
}

pub proof fn lemma_push_to_set<A>(s: Seq<A>, x: A)
    ensures
        s.push(x).to_set() == s.to_set().insert(x),
{
    assert forall|y: A| s.push(x).to_set().contains(y) <==> s.to_set().insert(x).contains(y) by {
        if s.push(x).to_set().contains(y) {
            let i = choose|i: int| 0 <= i < s.push(x).len() && s.push(x)[i] == y;
            if i < s.len() {
                assert(s[i] == y);
            }
        }
        if s.contains(y) {
            let i = choose|i: int| 0 <= i < s.len() && s[i] == y;
            assert(s.push(x)[i] == y);
        }
        if y == x {
            assert(s.push(x)[s.len() as int] == y);
        }
    }
    assert(s.push(x).to_set() =~= s.to_set().insert(x));
}

impl View for PatchedEvent {
    type V = EventState;

    closed spec fn view(&self) -> EventState {
        EventState {
            starts_added: self.starts_added@.to_set(),
            starts_removed: self.starts_removed@.to_set(),
            tags_added: tags_seq_view(self.tags_added@).to_set(),
            tags_removed: tags_seq_view(self.tags_removed@).to_set(),
        }
    }
}

impl PatchedEvent {
    /// Each pair is stored once.
    pub closed spec fn wf(&self) -> bool {
        &&& self.starts_added@.no_duplicates()
        &&& self.starts_removed@.no_duplicates()
        &&& tags_seq_view(self.tags_added@).no_duplicates()
        &&& tags_seq_view(self.tags_removed@).no_duplicates()
    }

    /// The abstract state is made of finite sets.
    pub proof fn lemma_finite(&self)
        requires
            self.wf(),
        ensures
            self@.is_finite(),
    {
        broadcast use vstd::seq_lib::seq_to_set_is_finite;

    }

    pub fn new() -> (r: PatchedEvent)
        ensures
            r.wf(),
            r@ == EventState::empty(),
    {
        let r = PatchedEvent {
            starts_added: Vec::new(),
            starts_removed: Vec::new(),
            tags_added: Vec::new(),
            tags_removed: Vec::new(),
        };
        assert(r@.starts_added =~= Set::empty());
        assert(r@.starts_removed =~= Set::empty());
        assert(r@.tags_added =~= Set::empty());
        assert(r@.tags_removed =~= Set::empty());
        r
    }

    pub fn add_start(&mut self, patch: PatchRef, datetime: Timestamp)
        requires
            old(self).wf(),
        ensures
            final(self).wf(),
            final(self)@ == (EventState {
                starts_added: old(self)@.starts_added.insert((patch, datetime)),
                ..old(self)@
            }),
    {
        insert_start(&mut self.starts_added, (patch, datetime));
    }

    pub fn remove_start(&mut self, patch: PatchRef, datetime: Timestamp)
        requires
            old(self).wf(),
        ensures
            final(self).wf(),
            final(self)@ == (EventState {
                starts_removed: old(self)@.starts_removed.insert((patch, datetime)),
                ..old(self)@
            }),
    {
        insert_start(&mut self.starts_removed, (patch, datetime));
    }

    pub fn add_tag(&mut self, patch: PatchRef, tag: Tag)
        requires
            old(self).wf(),
        ensures
            final(self).wf(),
            final(self)@ == (EventState {
                tags_added: old(self)@.tags_added.insert((patch, tag@)),
                ..old(self)@
            }),
    {
        insert_tag(&mut self.tags_added, patch, tag);
    }

    pub fn remove_tag(&mut self, patch: PatchRef, tag: Tag)
        requires
            old(self).wf(),
        ensures
            final(self).wf(),
            final(self)@ == (EventState {
                tags_removed: old(self)@.tags_removed.insert((patch, tag@)),
                ..old(self)@
            }),
    {
        insert_tag(&mut self.tags_removed, patch, tag);
    }

    /// The start times that survive, each with the patch that added it.
    pub fn starts(&self) -> (r: Vec<(PatchRef, Timestamp)>)
        requires
            self.wf(),
        ensures
            r@.no_duplicates(),
            r@.to_set() == self@.starts(),
    {
        let ghost added = self.starts_added@;
        let ghost removed = self.starts_removed@.to_set();
        let mut r: Vec<(PatchRef, Timestamp)> = Vec::new();
        let mut i: usize = 0;
        while i < self.starts_added.len()
            invariant
                0 <= i <= added.len(),
                added == self.starts_added@,
                added.no_duplicates(),
                removed == self.starts_removed@.to_set(),
                r@.no_duplicates(),
                r@.to_set() == added.take(i as int).to_set().difference(removed),
            decreases added.len() - i,
        {
            let x = self.starts_added[i];
            proof {
                assert(added.take(i + 1) == added.take(i as int).push(x));
                lemma_push_to_set(added.take(i as int), x);
            }
            if !contains_start(&self.starts_removed, x) {
                proof {
                    assert(!r@.contains(x)) by {
                        if r@.contains(x) {
                            assert(r@.to_set().contains(x));
                            let j = choose|j: int| 0 <= j < i && added.take(i as int)[j] == x;
                            assert(added[j] == added[i as int]);
                        }
                    }
                    lemma_push_to_set(r@, x);
                    lemma_push_no_dup(r@, x);
                }
                r.push(x);
                assert(r@.to_set() =~= added.take(i + 1).to_set().difference(removed));
            } else {
                assert(r@.to_set() =~= added.take(i + 1).to_set().difference(removed));
            }
            i += 1;
        }
        assert(added.take(added.len() as int) == added);
        r
    }

    /// The tags that survive, each with the patch that added it.
    pub fn tags(&self) -> (r: Vec<(PatchRef, Tag)>)
        requires
            self.wf(),
        ensures
            tags_seq_view(r@).no_duplicates(),
            tags_seq_view(r@).to_set() == self@.tags(),
    {
        let ghost added = tags_seq_view(self.tags_added@);
        let ghost removed = tags_seq_view(self.tags_removed@).to_set();
        let mut r: Vec<(PatchRef, Tag)> = Vec::new();
        let mut i: usize = 0;
        while i < self.tags_added.len()
            invariant
                0 <= i <= added.len(),
                added == tags_seq_view(self.tags_added@),
                added.no_duplicates(),
                removed == tags_seq_view(self.tags_removed@).to_set(),
                tags_seq_view(r@).no_duplicates(),
                tags_seq_view(r@).to_set() == added.take(i as int).to_set().difference(removed),
            decreases added.len() - i,
        {
            let patch = self.tags_added[i].0;
            let tag = self.tags_added[i].1.clone();
            let ghost x = (patch, tag@);
            proof {
                assert(added[i as int] == x);
                assert(added.take(i + 1) == added.take(i as int).push(x));
                lemma_push_to_set(added.take(i as int), x);
            }
            if !contains_tag(&self.tags_removed, patch, &tag) {
                let ghost old_r = tags_seq_view(r@);
                proof {
                    assert(!old_r.contains(x)) by {
                        if old_r.contains(x) {
                            assert(old_r.to_set().contains(x));
                            let j = choose|j: int| 0 <= j < i && added.take(i as int)[j] == x;
                            assert(added[j] == added[i as int]);
                        }
                    }
                    lemma_push_to_set(old_r, x);
                    lemma_push_no_dup(old_r, x);
                }
                r.push((patch, tag));
                assert(tags_seq_view(r@) =~= old_r.push(x));
                assert(tags_seq_view(r@).to_set() =~= added.take(i + 1).to_set().difference(
                    removed,
                ));
            } else {
                assert(tags_seq_view(r@).to_set() =~= added.take(i + 1).to_set().difference(
                    removed,
                ));
            }
            i += 1;
        }
        assert(added.take(added.len() as int) == added);
        r
    }

    /// The names of the surviving tags, once each.
    pub fn tag_names(&self) -> (names: Vec<Tag>)
        requires
            self.wf(),
        ensures
            names_view(names@).to_set() == self@.tag_names(),
    {
        let pairs = self.tags();
        let ghost pv = tags_seq_view(pairs@);
        let mut names: Vec<Tag> = Vec::new();
        let mut i: usize = 0;
        while i < pairs.len()
            invariant
                0 <= i <= pairs.len(),
                pv == tags_seq_view(pairs@),
                names_view(names@).to_set() == pv.take(i as int).to_set().map(
                    |p: (PatchRef, Seq<char>)| p.1,
                ),
            decreases pairs.len() - i,
        {
            let tag = pairs[i].1.clone();
            proof {
                assert(pv[i as int] == (pairs@[i as int].0, tag@));
                assert(pv.take(i + 1) == pv.take(i as int).push(pv[i as int]));
                lemma_push_to_set(pv.take(i as int), pv[i as int]);
            }
            let ghost before = names_view(names@);
            proof {
                pv.take(i as int).to_set().lemma_set_map_insert_commute(
                    pv[i as int],
                    |p: (PatchRef, Seq<char>)| p.1,
                );
            }
            if !crate::timesheet::contains_name(&names, &tag) {
                let ghost t = tag@;
                names.push(tag);
                assert(names_view(names@) =~= before.push(t));
                proof {
                    lemma_push_to_set(before, t);
                }
            } else {
                assert(before.to_set().insert(tag@) =~= before.to_set());
            }
            assert(names_view(names@).to_set() =~= pv.take(i + 1).to_set().map(
                |p: (PatchRef, Seq<char>)| p.1,
            ));
            i += 1;
        }
        assert(pv.take(pv.len() as int) == pv);
        names
    }

    /// Collapses the event to one start time and one set of tags; refuses
    /// where the start time is not unique.
    pub fn flatten(&self) -> (r: Result<Event, Error>)
        requires
            self.wf(),
        ensures
            match r {
                Ok(e) => self@.flat_start() == Ok::<Timestamp, Error>(e@.0) && e@.1
                    == self@.tag_names(),
                Err(err) => self@.flat_start() == Err::<Timestamp, Error>(err),
            },
    {
        let starts = self.starts();
        proof {
            starts@.unique_seq_to_set();
        }
        if starts.len() >= 2 {
            return Err(Error::MultipleStartTimes);
        }
        if starts.len() == 0 {
            return Err(Error::NoStartTimes);
        }
        let start = starts[0].1;
        proof {
            let s = self@.starts();
            assert(s.contains(starts@[0]));
            assert(s.remove(starts@[0]).len() == 0);
            assert(s.remove(starts@[0]) =~= Set::empty());
            assert(s =~= set![starts@[0]]);
            assert(s.choose() == starts@[0]);
        }
        let names = self.tag_names();
        Ok(Event::new(start, names))
    }
}

pub proof fn lemma_push_no_dup<A>(s: Seq<A>, x: A)
    requires
        s.no_duplicates(),
        !s.contains(x),
    ensures
        s.push(x).no_duplicates(),
{
    let t = s.push(x);
    assert forall|i: int, j: int| 0 <= i < t.len() && 0 <= j < t.len() && i != j implies t[i]
        != t[j] by {
        if j == s.len() {
            assert(t[i] == s[i]);
        } else if i == s.len() {
            assert(t[j] == s[j]);
        } else {
            assert(t[i] == s[i] && t[j] == s[j]);
        }
    }
}

} // verus!
