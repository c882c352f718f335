//! The flattened, single-valued view of a timesheet.
use crate::repository::event::EventState;
use crate::repository::timesheet::PatchedTimesheet;
use crate::time::Timestamp;
use crate::{EventRef, Tag};
use vstd::prelude::*;

verus! {

pub open spec fn names_view(v: Seq<Tag>) -> Seq<Seq<char>> {
    v.map_values(|t: Tag| t@)
}

/// `names` holds a tag equal to `tag`.
pub fn contains_name(names: &Vec<Tag>, tag: &Tag) -> (r: bool)
    ensures
        r == names_view(names@).contains(tag@),
{
    let mut i: usize = 0;
    while i < names.len()
        invariant
            0 <= i <= names.len(),
            forall|j: int| 0 <= j < i ==> names@[j]@ != tag@,
        decreases names.len() - i,
    {
        if names[i] == *tag {
            assert(names_view(names@)[i as int] == tag@);
            return true;
        }
        i += 1;
    }
    proof {
        if names_view(names@).contains(tag@) {
            let j = choose|j: int|
                0 <= j < names_view(names@).len() && names_view(names@)[j] == tag@;
            assert(names@[j]@ == tag@);
        }
    }
    false
}

/// An event with a single start time and one set of tags.
#[derive(Debug)]
pub struct Event {
    start: Timestamp,
    tags: Vec<Tag>,
}

impl View for Event {
    type V = (Timestamp, Set<Seq<char>>);

    closed spec fn view(&self) -> (Timestamp, Set<Seq<char>>) {
        (self.start, names_view(self.tags@).to_set())
    }
}

impl Event {
    pub fn new(start: Timestamp, tags: Vec<Tag>) -> (r: Event)
        ensures
            r@ == (start, names_view(tags@).to_set()),
    {
        Event { start, tags }
    }

    pub fn start(&self) -> (r: &Timestamp)
        ensures
            *r == self@.0,
    {
        &self.start
    }

    pub fn tags(&self) -> (r: &Vec<Tag>)
        ensures
            names_view(r@).to_set() == self@.1,
    {
        &self.tags
    }
}

/// Start times in strictly increasing order.
pub open spec fn strictly_sorted(s: Seq<(Timestamp, Seq<char>)>) -> bool {
    forall|i: int, j: int| 0 <= i < j < s.len() ==> (#[trigger] s[i]).0.before((#[trigger] s[j]).0)
}

/// Sorted start times read as a map from start time to event.
pub open spec fn starts_map(s: Seq<(Timestamp, Seq<char>)>) -> Map<Timestamp, Seq<char>> {
    Map::new(
        |t: Timestamp| exists|i: int| 0 <= i < s.len() && (#[trigger] s[i]).0 == t,
        |t: Timestamp| s[choose|i: int| 0 <= i < s.len() && (#[trigger] s[i]).0 == t].1,
    )
}

pub open spec fn start_view(e: (Timestamp, EventRef)) -> (Timestamp, Seq<char>) {
    (e.0, e.1@)
}

/// A span of time during which one event's tags held: from the event's
/// start to the next event's start, or to the present for the last one.
#[derive(Debug)]
pub struct Segment {
    pub event_ref: EventRef,
    pub start_time: Timestamp,
    pub tags: Vec<Tag>,
    /// Nanoseconds from `start_time` to `end_time`.
    pub duration: i128,
    pub end_time: Timestamp,
}

/// The single-valued view of a patched timesheet: each event at its one
/// start time, no two events at the same time.
#[derive(Debug)]
pub struct Timesheet<'cl> {
    patched_timesheet: &'cl PatchedTimesheet,
    event_starts: Vec<(Timestamp, EventRef)>,
}

impl<'cl> Timesheet<'cl> {
    /// The events by start time, earliest first.
    pub closed spec fn starts(&self) -> Seq<(Timestamp, Seq<char>)> {
        self.event_starts@.map_values(|e: (Timestamp, EventRef)| start_view(e))
    }

    /// The multi-valued events that this view was flattened from.
    pub closed spec fn patched(&self) -> Map<Seq<char>, EventState> {
        self.patched_timesheet@
    }

    /// Start times increase strictly and every event is known.
    pub closed spec fn wf(&self) -> bool {
        &&& self.patched_timesheet.wf()
        &&& strictly_sorted(self.starts())
        &&& forall|i: int| 0 <= i < self.starts().len() ==> self.patched().contains_key(
            (#[trigger] self.starts()[i]).1,
        )
    }

    /// The start times of a well-formed timesheet increase strictly.
    pub proof fn lemma_sorted(&self)
        requires
            self.wf(),
        ensures
            strictly_sorted(self.starts()),
    {
    }

    /// The flattened timesheet: each start time with its event's tags.
    pub open spec fn events_map(&self) -> Map<Timestamp, Set<Seq<char>>> {
        starts_map(self.starts()).map_values(|k: Seq<char>| self.patched()[k].tag_names())
    }

    pub fn new(patched_timesheet: &'cl PatchedTimesheet) -> (r: Timesheet<'cl>)
        requires
            patched_timesheet.wf(),
        ensures
            r.wf(),
            r.starts().len() == 0,
            r.patched() == patched_timesheet@,
    {
        let r = Timesheet { patched_timesheet, event_starts: Vec::new() };
        assert(r.starts() =~= Seq::empty());
        r
    }

    pub fn get_patched_timesheet(&self) -> (r: &'cl PatchedTimesheet)
        ensures
            r@ == self.patched(),
    {
        self.patched_timesheet
    }

    /// The tags of the `i`-th event.
    fn tags_of(&self, i: usize) -> (r: Vec<Tag>)
        requires
            self.wf(),
            i < self.starts().len(),
        ensures
            names_view(r@).to_set() == self.patched()[self.starts()[i as int].1].tag_names(),
    {
        assert(self.starts()[i as int] == start_view(self.event_starts@[i as int]));
        match self.patched_timesheet.event(&self.event_starts[i].1) {
            Some(e) => e.tag_names(),
            None => {
                assert(false);
                Vec::new()
            },
        }
    }

    /// Each start time with its event's tags, earliest first.
    pub fn events(&self) -> (r: Vec<(Timestamp, Vec<Tag>)>)
        requires
            self.wf(),
        ensures
            strictly_sorted(self.starts()),
            r@.len() == self.starts().len(),
            forall|i: int|
                0 <= i < r@.len() ==> (#[trigger] r@[i]).0 == self.starts()[i].0 && names_view(
                    r@[i].1@,
                ).to_set() == self.patched()[self.starts()[i].1].tag_names(),
    {
        let mut r: Vec<(Timestamp, Vec<Tag>)> = Vec::new();
        let mut i: usize = 0;
        while i < self.event_starts.len()
            invariant
                0 <= i <= self.event_starts.len(),
                self.wf(),
                self.starts().len() == self.event_starts.len(),
                r@.len() == i,
                forall|j: int|
                    0 <= j < i ==> (#[trigger] r@[j]).0 == self.starts()[j].0 && names_view(
                        r@[j].1@,
                    ).to_set() == self.patched()[self.starts()[j].1].tag_names(),
            decreases self.event_starts.len() - i,
        {
            let tags = self.tags_of(i);
            assert(self.starts()[i as int] == start_view(self.event_starts@[i as int]));
            r.push((self.event_starts[i].0, tags));
            i += 1;
        }
        r
    }

    /// The segments of the timesheet, the last one ending at `now`.
    pub fn segments_until(&self, now: Timestamp) -> (r: Vec<Segment>)
        requires
            self.wf(),
        ensures
            strictly_sorted(self.starts()),
            r@.len() == self.starts().len(),
            forall|i: int|
                0 <= i < r@.len() ==> is_segment(
                    #[trigger] r@[i],
                    self,
                    i,
                    if i + 1 < r@.len() {
                        self.starts()[i + 1].0
                    } else {
                        now
                    },
                ),
    {
        let mut r: Vec<Segment> = Vec::new();
        let n = self.event_starts.len();
        let mut i: usize = 0;
        while i < n
            invariant
                0 <= i <= n,
                n == self.event_starts.len(),
                self.wf(),
                self.starts().len() == n,
                r@.len() == i,
                forall|j: int|
                    0 <= j < i ==> is_segment(
                        #[trigger] r@[j],
                        self,
                        j,
                        if j + 1 < n {
                            self.starts()[j + 1].0
                        } else {
                            now
                        },
                    ),
            decreases n - i,
        {
            let start_time = self.event_starts[i].0;
            let end_time = if i + 1 < n {
                self.event_starts[i + 1].0
            } else {
                now
            };
            let tags = self.tags_of(i);
            let duration = end_time.signed_nanos_since(&start_time);
            let seg = Segment {
                event_ref: self.event_starts[i].1.clone(),
                start_time,
                tags,
                duration,
                end_time,
            };
            proof {
                assert(self.starts()[i as int] == start_view(self.event_starts@[i as int]));
                if i + 1 < n {
                    assert(self.starts()[i + 1] == start_view(self.event_starts@[i + 1]));
                }
            }
            r.push(seg);
            i += 1;
        }
        r
    }

    /// The segments of the timesheet, the last one ending at the current time.
    pub fn segments(&self) -> (r: Vec<Segment>)
        requires
            self.wf(),
        ensures
            strictly_sorted(self.starts()),
            r@.len() == self.starts().len(),
            forall|i: int|
                0 <= i < r@.len() ==> is_segment(
                    #[trigger] r@[i],
                    self,
                    i,
                    if i + 1 < r@.len() {
                        self.starts()[i + 1].0
                    } else {
                        r@[i].end_time
                    },
                ),
    {
        let now = Timestamp::now();
        self.segments_until(now)
    }

    /// The tags of the latest event that started strictly before `datetime`.
    pub fn tags_at_time(&self, datetime: &Timestamp) -> (r: Option<Vec<Tag>>)
        requires
            self.wf(),
        ensures
            strictly_sorted(self.starts()),
            match r {
                None => forall|i: int|
                    0 <= i < self.starts().len() ==> !(#[trigger] self.starts()[i]).0.before(
                        *datetime,
                    ),
                Some(tags) => exists|i: int|
                    0 <= i < self.starts().len() && (#[trigger] self.starts()[i]).0.before(
                        *datetime,
                    ) && (i + 1 == self.starts().len() || !self.starts()[i + 1].0.before(
                        *datetime,
                    )) && names_view(tags@).to_set() == self.patched()[self.starts()[i].1].tag_names(),
            },
    {
        let ghost s = self.starts();
        let mut i: usize = 0;
        while i < self.event_starts.len() && self.event_starts[i].0.is_before(datetime)
            invariant
                0 <= i <= self.event_starts.len(),
                s == self.starts(),
                s.len() == self.event_starts.len(),
                forall|j: int| 0 <= j < i ==> (#[trigger] s[j]).0.before(*datetime),
            decreases self.event_starts.len() - i,
        {
            assert(s[i as int] == start_view(self.event_starts@[i as int]));
            i += 1;
        }
        if i == 0 {
            proof {
                if s.len() > 0 {
                    assert(s[0] == start_view(self.event_starts@[0]));
                    assert forall|j: int| 0 <= j < s.len() implies !(#[trigger] s[j]).0.before(
                        *datetime,
                    ) by {
                        if j > 0 {
                            assert(s[0].0.before(s[j].0));
                            crate::time::lemma_before_total(s[0].0, s[j].0);
                            crate::time::lemma_before_total(s[j].0, *datetime);
                        }
                    }
                }
            }
            None
        } else {
            proof {
                if (i as int) < s.len() {
                    assert(s[i as int] == start_view(self.event_starts@[i as int]));
                }
            }
            Some(self.tags_of(i - 1))
        }
    }

    /// Records that event `event_ref` starts at `start`; returns the event
    /// that was recorded at that time before, which it replaces.
    pub fn event_at_time(&mut self, start: Timestamp, event_ref: EventRef) -> (r: Option<EventRef>)
        requires
            old(self).wf(),
            old(self).patched().contains_key(event_ref@),
        ensures
            final(self).wf(),
            final(self).patched() == old(self).patched(),
            starts_map(final(self).starts()) == starts_map(old(self).starts()).insert(
                start,
                event_ref@,
            ),
            match r {
                Some(prev) => starts_map(old(self).starts()).contains_key(start)
                    && prev@ == starts_map(old(self).starts())[start],
                None => !starts_map(old(self).starts()).contains_key(start),
            },
    {
        let ghost o = self.starts();
        let ghost kv = event_ref@;
        let mut j: usize = 0;
        while j < self.event_starts.len() && self.event_starts[j].0.is_before(&start)
            invariant
                0 <= j <= self.event_starts.len(),
                o == self.starts(),
                forall|i: int| 0 <= i < j ==> (#[trigger] o[i]).0.before(start),
            decreases self.event_starts.len() - j,
        {
            j += 1;
        }
        proof {
            assert(o.len() == self.event_starts@.len());
        }
        if j < self.event_starts.len() && self.event_starts[j].0 == start {
            let (t, prev) = self.event_starts.remove(j);
            self.event_starts.insert(j, (start, event_ref));
            proof {
                let n = self.starts();
                assert(n =~= o.update(j as int, (start, kv)));
                assert(o[j as int] == (t, prev@));
                assert forall|a: int, b: int| 0 <= a < b < n.len() implies (#[trigger] n[a]).0.before(
                    (#[trigger] n[b]).0,
                ) by {
                    assert(o[a].0.before(o[b].0));
                }
                assert forall|i: int| 0 <= i < n.len() implies old(self).patched().contains_key(
                    (#[trigger] n[i]).1,
                ) by {
                    if i != j {
                        assert(n[i] == o[i]);
                    }
                }
                lemma_starts_map_update(o, j as int, start, kv);
                lemma_starts_map_at(o, j as int);
            }
            Some(prev)
        } else {
            self.event_starts.insert(j, (start, event_ref));
            proof {
                let n = self.starts();
                assert(n =~= o.insert(j as int, (start, kv)));
                assert forall|a: int, b: int| 0 <= a < b < n.len() implies (#[trigger] n[a]).0.before(
                    (#[trigger] n[b]).0,
                ) by {
                    if b < j {
                        assert(n[a] == o[a] && n[b] == o[b]);
                    } else if b == j {
                        assert(n[a] == o[a]);
                    } else if a == j {
                        assert(n[b] == o[b - 1]);
                        if b - 1 > j {
                            assert(o[j as int].0.before(o[b - 1].0));
                        }
                        crate::time::lemma_before_total(start, o[j as int].0);
                    } else if a < j {
                        assert(n[a] == o[a] && n[b] == o[b - 1]);
                    } else {
                        assert(n[a] == o[a - 1] && n[b] == o[b - 1]);
                    }
                }
                assert forall|i: int| 0 <= i < n.len() implies old(self).patched().contains_key(
                    (#[trigger] n[i]).1,
                ) by {
                    if i < j {
                        assert(n[i] == o[i]);
                    } else if i > j {
                        assert(n[i] == o[i - 1]);
                    }
                }
                assert(!starts_map(o).contains_key(start)) by {
                    if starts_map(o).contains_key(start) {
                        let i = choose|i: int| 0 <= i < o.len() && (#[trigger] o[i]).0 == start;
                        if i < j {
                            assert(o[i].0.before(start));
                        } else if i > j {
                            assert(o[j as int].0.before(o[i].0));
                            crate::time::lemma_before_total(start, o[j as int].0);
                        }
                    }
                }
                lemma_starts_map_insert(o, j as int, start, kv);
            }
            None
        }
    }
}

/// `seg` is the segment of the `i`-th event of `ts`, ending at `end`.
pub open spec fn is_segment(seg: Segment, ts: &Timesheet, i: int, end: Timestamp) -> bool {
    &&& seg.event_ref@ == ts.starts()[i].1
    &&& seg.start_time == ts.starts()[i].0
    &&& names_view(seg.tags@).to_set() == ts.patched()[ts.starts()[i].1].tag_names()
    &&& seg.end_time == end
    &&& seg.duration == end.nanos_since(ts.starts()[i].0)
}

/// In a strictly sorted list, each start time is found at its own index.
pub proof fn lemma_starts_map_at(s: Seq<(Timestamp, Seq<char>)>, i: int)
    requires
        strictly_sorted(s),
        0 <= i < s.len(),
    ensures
        starts_map(s).contains_key(s[i].0),
        starts_map(s)[s[i].0] == s[i].1,
{
    let j = choose|j: int| 0 <= j < s.len() && (#[trigger] s[j]).0 == s[i].0;
    if j != i {
        if j < i {
            assert(s[j].0.before(s[i].0));
        } else {
            assert(s[i].0.before(s[j].0));
        }
    }
}

proof fn lemma_starts_map_update(s: Seq<(Timestamp, Seq<char>)>, j: int, t: Timestamp, k: Seq<char>)
    requires
        strictly_sorted(s),
        0 <= j < s.len(),
        s[j].0 == t,
        strictly_sorted(s.update(j, (t, k))),
    ensures
        starts_map(s.update(j, (t, k))) == starts_map(s).insert(t, k),
{
    let n = s.update(j, (t, k));
    assert forall|u: Timestamp| #[trigger] starts_map(n).contains_key(u) <==> starts_map(s).insert(t, k).contains_key(u) by {
        if starts_map(n).contains_key(u) {
            let i = choose|i: int| 0 <= i < n.len() && (#[trigger] n[i]).0 == u;
            assert(s[i].0 == u);
        }
        if starts_map(s).contains_key(u) {
            let i = choose|i: int| 0 <= i < s.len() && (#[trigger] s[i]).0 == u;
            assert(n[i].0 == u);
        }
        assert(n[j].0 == t);
    }
    assert forall|u: Timestamp| #[trigger] starts_map(n).contains_key(u) implies starts_map(n)[u] == starts_map(s).insert(t, k)[u] by {
        let i = choose|i: int| 0 <= i < n.len() && (#[trigger] n[i]).0 == u;
        lemma_starts_map_at(n, i);
        if i != j {
            assert(n[i] == s[i]);
            lemma_starts_map_at(s, i);
            if i < j {
                assert(s[i].0.before(s[j].0));
            } else {
                assert(s[j].0.before(s[i].0));
            }
        }
    }
    assert(starts_map(n) =~= starts_map(s).insert(t, k));
}

proof fn lemma_starts_map_insert(s: Seq<(Timestamp, Seq<char>)>, j: int, t: Timestamp, k: Seq<char>)
    requires
        strictly_sorted(s),
        0 <= j <= s.len(),
        strictly_sorted(s.insert(j, (t, k))),
    ensures
        starts_map(s.insert(j, (t, k))) == starts_map(s).insert(t, k),
{
    let n = s.insert(j, (t, k));
    assert forall|u: Timestamp| #[trigger] starts_map(n).contains_key(u) <==> starts_map(s).insert(t, k).contains_key(u) by {
        if starts_map(n).contains_key(u) {
            let i = choose|i: int| 0 <= i < n.len() && (#[trigger] n[i]).0 == u;
            if i < j {
                assert(s[i].0 == u);
            } else if i > j {
                assert(s[i - 1].0 == u);
            }
        }
        if starts_map(s).contains_key(u) {
            let i = choose|i: int| 0 <= i < s.len() && (#[trigger] s[i]).0 == u;
            if i < j {
                assert(n[i].0 == u);
            } else {
                assert(n[i + 1].0 == u);
            }
        }
        assert(n[j].0 == t);
    }
    assert forall|u: Timestamp| #[trigger] starts_map(n).contains_key(u) implies starts_map(n)[u] == starts_map(s).insert(t, k)[u] by {
        let i = choose|i: int| 0 <= i < n.len() && (#[trigger] n[i]).0 == u;
        lemma_starts_map_at(n, i);
        if i < j {
            assert(n[i] == s[i]);
            lemma_starts_map_at(s, i);
            assert(n[i].0.before(n[j].0));
        } else if i > j {
            assert(n[i] == s[i - 1]);
            lemma_starts_map_at(s, i - 1);
            assert(n[j].0.before(n[i].0));
        }
    }
    assert(starts_map(n) =~= starts_map(s).insert(t, k));
}

} // verus!
