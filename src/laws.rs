//! Properties of the merge engine that hold for all inputs.
use crate::repository::event::EventState;
use crate::repository::timesheet::{
    added_pairs, applied, created_ids, created_state, creation_of, duplicate_ids, edited,
    entries_map, flat_claims, flat_errors, keys_of, patch_conflicts, removed_pairs,
    unknown_events, with_edits, Edit, ErrorView, PatchedTimesheet,
};
use crate::repository::{causal_history, ids_of, replay, Repository};
use crate::store::patch::{OpView, PatchView};
use crate::store::Store;
use crate::time::Timestamp;
use vstd::prelude::*;

verus! {

/// Adding or removing the same `(patch, value)` pair of an event twice leaves
/// the event as doing it once does.
pub proof fn lemma_event_edit_idempotent(st: EventState, e: Edit)
    ensures
        edited(edited(st, e), e) == edited(st, e),
{
    match e {
        Edit::AddStart(p, t) => {
            assert(st.starts_added.insert((p, t)).insert((p, t)) =~= st.starts_added.insert((p, t)));
        },
        Edit::RemoveStart(p, t) => {
            assert(st.starts_removed.insert((p, t)).insert((p, t)) =~= st.starts_removed.insert(
                (p, t),
            ));
        },
        Edit::AddTag(p, t) => {
            assert(st.tags_added.insert((p, t@)).insert((p, t@)) =~= st.tags_added.insert((p, t@)));
        },
        Edit::RemoveTag(p, t) => {
            assert(st.tags_removed.insert((p, t@)).insert((p, t@)) =~= st.tags_removed.insert(
                (p, t@),
            ));
        },
    }
}

proof fn lemma_all_known<T>(id: u128, ops: Seq<OpView<T>>, known: Set<Seq<char>>)
    requires
        forall|i: int| 0 <= i < ops.len() ==> known.contains((#[trigger] ops[i]).event),
    ensures
        unknown_events(id, ops, known).len() == 0,
    decreases ops.len(),
{
    if ops.len() > 0 {
        assert forall|i: int| 0 <= i < ops.drop_last().len() implies known.contains(
            (#[trigger] ops.drop_last()[i]).event,
        ) by {
            assert(ops.drop_last()[i] == ops[i]);
        }
        lemma_all_known(id, ops.drop_last(), known);
        assert(ops.last() == ops[ops.len() - 1]);
    }
}

proof fn lemma_known_creation_reported(cs: Seq<crate::store::patch::CreateView>, known: Set<Seq<char>>, i: int)
    requires
        0 <= i < cs.len(),
        known.contains(cs[i].event),
    ensures
        duplicate_ids(cs, known).len() > 0,
    decreases cs.len(),
{
    if i < cs.len() - 1 {
        assert(cs.drop_last()[i] == cs[i]);
        lemma_known_creation_reported(cs.drop_last(), known, i);
    } else {
        assert(cs.last() == cs[i]);
    }
}

/// Applying a patch a second time: one that creates events is refused (its
/// ids exist now), and one that does not leaves the events as applying it
/// once did.
pub proof fn lemma_apply_twice(s: Map<Seq<char>, EventState>, p: PatchView)
    requires
        patch_conflicts(s, p).len() == 0,
    ensures
        p.create_event.len() == 0 ==> patch_conflicts(applied(s, p), p).len() == 0 && applied(
            applied(s, p),
            p,
        ) == applied(s, p),
        p.create_event.len() > 0 ==> patch_conflicts(applied(s, p), p).len() > 0,
{
    crate::repository::timesheet::lemma_no_conflicts(s, p);
    let s1 = applied(s, p);
    let d1 = s1.dom();
    if p.create_event.len() == 0 {
        assert(created_ids(p.create_event) =~= Seq::empty());
        assert(d1 =~= s.dom());
        lemma_all_known(p.id, p.add_start, d1);
        lemma_all_known(p.id, p.remove_start, d1);
        lemma_all_known(p.id, p.add_tag, d1);
        lemma_all_known(p.id, p.remove_tag, d1);
        assert(patch_conflicts(s1, p).len() == 0);
        let s2 = applied(s1, p);
        assert forall|k: Seq<char>| #[trigger] s2.contains_key(k) implies s2[k] == s1[k] by {
            let e1 = with_edits(s, p.id, p.add_start, p.remove_start, p.add_tag, p.remove_tag)[k];
            let e2 = with_edits(s1, p.id, p.add_start, p.remove_start, p.add_tag, p.remove_tag)[k];
            assert(e2.starts_added =~= e1.starts_added);
            assert(e2.starts_removed =~= e1.starts_removed);
            assert(e2.tags_added =~= e1.tags_added);
            assert(e2.tags_removed =~= e1.tags_removed);
        }
        assert(s2 =~= s1);
    } else {
        let c = p.create_event[0];
        assert(created_ids(p.create_event)[0] == c.event);
        assert(d1.contains(c.event));
        lemma_known_creation_reported(p.create_event, d1, 0);
    }
}

/// Loading a patch that was loaded already is refused as such and changes
/// nothing.
pub proof fn lemma_load_twice<S: Store>(
    r0: Repository<S>,
    r1: Repository<S>,
    r2: Repository<S>,
    p: PatchView,
    second: Result<(), crate::repository::Error<S::Error>>,
)
    requires
        Repository::<S>::loaded_by(r0, r1, p, Ok(())),
        Repository::<S>::loaded_by(r1, r2, p, second),
    ensures
        second == Err::<(), crate::repository::Error<S::Error>>(
            crate::repository::Error::PatchAlreadyLoaded { patch: p.id },
        ),
        r2.history() == r1.history(),
{
    let h = r1.history();
    assert(ids_of(h)[h.len() - 1] == p.id);
}

/// `e` reports that event `k` has no single start time.
pub open spec fn reports_event(e: ErrorView, k: Seq<char>) -> bool {
    match e {
        ErrorView::FlattenEventError { source: _, event } => event == k,
        _ => false,
    }
}

/// How many errors of `errs` report that event `k` has no single start time.
pub open spec fn count_reports(errs: Seq<ErrorView>, k: Seq<char>) -> nat
    decreases errs.len(),
{
    if errs.len() == 0 {
        0
    } else {
        count_reports(errs.drop_last(), k) + if reports_event(errs.last(), k) {
            1nat
        } else {
            0nat
        }
    }
}

proof fn lemma_keys_drop_last(es: Seq<(Seq<char>, EventState)>)
    requires
        es.len() > 0,
        keys_of(es).no_duplicates(),
    ensures
        keys_of(es.drop_last()).no_duplicates(),
        forall|i: int| 0 <= i < es.len() - 1 ==> (#[trigger] es[i]).0 != es.last().0,
        forall|i: int| 0 <= i < es.len() - 1 ==> es.drop_last()[i] == #[trigger] es[i],
{
    assert forall|i: int| 0 <= i < es.len() - 1 implies (#[trigger] es[i]).0 != es.last().0 by {
        assert(keys_of(es)[i] == es[i].0);
        assert(keys_of(es)[es.len() - 1] == es.last().0);
    }
    let d = keys_of(es.drop_last());
    assert forall|i: int, j: int| 0 <= i < d.len() && 0 <= j < d.len() && i != j implies d[i]
        != d[j] by {
        assert(d[i] == keys_of(es)[i] && d[j] == keys_of(es)[j]);
    }
}

proof fn lemma_count_reports(es: Seq<(Seq<char>, EventState)>, k: Seq<char>)
    requires
        keys_of(es).no_duplicates(),
    ensures
        count_reports(flat_errors(es), k) == if exists|i: int|
            0 <= i < es.len() && (#[trigger] es[i]).0 == k && es[i].1.flat_start() is Err {
            1nat
        } else {
            0nat
        },
    decreases es.len(),
{
    if es.len() > 0 {
        let rest = es.drop_last();
        lemma_keys_drop_last(es);
        lemma_count_reports(rest, k);
        let fe = flat_errors(es);
        let fr = flat_errors(rest);
        if fe.len() > fr.len() {
            assert(fe.drop_last() == fr);
        } else {
            assert(fe == fr);
        }
        if exists|i: int| 0 <= i < es.len() && (#[trigger] es[i]).0 == k && es[i].1.flat_start() is Err {
            let i = choose|i: int| 0 <= i < es.len() && (#[trigger] es[i]).0 == k && es[i].1.flat_start() is Err;
            if i < es.len() - 1 {
                assert(rest[i] == es[i]);
            }
        }
        if exists|i: int| 0 <= i < rest.len() && (#[trigger] rest[i]).0 == k && rest[i].1.flat_start() is Err {
            let i = choose|i: int| 0 <= i < rest.len() && (#[trigger] rest[i]).0 == k && rest[i].1.flat_start() is Err;
            assert(es[i] == rest[i]);
        }
    }
}

/// Flattening reports each event without a single start time exactly once,
/// with the reason, and reports no such error for any other event.
pub proof fn lemma_flatten_reports_each_event(ts: &PatchedTimesheet, k: Seq<char>)
    requires
        ts.wf(),
        ts@.contains_key(k),
    ensures
        count_reports(flat_errors(ts.entries()), k) == if ts@[k].flat_start() is Err {
            1nat
        } else {
            0nat
        },
        ts@[k].flat_start() is Err ==> flat_errors(ts.entries()).contains(
            ErrorView::FlattenEventError { source: ts@[k].flat_start()->Err_0, event: k },
        ),
{
    ts.lemma_view();
    let es = ts.entries();
    lemma_count_reports(es, k);
    let i = choose|i: int| 0 <= i < keys_of(es).len() && keys_of(es)[i] == k;
    assert(es[i].0 == k);
    if ts@[k].flat_start() is Err {
        lemma_flat_errors_prefix(es, i + 1);
        let pre = es.take(i + 1);
        assert(pre.drop_last() == es.take(i));
        assert(pre.last() == es[i]);
        let fe = flat_errors(pre);
        assert(fe.last() == ErrorView::FlattenEventError { source: ts@[k].flat_start()->Err_0, event: k });
        assert(flat_errors(es)[fe.len() - 1] == fe.last());
    }
}

/// The errors of a prefix come first among the errors of the whole list.
pub proof fn lemma_flat_errors_prefix(es: Seq<(Seq<char>, EventState)>, n: int)
    requires
        0 <= n <= es.len(),
    ensures
        flat_errors(es.take(n)).is_prefix_of(flat_errors(es)),
    decreases es.len(),
{
    if n == es.len() {
        assert(es.take(n) == es);
    } else {
        let rest = es.drop_last();
        assert(rest.take(n) == es.take(n));
        lemma_flat_errors_prefix(rest, n);
        let fe = flat_errors(es);
        let fr = flat_errors(rest);
        let fp = flat_errors(es.take(n));
        assert(fr.is_prefix_of(fe));
        assert forall|j: int| 0 <= j < fp.len() implies fe[j] == fp[j] by {
            assert(fr[j] == fp[j]);
        }
    }
}

/// Which events claim a start time: every event with a single start time
/// does, and the claimant of each time is such an event, the last one.
pub proof fn lemma_claims(es: Seq<(Seq<char>, EventState)>)
    ensures
        forall|i: int|
            0 <= i < es.len() && (#[trigger] es[i]).1.flat_start() is Ok ==> flat_claims(
                es,
            ).contains_key(es[i].1.flat_start()->Ok_0),
        forall|t: Timestamp|
            #[trigger] flat_claims(es).contains_key(t) ==> exists|i: int|
                0 <= i < es.len() && (#[trigger] es[i]).1.flat_start() == Ok::<Timestamp, crate::repository::event::Error>(t) && flat_claims(es)[t] == es[i].0
                    && forall|j: int| i < j < es.len() ==> (#[trigger] es[j]).1.flat_start() != Ok::<Timestamp, crate::repository::event::Error>(t),
    decreases es.len(),
{
    if es.len() > 0 {
        let rest = es.drop_last();
        lemma_claims(rest);
        assert forall|i: int| 0 <= i < es.len() && (#[trigger] es[i]).1.flat_start() is Ok implies flat_claims(
            es,
        ).contains_key(es[i].1.flat_start()->Ok_0) by {
            if i < es.len() - 1 {
                assert(rest[i] == es[i]);
            }
        }
        assert forall|t: Timestamp| #[trigger] flat_claims(es).contains_key(t) implies exists|i: int|
            0 <= i < es.len() && (#[trigger] es[i]).1.flat_start() == Ok::<Timestamp, crate::repository::event::Error>(t) && flat_claims(es)[t] == es[i].0
                && forall|j: int| i < j < es.len() ==> (#[trigger] es[j]).1.flat_start() != Ok::<Timestamp, crate::repository::event::Error>(t) by {
            if es.last().1.flat_start() == Ok::<Timestamp, crate::repository::event::Error>(t) {
                assert(es[es.len() - 1] == es.last());
            } else {
                assert(flat_claims(rest).contains_key(t));
                let i = choose|i: int|
                    0 <= i < rest.len() && (#[trigger] rest[i]).1.flat_start() == Ok::<Timestamp, crate::repository::event::Error>(t) && flat_claims(rest)[t] == rest[i].0
                        && forall|j: int| i < j < rest.len() ==> (#[trigger] rest[j]).1.flat_start() != Ok::<Timestamp, crate::repository::event::Error>(t);
                assert(es[i] == rest[i]);
                assert forall|j: int| i < j < es.len() implies (#[trigger] es[j]).1.flat_start() != Ok::<Timestamp, crate::repository::event::Error>(t) by {
                    if j < es.len() - 1 {
                        assert(rest[j] == es[j]);
                    }
                }
            }
        }
    }
}

/// Two distinct events that both flatten to the same start time, where no
/// other event does, are reported together as a `DuplicateEventTime`.
pub proof fn lemma_duplicate_start_reported(
    ts: &PatchedTimesheet,
    x: Seq<char>,
    y: Seq<char>,
    t: Timestamp,
)
    requires
        ts.wf(),
        x != y,
        ts@.contains_key(x),
        ts@.contains_key(y),
        ts@[x].flat_start() == Ok::<Timestamp, crate::repository::event::Error>(t),
        ts@[y].flat_start() == Ok::<Timestamp, crate::repository::event::Error>(t),
        forall|k: Seq<char>|
            #[trigger] ts@.contains_key(k) && k != x && k != y ==> ts@[k].flat_start() != Ok::<Timestamp, crate::repository::event::Error>(t),
    ensures
        flat_errors(ts.entries()).contains(ErrorView::DuplicateEventTime { event_a: x, event_b: y })
            || flat_errors(ts.entries()).contains(
            ErrorView::DuplicateEventTime { event_a: y, event_b: x },
        ),
{
    ts.lemma_view();
    let es = ts.entries();
    let ix = choose|i: int| 0 <= i < keys_of(es).len() && keys_of(es)[i] == x;
    let iy = choose|i: int| 0 <= i < keys_of(es).len() && keys_of(es)[i] == y;
    assert(es[ix].0 == x && es[iy].0 == y);
    let (a, b, ia, ib) = if ix < iy { (x, y, ix, iy) } else { (y, x, iy, ix) };
    let pre = es.take(ib);
    lemma_claims(pre);
    assert(pre[ia] == es[ia]);
    assert(flat_claims(pre).contains_key(t));
    let i = choose|i: int|
        0 <= i < pre.len() && (#[trigger] pre[i]).1.flat_start() == Ok::<Timestamp, crate::repository::event::Error>(t) && flat_claims(pre)[t] == pre[i].0
            && forall|j: int| i < j < pre.len() ==> (#[trigger] pre[j]).1.flat_start() != Ok::<Timestamp, crate::repository::event::Error>(t);
    assert(pre[i] == es[i]);
    assert(i == ia) by {
        if i != ia {
            assert(es[i].0 != x && es[i].0 != y) by {
                assert(keys_of(es)[i] == es[i].0);
                assert(keys_of(es)[ia] == es[ia].0);
                assert(keys_of(es)[ib] == es[ib].0);
            }
            assert(ts@.contains_key(es[i].0));
        }
    }
    let cur = es.take(ib + 1);
    assert(cur.drop_last() == pre);
    assert(cur.last() == es[ib]);
    lemma_flat_errors_prefix(es, ib + 1);
    let fe = flat_errors(cur);
    assert(fe.last() == ErrorView::DuplicateEventTime { event_a: a, event_b: b });
    assert(flat_errors(es)[fe.len() - 1] == fe.last());
}

/// Each patch of `ps` applies without conflict on top of the ones before it.
pub open spec fn conflict_free(ps: Seq<PatchView>) -> bool {
    forall|i: int|
        0 <= i < ps.len() ==> patch_conflicts(replay(ps.take(i)), #[trigger] ps[i]).len() == 0
}

/// What patch `p` brings to event `k`: the event itself where `p` creates
/// it, and the pairs that its additions and removals name.
pub open spec fn contribution(p: PatchView, k: Seq<char>) -> EventState {
    let base = if created_ids(p.create_event).contains(k) {
        created_state(p.id, creation_of(p.create_event, k))
    } else {
        EventState::empty()
    };
    EventState {
        starts_added: base.starts_added.union(added_pairs(p.id, p.add_start, k)),
        starts_removed: removed_pairs(p.remove_start, k),
        tags_added: base.tags_added.union(added_pairs(p.id, p.add_tag, k)),
        tags_removed: removed_pairs(p.remove_tag, k),
    }
}

/// The union of `f(q)` over the patches `q` of `ps`.
pub open spec fn union_over<T>(ps: Set<PatchView>, f: spec_fn(PatchView) -> Set<T>) -> Set<T> {
    Set::new(|x: T| exists|q: PatchView| ps.contains(q) && #[trigger] f(q).contains(x))
}

/// The events that a set of patches makes, whatever the order: every event
/// that one of them creates, with everything that any of them brings to it.
pub open spec fn merged(ps: Set<PatchView>) -> Map<Seq<char>, EventState> {
    Map::new(
        |k: Seq<char>| exists|q: PatchView| ps.contains(q) && #[trigger] created_ids(q.create_event).contains(k),
        |k: Seq<char>|
            EventState {
                starts_added: union_over(ps, |q: PatchView| contribution(q, k).starts_added),
                starts_removed: union_over(ps, |q: PatchView| contribution(q, k).starts_removed),
                tags_added: union_over(ps, |q: PatchView| contribution(q, k).tags_added),
                tags_removed: union_over(ps, |q: PatchView| contribution(q, k).tags_removed),
            },
    )
}

/// Every addition and removal of `q` names an event of `known`.
pub open spec fn ops_known(q: PatchView, known: Set<Seq<char>>) -> bool {
    &&& forall|i: int| 0 <= i < q.add_start.len() ==> known.contains((#[trigger] q.add_start[i]).event)
    &&& forall|i: int| 0 <= i < q.remove_start.len() ==> known.contains((#[trigger] q.remove_start[i]).event)
    &&& forall|i: int| 0 <= i < q.add_tag.len() ==> known.contains((#[trigger] q.add_tag[i]).event)
    &&& forall|i: int| 0 <= i < q.remove_tag.len() ==> known.contains((#[trigger] q.remove_tag[i]).event)
}

proof fn lemma_union_insert<T>(ps: Set<PatchView>, p: PatchView, f: spec_fn(PatchView) -> Set<T>)
    ensures
        union_over(ps.insert(p), f) == union_over(ps, f).union(f(p)),
{
    assert forall|x: T| union_over(ps.insert(p), f).contains(x) <==> union_over(ps, f).union(f(p)).contains(x) by {
        if union_over(ps.insert(p), f).contains(x) {
            let q = choose|q: PatchView| ps.insert(p).contains(q) && #[trigger] f(q).contains(x);
            if q != p {
                assert(ps.contains(q));
            }
        }
        if union_over(ps, f).contains(x) {
            let q = choose|q: PatchView| ps.contains(q) && #[trigger] f(q).contains(x);
            assert(ps.insert(p).contains(q));
        }
        if f(p).contains(x) {
            assert(ps.insert(p).contains(p));
        }
    }
    assert(union_over(ps.insert(p), f) =~= union_over(ps, f).union(f(p)));
}

proof fn lemma_union_empty<T>(ps: Set<PatchView>, f: spec_fn(PatchView) -> Set<T>)
    requires
        forall|q: PatchView| ps.contains(q) ==> #[trigger] f(q) == Set::<T>::empty(),
    ensures
        union_over(ps, f) == Set::<T>::empty(),
{
    assert forall|x: T| !union_over(ps, f).contains(x) by {
        if union_over(ps, f).contains(x) {
            let q = choose|q: PatchView| ps.contains(q) && #[trigger] f(q).contains(x);
        }
    }
    assert(union_over(ps, f) =~= Set::empty());
}

proof fn lemma_pairs_empty<T>(id: u128, ops: Seq<OpView<T>>, known: Set<Seq<char>>, k: Seq<char>)
    requires
        forall|i: int| 0 <= i < ops.len() ==> known.contains((#[trigger] ops[i]).event),
        !known.contains(k),
    ensures
        added_pairs(id, ops, k) == Set::<(u128, T)>::empty(),
        removed_pairs(ops, k) == Set::<(u128, T)>::empty(),
{
    assert(added_pairs(id, ops, k) =~= Set::empty());
    assert(removed_pairs(ops, k) =~= Set::empty());
}

/// A replay without conflicts makes exactly the events of the set of its
/// patches, and each patch edits only events that it knows.
pub proof fn lemma_replay_merged(ps: Seq<PatchView>)
    requires
        conflict_free(ps),
    ensures
        replay(ps) == merged(ps.to_set()),
        forall|q: PatchView| ps.to_set().contains(q) ==> ops_known(q, replay(ps).dom()),
    decreases ps.len(),
{
    if ps.len() == 0 {
        assert(ps.to_set() =~= Set::empty());
        assert(merged(ps.to_set()) =~= Map::empty());
    } else {
        let rest = ps.drop_last();
        let p = ps.last();
        assert forall|i: int| 0 <= i < rest.len() implies patch_conflicts(
            replay(rest.take(i)),
            #[trigger] rest[i],
        ).len() == 0 by {
            assert(rest.take(i) == ps.take(i));
            assert(rest[i] == ps[i]);
        }
        lemma_replay_merged(rest);
        assert(ps.take(ps.len() - 1) == rest);
        assert(ps[ps.len() - 1] == p);
        let m = replay(rest);
        let set0 = rest.to_set();
        let set1 = ps.to_set();
        assert(ps == rest.push(p));
        crate::repository::event::lemma_push_to_set(rest, p);
        assert(set1 == set0.insert(p));
        crate::repository::timesheet::lemma_no_conflicts(m, p);
        let n = applied(m, p);
        let g = merged(set1);
        assert forall|k: Seq<char>| #[trigger] n.contains_key(k) <==> g.contains_key(k) by {
            if g.contains_key(k) {
                let q = choose|q: PatchView| set1.contains(q) && #[trigger] created_ids(q.create_event).contains(k);
                if q != p {
                    assert(merged(set0).contains_key(k));
                }
            }
            if m.contains_key(k) {
                assert(merged(set0).contains_key(k));
                let q = choose|q: PatchView| set0.contains(q) && #[trigger] created_ids(q.create_event).contains(k);
                assert(set1.contains(q));
            }
            if created_ids(p.create_event).contains(k) {
                assert(set1.contains(p));
            }
        }
        assert forall|k: Seq<char>| #[trigger] n.contains_key(k) implies n[k] == g[k] by {
            let fsa = |q: PatchView| contribution(q, k).starts_added;
            let fsr = |q: PatchView| contribution(q, k).starts_removed;
            let fta = |q: PatchView| contribution(q, k).tags_added;
            let ftr = |q: PatchView| contribution(q, k).tags_removed;
            lemma_union_insert(set0, p, fsa);
            lemma_union_insert(set0, p, fsr);
            lemma_union_insert(set0, p, fta);
            lemma_union_insert(set0, p, ftr);
            if m.contains_key(k) {
                assert(!created_ids(p.create_event).contains(k)) by {
                    if created_ids(p.create_event).contains(k) {
                        let i = choose|i: int| 0 <= i < created_ids(p.create_event).len() && created_ids(p.create_event)[i] == k;
                        assert(p.create_event[i].event == k);
                    }
                }
                assert(n[k].starts_added =~= g[k].starts_added);
                assert(n[k].starts_removed =~= g[k].starts_removed);
                assert(n[k].tags_added =~= g[k].tags_added);
                assert(n[k].tags_removed =~= g[k].tags_removed);
            } else {
                assert forall|q: PatchView| set0.contains(q) implies #[trigger] contribution(q, k) == EventState::empty() by {
                    assert(ops_known(q, m.dom()));
                    lemma_pairs_empty(q.id, q.add_start, m.dom(), k);
                    lemma_pairs_empty(q.id, q.remove_start, m.dom(), k);
                    lemma_pairs_empty(q.id, q.add_tag, m.dom(), k);
                    lemma_pairs_empty(q.id, q.remove_tag, m.dom(), k);
                    assert(!created_ids(q.create_event).contains(k)) by {
                        if created_ids(q.create_event).contains(k) {
                            assert(merged(set0).contains_key(k));
                        }
                    }
                    assert(contribution(q, k).starts_added =~= Set::empty());
                    assert(contribution(q, k).tags_added =~= Set::empty());
                }
                assert forall|q: PatchView| set0.contains(q) implies #[trigger] fsa(q) == Set::<(u128, Timestamp)>::empty() by {
                    assert(contribution(q, k) == EventState::empty());
                }
                assert forall|q: PatchView| set0.contains(q) implies #[trigger] fsr(q) == Set::<(u128, Timestamp)>::empty() by {
                    assert(contribution(q, k) == EventState::empty());
                }
                assert forall|q: PatchView| set0.contains(q) implies #[trigger] fta(q) == Set::<(u128, Seq<char>)>::empty() by {
                    assert(contribution(q, k) == EventState::empty());
                }
                assert forall|q: PatchView| set0.contains(q) implies #[trigger] ftr(q) == Set::<(u128, Seq<char>)>::empty() by {
                    assert(contribution(q, k) == EventState::empty());
                }
                lemma_union_empty(set0, fsa);
                lemma_union_empty(set0, fsr);
                lemma_union_empty(set0, fta);
                lemma_union_empty(set0, ftr);
                lemma_pairs_empty(p.id, p.add_start, m.dom(), k);
                lemma_pairs_empty(p.id, p.remove_start, m.dom(), k);
                lemma_pairs_empty(p.id, p.add_tag, m.dom(), k);
                lemma_pairs_empty(p.id, p.remove_tag, m.dom(), k);
                assert(n[k].starts_added =~= g[k].starts_added);
                assert(n[k].starts_removed =~= g[k].starts_removed);
                assert(n[k].tags_added =~= g[k].tags_added);
                assert(n[k].tags_removed =~= g[k].tags_removed);
            }
        }
        assert(n =~= g);
        assert forall|q: PatchView| set1.contains(q) implies ops_known(q, n.dom()) by {
            if q != p {
                assert(set0.contains(q));
                assert(ops_known(q, m.dom()));
            }
        }
    }
}

/// Every event of the map has a single start time, and no two events start
/// at the same time.
pub open spec fn flattens(m: Map<Seq<char>, EventState>) -> bool {
    &&& forall|k: Seq<char>| #[trigger] m.contains_key(k) ==> m[k].flat_start() is Ok
    &&& forall|k1: Seq<char>, k2: Seq<char>|
        #[trigger] m.contains_key(k1) && #[trigger] m.contains_key(k2) && k1 != k2 ==> m[k1].flat_start()
            != m[k2].flat_start()
}

/// Flattening in order finds nothing exactly where every event has a single
/// start time and no two share one.
proof fn lemma_flat_errors_empty(es: Seq<(Seq<char>, EventState)>)
    ensures
        flat_errors(es).len() == 0 <==> (forall|i: int| 0 <= i < es.len() ==> (#[trigger] es[i]).1.flat_start() is Ok)
            && (forall|i: int, j: int| 0 <= i < j < es.len() ==> (#[trigger] es[i]).1.flat_start() != (#[trigger] es[j]).1.flat_start()),
    decreases es.len(),
{
    if es.len() > 0 {
        let rest = es.drop_last();
        lemma_flat_errors_empty(rest);
        lemma_claims(rest);
        let last = es.last();
        assert(es[es.len() - 1] == last);
        assert forall|i: int| 0 <= i < rest.len() implies #[trigger] rest[i] == es[i] by {}
        if flat_errors(es).len() == 0 {
            assert(flat_errors(rest).len() == 0);
            assert(last.1.flat_start() is Ok);
            assert forall|i: int| 0 <= i < es.len() implies (#[trigger] es[i]).1.flat_start() is Ok by {
                if i < es.len() - 1 {
                    assert(rest[i] == es[i]);
                }
            }
            assert forall|i: int, j: int| 0 <= i < j < es.len() implies (#[trigger] es[i]).1.flat_start() != (#[trigger] es[j]).1.flat_start() by {
                if j == es.len() - 1 {
                    assert(rest[i] == es[i]);
                    if es[i].1.flat_start() == last.1.flat_start() {
                        assert(flat_claims(rest).contains_key(last.1.flat_start()->Ok_0));
                    }
                } else {
                    assert(rest[i] == es[i] && rest[j] == es[j]);
                }
            }
        }
        if (forall|i: int| 0 <= i < es.len() ==> (#[trigger] es[i]).1.flat_start() is Ok)
            && (forall|i: int, j: int| 0 <= i < j < es.len() ==> (#[trigger] es[i]).1.flat_start() != (#[trigger] es[j]).1.flat_start()) {
            assert forall|i: int| 0 <= i < rest.len() implies (#[trigger] rest[i]).1.flat_start() is Ok by {
                assert(rest[i] == es[i]);
            }
            assert forall|i: int, j: int| 0 <= i < j < rest.len() implies (#[trigger] rest[i]).1.flat_start() != (#[trigger] rest[j]).1.flat_start() by {
                assert(rest[i] == es[i] && rest[j] == es[j]);
            }
            let t = last.1.flat_start()->Ok_0;
            if flat_claims(rest).contains_key(t) {
                let i = choose|i: int|
                    0 <= i < rest.len() && (#[trigger] rest[i]).1.flat_start() == Ok::<Timestamp, crate::repository::event::Error>(t) && flat_claims(rest)[t] == rest[i].0
                        && forall|j: int| i < j < rest.len() ==> (#[trigger] rest[j]).1.flat_start() != Ok::<Timestamp, crate::repository::event::Error>(t);
                assert(es[i] == rest[i]);
                assert(es[i].1.flat_start() != es[es.len() - 1].1.flat_start());
            }
        }
    }
}

/// Whether flattening succeeds, and which event it puts at each start time,
/// depend on the events alone, not on the order in which they were created.
pub proof fn lemma_flatten_depends_on_events(t1: &PatchedTimesheet, t2: &PatchedTimesheet)
    requires
        t1.wf(),
        t2.wf(),
        t1@ == t2@,
    ensures
        (flat_errors(t1.entries()).len() == 0) == flattens(t1@),
        (flat_errors(t2.entries()).len() == 0) == flattens(t2@),
        flattens(t1@) ==> flat_claims(t1.entries()) == flat_claims(t2.entries()),
{
    lemma_flatten_exact(t1);
    lemma_flatten_exact(t2);
    if flattens(t1@) {
        let c1 = flat_claims(t1.entries());
        let c2 = flat_claims(t2.entries());
        assert forall|t: Timestamp| #[trigger] c1.contains_key(t) <==> c2.contains_key(t) by {
            if c1.contains_key(t) {
                let k = choose|k: Seq<char>| t1@.contains_key(k) && t1@[k].flat_start() == Ok::<Timestamp, crate::repository::event::Error>(t);
                assert(t2@.contains_key(k));
            }
            if c2.contains_key(t) {
                let k = choose|k: Seq<char>| t2@.contains_key(k) && t2@[k].flat_start() == Ok::<Timestamp, crate::repository::event::Error>(t);
                assert(t1@.contains_key(k));
            }
        }
        assert forall|t: Timestamp| #[trigger] c1.contains_key(t) implies c1[t] == c2[t] by {
            let k = choose|k: Seq<char>| t1@.contains_key(k) && t1@[k].flat_start() == Ok::<Timestamp, crate::repository::event::Error>(t);
            assert(t2@.contains_key(k));
        }
        assert(c1 =~= c2);
    }
}

/// Flattening succeeds exactly where `flattens` holds, and then puts each
/// event at its own start time.
pub proof fn lemma_flatten_exact(ts: &PatchedTimesheet)
    requires
        ts.wf(),
    ensures
        (flat_errors(ts.entries()).len() == 0) == flattens(ts@),
        flattens(ts@) ==> forall|t: Timestamp|
            #[trigger] flat_claims(ts.entries()).contains_key(t) <==> exists|k: Seq<char>|
                ts@.contains_key(k) && ts@[k].flat_start() == Ok::<Timestamp, crate::repository::event::Error>(t),
        flattens(ts@) ==> forall|k: Seq<char>|
            #[trigger] ts@.contains_key(k) ==> flat_claims(ts.entries()).contains_key(ts@[k].flat_start()->Ok_0)
                && flat_claims(ts.entries())[ts@[k].flat_start()->Ok_0] == k,
{
    ts.lemma_view();
    let es = ts.entries();
    lemma_flat_errors_empty(es);
    lemma_claims(es);
    assert forall|k: Seq<char>| #[trigger] ts@.contains_key(k) implies exists|i: int| 0 <= i < es.len() && (#[trigger] es[i]).0 == k by {
        let i = choose|i: int| 0 <= i < keys_of(es).len() && keys_of(es)[i] == k;
        assert(es[i].0 == k);
    }
    assert forall|i: int, j: int| 0 <= i < es.len() && 0 <= j < es.len() && i != j implies (#[trigger] es[i]).0 != (#[trigger] es[j]).0 by {
        assert(keys_of(es)[i] == es[i].0 && keys_of(es)[j] == es[j].0);
    }
    if flat_errors(es).len() == 0 {
        assert forall|k1: Seq<char>, k2: Seq<char>|
            #[trigger] ts@.contains_key(k1) && #[trigger] ts@.contains_key(k2) && k1 != k2 implies ts@[k1].flat_start() != ts@[k2].flat_start() by {
            let i = choose|i: int| 0 <= i < es.len() && (#[trigger] es[i]).0 == k1;
            let j = choose|j: int| 0 <= j < es.len() && (#[trigger] es[j]).0 == k2;
            if i < j {
                assert(es[i].1.flat_start() != es[j].1.flat_start());
            } else {
                assert(es[j].1.flat_start() != es[i].1.flat_start());
            }
        }
        assert forall|k: Seq<char>| #[trigger] ts@.contains_key(k) implies ts@[k].flat_start() is Ok by {
            let i = choose|i: int| 0 <= i < es.len() && (#[trigger] es[i]).0 == k;
        }
    }
    if flattens(ts@) {
        assert forall|i: int| 0 <= i < es.len() implies (#[trigger] es[i]).1.flat_start() is Ok by {
            assert(ts@.contains_key(es[i].0));
        }
        assert forall|i: int, j: int| 0 <= i < j < es.len() implies (#[trigger] es[i]).1.flat_start() != (#[trigger] es[j]).1.flat_start() by {
            assert(ts@.contains_key(es[i].0) && ts@.contains_key(es[j].0));
        }
        assert forall|t: Timestamp| #[trigger] flat_claims(es).contains_key(t) <==> exists|k: Seq<char>|
            ts@.contains_key(k) && ts@[k].flat_start() == Ok::<Timestamp, crate::repository::event::Error>(t) by {
            if flat_claims(es).contains_key(t) {
                let i = choose|i: int|
                    0 <= i < es.len() && (#[trigger] es[i]).1.flat_start() == Ok::<Timestamp, crate::repository::event::Error>(t) && flat_claims(es)[t] == es[i].0
                        && forall|j: int| i < j < es.len() ==> (#[trigger] es[j]).1.flat_start() != Ok::<Timestamp, crate::repository::event::Error>(t);
                assert(ts@.contains_key(es[i].0));
            }
            if exists|k: Seq<char>| ts@.contains_key(k) && ts@[k].flat_start() == Ok::<Timestamp, crate::repository::event::Error>(t) {
                let k = choose|k: Seq<char>| ts@.contains_key(k) && ts@[k].flat_start() == Ok::<Timestamp, crate::repository::event::Error>(t);
                let i = choose|i: int| 0 <= i < es.len() && (#[trigger] es[i]).0 == k;
            }
        }
        assert forall|k: Seq<char>| #[trigger] ts@.contains_key(k) implies flat_claims(es).contains_key(ts@[k].flat_start()->Ok_0)
            && flat_claims(es)[ts@[k].flat_start()->Ok_0] == k by {
            let i = choose|i: int| 0 <= i < es.len() && (#[trigger] es[i]).0 == k;
            let t = ts@[k].flat_start()->Ok_0;
            let j = choose|j: int|
                0 <= j < es.len() && (#[trigger] es[j]).1.flat_start() == Ok::<Timestamp, crate::repository::event::Error>(t) && flat_claims(es)[t] == es[j].0
                    && forall|m: int| j < m < es.len() ==> (#[trigger] es[m]).1.flat_start() != Ok::<Timestamp, crate::repository::event::Error>(t);
            if j != i {
                assert(ts@.contains_key(es[j].0));
            }
        }
    }
}

/// Replaying the same set of patches in two orders, each consistent with
/// the dependencies and without conflicts, yields the same events.
pub proof fn lemma_replay_order_independent(ps1: Seq<PatchView>, ps2: Seq<PatchView>)
    requires
        causal_history(ps1),
        causal_history(ps2),
        ps1.to_set() == ps2.to_set(),
    ensures
        replay(ps1) == replay(ps2),
{
    lemma_replay_merged(ps1);
    lemma_replay_merged(ps2);
}

/// On top of events built without conflict, applying `p` then `q` gives the
/// same events as applying `q` then `p`, where both orders apply without
/// conflict.
pub proof fn lemma_apply_order_independent(h: Seq<PatchView>, p: PatchView, q: PatchView)
    requires
        conflict_free(h.push(p).push(q)),
        conflict_free(h.push(q).push(p)),
    ensures
        applied(applied(replay(h), p), q) == applied(applied(replay(h), q), p),
{
    let a = h.push(p).push(q);
    let b = h.push(q).push(p);
    lemma_replay_merged(a);
    lemma_replay_merged(b);
    assert(a.drop_last() == h.push(p) && a.drop_last().drop_last() == h);
    assert(b.drop_last() == h.push(q) && b.drop_last().drop_last() == h);
    assert(a.to_set() =~= b.to_set()) by {
        assert forall|x: PatchView| a.to_set().contains(x) <==> b.to_set().contains(x) by {
            if a.contains(x) {
                let i = choose|i: int| 0 <= i < a.len() && a[i] == x;
                if i < h.len() {
                    assert(b[i] == x);
                } else if i == h.len() {
                    assert(b[i + 1] == x);
                } else {
                    assert(b[i - 1] == x);
                }
            }
            if b.contains(x) {
                let i = choose|i: int| 0 <= i < b.len() && b[i] == x;
                if i < h.len() {
                    assert(a[i] == x);
                } else if i == h.len() {
                    assert(a[i + 1] == x);
                } else {
                    assert(a[i - 1] == x);
                }
            }
        }
    }
}

/// Two repositories that have applied the same patches hold the same
/// events, whatever order the patches were fetched and applied in.
pub proof fn lemma_fetch_order_irrelevant<S: Store, T: Store>(r1: Repository<S>, r2: Repository<T>)
    requires
        r1.wf(),
        r2.wf(),
        r1.history().to_set() == r2.history().to_set(),
    ensures
        replay(r1.history()) == replay(r2.history()),
{
    r1.lemma_history();
    r2.lemma_history();
    lemma_replay_order_independent(r1.history(), r2.history());
}

} // verus!
