//! Replays patches from a store, in dependency order, into a multi-valued
//! timesheet.
pub mod event;
pub mod timesheet;

use crate::repository::event::EventState;
use crate::repository::timesheet::{
    applied, errors_view, patch_conflicts, Error as TimesheetError, PatchedTimesheet,
};
use crate::store::meta::Meta;
use crate::store::patch::{contains_ref, push_unique, Patch, PatchView};
use crate::store::Store;
use crate::PatchRef;
use vstd::prelude::*;

verus! {

/// How many patches one replay fetches at most before it gives up on the
/// rest; this bounds the work that a cycle of parents can cause.
pub const REPLAY_STEP_LIMIT: u64 = 10_000_000;

/// Why a repository operation failed; `IE` is the store's own error.
#[derive(Debug, PartialEq, Eq)]
pub enum Error<IE> {
    LoadMeta { source: IE },
    SaveMeta { source: IE },
    SavePatch { source: IE, patch: PatchRef },
    PatchNotFound { source: IE, patch: PatchRef },
    PatchAlreadyLoaded { patch: PatchRef },
    /// The patch depends on these patches, which are not applied yet; the
    /// replay defers it behind them.
    MissingParentPatches { patch: PatchRef, parents: Vec<PatchRef> },
    PatchingTimesheet { conflicts: Vec<TimesheetError>, patch: PatchRef },
    IOError { source: IE },
    /// Every parent that the patch still waits for has failed to load, so
    /// the patch never can.
    ParentsFailed { patch: PatchRef, parents: Vec<PatchRef> },
    /// The store answered a request for one patch with another.
    PatchRefMismatch { requested: PatchRef, found: PatchRef },
    /// The replay reached its step limit with these references still queued.
    ReplayLimitReached { pending: Vec<PatchRef> },
}

/// The references of a list of patches, in order.
pub open spec fn ids_of(ps: Seq<PatchView>) -> Seq<PatchRef> {
    ps.map_values(|p: PatchView| p.id)
}

/// The events that applying `ps` in order to an empty timesheet yields.
pub open spec fn replay(ps: Seq<PatchView>) -> Map<Seq<char>, EventState>
    decreases ps.len(),
{
    if ps.len() == 0 {
        Map::empty()
    } else {
        applied(replay(ps.drop_last()), ps.last())
    }
}

/// Every patch of `ps` applied without conflict on top of the ones before
/// it, after all of its parents, and once.
pub open spec fn causal_history(ps: Seq<PatchView>) -> bool {
    &&& ids_of(ps).no_duplicates()
    &&& forall|i: int|
        0 <= i < ps.len() ==> patch_conflicts(replay(ps.take(i)), #[trigger] ps[i]).len() == 0
    &&& forall|i: int, r: PatchRef|
        0 <= i < ps.len() && #[trigger] ps[i].parents().contains(r) ==> ids_of(
            ps.take(i),
        ).contains(r)
}

/// Every reference of `q` before `head` is loaded or still queued at or
/// after `head`.
#[verifier::opaque]
pub open spec fn settled(loaded: Seq<PatchRef>, q: Seq<PatchRef>, head: int) -> bool {
    forall|j: int|
        0 <= j < head ==> loaded.contains(#[trigger] q[j]) || q.subrange(head, q.len() as int).contains(
            q[j],
        )
}

proof fn lemma_settled_step(
    loaded: Seq<PatchRef>,
    loaded2: Seq<PatchRef>,
    q: Seq<PatchRef>,
    q2: Seq<PatchRef>,
    head: int,
)
    requires
        settled(loaded, q, head),
        0 <= head < q.len(),
        q.is_prefix_of(q2),
        forall|x: PatchRef| loaded.contains(x) ==> loaded2.contains(x),
        loaded2.contains(q[head]) || q2.subrange(head + 1, q2.len() as int).contains(q[head]),
    ensures
        settled(loaded2, q2, head + 1),
{
    reveal(settled);
    assert forall|j: int| 0 <= j < head + 1 implies loaded2.contains(#[trigger] q2[j])
        || q2.subrange(head + 1, q2.len() as int).contains(q2[j]) by {
        assert(q2[j] == q[j]);
        if j < head && !loaded.contains(q[j]) {
            let m = choose|m: int|
                0 <= m < q.subrange(head, q.len() as int).len() && q.subrange(
                    head,
                    q.len() as int,
                )[m] == q[j];
            if m > 0 {
                assert(q2.subrange(head + 1, q2.len() as int)[m - 1] == q[j]);
            }
        }
    }
}

/// Every reference of `refs` is in `v`.
fn all_contained(v: &Vec<PatchRef>, refs: &Vec<PatchRef>) -> (r: bool)
    ensures
        r == forall|i: int| 0 <= i < refs@.len() ==> v@.contains(#[trigger] refs@[i]),
{
    let mut i: usize = 0;
    while i < refs.len()
        invariant
            0 <= i <= refs.len(),
            forall|j: int| 0 <= j < i ==> v@.contains(#[trigger] refs@[j]),
        decreases refs.len() - i,
    {
        if !contains_ref(v, refs[i]) {
            return false;
        }
        i += 1;
    }
    true
}

/// The references of a list of frontiers, one frontier after the other.
pub open spec fn frontier_refs(ms: Seq<Meta>) -> Seq<PatchRef>
    decreases ms.len(),
{
    if ms.len() == 0 {
        Seq::empty()
    } else {
        frontier_refs(ms.drop_last()) + ms.last().refs()
    }
}

/// The errors that a replay reports.
pub open spec fn replay_error<IE>(e: Error<IE>) -> bool {
    ||| e is PatchNotFound
    ||| e is PatchRefMismatch
    ||| e is PatchingTimesheet
    ||| e is ParentsFailed
    ||| e is ReplayLimitReached
}

/// What a replay does next.
#[derive(Debug, Clone, Copy, PartialEq, Eq, Structural)]
pub enum Next {
    /// Nothing is left to do.
    Done,
    /// The reference is applied or given up already.
    Skip(PatchRef),
    /// The reference is to be fetched from the store.
    Fetch(PatchRef),
}

/// The work list of one replay: the queue of references with the position
/// of the next one, the references given up, the errors so far, and the
/// steps left.
#[derive(Debug)]
pub struct Replay<E> {
    queue: Vec<PatchRef>,
    head: usize,
    errored: Vec<PatchRef>,
    errors: Vec<Error<E>>,
    steps_left: u64,
}

impl<E> Replay<E> {
    /// Every reference ever queued, in order.
    pub closed spec fn spec_queue(&self) -> Seq<PatchRef> {
        self.queue@
    }

    /// The position of the next reference in the queue.
    pub closed spec fn spec_head(&self) -> int {
        self.head as int
    }

    pub closed spec fn spec_errored(&self) -> Seq<PatchRef> {
        self.errored@
    }

    pub closed spec fn spec_errors(&self) -> Seq<Error<E>> {
        self.errors@
    }

    pub closed spec fn spec_steps(&self) -> u64 {
        self.steps_left
    }

    /// The position lies in the queue, a given-up reference is held once,
    /// a given-up reference comes with an error, and every error is one that
    /// a replay reports.
    pub closed spec fn wf(&self) -> bool {
        &&& self.head <= self.queue@.len()
        &&& self.errored@.no_duplicates()
        &&& self.errored@.len() > 0 ==> self.errors@.len() > 0
        &&& forall|i: int| 0 <= i < self.errors@.len() ==> replay_error(#[trigger] self.errors@[i])
    }

    pub fn new(refs: Vec<PatchRef>, max_steps: u64) -> (r: Replay<E>)
        ensures
            r.wf(),
            r.spec_queue() == refs@,
            r.spec_head() == 0,
            r.spec_errored().len() == 0,
            r.spec_errors().len() == 0,
            r.spec_steps() == max_steps,
    {
        Replay { queue: refs, head: 0, errored: Vec::new(), errors: Vec::new(), steps_left: max_steps }
    }

    /// `Ok` where no error was found, else the errors.
    pub fn into_result(self) -> (r: Result<(), Vec<Error<E>>>)
        ensures
            match r {
                Ok(()) => self.spec_errors().len() == 0,
                Err(errors) => errors@ == self.spec_errors() && errors@.len() > 0,
            },
    {
        if self.errors.len() > 0 {
            Err(self.errors)
        } else {
            Ok(())
        }
    }
}

/// What handling the fetched result `fetched` for reference `r` does:
/// to the repository (`before` to `after`) and to the work list (`st0`
/// to `st1`).
#[verifier::opaque]
pub open spec fn fetched_by<S: Store>(
    before: Repository<S>,
    after: Repository<S>,
    st0: Replay<S::Error>,
    st1: Replay<S::Error>,
    r: PatchRef,
    fetched: Result<Patch, S::Error>,
) -> bool {
    let given_up = st1.spec_errored().to_set() == st0.spec_errored().to_set().insert(r);
    let one_error = st1.spec_errors().drop_last() == st0.spec_errors()
        && st1.spec_errors().len() == st0.spec_errors().len() + 1;
    &&& after.spec_store() == before.spec_store()
    &&& st1.spec_head() == st0.spec_head()
    &&& st1.spec_steps() == st0.spec_steps()
    &&& match fetched {
        Err(source) => {
            &&& after.history() == before.history()
            &&& st1.spec_queue() == st0.spec_queue()
            &&& given_up
            &&& st1.spec_errors() == st0.spec_errors().push(
                Error::PatchNotFound { source, patch: r },
            )
        },
        Ok(p) => {
            let missing = p@.parents().difference(ids_of(before.history()).to_set());
            let waiting = missing.difference(st0.spec_errored().to_set());
            let conflicts = patch_conflicts(replay(before.history()), p@);
            if p.id != r {
                &&& after.history() == before.history()
                &&& st1.spec_queue() == st0.spec_queue()
                &&& given_up
                &&& st1.spec_errors() == st0.spec_errors().push(
                    Error::PatchRefMismatch { requested: r, found: p.id },
                )
            } else if missing.is_empty() && conflicts.len() == 0 {
                &&& after.history() == before.history().push(p@)
                &&& st1 == st0
            } else if missing.is_empty() {
                &&& after.history() == before.history()
                &&& st1.spec_queue() == st0.spec_queue()
                &&& given_up
                &&& one_error
                &&& match st1.spec_errors().last() {
                    Error::PatchingTimesheet { conflicts: found, patch } => patch == r
                        && errors_view(found@) == conflicts,
                    _ => false,
                }
            } else if waiting.is_empty() {
                &&& after.history() == before.history()
                &&& st1.spec_queue() == st0.spec_queue()
                &&& given_up
                &&& one_error
                &&& match st1.spec_errors().last() {
                    Error::ParentsFailed { patch, parents } => patch == r
                        && parents@.to_set() == missing,
                    _ => false,
                }
            } else {
                let added = st1.spec_queue().subrange(
                    st0.spec_queue().len() as int,
                    st1.spec_queue().len() as int,
                );
                &&& after.history() == before.history()
                &&& st0.spec_queue().is_prefix_of(st1.spec_queue())
                &&& added.len() > 0
                &&& added.last() == r
                &&& added.drop_last().to_set() == waiting
                &&& st1.spec_errored() == st0.spec_errored()
                &&& st1.spec_errors() == st0.spec_errors()
            }
        },
    }
}

/// A store, the patches replayed from it, and the timesheet they built.
pub struct Repository<S> {
    store: S,
    patches_loaded: Vec<PatchRef>,
    timesheet: PatchedTimesheet,
    history: Ghost<Seq<PatchView>>,
}

impl<S: Store> Repository<S> {
    /// The patches applied so far, in the order they were applied.
    pub closed spec fn history(&self) -> Seq<PatchView> {
        self.history@
    }

    /// The underlying store.
    pub closed spec fn spec_store(&self) -> S {
        self.store
    }

    /// The references of the applied patches.
    pub closed spec fn loaded(&self) -> Seq<PatchRef> {
        self.patches_loaded@
    }

    pub closed spec fn wf(&self) -> bool {
        &&& self.patches_loaded@ == ids_of(self.history@)
        &&& self.timesheet.wf()
        &&& self.timesheet@ == replay(self.history@)
        &&& causal_history(self.history@)
    }

    /// What a well-formed repository guarantees of its history.
    pub proof fn lemma_history(&self)
        requires
            self.wf(),
        ensures
            causal_history(self.history()),
            self.loaded() == ids_of(self.history()),
    {
    }

    /// A repository that has applied nothing yet.
    fn empty(store: S) -> (r: Self)
        ensures
            r.wf(),
            r.history().len() == 0,
            r.spec_store() == store,
    {
        let r = Repository {
            store,
            patches_loaded: Vec::new(),
            timesheet: PatchedTimesheet::new(),
            history: Ghost(Seq::empty()),
        };
        assert(ids_of(Seq::<PatchView>::empty()) =~= Seq::empty());
        r
    }

    /// Opens the store and replays every patch that its frontier depends on:
    /// fails with the one `LoadMeta` error where the frontier cannot be
    /// read, and otherwise does what `from_meta` does with it.
    pub fn from_store(store: S) -> (r: Result<Self, Vec<Error<S::Error>>>)
        ensures
            match r {
                Ok(repo) => repo.wf() && repo.spec_store() == store,
                Err(errors) => errors@.len() > 0 && ((errors@.len() == 1 && errors@[0] is LoadMeta)
                    || forall|i: int| 0 <= i < errors@.len() ==> replay_error(#[trigger] errors@[i])),
            },
    {
        match store.get_meta() {
            Ok(meta) => Self::from_meta(store, meta),
            Err(source) => {
                let mut errors = Vec::new();
                errors.push(Error::LoadMeta { source });
                Err(errors)
            },
        }
    }

    /// A repository over `store` that has replayed every patch of the
    /// frontier `meta`, and what they depend on: succeeds only where every
    /// reference of `meta` was applied, and always where `meta` is empty.
    pub fn from_meta(store: S, meta: Meta) -> (r: Result<Self, Vec<Error<S::Error>>>)
        ensures
            match r {
                Ok(repo) => {
                    &&& repo.wf()
                    &&& repo.spec_store() == store
                    &&& forall|x: PatchRef| meta@.contains(x) ==> repo.loaded().contains(x)
                },
                Err(errors) => errors@.len() > 0 && forall|i: int|
                    0 <= i < errors@.len() ==> replay_error(#[trigger] errors@[i]),
            },
            meta@.is_empty() ==> r is Ok,
    {
        let mut repo = Self::empty(store);
        let refs = meta.into_patches();
        let ghost rv = refs@;
        proof {
            if meta@.is_empty() && rv.len() > 0 {
                assert(rv.to_set().contains(rv[0]));
            }
        }
        match repo.load_patches(refs, REPLAY_STEP_LIMIT) {
            Ok(()) => {
                proof {
                    assert forall|x: PatchRef| meta@.contains(x) implies repo.loaded().contains(x) by {
                        let i = choose|i: int| 0 <= i < rv.len() && rv[i] == x;
                    }
                }
                Ok(repo)
            },
            Err(errors) => Err(errors),
        }
    }

    /// The multi-valued timesheet built so far.
    pub fn timesheet(&self) -> (r: &PatchedTimesheet)
        requires
            self.wf(),
        ensures
            r.wf(),
            r@ == replay(self.history()),
    {
        &self.timesheet
    }

    /// Applies one patch whose parents are all applied already; refuses a
    /// patch applied before, one with parents not applied yet, and one that
    /// conflicts with the timesheet, and then changes nothing.
    pub fn load_patch(&mut self, patch: Patch) -> (r: Result<(), Error<S::Error>>)
        requires
            old(self).wf(),
        ensures
            final(self).wf(),
            Self::loaded_by(*old(self), *final(self), patch@, r),
    {
        self.load(&patch)
    }

    /// What loading `p` into `before` does: `after` and the result `r`.
    pub open spec fn loaded_by(
        before: Self,
        after: Self,
        p: PatchView,
        r: Result<(), Error<S::Error>>,
    ) -> bool {
        let loaded = ids_of(before.history()).contains(p.id);
        let missing = p.parents().difference(ids_of(before.history()).to_set());
        let conflicts = patch_conflicts(replay(before.history()), p);
        &&& after.spec_store() == before.spec_store()
        &&& match r {
            Ok(()) => {
                &&& !loaded
                &&& missing.is_empty()
                &&& conflicts.len() == 0
                &&& after.history() == before.history().push(p)
            },
            Err(Error::PatchAlreadyLoaded { patch }) => {
                &&& loaded
                &&& patch == p.id
                &&& after.history() == before.history()
            },
            Err(Error::MissingParentPatches { patch, parents }) => {
                &&& !loaded
                &&& patch == p.id
                &&& !missing.is_empty()
                &&& parents@.no_duplicates()
                &&& parents@.to_set() == missing
                &&& after.history() == before.history()
            },
            Err(Error::PatchingTimesheet { conflicts: found, patch }) => {
                &&& !loaded
                &&& missing.is_empty()
                &&& patch == p.id
                &&& errors_view(found@) == conflicts
                &&& conflicts.len() > 0
                &&& after.history() == before.history()
            },
            Err(_) => false,
        }
    }

    #[verifier::rlimit(60)]
    #[verifier::spinoff_prover]
    fn load(&mut self, patch: &Patch) -> (r: Result<(), Error<S::Error>>)
        requires
            old(self).wf(),
        ensures
            final(self).wf(),
            Self::loaded_by(*old(self), *final(self), patch@, r),
    {
        let ghost h = self.history@;
        let id = patch.id;
        if contains_ref(&self.patches_loaded, id) {
            return Err(Error::PatchAlreadyLoaded { patch: id });
        }
        let parents = patch.parents();
        let mut missing: Vec<PatchRef> = Vec::new();
        let mut i: usize = 0;
        while i < parents.len()
            invariant
                0 <= i <= parents.len(),
                self.patches_loaded@ == ids_of(h),
                parents@.no_duplicates(),
                missing@.no_duplicates(),
                missing@.to_set() == parents@.take(i as int).to_set().difference(ids_of(h).to_set()),
            decreases parents.len() - i,
        {
            let x = parents[i];
            proof {
                assert(parents@.take(i + 1) == parents@.take(i as int).push(x));
                event::lemma_push_to_set(parents@.take(i as int), x);
            }
            if !contains_ref(&self.patches_loaded, x) {
                proof {
                    assert(!missing@.contains(x)) by {
                        if missing@.contains(x) {
                            assert(missing@.to_set().contains(x));
                            let j = choose|j: int| 0 <= j < i && parents@.take(i as int)[j] == x;
                            assert(parents@[j] == parents@[i as int]);
                        }
                    }
                    event::lemma_push_to_set(missing@, x);
                    event::lemma_push_no_dup(missing@, x);
                }
                missing.push(x);
            }
            assert(missing@.to_set() =~= parents@.take(i + 1).to_set().difference(ids_of(h).to_set()));
            i += 1;
        }
        assert(parents@.take(parents.len() as int) == parents@);
        if missing.len() > 0 {
            proof {
                assert(missing@.to_set().contains(missing@[0]));
            }
            return Err(Error::MissingParentPatches { patch: id, parents: missing });
        }
        proof {
            if !(patch@.parents().difference(ids_of(h).to_set()) =~= Set::empty()) {
                let x = patch@.parents().difference(ids_of(h).to_set()).choose();
                assert(missing@.to_set().contains(x));
            }
        }
        match self.timesheet.apply_patch(patch) {
            Ok(()) => {
                self.patches_loaded.push(id);
                proof {
                    let nh = h.push(patch@);
                    self.history@ = nh;
                    assert(nh.drop_last() == h);
                    assert(ids_of(nh) =~= ids_of(h).push(id));
                    event::lemma_push_no_dup(ids_of(h), id);
                    assert forall|i: int| 0 <= i < nh.len() implies patch_conflicts(
                        replay(nh.take(i)),
                        #[trigger] nh[i],
                    ).len() == 0 by {
                        if i < h.len() {
                            assert(nh.take(i) == h.take(i));
                            assert(nh[i] == h[i]);
                        } else {
                            assert(nh.take(i) == h);
                        }
                    }
                    assert forall|i: int, r: PatchRef|
                        0 <= i < nh.len() && #[trigger] nh[i].parents().contains(r) implies ids_of(
                        nh.take(i),
                    ).contains(r) by {
                        if i < h.len() {
                            assert(nh.take(i) == h.take(i));
                            assert(nh[i] == h[i]);
                        } else {
                            assert(nh.take(i) == h);
                            assert(!patch@.parents().difference(ids_of(h).to_set()).contains(r));
                        }
                    }
                }
                Ok(())
            },
            Err(conflicts) => Err(Error::PatchingTimesheet { conflicts, patch: id }),
        }
    }

    /// Takes the next reference off the queue. Gives `Done` where the queue
    /// is empty, and also where the step budget is spent, after recording
    /// the references still queued as a `ReplayLimitReached` error.
    /// Otherwise the reference costs one step, and is fetched unless it is
    /// applied already or given up.
    pub fn next_ref(&self, st: &mut Replay<S::Error>) -> (r: Next)
        requires
            old(st).wf(),
        ensures
            final(st).wf(),
            final(st).spec_queue() == old(st).spec_queue(),
            final(st).spec_errored() == old(st).spec_errored(),
            Self::next_step(self.loaded(), *old(st), *final(st), r),
    {
        let ghost q = st.queue@;
        if st.head >= st.queue.len() {
            return Next::Done;
        }
        if st.steps_left == 0 {
            let mut pending: Vec<PatchRef> = Vec::new();
            let h = st.head;
            while st.head < st.queue.len()
                invariant
                    h <= st.head <= st.queue.len(),
                    st.queue@ == q,
                    st.errored == old(st).errored,
                    st.errors == old(st).errors,
                    st.steps_left == 0,
                    old(st).wf(),
                    pending@ == q.subrange(h as int, st.head as int),
                decreases st.queue.len() - st.head,
            {
                pending.push(st.queue[st.head]);
                st.head += 1;
                assert(pending@ =~= q.subrange(h as int, st.head as int));
            }
            st.errors.push(Error::ReplayLimitReached { pending });
            assert(st.errors@.drop_last() =~= old(st).errors@);
            return Next::Done;
        }
        let r = st.queue[st.head];
        st.head += 1;
        st.steps_left -= 1;
        if contains_ref(&self.patches_loaded, r) || contains_ref(&st.errored, r) {
            Next::Skip(r)
        } else {
            Next::Fetch(r)
        }
    }

    /// What `next_ref` does to the work list `st0`, given the applied
    /// references `loaded`.
    pub open spec fn next_step(
        loaded: Seq<PatchRef>,
        st0: Replay<S::Error>,
        st1: Replay<S::Error>,
        r: Next,
    ) -> bool {
        let q = st0.spec_queue();
        let h = st0.spec_head();
        if h >= q.len() {
            r == Next::Done && st1 == st0
        } else if st0.spec_steps() == 0 {
            &&& r == Next::Done
            &&& st1.spec_head() == q.len()
            &&& st1.spec_steps() == 0
            &&& st1.spec_errors().drop_last() == st0.spec_errors()
            &&& st1.spec_errors().len() == st0.spec_errors().len() + 1
            &&& match st1.spec_errors().last() {
                Error::ReplayLimitReached { pending } => pending@ == q.subrange(h, q.len() as int),
                _ => false,
            }
        } else {
            &&& st1.spec_head() == h + 1
            &&& st1.spec_steps() == st0.spec_steps() - 1
            &&& st1.spec_errors() == st0.spec_errors()
            &&& r == if loaded.contains(q[h]) || st0.spec_errored().contains(q[h]) {
                Next::Skip(q[h])
            } else {
                Next::Fetch(q[h])
            }
        }
    }

    /// Handles what the store gave for reference `r`: applies the patch, or
    /// defers it behind those of its parents that have not failed, or gives
    /// `r` up with the error that says why.
    #[verifier::rlimit(60)]
    #[verifier::spinoff_prover]
    pub fn on_fetched(
        &mut self,
        r: PatchRef,
        fetched: Result<Patch, S::Error>,
        st: &mut Replay<S::Error>,
    )
        requires
            old(self).wf(),
            old(st).wf(),
            !old(self).loaded().contains(r),
            !old(st).spec_errored().contains(r),
        ensures
            final(self).wf(),
            final(st).wf(),
            old(self).history().is_prefix_of(final(self).history()),
            forall|x: PatchRef| old(self).loaded().contains(x) ==> final(self).loaded().contains(x),
            old(st).spec_queue().is_prefix_of(final(st).spec_queue()),
            final(st).spec_errors().len() >= old(st).spec_errors().len(),
            final(st).spec_head() == old(st).spec_head(),
            final(st).spec_steps() == old(st).spec_steps(),
            final(self).spec_store() == old(self).spec_store(),
            final(st).spec_errors().len() > 0 || final(self).loaded().contains(r) || (final(st).spec_queue().len() > old(st).spec_queue().len() && final(st).spec_queue().last()
                == r),
            fetched_by(*old(self), *final(self), *old(st), *final(st), r, fetched),
    {
        let ghost h = self.history@;
        let ghost l = self.patches_loaded@;
        let ghost st0 = *st;
        let ghost self0 = *self;
        let ghost fv = fetched;
        proof {
            reveal(fetched_by);
        }
        match fetched {
            Err(source) => {
                st.errors.push(Error::PatchNotFound { source, patch: r });
                assert(st.errors@.drop_last() =~= st0.errors@);
                push_unique(&mut st.errored, r);
                proof {
                    assert(st.queue@.take(st0.queue@.len() as int) =~= st0.queue@);
                    assert(fetched_by(self0, *self, st0, *st, r, fv));
                }
            },
            Ok(patch) => {
                if patch.id != r {
                    st.errors.push(Error::PatchRefMismatch { requested: r, found: patch.id });
                assert(st.errors@.drop_last() =~= st0.errors@);
                    push_unique(&mut st.errored, r);
                    proof {
                        assert(st.queue@.take(st0.queue@.len() as int) =~= st0.queue@);
                        assert(fetched_by(self0, *self, st0, *st, r, fv));
                    }
                } else {
                    let ghost pv = patch@;
                    match self.load(&patch) {
                        Ok(()) => {
                            proof {
                                assert(ids_of(self.history@) =~= ids_of(h).push(r));
                                assert(self.patches_loaded@[l.len() as int] == r);
                                assert forall|x: PatchRef| l.contains(x) implies self.patches_loaded@.contains(x) by {
                                    let j = choose|j: int| 0 <= j < l.len() && l[j] == x;
                                    assert(self.patches_loaded@[j] == x);
                                }
                                assert(self.history@.take(h.len() as int) =~= h);
                                assert(st.queue@.take(st0.queue@.len() as int) =~= st0.queue@);
                                assert(fetched_by(self0, *self, st0, *st, r, fv));
                            }
                        },
                        Err(Error::MissingParentPatches { patch: _, parents }) => {
                            let ghost missing = pv.parents().difference(ids_of(h).to_set());
                            let ghost failed = st.errored@.to_set();
                            let mut requeued = false;
                            let mut i: usize = 0;
                            while i < parents.len()
                                invariant
                                    0 <= i <= parents.len(),
                                    parents@.to_set() == missing,
                                    st.errored == st0.errored,
                                    st.errors == st0.errors,
                                    st.head == st0.head,
                                    st.steps_left == st0.steps_left,
                                    failed == st0.errored@.to_set(),
                                    st0.queue@.is_prefix_of(st.queue@),
                                    st.queue@.subrange(st0.queue@.len() as int, st.queue@.len() as int).to_set()
                                        == parents@.take(i as int).to_set().difference(failed),
                                    requeued == (st.queue@.len() > st0.queue@.len()),
                                decreases parents.len() - i,
                            {
                                let x = parents[i];
                                let ghost before = st.queue@;
                                proof {
                                    assert(parents@.take(i + 1) == parents@.take(i as int).push(x));
                                    event::lemma_push_to_set(parents@.take(i as int), x);
                                }
                                if !contains_ref(&st.errored, x) {
                                    st.queue.push(x);
                                    requeued = true;
                                    proof {
                                        let o = before.subrange(st0.queue@.len() as int, before.len() as int);
                                        assert(st.queue@.subrange(st0.queue@.len() as int, st.queue@.len() as int) =~= o.push(x));
                                        event::lemma_push_to_set(o, x);
                                        assert(st.queue@.take(st0.queue@.len() as int) =~= before.take(st0.queue@.len() as int));
                                    }
                                }
                                assert(st.queue@.subrange(st0.queue@.len() as int, st.queue@.len() as int).to_set()
                                    =~= parents@.take(i + 1).to_set().difference(failed));
                                i += 1;
                            }
                            assert(parents@.take(parents.len() as int) == parents@);
                            assert(missing.difference(failed) == pv.parents().difference(ids_of(h).to_set()).difference(st0.errored@.to_set()));
                            if requeued {
                                let ghost q1 = st.queue@;
                                st.queue.push(r);
                                proof {
                                    let n0 = st0.queue@.len() as int;
                                    assert(st.queue@.subrange(n0, st.queue@.len() as int).drop_last()
                                        =~= q1.subrange(n0, q1.len() as int));
                                    assert(st.queue@.take(n0) =~= q1.take(n0));
                                    assert(q1.len() > n0);
                                    let x = q1[n0];
                                    assert(q1.subrange(n0, q1.len() as int)[0] == x);
                                    assert(q1.subrange(n0, q1.len() as int).to_set().contains(x));
                                    assert(missing.difference(failed).contains(x));
                                    assert(!missing.difference(failed).is_empty());
                                    assert(!missing.is_empty());
                                    assert(st0.queue@.is_prefix_of(st.queue@));
                                    assert(fetched_by(self0, *self, st0, *st, r, fv));
                                }
                            } else {
                                proof {
                                    let n0 = st0.queue@.len() as int;
                                    assert(st.queue@ =~= st0.queue@);
                                    assert(missing.difference(failed) =~= Set::empty()) by {
                                        assert(st.queue@.subrange(n0, n0) =~= Seq::empty());
                                        assert(Seq::<PatchRef>::empty().to_set() =~= Set::empty());
                                    }
                                }
                                st.errors.push(Error::ParentsFailed { patch: r, parents });
                                assert(st.errors@.drop_last() =~= st0.errors@);
                                push_unique(&mut st.errored, r);
                                assert(fetched_by(self0, *self, st0, *st, r, fv));
                            }
                        },
                        Err(e) => {
                            st.errors.push(e);
                            assert(st.errors@.drop_last() =~= st0.errors@);
                            push_unique(&mut st.errored, r);
                            proof {
                                assert(st.queue@.take(st0.queue@.len() as int) =~= st0.queue@);
                                assert(fetched_by(self0, *self, st0, *st, r, fv));
                            }
                        },
                    }
                }
            },
        }
    }

    /// Replays the patches `refs` and, first, whatever they depend on: a
    /// patch whose parents are not applied yet goes back to the end of the
    /// queue behind them. A reference whose patch cannot be fetched or
    /// applied is given up, with its error, and never tried again; so is
    /// every patch that waits only for given-up parents. At most `max_steps`
    /// references are taken from the queue. Which reference is fetched next
    /// is `next_ref`'s to say, and what happens to what came back is
    /// `on_fetched`'s.
    #[verifier::rlimit(100)]
    #[verifier::spinoff_prover]
    pub fn load_patches(&mut self, refs: Vec<PatchRef>, max_steps: u64) -> (r: Result<
        (),
        Vec<Error<S::Error>>,
    >)
        requires
            old(self).wf(),
        ensures
            final(self).wf(),
            Self::replayed(*old(self), *final(self), refs@, max_steps, r),
    {
        let ghost h0 = self.history@;
        let ghost refs0 = refs@;
        let all = all_contained(&self.patches_loaded, &refs);
        if all && (refs.len() as u128) <= (max_steps as u128) {
            return Ok(());
        }
        if max_steps == 0 && !all {
            let mut errors: Vec<Error<S::Error>> = Vec::new();
            errors.push(Error::ReplayLimitReached { pending: refs });
            return Err(errors);
        }
        let mut st = Replay::new(refs, max_steps);
        let mut done = false;
        proof {
            reveal(settled);
        }
        while !done
            invariant
                self.wf(),
                st.wf(),
                self.store == old(self).store,
                h0.is_prefix_of(self.history@),
                refs0.is_prefix_of(st.queue@),
                st.errors@.len() == 0 ==> settled(self.patches_loaded@, st.queue@, st.head as int),
                done ==> st.head == st.queue.len(),
            decreases st.steps_left + if done { 0u64 } else { 1u64 },
        {
            let ghost q = st.queue@;
            let ghost hd = st.head;
            let ghost l = self.patches_loaded@;
            match self.next_ref(&mut st) {
                Next::Done => {
                    done = true;
                },
                Next::Skip(_) => {
                    proof {
                        if st.errors@.len() == 0 {
                            if !l.contains(q[hd as int]) {
                                assert(st.errored@.len() > 0) by {
                                    assert(st.errored@.contains(q[hd as int]));
                                }
                            }
                            lemma_settled_step(l, l, q, q, hd as int);
                        }
                    }
                },
                Next::Fetch(r) => {
                    let fetched = self.store.get_patch(&r);
                    self.on_fetched(r, fetched, &mut st);
                    proof {
                        assert(h0.is_prefix_of(self.history@)) by {
                            assert(self.history@.take(h0.len() as int) =~= h0);
                        }
                        assert(refs0.is_prefix_of(st.queue@)) by {
                            assert(st.queue@.take(refs0.len() as int) =~= q.take(refs0.len() as int));
                        }
                        if st.errors@.len() == 0 {
                            if !self.patches_loaded@.contains(r) {
                                let t = st.queue@.subrange(hd + 1, st.queue@.len() as int);
                                assert(t[t.len() - 1] == r);
                            }
                            lemma_settled_step(l, self.patches_loaded@, q, st.queue@, hd as int);
                        }
                    }
                },
            }
        }
        proof {
            reveal(settled);
            if st.errors@.len() == 0 {
                assert forall|i: int| 0 <= i < refs0.len() implies self.patches_loaded@.contains(
                    #[trigger] refs0[i],
                ) by {
                    assert(st.queue@[i] == refs0[i]);
                }
            }
            assert(h0.is_prefix_of(self.history()));
            assert(self.loaded() == ids_of(self.history()));
        }
        let ghost errs = st.errors@;
        let r = st.into_result();
        proof {
            if r is Err {
                assert(forall|i: int| 0 <= i < errs.len() ==> replay_error(#[trigger] errs[i]));
            }
        }
        r
    }

    /// What `load_patches` promises, whatever the store gives: the
    /// repository only grows; success means every reference of `refs` was
    /// applied; failure comes with errors, each of a kind that the replay
    /// reports; where every reference is applied already within the budget
    /// the call succeeds and changes nothing; and with no budget and a
    /// reference still to apply it fails.
    pub open spec fn replayed(
        before: Self,
        after: Self,
        refs: Seq<PatchRef>,
        max_steps: u64,
        r: Result<(), Vec<Error<S::Error>>>,
    ) -> bool {
        &&& after.spec_store() == before.spec_store()
        &&& before.history().is_prefix_of(after.history())
        &&& match r {
            Ok(()) => forall|i: int|
                0 <= i < refs.len() ==> after.loaded().contains(#[trigger] refs[i]),
            Err(errors) => errors@.len() > 0 && forall|i: int|
                0 <= i < errors@.len() ==> replay_error(#[trigger] errors@[i]),
        }
        &&& (forall|i: int| 0 <= i < refs.len() ==> before.loaded().contains(#[trigger] refs[i]))
            && refs.len() <= max_steps ==> r is Ok && after.history() == before.history()
        &&& max_steps == 0 && (exists|i: int|
            0 <= i < refs.len() && !before.loaded().contains(#[trigger] refs[i])) ==> r is Err
    }

    /// The frontier of this repository: every applied patch.
    pub fn frontier(&self) -> (r: Meta)
        requires
            self.wf(),
        ensures
            r.wf(),
            r@ == self.loaded().to_set(),
    {
        let mut meta = Meta::new();
        let mut i: usize = 0;
        while i < self.patches_loaded.len()
            invariant
                0 <= i <= self.patches_loaded.len(),
                meta.wf(),
                meta@ == self.patches_loaded@.take(i as int).to_set(),
            decreases self.patches_loaded.len() - i,
        {
            proof {
                assert(self.patches_loaded@.take(i + 1) == self.patches_loaded@.take(i as int).push(
                    self.patches_loaded@[i as int],
                ));
                event::lemma_push_to_set(
                    self.patches_loaded@.take(i as int),
                    self.patches_loaded@[i as int],
                );
            }
            meta.add_patch(self.patches_loaded[i]);
            i += 1;
        }
        assert(self.patches_loaded@.take(self.patches_loaded@.len() as int) == self.patches_loaded@);
        meta
    }

    /// Writes the frontier to the store.
    pub fn save_meta(&mut self) -> (r: Result<(), Error<S::Error>>)
        requires
            old(self).wf(),
        ensures
            final(self).wf(),
            final(self).history() == old(self).history(),
            r is Err ==> r->Err_0 is SaveMeta,
    {
        let meta = self.frontier();
        match self.store.save_meta(&meta) {
            Ok(()) => Ok(()),
            Err(source) => Err(Error::SaveMeta { source }),
        }
    }

    /// Applies a new patch, as `load_patch` does, and then adds it to the
    /// store.
    pub fn add_patch(&mut self, patch: Patch) -> (r: Result<(), Error<S::Error>>)
        requires
            old(self).wf(),
        ensures
            final(self).wf(),
            match r {
                Err(Error::SavePatch { source: _, patch: id }) => {
                    &&& id == patch@.id
                    &&& final(self).history() == old(self).history().push(patch@)
                },
                Ok(()) => final(self).history() == old(self).history().push(patch@),
                Err(_) => Self::loaded_by(*old(self), *final(self), patch@, r),
            },
    {
        match self.load(&patch) {
            Ok(()) => {},
            Err(e) => {
                return Err(e);
            },
        }
        match self.store.add_patch(&patch) {
            Ok(()) => Ok(()),
            Err(source) => Err(Error::SavePatch { source, patch: patch.id }),
        }
    }

    /// Replays every patch that the frontiers of other devices depend on:
    /// does what `load_patches` does with their references, one frontier
    /// after the other.
    pub fn try_sync_data(&mut self, metas: Vec<Meta>) -> (r: Result<(), Vec<Error<S::Error>>>)
        requires
            old(self).wf(),
        ensures
            final(self).wf(),
            Self::replayed(*old(self), *final(self), frontier_refs(metas@), REPLAY_STEP_LIMIT, r),
    {
        let mut refs: Vec<PatchRef> = Vec::new();
        let mut i: usize = 0;
        while i < metas.len()
            invariant
                0 <= i <= metas.len(),
                refs@ == frontier_refs(metas@.take(i as int)),
            decreases metas.len() - i,
        {
            let ps = metas[i].patches();
            let ghost before = refs@;
            let mut j: usize = 0;
            while j < ps.len()
                invariant
                    0 <= j <= ps.len(),
                    refs@ == before + ps@.take(j as int),
                decreases ps.len() - j,
            {
                refs.push(ps[j]);
                assert(ps@.take(j + 1) == ps@.take(j as int).push(ps@[j as int]));
                assert(refs@ =~= before + ps@.take(j + 1));
                j += 1;
            }
            assert(ps@.take(ps.len() as int) == ps@);
            assert(metas@.take(i + 1).drop_last() == metas@.take(i as int));
            i += 1;
        }
        assert(metas@.take(metas.len() as int) == metas@);
        self.load_patches(refs, REPLAY_STEP_LIMIT)
    }

}

} // verus!
