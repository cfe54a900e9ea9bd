//! A pass over the queue of models to place. The caller does what each step
//! says and comes back for the next one.
use crate::mmb_cache::{MmbLoadInFlight, MmbParseCache, MmbTexPools};
use crate::mmb_load::LoadedMmb;
use crate::mmb_request::{
    is_zone_placement, mmb_load_order_key, LoadMmbRequest, MmbLoadQueue, NO_SUB_AREA_LINK,
};
use crate::scalar::Scalar;
use crate::stable_order::{
    comes_before, is_stable_order, key_values, stable_order, stable_order_exists,
    stable_order_has_every_place, stable_order_of,
};
use crate::text::{decimal, decimal_text};
use std::collections::VecDeque;
use vstd::multiset::Multiset;
use vstd::prelude::*;

verus! {

/// The cost that one pass may spend.
pub const MMB_SPAWN_FRAME_CEILING: usize = 1024;

/// The cost of a placement whose file has no pool of textures yet. All others
/// cost one.
pub const HEAVY: usize = 8;

/// How many parse tasks may run at once.
pub const MMB_MAX_INFLIGHT: usize = 64;

/// The time that a pass may take in a session, in milliseconds.
pub const SESSION_BUDGET_MS: u64 = 160;

/// The time that a pass may take behind the launcher, in milliseconds.
pub const BACKDROP_BUDGET_MS: u64 = 14;

/// The time that a pass may take: what the setting says, where it says
/// something, and else what is usual.
pub fn frame_budget_ms(in_real_session: bool, setting: Option<u64>) -> (ms: u64)
    ensures
        ms == (match setting {
            Some(ms) => ms,
            None => if in_real_session {
                SESSION_BUDGET_MS
            } else {
                BACKDROP_BUDGET_MS
            },
        }),
        setting is None && in_real_session ==> ms == 160,
        setting is None && !in_real_session ==> ms == 14,
        setting is Some ==> Some(ms) == setting,
{
    match setting {
        Some(ms) => ms,
        None => if in_real_session {
            SESSION_BUDGET_MS
        } else {
            BACKDROP_BUDGET_MS
        },
    }
}

/// A request with the square of its distance on the ground, where there is a
/// point to measure from.
#[derive(Clone, Copy, PartialEq, Eq, Debug, Structural)]
pub struct QueuedRequest {
    pub request: LoadMmbRequest,
    pub distance_squared: Option<Scalar>,
}

impl QueuedRequest {
    /// A part of the zone that is beyond the radius.
    pub open spec fn too_far(self, load_radius_squared: Scalar) -> bool {
        self.request.zone_placement() && match self.distance_squared {
            Some(d) => d.exceeds(load_radius_squared),
            None => false,
        }
    }

    fn is_too_far(&self, load_radius_squared: Scalar) -> (b: bool)
        ensures
            b == self.too_far(load_radius_squared),
    {
        match self.distance_squared {
            Some(d) => is_zone_placement(&self.request) && d.gt(load_radius_squared),
            None => false,
        }
    }
}

/// What a step asks of the caller.
#[derive(Clone, Copy, PartialEq, Eq, Debug, Structural)]
pub enum PassAction {
    /// Place the model.
    Place(LoadMmbRequest),
    /// The model has nothing to draw. It is worth a message where it was asked
    /// for by hand.
    NothingToDraw { request: LoadMmbRequest, announce: bool },
    /// The model could not be loaded. It is worth a message.
    LoadFailed(LoadMmbRequest),
    /// Start to parse the chunk. The request waits.
    StartParse(LoadMmbRequest),
    /// The request waits.
    Wait(LoadMmbRequest),
    /// The pass is over.
    Finished,
}

impl PassAction {
    /// The request is done with, and leaves the queue.
    pub open spec fn consumes(self) -> bool {
        self is Place || self is NothingToDraw || self is LoadFailed
    }
}

/// What is left of a pass: the requests to come, those that stay in the queue,
/// the cost so far, and whether it stopped for want of budget.
#[verifier::ext_equal]
pub struct PassState {
    pub todo: Seq<QueuedRequest>,
    pub retained: Seq<LoadMmbRequest>,
    pub spawned: int,
    pub budget_deferred: bool,
}

/// The requests of a list.
pub open spec fn requests_of(todo: Seq<QueuedRequest>) -> Seq<LoadMmbRequest> {
    todo.map_values(|q: QueuedRequest| q.request)
}

impl PassState {
    /// The queue as it would be if the pass stopped here.
    pub open spec fn queue(self) -> Seq<LoadMmbRequest> {
        self.retained + requests_of(self.todo)
    }

    /// The pass stops, and what is left stays in the queue.
    pub open spec fn stopped(self, budget_deferred: bool) -> PassState {
        PassState {
            todo: Seq::empty(),
            retained: self.queue(),
            spawned: self.spawned,
            budget_deferred: self.budget_deferred || budget_deferred,
        }
    }

    /// The first request to come is done with, at a cost.
    pub open spec fn consumed(self, cost: int) -> PassState {
        PassState { todo: self.todo.drop_first(), spawned: self.spawned + cost, ..self }
    }

    /// The first request to come stays in the queue.
    pub open spec fn kept(self) -> PassState {
        PassState {
            todo: self.todo.drop_first(),
            retained: self.retained.push(self.todo[0].request),
            ..self
        }
    }
}

/// The cost of a placement.
pub open spec fn placement_cost(pool_exists: bool) -> int {
    if pool_exists {
        1
    } else {
        HEAVY as int
    }
}

/// The budget does not allow another placement: one was made, and the time is
/// over or the cost would pass the ceiling.
pub open spec fn over_budget(spawned: int, cost: int, time_over: bool) -> bool {
    spawned > 0 && (time_over || spawned + cost > MMB_SPAWN_FRAME_CEILING)
}

/// One step of a pass, by what is known of the next request: the parse result
/// of its chunk, if there is one, and whether its file has a pool, its chunk
/// may be given to a task, and the time is over.
pub open spec fn pass_step(
    s: PassState,
    load_radius_squared: Scalar,
    parsed: Option<Option<LoadedMmb>>,
    pool_exists: bool,
    may_start: bool,
    time_over: bool,
) -> (PassState, PassAction) {
    if s.todo.len() == 0 {
        (s, PassAction::Finished)
    } else {
        let request = s.todo[0].request;
        if s.todo[0].too_far(load_radius_squared) {
            (s.stopped(false), PassAction::Finished)
        } else {
            match parsed {
                Some(Some(model)) => if model.submeshes@.len() == 0 {
                    (
                        s.consumed(0),
                        PassAction::NothingToDraw {
                            request,
                            announce: request.world_transform is None,
                        },
                    )
                } else if over_budget(s.spawned, placement_cost(pool_exists), time_over) {
                    (s.stopped(true), PassAction::Finished)
                } else {
                    (s.consumed(placement_cost(pool_exists)), PassAction::Place(request))
                },
                Some(None) => (s.consumed(0), PassAction::LoadFailed(request)),
                None => (
                    s.kept(),
                    if may_start {
                        PassAction::StartParse(request)
                    } else {
                        PassAction::Wait(request)
                    },
                ),
            }
        }
    }
}

/// What a step does. A pass with nothing to come is over. It also ends at a part of
/// the zone beyond the radius, and all that is left stays in the queue. A request
/// whose chunk failed to load, or holds nothing to draw, is done with at no cost;
/// the latter is announced where there is no transform. A loaded model is placed
/// at a cost of one, or of eight where its file has no pool yet. Where one was
/// placed before, and the time is over or the cost would pass 1024, the pass ends
/// for want of budget instead and all that is left stays. A request without a
/// parse result stays in the queue, and its parse is started where it may be.
pub proof fn what_a_step_does(
    s: PassState,
    radius: Scalar,
    parsed: Option<Option<LoadedMmb>>,
    pool_exists: bool,
    may_start: bool,
    time_over: bool,
)
    ensures
        ({
            let (next, action) = pass_step(s, radius, parsed, pool_exists, may_start, time_over);
            let q = s.todo[0];
            let far = q.request.entity_id is None && q.request.world_transform is Some && (
            q.distance_squared matches Some(d) && !d.nan() && !radius.nan() && d.ordinal()
                > radius.ordinal());
            let cost: int = if pool_exists {
                1
            } else {
                8
            };
            let deferred = s.spawned > 0 && (time_over || s.spawned + cost > 1024);
            let rest = s.todo.subrange(1, s.todo.len() as int);
            let all = s.retained + Seq::new(s.todo.len(), |i: int| s.todo[i].request);
            &&& s.todo.len() == 0 ==> next == s && action is Finished
            &&& s.todo.len() > 0 && far ==> {
                &&& action is Finished
                &&& next.todo.len() == 0
                &&& next.retained == all
                &&& next.spawned == s.spawned
                &&& next.budget_deferred == s.budget_deferred
            }
            &&& s.todo.len() > 0 && !far ==> match parsed {
                None => {
                    &&& may_start ==> action == PassAction::StartParse(q.request)
                    &&& !may_start ==> action == PassAction::Wait(q.request)
                    &&& next.todo == rest
                    &&& next.retained == s.retained.push(q.request)
                    &&& next.spawned == s.spawned
                    &&& next.budget_deferred == s.budget_deferred
                },
                Some(None) => {
                    &&& action == PassAction::LoadFailed(q.request)
                    &&& next.todo == rest
                    &&& next.retained == s.retained
                    &&& next.spawned == s.spawned
                    &&& next.budget_deferred == s.budget_deferred
                },
                Some(Some(model)) => {
                    &&& model.submeshes@.len() == 0 ==> {
                        &&& action matches PassAction::NothingToDraw { request, announce }
                            && request == q.request && (announce
                            <==> q.request.world_transform is None)
                        &&& next.todo == rest
                        &&& next.retained == s.retained
                        &&& next.spawned == s.spawned
                        &&& next.budget_deferred == s.budget_deferred
                    }
                    &&& model.submeshes@.len() > 0 && !deferred ==> {
                        &&& action == PassAction::Place(q.request)
                        &&& next.todo == rest
                        &&& next.retained == s.retained
                        &&& next.spawned == s.spawned + cost
                        &&& next.budget_deferred == s.budget_deferred
                    }
                    &&& model.submeshes@.len() > 0 && deferred ==> {
                        &&& action is Finished
                        &&& next.todo.len() == 0
                        &&& next.retained == all
                        &&& next.spawned == s.spawned
                        &&& next.budget_deferred
                    }
                },
            }
        }),
{
    let all = s.retained + Seq::new(s.todo.len(), |i: int| s.todo[i].request);
    assert(s.queue() =~= all);
    if s.todo.len() > 0 {
        assert(s.todo.drop_first() =~= s.todo.subrange(1, s.todo.len() as int));
    }
}

/// A step asks for a placement, or is done with a request, only by taking the
/// first one to come out of the queue. In all other cases the queue stays as it
/// is, in the same order.
pub proof fn steps_lose_and_reorder_nothing(
    s: PassState,
    radius: Scalar,
    parsed: Option<Option<LoadedMmb>>,
    pool_exists: bool,
    may_start: bool,
    time_over: bool,
)
    ensures
        ({
            let (next, action) = pass_step(s, radius, parsed, pool_exists, may_start, time_over);
            &&& !action.consumes() ==> next.queue() == s.queue()
            &&& action.consumes() ==> s.todo.len() > 0 && next.queue() == s.queue().remove(
                s.retained.len() as int,
            )
        }),
{
    let (next, action) = pass_step(s, radius, parsed, pool_exists, may_start, time_over);
    if s.todo.len() > 0 {
        assert(requests_of(s.todo) =~= seq![s.todo[0].request] + requests_of(s.todo.drop_first()));
        if action.consumes() {
            assert(next.queue() =~= s.queue().remove(s.retained.len() as int));
        } else {
            assert(next.queue() =~= s.queue());
        }
    }
}

/// Nothing beyond the radius is placed, and nothing is placed past the ceiling.
pub proof fn placements_stay_within_bounds(
    s: PassState,
    radius: Scalar,
    parsed: Option<Option<LoadedMmb>>,
    pool_exists: bool,
    may_start: bool,
    time_over: bool,
)
    requires
        0 <= s.spawned <= MMB_SPAWN_FRAME_CEILING,
    ensures
        ({
            let (next, action) = pass_step(s, radius, parsed, pool_exists, may_start, time_over);
            &&& action is Place ==> s.todo.len() > 0 && !s.todo[0].too_far(radius) && action
                == PassAction::Place(s.todo[0].request)
            &&& s.spawned <= next.spawned <= MMB_SPAWN_FRAME_CEILING
        }),
{
}

/// Every step either ends the pass or leaves one request less to come, so a
/// pass ends; and when it has ended nothing is to come.
pub proof fn passes_end(
    s: PassState,
    radius: Scalar,
    parsed: Option<Option<LoadedMmb>>,
    pool_exists: bool,
    may_start: bool,
    time_over: bool,
)
    ensures
        ({
            let (next, action) = pass_step(s, radius, parsed, pool_exists, may_start, time_over);
            if action is Finished {
                next.todo.len() == 0
            } else {
                next.todo.len() == s.todo.len() - 1
            }
        }),
{
}

/// The first placement of a pass is made whatever the time: a pass with a
/// loaded model ahead and within the radius makes progress.
pub proof fn a_pass_makes_progress(
    s: PassState,
    radius: Scalar,
    model: LoadedMmb,
    pool_exists: bool,
    may_start: bool,
    time_over: bool,
)
    requires
        s.todo.len() > 0,
        s.spawned == 0,
        !s.todo[0].too_far(radius),
        model.submeshes@.len() > 0,
    ensures
        pass_step(s, radius, Some(Some(model)), pool_exists, may_start, time_over).1
            == PassAction::Place(s.todo[0].request),
{
}

/// A pass as it runs: what is left of it, the requests that are done with by what
/// became of them, and the tasks and the pools of textures as they come about.
#[verifier::ext_equal]
pub struct PassRun {
    pub state: PassState,
    pub placed: Seq<LoadMmbRequest>,
    pub failed: Seq<LoadMmbRequest>,
    pub nothing_to_draw: Seq<LoadMmbRequest>,
    pub in_flight: Set<(u32, usize)>,
    pub pools: Set<u32>,
}

/// The chunk that a request asks for.
pub open spec fn chunk_of(request: LoadMmbRequest) -> (u32, usize) {
    (request.file_id, request.chunk_idx)
}

/// A pass before its first step.
pub open spec fn run_started(
    todo: Seq<QueuedRequest>,
    in_flight: Set<(u32, usize)>,
    pools: Set<u32>,
) -> PassRun {
    PassRun {
        state: PassState { todo, retained: Seq::empty(), spawned: 0, budget_deferred: false },
        placed: Seq::empty(),
        failed: Seq::empty(),
        nothing_to_draw: Seq::empty(),
        in_flight,
        pools,
    }
}

/// What a step asks for, and the pass when it has been done: a model that is
/// placed has a pool of textures for its file, and a chunk whose parse is started
/// is in flight.
pub open spec fn run_step(
    r: PassRun,
    radius: Scalar,
    parse: Map<(u32, usize), Option<LoadedMmb>>,
    time_over: bool,
) -> (PassRun, PassAction) {
    let chunk = chunk_of(r.state.todo[0].request);
    let (state, action) = pass_step(
        r.state,
        radius,
        if parse.contains_key(chunk) {
            Some(parse[chunk])
        } else {
            None
        },
        r.pools.contains(chunk.0),
        !r.in_flight.contains(chunk) && r.in_flight.len() < MMB_MAX_INFLIGHT,
        time_over,
    );
    let next = PassRun { state, ..r };
    (
        match action {
            PassAction::Place(q) => PassRun {
                placed: r.placed.push(q),
                pools: r.pools.insert(q.file_id),
                ..next
            },
            PassAction::NothingToDraw { request, .. } => PassRun {
                nothing_to_draw: r.nothing_to_draw.push(request),
                ..next
            },
            PassAction::LoadFailed(q) => PassRun { failed: r.failed.push(q), ..next },
            PassAction::StartParse(q) => PassRun {
                in_flight: r.in_flight.insert(chunk_of(q)),
                ..next
            },
            PassAction::Wait(_) => next,
            PassAction::Finished => next,
        },
        action,
    )
}

/// A pass after a step for each of the times, which say whether the budget of
/// time was used up.
pub open spec fn pass_run(
    r: PassRun,
    radius: Scalar,
    parse: Map<(u32, usize), Option<LoadedMmb>>,
    times: Seq<bool>,
) -> PassRun
    decreases times.len(),
{
    if times.len() == 0 {
        r
    } else {
        run_step(pass_run(r, radius, parse, times.drop_last()), radius, parse, times.last()).0
    }
}

/// All requests of a pass, each as often as it is somewhere: placed, failed, with
/// nothing to draw, or in the queue.
pub open spec fn accounted(r: PassRun) -> Multiset<LoadMmbRequest> {
    r.placed.to_multiset().add(r.failed.to_multiset()).add(
        r.nothing_to_draw.to_multiset(),
    ).add(r.state.queue().to_multiset())
}

proof fn lemma_step_accounts(
    r: PassRun,
    radius: Scalar,
    parse: Map<(u32, usize), Option<LoadedMmb>>,
    time_over: bool,
)
    requires
        r.in_flight.finite(),
    ensures
        ({
            let (next, action) = run_step(r, radius, parse, time_over);
            &&& accounted(next) == accounted(r)
            &&& next.in_flight.finite()
            &&& r.in_flight.subset_of(next.in_flight)
            &&& r.in_flight.len() <= MMB_MAX_INFLIGHT ==> next.in_flight.len() <= MMB_MAX_INFLIGHT
            &&& if action is Finished {
                next.state.todo.len() == 0
            } else {
                next.state.todo.len() == r.state.todo.len() - 1
            }
            &&& forall|c: (u32, usize)| #[trigger]
                next.in_flight.contains(c) && !r.in_flight.contains(c)
                    ==> next.state.retained.len() > 0 && chunk_of(next.state.retained.last()) == c
            &&& r.state.retained.is_prefix_of(next.state.retained)
        }),
{
    broadcast use vstd::multiset::group_multiset_axioms;
    broadcast use vstd::seq_lib::to_multiset_build;
    broadcast use vstd::seq_lib::to_multiset_remove;

    let chunk = chunk_of(r.state.todo[0].request);
    let parsed = if parse.contains_key(chunk) {
        Some(parse[chunk])
    } else {
        None
    };
    let pool_exists = r.pools.contains(chunk.0);
    let may_start = !r.in_flight.contains(chunk) && r.in_flight.len() < MMB_MAX_INFLIGHT;
    let (next, action) = run_step(r, radius, parse, time_over);
    steps_lose_and_reorder_nothing(r.state, radius, parsed, pool_exists, may_start, time_over);
    passes_end(r.state, radius, parsed, pool_exists, may_start, time_over);
    assert(r.state.retained =~= r.state.retained.subrange(0, r.state.retained.len() as int));
    if action.consumes() {
        let at = r.state.retained.len() as int;
        let q = r.state.todo[0].request;
        assert(r.state.queue()[at] == q);
        assert(next.state.queue() == r.state.queue().remove(at));
        assert(r.state.queue().contains(q));
        r.state.queue().to_multiset_ensures();
        assert(r.state.queue().to_multiset().count(q) > 0);
        assert(accounted(next) =~= accounted(r));
    } else {
        assert(next.state.queue() == r.state.queue());
        assert(r.state.retained =~= next.state.retained.subrange(
            0,
            r.state.retained.len() as int,
        ));
    }
}

proof fn lemma_run(
    r: PassRun,
    radius: Scalar,
    parse: Map<(u32, usize), Option<LoadedMmb>>,
    times: Seq<bool>,
)
    requires
        r.in_flight.finite(),
    ensures
        ({
            let end = pass_run(r, radius, parse, times);
            &&& accounted(end) == accounted(r)
            &&& end.in_flight.finite()
            &&& r.in_flight.subset_of(end.in_flight)
            &&& r.in_flight.len() <= MMB_MAX_INFLIGHT ==> end.in_flight.len() <= MMB_MAX_INFLIGHT
            &&& end.state.todo.len() <= r.state.todo.len()
            &&& times.len() <= r.state.todo.len() ==> end.state.todo.len() <= r.state.todo.len()
                - times.len()
            &&& times.len() >= r.state.todo.len() ==> end.state.todo.len() == 0
            &&& forall|c: (u32, usize)| #[trigger]
                end.in_flight.contains(c) && !r.in_flight.contains(c) ==> exists|i: int|
                    0 <= i < end.state.retained.len() && chunk_of(
                        #[trigger] end.state.retained[i],
                    ) == c
        }),
    decreases times.len(),
{
    if times.len() > 0 {
        let shorter = times.drop_last();
        let before = pass_run(r, radius, parse, shorter);
        let end = pass_run(r, radius, parse, times);
        lemma_run(r, radius, parse, shorter);
        lemma_step_accounts(before, radius, parse, times.last());
        assert forall|c: (u32, usize)| #[trigger]
            end.in_flight.contains(c) && !r.in_flight.contains(c) implies exists|i: int|
            0 <= i < end.state.retained.len() && chunk_of(#[trigger] end.state.retained[i]) == c by {
            if before.in_flight.contains(c) {
                let i = choose|i: int|
                    0 <= i < before.state.retained.len() && chunk_of(
                        #[trigger] before.state.retained[i],
                    ) == c;
                assert(before.state.retained[i] == end.state.retained.subrange(
                    0,
                    before.state.retained.len() as int,
                )[i]);
                assert(chunk_of(end.state.retained[i]) == c);
            } else {
                let last = end.state.retained.len() - 1;
                assert(chunk_of(end.state.retained[last]) == c);
            }
        }
    }
}

/// No more parses run than may: a pass that starts within the bound stays within
/// it. It takes no parse out of flight, and starts one only for a request that it
/// keeps.
pub proof fn parses_stay_within_their_bound(
    todo: Seq<QueuedRequest>,
    in_flight: Set<(u32, usize)>,
    pools: Set<u32>,
    radius: Scalar,
    parse: Map<(u32, usize), Option<LoadedMmb>>,
    times: Seq<bool>,
)
    requires
        in_flight.finite(),
        in_flight.len() <= 64,
    ensures
        ({
            let end = pass_run(run_started(todo, in_flight, pools), radius, parse, times);
            &&& end.in_flight.finite()
            &&& end.in_flight.len() <= 64
            &&& in_flight.subset_of(end.in_flight)
            &&& forall|c: (u32, usize)| #[trigger]
                end.in_flight.contains(c) && !in_flight.contains(c) ==> exists|i: int|
                    0 <= i < end.state.retained.len() && chunk_of(
                        #[trigger] end.state.retained[i],
                    ) == c
        }),
{
    lemma_run(run_started(todo, in_flight, pools), radius, parse, times);
}

/// The keys that the requests sort by.
pub open spec fn load_order_keys(
    pending: Seq<LoadMmbRequest>,
    distances_squared: Seq<Scalar>,
) -> Seq<int> {
    Seq::new(pending.len(), |i: int| pending[i].order_key(distances_squared[i]).total())
}

/// The requests in the order of a pass: as they came, where there is no point
/// to measure from, and else by their keys, those of equal keys as they came.
pub open spec fn pass_order(
    pending: Seq<LoadMmbRequest>,
    distances_squared: Option<Seq<Scalar>>,
) -> Seq<QueuedRequest> {
    match distances_squared {
        None => Seq::new(
            pending.len(),
            |i: int| QueuedRequest { request: pending[i], distance_squared: None },
        ),
        Some(d) => Seq::new(
            pending.len(),
            |i: int|
                {
                    let place = stable_order_of(load_order_keys(pending, d))[i] as int;
                    QueuedRequest { request: pending[place], distance_squared: Some(d[place]) }
                },
        ),
    }
}

/// Where a pass stops at a part of the zone that is too far, everything behind
/// it is a part of the zone as well, and no nearer.
pub proof fn everything_behind_is_no_nearer(
    pending: Seq<LoadMmbRequest>,
    d: Seq<Scalar>,
    i: int,
    j: int,
)
    requires
        pending.len() <= usize::MAX,
        d.len() == pending.len(),
        forall|k: int| 0 <= k < d.len() ==> !(#[trigger] d[k]).negative(),
        0 <= i < j < pending.len(),
        pass_order(pending, Some(d))[i].request.zone_placement(),
    ensures
        pass_order(pending, Some(d))[j].request.zone_placement(),
        pass_order(pending, Some(d))[j].distance_squared->0.total() >= pass_order(
            pending,
            Some(d),
        )[i].distance_squared->0.total(),
{
    let keys = load_order_keys(pending, d);
    stable_order_exists(keys);
    let o = stable_order_of(keys);
    let a = o[i] as int;
    let b = o[j] as int;
    assert(comes_before(keys, a, b));
    assert(o[i] < keys.len() && o[j] < keys.len());
    assert(keys[a] == pending[a].order_key(d[a]).total());
    assert(keys[b] == pending[b].order_key(d[b]).total());
    assert(!d[a].negative());
}

/// A pass goes through as many requests as wait, and every one of them has its
/// turn.
pub proof fn every_request_has_its_turn(pending: Seq<LoadMmbRequest>, d: Seq<Scalar>, i: int)
    requires
        pending.len() <= usize::MAX,
        d.len() == pending.len(),
        0 <= i < pending.len(),
    ensures
        pass_order(pending, Some(d)).len() == pending.len(),
        pass_order(pending, Some(d)).contains(
            (QueuedRequest { request: pending[i], distance_squared: Some(d[i]) }),
        ),
{
    let keys = load_order_keys(pending, d);
    stable_order_exists(keys);
    let o = stable_order_of(keys);
    stable_order_has_every_place(keys, o, i as usize);
    let j = choose|j: int| 0 <= j < o.len() && o[j] == i as usize;
    assert(pass_order(pending, Some(d))[j] == (QueuedRequest {
        request: pending[i],
        distance_squared: Some(d[i]),
    }));
}

/// A pass goes by the keys of the requests, upwards, and requests of equal keys go
/// in the order in which they came. Each has its own distance with it. The places
/// in the queue of the two that are asked for are returned.
pub proof fn a_pass_goes_by_the_keys(
    pending: Seq<LoadMmbRequest>,
    d: Seq<Scalar>,
    i: int,
    j: int,
) -> (r: (int, int))
    requires
        pending.len() <= usize::MAX,
        d.len() == pending.len(),
        0 <= i < j < pending.len(),
    ensures
        ({
            let order = pass_order(pending, Some(d));
            let (a, b) = r;
            let first = pending[a].order_key(d[a]).total();
            let second = pending[b].order_key(d[b]).total();
            &&& 0 <= a < pending.len()
            &&& 0 <= b < pending.len()
            &&& order[i].request == pending[a]
            &&& order[i].distance_squared == Some(d[a])
            &&& order[j].request == pending[b]
            &&& order[j].distance_squared == Some(d[b])
            &&& first < second || (first == second && a < b)
        }),
{
    let keys = load_order_keys(pending, d);
    stable_order_exists(keys);
    let o = stable_order_of(keys);
    crate::stable_order::stable_orders_ascend(keys, o, i, j);
    assert(o[i] < keys.len() && o[j] < keys.len());
    (o[i] as int, o[j] as int)
}

/// Without a point to measure from a pass goes through the queue as it is, and
/// nothing in it has a distance.
pub proof fn a_pass_without_a_point_keeps_the_order(pending: Seq<LoadMmbRequest>, i: int)
    requires
        0 <= i < pending.len(),
    ensures
        pass_order(pending, None).len() == pending.len(),
        pass_order(pending, None)[i].request == pending[i],
        pass_order(pending, None)[i].distance_squared is None,
{
}

/// The values of a list, taken in another order of its places, are the same
/// values, each as often.
proof fn lemma_reordered<A>(values: Seq<A>, order: Seq<usize>)
    requires
        values.len() <= usize::MAX,
        order.len() == values.len(),
        order.no_duplicates(),
        forall|i: int| 0 <= i < order.len() ==> #[trigger] order[i] < values.len(),
        forall|place: usize| place < values.len() ==> order.contains(place),
    ensures
        Seq::new(values.len(), |i: int| values[order[i] as int]).to_multiset()
            == values.to_multiset(),
    decreases values.len(),
{
    let taken = Seq::new(values.len(), |i: int| values[order[i] as int]);
    if values.len() == 0 {
        assert(taken =~= values);
    } else {
        let n = (values.len() - 1) as usize;
        assert(order.contains(n));
        let j = choose|j: int| 0 <= j < order.len() && order[j] == n;
        let fewer = order.remove(j);
        let shorter = values.drop_last();
        assert forall|i: int| 0 <= i < fewer.len() implies #[trigger] fewer[i] < shorter.len() by {
            let k = if i < j {
                i
            } else {
                i + 1
            };
            assert(fewer[i] == order[k] && order[k] < values.len() && order[k] != order[j]);
        }
        assert forall|a: int, b: int|
            0 <= a < fewer.len() && 0 <= b < fewer.len() && a != b implies fewer[a] != fewer[b] by {
            let x = if a < j {
                a
            } else {
                a + 1
            };
            let y = if b < j {
                b
            } else {
                b + 1
            };
            assert(fewer[a] == order[x] && fewer[b] == order[y]);
        }
        assert forall|place: usize| place < shorter.len() implies fewer.contains(place) by {
            assert(order.contains(place));
            let k = choose|k: int| 0 <= k < order.len() && order[k] == place;
            if k < j {
                assert(fewer[k] == place);
            } else {
                assert(fewer[k - 1] == place);
            }
        }
        lemma_reordered(shorter, fewer);
        let rest = Seq::new(shorter.len(), |i: int| shorter[fewer[i] as int]);
        assert(taken =~= rest.insert(j, values.last())) by {
            assert forall|i: int| 0 <= i < taken.len() implies #[trigger] taken[i] == rest.insert(
                j,
                values.last(),
            )[i] by {
                if i < j {
                    assert(fewer[i] == order[i] && fewer[i] < shorter.len());
                } else if i > j {
                    assert(fewer[i - 1] == order[i] && fewer[i - 1] < shorter.len());
                }
            }
        }
        vstd::seq_lib::to_multiset_insert(rest, j, values.last());
        assert(values =~= shorter.push(values.last()));
        vstd::seq_lib::to_multiset_build(shorter, values.last());
    }
}

/// A pass goes through the requests that wait, each as often as it waits, in
/// whatever order.
pub proof fn a_pass_only_reorders(
    pending: Seq<LoadMmbRequest>,
    distances_squared: Option<Seq<Scalar>>,
)
    requires
        pending.len() <= usize::MAX,
        distances_squared matches Some(d) ==> d.len() == pending.len(),
    ensures
        requests_of(pass_order(pending, distances_squared)).to_multiset()
            == pending.to_multiset(),
{
    let order = pass_order(pending, distances_squared);
    match distances_squared {
        None => {
            assert(requests_of(order) =~= pending);
        },
        Some(d) => {
            let keys = load_order_keys(pending, d);
            stable_order_exists(keys);
            let o = stable_order_of(keys);
            assert forall|place: usize| place < pending.len() implies o.contains(place) by {
                stable_order_has_every_place(keys, o, place);
            }
            assert forall|a: int, b: int|
                0 <= a < o.len() && 0 <= b < o.len() && a != b implies o[a] != o[b] by {
                if a < b {
                    assert(comes_before(keys, o[a] as int, o[b] as int));
                } else {
                    assert(comes_before(keys, o[b] as int, o[a] as int));
                }
            }
            lemma_reordered(pending, o);
            assert(requests_of(order) =~= Seq::new(
                pending.len(),
                |i: int| pending[o[i] as int],
            ));
        },
    }
}

/// A whole pass loses and doubles nothing: every request that waited in the queue
/// ends in exactly one place, as often as it waited. It is placed, it failed, it
/// has nothing to draw, or it stays in the queue. After a step for each request
/// nothing is left to come, so what stays in the queue is what the pass kept.
pub proof fn every_request_ends_in_one_place(
    pending: Seq<LoadMmbRequest>,
    distances_squared: Option<Seq<Scalar>>,
    in_flight: Set<(u32, usize)>,
    pools: Set<u32>,
    radius: Scalar,
    parse: Map<(u32, usize), Option<LoadedMmb>>,
    times: Seq<bool>,
)
    requires
        pending.len() <= usize::MAX,
        distances_squared matches Some(d) ==> d.len() == pending.len(),
        in_flight.finite(),
    ensures
        ({
            let todo = pass_order(pending, distances_squared);
            let end = pass_run(run_started(todo, in_flight, pools), radius, parse, times);
            &&& pending.to_multiset() == accounted(end)
            &&& times.len() >= pending.len() ==> end.state.todo.len() == 0 && end.state.queue()
                == end.state.retained
        }),
{
    let todo = pass_order(pending, distances_squared);
    let start = run_started(todo, in_flight, pools);
    a_pass_only_reorders(pending, distances_squared);
    lemma_run(start, radius, parse, times);
    assert(start.state.queue() =~= requests_of(todo));
    assert(accounted(start) =~= requests_of(todo).to_multiset()) by {
        broadcast use vstd::multiset::group_multiset_axioms;

        Seq::<LoadMmbRequest>::empty().to_multiset_ensures();
        assert(Seq::<LoadMmbRequest>::empty().to_multiset() =~= Multiset::empty());
    }
    let end = pass_run(start, radius, parse, times);
    if times.len() >= pending.len() {
        assert(end.state.queue() =~= end.state.retained);
    }
}

/// A pass under way.
pub struct MmbPass {
    pub todo: VecDeque<QueuedRequest>,
    pub retained: VecDeque<LoadMmbRequest>,
    pub spawned: usize,
    pub budget_deferred: bool,
    pub load_radius_squared: Scalar,
    pub frame_budget_ms: u64,
}

impl View for MmbPass {
    type V = PassState;

    open spec fn view(&self) -> PassState {
        PassState {
            todo: self.todo@,
            retained: self.retained@,
            spawned: self.spawned as int,
            budget_deferred: self.budget_deferred,
        }
    }
}

impl MmbPass {
    /// The cost so far is within the ceiling.
    pub open spec fn wf(&self) -> bool {
        self.spawned <= MMB_SPAWN_FRAME_CEILING
    }

    /// Takes the requests out of the queue, in the order of the pass. The
    /// distances stand for the requests one by one; there are none without a
    /// point to measure from.
    pub fn start(
        queue: &mut MmbLoadQueue,
        distances_squared: Option<&Vec<Scalar>>,
        load_radius_squared: Scalar,
        frame_budget_ms: u64,
    ) -> (pass: MmbPass)
        requires
            distances_squared is Some ==> distances_squared->0@.len() == old(queue).pending@.len(),
        ensures
            final(queue).pending@ == Seq::<LoadMmbRequest>::empty(),
            final(queue).last_eval_pos == old(queue).last_eval_pos,
            final(queue).budget_deferred == old(queue).budget_deferred,
            pass.wf(),
            pass@ == (PassState {
                todo: pass_order(
                    old(queue).pending@,
                    match distances_squared {
                        Some(d) => Some(d@),
                        None => None,
                    },
                ),
                retained: Seq::empty(),
                spawned: 0,
                budget_deferred: false,
            }),
            pass.load_radius_squared == load_radius_squared,
            pass.frame_budget_ms == frame_budget_ms,
    {
        let mut todo: VecDeque<QueuedRequest> = VecDeque::new();
        let total: usize = queue.pending.len();
        match distances_squared {
            None => {
                let mut i: usize = 0;
                while i < total
                    invariant
                        i <= total,
                        total == queue.pending@.len(),
                        todo@ =~= pass_order(queue.pending@, None).take(i as int),
                    decreases total - i,
                {
                    todo.push_back(
                        QueuedRequest { request: queue.pending[i], distance_squared: None },
                    );
                    i = i + 1;
                }
                assert(pass_order(queue.pending@, None).take(total as int) =~= pass_order(
                    queue.pending@,
                    None,
                ));
            },
            Some(d) => {
                let mut keys: Vec<i64> = Vec::new();
                let mut i: usize = 0;
                while i < total
                    invariant
                        i <= total,
                        total == queue.pending@.len(),
                        total == d@.len(),
                        key_values(keys@) =~= load_order_keys(queue.pending@, d@).take(i as int),
                    decreases total - i,
                {
                    let ghost before = keys@;
                    let k = mmb_load_order_key(&queue.pending[i], d[i]).total_key();
                    keys.push(k);
                    assert(key_values(keys@) =~= key_values(before).push(k as int));
                    i = i + 1;
                }
                assert(key_values(keys@) =~= load_order_keys(queue.pending@, d@));
                let order = stable_order(&keys);
                let mut j: usize = 0;
                while j < total
                    invariant
                        j <= total,
                        total == queue.pending@.len(),
                        total == d@.len(),
                        is_stable_order(load_order_keys(queue.pending@, d@), order@),
                        order@ == stable_order_of(load_order_keys(queue.pending@, d@)),
                        todo@ =~= pass_order(queue.pending@, Some(d@)).take(j as int),
                    decreases total - j,
                {
                    let place = order[j];
                    todo.push_back(
                        QueuedRequest {
                            request: queue.pending[place],
                            distance_squared: Some(d[place]),
                        },
                    );
                    j = j + 1;
                }
                assert(pass_order(queue.pending@, Some(d@)).take(total as int) =~= pass_order(
                    queue.pending@,
                    Some(d@),
                ));
            },
        }
        queue.pending.clear();
        MmbPass {
            todo,
            retained: VecDeque::new(),
            spawned: 0,
            budget_deferred: false,
            load_radius_squared,
            frame_budget_ms,
        }
    }

    /// Leaves all requests to come in the queue.
    fn stop(&mut self, budget_deferred: bool)
        ensures
            final(self)@ == old(self)@.stopped(budget_deferred),
            final(self).load_radius_squared == old(self).load_radius_squared,
            final(self).frame_budget_ms == old(self).frame_budget_ms,
    {
        if budget_deferred {
            self.budget_deferred = true;
        }
        while self.todo.len() > 0
            invariant
                self.retained@ + requests_of(self.todo@) == old(self)@.queue(),
                self.spawned == old(self).spawned,
                self.budget_deferred == (old(self).budget_deferred || budget_deferred),
                self.load_radius_squared == old(self).load_radius_squared,
                self.frame_budget_ms == old(self).frame_budget_ms,
            decreases self.todo@.len(),
        {
            let ghost retained = self.retained@;
            let ghost todo = self.todo@;
            if let Some(q) = self.todo.pop_front() {
                self.retained.push_back(q.request);
                assert(self.retained@ + requests_of(self.todo@) =~= retained + requests_of(todo));
            }
        }
        assert(self.retained@ =~= old(self)@.queue());
    }

    /// The next step.
    pub fn step<H, T>(
        &mut self,
        parse: &MmbParseCache,
        pools: &MmbTexPools<H>,
        in_flight: &MmbLoadInFlight<T>,
        elapsed_ms: u64,
    ) -> (action: PassAction)
        requires
            old(self).wf(),
        ensures
            final(self).wf(),
            final(self).load_radius_squared == old(self).load_radius_squared,
            final(self).frame_budget_ms == old(self).frame_budget_ms,
            ({
                let asset = (old(self)@.todo[0].request.file_id, old(
                    self,
                )@.todo[0].request.chunk_idx);
                let (next, expected) = pass_step(
                    old(self)@,
                    old(self).load_radius_squared,
                    if parse.by_asset@.contains_key(asset) {
                        Some(parse.by_asset@[asset])
                    } else {
                        None
                    },
                    pools.by_file@.contains_key(asset.0),
                    !in_flight.tasks@.contains_key(asset) && in_flight.tasks@.dom().len()
                        < MMB_MAX_INFLIGHT,
                    elapsed_ms >= old(self).frame_budget_ms,
                );
                final(self)@ == next && action == expected
            }),
            old(self).todo@.len() == 0 ==> action is Finished,
            action matches PassAction::Place(q) ==> {
                let cost: int = if pools.by_file@.contains_key(q.file_id) {
                    1
                } else {
                    8
                };
                &&& q == old(self).todo@[0].request
                &&& parse.by_asset@.contains_key((q.file_id, q.chunk_idx))
                &&& final(self).spawned == old(self).spawned + cost
                &&& old(self).spawned > 0 ==> elapsed_ms < old(self).frame_budget_ms
                    && final(self).spawned <= 1024
            },
            action matches PassAction::LoadFailed(q) ==> {
                &&& q == old(self).todo@[0].request
                &&& parse.by_asset@.contains_key((q.file_id, q.chunk_idx))
                &&& parse.by_asset@[(q.file_id, q.chunk_idx)] is None
            },
            action matches PassAction::StartParse(q) ==> {
                &&& q == old(self).todo@[0].request
                &&& !parse.by_asset@.contains_key((q.file_id, q.chunk_idx))
                &&& !in_flight.tasks@.contains_key((q.file_id, q.chunk_idx))
                &&& in_flight.tasks@.dom().len() < 64
            },
            action matches PassAction::Wait(q) ==> {
                &&& q == old(self).todo@[0].request
                &&& !parse.by_asset@.contains_key((q.file_id, q.chunk_idx))
                &&& in_flight.tasks@.contains_key((q.file_id, q.chunk_idx))
                    || in_flight.tasks@.dom().len() >= 64
            },
    {
        if self.todo.len() == 0 {
            return PassAction::Finished;
        }
        let q = self.todo[0];
        let request = q.request;
        if q.is_too_far(self.load_radius_squared) {
            self.stop(false);
            return PassAction::Finished;
        }
        match parse.by_asset.get(request.file_id, request.chunk_idx) {
            Some(Some(model)) => {
                if model.submeshes.len() == 0 {
                    let _ = self.todo.pop_front();
                    assert(self@ =~= old(self)@.consumed(0));
                    PassAction::NothingToDraw { request, announce: request.world_transform.is_none() }
                } else {
                    let cost: usize = if pools.contains(request.file_id) {
                        1
                    } else {
                        HEAVY
                    };
                    if self.spawned > 0 && (elapsed_ms >= self.frame_budget_ms || self.spawned + cost
                        > MMB_SPAWN_FRAME_CEILING) {
                        self.stop(true);
                        return PassAction::Finished;
                    }
                    let _ = self.todo.pop_front();
                    self.spawned = self.spawned + cost;
                    assert(self@ =~= old(self)@.consumed(cost as int));
                    PassAction::Place(request)
                }
            },
            Some(None) => {
                let _ = self.todo.pop_front();
                assert(self@ =~= old(self)@.consumed(0));
                PassAction::LoadFailed(request)
            },
            None => {
                let _ = self.todo.pop_front();
                self.retained.push_back(request);
                assert(self@ =~= old(self)@.kept());
                if !in_flight.tasks.contains(request.file_id, request.chunk_idx)
                    && in_flight.tasks.len() < MMB_MAX_INFLIGHT {
                    PassAction::StartParse(request)
                } else {
                    PassAction::Wait(request)
                }
            },
        }
    }

    /// Gives the queue back what stays in it.
    pub fn finish(self, queue: &mut MmbLoadQueue)
        requires
            self@.todo.len() == 0,
        ensures
            final(queue).pending@ == self@.retained,
            final(queue).last_eval_pos == old(queue).last_eval_pos,
            final(queue).budget_deferred == (old(queue).budget_deferred || self.budget_deferred),
    {
        queue.pending = self.retained;
        if self.budget_deferred {
            queue.budget_deferred = true;
        }
    }
}

/// How a model is placed.
#[derive(Clone, Copy, PartialEq, Eq, Debug, Structural)]
pub struct PlacementPlan {
    /// Attached to the entity that the request names.
    pub attach: bool,
    /// The entity that the request names and that there is none of.
    pub missing_entity: Option<u32>,
    /// Part of the zone: it can be retired and queued again.
    pub zone_spawn: bool,
    /// The shell of an interior.
    pub sub_area_link: Option<u32>,
    /// Does not move, so it hides the camera and shows on the map.
    pub static_placement: bool,
    /// Worth a message.
    pub announce: bool,
}

/// How a model is placed, by whether the entity that the request names is
/// known.
pub open spec fn placement_plan(req: LoadMmbRequest, entity_known: bool) -> PlacementPlan {
    let attach = req.entity_id is Some && entity_known;
    PlacementPlan {
        attach,
        missing_entity: if attach {
            None
        } else {
            req.entity_id
        },
        zone_spawn: req.zone_placement(),
        sub_area_link: if req.zone_placement() && req.sub_area_link != NO_SUB_AREA_LINK {
            Some(req.sub_area_link)
        } else {
            None
        },
        static_placement: !attach,
        announce: !req.zone_placement(),
    }
}

/// A model is attached where the request names an entity that is known; one that is
/// not known is reported. All that is not attached does not move. A part of the
/// zone, with no entity and with a transform, can be retired, belongs to the
/// interior that it names, and is not announced; all else is.
pub proof fn placements_follow_their_request(req: LoadMmbRequest, entity_known: bool)
    ensures
        ({
            let p = placement_plan(req, entity_known);
            let zone = req.entity_id is None && req.world_transform is Some;
            &&& p.attach <==> req.entity_id is Some && entity_known
            &&& p.missing_entity is Some <==> req.entity_id is Some && !entity_known
            &&& p.missing_entity is Some ==> p.missing_entity == req.entity_id
            &&& p.zone_spawn <==> zone
            &&& p.sub_area_link is Some <==> zone && req.sub_area_link != 0
            &&& p.sub_area_link is Some ==> p.sub_area_link == Some(req.sub_area_link)
            &&& p.static_placement <==> req.entity_id is None || !entity_known
            &&& p.announce <==> !zone
        }),
{
}

/// How a model is placed.
pub fn plan_placement(req: &LoadMmbRequest, entity_known: bool) -> (p: PlacementPlan)
    ensures
        p == placement_plan(*req, entity_known),
        p.attach <==> req.entity_id is Some && entity_known,
        p.zone_spawn <==> req.entity_id is None && req.world_transform is Some,
        p.announce == !p.zone_spawn,
        p.static_placement == !p.attach,
{
    let attach = req.entity_id.is_some() && entity_known;
    let zone_spawn = is_zone_placement(req);
    PlacementPlan {
        attach,
        missing_entity: if attach {
            None
        } else {
            req.entity_id
        },
        zone_spawn,
        sub_area_link: if zone_spawn && req.sub_area_link != NO_SUB_AREA_LINK {
            Some(req.sub_area_link)
        } else {
            None
        },
        static_placement: !attach,
        announce: !zone_spawn,
    }
}

/// The start of every message on a request: the file and the chunk.
pub open spec fn request_text(file_id: nat, chunk_idx: nat) -> Seq<char> {
    "/load_mmb "@ + decimal(file_id) + " "@ + decimal(chunk_idx) + ": "@
}

/// The texts of messages: on which file and chunk, and how many textures came.
pub proof fn messages_name_the_chunk(file_id: nat, chunk_idx: nat, textures: nat)
    ensures
        request_text(file_id, chunk_idx) == "/load_mmb "@ + decimal(file_id) + " "@ + decimal(
            chunk_idx,
        ) + ": "@,
        texture_note(0) == " (no texture)"@,
        texture_note(1) == " +1 texture"@,
        textures > 1 ==> texture_note(textures) == " +"@ + decimal(textures) + " textures"@,
{
}

fn request_message(file_id: u32, chunk_idx: usize) -> (s: String)
    ensures
        s@ == request_text(file_id as nat, chunk_idx as nat),
{
    let mut s = "/load_mmb ".to_owned();
    s.append(decimal_text(file_id as u64).as_str());
    s.append(" ");
    s.append(decimal_text(chunk_idx as u64).as_str());
    s.append(": ");
    s
}

/// The message on a model with nothing to draw.
pub fn nothing_to_draw_message(file_id: u32, chunk_idx: usize) -> (s: String)
    ensures
        s@ == request_text(file_id as nat, chunk_idx as nat) + "0 renderable sub-records"@,
{
    let mut s = request_message(file_id, chunk_idx);
    s.append("0 renderable sub-records");
    s
}

/// The message on a model that could not be loaded.
pub fn load_failed_message(file_id: u32, chunk_idx: usize) -> (s: String)
    ensures
        s@ == request_text(file_id as nat, chunk_idx as nat) + "load failed"@,
{
    let mut s = request_message(file_id, chunk_idx);
    s.append("load failed");
    s
}

/// The message on an entity that there is none of.
pub fn missing_entity_message(missing: u32, file_id: u32, chunk_idx: usize) -> (s: String)
    ensures
        s@ == "/load_mmb_on "@ + decimal(missing as nat) + " "@ + decimal(file_id as nat) + " "@
            + decimal(chunk_idx as nat) + ": no tracked entity for id "@ + decimal(missing as nat)
            + " \u{2014} spawning at world_pos instead"@,
{
    let mut s = "/load_mmb_on ".to_owned();
    s.append(decimal_text(missing as u64).as_str());
    s.append(" ");
    s.append(decimal_text(file_id as u64).as_str());
    s.append(" ");
    s.append(decimal_text(chunk_idx as u64).as_str());
    s.append(": no tracked entity for id ");
    s.append(decimal_text(missing as u64).as_str());
    s.append(" \u{2014} spawning at world_pos instead");
    s
}

/// The note on how many textures a model came with.
pub open spec fn texture_note(textures: nat) -> Seq<char> {
    if textures == 0 {
        " (no texture)"@
    } else if textures == 1 {
        " +1 texture"@
    } else {
        " +"@ + decimal(textures) + " textures"@
    }
}

/// The message on a model that was placed: how many meshes, where, and with how
/// many textures.
pub fn spawned_message(
    file_id: u32,
    chunk_idx: usize,
    meshes: usize,
    place: &str,
    textures: usize,
) -> (s: String)
    ensures
        s@ == request_text(file_id as nat, chunk_idx as nat) + "spawned "@ + decimal(meshes as nat)
            + " sub-mesh"@ + (if meshes == 1 {
            ""@
        } else {
            "es"@
        }) + " "@ + place@ + texture_note(textures as nat),
{
    let mut s = request_message(file_id, chunk_idx);
    s.append("spawned ");
    s.append(decimal_text(meshes as u64).as_str());
    s.append(" sub-mesh");
    if meshes == 1 {
        s.append("");
    } else {
        s.append("es");
    }
    s.append(" ");
    s.append(place);
    if textures == 0 {
        s.append(" (no texture)");
    } else if textures == 1 {
        s.append(" +1 texture");
    } else {
        let ghost before = s@;
        s.append(" +");
        s.append(decimal_text(textures as u64).as_str());
        s.append(" textures");
        assert(s@ =~= before + texture_note(textures as nat));
    }
    s
}

/// Where a model was placed that is attached to an entity.
pub fn entity_place(id: u32) -> (s: String)
    ensures
        s@ == "on entity "@ + decimal(id as nat),
{
    let mut s = "on entity ".to_owned();
    s.append(decimal_text(id as u64).as_str());
    s
}

} // verus!
