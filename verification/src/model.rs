//! Mathematical model of the simulation engine.
//!
//! The model mirrors one run of the engine as a fold over the request
//! sequence: a `SimState` carries the virtual clock, the time at which each
//! worker next becomes free, and the running statistics, and `sim_step`
//! advances it by one dispatched request. The executable engines prove that
//! they return exactly `sim_stats` of their inputs.

use vstd::prelude::*;

verus! {

/// One request, reduced to what the engine reads: arrival time and
/// processing duration, in milliseconds of virtual time.
#[verifier::ext_equal]
pub ghost struct SimReq {
    pub arrived: int,
    pub duration: int,
}

/// The three aggregate statistics of a run.
#[verifier::ext_equal]
pub ghost struct SimStats {
    pub max_latency: int,
    pub time_to_send: int,
    pub time_to_process: int,
}

/// Full engine state between two dispatched requests.
#[verifier::ext_equal]
pub ghost struct SimState {
    pub clock: int,
    pub busy: Seq<int>,
    pub stats: SimStats,
}

/// Spacing between consecutive synthetic requests: `1000 / rate`
/// milliseconds, or zero when the rate is zero (everything arrives at once).
pub open spec fn spec_interval(request_rate: u32) -> int {
    if request_rate > 0 {
        1000int / request_rate as int
    } else {
        0
    }
}

pub open spec fn max_i(a: int, b: int) -> int {
    if a >= b {
        a
    } else {
        b
    }
}

/// The earliest time at which some worker is free.
pub open spec fn min_busy(busy: Seq<int>) -> int
    recommends
        busy.len() > 0,
    decreases busy.len(),
{
    if busy.len() <= 1 {
        busy[0]
    } else if busy[0] <= min_busy(busy.drop_first()) {
        busy[0]
    } else {
        min_busy(busy.drop_first())
    }
}

/// The first worker (in pool order) free at time `t`, if any.
pub open spec fn first_free(busy: Seq<int>, t: int) -> Option<int>
    decreases busy.len(),
{
    if busy.len() == 0 {
        None
    } else if busy[0] <= t {
        Some(0)
    } else {
        match first_free(busy.drop_first(), t) {
            Some(i) => Some(i + 1),
            None => None,
        }
    }
}

/// The virtual time at which the next request is dispatched: the clock first
/// advances to the request's arrival, then, if every worker is still busy,
/// to the earliest time one frees up.
pub open spec fn dispatch_time(st: SimState, r: SimReq) -> int
    recommends
        st.busy.len() > 0,
{
    max_i(max_i(st.clock, r.arrived), min_busy(st.busy))
}

/// Dispatch one request: advance the clock, occupy the first free worker,
/// and fold the observation into the running statistics.
pub open spec fn sim_step(st: SimState, r: SimReq) -> SimState
    recommends
        st.busy.len() > 0,
{
    let t = dispatch_time(st, r);
    let i = first_free(st.busy, t).unwrap();
    SimState {
        clock: t,
        busy: st.busy.update(i, t + r.duration),
        stats: SimStats {
            max_latency: max_i(st.stats.max_latency, t - r.arrived),
            time_to_send: max_i(st.stats.time_to_send, r.arrived),
            time_to_process: max_i(st.stats.time_to_process, t + r.duration),
        },
    }
}

/// Fold `sim_step` over a request sequence, front first.
pub open spec fn sim_from(st: SimState, reqs: Seq<SimReq>) -> SimState
    decreases reqs.len(),
{
    if reqs.len() == 0 {
        st
    } else {
        sim_from(sim_step(st, reqs[0]), reqs.drop_first())
    }
}

/// The state before any request: clock at zero, every worker free at zero,
/// all statistics zero.
pub open spec fn init_state(workers: nat) -> SimState {
    SimState {
        clock: 0,
        busy: Seq::new(workers, |i: int| 0),
        stats: SimStats { max_latency: 0, time_to_send: 0, time_to_process: 0 },
    }
}

/// The statistics of a whole run.
pub open spec fn sim_stats(reqs: Seq<SimReq>, workers: nat) -> SimStats {
    sim_from(init_state(workers), reqs).stats
}

/// Every arrival and duration is non-negative. Holds of anything read from
/// the executable types, whose fields are unsigned.
pub open spec fn reqs_nonneg(reqs: Seq<SimReq>) -> bool {
    forall|i: int| 0 <= i < reqs.len() ==> reqs[i].arrived >= 0 && reqs[i].duration >= 0
}

/// Sum of all processing durations.
pub open spec fn total_duration(reqs: Seq<SimReq>) -> int
    decreases reqs.len(),
{
    if reqs.len() == 0 {
        0
    } else {
        reqs[0].duration + total_duration(reqs.drop_first())
    }
}

/// Largest arrival time, or zero for an empty sequence.
pub open spec fn max_arrival(reqs: Seq<SimReq>) -> int
    decreases reqs.len(),
{
    if reqs.len() == 0 {
        0
    } else {
        max_i(reqs[0].arrived, max_arrival(reqs.drop_first()))
    }
}

/// An upper bound on every time value a run can produce: no worker is ever
/// booked past the last arrival plus the sum of all durations.
pub open spec fn horizon(reqs: Seq<SimReq>) -> int {
    max_arrival(reqs) + total_duration(reqs)
}

/// Every component of the state lies in `[0, bound]`.
pub open spec fn state_bounded(st: SimState, bound: int) -> bool {
    &&& 0 <= st.clock <= bound
    &&& forall|j: int| 0 <= j < st.busy.len() ==> 0 <= #[trigger] st.busy[j] <= bound
    &&& 0 <= st.stats.max_latency <= bound
    &&& 0 <= st.stats.time_to_send <= bound
    &&& 0 <= st.stats.time_to_process <= bound
}

pub proof fn lemma_min_busy_le(busy: Seq<int>, i: int)
    requires
        0 <= i < busy.len(),
    ensures
        min_busy(busy) <= busy[i],
    decreases busy.len(),
{
    if busy.len() > 1 && i > 0 {
        lemma_min_busy_le(busy.drop_first(), i - 1);
    }
}

pub proof fn lemma_min_busy_in(busy: Seq<int>)
    requires
        busy.len() > 0,
    ensures
        exists|i: int| 0 <= i < busy.len() && busy[i] == min_busy(busy),
    decreases busy.len(),
{
    if busy.len() <= 1 {
        assert(busy[0] == min_busy(busy));
    } else if busy[0] <= min_busy(busy.drop_first()) {
        assert(busy[0] == min_busy(busy));
    } else {
        lemma_min_busy_in(busy.drop_first());
        let j = choose|j: int|
            0 <= j < busy.drop_first().len() && busy.drop_first()[j] == min_busy(
                busy.drop_first(),
            );
        assert(busy[j + 1] == min_busy(busy));
    }
}

/// What `first_free` returns: the least index of a worker free at `t`, or
/// `None` when every worker is still busy.
pub proof fn lemma_first_free(busy: Seq<int>, t: int)
    ensures
        match first_free(busy, t) {
            Some(i) => {
                &&& 0 <= i < busy.len()
                &&& busy[i] <= t
                &&& forall|j: int| 0 <= j < i ==> #[trigger] busy[j] > t
            },
            None => forall|j: int| 0 <= j < busy.len() ==> #[trigger] busy[j] > t,
        },
    decreases busy.len(),
{
    if busy.len() > 0 && busy[0] > t {
        lemma_first_free(busy.drop_first(), t);
        match first_free(busy.drop_first(), t) {
            Some(i) => {
                assert(busy.drop_first()[i] == busy[i + 1]);
                assert(forall|j: int|
                    1 <= j < i + 1 ==> #[trigger] busy[j] == busy.drop_first()[j - 1]);
            },
            None => {
                assert(forall|j: int|
                    1 <= j < busy.len() ==> #[trigger] busy[j] == busy.drop_first()[j - 1]);
            },
        }
    }
}

/// A worker free at `t` exists exactly when `min_busy` has been reached.
pub proof fn lemma_first_free_some(busy: Seq<int>, t: int)
    requires
        busy.len() > 0,
    ensures
        first_free(busy, t) is Some <==> min_busy(busy) <= t,
{
    lemma_first_free(busy, t);
    lemma_min_busy_in(busy);
    if first_free(busy, t) is Some {
        let i = first_free(busy, t).unwrap();
        lemma_min_busy_le(busy, i);
    }
}

pub proof fn lemma_max_arrival_index(reqs: Seq<SimReq>, i: int)
    requires
        0 <= i < reqs.len(),
    ensures
        reqs[i].arrived <= max_arrival(reqs),
    decreases reqs.len(),
{
    if i > 0 {
        lemma_max_arrival_index(reqs.drop_first(), i - 1);
    }
}

pub proof fn lemma_max_arrival_nonneg(reqs: Seq<SimReq>)
    requires
        reqs_nonneg(reqs),
    ensures
        max_arrival(reqs) >= 0,
    decreases reqs.len(),
{
    if reqs.len() > 0 {
        assert(reqs_nonneg(reqs.drop_first()));
        lemma_max_arrival_nonneg(reqs.drop_first());
    }
}

pub proof fn lemma_total_duration_nonneg(reqs: Seq<SimReq>)
    requires
        reqs_nonneg(reqs),
    ensures
        total_duration(reqs) >= 0,
    decreases reqs.len(),
{
    if reqs.len() > 0 {
        assert(reqs_nonneg(reqs.drop_first()));
        lemma_total_duration_nonneg(reqs.drop_first());
    }
}

/// One step keeps the state within `[0, max(bound, arrival) + duration]`:
/// the dispatch happens no later than the worst of the old bound and the new
/// arrival, and the worker is booked for `duration` past that.
pub proof fn lemma_sim_step_bounded(st: SimState, r: SimReq, bound: int)
    requires
        st.busy.len() > 0,
        state_bounded(st, bound),
        r.arrived >= 0,
        r.duration >= 0,
    ensures
        state_bounded(sim_step(st, r), max_i(bound, r.arrived) + r.duration),
        sim_step(st, r).busy.len() == st.busy.len(),
        r.arrived <= dispatch_time(st, r) <= max_i(bound, r.arrived),
{
    let t = dispatch_time(st, r);
    lemma_min_busy_le(st.busy, 0);
    lemma_min_busy_in(st.busy);
    lemma_first_free_some(st.busy, t);
    lemma_first_free(st.busy, t);
}

/// Splitting a run at any point gives the same final state.
pub proof fn lemma_sim_from_concat(st: SimState, a: Seq<SimReq>, b: Seq<SimReq>)
    ensures
        sim_from(st, a + b) == sim_from(sim_from(st, a), b),
    decreases a.len(),
{
    if a.len() == 0 {
        assert(a + b =~= b);
    } else {
        assert((a + b).drop_first() =~= a.drop_first() + b);
        lemma_sim_from_concat(sim_step(st, a[0]), a.drop_first(), b);
    }
}

/// Componentwise order on statistics.
pub open spec fn stats_le(a: SimStats, b: SimStats) -> bool {
    &&& a.max_latency <= b.max_latency
    &&& a.time_to_send <= b.time_to_send
    &&& a.time_to_process <= b.time_to_process
}

/// Statistics only ever grow: each field is a running maximum.
pub proof fn lemma_sim_from_stats_grow(st: SimState, reqs: Seq<SimReq>)
    ensures
        stats_le(st.stats, sim_from(st, reqs).stats),
    decreases reqs.len(),
{
    if reqs.len() > 0 {
        lemma_sim_from_stats_grow(sim_step(st, reqs[0]), reqs.drop_first());
    }
}

/// `timeToSend`, `timeToProcess` and `maxLatency` are monotonically
/// non-decreasing as requests are processed in order: after any further
/// requests, no field is smaller than it was.
pub proof fn lemma_stats_monotone(reqs: Seq<SimReq>, workers: nat, i: int, j: int)
    requires
        0 <= i <= j <= reqs.len(),
    ensures
        stats_le(sim_stats(reqs.take(i), workers), sim_stats(reqs.take(j), workers)),
{
    let mid = sim_from(init_state(workers), reqs.take(i));
    assert(reqs.take(i) + reqs.take(j).skip(i) =~= reqs.take(j));
    lemma_sim_from_concat(init_state(workers), reqs.take(i), reqs.take(j).skip(i));
    lemma_sim_from_stats_grow(mid, reqs.take(j).skip(i));
}

/// Every statistic of a run is non-negative; in particular the worst-case
/// latency is never below zero.
pub proof fn lemma_stats_nonneg(reqs: Seq<SimReq>, workers: nat)
    ensures
        sim_stats(reqs, workers).max_latency >= 0,
        sim_stats(reqs, workers).time_to_send >= 0,
        sim_stats(reqs, workers).time_to_process >= 0,
{
    lemma_sim_from_stats_grow(init_state(workers), reqs);
}

/// Arrival times never decrease along the sequence.
pub open spec fn sorted_by_arrival(reqs: Seq<SimReq>) -> bool {
    forall|i: int, j: int|
        0 <= i <= j < reqs.len() ==> #[trigger] reqs[i].arrived <= #[trigger] reqs[j].arrived
}

/// Some worker is already free when each request arrives, step by step along
/// the run.
pub open spec fn worker_free_at_each_arrival(st: SimState, reqs: Seq<SimReq>) -> bool
    decreases reqs.len(),
{
    reqs.len() == 0 || {
        &&& min_busy(st.busy) <= reqs[0].arrived
        &&& worker_free_at_each_arrival(sim_step(st, reqs[0]), reqs.drop_first())
    }
}

proof fn lemma_no_wait_no_latency(st: SimState, reqs: Seq<SimReq>)
    requires
        st.busy.len() > 0,
        st.stats.max_latency == 0,
        reqs.len() > 0 ==> st.clock <= reqs[0].arrived,
        sorted_by_arrival(reqs),
        worker_free_at_each_arrival(st, reqs),
    ensures
        sim_from(st, reqs).stats.max_latency == 0,
    decreases reqs.len(),
{
    if reqs.len() > 0 {
        let r = reqs[0];
        let t = dispatch_time(st, r);
        assert(t == r.arrived);
        lemma_first_free_some(st.busy, t);
        lemma_first_free(st.busy, t);
        let next = sim_step(st, r);
        assert(next.busy.len() == st.busy.len());
        assert(next.stats.max_latency == 0);
        assert(forall|i: int, j: int|
            0 <= i <= j < reqs.drop_first().len() ==> #[trigger] reqs.drop_first()[i].arrived
                <= #[trigger] reqs.drop_first()[j].arrived);
        if reqs.drop_first().len() > 0 {
            assert(reqs[1].arrived == reqs.drop_first()[0].arrived);
            assert(next.clock == r.arrived <= reqs.drop_first()[0].arrived);
        }
        lemma_no_wait_no_latency(next, reqs.drop_first());
    }
}

/// The worst-case latency is exactly zero whenever a worker is free at every
/// request's arrival time (for arrival-ordered input): no request ever
/// queues.
pub proof fn lemma_always_capacity_zero_latency(reqs: Seq<SimReq>, workers: nat)
    requires
        workers >= 1,
        reqs_nonneg(reqs),
        sorted_by_arrival(reqs),
        worker_free_at_each_arrival(init_state(workers), reqs),
    ensures
        sim_stats(reqs, workers).max_latency == 0,
{
    lemma_no_wait_no_latency(init_state(workers), reqs);
}

proof fn lemma_zero_suffix_free(st: SimState, reqs: Seq<SimReq>, k: int)
    requires
        st.busy.len() > 0,
        reqs_nonneg(reqs),
        0 <= k,
        k + reqs.len() <= st.busy.len(),
        forall|i: int| k <= i < st.busy.len() ==> #[trigger] st.busy[i] == 0,
    ensures
        worker_free_at_each_arrival(st, reqs),
    decreases reqs.len(),
{
    if reqs.len() > 0 {
        let r = reqs[0];
        let last = st.busy.len() - 1;
        lemma_min_busy_le(st.busy, last);
        let t = dispatch_time(st, r);
        lemma_first_free_some(st.busy, t);
        lemma_first_free(st.busy, t);
        let j = first_free(st.busy, t).unwrap();
        assert(st.busy[k] == 0);
        assert(j <= k);
        let next = sim_step(st, r);
        assert(next.busy.len() == st.busy.len());
        assert(forall|i: int| k + 1 <= i < next.busy.len() ==> #[trigger] next.busy[i] == 0);
        assert(reqs_nonneg(reqs.drop_first()));
        lemma_zero_suffix_free(next, reqs.drop_first(), k + 1);
    }
}

/// With at least as many workers as requests there is always an untouched,
/// never-assigned worker free at each arrival, so (for arrival-ordered
/// input) the worst-case latency is exactly zero.
pub proof fn lemma_enough_workers_zero_latency(reqs: Seq<SimReq>, workers: nat)
    requires
        workers >= 1,
        workers >= reqs.len(),
        reqs_nonneg(reqs),
        sorted_by_arrival(reqs),
    ensures
        sim_stats(reqs, workers).max_latency == 0,
{
    lemma_zero_suffix_free(init_state(workers), reqs, 0);
    lemma_always_capacity_zero_latency(reqs, workers);
}

/// The statistics are a function of the request sequence and the worker
/// count alone: two runs on identical inputs agree exactly. There is no
/// hidden randomness and no wall-clock dependency in the model.
pub proof fn lemma_run_deterministic(
    a: SimStats,
    b: SimStats,
    reqs: Seq<SimReq>,
    workers: nat,
)
    requires
        a == sim_stats(reqs, workers),
        b == sim_stats(reqs, workers),
    ensures
        a == b,
{
}

} // verus!
