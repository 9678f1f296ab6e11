//! The simulation engine, instrumented for observation: at every advance of
//! the virtual clock an observer receives a read-only snapshot of the pool.
//! The observer sees everything and affects nothing: the returned statistics
//! are exactly `sim_stats` of the inputs, whatever the observer does.

use vstd::prelude::*;
use crate::model::{
    SimReq, SimState, dispatch_time, first_free, horizon, init_state, lemma_first_free,
    lemma_max_arrival_index, lemma_max_arrival_nonneg, lemma_min_busy_in, lemma_min_busy_le,
    lemma_sim_step_bounded, lemma_total_duration_nonneg, max_arrival, max_i, min_busy,
    reqs_nonneg, sim_from, sim_step, sim_stats, spec_interval, state_bounded, total_duration,
};
use crate::types::{ReqV, Request, Stats, Thread, sim_req_of};

verus! {

/// Receives one snapshot per step of the virtual clock: the clock value, the
/// pool, and the queueing latency of the most recently dispatched request.
/// Implementors own their rendering state; they are handed the pool
/// read-only and cannot influence the simulation.
pub trait Observer {
    fn on_step(&mut self, clock: u64, threads: &Vec<Thread>, current_latency: u64);
}

/// An observer that ignores every snapshot, for callers that only want the
/// final statistics.
pub struct NullObserver;

impl Observer for NullObserver {
    fn on_step(&mut self, clock: u64, threads: &Vec<Thread>, current_latency: u64) {
    }
}

/// The booked-until times of a pool, as the model sees them.
pub open spec fn busy_of(threads: Seq<Thread>) -> Seq<int> {
    threads.map_values(|t: Thread| t.busy_until as int)
}

/// The engine's reading of a request sequence: arrival and duration only.
pub open spec fn sim_reqs_of(rs: Seq<ReqV>) -> Seq<SimReq> {
    rs.map_values(|r: ReqV| sim_req_of(r))
}

pub fn interval_between_requests(request_rate: u32) -> (r: u64)
    ensures
        r == spec_interval(request_rate),
{
    if request_rate > 0 {
        return 1000 / request_rate as u64;
    }
    0
}

/// A pool of `thread_count` workers, each initially free at time zero.
pub fn create_threads(thread_count: u32) -> (r: Vec<Thread>)
    ensures
        r@.len() == thread_count,
        forall|i: int| 0 <= i < thread_count ==> #[trigger] r@[i].busy_until == 0,
{
    let mut threads = Vec::<Thread>::new();
    for k in 0..thread_count
        invariant
            threads@.len() == k,
            forall|i: int| 0 <= i < k ==> #[trigger] threads@[i].busy_until == 0,
    {
        threads.push(Thread::new());
    }
    threads
}

/// The first worker, in pool order, free at time `clock`; `None` when all
/// are still busy. Pool order is load-bearing: ties go to the lowest index.
pub fn get_first_available_thread(threads: &Vec<Thread>, clock: u64) -> (r: Option<usize>)
    ensures
        match r {
            Some(i) => first_free(busy_of(threads@), clock as int) == Some(i as int),
            None => first_free(busy_of(threads@), clock as int) is None,
        },
{
    let ghost busy = busy_of(threads@);
    let n = threads.len();
    let mut k: usize = 0;
    while k < n
        invariant
            n == threads@.len(),
            busy == busy_of(threads@),
            0 <= k <= n,
            forall|j: int| 0 <= j < k ==> #[trigger] busy[j] > clock as int,
        decreases n - k,
    {
        if threads[k].busy_until <= clock {
            proof {
                lemma_first_free(busy, clock as int);
                let ff = first_free(busy, clock as int);
                assert(busy[k as int] == threads@[k as int].busy_until as int);
                assert(ff is Some);
                let i = ff.unwrap();
                assert(i >= k as int);
                assert(i <= k as int);
            }
            return Some(k);
        }
        k = k + 1;
    }
    proof {
        lemma_first_free(busy, clock as int);
        if first_free(busy, clock as int) is Some {
            let i = first_free(busy, clock as int).unwrap();
            assert(busy[i] > clock as int);
        }
    }
    None
}

/// The horizon of a request sequence — its largest arrival time plus the
/// sum of its durations, an upper bound on every virtual-time value of a
/// run — or `None` when that exceeds `u64`. Callers check this once before
/// [`run`], whose arithmetic stays below the horizon.
pub fn requests_horizon(requests: &Vec<Request>) -> (r: Option<u64>)
    ensures
        match r {
            Some(h) => h as int == horizon(sim_reqs_of(requests.deep_view())),
            None => horizon(sim_reqs_of(requests.deep_view())) > u64::MAX,
        },
{
    let ghost rv = sim_reqs_of(requests.deep_view());
    proof {
        assert(forall|i: int|
            0 <= i < rv.len() ==> #[trigger] rv[i] == sim_req_of(requests.deep_view()[i]));
        assert(reqs_nonneg(rv));
        assert(rv.skip(0) =~= rv);
        lemma_max_arrival_nonneg(rv);
        lemma_total_duration_nonneg(rv);
    }
    let n = requests.len();
    let mut maxa: u64 = 0;
    let mut total: u64 = 0;
    let mut idx: usize = 0;
    while idx < n
        invariant
            n == requests@.len(),
            rv == sim_reqs_of(requests.deep_view()),
            reqs_nonneg(rv),
            0 <= idx <= n,
            max_i(maxa as int, max_arrival(rv.skip(idx as int))) == max_arrival(rv),
            total as int + total_duration(rv.skip(idx as int)) == total_duration(rv),
        decreases n - idx,
    {
        proof {
            assert(rv.skip(idx as int)[0] == rv[idx as int]);
            assert(rv.skip(idx as int).drop_first() =~= rv.skip(idx as int + 1));
            assert(requests.deep_view()[idx as int] == requests@[idx as int]@);
            assert(reqs_nonneg(rv.skip(idx as int + 1)));
            lemma_total_duration_nonneg(rv.skip(idx as int + 1));
        }
        let arrived = requests[idx].arrived;
        let duration = requests[idx].duration;
        if arrived > maxa {
            maxa = arrived;
        }
        if duration > u64::MAX - total {
            proof {
                lemma_max_arrival_nonneg(rv);
            }
            return None;
        }
        total = total + duration;
        idx = idx + 1;
    }
    proof {
        assert(rv.skip(n as int) =~= Seq::<SimReq>::empty());
    }
    if maxa > u64::MAX - total {
        return None;
    }
    Some(maxa + total)
}

/// Replay the whole request sequence against a fresh pool of `thread_count`
/// workers, reporting each clock step to `observer`, and return the
/// resulting statistics: exactly `sim_stats` of the inputs.
///
/// The observer is called once before the loop begins, once after every
/// clock advance (arrival-driven and wait-driven alike), and once after
/// each assignment. Requests are dispatched in sequence order; arrival
/// order is the caller's convention, not checked here. The horizon bound
/// keeps every virtual-time value of the run within `u64`.
pub fn run<O: Observer>(incoming_requests: &Vec<Request>, thread_count: u32, observer: &mut O) -> (stats: Stats)
    requires
        incoming_requests@.len() == 0 || thread_count >= 1,
        horizon(sim_reqs_of(incoming_requests.deep_view())) <= u64::MAX,
    ensures
        stats@ == sim_stats(sim_reqs_of(incoming_requests.deep_view()), thread_count as nat),
{
    let ghost rv = sim_reqs_of(incoming_requests.deep_view());
    let ghost init = init_state(thread_count as nat);
    let mut threads = create_threads(thread_count);
    let mut stats = Stats::empty();
    let mut clock: u64 = 0;
    let mut current_latency: u64 = 0;
    proof {
        assert(forall|i: int|
            0 <= i < rv.len() ==> #[trigger] rv[i] == sim_req_of(
                incoming_requests.deep_view()[i],
            ));
        assert(reqs_nonneg(rv));
        lemma_total_duration_nonneg(rv);
        lemma_max_arrival_nonneg(rv);
    }
    if incoming_requests.len() > 0 {
        clock = incoming_requests[0].arrived;
        proof {
            lemma_max_arrival_index(rv, 0);
            lemma_min_busy_in(busy_of(threads@));
            let w = choose|w: int|
                0 <= w < busy_of(threads@).len() && busy_of(threads@)[w] == min_busy(
                    busy_of(threads@),
                );
            lemma_min_busy_le(busy_of(threads@), 0);
            let cur = SimState { clock: clock as int, busy: busy_of(threads@), stats: stats@ };
            assert(cur.busy =~= init.busy);
            assert(min_busy(cur.busy) == 0);
            assert(dispatch_time(cur, rv[0]) == dispatch_time(init, rv[0]));
            assert(sim_step(cur, rv[0]) =~= sim_step(init, rv[0]));
            assert(rv.drop_first() =~= rv.skip(1));
            assert(sim_from(init, rv) == sim_from(cur, rv));
        }
    }
    observer.on_step(clock, &threads, current_latency);
    proof {
        assert(rv.skip(0) =~= rv);
        if incoming_requests@.len() == 0 {
            let cur = SimState { clock: clock as int, busy: busy_of(threads@), stats: stats@ };
            assert(cur =~= init);
        }
    }
    let n = incoming_requests.len();
    let mut idx: usize = 0;
    while idx < n
        invariant
            n == incoming_requests@.len(),
            rv == sim_reqs_of(incoming_requests.deep_view()),
            reqs_nonneg(rv),
            0 <= idx <= n,
            n > 0 ==> thread_count >= 1,
            threads@.len() == thread_count as int,
            horizon(rv) <= u64::MAX,
            0 <= total_duration(rv.skip(idx as int)) <= total_duration(rv),
            sim_from(init, rv) == sim_from(
                SimState { clock: clock as int, busy: busy_of(threads@), stats: stats@ },
                rv.skip(idx as int),
            ),
            state_bounded(
                SimState { clock: clock as int, busy: busy_of(threads@), stats: stats@ },
                max_arrival(rv) + total_duration(rv) - total_duration(rv.skip(idx as int)),
            ),
        decreases n - idx,
    {
        let ghost s_pre = SimState { clock: clock as int, busy: busy_of(threads@), stats: stats@ };
        let ghost rq = rv[idx as int];
        let ghost bound = max_arrival(rv) + total_duration(rv) - total_duration(
            rv.skip(idx as int),
        );
        let arrived = incoming_requests[idx].arrived;
        let duration = incoming_requests[idx].duration;
        proof {
            assert(incoming_requests.deep_view()[idx as int] == incoming_requests@[idx as int]@);
            assert(rq == SimReq { arrived: arrived as int, duration: duration as int });
            assert(rv.skip(idx as int).drop_first() =~= rv.skip(idx as int + 1));
            assert(rv.skip(idx as int)[0] == rq);
            assert(reqs_nonneg(rv.skip(idx as int + 1)));
            lemma_total_duration_nonneg(rv.skip(idx as int + 1));
            lemma_max_arrival_index(rv, idx as int);
            lemma_total_duration_nonneg(rv);
            lemma_sim_step_bounded(s_pre, rq, bound);
            assert(max_i(bound, rq.arrived) == bound);
            assert(max_i(bound, rq.arrived) + rq.duration == max_arrival(rv) + total_duration(rv)
                - total_duration(rv.skip(idx as int + 1)));
        }
        let ghost t = dispatch_time(s_pre, rq);
        stats.update_time_to_send(arrived);
        if arrived > clock {
            clock = arrived;
        }
        observer.on_step(clock, &threads, current_latency);
        let mut avail = get_first_available_thread(&threads, clock);
        while avail.is_none()
            invariant
                threads@.len() == thread_count as int,
                thread_count >= 1,
                busy_of(threads@) == s_pre.busy,
                t == dispatch_time(s_pre, rq),
                t <= u64::MAX,
                max_i(s_pre.clock, rq.arrived) <= clock as int <= t,
                match avail {
                    Some(i) => first_free(s_pre.busy, clock as int) == Some(i as int),
                    None => first_free(s_pre.busy, clock as int) is None,
                },
            decreases t - clock as int,
        {
            proof {
                lemma_first_free(s_pre.busy, clock as int);
                lemma_min_busy_in(s_pre.busy);
                assert(min_busy(s_pre.busy) > clock as int);
            }
            clock = clock + 1;
            observer.on_step(clock, &threads, current_latency);
            avail = get_first_available_thread(&threads, clock);
        }
        let i = avail.unwrap();
        proof {
            lemma_first_free(s_pre.busy, clock as int);
            lemma_min_busy_in(s_pre.busy);
            assert(s_pre.busy[i as int] <= clock as int);
            lemma_min_busy_le(s_pre.busy, i as int);
            assert(clock as int == t);
        }
        let end = clock + duration;
        let name = incoming_requests[idx].name.clone();
        let th = &mut threads[i];
        th.update(clock, end, name);
        current_latency = clock - arrived;
        stats.update_time_to_process(end);
        stats.update_max_latency(current_latency);
        proof {
            let cur = SimState { clock: clock as int, busy: busy_of(threads@), stats: stats@ };
            let stepped = sim_step(s_pre, rq);
            assert(first_free(s_pre.busy, t) == Some(i as int));
            assert(busy_of(threads@) =~= s_pre.busy.update(i as int, t + rq.duration));
            assert(cur =~= stepped);
            assert(sim_from(s_pre, rv.skip(idx as int)) == sim_from(
                stepped,
                rv.skip(idx as int + 1),
            ));
        }
        observer.on_step(clock, &threads, current_latency);
        idx = idx + 1;
    }
    proof {
        assert(rv.skip(n as int) =~= Seq::<SimReq>::empty());
    }
    stats
}

} // verus!
