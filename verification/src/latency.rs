//! The simulation engine in its plainest form: anonymous requests, workers
//! that carry only the time at which they next become free, and a `simulate`
//! function that returns the aggregate statistics of one run.

use vstd::prelude::*;
use crate::model::{
    SimReq, SimState, SimStats, dispatch_time, first_free, horizon, init_state, lemma_first_free,
    lemma_max_arrival_index, lemma_max_arrival_nonneg, lemma_min_busy_in, lemma_min_busy_le,
    lemma_sim_step_bounded, lemma_total_duration_nonneg, max_arrival, max_i, min_busy,
    reqs_nonneg, sim_from, sim_step, sim_stats, spec_interval, state_bounded, total_duration,
};

verus! {

/// An immutable request: how long it takes to process and when it arrives,
/// in milliseconds of virtual time.
#[derive(PartialEq, Eq, Structural, Debug, Clone, Copy)]
pub struct Request {
    pub duration: u64,
    pub arrived: u64,
}

impl View for Request {
    type V = SimReq;

    open spec fn view(&self) -> SimReq {
        SimReq { arrived: self.arrived as int, duration: self.duration as int }
    }
}

impl DeepView for Request {
    type V = SimReq;

    open spec fn deep_view(&self) -> SimReq {
        self.view()
    }
}

impl Request {
    pub fn new(duration: u64, arrived: u64) -> (r: Request)
        ensures
            r.duration == duration,
            r.arrived == arrived,
    {
        Request { duration, arrived }
    }
}

/// A simulated worker: a capacity slot, free again once the virtual clock
/// reaches `busy_until`.
#[derive(PartialEq, Eq, Structural, Debug)]
pub struct Thread {
    pub busy_until: u64,
}

impl Thread {
    pub fn new() -> (t: Thread)
        ensures
            t.busy_until == 0,
    {
        Thread { busy_until: 0 }
    }
}

/// The booked-until times of a pool, as the model sees them.
pub open spec fn busy_of(threads: Seq<Thread>) -> Seq<int> {
    threads.map_values(|t: Thread| t.busy_until as int)
}

pub fn interval_between_requests(request_rate: u32) -> (r: u64)
    ensures
        r == spec_interval(request_rate),
{
    if request_rate > 0 {
        return 1000 / request_rate as u64;
    }
    0
}

/// Build `request_count` requests of the given duration, the i-th arriving
/// at `i * interval`.
pub fn create_request_queue(request_count: u32, request_duration: u32, interval: u64) -> (r: Vec<
    Request,
>)
    requires
        request_count as int * interval as int <= u64::MAX,
    ensures
        r@.len() == request_count,
        forall|i: int|
            0 <= i < request_count ==> #[trigger] r@[i] == (Request {
                duration: request_duration as u64,
                arrived: (i * interval as int) as u64,
            }),
{
    let mut request_queue = Vec::<Request>::new();
    let mut clock: u64 = 0;
    for k in 0..request_count
        invariant
            request_count as int * interval as int <= u64::MAX,
            clock == k as int * interval as int,
            request_queue@.len() == k,
            forall|i: int|
                0 <= i < k ==> #[trigger] request_queue@[i] == (Request {
                    duration: request_duration as u64,
                    arrived: (i * interval as int) as u64,
                }),
    {
        request_queue.push(Request { duration: request_duration as u64, arrived: clock });
        proof {
            assert((k as int + 1) * interval as int == k as int * interval as int
                + interval as int) by (nonlinear_arith);
            assert((k as int + 1) * interval as int <= request_count as int * interval as int)
                by (nonlinear_arith)
                requires
                    k as int + 1 <= request_count as int,
                    interval as int >= 0,
            ;
        }
        clock = clock + interval;
    }
    request_queue
}

/// A pool of `thread_count` workers, each initially free at time zero.
pub fn create_threads(thread_count: u32) -> (r: Vec<Thread>)
    ensures
        r@.len() == thread_count,
        forall|i: int| 0 <= i < thread_count ==> #[trigger] r@[i].busy_until == 0,
{
    let mut threads = Vec::<Thread>::new();
    for k in 0..thread_count
        invariant
            threads@.len() == k,
            forall|i: int| 0 <= i < k ==> #[trigger] threads@[i].busy_until == 0,
    {
        threads.push(Thread::new());
    }
    threads
}

/// The first worker, in pool order, free at time `clock`; `None` when all
/// are still busy. Pool order is load-bearing: ties go to the lowest index.
pub fn get_first_available_thread(threads: &Vec<Thread>, clock: u64) -> (r: Option<usize>)
    ensures
        match r {
            Some(i) => first_free(busy_of(threads@), clock as int) == Some(i as int),
            None => first_free(busy_of(threads@), clock as int) is None,
        },
{
    let ghost busy = busy_of(threads@);
    let n = threads.len();
    let mut k: usize = 0;
    while k < n
        invariant
            n == threads@.len(),
            busy == busy_of(threads@),
            0 <= k <= n,
            forall|j: int| 0 <= j < k ==> #[trigger] busy[j] > clock as int,
        decreases n - k,
    {
        if threads[k].busy_until <= clock {
            proof {
                lemma_first_free(busy, clock as int);
                let ff = first_free(busy, clock as int);
                assert(busy[k as int] == threads@[k as int].busy_until as int);
                assert(ff is Some);
                let i = ff.unwrap();
                assert(i >= k as int);
                assert(i <= k as int);
            }
            return Some(k);
        }
        k = k + 1;
    }
    proof {
        lemma_first_free(busy, clock as int);
        if first_free(busy, clock as int) is Some {
            let i = first_free(busy, clock as int).unwrap();
            assert(busy[i] > clock as int);
        }
    }
    None
}

/// The aggregate statistics of one run: the worst queueing latency, the last
/// arrival time, and the last completion time observed.
#[derive(PartialEq, Eq, Structural, Debug)]
pub struct Stats {
    pub max_latency: u64,
    pub time_to_send: u64,
    pub time_to_process: u64,
}

impl View for Stats {
    type V = SimStats;

    open spec fn view(&self) -> SimStats {
        SimStats {
            max_latency: self.max_latency as int,
            time_to_send: self.time_to_send as int,
            time_to_process: self.time_to_process as int,
        }
    }
}

impl Stats {
    pub fn new(max_latency: u64, time_to_send: u64, time_to_process: u64) -> (s: Stats)
        ensures
            s.max_latency == max_latency,
            s.time_to_send == time_to_send,
            s.time_to_process == time_to_process,
    {
        Stats { max_latency, time_to_send, time_to_process }
    }

    pub fn empty() -> (s: Stats)
        ensures
            s.max_latency == 0,
            s.time_to_send == 0,
            s.time_to_process == 0,
    {
        Stats { max_latency: 0, time_to_send: 0, time_to_process: 0 }
    }

    pub fn update_max_latency(&mut self, latency: u64)
        ensures
            final(self).max_latency == max_i(old(self).max_latency as int, latency as int),
            final(self).time_to_send == old(self).time_to_send,
            final(self).time_to_process == old(self).time_to_process,
    {
        if latency > self.max_latency {
            self.max_latency = latency;
        }
    }

    pub fn update_time_to_send(&mut self, clock: u64)
        ensures
            final(self).time_to_send == max_i(old(self).time_to_send as int, clock as int),
            final(self).max_latency == old(self).max_latency,
            final(self).time_to_process == old(self).time_to_process,
    {
        if clock > self.time_to_send {
            self.time_to_send = clock;
        }
    }

    pub fn update_time_to_process(&mut self, clock: u64)
        ensures
            final(self).time_to_process == max_i(old(self).time_to_process as int, clock as int),
            final(self).max_latency == old(self).max_latency,
            final(self).time_to_send == old(self).time_to_send,
    {
        if clock > self.time_to_process {
            self.time_to_process = clock;
        }
    }
}

/// Replay the whole request sequence against a fresh pool of
/// `thread_count` workers and return the resulting statistics: exactly
/// `sim_stats` of the inputs.
///
/// Requests are dispatched in sequence order; arrival order is the caller's
/// convention, not checked here. The horizon bound keeps every virtual-time
/// value of the run within `u64`.
pub fn simulate(incoming_requests: &Vec<Request>, thread_count: u32) -> (stats: Stats)
    requires
        incoming_requests@.len() == 0 || thread_count >= 1,
        horizon(incoming_requests.deep_view()) <= u64::MAX,
    ensures
        stats@ == sim_stats(incoming_requests.deep_view(), thread_count as nat),
{
    let ghost rv = incoming_requests.deep_view();
    let ghost init = init_state(thread_count as nat);
    let mut threads = create_threads(thread_count);
    let mut stats = Stats::empty();
    let mut clock: u64 = 0;
    proof {
        assert(reqs_nonneg(rv));
        assert(rv.skip(0) =~= rv);
        assert(busy_of(threads@) =~= init.busy);
        lemma_total_duration_nonneg(rv);
        lemma_max_arrival_nonneg(rv);
        let cur = SimState { clock: clock as int, busy: busy_of(threads@), stats: stats@ };
        assert(cur =~= init);
    }
    let n = incoming_requests.len();
    let mut idx: usize = 0;
    while idx < n
        invariant
            n == incoming_requests@.len(),
            rv == incoming_requests.deep_view(),
            reqs_nonneg(rv),
            0 <= idx <= n,
            n > 0 ==> thread_count >= 1,
            threads@.len() == thread_count as int,
            horizon(rv) <= u64::MAX,
            0 <= total_duration(rv.skip(idx as int)) <= total_duration(rv),
            sim_from(init, rv) == sim_from(
                SimState { clock: clock as int, busy: busy_of(threads@), stats: stats@ },
                rv.skip(idx as int),
            ),
            state_bounded(
                SimState { clock: clock as int, busy: busy_of(threads@), stats: stats@ },
                max_arrival(rv) + total_duration(rv) - total_duration(rv.skip(idx as int)),
            ),
        decreases n - idx,
    {
        let ghost s_pre = SimState { clock: clock as int, busy: busy_of(threads@), stats: stats@ };
        let ghost rq = rv[idx as int];
        let ghost bound = max_arrival(rv) + total_duration(rv) - total_duration(
            rv.skip(idx as int),
        );
        let arrived = incoming_requests[idx].arrived;
        let duration = incoming_requests[idx].duration;
        proof {
            assert(rq == SimReq { arrived: arrived as int, duration: duration as int });
            assert(rv.skip(idx as int).drop_first() =~= rv.skip(idx as int + 1));
            assert(rv.skip(idx as int)[0] == rq);
            assert(reqs_nonneg(rv.skip(idx as int + 1)));
            lemma_total_duration_nonneg(rv.skip(idx as int + 1));
            lemma_max_arrival_index(rv, idx as int);
            lemma_total_duration_nonneg(rv);
            lemma_sim_step_bounded(s_pre, rq, bound);
            assert(max_i(bound, rq.arrived) == bound);
            assert(max_i(bound, rq.arrived) + rq.duration == max_arrival(rv) + total_duration(rv)
                - total_duration(rv.skip(idx as int + 1)));
        }
        let ghost t = dispatch_time(s_pre, rq);
        stats.update_time_to_send(arrived);
        if arrived > clock {
            clock = arrived;
        }
        let mut avail = get_first_available_thread(&threads, clock);
        while avail.is_none()
            invariant
                threads@.len() == thread_count as int,
                thread_count >= 1,
                busy_of(threads@) == s_pre.busy,
                t == dispatch_time(s_pre, rq),
                t <= u64::MAX,
                max_i(s_pre.clock, rq.arrived) <= clock as int <= t,
                match avail {
                    Some(i) => first_free(s_pre.busy, clock as int) == Some(i as int),
                    None => first_free(s_pre.busy, clock as int) is None,
                },
            decreases t - clock as int,
        {
            proof {
                lemma_first_free(s_pre.busy, clock as int);
                lemma_min_busy_in(s_pre.busy);
                assert(min_busy(s_pre.busy) > clock as int);
            }
            clock = clock + 1;
            avail = get_first_available_thread(&threads, clock);
        }
        let i = avail.unwrap();
        proof {
            lemma_first_free(s_pre.busy, clock as int);
            lemma_min_busy_in(s_pre.busy);
            let w = choose|w: int|
                0 <= w < s_pre.busy.len() && s_pre.busy[w] == min_busy(s_pre.busy);
            assert(s_pre.busy[i as int] <= clock as int);
            lemma_min_busy_le(s_pre.busy, i as int);
            assert(clock as int == t);
        }
        let end = clock + duration;
        let th = &mut threads[i];
        th.busy_until = end;
        stats.update_time_to_process(end);
        stats.update_max_latency(clock - arrived);
        proof {
            let cur = SimState { clock: clock as int, busy: busy_of(threads@), stats: stats@ };
            let stepped = sim_step(s_pre, rq);
            assert(first_free(s_pre.busy, t) == Some(i as int));
            assert(busy_of(threads@) =~= s_pre.busy.update(i as int, t + rq.duration));
            assert(cur =~= stepped);
            assert(sim_from(s_pre, rv.skip(idx as int)) == sim_from(
                stepped,
                rv.skip(idx as int + 1),
            ));
        }
        idx = idx + 1;
    }
    proof {
        assert(rv.skip(n as int) =~= Seq::<SimReq>::empty());
    }
    stats
}

} // verus!
