//! Data types of the observable simulation: requests that carry a display
//! name, workers that remember their current assignment for rendering, and
//! the statistics accumulator.

use vstd::prelude::*;
use crate::model::{SimReq, SimStats, max_i};

verus! {

/// Abstract value of a [`Request`].
#[verifier::ext_equal]
pub ghost struct ReqV {
    pub arrived: int,
    pub duration: int,
    pub name: Seq<u8>,
}

/// What the engine reads of a request: its name is display-only.
pub open spec fn sim_req_of(r: ReqV) -> SimReq {
    SimReq { arrived: r.arrived, duration: r.duration }
}

/// An immutable request: processing duration and arrival time in
/// milliseconds of virtual time, and a name used only for display.
#[derive(Debug, Clone)]
pub struct Request {
    pub duration: u64,
    pub arrived: u64,
    pub name: Vec<u8>,
}

impl View for Request {
    type V = ReqV;

    open spec fn view(&self) -> ReqV {
        ReqV {
            arrived: self.arrived as int,
            duration: self.duration as int,
            name: self.name@,
        }
    }
}

impl DeepView for Request {
    type V = ReqV;

    open spec fn deep_view(&self) -> ReqV {
        self.view()
    }
}

impl Request {
    pub fn new(duration: u64, arrived: u64, name: Vec<u8>) -> (r: Request)
        ensures
            r.duration == duration,
            r.arrived == arrived,
            r.name@ == name@,
    {
        Request { duration, arrived, name }
    }
}

impl PartialEq for Request {
    fn eq(&self, other: &Request) -> (r: bool)
        ensures
            r == (self@ =~= other@),
    {
        if !(self.duration == other.duration && self.arrived == other.arrived) {
            return false;
        }
        if self.name.len() != other.name.len() {
            return false;
        }
        let n = self.name.len();
        let mut k: usize = 0;
        while k < n
            invariant
                n == self.name@.len() == other.name@.len(),
                0 <= k <= n,
                forall|j: int| 0 <= j < k ==> self.name@[j] == other.name@[j],
            decreases n - k,
        {
            if self.name[k] != other.name[k] {
                return false;
            }
            k = k + 1;
        }
        proof {
            assert(self.name@ =~= other.name@);
        }
        true
    }
}

impl vstd::std_specs::cmp::PartialEqSpecImpl for Request {
    open spec fn obeys_eq_spec() -> bool {
        true
    }

    open spec fn eq_spec(&self, other: &Request) -> bool {
        self@ =~= other@
    }
}

/// A simulated worker: free again once the virtual clock reaches
/// `busy_until`; `start` and `task_name` describe its current or most
/// recent assignment and exist only for rendering.
#[derive(Debug)]
pub struct Thread {
    pub start: u64,
    pub busy_until: u64,
    pub task_name: Vec<u8>,
}

impl Thread {
    pub fn new() -> (t: Thread)
        ensures
            t.start == 0,
            t.busy_until == 0,
            t.task_name@ == Seq::<u8>::empty(),
    {
        Thread { start: 0, busy_until: 0, task_name: Vec::new() }
    }

    /// Record an assignment running from `start_` until `busy_until_`.
    /// Callers must have checked availability: nothing is validated here.
    pub fn update(&mut self, start_: u64, busy_until_: u64, task_name_: Vec<u8>)
        ensures
            final(self).start == start_,
            final(self).busy_until == busy_until_,
            final(self).task_name@ == task_name_@,
    {
        self.start = start_;
        self.busy_until = busy_until_;
        self.task_name = task_name_;
    }
}

/// The aggregate statistics of one run: the worst queueing latency, the last
/// arrival time, and the last completion time observed. Each update takes a
/// maximum with the previous value, so every field only ever grows.
#[derive(PartialEq, Eq, Structural, Debug)]
pub struct Stats {
    pub max_latency: u64,
    pub time_to_send: u64,
    pub time_to_process: u64,
}

impl View for Stats {
    type V = SimStats;

    open spec fn view(&self) -> SimStats {
        SimStats {
            max_latency: self.max_latency as int,
            time_to_send: self.time_to_send as int,
            time_to_process: self.time_to_process as int,
        }
    }
}

impl Stats {
    pub fn new(max_latency: u64, time_to_send: u64, time_to_process: u64) -> (s: Stats)
        ensures
            s.max_latency == max_latency,
            s.time_to_send == time_to_send,
            s.time_to_process == time_to_process,
    {
        Stats { max_latency, time_to_send, time_to_process }
    }

    pub fn empty() -> (s: Stats)
        ensures
            s.max_latency == 0,
            s.time_to_send == 0,
            s.time_to_process == 0,
    {
        Stats { max_latency: 0, time_to_send: 0, time_to_process: 0 }
    }

    pub fn update_max_latency(&mut self, latency: u64)
        ensures
            final(self).max_latency == max_i(old(self).max_latency as int, latency as int),
            final(self).time_to_send == old(self).time_to_send,
            final(self).time_to_process == old(self).time_to_process,
    {
        if latency > self.max_latency {
            self.max_latency = latency;
        }
    }

    pub fn update_time_to_send(&mut self, clock: u64)
        ensures
            final(self).time_to_send == max_i(old(self).time_to_send as int, clock as int),
            final(self).max_latency == old(self).max_latency,
            final(self).time_to_process == old(self).time_to_process,
    {
        if clock > self.time_to_send {
            self.time_to_send = clock;
        }
    }

    pub fn update_time_to_process(&mut self, clock: u64)
        ensures
            final(self).time_to_process == max_i(old(self).time_to_process as int, clock as int),
            final(self).max_latency == old(self).max_latency,
            final(self).time_to_send == old(self).time_to_send,
    {
        if clock > self.time_to_process {
            self.time_to_process = clock;
        }
    }
}

} // verus!
