use latsim::latency;
use latsim::load_requests::create_request_queue;
use latsim::simulator::{interval_between_requests, requests_horizon, run, NullObserver, Observer};
use latsim::types::{Request, Stats, Thread};

/// Re-running the engine on an identical request sequence and worker count
/// yields identical statistics.
#[test]
fn rerun_is_identical() {
    let r = create_request_queue(7, 13, interval_between_requests(200));
    let first = run(&r, 3, &mut NullObserver);
    let second = run(&r, 3, &mut NullObserver);
    assert_eq!(first, second);

    let q = latency::create_request_queue(7, 13, latency::interval_between_requests(200));
    let a = latency::simulate(&q, 3);
    let b = latency::simulate(&q, 3);
    assert_eq!(a, b);
}

/// The two engine variants agree on the same inputs.
#[test]
fn engine_variants_agree() {
    let named = create_request_queue(9, 250, interval_between_requests(4));
    let plain = latency::create_request_queue(9, 250, latency::interval_between_requests(4));
    let s1 = run(&named, 2, &mut NullObserver);
    let s2 = latency::simulate(&plain, 2);
    assert_eq!(s1.max_latency, s2.max_latency);
    assert_eq!(s1.time_to_send, s2.time_to_send);
    assert_eq!(s1.time_to_process, s2.time_to_process);
}

struct ClockRecorder {
    clocks: Vec<u64>,
    last_latency: u64,
}

impl Observer for ClockRecorder {
    fn on_step(&mut self, clock: u64, _threads: &Vec<Thread>, current_latency: u64) {
        self.clocks.push(clock);
        self.last_latency = current_latency;
    }
}

/// The virtual clock only ever advances: every snapshot an observer receives
/// carries a clock no smaller than the previous one.
#[test]
fn observer_sees_monotone_clock() {
    let r = create_request_queue(5, 100, interval_between_requests(20));
    let mut rec = ClockRecorder { clocks: Vec::new(), last_latency: 0 };
    let s = run(&r, 2, &mut rec);
    assert!(!rec.clocks.is_empty());
    for w in rec.clocks.windows(2) {
        assert!(w[0] <= w[1]);
    }
    assert_eq!(rec.last_latency, s.max_latency);
}

/// Zero requests is a defined degenerate case: all-zero statistics, even
/// with an empty worker pool.
#[test]
fn empty_request_queue() {
    let r: Vec<Request> = Vec::new();
    let s = run(&r, 0, &mut NullObserver);
    assert_eq!(s, Stats::new(0, 0, 0));

    let q: Vec<latency::Request> = Vec::new();
    let s = latency::simulate(&q, 3);
    assert_eq!(s, latency::Stats::new(0, 0, 0));
}

#[test]
fn interval_between_requests_values() {
    assert_eq!(interval_between_requests(0), 0);
    assert_eq!(interval_between_requests(1), 1000);
    assert_eq!(interval_between_requests(2), 500);
    assert_eq!(interval_between_requests(3), 333);
    assert_eq!(interval_between_requests(100), 10);
}

#[test]
fn synthetic_names_follow_index() {
    let queue = create_request_queue(11, 5, 7);
    assert_eq!(queue[0].name, b"#req0".to_vec());
    assert_eq!(queue[9].name, b"#req9".to_vec());
    assert_eq!(queue[10].name, b"#req10".to_vec());
    assert_eq!(queue[10].arrived, 70);
}

#[test]
fn horizon_of_small_queue() {
    let r = vec![
        Request::new(10, 0, b"a".to_vec()),
        Request::new(20, 5, b"b".to_vec()),
    ];
    assert_eq!(requests_horizon(&r), Some(35));
}

#[test]
fn horizon_overflow_is_reported() {
    let r = vec![
        Request::new(u64::MAX, 0, b"a".to_vec()),
        Request::new(1, 0, b"b".to_vec()),
    ];
    assert_eq!(requests_horizon(&r), None);
}

/// Statistics updates are running maxima: a smaller observation never
/// lowers a field.
#[test]
fn stats_updates_take_maxima() {
    let mut s = Stats::empty();
    s.update_max_latency(10);
    s.update_max_latency(4);
    assert_eq!(s.max_latency, 10);
    s.update_time_to_send(7);
    s.update_time_to_send(3);
    assert_eq!(s.time_to_send, 7);
    s.update_time_to_process(42);
    s.update_time_to_process(41);
    assert_eq!(s.time_to_process, 42);
    assert_eq!(s, Stats::new(10, 7, 42));
}

/// A worker pool slot remembers its latest assignment.
#[test]
fn thread_update_records_assignment() {
    let mut t = Thread::new();
    t.update(5, 17, b"job".to_vec());
    assert_eq!(t.start, 5);
    assert_eq!(t.busy_until, 17);
    assert_eq!(t.task_name, b"job".to_vec());
}

/// With capacity for every arrival the worst-case latency is exactly zero;
/// one request over capacity makes it positive.
#[test]
fn latency_zero_iff_capacity_at_arrival() {
    let r = create_request_queue(8, 1000, 0);
    let s = run(&r, 8, &mut NullObserver);
    assert_eq!(s.max_latency, 0);

    let s = run(&r, 7, &mut NullObserver);
    assert_eq!(s.max_latency, 1000);
}
