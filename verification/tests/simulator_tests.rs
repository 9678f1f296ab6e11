use latsim::load_requests::create_request_queue;
use latsim::simulator::{
    create_threads, get_first_available_thread, interval_between_requests, run, NullObserver,
};
use latsim::types::{Request, Stats, Thread};

#[test]
fn simulator_request_new() {
    let request = Request::new(1, 2, b"".to_vec());
    assert_eq!(request.duration, 1);
    assert_eq!(request.arrived, 2);
}

#[test]
fn simulator_thread_new() {
    let thread = Thread::new();
    assert_eq!(thread.busy_until, 0);
}

#[test]
fn simulator_create_request_queue_basic() {
    let queue = create_request_queue(1, 100, 0);
    assert_eq!(queue.len(), 1);

    let r0 = &queue[0];
    assert_eq!(r0.arrived, 0);
    assert_eq!(r0.duration, 100);
}

#[test]
fn simulator_create_request_queue_with_rate_eq_zero() {
    let queue = create_request_queue(2, 100, 0);
    assert_eq!(queue.len(), 2);
    assert_eq!(
        queue,
        vec![
            Request::new(100, 0, b"#req0".to_vec()),
            Request::new(100, 0, b"#req1".to_vec()),
        ]
    );
}

#[test]
fn simulator_create_threads_basic() {
    let threads = create_threads(2);
    assert_eq!(threads.len(), 2);
}

#[test]
fn simulator_get_first_available_thread_basic() {
    let threads = create_threads(2);

    assert_eq!(get_first_available_thread(&threads, 0), Some(0));
}

#[test]
fn simulator_get_first_available_thread_with_one_busy() {
    let mut threads = create_threads(2);
    threads[0].busy_until = 100;

    assert_eq!(get_first_available_thread(&threads, 0), Some(1));

    assert_eq!(get_first_available_thread(&threads, 100), Some(0));
}

#[test]
fn simulator_get_first_available_thread_with_two_busy() {
    let mut threads = create_threads(2);
    threads[0].busy_until = 100;
    threads[1].busy_until = 50;

    assert_eq!(get_first_available_thread(&threads, 0), None);

    assert_eq!(get_first_available_thread(&threads, 50), Some(1));

    assert_eq!(get_first_available_thread(&threads, 100), Some(0));
}

#[test]
fn simulator_simulate_basic_1() {
    let r = create_request_queue(1, 0, interval_between_requests(0));
    let s = run(&r, 1, &mut NullObserver);
    assert_eq!(s, Stats::new(0, 0, 0));
}

#[test]
fn simulator_simulate_basic_2() {
    let r = create_request_queue(2, 1000, interval_between_requests(1));
    let s = run(&r, 1, &mut NullObserver);
    assert_eq!(s, Stats::new(0, 1000, 2000));
}

#[test]
fn simulator_simulate_basic_3() {
    let r = create_request_queue(2, 1000, interval_between_requests(2));
    let s = run(&r, 1, &mut NullObserver);
    assert_eq!(s, Stats::new(500, 500, 2000));
}

#[test]
fn simulator_simulate_basic_4() {
    let r = create_request_queue(100, 1000, interval_between_requests(0));
    let s = run(&r, 100, &mut NullObserver);
    assert_eq!(s, Stats::new(0, 0, 1000));
}

#[test]
fn simulator_simulate_basic_5() {
    let r = create_request_queue(100, 1000, interval_between_requests(0));
    let s = run(&r, 50, &mut NullObserver);
    assert_eq!(s, Stats::new(1000, 0, 2000));
}

#[test]
fn simulator_simulate_basic_6() {
    let r = create_request_queue(101, 1000, interval_between_requests(0));
    let s = run(&r, 50, &mut NullObserver);
    assert_eq!(s, Stats::new(2000, 0, 3000));
}

#[test]
fn simulator_simulate_basic_7() {
    let r = create_request_queue(3, 11, interval_between_requests(100));
    let s = run(&r, 1, &mut NullObserver);
    assert_eq!(s, Stats::new(2, 20, 33));
}
