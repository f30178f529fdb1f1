use rcore_os::deadlock::{DeadLockDetector, DeadlockDetectorInner};

fn total(d: &DeadlockDetectorInner, r: usize) -> usize {
    d.available[r] + d.allocation.iter().map(|row| row[r]).sum::<usize>()
}

#[test]
fn new_detector_is_empty_and_disabled() {
    let d = DeadlockDetectorInner::new();
    assert!(!d.enabled);
    assert!(d.available.is_empty());
    assert_eq!(d.allocation, vec![Vec::<usize>::new()]);
    assert_eq!(d.request, vec![Vec::<usize>::new()]);
    assert_eq!(d.thread_count, 1);
    assert_eq!(d.resource_count, 0);
}

#[test]
fn create_resource_grows_every_matrix() {
    let mut d = DeadlockDetectorInner::new();
    d.create_resource(2, 5);
    assert_eq!(d.resource_count, 3);
    assert_eq!(d.available, vec![0, 0, 5]);
    assert_eq!(d.allocation, vec![vec![0, 0, 0]]);
    assert_eq!(d.request, vec![vec![0, 0, 0]]);
}

#[test]
fn create_resource_again_resets_it() {
    let mut d = DeadlockDetectorInner::new();
    d.create_resource(0, 3);
    d.create_resource(1, 1);
    assert!(d.request_resource(0, 0, 2));
    d.create_resource(0, 4);
    assert_eq!(d.available, vec![4, 1]);
    assert_eq!(d.allocation, vec![vec![0, 0]]);
    assert_eq!(d.resource_count, 2);
}

#[test]
fn disabled_request_is_always_served() {
    let mut d = DeadlockDetectorInner::new();
    d.create_resource(0, 3);
    assert!(d.request_resource(0, 0, 2));
    assert_eq!(d.available, vec![1]);
    assert_eq!(d.allocation, vec![vec![2]]);
    assert_eq!(d.request, vec![vec![0]]);
}

#[test]
fn release_more_than_held_is_refused() {
    let mut d = DeadlockDetectorInner::new();
    d.create_resource(0, 3);
    assert!(d.request_resource(0, 0, 1));
    assert!(!d.release_resource(0, 0, 2));
    assert_eq!(d.available, vec![2]);
    assert_eq!(d.allocation, vec![vec![1]]);
}

#[test]
fn release_undoes_a_served_request() {
    let mut d = DeadlockDetectorInner::new();
    d.create_resource(0, 3);
    d.enabled = true;
    let before = d.clone();
    assert!(d.request_resource(0, 0, 2));
    assert_eq!(d.allocation, vec![vec![2]]);
    assert!(d.release_resource(0, 0, 2));
    assert_eq!(d.available, before.available);
    assert_eq!(d.allocation, before.allocation);
    assert_eq!(d.request, before.request);
}

#[test]
fn accepted_request_waits_when_units_are_busy() {
    let mut d = DeadlockDetectorInner::new();
    d.thread_join(1);
    d.create_resource(0, 1);
    d.enabled = true;
    assert!(d.request_resource(0, 0, 1));
    assert_eq!(d.available, vec![0]);
    // thread 0 can finish and free the unit, so thread 1 may wait for it
    assert!(d.request_resource(1, 0, 1));
    assert_eq!(d.available, vec![0]);
    assert_eq!(d.allocation, vec![vec![1], vec![0]]);
    assert_eq!(d.request, vec![vec![0], vec![1]]);
}

#[test]
fn request_that_would_deadlock_is_refused() {
    let mut d = DeadlockDetectorInner::new();
    d.thread_join(1);
    d.create_resource(0, 1);
    d.create_resource(1, 1);
    d.enabled = true;
    assert!(d.request_resource(0, 0, 1));
    assert!(d.request_resource(1, 1, 1));
    // thread 1 waits for what thread 0 holds
    assert!(d.request_resource(1, 0, 1));
    let before = d.clone();
    // thread 0 asking for what thread 1 holds closes the cycle
    assert!(!d.request_resource(0, 1, 1));
    assert_eq!(d.available, before.available);
    assert_eq!(d.allocation, before.allocation);
    assert_eq!(d.request, before.request);
    assert_eq!(d.request, vec![vec![0, 0], vec![1, 0]]);
}

#[test]
fn safety_does_not_depend_on_thread_order() {
    let mut d = DeadlockDetectorInner::new();
    d.thread_join(1);
    d.create_resource(0, 1);
    assert!(d.request_resource(1, 0, 1));
    d.enabled = true;
    // thread 0 waits; only thread 1 can finish first, then thread 0 can
    assert!(d.request_resource(0, 0, 1));
    assert_eq!(d.request, vec![vec![1], vec![0]]);
}

#[test]
fn thread_exit_frees_what_it_held() {
    let mut d = DeadlockDetectorInner::new();
    d.thread_join(1);
    d.create_resource(0, 4);
    assert!(d.request_resource(1, 0, 3));
    d.request[1][0] = 2;
    d.thread_exit(1);
    assert_eq!(d.available, vec![4]);
    assert_eq!(d.allocation, vec![vec![0], vec![0]]);
    assert_eq!(d.request, vec![vec![0], vec![0]]);
}

#[test]
fn thread_join_adds_threads_up_to_the_id() {
    let mut d = DeadlockDetectorInner::new();
    d.create_resource(1, 2);
    d.thread_join(3);
    assert_eq!(d.thread_count, 4);
    assert_eq!(d.allocation, vec![vec![0, 0]; 4]);
    assert_eq!(d.request, vec![vec![0, 0]; 4]);
}

#[test]
fn thread_join_of_known_thread_clears_it() {
    let mut d = DeadlockDetectorInner::new();
    d.thread_join(1);
    d.create_resource(0, 2);
    assert!(d.request_resource(1, 0, 2));
    let mut e = d.clone();
    d.thread_join(1);
    e.thread_exit(1);
    assert_eq!(d.thread_count, 2);
    assert_eq!(d.available, e.available);
    assert_eq!(d.allocation, e.allocation);
    assert_eq!(d.request, e.request);
}

#[test]
fn totals_are_kept_by_requests_releases_and_exits() {
    let mut d = DeadlockDetectorInner::new();
    d.thread_join(2);
    d.create_resource(0, 5);
    d.create_resource(1, 3);
    let t0 = total(&d, 0);
    let t1 = total(&d, 1);
    assert!(d.request_resource(1, 0, 2));
    assert!(d.request_resource(2, 1, 3));
    d.enabled = true;
    assert!(d.request_resource(0, 0, 1));
    assert!(d.release_resource(1, 0, 1));
    d.thread_exit(2);
    d.thread_join(1);
    assert_eq!(total(&d, 0), t0);
    assert_eq!(total(&d, 1), t1);
}

#[test]
fn detector_hands_out_its_inner_state() {
    let mut d = DeadLockDetector::new();
    d.inner_exclusive_access().create_resource(0, 1);
    assert!(d.inner_exclusive_access().request_resource(0, 0, 1));
    assert_eq!(d.inner_exclusive_access().available, vec![0]);
}

#[test]
fn exit_of_the_holder_lets_a_refused_request_through() {
    let mut d = DeadlockDetectorInner::new();
    d.thread_join(1);
    d.create_resource(0, 1);
    d.create_resource(1, 1);
    d.enabled = true;
    assert!(d.request_resource(0, 0, 1));
    assert!(d.request_resource(1, 1, 1));
    assert!(d.request_resource(1, 0, 1));
    assert!(!d.request_resource(0, 1, 1));
    d.thread_exit(1);
    assert_eq!(d.available, vec![0, 1]);
    assert!(d.request_resource(0, 1, 1));
    assert_eq!(d.allocation, vec![vec![1, 1], vec![0, 0]]);
}

#[test]
fn release_then_request_again_is_served() {
    let mut d = DeadlockDetectorInner::new();
    d.thread_join(1);
    d.create_resource(0, 2);
    d.enabled = true;
    assert!(d.request_resource(0, 0, 2));
    assert!(d.release_resource(0, 0, 1));
    assert!(d.request_resource(1, 0, 1));
    assert_eq!(d.available, vec![0]);
    assert_eq!(d.allocation, vec![vec![1], vec![1]]);
}

#[test]
fn new_threads_do_not_block_requests() {
    let mut d = DeadlockDetectorInner::new();
    d.create_resource(0, 1);
    d.enabled = true;
    d.thread_join(4);
    assert!(d.request_resource(3, 0, 1));
    assert_eq!(d.allocation[3], vec![1]);
}

#[test]
fn smaller_request_accepted_where_larger_is() {
    let mut d = DeadlockDetectorInner::new();
    d.thread_join(1);
    d.create_resource(0, 3);
    d.enabled = true;
    assert!(d.request_resource(1, 0, 1));
    let mut e = d.clone();
    assert!(d.request_resource(0, 0, 2));
    assert!(e.request_resource(0, 0, 1));
}

#[test]
fn creating_a_resource_twice_is_creating_it_once() {
    let mut d = DeadlockDetectorInner::new();
    d.create_resource(0, 2);
    assert!(d.request_resource(0, 0, 1));
    d.create_resource(1, 4);
    let mut e = d.clone();
    e.create_resource(1, 4);
    assert_eq!(d.available, e.available);
    assert_eq!(d.allocation, e.allocation);
    assert_eq!(d.request, e.request);
    assert_eq!(d.resource_count, e.resource_count);
}
