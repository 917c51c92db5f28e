use rcore_os::deadlock::{
    allocate, check, dealloc, init_avail, mutex_res_id, request, sem_res_id, DLData, M, MAX_MUTEX, N,
};

fn snapshot(dl: &DLData) -> Vec<i32> {
    let mut v = Vec::new();
    for r in 0..M {
        v.push(dl.get_avail(r));
    }
    for t in 0..N {
        for r in 0..M {
            v.push(dl.get_alloc(t, r));
            v.push(dl.get_need(t, r));
        }
    }
    v
}

#[test]
fn resource_ids() {
    assert_eq!(mutex_res_id(0), 0);
    assert_eq!(mutex_res_id(7), 7);
    assert_eq!(sem_res_id(0), MAX_MUTEX);
    assert_eq!(sem_res_id(2), 18);
}

#[test]
fn new_detector_is_safe_and_empty() {
    let dl = DLData::new();
    assert!(dl.safe());
    for r in 0..M {
        assert_eq!(dl.get_avail(r), 1);
    }
    assert_eq!(dl.get_alloc(5, 3), 0);
    assert_eq!(dl.get_need(127, 31), 0);
}

#[test]
fn init_avail_only_first_time() {
    let mut dl = DLData::new();
    init_avail(&mut dl, 16, 3);
    assert_eq!(dl.get_avail(16), 3);
    init_avail(&mut dl, 16, 5);
    assert_eq!(dl.get_avail(16), 3);
}

#[test]
fn request_adds_to_need() {
    let mut dl = DLData::new();
    request(&mut dl, 4, 2, 1);
    request(&mut dl, 4, 2, 2);
    assert_eq!(dl.get_need(4, 2), 3);
    assert_eq!(dl.get_avail(2), 1);
}

#[test]
fn allocate_moves_units() {
    let mut dl = DLData::new();
    request(&mut dl, 1, 0, 1);
    allocate(&mut dl, 1, 0, 1);
    assert_eq!(dl.get_avail(0), 0);
    assert_eq!(dl.get_alloc(1, 0), 1);
    assert_eq!(dl.get_need(1, 0), 0);
}

#[test]
fn dealloc_undoes_allocate() {
    let mut dl = DLData::new();
    init_avail(&mut dl, 17, 4);
    request(&mut dl, 3, 17, 2);
    let before = snapshot(&dl);
    allocate(&mut dl, 3, 17, 2);
    assert_ne!(snapshot(&dl), before);
    dealloc(&mut dl, 3, 17, 2);
    assert_eq!(snapshot(&dl), before);
}

#[test]
fn allocate_keeps_total() {
    let mut dl = DLData::new();
    init_avail(&mut dl, 20, 6);
    let total = |dl: &DLData| -> i64 {
        let mut t = dl.get_avail(20) as i64;
        for p in 0..N {
            t += dl.get_alloc(p, 20) as i64;
        }
        t
    };
    assert_eq!(total(&dl), 6);
    allocate(&mut dl, 2, 20, 4);
    allocate(&mut dl, 9, 20, 1);
    assert_eq!(total(&dl), 6);
    dealloc(&mut dl, 2, 20, 3);
    assert_eq!(total(&dl), 6);
}

#[test]
fn check_refuses_when_not_enough_free() {
    let mut dl = DLData::new();
    allocate(&mut dl, 1, 0, 1);
    request(&mut dl, 2, 0, 1);
    assert!(!check(&mut dl, 2, 0, 1));
}

#[test]
fn check_grants_safe_and_refuses_unsafe() {
    let mut dl = DLData::new();
    let sem = sem_res_id(0);
    init_avail(&mut dl, sem, 2);
    request(&mut dl, 1, sem, 2);
    request(&mut dl, 2, sem, 2);
    // Giving one unit to thread 1 leaves a way out: thread 1 can still finish.
    assert!(check(&mut dl, 1, sem, 1));
    allocate(&mut dl, 1, sem, 1);
    // Giving the last unit to thread 2 leaves both waiting for one more.
    assert!(!check(&mut dl, 2, sem, 1));
    // Thread 1 may take the last unit and finish.
    assert!(check(&mut dl, 1, sem, 1));
}

#[test]
fn check_leaves_tables_unchanged() {
    let mut dl = DLData::new();
    let sem = sem_res_id(1);
    init_avail(&mut dl, sem, 3);
    request(&mut dl, 5, sem, 2);
    allocate(&mut dl, 6, sem, 1);
    let before = snapshot(&dl);
    let _ = check(&mut dl, 5, sem, 2);
    assert_eq!(snapshot(&dl), before);
    let _ = check(&mut dl, 5, sem, 9);
    assert_eq!(snapshot(&dl), before);
}

#[test]
fn deadlocked_state_is_unsafe() {
    let mut dl = DLData::new();
    // Thread 1 holds mutex 0 and waits for mutex 1; thread 2 the other way round.
    allocate(&mut dl, 1, 0, 1);
    allocate(&mut dl, 2, 1, 1);
    request(&mut dl, 1, 1, 1);
    request(&mut dl, 2, 0, 1);
    assert!(!dl.safe());
    dealloc(&mut dl, 2, 1, 1);
    assert!(dl.safe());
}

#[test]
fn negative_holding_counts_when_finishing() {
    let mut dl = DLData::new();
    // Thread 0 gives back a unit it never took: it holds -1 and needs 1.
    dealloc(&mut dl, 0, 0, 1);
    request(&mut dl, 0, 0, -1);
    assert_eq!(dl.get_alloc(0, 0), -1);
    assert_eq!(dl.get_need(0, 0), 0);
    assert!(dl.safe());
}

fn negative_state(free: i32) -> DLData {
    let mut dl = DLData::new();
    let sem = sem_res_id(0);
    dealloc(&mut dl, 0, sem, 5);
    request(&mut dl, 0, sem, -2);
    allocate(&mut dl, 1, sem, 1);
    request(&mut dl, 1, sem, 3);
    init_avail(&mut dl, sem, free);
    dl
}

#[test]
fn search_follows_thread_order_with_negative_holdings() {
    // Thread 0 holds -5 and needs 3; thread 1 holds 1 and needs 2.
    let low = negative_state(2);
    assert_eq!(low.get_need(0, sem_res_id(0)), 3);
    assert_eq!(low.get_need(1, sem_res_id(0)), 2);
    assert!(low.safe());
    // One more free unit lets thread 0 finish first, which leaves too little.
    let high = negative_state(3);
    assert!(!high.safe());
}
