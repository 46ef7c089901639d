use os_kernel::syscall::sync::{
    check_request,
    sys_condvar_create, sys_condvar_signal, sys_condvar_wait, sys_enable_deadlock_detect,
    sys_mutex_create, sys_mutex_lock, sys_mutex_unlock, sys_semaphore_create,
    sys_semaphore_down, sys_semaphore_up, sys_sleep, MutexKind, ProcessSync, DEADLOCK_CODE,
};

#[test]
fn deadlock_code_value() {
    assert_eq!(DEADLOCK_CODE, -0xdead);
}

#[test]
fn mutex_create_fills_first_free_slot() {
    let mut p = ProcessSync::new();
    assert_eq!(sys_mutex_create(&mut p, false), 0);
    assert_eq!(sys_mutex_create(&mut p, true), 1);
    assert_eq!(sys_mutex_create(&mut p, true), 2);
    assert_eq!(p.mutex_list[0], Some(MutexKind::Spin));
    assert_eq!(p.mutex_list[1], Some(MutexKind::Blocking));
    p.mutex_list[1] = None;
    assert_eq!(sys_mutex_create(&mut p, false), 1);
    assert_eq!(p.mutex_list[1], Some(MutexKind::Spin));
    assert_eq!(p.mutex_list.len(), 3);
    assert_eq!(p.banker.available_of(1), Some(1));
    assert_eq!(p.banker.available_of(2), Some(1));
}

#[test]
fn lock_without_detection_leaves_banker_alone() {
    let mut p = ProcessSync::new();
    sys_mutex_create(&mut p, true);
    p.banker.register_thread(1);
    assert_eq!(sys_mutex_lock(&mut p, 1, 0), 0);
    assert_eq!(p.banker.available_of(0), Some(1));
    assert_eq!(p.banker.need_of(1, 0), None);
    assert_eq!(sys_mutex_unlock(&mut p, 0), 0);
    assert_eq!(p.banker.available_of(0), Some(1));
}

#[test]
fn lock_then_unlock_with_detection() {
    let mut p = ProcessSync::new();
    assert_eq!(sys_enable_deadlock_detect(&mut p, 1), 0);
    assert!(p.enable_deadlock_detect);
    sys_mutex_create(&mut p, true);
    p.banker.register_thread(1);
    assert_eq!(sys_mutex_lock(&mut p, 1, 0), 0);
    assert_eq!(p.banker.available_of(0), Some(0));
    assert_eq!(p.banker.allocation_of(1, 0), Some(1));
    assert_eq!(p.banker.need_of(1, 0), Some(0));
    assert_eq!(sys_mutex_unlock(&mut p, 0), 0);
    assert_eq!(p.banker.available_of(0), Some(1));
    assert_eq!(p.banker.allocation_of(1, 0), Some(1));
}

#[test]
fn enable_deadlock_detect_only_for_one() {
    let mut p = ProcessSync::new();
    sys_enable_deadlock_detect(&mut p, 2);
    assert!(!p.enable_deadlock_detect);
    sys_enable_deadlock_detect(&mut p, 1);
    assert!(p.enable_deadlock_detect);
    sys_enable_deadlock_detect(&mut p, 0);
    assert!(!p.enable_deadlock_detect);
}

#[test]
fn lock_in_unsafe_state_reports_deadlock() {
    let mut p = ProcessSync::new();
    sys_enable_deadlock_detect(&mut p, 1);
    sys_mutex_create(&mut p, true);
    sys_mutex_create(&mut p, true);
    p.banker.register_thread(1);
    p.banker.register_thread(2);
    assert_eq!(sys_mutex_lock(&mut p, 1, 0), 0);
    assert_eq!(sys_mutex_lock(&mut p, 2, 1), 0);
    // Both mutexes are taken; thread 1 now wants mutex 1 as well while
    // thread 2 still wants nothing more, so the banker lets thread 2 finish
    // first and grants it.
    assert_eq!(sys_mutex_lock(&mut p, 1, 1), 0);
    assert_eq!(p.banker.available_of(1), Some(-1));
    // Now nobody can finish.
    p.banker.increase_need(2, 0, 1);
    p.banker.increase_need(1, 1, 1);
    assert_eq!(sys_mutex_lock(&mut p, 2, 0), DEADLOCK_CODE);
    assert_eq!(p.banker.need_of(2, 0), Some(2));
    assert_eq!(p.banker.available_of(0), Some(0));
}

#[test]
fn semaphore_create_registers_count() {
    let mut p = ProcessSync::new();
    assert_eq!(sys_semaphore_create(&mut p, 3), 0);
    assert_eq!(sys_semaphore_create(&mut p, 0), 1);
    assert_eq!(p.semaphore_list[0], Some(3));
    assert_eq!(p.semaphore_list[1], Some(0));
    assert_eq!(p.banker.available_of(0), Some(3));
    assert_eq!(p.banker.available_of(1), Some(0));
    p.semaphore_list[0] = None;
    assert_eq!(sys_semaphore_create(&mut p, 5), 0);
    assert_eq!(p.banker.available_of(0), Some(5));
}

#[test]
fn semaphore_down_on_empty_semaphore_reports_deadlock() {
    let mut p = ProcessSync::new();
    sys_enable_deadlock_detect(&mut p, 1);
    sys_semaphore_create(&mut p, 1);
    sys_semaphore_create(&mut p, 0);
    p.banker.register_thread(1);
    assert_eq!(sys_semaphore_down(&mut p, 1, 1), DEADLOCK_CODE);
    assert_eq!(p.banker.need_of(1, 1), Some(1));
    assert_eq!(sys_semaphore_up(&mut p, 1), 0);
    assert_eq!(p.banker.available_of(1), Some(1));
    // The refused request left its need behind: two units are wanted now.
    assert_eq!(sys_semaphore_down(&mut p, 1, 1), DEADLOCK_CODE);
    assert_eq!(p.banker.need_of(1, 1), Some(2));
    assert_eq!(sys_semaphore_up(&mut p, 1), 0);
    assert_eq!(sys_semaphore_up(&mut p, 1), 0);
    assert_eq!(p.banker.available_of(1), Some(3));
    assert_eq!(sys_semaphore_down(&mut p, 1, 1), 0);
    assert_eq!(p.banker.available_of(1), Some(2));
    assert_eq!(p.banker.allocation_of(1, 1), Some(1));
    assert_eq!(p.banker.need_of(1, 1), Some(2));
}

#[test]
fn semaphore_zero_bypasses_the_banker() {
    let mut p = ProcessSync::new();
    sys_enable_deadlock_detect(&mut p, 1);
    sys_semaphore_create(&mut p, 0);
    p.banker.register_thread(1);
    assert_eq!(sys_semaphore_down(&mut p, 1, 0), 0);
    assert_eq!(p.banker.need_of(1, 0), None);
    assert_eq!(sys_semaphore_up(&mut p, 0), 0);
    assert_eq!(p.banker.available_of(0), Some(0));
}

#[test]
fn condvar_create_signal_wait() {
    let mut p = ProcessSync::new();
    assert_eq!(sys_condvar_create(&mut p), 0);
    assert_eq!(sys_condvar_create(&mut p), 1);
    p.condvar_list[0] = false;
    assert_eq!(sys_condvar_create(&mut p), 0);
    assert_eq!(p.condvar_list.len(), 2);
    sys_mutex_create(&mut p, true);
    assert_eq!(sys_condvar_signal(&p, 1), 0);
    assert_eq!(sys_condvar_wait(&p, 1, 0), 0);
}

#[test]
fn sleep_deadline() {
    assert_eq!(sys_sleep(1000, 250), 1250);
    assert_eq!(sys_sleep(0, 0), 0);
}

#[test]
fn check_request_matches_what_lock_needs() {
    let mut p = ProcessSync::new();
    sys_enable_deadlock_detect(&mut p, 1);
    sys_mutex_create(&mut p, true);
    // An unregistered thread would leave a need row with no allocation row.
    assert!(!check_request(&p, 1, 0));
    p.banker.register_thread(1);
    assert!(check_request(&p, 1, 0));
    // A request for an unregistered resource leaves an unsafe state: the
    // banker refuses it rather than failing.
    assert!(check_request(&p, 1, 5));
    assert_eq!(sys_mutex_lock(&mut p, 1, 0), 0);
}
