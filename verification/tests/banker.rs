use os_kernel::id_map::IdMap;
use os_kernel::sync::banker::Banker;

#[test]
fn empty_banker_is_safe() {
    let b = Banker::new();
    assert!(b.is_safe());
    assert_eq!(b.available_of(0), None);
}

#[test]
fn register_resource_sets_total() {
    let mut b = Banker::new();
    b.register_resource(3, 5);
    assert_eq!(b.available_of(3), Some(5));
    b.register_resource(3, 2);
    assert_eq!(b.available_of(3), Some(2));
}

#[test]
fn register_resource_casts_like_isize() {
    let mut b = Banker::new();
    b.register_resource(0, usize::MAX);
    assert_eq!(b.available_of(0), Some(-1));
}

#[test]
fn registered_thread_without_need_is_safe() {
    let mut b = Banker::new();
    b.register_thread(7);
    assert!(b.is_safe());
    assert_eq!(b.allocation_of(7, 0), None);
    assert_eq!(b.need_of(7, 0), None);
}

#[test]
fn increase_need_accumulates() {
    let mut b = Banker::new();
    b.register_thread(1);
    b.increase_need(1, 4, 2);
    assert_eq!(b.need_of(1, 4), Some(2));
    b.increase_need(1, 4, 3);
    assert_eq!(b.need_of(1, 4), Some(5));
    b.increase_need(9, 0, 1);
    assert_eq!(b.need_of(9, 0), Some(1));
}

#[test]
fn increase_available_adds_and_creates() {
    let mut b = Banker::new();
    b.register_resource(0, 1);
    b.increase_available(0, 2);
    assert_eq!(b.available_of(0), Some(3));
    b.increase_available(5, 4);
    assert_eq!(b.available_of(5), Some(4));
}

#[test]
fn need_above_available_is_unsafe() {
    let mut b = Banker::new();
    b.register_resource(0, 0);
    b.register_thread(1);
    b.increase_need(1, 0, 1);
    assert!(!b.is_safe());
}

#[test]
fn refused_request_changes_nothing() {
    let mut b = Banker::new();
    b.register_resource(0, 0);
    b.register_thread(1);
    b.increase_need(1, 0, 1);
    assert!(!b.try_allocate(1, 0, 1));
    assert_eq!(b.available_of(0), Some(0));
    assert_eq!(b.allocation_of(1, 0), None);
    assert_eq!(b.need_of(1, 0), Some(1));
}

#[test]
fn granted_request_moves_units() {
    let mut b = Banker::new();
    b.register_resource(0, 3);
    b.register_thread(1);
    b.increase_need(1, 0, 2);
    assert!(b.try_allocate(1, 0, 2));
    assert_eq!(b.available_of(0), Some(1));
    assert_eq!(b.allocation_of(1, 0), Some(2));
    assert_eq!(b.need_of(1, 0), Some(0));
    assert!(b.try_allocate(1, 0, 1));
    assert_eq!(b.available_of(0), Some(0));
    assert_eq!(b.allocation_of(1, 0), Some(3));
    assert_eq!(b.need_of(1, 0), Some(-1));
}

#[test]
fn grant_without_need_row_entry_leaves_need_alone() {
    let mut b = Banker::new();
    b.register_resource(0, 3);
    b.register_thread(1);
    assert!(b.try_allocate(1, 0, 1));
    assert_eq!(b.need_of(1, 0), None);
    assert_eq!(b.allocation_of(1, 0), Some(1));
    assert_eq!(b.available_of(0), Some(2));
}

#[test]
fn safety_is_checked_before_the_grant() {
    // The check looks at the state before the units are handed out, so a
    // grant can take a resource below zero.
    let mut b = Banker::new();
    b.register_resource(0, 1);
    b.register_thread(1);
    b.register_thread(2);
    b.increase_need(1, 0, 1);
    assert!(b.try_allocate(1, 0, 1));
    b.increase_need(2, 0, 1);
    assert!(b.try_allocate(2, 0, 1));
    assert_eq!(b.available_of(0), Some(-1));
    assert!(!b.is_safe());
}

#[test]
fn released_units_let_a_waiting_thread_finish() {
    // Thread 2 waits for a unit that thread 1 holds; once thread 1 can
    // finish, its units make thread 2 finish too.
    let mut b = Banker::new();
    b.register_resource(0, 1);
    b.register_resource(1, 0);
    b.register_thread(1);
    b.register_thread(2);
    b.increase_need(1, 0, 1);
    assert!(b.try_allocate(1, 0, 1));
    b.increase_need(2, 0, 1);
    assert!(b.is_safe());
    b.increase_need(1, 1, 1);
    assert!(!b.is_safe());
    b.increase_available(1, 1);
    assert!(b.is_safe());
}

#[test]
fn later_thread_finishing_first_frees_an_earlier_one() {
    // Thread 1 can only finish after thread 2 has given its units back: a
    // second pass over the rows is needed.
    let mut b = Banker::new();
    b.register_resource(0, 1);
    b.register_thread(1);
    b.register_thread(2);
    b.increase_need(2, 0, 1);
    assert!(b.try_allocate(2, 0, 1));
    b.increase_need(1, 0, 1);
    assert!(b.is_safe());
}

#[test]
fn circular_wait_is_unsafe() {
    let mut b = Banker::new();
    b.register_resource(0, 0);
    b.register_resource(1, 0);
    b.register_thread(1);
    b.register_thread(2);
    b.increase_need(1, 0, 1);
    b.increase_need(2, 1, 1);
    b.increase_available(0, 1);
    b.increase_available(1, 1);
    assert!(b.try_allocate(1, 0, 1));
    assert!(b.try_allocate(2, 1, 1));
    b.increase_need(1, 1, 1);
    b.increase_need(2, 0, 1);
    assert!(!b.is_safe());
    assert!(!b.try_allocate(1, 1, 1));
    assert_eq!(b.available_of(1), Some(0));
}

#[test]
fn id_map_keeps_keys_and_values() {
    let mut m: IdMap<i32> = IdMap::new();
    m.insert(5, 50);
    m.insert(1, 10);
    m.insert(3, 30);
    m.insert(3, 33);
    assert_eq!(m.len(), 3);
    assert_eq!(m.key_at(0), 1);
    assert_eq!(m.key_at(1), 3);
    assert_eq!(m.key_at(2), 5);
    assert_eq!(*m.value_at(1), 33);
    assert_eq!(m.get(5), Some(&50));
    assert_eq!(m.get(4), None);
    assert_eq!(m.find(4), Err(2));
    assert_eq!(m.find(1), Ok(0));
    assert_eq!(m.remove(1), Some(10));
    assert_eq!(m.remove(1), None);
    assert_eq!(m.len(), 2);
}

fn units(b: &Banker, threads: &[usize], id: usize) -> isize {
    let mut total = b.available_of(id).unwrap_or(0);
    for &t in threads {
        total += b.allocation_of(t, id).unwrap_or(0);
    }
    total
}

#[test]
fn try_allocate_conserves_units() {
    let mut b = Banker::new();
    b.register_resource(0, 4);
    b.register_resource(1, 2);
    b.register_thread(1);
    b.register_thread(2);
    b.increase_need(1, 0, 3);
    let before = (units(&b, &[1, 2], 0), units(&b, &[1, 2], 1));
    assert!(b.try_allocate(1, 0, 3));
    assert!(b.try_allocate(2, 1, 2));
    assert_eq!((units(&b, &[1, 2], 0), units(&b, &[1, 2], 1)), before);
    b.increase_need(2, 0, 5);
    assert!(!b.try_allocate(2, 0, 1));
    assert_eq!((units(&b, &[1, 2], 0), units(&b, &[1, 2], 1)), before);
}

#[test]
fn more_available_keeps_safe() {
    let mut b = Banker::new();
    b.register_resource(0, 1);
    b.register_thread(1);
    b.increase_need(1, 0, 1);
    assert!(b.is_safe());
    b.increase_available(0, 3);
    assert!(b.is_safe());
    b.increase_available(7, 1);
    assert!(b.is_safe());
}

#[test]
fn more_available_can_break_safety_with_negative_allocation() {
    // With a negative allocation (a grant of more than isize::MAX units)
    // more free units can make the passes finish threads in a worse order.
    let mut b = Banker::new();
    b.register_resource(0, 0);
    b.register_thread(1);
    b.register_thread(2);
    assert!(b.try_allocate(2, 0, 1));
    assert!(b.try_allocate(1, 0, usize::MAX - 5));
    assert_eq!(b.allocation_of(1, 0), Some(-6));
    b.increase_available(0, usize::MAX - 4);
    assert_eq!(b.available_of(0), Some(0));
    b.increase_need(1, 0, 1);
    b.increase_need(2, 0, 0);
    assert!(b.is_safe());
    b.increase_available(0, 1);
    assert!(!b.is_safe());
}

#[test]
fn duplicate_is_an_independent_copy() {
    let mut b = Banker::new();
    b.register_resource(0, 2);
    b.register_thread(1);
    b.increase_need(1, 0, 1);
    let mut c = b.duplicate();
    assert!(c.try_allocate(1, 0, 1));
    assert_eq!(c.available_of(0), Some(1));
    assert_eq!(b.available_of(0), Some(2));
    assert_eq!(b.need_of(1, 0), Some(1));
    assert_eq!(c.allocation_of(1, 0), Some(1));
}
