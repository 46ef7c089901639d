use os_kernel::syscall::process::{
    parse_prot_to_flags, page_range, sys_get_time, sys_getpid, sys_sbrk, virt_addr, sys_mmap, sys_munmap, sys_set_priority, sys_waitpid,
    timeval_from_ms, AddressSpace, ChildInfo, TimeVal, PAGE_SIZE, USER_VADDR_MAX,
};

fn child(pid: usize, zombie: bool, exit_code: i32) -> ChildInfo {
    ChildInfo { pid, zombie, exit_code }
}

#[test]
fn waitpid_without_children() {
    let mut children: Vec<ChildInfo> = Vec::new();
    assert_eq!(sys_waitpid(&mut children, -1), (-1, None));
}

#[test]
fn waitpid_unknown_pid() {
    let mut children = vec![child(3, true, 7)];
    assert_eq!(sys_waitpid(&mut children, 4), (-1, None));
    assert_eq!(children.len(), 1);
}

#[test]
fn waitpid_child_still_running() {
    let mut children = vec![child(3, false, 0), child(4, true, 1)];
    assert_eq!(sys_waitpid(&mut children, 3), (-2, None));
    assert_eq!(children.len(), 2);
}

#[test]
fn waitpid_reaps_given_child() {
    let mut children = vec![child(3, false, 0), child(4, true, 9), child(5, true, 2)];
    assert_eq!(sys_waitpid(&mut children, 5), (5, Some(2)));
    assert_eq!(children, vec![child(3, false, 0), child(4, true, 9)]);
}

#[test]
fn waitpid_any_reaps_first_exited() {
    let mut children = vec![child(3, false, 0), child(4, true, 9), child(5, true, 2)];
    assert_eq!(sys_waitpid(&mut children, -1), (4, Some(9)));
    assert_eq!(children, vec![child(3, false, 0), child(5, true, 2)]);
    assert_eq!(sys_waitpid(&mut children, -1), (5, Some(2)));
    assert_eq!(sys_waitpid(&mut children, -1), (-2, None));
}

#[test]
fn getpid_returns_pid() {
    assert_eq!(sys_getpid(42), 42);
}

#[test]
fn set_priority_accepts_two_and_above() {
    let mut prio: isize = 16;
    assert_eq!(sys_set_priority(&mut prio, 1), -1);
    assert_eq!(prio, 16);
    assert_eq!(sys_set_priority(&mut prio, 2), 2);
    assert_eq!(prio, 2);
    assert_eq!(sys_set_priority(&mut prio, 100), 100);
    assert_eq!(prio, 100);
}

#[test]
fn timeval_from_milliseconds() {
    assert_eq!(timeval_from_ms(0), TimeVal { sec: 0, usec: 0 });
    assert_eq!(timeval_from_ms(1234), TimeVal { sec: 1, usec: 234_000 });
    assert_eq!(timeval_from_ms(60_001), TimeVal { sec: 60, usec: 1000 });
}

#[test]
fn prot_parsing() {
    assert_eq!(parse_prot_to_flags(0), None);
    assert_eq!(parse_prot_to_flags(8), None);
    assert_eq!(parse_prot_to_flags(9), None);
    assert_eq!(parse_prot_to_flags(1), Some(0b1_0010));
    assert_eq!(parse_prot_to_flags(3), Some(0b1_0110));
    assert_eq!(parse_prot_to_flags(7), Some(0b1_1110));
}

#[test]
fn mmap_maps_pages_of_range() {
    let mut s = AddressSpace::new();
    assert_eq!(sys_mmap(&mut s, 0x1000, 0x2000, 3), 0);
    assert!(!s.is_mapped(0));
    assert!(s.is_mapped(1));
    assert!(s.is_mapped(2));
    assert!(!s.is_mapped(3));
    assert_eq!(s.flags_of(1), Some(0b1_0110));
}

#[test]
fn mmap_rounds_length_up_to_pages() {
    let mut s = AddressSpace::new();
    assert_eq!(sys_mmap(&mut s, 0x4000, 1, 1), 0);
    assert!(s.is_mapped(4));
    assert!(!s.is_mapped(5));
}

#[test]
fn mmap_rejects_bad_arguments() {
    let mut s = AddressSpace::new();
    assert_eq!(sys_mmap(&mut s, 0x1001, 0x1000, 3), -1);
    assert_eq!(sys_mmap(&mut s, 0x1000, 0x1000, 0), -1);
    assert_eq!(sys_mmap(&mut s, 0x1000, 0x1000, 8), -1);
    assert_eq!(sys_mmap(&mut s, 0, USER_VADDR_MAX as usize, 1), -1);
    assert!(!s.is_mapped(1));
}

#[test]
fn mmap_overlapping_fails_and_changes_nothing() {
    let mut s = AddressSpace::new();
    assert_eq!(sys_mmap(&mut s, 0x2000, 0x1000, 1), 0);
    assert_eq!(sys_mmap(&mut s, 0x1000, 0x3000, 3), -1);
    assert!(!s.is_mapped(1));
    assert!(!s.is_mapped(3));
    assert_eq!(s.flags_of(2), Some(0b1_0010));
}

#[test]
fn munmap_undoes_mmap() {
    let mut s = AddressSpace::new();
    s.map_page(9, 0b1_0010);
    assert_eq!(sys_mmap(&mut s, 0x1000, 0x2000, 7), 0);
    assert_eq!(sys_munmap(&mut s, 0x1000, 0x2000), 0);
    assert!(!s.is_mapped(1));
    assert!(!s.is_mapped(2));
    assert!(s.is_mapped(9));
}

#[test]
fn munmap_needs_every_page_mapped() {
    let mut s = AddressSpace::new();
    assert_eq!(sys_mmap(&mut s, 0x1000, 0x1000, 1), 0);
    assert_eq!(sys_munmap(&mut s, 0x1000, 0x2000), -1);
    assert!(s.is_mapped(1));
    assert_eq!(sys_munmap(&mut s, 0x1800, 0x100), -1);
    assert_eq!(sys_munmap(&mut s, 0x1000, 0x1000), 0);
    assert!(!s.is_mapped(1));
}

#[test]
fn mmap_of_empty_range_maps_nothing() {
    let mut s = AddressSpace::new();
    assert_eq!(sys_mmap(&mut s, 0x3000, 0, 1), 0);
    assert!(!s.is_mapped(3));
}

#[test]
fn address_uses_low_39_bits() {
    let mut s = AddressSpace::new();
    let high = (1usize << 39) + 0x5000;
    assert_eq!(sys_mmap(&mut s, high, 0x1000, 1), 0);
    assert!(s.is_mapped(5));
    s.unmap_page(5);
    assert!(!s.is_mapped(5));
}

#[test]
fn page_size_is_4k() {
    assert_eq!(PAGE_SIZE, 4096);
}

#[test]
fn sbrk_result() {
    assert_eq!(sys_sbrk(Some(0x8000)), 0x8000);
    assert_eq!(sys_sbrk(None), -1);
}

#[test]
fn page_range_of_addresses() {
    assert_eq!(page_range(0x1000, 0x2000), Some((1, 3)));
    assert_eq!(page_range(0x1800, 0x100), Some((1, 2)));
    assert_eq!(page_range(0, 0), Some((0, 0)));
    assert_eq!(page_range(usize::MAX, 1), None);
    // The end wraps below the start in the low 39 bits.
    assert_eq!(page_range((1usize << 39) - 0x1000, 0x2000), None);
    assert_eq!(virt_addr((1usize << 39) + 7), 7);
}

#[test]
fn get_time_needs_mapped_page() {
    let mut s = AddressSpace::new();
    assert_eq!(sys_get_time(&s, 0x3010, 1500), (-1, None));
    s.map_page(3, 0b1_0110);
    assert_eq!(
        sys_get_time(&s, 0x3010, 1500),
        (0, Some(TimeVal { sec: 1, usec: 500_000 }))
    );
    assert_eq!(sys_get_time(&s, (1usize << 39) + 0x3ff8, 0), (0, Some(TimeVal { sec: 0, usec: 0 })));
    // Pages of the same last-level table have an entry, though not a valid
    // one, and so does an unmapped page: the time is written through it.
    assert_eq!(sys_get_time(&s, 0x4000, 2000).0, 0);
    s.unmap_page(3);
    assert!(!s.is_mapped(3));
    assert!(s.has_entry(3));
    assert_eq!(sys_get_time(&s, 0x3010, 1500).0, 0);
    // A page of a table that does not exist has no entry.
    assert!(!s.has_entry(600));
    assert_eq!(sys_get_time(&s, 600 * 0x1000, 1500), (-1, None));
    s.add_leaf_table(600);
    assert!(!s.is_mapped(600));
    assert_eq!(sys_get_time(&s, 600 * 0x1000, 1500).0, 0);
}

#[test]
fn munmap_keeps_page_table_entries() {
    let mut s = AddressSpace::new();
    assert_eq!(sys_mmap(&mut s, 0x1000, 0x1000, 3), 0);
    assert_eq!(sys_munmap(&mut s, 0x1000, 0x1000), 0);
    assert!(!s.is_mapped(1));
    assert!(s.has_entry(1));
    assert_eq!(sys_get_time(&s, 0x1000, 0).0, 0);
}

#[test]
fn reaped_child_is_not_found_again() {
    let mut children = vec![child(3, true, 1), child(4, true, 2)];
    assert_eq!(sys_waitpid(&mut children, 3), (3, Some(1)));
    assert_eq!(sys_waitpid(&mut children, 3), (-1, None));
    assert_eq!(sys_waitpid(&mut children, 4), (4, Some(2)));
    assert_eq!(sys_waitpid(&mut children, -1), (-1, None));
}
