//! The process system calls: waiting for a child, mapping and unmapping
//! anonymous memory, priorities, process ids and the time of day.
//!
//! Each call decides over a model of the state it reads (the children of
//! the calling process, the pages mapped in its address space); the kernel
//! work that follows (writing to user memory, allocating frames) is the
//! caller's.
use vstd::prelude::*;
use crate::id_map::IdMap;

verus! {

/// The highest user virtual address length accepted by `mmap` and `munmap`.
pub const USER_VADDR_MAX: u64 = 0x7f_ffff_ffff;

/// The size of a page in bytes.
pub const PAGE_SIZE: usize = 0x1000;

/// One past the highest Sv39 virtual address.
pub const VA_LIMIT: u64 = 0x80_0000_0000;

/// Seconds and microseconds, as handed to user programs.
#[derive(Debug, Clone, Copy, PartialEq, Eq, Structural)]
pub struct TimeVal {
    /// Whole seconds.
    pub sec: usize,
    /// Microseconds beyond the whole seconds.
    pub usec: usize,
}

/// The time of day for a clock reading in milliseconds.
pub fn timeval_from_ms(ms: usize) -> (t: TimeVal)
    requires
        ms * 1000 <= usize::MAX,
    ensures
        t.sec == ms * 1000 / 1_000_000,
        t.usec == ms * 1000 % 1_000_000,
{
    let us = ms * 1000;
    TimeVal { sec: us / 1_000_000, usec: us % 1_000_000 }
}

/// What a process knows of one of its children.
#[derive(Debug, Clone, Copy, PartialEq, Eq, Structural)]
pub struct ChildInfo {
    /// The child's process id.
    pub pid: usize,
    /// The child has exited and waits to be reaped.
    pub zombie: bool,
    /// The code the child exited with.
    pub exit_code: i32,
}

/// `pid` selects the child: -1 selects any child.
pub open spec fn selects(pid: isize, c: ChildInfo) -> bool {
    pid == -1 || pid as usize == c.pid
}

/// `i` is the first child that `pid` selects and that has exited.
pub open spec fn is_first_exited(children: Seq<ChildInfo>, pid: isize, i: int) -> bool {
    &&& 0 <= i < children.len()
    &&& children[i].zombie && selects(pid, children[i])
    &&& forall|j: int| 0 <= j < i ==> !(#[trigger] children[j].zombie && selects(pid, children[j]))
}

/// Waits for a child without blocking.
///
/// Returns -1 where `pid` selects no child and -2 where no selected child
/// has exited yet. Otherwise the first selected child that has exited is
/// removed and its pid is returned with its exit code, which the caller
/// stores for the user.
pub fn sys_waitpid(children: &mut Vec<ChildInfo>, pid: isize) -> (r: (isize, Option<i32>))
    ensures
        !(exists|i: int| 0 <= i < old(children)@.len() && #[trigger] selects(pid, old(children)@[i]))
            ==> r == (-1isize, None::<i32>) && final(children)@ == old(children)@,
        (exists|i: int| 0 <= i < old(children)@.len() && #[trigger] selects(pid, old(children)@[i]))
            && !(exists|i: int| is_first_exited(old(children)@, pid, i)) ==> r == (
            -2isize,
            None::<i32>,
        ) && final(children)@ == old(children)@,
        forall|i: int|
            #![trigger is_first_exited(old(children)@, pid, i)]
            is_first_exited(old(children)@, pid, i) ==> r == (
                old(children)@[i].pid as isize,
                Some(old(children)@[i].exit_code),
            ) && final(children)@ == old(children)@.remove(i),
{
    let ghost pre = children@;
    let n = children.len();
    let mut i: usize = 0;
    while i < n && !(pid == -1 || pid as usize == children[i].pid)
        invariant
            children@ == pre,
            n == children@.len(),
            i <= n,
            forall|j: int| 0 <= j < i ==> !#[trigger] selects(pid, children@[j]),
        decreases n - i,
    {
        i = i + 1;
    }
    if i == n {
        return (-1, None);
    }
    assert(selects(pid, pre[i as int]));
    let mut i: usize = 0;
    while i < n
        invariant
            children@ == pre,
            pre == old(children)@,
            exists|j: int| 0 <= j < n && #[trigger] selects(pid, pre[j]),
            n == children@.len(),
            i <= n,
            forall|j: int| 0 <= j < i ==> !(#[trigger] children@[j].zombie && selects(pid, children@[j])),
        decreases n - i,
    {
        let c = children[i];
        if c.zombie && (pid == -1 || pid as usize == c.pid) {
            let child = children.remove(i);
            proof {
                assert(is_first_exited(pre, pid, i as int));
                assert forall|k: int| is_first_exited(pre, pid, k) implies k == i by {
                    if k < i {
                        assert(!(pre[k].zombie && selects(pid, pre[k])));
                    } else if k > i {
                        assert(!(pre[i as int].zombie && selects(pid, pre[i as int])));
                    }
                }
            }
            return (child.pid as isize, Some(child.exit_code));
        }
        i = i + 1;
    }
    (-2, None)
}

/// No two children share a pid.
pub open spec fn distinct_pids(children: Seq<ChildInfo>) -> bool {
    forall|i: int, j: int|
        0 <= i < children.len() && 0 <= j < children.len() && i != j ==> children[i].pid
            != children[j].pid
}

/// A child is reaped once: where children have distinct pids, once the child
/// with pid `q` is removed, no remaining child is selected by `q` (so a later
/// wait for `q` returns -1), and the remaining pids stay distinct. A pid that
/// reads -1 as an `isize` (`usize::MAX`) is left out: -1 selects any child.
pub proof fn lemma_reaped_child_is_gone(children: Seq<ChildInfo>, i: int)
    requires
        distinct_pids(children),
        0 <= i < children.len(),
        children[i].pid as isize != -1,
    ensures
        distinct_pids(children.remove(i)),
        forall|j: int|
            0 <= j < children.remove(i).len() ==> !#[trigger] selects(
                children[i].pid as isize,
                children.remove(i)[j],
            ),
{
    let q = children[i].pid;
    let rest = children.remove(i);
    assert((q as isize) as usize == q) by (bit_vector);
    assert forall|j: int| 0 <= j < rest.len() implies !#[trigger] selects(q as isize, rest[j]) by {
        if j < i {
            assert(rest[j] == children[j]);
        } else {
            assert(rest[j] == children[j + 1]);
        }
    }
    assert forall|a: int, b: int| 0 <= a < rest.len() && 0 <= b < rest.len() && a != b implies rest[a].pid
        != rest[b].pid by {
        let a2 = if a < i {
            a
        } else {
            a + 1
        };
        let b2 = if b < i {
            b
        } else {
            b + 1
        };
        assert(rest[a] == children[a2]);
        assert(rest[b] == children[b2]);
    }
}

/// The pid handed back by `getpid`.
pub fn sys_getpid(pid: usize) -> (r: isize)
    ensures
        r == pid as isize,
{
    pid as isize
}

/// change data segment size
///
/// The result for what moving the program break gave back: the old break,
/// or -1 where the break could not be moved.
pub fn sys_sbrk(old_brk: Option<usize>) -> (r: isize)
    ensures
        r == match old_brk {
            Some(b) => b as isize,
            None => -1isize,
        },
{
    match old_brk {
        Some(b) => b as isize,
        None => -1,
    }
}

/// Sets the priority of the calling task, which must be at least 2; returns
/// the priority set, or -1 where it is below 2 and nothing changes.
pub fn sys_set_priority(task_prio: &mut isize, prio: isize) -> (r: isize)
    ensures
        prio >= 2 ==> r == prio && *final(task_prio) == prio,
        prio < 2 ==> r == -1 && *final(task_prio) == *old(task_prio),
{
    if prio >= 2 {
        *task_prio = prio;
        return prio;
    }
    -1
}

/// A user address as a virtual address: its low 39 bits.
pub open spec fn va(x: int) -> int {
    x % (VA_LIMIT as int)
}

/// The page holding a virtual address.
pub open spec fn floor_page(a: int) -> int {
    a / (PAGE_SIZE as int)
}

/// The first page boundary at or above a virtual address, as a page number.
pub open spec fn ceil_page(a: int) -> int {
    if a == 0 {
        0
    } else {
        (a - 1 + PAGE_SIZE) / (PAGE_SIZE as int)
    }
}

/// The first page of the range `[start, start + len)`.
pub open spec fn first_page(start: usize, len: usize) -> int {
    floor_page(va(start as int))
}

/// One past the last page of the range `[start, start + len)`.
pub open spec fn end_page(start: usize, len: usize) -> int {
    ceil_page(va(start + len))
}

/// The range can be formed: its end does not overflow and its page range is
/// not reversed.
pub open spec fn range_ok(start: usize, len: usize) -> bool {
    &&& start + len <= usize::MAX
    &&& first_page(start, len) <= end_page(start, len)
}

/// The protection bits are valid: some of read (1), write (2) and
/// execute (4), and nothing else.
pub open spec fn prot_ok(prot: usize) -> bool {
    1 <= prot <= 7
}

/// The page permission bits for valid protection bits: user (16) with read
/// (2), write (4) and execute (8) shifted up by one.
pub open spec fn prot_flags(prot: usize) -> u8 {
    (16 + 2 * prot) as u8
}

/// Page permission bits for protection bits, `None` where they are invalid.
pub fn parse_prot_to_flags(prot: usize) -> (r: Option<u8>)
    ensures
        r == if prot_ok(prot) {
            Some(prot_flags(prot))
        } else {
            None
        },
{
    if prot > 7 || prot == 0 {
        return None;
    }
    let f: u8 = prot as u8;
    Some(16 + 2 * f)
}

/// The number of pages that one last-level page table covers.
pub const LEAF_TABLE_PAGES: usize = 512;

/// The last-level page table that holds the entry of page `vpn`.
pub open spec fn leaf_table(vpn: int) -> int {
    vpn / (LEAF_TABLE_PAGES as int)
}

/// The page table of an address space: the valid last-level entries (the
/// mapped pages, with their permission bits) and the last-level tables that
/// exist. A page whose last-level table exists has an entry, valid or not;
/// tables are never freed.
pub struct AddressSpace {
    mapped: IdMap<u8>,
    tables: IdMap<u8>,
}

impl View for AddressSpace {
    type V = Map<usize, u8>;

    closed spec fn view(&self) -> Map<usize, u8> {
        self.mapped@
    }
}

/// The tables `t` with those of the pages of `[lo, hi)` added.
pub open spec fn with_tables(t: Set<usize>, lo: int, hi: int) -> Set<usize> {
    t.union(Set::new(|x: usize| exists|k: int| lo <= k < hi && leaf_table(k) == x))
}

/// The map with every page of `[lo, hi)` mapped with `flags`.
pub open spec fn map_range(m: Map<usize, u8>, lo: int, hi: int, flags: u8) -> Map<usize, u8> {
    Map::new(
        |k: usize| m.contains_key(k) || lo <= k < hi,
        |k: usize|
            if lo <= k < hi {
                flags
            } else {
                m[k]
            },
    )
}

/// The map with every page of `[lo, hi)` unmapped.
pub open spec fn unmap_range(m: Map<usize, u8>, lo: int, hi: int) -> Map<usize, u8> {
    Map::new(|k: usize| m.contains_key(k) && !(lo <= k < hi), |k: usize| m[k])
}

/// `mmap` succeeds: valid protection, an aligned start, a length below
/// `USER_VADDR_MAX`, and no page of the range mapped yet.
pub open spec fn mmap_ok(m: Map<usize, u8>, start: usize, len: usize, prot: usize) -> bool {
    &&& prot_ok(prot)
    &&& va(start as int) % (PAGE_SIZE as int) == 0
    &&& len < USER_VADDR_MAX
    &&& forall|k: usize|
        first_page(start, len) <= k < end_page(start, len) ==> !#[trigger] m.contains_key(k)
}

/// `munmap` succeeds: an aligned start, a length below `USER_VADDR_MAX`,
/// and every page of the range mapped.
pub open spec fn munmap_ok(m: Map<usize, u8>, start: usize, len: usize) -> bool {
    &&& va(start as int) % (PAGE_SIZE as int) == 0
    &&& len < USER_VADDR_MAX
    &&& forall|k: usize|
        first_page(start, len) <= k < end_page(start, len) ==> #[trigger] m.contains_key(k)
}

impl AddressSpace {
    /// The address space is well formed: every mapped page has its
    /// last-level table.
    pub closed spec fn wf(&self) -> bool {
        &&& self.mapped.wf()
        &&& self.tables.wf()
        &&& forall|k: usize| #[trigger]
            self.mapped@.contains_key(k) ==> self.tables@.contains_key(leaf_table(k as int) as usize)
    }

    /// The last-level page tables that exist, by number.
    pub closed spec fn leaf_tables(&self) -> Set<usize> {
        self.tables@.dom()
    }

    /// An address space with no page table entries.
    pub fn new() -> (s: Self)
        ensures
            s.wf(),
            s@ == Map::<usize, u8>::empty(),
            s.leaf_tables() == Set::<usize>::empty(),
    {
        let s = AddressSpace { mapped: IdMap::new(), tables: IdMap::new() };
        assert(s.leaf_tables() =~= Set::<usize>::empty());
        s
    }

    /// Whether page `vpn` is mapped (has a valid entry).
    pub fn is_mapped(&self, vpn: usize) -> (r: bool)
        requires
            self.wf(),
        ensures
            r == self@.contains_key(vpn),
    {
        self.mapped.get(vpn).is_some()
    }

    /// Whether page `vpn` has an entry, valid or not: its last-level table
    /// exists.
    pub fn has_entry(&self, vpn: usize) -> (r: bool)
        requires
            self.wf(),
        ensures
            r == self.leaf_tables().contains(leaf_table(vpn as int) as usize),
    {
        self.tables.get(vpn / LEAF_TABLE_PAGES).is_some()
    }

    /// The permission bits of page `vpn`, if it is mapped.
    pub fn flags_of(&self, vpn: usize) -> (r: Option<u8>)
        requires
            self.wf(),
        ensures
            r == if self@.contains_key(vpn) {
                Some(self@[vpn])
            } else {
                None
            },
    {
        match self.mapped.get(vpn) {
            Some(f) => Some(*f),
            None => None,
        }
    }

    /// Maps page `vpn` with permission bits `flags`, creating its last-level
    /// table where it is missing.
    pub fn map_page(&mut self, vpn: usize, flags: u8)
        requires
            old(self).wf(),
        ensures
            final(self).wf(),
            final(self)@ == old(self)@.insert(vpn, flags),
            final(self).leaf_tables() == old(self).leaf_tables().insert(
                leaf_table(vpn as int) as usize,
            ),
    {
        self.mapped.insert(vpn, flags);
        self.tables.insert(vpn / LEAF_TABLE_PAGES, 0);
        assert(self.leaf_tables() =~= old(self).leaf_tables().insert(
            leaf_table(vpn as int) as usize,
        ));
    }

    /// Records that the last-level table of page `vpn` exists, leaving its
    /// entries invalid.
    pub fn add_leaf_table(&mut self, vpn: usize)
        requires
            old(self).wf(),
        ensures
            final(self).wf(),
            final(self)@ == old(self)@,
            final(self).leaf_tables() == old(self).leaf_tables().insert(
                leaf_table(vpn as int) as usize,
            ),
    {
        self.tables.insert(vpn / LEAF_TABLE_PAGES, 0);
        assert(self.leaf_tables() =~= old(self).leaf_tables().insert(
            leaf_table(vpn as int) as usize,
        ));
    }

    /// Unmaps page `vpn`: its entry becomes invalid; its table stays.
    pub fn unmap_page(&mut self, vpn: usize)
        requires
            old(self).wf(),
        ensures
            final(self).wf(),
            final(self)@ == old(self)@.remove(vpn),
            final(self).leaf_tables() == old(self).leaf_tables(),
    {
        let _ = self.mapped.remove(vpn);
    }
}

/// The virtual address of a user address.
pub fn virt_addr(x: usize) -> (a: usize)
    ensures
        a == va(x as int),
{
    let a: u64 = (x as u64) % VA_LIMIT;
    assert(a <= x) by (nonlinear_arith)
        requires
            a == (x as u64) % VA_LIMIT,
            VA_LIMIT > 0,
    ;
    a as usize
}

/// The page number of the first page boundary at or above a virtual
/// address.
fn ceil_vpn(a: usize) -> (p: usize)
    ensures
        p == ceil_page(a as int),
{
    if a == 0 {
        0
    } else {
        assert((a - 1 + PAGE_SIZE as int) / PAGE_SIZE as int == (a - 1) / PAGE_SIZE as int + 1);
        (a - 1) / PAGE_SIZE + 1
    }
}

/// The page range `[first, end)` of `[start, start + len)`, or `None` where
/// the end overflows or the range is reversed.
pub fn page_range(start: usize, len: usize) -> (r: Option<(usize, usize)>)
    ensures
        r is Some <==> range_ok(start, len),
        r matches Some(pr) ==> pr.0 == first_page(start, len) && pr.1 == end_page(start, len),
{
    if start > usize::MAX - len {
        return None;
    }
    let start_va = virt_addr(start);
    let end_va = virt_addr(start + len);
    let lo = start_va / PAGE_SIZE;
    let hi = ceil_vpn(end_va);
    if lo > hi {
        return None;
    }
    Some((lo, hi))
}

/// get time with second and microsecond
///
/// Where the page of the user address `ts` has an entry in the page table,
/// valid or not (its last-level table exists), returns 0 with the time of
/// day for the clock reading `now_ms`, which the caller writes through that
/// entry at `ts`; otherwise -1 and nothing to write. Only the page of the
/// first byte of `ts` is looked up.
pub fn sys_get_time(space: &AddressSpace, ts: usize, now_ms: usize) -> (r: (isize, Option<TimeVal>))
    requires
        space.wf(),
        now_ms * 1000 <= usize::MAX,
    ensures
        space.leaf_tables().contains(leaf_table(floor_page(va(ts as int))) as usize) ==> {
            &&& r.0 == 0
            &&& r.1 matches Some(t) && t.sec == now_ms * 1000 / 1_000_000 && t.usec == now_ms * 1000
                % 1_000_000
        },
        !space.leaf_tables().contains(leaf_table(floor_page(va(ts as int))) as usize) ==> r == (
            -1isize,
            None::<TimeVal>,
        ),
{
    let t = timeval_from_ms(now_ms);
    let vpn = virt_addr(ts) / PAGE_SIZE;
    if space.has_entry(vpn) {
        (0, Some(t))
    } else {
        (-1, None)
    }
}

/// Maps anonymous memory over `[start, start + len)` with protection
/// `prot`; returns 0, or -1 (nothing mapped) where the protection is
/// invalid, the start unaligned, the length too large or a page of the
/// range already mapped.
pub fn sys_mmap(space: &mut AddressSpace, start: usize, len: usize, prot: usize) -> (r: isize)
    requires
        old(space).wf(),
        range_ok(start, len),
    ensures
        final(space).wf(),
        r == 0 || r == -1,
        r == 0 <==> mmap_ok(old(space)@, start, len, prot),
        r == 0 ==> final(space)@ == map_range(
            old(space)@,
            first_page(start, len),
            end_page(start, len),
            prot_flags(prot),
        ),
        r == 0 ==> final(space).leaf_tables() == with_tables(
            old(space).leaf_tables(),
            first_page(start, len),
            end_page(start, len),
        ),
        r == -1 ==> final(space)@ == old(space)@ && final(space).leaf_tables() == old(
            space,
        ).leaf_tables(),
{
    let (lo, hi) = page_range(start, len).unwrap();
    let flags = match parse_prot_to_flags(prot) {
        Some(f) => f,
        None => {
            return -1;
        },
    };
    let start_va = virt_addr(start);
    if start_va % PAGE_SIZE != 0 {
        return -1;
    }
    if !((len as u64) < USER_VADDR_MAX) {
        return -1;
    }
    let ghost pre = space@;
    let ghost pre_t = space.leaf_tables();
    let mut vpn = lo;
    while vpn < hi
        invariant
            space.wf(),
            space@ == pre,
            space.leaf_tables() == pre_t,
            lo == first_page(start, len),
            hi == end_page(start, len),
            prot_ok(prot),
            flags == prot_flags(prot),
            va(start as int) % (PAGE_SIZE as int) == 0,
            (len as u64) < USER_VADDR_MAX,
            lo <= vpn <= hi,
            forall|k: usize| lo <= k < vpn ==> !#[trigger] space@.contains_key(k),
        decreases hi - vpn,
    {
        if space.is_mapped(vpn) {
            assert(!mmap_ok(pre, start, len, prot));
            return -1;
        }
        vpn = vpn + 1;
    }
    let mut vpn = lo;
    while vpn < hi
        invariant
            space.wf(),
            lo <= vpn <= hi,
            space@ == map_range(pre, lo as int, vpn as int, flags),
            space.leaf_tables() == with_tables(pre_t, lo as int, vpn as int),
        decreases hi - vpn,
    {
        space.map_page(vpn, flags);
        proof {
            assert(space@ =~= map_range(pre, lo as int, vpn + 1, flags));
            let t1 = with_tables(pre_t, lo as int, vpn + 1);
            assert forall|x: usize| #[trigger] space.leaf_tables().contains(x) == t1.contains(x) by {
                if x == leaf_table(vpn as int) {
                    assert(lo <= vpn < vpn + 1 && leaf_table(vpn as int) == x);
                }
                if t1.contains(x) && !pre_t.contains(x) {
                    let k = choose|k: int| lo <= k < vpn + 1 && leaf_table(k) == x;
                    if k < vpn {
                        assert(with_tables(pre_t, lo as int, vpn as int).contains(x));
                    }
                }
            }
            assert(space.leaf_tables() =~= t1);
        }
        vpn = vpn + 1;
    }
    0
}

/// Unmaps `[start, start + len)`; returns 0, or -1 (nothing unmapped) where
/// the start is unaligned, the length too large or a page of the range not
/// mapped.
pub fn sys_munmap(space: &mut AddressSpace, start: usize, len: usize) -> (r: isize)
    requires
        old(space).wf(),
        range_ok(start, len),
    ensures
        final(space).wf(),
        r == 0 || r == -1,
        r == 0 <==> munmap_ok(old(space)@, start, len),
        r == 0 ==> final(space)@ == unmap_range(
            old(space)@,
            first_page(start, len),
            end_page(start, len),
        ),
        r == -1 ==> final(space)@ == old(space)@,
        final(space).leaf_tables() == old(space).leaf_tables(),
{
    let (lo, hi) = page_range(start, len).unwrap();
    let start_va = virt_addr(start);
    if start_va % PAGE_SIZE != 0 {
        return -1;
    }
    if !((len as u64) < USER_VADDR_MAX) {
        return -1;
    }
    let ghost pre = space@;
    let ghost pre_t = space.leaf_tables();
    let mut vpn = lo;
    while vpn < hi
        invariant
            space.wf(),
            space@ == pre,
            space.leaf_tables() == pre_t,
            lo == first_page(start, len),
            hi == end_page(start, len),
            va(start as int) % (PAGE_SIZE as int) == 0,
            (len as u64) < USER_VADDR_MAX,
            lo <= vpn <= hi,
            forall|k: usize| lo <= k < vpn ==> #[trigger] space@.contains_key(k),
        decreases hi - vpn,
    {
        if !space.is_mapped(vpn) {
            assert(!munmap_ok(pre, start, len));
            return -1;
        }
        vpn = vpn + 1;
    }
    let mut vpn = lo;
    while vpn < hi
        invariant
            space.wf(),
            lo <= vpn <= hi,
            space@ == unmap_range(pre, lo as int, vpn as int),
            space.leaf_tables() == pre_t,
        decreases hi - vpn,
    {
        space.unmap_page(vpn);
        proof {
            assert(space@ =~= unmap_range(pre, lo as int, vpn + 1));
        }
        vpn = vpn + 1;
    }
    0
}

/// Unmapping exactly the range that a successful `mmap` mapped succeeds and
/// gives back the mapped pages as they were before the `mmap` (the tables
/// that the `mmap` created stay).
pub proof fn lemma_munmap_undoes_mmap(m: Map<usize, u8>, start: usize, len: usize, prot: usize)
    requires
        range_ok(start, len),
        mmap_ok(m, start, len, prot),
    ensures
        munmap_ok(
            map_range(m, first_page(start, len), end_page(start, len), prot_flags(prot)),
            start,
            len,
        ),
        unmap_range(
            map_range(m, first_page(start, len), end_page(start, len), prot_flags(prot)),
            first_page(start, len),
            end_page(start, len),
        ) == m,
{
    let lo = first_page(start, len);
    let hi = end_page(start, len);
    let m2 = map_range(m, lo, hi, prot_flags(prot));
    assert forall|k: usize| lo <= k < hi implies #[trigger] m2.contains_key(k) by {}
    assert forall|k: usize| #[trigger] unmap_range(m2, lo, hi).contains_key(k) == m.contains_key(
        k,
    ) by {
        if m.contains_key(k) && lo <= k < hi {
            assert(!m.contains_key(k));
        }
    }
    assert(unmap_range(m2, lo, hi) =~= m);
}

/// A second `mmap` over a non-empty range that a first one mapped fails.
pub proof fn lemma_mmap_twice_fails(m: Map<usize, u8>, start: usize, len: usize, prot: usize)
    requires
        range_ok(start, len),
        mmap_ok(m, start, len, prot),
        first_page(start, len) < end_page(start, len),
    ensures
        !mmap_ok(
            map_range(m, first_page(start, len), end_page(start, len), prot_flags(prot)),
            start,
            len,
            prot,
        ),
{
    let lo = first_page(start, len);
    let m2 = map_range(m, lo, end_page(start, len), prot_flags(prot));
    assert(0 <= lo);
    assert(lo <= usize::MAX);
    assert(m2.contains_key(lo as usize));
}


/// `munmap` succeeds only where every page of its range is mapped, and with
/// an aligned start and a length below `USER_VADDR_MAX` it succeeds
/// wherever every page of its range is mapped.
pub proof fn lemma_munmap_needs_whole_range(m: Map<usize, u8>, start: usize, len: usize, k: usize)
    ensures
        munmap_ok(m, start, len) && first_page(start, len) <= k < end_page(start, len)
            ==> m.contains_key(k),
        va(start as int) % (PAGE_SIZE as int) == 0 && len < USER_VADDR_MAX && (forall|j: usize|
            first_page(start, len) <= j < end_page(start, len) ==> #[trigger] m.contains_key(j))
            ==> munmap_ok(m, start, len),
{
}

/// Whether `mmap` succeeds depends only on the pages inside its range: two
/// page maps that agree on which pages of `[first, end)` are mapped get the
/// same answer, whatever lies outside. A mapped page inside the range makes
/// it fail, and with valid protection, an aligned start and a length below
/// `USER_VADDR_MAX` it succeeds wherever no page of the range is mapped.
pub proof fn lemma_mmap_looks_only_inside(
    m1: Map<usize, u8>,
    m2: Map<usize, u8>,
    start: usize,
    len: usize,
    prot: usize,
    k: usize,
)
    requires
        forall|j: usize|
            first_page(start, len) <= j < end_page(start, len) ==> (#[trigger] m1.contains_key(j)
                <==> m2.contains_key(j)),
    ensures
        mmap_ok(m1, start, len, prot) == mmap_ok(m2, start, len, prot),
        first_page(start, len) <= k < end_page(start, len) && m1.contains_key(k) ==> !mmap_ok(
            m1,
            start,
            len,
            prot,
        ),
        prot_ok(prot) && va(start as int) % (PAGE_SIZE as int) == 0 && len < USER_VADDR_MAX && (
        forall|j: usize|
            first_page(start, len) <= j < end_page(start, len) ==> !#[trigger] m1.contains_key(j))
            ==> mmap_ok(m1, start, len, prot),
{
    if mmap_ok(m1, start, len, prot) {
        assert forall|j: usize| first_page(start, len) <= j < end_page(start, len) implies !#[trigger] m2.contains_key(
            j,
        ) by {
            assert(!m1.contains_key(j));
        }
    }
    if mmap_ok(m2, start, len, prot) {
        assert forall|j: usize| first_page(start, len) <= j < end_page(start, len) implies !#[trigger] m1.contains_key(
            j,
        ) by {
            assert(!m2.contains_key(j));
        }
    }
}

/// The permission bits follow the protection bits one by one: read (prot
/// bit 1) gives bit 2, write (prot bit 2) gives bit 4, execute (prot bit 4)
/// gives bit 8, user (16) is always set, and no other bit is.
pub proof fn lemma_prot_flags_bits(prot: usize)
    requires
        prot_ok(prot),
    ensures
        (prot_flags(prot) & 2 != 0) == (prot & 1 != 0),
        (prot_flags(prot) & 4 != 0) == (prot & 2 != 0),
        (prot_flags(prot) & 8 != 0) == (prot & 4 != 0),
        prot_flags(prot) & 16 != 0,
        prot_flags(prot) & 0xe1 == 0,
{
    let f = prot_flags(prot);
    let p: u8 = prot as u8;
    assert(p as usize == prot);
    assert(f == (16 + 2 * p) as u8);
    assert(1 <= p <= 7);
    assert({
        &&& ((f & 2 != 0) == (p & 1 != 0))
        &&& ((f & 4 != 0) == (p & 2 != 0))
        &&& ((f & 8 != 0) == (p & 4 != 0))
        &&& f & 16 != 0
        &&& f & 0xe1 == 0
    }) by (bit_vector)
        requires
            f == (16 + 2 * p) as u8,
            1 <= p <= 7,
    ;
    assert((p & 1 != 0) == (prot & 1 != 0)) by (bit_vector)
        requires
            p as usize == prot,
    ;
    assert((p & 2 != 0) == (prot & 2 != 0)) by (bit_vector)
        requires
            p as usize == prot,
    ;
    assert((p & 4 != 0) == (prot & 4 != 0)) by (bit_vector)
        requires
            p as usize == prot,
    ;
}

} // verus!
