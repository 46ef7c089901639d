//! The synchronisation system calls of a process: creation of mutexes,
//! semaphores and condition variables in the first free slot of their
//! tables, and deadlock avoidance with the banker when it is enabled.
//!
//! Each call decides and updates the process's synchronisation state; the
//! blocking that follows a call that returns 0 (lock, down, wait, signal,
//! unlock, up) is the caller's to perform on the primitive in that slot.
use vstd::prelude::*;
use crate::sync::banker::{amount, row, fits_isize, Banker, BankerView};

verus! {

/// The code returned when granting a lock or a semaphore would leave an
/// unsafe state.
pub const DEADLOCK_CODE: isize = -0xdead;

/// How a mutex waits for its lock.
#[derive(Clone, Copy, Debug, PartialEq, Eq, Structural)]
pub enum MutexKind {
    /// It spins, yielding, until the lock is free.
    Spin,
    /// It blocks the thread until the lock is handed to it.
    Blocking,
}

/// The synchronisation state of a process.
pub struct ProcessSync {
    /// The mutex slots; `None` is a free slot.
    pub mutex_list: Vec<Option<MutexKind>>,
    /// The semaphore slots, each with the count it was created with; `None`
    /// is a free slot.
    pub semaphore_list: Vec<Option<usize>>,
    /// The condition variable slots; `false` is a free slot.
    pub condvar_list: Vec<bool>,
    /// Whether lock and semaphore requests go through the banker.
    pub enable_deadlock_detect: bool,
    /// The banker of the process's mutexes and semaphores.
    pub banker: Banker,
}

/// `i` is the first free slot of `s`, or its length where none is free.
pub open spec fn is_first_free<T>(s: Seq<Option<T>>, i: int) -> bool {
    &&& 0 <= i <= s.len()
    &&& forall|j: int| 0 <= j < i ==> #[trigger] s[j] is Some
    &&& i < s.len() ==> s[i] is None
}

/// `i` is the first unused condition variable slot, or the length of the
/// table where none is unused.
pub open spec fn is_first_unused(s: Seq<bool>, i: int) -> bool {
    &&& 0 <= i <= s.len()
    &&& forall|j: int| 0 <= j < i ==> #[trigger] s[j]
    &&& i < s.len() ==> !s[i]
}

/// The table after `x` is put in slot `i`, which is either a slot of the
/// table or one past its end.
pub open spec fn placed<T>(s: Seq<T>, i: int, x: T) -> Seq<T> {
    if i < s.len() {
        s.update(i, x)
    } else {
        s.push(x)
    }
}

/// The banker after a request of one unit of `id` by `tid`: the need is
/// raised, then the unit is handed out where the raised state is safe.
pub open spec fn after_request(v: BankerView, tid: usize, id: usize) -> BankerView {
    let w = v.with_more_need(tid, id, 1);
    if w.is_safe_state() {
        w.with_allocation(tid, id, 1)
    } else {
        w
    }
}

/// What a request of one unit of `id` by `tid` needs so as not to fail.
pub open spec fn can_request(v: BankerView, tid: usize, id: usize) -> bool {
    &&& fits_isize(amount(row(v.need, tid), id) + 1)
    &&& v.with_more_need(tid, id, 1).can_try_allocate(tid, id, 1)
}

/// The banker after one unit of `id` is given back.
pub open spec fn after_release(v: BankerView, id: usize) -> BankerView {
    BankerView { available: v.available.insert(id, (amount(v.available, id) + 1) as isize), ..v }
}

/// The first free slot of a table.
fn first_free<T>(s: &Vec<Option<T>>) -> (i: usize)
    ensures
        is_first_free(s@, i as int),
{
    let n = s.len();
    let mut i: usize = 0;
    while i < n
        invariant
            n == s@.len(),
            i <= n,
            forall|j: int| 0 <= j < i ==> #[trigger] s@[j] is Some,
        decreases n - i,
    {
        if s[i].is_none() {
            return i;
        }
        i = i + 1;
    }
    i
}

/// The first unused slot of a table of condition variables.
fn first_unused(s: &Vec<bool>) -> (i: usize)
    ensures
        is_first_unused(s@, i as int),
{
    let n = s.len();
    let mut i: usize = 0;
    while i < n
        invariant
            n == s@.len(),
            i <= n,
            forall|j: int| 0 <= j < i ==> #[trigger] s@[j],
        decreases n - i,
    {
        if !s[i] {
            return i;
        }
        i = i + 1;
    }
    i
}

/// Raises the need of `tid` for `id` by one and asks the banker for that
/// unit; true where it was granted.
fn request_unit(banker: &mut Banker, tid: usize, id: usize) -> (granted: bool)
    requires
        old(banker).wf(),
        can_request(old(banker)@, tid, id),
    ensures
        final(banker).wf(),
        final(banker)@ == after_request(old(banker)@, tid, id),
        granted == old(banker)@.with_more_need(tid, id, 1).is_safe_state(),
{
    banker.increase_need(tid, id, 1);
    banker.try_allocate(tid, id, 1)
}

impl ProcessSync {
    /// The state is usable: its banker is well formed.
    pub open spec fn wf(&self) -> bool {
        self.banker.wf()
    }

    /// A process with no synchronisation primitives, detection off.
    pub fn new() -> (p: Self)
        ensures
            p.wf(),
            p.mutex_list@.len() == 0,
            p.semaphore_list@.len() == 0,
            p.condvar_list@.len() == 0,
            !p.enable_deadlock_detect,
            p.banker@.available == Map::<usize, isize>::empty(),
            p.banker@.allocation == Map::<usize, Map<usize, isize>>::empty(),
            p.banker@.need == Map::<usize, Map<usize, isize>>::empty(),
    {
        ProcessSync {
            mutex_list: Vec::new(),
            semaphore_list: Vec::new(),
            condvar_list: Vec::new(),
            enable_deadlock_detect: false,
            banker: Banker::new(),
        }
    }
}

/// mutex create syscall
///
/// Puts a mutex in the first free slot (a new slot at the end where none is
/// free), registers it with the banker as a resource of one unit, and
/// returns the slot.
pub fn sys_mutex_create(p: &mut ProcessSync, blocking: bool) -> (r: isize)
    requires
        old(p).wf(),
        old(p).mutex_list@.len() < isize::MAX,
    ensures
        final(p).wf(),
        is_first_free(old(p).mutex_list@, r as int),
        final(p).mutex_list@ == placed(
            old(p).mutex_list@,
            r as int,
            Some(
                if blocking {
                    MutexKind::Blocking
                } else {
                    MutexKind::Spin
                },
            ),
        ),
        final(p).banker@ == (BankerView {
            available: old(p).banker@.available.insert(r as usize, 1),
            ..old(p).banker@
        }),
        final(p).semaphore_list == old(p).semaphore_list,
        final(p).condvar_list == old(p).condvar_list,
        final(p).enable_deadlock_detect == old(p).enable_deadlock_detect,
{
    let kind = if !blocking {
        MutexKind::Spin
    } else {
        MutexKind::Blocking
    };
    let id = first_free(&p.mutex_list);
    if id < p.mutex_list.len() {
        p.mutex_list.set(id, Some(kind));
    } else {
        p.mutex_list.push(Some(kind));
    }
    p.banker.register_resource(id, 1);
    id as isize
}

/// mutex lock syscall
///
/// With deadlock detection on, the need of `tid` for the mutex is raised
/// and the banker asked for it: where the state is not safe the call returns
/// `DEADLOCK_CODE`. Otherwise it returns 0, and the caller then locks.
pub fn sys_mutex_lock(p: &mut ProcessSync, tid: usize, mutex_id: usize) -> (r: isize)
    requires
        old(p).wf(),
        mutex_id < old(p).mutex_list@.len(),
        old(p).mutex_list@[mutex_id as int] is Some,
        old(p).enable_deadlock_detect ==> can_request(old(p).banker@, tid, mutex_id),
    ensures
        final(p).wf(),
        final(p).mutex_list == old(p).mutex_list,
        final(p).semaphore_list == old(p).semaphore_list,
        final(p).condvar_list == old(p).condvar_list,
        final(p).enable_deadlock_detect == old(p).enable_deadlock_detect,
        !old(p).enable_deadlock_detect ==> r == 0 && final(p).banker@ == old(p).banker@,
        old(p).enable_deadlock_detect ==> {
            &&& final(p).banker@ == after_request(old(p).banker@, tid, mutex_id)
            &&& r == if old(p).banker@.with_more_need(tid, mutex_id, 1).is_safe_state() {
                0
            } else {
                DEADLOCK_CODE
            }
        },
{
    let enable = p.enable_deadlock_detect;
    if enable == true {
        let is_safe = request_unit(&mut p.banker, tid, mutex_id);
        if !is_safe {
            return DEADLOCK_CODE;
        }
    }
    0
}

/// mutex unlock syscall
///
/// With deadlock detection on, the mutex's unit is given back to the
/// banker. Returns 0; the caller then unlocks.
pub fn sys_mutex_unlock(p: &mut ProcessSync, mutex_id: usize) -> (r: isize)
    requires
        old(p).wf(),
        mutex_id < old(p).mutex_list@.len(),
        old(p).mutex_list@[mutex_id as int] is Some,
        old(p).enable_deadlock_detect ==> fits_isize(
            amount(old(p).banker@.available, mutex_id) + 1,
        ),
    ensures
        final(p).wf(),
        r == 0,
        final(p).mutex_list == old(p).mutex_list,
        final(p).semaphore_list == old(p).semaphore_list,
        final(p).condvar_list == old(p).condvar_list,
        final(p).enable_deadlock_detect == old(p).enable_deadlock_detect,
        final(p).banker@ == if old(p).enable_deadlock_detect {
            after_release(old(p).banker@, mutex_id)
        } else {
            old(p).banker@
        },
{
    let enable_deadlock_detect = p.enable_deadlock_detect;
    if enable_deadlock_detect == true {
        p.banker.increase_available(mutex_id, 1);
    }
    0
}

/// semaphore create syscall
///
/// Puts a semaphore with `res_count` units in the first free slot (a new
/// slot at the end where none is free), registers it with the banker as a
/// resource of that many units, and returns the slot.
pub fn sys_semaphore_create(p: &mut ProcessSync, res_count: usize) -> (r: isize)
    requires
        old(p).wf(),
        old(p).semaphore_list@.len() < isize::MAX,
    ensures
        final(p).wf(),
        is_first_free(old(p).semaphore_list@, r as int),
        final(p).semaphore_list@ == placed(old(p).semaphore_list@, r as int, Some(res_count)),
        final(p).banker@ == (BankerView {
            available: old(p).banker@.available.insert(r as usize, res_count as isize),
            ..old(p).banker@
        }),
        final(p).mutex_list == old(p).mutex_list,
        final(p).condvar_list == old(p).condvar_list,
        final(p).enable_deadlock_detect == old(p).enable_deadlock_detect,
{
    let id = first_free(&p.semaphore_list);
    if id < p.semaphore_list.len() {
        p.semaphore_list.set(id, Some(res_count));
    } else {
        p.semaphore_list.push(Some(res_count));
    }
    p.banker.register_resource(id, res_count);
    id as isize
}

/// semaphore up syscall
///
/// With deadlock detection on, the unit is given back to the banker, except
/// for the semaphore in slot 0. Returns 0; the caller then raises the
/// semaphore.
pub fn sys_semaphore_up(p: &mut ProcessSync, sem_id: usize) -> (r: isize)
    requires
        old(p).wf(),
        sem_id < old(p).semaphore_list@.len(),
        old(p).semaphore_list@[sem_id as int] is Some,
        old(p).enable_deadlock_detect && sem_id != 0 ==> fits_isize(
            amount(old(p).banker@.available, sem_id) + 1,
        ),
    ensures
        final(p).wf(),
        r == 0,
        final(p).mutex_list == old(p).mutex_list,
        final(p).semaphore_list == old(p).semaphore_list,
        final(p).condvar_list == old(p).condvar_list,
        final(p).enable_deadlock_detect == old(p).enable_deadlock_detect,
        final(p).banker@ == if old(p).enable_deadlock_detect && sem_id != 0 {
            after_release(old(p).banker@, sem_id)
        } else {
            old(p).banker@
        },
{
    let enable_deadlock_detect = p.enable_deadlock_detect;
    if enable_deadlock_detect == true && sem_id != 0 {
        p.banker.increase_available(sem_id, 1);
    }
    0
}

/// semaphore down syscall
///
/// With deadlock detection on, and for any semaphore but the one in slot 0,
/// the need of `tid` is raised and the banker asked for a unit: where the
/// state is not safe the call returns `DEADLOCK_CODE`. Otherwise it returns
/// 0, and the caller then lowers the semaphore.
pub fn sys_semaphore_down(p: &mut ProcessSync, tid: usize, sem_id: usize) -> (r: isize)
    requires
        old(p).wf(),
        sem_id < old(p).semaphore_list@.len(),
        old(p).semaphore_list@[sem_id as int] is Some,
        old(p).enable_deadlock_detect && sem_id != 0 ==> can_request(
            old(p).banker@,
            tid,
            sem_id,
        ),
    ensures
        final(p).wf(),
        final(p).mutex_list == old(p).mutex_list,
        final(p).semaphore_list == old(p).semaphore_list,
        final(p).condvar_list == old(p).condvar_list,
        final(p).enable_deadlock_detect == old(p).enable_deadlock_detect,
        !(old(p).enable_deadlock_detect && sem_id != 0) ==> r == 0 && final(p).banker@ == old(
            p,
        ).banker@,
        old(p).enable_deadlock_detect && sem_id != 0 ==> {
            &&& final(p).banker@ == after_request(old(p).banker@, tid, sem_id)
            &&& r == if old(p).banker@.with_more_need(tid, sem_id, 1).is_safe_state() {
                0
            } else {
                DEADLOCK_CODE
            }
        },
{
    let enable_deadlock_detect = p.enable_deadlock_detect;
    if enable_deadlock_detect == true && sem_id != 0 {
        let is_safe = request_unit(&mut p.banker, tid, sem_id);
        if !is_safe {
            return DEADLOCK_CODE;
        }
    }
    0
}

/// condvar create syscall
///
/// Puts a condition variable in the first unused slot (a new slot at the
/// end where none is unused) and returns the slot.
pub fn sys_condvar_create(p: &mut ProcessSync) -> (r: isize)
    requires
        old(p).wf(),
        old(p).condvar_list@.len() < isize::MAX,
    ensures
        final(p).wf(),
        is_first_unused(old(p).condvar_list@, r as int),
        final(p).condvar_list@ == placed(old(p).condvar_list@, r as int, true),
        final(p).mutex_list == old(p).mutex_list,
        final(p).semaphore_list == old(p).semaphore_list,
        final(p).enable_deadlock_detect == old(p).enable_deadlock_detect,
        final(p).banker == old(p).banker,
{
    let id = first_unused(&p.condvar_list);
    if id < p.condvar_list.len() {
        p.condvar_list.set(id, true);
    } else {
        p.condvar_list.push(true);
    }
    id as isize
}

/// condvar signal syscall
///
/// Returns 0; the caller then signals the condition variable.
pub fn sys_condvar_signal(p: &ProcessSync, condvar_id: usize) -> (r: isize)
    requires
        condvar_id < p.condvar_list@.len(),
        p.condvar_list@[condvar_id as int],
    ensures
        r == 0,
{
    0
}

/// condvar wait syscall
///
/// Returns 0; the caller then waits on the condition variable, releasing
/// the mutex meanwhile.
pub fn sys_condvar_wait(p: &ProcessSync, condvar_id: usize, mutex_id: usize) -> (r: isize)
    requires
        condvar_id < p.condvar_list@.len(),
        p.condvar_list@[condvar_id as int],
        mutex_id < p.mutex_list@.len(),
        p.mutex_list@[mutex_id as int] is Some,
    ensures
        r == 0,
{
    0
}

/// enable deadlock detection syscall
///
/// Detection is on exactly when `enabled` is 1.
pub fn sys_enable_deadlock_detect(p: &mut ProcessSync, enabled: usize) -> (r: isize)
    ensures
        r == 0,
        final(p).enable_deadlock_detect == (enabled == 1),
        final(p).mutex_list == old(p).mutex_list,
        final(p).semaphore_list == old(p).semaphore_list,
        final(p).condvar_list == old(p).condvar_list,
        final(p).banker == old(p).banker,
{
    let status = enabled == 1;
    p.enable_deadlock_detect = status;
    0
}


/// sleep syscall
///
/// The time, in milliseconds, at which a thread that sleeps `ms` from
/// `now_ms` is woken; the caller sets that timer and blocks.
pub fn sys_sleep(now_ms: usize, ms: usize) -> (expire_ms: usize)
    requires
        now_ms + ms <= usize::MAX,
    ensures
        expire_ms == now_ms + ms,
{
    now_ms + ms
}

/// Releasing a unit just granted gives the resource its free units back.
pub proof fn lemma_release_restores_available(v: BankerView, tid: usize, id: usize)
    requires
        v.with_more_need(tid, id, 1).is_safe_state(),
        v.available.contains_key(id),
        fits_isize(v.available[id] - 1),
    ensures
        after_release(after_request(v, tid, id), id).available == v.available,
{
    let w = v.with_more_need(tid, id, 1);
    let g = after_request(v, tid, id);
    assert(g.available[id] == v.available[id] - 1);
    assert(after_release(g, id).available =~= v.available);
}


/// Whether a request of one unit of `id` by `tid` can be made: exactly what
/// the lock and semaphore-down calls ask of the banker. The raised state is
/// judged on a copy of the banker.
pub fn check_request(p: &ProcessSync, tid: usize, id: usize) -> (r: bool)
    requires
        p.wf(),
    ensures
        r == can_request(p.banker@, tid, id),
{
    let need_now: isize = match p.banker.need_of(tid, id) {
        Some(x) => x,
        None => 0,
    };
    if need_now == isize::MAX {
        return false;
    }
    let mut b = p.banker.duplicate();
    b.increase_need(tid, id, 1);
    if !b.need_rows_registered() {
        return false;
    }
    if !b.is_safe() {
        return true;
    }
    if !b.has_thread(tid) {
        return false;
    }
    let avail = match b.available_of(id) {
        Some(a) => a,
        None => {
            return false;
        },
    };
    let alloc: isize = match b.allocation_of(tid, id) {
        Some(x) => x,
        None => 0,
    };
    let need_raised: isize = match b.need_of(tid, id) {
        Some(x) => x,
        None => 0,
    };
    alloc < isize::MAX && avail > isize::MIN && need_raised > isize::MIN
}

/// Whether giving back one unit of `id` keeps its count in range.
pub fn check_release(p: &ProcessSync, id: usize) -> (r: bool)
    requires
        p.wf(),
    ensures
        r == fits_isize(amount(p.banker@.available, id) + 1),
{
    match p.banker.available_of(id) {
        Some(a) => a < isize::MAX,
        None => true,
    }
}


/// A request that the banker refuses changes no holding: the free units and
/// every allocation stay as they were; only the raised need remains.
pub proof fn lemma_refused_request_keeps_holdings(v: BankerView, tid: usize, id: usize)
    requires
        !v.with_more_need(tid, id, 1).is_safe_state(),
    ensures
        after_request(v, tid, id).available == v.available,
        after_request(v, tid, id).allocation == v.allocation,
        after_request(v, tid, id).need == v.with_more_need(tid, id, 1).need,
{
}

} // verus!
