//! The banker's algorithm: per-thread need and allocation of numbered
//! resources, and the check whether the current state is safe.
use vstd::prelude::*;
use crate::id_map::{IdMap, strictly_increasing};

verus! {

/// The amount recorded under `id` in a row, 0 where nothing is recorded.
pub open spec fn amount(m: Map<usize, isize>, id: usize) -> int {
    if m.contains_key(id) {
        m[id] as int
    } else {
        0
    }
}

/// The row of a thread, empty where the thread has none.
pub open spec fn row(m: Map<usize, Map<usize, isize>>, tid: usize) -> Map<usize, isize> {
    if m.contains_key(tid) {
        m[tid]
    } else {
        Map::empty()
    }
}

/// Whether an integer fits in an `isize`.
pub open spec fn fits_isize(x: int) -> bool {
    isize::MIN <= x <= isize::MAX
}

/// The keys of a set of identifiers in ascending order.
pub open spec fn ordered_keys(s: Set<usize>) -> Seq<usize> {
    choose|q: Seq<usize>| strictly_increasing(q) && q.to_set() == s
}

/// Number of entries of `keys` that `order` does not hold.
pub open spec fn missing(keys: Seq<usize>, order: Seq<usize>) -> nat
    decreases keys.len(),
{
    if keys.len() == 0 {
        0
    } else {
        missing(keys.drop_last(), order) + if order.contains(keys.last()) {
            0nat
        } else {
            1nat
        }
    }
}

/// The abstract state of a banker.
pub struct BankerView {
    /// Units of each resource not handed out.
    pub available: Map<usize, isize>,
    /// Units of each resource held, per thread.
    pub allocation: Map<usize, Map<usize, isize>>,
    /// Units of each resource still wanted, per thread.
    pub need: Map<usize, Map<usize, isize>>,
}

impl BankerView {
    /// Units of `id` free once the threads of `order` have finished, one
    /// after the other, and given back what they hold.
    pub open spec fn work_after(self, order: Seq<usize>, id: usize) -> int
        decreases order.len(),
    {
        if order.len() == 0 {
            amount(self.available, id)
        } else {
            self.work_after(order.drop_last(), id) + amount(
                row(self.allocation, order.last()),
                id,
            )
        }
    }

    /// Thread `tid` has a need row, and it can be met once the threads of
    /// `order` have finished.
    pub open spec fn can_finish(self, order: Seq<usize>, tid: usize) -> bool {
        &&& self.need.contains_key(tid)
        &&& forall|id: usize| #[trigger]
            self.need[tid].contains_key(id) ==> self.need[tid][id] <= self.work_after(order, id)
    }

    /// One pass over the first `n` of `keys`, in that order: each thread not
    /// yet finished that can finish is appended to `order`.
    pub open spec fn scan(self, keys: Seq<usize>, n: int, order: Seq<usize>) -> Seq<usize>
        decreases n,
    {
        if n <= 0 {
            order
        } else {
            let o = self.scan(keys, n - 1, order);
            let t = keys[n - 1];
            if !o.contains(t) && self.can_finish(o, t) {
                o.push(t)
            } else {
                o
            }
        }
    }

    /// Passes over `keys` repeated until one finishes nobody: the order in
    /// which the threads finished.
    pub open spec fn settle(self, keys: Seq<usize>, order: Seq<usize>) -> Seq<usize>
        decreases missing(keys, order),
    {
        let next = self.scan(keys, keys.len() as int, order);
        if next.len() == order.len() {
            order
        } else {
            proof {
                lemma_scan_extends(self, keys, keys.len() as int, order);
                let t = next[order.len() as int];
                assert(next.contains(t));
                lemma_missing_shrinks(keys, order, next, t);
            }
            self.settle(keys, next)
        }
    }

    /// The threads that finish, in the order in which the banker's passes
    /// over the need rows (by ascending thread id) let them finish.
    pub open spec fn finish_order(self) -> Seq<usize> {
        self.settle(ordered_keys(self.need.dom()), Seq::empty())
    }

    /// The state is safe: every thread that holds an allocation row finishes.
    pub open spec fn is_safe_state(self) -> bool {
        forall|tid: usize| #[trigger]
            self.allocation.contains_key(tid) ==> self.finish_order().contains(tid)
    }

    /// The state after `k` more units of `id` are made free.
    pub open spec fn with_more_available(self, id: usize, k: usize) -> BankerView {
        BankerView {
            available: self.available.insert(id, (amount(self.available, id) + (k as isize)) as isize),
            ..self
        }
    }

    /// Units of `id` held by the threads of `keys`, all together.
    pub open spec fn held(self, keys: Seq<usize>, id: usize) -> int
        decreases keys.len(),
    {
        if keys.len() == 0 {
            0
        } else {
            self.held(keys.drop_last(), id) + amount(row(self.allocation, keys.last()), id)
        }
    }

    /// All units of `id` the banker accounts for: those free and those held
    /// by every thread with an allocation row.
    pub open spec fn units(self, id: usize) -> int {
        amount(self.available, id) + self.held(ordered_keys(self.allocation.dom()), id)
    }

    /// The state `try_allocate` leaves: granted where the state is safe,
    /// unchanged otherwise.
    pub open spec fn after_try_allocate(self, tid: usize, id: usize, amount_: usize) -> BankerView {
        if self.is_safe_state() {
            self.with_allocation(tid, id, amount_)
        } else {
            self
        }
    }

    /// The state after `need` more units of `id` are wanted by `tid`.
    pub open spec fn with_more_need(self, tid: usize, id: usize, need: usize) -> BankerView {
        BankerView {
            need: self.need.insert(
                tid,
                row(self.need, tid).insert(
                    id,
                    (amount(row(self.need, tid), id) + (need as isize)) as isize,
                ),
            ),
            ..self
        }
    }

    /// What `try_allocate` needs so as not to fail: every thread with a need
    /// row has an allocation row, and, where the state is safe, `tid` has
    /// both rows, `id` is registered and no count leaves the range of `isize`.
    pub open spec fn can_try_allocate(self, tid: usize, id: usize, amount_: usize) -> bool {
        let x = (amount_ as isize) as int;
        &&& self.need.dom().subset_of(self.allocation.dom())
        &&& self.is_safe_state() ==> {
            &&& self.allocation.contains_key(tid)
            &&& self.need.contains_key(tid)
            &&& self.available.contains_key(id)
            &&& fits_isize(amount(self.allocation[tid], id) + x)
            &&& fits_isize(self.available[id] - x)
            &&& self.need[tid].contains_key(id) ==> fits_isize(self.need[tid][id] - x)
        }
    }

    /// The state after `tid` is handed `amount_` units of `id`.
    pub open spec fn with_allocation(self, tid: usize, id: usize, amount_: usize) -> BankerView {
        let x = (amount_ as isize) as int;
        BankerView {
            available: self.available.insert(id, (self.available[id] - x) as isize),
            allocation: self.allocation.insert(
                tid,
                self.allocation[tid].insert(id, (amount(self.allocation[tid], id) + x) as isize),
            ),
            need: self.need.insert(
                tid,
                if self.need[tid].contains_key(id) {
                    self.need[tid].insert(id, (self.need[tid][id] - x) as isize)
                } else {
                    self.need[tid]
                },
            ),
        }
    }
}

/// Raising a need touches one entry: the need of `tid` for `id` grows by
/// `n` (from 0 where there was none), the thread keeps its need for every
/// other resource, every other thread's need row stays as it was, and the
/// free units and the allocations do not change.
pub proof fn lemma_more_need_frame(v: BankerView, tid: usize, id: usize, n: usize)
    requires
        fits_isize(amount(row(v.need, tid), id) + (n as isize)),
    ensures
        ({
            let w = v.with_more_need(tid, id, n);
            &&& w.available == v.available
            &&& w.allocation == v.allocation
            &&& w.need.contains_key(tid)
            &&& w.need[tid].contains_key(id)
            &&& w.need[tid][id] == amount(row(v.need, tid), id) + (n as isize)
            &&& forall|id2: usize|
                id2 != id ==> (#[trigger] w.need[tid].contains_key(id2) <==> (v.need.contains_key(tid)
                    && v.need[tid].contains_key(id2)))
            &&& forall|id2: usize|
                id2 != id && #[trigger] w.need[tid].contains_key(id2) ==> w.need[tid][id2]
                    == v.need[tid][id2]
            &&& forall|t: usize|
                t != tid ==> (#[trigger] w.need.contains_key(t) <==> v.need.contains_key(t))
            &&& forall|t: usize| t != tid && #[trigger] w.need.contains_key(t) ==> w.need[t] == v.need[t]
        }),
{
}

/// A grant touches only what it grants: `amount_` units of `id` leave the
/// free units and join what `tid` holds, and the need of `tid` for `id`
/// drops by as much where it is recorded. Every other free count, every
/// other allocation entry, the need of `tid` for every other resource and
/// every other thread's rows stay as they were.
pub proof fn lemma_grant_frame(v: BankerView, tid: usize, id: usize, amount_: usize)
    requires
        v.can_try_allocate(tid, id, amount_),
        v.is_safe_state(),
    ensures
        ({
            let w = v.after_try_allocate(tid, id, amount_);
            let x = (amount_ as isize) as int;
            &&& w.available.contains_key(id)
            &&& w.available[id] == v.available[id] - x
            &&& forall|r: usize|
                r != id ==> (#[trigger] w.available.contains_key(r) <==> v.available.contains_key(r))
            &&& forall|r: usize|
                r != id && #[trigger] w.available.contains_key(r) ==> w.available[r] == v.available[r]
            &&& w.allocation.dom() == v.allocation.dom()
            &&& w.allocation[tid].contains_key(id)
            &&& w.allocation[tid][id] == amount(v.allocation[tid], id) + x
            &&& forall|r: usize|
                r != id ==> (#[trigger] w.allocation[tid].contains_key(r)
                    <==> v.allocation[tid].contains_key(r))
            &&& forall|r: usize|
                r != id && #[trigger] w.allocation[tid].contains_key(r) ==> w.allocation[tid][r]
                    == v.allocation[tid][r]
            &&& forall|t: usize|
                t != tid && #[trigger] w.allocation.contains_key(t) ==> w.allocation[t]
                    == v.allocation[t]
            &&& w.need.dom() == v.need.dom()
            &&& forall|r: usize| #[trigger]
                w.need[tid].contains_key(r) <==> v.need[tid].contains_key(r)
            &&& v.need[tid].contains_key(id) ==> w.need[tid][id] == v.need[tid][id] - x
            &&& forall|r: usize|
                r != id && #[trigger] w.need[tid].contains_key(r) ==> w.need[tid][r] == v.need[tid][r]
            &&& forall|t: usize| t != tid && #[trigger] w.need.contains_key(t) ==> w.need[t] == v.need[t]
        }),
{
    let w = v.after_try_allocate(tid, id, amount_);
    assert(w.allocation.dom() =~= v.allocation.dom());
    assert(w.need.dom() =~= v.need.dom());
}

/// `scan` only appends threads of `keys` that `order` does not hold.
pub proof fn lemma_scan_extends(v: BankerView, keys: Seq<usize>, n: int, order: Seq<usize>)
    requires
        0 <= n <= keys.len(),
    ensures
        v.scan(keys, n, order).len() >= order.len(),
        forall|i: int|
            0 <= i < order.len() ==> #[trigger] v.scan(keys, n, order)[i] == order[i],
        forall|i: int|
            order.len() <= i < v.scan(keys, n, order).len() ==> !order.contains(
                #[trigger] v.scan(keys, n, order)[i],
            ) && keys.contains(v.scan(keys, n, order)[i]),
        order.no_duplicates() ==> v.scan(keys, n, order).no_duplicates(),
        forall|x: usize| order.contains(x) ==> #[trigger] v.scan(keys, n, order).contains(x),
        v.scan(keys, n, order).len() == order.len() ==> v.scan(keys, n, order) == order,
    decreases n,
{
    if n > 0 {
        lemma_scan_extends(v, keys, n - 1, order);
        let o = v.scan(keys, n - 1, order);
        let t = keys[n - 1];
        assert(keys.contains(t));
        if !o.contains(t) && v.can_finish(o, t) {
            let s = o.push(t);
            assert forall|x: usize| order.contains(x) implies s.contains(x) by {
                assert(o.contains(x));
                let j = choose|j: int| 0 <= j < o.len() && o[j] == x;
                assert(s[j] == x);
            }
            assert forall|i: int| order.len() <= i < s.len() implies !order.contains(s[i])
                && keys.contains(s[i]) by {
                if i < o.len() {
                } else {
                    if order.contains(t) {
                        assert(o.contains(t));
                    }
                }
            }
        } else {
        }
    } else {
        assert(v.scan(keys, n, order) == order);
    }
    let s = v.scan(keys, n, order);
    if s.len() == order.len() {
        assert(s =~= order);
    }
}

/// Adding a thread of `keys` to the finished ones lowers the count of
/// those missing.
pub proof fn lemma_missing_shrinks(keys: Seq<usize>, a: Seq<usize>, b: Seq<usize>, t: usize)
    requires
        forall|x: usize| a.contains(x) ==> #[trigger] b.contains(x),
        keys.contains(t),
        !a.contains(t),
        b.contains(t),
    ensures
        missing(keys, b) < missing(keys, a),
    decreases keys.len(),
{
    lemma_missing_mono(keys.drop_last(), a, b);
    if keys.last() != t {
        let j = choose|j: int| 0 <= j < keys.len() && keys[j] == t;
        assert(keys.drop_last()[j] == t);
        lemma_missing_shrinks(keys.drop_last(), a, b, t);
    }
}

/// Finishing more threads never raises the count of those missing.
pub proof fn lemma_missing_mono(keys: Seq<usize>, a: Seq<usize>, b: Seq<usize>)
    requires
        forall|x: usize| a.contains(x) ==> #[trigger] b.contains(x),
    ensures
        missing(keys, b) <= missing(keys, a),
    decreases keys.len(),
{
    if keys.len() > 0 {
        lemma_missing_mono(keys.drop_last(), a, b);
    }
}

/// Two strictly increasing sequences with the same elements are equal.
pub proof fn lemma_sorted_unique(a: Seq<usize>, b: Seq<usize>)
    requires
        strictly_increasing(a),
        strictly_increasing(b),
        a.to_set() == b.to_set(),
    ensures
        a == b,
    decreases a.len(),
{
    if a.len() == 0 {
        if b.len() > 0 {
            assert(b.to_set().contains(b[0]));
        }
        assert(a =~= b);
    } else {
        assert(a.to_set().contains(a[0]));
        assert(b.to_set().contains(a[0]));
        assert(b.len() > 0);
        assert(b.to_set().contains(b[0]));
        assert(a.to_set().contains(b[0]));
        let i = choose|i: int| 0 <= i < b.len() && b[i] == a[0];
        let j = choose|j: int| 0 <= j < a.len() && a[j] == b[0];
        if i > 0 {
            assert(b[0] < b[i]);
        }
        if j > 0 {
            assert(a[0] < a[j]);
        }
        assert(a[0] == b[0]);
        let a1 = a.drop_first();
        let b1 = b.drop_first();
        assert forall|x: usize| a1.to_set().contains(x) <==> b1.to_set().contains(x) by {
            if a1.to_set().contains(x) {
                let k = choose|k: int| 0 <= k < a1.len() && a1[k] == x;
                assert(a[k + 1] == x);
                assert(a.to_set().contains(x));
                assert(b.to_set().contains(x));
                let m = choose|m: int| 0 <= m < b.len() && b[m] == x;
                assert(a[0] < a[k + 1]);
                if m == 0 {
                    assert(false);
                }
                assert(b1[m - 1] == x);
            }
            if b1.to_set().contains(x) {
                let k = choose|k: int| 0 <= k < b1.len() && b1[k] == x;
                assert(b[k + 1] == x);
                assert(b.to_set().contains(x));
                assert(a.to_set().contains(x));
                let m = choose|m: int| 0 <= m < a.len() && a[m] == x;
                assert(b[0] < b[k + 1]);
                if m == 0 {
                    assert(false);
                }
                assert(a1[m - 1] == x);
            }
        }
        assert(a1.to_set() =~= b1.to_set());
        lemma_sorted_unique(a1, b1);
        assert(a.len() == b.len());
        assert forall|i: int| 0 <= i < a.len() implies a[i] == b[i] by {
            if i > 0 {
                assert(a[i] == a1[i - 1]);
                assert(b[i] == b1[i - 1]);
            }
        }
        assert(a =~= b);
    }
}

/// The keys of a well-formed map are the ordered keys of its domain.
pub proof fn lemma_ordered_keys<V>(m: IdMap<V>)
    requires
        m.wf(),
    ensures
        ordered_keys(m@.dom()) == m.keys(),
{
    m.lemma_view();
    assert(strictly_increasing(m.keys()) && m.keys().to_set() == m@.dom());
    let q = ordered_keys(m@.dom());
    lemma_sorted_unique(q, m.keys());
}

/// The units of `id` recorded in a work table, 0 where nothing is recorded.
pub open spec fn level(m: Map<usize, i128>, id: usize) -> int {
    if m.contains_key(id) {
        m[id] as int
    } else {
        0
    }
}

/// Whether an integer fits in an `i128`.
pub open spec fn fits_i128(x: int) -> bool {
    i128::MIN <= x <= i128::MAX
}

/// A sequence without repeats whose elements all occur in another sequence
/// is no longer than it.
pub proof fn lemma_nodup_len(a: Seq<usize>, b: Seq<usize>)
    requires
        a.no_duplicates(),
        forall|x: usize| a.contains(x) ==> #[trigger] b.contains(x),
    ensures
        a.len() <= b.len(),
{
    a.unique_seq_to_set();
    b.lemma_cardinality_of_set();
    assert(a.to_set().subset_of(b.to_set()));
    vstd::set_lib::lemma_len_subset(a.to_set(), b.to_set());
}

/// The free units after some threads finished stay within what that many
/// `isize` terms can add up to.
pub proof fn lemma_work_bound(v: BankerView, order: Seq<usize>, id: usize)
    ensures
        -(order.len() + 1) * 0x8000_0000_0000_0000 <= v.work_after(order, id),
        v.work_after(order, id) <= (order.len() + 1) * 0x7fff_ffff_ffff_ffff,
    decreases order.len(),
{
    if order.len() > 0 {
        lemma_work_bound(v, order.drop_last(), id);
    }
}

/// The work after a bounded number of finished threads fits in an `i128`.
proof fn lemma_work_fits(v: BankerView, order: Seq<usize>, id: usize)
    requires
        order.len() <= usize::MAX,
    ensures
        fits_i128(v.work_after(order, id)),
{
    lemma_work_bound(v, order, id);
    let n = order.len() + 1;
    assert(n <= 0x1_0000_0000_0000_0000);
    assert(n * 0x8000_0000_0000_0000 <= 0x1_0000_0000_0000_0000 * 0x8000_0000_0000_0000)
        by (nonlinear_arith)
        requires
            n <= 0x1_0000_0000_0000_0000,
    ;
    assert(n * 0x7fff_ffff_ffff_ffff <= 0x1_0000_0000_0000_0000 * 0x7fff_ffff_ffff_ffff)
        by (nonlinear_arith)
        requires
            n <= 0x1_0000_0000_0000_0000,
    ;
}

/// Adds `delta` to the units of `id` in a work table.
fn add_to(work: &mut IdMap<i128>, id: usize, delta: i128)
    requires
        old(work).wf(),
        fits_i128(level(old(work)@, id) + delta),
    ensures
        final(work).wf(),
        level(final(work)@, id) == level(old(work)@, id) + delta,
        forall|k: usize| k != id ==> #[trigger] level(final(work)@, k) == level(old(work)@, k),
{
    let cur: i128 = match work.remove(id) {
        Some(x) => x,
        None => 0,
    };
    work.insert(id, cur + delta);
}

/// A work table holding the free units of each resource.
fn work_from(available: &IdMap<isize>) -> (w: IdMap<i128>)
    requires
        available.wf(),
    ensures
        w.wf(),
        forall|id: usize| #[trigger] level(w@, id) == amount(available@, id),
{
    proof {
        available.lemma_view();
    }
    let ghost keys = available.keys();
    let ghost vals = available.values();
    let mut w: IdMap<i128> = IdMap::new();
    let n = available.len();
    let mut j: usize = 0;
    while j < n
        invariant
            available.wf(),
            keys == available.keys(),
            vals == available.values(),
            n == keys.len(),
            n == vals.len(),
            j <= n,
            w.wf(),
            strictly_increasing(keys),
            forall|jj: int|
                0 <= jj < j ==> #[trigger] w@.contains_key(keys[jj]) && w@[keys[jj]] == vals[jj] as i128,
            forall|id: usize| #[trigger]
                w@.contains_key(id) ==> exists|jj: int| 0 <= jj < j && keys[jj] == id,
        decreases n - j,
    {
        let k = available.key_at(j);
        let x = *available.value_at(j);
        w.insert(k, x as i128);
        proof {
            assert forall|jj: int| 0 <= jj < j + 1 implies #[trigger] w@.contains_key(keys[jj])
                && w@[keys[jj]] == vals[jj] as i128 by {
                if jj < j {
                    assert(keys[jj] < keys[j as int]);
                }
            }
            assert forall|id: usize| #[trigger] w@.contains_key(id) implies exists|jj: int|
                0 <= jj < j + 1 && keys[jj] == id by {
                if id != k {
                    let jj = choose|jj: int| 0 <= jj < j && keys[jj] == id;
                    assert(0 <= jj < j + 1 && keys[jj] == id);
                } else {
                    assert(keys[j as int] == id);
                }
            }
        }
        j = j + 1;
    }
    proof {
        assert forall|id: usize| #[trigger] level(w@, id) == amount(available@, id) by {
            if available@.contains_key(id) {
                let jj = choose|jj: int| 0 <= jj < keys.len() && keys[jj] == id;
                assert(w@.contains_key(keys[jj]));
            } else if w@.contains_key(id) {
                let jj = choose|jj: int| 0 <= jj < j && keys[jj] == id;
                assert(available@.contains_key(keys[jj]));
            }
        }
    }
    w
}

/// Whether every unit wanted in `need_row` is free in `work`.
fn covered(need_row: &IdMap<isize>, work: &IdMap<i128>) -> (r: bool)
    requires
        need_row.wf(),
        work.wf(),
    ensures
        r == forall|id: usize| #[trigger]
            need_row@.contains_key(id) ==> need_row@[id] <= level(work@, id),
{
    proof {
        need_row.lemma_view();
    }
    let ghost keys = need_row.keys();
    let ghost vals = need_row.values();
    let n = need_row.len();
    let mut j: usize = 0;
    while j < n
        invariant
            need_row.wf(),
            work.wf(),
            keys == need_row.keys(),
            vals == need_row.values(),
            n == keys.len(),
            n == vals.len(),
            j <= n,
            forall|jj: int| 0 <= jj < j ==> vals[jj] <= level(work@, #[trigger] keys[jj]),
        decreases n - j,
    {
        proof {
            need_row.lemma_view();
        }
        let k = need_row.key_at(j);
        let x = *need_row.value_at(j);
        let free: i128 = match work.get(k) {
            Some(f) => *f,
            None => 0,
        };
        if x as i128 > free {
            proof {
                assert(need_row@.contains_key(keys[j as int]));
            }
            return false;
        }
        j = j + 1;
    }
    proof {
        assert forall|id: usize| #[trigger] need_row@.contains_key(id) implies need_row@[id] <= level(
            work@,
            id,
        ) by {
            let jj = choose|jj: int| 0 <= jj < keys.len() && keys[jj] == id;
            assert(vals[jj] <= level(work@, keys[jj]));
        }
    }
    true
}

/// Adds the units of an allocation row to a work table.
fn add_row(work: &mut IdMap<i128>, alloc_row: &IdMap<isize>)
    requires
        old(work).wf(),
        alloc_row.wf(),
        forall|id: usize| #[trigger]
            fits_i128(level(old(work)@, id)) && fits_i128(
                level(old(work)@, id) + amount(alloc_row@, id),
            ),
    ensures
        final(work).wf(),
        forall|id: usize| #[trigger]
            level(final(work)@, id) == level(old(work)@, id) + amount(alloc_row@, id),
{
    proof {
        alloc_row.lemma_view();
    }
    let ghost start = work@;
    let ghost keys = alloc_row.keys();
    let ghost vals = alloc_row.values();
    let n = alloc_row.len();
    let mut j: usize = 0;
    while j < n
        invariant
            alloc_row.wf(),
            work.wf(),
            keys == alloc_row.keys(),
            vals == alloc_row.values(),
            n == keys.len(),
            n == vals.len(),
            j <= n,
            strictly_increasing(keys),
            forall|id: usize| #[trigger]
                fits_i128(level(start, id)) && fits_i128(level(start, id) + amount(alloc_row@, id)),
            forall|jj: int|
                0 <= jj < j ==> #[trigger] level(work@, keys[jj]) == level(start, keys[jj]) + vals[jj],
            forall|id: usize|
                (forall|jj: int| 0 <= jj < j ==> keys[jj] != id) ==> #[trigger] level(work@, id)
                    == level(start, id),
        decreases n - j,
    {
        proof {
            alloc_row.lemma_view();
        }
        let k = alloc_row.key_at(j);
        let x = *alloc_row.value_at(j);
        proof {
            assert forall|jj: int| 0 <= jj < j implies keys[jj] != k by {
                assert(keys[jj] < keys[j as int]);
            }
            assert(level(work@, k) == level(start, k));
            assert(alloc_row@.contains_key(k) && alloc_row@[k] == x);
            assert(fits_i128(level(start, k)));
        }
        let ghost before = work@;
        add_to(work, k, x as i128);
        proof {
            assert forall|jj: int| 0 <= jj < j + 1 implies #[trigger] level(work@, keys[jj]) == level(
                start,
                keys[jj],
            ) + vals[jj] by {
                if jj < j {
                    assert(keys[jj] < keys[j as int]);
                    assert(level(work@, keys[jj]) == level(before, keys[jj]));
                }
            }
            assert forall|id: usize|
                (forall|jj: int| 0 <= jj < j + 1 ==> keys[jj] != id) implies #[trigger] level(
                work@,
                id,
            ) == level(start, id) by {
                assert(keys[j as int] != id);
                assert(level(work@, id) == level(before, id));
            }
        }
        j = j + 1;
    }
    proof {
        assert forall|id: usize| #[trigger] level(work@, id) == level(start, id) + amount(
            alloc_row@,
            id,
        ) by {
            if alloc_row@.contains_key(id) {
                let jj = choose|jj: int| 0 <= jj < keys.len() && keys[jj] == id;
                assert(level(work@, keys[jj]) == level(start, keys[jj]) + vals[jj]);
            } else {
                assert forall|jj: int| 0 <= jj < j implies keys[jj] != id by {
                    if keys[jj] == id {
                        assert(alloc_row@.contains_key(keys[jj]));
                    }
                }
            }
        }
    }
}

/// A copy of a table of rows.
fn copy_rows(rows: &IdMap<IdMap<isize>>) -> (r: IdMap<IdMap<isize>>)
    requires
        rows.wf(),
        forall|t: usize| #[trigger] rows@.contains_key(t) ==> rows@[t].wf(),
    ensures
        r.wf(),
        forall|t: usize| #[trigger] r@.contains_key(t) ==> r@[t].wf(),
        r@.map_values(|m: IdMap<isize>| m@) == rows@.map_values(|m: IdMap<isize>| m@),
{
    proof {
        rows.lemma_view();
    }
    let ghost keys = rows.keys();
    let ghost vals = rows.values();
    let mut r: IdMap<IdMap<isize>> = IdMap::new();
    let n = rows.len();
    let mut j: usize = 0;
    while j < n
        invariant
            rows.wf(),
            keys == rows.keys(),
            vals == rows.values(),
            n == keys.len(),
            n == vals.len(),
            j <= n,
            r.wf(),
            strictly_increasing(keys),
            forall|jj: int|
                #![trigger keys[jj]]
                0 <= jj < n ==> rows@.contains_key(keys[jj]) && rows@[keys[jj]] == vals[jj],
            forall|t: usize| #[trigger] rows@.contains_key(t) ==> rows@[t].wf(),
            forall|jj: int|
                0 <= jj < j ==> #[trigger] r@.contains_key(keys[jj]) && r@[keys[jj]]@ == vals[jj]@
                    && r@[keys[jj]].wf(),
            forall|t: usize| #[trigger]
                r@.contains_key(t) ==> exists|jj: int| 0 <= jj < j && keys[jj] == t,
        decreases n - j,
    {
        let k = rows.key_at(j);
        let row_copy = rows.value_at(j).duplicate();
        proof {
            assert(rows@.contains_key(keys[j as int]));
        }
        r.insert(k, row_copy);
        proof {
            assert forall|jj: int| 0 <= jj < j + 1 implies #[trigger] r@.contains_key(keys[jj])
                && r@[keys[jj]]@ == vals[jj]@ && r@[keys[jj]].wf() by {
                if jj < j {
                    assert(keys[jj] < keys[j as int]);
                }
            }
            assert forall|t: usize| #[trigger] r@.contains_key(t) implies exists|jj: int|
                0 <= jj < j + 1 && keys[jj] == t by {
                if t != k {
                    let jj = choose|jj: int| 0 <= jj < j && keys[jj] == t;
                    assert(0 <= jj < j + 1 && keys[jj] == t);
                } else {
                    assert(keys[j as int] == t);
                }
            }
            assert forall|t: usize| #[trigger] r@.contains_key(t) implies r@[t].wf() by {
                let jj = choose|jj: int| 0 <= jj < j + 1 && keys[jj] == t;
            }
        }
        j = j + 1;
    }
    proof {
        assert forall|t: usize| #[trigger] r@.contains_key(t) == rows@.contains_key(t) by {
            if rows@.contains_key(t) {
                let jj = choose|jj: int| 0 <= jj < keys.len() && keys[jj] == t;
                assert(r@.contains_key(keys[jj]));
            }
            if r@.contains_key(t) {
                let jj = choose|jj: int| 0 <= jj < j && keys[jj] == t;
                assert(rows@.contains_key(keys[jj]));
            }
        }
        assert forall|t: usize| #[trigger] r@.contains_key(t) implies r@[t]@ == rows@[t]@ by {
            let jj = choose|jj: int| 0 <= jj < j && keys[jj] == t;
            assert(r@[keys[jj]]@ == vals[jj]@);
        }
        assert(r@.map_values(|m: IdMap<isize>| m@) =~= rows@.map_values(|m: IdMap<isize>| m@));
    }
    r
}

/// Deadlock avoidance by the banker's algorithm.
pub struct Banker {
    available: IdMap<isize>,
    allocation: IdMap<IdMap<isize>>,
    need: IdMap<IdMap<isize>>,
}

impl View for Banker {
    type V = BankerView;

    closed spec fn view(&self) -> BankerView {
        BankerView {
            available: self.available@,
            allocation: self.allocation@.map_values(|m: IdMap<isize>| m@),
            need: self.need@.map_values(|m: IdMap<isize>| m@),
        }
    }
}

impl Banker {
    /// Every map of the banker is well formed.
    pub closed spec fn wf(&self) -> bool {
        &&& self.available.wf()
        &&& self.allocation.wf()
        &&& self.need.wf()
        &&& forall|t: usize| #[trigger]
            self.allocation@.contains_key(t) ==> self.allocation@[t].wf()
        &&& forall|t: usize| #[trigger] self.need@.contains_key(t) ==> self.need@[t].wf()
    }

    /// new a Banker
    pub fn new() -> (b: Self)
        ensures
            b.wf(),
            b@.available == Map::<usize, isize>::empty(),
            b@.allocation == Map::<usize, Map<usize, isize>>::empty(),
            b@.need == Map::<usize, Map<usize, isize>>::empty(),
    {
        let b = Banker { available: IdMap::new(), allocation: IdMap::new(), need: IdMap::new() };
        assert(b@.allocation =~= Map::<usize, Map<usize, isize>>::empty());
        assert(b@.need =~= Map::<usize, Map<usize, isize>>::empty());
        b
    }

    /// Register new Resources
    pub fn register_resource(&mut self, id: usize, total: usize)
        requires
            old(self).wf(),
        ensures
            final(self).wf(),
            final(self)@ == (BankerView {
                available: old(self)@.available.insert(id, total as isize),
                ..old(self)@
            }),
    {
        self.available.insert(id, total as isize);
    }

    /// Register new tasks
    pub fn register_thread(&mut self, tid: usize)
        requires
            old(self).wf(),
        ensures
            final(self).wf(),
            final(self)@ == (BankerView {
                allocation: old(self)@.allocation.insert(tid, Map::empty()),
                need: old(self)@.need.insert(tid, Map::empty()),
                ..old(self)@
            }),
    {
        let ghost pre = self@;
        self.allocation.insert(tid, IdMap::new());
        self.need.insert(tid, IdMap::new());
        assert(self@.allocation =~= pre.allocation.insert(tid, Map::empty()));
        assert(self@.need =~= pre.need.insert(tid, Map::empty()));
    }

    /// Set task need
    pub fn increase_need(&mut self, tid: usize, id: usize, need: usize)
        requires
            old(self).wf(),
            fits_isize(amount(row(old(self)@.need, tid), id) + (need as isize)),
        ensures
            final(self).wf(),
            final(self)@ == old(self)@.with_more_need(tid, id, need),
    {
        let ghost pre = self@;
        let mut need_map = match self.need.remove(tid) {
            Some(m) => m,
            None => IdMap::new(),
        };
        assert(need_map@ == row(pre.need, tid));
        let cur: isize = match need_map.get(id) {
            Some(x) => *x,
            None => 0,
        };
        need_map.insert(id, cur + need as isize);
        self.need.insert(tid, need_map);
        assert(self@.need =~= pre.with_more_need(tid, id, need).need);
    }

    /// increase_available
    pub fn increase_available(&mut self, id: usize, increase: usize)
        requires
            old(self).wf(),
            fits_isize(amount(old(self)@.available, id) + (increase as isize)),
        ensures
            final(self).wf(),
            final(self)@ == old(self)@.with_more_available(id, increase),
    {
        let cur: isize = match self.available.get(id) {
            Some(x) => *x,
            None => 0,
        };
        self.available.insert(id, cur + increase as isize);
    }

    /// Facts about the rows of a well-formed banker.
    proof fn lemma_rows(&self)
        requires
            self.wf(),
        ensures
            self@.need.dom() == self.need@.dom(),
            self@.allocation.dom() == self.allocation@.dom(),
            forall|t: usize| #[trigger]
                self.need@.contains_key(t) ==> self@.need[t] == self.need@[t]@ && self.need@[t].wf(),
            forall|t: usize| #[trigger]
                self.allocation@.contains_key(t) ==> self@.allocation[t] == self.allocation@[t]@
                    && self.allocation@[t].wf(),
            self.need.keys() == ordered_keys(self@.need.dom()),
    {
        assert(self@.need.dom() =~= self.need@.dom());
        assert(self@.allocation.dom() =~= self.allocation@.dom());
        lemma_ordered_keys(self.need);
    }

    /// judge safe
    pub fn is_safe(&self) -> (r: bool)
        requires
            self.wf(),
            self@.need.dom().subset_of(self@.allocation.dom()),
        ensures
            r == self@.is_safe_state(),
    {
        let ghost v = self@;
        proof {
            self.lemma_rows();
            self.need.lemma_view();
        }
        let ghost keys = self.need.keys();
        let ghost vals = self.need.values();
        let mut work = work_from(&self.available);
        let n = self.need.len();
        let mut done: Vec<bool> = Vec::new();
        let mut i: usize = 0;
        while i < n
            invariant
                i <= n,
                done@.len() == i,
                forall|j: int| 0 <= j < i ==> !done@[j],
            decreases n - i,
        {
            done.push(false);
            i = i + 1;
        }
        let ghost mut order: Seq<usize> = Seq::empty();
        proof {
            assert forall|id: usize| #[trigger] level(work@, id) == v.work_after(order, id) by {}
            assert forall|j: int| 0 <= j < n implies done@[j] == order.contains(keys[j]) by {}
        }
        loop
            invariant
                self.wf(),
                v == self@,
                keys == self.need.keys(),
                vals == self.need.values(),
                n == keys.len(),
                n == vals.len(),
                strictly_increasing(keys),
                keys == ordered_keys(v.need.dom()),
                forall|j: int|
                    #![trigger keys[j]]
                    0 <= j < n ==> self.need@.contains_key(keys[j]) && self.need@[keys[j]] == vals[j],
                forall|t: usize| #[trigger]
                    self.need@.contains_key(t) ==> v.need[t] == self.need@[t]@ && self.need@[t].wf(),
                forall|t: usize| #[trigger]
                    self.allocation@.contains_key(t) ==> v.allocation[t]
                        == self.allocation@[t]@ && self.allocation@[t].wf(),
                v.allocation.dom() == self.allocation@.dom(),
                done@.len() == n,
                forall|j: int| 0 <= j < n ==> done@[j] == order.contains(#[trigger] keys[j]),
                order.no_duplicates(),
                forall|x: usize| order.contains(x) ==> #[trigger] keys.contains(x),
                work.wf(),
                forall|id: usize| #[trigger] level(work@, id) == v.work_after(order, id),
                v.settle(keys, order) == v.finish_order(),
            ensures
                v.finish_order() == order,
                done@.len() == n,
                forall|j: int| 0 <= j < n ==> done@[j] == order.contains(#[trigger] keys[j]),
                forall|x: usize| order.contains(x) ==> #[trigger] keys.contains(x),
            decreases missing(keys, order),
        {
            let ghost start = order;
            let mut found = false;
            let mut i: usize = 0;
            while i < n
                invariant
                    self.wf(),
                    v == self@,
                    keys == self.need.keys(),
                    vals == self.need.values(),
                    n == keys.len(),
                    n == vals.len(),
                    strictly_increasing(keys),
                    forall|j: int|
                        #![trigger keys[j]]
                        0 <= j < n ==> self.need@.contains_key(keys[j]) && self.need@[keys[j]]
                            == vals[j],
                    forall|t: usize| #[trigger]
                        self.need@.contains_key(t) ==> v.need[t] == self.need@[t]@
                            && self.need@[t].wf(),
                    forall|t: usize| #[trigger]
                        self.allocation@.contains_key(t) ==> v.allocation[t]
                            == self.allocation@[t]@ && self.allocation@[t].wf(),
                    i <= n,
                    done@.len() == n,
                    forall|j: int| 0 <= j < n ==> done@[j] == order.contains(#[trigger] keys[j]),
                    order.no_duplicates(),
                    forall|x: usize| order.contains(x) ==> #[trigger] keys.contains(x),
                    work.wf(),
                    forall|id: usize| #[trigger] level(work@, id) == v.work_after(order, id),
                    order == v.scan(keys, i as int, start),
                    found == (order.len() != start.len()),
                decreases n - i,
            {
                let tid = self.need.key_at(i);
                if !done[i] {
                    let need_row = self.need.value_at(i);
                    proof {
                        assert(self.need@.contains_key(keys[i as int]));
                        assert(need_row@ == v.need[tid]);
                    }
                    let can = covered(need_row, &work);
                    proof {
                        if can {
                            assert forall|id: usize| #[trigger]
                                v.need[tid].contains_key(id) implies v.need[tid][id]
                                <= v.work_after(order, id) by {
                                assert(level(work@, id) == v.work_after(order, id));
                            }
                        } else {
                            let id = choose|id: usize|
                                need_row@.contains_key(id) && !(need_row@[id] <= level(work@, id));
                            assert(level(work@, id) == v.work_after(order, id));
                        }
                        assert(can == v.can_finish(order, tid));
                    }
                    if can {
                        let ghost next = order.push(tid);
                        proof {
                            assert(!order.contains(tid));
                            assert(next.no_duplicates());
                            assert forall|x: usize| next.contains(x) implies #[trigger] keys.contains(
                                x,
                            ) by {
                                if x != tid {
                                    let j = choose|j: int| 0 <= j < next.len() && next[j] == x;
                                    assert(order[j] == x);
                                    assert(order.contains(x));
                                } else {
                                    assert(keys[i as int] == tid);
                                }
                            }
                            lemma_nodup_len(next, keys);
                            assert(next.drop_last() =~= order);
                            assert forall|id: usize| #[trigger]
                                fits_i128(level(work@, id)) && fits_i128(
                                    level(work@, id) + amount(row(v.allocation, tid), id),
                                ) by {
                                lemma_work_fits(v, order, id);
                                lemma_work_fits(v, next, id);
                                assert(level(work@, id) == v.work_after(order, id));
                            }
                        }
                        match self.allocation.get(tid) {
                            Some(a) => {
                                proof {
                                    assert(a@ == row(v.allocation, tid));
                                }
                                add_row(&mut work, a);
                            },
                            None => {
                                proof {
                                    assert forall|id: usize|
                                        amount(row(v.allocation, tid), id) == 0 by {}
                                }
                            },
                        }
                        done.set(i, true);
                        proof {
                            assert forall|id: usize| #[trigger] level(work@, id) == v.work_after(
                                next,
                                id,
                            ) by {
                                assert(v.work_after(next, id) == v.work_after(order, id) + amount(
                                    row(v.allocation, tid),
                                    id,
                                ));
                            }
                            assert forall|j: int| 0 <= j < n implies done@[j] == next.contains(
                                #[trigger] keys[j],
                            ) by {
                                if j != i {
                                    if j < i {
                                        assert(keys[j] < keys[i as int]);
                                    } else {
                                        assert(keys[i as int] < keys[j]);
                                    }
                                    if order.contains(keys[j]) {
                                        let q = choose|q: int| 0 <= q < order.len() && order[q] == keys[j];
                                        assert(next[q] == keys[j]);
                                    }
                                    if next.contains(keys[j]) {
                                        let q = choose|q: int| 0 <= q < next.len() && next[q] == keys[j];
                                        assert(q < order.len());
                                        assert(order[q] == keys[j]);
                                    }
                                } else {
                                    assert(next[order.len() as int] == tid);
                                }
                            }
                            lemma_scan_extends(v, keys, i as int, start);
                            order = next;
                        }
                        found = true;
                    }
                }
                proof {
                    lemma_scan_extends(v, keys, i as int, start);
                }
                i = i + 1;
            }
            proof {
                lemma_scan_extends(v, keys, n as int, start);
            }
            if !found {
                proof {
                    assert(order == start);
                }
                break;
            }
            proof {
                let t = order[start.len() as int];
                assert(order.contains(t));
                lemma_missing_shrinks(keys, start, order, t);
            }
        }
        let m = self.allocation.len();
        let mut j: usize = 0;
        proof {
            self.allocation.lemma_view();
        }
        while j < m
            invariant
                self.wf(),
                v == self@,
                keys == self.need.keys(),
                n == keys.len(),
                m == self.allocation.keys().len(),
                strictly_increasing(keys),
                v.allocation.dom() == self.allocation@.dom(),
                self.allocation@.dom() == self.allocation.keys().to_set(),
                v.finish_order() == order,
                done@.len() == n,
                forall|jj: int| 0 <= jj < n ==> done@[jj] == order.contains(#[trigger] keys[jj]),
                forall|x: usize| order.contains(x) ==> #[trigger] keys.contains(x),
                j <= m,
                forall|jj: int|
                    0 <= jj < j ==> order.contains(#[trigger] self.allocation.keys()[jj]),
            decreases m - j,
        {
            let tid = self.allocation.key_at(j);
            match self.need.find(tid) {
                Ok(idx) => {
                    if !done[idx] {
                        proof {
                            assert(self.allocation.keys().to_set().contains(tid));
                            assert(!v.finish_order().contains(tid));
                        }
                        return false;
                    }
                },
                Err(pos) => {
                    proof {
                        assert(self.allocation.keys().to_set().contains(tid));
                        if order.contains(tid) {
                            assert(keys.contains(tid));
                            let q = choose|q: int| 0 <= q < keys.len() && keys[q] == tid;
                            if q < pos {
                                assert(keys[q] < tid);
                            } else {
                                assert(keys[q] > tid);
                            }
                        }
                    }
                    return false;
                },
            }
            j = j + 1;
        }
        proof {
            assert forall|tid: usize| #[trigger]
                v.allocation.contains_key(tid) implies v.finish_order().contains(tid) by {
                assert(self.allocation.keys().to_set().contains(tid));
                let q = choose|q: int|
                    0 <= q < self.allocation.keys().len() && self.allocation.keys()[q] == tid;
                assert(order.contains(self.allocation.keys()[q]));
            }
        }
        true
    }

    /// try to alloc
    pub fn try_allocate(&mut self, tid: usize, id: usize, amount: usize) -> (r: bool)
        requires
            old(self).wf(),
            old(self)@.can_try_allocate(tid, id, amount),
        ensures
            final(self).wf(),
            r == old(self)@.is_safe_state(),
            final(self)@ == old(self)@.after_try_allocate(tid, id, amount),
    {
        let safe = self.is_safe();
        if safe {
            let ghost pre = self@;
            proof {
                self.lemma_rows();
            }
            let x = amount as isize;
            let mut arow = self.allocation.remove(tid).unwrap();
            let cur: isize = match arow.get(id) {
                Some(a) => *a,
                None => 0,
            };
            arow.insert(id, cur + x);
            self.allocation.insert(tid, arow);
            let av: isize = *self.available.get(id).unwrap();
            self.available.insert(id, av - x);
            let mut nrow = self.need.remove(tid).unwrap();
            let cur_need: Option<isize> = match nrow.get(id) {
                Some(nv) => Some(*nv),
                None => None,
            };
            match cur_need {
                Some(nv) => {
                    nrow.insert(id, nv - x);
                },
                None => {},
            }
            self.need.insert(tid, nrow);
            proof {
                let post = pre.with_allocation(tid, id, amount);
                assert(self@.available =~= post.available);
                assert(self@.allocation =~= post.allocation);
                assert(self@.need =~= post.need);
            }
        }
        safe
    }

    /// The ascending keys of the need rows enumerate exactly those rows.
    pub proof fn lemma_keys_facts(&self)
        requires
            self.wf(),
        ensures
            strictly_increasing(ordered_keys(self@.need.dom())),
            ordered_keys(self@.need.dom()).to_set() == self@.need.dom(),
            ordered_keys(self@.need.dom()).no_duplicates(),
    {
        self.lemma_rows();
        self.need.lemma_view();
    }

    /// The free units of resource `id`, if it is registered.
    pub fn available_of(&self, id: usize) -> (r: Option<isize>)
        requires
            self.wf(),
        ensures
            r == if self@.available.contains_key(id) {
                Some(self@.available[id])
            } else {
                None
            },
    {
        match self.available.get(id) {
            Some(x) => Some(*x),
            None => None,
        }
    }

    /// The units of `id` held by `tid`, if recorded.
    pub fn allocation_of(&self, tid: usize, id: usize) -> (r: Option<isize>)
        requires
            self.wf(),
        ensures
            r == if self@.allocation.contains_key(tid) && self@.allocation[tid].contains_key(id) {
                Some(self@.allocation[tid][id])
            } else {
                None
            },
    {
        proof {
            self.lemma_rows();
        }
        match self.allocation.get(tid) {
            Some(m) => match m.get(id) {
                Some(x) => Some(*x),
                None => None,
            },
            None => None,
        }
    }

    /// The units of `id` still wanted by `tid`, if recorded.
    pub fn need_of(&self, tid: usize, id: usize) -> (r: Option<isize>)
        requires
            self.wf(),
        ensures
            r == if self@.need.contains_key(tid) && self@.need[tid].contains_key(id) {
                Some(self@.need[tid][id])
            } else {
                None
            },
    {
        proof {
            self.lemma_rows();
        }
        match self.need.get(tid) {
            Some(m) => match m.get(id) {
                Some(x) => Some(*x),
                None => None,
            },
            None => None,
        }
    }

    /// Whether `tid` has been registered (holds an allocation row).
    pub fn has_thread(&self, tid: usize) -> (r: bool)
        requires
            self.wf(),
        ensures
            r == self@.allocation.contains_key(tid),
    {
        proof {
            self.lemma_rows();
        }
        self.allocation.get(tid).is_some()
    }

    /// Whether every thread with a need row also has an allocation row, as
    /// the safety check requires.
    pub fn need_rows_registered(&self) -> (r: bool)
        requires
            self.wf(),
        ensures
            r == self@.need.dom().subset_of(self@.allocation.dom()),
    {
        proof {
            self.lemma_rows();
            self.need.lemma_view();
        }
        let ghost keys = self.need.keys();
        let n = self.need.len();
        let mut i: usize = 0;
        while i < n
            invariant
                self.wf(),
                keys == self.need.keys(),
                n == keys.len(),
                i <= n,
                self@.need.dom() == self.need@.dom(),
                self@.allocation.dom() == self.allocation@.dom(),
                self.need@.dom() == keys.to_set(),
                forall|j: int| 0 <= j < i ==> self@.allocation.contains_key(#[trigger] keys[j]),
            decreases n - i,
        {
            let tid = self.need.key_at(i);
            if self.allocation.get(tid).is_none() {
                proof {
                    assert(keys.to_set().contains(tid));
                }
                return false;
            }
            i = i + 1;
        }
        proof {
            assert forall|t: usize| self@.need.dom().contains(t) implies self@.allocation.dom().contains(
                t,
            ) by {
                assert(keys.to_set().contains(t));
                let j = choose|j: int| 0 <= j < keys.len() && keys[j] == t;
                assert(self@.allocation.contains_key(keys[j]));
            }
        }
        true
    }

    /// The ascending keys of the allocation rows enumerate exactly those rows.
    pub proof fn lemma_allocation_keys_facts(&self)
        requires
            self.wf(),
        ensures
            strictly_increasing(ordered_keys(self@.allocation.dom())),
            ordered_keys(self@.allocation.dom()).to_set() == self@.allocation.dom(),
            ordered_keys(self@.allocation.dom()).no_duplicates(),
    {
        self.lemma_rows();
        self.allocation.lemma_view();
        lemma_ordered_keys(self.allocation);
    }

    /// A copy of the banker.
    pub fn duplicate(&self) -> (r: Banker)
        requires
            self.wf(),
        ensures
            r.wf(),
            r@ == self@,
    {
        let r = Banker {
            available: self.available.duplicate(),
            allocation: copy_rows(&self.allocation),
            need: copy_rows(&self.need),
        };
        r
    }
}

} // verus!
