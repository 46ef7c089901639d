//! What the banker's safety check means: a state is judged safe exactly when
//! the threads can be ordered so that each one's need is met by what is free
//! once those before it have finished and given their units back.
use vstd::prelude::*;
use crate::sync::banker::{amount, row, fits_isize, ordered_keys, lemma_scan_extends, Banker, BankerView};


verus! {

/// No thread holds a negative number of units of any resource.
pub open spec fn allocations_nonnegative(v: BankerView) -> bool {
    forall|t: usize, id: usize|
        v.allocation.contains_key(t) && #[trigger] v.allocation[t].contains_key(id) ==> v.allocation[t][id]
            >= 0
}

/// `s` orders every thread that holds an allocation row so that each can
/// finish with what the threads before it give back.
pub open spec fn is_safe_sequence(v: BankerView, s: Seq<usize>) -> bool {
    &&& s.no_duplicates()
    &&& forall|t: usize| v.allocation.contains_key(t) <==> #[trigger] s.contains(t)
    &&& forall|k: int| 0 <= k < s.len() ==> #[trigger] v.can_finish(s.take(k), s[k])
}

/// Every thread of `order` could finish once those before it had.
pub open spec fn finishes_in_order(v: BankerView, order: Seq<usize>) -> bool {
    forall|k: int| 0 <= k < order.len() ==> #[trigger] v.can_finish(order.take(k), order[k])
}

proof fn lemma_scan_in_order(v: BankerView, keys: Seq<usize>, n: int, order: Seq<usize>)
    requires
        0 <= n <= keys.len(),
        finishes_in_order(v, order),
    ensures
        finishes_in_order(v, v.scan(keys, n, order)),
    decreases n,
{
    if n > 0 {
        lemma_scan_in_order(v, keys, n - 1, order);
        let o = v.scan(keys, n - 1, order);
        let t = keys[n - 1];
        if !o.contains(t) && v.can_finish(o, t) {
            let s = o.push(t);
            assert forall|k: int| 0 <= k < s.len() implies #[trigger] v.can_finish(s.take(k), s[k]) by {
                if k < o.len() {
                    assert(s.take(k) =~= o.take(k));
                    assert(v.can_finish(o.take(k), o[k]));
                } else {
                    assert(s.take(k) =~= o);
                }
            }
        }
    }
}

proof fn lemma_settle_facts(v: BankerView, keys: Seq<usize>, order: Seq<usize>)
    requires
        finishes_in_order(v, order),
        order.no_duplicates(),
        forall|x: usize| order.contains(x) ==> #[trigger] keys.contains(x),
    ensures
        finishes_in_order(v, v.settle(keys, order)),
        v.settle(keys, order).no_duplicates(),
        forall|x: usize| v.settle(keys, order).contains(x) ==> #[trigger] keys.contains(x),
        v.scan(keys, keys.len() as int, v.settle(keys, order)).len() == v.settle(keys, order).len(),
    decreases crate::sync::banker::missing(keys, order),
{
    let next = v.scan(keys, keys.len() as int, order);
    lemma_scan_extends(v, keys, keys.len() as int, order);
    if next.len() != order.len() {
        lemma_scan_in_order(v, keys, keys.len() as int, order);
        assert forall|x: usize| next.contains(x) implies #[trigger] keys.contains(x) by {
            let j = choose|j: int| 0 <= j < next.len() && next[j] == x;
            if j < order.len() {
                assert(order[j] == x);
                assert(order.contains(x));
            }
        }
        let t = next[order.len() as int];
        assert(next.contains(t));
        crate::sync::banker::lemma_missing_shrinks(keys, order, next, t);
        lemma_settle_facts(v, keys, next);
    }
}

proof fn lemma_scan_stuck(v: BankerView, keys: Seq<usize>, n: int, order: Seq<usize>)
    requires
        0 <= n <= keys.len(),
        v.scan(keys, n, order).len() == order.len(),
    ensures
        forall|j: int|
            0 <= j < n && !order.contains(keys[j]) ==> !#[trigger] v.can_finish(order, keys[j]),
    decreases n,
{
    if n > 0 {
        lemma_scan_extends(v, keys, n - 1, order);
        let o = v.scan(keys, n - 1, order);
        assert(o.len() <= v.scan(keys, n, order).len());
        assert(o == order);
        lemma_scan_stuck(v, keys, n - 1, order);
    }
}

proof fn lemma_work_remove(v: BankerView, q: Seq<usize>, j: int, id: usize)
    requires
        0 <= j < q.len(),
    ensures
        v.work_after(q, id) == v.work_after(q.remove(j), id) + amount(row(v.allocation, q[j]), id),
    decreases q.len(),
{
    if j == q.len() - 1 {
        assert(q.remove(j) =~= q.drop_last());
    } else {
        let r = q.remove(j);
        assert(r.drop_last() =~= q.drop_last().remove(j));
        assert(r.last() == q.last());
        lemma_work_remove(v, q.drop_last(), j, id);
    }
}

proof fn lemma_work_at_least_available(v: BankerView, q: Seq<usize>, id: usize)
    requires
        allocations_nonnegative(v),
    ensures
        v.work_after(q, id) >= amount(v.available, id),
    decreases q.len(),
{
    if q.len() > 0 {
        lemma_work_at_least_available(v, q.drop_last(), id);
        let t = q.last();
        if v.allocation.contains_key(t) && v.allocation[t].contains_key(id) {
            assert(v.allocation[t][id] >= 0);
        }
    }
}

/// With no negative allocations, more finished threads never leave fewer
/// units free.
pub proof fn lemma_work_mono(v: BankerView, p: Seq<usize>, q: Seq<usize>, id: usize)
    requires
        allocations_nonnegative(v),
        p.no_duplicates(),
        q.no_duplicates(),
        forall|x: usize| p.contains(x) ==> #[trigger] q.contains(x),
    ensures
        v.work_after(p, id) <= v.work_after(q, id),
    decreases p.len(),
{
    if p.len() == 0 {
        lemma_work_at_least_available(v, q, id);
    } else {
        let t = p.last();
        assert(p.contains(t));
        assert(q.contains(t));
        let j = choose|j: int| 0 <= j < q.len() && q[j] == t;
        let q1 = q.remove(j);
        let p1 = p.drop_last();
        assert forall|x: usize| p1.contains(x) implies #[trigger] q1.contains(x) by {
            let a = choose|a: int| 0 <= a < p1.len() && p1[a] == x;
            assert(p[a] == x);
            assert(p.contains(x));
            assert(q.contains(x));
            assert(x != t);
            let b = choose|b: int| 0 <= b < q.len() && q[b] == x;
            assert(b != j);
            if b < j {
                assert(q1[b] == x);
            } else {
                assert(q1[b - 1] == x);
            }
        }
        assert(q1.no_duplicates()) by {
            assert forall|a: int, b: int| 0 <= a < q1.len() && 0 <= b < q1.len() && a != b implies q1[a]
                != q1[b] by {
                let a2 = if a < j {
                    a
                } else {
                    a + 1
                };
                let b2 = if b < j {
                    b
                } else {
                    b + 1
                };
                assert(q1[a] == q[a2]);
                assert(q1[b] == q[b2]);
            }
        }
        lemma_work_mono(v, p1, q1, id);
        lemma_work_remove(v, q, j, id);
    }
}

/// Soundness of the safety check: where every thread with a need row has an
/// allocation row and the banker judges the state safe, the order in which
/// its passes let the threads finish is a safe sequence.
pub proof fn lemma_safe_state_has_safe_sequence(b: Banker)
    requires
        b.wf(),
        b@.need.dom().subset_of(b@.allocation.dom()),
        b@.is_safe_state(),
    ensures
        is_safe_sequence(b@, b@.finish_order()),
{
    let v = b@;
    b.lemma_keys_facts();
    let keys = ordered_keys(v.need.dom());
    let o = v.finish_order();
    assert(finishes_in_order(v, Seq::<usize>::empty()));
    assert(Seq::<usize>::empty().no_duplicates());
    lemma_settle_facts(v, keys, Seq::empty());
    assert forall|t: usize| v.allocation.contains_key(t) <==> #[trigger] o.contains(t) by {
        if o.contains(t) {
            assert(keys.contains(t));
            assert(keys.to_set().contains(t));
        }
    }
}

/// Completeness of the safety check: where no thread holds a negative
/// allocation and every thread with a need row has an allocation row, a
/// state for which some safe sequence exists is judged safe.
pub proof fn lemma_safe_sequence_makes_state_safe(b: Banker, s: Seq<usize>)
    requires
        b.wf(),
        b@.need.dom().subset_of(b@.allocation.dom()),
        allocations_nonnegative(b@),
        is_safe_sequence(b@, s),
    ensures
        b@.is_safe_state(),
{
    b.lemma_keys_facts();
    lemma_safe_sequence_makes_view_safe(b@, s);
}

proof fn lemma_safe_sequence_makes_view_safe(v: BankerView, s: Seq<usize>)
    requires
        ordered_keys(v.need.dom()).to_set() == v.need.dom(),
        v.need.dom().subset_of(v.allocation.dom()),
        allocations_nonnegative(v),
        is_safe_sequence(v, s),
    ensures
        v.is_safe_state(),
{
    let keys = ordered_keys(v.need.dom());
    let o = v.finish_order();
    assert(finishes_in_order(v, Seq::<usize>::empty()));
    assert(Seq::<usize>::empty().no_duplicates());
    lemma_settle_facts(v, keys, Seq::empty());
    lemma_scan_stuck(v, keys, keys.len() as int, o);
    lemma_prefix_finished(v, keys, s, o, s.len() as int);
    assert forall|t: usize| #[trigger] v.allocation.contains_key(t) implies o.contains(t) by {
        assert(s.contains(t));
        let k = choose|k: int| 0 <= k < s.len() && s[k] == t;
        assert(o.contains(s[k]));
    }
}

proof fn lemma_work_with_more_available(v: BankerView, id: usize, k: usize, q: Seq<usize>, r: usize)
    requires
        fits_isize(amount(v.available, id) + (k as isize)),
    ensures
        v.with_more_available(id, k).work_after(q, r) == v.work_after(q, r) + if r == id {
            (k as isize) as int
        } else {
            0
        },
    decreases q.len(),
{
    if q.len() > 0 {
        lemma_work_with_more_available(v, id, k, q.drop_last(), r);
    }
}

/// Making more units free keeps a safe state safe, where no thread holds a
/// negative allocation, every thread with a need row has an allocation row,
/// and the added count is a nonnegative `isize`.
pub proof fn lemma_more_available_keeps_safe(b: Banker, id: usize, k: usize)
    requires
        b.wf(),
        b@.need.dom().subset_of(b@.allocation.dom()),
        allocations_nonnegative(b@),
        b@.is_safe_state(),
        k <= isize::MAX,
        fits_isize(amount(b@.available, id) + (k as isize)),
    ensures
        b@.with_more_available(id, k).is_safe_state(),
{
    let v = b@;
    let w = v.with_more_available(id, k);
    lemma_safe_state_has_safe_sequence(b);
    let s = v.finish_order();
    assert((k as isize) as int == k);
    assert forall|j: int| 0 <= j < s.len() implies #[trigger] w.can_finish(s.take(j), s[j]) by {
        assert(v.can_finish(s.take(j), s[j]));
        assert forall|r: usize| #[trigger] w.need[s[j]].contains_key(r) implies w.need[s[j]][r]
            <= w.work_after(s.take(j), r) by {
            lemma_work_with_more_available(v, id, k, s.take(j), r);
        }
    }
    assert(is_safe_sequence(w, s));
    b.lemma_keys_facts();
    lemma_safe_sequence_makes_view_safe(w, s);
}

proof fn lemma_held_after_grant(
    v: BankerView,
    tid: usize,
    id: usize,
    x: int,
    m: Map<usize, isize>,
    keys: Seq<usize>,
    r: usize,
)
    requires
        keys.no_duplicates(),
        v.allocation.contains_key(tid),
        m == v.allocation[tid].insert(id, (amount(v.allocation[tid], id) + x) as isize),
        fits_isize(amount(v.allocation[tid], id) + x),
    ensures
        (BankerView { allocation: v.allocation.insert(tid, m), ..v }).held(keys, r) == v.held(
            keys,
            r,
        ) + if keys.contains(tid) && r == id {
            x
        } else {
            0
        },
    decreases keys.len(),
{
    let w = BankerView { allocation: v.allocation.insert(tid, m), ..v };
    if keys.len() > 0 {
        let front = keys.drop_last();
        assert(front.no_duplicates());
        lemma_held_after_grant(v, tid, id, x, m, front, r);
        let t = keys.last();
        if t == tid {
            assert(!front.contains(tid)) by {
                if front.contains(tid) {
                    let j = choose|j: int| 0 <= j < front.len() && front[j] == tid;
                    assert(keys[j] == keys[keys.len() - 1]);
                }
            }
            assert(keys.contains(tid));
        } else {
            assert(keys.contains(tid) == front.contains(tid)) by {
                if keys.contains(tid) {
                    let j = choose|j: int| 0 <= j < keys.len() && keys[j] == tid;
                    assert(front[j] == tid);
                }
            }
        }
    }
}

/// `try_allocate` conserves units: whatever it returns, for every resource
/// the free units plus the units held by all threads stay the same.
pub proof fn lemma_try_allocate_conserves_units(
    b: Banker,
    tid: usize,
    id: usize,
    amount_: usize,
    r: usize,
)
    requires
        b.wf(),
        b@.can_try_allocate(tid, id, amount_),
    ensures
        b@.after_try_allocate(tid, id, amount_).units(r) == b@.units(r),
{
    let v = b@;
    if v.is_safe_state() {
        let x = (amount_ as isize) as int;
        let m = v.allocation[tid].insert(id, (amount(v.allocation[tid], id) + x) as isize);
        let w = v.with_allocation(tid, id, amount_);
        assert(w.allocation.dom() =~= v.allocation.dom());
        b.lemma_allocation_keys_facts();
        let keys = ordered_keys(v.allocation.dom());
        assert(keys.to_set().contains(tid));
        let wv = BankerView { allocation: v.allocation.insert(tid, m), ..v };
        lemma_held_after_grant(v, tid, id, x, m, keys, r);
        lemma_held_same_allocation(w, wv, keys, r);
    }
}

proof fn lemma_held_same_allocation(a: BankerView, b: BankerView, keys: Seq<usize>, r: usize)
    requires
        a.allocation == b.allocation,
    ensures
        a.held(keys, r) == b.held(keys, r),
    decreases keys.len(),
{
    if keys.len() > 0 {
        lemma_held_same_allocation(a, b, keys.drop_last(), r);
    }
}

/// Raising the need of a registered thread keeps every thread with a need
/// row registered, so that a later safety check can run.
pub proof fn lemma_increase_need_keeps_rows_registered(v: BankerView, tid: usize, id: usize, n: usize)
    requires
        v.need.dom().subset_of(v.allocation.dom()),
        v.allocation.contains_key(tid),
    ensures
        v.with_more_need(tid, id, n).need.dom().subset_of(v.with_more_need(tid, id, n).allocation.dom()),
{
}

proof fn lemma_prefix_finished(
    v: BankerView,
    keys: Seq<usize>,
    s: Seq<usize>,
    o: Seq<usize>,
    n: int,
)
    requires
        0 <= n <= s.len(),
        allocations_nonnegative(v),
        is_safe_sequence(v, s),
        o.no_duplicates(),
        keys.to_set() == v.need.dom(),
        forall|j: int|
            0 <= j < keys.len() && !o.contains(keys[j]) ==> !#[trigger] v.can_finish(o, keys[j]),
    ensures
        forall|k: int| 0 <= k < n ==> o.contains(#[trigger] s[k]),
    decreases n,
{
    if n > 0 {
        lemma_prefix_finished(v, keys, s, o, n - 1);
        let k = n - 1;
        let p = s.take(k);
        assert(v.can_finish(p, s[k]));
        if !o.contains(s[k]) {
            assert(p.no_duplicates());
            assert forall|x: usize| p.contains(x) implies #[trigger] o.contains(x) by {
                let a = choose|a: int| 0 <= a < p.len() && p[a] == x;
                assert(s[a] == x);
            }
            assert forall|id: usize| #[trigger]
                v.need[s[k]].contains_key(id) implies v.need[s[k]][id] <= v.work_after(o, id) by {
                lemma_work_mono(v, p, o, id);
            }
            assert(v.can_finish(o, s[k]));
            assert(keys.to_set().contains(s[k]));
            let j = choose|j: int| 0 <= j < keys.len() && keys[j] == s[k];
            assert(!v.can_finish(o, keys[j]));
        }
    }
}


/// Handing a thread a number of units that fits in an `isize` keeps every
/// allocation nonnegative.
pub proof fn lemma_allocation_stays_nonnegative(
    v: BankerView,
    tid: usize,
    id: usize,
    amount_: usize,
)
    requires
        allocations_nonnegative(v),
        amount_ <= isize::MAX,
        v.allocation.contains_key(tid),
        v.need.contains_key(tid),
        amount(v.allocation[tid], id) + amount_ <= isize::MAX,
    ensures
        allocations_nonnegative(v.with_allocation(tid, id, amount_)),
{
    let w = v.with_allocation(tid, id, amount_);
    assert forall|t: usize, i: usize|
        w.allocation.contains_key(t) && #[trigger] w.allocation[t].contains_key(i) implies w.allocation[t][i]
        >= 0 by {
        if t == tid && i == id {
            assert((amount_ as isize) as int == amount_);
            if v.allocation[tid].contains_key(id) {
                assert(v.allocation[tid][id] >= 0);
            }
        } else if t == tid {
            assert(v.allocation[tid].contains_key(i));
        } else {
            assert(v.allocation[t].contains_key(i));
        }
    }
}

} // verus!
