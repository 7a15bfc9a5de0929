//! Deadlock detection: the Banker's safety check over an available vector,
//! an allocation table and a table of outstanding need.

use crate::matrix::{col_sum, Matrix};
use vstd::prelude::*;

verus! {

/// The counts in `s` as natural numbers.
pub open spec fn counts(s: Seq<usize>) -> Seq<nat> {
    Seq::new(s.len(), |i: int| s[i] as nat)
}

/// The request `a` can be met from `b`: no entry of `a` exceeds the entry of
/// `b` for the same resource.
pub open spec fn row_le(a: Seq<nat>, b: Seq<nat>) -> bool {
    forall|r: int| 0 <= r < b.len() ==> a[r] <= b[r]
}

/// The units of resource `r` given back once every task in `order` has
/// finished.
pub open spec fn released(allocation: Seq<Seq<nat>>, order: Seq<int>, r: int) -> nat
    decreases order.len(),
{
    if order.len() == 0 {
        0
    } else {
        released(allocation, order.drop_last(), r) + allocation[order.last()][r]
    }
}

/// What is available after every task in `order` has finished and handed
/// back what it held.
pub open spec fn work_after(
    available: Seq<nat>,
    allocation: Seq<Seq<nat>>,
    order: Seq<int>,
) -> Seq<nat> {
    Seq::new(available.len(), |r: int| available[r] + released(allocation, order, r))
}

/// `order` lists every task exactly once, and each task's outstanding need
/// can be met from what is available once the tasks before it have finished.
pub open spec fn is_finishing_order(
    available: Seq<nat>,
    allocation: Seq<Seq<nat>>,
    need: Seq<Seq<nat>>,
    order: Seq<int>,
) -> bool {
    &&& order.no_duplicates()
    &&& forall|k: int| 0 <= k < order.len() ==> 0 <= #[trigger] order[k] < need.len()
    &&& forall|t: int| 0 <= t < need.len() ==> #[trigger] order.contains(t)
    &&& forall|k: int|
        0 <= k < order.len() ==> row_le(
            need[order[k]],
            work_after(available, allocation, #[trigger] order.take(k)),
        )
}

/// The state is safe: some order exists in which every task can finish.
pub open spec fn safe(available: Seq<nat>, allocation: Seq<Seq<nat>>, need: Seq<Seq<nat>>) -> bool {
    exists|order: Seq<int>| is_finishing_order(available, allocation, need, order)
}

proof fn lemma_released_push(allocation: Seq<Seq<nat>>, order: Seq<int>, t: int, r: int)
    ensures
        released(allocation, order.push(t), r) == released(allocation, order, r) + allocation[t][r],
{
    assert(order.push(t).drop_last() =~= order);
}

proof fn lemma_released_remove(allocation: Seq<Seq<nat>>, order: Seq<int>, i: int, r: int)
    requires
        0 <= i < order.len(),
    ensures
        released(allocation, order, r) == released(allocation, order.remove(i), r)
            + allocation[order[i]][r],
    decreases order.len(),
{
    if i == order.len() - 1 {
        assert(order.remove(i) =~= order.drop_last());
    } else {
        assert(order.remove(i).drop_last() =~= order.drop_last().remove(i));
        assert(order.remove(i).last() == order.last());
        lemma_released_remove(allocation, order.drop_last(), i, r);
    }
}

/// Tasks that finish among a larger set of tasks release no more than the
/// larger set does.
proof fn lemma_released_subset(allocation: Seq<Seq<nat>>, a: Seq<int>, b: Seq<int>, r: int)
    requires
        a.no_duplicates(),
        b.no_duplicates(),
        forall|i: int| 0 <= i < a.len() ==> b.contains(#[trigger] a[i]),
    ensures
        released(allocation, a, r) <= released(allocation, b, r),
    decreases a.len(),
{
    if a.len() > 0 {
        let x = a.last();
        let a1 = a.drop_last();
        assert(b.contains(a[a.len() - 1]));
        let i = choose|i: int| 0 <= i < b.len() && b[i] == x;
        let b1 = b.remove(i);
        assert(b1.no_duplicates()) by {
            assert forall|p: int, q: int| 0 <= p < b1.len() && 0 <= q < b1.len() && p != q implies b1[p]
                != b1[q] by {
                let pp = if p < i { p } else { p + 1 };
                let qq = if q < i { q } else { q + 1 };
                assert(b1[p] == b[pp]);
                assert(b1[q] == b[qq]);
            }
        }
        assert forall|j: int| 0 <= j < a1.len() implies b1.contains(#[trigger] a1[j]) by {
            assert(a1[j] == a[j]);
            assert(b.contains(a[j]));
            let p = choose|p: int| 0 <= p < b.len() && b[p] == a[j];
            assert(a[j] != a[a.len() - 1]);
            assert(p != i);
            if p < i {
                assert(b1[p] == b[p]);
            } else {
                assert(b1[p - 1] == b[p]);
            }
        }
        lemma_released_subset(allocation, a1, b1, r);
        lemma_released_remove(allocation, b, i, r);
    }
}

spec fn iota(n: nat) -> Seq<int> {
    Seq::new(n, |i: int| i)
}

proof fn lemma_released_iota(allocation: Seq<Seq<nat>>, k: nat, r: int)
    requires
        k <= allocation.len(),
    ensures
        released(allocation, iota(k), r) == col_sum(allocation.take(k as int), r),
    decreases k,
{
    if k > 0 {
        assert(iota(k).drop_last() =~= iota((k - 1) as nat));
        assert(allocation.take(k as int).drop_last() =~= allocation.take(k - 1));
        lemma_released_iota(allocation, (k - 1) as nat, r);
    }
}

/// However many distinct tasks finish, they release no more of a resource
/// than all tasks together hold.
proof fn lemma_released_bound(allocation: Seq<Seq<nat>>, order: Seq<int>, r: int)
    requires
        order.no_duplicates(),
        forall|k: int| 0 <= k < order.len() ==> 0 <= #[trigger] order[k] < allocation.len(),
    ensures
        released(allocation, order, r) <= col_sum(allocation, r),
{
    let all = iota(allocation.len());
    assert forall|i: int| 0 <= i < order.len() implies all.contains(#[trigger] order[i]) by {
        assert(all[order[i]] == order[i]);
    }
    lemma_released_subset(allocation, order, all, r);
    lemma_released_iota(allocation, allocation.len(), r);
    assert(allocation.take(allocation.len() as int) =~= allocation);
}

/// Tasks that finish before task `u` does give back, of any resource, no
/// more than what all tasks together hold less what `u` holds.
proof fn lemma_released_without(allocation: Seq<Seq<nat>>, order: Seq<int>, u: int, r: int)
    requires
        order.no_duplicates(),
        forall|k: int| 0 <= k < order.len() ==> 0 <= #[trigger] order[k] < allocation.len(),
        0 <= u < allocation.len(),
        !order.contains(u),
    ensures
        released(allocation, order, r) + allocation[u][r] <= col_sum(allocation, r),
{
    let longer = order.push(u);
    assert(longer.no_duplicates()) by {
        assert forall|p: int, q: int|
            0 <= p < longer.len() && 0 <= q < longer.len() && p != q implies longer[p]
            != longer[q] by {
            if p < order.len() {
                assert(order.contains(order[p]));
            }
            if q < order.len() {
                assert(order.contains(order[q]));
            }
        }
    }
    lemma_released_push(allocation, order, u, r);
    lemma_released_bound(allocation, longer, r);
}

/// A circle of two waits is unsafe. When task `t` asks for more of resource
/// `a` than could ever be free before task `u` gives back its share, and `u`
/// asks for more of resource `b` than could ever be free before `t` gives
/// back its share, then neither can finish before the other, and no order
/// exists in which every task can finish. With `t` and `u` the same task
/// this is a task that waits for what it holds itself.
pub proof fn lemma_circular_wait_unsafe(
    available: Seq<nat>,
    allocation: Seq<Seq<nat>>,
    need: Seq<Seq<nat>>,
    t: int,
    u: int,
    a: int,
    b: int,
)
    requires
        allocation.len() == need.len(),
        0 <= t < need.len(),
        0 <= u < need.len(),
        0 <= a < available.len(),
        0 <= b < available.len(),
        need[t][a] > available[a] + col_sum(allocation, a) - allocation[u][a],
        need[u][b] > available[b] + col_sum(allocation, b) - allocation[t][b],
    ensures
        !safe(available, allocation, need),
{
    assert forall|sigma: Seq<int>| !is_finishing_order(available, allocation, need, sigma) by {
        if is_finishing_order(available, allocation, need, sigma) {
            assert(sigma.contains(t));
            assert(sigma.contains(u));
            let kt = choose|k: int| 0 <= k < sigma.len() && sigma[k] == t;
            let ku = choose|k: int| 0 <= k < sigma.len() && sigma[k] == u;
            let first = if kt <= ku {
                kt
            } else {
                ku
            };
            let other = if kt <= ku {
                u
            } else {
                t
            };
            let r = if kt <= ku {
                a
            } else {
                b
            };
            let before = sigma.take(first);
            assert(!before.contains(other)) by {
                if before.contains(other) {
                    let i = choose|i: int| 0 <= i < before.len() && before[i] == other;
                    assert(sigma[i] == other);
                }
            }
            assert forall|k: int| 0 <= k < before.len() implies 0 <= #[trigger] before[k]
                < allocation.len() by {
                assert(before[k] == sigma[k]);
            }
            lemma_released_without(allocation, before, other, r);
            let w = work_after(available, allocation, before);
            assert(row_le(need[sigma[first]], w));
            assert(need[sigma[first]][r] <= w[r]);
            assert(false);
        }
    }
}

proof fn lemma_order_len(order: Seq<int>, n: nat)
    requires
        order.no_duplicates(),
        forall|k: int| 0 <= k < order.len() ==> 0 <= #[trigger] order[k] < n,
    ensures
        order.len() <= n,
{
    order.unique_seq_to_set();
    vstd::set_lib::lemma_int_range(0, n as int);
    let range = vstd::set_lib::set_int_range(0, n as int);
    assert(order.to_set().subset_of(range)) by {
        assert forall|x: int| order.to_set().contains(x) implies range.contains(x) by {
            let i = choose|i: int| 0 <= i < order.len() && order[i] == x;
            assert(0 <= order[i] < n);
        }
    }
    vstd::set_lib::lemma_len_subset(order.to_set(), range);
}

/// What the greedy search knows at every step: `order` holds the tasks
/// marked finished, in the order in which they were marked; `work` is what
/// is available after them; and each could finish when its turn came.
spec fn greedy_inv(
    available: Seq<nat>,
    allocation: Seq<Seq<nat>>,
    need: Seq<Seq<nat>>,
    finish: Seq<bool>,
    work: Seq<nat>,
    order: Seq<int>,
) -> bool {
    &&& finish.len() == need.len()
    &&& work == work_after(available, allocation, order)
    &&& order.no_duplicates()
    &&& forall|k: int| 0 <= k < order.len() ==> 0 <= #[trigger] order[k] < need.len()
    &&& forall|t: int| 0 <= t < need.len() ==> finish[t] == #[trigger] order.contains(t)
    &&& forall|k: int|
        0 <= k < order.len() ==> row_le(
            need[order[k]],
            work_after(available, allocation, #[trigger] order.take(k)),
        )
}

proof fn lemma_greedy_step(
    available: Seq<nat>,
    allocation: Seq<Seq<nat>>,
    need: Seq<Seq<nat>>,
    finish: Seq<bool>,
    work: Seq<nat>,
    order: Seq<int>,
    t: int,
    work2: Seq<nat>,
)
    requires
        greedy_inv(available, allocation, need, finish, work, order),
        0 <= t < need.len(),
        !finish[t],
        row_le(need[t], work),
        work2.len() == work.len(),
        forall|r: int| 0 <= r < work.len() ==> work2[r] == work[r] + allocation[t][r],
    ensures
        greedy_inv(available, allocation, need, finish.update(t, true), work2, order.push(t)),
        order.push(t).len() <= need.len(),
{
    let order2 = order.push(t);
    let finish2 = finish.update(t, true);
    assert(!order.contains(t));
    assert(order2.no_duplicates()) by {
        assert forall|p: int, q: int|
            0 <= p < order2.len() && 0 <= q < order2.len() && p != q implies order2[p]
            != order2[q] by {
            if p < order.len() {
                assert(order.contains(order[p]));
            }
            if q < order.len() {
                assert(order.contains(order[q]));
            }
        }
    }
    assert forall|x: int| 0 <= x < need.len() implies finish2[x] == #[trigger] order2.contains(
        x,
    ) by {
        if x == t {
            assert(order2[order.len() as int] == t);
        } else if order.contains(x) {
            let i = choose|i: int| 0 <= i < order.len() && order[i] == x;
            assert(order2[i] == x);
        } else if order2.contains(x) {
            let i = choose|i: int| 0 <= i < order2.len() && order2[i] == x;
            assert(order[i] == x);
        }
    }
    assert(work2 =~= work_after(available, allocation, order2)) by {
        assert forall|r: int| 0 <= r < work2.len() implies work2[r] == work_after(
            available,
            allocation,
            order2,
        )[r] by {
            lemma_released_push(allocation, order, t, r);
        }
    }
    assert forall|k: int| 0 <= k < order2.len() implies row_le(
        need[order2[k]],
        work_after(available, allocation, #[trigger] order2.take(k)),
    ) by {
        if k < order.len() {
            assert(order2.take(k) =~= order.take(k));
        } else {
            assert(order2.take(k) =~= order);
        }
    }
    lemma_order_len(order2, need.len());
}

proof fn lemma_first_outside(sigma: Seq<int>, done: Seq<int>, from: int) -> (k: int)
    requires
        0 <= from <= sigma.len(),
        forall|j: int| 0 <= j < from ==> done.contains(#[trigger] sigma[j]),
        exists|j: int| from <= j < sigma.len() && !done.contains(#[trigger] sigma[j]),
    ensures
        from <= k < sigma.len(),
        !done.contains(sigma[k]),
        forall|j: int| 0 <= j < k ==> done.contains(#[trigger] sigma[j]),
    decreases sigma.len() - from,
{
    if !done.contains(sigma[from]) {
        from
    } else {
        lemma_first_outside(sigma, done, from + 1)
    }
}

/// When the greedy search stops with a task left that it cannot finish, no
/// finishing order exists at all.
proof fn lemma_stuck_unsafe(
    available: Seq<nat>,
    allocation: Seq<Seq<nat>>,
    need: Seq<Seq<nat>>,
    finish: Seq<bool>,
    work: Seq<nat>,
    order: Seq<int>,
    t0: int,
)
    requires
        greedy_inv(available, allocation, need, finish, work, order),
        0 <= t0 < need.len(),
        !finish[t0],
        forall|t: int| 0 <= t < need.len() ==> #[trigger] finish[t] || !row_le(need[t], work),
    ensures
        !safe(available, allocation, need),
{
    assert forall|sigma: Seq<int>| !is_finishing_order(available, allocation, need, sigma) by {
        if is_finishing_order(available, allocation, need, sigma) {
            assert(sigma.contains(t0));
            let j0 = choose|j: int| 0 <= j < sigma.len() && sigma[j] == t0;
            assert(!order.contains(sigma[j0]));
            let k = lemma_first_outside(sigma, order, 0);
            let before = sigma.take(k);
            let t = sigma[k];
            assert(!finish[t]);
            let w = work_after(available, allocation, before);
            assert(row_le(need[t], w));
            assert forall|r: int| 0 <= r < work.len() implies need[t][r] <= work[r] by {
                assert forall|i: int| 0 <= i < before.len() implies order.contains(
                    #[trigger] before[i],
                ) by {
                    assert(before[i] == sigma[i]);
                }
                lemma_released_subset(allocation, before, order, r);
                assert(need[t][r] <= w[r]);
            }
            assert(row_le(need[t], work));
            assert(false);
        }
    }
}

/// Whether row `t` of `need` can be met from `work`.
fn row_fits(need: &Matrix, t: usize, work: &Vec<usize>) -> (ok: bool)
    requires
        need.wf(),
        t < need@.len(),
        work@.len() == need.cols(),
    ensures
        ok == row_le(need@[t as int], counts(work@)),
{
    let mut r: usize = 0;
    while r < work.len()
        invariant
            need.wf(),
            t < need@.len(),
            work@.len() == need.cols(),
            r <= work@.len(),
            forall|c: int| 0 <= c < r ==> need@[t as int][c] <= counts(work@)[c],
        decreases work.len() - r,
    {
        if need.get(t, r) > work[r] {
            assert(need@[t as int][r as int] > counts(work@)[r as int]);
            return false;
        }
        r += 1;
    }
    true
}

/// Adds what task `t` holds to `work`.
fn release_row(allocation: &Matrix, t: usize, work: &mut Vec<usize>)
    requires
        allocation.wf(),
        t < allocation@.len(),
        old(work)@.len() == allocation.cols(),
        forall|r: int|
            0 <= r < old(work)@.len() ==> old(work)@[r] + allocation@[t as int][r] <= usize::MAX,
    ensures
        final(work)@.len() == old(work)@.len(),
        forall|r: int|
            0 <= r < old(work)@.len() ==> final(work)@[r] == old(work)@[r] + allocation@[t as int][r],
{
    let mut r: usize = 0;
    while r < work.len()
        invariant
            allocation.wf(),
            t < allocation@.len(),
            work@.len() == old(work)@.len(),
            work@.len() == allocation.cols(),
            r <= work@.len(),
            forall|c: int|
                0 <= c < old(work)@.len() ==> old(work)@[c] + allocation@[t as int][c]
                    <= usize::MAX,
            forall|c: int| 0 <= c < r ==> work@[c] == old(work)@[c] + allocation@[t as int][c],
            forall|c: int| r <= c < work@.len() ==> work@[c] == old(work)@[c],
        decreases work.len() - r,
    {
        let sum: usize = work[r] + allocation.get(t, r);
        work[r] = sum;
        r += 1;
    }
}

/// The safety check. Starting from what is available, it looks for a task
/// whose outstanding need can be met, lets it finish and hand back what it
/// holds, and repeats until no further task can finish. The state is safe
/// exactly when every task finished.
pub fn is_safe(available: &Vec<usize>, allocation: &Matrix, need: &Matrix) -> (ok: bool)
    requires
        allocation.wf(),
        need.wf(),
        allocation.cols() == available@.len(),
        need.cols() == available@.len(),
        allocation@.len() == need@.len(),
        forall|r: int|
            0 <= r < available@.len() ==> available@[r] + col_sum(allocation@, r) <= usize::MAX,
    ensures
        ok == safe(counts(available@), allocation@, need@),
{
    let n: usize = need.num_rows();
    let mut finish: Vec<bool> = vec![false; n];
    let mut work: Vec<usize> = available.clone();
    let ghost mut order: Seq<int> = Seq::empty();
    assert(counts(work@) =~= work_after(counts(available@), allocation@, order));
    let mut changed = true;
    while changed
        invariant
            allocation.wf(),
            need.wf(),
            allocation.cols() == available@.len(),
            need.cols() == available@.len(),
            allocation@.len() == need@.len(),
            n == need@.len(),
            forall|r: int|
                0 <= r < available@.len() ==> available@[r] + col_sum(allocation@, r)
                    <= usize::MAX,
            work@.len() == available@.len(),
            greedy_inv(counts(available@), allocation@, need@, finish@, counts(work@), order),
            order.len() <= n,
            !changed ==> forall|t: int|
                0 <= t < n ==> #[trigger] finish@[t] || !row_le(need@[t], counts(work@)),
        decreases n - order.len(), if changed { 1int } else { 0int },
    {
        changed = false;
        let ghost order_before = order;
        let mut t: usize = 0;
        while t < n
            invariant
                allocation.wf(),
                need.wf(),
                allocation.cols() == available@.len(),
                need.cols() == available@.len(),
                allocation@.len() == need@.len(),
                n == need@.len(),
                forall|r: int|
                    0 <= r < available@.len() ==> available@[r] + col_sum(allocation@, r)
                        <= usize::MAX,
                work@.len() == available@.len(),
                greedy_inv(counts(available@), allocation@, need@, finish@, counts(work@), order),
                order.len() <= n,
                t <= n,
                !changed ==> order == order_before,
                changed ==> order.len() > order_before.len(),
                !changed ==> forall|u: int|
                    0 <= u < t ==> #[trigger] finish@[u] || !row_le(need@[u], counts(work@)),
            decreases n - t,
        {
            if !finish[t] {
                if row_fits(need, t, &work) {
                    let ghost work_before = counts(work@);
                    let ghost finish_before = finish@;
                    proof {
                        assert forall|r: int| 0 <= r < work@.len() implies work@[r]
                            + allocation@[t as int][r] <= usize::MAX by {
                            lemma_greedy_step_bound(
                                counts(available@),
                                allocation@,
                                need@,
                                finish@,
                                counts(work@),
                                order,
                                t as int,
                                r,
                            );
                        }
                    }
                    release_row(allocation, t, &mut work);
                    finish[t] = true;
                    proof {
                        lemma_greedy_step(
                            counts(available@),
                            allocation@,
                            need@,
                            finish_before,
                            work_before,
                            order,
                            t as int,
                            counts(work@),
                        );
                        order = order.push(t as int);
                    }
                    changed = true;
                }
            }
            t += 1;
        }
    }
    let mut t: usize = 0;
    while t < n
        invariant
            n == need@.len(),
            t <= n,
            greedy_inv(counts(available@), allocation@, need@, finish@, counts(work@), order),
            forall|u: int|
                0 <= u < n ==> #[trigger] finish@[u] || !row_le(need@[u], counts(work@)),
            forall|u: int| 0 <= u < t ==> finish@[u],
        decreases n - t,
    {
        if !finish[t] {
            proof {
                lemma_stuck_unsafe(
                    counts(available@),
                    allocation@,
                    need@,
                    finish@,
                    counts(work@),
                    order,
                    t as int,
                );
            }
            return false;
        }
        t += 1;
    }
    assert(is_finishing_order(counts(available@), allocation@, need@, order));
    true
}

/// Letting one more task finish cannot push `work` past what exists of a
/// resource.
proof fn lemma_greedy_step_bound(
    available: Seq<nat>,
    allocation: Seq<Seq<nat>>,
    need: Seq<Seq<nat>>,
    finish: Seq<bool>,
    work: Seq<nat>,
    order: Seq<int>,
    t: int,
    r: int,
)
    requires
        greedy_inv(available, allocation, need, finish, work, order),
        allocation.len() == need.len(),
        0 <= t < need.len(),
        !finish[t],
        0 <= r < work.len(),
    ensures
        work[r] + allocation[t][r] <= available[r] + col_sum(allocation, r),
{
    let order2 = order.push(t);
    assert(!order.contains(t));
    assert(order2.no_duplicates()) by {
        assert forall|p: int, q: int|
            0 <= p < order2.len() && 0 <= q < order2.len() && p != q implies order2[p]
            != order2[q] by {
            if p < order.len() {
                assert(order.contains(order[p]));
            }
            if q < order.len() {
                assert(order.contains(order[q]));
            }
        }
    }
    lemma_released_push(allocation, order, t, r);
    lemma_released_bound(allocation, order2, r);
}

} // verus!
