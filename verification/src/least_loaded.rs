//! Least-connections dispatch: before handing over a connection, the
//! accepting thread orders its workers by how many connections each one is
//! serving (a stable sort, so workers with equal counts keep their previous
//! relative order) and picks the first.

use vstd::prelude::*;

verus! {

/// Worker `w` occurs somewhere in `s`.
pub open spec fn contains_worker(s: Seq<usize>, w: int) -> bool {
    exists|i: int| 0 <= i < s.len() && s[i] == w
}

/// Position `k` of the unsorted order has been placed somewhere in `p`.
spec fn placed(p: Seq<int>, k: int) -> bool {
    exists|j: int| 0 <= j < p.len() && p[j] == k
}

/// `s` lists each of the workers `0..s.len()` exactly once.
pub open spec fn is_worker_permutation(s: Seq<usize>) -> bool {
    &&& forall|i: int| 0 <= i < s.len() ==> #[trigger] s[i] < s.len()
    &&& forall|i: int, j: int| 0 <= i < j < s.len() ==> s[i] != s[j]
    &&& forall|w: int| 0 <= w < s.len() ==> #[trigger] contains_worker(s, w)
}

/// The active connection count of worker `w`.
pub open spec fn load_of(loads: Seq<u32>, w: usize) -> int {
    loads[w as int] as int
}

/// Workers come in order of nondecreasing load.
pub open spec fn sorted_by_load(s: Seq<usize>, loads: Seq<u32>) -> bool {
    forall|i: int, j: int|
        0 <= i < j < s.len() ==> load_of(loads, #[trigger] s[i]) <= load_of(loads, #[trigger] s[j])
}

/// Two workers with the same load appear in `after` in the order they had in
/// `before`.
pub open spec fn keeps_order_of_ties(before: Seq<usize>, after: Seq<usize>, loads: Seq<u32>) -> bool {
    forall|a: int, b: int, x: int, y: int|
        #![trigger after[a], after[b], before[x], before[y]]
        0 <= a < b < after.len() && 0 <= x < before.len() && 0 <= y < before.len() && before[x]
            == after[a] && before[y] == after[b] && load_of(loads, after[a]) == load_of(
            loads,
            after[b],
        ) ==> x < y
}

/// `after` is what a stable sort of `before` by load gives.
pub open spec fn is_stable_sort_by_load(before: Seq<usize>, after: Seq<usize>, loads: Seq<u32>) -> bool {
    &&& after.len() == before.len()
    &&& is_worker_permutation(after)
    &&& sorted_by_load(after, loads)
    &&& keeps_order_of_ties(before, after, loads)
}

/// Sorts the workers by load, keeping the previous order among equal loads.
pub fn stable_sort_by_load(order: &Vec<usize>, loads: &Vec<u32>) -> (sorted: Vec<usize>)
    requires
        is_worker_permutation(order@),
        loads.len() == order.len(),
    ensures
        is_stable_sort_by_load(order@, sorted@, loads@),
{
    let n = order.len();
    let mut sorted: Vec<usize> = Vec::new();
    let ghost mut p: Seq<int> = Seq::empty();
    let mut i: usize = 0;
    while i < n
        invariant
            n == order.len(),
            loads.len() == n,
            is_worker_permutation(order@),
            0 <= i <= n,
            sorted.len() == i,
            p.len() == i,
            forall|j: int| 0 <= j < i ==> 0 <= #[trigger] p[j] < i && sorted[j] == order[p[j]],
            forall|j: int| 0 <= j < i ==> #[trigger] sorted[j] < n,
            forall|j: int, k: int| 0 <= j < k < i ==> p[j] != p[k],
            forall|k: int| 0 <= k < i ==> #[trigger] placed(p, k),
            forall|a: int, b: int|
                0 <= a < b < i ==> load_of(loads@, #[trigger] sorted[a]) < load_of(
                    loads@,
                    #[trigger] sorted[b],
                ) || (load_of(loads@, sorted[a]) == load_of(loads@, sorted[b]) && p[a] < p[b]),
        decreases n - i,
    {
        let x = order[i];
        let kx = loads[x];
        let mut pos: usize = 0;
        while pos < sorted.len() && loads[sorted[pos]] <= kx
            invariant
                pos <= sorted.len(),
                sorted.len() == i,
                loads.len() == n,
                forall|j: int| 0 <= j < i ==> #[trigger] sorted[j] < n,
                forall|j: int| 0 <= j < pos ==> load_of(loads@, #[trigger] sorted[j]) <= kx,
            decreases sorted.len() - pos,
        {
            pos = pos + 1;
        }
        let ghost old_sorted = sorted@;
        let ghost old_p = p;
        proof {
            assert forall|j: int| pos <= j < i implies load_of(loads@, #[trigger] old_sorted[j]) > kx by {
                if j > pos {
                    assert(load_of(loads@, old_sorted[pos as int]) <= load_of(loads@, old_sorted[j]));
                }
            }
        }
        sorted.insert(pos, x);
        proof {
            p = old_p.insert(pos as int, i as int);
            assert forall|k: int| 0 <= k < i + 1 implies #[trigger] placed(p, k) by {
                if k == i {
                    assert(p[pos as int] == k);
                } else {
                    assert(placed(old_p, k));
                    let j0 = choose|j: int| 0 <= j < old_p.len() && old_p[j] == k;
                    if j0 < pos {
                        assert(p[j0] == k);
                    } else {
                        assert(p[j0 + 1] == k);
                    }
                }
            }
            assert forall|a: int, b: int|
                0 <= a < b < i + 1 implies load_of(loads@, #[trigger] sorted[a]) < load_of(
                    loads@,
                    #[trigger] sorted[b],
                ) || (load_of(loads@, sorted[a]) == load_of(loads@, sorted[b]) && p[a] < p[b]) by {
                if a < pos && b < pos {
                    assert(sorted[a] == old_sorted[a] && sorted[b] == old_sorted[b]);
                } else if a < pos && b == pos {
                } else if a < pos && b > pos {
                    assert(sorted[b] == old_sorted[b - 1]);
                    if a < b - 1 {
                        assert(sorted[a] == old_sorted[a]);
                    }
                } else if a == pos {
                    assert(sorted[b] == old_sorted[b - 1]);
                } else {
                    assert(sorted[a] == old_sorted[a - 1] && sorted[b] == old_sorted[b - 1]);
                }
            }
        }
        i = i + 1;
    }
    proof {
        assert forall|w: int| 0 <= w < n implies #[trigger] contains_worker(sorted@, w) by {
            assert(contains_worker(order@, w));
            let m = choose|m: int| 0 <= m < order@.len() && order@[m] == w;
            assert(placed(p, m));
            let j = choose|j: int| 0 <= j < p.len() && p[j] == m;
            assert(sorted@[j] == w);
        }
        assert forall|a: int, b: int, x: int, y: int|
            #![trigger sorted@[a], sorted@[b], order@[x], order@[y]]
            0 <= a < b < n && 0 <= x < n && 0 <= y < n && order@[x] == sorted@[a] && order@[y]
                == sorted@[b] && load_of(loads@, sorted@[a]) == load_of(loads@, sorted@[b]) implies x
            < y by {
            assert(order@[p[a]] == sorted@[a]);
            assert(order@[p[b]] == sorted@[b]);
            assert(x == p[a]);
            assert(y == p[b]);
        }
    }
    sorted
}

/// The accepting thread's view of its workers: their order, which each
/// selection re-sorts by load.
pub struct LeastConnections {
    order: Vec<usize>,
}

impl LeastConnections {
    #[verifier::type_invariant]
    spec fn inv(self) -> bool {
        is_worker_permutation(self.order@) && self.order@.len() > 0
    }

    /// The current order of the workers.
    pub closed spec fn order(self) -> Seq<usize> {
        self.order@
    }

    /// A dispatcher over `workers` workers, in the order `0, 1, ...`.
    pub fn new(workers: usize) -> (result: Self)
        requires
            workers >= 1,
        ensures
            result.order() == Seq::new(workers as nat, |i: int| i as usize),
    {
        let mut order: Vec<usize> = Vec::new();
        let mut i: usize = 0;
        while i < workers
            invariant
                i <= workers,
                order@ == Seq::new(i as nat, |j: int| j as usize),
            decreases workers - i,
        {
            order.push(i);
            i = i + 1;
        }
        proof {
            assert forall|w: int| 0 <= w < order@.len() implies #[trigger] contains_worker(order@, w) by {
                assert(order@[w] == w);
            }
        }
        LeastConnections { order }
    }

    /// The current order of the workers.
    pub fn current_order(&self) -> (order: &Vec<usize>)
        ensures
            order@ == self.order(),
            is_worker_permutation(order@),
            order@.len() > 0,
    {
        proof { use_type_invariant(self); }
        &self.order
    }

    /// Re-sorts the workers by `loads` (the active connection count of each
    /// worker, indexed by worker) and picks the first one for the connection
    /// just accepted.
    pub fn select(&mut self, loads: &Vec<u32>) -> (worker: usize)
        requires
            loads.len() == old(self).order().len(),
        ensures
            is_stable_sort_by_load(old(self).order(), final(self).order(), loads@),
            worker == final(self).order()[0],
            worker < loads.len(),
            forall|w: int| 0 <= w < loads.len() ==> loads[worker as int] <= #[trigger] loads[w],
    {
        proof { use_type_invariant(&*self); }
        let sorted = stable_sort_by_load(&self.order, loads);
        self.order = sorted;
        proof {
            assert forall|w: int| 0 <= w < loads.len() implies loads[self.order@[0] as int] <= #[trigger] loads[w] by {
                assert(contains_worker(self.order@, w));
                let i = choose|i: int| 0 <= i < self.order@.len() && self.order@[i] == w;
                if i > 0 {
                    assert(load_of(loads@, self.order@[0]) <= load_of(loads@, self.order@[i]));
                }
            }
        }
        self.order[0]
    }
}

/// The order a selection leaves behind is determined by the previous order
/// and the loads: any two stable sorts of the same order by the same loads
/// agree.
pub proof fn law_stable_sort_is_unique(before: Seq<usize>, a: Seq<usize>, b: Seq<usize>, loads: Seq<u32>)
    requires
        is_worker_permutation(before),
        loads.len() == before.len(),
        is_stable_sort_by_load(before, a, loads),
        is_stable_sort_by_load(before, b, loads),
    ensures
        a == b,
{
    let n = before.len() as int;
    assert forall|k: int| 0 <= k < n implies a[k] == b[k] by {
        lemma_sorts_agree_up_to(before, a, b, loads, k);
    }
    assert(a =~= b);
}

/// Where worker `w` stands in `s`.
spec fn position_of(s: Seq<usize>, w: usize) -> int {
    choose|i: int| 0 <= i < s.len() && s[i] == w
}

proof fn lemma_position_of(s: Seq<usize>, w: usize)
    requires
        is_worker_permutation(s),
        w < s.len(),
    ensures
        0 <= position_of(s, w) < s.len(),
        s[position_of(s, w)] == w,
        forall|i: int| 0 <= i < s.len() && s[i] == w ==> i == position_of(s, w),
{
    assert(contains_worker(s, w as int));
}

/// In a stable sort, a worker placed earlier has a smaller load, or the same
/// load and an earlier place before sorting.
proof fn lemma_sorted_pair(before: Seq<usize>, a: Seq<usize>, loads: Seq<u32>, i: int, j: int)
    requires
        is_worker_permutation(before),
        loads.len() == before.len(),
        is_stable_sort_by_load(before, a, loads),
        0 <= i < j < a.len(),
    ensures
        load_of(loads, a[i]) < load_of(loads, a[j]) || (load_of(loads, a[i]) == load_of(loads, a[j])
            && position_of(before, a[i]) < position_of(before, a[j])),
{
    lemma_position_of(before, a[i]);
    lemma_position_of(before, a[j]);
    let x = position_of(before, a[i]);
    let y = position_of(before, a[j]);
    assert(load_of(loads, a[i]) <= load_of(loads, a[j]));
    if load_of(loads, a[i]) == load_of(loads, a[j]) {
        assert(before[x] == a[i] && before[y] == a[j]);
    }
}

proof fn lemma_sorts_agree_up_to(before: Seq<usize>, a: Seq<usize>, b: Seq<usize>, loads: Seq<u32>, k: int)
    requires
        is_worker_permutation(before),
        loads.len() == before.len(),
        is_stable_sort_by_load(before, a, loads),
        is_stable_sort_by_load(before, b, loads),
        0 <= k < before.len(),
    ensures
        a[k] == b[k],
    decreases k,
{
    let n = before.len() as int;
    assert forall|c: int| 0 <= c < k implies a[c] == b[c] by {
        lemma_sorts_agree_up_to(before, a, b, loads, c);
    }
    lemma_position_of(b, a[k]);
    lemma_position_of(a, b[k]);
    let j = position_of(b, a[k]);
    let i = position_of(a, b[k]);
    if j < k {
        assert(a[j] == b[j]);
        assert(false);
    }
    if i < k {
        assert(a[i] == b[i]);
        assert(false);
    }
    if j > k {
        assert(i != k);
        lemma_sorted_pair(before, b, loads, k, j);
        lemma_sorted_pair(before, a, loads, k, i);
        assert(false);
    }
}

/// When every worker serves as many connections as every other, a selection
/// leaves the order as it was and picks the worker at its head.
pub proof fn law_equal_loads_keep_order(before: Seq<usize>, after: Seq<usize>, loads: Seq<u32>)
    requires
        is_worker_permutation(before),
        loads.len() == before.len(),
        forall|v: int, w: int| 0 <= v < loads.len() && 0 <= w < loads.len() ==> loads[v] == loads[w],
        is_stable_sort_by_load(before, after, loads),
    ensures
        after == before,
{
    assert forall|i: int, j: int| 0 <= i < j < before.len() implies load_of(loads, #[trigger] before[i])
        <= load_of(loads, #[trigger] before[j]) by {
        assert(loads[before[i] as int] == loads[before[j] as int]);
    }
    assert forall|a: int, b: int, x: int, y: int|
        #![trigger before[a], before[b], before[x], before[y]]
        0 <= a < b < before.len() && 0 <= x < before.len() && 0 <= y < before.len() && before[x]
            == before[a] && before[y] == before[b] && load_of(loads, before[a]) == load_of(loads, before[b])
        implies x < y by {
        if x != a {
            if x < a {
                assert(before[x] != before[a]);
            } else {
                assert(before[a] != before[x]);
            }
        }
        if y != b {
            if y < b {
                assert(before[y] != before[b]);
            } else {
                assert(before[b] != before[y]);
            }
        }
    }
    law_stable_sort_is_unique(before, before, after, loads);
}

} // verus!
