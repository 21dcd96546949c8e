//! Round-robin dispatch: the accepting thread hands connection after
//! connection to the worker threads in turn, wrapping around after the last.

use vstd::prelude::*;
use vstd::arithmetic::div_mod::{
    lemma_add_mod_noop, lemma_fundamental_div_mod, lemma_fundamental_div_mod_converse,
    lemma_mod_add_multiples_vanish, lemma_mod_equivalence, lemma_small_mod,
};

verus! {

/// The worker that the dispatcher points at after `steps` selections, when
/// it started at `start` among `workers` workers.
pub open spec fn rr_after(start: int, workers: int, steps: nat) -> int
    decreases steps,
{
    if steps == 0 {
        start
    } else {
        (rr_after(start, workers, (steps - 1) as nat) + 1) % workers
    }
}

/// Some selection among the first `workers`, counted from `start`, goes to
/// worker `w`.
pub open spec fn reached_within_round(start: int, workers: int, w: int) -> bool {
    exists|k: nat| k < workers && #[trigger] rr_after(start, workers, k) == w
}

/// Which worker receives the next accepted connection.
pub struct RoundRobin {
    next: usize,
    workers: usize,
    selections: Ghost<nat>,
}

impl RoundRobin {
    #[verifier::type_invariant]
    spec fn inv(self) -> bool {
        &&& 0 < self.workers
        &&& self.next < self.workers
        &&& self.next == rr_after(0, self.workers as int, self.selections@)
    }

    /// The worker that the next connection goes to.
    pub closed spec fn next_index(self) -> nat {
        self.next as nat
    }

    /// How many workers take connections.
    pub closed spec fn worker_total(self) -> nat {
        self.workers as nat
    }

    /// How many connections the dispatcher has handed out so far.
    pub closed spec fn selections(self) -> nat {
        self.selections@
    }

    /// A dispatcher over `workers` workers that starts with worker 0.
    pub fn new(workers: usize) -> (result: Self)
        requires
            workers >= 1,
        ensures
            result.worker_total() == workers,
            result.next_index() == 0,
            result.selections() == 0,
    {
        RoundRobin { next: 0, workers, selections: Ghost(0) }
    }

    /// How many workers take connections.
    pub fn workers(&self) -> (n: usize)
        ensures
            n == self.worker_total(),
            n > 0,
            self.next_index() < n,
            self.next_index() == rr_after(0, n as int, self.selections()),
    {
        proof { use_type_invariant(self); }
        self.workers
    }

    /// Picks the worker for the connection just accepted and moves on to
    /// the following one, wrapping around after the last: connection number
    /// `k` (counting from 0) goes to worker `k mod workers`.
    pub fn select(&mut self) -> (worker: usize)
        ensures
            worker == old(self).next_index(),
            worker < old(self).worker_total(),
            worker == rr_after(0, old(self).worker_total() as int, old(self).selections()),
            worker == old(self).selections() % old(self).worker_total(),
            final(self).worker_total() == old(self).worker_total(),
            final(self).selections() == old(self).selections() + 1,
            final(self).next_index() == (old(self).next_index() + 1) % old(self).worker_total(),
            final(self).next_index() < final(self).worker_total(),
    {
        proof { use_type_invariant(&*self); }
        let worker = self.next;
        let ghost done = self.selections@;
        proof {
            law_round_robin_closed_form(0, self.workers as int, done);
        }
        *self = RoundRobin {
            next: (worker + 1) % self.workers,
            workers: self.workers,
            selections: Ghost(done + 1),
        };
        worker
    }
}

/// After `steps` selections the dispatcher points at worker
/// `(start + steps) mod workers`: connection number `k` goes to worker
/// `(start + k) mod workers`.
pub proof fn law_round_robin_closed_form(start: int, workers: int, steps: nat)
    requires
        0 <= start < workers,
    ensures
        rr_after(start, workers, steps) == (start + steps) % workers,
    decreases steps,
{
    if steps == 0 {
        lemma_small_mod(start as nat, workers as nat);
    } else {
        law_round_robin_closed_form(start, workers, (steps - 1) as nat);
        let a = start + steps - 1;
        lemma_add_mod_noop(a, 1, workers);
        if workers > 1 {
            lemma_small_mod(1, workers as nat);
        } else {
            assert((a + 1) % 1 == 0);
            assert((a % 1 + 1) % 1 == 0);
        }
    }
}

/// Any `workers` consecutive connections go to pairwise different workers,
/// so each worker receives exactly one of them.
pub proof fn law_round_robin_fair(start: int, workers: int)
    requires
        0 <= start < workers,
    ensures
        forall|k1: nat, k2: nat|
            k1 < workers && k2 < workers && k1 != k2 ==> #[trigger] rr_after(start, workers, k1)
                != #[trigger] rr_after(start, workers, k2),
        forall|w: int| 0 <= w < workers ==> #[trigger] reached_within_round(start, workers, w),
{
    assert forall|k1: nat, k2: nat|
        k1 < workers && k2 < workers && k1 != k2 implies #[trigger] rr_after(start, workers, k1)
            != #[trigger] rr_after(start, workers, k2) by {
        law_round_robin_closed_form(start, workers, k1);
        law_round_robin_closed_form(start, workers, k2);
        lemma_mod_equivalence(start + k1, start + k2, workers);
        let d = (start + k1) - (start + k2);
        if d > 0 {
            lemma_small_mod(d as nat, workers as nat);
        } else {
            lemma_mod_equivalence(start + k2, start + k1, workers);
            lemma_small_mod((-d) as nat, workers as nat);
        }
    }
    assert forall|w: int| 0 <= w < workers implies #[trigger] reached_within_round(start, workers, w) by {
        let k: nat = if w >= start { (w - start) as nat } else { (w + workers - start) as nat };
        law_round_robin_closed_form(start, workers, k);
        lemma_small_mod(w as nat, workers as nat);
        if w < start {
            lemma_mod_add_multiples_vanish(w, workers);
        }
        assert(rr_after(start, workers, k) == w);
    }
}

/// The dispatch pattern repeats with period `workers`.
pub proof fn law_round_robin_periodic(start: int, workers: int, steps: nat)
    requires
        0 <= start < workers,
    ensures
        rr_after(start, workers, steps + workers as nat) == rr_after(start, workers, steps),
{
    law_round_robin_closed_form(start, workers, steps);
    law_round_robin_closed_form(start, workers, steps + workers as nat);
    lemma_mod_add_multiples_vanish(start + steps, workers);
}

/// How many of the first `m` selections, counted from `start`, go to worker
/// `w`.
pub open spec fn rr_count(start: int, workers: int, m: nat, w: int) -> nat
    decreases m,
{
    if m == 0 {
        0
    } else {
        rr_count(start, workers, (m - 1) as nat, w) + if rr_after(start, workers, (m - 1) as nat)
            == w {
            1nat
        } else {
            0nat
        }
    }
}

/// The exact share of worker `w`: one per full round, plus one more when
/// `w` comes up within the unfinished round.
proof fn lemma_rr_count_exact(start: int, workers: int, m: nat, w: int)
    requires
        0 <= start < workers,
        0 <= w < workers,
    ensures
        rr_count(start, workers, m, w) == (m as int) / workers + if (w - start) % workers < (m as int) % workers {
            1int
        } else {
            0int
        },
    decreases m,
{
    if m == 0 {
        lemma_small_mod(0, workers as nat);
        assert(0int / workers == 0) by (nonlinear_arith)
            requires
                workers > 0,
        ;
    } else {
        let p = (m - 1) as nat;
        lemma_rr_count_exact(start, workers, p, w);
        law_round_robin_closed_form(start, workers, p);
        let d = (w - start) % workers;
        // The selection made after `p` others goes to `w` exactly when `w`
        // sits `p mod workers` places after `start`.
        lemma_mod_equivalence(start + p, w, workers);
        lemma_mod_equivalence(p as int, w - start, workers);
        lemma_small_mod(w as nat, workers as nat);
        assert((rr_after(start, workers, p) == w) == (d == (p as int) % workers));
        lemma_fundamental_div_mod(p as int, workers);
        let q = (p as int) / workers;
        let r = (p as int) % workers;
        assert(0 <= r < workers);
        assert(0 <= d < workers);
        if r + 1 < workers {
            assert(m == workers * q + (r + 1));
            lemma_fundamental_div_mod_converse(m as int, workers, q, r + 1);
        } else {
            assert(m == workers * (q + 1) + 0) by (nonlinear_arith)
                requires
                    p == workers * q + r,
                    r + 1 == workers,
                    m == p + 1,
            ;
            lemma_fundamental_div_mod_converse(m as int, workers, q + 1, 0);
        }
    }
}

/// Over any number `m` of connections, each worker receives `(m as int) / workers`
/// of them rounded down or rounded up: the shares never differ by more than
/// one.
pub proof fn law_round_robin_balanced(start: int, workers: int, m: nat, w: int)
    requires
        0 <= start < workers,
        0 <= w < workers,
    ensures
        rr_count(start, workers, m, w) == (m as int) / workers || ((m as int) % workers != 0 && rr_count(
            start,
            workers,
            m,
            w,
        ) == (m as int) / workers + 1),
{
    lemma_rr_count_exact(start, workers, m, w);
    lemma_small_mod(0, workers as nat);
    if (w - start) % workers < (m as int) % workers {
        assert((m as int) % workers != 0);
    }
}

} // verus!
