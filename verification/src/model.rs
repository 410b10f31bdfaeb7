//! A verified round-by-round model of one ring run. The model tracks how
//! many tokens sit queued in each channel and how many rounds each task has
//! completed, and advances a full round at a time along the schedule the
//! alternation rule admits: the round's sender-first task sends, every other
//! task in clockwise order receives and forwards the token, and the
//! sender-first task finally takes the token back. Every receive is proved
//! enabled (its channel is nonempty) and every send is proved within the
//! channel capacity, so the ring makes progress at every round and each
//! round carries one token around the whole ring.

use vstd::prelude::*;
use vstd::arithmetic::div_mod::lemma_small_mod;
use vstd::arithmetic::div_mod::lemma_mod_self_0;
use vstd::arithmetic::div_mod::lemma_mod_division_less_than_divisor;
use vstd::arithmetic::div_mod::lemma_add_mod_noop_right;
use vstd::arithmetic::div_mod::lemma_mod_equivalence;
use crate::protocol::sender_first_spec;

verus! {

/// The clockwise neighbor of slot `j` in a ring of `n` slots.
pub fn next_slot(j: usize, n: usize) -> (t: usize)
    requires
        n >= 1,
        j < n,
    ensures
        t == ((j + 1) as int) % (n as int),
        j + 1 < n ==> t == j + 1,
        j + 1 == n ==> t == 0,
{
    if j + 1 < n {
        proof {
            lemma_small_mod((j + 1) as nat, n as nat);
        }
        j + 1
    } else {
        proof {
            lemma_mod_self_0(n as int);
        }
        0
    }
}

/// The observable state of one ring while it runs: `queued[j]` tokens sit in
/// the channel that feeds slot `j`, task `j` has completed `rounds[j]` of its
/// rounds, and `traversals` tokens have gone around the whole ring.
pub struct RingModel {
    pub n: usize,
    pub cap: usize,
    pub queued: Vec<usize>,
    pub rounds: Vec<usize>,
    pub traversals: usize,
}

impl RingModel {
    /// The ring is well formed: at least one task, channel capacity at least
    /// one, one channel per task, and no channel over its capacity.
    pub open spec fn wf(self) -> bool {
        &&& self.n >= 1
        &&& self.cap >= 1
        &&& self.queued@.len() == self.n
        &&& self.rounds@.len() == self.n
        &&& forall|j: int| 0 <= j < self.n ==> #[trigger] self.queued@[j] <= self.cap
    }

    /// No token is queued anywhere: the state between rounds.
    pub open spec fn quiet(self) -> bool {
        forall|j: int| 0 <= j < self.queued@.len() ==> #[trigger] self.queued@[j] == 0
    }

    /// Every task has completed exactly `round` rounds.
    pub open spec fn at_round(self, round: int) -> bool {
        forall|j: int| 0 <= j < self.rounds@.len() ==> #[trigger] self.rounds@[j] == round
    }

    /// A freshly built ring of `n` tasks with channels of capacity `cap`:
    /// quiet, with no round completed and no traversal counted.
    pub fn new(n: usize, cap: usize) -> (w: Self)
        requires
            n >= 1,
            cap >= 1,
        ensures
            w.wf(),
            w.quiet(),
            w.at_round(0),
            w.n == n,
            w.cap == cap,
            w.traversals == 0,
    {
        let mut queued: Vec<usize> = Vec::new();
        let mut rounds: Vec<usize> = Vec::new();
        let mut j: usize = 0;
        while j < n
            invariant
                j <= n,
                queued@.len() == j,
                rounds@.len() == j,
                forall|k: int| 0 <= k < j ==> #[trigger] queued@[k] == 0,
                forall|k: int| 0 <= k < j ==> #[trigger] rounds@[k] == 0,
            decreases n - j,
        {
            queued.push(0);
            rounds.push(0);
            j = j + 1;
        }
        RingModel { n, cap, queued, rounds, traversals: 0 }
    }

    /// Run round `round` to completion. The round's sender-first task — the
    /// unique slot equal to `round % n` — sends the round's token; each other
    /// task, taken clockwise, receives it and sends it on; the sender-first
    /// task finally receives it back. The ring returns to quiet with every
    /// task one round further and one more full traversal counted.
    pub fn run_round(&mut self, round: usize)
        requires
            old(self).wf(),
            old(self).quiet(),
            old(self).at_round(round as int),
            round < usize::MAX,
            old(self).traversals < usize::MAX,
        ensures
            final(self).wf(),
            final(self).quiet(),
            final(self).at_round(round + 1),
            final(self).n == old(self).n,
            final(self).cap == old(self).cap,
            final(self).traversals == old(self).traversals + 1,
    {
        let n = self.n;
        let s = round % n;
        proof {
            lemma_mod_division_less_than_divisor(round as int, n as int);
            // The task that opens the round is exactly the one the
            // alternation rule designates as sender-first.
            assert(sender_first_spec(n as int, s as int, round as int));
        }

        // Task `s` sends the round's token to its clockwise neighbor.
        let first = next_slot(s, n);
        let q0 = self.queued[first];
        self.queued[first] = q0 + 1;

        // Every other task, clockwise from `s`, receives then forwards:
        // after `k` forwards the token sits in the channel feeding slot
        // `(s + k + 1) % n`.
        let mut t = first;
        let mut k: usize = 1;
        while k < n
            invariant
                self.n == n,
                n >= 1,
                self.cap == old(self).cap,
                self.cap >= 1,
                self.queued@.len() == n,
                self.rounds@ == old(self).rounds@,
                self.traversals == old(self).traversals,
                1 <= k <= n,
                t < n,
                t == ((s + k) as int) % (n as int),
                s < n,
                s == (round as int) % (n as int),
                self.queued@[t as int] == 1,
                forall|j: int| 0 <= j < n && j != t ==> #[trigger] self.queued@[j] == 0,
            decreases n - k,
        {
            proof {
                assert(!sender_first_spec(n as int, t as int, round as int)) by {
                    lemma_small_mod(s as nat, n as nat);
                    if t == s {
                        lemma_mod_equivalence((s + k) as int, s as int, n as int);
                        lemma_small_mod(k as nat, n as nat);
                    }
                };
            }
            // Task `t` receives the token from its inbound channel ...
            let qt = self.queued[t];
            self.queued[t] = qt - 1;
            // ... and sends it on its outbound channel.
            let u = next_slot(t, n);
            let qu = self.queued[u];
            self.queued[u] = qu + 1;
            proof {
                lemma_add_mod_noop_right(1, (s + k) as int, n as int);
            }
            t = u;
            k = k + 1;
        }

        // After `n - 1` forwards the token is back in the channel feeding
        // slot `s`, and task `s` receives it: the traversal is complete.
        proof {
            lemma_mod_self_0(n as int);
            lemma_add_mod_noop_right(s as int, n as int, n as int);
            lemma_small_mod(s as nat, n as nat);
        }
        let qs = self.queued[s];
        self.queued[s] = qs - 1;

        // Every task has now completed the round.
        let mut j: usize = 0;
        while j < n
            invariant
                self.n == n,
                self.cap == old(self).cap,
                self.queued@.len() == n,
                self.rounds@.len() == n,
                self.traversals == old(self).traversals,
                j <= n,
                round < usize::MAX,
                forall|i: int| 0 <= i < n ==> #[trigger] self.queued@[i] == 0,
                forall|i: int| 0 <= i < j ==> #[trigger] self.rounds@[i] == round + 1,
                forall|i: int| j <= i < n ==> #[trigger] self.rounds@[i] == round,
            decreases n - j,
        {
            let rj = self.rounds[j];
            self.rounds[j] = rj + 1;
            j = j + 1;
        }
        self.traversals = self.traversals + 1;
    }
}

/// Run one ring of `n` tasks for `m` rounds: the run terminates, every task
/// completes exactly `m` rounds, exactly `m` tokens traverse the full ring,
/// and no token is left queued in any channel. With `m == 0` no
/// communication happens at all.
pub fn run_ring(n: usize, cap: usize, m: usize) -> (w: RingModel)
    requires
        n >= 1,
        cap >= 1,
    ensures
        w.wf(),
        w.quiet(),
        w.at_round(m as int),
        w.n == n,
        w.cap == cap,
        w.traversals == m,
{
    let mut w = RingModel::new(n, cap);
    let mut round: usize = 0;
    while round < m
        invariant
            w.wf(),
            w.quiet(),
            w.at_round(round as int),
            w.n == n,
            w.cap == cap,
            w.traversals == round,
            round <= m,
        decreases m - round,
    {
        w.run_round(round);
        round = round + 1;
    }
    w
}

/// Run `r` independent rings of `n` tasks each for `m` rounds apiece: every
/// ring completes all of its rounds, and the outcome of each ring is the
/// outcome `run_ring` gives it, unaffected by the other rings.
pub fn run_all(n: usize, r: usize, cap: usize, m: usize) -> (ws: Vec<RingModel>)
    requires
        n >= 1,
        cap >= 1,
    ensures
        ws@.len() == r,
        forall|i: int| 0 <= i < r ==> (#[trigger] ws@[i]).wf(),
        forall|i: int| 0 <= i < r ==> (#[trigger] ws@[i]).quiet(),
        forall|i: int| 0 <= i < r ==> (#[trigger] ws@[i]).at_round(m as int),
        forall|i: int| 0 <= i < r ==> (#[trigger] ws@[i]).n == n,
        forall|i: int| 0 <= i < r ==> (#[trigger] ws@[i]).traversals == m,
{
    let mut ws: Vec<RingModel> = Vec::new();
    let mut i: usize = 0;
    while i < r
        invariant
            i <= r,
            n >= 1,
            cap >= 1,
            ws@.len() == i,
            forall|k: int| 0 <= k < i ==> (#[trigger] ws@[k]).wf(),
            forall|k: int| 0 <= k < i ==> (#[trigger] ws@[k]).quiet(),
            forall|k: int| 0 <= k < i ==> (#[trigger] ws@[k]).at_round(m as int),
            forall|k: int| 0 <= k < i ==> (#[trigger] ws@[k]).n == n,
            forall|k: int| 0 <= k < i ==> (#[trigger] ws@[k]).traversals == m,
        decreases r - i,
    {
        let w = run_ring(n, cap, m);
        ws.push(w);
        i = i + 1;
    }
    ws
}

} // verus!
