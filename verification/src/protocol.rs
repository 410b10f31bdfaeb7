//! The per-task token-passing protocol: a state machine that decides, for
//! each round, whether the task sends before it receives or the other way
//! around. Exactly one task per ring opens each round by sending; rotating
//! that role (`idx == round % n`) breaks the symmetry that would otherwise
//! let every task block at once.

use vstd::prelude::*;
use vstd::arithmetic::div_mod::lemma_mod_division_less_than_divisor;
use vstd::arithmetic::div_mod::lemma_small_mod;
use vstd::arithmetic::div_mod::lemma_add_mod_noop_right;
use vstd::arithmetic::div_mod::lemma_mod_equivalence;

verus! {

/// The order of the two channel operations a task performs in one round.
#[derive(Clone, Copy, PartialEq, Eq, Structural, Debug)]
pub enum TurnOrder {
    /// Send the token to the clockwise neighbor, then receive from the
    /// counter-clockwise neighbor.
    SendFirst,
    /// Receive from the counter-clockwise neighbor, then send clockwise.
    RecvFirst,
}

/// The round-robin tie-break: slot `idx` opens round `round` of a ring of
/// `n` tasks by sending exactly when `idx == round % n`.
pub open spec fn sender_first_spec(n: int, idx: int, round: int) -> bool {
    idx == round % n
}

/// Decide whether slot `idx` is the sender-first task of `round`.
pub fn sender_first(n: usize, idx: usize, round: usize) -> (b: bool)
    requires
        n >= 1,
    ensures
        b == sender_first_spec(n as int, idx as int, round as int),
{
    idx == round % n
}

/// In a ring of one task the alternation rule always selects that task as
/// sender-first: `round % 1 == 0 == idx`. A self-looped ring therefore opens
/// every round by sending into its own channel and never blocks on an empty
/// receive.
pub proof fn lemma_single_task_always_sender(round: int)
    requires
        round >= 0,
    ensures
        sender_first_spec(1, 0, round),
{
    lemma_mod_division_less_than_divisor(round, 1);
}

/// At every round exactly one task of the ring is sender-first: the slot
/// `round % n`, and no other.
pub proof fn lemma_unique_sender_first(n: int, round: int)
    requires
        n >= 1,
        round >= 0,
    ensures
        0 <= round % n < n,
        sender_first_spec(n, round % n, round),
        forall|i: int|
            0 <= i < n && #[trigger] sender_first_spec(n, i, round) ==> i == round % n,
{
    lemma_mod_division_less_than_divisor(round, n);
}

/// Round-robin fairness: over any `n` consecutive rounds, each slot of the
/// ring takes the sender-first role exactly once.
pub proof fn lemma_round_robin(n: int, idx: int, r0: int)
    requires
        n >= 1,
        0 <= idx < n,
        r0 >= 0,
    ensures
        exists|rd: int| r0 <= rd < r0 + n && #[trigger] sender_first_spec(n, idx, rd),
        forall|r1: int, r2: int|
            r0 <= r1 < r0 + n && r0 <= r2 < r0 + n && #[trigger] sender_first_spec(n, idx, r1)
                && #[trigger] sender_first_spec(n, idx, r2) ==> r1 == r2,
{
    let w: int = r0 + (idx - r0) % n;
    lemma_mod_division_less_than_divisor(idx - r0, n);
    lemma_add_mod_noop_right(r0, idx - r0, n);
    lemma_small_mod(idx as nat, n as nat);
    assert(r0 <= w < r0 + n);
    assert(sender_first_spec(n, idx, w));
    assert forall|r1: int, r2: int|
        r0 <= r1 < r0 + n && r0 <= r2 < r0 + n && #[trigger] sender_first_spec(n, idx, r1)
            && #[trigger] sender_first_spec(n, idx, r2) implies r1 == r2 by {
        lemma_mod_equivalence(r1, r2, n);
        if r1 > r2 {
            lemma_small_mod((r1 - r2) as nat, n as nat);
        } else if r2 > r1 {
            lemma_mod_equivalence(r2, r1, n);
            lemma_small_mod((r2 - r1) as nat, n as nat);
        }
    }
}

/// The state of one concurrent unit of work: slot `idx` of a ring of `n`
/// tasks, `round` rounds of its `m` already completed.
pub struct TaskState {
    pub n: usize,
    pub m: usize,
    pub idx: usize,
    pub round: usize,
}

impl TaskState {
    /// A task is well formed when it sits in a nonempty ring at a valid slot
    /// and has not counted more rounds than it was asked to run.
    pub open spec fn wf(self) -> bool {
        &&& self.n >= 1
        &&& self.idx < self.n
        &&& self.round <= self.m
    }

    /// A task is done once it has completed all `m` rounds.
    pub open spec fn done(self) -> bool {
        self.round == self.m
    }

    /// The order of operations the task must use in its current round.
    pub open spec fn order_spec(self) -> TurnOrder {
        if sender_first_spec(self.n as int, self.idx as int, self.round as int) {
            TurnOrder::SendFirst
        } else {
            TurnOrder::RecvFirst
        }
    }

    /// Start slot `idx` of a ring of `n` tasks on `m` rounds of work.
    pub fn new(n: usize, m: usize, idx: usize) -> (s: Self)
        requires
            n >= 1,
            idx < n,
        ensures
            s.wf(),
            s.n == n,
            s.m == m,
            s.idx == idx,
            s.round == 0,
    {
        TaskState { n, m, idx, round: 0 }
    }

    /// Decide the task's next step: `None` once all rounds are complete,
    /// otherwise the operation order the alternation rule picks for the
    /// current round.
    pub fn next_action(&self) -> (a: Option<TurnOrder>)
        requires
            self.wf(),
        ensures
            a is None <==> self.done(),
            !self.done() ==> a == Some(self.order_spec()),
    {
        if self.round == self.m {
            None
        } else if sender_first(self.n, self.idx, self.round) {
            Some(TurnOrder::SendFirst)
        } else {
            Some(TurnOrder::RecvFirst)
        }
    }

    /// Record that both channel operations of the current round finished.
    pub fn complete_round(&mut self)
        requires
            old(self).wf(),
            !old(self).done(),
        ensures
            final(self).wf(),
            final(self).n == old(self).n,
            final(self).m == old(self).m,
            final(self).idx == old(self).idx,
            final(self).round == old(self).round + 1,
    {
        self.round = self.round + 1;
    }
}

/// At every round, exactly one task per ring is sender-first: among the `n`
/// tasks of a ring all standing at round `round`, the slot `round % n` opens
/// by sending and every other slot opens by receiving.
pub proof fn lemma_one_sender_first_per_ring(tasks: Seq<TaskState>, n: int, round: int)
    requires
        n >= 1,
        tasks.len() == n,
        forall|i: int| 0 <= i < n ==> (#[trigger] tasks[i]).wf(),
        forall|i: int| 0 <= i < n ==> (#[trigger] tasks[i]).n == n,
        forall|i: int| 0 <= i < n ==> (#[trigger] tasks[i]).idx == i,
        forall|i: int| 0 <= i < n ==> (#[trigger] tasks[i]).round == round,
    ensures
        0 <= round % n < n,
        tasks[round % n].order_spec() == TurnOrder::SendFirst,
        forall|i: int|
            0 <= i < n && i != round % n ==> (#[trigger] tasks[i]).order_spec()
                == TurnOrder::RecvFirst,
{
    lemma_mod_division_less_than_divisor(round, n);
}

} // verus!
