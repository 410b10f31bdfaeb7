//! Deadlock freedom of the token-passing protocol. One ring is modeled as a
//! state machine over snapshots: each task holds its round counter and
//! whether it is mid-round (its first channel operation done, its second
//! not), and each channel holds its queued tokens. Tasks step in any order —
//! a send is enabled while the target channel is below capacity, a receive
//! while the task's inbound channel is nonempty — so the machine covers
//! every interleaving a scheduler could choose. The progress theorem shows
//! that the alternation rule leaves no reachable state stuck: as long as any
//! task still has rounds to run, some task can take its next operation.

use vstd::prelude::*;
use vstd::arithmetic::div_mod::lemma_small_mod;
use vstd::arithmetic::div_mod::lemma_mod_self_0;
use vstd::arithmetic::div_mod::lemma_add_mod_noop_right;
use vstd::arithmetic::div_mod::lemma_mod_division_less_than_divisor;
use vstd::arithmetic::div_mod::lemma_mod_multiples_vanish;
use crate::protocol::sender_first_spec;

verus! {

/// A snapshot of one ring of concurrently running tasks. Task `i` has
/// completed `rounds[i]` of the `m` rounds asked of it and is mid-round when
/// `mid[i]`; the channel feeding task `i` holds `queued[i]` tokens, at most
/// `cap` of them.
pub struct RingSnap {
    pub m: nat,
    pub cap: nat,
    pub rounds: Seq<nat>,
    pub mid: Seq<bool>,
    pub queued: Seq<nat>,
}

impl RingSnap {
    /// The number of tasks in the ring.
    pub open spec fn n(self) -> int {
        self.rounds.len() as int
    }

    /// The counter-clockwise neighbor of slot `i`.
    pub open spec fn prev(self, i: int) -> int {
        if i == 0 {
            self.n() - 1
        } else {
            i - 1
        }
    }

    /// The clockwise neighbor of slot `i`.
    pub open spec fn nxt(self, i: int) -> int {
        if i == self.n() - 1 {
            0
        } else {
            i + 1
        }
    }

    /// Task `i` is the sender-first task of the round it is in.
    pub open spec fn sf(self, i: int) -> bool {
        sender_first_spec(self.n(), i, self.rounds[i] as int)
    }

    /// How many tokens task `i` has sent: one per completed round, plus one
    /// when it is mid-round and its first operation was the send.
    pub open spec fn sends(self, i: int) -> int {
        self.rounds[i] + if self.mid[i] && self.sf(i) {
            1int
        } else {
            0int
        }
    }

    /// How many tokens task `i` has received: one per completed round, plus
    /// one when it is mid-round and its first operation was the receive.
    pub open spec fn recvs(self, i: int) -> int {
        self.rounds[i] + if self.mid[i] && !self.sf(i) {
            1int
        } else {
            0int
        }
    }

    /// Task `i` has completed all of its rounds.
    pub open spec fn done(self, i: int) -> bool {
        self.rounds[i] == self.m
    }

    /// Task `i`'s next channel operation is a send on its outbound channel.
    pub open spec fn pending_send(self, i: int) -> bool {
        &&& !self.done(i)
        &&& (if self.mid[i] {
            !self.sf(i)
        } else {
            self.sf(i)
        })
    }

    /// Task `i`'s next channel operation is a receive on its inbound channel.
    pub open spec fn pending_recv(self, i: int) -> bool {
        &&& !self.done(i)
        &&& (if self.mid[i] {
            self.sf(i)
        } else {
            !self.sf(i)
        })
    }

    /// Task `i` can take its next operation now: its send finds room in the
    /// target channel, or its receive finds a queued token.
    pub open spec fn can_step(self, i: int) -> bool {
        ||| (self.pending_send(i) && self.queued[self.nxt(i)] < self.cap)
        ||| (self.pending_recv(i) && self.queued[i] > 0)
    }

    /// No task can take its next operation.
    pub open spec fn blocked(self) -> bool {
        forall|i: int| 0 <= i < self.n() ==> !(#[trigger] self.can_step(i))
    }

    /// The reachability invariant: every round counter is within bounds, a
    /// mid-round task still owes a round, and each channel holds exactly the
    /// tokens its producer sent and its consumer has not yet received —
    /// never more than the capacity.
    pub open spec fn wf(self) -> bool {
        &&& self.n() >= 1
        &&& self.cap >= 1
        &&& self.mid.len() == self.n()
        &&& self.queued.len() == self.n()
        &&& forall|i: int| 0 <= i < self.n() ==> #[trigger] self.rounds[i] <= self.m
        &&& forall|i: int| 0 <= i < self.n() && #[trigger] self.mid[i] ==> self.rounds[i] < self.m
        &&& forall|j: int|
            0 <= j < self.n() ==> #[trigger] self.queued[j] == self.sends(self.prev(j))
                - self.recvs(j)
        &&& forall|j: int| 0 <= j < self.n() ==> #[trigger] self.queued[j] <= self.cap
    }

    /// The state before any task has taken any operation.
    pub open spec fn init(self, n: int, m: nat, cap: nat) -> bool {
        &&& self.m == m
        &&& self.cap == cap
        &&& self.rounds.len() == n
        &&& self.mid.len() == n
        &&& self.queued.len() == n
        &&& forall|i: int| 0 <= i < n ==> #[trigger] self.rounds[i] == 0
        &&& forall|i: int| 0 <= i < n ==> !(#[trigger] self.mid[i])
        &&& forall|j: int| 0 <= j < n ==> #[trigger] self.queued[j] == 0
    }

    /// The bookkeeping shared by both operations: a first operation moves
    /// task `i` to mid-round, a second completes its round.
    pub open spec fn advances(self, post: Self, i: int) -> bool {
        &&& post.m == self.m
        &&& post.cap == self.cap
        &&& (if !self.mid[i] {
            post.rounds == self.rounds && post.mid == self.mid.update(i, true)
        } else {
            post.rounds == self.rounds.update(i, (self.rounds[i] + 1) as nat) && post.mid
                == self.mid.update(i, false)
        })
    }

    /// Task `i` sends a token on its outbound channel: enabled only while
    /// that channel is below capacity.
    pub open spec fn step_send(self, post: Self, i: int) -> bool {
        &&& 0 <= i < self.n()
        &&& self.pending_send(i)
        &&& self.queued[self.nxt(i)] < self.cap
        &&& post.queued == self.queued.update(self.nxt(i), (self.queued[self.nxt(i)] + 1) as nat)
        &&& self.advances(post, i)
    }

    /// Task `i` receives a token from its inbound channel: enabled only
    /// while that channel is nonempty.
    pub open spec fn step_recv(self, post: Self, i: int) -> bool {
        &&& 0 <= i < self.n()
        &&& self.pending_recv(i)
        &&& self.queued[i] > 0
        &&& post.queued == self.queued.update(i, (self.queued[i] - 1) as nat)
        &&& self.advances(post, i)
    }

    /// Any one task takes its next operation.
    pub open spec fn step(self, post: Self, i: int) -> bool {
        self.step_send(post, i) || self.step_recv(post, i)
    }
}

/// The initial state of any ring satisfies the invariant.
pub proof fn lemma_init_wf(s: RingSnap, n: int, m: nat, cap: nat)
    requires
        n >= 1,
        cap >= 1,
        s.init(n, m, cap),
    ensures
        s.wf(),
{
}

/// One operation changes only the stepping task's counters: its send or
/// receive count grows by one and nothing else moves.
proof fn lemma_step_counts(pre: RingSnap, post: RingSnap, i: int)
    requires
        pre.wf(),
        pre.step(post, i),
    ensures
        post.n() == pre.n(),
        pre.step_send(post, i) ==> post.sends(i) == pre.sends(i) + 1 && post.recvs(i)
            == pre.recvs(i),
        pre.step_recv(post, i) ==> post.recvs(i) == pre.recvs(i) + 1 && post.sends(i)
            == pre.sends(i),
        forall|k: int|
            0 <= k < pre.n() && k != i ==> #[trigger] post.sends(k) == pre.sends(k)
                && post.recvs(k) == pre.recvs(k),
{
}

/// Every operation preserves the invariant: the invariant holds of every
/// reachable state.
pub proof fn lemma_step_preserves_wf(pre: RingSnap, post: RingSnap, i: int)
    requires
        pre.wf(),
        pre.step(post, i),
    ensures
        post.wf(),
{
    lemma_step_counts(pre, post, i);
    assert forall|j: int| 0 <= j < post.n() implies #[trigger] post.queued[j] == post.sends(
        post.prev(j),
    ) - post.recvs(j) by {
        let p = post.prev(j);
        assert(pre.queued[j] == pre.sends(p) - pre.recvs(j));
        assert(pre.nxt(p) == j);
    }
}

/// The slot `k` clockwise hops from slot `i`.
pub open spec fn hops(s: RingSnap, i: int, k: nat) -> int
    decreases k,
{
    if k == 0 {
        i
    } else {
        s.nxt(hops(s, i, (k - 1) as nat))
    }
}

/// Hopping `k` times from slot `i` lands on slot `(i + k) % n`.
proof fn lemma_hops_mod(s: RingSnap, i: int, k: nat)
    requires
        s.n() >= 1,
        0 <= i < s.n(),
    ensures
        hops(s, i, k) == (i + k) % s.n(),
        0 <= hops(s, i, k) < s.n(),
    decreases k,
{
    let n = s.n();
    if k == 0 {
        lemma_small_mod(i as nat, n as nat);
    } else {
        lemma_hops_mod(s, i, (k - 1) as nat);
        let p = hops(s, i, (k - 1) as nat);
        lemma_add_mod_noop_right(1, i + k - 1, n);
        if p == n - 1 {
            lemma_mod_self_0(n);
        } else {
            lemma_small_mod((p + 1) as nat, n as nat);
        }
    }
}

/// Every slot of the ring is within `n` hops of any other.
proof fn lemma_hops_reach(s: RingSnap, i: int, j: int)
    requires
        s.n() >= 1,
        0 <= i < s.n(),
        0 <= j < s.n(),
    ensures
        exists|k: nat| k <= s.n() && #[trigger] hops(s, i, k) == j,
{
    let n = s.n();
    let k: nat = if j >= i {
        (j - i) as nat
    } else {
        (j + n - i) as nat
    };
    lemma_hops_mod(s, i, k);
    lemma_mod_multiples_vanish(1, j, n);
    lemma_small_mod(j as nat, n as nat);
    assert(hops(s, i, k) == j);
}

/// No task ever counts more than `m` sends or receives, nor fewer than its
/// completed rounds.
proof fn lemma_count_bounds(s: RingSnap, i: int)
    requires
        s.wf(),
        0 <= i < s.n(),
    ensures
        s.rounds[i] <= s.sends(i) <= s.m,
        s.rounds[i] <= s.recvs(i) <= s.m,
{
}

/// In a blocked ring, a task about to send forces its clockwise neighbor to
/// be about to send as well — and to be strictly behind in rounds.
proof fn lemma_send_blocked_next(s: RingSnap, i: int)
    requires
        s.wf(),
        s.blocked(),
        0 <= i < s.n(),
        s.pending_send(i),
    ensures
        s.pending_send(s.nxt(i)),
        s.rounds[s.nxt(i)] < s.rounds[i],
{
    let t = s.nxt(i);
    assert(!s.can_step(i));
    assert(s.queued[t] == s.cap);
    assert(s.queued[t] == s.sends(s.prev(t)) - s.recvs(t));
    assert(s.prev(t) == i);
    lemma_count_bounds(s, i);
    lemma_count_bounds(s, t);
    if s.done(t) {
        assert(false);
    }
    if s.pending_recv(t) {
        assert(!s.can_step(t));
        assert(false);
    }
}

/// In a blocked ring with a task about to send, rounds drop by at least one
/// per clockwise hop.
proof fn lemma_send_blocked_chain(s: RingSnap, i: int, k: nat)
    requires
        s.wf(),
        s.blocked(),
        0 <= i < s.n(),
        s.pending_send(i),
    ensures
        s.pending_send(hops(s, i, k)),
        s.rounds[hops(s, i, k)] + k <= s.rounds[i],
    decreases k,
{
    lemma_hops_mod(s, i, k);
    if k > 0 {
        lemma_send_blocked_chain(s, i, (k - 1) as nat);
        lemma_hops_mod(s, i, (k - 1) as nat);
        lemma_send_blocked_next(s, hops(s, i, (k - 1) as nat));
    }
}

/// In a blocked ring no task is about to send: its whole ring would have to
/// be about to send, with rounds dropping at every one of `n` hops that lead
/// back to it.
proof fn lemma_blocked_no_sender(s: RingSnap, i: int)
    requires
        s.wf(),
        s.blocked(),
        0 <= i < s.n(),
    ensures
        !s.pending_send(i),
{
    let n = s.n();
    if s.pending_send(i) {
        lemma_send_blocked_chain(s, i, n as nat);
        lemma_hops_mod(s, i, n as nat);
        lemma_mod_multiples_vanish(1, i, n);
        lemma_small_mod(i as nat, n as nat);
    }
}

/// In a blocked ring, a task about to receive forces its counter-clockwise
/// neighbor to be about to receive as well, and fixes the round gap between
/// them: the neighbor is one round back exactly when it is mid-round.
proof fn lemma_recv_blocked_prev(s: RingSnap, i: int)
    requires
        s.wf(),
        s.blocked(),
        0 <= i < s.n(),
        s.pending_recv(i),
    ensures
        s.pending_recv(s.prev(i)),
        s.rounds[i] == s.rounds[s.prev(i)] + (if s.mid[s.prev(i)] {
            1int
        } else {
            0int
        }),
{
    let p = s.prev(i);
    assert(!s.can_step(i));
    assert(s.queued[i] == 0);
    assert(s.queued[i] == s.sends(p) - s.recvs(i));
    assert(s.nxt(p) == i);
    lemma_count_bounds(s, p);
    lemma_count_bounds(s, i);
    if s.done(p) {
        assert(false);
    }
    if s.pending_send(p) {
        assert(!s.can_step(p));
        assert(false);
    }
}

/// Walking clockwise to a task about to receive, every task on the way is
/// about to receive too.
proof fn lemma_recv_blocked_chain(s: RingSnap, j: int, k: nat)
    requires
        s.wf(),
        s.blocked(),
        0 <= j < s.n(),
        s.pending_recv(hops(s, j, k)),
    ensures
        s.pending_recv(j),
    decreases k,
{
    if k > 0 {
        lemma_hops_mod(s, j, k);
        lemma_hops_mod(s, j, (k - 1) as nat);
        let h = hops(s, j, k);
        let hp = hops(s, j, (k - 1) as nat);
        lemma_recv_blocked_prev(s, h);
        assert(s.prev(h) == hp);
        lemma_recv_blocked_chain(s, j, (k - 1) as nat);
    }
}

/// When every task of a blocked ring is about to receive, rounds never
/// decrease along clockwise hops.
proof fn lemma_all_recv_rounds_grow(s: RingSnap, j: int, k: nat)
    requires
        s.wf(),
        s.blocked(),
        forall|i: int| 0 <= i < s.n() ==> #[trigger] s.pending_recv(i),
        0 <= j < s.n(),
    ensures
        s.rounds[hops(s, j, k)] >= s.rounds[j],
    decreases k,
{
    if k > 0 {
        lemma_all_recv_rounds_grow(s, j, (k - 1) as nat);
        lemma_hops_mod(s, j, k);
        lemma_hops_mod(s, j, (k - 1) as nat);
        let hp = hops(s, j, (k - 1) as nat);
        lemma_recv_blocked_prev(s, s.nxt(hp));
        assert(s.prev(s.nxt(hp)) == hp);
    }
}

/// In a blocked ring no task is about to receive. Otherwise the whole ring
/// would be: then no task can be mid-round (its neighbor would be a full
/// round ahead, yet rounds cannot drop along the hops leading back), so all
/// tasks stand at the start of one same round — whose sender-first task
/// would be about to send, not receive.
proof fn lemma_blocked_no_receiver(s: RingSnap, i0: int)
    requires
        s.wf(),
        s.blocked(),
        0 <= i0 < s.n(),
    ensures
        !s.pending_recv(i0),
{
    if s.pending_recv(i0) {
        let n = s.n();
        assert forall|j: int| 0 <= j < n implies #[trigger] s.pending_recv(j) by {
            lemma_hops_reach(s, j, i0);
            let k = choose|k: nat| k <= n && #[trigger] hops(s, j, k) == i0;
            lemma_recv_blocked_chain(s, j, k);
        }
        assert forall|i1: int| 0 <= i1 < n implies !(#[trigger] s.mid[i1]) by {
            if s.mid[i1] {
                let t = s.nxt(i1);
                lemma_recv_blocked_prev(s, t);
                assert(s.prev(t) == i1);
                assert(s.rounds[t] == s.rounds[i1] + 1);
                lemma_all_recv_rounds_grow(s, t, (n - 1) as nat);
                lemma_hops_mod(s, t, (n - 1) as nat);
                lemma_mod_multiples_vanish(1, i1, n);
                lemma_small_mod(i1 as nat, n as nat);
                assert(hops(s, t, (n - 1) as nat) == i1);
                assert(false);
            }
        }
        let r = s.rounds[i0];
        assert forall|j: int| 0 <= j < n implies #[trigger] s.rounds[j] == r by {
            lemma_hops_reach(s, i0, j);
            let k1 = choose|k: nat| k <= n && #[trigger] hops(s, i0, k) == j;
            lemma_all_recv_rounds_grow(s, i0, k1);
            lemma_hops_reach(s, j, i0);
            let k2 = choose|k: nat| k <= n && #[trigger] hops(s, j, k) == i0;
            lemma_all_recv_rounds_grow(s, j, k2);
        }
        lemma_mod_division_less_than_divisor(r as int, n);
        let st = (r as int) % n;
        assert(s.pending_recv(st));
        assert(s.sf(st));
        assert(false);
    }
}

/// The channel operations tasks `0` up to `k` have performed in all.
pub open spec fn ops_of(s: RingSnap, k: int) -> int
    decreases k,
{
    if k <= 0 {
        0
    } else {
        ops_of(s, k - 1) + s.sends(k - 1) + s.recvs(k - 1)
    }
}

/// The channel operations the whole ring has performed.
pub open spec fn total_ops(s: RingSnap) -> int {
    ops_of(s, s.n())
}

/// One operation raises the count of the stepping task alone.
proof fn lemma_ops_update(pre: RingSnap, post: RingSnap, i: int, k: int)
    requires
        pre.wf(),
        pre.step(post, i),
        0 <= k <= pre.n(),
    ensures
        ops_of(post, k) == ops_of(pre, k) + (if i < k {
            1int
        } else {
            0int
        }),
    decreases k,
{
    lemma_step_counts(pre, post, i);
    if k > 0 {
        lemma_ops_update(pre, post, i, k - 1);
    }
}

/// No prefix of the ring outruns two operations per round per task.
proof fn lemma_ops_bounds(s: RingSnap, k: int)
    requires
        s.wf(),
        0 <= k <= s.n(),
    ensures
        0 <= ops_of(s, k) <= 2 * s.m * k,
    decreases k,
{
    if k > 0 {
        lemma_ops_bounds(s, k - 1);
        lemma_count_bounds(s, k - 1);
        assert(2 * s.m * (k - 1) + 2 * s.m == 2 * s.m * k) by (nonlinear_arith);
    }
}

/// **Termination measure.** Every operation raises the ring's total
/// operation count by exactly one, and the count never passes `2 * m * n`:
/// no execution of the ring runs forever. With forward progress below, a
/// run can only come to rest once every task has completed all its rounds.
pub proof fn lemma_measure(pre: RingSnap, post: RingSnap, i: int)
    requires
        pre.wf(),
        pre.step(post, i),
    ensures
        total_ops(post) == total_ops(pre) + 1,
        0 <= total_ops(pre) < total_ops(post) <= 2 * pre.m * pre.n(),
{
    lemma_step_preserves_wf(pre, post, i);
    lemma_ops_update(pre, post, i, pre.n());
    lemma_ops_bounds(pre, pre.n());
    lemma_ops_bounds(post, post.n());
}

/// **Forward progress.** In any reachable state of the ring — any state the
/// invariant admits — either every task has completed all of its rounds, or
/// some task can take its next channel operation at once. The alternation
/// rule is what makes this hold: a ring of tasks all stuck sending would
/// have to lose a round per hop around the cycle, and a ring of tasks all
/// stuck receiving would all stand at the start of one same round, whose
/// sender-first task is not receiving but sending.
pub proof fn lemma_progress(s: RingSnap)
    requires
        s.wf(),
        exists|i: int| 0 <= i < s.n() && !(#[trigger] s.done(i)),
    ensures
        exists|i: int| 0 <= i < s.n() && #[trigger] s.can_step(i),
{
    if s.blocked() {
        let i0 = choose|i: int| 0 <= i < s.n() && !(#[trigger] s.done(i));
        lemma_blocked_no_sender(s, i0);
        lemma_blocked_no_receiver(s, i0);
        assert(false);
    }
}

} // verus!
