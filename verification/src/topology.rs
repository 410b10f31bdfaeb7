//! The ring builder's plan: for each ring, which channel feeds each slot and
//! which channel each slot feeds. Channel `j` of a ring feeds slot `j`; slot
//! `j` sends on channel `(j + 1) % n`, so the `n` channels close the `n`
//! slots into a single cycle.

use vstd::prelude::*;
use vstd::arithmetic::div_mod::lemma_mod_division_less_than_divisor;
use vstd::arithmetic::div_mod::lemma_small_mod;
use vstd::arithmetic::div_mod::lemma_add_mod_noop_right;
use vstd::arithmetic::div_mod::lemma_mod_self_0;

verus! {

/// One position in a ring: the indices of the channel it receives from
/// (`inbound`, fed by its counter-clockwise neighbor) and of the channel it
/// sends on (`outbound`, feeding its clockwise neighbor).
#[derive(Clone, Copy, PartialEq, Eq, Structural, Debug)]
pub struct NodePlan {
    pub ring: usize,
    pub slot: usize,
    pub inbound: usize,
    pub outbound: usize,
}

/// What the plan of one node must say: slot `slot` of ring `ring` receives
/// from channel `slot` and sends on channel `(slot + 1) % n`.
pub open spec fn plan_entry(d: NodePlan, ring: int, slot: int, n: int) -> bool {
    &&& d.ring == ring
    &&& d.slot == slot
    &&& d.inbound == slot
    &&& d.outbound == (slot + 1) % n
}

/// A correct plan for one ring of `n` nodes.
pub open spec fn is_ring_plan(p: Seq<NodePlan>, ring: int, n: int) -> bool {
    &&& p.len() == n
    &&& forall|j: int| 0 <= j < n ==> plan_entry(#[trigger] p[j], ring, j, n)
}

/// Plan one ring of `n` nodes.
pub fn ring_plan(ring: usize, n: usize) -> (p: Vec<NodePlan>)
    requires
        n >= 1,
    ensures
        is_ring_plan(p@, ring as int, n as int),
{
    let mut p: Vec<NodePlan> = Vec::new();
    let mut j: usize = 0;
    while j < n
        invariant
            j <= n,
            n >= 1,
            p@.len() == j,
            forall|k: int| 0 <= k < j ==> plan_entry(#[trigger] p@[k], ring as int, k, n as int),
        decreases n - j,
    {
        let outbound = (j + 1) % n;
        p.push(NodePlan { ring, slot: j, inbound: j, outbound });
        j = j + 1;
    }
    p
}

/// Plan `r` independent rings of `n` nodes each.
pub fn build_plan(n: usize, r: usize) -> (ps: Vec<Vec<NodePlan>>)
    requires
        n >= 1,
    ensures
        ps@.len() == r,
        forall|i: int| 0 <= i < r ==> is_ring_plan((#[trigger] ps@[i])@, i, n as int),
{
    let mut ps: Vec<Vec<NodePlan>> = Vec::new();
    let mut i: usize = 0;
    while i < r
        invariant
            i <= r,
            n >= 1,
            ps@.len() == i,
            forall|k: int| 0 <= k < i ==> is_ring_plan((#[trigger] ps@[k])@, k, n as int),
        decreases r - i,
    {
        let p = ring_plan(i, n);
        ps.push(p);
        i = i + 1;
    }
    ps
}

/// In a well-planned ring the channels pair up: the channel a node sends on
/// is exactly the channel its clockwise neighbor receives from, so every
/// endpoint is attached and no channel dangles.
pub proof fn lemma_plan_adjacent(p: Seq<NodePlan>, ring: int, n: int)
    requires
        n >= 1,
        is_ring_plan(p, ring, n),
    ensures
        forall|j: int| 0 <= j < n ==> #[trigger] p[j].outbound == p[(j + 1) % n].inbound,
{
    assert forall|j: int| 0 <= j < n implies #[trigger] p[j].outbound == p[(j + 1) % n].inbound by {
        lemma_mod_division_less_than_divisor(j + 1, n);
        assert(plan_entry(p[j], ring, j, n));
        assert(plan_entry(p[(j + 1) % n], ring, (j + 1) % n, n));
    }
}

/// The slot reached from slot 0 after `k` clockwise hops.
pub open spec fn hop_from_zero(n: int, k: nat) -> int
    decreases k,
{
    if k == 0 {
        0
    } else {
        (hop_from_zero(n, (k - 1) as nat) + 1) % n
    }
}

/// Hopping clockwise `k` times from slot 0 lands on slot `k % n`.
pub proof fn lemma_hop_from_zero(n: int, k: nat)
    requires
        n >= 1,
    ensures
        hop_from_zero(n, k) == (k as int) % n,
    decreases k,
{
    if k == 0 {
        lemma_small_mod(0, n as nat);
    } else {
        lemma_hop_from_zero(n, (k - 1) as nat);
        lemma_add_mod_noop_right(1, k - 1, n);
    }
}

/// The topology is a single closed cycle: starting from slot 0 and following
/// outbound channels, every slot of the ring is visited within `n` hops, and
/// hop `n` returns to slot 0.
pub proof fn lemma_single_cycle(n: int)
    requires
        n >= 1,
    ensures
        forall|t: int| 0 <= t < n ==> #[trigger] hop_from_zero(n, t as nat) == t,
        hop_from_zero(n, n as nat) == 0,
{
    assert forall|t: int| 0 <= t < n implies #[trigger] hop_from_zero(n, t as nat) == t by {
        lemma_hop_from_zero(n, t as nat);
        lemma_small_mod(t as nat, n as nat);
    }
    lemma_hop_from_zero(n, n as nat);
    lemma_mod_self_0(n);
}

/// Rebuilding a plan for the same parameters gives the same structure: any
/// two plans of one ring that meet the builder's contract are equal.
pub proof fn lemma_ring_plan_unique(a: Seq<NodePlan>, b: Seq<NodePlan>, ring: int, n: int)
    requires
        n >= 1,
        is_ring_plan(a, ring, n),
        is_ring_plan(b, ring, n),
    ensures
        a == b,
{
    assert forall|j: int| 0 <= j < n implies a[j] == b[j] by {
        assert(plan_entry(a[j], ring, j, n));
        assert(plan_entry(b[j], ring, j, n));
    }
    assert(a =~= b);
}

/// Rebuilding the full plan for the same `(n, r)` gives the same structure:
/// any two plans that meet the builder's contract are equal, ring by ring.
pub proof fn lemma_build_plan_unique(a: Seq<Seq<NodePlan>>, b: Seq<Seq<NodePlan>>, n: int, r: int)
    requires
        n >= 1,
        a.len() == r,
        b.len() == r,
        forall|i: int| 0 <= i < r ==> is_ring_plan(#[trigger] a[i], i, n),
        forall|i: int| 0 <= i < r ==> is_ring_plan(#[trigger] b[i], i, n),
    ensures
        a == b,
{
    assert forall|i: int| 0 <= i < r implies a[i] == b[i] by {
        lemma_ring_plan_unique(a[i], b[i], i, n);
    }
    assert(a =~= b);
}

} // verus!
