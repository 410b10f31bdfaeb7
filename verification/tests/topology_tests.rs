use cycle::topology::{build_plan, ring_plan, NodePlan};

#[test]
fn ring_plan_wires_a_single_cycle() {
    let p = ring_plan(0, 4);
    assert_eq!(p.len(), 4);
    for (j, d) in p.iter().enumerate() {
        assert_eq!(d.ring, 0);
        assert_eq!(d.slot, j);
        assert_eq!(d.inbound, j);
        assert_eq!(d.outbound, (j + 1) % 4);
    }
    // Each node's outbound channel is its clockwise neighbor's inbound one.
    for j in 0..4 {
        assert_eq!(p[j].outbound, p[(j + 1) % 4].inbound);
    }
}

#[test]
fn self_loop_plan_closes_on_itself() {
    let p = ring_plan(0, 1);
    assert_eq!(p.len(), 1);
    assert_eq!(p[0].inbound, 0);
    assert_eq!(p[0].outbound, 0);
}

#[test]
fn build_plan_numbers_every_ring() {
    let ps = build_plan(3, 2);
    assert_eq!(ps.len(), 2);
    for (i, ring) in ps.iter().enumerate() {
        assert_eq!(ring.len(), 3);
        for d in ring.iter() {
            assert_eq!(d.ring, i);
        }
    }
}

#[test]
fn rebuilding_gives_an_identical_plan() {
    // Rebuilding for the same parameters yields a structurally identical
    // topology, node by node.
    let a = build_plan(3, 5);
    let b = build_plan(3, 5);
    assert_eq!(a, b);
    let single = ring_plan(2, 6);
    let again = ring_plan(2, 6);
    assert_eq!(single, again);
    let d: NodePlan = single[5];
    assert_eq!(d.outbound, 0);
}
