use cycle::protocol::{TaskState, TurnOrder};
use cycle::ring::{build_ring, build_rings, RingNode};
use cycle::CHANNEL_CAPACITY;

use futures::executor::block_on;
use futures::future::join_all;

/// Drive one task of a ring through all of its rounds, using the library's
/// state machine for every turn-taking decision.
async fn drive(node: RingNode, n: usize, m: usize, idx: usize) {
    assert!(n >= 1 && idx < n);
    let mut st = TaskState::new(n, m, idx);
    while let Some(order) = st.next_action() {
        match order {
            TurnOrder::SendFirst => {
                node.tx.send(()).await.expect("send failed");
                node.rx.recv().await.expect("recv failed");
            }
            TurnOrder::RecvFirst => {
                node.rx.recv().await.expect("recv failed");
                node.tx.send(()).await.expect("send failed");
            }
        }
        assert!(st.round < st.m);
        st.complete_round();
    }
    assert_eq!(st.round, m);
}

fn run_rings(n: usize, r: usize, m: usize) {
    let rings = build_rings(n, r, CHANNEL_CAPACITY);
    assert_eq!(rings.len(), r);
    let mut tasks = Vec::new();
    for ring in rings {
        assert_eq!(ring.len(), n);
        for (idx, node) in ring.into_iter().enumerate() {
            tasks.push(drive(node, n, m, idx));
        }
    }
    block_on(join_all(tasks));
}

#[test]
fn one_ring_of_three_runs_three_rounds() {
    run_rings(3, 1, 3);
}

#[test]
fn five_rings_of_two_run_hundred_rounds() {
    run_rings(2, 5, 100);
}

#[test]
fn self_loop_ring_runs_without_deadlock() {
    let mut nodes = build_ring(1, CHANNEL_CAPACITY);
    assert_eq!(nodes.len(), 1);
    let node = nodes.remove(0);
    block_on(drive(node, 1, 10, 0));
}

#[test]
fn zero_rounds_terminates_immediately() {
    run_rings(4, 2, 0);
}

#[test]
fn channels_really_carry_the_token() {
    // A two-node ring where the tokens are counted by hand: the sender-first
    // task of round 0 is slot 0, and a full round moves one token through
    // both channels.
    let mut nodes = build_ring(2, CHANNEL_CAPACITY);
    let b = nodes.remove(1);
    let a = nodes.remove(0);
    block_on(async move {
        // Slot 0 sends first; slot 1 must then find a token on its inbound
        // channel without blocking.
        a.tx.send(()).await.expect("send failed");
        b.rx.recv().await.expect("recv failed");
        b.tx.send(()).await.expect("send failed");
        a.rx.recv().await.expect("recv failed");
        // Both channels are empty again.
        assert!(a.rx.is_empty());
        assert!(b.rx.is_empty());
    });
}
