use cycle::protocol::{sender_first, TaskState, TurnOrder};

#[test]
fn sender_first_rotates_through_the_ring() {
    // Round 0: slot 0 opens; round 1: slot 1; round 2: slot 2; round 3: slot 0 again.
    assert!(sender_first(3, 0, 0));
    assert!(!sender_first(3, 1, 0));
    assert!(!sender_first(3, 2, 0));
    assert!(sender_first(3, 1, 1));
    assert!(!sender_first(3, 0, 1));
    assert!(sender_first(3, 2, 2));
    assert!(sender_first(3, 0, 3));
}

#[test]
fn exactly_one_sender_first_per_round() {
    let n = 5;
    for round in 0..20 {
        let mut count = 0;
        for idx in 0..n {
            if sender_first(n, idx, round) {
                count += 1;
                assert_eq!(idx, round % n);
            }
        }
        assert_eq!(count, 1);
    }
}

#[test]
fn round_robin_over_n_consecutive_rounds() {
    let n = 4;
    for idx in 0..n {
        for r0 in 0..8 {
            let picked = (r0..r0 + n).filter(|&rd| sender_first(n, idx, rd)).count();
            assert_eq!(picked, 1);
        }
    }
}

#[test]
fn single_task_is_always_sender_first() {
    for round in 0..50 {
        assert!(sender_first(1, 0, round));
    }
}

#[test]
fn task_runs_m_rounds_then_stops() {
    let mut st = TaskState::new(3, 3, 0);
    let mut orders = Vec::new();
    while let Some(order) = st.next_action() {
        orders.push(order);
        st.complete_round();
    }
    assert_eq!(st.round, 3);
    assert_eq!(
        orders,
        vec![TurnOrder::SendFirst, TurnOrder::RecvFirst, TurnOrder::RecvFirst]
    );
}

#[test]
fn task_with_zero_rounds_finishes_immediately() {
    let st = TaskState::new(4, 0, 2);
    assert_eq!(st.next_action(), None);
}

#[test]
fn middle_task_sends_first_only_on_its_round() {
    let mut st = TaskState::new(3, 3, 1);
    let mut orders = Vec::new();
    while let Some(order) = st.next_action() {
        orders.push(order);
        st.complete_round();
    }
    assert_eq!(
        orders,
        vec![TurnOrder::RecvFirst, TurnOrder::SendFirst, TurnOrder::RecvFirst]
    );
}
