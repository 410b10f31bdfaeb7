use cycle::model::{run_all, run_ring, RingModel};
use cycle::CHANNEL_CAPACITY;

fn assert_finished(w: &RingModel, n: usize, m: usize) {
    assert_eq!(w.n, n);
    assert_eq!(w.traversals, m);
    assert_eq!(w.queued.len(), n);
    assert_eq!(w.rounds.len(), n);
    for &q in w.queued.iter() {
        assert_eq!(q, 0);
    }
    for &rd in w.rounds.iter() {
        assert_eq!(rd, m);
    }
}

#[test]
fn three_tasks_three_rounds_three_traversals() {
    // One ring of three tasks, three rounds: exactly three tokens traverse
    // the full ring and no token is left queued.
    let w = run_ring(3, CHANNEL_CAPACITY, 3);
    assert_finished(&w, 3, 3);
}

#[test]
fn zero_rounds_no_communication() {
    let w = run_ring(7, CHANNEL_CAPACITY, 0);
    assert_finished(&w, 7, 0);
}

#[test]
fn self_loop_completes_all_rounds() {
    let w = run_ring(1, CHANNEL_CAPACITY, 25);
    assert_finished(&w, 1, 25);
}

#[test]
fn minimal_capacity_still_makes_progress() {
    let w = run_ring(4, 1, 10);
    assert_finished(&w, 4, 10);
}

#[test]
fn five_rings_of_two_tasks_hundred_rounds() {
    // Five independent rings of two tasks each, a hundred rounds apiece:
    // every ring completes every round.
    let ws = run_all(2, 5, CHANNEL_CAPACITY, 100);
    assert_eq!(ws.len(), 5);
    for w in ws.iter() {
        assert_finished(w, 2, 100);
    }
}

#[test]
fn zero_rings_is_an_empty_run() {
    let ws = run_all(3, 0, CHANNEL_CAPACITY, 4);
    assert_eq!(ws.len(), 0);
}
