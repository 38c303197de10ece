use dataflow_core::arrangement::{checked_weight, Batch, Cursor, Frontier, Trace};
use dataflow_core::consolidation::Update;
use dataflow_core::join::{
    apply_result, clone_batch, mz_join_core, Deferred, JoinError, JoinOperator,
};

const A: u64 = 1;
const B: u64 = 2;
const X: u64 = 10;
const Y: u64 = 20;
const Z: u64 = 30;

fn fact(key: u64, val: u64, time: u64, diff: i64) -> Update {
    ((key, val, 0), time, diff)
}

fn batch(facts: Vec<Update>, lower: u64, upper: u64) -> Batch {
    Batch { facts, lower: Frontier::from_elem(lower), upper: Frontier::from_elem(upper) }
}

fn never(_work: usize) -> bool {
    false
}

fn deferred(side1: Vec<Update>, side2: Vec<Update>, capability: u64) -> Deferred {
    let storage1 = batch(side1, 0, 100);
    let storage2 = batch(side2, 0, 100);
    let cursor1 = storage1.cursor();
    let cursor2 = storage2.cursor();
    Deferred::new(cursor1, storage1, cursor2, storage2, capability)
}

fn run(mut work: Deferred) -> Vec<Update> {
    let mut output = Vec::new();
    while work.work_remains() {
        let mut fuel = 0;
        work.work(&mut output, &never, &mut fuel).unwrap();
    }
    output.sort();
    output
}

#[test]
fn two_stream_inner_join_single_key() {
    let out = run(deferred(vec![fact(A, X, 1, 1)], vec![fact(A, Y, 1, 1)], 0));
    assert_eq!(out, vec![((A, X, Y), 1, 1)]);
}

#[test]
fn join_with_retraction() {
    let out = run(deferred(
        vec![fact(A, X, 1, 1), fact(A, X, 2, -1)],
        vec![fact(A, Y, 1, 1)],
        0,
    ));
    assert_eq!(out, vec![((A, X, Y), 1, 1), ((A, X, Y), 2, -1)]);
}

#[test]
fn join_through_the_operator() {
    let mut trace1 = Trace::new();
    let mut trace2 = Trace::new();
    let mut op = mz_join_core(&trace1, &trace2, 0).unwrap();
    assert!(!op.work_remains());
    let b1 = batch(vec![fact(A, X, 1, 1), fact(A, X, 2, -1)], 0, 3);
    let b2 = batch(vec![fact(A, Y, 1, 1)], 0, 3);
    trace1.insert(clone_batch(&b1));
    trace2.insert(clone_batch(&b2));
    let mut output = Vec::new();
    let again = op
        .activate(
            &mut trace1,
            &mut trace2,
            &vec![(1, b1)],
            &vec![(1, b2)],
            Frontier::from_elem(3),
            Frontier::from_elem(3),
            false,
            &never,
            &mut output,
        )
        .unwrap();
    assert!(!again);
    output.sort();
    assert_eq!(output, vec![((A, X, Y), 1, 1), ((A, X, Y), 2, -1)]);
    assert_eq!(op.acknowledged1, Frontier::from_elem(3));
    assert_eq!(op.acknowledged2, Frontier::from_elem(3));
    assert_eq!(trace1.get_physical_compaction(), Frontier::from_elem(3));
    assert_eq!(trace1.get_logical_compaction(), Frontier::from_elem(3));
}

#[test]
fn every_pair_is_joined_once_across_activations() {
    let mut trace1 = Trace::new();
    let mut trace2 = Trace::new();
    let mut op = mz_join_core(&trace1, &trace2, 0).unwrap();
    let mut output = Vec::new();
    // First the first input brings a fact, then the second, then both.
    let b1 = batch(vec![fact(A, X, 1, 1)], 0, 2);
    trace1.insert(clone_batch(&b1));
    trace2.insert(batch(vec![], 0, 2));
    op.activate(
        &mut trace1,
        &mut trace2,
        &vec![(1, b1)],
        &vec![],
        Frontier::from_elem(2),
        Frontier::from_elem(2),
        false,
        &never,
        &mut output,
    )
    .unwrap();
    assert_eq!(output, vec![]);
    assert_eq!(op.acknowledged2, Frontier::from_elem(2));
    let b2 = batch(vec![fact(A, Y, 2, 1)], 2, 3);
    trace1.insert(batch(vec![], 2, 3));
    trace2.insert(clone_batch(&b2));
    op.activate(
        &mut trace1,
        &mut trace2,
        &vec![],
        &vec![(2, b2)],
        Frontier::from_elem(3),
        Frontier::from_elem(3),
        false,
        &never,
        &mut output,
    )
    .unwrap();
    assert_eq!(output, vec![((A, X, Y), 2, 1)]);
    let c1 = batch(vec![fact(A, Z, 3, 1), fact(B, X, 3, 1)], 3, 4);
    let c2 = batch(vec![fact(A, Z, 3, 2)], 3, 4);
    trace1.insert(clone_batch(&c1));
    trace2.insert(clone_batch(&c2));
    let mut later = Vec::new();
    op.activate(
        &mut trace1,
        &mut trace2,
        &vec![(3, c1)],
        &vec![(3, c2)],
        Frontier::from_elem(4),
        Frontier::from_elem(4),
        false,
        &never,
        &mut later,
    )
    .unwrap();
    later.sort();
    assert_eq!(
        later,
        vec![((A, X, Z), 3, 2), ((A, Z, Y), 3, 1), ((A, Z, Z), 3, 2)]
    );
}

#[test]
fn join_is_the_same_with_the_sides_swapped() {
    let side1 = vec![fact(A, X, 1, 2), fact(A, Y, 3, -1), fact(B, X, 1, 1)];
    let side2 = vec![fact(A, Z, 2, 3), fact(B, Y, 1, 1), fact(B, Z, 4, -2)];
    let forth = run(deferred(side1.clone(), side2.clone(), 0));
    let back = run(deferred(side2, side1, 0));
    let mut swapped: Vec<Update> =
        back.into_iter().map(|((k, v2, v1), t, d)| ((k, v1, v2), t, d)).collect();
    swapped.sort();
    assert_eq!(forth, swapped);
    assert_eq!(
        forth,
        vec![
            ((A, X, Z), 2, 6),
            ((A, Y, Z), 3, -3),
            ((B, X, Y), 1, 1),
            ((B, X, Z), 4, -2),
        ]
    );
}

#[test]
fn outputs_are_not_before_the_capability() {
    let out = run(deferred(vec![fact(A, X, 1, 1), fact(A, Y, 9, 1)], vec![fact(A, Z, 2, 1)], 5));
    assert_eq!(out, vec![((A, X, Z), 5, 1), ((A, Y, Z), 9, 1)]);
    for (_, time, _) in out {
        assert!(time >= 5);
    }
}

#[test]
fn outputs_that_cancel_are_consolidated() {
    // Both facts of the first side meet the capability's time, where their
    // differences cancel.
    let out = run(deferred(vec![fact(A, X, 1, 1), fact(A, X, 2, -1)], vec![fact(A, Y, 1, 1)], 7));
    assert_eq!(out, vec![]);
    let out = run(deferred(vec![fact(A, X, 1, 1), fact(A, X, 2, 4)], vec![fact(A, Y, 1, 1)], 7));
    assert_eq!(out, vec![((A, X, Y), 7, 5)]);
}

#[test]
fn products_that_overflow_are_an_error() {
    let mut work = deferred(vec![fact(A, X, 1, i64::MAX)], vec![fact(A, Y, 1, 2)], 0);
    let mut output = Vec::new();
    let mut fuel = 0;
    assert_eq!(work.work(&mut output, &never, &mut fuel), Err(JoinError::DiffOverflow));
}

#[test]
fn join_yielding() {
    let n: u64 = 200;
    let side1: Vec<Update> = (0..n).map(|v| fact(A, v, 0, 1)).collect();
    let side2: Vec<Update> = (0..n).map(|v| fact(A, v, 0, 1)).collect();
    let mut work = deferred(side1, side2, 0);
    let yield_fn = |work: usize| work >= 1000;
    let mut output = Vec::new();
    let mut activations = 0;
    let mut midway = false;
    while work.work_remains() {
        let before = output.len();
        let mut fuel = 0;
        work.work(&mut output, &yield_fn, &mut fuel).unwrap();
        let emitted = output.len() - before;
        // A pause is asked for once a thousand outputs are there: one pair
        // of values gives one output here.
        assert!(emitted <= 1000 + 1);
        assert!(work.check());
        midway |= work.work_remains() && work.cursor2.val_pos != work.cursor2.key_pos;
        activations += 1;
    }
    // A pause leaves a value of the first side half joined, and the next
    // activation takes it up.
    assert!(midway);
    assert!(activations >= (n * n / 1200) as usize);
    assert_eq!(output.len(), (n * n) as usize);
    output.sort();
    output.dedup();
    assert_eq!(output.len(), (n * n) as usize);
}

#[test]
fn the_operator_asks_to_be_activated_again() {
    let n: u64 = 100;
    let mut trace1 = Trace::new();
    let mut trace2 = Trace::new();
    let b1 = batch((0..n).map(|v| fact(A, v, 0, 1)).collect(), 0, 1);
    let b2 = batch((0..n).map(|v| fact(A, v, 0, 1)).collect(), 0, 1);
    trace1.insert(clone_batch(&b1));
    trace2.insert(clone_batch(&b2));
    // What the traces hold when the join is made is joined as well.
    let mut op = mz_join_core(&trace1, &trace2, 0).unwrap();
    assert!(op.work_remains());
    let yield_fn = |work: usize| work >= 1000;
    let mut output = Vec::new();
    let mut activations = 0;
    loop {
        let again = op
            .activate(
                &mut trace1,
                &mut trace2,
                &vec![],
                &vec![],
                Frontier::from_elem(1),
                Frontier::from_elem(1),
                false,
                &yield_fn,
                &mut output,
            )
            .unwrap();
        activations += 1;
        if !again {
            break;
        }
    }
    assert!(activations > 1);
    assert_eq!(output.len(), (n * n) as usize);
}

#[test]
fn acknowledged_frontiers_never_go_back() {
    let mut trace1 = Trace::new();
    let mut trace2 = Trace::new();
    let mut op = mz_join_core(&trace1, &trace2, 0).unwrap();
    let mut output = Vec::new();
    let mut last = (op.acknowledged1, op.acknowledged2);
    for step in 0..5u64 {
        let b1 = batch(vec![fact(A, step, step, 1)], step, step + 1);
        trace1.insert(clone_batch(&b1));
        trace2.insert(batch(vec![], step, step + 1));
        // The same batch comes again with every activation: it is passed
        // over once it was accepted.
        op.activate(
            &mut trace1,
            &mut trace2,
            &vec![(step, clone_batch(&b1)), (step, b1)],
            &vec![],
            Frontier::from_elem(step + 1),
            Frontier::from_elem(step),
            false,
            &never,
            &mut output,
        )
        .unwrap();
        assert!(last.0.less_equal(&op.acknowledged1));
        assert!(last.1.less_equal(&op.acknowledged2));
        assert_eq!(op.acknowledged1, Frontier::from_elem(step + 1));
        last = (op.acknowledged1, op.acknowledged2);
    }
}

#[test]
fn shutdown_drops_everything() {
    let mut trace1 = Trace::new();
    let mut trace2 = Trace::new();
    let b1 = batch(vec![fact(A, X, 0, 1)], 0, 1);
    let b2 = batch(vec![fact(A, Y, 0, 1)], 0, 1);
    trace1.insert(clone_batch(&b1));
    trace2.insert(clone_batch(&b2));
    let mut op = mz_join_core(&trace1, &trace2, 0).unwrap();
    assert!(op.work_remains());
    let mut output = Vec::new();
    let again = op
        .activate(
            &mut trace1,
            &mut trace2,
            &vec![(0, b1)],
            &vec![(0, b2)],
            Frontier::from_elem(1),
            Frontier::from_elem(1),
            true,
            &never,
            &mut output,
        )
        .unwrap();
    assert!(!again);
    assert_eq!(output, vec![]);
    assert!(!op.work_remains());
    assert!(!op.trace1_held);
    assert!(!op.trace2_held);
    // Nothing comes of later activations either.
    let again = op
        .activate(
            &mut trace1,
            &mut trace2,
            &vec![],
            &vec![],
            Frontier::from_elem(1),
            Frontier::from_elem(1),
            true,
            &never,
            &mut output,
        )
        .unwrap();
    assert!(!again);
    assert_eq!(output, vec![]);
}

#[test]
fn a_trace_is_let_go_when_the_other_input_ends() {
    let mut trace1 = Trace::new();
    let mut trace2 = Trace::new();
    let mut op: JoinOperator = mz_join_core(&trace1, &trace2, 0).unwrap();
    let mut output = Vec::new();
    op.activate(
        &mut trace1,
        &mut trace2,
        &vec![],
        &vec![],
        Frontier::from_elem(1),
        Frontier::empty(),
        false,
        &never,
        &mut output,
    )
    .unwrap();
    assert!(!op.trace1_held);
    assert!(op.trace2_held);
    // A batch of the second input can no longer be joined.
    let b2 = batch(vec![fact(A, Y, 0, 1)], 0, 1);
    trace2.insert(clone_batch(&b2));
    let r = op.activate(
        &mut trace1,
        &mut trace2,
        &vec![],
        &vec![(0, b2)],
        Frontier::from_elem(1),
        Frontier::empty(),
        false,
        &never,
        &mut output,
    );
    assert_eq!(r, Err(JoinError::CursorUnavailable));
}

#[test]
fn cursors_walk_keys_and_values() {
    let storage = batch(
        vec![fact(A, X, 1, 1), fact(A, X, 2, 1), fact(A, Y, 1, 1), fact(B, Z, 1, 1)],
        0,
        3,
    );
    let mut cursor: Cursor = storage.cursor();
    assert!(cursor.key_valid(&storage));
    assert_eq!(cursor.key(&storage), A);
    assert_eq!(cursor.get_val(&storage), Some(X));
    assert_eq!(cursor.times_end(&storage), 2);
    cursor.step_val(&storage);
    assert_eq!(cursor.get_val(&storage), Some(Y));
    cursor.step_val(&storage);
    assert_eq!(cursor.get_val(&storage), None);
    cursor.rewind_vals(&storage);
    assert_eq!(cursor.get_val(&storage), Some(X));
    cursor.step_key(&storage);
    assert_eq!(cursor.key(&storage), B);
    assert_eq!(cursor.get_val(&storage), Some(Z));
    cursor.step_key(&storage);
    assert!(!cursor.key_valid(&storage));
    let mut cursor = storage.cursor();
    cursor.seek_key(&storage, B);
    assert_eq!(cursor.key(&storage), B);
    cursor.seek_key(&storage, 99);
    assert!(!cursor.key_valid(&storage));
    assert_eq!(storage.len(), 4);
    assert!(!storage.is_empty());
}

#[test]
fn traces_hand_out_what_they_hold() {
    let mut trace = Trace::new();
    assert_eq!(trace.read_upper(), Frontier::minimum());
    trace.insert(batch(vec![fact(A, X, 0, 1), fact(B, Y, 1, 1)], 0, 2));
    trace.insert(batch(vec![fact(A, X, 2, -1), fact(B, Y, 2, 3)], 2, 4));
    assert_eq!(trace.read_upper(), Frontier::from_elem(4));
    let first = trace.cursor_through(Frontier::from_elem(2)).unwrap();
    assert_eq!(first.facts, vec![fact(A, X, 0, 1), fact(B, Y, 1, 1)]);
    let all = trace.cursor_through(Frontier::from_elem(4)).unwrap();
    assert_eq!(
        all.facts,
        vec![fact(A, X, 0, 1), fact(A, X, 2, -1), fact(B, Y, 1, 1), fact(B, Y, 2, 3)]
    );
    trace.set_physical_compaction(Frontier::from_elem(4));
    assert!(trace.cursor_through(Frontier::from_elem(2)).is_none());
    assert!(trace.cursor_through(Frontier::from_elem(4)).is_some());
    trace.set_logical_compaction(Frontier::from_elem(3));
    assert_eq!(trace.get_logical_compaction(), Frontier::from_elem(3));
    let mut f = Frontier::from_elem(1);
    trace.advance_upper(&mut f);
    assert_eq!(f, Frontier::from_elem(1));
}

#[test]
fn frontiers_are_ordered() {
    let early = Frontier::from_elem(1);
    let late = Frontier::from_elem(2);
    let never = Frontier::empty();
    assert!(early.less_equal(&late));
    assert!(!late.less_equal(&early));
    assert!(late.less_equal(&never));
    assert!(!never.less_equal(&late));
    assert!(never.is_empty());
    assert!(!early.is_empty());
    assert!(early.less_equal_time(1));
    assert!(!late.less_equal_time(1));
    assert!(!never.less_equal_time(u64::MAX));
    assert_eq!(early.join(&late), late);
    assert_eq!(never.join(&late), never);
    assert_eq!(Frontier::minimum(), Frontier::from_elem(0));
}

#[test]
fn weights_are_added_up_with_care() {
    assert_eq!(checked_weight(&vec![fact(A, X, 0, 3), fact(A, X, 1, -4)]), Some(7));
    assert_eq!(checked_weight(&vec![]), Some(0));
    assert_eq!(checked_weight(&vec![fact(A, X, 0, i64::MAX), fact(A, X, 1, 1)]), None);
    assert_eq!(checked_weight(&vec![fact(A, X, 0, i64::MIN)]), None);
}

#[test]
fn what_is_in_order_is_told_from_what_is_not() {
    let good = batch(vec![fact(A, X, 0, 1), fact(B, Y, 1, 1)], 0, 2);
    assert!(good.check());
    assert!(!batch(vec![fact(B, Y, 1, 1), fact(A, X, 0, 1)], 0, 2).check());
    assert!(!batch(vec![fact(A, X, 5, 1)], 0, 2).check());
    assert!(!batch(vec![], 3, 2).check());
    let mut trace = Trace::new();
    assert!(trace.check());
    assert!(trace.is_compaction_ordered());
    trace.insert(good);
    assert!(trace.check());
    assert!(trace.is_compaction_ordered());
    let mut torn = trace.clone();
    torn.batches.push(batch(vec![], 5, 6));
    assert!(!torn.check());
    let join = mz_join_core(&trace, &Trace::new(), 0).unwrap();
    assert!(join.check());
}

#[test]
fn compactions_stay_in_order_within_the_last_batch() {
    let mut trace = Trace::new();
    trace.insert(batch(vec![fact(A, X, 0, 1)], 0, 4));
    trace.set_logical_compaction(Frontier::from_elem(3));
    trace.set_physical_compaction(Frontier::from_elem(2));
    assert!(trace.is_compaction_ordered());
    // Merging beyond what times are advanced to breaks the order.
    trace.set_physical_compaction(Frontier::from_elem(4));
    assert!(!trace.is_compaction_ordered());
    trace.set_logical_compaction(Frontier::from_elem(4));
    assert!(trace.is_compaction_ordered());
    // So does advancing times beyond the last batch.
    trace.set_logical_compaction(Frontier::from_elem(5));
    assert!(!trace.is_compaction_ordered());
}

#[test]
fn a_result_is_asked_for_every_pair() {
    let pairs = vec![((A, X, Y), 1, 1), ((A, X, Z), 2, -1), ((B, Y, Z), 3, 2)];
    // One row for a pair, none, or several.
    let result = |key: u64, val1: u64, val2: u64| {
        if key == A && val2 == Y {
            vec![(val1, val2)]
        } else if key == A {
            vec![]
        } else {
            vec![(val1, val2), (val2, val1)]
        }
    };
    let mut output = vec![((0, 0), 0, 1)];
    apply_result(&pairs, &result, &mut output);
    assert_eq!(output, vec![((0, 0), 0, 1), ((X, Y), 1, 1), ((Y, Z), 3, 2), ((Z, Y), 3, 2)]);
}

#[test]
fn the_join_with_a_result_of_both_values() {
    let mut pairs = run(deferred(vec![fact(A, X, 1, 1)], vec![fact(A, Y, 1, 1)], 0));
    pairs.sort();
    let mut output = Vec::new();
    apply_result(&pairs, &|_key: u64, val1: u64, val2: u64| vec![(val1, val2)], &mut output);
    assert_eq!(output, vec![((X, Y), 1, 1)]);
}
