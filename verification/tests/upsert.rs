use dataflow_core::arrangement::Frontier;
use dataflow_core::upsert::{
    emit, flatten_batches, pair_with_reads, Backend, NoopMap, OrderedMap, UnorderedMap,
    UpsertOperator, UpsertRow, KV,
};
use std::collections::BTreeMap;

fn kv(key: &str, value: &str) -> KV {
    (key.as_bytes().to_vec(), value.as_bytes().to_vec())
}

fn row(key: &str, value: &str, time: u64, diff: i64) -> UpsertRow {
    (key.as_bytes().to_vec(), value.as_bytes().to_vec(), time, diff)
}

fn backends() -> Vec<Backend> {
    vec![
        Backend::InMemoryHashMap(UnorderedMap::new()),
        Backend::InMemoryBTreeMap(OrderedMap::new()),
    ]
}

/// What the rows add up to: for every key and value the sum of the
/// differences, zeros left out.
fn accumulate(rows: &[UpsertRow]) -> BTreeMap<(Vec<u8>, Vec<u8>), i64> {
    let mut sums = BTreeMap::new();
    for (key, value, _, diff) in rows {
        *sums.entry((key.clone(), value.clone())).or_insert(0) += diff;
    }
    sums.retain(|_, diff| *diff != 0);
    sums
}

#[test]
fn upsert_emits_retraction() {
    for backend in backends() {
        let mut op = UpsertOperator::new(backend);
        let first = op.upsert_core(1, vec![kv("K", "V1")]);
        assert_eq!(first, vec![row("K", "V1", 1, 1)]);
        let second = op.upsert_core(2, vec![kv("K", "V2")]);
        assert_eq!(second, vec![row("K", "V1", 2, -1), row("K", "V2", 2, 1)]);
    }
}

#[test]
fn later_records_of_one_batch_win() {
    for backend in backends() {
        let mut op = UpsertOperator::new(backend);
        let rows = op.upsert_core(5, vec![kv("a", "1"), kv("b", "1"), kv("a", "2"), kv("a", "3")]);
        assert_eq!(
            rows,
            vec![
                row("a", "1", 5, 1),
                row("b", "1", 5, 1),
                row("a", "1", 5, -1),
                row("a", "2", 5, 1),
                row("a", "2", 5, -1),
                row("a", "3", 5, 1),
            ]
        );
    }
}

#[test]
fn rows_add_up_to_the_state() {
    let inputs = vec![
        (1, vec![kv("a", "x"), kv("b", "y")]),
        (2, vec![kv("a", "z"), kv("c", "y"), kv("a", "x")]),
        (3, vec![kv("b", "y"), kv("c", "w"), kv("d", "")]),
    ];
    for backend in backends() {
        let mut op = UpsertOperator::new(backend);
        let mut emitted = Vec::new();
        let mut expected: BTreeMap<Vec<u8>, Vec<u8>> = BTreeMap::new();
        for (time, batch) in inputs.clone() {
            for (k, v) in &batch {
                expected.insert(k.clone(), v.clone());
            }
            emitted.extend(op.upsert_core(time, batch));
            // After every batch the rows so far add up to one of every
            // key with its last value, and to nothing else.
            let sums = accumulate(&emitted);
            assert_eq!(sums.len(), expected.len());
            for ((key, value), diff) in &sums {
                assert_eq!(*diff, 1);
                assert_eq!(expected.get(key), Some(value));
            }
        }
        assert_eq!(expected.get("a".as_bytes()), Some(&"x".as_bytes().to_vec()));
    }
}

#[test]
fn the_stores_keep_the_last_value() {
    let mut unordered = UnorderedMap::new();
    let mut ordered = OrderedMap::new();
    for (k, v) in [("b", "1"), ("a", "2"), ("c", "3"), ("a", "4")] {
        let (key, value) = kv(k, v);
        let before_unordered = unordered.insert(key.clone(), value.clone());
        let before_ordered = ordered.insert(key, value);
        assert_eq!(before_unordered, before_ordered);
        if (k, v) == ("a", "4") {
            assert_eq!(before_ordered, Some("2".as_bytes().to_vec()));
        } else {
            assert_eq!(before_ordered, None);
        }
    }
    assert_eq!(ordered.entries, vec![kv("a", "4"), kv("b", "1"), kv("c", "3")]);
    let mut kept = unordered.entries.clone();
    kept.sort();
    assert_eq!(kept, ordered.entries);
}

#[test]
fn a_store_that_keeps_nothing_retracts_every_record() {
    let mut noop = NoopMap {};
    let out = noop.ingest(vec![vec![kv("k", "v")], vec![kv("k", "w")]]);
    assert_eq!(
        out,
        vec![
            ("k".as_bytes().to_vec(), "v".as_bytes().to_vec(), Some("v".as_bytes().to_vec())),
            ("k".as_bytes().to_vec(), "w".as_bytes().to_vec(), Some("w".as_bytes().to_vec())),
        ]
    );
    let mut op = UpsertOperator::new(Backend::Noop(NoopMap {}));
    let rows = op.upsert_core(3, vec![kv("k", "v")]);
    assert_eq!(rows, vec![row("k", "v", 3, -1), row("k", "v", 3, 1)]);
}

#[test]
fn results_become_rows() {
    let rows = emit(
        vec![
            (vec![1], vec![2], None),
            (vec![1], vec![3], Some(vec![2])),
        ],
        9,
    );
    assert_eq!(
        rows,
        vec![(vec![1], vec![2], 9, 1), (vec![1], vec![2], 9, -1), (vec![1], vec![3], 9, 1)]
    );
    assert_eq!(emit(vec![], 9), vec![]);
}

#[test]
fn batches_are_written_one_after_the_other() {
    let flat = flatten_batches(&vec![vec![kv("a", "1"), kv("b", "2")], vec![], vec![kv("a", "3")]]);
    assert_eq!(flat, vec![kv("a", "1"), kv("b", "2"), kv("a", "3")]);
    let mut backend = Backend::InMemoryBTreeMap(OrderedMap::new());
    let out = backend.ingest(vec![vec![kv("a", "1"), kv("b", "2")], vec![kv("a", "3")]]);
    assert_eq!(
        out,
        vec![
            ("a".as_bytes().to_vec(), "1".as_bytes().to_vec(), None),
            ("b".as_bytes().to_vec(), "2".as_bytes().to_vec(), None),
            ("a".as_bytes().to_vec(), "3".as_bytes().to_vec(), Some("1".as_bytes().to_vec())),
        ]
    );
}

#[test]
fn records_wait_until_their_time_is_closed() {
    for backend in backends() {
        let mut op = UpsertOperator::new(backend);
        op.buffer_records(2, vec![kv("K", "V2")]);
        op.buffer_records(1, vec![kv("K", "V0"), kv("K", "V1"), kv("L", "W")]);
        op.buffer_records(5, vec![kv("K", "V5")]);
        // Nothing is closed yet.
        assert_eq!(op.upsert_core_pre_reduce(Frontier::from_elem(1)), vec![]);
        // The times 1 and 2 are closed: of the records of one key at one
        // time the last stays, and the earlier time is written first.
        let mut rows = op.upsert_core_pre_reduce(Frontier::from_elem(3));
        rows.sort_by_key(|(key, _, time, diff)| (*time, key.clone(), *diff));
        assert_eq!(
            rows,
            vec![
                row("K", "V1", 1, 1),
                row("L", "W", 1, 1),
                row("K", "V1", 2, -1),
                row("K", "V2", 2, 1),
            ]
        );
        assert_eq!(op.pending_values.len(), 1);
        let rows = op.upsert_core_pre_reduce(Frontier::empty());
        assert_eq!(rows, vec![row("K", "V2", 5, -1), row("K", "V5", 5, 1)]);
        assert_eq!(op.pending_values.len(), 0);
        assert_eq!(op.upsert_core_pre_reduce(Frontier::empty()), vec![]);
    }
}

#[test]
fn a_store_on_disk_reads_all_keys_before_it_writes() {
    let inputs = vec![kv("a", "1"), kv("b", "2"), kv("a", "3")];
    let before = Some("0".as_bytes().to_vec());
    let reads: Vec<Result<Option<Vec<u8>>, &str>> =
        vec![Ok(before.clone()), Ok(None), Ok(before.clone())];
    assert_eq!(
        pair_with_reads(inputs.clone(), reads),
        Ok(vec![
            ("a".as_bytes().to_vec(), "1".as_bytes().to_vec(), before.clone()),
            ("b".as_bytes().to_vec(), "2".as_bytes().to_vec(), None),
            // Both records of the key are given the value from before the batch.
            ("a".as_bytes().to_vec(), "3".as_bytes().to_vec(), before.clone()),
        ])
    );
    let reads: Vec<Result<Option<Vec<u8>>, &str>> = vec![Ok(None), Err("first"), Err("second")];
    assert_eq!(pair_with_reads(inputs, reads), Err("first"));
    let none: Vec<Result<Option<Vec<u8>>, &str>> = vec![];
    assert_eq!(pair_with_reads(vec![], none), Ok(vec![]));
}
