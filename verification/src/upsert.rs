//! Upsert: a stream of keys with values turned into the changes of a table.
//!
//! A record says that its key now has its value. Against a store of the
//! values that the keys had, every record becomes an addition of the new
//! row and, where the key had a value, a retraction of the old row. So the
//! output, added up, is at every time the table with the last value of
//! every key.

use crate::arrangement::Frontier;
use crate::datum::clone_bytes;
use crate::order::{bytes_equal, bytes_less, lemma_lex_transitive, lemma_lex_trichotomy, lex_less};
use vstd::prelude::*;

verus! {

/// A key with a value, as bytes.
pub type KV = (Vec<u8>, Vec<u8>);

/// A key with its new value and with the value that it had before, if it
/// had one.
pub type KVAndPrevious = (Vec<u8>, Vec<u8>, Option<Vec<u8>>);

/// A row of the output: a key, a value, a time, and whether the row is
/// added (`+1`) or retracted (`-1`).
pub type UpsertRow = (Vec<u8>, Vec<u8>, u64, i64);

/// What a key with a value holds.
pub open spec fn kv_view(kv: KV) -> (Seq<u8>, Seq<u8>) {
    (kv.0@, kv.1@)
}

/// What keys with values hold, in order.
pub open spec fn kv_views(s: Seq<KV>) -> Seq<(Seq<u8>, Seq<u8>)> {
    s.map_values(|kv: KV| kv_view(kv))
}

/// What a result of a store holds.
pub open spec fn result_view(r: KVAndPrevious) -> (Seq<u8>, Seq<u8>, Option<Seq<u8>>) {
    (
        r.0@,
        r.1@,
        match r.2 {
            Some(p) => Some(p@),
            None => None,
        },
    )
}

/// What the results of a store hold, in order.
pub open spec fn result_views(s: Seq<KVAndPrevious>) -> Seq<(Seq<u8>, Seq<u8>, Option<Seq<u8>>)> {
    s.map_values(|r: KVAndPrevious| result_view(r))
}

/// What a row of the output holds.
pub open spec fn row_view(r: UpsertRow) -> (Seq<u8>, Seq<u8>, u64, i64) {
    (r.0@, r.1@, r.2, r.3)
}

/// What rows of the output hold, in order.
pub open spec fn row_views(s: Seq<UpsertRow>) -> Seq<(Seq<u8>, Seq<u8>, u64, i64)> {
    s.map_values(|r: UpsertRow| row_view(r))
}

/// The records of all of `batches`, one batch after the other.
pub open spec fn flatten(batches: Seq<Vec<KV>>) -> Seq<(Seq<u8>, Seq<u8>)>
    decreases batches.len(),
{
    if batches.len() == 0 {
        Seq::<(Seq<u8>, Seq<u8>)>::empty()
    } else {
        flatten(batches.drop_last()) + kv_views(batches.last()@)
    }
}

/// The store after the records `inputs` were written to `m` in order: every
/// key has the value of its last record.
pub open spec fn ingest_state(
    m: Map<Seq<u8>, Seq<u8>>,
    inputs: Seq<(Seq<u8>, Seq<u8>)>,
) -> Map<Seq<u8>, Seq<u8>>
    decreases inputs.len(),
{
    if inputs.len() == 0 {
        m
    } else {
        ingest_state(m, inputs.drop_last()).insert(inputs.last().0, inputs.last().1)
    }
}

/// The value that the key of the `i`-th record had when that record was
/// written, the records before it having been written to `m`.
pub open spec fn previous(
    m: Map<Seq<u8>, Seq<u8>>,
    inputs: Seq<(Seq<u8>, Seq<u8>)>,
    i: int,
) -> Option<Seq<u8>> {
    let before = ingest_state(m, inputs.take(i));
    if before.contains_key(inputs[i].0) {
        Some(before[inputs[i].0])
    } else {
        None
    }
}

/// What writing the records `inputs` to `m` gives back: every record with
/// the value that its key had before.
pub open spec fn ingest_output(
    m: Map<Seq<u8>, Seq<u8>>,
    inputs: Seq<(Seq<u8>, Seq<u8>)>,
) -> Seq<(Seq<u8>, Seq<u8>, Option<Seq<u8>>)> {
    Seq::new(inputs.len(), |i: int| (inputs[i].0, inputs[i].1, previous(m, inputs, i)))
}

/// The rows that the results `results` become at `time`: for each the
/// retraction of the old row, if there was one, and the addition of the new
/// row.
pub open spec fn emitted(
    results: Seq<(Seq<u8>, Seq<u8>, Option<Seq<u8>>)>,
    time: u64,
) -> Seq<(Seq<u8>, Seq<u8>, u64, i64)>
    decreases results.len(),
{
    if results.len() == 0 {
        Seq::<(Seq<u8>, Seq<u8>, u64, i64)>::empty()
    } else {
        let r = results.last();
        emitted(results.drop_last(), time) + match r.2 {
            Some(p) => seq![(r.0, p, time, -1i64), (r.0, r.1, time, 1i64)],
            None => seq![(r.0, r.1, time, 1i64)],
        }
    }
}

/// How often the row of `key` with `value` is there, all in all: the
/// additions less the retractions.
pub open spec fn row_count(
    rows: Seq<(Seq<u8>, Seq<u8>, u64, i64)>,
    key: Seq<u8>,
    value: Seq<u8>,
) -> int
    decreases rows.len(),
{
    if rows.len() == 0 {
        0
    } else {
        row_count(rows.drop_last(), key, value) + if rows.last().0 == key && rows.last().1
            == value {
            rows.last().3 as int
        } else {
            0
        }
    }
}

/// How often rows of `key` are there, all in all.
pub open spec fn key_count(rows: Seq<(Seq<u8>, Seq<u8>, u64, i64)>, key: Seq<u8>) -> int
    decreases rows.len(),
{
    if rows.len() == 0 {
        0
    } else {
        key_count(rows.drop_last(), key) + if rows.last().0 == key {
            rows.last().3 as int
        } else {
            0
        }
    }
}

/// One where `m` has `value` for `key`, and nothing otherwise.
pub open spec fn holds(m: Map<Seq<u8>, Seq<u8>>, key: Seq<u8>, value: Seq<u8>) -> int {
    if m.contains_key(key) && m[key] == value {
        1
    } else {
        0
    }
}

/// One where `m` has a value for `key`, and nothing otherwise.
pub open spec fn has(m: Map<Seq<u8>, Seq<u8>>, key: Seq<u8>) -> int {
    if m.contains_key(key) {
        1
    } else {
        0
    }
}

pub proof fn lemma_row_count_concat(
    a: Seq<(Seq<u8>, Seq<u8>, u64, i64)>,
    b: Seq<(Seq<u8>, Seq<u8>, u64, i64)>,
    key: Seq<u8>,
    value: Seq<u8>,
)
    ensures
        row_count(a + b, key, value) == row_count(a, key, value) + row_count(b, key, value),
        key_count(a + b, key) == key_count(a, key) + key_count(b, key),
    decreases b.len(),
{
    if b.len() == 0 {
        assert(a + b =~= a);
    } else {
        assert((a + b).drop_last() =~= a + b.drop_last());
        assert((a + b).last() == b.last());
        lemma_row_count_concat(a, b.drop_last(), key, value);
    }
}

/// The results of a prefix of the records are a prefix of the results.
pub proof fn lemma_ingest_output_take(
    m: Map<Seq<u8>, Seq<u8>>,
    inputs: Seq<(Seq<u8>, Seq<u8>)>,
    n: int,
)
    requires
        0 <= n <= inputs.len(),
    ensures
        ingest_output(m, inputs.take(n)) == ingest_output(m, inputs).take(n),
{
    assert forall|i: int| 0 <= i < n implies previous(m, inputs.take(n), i) == previous(
        m,
        inputs,
        i,
    ) by {
        assert(inputs.take(n).take(i) =~= inputs.take(i));
    }
    assert(ingest_output(m, inputs.take(n)) =~= ingest_output(m, inputs).take(n));
}

/// What is emitted for records adds up to the change of the store: the row
/// of a key with a value is there once more where the key has the value
/// now and had not before, once less where it had and has not, and as often
/// as before otherwise.
pub proof fn lemma_upsert_rows(
    m: Map<Seq<u8>, Seq<u8>>,
    inputs: Seq<(Seq<u8>, Seq<u8>)>,
    time: u64,
    key: Seq<u8>,
    value: Seq<u8>,
)
    ensures
        row_count(emitted(ingest_output(m, inputs), time), key, value) == holds(
            ingest_state(m, inputs),
            key,
            value,
        ) - holds(m, key, value),
        key_count(emitted(ingest_output(m, inputs), time), key) == has(
            ingest_state(m, inputs),
            key,
        ) - has(m, key),
    decreases inputs.len(),
{
    if inputs.len() > 0 {
        let front = inputs.drop_last();
        lemma_upsert_rows(m, front, time, key, value);
        lemma_ingest_output_take(m, inputs, inputs.len() - 1);
        let out = ingest_output(m, inputs);
        assert(inputs.take(inputs.len() - 1) =~= front);
        assert(out.drop_last() =~= ingest_output(m, front));
        let r = out.last();
        assert(r.2 == previous(m, inputs, inputs.len() - 1));
        let tail = match r.2 {
            Some(p) => seq![(r.0, p, time, -1i64), (r.0, r.1, time, 1i64)],
            None => seq![(r.0, r.1, time, 1i64)],
        };
        lemma_row_count_concat(emitted(out.drop_last(), time), tail, key, value);
        reveal_with_fuel(row_count, 3);
        reveal_with_fuel(key_count, 3);
        match r.2 {
            Some(p) => {
                assert(tail.drop_last() =~= seq![(r.0, p, time, -1i64)]);
                assert(tail.drop_last().drop_last() =~= Seq::<
                    (Seq<u8>, Seq<u8>, u64, i64),
                >::empty());
            },
            None => {
                assert(tail.drop_last() =~= Seq::<(Seq<u8>, Seq<u8>, u64, i64)>::empty());
            },
        }
    } else {
        assert(ingest_output(m, inputs) =~= Seq::<(Seq<u8>, Seq<u8>, Option<Seq<u8>>)>::empty());
    }
}

/// From an empty store on, no key is ever there more than once, and each
/// that has a value is there exactly once, with that value.
pub proof fn lemma_upsert_at_most_one(
    inputs: Seq<(Seq<u8>, Seq<u8>)>,
    time: u64,
    key: Seq<u8>,
    value: Seq<u8>,
)
    ensures
        0 <= key_count(
            emitted(ingest_output(Map::<Seq<u8>, Seq<u8>>::empty(), inputs), time),
            key,
        ) <= 1,
        row_count(
            emitted(ingest_output(Map::<Seq<u8>, Seq<u8>>::empty(), inputs), time),
            key,
            value,
        ) == holds(ingest_state(Map::<Seq<u8>, Seq<u8>>::empty(), inputs), key, value),
{
    lemma_upsert_rows(Map::<Seq<u8>, Seq<u8>>::empty(), inputs, time, key, value);
}

/// What the store `m` holds after the calls `calls`, each with its records
/// and its time, one after the other.
pub open spec fn run_state(
    m: Map<Seq<u8>, Seq<u8>>,
    calls: Seq<(Seq<(Seq<u8>, Seq<u8>)>, u64)>,
) -> Map<Seq<u8>, Seq<u8>>
    decreases calls.len(),
{
    if calls.len() == 0 {
        m
    } else {
        ingest_state(run_state(m, calls.drop_last()), calls.last().0)
    }
}

/// The rows that the calls `calls` emit from the store `m` on, one call
/// after the other.
pub open spec fn run_rows(
    m: Map<Seq<u8>, Seq<u8>>,
    calls: Seq<(Seq<(Seq<u8>, Seq<u8>)>, u64)>,
) -> Seq<(Seq<u8>, Seq<u8>, u64, i64)>
    decreases calls.len(),
{
    if calls.len() == 0 {
        Seq::<(Seq<u8>, Seq<u8>, u64, i64)>::empty()
    } else {
        run_rows(m, calls.drop_last()) + emitted(
            ingest_output(run_state(m, calls.drop_last()), calls.last().0),
            calls.last().1,
        )
    }
}

/// Over any number of calls, from an empty store on: the rows that were
/// emitted until now hold every key at most once, and they hold exactly
/// the keys with the values that the store has now. For calls whose times
/// do not go back, the rows up to a time are the rows of the calls up to
/// it.
pub proof fn lemma_upsert_runs(
    calls: Seq<(Seq<(Seq<u8>, Seq<u8>)>, u64)>,
    key: Seq<u8>,
    value: Seq<u8>,
)
    ensures
        key_count(run_rows(Map::<Seq<u8>, Seq<u8>>::empty(), calls), key) == has(
            run_state(Map::<Seq<u8>, Seq<u8>>::empty(), calls),
            key,
        ),
        0 <= key_count(run_rows(Map::<Seq<u8>, Seq<u8>>::empty(), calls), key) <= 1,
        row_count(run_rows(Map::<Seq<u8>, Seq<u8>>::empty(), calls), key, value) == holds(
            run_state(Map::<Seq<u8>, Seq<u8>>::empty(), calls),
            key,
            value,
        ),
    decreases calls.len(),
{
    let empty = Map::<Seq<u8>, Seq<u8>>::empty();
    if calls.len() > 0 {
        let front = calls.drop_last();
        lemma_upsert_runs(front, key, value);
        let before = run_state(empty, front);
        lemma_upsert_rows(before, calls.last().0, calls.last().1, key, value);
        lemma_row_count_concat(
            run_rows(empty, front),
            emitted(ingest_output(before, calls.last().0), calls.last().1),
            key,
            value,
        );
    }
}

/// The rows that the results `results` of a store become at `time`.
pub fn emit(results: Vec<KVAndPrevious>, time: u64) -> (rows: Vec<UpsertRow>)
    ensures
        row_views(rows@) == emitted(result_views(results@), time),
{
    let mut rows: Vec<UpsertRow> = Vec::new();
    let ghost all = result_views(results@);
    let mut i: usize = 0;
    proof {
        assert(all.take(0) =~= Seq::<(Seq<u8>, Seq<u8>, Option<Seq<u8>>)>::empty());
        assert(row_views(rows@) =~= emitted(all.take(0), time));
    }
    while i < results.len()
        invariant
            i <= results.len(),
            all == result_views(results@),
            row_views(rows@) == emitted(all.take(i as int), time),
        decreases results.len() - i,
    {
        let key = clone_bytes(&results[i].0);
        let value = clone_bytes(&results[i].1);
        let ghost before = rows@;
        proof {
            assert(all.take(i + 1).drop_last() =~= all.take(i as int));
            assert(all.take(i + 1).last() == result_view(results@[i as int]));
        }
        match &results[i].2 {
            Some(previous_value) => {
                // The old row is taken away. This costs a copy of the key.
                let old = clone_bytes(previous_value);
                let again = clone_bytes(&key);
                rows.push((again, old, time, -1));
                rows.push((key, value, time, 1));
                assert(row_views(rows@) =~= row_views(before) + seq![
                    (results@[i as int].0@, previous_value@, time, -1i64),
                    (results@[i as int].0@, results@[i as int].1@, time, 1i64),
                ]);
            },
            None => {
                rows.push((key, value, time, 1));
                assert(row_views(rows@) =~= row_views(before) + seq![
                    (results@[i as int].0@, results@[i as int].1@, time, 1i64),
                ]);
            },
        }
        i = i + 1;
    }
    assert(all.take(results@.len() as int) =~= all);
    rows
}

/// The records of all of `batches`, one batch after the other.
pub fn flatten_batches(batches: &Vec<Vec<KV>>) -> (inputs: Vec<KV>)
    ensures
        kv_views(inputs@) == flatten(batches@),
{
    let mut inputs: Vec<KV> = Vec::new();
    let mut b: usize = 0;
    proof {
        assert(batches@.take(0) =~= Seq::<Vec<KV>>::empty());
        assert(kv_views(inputs@) =~= flatten(batches@.take(0)));
    }
    while b < batches.len()
        invariant
            b <= batches.len(),
            kv_views(inputs@) == flatten(batches@.take(b as int)),
        decreases batches.len() - b,
    {
        let batch = &batches[b];
        let ghost before = inputs@;
        let mut e: usize = 0;
        proof {
            assert(batches@.take(b + 1).drop_last() =~= batches@.take(b as int));
            assert(batches@.take(b + 1).last() == batches@[b as int]);
            assert(kv_views(inputs@) =~= kv_views(before) + kv_views(batch@).take(0));
        }
        while e < batch.len()
            invariant
                e <= batch.len(),
                kv_views(inputs@) == kv_views(before) + kv_views(batch@).take(e as int),
            decreases batch.len() - e,
        {
            let key = clone_bytes(&batch[e].0);
            let value = clone_bytes(&batch[e].1);
            let ghost so_far = inputs@;
            inputs.push((key, value));
            assert(kv_views(inputs@) =~= kv_views(so_far).push((batch@[e as int].0@, batch@[e as int].1@)));
            assert(kv_views(batch@).take(e + 1) =~= kv_views(batch@).take(e as int).push(
                (batch@[e as int].0@, batch@[e as int].1@),
            ));
            assert(kv_views(inputs@) =~= kv_views(before) + kv_views(batch@).take(e + 1));
            e = e + 1;
        }
        assert(kv_views(batch@).take(batch@.len() as int) =~= kv_views(batch@));
        b = b + 1;
    }
    assert(batches@.take(batches@.len() as int) =~= batches@);
    inputs
}

/// Every record of `inputs` with its own value as the value before.
pub open spec fn echoes(inputs: Seq<(Seq<u8>, Seq<u8>)>) -> Seq<
    (Seq<u8>, Seq<u8>, Option<Seq<u8>>),
> {
    inputs.map_values(|kv: (Seq<u8>, Seq<u8>)| (kv.0, kv.1, Some(kv.1)))
}

/// The store `m` after the records `inputs` were written to it, by whether
/// it keeps what is written.
pub open spec fn store_state(
    keeps: bool,
    m: Map<Seq<u8>, Seq<u8>>,
    inputs: Seq<(Seq<u8>, Seq<u8>)>,
) -> Map<Seq<u8>, Seq<u8>> {
    if keeps {
        ingest_state(m, inputs)
    } else {
        m
    }
}

/// What the store `m` gives back for the records `inputs`, by whether it
/// keeps what is written: every record with the value that its key had, or
/// with its own value.
pub open spec fn store_output(
    keeps: bool,
    m: Map<Seq<u8>, Seq<u8>>,
    inputs: Seq<(Seq<u8>, Seq<u8>)>,
) -> Seq<(Seq<u8>, Seq<u8>, Option<Seq<u8>>)> {
    if keeps {
        ingest_output(m, inputs)
    } else {
        echoes(inputs)
    }
}

/// A store that keeps nothing and says of every record that its key had
/// the record's value before. It is there to measure the rest.
pub struct NoopMap {}

impl NoopMap {
    /// Gives every record back with its own value as the value before.
    pub fn ingest(&mut self, batches: Vec<Vec<KV>>) -> (out: Vec<KVAndPrevious>)
        ensures
            result_views(out@) == echoes(flatten(batches@)),
    {
        let inputs = flatten_batches(&batches);
        let mut out: Vec<KVAndPrevious> = Vec::new();
        let mut i: usize = 0;
        while i < inputs.len()
            invariant
                i <= inputs.len(),
                kv_views(inputs@) == flatten(batches@),
                out@.len() == i,
                forall|k: int|
                    0 <= k < i ==> #[trigger] result_view(out@[k]) == (
                        inputs@[k].0@,
                        inputs@[k].1@,
                        Some(inputs@[k].1@),
                    ),
            decreases inputs.len() - i,
        {
            let key = clone_bytes(&inputs[i].0);
            let value = clone_bytes(&inputs[i].1);
            let again = clone_bytes(&value);
            out.push((key, value, Some(again)));
            i = i + 1;
        }
        proof {
            assert forall|k: int| 0 <= k < out@.len() implies #[trigger] result_view(out@[k]) == (
                flatten(batches@)[k].0,
                flatten(batches@)[k].1,
                Some(flatten(batches@)[k].1),
            ) by {
                assert(kv_views(inputs@)[k] == kv_view(inputs@[k]));
            }
            assert(result_views(out@) =~= echoes(flatten(batches@)));
        }
        out
    }
}

/// No key occurs twice in `s`.
pub open spec fn distinct_keys(s: Seq<KV>) -> bool {
    forall|i: int, j: int| 0 <= i < j < s.len() ==> (#[trigger] s[i]).0@ != (#[trigger] s[j]).0@
}

/// `key` occurs in `s`.
pub open spec fn has_key(s: Seq<KV>, key: Seq<u8>) -> bool {
    exists|i: int| 0 <= i < s.len() && (#[trigger] s[i]).0@ == key
}

/// A place at which `key` occurs in `s`.
pub open spec fn place_of(s: Seq<KV>, key: Seq<u8>) -> int {
    choose|i: int| 0 <= i < s.len() && (#[trigger] s[i]).0@ == key
}

/// The mapping that the entries `s` stand for.
pub open spec fn entries_map(s: Seq<KV>) -> Map<Seq<u8>, Seq<u8>> {
    Map::new(|key: Seq<u8>| has_key(s, key), |key: Seq<u8>| s[place_of(s, key)].1@)
}

/// Among entries with distinct keys, the place of a key is the place where
/// it is found.
pub proof fn lemma_place_of(s: Seq<KV>, i: int)
    requires
        distinct_keys(s),
        0 <= i < s.len(),
    ensures
        has_key(s, s[i].0@),
        place_of(s, s[i].0@) == i,
        entries_map(s).contains_key(s[i].0@),
        entries_map(s)[s[i].0@] == s[i].1@,
{
    let p = place_of(s, s[i].0@);
    if p < i {
        assert(s[p].0@ != s[i].0@);
    } else if i < p {
        assert(s[i].0@ != s[p].0@);
    }
}

/// Putting a value in the place of the value of a key gives the mapping
/// with that value for the key.
pub proof fn lemma_entries_update(s: Seq<KV>, i: int, entry: KV)
    requires
        distinct_keys(s),
        0 <= i < s.len(),
        entry.0@ == s[i].0@,
    ensures
        distinct_keys(s.update(i, entry)),
        entries_map(s.update(i, entry)) == entries_map(s).insert(entry.0@, entry.1@),
{
    let t = s.update(i, entry);
    assert(distinct_keys(t)) by {
        assert forall|a: int, b: int| 0 <= a < b < t.len() implies (#[trigger] t[a]).0@ != (
        #[trigger] t[b]).0@ by {
            assert(s[a].0@ != s[b].0@);
        }
    }
    assert forall|key: Seq<u8>| has_key(t, key) == (key == entry.0@ || has_key(s, key)) by {
        if has_key(t, key) {
            let p = place_of(t, key);
            assert(s[p].0@ == key);
        }
        if has_key(s, key) {
            let p = place_of(s, key);
            assert(t[p].0@ == key);
        }
        if key == entry.0@ {
            assert(t[i].0@ == key);
        }
    }
    assert forall|key: Seq<u8>| has_key(t, key) implies #[trigger] entries_map(t)[key]
        == entries_map(s).insert(entry.0@, entry.1@)[key] by {
        let p = place_of(t, key);
        lemma_place_of(t, p);
        if p != i {
            assert(s[p].0@ == key);
            lemma_place_of(s, p);
        }
    }
    assert(entries_map(t) =~= entries_map(s).insert(entry.0@, entry.1@));
}

/// Putting in an entry with a key that was not there gives the mapping with
/// the entry's value for the key.
pub proof fn lemma_entries_insert(s: Seq<KV>, i: int, entry: KV)
    requires
        distinct_keys(s),
        0 <= i <= s.len(),
        !has_key(s, entry.0@),
    ensures
        distinct_keys(s.insert(i, entry)),
        entries_map(s.insert(i, entry)) == entries_map(s).insert(entry.0@, entry.1@),
{
    let t = s.insert(i, entry);
    assert forall|a: int| 0 <= a < s.len() implies (#[trigger] s[a]).0@ != entry.0@ by {
        if s[a].0@ == entry.0@ {
            assert(has_key(s, entry.0@));
        }
    }
    assert(distinct_keys(t)) by {
        assert forall|a: int, b: int| 0 <= a < b < t.len() implies (#[trigger] t[a]).0@ != (
        #[trigger] t[b]).0@ by {
            let sa = if a < i {
                a
            } else {
                a - 1
            };
            let sb = if b < i {
                b
            } else {
                b - 1
            };
            if a == i {
                assert(t[b] == s[sb]);
            } else if b == i {
                assert(t[a] == s[sa]);
            } else {
                assert(t[a] == s[sa] && t[b] == s[sb]);
                assert(s[sa].0@ != s[sb].0@);
            }
        }
    }
    assert forall|key: Seq<u8>| has_key(t, key) == (key == entry.0@ || has_key(s, key)) by {
        if has_key(t, key) {
            let p = place_of(t, key);
            if p < i {
                assert(s[p].0@ == key);
            } else if p > i {
                assert(s[p - 1].0@ == key);
            }
        }
        if has_key(s, key) {
            let p = place_of(s, key);
            if p < i {
                assert(t[p].0@ == key);
            } else {
                assert(t[p + 1].0@ == key);
            }
        }
        if key == entry.0@ {
            assert(t[i].0@ == key);
        }
    }
    assert forall|key: Seq<u8>| has_key(t, key) implies #[trigger] entries_map(t)[key]
        == entries_map(s).insert(entry.0@, entry.1@)[key] by {
        let p = place_of(t, key);
        lemma_place_of(t, p);
        if p < i {
            assert(s[p].0@ == key);
            lemma_place_of(s, p);
        } else if p > i {
            assert(s[p - 1].0@ == key);
            lemma_place_of(s, p - 1);
        }
    }
    assert(entries_map(t) =~= entries_map(s).insert(entry.0@, entry.1@));
}

/// A store in memory that keeps its entries in no order.
pub struct UnorderedMap {
    pub entries: Vec<KV>,
}

impl View for UnorderedMap {
    type V = Map<Seq<u8>, Seq<u8>>;

    open spec fn view(&self) -> Map<Seq<u8>, Seq<u8>> {
        entries_map(self.entries@)
    }
}

impl UnorderedMap {
    /// No key is kept twice.
    pub open spec fn wf(&self) -> bool {
        distinct_keys(self.entries@)
    }

    /// An empty store.
    pub fn new() -> (map: UnorderedMap)
        ensures
            map.wf(),
            map@ == Map::<Seq<u8>, Seq<u8>>::empty(),
    {
        let map = UnorderedMap { entries: Vec::new() };
        assert(map@ =~= Map::<Seq<u8>, Seq<u8>>::empty());
        map
    }

    /// The place of `key` among the entries, if it is there.
    fn find(&self, key: &[u8]) -> (place: Option<usize>)
        ensures
            match place {
                Some(i) => i < self.entries@.len() && self.entries@[i as int].0@ == key@,
                None => !has_key(self.entries@, key@),
            },
    {
        let mut i: usize = 0;
        while i < self.entries.len()
            invariant
                i <= self.entries.len(),
                forall|k: int| 0 <= k < i ==> (#[trigger] self.entries@[k]).0@ != key@,
            decreases self.entries.len() - i,
        {
            if bytes_equal(self.entries[i].0.as_slice(), key) {
                return Some(i);
            }
            i = i + 1;
        }
        None
    }

    /// Gives `key` the value `value`, and gives back the value that it had.
    pub fn insert(&mut self, key: Vec<u8>, value: Vec<u8>) -> (old_value: Option<Vec<u8>>)
        requires
            old(self).wf(),
        ensures
            final(self).wf(),
            final(self)@ == old(self)@.insert(key@, value@),
            match old_value {
                Some(v) => old(self)@.contains_key(key@) && old(self)@[key@] == v@,
                None => !old(self)@.contains_key(key@),
            },
    {
        match self.find(key.as_slice()) {
            Some(i) => {
                let old_value = clone_bytes(&self.entries[i].1);
                proof {
                    lemma_place_of(self.entries@, i as int);
                    lemma_entries_update(self.entries@, i as int, (key, value));
                }
                self.entries.set(i, (key, value));
                Some(old_value)
            },
            None => {
                proof {
                    lemma_entries_insert(self.entries@, self.entries@.len() as int, (key, value));
                    assert(self.entries@.insert(self.entries@.len() as int, (key, value))
                        =~= self.entries@.push((key, value)));
                }
                self.entries.push((key, value));
                None
            },
        }
    }
}

/// The keys of `s` ascend strictly, byte by byte.
pub open spec fn ascending(s: Seq<KV>) -> bool {
    forall|i: int, j: int|
        0 <= i < j < s.len() ==> lex_less((#[trigger] s[i]).0@, (#[trigger] s[j]).0@)
}

/// Ascending keys are distinct.
pub proof fn lemma_ascending_distinct(s: Seq<KV>)
    requires
        ascending(s),
    ensures
        distinct_keys(s),
{
    assert forall|i: int, j: int| 0 <= i < j < s.len() implies (#[trigger] s[i]).0@ != (
    #[trigger] s[j]).0@ by {
        lemma_lex_trichotomy(s[i].0@, s[j].0@);
    }
}

/// A store in memory that keeps its entries in the order of their keys.
pub struct OrderedMap {
    pub entries: Vec<KV>,
}

impl View for OrderedMap {
    type V = Map<Seq<u8>, Seq<u8>>;

    open spec fn view(&self) -> Map<Seq<u8>, Seq<u8>> {
        entries_map(self.entries@)
    }
}

impl OrderedMap {
    /// The keys ascend.
    pub open spec fn wf(&self) -> bool {
        ascending(self.entries@)
    }

    /// An empty store.
    pub fn new() -> (map: OrderedMap)
        ensures
            map.wf(),
            map@ == Map::<Seq<u8>, Seq<u8>>::empty(),
    {
        let map = OrderedMap { entries: Vec::new() };
        assert(map@ =~= Map::<Seq<u8>, Seq<u8>>::empty());
        map
    }

    /// The place of the first entry whose key is not below `key`, found by
    /// halving.
    fn lower_bound(&self, key: &[u8]) -> (place: usize)
        requires
            self.wf(),
        ensures
            place <= self.entries@.len(),
            forall|k: int| 0 <= k < place ==> lex_less((#[trigger] self.entries@[k]).0@, key@),
            forall|k: int|
                place <= k < self.entries@.len() ==> !lex_less(
                    (#[trigger] self.entries@[k]).0@,
                    key@,
                ),
    {
        let mut low: usize = 0;
        let mut high: usize = self.entries.len();
        while low < high
            invariant
                low <= high <= self.entries@.len(),
                self.wf(),
                forall|k: int| 0 <= k < low ==> lex_less((#[trigger] self.entries@[k]).0@, key@),
                forall|k: int|
                    high <= k < self.entries@.len() ==> !lex_less(
                        (#[trigger] self.entries@[k]).0@,
                        key@,
                    ),
            decreases high - low,
        {
            let mid = low + (high - low) / 2;
            if bytes_less(self.entries[mid].0.as_slice(), key) {
                proof {
                    assert forall|k: int| 0 <= k < mid + 1 implies lex_less(
                        (#[trigger] self.entries@[k]).0@,
                        key@,
                    ) by {
                        if k < mid {
                            lemma_lex_transitive(
                                self.entries@[k].0@,
                                self.entries@[mid as int].0@,
                                key@,
                            );
                        }
                    }
                }
                low = mid + 1;
            } else {
                proof {
                    assert forall|k: int| mid <= k < self.entries@.len() implies !lex_less(
                        (#[trigger] self.entries@[k]).0@,
                        key@,
                    ) by {
                        if k > mid && lex_less(self.entries@[k].0@, key@) {
                            lemma_lex_transitive(
                                self.entries@[mid as int].0@,
                                self.entries@[k].0@,
                                key@,
                            );
                        }
                    }
                }
                high = mid;
            }
        }
        low
    }

    /// Gives `key` the value `value`, and gives back the value that it had.
    pub fn insert(&mut self, key: Vec<u8>, value: Vec<u8>) -> (old_value: Option<Vec<u8>>)
        requires
            old(self).wf(),
        ensures
            final(self).wf(),
            final(self)@ == old(self)@.insert(key@, value@),
            match old_value {
                Some(v) => old(self)@.contains_key(key@) && old(self)@[key@] == v@,
                None => !old(self)@.contains_key(key@),
            },
    {
        let place = self.lower_bound(key.as_slice());
        let ghost before = self.entries@;
        proof {
            lemma_ascending_distinct(before);
        }
        if place < self.entries.len() && bytes_equal(self.entries[place].0.as_slice(), key.as_slice()) {
            let old_value = clone_bytes(&self.entries[place].1);
            proof {
                lemma_place_of(before, place as int);
                lemma_entries_update(before, place as int, (key, value));
            }
            self.entries.set(place, (key, value));
            proof {
                assert forall|i: int, j: int| 0 <= i < j < self.entries@.len() implies lex_less(
                    (#[trigger] self.entries@[i]).0@,
                    (#[trigger] self.entries@[j]).0@,
                ) by {
                    assert(lex_less(before[i].0@, before[j].0@));
                }
            }
            Some(old_value)
        } else {
            proof {
                assert(!has_key(before, key@)) by {
                    if has_key(before, key@) {
                        let p = place_of(before, key@);
                        lemma_lex_trichotomy(before[p].0@, key@);
                        if p >= place {
                            if p > place {
                                assert(lex_less(before[place as int].0@, before[p].0@));
                            }
                            lemma_lex_trichotomy(before[place as int].0@, key@);
                        }
                    }
                }
                lemma_entries_insert(before, place as int, (key, value));
            }
            self.entries.insert(place, (key, value));
            proof {
                let after = self.entries@;
                assert forall|i: int, j: int| 0 <= i < j < after.len() implies lex_less(
                    (#[trigger] after[i]).0@,
                    (#[trigger] after[j]).0@,
                ) by {
                    let si = if i < place {
                        i
                    } else {
                        i - 1
                    };
                    let sj = if j < place {
                        j
                    } else {
                        j - 1
                    };
                    if i == place {
                        assert(after[j] == before[sj]);
                        lemma_lex_trichotomy(before[sj].0@, key@);
                    } else if j == place {
                        assert(after[i] == before[si]);
                    } else {
                        assert(after[i] == before[si] && after[j] == before[sj]);
                        assert(lex_less(before[si].0@, before[sj].0@));
                    }
                }
            }
            None
        }
    }
}

/// The stores that there are.
pub enum Backend {
    Noop(NoopMap),
    InMemoryHashMap(UnorderedMap),
    InMemoryBTreeMap(OrderedMap),
}

impl Backend {
    /// The store is in order.
    pub open spec fn wf(&self) -> bool {
        match self {
            Backend::Noop(_) => true,
            Backend::InMemoryHashMap(m) => m.wf(),
            Backend::InMemoryBTreeMap(m) => m.wf(),
        }
    }

    /// Whether the store keeps what is written to it.
    pub open spec fn keeps(&self) -> bool {
        !(self is Noop)
    }

    /// The mapping that the store keeps.
    pub open spec fn state(&self) -> Map<Seq<u8>, Seq<u8>> {
        match self {
            Backend::Noop(_) => Map::<Seq<u8>, Seq<u8>>::empty(),
            Backend::InMemoryHashMap(m) => m@,
            Backend::InMemoryBTreeMap(m) => m@,
        }
    }

    /// Writes one record and gives back the value that its key had.
    fn insert(&mut self, key: Vec<u8>, value: Vec<u8>) -> (old_value: Option<Vec<u8>>)
        requires
            old(self).wf(),
        ensures
            final(self).wf(),
            final(self).keeps() == old(self).keeps(),
            old(self).keeps() ==> final(self).state() == old(self).state().insert(key@, value@),
            old(self).keeps() ==> match old_value {
                Some(v) => old(self).state().contains_key(key@) && old(self).state()[key@] == v@,
                None => !old(self).state().contains_key(key@),
            },
            !old(self).keeps() ==> (old_value matches Some(v) && v@ == value@),
    {
        match self {
            Backend::Noop(_) => Some(clone_bytes(&value)),
            Backend::InMemoryHashMap(m) => m.insert(key, value),
            Backend::InMemoryBTreeMap(m) => m.insert(key, value),
        }
    }

    /// Writes the records of `batches` in order and gives every record
    /// back with the value that its key had when the record was written. A
    /// store that keeps nothing gives the record's own value.
    pub fn ingest(&mut self, batches: Vec<Vec<KV>>) -> (out: Vec<KVAndPrevious>)
        requires
            old(self).wf(),
        ensures
            final(self).wf(),
            final(self).keeps() == old(self).keeps(),
            out@.len() == flatten(batches@).len(),
            final(self).state() == store_state(
                old(self).keeps(),
                old(self).state(),
                flatten(batches@),
            ),
            result_views(out@) == store_output(
                old(self).keeps(),
                old(self).state(),
                flatten(batches@),
            ),
    {
        let inputs = flatten_batches(&batches);
        let ghost all = flatten(batches@);
        let ghost start = self.state();
        let mut out: Vec<KVAndPrevious> = Vec::new();
        let mut i: usize = 0;
        proof {
            assert(all.take(0) =~= Seq::<(Seq<u8>, Seq<u8>)>::empty());
        }
        while i < inputs.len()
            invariant
                i <= inputs.len(),
                self.wf(),
                self.keeps() == old(self).keeps(),
                start == old(self).state(),
                all == flatten(batches@),
                kv_views(inputs@) == all,
                out@.len() == i,
                self.keeps() ==> self.state() == ingest_state(start, all.take(i as int)),
                self.keeps() ==> forall|k: int|
                    0 <= k < i ==> #[trigger] result_view(out@[k]) == ingest_output(start, all)[k],
                !self.keeps() ==> forall|k: int|
                    0 <= k < i ==> #[trigger] result_view(out@[k]) == (
                        all[k].0,
                        all[k].1,
                        Some(all[k].1),
                    ),
            decreases inputs.len() - i,
        {
            let key = clone_bytes(&inputs[i].0);
            let value = clone_bytes(&inputs[i].1);
            let in_key = clone_bytes(&key);
            let in_value = clone_bytes(&value);
            proof {
                assert(all[i as int] == kv_view(inputs@[i as int]));
                assert(all.take(i + 1).drop_last() =~= all.take(i as int));
                assert(all.take(i + 1).last() == all[i as int]);
            }
            let previous_value = self.insert(in_key, in_value);
            out.push((key, value, previous_value));
            i = i + 1;
        }
        proof {
            assert(all.take(all.len() as int) =~= all);
            if self.keeps() {
                assert(result_views(out@) =~= ingest_output(start, all));
            } else {
                assert(result_views(out@) =~= echoes(all));
            }
        }
        out
    }
}

/// The rows that `results` become when the first `counts[0].1` of them are
/// emitted at the time `counts[0].0`, the next at the next time, and so on.
pub open spec fn emitted_at(
    results: Seq<(Seq<u8>, Seq<u8>, Option<Seq<u8>>)>,
    counts: Seq<(u64, nat)>,
) -> Seq<(Seq<u8>, Seq<u8>, u64, i64)>
    decreases counts.len(),
{
    if counts.len() == 0 {
        Seq::<(Seq<u8>, Seq<u8>, u64, i64)>::empty()
    } else {
        let last = counts.last();
        let split = results.len() - last.1;
        emitted_at(results.take(split), counts.drop_last()) + emitted(
            results.skip(split),
            last.0,
        )
    }
}

/// The numbers of `counts`, added up.
pub open spec fn counts_sum(counts: Seq<(u64, nat)>) -> nat
    decreases counts.len(),
{
    if counts.len() == 0 {
        0
    } else {
        counts_sum(counts.drop_last()) + counts.last().1
    }
}

/// The rows of results laid end to end are the rows of the first and the
/// rows of the second.
pub proof fn lemma_emitted_concat(
    a: Seq<(Seq<u8>, Seq<u8>, Option<Seq<u8>>)>,
    b: Seq<(Seq<u8>, Seq<u8>, Option<Seq<u8>>)>,
    time: u64,
)
    ensures
        emitted(a + b, time) == emitted(a, time) + emitted(b, time),
    decreases b.len(),
{
    if b.len() == 0 {
        assert(a + b =~= a);
        assert(emitted(a, time) + emitted(b, time) =~= emitted(a, time));
    } else {
        lemma_emitted_concat(a, b.drop_last(), time);
        assert((a + b).drop_last() =~= a + b.drop_last());
        assert((a + b).last() == b.last());
        let tail = match b.last().2 {
            Some(p) => seq![(b.last().0, p, time, -1i64), (b.last().0, b.last().1, time, 1i64)],
            None => seq![(b.last().0, b.last().1, time, 1i64)],
        };
        assert(emitted(a + b, time) =~= emitted(a, time) + (emitted(b.drop_last(), time) + tail));
    }
}

/// How often rows are there does not depend on the time at which they are
/// emitted.
pub proof fn lemma_emitted_time(
    results: Seq<(Seq<u8>, Seq<u8>, Option<Seq<u8>>)>,
    time: u64,
    other: u64,
    key: Seq<u8>,
    value: Seq<u8>,
)
    ensures
        row_count(emitted(results, time), key, value) == row_count(
            emitted(results, other),
            key,
            value,
        ),
        key_count(emitted(results, time), key) == key_count(emitted(results, other), key),
    decreases results.len(),
{
    if results.len() > 0 {
        let r = results.last();
        lemma_emitted_time(results.drop_last(), time, other, key, value);
        let tail = match r.2 {
            Some(p) => seq![(r.0, p, time, -1i64), (r.0, r.1, time, 1i64)],
            None => seq![(r.0, r.1, time, 1i64)],
        };
        let other_tail = match r.2 {
            Some(p) => seq![(r.0, p, other, -1i64), (r.0, r.1, other, 1i64)],
            None => seq![(r.0, r.1, other, 1i64)],
        };
        lemma_row_count_concat(emitted(results.drop_last(), time), tail, key, value);
        lemma_row_count_concat(emitted(results.drop_last(), other), other_tail, key, value);
        reveal_with_fuel(row_count, 3);
        reveal_with_fuel(key_count, 3);
        match r.2 {
            Some(p) => {
                assert(tail.drop_last() =~= seq![(r.0, p, time, -1i64)]);
                assert(other_tail.drop_last() =~= seq![(r.0, p, other, -1i64)]);
                assert(tail.drop_last().drop_last() =~= Seq::<
                    (Seq<u8>, Seq<u8>, u64, i64),
                >::empty());
                assert(other_tail.drop_last().drop_last() =~= Seq::<
                    (Seq<u8>, Seq<u8>, u64, i64),
                >::empty());
            },
            None => {
                assert(tail.drop_last() =~= Seq::<(Seq<u8>, Seq<u8>, u64, i64)>::empty());
                assert(other_tail.drop_last() =~= Seq::<(Seq<u8>, Seq<u8>, u64, i64)>::empty());
            },
        }
    }
}

/// Rows that are emitted at several times, each record at the time for
/// which it was gathered, add up as if they were emitted at one time: to
/// the change of the store. So where records are gathered by time before
/// they are written, the rows up to a time that is closed hold every key
/// that was written with its last value, once.
pub proof fn lemma_rows_at_times(
    m: Map<Seq<u8>, Seq<u8>>,
    inputs: Seq<(Seq<u8>, Seq<u8>)>,
    counts: Seq<(u64, nat)>,
    key: Seq<u8>,
    value: Seq<u8>,
)
    requires
        counts_sum(counts) == inputs.len(),
    ensures
        row_count(emitted_at(ingest_output(m, inputs), counts), key, value) == holds(
            ingest_state(m, inputs),
            key,
            value,
        ) - holds(m, key, value),
        key_count(emitted_at(ingest_output(m, inputs), counts), key) == has(
            ingest_state(m, inputs),
            key,
        ) - has(m, key),
{
    lemma_emitted_at_counts(ingest_output(m, inputs), counts, 0, key, value);
    lemma_upsert_rows(m, inputs, 0, key, value);
}

/// Rows that are emitted at several times are there as often as if they
/// were emitted at one time.
pub proof fn lemma_emitted_at_counts(
    results: Seq<(Seq<u8>, Seq<u8>, Option<Seq<u8>>)>,
    counts: Seq<(u64, nat)>,
    time: u64,
    key: Seq<u8>,
    value: Seq<u8>,
)
    requires
        counts_sum(counts) == results.len(),
    ensures
        row_count(emitted_at(results, counts), key, value) == row_count(
            emitted(results, time),
            key,
            value,
        ),
        key_count(emitted_at(results, counts), key) == key_count(emitted(results, time), key),
    decreases counts.len(),
{
    if counts.len() == 0 {
        assert(results =~= Seq::<(Seq<u8>, Seq<u8>, Option<Seq<u8>>)>::empty());
    } else {
        let last = counts.last();
        let split = results.len() - last.1;
        let front = results.take(split);
        let back = results.skip(split);
        lemma_emitted_at_counts(front, counts.drop_last(), time, key, value);
        lemma_emitted_time(back, last.0, time, key, value);
        lemma_row_count_concat(
            emitted_at(front, counts.drop_last()),
            emitted(back, last.0),
            key,
            value,
        );
        lemma_emitted_concat(front, back, time);
        lemma_row_count_concat(emitted(front, time), emitted(back, time), key, value);
        assert(front + back =~= results);
    }
}

/// The times of `pending` with the numbers of their records.
pub open spec fn counts_of(pending: Seq<(u64, UnorderedMap)>) -> Seq<(u64, nat)> {
    pending.map_values(|p: (u64, UnorderedMap)| (p.0, p.1.entries@.len()))
}

/// The records of `pending`, one time after the other.
pub open spec fn records_of(pending: Seq<(u64, UnorderedMap)>) -> Seq<(Seq<u8>, Seq<u8>)>
    decreases pending.len(),
{
    if pending.len() == 0 {
        Seq::<(Seq<u8>, Seq<u8>)>::empty()
    } else {
        records_of(pending.drop_last()) + kv_views(pending.last().1.entries@)
    }
}

/// The times of `pending` ascend, and the records of each time have
/// distinct keys.
pub open spec fn pending_wf(pending: Seq<(u64, UnorderedMap)>) -> bool {
    &&& forall|i: int, j: int|
        0 <= i < j < pending.len() ==> (#[trigger] pending[i]).0 < (#[trigger] pending[j]).0
    &&& forall|i: int| 0 <= i < pending.len() ==> (#[trigger] pending[i]).1.wf()
}

/// The records that are kept for the time `t` in `pending`, if any are.
pub open spec fn records_at(pending: Seq<(u64, UnorderedMap)>, t: u64) -> Option<
    Map<Seq<u8>, Seq<u8>>,
>
    decreases pending.len(),
{
    if pending.len() == 0 {
        None
    } else if pending.last().0 == t {
        Some(pending.last().1@)
    } else {
        records_at(pending.drop_last(), t)
    }
}

/// Where the times ascend, the records of a time are those of the entry
/// with that time.
pub proof fn lemma_records_at_index(pending: Seq<(u64, UnorderedMap)>, i: int)
    requires
        pending_wf(pending),
        0 <= i < pending.len(),
    ensures
        records_at(pending, pending[i].0) == Some(pending[i].1@),
    decreases pending.len(),
{
    if i < pending.len() - 1 {
        assert(pending[i].0 < pending.last().0);
        let front = pending.drop_last();
        assert(front[i] == pending[i]);
        assert(pending_wf(front)) by {
            assert forall|a: int, b: int| 0 <= a < b < front.len() implies (#[trigger] front[a]).0
                < (#[trigger] front[b]).0 by {
                assert(front[a] == pending[a] && front[b] == pending[b]);
            }
            assert forall|k: int| 0 <= k < front.len() implies (#[trigger] front[k]).1.wf() by {
                assert(front[k] == pending[k]);
            }
        }
        lemma_records_at_index(front, i);
    }
}

/// Nothing is kept for a time that no entry has.
pub proof fn lemma_records_at_none(pending: Seq<(u64, UnorderedMap)>, t: u64)
    requires
        forall|k: int| 0 <= k < pending.len() ==> (#[trigger] pending[k]).0 != t,
    ensures
        records_at(pending, t) is None,
    decreases pending.len(),
{
    if pending.len() > 0 {
        let front = pending.drop_last();
        assert(pending[pending.len() - 1].0 != t);
        assert forall|k: int| 0 <= k < front.len() implies (#[trigger] front[k]).0 != t by {
            assert(front[k] == pending[k]);
        }
        lemma_records_at_none(front, t);
    }
}

/// The upsert of one worker: the store of the values that the keys have,
/// and, where records are gathered by time before they are written, the
/// records of the times that are still open.
pub struct UpsertOperator {
    pub backend: Backend,
    pub pending_values: Vec<(u64, UnorderedMap)>,
}

impl UpsertOperator {
    /// The store is in order, and so are the records that wait.
    pub open spec fn wf(&self) -> bool {
        self.backend.wf() && pending_wf(self.pending_values@)
    }

    /// An upsert over `backend` with no records waiting.
    pub fn new(backend: Backend) -> (op: UpsertOperator)
        requires
            backend.wf(),
        ensures
            op.wf(),
            op.backend == backend,
            op.pending_values@.len() == 0,
    {
        UpsertOperator { backend, pending_values: Vec::new() }
    }

    /// Writes the records of `buffer` to the store as they come, and gives
    /// the rows that they become at `time`.
    pub fn upsert_core(&mut self, time: u64, buffer: Vec<KV>) -> (rows: Vec<UpsertRow>)
        requires
            old(self).wf(),
        ensures
            final(self).wf(),
            final(self).pending_values == old(self).pending_values,
            final(self).backend.keeps() == old(self).backend.keeps(),
            final(self).backend.state() == store_state(
                old(self).backend.keeps(),
                old(self).backend.state(),
                kv_views(buffer@),
            ),
            row_views(rows@) == emitted(
                store_output(
                    old(self).backend.keeps(),
                    old(self).backend.state(),
                    kv_views(buffer@),
                ),
                time,
            ),
    {
        let mut batches: Vec<Vec<KV>> = Vec::new();
        batches.push(buffer);
        proof {
            assert(batches@.drop_last() =~= Seq::<Vec<KV>>::empty());
            assert(flatten(batches@) =~= kv_views(buffer@)) by {
                reveal_with_fuel(flatten, 2);
            }
        }
        let results = self.backend.ingest(batches);
        emit(results, time)
    }

    /// Keeps the records of `buffer` for `time`, behind the records that
    /// are kept for that time already. Of the records of one key at one
    /// time the last stays. What is kept for other times stays as it is.
    pub fn buffer_records(&mut self, time: u64, buffer: Vec<KV>)
        requires
            old(self).wf(),
        ensures
            final(self).wf(),
            final(self).backend == old(self).backend,
            records_at(final(self).pending_values@, time) == Some(
                ingest_state(
                    match records_at(old(self).pending_values@, time) {
                        Some(m) => m,
                        None => Map::<Seq<u8>, Seq<u8>>::empty(),
                    },
                    kv_views(buffer@),
                ),
            ),
            forall|t: u64|
                t != time ==> #[trigger] records_at(final(self).pending_values@, t) == records_at(
                    old(self).pending_values@,
                    t,
                ),
    {
        let ghost start = self.pending_values@;
        // Find the records of the time, or where they belong.
        let mut at: usize = 0;
        while at < self.pending_values.len() && self.pending_values[at].0 < time
            invariant
                at <= self.pending_values.len(),
                self.pending_values@ == start,
                forall|k: int| 0 <= k < at ==> (#[trigger] start[k]).0 < time,
            decreases self.pending_values.len() - at,
        {
            at = at + 1;
        }
        let known = at < self.pending_values.len() && self.pending_values[at].0 == time;
        let mut records = if known {
            self.pending_values.remove(at).1
        } else {
            UnorderedMap::new()
        };
        let ghost rest = self.pending_values@;
        let ghost kept = records@;
        proof {
            if known {
                lemma_records_at_index(start, at as int);
            } else {
                assert(rest == start);
                assert forall|k: int| 0 <= k < start.len() implies (#[trigger] start[k]).0
                    != time by {
                    if k >= at {
                        assert(start[at as int].0 <= start[k].0);
                    }
                }
                lemma_records_at_none(start, time);
            }
            assert(kv_views(buffer@).take(0) =~= Seq::<(Seq<u8>, Seq<u8>)>::empty());
        }
        let mut i: usize = 0;
        while i < buffer.len()
            invariant
                i <= buffer.len(),
                records.wf(),
                records@ == ingest_state(kept, kv_views(buffer@).take(i as int)),
            decreases buffer.len() - i,
        {
            let key = clone_bytes(&buffer[i].0);
            let value = clone_bytes(&buffer[i].1);
            proof {
                let all = kv_views(buffer@);
                assert(all.take(i + 1).drop_last() =~= all.take(i as int));
                assert(all.take(i + 1).last() == (key@, value@));
            }
            // The later record of a key takes the place of the earlier.
            let _ = records.insert(key, value);
            i = i + 1;
        }
        proof {
            assert(kv_views(buffer@).take(buffer@.len() as int) =~= kv_views(buffer@));
        }
        self.pending_values.insert(at, (time, records));
        proof {
            let after = self.pending_values@;
            // Where the entries of before are to be found afterwards.
            assert forall|k: int| 0 <= k < after.len() && k != at implies #[trigger] after[k] == (
            if known {
                start[k]
            } else if k < at {
                start[k]
            } else {
                start[k - 1]
            }) by {
                if k < at {
                    assert(after[k] == rest[k]);
                } else {
                    assert(after[k] == rest[k - 1]);
                }
            }
            assert forall|a: int, b: int| 0 <= a < b < after.len() implies (#[trigger] after[a]).0
                < (#[trigger] after[b]).0 by {
                let sa = if known || a < at {
                    a
                } else {
                    a - 1
                };
                let sb = if known || b < at {
                    b
                } else {
                    b - 1
                };
                if a == at {
                    assert(after[b] == start[sb]);
                    if known {
                        assert(start[at as int].0 < start[sb].0);
                    } else if sb > at {
                        assert(start[at as int].0 < start[sb].0);
                    }
                } else if b == at {
                    assert(after[a] == start[sa]);
                    if sa >= at {
                        assert(known);
                        assert(false);
                    }
                } else {
                    assert(after[a] == start[sa] && after[b] == start[sb]);
                    assert(start[sa].0 < start[sb].0);
                }
            }
            assert forall|k: int| 0 <= k < after.len() implies (#[trigger] after[k]).1.wf() by {
                if k != at {
                    let sk = if known || k < at {
                        k
                    } else {
                        k - 1
                    };
                    assert(after[k] == start[sk]);
                    assert(start[sk].1.wf());
                }
            }
            lemma_records_at_index(after, at as int);
            assert forall|t: u64| t != time implies #[trigger] records_at(after, t) == records_at(
                start,
                t,
            ) by {
                if exists|k: int| 0 <= k < start.len() && (#[trigger] start[k]).0 == t {
                    let k = choose|k: int| 0 <= k < start.len() && (#[trigger] start[k]).0 == t;
                    let ak = if known || k < at {
                        k
                    } else {
                        k + 1
                    };
                    assert(after[ak] == start[k]);
                    lemma_records_at_index(start, k);
                    lemma_records_at_index(after, ak);
                } else {
                    assert forall|k: int| 0 <= k < after.len() implies (#[trigger] after[k]).0
                        != t by {
                        if k != at {
                            let sk = if known || k < at {
                                k
                            } else {
                                k - 1
                            };
                            assert(after[k] == start[sk]);
                        }
                    }
                    lemma_records_at_none(start, t);
                    lemma_records_at_none(after, t);
                }
            }
        }
    }

    /// Writes the records of the times that `frontier` has closed to the
    /// store, the earlier time first and all in one go, and gives the rows
    /// that they become, each at its time. The records of the times that
    /// are still open stay.
    pub fn upsert_core_pre_reduce(&mut self, frontier: Frontier) -> (rows: Vec<UpsertRow>)
        requires
            old(self).wf(),
        ensures
            final(self).wf(),
            final(self).backend.keeps() == old(self).backend.keeps(),
            exists|closed: int|
                0 <= closed <= old(self).pending_values@.len() && #[trigger] closed_at(
                    old(self).pending_values@,
                    frontier,
                    closed,
                ) && final(self).pending_values@ == old(self).pending_values@.skip(closed)
                    && final(self).backend.state() == store_state(
                    old(self).backend.keeps(),
                    old(self).backend.state(),
                    records_of(old(self).pending_values@.take(closed)),
                ) && row_views(rows@) == emitted_at(
                    store_output(
                        old(self).backend.keeps(),
                        old(self).backend.state(),
                        records_of(old(self).pending_values@.take(closed)),
                    ),
                    counts_of(old(self).pending_values@.take(closed)),
                ),
    {
        let ghost start = self.pending_values@;
        // The times ascend, so the closed times come first.
        let mut closed: usize = 0;
        while closed < self.pending_values.len() && !frontier.less_equal_time(
            self.pending_values[closed].0,
        )
            invariant
                closed <= self.pending_values.len(),
                self.pending_values@ == start,
                forall|k: int| 0 <= k < closed ==> !frontier.admits((#[trigger] start[k]).0),
            decreases self.pending_values.len() - closed,
        {
            closed = closed + 1;
        }
        proof {
            assert(closed_at(start, frontier, closed as int)) by {
                if closed < start.len() {
                    assert forall|k: int| closed <= k < start.len() implies frontier.admits(
                        (#[trigger] start[k]).0,
                    ) by {
                        if k > closed {
                            assert(start[closed as int].0 < start[k].0);
                        }
                    }
                }
            }
        }
        // Hand the store the records of all closed times at once, and keep
        // for every time the number of its records.
        let mut batches: Vec<Vec<KV>> = Vec::new();
        let mut caps: Vec<(u64, usize)> = Vec::new();
        let mut i: usize = 0;
        proof {
            assert(start.take(0) =~= Seq::<(u64, UnorderedMap)>::empty());
            assert(batches@.take(0) =~= Seq::<Vec<KV>>::empty());
        }
        while i < closed
            invariant
                i <= closed <= start.len(),
                self.pending_values@ == start,
                self.wf(),
                self.backend == old(self).backend,
                batches@.len() == i,
                caps@.len() == i,
                flatten(batches@) == records_of(start.take(i as int)),
                forall|k: int|
                    0 <= k < i ==> (#[trigger] caps@[k]).0 == start[k].0 && caps@[k].1
                        == start[k].1.entries@.len(),
            decreases closed - i,
        {
            let time = self.pending_values[i].0;
            let mut batch: Vec<KV> = Vec::new();
            let ghost entries = start[i as int].1.entries@;
            let mut k: usize = 0;
            while k < self.pending_values[i].1.entries.len()
                invariant
                    i < start.len(),
                    self.pending_values@ == start,
                    entries == start[i as int].1.entries@,
                    k <= entries.len(),
                    kv_views(batch@) == kv_views(entries).take(k as int),
                decreases entries.len() - k,
            {
                let key = clone_bytes(&self.pending_values[i].1.entries[k].0);
                let value = clone_bytes(&self.pending_values[i].1.entries[k].1);
                let ghost so_far = batch@;
                batch.push((key, value));
                assert(kv_views(batch@) =~= kv_views(so_far).push((entries[k as int].0@, entries[k as int].1@)));
                assert(kv_views(entries).take(k + 1) =~= kv_views(entries).take(k as int).push(
                    (entries[k as int].0@, entries[k as int].1@),
                ));
                k = k + 1;
            }
            let len = batch.len();
            proof {
                assert(kv_views(entries).take(entries.len() as int) =~= kv_views(entries));
                assert(start.take(i + 1).drop_last() =~= start.take(i as int));
                assert(start.take(i + 1).last() == start[i as int]);
                assert(batches@.push(batch).drop_last() =~= batches@);
                assert(kv_views(batch@).len() == batch@.len());
            }
            batches.push(batch);
            caps.push((time, len));
            i = i + 1;
        }
        let ghost records = records_of(start.take(closed as int));
        let ghost state = self.backend.state();
        let results = self.backend.ingest(batches);
        // Every result goes out at the time of its record.
        let mut rows: Vec<UpsertRow> = Vec::new();
        let mut from: usize = 0;
        let mut c: usize = 0;
        let ghost counts = counts_of(start.take(closed as int));
        proof {
            lemma_counts_total(start.take(closed as int), closed as int);
            assert(counts.take(0) =~= Seq::<(u64, nat)>::empty());
            assert(result_views(results@).take(0) =~= Seq::<
                (Seq<u8>, Seq<u8>, Option<Seq<u8>>),
            >::empty());
            assert(row_views(rows@) =~= Seq::<(Seq<u8>, Seq<u8>, u64, i64)>::empty());
        }
        while c < caps.len()
            invariant
                c <= caps.len(),
                caps@.len() == closed,
                closed <= start.len(),
                counts == counts_of(start.take(closed as int)),
                results@.len() == records.len(),
                records == records_of(start.take(closed as int)),
                forall|k: int|
                    0 <= k < closed ==> (#[trigger] caps@[k]).0 == start[k].0 && caps@[k].1
                        == start[k].1.entries@.len(),
                from == records_of(start.take(c as int)).len(),
                from <= results@.len(),
                row_views(rows@) == emitted_at(
                    result_views(results@).take(from as int),
                    counts.take(c as int),
                ),
            decreases caps.len() - c,
        {
            let time = caps[c].0;
            let count = caps[c].1;
            proof {
                lemma_counts_total(start.take(closed as int), c + 1);
                assert(start.take(closed as int).take(c + 1) =~= start.take(c + 1));
                assert(start.take(closed as int).take(c as int) =~= start.take(c as int));
                assert(start.take(c + 1).drop_last() =~= start.take(c as int));
                assert(start.take(c + 1).last() == start[c as int]);
                assert(kv_views(start[c as int].1.entries@).len() == start[c as int].1.entries@.len());
            }
            let mut part: Vec<KVAndPrevious> = Vec::new();
            let mut k: usize = 0;
            let total_results = results.len();
            while k < count
                invariant
                    k <= count,
                    total_results == results@.len(),
                    from + count <= results@.len(),
                    result_views(part@) == result_views(results@).subrange(
                        from as int,
                        from + k,
                    ),
                decreases count - k,
            {
                let key = clone_bytes(&results[from + k].0);
                let value = clone_bytes(&results[from + k].1);
                let previous_value = match &results[from + k].2 {
                    Some(p) => Some(clone_bytes(p)),
                    None => None,
                };
                let ghost so_far = part@;
                part.push((key, value, previous_value));
                assert(result_views(part@) =~= result_views(so_far).push(
                    result_view(results@[from + k]),
                ));
                assert(result_views(results@).subrange(from as int, from + k + 1)
                    =~= result_views(results@).subrange(from as int, from + k).push(
                    result_view(results@[from + k]),
                ));
                k = k + 1;
            }
            let emitted_rows = emit(part, time);
            let ghost before = rows@;
            let mut r: usize = 0;
            while r < emitted_rows.len()
                invariant
                    r <= emitted_rows.len(),
                    row_views(rows@) == row_views(before) + row_views(emitted_rows@).take(r as int),
                decreases emitted_rows.len() - r,
            {
                let key = clone_bytes(&emitted_rows[r].0);
                let value = clone_bytes(&emitted_rows[r].1);
                let ghost so_far = rows@;
                rows.push((key, value, emitted_rows[r].2, emitted_rows[r].3));
                assert(row_views(rows@) =~= row_views(so_far).push(row_view(emitted_rows@[r as int])));
                assert(row_views(emitted_rows@).take(r + 1) =~= row_views(emitted_rows@).take(
                    r as int,
                ).push(row_view(emitted_rows@[r as int])));
                r = r + 1;
            }
            proof {
                assert(row_views(emitted_rows@).take(emitted_rows@.len() as int) =~= row_views(
                    emitted_rows@,
                ));
                let all = result_views(results@);
                let upto = all.take(from + count);
                assert(counts.take(c + 1).drop_last() =~= counts.take(c as int));
                assert(counts.take(c + 1).last() == (time, count as nat));
                assert(upto.take(from as int) =~= all.take(from as int));
                assert(upto.skip(from as int) =~= all.subrange(from as int, from + count));
            }
            from = from + count;
            c = c + 1;
        }
        proof {
            assert(counts.take(closed as int) =~= counts);
            assert(start.take(closed as int).take(closed as int) =~= start.take(closed as int));
            assert(result_views(results@).take(results@.len() as int) =~= result_views(results@));
        }
        // The closed times are done with.
        let mut rest: Vec<(u64, UnorderedMap)> = Vec::new();
        let mut moved: usize = 0;
        let total = self.pending_values.len();
        while self.pending_values.len() > closed
            invariant
                closed <= start.len(),
                total == start.len(),
                self.pending_values@.len() >= closed,
                self.pending_values@.len() + moved == start.len(),
                self.pending_values@ == start.take(self.pending_values@.len() as int),
                rest@.len() == moved,
                forall|k: int|
                    0 <= k < moved ==> (#[trigger] rest@[k]) == start[start.len() - 1 - k],
                self.backend.wf(),
                self.backend.keeps() == old(self).backend.keeps(),
                old(self).backend.keeps() ==> self.backend.state() == ingest_state(state, records),
            decreases self.pending_values.len(),
        {
            let item = self.pending_values.pop().unwrap();
            rest.push(item);
            moved = moved + 1;
            assert(self.pending_values@ =~= start.take(self.pending_values@.len() as int));
        }
        self.pending_values = Vec::new();
        assert(self.pending_values@ =~= start.subrange(closed as int, start.len() - rest@.len()));
        while rest.len() > 0
            invariant
                closed <= start.len(),
                rest@.len() <= start.len() - closed,
                forall|k: int|
                    0 <= k < rest@.len() ==> (#[trigger] rest@[k]) == start[start.len() - 1 - k],
                self.pending_values@ == start.subrange(
                    closed as int,
                    start.len() - rest@.len(),
                ),
                self.backend.wf(),
                self.backend.keeps() == old(self).backend.keeps(),
                old(self).backend.keeps() ==> self.backend.state() == ingest_state(state, records),
            decreases rest.len(),
        {
            let item = rest.pop().unwrap();
            self.pending_values.push(item);
            assert(self.pending_values@ =~= start.subrange(
                closed as int,
                start.len() - rest@.len(),
            ));
        }
        proof {
            assert(self.pending_values@ =~= start.skip(closed as int));
            assert(pending_wf(self.pending_values@)) by {
                let after = self.pending_values@;
                assert forall|i: int, j: int| 0 <= i < j < after.len() implies (
                #[trigger] after[i]).0 < (#[trigger] after[j]).0 by {
                    assert(start[closed + i].0 < start[closed + j].0);
                }
                assert forall|i: int| 0 <= i < after.len() implies (#[trigger] after[i]).1.wf() by {
                    assert(start[closed + i].1.wf());
                }
            }
        }
        rows
    }
}

/// The first `closed` times of `pending` are closed by `frontier`, and the
/// others are open.
pub open spec fn closed_at(pending: Seq<(u64, UnorderedMap)>, frontier: Frontier, closed: int) -> bool {
    &&& forall|k: int| 0 <= k < closed ==> !frontier.admits((#[trigger] pending[k]).0)
    &&& forall|k: int| closed <= k < pending.len() ==> frontier.admits((#[trigger] pending[k]).0)
}

/// The records of the first `n` times are as many as their counts say.
pub proof fn lemma_counts_total(pending: Seq<(u64, UnorderedMap)>, n: int)
    requires
        0 <= n <= pending.len(),
    ensures
        records_of(pending.take(n)).len() <= records_of(pending).len(),
        n < pending.len() ==> records_of(pending.take(n + 1)).len() == records_of(
            pending.take(n),
        ).len() + pending[n].1.entries@.len(),
    decreases pending.len() - n,
{
    if n < pending.len() {
        assert(pending.take(n + 1).drop_last() =~= pending.take(n));
        assert(pending.take(n + 1).last() == pending[n]);
        lemma_counts_total(pending, n + 1);
    } else {
        assert(pending.take(n) =~= pending);
    }
}

/// What a store on disk gives back for the records `inputs`, whose keys
/// were all read at once before any record was written: every record with
/// what was read for its key. So of two records of one key in one batch both
/// are given the value from before the batch.
pub open spec fn read_results(
    inputs: Seq<(Seq<u8>, Seq<u8>)>,
    reads: Seq<Option<Seq<u8>>>,
) -> Seq<(Seq<u8>, Seq<u8>, Option<Seq<u8>>)> {
    Seq::new(inputs.len(), |i: int| (inputs[i].0, inputs[i].1, reads[i]))
}

/// What was read for the keys of a batch holds, in order: a value, no
/// value, or for a failed read nothing at all.
pub open spec fn read_views<E>(reads: Seq<Result<Option<Vec<u8>>, E>>) -> Seq<Option<Seq<u8>>> {
    reads.map_values(
        |r: Result<Option<Vec<u8>>, E>|
            match r {
                Ok(Some(v)) => Some(v@),
                _ => None,
            },
    )
}

/// The first read of `reads` that failed.
pub open spec fn first_failure<E>(reads: Seq<Result<Option<Vec<u8>>, E>>) -> Option<E>
    decreases reads.len(),
{
    if reads.len() == 0 {
        None
    } else {
        match first_failure(reads.drop_last()) {
            Some(e) => Some(e),
            None => match reads.last() {
                Err(e) => Some(e),
                Ok(_) => None,
            },
        }
    }
}

/// Puts the records `inputs` of a batch together with what was read for
/// their keys in one go, as a store on disk does before it writes them all
/// in one go. A read that failed fails the batch.
pub fn pair_with_reads<E>(inputs: Vec<KV>, reads: Vec<Result<Option<Vec<u8>>, E>>) -> (r: Result<
    Vec<KVAndPrevious>,
    E,
>)
    requires
        inputs@.len() == reads@.len(),
    ensures
        match r {
            Ok(out) => first_failure(reads@) is None && result_views(out@) == read_results(
                kv_views(inputs@),
                read_views(reads@),
            ),
            Err(e) => first_failure(reads@) == Some(e),
        },
{
    let ghost all_inputs = inputs@;
    let ghost all_reads = reads@;
    let mut inputs = inputs;
    let mut reads = reads;
    // The records are taken from the end, and turned round afterwards.
    let mut taken: Vec<KVAndPrevious> = Vec::new();
    let mut failure: Option<E> = None;
    while inputs.len() > 0
        invariant
            inputs@.len() == reads@.len(),
            inputs@ == all_inputs.take(inputs@.len() as int),
            reads@ == all_reads.take(reads@.len() as int),
            all_inputs.len() == all_reads.len(),
            taken@.len() <= all_inputs.len() - inputs@.len(),
            failure is None ==> taken@.len() == all_inputs.len() - inputs@.len(),
            failure is None ==> forall|k: int|
                0 <= k < taken@.len() ==> #[trigger] result_view(taken@[k]) == read_results(
                    kv_views(all_inputs),
                    read_views(all_reads),
                )[all_inputs.len() - 1 - k] && all_reads[all_inputs.len() - 1 - k] is Ok,
            failure matches Some(e) ==> first_failure(all_reads.skip(reads@.len() as int)) == Some(
                e,
            ),
            failure is None ==> first_failure(all_reads.skip(reads@.len() as int)) is None,
        decreases inputs@.len(),
    {
        let ghost n = inputs@.len() - 1;
        let record = inputs.pop();
        let read = reads.pop();
        proof {
            assert(inputs@ =~= all_inputs.take(n));
            assert(reads@ =~= all_reads.take(n));
            lemma_first_failure_front(all_reads.skip(n));
            assert(all_reads.skip(n).drop_first() =~= all_reads.skip(n + 1));
            assert(all_reads.skip(n)[0] == all_reads[n]);
        }
        match (record, read) {
            (Some((key, value)), Some(Ok(previous))) => {
                if failure.is_none() {
                    taken.push((key, value, previous));
                    proof {
                        assert(kv_views(all_inputs)[n] == kv_view(all_inputs[n]));
                    }
                }
            },
            (_, Some(Err(e))) => {
                failure = Some(e);
            },
            _ => {},
        }
    }
    proof {
        assert(all_reads.skip(0) =~= all_reads);
    }
    match failure {
        Some(e) => Err(e),
        None => {
            let mut out: Vec<KVAndPrevious> = Vec::new();
            let ghost want = read_results(kv_views(all_inputs), read_views(all_reads));
            while taken.len() > 0
                invariant
                    out@.len() + taken@.len() == want.len(),
                    forall|k: int|
                        0 <= k < taken@.len() ==> #[trigger] result_view(taken@[k]) == want[
                            want.len() - 1 - k],
                    forall|k: int| 0 <= k < out@.len() ==> #[trigger] result_view(out@[k]) == want[k],
                decreases taken@.len(),
            {
                let ghost before = out@;
                let ghost rest = taken@;
                if let Some(result) = taken.pop() {
                    out.push(result);
                    proof {
                        assert forall|k: int| 0 <= k < out@.len() implies #[trigger] result_view(
                            out@[k],
                        ) == want[k] by {
                            if k < before.len() {
                                assert(out@[k] == before[k]);
                            } else {
                                assert(out@[k] == rest[rest.len() - 1]);
                            }
                        }
                        assert forall|k: int| 0 <= k < taken@.len() implies #[trigger] result_view(
                            taken@[k],
                        ) == want[want.len() - 1 - k] by {
                            assert(taken@[k] == rest[k]);
                        }
                    }
                }
            }
            assert(result_views(out@) =~= want);
            Ok(out)
        },
    }
}

/// The first failure of reads is that of the first read, or else the
/// first among the others.
pub proof fn lemma_first_failure_front<E>(reads: Seq<Result<Option<Vec<u8>>, E>>)
    requires
        reads.len() > 0,
    ensures
        first_failure(reads) == match reads[0] {
            Err(e) => Some(e),
            Ok(_) => first_failure(reads.drop_first()),
        },
    decreases reads.len(),
{
    if reads.len() > 1 {
        lemma_first_failure_front(reads.drop_last());
        assert(reads.drop_last().drop_first() =~= reads.drop_first().drop_last());
        assert(reads.drop_last()[0] == reads[0]);
        assert(reads.drop_first().last() == reads.last());
    } else {
        assert(reads.drop_first() =~= Seq::<Result<Option<Vec<u8>>, E>>::empty());
        assert(reads.drop_last() =~= Seq::<Result<Option<Vec<u8>>, E>>::empty());
    }
}

} // verus!
