//! The join of two arrangements that share a key.
//!
//! Every fact of one side is paired with every fact of the other side that
//! has its key. A pair gives the key with both values, at the later of the
//! two times and of the time from which on the join may still emit, with the
//! product of the two differences. The pairs of one key can be millions, so
//! the work is deferred and done in slices: a slice ends when a caller's
//! predicate asks for it, and the next slice takes up where it ended.

use crate::arrangement::{
    checked_weight, key_end, key_of, lemma_consolidated_data, lemma_key_end, lemma_sorted_keys,
    lemma_val_end, occurs, val_end, val_of, Batch, Cursor, Frontier, Trace,
};
use crate::consolidation::{
    consolidate_updates, lemma_net_concat, lemma_net_push, net, nonzero, sorted, update_net, Data,
    Update,
};
use std::collections::VecDeque;
use vstd::prelude::*;

verus! {

/// Why a join stopped.
#[derive(Debug, Clone, Copy, PartialEq, Eq)]
pub enum JoinError {
    /// The product of two differences does not fit in a difference.
    DiffOverflow,
    /// A trace gave no cursor through the frontier that was acknowledged.
    CursorUnavailable,
}

/// The later of two times.
pub open spec fn later(a: u64, b: u64) -> u64 {
    if a >= b {
        a
    } else {
        b
    }
}

/// The time of a pair of facts: the later of their times and of `cap`.
pub open spec fn joined_time(t1: u64, t2: u64, cap: u64) -> u64 {
    later(later(t1, cap), t2)
}

/// What the pair of the facts `a` and `b` counts towards `d` at `t`.
pub open spec fn pair_net(a: Update, b: Update, cap: u64, d: Data, t: u64) -> int {
    if key_of(a) == key_of(b) && d == (key_of(a), val_of(a), val_of(b)) && t == joined_time(
        a.1,
        b.1,
        cap,
    ) {
        a.2 * b.2
    } else {
        0
    }
}

/// What the pairs of `a` with the facts of `bs` count towards `d` at `t`.
pub open spec fn row_net(a: Update, bs: Seq<Update>, cap: u64, d: Data, t: u64) -> int
    decreases bs.len(),
{
    if bs.len() == 0 {
        0
    } else {
        row_net(a, bs.drop_last(), cap, d, t) + pair_net(a, bs.last(), cap, d, t)
    }
}

/// The join: what the pairs of the facts of `xs` with the facts of `bs`
/// count towards `d` at `t`.
pub open spec fn join_net(xs: Seq<Update>, bs: Seq<Update>, cap: u64, d: Data, t: u64) -> int
    decreases xs.len(),
{
    if xs.len() == 0 {
        0
    } else {
        join_net(xs.drop_last(), bs, cap, d, t) + row_net(xs.last(), bs, cap, d, t)
    }
}

pub proof fn lemma_row_net_concat(a: Update, x: Seq<Update>, y: Seq<Update>, cap: u64, d: Data, t: u64)
    ensures
        row_net(a, x + y, cap, d, t) == row_net(a, x, cap, d, t) + row_net(a, y, cap, d, t),
    decreases y.len(),
{
    if y.len() == 0 {
        assert(x + y =~= x);
    } else {
        assert((x + y).drop_last() =~= x + y.drop_last());
        assert((x + y).last() == y.last());
        lemma_row_net_concat(a, x, y.drop_last(), cap, d, t);
    }
}

/// The join of two runs of facts laid end to end with `bs` is the two joins
/// added up.
pub proof fn lemma_join_net_concat_left(
    x: Seq<Update>,
    y: Seq<Update>,
    bs: Seq<Update>,
    cap: u64,
    d: Data,
    t: u64,
)
    ensures
        join_net(x + y, bs, cap, d, t) == join_net(x, bs, cap, d, t) + join_net(y, bs, cap, d, t),
    decreases y.len(),
{
    if y.len() == 0 {
        assert(x + y =~= x);
    } else {
        assert((x + y).drop_last() =~= x + y.drop_last());
        assert((x + y).last() == y.last());
        lemma_join_net_concat_left(x, y.drop_last(), bs, cap, d, t);
    }
}

/// The join of `xs` with two runs of facts laid end to end is the two joins
/// added up.
pub proof fn lemma_join_net_concat_right(
    xs: Seq<Update>,
    x: Seq<Update>,
    y: Seq<Update>,
    cap: u64,
    d: Data,
    t: u64,
)
    ensures
        join_net(xs, x + y, cap, d, t) == join_net(xs, x, cap, d, t) + join_net(xs, y, cap, d, t),
    decreases xs.len(),
{
    if xs.len() > 0 {
        lemma_join_net_concat_right(xs.drop_last(), x, y, cap, d, t);
        lemma_row_net_concat(xs.last(), x, y, cap, d, t);
    }
}

/// Facts that share no key join to nothing.
pub proof fn lemma_join_net_disjoint(xs: Seq<Update>, bs: Seq<Update>, cap: u64, d: Data, t: u64)
    requires
        forall|i: int, j: int|
            0 <= i < xs.len() && 0 <= j < bs.len() ==> key_of(#[trigger] xs[i]) != key_of(
                #[trigger] bs[j],
            ),
    ensures
        join_net(xs, bs, cap, d, t) == 0,
    decreases xs.len(), bs.len(),
{
    if xs.len() > 0 {
        assert forall|i: int, j: int|
            0 <= i < xs.drop_last().len() && 0 <= j < bs.len() implies key_of(
            #[trigger] xs.drop_last()[i],
        ) != key_of(#[trigger] bs[j]) by {
            assert(xs.drop_last()[i] == xs[i]);
        }
        lemma_join_net_disjoint(xs.drop_last(), bs, cap, d, t);
        lemma_row_net_disjoint(xs.last(), bs, cap, d, t);
    }
}

proof fn lemma_row_net_disjoint(a: Update, bs: Seq<Update>, cap: u64, d: Data, t: u64)
    requires
        forall|j: int| 0 <= j < bs.len() ==> key_of(a) != key_of(#[trigger] bs[j]),
    ensures
        row_net(a, bs, cap, d, t) == 0,
    decreases bs.len(),
{
    if bs.len() > 0 {
        assert forall|j: int| 0 <= j < bs.drop_last().len() implies key_of(a) != key_of(
            #[trigger] bs.drop_last()[j],
        ) by {
            assert(bs.drop_last()[j] == bs[j]);
        }
        lemma_row_net_disjoint(a, bs.drop_last(), cap, d, t);
        assert(key_of(a) != key_of(bs[bs.len() - 1]));
    }
}

/// One fact joined with `bs` is `bs` joined with that fact, the values
/// changing places.
proof fn lemma_row_swap(a: Update, bs: Seq<Update>, cap: u64, k: u64, v1: u64, v2: u64, t: u64)
    ensures
        row_net(a, bs, cap, (k, v1, v2), t) == join_net(bs, seq![a], cap, (k, v2, v1), t),
    decreases bs.len(),
{
    if bs.len() > 0 {
        lemma_row_swap(a, bs.drop_last(), cap, k, v1, v2, t);
        let b = bs.last();
        let single = seq![a];
        assert(single.drop_last() =~= Seq::<Update>::empty());
        assert(single.last() == a);
        assert(row_net(b, single.drop_last(), cap, (k, v2, v1), t) == 0);
        assert(a.2 * b.2 == b.2 * a.2) by (nonlinear_arith);
    }
}

/// Joining two collections gives the same whichever is named first, the
/// values of each output changing places with the sides.
pub proof fn lemma_join_commutes(
    xs: Seq<Update>,
    bs: Seq<Update>,
    cap: u64,
    k: u64,
    v1: u64,
    v2: u64,
    t: u64,
)
    ensures
        join_net(xs, bs, cap, (k, v1, v2), t) == join_net(bs, xs, cap, (k, v2, v1), t),
    decreases xs.len(),
{
    if xs.len() == 0 {
        assert(xs =~= Seq::<Update>::empty());
        lemma_join_net_empty_right(bs, cap, (k, v2, v1), t);
    } else {
        lemma_join_commutes(xs.drop_last(), bs, cap, k, v1, v2, t);
        lemma_row_swap(xs.last(), bs, cap, k, v1, v2, t);
        lemma_join_net_concat_right(bs, xs.drop_last(), seq![xs.last()], cap, (k, v2, v1), t);
        assert(xs.drop_last() + seq![xs.last()] =~= xs);
    }
}

/// Two runs of the join to their end, one of the facts `xs` with the facts
/// `bs` and one with the sides changed, emit the same, the values of each
/// output changing places with the sides: `first` and `swapped` are what
/// the two runs emitted, each all that its work owed at its start.
pub proof fn lemma_runs_commute(
    xs: Seq<Update>,
    bs: Seq<Update>,
    cap: u64,
    first: Seq<Update>,
    swapped: Seq<Update>,
    k: u64,
    v1: u64,
    v2: u64,
    t: u64,
)
    requires
        forall|d: Data, at: u64| #[trigger] net(first, d, at) == join_net(xs, bs, cap, d, at),
        forall|d: Data, at: u64| #[trigger] net(swapped, d, at) == join_net(bs, xs, cap, d, at),
    ensures
        net(first, (k, v1, v2), t) == net(swapped, (k, v2, v1), t),
{
    lemma_join_commutes(xs, bs, cap, k, v1, v2, t);
}

/// Nothing joins with no facts.
pub proof fn lemma_join_net_empty_right(xs: Seq<Update>, cap: u64, d: Data, t: u64)
    ensures
        join_net(xs, Seq::<Update>::empty(), cap, d, t) == 0,
    decreases xs.len(),
{
    if xs.len() > 0 {
        lemma_join_net_empty_right(xs.drop_last(), cap, d, t);
    }
}

/// A pair counts only at a time that is no earlier than `cap`.
pub proof fn lemma_join_net_time(xs: Seq<Update>, bs: Seq<Update>, cap: u64, d: Data, t: u64)
    requires
        t < cap,
    ensures
        join_net(xs, bs, cap, d, t) == 0,
    decreases xs.len(),
{
    if xs.len() > 0 {
        lemma_join_net_time(xs.drop_last(), bs, cap, d, t);
        lemma_row_net_time(xs.last(), bs, cap, d, t);
    }
}

proof fn lemma_row_net_time(a: Update, bs: Seq<Update>, cap: u64, d: Data, t: u64)
    requires
        t < cap,
    ensures
        row_net(a, bs, cap, d, t) == 0,
    decreases bs.len(),
{
    if bs.len() > 0 {
        lemma_row_net_time(a, bs.drop_last(), cap, d, t);
    }
}

/// The product of the differences of `a` and `b` is a difference.
pub open spec fn product_fits(a: Update, b: Update) -> bool {
    i64::MIN <= a.2 * b.2 <= i64::MAX
}

/// The products of the differences of the facts of `all1` from `from1` up
/// to `to1` with those of the facts of one key of `all2` from `from2` up to
/// `to2` are all differences.
pub open spec fn range_fits(
    all1: Seq<Update>,
    from1: int,
    to1: int,
    all2: Seq<Update>,
    from2: int,
    to2: int,
) -> bool {
    forall|i: int, j: int|
        from1 <= i < to1 && from2 <= j < to2 && key_of(#[trigger] all1[i]) == key_of(
            #[trigger] all2[j],
        ) ==> product_fits(all1[i], all2[j])
}

/// The work that is left of joining a batch of one side with what was
/// accepted of the other side: two cursors, the facts that they walk, the
/// time from which on outputs may be emitted, and the outputs that are
/// gathered for the next flush.
#[derive(Debug)]
pub struct Deferred {
    pub cursor1: Cursor,
    pub storage1: Batch,
    pub cursor2: Cursor,
    pub storage2: Batch,
    pub capability: u64,
    pub done: bool,
    pub temp: Vec<Update>,
}

/// What `output`, `temp` and the pairs that are still to be joined count
/// towards `d` at `t`, taken together.
pub open spec fn accounted(
    output: Seq<Update>,
    temp: Seq<Update>,
    rest1: Seq<Update>,
    rest2: Seq<Update>,
    cap: u64,
    d: Data,
    t: u64,
) -> int {
    net(output, d, t) + net(temp, d, t) + join_net(rest1, rest2, cap, d, t)
}

/// Every update of `s` from the `from`-th on is at `cap` or later.
pub open spec fn not_before(s: Seq<Update>, from: int, cap: u64) -> bool {
    forall|i: int| from <= i < s.len() ==> (#[trigger] s[i]).1 >= cap
}

/// `yield_fn` refuses a pause only at a count of work below `n`.
pub open spec fn refuses_below<F: Fn(usize) -> bool>(yield_fn: F, n: int) -> bool {
    forall|w: usize| #[trigger] call_ensures(yield_fn, (w,), false) ==> w < n
}

/// No value of the first side gives more than `s` pairs with the facts of
/// one value of the second side.
pub open spec fn step_bound(all1: Seq<Update>, all2: Seq<Update>, s: int) -> bool {
    forall|i: int, j: int|
        0 <= i < all1.len() && 0 <= j < all2.len() ==> (#[trigger] val_end(all1, i) - i) * (
        #[trigger] val_end(all2, j) - j) <= s
}

/// The work on `all1` and `all2` is paced by `n` and `s`: `yield_fn`
/// refuses a pause only below `n`, no step gives more than `s` outputs, and
/// the count of work, which begins at `work0`, stays within a `usize`.
pub open spec fn paced<F: Fn(usize) -> bool>(
    yield_fn: F,
    all1: Seq<Update>,
    all2: Seq<Update>,
    work0: int,
    n: int,
    s: int,
) -> bool {
    &&& 0 <= work0
    &&& 0 <= n
    &&& 0 <= s
    &&& 2 * work0 + 2 * n + s <= usize::MAX
    &&& refuses_below(yield_fn, n)
    &&& step_bound(all1, all2, s)
}

/// The greater of the count at which the work began and `n`.
pub open spec fn ceiling(work0: int, n: int) -> int {
    if work0 >= n {
        work0
    } else {
        n
    }
}

/// Where paced work goes on: the count covers what was emitted and what is
/// gathered, and neither is beyond the ceiling.
pub open spec fn in_pace(count: int, work0: int, emitted: int, gathered: int, n: int) -> bool {
    &&& count >= work0 + emitted + gathered
    &&& work0 + emitted + gathered <= ceiling(work0, n)
    &&& count <= ceiling(work0, n)
}

/// The work is paced by `n` and `s` from the count `work0` on, and from
/// every count up to the greater of `work0` and `n`.
pub open spec fn well_paced<F: Fn(usize) -> bool>(
    yield_fn: F,
    all1: Seq<Update>,
    all2: Seq<Update>,
    work0: int,
    n: int,
    s: int,
) -> bool {
    0 <= work0 && paced(yield_fn, all1, all2, ceiling(work0, n), n, s)
}

/// Where paced work has made one step since it was last asked to go on:
/// the count covers what was emitted, and with one step more what is
/// gathered too.
pub open spec fn stepped(count: int, work0: int, emitted: int, gathered: int, n: int, s: int) -> bool {
    &&& count <= ceiling(work0, n)
    &&& count >= work0 + emitted
    &&& count + s >= work0 + emitted + gathered
}

/// Where paced work stops: the count covers what was emitted, which is at
/// most one step beyond the ceiling.
pub open spec fn at_rest(count: int, work0: int, emitted: int, n: int, s: int) -> bool {
    &&& count >= work0 + emitted
    &&& work0 + emitted <= ceiling(work0, n) + s
}

impl Deferred {
    /// The facts of both sides are in order, the cursors stand within them,
    /// the second at the first value of its key or midway through the
    /// values of the key that both stand at, and nothing waits for a flush.
    pub open spec fn wf(&self) -> bool {
        &&& sorted(self.storage1@)
        &&& sorted(self.storage2@)
        &&& self.cursor1.wf(self.storage1@)
        &&& self.cursor2.wf(self.storage2@)
        &&& self.cursor2.val_pos == self.cursor2.key_pos || self.midway()
        &&& self.temp@.len() == 0
    }

    /// The value at which the first cursor stands is joined with a part
    /// of the values of its key on the second side: with those before the
    /// value at which the second cursor stands.
    pub open spec fn midway(&self) -> bool {
        &&& self.cursor1.key_pos < self.storage1@.len()
        &&& self.cursor2.key_pos < self.storage2@.len()
        &&& key_of(self.storage1@[self.cursor1.key_pos as int]) == key_of(
            self.storage2@[self.cursor2.key_pos as int],
        )
        &&& self.cursor1.val_valid(self.storage1@)
        &&& self.cursor2.key_pos < self.cursor2.val_pos
        &&& self.cursor2.val_pos < key_end(self.storage2@, self.cursor2.key_pos as int)
    }

    /// The facts of the value at which the first cursor stands.
    pub open spec fn run1(&self) -> Seq<Update> {
        self.storage1@.subrange(
            self.cursor1.val_pos as int,
            val_end(self.storage1@, self.cursor1.val_pos as int),
        )
    }

    /// The facts of the key of the second side with which the value at
    /// which the first cursor stands is joined already.
    pub open spec fn joined2(&self) -> Seq<Update> {
        self.storage2@.subrange(self.cursor2.key_pos as int, self.cursor2.val_pos as int)
    }

    /// The facts of the first side that are still to be joined.
    pub open spec fn rest1(&self) -> Seq<Update> {
        self.storage1@.skip(self.cursor1.val_pos as int)
    }

    /// The facts of the second side that are still to be joined.
    pub open spec fn rest2(&self) -> Seq<Update> {
        self.storage2@.skip(self.cursor2.key_pos as int)
    }

    /// The facts that are still to be joined have no pair of one key
    /// whose differences multiply beyond the range of a difference.
    pub open spec fn fits(&self) -> bool {
        range_fits(
            self.storage1@,
            self.cursor1.val_pos as int,
            self.storage1@.len() as int,
            self.storage2@,
            self.cursor2.key_pos as int,
            self.storage2@.len() as int,
        )
    }

    /// What is still owed towards `d` at `t`.
    pub open spec fn pending(&self, d: Data, t: u64) -> int {
        if self.cursor2.val_pos == self.cursor2.key_pos {
            join_net(self.rest1(), self.rest2(), self.capability, d, t)
        } else {
            join_net(self.rest1(), self.rest2(), self.capability, d, t) - join_net(
                self.run1(),
                self.joined2(),
                self.capability,
                d,
                t,
            )
        }
    }

    /// The work of joining the facts under `cursor1` with those under
    /// `cursor2`, none of it done.
    pub fn new(cursor1: Cursor, storage1: Batch, cursor2: Cursor, storage2: Batch, capability: u64) -> (
        deferred: Deferred
    )
        requires
            sorted(storage1@),
            sorted(storage2@),
            cursor1.wf(storage1@),
            cursor2.wf(storage2@),
            cursor2.val_pos == cursor2.key_pos,
        ensures
            deferred.wf(),
            !deferred.done,
            deferred.cursor1 == cursor1,
            deferred.cursor2 == cursor2,
            deferred.storage1 == storage1,
            deferred.storage2 == storage2,
            deferred.capability == capability,
    {
        Deferred { cursor1, storage1, cursor2, storage2, capability, done: false, temp: Vec::new() }
    }

    /// Whether any of the work is left.
    pub fn work_remains(&self) -> (b: bool)
        ensures
            b == !self.done,
    {
        !self.done
    }

    /// Hands what was gathered over to `output`, consolidated where the
    /// differences can be added up. Gives the number of updates that
    /// consolidation saved.
    fn flush(temp: &mut Vec<Update>, output: &mut Vec<Update>) -> (recovered: usize)
        ensures
            final(temp)@.len() == 0,
            recovered <= old(temp)@.len(),
            old(output)@.len() <= final(output)@.len() <= old(output)@.len() + old(temp)@.len(),
            final(output)@.len() == old(output)@.len() + old(temp)@.len() - recovered,
            final(output)@.take(old(output)@.len() as int) == old(output)@,
            forall|d: Data, t: u64| #[trigger]
                net(final(output)@, d, t) == net(old(output)@, d, t) + net(old(temp)@, d, t),
            forall|cap: u64|
                not_before(old(temp)@, 0, cap) ==> #[trigger] not_before(
                    final(output)@,
                    old(output)@.len() as int,
                    cap,
                ),
    {
        let old_len = temp.len();
        let ghost gathered = temp@;
        if checked_weight(temp).is_some() {
            consolidate_updates(temp);
            proof {
                lemma_consolidated_data(gathered, temp@);
            }
        }
        let ghost ready = temp@;
        let recovered = old_len - temp.len();
        let ghost before = output@;
        let mut i: usize = 0;
        while i < temp.len()
            invariant
                i <= temp.len(),
                temp@ == ready,
                output@ == before + ready.take(i as int),
            decreases temp.len() - i,
        {
            output.push(temp[i]);
            assert(ready.take(i + 1) =~= ready.take(i as int).push(ready[i as int]));
            i = i + 1;
        }
        temp.clear();
        proof {
            assert(ready.take(ready.len() as int) =~= ready);
            assert(output@.take(before.len() as int) =~= before);
            assert forall|d: Data, t: u64| #[trigger]
                net(output@, d, t) == net(before, d, t) + net(gathered, d, t) by {
                lemma_net_concat(before, ready, d, t);
            }
            assert forall|cap: u64| not_before(gathered, 0, cap) implies #[trigger] not_before(
                output@,
                before.len() as int,
                cap,
            ) by {
                assert forall|i: int| before.len() <= i < output@.len() implies (
                #[trigger] output@[i]).1 >= cap by {
                    let u = ready[i - before.len()];
                    assert(output@[i] == u);
                    if ready != gathered {
                        assert(occurs(gathered, u.0, u.1));
                    }
                }
            }
        }
        recovered
    }

    /// Gathers the pairs of the facts of one value of the first side with
    /// the facts of one value of the second side, both of one key, and
    /// consolidates them where their differences can be added up.
    fn join_values(
        storage1: &Batch,
        from1: usize,
        to1: usize,
        storage2: &Batch,
        from2: usize,
        to2: usize,
        cap: u64,
    ) -> (r: Result<Vec<Update>, JoinError>)
        requires
            from1 < to1 <= storage1@.len(),
            from2 < to2 <= storage2@.len(),
            forall|i: int|
                from1 <= i < to1 ==> key_of(#[trigger] storage1@[i]) == key_of(
                    storage1@[from1 as int],
                ) && val_of(storage1@[i]) == val_of(storage1@[from1 as int]),
            forall|j: int|
                from2 <= j < to2 ==> key_of(#[trigger] storage2@[j]) == key_of(
                    storage1@[from1 as int],
                ) && val_of(storage2@[j]) == val_of(storage2@[from2 as int]),
        ensures
            r is Ok <==> range_fits(
                storage1@,
                from1 as int,
                to1 as int,
                storage2@,
                from2 as int,
                to2 as int,
            ),
            r matches Err(e) ==> e == JoinError::DiffOverflow,
            r matches Ok(buffer) ==> not_before(buffer@, 0, cap) && forall|d: Data, t: u64|
             #[trigger]
                net(buffer@, d, t) == join_net(
                    storage1@.subrange(from1 as int, to1 as int),
                    storage2@.subrange(from2 as int, to2 as int),
                    cap,
                    d,
                    t,
                ),
            r matches Ok(buffer) ==> buffer@.len() <= (to1 - from1) * (to2 - from2),
    {
        let key = storage1.facts[from1].0.0;
        let val1 = storage1.facts[from1].0.1;
        let val2 = storage2.facts[from2].0.1;
        let ghost run2 = storage2@.subrange(from2 as int, to2 as int);
        let mut buffer: Vec<Update> = Vec::new();
        let mut i: usize = from1;
        proof {
            assert(storage1@.subrange(from1 as int, from1 as int) =~= Seq::<Update>::empty());
        }
        while i < to1
            invariant
                from1 <= i <= to1 <= storage1@.len(),
                from2 < to2 <= storage2@.len(),
                run2 == storage2@.subrange(from2 as int, to2 as int),
                key == key_of(storage1@[from1 as int]),
                val1 == val_of(storage1@[from1 as int]),
                val2 == val_of(storage2@[from2 as int]),
                forall|i: int|
                    from1 <= i < to1 ==> key_of(#[trigger] storage1@[i]) == key && val_of(
                        storage1@[i],
                    ) == val1,
                forall|j: int|
                    from2 <= j < to2 ==> key_of(#[trigger] storage2@[j]) == key && val_of(
                        storage2@[j],
                    ) == val2,
                not_before(buffer@, 0, cap),
                buffer@.len() == (i - from1) * (to2 - from2),
                range_fits(storage1@, from1 as int, i as int, storage2@, from2 as int, to2 as int),
                forall|d: Data, t: u64| #[trigger]
                    net(buffer@, d, t) == join_net(
                        storage1@.subrange(from1 as int, i as int),
                        run2,
                        cap,
                        d,
                        t,
                    ),
            decreases to1 - i,
        {
            let a = storage1.facts[i];
            let time1 = if a.1 >= cap {
                a.1
            } else {
                cap
            };
            let ghost row_start = buffer@;
            let mut j: usize = from2;
            proof {
                assert(storage2@.subrange(from2 as int, from2 as int) =~= Seq::<Update>::empty());
            }
            while j < to2
                invariant
                    from2 <= j <= to2 <= storage2@.len(),
                    a == storage1@[i as int],
                    key_of(a) == key,
                    val_of(a) == val1,
                    time1 == later(a.1, cap),
                    val2 == val_of(storage2@[from2 as int]),
                    forall|j: int|
                        from2 <= j < to2 ==> key_of(#[trigger] storage2@[j]) == key && val_of(
                            storage2@[j],
                        ) == val2,
                    not_before(buffer@, 0, cap),
                    buffer@.len() == row_start.len() + (j - from2),
                    row_start.len() == (i - from1) * (to2 - from2),
                    from1 <= i < to1 <= storage1@.len(),
                    key == key_of(storage1@[from1 as int]),
                    forall|n: int| from2 <= n < j ==> product_fits(a, #[trigger] storage2@[n]),
                    forall|d: Data, t: u64| #[trigger]
                        net(buffer@, d, t) == net(row_start, d, t) + row_net(
                            a,
                            storage2@.subrange(from2 as int, j as int),
                            cap,
                            d,
                            t,
                        ),
                decreases to2 - j,
            {
                let b = storage2.facts[j];
                let time = if b.1 >= time1 {
                    b.1
                } else {
                    time1
                };
                let diff = match a.2.checked_mul(b.2) {
                    Some(diff) => diff,
                    None => {
                        proof {
                            assert(key_of(storage1@[i as int]) == key_of(storage2@[j as int]));
                            assert(!product_fits(storage1@[i as int], storage2@[j as int]));
                        }
                        return Err(JoinError::DiffOverflow);
                    },
                };
                let update: Update = ((key, val1, val2), time, diff);
                let ghost before = buffer@;
                buffer.push(update);
                proof {
                    let done = storage2@.subrange(from2 as int, j as int);
                    let next = storage2@.subrange(from2 as int, j + 1);
                    assert(next.drop_last() =~= done);
                    assert(next.last() == b);
                    assert(key_of(b) == key && val_of(b) == val2);
                    assert forall|d: Data, t: u64| #[trigger]
                        net(buffer@, d, t) == net(row_start, d, t) + row_net(a, next, cap, d, t) by {
                        lemma_net_push(before, update, d, t);
                        assert(update_net(update, d, t) == pair_net(a, b, cap, d, t));
                    }
                    assert forall|k: int| 0 <= k < buffer@.len() implies (#[trigger] buffer@[k]).1
                        >= cap by {
                        if k < before.len() {
                            assert(buffer@[k] == before[k]);
                        }
                    }
                }
                j = j + 1;
            }
            proof {
                let done = storage1@.subrange(from1 as int, i as int);
                let next = storage1@.subrange(from1 as int, i + 1);
                assert(next.drop_last() =~= done);
                assert(next.last() == a);
                assert(storage2@.subrange(from2 as int, to2 as int) == run2);
                assert((i + 1 - from1) * (to2 - from2) == (i - from1) * (to2 - from2) + (to2
                    - from2)) by (nonlinear_arith);
            }
            i = i + 1;
        }
        if checked_weight(&buffer).is_some() {
            let ghost gathered = buffer@;
            consolidate_updates(&mut buffer);
            proof {
                lemma_consolidated_data(gathered, buffer@);
                assert forall|k: int| 0 <= k < buffer@.len() implies (#[trigger] buffer@[k]).1
                    >= cap by {
                    assert(occurs(gathered, buffer@[k].0, buffer@[k].1));
                }
            }
        }
        Ok(buffer)
    }

    /// Joins keys until `yield_fn` asks for a pause or the work is done.
    /// The outputs go to `output`; `work` counts them. `yield_fn` is asked
    /// after every value of the first side has met one value of the second.
    ///
    /// Whatever `yield_fn` answers, what is emitted and what is still owed
    /// add up to what was owed before, every output is at the capability's
    /// time or later, and when the work is done nothing is owed. An error
    /// ends the work.
    pub fn work<F>(&mut self, output: &mut Vec<Update>, yield_fn: &F, work: &mut usize) -> (r:
        Result<(), JoinError>) where F: Fn(usize) -> bool
        requires
            old(self).wf(),
            !old(self).done,
            forall|w: usize| #[trigger] call_requires(*yield_fn, (w,)),
        ensures
            final(self).storage1 == old(self).storage1,
            final(self).storage2 == old(self).storage2,
            final(self).capability == old(self).capability,
            progress(final(output)@, old(output)@, old(self).capability),
            r is Ok ==> final(self).wf(),
            r is Ok ==> forall|d: Data, t: u64| #[trigger]
                net(final(output)@, d, t) + final(self).pending(d, t) == net(old(output)@, d, t)
                    + old(self).pending(d, t),
            r is Ok && final(self).done ==> forall|d: Data, t: u64| #[trigger]
                final(self).pending(d, t) == 0,
            // Work that is left undone has moved on: the first cursor to a
            // later value, or the second within the key.
            r is Ok && !final(self).done ==> final(self).cursor1.val_pos > old(self).cursor1.val_pos
                || (final(self).cursor1.val_pos == old(self).cursor1.val_pos && final(self).cursor2.val_pos > old(self).cursor2.val_pos),
            r is Ok ==> final(self).cursor1.val_pos >= old(self).cursor1.val_pos
                && final(self).cursor2.key_pos >= old(self).cursor2.key_pos,
            // The work fails only for a product that is no difference.
            r matches Err(e) ==> e == JoinError::DiffOverflow && !old(self).fits(),
            // The work is left undone only where a pause was asked for at
            // the count as it then stands: with a `yield_fn` that never
            // asks, one call does it all.
            r is Ok && !final(self).done ==> call_ensures(*yield_fn, (*final(work),), true),
            // Where `yield_fn` refuses a pause only below a count `n`, and no
            // value of the first side gives more than `s` outputs with one
            // value of the second, the count covers what was emitted, and
            // that is at most `s` beyond `n`.
            r is Ok ==> forall|n: int, s: int| #[trigger]
                well_paced(
                    *yield_fn,
                    old(self).storage1@,
                    old(self).storage2@,
                    *old(work) as int,
                    n,
                    s,
                ) ==> at_rest(
                    *final(work) as int,
                    *old(work) as int,
                    final(output)@.len() - old(output)@.len(),
                    n,
                    s,
                ),
    {
        let ghost all1 = self.storage1@;
        let ghost all2 = self.storage2@;
        let ghost work0 = *work as int;
        let ghost output0 = output@;
        let cap = self.capability;
        if self.cursor2.val_pos != self.cursor2.key_pos {
            match self.resume(output, yield_fn, work) {
                Ok(true) => {},
                Ok(false) => {
                    proof {
                        assert forall|n: int, s: int| #[trigger]
                            well_paced(*yield_fn, all1, all2, work0, n, s) implies at_rest(
                            *work as int,
                            work0,
                            output@.len() - output0.len(),
                            n,
                            s,
                        ) by {
                            assert(paced(*yield_fn, all1, all2, work0, n, s));
                        }
                    }
                    return Ok(());
                },
                Err(e) => {
                    return Err(e);
                },
            }
        } else {
            proof {
                assert(output@.take(output0.len() as int) =~= output0);
            }
        }
        let ghost mid = *self;
        let ghost count1 = *work as int;
        let ghost output1 = output@;
        let r = self.work_at_key(output, yield_fn, work);
        proof {
            lemma_progress_step(output0, output1, output@, cap);
            if r is Ok {
                assert forall|n: int, s: int| #[trigger]
                    well_paced(*yield_fn, all1, all2, work0, n, s) implies at_rest(
                    *work as int,
                    work0,
                    output@.len() - output0.len(),
                    n,
                    s,
                ) by {
                    assert(paced(*yield_fn, all1, all2, work0, n, s));
                    assert(in_pace(count1, work0, output1.len() - output0.len(), 0, n));
                    assert(paced(*yield_fn, all1, all2, count1, n, s));
                    assert(at_rest(*work as int, count1, output@.len() - output1.len(), n, s));
                }
            }
        }
        r
    }

    /// Takes up the value of the first side that is joined with a part of
    /// the values of its key on the second side, and joins it with the
    /// rest of them, until they are through or a pause is asked for. Says
    /// whether they are through and the work goes on.
    fn resume<F>(&mut self, output: &mut Vec<Update>, yield_fn: &F, work: &mut usize) -> (r:
        Result<bool, JoinError>) where F: Fn(usize) -> bool
        requires
            old(self).wf(),
            old(self).cursor2.val_pos != old(self).cursor2.key_pos,
            !old(self).done,
            forall|w: usize| #[trigger] call_requires(*yield_fn, (w,)),
        ensures
            final(self).storage1 == old(self).storage1,
            final(self).storage2 == old(self).storage2,
            final(self).capability == old(self).capability,
            !final(self).done,
            progress(final(output)@, old(output)@, old(self).capability),
            r is Ok ==> final(self).wf(),
            r is Ok ==> forall|d: Data, t: u64| #[trigger]
                net(final(output)@, d, t) + final(self).pending(d, t) == net(old(output)@, d, t)
                    + old(self).pending(d, t),
            final(self).cursor2.key_pos == old(self).cursor2.key_pos,
            r is Ok ==> final(self).cursor1.val_pos >= old(self).cursor1.val_pos,
            r == Ok::<bool, JoinError>(true) ==> final(self).cursor2.val_pos == final(self).cursor2.key_pos && final(self).cursor1.val_pos > old(self).cursor1.val_pos,
            r == Ok::<bool, JoinError>(false) ==> final(self).cursor1.val_pos > old(self).cursor1.val_pos || (final(self).cursor1.val_pos == old(self).cursor1.val_pos
                && final(self).cursor2.val_pos > old(self).cursor2.val_pos),
            r matches Err(e) ==> e == JoinError::DiffOverflow && !old(self).fits(),
            r == Ok::<bool, JoinError>(false) ==> call_ensures(*yield_fn, (*final(work),), true),
            r == Ok::<bool, JoinError>(true) ==> forall|n: int, s: int| #[trigger]
                paced(
                    *yield_fn,
                    old(self).storage1@,
                    old(self).storage2@,
                    *old(work) as int,
                    n,
                    s,
                ) ==> in_pace(
                    *final(work) as int,
                    *old(work) as int,
                    final(output)@.len() - old(output)@.len(),
                    0,
                    n,
                ),
            r == Ok::<bool, JoinError>(false) ==> forall|n: int, s: int| #[trigger]
                paced(
                    *yield_fn,
                    old(self).storage1@,
                    old(self).storage2@,
                    *old(work) as int,
                    n,
                    s,
                ) ==> at_rest(
                    *final(work) as int,
                    *old(work) as int,
                    final(output)@.len() - old(output)@.len(),
                    n,
                    s,
                ),
    {
        let cap = self.capability;
        let ghost all1 = self.storage1@;
        let ghost all2 = self.storage2@;
        let ghost start_output = output@;
        let ghost work0 = *work as int;
        let ghost kp1 = self.cursor1.key_pos as int;
        let ghost kp2 = self.cursor2.key_pos as int;
        let ghost ke2 = key_end(all2, kp2);
        let ghost from1 = self.cursor1.val_pos as int;
        let ghost to1 = val_end(all1, from1);
        let ghost first2 = self.cursor2.val_pos as int;
        let ghost run1 = all1.subrange(from1, to1);
        let ghost before_rest1 = self.rest1();
        let ghost before_rest2 = self.rest2();
        let ghost joined = all2.subrange(kp2, first2);
        proof {
            assert(output@.take(start_output.len() as int) =~= start_output);
            lemma_key_end(all2, kp2);
            lemma_key_end(all1, kp1);
            lemma_val_end(all1, from1);
            lemma_key_end(all1, from1);
            assert(key_of(all2[first2]) == key_of(all2[kp2]));
            assert(self.temp@ =~= Seq::<Update>::empty());
        }
        match self.join_value_paced(
            output,
            yield_fn,
            work,
            Ghost(ke2),
            Ghost(start_output),
            Ghost(work0),
        ) {
            Ok(true) => {},
            Ok(false) => {
                proof {
                    let now = self.cursor2.val_pos as int;
                    let more = all2.subrange(first2, now);
                    assert(self.temp@ =~= Seq::<Update>::empty());
                    assert(all2.subrange(kp2, now) =~= joined + more);
                    assert forall|d: Data, t: u64| #[trigger]
                        net(output@, d, t) + self.pending(d, t) == net(start_output, d, t) + old(self).pending(d, t) by {
                        lemma_join_net_concat_right(run1, joined, more, cap, d, t);
                        assert(net(self.temp@, d, t) == 0);
                        assert(net(old(self).temp@, d, t) == 0);
                    }
                }
                return Ok(false);
            },
            Err(e) => {
                proof {
                    if old(self).fits() {
                        assert(range_fits(all1, from1, to1, all2, first2, ke2));
                    }
                }
                return Err(e);
            },
        }
        let ghost done_output = output@;
        let ghost done_temp = self.temp@;
        let ghost count_done = *work as int;
        self.cursor1.step_val(&self.storage1);
        self.cursor2.rewind_vals(&self.storage2);
        *work = work.saturating_add(self.temp.len());
        proof {
            assert forall|n: int, s: int| #[trigger]
                paced(*yield_fn, all1, all2, work0, n, s) implies *work == count_done
                + done_temp.len() by {
                assert(stepped(
                    count_done,
                    work0,
                    done_output.len() - start_output.len(),
                    done_temp.len() as int,
                    n,
                    s,
                ));
            }
        }
        let ghost count_polled = *work as int;
        let recovered = Deferred::flush(&mut self.temp, output);
        *work = work.saturating_sub(recovered);
        proof {
            lemma_progress_step(start_output, done_output, output@, cap);
            // The value is joined with all of its key on the second side;
            // the rest of the second side has greater keys.
            let key_run2 = all2.subrange(kp2, ke2);
            let rest_run2 = all2.subrange(first2, ke2);
            let beyond = all2.skip(ke2);
            assert(self.temp@ =~= Seq::<Update>::empty());
            assert(key_run2 =~= joined + rest_run2);
            assert(self.rest2() == before_rest2);
            assert(before_rest2 =~= key_run2 + beyond);
            assert(before_rest1 =~= run1 + self.rest1());
            assert(key_of(all1[from1]) == key_of(all1[kp1]));
            assert forall|i: int, j: int|
                0 <= i < run1.len() && 0 <= j < beyond.len() implies key_of(#[trigger] run1[i])
                != key_of(#[trigger] beyond[j]) by {
                assert(run1[i] == all1[from1 + i]);
                assert(beyond[j] == all2[ke2 + j]);
                assert(key_of(all1[from1 + i]) == key_of(all1[from1]));
                assert(key_of(all2[ke2 + j]) > key_of(all2[kp2]));
            }
            assert forall|d: Data, t: u64| #[trigger]
                net(output@, d, t) + self.pending(d, t) == net(start_output, d, t) + old(self).pending(d, t) by {
                lemma_join_net_concat_left(run1, self.rest1(), before_rest2, cap, d, t);
                lemma_join_net_concat_right(run1, key_run2, beyond, cap, d, t);
                lemma_join_net_disjoint(run1, beyond, cap, d, t);
                lemma_join_net_concat_right(run1, joined, rest_run2, cap, d, t);
                assert(net(self.temp@, d, t) == 0);
                assert(net(old(self).temp@, d, t) == 0);
                assert(net(done_output, d, t) + net(done_temp, d, t) == net(start_output, d, t)
                    + join_net(run1, rest_run2, cap, d, t));
                assert(net(output@, d, t) == net(done_output, d, t) + net(done_temp, d, t));
            }
            assert forall|n: int, s: int| #[trigger]
                paced(*yield_fn, all1, all2, work0, n, s) implies at_rest(
                *work as int,
                work0,
                output@.len() - start_output.len(),
                n,
                s,
            ) by {
                assert(stepped(
                    count_done,
                    work0,
                    done_output.len() - start_output.len(),
                    done_temp.len() as int,
                    n,
                    s,
                ));
                assert(count_polled == count_done + done_temp.len());
            }
        }
        if yield_fn(*work) {
            return Ok(false);
        }
        proof {
            assert forall|n: int, s: int| #[trigger]
                paced(*yield_fn, all1, all2, work0, n, s) implies in_pace(
                *work as int,
                work0,
                output@.len() - start_output.len(),
                0,
                n,
            ) by {
                assert(at_rest(*work as int, work0, output@.len() - start_output.len(), n, s));
                assert(call_ensures(*yield_fn, (*work,), false));
            }
        }
        Ok(true)
    }

    /// Joins keys, from where the second cursor stands at the first value
    /// of its key, until `yield_fn` asks for a pause or the work is done.
    fn work_at_key<F>(&mut self, output: &mut Vec<Update>, yield_fn: &F, work: &mut usize) -> (r:
        Result<(), JoinError>) where F: Fn(usize) -> bool
        requires
            old(self).wf(),
            old(self).cursor2.val_pos == old(self).cursor2.key_pos,
            !old(self).done,
            forall|w: usize| #[trigger] call_requires(*yield_fn, (w,)),
        ensures
            final(self).storage1 == old(self).storage1,
            final(self).storage2 == old(self).storage2,
            final(self).capability == old(self).capability,
            progress(final(output)@, old(output)@, old(self).capability),
            r is Ok ==> final(self).wf(),
            r is Ok ==> forall|d: Data, t: u64| #[trigger]
                net(final(output)@, d, t) + final(self).pending(d, t) == net(old(output)@, d, t)
                    + old(self).pending(d, t),
            r is Ok && final(self).done ==> forall|d: Data, t: u64| #[trigger]
                final(self).pending(d, t) == 0,
            r is Ok && !final(self).done ==> final(self).cursor1.val_pos > old(self).cursor1.val_pos
                || final(self).cursor2.val_pos > final(self).cursor2.key_pos,
            r is Ok ==> final(self).cursor1.val_pos >= old(self).cursor1.val_pos
                && final(self).cursor2.key_pos >= old(self).cursor2.key_pos,
            r matches Err(e) ==> e == JoinError::DiffOverflow && !old(self).fits(),
            r is Ok && !final(self).done ==> call_ensures(*yield_fn, (*final(work),), true),
            r is Ok ==> forall|n: int, s: int| #[trigger]
                paced(
                    *yield_fn,
                    old(self).storage1@,
                    old(self).storage2@,
                    *old(work) as int,
                    n,
                    s,
                ) ==> at_rest(
                    *final(work) as int,
                    *old(work) as int,
                    final(output)@.len() - old(output)@.len(),
                    n,
                    s,
                ),
    {
        let cap = self.capability;
        let ghost all1 = self.storage1@;
        let ghost all2 = self.storage2@;
        let ghost start_output = output@;
        let ghost start1 = self.rest1();
        let ghost start2 = self.rest2();
        let ghost work0 = *work as int;
        proof {
            assert(output@.take(start_output.len() as int) =~= start_output);
        }
        while self.cursor1.key_valid(&self.storage1) && self.cursor2.key_valid(&self.storage2)
            invariant
                self.storage1@ == all1,
                self.storage2@ == all2,
                self.storage1 == old(self).storage1,
                self.storage2 == old(self).storage2,
                self.capability == cap,
                cap == old(self).capability,
                !self.done,
                start_output == old(output)@,
                start1 == old(self).rest1(),
                start2 == old(self).rest2(),
                old(self).cursor2.val_pos == old(self).cursor2.key_pos,
                sorted(all1),
                sorted(all2),
                self.cursor1.wf(all1),
                self.cursor2.wf(all2),
                self.cursor2.val_pos == self.cursor2.key_pos,
                self.cursor1.val_pos >= old(self).cursor1.val_pos,
                self.cursor2.key_pos >= old(self).cursor2.key_pos,
                all1 == old(self).storage1@,
                all2 == old(self).storage2@,
                forall|w: usize| #[trigger] call_requires(*yield_fn, (w,)),
                progress(output@, start_output, cap),
                not_before(self.temp@, 0, cap),
                work0 == *old(work),
                start_output.len() <= output@.len(),
                forall|n: int, s: int| #[trigger]
                    paced(*yield_fn, all1, all2, work0, n, s) ==> in_pace(
                        *work as int,
                        work0,
                        output@.len() - start_output.len(),
                        self.temp@.len() as int,
                        n,
                    ),
                forall|d: Data, t: u64| #[trigger]
                    accounted(output@, self.temp@, self.rest1(), self.rest2(), cap, d, t)
                        == accounted(start_output, Seq::<Update>::empty(), start1, start2, cap, d, t),
            decreases all1.len() - self.cursor1.key_pos + all2.len() - self.cursor2.key_pos,
        {
            let key1 = self.cursor1.key(&self.storage1);
            let key2 = self.cursor2.key(&self.storage2);
            let ghost vp1 = self.cursor1.val_pos as int;
            let ghost kp1 = self.cursor1.key_pos as int;
            let ghost kp2 = self.cursor2.key_pos as int;
            let ghost rest1 = self.rest1();
            let ghost rest2 = self.rest2();
            proof {
                lemma_key_end(all1, kp1);
                lemma_key_end(all2, kp2);
            }
            if key1 < key2 {
                self.cursor1.seek_key(&self.storage1, key2);
                proof {
                    let to = self.cursor1.key_pos as int;
                    // The keys that are passed over are below every key of
                    // the other side that is left.
                    assert(to >= key_end(all1, kp1)) by {
                        if to < key_end(all1, kp1) {
                            assert(key_of(all1[to]) == key_of(all1[kp1]));
                        }
                    }
                    let passed = all1.subrange(vp1, to);
                    assert(rest1 =~= passed + self.rest1());
                    assert forall|i: int, j: int|
                        0 <= i < passed.len() && 0 <= j < rest2.len() implies key_of(
                        #[trigger] passed[i],
                    ) != key_of(#[trigger] rest2[j]) by {
                        assert(passed[i] == all1[vp1 + i]);
                        assert(rest2[j] == all2[kp2 + j]);
                        lemma_sorted_keys(all2, kp2, kp2 + j);
                        if vp1 + i < key_end(all1, kp1) {
                            assert(key_of(all1[vp1 + i]) == key_of(all1[kp1]));
                        } else {
                            assert(key_of(all1[vp1 + i]) < key2);
                        }
                    }
                    assert forall|d: Data, t: u64| #[trigger]
                        accounted(output@, self.temp@, self.rest1(), self.rest2(), cap, d, t)
                            == accounted(
                            start_output,
                            Seq::<Update>::empty(),
                            start1,
                            start2,
                            cap,
                            d,
                            t,
                        ) by {
                        lemma_join_net_concat_left(passed, self.rest1(), rest2, cap, d, t);
                        lemma_join_net_disjoint(passed, rest2, cap, d, t);
                        assert(accounted(output@, self.temp@, rest1, rest2, cap, d, t)
                            == accounted(
                            start_output,
                            Seq::<Update>::empty(),
                            start1,
                            start2,
                            cap,
                            d,
                            t,
                        ));
                    }
                }
            } else if key1 > key2 {
                self.cursor2.seek_key(&self.storage2, key1);
                proof {
                    let to = self.cursor2.key_pos as int;
                    let passed = all2.subrange(kp2, to);
                    assert(rest2 =~= passed + self.rest2());
                    assert forall|i: int, j: int|
                        0 <= i < rest1.len() && 0 <= j < passed.len() implies key_of(
                        #[trigger] rest1[i],
                    ) != key_of(#[trigger] passed[j]) by {
                        assert(passed[j] == all2[kp2 + j]);
                        assert(rest1[i] == all1[vp1 + i]);
                        lemma_sorted_keys(all1, kp1, vp1 + i);
                    }
                    assert forall|d: Data, t: u64| #[trigger]
                        accounted(output@, self.temp@, self.rest1(), self.rest2(), cap, d, t)
                            == accounted(
                            start_output,
                            Seq::<Update>::empty(),
                            start1,
                            start2,
                            cap,
                            d,
                            t,
                        ) by {
                        lemma_join_net_concat_right(rest1, passed, self.rest2(), cap, d, t);
                        lemma_join_net_disjoint(rest1, passed, cap, d, t);
                        assert(accounted(output@, self.temp@, rest1, rest2, cap, d, t)
                            == accounted(
                            start_output,
                            Seq::<Update>::empty(),
                            start1,
                            start2,
                            cap,
                            d,
                            t,
                        ));
                    }
                }
            } else {
                match self.join_key(
                    output,
                    yield_fn,
                    work,
                    Ghost(start_output),
                    Ghost(start1),
                    Ghost(start2),
                    Ghost(work0),
                ) {
                    Ok(true) => {},
                    Ok(false) => {
                        proof {
                            assert forall|d: Data, t: u64| #[trigger]
                                net(output@, d, t) + self.pending(d, t) == net(old(output)@, d, t)
                                    + old(self).pending(d, t) by {
                                assert(net(output@, d, t) + self.pending(d, t) == accounted(
                                    start_output,
                                    Seq::<Update>::empty(),
                                    start1,
                                    start2,
                                    cap,
                                    d,
                                    t,
                                ));
                                assert(net(Seq::<Update>::empty(), d, t) == 0);
                                assert(old(self).pending(d, t) == join_net(
                                    start1,
                                    start2,
                                    cap,
                                    d,
                                    t,
                                ));
                                assert(start_output == old(output)@);
                            }
                        }
                        return Ok(());
                    },
                    Err(e) => {
                        return Err(e);
                    },
                }
            }
        }
        let ghost before_flush = output@;
        let ghost flushed = self.temp@;
        let ghost r1 = self.rest1();
        let ghost r2 = self.rest2();
        proof {
            assert forall|d: Data, t: u64| #[trigger]
                accounted(before_flush, flushed, r1, r2, cap, d, t) == accounted(
                    start_output,
                    Seq::<Update>::empty(),
                    start1,
                    start2,
                    cap,
                    d,
                    t,
                ) by {
                assert(accounted(output@, self.temp@, self.rest1(), self.rest2(), cap, d, t)
                    == accounted(
                    start_output,
                    Seq::<Update>::empty(),
                    start1,
                    start2,
                    cap,
                    d,
                    t,
                ));
            }
        }
        let ghost count_before = *work as int;
        if self.temp.len() > 0 {
            let recovered = Deferred::flush(&mut self.temp, output);
            *work = work.saturating_sub(recovered);
            proof {
                lemma_progress_step(start_output, before_flush, output@, cap);
            }
        }
        proof {
            assert forall|n: int, s: int| #[trigger]
                paced(*yield_fn, all1, all2, work0, n, s) implies at_rest(
                *work as int,
                work0,
                output@.len() - start_output.len(),
                n,
                s,
            ) by {
                assert(in_pace(
                    count_before,
                    work0,
                    before_flush.len() - start_output.len(),
                    flushed.len() as int,
                    n,
                ));
            }
        }
        // All keys were walked.
        self.done = true;
        proof {
            assert forall|d: Data, t: u64| #[trigger] self.pending(d, t) == 0 by {
                if self.cursor1.key_pos >= all1.len() {
                    assert(self.rest1() =~= Seq::<Update>::empty());
                } else {
                    assert(self.rest2() =~= Seq::<Update>::empty());
                    lemma_join_net_empty_right(self.rest1(), cap, d, t);
                }
            }
            assert forall|d: Data, t: u64| #[trigger]
                net(output@, d, t) + self.pending(d, t) == net(old(output)@, d, t) + old(self).pending(d, t) by {
                assert(accounted(before_flush, flushed, r1, r2, cap, d, t) == accounted(
                    start_output,
                    Seq::<Update>::empty(),
                    start1,
                    start2,
                    cap,
                    d,
                    t,
                ));
                assert(self.rest1() == r1 && self.rest2() == r2);
            }
        }
        Ok(())
    }

    /// Joins the key at which both cursors stand, value by value of the
    /// first side, until the key is done or a pause is asked for. Says
    /// whether the key is done; then both cursors stand at their next keys.
    fn join_key<F>(
        &mut self,
        output: &mut Vec<Update>,
        yield_fn: &F,
        work: &mut usize,
        Ghost(start_output): Ghost<Seq<Update>>,
        Ghost(start1): Ghost<Seq<Update>>,
        Ghost(start2): Ghost<Seq<Update>>,
        Ghost(work0): Ghost<int>,
    ) -> (r: Result<bool, JoinError>) where F: Fn(usize) -> bool
        requires
            start_output.len() <= old(output)@.len(),
            forall|n: int, s: int| #[trigger]
                paced(*yield_fn, old(self).storage1@, old(self).storage2@, work0, n, s) ==> in_pace(
                    *old(work) as int,
                    work0,
                    old(output)@.len() - start_output.len(),
                    old(self).temp@.len() as int,
                    n,
                ),
            sorted(old(self).storage1@),
            sorted(old(self).storage2@),
            old(self).cursor1.wf(old(self).storage1@),
            old(self).cursor2.wf(old(self).storage2@),
            old(self).cursor1.key_pos < old(self).storage1@.len(),
            old(self).cursor2.key_pos < old(self).storage2@.len(),
            old(self).cursor2.val_pos == old(self).cursor2.key_pos,
            key_of(old(self).storage1@[old(self).cursor1.key_pos as int]) == key_of(
                old(self).storage2@[old(self).cursor2.key_pos as int],
            ),
            !old(self).done,
            forall|w: usize| #[trigger] call_requires(*yield_fn, (w,)),
            progress(old(output)@, start_output, old(self).capability),
            not_before(old(self).temp@, 0, old(self).capability),
            forall|d: Data, t: u64| #[trigger]
                accounted(
                    old(output)@,
                    old(self).temp@,
                    old(self).rest1(),
                    old(self).rest2(),
                    old(self).capability,
                    d,
                    t,
                ) == accounted(
                    start_output,
                    Seq::<Update>::empty(),
                    start1,
                    start2,
                    old(self).capability,
                    d,
                    t,
                ),
        ensures
            final(self).storage1 == old(self).storage1,
            final(self).storage2 == old(self).storage2,
            final(self).capability == old(self).capability,
            !final(self).done,
            progress(final(output)@, start_output, old(self).capability),
            r is Ok ==> final(self).cursor1.wf(final(self).storage1@) && final(self).cursor2.wf(
                final(self).storage2@,
            ) && not_before(final(self).temp@, 0, old(self).capability),
            r == Ok::<bool, JoinError>(true) ==> final(self).cursor2.val_pos == final(self).cursor2.key_pos,
            r == Ok::<bool, JoinError>(false) ==> final(self).wf(),
            r == Ok::<bool, JoinError>(false) ==> forall|d: Data, t: u64| #[trigger]
                net(final(output)@, d, t) + final(self).pending(d, t) == accounted(
                    start_output,
                    Seq::<Update>::empty(),
                    start1,
                    start2,
                    old(self).capability,
                    d,
                    t,
                ),
            r == Ok::<bool, JoinError>(true) ==> forall|d: Data, t: u64| #[trigger]
                accounted(
                    final(output)@,
                    final(self).temp@,
                    final(self).rest1(),
                    final(self).rest2(),
                    old(self).capability,
                    d,
                    t,
                ) == accounted(
                    start_output,
                    Seq::<Update>::empty(),
                    start1,
                    start2,
                    old(self).capability,
                    d,
                    t,
                ),
            r == Ok::<bool, JoinError>(true) ==> final(self).cursor1.key_pos > old(self).cursor1.key_pos && final(self).cursor2.key_pos > old(self).cursor2.key_pos,
            r == Ok::<bool, JoinError>(false) ==> final(self).temp@.len() == 0 && (final(self).cursor1.val_pos > old(self).cursor1.val_pos || final(self).cursor2.val_pos > final(self).cursor2.key_pos),
            final(self).cursor1.val_pos >= old(self).cursor1.val_pos,
            r is Ok ==> final(self).cursor2.key_pos >= old(self).cursor2.key_pos,
            r matches Err(e) ==> e == JoinError::DiffOverflow && !old(self).fits(),
            r == Ok::<bool, JoinError>(false) ==> call_ensures(*yield_fn, (*final(work),), true),
            start_output.len() <= final(output)@.len(),
            r == Ok::<bool, JoinError>(true) ==> forall|n: int, s: int| #[trigger]
                paced(*yield_fn, old(self).storage1@, old(self).storage2@, work0, n, s) ==> in_pace(
                    *final(work) as int,
                    work0,
                    final(output)@.len() - start_output.len(),
                    final(self).temp@.len() as int,
                    n,
                ),
            r == Ok::<bool, JoinError>(false) ==> forall|n: int, s: int| #[trigger]
                paced(*yield_fn, old(self).storage1@, old(self).storage2@, work0, n, s) ==> at_rest(
                    *final(work) as int,
                    work0,
                    final(output)@.len() - start_output.len(),
                    n,
                    s,
                ),
    {
        let cap = self.capability;
        let ghost all1 = self.storage1@;
        let ghost all2 = self.storage2@;
        let ghost kp1 = self.cursor1.key_pos as int;
        let ghost kp2 = self.cursor2.key_pos as int;
        let ghost ke2 = key_end(all2, kp2);
        proof {
            lemma_key_end(all1, kp1);
            lemma_key_end(all2, kp2);
        }
        // Gather the outputs of the key, value by value of the first side,
        // until a pause is asked for.
        loop
            invariant
                self.storage1@ == all1,
                self.storage2@ == all2,
                self.storage1 == old(self).storage1,
                self.storage2 == old(self).storage2,
                self.capability == cap,
                cap == old(self).capability,
                !self.done,
                sorted(all1),
                sorted(all2),
                self.cursor1.wf(all1),
                self.cursor2.wf(all2),
                self.cursor1.key_pos == kp1 < all1.len(),
                self.cursor2.key_pos == kp2 < all2.len(),
                kp1 == old(self).cursor1.key_pos,
                kp2 == old(self).cursor2.key_pos,
                self.cursor2.val_pos == kp2,
                self.cursor1.val_pos >= old(self).cursor1.val_pos,
                key_of(all1[kp1]) == key_of(all2[kp2]),
                ke2 == key_end(all2, kp2),
                forall|w: usize| #[trigger] call_requires(*yield_fn, (w,)),
                progress(output@, start_output, cap),
                not_before(self.temp@, 0, cap),
                start_output.len() <= output@.len(),
                forall|n: int, s: int| #[trigger]
                    paced(*yield_fn, all1, all2, work0, n, s) ==> in_pace(
                        *work as int,
                        work0,
                        output@.len() - start_output.len(),
                        self.temp@.len() as int,
                        n,
                    ),
                forall|d: Data, t: u64| #[trigger]
                    accounted(output@, self.temp@, self.rest1(), self.rest2(), cap, d, t)
                        == accounted(start_output, Seq::<Update>::empty(), start1, start2, cap, d, t),
            ensures
                self.storage1@ == all1,
                self.storage2@ == all2,
                self.storage1 == old(self).storage1,
                self.storage2 == old(self).storage2,
                self.capability == cap,
                !self.done,
                self.cursor1.wf(all1),
                self.cursor2.wf(all2),
                self.cursor1.key_pos == kp1,
                self.cursor2.key_pos == kp2,
                self.cursor2.val_pos == kp2,
                self.cursor1.val_pos == key_end(all1, kp1),
                self.cursor1.val_pos >= old(self).cursor1.val_pos,
                progress(output@, start_output, cap),
                not_before(self.temp@, 0, cap),
                start_output.len() <= output@.len(),
                forall|n: int, s: int| #[trigger]
                    paced(*yield_fn, all1, all2, work0, n, s) ==> in_pace(
                        *work as int,
                        work0,
                        output@.len() - start_output.len(),
                        self.temp@.len() as int,
                        n,
                    ),
                forall|d: Data, t: u64| #[trigger]
                    accounted(output@, self.temp@, self.rest1(), self.rest2(), cap, d, t)
                        == accounted(start_output, Seq::<Update>::empty(), start1, start2, cap, d, t),
            decreases all1.len() - self.cursor1.val_pos,
        {
            proof {
                lemma_key_end(all1, kp1);
                lemma_key_end(all2, kp2);
            }
            let val1 = self.cursor1.get_val(&self.storage1);
            if val1.is_none() {
                proof {
                    // Behind the values of the key the cursor stands at the
                    // end of the key.
                    let at = self.cursor1.val_pos as int;
                    if at < key_end(all1, kp1) {
                        assert(key_of(all1[at]) == key_of(all1[kp1]));
                    }
                }
                break ;
            }
            let ghost before_rest1 = self.rest1();
            let ghost before_rest2 = self.rest2();
            let ghost before_output = output@;
            let ghost temp_start = self.temp@;
            let ghost from1 = self.cursor1.val_pos as int;
            let ghost to1 = val_end(all1, from1);
            let ghost run1 = all1.subrange(from1, to1);
            proof {
                lemma_val_end(all1, from1);
                lemma_key_end(all1, from1);
                assert forall|d: Data, t: u64| #[trigger]
                    accounted(before_output, temp_start, before_rest1, before_rest2, cap, d, t)
                        == accounted(
                        start_output,
                        Seq::<Update>::empty(),
                        start1,
                        start2,
                        cap,
                        d,
                        t,
                    ) by {
                    assert(accounted(output@, self.temp@, self.rest1(), self.rest2(), cap, d, t)
                        == accounted(
                        start_output,
                        Seq::<Update>::empty(),
                        start1,
                        start2,
                        cap,
                        d,
                        t,
                    ));
                }
            }
            match self.join_value_paced(
                output,
                yield_fn,
                work,
                Ghost(ke2),
                Ghost(start_output),
                Ghost(work0),
            ) {
                Ok(true) => {},
                Ok(false) => {
                    // The pause comes midway through the values of the
                    // second side: the second cursor keeps the place.
                    proof {
                        assert(self.temp@ =~= Seq::<Update>::empty());
                        assert(self.run1() == run1);
                        assert(self.rest1() == before_rest1);
                        assert(self.rest2() == before_rest2);
                        assert forall|d: Data, t: u64| #[trigger]
                            net(output@, d, t) + self.pending(d, t) == accounted(
                                start_output,
                                Seq::<Update>::empty(),
                                start1,
                                start2,
                                cap,
                                d,
                                t,
                            ) by {
                            assert(accounted(
                                before_output,
                                temp_start,
                                before_rest1,
                                before_rest2,
                                cap,
                                d,
                                t,
                            ) == accounted(
                                start_output,
                                Seq::<Update>::empty(),
                                start1,
                                start2,
                                cap,
                                d,
                                t,
                            ));
                            assert(net(self.temp@, d, t) == 0);
                        }
                    }
                    return Ok(false);
                },
                Err(e) => {
                    let ghost before_flush = output@;
                    let _ = Deferred::flush(&mut self.temp, output);
                    proof {
                        lemma_progress_step(start_output, before_flush, output@, cap);
                    }
                    return Err(e);
                },
            }
            self.cursor1.step_val(&self.storage1);
            self.cursor2.rewind_vals(&self.storage2);
            proof {
                // The values of the first side that were joined with the
                // key of the second side are joined with all of it: the
                // rest of the second side has greater keys.
                lemma_val_end(all1, from1);
                lemma_key_end(all1, from1);
                lemma_key_end(all2, kp2);
                let key_run2 = all2.subrange(kp2, ke2);
                let beyond = all2.skip(ke2);
                assert(self.rest2() == before_rest2);
                assert(self.rest2() =~= key_run2 + beyond);
                assert(before_rest1 =~= run1 + self.rest1());
                assert(key_of(all1[from1]) == key_of(all1[kp1]));
                assert forall|i: int, j: int|
                    0 <= i < run1.len() && 0 <= j < beyond.len() implies key_of(
                    #[trigger] run1[i],
                ) != key_of(#[trigger] beyond[j]) by {
                    assert(run1[i] == all1[from1 + i]);
                    assert(beyond[j] == all2[ke2 + j]);
                    assert(key_of(all1[from1 + i]) == key_of(all1[from1]));
                    assert(key_of(all2[ke2 + j]) > key_of(all2[kp2]));
                }
                assert forall|d: Data, t: u64| #[trigger]
                    accounted(output@, self.temp@, self.rest1(), self.rest2(), cap, d, t)
                        == accounted(
                        start_output,
                        Seq::<Update>::empty(),
                        start1,
                        start2,
                        cap,
                        d,
                        t,
                    ) by {
                    lemma_join_net_concat_left(run1, self.rest1(), self.rest2(), cap, d, t);
                    lemma_join_net_concat_right(run1, key_run2, beyond, cap, d, t);
                    lemma_join_net_disjoint(run1, beyond, cap, d, t);
                    assert(accounted(
                        before_output,
                        temp_start,
                        before_rest1,
                        before_rest2,
                        cap,
                        d,
                        t,
                    ) == accounted(
                        start_output,
                        Seq::<Update>::empty(),
                        start1,
                        start2,
                        cap,
                        d,
                        t,
                    ));
                }
            }
            let ghost count_head = *work as int;
            let ghost gathered_head = self.temp@.len() as int;
            let ghost emitted_head = output@.len() - start_output.len();
            *work = work.saturating_add(self.temp.len());
            proof {
                assert forall|n: int, s: int| #[trigger]
                    paced(*yield_fn, all1, all2, work0, n, s) implies *work == count_head
                    + gathered_head by {
                    assert(stepped(count_head, work0, emitted_head, gathered_head, n, s));
                }
            }
            let ghost count_polled = *work as int;
            let ghost gathered_polled = self.temp@.len() as int;
            if yield_fn(*work) {
                // Pausing here is in order, because the cursors are left
                // where the next slice can take the work up.
                let ghost before_flush = output@;
                let ghost flushed = self.temp@;
                let ghost r1 = self.rest1();
                let ghost r2 = self.rest2();
                proof {
                    assert forall|d: Data, t: u64| #[trigger]
                        accounted(before_flush, flushed, r1, r2, cap, d, t) == accounted(
                            start_output,
                            Seq::<Update>::empty(),
                            start1,
                            start2,
                            cap,
                            d,
                            t,
                        ) by {
                        assert(accounted(
                            output@,
                            self.temp@,
                            self.rest1(),
                            self.rest2(),
                            cap,
                            d,
                            t,
                        ) == accounted(
                            start_output,
                            Seq::<Update>::empty(),
                            start1,
                            start2,
                            cap,
                            d,
                            t,
                        ));
                    }
                }
                let recovered = Deferred::flush(&mut self.temp, output);
                *work = *work - recovered;
                proof {
                    assert forall|n: int, s: int| #[trigger]
                        paced(*yield_fn, all1, all2, work0, n, s) implies at_rest(
                        *work as int,
                        work0,
                        output@.len() - start_output.len(),
                        n,
                        s,
                    ) by {
                        assert(stepped(count_head, work0, emitted_head, gathered_head, n, s));
                        assert(count_polled == count_head + gathered_polled);
                    }
                    lemma_progress_step(start_output, before_flush, output@, cap);
                    assert forall|d: Data, t: u64| #[trigger]
                        accounted(output@, self.temp@, self.rest1(), self.rest2(), cap, d, t)
                            == accounted(
                            start_output,
                            Seq::<Update>::empty(),
                            start1,
                            start2,
                            cap,
                            d,
                            t,
                        ) by {
                        assert(accounted(
                            before_flush,
                            flushed,
                            r1,
                            r2,
                            cap,
                            d,
                            t,
                        ) == accounted(
                            start_output,
                            Seq::<Update>::empty(),
                            start1,
                            start2,
                            cap,
                            d,
                            t,
                        ));
                        assert(net(self.temp@, d, t) == 0);
                    }
                }
                if yield_fn(*work) {
                    proof {
                        assert(self.temp@ =~= Seq::<Update>::empty());
                        assert forall|d: Data, t: u64| #[trigger]
                            net(output@, d, t) + self.pending(d, t) == accounted(
                                start_output,
                                Seq::<Update>::empty(),
                                start1,
                                start2,
                                cap,
                                d,
                                t,
                            ) by {
                            assert(accounted(
                                output@,
                                self.temp@,
                                self.rest1(),
                                self.rest2(),
                                cap,
                                d,
                                t,
                            ) == accounted(
                                start_output,
                                Seq::<Update>::empty(),
                                start1,
                                start2,
                                cap,
                                d,
                                t,
                            ));
                            assert(net(self.temp@, d, t) == 0);
                        }
                    }
                    return Ok(false);
                }
                proof {
                    assert forall|n: int, s: int| #[trigger]
                        paced(*yield_fn, all1, all2, work0, n, s) implies in_pace(
                        *work as int,
                        work0,
                        output@.len() - start_output.len(),
                        self.temp@.len() as int,
                        n,
                    ) by {
                        assert(at_rest(
                            *work as int,
                            work0,
                            output@.len() - start_output.len(),
                            n,
                            s,
                        ));
                        assert(call_ensures(*yield_fn, (*work,), false));
                    }
                }
            } else {
                proof {
                    assert forall|n: int, s: int| #[trigger]
                        paced(*yield_fn, all1, all2, work0, n, s) implies in_pace(
                        *work as int,
                        work0,
                        output@.len() - start_output.len(),
                        self.temp@.len() as int,
                        n,
                    ) by {
                        assert(stepped(count_head, work0, emitted_head, gathered_head, n, s));
                        assert(count_polled == count_head + gathered_polled);
                        assert(call_ensures(*yield_fn, (*work,), false));
                    }
                }
            }
        }
        let ghost loop_output = output@;
        let ghost loop_temp = self.temp@;
        let ghost loop_rest1 = self.rest1();
        let ghost loop_rest2 = self.rest2();
        proof {
            assert forall|d: Data, t: u64| #[trigger]
                accounted(loop_output, loop_temp, loop_rest1, loop_rest2, cap, d, t) == accounted(
                    start_output,
                    Seq::<Update>::empty(),
                    start1,
                    start2,
                    cap,
                    d,
                    t,
                ) by {
                assert(accounted(output@, self.temp@, self.rest1(), self.rest2(), cap, d, t)
                    == accounted(
                    start_output,
                    Seq::<Update>::empty(),
                    start1,
                    start2,
                    cap,
                    d,
                    t,
                ));
            }
            lemma_key_end(all1, kp1);
            lemma_key_end(all2, kp2);
        }
        self.cursor1.step_key(&self.storage1);
        self.cursor2.step_key(&self.storage2);
        proof {
            // The key of the second side is behind; what is left of the
            // first side has greater keys.
            let key_run2 = all2.subrange(kp2, ke2);
            let rest1_now = self.rest1();
            assert(rest1_now == loop_rest1);
            assert(all2.skip(kp2) == loop_rest2);
            assert(all2.skip(kp2) =~= key_run2 + self.rest2());
            assert forall|i: int, j: int|
                0 <= i < rest1_now.len() && 0 <= j < key_run2.len() implies key_of(
                #[trigger] rest1_now[i],
            ) != key_of(#[trigger] key_run2[j]) by {
                assert(rest1_now[i] == all1[key_end(all1, kp1) + i]);
                assert(key_run2[j] == all2[kp2 + j]);
            }
            assert forall|d: Data, t: u64| #[trigger]
                accounted(output@, self.temp@, self.rest1(), self.rest2(), cap, d, t)
                    == accounted(start_output, Seq::<Update>::empty(), start1, start2, cap, d, t) by {
                lemma_join_net_concat_right(rest1_now, key_run2, self.rest2(), cap, d, t);
                lemma_join_net_disjoint(rest1_now, key_run2, cap, d, t);
                assert(accounted(loop_output, loop_temp, loop_rest1, loop_rest2, cap, d, t)
                    == accounted(
                    start_output,
                    Seq::<Update>::empty(),
                    start1,
                    start2,
                    cap,
                    d,
                    t,
                ));
            }
        }
        Ok(true)
    }

    /// Joins the value at which the first cursor stands with the value at
    /// which the second cursor stands, gathers the outputs, and moves the
    /// second cursor to the next value.
    fn join_pair(&mut self, Ghost(ke2): Ghost<int>) -> (r: Result<(), JoinError>)
        requires
            sorted(old(self).storage1@),
            sorted(old(self).storage2@),
            old(self).cursor1.wf(old(self).storage1@),
            old(self).cursor2.wf(old(self).storage2@),
            old(self).cursor1.key_pos < old(self).storage1@.len(),
            old(self).cursor1.val_valid(old(self).storage1@),
            old(self).cursor2.key_pos < old(self).storage2@.len(),
            old(self).cursor2.val_valid(old(self).storage2@),
            key_of(old(self).storage1@[old(self).cursor1.key_pos as int]) == key_of(
                old(self).storage2@[old(self).cursor2.key_pos as int],
            ),
            ke2 == key_end(old(self).storage2@, old(self).cursor2.key_pos as int),
            not_before(old(self).temp@, 0, old(self).capability),
        ensures
            final(self).storage1 == old(self).storage1,
            final(self).storage2 == old(self).storage2,
            final(self).capability == old(self).capability,
            final(self).done == old(self).done,
            final(self).cursor1 == old(self).cursor1,
            final(self).cursor2.key_pos == old(self).cursor2.key_pos,
            final(self).cursor2.wf(final(self).storage2@),
            not_before(final(self).temp@, 0, old(self).capability),
            r is Ok <==> range_fits(
                old(self).storage1@,
                old(self).cursor1.val_pos as int,
                val_end(old(self).storage1@, old(self).cursor1.val_pos as int),
                old(self).storage2@,
                old(self).cursor2.val_pos as int,
                val_end(old(self).storage2@, old(self).cursor2.val_pos as int),
            ),
            r matches Err(e) ==> e == JoinError::DiffOverflow && final(self).temp@ == old(self).temp@ && final(self).cursor2 == old(self).cursor2,
            r is Ok ==> final(self).cursor2.val_pos == val_end(
                old(self).storage2@,
                old(self).cursor2.val_pos as int,
            ) && old(self).cursor2.val_pos < final(self).cursor2.val_pos <= ke2,
            r is Ok ==> final(self).temp@.len() <= old(self).temp@.len() + (val_end(
                old(self).storage1@,
                old(self).cursor1.val_pos as int,
            ) - old(self).cursor1.val_pos) * (final(self).cursor2.val_pos - old(self).cursor2.val_pos),
            r is Ok ==> forall|d: Data, t: u64| #[trigger]
                net(final(self).temp@, d, t) == net(old(self).temp@, d, t) + join_net(
                    old(self).storage1@.subrange(
                        old(self).cursor1.val_pos as int,
                        val_end(old(self).storage1@, old(self).cursor1.val_pos as int),
                    ),
                    old(self).storage2@.subrange(
                        old(self).cursor2.val_pos as int,
                        final(self).cursor2.val_pos as int,
                    ),
                    old(self).capability,
                    d,
                    t,
                ),
    {
        let cap = self.capability;
        let ghost all1 = self.storage1@;
        let ghost all2 = self.storage2@;
        let ghost kp1 = self.cursor1.key_pos as int;
        let ghost kp2 = self.cursor2.key_pos as int;
        let from1 = self.cursor1.val_pos;
        let to1 = self.cursor1.times_end(&self.storage1);
        let from2 = self.cursor2.val_pos;
        let to2 = self.cursor2.times_end(&self.storage2);
        proof {
            lemma_val_end(all1, from1 as int);
            lemma_key_end(all1, from1 as int);
            lemma_val_end(all2, from2 as int);
            lemma_key_end(all2, from2 as int);
            lemma_key_end(all2, kp2);
            assert(key_of(all2[from2 as int]) == key_of(all2[kp2]));
            assert(to2 <= ke2) by {
                if to2 > ke2 {
                    assert(key_of(all2[to2 - 1]) == key_of(all2[from2 as int]));
                }
            }
        }
        let buffer = match Deferred::join_values(
            &self.storage1,
            from1,
            to1,
            &self.storage2,
            from2,
            to2,
            cap,
        ) {
            Ok(buffer) => buffer,
            Err(e) => {
                return Err(e);
            },
        };
        let ghost before_temp = self.temp@;
        let mut k: usize = 0;
        while k < buffer.len()
            invariant
                k <= buffer.len(),
                self.storage1 == old(self).storage1,
                self.storage2 == old(self).storage2,
                self.capability == cap,
                self.done == old(self).done,
                self.cursor1 == old(self).cursor1,
                self.cursor2 == old(self).cursor2,
                self.temp@ == before_temp + buffer@.take(k as int),
            decreases buffer.len() - k,
        {
            self.temp.push(buffer[k]);
            assert(buffer@.take(k + 1) =~= buffer@.take(k as int).push(buffer@[k as int]));
            k = k + 1;
        }
        self.cursor2.step_val(&self.storage2);
        proof {
            assert(buffer@.take(buffer@.len() as int) =~= buffer@);
            assert forall|d: Data, t: u64| #[trigger]
                net(self.temp@, d, t) == net(before_temp, d, t) + join_net(
                    all1.subrange(from1 as int, to1 as int),
                    all2.subrange(from2 as int, to2 as int),
                    cap,
                    d,
                    t,
                ) by {
                lemma_net_concat(before_temp, buffer@, d, t);
            }
            assert forall|i: int| 0 <= i < self.temp@.len() implies (#[trigger] self.temp@[i]).1
                >= cap by {
                if i < before_temp.len() {
                    assert(self.temp@[i] == before_temp[i]);
                } else {
                    assert(self.temp@[i] == buffer@[i - before_temp.len()]);
                }
            }
        }
        Ok(())
    }

    /// Joins the value at which the first cursor stands with the values of
    /// the key of the second side from the one at which the second cursor
    /// stands on, value by value, until they are through or a pause is
    /// asked for. Says whether they are through. Before a pause what was
    /// gathered is handed over, and the second cursor is left at the value
    /// with which the work goes on.
    fn join_value_paced<F>(
        &mut self,
        output: &mut Vec<Update>,
        yield_fn: &F,
        work: &mut usize,
        Ghost(ke2): Ghost<int>,
        Ghost(start_output): Ghost<Seq<Update>>,
        Ghost(work0): Ghost<int>,
    ) -> (r: Result<bool, JoinError>) where F: Fn(usize) -> bool
        requires
            sorted(old(self).storage1@),
            sorted(old(self).storage2@),
            old(self).cursor1.wf(old(self).storage1@),
            old(self).cursor2.wf(old(self).storage2@),
            old(self).cursor1.key_pos < old(self).storage1@.len(),
            old(self).cursor1.val_valid(old(self).storage1@),
            old(self).cursor2.key_pos < old(self).storage2@.len(),
            old(self).cursor2.val_valid(old(self).storage2@),
            key_of(old(self).storage1@[old(self).cursor1.key_pos as int]) == key_of(
                old(self).storage2@[old(self).cursor2.key_pos as int],
            ),
            ke2 == key_end(old(self).storage2@, old(self).cursor2.key_pos as int),
            not_before(old(self).temp@, 0, old(self).capability),
            forall|w: usize| #[trigger] call_requires(*yield_fn, (w,)),
            progress(old(output)@, start_output, old(self).capability),
            forall|n: int, s: int| #[trigger]
                paced(*yield_fn, old(self).storage1@, old(self).storage2@, work0, n, s) ==> in_pace(
                    *old(work) as int,
                    work0,
                    old(output)@.len() - start_output.len(),
                    old(self).temp@.len() as int,
                    n,
                ),
        ensures
            final(self).storage1 == old(self).storage1,
            final(self).storage2 == old(self).storage2,
            final(self).capability == old(self).capability,
            final(self).done == old(self).done,
            final(self).cursor1 == old(self).cursor1,
            final(self).cursor2.key_pos == old(self).cursor2.key_pos,
            final(self).cursor2.wf(final(self).storage2@),
            not_before(final(self).temp@, 0, old(self).capability),
            progress(final(output)@, start_output, old(self).capability),
            r matches Err(e) ==> e == JoinError::DiffOverflow && !range_fits(
                old(self).storage1@,
                old(self).cursor1.val_pos as int,
                val_end(old(self).storage1@, old(self).cursor1.val_pos as int),
                old(self).storage2@,
                old(self).cursor2.val_pos as int,
                ke2,
            ),
            r is Ok ==> old(self).cursor2.val_pos < final(self).cursor2.val_pos <= ke2,
            r == Ok::<bool, JoinError>(true) ==> final(self).cursor2.val_pos == ke2,
            r == Ok::<bool, JoinError>(false) ==> final(self).cursor2.val_pos < ke2 && final(self).temp@.len() == 0 && final(self).cursor2.val_valid(final(self).storage2@)
                && call_ensures(*yield_fn, (*final(work),), true),
            r is Ok ==> forall|d: Data, t: u64| #[trigger]
                net(final(output)@, d, t) + net(final(self).temp@, d, t) == net(
                    old(output)@,
                    d,
                    t,
                ) + net(old(self).temp@, d, t) + join_net(
                    old(self).storage1@.subrange(
                        old(self).cursor1.val_pos as int,
                        val_end(old(self).storage1@, old(self).cursor1.val_pos as int),
                    ),
                    old(self).storage2@.subrange(
                        old(self).cursor2.val_pos as int,
                        final(self).cursor2.val_pos as int,
                    ),
                    old(self).capability,
                    d,
                    t,
                ),
            r == Ok::<bool, JoinError>(true) ==> forall|n: int, s: int| #[trigger]
                paced(*yield_fn, old(self).storage1@, old(self).storage2@, work0, n, s) ==> stepped(
                    *final(work) as int,
                    work0,
                    final(output)@.len() - start_output.len(),
                    final(self).temp@.len() as int,
                    n,
                    s,
                ),
            r == Ok::<bool, JoinError>(false) ==> forall|n: int, s: int| #[trigger]
                paced(*yield_fn, old(self).storage1@, old(self).storage2@, work0, n, s) ==> at_rest(
                    *final(work) as int,
                    work0,
                    final(output)@.len() - start_output.len(),
                    n,
                    s,
                ),
    {
        let cap = self.capability;
        let ghost all1 = self.storage1@;
        let ghost all2 = self.storage2@;
        let ghost kp2 = self.cursor2.key_pos as int;
        let ghost from1 = self.cursor1.val_pos as int;
        let ghost to1 = val_end(all1, from1);
        let ghost run1 = all1.subrange(from1, to1);
        let ghost first2 = self.cursor2.val_pos as int;
        let ghost temp0 = self.temp@;
        let ghost output0 = output@;
        proof {
            lemma_val_end(all1, from1);
            lemma_key_end(all1, from1);
            lemma_key_end(all2, kp2);
            assert(all2.subrange(first2, first2) =~= Seq::<Update>::empty());
            assert forall|d: Data, t: u64| #[trigger]
                join_net(run1, all2.subrange(first2, first2), cap, d, t) == 0 by {
                lemma_join_net_empty_right(run1, cap, d, t);
            }
        }
        loop
            invariant
                self.storage1 == old(self).storage1,
                self.storage2 == old(self).storage2,
                self.storage1@ == all1,
                self.storage2@ == all2,
                self.capability == cap,
                cap == old(self).capability,
                self.done == old(self).done,
                self.cursor1 == old(self).cursor1,
                sorted(all1),
                sorted(all2),
                self.cursor1.wf(all1),
                self.cursor2.wf(all2),
                self.cursor1.key_pos < all1.len(),
                self.cursor1.val_valid(all1),
                self.cursor1.val_pos == from1,
                to1 == val_end(all1, from1),
                from1 < to1 <= all1.len(),
                run1 == all1.subrange(from1, to1),
                self.cursor2.key_pos == kp2 < all2.len(),
                kp2 == old(self).cursor2.key_pos,
                all1 == old(self).storage1@,
                all2 == old(self).storage2@,
                from1 == old(self).cursor1.val_pos,
                self.cursor2.val_valid(all2),
                key_of(all1[self.cursor1.key_pos as int]) == key_of(all2[kp2]),
                ke2 == key_end(all2, kp2),
                first2 == old(self).cursor2.val_pos,
                first2 <= self.cursor2.val_pos < ke2,
                self.cursor2.val_pos > first2 || (self.temp@ == temp0 && output@ == output0),
                temp0 == old(self).temp@,
                output0 == old(output)@,
                not_before(self.temp@, 0, cap),
                progress(output@, start_output, cap),
                forall|w: usize| #[trigger] call_requires(*yield_fn, (w,)),
                range_fits(all1, from1, to1, all2, first2, self.cursor2.val_pos as int),
                forall|d: Data, t: u64| #[trigger]
                    net(output@, d, t) + net(self.temp@, d, t) == net(output0, d, t) + net(
                        temp0,
                        d,
                        t,
                    ) + join_net(
                        run1,
                        all2.subrange(first2, self.cursor2.val_pos as int),
                        cap,
                        d,
                        t,
                    ),
                forall|n: int, s: int| #[trigger]
                    paced(*yield_fn, all1, all2, work0, n, s) ==> in_pace(
                        *work as int,
                        work0,
                        output@.len() - start_output.len(),
                        self.temp@.len() as int,
                        n,
                    ),
            decreases all2.len() - self.cursor2.val_pos,
        {
            let ghost from2 = self.cursor2.val_pos as int;
            let ghost head_output = output@;
            let ghost head_temp = self.temp@;
            let ghost head_count = *work as int;
            proof {
                lemma_key_end(all2, kp2);
            }
            match self.join_pair(Ghost(ke2)) {
                Ok(()) => {},
                Err(e) => {
                    proof {
                        let end2 = val_end(all2, from2);
                        lemma_val_end(all2, from2);
                        lemma_key_end(all2, from2);
                        assert(end2 <= ke2) by {
                            if end2 > ke2 {
                                assert(key_of(all2[end2 - 1]) == key_of(all2[from2]));
                            }
                        }
                        if range_fits(all1, from1, to1, all2, first2, ke2) {
                            assert(range_fits(all1, from1, to1, all2, from2, end2));
                        }
                    }
                    return Err(e);
                },
            }
            let ghost to2 = self.cursor2.val_pos as int;
            proof {
                let done = all2.subrange(first2, from2);
                let run2 = all2.subrange(from2, to2);
                assert(all2.subrange(first2, to2) =~= done + run2);
                assert forall|d: Data, t: u64| #[trigger]
                    net(output@, d, t) + net(self.temp@, d, t) == net(output0, d, t) + net(
                        temp0,
                        d,
                        t,
                    ) + join_net(run1, all2.subrange(first2, to2), cap, d, t) by {
                    lemma_join_net_concat_right(run1, done, run2, cap, d, t);
                    assert(net(head_output, d, t) + net(head_temp, d, t) == net(output0, d, t)
                        + net(temp0, d, t) + join_net(run1, done, cap, d, t));
                }
                lemma_val_end(all2, from2);
                assert forall|n: int, s: int| #[trigger]
                    paced(*yield_fn, all1, all2, work0, n, s) implies stepped(
                    *work as int,
                    work0,
                    output@.len() - start_output.len(),
                    self.temp@.len() as int,
                    n,
                    s,
                ) by {
                    assert(in_pace(
                        head_count,
                        work0,
                        head_output.len() - start_output.len(),
                        head_temp.len() as int,
                        n,
                    ));
                    assert((val_end(all1, from1) - from1) * (val_end(all2, from2) - from2) <= s);
                }
            }
            let val2 = self.cursor2.get_val(&self.storage2);
            if val2.is_none() {
                proof {
                    if to2 < ke2 {
                        assert(key_of(all2[to2]) == key_of(all2[kp2]));
                    }
                }
                return Ok(true);
            }
            proof {
                assert(to2 < ke2) by {
                    if to2 >= ke2 {
                        assert(key_of(all2[to2]) != key_of(all2[kp2]));
                    }
                }
            }
            let ghost count_before = *work as int;
            let ghost gathered = self.temp@.len() as int;
            let ghost emitted = output@.len() - start_output.len();
            *work = work.saturating_add(self.temp.len());
            proof {
                assert forall|n: int, s: int| #[trigger]
                    paced(*yield_fn, all1, all2, work0, n, s) implies *work == count_before
                    + gathered by {
                    assert(stepped(count_before, work0, emitted, gathered, n, s));
                }
            }
            let ghost count_polled = *work as int;
            if yield_fn(*work) {
                let ghost before_flush = output@;
                let recovered = Deferred::flush(&mut self.temp, output);
                *work = *work - recovered;
                proof {
                    lemma_progress_step(start_output, before_flush, output@, cap);
                    assert forall|n: int, s: int| #[trigger]
                        paced(*yield_fn, all1, all2, work0, n, s) implies at_rest(
                        *work as int,
                        work0,
                        output@.len() - start_output.len(),
                        n,
                        s,
                    ) by {
                        assert(stepped(count_before, work0, emitted, gathered, n, s));
                        assert(count_polled == count_before + gathered);
                    }
                }
                if yield_fn(*work) {
                    return Ok(false);
                }
                proof {
                    assert forall|n: int, s: int| #[trigger]
                        paced(*yield_fn, all1, all2, work0, n, s) implies in_pace(
                        *work as int,
                        work0,
                        output@.len() - start_output.len(),
                        self.temp@.len() as int,
                        n,
                    ) by {
                        assert(at_rest(
                            *work as int,
                            work0,
                            output@.len() - start_output.len(),
                            n,
                            s,
                        ));
                        assert(call_ensures(*yield_fn, (*work,), false));
                    }
                }
            } else {
                proof {
                    assert forall|n: int, s: int| #[trigger]
                        paced(*yield_fn, all1, all2, work0, n, s) implies in_pace(
                        *work as int,
                        work0,
                        output@.len() - start_output.len(),
                        self.temp@.len() as int,
                        n,
                    ) by {
                        assert(stepped(count_before, work0, emitted, gathered, n, s));
                        assert(count_polled == count_before + gathered);
                        assert(call_ensures(*yield_fn, (*work,), false));
                    }
                }
            }
        }
    }
}

/// A copy of `batch`.
pub fn clone_batch(batch: &Batch) -> (copy: Batch)
    ensures
        copy@ == batch@,
        copy.lower == batch.lower,
        copy.upper == batch.upper,
{
    let mut facts: Vec<Update> = Vec::with_capacity(batch.facts.len());
    let mut i: usize = 0;
    while i < batch.facts.len()
        invariant
            i <= batch.facts.len(),
            facts@ == batch@.take(i as int),
        decreases batch.facts.len() - i,
    {
        facts.push(batch.facts[i]);
        assert(batch@.take(i + 1) =~= batch@.take(i as int).push(batch@[i as int]));
        i = i + 1;
    }
    assert(batch@.take(batch@.len() as int) =~= batch@);
    Batch { facts, lower: batch.lower, upper: batch.upper }
}

/// Holds of all answers; it marks what a result gave for the pairs of a
/// join.
pub open spec fn any_given<D>(given: Seq<Vec<D>>) -> bool {
    true
}

/// `given` is what `result` gave for the pairs `pairs`, for each pair what
/// it gave for the key and the two values of the pair.
pub open spec fn given_by<D, F: Fn(u64, u64, u64) -> Vec<D>>(
    result: F,
    pairs: Seq<Update>,
    given: Seq<Vec<D>>,
) -> bool {
    given.len() == pairs.len() && forall|i: int|
        0 <= i < pairs.len() ==> call_ensures(
            result,
            (pairs[i].0.0, pairs[i].0.1, pairs[i].0.2),
            #[trigger] given[i],
        )
}

/// What was given for one pair, at the time and with the difference of the
/// pair.
pub open spec fn stamped<D>(given: Seq<D>, time: u64, diff: i64) -> Seq<(D, u64, i64)> {
    given.map_values(|d: D| (d, time, diff))
}

/// The outputs of the pairs `pairs` for which `given` was given: for every
/// pair in turn what was given for it, each at the time and with the
/// difference of the pair.
pub open spec fn spread<D>(pairs: Seq<Update>, given: Seq<Vec<D>>) -> Seq<(D, u64, i64)>
    decreases pairs.len(),
{
    if pairs.len() == 0 || given.len() == 0 {
        Seq::<(D, u64, i64)>::empty()
    } else {
        spread(pairs.drop_last(), given.drop_last()) + stamped(
            given.last()@,
            pairs.last().1,
            pairs.last().2,
        )
    }
}

/// Hands to `output` what `result` gives for the pairs `pairs` of a join:
/// `result` is asked once for every pair, with its key and its two values,
/// and all that it gives goes out at the time and with the difference of
/// the pair.
pub fn apply_result<D, F>(pairs: &Vec<Update>, result: &F, output: &mut Vec<(D, u64, i64)>) where
    F: Fn(u64, u64, u64) -> Vec<D>,

    requires
        forall|k: u64, a: u64, b: u64| #[trigger] call_requires(*result, (k, a, b)),
    ensures
        exists|given: Seq<Vec<D>>| #[trigger]
            any_given(given) && given_by(*result, pairs@, given) && final(output)@ == old(output)@ + spread(pairs@, given),
{
    let ghost start = output@;
    let ghost mut given: Seq<Vec<D>> = Seq::empty();
    let mut i: usize = 0;
    proof {
        assert(pairs@.take(0) =~= Seq::<Update>::empty());
        assert(output@ =~= start + spread(pairs@.take(0), given));
    }
    while i < pairs.len()
        invariant
            i <= pairs.len(),
            forall|k: u64, a: u64, b: u64| #[trigger] call_requires(*result, (k, a, b)),
            given_by(*result, pairs@.take(i as int), given),
            output@ == start + spread(pairs@.take(i as int), given),
        decreases pairs.len() - i,
    {
        let pair = pairs[i];
        let time = pair.1;
        let diff = pair.2;
        let mut rest = result(pair.0.0, pair.0.1, pair.0.2);
        let ghost whole = rest;
        let ghost before = output@;
        let ghost taken = given;
        while rest.len() > 0
            invariant
                rest@.len() <= whole@.len(),
                rest@ == whole@.skip(whole@.len() - rest@.len()),
                output@ == before + stamped(
                    whole@.take(whole@.len() - rest@.len()),
                    time,
                    diff,
                ),
            decreases rest.len(),
        {
            let ghost n = whole@.len() - rest@.len();
            let d = rest.remove(0);
            output.push((d, time, diff));
            proof {
                assert(rest@ =~= whole@.skip(n + 1));
                assert(d == whole@[n]);
                assert(stamped(whole@.take(n + 1), time, diff) =~= stamped(
                    whole@.take(n),
                    time,
                    diff,
                ).push((d, time, diff)));
            }
        }
        proof {
            given = taken.push(whole);
            let next = pairs@.take(i + 1);
            assert(next.drop_last() =~= pairs@.take(i as int));
            assert(next.last() == pair);
            assert(given.drop_last() =~= taken);
            assert(whole@.take(whole@.len() as int) =~= whole@);
            assert forall|j: int| 0 <= j < next.len() implies call_ensures(
                *result,
                (next[j].0.0, next[j].0.1, next[j].0.2),
                #[trigger] given[j],
            ) by {
                if j < i {
                    assert(given[j] == taken[j]);
                    assert(next[j] == pairs@.take(i as int)[j]);
                }
            }
            assert(output@ =~= start + spread(next, given));
        }
        i = i + 1;
    }
    proof {
        assert(pairs@.take(pairs@.len() as int) =~= pairs@);
        assert(any_given(given));
    }
}

/// Over any number of calls of the work, however often it paused: what was
/// emitted by the end and what is still owed add up to what was emitted
/// and owed at the start. `states` and `outputs` are the work and the
/// outputs before the first call and after every call. So a run to the end
/// emits exactly what was owed at its start, every pair once.
pub proof fn lemma_run_total(states: Seq<Deferred>, outputs: Seq<Seq<Update>>, d: Data, t: u64)
    requires
        states.len() == outputs.len(),
        states.len() > 0,
        forall|i: int|
            0 < i < states.len() ==> net(#[trigger] outputs[i], d, t) + states[i].pending(d, t)
                == net(outputs[i - 1], d, t) + states[i - 1].pending(d, t),
    ensures
        net(outputs.last(), d, t) + states.last().pending(d, t) == net(outputs[0], d, t)
            + states[0].pending(d, t),
    decreases states.len(),
{
    if states.len() > 1 {
        let front = states.drop_last();
        let front_outputs = outputs.drop_last();
        assert forall|i: int| 0 < i < front.len() implies net(
            #[trigger] front_outputs[i],
            d,
            t,
        ) + front[i].pending(d, t) == net(front_outputs[i - 1], d, t) + front[i - 1].pending(
            d,
            t,
        ) by {
            assert(front_outputs[i] == outputs[i]);
        }
        lemma_run_total(front, front_outputs, d, t);
        let n = states.len() - 1;
        assert(net(outputs[n], d, t) + states[n].pending(d, t) == net(outputs[n - 1], d, t)
            + states[n - 1].pending(d, t));
        assert(front.last() == states[n - 1]);
        assert(front_outputs.last() == outputs[n - 1]);
    }
}

/// The steps that are left at most of the work `item`.
pub open spec fn steps_left(item: Deferred) -> nat {
    (item.storage1@.len() - item.cursor1.val_pos + 1) as nat
}

/// The values of the second side that the first work of `todo` has
/// before it at most.
pub open spec fn front_left(todo: Seq<Deferred>) -> nat {
    if todo.len() == 0 {
        0
    } else {
        (todo[0].storage2@.len() - todo[0].cursor2.val_pos) as nat
    }
}

/// The steps that are left at most of the works `todo`.
pub open spec fn total_left(todo: Seq<Deferred>) -> nat
    decreases todo.len(),
{
    if todo.len() == 0 {
        0
    } else {
        steps_left(todo[0]) + total_left(todo.drop_first())
    }
}

/// What the works of `todo` still owe towards `d` at `t`, taken together.
pub open spec fn queue_pending(todo: Seq<Deferred>, d: Data, t: u64) -> int
    decreases todo.len(),
{
    if todo.len() == 0 {
        0
    } else {
        todo[0].pending(d, t) + queue_pending(todo.drop_first(), d, t)
    }
}

/// No work of `todo` has a pair of facts of one key still to be joined whose
/// differences multiply beyond the range of a difference.
pub open spec fn all_fit(todo: Seq<Deferred>) -> bool {
    forall|i: int| 0 <= i < todo.len() ==> (#[trigger] todo[i]).fits()
}

/// All the works of `todo` are in order, and none is done.
pub open spec fn all_pending(todo: Seq<Deferred>) -> bool {
    forall|i: int| 0 <= i < todo.len() ==> (#[trigger] todo[i]).wf() && !todo[i].done
}

/// What a join remembers from one activation to the next: for each input
/// the frontier up to which its batches were accepted, the work that is
/// left of joining them, and whether the trace of the input is still held.
#[derive(Debug)]
pub struct JoinOperator {
    pub acknowledged1: Frontier,
    pub acknowledged2: Frontier,
    pub todo1: VecDeque<Deferred>,
    pub todo2: VecDeque<Deferred>,
    pub trace1_held: bool,
    pub trace2_held: bool,
}

/// No value of the first side of any work of `todo` gives more than `s`
/// pairs with the facts of one key of its second side.
pub open spec fn queue_steps(todo: Seq<Deferred>, s: int) -> bool {
    forall|i: int| 0 <= i < todo.len() ==> step_bound(
        (#[trigger] todo[i]).storage1@,
        todo[i].storage2@,
        s,
    )
}

/// The work of `todo` is paced by `n` and `s`: `yield_fn` refuses a pause
/// only below `n`, no step gives more than `s` outputs, and the count of
/// work stays within a `usize`.
pub open spec fn queue_paced<F: Fn(usize) -> bool>(
    yield_fn: F,
    todo: Seq<Deferred>,
    n: int,
    s: int,
) -> bool {
    &&& 0 <= n
    &&& 0 <= s
    &&& 4 * n + s <= usize::MAX
    &&& refuses_below(yield_fn, n)
    &&& queue_steps(todo, s)
}

impl JoinOperator {
    /// Every work that is queued is in order and not done.
    pub open spec fn wf(&self) -> bool {
        all_pending(self.todo1@) && all_pending(self.todo2@)
    }

    /// Whether any work is left.
    pub fn work_remains(&self) -> (b: bool)
        ensures
            b == (self.todo1@.len() > 0 || self.todo2@.len() > 0),
    {
        self.todo1.len() > 0 || self.todo2.len() > 0
    }

    /// Does queued work until the queue is empty or `yield_fn` asks for a
    /// pause.
    fn work_queue<F>(
        todo: &mut VecDeque<Deferred>,
        output: &mut Vec<Update>,
        yield_fn: &F,
    ) -> (r: Result<(), JoinError>) where F: Fn(usize) -> bool
        requires
            all_pending(old(todo)@),
            forall|w: usize| #[trigger] call_requires(*yield_fn, (w,)),
        ensures
            old(output)@.len() <= final(output)@.len(),
            final(output)@.take(old(output)@.len() as int) == old(output)@,
            r is Ok ==> all_pending(final(todo)@),
            // What is emitted and what the queue still owes add up to what
            // the queue owed.
            r is Ok ==> forall|d: Data, t: u64| #[trigger]
                net(final(output)@, d, t) + queue_pending(final(todo)@, d, t) == net(
                    old(output)@,
                    d,
                    t,
                ) + queue_pending(old(todo)@, d, t),
            // No work is added, and work is left only where a pause was
            // asked for.
            r is Ok ==> final(todo)@.len() <= old(todo)@.len(),
            r is Ok && final(todo)@.len() > 0 ==> exists|w: usize| #[trigger]
                call_ensures(*yield_fn, (w,), true),
            // The queue fails only for a product that is no difference.
            r matches Err(e) ==> e == JoinError::DiffOverflow && !all_fit(old(todo)@),
            // Where `yield_fn` refuses a pause only below a count `n`, and no
            // step gives more than `s` outputs, at most `n + s` are emitted.
            r is Ok ==> forall|n: int, s: int| #[trigger]
                queue_paced(*yield_fn, old(todo)@, n, s) ==> final(output)@.len() - old(output)@.len() <= n + s,
    {
        let mut work: usize = 0;
        let ghost start_output = output@;
        let ghost start = todo@;
        assert(output@.take(start_output.len() as int) =~= start_output);
        loop
            invariant
                all_pending(todo@),
                forall|w: usize| #[trigger] call_requires(*yield_fn, (w,)),
                start_output == old(output)@,
                start == old(todo)@,
                start_output.len() <= output@.len(),
                output@.take(start_output.len() as int) == start_output,
                todo@.len() <= start.len(),
                all_fit(start) ==> all_fit(todo@),
                forall|n: int, s: int| #[trigger]
                    queue_paced(*yield_fn, start, n, s) ==> queue_steps(todo@, s) && work
                        >= output@.len() - start_output.len() && output@.len()
                        - start_output.len() <= n + s,
                forall|d: Data, t: u64| #[trigger]
                    net(output@, d, t) + queue_pending(todo@, d, t) == net(start_output, d, t)
                        + queue_pending(start, d, t),
            ensures
                todo@.len() > 0 ==> exists|w: usize| #[trigger] call_ensures(*yield_fn, (w,), true),
            decreases total_left(todo@), front_left(todo@),
        {
            if todo.len() == 0 {
                break ;
            }
            if yield_fn(work) {
                break ;
            }
            let ghost before = todo@;
            let ghost before_output = output@;
            let ghost before_work = work as int;
            assert(call_ensures(*yield_fn, (work,), false));
            let mut item = todo.pop_front().unwrap();
            let ghost popped = item;
            proof {
                assert forall|n: int, s: int| #[trigger]
                    queue_paced(*yield_fn, start, n, s) implies well_paced(
                    *yield_fn,
                    popped.storage1@,
                    popped.storage2@,
                    before_work,
                    n,
                    s,
                ) by {
                    assert(queue_steps(before, s));
                    assert(popped == before[0]);
                }
                assert(before[0].wf() && !before[0].done);
                assert(todo@ =~= before.drop_first());
                assert forall|i: int| 0 <= i < todo@.len() implies (#[trigger] todo@[i]).wf()
                    && !todo@[i].done by {
                    assert(todo@[i] == before[i + 1]);
                }
            }
            match item.work(output, yield_fn, &mut work) {
                Ok(()) => {},
                Err(e) => {
                    proof {
                        assert(!before[0].fits());
                        assert(output@.take(start_output.len() as int) =~= start_output) by {
                            assert forall|i: int| 0 <= i < start_output.len() implies output@[i]
                                == start_output[i] by {
                                assert(output@[i] == output@.take(before_output.len() as int)[i]);
                                assert(before_output[i] == before_output.take(
                                    start_output.len() as int,
                                )[i]);
                            }
                        }
                    }
                    return Err(e);
                },
            }
            proof {
                assert(output@.take(start_output.len() as int) =~= start_output) by {
                    assert forall|i: int| 0 <= i < start_output.len() implies output@[i]
                        == start_output[i] by {
                        assert(output@[i] == output@.take(before_output.len() as int)[i]);
                        assert(before_output[i] == before_output.take(start_output.len() as int)[i]);
                    }
                }
            }
            let ghost rest = todo@;
            proof {
                assert forall|i: int| 0 <= i < rest.len() implies #[trigger] rest[i] == before[i
                    + 1] by {}
                assert forall|n: int, s: int| #[trigger]
                    queue_paced(*yield_fn, start, n, s) implies queue_steps(rest, s)
                    && step_bound(item.storage1@, item.storage2@, s) && work >= output@.len()
                    - start_output.len() && output@.len() - start_output.len() <= n + s by {
                    assert(queue_steps(before, s));
                    assert(popped == before[0]);
                    assert(well_paced(
                        *yield_fn,
                        popped.storage1@,
                        popped.storage2@,
                        before_work,
                        n,
                        s,
                    ));
                    assert(at_rest(
                        work as int,
                        before_work,
                        output@.len() - before_output.len(),
                        n,
                        s,
                    ));
                    assert forall|i: int| 0 <= i < rest.len() implies step_bound(
                        (#[trigger] rest[i]).storage1@,
                        rest[i].storage2@,
                        s,
                    ) by {
                        assert(rest[i] == before[i + 1]);
                    }
                }
                if all_fit(start) {
                    assert(popped.fits());
                    assert(item.fits());
                    assert forall|i: int| 0 <= i < rest.len() implies (#[trigger] rest[i]).fits() by {
                        assert(rest[i] == before[i + 1]);
                    }
                }
            }
            if item.work_remains() {
                proof {
                    assert(item.storage1@ == popped.storage1@);
                }
                todo.push_front(item);
                proof {
                    assert(todo@.drop_first() =~= rest);
                    assert(todo@[0] == item);
                    assert forall|i: int| 0 <= i < todo@.len() implies (#[trigger] todo@[i]).wf()
                        && !todo@[i].done by {
                        if i > 0 {
                            assert(todo@[i] == rest[i - 1]);
                        }
                    }
                    if all_fit(start) {
                        assert forall|i: int| 0 <= i < todo@.len() implies (
                        #[trigger] todo@[i]).fits() by {
                            if i > 0 {
                                assert(todo@[i] == rest[i - 1]);
                            }
                        }
                    }
                    assert forall|n: int, s: int| #[trigger]
                        queue_paced(*yield_fn, start, n, s) implies queue_steps(todo@, s) by {
                        assert(queue_steps(rest, s));
                        assert forall|i: int| 0 <= i < todo@.len() implies step_bound(
                            (#[trigger] todo@[i]).storage1@,
                            todo@[i].storage2@,
                            s,
                        ) by {
                            if i > 0 {
                                assert(todo@[i] == rest[i - 1]);
                            }
                        }
                    }
                }
            }
        }
        Ok(())
    }
}

/// What is acknowledged of an input when the batches of `input` have come,
/// `ack` having been acknowledged before: the upper end of the last batch
/// that began at or behind what was acknowledged when it came.
pub open spec fn ack_after(input: Seq<(u64, Batch)>, ack: Frontier) -> Frontier
    decreases input.len(),
{
    if input.len() == 0 {
        ack
    } else {
        let before = ack_after(input.drop_last(), ack);
        if before.le(input.last().1.lower) {
            input.last().1.upper
        } else {
            before
        }
    }
}

/// Some batch of `input` is accepted and holds facts, so that work is
/// queued for it.
pub open spec fn has_work(input: Seq<(u64, Batch)>, ack: Frontier) -> bool
    decreases input.len(),
{
    if input.len() == 0 {
        false
    } else {
        has_work(input.drop_last(), ack) || (ack_after(input.drop_last(), ack).le(
            input.last().1.lower,
        ) && input.last().1@.len() > 0)
    }
}

/// The trace `other` gives no cursor through `ack`: it was let go, or may
/// be compacted beyond `ack`, or the differences of what it holds up to
/// there cannot be added up.
pub open spec fn unavailable(held: bool, other: Trace, ack: Frontier) -> bool {
    !held || !other.physical.le(ack) || crate::arrangement::total_weight(
        crate::arrangement::facts_through(other.batches@, ack),
    ) > i64::MAX
}

/// `item` is the work, none of it done, of joining the batch `batch` of
/// one input, which came with the time `cap`, with what the batches `other`
/// of the other input hold through `ack`. `first` says that the batch is of
/// the first input.
pub open spec fn accepts(
    item: Deferred,
    cap: u64,
    batch: Batch,
    other: Seq<Batch>,
    ack: Frontier,
    first: bool,
) -> bool {
    let own_facts = if first {
        item.storage1@
    } else {
        item.storage2@
    };
    let other_facts = if first {
        item.storage2@
    } else {
        item.storage1@
    };
    &&& item.wf()
    &&& !item.done
    &&& item.capability == cap
    &&& item.cursor1.val_pos == 0
    &&& item.cursor2.key_pos == 0
    &&& own_facts == batch@
    &&& forall|d: Data, t: u64| #[trigger]
        net(other_facts, d, t) == crate::arrangement::net_through(other, ack, d, t)
}

/// `new` are the works that are queued for the batches of `input`, in
/// their order: one for every batch that is accepted and holds facts.
pub open spec fn accepted(
    new: Seq<Deferred>,
    input: Seq<(u64, Batch)>,
    ack: Frontier,
    other: Seq<Batch>,
    other_ack: Frontier,
    first: bool,
) -> bool
    decreases input.len(),
{
    if input.len() == 0 {
        new.len() == 0
    } else if ack_after(input.drop_last(), ack).le(input.last().1.lower) && input.last().1@.len()
        > 0 {
        new.len() > 0 && accepts(
            new.last(),
            input.last().0,
            input.last().1,
            other,
            other_ack,
            first,
        ) && accepted(new.drop_last(), input.drop_last(), ack, other, other_ack, first)
    } else {
        accepted(new, input.drop_last(), ack, other, other_ack, first)
    }
}

/// `new1` and `new2` are the works that one activation queues for the
/// batches `input1` and `input2` that came: those of the first input are
/// joined with what was acknowledged of the second before, and those of the
/// second with what is acknowledged of the first then.
pub open spec fn activated(
    new1: Seq<Deferred>,
    new2: Seq<Deferred>,
    input1: Seq<(u64, Batch)>,
    input2: Seq<(u64, Batch)>,
    ack1: Frontier,
    ack2: Frontier,
    batches1: Seq<Batch>,
    batches2: Seq<Batch>,
) -> bool {
    accepted(new1, input1, ack1, batches2, ack2, true) && accepted(
        new2,
        input2,
        ack2,
        batches1,
        ack_after(input1, ack1),
        false,
    )
}

/// Work that is queued for the first batches of an input is queued for
/// the input.
pub proof fn lemma_has_work_take(input: Seq<(u64, Batch)>, ack: Frontier, k: int)
    requires
        0 <= k <= input.len(),
        has_work(input.take(k), ack),
    ensures
        has_work(input, ack),
    decreases input.len() - k,
{
    if k < input.len() {
        assert(input.take(k + 1).drop_last() =~= input.take(k));
        lemma_has_work_take(input, ack, k + 1);
    } else {
        assert(input.take(k) =~= input);
    }
}

/// What works laid end to end owe is what the ones owe and what the
/// others owe.
pub proof fn lemma_queue_pending_concat(a: Seq<Deferred>, b: Seq<Deferred>, d: Data, t: u64)
    ensures
        queue_pending(a + b, d, t) == queue_pending(a, d, t) + queue_pending(b, d, t),
    decreases a.len(),
{
    if a.len() == 0 {
        assert(a + b =~= b);
    } else {
        assert((a + b).drop_first() =~= a.drop_first() + b);
        lemma_queue_pending_concat(a.drop_first(), b, d, t);
    }
}

/// Frontiers are ordered: what comes no later than an earlier frontier
/// comes no later than a later one.
pub proof fn lemma_frontier_le_transitive(a: Frontier, b: Frontier, c: Frontier)
    requires
        a.le(b),
        b.le(c),
    ensures
        a.le(c),
{
}

impl JoinOperator {
    /// Accepts the batches of one input that were not accepted before: for
    /// each that holds facts, the work of joining it with what was
    /// acknowledged of the other input is queued; then its upper end is
    /// acknowledged.
    fn accept_batches(
        acknowledged: &mut Frontier,
        todo: &mut VecDeque<Deferred>,
        input: &Vec<(u64, Batch)>,
        other_held: bool,
        other_trace: &Trace,
        other_acknowledged: Frontier,
        first_input: bool,
        Ghost(own_upper): Ghost<Frontier>,
    ) -> (r: Result<(), JoinError>)
        requires
            all_pending(old(todo)@),
            other_trace.wf(),
            old(acknowledged).le(own_upper),
            forall|i: int|
                0 <= i < input@.len() ==> (#[trigger] input@[i]).1.wf() && input@[i].1.upper.le(
                    own_upper,
                ),
        ensures
            old(acknowledged).le(*final(acknowledged)),
            final(acknowledged).le(own_upper),
            r is Ok ==> all_pending(final(todo)@),
            r is Ok ==> final(todo)@.len() >= old(todo)@.len(),
            r is Err <==> has_work(input@, *old(acknowledged)) && unavailable(
                other_held,
                *other_trace,
                other_acknowledged,
            ),
            r matches Err(e) ==> e == JoinError::CursorUnavailable,
            r is Ok ==> *final(acknowledged) == ack_after(input@, *old(acknowledged)),
            r is Ok ==> exists|new: Seq<Deferred>| #[trigger]
                accepted(
                    new,
                    input@,
                    *old(acknowledged),
                    other_trace.batches@,
                    other_acknowledged,
                    first_input,
                ) && final(todo)@ == old(todo)@ + new,
    {
        let mut i: usize = 0;
        let ghost new = Seq::<Deferred>::empty();
        proof {
            assert(input@.take(0) =~= Seq::<(u64, Batch)>::empty());
            assert(todo@ =~= old(todo)@ + new);
        }
        while i < input.len()
            invariant
                i <= input.len(),
                all_pending(todo@),
                other_trace.wf(),
                old(acknowledged).le(*acknowledged),
                acknowledged.le(own_upper),
                todo@.len() >= old(todo)@.len(),
                *acknowledged == ack_after(input@.take(i as int), *old(acknowledged)),
                todo@ == old(todo)@ + new,
                accepted(
                    new,
                    input@.take(i as int),
                    *old(acknowledged),
                    other_trace.batches@,
                    other_acknowledged,
                    first_input,
                ),
                has_work(input@.take(i as int), *old(acknowledged)) ==> !unavailable(
                    other_held,
                    *other_trace,
                    other_acknowledged,
                ),
                forall|i: int|
                    0 <= i < input@.len() ==> (#[trigger] input@[i]).1.wf()
                        && input@[i].1.upper.le(own_upper),
            decreases input.len() - i,
        {
            let capability = input[i].0;
            let batch = &input[i].1;
            let ghost so_far = new;
            proof {
                assert(input@[i as int].1.wf());
                assert(input@.take(i + 1).drop_last() =~= input@.take(i as int));
                assert(input@.take(i + 1).last() == input@[i as int]);
            }
            // What was accepted before is passed over.
            if acknowledged.less_equal(&batch.lower) {
                if !batch.is_empty() {
                    // A trace is only let go when the other input has
                    // ended, and then no batch of it comes any more.
                    proof {
                        assert(has_work(input@.take(i + 1), *old(acknowledged)));
                        lemma_has_work_take(input@, *old(acknowledged), i + 1);
                    }
                    if !other_held {
                        return Err(JoinError::CursorUnavailable);
                    }
                    let other = match other_trace.cursor_through(other_acknowledged) {
                        Some(other) => other,
                        None => {
                            return Err(JoinError::CursorUnavailable);
                        },
                    };
                    let own = clone_batch(batch);
                    let own_cursor = own.cursor();
                    let other_cursor = other.cursor();
                    let ghost before = todo@;
                    let item = if first_input {
                        Deferred::new(own_cursor, own, other_cursor, other, capability)
                    } else {
                        Deferred::new(other_cursor, other, own_cursor, own, capability)
                    };
                    todo.push_back(item);
                    proof {
                        assert forall|k: int| 0 <= k < todo@.len() implies (
                        #[trigger] todo@[k]).wf() && !todo@[k].done by {
                            if k < before.len() {
                                assert(todo@[k] == before[k]);
                            }
                        }
                        new = so_far.push(item);
                        assert(new.drop_last() =~= so_far);
                        assert(todo@ =~= old(todo)@ + new);
                        assert(accepts(
                            item,
                            capability,
                            *batch,
                            other_trace.batches@,
                            other_acknowledged,
                            first_input,
                        ));
                    }
                }
                // Empty batches may have been passed over, but the batches
                // come in order: the upper end of the last is what was
                // accepted.
                proof {
                    lemma_frontier_le_transitive(*old(acknowledged), *acknowledged, batch.lower);
                    lemma_frontier_le_transitive(*old(acknowledged), batch.lower, batch.upper);
                }
                *acknowledged = batch.upper;
            }
            i = i + 1;
        }
        proof {
            assert(input@.take(input@.len() as int) =~= input@);
        }
        Ok(())
    }

    /// One activation of the join.
    ///
    /// The batches that came on both inputs are accepted, each with the
    /// time from which on its join may emit; the frontiers move on through
    /// what the traces know to be empty; queued work is done until
    /// `yield_fn` asks for a pause; and the traces are told how far they
    /// may compact, or are let go where the other input has ended. The
    /// answer says whether work is left, so that the join asks to be
    /// activated again.
    ///
    /// With `shutdown` set, everything that came and everything that was
    /// queued is dropped, both traces are let go, and nothing is emitted.
    pub fn activate<F>(
        &mut self,
        trace1: &mut Trace,
        trace2: &mut Trace,
        input1: &Vec<(u64, Batch)>,
        input2: &Vec<(u64, Batch)>,
        frontier1: Frontier,
        frontier2: Frontier,
        shutdown: bool,
        yield_fn: &F,
        output: &mut Vec<Update>,
    ) -> (r: Result<bool, JoinError>) where F: Fn(usize) -> bool
        requires
            old(self).wf(),
            old(trace1).wf(),
            old(trace2).wf(),
            old(self).acknowledged1.le(old(trace1).upper()),
            old(self).acknowledged2.le(old(trace2).upper()),
            forall|i: int|
                0 <= i < input1@.len() ==> (#[trigger] input1@[i]).1.wf()
                    && input1@[i].1.upper.le(old(trace1).upper()),
            forall|i: int|
                0 <= i < input2@.len() ==> (#[trigger] input2@[i]).1.wf()
                    && input2@[i].1.upper.le(old(trace2).upper()),
            forall|w: usize| #[trigger] call_requires(*yield_fn, (w,)),
        ensures
            old(self).acknowledged1.le(final(self).acknowledged1),
            old(self).acknowledged2.le(final(self).acknowledged2),
            final(self).acknowledged1.le(final(trace1).upper()),
            final(self).acknowledged2.le(final(trace2).upper()),
            final(trace1).batches == old(trace1).batches,
            final(trace2).batches == old(trace2).batches,
            final(trace1).wf(),
            final(trace2).wf(),
            old(trace1).physical.le(final(trace1).physical),
            old(trace2).physical.le(final(trace2).physical),
            final(trace1).physical.le(final(self).acknowledged1.later(old(trace1).physical)),
            final(trace2).physical.le(final(self).acknowledged2.later(old(trace2).physical)),
            old(output)@.len() <= final(output)@.len(),
            final(output)@.take(old(output)@.len() as int) == old(output)@,
            shutdown ==> final(output)@ == old(output)@ && final(self).todo1@.len() == 0 && final(self).todo2@.len() == 0 && !final(self).trace1_held && !final(self).trace2_held && r
                == Ok::<bool, JoinError>(false),
            r is Ok ==> final(self).wf(),
            r matches Ok(again) ==> again == (final(self).todo1@.len() > 0 || final(self).todo2@.len() > 0),
            r is Ok && !shutdown ==> final(self).trace1_held == (old(self).trace1_held
                && frontier2.bound is Some) && final(self).trace2_held == (old(self).trace2_held
                && frontier1.bound is Some),
            // A cursor is missing where work is to be queued for a batch
            // and the trace of the other input gives none.
            !shutdown ==> (r == Err::<bool, JoinError>(JoinError::CursorUnavailable) <==> (
            has_work(input1@, old(self).acknowledged1) && unavailable(
                old(self).trace2_held,
                *old(trace2),
                old(self).acknowledged2,
            )) || (has_work(input2@, old(self).acknowledged2) && unavailable(
                old(self).trace1_held,
                *old(trace1),
                ack_after(input1@, old(self).acknowledged1),
            ))),
            // The only other error is a product that is no difference, in
            // the work that was queued or in the work that was accepted.
            r matches Err(e) ==> e == JoinError::CursorUnavailable || (e == JoinError::DiffOverflow
                && exists|new1: Seq<Deferred>, new2: Seq<Deferred>| #[trigger]
                activated(
                    new1,
                    new2,
                    input1@,
                    input2@,
                    old(self).acknowledged1,
                    old(self).acknowledged2,
                    old(trace1).batches@,
                    old(trace2).batches@,
                ) && !(all_fit(old(self).todo1@ + new1) && all_fit(old(self).todo2@ + new2))),
            // What is emitted and what both queues still owe add up to what
            // the queues owed and what was accepted in this activation.
            r is Ok && !shutdown ==> exists|new1: Seq<Deferred>, new2: Seq<Deferred>| #[trigger]
                activated(
                    new1,
                    new2,
                    input1@,
                    input2@,
                    old(self).acknowledged1,
                    old(self).acknowledged2,
                    old(trace1).batches@,
                    old(trace2).batches@,
                ) && (forall|d: Data, t: u64| #[trigger]
                    net(final(output)@, d, t) + queue_pending(final(self).todo1@, d, t)
                        + queue_pending(final(self).todo2@, d, t) == net(old(output)@, d, t)
                        + queue_pending(old(self).todo1@ + new1, d, t) + queue_pending(
                        old(self).todo2@ + new2,
                        d,
                        t,
                    )) && (
                // Where `yield_fn` refuses a pause only below a count `n`,
                // and no step of the work of either queue gives more than
                // `s` outputs, each queue emits at most `n + s`.
                forall|n: int, s: int|
                    #![trigger queue_paced(*yield_fn, old(self).todo1@ + new1, n, s)]
                    queue_paced(*yield_fn, old(self).todo1@ + new1, n, s) && queue_paced(
                        *yield_fn,
                        old(self).todo2@ + new2,
                        n,
                        s,
                    ) ==> final(output)@.len() - old(output)@.len() <= 2 * (n + s)),
            // Work is left only where a pause was asked for.
            r == Ok::<bool, JoinError>(true) ==> exists|w: usize| #[trigger]
                call_ensures(*yield_fn, (w,), true),
            // What is acknowledged is what was accepted, moved on through
            // what a trace that is held knows to be empty.
            r is Ok && !shutdown ==> final(self).acknowledged1 == (if old(self).trace1_held {
                crate::arrangement::past_empty(
                    old(trace1).batches@,
                    ack_after(input1@, old(self).acknowledged1),
                )
            } else {
                ack_after(input1@, old(self).acknowledged1)
            }) && final(self).acknowledged2 == (if old(self).trace2_held {
                crate::arrangement::past_empty(
                    old(trace2).batches@,
                    ack_after(input2@, old(self).acknowledged2),
                )
            } else {
                ack_after(input2@, old(self).acknowledged2)
            }),
            // The compactions of a trace stay in order where the frontier of
            // the other input lies between what is acknowledged and the last
            // batch.
            r is Ok && !shutdown && old(trace1).compaction_ordered() && frontier2.le(
                old(trace1).upper(),
            ) && final(self).acknowledged1.le(old(trace1).logical.later(frontier2))
                ==> final(trace1).compaction_ordered(),
            r is Ok && !shutdown && old(trace2).compaction_ordered() && frontier1.le(
                old(trace2).upper(),
            ) && final(self).acknowledged2.le(old(trace2).logical.later(frontier1))
                ==> final(trace2).compaction_ordered(),
            // A trace that stays held may compact its times up to the
            // frontier of the other input, and its batches up to what is
            // acknowledged; a trace that is let go or was not held stays.
            r is Ok && !shutdown ==> final(trace1).logical == (if old(self).trace1_held
                && frontier2.bound is Some {
                old(trace1).logical.later(frontier2)
            } else {
                old(trace1).logical
            }) && final(trace1).physical == (if old(self).trace1_held && frontier2.bound is Some {
                old(trace1).physical.later(final(self).acknowledged1)
            } else {
                old(trace1).physical
            }),
            r is Ok && !shutdown ==> final(trace2).logical == (if old(self).trace2_held
                && frontier1.bound is Some {
                old(trace2).logical.later(frontier1)
            } else {
                old(trace2).logical
            }) && final(trace2).physical == (if old(self).trace2_held && frontier1.bound is Some {
                old(trace2).physical.later(final(self).acknowledged2)
            } else {
                old(trace2).physical
            }),
    {
        assert(output@.take(output@.len() as int) =~= output@);
        let ghost start1 = self.todo1@;
        let ghost start2 = self.todo2@;
        let ghost ack1 = self.acknowledged1;
        let ghost ack2 = self.acknowledged2;
        let ghost start_output = output@;
        // A join that is shut down drops the work that it has and the
        // work that comes.
        if shutdown {
            self.todo1 = VecDeque::new();
            self.todo2 = VecDeque::new();
            self.trace1_held = false;
            self.trace2_held = false;
            return Ok(false);
        }
        // Accept the batches that came, and queue their work.
        match JoinOperator::accept_batches(
            &mut self.acknowledged1,
            &mut self.todo1,
            input1,
            self.trace2_held,
            trace2,
            self.acknowledged2,
            true,
            Ghost(trace1.upper()),
        ) {
            Ok(()) => {},
            Err(e) => {
                return Err(e);
            },
        }
        match JoinOperator::accept_batches(
            &mut self.acknowledged2,
            &mut self.todo2,
            input2,
            self.trace1_held,
            trace1,
            self.acknowledged1,
            false,
            Ghost(trace2.upper()),
        ) {
            Ok(()) => {},
            Err(e) => {
                return Err(e);
            },
        }
        let ghost new1 = choose|new: Seq<Deferred>| #[trigger]
            accepted(new, input1@, ack1, old(trace2).batches@, ack2, true) && self.todo1@
                == start1 + new;
        let ghost new2 = choose|new: Seq<Deferred>| #[trigger]
            accepted(
                new,
                input2@,
                ack2,
                old(trace1).batches@,
                ack_after(input1@, ack1),
                false,
            ) && self.todo2@ == start2 + new;
        proof {
            assert(activated(
                new1,
                new2,
                input1@,
                input2@,
                ack1,
                ack2,
                old(trace1).batches@,
                old(trace2).batches@,
            ));
        }
        // Move on through what the traces know to be empty: an empty batch
        // is not sent.
        let ghost accepted1 = self.acknowledged1;
        let ghost accepted2 = self.acknowledged2;
        if self.trace1_held {
            trace1.advance_upper(&mut self.acknowledged1);
        }
        if self.trace2_held {
            trace2.advance_upper(&mut self.acknowledged2);
        }
        proof {
            lemma_frontier_le_transitive(old(self).acknowledged1, accepted1, self.acknowledged1);
            lemma_frontier_le_transitive(old(self).acknowledged2, accepted2, self.acknowledged2);
        }
        // Do some of the work that is queued.
        let ghost before_work = output@;
        let ghost queue1 = self.todo1@;
        let ghost queue2 = self.todo2@;
        match JoinOperator::work_queue(&mut self.todo1, output, yield_fn) {
            Ok(()) => {},
            Err(e) => {
                return Err(e);
            },
        }
        let ghost between = output@;
        match JoinOperator::work_queue(&mut self.todo2, output, yield_fn) {
            Ok(()) => {},
            Err(e) => {
                proof {
                    assert(output@.take(before_work.len() as int) =~= before_work) by {
                        assert forall|i: int| 0 <= i < before_work.len() implies output@[i]
                            == before_work[i] by {
                            assert(output@[i] == output@.take(between.len() as int)[i]);
                            assert(between[i] == between.take(before_work.len() as int)[i]);
                        }
                    }
                }
                return Err(e);
            },
        }
        proof {
            assert(output@.take(before_work.len() as int) =~= before_work) by {
                assert forall|i: int| 0 <= i < before_work.len() implies output@[i]
                    == before_work[i] by {
                    assert(output@[i] == output@.take(between.len() as int)[i]);
                    assert(between[i] == between.take(before_work.len() as int)[i]);
                }
            }
        }
        proof {
            assert(queue1 == start1 + new1 && queue2 == start2 + new2);
            assert forall|n: int, s: int|
                #![trigger queue_paced(*yield_fn, queue1, n, s)]
                queue_paced(*yield_fn, queue1, n, s) && queue_paced(
                    *yield_fn,
                    queue2,
                    n,
                    s,
                ) implies output@.len() - before_work.len() <= 2 * (n + s) by {
                assert(between.len() - before_work.len() <= n + s);
                assert(output@.len() - between.len() <= n + s);
            }
        }
        let again = self.todo1.len() > 0 || self.todo2.len() > 0;
        // Tell the traces how far they may compact. The frontier of the
        // other input says which times can still be asked for; what was
        // acknowledged says through which batches a cursor may still be
        // wanted.
        if self.trace1_held {
            if frontier2.is_empty() {
                self.trace1_held = false;
            } else {
                trace1.set_logical_compaction(frontier2);
                trace1.set_physical_compaction(self.acknowledged1);
            }
        }
        if self.trace2_held {
            if frontier1.is_empty() {
                self.trace2_held = false;
            } else {
                trace2.set_logical_compaction(frontier1);
                trace2.set_physical_compaction(self.acknowledged2);
            }
        }
        Ok(again)
    }
}

/// The join of two arrangements, ready for its first activation: what both
/// traces hold is acknowledged, and for every batch that the second trace
/// holds the work of joining it with what the first trace holds is queued.
/// `capability` is the time from which on that work may emit.
pub fn mz_join_core(trace1: &Trace, trace2: &Trace, capability: u64) -> (r: Result<
    JoinOperator,
    JoinError,
>)
    requires
        trace1.wf(),
        trace2.wf(),
    ensures
        match r {
            Ok(op) => op.wf() && op.acknowledged1 == trace1.upper() && op.acknowledged2
                == trace2.upper() && op.todo1@.len() == 0 && op.todo2@.len()
                == trace2.batches@.len() && op.trace1_held && op.trace2_held && forall|i: int|
                0 <= i < op.todo2@.len() ==> (#[trigger] op.todo2@[i]).storage2@
                    == trace2.batches@[i]@ && op.todo2@[i].capability == capability
                    && op.todo2@[i].cursor1.val_pos == 0 && op.todo2@[i].cursor2.key_pos == 0
                    && forall|d: Data, t: u64| #[trigger]
                    net(op.todo2@[i].storage1@, d, t) == crate::arrangement::net_through(
                        trace1.batches@,
                        trace1.upper(),
                        d,
                        t,
                    ),
            Err(e) => e == JoinError::CursorUnavailable,
        },
        // There is no cursor only where the second trace holds a batch and
        // the differences of what the first trace holds cannot be added up.
        r is Err <==> trace2.batches@.len() > 0 && crate::arrangement::total_weight(
            crate::arrangement::facts_through(trace1.batches@, trace1.upper()),
        ) > i64::MAX,
{
    // What the first trace holds is acknowledged. There is no work for it
    // yet: nothing of the second input was accepted.
    let acknowledged1 = trace1.read_upper();
    let acknowledged2 = trace2.read_upper();
    let mut todo2: VecDeque<Deferred> = VecDeque::new();
    let mut i: usize = 0;
    while i < trace2.batches.len()
        invariant
            i <= trace2.batches.len(),
            trace1.wf(),
            trace2.wf(),
            acknowledged1 == trace1.upper(),
            todo2@.len() == i,
            all_pending(todo2@),
            i > 0 ==> crate::arrangement::total_weight(
                crate::arrangement::facts_through(trace1.batches@, trace1.upper()),
            ) <= i64::MAX,
            forall|k: int|
                0 <= k < i ==> (#[trigger] todo2@[k]).storage2@ == trace2.batches@[k]@
                    && todo2@[k].capability == capability && todo2@[k].cursor1.val_pos == 0
                    && todo2@[k].cursor2.key_pos == 0 && forall|d: Data, t: u64| #[trigger]
                    net(todo2@[k].storage1@, d, t) == crate::arrangement::net_through(
                        trace1.batches@,
                        trace1.upper(),
                        d,
                        t,
                    ),
        decreases trace2.batches.len() - i,
    {
        let batch2 = clone_batch(&trace2.batches[i]);
        proof {
            assert(trace2.batches@[i as int].wf());
        }
        let storage1 = match trace1.cursor_through(acknowledged1) {
            Some(storage1) => storage1,
            None => {
                return Err(JoinError::CursorUnavailable);
            },
        };
        let cursor1 = storage1.cursor();
        let cursor2 = batch2.cursor();
        let ghost before = todo2@;
        let item = Deferred::new(cursor1, storage1, cursor2, batch2, capability);
        todo2.push_back(item);
        proof {
            assert forall|k: int| 0 <= k < todo2@.len() implies (#[trigger] todo2@[k]).wf()
                && !todo2@[k].done by {
                if k < before.len() {
                    assert(todo2@[k] == before[k]);
                }
            }
            assert forall|k: int| 0 <= k < i + 1 implies (#[trigger] todo2@[k]).storage2@
                == trace2.batches@[k]@ && todo2@[k].capability == capability
                && todo2@[k].cursor1.val_pos == 0 && todo2@[k].cursor2.key_pos == 0
                && forall|d: Data, t: u64| #[trigger]
                net(todo2@[k].storage1@, d, t) == crate::arrangement::net_through(
                    trace1.batches@,
                    trace1.upper(),
                    d,
                    t,
                ) by {
                if k < before.len() {
                    assert(todo2@[k] == before[k]);
                }
            }
        }
        i = i + 1;
    }
    Ok(
        JoinOperator {
            acknowledged1,
            acknowledged2,
            todo1: VecDeque::new(),
            todo2,
            trace1_held: true,
            trace2_held: true,
        },
    )
}

/// `output` is `start` and behind it updates at `cap` or later.
pub open spec fn progress(output: Seq<Update>, start: Seq<Update>, cap: u64) -> bool {
    start.len() <= output.len() && output.take(start.len() as int) == start && not_before(
        output,
        start.len() as int,
        cap,
    )
}

/// Outputs that follow outputs at `cap` or later and are themselves at
/// `cap` or later keep that up.
pub proof fn lemma_progress_step(start: Seq<Update>, before: Seq<Update>, after: Seq<Update>, cap: u64)
    requires
        progress(before, start, cap),
        before.len() <= after.len(),
        after.take(before.len() as int) == before,
        not_before(after, before.len() as int, cap),
    ensures
        progress(after, start, cap),
{
    assert(after.take(start.len() as int) =~= start) by {
        assert forall|i: int| 0 <= i < start.len() implies after[i] == start[i] by {
            assert(after[i] == after.take(before.len() as int)[i]);
            assert(before[i] == before.take(start.len() as int)[i]);
        }
    }
    assert forall|i: int| start.len() <= i < after.len() implies (#[trigger] after[i]).1 >= cap by {
        if i < before.len() {
            assert(after[i] == after.take(before.len() as int)[i]);
        }
    }
}

impl Deferred {
    /// Whether the value at which the first cursor stands is joined with
    /// a part of the values of its key on the second side.
    fn is_midway(&self) -> (b: bool)
        requires
            sorted(self.storage1@),
            sorted(self.storage2@),
            self.cursor1.wf(self.storage1@),
            self.cursor2.wf(self.storage2@),
        ensures
            b == self.midway(),
    {
        if self.cursor1.key_pos >= self.storage1.len() || self.cursor2.key_pos
            >= self.storage2.len() {
            return false;
        }
        proof {
            lemma_key_end(self.storage2@, self.cursor2.key_pos as int);
        }
        self.cursor1.key(&self.storage1) == self.cursor2.key(&self.storage2)
            && self.cursor1.get_val(&self.storage1).is_some() && self.cursor2.key_pos
            < self.cursor2.val_pos && self.cursor2.get_val(&self.storage2).is_some()
    }

    /// Whether the work is in order.
    pub fn check(&self) -> (b: bool)
        ensures
            b == self.wf(),
    {
        crate::arrangement::is_sorted(&self.storage1.facts) && crate::arrangement::is_sorted(
            &self.storage2.facts,
        ) && self.cursor1.check(&self.storage1) && self.cursor2.check(&self.storage2) && (
        self.cursor2.val_pos == self.cursor2.key_pos || self.is_midway()) && self.temp.len() == 0
    }
}

fn check_queue(todo: &VecDeque<Deferred>) -> (b: bool)
    ensures
        b == all_pending(todo@),
{
    let mut i: usize = 0;
    while i < todo.len()
        invariant
            i <= todo.len(),
            forall|k: int| 0 <= k < i ==> (#[trigger] todo@[k]).wf() && !todo@[k].done,
        decreases todo.len() - i,
    {
        if !todo[i].check() || todo[i].done {
            return false;
        }
        i = i + 1;
    }
    true
}

impl JoinOperator {
    /// Whether the work that is queued is in order.
    pub fn check(&self) -> (b: bool)
        ensures
            b == self.wf(),
    {
        check_queue(&self.todo1) && check_queue(&self.todo2)
    }
}

} // verus!
