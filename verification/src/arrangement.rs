//! Arrangements: collections of facts indexed by key and versioned by time.
//!
//! A fact is an update whose data holds a key and a value. A batch holds the
//! facts of a span of times in order; a trace holds the batches that were
//! accepted so far, one span after the other. A cursor walks the keys of a
//! batch, the values of a key and the times of a value, and can be left
//! anywhere and taken up again.

use crate::consolidation::{
    consolidate_updates, lemma_net_concat, lemma_weight_bounds, net, nonzero, sorted, summable,
    update_less, weight, Data, Update,
};
use vstd::prelude::*;

verus! {

/// The times from which on updates may still come: all from `bound` on, or
/// none where there is no bound.
#[derive(Debug, Clone, Copy, PartialEq, Eq, Structural)]
pub struct Frontier {
    pub bound: Option<u64>,
}

impl Frontier {
    /// This frontier comes no later than `other`: whatever may still come
    /// after `other` may still come after this one.
    pub open spec fn le(self, other: Frontier) -> bool {
        match (self.bound, other.bound) {
            (_, None) => true,
            (None, Some(_)) => false,
            (Some(a), Some(b)) => a <= b,
        }
    }

    /// An update at `time` may still come.
    pub open spec fn admits(self, time: u64) -> bool {
        self.bound matches Some(bound) && bound <= time
    }

    /// The later of two frontiers.
    pub open spec fn later(self, other: Frontier) -> Frontier {
        if self.le(other) {
            other
        } else {
            self
        }
    }

    /// The frontier at the least time.
    pub open spec fn least() -> Frontier {
        (Frontier { bound: Some(0u64) })
    }

    /// The frontier at the least time: everything may still come.
    pub fn minimum() -> (f: Frontier)
        ensures
            f == Frontier::least(),
    {
        Frontier { bound: Some(0) }
    }

    /// The frontier at `time`.
    pub fn from_elem(time: u64) -> (f: Frontier)
        ensures
            f.bound == Some(time),
    {
        Frontier { bound: Some(time) }
    }

    /// The frontier after which nothing comes.
    pub fn empty() -> (f: Frontier)
        ensures
            f.bound is None,
    {
        Frontier { bound: None }
    }

    /// Whether nothing may come any more.
    pub fn is_empty(&self) -> (b: bool)
        ensures
            b == (self.bound is None),
    {
        self.bound.is_none()
    }

    /// Whether this frontier comes no later than `other`.
    pub fn less_equal(&self, other: &Frontier) -> (b: bool)
        ensures
            b == self.le(*other),
    {
        match (self.bound, other.bound) {
            (_, None) => true,
            (None, Some(_)) => false,
            (Some(a), Some(b)) => a <= b,
        }
    }

    /// Whether an update at `time` may still come.
    pub fn less_equal_time(&self, time: u64) -> (b: bool)
        ensures
            b == self.admits(time),
    {
        match self.bound {
            Some(bound) => bound <= time,
            None => false,
        }
    }

    /// The later of this frontier and `other`.
    pub fn join(&self, other: &Frontier) -> (f: Frontier)
        ensures
            f == self.later(*other),
            self.le(f),
            other.le(f),
    {
        if self.less_equal(other) {
            *other
        } else {
            *self
        }
    }
}

/// The key of a fact.
pub open spec fn key_of(u: Update) -> u64 {
    u.0.0
}

/// The value of a fact.
pub open spec fn val_of(u: Update) -> u64 {
    u.0.1
}

/// Where the facts with the key of the `i`-th fact end.
pub open spec fn key_end(s: Seq<Update>, i: int) -> int
    decreases s.len() - i,
{
    if 0 <= i && i + 1 < s.len() && key_of(s[i + 1]) == key_of(s[i]) {
        key_end(s, i + 1)
    } else {
        i + 1
    }
}

/// Where the facts with the key and the value of the `i`-th fact end.
pub open spec fn val_end(s: Seq<Update>, i: int) -> int
    decreases s.len() - i,
{
    if 0 <= i && i + 1 < s.len() && key_of(s[i + 1]) == key_of(s[i]) && val_of(s[i + 1]) == val_of(
        s[i],
    ) {
        val_end(s, i + 1)
    } else {
        i + 1
    }
}

/// The end of a key lies behind its facts and within all facts.
pub proof fn lemma_key_end_bounds(s: Seq<Update>, i: int)
    requires
        0 <= i < s.len(),
    ensures
        i < key_end(s, i) <= s.len(),
    decreases s.len() - i,
{
    if i + 1 < s.len() && key_of(s[i + 1]) == key_of(s[i]) {
        lemma_key_end_bounds(s, i + 1);
    }
}

/// The facts of `s` are facts: their third number is not used.
pub open spec fn facts_only(s: Seq<Update>) -> bool {
    forall|i: int| 0 <= i < s.len() ==> (#[trigger] s[i]).0.2 == 0
}

/// In sorted facts the keys ascend, and among equal keys the values.
pub proof fn lemma_sorted_keys(s: Seq<Update>, i: int, j: int)
    requires
        sorted(s),
        0 <= i <= j < s.len(),
    ensures
        key_of(s[i]) <= key_of(s[j]),
        key_of(s[i]) == key_of(s[j]) ==> val_of(s[i]) <= val_of(s[j]),
{
    if i < j {
        assert(update_less(s[i].0, s[i].1, s[j].0, s[j].1));
    }
}

/// The facts from `i` up to the end of its key have its key, and those
/// behind have greater keys.
pub proof fn lemma_key_end(s: Seq<Update>, i: int)
    requires
        sorted(s),
        0 <= i < s.len(),
    ensures
        i < key_end(s, i) <= s.len(),
        forall|j: int| i <= j < key_end(s, i) ==> key_of(#[trigger] s[j]) == key_of(s[i]),
        forall|j: int| key_end(s, i) <= j < s.len() ==> key_of(#[trigger] s[j]) > key_of(s[i]),
    decreases s.len() - i,
{
    if i + 1 < s.len() && key_of(s[i + 1]) == key_of(s[i]) {
        lemma_key_end(s, i + 1);
    } else {
        assert forall|j: int| i + 1 <= j < s.len() implies key_of(#[trigger] s[j]) > key_of(
            s[i],
        ) by {
            lemma_sorted_keys(s, i, i + 1);
            lemma_sorted_keys(s, i + 1, j);
        }
    }
}

/// The facts from `i` up to the end of its value have its key and value,
/// and those behind within the key have greater values.
pub proof fn lemma_val_end(s: Seq<Update>, i: int)
    requires
        sorted(s),
        0 <= i < s.len(),
    ensures
        i < val_end(s, i) <= key_end(s, i),
        forall|j: int|
            i <= j < val_end(s, i) ==> key_of(#[trigger] s[j]) == key_of(s[i]) && val_of(s[j])
                == val_of(s[i]),
        forall|j: int|
            val_end(s, i) <= j < key_end(s, i) ==> val_of(#[trigger] s[j]) > val_of(s[i]),
    decreases s.len() - i,
{
    lemma_key_end(s, i);
    if i + 1 < s.len() && key_of(s[i + 1]) == key_of(s[i]) && val_of(s[i + 1]) == val_of(s[i]) {
        lemma_val_end(s, i + 1);
        lemma_key_end(s, i + 1);
    } else {
        assert forall|j: int| i + 1 <= j < key_end(s, i) implies val_of(#[trigger] s[j])
            > val_of(s[i]) by {
            lemma_sorted_keys(s, i, i + 1);
            lemma_sorted_keys(s, i + 1, j);
            lemma_sorted_keys(s, i, j);
        }
    }
}

/// The facts of a span of times, in order.
#[derive(Debug, Clone)]
pub struct Batch {
    pub facts: Vec<Update>,
    pub lower: Frontier,
    pub upper: Frontier,
}

impl View for Batch {
    type V = Seq<Update>;

    open spec fn view(&self) -> Seq<Update> {
        self.facts@
    }
}

impl Batch {
    /// The facts are in order, none twice, none with the difference zero,
    /// all at times from the lower end of the span on and before its upper
    /// end.
    pub open spec fn wf(&self) -> bool {
        &&& sorted(self@)
        &&& nonzero(self@)
        &&& facts_only(self@)
        &&& self.lower.le(self.upper)
        &&& forall|i: int|
            0 <= i < self@.len() ==> self.lower.admits((#[trigger] self@[i]).1)
                && !self.upper.admits(self@[i].1)
    }

    /// Whether the batch holds no fact.
    pub fn is_empty(&self) -> (b: bool)
        ensures
            b == (self@.len() == 0),
    {
        self.facts.len() == 0
    }

    /// The number of facts.
    pub fn len(&self) -> (n: usize)
        ensures
            n == self@.len(),
    {
        self.facts.len()
    }

    /// A cursor at the first key.
    pub fn cursor(&self) -> (c: Cursor)
        ensures
            c.key_pos == 0,
            c.val_pos == 0,
            c.wf(self@),
    {
        proof {
            if self@.len() > 0 {
                lemma_key_end_bounds(self@, 0);
            }
        }
        Cursor { key_pos: 0, val_pos: 0 }
    }
}

/// A place in the facts of a batch: the first fact of a key, and within the
/// key the first fact of a value.
#[derive(Debug, Clone, Copy)]
pub struct Cursor {
    pub key_pos: usize,
    pub val_pos: usize,
}

impl Cursor {
    /// The cursor stands at a key and at a value of that key, or behind the
    /// values of the key, or behind all facts.
    pub open spec fn wf(&self, s: Seq<Update>) -> bool {
        &&& self.key_pos <= self.val_pos <= s.len()
        &&& self.key_pos < s.len() ==> self.val_pos <= key_end(s, self.key_pos as int)
    }

    /// The cursor stands at a value of its key.
    pub open spec fn val_valid(&self, s: Seq<Update>) -> bool {
        self.val_pos < s.len() && key_of(s[self.val_pos as int]) == key_of(
            s[self.key_pos as int],
        )
    }

    /// Whether the cursor stands at a key.
    pub fn key_valid(&self, storage: &Batch) -> (b: bool)
        ensures
            b == (self.key_pos < storage@.len()),
    {
        self.key_pos < storage.facts.len()
    }

    /// The key at which the cursor stands.
    pub fn key(&self, storage: &Batch) -> (key: u64)
        requires
            self.key_pos < storage@.len(),
        ensures
            key == key_of(storage@[self.key_pos as int]),
    {
        storage.facts[self.key_pos].0.0
    }

    /// The value at which the cursor stands, if it stands at one.
    pub fn get_val(&self, storage: &Batch) -> (val: Option<u64>)
        requires
            self.wf(storage@),
            self.key_pos < storage@.len(),
        ensures
            match val {
                Some(v) => self.val_valid(storage@) && v == val_of(storage@[self.val_pos as int]),
                None => !self.val_valid(storage@),
            },
    {
        if self.val_pos < storage.facts.len() && storage.facts[self.val_pos].0.0
            == storage.facts[self.key_pos].0.0 {
            Some(storage.facts[self.val_pos].0.1)
        } else {
            None
        }
    }

    /// Moves to the next key.
    pub fn step_key(&mut self, storage: &Batch)
        requires
            sorted(storage@),
            old(self).wf(storage@),
            old(self).key_pos < storage@.len(),
        ensures
            final(self).key_pos == key_end(storage@, old(self).key_pos as int),
            final(self).val_pos == final(self).key_pos,
            final(self).wf(storage@),
    {
        let key = storage.facts[self.key_pos].0.0;
        let mut at = self.key_pos;
        let n = storage.facts.len();
        proof {
            lemma_key_end(storage@, self.key_pos as int);
        }
        while at + 1 < n && storage.facts[at + 1].0.0 == key
            invariant
                sorted(storage@),
                n == storage@.len(),
                self.key_pos <= at < storage@.len(),
                key == key_of(storage@[at as int]),
                key_end(storage@, at as int) == key_end(storage@, self.key_pos as int),
            decreases storage@.len() - at,
        {
            at = at + 1;
        }
        self.key_pos = at + 1;
        self.val_pos = self.key_pos;
        proof {
            if self.key_pos < storage@.len() {
                lemma_key_end_bounds(storage@, self.key_pos as int);
            }
        }
    }

    /// Moves to the first key that is not below `key`.
    pub fn seek_key(&mut self, storage: &Batch, key: u64)
        requires
            sorted(storage@),
            old(self).wf(storage@),
        ensures
            old(self).key_pos <= final(self).key_pos <= storage@.len(),
            final(self).val_pos == final(self).key_pos,
            final(self).wf(storage@),
            forall|j: int|
                old(self).key_pos <= j < final(self).key_pos ==> key_of(#[trigger] storage@[j])
                    < key,
            final(self).key_pos < storage@.len() ==> key_of(storage@[final(self).key_pos as int])
                >= key,
    {
        let mut at = self.key_pos;
        while at < storage.facts.len() && storage.facts[at].0.0 < key
            invariant
                self.key_pos <= at <= storage@.len(),
                forall|j: int| self.key_pos <= j < at ==> key_of(#[trigger] storage@[j]) < key,
            decreases storage@.len() - at,
        {
            at = at + 1;
        }
        self.key_pos = at;
        self.val_pos = at;
        proof {
            if at < storage@.len() {
                lemma_key_end(storage@, at as int);
            }
        }
    }

    /// Moves to the next value of the key.
    pub fn step_val(&mut self, storage: &Batch)
        requires
            sorted(storage@),
            old(self).wf(storage@),
            old(self).key_pos < storage@.len(),
            old(self).val_valid(storage@),
        ensures
            final(self).key_pos == old(self).key_pos,
            final(self).val_pos == val_end(storage@, old(self).val_pos as int),
            final(self).wf(storage@),
    {
        let end = self.times_end(storage);
        proof {
            lemma_val_end(storage@, self.val_pos as int);
            lemma_key_end(storage@, self.key_pos as int);
            lemma_key_end(storage@, self.val_pos as int);
            // The end of the value lies within the key of the cursor.
            if end > key_end(storage@, self.key_pos as int) {
                assert(key_of(storage@[end - 1]) == key_of(storage@[self.val_pos as int]));
            }
        }
        self.val_pos = end;
    }

    /// Moves back to the first value of the key.
    pub fn rewind_vals(&mut self, storage: &Batch)
        requires
            sorted(storage@),
            old(self).wf(storage@),
        ensures
            final(self).key_pos == old(self).key_pos,
            final(self).val_pos == old(self).key_pos,
            final(self).wf(storage@),
    {
        self.val_pos = self.key_pos;
        proof {
            if self.key_pos < storage@.len() {
                lemma_key_end(storage@, self.key_pos as int);
            }
        }
    }

    /// Where the times of the value at which the cursor stands end: they
    /// are the facts from the cursor up to there.
    pub fn times_end(&self, storage: &Batch) -> (end: usize)
        requires
            sorted(storage@),
            self.val_pos < storage@.len(),
        ensures
            end == val_end(storage@, self.val_pos as int),
            self.val_pos < end <= storage@.len(),
    {
        let key = storage.facts[self.val_pos].0.0;
        let val = storage.facts[self.val_pos].0.1;
        let mut at = self.val_pos;
        let n = storage.facts.len();
        proof {
            lemma_val_end(storage@, self.val_pos as int);
            lemma_key_end(storage@, self.val_pos as int);
        }
        while at + 1 < n && storage.facts[at + 1].0.0 == key && storage.facts[at + 1].0.1 == val
            invariant
                n == storage@.len(),
                self.val_pos <= at < storage@.len(),
                key == key_of(storage@[at as int]),
                val == val_of(storage@[at as int]),
                val_end(storage@, at as int) == val_end(storage@, self.val_pos as int),
            decreases storage@.len() - at,
        {
            at = at + 1;
        }
        at + 1
    }
}

/// The facts of the batches of `batches` whose spans end no later than
/// `through`, one batch after the other.
pub open spec fn facts_through(batches: Seq<Batch>, through: Frontier) -> Seq<Update>
    decreases batches.len(),
{
    if batches.len() == 0 {
        Seq::<Update>::empty()
    } else {
        facts_through(batches.drop_last(), through) + if batches.last().upper.le(through) {
            batches.last()@
        } else {
            Seq::<Update>::empty()
        }
    }
}

/// The frontier `frontier` moved on through the empty batches of `batches`
/// that begin where it stands, one after the other.
pub open spec fn past_empty(batches: Seq<Batch>, frontier: Frontier) -> Frontier
    decreases batches.len(),
{
    if batches.len() == 0 {
        frontier
    } else {
        let before = past_empty(batches.drop_last(), frontier);
        if batches.last()@.len() == 0 && batches.last().lower.bound == before.bound {
            batches.last().upper
        } else {
            before
        }
    }
}

/// What `differences` add up to for `d` at `t` over the batches of
/// `batches` whose spans end no later than `through`.
pub open spec fn net_through(batches: Seq<Batch>, through: Frontier, d: Data, t: u64) -> int
    decreases batches.len(),
{
    if batches.len() == 0 {
        0
    } else {
        net_through(batches.drop_last(), through, d, t) + if batches.last().upper.le(through) {
            net(batches.last()@, d, t)
        } else {
            0
        }
    }
}

/// The sizes of the differences of `s`, added up.
pub open spec fn total_weight(s: Seq<Update>) -> int
    decreases s.len(),
{
    if s.len() == 0 {
        0
    } else {
        total_weight(s.drop_last()) + if s.last().2 < 0 {
            -(s.last().2 as int)
        } else {
            s.last().2 as int
        }
    }
}

/// The sizes of the differences of the first updates add up to no more than
/// those of all.
pub proof fn lemma_total_weight_take(s: Seq<Update>, k: int)
    requires
        0 <= k <= s.len(),
    ensures
        0 <= total_weight(s.take(k)) <= total_weight(s),
    decreases s.len() - k,
{
    if k < s.len() {
        assert(s.take(k + 1).drop_last() =~= s.take(k));
        lemma_total_weight_take(s, k + 1);
        lemma_total_weight_least(s.take(k));
    } else {
        assert(s.take(k) =~= s);
        lemma_total_weight_least(s);
    }
}

/// The sizes of differences add up to zero or more.
pub proof fn lemma_total_weight_least(s: Seq<Update>)
    ensures
        0 <= total_weight(s),
    decreases s.len(),
{
    if s.len() > 0 {
        lemma_total_weight_least(s.drop_last());
    }
}

/// The sizes of the differences of one data at one time add up to no more
/// than those of all.
pub proof fn lemma_weight_le_total(s: Seq<Update>, d: Data, t: u64)
    ensures
        weight(s, d, t) <= total_weight(s),
    decreases s.len(),
{
    if s.len() > 0 {
        lemma_weight_le_total(s.drop_last(), d, t);
    }
}

/// The sum of the sizes of the differences of `s`, if it is no more than
/// the greatest difference. Then the differences can be added up in any
/// order.
pub fn checked_weight(s: &Vec<Update>) -> (total: Option<i64>)
    ensures
        match total {
            Some(w) => w == total_weight(s@) && summable(s@),
            None => total_weight(s@) > i64::MAX,
        },
{
    let mut total: i64 = 0;
    let mut i: usize = 0;
    while i < s.len()
        invariant
            i <= s.len(),
            total == total_weight(s@.take(i as int)),
            0 <= total,
        decreases s.len() - i,
    {
        let diff = s[i].2;
        proof {
            assert(s@.take(i + 1).drop_last() =~= s@.take(i as int));
            assert(s@.take(i + 1).last() == s@[i as int]);
            lemma_total_weight_take(s@, i + 1);
        }
        if diff == i64::MIN {
            return None;
        }
        let size = if diff < 0 {
            -diff
        } else {
            diff
        };
        let next = match total.checked_add(size) {
            Some(next) => next,
            None => {
                return None;
            },
        };
        total = next;
        i = i + 1;
    }
    proof {
        assert(s@.take(s@.len() as int) =~= s@);
        assert forall|d: Data, t: u64| #[trigger] weight(s@, d, t) <= i64::MAX by {
            lemma_weight_le_total(s@, d, t);
        }
    }
    Some(total)
}

/// The batches that were accepted of one arrangement, and how far its
/// reader lets it compact.
#[derive(Debug, Clone)]
pub struct Trace {
    pub batches: Vec<Batch>,
    pub physical: Frontier,
    pub logical: Frontier,
}

impl Trace {
    /// The upper end of the last batch, or the least time before any batch.
    pub open spec fn upper(&self) -> Frontier {
        if self.batches@.len() == 0 {
            Frontier::least()
        } else {
            self.batches@.last().upper
        }
    }

    /// The batches follow one another from the least time on, and neither
    /// compaction has gone beyond the last of them.
    pub open spec fn wf(&self) -> bool {
        &&& forall|i: int| 0 <= i < self.batches@.len() ==> (#[trigger] self.batches@[i]).wf()
        &&& self.batches@.len() > 0 ==> self.batches@[0].lower == Frontier::least()
        &&& forall|i: int|
            0 < i < self.batches@.len() ==> (#[trigger] self.batches@[i]).lower == self.batches@[i
                - 1].upper
        &&& self.physical.le(self.upper())
    }

    /// The two compactions stand in order: the batches are merged no
    /// further than times are advanced, and times are advanced no further
    /// than the last batch.
    pub open spec fn compaction_ordered(&self) -> bool {
        self.physical.le(self.logical) && self.logical.le(self.upper())
    }

    /// Whether the two compactions stand in order.
    pub fn is_compaction_ordered(&self) -> (b: bool)
        ensures
            b == self.compaction_ordered(),
    {
        let upper = self.read_upper();
        self.physical.less_equal(&self.logical) && self.logical.less_equal(&upper)
    }

    /// A trace without batches.
    pub fn new() -> (trace: Trace)
        ensures
            trace.wf(),
            trace.compaction_ordered(),
            trace.batches@.len() == 0,
            trace.physical == Frontier::least(),
            trace.logical == Frontier::least(),
    {
        Trace { batches: Vec::new(), physical: Frontier::minimum(), logical: Frontier::minimum() }
    }

    /// The upper end of the last batch.
    pub fn read_upper(&self) -> (f: Frontier)
        ensures
            f == self.upper(),
    {
        if self.batches.len() == 0 {
            Frontier::minimum()
        } else {
            self.batches[self.batches.len() - 1].upper
        }
    }

    /// Accepts `batch`, which must begin where the last batch ends.
    pub fn insert(&mut self, batch: Batch)
        requires
            old(self).wf(),
            batch.wf(),
            batch.lower == old(self).upper(),
        ensures
            final(self).wf(),
            final(self).batches@ == old(self).batches@.push(batch),
            final(self).physical == old(self).physical,
            final(self).logical == old(self).logical,
            old(self).compaction_ordered() ==> final(self).compaction_ordered(),
    {
        proof {
            assert(self.physical.le(batch.upper)) by {
                assert(self.physical.le(self.upper()));
            }
        }
        self.batches.push(batch);
    }

    /// How far the batches may be merged.
    pub fn get_physical_compaction(&self) -> (f: Frontier)
        ensures
            f == self.physical,
    {
        self.physical
    }

    /// How far times may be advanced.
    pub fn get_logical_compaction(&self) -> (f: Frontier)
        ensures
            f == self.logical,
    {
        self.logical
    }

    /// Lets times be advanced up to `frontier`. What was allowed stays
    /// allowed. The compactions stay in order where `frontier` does not
    /// lie beyond the last batch.
    pub fn set_logical_compaction(&mut self, frontier: Frontier)
        ensures
            final(self).logical == old(self).logical.later(frontier),
            final(self).physical == old(self).physical,
            final(self).batches == old(self).batches,
            old(self).wf() ==> final(self).wf(),
            old(self).compaction_ordered() && frontier.le(old(self).upper())
                ==> final(self).compaction_ordered(),
    {
        self.logical = self.logical.join(&frontier);
    }

    /// Lets the batches be merged up to `frontier`, which must not lie
    /// beyond the last batch. What was allowed stays allowed. The
    /// compactions stay in order where `frontier` does not lie beyond what
    /// times are advanced to.
    pub fn set_physical_compaction(&mut self, frontier: Frontier)
        requires
            frontier.le(old(self).upper()),
        ensures
            final(self).physical == old(self).physical.later(frontier),
            final(self).logical == old(self).logical,
            final(self).batches == old(self).batches,
            old(self).wf() ==> final(self).wf(),
            old(self).compaction_ordered() && frontier.le(old(self).logical)
                ==> final(self).compaction_ordered(),
    {
        self.physical = self.physical.join(&frontier);
    }

    /// Moves `frontier` on through the empty batches that begin at it.
    pub fn advance_upper(&self, frontier: &mut Frontier)
        requires
            self.wf(),
        ensures
            *final(frontier) == past_empty(self.batches@, *old(frontier)),
            old(frontier).le(*final(frontier)),
            old(frontier).le(self.upper()) ==> final(frontier).le(self.upper()),
            self.is_boundary(*old(frontier)) ==> self.is_boundary(*final(frontier)),
    {
        let ghost start = *frontier;
        let mut i: usize = 0;
        proof {
            assert(self.batches@.take(0) =~= Seq::<Batch>::empty());
        }
        while i < self.batches.len()
            invariant
                i <= self.batches.len(),
                self.wf(),
                start == *old(frontier),
                *frontier == past_empty(self.batches@.take(i as int), start),
                start.le(*frontier),
                start.le(self.upper()) ==> frontier.le(self.upper()),
                self.is_boundary(start) ==> self.is_boundary(*frontier),
            decreases self.batches.len() - i,
        {
            let batch = &self.batches[i];
            proof {
                assert(self.batches@.take(i + 1).drop_last() =~= self.batches@.take(i as int));
                assert(self.batches@.take(i + 1).last() == self.batches@[i as int]);
            }
            if batch.is_empty() && batch.lower.bound == frontier.bound {
                proof {
                    self.lemma_upper_le(i as int);
                    assert(batch.wf());
                }
                *frontier = batch.upper;
            }
            i = i + 1;
        }
        proof {
            assert(self.batches@.take(self.batches@.len() as int) =~= self.batches@);
        }
    }

    /// `frontier` is where a batch of the trace begins or ends.
    pub open spec fn is_boundary(&self, frontier: Frontier) -> bool {
        frontier == Frontier::least() || exists|i: int|
            0 <= i < self.batches@.len() && (#[trigger] self.batches@[i]).upper == frontier
    }

    /// The spans of the batches end one no later than the next.
    pub proof fn lemma_upper_le(&self, i: int)
        requires
            self.wf(),
            0 <= i < self.batches@.len(),
        ensures
            self.batches@[i].upper.le(self.upper()),
            self.batches@[i].lower.le(self.batches@[i].upper),
        decreases self.batches@.len() - i,
    {
        assert(self.batches@[i].wf());
        if i + 1 < self.batches@.len() {
            self.lemma_upper_le(i + 1);
            assert(self.batches@[i + 1].wf());
            assert(self.batches@[i + 1].lower == self.batches@[i].upper);
        }
    }

    /// The facts of the batches whose spans end no later than `through`,
    /// consolidated into one batch. There is none where the batches up to
    /// there may already be merged with later ones, and none where adding
    /// up the differences overflows.
    pub fn cursor_through(&self, through: Frontier) -> (r: Option<Batch>)
        requires
            self.wf(),
        ensures
            r is None <==> !self.physical.le(through) || total_weight(
                facts_through(self.batches@, through),
            ) > i64::MAX,
            r matches Some(batch) ==> sorted(batch@) && nonzero(batch@) && facts_only(batch@)
                && batch.lower == Frontier::least() && batch.upper == through && forall|
                d: Data,
                t: u64,
            | #[trigger]
                net(batch@, d, t) == net_through(self.batches@, through, d, t),
    {
        if !self.physical.less_equal(&through) {
            return None;
        }
        let mut all: Vec<Update> = Vec::new();
        let mut i: usize = 0;
        while i < self.batches.len()
            invariant
                i <= self.batches.len(),
                self.wf(),
                facts_only(all@),
                all@ == facts_through(self.batches@.take(i as int), through),
                forall|d: Data, t: u64| #[trigger]
                    net(all@, d, t) == net_through(self.batches@.take(i as int), through, d, t),
            decreases self.batches.len() - i,
        {
            let batch = &self.batches[i];
            let ghost before = all@;
            proof {
                assert(self.batches@.take(i + 1).drop_last() =~= self.batches@.take(i as int));
                assert(self.batches@.take(i + 1).last() == self.batches@[i as int]);
                assert(batch.wf());
            }
            if batch.upper.less_equal(&through) {
                let mut k: usize = 0;
                assert(before + batch@.take(0) =~= before);
                while k < batch.facts.len()
                    invariant
                        k <= batch.facts.len(),
                        facts_only(batch@),
                        facts_only(all@),
                        all@ == before + batch@.take(k as int),
                    decreases batch.facts.len() - k,
                {
                    all.push(batch.facts[k]);
                    assert(batch@.take(k + 1) =~= batch@.take(k as int).push(batch@[k as int]));
                    k = k + 1;
                }
                proof {
                    assert(batch@.take(batch@.len() as int) =~= batch@);
                    assert forall|d: Data, t: u64| #[trigger]
                        net(all@, d, t) == net_through(
                            self.batches@.take(i + 1),
                            through,
                            d,
                            t,
                        ) by {
                        lemma_net_concat(before, batch@, d, t);
                    }
                }
            }
            i = i + 1;
        }
        proof {
            assert(self.batches@.take(self.batches@.len() as int) =~= self.batches@);
            assert(self.batches@.take(0) =~= Seq::<Batch>::empty());
        }
        if checked_weight(&all).is_none() {
            return None;
        }
        let ghost gathered = all@;
        consolidate_updates(&mut all);
        proof {
            lemma_consolidated_data(gathered, all@);
        }
        Some(Batch { facts: all, lower: Frontier::minimum(), upper: through })
    }
}

/// In sorted updates the differences of the data of an update at its time
/// add up to the difference of that update.
pub proof fn lemma_sorted_net(s: Seq<Update>, i: int)
    requires
        sorted(s),
        0 <= i < s.len(),
    ensures
        net(s, s[i].0, s[i].1) == s[i].2,
    decreases s.len(),
{
    let d = s[i].0;
    let t = s[i].1;
    let front = s.drop_last();
    assert(sorted(front)) by {
        assert forall|a: int, b: int| 0 <= a < b < front.len() implies update_less(
            (#[trigger] front[a]).0,
            front[a].1,
            (#[trigger] front[b]).0,
            front[b].1,
        ) by {
            assert(front[a] == s[a] && front[b] == s[b]);
        }
    }
    if i == s.len() - 1 {
        assert forall|j: int| 0 <= j < front.len() implies !((#[trigger] front[j]).0 == d
            && front[j].1 == t) by {
            assert(front[j] == s[j]);
            assert(update_less(s[j].0, s[j].1, s[i].0, s[i].1));
        }
        lemma_weight_bounds(front, d, t);
    } else {
        assert(front[i] == s[i]);
        lemma_sorted_net(front, i);
        assert(update_less(s[i].0, s[i].1, s[s.len() - 1].0, s[s.len() - 1].1));
    }
}

/// Where the differences of some data at a time do not add up to nothing,
/// the data occurs at that time.
pub proof fn lemma_net_witness(s: Seq<Update>, d: Data, t: u64) -> (i: int)
    requires
        net(s, d, t) != 0,
    ensures
        0 <= i < s.len(),
        s[i].0 == d,
        s[i].1 == t,
    decreases s.len(),
{
    if s.last().0 == d && s.last().1 == t {
        s.len() - 1
    } else {
        let i = lemma_net_witness(s.drop_last(), d, t);
        assert(s.drop_last()[i] == s[i]);
        i
    }
}

/// `d` occurs at `t` among the updates of `s`.
pub open spec fn occurs(s: Seq<Update>, d: Data, t: u64) -> bool {
    exists|j: int| 0 <= j < s.len() && (#[trigger] s[j]).0 == d && s[j].1 == t
}

/// What is consolidated holds no data that was not there before.
pub proof fn lemma_consolidated_data(before: Seq<Update>, after: Seq<Update>)
    requires
        sorted(after),
        nonzero(after),
        forall|d: Data, t: u64| #[trigger] net(after, d, t) == net(before, d, t),
    ensures
        forall|i: int| 0 <= i < after.len() ==> occurs(before, (#[trigger] after[i]).0, after[i].1),
        facts_only(before) ==> facts_only(after),
{
    assert forall|i: int| 0 <= i < after.len() implies occurs(
        before,
        (#[trigger] after[i]).0,
        after[i].1,
    ) by {
        lemma_sorted_net(after, i);
        assert(net(after, after[i].0, after[i].1) == net(before, after[i].0, after[i].1));
        let j = lemma_net_witness(before, after[i].0, after[i].1);
        assert(before[j].0 == after[i].0 && before[j].1 == after[i].1);
    }
    if facts_only(before) {
        assert forall|i: int| 0 <= i < after.len() implies (#[trigger] after[i]).0.2 == 0 by {
            lemma_sorted_net(after, i);
            assert(net(after, after[i].0, after[i].1) == net(before, after[i].0, after[i].1));
            let j = lemma_net_witness(before, after[i].0, after[i].1);
            assert(before[j].0.2 == 0);
        }
    }
}

/// Updates of which each comes before the next are in order.
pub proof fn lemma_adjacent_sorted(s: Seq<Update>)
    requires
        forall|k: int| 0 < k < s.len() ==> update_less(s[k - 1].0, s[k - 1].1, (#[trigger] s[k]).0, s[k].1),
    ensures
        sorted(s),
{
    assert forall|i: int, j: int| 0 <= i < j < s.len() implies update_less(
        (#[trigger] s[i]).0,
        s[i].1,
        (#[trigger] s[j]).0,
        s[j].1,
    ) by {
        lemma_adjacent_reach(s, i, j);
    }
}

proof fn lemma_adjacent_reach(s: Seq<Update>, i: int, j: int)
    requires
        forall|k: int| 0 < k < s.len() ==> update_less(s[k - 1].0, s[k - 1].1, (#[trigger] s[k]).0, s[k].1),
        0 <= i < j < s.len(),
    ensures
        update_less(s[i].0, s[i].1, s[j].0, s[j].1),
    decreases j - i,
{
    assert(update_less(s[j - 1].0, s[j - 1].1, s[j].0, s[j].1));
    if i < j - 1 {
        lemma_adjacent_reach(s, i, j - 1);
    }
}

/// Whether `a` comes before `b`.
pub fn update_before(a: &Update, b: &Update) -> (less: bool)
    ensures
        less == update_less(a.0, a.1, b.0, b.1),
{
    a.0.0 < b.0.0 || (a.0.0 == b.0.0 && (a.0.1 < b.0.1 || (a.0.1 == b.0.1 && (a.0.2 < b.0.2 || (
    a.0.2 == b.0.2 && a.1 < b.1)))))
}

/// Whether the updates of `s` are in order.
pub fn is_sorted(s: &Vec<Update>) -> (b: bool)
    ensures
        b == sorted(s@),
{
    let mut i: usize = 1;
    while i < s.len()
        invariant
            1 <= i,
            forall|k: int|
                0 < k < i && k < s@.len() ==> update_less(
                    s@[k - 1].0,
                    s@[k - 1].1,
                    (#[trigger] s@[k]).0,
                    s@[k].1,
                ),
        decreases s.len() - i,
    {
        if !update_before(&s[i - 1], &s[i]) {
            return false;
        }
        i = i + 1;
    }
    proof {
        lemma_adjacent_sorted(s@);
    }
    true
}

impl Batch {
    /// Whether the batch is in order.
    pub fn check(&self) -> (b: bool)
        ensures
            b == self.wf(),
    {
        if !is_sorted(&self.facts) || !self.lower.less_equal(&self.upper) {
            return false;
        }
        let mut i: usize = 0;
        while i < self.facts.len()
            invariant
                i <= self.facts.len(),
                forall|k: int|
                    0 <= k < i ==> (#[trigger] self@[k]).2 != 0 && self@[k].0.2 == 0
                        && self.lower.admits(self@[k].1) && !self.upper.admits(self@[k].1),
            decreases self.facts.len() - i,
        {
            let u = self.facts[i];
            if u.2 == 0 || u.0.2 != 0 || !self.lower.less_equal_time(u.1)
                || self.upper.less_equal_time(u.1) {
                return false;
            }
            i = i + 1;
        }
        true
    }
}

impl Trace {
    /// Whether the trace is in order.
    pub fn check(&self) -> (b: bool)
        ensures
            b == self.wf(),
    {
        let mut i: usize = 0;
        while i < self.batches.len()
            invariant
                i <= self.batches.len(),
                forall|k: int| 0 <= k < i ==> (#[trigger] self.batches@[k]).wf(),
                i > 0 ==> self.batches@[0].lower == Frontier::least(),
                forall|k: int|
                    0 < k < i ==> (#[trigger] self.batches@[k]).lower == self.batches@[k - 1].upper,
            decreases self.batches.len() - i,
        {
            if !self.batches[i].check() {
                return false;
            }
            let lower = self.batches[i].lower;
            let wanted = if i == 0 {
                Frontier::minimum()
            } else {
                self.batches[i - 1].upper
            };
            if lower != wanted {
                return false;
            }
            i = i + 1;
        }
        self.physical.less_equal(&self.read_upper())
    }
}

impl Cursor {
    /// Whether the cursor stands in order within the facts of `storage`.
    pub fn check(&self, storage: &Batch) -> (b: bool)
        ensures
            b == self.wf(storage@),
    {
        let n = storage.facts.len();
        if self.key_pos > self.val_pos || self.val_pos > n {
            return false;
        }
        if self.key_pos >= n {
            return true;
        }
        let key = storage.facts[self.key_pos].0.0;
        let mut end = self.key_pos;
        while end + 1 < n && storage.facts[end + 1].0.0 == key
            invariant
                n == storage@.len(),
                self.key_pos <= end < n,
                key == key_of(storage@[end as int]),
                key_end(storage@, end as int) == key_end(storage@, self.key_pos as int),
            decreases n - end,
        {
            end = end + 1;
        }
        self.val_pos <= end + 1
    }
}

} // verus!
