//! Updates and their consolidation.
//!
//! An update is some data at a time with a difference: how many times the
//! data is added, or taken away where the difference is negative. To
//! consolidate updates is to add up the differences of equal data at equal
//! times and to drop what adds up to nothing. The sorting and adding is
//! `differential_dataflow`'s.

use vstd::prelude::*;

verus! {

/// The data of an update: three numbers, ordered one after the other. A fact
/// of an arrangement holds a key and a value; an output of a join holds a
/// key and the values of both sides.
pub type Data = (u64, u64, u64);

/// Some data, a time, and a difference.
pub type Update = (Data, u64, i64);

/// `a` at `s` comes before `b` at `t`: by the data, number by number, and at
/// equal data by the time.
pub open spec fn update_less(a: Data, s: u64, b: Data, t: u64) -> bool {
    a.0 < b.0 || (a.0 == b.0 && (a.1 < b.1 || (a.1 == b.1 && (a.2 < b.2 || (a.2 == b.2 && s
        < t)))))
}

/// The updates of `s` are in ascending order, no data occurring twice at
/// one time.
pub open spec fn sorted(s: Seq<Update>) -> bool {
    forall|i: int, j: int|
        0 <= i < j < s.len() ==> update_less(
            (#[trigger] s[i]).0,
            s[i].1,
            (#[trigger] s[j]).0,
            s[j].1,
        )
}

/// No update of `s` has the difference zero.
pub open spec fn nonzero(s: Seq<Update>) -> bool {
    forall|i: int| 0 <= i < s.len() ==> (#[trigger] s[i]).2 != 0
}

/// What one update counts towards `d` at `t`.
pub open spec fn update_net(u: Update, d: Data, t: u64) -> int {
    if u.0 == d && u.1 == t {
        u.2 as int
    } else {
        0
    }
}

/// The differences of `d` at `t` in `s`, added up.
pub open spec fn net(s: Seq<Update>, d: Data, t: u64) -> int
    decreases s.len(),
{
    if s.len() == 0 {
        0
    } else {
        net(s.drop_last(), d, t) + update_net(s.last(), d, t)
    }
}

/// The sizes of the differences of `d` at `t` in `s`, added up.
pub open spec fn weight(s: Seq<Update>, d: Data, t: u64) -> int
    decreases s.len(),
{
    if s.len() == 0 {
        0
    } else {
        weight(s.drop_last(), d, t) + if s.last().0 == d && s.last().1 == t {
            if s.last().2 < 0 {
                -(s.last().2 as int)
            } else {
                s.last().2 as int
            }
        } else {
            0
        }
    }
}

/// Adding up never leaves the range of a difference, in whatever order the
/// updates are taken.
pub open spec fn summable(s: Seq<Update>) -> bool {
    forall|d: Data, t: u64| #[trigger] weight(s, d, t) <= i64::MAX
}

/// `differential_dataflow::consolidation::consolidate_updates`: sorts the
/// updates by data and time, adds up the differences of those that agree in
/// both, and drops those that add up to zero. The adding is `+=` on `i64`,
/// which must not overflow. No update is added.
#[verifier::external_body]
pub(crate) fn consolidate_updates(updates: &mut Vec<Update>)
    requires
        summable(old(updates)@),
    ensures
        sorted(final(updates)@),
        nonzero(final(updates)@),
        final(updates)@.len() <= old(updates)@.len(),
        forall|d: Data, t: u64| #[trigger] net(final(updates)@, d, t) == net(old(updates)@, d, t),
{
    differential_dataflow::consolidation::consolidate_updates(updates)
}

/// The differences of `d` at `t` in two runs of updates laid end to end.
pub proof fn lemma_net_concat(a: Seq<Update>, b: Seq<Update>, d: Data, t: u64)
    ensures
        net(a + b, d, t) == net(a, d, t) + net(b, d, t),
        weight(a + b, d, t) == weight(a, d, t) + weight(b, d, t),
    decreases b.len(),
{
    if b.len() == 0 {
        assert(a + b =~= a);
    } else {
        assert((a + b).drop_last() =~= a + b.drop_last());
        assert((a + b).last() == b.last());
        lemma_net_concat(a, b.drop_last(), d, t);
    }
}

/// The differences of `d` at `t` after one more update.
pub proof fn lemma_net_push(s: Seq<Update>, u: Update, d: Data, t: u64)
    ensures
        net(s.push(u), d, t) == net(s, d, t) + update_net(u, d, t),
{
    assert(s.push(u).drop_last() =~= s);
}

/// The weight of some data at a time is no less than the size of what its
/// differences add up to, and is nothing where the data does not occur.
pub proof fn lemma_weight_bounds(s: Seq<Update>, d: Data, t: u64)
    ensures
        -weight(s, d, t) <= net(s, d, t) <= weight(s, d, t),
        (forall|i: int| 0 <= i < s.len() ==> !((#[trigger] s[i]).0 == d && s[i].1 == t))
            ==> weight(s, d, t) == 0 && net(s, d, t) == 0,
    decreases s.len(),
{
    if s.len() > 0 {
        lemma_weight_bounds(s.drop_last(), d, t);
        if forall|i: int| 0 <= i < s.len() ==> !((#[trigger] s[i]).0 == d && s[i].1 == t) {
            assert forall|i: int| 0 <= i < s.drop_last().len() implies !((
            #[trigger] s.drop_last()[i]).0 == d && s.drop_last()[i].1 == t) by {
                assert(s.drop_last()[i] == s[i]);
            }
            assert(!(s[s.len() - 1].0 == d && s[s.len() - 1].1 == t));
        }
    }
}

/// With every difference no larger than `bound`, the weight of any data at
/// any time is no more than `bound` for every update.
pub proof fn lemma_weight_by_count(s: Seq<Update>, bound: int, d: Data, t: u64)
    requires
        bound >= 0,
        forall|i: int| 0 <= i < s.len() ==> -bound <= (#[trigger] s[i]).2 <= bound,
    ensures
        weight(s, d, t) <= bound * s.len(),
    decreases s.len(),
{
    if s.len() > 0 {
        assert forall|i: int| 0 <= i < s.drop_last().len() implies -bound <= (
        #[trigger] s.drop_last()[i]).2 <= bound by {
            assert(s.drop_last()[i] == s[i]);
        }
        lemma_weight_by_count(s.drop_last(), bound, d, t);
        assert(-bound <= s[s.len() - 1].2 <= bound);
        assert(bound * s.len() == bound * (s.len() - 1) + bound) by (nonlinear_arith);
    } else {
        assert(bound * 0 == 0) by (nonlinear_arith);
    }
}

} // verus!
