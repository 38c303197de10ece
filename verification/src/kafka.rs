//! What a Kafka source tells of its records besides their contents, and the
//! ends of the ranges of partitions by which such a source keeps time.

use vstd::prelude::*;

verus! {

/// Which piece of the metadata of a record a column holds.
#[derive(Clone, Debug, PartialEq, Eq)]
pub enum KafkaMetadataKind {
    Partition,
    Offset,
    Timestamp,
    Headers,
    Header { key: String, use_bytes: bool },
}

/// The details of one export of a Kafka source: its metadata columns by
/// name.
#[derive(Clone, Debug, PartialEq, Eq)]
pub struct KafkaSourceExportDetails {
    pub metadata_columns: Vec<(String, KafkaMetadataKind)>,
}

/// Where a bound lies by the value that it names.
#[derive(Debug, Clone, Copy, PartialEq, Eq, PartialOrd, Ord, Hash)]
pub enum BoundKind {
    /// Right before the value. As an upper bound it leaves the value out.
    Before,
    /// Exactly at the value. As a lower or an upper bound it takes the value
    /// in.
    At,
    /// Right after the value. As a lower bound it leaves the value out.
    After,
}

/// A point of an ordered type with a point right before, exactly at and
/// right after each of its values, and with one point below and one above
/// all of them.
#[derive(Debug, Clone, Copy, PartialEq, PartialOrd, Hash)]
pub enum RangeBound<P> {
    /// Below every value.
    NegInfinity,
    /// At a value, or right before or after it.
    Elem(P, BoundKind),
    /// Above every value.
    PosInfinity,
}

/// The place of a kind of bound among the three: before, at, after.
pub open spec fn kind_rank(kind: BoundKind) -> int {
    match kind {
        BoundKind::Before => 0,
        BoundKind::At => 1,
        BoundKind::After => 2,
    }
}

/// The bound `a` lies below the bound `b`, for bounds on partitions: the
/// point below all values first, then the points at the values in the
/// order of the values, at one value the point before it, the point at it
/// and the point after it, and last the point above all values.
pub open spec fn partition_below(a: RangeBound<i32>, b: RangeBound<i32>) -> bool {
    match (a, b) {
        (RangeBound::NegInfinity, RangeBound::NegInfinity) => false,
        (RangeBound::NegInfinity, _) => true,
        (_, RangeBound::NegInfinity) => false,
        (RangeBound::PosInfinity, _) => false,
        (_, RangeBound::PosInfinity) => true,
        (RangeBound::Elem(x, how), RangeBound::Elem(y, why)) => x < y || (x == y && kind_rank(how)
            < kind_rank(why)),
    }
}

impl RangeBound<i32> {
    /// Whether this bound lies below `other`.
    pub fn is_below(&self, other: &RangeBound<i32>) -> (b: bool)
        ensures
            b == partition_below(*self, *other),
    {
        match (self, other) {
            (RangeBound::NegInfinity, RangeBound::NegInfinity) => false,
            (RangeBound::NegInfinity, _) => true,
            (_, RangeBound::NegInfinity) => false,
            (RangeBound::PosInfinity, _) => false,
            (_, RangeBound::PosInfinity) => true,
            (RangeBound::Elem(x, how), RangeBound::Elem(y, why)) => {
                let first: u8 = match how {
                    BoundKind::Before => 0,
                    BoundKind::At => 1,
                    BoundKind::After => 2,
                };
                let second: u8 = match why {
                    BoundKind::Before => 0,
                    BoundKind::At => 1,
                    BoundKind::After => 2,
                };
                *x < *y || (*x == *y && first < second)
            },
        }
    }
}

/// Of two bounds on partitions one lies below the other, or they are one
/// bound; and no bound lies below itself.
pub proof fn lemma_partition_order(a: RangeBound<i32>, b: RangeBound<i32>, c: RangeBound<i32>)
    ensures
        !partition_below(a, a),
        partition_below(a, b) || partition_below(b, a) || a == b,
        partition_below(a, b) && partition_below(b, c) ==> partition_below(a, c),
{
}

impl<P> RangeBound<P> {
    /// The bound right before `elem`.
    pub fn before(elem: P) -> (bound: RangeBound<P>)
        ensures
            bound == RangeBound::Elem(elem, BoundKind::Before),
    {
        RangeBound::Elem(elem, BoundKind::Before)
    }

    /// The bound exactly at `elem`.
    pub fn exact(elem: P) -> (bound: RangeBound<P>)
        ensures
            bound == RangeBound::Elem(elem, BoundKind::At),
    {
        RangeBound::Elem(elem, BoundKind::At)
    }

    /// The bound right after `elem`.
    pub fn after(elem: P) -> (bound: RangeBound<P>)
        ensures
            bound == RangeBound::Elem(elem, BoundKind::After),
    {
        RangeBound::Elem(elem, BoundKind::After)
    }

    /// The value of a bound that lies exactly at a value.
    pub fn unwrap_exact(&self) -> (elem: &P)
        requires
            self matches RangeBound::Elem(_, BoundKind::At),
        ensures
            *self == RangeBound::Elem(*elem, BoundKind::At),
    {
        match self {
            RangeBound::Elem(p, _) => p,
            _ => vstd::pervasive::unreached(),
        }
    }

    /// The least bound.
    pub fn minimum() -> (bound: RangeBound<P>)
        ensures
            bound is NegInfinity,
    {
        RangeBound::NegInfinity
    }

    /// The greatest bound.
    pub fn maximum() -> (bound: RangeBound<P>)
        ensures
            bound is PosInfinity,
    {
        RangeBound::PosInfinity
    }
}

} // verus!
