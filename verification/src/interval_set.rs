//! Canonical sets of online intervals.
//!
//! An online interval is a half-open span `[start, end)` of seconds since the
//! Unix epoch during which an entity was continuously online.  The intervals
//! of one entity are kept in an `iset::IntervalSet`, an interval tree whose
//! sorted iterator yields intervals in ascending order; this module wraps it
//! in [`OnlineIntervals`], whose well-formedness invariant says that the
//! stored intervals are non-empty, non-overlapping and non-touching.

use vstd::prelude::*;

verus! {

/// Largest timestamp magnitude (seconds since the Unix epoch) the library
/// works with; it corresponds to the last second of year 9999.  Keeping
/// timestamps within this range rules out arithmetic overflow in the
/// day-boundary computations.
pub const MAX_TIMESTAMP: i64 = 253402300799;

/// An interval set holds fewer than this many intervals; the bound comes from
/// the 32-bit node indices of the underlying tree.
pub const MAX_INTERVAL_COUNT: usize = 0xFFFF_FFFE;

/// The intervals all lie within the supported timestamp range.
pub open spec fn bounded(ivs: Seq<(i64, i64)>) -> bool {
    forall|k: int|
        0 <= k < ivs.len() ==> -MAX_TIMESTAMP <= (#[trigger] ivs[k]).0
            && ivs[k].1 <= MAX_TIMESTAMP
}

/// Every interval is non-empty, and any two distinct intervals neither
/// overlap nor touch: the earlier one ends strictly before the later begins.
pub open spec fn sorted_disjoint(ivs: Seq<(i64, i64)>) -> bool {
    &&& forall|k: int| 0 <= k < ivs.len() ==> (#[trigger] ivs[k]).0 < ivs[k].1
    &&& forall|a: int, b: int|
        0 <= a < b < ivs.len() ==> (#[trigger] ivs[a]).1 < (#[trigger] ivs[b]).0
}

/// Half-open overlap: `[iv.0, iv.1)` meets `[lo, hi)`.
pub open spec fn overlaps(iv: (i64, i64), lo: int, hi: int) -> bool {
    (iv.0 as int) < hi && (iv.1 as int) > lo
}

/// The order-preserving restriction of `ivs` to the intervals that overlap
/// the half-open range `[lo, hi)`.
pub open spec fn overlapping(ivs: Seq<(i64, i64)>, lo: int, hi: int) -> Seq<(i64, i64)>
    decreases ivs.len(),
{
    if ivs.len() == 0 {
        Seq::empty()
    } else if overlaps(ivs[0], lo, hi) {
        seq![ivs[0]] + overlapping(ivs.drop_first(), lo, hi)
    } else {
        overlapping(ivs.drop_first(), lo, hi)
    }
}

/// The underlying interval tree, an `iset::IntervalSet` over timestamps.
/// Verus sees nothing of the tree itself; the trusted wrappers below describe
/// its behaviour through [`stored_intervals`].
#[verifier::external_body]
pub struct IntervalTree {
    inner: iset::IntervalSet<i64>,
}

/// The intervals stored in the tree's `iset::IntervalSet`, in the order its
/// sorted iterator yields them (ascending by start, then by end).
pub uninterp spec fn stored_intervals(s: IntervalTree) -> Seq<(i64, i64)>;

/// Relies on `iset::IntervalSet::new`: creates a set that stores nothing.
#[verifier::external_body]
fn iset_new() -> (r: IntervalTree)
    ensures
        stored_intervals(r) == Seq::<(i64, i64)>::empty(),
{
    IntervalTree { inner: iset::IntervalSet::new() }
}

/// Relies on `iset::IntervalSet::insert`: stores the non-empty interval
/// `start..end`.  With a start at or past every stored end, the new interval
/// is the greatest in the iterator's order, so it comes last.  The set panics
/// on an empty interval and near the capacity of its 32-bit indices, which
/// the preconditions rule out.
#[verifier::external_body]
fn iset_insert(s: &mut IntervalTree, start: i64, end: i64)
    requires
        start < end,
        stored_intervals(*old(s)).len() < MAX_INTERVAL_COUNT,
        forall|k: int|
            0 <= k < stored_intervals(*old(s)).len()
                ==> (#[trigger] stored_intervals(*old(s))[k]).1 <= start,
    ensures
        stored_intervals(*final(s)) == stored_intervals(*old(s)).push((start, end)),
{
    let _ = s.inner.insert(start..end);
}

/// Relies on `iset::IntervalSet::iter` over the full range: yields every
/// stored interval, in ascending order.
#[verifier::external_body]
fn iset_all(s: &IntervalTree) -> (r: Vec<(i64, i64)>)
    ensures
        r@ == stored_intervals(*s),
{
    s.inner.iter(..).map(|iv| (iv.start, iv.end)).collect()
}

/// Relies on `iset::IntervalSet::iter`: yields, in ascending order, exactly
/// the stored intervals `x..y` with `x < hi` and `y > lo`, that is, those
/// overlapping the half-open query `[lo, hi)`.  The query range must not be
/// empty, or the set panics.
#[verifier::external_body]
fn iset_query(s: &IntervalTree, lo: i64, hi: i64) -> (r: Vec<(i64, i64)>)
    requires
        lo < hi,
    ensures
        r@ == overlapping(stored_intervals(*s), lo as int, hi as int),
{
    s.inner.iter(lo..hi).map(|iv| (iv.start, iv.end)).collect()
}

/// A canonical, ordered, non-overlapping collection of online intervals for
/// one entity.
pub struct OnlineIntervals {
    inner: IntervalTree,
}

impl View for OnlineIntervals {
    type V = Seq<(i64, i64)>;

    closed spec fn view(&self) -> Seq<(i64, i64)> {
        stored_intervals(self.inner)
    }
}

impl OnlineIntervals {
    /// The set's invariant: intervals are non-empty, pairwise disjoint and
    /// non-touching, in ascending order.
    pub open spec fn wf(&self) -> bool {
        sorted_disjoint(self@)
    }

    /// An empty set of intervals.
    pub fn empty() -> (r: Self)
        ensures
            r@ == Seq::<(i64, i64)>::empty(),
            r.wf(),
    {
        OnlineIntervals { inner: iset_new() }
    }

    /// The number of intervals in the set.
    pub fn len(&self) -> (r: usize)
        ensures
            r == self@.len(),
    {
        let all = iset_all(&self.inner);
        all.len()
    }

    /// Adds an interval that lies strictly after everything already stored.
    pub fn push_interval(&mut self, start: i64, end: i64)
        requires
            old(self).wf(),
            start < end,
            old(self)@.len() < MAX_INTERVAL_COUNT,
            forall|k: int|
                0 <= k < old(self)@.len() ==> (#[trigger] old(self)@[k]).1 < start,
        ensures
            final(self)@ == old(self)@.push((start, end)),
            final(self).wf(),
    {
        iset_insert(&mut self.inner, start, end);
    }

    /// Every stored interval, in ascending order.
    pub fn to_vec(&self) -> (r: Vec<(i64, i64)>)
        ensures
            r@ == self@,
    {
        iset_all(&self.inner)
    }

    /// The stored intervals that overlap the half-open range `[lo, hi)`, in
    /// ascending order.
    pub fn query(&self, lo: i64, hi: i64) -> (r: Vec<(i64, i64)>)
        requires
            lo < hi,
        ensures
            r@ == overlapping(self@, lo as int, hi as int),
    {
        iset_query(&self.inner, lo, hi)
    }
}

} // verus!
