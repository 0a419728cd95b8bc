//! The gap detector: finds unusually long offline spans.
//!
//! Walking the intervals of a set in ascending order while tracking the end
//! of the last online period seen, every span between one online period and
//! the next is a candidate offline gap; only those whose duration strictly
//! exceeds a threshold (by default three hours) are reported.  The span
//! before the first interval and after the last one is never evaluated:
//! there is no data to bound it.

use vstd::prelude::*;

use crate::interval_set::{bounded, sorted_disjoint, OnlineIntervals, MAX_TIMESTAMP};

verus! {

/// Default minimum reportable offline gap, in seconds: three hours.
pub const DEFAULT_GAP_THRESHOLD_SECONDS: u64 = 10800;

/// A continuous offline span `[start, end)` between two observed online
/// periods, longer than the reporting threshold.
#[derive(Clone, Copy, Debug, PartialEq, Eq, Structural)]
pub struct OfflineGap {
    pub start: i64,
    pub end: i64,
}

/// The gaps longer than `threshold` among `ivs`, walking from `last_end`:
/// an interval that starts after `last_end` leaves the offline span
/// `[last_end, start)`, reported when its duration strictly exceeds the
/// threshold; `last_end` then advances to the furthest end seen.
pub open spec fn gaps_from(ivs: Seq<(i64, i64)>, last_end: int, threshold: int) -> Seq<OfflineGap>
    decreases ivs.len(),
{
    if ivs.len() == 0 {
        Seq::empty()
    } else {
        let iv = ivs[0];
        let next_last = if iv.1 as int > last_end {
            iv.1 as int
        } else {
            last_end
        };
        let rest = gaps_from(ivs.drop_first(), next_last, threshold);
        if iv.0 as int > last_end && iv.0 as int - last_end > threshold {
            seq![OfflineGap { start: last_end as i64, end: iv.0 }] + rest
        } else {
            rest
        }
    }
}

/// All offline gaps of the set longer than `threshold`, in chronological
/// order, within the span from the first interval's start to the last
/// interval's end.
pub open spec fn long_gaps_of(ivs: Seq<(i64, i64)>, threshold: int) -> Seq<OfflineGap> {
    if ivs.len() == 0 {
        Seq::empty()
    } else {
        gaps_from(ivs, ivs[0].0 as int, threshold)
    }
}

/// Every gap the walk from `last_end` reports is a positive offline span
/// strictly longer than the threshold.
proof fn lemma_gaps_from_exceed(ivs: Seq<(i64, i64)>, last_end: int, threshold: int)
    requires
        -MAX_TIMESTAMP <= last_end <= MAX_TIMESTAMP,
        bounded(ivs),
        0 <= threshold,
    ensures
        forall|j: int|
            0 <= j < gaps_from(ivs, last_end, threshold).len()
                ==> (#[trigger] gaps_from(ivs, last_end, threshold)[j]).end as int - gaps_from(
                ivs,
                last_end,
                threshold,
            )[j].start as int > threshold,
    decreases ivs.len(),
{
    if ivs.len() > 0 {
        let iv = ivs[0];
        let next_last = if iv.1 as int > last_end {
            iv.1 as int
        } else {
            last_end
        };
        assert(bounded(ivs.drop_first())) by {
            assert(forall|k: int|
                0 <= k < ivs.drop_first().len() ==> (#[trigger] ivs.drop_first()[k]) == ivs[k
                    + 1]);
        }
        lemma_gaps_from_exceed(ivs.drop_first(), next_last, threshold);
        let rest = gaps_from(ivs.drop_first(), next_last, threshold);
        if iv.0 as int > last_end && iv.0 as int - last_end > threshold {
            let g = OfflineGap { start: last_end as i64, end: iv.0 };
            let rs = gaps_from(ivs, last_end, threshold);
            assert(rs =~= seq![g] + rest);
            assert forall|j: int| 0 <= j < rs.len() implies (#[trigger] rs[j]).end as int
                - rs[j].start as int > threshold by {
                if j == 0 {
                    assert(rs[0] == g);
                } else {
                    assert(rs[j] == rest[j - 1]);
                }
            }
        }
    }
}

/// Every reported offline gap is a positive span whose duration strictly
/// exceeds the threshold.
pub proof fn lemma_gaps_exceed_threshold(ivs: Seq<(i64, i64)>, threshold: int)
    requires
        sorted_disjoint(ivs),
        bounded(ivs),
        0 <= threshold,
    ensures
        forall|j: int|
            0 <= j < long_gaps_of(ivs, threshold).len()
                ==> (#[trigger] long_gaps_of(ivs, threshold)[j]).end as int - long_gaps_of(
                ivs,
                threshold,
            )[j].start as int > threshold,
{
    if ivs.len() > 0 {
        assert(ivs[0].0 < ivs[0].1);
        lemma_gaps_from_exceed(ivs, ivs[0].0 as int, threshold);
    }
}

/// The offline gaps of the set whose duration strictly exceeds
/// `threshold_seconds`, in chronological order.
pub fn long_offline_gaps(set: &OnlineIntervals, threshold_seconds: u64) -> (r: Vec<OfflineGap>)
    requires
        set.wf(),
        bounded(set@),
    ensures
        r@ == long_gaps_of(set@, threshold_seconds as int),
{
    let ivs = set.to_vec();
    let mut out: Vec<OfflineGap> = Vec::new();
    if ivs.len() == 0 {
        return out;
    }
    let mut last_end: i64 = ivs[0].0;
    let mut j: usize = 0;
    proof {
        assert(ivs@.subrange(0, ivs@.len() as int) =~= ivs@);
        assert(out@ + long_gaps_of(set@, threshold_seconds as int) =~= long_gaps_of(
            set@,
            threshold_seconds as int,
        ));
    }
    while j < ivs.len()
        invariant
            ivs@ == set@,
            bounded(set@),
            sorted_disjoint(set@),
            ivs@.len() > 0,
            0 <= j <= ivs@.len(),
            -MAX_TIMESTAMP <= last_end as int <= MAX_TIMESTAMP,
            out@ + gaps_from(
                ivs@.subrange(j as int, ivs@.len() as int),
                last_end as int,
                threshold_seconds as int,
            ) == long_gaps_of(set@, threshold_seconds as int),
        decreases ivs@.len() - j,
    {
        let (s, e) = ivs[j];
        proof {
            let suf = ivs@.subrange(j as int, ivs@.len() as int);
            assert(suf[0] == ivs@[j as int]);
            assert(suf.drop_first() =~= ivs@.subrange(j as int + 1, ivs@.len() as int));
        }
        if s > last_end {
            let gap = s - last_end;
            if gap >= 0 && (gap as u64) > threshold_seconds {
                let rec = OfflineGap { start: last_end, end: s };
                proof {
                    let suf = ivs@.subrange(j as int, ivs@.len() as int);
                    let next_last = if ivs@[j as int].1 as int > last_end as int {
                        ivs@[j as int].1 as int
                    } else {
                        last_end as int
                    };
                    let rest = gaps_from(
                        suf.drop_first(),
                        next_last,
                        threshold_seconds as int,
                    );
                    assert(out@ + (seq![rec] + rest) =~= out@.push(rec) + rest);
                }
                out.push(rec);
            }
        }
        if e > last_end {
            last_end = e;
        }
        j = j + 1;
    }
    proof {
        assert(ivs@.subrange(ivs@.len() as int, ivs@.len() as int) =~= Seq::<(i64, i64)>::empty());
    }
    out
}

} // verus!
