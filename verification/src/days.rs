//! The day aggregator: attributes online time to calendar days.
//!
//! Calendar days are taken in a fixed local time zone, given as an offset in
//! seconds east of UTC.  A day is the half-open span `[d, d + 86400)` where
//! `d` is a local midnight.  Each online interval is clipped against the day
//! boundaries, the clipped lengths are summed in whole seconds, and one
//! record per day in the set's overall range is produced; a reporting step
//! then keeps only the days whose total exceeds a minimum (by default one
//! second, so that days with negligible online time are omitted rather than
//! reported as zero).

use vstd::prelude::*;

use vstd::arithmetic::div_mod::{
    lemma_div_is_ordered, lemma_div_multiples_vanish, lemma_fundamental_div_mod,
    lemma_hoist_over_denominator, lemma_mod_bound, lemma_remainder_lower,
};

use crate::interval_set::{
    bounded, overlapping, overlaps, sorted_disjoint, OnlineIntervals, MAX_TIMESTAMP,
};

verus! {

/// Seconds in one calendar day.
pub const SECONDS_PER_DAY: i64 = 86400;

/// Default minimum reportable daily duration, in seconds: a day is reported
/// only if its online time strictly exceeds this.
pub const DEFAULT_MIN_DAILY_SECONDS: u64 = 1;

/// Shift that makes every supported instant non-negative; a whole multiple
/// of a day, so it does not move day boundaries.
const DAY_SHIFT: i64 = 2933000 * 86400;

/// The online time of one calendar day: the day's local midnight and the
/// whole seconds spent online during the day.
#[derive(Clone, Copy, Debug, PartialEq, Eq, Structural)]
pub struct DayRecord {
    pub day_start: i64,
    pub seconds: u64,
}

/// A time-zone offset in seconds east of UTC, strictly within one day.
pub open spec fn valid_offset(off: int) -> bool {
    -86400 < off < 86400
}

/// The local midnight at or before `t`, for zone offset `off`.
pub open spec fn day_floor(t: int, off: int) -> int {
    ((t + off) / 86400) * 86400 - off
}

/// The length of `iv` clipped to the half-open window `[lo, hi)`.
pub open spec fn clip_len(iv: (i64, i64), lo: int, hi: int) -> int {
    let s = if iv.0 as int > lo { iv.0 as int } else { lo };
    let e = if (iv.1 as int) < hi { iv.1 as int } else { hi };
    if e > s { e - s } else { 0 }
}

/// The summed lengths of all of `ivs` clipped to `[lo, hi)`.
pub open spec fn clipped_sum(ivs: Seq<(i64, i64)>, lo: int, hi: int) -> int
    decreases ivs.len(),
{
    if ivs.len() == 0 {
        0
    } else {
        clip_len(ivs[0], lo, hi) + clipped_sum(ivs.drop_first(), lo, hi)
    }
}

/// The summed lengths of all of `ivs`.
pub open spec fn total_len(ivs: Seq<(i64, i64)>) -> int
    decreases ivs.len(),
{
    if ivs.len() == 0 {
        0
    } else {
        (ivs[0].1 - ivs[0].0) + total_len(ivs.drop_first())
    }
}

/// The records of `n` consecutive days, the first starting at `d`.
pub open spec fn day_records_from(ivs: Seq<(i64, i64)>, d: int, n: nat) -> Seq<DayRecord>
    decreases n,
{
    if n == 0 {
        Seq::empty()
    } else {
        seq![
            DayRecord { day_start: d as i64, seconds: clipped_sum(ivs, d, d + 86400) as u64 },
        ] + day_records_from(ivs, d + 86400, (n - 1) as nat)
    }
}

/// How many calendar days the set's overall range touches: from the day of
/// the first interval's start to the day of the last interval's end.
pub open spec fn day_count(ivs: Seq<(i64, i64)>, off: int) -> int {
    (day_floor(ivs[ivs.len() - 1].1 as int, off) - day_floor(ivs[0].0 as int, off)) / 86400 + 1
}

/// One record for every calendar day the interval set touches, in ascending
/// day order, each holding that day's exact online seconds.
pub open spec fn day_records_of(ivs: Seq<(i64, i64)>, off: int) -> Seq<DayRecord> {
    if ivs.len() == 0 {
        Seq::empty()
    } else {
        day_records_from(ivs, day_floor(ivs[0].0 as int, off), day_count(ivs, off) as nat)
    }
}

/// The records whose online time strictly exceeds `min_seconds`, in order.
pub open spec fn records_above(rs: Seq<DayRecord>, min_seconds: u64) -> Seq<DayRecord>
    decreases rs.len(),
{
    if rs.len() == 0 {
        Seq::empty()
    } else if rs[0].seconds > min_seconds {
        seq![rs[0]] + records_above(rs.drop_first(), min_seconds)
    } else {
        records_above(rs.drop_first(), min_seconds)
    }
}

/// The summed seconds of a sequence of day records.
pub open spec fn record_sum(rs: Seq<DayRecord>) -> int
    decreases rs.len(),
{
    if rs.len() == 0 {
        0
    } else {
        rs[0].seconds + record_sum(rs.drop_first())
    }
}

/// Clipping to `[lo, hi)` splits exactly at any cut `m` between the bounds.
proof fn lemma_clip_split(iv: (i64, i64), lo: int, m: int, hi: int)
    requires
        lo <= m <= hi,
    ensures
        clip_len(iv, lo, hi) == clip_len(iv, lo, m) + clip_len(iv, m, hi),
{
}

/// The clipped sum splits at any cut between the bounds.
proof fn lemma_clipped_sum_split(ivs: Seq<(i64, i64)>, lo: int, m: int, hi: int)
    requires
        lo <= m <= hi,
    ensures
        clipped_sum(ivs, lo, hi) == clipped_sum(ivs, lo, m) + clipped_sum(ivs, m, hi),
    decreases ivs.len(),
{
    if ivs.len() > 0 {
        lemma_clip_split(ivs[0], lo, m, hi);
        lemma_clipped_sum_split(ivs.drop_first(), lo, m, hi);
    }
}

/// A window that contains every interval clips nothing away.
proof fn lemma_clipped_sum_covers(ivs: Seq<(i64, i64)>, lo: int, hi: int)
    requires
        forall|k: int| 0 <= k < ivs.len() ==> (#[trigger] ivs[k]).0 < ivs[k].1,
        forall|k: int|
            0 <= k < ivs.len() ==> lo <= (#[trigger] ivs[k]).0 && ivs[k].1 as int <= hi,
    ensures
        clipped_sum(ivs, lo, hi) == total_len(ivs),
    decreases ivs.len(),
{
    if ivs.len() > 0 {
        assert(clip_len(ivs[0], lo, hi) == ivs[0].1 - ivs[0].0);
        lemma_clipped_sum_covers(ivs.drop_first(), lo, hi);
    }
}

/// Concatenation distributes over the clipped sum.
proof fn lemma_clipped_sum_concat(a: Seq<(i64, i64)>, b: Seq<(i64, i64)>, lo: int, hi: int)
    ensures
        clipped_sum(a + b, lo, hi) == clipped_sum(a, lo, hi) + clipped_sum(b, lo, hi),
    decreases a.len(),
{
    if a.len() == 0 {
        assert(a + b =~= b);
    } else {
        assert((a + b).drop_first() =~= a.drop_first() + b);
        lemma_clipped_sum_concat(a.drop_first(), b, lo, hi);
    }
}

/// Each clipped length is non-negative, so the sum is.
proof fn lemma_clipped_sum_nonneg(ivs: Seq<(i64, i64)>, lo: int, hi: int)
    ensures
        0 <= clipped_sum(ivs, lo, hi),
    decreases ivs.len(),
{
    if ivs.len() > 0 {
        lemma_clipped_sum_nonneg(ivs.drop_first(), lo, hi);
    }
}

/// Intervals that start at or after `m >= lo` clip the same against
/// `[m, hi)` as against `[lo, hi)`.
proof fn lemma_clipped_sum_raise_lo(ivs: Seq<(i64, i64)>, lo: int, m: int, hi: int)
    requires
        lo <= m,
        forall|k: int| 0 <= k < ivs.len() ==> m <= (#[trigger] ivs[k]).0 as int,
    ensures
        clipped_sum(ivs, lo, hi) == clipped_sum(ivs, m, hi),
    decreases ivs.len(),
{
    if ivs.len() > 0 {
        lemma_clipped_sum_raise_lo(ivs.drop_first(), lo, m, hi);
    }
}

/// An empty window clips everything away.
proof fn lemma_clipped_sum_empty_window(ivs: Seq<(i64, i64)>, lo: int, hi: int)
    requires
        hi <= lo,
    ensures
        clipped_sum(ivs, lo, hi) == 0,
    decreases ivs.len(),
{
    if ivs.len() > 0 {
        lemma_clipped_sum_empty_window(ivs.drop_first(), lo, hi);
    }
}

/// Disjoint intervals cannot cover a window more than once: their clipped
/// sum is at most the window's width.
proof fn lemma_clipped_sum_bound(ivs: Seq<(i64, i64)>, lo: int, hi: int)
    requires
        sorted_disjoint(ivs),
    ensures
        clipped_sum(ivs, lo, hi) <= (if hi > lo { hi - lo } else { 0 }),
    decreases ivs.len(),
{
    lemma_clipped_sum_nonneg(ivs, lo, hi);
    if hi <= lo {
        lemma_clipped_sum_empty_window(ivs, lo, hi);
    } else if ivs.len() > 0 {
        let rest = ivs.drop_first();
        assert(sorted_disjoint(rest)) by {
            assert(forall|k: int|
                0 <= k < rest.len() ==> rest[k] == ivs[k + 1]);
        }
        let e0 = ivs[0].1 as int;
        let m = if e0 < lo { lo } else if e0 > hi { hi } else { e0 };
        if m > lo {
            assert forall|k: int| 0 <= k < rest.len() implies m <= (#[trigger] rest[k]).0 as int by {
                assert(rest[k] == ivs[k + 1]);
                assert(ivs[0].1 < ivs[k + 1].0);
            }
            lemma_clipped_sum_raise_lo(rest, lo, m, hi);
        }
        lemma_clipped_sum_bound(rest, m, hi);
        lemma_clipped_sum_nonneg(rest, m, hi);
        assert(clip_len(ivs[0], lo, hi) <= (if m > lo { m - lo } else { 0 }));
    }
}

/// Restricting to the intervals that overlap the window leaves the clipped
/// sum unchanged: the discarded intervals clip to nothing.
proof fn lemma_clipped_sum_overlapping(ivs: Seq<(i64, i64)>, lo: int, hi: int)
    ensures
        clipped_sum(overlapping(ivs, lo as int, hi as int), lo, hi) == clipped_sum(ivs, lo, hi),
    decreases ivs.len(),
{
    if ivs.len() > 0 {
        lemma_clipped_sum_overlapping(ivs.drop_first(), lo, hi);
        if overlaps(ivs[0], lo, hi) {
            let res = overlapping(ivs, lo, hi);
            assert(res == seq![ivs[0]] + overlapping(ivs.drop_first(), lo, hi));
            lemma_clipped_sum_concat(
                seq![ivs[0]],
                overlapping(ivs.drop_first(), lo, hi),
                lo,
                hi,
            );
            assert(seq![ivs[0]].drop_first() =~= Seq::<(i64, i64)>::empty());
            assert(seq![ivs[0]][0] == ivs[0]);
            assert(clipped_sum(Seq::<(i64, i64)>::empty(), lo, hi) == 0);
            assert(clipped_sum(seq![ivs[0]], lo, hi) == clip_len(ivs[0], lo, hi));
        } else {
            assert(clip_len(ivs[0], lo, hi) == 0);
        }
    }
}

/// The overlap restriction of a well-formed interval sequence is itself well
/// formed, and each of its intervals comes from the given sequence.
proof fn lemma_overlapping_sorted(ivs: Seq<(i64, i64)>, lo: int, hi: int)
    requires
        sorted_disjoint(ivs),
    ensures
        sorted_disjoint(overlapping(ivs, lo, hi)),
        forall|j: int|
            0 <= j < overlapping(ivs, lo, hi).len() ==> ivs.contains(
                #[trigger] overlapping(ivs, lo, hi)[j],
            ),
    decreases ivs.len(),
{
    if ivs.len() > 0 {
        let rest = ivs.drop_first();
        assert(sorted_disjoint(rest)) by {
            assert(forall|k: int| 0 <= k < rest.len() ==> rest[k] == ivs[k + 1]);
        }
        lemma_overlapping_sorted(rest, lo, hi);
        let orest = overlapping(rest, lo, hi);
        assert(forall|j: int| 0 <= j < orest.len() ==> ivs.contains(#[trigger] orest[j])) by {
            assert(forall|j: int|
                0 <= j < orest.len() ==> rest.contains(#[trigger] orest[j]));
            assert(forall|e: (i64, i64)| rest.contains(e) ==> ivs.contains(e)) by {
                assert(forall|k: int| 0 <= k < rest.len() ==> rest[k] == ivs[k + 1]);
            }
        }
        if overlaps(ivs[0], lo, hi) {
            let res = seq![ivs[0]] + orest;
            assert(overlapping(ivs, lo, hi) == res);
            assert forall|a: int, b: int| 0 <= a < b < res.len() implies
                (#[trigger] res[a]).1 < (#[trigger] res[b]).0 by {
                if a == 0 {
                    assert(rest.contains(res[b]));
                    let i = choose|i: int| 0 <= i < rest.len() && rest[i] == res[b];
                    assert(rest[i] == ivs[i + 1]);
                } else {
                    assert(res[a] == orest[a - 1] && res[b] == orest[b - 1]);
                }
            }
            assert forall|k: int| 0 <= k < res.len() implies
                (#[trigger] res[k]).0 < res[k].1 by {
                if k > 0 {
                    assert(res[k] == orest[k - 1]);
                    assert(rest.contains(orest[k - 1]));
                    let i = choose|i: int| 0 <= i < rest.len() && rest[i] == orest[k - 1];
                }
            }
            assert(ivs.contains(ivs[0]));
        }
    }
}

/// The `n`-day records starting at `d` account together for exactly the
/// clipped sum over the whole `n`-day window.
proof fn lemma_day_records_sum(ivs: Seq<(i64, i64)>, d: int, n: nat)
    requires
        sorted_disjoint(ivs),
    ensures
        record_sum(day_records_from(ivs, d, n)) == clipped_sum(ivs, d, d + 86400 * n),
    decreases n,
{
    if n == 0 {
        assert(clipped_sum(ivs, d, d) == 0) by {
            lemma_clipped_sum_nonneg(ivs, d, d);
            lemma_clipped_sum_bound(ivs, d, d);
        }
    } else {
        let head = DayRecord {
            day_start: d as i64,
            seconds: clipped_sum(ivs, d, d + 86400) as u64,
        };
        let tail = day_records_from(ivs, d + 86400, (n - 1) as nat);
        assert(day_records_from(ivs, d, n) =~= seq![head] + tail);
        assert((seq![head] + tail).drop_first() =~= tail);
        assert((seq![head] + tail)[0] == head);
        lemma_day_records_sum(ivs, d + 86400, (n - 1) as nat);
        assert(clipped_sum(ivs, d, d + 86400) <= 86400) by {
            lemma_clipped_sum_bound(ivs, d, d + 86400);
        }
        assert(0 <= clipped_sum(ivs, d, d + 86400)) by {
            lemma_clipped_sum_nonneg(ivs, d, d + 86400);
        }
        let m = (n - 1) as int;
        assert(86400 * n as int == 86400 * m + 86400);
        assert(d + 86400 <= d + 86400 * n as int);
        lemma_clipped_sum_split(ivs, d, d + 86400, d + 86400 * n);
    }
}

/// The local midnight lies at most one day behind its instant, and flooring
/// is monotone.
proof fn lemma_day_floor_le(t: int, off: int)
    requires
        valid_offset(off),
    ensures
        day_floor(t, off) <= t < day_floor(t, off) + 86400,
{
    let x = t + off;
    lemma_fundamental_div_mod(x, 86400);
    lemma_mod_bound(x, 86400);
}

/// Flooring to local midnight is monotone in the instant.
proof fn lemma_day_floor_mono(t1: int, t2: int, off: int)
    requires
        t1 <= t2,
    ensures
        day_floor(t1, off) <= day_floor(t2, off),
{
    lemma_div_is_ordered(t1 + off, t2 + off, 86400);
}

/// The span between two local midnights is a whole number of days.
proof fn lemma_day_floor_diff(t1: int, t2: int, off: int)
    ensures
        day_floor(t2, off) - day_floor(t1, off) == 86400 * ((t2 + off) / 86400 - (t1 + off)
            / 86400),
        (day_floor(t2, off) - day_floor(t1, off)) / 86400 == (t2 + off) / 86400 - (t1 + off)
            / 86400,
{
    let q1 = (t1 + off) / 86400;
    let q2 = (t2 + off) / 86400;
    assert(day_floor(t1, off) == 86400 * q1 - off);
    assert(day_floor(t2, off) == 86400 * q2 - off);
    assert(86400 * q2 - 86400 * q1 == 86400 * (q2 - q1));
    lemma_div_multiples_vanish(q2 - q1, 86400);
}

/// No online second is lost or double counted by the day split: the daily
/// records sum to exactly the total length of the intervals.
pub proof fn lemma_no_time_lost(ivs: Seq<(i64, i64)>, off: int)
    requires
        sorted_disjoint(ivs),
        bounded(ivs),
        valid_offset(off),
    ensures
        record_sum(day_records_of(ivs, off)) == total_len(ivs),
{
    if ivs.len() == 0 {
    } else {
        let first = ivs[0].0 as int;
        let last = ivs[ivs.len() - 1].1 as int;
        let d0 = day_floor(first, off);
        let dl = day_floor(last, off);
        assert(first <= last) by {
            if ivs.len() > 1 {
                assert(ivs[0].1 < ivs[ivs.len() - 1].0);
            }
        }
        lemma_day_floor_le(first, off);
        lemma_day_floor_le(last, off);
        lemma_day_floor_mono(first, last, off);
        lemma_day_floor_diff(first, last, off);
        let cnt = day_count(ivs, off);
        assert(cnt >= 1);
        assert(dl == d0 + 86400 * (cnt - 1)) by (nonlinear_arith)
            requires
                dl - d0 == 86400 * ((last + off) / 86400 - (first + off) / 86400),
                cnt - 1 == (last + off) / 86400 - (first + off) / 86400,
        ;
        lemma_day_records_sum(ivs, d0, cnt as nat);
        assert(d0 + 86400 * (cnt as nat) == dl + 86400) by (nonlinear_arith)
            requires
                dl == d0 + 86400 * (cnt - 1),
                cnt >= 1,
        ;
        lemma_clipped_sum_covers(ivs, d0, dl + 86400);
    }
}

/// Each of the `n` records starting at `d` carries its own day's midnight:
/// record `j` starts at `d + 86400 * j`.
proof fn lemma_day_records_indices(ivs: Seq<(i64, i64)>, d: int, n: nat)
    requires
        -MAX_TIMESTAMP - 86400 < d,
        d + 86400 * n <= MAX_TIMESTAMP + 86400,
    ensures
        day_records_from(ivs, d, n).len() == n,
        forall|j: int|
            0 <= j < n ==> (#[trigger] day_records_from(ivs, d, n)[j]).day_start as int == d
                + 86400 * j,
    decreases n,
{
    if n > 0 {
        let head = DayRecord {
            day_start: d as i64,
            seconds: clipped_sum(ivs, d, d + 86400) as u64,
        };
        let tail = day_records_from(ivs, d + 86400, (n - 1) as nat);
        assert(86400 * n as int == 86400 * ((n - 1) as int) + 86400);
        lemma_day_records_indices(ivs, d + 86400, (n - 1) as nat);
        assert(day_records_from(ivs, d, n) =~= seq![head] + tail);
        let rs = day_records_from(ivs, d, n);
        assert forall|j: int| 0 <= j < n implies (#[trigger] rs[j]).day_start as int == d
            + 86400 * j by {
            if j == 0 {
                assert(rs[0] == head);
            } else {
                assert(rs[j] == tail[j - 1]);
                assert(tail[j - 1].day_start as int == d + 86400 + 86400 * (j - 1));
                assert(86400 * j == 86400 * (j - 1) + 86400);
            }
        }
    }
}

/// The daily records come in strictly ascending day order: one record per
/// calendar day, consecutive days one day apart.
pub proof fn lemma_day_records_ascending(ivs: Seq<(i64, i64)>, off: int)
    requires
        sorted_disjoint(ivs),
        bounded(ivs),
        valid_offset(off),
    ensures
        forall|a: int, b: int|
            0 <= a < b < day_records_of(ivs, off).len()
                ==> (#[trigger] day_records_of(ivs, off)[a]).day_start < (
            #[trigger] day_records_of(ivs, off)[b]).day_start,
{
    if ivs.len() > 0 {
        let first = ivs[0].0 as int;
        let last = ivs[ivs.len() - 1].1 as int;
        let d0 = day_floor(first, off);
        let dl = day_floor(last, off);
        assert(first <= last) by {
            if ivs.len() > 1 {
                assert(ivs[0].1 < ivs[ivs.len() - 1].0);
            }
        }
        lemma_day_floor_le(first, off);
        lemma_day_floor_le(last, off);
        lemma_day_floor_mono(first, last, off);
        lemma_day_floor_diff(first, last, off);
        let cnt = day_count(ivs, off);
        assert(dl == d0 + 86400 * (cnt - 1)) by (nonlinear_arith)
            requires
                dl - d0 == 86400 * ((last + off) / 86400 - (first + off) / 86400),
                cnt - 1 == (last + off) / 86400 - (first + off) / 86400,
        ;
        assert(d0 + 86400 * (cnt as nat) == dl + 86400) by (nonlinear_arith)
            requires
                dl == d0 + 86400 * (cnt - 1),
                cnt >= 1,
        ;
        lemma_day_records_indices(ivs, d0, cnt as nat);
        assert forall|a: int, b: int|
            0 <= a < b < day_records_of(ivs, off).len() implies (#[trigger] day_records_of(
            ivs,
            off,
        )[a]).day_start < (#[trigger] day_records_of(ivs, off)[b]).day_start by {
            assert(day_records_of(ivs, off)[a].day_start as int == d0 + 86400 * a);
            assert(day_records_of(ivs, off)[b].day_start as int == d0 + 86400 * b);
            assert(86400 * a < 86400 * b) by (nonlinear_arith)
                requires
                    a < b,
            ;
        }
    }
}

/// Aggregation is a pure function of the interval set and the zone offset:
/// computing the daily records twice over the same set gives the same
/// records.
pub proof fn lemma_day_aggregation_idempotent(
    ivs: Seq<(i64, i64)>,
    off: int,
    a: Seq<DayRecord>,
    b: Seq<DayRecord>,
)
    requires
        a == day_records_of(ivs, off),
        b == day_records_of(ivs, off),
    ensures
        a == b,
{
}

/// The clipped sum grows by one clipped length per interval taken.
proof fn lemma_clipped_sum_push(ivs: Seq<(i64, i64)>, iv: (i64, i64), lo: int, hi: int)
    ensures
        clipped_sum(ivs.push(iv), lo, hi) == clipped_sum(ivs, lo, hi) + clip_len(iv, lo, hi),
    decreases ivs.len(),
{
    if ivs.len() == 0 {
        assert(ivs.push(iv)[0] == iv);
        assert(ivs.push(iv).drop_first() =~= Seq::<(i64, i64)>::empty());
        assert(clipped_sum(Seq::<(i64, i64)>::empty(), lo, hi) == 0);
    } else {
        assert(ivs.push(iv)[0] == ivs[0]);
        assert(ivs.push(iv).drop_first() =~= ivs.drop_first().push(iv));
        lemma_clipped_sum_push(ivs.drop_first(), iv, lo, hi);
    }
}

/// The floor of `t` to its local midnight, as executable code.
fn floor_to_day_start(t: i64, off: i64) -> (r: i64)
    requires
        -MAX_TIMESTAMP <= t <= MAX_TIMESTAMP,
        valid_offset(off as int),
    ensures
        r as int == day_floor(t as int, off as int),
{
    let shifted: i64 = t + off + DAY_SHIFT;
    let q: u64 = (shifted as u64) / 86400;
    proof {
        lemma_hoist_over_denominator(t + off, 2933000, 86400nat);
        assert(q * 86400 <= shifted) by {
            lemma_remainder_lower(shifted as int, 86400);
        }
    }
    let scaled: i64 = (q * 86400) as i64;
    scaled - DAY_SHIFT - off
}

/// One record for every calendar day the set touches, in ascending day
/// order, each with that day's exact online seconds (days with none get a
/// zero record here; reporting filters them out).
pub fn daily_online_seconds(set: &OnlineIntervals, utc_offset: i64) -> (r: Vec<DayRecord>)
    requires
        set.wf(),
        bounded(set@),
        valid_offset(utc_offset as int),
    ensures
        r@ == day_records_of(set@, utc_offset as int),
{
    let ivs = set.to_vec();
    let mut out: Vec<DayRecord> = Vec::new();
    if ivs.len() == 0 {
        return out;
    }
    let off = utc_offset;
    let ghost goff = off as int;
    let first = ivs[0].0;
    let last = ivs[ivs.len() - 1].1;
    proof {
        assert(first as int <= last as int) by {
            if set@.len() > 1 {
                assert(set@[0].1 < set@[set@.len() - 1].0);
            }
        }
        lemma_day_floor_le(first as int, goff);
        lemma_day_floor_le(last as int, goff);
        lemma_day_floor_mono(first as int, last as int, goff);
        lemma_day_floor_diff(first as int, last as int, goff);
    }
    let d0 = floor_to_day_start(first, off);
    let dl = floor_to_day_start(last, off);
    let ghost cnt = day_count(set@, goff);
    proof {
        assert(cnt >= 1);
        assert(dl as int == d0 as int + 86400 * (cnt - 1)) by (nonlinear_arith)
            requires
                dl as int - d0 as int == 86400 * (cnt - 1),
        ;
    }
    let mut day = d0;
    let ghost mut done: int = 0;
    proof {
        assert(out@ + day_records_from(ivs@, d0 as int, (cnt - 0) as nat) =~= day_records_of(
            set@,
            goff,
        ));
        assert(86400 * 0int == 0);
    }
    while day <= dl
        invariant
            set.wf(),
            bounded(set@),
            ivs@ == set@,
            ivs@.len() > 0,
            valid_offset(goff),
            goff == off as int,
            d0 as int == day_floor(ivs@[0].0 as int, goff),
            cnt == day_count(set@, goff),
            1 <= cnt,
            dl as int == d0 as int + 86400 * (cnt - 1),
            -MAX_TIMESTAMP - 86400 < d0 as int <= dl as int <= MAX_TIMESTAMP,
            0 <= done <= cnt,
            day as int == d0 as int + 86400 * done,
            out@ + day_records_from(ivs@, day as int, (cnt - done) as nat) == day_records_of(
                set@,
                goff,
            ),
        decreases cnt - done,
    {
        let ghost gday = day as int;
        let hi = day + SECONDS_PER_DAY;
        let q = set.query(day, hi);
        proof {
            lemma_overlapping_sorted(set@, gday, hi as int);
            lemma_clipped_sum_overlapping(set@, gday, hi as int);
            lemma_clipped_sum_bound(q@, gday, hi as int);
            lemma_clipped_sum_nonneg(q@, gday, hi as int);
            assert forall|i: int| 0 <= i < q@.len() implies -MAX_TIMESTAMP
                <= (#[trigger] q@[i]).0 && q@[i].1 <= MAX_TIMESTAMP by {
                assert(set@.contains(q@[i]));
                let w = choose|w: int| 0 <= w < set@.len() && set@[w] == q@[i];
            }
        }
        let mut sum: u64 = 0;
        let mut j: usize = 0;
        while j < q.len()
            invariant
                q@ == overlapping(set@, gday, gday + 86400),
                sorted_disjoint(q@),
                forall|i: int|
                    0 <= i < q@.len() ==> -MAX_TIMESTAMP <= (#[trigger] q@[i]).0 && q@[i].1
                        <= MAX_TIMESTAMP,
                day as int == gday,
                hi as int == gday + 86400,
                -MAX_TIMESTAMP - 86400 < gday <= MAX_TIMESTAMP,
                0 <= j <= q@.len(),
                sum as int == clipped_sum(q@.subrange(0, j as int), gday, gday + 86400),
                clipped_sum(q@, gday, gday + 86400) <= 86400,
                0 <= sum <= 86400,
            decreases q@.len() - j,
        {
            let (s, e) = q[j];
            let cs = if s > day { s } else { day };
            let ce = if e < hi { e } else { hi };
            proof {
                let pre = q@.subrange(0, j as int);
                let nxt = q@.subrange(0, j as int + 1);
                assert(nxt =~= pre.push(q@[j as int]));
                lemma_clipped_sum_push(pre, q@[j as int], gday, gday + 86400);
                assert(nxt =~= q@.subrange(0, nxt.len() as int));
                lemma_clipped_sum_concat(
                    nxt,
                    q@.subrange(j as int + 1, q@.len() as int),
                    gday,
                    gday + 86400,
                );
                assert(nxt + q@.subrange(j as int + 1, q@.len() as int) =~= q@);
                lemma_clipped_sum_nonneg(
                    q@.subrange(j as int + 1, q@.len() as int),
                    gday,
                    gday + 86400,
                );
                lemma_clipped_sum_bound(q@, gday, gday + 86400);
            }
            if ce > cs {
                sum = sum + ((ce - cs) as u64);
            }
            j = j + 1;
        }
        proof {
            assert(q@.subrange(0, q@.len() as int) =~= q@);
            assert(sum as int == clipped_sum(set@, gday, gday + 86400));
        }
        let rec = DayRecord { day_start: day, seconds: sum };
        proof {
            let rem = (cnt - done) as nat;
            assert(rem >= 1);
            let head = DayRecord {
                day_start: gday as i64,
                seconds: clipped_sum(ivs@, gday, gday + 86400) as u64,
            };
            assert(rec == head);
            let tail = day_records_from(ivs@, gday + 86400, (rem - 1) as nat);
            assert(day_records_from(ivs@, gday, rem) == seq![head] + tail);
            assert(out@ + (seq![head] + tail) =~= out@.push(head) + tail);
        }
        out.push(rec);
        proof {
            done = done + 1;
            assert(day as int + 86400 == d0 as int + 86400 * done) by (nonlinear_arith)
                requires
                    day as int == d0 as int + 86400 * (done - 1),
            ;
        }
        day = day + SECONDS_PER_DAY;
    }
    proof {
        assert(done == cnt) by (nonlinear_arith)
            requires
                day as int == d0 as int + 86400 * done,
                dl as int == d0 as int + 86400 * (cnt - 1),
                day as int > dl as int,
                done <= cnt,
        ;
        assert(out@ + day_records_from(ivs@, day as int, 0nat) =~= out@);
    }
    out
}

/// Relies on `chrono::Local` (through `TimeZone::timestamp_opt`) and
/// `chrono::FixedOffset::local_minus_utc`: the machine's local time-zone
/// offset from UTC, in seconds, at the given instant.  The offset depends on
/// the machine's zone database, so nothing more than its bounds is stated;
/// an instant chrono cannot represent yields the UTC offset.
#[verifier::external_body]
fn local_zone_offset(ts: i64) -> (r: i64)
    ensures
        valid_offset(r as int),
{
    match chrono::TimeZone::timestamp_opt(&chrono::Local, ts, 0) {
        chrono::LocalResult::Single(dt) => dt.offset().local_minus_utc() as i64,
        _ => 0,
    }
}

/// One record for every calendar day the set touches, in the machine's
/// local zone: the zone offset at the set's first instant is taken from
/// chrono, and the aggregation is exact for that offset, whichever offset
/// the zone database gave.
pub fn daily_online_seconds_local(set: &OnlineIntervals) -> (r: Vec<DayRecord>)
    requires
        set.wf(),
        bounded(set@),
    ensures
        exists|off: int| valid_offset(off) && r@ == day_records_of(set@, off),
{
    let ivs = set.to_vec();
    if ivs.len() == 0 {
        let r: Vec<DayRecord> = Vec::new();
        proof {
            assert(valid_offset(0) && r@ =~= day_records_of(set@, 0));
        }
        return r;
    }
    let off = local_zone_offset(ivs[0].0);
    let r = daily_online_seconds(set, off);
    proof {
        assert(valid_offset(off as int) && r@ == day_records_of(set@, off as int));
    }
    r
}

/// The day records whose online time strictly exceeds `min_seconds`,
/// in ascending day order: the reportable days.
pub fn online_time_per_day(set: &OnlineIntervals, utc_offset: i64, min_seconds: u64) -> (r: Vec<
    DayRecord,
>)
    requires
        set.wf(),
        bounded(set@),
        valid_offset(utc_offset as int),
    ensures
        r@ == records_above(day_records_of(set@, utc_offset as int), min_seconds),
{
    let all = daily_online_seconds(set, utc_offset);
    let mut out: Vec<DayRecord> = Vec::new();
    let mut j: usize = 0;
    proof {
        assert(all@.subrange(0, all@.len() as int) =~= all@);
        assert(out@ + records_above(all@, min_seconds) =~= records_above(all@, min_seconds));
    }
    while j < all.len()
        invariant
            0 <= j <= all@.len(),
            all@ == day_records_of(set@, utc_offset as int),
            out@ + records_above(all@.subrange(j as int, all@.len() as int), min_seconds)
                == records_above(all@, min_seconds),
        decreases all@.len() - j,
    {
        let rec = all[j];
        proof {
            let suf = all@.subrange(j as int, all@.len() as int);
            assert(suf.drop_first() =~= all@.subrange(j as int + 1, all@.len() as int));
            assert(suf[0] == all@[j as int]);
            if rec.seconds > min_seconds {
                assert(out@ + (seq![rec] + records_above(suf.drop_first(), min_seconds))
                    =~= out@.push(rec) + records_above(suf.drop_first(), min_seconds));
            }
        }
        if rec.seconds > min_seconds {
            out.push(rec);
        }
        j = j + 1;
    }
    proof {
        assert(all@.subrange(all@.len() as int, all@.len() as int)
            =~= Seq::<DayRecord>::empty());
    }
    out
}

} // verus!
