//! The median calculator: the standard statistical median of the per-day
//! online durations.
//!
//! Durations are sorted ascending; an odd count takes the middle element, an
//! even count the integer mean (floor division) of the two middle elements.
//! An empty collection has no median: the result is `None`, kept distinct
//! from a measured zero so that "no data" cannot be confused with "zero
//! online time".

use vstd::prelude::*;

use vstd::relations::{sorted_by, total_ordering};
use vstd::seq_lib::lemma_sorted_unique;
use vstd::arithmetic::div_mod::{lemma_div_is_ordered_by_denominator, lemma_hoist_over_denominator};

use crate::days::DayRecord;

verus! {

/// The bare duration values of a sequence of day records, in record order.
pub open spec fn daily_seconds(rs: Seq<DayRecord>) -> Seq<u64> {
    rs.map_values(|r: DayRecord| r.seconds)
}

/// Ascending order on a sequence of durations.
pub open spec fn sorted_ascending(s: Seq<u64>) -> bool {
    forall|a: int, b: int| 0 <= a < b < s.len() ==> (#[trigger] s[a]) <= (#[trigger] s[b])
}

/// The median of a collection of durations: the middle element of the
/// ascending arrangement, or for an even count the floor mean of the two
/// middle elements.
pub open spec fn median_of(vals: Seq<u64>) -> u64 {
    let s = vals.sort_by(|x: u64, y: u64| x <= y);
    let n = vals.len() as int;
    if n % 2 == 1 {
        s[n / 2]
    } else {
        (((s[n / 2 - 1] as int) + (s[n / 2] as int)) / 2) as u64
    }
}

/// Sorts durations ascending by repeatedly extracting a least element,
/// keeping exactly the same multiset of values.
fn sort_ascending_vec(input: Vec<u64>) -> (r: Vec<u64>)
    ensures
        r@.to_multiset() == input@.to_multiset(),
        sorted_ascending(r@),
        r@.len() == input@.len(),
{
    broadcast use vstd::seq_lib::group_to_multiset_ensures;
    broadcast use vstd::multiset::group_multiset_axioms;

    let ghost orig = input@;
    let mut rest = input;
    let mut out: Vec<u64> = Vec::new();
    proof {
        assert(out@.to_multiset().add(rest@.to_multiset()) =~= orig.to_multiset());
    }
    while rest.len() > 0
        invariant
            out@.to_multiset().add(rest@.to_multiset()) == orig.to_multiset(),
            out@.len() + rest@.len() == orig.len(),
            sorted_ascending(out@),
            forall|a: int, b: int|
                0 <= a < out@.len() && 0 <= b < rest@.len() ==> (#[trigger] out@[a])
                    <= (#[trigger] rest@[b]),
        decreases rest@.len(),
    {
        let mut mi: usize = 0;
        let mut j: usize = 1;
        while j < rest.len()
            invariant
                0 <= mi < j <= rest@.len(),
                rest@.len() > 0,
                forall|t: int| 0 <= t < j ==> rest@[mi as int] <= (#[trigger] rest@[t]),
            decreases rest@.len() - j,
        {
            if rest[j] < rest[mi] {
                mi = j;
            }
            j = j + 1;
        }
        let ghost pre_rest = rest@;
        let ghost pre_out = out@;
        let m = rest.remove(mi);
        out.push(m);
        proof {
            pre_rest.to_multiset_ensures();
            pre_out.to_multiset_ensures();
            assert(m == pre_rest[mi as int]);
            assert(pre_rest.contains(m));
            assert(rest@ == pre_rest.remove(mi as int));
            assert(pre_rest.remove(mi as int).to_multiset() =~= pre_rest.to_multiset().remove(m));
            assert(rest@.to_multiset() =~= pre_rest.to_multiset().remove(m));
            assert(out@.to_multiset() =~= pre_out.to_multiset().insert(m));
            assert(out@.to_multiset().add(rest@.to_multiset()) =~= orig.to_multiset());
            assert(forall|b: int|
                0 <= b < rest@.len() ==> (#[trigger] rest@[b]) == (if b < mi as int {
                    pre_rest[b]
                } else {
                    pre_rest[b + 1]
                }));
            assert(forall|a: int| 0 <= a < pre_out.len() ==> (#[trigger] out@[a]) == pre_out[a]);
            assert(out@[out@.len() - 1] == m);
        }
    }
    proof {
        assert(rest@.to_multiset().len() == 0);
        assert(out@.to_multiset().add(rest@.to_multiset()) =~= out@.to_multiset());
    }
    out
}

/// The median of the daily online durations: `None` exactly when there are
/// no records, else the statistical median of the records' durations, with
/// an even count averaged by floor division.
pub fn calculate_median_time_per_day(records: &Vec<DayRecord>) -> (r: Option<u64>)
    ensures
        (r is Some) <==> records@.len() > 0,
        records@.len() > 0 ==> r == Some(median_of(daily_seconds(records@))),
{
    let mut secs: Vec<u64> = Vec::new();
    let mut j: usize = 0;
    while j < records.len()
        invariant
            0 <= j <= records@.len(),
            secs@.len() == j,
            forall|t: int| 0 <= t < j ==> (#[trigger] secs@[t]) == records@[t].seconds,
        decreases records@.len() - j,
    {
        secs.push(records[j].seconds);
        j = j + 1;
    }
    proof {
        assert(secs@ =~= daily_seconds(records@));
    }
    let ghost vals = daily_seconds(records@);
    let sorted = sort_ascending_vec(secs);
    let n = sorted.len();
    if n == 0 {
        return None;
    }
    proof {
        let leq = |x: u64, y: u64| x <= y;
        assert(total_ordering(leq)) by {
            assert(forall|x: u64| #[trigger] leq(x, x));
            assert(forall|x: u64, y: u64| #[trigger] leq(x, y) && #[trigger] leq(y, x) ==> x == y);
            assert(forall|x: u64, y: u64, z: u64|
                #[trigger] leq(x, y) && #[trigger] leq(y, z) ==> leq(x, z));
            assert(forall|x: u64, y: u64| #[trigger] leq(x, y) || #[trigger] leq(y, x));
        }
        vals.lemma_sort_by_ensures(leq);
        assert(sorted_by(sorted@, leq)) by {
            assert forall|a: int, b: int| 0 <= a < b < sorted@.len() implies #[trigger] leq(
                sorted@[a],
                sorted@[b],
            ) by {
                assert(sorted@[a] <= sorted@[b]);
            }
        }
        assert(sorted@.to_multiset() == vals.sort_by(leq).to_multiset());
        lemma_sorted_unique(sorted@, vals.sort_by(leq), leq);
        assert(sorted@ == vals.sort_by(leq));
    }
    if n % 2 == 1 {
        Some(sorted[n / 2])
    } else {
        let a = sorted[n / 2 - 1];
        let b = sorted[n / 2];
        proof {
            assert(a <= b);
            lemma_hoist_over_denominator(b as int - a as int, a as int, 2nat);
            assert((b as int - a as int) / 2 <= (b as int - a as int)) by {
                lemma_div_is_ordered_by_denominator(b as int - a as int, 1, 2);
            }
        }
        Some(a + (b - a) / 2)
    }
}

} // verus!
