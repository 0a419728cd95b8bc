//! The interval builder: pairs consecutive presence events into canonical
//! online intervals.
//!
//! The builder scans a two-event sliding window while tracking the instant at
//! which the current online period began, if one is open.  A pair
//! online→offline closes an interval; online→online keeps the earlier start
//! (tolerating repeated "online" signals without double counting);
//! offline→online opens a period; offline→offline does nothing.  A stream
//! that ends while still online yields no interval for the open period, and a
//! stream of zero or one events yields nothing: no complete online period is
//! observable.
//!
//! Input events must be strictly ascending by timestamp.  An out-of-order or
//! duplicated timestamp indicates corrupt data; the builder stops at once and
//! reports it instead of guessing.

use vstd::prelude::*;

use crate::interval_set::{sorted_disjoint, OnlineIntervals, MAX_INTERVAL_COUNT};

verus! {

/// One presence event: at `timestamp` (seconds since the Unix epoch) the
/// entity became online or offline.
#[derive(Clone, Copy, Debug, PartialEq, Eq, Structural)]
pub struct PresenceEvent {
    pub timestamp: i64,
    pub online: bool,
}

/// The input events are strictly ascending by timestamp.
pub open spec fn strictly_ascending(evs: Seq<PresenceEvent>) -> bool {
    forall|k: int|
        0 <= k && k + 1 < evs.len()
            ==> (#[trigger] evs[k]).timestamp < evs[k + 1].timestamp
}

/// The start of the currently open online period, if any, after the first
/// `p` event pairs have been processed.
pub open spec fn pending_after(evs: Seq<PresenceEvent>, p: int) -> Option<i64>
    decreases p,
{
    if p <= 0 {
        None
    } else {
        let st = pending_after(evs, p - 1);
        let cur = evs[p - 1];
        let nxt = evs[p];
        if cur.online && nxt.online {
            match st {
                Some(v) => Some(v),
                None => Some(cur.timestamp),
            }
        } else if !cur.online && nxt.online {
            Some(nxt.timestamp)
        } else {
            None
        }
    }
}

/// The intervals closed after the first `p` event pairs have been processed.
/// A pair online→offline closes `[start, end)` with `end` the offline
/// event's timestamp and `start` the pending start if one is open, else the
/// online event's own timestamp; an interval that would be empty is dropped.
pub open spec fn intervals_after(evs: Seq<PresenceEvent>, p: int) -> Seq<(i64, i64)>
    decreases p,
{
    if p <= 0 {
        Seq::empty()
    } else {
        let prev = intervals_after(evs, p - 1);
        let cur = evs[p - 1];
        let nxt = evs[p];
        if cur.online && !nxt.online {
            let start = match pending_after(evs, p - 1) {
                Some(v) => v,
                None => cur.timestamp,
            };
            if start != nxt.timestamp {
                prev.push((start, nxt.timestamp))
            } else {
                prev
            }
        } else {
            prev
        }
    }
}

/// Every maximal online period of the event stream, in order.
pub open spec fn online_intervals_of(evs: Seq<PresenceEvent>) -> Seq<(i64, i64)> {
    if evs.len() <= 1 {
        Seq::empty()
    } else {
        intervals_after(evs, evs.len() - 1)
    }
}

/// The one unrecoverable fault: the event stream is not strictly ascending
/// by timestamp, so it is corrupt or unsorted and must not be interpreted.
#[derive(Clone, Copy, Debug, PartialEq, Eq, Structural)]
pub enum BuildError {
    UnsortedInput,
}

/// The builder's running state after `p` pairs: the pending start never lies
/// in the future, it is only open while the last seen event is online, and
/// the closed intervals are well formed and end before the pending start and
/// before the last seen event.
proof fn lemma_builder_state(evs: Seq<PresenceEvent>, p: int)
    requires
        0 <= p < evs.len(),
        forall|k: int| 0 <= k && k + 1 <= p ==> (#[trigger] evs[k]).timestamp < evs[k + 1].timestamp,
    ensures
        sorted_disjoint(intervals_after(evs, p)),
        intervals_after(evs, p).len() <= p,
        forall|j: int|
            0 <= j < intervals_after(evs, p).len()
                ==> (#[trigger] intervals_after(evs, p)[j]).1 <= evs[p].timestamp,
        evs[p].online ==> forall|j: int|
            0 <= j < intervals_after(evs, p).len()
                ==> (#[trigger] intervals_after(evs, p)[j]).1 < evs[p].timestamp,
        pending_after(evs, p) is Some ==> {
            let pv = pending_after(evs, p)->0;
            &&& evs[p].online
            &&& pv <= evs[p].timestamp
            &&& forall|j: int|
                0 <= j < intervals_after(evs, p).len()
                    ==> (#[trigger] intervals_after(evs, p)[j]).1 < pv
        },
        p >= 1 && evs[p].online ==> pending_after(evs, p) is Some,
    decreases p,
{
    if p > 0 {
        lemma_builder_state(evs, p - 1);
        let prev = intervals_after(evs, p - 1);
        let cur = evs[p - 1];
        let nxt = evs[p];
        if cur.online && !nxt.online {
            let start = match pending_after(evs, p - 1) {
                Some(v) => v,
                None => cur.timestamp,
            };
            assert(pending_after(evs, p - 1) is None && cur.online ==> p - 1 == 0);
            assert(forall|j: int| 0 <= j < prev.len() ==> (#[trigger] prev[j]).1 < start);
            if start != nxt.timestamp {
                let pushed = prev.push((start, nxt.timestamp));
                assert(start < nxt.timestamp);
                assert forall|a: int, b: int| 0 <= a < b < pushed.len() implies
                    (#[trigger] pushed[a]).1 < (#[trigger] pushed[b]).0 by {
                    if b < pushed.len() - 1 {
                        assert(pushed[a] == prev[a] && pushed[b] == prev[b]);
                    } else {
                        assert(pushed[a] == prev[a]);
                    }
                }
            }
        }
    }
}

impl OnlineIntervals {
    /// Builds the canonical interval set of an ascending event stream: every
    /// maximal online period becomes one interval.  A stream whose
    /// timestamps are not strictly ascending is rejected as corrupt.
    pub fn build(events: &Vec<PresenceEvent>) -> (r: Result<OnlineIntervals, BuildError>)
        requires
            events@.len() < MAX_INTERVAL_COUNT,
        ensures
            match r {
                Ok(set) => {
                    &&& strictly_ascending(events@)
                    &&& set@ == online_intervals_of(events@)
                    &&& set.wf()
                },
                Err(e) => {
                    &&& !strictly_ascending(events@)
                    &&& e == BuildError::UnsortedInput
                },
            },
    {
        let mut set = OnlineIntervals::empty();
        let n = events.len();
        if n <= 1 {
            return Ok(set);
        }
        let mut pending: Option<i64> = None;
        let mut k: usize = 0;
        while k + 1 < n
            invariant
                n == events@.len(),
                1 < n < MAX_INTERVAL_COUNT,
                0 <= k < n,
                forall|j: int|
                    0 <= j && j + 1 <= k ==> (#[trigger] events@[j]).timestamp < events@[j + 1].timestamp,
                pending == pending_after(events@, k as int),
                set@ == intervals_after(events@, k as int),
                set.wf(),
            decreases n - k,
        {
            let cur = events[k];
            let nxt = events[k + 1];
            if cur.timestamp >= nxt.timestamp {
                return Err(BuildError::UnsortedInput);
            }
            proof {
                lemma_builder_state(events@, k as int);
            }
            if cur.online && !nxt.online {
                let start = match pending {
                    Some(v) => v,
                    None => cur.timestamp,
                };
                if start != nxt.timestamp {
                    proof {
                        assert(set@.len() <= k as int);
                    }
                    set.push_interval(start, nxt.timestamp);
                }
                pending = None;
            } else if !cur.online && nxt.online {
                pending = Some(nxt.timestamp);
            } else if cur.online && nxt.online {
                if pending.is_none() {
                    pending = Some(cur.timestamp);
                }
            } else {
                pending = None;
            }
            k = k + 1;
        }
        Ok(set)
    }
}

/// The timestamp of the latest event that reported the entity online, if
/// any event did.
pub open spec fn last_online_of(evs: Seq<PresenceEvent>) -> Option<i64>
    decreases evs.len(),
{
    if evs.len() == 0 {
        None
    } else if evs.last().online {
        Some(evs.last().timestamp)
    } else {
        last_online_of(evs.drop_last())
    }
}

/// The timestamp of the most recent "online" event of the stream, or `None`
/// when the entity was never seen online.
pub fn last_online_timestamp(events: &Vec<PresenceEvent>) -> (r: Option<i64>)
    ensures
        r == last_online_of(events@),
{
    let mut k: usize = events.len();
    proof {
        assert(events@.subrange(0, events@.len() as int) =~= events@);
    }
    while k > 0
        invariant
            0 <= k <= events@.len(),
            last_online_of(events@) == last_online_of(events@.subrange(0, k as int)),
        decreases k,
    {
        let ev = events[k - 1];
        proof {
            let pre = events@.subrange(0, k as int);
            assert(pre.last() == events@[k - 1]);
            assert(pre.drop_last() =~= events@.subrange(0, k as int - 1));
        }
        if ev.online {
            return Some(ev.timestamp);
        }
        k = k - 1;
    }
    proof {
        assert(events@.subrange(0, 0) =~= Seq::<PresenceEvent>::empty());
    }
    None
}

/// No two intervals the builder produces overlap or touch, and every one of
/// them is non-empty: the canonical interval set of any strictly ascending
/// event stream is well formed.
pub proof fn lemma_built_intervals_well_formed(evs: Seq<PresenceEvent>)
    requires
        strictly_ascending(evs),
    ensures
        sorted_disjoint(online_intervals_of(evs)),
{
    if evs.len() > 1 {
        lemma_builder_state(evs, evs.len() - 1);
    }
}

/// Round trip: in a strictly ascending stream that alternates online and
/// offline, beginning with online, each online/offline pair reproduces
/// exactly one interval whose bounds are the pair's two timestamps.
pub proof fn lemma_alternating_round_trip(evs: Seq<PresenceEvent>)
    requires
        strictly_ascending(evs),
        evs.len() % 2 == 0,
        forall|k: int| 0 <= k < evs.len() ==> ((#[trigger] evs[k]).online <==> k % 2 == 0),
    ensures
        online_intervals_of(evs).len() == evs.len() / 2,
        forall|j: int|
            0 <= j < evs.len() / 2
                ==> (#[trigger] online_intervals_of(evs)[j])
                    == (evs[2 * j].timestamp, evs[2 * j + 1].timestamp),
{
    if evs.len() >= 2 {
        lemma_alternating_state(evs, evs.len() - 1);
    }
}

/// Induction for the round trip: after `p` pairs of an alternating stream,
/// an odd `p` has closed the first `(p + 1) / 2` intervals and left no
/// pending start, while an even `p > 0` has closed `p / 2` intervals and
/// holds the timestamp of event `p` as pending start.
proof fn lemma_alternating_state(evs: Seq<PresenceEvent>, p: int)
    requires
        strictly_ascending(evs),
        forall|k: int| 0 <= k < evs.len() ==> ((#[trigger] evs[k]).online <==> k % 2 == 0),
        0 <= p < evs.len(),
    ensures
        p % 2 == 1 ==> {
            &&& pending_after(evs, p) is None
            &&& intervals_after(evs, p).len() == (p + 1) / 2
        },
        p % 2 == 0 ==> {
            &&& intervals_after(evs, p).len() == p / 2
            &&& p > 0 ==> pending_after(evs, p) == Some(evs[p].timestamp)
        },
        forall|j: int|
            0 <= j < intervals_after(evs, p).len()
                ==> (#[trigger] intervals_after(evs, p)[j])
                    == (evs[2 * j].timestamp, evs[2 * j + 1].timestamp),
    decreases p,
{
    if p > 0 {
        lemma_alternating_state(evs, p - 1);
        let cur = evs[p - 1];
        let nxt = evs[p];
        if p % 2 == 1 {
            assert(cur.online && !nxt.online);
            let start = match pending_after(evs, p - 1) {
                Some(v) => v,
                None => cur.timestamp,
            };
            assert(start == cur.timestamp);
            assert(cur.timestamp < nxt.timestamp);
            assert(intervals_after(evs, p)
                == intervals_after(evs, p - 1).push((evs[p - 1].timestamp, evs[p].timestamp)));
            assert((p - 1) / 2 == (p + 1) / 2 - 1);
        } else {
            assert(!cur.online && nxt.online);
        }
    }
}

} // verus!
