//! What a budget answers, over everything that was recorded in it.
use vstd::prelude::*;

use crate::netqueue::limits::bytes_in;
use crate::netqueue::limits::expired;
use crate::netqueue::limits::held32;
use crate::netqueue::limits::held64;
use crate::netqueue::limits::still_counted;
use crate::netqueue::limits::still_open;
use crate::netqueue::limits::BudgetModel;
use crate::netqueue::limits::Metered;
use crate::netqueue::limits::DAY_SECS;
use crate::netqueue::limits::HOUR_SECS;

verus! {

/// Something that happens to a budget, and when.
pub enum Usage {
    /// A request is recorded.
    Request { now: u64 },
    /// Bytes are recorded.
    Bytes { now: u64, n: u64 },
    /// It is asked whether a request is allowed.
    Asked { now: u64 },
    /// A snapshot is taken.
    Shown { now: u64 },
}

/// When it happens.
pub open spec fn moment(u: Usage) -> u64 {
    match u {
        Usage::Request { now } => now,
        Usage::Bytes { now, n } => now,
        Usage::Asked { now } => now,
        Usage::Shown { now } => now,
    }
}

/// A budget with nothing used.
pub open spec fn unused(byte_cap: u64, req_cap: u32, metered: Metered) -> BudgetModel {
    BudgetModel { byte_cap, req_cap, metered, reqs: Seq::empty(), bytes: Seq::empty() }
}

/// The budget once something happened to it.
pub open spec fn used(b: BudgetModel, u: Usage) -> BudgetModel {
    match u {
        Usage::Request { now } => BudgetModel { reqs: b.reqs.push(now), ..b },
        Usage::Bytes { now, n } => BudgetModel {
            bytes: if n > 0 {
                b.bytes.push((now, n))
            } else {
                b.bytes
            },
            ..b
        },
        Usage::Asked { now } => if b.metered == Metered::Always {
            b
        } else {
            b.pruned(now)
        },
        Usage::Shown { now } => b.pruned(now),
    }
}

/// The budget once all of `us` happened to it, in order.
pub open spec fn used_all(b: BudgetModel, us: Seq<Usage>) -> BudgetModel
    decreases us.len(),
{
    if us.len() == 0 {
        b
    } else {
        used(used_all(b, us.drop_last()), us.last())
    }
}

/// Time does not run backwards, and all of it is past at `now`.
pub open spec fn in_time(us: Seq<Usage>, now: u64) -> bool {
    &&& forall|i: int, j: int| 0 <= i < j < us.len() ==> moment(us[i]) <= moment(us[j])
    &&& forall|i: int| 0 <= i < us.len() ==> moment(#[trigger] us[i]) <= now
}

/// How many of the recorded requests are less than an hour old at `now`.
pub open spec fn requests_within(us: Seq<Usage>, now: u64) -> nat
    decreases us.len(),
{
    if us.len() == 0 {
        0
    } else {
        requests_within(us.drop_last(), now) + match us.last() {
            Usage::Request { now: then } => if !expired(now, then, HOUR_SECS) {
                1nat
            } else {
                0nat
            },
            _ => 0nat,
        }
    }
}

/// The sum of the recorded bytes that are less than a day old at `now`.
pub open spec fn bytes_within(us: Seq<Usage>, now: u64) -> nat
    decreases us.len(),
{
    if us.len() == 0 {
        0
    } else {
        bytes_within(us.drop_last(), now) + match us.last() {
            Usage::Bytes { now: then, n } => if !expired(now, then, DAY_SECS) {
                n as nat
            } else {
                0nat
            },
            _ => 0nat,
        }
    }
}

spec fn times_in_order(times: Seq<u64>, last: u64) -> bool {
    &&& forall|i: int, j: int| 0 <= i < j < times.len() ==> times[i] <= times[j]
    &&& forall|i: int| 0 <= i < times.len() ==> #[trigger] times[i] <= last
}

spec fn records_in_order(records: Seq<(u64, u64)>, last: u64) -> bool {
    &&& forall|i: int, j: int| 0 <= i < j < records.len() ==> records[i].0 <= records[j].0
    &&& forall|i: int| 0 <= i < records.len() ==> (#[trigger] records[i]).0 <= last
}

proof fn lemma_open_push(times: Seq<u64>, t: u64, now: u64, window: u64)
    requires
        times_in_order(times, t),
    ensures
        still_open(times.push(t), now, window).len() == still_open(times, now, window).len() + (
        if expired(now, t, window) {
            0int
        } else {
            1
        }),
    decreases times.len(),
{
    let more = times.push(t);
    if times.len() == 0 {
        assert(more.drop_first() =~= Seq::empty());
        reveal_with_fuel(still_open, 2);
    } else {
        assert(more[0] == times[0]);
        if expired(now, times[0], window) {
            let rest = times.drop_first();
            assert forall|i: int, j: int| 0 <= i < j < rest.len() implies rest[i] <= rest[j] by {
                assert(times[i + 1] <= times[j + 1]);
            }
            lemma_open_push(rest, t, now, window);
            assert(more.drop_first() =~= rest.push(t));
        }
    }
}

proof fn lemma_counted_push(records: Seq<(u64, u64)>, t: u64, n: u64, now: u64, window: u64)
    requires
        records_in_order(records, t),
    ensures
        bytes_in(still_counted(records.push((t, n)), now, window)) == bytes_in(
            still_counted(records, now, window),
        ) + (if expired(now, t, window) {
            0
        } else {
            n as int
        }),
    decreases records.len(),
{
    let more = records.push((t, n));
    if records.len() == 0 {
        assert(more.drop_first() =~= Seq::empty());
        assert(more.drop_last() =~= Seq::empty());
        reveal_with_fuel(still_counted, 2);
        reveal_with_fuel(bytes_in, 2);
    } else {
        assert(more[0] == records[0]);
        if expired(now, records[0].0, window) {
            let rest = records.drop_first();
            assert forall|i: int, j: int| 0 <= i < j < rest.len() implies rest[i].0 <= rest[j].0 by {
                assert(records[i + 1].0 <= records[j + 1].0);
            }
            lemma_counted_push(rest, t, n, now, window);
            assert(more.drop_first() =~= rest.push((t, n)));
        } else {
            assert(more.drop_last() =~= records);
        }
    }
}

proof fn lemma_open_again(times: Seq<u64>, then: u64, now: u64, window: u64, last: u64)
    requires
        then <= now,
        times_in_order(times, last),
    ensures
        still_open(still_open(times, then, window), now, window) == still_open(times, now, window),
        times_in_order(still_open(times, then, window), last),
    decreases times.len(),
{
    if times.len() > 0 && expired(then, times[0], window) {
        let rest = times.drop_first();
        assert forall|i: int, j: int| 0 <= i < j < rest.len() implies rest[i] <= rest[j] by {
            assert(times[i + 1] <= times[j + 1]);
        }
        lemma_open_again(rest, then, now, window, last);
    }
}

proof fn lemma_counted_again(
    records: Seq<(u64, u64)>,
    then: u64,
    now: u64,
    window: u64,
    last: u64,
)
    requires
        then <= now,
        records_in_order(records, last),
    ensures
        still_counted(still_counted(records, then, window), now, window) == still_counted(
            records,
            now,
            window,
        ),
        records_in_order(still_counted(records, then, window), last),
    decreases records.len(),
{
    if records.len() > 0 && expired(then, records[0].0, window) {
        let rest = records.drop_first();
        assert forall|i: int, j: int| 0 <= i < j < rest.len() implies rest[i].0 <= rest[j].0 by {
            assert(records[i + 1].0 <= records[j + 1].0);
        }
        lemma_counted_again(rest, then, now, window, last);
    }
}

proof fn lemma_used(b: BudgetModel, us: Seq<Usage>, last: u64, now: u64)
    requires
        b.reqs.len() == 0,
        b.bytes.len() == 0,
        in_time(us, last),
        last <= now,
    ensures
        ({
            let a = used_all(b, us);
            &&& a.byte_cap == b.byte_cap
            &&& a.req_cap == b.req_cap
            &&& a.metered == b.metered
            &&& times_in_order(a.reqs, last)
            &&& records_in_order(a.bytes, last)
            &&& a.pruned(now).reqs.len() == requests_within(us, now)
            &&& bytes_in(a.pruned(now).bytes) == bytes_within(us, now)
        }),
    decreases us.len(),
{
    if us.len() > 0 {
        let front = us.drop_last();
        let u = us.last();
        let t = moment(u);
        assert(in_time(front, t)) by {
            assert forall|i: int, j: int| 0 <= i < j < front.len() implies moment(front[i])
                <= moment(front[j]) by {
                assert(moment(us[i]) <= moment(us[j]));
            }
            assert forall|i: int| 0 <= i < front.len() implies moment(#[trigger] front[i]) <= t by {
                assert(moment(us[i]) <= moment(us[us.len() - 1]));
            }
        }
        assert(moment(us[us.len() - 1]) <= last);
        lemma_used(b, front, t, now);
        let before = used_all(b, front);
        match u {
            Usage::Request { now: then } => {
                lemma_open_push(before.reqs, then, now, HOUR_SECS);
            },
            Usage::Bytes { now: then, n } => {
                lemma_counted_push(before.bytes, then, n, now, DAY_SECS);
            },
            _ => {
                lemma_open_again(before.reqs, t, now, HOUR_SECS, t);
                lemma_counted_again(before.bytes, t, now, DAY_SECS, t);
            },
        }
    }
}

/// A budget lets a request through exactly where prefetching is not suspended,
/// fewer requests than the cap were recorded in the last hour, and fewer bytes
/// than the cap in the last day, whatever was asked in between.
pub proof fn a_budget_counts_its_windows(
    byte_cap: u64,
    req_cap: u32,
    metered: Metered,
    us: Seq<Usage>,
    now: u64,
)
    requires
        in_time(us, now),
    ensures
        ({
            let b = used_all(unused(byte_cap, req_cap, metered), us);
            &&& b.pruned(now).reqs.len() == requests_within(us, now)
            &&& bytes_in(b.pruned(now).bytes) == bytes_within(us, now)
            &&& b.has_headroom(now) <==> metered != Metered::Always && requests_within(us, now)
                < req_cap && bytes_within(us, now) < byte_cap
        }),
{
    lemma_used(unused(byte_cap, req_cap, metered), us, now, now);
}

/// A snapshot shows the settings and what the windows hold, and decides what is
/// allowed.
pub proof fn a_snapshot_decides(
    byte_cap: u64,
    req_cap: u32,
    metered: Metered,
    us: Seq<Usage>,
    now: u64,
)
    requires
        in_time(us, now),
    ensures
        ({
            let b = used_all(unused(byte_cap, req_cap, metered), us);
            let s = b.shown(now);
            &&& s.requests_cap == req_cap
            &&& s.bytes_cap == byte_cap
            &&& s.metered == metered
            &&& s.suspended == (metered == Metered::Always)
            &&& s.requests_used == held32(requests_within(us, now))
            &&& s.bytes_used == held64(bytes_within(us, now))
            &&& b.has_headroom(now) <==> !s.suspended && s.requests_used < s.requests_cap
                && s.bytes_used < s.bytes_cap
        }),
{
    lemma_used(unused(byte_cap, req_cap, metered), us, now, now);
}

/// Once the bytes of the last day reach their cap, nothing is let through until
/// enough of them are a day old.
pub proof fn an_overshoot_blocks_until_it_is_old(
    byte_cap: u64,
    req_cap: u32,
    metered: Metered,
    us: Seq<Usage>,
    now: u64,
)
    requires
        in_time(us, now),
        bytes_within(us, now) >= byte_cap,
    ensures
        !used_all(unused(byte_cap, req_cap, metered), us).has_headroom(now),
{
    a_budget_counts_its_windows(byte_cap, req_cap, metered, us, now);
}

} // verus!
