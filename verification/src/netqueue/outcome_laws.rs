//! What the outcomes of a run of background traffic lead to, counted from the
//! outcomes themselves.
use vstd::prelude::*;

use crate::netqueue::budget_laws::a_budget_counts_its_windows;
use crate::netqueue::budget_laws::bytes_within;
use crate::netqueue::budget_laws::in_time;
use crate::netqueue::budget_laws::requests_within;
use crate::netqueue::budget_laws::unused;
use crate::netqueue::budget_laws::used;
use crate::netqueue::budget_laws::used_all;
use crate::netqueue::budget_laws::Usage;
use crate::netqueue::jobs::Job;
use crate::netqueue::limits::power2;
use crate::netqueue::limits::Metered;
use crate::netqueue::run_laws::lived;
use crate::netqueue::run_laws::reaches;
use crate::netqueue::run_laws::then_life;
use crate::netqueue::run_laws::with_prefetches;
use crate::netqueue::run_laws::Event;
use crate::netqueue::run_laws::Life;
use crate::netqueue::worker::log_line_of;
use crate::netqueue::worker::Outcome;
use crate::netqueue::worker::Pause;
use crate::netqueue::worker::SubstrateModel;
use vstd::arithmetic::power2::pow2;

verus! {

/// How many jobs failed since the last that was done, or since the start.
pub open spec fn failures_since_done(events: Seq<Event>) -> nat
    decreases events.len(),
{
    if events.len() == 0 {
        0
    } else {
        let before = failures_since_done(events.drop_last());
        match events.last() {
            Event::Ended { outcome: Outcome::Done { .. }, .. } => 0,
            Event::Ended { outcome: Outcome::Failed, .. } => before + 1,
            Event::Ended { outcome: Outcome::ServerError, .. } => before + 1,
            _ => before,
        }
    }
}

/// How many times in a row the server refused or failed: since the last job that
/// was done or failed otherwise, or since the start.
pub open spec fn refusals_in_a_row(events: Seq<Event>) -> nat
    decreases events.len(),
{
    if events.len() == 0 {
        0
    } else {
        let before = refusals_in_a_row(events.drop_last());
        match events.last() {
            Event::Ended { outcome: Outcome::Done { .. }, .. } => 0,
            Event::Ended { outcome: Outcome::Failed, .. } => 0,
            Event::Ended { outcome: Outcome::RateLimited { .. }, .. } => before + 1,
            Event::Ended { outcome: Outcome::ServerError, .. } => before + 1,
            _ => before,
        }
    }
}

/// Event `j` is a job that the server refused or failed, at `t`.
pub open spec fn refused_at(events: Seq<Event>, j: int, t: u64) -> bool {
    &&& 0 <= j < events.len()
    &&& match events[j] {
        Event::Ended { outcome: Outcome::RateLimited { .. }, now, .. } => now == t,
        Event::Ended { outcome: Outcome::ServerError, now, .. } => now == t,
        _ => false,
    }
}

/// Event `j` is the last with which the server had refused `threshold` times in
/// a row, at `t`, and no job was done since.
pub open spec fn tripped_at(events: Seq<Event>, threshold: nat, j: int, t: u64) -> bool {
    &&& refused_at(events, j, t)
    &&& refusals_in_a_row(events.take(j + 1)) >= threshold
    &&& forall|k: int|
        j < k < events.len() ==> !((#[trigger] events[k]) matches Event::Ended {
            outcome: Outcome::Done { .. },
            ..
        })
    &&& forall|k: int, u: u64|
        j < k < events.len() && #[trigger] refused_at(events, k, u) ==> refusals_in_a_row(
            events.take(k + 1),
        ) < threshold
}

/// Offering jobs leaves everything but the queue and the log as it was.
proof fn lemma_offered(life: Life, jobs: Seq<Job>, n: int)
    ensures
        ({
            let m = with_prefetches(life, jobs, n).m;
            &&& m.attempt == life.m.attempt
            &&& m.breaker == life.m.breaker
            &&& m.budget == life.m.budget
            &&& m.backoff_base == life.m.backoff_base
            &&& m.backoff_max == life.m.backoff_max
            &&& m.config == life.m.config
        }),
    decreases n,
{
    if n > 0 {
        lemma_offered(life, jobs, n - 1);
    }
}

proof fn lemma_ended(life: Life, outcome: Outcome, follow_ups: Seq<Job>, now: u64)
    ensures
        ({
            let job = life.running[0];
            let m = life.m;
            let next = then_life(life, Event::Ended { outcome, follow_ups, now }).m;
            &&& next.attempt == m.attempt_after(outcome)
            &&& next.breaker == m.breaker_after(outcome, now)
            &&& next.budget == m.budget_after(job.speculative(), outcome, now)
            &&& next.backoff_base == m.backoff_base
            &&& next.backoff_max == m.backoff_max
            &&& next.config == m.config
        }),
{
    let job = life.running[0];
    let settled = Life {
        m: life.m.settled(job.speculative(), log_line_of(job), outcome, now),
        ..life
    };
    lemma_offered(settled, follow_ups, follow_ups.len() as int);
}

/// The least of two numbers.
pub open spec fn least(a: nat, b: nat) -> nat {
    if a <= b {
        a
    } else {
        b
    }
}

proof fn lemma_power(n: nat)
    ensures
        power2(n) == pow2(n),
    decreases n,
{
    if n == 0 {
        vstd::arithmetic::power2::lemma2_to64();
    } else {
        lemma_power((n - 1) as nat);
        vstd::arithmetic::power2::lemma_pow2_unfold(n);
    }
}

proof fn lemma_attempts(m: SubstrateModel, events: Seq<Event>)
    requires
        m.attempt == 0,
    ensures
        ({
            let now = lived(m, events).m;
            &&& now.attempt as nat == least(failures_since_done(events), u32::MAX as nat)
            &&& now.backoff_base == m.backoff_base
            &&& now.backoff_max == m.backoff_max
            &&& now.config == m.config
        }),
    decreases events.len(),
{
    if events.len() > 0 {
        let before = lived(m, events.drop_last());
        lemma_attempts(m, events.drop_last());
        match events.last() {
            Event::Ended { outcome, follow_ups, now } => {
                lemma_ended(before, outcome, follow_ups, now);
            },
            _ => {},
        }
    }
}

/// However a run went, the pause after a failure is drawn below the base,
/// doubled once for each failure since the last job that was done, sixteen times
/// at most, and never above the maximum. A job that was done so starts the
/// delays over.
pub proof fn a_pause_doubles_with_each_failure(
    m: SubstrateModel,
    events: Seq<Event>,
    outcome: Outcome,
    pause: Pause,
)
    requires
        m.attempt == 0,
        outcome is Failed || outcome is ServerError,
        lived(m, events).m.pause_after(outcome, pause),
    ensures
        pause matches Pause::Backoff(d) && d.ceiling_ms as nat == least(
            m.backoff_max,
            m.backoff_base * pow2(least(failures_since_done(events), 16)),
        ) && d.numerator < pow2(53),
{
    lemma_attempts(m, events);
    lemma_power(least(failures_since_done(events), 16));
    vstd::arithmetic::power2::lemma2_to64_rest();
    let x = crate::netqueue::limits::mixed(
        crate::netqueue::limits::wrap_sum(
            lived(m, events).m.jitter,
            crate::netqueue::limits::JITTER_STEP,
        ),
    );
    assert(x >> 11 < 0x20_0000_0000_0000) by (bit_vector);
}

/// However a run went, the pause after a refusal is as long as the server asked,
/// and no shorter than the configured default; after any other job that did not
/// fail there is none.
pub proof fn a_refusal_is_waited_out(
    m: SubstrateModel,
    events: Seq<Event>,
    outcome: Outcome,
    pause: Pause,
)
    requires
        m.attempt == 0,
        !(outcome is Failed || outcome is ServerError),
        lived(m, events).m.pause_after(outcome, pause),
    ensures
        match outcome {
            Outcome::RateLimited { retry_after_ms } => {
                &&& pause is Millis
                &&& pause->Millis_0 >= m.config.retry_after_default_secs * 1000
                &&& retry_after_ms matches Some(ms) ==> pause->Millis_0 >= ms
                &&& pause->Millis_0 == m.config.retry_after_default_secs * 1000 || (
                retry_after_ms matches Some(ms) && pause->Millis_0 == ms)
            },
            _ => pause is Nothing,
        },
{
    lemma_attempts(m, events);
}

proof fn lemma_streak(m: SubstrateModel, events: Seq<Event>) -> (j: int)
    requires
        m.breaker.consecutive == 0,
        m.breaker.opened_at is None,
        m.breaker.threshold >= 1,
    ensures
        ({
            let b = lived(m, events).m.breaker;
            let threshold = m.breaker.threshold as nat;
            &&& b.threshold == m.breaker.threshold
            &&& b.cooldown == m.breaker.cooldown
            &&& b.consecutive as nat == least(refusals_in_a_row(events), u32::MAX as nat)
            &&& match b.opened_at {
                Some(t) => tripped_at(events, threshold, j, t),
                None => forall|k: int, t: u64| !#[trigger] tripped_at(events, threshold, k, t),
            }
        }),
    decreases events.len(),
{
    let threshold = m.breaker.threshold as nat;
    if events.len() == 0 {
        -1
    } else {
        let front = events.drop_last();
        let n = events.len() - 1;
        let at = lemma_streak(m, front);
        let before = lived(m, front);
        let b = before.m.breaker;
        assert(events.take(n + 1) =~= events);
        assert forall|k: int| 0 <= k < n implies events.take(k + 1) =~= #[trigger] front.take(
            k + 1,
        ) by {}
        assert forall|k: int, t: u64| 0 <= k < n implies (refused_at(events, k, t)
            == #[trigger] refused_at(front, k, t)) by {
            assert(front[k] == events[k]);
        }
        match events.last() {
            Event::Ended { outcome, follow_ups, now } => {
                lemma_ended(before, outcome, follow_ups, now);
                let now_b = lived(m, events).m.breaker;
                if outcome is Done {
                    assert(now_b.opened_at is None);
                    assert forall|k: int, t: u64| !#[trigger] tripped_at(
                        events,
                        threshold,
                        k,
                        t,
                    ) by {
                        if tripped_at(events, threshold, k, t) {
                            if k < n {
                                assert(!(events[n] matches Event::Ended {
                                    outcome: Outcome::Done { .. },
                                    ..
                                }));
                            }
                        }
                    }
                    -1
                } else if (outcome is RateLimited || outcome is ServerError)
                    && refusals_in_a_row(events) >= threshold {
                    assert(refused_at(events, n, now));
                    assert(now_b.opened_at == Some(now));
                    assert(tripped_at(events, threshold, n, now));
                    n
                } else {
                    assert(now_b.opened_at == b.opened_at);
                    lemma_still_tripped(events, threshold);
                    at
                }
            },
            _ => {
                assert(lived(m, events).m.breaker == b);
                lemma_still_tripped(events, threshold);
                at
            },
        }
    }
}

/// An event that neither trips the breaker nor closes it changes nothing.
proof fn lemma_still_tripped(events: Seq<Event>, threshold: nat)
    requires
        events.len() > 0,
        !(events.last() matches Event::Ended { outcome: Outcome::Done { .. }, .. }),
        forall|t: u64|
            #[trigger] refused_at(events, events.len() - 1, t) ==> refusals_in_a_row(events)
                < threshold,
    ensures
        forall|k: int, t: u64|
            #[trigger] tripped_at(events, threshold, k, t) <==> tripped_at(
                events.drop_last(),
                threshold,
                k,
                t,
            ),
{
    let front = events.drop_last();
    let n = events.len() - 1;
    assert(events.take(n + 1) =~= events);
    assert forall|k: int, t: u64|
        #[trigger] tripped_at(events, threshold, k, t) <==> tripped_at(front, threshold, k, t) by {
        assert forall|i: int, u: u64| 0 <= i < n implies (#[trigger] refused_at(events, i, u)
            == refused_at(front, i, u)) && events.take(i + 1) == front.take(i + 1) by {
            assert(front[i] == events[i]);
            assert(events.take(i + 1) =~= front.take(i + 1));
        }
        if tripped_at(events, threshold, k, t) {
            if k == n {
                assert(refused_at(events, n, t));
            }
            assert forall|i: int| k < i < front.len() implies !((#[trigger] front[i])
                matches Event::Ended { outcome: Outcome::Done { .. }, .. }) by {
                assert(front[i] == events[i]);
            }
            assert forall|i: int, u: u64|
                k < i < front.len() && #[trigger] refused_at(front, i, u) implies refusals_in_a_row(
                front.take(i + 1),
            ) < threshold by {
                assert(refused_at(events, i, u));
            }
            assert(refused_at(front, k, t));
        }
        if tripped_at(front, threshold, k, t) {
            assert forall|i: int| k < i < events.len() implies !((#[trigger] events[i])
                matches Event::Ended { outcome: Outcome::Done { .. }, .. }) by {
                if i < n {
                    assert(front[i] == events[i]);
                }
            }
            assert forall|i: int, u: u64|
                k < i < events.len() && #[trigger] refused_at(
                    events,
                    i,
                    u,
                ) implies refusals_in_a_row(events.take(i + 1)) < threshold by {
                if i < n {
                    assert(refused_at(front, i, u));
                }
            }
            assert(refused_at(events, k, t));
        }
    }
}

/// However a run went, the breaker holds traffic back exactly while the cooldown
/// has not passed since the server last refused for as many times in a row as
/// the threshold says, with no job done since.
pub proof fn refusals_in_a_row_hold_traffic_back(m: SubstrateModel, events: Seq<Event>, now: u64)
    requires
        m.breaker.consecutive == 0,
        m.breaker.opened_at is None,
        m.breaker.threshold >= 1,
    ensures
        lived(m, events).m.breaker.open_at(now) <==> exists|j: int, t: u64| #[trigger]
            tripped_at(events, m.breaker.threshold as nat, j, t) && now < t + m.breaker.cooldown
                && m.breaker.cooldown > 0,
{
    let j = lemma_streak(m, events);
    let b = lived(m, events).m.breaker;
    let threshold = m.breaker.threshold as nat;
    if b.open_at(now) {
        assert(tripped_at(events, threshold, j, b.opened_at->0));
    }
    if exists|j: int, t: u64| #[trigger]
        tripped_at(events, threshold, j, t) && now < t + m.breaker.cooldown && m.breaker.cooldown
            > 0 {
        let (k, t) = choose|k: int, t: u64| #[trigger]
            tripped_at(events, threshold, k, t) && now < t + m.breaker.cooldown
                && m.breaker.cooldown > 0;
        assert(b.opened_at is Some);
        let s = b.opened_at->0;
        if k < j {
            assert(refused_at(events, j, s));
        } else if j < k {
            assert(refused_at(events, k, t));
        }
        assert(k == j && t == s);
    }
}

/// What event `e` does to the budget: a prefetch that was attempted counts as a
/// request and with its bytes; a prefetch that comes up is held against it.
pub open spec fn spending(life: Life, e: Event) -> Seq<Usage> {
    match e {
        Event::Shown { now } => seq![Usage::Shown { now }],
        Event::Asked { idle, now } => if reaches(life.m, idle, now)
            && life.m.queue.waiting()[0].speculative() {
            seq![Usage::Asked { now }]
        } else {
            Seq::empty()
        },
        Event::Ended { outcome, now, .. } => if !life.running[0].speculative() {
            Seq::empty()
        } else {
            match outcome {
                Outcome::Skipped { .. } => Seq::empty(),
                Outcome::Done { bytes } => seq![
                    Usage::Request { now },
                    Usage::Bytes { now, n: bytes },
                ],
                _ => seq![Usage::Request { now }],
            }
        },
        _ => Seq::empty(),
    }
}

/// What a run does to the budget.
pub open spec fn spent(m: SubstrateModel, events: Seq<Event>) -> Seq<Usage>
    decreases events.len(),
{
    if events.len() == 0 {
        Seq::empty()
    } else {
        spent(m, events.drop_last()) + spending(lived(m, events.drop_last()), events.last())
    }
}

proof fn lemma_spent(m: SubstrateModel, events: Seq<Event>)
    ensures
        lived(m, events).m.budget == used_all(m.budget, spent(m, events)),
    decreases events.len(),
{
    if events.len() > 0 {
        let front = events.drop_last();
        lemma_spent(m, front);
        let life = lived(m, front);
        let us = spent(m, front);
        let more = spending(life, events.last());
        let all = us + more;
        match events.last() {
            Event::Ended { outcome, follow_ups, now } => {
                lemma_ended(life, outcome, follow_ups, now);
            },
            _ => {},
        }
        if more.len() == 0 {
            assert(all =~= us);
        } else if more.len() == 1 {
            assert(all.drop_last() =~= us);
            assert(all.last() == more[0]);
            assert(used_all(m.budget, all) == used(used_all(m.budget, us), more[0]));
        } else {
            let one = us.push(more[0]);
            assert(all.drop_last() =~= one);
            assert(one.drop_last() =~= us);
            assert(all.last() == more[1]);
            assert(used_all(m.budget, one) == used(used_all(m.budget, us), more[0]));
            assert(used_all(m.budget, all) == used(used_all(m.budget, one), more[1]));
        }
    }
}

/// However a run went, with the clock going forward, a prefetch is let through
/// exactly where prefetching is not suspended, fewer prefetches than the hourly
/// cap were attempted in the last hour, and fewer bytes than the daily cap came
/// in the last day. Nothing but attempted prefetches counts.
pub proof fn only_attempted_prefetches_use_the_budget(
    m: SubstrateModel,
    events: Seq<Event>,
    now: u64,
)
    requires
        m.budget.reqs.len() == 0,
        m.budget.bytes.len() == 0,
        in_time(spent(m, events), now),
    ensures
        lived(m, events).m.budget.has_headroom(now) <==> {
            &&& m.budget.metered != Metered::Always
            &&& requests_within(spent(m, events), now) < m.budget.req_cap
            &&& bytes_within(spent(m, events), now) < m.budget.byte_cap
        },
{
    lemma_spent(m, events);
    let b = m.budget;
    assert(b =~= unused(b.byte_cap, b.req_cap, b.metered));
    a_budget_counts_its_windows(b.byte_cap, b.req_cap, b.metered, spent(m, events), now);
}

} // verus!
