//! What holds at every step of background traffic, whatever is offered to it and
//! however its jobs end.
use vstd::prelude::*;

use crate::netqueue::jobs::job_keys;
use crate::netqueue::jobs::offering_keeps_order;
use crate::netqueue::jobs::Job;
use crate::netqueue::worker::lemma_freeing_keeps_order;
use crate::netqueue::worker::lemma_prefetching_owns;
use crate::netqueue::worker::lemma_taking_keeps_order;
use crate::netqueue::worker::log_line_of;
use crate::netqueue::worker::logged;
use crate::netqueue::worker::owns;
use crate::netqueue::worker::Outcome;
use crate::netqueue::worker::SubstrateModel;

verus! {

/// Something that happens to background traffic.
pub enum Event {
    /// A revalidation or a tab's load is offered.
    Offered { job: Job },
    /// A prefetch is offered.
    Prefetched { job: Job },
    /// Prefetching is turned on or off.
    Switched { on: bool },
    /// The budget is looked at.
    Shown { now: u64 },
    /// The worker asks what to do. `idle` says whether the reader's own traffic
    /// is quiet.
    Asked { idle: bool, now: u64 },
    /// The job that runs ends.
    Ended { outcome: Outcome, follow_ups: Seq<Job>, now: u64 },
}

/// The state of background traffic, and what led to it.
#[verifier::ext_equal]
pub struct Life {
    pub m: SubstrateModel,
    /// The jobs that were started and have not ended.
    pub running: Seq<Job>,
    /// The revalidations that were ever taken on, in the order they came.
    pub urgent: Seq<Job>,
    /// How many of them were started.
    pub urgent_gone: nat,
    /// The prefetches that were ever taken on, in the order they came.
    pub spare: Seq<Job>,
    /// How many of them were started or dropped.
    pub spare_gone: nat,
}

/// Nothing has happened yet.
pub open spec fn born(m: SubstrateModel) -> Life {
    Life {
        m,
        running: Seq::empty(),
        urgent: Seq::empty(),
        urgent_gone: 0,
        spare: Seq::empty(),
        spare_gone: 0,
    }
}

/// State as a new one is: in order, nothing waiting, nothing running.
pub open spec fn fresh(m: SubstrateModel) -> bool {
    m.wf() && m.queue.waiting().len() == 0 && !m.busy
}

/// The life with one more job taken on, and the state it led to.
pub open spec fn with_job(life: Life, job: Job, m: SubstrateModel) -> Life {
    if job.speculative() {
        Life { m, spare: life.spare.push(job), ..life }
    } else {
        Life { m, urgent: life.urgent.push(job), ..life }
    }
}

/// The life once a prefetch was offered.
pub open spec fn with_prefetch(life: Life, job: Job) -> Life {
    if life.m.takes(job) {
        with_job(life, logged(job, life.m.next_id), life.m.prefetching(job))
    } else {
        life
    }
}

/// The life once the first `n` of `jobs` were offered.
pub open spec fn with_prefetches(life: Life, jobs: Seq<Job>, n: int) -> Life
    decreases n,
{
    if n <= 0 {
        life
    } else {
        with_prefetch(with_prefetches(life, jobs, n - 1), jobs[n - 1])
    }
}

/// The next job may not go on: it is a prefetch, and the budget is used up.
pub open spec fn over_budget(m: SubstrateModel, now: u64) -> bool {
    m.queue.waiting()[0].speculative() && !m.budget.has_headroom(now)
}

/// The worker gets as far as the next job.
pub open spec fn reaches(m: SubstrateModel, idle: bool, now: u64) -> bool {
    !m.busy && m.queue.waiting().len() > 0 && idle && !m.breaker.open_at(now)
}

/// The worker starts the next job.
pub open spec fn starts(m: SubstrateModel, idle: bool, now: u64) -> bool {
    reaches(m, idle, now) && !over_budget(m, now)
}

/// The life without the next job in its lane.
pub open spec fn without_next(life: Life, m: SubstrateModel) -> Life {
    if life.m.queue.revalidation.len() > 0 {
        Life { m, urgent_gone: life.urgent_gone + 1, ..life }
    } else {
        Life { m, spare_gone: life.spare_gone + 1, ..life }
    }
}

/// The life once something happened.
pub open spec fn then_life(life: Life, e: Event) -> Life {
    let m = life.m;
    match e {
        Event::Offered { job } => if m.queue.inflight.contains(job.key()) {
            life
        } else {
            with_job(life, job, SubstrateModel { queue: m.queue.offered(job), ..m })
        },
        Event::Prefetched { job } => with_prefetch(life, job),
        Event::Switched { on } => Life { m: SubstrateModel { enabled: on, ..m }, ..life },
        Event::Shown { now } => Life {
            m: SubstrateModel { budget: m.budget.pruned(now), ..m },
            ..life
        },
        Event::Asked { idle, now } => if starts(m, idle, now) {
            Life {
                running: life.running.push(m.queue.waiting()[0]),
                ..without_next(life, m.running(now))
            }
        } else if reaches(m, idle, now) {
            without_next(life, m.dropping(now))
        } else {
            life
        },
        Event::Ended { outcome, follow_ups, now } => {
            let job = life.running[0];
            let settled = Life {
                m: m.settled(job.speculative(), log_line_of(job), outcome, now),
                ..life
            };
            let offered = with_prefetches(settled, follow_ups, follow_ups.len() as int);
            Life {
                m: SubstrateModel {
                    queue: offered.m.queue.freeing(job.key()),
                    busy: false,
                    ..offered.m
                },
                running: life.running.drop_first(),
                ..offered
            }
        },
    }
}

/// The life once all of `events` happened.
pub open spec fn lived(m: SubstrateModel, events: Seq<Event>) -> Life
    decreases events.len(),
{
    if events.len() == 0 {
        born(m)
    } else {
        then_life(lived(m, events.drop_last()), events.last())
    }
}

/// It can happen: what is offered as a revalidation is one, and only a job that
/// runs ends.
pub open spec fn possible(life: Life, e: Event) -> bool {
    match e {
        Event::Offered { job } => !job.speculative(),
        Event::Ended { .. } => life.running.len() > 0,
        _ => true,
    }
}

/// All of it can happen.
pub open spec fn all_possible(m: SubstrateModel, events: Seq<Event>) -> bool
    decreases events.len(),
{
    events.len() > 0 ==> all_possible(m, events.drop_last()) && possible(
        lived(m, events.drop_last()),
        events.last(),
    )
}

/// The state is in order, at most one job runs, and each lane holds what came
/// and has not gone, in the order it came.
pub open spec fn in_order(life: Life) -> bool {
    &&& life.m.wf()
    &&& life.running.len() <= 1
    &&& life.m.busy == (life.running.len() == 1)
    &&& life.running.len() == 1 ==> owns(life.m.queue, life.running[0].key())
    &&& life.urgent_gone <= life.urgent.len()
    &&& life.spare_gone <= life.spare.len()
    &&& life.m.queue.revalidation == life.urgent.skip(life.urgent_gone as int)
    &&& life.m.queue.prefetch == life.spare.skip(life.spare_gone as int)
}

proof fn lemma_offered_owns(life: Life, job: Job, key: Seq<char>)
    requires
        life.m.wf(),
        owns(life.m.queue, key),
        !life.m.queue.inflight.contains(job.key()),
    ensures
        owns(life.m.queue.offered(job), key),
{
    let q = life.m.queue;
    let n = q.offered(job);
    let w = choose|w: int| 0 <= w < q.inflight.len() && q.inflight[w] == key;
    assert(n.inflight[w] == key);
    if job_keys(n.waiting()).contains(key) {
        let a = choose|a: int|
            0 <= a < job_keys(n.waiting()).len() && job_keys(n.waiting())[a] == key;
        let at: int = if job.speculative() {
            q.waiting().len() as int
        } else {
            q.revalidation.len() as int
        };
        assert(n.waiting()[at] == job);
        if a != at {
            let b = if a < at {
                a
            } else {
                a - 1
            };
            assert(n.waiting()[a] == q.waiting()[b]);
            assert(job_keys(q.waiting())[b] == key);
        }
    }
}

proof fn lemma_pushed(list: Seq<Job>, gone: nat, job: Job)
    requires
        gone <= list.len(),
    ensures
        list.push(job).skip(gone as int) == list.skip(gone as int).push(job),
{
    assert(list.push(job).skip(gone as int) =~= list.skip(gone as int).push(job));
}

proof fn lemma_with_prefetch(life: Life, job: Job)
    requires
        in_order(life),
    ensures
        in_order(with_prefetch(life, job)),
        with_prefetch(life, job).m == life.m.prefetching(job),
        with_prefetch(life, job).running == life.running,
{
    let m = life.m;
    if m.takes(job) {
        let j = logged(job, m.next_id);
        assert(j.key() == job.key());
        assert(j.speculative() == job.speculative());
        offering_keeps_order(m.queue, j);
        assert(m.prefetching(job).queue == m.queue.offered(j));
        if life.running.len() == 1 {
            lemma_prefetching_owns(m, job, life.running[0].key());
        }
        lemma_pushed(life.urgent, life.urgent_gone, j);
        lemma_pushed(life.spare, life.spare_gone, j);
    }
}

proof fn lemma_with_prefetches(life: Life, jobs: Seq<Job>, n: int)
    requires
        in_order(life),
        0 <= n <= jobs.len(),
    ensures
        in_order(with_prefetches(life, jobs, n)),
        with_prefetches(life, jobs, n).m == life.m.prefetching_all(jobs, n),
        with_prefetches(life, jobs, n).running == life.running,
    decreases n,
{
    if n > 0 {
        lemma_with_prefetches(life, jobs, n - 1);
        lemma_with_prefetch(with_prefetches(life, jobs, n - 1), jobs[n - 1]);
    }
}

proof fn lemma_taken(life: Life)
    requires
        in_order(life),
        life.m.queue.waiting().len() > 0,
    ensures
        ({
            let q = life.m.queue.without_next();
            let after = without_next(life, life.m);
            &&& after.urgent_gone <= after.urgent.len()
            &&& after.spare_gone <= after.spare.len()
            &&& q.revalidation == after.urgent.skip(after.urgent_gone as int)
            &&& q.prefetch == after.spare.skip(after.spare_gone as int)
        }),
{
    let q = life.m.queue;
    if q.revalidation.len() > 0 {
        assert(q.revalidation.drop_first() =~= life.urgent.skip(life.urgent_gone as int + 1));
    } else {
        assert(q.prefetch.len() > 0);
        assert(q.prefetch.drop_first() =~= life.spare.skip(life.spare_gone as int + 1));
    }
}

proof fn lemma_then(life: Life, e: Event)
    requires
        in_order(life),
        possible(life, e),
    ensures
        in_order(then_life(life, e)),
{
    let m = life.m;
    let next = then_life(life, e);
    match e {
        Event::Offered { job } => {
            if !m.queue.inflight.contains(job.key()) {
                offering_keeps_order(m.queue, job);
                if life.running.len() == 1 {
                    lemma_offered_owns(life, job, life.running[0].key());
                }
                lemma_pushed(life.urgent, life.urgent_gone, job);
            }
        },
        Event::Prefetched { job } => {
            lemma_with_prefetch(life, job);
        },
        Event::Switched { on } => {},
        Event::Shown { now } => {},
        Event::Asked { idle, now } => {
            if reaches(m, idle, now) {
                lemma_taking_keeps_order(m.queue);
                lemma_taken(life);
                if starts(m, idle, now) {
                    assert(next.running[0] == m.queue.waiting()[0]);
                }
            }
        },
        Event::Ended { outcome, follow_ups, now } => {
            let job = life.running[0];
            let settled = Life {
                m: m.settled(job.speculative(), log_line_of(job), outcome, now),
                ..life
            };
            assert(in_order(settled));
            lemma_with_prefetches(settled, follow_ups, follow_ups.len() as int);
            let offered = with_prefetches(settled, follow_ups, follow_ups.len() as int);
            lemma_freeing_keeps_order(offered.m.queue, job.key());
        },
    }
}

/// Whatever happens, the state stays in order: at most one job runs, and each
/// lane holds what came and has not gone, in the order it came.
pub proof fn life_stays_in_order(m: SubstrateModel, events: Seq<Event>)
    requires
        fresh(m),
        all_possible(m, events),
    ensures
        in_order(lived(m, events)),
    decreases events.len(),
{
    if events.len() == 0 {
        assert(m.queue.revalidation =~= Seq::<Job>::empty().skip(0)) by {
            assert(m.queue.waiting().len() == m.queue.revalidation.len() + m.queue.prefetch.len());
        }
        assert(m.queue.prefetch =~= Seq::<Job>::empty().skip(0)) by {
            assert(m.queue.waiting().len() == m.queue.revalidation.len() + m.queue.prefetch.len());
        }
    } else {
        life_stays_in_order(m, events.drop_last());
        lemma_then(lived(m, events.drop_last()), events.last());
    }
}

/// A job starts only when no other runs, the reader's own traffic is quiet, the
/// breaker is closed and, for a prefetch, the budget has headroom. It is the
/// oldest revalidation that has not started, where there is one, and else the
/// oldest prefetch that has neither started nor been dropped, whenever they
/// came.
pub proof fn a_job_starts_only_when_it_may(
    m: SubstrateModel,
    events: Seq<Event>,
    idle: bool,
    now: u64,
)
    requires
        fresh(m),
        all_possible(m, events),
        starts(lived(m, events).m, idle, now),
    ensures
        ({
            let life = lived(m, events);
            let job = then_life(life, Event::Asked { idle, now }).running[0];
            &&& life.running.len() == 0
            &&& then_life(life, Event::Asked { idle, now }).running == seq![job]
            &&& idle
            &&& !life.m.breaker.open_at(now)
            &&& job.speculative() ==> life.m.budget.has_headroom(now)
            &&& if life.urgent_gone < life.urgent.len() {
                job == life.urgent[life.urgent_gone as int] && !job.speculative()
            } else {
                life.spare_gone < life.spare.len() && job == life.spare[life.spare_gone as int]
                    && job.speculative()
            }
        }),
{
    life_stays_in_order(m, events);
    let life = lived(m, events);
    let q = life.m.queue;
    assert(life.running =~= Seq::empty());
    assert(then_life(life, Event::Asked { idle, now }).running =~= seq![q.waiting()[0]]);
    if q.revalidation.len() > 0 {
        assert(q.waiting()[0] == q.revalidation[0]);
    } else {
        assert(q.waiting()[0] == q.prefetch[0]);
    }
}

/// Nothing starts while a job runs, while the reader's own traffic goes on, or
/// while the breaker is open; what waits goes on waiting.
pub proof fn nothing_starts_when_it_may_not(
    m: SubstrateModel,
    events: Seq<Event>,
    idle: bool,
    now: u64,
)
    requires
        fresh(m),
        all_possible(m, events),
        lived(m, events).running.len() > 0 || !idle || lived(m, events).m.breaker.open_at(now),
    ensures
        then_life(lived(m, events), Event::Asked { idle, now }) == lived(m, events),
{
    life_stays_in_order(m, events);
}

/// The state of a life goes where the calls take it: ending a job leaves the
/// state finished with it.
pub proof fn ending_a_job_finishes_it(
    life: Life,
    outcome: Outcome,
    follow_ups: Seq<Job>,
    now: u64,
)
    requires
        in_order(life),
        life.running.len() == 1,
    ensures
        ({
            let job = life.running[0];
            then_life(life, Event::Ended { outcome, follow_ups, now }).m == life.m.finished(
                job.key(),
                job.speculative(),
                log_line_of(job),
                outcome,
                follow_ups,
                now,
            )
        }),
{
    let job = life.running[0];
    let settled = Life {
        m: life.m.settled(job.speculative(), log_line_of(job), outcome, now),
        ..life
    };
    lemma_with_prefetches(settled, follow_ups, follow_ups.len() as int);
}

} // verus!
