//! The worker's decisions: which job runs next, and what its outcome changes.
use vstd::prelude::*;

use crate::netqueue::jobs::bounded_log;
use crate::netqueue::jobs::job_keys;
use crate::netqueue::jobs::lemma_without;
use crate::netqueue::jobs::offering_keeps_order;
use crate::netqueue::jobs::requeue_undoes_pop;
use crate::netqueue::jobs::updated_log;
use crate::netqueue::jobs::Job;
use crate::netqueue::jobs::LogEntry;
use crate::netqueue::jobs::LogLine;
use crate::netqueue::jobs::LogStatus;
use crate::netqueue::jobs::PrefetchLog;
use crate::netqueue::jobs::Queue;
use crate::netqueue::jobs::QueueModel;
use crate::netqueue::limits::mixed;
use crate::netqueue::limits::raised_ceiling;
use crate::netqueue::limits::some_millis;
use crate::netqueue::limits::wrap_sum;
use crate::netqueue::limits::Backoff;
use crate::netqueue::limits::BreakerModel;
use crate::netqueue::limits::Budget;
use crate::netqueue::limits::BudgetModel;
use crate::netqueue::limits::BudgetSnapshot;
use crate::netqueue::limits::CircuitBreaker;
use crate::netqueue::limits::Delay;
use crate::netqueue::limits::Metered;
use crate::netqueue::limits::SubstrateConfig;
use crate::netqueue::limits::JITTER_STEP;
use crate::text::views;

verus! {

/// How a job ended.
#[derive(Debug, Clone, PartialEq, Eq)]
pub enum Outcome {
    /// Done, with this many bytes fetched.
    Done { bytes: u64 },
    /// Nothing had to be fetched.
    Skipped { note: String },
    /// The network or the response failed.
    Failed,
    /// The server asked to slow down.
    RateLimited { retry_after_ms: Option<u64> },
    /// The server failed.
    ServerError,
}

impl Default for Outcome {
    fn default() -> (r: Self)
        ensures
            r is Failed,
    {
        Outcome::Failed
    }
}

/// How a job ended, and the jobs it leads to.
#[derive(Debug)]
pub struct ExecResult {
    pub outcome: Outcome,
    pub follow_ups: Vec<Job>,
}

/// What is left of a job while it runs.
#[derive(Debug)]
pub struct Ticket {
    /// The reserved key.
    pub key: String,
    pub is_prefetch: bool,
    /// The log line of a prefetched article.
    pub log_id: Option<u64>,
}

/// What the worker does next.
#[derive(Debug)]
pub enum Next {
    /// A job runs; it ends before another one starts.
    Busy,
    /// Nothing waits.
    Wait,
    /// The reader's own traffic goes first; the job is back in its place.
    Yield,
    /// The breaker is open; the job is back in its place.
    Sleep { secs: u64 },
    /// The budget is used up; the job is gone.
    Dropped,
    /// A job to run.
    Run { job: Job, ticket: Ticket },
}

/// How long the worker pauses after a job.
#[derive(Debug, Clone, Copy, PartialEq, Eq, Structural)]
pub enum Pause {
    Nothing,
    Millis(u128),
    Backoff(Delay),
}

/// All state of background traffic.
pub struct Substrate {
    queue: Queue,
    budget: Budget,
    breaker: CircuitBreaker,
    log: PrefetchLog,
    enabled: bool,
    config: SubstrateConfig,
    backoff: Backoff,
    fail_attempt: u32,
    /// A job was handed out and has not ended.
    busy: bool,
}

/// All state of background traffic, as models.
#[verifier::ext_equal]
pub struct SubstrateModel {
    pub queue: QueueModel,
    pub budget: BudgetModel,
    pub breaker: BreakerModel,
    pub log: Seq<LogLine>,
    pub next_id: u64,
    pub enabled: bool,
    pub config: SubstrateConfig,
    pub attempt: u32,
    /// The ceiling of the first delay after a failure, in milliseconds.
    pub backoff_base: nat,
    /// The most the ceiling of a delay can be, in milliseconds.
    pub backoff_max: nat,
    pub jitter: u64,
    /// A job was handed out and has not ended.
    pub busy: bool,
}

/// A prefetch with its log line's id; any other job as it is.
pub open spec fn logged(job: Job, id: u64) -> Job {
    match job {
        Job::PrefetchArticle { lang, title, reason, log_id } => Job::PrefetchArticle {
            lang,
            title,
            reason,
            log_id: id,
        },
        _ => job,
    }
}

/// The log line of a job.
pub open spec fn log_line_of(job: Job) -> Option<u64> {
    match job {
        Job::PrefetchArticle { log_id, .. } => Some(log_id),
        _ => None,
    }
}

/// A log with the line of a job updated, where it has one.
pub open spec fn marked(log: Seq<LogLine>, id: Option<u64>, status: LogStatus, bytes: u64) -> Seq<
    LogLine,
> {
    match id {
        Some(i) => updated_log(log, i, status, bytes),
        None => log,
    }
}

impl SubstrateModel {
    /// The queue is in order and the log within its capacity.
    pub open spec fn wf(self) -> bool {
        self.queue.wf() && self.log.len() <= crate::netqueue::jobs::LOG_CAPACITY
    }

    /// Whether a prefetch is taken on: it is enabled, and the work is not
    /// reserved.
    pub open spec fn takes(self, job: Job) -> bool {
        self.enabled && !self.queue.inflight.contains(job.key())
    }

    /// The state once a prefetch was offered: an article that is taken on
    /// gets its log line.
    pub open spec fn prefetching(self, job: Job) -> SubstrateModel {
        if !self.takes(job) {
            self
        } else {
            let line = match job {
                Job::PrefetchArticle { title, reason, .. } => Some(
                    LogLine {
                        id: self.next_id,
                        title: title@,
                        reason: reason@,
                        status: LogStatus::Queued,
                        bytes: 0,
                    },
                ),
                _ => None,
            };
            SubstrateModel {
                queue: self.queue.reserving(job.key()).with_last(logged(job, self.next_id)),
                log: match line {
                    Some(l) => bounded_log(self.log.push(l)),
                    None => self.log,
                },
                next_id: match line {
                    Some(l) => wrap_sum(self.next_id, 1),
                    None => self.next_id,
                },
                ..self
            }
        }
    }

    /// The state once the first `n` of `jobs` were offered.
    pub open spec fn prefetching_all(self, jobs: Seq<Job>, n: int) -> SubstrateModel
        decreases n,
    {
        if n <= 0 {
            self
        } else {
            self.prefetching_all(jobs, n - 1).prefetching(jobs[n - 1])
        }
    }

    /// The budget once a job was held against it.
    pub open spec fn budget_checked(self, job: Job, now: u64) -> BudgetModel {
        if job.speculative() && self.budget.metered != Metered::Always {
            self.budget.pruned(now)
        } else {
            self.budget
        }
    }

    /// The state once the next job was taken to run.
    pub open spec fn running(self, now: u64) -> SubstrateModel {
        SubstrateModel {
            queue: self.queue.without_next(),
            budget: self.budget_checked(self.queue.waiting()[0], now),
            busy: true,
            ..self
        }
    }

    /// The state once the next job was dropped for want of budget.
    pub open spec fn dropping(self, now: u64) -> SubstrateModel {
        let job = self.queue.waiting()[0];
        SubstrateModel {
            queue: self.queue.without_next().freeing(job.key()),
            budget: self.budget_checked(job, now),
            log: marked(self.log, log_line_of(job), LogStatus::SkippedBudget, 0),
            ..self
        }
    }

    /// The budget once a job ended: an attempted prefetch counts as a request
    /// and with its bytes, nothing else counts.
    pub open spec fn budget_after(self, is_prefetch: bool, outcome: Outcome, now: u64) -> BudgetModel {
        if !is_prefetch || outcome is Skipped {
            self.budget
        } else {
            let counted = BudgetModel { reqs: self.budget.reqs.push(now), ..self.budget };
            match outcome {
                Outcome::Done { bytes } => if bytes > 0 {
                    BudgetModel { bytes: counted.bytes.push((now, bytes)), ..counted }
                } else {
                    counted
                },
                _ => counted,
            }
        }
    }

    /// The breaker once a job ended.
    pub open spec fn breaker_after(self, outcome: Outcome, now: u64) -> BreakerModel {
        match outcome {
            Outcome::Done { .. } => self.breaker.after_success(),
            Outcome::Skipped { .. } => self.breaker,
            Outcome::Failed => self.breaker.after_soft_failure(),
            Outcome::RateLimited { .. } => self.breaker.after_failure(now),
            Outcome::ServerError => self.breaker.after_failure(now),
        }
    }

    /// Whether a delay is drawn after a job.
    pub open spec fn backs_off(outcome: Outcome) -> bool {
        outcome is Failed || outcome is ServerError
    }

    /// The number of failures in a row once a job ended.
    pub open spec fn attempt_after(self, outcome: Outcome) -> u32 {
        match outcome {
            Outcome::Done { .. } => 0,
            Outcome::Failed | Outcome::ServerError => if self.attempt < u32::MAX {
                (self.attempt + 1) as u32
            } else {
                u32::MAX
            },
            _ => self.attempt,
        }
    }

    /// The log once a job ended.
    pub open spec fn log_after(self, log_id: Option<u64>, outcome: Outcome) -> Seq<LogLine> {
        match outcome {
            Outcome::Done { bytes } => marked(self.log, log_id, LogStatus::Done, bytes),
            Outcome::Skipped { .. } => marked(self.log, log_id, LogStatus::Done, 0),
            Outcome::RateLimited { .. } => marked(self.log, log_id, LogStatus::RateLimited, 0),
            _ => marked(self.log, log_id, LogStatus::Failed, 0),
        }
    }

    /// The state once a job ended, before what it leads to.
    pub open spec fn settled(
        self,
        is_prefetch: bool,
        log_id: Option<u64>,
        outcome: Outcome,
        now: u64,
    ) -> SubstrateModel {
        SubstrateModel {
            budget: self.budget_after(is_prefetch, outcome, now),
            breaker: self.breaker_after(outcome, now),
            log: self.log_after(log_id, outcome),
            attempt: self.attempt_after(outcome),
            jitter: if SubstrateModel::backs_off(outcome) {
                wrap_sum(self.jitter, JITTER_STEP)
            } else {
                self.jitter
            },
            ..self
        }
    }

    /// The state once a job ended: its outcome is taken in, the jobs it leads
    /// to are offered, and its key is free.
    pub open spec fn finished(
        self,
        key: Seq<char>,
        is_prefetch: bool,
        log_id: Option<u64>,
        outcome: Outcome,
        follow_ups: Seq<Job>,
        now: u64,
    ) -> SubstrateModel {
        let offered = self.settled(is_prefetch, log_id, outcome, now).prefetching_all(
            follow_ups,
            follow_ups.len() as int,
        );
        SubstrateModel { queue: offered.queue.freeing(key), busy: false, ..offered }
    }

    /// How long the worker pauses after a job: as long as the server asked,
    /// but no less than the default; or a drawn delay; or not at all.
    pub open spec fn pause_after(self, outcome: Outcome, pause: Pause) -> bool {
        match outcome {
            Outcome::RateLimited { retry_after_ms } => {
                let floor = self.config.retry_after_default_secs * 1000;
                let asked = match retry_after_ms {
                    Some(ms) => ms as int,
                    None => floor,
                };
                pause matches Pause::Millis(ms) && ms == if asked < floor {
                    floor
                } else {
                    asked
                }
            },
            Outcome::Failed | Outcome::ServerError => pause matches Pause::Backoff(d)
                && d.ceiling_ms as nat == raised_ceiling(
                self.backoff_base,
                self.backoff_max,
                self.attempt,
            ) && d.numerator == mixed(wrap_sum(self.jitter, JITTER_STEP)) >> 11,
            _ => pause == Pause::Nothing,
        }
    }
}

impl View for Substrate {
    type V = SubstrateModel;

    closed spec fn view(&self) -> SubstrateModel {
        SubstrateModel {
            queue: self.queue@,
            budget: self.budget@,
            breaker: self.breaker@,
            log: self.log.lines(),
            next_id: self.log.next(),
            enabled: self.enabled,
            config: self.config,
            attempt: self.fail_attempt,
            backoff_base: self.backoff.base(),
            backoff_max: self.backoff.max(),
            jitter: self.backoff.state(),
            busy: self.busy,
        }
    }
}

impl Substrate {
    /// Nothing queued, nothing used, prefetching enabled.
    pub fn new(config: SubstrateConfig) -> (r: Self)
        ensures
            r@.wf(),
            r@.queue.waiting().len() == 0,
            r@.queue.inflight.len() == 0,
            r@.budget == (BudgetModel {
                byte_cap: config.daily_byte_budget,
                req_cap: config.hourly_request_budget,
                metered: config.metered,
                reqs: Seq::empty(),
                bytes: Seq::empty(),
            }),
            r@.breaker == (BreakerModel {
                threshold: if config.breaker_threshold < 1 {
                    1
                } else {
                    config.breaker_threshold
                },
                cooldown: config.breaker_cooldown_secs,
                consecutive: 0,
                opened_at: None,
            }),
            r@.log.len() == 0,
            r@.next_id == 0,
            r@.enabled,
            r@.config == config,
            r@.attempt == 0,
            r@.backoff_base == some_millis(config.backoff_base_ms),
            r@.backoff_max == some_millis(config.backoff_max_ms),
            r@.jitter == config.jitter_seed,
            !r@.busy,
    {
        Substrate {
            queue: Queue::new(),
            budget: Budget::new(
                config.daily_byte_budget,
                config.hourly_request_budget,
                config.metered,
            ),
            breaker: CircuitBreaker::new(config.breaker_threshold, config.breaker_cooldown_secs),
            log: PrefetchLog::new(),
            enabled: true,
            config,
            backoff: Backoff::new(
                config.backoff_base_ms,
                config.backoff_max_ms,
                config.jitter_seed,
            ),
            fail_attempt: 0,
            busy: false,
        }
    }

    /// Turns prefetching on or off; what is queued stays.
    pub fn set_enabled(&mut self, on: bool)
        ensures
            final(self)@ == (SubstrateModel { enabled: on, ..old(self)@ }),
    {
        self.enabled = on;
    }

    /// Whether prefetching is on.
    pub fn is_enabled(&self) -> (r: bool)
        ensures
            r == self@.enabled,
    {
        self.enabled
    }

    /// How many links are fetched ahead.
    pub fn top_n(&self) -> (r: usize)
        ensures
            r == self@.config.top_n,
    {
        self.config.top_n
    }

    /// Offers a check of a cached article. The kill switch does not stop it.
    pub fn enqueue_revalidation(
        &mut self,
        tab_id: u64,
        lang: String,
        title: String,
        cached_revid: u64,
    ) -> (r: bool)
        requires
            old(self)@.wf(),
        ensures
            ({
                let job = Job::Revalidate { tab_id, lang, title, cached_revid };
                &&& r == !old(self)@.queue.inflight.contains(job.key())
                &&& final(self)@ == SubstrateModel {
                    queue: old(self)@.queue.offered(job),
                    ..old(self)@
                }
            }),
            final(self)@.wf(),
    {
        let job = Job::Revalidate { tab_id, lang, title, cached_revid };
        proof { offering_keeps_order(self.queue@, job); }
        self.queue.enqueue(job)
    }

    /// Offers the load of a background tab. The kill switch does not stop it.
    pub fn enqueue_load_tab(&mut self, tab_id: u64, wiki: String, lang: String, title: String) -> (r:
        bool)
        requires
            old(self)@.wf(),
        ensures
            ({
                let job = Job::LoadTab { tab_id, wiki, lang, title };
                &&& r == !old(self)@.queue.inflight.contains(job.key())
                &&& final(self)@ == SubstrateModel {
                    queue: old(self)@.queue.offered(job),
                    ..old(self)@
                }
            }),
            final(self)@.wf(),
    {
        let job = Job::LoadTab { tab_id, wiki, lang, title };
        proof { offering_keeps_order(self.queue@, job); }
        self.queue.enqueue(job)
    }

    /// Offers a prefetch. It is turned away while prefetching is off, and when
    /// its work is reserved already; then nothing is logged either.
    pub fn enqueue_prefetch(&mut self, job: Job) -> (r: bool)
        requires
            old(self)@.wf(),
        ensures
            r == old(self)@.takes(job),
            final(self)@ == old(self)@.prefetching(job),
            final(self)@.wf(),
    {
        if !self.enabled {
            return false;
        }
        let key = job.dedup_key();
        if !self.queue.reserve(key) {
            return false;
        }
        let ghost id = self.log.next();
        let job2 = match job {
            Job::PrefetchArticle { lang, title, reason, log_id } => {
                let line: u64 = self.log.push_queued(title.clone(), reason.clone());
                Job::PrefetchArticle { lang, title, reason, log_id: line }
            },
            other => other,
        };
        proof {
            assert(job2 == logged(job, id));
            assert(job2.key() == job.key());
            offering_keeps_order(old(self).queue@, job2);
        }
        self.queue.push_reserved(job2);
        true
    }

    /// Offers one article to prefetch.
    pub fn enqueue_prefetch_article(&mut self, lang: String, title: String, reason: String) -> (r:
        bool)
        requires
            old(self)@.wf(),
        ensures
            ({
                let job = Job::PrefetchArticle { lang, title, reason, log_id: 0 };
                &&& r == old(self)@.takes(job)
                &&& final(self)@ == old(self)@.prefetching(job)
            }),
            final(self)@.wf(),
    {
        self.enqueue_prefetch(Job::PrefetchArticle { lang, title, reason, log_id: 0 })
    }

    /// How many jobs wait, as far as a `usize` counts.
    pub fn pending(&self) -> (r: usize)
        ensures
            r as nat == self@.queue.waiting().len() || (r == usize::MAX
                && self@.queue.waiting().len() >= usize::MAX),
    {
        self.queue.pending()
    }

    /// Whether any work is reserved.
    pub fn any_inflight(&self) -> (r: bool)
        ensures
            r == (self@.queue.inflight.len() > 0),
    {
        self.queue.any_inflight()
    }

    /// The log, newest line first.
    pub fn log_recent(&self) -> (r: Vec<LogEntry>)
        ensures
            views(r@) == self@.log.reverse(),
    {
        self.log.recent()
    }

    /// The state of the budget now.
    pub fn budget_snapshot(&mut self, now: u64) -> (r: BudgetSnapshot)
        ensures
            final(self)@ == (SubstrateModel { budget: old(self)@.budget.pruned(now), ..old(self)@ }),
            r == old(self)@.budget.shown(now),
    {
        self.budget.snapshot(now)
    }

    /// Decides what the worker does next. `idle` says whether the reader's own
    /// traffic is quiet.
    pub fn next(&mut self, idle: bool, now: u64) -> (r: Next)
        requires
            old(self)@.wf(),
        ensures
            final(self)@.wf(),
            ({
                let m = old(self)@;
                if m.busy {
                    r is Busy && final(self)@ == m
                } else if m.queue.waiting().len() == 0 {
                    r is Wait && final(self)@ == m
                } else if !idle {
                    r is Yield && final(self)@ == m
                } else if m.breaker.open_at(now) {
                    r matches Next::Sleep { secs } && secs as nat == m.breaker.wait(now)
                        && final(self)@ == m
                } else {
                    let job = m.queue.waiting()[0];
                    if job.speculative() && !m.budget.has_headroom(now) {
                        r is Dropped && final(self)@ == m.dropping(now)
                    } else {
                        &&& r matches Next::Run { job: taken, ticket }
                        &&& taken == job
                        &&& ticket.key@ == job.key()
                        &&& ticket.is_prefetch == job.speculative()
                        &&& ticket.log_id == log_line_of(job)
                        &&& final(self)@ == m.running(now)
                    }
                }
            }),
    {
        let ghost m = self@;
        if self.busy {
            return Next::Busy;
        }
        match self.queue.pop() {
            None => Next::Wait,
            Some(job) => {
                proof { requeue_undoes_pop(m.queue); }
                if !idle {
                    self.queue.requeue_front(job);
                    return Next::Yield;
                }
                if self.breaker.is_open(now) {
                    let wait: u64 = self.breaker.remaining_cooldown(now);
                    self.queue.requeue_front(job);
                    proof { crate::netqueue::limits::open_breaker_has_a_wait(m.breaker, now); }
                    return Next::Sleep {
                        secs: if wait < 1 {
                            1
                        } else {
                            wait
                        },
                    };
                }
                let key = job.dedup_key();
                let is_prefetch = job.is_prefetch();
                let log_id = match &job {
                    Job::PrefetchArticle { log_id, .. } => Some(*log_id),
                    _ => None,
                };
                proof {
                    lemma_taking_keeps_order(m.queue);
                }
                if is_prefetch && !self.budget.allows(now) {
                    if let Some(id) = log_id {
                        self.log.update(id, LogStatus::SkippedBudget, 0);
                    }
                    self.queue.complete(key.as_str());
                    return Next::Dropped;
                }
                self.busy = true;
                Next::Run { job, ticket: Ticket { key, is_prefetch, log_id } }
            },
        }
    }

    /// Takes in how a job ended, offers the jobs it leads to, and frees its
    /// key.
    pub fn finish(&mut self, ticket: Ticket, result: ExecResult, now: u64) -> (r: Pause)
        requires
            old(self)@.wf(),
            owns(old(self)@.queue, ticket.key@),
        ensures
            final(self)@ == old(self)@.finished(
                ticket.key@,
                ticket.is_prefetch,
                ticket.log_id,
                result.outcome,
                result.follow_ups@,
                now,
            ),
            old(self)@.pause_after(result.outcome, r),
            final(self)@.wf(),
    {
        let ghost m = self@;
        let attempted = match &result.outcome {
            Outcome::Skipped { .. } => false,
            _ => true,
        };
        if ticket.is_prefetch && attempted {
            self.budget.record_request(now);
        }
        let mut pause = Pause::Nothing;
        match &result.outcome {
            Outcome::Done { bytes } => {
                if ticket.is_prefetch {
                    self.budget.record_bytes(now, *bytes);
                }
                self.breaker.on_success();
                self.fail_attempt = 0;
                self.mark(ticket.log_id, LogStatus::Done, *bytes);
            },
            Outcome::Skipped { .. } => {
                self.mark(ticket.log_id, LogStatus::Done, 0);
            },
            Outcome::RateLimited { retry_after_ms } => {
                self.breaker.on_failure(now);
                let floor: u128 = (self.config.retry_after_default_secs as u128) * 1000;
                let asked: u128 = match retry_after_ms {
                    Some(ms) => *ms as u128,
                    None => floor,
                };
                pause = Pause::Millis(
                    if asked < floor {
                        floor
                    } else {
                        asked
                    },
                );
                self.mark(ticket.log_id, LogStatus::RateLimited, 0);
            },
            Outcome::ServerError => {
                self.breaker.on_failure(now);
                pause = Pause::Backoff(self.backoff.delay(self.fail_attempt));
                self.fail_attempt = self.fail_attempt.saturating_add(1);
                self.mark(ticket.log_id, LogStatus::Failed, 0);
            },
            Outcome::Failed => {
                self.breaker.on_soft_failure();
                pause = Pause::Backoff(self.backoff.delay(self.fail_attempt));
                self.fail_attempt = self.fail_attempt.saturating_add(1);
                self.mark(ticket.log_id, LogStatus::Failed, 0);
            },
        }
        let ghost settled = m.settled(ticket.is_prefetch, ticket.log_id, result.outcome, now);
        proof { assert(self@ =~= settled); }
        self.follow(result.follow_ups, Ghost(ticket.key@));
        let ghost offered = self@;
        self.queue.complete(ticket.key.as_str());
        self.busy = false;
        proof { lemma_freeing_keeps_order(offered.queue, ticket.key@); }
        pause
    }

    fn mark(&mut self, log_id: Option<u64>, status: LogStatus, bytes: u64)
        requires
            old(self)@.log.len() <= crate::netqueue::jobs::LOG_CAPACITY,
        ensures
            final(self)@ == (SubstrateModel {
                log: marked(old(self)@.log, log_id, status, bytes),
                ..old(self)@
            }),
            final(self)@.log.len() == old(self)@.log.len(),
    {
        if let Some(id) = log_id {
            self.log.update(id, status, bytes);
        }
    }

    fn follow(&mut self, jobs: Vec<Job>, Ghost(key): Ghost<Seq<char>>)
        requires
            old(self)@.wf(),
            owns(old(self)@.queue, key),
        ensures
            final(self)@ == old(self)@.prefetching_all(jobs@, jobs@.len() as int),
            final(self)@.wf(),
            owns(final(self)@.queue, key),
    {
        let n: usize = jobs.len();
        let ghost start = self@;
        let ghost all = jobs@;
        let mut rest = jobs;
        let mut i: usize = 0;
        while i < n
            invariant
                n == all.len(),
                i <= n,
                rest@ == all.skip(i as int),
                self@.wf(),
                owns(self@.queue, key),
                self@ == start.prefetching_all(all, i as int),
            decreases n - i,
        {
            let ghost before = self@;
            let job = rest.remove(0);
            proof {
                assert(job == all[i as int]);
                assert(rest@ =~= all.skip(i + 1));
                lemma_prefetching_owns(before, job, key);
            }
            let _ = self.enqueue_prefetch(job);
            i = i + 1;
        }
    }
}

/// A key that is reserved while no waiting job has it: its job runs.
pub open spec fn owns(q: QueueModel, key: Seq<char>) -> bool {
    q.inflight.contains(key) && !job_keys(q.waiting()).contains(key)
}

/// Taking the next job keeps the queue in order, and so does freeing its key.
pub proof fn lemma_taking_keeps_order(q: QueueModel)
    requires
        q.wf(),
        q.waiting().len() > 0,
    ensures
        q.without_next().wf(),
        owns(q.without_next(), q.waiting()[0].key()),
        q.without_next().freeing(q.waiting()[0].key()).wf(),
{
    let job = q.waiting()[0];
    let n = q.without_next();
    assert(n.waiting() =~= q.waiting().drop_first());
    assert forall|i: int| 0 <= i < n.waiting().len() implies n.inflight.contains(
        (#[trigger] n.waiting()[i]).key(),
    ) by {
        assert(n.waiting()[i] == q.waiting()[i + 1]);
    }
    let keys = job_keys(q.waiting());
    assert(job_keys(n.waiting()) =~= keys.drop_first());
    assert forall|a: int, b: int|
        0 <= a < b < job_keys(n.waiting()).len() implies job_keys(n.waiting())[a] != job_keys(
        n.waiting(),
    )[b] by {
        assert(keys[a + 1] != keys[b + 1]);
    }
    assert(q.inflight.contains(job.key()));
    assert(!job_keys(n.waiting()).contains(job.key())) by {
        if job_keys(n.waiting()).contains(job.key()) {
            let a = choose|a: int|
                0 <= a < job_keys(n.waiting()).len() && job_keys(n.waiting())[a] == job.key();
            assert(keys[a + 1] == keys[0]);
        }
    }
    lemma_freeing_keeps_order(n, job.key());
}

/// Freeing the key of a job that no longer waits keeps the queue in order.
pub proof fn lemma_freeing_keeps_order(q: QueueModel, key: Seq<char>)
    requires
        q.wf(),
        !job_keys(q.waiting()).contains(key),
    ensures
        q.freeing(key).wf(),
{
    let n = q.freeing(key);
    lemma_without(q.inflight, key);
    assert(n.waiting() == q.waiting());
    assert forall|i: int| 0 <= i < n.waiting().len() implies n.inflight.contains(
        (#[trigger] n.waiting()[i]).key(),
    ) by {
        assert(q.inflight.contains(q.waiting()[i].key()));
        assert(job_keys(q.waiting())[i] == q.waiting()[i].key());
        assert(job_keys(q.waiting()).contains(q.waiting()[i].key()));
    }
}

/// A job that runs keeps its key while prefetches are offered.
pub proof fn lemma_prefetching_owns(m: SubstrateModel, job: Job, key: Seq<char>)
    requires
        m.wf(),
        owns(m.queue, key),
    ensures
        owns(m.prefetching(job).queue, key),
{
    if m.takes(job) {
        let j = logged(job, m.next_id);
        let q = m.queue;
        let n = m.prefetching(job).queue;
        assert(j.key() == job.key());
        assert(job.speculative() == j.speculative());
        let w = choose|w: int| 0 <= w < q.inflight.len() && q.inflight[w] == key;
        assert(n.inflight[w] == key);
        if job_keys(n.waiting()).contains(key) {
            let a = choose|a: int|
                0 <= a < job_keys(n.waiting()).len() && job_keys(n.waiting())[a] == key;
            let at: int = if j.speculative() {
                q.waiting().len() as int
            } else {
                q.revalidation.len() as int
            };
            assert(n.waiting()[at] == j);
            if a == at {
                assert(job.key() == key);
            } else {
                let b = if a < at {
                    a
                } else {
                    a - 1
                };
                assert(n.waiting()[a] == q.waiting()[b]);
                assert(job_keys(q.waiting())[b] == key);
            }
        }
    }
}

/// A job that was taken to run is reserved until it is finished: its work is
/// turned away meanwhile, and then it can be queued again.
pub proof fn running_work_is_turned_away(m: SubstrateModel, now: u64, again: Job)
    requires
        m.wf(),
        m.queue.waiting().len() > 0,
        again.key() == m.queue.waiting()[0].key(),
    ensures
        !m.running(now).takes(again),
        m.running(now).queue.offered(again) == m.running(now).queue,
        owns(m.running(now).queue, again.key()),
        !m.running(now).queue.freeing(again.key()).inflight.contains(again.key()),
{
    lemma_taking_keeps_order(m.queue);
    lemma_without(m.running(now).queue.inflight, again.key());
}

/// The kill switch stops every prefetch and no revalidation.
pub proof fn kill_switch_stops_prefetching_alone(m: SubstrateModel, prefetch: Job, other: Job)
    requires
        !m.enabled,
        !other.speculative(),
    ensures
        m.prefetching(prefetch) == m,
        !m.queue.inflight.contains(other.key()) ==> m.queue.offered(other).revalidation
            == m.queue.revalidation.push(other),
{
}

/// Only an attempted prefetch is charged to the budget.
pub proof fn only_attempted_prefetches_are_charged(
    m: SubstrateModel,
    is_prefetch: bool,
    outcome: Outcome,
    now: u64,
)
    ensures
        m.budget_after(is_prefetch, outcome, now).reqs.len() == m.budget.reqs.len() + (
        if is_prefetch && !(outcome is Skipped) {
            1int
        } else {
            0
        }),
        !is_prefetch ==> m.budget_after(is_prefetch, outcome, now) == m.budget,
{
}

} // verus!
