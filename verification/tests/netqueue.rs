use wikitui::netqueue::{
    Backoff, Budget, CircuitBreaker, Delay, ExecResult, Jitter, Job, LogStatus, Metered, Next,
    Outcome, Pause, PrefetchLog, Queue, Substrate, SubstrateConfig, DAY_SECS,
};

fn test_config() -> SubstrateConfig {
    SubstrateConfig {
        breaker_threshold: 2,
        breaker_cooldown_secs: 60,
        retry_after_default_secs: 5,
        ..SubstrateConfig::default()
    }
}

fn article(title: &str) -> Job {
    Job::PrefetchArticle {
        lang: "en".into(),
        title: title.into(),
        reason: "r".into(),
        log_id: 0,
    }
}

/// What the worker did: the jobs it ran, in order, and when it started each,
/// in milliseconds.
struct Trace {
    calls: Vec<String>,
    times: Vec<u128>,
}

/// Lets the worker run with the reader's own traffic quiet, each job ending as
/// `outcome` says of its place, until nothing is left or `limit_ms` is over.
fn drive(sub: &mut Substrate, limit_ms: u128, outcome: impl Fn(usize) -> Outcome) -> Trace {
    let mut trace = Trace { calls: Vec::new(), times: Vec::new() };
    let mut now: u128 = 0;
    while now <= limit_ms {
        match sub.next(true, (now / 1000) as u64) {
            Next::Busy | Next::Wait | Next::Yield => return trace,
            Next::Sleep { secs } => now += secs as u128 * 1000,
            Next::Dropped => {}
            Next::Run { job, ticket } => {
                trace.calls.push(job.dedup_key());
                trace.times.push(now);
                let second = sub.next(true, (now / 1000) as u64);
                assert!(matches!(second, Next::Busy), "one job at a time");
                let result = ExecResult {
                    outcome: outcome(trace.calls.len() - 1),
                    follow_ups: Vec::new(),
                };
                match sub.finish(ticket, result, (now / 1000) as u64) {
                    Pause::Nothing => {}
                    Pause::Millis(ms) => now += ms,
                    Pause::Backoff(d) => now += millis(d) as u128,
                }
            }
        }
    }
    trace
}

/// The jittered delay.
fn millis(d: Delay) -> u64 {
    (d.numerator as f64 / (1_u64 << 53) as f64 * d.ceiling_ms as f64) as u64
}

#[test]
fn queue_serves_revalidation_before_prefetch() {
    let mut q = Queue::new();
    assert!(q.enqueue(Job::PrefetchArticle {
        lang: "en".into(),
        title: "A".into(),
        reason: "r".into(),
        log_id: 0,
    }));
    assert!(q.enqueue(Job::Revalidate {
        tab_id: 1,
        lang: "en".into(),
        title: "B".into(),
        cached_revid: 5,
    }));
    assert!(matches!(q.pop(), Some(Job::Revalidate { .. })));
    assert!(matches!(q.pop(), Some(Job::PrefetchArticle { .. })));
    assert!(q.pop().is_none());
}

#[test]
fn load_tab_jobs_are_revalidation_priority_and_dedup_scoped_per_tab() {
    let mut q = Queue::new();
    assert!(q.enqueue(Job::PrefetchArticle {
        lang: "en".into(),
        title: "A".into(),
        reason: "r".into(),
        log_id: 0,
    }));
    assert!(q.enqueue(Job::LoadTab {
        tab_id: 1,
        wiki: "wikipedia".into(),
        lang: "en".into(),
        title: "B".into(),
    }));
    assert!(matches!(q.pop(), Some(Job::LoadTab { .. })));
    assert!(matches!(q.pop(), Some(Job::PrefetchArticle { .. })));
    assert!(q.pop().is_none());

    let mut q2 = Queue::new();
    let load = |tab_id: u64| Job::LoadTab {
        tab_id,
        wiki: "wikipedia".into(),
        lang: "en".into(),
        title: "Same Article".into(),
    };
    assert!(q2.enqueue(load(1)));
    assert!(
        q2.enqueue(load(2)),
        "a different tab_id must not coalesce with tab 1's in-flight load"
    );
    assert!(!q2.enqueue(load(1)), "same-tab duplicate still coalesces");
}

#[test]
fn queue_dedups_identical_jobs_until_completed() {
    let mut q = Queue::new();
    let job = || Job::PrefetchArticle {
        lang: "en".into(),
        title: "Alan Turing".into(),
        reason: "r".into(),
        log_id: 0,
    };
    assert!(q.enqueue(job()));
    assert!(!q.enqueue(job()), "duplicate coalesces");
    let popped = q.pop().unwrap();
    assert!(!q.enqueue(job()), "still coalesces mid-flight");
    q.complete(&popped.dedup_key());
    assert!(q.enqueue(job()), "re-queueable once completed");
}

#[test]
fn enqueue_prefetch_does_not_log_a_coalesced_duplicate() {
    let mut handle = Substrate::new(test_config());
    assert!(handle.enqueue_prefetch_article("en".into(), "Dup".into(), "r".into()));
    assert!(
        !handle.enqueue_prefetch_article("en".into(), "Dup".into(), "r2".into()),
        "duplicate coalesces"
    );
    let log = handle.log_recent();
    assert_eq!(
        log.len(),
        1,
        "the coalesced duplicate must not leave a second, never-resolving Queued row"
    );
}

#[test]
fn budget_enforces_request_and_byte_windows_and_rolls_off() {
    let mut b = Budget::new(1000, 2, Metered::Reduced);
    assert!(b.allows(0));
    b.record_request(0);
    assert!(b.allows(0));
    b.record_request(0);
    assert!(!b.allows(0), "hourly request cap reached");
    assert!(b.allows(3600));

    let mut b = Budget::new(100, 100, Metered::Reduced);
    assert!(b.allows(0));
    b.record_bytes(0, 200);
    assert!(!b.allows(0), "daily byte cap exceeded (single overshoot)");
    assert!(b.allows(DAY_SECS), "bytes roll off after 24h");
}

#[test]
fn metered_always_suspends_prefetch() {
    let mut b = Budget::new(u64::MAX, u32::MAX, Metered::Always);
    assert!(!b.allows(0));
    let mut b = Budget::new(1, 1, Metered::Never);
    assert!(b.allows(0));
}

#[test]
fn breaker_trips_after_k_failures_and_cools_down() {
    let mut cb = CircuitBreaker::new(3, 300);
    assert!(!cb.is_open(0));
    cb.on_failure(0);
    cb.on_failure(0);
    assert!(!cb.is_open(0), "under threshold");
    cb.on_failure(0);
    assert!(cb.is_open(0), "k=3 consecutive trips it");
    assert!(cb.is_open(299), "still open within cooldown");
    assert!(!cb.is_open(300), "open past cooldown lets a probe through");
    assert_eq!(cb.remaining_cooldown(100), 200);
}

#[test]
fn breaker_success_resets_consecutive_count() {
    let mut cb = CircuitBreaker::new(3, 300);
    cb.on_failure(0);
    cb.on_failure(0);
    cb.on_success();
    cb.on_failure(0);
    cb.on_failure(0);
    assert!(
        !cb.is_open(0),
        "success reset the count so 2 more don't trip"
    );
}

#[test]
fn breaker_soft_failure_resets_the_streak_so_only_genuinely_consecutive_hard_failures_trip_it() {
    let mut cb = CircuitBreaker::new(3, 300);
    cb.on_failure(0);
    cb.on_failure(0);
    cb.on_soft_failure();
    cb.on_failure(0);
    assert!(
        !cb.is_open(0),
        "the soft failure reset the streak; only 1 consecutive 5xx since"
    );

    let mut cb2 = CircuitBreaker::new(3, 300);
    cb2.on_failure(0);
    cb2.on_failure(0);
    cb2.on_failure(0);
    assert!(
        cb2.is_open(0),
        "3 genuinely consecutive hard failures still trip it"
    );
}

#[test]
fn backoff_is_deterministic_and_bounded() {
    let mut a = Backoff::new(100, 10_000, 42);
    let mut b = Backoff::new(100, 10_000, 42);
    for attempt in 0..8_u32 {
        let da = a.delay(attempt);
        let db = b.delay(attempt);
        assert_eq!(da, db, "same seed => same sequence");
        let ceiling = 100u64.saturating_mul(1 << attempt.min(16)).min(10_000);
        assert_eq!(da.ceiling_ms, ceiling);
        assert!(
            millis(da) <= ceiling,
            "full jitter stays under the exponential ceiling"
        );
    }
    let mut c = Backoff::new(100, 10_000, 43);
    let differs = (0..8).any(|i| c.delay(i) != Backoff::new(100, 10_000, 42).delay(i));
    assert!(differs);
}

#[test]
fn worker_runs_background_strictly_serially() {
    let mut sub = Substrate::new(test_config());
    for i in 0..6 {
        sub.enqueue_prefetch_article("en".into(), format!("T{i}"), "r".into());
    }
    let trace = drive(&mut sub, 50, |_| Outcome::Done { bytes: 10 });
    assert_eq!(trace.calls.len(), 6, "all drained");
    assert_eq!(sub.pending(), 0);
    assert!(!sub.any_inflight());
}

#[test]
fn worker_serializes_load_tab_jobs_and_yields_to_foreground() {
    let mut sub = Substrate::new(test_config());
    for i in 0..4 {
        sub.enqueue_load_tab(i, "wikipedia".into(), "en".into(), format!("T{i}"));
    }
    assert!(matches!(sub.next(false, 0), Next::Yield), "blocked while foreground is active");
    assert_eq!(sub.pending(), 4);
    let trace = drive(&mut sub, 50, |_| Outcome::Done { bytes: 0 });
    assert_eq!(trace.calls.len(), 4, "all four eventually ran");
}

#[test]
fn worker_yields_to_foreground_then_resumes() {
    let mut sub = Substrate::new(test_config());
    sub.enqueue_prefetch_article("en".into(), "Gated".into(), "r".into());
    assert!(matches!(sub.next(false, 0), Next::Yield));
    let trace = drive(&mut sub, 50, |_| Outcome::Done { bytes: 1 });
    assert_eq!(trace.calls.len(), 1, "resumes once foreground clears");
}

#[test]
fn worker_runs_revalidation_before_prefetch() {
    let mut sub = Substrate::new(test_config());
    sub.enqueue_prefetch_article("en".into(), "P".into(), "r".into());
    sub.enqueue_revalidation(1, "en".into(), "R".into(), 7);
    let trace = drive(&mut sub, 50, |_| Outcome::Done { bytes: 1 });
    assert_eq!(trace.calls, vec!["rv:en:R".to_string(), "pf:en:P".to_string()]);
}

#[test]
fn worker_requeues_a_popped_job_when_a_higher_priority_one_arrives_during_the_gate_wait() {
    let mut sub = Substrate::new(test_config());
    sub.enqueue_prefetch_article("en".into(), "P".into(), "r".into());
    assert!(matches!(sub.next(false, 0), Next::Yield), "the foreground is busy");
    sub.enqueue_revalidation(1, "en".into(), "R".into(), 7);
    let trace = drive(&mut sub, 50, |_| Outcome::Done { bytes: 1 });
    assert_eq!(
        trace.calls,
        vec!["rv:en:R".to_string(), "pf:en:P".to_string()],
        "the revalidation enqueued during the wait must still run first"
    );
}

#[test]
fn worker_coalesces_duplicate_prefetches() {
    let mut sub = Substrate::new(test_config());
    assert!(sub.enqueue_prefetch_article("en".into(), "Dup".into(), "r".into()));
    assert!(!sub.enqueue_prefetch_article("en".into(), "Dup".into(), "r2".into()));
    let trace = drive(&mut sub, 50, |_| Outcome::Done { bytes: 1 });
    assert_eq!(trace.calls.len(), 1, "single-flight");
}

#[test]
fn kill_switch_blocks_prefetch_but_not_revalidation() {
    let mut sub = Substrate::new(test_config());
    sub.set_enabled(false);
    assert!(!sub.is_enabled());
    assert!(!sub.enqueue_prefetch_article("en".into(), "Nope".into(), "r".into()));
    assert!(sub.enqueue_revalidation(1, "en".into(), "Yes".into(), 3));
    let trace = drive(&mut sub, 50, |_| Outcome::Done { bytes: 1 });
    assert_eq!(trace.calls, vec!["rv:en:Yes".to_string()], "only revalidation ran");
}

#[test]
fn budget_exhaustion_skips_prefetch_and_logs_it() {
    let cfg = SubstrateConfig { hourly_request_budget: 1, ..test_config() };
    let mut sub = Substrate::new(cfg);
    sub.enqueue_prefetch_article("en".into(), "First".into(), "r".into());
    sub.enqueue_prefetch_article("en".into(), "Second".into(), "r".into());
    let trace = drive(&mut sub, 50, |_| Outcome::Done { bytes: 10 });
    assert_eq!(trace.calls.len(), 1, "second blocked by request budget");
    let log = sub.log_recent();
    let skipped = log
        .iter()
        .find(|e| e.title == "Second")
        .expect("second is logged");
    assert_eq!(skipped.status, LogStatus::SkippedBudget);
    let used = sub.budget_snapshot(0);
    assert_eq!((used.requests_used, used.bytes_used, used.suspended), (1, 10, false));
}

#[test]
fn breaker_trips_and_suspends_further_background() {
    let cfg = SubstrateConfig {
        breaker_threshold: 2,
        breaker_cooldown_secs: 3600,
        ..test_config()
    };
    let mut sub = Substrate::new(cfg);
    for i in 0..5 {
        sub.enqueue_prefetch_article("en".into(), format!("S{i}"), "r".into());
    }
    let trace = drive(&mut sub, 3_000_000, |_| Outcome::ServerError);
    assert_eq!(trace.calls.len(), 2, "suspended after k failures");
}

#[test]
fn worker_breaker_is_not_tripped_by_a_soft_failure_between_hard_failures() {
    let cfg = SubstrateConfig {
        breaker_threshold: 3,
        breaker_cooldown_secs: 3600,
        ..test_config()
    };
    let mut sub = Substrate::new(cfg);
    for n in 0..5 {
        sub.enqueue_prefetch_article("en".into(), format!("S{n}"), "r".into());
    }
    let trace = drive(&mut sub, 120_000, |i| match i {
        0 | 1 => Outcome::ServerError,
        2 => Outcome::Failed,
        3 => Outcome::ServerError,
        _ => Outcome::Done { bytes: 0 },
    });
    assert_eq!(trace.calls.len(), 5, "all five must run");
}

#[test]
fn rate_limited_honors_retry_after_before_next() {
    let mut sub = Substrate::new(test_config());
    sub.enqueue_prefetch_article("en".into(), "A".into(), "r".into());
    sub.enqueue_prefetch_article("en".into(), "B".into(), "r".into());
    let trace = drive(&mut sub, 60_000, |i| {
        if i == 0 {
            Outcome::RateLimited { retry_after_ms: Some(30_000) }
        } else {
            Outcome::Done { bytes: 1 }
        }
    });
    assert_eq!(trace.times.len(), 2, "both eventually ran");
    let gap = trace.times[1] - trace.times[0];
    assert!(gap >= 30_000, "second waited out the Retry-After, gap was {gap:?}");
}

#[test]
fn the_jitter_is_splitmix() {
    let mut j = Jitter::new(0);
    assert_eq!(j.next_u64(), 0xE220_A839_7B1D_CDAF);
    assert_eq!(j.next_u64(), 0x6E78_9E6A_A1B9_65F4);
}

#[test]
fn words_for_metered_are_read_back() {
    for m in [Metered::Never, Metered::Reduced, Metered::Always] {
        assert_eq!(Metered::parse(m.label()), Some(m));
    }
    assert_eq!(Metered::parse("sometimes"), None);
}

#[test]
fn what_a_job_leads_to_is_offered_when_it_ends() {
    let mut sub = Substrate::new(test_config());
    sub.enqueue_prefetch_article("en".into(), "A".into(), "r".into());
    let Next::Run { ticket, .. } = sub.next(true, 0) else {
        panic!("a job is there");
    };
    assert!(sub.any_inflight());
    sub.enqueue_revalidation(1, "en".into(), "C".into(), 0);
    assert!(matches!(sub.next(true, 0), Next::Busy), "one job at a time");
    let result = ExecResult {
        outcome: Outcome::Skipped { note: "cached".into() },
        follow_ups: vec![article("B"), article("A")],
    };
    assert_eq!(sub.finish(ticket, result, 0), Pause::Nothing);
    assert_eq!(sub.pending(), 2, "the running key turns its own follow-up away");
    assert_eq!(sub.budget_snapshot(0).requests_used, 0, "what was skipped is not charged");
}

#[test]
fn the_log_forgets_the_oldest_entry() {
    let mut log = PrefetchLog::new();
    for i in 0..201 {
        log.push_queued(format!("T{i}"), "r".into());
    }
    let recent = log.recent();
    assert_eq!(recent.len(), 200);
    assert_eq!(recent[0].title, "T200");
    log.update(recent[0].id, LogStatus::Done, 7);
    assert_eq!(log.recent()[0].bytes, 7);
    assert_eq!(log.recent()[0].status.label(), "done");
}

#[test]
fn a_job_put_back_is_the_next_again() {
    let mut q = Queue::new();
    assert!(q.enqueue(article("A")));
    assert!(q.enqueue(article("B")));
    let first = q.pop().unwrap();
    let key = first.dedup_key();
    q.requeue_front(first);
    assert_eq!(q.pop().unwrap().dedup_key(), key);
}

#[test]
fn no_line_says_queued_once_the_worker_is_idle() {
    let mut sub = Substrate::new(SubstrateConfig { hourly_request_budget: 4, ..test_config() });
    for title in ["A", "B", "C", "D", "E", "F", "A"] {
        sub.enqueue_prefetch_article("en".into(), title.into(), "r".into());
    }
    assert_eq!(sub.log_recent().len(), 6);
    assert!(sub.log_recent().iter().all(|e| e.status == LogStatus::Queued));
    drive(&mut sub, 600_000, |n| match n {
        0 => Outcome::Skipped { note: "cached".into() },
        1 => Outcome::Failed,
        2 => Outcome::RateLimited { retry_after_ms: None },
        3 => Outcome::ServerError,
        _ => Outcome::Done { bytes: 7 },
    });
    assert_eq!(sub.pending(), 0);
    let labels: Vec<&str> = sub.log_recent().iter().map(|e| e.status.label()).collect();
    assert_eq!(
        labels,
        vec!["skipped-budget", "done", "failed", "rate-limited", "failed", "done"]
    );
}

#[test]
fn jobs_of_different_kinds_are_different_work() {
    let jobs = [
        Job::Revalidate { tab_id: 1, lang: "en".into(), title: "A".into(), cached_revid: 0 },
        Job::LoadTab { tab_id: 1, wiki: "w".into(), lang: "en".into(), title: "A".into() },
        Job::LoadTab { tab_id: 11, wiki: "w".into(), lang: "en".into(), title: "A".into() },
        article("A"),
        Job::RankLinks { lang: "en".into(), article_title: "A".into(), candidates: Vec::new() },
        Job::Featured { lang: "en".into(), date: "A".into() },
        Job::InterestMorelike { lang: "en".into(), seeds: Vec::new() },
    ];
    for (i, a) in jobs.iter().enumerate() {
        for b in &jobs[i + 1..] {
            assert_ne!(a.dedup_key(), b.dedup_key());
        }
    }
    assert_eq!(jobs[1].dedup_key(), "tl:1:en:A");
}

#[test]
fn delays_follow_the_configured_base_and_cap() {
    let cfg = SubstrateConfig {
        breaker_threshold: 100,
        backoff_base_ms: 100,
        backoff_max_ms: 250,
        ..test_config()
    };
    let mut sub = Substrate::new(cfg);
    let mut ceilings = Vec::new();
    for i in 0..4 {
        sub.enqueue_prefetch_article("en".into(), format!("T{i}"), "r".into());
        let Next::Run { ticket, .. } = sub.next(true, 0) else {
            panic!("a job is there");
        };
        let result = ExecResult { outcome: Outcome::ServerError, follow_ups: Vec::new() };
        match sub.finish(ticket, result, 0) {
            Pause::Backoff(d) => ceilings.push(d.ceiling_ms),
            other => panic!("no delay: {other:?}"),
        }
    }
    assert_eq!(ceilings, vec![100, 200, 250, 250]);
}

#[test]
fn the_oldest_revalidation_runs_before_the_oldest_prefetch() {
    let mut sub = Substrate::new(test_config());
    sub.enqueue_prefetch_article("en".into(), "P1".into(), "r".into());
    sub.enqueue_prefetch_article("en".into(), "P2".into(), "r".into());
    assert!(matches!(sub.next(false, 0), Next::Yield));
    sub.enqueue_revalidation(1, "en".into(), "R1".into(), 0);
    sub.enqueue_load_tab(2, "w".into(), "en".into(), "T1".into());
    let mut titles = Vec::new();
    while let Next::Run { job, ticket } = sub.next(true, 0) {
        assert!(matches!(sub.next(true, 0), Next::Busy));
        titles.push(match job {
            Job::Revalidate { title, .. } => title,
            Job::LoadTab { title, .. } => title,
            Job::PrefetchArticle { title, .. } => title,
            other => panic!("not offered: {other:?}"),
        });
        let result = ExecResult { outcome: Outcome::Done { bytes: 1 }, follow_ups: Vec::new() };
        sub.finish(ticket, result, 0);
    }
    assert_eq!(titles, vec!["R1", "T1", "P1", "P2"]);
}

#[test]
fn a_snapshot_tells_whether_a_prefetch_may_go() {
    for metered in [Metered::Never, Metered::Reduced, Metered::Always] {
        let mut b = Budget::new(100, 3, metered);
        for (now, bytes) in [(0, 40), (10, 0), (1800, 30), (3599, 20), (3600, 10), (90_000, 5)] {
            b.record_request(now);
            b.record_bytes(now, bytes);
            let s = b.snapshot(now);
            let free = !s.suspended
                && s.requests_used < s.requests_cap
                && s.bytes_used < s.bytes_cap;
            assert_eq!(b.allows(now), free);
        }
    }
    let mut b = Budget::new(100, 3, Metered::Reduced);
    b.record_request(0);
    b.record_bytes(0, 60);
    b.record_request(1800);
    b.record_bytes(1800, 50);
    let s = b.snapshot(3599);
    assert_eq!((s.requests_used, s.bytes_used), (2, 110));
    let s = b.snapshot(3600);
    assert_eq!((s.requests_used, s.bytes_used), (1, 110));
    assert!(!b.allows(DAY_SECS - 1), "an overshoot blocks for the day");
    assert!(b.allows(DAY_SECS), "the first bytes are a day old");
    assert_eq!(b.snapshot(DAY_SECS).bytes_used, 50);
}
