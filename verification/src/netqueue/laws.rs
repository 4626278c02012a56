//! What holds across the jobs, the queue and the log.
use vstd::prelude::*;

use crate::netqueue::jobs::line_of;
use crate::netqueue::jobs::updated_log;
use crate::netqueue::jobs::Job;
use crate::netqueue::jobs::LogLine;
use crate::netqueue::jobs::LogStatus;
use crate::netqueue::jobs::QueueModel;
use crate::netqueue::worker::log_line_of;
use crate::netqueue::worker::logged;
use crate::netqueue::worker::Outcome;
use crate::netqueue::worker::SubstrateModel;
use crate::text::decimal;
use crate::text::digit;

verus! {

proof fn lemma_decimal_digits(n: nat)
    ensures
        decimal(n).len() > 0,
        forall|i: int| 0 <= i < decimal(n).len() ==> #[trigger] decimal(n)[i] != ':',
    decreases n,
{
    if n >= 10 {
        lemma_decimal_digits(n / 10);
    }
}

proof fn lemma_decimal_tells_numbers_apart(a: nat, b: nat)
    requires
        decimal(a) == decimal(b),
    ensures
        a == b,
    decreases a,
{
    lemma_decimal_digits(a / 10);
    lemma_decimal_digits(b / 10);
    let s = decimal(a);
    let t = decimal(b);
    assert(s.last() == t.last());
    if a >= 10 && b >= 10 {
        assert(s.drop_last() =~= decimal(a / 10));
        assert(t.drop_last() =~= decimal(b / 10));
        lemma_decimal_tells_numbers_apart(a / 10, b / 10);
        assert(digit(a % 10) == digit(b % 10));
    } else if a < 10 && b >= 10 {
        assert(t.len() == decimal(b / 10).len() + 1);
    } else if a >= 10 && b < 10 {
        assert(s.len() == decimal(a / 10).len() + 1);
    }
}

proof fn lemma_same_head(x: Seq<char>, y: Seq<char>, r: Seq<char>, s: Seq<char>)
    requires
        x.push(':') + r == y.push(':') + s,
        forall|i: int| 0 <= i < x.len() ==> #[trigger] x[i] != ':',
        forall|i: int| 0 <= i < y.len() ==> #[trigger] y[i] != ':',
    ensures
        x == y,
{
    let a = x.push(':') + r;
    let b = y.push(':') + s;
    assert(a[x.len() as int] == ':');
    assert(b[y.len() as int] == ':');
    if x.len() < y.len() {
        assert(b[x.len() as int] == y[x.len() as int]);
    } else if y.len() < x.len() {
        assert(a[y.len() as int] == x[y.len() as int]);
    }
    assert forall|i: int| 0 <= i < x.len() implies x[i] == y[i] by {
        assert(a[i] == x[i]);
        assert(b[i] == y[i]);
    }
    assert(x =~= y);
}

/// The loads of two tabs are never the same work, even of one article.
pub proof fn tabs_load_for_themselves(a: Job, b: Job)
    requires
        a is LoadTab,
        b is LoadTab,
        a->LoadTab_tab_id != b->LoadTab_tab_id,
    ensures
        a.key() != b.key(),
{
    if a.key() == b.key() {
        reveal_strlit("tl:");
        let x = decimal(a->LoadTab_tab_id as nat);
        let y = decimal(b->LoadTab_tab_id as nat);
        let r = a->LoadTab_lang@.push(':') + a->LoadTab_title@;
        let s = b->LoadTab_lang@.push(':') + b->LoadTab_title@;
        assert(a.key() =~= "tl:"@ + (x.push(':') + r));
        assert(b.key() =~= "tl:"@ + (y.push(':') + s));
        assert(x.push(':') + r =~= a.key().skip(3));
        assert(y.push(':') + s =~= b.key().skip(3));
        lemma_decimal_digits(a->LoadTab_tab_id as nat);
        lemma_decimal_digits(b->LoadTab_tab_id as nat);
        lemma_same_head(x, y, r, s);
        lemma_decimal_tells_numbers_apart(a->LoadTab_tab_id as nat, b->LoadTab_tab_id as nat);
    }
}

/// The place of a job's kind among the kinds.
pub open spec fn kind_of(job: Job) -> nat {
    match job {
        Job::Revalidate { .. } => 0,
        Job::LoadTab { .. } => 1,
        Job::PrefetchArticle { .. } => 2,
        Job::RankLinks { .. } => 3,
        Job::Featured { .. } => 4,
        Job::InterestMorelike { .. } => 5,
    }
}

/// Jobs of different kinds are never the same work.
pub proof fn kinds_share_no_work(a: Job, b: Job)
    requires
        kind_of(a) != kind_of(b),
    ensures
        a.key() != b.key(),
{
    lemma_key_starts_with_kind(a);
    lemma_key_starts_with_kind(b);
}

spec fn kind_mark(kind: nat) -> (char, char) {
    if kind == 0 {
        ('r', 'v')
    } else if kind == 1 {
        ('t', 'l')
    } else if kind == 2 {
        ('p', 'f')
    } else if kind == 3 {
        ('r', 'l')
    } else if kind == 4 {
        ('f', 't')
    } else {
        ('i', 'm')
    }
}

proof fn lemma_key_starts_with_kind(job: Job)
    ensures
        (job.key()[0], job.key()[1]) == kind_mark(kind_of(job)),
{
    reveal_strlit("rv:");
    reveal_strlit("tl:");
    reveal_strlit("pf:");
    reveal_strlit("rl:");
    reveal_strlit("ft:");
    reveal_strlit("im:");
}

/// Whether a waiting job has the log line `id`.
pub open spec fn awaited(q: QueueModel, id: u64) -> bool {
    exists|k: int| 0 <= k < q.waiting().len() && log_line_of(#[trigger] q.waiting()[k]) == Some(id)
}

/// Every line of the log has its own id, and a line that says "queued" is that
/// of a job that waits, or of the one that runs.
pub open spec fn accounted(m: SubstrateModel, running: Option<u64>) -> bool {
    &&& forall|i: int, j: int| 0 <= i < j < m.log.len() ==> m.log[i].id < m.log[j].id
    &&& forall|i: int| 0 <= i < m.log.len() ==> #[trigger] m.log[i].id < m.next_id
    &&& forall|i: int|
        0 <= i < m.log.len() && (#[trigger] m.log[i]).status == LogStatus::Queued ==> running
            == Some(m.log[i].id) || awaited(m.queue, m.log[i].id)
}

pub proof fn lemma_line(lines: Seq<LogLine>, id: u64)
    ensures
        0 <= line_of(lines, id) <= lines.len(),
        line_of(lines, id) < lines.len() ==> lines[line_of(lines, id)].id == id,
        line_of(lines, id) == lines.len() ==> forall|i: int|
            0 <= i < lines.len() ==> (#[trigger] lines[i]).id != id,
    decreases lines.len(),
{
    if lines.len() > 0 && lines[0].id != id {
        let rest = lines.drop_first();
        lemma_line(rest, id);
        assert forall|i: int|
            line_of(lines, id) == lines.len() && 0 <= i < lines.len() implies (
        #[trigger] lines[i]).id != id by {
            if i > 0 {
                assert(rest[i - 1] == lines[i]);
            }
        }
    }
}

proof fn lemma_update_accounts(
    m: SubstrateModel,
    after: SubstrateModel,
    running: Option<u64>,
    id: u64,
    status: LogStatus,
    bytes: u64,
)
    requires
        accounted(m, running),
        status != LogStatus::Queued,
        after.log == updated_log(m.log, id, status, bytes),
        after.next_id == m.next_id,
        running is None || running == Some(id),
        forall|other: u64|
            other != id && awaited(m.queue, other) ==> #[trigger] awaited(after.queue, other),
    ensures
        accounted(after, None),
{
    lemma_line(m.log, id);
    let at = line_of(m.log, id);
    assert(after.log.len() == m.log.len());
    assert forall|i: int| 0 <= i < m.log.len() implies (#[trigger] after.log[i]).id == m.log[i].id
        && (i != at ==> after.log[i] == m.log[i]) && (m.log[i].id == id ==> i == at) by {
        if m.log[i].id == id && i != at {
            if i < at {
                assert(m.log[i].id < m.log[at].id);
            } else {
                assert(m.log[at].id < m.log[i].id);
            }
        }
    }
    assert forall|i: int|
        0 <= i < after.log.len() && (#[trigger] after.log[i]).status
            == LogStatus::Queued implies awaited(after.queue, after.log[i].id) by {
        assert(after.log[i].id == m.log[i].id);
        assert(i != at);
        assert(m.log[i].status == LogStatus::Queued);
        let other = m.log[i].id;
        assert(other != id && awaited(m.queue, other));
        assert(awaited(after.queue, other));
    }
    assert forall|i: int, j: int| 0 <= i < j < after.log.len() implies after.log[i].id
        < after.log[j].id by {
        assert(after.log[i].id == m.log[i].id && after.log[j].id == m.log[j].id);
    }
    assert forall|i: int| 0 <= i < after.log.len() implies #[trigger] after.log[i].id
        < after.next_id by {
        assert(after.log[i].id == m.log[i].id);
    }
}

proof fn lemma_with_last_awaited(q: QueueModel, job: Job, id: u64)
    requires
        awaited(q, id) || log_line_of(job) == Some(id),
    ensures
        awaited(q.with_last(job), id),
{
    let n = q.with_last(job);
    let at: int = if job.speculative() {
        q.waiting().len() as int
    } else {
        q.revalidation.len() as int
    };
    assert(n.waiting()[at] == job);
    if log_line_of(job) == Some(id) {
    } else {
        let k = choose|k: int|
            0 <= k < q.waiting().len() && log_line_of(#[trigger] q.waiting()[k]) == Some(id);
        if k < at {
            assert(n.waiting()[k] == q.waiting()[k]);
        } else {
            assert(n.waiting()[k + 1] == q.waiting()[k]);
        }
    }
}

proof fn lemma_without_next_awaited(q: QueueModel, id: u64)
    requires
        q.waiting().len() > 0,
        awaited(q, id),
        log_line_of(q.waiting()[0]) != Some(id),
    ensures
        awaited(q.without_next(), id),
{
    let k = choose|k: int|
        0 <= k < q.waiting().len() && log_line_of(#[trigger] q.waiting()[k]) == Some(id);
    let n = q.without_next();
    assert(n.waiting() =~= q.waiting().drop_first());
    assert(n.waiting()[k - 1] == q.waiting()[k]);
}

/// Work that is offered keeps the log accounted for: what is turned away gets
/// no line, and what is taken on waits under the line it got.
pub proof fn offered_work_is_accounted_for(m: SubstrateModel, job: Job, running: Option<u64>)
    requires
        accounted(m, running),
        m.next_id < u64::MAX,
    ensures
        !m.takes(job) ==> m.prefetching(job).log == m.log,
        accounted(m.prefetching(job), running),
        !(job is PrefetchArticle) ==> accounted(
            (SubstrateModel { queue: m.queue.offered(job), ..m }),
            running,
        ),
{
    if m.takes(job) {
        let n = m.prefetching(job);
        let j = logged(job, m.next_id);
        let q = m.queue.reserving(job.key());
        assert(q.waiting() == m.queue.waiting());
        assert forall|i: int|
            0 <= i < n.log.len() && (#[trigger] n.log[i]).status == LogStatus::Queued && running
                != Some(n.log[i].id) implies awaited(n.queue, n.log[i].id) by {
            let id = n.log[i].id;
            if id == m.next_id && job is PrefetchArticle {
                lemma_with_last_awaited(q, j, id);
            } else {
                let shift: int = if n.log.len() < m.log.len() + (if job is PrefetchArticle {
                    1int
                } else {
                    0
                }) {
                    1
                } else {
                    0
                };
                assert(n.log[i] == m.log[i + shift]);
                assert(awaited(m.queue, id));
                assert(awaited(q, id)) by {
                    let k = choose|k: int|
                        0 <= k < m.queue.waiting().len() && log_line_of(
                            #[trigger] m.queue.waiting()[k],
                        ) == Some(id);
                    assert(log_line_of(q.waiting()[k]) == Some(id));
                }
                lemma_with_last_awaited(q, j, id);
            }
        }
    }
    let o = SubstrateModel { queue: m.queue.offered(job), ..m };
    if !m.queue.inflight.contains(job.key()) {
        let q = m.queue.reserving(job.key());
        assert(q.waiting() == m.queue.waiting());
        assert forall|i: int|
            0 <= i < o.log.len() && (#[trigger] o.log[i]).status == LogStatus::Queued && running
                != Some(o.log[i].id) implies awaited(o.queue, o.log[i].id) by {
            let id = o.log[i].id;
            assert(m.log[i].id == id);
            let k = choose|k: int|
                0 <= k < m.queue.waiting().len() && log_line_of(#[trigger] m.queue.waiting()[k])
                    == Some(id);
            assert(log_line_of(q.waiting()[k]) == Some(id));
            lemma_with_last_awaited(q, job, id);
        }
    }
}

/// Taking a job to run, or dropping it for want of budget, keeps the log
/// accounted for.
pub proof fn taken_work_is_accounted_for(m: SubstrateModel, now: u64)
    requires
        accounted(m, None),
        m.queue.waiting().len() > 0,
    ensures
        accounted(m.running(now), log_line_of(m.queue.waiting()[0])),
        accounted(m.dropping(now), None),
{
    let job = m.queue.waiting()[0];
    let line = log_line_of(job);
    let n = m.running(now);
    assert forall|i: int|
        0 <= i < n.log.len() && (#[trigger] n.log[i]).status == LogStatus::Queued && line != Some(
            n.log[i].id,
        ) implies awaited(n.queue, n.log[i].id) by {
        assert(m.log[i].status == LogStatus::Queued);
        lemma_without_next_awaited(m.queue, m.log[i].id);
    }
    let d = m.dropping(now);
    assert(d.queue.waiting() == n.queue.waiting());
    assert forall|other: u64|
        line != Some(other) && #[trigger] awaited(m.queue, other) implies awaited(d.queue, other) by {
        lemma_without_next_awaited(m.queue, other);
        let k = choose|k: int|
            0 <= k < n.queue.waiting().len() && log_line_of(#[trigger] n.queue.waiting()[k])
                == Some(other);
        assert(log_line_of(d.queue.waiting()[k]) == Some(other));
    }
    match line {
        Some(id) => lemma_update_accounts(m, d, None, id, LogStatus::SkippedBudget, 0),
        None => {
            assert forall|i: int|
                0 <= i < d.log.len() && (#[trigger] d.log[i]).status
                    == LogStatus::Queued implies awaited(d.queue, d.log[i].id) by {
                assert(m.log[i].status == LogStatus::Queued);
                assert(awaited(m.queue, m.log[i].id));
            }
        },
    }
}

proof fn lemma_all_accounted(m: SubstrateModel, jobs: Seq<Job>, n: int)
    requires
        accounted(m, None),
        0 <= n <= jobs.len(),
        m.next_id + n <= u64::MAX,
    ensures
        accounted(m.prefetching_all(jobs, n), None),
        m.prefetching_all(jobs, n).next_id <= m.next_id + n,
    decreases n,
{
    if n > 0 {
        lemma_all_accounted(m, jobs, n - 1);
        offered_work_is_accounted_for(m.prefetching_all(jobs, n - 1), jobs[n - 1], None);
    }
}

/// A job that ends settles its line, however it ended, and keeps the log
/// accounted for.
pub proof fn ended_work_is_accounted_for(
    m: SubstrateModel,
    key: Seq<char>,
    is_prefetch: bool,
    log_id: Option<u64>,
    outcome: Outcome,
    follow_ups: Seq<Job>,
    now: u64,
)
    requires
        accounted(m, log_id),
        m.next_id + follow_ups.len() <= u64::MAX,
    ensures
        accounted(m.finished(key, is_prefetch, log_id, outcome, follow_ups, now), None),
{
    let s = m.settled(is_prefetch, log_id, outcome, now);
    match log_id {
        Some(id) => {
            let (status, bytes) = match outcome {
                Outcome::Done { bytes } => (LogStatus::Done, bytes),
                Outcome::Skipped { .. } => (LogStatus::Done, 0),
                Outcome::RateLimited { .. } => (LogStatus::RateLimited, 0),
                _ => (LogStatus::Failed, 0),
            };
            lemma_update_accounts(m, s, log_id, id, status, bytes);
        },
        None => {
            assert(accounted(s, None));
        },
    }
    lemma_all_accounted(s, follow_ups, follow_ups.len() as int);
    let offered = s.prefetching_all(follow_ups, follow_ups.len() as int);
    let f = m.finished(key, is_prefetch, log_id, outcome, follow_ups, now);
    assert(f.queue.waiting() == offered.queue.waiting());
    assert forall|i: int|
        0 <= i < f.log.len() && (#[trigger] f.log[i]).status == LogStatus::Queued implies awaited(
        f.queue,
        f.log[i].id,
    ) by {
        let id = f.log[i].id;
        assert(offered.log[i].status == LogStatus::Queued);
        assert(awaited(offered.queue, id));
        let k = choose|k: int|
            0 <= k < offered.queue.waiting().len() && log_line_of(
                #[trigger] offered.queue.waiting()[k],
            ) == Some(id);
        assert(log_line_of(f.queue.waiting()[k]) == Some(id));
    }
}

/// Once nothing waits and nothing runs, no line of the log says "queued".
pub proof fn no_line_dangles(m: SubstrateModel, i: int)
    requires
        accounted(m, None),
        m.queue.waiting().len() == 0,
        0 <= i < m.log.len(),
    ensures
        m.log[i].status != LogStatus::Queued,
{
    if m.log[i].status == LogStatus::Queued {
        assert(awaited(m.queue, m.log[i].id));
    }
}

} // verus!
