//! Background jobs, the queue they wait in, and the log of what became of
//! them.
use std::collections::VecDeque;
use vstd::prelude::*;

use crate::text::decimal;
use crate::text::decimal_string;
use crate::text::insert_text;
use crate::text::join_with;
use crate::text::joined_with;
use crate::text::same_str;
use crate::text::sorted_texts;
use crate::text::views;

verus! {

/// A link that may be worth fetching ahead.
#[derive(Debug, Clone, PartialEq, Eq)]
pub struct LinkCandidate {
    pub title: String,
    /// Its place among the links of the page.
    pub lead_position: usize,
    pub is_cursor: bool,
}

/// A page whose likes are looked for.
#[derive(Debug, Clone, PartialEq, Eq)]
pub struct MorelikeSeed {
    pub title: String,
    pub category: String,
}

/// One unit of background work.
#[derive(Debug, Clone)]
pub enum Job {
    /// Checks whether a cached article is still current.
    Revalidate { tab_id: u64, lang: String, title: String, cached_revid: u64 },
    /// Loads an article into a background tab.
    LoadTab { tab_id: u64, wiki: String, lang: String, title: String },
    /// Fetches one article ahead.
    PrefetchArticle { lang: String, title: String, reason: String, log_id: u64 },
    /// Ranks the links of a page, and fetches the best of them ahead.
    RankLinks { lang: String, article_title: String, candidates: Vec<LinkCandidate> },
    /// Fetches the day's featured feed.
    Featured { lang: String, date: String },
    /// Looks for pages like those the reader liked.
    InterestMorelike { lang: String, seeds: Vec<MorelikeSeed> },
}

/// The titles of seeds.
pub open spec fn seed_titles(seeds: Seq<MorelikeSeed>) -> Seq<Seq<char>> {
    seeds.map_values(|s: MorelikeSeed| s.title@)
}

/// `tag:lang:name`.
pub open spec fn tagged(tag: Seq<char>, lang: Seq<char>, name: Seq<char>) -> Seq<char> {
    (tag + lang).push(':') + name
}

impl Job {
    /// Whether the job is speculative: it counts against the budgets and the
    /// kill switch stops it.
    pub open spec fn speculative(self) -> bool {
        !(self is Revalidate) && !(self is LoadTab)
    }

    /// What makes two jobs the same work. A tab's load is its own; every other
    /// kind goes by language and name.
    pub open spec fn key(self) -> Seq<char> {
        match self {
            Job::Revalidate { lang, title, .. } => tagged("rv:"@, lang@, title@),
            Job::LoadTab { tab_id, lang, title, .. } => tagged(
                "tl:"@,
                decimal(tab_id as nat).push(':') + lang@,
                title@,
            ),
            Job::PrefetchArticle { lang, title, .. } => tagged("pf:"@, lang@, title@),
            Job::RankLinks { lang, article_title, .. } => tagged("rl:"@, lang@, article_title@),
            Job::Featured { lang, date } => tagged("ft:"@, lang@, date@),
            Job::InterestMorelike { lang, seeds } => tagged(
                "im:"@,
                lang@,
                joined_with(sorted_texts(seed_titles(seeds@)), "|"@),
            ),
        }
    }

    /// Whether the job is speculative.
    pub fn is_prefetch(&self) -> (r: bool)
        ensures
            r == self.speculative(),
    {
        match self {
            Job::Revalidate { .. } => false,
            Job::LoadTab { .. } => false,
            _ => true,
        }
    }

    /// What makes two jobs the same work.
    pub fn dedup_key(&self) -> (r: String)
        ensures
            r@ == self.key(),
    {
        match self {
            Job::Revalidate { lang, title, .. } => tag_key("rv:", lang.as_str(), title.as_str()),
            Job::LoadTab { tab_id, lang, title, .. } => {
                let mut scope = decimal_string(*tab_id);
                scope.push(':');
                scope.push_str(lang.as_str());
                tag_key("tl:", scope.as_str(), title.as_str())
            },
            Job::PrefetchArticle { lang, title, .. } => tag_key(
                "pf:",
                lang.as_str(),
                title.as_str(),
            ),
            Job::RankLinks { lang, article_title, .. } => tag_key(
                "rl:",
                lang.as_str(),
                article_title.as_str(),
            ),
            Job::Featured { lang, date } => tag_key("ft:", lang.as_str(), date.as_str()),
            Job::InterestMorelike { lang, seeds } => {
                let titles = sort_titles(seeds);
                let list = join_with(&titles, "|");
                tag_key("im:", lang.as_str(), list.as_str())
            },
        }
    }
}

fn tag_key(tag: &str, lang: &str, name: &str) -> (r: String)
    ensures
        r@ == tagged(tag@, lang@, name@),
{
    let mut out = String::new();
    out.push_str(tag);
    out.push_str(lang);
    out.push(':');
    out.push_str(name);
    assert(out@ =~= tagged(tag@, lang@, name@));
    out
}

fn sort_titles(seeds: &Vec<MorelikeSeed>) -> (r: Vec<String>)
    ensures
        views(r@) == sorted_texts(seed_titles(seeds@)),
{
    let mut out: Vec<String> = Vec::new();
    let n: usize = seeds.len();
    let ghost all = seed_titles(seeds@);
    assert(views(out@) =~= sorted_texts(all.take(0)));
    for i in 0..n
        invariant
            n == seeds.len(),
            all == seed_titles(seeds@),
            views(out@) == sorted_texts(all.take(i as int)),
    {
        proof { assert(all.take(i + 1).drop_last() =~= all.take(i as int)); }
        insert_text(&mut out, seeds[i].title.clone());
    }
    proof { assert(all.take(n as int) =~= all); }
    out
}

/// What became of a prefetched article.
#[derive(Debug, Clone, Copy, PartialEq, Eq, Structural)]
pub enum LogStatus {
    Queued,
    Done,
    Failed,
    SkippedBudget,
    RateLimited,
}

impl LogStatus {
    /// The status in words.
    pub fn label(self) -> (r: &'static str)
        ensures
            r@ == (match self {
                LogStatus::Queued => "queued"@,
                LogStatus::Done => "done"@,
                LogStatus::Failed => "failed"@,
                LogStatus::SkippedBudget => "skipped-budget"@,
                LogStatus::RateLimited => "rate-limited"@,
            }),
    {
        match self {
            LogStatus::Queued => "queued",
            LogStatus::Done => "done",
            LogStatus::Failed => "failed",
            LogStatus::SkippedBudget => "skipped-budget",
            LogStatus::RateLimited => "rate-limited",
        }
    }
}

/// One line of the log.
#[derive(Debug, Clone)]
pub struct LogEntry {
    pub id: u64,
    pub title: String,
    pub reason: String,
    pub status: LogStatus,
    pub bytes: u64,
}

/// One line of the log, with its texts as characters.
#[verifier::ext_equal]
pub struct LogLine {
    pub id: u64,
    pub title: Seq<char>,
    pub reason: Seq<char>,
    pub status: LogStatus,
    pub bytes: u64,
}

impl View for LogEntry {
    type V = LogLine;

    open spec fn view(&self) -> LogLine {
        LogLine {
            id: self.id,
            title: self.title@,
            reason: self.reason@,
            status: self.status,
            bytes: self.bytes,
        }
    }
}

impl LogEntry {
    /// A copy of the line.
    pub fn copy(&self) -> (r: LogEntry)
        ensures
            r@ == self@,
    {
        LogEntry {
            id: self.id,
            title: self.title.clone(),
            reason: self.reason.clone(),
            status: self.status,
            bytes: self.bytes,
        }
    }
}

/// How many lines the log keeps.
pub const LOG_CAPACITY: usize = 200;

/// The log of prefetched articles, a bounded ring.
#[derive(Debug)]
pub struct PrefetchLog {
    entries: Vec<LogEntry>,
    next_id: u64,
}

/// The lines with the oldest dropped past the capacity.
pub open spec fn bounded_log(lines: Seq<LogLine>) -> Seq<LogLine> {
    if lines.len() > LOG_CAPACITY {
        lines.drop_first()
    } else {
        lines
    }
}

/// The first line with an id, or the number of lines.
pub open spec fn line_of(lines: Seq<LogLine>, id: u64) -> int
    decreases lines.len(),
{
    if lines.len() == 0 {
        0
    } else if lines[0].id == id {
        0
    } else {
        1 + line_of(lines.drop_first(), id)
    }
}

/// The lines with a new status on the line of `id`, where there is one.
pub open spec fn updated_log(lines: Seq<LogLine>, id: u64, status: LogStatus, bytes: u64) -> Seq<
    LogLine,
> {
    let at = line_of(lines, id);
    if 0 <= at < lines.len() {
        lines.update(at, LogLine { status, bytes, ..lines[at] })
    } else {
        lines
    }
}

impl PrefetchLog {
    /// The lines, oldest first.
    pub closed spec fn lines(self) -> Seq<LogLine> {
        views(self.entries@)
    }

    /// The id the next line gets.
    pub closed spec fn next(self) -> u64 {
        self.next_id
    }

    /// No more lines than the capacity.
    pub open spec fn wf(self) -> bool {
        self.lines().len() <= LOG_CAPACITY
    }

    /// An empty log.
    pub fn new() -> (r: Self)
        ensures
            r.wf(),
            r.lines() == Seq::<LogLine>::empty(),
            r.next() == 0,
    {
        let r = PrefetchLog { entries: Vec::new(), next_id: 0 };
        assert(r.lines() =~= Seq::empty());
        r
    }

    /// Adds a queued line and gives its id; past the capacity the oldest line
    /// goes.
    pub fn push_queued(&mut self, title: String, reason: String) -> (r: u64)
        requires
            old(self).wf(),
        ensures
            final(self).wf(),
            r == old(self).next(),
            final(self).next() == crate::netqueue::limits::wrap_sum(old(self).next(), 1),
            final(self).lines() == bounded_log(
                old(self).lines().push(
                    (LogLine {
                        id: r,
                        title: title@,
                        reason: reason@,
                        status: LogStatus::Queued,
                        bytes: 0,
                    }),
                ),
            ),
    {
        let id: u64 = self.next_id;
        self.next_id = id.wrapping_add(1);
        let ghost before = self.lines();
        let entry = LogEntry { id, title, reason, status: LogStatus::Queued, bytes: 0 };
        let ghost line = entry@;
        self.entries.push(entry);
        proof { assert(self.lines() =~= before.push(line)); }
        if self.entries.len() > LOG_CAPACITY {
            self.entries.remove(0);
            proof { assert(self.lines() =~= before.push(line).drop_first()); }
        }
        id
    }

    /// Records what became of the line with `id`; a line that has dropped out
    /// is left alone.
    pub fn update(&mut self, id: u64, status: LogStatus, bytes: u64)
        requires
            old(self).wf(),
        ensures
            final(self).wf(),
            final(self).next() == old(self).next(),
            final(self).lines() == updated_log(old(self).lines(), id, status, bytes),
    {
        let n: usize = self.entries.len();
        let ghost all = self.lines();
        let mut i: usize = 0;
        proof { assert(all.skip(0) =~= all); }
        while i < n && self.entries[i].id != id
            invariant
                n == self.entries.len(),
                i <= n,
                all == self.lines(),
                self.next() == old(self).next(),
                line_of(all, id) == i + line_of(all.skip(i as int), id),
            decreases n - i,
        {
            proof {
                assert(all.skip(i as int)[0] == self.entries@[i as int]@);
                assert(all.skip(i as int).drop_first() =~= all.skip(i + 1));
            }
            i = i + 1;
        }
        if i < n {
            proof { assert(all.skip(i as int)[0] == self.entries@[i as int]@); }
            let old_entry = &self.entries[i];
            let entry = LogEntry {
                id: old_entry.id,
                title: old_entry.title.clone(),
                reason: old_entry.reason.clone(),
                status,
                bytes,
            };
            let ghost line = entry@;
            self.entries.set(i, entry);
            proof { assert(self.lines() =~= all.update(i as int, line)); }
        }
    }

    /// The lines, newest first.
    pub fn recent(&self) -> (r: Vec<LogEntry>)
        ensures
            views(r@) == self.lines().reverse(),
    {
        let mut out: Vec<LogEntry> = Vec::new();
        let n: usize = self.entries.len();
        let ghost all = self.lines().reverse();
        for i in 0..n
            invariant
                n == self.entries.len(),
                all == self.lines().reverse(),
                views(out@) == all.take(i as int),
        {
            let ghost pre = out@;
            out.push(self.entries[n - 1 - i].copy());
            proof {
                assert(views(out@) =~= views(pre).push(out@.last()@));
                assert(all.take(i + 1) =~= all.take(i as int).push(all[i as int]));
            }
        }
        proof { assert(all.take(n as int) =~= all); }
        out
    }
}

impl Default for PrefetchLog {
    fn default() -> (r: Self)
        ensures
            r.wf(),
            r.lines() == Seq::<LogLine>::empty(),
            r.next() == 0,
    {
        PrefetchLog::new()
    }
}

/// The jobs that wait, and the work that is reserved.
pub struct Queue {
    revalidation: VecDeque<Job>,
    prefetch: VecDeque<Job>,
    inflight: Vec<String>,
}

/// The two lanes and the reserved keys.
#[verifier::ext_equal]
pub struct QueueModel {
    pub revalidation: Seq<Job>,
    pub prefetch: Seq<Job>,
    pub inflight: Seq<Seq<char>>,
}

/// The keys of jobs.
pub open spec fn job_keys(jobs: Seq<Job>) -> Seq<Seq<char>> {
    jobs.map_values(|j: Job| j.key())
}

impl QueueModel {
    /// All waiting jobs, in the order they are served.
    pub open spec fn waiting(self) -> Seq<Job> {
        self.revalidation + self.prefetch
    }

    /// Each lane holds its own kind, no work waits twice, and whatever waits is
    /// reserved.
    pub open spec fn wf(self) -> bool {
        &&& forall|i: int|
            0 <= i < self.revalidation.len() ==> !(#[trigger] self.revalidation[i]).speculative()
        &&& forall|i: int|
            0 <= i < self.prefetch.len() ==> (#[trigger] self.prefetch[i]).speculative()
        &&& self.inflight.no_duplicates()
        &&& job_keys(self.waiting()).no_duplicates()
        &&& forall|i: int|
            0 <= i < self.waiting().len() ==> self.inflight.contains(
                (#[trigger] self.waiting()[i]).key(),
            )
    }

    /// The queue with a job at the end of its lane.
    pub open spec fn with_last(self, job: Job) -> QueueModel {
        if job.speculative() {
            QueueModel { prefetch: self.prefetch.push(job), ..self }
        } else {
            QueueModel { revalidation: self.revalidation.push(job), ..self }
        }
    }

    /// The queue with a job at the front of its lane.
    pub open spec fn with_first(self, job: Job) -> QueueModel {
        if job.speculative() {
            QueueModel { prefetch: seq![job] + self.prefetch, ..self }
        } else {
            QueueModel { revalidation: seq![job] + self.revalidation, ..self }
        }
    }

    /// The queue without the job that is served next.
    pub open spec fn without_next(self) -> QueueModel {
        if self.revalidation.len() > 0 {
            QueueModel { revalidation: self.revalidation.drop_first(), ..self }
        } else if self.prefetch.len() > 0 {
            QueueModel { prefetch: self.prefetch.drop_first(), ..self }
        } else {
            self
        }
    }

    /// The queue with a key reserved.
    pub open spec fn reserving(self, key: Seq<char>) -> QueueModel {
        QueueModel { inflight: self.inflight.push(key), ..self }
    }

    /// The queue with a key free again.
    pub open spec fn freeing(self, key: Seq<char>) -> QueueModel {
        QueueModel { inflight: without(self.inflight, key), ..self }
    }

    /// The queue once `job` was offered to it: work that is reserved already
    /// is turned away.
    pub open spec fn offered(self, job: Job) -> QueueModel {
        if self.inflight.contains(job.key()) {
            self
        } else {
            self.reserving(job.key()).with_last(job)
        }
    }
}

/// A list without the first occurrence of a text.
pub open spec fn without(list: Seq<Seq<char>>, t: Seq<char>) -> Seq<Seq<char>>
    decreases list.len(),
{
    if list.len() == 0 {
        list
    } else if list[0] == t {
        list.drop_first()
    } else {
        seq![list[0]] + without(list.drop_first(), t)
    }
}

impl View for Queue {
    type V = QueueModel;

    closed spec fn view(&self) -> QueueModel {
        QueueModel {
            revalidation: self.revalidation@,
            prefetch: self.prefetch@,
            inflight: views(self.inflight@),
        }
    }
}

impl Queue {
    /// An empty queue.
    pub fn new() -> (r: Self)
        ensures
            r@ == (QueueModel {
                revalidation: Seq::empty(),
                prefetch: Seq::empty(),
                inflight: Seq::empty(),
            }),
            r@.wf(),
    {
        let r = Queue {
            revalidation: VecDeque::new(),
            prefetch: VecDeque::new(),
            inflight: Vec::new(),
        };
        proof {
            assert(views(r.inflight@) =~= Seq::empty());
            assert(r@.waiting() =~= Seq::empty());
        }
        r
    }

    fn reserved(&self, key: &str) -> (r: Option<usize>)
        ensures
            match r {
                Some(i) => i < self.inflight.len() && self@.inflight[i as int] == key@ && forall|
                    j: int,
                | 0 <= j < i ==> #[trigger] self@.inflight[j] != key@,
                None => !self@.inflight.contains(key@),
            },
    {
        let n: usize = self.inflight.len();
        for i in 0..n
            invariant
                n == self.inflight.len(),
                forall|j: int| 0 <= j < i ==> #[trigger] self@.inflight[j] != key@,
        {
            assert(self@.inflight[i as int] == self.inflight@[i as int]@);
            if same_str(self.inflight[i].as_str(), key) {
                return Some(i);
            }
        }
        None
    }

    /// Reserves a key; whether it was free.
    pub fn reserve(&mut self, key: String) -> (r: bool)
        ensures
            r == !old(self)@.inflight.contains(key@),
            final(self)@ == if r {
                old(self)@.reserving(key@)
            } else {
                old(self)@
            },
    {
        if self.reserved(key.as_str()).is_some() {
            return false;
        }
        let ghost before = self@;
        self.inflight.push(key);
        proof { assert(self@ =~= before.reserving(key@)); }
        true
    }

    /// Puts a job whose key is reserved at the end of its lane.
    pub fn push_reserved(&mut self, job: Job)
        ensures
            final(self)@ == old(self)@.with_last(job),
    {
        if job.is_prefetch() {
            self.prefetch.push_back(job);
        } else {
            self.revalidation.push_back(job);
        }
    }

    /// Offers a job: work that is reserved already is turned away.
    pub fn enqueue(&mut self, job: Job) -> (r: bool)
        ensures
            r == !old(self)@.inflight.contains(job.key()),
            final(self)@ == old(self)@.offered(job),
    {
        let key = job.dedup_key();
        if !self.reserve(key) {
            return false;
        }
        self.push_reserved(job);
        true
    }

    /// Takes the next job: revalidation before prefetching, and first come
    /// first served in each lane.
    pub fn pop(&mut self) -> (r: Option<Job>)
        ensures
            r == (if old(self)@.waiting().len() > 0 {
                Some(old(self)@.waiting()[0])
            } else {
                None
            }),
            final(self)@ == old(self)@.without_next(),
    {
        let ghost before = self@;
        if self.revalidation.len() > 0 {
            let job = self.revalidation.pop_front();
            proof { assert(self@ =~= before.without_next()); }
            job
        } else if self.prefetch.len() > 0 {
            let job = self.prefetch.pop_front();
            proof {
                assert(self@ =~= before.without_next());
                assert(before.waiting() =~= before.prefetch);
            }
            job
        } else {
            None
        }
    }

    /// Puts a job back to the front of its lane.
    pub fn requeue_front(&mut self, job: Job)
        ensures
            final(self)@ == old(self)@.with_first(job),
    {
        let ghost before = self@;
        if job.is_prefetch() {
            self.prefetch.push_front(job);
        } else {
            self.revalidation.push_front(job);
        }
        proof { assert(self@ =~= before.with_first(job)); }
    }

    /// Frees a key, so that its work can be queued again.
    pub fn complete(&mut self, key: &str)
        ensures
            final(self)@ == old(self)@.freeing(key@),
    {
        let ghost before = self@;
        match self.reserved(key) {
            Some(i) => {
                self.inflight.remove(i);
                proof {
                    lemma_without_at(before.inflight, key@, i as int);
                    assert(self@ =~= before.freeing(key@));
                }
            },
            None => {
                proof {
                    lemma_without_absent(before.inflight, key@);
                }
            },
        }
    }

    /// How many jobs wait, as far as a `usize` counts.
    pub fn pending(&self) -> (r: usize)
        ensures
            r as nat == self@.waiting().len() || (r == usize::MAX && self@.waiting().len()
                >= usize::MAX),
    {
        self.revalidation.len().saturating_add(self.prefetch.len())
    }

    /// Whether any work is reserved.
    pub fn any_inflight(&self) -> (r: bool)
        ensures
            r == (self@.inflight.len() > 0),
    {
        self.inflight.len() > 0
    }
}

proof fn lemma_without_at(list: Seq<Seq<char>>, t: Seq<char>, i: int)
    requires
        0 <= i < list.len(),
        list[i] == t,
        forall|j: int| 0 <= j < i ==> #[trigger] list[j] != t,
    ensures
        without(list, t) == list.remove(i),
    decreases list.len(),
{
    if i == 0 {
        assert(list.drop_first() =~= list.remove(0));
    } else {
        assert(list[0] != t);
        let rest = list.drop_first();
        assert forall|j: int| 0 <= j < i - 1 implies #[trigger] rest[j] != t by {
            assert(list[j + 1] != t);
        }
        lemma_without_at(rest, t, i - 1);
        assert(seq![list[0]] + rest.remove(i - 1) =~= list.remove(i));
    }
}

proof fn lemma_without_absent(list: Seq<Seq<char>>, t: Seq<char>)
    requires
        !list.contains(t),
    ensures
        without(list, t) == list,
    decreases list.len(),
{
    if list.len() > 0 {
        assert(list.contains(list[0]));
        let rest = list.drop_first();
        assert(!rest.contains(t)) by {
            if rest.contains(t) {
                let j = choose|j: int| 0 <= j < rest.len() && rest[j] == t;
                assert(list[j + 1] == t);
            }
        }
        lemma_without_absent(rest, t);
        assert(seq![list[0]] + rest =~= list);
    }
}

/// Freeing a key leaves the other reservations, and the key is free.
pub proof fn lemma_without(list: Seq<Seq<char>>, t: Seq<char>)
    requires
        list.no_duplicates(),
    ensures
        without(list, t).no_duplicates(),
        !without(list, t).contains(t),
        forall|u: Seq<char>| u != t ==> without(list, t).contains(u) == list.contains(u),
{
    if list.contains(t) {
        let i = choose|i: int| 0 <= i < list.len() && list[i] == t;
        assert forall|j: int| 0 <= j < i implies #[trigger] list[j] != t by {}
        lemma_without_at(list, t, i);
        let out = list.remove(i);
        assert forall|a: int, b: int| 0 <= a < b < out.len() implies out[a] != out[b] by {
            let p = if a < i {
                a
            } else {
                a + 1
            };
            let q = if b < i {
                b
            } else {
                b + 1
            };
            assert(out[a] == list[p] && out[b] == list[q] && p != q);
        }
        assert(!out.contains(t)) by {
            if out.contains(t) {
                let a = choose|a: int| 0 <= a < out.len() && out[a] == t;
                let p = if a < i {
                    a
                } else {
                    a + 1
                };
                assert(list[p] == t && p != i);
            }
        }
        assert forall|u: Seq<char>| u != t implies out.contains(u) == list.contains(u) by {
            if list.contains(u) {
                let p = choose|p: int| 0 <= p < list.len() && list[p] == u;
                let a = if p < i {
                    p
                } else {
                    p - 1
                };
                assert(out[a] == u);
            }
            if out.contains(u) {
                let a = choose|a: int| 0 <= a < out.len() && out[a] == u;
                let p = if a < i {
                    a
                } else {
                    a + 1
                };
                assert(list[p] == u);
            }
        }
    } else {
        lemma_without_absent(list, t);
    }
}

/// Work that is reserved is not queued again, and once it is complete it is.
pub proof fn same_work_runs_once_at_a_time(q: QueueModel, job: Job, again: Job)
    requires
        q.wf(),
        job.key() == again.key(),
        !q.inflight.contains(job.key()),
    ensures
        q.offered(job).offered(again) == q.offered(job),
        q.offered(job).without_next().offered(again) == q.offered(job).without_next(),
        !q.offered(job).freeing(job.key()).inflight.contains(again.key()),
{
    let once = q.offered(job);
    assert(once.inflight == q.inflight.push(job.key()));
    assert(once.inflight[once.inflight.len() - 1] == job.key());
    assert(once.inflight.contains(job.key()));
    assert(once.inflight.no_duplicates()) by {
        assert forall|a: int, b: int|
            0 <= a < b < once.inflight.len() implies once.inflight[a] != once.inflight[b] by {
            if b == once.inflight.len() - 1 {
                assert(q.inflight.contains(q.inflight[a]));
            }
        }
    }
    lemma_without(once.inflight, job.key());
}

/// Putting the next job back is as if it had not been taken.
pub proof fn requeue_undoes_pop(q: QueueModel)
    requires
        q.wf(),
        q.waiting().len() > 0,
    ensures
        q.without_next().with_first(q.waiting()[0]) == q,
{
    let job = q.waiting()[0];
    if q.revalidation.len() > 0 {
        assert(job == q.revalidation[0]);
        assert(seq![job] + q.revalidation.drop_first() =~= q.revalidation);
    } else {
        assert(job == q.prefetch[0]);
        assert(seq![job] + q.prefetch.drop_first() =~= q.prefetch);
    }
    assert(q.without_next().with_first(job) =~= q);
}

/// A revalidation is served before every prefetch, whatever came first.
pub proof fn revalidation_goes_first(q: QueueModel, job: Job)
    requires
        q.wf(),
        !job.speculative(),
        !q.inflight.contains(job.key()),
    ensures
        !q.offered(job).waiting()[0].speculative(),
{
    let next = q.offered(job);
    assert(next.revalidation == q.revalidation.push(job));
    assert(next.waiting()[0] == next.revalidation[0]);
    if q.revalidation.len() > 0 {
        assert(next.revalidation[0] == q.revalidation[0]);
    }
}

/// Offering a job keeps the queue in order.
pub proof fn offering_keeps_order(q: QueueModel, job: Job)
    requires
        q.wf(),
    ensures
        q.offered(job).wf(),
{
    if !q.inflight.contains(job.key()) {
        let n = q.offered(job);
        let key = job.key();
        assert(n.inflight == q.inflight.push(key));
        assert(n.inflight[q.inflight.len() as int] == key);
        assert forall|a: int, b: int| 0 <= a < b < n.inflight.len() implies n.inflight[a]
            != n.inflight[b] by {
            if b == n.inflight.len() - 1 {
                assert(q.inflight.contains(q.inflight[a]));
            }
        }
        let before = q.waiting();
        let after = n.waiting();
        let at: int = if job.speculative() {
            before.len() as int
        } else {
            q.revalidation.len() as int
        };
        assert(after[at] == job);
        assert forall|i: int| 0 <= i < after.len() implies n.inflight.contains(
            (#[trigger] after[i]).key(),
        ) by {
            if i != at {
                let j = if i < at {
                    i
                } else {
                    i - 1
                };
                assert(after[i] == before[j]);
                assert(q.inflight.contains(before[j].key()));
                let w = choose|w: int| 0 <= w < q.inflight.len() && q.inflight[w] == before[j].key();
                assert(n.inflight[w] == before[j].key());
            } else {
                assert(n.inflight[q.inflight.len() as int] == after[i].key());
            }
        }
        let keys = job_keys(after);
        assert forall|a: int, b: int| 0 <= a < b < keys.len() implies keys[a] != keys[b] by {
            let p = if a < at {
                a
            } else {
                a - 1
            };
            let r = if b < at {
                b
            } else {
                b - 1
            };
            if a != at && b != at {
                assert(after[a] == before[p] && after[b] == before[r]);
                assert(job_keys(before)[p] == keys[a] && job_keys(before)[r] == keys[b]);
            } else if a == at {
                assert(after[b] == before[r]);
                assert(q.inflight.contains(before[r].key()));
            } else {
                assert(after[a] == before[p]);
                assert(q.inflight.contains(before[p].key()));
            }
        }
    }
}

} // verus!
