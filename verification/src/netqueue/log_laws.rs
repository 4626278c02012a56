//! What the prefetch log shows, over everything that was written to it.
use vstd::prelude::*;

use crate::netqueue::jobs::bounded_log;
use crate::netqueue::jobs::line_of;
use crate::netqueue::jobs::updated_log;
use crate::netqueue::jobs::LogLine;
use crate::netqueue::jobs::LogStatus;
use crate::netqueue::jobs::LOG_CAPACITY;
use crate::netqueue::laws::lemma_line;
use crate::netqueue::limits::wrap_sum;

verus! {

/// Something that is written to the log.
pub enum LogUse {
    /// A line is added.
    Queued { title: Seq<char>, reason: Seq<char> },
    /// What became of a line is recorded.
    Updated { id: u64, status: LogStatus, bytes: u64 },
}

/// The lines of a log, oldest first, and the id of the next one.
pub struct Logged {
    pub lines: Seq<LogLine>,
    pub next: u64,
}

/// A new line.
pub open spec fn queued_line(id: u64, title: Seq<char>, reason: Seq<char>) -> LogLine {
    LogLine { id, title, reason, status: LogStatus::Queued, bytes: 0 }
}

/// The log once all of `us` was written to an empty one.
pub open spec fn log_after(us: Seq<LogUse>) -> Logged
    decreases us.len(),
{
    if us.len() == 0 {
        Logged { lines: Seq::empty(), next: 0 }
    } else {
        let before = log_after(us.drop_last());
        match us.last() {
            LogUse::Queued { title, reason } => Logged {
                lines: bounded_log(before.lines.push(queued_line(before.next, title, reason))),
                next: wrap_sum(before.next, 1),
            },
            LogUse::Updated { id, status, bytes } => Logged {
                lines: updated_log(before.lines, id, status, bytes),
                next: before.next,
            },
        }
    }
}

/// Every line that was ever added, with what became of it: the ids count them.
pub open spec fn whole_log(us: Seq<LogUse>) -> Seq<LogLine>
    decreases us.len(),
{
    if us.len() == 0 {
        Seq::empty()
    } else {
        let before = whole_log(us.drop_last());
        match us.last() {
            LogUse::Queued { title, reason } => before.push(
                queued_line(before.len() as u64, title, reason),
            ),
            LogUse::Updated { id, status, bytes } => if id < before.len() {
                before.update(id as int, LogLine { status, bytes, ..before[id as int] })
            } else {
                before
            },
        }
    }
}

/// The newest lines, as many as the log holds.
pub open spec fn newest(lines: Seq<LogLine>) -> Seq<LogLine> {
    if lines.len() > LOG_CAPACITY {
        lines.skip(lines.len() - LOG_CAPACITY)
    } else {
        lines
    }
}

proof fn lemma_update_newest(lines: Seq<LogLine>, id: u64, status: LogStatus, bytes: u64)
    requires
        forall|i: int| 0 <= i < lines.len() ==> (#[trigger] lines[i]).id == i,
    ensures
        updated_log(newest(lines), id, status, bytes) == newest(
            if id < lines.len() {
                lines.update(id as int, LogLine { status, bytes, ..lines[id as int] })
            } else {
                lines
            },
        ),
{
    let shown = newest(lines);
    let from = lines.len() - shown.len();
    assert forall|i: int| 0 <= i < shown.len() implies (#[trigger] shown[i]).id == from + i by {
        assert(shown[i] == lines[from + i]);
    }
    lemma_line(shown, id);
    let at = line_of(shown, id);
    let after = if id < lines.len() {
        lines.update(id as int, LogLine { status, bytes, ..lines[id as int] })
    } else {
        lines
    };
    if at < shown.len() {
        assert(shown[at].id == from + at);
    } else if from <= id < lines.len() {
        assert(shown[id - from].id == id);
    }
    assert(updated_log(shown, id, status, bytes) =~= newest(after));
}

/// The log shows the newest lines that were added, as many as it holds, each
/// with what became of it; and the ids rise from each line to the next, so that
/// they fall from the newest line on.
pub proof fn the_log_shows_the_newest(us: Seq<LogUse>)
    requires
        whole_log(us).len() <= u64::MAX,
    ensures
        log_after(us).lines == newest(whole_log(us)),
        whole_log(us).len() < u64::MAX ==> log_after(us).next == whole_log(us).len(),
        forall|i: int| 0 <= i < whole_log(us).len() ==> (#[trigger] whole_log(us)[i]).id == i,
        forall|i: int, j: int|
            #![trigger log_after(us).lines.reverse()[i], log_after(us).lines.reverse()[j]]
            0 <= i < j < log_after(us).lines.len() ==> log_after(us).lines.reverse()[i].id
                > log_after(us).lines.reverse()[j].id,
    decreases us.len(),
{
    if us.len() > 0 {
        let front = us.drop_last();
        let before = whole_log(front);
        the_log_shows_the_newest(front);
        match us.last() {
            LogUse::Queued { title, reason } => {
                assert(log_after(us).lines =~= newest(whole_log(us)));
            },
            LogUse::Updated { id, status, bytes } => {
                lemma_update_newest(before, id, status, bytes);
            },
        }
    }
    let lines = log_after(us).lines;
    let all = whole_log(us);
    let from = all.len() - lines.len();
    assert forall|i: int, j: int|
        #![trigger lines.reverse()[i], lines.reverse()[j]]
        0 <= i < j < lines.len() implies lines.reverse()[i].id > lines.reverse()[j].id by {
        let p = lines.len() - 1 - i;
        let q = lines.len() - 1 - j;
        assert(lines[p] == all[from + p] && lines[q] == all[from + q]);
    }
}

} // verus!
