//! What may be written while the reader is incognito.
use crate::text::{contains_text, holds_text, views};
use vstd::prelude::*;

verus! {

/// Something that would be written.
#[derive(Debug, Clone, Copy, PartialEq, Eq, Structural)]
pub enum Write {
    History,
    Stats,
    Interest,
    Prefetch,
    Cache,
    Bookmark,
    ReadLater,
    OfflineSave,
    Citation,
    FetchQueue,
}

/// Whether it may be.
#[derive(Debug, Clone, Copy, PartialEq, Eq, Structural)]
pub enum Verdict {
    Allow,
    Deny,
    AllowWithWarning,
}

/// A trace of reading that the reader did not ask for.
pub open spec fn passive(write: Write) -> bool {
    write == Write::History || write == Write::Stats || write == Write::Interest || write
        == Write::Prefetch
}

/// Something the reader asked to have kept.
pub open spec fn explicit_save(write: Write) -> bool {
    write == Write::Bookmark || write == Write::ReadLater || write == Write::OfflineSave || write
        == Write::Citation || write == Write::FetchQueue
}

/// The rule: incognito denies what is passive, warns of what is explicit, and
/// leaves the cache alone.
pub open spec fn verdict(incognito: bool, write: Write) -> Verdict {
    if incognito && passive(write) {
        Verdict::Deny
    } else if incognito && explicit_save(write) {
        Verdict::AllowWithWarning
    } else {
        Verdict::Allow
    }
}

/// Whether something may be written.
pub fn decide(incognito: bool, write: Write) -> (r: Verdict)
    ensures
        r == verdict(incognito, write),
{
    if !incognito {
        return Verdict::Allow;
    }
    match write {
        Write::History | Write::Stats | Write::Interest | Write::Prefetch => Verdict::Deny,
        Write::Cache => Verdict::Allow,
        Write::Bookmark
        | Write::ReadLater
        | Write::OfflineSave
        | Write::Citation
        | Write::FetchQueue => Verdict::AllowWithWarning,
    }
}

/// The warning on an explicit save.
pub const EXPLICIT_SAVE_WARNING: &'static str =
    "incognito: explicit saves aren't private — this persists to disk";

/// A message with the warning after it where one is due.
pub open spec fn with_warning(incognito: bool, write: Write, base: Seq<char>) -> Seq<char> {
    if verdict(incognito, write) == Verdict::AllowWithWarning {
        base + " ("@ + EXPLICIT_SAVE_WARNING@ + ")"@
    } else {
        base
    }
}

/// A message with the warning after it where one is due.
pub fn append_warning_if_needed(incognito: bool, write: Write, base: String) -> (r: String)
    ensures
        r@ == with_warning(incognito, write, base@),
{
    match decide(incognito, write) {
        Verdict::AllowWithWarning => {
            let mut out = base;
            out.push_str(" (");
            out.push_str(EXPLICIT_SAVE_WARNING);
            out.push_str(")");
            out
        },
        Verdict::Allow | Verdict::Deny => base,
    }
}

/// Incognito writes no passive trace.
pub proof fn incognito_leaves_no_passive_trace(write: Write)
    requires
        passive(write),
    ensures
        verdict(true, write) == Verdict::Deny,
{
}

/// What the reader asks for is never denied, and incognito always warns.
pub proof fn explicit_saves_go_through_with_a_warning(incognito: bool, write: Write)
    requires
        explicit_save(write),
    ensures
        verdict(incognito, write) != Verdict::Deny,
        incognito ==> verdict(incognito, write) == Verdict::AllowWithWarning,
{
}

/// The page cache is never denied: reading goes on in incognito as before.
pub proof fn the_cache_is_never_denied(incognito: bool)
    ensures
        verdict(incognito, Write::Cache) == Verdict::Allow,
{
}

/// Outside incognito everything is allowed, and no message changes.
pub proof fn nothing_is_restricted_outside_incognito(write: Write, base: Seq<char>)
    ensures
        verdict(false, write) == Verdict::Allow,
        with_warning(false, write, base) == base,
{
}

/// Hosts that collect usage data, none of which the program may name.
pub open spec fn banned_hosts() -> Seq<Seq<char>> {
    seq![
        "google-analytics.com"@,
        "googletagmanager.com"@,
        "sentry.io"@,
        "mixpanel.com"@,
        "segment.io"@,
        "segment.com"@,
        "plausible.io"@,
        "amplitude.com"@,
        "posthog.com"@,
        "fullstory.com"@,
        "hotjar.com"@,
        "bugsnag.com"@,
        "://telemetry."@,
    ]
}

/// Hosts that collect usage data.
pub fn banned_analytics_substrings() -> (r: Vec<&'static str>)
    ensures
        views(r@) == banned_hosts(),
{
    let out: Vec<&'static str> = vec![
        "google-analytics.com",
        "googletagmanager.com",
        "sentry.io",
        "mixpanel.com",
        "segment.io",
        "segment.com",
        "plausible.io",
        "amplitude.com",
        "posthog.com",
        "fullstory.com",
        "hotjar.com",
        "bugsnag.com",
        "://telemetry.",
    ];
    proof { assert(views(out@) =~= banned_hosts()); }
    out
}

/// The first of those hosts that a text names.
pub fn find_analytics_reference(text: &str) -> (r: Option<&'static str>)
    ensures
        match r {
            Some(host) => exists|i: int| #![trigger banned_hosts()[i]]
                0 <= i < banned_hosts().len() && banned_hosts()[i] == host@ && holds_text(
                    text@,
                    host@,
                ) && forall|j: int|
                    0 <= j < i ==> !holds_text(text@, #[trigger] banned_hosts()[j]),
            None => forall|j: int|
                0 <= j < banned_hosts().len() ==> !holds_text(
                    text@,
                    #[trigger] banned_hosts()[j],
                ),
        },
{
    let hosts = banned_analytics_substrings();
    let n: usize = hosts.len();
    let ghost all = banned_hosts();
    proof { assert(views(hosts@).len() == hosts@.len()); }
    for i in 0..n
        invariant
            n == hosts.len(),
            all == banned_hosts(),
            views(hosts@) == all,
            forall|j: int| 0 <= j < i ==> !holds_text(text@, #[trigger] all[j]),
    {
        proof { assert(views(hosts@)[i as int] == hosts@[i as int]@); }
        if contains_text(text, hosts[i]) {
            proof { assert(banned_hosts()[i as int] == hosts@[i as int]@); }
            return Some(hosts[i]);
        }
    }
    None
}

} // verus!
