//! Steps of a user's command sequences.
use crate::registry::command::{
    action_named, action_names_read_back, name_of, names_are_plain_words, plain_word, Action,
};
use crate::text::{
    chars_of, has_prefix, lemma_trimmed, lemma_trimmed_behind, same_str, starts_with,
    string_between, trim, trimmed, trimmed_end, trimmed_start,
};
use vstd::prelude::*;

verus! {

/// The step that opens the start page.
pub const OPEN_FEED: &'static str = "open-feed";

/// The step that opens a random good article in a new tab.
pub const TAB_OPEN_RANDOM_GOOD: &'static str = "tab-open-random-good";

/// How deep one sequence may call another.
pub const MAX_DEPTH: usize = 8;

/// A step without whitespace around it and without one leading colon.
pub open spec fn bare_step(step: Seq<char>) -> Seq<char> {
    let t = trimmed(step);
    if t.len() > 0 && t[0] == ':' {
        trimmed(t.drop_first())
    } else {
        trimmed(t)
    }
}

/// A step without whitespace around it and without one leading colon.
pub fn strip_colon(step: &str) -> (r: String)
    ensures
        r@ == bare_step(step@),
{
    let t = trim(step);
    let cs = chars_of(t.as_str());
    if cs.len() > 0 && cs[0] == ':' {
        let rest = string_between(&cs, 1, cs.len());
        proof { assert(rest@ =~= t@.drop_first()); }
        trim(rest.as_str())
    } else {
        trim(t.as_str())
    }
}

/// What the command line says of a step: nothing where it can be run, else its
/// message.
pub open spec fn command_known(message: Option<Seq<char>>) -> bool {
    match message {
        None => true,
        Some(m) => !has_prefix(m, "unknown command "@),
    }
}

/// A step can be run: it is one of the two steps of its own, an action's name,
/// or a command whose name the command line knows.
pub open spec fn step_known(step: Seq<char>, message: Option<Seq<char>>) -> bool {
    let s = bare_step(step);
    s.len() > 0 && (s == OPEN_FEED@ || s == TAB_OPEN_RANDOM_GOOD@ || action_named(s) is Some
        || command_known(message))
}

/// Whether a step names something that can be run, given what the command line
/// says of it.
pub fn step_names_a_known_command(step: &str, message: Option<&str>) -> (r: bool)
    ensures
        r == step_known(
            step@,
            match message {
                Some(m) => Some(m@),
                None => None,
            },
        ),
{
    let s = strip_colon(step);
    if chars_of(s.as_str()).len() == 0 {
        return false;
    }
    if same_str(s.as_str(), OPEN_FEED) || same_str(s.as_str(), TAB_OPEN_RANDOM_GOOD) {
        return true;
    }
    if Action::by_name(s.as_str()).is_some() {
        return true;
    }
    match message {
        None => true,
        Some(m) => !starts_with(m, "unknown command "),
    }
}

/// A step is judged the same with or without a colon before it, whatever stands
/// around it; a second colon alone counts.
pub proof fn a_colon_makes_no_difference(step: Seq<char>, message: Option<Seq<char>>)
    requires
        trimmed(step).len() > 0 ==> trimmed(step)[0] != ':',
    ensures
        bare_step(seq![':'] + step) == bare_step(step),
        step_known(seq![':'] + step, message) == step_known(step, message),
{
    lemma_trimmed_behind(':', step);
    lemma_trimmed(step);
    let t = trimmed(seq![':'] + step);
    assert(t.drop_first() =~= trimmed_end(step));
}

/// Every action can be run by its name, and so can the two steps of their own,
/// whatever the command line says of them.
pub proof fn names_can_be_run(a: Action, message: Option<Seq<char>>)
    ensures
        step_known(name_of(a), message),
        step_known(OPEN_FEED@, message),
        step_known(TAB_OPEN_RANDOM_GOOD@, message),
{
    names_are_plain_words(a);
    action_names_read_back(a);
    lemma_plain_step(name_of(a));
    reveal_strlit("open-feed");
    reveal_strlit("tab-open-random-good");
    lemma_plain_step(OPEN_FEED@);
    lemma_plain_step(TAB_OPEN_RANDOM_GOOD@);
}

proof fn lemma_plain_step(s: Seq<char>)
    requires
        plain_word(s),
    ensures
        bare_step(s) == s,
{
    assert(trimmed_start(s) == s);
    assert(trimmed_end(s) == s);
}

/// A step of whitespace alone, or of a colon and whitespace, can never be run.
pub proof fn an_empty_step_cannot_be_run(step: Seq<char>, message: Option<Seq<char>>)
    requires
        trimmed(step).len() == 0,
    ensures
        !step_known(step, message),
        !step_known(seq![':'] + step, message),
{
    a_colon_makes_no_difference(step, message);
    lemma_trimmed(step);
}

/// What is neither one of the two steps of their own nor an action's name, and
/// whose name the command line does not know, cannot be run.
pub proof fn an_unknown_name_cannot_be_run(step: Seq<char>, message: Seq<char>)
    requires
        bare_step(step) != OPEN_FEED@,
        bare_step(step) != TAB_OPEN_RANDOM_GOOD@,
        action_named(bare_step(step)) is None,
        has_prefix(message, "unknown command "@),
    ensures
        !step_known(step, Some(message)),
{
}

/// A command line's refusal counts only where it is of the command's name.
pub proof fn only_an_unknown_name_is_refused(step: Seq<char>, message: Option<Seq<char>>)
    requires
        bare_step(step).len() > 0,
        message matches Some(m) ==> !has_prefix(m, "unknown command "@),
    ensures
        step_known(step, message),
{
}

} // verus!
