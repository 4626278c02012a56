//! The operators of a search query, and completing one that is half typed.
use crate::text::{
    chars_of, contains_char, has_prefix, is_whitespace, lowercase, starts_with, string_between,
    to_lowercase, whitespace,
};
use vstd::prelude::*;

verus! {

/// An operator of a search query.
pub struct Operator {
    pub name: &'static str,
    pub about: &'static str,
}

/// The names of the operators.
pub open spec fn operator_names() -> Seq<Seq<char>> {
    seq![
        "intitle"@,
        "incategory"@,
        "insource"@,
        "hastemplate"@,
        "deepcat"@,
        "articletopic"@,
        "morelike"@,
        "prefix"@,
    ]
}

/// What is said of the operators.
pub open spec fn operator_notes() -> Seq<Seq<char>> {
    seq![
        "match only if the term appears in the title"@,
        "pages that belong to the given category"@,
        "match the wikitext source; /regex/ form supported"@,
        "pages that transclude the given template"@,
        "pages in the category or any of its subcategories"@,
        "pages classified under a predicted topic"@,
        "pages whose text resembles the given title (powers the Related panel)"@,
        "titles starting with the given prefix"@,
    ]
}

/// The operators.
pub fn operators() -> (r: Vec<Operator>)
    ensures
        r@.len() == operator_names().len(),
        forall|i: int|
            0 <= i < r@.len() ==> (#[trigger] r@[i]).name@ == operator_names()[i] && r@[i].about@
                == operator_notes()[i],
{
    vec![
        Operator { name: "intitle", about: "match only if the term appears in the title" },
        Operator { name: "incategory", about: "pages that belong to the given category" },
        Operator { name: "insource", about: "match the wikitext source; /regex/ form supported" },
        Operator { name: "hastemplate", about: "pages that transclude the given template" },
        Operator { name: "deepcat", about: "pages in the category or any of its subcategories" },
        Operator { name: "articletopic", about: "pages classified under a predicted topic" },
        Operator {
            name: "morelike",
            about: "pages whose text resembles the given title (powers the Related panel)",
        },
        Operator { name: "prefix", about: "titles starting with the given prefix" },
    ]
}

/// Where the last word starts: after the last whitespace.
pub open spec fn last_word_start(s: Seq<char>) -> int
    decreases s.len(),
{
    if s.len() == 0 || whitespace(s.last()) {
        s.len() as int
    } else {
        last_word_start(s.drop_last())
    }
}

/// Names that start with a text.
pub open spec fn starting(names: Seq<Seq<char>>, p: Seq<char>) -> Seq<Seq<char>>
    decreases names.len(),
{
    if names.len() == 0 {
        Seq::empty()
    } else {
        let before = starting(names.drop_last(), p);
        if has_prefix(names.last(), p) {
            before.push(names.last())
        } else {
            before
        }
    }
}

/// The query with its last word made the operator that it starts, with a
/// colon; nothing where it starts none, several, or has a colon already.
pub open spec fn completed(s: Seq<char>) -> Option<Seq<char>> {
    let at = last_word_start(s);
    let word = s.skip(at);
    let found = starting(operator_names(), lowercase(word));
    if word.len() == 0 || word.contains(':') || found.len() != 1 {
        None
    } else {
        Some(s.take(at) + found[0] + ":"@)
    }
}

/// Completes the operator that the last word of a query starts.
pub fn complete_operator_name(input: &str) -> (r: Option<String>)
    ensures
        match r {
            Some(t) => completed(input@) == Some(t@),
            None => completed(input@) is None,
        },
{
    let cs = chars_of(input);
    let mut at: usize = cs.len();
    proof { assert(input@.take(at as int) =~= input@); }
    while at > 0 && !is_whitespace(cs[at - 1])
        invariant
            cs@ == input@,
            at <= cs.len(),
            last_word_start(input@) == last_word_start(input@.take(at as int)),
        decreases at,
    {
        proof { assert(input@.take(at as int).drop_last() =~= input@.take(at - 1)); }
        at = at - 1;
    }
    let word = string_between(&cs, at, cs.len());
    proof { assert(word@ =~= input@.skip(at as int)); }
    if cs.len() == at || contains_char(word.as_str(), ':') {
        return None;
    }
    let low = to_lowercase(word.as_str());
    let ops = operators();
    let n: usize = ops.len();
    let mut count: usize = 0;
    let mut only: &'static str = "";
    let ghost names = operator_names();
    for i in 0..n
        invariant
            n == ops.len(),
            names == operator_names(),
            names.len() == n,
            forall|j: int| 0 <= j < n ==> (#[trigger] ops@[j]).name@ == names[j],
            count <= i,
            count == starting(names.take(i as int), low@).len(),
            count == 1 ==> only@ == starting(names.take(i as int), low@)[0],
    {
        proof { assert(names.take(i + 1).drop_last() =~= names.take(i as int)); }
        if starts_with(ops[i].name, low.as_str()) {
            count = count + 1;
            if count == 1 {
                only = ops[i].name;
            }
        }
    }
    proof { assert(names.take(n as int) =~= names); }
    if count != 1 {
        return None;
    }
    let mut out = string_between(&cs, 0, at);
    proof { assert(out@ =~= input@.take(at as int)); }
    out.push_str(only);
    out.push_str(":");
    Some(out)
}

/// Completing keeps every word before the last.
pub proof fn earlier_words_are_kept(s: Seq<char>)
    requires
        completed(s) is Some,
    ensures
        has_prefix(completed(s)->0, s.take(last_word_start(s))),
{
    lemma_start_in_range(s);
    let at = last_word_start(s);
    let out = completed(s)->0;
    assert(out.take(at) =~= s.take(at));
}

proof fn lemma_start_in_range(s: Seq<char>)
    ensures
        0 <= last_word_start(s) <= s.len(),
    decreases s.len(),
{
    if s.len() > 0 && !whitespace(s.last()) {
        lemma_start_in_range(s.drop_last());
    }
}

} // verus!
