//! Laws of finding things: the first match decides, and nothing else changes.
use vstd::prelude::*;

use crate::line_file::first_hit;
use crate::line_file::lemma_first_hit;
use crate::line_file::rewritten;
use crate::random::assessed_good;
use crate::random::first_good;
use crate::random::picked;
use crate::random::PickModel;
use crate::random::QualityClass;
use crate::research::citation_hits;
use crate::research::page_address;
use crate::research::CitationModel;
use crate::research::SavedCitation;
use crate::search_ops::completed;
use crate::search_ops::last_word_start;
use crate::search_ops::operator_names;
use crate::search_ops::starting;
use crate::text::decimal;
use crate::text::has_prefix;
use crate::text::lowercase;
use crate::text::whitespace;
use crate::text_laws::decimal_reads_back;
use crate::text_laws::is_numeral;
use crate::text_laws::number_read;
use crate::toml_text::table_under;
use crate::toml_text::text_under;
use crate::toml_text::EntryModel;
use crate::toml_text::LineModel;
use crate::toml_text::ValueModel;

verus! {

/// Place `i` is the first of which `hits` is true.
pub open spec fn is_first(hits: Seq<bool>, i: int) -> bool {
    &&& 0 <= i < hits.len()
    &&& hits[i]
    &&& forall|j: int| 0 <= j < i ==> !(#[trigger] hits[j])
}

/// Changing a record changes the first line that holds it and no other: each
/// line before stays in its place, each line after stays or, where the line is
/// taken out, moves up by one. Nothing is written where no line holds it.
pub proof fn only_the_first_match_changes(
    lines: Seq<Seq<char>>,
    hits: Seq<bool>,
    by: Option<Seq<char>>,
) -> (i: int)
    requires
        hits.len() == lines.len(),
    ensures
        match rewritten(lines, hits, by) {
            Some(out) => {
                &&& is_first(hits, i)
                &&& match by {
                    Some(line) => {
                        &&& out.len() == lines.len()
                        &&& out[i] == line
                        &&& forall|j: int|
                            0 <= j < lines.len() && j != i ==> #[trigger] out[j] == lines[j]
                    },
                    None => {
                        &&& out.len() == lines.len() - 1
                        &&& forall|j: int| 0 <= j < i ==> #[trigger] out[j] == lines[j]
                        &&& forall|j: int|
                            i <= j < out.len() ==> #[trigger] out[j] == lines[j + 1]
                    },
                }
            },
            None => forall|j: int| 0 <= j < hits.len() ==> !(#[trigger] hits[j]),
        },
{
    lemma_first_hit(hits);
    first_hit(hits)
}

/// A line holds a citation where it was read and holds the same.
pub proof fn a_line_holds_what_was_read(
    parsed: Seq<Option<SavedCitation>>,
    target: CitationModel,
)
    ensures
        citation_hits(parsed, target).len() == parsed.len(),
        forall|i: int|
            0 <= i < parsed.len() ==> (#[trigger] citation_hits(parsed, target)[i] <==> parsed[i]
                is Some && parsed[i]->0@ == target),
{
}

/// The address of a revision ends with its number.
pub proof fn a_permalink_names_its_revision(
    title: Seq<char>,
    lang: Seq<char>,
    revid: nat,
) -> (digits: Seq<char>)
    ensures
        is_numeral(digits),
        number_read(digits) == revid,
        page_address(title, lang, "&oldid="@ + decimal(revid)) == page_address(
            title,
            lang,
            "&oldid="@,
        ) + digits,
{
    decimal_reads_back(revid);
    let digits = decimal(revid);
    assert(page_address(title, lang, "&oldid="@ + decimal(revid)) =~= page_address(
        title,
        lang,
        "&oldid="@,
    ) + digits);
    digits
}

/// The title's first assessment is a good article or better.
pub open spec fn is_listed_good(
    assessments: Seq<(String, QualityClass)>,
    title: Seq<char>,
    k: int,
) -> bool {
    &&& 0 <= k < assessments.len()
    &&& assessments[k].0@ == title
    &&& forall|j: int| 0 <= j < k ==> (#[trigger] assessments[j]).0@ != title
    &&& match assessments[k].1 {
        QualityClass::Fa | QualityClass::Fl | QualityClass::A | QualityClass::Ga => true,
        _ => false,
    }
}

proof fn lemma_listed(assessments: Seq<(String, QualityClass)>, title: Seq<char>)
    ensures
        assessed_good(assessments, title) <==> exists|k: int| #[trigger]
            is_listed_good(assessments, title, k),
    decreases assessments.len(),
{
    if assessments.len() > 0 {
        let rest = assessments.drop_first();
        lemma_listed(rest, title);
        if assessments[0].0@ == title {
            if assessed_good(assessments, title) {
                assert(is_listed_good(assessments, title, 0));
            } else if exists|k: int| #[trigger] is_listed_good(assessments, title, k) {
                let k = choose|k: int| #[trigger] is_listed_good(assessments, title, k);
                if k > 0 {
                    assert(assessments[0].0@ != title);
                }
            }
        } else {
            if assessed_good(assessments, title) {
                let k = choose|k: int| #[trigger] is_listed_good(rest, title, k);
                assert forall|j: int| 0 <= j < k + 1 implies (#[trigger] assessments[j]).0@
                    != title by {
                    if j > 0 {
                        assert(rest[j - 1] == assessments[j]);
                    }
                }
                assert(is_listed_good(assessments, title, k + 1));
            }
            if exists|k: int| #[trigger] is_listed_good(assessments, title, k) {
                let k = choose|k: int| #[trigger] is_listed_good(assessments, title, k);
                assert forall|j: int| 0 <= j < k - 1 implies (#[trigger] rest[j]).0@
                    != title by {
                    assert(rest[j] == assessments[j + 1]);
                }
                assert(is_listed_good(rest, title, k - 1));
            }
        }
    }
}

/// A batch gives its first good title: one is found exactly where some title
/// of the batch is good, and then no title before it is. Where none is good
/// the first title is fallen back on.
pub proof fn the_first_good_title_is_picked(
    titles: Seq<Seq<char>>,
    assessments: Seq<(String, QualityClass)>,
) -> (i: int)
    ensures
        match picked(titles, assessments) {
            PickModel::Found(t) => {
                &&& 0 <= i < titles.len()
                &&& titles[i] == t
                &&& exists|k: int| #[trigger] is_listed_good(assessments, t, k)
                &&& forall|j: int, k: int|
                    0 <= j < i ==> !(#[trigger] is_listed_good(assessments, titles[j], k))
            },
            PickModel::Fallback(t) => {
                &&& titles.len() > 0
                &&& t == titles[0]
                &&& forall|j: int, k: int|
                    0 <= j < titles.len() ==> !(#[trigger] is_listed_good(
                        assessments,
                        titles[j],
                        k,
                    ))
            },
            PickModel::Empty => titles.len() == 0,
        },
    decreases titles.len(),
{
    if titles.len() == 0 {
        0
    } else {
        lemma_listed(assessments, titles[0]);
        if assessed_good(assessments, titles[0]) {
            0
        } else {
            let rest = titles.drop_first();
            let i = the_first_good_title_is_picked(rest, assessments);
            assert forall|j: int| 0 < j < titles.len() implies titles[j] == rest[j - 1] by {}
            if first_good(titles, assessments) is Some {
                assert forall|j: int, k: int| 0 <= j < i + 1 implies !(
                #[trigger] is_listed_good(assessments, titles[j], k)) by {
                    if j > 0 {
                        assert(!is_listed_good(assessments, rest[j - 1], k));
                    }
                }
            } else {
                assert forall|j: int, k: int| 0 <= j < titles.len() implies !(
                #[trigger] is_listed_good(assessments, titles[j], k)) by {
                    if j > 0 {
                        assert(!is_listed_good(assessments, rest[j - 1], k));
                    }
                }
            }
            i + 1
        }
    }
}

/// The last word of a query: no whitespace in it, and whitespace or nothing
/// before it.
pub open spec fn is_last_word(s: Seq<char>, at: int) -> bool {
    &&& 0 <= at <= s.len()
    &&& at > 0 ==> whitespace(s[at - 1])
    &&& forall|i: int| at <= i < s.len() ==> !whitespace(#[trigger] s[i])
}

proof fn lemma_last_word(s: Seq<char>)
    ensures
        is_last_word(s, last_word_start(s)),
    decreases s.len(),
{
    if s.len() > 0 && !whitespace(s.last()) {
        let front = s.drop_last();
        lemma_last_word(front);
        let at = last_word_start(s);
        if at > 0 {
            assert(s[at - 1] == front[at - 1]);
        }
        assert forall|i: int| at <= i < s.len() implies !whitespace(#[trigger] s[i]) by {
            if i < front.len() {
                assert(front[i] == s[i]);
            }
        }
    } else if s.len() > 0 {
        assert(s[s.len() - 1] == s.last());
    }
}

proof fn lemma_starting(names: Seq<Seq<char>>, p: Seq<char>)
    ensures
        starting(names, p).len() == 0 <==> (forall|i: int|
            0 <= i < names.len() ==> !has_prefix(#[trigger] names[i], p)),
        starting(names, p).len() == 1 ==> exists|i: int| #[trigger]
            is_only(names, p, i) && starting(names, p)[0] == names[i],
        starting(names, p).len() > 1 ==> exists|i: int, j: int|
            0 <= i < j < names.len() && has_prefix(#[trigger] names[i], p) && has_prefix(
                #[trigger] names[j],
                p,
            ),
    decreases names.len(),
{
    if names.len() > 0 {
        let front = names.drop_last();
        let last = names.len() - 1;
        lemma_starting(front, p);
        assert(names[last] == names.last());
        assert forall|i: int| 0 <= i < last implies names[i] == front[i] by {}
        let n = starting(front, p).len();
        let hit = has_prefix(names[last], p);
        if n == 0 {
            assert forall|i: int| 0 <= i < last implies !has_prefix(#[trigger] names[i], p) by {
                assert(front[i] == names[i]);
            }
            if hit {
                assert(is_only(names, p, last));
            }
        } else {
            let k = choose|k: int|
                0 <= k < front.len() && has_prefix(#[trigger] front[k], p);
            assert(names[k] == front[k]);
            if n == 1 && !hit {
                let i = choose|i: int| #[trigger]
                    is_only(front, p, i) && starting(front, p)[0] == front[i];
                assert(is_only(names, p, i)) by {
                    assert forall|j: int| 0 <= j < names.len() && j != i implies !has_prefix(
                        #[trigger] names[j],
                        p,
                    ) by {
                        if j < last {
                            assert(front[j] == names[j]);
                        }
                    }
                }
            }
            if n > 1 {
                let (i, j) = choose|i: int, j: int|
                    0 <= i < j < front.len() && has_prefix(#[trigger] front[i], p) && has_prefix(
                        #[trigger] front[j],
                        p,
                    );
                assert(names[i] == front[i] && names[j] == front[j]);
            }
        }
    }
}

/// Name `i` is the only one that starts with the text.
pub open spec fn is_only(names: Seq<Seq<char>>, p: Seq<char>, i: int) -> bool {
    &&& 0 <= i < names.len()
    &&& has_prefix(names[i], p)
    &&& forall|j: int| 0 <= j < names.len() && j != i ==> !has_prefix(#[trigger] names[j], p)
}

/// A query is completed where its last word is not empty, holds no colon, and
/// is, in any case of letters, the start of one operator and of no other: that
/// operator and a colon then stand in the word's place, and the rest of the
/// query stays. Any other query is left alone.
pub proof fn the_one_operator_is_completed(s: Seq<char>) -> (r: (int, int))
    ensures
        ({
            let (at, i) = r;
            let word = s.skip(at);
            let names = operator_names();
            &&& is_last_word(s, at)
            &&& match completed(s) {
                Some(t) => {
                    &&& word.len() > 0
                    &&& !word.contains(':')
                    &&& is_only(names, lowercase(word), i)
                    &&& t == s.take(at) + names[i] + seq![':']
                },
                None => word.len() == 0 || word.contains(':') || forall|k: int|
                    !(#[trigger] is_only(names, lowercase(word), k)),
            }
        }),
{
    let at = last_word_start(s);
    lemma_last_word(s);
    let word = s.skip(at);
    let names = operator_names();
    let p = lowercase(word);
    lemma_starting(names, p);
    reveal_strlit(":");
    let found = starting(names, p);
    if found.len() == 1 {
        let i = choose|i: int| #[trigger] is_only(names, p, i) && found[0] == names[i];
        assert(s.take(at) + names[i] + ":"@ =~= s.take(at) + names[i] + seq![':']);
        (at, i)
    } else {
        assert forall|k: int| !(#[trigger] is_only(names, p, k)) by {
            if is_only(names, p, k) {
                if found.len() == 0 {
                    assert(!has_prefix(names[k], p));
                } else {
                    let (i, j) = choose|i: int, j: int|
                        0 <= i < j < names.len() && has_prefix(#[trigger] names[i], p)
                            && has_prefix(#[trigger] names[j], p);
                    if i == k {
                        assert(!has_prefix(names[j], p));
                    } else {
                        assert(!has_prefix(names[i], p));
                    }
                }
            }
        }
        (at, 0)
    }
}

/// A key's table is that of its first entry; a key that is not there, or whose
/// first entry is no table, has none.
pub proof fn the_first_entry_decides(entries: Seq<EntryModel>, key: Seq<char>, i: int)
    requires
        0 <= i < entries.len(),
        entries[i].key == key,
        forall|j: int| 0 <= j < i ==> (#[trigger] entries[j]).key != key,
    ensures
        match entries[i].value {
            ValueModel::Table(lines) => table_under(entries, key) == Some(lines),
            _ => table_under(entries, key) is None,
        },
    decreases entries.len(),
{
    if i > 0 {
        let rest = entries.drop_first();
        assert(rest[i - 1] == entries[i]);
        assert forall|j: int| 0 <= j < i - 1 implies (#[trigger] rest[j]).key != key by {
            assert(rest[j] == entries[j + 1]);
        }
        assert(entries[0].key != key);
        the_first_entry_decides(rest, key, i - 1);
    }
}

/// A key that no entry has holds no table.
pub proof fn an_absent_key_has_no_table(entries: Seq<EntryModel>, key: Seq<char>)
    requires
        forall|j: int| 0 <= j < entries.len() ==> (#[trigger] entries[j]).key != key,
    ensures
        table_under(entries, key) is None,
    decreases entries.len(),
{
    if entries.len() > 0 {
        let rest = entries.drop_first();
        assert forall|j: int| 0 <= j < rest.len() implies (#[trigger] rest[j]).key != key by {
            assert(rest[j] == entries[j + 1]);
        }
        assert(entries[0].key != key);
        an_absent_key_has_no_table(rest, key);
    }
}

/// A key's text is that of its first line; a key that is not there has none.
pub proof fn the_first_line_decides(lines: Seq<LineModel>, key: Seq<char>, i: int)
    requires
        0 <= i <= lines.len(),
        i < lines.len() ==> lines[i].key == key,
        forall|j: int| 0 <= j < i ==> (#[trigger] lines[j]).key != key,
    ensures
        text_under(lines, key) == (if i < lines.len() {
            lines[i].text
        } else {
            None
        }),
    decreases lines.len(),
{
    if i > 0 {
        let rest = lines.drop_first();
        if i < lines.len() {
            assert(rest[i - 1] == lines[i]);
        }
        assert forall|j: int| 0 <= j < i - 1 implies (#[trigger] rest[j]).key != key by {
            assert(rest[j] == lines[j + 1]);
        }
        assert(lines[0].key != key);
        the_first_line_decides(rest, key, i - 1);
    }
}

} // verus!
