//! What comes through of the day's feed.
use vstd::prelude::*;

use crate::prefetch::feed::better_title;
use crate::prefetch::feed::entries_of;
use crate::prefetch::feed::feed_of;
use crate::prefetch::feed::first_title;
use crate::prefetch::feed::headlines_of;
use crate::prefetch::feed::mostread_of;
use crate::prefetch::feed::news_of;
use crate::prefetch::feed::page_title;
use crate::prefetch::feed::stripped;
use crate::prefetch::feed::RawArticle;
use crate::prefetch::feed::RawFeed;
use crate::prefetch::feed::RawNewsItem;
use crate::prefetch::feed::RawPage;
use crate::prefetch::feed::FEED_EXTRACT_CAP;
use crate::prefetch::feed::FEED_TEXT_CAP;
use crate::sanitize::length_capped;
use crate::sanitize::sanitized;

verus! {

/// Places in a list of `n`, in order.
pub open spec fn rising(at: Seq<int>, n: int) -> bool {
    &&& forall|k: int| 0 <= k < at.len() ==> 0 <= #[trigger] at[k] < n
    &&& forall|j: int, k: int| 0 <= j < k < at.len() ==> #[trigger] at[j] < #[trigger] at[k]
}

/// The character stands outside every tag: it is no angle bracket, and each
/// bracket that opens before it closes before it.
pub open spec fn outside_tags(s: Seq<char>, i: int) -> bool {
    &&& s[i] != '<'
    &&& s[i] != '>'
    &&& forall|k: int|
        0 <= k < i && (#[trigger] s[k]) == '<' ==> exists|m: int| k < m < i && #[trigger] s[m]
            == '>'
}

/// The tag state: every opened bracket is closed.
proof fn lemma_in_tag(s: Seq<char>)
    ensures
        !stripped(s).in_tag <==> forall|k: int|
            0 <= k < s.len() && (#[trigger] s[k]) == '<' ==> exists|m: int|
                k < m < s.len() && #[trigger] s[m] == '>',
    decreases s.len(),
{
    if s.len() > 0 {
        let front = s.drop_last();
        let last = s.len() - 1;
        lemma_in_tag(front);
        let c = s[last];
        if c == '<' {
            assert(s[last] == '<');
            assert(!(exists|m: int| last < m < s.len() && #[trigger] s[m] == '>'));
        } else if c == '>' {
            assert forall|k: int| 0 <= k < s.len() && (#[trigger] s[k]) == '<' implies exists|
                m: int,
            |
                k < m < s.len() && #[trigger] s[m] == '>' by {
                assert(k < last && s[last] == '>');
            }
        } else {
            if !stripped(front).in_tag {
                assert forall|k: int| 0 <= k < s.len() && (#[trigger] s[k]) == '<' implies exists|
                    m: int,
                |
                    k < m < s.len() && #[trigger] s[m] == '>' by {
                    assert(front[k] == '<');
                    let m = choose|m: int| k < m < front.len() && #[trigger] front[m] == '>';
                    assert(s[m] == '>');
                }
            } else {
                let k = choose|k: int|
                    0 <= k < front.len() && (#[trigger] front[k]) == '<' && !(exists|m: int|
                        k < m < front.len() && #[trigger] front[m] == '>');
                assert(s[k] == '<');
                assert forall|m: int| k < m < s.len() implies #[trigger] s[m] != '>' by {
                    if m < last {
                        assert(front[m] == s[m]);
                    }
                }
            }
        }
    }
}

/// What is left of a text without its tags is every character that stands
/// outside them, in order.
pub proof fn text_outside_tags_is_kept(s: Seq<char>) -> (at: Seq<int>)
    ensures
        rising(at, s.len() as int),
        stripped(s).text.len() == at.len(),
        forall|k: int| 0 <= k < at.len() ==> stripped(s).text[k] == s[#[trigger] at[k]],
        forall|i: int| 0 <= i < s.len() ==> (at.contains(i) <==> #[trigger] outside_tags(s, i)),
    decreases s.len(),
{
    if s.len() == 0 {
        Seq::empty()
    } else {
        let front = s.drop_last();
        let last = s.len() - 1;
        let before = text_outside_tags_is_kept(front);
        lemma_in_tag(front);
        assert forall|i: int| 0 <= i < last implies #[trigger] outside_tags(s, i) == outside_tags(
            front,
            i,
        ) by {
            assert forall|k: int| 0 <= k < i implies front[k] == s[k] by {}
            assert(front[i] == s[i]);
            if outside_tags(front, i) {
                assert forall|k: int| 0 <= k < i && (#[trigger] s[k]) == '<' implies exists|
                    m: int,
                |
                    k < m < i && #[trigger] s[m] == '>' by {
                    assert(front[k] == '<');
                    let m = choose|m: int| k < m < i && #[trigger] front[m] == '>';
                    assert(s[m] == '>');
                }
            }
            if outside_tags(s, i) {
                assert forall|k: int| 0 <= k < i && (#[trigger] front[k]) == '<' implies exists|
                    m: int,
                |
                    k < m < i && #[trigger] front[m] == '>' by {
                    assert(s[k] == '<');
                    let m = choose|m: int| k < m < i && #[trigger] s[m] == '>';
                    assert(front[m] == '>');
                }
            }
        }
        let keep = s[last] != '<' && s[last] != '>' && !stripped(front).in_tag;
        assert(outside_tags(s, last) == keep) by {
            if keep {
                assert forall|k: int| 0 <= k < last && (#[trigger] s[k]) == '<' implies exists|
                    m: int,
                |
                    k < m < last && #[trigger] s[m] == '>' by {
                    assert(front[k] == '<');
                    let m = choose|m: int| k < m < front.len() && #[trigger] front[m] == '>';
                    assert(s[m] == '>');
                }
            } else if s[last] != '<' && s[last] != '>' {
                let k = choose|k: int|
                    0 <= k < front.len() && (#[trigger] front[k]) == '<' && !(exists|m: int|
                        k < m < front.len() && #[trigger] front[m] == '>');
                assert(s[k] == '<');
                assert forall|m: int| k < m < last implies #[trigger] s[m] != '>' by {
                    assert(front[m] == s[m]);
                }
            }
        }
        if keep {
            let at = before.push(last);
            assert forall|i: int| 0 <= i < s.len() implies (at.contains(i)
                <==> #[trigger] outside_tags(s, i)) by {
                if i < last {
                    assert(outside_tags(front, i) == outside_tags(s, i));
                    if before.contains(i) {
                        let k = before.index_of(i);
                        assert(at[k] == i);
                    }
                    if at.contains(i) {
                        let k = at.index_of(i);
                        assert(before[k] == i);
                    }
                } else {
                    assert(at[before.len() as int] == last);
                }
            }
            at
        } else {
            assert forall|i: int| 0 <= i < s.len() implies (before.contains(i)
                <==> #[trigger] outside_tags(s, i)) by {
                if i < last {
                    assert(outside_tags(front, i) == outside_tags(s, i));
                } else if before.contains(i) {
                    let k = before.index_of(i);
                    assert(before[k] < last);
                }
            }
            before
        }
    }
}

/// Whether a text is there and not empty.
pub open spec fn is_given(s: Option<String>) -> bool {
    s is Some && s->0@ != Seq::<char>::empty()
}

/// The title is the one with spaces where that is given, else the other one.
pub open spec fn is_title(normalized: Option<String>, title: Option<String>, t: Seq<char>) -> bool {
    if is_given(normalized) {
        t == normalized->0@
    } else {
        is_given(title) && t == title->0@
    }
}

proof fn lemma_title(normalized: Option<String>, title: Option<String>)
    ensures
        match better_title(
            crate::research::opt_view(normalized),
            crate::research::opt_view(title),
        ) {
            Some(t) => is_title(normalized, title, t),
            None => !is_given(normalized) && !is_given(title),
        },
{
    if let Some(s) = normalized {
        if s@.len() == 0 {
            assert(s@ =~= Seq::empty());
        }
    }
    if let Some(s) = title {
        if s@.len() == 0 {
            assert(s@ =~= Seq::empty());
        }
    }
}

/// The article that an entry leads to is the first of its pages with a title;
/// there is none where no page has one.
pub proof fn an_entry_leads_to_its_first_titled_page(pages: Seq<RawPage>) -> (i: int)
    ensures
        match first_title(pages) {
            Some(t) => {
                &&& 0 <= i < pages.len()
                &&& is_title(pages[i].normalizedtitle, pages[i].title, t)
                &&& forall|j: int|
                    0 <= j < i ==> !is_given((#[trigger] pages[j]).normalizedtitle) && !is_given(
                        pages[j].title,
                    )
            },
            None => forall|j: int|
                0 <= j < pages.len() ==> !is_given((#[trigger] pages[j]).normalizedtitle)
                    && !is_given(pages[j].title),
        },
    decreases pages.len(),
{
    if pages.len() == 0 {
        0
    } else {
        lemma_title(pages[0].normalizedtitle, pages[0].title);
        if page_title(pages[0]) is Some {
            0
        } else {
            let rest = pages.drop_first();
            let i = an_entry_leads_to_its_first_titled_page(rest);
            assert forall|j: int| 0 < j < pages.len() implies pages[j] == rest[j - 1] by {}
            if first_title(pages) is Some {
                assert forall|j: int| 0 <= j < i + 1 implies !is_given(
                    (#[trigger] pages[j]).normalizedtitle,
                ) && !is_given(pages[j].title) by {
                    if j > 0 {
                        assert(pages[j] == rest[j - 1]);
                    }
                }
            } else {
                assert forall|j: int| 0 <= j < pages.len() implies !is_given(
                    (#[trigger] pages[j]).normalizedtitle,
                ) && !is_given(pages[j].title) by {
                    if j > 0 {
                        assert(pages[j] == rest[j - 1]);
                    }
                }
            }
            i + 1
        }
    }
}

/// Every most-read article with a title is kept, in order, with its views; one
/// without is not.
pub proof fn titled_articles_are_kept(articles: Seq<RawArticle>) -> (at: Seq<int>)
    ensures
        rising(at, articles.len() as int),
        mostread_of(articles).len() == at.len(),
        forall|k: int|
            0 <= k < at.len() ==> {
                let a = articles[#[trigger] at[k]];
                &&& is_title(a.normalizedtitle, a.title, mostread_of(articles)[k].0)
                &&& mostread_of(articles)[k].1 == a.views
            },
        forall|i: int|
            0 <= i < articles.len() ==> (at.contains(i) <==> is_given(
                (#[trigger] articles[i]).normalizedtitle,
            ) || is_given(articles[i].title)),
    decreases articles.len(),
{
    if articles.len() == 0 {
        Seq::empty()
    } else {
        let front = articles.drop_last();
        let last = articles.len() - 1;
        let before = titled_articles_are_kept(front);
        let a = articles[last];
        lemma_title(a.normalizedtitle, a.title);
        let kept = is_given(a.normalizedtitle) || is_given(a.title);
        let at = if kept {
            before.push(last)
        } else {
            before
        };
        assert forall|k: int| 0 <= k < at.len() implies {
            let a = articles[#[trigger] at[k]];
            &&& is_title(a.normalizedtitle, a.title, mostread_of(articles)[k].0)
            &&& mostread_of(articles)[k].1 == a.views
        } by {
            if k < before.len() {
                assert(at[k] == before[k]);
                assert(articles[before[k]] == front[before[k]]);
            }
        }
        lemma_contains(before, at, last, kept);
        assert forall|i: int| 0 <= i < articles.len() implies (at.contains(i) <==> is_given(
            (#[trigger] articles[i]).normalizedtitle,
        ) || is_given(articles[i].title)) by {
            if i < last {
                assert(articles[i] == front[i]);
            }
        }
        at
    }
}

/// One more place at the end, or none.
pub proof fn lemma_contains(before: Seq<int>, at: Seq<int>, last: int, kept: bool)
    requires
        rising(before, last),
        0 <= last,
        at == if kept {
            before.push(last)
        } else {
            before
        },
    ensures
        rising(at, last + 1),
        forall|i: int| i < last ==> (at.contains(i) <==> before.contains(i)),
        at.contains(last) == kept,
{
    assert forall|i: int| i < last implies (at.contains(i) <==> before.contains(i)) by {
        if before.contains(i) {
            let k = before.index_of(i);
            assert(at[k] == i);
        }
        if at.contains(i) {
            let k = at.index_of(i);
            assert(k < before.len());
            assert(before[k] == i);
        }
    }
    assert forall|k: int| 0 <= k < at.len() implies 0 <= #[trigger] at[k] < last + 1 by {
        if k < before.len() {
            assert(at[k] == before[k]);
        }
    }
    assert forall|j: int, k: int| 0 <= j < k < at.len() implies #[trigger] at[j]
        < #[trigger] at[k] by {
        assert(at[j] == before[j]);
        if k < before.len() {
            assert(at[k] == before[k]);
        }
    }
    if kept {
        assert(at[before.len() as int] == last);
    } else if at.contains(last) {
        let k = at.index_of(last);
        assert(before[k] < last);
    }
}

/// Whether a piece of news has text to show: outside its tags, once what
/// cannot be shown is gone.
pub open spec fn has_story(item: RawNewsItem) -> bool {
    item.story is Some && shown_story(item).len() > 0
}

/// The text of a piece of news, cut to the length that is kept.
pub open spec fn shown_story(item: RawNewsItem) -> Seq<char> {
    length_capped(sanitized(stripped(item.story->0@).text, false), FEED_TEXT_CAP as nat)
}

/// Every piece of news with text to show is kept, in order, with the article
/// that it leads to; one without is not.
pub proof fn told_stories_are_kept(items: Seq<RawNewsItem>) -> (at: Seq<int>)
    ensures
        rising(at, items.len() as int),
        headlines_of(items).len() == at.len(),
        forall|k: int|
            0 <= k < at.len() ==> {
                let item = items[#[trigger] at[k]];
                &&& headlines_of(items)[k].headline == shown_story(item)
                &&& headlines_of(items)[k].page_title == first_title(item.links@)
            },
        forall|i: int|
            0 <= i < items.len() ==> (at.contains(i) <==> has_story(#[trigger] items[i])),
    decreases items.len(),
{
    if items.len() == 0 {
        Seq::empty()
    } else {
        let front = items.drop_last();
        let last = items.len() - 1;
        let before = told_stories_are_kept(front);
        let kept = has_story(items[last]);
        assert(kept == (news_of(items[last]) is Some));
        let at = if kept {
            before.push(last)
        } else {
            before
        };
        assert forall|k: int| 0 <= k < at.len() implies {
            let item = items[#[trigger] at[k]];
            &&& headlines_of(items)[k].headline == shown_story(item)
            &&& headlines_of(items)[k].page_title == first_title(item.links@)
        } by {
            if k < before.len() {
                assert(at[k] == before[k]);
                assert(items[before[k]] == front[before[k]]);
            }
        }
        lemma_contains(before, at, last, kept);
        assert forall|i: int| 0 <= i < items.len() implies (at.contains(i) <==> has_story(
            #[trigger] items[i],
        )) by {
            if i < last {
                assert(items[i] == front[i]);
            }
        }
        at
    }
}

/// A feed keeps the featured article and the picture of the day by their
/// titles, and every entry on this day, each with its year, its text and the
/// article that it leads to.
pub proof fn a_feed_keeps_its_day(raw: RawFeed)
    ensures
        ({
            let feed = feed_of(raw);
            &&& match raw.tfa {
                Some(p) => {
                    &&& match feed.tfa {
                        Some(t) => is_title(p.normalizedtitle, p.title, t),
                        None => !is_given(p.normalizedtitle) && !is_given(p.title),
                    }
                    &&& (feed.extract is Some) == (p.extract is Some)
                    &&& p.extract is Some ==> feed.extract == Some(
                        length_capped(sanitized(p.extract->0@, true), FEED_EXTRACT_CAP as nat),
                    )
                },
                None => feed.tfa is None && feed.extract is None,
            }
            &&& match raw.image {
                Some(p) => {
                    &&& match feed.potd {
                        Some(t) => is_title(p.normalizedtitle, p.title, t),
                        None => !is_given(p.normalizedtitle) && !is_given(p.title),
                    }
                    &&& (feed.potd_thumb_url is Some) == (p.thumbnail is Some)
                    &&& p.thumbnail is Some ==> feed.potd_thumb_url == Some(p.thumbnail->0@)
                },
                None => feed.potd is None && feed.potd_thumb_url is None,
            }
            &&& feed.onthisday.len() == raw.onthisday@.len()
            &&& feed.onthisday_events == raw.onthisday@.len()
            &&& forall|i: int|
                0 <= i < raw.onthisday@.len() ==> {
                    let item = raw.onthisday@[i];
                    let entry = #[trigger] feed.onthisday[i];
                    &&& entry.page_title == first_title(item.pages@)
                    &&& item.text is Some ==> entry.text == length_capped(
                        sanitized(item.text->0@, false),
                        FEED_TEXT_CAP as nat,
                    )
                    &&& (entry.year is Some) == (item.year is Some)
                    &&& item.year is Some && i32::MIN <= item.year->0 <= i32::MAX
                        ==> entry.year->0 == item.year->0
                }
        }),
{
    if let Some(p) = raw.tfa {
        lemma_title(p.normalizedtitle, p.title);
    }
    if let Some(p) = raw.image {
        lemma_title(p.normalizedtitle, p.title);
    }
    let feed = feed_of(raw);
    assert(feed.onthisday =~= entries_of(raw.onthisday@));
}

} // verus!
