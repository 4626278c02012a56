//! Which jobs are the same work.
use vstd::prelude::*;

use crate::netqueue::jobs::seed_titles;
use crate::netqueue::jobs::tagged;
use crate::netqueue::jobs::Job;
use crate::text::decimal;
use crate::text_laws::decimal_reads_back;
use crate::text_laws::is_digit;
use crate::text_laws::number_read;
use crate::word_laws::order_makes_lists_the_same;
use crate::word_laws::sorting_orders_the_same_texts;

verus! {

/// Two texts that are each cut at their first colon are cut alike.
proof fn lemma_cut_at_colon(a: Seq<char>, x: Seq<char>, b: Seq<char>, y: Seq<char>)
    requires
        !a.contains(':'),
        !b.contains(':'),
        a.push(':') + x == b.push(':') + y,
    ensures
        a == b,
        x == y,
{
    let s = a.push(':') + x;
    let t = b.push(':') + y;
    if a.len() < b.len() {
        assert(s[a.len() as int] == ':');
        assert(t[a.len() as int] == b[a.len() as int]);
        assert(b.contains(b[a.len() as int]));
    } else if b.len() < a.len() {
        assert(t[b.len() as int] == ':');
        assert(s[b.len() as int] == a[b.len() as int]);
        assert(a.contains(a[b.len() as int]));
    }
    assert forall|i: int| 0 <= i < a.len() implies a[i] == b[i] by {
        assert(s[i] == t[i]);
    }
    assert(a =~= b);
    assert(s.len() == t.len());
    assert forall|i: int| 0 <= i < x.len() implies x[i] == y[i] by {
        assert(s[a.len() + 1 + i] == t[a.len() + 1 + i]);
    }
    assert(x =~= y);
}

proof fn lemma_tagged(
    tag: Seq<char>,
    lang: Seq<char>,
    name: Seq<char>,
    other_lang: Seq<char>,
    other_name: Seq<char>,
)
    requires
        !lang.contains(':'),
        !other_lang.contains(':'),
        tagged(tag, lang, name) == tagged(tag, other_lang, other_name),
    ensures
        lang == other_lang,
        name == other_name,
{
    let n = tag.len() as int;
    let s = tagged(tag, lang, name);
    let t = tagged(tag, other_lang, other_name);
    assert(s.skip(n) =~= lang.push(':') + name);
    assert(t.skip(n) =~= other_lang.push(':') + other_name);
    lemma_cut_at_colon(lang, name, other_lang, other_name);
}

/// Two jobs of one kind are the same work only where they are for the same
/// language and the same page or day; loads into tabs only where they are also
/// for the same tab. A language's code holds no colon.
pub proof fn work_is_told_apart(a: Job, b: Job)
    requires
        a.key() == b.key(),
    ensures
        match (a, b) {
            (
                Job::Revalidate { lang: l, title: t, .. },
                Job::Revalidate { lang: m, title: u, .. },
            ) => !l@.contains(':') && !m@.contains(':') ==> l@ == m@ && t@ == u@,
            (
                Job::LoadTab { tab_id: i, lang: l, title: t, .. },
                Job::LoadTab { tab_id: j, lang: m, title: u, .. },
            ) => !l@.contains(':') && !m@.contains(':') ==> i == j && l@ == m@ && t@ == u@,
            (
                Job::PrefetchArticle { lang: l, title: t, .. },
                Job::PrefetchArticle { lang: m, title: u, .. },
            ) => !l@.contains(':') && !m@.contains(':') ==> l@ == m@ && t@ == u@,
            (
                Job::RankLinks { lang: l, article_title: t, .. },
                Job::RankLinks { lang: m, article_title: u, .. },
            ) => !l@.contains(':') && !m@.contains(':') ==> l@ == m@ && t@ == u@,
            (Job::Featured { lang: l, date: t }, Job::Featured { lang: m, date: u }) => !l@.contains(
                ':',
            ) && !m@.contains(':') ==> l@ == m@ && t@ == u@,
            (Job::InterestMorelike { lang: l, .. }, Job::InterestMorelike { lang: m, .. }) =>
                !l@.contains(':') && !m@.contains(':') ==> l@ == m@,
            _ => true,
        },
{
    match (a, b) {
        (
            Job::Revalidate { lang: l, title: t, .. },
            Job::Revalidate { lang: m, title: u, .. },
        ) => {
            if !l@.contains(':') && !m@.contains(':') {
                lemma_tagged("rv:"@, l@, t@, m@, u@);
            }
        },
        (
            Job::LoadTab { tab_id: i, lang: l, title: t, .. },
            Job::LoadTab { tab_id: j, lang: m, title: u, .. },
        ) => {
            if !l@.contains(':') && !m@.contains(':') {
                lemma_tab(i, l@, t@, j, m@, u@);
            }
        },
        (
            Job::PrefetchArticle { lang: l, title: t, .. },
            Job::PrefetchArticle { lang: m, title: u, .. },
        ) => {
            if !l@.contains(':') && !m@.contains(':') {
                lemma_tagged("pf:"@, l@, t@, m@, u@);
            }
        },
        (
            Job::RankLinks { lang: l, article_title: t, .. },
            Job::RankLinks { lang: m, article_title: u, .. },
        ) => {
            if !l@.contains(':') && !m@.contains(':') {
                lemma_tagged("rl:"@, l@, t@, m@, u@);
            }
        },
        (Job::Featured { lang: l, date: t }, Job::Featured { lang: m, date: u }) => {
            if !l@.contains(':') && !m@.contains(':') {
                lemma_tagged("ft:"@, l@, t@, m@, u@);
            }
        },
        (
            Job::InterestMorelike { lang: l, seeds: p },
            Job::InterestMorelike { lang: m, seeds: q },
        ) => {
            if !l@.contains(':') && !m@.contains(':') {
                let x = crate::text::joined_with(
                    crate::text::sorted_texts(seed_titles(p@)),
                    "|"@,
                );
                let y = crate::text::joined_with(
                    crate::text::sorted_texts(seed_titles(q@)),
                    "|"@,
                );
                lemma_tagged("im:"@, l@, x, m@, y);
            }
        },
        _ => {},
    }
}

proof fn lemma_digits_have_no_colon(n: nat)
    ensures
        !decimal(n).contains(':'),
{
    decimal_reads_back(n);
    let d = decimal(n);
    if d.contains(':') {
        let i = d.index_of(':');
        assert(is_digit(d[i]));
    }
}

proof fn lemma_tab(i: u64, l: Seq<char>, t: Seq<char>, j: u64, m: Seq<char>, u: Seq<char>)
    requires
        !l.contains(':'),
        !m.contains(':'),
        tagged("tl:"@, decimal(i as nat).push(':') + l, t) == tagged(
            "tl:"@,
            decimal(j as nat).push(':') + m,
            u,
        ),
    ensures
        i == j,
        l == m,
        t == u,
{
    let (d, e) = (decimal(i as nat), decimal(j as nat));
    lemma_digits_have_no_colon(i as nat);
    lemma_digits_have_no_colon(j as nat);
    decimal_reads_back(i as nat);
    decimal_reads_back(j as nat);
    let tag = "tl:"@;
    let n = tag.len() as int;
    let s = tagged(tag, d.push(':') + l, t);
    let r = tagged(tag, e.push(':') + m, u);
    assert(s.skip(n) =~= d.push(':') + (l.push(':') + t));
    assert(r.skip(n) =~= e.push(':') + (m.push(':') + u));
    lemma_cut_at_colon(d, l.push(':') + t, e, m.push(':') + u);
    assert(number_read(d) == number_read(e));
    lemma_cut_at_colon(l, t, m, u);
}

/// Looking for pages like the same ones is the same work, in whatever order
/// they are named.
pub proof fn seeds_are_the_same_in_any_order(a: Job, b: Job)
    requires
        a is InterestMorelike,
        b is InterestMorelike,
        a->InterestMorelike_lang@ == b->InterestMorelike_lang@,
        seed_titles(a->seeds@).to_multiset() == seed_titles(b->seeds@).to_multiset(),
    ensures
        a.key() == b.key(),
{
    let (x, y) = (seed_titles(a->seeds@), seed_titles(b->seeds@));
    sorting_orders_the_same_texts(x);
    sorting_orders_the_same_texts(y);
    order_makes_lists_the_same(
        crate::text::sorted_texts(x),
        crate::text::sorted_texts(y),
    );
}

/// Checking an article again is the same work whichever tab and revision asked
/// for it, and fetching one ahead whatever the reason.
pub proof fn asking_twice_is_the_same_work(a: Job, b: Job)
    ensures
        match (a, b) {
            (
                Job::Revalidate { lang: l, title: t, .. },
                Job::Revalidate { lang: m, title: u, .. },
            ) => l@ == m@ && t@ == u@ ==> a.key() == b.key(),
            (
                Job::PrefetchArticle { lang: l, title: t, .. },
                Job::PrefetchArticle { lang: m, title: u, .. },
            ) => l@ == m@ && t@ == u@ ==> a.key() == b.key(),
            (
                Job::RankLinks { lang: l, article_title: t, .. },
                Job::RankLinks { lang: m, article_title: u, .. },
            ) => l@ == m@ && t@ == u@ ==> a.key() == b.key(),
            _ => true,
        },
{
}

} // verus!
