//! The day's feed: what is kept of it, and that it is fetched once a day.
use crate::research::opt_view;
use crate::sanitize::{
    length_capped, sanitize_and_cap_multiline, sanitize_and_cap_single_line, sanitized,
};
use crate::text::{chars_of, same_str, views};
use vstd::prelude::*;

verus! {

/// How many characters of a headline or an entry are kept.
pub const FEED_TEXT_CAP: usize = 220;

/// How many characters of the featured article's extract are kept.
pub const FEED_EXTRACT_CAP: usize = 600;

/// A page as the feed describes it.
pub struct RawPage {
    pub title: Option<String>,
    pub normalizedtitle: Option<String>,
    pub extract: Option<String>,
    /// Where its picture is.
    pub thumbnail: Option<String>,
}

/// A most-read article as the feed describes it.
pub struct RawArticle {
    pub title: Option<String>,
    pub normalizedtitle: Option<String>,
    pub views: u64,
}

/// A piece of news as the feed describes it.
pub struct RawNewsItem {
    pub story: Option<String>,
    pub links: Vec<RawPage>,
}

/// An entry on this day as the feed describes it.
pub struct RawOnThisDayItem {
    pub text: Option<String>,
    pub year: Option<i64>,
    pub pages: Vec<RawPage>,
}

/// The feed as it came.
pub struct RawFeed {
    pub tfa: Option<RawPage>,
    pub mostread: Vec<RawArticle>,
    pub image: Option<RawPage>,
    pub news: Vec<RawNewsItem>,
    pub onthisday: Vec<RawOnThisDayItem>,
}

/// A text where there is one and it is not empty.
pub open spec fn filled(s: Option<Seq<char>>) -> Option<Seq<char>> {
    match s {
        Some(t) => if t.len() > 0 {
            Some(t)
        } else {
            None
        },
        None => None,
    }
}

/// The title to fetch a page by: the one with spaces, else the one with
/// underscores.
pub open spec fn better_title(normalized: Option<Seq<char>>, title: Option<Seq<char>>) -> Option<
    Seq<char>,
> {
    match filled(normalized) {
        Some(t) => Some(t),
        None => filled(title),
    }
}

/// The title to fetch a page by.
pub open spec fn page_title(p: RawPage) -> Option<Seq<char>> {
    better_title(opt_view(p.normalizedtitle), opt_view(p.title))
}

/// The first page with a title.
pub open spec fn first_title(pages: Seq<RawPage>) -> Option<Seq<char>>
    decreases pages.len(),
{
    if pages.len() == 0 {
        None
    } else {
        match page_title(pages[0]) {
            Some(t) => Some(t),
            None => first_title(pages.drop_first()),
        }
    }
}

/// What stands outside the tags, and whether the end stands inside one.
#[verifier::ext_equal]
pub struct Stripped {
    pub text: Seq<char>,
    pub in_tag: bool,
}

/// A text without its tags. A tag that is never closed takes the rest with it.
pub open spec fn stripped(s: Seq<char>) -> Stripped
    decreases s.len(),
{
    if s.len() == 0 {
        Stripped { text: Seq::empty(), in_tag: false }
    } else {
        let before = stripped(s.drop_last());
        let c = s.last();
        if c == '<' {
            Stripped { text: before.text, in_tag: true }
        } else if c == '>' {
            Stripped { text: before.text, in_tag: false }
        } else if before.in_tag {
            before
        } else {
            Stripped { text: before.text.push(c), in_tag: false }
        }
    }
}

/// A text without its tags.
pub fn strip_tags(s: &str) -> (r: String)
    ensures
        r@ == stripped(s@).text,
{
    let cs = chars_of(s);
    let n: usize = cs.len();
    let mut out = String::new();
    let mut in_tag = false;
    for i in 0..n
        invariant
            n == cs.len(),
            cs@ == s@,
            out@ == stripped(s@.take(i as int)).text,
            in_tag == stripped(s@.take(i as int)).in_tag,
    {
        proof { assert(s@.take(i + 1).drop_last() =~= s@.take(i as int)); }
        let c = cs[i];
        if c == '<' {
            in_tag = true;
        } else if c == '>' {
            in_tag = false;
        } else if !in_tag {
            out.push(c);
        }
    }
    proof { assert(s@.take(n as int) =~= s@); }
    out
}

/// What is left of a text holds no angle bracket.
pub proof fn stripped_text_holds_no_tag(s: Seq<char>)
    ensures
        !stripped(s).text.contains('<'),
        !stripped(s).text.contains('>'),
    decreases s.len(),
{
    if s.len() > 0 {
        stripped_text_holds_no_tag(s.drop_last());
        let before = stripped(s.drop_last()).text;
        let all = stripped(s).text;
        assert forall|i: int| 0 <= i < all.len() implies all[i] != '<' && all[i] != '>' by {
            if i < before.len() {
                assert(all[i] == before[i]);
                assert(before.contains(before[i]));
            }
        }
    }
}

/// A most-read article.
#[derive(Debug, Clone, PartialEq)]
pub struct MostRead {
    pub title: String,
    pub views: u64,
}

/// An entry on this day, with the article it leads to.
#[derive(Debug, Clone, PartialEq)]
pub struct OtdEntry {
    pub year: Option<i32>,
    pub text: String,
    pub page_title: Option<String>,
}

/// A headline, with the article it leads to.
#[derive(Debug, Clone, PartialEq)]
pub struct NewsItem {
    pub headline: String,
    pub page_title: Option<String>,
}

impl View for MostRead {
    type V = (Seq<char>, u64);

    open spec fn view(&self) -> (Seq<char>, u64) {
        (self.title@, self.views)
    }
}

/// An entry's contents.
#[verifier::ext_equal]
pub struct OtdModel {
    pub year: Option<i32>,
    pub text: Seq<char>,
    pub page_title: Option<Seq<char>>,
}

impl View for OtdEntry {
    type V = OtdModel;

    open spec fn view(&self) -> OtdModel {
        OtdModel { year: self.year, text: self.text@, page_title: opt_view(self.page_title) }
    }
}

/// A headline's contents.
#[verifier::ext_equal]
pub struct NewsModel {
    pub headline: Seq<char>,
    pub page_title: Option<Seq<char>>,
}

impl View for NewsItem {
    type V = NewsModel;

    open spec fn view(&self) -> NewsModel {
        NewsModel { headline: self.headline@, page_title: opt_view(self.page_title) }
    }
}

/// What is kept of the day's feed.
#[derive(Debug, Clone, PartialEq)]
pub struct FeaturedFeed {
    /// The featured article's title.
    pub tfa: Option<String>,
    /// The featured article's extract.
    pub extract: Option<String>,
    /// The most-read articles in their order.
    pub mostread: Vec<MostRead>,
    /// The picture of the day's title.
    pub potd: Option<String>,
    /// Where the picture of the day is.
    pub potd_thumb_url: Option<String>,
    pub news: Vec<NewsItem>,
    pub onthisday: Vec<OtdEntry>,
    /// How many entries there are on this day.
    pub onthisday_events: usize,
}

/// A feed's contents.
#[verifier::ext_equal]
pub struct FeedModel {
    pub tfa: Option<Seq<char>>,
    pub extract: Option<Seq<char>>,
    pub mostread: Seq<(Seq<char>, u64)>,
    pub potd: Option<Seq<char>>,
    pub potd_thumb_url: Option<Seq<char>>,
    pub news: Seq<NewsModel>,
    pub onthisday: Seq<OtdModel>,
    pub onthisday_events: nat,
}

impl View for FeaturedFeed {
    type V = FeedModel;

    open spec fn view(&self) -> FeedModel {
        FeedModel {
            tfa: opt_view(self.tfa),
            extract: opt_view(self.extract),
            mostread: views(self.mostread@),
            potd: opt_view(self.potd),
            potd_thumb_url: opt_view(self.potd_thumb_url),
            news: views(self.news@),
            onthisday: views(self.onthisday@),
            onthisday_events: self.onthisday_events as nat,
        }
    }
}

/// A feed that holds nothing.
pub open spec fn empty_feed() -> FeedModel {
    FeedModel {
        tfa: None,
        extract: None,
        mostread: Seq::empty(),
        potd: None,
        potd_thumb_url: None,
        news: Seq::empty(),
        onthisday: Seq::empty(),
        onthisday_events: 0,
    }
}

impl Default for FeaturedFeed {
    fn default() -> (r: FeaturedFeed)
        ensures
            r@ == empty_feed(),
    {
        let r = FeaturedFeed {
            tfa: None,
            extract: None,
            mostread: Vec::new(),
            potd: None,
            potd_thumb_url: None,
            news: Vec::new(),
            onthisday: Vec::new(),
            onthisday_events: 0,
        };
        proof { assert(r@ =~= empty_feed()); }
        r
    }
}

/// What is kept of an entry on this day.
pub open spec fn otd_of(item: RawOnThisDayItem) -> OtdModel {
    OtdModel {
        year: match item.year {
            Some(y) => Some(y as i32),
            None => None,
        },
        text: length_capped(
            sanitized(
                match item.text {
                    Some(t) => t@,
                    None => Seq::empty(),
                },
                false,
            ),
            FEED_TEXT_CAP as nat,
        ),
        page_title: first_title(item.pages@),
    }
}

/// What is kept of a piece of news; nothing where no text is left.
pub open spec fn news_of(item: RawNewsItem) -> Option<NewsModel> {
    match item.story {
        None => None,
        Some(story) => {
            let headline = length_capped(
                sanitized(stripped(story@).text, false),
                FEED_TEXT_CAP as nat,
            );
            if headline.len() == 0 {
                None
            } else {
                Some(NewsModel { headline, page_title: first_title(item.links@) })
            }
        },
    }
}

/// The entries on this day.
pub open spec fn entries_of(items: Seq<RawOnThisDayItem>) -> Seq<OtdModel> {
    items.map_values(|i: RawOnThisDayItem| otd_of(i))
}

/// The headlines that are kept.
pub open spec fn headlines_of(items: Seq<RawNewsItem>) -> Seq<NewsModel>
    decreases items.len(),
{
    if items.len() == 0 {
        Seq::empty()
    } else {
        let before = headlines_of(items.drop_last());
        match news_of(items.last()) {
            Some(n) => before.push(n),
            None => before,
        }
    }
}

/// The most-read articles with a title.
pub open spec fn mostread_of(articles: Seq<RawArticle>) -> Seq<(Seq<char>, u64)>
    decreases articles.len(),
{
    if articles.len() == 0 {
        Seq::empty()
    } else {
        let before = mostread_of(articles.drop_last());
        let a = articles.last();
        match better_title(opt_view(a.normalizedtitle), opt_view(a.title)) {
            Some(t) => before.push((t, a.views)),
            None => before,
        }
    }
}

/// What is kept of a feed.
pub open spec fn feed_of(raw: RawFeed) -> FeedModel {
    FeedModel {
        tfa: match raw.tfa {
            Some(p) => page_title(p),
            None => None,
        },
        extract: match raw.tfa {
            Some(p) => match p.extract {
                Some(t) => Some(length_capped(sanitized(t@, true), FEED_EXTRACT_CAP as nat)),
                None => None,
            },
            None => None,
        },
        mostread: mostread_of(raw.mostread@),
        potd: match raw.image {
            Some(p) => page_title(p),
            None => None,
        },
        potd_thumb_url: match raw.image {
            Some(p) => opt_view(p.thumbnail),
            None => None,
        },
        news: headlines_of(raw.news@),
        onthisday: entries_of(raw.onthisday@),
        onthisday_events: raw.onthisday@.len(),
    }
}

fn fill(s: &Option<String>) -> (r: Option<String>)
    ensures
        opt_view(r) == filled(opt_view(*s)),
{
    match s {
        Some(t) => if chars_of(t.as_str()).len() > 0 {
            Some(t.clone())
        } else {
            None
        },
        None => None,
    }
}

fn best_title(normalized: &Option<String>, title: &Option<String>) -> (r: Option<String>)
    ensures
        opt_view(r) == better_title(opt_view(*normalized), opt_view(*title)),
{
    match fill(normalized) {
        Some(t) => Some(t),
        None => fill(title),
    }
}

impl RawPage {
    /// The title to fetch the page by: the one with spaces, else the one with
    /// underscores.
    pub fn best_title(&self) -> (r: Option<String>)
        ensures
            opt_view(r) == page_title(*self),
    {
        best_title(&self.normalizedtitle, &self.title)
    }
}

fn find_title(pages: &Vec<RawPage>) -> (r: Option<String>)
    ensures
        opt_view(r) == first_title(pages@),
{
    let n: usize = pages.len();
    proof { assert(pages@.skip(0) =~= pages@); }
    for i in 0..n
        invariant
            n == pages.len(),
            first_title(pages@) == first_title(pages@.skip(i as int)),
    {
        proof { assert(pages@.skip(i as int).drop_first() =~= pages@.skip(i + 1)); }
        if let Some(t) = pages[i].best_title() {
            return Some(t);
        }
    }
    None
}

impl RawOnThisDayItem {
    /// What is kept of the entry.
    pub fn into_entry(&self) -> (r: OtdEntry)
        ensures
            r@ == otd_of(*self),
    {
        let text = match &self.text {
            Some(t) => sanitize_and_cap_single_line(t.as_str(), FEED_TEXT_CAP),
            None => {
                proof {
                    reveal_strlit("");
                    assert(""@ =~= Seq::<char>::empty());
                }
                sanitize_and_cap_single_line("", FEED_TEXT_CAP)
            },
        };
        let year: Option<i32> = match self.year {
            Some(y) => Some(
                #[verifier::truncate]
                (y as i32),
            ),
            None => None,
        };
        OtdEntry { year, text, page_title: find_title(&self.pages) }
    }
}

impl RawNewsItem {
    /// What is kept of the piece of news; nothing where no text is left.
    pub fn into_item(&self) -> (r: Option<NewsItem>)
        ensures
            match r {
                Some(n) => news_of(*self) == Some(n@),
                None => news_of(*self) is None,
            },
    {
        match &self.story {
            None => None,
            Some(story) => {
                let headline = sanitize_and_cap_single_line(
                    strip_tags(story.as_str()).as_str(),
                    FEED_TEXT_CAP,
                );
                if chars_of(headline.as_str()).len() == 0 {
                    return None;
                }
                Some(NewsItem { headline, page_title: find_title(&self.links) })
            },
        }
    }
}

/// The entries on this day.
pub fn onthisday_entries(items: &Vec<RawOnThisDayItem>) -> (r: Vec<OtdEntry>)
    ensures
        views(r@) == entries_of(items@),
{
    let mut out: Vec<OtdEntry> = Vec::new();
    let n: usize = items.len();
    for i in 0..n
        invariant
            n == items.len(),
            views(out@) == entries_of(items@).take(i as int),
    {
        let ghost pre = out@;
        let entry = items[i].into_entry();
        out.push(entry);
        proof {
            let all = entries_of(items@);
            assert(views(out@) =~= views(pre).push(entry@));
            assert(all.take(i + 1) =~= all.take(i as int).push(all[i as int]));
        }
    }
    proof { assert(entries_of(items@).take(n as int) =~= entries_of(items@)); }
    out
}

/// The entries of a feed on this day, given the items under the requested
/// type; a feed without that type has none.
pub fn parse_onthisday(items: &Option<Vec<RawOnThisDayItem>>) -> (r: Vec<OtdEntry>)
    ensures
        views(r@) == match *items {
            Some(list) => entries_of(list@),
            None => Seq::empty(),
        },
{
    match items {
        Some(list) => onthisday_entries(list),
        None => {
            let out: Vec<OtdEntry> = Vec::new();
            proof { assert(views(out@) =~= Seq::empty()); }
            out
        },
    }
}

fn keep_headlines(items: &Vec<RawNewsItem>) -> (r: Vec<NewsItem>)
    ensures
        views(r@) == headlines_of(items@),
{
    let mut out: Vec<NewsItem> = Vec::new();
    let n: usize = items.len();
    proof { assert(views(out@) =~= Seq::empty()); }
    for i in 0..n
        invariant
            n == items.len(),
            views(out@) == headlines_of(items@.take(i as int)),
    {
        proof { assert(items@.take(i + 1).drop_last() =~= items@.take(i as int)); }
        if let Some(item) = items[i].into_item() {
            let ghost pre = out@;
            out.push(item);
            proof { assert(views(out@) =~= views(pre).push(item@)); }
        }
    }
    proof { assert(items@.take(n as int) =~= items@); }
    out
}

fn keep_mostread(articles: &Vec<RawArticle>) -> (r: Vec<MostRead>)
    ensures
        views(r@) == mostread_of(articles@),
{
    let mut out: Vec<MostRead> = Vec::new();
    let n: usize = articles.len();
    proof { assert(views(out@) =~= Seq::empty()); }
    for i in 0..n
        invariant
            n == articles.len(),
            views(out@) == mostread_of(articles@.take(i as int)),
    {
        proof { assert(articles@.take(i + 1).drop_last() =~= articles@.take(i as int)); }
        let a = &articles[i];
        if let Some(title) = best_title(&a.normalizedtitle, &a.title) {
            let item = MostRead { title, views: a.views };
            let ghost pre = out@;
            out.push(item);
            proof { assert(views(out@) =~= views(pre).push(item@)); }
        }
    }
    proof { assert(articles@.take(n as int) =~= articles@); }
    out
}

impl FeaturedFeed {
    /// What is kept of a feed.
    pub fn parse(raw: &RawFeed) -> (r: FeaturedFeed)
        ensures
            r@ == feed_of(*raw),
    {
        let tfa = match &raw.tfa {
            Some(p) => p.best_title(),
            None => None,
        };
        let extract = match &raw.tfa {
            Some(p) => match &p.extract {
                Some(t) => Some(sanitize_and_cap_multiline(t.as_str(), FEED_EXTRACT_CAP)),
                None => None,
            },
            None => None,
        };
        let potd = match &raw.image {
            Some(p) => p.best_title(),
            None => None,
        };
        let potd_thumb_url = match &raw.image {
            Some(p) => match &p.thumbnail {
                Some(t) => Some(t.clone()),
                None => None,
            },
            None => None,
        };
        let onthisday = onthisday_entries(&raw.onthisday);
        let onthisday_events: usize = onthisday.len();
        proof { assert(onthisday@.len() == views(onthisday@).len()); }
        FeaturedFeed {
            tfa,
            extract,
            mostread: keep_mostread(&raw.mostread),
            potd,
            potd_thumb_url,
            news: keep_headlines(&raw.news),
            onthisday,
            onthisday_events,
        }
    }
}

/// A headline that is kept has text, and that text can be painted.
pub proof fn kept_headlines_have_text(items: Seq<RawNewsItem>, i: int)
    requires
        0 <= i < headlines_of(items).len(),
    ensures
        headlines_of(items)[i].headline.len() > 0,
        crate::sanitize::clean(headlines_of(items)[i].headline, false),
    decreases items.len(),
{
    let before = headlines_of(items.drop_last());
    if i < before.len() {
        kept_headlines_have_text(items.drop_last(), i);
        assert(headlines_of(items)[i] == before[i]);
    } else {
        let item = items.last();
        crate::sanitize::cut_text_is_clean(
            stripped(item.story->0@).text,
            false,
            FEED_TEXT_CAP as nat,
        );
    }
}

/// The feed of the day it was fetched on.
#[derive(Debug)]
pub struct FeedCache {
    date: Option<String>,
    feed: Option<FeaturedFeed>,
}

/// A cached feed's contents.
#[verifier::ext_equal]
pub struct CacheModel {
    pub date: Option<Seq<char>>,
    pub feed: Option<FeedModel>,
}

impl View for FeedCache {
    type V = CacheModel;

    closed spec fn view(&self) -> CacheModel {
        CacheModel {
            date: opt_view(self.date),
            feed: match self.feed {
                Some(f) => Some(f@),
                None => None,
            },
        }
    }
}

impl Default for FeedCache {
    fn default() -> (r: FeedCache)
        ensures
            r@ == (CacheModel { date: None, feed: None }),
    {
        FeedCache { date: None, feed: None }
    }
}

impl CacheModel {
    /// The feed of a day is to be fetched where another day's is there, or
    /// none.
    pub open spec fn wants(self, date: Seq<char>) -> bool {
        self.date != Some(date)
    }
}

impl FeedCache {
    /// Whether the feed of a day is to be fetched.
    pub fn should_fetch(&self, date: &str) -> (r: bool)
        ensures
            r == self@.wants(date@),
    {
        match &self.date {
            Some(d) => !same_str(d.as_str(), date),
            None => true,
        }
    }

    /// The day the feed was fetched on.
    pub fn date(&self) -> (r: Option<&str>)
        ensures
            match r {
                Some(d) => self@.date == Some(d@),
                None => self@.date is None,
            },
    {
        match &self.date {
            Some(d) => Some(d.as_str()),
            None => None,
        }
    }

    /// Keeps a day's feed, in place of the one before.
    pub fn store(&mut self, date: String, feed: FeaturedFeed)
        ensures
            final(self)@ == (CacheModel { date: Some(date@), feed: Some(feed@) }),
    {
        self.date = Some(date);
        self.feed = Some(feed);
    }

    /// The feed.
    pub fn get(&self) -> (r: Option<&FeaturedFeed>)
        ensures
            match r {
                Some(f) => self@.feed == Some(f@),
                None => self@.feed is None,
            },
    {
        match &self.feed {
            Some(f) => Some(f),
            None => None,
        }
    }
}

/// A day's feed is fetched once: it is wanted before it is stored, not after,
/// and another day's is wanted again.
pub proof fn once_a_day(date: Seq<char>, other: Seq<char>, feed: FeedModel)
    requires
        other != date,
    ensures
        (CacheModel { date: None, feed: None }).wants(date),
        !(CacheModel { date: Some(date), feed: Some(feed) }).wants(date),
        (CacheModel { date: Some(date), feed: Some(feed) }).wants(other),
{
}

} // verus!
