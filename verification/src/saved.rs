//! Pinned pages: what is recorded of each, how its content is packed, checked
//! and served back. The files themselves are read and written by the caller.
use crate::research::opt_view;
use crate::text::{
    ascii_lowered, decimal, decimal_string, same_str, to_ascii_lowercase, views,
};
use vstd::prelude::*;
use vstd::utf8::{decode_utf8, encode_utf8, valid_utf8};

verus! {

/// The compression level of pinned pages.
pub const ZSTD_LEVEL: i32 = 3;

/// How many of an article's pictures are pinned.
pub const MAX_T1_THUMBS: usize = 8;

/// How many of an article's links get a stored summary.
pub const MAX_T2_SUMMARIES: usize = 20;

/// How much of a page is pinned: the text, its pictures too, or the summaries
/// of its links as well.
#[derive(Debug, Clone, Copy, PartialEq, Eq, Structural)]
pub enum Tier {
    T0,
    T1,
    T2,
}

/// A tier's label.
pub open spec fn tier_label(t: Tier) -> Seq<char> {
    match t {
        Tier::T0 => "T0"@,
        Tier::T1 => "T1"@,
        Tier::T2 => "T2"@,
    }
}

/// The tier that a text names, in any case.
pub open spec fn tier_named(s: Seq<char>) -> Option<Tier> {
    let t = ascii_lowered(s);
    if t == "t0"@ {
        Some(Tier::T0)
    } else if t == "t1"@ {
        Some(Tier::T1)
    } else if t == "t2"@ {
        Some(Tier::T2)
    } else {
        None
    }
}

impl Tier {
    /// The tier's label.
    pub fn label(&self) -> (r: &'static str)
        ensures
            r@ == tier_label(*self),
    {
        match self {
            Tier::T0 => "T0",
            Tier::T1 => "T1",
            Tier::T2 => "T2",
        }
    }

    /// The tier that a text names, in any case.
    pub fn parse(s: &str) -> (r: Option<Tier>)
        ensures
            r == tier_named(s@),
    {
        let t = to_ascii_lowercase(s);
        if same_str(t.as_str(), "t0") {
            Some(Tier::T0)
        } else if same_str(t.as_str(), "t1") {
            Some(Tier::T1)
        } else if same_str(t.as_str(), "t2") {
            Some(Tier::T2)
        } else {
            None
        }
    }

    /// About how many bytes an article takes at this tier.
    pub fn estimate_bytes(&self) -> (r: u64)
        ensures
            r == (match *self {
                Tier::T0 => 30int,
                Tier::T1 => 300int,
                Tier::T2 => 340int,
            }) * 1024,
    {
        match self {
            Tier::T0 => 30 * 1024,
            Tier::T1 => 300 * 1024,
            Tier::T2 => 340 * 1024,
        }
    }
}

/// A tier is read back from its label.
pub proof fn tier_labels_read_back(t: Tier)
    ensures
        tier_named(tier_label(t)) == Some(t),
{
    reveal_strlit("T0");
    reveal_strlit("T1");
    reveal_strlit("T2");
    reveal_strlit("t0");
    reveal_strlit("t1");
    reveal_strlit("t2");
    let s = ascii_lowered(tier_label(t));
    assert(s.len() == 2);
    match t {
        Tier::T0 => {
            assert(s =~= "t0"@);
        },
        Tier::T1 => {
            assert(s =~= "t1"@);
            assert("t0"@[1] == '0' && "t1"@[1] == '1');
        },
        Tier::T2 => {
            assert(s =~= "t2"@);
            assert("t0"@[1] == '0' && "t1"@[1] == '1' && "t2"@[1] == '2');
        },
    }
}

/// A pinned picture: where it came from, its file, its size.
#[derive(Debug, Clone, PartialEq, Eq)]
pub struct SavedThumb {
    pub src: String,
    pub file: String,
    pub bytes: u64,
}

/// A picture's record.
#[verifier::ext_equal]
pub struct ThumbModel {
    pub src: Seq<char>,
    pub file: Seq<char>,
    pub bytes: u64,
}

impl View for SavedThumb {
    type V = ThumbModel;

    open spec fn view(&self) -> ThumbModel {
        ThumbModel { src: self.src@, file: self.file@, bytes: self.bytes }
    }
}

/// The summary of a link's target.
#[derive(Debug, Clone, PartialEq, Eq)]
pub struct LinkSummary {
    pub title: String,
    pub extract: String,
}

/// A summary's contents: title and extract.
impl View for LinkSummary {
    type V = (Seq<char>, Seq<char>);

    open spec fn view(&self) -> (Seq<char>, Seq<char>) {
        (self.title@, self.extract@)
    }
}

/// What is recorded of a pinned page.
#[derive(Debug, Clone, PartialEq, Eq)]
pub struct SavedRecord {
    pub lang: String,
    pub title: String,
    /// The revision that was pinned, zero where it is not known.
    pub revid: u64,
    pub tier: Tier,
    /// When it was pinned.
    pub saved_at: String,
    pub html_bytes: u64,
    pub thumb_bytes: u64,
    pub size_total: u64,
    /// The SHA-256 digest of the page's text, in hexadecimal.
    pub sha256: String,
    /// How the page came to be pinned.
    pub source_note: String,
    /// Where the packed text stands under the store's root.
    pub content_file: String,
    pub thumbs: Vec<SavedThumb>,
    pub summaries: Vec<LinkSummary>,
}

/// A record's contents.
#[verifier::ext_equal]
pub struct RecordModel {
    pub lang: Seq<char>,
    pub title: Seq<char>,
    pub revid: u64,
    pub tier: Tier,
    pub saved_at: Seq<char>,
    pub html_bytes: u64,
    pub thumb_bytes: u64,
    pub size_total: u64,
    pub sha256: Seq<char>,
    pub source_note: Seq<char>,
    pub content_file: Seq<char>,
    pub thumbs: Seq<ThumbModel>,
    pub summaries: Seq<(Seq<char>, Seq<char>)>,
}

impl View for SavedRecord {
    type V = RecordModel;

    open spec fn view(&self) -> RecordModel {
        RecordModel {
            lang: self.lang@,
            title: self.title@,
            revid: self.revid,
            tier: self.tier,
            saved_at: self.saved_at@,
            html_bytes: self.html_bytes,
            thumb_bytes: self.thumb_bytes,
            size_total: self.size_total,
            sha256: self.sha256@,
            source_note: self.source_note@,
            content_file: self.content_file@,
            thumbs: views(self.thumbs@),
            summaries: views(self.summaries@),
        }
    }
}

/// A pinned page as it is served back.
#[derive(Debug)]
pub struct SavedContent {
    pub html: String,
    pub revid: u64,
    /// Seconds since the page was pinned.
    pub age_secs: u64,
}

/// A served page's contents.
#[verifier::ext_equal]
pub struct ContentModel {
    pub html: Seq<char>,
    pub revid: u64,
    pub age_secs: u64,
}

impl View for SavedContent {
    type V = ContentModel;

    open spec fn view(&self) -> ContentModel {
        ContentModel { html: self.html@, revid: self.revid, age_secs: self.age_secs }
    }
}

/// Whether a pinned page is still what was pinned.
#[derive(Debug, Clone, Copy, PartialEq, Eq, Structural)]
pub enum Integrity {
    Intact,
    /// The file is missing, cannot be unpacked, or holds another text.
    Corrupt,
}

/// What `zstd::stream::encode_all` makes of bytes at a level.
pub uninterp spec fn zstd_packed(bytes: Seq<u8>, level: i32) -> Option<Seq<u8>>;

/// What `zstd::stream::decode_all` makes of bytes.
pub uninterp spec fn zstd_unpacked(bytes: Seq<u8>) -> Option<Seq<u8>>;

/// Bytes in a vector, where there are any.
pub open spec fn opt_bytes(r: Option<Vec<u8>>) -> Option<Seq<u8>> {
    match r {
        Some(v) => Some(v@),
        None => None,
    }
}

/// Calls `zstd::stream::encode_all`. What it makes of the bytes is named by
/// [`zstd_packed`]; `zstd::stream::decode_all` gives the bytes back.
#[verifier::external_body]
fn pack(bytes: &[u8], level: i32) -> (r: Option<Vec<u8>>)
    ensures
        opt_bytes(r) == zstd_packed(bytes@, level),
        match r {
            Some(v) => zstd_unpacked(v@) == Some(bytes@),
            None => true,
        },
{
    zstd::stream::encode_all(bytes, level).ok()
}

/// Calls `zstd::stream::decode_all`, whose result is named by
/// [`zstd_unpacked`] and is nothing where the bytes are no zstd data.
#[verifier::external_body]
fn unpack(bytes: &Vec<u8>) -> (r: Option<Vec<u8>>)
    ensures
        opt_bytes(r) == zstd_unpacked(bytes@),
{
    zstd::stream::decode_all(bytes.as_slice()).ok()
}

/// The SHA-256 digest of bytes.
pub uninterp spec fn sha256_of(bytes: Seq<u8>) -> Seq<u8>;

/// Calls `sha2::Sha256::digest`, whose result is named by [`sha256_of`].
#[verifier::external_body]
fn sha256(bytes: &[u8]) -> (r: Vec<u8>)
    ensures
        r@ == sha256_of(bytes@),
{
    <sha2::Sha256 as sha2::Digest>::digest(bytes).to_vec()
}

/// Calls `String::from_utf8`, which gives the text that the bytes are the
/// UTF-8 form of, and nothing where they are none.
#[verifier::external_body]
fn utf8_text(bytes: Vec<u8>) -> (r: Option<String>)
    ensures
        match r {
            Some(s) => valid_utf8(bytes@) && s@ == decode_utf8(bytes@),
            None => !valid_utf8(bytes@),
        },
{
    String::from_utf8(bytes).ok()
}

/// The second that a time in RFC 3339 form names, counted from 1970.
pub uninterp spec fn instant_of(s: Seq<char>) -> Option<i64>;

/// Parses a `chrono::DateTime<chrono::FixedOffset>` and takes its timestamp,
/// which is named by [`instant_of`].
#[verifier::external_body]
fn instant(s: &str) -> (r: Option<i64>)
    ensures
        r == instant_of(s@),
{
    s.parse::<chrono::DateTime<chrono::FixedOffset>>().ok().map(|t| t.timestamp())
}

/// A lowercase hexadecimal digit.
pub open spec fn hex_lower(v: int) -> char {
    if v < 10 {
        (48 + v) as char
    } else {
        (87 + v) as char
    }
}

/// Bytes in lowercase hexadecimal, two digits each.
pub open spec fn hex_text(bytes: Seq<u8>) -> Seq<char>
    decreases bytes.len(),
{
    if bytes.len() == 0 {
        Seq::empty()
    } else {
        hex_text(bytes.drop_last()).push(hex_lower(bytes.last() as int / 16)).push(
            hex_lower(bytes.last() as int % 16),
        )
    }
}

fn hex_digit(v: u8) -> (r: char)
    requires
        v < 16,
    ensures
        r == hex_lower(v as int),
{
    if v < 10 {
        (48 + v) as char
    } else {
        (87 + v) as char
    }
}

/// The SHA-256 digest of bytes in lowercase hexadecimal.
pub fn sha256_hex(bytes: &[u8]) -> (r: String)
    ensures
        r@ == hex_text(sha256_of(bytes@)),
{
    let digest = sha256(bytes);
    let mut out = String::new();
    let n: usize = digest.len();
    for i in 0..n
        invariant
            n == digest.len(),
            out@ == hex_text(digest@.take(i as int)),
    {
        proof { assert(digest@.take(i + 1).drop_last() =~= digest@.take(i as int)); }
        out.push(hex_digit(digest[i] / 16));
        out.push(hex_digit(digest[i] % 16));
    }
    proof { assert(digest@.take(n as int) =~= digest@); }
    out
}

/// The bytes of the pictures that are pinned: those before the cap.
pub open spec fn thumbs_total(thumbs: Seq<(String, Vec<u8>)>) -> nat
    decreases thumbs.len(),
{
    if thumbs.len() == 0 {
        0
    } else {
        thumbs_total(thumbs.drop_last()) + thumbs.last().1@.len()
    }
}

/// The pictures before the cap.
pub open spec fn capped(thumbs: Seq<(String, Vec<u8>)>) -> Seq<(String, Vec<u8>)> {
    if thumbs.len() <= MAX_T1_THUMBS {
        thumbs
    } else {
        thumbs.take(MAX_T1_THUMBS as int)
    }
}

/// The records of pictures: on disk each has its number as its file name.
pub open spec fn thumb_records(thumbs: Seq<(String, Vec<u8>)>, on_disk: bool) -> Seq<ThumbModel> {
    Seq::new(
        thumbs.len(),
        |i: int|
            ThumbModel {
                src: thumbs[i].0@,
                file: if on_disk {
                    decimal(i as nat)
                } else {
                    Seq::empty()
                },
                bytes: thumbs[i].1@.len() as u64,
            },
    )
}

/// Where a page's packed text stands; the names are safe for a file system.
pub open spec fn content_path(safe_lang: Seq<char>, safe_title: Seq<char>) -> Seq<char> {
    "content/"@ + safe_lang + "/"@ + safe_title + ".html.zst"@
}

/// Where a page's pictures stand.
pub open spec fn thumb_dir(safe_lang: Seq<char>, safe_title: Seq<char>) -> Seq<char> {
    "thumbs/"@ + safe_lang + "/"@ + safe_title
}

/// Where a page's packed text stands under the store's root.
pub fn content_rel(safe_lang: &str, safe_title: &str) -> (r: String)
    ensures
        r@ == content_path(safe_lang@, safe_title@),
{
    let mut out = "content/".to_owned();
    out.push_str(safe_lang);
    out.push_str("/");
    out.push_str(safe_title);
    out.push_str(".html.zst");
    out
}

/// Where a page's pictures stand under the store's root.
pub fn thumb_dir_rel(safe_lang: &str, safe_title: &str) -> (r: String)
    ensures
        r@ == thumb_dir(safe_lang@, safe_title@),
{
    let mut out = "thumbs/".to_owned();
    out.push_str(safe_lang);
    out.push_str("/");
    out.push_str(safe_title);
    out
}

/// A page to be pinned.
pub struct PageToSave {
    pub lang: String,
    pub title: String,
    pub revid: u64,
    pub tier: Tier,
    pub html: String,
    /// Source and bytes of each picture.
    pub thumbs: Vec<(String, Vec<u8>)>,
    pub summaries: Vec<LinkSummary>,
    pub source_note: String,
    /// The language and the title as file names.
    pub safe_lang: String,
    pub safe_title: String,
}

impl PageToSave {
    /// The page and its pinned pictures are counted in 64 bits.
    pub open spec fn fits(self) -> bool {
        encode_utf8(self.html@).len() + thumbs_total(capped(self.thumbs@)) <= u64::MAX
    }

    /// The record of the page.
    pub open spec fn record(self, on_disk: bool, saved_at: Seq<char>) -> RecordModel {
        let bytes = encode_utf8(self.html@);
        let thumbs = capped(self.thumbs@);
        RecordModel {
            lang: self.lang@,
            title: self.title@,
            revid: self.revid,
            tier: self.tier,
            saved_at,
            html_bytes: bytes.len() as u64,
            thumb_bytes: thumbs_total(thumbs) as u64,
            size_total: (bytes.len() + thumbs_total(thumbs)) as u64,
            sha256: hex_text(sha256_of(bytes)),
            source_note: self.source_note@,
            content_file: content_path(self.safe_lang@, self.safe_title@),
            thumbs: thumb_records(thumbs, on_disk),
            summaries: views(self.summaries@),
        }
    }
}

/// What is done to the index file when a page is pinned.
#[derive(Debug, Clone, Copy, PartialEq, Eq, Structural)]
pub enum IndexWrite {
    /// There is no index file.
    Nothing,
    /// The page's line is replaced.
    Replace,
    /// A line is appended.
    Append,
}

/// The store of pinned pages: the records, and where the files stand.
pub struct SavedPages {
    pub records: Vec<SavedRecord>,
    root: Option<String>,
}

/// A store's contents.
#[verifier::ext_equal]
pub struct SavedModel {
    pub records: Seq<RecordModel>,
    pub root: Option<Seq<char>>,
}

impl View for SavedPages {
    type V = SavedModel;

    closed spec fn view(&self) -> SavedModel {
        SavedModel { records: views(self.records@), root: opt_view(self.root) }
    }
}

/// The first record of a page, or the number of records.
pub open spec fn position(records: Seq<RecordModel>, lang: Seq<char>, title: Seq<char>) -> int
    decreases records.len(),
{
    if records.len() == 0 || (records[0].lang == lang && records[0].title == title) {
        0
    } else {
        1 + position(records.drop_first(), lang, title)
    }
}

/// The record of a page.
pub open spec fn record_for(records: Seq<RecordModel>, lang: Seq<char>, title: Seq<char>) -> Option<
    RecordModel,
> {
    let i = position(records, lang, title);
    if i < records.len() {
        Some(records[i])
    } else {
        None
    }
}

/// The records' sizes together.
pub open spec fn size_sum(records: Seq<RecordModel>) -> nat
    decreases records.len(),
{
    if records.len() == 0 {
        0
    } else {
        size_sum(records.drop_last()) + records.last().size_total as nat
    }
}

/// Seconds from a record's time to now; none where the time is not readable or
/// lies ahead.
pub open spec fn age(saved_at: Seq<char>, now: i64) -> u64 {
    match instant_of(saved_at) {
        Some(t) => if now as int - t as int > 0 {
            (now as int - t as int) as u64
        } else {
            0
        },
        None => 0,
    }
}

/// The records with one put in the place of the page's own, or at the end.
pub open spec fn put(records: Seq<RecordModel>, record: RecordModel) -> Seq<RecordModel> {
    let i = position(records, record.lang, record.title);
    if i < records.len() {
        records.update(i, record)
    } else {
        records.push(record)
    }
}

impl SavedModel {
    /// The page as it is served, given what its file holds. A copy that is no
    /// longer what was pinned is not served.
    pub open spec fn served(
        self,
        lang: Seq<char>,
        title: Seq<char>,
        content: Option<Seq<u8>>,
        now: i64,
    ) -> Option<ContentModel> {
        match (record_for(self.records, lang, title), self.root, content) {
            (Some(record), Some(root), Some(packed)) => match zstd_unpacked(packed) {
                Some(bytes) => if valid_utf8(bytes) && hex_text(sha256_of(bytes))
                    == record.sha256 {
                    Some(
                        ContentModel {
                            html: decode_utf8(bytes),
                            revid: record.revid,
                            age_secs: age(record.saved_at, now),
                        },
                    )
                } else {
                    None
                },
                None => None,
            },
            _ => None,
        }
    }

    /// Whether the page is still what was pinned, given what its file holds.
    pub open spec fn intact(self, lang: Seq<char>, title: Seq<char>, content: Option<Seq<u8>>) -> bool {
        match record_for(self.records, lang, title) {
            None => false,
            Some(record) => self.root is None || match content {
                Some(packed) => match zstd_unpacked(packed) {
                    Some(bytes) => hex_text(sha256_of(bytes)) == record.sha256,
                    None => false,
                },
                None => false,
            },
        }
    }
}

/// The first record of a page is one of the page, and none before it is.
pub proof fn lemma_position(records: Seq<RecordModel>, lang: Seq<char>, title: Seq<char>)
    ensures
        0 <= position(records, lang, title) <= records.len(),
        position(records, lang, title) < records.len() ==> records[position(records, lang, title)].lang
            == lang && records[position(records, lang, title)].title == title,
        forall|i: int|
            0 <= i < position(records, lang, title) ==> !((#[trigger] records[i]).lang == lang
                && records[i].title == title),
    decreases records.len(),
{
    if records.len() > 0 && !(records[0].lang == lang && records[0].title == title) {
        let rest = records.drop_first();
        lemma_position(rest, lang, title);
        assert forall|i: int| 0 <= i < position(records, lang, title) implies !((
        #[trigger] records[i]).lang == lang && records[i].title == title) by {
            if i > 0 {
                assert(rest[i - 1] == records[i]);
            }
        }
    }
}

/// A place that holds the page, with none before it, is its position.
proof fn lemma_is_position(records: Seq<RecordModel>, lang: Seq<char>, title: Seq<char>, at: int)
    requires
        0 <= at < records.len(),
        records[at].lang == lang && records[at].title == title,
        forall|i: int|
            0 <= i < at ==> !((#[trigger] records[i]).lang == lang && records[i].title == title),
    ensures
        position(records, lang, title) == at,
{
    lemma_position(records, lang, title);
    let p = position(records, lang, title);
    if at < p {
        assert(!(records[at].lang == lang && records[at].title == title));
    }
    if p < at {
        assert(!(records[p].lang == lang && records[p].title == title));
    }
}

fn copy_thumbs(thumbs: &Vec<(String, Vec<u8>)>, count: usize, on_disk: bool) -> (r: (
    Vec<SavedThumb>,
    u64,
))
    requires
        count <= thumbs.len(),
        thumbs_total(thumbs@.take(count as int)) <= u64::MAX,
    ensures
        views(r.0@) == thumb_records(thumbs@.take(count as int), on_disk),
        r.1 as nat == thumbs_total(thumbs@.take(count as int)),
{
    let mut out: Vec<SavedThumb> = Vec::new();
    let mut total: u64 = 0;
    let ghost all = thumbs@.take(count as int);
    proof { assert(views(out@) =~= thumb_records(all.take(0), on_disk)); }
    for i in 0..count
        invariant
            count <= thumbs.len(),
            all == thumbs@.take(count as int),
            thumbs_total(all) <= u64::MAX,
            views(out@) == thumb_records(all.take(i as int), on_disk),
            total as nat == thumbs_total(all.take(i as int)),
    {
        proof {
            assert(all.take(i + 1).drop_last() =~= all.take(i as int));
            lemma_total_grows(all, i + 1);
        }
        let size: u64 = thumbs[i].1.len() as u64;
        let file = if on_disk {
            decimal_string(i as u64)
        } else {
            String::new()
        };
        let thumb = SavedThumb { src: thumbs[i].0.clone(), file, bytes: size };
        let ghost pre = out@;
        out.push(thumb);
        total = total + size;
        proof {
            assert(views(out@) =~= views(pre).push(thumb@));
            assert(thumb_records(all.take(i + 1), on_disk) =~= thumb_records(
                all.take(i as int),
                on_disk,
            ).push(thumb@));
        }
    }
    proof { assert(all.take(count as int) =~= all); }
    (out, total)
}

proof fn lemma_total_grows(thumbs: Seq<(String, Vec<u8>)>, n: int)
    requires
        0 <= n <= thumbs.len(),
    ensures
        thumbs_total(thumbs.take(n)) <= thumbs_total(thumbs),
    decreases thumbs.len(),
{
    if n < thumbs.len() {
        lemma_total_grows(thumbs.drop_last(), n);
        assert(thumbs.drop_last().take(n) =~= thumbs.take(n));
    } else {
        assert(thumbs.take(n) =~= thumbs);
    }
}

fn copy_summaries(list: &Vec<LinkSummary>) -> (r: Vec<LinkSummary>)
    ensures
        views(r@) == views(list@),
{
    let mut out: Vec<LinkSummary> = Vec::new();
    let n: usize = list.len();
    for i in 0..n
        invariant
            n == list.len(),
            views(out@) == views(list@).take(i as int),
    {
        let ghost pre = out@;
        out.push(LinkSummary { title: list[i].title.clone(), extract: list[i].extract.clone() });
        proof {
            assert(views(out@) =~= views(pre).push(list@[i as int]@));
            assert(views(list@).take(i + 1) =~= views(list@).take(i as int).push(
                views(list@)[i as int],
            ));
        }
    }
    proof { assert(views(list@).take(n as int) =~= views(list@)); }
    out
}

impl SavedPages {
    /// A store without files.
    pub fn in_memory() -> (r: SavedPages)
        ensures
            r@ == (SavedModel { records: Seq::empty(), root: None }),
    {
        let r = SavedPages { records: Vec::new(), root: None };
        proof { assert(r@.records =~= Seq::empty()); }
        r
    }

    /// The store under a root, with the records read from its index.
    pub fn at(root: String, records: Vec<SavedRecord>) -> (r: SavedPages)
        ensures
            r@ == (SavedModel { records: views(records@), root: Some(root@) }),
    {
        SavedPages { records, root: Some(root) }
    }

    fn place(&self, lang: &str, title: &str) -> (r: usize)
        ensures
            r == position(self@.records, lang@, title@),
            r <= self.records.len(),
    {
        let n: usize = self.records.len();
        let ghost all = views(self.records@);
        proof { assert(all.skip(0) =~= all); }
        for i in 0..n
            invariant
                n == self.records.len(),
                all == views(self.records@),
                position(all, lang@, title@) == i + position(all.skip(i as int), lang@, title@),
        {
            proof {
                assert(all.skip(i as int)[0] == self.records@[i as int]@);
                assert(all.skip(i as int).drop_first() =~= all.skip(i + 1));
            }
            if same_str(self.records[i].lang.as_str(), lang) && same_str(
                self.records[i].title.as_str(),
                title,
            ) {
                return i;
            }
        }
        n
    }

    /// The record of a page.
    pub fn find(&self, lang: &str, title: &str) -> (r: Option<&SavedRecord>)
        ensures
            match r {
                Some(record) => record_for(self@.records, lang@, title@) == Some(record@),
                None => record_for(self@.records, lang@, title@) is None,
            },
    {
        let at: usize = self.place(lang, title);
        if at < self.records.len() {
            Some(&self.records[at])
        } else {
            None
        }
    }

    /// Whether a page is pinned.
    pub fn is_saved(&self, lang: &str, title: &str) -> (r: bool)
        ensures
            r == (record_for(self@.records, lang@, title@) is Some),
    {
        self.find(lang, title).is_some()
    }

    /// The records.
    pub fn list(&self) -> (r: &Vec<SavedRecord>)
        ensures
            views(r@) == self@.records,
    {
        &self.records
    }

    /// The size of all pinned pages together, where 64 bits hold it.
    pub fn total_bytes(&self) -> (r: u64)
        requires
            size_sum(self@.records) <= u64::MAX,
        ensures
            r as nat == size_sum(self@.records),
    {
        let mut total: u64 = 0;
        let n: usize = self.records.len();
        let ghost all = views(self.records@);
        for i in 0..n
            invariant
                n == self.records.len(),
                all == views(self.records@),
                size_sum(all) <= u64::MAX,
                total as nat == size_sum(all.take(i as int)),
        {
            proof {
                assert(all.take(i + 1).drop_last() =~= all.take(i as int));
                lemma_sum_grows(all, i + 1);
            }
            total = total + self.records[i].size_total;
        }
        proof { assert(all.take(n as int) =~= all); }
        total
    }

    /// What pinning a page records, and its packed text. Nothing is changed
    /// yet: the text is to be on disk before its record is.
    pub fn prepare_save(&self, page: &PageToSave, saved_at: &str) -> (r: (
        SavedRecord,
        Option<Vec<u8>>,
    ))
        requires
            page.fits(),
        ensures
            r.0@ == page.record(self@.root is Some, saved_at@),
            opt_bytes(r.1) == zstd_packed(encode_utf8(page.html@), ZSTD_LEVEL),
            match r.1 {
                Some(packed) => zstd_unpacked(packed@) == Some(encode_utf8(page.html@)),
                None => true,
            },
    {
        let bytes = page.html.as_str().as_bytes();
        let html_bytes: u64 = bytes.len() as u64;
        let count: usize = if page.thumbs.len() <= MAX_T1_THUMBS {
            page.thumbs.len()
        } else {
            MAX_T1_THUMBS
        };
        proof {
            assert(page.thumbs@.take(count as int) =~= capped(page.thumbs@));
        }
        let (thumbs, thumb_bytes) = copy_thumbs(&page.thumbs, count, self.root.is_some());
        let record = SavedRecord {
            lang: page.lang.clone(),
            title: page.title.clone(),
            revid: page.revid,
            tier: page.tier,
            saved_at: saved_at.to_owned(),
            html_bytes,
            thumb_bytes,
            size_total: html_bytes + thumb_bytes,
            sha256: sha256_hex(bytes),
            source_note: page.source_note.clone(),
            content_file: content_rel(page.safe_lang.as_str(), page.safe_title.as_str()),
            thumbs,
            summaries: copy_summaries(&page.summaries),
        };
        (record, pack(bytes, ZSTD_LEVEL))
    }

    /// Puts a record in the place of the page's own, or at the end, and says
    /// what is to be done to the index file.
    pub fn commit_save(&mut self, record: SavedRecord) -> (r: IndexWrite)
        ensures
            final(self)@ == (SavedModel {
                records: put(old(self)@.records, record@),
                root: old(self)@.root,
            }),
            r == (if old(self)@.root is None {
                IndexWrite::Nothing
            } else if record_for(old(self)@.records, record@.lang, record@.title) is Some {
                IndexWrite::Replace
            } else {
                IndexWrite::Append
            }),
    {
        let at: usize = self.place(record.lang.as_str(), record.title.as_str());
        let ghost pre = self.records@;
        let write = if at < self.records.len() {
            self.records.set(at, record);
            proof { assert(views(self.records@) =~= views(pre).update(at as int, record@)); }
            IndexWrite::Replace
        } else {
            self.records.push(record);
            proof { assert(views(self.records@) =~= views(pre).push(record@)); }
            IndexWrite::Append
        };
        if self.root.is_none() {
            IndexWrite::Nothing
        } else {
            write
        }
    }

    /// Where a page's packed text is to be read from under the store's root.
    pub fn content_file(&self, lang: &str, title: &str) -> (r: Option<String>)
        ensures
            opt_view(r) == match (record_for(self@.records, lang@, title@), self@.root) {
                (Some(record), Some(root)) => Some(record.content_file),
                _ => None,
            },
    {
        match self.find(lang, title) {
            Some(record) => if self.root.is_some() {
                Some(record.content_file.clone())
            } else {
                None
            },
            None => None,
        }
    }

    /// The page as it is served offline, given what its file holds: nothing
    /// where it is not pinned, or its file is not readable as packed text or
    /// not the text that was pinned.
    pub fn get(&self, lang: &str, title: &str, content: Option<Vec<u8>>, now: i64) -> (r: Option<
        SavedContent,
    >)
        ensures
            match r {
                Some(c) => self@.served(lang@, title@, opt_bytes(content), now) == Some(c@),
                None => self@.served(lang@, title@, opt_bytes(content), now) is None,
            },
    {
        let record = match self.find(lang, title) {
            Some(record) => record,
            None => return None,
        };
        if self.root.is_none() {
            return None;
        }
        let packed = match content {
            Some(packed) => packed,
            None => return None,
        };
        let bytes = match unpack(&packed) {
            Some(bytes) => bytes,
            None => return None,
        };
        let digest = sha256_hex(bytes.as_slice());
        if !same_str(digest.as_str(), record.sha256.as_str()) {
            return None;
        }
        let html = match utf8_text(bytes) {
            Some(html) => html,
            None => return None,
        };
        let age_secs: u64 = match instant(record.saved_at.as_str()) {
            Some(t) => {
                let gap: i128 = now as i128 - t as i128;
                if gap > 0 {
                    gap as u64
                } else {
                    0
                }
            },
            None => 0,
        };
        Some(SavedContent { html, revid: record.revid, age_secs })
    }

    /// Where a pinned picture is to be read from under the store's root.
    pub fn thumb_file(
        &self,
        lang: &str,
        title: &str,
        src: &str,
        safe_lang: &str,
        safe_title: &str,
    ) -> (r: Option<String>)
        ensures
            opt_view(r) == match (record_for(self@.records, lang@, title@), self@.root) {
                (Some(record), Some(root)) => match thumb_for(record.thumbs, src@) {
                    Some(thumb) => Some(thumb_dir(safe_lang@, safe_title@) + "/"@ + thumb.file),
                    None => None,
                },
                _ => None,
            },
    {
        let record = match self.find(lang, title) {
            Some(record) => record,
            None => return None,
        };
        if self.root.is_none() {
            return None;
        }
        let n: usize = record.thumbs.len();
        let ghost all = views(record.thumbs@);
        proof { assert(all.skip(0) =~= all); }
        for i in 0..n
            invariant
                n == record.thumbs.len(),
                all == views(record.thumbs@),
                record_for(self@.records, lang@, title@) == Some(record@),
                self@.root is Some,
                thumb_for(all, src@) == thumb_for(all.skip(i as int), src@),
        {
            proof {
                assert(all.skip(i as int)[0] == record.thumbs@[i as int]@);
                assert(all.skip(i as int).drop_first() =~= all.skip(i + 1));
            }
            if same_str(record.thumbs[i].src.as_str(), src) {
                let mut out = thumb_dir_rel(safe_lang, safe_title);
                out.push_str("/");
                out.push_str(record.thumbs[i].file.as_str());
                return Some(out);
            }
        }
        None
    }

    /// Whether a page is still what was pinned, given what its file holds. A
    /// store without files has nothing that could have changed.
    pub fn verify(&self, lang: &str, title: &str, content: &Option<Vec<u8>>) -> (r: Integrity)
        ensures
            r == (if self@.intact(lang@, title@, opt_bytes(*content)) {
                Integrity::Intact
            } else {
                Integrity::Corrupt
            }),
    {
        let record = match self.find(lang, title) {
            Some(record) => record,
            None => return Integrity::Corrupt,
        };
        if self.root.is_none() {
            return Integrity::Intact;
        }
        match content {
            None => Integrity::Corrupt,
            Some(packed) => match unpack(packed) {
                None => Integrity::Corrupt,
                Some(bytes) => {
                    let digest = sha256_hex(bytes.as_slice());
                    if same_str(digest.as_str(), record.sha256.as_str()) {
                        Integrity::Intact
                    } else {
                        Integrity::Corrupt
                    }
                },
            },
        }
    }

    /// Whether each pinned page is still what was pinned, given what the
    /// files of the records hold, in order.
    pub fn verify_all(&self, contents: &Vec<Option<Vec<u8>>>) -> (r: Vec<
        (String, String, Integrity),
    >)
        requires
            contents@.len() == self@.records.len(),
        ensures
            r@.len() == self@.records.len(),
            forall|i: int|
                0 <= i < r@.len() ==> {
                    let record = self@.records[i];
                    &&& (#[trigger] r@[i]).0@ == record.lang
                    &&& r@[i].1@ == record.title
                    &&& r@[i].2 == (if self@.intact(
                        record.lang,
                        record.title,
                        opt_bytes(contents@[i]),
                    ) {
                        Integrity::Intact
                    } else {
                        Integrity::Corrupt
                    })
                },
    {
        let n: usize = self.records.len();
        let mut out: Vec<(String, String, Integrity)> = Vec::new();
        for i in 0..n
            invariant
                n == self.records.len(),
                contents@.len() == self@.records.len(),
                self@.records == views(self.records@),
                out@.len() == i,
                forall|j: int|
                    0 <= j < i ==> {
                        let record = self@.records[j];
                        &&& (#[trigger] out@[j]).0@ == record.lang
                        &&& out@[j].1@ == record.title
                        &&& out@[j].2 == (if self@.intact(
                            record.lang,
                            record.title,
                            opt_bytes(contents@[j]),
                        ) {
                            Integrity::Intact
                        } else {
                            Integrity::Corrupt
                        })
                    },
        {
            let record = &self.records[i];
            proof { assert(self@.records[i as int] == record@); }
            let state = self.verify(record.lang.as_str(), record.title.as_str(), &contents[i]);
            out.push((record.lang.clone(), record.title.clone(), state));
        }
        out
    }

    /// Takes a page out of the store; the caller takes its files away.
    pub fn remove(&mut self, lang: &str, title: &str) -> (r: Option<SavedRecord>)
        ensures
            match r {
                Some(record) => {
                    &&& record_for(old(self)@.records, lang@, title@) == Some(record@)
                    &&& final(self)@ == (SavedModel {
                        records: old(self)@.records.remove(
                            position(old(self)@.records, lang@, title@),
                        ),
                        root: old(self)@.root,
                    })
                },
                None => record_for(old(self)@.records, lang@, title@) is None && final(self)@
                    == old(self)@,
            },
    {
        let at: usize = self.place(lang, title);
        if at >= self.records.len() {
            return None;
        }
        let ghost pre = self.records@;
        let removed = self.records.remove(at);
        proof { assert(views(self.records@) =~= views(pre).remove(at as int)); }
        Some(removed)
    }
}

/// The picture from a source.
pub open spec fn thumb_for(thumbs: Seq<ThumbModel>, src: Seq<char>) -> Option<ThumbModel>
    decreases thumbs.len(),
{
    if thumbs.len() == 0 {
        None
    } else if thumbs[0].src == src {
        Some(thumbs[0])
    } else {
        thumb_for(thumbs.drop_first(), src)
    }
}

proof fn lemma_sum_grows(records: Seq<RecordModel>, n: int)
    requires
        0 <= n <= records.len(),
    ensures
        size_sum(records.take(n)) <= size_sum(records),
    decreases records.len(),
{
    if n < records.len() {
        lemma_sum_grows(records.drop_last(), n);
        assert(records.drop_last().take(n) =~= records.take(n));
    } else {
        assert(records.take(n) =~= records);
    }
}

/// After a record is put in, it is the page's record.
pub proof fn a_saved_page_is_found(records: Seq<RecordModel>, record: RecordModel)
    ensures
        record_for(put(records, record), record.lang, record.title) == Some(record),
{
    lemma_position(records, record.lang, record.title);
    let at = position(records, record.lang, record.title);
    let after = put(records, record);
    assert forall|i: int| 0 <= i < at implies !((#[trigger] after[i]).lang == record.lang
        && after[i].title == record.title) by {
        assert(after[i] == records[i]);
    }
    lemma_is_position(after, record.lang, record.title, at);
}

/// A page that was pinned is served back as it was and found intact: the file
/// holds what packing its text gave.
pub proof fn a_saved_page_reads_back(
    before: SavedModel,
    page: PageToSave,
    saved_at: Seq<char>,
    packed: Seq<u8>,
    now: i64,
)
    requires
        before.root is Some,
        zstd_unpacked(packed) == Some(encode_utf8(page.html@)),
    ensures
        ({
            let record = page.record(true, saved_at);
            let after = SavedModel { records: put(before.records, record), root: before.root };
            &&& after.served(page.lang@, page.title@, Some(packed), now) == Some(
                ContentModel {
                    html: page.html@,
                    revid: page.revid,
                    age_secs: age(saved_at, now),
                },
            )
            &&& after.intact(page.lang@, page.title@, Some(packed))
        }),
{
    let record = page.record(true, saved_at);
    a_saved_page_is_found(before.records, record);
    vstd::utf8::encode_utf8_valid_utf8(page.html@);
    vstd::utf8::encode_utf8_decode_utf8(page.html@);
}

/// A file that unpacks to a text with another digest is found corrupt and not
/// served.
pub proof fn a_changed_page_is_corrupt(
    m: SavedModel,
    lang: Seq<char>,
    title: Seq<char>,
    record: RecordModel,
    packed: Seq<u8>,
    bytes: Seq<u8>,
    now: i64,
)
    requires
        m.root is Some,
        record_for(m.records, lang, title) == Some(record),
        zstd_unpacked(packed) == Some(bytes),
        hex_text(sha256_of(bytes)) != record.sha256,
    ensures
        !m.intact(lang, title, Some(packed)),
        m.served(lang, title, Some(packed), now) is None,
{
}

/// A page that is served is one that is intact.
pub proof fn only_intact_pages_are_served(
    m: SavedModel,
    lang: Seq<char>,
    title: Seq<char>,
    content: Option<Seq<u8>>,
    now: i64,
)
    requires
        m.served(lang, title, content, now) is Some,
    ensures
        m.intact(lang, title, content),
{
}

/// Each page has at most one record.
pub open spec fn one_each(records: Seq<RecordModel>) -> bool {
    forall|i: int, j: int|
        0 <= i < j < records.len() ==> !((#[trigger] records[i]).lang == (
        #[trigger] records[j]).lang && records[i].title == records[j].title)
}

/// Pinning a page again replaces its record: no page gets two.
pub proof fn saving_again_replaces(records: Seq<RecordModel>, record: RecordModel)
    requires
        one_each(records),
    ensures
        one_each(put(records, record)),
{
    lemma_position(records, record.lang, record.title);
    let at = position(records, record.lang, record.title);
    let after = put(records, record);
    assert forall|i: int, j: int| 0 <= i < j < after.len() implies !((#[trigger] after[i]).lang == (
    #[trigger] after[j]).lang && after[i].title == after[j].title) by {
        if i != at && j != at {
            assert(after[i] == records[i] && after[j] == records[j]);
        } else if j == at {
            assert(after[i] == records[i]);
        } else {
            assert(after[j] == records[j] && records[at].lang == record.lang);
        }
    }
}

/// A page that was taken out is not found again.
pub proof fn a_removed_page_is_gone(records: Seq<RecordModel>, lang: Seq<char>, title: Seq<char>)
    requires
        one_each(records),
        record_for(records, lang, title) is Some,
    ensures
        record_for(records.remove(position(records, lang, title)), lang, title) is None,
{
    let at = position(records, lang, title);
    lemma_position(records, lang, title);
    let after = records.remove(at);
    lemma_position(after, lang, title);
    let p = position(after, lang, title);
    if p < after.len() {
        if p < at {
            assert(after[p] == records[p]);
        } else {
            assert(after[p] == records[p + 1]);
            assert(records[at].lang == records[p + 1].lang);
        }
    }
}

/// No more pictures than the cap are pinned.
pub proof fn pictures_are_capped(page: PageToSave, on_disk: bool, saved_at: Seq<char>)
    ensures
        page.record(on_disk, saved_at).thumbs.len() <= MAX_T1_THUMBS,
{
}

} // verus!
