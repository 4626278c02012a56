//! Laws of pinned pages and of the index over them.
use vstd::prelude::*;
use vstd::utf8::encode_utf8;

use crate::offline_search::page_key;
use crate::offline_search::row_id;
use crate::offline_search::rows_after;
use crate::offline_search::steps_to_index;
use crate::offline_search::steps_to_index_all;
use crate::offline_search::RowModel;
use crate::offline_search::StepModel;
use crate::saved::age;
use crate::saved::hex_lower;
use crate::saved::hex_text;
use crate::saved::instant_of;
use crate::saved::lemma_position;
use crate::saved::position;
use crate::saved::put;
use crate::saved::record_for;
use crate::saved::sha256_of;
use crate::saved::size_sum;
use crate::saved::thumb_for;
use crate::saved::thumbs_total;
use crate::saved::PageToSave;
use crate::saved::RecordModel;
use crate::saved::ThumbModel;
use crate::saved::MAX_T1_THUMBS;
use crate::text_laws::decimal_reads_back;
use crate::text_laws::is_numeral;
use crate::text_laws::number_read;

verus! {

/// The value of a lowercase hexadecimal digit.
pub open spec fn nibble(c: char) -> int {
    if '0' <= c && c <= '9' {
        c as int - '0' as int
    } else {
        c as int - 'a' as int + 10
    }
}

/// The bytes that hexadecimal digits stand for, two digits a byte.
pub open spec fn bytes_read(s: Seq<char>) -> Seq<int>
    decreases s.len(),
{
    if s.len() < 2 {
        Seq::empty()
    } else {
        bytes_read(s.take(s.len() - 2)).push(
            16 * nibble(s[s.len() - 2]) + nibble(s[s.len() - 1]),
        )
    }
}

proof fn lemma_nibble(v: int)
    requires
        0 <= v < 16,
    ensures
        nibble(hex_lower(v)) == v,
{
}

/// Bytes are read back from their hexadecimal text, which has two digits for
/// each.
pub proof fn hex_reads_back(bytes: Seq<u8>)
    ensures
        hex_text(bytes).len() == 2 * bytes.len(),
        bytes_read(hex_text(bytes)) == bytes.map_values(|b: u8| b as int),
    decreases bytes.len(),
{
    let want = bytes.map_values(|b: u8| b as int);
    if bytes.len() == 0 {
        assert(bytes_read(hex_text(bytes)) =~= want);
    } else {
        let front = bytes.drop_last();
        hex_reads_back(front);
        let s = hex_text(bytes);
        let last = bytes.last() as int;
        lemma_nibble(last / 16);
        lemma_nibble(last % 16);
        assert(s.take(s.len() - 2) =~= hex_text(front));
        assert(16 * (last / 16) + last % 16 == last);
        assert(bytes_read(s) =~= want);
    }
}

/// The sum of the sizes in picture records.
pub open spec fn pictures_size(thumbs: Seq<ThumbModel>) -> nat
    decreases thumbs.len(),
{
    if thumbs.len() == 0 {
        0
    } else {
        pictures_size(thumbs.drop_last()) + thumbs.last().bytes as nat
    }
}

proof fn lemma_pictures(thumbs: Seq<(String, Vec<u8>)>, on_disk: bool)
    requires
        thumbs_total(thumbs) <= u64::MAX,
    ensures
        pictures_size(crate::saved::thumb_records(thumbs, on_disk)) == thumbs_total(thumbs),
    decreases thumbs.len(),
{
    let records = crate::saved::thumb_records(thumbs, on_disk);
    if thumbs.len() > 0 {
        let front = thumbs.drop_last();
        lemma_pictures(front, on_disk);
        assert(records.drop_last() =~= crate::saved::thumb_records(front, on_disk));
    }
}

/// A record tells of the page what was pinned: its name, revision, tier, note
/// and summaries as they were given; of its pictures the first, up to the cap,
/// in order, each with its source and its size; the sizes in bytes, of the
/// text, of the pictures, and of both together; and a digest that reads back
/// as that of the text. On disk a picture's file is named by its number.
pub proof fn a_record_tells_the_page(page: PageToSave, on_disk: bool, saved_at: Seq<char>)
    requires
        page.fits(),
    ensures
        ({
            let record = page.record(on_disk, saved_at);
            let n = if page.thumbs@.len() <= MAX_T1_THUMBS {
                page.thumbs@.len() as int
            } else {
                MAX_T1_THUMBS as int
            };
            &&& record.lang == page.lang@
            &&& record.title == page.title@
            &&& record.revid == page.revid
            &&& record.tier == page.tier
            &&& record.saved_at == saved_at
            &&& record.source_note == page.source_note@
            &&& record.summaries.len() == page.summaries@.len()
            &&& forall|i: int|
                0 <= i < page.summaries@.len() ==> #[trigger] record.summaries[i] == (
                    page.summaries@[i].title@,
                    page.summaries@[i].extract@,
                )
            &&& record.thumbs.len() == n
            &&& forall|i: int|
                0 <= i < n ==> {
                    let thumb = #[trigger] record.thumbs[i];
                    &&& thumb.src == page.thumbs@[i].0@
                    &&& thumb.bytes == page.thumbs@[i].1@.len()
                    &&& on_disk ==> is_numeral(thumb.file) && number_read(thumb.file) == i
                    &&& !on_disk ==> thumb.file == Seq::<char>::empty()
                }
            &&& record.html_bytes == encode_utf8(page.html@).len()
            &&& record.thumb_bytes == pictures_size(record.thumbs)
            &&& record.size_total == record.html_bytes + record.thumb_bytes
            &&& bytes_read(record.sha256) == sha256_of(encode_utf8(page.html@)).map_values(
                |b: u8| b as int,
            )
        }),
{
    let record = page.record(on_disk, saved_at);
    let thumbs = crate::saved::capped(page.thumbs@);
    lemma_pictures(thumbs, on_disk);
    hex_reads_back(sha256_of(encode_utf8(page.html@)));
    assert forall|i: int| 0 <= i < thumbs.len() implies {
        let thumb = #[trigger] record.thumbs[i];
        &&& thumb.src == page.thumbs@[i].0@
        &&& thumb.bytes == page.thumbs@[i].1@.len()
        &&& on_disk ==> is_numeral(thumb.file) && number_read(thumb.file) == i
        &&& !on_disk ==> thumb.file == Seq::<char>::empty()
    } by {
        decimal_reads_back(i as nat);
        assert(thumbs[i] == page.thumbs@[i]);
        lemma_one_size(thumbs, i);
    }
}

proof fn lemma_one_size(thumbs: Seq<(String, Vec<u8>)>, i: int)
    requires
        0 <= i < thumbs.len(),
    ensures
        thumbs[i].1@.len() <= thumbs_total(thumbs),
    decreases thumbs.len(),
{
    if i < thumbs.len() - 1 {
        lemma_one_size(thumbs.drop_last(), i);
    }
}

/// The record is that of the page.
pub open spec fn is_of(record: RecordModel, lang: Seq<char>, title: Seq<char>) -> bool {
    record.lang == lang && record.title == title
}

/// A page's record is the first that bears its language and title; a page has
/// none exactly where no record bears them.
pub proof fn a_page_is_found_by_its_name(
    records: Seq<RecordModel>,
    lang: Seq<char>,
    title: Seq<char>,
) -> (i: int)
    ensures
        match record_for(records, lang, title) {
            Some(record) => {
                &&& 0 <= i < records.len()
                &&& record == records[i]
                &&& is_of(record, lang, title)
                &&& forall|j: int| 0 <= j < i ==> !is_of(#[trigger] records[j], lang, title)
            },
            None => forall|j: int|
                0 <= j < records.len() ==> !is_of(#[trigger] records[j], lang, title),
        },
{
    lemma_position(records, lang, title);
    position(records, lang, title)
}

/// Pinning a page changes no other page's record, and adds one record where
/// the page had none and none where it had one.
pub proof fn pinning_touches_one_page(records: Seq<RecordModel>, record: RecordModel)
    ensures
        ({
            let after = put(records, record);
            &&& record_for(records, record.lang, record.title) is Some ==> after.len()
                == records.len()
            &&& record_for(records, record.lang, record.title) is None ==> after.len()
                == records.len() + 1
            &&& forall|i: int|
                0 <= i < records.len() && !is_of(
                    #[trigger] records[i],
                    record.lang,
                    record.title,
                ) ==> after[i] == records[i]
        }),
{
    lemma_position(records, record.lang, record.title);
}

/// Taking a page out takes its size off the total, and no other record.
pub proof fn removal_takes_one_record(
    records: Seq<RecordModel>,
    lang: Seq<char>,
    title: Seq<char>,
)
    requires
        record_for(records, lang, title) is Some,
    ensures
        ({
            let at = position(records, lang, title);
            let after = records.remove(at);
            &&& size_sum(after) + record_for(records, lang, title)->0.size_total == size_sum(
                records,
            )
            &&& after.len() == records.len() - 1
            &&& forall|i: int| 0 <= i < at ==> #[trigger] after[i] == records[i]
            &&& forall|i: int| at <= i < after.len() ==> #[trigger] after[i] == records[i + 1]
        }),
{
    lemma_position(records, lang, title);
    lemma_sum_without(records, position(records, lang, title));
}

proof fn lemma_sum_without(records: Seq<RecordModel>, at: int)
    requires
        0 <= at < records.len(),
    ensures
        size_sum(records.remove(at)) + records[at].size_total == size_sum(records),
    decreases records.len(),
{
    let after = records.remove(at);
    if at == records.len() - 1 {
        assert(after =~= records.drop_last());
    } else {
        let front = records.drop_last();
        lemma_sum_without(front, at);
        assert(after.drop_last() =~= front.remove(at));
        assert(after.last() == records.last());
    }
}

/// A page's age is the time from its pinning to now, and nothing where the
/// time of pinning lies ahead or is not known.
pub proof fn age_is_time_passed(saved_at: Seq<char>, now: i64)
    ensures
        match instant_of(saved_at) {
            Some(t) => if t <= now {
                t + age(saved_at, now) == now
            } else {
                age(saved_at, now) == 0
            },
            None => age(saved_at, now) == 0,
        },
{
}

/// A picture is found by its source: the first record with it, and none where
/// no record has it.
pub proof fn a_picture_is_found_by_its_source(thumbs: Seq<ThumbModel>, src: Seq<char>) -> (i: int)
    ensures
        match thumb_for(thumbs, src) {
            Some(thumb) => {
                &&& 0 <= i < thumbs.len()
                &&& thumb == thumbs[i]
                &&& thumb.src == src
                &&& forall|j: int| 0 <= j < i ==> (#[trigger] thumbs[j]).src != src
            },
            None => forall|j: int| 0 <= j < thumbs.len() ==> (#[trigger] thumbs[j]).src != src,
        },
    decreases thumbs.len(),
{
    if thumbs.len() == 0 || thumbs[0].src == src {
        0
    } else {
        let rest = thumbs.drop_first();
        let i = a_picture_is_found_by_its_source(rest, src);
        assert forall|j: int| 0 < j < thumbs.len() implies thumbs[j] == rest[j - 1] by {}
        if thumb_for(thumbs, src) is Some {
            assert forall|j: int| 0 <= j < i + 1 implies (#[trigger] thumbs[j]).src != src by {
                if j > 0 {
                    assert(thumbs[j] == rest[j - 1]);
                }
            }
        } else {
            assert forall|j: int| 0 <= j < thumbs.len() implies (#[trigger] thumbs[j]).src
                != src by {
                if j > 0 {
                    assert(thumbs[j] == rest[j - 1]);
                }
            }
        }
        i + 1
    }
}

/// What tells pages apart in the index does: two pages with the same key are
/// the same page. A wiki's name and a language hold no null.
pub proof fn page_keys_tell_pages_apart(
    wiki: Seq<char>,
    lang: Seq<char>,
    title: Seq<char>,
    other_wiki: Seq<char>,
    other_lang: Seq<char>,
    other_title: Seq<char>,
)
    requires
        !wiki.contains('\0'),
        !lang.contains('\0'),
        !other_wiki.contains('\0'),
        !other_lang.contains('\0'),
        page_key(wiki, lang, title) == page_key(other_wiki, other_lang, other_title),
    ensures
        wiki == other_wiki,
        lang == other_lang,
        title == other_title,
{
    let a = page_key(wiki, lang, title);
    let b = page_key(other_wiki, other_lang, other_title);
    let rest = lang.push('\0') + title;
    let other = other_lang.push('\0') + other_title;
    assert(a =~= wiki.push('\0') + rest);
    assert(b =~= other_wiki.push('\0') + other);
    lemma_cut_at_null(wiki, rest, other_wiki, other);
    lemma_cut_at_null(lang, title, other_lang, other_title);
}

proof fn lemma_cut_at_null(a: Seq<char>, x: Seq<char>, b: Seq<char>, y: Seq<char>)
    requires
        !a.contains('\0'),
        !b.contains('\0'),
        a.push('\0') + x == b.push('\0') + y,
    ensures
        a == b,
        x == y,
{
    let s = a.push('\0') + x;
    let t = b.push('\0') + y;
    if a.len() < b.len() {
        assert(s[a.len() as int] == '\0');
        assert(t[a.len() as int] == b[a.len() as int]);
        assert(b.contains(b[a.len() as int]));
    } else if b.len() < a.len() {
        assert(t[b.len() as int] == '\0');
        assert(s[b.len() as int] == a[b.len() as int]);
        assert(a.contains(a[b.len() as int]));
    }
    assert forall|i: int| 0 <= i < a.len() implies a[i] == b[i] by {
        assert(s[i] == t[i]);
    }
    assert(a =~= b);
    assert(s.len() == t.len());
    assert forall|i: int| 0 <= i < x.len() implies x[i] == y[i] by {
        assert(s[a.len() + 1 + i] == t[a.len() + 1 + i]);
    }
    assert(x =~= y);
}

/// After the index is built anew every page has its row, with its own text
/// unless a later page has the same row.
pub proof fn reindexing_finds_every_page(rows: Map<i64, RowModel>, pages: Seq<RowModel>, i: int)
    requires
        0 <= i < pages.len(),
        forall|j: int|
            i < j < pages.len() ==> row_id(
                (#[trigger] pages[j]).wiki,
                pages[j].lang,
                pages[j].title,
            ) != row_id(pages[i].wiki, pages[i].lang, pages[i].title),
    ensures
        ({
            let id = row_id(pages[i].wiki, pages[i].lang, pages[i].title);
            let after = rows_after(rows, seq![StepModel::Clear] + steps_to_index_all(pages));
            after.contains_key(id) && after[id] == pages[i]
        }),
    decreases pages.len(),
{
    let clear = seq![StepModel::Clear];
    let before = pages.drop_last();
    let last = pages[pages.len() - 1];
    let head = clear + steps_to_index_all(before);
    let id = row_id(pages[i].wiki, pages[i].lang, pages[i].title);
    assert(pages.last() == last);
    assert(clear + steps_to_index_all(pages) =~= head + steps_to_index(last));
    let all = head + steps_to_index(last);
    let last_id = row_id(last.wiki, last.lang, last.title);
    let one = all.drop_last();
    assert(one =~= head.push(StepModel::Delete(last_id)));
    assert(one.drop_last() =~= head);
    assert(all.last() == StepModel::Insert(last_id, last));
    assert(one.last() == StepModel::Delete(last_id));
    let middle = rows_after(rows, head);
    assert(rows_after(rows, one) == middle.remove(last_id));
    assert(rows_after(rows, all) == middle.remove(last_id).insert(last_id, last));
    if i < pages.len() - 1 {
        assert(before[i] == pages[i]);
        assert forall|j: int| i < j < before.len() implies row_id(
            (#[trigger] before[j]).wiki,
            before[j].lang,
            before[j].title,
        ) != row_id(before[i].wiki, before[i].lang, before[i].title) by {
            assert(before[j] == pages[j]);
        }
        reindexing_finds_every_page(rows, before, i);
        assert(last_id != id);
    }
}

} // verus!
