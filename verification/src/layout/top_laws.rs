//! What a layout shows around its blocks: the title, the reading time and the
//! summaries of folded sections; and how a table's columns are chosen.
use vstd::prelude::*;

use crate::doc::minutes_to_read;
use crate::doc::plain_text;
use crate::doc::Block;
use crate::doc::Document;
use crate::layout::cluster::clusters_in;
use crate::layout::document::float_at;
use crate::layout::document::fold_rows;
use crate::layout::document::fold_suffix;
use crate::layout::document::headings_in;
use crate::layout::document::laid_document;
use crate::layout::document::lemma_next_heading;
use crate::layout::document::links_from;
use crate::layout::document::next_heading;
use crate::layout::document::paragraphs_in;
use crate::layout::document::shape_of;
use crate::layout::document::shows;
use crate::layout::document::with_fold;
use crate::layout::emit::block_gap;
use crate::layout::emit::plain_rows;
use crate::layout::emit::Row;
use crate::layout::emit::Shape;
use crate::layout::link_laws::lemma_float_block;
use crate::layout::link_laws::lemma_reach;
use crate::layout::link_laws::lemma_rest_climbs;
use crate::layout::link_laws::lemma_start;
use crate::layout::link_laws::stands_alone;
use crate::layout::link_laws::start_of;
use crate::layout::link_laws::summary_content;
use crate::layout::link_laws::summary_rows;
use crate::layout::mapping::lemma_fold_counts;
use crate::layout::mapping::lemma_split;
use crate::layout::page_laws::lemma_plain_ink;
use crate::layout::show_laws::cluster_ink;
use crate::layout::show_laws::fair;
use crate::layout::show_laws::fair_one;
use crate::layout::show_laws::ink;
use crate::layout::show_laws::lemma_cluster_ink_add;
use crate::layout::show_laws::lemma_ink_add;
use crate::layout::show_laws::lemma_rows_ink;
use crate::layout::show_laws::lemma_string_ink;
use crate::layout::show_laws::row_ink;
use crate::layout::types::line_text;
use crate::layout::types::ImageResolver;
use crate::layout::types::KindModel;
use crate::layout::types::Layout;
use crate::layout::types::LayoutOptions;
use crate::layout::types::SpanModel;
use crate::text::decimal;
use crate::text_laws::decimal_reads_back;
use crate::text_laws::is_numeral;
use crate::text_laws::number_read;

verus! {

/// The lines of a layout are these rows, from `at` on.
pub open spec fn rows_at(layout: Layout, at: int, rows: Seq<Row>) -> bool {
    &&& 0 <= at
    &&& at + rows.len() <= layout.lines@.len()
    &&& forall|j: int|
        0 <= j < rows.len() ==> (#[trigger] layout.lines@[at + j])@ == rows[j].line
}

/// A page starts with its title, all of it. Where there are words to read, the
/// reading time follows: digits that read as the minutes, and "min read".
/// Where there are none, nothing does.
#[verifier::spinoff_prover]
#[verifier::rlimit(40)]
pub proof fn a_page_starts_with_its_title<R: ImageResolver>(
    layout: Layout,
    doc: Document,
    width: u16,
    options: LayoutOptions,
    images: R,
    folds: Seq<usize>,
    but: Seq<char>,
) -> (r: (Seq<Row>, Seq<Row>, Seq<char>))
    requires
        shows(layout, laid_document(doc, width, options, images, folds)),
        links_from(doc.blocks@, 0) <= usize::MAX,
    ensures
        ({
            let (title, time, digits) = r;
            &&& rows_at(layout, 0, title + time)
            &&& title.len() > 0
            &&& row_ink(title, but) == ink(doc.title@, but)
            &&& doc.words == 0 ==> time.len() == 0
            &&& doc.words > 0 ==> {
                &&& is_numeral(digits)
                &&& number_read(digits) == minutes_to_read(
                    doc.words as nat,
                    options.reading_wpm as nat,
                )
                &&& row_ink(time, but) == ink(digits + " min read"@, but)
                &&& time.len() > 0
            }
        }),
{
    let shape = shape_of(width, options);
    let blocks = doc.blocks@;
    let float = float_at(width, shape, blocks);
    let laid = laid_document(doc, width, options, images, folds);
    let minutes = minutes_to_read(doc.words as nat, options.reading_wpm as nat);
    crate::doc_laws::reading_time_is_rounded_up(doc.words as nat, options.reading_wpm as nat);
    lemma_start(doc, shape, options);
    lemma_float_block(width, shape, blocks);
    let start = start_of(doc, shape, options);
    let more = lemma_rest_climbs(shape, start, blocks, 0, float, folds, images);
    let title = plain_rows(shape, doc.title@, KindModel::Title);
    lemma_plain_ink(shape, doc.title@, KindModel::Title, but);
    let digits = decimal(minutes);
    decimal_reads_back(minutes);
    let text = digits + " min read"@;
    lemma_plain_ink(shape, text, KindModel::Dim, but);
    let time = if minutes > 0 {
        plain_rows(shape, text, KindModel::Dim)
    } else {
        Seq::empty()
    };
    assert(title.len() > 0);
    assert(plain_rows(shape, text, KindModel::Dim).len() > 0);
    let head = title + time;
    assert(start.rows =~= head + block_gap(shape));
    assert forall|j: int| 0 <= j < head.len() implies (#[trigger] layout.lines@[0 + j])@
        == head[j].line by {
        assert(laid.rows[j] == start.rows[j]);
    }
    (title, time, digits)
}

/// The indices of the paragraphs of `blocks[from..to]`.
pub open spec fn paragraph_places(blocks: Seq<Block>, from: int, to: int) -> Set<int> {
    Set::new(|i: int| from <= i < to && blocks[i] is Paragraph)
}

/// The indices of the headings of `blocks[from..to]`.
pub open spec fn heading_places(blocks: Seq<Block>, from: int, to: int) -> Set<int> {
    Set::new(|i: int| from <= i < to && blocks[i] is Heading)
}

/// The counts are those of the places.
proof fn lemma_places(blocks: Seq<Block>, from: int, to: int)
    requires
        from <= to,
    ensures
        paragraph_places(blocks, from, to).finite(),
        paragraph_places(blocks, from, to).len() == paragraphs_in(blocks, from, to),
        heading_places(blocks, from, to).finite(),
        heading_places(blocks, from, to).len() == headings_in(blocks, from, to),
    decreases to - from,
{
    let p = paragraph_places(blocks, from, to);
    let h = heading_places(blocks, from, to);
    if from == to {
        assert(p =~= Set::empty());
        assert(h =~= Set::empty());
    } else {
        lemma_places(blocks, from, to - 1);
        let pb = paragraph_places(blocks, from, to - 1);
        let hb = heading_places(blocks, from, to - 1);
        if blocks[to - 1] is Paragraph {
            assert(p =~= pb.insert(to - 1));
        } else {
            assert(p =~= pb);
        }
        if blocks[to - 1] is Heading {
            assert(h =~= hb.insert(to - 1));
        } else {
            assert(h =~= hb);
        }
    }
}

/// A section counts its paragraphs and its headings.
pub proof fn a_section_counts_its_blocks(blocks: Seq<Block>, from: int, to: int)
    requires
        0 <= from <= to <= blocks.len(),
    ensures
        paragraph_places(blocks, from, to).len() == paragraphs_in(blocks, from, to),
        heading_places(blocks, from, to).len() == headings_in(blocks, from, to),
{
    lemma_places(blocks, from, to);
}

/// A section ends at the next heading of its own level or above, or with the
/// document: no such heading stands before the end.
pub proof fn a_section_ends_at_its_equal(blocks: Seq<Block>, from: int, level: u8)
    requires
        0 <= from <= blocks.len(),
    ensures
        ({
            let end = next_heading(blocks, from, level);
            &&& from <= end <= blocks.len()
            &&& end < blocks.len() ==> blocks[end] is Heading && blocks[end]->Heading_level
                <= level
            &&& forall|i: int|
                from <= i < end ==> !((#[trigger] blocks[i]) is Heading
                    && blocks[i]->Heading_level <= level)
        }),
    decreases blocks.len() - from,
{
    if from < blocks.len() && !(blocks[from] is Heading && blocks[from]->Heading_level <= level) {
        a_section_ends_at_its_equal(blocks, from + 1, level);
    }
}

/// A folded section shows its title and how much it holds: digits that read as
/// the number of its paragraphs and of its headings.
#[verifier::spinoff_prover]
#[verifier::rlimit(40)]
pub proof fn a_fold_shows_what_it_holds<R: ImageResolver>(
    layout: Layout,
    doc: Document,
    width: u16,
    options: LayoutOptions,
    images: R,
    folds: Seq<usize>,
    b: int,
    but: Seq<char>,
) -> (r: (Seq<Row>, Seq<char>, Seq<char>))
    requires
        shows(layout, laid_document(doc, width, options, images, folds)),
        links_from(doc.blocks@, 0) <= usize::MAX,
        stands_alone(
            doc.blocks@,
            0,
            float_at(width, shape_of(width, options), doc.blocks@),
            folds,
            b,
        ),
        doc.blocks@[b] is Heading,
        folds.contains(b as usize),
    ensures
        ({
            let (rows, paragraphs, sections) = r;
            let blocks = doc.blocks@;
            let end = next_heading(blocks, b + 1, blocks[b]->Heading_level);
            let title = plain_text(blocks[b]->Heading_spans@);
            &&& b < layout.block_lines@.len()
            &&& rows_at(layout, layout.block_lines@[b] as int, rows)
            &&& rows.len() > 0
            &&& is_numeral(paragraphs)
            &&& number_read(paragraphs) == paragraph_places(blocks, b + 1, end).len()
            &&& is_numeral(sections)
            &&& number_read(sections) == heading_places(blocks, b + 1, end).len()
            &&& row_ink(rows, but) == ink(
                "▸ "@ + title + " ("@ + paragraphs + " ¶, "@ + sections + (if heading_places(
                    blocks,
                    b + 1,
                    end,
                ).len() == 1 {
                    " subsection)"@
                } else {
                    " subsections)"@
                }),
                but,
            )
        }),
{
    let shape = shape_of(width, options);
    let blocks = doc.blocks@;
    let float = float_at(width, shape, blocks);
    lemma_start(doc, shape, options);
    lemma_float_block(width, shape, blocks);
    let laid = laid_document(doc, width, options, images, folds);
    let start = start_of(doc, shape, options);
    let s = lemma_reach(shape, start, blocks, 0, float, folds, images, b);
    let level = blocks[b]->Heading_level;
    let end = next_heading(blocks, b + 1, level);
    lemma_next_heading(blocks, b + 1, level);
    lemma_split(blocks, b + 1, end);
    lemma_fold_counts(shape, s, blocks, b, end);
    lemma_places(blocks, b + 1, end);
    let next = with_fold(shape, s, blocks, b, end);
    let more = lemma_rest_climbs(shape, next, blocks, end, float, folds, images);
    let rows = summary_rows(shape, blocks, b, end);
    let p = paragraphs_in(blocks, b + 1, end);
    let h = headings_in(blocks, b + 1, end);
    decimal_reads_back(p);
    decimal_reads_back(h);
    let title = plain_text(blocks[b]->Heading_spans@);
    lemma_summary_ink(shape, blocks, b, end, but);
    let word = if h == 1 {
        " subsection)"@
    } else {
        " subsections)"@
    };
    assert("▸ "@ + title + " ("@ + decimal(p) + " ¶, "@ + decimal(h) + word =~= ("▸ "@ + title)
        + fold_suffix(p, h));
    let at = s.rows.len() + shape.paragraph_spacing as nat;
    assert(next.anchors[b] == at);
    assert(laid.anchors[b] == at);
    assert(layout.block_lines@.map_values(|a: usize| a as nat)[b] == at);
    assert(rows.len() > 0);
    let fold = fold_rows(shape, title, level, p, h);
    assert(fold =~= block_gap(shape) + rows + block_gap(shape));
    assert forall|j: int| 0 <= j < rows.len() implies (#[trigger] layout.lines@[at + j])@
        == rows[j].line by {
        assert(fold[shape.paragraph_spacing + j] == rows[j]);
        assert(next.rows[at + j] == fold[shape.paragraph_spacing + j]);
        assert(laid.rows[at + j] == next.rows[at + j]);
    }
    (rows, decimal(p), decimal(h))
}

proof fn lemma_summary_ink(
    shape: Shape,
    blocks: Seq<Block>,
    b: int,
    end: int,
    but: Seq<char>,
)
    ensures
        row_ink(summary_rows(shape, blocks, b, end), but) == ink(
            ("▸ "@ + plain_text(blocks[b]->Heading_spans@)) + fold_suffix(
                paragraphs_in(blocks, b + 1, end),
                headings_in(blocks, b + 1, end),
            ),
            but,
        ),
{
    let aw = shape.ambiguous_wide;
    let title = "▸ "@ + plain_text(blocks[b]->Heading_spans@);
    let suffix = fold_suffix(
        paragraphs_in(blocks, b + 1, end),
        headings_in(blocks, b + 1, end),
    );
    let kind = KindModel::Heading(blocks[b]->Heading_level);
    let first = clusters_in(title, kind, aw);
    let second = clusters_in(suffix, KindModel::Dim, aw);
    let content = summary_content(shape, blocks, b, end);
    lemma_string_ink(title, kind, aw, but);
    lemma_string_ink(suffix, KindModel::Dim, aw, but);
    lemma_cluster_ink_add(first, second, but);
    lemma_ink_add(title, suffix, but);
    assert(fair(content)) by {
        assert forall|i: int| 0 <= i < content.len() implies fair_one(#[trigger] content[i]) by {
            if i < first.len() {
                assert(content[i] == first[i]);
            } else {
                assert(content[i] == second[i - first.len()]);
            }
        }
    }
    let none = Seq::<SpanModel>::empty();
    assert(line_text(none) =~= Seq::empty());
    lemma_rows_ink(shape, content, none, none, shape.plain(), but);
    assert(Seq::<char>::empty() + cluster_ink(content, but) =~= ink(title + suffix, but));
}

} // verus!
