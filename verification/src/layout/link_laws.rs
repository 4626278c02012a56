//! Where a layout's links, headings and folded sections are.
use vstd::prelude::*;

use crate::doc::minutes_to_read;
use crate::doc::plain_text;
use crate::doc::Block;
use crate::doc::Document;
use crate::layout::card::card_lines;
use crate::layout::cluster::clusters_in;
use crate::layout::cluster::ClusterModel;
use crate::layout::document::columns_before;
use crate::layout::document::find_link;
use crate::layout::document::float_at;
use crate::layout::document::float_card_width;
use crate::layout::document::float_rows;
use crate::layout::document::fold_rows;
use crate::layout::document::fold_suffix;
use crate::layout::document::header_rows;
use crate::layout::document::headings_in;
use crate::layout::document::held;
use crate::layout::document::laid_document;
use crate::layout::document::laid_from;
use crate::layout::document::laid_nothing;
use crate::layout::document::lead_shape;
use crate::layout::document::lemma_next_heading;
use crate::layout::document::link_place;
use crate::layout::document::links_between;
use crate::layout::document::links_from;
use crate::layout::document::next_heading;
use crate::layout::document::paragraphs_in;
use crate::layout::document::shape_of;
use crate::layout::document::shows;
use crate::layout::document::with_block;
use crate::layout::document::with_blocks;
use crate::layout::document::with_float;
use crate::layout::document::with_fold;
use crate::layout::document::Laid;
use crate::layout::emit::block_gap;
use crate::layout::emit::block_rows;
use crate::layout::emit::plain_rows;
use crate::layout::emit::wrapped_rows;
use crate::layout::emit::Row;
use crate::layout::emit::Shape;
use crate::layout::line::pad_spans;
use crate::layout::link_order::climbing;
use crate::layout::link_order::lemma_block_climbs;
use crate::layout::link_order::lemma_climb_add;
use crate::layout::link_order::lemma_gap_none;
use crate::layout::link_order::lemma_kinds_in;
use crate::layout::link_order::lemma_linked_add;
use crate::layout::link_order::lemma_linked_climb;
use crate::layout::link_order::lemma_linked_none;
use crate::layout::link_order::lemma_linkless;
use crate::layout::link_order::lemma_none_add;
use crate::layout::link_order::lemma_plain_rows_none;
use crate::layout::link_order::lemma_row_kinds_add;
use crate::layout::link_order::lemma_wrapped_rows_climb;
use crate::layout::link_order::linked;
use crate::layout::link_order::linkless;
use crate::layout::link_order::row_kinds;
use crate::layout::mapping::lemma_float_counts;
use crate::layout::mapping::lemma_float_is_infobox;
use crate::layout::mapping::lemma_fold_counts;
use crate::layout::mapping::lemma_split;
use crate::layout::order::kinds;
use crate::layout::order::span_kinds;
use crate::layout::types::ImageResolver;
use crate::layout::types::KindModel;
use crate::layout::types::Layout;
use crate::layout::types::LayoutOptions;
use crate::layout::types::MatchSpan;
use crate::layout::types::SpanModel;

verus! {

/// Blocks one after the other add rows whose links go on from the last.
pub proof fn lemma_blocks_climb<R: ImageResolver>(
    shape: Shape,
    at: Laid,
    blocks: Seq<Block>,
    from: int,
    to: int,
    images: R,
) -> (more: Seq<Row>)
    requires
        from <= to,
        at.links + links_between(blocks, from, to) <= usize::MAX,
    ensures
        with_blocks(shape, at, blocks, from, to, images).rows == at.rows + more,
        with_blocks(shape, at, blocks, from, to, images).links == at.links + links_between(
            blocks,
            from,
            to,
        ),
        climbing(
            row_kinds(more),
            at.links as int,
            (at.links + links_between(blocks, from, to)) as int,
        ),
    decreases to - from,
{
    if from == to {
        assert(at.rows + Seq::<Row>::empty() =~= at.rows);
        Seq::empty()
    } else {
        let before = lemma_blocks_climb(shape, at, blocks, from, to - 1, images);
        let state = with_blocks(shape, at, blocks, from, to - 1, images);
        let block = blocks[to - 1];
        lemma_block_climbs(shape, block, images, state.links);
        let rows = block_rows(shape, block, images, state.links);
        lemma_row_kinds_add(before, rows);
        lemma_climb_add(
            row_kinds(before),
            row_kinds(rows),
            at.links as int,
            state.links as int,
            (at.links + links_between(blocks, from, to)) as int,
        );
        assert(at.rows + before + rows =~= at.rows + (before + rows));
        before + rows
    }
}

/// A card beside the lead adds no link to it.
proof fn lemma_float_linked(shape: Shape, lead: Seq<Row>, card: Seq<Seq<char>>, n: int)
    requires
        0 <= n <= float_rows(shape, lead, card).len(),
    ensures
        linked(row_kinds(float_rows(shape, lead, card).take(n))) == linked(
            row_kinds(
                lead.take(
                    if n <= lead.len() {
                        n
                    } else {
                        lead.len() as int
                    },
                ),
            ),
        ),
    decreases n,
{
    let rows = float_rows(shape, lead, card);
    if n == 0 {
        assert(rows.take(0) =~= Seq::empty());
        assert(lead.take(0) =~= Seq::empty());
    } else {
        let j = n - 1;
        lemma_float_linked(shape, lead, card, j);
        assert(rows.take(n).drop_last() =~= rows.take(j));
        let row = rows[j];
        lemma_linked_add(row_kinds(rows.take(j)), span_kinds(row.line));
        let left = if j < lead.len() {
            lead[j].line
        } else {
            Seq::empty()
        };
        let pad = pad_spans(shape.pad_width as nat);
        let m = pad.len() + left.len();
        let right = row.line.skip(m as int);
        assert(span_kinds(row.line) =~= span_kinds(pad) + span_kinds(left) + span_kinds(right));
        lemma_linked_add(span_kinds(pad) + span_kinds(left), span_kinds(right));
        lemma_linked_add(span_kinds(pad), span_kinds(left));
        assert(linkless(span_kinds(pad)));
        assert(linkless(span_kinds(right)));
        lemma_linked_none(span_kinds(pad));
        lemma_linked_none(span_kinds(right));
        assert(linked(span_kinds(row.line)) =~= linked(span_kinds(left)));
        if j < lead.len() {
            assert(lead.take(n).drop_last() =~= lead.take(j));
            lemma_linked_add(row_kinds(lead.take(j)), span_kinds(lead[j].line));
        } else {
            assert(span_kinds(left) =~= Seq::empty());
            assert(linked(row_kinds(rows.take(j))) + linked(span_kinds(left)) =~= linked(
                row_kinds(rows.take(j)),
            ));
        }
    }
}

proof fn lemma_float_climbs<R: ImageResolver>(
    shape: Shape,
    at: Laid,
    blocks: Seq<Block>,
    i: int,
    end: int,
    images: R,
) -> (more: Seq<Row>)
    requires
        0 <= i < end <= blocks.len(),
        at.links + links_between(blocks, i + 1, end) <= usize::MAX,
    ensures
        with_float(shape, at, blocks, i, end, images).rows == at.rows + more,
        with_float(shape, at, blocks, i, end, images).links == at.links + links_between(
            blocks,
            i + 1,
            end,
        ),
        climbing(
            row_kinds(more),
            at.links as int,
            (at.links + links_between(blocks, i + 1, end)) as int,
        ),
{
    let start = laid_nothing(at.links);
    let lead_rows = lemma_blocks_climb(lead_shape(shape), start, blocks, i + 1, end, images);
    let lead = with_blocks(lead_shape(shape), start, blocks, i + 1, end, images);
    assert(lead.rows =~= lead_rows);
    let card = card_lines(blocks[i]->Infobox_0@, float_card_width(shape), shape.ambiguous_wide);
    let rows = float_rows(shape, lead.rows, card);
    let lo = at.links as int;
    let hi = (at.links + links_between(blocks, i + 1, end)) as int;
    lemma_float_linked(shape, lead.rows, card, rows.len() as int);
    assert(rows.take(rows.len() as int) =~= rows);
    assert(lead.rows.take(lead.rows.len() as int) =~= lead.rows);
    lemma_linked_climb(row_kinds(lead.rows), lo, hi);
    lemma_linked_climb(row_kinds(rows), lo, hi);
    lemma_gap_none(shape);
    lemma_linkless(row_kinds(block_gap(shape)), hi, hi);
    lemma_row_kinds_add(rows, block_gap(shape));
    lemma_climb_add(row_kinds(rows), row_kinds(block_gap(shape)), lo, hi, hi);
    assert(at.rows + rows + block_gap(shape) =~= at.rows + (rows + block_gap(shape)));
    rows + block_gap(shape)
}

/// The text of a folded section's summary.
pub open spec fn summary_content(
    shape: Shape,
    blocks: Seq<Block>,
    heading: int,
    end: int,
) -> Seq<ClusterModel> {
    clusters_in(
        "▸ "@ + plain_text(blocks[heading]->Heading_spans@),
        KindModel::Heading(blocks[heading]->Heading_level),
        shape.ambiguous_wide,
    ) + clusters_in(
        fold_suffix(
            paragraphs_in(blocks, heading + 1, end),
            headings_in(blocks, heading + 1, end),
        ),
        KindModel::Dim,
        shape.ambiguous_wide,
    )
}

/// The rows of a folded section's summary.
pub open spec fn summary_rows(
    shape: Shape,
    blocks: Seq<Block>,
    heading: int,
    end: int,
) -> Seq<Row> {
    wrapped_rows(
        shape,
        summary_content(shape, blocks, heading, end),
        Seq::empty(),
        Seq::empty(),
        shape.plain(),
    )
}

proof fn lemma_fold_none(shape: Shape, blocks: Seq<Block>, heading: int, end: int)
    requires
        blocks[heading] is Heading,
    ensures
        ({
            let rows = fold_rows(
                shape,
                plain_text(blocks[heading]->Heading_spans@),
                blocks[heading]->Heading_level,
                paragraphs_in(blocks, heading + 1, end),
                headings_in(blocks, heading + 1, end),
            );
            &&& linkless(row_kinds(rows))
            &&& rows == block_gap(shape) + summary_rows(shape, blocks, heading, end) + block_gap(
                shape,
            )
        }),
{
    let level = blocks[heading]->Heading_level;
    let title = "▸ "@ + plain_text(blocks[heading]->Heading_spans@);
    let suffix = fold_suffix(
        paragraphs_in(blocks, heading + 1, end),
        headings_in(blocks, heading + 1, end),
    );
    let aw = shape.ambiguous_wide;
    let content = summary_content(shape, blocks, heading, end);
    lemma_kinds_in(title, KindModel::Heading(level), aw);
    lemma_kinds_in(suffix, KindModel::Dim, aw);
    let a = clusters_in(title, KindModel::Heading(level), aw);
    let b = clusters_in(suffix, KindModel::Dim, aw);
    assert forall|i: int| 0 <= i < kinds(content).len() implies !(
    #[trigger] kinds(content)[i] is Link) by {
        if i < a.len() {
            assert(kinds(content)[i] == kinds(a)[i]);
        } else {
            assert(kinds(content)[i] == kinds(b)[i - a.len()]);
        }
    }
    lemma_linkless(kinds(content), 0, 0);
    let empty = Seq::<SpanModel>::empty();
    assert(linkless(span_kinds(empty)));
    lemma_wrapped_rows_climb(shape, content, empty, empty, shape.plain(), 0, 0);
    let body = summary_rows(shape, blocks, heading, end);
    lemma_linkless(row_kinds(body), 0, 0);
    lemma_gap_none(shape);
    lemma_none_add(block_gap(shape), body);
    lemma_none_add(block_gap(shape) + body, block_gap(shape));
}

/// Block `b` is laid out where it stands: no floated card takes it along, and
/// no folded section before it hides it.
pub open spec fn stands_alone(
    blocks: Seq<Block>,
    i: int,
    float: int,
    folds: Seq<usize>,
    b: int,
) -> bool
    decreases blocks.len() - i,
{
    if i < 0 || i >= blocks.len() {
        false
    } else if i == b {
        true
    } else if i == float {
        let end = next_heading(blocks, i + 1, 255);
        i < end <= blocks.len() && stands_alone(blocks, end, float, folds, b)
    } else if blocks[i] is Heading && folds.contains(i as usize) {
        let end = next_heading(blocks, i + 1, blocks[i]->Heading_level);
        i < end <= blocks.len() && stands_alone(blocks, end, float, folds, b)
    } else {
        stands_alone(blocks, i + 1, float, folds, b)
    }
}

/// One step through a document: what is laid out after it, the rows it adds,
/// and the block that comes next.
#[verifier::spinoff_prover]
#[verifier::rlimit(40)]
proof fn lemma_step<R: ImageResolver>(
    shape: Shape,
    at: Laid,
    blocks: Seq<Block>,
    i: int,
    float: int,
    folds: Seq<usize>,
    images: R,
) -> (r: (Laid, Seq<Row>, int))
    requires
        0 <= i < blocks.len(),
        i == float ==> blocks[i] is Infobox,
        at.links + links_from(blocks, i) <= usize::MAX,
    ensures
        i < r.2 <= blocks.len(),
        laid_from(shape, at, blocks, i, float, folds, images) == laid_from(
            shape,
            r.0,
            blocks,
            r.2,
            float,
            folds,
            images,
        ),
        r.0.rows == at.rows + r.1,
        r.0.links + links_from(blocks, r.2) == at.links + links_from(blocks, i),
        climbing(row_kinds(r.1), at.links as int, r.0.links as int),
        at.links <= r.0.links,
        r.0.anchors.len() == at.anchors.len() + (r.2 - i),
        forall|b: int| 0 <= b < at.anchors.len() ==> (#[trigger] r.0.anchors[b]) == at.anchors[b],
        forall|b: int|
            b != i && #[trigger] stands_alone(blocks, i, float, folds, b) ==> stands_alone(
                blocks,
                r.2,
                float,
                folds,
                b,
            ),
{
    if i == float {
        let end = next_heading(blocks, i + 1, 255);
        lemma_next_heading(blocks, i + 1, 255);
        lemma_split(blocks, i + 1, end);
        lemma_float_counts(shape, at, blocks, i, end, images);
        let rows = lemma_float_climbs(shape, at, blocks, i, end, images);
        (with_float(shape, at, blocks, i, end, images), rows, end)
    } else if blocks[i] is Heading && folds.contains(i as usize) {
        let level = blocks[i]->Heading_level;
        let end = next_heading(blocks, i + 1, level);
        lemma_next_heading(blocks, i + 1, level);
        lemma_split(blocks, i + 1, end);
        lemma_fold_counts(shape, at, blocks, i, end);
        lemma_fold_none(shape, blocks, i, end);
        let rows = fold_rows(
            shape,
            plain_text(blocks[i]->Heading_spans@),
            level,
            paragraphs_in(blocks, i + 1, end),
            headings_in(blocks, i + 1, end),
        );
        let next = with_fold(shape, at, blocks, i, end);
        lemma_linkless(row_kinds(rows), at.links as int, next.links as int);
        (next, rows, end)
    } else {
        lemma_block_climbs(shape, blocks[i], images, at.links);
        (
            with_block(shape, at, blocks[i], images),
            block_rows(shape, blocks[i], images, at.links),
            i + 1,
        )
    }
}

/// The rest of a document adds rows whose links go on from the last, and
/// leaves the anchors so far.
pub proof fn lemma_rest_climbs<R: ImageResolver>(
    shape: Shape,
    at: Laid,
    blocks: Seq<Block>,
    i: int,
    float: int,
    folds: Seq<usize>,
    images: R,
) -> (more: Seq<Row>)
    requires
        0 <= i <= blocks.len(),
        0 <= float < blocks.len() ==> blocks[float] is Infobox,
        at.links + links_from(blocks, i) <= usize::MAX,
    ensures
        ({
            let laid = laid_from(shape, at, blocks, i, float, folds, images);
            &&& laid.rows == at.rows + more
            &&& laid.links == at.links + links_from(blocks, i)
            &&& climbing(row_kinds(more), at.links as int, laid.links as int)
            &&& laid.anchors.len() == at.anchors.len() + blocks.len() - i
            &&& forall|b: int|
                0 <= b < at.anchors.len() ==> (#[trigger] laid.anchors[b]) == at.anchors[b]
        }),
    decreases blocks.len() - i,
{
    if i >= blocks.len() {
        assert(at.rows + Seq::<Row>::empty() =~= at.rows);
        Seq::empty()
    } else {
        let laid = laid_from(shape, at, blocks, i, float, folds, images);
        let (next, first, to) = lemma_step(shape, at, blocks, i, float, folds, images);
        let rest = lemma_rest_climbs(shape, next, blocks, to, float, folds, images);
        lemma_row_kinds_add(first, rest);
        lemma_climb_add(
            row_kinds(first),
            row_kinds(rest),
            at.links as int,
            next.links as int,
            laid.links as int,
        );
        assert(at.rows + first + rest =~= at.rows + (first + rest));
        assert forall|b: int| 0 <= b < at.anchors.len() implies (#[trigger] laid.anchors[b])
            == at.anchors[b] by {
            assert(next.anchors[b] == at.anchors[b]);
        }
        first + rest
    }
}

/// What is laid out when block `b` comes up.
pub proof fn lemma_reach<R: ImageResolver>(
    shape: Shape,
    at: Laid,
    blocks: Seq<Block>,
    i: int,
    float: int,
    folds: Seq<usize>,
    images: R,
    b: int,
) -> (s: Laid)
    requires
        stands_alone(blocks, i, float, folds, b),
        0 <= float < blocks.len() ==> blocks[float] is Infobox,
        at.links + links_from(blocks, i) <= usize::MAX,
        at.anchors.len() == i,
        climbing(row_kinds(at.rows), 0, at.links as int),
    ensures
        i <= b < blocks.len(),
        laid_from(shape, at, blocks, i, float, folds, images) == laid_from(
            shape,
            s,
            blocks,
            b,
            float,
            folds,
            images,
        ),
        s.anchors.len() == b,
        s.links + links_from(blocks, b) == at.links + links_from(blocks, i),
        climbing(row_kinds(s.rows), 0, s.links as int),
    decreases blocks.len() - i,
{
    if i == b {
        at
    } else {
        let (next, first, to) = lemma_step(shape, at, blocks, i, float, folds, images);
        lemma_row_kinds_add(at.rows, first);
        lemma_climb_add(
            row_kinds(at.rows),
            row_kinds(first),
            0,
            at.links as int,
            next.links as int,
        );
        lemma_reach(shape, next, blocks, to, float, folds, images, b)
    }
}

/// The rows above the first block.
pub open spec fn start_of(doc: Document, shape: Shape, options: LayoutOptions) -> Laid {
    Laid {
        rows: header_rows(
            shape,
            doc.title@,
            minutes_to_read(doc.words as nat, options.reading_wpm as nat),
        ),
        anchors: Seq::empty(),
        links: 0,
    }
}

pub proof fn lemma_start(doc: Document, shape: Shape, options: LayoutOptions)
    ensures
        climbing(row_kinds(start_of(doc, shape, options).rows), 0, 0),
{
    let minutes = minutes_to_read(doc.words as nat, options.reading_wpm as nat);
    let top = plain_rows(shape, doc.title@, KindModel::Title);
    let time = crate::text::decimal(minutes) + " min read"@;
    lemma_plain_rows_none(shape, doc.title@, KindModel::Title);
    lemma_plain_rows_none(shape, time, KindModel::Dim);
    lemma_none_add(top, plain_rows(shape, time, KindModel::Dim));
    lemma_gap_none(shape);
    let timed = if minutes > 0 {
        top + plain_rows(shape, time, KindModel::Dim)
    } else {
        top
    };
    lemma_none_add(timed, block_gap(shape));
    lemma_linkless(row_kinds(start_of(doc, shape, options).rows), 0, 0);
}

pub proof fn lemma_float_block(width: u16, shape: Shape, blocks: Seq<Block>)
    ensures
        ({
            let float = float_at(width, shape, blocks);
            0 <= float < blocks.len() ==> blocks[float] is Infobox
        }),
{
    lemma_float_is_infobox(blocks, 0);
}

/// A heading's anchor is the row where its own text starts.
pub proof fn a_heading_is_at_its_anchor<R: ImageResolver>(
    layout: Layout,
    doc: Document,
    width: u16,
    options: LayoutOptions,
    images: R,
    folds: Seq<usize>,
    b: int,
)
    requires
        shows(layout, laid_document(doc, width, options, images, folds)),
        links_from(doc.blocks@, 0) <= usize::MAX,
        stands_alone(
            doc.blocks@,
            0,
            float_at(width, shape_of(width, options), doc.blocks@),
            folds,
            b,
        ),
        doc.blocks@[b] is Heading,
        !folds.contains(b as usize),
    ensures
        0 <= b < layout.block_lines@.len(),
        layout.block_lines@[b] < layout.lines@.len(),
        layout.lines@[layout.block_lines@[b] as int]@ == plain_rows(
            shape_of(width, options),
            plain_text(doc.blocks@[b]->Heading_spans@),
            KindModel::Heading(doc.blocks@[b]->Heading_level),
        )[0].line,
{
    let shape = shape_of(width, options);
    let blocks = doc.blocks@;
    let float = float_at(width, shape, blocks);
    lemma_start(doc, shape, options);
    lemma_float_block(width, shape, blocks);
    let laid = laid_document(doc, width, options, images, folds);
    let s = lemma_reach(
        shape,
        start_of(doc, shape, options),
        blocks,
        0,
        float,
        folds,
        images,
        b,
    );
    let next = with_block(shape, s, blocks[b], images);
    lemma_block_climbs(shape, blocks[b], images, s.links);
    let more = lemma_rest_climbs(shape, next, blocks, b + 1, float, folds, images);
    let text = plain_text(blocks[b]->Heading_spans@);
    let own = plain_rows(shape, text, KindModel::Heading(blocks[b]->Heading_level));
    assert(own.len() > 0);
    let anchor = s.rows.len() + shape.paragraph_spacing as nat;
    assert(next.anchors[b] == anchor);
    assert(laid.anchors[b] == anchor);
    assert(next.rows[anchor as int] == own[0]);
    assert(laid.rows[anchor as int] == own[0]);
    assert(layout.block_lines@.map_values(|a: usize| a as nat)[b] == anchor);
    assert(layout.lines@[anchor as int]@ == laid.rows[anchor as int].line);
}

/// The anchors of a folded section all point to its one summary, and none of
/// its links shows, though each keeps its number.
pub proof fn a_folded_section_is_one_summary<R: ImageResolver>(
    layout: Layout,
    doc: Document,
    width: u16,
    options: LayoutOptions,
    images: R,
    folds: Seq<usize>,
    b: int,
)
    requires
        shows(layout, laid_document(doc, width, options, images, folds)),
        links_from(doc.blocks@, 0) <= usize::MAX,
        stands_alone(
            doc.blocks@,
            0,
            float_at(width, shape_of(width, options), doc.blocks@),
            folds,
            b,
        ),
        doc.blocks@[b] is Heading,
        folds.contains(b as usize),
    ensures
        ({
            let end = next_heading(doc.blocks@, b + 1, doc.blocks@[b]->Heading_level);
            &&& 0 <= b < end <= layout.block_lines@.len()
            &&& layout.block_lines@[b] < layout.lines@.len()
            &&& layout.lines@[layout.block_lines@[b] as int]@ == summary_rows(
                shape_of(width, options),
                doc.blocks@,
                b,
                end,
            )[0].line
            &&& forall|j: int|
                b <= j < end ==> (#[trigger] layout.block_lines@[j]) == layout.block_lines@[b]
            &&& forall|o: int|
                links_from(doc.blocks@, 0) - links_from(doc.blocks@, b) <= o < links_from(
                    doc.blocks@,
                    0,
                ) - links_from(doc.blocks@, end) ==> !(#[trigger] layout.link_visible@[o])
        }),
{
    let shape = shape_of(width, options);
    let blocks = doc.blocks@;
    let float = float_at(width, shape, blocks);
    lemma_start(doc, shape, options);
    lemma_float_block(width, shape, blocks);
    let laid = laid_document(doc, width, options, images, folds);
    let s = lemma_reach(
        shape,
        start_of(doc, shape, options),
        blocks,
        0,
        float,
        folds,
        images,
        b,
    );
    let level = blocks[b]->Heading_level;
    let end = next_heading(blocks, b + 1, level);
    lemma_next_heading(blocks, b + 1, level);
    lemma_split(blocks, b + 1, end);
    lemma_fold_counts(shape, s, blocks, b, end);
    lemma_fold_none(shape, blocks, b, end);
    let next = with_fold(shape, s, blocks, b, end);
    let more = lemma_rest_climbs(shape, next, blocks, end, float, folds, images);
    let own = summary_rows(shape, blocks, b, end);
    assert(own.len() > 0);
    let anchor = s.rows.len() + shape.paragraph_spacing as nat;
    let lines = layout.block_lines@.map_values(|a: usize| a as nat);
    assert forall|j: int| b <= j < end implies (#[trigger] layout.block_lines@[j]) as nat
        == anchor by {
        assert(next.anchors[j] == anchor);
        assert(laid.anchors[j] == anchor);
        assert(lines[j] == anchor);
    }
    assert(next.rows[anchor as int] == own[0]);
    assert(laid.rows[anchor as int] == own[0]);
    assert(layout.lines@[anchor as int]@ == laid.rows[anchor as int].line);
    let fold = fold_rows(
        shape,
        plain_text(blocks[b]->Heading_spans@),
        level,
        paragraphs_in(blocks, b + 1, end),
        headings_in(blocks, b + 1, end),
    );
    assert(laid.rows =~= s.rows + fold + more);
    assert forall|o: int|
        links_from(blocks, 0) - links_from(blocks, b) <= o < links_from(blocks, 0) - links_from(
            blocks,
            end,
        ) implies !(#[trigger] layout.link_visible@[o]) by {
        lemma_between(
            s.rows,
            fold,
            more,
            s.links as int,
            next.links as int,
            laid.links as int,
            o as usize,
        );
        lemma_find_link(laid.rows, laid.rows.len() as int, 0, o as usize);
    }
}

/// A link is nowhere where the links before end below its number and those
/// after start past it.
proof fn lemma_between(
    before: Seq<Row>,
    fold: Seq<Row>,
    after: Seq<Row>,
    lo: int,
    hi: int,
    top: int,
    occurrence: usize,
)
    requires
        climbing(row_kinds(before), 0, lo),
        linkless(row_kinds(fold)),
        climbing(row_kinds(after), hi, top),
        lo <= occurrence < hi,
    ensures
        absent(before + fold + after, occurrence),
{
    let rows = before + fold + after;
    lemma_absent(before, occurrence, 0, lo);
    lemma_absent_none(fold, occurrence);
    lemma_absent(after, occurrence, hi, top);
    assert forall|r: int, k: int|
        0 <= r < rows.len() && 0 <= k < rows[r].line.len() implies (
    #[trigger] rows[r].line[k]).kind != KindModel::Link(occurrence) by {
        if r < before.len() {
            assert(rows[r] == before[r]);
            assert(before[r].line[k].kind != KindModel::Link(occurrence));
        } else if r < before.len() + fold.len() {
            assert(rows[r] == fold[r - before.len()]);
            assert(fold[r - before.len()].line[k].kind != KindModel::Link(occurrence));
        } else {
            let m = r - before.len() - fold.len();
            assert(rows[r] == after[m]);
            assert(after[m].line[k].kind != KindModel::Link(occurrence));
        }
    }
}

/// No span of the rows is the link.
pub open spec fn absent(rows: Seq<Row>, occurrence: usize) -> bool {
    forall|r: int, k: int|
        0 <= r < rows.len() && 0 <= k < rows[r].line.len() ==> (#[trigger] rows[r].line[k]).kind
            != KindModel::Link(occurrence)
}

/// Where row `r` starts among the kinds of the rows.
spec fn row_start(rows: Seq<Row>, r: int) -> int {
    row_kinds(rows.take(r)).len() as int
}

proof fn lemma_kind_at(rows: Seq<Row>, r: int, k: int)
    requires
        0 <= r < rows.len(),
        0 <= k < rows[r].line.len(),
    ensures
        0 <= row_start(rows, r) + k < row_start(rows, r + 1) <= row_kinds(rows).len(),
        row_kinds(rows)[row_start(rows, r) + k] == rows[r].line[k].kind,
    decreases rows.len(),
{
    assert(rows.take(r + 1).drop_last() =~= rows.take(r));
    if r == rows.len() - 1 {
        assert(rows.take(r + 1) =~= rows);
        assert(rows.drop_last() =~= rows.take(r));
    } else {
        lemma_kind_at(rows.drop_last(), r, k);
        assert(rows.drop_last().take(r) =~= rows.take(r));
        assert(rows.drop_last().take(r + 1) =~= rows.take(r + 1));
    }
}

proof fn lemma_row_starts(rows: Seq<Row>, q: int, r: int)
    requires
        0 <= q <= r <= rows.len(),
    ensures
        row_start(rows, q) <= row_start(rows, r),
    decreases r,
{
    if q < r {
        lemma_row_starts(rows, q, r - 1);
        assert(rows.take(r).drop_last() =~= rows.take(r - 1));
    }
}

proof fn lemma_absent(rows: Seq<Row>, occurrence: usize, lo: int, hi: int)
    requires
        climbing(row_kinds(rows), lo, hi),
        !(lo <= occurrence < hi),
    ensures
        absent(rows, occurrence),
{
    assert forall|r: int, k: int|
        0 <= r < rows.len() && 0 <= k < rows[r].line.len() implies (
    #[trigger] rows[r].line[k]).kind != KindModel::Link(occurrence) by {
        lemma_kind_at(rows, r, k);
        assert(row_kinds(rows)[row_start(rows, r) + k] matches KindModel::Link(n) ==> lo <= n
            < hi);
    }
}

proof fn lemma_absent_none(rows: Seq<Row>, occurrence: usize)
    requires
        linkless(row_kinds(rows)),
    ensures
        absent(rows, occurrence),
{
    lemma_linkless(row_kinds(rows), occurrence + 1, occurrence + 1);
    lemma_absent(rows, occurrence, occurrence + 1, occurrence + 1);
}

/// Span `k` of row `r` is the first that is the link.
pub open spec fn first_at(rows: Seq<Row>, occurrence: usize, r: int, k: int) -> bool {
    &&& 0 <= r < rows.len()
    &&& 0 <= k < rows[r].line.len()
    &&& rows[r].line[k].kind == KindModel::Link(occurrence)
    &&& forall|q: int, j: int|
        0 <= q < rows.len() && 0 <= j < rows[q].line.len() && (q < r || q == r && j < k) ==> (
        #[trigger] rows[q].line[j]).kind != KindModel::Link(occurrence)
}

/// The place is that of the first span that is the link: its row, and its
/// columns there.
pub open spec fn found_at(rows: Seq<Row>, occurrence: usize, place: (nat, MatchSpan)) -> bool {
    exists|s: int|
        {
            &&& #[trigger] first_at(rows, occurrence, place.0 as int, s)
            &&& place.1.start == held(columns_before(rows[place.0 as int].line, s))
            &&& place.1.end == held(columns_before(rows[place.0 as int].line, s + 1))
        }
}

/// A link that was found is where it shows first; one that was not found is
/// nowhere before.
proof fn lemma_find_link(rows: Seq<Row>, n: int, k: int, occurrence: usize)
    requires
        0 <= n <= rows.len(),
        0 <= k,
        k > 0 ==> n < rows.len() && k <= rows[n].line.len(),
    ensures
        find_link(rows, n, k, occurrence) matches Some(place) ==> found_at(rows, occurrence, place),
        find_link(rows, n, k, occurrence) is None ==> forall|q: int, j: int|
            0 <= q < rows.len() && 0 <= j < rows[q].line.len() && (q < n || q == n && j < k) ==> (
            #[trigger] rows[q].line[j]).kind != KindModel::Link(occurrence),
    decreases n, k,
{
    if k > 0 {
        lemma_find_link(rows, n, k - 1, occurrence);
        if find_link(rows, n, k - 1, occurrence) is None {
            if rows[n].line[k - 1].kind == KindModel::Link(occurrence) {
                if let Some(place) = find_link(rows, n, k, occurrence) {
                    let line = rows[n].line;
                    assert(place.0 as int == n);
                    assert(first_at(rows, occurrence, place.0 as int, k - 1));
                    assert(place.1.start == held(columns_before(line, k - 1)));
                    assert(place.1.end == held(columns_before(line, (k - 1) + 1)));
                }
            } else {
                assert(find_link(rows, n, k, occurrence) is None);
            }
        } else {
            assert(find_link(rows, n, k, occurrence) == find_link(rows, n, k - 1, occurrence));
        }
    } else if n > 0 {
        lemma_find_link(rows, n - 1, rows[n - 1].line.len() as int, occurrence);
        assert(find_link(rows, n, k, occurrence) == find_link(
            rows,
            n - 1,
            rows[n - 1].line.len() as int,
            occurrence,
        ));
    } else {
        assert(find_link(rows, n, k, occurrence) is None);
    }
}

/// A link that shows is where the layout says: its columns on its line are
/// those of the first span that is the link, and nothing above or before is.
pub proof fn a_link_is_where_it_says<R: ImageResolver>(
    layout: Layout,
    doc: Document,
    width: u16,
    options: LayoutOptions,
    images: R,
    folds: Seq<usize>,
    o: int,
)
    requires
        shows(layout, laid_document(doc, width, options, images, folds)),
        0 <= o < layout.link_visible@.len() <= usize::MAX,
    ensures
        ({
            let rows = laid_document(doc, width, options, images, folds).rows;
            &&& layout.link_visible@[o] <==> !absent(rows, o as usize)
            &&& layout.link_visible@[o] ==> found_at(
                rows,
                o as usize,
                (layout.link_lines@[o] as nat, layout.link_cols@[o]),
            )
        }),
{
    let rows = laid_document(doc, width, options, images, folds).rows;
    lemma_find_link(rows, rows.len() as int, 0, o as usize);
    assert(layout.link_visible@[o] == (link_place(rows, o as usize) is Some));
    if let Some(place) = link_place(rows, o as usize) {
        let s = choose|s: int| #[trigger] first_at(rows, o as usize, place.0 as int, s);
        assert(rows[place.0 as int].line[s].kind == KindModel::Link(o as usize));
    }
}

proof fn lemma_columns_grow(line: Seq<SpanModel>, j: int, k: int)
    requires
        0 <= j <= k,
    ensures
        columns_before(line, j) <= columns_before(line, k),
    decreases k,
{
    if j < k {
        lemma_columns_grow(line, j, k - 1);
    }
}

/// Links show in the order of the document: of two that show, the earlier one
/// is on a line above, or before the other on the same line.
pub proof fn links_show_in_order<R: ImageResolver>(
    layout: Layout,
    doc: Document,
    width: u16,
    options: LayoutOptions,
    images: R,
    folds: Seq<usize>,
    a: int,
    b: int,
)
    requires
        shows(layout, laid_document(doc, width, options, images, folds)),
        links_from(doc.blocks@, 0) <= usize::MAX,
        0 <= a < b < layout.link_visible@.len(),
        layout.link_visible@[a],
        layout.link_visible@[b],
    ensures
        layout.link_lines@[a] <= layout.link_lines@[b],
        layout.link_lines@[a] == layout.link_lines@[b] ==> layout.link_cols@[a].end
            <= layout.link_cols@[b].start,
{
    let shape = shape_of(width, options);
    let blocks = doc.blocks@;
    let start = start_of(doc, shape, options);
    let float = float_at(width, shape, blocks);
    lemma_start(doc, shape, options);
    lemma_float_block(width, shape, blocks);
    let more = lemma_rest_climbs(shape, start, blocks, 0, float, folds, images);
    let laid = laid_document(doc, width, options, images, folds);
    lemma_row_kinds_add(start.rows, more);
    lemma_climb_add(row_kinds(start.rows), row_kinds(more), 0, 0, laid.links as int);
    let rows = laid.rows;
    let ks = row_kinds(rows);
    a_link_is_where_it_says(layout, doc, width, options, images, folds, a);
    a_link_is_where_it_says(layout, doc, width, options, images, folds, b);
    let p = layout.link_lines@[a] as int;
    let q = layout.link_lines@[b] as int;
    let s = choose|s: int|
        {
            &&& #[trigger] first_at(rows, a as usize, p, s)
            &&& layout.link_cols@[a].start == held(columns_before(rows[p].line, s))
            &&& layout.link_cols@[a].end == held(columns_before(rows[p].line, s + 1))
        };
    let t = choose|t: int|
        {
            &&& #[trigger] first_at(rows, b as usize, q, t)
            &&& layout.link_cols@[b].start == held(columns_before(rows[q].line, t))
            &&& layout.link_cols@[b].end == held(columns_before(rows[q].line, t + 1))
        };
    lemma_kind_at(rows, p, s);
    lemma_kind_at(rows, q, t);
    if q < p {
        lemma_row_starts(rows, q + 1, p);
        assert(ks[row_start(rows, q) + t] == KindModel::Link(b as usize));
        assert(ks[row_start(rows, p) + s] == KindModel::Link(a as usize));
    } else if q == p {
        assert(ks[row_start(rows, q) + t] == KindModel::Link(b as usize));
        assert(ks[row_start(rows, p) + s] == KindModel::Link(a as usize));
        assert(s < t);
        lemma_columns_grow(rows[p].line, s + 1, t);
    }
}

} // verus!
