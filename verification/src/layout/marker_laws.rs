//! Where the rows of a block stand in a layout, and what a list item's first
//! row starts with.
use vstd::prelude::*;

use crate::doc::Block;
use crate::doc::Document;
use crate::doc::Span;
use crate::doc::link_count;
use crate::layout::card::card_lines;
use crate::layout::cluster::ClusterModel;
use crate::layout::cluster::cluster_model;
use crate::layout::cluster::clusters_in;
use crate::layout::document::Laid;
use crate::layout::document::float_at;
use crate::layout::document::float_card_width;
use crate::layout::document::float_rows;
use crate::layout::document::laid_document;
use crate::layout::document::laid_nothing;
use crate::layout::document::lead_shape;
use crate::layout::document::lemma_next_heading;
use crate::layout::document::links_from;
use crate::layout::document::next_heading;
use crate::layout::document::shape_of;
use crate::layout::document::shows;
use crate::layout::document::with_block;
use crate::layout::document::with_blocks;
use crate::layout::document::with_float;
use crate::layout::emit::Row;
use crate::layout::emit::Shape;
use crate::layout::emit::anchor_offset;
use crate::layout::emit::block_rows;
use crate::layout::emit::list_marker;
use crate::layout::emit::prefix_fits;
use crate::layout::emit::spaced_rows;
use crate::layout::emit::span_of;
use crate::layout::emit::widest;
use crate::layout::emit::wrap_width;
use crate::layout::emit::wrapped_rows;
use crate::layout::line::coalesced;
use crate::layout::line::final_line;
use crate::layout::line::flattened;
use crate::layout::line::kind_of;
use crate::layout::line::pad_spans;
use crate::layout::line::span_display;
use crate::layout::line::wrapped;
use crate::layout::link_laws::lemma_float_block;
use crate::layout::link_laws::lemma_reach;
use crate::layout::link_laws::lemma_rest_climbs;
use crate::layout::link_laws::lemma_start;
use crate::layout::link_laws::stands_alone;
use crate::layout::link_laws::start_of;
use crate::layout::link_order::lemma_block_climbs;
use crate::layout::mapping::lemma_float_counts;
use crate::layout::mapping::lemma_split;
use crate::layout::measure::cells;
use crate::layout::measure::cells_additive;
use crate::layout::measure::grapheme_clusters;
use crate::layout::measure::lemma_cells_spaces;
use crate::layout::overflow::lemma_span_cells;
use crate::layout::types::ImageResolver;
use crate::layout::types::KindModel;
use crate::layout::types::Layout;
use crate::layout::types::LayoutOptions;
use crate::layout::types::SpanModel;
use crate::layout::types::line_text;
use crate::layout::types::line_texts;
use crate::layout::wrap::WrapOpts;
use crate::text::all_whitespace;
use crate::text::concat_all;
use crate::text::decimal;
use crate::text::spaces;
use crate::text_laws::decimal_reads_back;
use crate::text_laws::is_digit;
use crate::text_laws::is_numeral;
use crate::text_laws::number_read;

verus! {

/// The block lies in the lead beside the floated card.
pub open spec fn in_lead(blocks: Seq<Block>, float: int, folds: Seq<usize>, b: int) -> bool {
    &&& 0 <= float < b < next_heading(blocks, float + 1, 255)
    &&& stands_alone(blocks, 0, float, folds, float)
}

/// The block's own rows are laid out: it is neither the floated card nor in a
/// folded section.
pub open spec fn is_laid_out(blocks: Seq<Block>, float: int, folds: Seq<usize>, b: int) -> bool {
    ||| in_lead(blocks, float, folds, b)
    ||| {
        &&& b != float
        &&& !(blocks[b] is Heading && folds.contains(b as usize))
        &&& stands_alone(blocks, 0, float, folds, b)
    }
}

/// The column the block is laid out in: the page's own, or the lead's.
pub open spec fn column_for(
    shape: Shape,
    blocks: Seq<Block>,
    float: int,
    folds: Seq<usize>,
    b: int,
) -> Shape {
    if in_lead(blocks, float, folds, b) {
        lead_shape(shape)
    } else {
        shape
    }
}

/// The row's text starts with `pad` spaces and the text; what follows is the
/// card beside it, where there is one.
pub open spec fn starts_with(row: Row, pad: nat, text: Seq<char>) -> bool {
    (spaces(pad) + text).is_prefix_of(line_text(row.line))
}

/// A line's text is that of its parts.
pub proof fn lemma_line_text_add(a: Seq<SpanModel>, b: Seq<SpanModel>)
    ensures
        line_text(a + b) == line_text(a) + line_text(b),
    decreases b.len(),
{
    if b.len() == 0 {
        assert(a + b =~= a);
        assert(line_text(a) + line_text(b) =~= line_text(a));
    } else {
        let ab = a + b;
        lemma_line_text_add(a, b.drop_last());
        assert(ab.drop_last() =~= a + b.drop_last());
        assert(line_texts(ab).drop_last() =~= line_texts(ab.drop_last()));
        assert(line_texts(b).drop_last() =~= line_texts(b.drop_last()));
        assert(line_text(ab) =~= line_text(a) + line_text(b));
    }
}

/// One span's text is its own.
pub proof fn lemma_span_text(text: Seq<char>, kind: KindModel)
    ensures
        line_text(span_of(text, kind)) == text,
{
    reveal_with_fuel(concat_all, 2);
    let texts = line_texts(span_of(text, kind));
    assert(texts.drop_last() =~= Seq::empty());
    assert(concat_all(texts) =~= text);
}

/// The left pad is spaces.
pub proof fn lemma_pad_text(pad: nat)
    ensures
        line_text(pad_spans(pad)) == spaces(pad),
{
    if pad > 0 {
        lemma_span_text(spaces(pad), KindModel::Plain);
        assert(pad_spans(pad) =~= span_of(spaces(pad), KindModel::Plain));
    } else {
        assert(line_text(pad_spans(pad)) =~= spaces(pad));
    }
}

/// Where a block's rows start in a sequence of blocks, and the link number it
/// starts with.
proof fn lemma_in_blocks<R: ImageResolver>(
    shape: Shape,
    at: Laid,
    blocks: Seq<Block>,
    from: int,
    to: int,
    images: R,
    b: int,
) -> (s: Laid)
    requires
        from <= b < to,
    ensures
        s == with_blocks(shape, at, blocks, from, b, images),
        ({
            let all = with_blocks(shape, at, blocks, from, to, images);
            let own = block_rows(shape, blocks[b], images, s.links);
            &&& s.rows.len() + own.len() <= all.rows.len()
            &&& forall|j: int|
                0 <= j < own.len() ==> #[trigger] all.rows[s.rows.len() + j] == own[j]
            &&& s.anchors.len() == at.anchors.len() + (b - from)
            &&& all.anchors.len() == at.anchors.len() + (to - from)
            &&& all.anchors[at.anchors.len() + (b - from)] == s.rows.len() + anchor_offset(
                shape,
                blocks[b],
            )
        }),
    decreases to - from,
{
    let s = with_blocks(shape, at, blocks, from, b, images);
    let before = with_blocks(shape, at, blocks, from, to - 1, images);
    if b == to - 1 {
        lemma_anchors_count(shape, at, blocks, from, b, images);
        s
    } else {
        let t = lemma_in_blocks(shape, at, blocks, from, to - 1, images, b);
        let own = block_rows(shape, blocks[b], images, s.links);
        let all = with_blocks(shape, at, blocks, from, to, images);
        assert forall|j: int| 0 <= j < own.len() implies #[trigger] all.rows[s.rows.len() + j]
            == own[j] by {
            assert(before.rows[s.rows.len() + j] == own[j]);
        }
        s
    }
}

proof fn lemma_anchors_count<R: ImageResolver>(
    shape: Shape,
    at: Laid,
    blocks: Seq<Block>,
    from: int,
    to: int,
    images: R,
)
    requires
        from <= to,
    ensures
        with_blocks(shape, at, blocks, from, to, images).anchors.len() == at.anchors.len() + (to
            - from),
    decreases to - from,
{
    if from < to {
        lemma_anchors_count(shape, at, blocks, from, to - 1, images);
    }
}

/// A block's rows stand together in the layout, in order, from `r.0` on; its
/// first link has number `r.1`.
#[verifier::spinoff_prover]
#[verifier::rlimit(40)]
pub proof fn lemma_block_place<R: ImageResolver>(
    doc: Document,
    width: u16,
    options: LayoutOptions,
    images: R,
    folds: Seq<usize>,
    b: int,
) -> (r: (int, nat))
    requires
        links_from(doc.blocks@, 0) <= usize::MAX,
        0 <= b < doc.blocks@.len(),
        is_laid_out(
            doc.blocks@,
            float_at(width, shape_of(width, options), doc.blocks@),
            folds,
            b,
        ),
    ensures
        ({
            let shape = shape_of(width, options);
            let float = float_at(width, shape, doc.blocks@);
            let column = column_for(shape, doc.blocks@, float, folds, b);
            let laid = laid_document(doc, width, options, images, folds);
            let own = block_rows(column, doc.blocks@[b], images, r.1);
            let pad = (shape.pad_width - column.pad_width) as nat;
            &&& 0 <= r.0
            &&& r.0 + own.len() <= laid.rows.len()
            &&& b < laid.anchors.len()
            &&& laid.anchors[b] == r.0 + anchor_offset(column, doc.blocks@[b])
            &&& forall|j: int|
                0 <= j < own.len() ==> starts_with(
                    #[trigger] laid.rows[r.0 + j],
                    pad,
                    line_text(own[j].line),
                )
            &&& !in_lead(doc.blocks@, float, folds, b) ==> forall|j: int|
                0 <= j < own.len() ==> #[trigger] laid.rows[r.0 + j] == own[j]
        }),
{
    let shape = shape_of(width, options);
    let blocks = doc.blocks@;
    let float = float_at(width, shape, blocks);
    let laid = laid_document(doc, width, options, images, folds);
    lemma_start(doc, shape, options);
    lemma_float_block(width, shape, blocks);
    let start = start_of(doc, shape, options);
    if in_lead(blocks, float, folds, b) {
        let s = lemma_reach(shape, start, blocks, 0, float, folds, images, float);
        let end = next_heading(blocks, float + 1, 255);
        lemma_next_heading(blocks, float + 1, 255);
        lemma_split(blocks, float + 1, end);
        lemma_float_counts(shape, s, blocks, float, end, images);
        let next = with_float(shape, s, blocks, float, end, images);
        let more = lemma_rest_climbs(shape, next, blocks, end, float, folds, images);
        let small = lead_shape(shape);
        let nothing = laid_nothing(s.links);
        let t = lemma_in_blocks(small, nothing, blocks, float + 1, end, images, b);
        let lead = with_blocks(small, nothing, blocks, float + 1, end, images);
        let card = card_lines(
            blocks[float]->Infobox_0@,
            float_card_width(shape),
            shape.ambiguous_wide,
        );
        let rows = float_rows(shape, lead.rows, card);
        let base = s.rows.len();
        let own = block_rows(small, blocks[b], images, t.links);
        let at = base + t.rows.len();
        assert(lead.anchors.map_values(|a: nat| base + a)[b - float - 1] == base
            + lead.anchors[b - float - 1]);
        assert(next.anchors[b] == at + anchor_offset(small, blocks[b]));
        assert(laid.anchors[b] == next.anchors[b]);
        assert forall|j: int| 0 <= j < own.len() implies starts_with(
            #[trigger] laid.rows[at + j],
            shape.pad_width as nat,
            line_text(own[j].line),
        ) by {
            let k = t.rows.len() + j;
            assert(laid.rows[at + j] == next.rows[at + j]);
            assert(next.rows[at + j] == rows[k]);
            assert(lead.rows[k] == own[j]);
            let pad = pad_spans(shape.pad_width as nat);
            let left = own[j].line;
            let line = rows[k].line;
            let right = line.skip((pad.len() + left.len()) as int);
            assert(line =~= pad + left + right);
            lemma_line_text_add(pad + left, right);
            lemma_line_text_add(pad, left);
            lemma_pad_text(shape.pad_width as nat);
        }
        (at as int, t.links)
    } else {
        let s = lemma_reach(shape, start, blocks, 0, float, folds, images, b);
        let next = with_block(shape, s, blocks[b], images);
        lemma_block_climbs(shape, blocks[b], images, s.links);
        let more = lemma_rest_climbs(shape, next, blocks, b + 1, float, folds, images);
        let own = block_rows(shape, blocks[b], images, s.links);
        let at = s.rows.len() as int;
        assert(next.anchors[b] == at + anchor_offset(shape, blocks[b]));
        assert(laid.anchors[b] == next.anchors[b]);
        assert forall|j: int| 0 <= j < own.len() implies #[trigger] laid.rows[at + j]
            == own[j] by {
            assert(laid.rows[at + j] == next.rows[at + j]);
        }
        assert forall|j: int| 0 <= j < own.len() implies starts_with(
            #[trigger] laid.rows[at + j],
            0,
            line_text(own[j].line),
        ) by {
            assert(laid.rows[at + j] == own[j]);
            assert(spaces(0) + line_text(own[j].line) =~= line_text(own[j].line));
        }
        (at, s.links)
    }
}

/// No cluster of the text is wider than `w`, gaps and breaks aside.
pub open spec fn no_wider(spans: Seq<Span>, w: nat, ambiguous_wide: bool) -> bool {
    forall|i: int, g: int|
        0 <= i < spans.len() && 0 <= g < grapheme_clusters(span_display(spans[i])).len() ==> {
            let cluster = #[trigger] grapheme_clusters(span_display(spans[i]))[g];
            !all_whitespace(cluster) ==> cells(cluster, ambiguous_wide) <= w
        }
}

/// The widest cluster of a text is within any bound on its clusters.
pub proof fn lemma_widest_within(
    spans: Seq<Span>,
    plain: KindModel,
    links: nat,
    ambiguous_wide: bool,
    w: nat,
)
    requires
        w >= 1,
        no_wider(spans, w, ambiguous_wide),
    ensures
        widest(flattened(spans, plain, links, ambiguous_wide)) <= w,
    decreases spans.len(),
{
    if spans.len() > 0 {
        let front = spans.drop_last();
        assert(no_wider(front, w, ambiguous_wide)) by {
            assert forall|i: int, g: int|
                0 <= i < front.len() && 0 <= g < grapheme_clusters(
                    span_display(front[i]),
                ).len() implies ({
                let cluster = #[trigger] grapheme_clusters(span_display(front[i]))[g];
                !all_whitespace(cluster) ==> cells(cluster, ambiguous_wide) <= w
            }) by {
                assert(front[i] == spans[i]);
                let cluster = grapheme_clusters(span_display(spans[i]))[g];
            }
        }
        lemma_widest_within(front, plain, links, ambiguous_wide, w);
        let a = flattened(front, plain, links, ambiguous_wide);
        let kind = kind_of(spans.last().style, plain, links + link_count(front));
        let b = clusters_in(span_display(spans.last()), kind, ambiguous_wide);
        assert forall|g: int| 0 <= g < b.len() implies within(#[trigger] b[g], w) by {
            let cluster = grapheme_clusters(span_display(spans[spans.len() - 1]))[g];
            assert(b[g] == cluster_model(cluster, kind, ambiguous_wide));
            if cluster.len() == 0 {
                assert(cells(cluster, ambiguous_wide) == 0);
            } else if all_whitespace(cluster) {
                assert(b[g].is_space || b[g].is_newline);
            }
        }
        lemma_widest_grows(a, b, w);
    }
}

/// The cluster is a gap, a break, or no wider than `w`.
spec fn within(c: ClusterModel, w: nat) -> bool {
    c.is_space || c.is_newline || c.width <= w
}

proof fn lemma_widest_grows(a: Seq<ClusterModel>, b: Seq<ClusterModel>, w: nat)
    requires
        widest(a) <= w,
        forall|g: int| 0 <= g < b.len() ==> within(#[trigger] b[g], w),
    ensures
        widest(a + b) <= w,
    decreases b.len(),
{
    if b.len() == 0 {
        assert(a + b =~= a);
    } else {
        let front = b.drop_last();
        assert((a + b).drop_last() =~= a + front);
        assert forall|g: int| 0 <= g < front.len() implies within(#[trigger] front[g], w) by {
            assert(front[g] == b[g]);
        }
        lemma_widest_grows(a, front, w);
        assert(within(b[b.len() - 1], w));
        assert((a + b).last() == b[b.len() - 1]);
    }
}

/// Printable ASCII takes a cell for each character.
proof fn lemma_ascii_cells(s: Seq<char>, ambiguous_wide: bool)
    requires
        forall|i: int| 0 <= i < s.len() ==> 0x20 <= (#[trigger] s[i]) as u32 && (s[i] as u32)
            < 0x7F,
    ensures
        cells(s, ambiguous_wide) == s.len(),
    decreases s.len(),
{
    if s.len() > 0 {
        let front = s.drop_last();
        assert forall|i: int| 0 <= i < front.len() implies 0x20 <= (#[trigger] front[i]) as u32
            && (front[i] as u32) < 0x7F by {
            assert(front[i] == s[i]);
        }
        lemma_ascii_cells(front, ambiguous_wide);
        assert(0x20 <= s[s.len() - 1] as u32);
    }
}

/// The first row of wrapped content starts with its prefix.
proof fn lemma_spaced_first(
    shape: Shape,
    lines: Seq<Seq<ClusterModel>>,
    first: Seq<SpanModel>,
    rest: Seq<SpanModel>,
    n: int,
)
    requires
        n >= 1,
    ensures
        spaced_rows(shape, lines, first, rest, n).len() > 0,
        spaced_rows(shape, lines, first, rest, n)[0].line == final_line(
            shape.pad_width as nat,
            first,
            lines[0],
        ),
    decreases n,
{
    if n > 1 {
        lemma_spaced_first(shape, lines, first, rest, n - 1);
    } else {
        assert(spaced_rows(shape, lines, first, rest, 0) =~= Seq::empty());
    }
}

/// Wrapped content is not without rows, and the first starts with the pad and
/// the prefix that fits.
pub proof fn lemma_first_row(
    shape: Shape,
    content: Seq<ClusterModel>,
    text: Seq<char>,
    kind: KindModel,
    rest: Seq<SpanModel>,
    opts: WrapOpts,
)
    requires
        prefix_fits(shape, span_of(text, kind), content),
    ensures
        ({
            let rows = wrapped_rows(shape, content, span_of(text, kind), rest, opts);
            &&& rows.len() > 0
            &&& starts_with(rows[0], shape.pad_width as nat, text)
        }),
{
    let first = span_of(text, kind);
    let lines = wrapped(content, wrap_width(shape, first, content), opts);
    let rows = wrapped_rows(shape, content, first, rest, opts);
    let line = if lines.len() == 0 {
        Seq::empty()
    } else {
        lines[0]
    };
    if lines.len() > 0 {
        lemma_spaced_first(shape, lines, first, rest, lines.len() as int);
    }
    let pad = pad_spans(shape.pad_width as nat);
    assert(rows[0].line == pad + first + coalesced(line));
    lemma_line_text_add(pad + first, coalesced(line));
    lemma_line_text_add(pad, first);
    lemma_pad_text(shape.pad_width as nat);
    lemma_span_text(text, kind);
}

/// Text at the start of text at the start of a row is at the row's start.
proof fn lemma_starts_with(row: Row, own: Row, outer: nat, inner: nat, text: Seq<char>)
    requires
        starts_with(row, outer, line_text(own.line)),
        starts_with(own, inner, text),
    ensures
        starts_with(row, outer + inner, text),
{
    assert(spaces(outer + inner) =~= spaces(outer) + spaces(inner));
    let whole = line_text(row.line);
    let head = spaces(outer + inner) + text;
    let part = spaces(outer) + line_text(own.line);
    assert forall|i: int| 0 <= i < head.len() implies head[i] == whole[i] by {
        assert(whole[i] == part[i]);
        if i >= outer {
            assert(line_text(own.line)[i - outer] == (spaces(inner) + text)[i - outer]);
        }
    }
    assert(head =~= whole.take(head.len() as int));
}

/// A list item's anchor row starts with its marker where the marker fits.
#[verifier::spinoff_prover]
#[verifier::rlimit(40)]
proof fn lemma_item_row<R: ImageResolver>(
    layout: Layout,
    doc: Document,
    width: u16,
    options: LayoutOptions,
    images: R,
    folds: Seq<usize>,
    b: int,
    w: nat,
)
    requires
        shows(layout, laid_document(doc, width, options, images, folds)),
        links_from(doc.blocks@, 0) <= usize::MAX,
        0 <= b < doc.blocks@.len(),
        doc.blocks@[b] is ListItem,
        is_laid_out(
            doc.blocks@,
            float_at(width, shape_of(width, options), doc.blocks@),
            folds,
            b,
        ),
        w >= 1,
        no_wider(doc.blocks@[b]->ListItem_spans@, w, options.ambiguous_wide),
        ({
            let shape = shape_of(width, options);
            let float = float_at(width, shape, doc.blocks@);
            let column = column_for(shape, doc.blocks@, float, folds, b);
            let block = doc.blocks@[b];
            cells(list_marker(block->ordered, block->index, block->depth), options.ambiguous_wide)
                + w <= column.content_width
        }),
    ensures
        ({
            let laid = laid_document(doc, width, options, images, folds);
            let block = doc.blocks@[b];
            let row = layout.block_lines@[b] as int;
            &&& b < layout.block_lines@.len()
            &&& b < laid.anchors.len()
            &&& row == laid.anchors[b]
            &&& row < layout.lines@.len()
            &&& layout.lines@[row]@ == laid.rows[row].line
            &&& starts_with(
                laid.rows[row],
                shape_of(width, options).pad_width as nat,
                list_marker(block->ordered, block->index, block->depth),
            )
        }),
{
    let shape = shape_of(width, options);
    let blocks = doc.blocks@;
    let float = float_at(width, shape, blocks);
    let column = column_for(shape, blocks, float, folds, b);
    let aw = column.ambiguous_wide;
    let (at, links) = lemma_block_place(doc, width, options, images, folds, b);
    let laid = laid_document(doc, width, options, images, folds);
    let spans = blocks[b]->ListItem_spans@;
    let content = flattened(spans, KindModel::Plain, links, aw);
    lemma_widest_within(spans, KindModel::Plain, links, aw, w);
    let marker = list_marker(blocks[b]->ordered, blocks[b]->index, blocks[b]->depth);
    lemma_span_cells(marker, KindModel::Plain, aw);
    let rest = span_of(spaces(cells(marker, aw)), KindModel::Plain);
    lemma_first_row(column, content, marker, KindModel::Plain, rest, column.prose());
    let own = block_rows(column, blocks[b], images, links);
    assert(own == wrapped_rows(
        column,
        content,
        span_of(marker, KindModel::Plain),
        rest,
        column.prose(),
    ));
    let pad = (shape.pad_width - column.pad_width) as nat;
    assert(starts_with(laid.rows[at + 0], pad, line_text(own[0].line)));
    lemma_starts_with(laid.rows[at], own[0], pad, column.pad_width as nat, marker);
    assert(laid.anchors[b] == at);
    assert(layout.block_lines@.map_values(|a: usize| a as nat)[b] == at);
    assert(layout.lines@[at]@ == laid.rows[at].line);
}

/// The row where a numbered list item starts shows the item's own number: the
/// page's margin, two spaces for each level of depth, and digits that read as
/// the item's index, a full stop and a space before the item's text. The one
/// reason to leave the marker out is a column with no room for it beside the
/// widest cluster of the text.
#[verifier::spinoff_prover]
#[verifier::rlimit(40)]
pub proof fn a_numbered_item_shows_its_number<R: ImageResolver>(
    layout: Layout,
    doc: Document,
    width: u16,
    options: LayoutOptions,
    images: R,
    folds: Seq<usize>,
    b: int,
    w: nat,
) -> (digits: Seq<char>)
    requires
        shows(layout, laid_document(doc, width, options, images, folds)),
        links_from(doc.blocks@, 0) <= usize::MAX,
        0 <= b < doc.blocks@.len(),
        doc.blocks@[b] is ListItem,
        doc.blocks@[b]->ordered,
        is_laid_out(
            doc.blocks@,
            float_at(width, shape_of(width, options), doc.blocks@),
            folds,
            b,
        ),
        w >= 1,
        no_wider(doc.blocks@[b]->ListItem_spans@, w, options.ambiguous_wide),
    ensures
        is_numeral(digits),
        number_read(digits) == doc.blocks@[b]->index,
        ({
            let shape = shape_of(width, options);
            let float = float_at(width, shape, doc.blocks@);
            let column = column_for(shape, doc.blocks@, float, folds, b);
            let depth = doc.blocks@[b]->depth as nat;
            let row = layout.block_lines@[b] as int;
            let laid = laid_document(doc, width, options, images, folds);
            2 * depth + digits.len() + 2 + w <= column.content_width ==> {
                &&& b < layout.block_lines@.len()
                &&& row < layout.lines@.len()
                &&& (spaces(shape.pad_width as nat) + spaces(2 * depth) + digits + seq![
                    '.',
                    ' ',
                ]).is_prefix_of(line_text(layout.lines@[row]@))
                &&& starts_with(
                    laid.rows[laid.anchors[b] as int],
                    shape.pad_width as nat,
                    spaces(2 * depth) + digits + seq!['.', ' '],
                )
            }
        }),
{
    let shape = shape_of(width, options);
    let blocks = doc.blocks@;
    let float = float_at(width, shape, blocks);
    let column = column_for(shape, blocks, float, folds, b);
    let depth = blocks[b]->depth as nat;
    let digits = decimal(blocks[b]->index as nat);
    decimal_reads_back(blocks[b]->index as nat);
    if 2 * depth + digits.len() + 2 + w <= column.content_width {
        let marker = list_marker(true, blocks[b]->index, blocks[b]->depth);
        let mark = spaces(2 * depth) + digits + seq!['.', ' '];
        assert(marker =~= mark);
        assert forall|i: int| 0 <= i < marker.len() implies 0x20 <= (#[trigger] marker[i]) as u32
            && (marker[i] as u32) < 0x7F by {
            if 2 * depth <= i < 2 * depth + digits.len() {
                assert(is_digit(digits[i - 2 * depth]));
            }
        }
        lemma_ascii_cells(marker, options.ambiguous_wide);
        lemma_item_row(layout, doc, width, options, images, folds, b, w);
        assert(spaces(shape.pad_width as nat) + spaces(2 * depth) + digits + seq!['.', ' ']
            =~= spaces(shape.pad_width as nat) + mark);
    }
    digits
}

/// The row where a bulleted list item starts shows its bullet: the page's
/// margin, two spaces for each level of depth, the bullet and a space before
/// the item's text, unless the column has no room for them.
#[verifier::spinoff_prover]
#[verifier::rlimit(40)]
pub proof fn a_bulleted_item_shows_its_bullet<R: ImageResolver>(
    layout: Layout,
    doc: Document,
    width: u16,
    options: LayoutOptions,
    images: R,
    folds: Seq<usize>,
    b: int,
    w: nat,
)
    requires
        shows(layout, laid_document(doc, width, options, images, folds)),
        links_from(doc.blocks@, 0) <= usize::MAX,
        0 <= b < doc.blocks@.len(),
        doc.blocks@[b] is ListItem,
        !doc.blocks@[b]->ordered,
        is_laid_out(
            doc.blocks@,
            float_at(width, shape_of(width, options), doc.blocks@),
            folds,
            b,
        ),
        w >= 1,
        no_wider(doc.blocks@[b]->ListItem_spans@, w, options.ambiguous_wide),
        ({
            let shape = shape_of(width, options);
            let float = float_at(width, shape, doc.blocks@);
            let column = column_for(shape, doc.blocks@, float, folds, b);
            2 * doc.blocks@[b]->depth + cells(seq!['•'], options.ambiguous_wide) + 1 + w
                <= column.content_width
        }),
    ensures
        b < layout.block_lines@.len(),
        layout.block_lines@[b] < layout.lines@.len(),
        (spaces(shape_of(width, options).pad_width as nat) + spaces(
            2 * doc.blocks@[b]->depth as nat,
        ) + seq!['•', ' ']).is_prefix_of(
            line_text(layout.lines@[layout.block_lines@[b] as int]@),
        ),
{
    let blocks = doc.blocks@;
    let aw = options.ambiguous_wide;
    let pad = spaces(shape_of(width, options).pad_width as nat);
    let depth = blocks[b]->depth as nat;
    let marker = list_marker(false, blocks[b]->index, blocks[b]->depth);
    let mark = spaces(2 * depth) + seq!['•'] + seq![' '];
    assert(marker =~= mark);
    cells_additive(spaces(2 * depth) + seq!['•'], seq![' '], aw);
    cells_additive(spaces(2 * depth), seq!['•'], aw);
    lemma_cells_spaces(2 * depth, aw);
    lemma_ascii_cells(seq![' '], aw);
    lemma_item_row(layout, doc, width, options, images, folds, b, w);
    assert(pad + spaces(2 * depth) + seq!['•', ' '] =~= pad + mark);
}

} // verus!
