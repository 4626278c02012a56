//! Laying out a whole document.
use vstd::prelude::*;

use crate::doc::count_links;
use crate::doc::flatten_plain;
use crate::doc::minutes_to_read;
use crate::doc::plain_text;
use crate::doc::reading_minutes;
use crate::doc::Block;
use crate::doc::Document;
use crate::layout::card::card_lines;
use crate::layout::card::infobox_card_lines;
use crate::layout::card::minus;
use crate::layout::card::INFOBOX_CARD_WIDTH;
use crate::layout::card::INFOBOX_FLOAT_GAP;
use crate::layout::card::MIN_LEAD_WIDTH;
use crate::layout::cluster::append_clusters;
use crate::layout::cluster::clusters_from_str;
use crate::layout::cluster::clusters_in;
use crate::layout::emit::anchor_offset;
use crate::layout::emit::block_gap;
use crate::layout::emit::block_links;
use crate::layout::emit::block_rows;
use crate::layout::emit::lemma_assoc;
use crate::layout::emit::own_row;
use crate::layout::emit::plain_rows;
use crate::layout::emit::rows_model;
use crate::layout::emit::wrapped_rows;
use crate::layout::emit::Emitter;
use crate::layout::emit::Row;
use crate::layout::emit::Shape;
use crate::layout::line::pad_spans;
use crate::layout::measure::grapheme_clusters;
use crate::layout::measure::graphemes;
use crate::layout::table::max_nat;
use crate::layout::table::min_nat;
use crate::layout::types::append_spans;
use crate::layout::types::line_cells;
use crate::layout::types::spans_width;
use crate::layout::types::ImageResolver;
use crate::layout::types::KindModel;
use crate::layout::types::LaidLine;
use crate::layout::types::LaidSpan;
use crate::layout::types::Layout;
use crate::layout::types::LayoutOptions;
use crate::layout::types::MatchSpan;
use crate::layout::types::NoImages;
use crate::layout::types::SpanKind;
use crate::layout::types::SpanModel;
use crate::layout::types::TextAlign;
use crate::text::decimal;
use crate::text::decimal_string;
use crate::text::repeat_char;
use crate::text::spaces;
use crate::text::views;

verus! {

/// The four terminal-size tiers.
#[derive(Debug, Clone, Copy, PartialEq, Eq, Structural)]
pub enum SizeTier {
    /// Too small to read in.
    Floor,
    /// A single column.
    Minimal,
    /// Infoboxes as top blocks.
    Compact,
    /// The infobox floats beside the lead.
    Full,
}

/// The narrowest terminal that is read in.
pub const FLOOR_MIN_WIDTH: u16 = 60;

/// The shortest terminal that is read in.
pub const FLOOR_MIN_HEIGHT: u16 = 16;

/// Where the compact tier begins.
pub const COMPACT_TIER_MIN_WIDTH: u16 = 80;

/// Where the full tier begins.
pub const FULL_TIER_MIN_WIDTH: u16 = 100;

/// The tier of a terminal. Height matters at the floor alone.
pub fn size_tier(width: u16, height: u16) -> (r: SizeTier)
    ensures
        r == (if width < 60 || height < 16 {
            SizeTier::Floor
        } else if width < 80 {
            SizeTier::Minimal
        } else if width < 100 {
            SizeTier::Compact
        } else {
            SizeTier::Full
        }),
{
    if width < FLOOR_MIN_WIDTH || height < FLOOR_MIN_HEIGHT {
        SizeTier::Floor
    } else if width < COMPACT_TIER_MIN_WIDTH {
        SizeTier::Minimal
    } else if width < FULL_TIER_MIN_WIDTH {
        SizeTier::Compact
    } else {
        SizeTier::Full
    }
}

/// The cells there are, one at least.
pub open spec fn available(width: u16) -> nat {
    max_nat(width as nat, 1)
}

/// The margin, which always leaves one cell of content.
pub open spec fn margin_of(width: u16, options: LayoutOptions) -> nat {
    min_nat(options.margin as nat, (available(width) - 1) as nat)
}

/// The content column: what the margin leaves, up to the measure.
pub open spec fn content_of(width: u16, options: LayoutOptions) -> nat {
    min_nat(
        (available(width) - margin_of(width, options)) as nat,
        max_nat(options.measure as nat, 1),
    )
}

/// The left pad: the margin, and half of what is left where text is
/// centered.
pub open spec fn pad_of(width: u16, options: LayoutOptions) -> nat {
    margin_of(width, options) + match options.text_align {
        TextAlign::Center => ((available(width) - margin_of(width, options) - content_of(
            width,
            options,
        )) as nat) / 2,
        TextAlign::Left => 0,
    }
}

/// The column a document is laid out in.
pub open spec fn shape_of(width: u16, options: LayoutOptions) -> Shape {
    Shape {
        pad_width: pad_of(width, options) as usize,
        content_width: content_of(width, options) as usize,
        ambiguous_wide: options.ambiguous_wide,
        paragraph_spacing: options.paragraph_spacing as usize,
        line_spacing: options.line_spacing as usize,
        word_spacing: options.word_spacing as usize,
        justify: options.justify,
        hyphenate: options.hyphenate,
        accessible: options.accessible,
        table_offset: options.table_col_offset as usize,
    }
}

/// The pad and the content column never exceed the terminal.
pub proof fn column_fits_the_terminal(width: u16, options: LayoutOptions)
    ensures
        shape_of(width, options).wf(),
        pad_of(width, options) + content_of(width, options) <= available(width),
        content_of(width, options) >= 1,
{
}

/// The column is never wider than the measure, and how it is aligned does not
/// change its width.
pub proof fn alignment_moves_the_column_alone(
    width: u16,
    options: LayoutOptions,
    text_align: TextAlign,
)
    ensures
        content_of(width, options) <= options.measure || content_of(width, options) == 1,
        content_of(width, (LayoutOptions { text_align, ..options })) == content_of(width, options),
{
}

fn shape_for(width: u16, options: LayoutOptions) -> (r: Shape)
    ensures
        r == shape_of(width, options),
        r.wf(),
{
    let available: usize = if width < 1 {
        1
    } else {
        width as usize
    };
    let margin: usize = if (options.margin as usize) < available - 1 {
        options.margin as usize
    } else {
        available - 1
    };
    let after: usize = available - margin;
    let measure: usize = if options.measure < 1 {
        1
    } else {
        options.measure as usize
    };
    let content_width: usize = if after < measure {
        after
    } else {
        measure
    };
    let center: usize = match options.text_align {
        TextAlign::Center => (after - content_width) / 2,
        TextAlign::Left => 0,
    };
    Shape {
        pad_width: margin + center,
        content_width,
        ambiguous_wide: options.ambiguous_wide,
        paragraph_spacing: options.paragraph_spacing as usize,
        line_spacing: options.line_spacing as usize,
        word_spacing: options.word_spacing as usize,
        justify: options.justify,
        hyphenate: options.hyphenate,
        accessible: options.accessible,
        table_offset: options.table_col_offset as usize,
    }
}

/// The first heading from `i` on of level `level` or above, or the end.
pub open spec fn next_heading(blocks: Seq<Block>, i: int, level: u8) -> int
    decreases blocks.len() - i,
{
    if i >= blocks.len() {
        blocks.len() as int
    } else {
        match blocks[i] {
            Block::Heading { level: l, .. } if l <= level => i,
            _ => next_heading(blocks, i + 1, level),
        }
    }
}

/// The next heading lies at or after the start and no further than the end.
pub proof fn lemma_next_heading(blocks: Seq<Block>, i: int, level: u8)
    requires
        0 <= i <= blocks.len(),
    ensures
        i <= next_heading(blocks, i, level) <= blocks.len(),
    decreases blocks.len() - i,
{
    if i < blocks.len() {
        lemma_next_heading(blocks, i + 1, level);
    }
}

fn find_heading(blocks: &Vec<Block>, from: usize, level: u8) -> (r: usize)
    requires
        from <= blocks.len(),
    ensures
        r as int == next_heading(blocks@, from as int, level),
        from <= r <= blocks.len(),
{
    let n: usize = blocks.len();
    let mut i: usize = from;
    while i < n
        invariant
            from <= i <= n,
            n == blocks.len(),
            next_heading(blocks@, from as int, level) == next_heading(blocks@, i as int, level),
        decreases n - i,
    {
        if let Block::Heading { level: l, .. } = &blocks[i] {
            if *l <= level {
                return i;
            }
        }
        i = i + 1;
    }
    n
}

/// Where the section of the heading at `heading` ends: at the next heading of
/// its level or above, or with the document.
pub fn fold_range_end(blocks: &Vec<Block>, heading: usize, level: u8) -> (r: usize)
    requires
        heading < blocks.len(),
    ensures
        r as int == next_heading(blocks@, heading + 1, level),
        heading < r <= blocks.len(),
{
    find_heading(blocks, heading + 1, level)
}

/// How many of `blocks[from..to]` are paragraphs.
pub open spec fn paragraphs_in(blocks: Seq<Block>, from: int, to: int) -> nat
    decreases to - from,
{
    if to <= from {
        0
    } else {
        paragraphs_in(blocks, from, to - 1) + if blocks[to - 1] is Paragraph {
            1nat
        } else {
            0nat
        }
    }
}

/// How many of `blocks[from..to]` are headings.
pub open spec fn headings_in(blocks: Seq<Block>, from: int, to: int) -> nat
    decreases to - from,
{
    if to <= from {
        0
    } else {
        headings_in(blocks, from, to - 1) + if blocks[to - 1] is Heading {
            1nat
        } else {
            0nat
        }
    }
}

fn range_counts(blocks: &Vec<Block>, from: usize, to: usize) -> (r: (usize, usize))
    requires
        from <= to <= blocks.len(),
    ensures
        r.0 as nat == paragraphs_in(blocks@, from as int, to as int),
        r.1 as nat == headings_in(blocks@, from as int, to as int),
{
    let mut paragraphs: usize = 0;
    let mut headings: usize = 0;
    let mut i: usize = from;
    while i < to
        invariant
            from <= i <= to <= blocks.len(),
            paragraphs <= i - from,
            headings <= i - from,
            paragraphs as nat == paragraphs_in(blocks@, from as int, i as int),
            headings as nat == headings_in(blocks@, from as int, i as int),
        decreases to - i,
    {
        match &blocks[i] {
            Block::Paragraph(_) => {
                paragraphs = paragraphs + 1;
            },
            Block::Heading { .. } => {
                headings = headings + 1;
            },
            _ => {},
        }
        i = i + 1;
    }
    (paragraphs, headings)
}

/// How many paragraphs and how many headings a section's body holds.
pub fn fold_body_counts(body: &Vec<Block>) -> (r: (usize, usize))
    ensures
        r.0 as nat == paragraphs_in(body@, 0, body@.len() as int),
        r.1 as nat == headings_in(body@, 0, body@.len() as int),
{
    range_counts(body, 0, body.len())
}

/// How many followable links a block holds.
pub fn block_link_count(block: &Block) -> (r: usize)
    ensures
        r as nat == block_links(*block),
{
    match block {
        Block::Paragraph(spans) => count_links(spans),
        Block::Blockquote(spans) => count_links(spans),
        Block::ListItem { spans, .. } => count_links(spans),
        _ => 0,
    }
}

/// The followable links of `blocks[i..]`.
pub open spec fn links_from(blocks: Seq<Block>, i: int) -> nat
    decreases blocks.len() - i,
{
    if i >= blocks.len() {
        0
    } else {
        block_links(blocks[i]) + links_from(blocks, i + 1)
    }
}

/// The rows so far, the anchor of each block so far, and the number the next
/// link gets.
#[verifier::ext_equal]
pub struct Laid {
    pub rows: Seq<Row>,
    pub anchors: Seq<nat>,
    pub links: nat,
}

/// One block more.
pub open spec fn with_block<R: ImageResolver>(
    shape: Shape,
    at: Laid,
    block: Block,
    images: R,
) -> Laid {
    Laid {
        rows: at.rows + block_rows(shape, block, images, at.links),
        anchors: at.anchors.push(at.rows.len() + anchor_offset(shape, block)),
        links: at.links + block_links(block),
    }
}

/// `blocks[from..to]` one after the other.
pub open spec fn with_blocks<R: ImageResolver>(
    shape: Shape,
    at: Laid,
    blocks: Seq<Block>,
    from: int,
    to: int,
    images: R,
) -> Laid
    decreases to - from,
{
    if to <= from {
        at
    } else {
        with_block(
            shape,
            with_blocks(shape, at, blocks, from, to - 1, images),
            blocks[to - 1],
            images,
        )
    }
}

/// The summary of a folded section.
pub open spec fn fold_suffix(paragraphs: nat, subsections: nat) -> Seq<char> {
    " ("@ + decimal(paragraphs) + " ¶, "@ + decimal(subsections) + (if subsections == 1 {
        " subsection)"@
    } else {
        " subsections)"@
    })
}

/// The rows of a folded section: its title and what it holds.
pub open spec fn fold_rows(
    shape: Shape,
    title: Seq<char>,
    level: u8,
    paragraphs: nat,
    subsections: nat,
) -> Seq<Row> {
    let aw = shape.ambiguous_wide;
    let content = clusters_in("▸ "@ + title, KindModel::Heading(level), aw) + clusters_in(
        fold_suffix(paragraphs, subsections),
        KindModel::Dim,
        aw,
    );
    block_gap(shape) + wrapped_rows(
        shape,
        content,
        Seq::empty(),
        Seq::empty(),
        shape.plain(),
    ) + block_gap(shape)
}

/// The links of `blocks[from..to]`.
pub open spec fn links_between(blocks: Seq<Block>, from: int, to: int) -> nat
    decreases to - from,
{
    if to <= from {
        0
    } else {
        links_between(blocks, from, to - 1) + block_links(blocks[to - 1])
    }
}

/// A folded section, `blocks[heading..end]`: one summary, to which the anchors
/// of all its blocks point, and its links still count.
pub open spec fn with_fold(
    shape: Shape,
    at: Laid,
    blocks: Seq<Block>,
    heading: int,
    end: int,
) -> Laid {
    let level = blocks[heading]->Heading_level;
    let title = plain_text(blocks[heading]->Heading_spans@);
    let anchor = at.rows.len() + shape.paragraph_spacing as nat;
    Laid {
        rows: at.rows + fold_rows(
            shape,
            title,
            level,
            paragraphs_in(blocks, heading + 1, end),
            headings_in(blocks, heading + 1, end),
        ),
        anchors: at.anchors + Seq::new((end - heading) as nat, |i: int| anchor),
        links: at.links + links_between(blocks, heading + 1, end),
    }
}

/// The width of a floated card.
pub open spec fn float_card_width(shape: Shape) -> nat {
    min_nat(
        INFOBOX_CARD_WIDTH as nat,
        minus(shape.content_width as nat, (INFOBOX_FLOAT_GAP + MIN_LEAD_WIDTH) as nat),
    )
}

/// The width of the lead column beside a floated card.
pub open spec fn lead_width(shape: Shape) -> nat {
    max_nat(
        minus(shape.content_width as nat, float_card_width(shape) + INFOBOX_FLOAT_GAP as nat),
        1,
    )
}

/// The lead column beside a floated card.
pub open spec fn lead_shape(shape: Shape) -> Shape {
    Shape { pad_width: 0, content_width: lead_width(shape) as usize, ..shape }
}

/// Row `j` of the lead with the card beside it.
pub open spec fn float_row(shape: Shape, lead: Seq<Row>, card: Seq<Seq<char>>, j: int) -> Row {
    let left = if j < lead.len() {
        lead[j].line
    } else {
        Seq::empty()
    };
    let used = line_cells(left, shape.ambiguous_wide);
    let right = if j < card.len() {
        seq![
            SpanModel {
                text: spaces(minus(lead_width(shape), used) + INFOBOX_FLOAT_GAP as nat),
                kind: KindModel::Plain,
            },
            SpanModel { text: card[j], kind: KindModel::Infobox },
        ]
    } else {
        Seq::empty()
    };
    own_row(pad_spans(shape.pad_width as nat) + left + right)
}

/// The lead with the card beside it.
pub open spec fn float_rows(shape: Shape, lead: Seq<Row>, card: Seq<Seq<char>>) -> Seq<Row> {
    Seq::new(
        max_nat(lead.len(), card.len()),
        |j: int| float_row(shape, lead, card, j),
    )
}

/// The infobox at `at_block` floated beside `blocks[at_block + 1..end]`.
pub open spec fn with_float<R: ImageResolver>(
    shape: Shape,
    at: Laid,
    blocks: Seq<Block>,
    at_block: int,
    end: int,
    images: R,
) -> Laid {
    let lead = with_blocks(
        lead_shape(shape),
        laid_nothing(at.links),
        blocks,
        at_block + 1,
        end,
        images,
    );
    let card = card_lines(
        blocks[at_block]->Infobox_0@,
        float_card_width(shape),
        shape.ambiguous_wide,
    );
    let base = at.rows.len();
    Laid {
        rows: at.rows + float_rows(shape, lead.rows, card) + block_gap(shape),
        anchors: at.anchors.push(base) + lead.anchors.map_values(|a: nat| base + a),
        links: lead.links,
    }
}

/// The first infobox from `i` on, or the end.
pub open spec fn next_infobox(blocks: Seq<Block>, i: int) -> int
    decreases blocks.len() - i,
{
    if i >= blocks.len() {
        blocks.len() as int
    } else if blocks[i] is Infobox {
        i
    } else {
        next_infobox(blocks, i + 1)
    }
}

/// Whether the terminal and the column have room to float an infobox.
pub open spec fn floats(width: u16, shape: Shape) -> bool {
    width >= FULL_TIER_MIN_WIDTH && shape.content_width >= 24 + INFOBOX_FLOAT_GAP + MIN_LEAD_WIDTH
}

/// The block that is floated, or -1 for none.
pub open spec fn float_at(width: u16, shape: Shape, blocks: Seq<Block>) -> int {
    if floats(width, shape) && next_infobox(blocks, 0) < blocks.len() {
        next_infobox(blocks, 0)
    } else {
        -1
    }
}

/// `blocks[i..]` after what is laid out already: the floated infobox takes
/// the lead with it, and a folded heading its section.
pub open spec fn laid_from<R: ImageResolver>(
    shape: Shape,
    at: Laid,
    blocks: Seq<Block>,
    i: int,
    float: int,
    folds: Seq<usize>,
    images: R,
) -> Laid
    decreases blocks.len() - i,
{
    if i < 0 || i >= blocks.len() {
        at
    } else if i == float {
        let end = next_heading(blocks, i + 1, 255);
        if i < end <= blocks.len() {
            laid_from(
                shape,
                with_float(shape, at, blocks, i, end, images),
                blocks,
                end,
                float,
                folds,
                images,
            )
        } else {
            at
        }
    } else if blocks[i] is Heading && folds.contains(i as usize) {
        let end = next_heading(blocks, i + 1, blocks[i]->Heading_level);
        if i < end <= blocks.len() {
            laid_from(
                shape,
                with_fold(shape, at, blocks, i, end),
                blocks,
                end,
                float,
                folds,
                images,
            )
        } else {
            at
        }
    } else {
        laid_from(
            shape,
            with_block(shape, at, blocks[i], images),
            blocks,
            i + 1,
            float,
            folds,
            images,
        )
    }
}

/// The rows above the first block: the title, the reading time unless it is
/// zero, and a gap.
pub open spec fn header_rows(shape: Shape, title: Seq<char>, minutes: nat) -> Seq<Row> {
    let top = plain_rows(shape, title, KindModel::Title);
    let timed = if minutes > 0 {
        top + plain_rows(shape, decimal(minutes) + " min read"@, KindModel::Dim)
    } else {
        top
    };
    timed + block_gap(shape)
}

/// A document laid out.
pub open spec fn laid_document<R: ImageResolver>(
    doc: Document,
    width: u16,
    options: LayoutOptions,
    images: R,
    folds: Seq<usize>,
) -> Laid {
    let shape = shape_of(width, options);
    let minutes = minutes_to_read(doc.words as nat, options.reading_wpm as nat);
    laid_from(
        shape,
        Laid {
            rows: header_rows(shape, doc.title@, minutes),
            anchors: Seq::empty(),
            links: 0,
        },
        doc.blocks@,
        0,
        float_at(width, shape, doc.blocks@),
        folds,
        images,
    )
}

/// A count as a `usize` holds it.
pub open spec fn held(n: nat) -> usize {
    if n <= usize::MAX {
        n as usize
    } else {
        usize::MAX
    }
}

/// The grapheme clusters of the first `k` spans of a line.
pub open spec fn columns_before(line: Seq<SpanModel>, k: int) -> nat
    decreases k,
{
    if k <= 0 {
        0
    } else {
        columns_before(line, k - 1) + grapheme_clusters(line[k - 1].text).len()
    }
}

/// Where link `occurrence` first shows in the first `n` rows and the first
/// `k` spans of row `n`: the row, and its grapheme columns there.
pub open spec fn find_link(rows: Seq<Row>, n: int, k: int, occurrence: usize) -> Option<
    (nat, MatchSpan),
>
    decreases n, k,
{
    if k > 0 {
        match find_link(rows, n, k - 1, occurrence) {
            Some(found) => Some(found),
            None => if rows[n].line[k - 1].kind == KindModel::Link(occurrence) {
                Some(
                    (
                        n as nat,
                        MatchSpan {
                            start: held(columns_before(rows[n].line, k - 1)),
                            end: held(columns_before(rows[n].line, k)),
                        },
                    ),
                )
            } else {
                None
            },
        }
    } else if n > 0 {
        find_link(rows, n - 1, rows[n - 1].line.len() as int, occurrence)
    } else {
        None
    }
}

/// Where link `occurrence` first shows.
pub open spec fn link_place(rows: Seq<Row>, occurrence: usize) -> Option<(nat, MatchSpan)> {
    find_link(rows, rows.len() as int, 0, occurrence)
}

/// The columns of a link that shows nowhere.
pub open spec fn nowhere() -> MatchSpan {
    MatchSpan { start: 0, end: 0 }
}

/// Whether each row after the first runs on from the row before it.
pub open spec fn run_on(rows: Seq<Row>) -> Seq<bool> {
    Seq::new(
        if rows.len() == 0 {
            0
        } else {
            (rows.len() - 1) as nat
        },
        |i: int| rows[i + 1].cont,
    )
}

/// What a layout holds of a laid-out document.
pub open spec fn shows(layout: Layout, laid: Laid) -> bool {
    let rows = laid.rows;
    &&& layout.lines@.len() == rows.len()
    &&& forall|i: int| 0 <= i < rows.len() ==> (#[trigger] layout.lines@[i])@ == rows[i].line
    &&& layout.continuation@ == run_on(rows)
    &&& layout.block_lines@.map_values(|a: usize| a as nat) == laid.anchors
    &&& layout.link_lines@.len() == laid.links
    &&& layout.link_visible@.len() == laid.links
    &&& layout.link_cols@.len() == laid.links
    &&& forall|o: int|
        0 <= o < laid.links ==> {
            &&& (#[trigger] layout.link_visible@[o]) == (link_place(rows, o as usize) is Some)
            &&& layout.link_lines@[o] as nat == (match link_place(rows, o as usize) {
                Some((line, _)) => line,
                None => 0,
            })
            &&& layout.link_cols@[o] == (match link_place(rows, o as usize) {
                Some((_, cols)) => cols,
                None => nowhere(),
            })
        }
}

/// What an emitter, the anchors and the link counter stand for.
pub open spec fn laid_at(em: Emitter, anchors: Seq<usize>, links: usize) -> Laid {
    Laid { rows: em.rows(), anchors: anchors.map_values(|a: usize| a as nat), links: links as nat }
}

/// Nothing laid out, with `links` links before it.
pub open spec fn laid_nothing(links: nat) -> Laid {
    Laid { rows: Seq::empty(), anchors: Seq::empty(), links }
}

/// The links of a prefix and of the rest make up the whole.
proof fn lemma_links_split(blocks: Seq<Block>, from: int, to: int)
    requires
        0 <= from <= to <= blocks.len(),
    ensures
        links_from(blocks, from) == links_between(blocks, from, to) + links_from(blocks, to),
    decreases to - from,
{
    if from < to {
        lemma_links_split(blocks, from, to - 1);
    }
}

proof fn lemma_blocks_links<R: ImageResolver>(
    shape: Shape,
    at: Laid,
    blocks: Seq<Block>,
    from: int,
    to: int,
    images: R,
)
    ensures
        with_blocks(shape, at, blocks, from, to, images).links == at.links + links_between(
            blocks,
            from,
            to,
        ),
    decreases to - from,
{
    if from < to {
        lemma_blocks_links(shape, at, blocks, from, to - 1, images);
    }
}

/// Lays out `blocks[from..to]` one after the other.
fn emit_blocks<R: ImageResolver>(
    em: &mut Emitter,
    block_lines: &mut Vec<usize>,
    link_counter: &mut usize,
    blocks: &Vec<Block>,
    from: usize,
    to: usize,
    images: &R,
)
    requires
        old(em).wf(),
        from <= to <= blocks.len(),
        *old(link_counter) + links_between(blocks@, from as int, to as int) <= usize::MAX,
    ensures
        final(em).wf(),
        final(em).shape == old(em).shape,
        laid_at(*final(em), final(block_lines)@, *final(link_counter)) == with_blocks(
            old(em).shape,
            laid_at(*old(em), old(block_lines)@, *old(link_counter)),
            blocks@,
            from as int,
            to as int,
            *images,
        ),
        *final(link_counter) == *old(link_counter) + links_between(
            blocks@,
            from as int,
            to as int,
        ),
{
    let ghost shape = em.shape;
    let ghost start = laid_at(*em, block_lines@, *link_counter);
    let mut i: usize = from;
    while i < to
        invariant
            from <= i <= to <= blocks.len(),
            em.wf(),
            em.shape == shape,
            start.links + links_between(blocks@, from as int, to as int) <= usize::MAX,
            *link_counter == start.links + links_between(blocks@, from as int, i as int),
            laid_at(*em, block_lines@, *link_counter) == with_blocks(shape, start, blocks@, from as int, i as int, *images),
        decreases to - i,
    {
        proof { lemma_between_prefix(blocks@, from as int, i + 1, to as int); }
        let ghost anchors = block_lines@.map_values(|a: usize| a as nat);
        em.emit_block(&blocks[i], block_lines, link_counter, images);
        proof {
            assert(block_lines@.map_values(|a: usize| a as nat) =~= anchors.push(
                block_lines@.last() as nat,
            ));
        }
        i = i + 1;
    }
}

proof fn lemma_between_prefix(blocks: Seq<Block>, from: int, mid: int, to: int)
    requires
        from <= mid <= to,
    ensures
        links_between(blocks, from, mid) <= links_between(blocks, from, to),
    decreases to - mid,
{
    if mid < to {
        lemma_between_prefix(blocks, from, mid, to - 1);
    }
}

/// Lays out a folded section as its summary.
fn emit_fold_summary(
    em: &mut Emitter,
    block_lines: &mut Vec<usize>,
    link_counter: &mut usize,
    blocks: &Vec<Block>,
    heading: usize,
    end: usize,
)
    requires
        old(em).wf(),
        heading < end <= blocks.len(),
        blocks@[heading as int] is Heading,
        *old(link_counter) + links_between(blocks@, heading + 1, end as int) <= usize::MAX,
    ensures
        final(em).wf(),
        final(em).shape == old(em).shape,
        laid_at(*final(em), final(block_lines)@, *final(link_counter)) == with_fold(
            old(em).shape,
            laid_at(*old(em), old(block_lines)@, *old(link_counter)),
            blocks@,
            heading as int,
            end as int,
        ),
        *final(link_counter) == *old(link_counter) + links_between(
            blocks@,
            heading + 1,
            end as int,
        ),
{
    let ghost shape = em.shape;
    let ghost base = em.rows();
    let ghost anchors = block_lines@.map_values(|a: usize| a as nat);
    let ghost links = *link_counter as nat;
    let aw = em.shape.ambiguous_wide;
    em.blank();
    let anchor: usize = em.lines.len();
    if let Block::Heading { level, spans } = &blocks[heading] {
        let (paragraphs, subsections) = range_counts(blocks, heading + 1, end);
        let title = flatten_plain(spans);
        let mut head = String::new();
        head.push_str("▸ ");
        head.push_str(title.as_str());
        proof { assert(head@ =~= "▸ "@ + plain_text(spans@)); }
        let mut content = clusters_from_str(head.as_str(), SpanKind::Heading(*level), aw);
        let mut suffix = String::new();
        suffix.push_str(" (");
        let p = decimal_string(paragraphs as u64);
        suffix.push_str(p.as_str());
        suffix.push_str(" ¶, ");
        let s = decimal_string(subsections as u64);
        suffix.push_str(s.as_str());
        if subsections == 1 {
            suffix.push_str(" subsection)");
        } else {
            suffix.push_str(" subsections)");
        }
        proof {
            assert(suffix@ =~= fold_suffix(paragraphs as nat, subsections as nat));
        }
        let tail = clusters_from_str(suffix.as_str(), SpanKind::Dim, aw);
        append_clusters(&mut content, tail);
        let ghost summary = views(content@);
        em.emit_plain_wrapped(content);
        proof {
            let body = wrapped_rows(shape, summary, Seq::empty(), Seq::empty(), shape.plain());
            lemma_assoc(base, block_gap(shape), body);
            lemma_assoc(base, block_gap(shape) + body, block_gap(shape));
        }
    }
    em.blank();
    block_lines.push(anchor);
    let mut i: usize = heading + 1;
    proof {
        assert(block_lines@.map_values(|a: usize| a as nat) =~= anchors + Seq::new(
            1,
            |k: int| anchor as nat,
        ));
    }
    while i < end
        invariant
            heading < i <= end <= blocks.len(),
            links + links_between(blocks@, heading + 1, end as int) <= usize::MAX,
            *link_counter == links + links_between(blocks@, heading + 1, i as int),
            block_lines@.map_values(|a: usize| a as nat) == anchors + Seq::new(
                (i - heading) as nat,
                |k: int| anchor as nat,
            ),
        decreases end - i,
    {
        proof { lemma_between_prefix(blocks@, heading + 1, i + 1, end as int); }
        let count: usize = block_link_count(&blocks[i]);
        *link_counter = *link_counter + count;
        let ghost pre = block_lines@;
        block_lines.push(anchor);
        proof {
            assert(block_lines@.map_values(|a: usize| a as nat) =~= anchors + Seq::new(
                (i + 1 - heading) as nat,
                |k: int| anchor as nat,
            )) by {
                assert(block_lines@.map_values(|a: usize| a as nat) =~= pre.map_values(
                    |a: usize| a as nat,
                ).push(anchor as nat));
            }
        }
        i = i + 1;
    }
}

fn float_line(
    shape: &Shape,
    lead: &Vec<LaidLine>,
    Ghost(flags): Ghost<Seq<bool>>,
    card: &Vec<String>,
    j: usize,
    left_w: usize,
) -> (r: LaidLine)
    requires
        shape.wf(),
        left_w as nat == lead_width(*shape),
        left_w <= 0xFFFF,
        lead@.len() == flags.len(),
    ensures
        own_row(r@) == float_row(*shape, rows_model(lead@, flags), views(card@), j as int),
{
    let ghost model = rows_model(lead@, flags);
    let mut spans: Vec<LaidSpan> = Vec::new();
    if shape.pad_width > 0 {
        spans.push(LaidSpan { text: repeat_char(' ', shape.pad_width), kind: SpanKind::Plain });
    }
    proof { assert(views(spans@) =~= pad_spans(shape.pad_width as nat)); }
    let ghost pad = views(spans@);
    let mut used: usize = 0;
    let ghost mut left: Seq<SpanModel> = Seq::empty();
    proof { assert(pad + left =~= pad); }
    if j < lead.len() {
        append_spans(&mut spans, &lead[j].spans);
        used = spans_width(&lead[j].spans, shape.ambiguous_wide);
        proof { left = model[j as int].line; }
    }
    if j < card.len() {
        let fill: usize = left_w.saturating_sub(used) + INFOBOX_FLOAT_GAP;
        spans.push(LaidSpan { text: repeat_char(' ', fill), kind: SpanKind::Plain });
        spans.push(LaidSpan { text: card[j].clone(), kind: SpanKind::Infobox });
        proof {
            assert(views(card@)[j as int] == card@[j as int]@);
            assert(views(spans@) =~= pad + left + seq![
                SpanModel { text: spaces(fill as nat), kind: KindModel::Plain },
                SpanModel { text: card@[j as int]@, kind: KindModel::Infobox },
            ]);
        }
    } else {
        proof { assert(views(spans@) =~= pad + left + Seq::<SpanModel>::empty()); }
    }
    LaidLine { spans }
}

/// Floats the infobox at `at_block` beside the lead, `blocks[at_block + 1..end]`.
fn emit_infobox_float<R: ImageResolver>(
    em: &mut Emitter,
    block_lines: &mut Vec<usize>,
    link_counter: &mut usize,
    blocks: &Vec<Block>,
    at_block: usize,
    end: usize,
    images: &R,
)
    requires
        old(em).wf(),
        at_block < end <= blocks.len(),
        blocks@[at_block as int] is Infobox,
        *old(link_counter) + links_between(blocks@, at_block + 1, end as int) <= usize::MAX,
    ensures
        final(em).wf(),
        final(em).shape == old(em).shape,
        laid_at(*final(em), final(block_lines)@, *final(link_counter)) == with_float(
            old(em).shape,
            laid_at(*old(em), old(block_lines)@, *old(link_counter)),
            blocks@,
            at_block as int,
            end as int,
            *images,
        ),
        *final(link_counter) == *old(link_counter) + links_between(
            blocks@,
            at_block + 1,
            end as int,
        ),
{
    let ghost shape = em.shape;
    let ghost base_rows = em.rows();
    let ghost anchors = block_lines@.map_values(|a: usize| a as nat);
    let sh: Shape = em.shape;
    let room: usize = sh.content_width.saturating_sub(INFOBOX_FLOAT_GAP + MIN_LEAD_WIDTH);
    let box_w: usize = if INFOBOX_CARD_WIDTH < room {
        INFOBOX_CARD_WIDTH
    } else {
        room
    };
    let rest: usize = sh.content_width.saturating_sub(box_w + INFOBOX_FLOAT_GAP);
    let left_w: usize = if rest < 1 {
        1
    } else {
        rest
    };
    let mut card: Vec<String> = Vec::new();
    if let Block::Infobox(rows) = &blocks[at_block] {
        card = infobox_card_lines(rows, box_w, sh.ambiguous_wide);
    }
    let ghost links = *link_counter as nat;
    let lead_sh = Shape { pad_width: 0, content_width: left_w, ..sh };
    let mut lead = Emitter::new(lead_sh);
    let mut lead_anchors: Vec<usize> = Vec::new();
    proof {
        assert(laid_at(lead, lead_anchors@, *link_counter) =~= laid_nothing(links));
        lemma_blocks_links(
            lead_sh,
            laid_nothing(*link_counter as nat),
            blocks@,
            at_block + 1,
            end as int,
            *images,
        );
    }
    emit_blocks(
        &mut lead,
        &mut lead_anchors,
        link_counter,
        blocks,
        at_block + 1,
        end,
        images,
    );
    let base: usize = em.lines.len();
    block_lines.push(base);
    proof {
        assert(block_lines@.map_values(|a: usize| a as nat) =~= anchors.push(base as nat));
        lemma_anchors_bounded(
            lead_sh,
            laid_nothing(links),
            blocks@,
            at_block + 1,
            end as int,
            *images,
        );
    }
    emit_float_rows(em, &lead, &card, left_w);
    proof {
        assert(em.rows().len() == base_rows.len() + max_nat(lead.rows().len(), card@.len()));
        assert(em.lines@.len() == em.rows().len());
        assert(lead.lines@.len() == lead.rows().len());
        let lead_laid = with_blocks(
            lead_sh,
            laid_nothing(links),
            blocks@,
            at_block + 1,
            end as int,
            *images,
        );
        assert(lead_laid == laid_at(lead, lead_anchors@, *link_counter));
        assert forall|q: int| 0 <= q < lead_anchors@.len() implies #[trigger] lead_anchors@[q]
            <= lead.lines@.len() by {
            assert(lead_laid.anchors[q] == lead_anchors@[q] as nat);
        }
    }
    shift_anchors(block_lines, base, &lead_anchors, lead.lines.len(), em.lines.len());
    em.blank();
}

/// Lays out the lead rows with the card beside them.
fn emit_float_rows(em: &mut Emitter, lead: &Emitter, card: &Vec<String>, left_w: usize)
    requires
        old(em).wf(),
        lead.wf(),
        left_w as nat == lead_width(old(em).shape),
        left_w <= 0xFFFF,
    ensures
        final(em).wf(),
        final(em).shape == old(em).shape,
        final(em).rows() == old(em).rows() + float_rows(
            old(em).shape,
            lead.rows(),
            views(card@),
        ),
{
    let ghost shape = em.shape;
    let ghost base = em.rows();
    let sh: Shape = em.shape;
    let total: usize = if lead.lines.len() < card.len() {
        card.len()
    } else {
        lead.lines.len()
    };
    let ghost goal = float_rows(shape, lead.rows(), views(card@));
    proof { assert(base + goal.take(0) =~= base); }
    for j in 0..total
        invariant
            em.wf(),
            em.shape == shape,
            sh == shape,
            lead.wf(),
            left_w as nat == lead_width(shape),
            left_w <= 0xFFFF,
            total as nat == max_nat(lead.rows().len(), card@.len()),
            goal == float_rows(shape, lead.rows(), views(card@)),
            em.rows() == base + goal.take(j as int),
    {
        let line = float_line(&sh, &lead.lines, Ghost(lead.flags@), card, j, left_w);
        em.push_line(line, false);
        proof {
            assert(goal[j as int] == own_row(line@));
            assert(base + goal.take(j + 1) =~= (base + goal.take(j as int)).push(goal[j as int]));
        }
    }
    proof { assert(goal.take(total as int) =~= goal); }
}

/// Appends the lead's anchors, which are counted from `base`.
fn shift_anchors(
    block_lines: &mut Vec<usize>,
    base: usize,
    lead_anchors: &Vec<usize>,
    lead_rows: usize,
    rows: usize,
)
    requires
        base + lead_rows <= rows,
        forall|q: int| 0 <= q < lead_anchors@.len() ==> #[trigger] lead_anchors@[q] <= lead_rows,
    ensures
        final(block_lines)@.map_values(|a: usize| a as nat) == old(block_lines)@.map_values(
            |a: usize| a as nat,
        ) + lead_anchors@.map_values(|a: usize| a as nat).map_values(|a: nat| base as nat + a),
{
    let ghost first = block_lines@.map_values(|a: usize| a as nat);
    let ghost shifted = lead_anchors@.map_values(|a: usize| a as nat).map_values(
        |a: nat| base as nat + a,
    );
    let m: usize = lead_anchors.len();
    proof { assert(first + shifted.take(0) =~= first); }
    for k in 0..m
        invariant
            m == lead_anchors.len(),
            base + lead_rows <= rows,
            forall|q: int|
                0 <= q < lead_anchors@.len() ==> #[trigger] lead_anchors@[q] <= lead_rows,
            shifted == lead_anchors@.map_values(|a: usize| a as nat).map_values(
                |a: nat| base as nat + a,
            ),
            block_lines@.map_values(|a: usize| a as nat) == first + shifted.take(k as int),
    {
        let ghost pre = block_lines@;
        block_lines.push(base + lead_anchors[k]);
        proof {
            assert(block_lines@.map_values(|a: usize| a as nat) =~= pre.map_values(
                |a: usize| a as nat,
            ).push(shifted[k as int]));
            assert(first + shifted.take(k + 1) =~= (first + shifted.take(k as int)).push(
                shifted[k as int],
            ));
        }
    }
    proof { assert(shifted.take(m as int) =~= shifted); }
}

/// Every anchor lies within the rows, or just past them.
proof fn lemma_anchors_bounded<R: ImageResolver>(
    shape: Shape,
    at: Laid,
    blocks: Seq<Block>,
    from: int,
    to: int,
    images: R,
)
    requires
        at.anchors.len() == 0,
    ensures
        ({
            let laid = with_blocks(shape, at, blocks, from, to, images);
            forall|q: int|
                0 <= q < laid.anchors.len() ==> #[trigger] laid.anchors[q] <= laid.rows.len()
        }),
    decreases to - from,
{
    if from < to {
        lemma_anchors_bounded(shape, at, blocks, from, to - 1, images);
        let before = with_blocks(shape, at, blocks, from, to - 1, images);
        let block = blocks[to - 1];
        assert(block_rows(shape, block, images, before.links).len() >= anchor_offset(shape, block));
        let laid = with_blocks(shape, at, blocks, from, to, images);
        assert forall|q: int| 0 <= q < laid.anchors.len() implies #[trigger] laid.anchors[q]
            <= laid.rows.len() by {
            if q < before.anchors.len() {
                assert(laid.anchors[q] == before.anchors[q]);
            }
        }
    }
}

fn find_infobox(blocks: &Vec<Block>) -> (r: usize)
    ensures
        r as int == next_infobox(blocks@, 0),
        r <= blocks.len(),
        r < blocks.len() ==> blocks@[r as int] is Infobox,
{
    let n: usize = blocks.len();
    for i in 0..n
        invariant
            n == blocks.len(),
            next_infobox(blocks@, 0) == next_infobox(blocks@, i as int),
    {
        if let Block::Infobox(_) = &blocks[i] {
            return i;
        }
    }
    n
}

fn is_folded(folds: &Vec<usize>, i: usize) -> (r: bool)
    ensures
        r == folds@.contains(i),
{
    let n: usize = folds.len();
    for k in 0..n
        invariant
            n == folds.len(),
            forall|q: int| 0 <= q < k ==> folds@[q] != i,
    {
        if folds[k] == i {
            assert(folds@[k as int] == i);
            return true;
        }
    }
    false
}

fn emit_header(em: &mut Emitter, title: &str, minutes: usize)
    requires
        old(em).wf(),
        old(em).rows().len() == 0,
    ensures
        final(em).wf(),
        final(em).shape == old(em).shape,
        final(em).rows() == header_rows(old(em).shape, title@, minutes as nat),
{
    let ghost shape = em.shape;
    let ghost top = plain_rows(shape, title@, KindModel::Title);
    em.emit_plain(title, SpanKind::Title);
    proof { assert(em.rows() =~= top); }
    if minutes > 0 {
        let mut text = decimal_string(minutes as u64);
        text.push_str(" min read");
        em.emit_plain(text.as_str(), SpanKind::Dim);
    }
    em.blank();
}

/// The link mappings of laid-out rows.
struct LinkMap {
    lines: Vec<usize>,
    cols: Vec<MatchSpan>,
    seen: Vec<bool>,
}

impl LinkMap {
    /// What is recorded of link `o` is where it was found.
    spec fn right(self, o: int, found: Option<(nat, MatchSpan)>) -> bool {
        &&& self.seen@[o] == (found is Some)
        &&& self.lines@[o] as nat == (match found {
            Some((line, _)) => line,
            None => 0,
        })
        &&& self.cols@[o] == (match found {
            Some((_, cols)) => cols,
            None => nowhere(),
        })
    }

    /// Every link is recorded where it first shows in the first `n` rows and
    /// the first `k` spans of row `n`.
    spec fn holds(self, links: nat, rows: Seq<Row>, n: int, k: int) -> bool {
        &&& self.lines@.len() == links
        &&& self.cols@.len() == links
        &&& self.seen@.len() == links
        &&& forall|o: int|
            0 <= o < links ==> self.right(o, #[trigger] find_link(rows, n, k, o as usize))
    }
}

fn map_links(lines: &Vec<LaidLine>, Ghost(flags): Ghost<Seq<bool>>, links: usize) -> (r: LinkMap)
    requires
        lines@.len() == flags.len(),
    ensures
        r.holds(links as nat, rows_model(lines@, flags), lines@.len() as int, 0),
{
    let ghost rows = rows_model(lines@, flags);
    let mut map = LinkMap { lines: Vec::new(), cols: Vec::new(), seen: Vec::new() };
    for o in 0..links
        invariant
            map.lines@.len() == o,
            map.cols@.len() == o,
            map.seen@.len() == o,
            forall|q: int| 0 <= q < o ==> (#[trigger] map.seen@[q]) == false,
            forall|q: int| 0 <= q < o ==> (#[trigger] map.lines@[q]) == 0,
            forall|q: int| 0 <= q < o ==> (#[trigger] map.cols@[q]) == nowhere(),
    {
        map.lines.push(0);
        map.cols.push(MatchSpan { start: 0, end: 0 });
        map.seen.push(false);
    }
    proof {
        assert forall|q: int| 0 <= q < links implies map.right(
            q,
            #[trigger] find_link(rows, 0, 0, q as usize),
        ) by {}
    }
    let n: usize = lines.len();
    for i in 0..n
        invariant
            n == lines.len(),
            lines@.len() == flags.len(),
            rows == rows_model(lines@, flags),
            map.holds(links as nat, rows, i as int, 0),
    {
        map.scan_line(&lines[i], i, links, Ghost(rows));
    }
    map
}

impl LinkMap {
    /// Takes in one line more.
    fn scan_line(&mut self, line: &LaidLine, i: usize, links: usize, Ghost(rows): Ghost<Seq<Row>>)
        requires
            0 <= i < rows.len(),
            rows[i as int].line == line@,
            old(self).holds(links as nat, rows, i as int, 0),
        ensures
            final(self).holds(links as nat, rows, i + 1, 0),
    {
        let m: usize = line.spans.len();
        let mut col: usize = 0;
        for k in 0..m
            invariant
                0 <= i < rows.len(),
                rows[i as int].line == line@,
                m == line.spans.len(),
                col == held(columns_before(rows[i as int].line, k as int)),
                self.holds(links as nat, rows, i as int, k as int),
        {
            let span = &line.spans[k];
            let count: usize = graphemes(span.text.as_str()).len();
            let next: usize = col.saturating_add(count);
            proof { assert(rows[i as int].line[k as int] == span@); }
            let ghost before = *self;
            if let SpanKind::Link(occurrence) = &span.kind {
                let o: usize = *occurrence;
                if o < links && !self.seen[o] {
                    self.seen.set(o, true);
                    self.lines.set(o, i);
                    self.cols.set(o, MatchSpan { start: col, end: next });
                }
            }
            proof {
                let k1: int = k + 1;
                assert forall|q: int| 0 <= q < links implies self.right(
                    q,
                    #[trigger] find_link(rows, i as int, k1, q as usize),
                ) by {
                    assert(before.right(q, find_link(rows, i as int, k as int, q as usize)));
                }
            }
            col = next;
        }
        proof {
            let i1: int = i + 1;
            assert forall|q: int| 0 <= q < links implies self.right(
                q,
                #[trigger] find_link(rows, i1, 0, q as usize),
            ) by {
                assert(self.right(q, find_link(rows, i as int, m as int, q as usize)));
            }
        }
    }
}

/// Lays a document out for a terminal `width` cells wide, with the boxes that
/// `images` gives and the sections in `folds` shut.
pub fn layout_document_with_images<R: ImageResolver>(
    doc: &Document,
    width: u16,
    options: LayoutOptions,
    images: &R,
    folds: &Vec<usize>,
) -> (r: Layout)
    requires
        links_from(doc.blocks@, 0) <= usize::MAX,
    ensures
        r.width == width,
        r.options == options,
        r.folds@ == folds@,
        shows(r, laid_document(*doc, width, options, *images, folds@)),
{
    let shape = shape_for(width, options);
    let ghost goal = laid_document(*doc, width, options, *images, folds@);
    let mut em = Emitter::new(shape);
    let minutes: usize = reading_minutes(doc.words, options.reading_wpm);
    emit_header(&mut em, doc.title.as_str(), minutes);
    let mut block_lines: Vec<usize> = Vec::new();
    let mut link_counter: usize = 0;
    proof { assert(block_lines@.map_values(|a: usize| a as nat) =~= Seq::empty()); }
    emit_body(&mut em, &mut block_lines, &mut link_counter, doc, width, images, folds);
    let map = map_links(&em.lines, Ghost(em.flags@), link_counter);
    let continuation = continuation_of(&em);
    let kept = copy_numbers(folds);
    let r = Layout {
        width,
        options,
        lines: em.lines,
        block_lines,
        link_lines: map.lines,
        link_visible: map.seen,
        folds: kept,
        link_cols: map.cols,
        continuation,
    };
    proof {
        let rows = em.rows();
        assert(goal == laid_at(em, block_lines@, link_counter));
        assert forall|o: int| 0 <= o < goal.links implies {
            &&& (#[trigger] r.link_visible@[o]) == (link_place(rows, o as usize) is Some)
            &&& r.link_lines@[o] as nat == (match link_place(rows, o as usize) {
                Some((line, _)) => line,
                None => 0,
            })
            &&& r.link_cols@[o] == (match link_place(rows, o as usize) {
                Some((_, cols)) => cols,
                None => nowhere(),
            })
        } by {
            assert(map.right(o, find_link(rows, rows.len() as int, 0, o as usize)));
        }
    }
    r
}

/// Whether each line after the first runs on.
fn continuation_of(em: &Emitter) -> (r: Vec<bool>)
    requires
        em.wf(),
    ensures
        r@ == run_on(em.rows()),
{
    let ghost all = run_on(em.rows());
    let mut out: Vec<bool> = Vec::new();
    let total: usize = em.lines.len();
    if total == 0 {
        assert(out@ =~= all);
        return out;
    }
    let mut k: usize = 1;
    while k < total
        invariant
            total == em.lines.len(),
            em.wf(),
            all == run_on(em.rows()),
            1 <= k <= total,
            out@ == all.take(k - 1),
        decreases total - k,
    {
        out.push(em.flags[k]);
        proof { assert(all.take(k as int) =~= all.take(k - 1).push(all[k - 1])); }
        k = k + 1;
    }
    proof { assert(all.take(total - 1) =~= all); }
    out
}

/// A copy of a list of numbers.
fn copy_numbers(list: &Vec<usize>) -> (r: Vec<usize>)
    ensures
        r@ == list@,
{
    let mut out: Vec<usize> = Vec::new();
    let n: usize = list.len();
    for q in 0..n
        invariant
            n == list.len(),
            out@ == list@.take(q as int),
    {
        out.push(list[q]);
    }
    proof { assert(list@.take(n as int) =~= list@); }
    out
}

/// Lays out the blocks of a document after its header.
fn emit_body<R: ImageResolver>(
    em: &mut Emitter,
    block_lines: &mut Vec<usize>,
    link_counter: &mut usize,
    doc: &Document,
    width: u16,
    images: &R,
    folds: &Vec<usize>,
)
    requires
        old(em).wf(),
        *old(link_counter) == 0,
        links_from(doc.blocks@, 0) <= usize::MAX,
    ensures
        final(em).wf(),
        final(em).shape == old(em).shape,
        laid_at(*final(em), final(block_lines)@, *final(link_counter)) == laid_from(
            old(em).shape,
            laid_at(*old(em), old(block_lines)@, *old(link_counter)),
            doc.blocks@,
            0,
            float_at(width, old(em).shape, doc.blocks@),
            folds@,
            *images,
        ),
{
    let ghost shape = em.shape;
    let n: usize = doc.blocks.len();
    let floating = width >= FULL_TIER_MIN_WIDTH && em.shape.content_width >= 24
        + INFOBOX_FLOAT_GAP + MIN_LEAD_WIDTH;
    let float: usize = if floating {
        find_infobox(&doc.blocks)
    } else {
        n
    };
    let ghost float_model = float_at(width, shape, doc.blocks@);
    let ghost goal = laid_from(
        shape,
        laid_at(*em, block_lines@, *link_counter),
        doc.blocks@,
        0,
        float_model,
        folds@,
        *images,
    );
    let mut i: usize = 0;
    while i < n
        invariant
            n == doc.blocks.len(),
            i <= n,
            em.wf(),
            em.shape == shape,
            float < n ==> float_model == float && doc.blocks@[float as int] is Infobox,
            float >= n ==> float_model == -1,
            links_from(doc.blocks@, 0) <= usize::MAX,
            *link_counter + links_from(doc.blocks@, i as int) == links_from(doc.blocks@, 0),
            goal == laid_from(
                shape,
                laid_at(*em, block_lines@, *link_counter),
                doc.blocks@,
                i as int,
                float_model,
                folds@,
                *images,
            ),
        decreases n - i,
    {
        let mut folded_to: usize = i;
        if let Block::Heading { level, .. } = &doc.blocks[i] {
            if is_folded(folds, i) {
                folded_to = fold_range_end(&doc.blocks, i, *level);
            }
        }
        if i == float {
            let end: usize = find_heading(&doc.blocks, i + 1, 255);
            proof { lemma_links_split(doc.blocks@, i + 1, end as int); }
            emit_infobox_float(em, block_lines, link_counter, &doc.blocks, i, end, images);
            i = end;
        } else if folded_to > i {
            proof { lemma_links_split(doc.blocks@, i + 1, folded_to as int); }
            emit_fold_summary(em, block_lines, link_counter, &doc.blocks, i, folded_to);
            i = folded_to;
        } else {
            let ghost anchors = block_lines@.map_values(|a: usize| a as nat);
            em.emit_block(&doc.blocks[i], block_lines, link_counter, images);
            proof {
                assert(block_lines@.map_values(|a: usize| a as nat) =~= anchors.push(
                    block_lines@.last() as nat,
                ));
            }
            i = i + 1;
        }
    }
}

/// Lays a document out with every image as its placeholder and no section
/// folded.
pub fn layout_document(doc: &Document, width: u16, options: LayoutOptions) -> (r: Layout)
    requires
        links_from(doc.blocks@, 0) <= usize::MAX,
    ensures
        r.width == width,
        r.options == options,
        r.folds@.len() == 0,
        shows(r, laid_document(*doc, width, options, NoImages, Seq::empty())),
{
    let folds: Vec<usize> = Vec::new();
    assert(folds@ =~= Seq::empty());
    layout_document_with_images(doc, width, options, &NoImages, &folds)
}

} // verus!
