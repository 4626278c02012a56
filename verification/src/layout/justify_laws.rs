//! What justification changes in a document.
use vstd::prelude::*;

use crate::doc::Block;
use crate::doc::CodeToken;
use crate::doc::Document;
use crate::doc::GalleryItem;
use crate::doc::Table;
use crate::doc::minutes_to_read;
use crate::doc::plain_text;
use crate::layout::card::INFOBOX_FLOAT_GAP;
use crate::layout::card::card_lines;
use crate::layout::card::minus;
use crate::layout::cluster::ClusterModel;
use crate::layout::cluster::clusters_in;
use crate::layout::document::Laid;
use crate::layout::document::find_link;
use crate::layout::document::float_at;
use crate::layout::document::float_card_width;
use crate::layout::document::float_rows;
use crate::layout::document::fold_rows;
use crate::layout::document::fold_suffix;
use crate::layout::document::header_rows;
use crate::layout::document::headings_in;
use crate::layout::document::laid_document;
use crate::layout::document::laid_from;
use crate::layout::document::laid_nothing;
use crate::layout::document::lead_shape;
use crate::layout::document::lead_width;
use crate::layout::document::link_place;
use crate::layout::document::next_heading;
use crate::layout::document::paragraphs_in;
use crate::layout::document::run_on;
use crate::layout::document::shape_of;
use crate::layout::document::shows;
use crate::layout::document::with_block;
use crate::layout::document::with_blocks;
use crate::layout::document::with_float;
use crate::layout::document::with_fold;
use crate::layout::emit::CODE_GUTTER;
use crate::layout::emit::Row;
use crate::layout::emit::Shape;
use crate::layout::emit::block_gap;
use crate::layout::emit::block_rows;
use crate::layout::emit::code_rows;
use crate::layout::emit::cut_rows;
use crate::layout::emit::gallery_list;
use crate::layout::emit::gallery_rows;
use crate::layout::emit::image_box_rows;
use crate::layout::emit::image_rows;
use crate::layout::emit::list_form_rows;
use crate::layout::emit::list_marker;
use crate::layout::emit::math_rows;
use crate::layout::emit::picture_rows;
use crate::layout::emit::placeholder;
use crate::layout::emit::plain_rows;
use crate::layout::emit::reserved_box;
use crate::layout::emit::span_of;
use crate::layout::emit::strip_text;
use crate::layout::emit::table_rows;
use crate::layout::emit::tight_rows;
use crate::layout::emit::top_card_width;
use crate::layout::emit::wrapped_rows;
use crate::layout::fill::chunks_of;
use crate::layout::justify_rows::lemma_blank_rows;
use crate::layout::justify_rows::lemma_gaps;
use crate::layout::justify_rows::lemma_line_words;
use crate::layout::justify_rows::lemma_wrapped_rows;
use crate::layout::justify_rows::ragged;
use crate::layout::justify_rows::same_line;
use crate::layout::justify_rows::same_rows;
use crate::layout::justify_rows::same_span;
use crate::layout::justify_rows::unjustified;
use crate::layout::line::flattened;
use crate::layout::line::math_text;
use crate::layout::line::token_clusters;
use crate::layout::line::wrapped;
use crate::layout::measure::cells;
use crate::layout::overflow::math_pad;
use crate::layout::overflow::table_plan;
use crate::layout::table::PlanModel;
use crate::layout::table::grid_lines;
use crate::layout::types::ImageResolver;
use crate::layout::types::KindModel;
use crate::layout::types::Layout;
use crate::layout::types::LayoutOptions;
use crate::layout::types::SpanModel;
use crate::layout::types::line_cells;
use crate::layout::types::line_text;
use crate::text::decimal;
use crate::text::lines_of;
use crate::text::spaces;
use crate::text::words_of;

verus! {

/// The options with justification on or off.
pub open spec fn with_justify(options: LayoutOptions, on: bool) -> LayoutOptions {
    LayoutOptions { justify: on, ..options }
}

proof fn lemma_same_add(a: Seq<Row>, b: Seq<Row>, c: Seq<Row>, d: Seq<Row>)
    requires
        same_rows(a, b),
        same_rows(c, d),
    ensures
        same_rows(a + c, b + d),
{
    let (x, y) = (a + c, b + d);
    assert forall|i: int| 0 <= i < x.len() implies (#[trigger] x[i]).cont == y[i].cont
        && same_line(x[i].line, y[i].line) by {
        if i < a.len() {
            assert(x[i] == a[i] && y[i] == b[i]);
        } else {
            assert(x[i] == c[i - a.len()] && y[i] == d[i - a.len()]);
        }
    }
}

proof fn lemma_gap(shape: Shape)
    ensures
        block_gap(unjustified(shape)) == block_gap(shape),
        same_rows(block_gap(shape), block_gap(unjustified(shape))),
{
    lemma_blank_rows(shape, shape.paragraph_spacing as nat);
}

proof fn lemma_plain(shape: Shape, text: Seq<char>, kind: KindModel)
    ensures
        same_rows(plain_rows(shape, text, kind), plain_rows(unjustified(shape), text, kind)),
{
    lemma_wrapped_rows(
        shape,
        clusters_in(text, kind, shape.ambiguous_wide),
        Seq::empty(),
        Seq::empty(),
        shape.plain(),
    );
}

proof fn lemma_tight(
    shape: Shape,
    prefix: Seq<SpanModel>,
    lines: Seq<Seq<ClusterModel>>,
    cont: bool,
)
    ensures
        tight_rows(unjustified(shape), prefix, lines, cont) == tight_rows(
            shape,
            prefix,
            lines,
            cont,
        ),
{
    assert(tight_rows(unjustified(shape), prefix, lines, cont) =~= tight_rows(
        shape,
        prefix,
        lines,
        cont,
    ));
}

proof fn lemma_cut_rows(shape: Shape, lines: Seq<Seq<char>>, kind: KindModel)
    ensures
        cut_rows(unjustified(shape), lines, kind) == cut_rows(shape, lines, kind),
{
    assert(cut_rows(unjustified(shape), lines, kind) =~= cut_rows(shape, lines, kind));
}

proof fn lemma_code_rows(
    shape: Shape,
    lines: Seq<Seq<char>>,
    tokens: Seq<Vec<CodeToken>>,
    n: int,
)
    ensures
        code_rows(unjustified(shape), lines, tokens, n) == code_rows(shape, lines, tokens, n),
    decreases n,
{
    if n > 0 {
        lemma_code_rows(shape, lines, tokens, n - 1);
        let i = n - 1;
        let clusters = if i < tokens.len() {
            token_clusters(tokens[i]@, shape.ambiguous_wide)
        } else {
            clusters_in(lines[i], KindModel::Code, shape.ambiguous_wide)
        };
        lemma_tight(
            shape,
            span_of(spaces(CODE_GUTTER as nat), KindModel::Code),
            chunks_of(clusters, minus(shape.content_width as nat, CODE_GUTTER as nat)),
            true,
        );
    }
}

proof fn lemma_list_form(shape: Shape, lines: Seq<Seq<char>>, n: int)
    ensures
        list_form_rows(unjustified(shape), lines, n) == list_form_rows(shape, lines, n),
    decreases n,
{
    if n > 0 {
        lemma_list_form(shape, lines, n - 1);
        lemma_tight(
            shape,
            Seq::empty(),
            wrapped(
                clusters_in(lines[n - 1], KindModel::Table, shape.ambiguous_wide),
                shape.content_width as nat,
                shape.plain(),
            ),
            false,
        );
    }
}

proof fn lemma_table(shape: Shape, table: Table)
    ensures
        table_rows(unjustified(shape), table) == table_rows(shape, table),
{
    let plan = table_plan(shape, table);
    match plan {
        PlanModel::Collapse => lemma_list_form(
            shape,
            table.list_lines(),
            table.list_lines().len() as int,
        ),
        PlanModel::Grid { first_col, widths } => lemma_cut_rows(
            shape,
            grid_lines(table, first_col as int, widths, shape.ambiguous_wide),
            KindModel::Table,
        ),
    }
}

proof fn lemma_gallery_list(shape: Shape, items: Seq<GalleryItem>, n: int)
    ensures
        same_rows(gallery_list(shape, items, n), gallery_list(unjustified(shape), items, n)),
    decreases n,
{
    if n > 0 {
        lemma_gallery_list(shape, items, n - 1);
        let text = placeholder(items[n - 1].caption@);
        lemma_plain(shape, text, KindModel::Image);
        lemma_same_add(
            gallery_list(shape, items, n - 1),
            gallery_list(unjustified(shape), items, n - 1),
            plain_rows(shape, text, KindModel::Image),
            plain_rows(unjustified(shape), text, KindModel::Image),
        );
    }
}

proof fn lemma_picture<R: ImageResolver>(
    shape: Shape,
    src: Option<String>,
    alt: Seq<char>,
    caption: Option<String>,
    images: R,
)
    ensures
        same_rows(
            picture_rows(shape, src, alt, caption, images),
            picture_rows(unjustified(shape), src, alt, caption, images),
        ),
{
    let still = unjustified(shape);
    assert(reserved_box(still, src, images) == reserved_box(shape, src, images));
    match reserved_box(shape, src, images) {
        Some((cols, rows)) => {
            assert(image_box_rows(still, src->0@, cols, rows) =~= image_box_rows(
                shape,
                src->0@,
                cols,
                rows,
            ));
        },
        None => lemma_plain(shape, placeholder(alt), KindModel::Image),
    }
    if let Some(text) = caption {
        lemma_plain(shape, text@, KindModel::Caption);
        lemma_same_add(
            image_rows(shape, src, alt, images),
            image_rows(still, src, alt, images),
            plain_rows(shape, text@, KindModel::Caption),
            plain_rows(still, text@, KindModel::Caption),
        );
    }
}

proof fn lemma_gallery(shape: Shape, items: Seq<GalleryItem>)
    ensures
        same_rows(gallery_rows(shape, items), gallery_rows(unjustified(shape), items)),
{
    lemma_tight(
        shape,
        Seq::empty(),
        wrapped(
            clusters_in(
                strip_text(items, items.len() as int),
                KindModel::Caption,
                shape.ambiguous_wide,
            ),
            shape.content_width as nat,
            shape.plain(),
        ),
        true,
    );
    lemma_gallery_list(shape, items, items.len() as int);
}

proof fn lemma_math(shape: Shape, tex: Seq<char>, display: bool)
    ensures
        same_rows(math_rows(shape, tex, display), math_rows(unjustified(shape), tex, display)),
{
    let still = unjustified(shape);
    let text = math_text(tex);
    let cs = clusters_in(text, KindModel::Math, shape.ambiguous_wide);
    let pad = math_pad(shape, tex);
    lemma_gap(shape);
    let (a, b) = if display {
        lemma_wrapped_rows(shape, cs, pad, pad, shape.plain());
        (
            wrapped_rows(shape, cs, pad, pad, shape.plain()),
            wrapped_rows(still, cs, pad, pad, still.plain()),
        )
    } else {
        lemma_plain(shape, text, KindModel::Math);
        (plain_rows(shape, text, KindModel::Math), plain_rows(still, text, KindModel::Math))
    };
    let gap = block_gap(shape);
    lemma_same_add(gap, gap, a, b);
    lemma_same_add(gap + a, gap + b, gap, gap);
}

proof fn lemma_block_rows<R: ImageResolver>(shape: Shape, block: Block, images: R, links: nat)
    ensures
        same_rows(
            block_rows(shape, block, images, links),
            block_rows(unjustified(shape), block, images, links),
        ),
{
    let still = unjustified(shape);
    let aw = shape.ambiguous_wide;
    let none = Seq::<SpanModel>::empty();
    let gap = block_gap(shape);
    lemma_gap(shape);
    assert(still.prose() == ragged(shape.prose()));
    match block {
        Block::Heading { level, spans } => {
            let text = plain_text(spans@);
            let kind = KindModel::Heading(level);
            lemma_plain(shape, text, kind);
            lemma_same_add(gap, gap, plain_rows(shape, text, kind), plain_rows(still, text, kind));
        },
        Block::Paragraph(spans) => {
            let content = flattened(spans@, KindModel::Plain, links, aw);
            lemma_wrapped_rows(shape, content, none, none, shape.prose());
            lemma_same_add(
                wrapped_rows(shape, content, none, none, shape.prose()),
                wrapped_rows(still, content, none, none, still.prose()),
                gap,
                gap,
            );
        },
        Block::ListItem { ordered, index, depth, spans } => {
            let marker = list_marker(ordered, index, depth);
            lemma_wrapped_rows(
                shape,
                flattened(spans@, KindModel::Plain, links, aw),
                span_of(marker, KindModel::Plain),
                span_of(spaces(cells(marker, aw)), KindModel::Plain),
                shape.prose(),
            );
        },
        Block::Blockquote(spans) => {
            let bar = span_of(seq!['▌', ' '], KindModel::Dim);
            let content = flattened(spans@, KindModel::Quote, links, aw);
            lemma_wrapped_rows(shape, content, bar, bar, shape.prose());
            lemma_same_add(
                wrapped_rows(shape, content, bar, bar, shape.prose()),
                wrapped_rows(still, content, bar, bar, still.prose()),
                gap,
                gap,
            );
        },
        Block::Code { text, lang, tokens } => {
            lemma_code_rows(shape, lines_of(text@), tokens@, lines_of(text@).len() as int);
        },
        Block::Rule => {},
        Block::Table(table) => {
            lemma_table(shape, table);
        },
        Block::Infobox(rows) => {
            lemma_cut_rows(
                shape,
                card_lines(rows@, top_card_width(shape), aw),
                KindModel::Infobox,
            );
        },
        Block::Image { src, alt, caption } => {
            lemma_picture(shape, src, alt@, caption, images);
            lemma_same_add(
                picture_rows(shape, src, alt@, caption, images),
                picture_rows(still, src, alt@, caption, images),
                gap,
                gap,
            );
        },
        Block::Gallery(items) => {
            lemma_gallery(shape, items@);
            lemma_same_add(gallery_rows(shape, items@), gallery_rows(still, items@), gap, gap);
        },
        Block::Math { tex, display, .. } => {
            lemma_math(shape, tex@, display);
        },
    }
}

/// Laid out alike: the same rows but for the width of their gaps, the same
/// anchors, and the same number of links.
pub open spec fn same_laid(a: Laid, b: Laid) -> bool {
    same_rows(a.rows, b.rows) && a.anchors == b.anchors && a.links == b.links
}

proof fn lemma_with_block<R: ImageResolver>(shape: Shape, a: Laid, b: Laid, block: Block, images: R)
    requires
        same_laid(a, b),
    ensures
        same_laid(
            with_block(shape, a, block, images),
            with_block(unjustified(shape), b, block, images),
        ),
{
    lemma_block_rows(shape, block, images, a.links);
    lemma_same_add(
        a.rows,
        b.rows,
        block_rows(shape, block, images, a.links),
        block_rows(unjustified(shape), block, images, a.links),
    );
}

proof fn lemma_blocks<R: ImageResolver>(
    shape: Shape,
    a: Laid,
    b: Laid,
    blocks: Seq<Block>,
    from: int,
    to: int,
    images: R,
)
    requires
        same_laid(a, b),
    ensures
        same_laid(
            with_blocks(shape, a, blocks, from, to, images),
            with_blocks(unjustified(shape), b, blocks, from, to, images),
        ),
    decreases to - from,
{
    if from < to {
        lemma_blocks(shape, a, b, blocks, from, to - 1, images);
        lemma_with_block(
            shape,
            with_blocks(shape, a, blocks, from, to - 1, images),
            with_blocks(unjustified(shape), b, blocks, from, to - 1, images),
            blocks[to - 1],
            images,
        );
    }
}

proof fn lemma_fold(shape: Shape, a: Laid, b: Laid, blocks: Seq<Block>, heading: int, end: int)
    requires
        same_laid(a, b),
    ensures
        same_laid(
            with_fold(shape, a, blocks, heading, end),
            with_fold(unjustified(shape), b, blocks, heading, end),
        ),
{
    let still = unjustified(shape);
    let aw = shape.ambiguous_wide;
    let level = blocks[heading]->Heading_level;
    let title = plain_text(blocks[heading]->Heading_spans@);
    let paragraphs = paragraphs_in(blocks, heading + 1, end);
    let subsections = headings_in(blocks, heading + 1, end);
    let none = Seq::<SpanModel>::empty();
    let content = clusters_in("▸ "@ + title, KindModel::Heading(level), aw) + clusters_in(
        fold_suffix(paragraphs, subsections),
        KindModel::Dim,
        aw,
    );
    let gap = block_gap(shape);
    lemma_gap(shape);
    lemma_wrapped_rows(shape, content, none, none, shape.plain());
    let x = wrapped_rows(shape, content, none, none, shape.plain());
    let y = wrapped_rows(still, content, none, none, still.plain());
    lemma_same_add(gap, gap, x, y);
    lemma_same_add(gap + x, gap + y, gap, gap);
    lemma_same_add(
        a.rows,
        b.rows,
        fold_rows(shape, title, level, paragraphs, subsections),
        fold_rows(still, title, level, paragraphs, subsections),
    );
}

proof fn lemma_float_rows(shape: Shape, a: Seq<Row>, b: Seq<Row>, card: Seq<Seq<char>>)
    requires
        same_rows(a, b),
    ensures
        same_rows(float_rows(shape, a, card), float_rows(unjustified(shape), b, card)),
{
    let still = unjustified(shape);
    let (x, y) = (float_rows(shape, a, card), float_rows(still, b, card));
    assert forall|j: int| 0 <= j < x.len() implies (#[trigger] x[j]).cont == y[j].cont
        && same_line(x[j].line, y[j].line) by {
        let left = if j < a.len() {
            assert(same_line(a[j].line, b[j].line));
            (a[j].line, b[j].line)
        } else {
            (Seq::empty(), Seq::empty())
        };
        let aw = shape.ambiguous_wide;
        lemma_gaps(
            minus(lead_width(shape), line_cells(left.0, aw)) + INFOBOX_FLOAT_GAP as nat,
            minus(lead_width(shape), line_cells(left.1, aw)) + INFOBOX_FLOAT_GAP as nat,
        );
    }
}

proof fn lemma_float<R: ImageResolver>(
    shape: Shape,
    a: Laid,
    b: Laid,
    blocks: Seq<Block>,
    i: int,
    end: int,
    images: R,
)
    requires
        same_laid(a, b),
    ensures
        same_laid(
            with_float(shape, a, blocks, i, end, images),
            with_float(unjustified(shape), b, blocks, i, end, images),
        ),
{
    let still = unjustified(shape);
    let nothing = laid_nothing(a.links);
    assert(lead_shape(still) == unjustified(lead_shape(shape)));
    lemma_blocks(lead_shape(shape), nothing, nothing, blocks, i + 1, end, images);
    let lead = with_blocks(lead_shape(shape), nothing, blocks, i + 1, end, images);
    let still_lead = with_blocks(lead_shape(still), nothing, blocks, i + 1, end, images);
    let card = card_lines(blocks[i]->Infobox_0@, float_card_width(shape), shape.ambiguous_wide);
    lemma_float_rows(shape, lead.rows, still_lead.rows, card);
    let (x, y) = (float_rows(shape, lead.rows, card), float_rows(still, still_lead.rows, card));
    let gap = block_gap(shape);
    lemma_gap(shape);
    lemma_same_add(a.rows, b.rows, x, y);
    lemma_same_add(a.rows + x, b.rows + y, gap, gap);
}

proof fn lemma_laid<R: ImageResolver>(
    shape: Shape,
    a: Laid,
    b: Laid,
    blocks: Seq<Block>,
    i: int,
    float: int,
    folds: Seq<usize>,
    images: R,
)
    requires
        same_laid(a, b),
    ensures
        same_laid(
            laid_from(shape, a, blocks, i, float, folds, images),
            laid_from(unjustified(shape), b, blocks, i, float, folds, images),
        ),
    decreases blocks.len() - i,
{
    let still = unjustified(shape);
    if 0 <= i < blocks.len() {
        if i == float {
            let end = next_heading(blocks, i + 1, 255);
            if i < end <= blocks.len() {
                lemma_float(shape, a, b, blocks, i, end, images);
                lemma_laid(
                    shape,
                    with_float(shape, a, blocks, i, end, images),
                    with_float(still, b, blocks, i, end, images),
                    blocks,
                    end,
                    float,
                    folds,
                    images,
                );
            }
        } else if blocks[i] is Heading && folds.contains(i as usize) {
            let end = next_heading(blocks, i + 1, blocks[i]->Heading_level);
            if i < end <= blocks.len() {
                lemma_fold(shape, a, b, blocks, i, end);
                lemma_laid(
                    shape,
                    with_fold(shape, a, blocks, i, end),
                    with_fold(still, b, blocks, i, end),
                    blocks,
                    end,
                    float,
                    folds,
                    images,
                );
            }
        } else {
            lemma_with_block(shape, a, b, blocks[i], images);
            lemma_laid(
                shape,
                with_block(shape, a, blocks[i], images),
                with_block(still, b, blocks[i], images),
                blocks,
                i + 1,
                float,
                folds,
                images,
            );
        }
    }
}

proof fn lemma_document<R: ImageResolver>(
    doc: Document,
    width: u16,
    options: LayoutOptions,
    images: R,
    folds: Seq<usize>,
)
    ensures
        same_laid(
            laid_document(doc, width, with_justify(options, true), images, folds),
            laid_document(doc, width, with_justify(options, false), images, folds),
        ),
{
    let shape = shape_of(width, with_justify(options, true));
    let still = shape_of(width, with_justify(options, false));
    assert(still == unjustified(shape));
    let minutes = minutes_to_read(doc.words as nat, options.reading_wpm as nat);
    let time = decimal(minutes) + " min read"@;
    let gap = block_gap(shape);
    lemma_gap(shape);
    lemma_plain(shape, doc.title@, KindModel::Title);
    lemma_plain(shape, time, KindModel::Dim);
    let (a, b) = (
        plain_rows(shape, doc.title@, KindModel::Title),
        plain_rows(still, doc.title@, KindModel::Title),
    );
    let (c, d) = (
        plain_rows(shape, time, KindModel::Dim),
        plain_rows(still, time, KindModel::Dim),
    );
    lemma_same_add(a, b, c, d);
    lemma_same_add(a, b, gap, gap);
    lemma_same_add(a + c, b + d, gap, gap);
    lemma_laid(
        shape,
        Laid {
            rows: header_rows(shape, doc.title@, minutes),
            anchors: Seq::empty(),
            links: 0,
        },
        Laid {
            rows: header_rows(still, doc.title@, minutes),
            anchors: Seq::empty(),
            links: 0,
        },
        doc.blocks@,
        0,
        float_at(width, shape, doc.blocks@),
        folds,
        images,
    );
}

proof fn lemma_find_link(a: Seq<Row>, b: Seq<Row>, n: int, k: int, occurrence: usize)
    requires
        same_rows(a, b),
        0 <= n <= a.len(),
        0 <= k,
        k > 0 ==> n < a.len() && k <= a[n].line.len(),
    ensures
        find_link(a, n, k, occurrence) is Some <==> find_link(b, n, k, occurrence) is Some,
        find_link(a, n, k, occurrence) is Some ==> (find_link(a, n, k, occurrence)->0).0 == (
        find_link(b, n, k, occurrence)->0).0,
    decreases n, k,
{
    if k > 0 {
        lemma_find_link(a, b, n, k - 1, occurrence);
        assert(same_line(a[n].line, b[n].line));
        assert(same_span(a[n].line[k - 1], b[n].line[k - 1]));
    } else if n > 0 {
        assert(same_line(a[n - 1].line, b[n - 1].line));
        lemma_find_link(a, b, n - 1, a[n - 1].line.len() as int, occurrence);
    }
}

proof fn lemma_layouts(on: Layout, off: Layout, a: Laid, b: Laid)
    requires
        shows(on, a),
        shows(off, b),
        same_laid(a, b),
    ensures
        on.lines@.len() == off.lines@.len(),
        on.block_lines@ == off.block_lines@,
        on.link_lines@ == off.link_lines@,
        on.link_visible@ == off.link_visible@,
        on.continuation@ == off.continuation@,
        forall|i: int|
            0 <= i < on.lines@.len() ==> words_of(line_text((#[trigger] on.lines@[i])@))
                == words_of(line_text(off.lines@[i]@)),
{
    assert(run_on(a.rows) =~= run_on(b.rows));
    assert(on.block_lines@.len() == a.anchors.len());
    assert(off.block_lines@.len() == b.anchors.len());
    assert forall|i: int| 0 <= i < on.block_lines@.len() implies on.block_lines@[i]
        == off.block_lines@[i] by {
        assert(a.anchors[i] == on.block_lines@[i] as nat);
        assert(b.anchors[i] == off.block_lines@[i] as nat);
    }
    assert(on.block_lines@ =~= off.block_lines@);
    assert forall|o: int| 0 <= o < a.links implies on.link_lines@[o] == off.link_lines@[o]
        && on.link_visible@[o] == off.link_visible@[o] by {
        lemma_find_link(a.rows, b.rows, a.rows.len() as int, 0, o as usize);
        assert(on.link_visible@[o] == (link_place(a.rows, o as usize) is Some));
        assert(off.link_visible@[o] == (link_place(b.rows, o as usize) is Some));
    }
    assert(on.link_lines@ =~= off.link_lines@);
    assert(on.link_visible@ =~= off.link_visible@);
    assert forall|i: int| 0 <= i < on.lines@.len() implies words_of(
        line_text((#[trigger] on.lines@[i])@),
    ) == words_of(line_text(off.lines@[i]@)) by {
        assert(on.lines@[i]@ == a.rows[i].line);
        assert(off.lines@[i]@ == b.rows[i].line);
        lemma_line_words(a.rows[i].line, b.rows[i].line);
    }
}

/// Justification moves no line break and no mapping: with it and without it a
/// document has the same lines, each with the same words, the same lines that
/// run on, the same anchors, and every link on the same line.
pub proof fn justification_moves_nothing<R: ImageResolver>(
    on: Layout,
    off: Layout,
    doc: Document,
    width: u16,
    options: LayoutOptions,
    images: R,
    folds: Seq<usize>,
)
    requires
        shows(on, laid_document(doc, width, with_justify(options, true), images, folds)),
        shows(off, laid_document(doc, width, with_justify(options, false), images, folds)),
    ensures
        on.lines@.len() == off.lines@.len(),
        on.block_lines@ == off.block_lines@,
        on.link_lines@ == off.link_lines@,
        on.link_visible@ == off.link_visible@,
        on.continuation@ == off.continuation@,
        forall|i: int|
            0 <= i < on.lines@.len() ==> words_of(line_text((#[trigger] on.lines@[i])@))
                == words_of(line_text(off.lines@[i]@)),
{
    lemma_document(doc, width, options, images, folds);
    lemma_layouts(
        on,
        off,
        laid_document(doc, width, with_justify(options, true), images, folds),
        laid_document(doc, width, with_justify(options, false), images, folds),
    );
}

} // verus!
