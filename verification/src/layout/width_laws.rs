//! Lines and the width of the terminal, for ordinary text.
use vstd::prelude::*;

use crate::doc::Block;
use crate::doc::Document;
use crate::doc::Span;
use crate::doc::minutes_to_read;
use crate::doc::plain_text;
use crate::layout::document::available;
use crate::layout::document::column_fits_the_terminal;
use crate::layout::document::float_at;
use crate::layout::document::fold_suffix;
use crate::layout::document::headings_in;
use crate::layout::document::laid_document;
use crate::layout::document::lead_shape;
use crate::layout::document::next_heading;
use crate::layout::document::paragraphs_in;
use crate::layout::document::shape_of;
use crate::layout::emit::CODE_GUTTER;
use crate::layout::emit::Shape;
use crate::layout::line::span_display;
use crate::layout::overflow::behind_gutter;
use crate::layout::overflow::behind_pad;
use crate::layout::overflow::block_fits;
use crate::layout::overflow::block_within;
use crate::layout::overflow::code_fits;
use crate::layout::overflow::code_line_fits;
use crate::layout::overflow::lead_limit;
use crate::layout::overflow::no_line_overflows;
use crate::layout::overflow::rest_fits;
use crate::layout::overflow::spans_fit;
use crate::layout::overflow::text_fits;
use crate::layout::types::ImageResolver;
use crate::layout::types::LayoutOptions;
use crate::layout::types::line_cells;
use crate::text::decimal;
use crate::text::lines_of;

verus! {

/// A terminal of ordinary width has this many cells at least.
pub const ORDINARY_WIDTH: u16 = 20;

/// The cells that an ordinary cluster takes at most: those that a terminal of
/// ordinary width leaves behind the pad of a centered column and the gutter of
/// code.
pub const ORDINARY_CLUSTER: usize = 7;

/// Every cluster of what is shown of `blocks[i..]` fits `n` cells.
pub open spec fn rest_within<R: ImageResolver>(
    shape: Shape,
    blocks: Seq<Block>,
    i: int,
    float: int,
    folds: Seq<usize>,
    images: R,
    n: nat,
) -> bool
    decreases blocks.len() - i,
{
    let aw = shape.ambiguous_wide;
    if i < 0 || i >= blocks.len() {
        true
    } else if i == float {
        let end = next_heading(blocks, i + 1, 255);
        i < end <= blocks.len() ==> {
            &&& forall|k: int|
                i + 1 <= k < end ==> block_within(
                    lead_shape(shape),
                    #[trigger] blocks[k],
                    images,
                    n,
                    n,
                )
            &&& rest_within(shape, blocks, end, float, folds, images, n)
        }
    } else if blocks[i] is Heading && folds.contains(i as usize) {
        let end = next_heading(blocks, i + 1, blocks[i]->Heading_level);
        i < end <= blocks.len() ==> {
            &&& text_fits("▸ "@ + plain_text(blocks[i]->Heading_spans@), n, aw)
            &&& text_fits(
                fold_suffix(
                    paragraphs_in(blocks, i + 1, end),
                    headings_in(blocks, i + 1, end),
                ),
                n,
                aw,
            )
            &&& rest_within(shape, blocks, end, float, folds, images, n)
        }
    } else {
        block_within(shape, blocks[i], images, n, n) && rest_within(
            shape,
            blocks,
            i + 1,
            float,
            folds,
            images,
            n,
        )
    }
}

/// Every cluster of what a document shows fits `n` cells.
pub open spec fn document_within<R: ImageResolver>(
    doc: Document,
    width: u16,
    options: LayoutOptions,
    images: R,
    folds: Seq<usize>,
    n: nat,
) -> bool {
    let shape = shape_of(width, options);
    let aw = options.ambiguous_wide;
    let minutes = minutes_to_read(doc.words as nat, options.reading_wpm as nat);
    &&& text_fits(doc.title@, n, aw)
    &&& minutes > 0 ==> text_fits(decimal(minutes) + " min read"@, n, aw)
    &&& rest_within(
        shape,
        doc.blocks@,
        0,
        float_at(width, shape, doc.blocks@),
        folds,
        images,
        n,
    )
}

proof fn lemma_block<R: ImageResolver>(
    shape: Shape,
    limit: nat,
    block: Block,
    images: R,
    n: nat,
)
    requires
        n >= 1,
        shape.pad_width + CODE_GUTTER + n <= limit,
        block_within(shape, block, images, n, n),
    ensures
        block_fits(shape, limit, block, images),
{
    let aw = shape.ambiguous_wide;
    let cw = behind_pad(shape, limit);
    let m = behind_gutter(shape, limit);
    assert forall|s: Seq<char>| text_fits(s, n, aw) implies #[trigger] text_fits(s, cw, aw) by {}
    assert forall|s: Seq<Span>| spans_fit(s, n, aw) implies #[trigger] spans_fit(s, cw, aw) by {
        assert forall|k: int| 0 <= k < s.len() implies text_fits(
            span_display(#[trigger] s[k]),
            cw,
            aw,
        ) by {
            assert(text_fits(span_display(s[k]), n, aw));
        }
    }
    assert forall|s: Seq<char>| code_fits(s, n, aw) implies #[trigger] code_fits(s, m, aw) by {}
    if let Block::Code { text, lang, tokens } = block {
        let lines = lines_of(text@);
        assert forall|i: int| 0 <= i < lines.len() implies code_line_fits(
            #[trigger] lines[i],
            tokens@,
            i,
            m,
            aw,
        ) by {
            assert(code_line_fits(lines[i], tokens@, i, n, aw));
            if i < tokens@.len() {
                assert forall|k: int| 0 <= k < tokens@[i]@.len() implies code_fits(
                    (#[trigger] tokens@[i]@[k]).text@,
                    m,
                    aw,
                ) by {
                    assert(code_fits(tokens@[i]@[k].text@, n, aw));
                }
            }
        }
    }
}

proof fn lemma_rest<R: ImageResolver>(
    width: u16,
    shape: Shape,
    limit: nat,
    blocks: Seq<Block>,
    i: int,
    folds: Seq<usize>,
    images: R,
    n: nat,
)
    requires
        1 <= n <= ORDINARY_CLUSTER,
        shape.wf(),
        shape.pad_width + CODE_GUTTER + n <= limit,
        shape.pad_width + shape.content_width <= limit,
        rest_within(shape, blocks, i, float_at(width, shape, blocks), folds, images, n),
    ensures
        rest_fits(shape, limit, blocks, i, float_at(width, shape, blocks), folds, images),
    decreases blocks.len() - i,
{
    let float = float_at(width, shape, blocks);
    let aw = shape.ambiguous_wide;
    let cw = behind_pad(shape, limit);
    if 0 <= i < blocks.len() {
        if i == float {
            let end = next_heading(blocks, i + 1, 255);
            if i < end <= blocks.len() {
                let lead = lead_shape(shape);
                assert forall|k: int| i + 1 <= k < end implies block_fits(
                    lead,
                    lead_limit(shape, limit),
                    #[trigger] blocks[k],
                    images,
                ) by {
                    lemma_block(lead, lead_limit(shape, limit), blocks[k], images, n);
                }
                lemma_rest(width, shape, limit, blocks, end, folds, images, n);
            }
        } else if blocks[i] is Heading && folds.contains(i as usize) {
            let end = next_heading(blocks, i + 1, blocks[i]->Heading_level);
            if i < end <= blocks.len() {
                assert forall|s: Seq<char>| text_fits(s, n, aw) implies #[trigger] text_fits(
                    s,
                    cw,
                    aw,
                ) by {}
                lemma_rest(width, shape, limit, blocks, end, folds, images, n);
            }
        } else {
            lemma_block(shape, limit, blocks[i], images, n);
            lemma_rest(width, shape, limit, blocks, i + 1, folds, images, n);
        }
    }
}

/// On a terminal of ordinary width, without a margin, no line is ever wider than
/// the terminal, as long as no single cluster is wider than an ordinary one may
/// be.
pub proof fn ordinary_text_never_overflows<R: ImageResolver>(
    doc: Document,
    width: u16,
    options: LayoutOptions,
    images: R,
    folds: Seq<usize>,
    i: int,
)
    requires
        width >= ORDINARY_WIDTH,
        options.margin == 0,
        document_within(doc, width, options, images, folds, ORDINARY_CLUSTER as nat),
        0 <= i < laid_document(doc, width, options, images, folds).rows.len(),
    ensures
        line_cells(
            laid_document(doc, width, options, images, folds).rows[i].line,
            options.ambiguous_wide,
        ) <= width,
{
    let shape = shape_of(width, options);
    let limit = available(width);
    let n = ORDINARY_CLUSTER as nat;
    let aw = options.ambiguous_wide;
    column_fits_the_terminal(width, options);
    lemma_rest(width, shape, limit, doc.blocks@, 0, folds, images, n);
    assert forall|s: Seq<char>| text_fits(s, n, aw) implies #[trigger] text_fits(
        s,
        behind_pad(shape, limit),
        aw,
    ) by {}
    no_line_overflows(doc, width, options, images, folds, i);
}

} // verus!
