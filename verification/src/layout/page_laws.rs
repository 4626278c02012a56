//! What a layout shows of a document, block by block.
use vstd::prelude::*;

use crate::doc::Block;
use crate::doc::CodeToken;
use crate::doc::Document;
use crate::doc::GalleryItem;
use crate::doc::plain_text;
use crate::layout::cluster::ClusterModel;
use crate::layout::cluster::clusters_in;
use crate::layout::document::float_at;
use crate::layout::document::laid_document;
use crate::layout::document::links_from;
use crate::layout::document::shape_of;
use crate::layout::document::shows;
use crate::layout::emit::CODE_GUTTER;
use crate::layout::emit::GALLERY_STRIP_MIN_WIDTH;
use crate::layout::emit::Row;
use crate::layout::emit::Shape;
use crate::layout::emit::block_gap;
use crate::layout::emit::block_rows;
use crate::layout::emit::code_line;
use crate::layout::emit::code_rows;
use crate::layout::emit::gallery_list;
use crate::layout::emit::gallery_rows;
use crate::layout::emit::image_box_rows;
use crate::layout::emit::image_rows;
use crate::layout::emit::list_form_rows;
use crate::layout::emit::list_line_rows;
use crate::layout::emit::list_marker;
use crate::layout::emit::math_rows;
use crate::layout::emit::own_row;
use crate::layout::emit::picture_rows;
use crate::layout::emit::placeholder;
use crate::layout::emit::plain_rows;
use crate::layout::emit::prefix_fits;
use crate::layout::emit::reserved_box;
use crate::layout::emit::span_of;
use crate::layout::emit::strip_text;
use crate::layout::emit::tight_rows;
use crate::layout::emit::wrapped_rows;
use crate::layout::fill::chunks_of;
use crate::layout::line::final_line;
use crate::layout::line::flattened;
use crate::layout::line::math_text;
use crate::layout::line::token_clusters;
use crate::layout::line::token_kind;
use crate::layout::line::wrapped;
use crate::layout::marker_laws::column_for;
use crate::layout::marker_laws::in_lead;
use crate::layout::marker_laws::is_laid_out;
use crate::layout::marker_laws::lemma_block_place;
use crate::layout::marker_laws::lemma_span_text;
use crate::layout::marker_laws::starts_with;
use crate::layout::measure::cells;
use crate::layout::show_laws::cluster_ink;
use crate::layout::show_laws::displayed;
use crate::layout::show_laws::ink;
use crate::layout::show_laws::lemma_blank_ink;
use crate::layout::show_laws::lemma_chunks_ink;
use crate::layout::show_laws::lemma_cluster_ink_add;
use crate::layout::show_laws::lemma_final_ink;
use crate::layout::show_laws::lemma_ink_add;
use crate::layout::show_laws::lemma_ink_blank;
use crate::layout::show_laws::lemma_ink_spaces;
use crate::layout::show_laws::lemma_row_ink_add;
use crate::layout::show_laws::lemma_rows_ink;
use crate::layout::show_laws::lemma_spans_ink;
use crate::layout::show_laws::lemma_string_ink;
use crate::layout::show_laws::lemma_wrapped_ink;
use crate::layout::show_laws::lines_ink;
use crate::layout::show_laws::row_ink;
use crate::layout::table::MIN_COL_WIDTH;
use crate::layout::table::glyph_cells;
use crate::layout::types::ImageResolver;
use crate::layout::types::KindModel;
use crate::layout::types::Layout;
use crate::layout::types::LayoutOptions;
use crate::layout::types::SpanModel;
use crate::layout::types::line_text;
use crate::text::concat_all;
use crate::text::decimal;
use crate::text::line_cut;
use crate::text::lines_of;
use crate::text::spaces;
use crate::text::whitespace;
use crate::text::without_cr;
use crate::text_laws::decimal_reads_back;
use crate::text_laws::is_numeral;
use crate::text_laws::number_read;

verus! {

/// The text of one line's tokens.
pub open spec fn token_text(tokens: Seq<CodeToken>) -> Seq<char>
    decreases tokens.len(),
{
    if tokens.len() == 0 {
        Seq::empty()
    } else {
        token_text(tokens.drop_last()) + tokens.last().text@
    }
}

/// The first `n` lines of code: a line's tokens where it has some.
pub open spec fn source_text(lines: Seq<Seq<char>>, tokens: Seq<Vec<CodeToken>>, n: int) -> Seq<
    char,
>
    decreases n,
{
    if n <= 0 {
        Seq::empty()
    } else {
        source_text(lines, tokens, n - 1) + (if n - 1 < tokens.len() {
            token_text(tokens[n - 1]@)
        } else {
            lines[n - 1]
        })
    }
}

/// The captions of the first `n` pictures, each in brackets.
pub open spec fn captions(items: Seq<GalleryItem>, strip: bool, n: int) -> Seq<char>
    decreases n,
{
    if n <= 0 {
        Seq::empty()
    } else {
        captions(items, strip, n - 1) + (if strip {
            "["@
        } else {
            "[image: "@
        }) + items[n - 1].caption@ + "]"@
    }
}

/// The text of a block that its rows show: inline runs as they display, code
/// as it stands, a formula between angle brackets, and a picture's alternative
/// text, unless the picture itself is there, with its caption.
pub open spec fn block_text(block: Block, pictured: bool, strip: bool) -> Seq<char> {
    match block {
        Block::Heading { spans, .. } => plain_text(spans@),
        Block::Paragraph(spans) => displayed(spans@),
        Block::ListItem { spans, .. } => displayed(spans@),
        Block::Blockquote(spans) => displayed(spans@),
        Block::Code { text, tokens, .. } => if tokens@.len() == 0 {
            text@
        } else {
            source_text(lines_of(text@), tokens@, lines_of(text@).len() as int)
        },
        Block::Image { alt, caption, .. } => (if pictured {
            Seq::empty()
        } else {
            "[image: "@ + alt@ + "]"@
        }) + (match caption {
            Some(text) => text@,
            None => Seq::empty(),
        }),
        Block::Gallery(items) => captions(items@, strip, items@.len() as int),
        Block::Math { tex, .. } => seq!['⟨'] + tex@ + seq!['⟩'],
        _ => Seq::empty(),
    }
}

proof fn lemma_tight_ink(
    shape: Shape,
    prefix: Seq<SpanModel>,
    lines: Seq<Seq<ClusterModel>>,
    cont: bool,
    but: Seq<char>,
)
    requires
        ink(line_text(prefix), but) == Seq::<char>::empty(),
    ensures
        row_ink(tight_rows(shape, prefix, lines, cont), but) == lines_ink(lines, but),
    decreases lines.len(),
{
    let rows = tight_rows(shape, prefix, lines, cont);
    if lines.len() > 0 {
        let front = lines.drop_last();
        lemma_tight_ink(shape, prefix, front, cont, but);
        assert(rows.drop_last() =~= tight_rows(shape, prefix, front, cont));
        lemma_final_ink(shape.pad_width as nat, prefix, lines.last(), but);
        assert(row_ink(rows, but) =~= lines_ink(lines, but));
    } else {
        assert(rows =~= Seq::empty());
    }
}

proof fn lemma_no_prefix_ink(but: Seq<char>)
    ensures
        line_text(Seq::<SpanModel>::empty()) == Seq::<char>::empty(),
        ink(line_text(Seq::<SpanModel>::empty()), but) == Seq::<char>::empty(),
{
    assert(line_text(Seq::<SpanModel>::empty()) =~= Seq::empty());
}

/// Plain text shows whole.
pub proof fn lemma_plain_ink(shape: Shape, text: Seq<char>, kind: KindModel, but: Seq<char>)
    ensures
        row_ink(plain_rows(shape, text, kind), but) == ink(text, but),
{
    let content = clusters_in(text, kind, shape.ambiguous_wide);
    lemma_no_prefix_ink(but);
    lemma_string_ink(text, kind, shape.ambiguous_wide, but);
    lemma_rows_ink(shape, content, Seq::empty(), Seq::empty(), shape.plain(), but);
    assert(Seq::<char>::empty() + cluster_ink(content, but) =~= ink(text, but));
}

proof fn lemma_tokens_ink(tokens: Seq<CodeToken>, ambiguous_wide: bool, but: Seq<char>)
    ensures
        cluster_ink(token_clusters(tokens, ambiguous_wide), but) == ink(token_text(tokens), but),
    decreases tokens.len(),
{
    if tokens.len() > 0 {
        let front = tokens.drop_last();
        let t = tokens.last();
        lemma_tokens_ink(front, ambiguous_wide, but);
        lemma_string_ink(t.text@, token_kind(t.kind), ambiguous_wide, but);
        lemma_cluster_ink_add(
            token_clusters(front, ambiguous_wide),
            clusters_in(t.text@, token_kind(t.kind), ambiguous_wide),
            but,
        );
        lemma_ink_add(token_text(front), t.text@, but);
    }
}

proof fn lemma_code_line_ink(
    shape: Shape,
    line: Seq<char>,
    tokens: Seq<Vec<CodeToken>>,
    i: int,
    but: Seq<char>,
)
    requires
        0 <= i,
    ensures
        row_ink(code_line(shape, line, tokens, i), but) == ink(
            if i < tokens.len() {
                token_text(tokens[i]@)
            } else {
                line
            },
            but,
        ),
{
    let aw = shape.ambiguous_wide;
    let clusters = if i < tokens.len() {
        token_clusters(tokens[i]@, aw)
    } else {
        clusters_in(line, KindModel::Code, aw)
    };
    if i < tokens.len() {
        lemma_tokens_ink(tokens[i]@, aw, but);
    } else {
        lemma_string_ink(line, KindModel::Code, aw, but);
    }
    let gutter = span_of(spaces(CODE_GUTTER as nat), KindModel::Code);
    lemma_span_text(spaces(CODE_GUTTER as nat), KindModel::Code);
    lemma_ink_spaces(CODE_GUTTER as nat, but);
    let avail = crate::layout::card::minus(shape.content_width as nat, CODE_GUTTER as nat);
    lemma_chunks_ink(clusters, avail, but);
    let chunks = chunks_of(clusters, avail);
    if chunks.len() == 0 {
        let row = own_row(final_line(shape.pad_width as nat, gutter, Seq::empty()));
        lemma_final_ink(shape.pad_width as nat, gutter, Seq::empty(), but);
        reveal_with_fuel(row_ink, 2);
        assert(seq![row].drop_last() =~= Seq::empty());
        assert(row_ink(seq![row], but) =~= Seq::empty());
    } else {
        lemma_tight_ink(shape, gutter, chunks, true, but);
    }
}

proof fn lemma_code_ink(
    shape: Shape,
    lines: Seq<Seq<char>>,
    tokens: Seq<Vec<CodeToken>>,
    n: int,
    but: Seq<char>,
)
    requires
        0 <= n <= lines.len(),
    ensures
        row_ink(code_rows(shape, lines, tokens, n), but) == ink(
            source_text(lines, tokens, n),
            but,
        ),
    decreases n,
{
    if n > 0 {
        lemma_code_ink(shape, lines, tokens, n - 1, but);
        lemma_code_line_ink(shape, lines[n - 1], tokens, n - 1, but);
        lemma_row_ink_add(
            code_rows(shape, lines, tokens, n - 1),
            code_line(shape, lines[n - 1], tokens, n - 1),
            but,
        );
        let last = if n - 1 < tokens.len() {
            token_text(tokens[n - 1]@)
        } else {
            lines[n - 1]
        };
        lemma_ink_add(source_text(lines, tokens, n - 1), last, but);
    }
}

/// Lines without tokens are the lines.
proof fn lemma_source_is_lines(lines: Seq<Seq<char>>, tokens: Seq<Vec<CodeToken>>, n: int)
    requires
        0 <= n <= lines.len(),
        tokens.len() == 0,
    ensures
        source_text(lines, tokens, n) == concat_all(lines.take(n)),
    decreases n,
{
    if n > 0 {
        lemma_source_is_lines(lines, tokens, n - 1);
        assert(lines.take(n).drop_last() =~= lines.take(n - 1));
    } else {
        assert(lines.take(0) =~= Seq::empty());
    }
}

/// Only line breaks are lost between lines.
proof fn lemma_lines_show(s: Seq<char>, but: Seq<char>)
    ensures
        ink(concat_all(line_cut(s).lines), but) + ink(line_cut(s).open, but) == ink(s, but),
    decreases s.len(),
{
    let cut = line_cut(s);
    if s.len() > 0 {
        let before = line_cut(s.drop_last());
        lemma_lines_show(s.drop_last(), but);
        assert(whitespace('\n') && whitespace('\r'));
        if s.last() == '\n' {
            let line = without_cr(before.open);
            assert(cut.lines.drop_last() =~= before.lines);
            lemma_ink_add(concat_all(before.lines), line, but);
            assert(ink(line, but) == ink(before.open, but));
        } else {
            assert(cut.open.drop_last() =~= before.open);
        }
    }
    assert(ink(concat_all(cut.lines), but) + ink(cut.open, but) =~= ink(s, but));
}

proof fn lemma_lines_of_show(s: Seq<char>, but: Seq<char>)
    ensures
        ink(concat_all(lines_of(s)), but) == ink(s, but),
{
    lemma_lines_show(s, but);
    let cut = line_cut(s);
    if cut.open.len() > 0 {
        assert(lines_of(s).drop_last() =~= cut.lines);
        lemma_ink_add(concat_all(cut.lines), cut.open, but);
    } else {
        assert(ink(concat_all(cut.lines), but) + ink(cut.open, but) =~= ink(
            concat_all(cut.lines),
            but,
        ));
    }
}

proof fn lemma_placeholder(alt: Seq<char>)
    ensures
        placeholder(alt) == "[image: "@ + alt + "]"@,
{
    reveal_strlit("]");
    assert(placeholder(alt) =~= "[image: "@ + alt + "]"@);
}

proof fn lemma_box_ink(shape: Shape, src: Seq<char>, cols: nat, rows: u16, but: Seq<char>, n: int)
    requires
        0 <= n <= rows,
    ensures
        row_ink(image_box_rows(shape, src, cols, rows).take(n), but) == Seq::<char>::empty(),
    decreases n,
{
    let all = image_box_rows(shape, src, cols, rows);
    if n > 0 {
        lemma_box_ink(shape, src, cols, rows, but, n - 1);
        assert(all.take(n).drop_last() =~= all.take(n - 1));
        let kind = KindModel::ImageRow { src, row: (n - 1) as u16, rows };
        lemma_span_text(spaces(cols), kind);
        lemma_ink_spaces(cols, but);
        lemma_final_ink(shape.pad_width as nat, span_of(spaces(cols), kind), Seq::empty(), but);
        assert(row_ink(all.take(n), but) =~= Seq::empty());
    } else {
        assert(all.take(0) =~= Seq::empty());
    }
}

proof fn lemma_picture_ink<R: ImageResolver>(
    shape: Shape,
    src: Option<String>,
    alt: Seq<char>,
    caption: Option<String>,
    images: R,
    but: Seq<char>,
)
    ensures
        row_ink(picture_rows(shape, src, alt, caption, images), but) == ink(
            (if reserved_box(shape, src, images) is Some {
                Seq::empty()
            } else {
                "[image: "@ + alt + "]"@
            }) + (match caption {
                Some(text) => text@,
                None => Seq::empty(),
            }),
            but,
        ),
{
    let picture = image_rows(shape, src, alt, images);
    let first = if reserved_box(shape, src, images) is Some {
        Seq::empty()
    } else {
        "[image: "@ + alt + "]"@
    };
    match reserved_box(shape, src, images) {
        Some((cols, rows)) => {
            lemma_box_ink(shape, src->0@, cols, rows, but, rows as int);
            assert(picture.take(rows as int) =~= picture);
        },
        None => {
            lemma_placeholder(alt);
            lemma_plain_ink(shape, placeholder(alt), KindModel::Image, but);
        },
    }
    assert(row_ink(picture, but) == ink(first, but));
    match caption {
        Some(text) => {
            lemma_plain_ink(shape, text@, KindModel::Caption, but);
            lemma_row_ink_add(picture, plain_rows(shape, text@, KindModel::Caption), but);
            lemma_ink_add(first, text@, but);
        },
        None => {
            assert(first + Seq::<char>::empty() =~= first);
        },
    }
}

proof fn lemma_strip_ink(items: Seq<GalleryItem>, n: int, but: Seq<char>)
    requires
        0 <= n <= items.len(),
    ensures
        ink(strip_text(items, n), but) == ink(captions(items, true, n), but),
    decreases n,
{
    if n > 0 {
        lemma_strip_ink(items, n - 1, but);
        let before = strip_text(items, n - 1);
        let gap = if n > 1 {
            before + spaces(3)
        } else {
            before
        };
        lemma_ink_add(before, spaces(3), but);
        lemma_ink_spaces(3, but);
        assert(ink(gap, but) =~= ink(before, but));
        reveal_strlit("[");
        reveal_strlit("]");
        let one = "["@ + items[n - 1].caption@ + "]"@;
        assert(strip_text(items, n) =~= gap + one);
        assert(captions(items, true, n) =~= captions(items, true, n - 1) + one);
        lemma_ink_add(gap, one, but);
        lemma_ink_add(captions(items, true, n - 1), one, but);
    }
}

proof fn lemma_gallery_list_ink(shape: Shape, items: Seq<GalleryItem>, n: int, but: Seq<char>)
    requires
        0 <= n <= items.len(),
    ensures
        row_ink(gallery_list(shape, items, n), but) == ink(captions(items, false, n), but),
    decreases n,
{
    if n > 0 {
        lemma_gallery_list_ink(shape, items, n - 1, but);
        let alt = items[n - 1].caption@;
        lemma_placeholder(alt);
        lemma_plain_ink(shape, placeholder(alt), KindModel::Image, but);
        lemma_row_ink_add(
            gallery_list(shape, items, n - 1),
            plain_rows(shape, placeholder(alt), KindModel::Image),
            but,
        );
        let one = "[image: "@ + alt + "]"@;
        assert(captions(items, false, n) =~= captions(items, false, n - 1) + one);
        lemma_ink_add(captions(items, false, n - 1), one, but);
    }
}

/// Whether a gallery is laid out as a strip.
pub open spec fn is_strip(column: Shape, block: Block) -> bool {
    match block {
        Block::Gallery(items) => column.content_width >= GALLERY_STRIP_MIN_WIDTH && items@.len()
            > 1,
        _ => false,
    }
}

/// Whether the rows of a block are left free for its picture.
pub open spec fn is_pictured<R: ImageResolver>(column: Shape, block: Block, images: R) -> bool {
    match block {
        Block::Image { src, .. } => reserved_box(column, src, images) is Some,
        _ => false,
    }
}

proof fn lemma_gallery_ink(shape: Shape, items: Seq<GalleryItem>, but: Seq<char>)
    ensures
        row_ink(gallery_rows(shape, items), but) == ink(
            captions(
                items,
                shape.content_width >= GALLERY_STRIP_MIN_WIDTH && items.len() > 1,
                items.len() as int,
            ),
            but,
        ),
{
    if shape.content_width >= GALLERY_STRIP_MIN_WIDTH && items.len() > 1 {
        let text = strip_text(items, items.len() as int);
        let content = clusters_in(text, KindModel::Caption, shape.ambiguous_wide);
        lemma_strip_ink(items, items.len() as int, but);
        lemma_string_ink(text, KindModel::Caption, shape.ambiguous_wide, but);
        lemma_wrapped_ink(content, shape.content_width as nat, shape.plain(), but);
        lemma_no_prefix_ink(but);
        lemma_tight_ink(
            shape,
            Seq::empty(),
            wrapped(content, shape.content_width as nat, shape.plain()),
            true,
            but,
        );
    } else {
        lemma_gallery_list_ink(shape, items, items.len() as int, but);
    }
}

proof fn lemma_math_ink(shape: Shape, tex: Seq<char>, display: bool, but: Seq<char>)
    ensures
        row_ink(math_rows(shape, tex, display), but) == ink(math_text(tex), but),
{
    let text = math_text(tex);
    let gap = block_gap(shape);
    lemma_blank_ink(shape, shape.paragraph_spacing as nat, but);
    let n = crate::layout::card::minus(
        shape.content_width as nat,
        cells(text, shape.ambiguous_wide),
    ) / 2;
    let pad = span_of(spaces(n), KindModel::Plain);
    let content = clusters_in(text, KindModel::Math, shape.ambiguous_wide);
    let body = if display {
        wrapped_rows(shape, content, pad, pad, shape.plain())
    } else {
        plain_rows(shape, text, KindModel::Math)
    };
    lemma_string_ink(text, KindModel::Math, shape.ambiguous_wide, but);
    lemma_span_text(spaces(n), KindModel::Plain);
    lemma_ink_spaces(n, but);
    lemma_rows_ink(shape, content, pad, pad, shape.plain(), but);
    lemma_plain_ink(shape, text, KindModel::Math, but);
    assert(row_ink(body, but) =~= ink(text, but));
    lemma_row_ink_add(gap + body, gap, but);
    lemma_row_ink_add(gap, body, but);
    assert(row_ink(gap + body + gap, but) =~= ink(text, but));
}

/// Whether the block is laid out as running text.
pub open spec fn is_running(block: Block) -> bool {
    !(block is Table || block is Infobox || block is Rule)
}

/// A list item's own mark, or nothing: for a numbered item its number and a
/// full stop, for another the bullet.
pub open spec fn is_mark(block: Block, mark: Seq<char>) -> bool {
    ||| mark.len() == 0
    ||| {
        &&& block is ListItem
        &&& if block->ordered {
            &&& mark.last() == '.'
            &&& is_numeral(mark.drop_last())
            &&& number_read(mark.drop_last()) == block->index
        } else {
            mark == seq!['•']
        }
    }
}

proof fn lemma_item_ink<R: ImageResolver>(
    shape: Shape,
    block: Block,
    images: R,
    links: nat,
    but: Seq<char>,
) -> (mark: Seq<char>)
    requires
        block is ListItem,
        shape.hyphenate ==> but.contains('-'),
    ensures
        is_mark(block, mark),
        row_ink(block_rows(shape, block, images, links), but) == ink(mark, but) + ink(
            displayed(block->ListItem_spans@),
            but,
        ),
{
    let aw = shape.ambiguous_wide;
    let spans = block->ListItem_spans@;
    let content = flattened(spans, KindModel::Plain, links, aw);
    lemma_spans_ink(spans, KindModel::Plain, links, aw, but);
    let marker = list_marker(block->ordered, block->index, block->depth);
    let first = span_of(marker, KindModel::Plain);
    let rest = span_of(spaces(cells(marker, aw)), KindModel::Plain);
    lemma_span_text(marker, KindModel::Plain);
    lemma_span_text(spaces(cells(marker, aw)), KindModel::Plain);
    lemma_ink_spaces(cells(marker, aw), but);
    lemma_rows_ink(shape, content, first, rest, shape.prose(), but);
    let body = if block->ordered {
        decimal(block->index as nat).push('.')
    } else {
        seq!['•']
    };
    decimal_reads_back(block->index as nat);
    assert(decimal(block->index as nat).push('.').drop_last() =~= decimal(block->index as nat));
    let indent = spaces(2 * block->depth as nat);
    lemma_ink_spaces(2 * block->depth as nat, but);
    lemma_ink_add(indent, body, but);
    assert(whitespace(' '));
    assert(marker.drop_last() =~= indent + body);
    assert(ink(marker, but) =~= ink(body, but));
    if prefix_fits(shape, first, content) {
        body
    } else {
        Seq::empty()
    }
}

/// A block's rows show its text, all of it and nothing else, in order.
#[verifier::spinoff_prover]
#[verifier::rlimit(40)]
pub proof fn lemma_block_ink<R: ImageResolver>(
    shape: Shape,
    block: Block,
    images: R,
    links: nat,
    but: Seq<char>,
) -> (mark: Seq<char>)
    requires
        is_running(block),
        shape.hyphenate ==> but.contains('-'),
        block is Blockquote ==> but.contains('▌'),
    ensures
        is_mark(block, mark),
        row_ink(block_rows(shape, block, images, links), but) == ink(mark, but) + ink(
            block_text(block, is_pictured(shape, block, images), is_strip(shape, block)),
            but,
        ),
{
    let aw = shape.ambiguous_wide;
    let gap = block_gap(shape);
    let none = Seq::<char>::empty();
    lemma_blank_ink(shape, shape.paragraph_spacing as nat, but);
    lemma_no_prefix_ink(but);
    match block {
        Block::Heading { level, spans } => {
            let own = plain_rows(shape, plain_text(spans@), KindModel::Heading(level));
            lemma_plain_ink(shape, plain_text(spans@), KindModel::Heading(level), but);
            lemma_row_ink_add(gap, own, but);
            assert(row_ink(gap + own, but) =~= none + ink(plain_text(spans@), but));
            none
        },
        Block::Paragraph(spans) => {
            let content = flattened(spans@, KindModel::Plain, links, aw);
            lemma_spans_ink(spans@, KindModel::Plain, links, aw, but);
            lemma_rows_ink(shape, content, Seq::empty(), Seq::empty(), shape.prose(), but);
            let own = wrapped_rows(shape, content, Seq::empty(), Seq::empty(), shape.prose());
            lemma_row_ink_add(own, gap, but);
            assert(row_ink(own + gap, but) =~= none + ink(displayed(spans@), but));
            none
        },
        Block::ListItem { .. } => lemma_item_ink(shape, block, images, links, but),
        Block::Blockquote(spans) => {
            let content = flattened(spans@, KindModel::Quote, links, aw);
            let bar = span_of(seq!['▌', ' '], KindModel::Dim);
            lemma_span_text(seq!['▌', ' '], KindModel::Dim);
            assert(whitespace(' '));
            lemma_ink_blank(seq!['▌', ' '], but);
            lemma_spans_ink(spans@, KindModel::Quote, links, aw, but);
            lemma_rows_ink(shape, content, bar, bar, shape.prose(), but);
            let own = wrapped_rows(shape, content, bar, bar, shape.prose());
            lemma_row_ink_add(own, gap, but);
            assert(row_ink(own + gap, but) =~= none + ink(displayed(spans@), but));
            none
        },
        Block::Code { text, tokens, .. } => {
            let lines = lines_of(text@);
            let own = code_rows(shape, lines, tokens@, lines.len() as int);
            lemma_code_ink(shape, lines, tokens@, lines.len() as int, but);
            if tokens@.len() == 0 {
                lemma_source_is_lines(lines, tokens@, lines.len() as int);
                assert(lines.take(lines.len() as int) =~= lines);
                lemma_lines_of_show(text@, but);
            }
            lemma_row_ink_add(own, gap, but);
            assert(row_ink(own + gap, but) =~= none + row_ink(own, but));
            none
        },
        Block::Image { src, alt, caption } => {
            let own = picture_rows(shape, src, alt@, caption, images);
            lemma_picture_ink(shape, src, alt@, caption, images, but);
            lemma_row_ink_add(own, gap, but);
            assert(row_ink(own + gap, but) =~= none + row_ink(own, but));
            none
        },
        Block::Gallery(items) => {
            let own = gallery_rows(shape, items@);
            lemma_gallery_ink(shape, items@, but);
            lemma_row_ink_add(own, gap, but);
            assert(row_ink(own + gap, but) =~= none + row_ink(own, but));
            none
        },
        Block::Math { tex, display, .. } => {
            lemma_math_ink(shape, tex@, display, but);
            assert(none + ink(math_text(tex@), but) =~= ink(math_text(tex@), but));
            none
        },
        _ => none,
    }
}

/// A layout shows the text of each block that is laid out as running text: in
/// rows that stand together, all of it, in order, and nothing else but the
/// item's own mark. Whitespace aside, and, where they are not looked at, the
/// hyphens of broken words and the bars before a quotation. Beside a floated
/// card the card's line follows in the same row.
#[verifier::spinoff_prover]
#[verifier::rlimit(40)]
pub proof fn a_layout_shows_every_text<R: ImageResolver>(
    layout: Layout,
    doc: Document,
    width: u16,
    options: LayoutOptions,
    images: R,
    folds: Seq<usize>,
    b: int,
    but: Seq<char>,
) -> (r: (int, Seq<Row>, Seq<char>))
    requires
        shows(layout, laid_document(doc, width, options, images, folds)),
        links_from(doc.blocks@, 0) <= usize::MAX,
        0 <= b < doc.blocks@.len(),
        is_running(doc.blocks@[b]),
        is_laid_out(
            doc.blocks@,
            float_at(width, shape_of(width, options), doc.blocks@),
            folds,
            b,
        ),
        options.hyphenate ==> but.contains('-'),
        doc.blocks@[b] is Blockquote ==> but.contains('▌'),
    ensures
        ({
            let (at, rows, mark) = r;
            let shape = shape_of(width, options);
            let float = float_at(width, shape, doc.blocks@);
            let column = column_for(shape, doc.blocks@, float, folds, b);
            let block = doc.blocks@[b];
            let pad = (shape.pad_width - column.pad_width) as nat;
            let text = block_text(block, is_pictured(column, block, images), is_strip(column, block));
            &&& is_mark(block, mark)
            &&& row_ink(rows, but) == ink(mark, but) + ink(text, but)
            &&& 0 <= at
            &&& at + rows.len() <= layout.lines@.len()
            &&& b < layout.block_lines@.len()
            &&& at <= layout.block_lines@[b]
            &&& forall|j: int|
                0 <= j < rows.len() ==> (spaces(pad) + line_text(rows[j].line)).is_prefix_of(
                    line_text((#[trigger] layout.lines@[at + j])@),
                )
            &&& !in_lead(doc.blocks@, float, folds, b) ==> forall|j: int|
                0 <= j < rows.len() ==> (#[trigger] layout.lines@[at + j])@ == rows[j].line
        }),
{
    let shape = shape_of(width, options);
    let blocks = doc.blocks@;
    let float = float_at(width, shape, blocks);
    let column = column_for(shape, blocks, float, folds, b);
    let laid = laid_document(doc, width, options, images, folds);
    let (at, links) = lemma_block_place(doc, width, options, images, folds, b);
    let rows = block_rows(column, blocks[b], images, links);
    let mark = lemma_block_ink(column, blocks[b], images, links, but);
    let pad = (shape.pad_width - column.pad_width) as nat;
    assert(layout.block_lines@.map_values(|a: usize| a as nat)[b] == laid.anchors[b]);
    assert forall|j: int| 0 <= j < rows.len() implies (spaces(pad) + line_text(
        rows[j].line,
    )).is_prefix_of(line_text((#[trigger] layout.lines@[at + j])@)) by {
        assert(layout.lines@[at + j]@ == laid.rows[at + j].line);
        assert(starts_with(laid.rows[at + j], pad, line_text(rows[j].line)));
    }
    if !in_lead(blocks, float, folds, b) {
        assert forall|j: int| 0 <= j < rows.len() implies (
        #[trigger] layout.lines@[at + j])@ == rows[j].line by {
            assert(layout.lines@[at + j]@ == laid.rows[at + j].line);
            assert(laid.rows[at + j] == rows[j]);
        }
    }
    (at, rows, mark)
}

proof fn lemma_list_form_ink(shape: Shape, lines: Seq<Seq<char>>, n: int, but: Seq<char>)
    requires
        0 <= n <= lines.len(),
    ensures
        row_ink(list_form_rows(shape, lines, n), but) == ink(concat_all(lines.take(n)), but),
    decreases n,
{
    if n == 0 {
        assert(lines.take(0) =~= Seq::empty());
    } else {
        lemma_list_form_ink(shape, lines, n - 1, but);
        let line = lines[n - 1];
        let rows = list_line_rows(shape, line);
        lemma_no_prefix_ink(but);
        if line.len() == 0 {
            let row = own_row(final_line(shape.pad_width as nat, Seq::empty(), Seq::empty()));
            lemma_final_ink(shape.pad_width as nat, Seq::empty(), Seq::empty(), but);
            reveal_with_fuel(row_ink, 2);
            assert(seq![row].drop_last() =~= Seq::empty());
            assert(row_ink(rows, but) =~= Seq::empty());
        } else {
            let content = clusters_in(line, KindModel::Table, shape.ambiguous_wide);
            lemma_string_ink(line, KindModel::Table, shape.ambiguous_wide, but);
            lemma_wrapped_ink(content, shape.content_width as nat, shape.plain(), but);
            lemma_tight_ink(
                shape,
                Seq::empty(),
                wrapped(content, shape.content_width as nat, shape.plain()),
                false,
                but,
            );
        }
        assert(row_ink(rows, but) == ink(line, but));
        lemma_row_ink_add(list_form_rows(shape, lines, n - 1), rows, but);
        assert(lines.take(n).drop_last() =~= lines.take(n - 1));
        lemma_ink_add(concat_all(lines.take(n - 1)), line, but);
    }
}

/// A table that is drawn as a list shows the lines of its list form, all of
/// them, in order and whole.
#[verifier::spinoff_prover]
#[verifier::rlimit(40)]
pub proof fn a_listed_table_shows_its_lines<R: ImageResolver>(
    layout: Layout,
    doc: Document,
    width: u16,
    options: LayoutOptions,
    images: R,
    folds: Seq<usize>,
    b: int,
    but: Seq<char>,
) -> (r: (int, Seq<Row>))
    requires
        shows(layout, laid_document(doc, width, options, images, folds)),
        links_from(doc.blocks@, 0) <= usize::MAX,
        0 <= b < doc.blocks@.len(),
        doc.blocks@[b] is Table,
        is_laid_out(
            doc.blocks@,
            float_at(width, shape_of(width, options), doc.blocks@),
            folds,
            b,
        ),
        ({
            let shape = shape_of(width, options);
            let float = float_at(width, shape, doc.blocks@);
            let column = column_for(shape, doc.blocks@, float, folds, b);
            let table = doc.blocks@[b]->Table_0;
            options.accessible || table.col_count() == 0 || column.content_width < MIN_COL_WIDTH + 2
                + 2 * glyph_cells('│', options.ambiguous_wide)
        }),
    ensures
        ({
            let (at, rows) = r;
            let shape = shape_of(width, options);
            let float = float_at(width, shape, doc.blocks@);
            let column = column_for(shape, doc.blocks@, float, folds, b);
            let pad = (shape.pad_width - column.pad_width) as nat;
            &&& row_ink(rows, but) == ink(concat_all(doc.blocks@[b]->Table_0.list_lines()), but)
            &&& 0 <= at
            &&& at + rows.len() <= layout.lines@.len()
            &&& b < layout.block_lines@.len()
            &&& at == layout.block_lines@[b]
            &&& forall|j: int|
                0 <= j < rows.len() ==> (spaces(pad) + line_text(rows[j].line)).is_prefix_of(
                    line_text((#[trigger] layout.lines@[at + j])@),
                )
        }),
{
    let shape = shape_of(width, options);
    let blocks = doc.blocks@;
    let float = float_at(width, shape, blocks);
    let column = column_for(shape, blocks, float, folds, b);
    let laid = laid_document(doc, width, options, images, folds);
    let (at, links) = lemma_block_place(doc, width, options, images, folds, b);
    let rows = block_rows(column, blocks[b], images, links);
    let lines = blocks[b]->Table_0.list_lines();
    let own = list_form_rows(column, lines, lines.len() as int);
    lemma_list_form_ink(column, lines, lines.len() as int, but);
    assert(lines.take(lines.len() as int) =~= lines);
    assert(rows == own + block_gap(column));
    lemma_blank_ink(column, column.paragraph_spacing as nat, but);
    lemma_row_ink_add(own, block_gap(column), but);
    assert(row_ink(rows, but) =~= row_ink(own, but));
    let pad = (shape.pad_width - column.pad_width) as nat;
    assert(layout.block_lines@.map_values(|a: usize| a as nat)[b] == laid.anchors[b]);
    assert forall|j: int| 0 <= j < rows.len() implies (spaces(pad) + line_text(
        rows[j].line,
    )).is_prefix_of(line_text((#[trigger] layout.lines@[at + j])@)) by {
        assert(layout.lines@[at + j]@ == laid.rows[at + j].line);
        assert(starts_with(laid.rows[at + j], pad, line_text(rows[j].line)));
    }
    (at, rows)
}

} // verus!
