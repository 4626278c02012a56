//! No line of a laid-out document is wider than the terminal.
use vstd::prelude::*;

use crate::doc::plain_text;
use crate::doc::Block;
use crate::doc::CodeToken;
use crate::doc::Document;
use crate::doc::GalleryItem;
use crate::doc::minutes_to_read;
use crate::doc::Span;
use crate::doc::Table;
use crate::layout::card::card_border;
use crate::layout::card::card_inner;
use crate::layout::card::card_line;
use crate::layout::card::card_lines;
use crate::layout::card::card_rows;
use crate::layout::card::dashes_fill_their_cells;
use crate::layout::card::lemma_one_char;
use crate::layout::card::lemma_run_cells;
use crate::layout::card::minus;
use crate::layout::card::INFOBOX_FLOAT_GAP;
use crate::layout::card::row_text;
use crate::layout::cluster::cluster_model;
use crate::layout::cluster::cluster_texts;
use crate::layout::cluster::clusters_in;
use crate::layout::cluster::clusters_text;
use crate::layout::cluster::ClusterModel;
use crate::layout::document::available;
use crate::layout::document::column_fits_the_terminal;
use crate::layout::document::float_at;
use crate::layout::document::float_card_width;
use crate::layout::document::float_rows;
use crate::layout::document::floats;
use crate::layout::document::fold_rows;
use crate::layout::document::fold_suffix;
use crate::layout::document::header_rows;
use crate::layout::document::headings_in;
use crate::layout::document::laid_document;
use crate::layout::document::laid_from;
use crate::layout::document::laid_nothing;
use crate::layout::document::lead_shape;
use crate::layout::document::lead_width;
use crate::layout::document::next_heading;
use crate::layout::document::paragraphs_in;
use crate::layout::document::shape_of;
use crate::layout::document::with_block;
use crate::layout::document::with_blocks;
use crate::layout::document::with_float;
use crate::layout::document::with_fold;
use crate::layout::document::Laid;
use crate::layout::emit::block_gap;
use crate::layout::emit::blank_rows;
use crate::layout::emit::block_rows;
use crate::layout::emit::code_line;
use crate::layout::emit::code_rows;
use crate::layout::emit::cut_rows;
use crate::layout::emit::gallery_list;
use crate::layout::emit::gallery_rows;
use crate::layout::emit::image_box_rows;
use crate::layout::emit::image_rows;
use crate::layout::emit::line_gap;
use crate::layout::emit::list_form_rows;
use crate::layout::emit::list_line_rows;
use crate::layout::emit::list_marker;
use crate::layout::emit::math_rows;
use crate::layout::emit::natural_widths;
use crate::layout::emit::own_row;
use crate::layout::emit::picture_rows;
use crate::layout::emit::placeholder;
use crate::layout::emit::plain_rows;
use crate::layout::emit::prefix_fits;
use crate::layout::emit::reserved_box;
use crate::layout::emit::rule_row;
use crate::layout::emit::span_of;
use crate::layout::emit::spaced_rows;
use crate::layout::emit::strip_text;
use crate::layout::emit::table_rows;
use crate::layout::emit::tight_rows;
use crate::layout::emit::top_card_rows;
use crate::layout::emit::top_card_width;
use crate::layout::emit::widest;
use crate::layout::emit::wrap_width;
use crate::layout::emit::wrapped_rows;
use crate::layout::emit::Row;
use crate::layout::emit::Shape;
use crate::layout::emit::CODE_GUTTER;
use crate::layout::emit::GALLERY_STRIP_MIN_WIDTH;
use crate::layout::emit::RULE_MAX_WIDTH;
use crate::layout::fill::chunks_of;
use crate::layout::laws::all_narrow;
use crate::layout::laws::chunks_fit_the_column;
use crate::layout::laws::lemma_final_line_cells;
use crate::layout::laws::lemma_pad_cells;
use crate::layout::laws::line_fits;
use crate::layout::laws::lines_fit;
use crate::layout::laws::narrow;
use crate::layout::laws::words_narrow;
use crate::layout::laws::wrapped_lines_fit;
use crate::layout::line::coalesced;
use crate::layout::line::final_line;
use crate::layout::line::fitting;
use crate::layout::line::flattened;
use crate::layout::line::math_text;
use crate::layout::line::pad_spans;
use crate::layout::line::span_display;
use crate::layout::line::token_clusters;
use crate::layout::line::truncated;
use crate::layout::line::wrapped;
use crate::layout::measure::cells;
use crate::layout::measure::cells_additive;
use crate::layout::measure::clusters_make_up_the_string;
use crate::layout::measure::grapheme_clusters;
use crate::layout::measure::lemma_cells_spaces;
use crate::layout::table::glyph_cells;
use crate::layout::table::max_nat;
use crate::layout::table::min_nat;
use crate::layout::table::padded;
use crate::layout::table::planned;
use crate::layout::table::PlanModel;
use crate::layout::types::lemma_line_cells_add;
use crate::layout::types::line_cells;
use crate::layout::types::ImageResolver;
use crate::layout::types::KindModel;
use crate::layout::types::LayoutOptions;
use crate::layout::types::SpanModel;
use crate::layout::wrap::WrapOpts;
use crate::text::all_whitespace;
use crate::text::concat_all;
use crate::text::decimal;
use crate::text::lines_of;
use crate::text::run_of;
use crate::text::spaces;

verus! {

/// Every cluster of a text that is not whitespace fits `avail` cells.
pub open spec fn text_fits(s: Seq<char>, avail: nat, ambiguous_wide: bool) -> bool {
    forall|i: int|
        0 <= i < grapheme_clusters(s).len() ==> (all_whitespace(
            #[trigger] grapheme_clusters(s)[i],
        ) || cells(grapheme_clusters(s)[i], ambiguous_wide) <= avail)
}

/// Every cluster of a text fits `avail` cells, whitespace too.
pub open spec fn code_fits(s: Seq<char>, avail: nat, ambiguous_wide: bool) -> bool {
    forall|i: int|
        0 <= i < grapheme_clusters(s).len() ==> cells(
            #[trigger] grapheme_clusters(s)[i],
            ambiguous_wide,
        ) <= avail
}

/// Every run's text fits `avail` cells.
pub open spec fn spans_fit(spans: Seq<Span>, avail: nat, ambiguous_wide: bool) -> bool {
    forall|k: int|
        0 <= k < spans.len() ==> text_fits(
            span_display(#[trigger] spans[k]),
            avail,
            ambiguous_wide,
        )
}

/// A row within `limit` cells.
pub open spec fn row_fits(row: Row, limit: nat, ambiguous_wide: bool) -> bool {
    line_cells(row.line, ambiguous_wide) <= limit
}

/// Rows within `limit` cells.
pub open spec fn rows_fit(rows: Seq<Row>, limit: nat, ambiguous_wide: bool) -> bool {
    forall|i: int| 0 <= i < rows.len() ==> row_fits(#[trigger] rows[i], limit, ambiguous_wide)
}

/// The cells from the left edge to the end of the column.
pub open spec fn edge(shape: Shape) -> nat {
    (shape.pad_width + shape.content_width) as nat
}

/// The cells from the pad on to `limit`.
pub open spec fn behind_pad(shape: Shape, limit: nat) -> nat {
    (limit - shape.pad_width) as nat
}

proof fn lemma_rows_add(a: Seq<Row>, b: Seq<Row>, limit: nat, ambiguous_wide: bool)
    requires
        rows_fit(a, limit, ambiguous_wide),
        rows_fit(b, limit, ambiguous_wide),
    ensures
        rows_fit(a + b, limit, ambiguous_wide),
{
    assert forall|i: int| 0 <= i < (a + b).len() implies row_fits(
        #[trigger] (a + b)[i],
        limit,
        ambiguous_wide,
    ) by {
        if i < a.len() {
            assert(row_fits(a[i], limit, ambiguous_wide));
        } else {
            assert(row_fits(b[i - a.len()], limit, ambiguous_wide));
        }
    }
}

pub proof fn lemma_text_narrow(s: Seq<char>, kind: KindModel, avail: nat, ambiguous_wide: bool)
    requires
        text_fits(s, avail, ambiguous_wide),
    ensures
        words_narrow(clusters_in(s, kind, ambiguous_wide), avail, ambiguous_wide),
{
    let cs = clusters_in(s, kind, ambiguous_wide);
    assert forall|i: int| 0 <= i < cs.len() implies ((#[trigger] cs[i]).is_space
        || cs[i].is_newline || narrow(cs[i], avail, ambiguous_wide)) by {
        let g = grapheme_clusters(s)[i];
        assert(cs[i] == cluster_model(g, kind, ambiguous_wide));
    }
}

proof fn lemma_code_narrow(s: Seq<char>, kind: KindModel, avail: nat, ambiguous_wide: bool)
    requires
        avail >= 1,
        code_fits(s, avail, ambiguous_wide),
    ensures
        all_narrow(clusters_in(s, kind, ambiguous_wide), avail, ambiguous_wide),
{
    let cs = clusters_in(s, kind, ambiguous_wide);
    assert forall|i: int| 0 <= i < cs.len() implies narrow(
        #[trigger] cs[i],
        avail,
        ambiguous_wide,
    ) by {
        let g = grapheme_clusters(s)[i];
        assert(cs[i] == cluster_model(g, kind, ambiguous_wide));
        if g == seq!['\n'] {
            assert(crate::text::whitespace(g[0]));
            assert(all_whitespace(g));
        }
    }
}

proof fn lemma_spans_narrow(
    spans: Seq<Span>,
    plain: KindModel,
    links: nat,
    avail: nat,
    ambiguous_wide: bool,
)
    requires
        spans_fit(spans, avail, ambiguous_wide),
    ensures
        words_narrow(flattened(spans, plain, links, ambiguous_wide), avail, ambiguous_wide),
    decreases spans.len(),
{
    if spans.len() > 0 {
        let front = spans.drop_last();
        assert(spans_fit(front, avail, ambiguous_wide)) by {
            assert forall|k: int| 0 <= k < front.len() implies text_fits(
                span_display(#[trigger] front[k]),
                avail,
                ambiguous_wide,
            ) by {
                assert(front[k] == spans[k]);
            }
        }
        lemma_spans_narrow(front, plain, links, avail, ambiguous_wide);
        let last = spans[spans.len() - 1];
        let kind = crate::layout::line::kind_of(
            last.style,
            plain,
            links + crate::doc::link_count(front),
        );
        lemma_text_narrow(span_display(last), kind, avail, ambiguous_wide);
        lemma_narrow_add(
            flattened(front, plain, links, ambiguous_wide),
            clusters_in(span_display(last), kind, ambiguous_wide),
            avail,
            ambiguous_wide,
        );
    }
}

proof fn lemma_narrow_add(
    a: Seq<ClusterModel>,
    b: Seq<ClusterModel>,
    avail: nat,
    ambiguous_wide: bool,
)
    requires
        words_narrow(a, avail, ambiguous_wide),
        words_narrow(b, avail, ambiguous_wide),
    ensures
        words_narrow(a + b, avail, ambiguous_wide),
{
    let c = a + b;
    assert forall|i: int| 0 <= i < c.len() implies ((#[trigger] c[i]).is_space || c[i].is_newline
        || narrow(c[i], avail, ambiguous_wide)) by {
        if i < a.len() {
            assert(c[i] == a[i]);
        } else {
            assert(c[i] == b[i - a.len()]);
        }
    }
}

proof fn lemma_blank_fits(shape: Shape, limit: nat, n: nat)
    requires
        edge(shape) <= limit,
    ensures
        rows_fit(blank_rows(shape, n), limit, shape.ambiguous_wide),
{
    lemma_final_line_cells(
        shape.pad_width as nat,
        Seq::empty(),
        Seq::empty(),
        shape.ambiguous_wide,
    );
}

proof fn lemma_spaced_fits(
    shape: Shape,
    limit: nat,
    lines: Seq<Seq<ClusterModel>>,
    first: Seq<SpanModel>,
    rest: Seq<SpanModel>,
    avail: nat,
    n: int,
)
    requires
        0 <= n <= lines.len(),
        lines_fit(lines, avail, shape.ambiguous_wide),
        edge(shape) <= limit,
        shape.pad_width + line_cells(first, shape.ambiguous_wide) + avail <= limit,
        shape.pad_width + line_cells(rest, shape.ambiguous_wide) + avail <= limit,
    ensures
        rows_fit(spaced_rows(shape, lines, first, rest, n), limit, shape.ambiguous_wide),
    decreases n,
{
    let aw = shape.ambiguous_wide;
    if n > 0 {
        lemma_spaced_fits(shape, limit, lines, first, rest, avail, n - 1);
        let prefix = if n == 1 {
            first
        } else {
            rest
        };
        assert(line_fits(lines[n - 1], avail, aw));
        lemma_final_line_cells(shape.pad_width as nat, prefix, lines[n - 1], aw);
        lemma_blank_fits(shape, limit, shape.line_spacing as nat);
        let before = spaced_rows(shape, lines, first, rest, n - 1);
        let row = Row {
            line: final_line(shape.pad_width as nat, prefix, lines[n - 1]),
            cont: n > 1,
        };
        assert(rows_fit(seq![row], limit, aw));
        lemma_rows_add(before, seq![row], limit, aw);
        assert(before + seq![row] =~= before.push(row));
        lemma_rows_add(before.push(row), line_gap(shape), limit, aw);
    }
}

/// Wrapped rows stay within the column.
proof fn lemma_widest(content: Seq<ClusterModel>, i: int)
    requires
        0 <= i < content.len(),
        !content[i].is_space,
        !content[i].is_newline,
    ensures
        content[i].width <= widest(content),
    decreases content.len(),
{
    if i < content.len() - 1 {
        lemma_widest(content.drop_last(), i);
    }
}

proof fn lemma_widest_some(content: Seq<ClusterModel>)
    ensures
        widest(content) >= 1,
    decreases content.len(),
{
    if content.len() > 0 {
        lemma_widest_some(content.drop_last());
    }
}

proof fn lemma_words_widest(content: Seq<ClusterModel>, bound: nat, ambiguous_wide: bool)
    requires
        words_narrow(content, bound, ambiguous_wide),
    ensures
        forall|m: nat|
            widest(content) <= m ==> #[trigger] words_narrow(content, m, ambiguous_wide),
{
    assert forall|m: nat| widest(content) <= m implies #[trigger] words_narrow(
        content,
        m,
        ambiguous_wide,
    ) by {
        assert forall|i: int| 0 <= i < content.len() implies ((#[trigger] content[i]).is_space
            || content[i].is_newline || narrow(content[i], m, ambiguous_wide)) by {
            if !content[i].is_space && !content[i].is_newline {
                lemma_widest(content, i);
                assert(narrow(content[i], bound, ambiguous_wide));
            }
        }
    }
}

proof fn lemma_wrapped_rows_fit(
    shape: Shape,
    limit: nat,
    content: Seq<ClusterModel>,
    first: Seq<SpanModel>,
    rest: Seq<SpanModel>,
    opts: WrapOpts,
)
    requires
        shape.wf(),
        edge(shape) <= limit,
        words_narrow(content, behind_pad(shape, limit), shape.ambiguous_wide),
        line_cells(rest, shape.ambiguous_wide) <= line_cells(first, shape.ambiguous_wide),
    ensures
        rows_fit(
            wrapped_rows(shape, content, first, rest, opts),
            limit,
            shape.ambiguous_wide,
        ),
{
    let aw = shape.ambiguous_wide;
    let avail = wrap_width(shape, first, content);
    let bound = if prefix_fits(shape, first, content) {
        lemma_widest_some(content);
        lemma_words_widest(content, behind_pad(shape, limit), aw);
        (behind_pad(shape, limit) - line_cells(first, aw)) as nat
    } else {
        behind_pad(shape, limit)
    };
    let lines = wrapped(content, avail, opts);
    wrapped_lines_fit(content, avail, bound, opts, aw);
    let head = if prefix_fits(shape, first, content) {
        first
    } else {
        Seq::empty()
    };
    let tail = if prefix_fits(shape, first, content) {
        rest
    } else {
        Seq::empty()
    };
    if lines.len() == 0 {
        lemma_final_line_cells(shape.pad_width as nat, head, Seq::empty(), aw);
        lemma_blank_fits(shape, limit, shape.line_spacing as nat);
        let row = own_row(final_line(shape.pad_width as nat, head, Seq::empty()));
        lemma_rows_add(seq![row], line_gap(shape), limit, aw);
    } else {
        lemma_spaced_fits(shape, limit, lines, head, tail, bound, lines.len() as int);
    }
}

proof fn lemma_no_prefix(shape: Shape, limit: nat)
    requires
        shape.wf(),
        edge(shape) <= limit,
    ensures
        behind_pad(shape, limit) >= shape.content_width,
{
}

proof fn lemma_plain_fits(shape: Shape, limit: nat, text: Seq<char>, kind: KindModel)
    requires
        shape.wf(),
        edge(shape) <= limit,
        text_fits(text, behind_pad(shape, limit), shape.ambiguous_wide),
    ensures
        rows_fit(plain_rows(shape, text, kind), limit, shape.ambiguous_wide),
{
    let aw = shape.ambiguous_wide;
    lemma_text_narrow(text, kind, behind_pad(shape, limit), aw);
    lemma_no_prefix(shape, limit);
    lemma_wrapped_rows_fit(
        shape,
        limit,
        clusters_in(text, kind, aw),
        Seq::empty(),
        Seq::empty(),
        shape.plain(),
    );
}

proof fn lemma_tight_fits(
    shape: Shape,
    limit: nat,
    prefix: Seq<SpanModel>,
    lines: Seq<Seq<ClusterModel>>,
    cont: bool,
    avail: nat,
)
    requires
        lines_fit(lines, avail, shape.ambiguous_wide),
        shape.pad_width + line_cells(prefix, shape.ambiguous_wide) + avail <= limit,
    ensures
        rows_fit(tight_rows(shape, prefix, lines, cont), limit, shape.ambiguous_wide),
{
    let rows = tight_rows(shape, prefix, lines, cont);
    assert forall|i: int| 0 <= i < rows.len() implies row_fits(
        #[trigger] rows[i],
        limit,
        shape.ambiguous_wide,
    ) by {
        assert(line_fits(lines[i], avail, shape.ambiguous_wide));
        lemma_final_line_cells(
            shape.pad_width as nat,
            prefix,
            lines[i],
            shape.ambiguous_wide,
        );
    }
}

proof fn lemma_fitting_cells(parts: Seq<Seq<char>>, width: nat, ambiguous_wide: bool)
    ensures
        fitting(parts, width, ambiguous_wide) <= parts.len(),
        cells(
            concat_all(parts.take(fitting(parts, width, ambiguous_wide) as int)),
            ambiguous_wide,
        ) <= width,
    decreases parts.len(),
{
    let k = fitting(parts, width, ambiguous_wide) as int;
    if parts.len() == 0 || cells(parts[0], ambiguous_wide) > width {
        assert(parts.take(0) =~= Seq::empty());
    } else {
        let rest = parts.drop_first();
        let left = (width - cells(parts[0], ambiguous_wide)) as nat;
        lemma_fitting_cells(rest, left, ambiguous_wide);
        let m = fitting(rest, left, ambiguous_wide) as int;
        lemma_concat_first(parts.take(k));
        assert(parts.take(k).drop_first() =~= rest.take(m));
        cells_additive(parts[0], concat_all(rest.take(m)), ambiguous_wide);
    }
}

pub proof fn lemma_concat_first(parts: Seq<Seq<char>>)
    requires
        parts.len() > 0,
    ensures
        concat_all(parts) == parts[0] + concat_all(parts.drop_first()),
    decreases parts.len(),
{
    if parts.len() == 1 {
        assert(parts.drop_last() =~= Seq::empty());
        assert(parts.drop_first() =~= Seq::empty());
        assert(concat_all(parts) =~= parts[0] + concat_all(parts.drop_first()));
    } else {
        lemma_concat_first(parts.drop_last());
        assert(parts.drop_last().drop_first() =~= parts.drop_first().drop_last());
        assert(concat_all(parts) =~= parts[0] + concat_all(parts.drop_first()));
    }
}

/// A truncated text is within its width.
pub proof fn truncated_text_fits(s: Seq<char>, width: nat, ambiguous_wide: bool)
    ensures
        cells(truncated(s, width, ambiguous_wide), ambiguous_wide) <= width,
{
    lemma_fitting_cells(grapheme_clusters(s), width, ambiguous_wide);
}

/// A padded text is exactly as wide as it is asked to be.
pub proof fn padded_text_fills(s: Seq<char>, width: nat, ambiguous_wide: bool)
    ensures
        cells(padded(s, width, ambiguous_wide), ambiguous_wide) == width,
{
    truncated_text_fits(s, width, ambiguous_wide);
    let cut = truncated(s, width, ambiguous_wide);
    let room = (width - cells(cut, ambiguous_wide)) as nat;
    cells_additive(cut, spaces(room), ambiguous_wide);
    lemma_cells_spaces(room, ambiguous_wide);
}

/// The spans of joined clusters take the cells of the clusters' text.
pub proof fn lemma_coalesced_text(content: Seq<ClusterModel>, ambiguous_wide: bool)
    ensures
        line_cells(coalesced(content), ambiguous_wide) == cells(
            clusters_text(content),
            ambiguous_wide,
        ),
    decreases content.len(),
{
    if content.len() > 0 {
        let front = content.drop_last();
        lemma_coalesced_text(front, ambiguous_wide);
        let before = coalesced(front);
        let c = content.last();
        let out = coalesced(content);
        assert(cluster_texts(content).drop_last() =~= cluster_texts(front));
        cells_additive(clusters_text(front), c.text, ambiguous_wide);
        if before.len() > 0 && before.last().kind == c.kind {
            cells_additive(before.last().text, c.text, ambiguous_wide);
            assert(out.drop_last() =~= before.drop_last());
        } else {
            assert(out.drop_last() =~= before);
        }
    }
}

proof fn lemma_cut_fits(shape: Shape, limit: nat, lines: Seq<Seq<char>>, kind: KindModel)
    requires
        edge(shape) <= limit,
    ensures
        rows_fit(cut_rows(shape, lines, kind), limit, shape.ambiguous_wide),
{
    let aw = shape.ambiguous_wide;
    let rows = cut_rows(shape, lines, kind);
    assert forall|i: int| 0 <= i < rows.len() implies row_fits(#[trigger] rows[i], limit, aw)
        by {
        let t = truncated(lines[i], shape.content_width as nat, aw);
        let cs = clusters_in(t, kind, aw);
        truncated_text_fits(lines[i], shape.content_width as nat, aw);
        clusters_make_up_the_string(t);
        assert(cluster_texts(cs) =~= grapheme_clusters(t));
        lemma_coalesced_text(cs, aw);
        lemma_pad_cells(shape.pad_width as nat, aw);
        let pad = pad_spans(shape.pad_width as nat);
        lemma_line_cells_add(pad, Seq::empty(), aw);
        lemma_line_cells_add(pad + Seq::<SpanModel>::empty(), coalesced(cs), aw);
    }
}

/// Every cluster of a single line of code fits `avail` cells.
pub open spec fn code_line_fits(
    line: Seq<char>,
    tokens: Seq<Vec<CodeToken>>,
    i: int,
    avail: nat,
    ambiguous_wide: bool,
) -> bool {
    if i < tokens.len() {
        forall|k: int|
            0 <= k < tokens[i]@.len() ==> code_fits(
                (#[trigger] tokens[i]@[k]).text@,
                avail,
                ambiguous_wide,
            )
    } else {
        code_fits(line, avail, ambiguous_wide)
    }
}

/// The cells from a code line's gutter on to `limit`.
pub open spec fn behind_gutter(shape: Shape, limit: nat) -> nat {
    minus(behind_pad(shape, limit), CODE_GUTTER as nat)
}

proof fn lemma_tokens_narrow(tokens: Seq<CodeToken>, avail: nat, ambiguous_wide: bool)
    requires
        avail >= 1,
        forall|k: int|
            0 <= k < tokens.len() ==> code_fits(
                (#[trigger] tokens[k]).text@,
                avail,
                ambiguous_wide,
            ),
    ensures
        all_narrow(token_clusters(tokens, ambiguous_wide), avail, ambiguous_wide),
    decreases tokens.len(),
{
    if tokens.len() > 0 {
        lemma_tokens_narrow(tokens.drop_last(), avail, ambiguous_wide);
        let t = tokens[tokens.len() - 1];
        let kind = crate::layout::line::token_kind(t.kind);
        lemma_code_narrow(t.text@, kind, avail, ambiguous_wide);
        let a = token_clusters(tokens.drop_last(), ambiguous_wide);
        let b = clusters_in(t.text@, kind, ambiguous_wide);
        assert forall|i: int| 0 <= i < (a + b).len() implies narrow(
            #[trigger] (a + b)[i],
            avail,
            ambiguous_wide,
        ) by {
            if i < a.len() {
                assert(narrow(a[i], avail, ambiguous_wide));
            } else {
                assert(narrow(b[i - a.len()], avail, ambiguous_wide));
            }
        }
    }
}

pub proof fn lemma_span_cells(text: Seq<char>, kind: KindModel, ambiguous_wide: bool)
    ensures
        line_cells(span_of(text, kind), ambiguous_wide) == cells(text, ambiguous_wide),
{
    assert(span_of(text, kind).drop_last() =~= Seq::empty());
    reveal_with_fuel(line_cells, 2);
}

proof fn lemma_code_line_fits(
    shape: Shape,
    limit: nat,
    line: Seq<char>,
    tokens: Seq<Vec<CodeToken>>,
    i: int,
)
    requires
        shape.wf(),
        edge(shape) <= limit,
        shape.pad_width + CODE_GUTTER < limit,
        code_line_fits(line, tokens, i, behind_gutter(shape, limit), shape.ambiguous_wide),
    ensures
        rows_fit(code_line(shape, line, tokens, i), limit, shape.ambiguous_wide),
{
    let aw = shape.ambiguous_wide;
    let avail = minus(shape.content_width as nat, CODE_GUTTER as nat);
    let bound = behind_gutter(shape, limit);
    let gutter = span_of(spaces(CODE_GUTTER as nat), KindModel::Code);
    lemma_span_cells(spaces(CODE_GUTTER as nat), KindModel::Code, aw);
    lemma_cells_spaces(CODE_GUTTER as nat, aw);
    let clusters = if i < tokens.len() {
        token_clusters(tokens[i]@, aw)
    } else {
        clusters_in(line, KindModel::Code, aw)
    };
    if i < tokens.len() {
        lemma_tokens_narrow(tokens[i]@, bound, aw);
    } else {
        lemma_code_narrow(line, KindModel::Code, bound, aw);
    }
    chunks_fit_the_column(clusters, avail, bound, aw);
    let chunks = chunks_of(clusters, avail);
    if chunks.len() == 0 {
        lemma_final_line_cells(shape.pad_width as nat, gutter, Seq::empty(), aw);
    } else {
        lemma_tight_fits(shape, limit, gutter, chunks, true, bound);
    }
}

proof fn lemma_code_fits(
    shape: Shape,
    limit: nat,
    lines: Seq<Seq<char>>,
    tokens: Seq<Vec<CodeToken>>,
    n: int,
)
    requires
        shape.wf(),
        edge(shape) <= limit,
        shape.pad_width + CODE_GUTTER < limit,
        0 <= n <= lines.len(),
        forall|i: int|
            0 <= i < lines.len() ==> code_line_fits(
                #[trigger] lines[i],
                tokens,
                i,
                behind_gutter(shape, limit),
                shape.ambiguous_wide,
            ),
    ensures
        rows_fit(code_rows(shape, lines, tokens, n), limit, shape.ambiguous_wide),
    decreases n,
{
    if n > 0 {
        lemma_code_fits(shape, limit, lines, tokens, n - 1);
        assert(code_line_fits(
            lines[n - 1],
            tokens,
            n - 1,
            behind_gutter(shape, limit),
            shape.ambiguous_wide,
        ));
        lemma_code_line_fits(shape, limit, lines[n - 1], tokens, n - 1);
        lemma_rows_add(
            code_rows(shape, lines, tokens, n - 1),
            code_line(shape, lines[n - 1], tokens, n - 1),
            limit,
            shape.ambiguous_wide,
        );
    }
}

proof fn lemma_rule_fits(shape: Shape, limit: nat)
    requires
        shape.wf(),
        edge(shape) <= limit,
    ensures
        row_fits(rule_row(shape), limit, shape.ambiguous_wide),
{
    let aw = shape.ambiguous_wide;
    let d = glyph_cells('─', aw);
    let w = min_nat(shape.content_width as nat, RULE_MAX_WIDTH as nat);
    let n = w / d;
    vstd::arithmetic::div_mod::lemma_fundamental_div_mod(w as int, d as int);
    lemma_run_cells('─', n, aw);
    let k = crate::layout::measure::char_cells('─', aw);
    assert(n * k <= w) by (nonlinear_arith)
        requires
            w == d * n + w % d,
            w % d >= 0,
            k <= d,
            n >= 0,
    ;
    lemma_span_cells(run_of('─', n), KindModel::Dim, aw);
    lemma_final_line_cells(
        shape.pad_width as nat,
        span_of(run_of('─', n), KindModel::Dim),
        Seq::empty(),
        aw,
    );
}

/// The plan a table is drawn by.
pub open spec fn table_plan(shape: Shape, table: Table) -> PlanModel {
    planned(
        natural_widths(table, shape.ambiguous_wide),
        shape.content_width as nat,
        shape.accessible,
        shape.table_offset as nat,
        glyph_cells('│', shape.ambiguous_wide),
    )
}

proof fn lemma_list_form_fits(shape: Shape, limit: nat, lines: Seq<Seq<char>>, n: int)
    requires
        shape.wf(),
        edge(shape) <= limit,
        0 <= n <= lines.len(),
        forall|i: int|
            0 <= i < lines.len() ==> text_fits(
                #[trigger] lines[i],
                behind_pad(shape, limit),
                shape.ambiguous_wide,
            ),
    ensures
        rows_fit(list_form_rows(shape, lines, n), limit, shape.ambiguous_wide),
    decreases n,
{
    let aw = shape.ambiguous_wide;
    if n > 0 {
        lemma_list_form_fits(shape, limit, lines, n - 1);
        let line = lines[n - 1];
        let cw = shape.content_width as nat;
        if line.len() == 0 {
            lemma_blank_fits(shape, limit, 1);
            assert(list_line_rows(shape, line) =~= blank_rows(shape, 1));
        } else {
            let cs = clusters_in(line, KindModel::Table, aw);
            let bound = behind_pad(shape, limit);
            lemma_text_narrow(line, KindModel::Table, bound, aw);
            wrapped_lines_fit(cs, cw, bound, shape.plain(), aw);
            lemma_tight_fits(
                shape,
                limit,
                Seq::empty(),
                wrapped(cs, cw, shape.plain()),
                false,
                bound,
            );
        }
        lemma_rows_add(
            list_form_rows(shape, lines, n - 1),
            list_line_rows(shape, line),
            limit,
            aw,
        );
    }
}

proof fn lemma_image_fits<R: ImageResolver>(
    shape: Shape,
    limit: nat,
    src: Option<String>,
    alt: Seq<char>,
    images: R,
)
    requires
        shape.wf(),
        edge(shape) <= limit,
        reserved_box(shape, src, images) is None ==> text_fits(
            placeholder(alt),
            behind_pad(shape, limit),
            shape.ambiguous_wide,
        ),
    ensures
        rows_fit(image_rows(shape, src, alt, images), limit, shape.ambiguous_wide),
{
    let aw = shape.ambiguous_wide;
    match reserved_box(shape, src, images) {
        Some((cols, rows)) => {
            let out = image_box_rows(shape, src->0@, cols, rows);
            assert forall|i: int| 0 <= i < out.len() implies row_fits(
                #[trigger] out[i],
                limit,
                aw,
            ) by {
                let kind = KindModel::ImageRow { src: src->0@, row: i as u16, rows };
                lemma_span_cells(spaces(cols), kind, aw);
                lemma_cells_spaces(cols, aw);
                lemma_final_line_cells(
                    shape.pad_width as nat,
                    span_of(spaces(cols), kind),
                    Seq::empty(),
                    aw,
                );
            }
        },
        None => {
            lemma_plain_fits(shape, limit, placeholder(alt), KindModel::Image);
        },
    }
}

proof fn lemma_gallery_list_fits(shape: Shape, limit: nat, items: Seq<GalleryItem>, n: int)
    requires
        shape.wf(),
        edge(shape) <= limit,
        0 <= n <= items.len(),
        forall|i: int|
            0 <= i < items.len() ==> text_fits(
                placeholder((#[trigger] items[i]).caption@),
                behind_pad(shape, limit),
                shape.ambiguous_wide,
            ),
    ensures
        rows_fit(gallery_list(shape, items, n), limit, shape.ambiguous_wide),
    decreases n,
{
    if n > 0 {
        lemma_gallery_list_fits(shape, limit, items, n - 1);
        let text = placeholder(items[n - 1].caption@);
        assert(text_fits(text, behind_pad(shape, limit), shape.ambiguous_wide));
        lemma_plain_fits(shape, limit, text, KindModel::Image);
        lemma_rows_add(
            gallery_list(shape, items, n - 1),
            plain_rows(shape, text, KindModel::Image),
            limit,
            shape.ambiguous_wide,
        );
    }
}

/// The pad that centers a formula.
pub open spec fn math_pad(shape: Shape, tex: Seq<char>) -> Seq<SpanModel> {
    span_of(
        spaces(
            minus(shape.content_width as nat, cells(math_text(tex), shape.ambiguous_wide)) / 2,
        ),
        KindModel::Plain,
    )
}

/// Every cluster of what a block shows fits `n` cells, and `m` cells in code.
pub open spec fn block_within<R: ImageResolver>(
    shape: Shape,
    block: Block,
    images: R,
    n: nat,
    m: nat,
) -> bool {
    let aw = shape.ambiguous_wide;
    match block {
        Block::Heading { level, spans } => text_fits(plain_text(spans@), n, aw),
        Block::Paragraph(spans) => spans_fit(spans@, n, aw),
        Block::ListItem { spans, .. } => spans_fit(spans@, n, aw),
        Block::Blockquote(spans) => spans_fit(spans@, n, aw),
        Block::Code { text, lang, tokens } => forall|i: int|
            0 <= i < lines_of(text@).len() ==> code_line_fits(
                #[trigger] lines_of(text@)[i],
                tokens@,
                i,
                m,
                aw,
            ),
        Block::Rule => true,
        Block::Table(table) => table_plan(shape, table) is Collapse ==> forall|i: int|
            0 <= i < table.list_lines().len() ==> text_fits(
                #[trigger] table.list_lines()[i],
                n,
                aw,
            ),
        Block::Infobox(rows) => true,
        Block::Image { src, alt, caption } => {
            &&& reserved_box(shape, src, images) is None ==> text_fits(placeholder(alt@), n, aw)
            &&& caption matches Some(text) ==> text_fits(text@, n, aw)
        },
        Block::Gallery(items) => if shape.content_width >= GALLERY_STRIP_MIN_WIDTH && items@.len()
            > 1 {
            text_fits(strip_text(items@, items@.len() as int), n, aw)
        } else {
            forall|i: int|
                0 <= i < items@.len() ==> text_fits(
                    placeholder((#[trigger] items@[i]).caption@),
                    n,
                    aw,
                )
        },
        Block::Math { tex, .. } => text_fits(math_text(tex@), n, aw),
    }
}

/// No cluster of a block reaches past `limit` by itself behind the pad, nor one
/// of code behind its gutter, which leaves a cell.
pub open spec fn block_fits<R: ImageResolver>(
    shape: Shape,
    limit: nat,
    block: Block,
    images: R,
) -> bool {
    &&& block is Code ==> shape.pad_width + CODE_GUTTER < limit
    &&& block_within(
        shape,
        block,
        images,
        behind_pad(shape, limit),
        behind_gutter(shape, limit),
    )
}

proof fn lemma_math_fits(shape: Shape, limit: nat, tex: Seq<char>, display: bool)
    requires
        shape.wf(),
        edge(shape) <= limit,
        text_fits(math_text(tex), behind_pad(shape, limit), shape.ambiguous_wide),
    ensures
        rows_fit(math_rows(shape, tex, display), limit, shape.ambiguous_wide),
{
    let aw = shape.ambiguous_wide;
    let text = math_text(tex);
    let gap = block_gap(shape);
    lemma_blank_fits(shape, limit, shape.paragraph_spacing as nat);
    let pad = math_pad(shape, tex);
    let body = if display {
        lemma_text_narrow(text, KindModel::Math, behind_pad(shape, limit), aw);
        lemma_wrapped_rows_fit(
            shape,
            limit,
            clusters_in(text, KindModel::Math, aw),
            pad,
            pad,
            shape.plain(),
        );
        wrapped_rows(
            shape,
            clusters_in(text, KindModel::Math, aw),
            pad,
            pad,
            shape.plain(),
        )
    } else {
        lemma_plain_fits(shape, limit, text, KindModel::Math);
        plain_rows(shape, text, KindModel::Math)
    };
    lemma_rows_add(gap, body, limit, aw);
    lemma_rows_add(gap + body, gap, limit, aw);
}

/// The rows of a block stay within `limit`.
pub proof fn block_rows_fit<R: ImageResolver>(
    shape: Shape,
    limit: nat,
    block: Block,
    images: R,
    links: nat,
)
    requires
        shape.wf(),
        edge(shape) <= limit,
        block_fits(shape, limit, block, images),
    ensures
        rows_fit(block_rows(shape, block, images, links), limit, shape.ambiguous_wide),
{
    let aw = shape.ambiguous_wide;
    let cw = shape.content_width as nat;
    let bound = behind_pad(shape, limit);
    let e = limit;
    let gap = block_gap(shape);
    lemma_blank_fits(shape, limit, shape.paragraph_spacing as nat);
    match block {
        Block::Heading { level, spans } => {
            lemma_plain_fits(shape, limit, plain_text(spans@), KindModel::Heading(level));
            lemma_rows_add(
                gap,
                plain_rows(shape, plain_text(spans@), KindModel::Heading(level)),
                e,
                aw,
            );
        },
        Block::Paragraph(spans) => {
            let content = flattened(spans@, KindModel::Plain, links, aw);
            lemma_spans_narrow(spans@, KindModel::Plain, links, bound, aw);
            lemma_no_prefix(shape, limit);
            lemma_wrapped_rows_fit(shape, limit, content, Seq::empty(), Seq::empty(), shape.prose());
            lemma_rows_add(
                wrapped_rows(shape, content, Seq::empty(), Seq::empty(), shape.prose()),
                gap,
                e,
                aw,
            );
        },
        Block::ListItem { ordered, index, depth, spans } => {
            let marker = list_marker(ordered, index, depth);
            let first = span_of(marker, KindModel::Plain);
            let rest = span_of(spaces(cells(marker, aw)), KindModel::Plain);
            lemma_span_cells(marker, KindModel::Plain, aw);
            lemma_span_cells(spaces(cells(marker, aw)), KindModel::Plain, aw);
            lemma_cells_spaces(cells(marker, aw), aw);
            lemma_spans_narrow(
                spans@,
                KindModel::Plain,
                links,
                behind_pad(shape, limit),
                aw,
            );
            lemma_wrapped_rows_fit(
                shape,
                limit,
                flattened(spans@, KindModel::Plain, links, aw),
                first,
                rest,
                shape.prose(),
            );
        },
        Block::Blockquote(spans) => {
            let bar = span_of(seq!['▌', ' '], KindModel::Dim);
            let content = flattened(spans@, KindModel::Quote, links, aw);
            lemma_spans_narrow(
                spans@,
                KindModel::Quote,
                links,
                behind_pad(shape, limit),
                aw,
            );
            lemma_wrapped_rows_fit(shape, limit, content, bar, bar, shape.prose());
            lemma_rows_add(
                wrapped_rows(shape, content, bar, bar, shape.prose()),
                gap,
                e,
                aw,
            );
        },
        Block::Code { text, lang, tokens } => {
            let lines = lines_of(text@);
            lemma_code_fits(shape, limit, lines, tokens@, lines.len() as int);
            lemma_rows_add(
                code_rows(shape, lines, tokens@, lines.len() as int),
                gap,
                e,
                aw,
            );
        },
        Block::Rule => {
            lemma_rule_fits(shape, limit);
        },
        Block::Table(table) => {
            match table_plan(shape, table) {
                PlanModel::Collapse => {
                    lemma_list_form_fits(
                        shape,
                        limit,
                        table.list_lines(),
                        table.list_lines().len() as int,
                    );
                },
                PlanModel::Grid { first_col, widths } => {
                    lemma_cut_fits(
                        shape,
                        limit,
                        crate::layout::table::grid_lines(table, first_col as int, widths, aw),
                        KindModel::Table,
                    );
                },
            }
            lemma_rows_add(table_rows(shape, table), gap, e, aw);
        },
        Block::Infobox(rows) => {
            lemma_cut_fits(
                shape,
                limit,
                card_lines(rows@, top_card_width(shape), aw),
                KindModel::Infobox,
            );
            lemma_rows_add(top_card_rows(shape, rows@), gap, e, aw);
        },
        Block::Image { src, alt, caption } => {
            lemma_image_fits(shape, limit, src, alt@, images);
            if let Some(text) = caption {
                lemma_plain_fits(shape, limit, text@, KindModel::Caption);
                lemma_rows_add(
                    image_rows(shape, src, alt@, images),
                    plain_rows(shape, text@, KindModel::Caption),
                    e,
                    aw,
                );
            }
            lemma_rows_add(picture_rows(shape, src, alt@, caption, images), gap, e, aw);
        },
        Block::Gallery(items) => {
            if shape.content_width >= GALLERY_STRIP_MIN_WIDTH && items@.len() > 1 {
                let text = strip_text(items@, items@.len() as int);
                let cs = clusters_in(text, KindModel::Caption, aw);
                lemma_text_narrow(text, KindModel::Caption, bound, aw);
                wrapped_lines_fit(cs, cw, bound, shape.plain(), aw);
                lemma_tight_fits(
                    shape,
                    limit,
                    Seq::empty(),
                    wrapped(cs, cw, shape.plain()),
                    true,
                    bound,
                );
            } else {
                lemma_gallery_list_fits(shape, limit, items@, items@.len() as int);
            }
            lemma_rows_add(gallery_rows(shape, items@), gap, e, aw);
        },
        Block::Math { tex, display, .. } => {
            lemma_math_fits(shape, limit, tex@, display);
        },
    }
}

/// Every line of a card is within the card's width, where the card has room
/// for its borders.
pub proof fn card_lines_fit(rows: Seq<(String, String)>, box_w: nat, ambiguous_wide: bool, i: int)
    requires
        box_w >= 6,
        0 <= i < card_lines(rows, box_w, ambiguous_wide).len(),
    ensures
        cells(card_lines(rows, box_w, ambiguous_wide)[i], ambiguous_wide) <= box_w,
{
    let n = rows.len() as int;
    let body = card_rows(rows, n, box_w, ambiguous_wide);
    lemma_border_cells('┌', '┐', box_w, ambiguous_wide);
    lemma_border_cells('└', '┘', box_w, ambiguous_wide);
    if 0 < i && i <= body.len() {
        lemma_card_rows_fit(rows, n, box_w, ambiguous_wide, i - 1);
    }
}

/// A box-drawing line that is light or heavy.
spec fn box_line(c: char) -> bool {
    0x2500 <= c as u32 && c as u32 <= 0x254B
}

proof fn lemma_border_cells(left: char, right: char, box_w: nat, ambiguous_wide: bool)
    requires
        box_line(left),
        box_line(right),
        box_w >= 6,
    ensures
        cells(card_border(left, right, box_w, ambiguous_wide), ambiguous_wide) <= box_w,
{
    let n = minus(box_w, 2 * glyph_cells(left, ambiguous_wide));
    let mid = crate::layout::table::dashes(n, ambiguous_wide);
    dashes_fill_their_cells(n, ambiguous_wide);
    lemma_one_char(left, ambiguous_wide);
    lemma_one_char(right, ambiguous_wide);
    cells_additive(seq![left], mid, ambiguous_wide);
    cells_additive(seq![left] + mid, seq![right], ambiguous_wide);
    assert((seq![left] + mid).push(right) =~= seq![left] + mid + seq![right]);
}

proof fn lemma_card_line_cells(content: Seq<char>, box_w: nat, ambiguous_wide: bool)
    requires
        box_w >= 6,
    ensures
        cells(card_line(content, box_w, ambiguous_wide), ambiguous_wide) <= box_w,
{
    let inner = card_inner(box_w, ambiguous_wide);
    let text = padded(content, inner, ambiguous_wide);
    let cut = truncated(content, inner, ambiguous_wide);
    truncated_text_fits(content, inner, ambiguous_wide);
    lemma_cells_spaces((inner - cells(cut, ambiguous_wide)) as nat, ambiguous_wide);
    cells_additive(
        cut,
        spaces((inner - cells(cut, ambiguous_wide)) as nat),
        ambiguous_wide,
    );
    lemma_one_char('│', ambiguous_wide);
    lemma_one_char(' ', ambiguous_wide);
    cells_additive(seq!['│'], seq![' '], ambiguous_wide);
    assert(seq!['│'] + seq![' '] =~= seq!['│', ' ']);
    cells_additive(seq![' '], seq!['│'], ambiguous_wide);
    assert(seq![' '] + seq!['│'] =~= seq![' ', '│']);
    cells_additive(seq!['│', ' '], text, ambiguous_wide);
    cells_additive(seq!['│', ' '] + text, seq![' ', '│'], ambiguous_wide);
}

proof fn lemma_card_rows_fit(
    rows: Seq<(String, String)>,
    n: int,
    box_w: nat,
    ambiguous_wide: bool,
    i: int,
)
    requires
        box_w >= 6,
        0 <= n <= rows.len(),
        0 <= i < card_rows(rows, n, box_w, ambiguous_wide).len(),
    ensures
        cells(card_rows(rows, n, box_w, ambiguous_wide)[i], ambiguous_wide) <= box_w,
    decreases n,
{
    if n > 0 {
        let inner = max_nat(card_inner(box_w, ambiguous_wide), 1);
        let before = card_rows(rows, n - 1, box_w, ambiguous_wide);
        let lines = crate::layout::table::cell_lines(
            row_text(rows[n - 1]),
            inner,
            ambiguous_wide,
        );
        if i < before.len() {
            lemma_card_rows_fit(rows, n - 1, box_w, ambiguous_wide, i);
        } else if i < before.len() + lines.len() {
            lemma_card_line_cells(lines[i - before.len()], box_w, ambiguous_wide);
        } else {
            lemma_border_cells('├', '┤', box_w, ambiguous_wide);
        }
    }
}

/// Every block of `blocks[from..to]` fits.
pub open spec fn blocks_fit<R: ImageResolver>(
    shape: Shape,
    limit: nat,
    blocks: Seq<Block>,
    from: int,
    to: int,
    images: R,
) -> bool {
    forall|i: int| from <= i < to ==> block_fits(shape, limit, #[trigger] blocks[i], images)
}

proof fn lemma_blocks_fit<R: ImageResolver>(
    shape: Shape,
    limit: nat,
    at: Laid,
    blocks: Seq<Block>,
    from: int,
    to: int,
    images: R,
)
    requires
        shape.wf(),
        edge(shape) <= limit,
        rows_fit(at.rows, limit, shape.ambiguous_wide),
        blocks_fit(shape, limit, blocks, from, to, images),
    ensures
        rows_fit(
            with_blocks(shape, at, blocks, from, to, images).rows,
            limit,
            shape.ambiguous_wide,
        ),
    decreases to - from,
{
    if from < to {
        lemma_blocks_fit(shape, limit, at, blocks, from, to - 1, images);
        let before = with_blocks(shape, at, blocks, from, to - 1, images);
        assert(block_fits(shape, limit, blocks[to - 1], images));
        block_rows_fit(shape, limit, blocks[to - 1], images, before.links);
        lemma_rows_add(
            before.rows,
            block_rows(shape, blocks[to - 1], images, before.links),
            limit,
            shape.ambiguous_wide,
        );
    }
}

/// What a floated card leaves of `limit` for the lead beside it.
pub open spec fn lead_limit(shape: Shape, limit: nat) -> nat {
    (limit - shape.pad_width - float_card_width(shape) - INFOBOX_FLOAT_GAP) as nat
}

proof fn lemma_lead_limit(shape: Shape, limit: nat, width: u16)
    requires
        shape.wf(),
        floats(width, shape),
        edge(shape) <= limit,
    ensures
        lead_shape(shape).wf(),
        edge(lead_shape(shape)) <= lead_limit(shape, limit),
        shape.pad_width + lead_width(shape) + INFOBOX_FLOAT_GAP + float_card_width(shape) <= limit,
        shape.pad_width + lead_limit(shape, limit) + INFOBOX_FLOAT_GAP + float_card_width(shape)
            == limit,
{
}

proof fn lemma_float_fits(
    shape: Shape,
    limit: nat,
    lead: Seq<Row>,
    rows: Seq<(String, String)>,
    width: u16,
)
    requires
        shape.wf(),
        floats(width, shape),
        edge(shape) <= limit,
        rows_fit(lead, lead_limit(shape, limit), shape.ambiguous_wide),
    ensures
        rows_fit(
            float_rows(
                shape,
                lead,
                card_lines(rows, float_card_width(shape), shape.ambiguous_wide),
            ),
            limit,
            shape.ambiguous_wide,
        ),
{
    let aw = shape.ambiguous_wide;
    let box_w = float_card_width(shape);
    let card = card_lines(rows, box_w, aw);
    let out = float_rows(shape, lead, card);
    lemma_lead_limit(shape, limit, width);
    assert forall|j: int| 0 <= j < out.len() implies row_fits(#[trigger] out[j], limit, aw)
        by {
        let left = if j < lead.len() {
            lead[j].line
        } else {
            Seq::empty()
        };
        if j < lead.len() {
            assert(row_fits(lead[j], lead_limit(shape, limit), aw));
        }
        let used = line_cells(left, aw);
        let pad = pad_spans(shape.pad_width as nat);
        lemma_pad_cells(shape.pad_width as nat, aw);
        lemma_line_cells_add(pad, left, aw);
        if j < card.len() {
            let fill = spaces(minus(lead_width(shape), used) + 2);
            let a = SpanModel { text: fill, kind: KindModel::Plain };
            let b = SpanModel { text: card[j], kind: KindModel::Infobox };
            card_lines_fit(rows, box_w, aw, j);
            lemma_cells_spaces(minus(lead_width(shape), used) + 2, aw);
            lemma_span_cells(fill, KindModel::Plain, aw);
            lemma_span_cells(card[j], KindModel::Infobox, aw);
            lemma_line_cells_add(seq![a], seq![b], aw);
            assert(seq![a] + seq![b] =~= seq![a, b]);
            lemma_line_cells_add(pad + left, seq![a, b], aw);
        } else {
            lemma_line_cells_add(pad + left, Seq::empty(), aw);
        }
    }
}

/// What is shown of `blocks[i..]` fits: the lead beside a floated card in its
/// own column, and of a folded section its summary.
pub open spec fn rest_fits<R: ImageResolver>(
    shape: Shape,
    limit: nat,
    blocks: Seq<Block>,
    i: int,
    float: int,
    folds: Seq<usize>,
    images: R,
) -> bool
    decreases blocks.len() - i,
{
    let cw = behind_pad(shape, limit);
    let aw = shape.ambiguous_wide;
    if i < 0 || i >= blocks.len() {
        true
    } else if i == float {
        let end = next_heading(blocks, i + 1, 255);
        if i < end <= blocks.len() {
            blocks_fit(lead_shape(shape), lead_limit(shape, limit), blocks, i + 1, end, images) && rest_fits(
                shape,
                limit,
                blocks,
                end,
                float,
                folds,
                images,
            )
        } else {
            true
        }
    } else if blocks[i] is Heading && folds.contains(i as usize) {
        let end = next_heading(blocks, i + 1, blocks[i]->Heading_level);
        if i < end <= blocks.len() {
            &&& text_fits("▸ "@ + plain_text(blocks[i]->Heading_spans@), cw, aw)
            &&& text_fits(
                fold_suffix(
                    paragraphs_in(blocks, i + 1, end),
                    headings_in(blocks, i + 1, end),
                ),
                cw,
                aw,
            )
            &&& rest_fits(shape, limit, blocks, end, float, folds, images)
        } else {
            true
        }
    } else {
        block_fits(shape, limit, blocks[i], images) && rest_fits(
            shape,
            limit,
            blocks,
            i + 1,
            float,
            folds,
            images,
        )
    }
}

proof fn lemma_fold_fits(
    shape: Shape,
    limit: nat,
    title: Seq<char>,
    level: u8,
    paragraphs: nat,
    subsections: nat,
)
    requires
        shape.wf(),
        edge(shape) <= limit,
        text_fits("▸ "@ + title, behind_pad(shape, limit), shape.ambiguous_wide),
        text_fits(
            fold_suffix(paragraphs, subsections),
            behind_pad(shape, limit),
            shape.ambiguous_wide,
        ),
    ensures
        rows_fit(
            fold_rows(shape, title, level, paragraphs, subsections),
            limit,
            shape.ambiguous_wide,
        ),
{
    let aw = shape.ambiguous_wide;
    let cw = behind_pad(shape, limit);
    lemma_no_prefix(shape, limit);
    let a = clusters_in("▸ "@ + title, KindModel::Heading(level), aw);
    let b = clusters_in(fold_suffix(paragraphs, subsections), KindModel::Dim, aw);
    lemma_text_narrow("▸ "@ + title, KindModel::Heading(level), cw, aw);
    lemma_text_narrow(fold_suffix(paragraphs, subsections), KindModel::Dim, cw, aw);
    lemma_narrow_add(a, b, cw, aw);
    lemma_wrapped_rows_fit(shape, limit, a + b, Seq::empty(), Seq::empty(), shape.plain());
    let body = wrapped_rows(shape, a + b, Seq::empty(), Seq::empty(), shape.plain());
    lemma_blank_fits(shape, limit, shape.paragraph_spacing as nat);
    lemma_rows_add(block_gap(shape), body, limit, aw);
    lemma_rows_add(block_gap(shape) + body, block_gap(shape), limit, aw);
}

proof fn lemma_rest_fits<R: ImageResolver>(
    width: u16,
    shape: Shape,
    limit: nat,
    at: Laid,
    blocks: Seq<Block>,
    i: int,
    folds: Seq<usize>,
    images: R,
)
    requires
        shape.wf(),
        edge(shape) <= limit,
        0 <= i,
        rows_fit(at.rows, limit, shape.ambiguous_wide),
        rest_fits(shape, limit, blocks, i, float_at(width, shape, blocks), folds, images),
    ensures
        rows_fit(
            laid_from(
                shape,
                at,
                blocks,
                i,
                float_at(width, shape, blocks),
                folds,
                images,
            ).rows,
            limit,
            shape.ambiguous_wide,
        ),
    decreases blocks.len() - i,
{
    let aw = shape.ambiguous_wide;
    let float = float_at(width, shape, blocks);
    lemma_blank_fits(shape, limit, shape.paragraph_spacing as nat);
    if i < blocks.len() {
        if i == float {
            let end = next_heading(blocks, i + 1, 255);
            if i < end <= blocks.len() {
                lemma_lead_limit(shape, limit, width);
                let lead = with_blocks(
                    lead_shape(shape),
                    laid_nothing(at.links),
                    blocks,
                    i + 1,
                    end,
                    images,
                );
                lemma_blocks_fit(
                    lead_shape(shape), lead_limit(shape, limit),
                    laid_nothing(at.links),
                    blocks,
                    i + 1,
                    end,
                    images,
                );
                let rows = blocks[i]->Infobox_0@;
                lemma_float_fits(shape, limit, lead.rows, rows, width);
                let beside = float_rows(
                    shape,
                    lead.rows,
                    card_lines(rows, float_card_width(shape), aw),
                );
                lemma_rows_add(at.rows, beside, limit, aw);
                lemma_rows_add(at.rows + beside, block_gap(shape), limit, aw);
                lemma_rest_fits(
                    width,
                    shape,
                    limit,
                    with_float(shape, at, blocks, i, end, images),
                    blocks,
                    end,
                    folds,
                    images,
                );
            }
        } else if blocks[i] is Heading && folds.contains(i as usize) {
            let level = blocks[i]->Heading_level;
            let end = next_heading(blocks, i + 1, level);
            if i < end <= blocks.len() {
                let title = plain_text(blocks[i]->Heading_spans@);
                let p = paragraphs_in(blocks, i + 1, end);
                let h = headings_in(blocks, i + 1, end);
                lemma_fold_fits(shape, limit, title, level, p, h);
                lemma_rows_add(
                    at.rows,
                    fold_rows(shape, title, level, p, h),
                    limit,
                    aw,
                );
                lemma_rest_fits(
                    width,
                    shape,
                    limit,
                    with_fold(shape, at, blocks, i, end),
                    blocks,
                    end,
                    folds,
                    images,
                );
            }
        } else {
            block_rows_fit(shape, limit, blocks[i], images, at.links);
            lemma_rows_add(
                at.rows,
                block_rows(shape, blocks[i], images, at.links),
                limit,
                aw,
            );
            lemma_rest_fits(
                width,
                shape,
                limit,
                with_block(shape, at, blocks[i], images),
                blocks,
                i + 1,
                folds,
                images,
            );
        }
    }
}

/// No cluster of what a document shows reaches past the terminal by itself,
/// behind the pad, nor one of code behind its gutter.
pub open spec fn document_fits<R: ImageResolver>(
    doc: Document,
    width: u16,
    options: LayoutOptions,
    images: R,
    folds: Seq<usize>,
) -> bool {
    let shape = shape_of(width, options);
    let limit = available(width);
    let cw = behind_pad(shape, limit);
    let aw = options.ambiguous_wide;
    let minutes = minutes_to_read(doc.words as nat, options.reading_wpm as nat);
    &&& text_fits(doc.title@, cw, aw)
    &&& minutes > 0 ==> text_fits(decimal(minutes) + " min read"@, cw, aw)
    &&& rest_fits(
        shape,
        limit,
        doc.blocks@,
        0,
        float_at(width, shape, doc.blocks@),
        folds,
        images,
    )
}

/// No line of a layout is wider than the terminal it was laid out for, unless
/// a single cluster by itself reaches past it.
pub proof fn no_line_overflows<R: ImageResolver>(
    doc: Document,
    width: u16,
    options: LayoutOptions,
    images: R,
    folds: Seq<usize>,
    i: int,
)
    requires
        document_fits(doc, width, options, images, folds),
        0 <= i < laid_document(doc, width, options, images, folds).rows.len(),
    ensures
        line_cells(
            laid_document(doc, width, options, images, folds).rows[i].line,
            options.ambiguous_wide,
        ) <= available(width),
{
    let shape = shape_of(width, options);
    let limit = available(width);
    let aw = options.ambiguous_wide;
    let minutes = minutes_to_read(doc.words as nat, options.reading_wpm as nat);
    column_fits_the_terminal(width, options);
    lemma_plain_fits(shape, limit, doc.title@, KindModel::Title);
    lemma_blank_fits(shape, limit, shape.paragraph_spacing as nat);
    let top = plain_rows(shape, doc.title@, KindModel::Title);
    let text = decimal(minutes) + " min read"@;
    let timed = if minutes > 0 {
        lemma_plain_fits(shape, limit, text, KindModel::Dim);
        lemma_rows_add(top, plain_rows(shape, text, KindModel::Dim), limit, aw);
        top + plain_rows(shape, text, KindModel::Dim)
    } else {
        top
    };
    lemma_rows_add(timed, block_gap(shape), limit, aw);
    let start = Laid {
        rows: header_rows(shape, doc.title@, minutes),
        anchors: Seq::empty(),
        links: 0,
    };
    lemma_rest_fits(width, shape, limit, start, doc.blocks@, 0, folds, images);
    assert(row_fits(
        laid_document(doc, width, options, images, folds).rows[i],
        limit,
        aw,
    ));
}

} // verus!
