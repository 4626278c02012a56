//! Every line of a laid-out document is one row: none holds a line break.
use vstd::prelude::*;

use crate::doc::Block;
use crate::doc::CodeToken;
use crate::doc::Document;
use crate::doc::GalleryItem;
use crate::doc::Span;
use crate::doc::Table;
use crate::doc::minutes_to_read;
use crate::doc::plain_text;
use crate::layout::card::boxed;
use crate::layout::card::card_border;
use crate::layout::card::card_inner;
use crate::layout::card::card_lines;
use crate::layout::card::card_rows;
use crate::layout::card::minus;
use crate::layout::card::row_text;
use crate::layout::cluster::ClusterModel;
use crate::layout::cluster::cluster_model;
use crate::layout::cluster::cluster_texts;
use crate::layout::cluster::clusters_in;
use crate::layout::cluster::clusters_text;
use crate::layout::document::Laid;
use crate::layout::document::float_at;
use crate::layout::document::float_card_width;
use crate::layout::document::float_rows;
use crate::layout::document::fold_suffix;
use crate::layout::document::header_rows;
use crate::layout::document::headings_in;
use crate::layout::document::laid_document;
use crate::layout::document::laid_from;
use crate::layout::document::laid_nothing;
use crate::layout::document::lead_shape;
use crate::layout::document::next_heading;
use crate::layout::document::paragraphs_in;
use crate::layout::document::shape_of;
use crate::layout::document::with_block;
use crate::layout::document::with_blocks;
use crate::layout::document::with_float;
use crate::layout::document::with_fold;
use crate::layout::emit::CODE_GUTTER;
use crate::layout::emit::RULE_MAX_WIDTH;
use crate::layout::emit::Row;
use crate::layout::emit::Shape;
use crate::layout::emit::blank_rows;
use crate::layout::emit::block_rows;
use crate::layout::emit::code_line;
use crate::layout::emit::code_rows;
use crate::layout::emit::cut_rows;
use crate::layout::emit::gallery_list;
use crate::layout::emit::image_box_rows;
use crate::layout::emit::image_rows;
use crate::layout::emit::list_form_rows;
use crate::layout::emit::list_line_rows;
use crate::layout::emit::list_marker;
use crate::layout::emit::placeholder;
use crate::layout::emit::plain_rows;
use crate::layout::emit::prefix_fits;
use crate::layout::emit::reserved_box;
use crate::layout::emit::spaced_rows;
use crate::layout::emit::span_of;
use crate::layout::emit::strip_text;
use crate::layout::emit::tight_rows;
use crate::layout::emit::top_card_width;
use crate::layout::emit::wrap_width;
use crate::layout::emit::wrapped_rows;
use crate::layout::fill::Chunks;
use crate::layout::fill::Packed;
use crate::layout::fill::at_least_one;
use crate::layout::fill::chunked;
use crate::layout::fill::chunks_of;
use crate::layout::fill::closed_lines;
use crate::layout::fill::filled;
use crate::layout::fill::justified;
use crate::layout::fill::justified_lines;
use crate::layout::fill::packed;
use crate::layout::fill::placed;
use crate::layout::fill::room;
use crate::layout::fill::settled_chunks;
use crate::layout::line::coalesced;
use crate::layout::line::final_line;
use crate::layout::line::fitting;
use crate::layout::line::flattened;
use crate::layout::line::math_text;
use crate::layout::line::runs_of;
use crate::layout::line::span_display;
use crate::layout::line::token_clusters;
use crate::layout::line::truncated;
use crate::layout::line::wrapped;
use crate::layout::measure::cells;
use crate::layout::measure::clusters_make_up_the_string;
use crate::layout::measure::grapheme_clusters;
use crate::layout::overflow::math_pad;
use crate::layout::overflow::table_plan;
use crate::layout::table::PlanModel;
use crate::layout::table::body_lines;
use crate::layout::table::border_to;
use crate::layout::table::cell_line;
use crate::layout::table::cell_lines;
use crate::layout::table::cell_opts;
use crate::layout::table::glyph_cells;
use crate::layout::table::grid_lines;
use crate::layout::table::max_nat;
use crate::layout::table::min_nat;
use crate::layout::table::padded;
use crate::layout::table::row_cells;
use crate::layout::table::row_line_to;
use crate::layout::table::row_lines;
use crate::layout::table::texts_of;
use crate::layout::types::ImageResolver;
use crate::layout::types::KindModel;
use crate::layout::types::LayoutOptions;
use crate::layout::types::SpanModel;
use crate::layout::wrap::PieceModel;
use crate::layout::wrap::WrapOpts;
use crate::layout::wrap::cut;
use crate::layout::wrap::hyphen_head;
use crate::layout::wrap::hyphen_split;
use crate::layout::wrap::hyphenation_points_of;
use crate::layout::wrap::lemma_best_split;
use crate::layout::wrap::pieces_of;
use crate::text::all_whitespace;
use crate::text::concat_all;
use crate::text::decimal;
use crate::text::line_cut;
use crate::text::lines_of;
use crate::text::run_of;
use crate::text::spaces;

verus! {

/// A text without a line break.
pub open spec fn one_row(s: Seq<char>) -> bool {
    forall|i: int| 0 <= i < s.len() ==> #[trigger] s[i] != '\n'
}

/// Texts without a line break.
pub open spec fn all_one_row(parts: Seq<Seq<char>>) -> bool {
    forall|i: int| 0 <= i < parts.len() ==> one_row(#[trigger] parts[i])
}

/// A line without a line break.
pub open spec fn line_is_one_row(line: Seq<SpanModel>) -> bool {
    forall|i: int| 0 <= i < line.len() ==> one_row((#[trigger] line[i]).text)
}

spec fn unbroken(cs: Seq<ClusterModel>) -> bool {
    forall|i: int| 0 <= i < cs.len() ==> one_row((#[trigger] cs[i]).text)
}

spec fn lines_unbroken(lines: Seq<Seq<ClusterModel>>) -> bool {
    forall|i: int| 0 <= i < lines.len() ==> unbroken(#[trigger] lines[i])
}

spec fn chunks_unbroken(c: Chunks) -> bool {
    lines_unbroken(c.lines) && unbroken(c.cur)
}

spec fn words_unbroken(cs: Seq<ClusterModel>) -> bool {
    forall|i: int|
        0 <= i < cs.len() ==> (#[trigger] cs[i]).is_space || cs[i].is_newline || one_row(cs[i].text)
}

spec fn pieces_unbroken(pieces: Seq<PieceModel>) -> bool {
    forall|i: int| 0 <= i < pieces.len() ==> unbroken((#[trigger] pieces[i]).clusters)
}

proof fn lemma_one_row_add(a: Seq<char>, b: Seq<char>)
    requires
        one_row(a),
        one_row(b),
    ensures
        one_row(a + b),
{
}

proof fn lemma_concat_one_row(parts: Seq<Seq<char>>)
    ensures
        all_one_row(parts) <==> one_row(concat_all(parts)),
    decreases parts.len(),
{
    if parts.len() > 0 {
        let front = parts.drop_last();
        lemma_concat_one_row(front);
        let a = concat_all(front);
        let b = parts.last();
        if one_row(a + b) {
            assert forall|i: int| 0 <= i < a.len() implies #[trigger] a[i] != '\n' by {
                assert((a + b)[i] == a[i]);
            }
            assert forall|i: int| 0 <= i < b.len() implies #[trigger] b[i] != '\n' by {
                assert((a + b)[a.len() + i] == b[i]);
            }
            assert forall|i: int| 0 <= i < parts.len() implies one_row(#[trigger] parts[i]) by {
                if i < front.len() {
                    assert(front[i] == parts[i]);
                }
            }
        }
        if all_one_row(parts) {
            assert forall|i: int| 0 <= i < front.len() implies one_row(#[trigger] front[i]) by {
                assert(front[i] == parts[i]);
            }
            assert(one_row(parts[parts.len() - 1]));
        }
    }
}

proof fn lemma_words(s: Seq<char>, kind: KindModel, ambiguous_wide: bool)
    ensures
        words_unbroken(clusters_in(s, kind, ambiguous_wide)),
        one_row(s) ==> unbroken(clusters_in(s, kind, ambiguous_wide)),
{
    let cs = clusters_in(s, kind, ambiguous_wide);
    let parts = grapheme_clusters(s);
    clusters_make_up_the_string(s);
    lemma_concat_one_row(parts);
    assert forall|i: int| 0 <= i < cs.len() implies (#[trigger] cs[i]).is_space
        || cs[i].is_newline || one_row(cs[i].text) by {
        let g = parts[i];
        assert(cs[i] == cluster_model(g, kind, ambiguous_wide));
        if !one_row(g) {
            let k = choose|k: int| 0 <= k < g.len() && #[trigger] g[k] == '\n';
            assert(g.contains('\n'));
            if g != seq!['\n'] {
                assert(g == seq!['\r', '\n']);
                assert(all_whitespace(g));
            }
        }
    }
    if one_row(s) {
        assert forall|i: int| 0 <= i < cs.len() implies one_row((#[trigger] cs[i]).text) by {
            assert(cs[i].text == parts[i]);
        }
    }
}

proof fn lemma_words_add(a: Seq<ClusterModel>, b: Seq<ClusterModel>)
    requires
        words_unbroken(a),
        words_unbroken(b),
    ensures
        words_unbroken(a + b),
{
}

proof fn lemma_unbroken_add(a: Seq<ClusterModel>, b: Seq<ClusterModel>)
    requires
        unbroken(a),
        unbroken(b),
    ensures
        unbroken(a + b),
{
}

proof fn lemma_lines_add(a: Seq<Seq<ClusterModel>>, b: Seq<Seq<ClusterModel>>)
    requires
        lines_unbroken(a),
        lines_unbroken(b),
    ensures
        lines_unbroken(a + b),
{
}

proof fn lemma_chunked(start: Chunks, clusters: Seq<ClusterModel>, avail: nat)
    requires
        chunks_unbroken(start),
        unbroken(clusters),
    ensures
        chunks_unbroken(chunked(start, clusters, avail)),
    decreases clusters.len(),
{
    if clusters.len() > 0 {
        let front = clusters.drop_last();
        assert forall|i: int| 0 <= i < front.len() implies one_row((#[trigger] front[i]).text) by {
            assert(front[i] == clusters[i]);
        }
        lemma_chunked(start, front, avail);
        assert(one_row(clusters[clusters.len() - 1].text));
    }
}

proof fn lemma_settled(p: Packed, clusters: Seq<ClusterModel>, avail: nat, space_w: nat)
    requires
        chunks_unbroken(p.chunks),
        unbroken(clusters),
    ensures
        chunks_unbroken(settled_chunks(p, clusters, avail, space_w)),
{
    let cur = match p.gap {
        Some(kind) if p.chunks.cur.len() > 0 => p.chunks.cur.push(
            crate::layout::cluster::space_model(kind, space_w),
        ),
        _ => p.chunks.cur,
    };
    assert(unbroken(cur));
    lemma_unbroken_add(cur, clusters);
    lemma_chunked(Chunks { lines: p.chunks.lines, cur }, clusters, avail);
}

proof fn lemma_placed(p: Packed, piece: PieceModel, avail: nat, opts: WrapOpts)
    requires
        chunks_unbroken(p.chunks),
        unbroken(piece.clusters),
    ensures
        chunks_unbroken(placed(p, piece, avail, opts).chunks),
{
    let space_w = 1 + opts.word_spacing as nat;
    let split = hyphen_split(piece.clusters, room(p, avail, space_w));
    let none = Seq::<ClusterModel>::empty();
    lemma_settled(p, piece.clusters, avail, space_w);
    let whole = Packed {
        chunks: Chunks { lines: p.chunks.lines.push(p.chunks.cur), cur: none },
        gap: None,
    };
    lemma_settled(whole, piece.clusters, avail, space_w);
    if split > 0 {
        lemma_best_split(
            piece.clusters,
            hyphenation_points_of(piece.clusters),
            room(p, avail, space_w),
        );
        let cur = match p.gap {
            Some(kind) => p.chunks.cur.push(crate::layout::cluster::space_model(kind, space_w)),
            None => p.chunks.cur,
        };
        let head = hyphen_head(piece.clusters, split);
        assert(unbroken(cur));
        assert(unbroken(head));
        lemma_unbroken_add(cur, head);
        let next = Packed {
            chunks: Chunks { lines: p.chunks.lines.push(cur + head), cur: none },
            gap: None,
        };
        assert(unbroken(piece.clusters.skip(split)));
        lemma_settled(next, piece.clusters.skip(split), avail, space_w);
    }
}

proof fn lemma_packed(pieces: Seq<PieceModel>, avail: nat, opts: WrapOpts)
    requires
        pieces_unbroken(pieces),
    ensures
        chunks_unbroken(packed(pieces, avail, opts).chunks),
    decreases pieces.len(),
{
    if pieces.len() > 0 {
        let front = pieces.drop_last();
        assert forall|i: int| 0 <= i < front.len() implies unbroken((#[trigger] front[i]).clusters)
            by {
            assert(front[i] == pieces[i]);
        }
        lemma_packed(front, avail, opts);
        assert(unbroken(pieces[pieces.len() - 1].clusters));
        lemma_placed(packed(front, avail, opts), pieces.last(), avail, opts);
    }
}

proof fn lemma_filled(pieces: Seq<PieceModel>, avail: nat, opts: WrapOpts)
    requires
        pieces_unbroken(pieces),
    ensures
        lines_unbroken(filled(pieces, avail, opts)),
{
    let width = at_least_one(avail);
    lemma_packed(pieces, width, opts);
    let lines = closed_lines(packed(pieces, width, opts).chunks);
    assert(lines_unbroken(lines));
    if opts.justify {
        let out = justified_lines(lines, width);
        assert forall|i: int| 0 <= i < out.len() implies unbroken(#[trigger] out[i]) by {
            assert(unbroken(lines[i]));
            let line = justified(lines[i], width);
            assert forall|k: int| 0 <= k < line.len() implies one_row((#[trigger] line[k]).text) by {
                assert(one_row(lines[i][k].text));
            }
        }
    }
}

proof fn lemma_cut(clusters: Seq<ClusterModel>, n: int)
    requires
        0 <= n <= clusters.len(),
        forall|i: int|
            0 <= i < clusters.len() ==> (#[trigger] clusters[i]).is_space || one_row(
                clusters[i].text,
            ),
    ensures
        pieces_unbroken(cut(clusters, n).pieces),
        unbroken(cut(clusters, n).open),
    decreases n,
{
    if n > 0 {
        lemma_cut(clusters, n - 1);
        let c = clusters[n - 1];
        let before = cut(clusters, n - 1);
        if !c.is_space {
            assert(unbroken(before.open.push(c)));
        }
    }
}

proof fn lemma_run(clusters: Seq<ClusterModel>, avail: nat, opts: WrapOpts)
    requires
        forall|i: int|
            0 <= i < clusters.len() ==> (#[trigger] clusters[i]).is_space || one_row(
                clusters[i].text,
            ),
    ensures
        lines_unbroken(filled(pieces_of(clusters), avail, opts)),
{
    lemma_cut(clusters, clusters.len() as int);
    lemma_filled(pieces_of(clusters), avail, opts);
}

proof fn lemma_runs(clusters: Seq<ClusterModel>, avail: nat, opts: WrapOpts)
    requires
        words_unbroken(clusters),
    ensures
        lines_unbroken(runs_of(clusters, avail, opts).lines),
        ({
            let open = runs_of(clusters, avail, opts).open;
            forall|i: int|
                0 <= i < open.len() ==> (#[trigger] open[i]).is_space || one_row(open[i].text)
        }),
    decreases clusters.len(),
{
    if clusters.len() > 0 {
        let front = clusters.drop_last();
        assert forall|i: int| 0 <= i < front.len() implies (#[trigger] front[i]).is_space
            || front[i].is_newline || one_row(front[i].text) by {
            assert(front[i] == clusters[i]);
        }
        lemma_runs(front, avail, opts);
        let before = runs_of(front, avail, opts);
        lemma_run(before.open, avail, opts);
        lemma_lines_add(before.lines, filled(pieces_of(before.open), avail, opts));
        assert(clusters[clusters.len() - 1] == clusters.last());
    }
}

proof fn lemma_wrapped(clusters: Seq<ClusterModel>, avail: nat, opts: WrapOpts)
    requires
        words_unbroken(clusters),
    ensures
        lines_unbroken(wrapped(clusters, avail, opts)),
{
    lemma_runs(clusters, avail, opts);
    let runs = runs_of(clusters, avail, opts);
    lemma_run(runs.open, avail, opts);
    lemma_lines_add(runs.lines, filled(pieces_of(runs.open), avail, opts));
}

proof fn lemma_chunks(clusters: Seq<ClusterModel>, avail: nat)
    requires
        unbroken(clusters),
    ensures
        lines_unbroken(chunks_of(clusters, avail)),
{
    lemma_chunked(
        Chunks { lines: Seq::empty(), cur: Seq::empty() },
        clusters,
        at_least_one(avail),
    );
}

proof fn lemma_coalesced(content: Seq<ClusterModel>)
    requires
        unbroken(content),
    ensures
        line_is_one_row(coalesced(content)),
    decreases content.len(),
{
    if content.len() > 0 {
        let front = content.drop_last();
        assert forall|i: int| 0 <= i < front.len() implies one_row((#[trigger] front[i]).text) by {
            assert(front[i] == content[i]);
        }
        lemma_coalesced(front);
        let before = coalesced(front);
        let c = content[content.len() - 1];
        assert(one_row(c.text));
        if before.len() > 0 {
            assert(one_row(before[before.len() - 1].text));
            lemma_one_row_add(before.last().text, c.text);
        }
    }
}

proof fn lemma_final_line(pad: nat, prefix: Seq<SpanModel>, content: Seq<ClusterModel>)
    requires
        line_is_one_row(prefix),
        unbroken(content),
    ensures
        line_is_one_row(final_line(pad, prefix, content)),
{
    lemma_coalesced(content);
}

proof fn lemma_span(text: Seq<char>, kind: KindModel)
    requires
        one_row(text),
    ensures
        line_is_one_row(span_of(text, kind)),
{
}

proof fn lemma_truncated(s: Seq<char>, width: nat, ambiguous_wide: bool)
    requires
        one_row(s),
    ensures
        one_row(truncated(s, width, ambiguous_wide)),
{
    let parts = grapheme_clusters(s);
    clusters_make_up_the_string(s);
    lemma_concat_one_row(parts);
    let k = fitting(parts, width, ambiguous_wide) as int;
    lemma_fitting_count(parts, width, ambiguous_wide);
    let some = parts.take(k);
    assert forall|i: int| 0 <= i < some.len() implies one_row(#[trigger] some[i]) by {
        assert(some[i] == parts[i]);
    }
    lemma_concat_one_row(some);
}

proof fn lemma_fitting_count(parts: Seq<Seq<char>>, width: nat, ambiguous_wide: bool)
    ensures
        fitting(parts, width, ambiguous_wide) <= parts.len(),
    decreases parts.len(),
{
    if parts.len() > 0 && cells(parts[0], ambiguous_wide) <= width {
        lemma_fitting_count(
            parts.drop_first(),
            (width - cells(parts[0], ambiguous_wide)) as nat,
            ambiguous_wide,
        );
    }
}

proof fn lemma_padded(s: Seq<char>, width: nat, ambiguous_wide: bool)
    requires
        one_row(s),
    ensures
        one_row(padded(s, width, ambiguous_wide)),
{
    lemma_truncated(s, width, ambiguous_wide);
}

proof fn lemma_cell_lines(text: Seq<char>, w: nat, ambiguous_wide: bool)
    ensures
        all_one_row(cell_lines(text, w, ambiguous_wide)),
{
    let cs = clusters_in(text, KindModel::Table, ambiguous_wide);
    lemma_words(text, KindModel::Table, ambiguous_wide);
    let lines = wrapped(cs, at_least_one(w), cell_opts());
    lemma_wrapped(cs, at_least_one(w), cell_opts());
    let texts = texts_of(lines);
    assert forall|i: int| 0 <= i < texts.len() implies one_row(#[trigger] texts[i]) by {
        assert(unbroken(lines[i]));
        let parts = cluster_texts(lines[i]);
        assert forall|k: int| 0 <= k < parts.len() implies one_row(#[trigger] parts[k]) by {
            assert(parts[k] == lines[i][k].text);
        }
        lemma_concat_one_row(parts);
        assert(texts[i] == clusters_text(lines[i]));
    }
}

proof fn lemma_border(
    widths: Seq<usize>,
    n: int,
    left: char,
    mid: char,
    ambiguous_wide: bool,
)
    requires
        left != '\n',
        mid != '\n',
    ensures
        one_row(border_to(widths, n, left, mid, ambiguous_wide)),
    decreases n,
{
    if n > 0 {
        lemma_border(widths, n - 1, left, mid, ambiguous_wide);
    }
}

proof fn lemma_row_line(
    cells: Seq<Seq<Seq<char>>>,
    widths: Seq<usize>,
    h: int,
    n: int,
    ambiguous_wide: bool,
)
    requires
        0 <= n <= cells.len(),
        forall|i: int| 0 <= i < cells.len() ==> all_one_row(#[trigger] cells[i]),
    ensures
        one_row(row_line_to(cells, widths, h, n, ambiguous_wide)),
    decreases n,
{
    if n > 0 {
        lemma_row_line(cells, widths, h, n - 1, ambiguous_wide);
        assert(all_one_row(cells[n - 1]));
        let text = cell_line(cells[n - 1], h);
        assert(one_row(text));
        lemma_padded(text, widths[n - 1] as nat, ambiguous_wide);
    }
}

proof fn lemma_body_lines(
    table: Table,
    first: int,
    widths: Seq<usize>,
    n: int,
    ambiguous_wide: bool,
)
    ensures
        all_one_row(body_lines(table, first, widths, n, ambiguous_wide)),
    decreases n,
{
    if n > 0 {
        lemma_body_lines(table, first, widths, n - 1, ambiguous_wide);
        let row = table.rows@[n - 1]@;
        let parts = row_cells(row, first, widths, ambiguous_wide);
        assert forall|i: int| 0 <= i < parts.len() implies all_one_row(#[trigger] parts[i]) by {
            lemma_cell_lines(
                crate::layout::table::cell_text(row, first + i),
                widths[i] as nat,
                ambiguous_wide,
            );
        }
        let lines = row_lines(row, first, widths, ambiguous_wide);
        assert forall|h: int| 0 <= h < lines.len() implies one_row(#[trigger] lines[h]) by {
            lemma_row_line(parts, widths, h, widths.len() as int, ambiguous_wide);
        }
        lemma_border(widths, widths.len() as int, '├', '┼', ambiguous_wide);
    }
}

proof fn lemma_grid_lines(table: Table, first: int, widths: Seq<usize>, ambiguous_wide: bool)
    ensures
        all_one_row(grid_lines(table, first, widths, ambiguous_wide)),
{
    lemma_body_lines(table, first, widths, table.rows@.len() as int, ambiguous_wide);
    lemma_border(widths, widths.len() as int, '┌', '┬', ambiguous_wide);
    lemma_border(widths, widths.len() as int, '└', '┴', ambiguous_wide);
    reveal_strlit("… (table truncated)");
}

proof fn lemma_card_rows(
    rows: Seq<(String, String)>,
    n: int,
    box_w: nat,
    ambiguous_wide: bool,
)
    ensures
        all_one_row(card_rows(rows, n, box_w, ambiguous_wide)),
    decreases n,
{
    if n > 0 {
        lemma_card_rows(rows, n - 1, box_w, ambiguous_wide);
        let inner = max_nat(card_inner(box_w, ambiguous_wide), 1);
        let lines = cell_lines(row_text(rows[n - 1]), inner, ambiguous_wide);
        lemma_cell_lines(row_text(rows[n - 1]), inner, ambiguous_wide);
        let out = boxed(lines, box_w, ambiguous_wide);
        assert forall|i: int| 0 <= i < out.len() implies one_row(#[trigger] out[i]) by {
            assert(one_row(lines[i]));
            lemma_padded(lines[i], card_inner(box_w, ambiguous_wide), ambiguous_wide);
        }
        assert(one_row(card_border('├', '┤', box_w, ambiguous_wide)));
    }
}

proof fn lemma_card_lines(rows: Seq<(String, String)>, box_w: nat, ambiguous_wide: bool)
    ensures
        all_one_row(card_lines(rows, box_w, ambiguous_wide)),
{
    lemma_card_rows(rows, rows.len() as int, box_w, ambiguous_wide);
    assert(one_row(card_border('┌', '┐', box_w, ambiguous_wide)));
    assert(one_row(card_border('└', '┘', box_w, ambiguous_wide)));
}

/// Rows without a line break.
pub open spec fn rows_are_single(rows: Seq<Row>) -> bool {
    forall|i: int| 0 <= i < rows.len() ==> line_is_one_row((#[trigger] rows[i]).line)
}

proof fn lemma_rows_add(a: Seq<Row>, b: Seq<Row>)
    requires
        rows_are_single(a),
        rows_are_single(b),
    ensures
        rows_are_single(a + b),
{
}

proof fn lemma_blank(shape: Shape, n: nat)
    ensures
        rows_are_single(blank_rows(shape, n)),
{
    lemma_final_line(shape.pad_width as nat, Seq::empty(), Seq::empty());
}

proof fn lemma_spaced(
    shape: Shape,
    lines: Seq<Seq<ClusterModel>>,
    first: Seq<SpanModel>,
    rest: Seq<SpanModel>,
    n: int,
)
    requires
        0 <= n <= lines.len(),
        lines_unbroken(lines),
        line_is_one_row(first),
        line_is_one_row(rest),
    ensures
        rows_are_single(spaced_rows(shape, lines, first, rest, n)),
    decreases n,
{
    if n > 0 {
        lemma_spaced(shape, lines, first, rest, n - 1);
        assert(unbroken(lines[n - 1]));
        lemma_final_line(
            shape.pad_width as nat,
            if n == 1 {
                first
            } else {
                rest
            },
            lines[n - 1],
        );
        lemma_blank(shape, shape.line_spacing as nat);
    }
}

proof fn lemma_wrapped_rows(
    shape: Shape,
    content: Seq<ClusterModel>,
    first: Seq<SpanModel>,
    rest: Seq<SpanModel>,
    opts: WrapOpts,
)
    requires
        words_unbroken(content),
        line_is_one_row(first),
        line_is_one_row(rest),
    ensures
        rows_are_single(wrapped_rows(shape, content, first, rest, opts)),
{
    let lines = wrapped(content, wrap_width(shape, first, content), opts);
    lemma_wrapped(content, wrap_width(shape, first, content), opts);
    let head = if prefix_fits(shape, first, content) {
        first
    } else {
        Seq::empty()
    };
    let tail = if prefix_fits(shape, first, content) {
        rest
    } else {
        Seq::empty()
    };
    lemma_blank(shape, shape.line_spacing as nat);
    lemma_final_line(shape.pad_width as nat, head, Seq::empty());
    lemma_spaced(shape, lines, head, tail, lines.len() as int);
}

proof fn lemma_plain(shape: Shape, text: Seq<char>, kind: KindModel)
    ensures
        rows_are_single(plain_rows(shape, text, kind)),
{
    lemma_words(text, kind, shape.ambiguous_wide);
    lemma_wrapped_rows(
        shape,
        clusters_in(text, kind, shape.ambiguous_wide),
        Seq::empty(),
        Seq::empty(),
        shape.plain(),
    );
}

proof fn lemma_tight(
    shape: Shape,
    prefix: Seq<SpanModel>,
    lines: Seq<Seq<ClusterModel>>,
    cont: bool,
)
    requires
        lines_unbroken(lines),
        line_is_one_row(prefix),
    ensures
        rows_are_single(tight_rows(shape, prefix, lines, cont)),
{
    let rows = tight_rows(shape, prefix, lines, cont);
    assert forall|i: int| 0 <= i < rows.len() implies line_is_one_row((#[trigger] rows[i]).line) by {
        assert(unbroken(lines[i]));
        lemma_final_line(shape.pad_width as nat, prefix, lines[i]);
    }
}

proof fn lemma_cut_rows(shape: Shape, lines: Seq<Seq<char>>, kind: KindModel)
    requires
        all_one_row(lines),
    ensures
        rows_are_single(cut_rows(shape, lines, kind)),
{
    let aw = shape.ambiguous_wide;
    let rows = cut_rows(shape, lines, kind);
    assert forall|i: int| 0 <= i < rows.len() implies line_is_one_row((#[trigger] rows[i]).line) by {
        assert(one_row(lines[i]));
        let t = truncated(lines[i], shape.content_width as nat, aw);
        lemma_truncated(lines[i], shape.content_width as nat, aw);
        lemma_words(t, kind, aw);
        lemma_final_line(shape.pad_width as nat, Seq::empty(), clusters_in(t, kind, aw));
    }
}

proof fn lemma_flattened(spans: Seq<Span>, plain: KindModel, links: nat, ambiguous_wide: bool)
    ensures
        words_unbroken(flattened(spans, plain, links, ambiguous_wide)),
    decreases spans.len(),
{
    if spans.len() > 0 {
        let front = spans.drop_last();
        lemma_flattened(front, plain, links, ambiguous_wide);
        let kind = crate::layout::line::kind_of(
            spans.last().style,
            plain,
            links + crate::doc::link_count(front),
        );
        lemma_words(span_display(spans.last()), kind, ambiguous_wide);
        lemma_words_add(
            flattened(front, plain, links, ambiguous_wide),
            clusters_in(span_display(spans.last()), kind, ambiguous_wide),
        );
    }
}

/// Highlighted code comes as the tokens of single lines.
pub open spec fn tokens_are_single(tokens: Seq<Vec<CodeToken>>) -> bool {
    forall|i: int, k: int|
        0 <= i < tokens.len() && 0 <= k < tokens[i]@.len() ==> one_row(
            (#[trigger] tokens[i]@[k]).text@,
        )
}

proof fn lemma_tokens(tokens: Seq<CodeToken>, ambiguous_wide: bool)
    requires
        forall|k: int| 0 <= k < tokens.len() ==> one_row((#[trigger] tokens[k]).text@),
    ensures
        unbroken(token_clusters(tokens, ambiguous_wide)),
    decreases tokens.len(),
{
    if tokens.len() > 0 {
        let front = tokens.drop_last();
        assert forall|k: int| 0 <= k < front.len() implies one_row((#[trigger] front[k]).text@) by {
            assert(front[k] == tokens[k]);
        }
        lemma_tokens(front, ambiguous_wide);
        let t = tokens[tokens.len() - 1];
        let kind = crate::layout::line::token_kind(t.kind);
        lemma_words(t.text@, kind, ambiguous_wide);
        lemma_unbroken_add(
            token_clusters(front, ambiguous_wide),
            clusters_in(t.text@, kind, ambiguous_wide),
        );
    }
}

proof fn lemma_code_rows(
    shape: Shape,
    lines: Seq<Seq<char>>,
    tokens: Seq<Vec<CodeToken>>,
    n: int,
)
    requires
        0 <= n <= lines.len(),
        all_one_row(lines),
        tokens_are_single(tokens),
    ensures
        rows_are_single(code_rows(shape, lines, tokens, n)),
    decreases n,
{
    if n > 0 {
        lemma_code_rows(shape, lines, tokens, n - 1);
        let aw = shape.ambiguous_wide;
        let i = n - 1;
        let clusters = if i < tokens.len() {
            lemma_tokens(tokens[i]@, aw);
            token_clusters(tokens[i]@, aw)
        } else {
            assert(one_row(lines[i]));
            lemma_words(lines[i], KindModel::Code, aw);
            clusters_in(lines[i], KindModel::Code, aw)
        };
        let avail = minus(shape.content_width as nat, CODE_GUTTER as nat);
        let gutter = span_of(spaces(CODE_GUTTER as nat), KindModel::Code);
        lemma_chunks(clusters, avail);
        lemma_span(spaces(CODE_GUTTER as nat), KindModel::Code);
        lemma_tight(shape, gutter, chunks_of(clusters, avail), true);
        lemma_final_line(shape.pad_width as nat, gutter, Seq::empty());
        lemma_rows_add(
            code_rows(shape, lines, tokens, n - 1),
            code_line(shape, lines[n - 1], tokens, n - 1),
        );
    }
}

proof fn lemma_lines_of(s: Seq<char>)
    ensures
        all_one_row(line_cut(s).lines),
        one_row(line_cut(s).open),
    decreases s.len(),
{
    if s.len() > 0 {
        lemma_lines_of(s.drop_last());
    }
}

proof fn lemma_list_form(shape: Shape, lines: Seq<Seq<char>>, n: int)
    ensures
        rows_are_single(list_form_rows(shape, lines, n)),
    decreases n,
{
    if n > 0 {
        lemma_list_form(shape, lines, n - 1);
        let line = lines[n - 1];
        let cs = clusters_in(line, KindModel::Table, shape.ambiguous_wide);
        lemma_words(line, KindModel::Table, shape.ambiguous_wide);
        lemma_wrapped(cs, shape.content_width as nat, shape.plain());
        lemma_tight(
            shape,
            Seq::empty(),
            wrapped(cs, shape.content_width as nat, shape.plain()),
            false,
        );
        lemma_final_line(shape.pad_width as nat, Seq::empty(), Seq::empty());
        lemma_rows_add(list_form_rows(shape, lines, n - 1), list_line_rows(shape, line));
    }
}

proof fn lemma_gallery_list(shape: Shape, items: Seq<GalleryItem>, n: int)
    ensures
        rows_are_single(gallery_list(shape, items, n)),
    decreases n,
{
    if n > 0 {
        lemma_gallery_list(shape, items, n - 1);
        lemma_plain(shape, placeholder(items[n - 1].caption@), KindModel::Image);
    }
}

proof fn lemma_image<R: ImageResolver>(
    shape: Shape,
    src: Option<String>,
    alt: Seq<char>,
    images: R,
)
    ensures
        rows_are_single(image_rows(shape, src, alt, images)),
{
    match reserved_box(shape, src, images) {
        Some((cols, rows)) => {
            let out = image_box_rows(shape, src->0@, cols, rows);
            assert forall|i: int| 0 <= i < out.len() implies line_is_one_row(
                (#[trigger] out[i]).line,
            ) by {
                let kind = KindModel::ImageRow { src: src->0@, row: i as u16, rows };
                lemma_span(spaces(cols), kind);
                lemma_final_line(
                    shape.pad_width as nat,
                    span_of(spaces(cols), kind),
                    Seq::empty(),
                );
            }
        },
        None => lemma_plain(shape, placeholder(alt), KindModel::Image),
    }
}

proof fn lemma_decimal(n: nat)
    ensures
        one_row(decimal(n)),
    decreases n,
{
    if n >= 10 {
        lemma_decimal(n / 10);
    }
}

/// Where a block is code, its tokens are those of single lines.
pub open spec fn block_is_single(block: Block) -> bool {
    match block {
        Block::Code { tokens, .. } => tokens_are_single(tokens@),
        _ => true,
    }
}

proof fn lemma_block_rows<R: ImageResolver>(shape: Shape, block: Block, images: R, links: nat)
    requires
        block_is_single(block),
    ensures
        rows_are_single(block_rows(shape, block, images, links)),
{
    let aw = shape.ambiguous_wide;
    let none = Seq::<SpanModel>::empty();
    lemma_blank(shape, shape.paragraph_spacing as nat);
    match block {
        Block::Heading { level, spans } => {
            lemma_plain(shape, plain_text(spans@), KindModel::Heading(level));
        },
        Block::Paragraph(spans) => {
            lemma_flattened(spans@, KindModel::Plain, links, aw);
            lemma_wrapped_rows(
                shape,
                flattened(spans@, KindModel::Plain, links, aw),
                none,
                none,
                shape.prose(),
            );
        },
        Block::ListItem { ordered, index, depth, spans } => {
            let marker = list_marker(ordered, index, depth);
            lemma_decimal(index as nat);
            assert(one_row(marker));
            lemma_span(marker, KindModel::Plain);
            lemma_span(spaces(cells(marker, aw)), KindModel::Plain);
            lemma_flattened(spans@, KindModel::Plain, links, aw);
            lemma_wrapped_rows(
                shape,
                flattened(spans@, KindModel::Plain, links, aw),
                span_of(marker, KindModel::Plain),
                span_of(spaces(cells(marker, aw)), KindModel::Plain),
                shape.prose(),
            );
        },
        Block::Blockquote(spans) => {
            let bar = span_of(seq!['▌', ' '], KindModel::Dim);
            lemma_flattened(spans@, KindModel::Quote, links, aw);
            lemma_wrapped_rows(
                shape,
                flattened(spans@, KindModel::Quote, links, aw),
                bar,
                bar,
                shape.prose(),
            );
        },
        Block::Code { text, lang, tokens } => {
            lemma_lines_of(text@);
            lemma_code_rows(shape, lines_of(text@), tokens@, lines_of(text@).len() as int);
        },
        Block::Rule => {
            let n = min_nat(shape.content_width as nat, RULE_MAX_WIDTH as nat) / glyph_cells(
                '─',
                aw,
            );
            lemma_span(run_of('─', n), KindModel::Dim);
            lemma_final_line(
                shape.pad_width as nat,
                span_of(run_of('─', n), KindModel::Dim),
                Seq::empty(),
            );
        },
        Block::Table(table) => {
            match table_plan(shape, table) {
                PlanModel::Collapse => lemma_list_form(
                    shape,
                    table.list_lines(),
                    table.list_lines().len() as int,
                ),
                PlanModel::Grid { first_col, widths } => {
                    lemma_grid_lines(table, first_col as int, widths, aw);
                    lemma_cut_rows(
                        shape,
                        grid_lines(table, first_col as int, widths, aw),
                        KindModel::Table,
                    );
                },
            }
        },
        Block::Infobox(rows) => {
            lemma_card_lines(rows@, top_card_width(shape), aw);
            lemma_cut_rows(
                shape,
                card_lines(rows@, top_card_width(shape), aw),
                KindModel::Infobox,
            );
        },
        Block::Image { src, alt, caption } => {
            lemma_image(shape, src, alt@, images);
            if let Some(text) = caption {
                lemma_plain(shape, text@, KindModel::Caption);
            }
        },
        Block::Gallery(items) => {
            let text = strip_text(items@, items@.len() as int);
            let cs = clusters_in(text, KindModel::Caption, aw);
            lemma_words(text, KindModel::Caption, aw);
            lemma_wrapped(cs, shape.content_width as nat, shape.plain());
            lemma_tight(
                shape,
                none,
                wrapped(cs, shape.content_width as nat, shape.plain()),
                true,
            );
            lemma_gallery_list(shape, items@, items@.len() as int);
        },
        Block::Math { tex, display, .. } => {
            let pad = math_pad(shape, tex@);
            lemma_plain(shape, math_text(tex@), KindModel::Math);
            lemma_words(math_text(tex@), KindModel::Math, aw);
            lemma_wrapped_rows(
                shape,
                clusters_in(math_text(tex@), KindModel::Math, aw),
                pad,
                pad,
                shape.plain(),
            );
        },
    }
}

proof fn lemma_blocks<R: ImageResolver>(
    shape: Shape,
    at: Laid,
    blocks: Seq<Block>,
    from: int,
    to: int,
    images: R,
)
    requires
        rows_are_single(at.rows),
        0 <= from,
        to <= blocks.len(),
        forall|i: int| 0 <= i < blocks.len() ==> block_is_single(#[trigger] blocks[i]),
    ensures
        rows_are_single(with_blocks(shape, at, blocks, from, to, images).rows),
    decreases to - from,
{
    if from < to {
        lemma_blocks(shape, at, blocks, from, to - 1, images);
        let before = with_blocks(shape, at, blocks, from, to - 1, images);
        assert(block_is_single(blocks[to - 1]));
        lemma_block_rows(shape, blocks[to - 1], images, before.links);
    }
}

proof fn lemma_float_rows(shape: Shape, lead: Seq<Row>, card: Seq<Seq<char>>)
    requires
        rows_are_single(lead),
        all_one_row(card),
    ensures
        rows_are_single(float_rows(shape, lead, card)),
{
    let out = float_rows(shape, lead, card);
    assert forall|j: int| 0 <= j < out.len() implies line_is_one_row((#[trigger] out[j]).line) by {
        if j < lead.len() {
            assert(line_is_one_row(lead[j].line));
        }
        if j < card.len() {
            assert(one_row(card[j]));
        }
    }
}

proof fn lemma_laid<R: ImageResolver>(
    shape: Shape,
    at: Laid,
    blocks: Seq<Block>,
    i: int,
    float: int,
    folds: Seq<usize>,
    images: R,
)
    requires
        0 <= i,
        rows_are_single(at.rows),
        forall|k: int| 0 <= k < blocks.len() ==> block_is_single(#[trigger] blocks[k]),
    ensures
        rows_are_single(laid_from(shape, at, blocks, i, float, folds, images).rows),
    decreases blocks.len() - i,
{
    let aw = shape.ambiguous_wide;
    lemma_blank(shape, shape.paragraph_spacing as nat);
    if i < blocks.len() {
        if i == float {
            let end = next_heading(blocks, i + 1, 255);
            if i < end <= blocks.len() {
                let nothing = laid_nothing(at.links);
                lemma_blocks(lead_shape(shape), nothing, blocks, i + 1, end, images);
                let lead = with_blocks(lead_shape(shape), nothing, blocks, i + 1, end, images);
                let rows = blocks[i]->Infobox_0@;
                lemma_card_lines(rows, float_card_width(shape), aw);
                lemma_float_rows(
                    shape,
                    lead.rows,
                    card_lines(rows, float_card_width(shape), aw),
                );
                lemma_laid(
                    shape,
                    with_float(shape, at, blocks, i, end, images),
                    blocks,
                    end,
                    float,
                    folds,
                    images,
                );
            }
        } else if blocks[i] is Heading && folds.contains(i as usize) {
            let level = blocks[i]->Heading_level;
            let end = next_heading(blocks, i + 1, level);
            if i < end <= blocks.len() {
                let title = "▸ "@ + plain_text(blocks[i]->Heading_spans@);
                let counts = fold_suffix(
                    paragraphs_in(blocks, i + 1, end),
                    headings_in(blocks, i + 1, end),
                );
                let a = clusters_in(title, KindModel::Heading(level), aw);
                let b = clusters_in(counts, KindModel::Dim, aw);
                lemma_words(title, KindModel::Heading(level), aw);
                lemma_words(counts, KindModel::Dim, aw);
                lemma_words_add(a, b);
                lemma_wrapped_rows(shape, a + b, Seq::empty(), Seq::empty(), shape.plain());
                lemma_laid(
                    shape,
                    with_fold(shape, at, blocks, i, end),
                    blocks,
                    end,
                    float,
                    folds,
                    images,
                );
            }
        } else {
            lemma_block_rows(shape, blocks[i], images, at.links);
            lemma_laid(
                shape,
                with_block(shape, at, blocks[i], images),
                blocks,
                i + 1,
                float,
                folds,
                images,
            );
        }
    }
}

/// Every line of a layout is one row: no text in it breaks the line, whatever
/// breaks the document's own texts hold.
pub proof fn a_line_is_one_row<R: ImageResolver>(
    doc: Document,
    width: u16,
    options: LayoutOptions,
    images: R,
    folds: Seq<usize>,
    i: int,
)
    requires
        forall|k: int| 0 <= k < doc.blocks@.len() ==> block_is_single(#[trigger] doc.blocks@[k]),
        0 <= i < laid_document(doc, width, options, images, folds).rows.len(),
    ensures
        line_is_one_row(laid_document(doc, width, options, images, folds).rows[i].line),
{
    let shape = shape_of(width, options);
    let minutes = minutes_to_read(doc.words as nat, options.reading_wpm as nat);
    lemma_plain(shape, doc.title@, KindModel::Title);
    lemma_plain(shape, decimal(minutes) + " min read"@, KindModel::Dim);
    lemma_blank(shape, shape.paragraph_spacing as nat);
    let start = Laid {
        rows: header_rows(shape, doc.title@, minutes),
        anchors: Seq::empty(),
        links: 0,
    };
    assert(rows_are_single(start.rows));
    lemma_laid(
        shape,
        start,
        doc.blocks@,
        0,
        float_at(width, shape, doc.blocks@),
        folds,
        images,
    );
}

} // verus!
