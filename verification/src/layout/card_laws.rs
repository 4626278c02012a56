//! What an infobox's card shows and where it stands, and how a table is drawn.
use vstd::prelude::*;

use crate::doc::Block;
use crate::doc::Document;
use crate::doc::Table;
use crate::layout::card::INFOBOX_FLOAT_GAP;
use crate::layout::card::boxed;
use crate::layout::card::card_border;
use crate::layout::card::card_inner;
use crate::layout::card::card_lines;
use crate::layout::card::card_rows;
use crate::layout::card::lemma_one_char;
use crate::layout::card::minus;
use crate::layout::card::row_text;
use crate::layout::cluster::cluster_texts;
use crate::layout::cluster::clusters_in;
use crate::layout::document::float_at;
use crate::layout::document::float_card_width;
use crate::layout::document::float_row;
use crate::layout::document::float_rows;
use crate::layout::document::laid_document;
use crate::layout::document::laid_nothing;
use crate::layout::document::lead_shape;
use crate::layout::document::lead_width;
use crate::layout::document::lemma_next_heading;
use crate::layout::document::links_from;
use crate::layout::document::next_heading;
use crate::layout::document::shape_of;
use crate::layout::document::shows;
use crate::layout::document::with_blocks;
use crate::layout::document::with_float;
use crate::layout::emit::Row;
use crate::layout::emit::Shape;
use crate::layout::emit::block_gap;
use crate::layout::emit::block_rows;
use crate::layout::emit::cut_rows;
use crate::layout::emit::natural_widths;
use crate::layout::emit::span_of;
use crate::layout::emit::top_card_width;
use crate::layout::grid_laws::hold_at;
use crate::layout::grid_laws::holds_at;
use crate::layout::grid_laws::lemma_cell;
use crate::layout::grid_laws::lemma_later;
use crate::layout::grid_laws::lemma_longer;
use crate::layout::grid_laws::lemma_not_cut;
use crate::layout::grid_laws::lemma_padded_ink;
use crate::layout::line::coalesced;
use crate::layout::line::final_line;
use crate::layout::line::pad_spans;
use crate::layout::link_laws::lemma_float_block;
use crate::layout::link_laws::lemma_reach;
use crate::layout::link_laws::lemma_rest_climbs;
use crate::layout::link_laws::lemma_start;
use crate::layout::link_laws::stands_alone;
use crate::layout::link_laws::start_of;
use crate::layout::mapping::lemma_float_counts;
use crate::layout::mapping::lemma_split;
use crate::layout::marker_laws::column_for;
use crate::layout::marker_laws::is_laid_out;
use crate::layout::marker_laws::lemma_block_place;
use crate::layout::marker_laws::lemma_line_text_add;
use crate::layout::marker_laws::lemma_pad_text;
use crate::layout::marker_laws::lemma_span_text;
use crate::layout::marker_laws::starts_with;
use crate::layout::measure::cells;
use crate::layout::measure::cells_additive;
use crate::layout::measure::char_cells;
use crate::layout::measure::clusters_make_up_the_string;
use crate::layout::measure::grapheme_clusters;
use crate::layout::measure::lemma_cells_spaces;
use crate::layout::overflow::text_fits;
use crate::layout::show_laws::ink;
use crate::layout::show_laws::lemma_coalesced_line;
use crate::layout::table::PlanModel;
use crate::layout::table::cell_line;
use crate::layout::table::cell_lines;
use crate::layout::table::glyph_cells;
use crate::layout::table::grid_lines;
use crate::layout::table::padded;
use crate::layout::table::planned;
use crate::layout::types::ImageResolver;
use crate::layout::types::KindModel;
use crate::layout::types::Layout;
use crate::layout::types::LayoutOptions;
use crate::layout::types::SpanModel;
use crate::layout::types::line_cells;
use crate::layout::types::line_text;
use crate::text::concat_all;
use crate::text::spaces;

verus! {

/// What a row of an infobox says: its label, a colon and its value, or the
/// value alone where it has no label.
pub open spec fn fact(row: (String, String)) -> Seq<char> {
    if row.0@ == Seq::<char>::empty() {
        row.1@
    } else {
        row.0@ + seq![':', ' '] + row.1@
    }
}

/// Where the first `n` rows of a card stand, and what they hold.
pub open spec fn card_shows(
    lines: Seq<Seq<char>>,
    rows: Seq<(String, String)>,
    n: int,
    start: nat,
    ats: Seq<int>,
    pieces: Seq<Seq<Seq<char>>>,
    ambiguous_wide: bool,
    but: Seq<char>,
) -> bool {
    &&& ats.len() == n
    &&& pieces.len() == n
    &&& forall|r: int|
        0 <= r < n ==> {
            &&& hold_at(lines, #[trigger] ats[r], start, pieces[r], ambiguous_wide)
            &&& ink(concat_all(pieces[r]), but) == ink(fact(rows[r]), but)
        }
    &&& forall|q: int, r: int|
        0 <= q < r < n ==> #[trigger] ats[q] + pieces[q].len() <= #[trigger] ats[r]
}

proof fn lemma_fact(row: (String, String))
    ensures
        row_text(row) == fact(row),
{
    reveal_strlit(": ");
    if row.0@.len() == 0 {
        assert(row.0@ =~= Seq::empty());
    }
    assert(row_text(row) =~= fact(row));
}

proof fn lemma_boxed(
    row: (String, String),
    box_w: nat,
    ambiguous_wide: bool,
    but: Seq<char>,
) -> (pieces: Seq<Seq<char>>)
    requires
        card_inner(box_w, ambiguous_wide) >= 1,
        text_fits(fact(row), card_inner(box_w, ambiguous_wide), ambiguous_wide),
    ensures
        ({
            let inner = card_inner(box_w, ambiguous_wide);
            let lines = boxed(
                cell_lines(row_text(row), inner, ambiguous_wide),
                box_w,
                ambiguous_wide,
            );
            &&& pieces.len() == lines.len()
            &&& hold_at(lines, 0, char_cells('│', ambiguous_wide) + 1, pieces, ambiguous_wide)
            &&& ink(concat_all(pieces), but) == ink(fact(row), but)
        }),
{
    let aw = ambiguous_wide;
    let inner = card_inner(box_w, aw);
    lemma_fact(row);
    lemma_cell(fact(row), inner, aw, but);
    let cell = cell_lines(fact(row), inner, aw);
    let lines = boxed(cell, box_w, aw);
    let n = cell.len() as int;
    let pieces = Seq::new(n as nat, |h: int| padded(cell_line(cell, h), inner, aw));
    lemma_padded_ink(cell, inner, n, aw, but);
    assert(cell.take(n) =~= cell);
    assert forall|h: int| 0 <= h < pieces.len() implies holds_at(
        #[trigger] lines[0 + h],
        char_cells('│', aw) + 1,
        pieces[h],
        aw,
    ) by {
        lemma_one_char('│', aw);
        lemma_one_char(' ', aw);
        cells_additive(seq!['│'], seq![' '], aw);
        assert(seq!['│', ' '] =~= seq!['│'] + seq![' ']);
        assert(lines[h] == seq!['│', ' '] + pieces[h] + seq![' ', '│']);
    }
    pieces
}

#[verifier::spinoff_prover]
#[verifier::rlimit(40)]
proof fn lemma_card_rows_hold(
    rows: Seq<(String, String)>,
    n: int,
    box_w: nat,
    ambiguous_wide: bool,
    but: Seq<char>,
) -> (r: (Seq<int>, Seq<Seq<Seq<char>>>))
    requires
        0 <= n <= rows.len(),
        card_inner(box_w, ambiguous_wide) >= 1,
        forall|q: int|
            0 <= q < n ==> text_fits(
                fact(#[trigger] rows[q]),
                card_inner(box_w, ambiguous_wide),
                ambiguous_wide,
            ),
    ensures
        card_shows(
            card_rows(rows, n, box_w, ambiguous_wide),
            rows,
            n,
            char_cells('│', ambiguous_wide) + 1,
            r.0,
            r.1,
            ambiguous_wide,
            but,
        ),
    decreases n,
{
    let aw = ambiguous_wide;
    let start = char_cells('│', aw) + 1;
    let lines = card_rows(rows, n, box_w, aw);
    if n == 0 {
        (Seq::empty(), Seq::empty())
    } else {
        let (ats, pieces) = lemma_card_rows_hold(rows, n - 1, box_w, aw, but);
        let before = card_rows(rows, n - 1, box_w, aw);
        let own = boxed(
            cell_lines(row_text(rows[n - 1]), card_inner(box_w, aw), aw),
            box_w,
            aw,
        );
        let mine = lemma_boxed(rows[n - 1], box_w, aw, but);
        let tail = lines.skip((before.len() + own.len()) as int);
        assert(lines =~= before + own + tail);
        lemma_later(before, own, 0, start, mine, aw);
        lemma_longer(before + own, tail, before.len() as int, start, mine, aw);
        let all_ats = ats.push(before.len() as int);
        let all_pieces = pieces.push(mine);
        assert forall|r: int| 0 <= r < n implies {
            &&& hold_at(lines, #[trigger] all_ats[r], start, all_pieces[r], aw)
            &&& ink(concat_all(all_pieces[r]), but) == ink(fact(rows[r]), but)
        } by {
            if r < n - 1 {
                assert(all_ats[r] == ats[r] && all_pieces[r] == pieces[r]);
                lemma_longer(before, own, ats[r], start, pieces[r], aw);
                lemma_longer(before + own, tail, ats[r], start, pieces[r], aw);
            }
        }
        assert forall|q: int, r: int| 0 <= q < r < n implies #[trigger] all_ats[q]
            + all_pieces[q].len() <= #[trigger] all_ats[r] by {
            assert(hold_at(before, ats[q], start, pieces[q], aw));
            if r < n - 1 {
                assert(ats[q] + pieces[q].len() <= ats[r]);
            }
        }
        (all_ats, all_pieces)
    }
}

/// A card shows every row of its infobox, label and value, whole, one row
/// under the other, inside the card's border. Whitespace aside; the card is
/// wide enough where no cluster of the texts is wider than its inside.
pub proof fn a_card_shows_every_row(
    rows: Seq<(String, String)>,
    box_w: nat,
    ambiguous_wide: bool,
    but: Seq<char>,
) -> (r: (Seq<int>, Seq<Seq<Seq<char>>>))
    requires
        card_inner(box_w, ambiguous_wide) >= 1,
        forall|q: int|
            0 <= q < rows.len() ==> text_fits(
                fact(#[trigger] rows[q]),
                card_inner(box_w, ambiguous_wide),
                ambiguous_wide,
            ),
    ensures
        card_shows(
            card_lines(rows, box_w, ambiguous_wide),
            rows,
            rows.len() as int,
            char_cells('│', ambiguous_wide) + 1,
            r.0,
            r.1,
            ambiguous_wide,
            but,
        ),
{
    let aw = ambiguous_wide;
    let n = rows.len() as int;
    let start = char_cells('│', aw) + 1;
    let (ats, pieces) = lemma_card_rows_hold(rows, n, box_w, aw, but);
    let top = seq![card_border('┌', '┐', box_w, aw)];
    let body = card_rows(rows, n, box_w, aw);
    let lines = card_lines(rows, box_w, aw);
    let tail = lines.skip((top.len() + body.len()) as int);
    assert(lines =~= top + body + tail);
    let moved = Seq::new(n as nat, |r: int| ats[r] + 1);
    assert forall|r: int| 0 <= r < n implies {
        &&& hold_at(lines, #[trigger] moved[r], start, pieces[r], aw)
        &&& ink(concat_all(pieces[r]), but) == ink(fact(rows[r]), but)
    } by {
        assert(hold_at(body, ats[r], start, pieces[r], aw));
        lemma_later(top, body, ats[r], start, pieces[r], aw);
        lemma_longer(top + body, tail, moved[r], start, pieces[r], aw);
    }
    assert forall|q: int, r: int| 0 <= q < r < n implies #[trigger] moved[q] + pieces[q].len()
        <= #[trigger] moved[r] by {
        assert(ats[q] + pieces[q].len() <= ats[r]);
    }
    (moved, pieces)
}

/// The text of the lead's row `j` behind the page's margin.
spec fn beside(shape: Shape, lead: Seq<Row>, j: int) -> Seq<char> {
    spaces(shape.pad_width as nat) + (if j < lead.len() {
        line_text(lead[j].line)
    } else {
        Seq::empty()
    })
}

/// The spaces between the lead's row `j` and the card.
spec fn between(shape: Shape, lead: Seq<Row>, j: int) -> nat {
    let used = if j < lead.len() {
        line_cells(lead[j].line, shape.ambiguous_wide)
    } else {
        0
    };
    minus(lead_width(shape), used) + INFOBOX_FLOAT_GAP as nat
}

proof fn lemma_float_row(shape: Shape, lead: Seq<Row>, card: Seq<Seq<char>>, j: int)
    requires
        0 <= j < card.len(),
    ensures
        ({
            let aw = shape.ambiguous_wide;
            let front = beside(shape, lead, j);
            let n = between(shape, lead, j);
            let column = shape.pad_width + lead_width(shape) + INFOBOX_FLOAT_GAP;
            &&& line_text(float_row(shape, lead, card, j).line) == front + spaces(n) + card[j]
            &&& cells(front, aw) + n >= column
            &&& cells(front, aw) <= shape.pad_width + lead_width(shape) ==> cells(front, aw) + n
                == column
        }),
{
    let aw = shape.ambiguous_wide;
    let n = between(shape, lead, j);
    let left = if j < lead.len() {
        lead[j].line
    } else {
        Seq::<SpanModel>::empty()
    };
    let line = float_row(shape, lead, card, j).line;
    let pad = pad_spans(shape.pad_width as nat);
    let a = span_of(spaces(n), KindModel::Plain);
    let b = span_of(card[j], KindModel::Infobox);
    lemma_line_text_cells(left, aw);
    assert(line_text(Seq::<SpanModel>::empty()) =~= Seq::empty());
    assert(line =~= pad + left + a + b);
    lemma_line_text_add(pad + left + a, b);
    lemma_line_text_add(pad + left, a);
    lemma_line_text_add(pad, left);
    lemma_pad_text(shape.pad_width as nat);
    lemma_span_text(spaces(n), KindModel::Plain);
    lemma_span_text(card[j], KindModel::Infobox);
    cells_additive(spaces(shape.pad_width as nat), line_text(left), aw);
    lemma_cells_spaces(shape.pad_width as nat, aw);
    assert(line_text(line) =~= beside(shape, lead, j) + spaces(n) + card[j]);
}

/// Line `at` of the layout is `front`, `gap` spaces and a line of the card. The
/// card's line starts past the lead and the gap, and in one column wherever
/// `front` stays within the lead.
pub open spec fn card_at(
    layout: Layout,
    at: int,
    shape: Shape,
    front: Seq<char>,
    gap: nat,
    line: Seq<char>,
) -> bool {
    let aw = shape.ambiguous_wide;
    let column = shape.pad_width + lead_width(shape) + INFOBOX_FLOAT_GAP;
    &&& line_text(layout.lines@[at]@) == front + spaces(gap) + line
    &&& cells(front, aw) + gap >= column
    &&& cells(front, aw) <= shape.pad_width + lead_width(shape) ==> cells(front, aw) + gap
        == column
}

/// A floated card stands beside the lead: from the infobox's anchor on, each
/// row is what the lead has there, spaces, and the card's next line, all of
/// them in order; the lines start in one column, past the lead and the gap,
/// wherever the lead's row stays in its own.
#[verifier::spinoff_prover]
#[verifier::rlimit(40)]
pub proof fn a_floated_card_stands_beside_the_lead<R: ImageResolver>(
    layout: Layout,
    doc: Document,
    width: u16,
    options: LayoutOptions,
    images: R,
    folds: Seq<usize>,
) -> (r: (Seq<Seq<char>>, Seq<nat>))
    requires
        shows(layout, laid_document(doc, width, options, images, folds)),
        links_from(doc.blocks@, 0) <= usize::MAX,
        ({
            let float = float_at(width, shape_of(width, options), doc.blocks@);
            0 <= float && stands_alone(doc.blocks@, 0, float, folds, float)
        }),
    ensures
        ({
            let (fronts, gaps) = r;
            let shape = shape_of(width, options);
            let aw = options.ambiguous_wide;
            let float = float_at(width, shape, doc.blocks@);
            let card = card_lines(
                doc.blocks@[float]->Infobox_0@,
                float_card_width(shape),
                aw,
            );
            let at = layout.block_lines@[float] as int;
            &&& float < layout.block_lines@.len()
            &&& 0 <= at
            &&& at + card.len() <= layout.lines@.len()
            &&& fronts.len() == card.len()
            &&& gaps.len() == card.len()
            &&& forall|j: int|
                0 <= j < card.len() ==> #[trigger] card_at(
                    layout,
                    at + j,
                    shape,
                    fronts[j],
                    gaps[j],
                    card[j],
                )
        }),
{
    let shape = shape_of(width, options);
    let aw = options.ambiguous_wide;
    let blocks = doc.blocks@;
    let float = float_at(width, shape, blocks);
    let laid = laid_document(doc, width, options, images, folds);
    lemma_start(doc, shape, options);
    lemma_float_block(width, shape, blocks);
    let start = start_of(doc, shape, options);
    let s = lemma_reach(shape, start, blocks, 0, float, folds, images, float);
    let end = next_heading(blocks, float + 1, 255);
    lemma_next_heading(blocks, float + 1, 255);
    lemma_split(blocks, float + 1, end);
    lemma_float_counts(shape, s, blocks, float, end, images);
    let next = with_float(shape, s, blocks, float, end, images);
    let more = lemma_rest_climbs(shape, next, blocks, end, float, folds, images);
    let lead = with_blocks(
        lead_shape(shape),
        laid_nothing(s.links),
        blocks,
        float + 1,
        end,
        images,
    );
    let card = card_lines(blocks[float]->Infobox_0@, float_card_width(shape), aw);
    let rows = float_rows(shape, lead.rows, card);
    let at = s.rows.len() as int;
    assert(next.anchors[float] == at);
    assert(laid.anchors[float] == at);
    assert(layout.block_lines@.map_values(|a: usize| a as nat)[float] == at);
    assert(laid.rows.len() == next.rows.len() + more.len());
    assert(rows.len() >= card.len());
    assert(at + card.len() <= layout.lines@.len());
    assert(layout.block_lines@[float] == at);
    let fronts = Seq::new(card.len(), |j: int| beside(shape, lead.rows, j));
    let gaps = Seq::new(card.len(), |j: int| between(shape, lead.rows, j));
    assert forall|j: int| 0 <= j < card.len() implies (#[trigger] layout.lines@[at + j])@
        == rows[j].line by {
        assert(laid.rows[at + j] == next.rows[at + j]);
        assert(next.rows[at + j] == rows[j]);
    }
    assert forall|j: int| 0 <= j < card.len() implies #[trigger] card_at(
        layout,
        at + j,
        shape,
        fronts[j],
        gaps[j],
        card[j],
    ) by {
        assert(layout.lines@[at + j]@ == rows[j].line);
        lemma_float_row(shape, lead.rows, card, j);
    }
    (fronts, gaps)
}

/// A line takes the cells of its text.
pub proof fn lemma_line_text_cells(spans: Seq<SpanModel>, ambiguous_wide: bool)
    ensures
        cells(line_text(spans), ambiguous_wide) == line_cells(spans, ambiguous_wide),
    decreases spans.len(),
{
    if spans.len() > 0 {
        let front = spans.drop_last();
        lemma_line_text_cells(front, ambiguous_wide);
        assert(crate::layout::types::line_texts(spans).drop_last()
            =~= crate::layout::types::line_texts(front));
        cells_additive(line_text(front), spans.last().text, ambiguous_wide);
    } else {
        assert(line_text(spans) =~= Seq::empty());
    }
}

proof fn lemma_cut_row(shape: Shape, lines: Seq<Seq<char>>, kind: KindModel, j: int)
    requires
        0 <= j < lines.len(),
        cells(lines[j], shape.ambiguous_wide) <= shape.content_width,
    ensures
        line_text(cut_rows(shape, lines, kind)[j].line) == spaces(shape.pad_width as nat)
            + lines[j],
{
    let aw = shape.ambiguous_wide;
    lemma_not_cut(lines[j], shape.content_width as nat, aw);
    let content = clusters_in(lines[j], kind, aw);
    let line = final_line(shape.pad_width as nat, Seq::empty(), content);
    assert(cut_rows(shape, lines, kind)[j].line == line);
    let pad = pad_spans(shape.pad_width as nat);
    assert(pad + Seq::<SpanModel>::empty() =~= pad);
    lemma_line_text_add(pad, coalesced(content));
    lemma_pad_text(shape.pad_width as nat);
    lemma_coalesced_line(content);
    clusters_make_up_the_string(lines[j]);
    assert(cluster_texts(content) =~= grapheme_clusters(lines[j]));
}

/// The lines of a block that is drawn with borders: a card's, or a grid's.
pub open spec fn drawn_lines(column: Shape, block: Block) -> Seq<Seq<char>> {
    let aw = column.ambiguous_wide;
    match block {
        Block::Infobox(rows) => card_lines(rows@, top_card_width(column), aw),
        Block::Table(table) => match planned(
            natural_widths(table, aw),
            column.content_width as nat,
            column.accessible,
            column.table_offset as nat,
            glyph_cells('│', aw),
        ) {
            PlanModel::Grid { first_col, widths } => grid_lines(
                table,
                first_col as int,
                widths,
                aw,
            ),
            PlanModel::Collapse => Seq::empty(),
        },
        _ => Seq::empty(),
    }
}

/// A card or a grid stands in the layout line by line, from the block's anchor
/// on, each line behind the page's margin.
#[verifier::spinoff_prover]
#[verifier::rlimit(40)]
pub proof fn drawn_lines_stand_in_order<R: ImageResolver>(
    layout: Layout,
    doc: Document,
    width: u16,
    options: LayoutOptions,
    images: R,
    folds: Seq<usize>,
    b: int,
)
    requires
        shows(layout, laid_document(doc, width, options, images, folds)),
        links_from(doc.blocks@, 0) <= usize::MAX,
        0 <= b < doc.blocks@.len(),
        is_laid_out(
            doc.blocks@,
            float_at(width, shape_of(width, options), doc.blocks@),
            folds,
            b,
        ),
    ensures
        ({
            let shape = shape_of(width, options);
            let float = float_at(width, shape, doc.blocks@);
            let column = column_for(shape, doc.blocks@, float, folds, b);
            let lines = drawn_lines(column, doc.blocks@[b]);
            let at = layout.block_lines@[b] as int;
            &&& b < layout.block_lines@.len()
            &&& lines.len() > 0 ==> at + lines.len() <= layout.lines@.len()
            &&& forall|j: int|
                0 <= j < lines.len() && cells(lines[j], options.ambiguous_wide)
                    <= column.content_width ==> (spaces(shape.pad_width as nat)
                    + lines[j]).is_prefix_of(line_text((#[trigger] layout.lines@[at + j])@))
        }),
{
    let shape = shape_of(width, options);
    let blocks = doc.blocks@;
    let float = float_at(width, shape, blocks);
    let column = column_for(shape, blocks, float, folds, b);
    let aw = options.ambiguous_wide;
    let laid = laid_document(doc, width, options, images, folds);
    let lines = drawn_lines(column, blocks[b]);
    let (at, links) = lemma_block_place(doc, width, options, images, folds, b);
    let own = block_rows(column, blocks[b], images, links);
    let pad = (shape.pad_width - column.pad_width) as nat;
    assert(layout.block_lines@.map_values(|a: usize| a as nat)[b] == laid.anchors[b]);
    if lines.len() > 0 {
        let kind = if blocks[b] is Infobox {
            KindModel::Infobox
        } else {
            KindModel::Table
        };
        assert(own == cut_rows(column, lines, kind) + block_gap(column));
        assert forall|j: int|
            0 <= j < lines.len() && cells(lines[j], aw) <= column.content_width implies (spaces(
            shape.pad_width as nat,
        ) + lines[j]).is_prefix_of(line_text((#[trigger] layout.lines@[at + j])@)) by {
            lemma_cut_row(column, lines, kind, j);
            assert(own[j] == cut_rows(column, lines, kind)[j]);
            assert(layout.lines@[at + j]@ == laid.rows[at + j].line);
            assert(starts_with(laid.rows[at + j], pad, line_text(own[j].line)));
            assert(spaces(pad) + (spaces(column.pad_width as nat) + lines[j]) =~= spaces(
                shape.pad_width as nat,
            ) + lines[j]);
        }
    }
}

} // verus!
