//! What a table's grid shows: every cell, whole, in its own place.
use vstd::prelude::*;

use crate::doc::Table;
use crate::doc::TableCell;
use crate::layout::card::lemma_one_char;
use crate::layout::cluster::ClusterModel;
use crate::layout::cluster::clusters_in;
use crate::layout::cluster::clusters_text;
use crate::layout::fill::at_least_one;
use crate::layout::laws::lemma_coalesced_cells;
use crate::layout::laws::line_fits;
use crate::layout::laws::wrapped_lines_fit;
use crate::layout::line::fitting;
use crate::layout::line::truncated;
use crate::layout::line::wrapped;
use crate::layout::measure::cells;
use crate::layout::measure::cells_additive;
use crate::layout::measure::char_cells;
use crate::layout::measure::clusters_make_up_the_string;
use crate::layout::measure::grapheme_clusters;
use crate::layout::overflow::lemma_coalesced_text;
use crate::layout::overflow::lemma_concat_first;
use crate::layout::overflow::lemma_text_narrow;
use crate::layout::overflow::padded_text_fills;
use crate::layout::overflow::text_fits;
use crate::layout::show_laws::ink;
use crate::layout::show_laws::lemma_ink_add;
use crate::layout::show_laws::lemma_ink_spaces;
use crate::layout::show_laws::lemma_string_ink;
use crate::layout::show_laws::lemma_text_ink;
use crate::layout::show_laws::lemma_wrapped_ink;
use crate::layout::show_laws::lines_ink;
use crate::layout::table::body_lines;
use crate::layout::table::border;
use crate::layout::table::cell_line;
use crate::layout::table::cell_lines;
use crate::layout::table::cell_opts;
use crate::layout::table::cell_text;
use crate::layout::table::grid_lines;
use crate::layout::table::padded;
use crate::layout::table::row_cells;
use crate::layout::table::row_line_to;
use crate::layout::table::row_lines;
use crate::layout::table::tallest;
use crate::layout::table::texts_of;
use crate::layout::types::KindModel;
use crate::text::concat_all;
use crate::text::spaces;

verus! {

/// Text that fits is not cut.
proof fn lemma_fits_all(parts: Seq<Seq<char>>, width: nat, ambiguous_wide: bool)
    requires
        cells(concat_all(parts), ambiguous_wide) <= width,
    ensures
        fitting(parts, width, ambiguous_wide) == parts.len(),
    decreases parts.len(),
{
    if parts.len() > 0 {
        lemma_concat_first(parts);
        let rest = parts.drop_first();
        cells_additive(parts[0], concat_all(rest), ambiguous_wide);
        lemma_fits_all(rest, (width - cells(parts[0], ambiguous_wide)) as nat, ambiguous_wide);
    }
}

pub proof fn lemma_not_cut(s: Seq<char>, width: nat, ambiguous_wide: bool)
    requires
        cells(s, ambiguous_wide) <= width,
    ensures
        truncated(s, width, ambiguous_wide) == s,
{
    let parts = grapheme_clusters(s);
    clusters_make_up_the_string(s);
    lemma_fits_all(parts, width, ambiguous_wide);
    assert(parts.take(parts.len() as int) =~= parts);
}

proof fn lemma_line_within(line: Seq<ClusterModel>, w: nat, ambiguous_wide: bool)
    requires
        line_fits(line, w, ambiguous_wide),
    ensures
        cells(clusters_text(line), ambiguous_wide) <= w,
{
    lemma_coalesced_text(line, ambiguous_wide);
    lemma_coalesced_cells(line, ambiguous_wide);
}

pub proof fn lemma_texts_ink(lines: Seq<Seq<ClusterModel>>, but: Seq<char>)
    ensures
        ink(concat_all(texts_of(lines)), but) == lines_ink(lines, but),
    decreases lines.len(),
{
    if lines.len() > 0 {
        let front = lines.drop_last();
        lemma_texts_ink(front, but);
        assert(texts_of(lines).drop_last() =~= texts_of(front));
        lemma_text_ink(lines.last(), but);
        lemma_ink_add(concat_all(texts_of(front)), clusters_text(lines.last()), but);
    }
}

/// A cell's lines hold its text, and each is within its width.
pub proof fn lemma_cell(text: Seq<char>, w: nat, ambiguous_wide: bool, but: Seq<char>)
    requires
        w >= 1,
        text_fits(text, w, ambiguous_wide),
    ensures
        ink(concat_all(cell_lines(text, w, ambiguous_wide)), but) == ink(text, but),
        cell_lines(text, w, ambiguous_wide).len() >= 1,
        forall|h: int|
            0 <= h < cell_lines(text, w, ambiguous_wide).len() ==> cells(
                #[trigger] cell_lines(text, w, ambiguous_wide)[h],
                ambiguous_wide,
            ) <= w,
{
    let content = clusters_in(text, KindModel::Table, ambiguous_wide);
    let lines = wrapped(content, at_least_one(w), cell_opts());
    lemma_text_narrow(text, KindModel::Table, w, ambiguous_wide);
    wrapped_lines_fit(content, at_least_one(w), w, cell_opts(), ambiguous_wide);
    lemma_string_ink(text, KindModel::Table, ambiguous_wide, but);
    lemma_wrapped_ink(content, at_least_one(w), cell_opts(), but);
    lemma_texts_ink(lines, but);
    let out = cell_lines(text, w, ambiguous_wide);
    if lines.len() == 0 {
        reveal_with_fuel(concat_all, 2);
        assert(out.drop_last() =~= Seq::empty());
        assert(concat_all(out) =~= Seq::empty());
        assert(texts_of(lines) =~= Seq::empty());
    } else {
        assert forall|h: int| 0 <= h < out.len() implies cells(#[trigger] out[h], ambiguous_wide)
            <= w by {
            assert(line_fits(lines[h], w, ambiguous_wide));
            lemma_line_within(lines[h], w, ambiguous_wide);
        }
    }
}

/// Padded lines show what the lines show.
pub proof fn lemma_padded_ink(
    cell: Seq<Seq<char>>,
    w: nat,
    n: int,
    ambiguous_wide: bool,
    but: Seq<char>,
)
    requires
        0 <= n,
        forall|h: int| 0 <= h < cell.len() ==> cells(#[trigger] cell[h], ambiguous_wide) <= w,
    ensures
        ink(
            concat_all(
                Seq::new(n as nat, |h: int| padded(cell_line(cell, h), w, ambiguous_wide)),
            ),
            but,
        ) == ink(
            concat_all(
                cell.take(
                    if n <= cell.len() {
                        n
                    } else {
                        cell.len() as int
                    },
                ),
            ),
            but,
        ),
    decreases n,
{
    let all = Seq::new(n as nat, |h: int| padded(cell_line(cell, h), w, ambiguous_wide));
    if n == 0 {
        assert(all =~= Seq::empty());
        assert(cell.take(0) =~= Seq::empty());
    } else {
        lemma_padded_ink(cell, w, n - 1, ambiguous_wide, but);
        let front = Seq::new(
            (n - 1) as nat,
            |h: int| padded(cell_line(cell, h), w, ambiguous_wide),
        );
        assert(all.drop_last() =~= front);
        let line = cell_line(cell, n - 1);
        assert(cells(Seq::<char>::empty(), ambiguous_wide) == 0);
        lemma_not_cut(line, w, ambiguous_wide);
        let gap = spaces((w - cells(line, ambiguous_wide)) as nat);
        lemma_ink_add(concat_all(front), line + gap, but);
        lemma_ink_add(line, gap, but);
        lemma_ink_spaces((w - cells(line, ambiguous_wide)) as nat, but);
        if n <= cell.len() {
            assert(cell.take(n).drop_last() =~= cell.take(n - 1));
            lemma_ink_add(concat_all(cell.take(n - 1)), line, but);
            assert(ink(line + gap, but) =~= ink(line, but));
        } else {
            assert(ink(line + gap, but) =~= Seq::empty());
            assert(ink(concat_all(front), but) + ink(line + gap, but) =~= ink(
                concat_all(front),
                but,
            ));
        }
    }
}

/// The cells before column `c`: the opening bar, and for each column before it
/// its width, two spaces and a bar.
pub open spec fn column_start(widths: Seq<usize>, c: int, bar: nat) -> nat
    decreases c,
{
    if c <= 0 {
        bar
    } else {
        column_start(widths, c - 1, bar) + widths[c - 1] as nat + 2 + bar
    }
}

/// The line holds the piece `start` cells from its left edge.
pub open spec fn holds_at(line: Seq<char>, start: nat, piece: Seq<char>, ambiguous_wide: bool)
    -> bool {
    exists|left: Seq<char>, right: Seq<char>|
        #![trigger left + piece + right]
        line == left + piece + right && cells(left, ambiguous_wide) == start
}

proof fn lemma_line_start(
    row: Seq<Seq<Seq<char>>>,
    widths: Seq<usize>,
    h: int,
    c: int,
    ambiguous_wide: bool,
)
    requires
        0 <= c <= widths.len(),
    ensures
        cells(row_line_to(row, widths, h, c, ambiguous_wide), ambiguous_wide) == column_start(
            widths,
            c,
            char_cells('│', ambiguous_wide),
        ),
    decreases c,
{
    let aw = ambiguous_wide;
    lemma_one_char('│', aw);
    lemma_one_char(' ', aw);
    if c > 0 {
        lemma_line_start(row, widths, h, c - 1, aw);
        let before = row_line_to(row, widths, h, c - 1, aw);
        let w = widths[c - 1] as nat;
        let piece = padded(cell_line(row[c - 1], h), w, aw);
        padded_text_fills(cell_line(row[c - 1], h), w, aw);
        cells_additive(before, seq![' '], aw);
        cells_additive(before + seq![' '], piece, aw);
        cells_additive(before + seq![' '] + piece, seq![' ', '│'], aw);
        assert(seq![' ', '│'] =~= seq![' '] + seq!['│']);
        cells_additive(seq![' '], seq!['│'], aw);
    }
}

proof fn lemma_line_holds(
    row: Seq<Seq<Seq<char>>>,
    widths: Seq<usize>,
    h: int,
    c: int,
    n: int,
    ambiguous_wide: bool,
)
    requires
        0 <= c < n <= widths.len(),
    ensures
        holds_at(
            row_line_to(row, widths, h, n, ambiguous_wide),
            column_start(widths, c, char_cells('│', ambiguous_wide)) + 1,
            padded(cell_line(row[c], h), widths[c] as nat, ambiguous_wide),
            ambiguous_wide,
        ),
    decreases n,
{
    let aw = ambiguous_wide;
    let start = column_start(widths, c, char_cells('│', aw)) + 1;
    let piece = padded(cell_line(row[c], h), widths[c] as nat, aw);
    let line = row_line_to(row, widths, h, n, aw);
    let before = row_line_to(row, widths, h, n - 1, aw);
    if c == n - 1 {
        lemma_line_start(row, widths, h, c, aw);
        lemma_one_char(' ', aw);
        cells_additive(before, seq![' '], aw);
        let left = before + seq![' '];
        assert(line == left + piece + seq![' ', '│']);
    } else {
        lemma_line_holds(row, widths, h, c, n - 1, aw);
        let (left, right) = choose|left: Seq<char>, right: Seq<char>|
            #![trigger left + piece + right]
            before == left + piece + right && cells(left, aw) == start;
        let more = seq![' '] + padded(cell_line(row[n - 1], h), widths[n - 1] as nat, aw) + seq![
            ' ',
            '│',
        ];
        assert(line =~= left + piece + (right + more));
    }
}

proof fn lemma_tallest(row: Seq<Seq<Seq<char>>>, c: int)
    requires
        0 <= c < row.len(),
    ensures
        row[c].len() <= tallest(row),
    decreases row.len(),
{
    if c < row.len() - 1 {
        lemma_tallest(row.drop_last(), c);
    }
}

/// The lines hold the pieces, one each, `start` cells from the left edge.
pub open spec fn hold_at(
    lines: Seq<Seq<char>>,
    at: int,
    start: nat,
    pieces: Seq<Seq<char>>,
    ambiguous_wide: bool,
) -> bool {
    &&& 0 <= at
    &&& at + pieces.len() <= lines.len()
    &&& forall|h: int|
        0 <= h < pieces.len() ==> holds_at(
            #[trigger] lines[at + h],
            start,
            pieces[h],
            ambiguous_wide,
        )
}

proof fn lemma_row_holds(
    row: Seq<TableCell>,
    first: int,
    widths: Seq<usize>,
    c: int,
    ambiguous_wide: bool,
    but: Seq<char>,
) -> (pieces: Seq<Seq<char>>)
    requires
        0 <= c < widths.len(),
        widths[c] >= 1,
        text_fits(cell_text(row, first + c), widths[c] as nat, ambiguous_wide),
    ensures
        pieces.len() == row_lines(row, first, widths, ambiguous_wide).len(),
        hold_at(
            row_lines(row, first, widths, ambiguous_wide),
            0,
            column_start(widths, c, char_cells('│', ambiguous_wide)) + 1,
            pieces,
            ambiguous_wide,
        ),
        forall|h: int|
            0 <= h < pieces.len() ==> cells(#[trigger] pieces[h], ambiguous_wide) == widths[c],
        ink(concat_all(pieces), but) == ink(cell_text(row, first + c), but),
{
    let aw = ambiguous_wide;
    let model = row_cells(row, first, widths, aw);
    let lines = row_lines(row, first, widths, aw);
    let n = tallest(model) as int;
    let w = widths[c] as nat;
    let pieces = Seq::new(n as nat, |h: int| padded(cell_line(model[c], h), w, aw));
    lemma_cell(cell_text(row, first + c), w, aw, but);
    lemma_tallest(model, c);
    lemma_padded_ink(model[c], w, n, aw, but);
    assert(model[c].take(model[c].len() as int) =~= model[c]);
    assert forall|h: int| 0 <= h < pieces.len() implies holds_at(
        #[trigger] lines[0 + h],
        column_start(widths, c, char_cells('│', aw)) + 1,
        pieces[h],
        aw,
    ) by {
        lemma_line_holds(model, widths, h, c, widths.len() as int, aw);
    }
    assert forall|h: int| 0 <= h < pieces.len() implies cells(#[trigger] pieces[h], aw)
        == widths[c] by {
        padded_text_fills(cell_line(model[c], h), w, aw);
    }
    pieces
}

/// Where the first `n` rows of a grid stand, and what they hold in column `c`.
pub open spec fn column_shows(
    lines: Seq<Seq<char>>,
    table: Table,
    n: int,
    column: int,
    start: nat,
    w: nat,
    ats: Seq<int>,
    pieces: Seq<Seq<Seq<char>>>,
    ambiguous_wide: bool,
    but: Seq<char>,
) -> bool {
    &&& ats.len() == n
    &&& pieces.len() == n
    &&& forall|r: int|
        0 <= r < n ==> {
            &&& hold_at(lines, #[trigger] ats[r], start, pieces[r], ambiguous_wide)
            &&& forall|h: int|
                0 <= h < pieces[r].len() ==> cells(#[trigger] pieces[r][h], ambiguous_wide) == w
            &&& ink(concat_all(pieces[r]), but) == ink(cell_text(table.rows@[r]@, column), but)
        }
    &&& forall|q: int, r: int|
        0 <= q < r < n ==> #[trigger] ats[q] + pieces[q].len() <= #[trigger] ats[r]
}

pub proof fn lemma_longer(
    lines: Seq<Seq<char>>,
    more: Seq<Seq<char>>,
    at: int,
    start: nat,
    pieces: Seq<Seq<char>>,
    ambiguous_wide: bool,
)
    requires
        hold_at(lines, at, start, pieces, ambiguous_wide),
    ensures
        hold_at(lines + more, at, start, pieces, ambiguous_wide),
{
    assert forall|h: int| 0 <= h < pieces.len() implies holds_at(
        #[trigger] (lines + more)[at + h],
        start,
        pieces[h],
        ambiguous_wide,
    ) by {
        assert(holds_at(lines[at + h], start, pieces[h], ambiguous_wide));
    }
}

pub proof fn lemma_later(
    before: Seq<Seq<char>>,
    lines: Seq<Seq<char>>,
    at: int,
    start: nat,
    pieces: Seq<Seq<char>>,
    ambiguous_wide: bool,
)
    requires
        hold_at(lines, at, start, pieces, ambiguous_wide),
    ensures
        hold_at(before + lines, before.len() + at, start, pieces, ambiguous_wide),
{
    let all = before + lines;
    assert forall|h: int| 0 <= h < pieces.len() implies holds_at(
        #[trigger] all[before.len() + at + h],
        start,
        pieces[h],
        ambiguous_wide,
    ) by {
        assert(all[before.len() + at + h] == lines[at + h]);
        assert(holds_at(lines[at + h], start, pieces[h], ambiguous_wide));
    }
}

#[verifier::spinoff_prover]
#[verifier::rlimit(40)]
proof fn lemma_body_holds(
    table: Table,
    first: int,
    widths: Seq<usize>,
    n: int,
    c: int,
    ambiguous_wide: bool,
    but: Seq<char>,
) -> (r: (Seq<int>, Seq<Seq<Seq<char>>>))
    requires
        0 <= n <= table.rows@.len(),
        0 <= c < widths.len(),
        widths[c] >= 1,
        forall|q: int|
            0 <= q < n ==> text_fits(
                cell_text((#[trigger] table.rows@[q])@, first + c),
                widths[c] as nat,
                ambiguous_wide,
            ),
    ensures
        column_shows(
            body_lines(table, first, widths, n, ambiguous_wide),
            table,
            n,
            first + c,
            column_start(widths, c, char_cells('│', ambiguous_wide)) + 1,
            widths[c] as nat,
            r.0,
            r.1,
            ambiguous_wide,
            but,
        ),
    decreases n,
{
    let aw = ambiguous_wide;
    let start = column_start(widths, c, char_cells('│', aw)) + 1;
    let lines = body_lines(table, first, widths, n, aw);
    if n == 0 {
        (Seq::empty(), Seq::empty())
    } else {
        let (ats, pieces) = lemma_body_holds(table, first, widths, n - 1, c, aw, but);
        let before = body_lines(table, first, widths, n - 1, aw);
        let row = table.rows@[n - 1]@;
        let own = row_lines(row, first, widths, aw);
        let mine = lemma_row_holds(row, first, widths, c, aw, but);
        let tail = lines.skip((before.len() + own.len()) as int);
        assert(lines =~= before + own + tail);
        lemma_later(before, own, 0, start, mine, aw);
        lemma_longer(before + own, tail, before.len() as int, start, mine, aw);
        let all_ats = ats.push(before.len() as int);
        let all_pieces = pieces.push(mine);
        assert forall|r: int| 0 <= r < n implies {
            &&& hold_at(lines, #[trigger] all_ats[r], start, all_pieces[r], aw)
            &&& forall|h: int|
                0 <= h < all_pieces[r].len() ==> cells(#[trigger] all_pieces[r][h], aw)
                    == widths[c]
            &&& ink(concat_all(all_pieces[r]), but) == ink(
                cell_text(table.rows@[r]@, first + c),
                but,
            )
        } by {
            if r < n - 1 {
                assert(all_ats[r] == ats[r] && all_pieces[r] == pieces[r]);
                lemma_longer(before, own, ats[r], start, pieces[r], aw);
                lemma_longer(before + own, tail, ats[r], start, pieces[r], aw);
            }
        }
        assert forall|q: int, r: int| 0 <= q < r < n implies #[trigger] all_ats[q]
            + all_pieces[q].len() <= #[trigger] all_ats[r] by {
            assert(hold_at(before, ats[q], start, pieces[q], aw));
            if r < n - 1 {
                assert(ats[q] + pieces[q].len() <= ats[r]);
            }
        }
        (all_ats, all_pieces)
    }
}

/// A grid shows its cells: read from top to bottom, column `c` holds the text
/// of each row's cell, whole, one row under the other, at the column's own
/// place in every line and within its width. Whitespace aside; a column is
/// wide enough where no cluster of its texts is wider.
#[verifier::spinoff_prover]
#[verifier::rlimit(40)]
pub proof fn a_grid_shows_every_cell(
    table: Table,
    first: int,
    widths: Seq<usize>,
    c: int,
    ambiguous_wide: bool,
    but: Seq<char>,
) -> (r: (Seq<int>, Seq<Seq<Seq<char>>>))
    requires
        0 <= c < widths.len(),
        widths[c] >= 1,
        forall|q: int|
            0 <= q < table.rows@.len() ==> text_fits(
                cell_text((#[trigger] table.rows@[q])@, first + c),
                widths[c] as nat,
                ambiguous_wide,
            ),
    ensures
        column_shows(
            grid_lines(table, first, widths, ambiguous_wide),
            table,
            table.rows@.len() as int,
            first + c,
            column_start(widths, c, char_cells('│', ambiguous_wide)) + 1,
            widths[c] as nat,
            r.0,
            r.1,
            ambiguous_wide,
            but,
        ),
{
    let aw = ambiguous_wide;
    let n = table.rows@.len() as int;
    let start = column_start(widths, c, char_cells('│', aw)) + 1;
    let (ats, pieces) = lemma_body_holds(table, first, widths, n, c, aw, but);
    let top = seq![border(widths, '┌', '┬', '┐', aw)];
    let body = body_lines(table, first, widths, n, aw);
    let lines = grid_lines(table, first, widths, aw);
    let tail = lines.skip((top.len() + body.len()) as int);
    assert(lines =~= top + body + tail);
    let moved = Seq::new(n as nat, |r: int| ats[r] + 1);
    assert forall|r: int| 0 <= r < n implies {
        &&& hold_at(lines, #[trigger] moved[r], start, pieces[r], aw)
        &&& forall|h: int|
            0 <= h < pieces[r].len() ==> cells(#[trigger] pieces[r][h], aw) == widths[c]
        &&& ink(concat_all(pieces[r]), but) == ink(cell_text(table.rows@[r]@, first + c), but)
    } by {
        assert(hold_at(body, ats[r], start, pieces[r], aw));
        lemma_later(top, body, ats[r], start, pieces[r], aw);
        lemma_longer(top + body, tail, moved[r], start, pieces[r], aw);
    }
    assert forall|q: int, r: int| 0 <= q < r < n implies #[trigger] moved[q] + pieces[q].len()
        <= #[trigger] moved[r] by {
        assert(ats[q] + pieces[q].len() <= ats[r]);
    }
    (moved, pieces)
}

} // verus!
