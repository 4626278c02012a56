//! Infoboxes as bordered cards.
use vstd::prelude::*;

use crate::layout::measure::cells;
use crate::layout::measure::cells_additive;
use crate::layout::measure::char_cells;
use crate::layout::measure::lemma_cells_spaces;
use crate::layout::table::cell_lines;
use crate::layout::table::dashes;
use crate::layout::table::glyph_cells;
use crate::layout::table::glyph_width;
use crate::layout::table::max_nat;
use crate::layout::table::pad_to_width;
use crate::layout::table::padded;
use crate::layout::table::push_dashes;
use crate::layout::table::wrap_cell_text;
use crate::text::run_of;
use crate::text::spaces;
use crate::text::views;

verus! {

/// The width of a card, and the most a card takes.
pub const INFOBOX_CARD_WIDTH: usize = 40;

/// The narrowest lead column that stays beside a floated card.
pub const MIN_LEAD_WIDTH: usize = 30;

/// The cells between the lead column and a floated card.
pub const INFOBOX_FLOAT_GAP: usize = 2;

/// `a - b`, or 0 where that is negative.
pub open spec fn minus(a: nat, b: nat) -> nat {
    if a >= b {
        (a - b) as nat
    } else {
        0
    }
}

/// The cells inside a card's borders and padding.
pub open spec fn card_inner(box_w: nat, ambiguous_wide: bool) -> nat {
    minus(box_w, 2 * glyph_cells('│', ambiguous_wide) + 2)
}

fn inner_width(box_w: usize, ambiguous_wide: bool) -> (r: usize)
    ensures
        r as nat == card_inner(box_w as nat, ambiguous_wide),
{
    let bar: usize = glyph_width('│', ambiguous_wide);
    box_w.saturating_sub(2 * bar + 2)
}

/// One content line of a card.
pub open spec fn card_line(content: Seq<char>, box_w: nat, ambiguous_wide: bool) -> Seq<char> {
    seq!['│', ' '] + padded(content, card_inner(box_w, ambiguous_wide), ambiguous_wide) + seq![
        ' ',
        '│',
    ]
}

/// One content line of a card: the text cut or filled up between the borders.
pub fn card_content_line(content: &str, box_w: usize, ambiguous_wide: bool) -> (r: String)
    ensures
        r@ == card_line(content@, box_w as nat, ambiguous_wide),
{
    let inner: usize = inner_width(box_w, ambiguous_wide);
    let mut out = String::new();
    out.push('│');
    out.push(' ');
    assert(out@ =~= seq!['│', ' ']);
    let text = pad_to_width(content, inner, ambiguous_wide);
    out.push_str(text.as_str());
    let ghost mid = out@;
    out.push(' ');
    out.push('│');
    assert(out@ =~= mid + seq![' ', '│']);
    out
}

/// One border of a card.
pub open spec fn card_border(left: char, right: char, box_w: nat, ambiguous_wide: bool) -> Seq<
    char,
> {
    (seq![left] + dashes(minus(box_w, 2 * glyph_cells(left, ambiguous_wide)), ambiguous_wide)).push(
        right,
    )
}

/// One border of a card.
pub fn card_border_line(left: char, right: char, box_w: usize, ambiguous_wide: bool) -> (r: String)
    ensures
        r@ == card_border(left, right, box_w as nat, ambiguous_wide),
{
    let corner: usize = glyph_width(left, ambiguous_wide);
    let mut out = String::new();
    out.push(left);
    assert(out@ =~= seq![left]);
    push_dashes(&mut out, box_w.saturating_sub(2 * corner), ambiguous_wide);
    out.push(right);
    out
}

/// A row's text: "label: value", or the bare value of a row without a label.
pub open spec fn row_text(row: (String, String)) -> Seq<char> {
    if row.0@.len() == 0 {
        row.1@
    } else {
        row.0@ + ": "@ + row.1@
    }
}

/// Card lines for lines of text.
pub open spec fn boxed(lines: Seq<Seq<char>>, box_w: nat, ambiguous_wide: bool) -> Seq<Seq<char>> {
    lines.map_values(|l: Seq<char>| card_line(l, box_w, ambiguous_wide))
}

/// The lines of the first `n` rows, with the rule under a leading title row.
pub open spec fn card_rows(
    rows: Seq<(String, String)>,
    n: int,
    box_w: nat,
    ambiguous_wide: bool,
) -> Seq<Seq<char>>
    decreases n,
{
    if n <= 0 {
        Seq::empty()
    } else {
        let inner = max_nat(card_inner(box_w, ambiguous_wide), 1);
        let lines = card_rows(rows, n - 1, box_w, ambiguous_wide) + boxed(
            cell_lines(row_text(rows[n - 1]), inner, ambiguous_wide),
            box_w,
            ambiguous_wide,
        );
        if n == 1 && rows[0].0@.len() == 0 && rows.len() > 1 {
            lines.push(card_border('├', '┤', box_w, ambiguous_wide))
        } else {
            lines
        }
    }
}

/// The lines of a card: a border, the rows, a border.
pub open spec fn card_lines(rows: Seq<(String, String)>, box_w: nat, ambiguous_wide: bool) -> Seq<
    Seq<char>,
> {
    (seq![card_border('┌', '┐', box_w, ambiguous_wide)] + card_rows(
        rows,
        rows.len() as int,
        box_w,
        ambiguous_wide,
    )).push(card_border('└', '┘', box_w, ambiguous_wide))
}

/// Renders label and value rows as the lines of a card `box_w` cells wide.
pub fn infobox_card_lines(rows: &Vec<(String, String)>, box_w: usize, ambiguous_wide: bool) -> (r:
    Vec<String>)
    requires
        box_w < usize::MAX,
    ensures
        views(r@) == card_lines(rows@, box_w as nat, ambiguous_wide),
{
    let inner: usize = inner_width(box_w, ambiguous_wide);
    let inner: usize = if inner < 1 {
        1
    } else {
        inner
    };
    let mut out: Vec<String> = Vec::new();
    out.push(card_border_line('┌', '┐', box_w, ambiguous_wide));
    let ghost top = views(out@);
    proof {
        assert(top =~= seq![card_border('┌', '┐', box_w as nat, ambiguous_wide)]);
        assert(top + Seq::<Seq<char>>::empty() =~= top);
    }
    let n: usize = rows.len();
    for i in 0..n
        invariant
            n == rows.len(),
            inner < usize::MAX,
            inner as nat == max_nat(card_inner(box_w as nat, ambiguous_wide), 1),
            views(out@) == top + card_rows(rows@, i as int, box_w as nat, ambiguous_wide),
    {
        let ghost before = card_rows(rows@, i as int, box_w as nat, ambiguous_wide);
        let mut text = String::new();
        if !rows[i].0.as_str().is_empty() {
            text.push_str(rows[i].0.as_str());
            text.push_str(": ");
        }
        text.push_str(rows[i].1.as_str());
        proof { assert(text@ =~= row_text(rows@[i as int])); }
        let lines = wrap_cell_text(text.as_str(), inner, ambiguous_wide);
        let ghost more = boxed(views(lines@), box_w as nat, ambiguous_wide);
        let ghost base = views(out@);
        let m: usize = lines.len();
        for j in 0..m
            invariant
                m == lines.len(),
                more == boxed(views(lines@), box_w as nat, ambiguous_wide),
                views(out@) == base + more.take(j as int),
        {
            let ghost pre = out@;
            out.push(card_content_line(lines[j].as_str(), box_w, ambiguous_wide));
            proof {
                assert(views(out@) =~= views(pre).push(out@.last()@));
                assert(more.take(j + 1) =~= more.take(j as int).push(more[j as int]));
            }
        }
        proof {
            assert(more.take(m as int) =~= more);
            assert(top + before + more =~= top + (before + more));
        }
        if i == 0 && rows[i].0.as_str().is_empty() && n > 1 {
            let ghost pre = out@;
            out.push(card_border_line('├', '┤', box_w, ambiguous_wide));
            proof {
                assert(views(out@) =~= views(pre).push(out@.last()@));
                assert((top + (before + more)).push(out@.last()@) =~= top + (before + more).push(
                    out@.last()@,
                ));
            }
        }
    }
    let ghost pre = out@;
    out.push(card_border_line('└', '┘', box_w, ambiguous_wide));
    proof { assert(views(out@) =~= views(pre).push(out@.last()@)); }
    out
}

/// One character takes its own cells.
pub proof fn lemma_one_char(c: char, ambiguous_wide: bool)
    ensures
        cells(seq![c], ambiguous_wide) == char_cells(c, ambiguous_wide),
{
    assert(seq![c].drop_last() =~= Seq::empty());
    reveal_with_fuel(cells, 2);
}

/// Dashes fill the cells they are given, where the dash is drawn at all.
pub proof fn dashes_fill_their_cells(n: nat, ambiguous_wide: bool)
    requires
        char_cells('─', ambiguous_wide) >= 1,
    ensures
        cells(dashes(n, ambiguous_wide), ambiguous_wide) == n,
{
    let d = glyph_cells('─', ambiguous_wide);
    let count = n / d;
    vstd::arithmetic::div_mod::lemma_fundamental_div_mod(n as int, d as int);
    assert(d * count == count * d) by (nonlinear_arith);
    lemma_run_cells('─', count, ambiguous_wide);
    lemma_cells_spaces((n - count * d) as nat, ambiguous_wide);
    cells_additive(run_of('─', count), spaces((n - count * d) as nat), ambiguous_wide);
}

/// A run of one character takes its cells as often.
pub proof fn lemma_run_cells(c: char, n: nat, ambiguous_wide: bool)
    ensures
        cells(run_of(c, n), ambiguous_wide) == n * char_cells(c, ambiguous_wide),
    decreases n,
{
    if n > 0 {
        lemma_run_cells(c, (n - 1) as nat, ambiguous_wide);
        assert(run_of(c, n).drop_last() =~= run_of(c, (n - 1) as nat));
        let k = char_cells(c, ambiguous_wide);
        assert(n * k == (n - 1) * k + k) by (nonlinear_arith);
    } else {
        assert(0 * char_cells(c, ambiguous_wide) == 0) by (nonlinear_arith);
    }
}

} // verus!
