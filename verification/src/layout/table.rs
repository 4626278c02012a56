//! Tables as box-drawing grids.
use vstd::prelude::*;

use crate::doc::Table;
use crate::doc::TableCell;
use crate::layout::cluster::clusters_from_str;
use crate::layout::cluster::clusters_in;
use crate::layout::cluster::clusters_text;
use crate::layout::cluster::text_of;
use crate::layout::cluster::ClusterModel;
use crate::layout::fill::at_least_one;
use crate::layout::fill::line_models;
use crate::layout::line::truncate_to_width;
use crate::layout::line::truncated;
use crate::layout::line::wrap_content;
use crate::layout::line::wrapped;
use crate::layout::measure::cells;
use crate::layout::measure::cells_additive;
use crate::layout::measure::char_cells;
use crate::layout::measure::display_width;
use crate::layout::measure::lemma_cells_spaces;
use crate::layout::types::KindModel;
use crate::layout::types::SpanKind;
use crate::layout::wrap::WrapOpts;
use crate::text::repeat_char;
use crate::text::run_of;
use crate::text::spaces;
use crate::text::views;

verus! {

/// The narrowest column that is still drawn.
pub const MIN_COL_WIDTH: usize = 8;

/// A column is never wider than this; longer cells wrap.
pub const MAX_COL_WIDTH: usize = 40;

/// How a table is drawn: as a list, or as a grid of the columns from
/// `first_col` on, one for each of `widths`.
#[derive(Debug, Clone, PartialEq, Eq)]
pub enum TablePlan {
    Collapse,
    Grid { first_col: usize, widths: Vec<usize> },
}

/// A plan, with the widths as a sequence.
#[verifier::ext_equal]
pub enum PlanModel {
    Collapse,
    Grid { first_col: nat, widths: Seq<usize> },
}

impl View for TablePlan {
    type V = PlanModel;

    open spec fn view(&self) -> PlanModel {
        match *self {
            TablePlan::Collapse => PlanModel::Collapse,
            TablePlan::Grid { first_col, widths } => PlanModel::Grid {
                first_col: first_col as nat,
                widths: widths@,
            },
        }
    }
}

/// The larger of two numbers.
pub open spec fn max_nat(a: nat, b: nat) -> nat {
    if a >= b {
        a
    } else {
        b
    }
}

/// The smaller of two numbers.
pub open spec fn min_nat(a: nat, b: nat) -> nat {
    if a <= b {
        a
    } else {
        b
    }
}

/// The width of a glyph that is drawn: one cell at least.
pub open spec fn glyph_cells(c: char, ambiguous_wide: bool) -> nat {
    max_nat(char_cells(c, ambiguous_wide), 1)
}

/// The width of a glyph that is drawn.
pub fn glyph_width(c: char, ambiguous_wide: bool) -> (r: usize)
    ensures
        r as nat == glyph_cells(c, ambiguous_wide),
        1 <= r <= 2,
{
    let mut s = String::new();
    s.push(c);
    proof {
        assert(s@ =~= seq![c]);
        assert(s@.drop_last() =~= Seq::empty());
        reveal_with_fuel(cells, 2);
    }
    let w: usize = display_width(s.as_str(), ambiguous_wide);
    if w < 1 {
        1
    } else {
        w
    }
}

/// The natural width of column `c`: its widest cell, capped, one at least.
pub open spec fn natural_width(rows: Seq<Vec<TableCell>>, c: int, ambiguous_wide: bool) -> nat
    decreases rows.len(),
{
    if rows.len() == 0 {
        1
    } else {
        let before = natural_width(rows.drop_last(), c, ambiguous_wide);
        let row = rows.last()@;
        if c < row.len() {
            max_nat(before, min_nat(cells(row[c].text@, ambiguous_wide), MAX_COL_WIDTH as nat))
        } else {
            before
        }
    }
}

/// A natural width lies between one cell and the cap.
pub proof fn lemma_natural_width(rows: Seq<Vec<TableCell>>, c: int, ambiguous_wide: bool)
    ensures
        1 <= natural_width(rows, c, ambiguous_wide) <= MAX_COL_WIDTH,
    decreases rows.len(),
{
    if rows.len() > 0 {
        lemma_natural_width(rows.drop_last(), c, ambiguous_wide);
    }
}

/// The natural width of each column.
pub fn natural_col_widths(table: &Table, ambiguous_wide: bool) -> (r: Vec<usize>)
    ensures
        r@.len() == table.col_count(),
        forall|c: int|
            0 <= c < r@.len() ==> (#[trigger] r@[c]) as nat == natural_width(
                table.rows@,
                c,
                ambiguous_wide,
            ),
        forall|c: int| 0 <= c < r@.len() ==> 1 <= #[trigger] r@[c] <= MAX_COL_WIDTH,
{
    let cols: usize = table.cols();
    let n: usize = table.rows.len();
    let mut out: Vec<usize> = Vec::new();
    for c in 0..cols
        invariant
            n == table.rows.len(),
            out@.len() == c,
            forall|k: int|
                0 <= k < c ==> (#[trigger] out@[k]) as nat == natural_width(
                    table.rows@,
                    k,
                    ambiguous_wide,
                ),
            forall|k: int| 0 <= k < c ==> 1 <= #[trigger] out@[k] <= MAX_COL_WIDTH,
    {
        let mut best: usize = 1;
        for i in 0..n
            invariant
                n == table.rows.len(),
                best as nat == natural_width(table.rows@.take(i as int), c as int, ambiguous_wide),
        {
            proof {
                assert(table.rows@.take(i + 1).drop_last() =~= table.rows@.take(i as int));
            }
            if c < table.rows[i].len() {
                let full: usize = display_width(table.rows[i][c].text.as_str(), ambiguous_wide);
                let w: usize = if full < MAX_COL_WIDTH {
                    full
                } else {
                    MAX_COL_WIDTH
                };
                if w > best {
                    best = w;
                }
            }
        }
        proof {
            assert(table.rows@.take(n as int) =~= table.rows@);
            lemma_natural_width(table.rows@, c as int, ambiguous_wide);
        }
        out.push(best);
    }
    out
}

/// The total width of a grid: a cell is its content, two spaces and a border,
/// and one more border opens the row.
pub open spec fn grid_cells(widths: Seq<usize>, v: nat) -> nat
    decreases widths.len(),
{
    if widths.len() == 0 {
        v
    } else {
        grid_cells(widths.drop_last(), v) + widths.last() as nat + 2 + v
    }
}

/// The total width of a grid with borders `v` cells wide.
pub fn grid_width(widths: &Vec<usize>, v: usize) -> (r: usize)
    requires
        grid_cells(widths@, v as nat) <= usize::MAX,
    ensures
        r as nat == grid_cells(widths@, v as nat),
{
    let mut sum: usize = v;
    let n: usize = widths.len();
    for i in 0..n
        invariant
            n == widths.len(),
            grid_cells(widths@, v as nat) <= usize::MAX,
            sum as nat == grid_cells(widths@.take(i as int), v as nat),
    {
        proof {
            assert(widths@.take(i + 1).drop_last() =~= widths@.take(i as int));
            lemma_grid_prefix(widths@, v as nat, i + 1);
        }
        sum = sum + widths[i] + 2 + v;
    }
    proof { assert(widths@.take(n as int) =~= widths@); }
    sum
}

proof fn lemma_grid_prefix(widths: Seq<usize>, v: nat, i: int)
    requires
        0 <= i <= widths.len(),
    ensures
        grid_cells(widths.take(i), v) <= grid_cells(widths, v),
    decreases widths.len(),
{
    if i == widths.len() {
        assert(widths.take(i) =~= widths);
    } else {
        lemma_grid_prefix(widths.drop_last(), v, i);
        assert(widths.drop_last().take(i) =~= widths.take(i));
    }
}

/// The sum of the widths, each capped.
pub open spec fn capped_sum(natural: Seq<usize>, cap: nat) -> nat
    decreases natural.len(),
{
    if natural.len() == 0 {
        0
    } else {
        capped_sum(natural.drop_last(), cap) + min_nat(natural.last() as nat, cap)
    }
}

fn sum_capped(natural: &Vec<usize>, cap: usize) -> (r: usize)
    ensures
        r as nat == capped_sum(natural@, cap as nat) || (r == usize::MAX && capped_sum(
            natural@,
            cap as nat,
        ) >= usize::MAX),
{
    let mut sum: usize = 0;
    let n: usize = natural.len();
    for i in 0..n
        invariant
            n == natural.len(),
            sum as nat == capped_sum(natural@.take(i as int), cap as nat) || (sum == usize::MAX
                && capped_sum(natural@.take(i as int), cap as nat) >= usize::MAX),
    {
        proof { assert(natural@.take(i + 1).drop_last() =~= natural@.take(i as int)); }
        let x: usize = if natural[i] <= cap {
            natural[i]
        } else {
            cap
        };
        sum = sum.saturating_add(x);
    }
    proof { assert(natural@.take(n as int) =~= natural@); }
    sum
}

/// The largest cap from `cap` down under which the columns fit the budget,
/// one at least.
pub open spec fn shared_cap(natural: Seq<usize>, budget: nat, cap: nat) -> nat
    decreases cap,
{
    if cap <= 1 || capped_sum(natural, cap) <= budget {
        cap
    } else {
        shared_cap(natural, budget, (cap - 1) as nat)
    }
}

/// Every column at its natural width, but no wider than the cap.
pub open spec fn capped(natural: Seq<usize>, cap: nat) -> Seq<usize> {
    natural.map_values(|x: usize| min_nat(x as nat, cap) as usize)
}

/// Fits the columns into `budget` cells of content: short columns keep their
/// width and the wide ones share one cap, as large as the budget allows.
pub fn shrink_to_budget(natural: &Vec<usize>, budget: usize) -> (r: Vec<usize>)
    requires
        budget < usize::MAX,
    ensures
        r@ == capped(natural@, shared_cap(natural@, budget as nat, MAX_COL_WIDTH as nat)),
{
    let mut cap: usize = MAX_COL_WIDTH;
    let mut fits = sum_capped(natural, cap) <= budget;
    while cap > 1 && !fits
        invariant
            1 <= cap <= MAX_COL_WIDTH,
            budget < usize::MAX,
            fits == (capped_sum(natural@, cap as nat) <= budget),
            shared_cap(natural@, budget as nat, MAX_COL_WIDTH as nat) == shared_cap(
                natural@,
                budget as nat,
                cap as nat,
            ),
        decreases cap,
    {
        cap = cap - 1;
        fits = sum_capped(natural, cap) <= budget;
    }
    let mut out: Vec<usize> = Vec::new();
    let n: usize = natural.len();
    for i in 0..n
        invariant
            n == natural.len(),
            out@ == capped(natural@, cap as nat).take(i as int),
    {
        out.push(
            if natural[i] <= cap {
                natural[i]
            } else {
                cap
            },
        );
        proof {
            let g = capped(natural@, cap as nat);
            assert(g.take(i + 1) =~= g.take(i as int).push(g[i as int]));
        }
    }
    proof {
        let g = capped(natural@, cap as nat);
        assert(g.take(n as int) =~= g);
    }
    out
}

/// The columns from `i` on that fit at their natural width once `used` cells
/// are taken.
pub open spec fn window(natural: Seq<usize>, i: int, used: nat, avail: nat, v: nat) -> Seq<usize>
    decreases natural.len() - i,
{
    if i < 0 || i >= natural.len() || used + natural[i] + 2 + v > avail {
        Seq::empty()
    } else {
        seq![natural[i]] + window(natural, i + 1, used + natural[i] as nat + 2 + v, avail, v)
    }
}

/// The cells left for content once the borders and padding of `n` columns are
/// drawn.
pub open spec fn content_budget(avail: nat, n: nat, v: nat) -> nat {
    if v + n * (2 + v) <= avail {
        (avail - (v + n * (2 + v))) as nat
    } else {
        0
    }
}

/// How a table with these natural widths is drawn in `avail` cells: as a list
/// where lists are asked for or not even one column fits at the minimum; as a
/// grid of all columns where they fit, the wide ones shrunk; else as a window
/// of columns from `offset` on.
pub open spec fn planned(
    natural: Seq<usize>,
    avail: nat,
    accessible: bool,
    offset: nat,
    v: nat,
) -> PlanModel {
    let n = natural.len();
    let budget = content_budget(avail, n, v);
    if n == 0 || accessible || avail < MIN_COL_WIDTH + 2 + 2 * v {
        PlanModel::Collapse
    } else if capped_sum(natural, MIN_COL_WIDTH as nat) <= budget {
        PlanModel::Grid {
            first_col: 0,
            widths: capped(natural, shared_cap(natural, budget, MAX_COL_WIDTH as nat)),
        }
    } else {
        let first = min_nat(offset, (n - 1) as nat);
        let fit = window(natural, first as int, v, avail, v);
        if fit.len() > 0 {
            PlanModel::Grid { first_col: first, widths: fit }
        } else {
            PlanModel::Grid {
                first_col: first,
                widths: seq![(avail - (2 + 2 * v)) as usize],
            }
        }
    }
}

/// The cells left for content.
fn budget_for(avail: usize, n: usize, v: usize) -> (r: usize)
    requires
        v + 2 <= usize::MAX,
    ensures
        r as nat == content_budget(avail as nat, n as nat, v as nat),
        r <= avail,
{
    match n.checked_mul(2 + v) {
        Some(taken) => if taken <= avail && v <= avail - taken {
            avail - taken - v
        } else {
            0
        },
        None => 0,
    }
}

/// How a table is drawn in `avail` cells with borders `v` cells wide.
pub fn plan_table(
    natural: &Vec<usize>,
    avail: usize,
    accessible: bool,
    offset: usize,
    v: usize,
) -> (r: TablePlan)
    requires
        avail < usize::MAX,
        MIN_COL_WIDTH + 2 + 2 * v <= usize::MAX,
    ensures
        r@ == planned(natural@, avail as nat, accessible, offset as nat, v as nat),
{
    let n: usize = natural.len();
    if n == 0 || accessible {
        return TablePlan::Collapse;
    }
    if avail < MIN_COL_WIDTH + 2 + 2 * v {
        return TablePlan::Collapse;
    }
    let budget: usize = budget_for(avail, n, v);
    if sum_capped(natural, MIN_COL_WIDTH) <= budget {
        return TablePlan::Grid { first_col: 0, widths: shrink_to_budget(natural, budget) };
    }
    let first: usize = if offset < n - 1 {
        offset
    } else {
        n - 1
    };
    let mut widths: Vec<usize> = Vec::new();
    let mut used: usize = v;
    let mut i: usize = first;
    let mut open = true;
    while i < n && open
        invariant
            n == natural.len(),
            first <= i <= n,
            MIN_COL_WIDTH + 2 + 2 * v <= usize::MAX,
            used <= avail,
            open ==> window(natural@, first as int, v as nat, avail as nat, v as nat) == widths@
                + window(natural@, i as int, used as nat, avail as nat, v as nat),
            !open ==> window(natural@, first as int, v as nat, avail as nat, v as nat) == widths@,
        decreases
            n - i,
            if open {
                1int
            } else {
                0int
            },
    {
        let nat_w: usize = natural[i];
        let left: usize = avail - used;
        if nat_w <= left && 2 + v <= left - nat_w {
            proof {
                let rest = window(
                    natural@,
                    i + 1,
                    (used + nat_w + 2 + v) as nat,
                    avail as nat,
                    v as nat,
                );
                assert(widths@ + (seq![nat_w] + rest) =~= widths@.push(nat_w) + rest);
            }
            widths.push(nat_w);
            used = used + nat_w + 2 + v;
            i = i + 1;
        } else {
            proof { assert(widths@ + Seq::<usize>::empty() =~= widths@); }
            open = false;
        }
    }
    proof { assert(widths@ + Seq::<usize>::empty() =~= widths@); }
    if widths.len() == 0 {
        widths.push(avail - (2 + 2 * v));
        proof { assert(widths@ =~= seq![(avail - (2 + 2 * v)) as usize]); }
    }
    TablePlan::Grid { first_col: first, widths }
}

/// A string cut to `w` cells and filled up with spaces to exactly `w`.
pub open spec fn padded(s: Seq<char>, w: nat, ambiguous_wide: bool) -> Seq<char> {
    let cut = truncated(s, w, ambiguous_wide);
    cut + spaces((w - cells(cut, ambiguous_wide)) as nat)
}

/// Cuts a string to `w` cells and fills it up with spaces to exactly `w`.
pub fn pad_to_width(s: &str, w: usize, ambiguous_wide: bool) -> (r: String)
    ensures
        r@ == padded(s@, w as nat, ambiguous_wide),
        cells(r@, ambiguous_wide) == w,
{
    let mut out = truncate_to_width(s, w, ambiguous_wide);
    let used: usize = display_width(out.as_str(), ambiguous_wide);
    let fill = repeat_char(' ', w - used);
    proof {
        cells_additive(out@, fill@, ambiguous_wide);
        lemma_cells_spaces((w - used) as nat, ambiguous_wide);
    }
    out.push_str(fill.as_str());
    out
}

/// Plain wrapping without extra gaps.
pub open spec fn cell_opts() -> WrapOpts {
    WrapOpts { word_spacing: 0, justify: false, hyphenate: false }
}

/// The texts of wrapped lines.
pub open spec fn texts_of(lines: Seq<Seq<ClusterModel>>) -> Seq<Seq<char>> {
    lines.map_values(|l: Seq<ClusterModel>| clusters_text(l))
}

/// The lines of a cell's text in a column of `w` cells; an empty cell has one
/// empty line.
pub open spec fn cell_lines(text: Seq<char>, w: nat, ambiguous_wide: bool) -> Seq<Seq<char>> {
    let lines = texts_of(
        wrapped(
            clusters_in(text, KindModel::Table, ambiguous_wide),
            at_least_one(w),
            cell_opts(),
        ),
    );
    if lines.len() == 0 {
        seq![Seq::empty()]
    } else {
        lines
    }
}

/// Wraps a cell's text to `w` cells, one string for each line.
pub fn wrap_cell_text(text: &str, w: usize, ambiguous_wide: bool) -> (r: Vec<String>)
    requires
        w < usize::MAX,
    ensures
        views(r@) == cell_lines(text@, w as nat, ambiguous_wide),
        r@.len() > 0,
{
    let clusters = clusters_from_str(text, SpanKind::Table, ambiguous_wide);
    let col: usize = if w < 1 {
        1
    } else {
        w
    };
    let lines = wrap_content(clusters, col, WrapOpts::plain(0));
    let ghost all = texts_of(line_models(lines@));
    let mut out: Vec<String> = Vec::new();
    let n: usize = lines.len();
    for i in 0..n
        invariant
            n == lines.len(),
            all == texts_of(line_models(lines@)),
            views(out@) == all.take(i as int),
    {
        let ghost pre = out@;
        out.push(text_of(&lines[i]));
        proof {
            assert(views(out@) =~= views(pre).push(out@.last()@));
            assert(all.take(i + 1) =~= all.take(i as int).push(all[i as int]));
        }
    }
    proof { assert(all.take(n as int) =~= all); }
    if out.len() == 0 {
        out.push(String::new());
        proof { assert(views(out@) =~= seq![Seq::empty()]); }
    }
    out
}

/// The dashes over one column: as many as fit, then spaces.
pub open spec fn dashes(cells_wide: nat, ambiguous_wide: bool) -> Seq<char> {
    let d = glyph_cells('─', ambiguous_wide);
    run_of('─', cells_wide / d) + spaces((cells_wide - (cells_wide / d) * d) as nat)
}

/// Appends the dashes over one column.
pub fn push_dashes(out: &mut String, cells_wide: usize, ambiguous_wide: bool)
    ensures
        final(out)@ == old(out)@ + dashes(cells_wide as nat, ambiguous_wide),
{
    let d: usize = glyph_width('─', ambiguous_wide);
    let count: usize = cells_wide / d;
    let rem: usize = cells_wide % d;
    proof {
        vstd::arithmetic::div_mod::lemma_fundamental_div_mod(cells_wide as int, d as int);
        assert(d * count == count * d) by (nonlinear_arith);
    }
    let ghost start = out@;
    let line = repeat_char('─', count);
    out.push_str(line.as_str());
    let gap = repeat_char(' ', rem);
    out.push_str(gap.as_str());
    proof {
        assert(out@ =~= start + (run_of('─', count as nat) + spaces(rem as nat)));
    }
}

/// The first `n` columns of a border.
pub open spec fn border_to(
    widths: Seq<usize>,
    n: int,
    left: char,
    mid: char,
    ambiguous_wide: bool,
) -> Seq<char>
    decreases n,
{
    if n <= 0 {
        seq![left]
    } else {
        let before = border_to(widths, n - 1, left, mid, ambiguous_wide);
        let joint = if n > 1 {
            before.push(mid)
        } else {
            before
        };
        joint + dashes(widths[n - 1] as nat + 2, ambiguous_wide)
    }
}

/// One horizontal border of a grid.
pub open spec fn border(
    widths: Seq<usize>,
    left: char,
    mid: char,
    right: char,
    ambiguous_wide: bool,
) -> Seq<char> {
    border_to(widths, widths.len() as int, left, mid, ambiguous_wide).push(right)
}

/// Every width is one a terminal can have.
pub open spec fn drawable(widths: Seq<usize>) -> bool {
    forall|i: int| 0 <= i < widths.len() ==> #[trigger] widths[i] <= 0xFFFF
}

/// One horizontal border of a grid.
pub fn grid_border(
    widths: &Vec<usize>,
    left: char,
    mid: char,
    right: char,
    ambiguous_wide: bool,
) -> (r: String)
    requires
        drawable(widths@),
    ensures
        r@ == border(widths@, left, mid, right, ambiguous_wide),
{
    let mut s = String::new();
    s.push(left);
    assert(s@ =~= seq![left]);
    let n: usize = widths.len();
    for i in 0..n
        invariant
            n == widths.len(),
            drawable(widths@),
            s@ == border_to(widths@, i as int, left, mid, ambiguous_wide),
    {
        if i > 0 {
            s.push(mid);
        }
        push_dashes(&mut s, widths[i] + 2, ambiguous_wide);
    }
    s.push(right);
    s
}

/// The text of cell `c`, empty where the row is shorter.
pub open spec fn cell_text(row: Seq<TableCell>, c: int) -> Seq<char> {
    if 0 <= c < row.len() {
        row[c].text@
    } else {
        Seq::empty()
    }
}

/// The wrapped cells of a row, one for each visible column.
pub open spec fn row_cells(
    row: Seq<TableCell>,
    first: int,
    widths: Seq<usize>,
    ambiguous_wide: bool,
) -> Seq<Seq<Seq<char>>> {
    Seq::new(
        widths.len(),
        |i: int| cell_lines(cell_text(row, first + i), widths[i] as nat, ambiguous_wide),
    )
}

/// The height of the tallest of `cells`, one at least.
pub open spec fn tallest(cells: Seq<Seq<Seq<char>>>) -> nat
    decreases cells.len(),
{
    if cells.len() == 0 {
        1
    } else {
        max_nat(tallest(cells.drop_last()), cells.last().len())
    }
}

/// Line `h` of a cell, empty where the cell has fewer.
pub open spec fn cell_line(cell: Seq<Seq<char>>, h: int) -> Seq<char> {
    if 0 <= h < cell.len() {
        cell[h]
    } else {
        Seq::empty()
    }
}

/// The first `n` columns of line `h` of a row.
pub open spec fn row_line_to(
    cells: Seq<Seq<Seq<char>>>,
    widths: Seq<usize>,
    h: int,
    n: int,
    ambiguous_wide: bool,
) -> Seq<char>
    decreases n,
{
    if n <= 0 {
        seq!['│']
    } else {
        row_line_to(cells, widths, h, n - 1, ambiguous_wide) + seq![' '] + padded(
            cell_line(cells[n - 1], h),
            widths[n - 1] as nat,
            ambiguous_wide,
        ) + seq![' ', '│']
    }
}

/// The lines of one row.
pub open spec fn row_lines(
    row: Seq<TableCell>,
    first: int,
    widths: Seq<usize>,
    ambiguous_wide: bool,
) -> Seq<Seq<char>> {
    let cells = row_cells(row, first, widths, ambiguous_wide);
    Seq::new(
        tallest(cells),
        |h: int| row_line_to(cells, widths, h, widths.len() as int, ambiguous_wide),
    )
}

/// The lines of the first `n` rows, with the rule under a header row.
pub open spec fn body_lines(
    table: Table,
    first: int,
    widths: Seq<usize>,
    n: int,
    ambiguous_wide: bool,
) -> Seq<Seq<char>>
    decreases n,
{
    if n <= 0 {
        Seq::empty()
    } else {
        let rows = body_lines(table, first, widths, n - 1, ambiguous_wide) + row_lines(
            table.rows@[n - 1]@,
            first,
            widths,
            ambiguous_wide,
        );
        if n == 1 && table.header_row() && table.rows@.len() > 1 {
            rows.push(border(widths, '├', '┼', '┤', ambiguous_wide))
        } else {
            rows
        }
    }
}

/// The lines of a grid: a border, the rows, a border, and a note where the
/// table was cut short.
pub open spec fn grid_lines(
    table: Table,
    first: int,
    widths: Seq<usize>,
    ambiguous_wide: bool,
) -> Seq<Seq<char>> {
    let top = seq![border(widths, '┌', '┬', '┐', ambiguous_wide)];
    let body = body_lines(table, first, widths, table.rows@.len() as int, ambiguous_wide);
    let closed = (top + body).push(border(widths, '└', '┴', '┘', ambiguous_wide));
    if table.truncated {
        closed.push("… (table truncated)"@)
    } else {
        closed
    }
}

fn render_row(
    out: &mut Vec<String>,
    row: &Vec<TableCell>,
    first: usize,
    widths: &Vec<usize>,
    ambiguous_wide: bool,
)
    requires
        drawable(widths@),
        first + widths@.len() <= usize::MAX,
    ensures
        views(final(out)@) == views(old(out)@) + row_lines(
            row@,
            first as int,
            widths@,
            ambiguous_wide,
        ),
{
    let n: usize = widths.len();
    let ghost model = row_cells(row@, first as int, widths@, ambiguous_wide);
    let mut cells: Vec<Vec<String>> = Vec::new();
    let mut height: usize = 1;
    for i in 0..n
        invariant
            n == widths.len(),
            drawable(widths@),
            first + widths@.len() <= usize::MAX,
            model == row_cells(row@, first as int, widths@, ambiguous_wide),
            cells@.len() == i,
            forall|k: int| 0 <= k < i ==> views((#[trigger] cells@[k])@) == model[k],
            height as nat == tallest(model.take(i as int)),
    {
        let c: usize = first + i;
        let lines = if c < row.len() {
            wrap_cell_text(row[c].text.as_str(), widths[i], ambiguous_wide)
        } else {
            proof {
                reveal_strlit("");
                assert(""@ =~= Seq::empty());
            }
            wrap_cell_text("", widths[i], ambiguous_wide)
        };
        proof {
            assert(model.take(i + 1).drop_last() =~= model.take(i as int));
            assert(views(lines@) == model[i as int]);
            assert(lines@.len() == model[i as int].len());
        }
        if lines.len() > height {
            height = lines.len();
        }
        cells.push(lines);
    }
    proof { assert(model.take(n as int) =~= model); }
    let ghost goal = row_lines(row@, first as int, widths@, ambiguous_wide);
    let ghost base = views(out@);
    for h in 0..height
        invariant
            n == widths.len(),
            drawable(widths@),
            model == row_cells(row@, first as int, widths@, ambiguous_wide),
            goal == row_lines(row@, first as int, widths@, ambiguous_wide),
            cells@.len() == n,
            forall|k: int| 0 <= k < n ==> views((#[trigger] cells@[k])@) == model[k],
            height as nat == tallest(model),
            views(out@) == base + goal.take(h as int),
    {
        let mut line = String::new();
        line.push('│');
        assert(line@ =~= seq!['│']);
        for i in 0..n
            invariant
                n == widths.len(),
                drawable(widths@),
                cells@.len() == n,
                forall|k: int| 0 <= k < n ==> views((#[trigger] cells@[k])@) == model[k],
                line@ == row_line_to(model, widths@, h as int, i as int, ambiguous_wide),
        {
            let ghost before = line@;
            line.push(' ');
            assert(views(cells@[i as int]@) == model[i as int]);
            assert(cells@[i as int]@.len() == model[i as int].len());
            let part = if h < cells[i].len() {
                assert(model[i as int][h as int] == cells@[i as int]@[h as int]@);
                pad_to_width(cells[i][h].as_str(), widths[i], ambiguous_wide)
            } else {
                proof {
                    reveal_strlit("");
                    assert(""@ =~= Seq::empty());
                }
                pad_to_width("", widths[i], ambiguous_wide)
            };
            line.push_str(part.as_str());
            line.push(' ');
            line.push('│');
            proof {
                assert(line@ =~= before + seq![' '] + part@ + seq![' ', '│']);
            }
        }
        let ghost pre = out@;
        out.push(line);
        proof {
            assert(views(out@) =~= views(pre).push(line@));
            assert(goal.take(h + 1) =~= goal.take(h as int).push(goal[h as int]));
        }
    }
    proof { assert(goal.take(height as int) =~= goal); }
}

/// Renders a table's visible columns as the lines of a grid.
#[verifier::spinoff_prover]
#[verifier::rlimit(50)]
pub fn render_grid_lines(
    table: &Table,
    first_col: usize,
    widths: &Vec<usize>,
    ambiguous_wide: bool,
) -> (r: Vec<String>)
    requires
        drawable(widths@),
        first_col + widths@.len() <= usize::MAX,
    ensures
        views(r@) == grid_lines(*table, first_col as int, widths@, ambiguous_wide),
{
    let mut out: Vec<String> = Vec::new();
    out.push(grid_border(widths, '┌', '┬', '┐', ambiguous_wide));
    let ghost top = views(out@);
    proof {
        assert(top =~= seq![border(widths@, '┌', '┬', '┐', ambiguous_wide)]);
        assert(top + Seq::<Seq<char>>::empty() =~= top);
    }
    let header = table.has_header_row();
    let n: usize = table.rows.len();
    for i in 0..n
        invariant
            n == table.rows.len(),
            drawable(widths@),
            first_col + widths@.len() <= usize::MAX,
            header == table.header_row(),
            views(out@) == top + body_lines(
                *table,
                first_col as int,
                widths@,
                i as int,
                ambiguous_wide,
            ),
    {
        let ghost before = body_lines(
            *table,
            first_col as int,
            widths@,
            i as int,
            ambiguous_wide,
        );
        let ghost lines = row_lines(
            table.rows@[i as int]@,
            first_col as int,
            widths@,
            ambiguous_wide,
        );
        render_row(&mut out, &table.rows[i], first_col, widths, ambiguous_wide);
        proof { assert(top + before + lines =~= top + (before + lines)); }
        if i == 0 && header && n > 1 {
            let ghost pre = out@;
            out.push(grid_border(widths, '├', '┼', '┤', ambiguous_wide));
            proof {
                assert(views(out@) =~= views(pre).push(out@.last()@));
                assert((top + (before + lines)).push(out@.last()@) =~= top + (before + lines).push(
                    out@.last()@,
                ));
            }
        }
    }
    let ghost pre = out@;
    out.push(grid_border(widths, '└', '┴', '┘', ambiguous_wide));
    proof { assert(views(out@) =~= views(pre).push(out@.last()@)); }
    if table.truncated {
        let ghost pre = out@;
        out.push("… (table truncated)".to_owned());
        proof { assert(views(out@) =~= views(pre).push(out@.last()@)); }
    }
    out
}

pub proof fn lemma_capped_total(natural: Seq<usize>, cap: nat, v: nat)
    ensures
        grid_cells(capped(natural, cap), v) == v + capped_sum(natural, cap) + natural.len() * (2
            + v),
    decreases natural.len(),
{
    let widths = capped(natural, cap);
    if natural.len() > 0 {
        let front = natural.drop_last();
        lemma_capped_total(front, cap, v);
        assert(widths.drop_last() =~= capped(front, cap));
        assert(natural.len() * (2 + v) == front.len() * (2 + v) + (2 + v)) by (nonlinear_arith)
            requires
                natural.len() == front.len() + 1,
        ;
    } else {
        assert(0 * (2 + v) == 0) by (nonlinear_arith);
    }
}

/// Columns that are not empty take some room under any cap.
proof fn lemma_capped_some(natural: Seq<usize>, cap: nat)
    requires
        forall|c: int| 0 <= c < natural.len() ==> (#[trigger] natural[c]) >= 1,
        cap >= 1,
    ensures
        capped_sum(natural, cap) >= natural.len(),
    decreases natural.len(),
{
    if natural.len() > 0 {
        let front = natural.drop_last();
        assert forall|c: int| 0 <= c < front.len() implies (#[trigger] front[c]) >= 1 by {
            assert(front[c] == natural[c]);
        }
        lemma_capped_some(front, cap);
        assert(natural[natural.len() - 1] >= 1);
    }
}

/// A cap that fits is found where a smaller one would fit.
pub proof fn lemma_shared_cap_fits(natural: Seq<usize>, budget: nat, low: nat, cap: nat)
    requires
        1 <= low <= cap,
        capped_sum(natural, low) <= budget,
    ensures
        capped_sum(natural, shared_cap(natural, budget, cap)) <= budget,
    decreases cap,
{
    if cap > 1 && capped_sum(natural, cap) > budget {
        assert(low < cap);
        lemma_shared_cap_fits(natural, budget, low, (cap - 1) as nat);
    } else if cap <= 1 {
        assert(cap == low);
    }
}

pub proof fn lemma_grid_front(w: usize, rest: Seq<usize>, v: nat)
    ensures
        grid_cells(seq![w] + rest, v) == grid_cells(rest, v) + w + 2 + v,
    decreases rest.len(),
{
    let all = seq![w] + rest;
    if rest.len() == 0 {
        assert(all.drop_last() =~= rest);
    } else {
        lemma_grid_front(w, rest.drop_last(), v);
        assert(all.drop_last() =~= seq![w] + rest.drop_last());
    }
}

pub proof fn lemma_window_fits(natural: Seq<usize>, i: int, used: nat, avail: nat, v: nat)
    requires
        used <= avail,
    ensures
        used + grid_cells(window(natural, i, used, avail, v), v) <= avail + v,
    decreases natural.len() - i,
{
    if 0 <= i < natural.len() && used + natural[i] + 2 + v <= avail {
        let rest = window(natural, i + 1, (used + natural[i] + 2 + v) as nat, avail, v);
        lemma_window_fits(natural, i + 1, (used + natural[i] + 2 + v) as nat, avail, v);
        lemma_grid_front(natural[i], rest, v);
    }
}

/// A grid that is drawn is no wider than the room it is drawn in, and shows
/// columns that are there, one at least. Natural widths are one cell at least.
pub proof fn a_planned_grid_fits(
    natural: Seq<usize>,
    avail: nat,
    accessible: bool,
    offset: nat,
    v: nat,
)
    requires
        avail <= usize::MAX,
        forall|c: int| 0 <= c < natural.len() ==> (#[trigger] natural[c]) >= 1,
    ensures
        planned(natural, avail, accessible, offset, v) matches PlanModel::Grid {
            first_col,
            widths,
        } ==> grid_cells(widths, v) <= avail && widths.len() > 0 && first_col + widths.len()
            <= natural.len(),
{
    let n = natural.len();
    let budget = content_budget(avail, n, v);
    if n > 0 && !accessible && avail >= MIN_COL_WIDTH + 2 + 2 * v {
        if capped_sum(natural, MIN_COL_WIDTH as nat) <= budget {
            lemma_shared_cap_fits(natural, budget, MIN_COL_WIDTH as nat, MAX_COL_WIDTH as nat);
            let cap = shared_cap(natural, budget, MAX_COL_WIDTH as nat);
            lemma_capped_total(natural, cap, v);
            lemma_capped_some(natural, MIN_COL_WIDTH as nat);
        } else {
            let first = min_nat(offset, (n - 1) as nat);
            let fit = window(natural, first as int, v, avail, v);
            lemma_window_fits(natural, first as int, v, avail, v);
            lemma_window_len(natural, first as int, v, avail, v);
            if fit.len() == 0 {
                let w = (avail - (2 + 2 * v)) as usize;
                lemma_grid_front(w, Seq::empty(), v);
                assert(seq![w] + Seq::<usize>::empty() =~= seq![w]);
            }
        }
    }
}

pub proof fn lemma_window_len(natural: Seq<usize>, i: int, used: nat, avail: nat, v: nat)
    requires
        0 <= i <= natural.len(),
    ensures
        i + window(natural, i, used, avail, v).len() <= natural.len(),
    decreases natural.len() - i,
{
    if i < natural.len() && used + natural[i] + 2 + v <= avail {
        lemma_window_len(natural, i + 1, (used + natural[i] + 2 + v) as nat, avail, v);
    }
}

} // verus!
