//! How a table's columns are chosen for the room there is.
use vstd::prelude::*;

use crate::doc::TableCell;
use crate::layout::measure::cells;
use crate::layout::table::capped;
use crate::layout::table::capped_sum;
use crate::layout::table::content_budget;
use crate::layout::table::grid_cells;
use crate::layout::table::lemma_capped_total;
use crate::layout::table::lemma_grid_front;
use crate::layout::table::lemma_shared_cap_fits;
use crate::layout::table::natural_width;
use crate::layout::table::planned;
use crate::layout::table::shared_cap;
use crate::layout::table::window;
use crate::layout::table::PlanModel;
use crate::layout::table::MAX_COL_WIDTH;
use crate::layout::table::MIN_COL_WIDTH;

verus! {

/// Each width cut to `cap`.
pub open spec fn cut_to(natural: Seq<usize>, cap: nat) -> Seq<usize> {
    natural.map_values(
        |w: usize|
            if w as nat <= cap {
                w
            } else {
                cap as usize
            },
    )
}

proof fn lemma_cut_to(natural: Seq<usize>, cap: nat)
    ensures
        capped(natural, cap) == cut_to(natural, cap),
{
    assert(capped(natural, cap) =~= cut_to(natural, cap));
}

proof fn lemma_best_cap(natural: Seq<usize>, budget: nat, cap: nat)
    requires
        cap >= 1,
    ensures
        1 <= shared_cap(natural, budget, cap) <= cap,
        shared_cap(natural, budget, cap) < cap ==> capped_sum(
            natural,
            shared_cap(natural, budget, cap) + 1,
        ) > budget,
    decreases cap,
{
    if cap > 1 && capped_sum(natural, cap) > budget {
        lemma_best_cap(natural, budget, (cap - 1) as nat);
    }
}

/// Whether the columns, cut to `cap`, fit `avail` cells with their borders.
pub open spec fn fit_when_cut(natural: Seq<usize>, cap: nat, avail: nat, v: nat) -> bool {
    grid_cells(cut_to(natural, cap), v) <= avail
}

proof fn lemma_fit_when_cut(natural: Seq<usize>, cap: nat, avail: nat, v: nat)
    requires
        natural.len() > 0,
        forall|c: int| 0 <= c < natural.len() ==> (#[trigger] natural[c]) >= 1,
        cap >= 1,
    ensures
        fit_when_cut(natural, cap, avail, v) <==> capped_sum(natural, cap) <= content_budget(
            avail,
            natural.len(),
            v,
        ),
{
    lemma_capped_total(natural, cap, v);
    lemma_cut_to(natural, cap);
    lemma_some(natural, cap);
}

proof fn lemma_some(natural: Seq<usize>, cap: nat)
    requires
        forall|c: int| 0 <= c < natural.len() ==> (#[trigger] natural[c]) >= 1,
        cap >= 1,
    ensures
        capped_sum(natural, cap) >= natural.len(),
    decreases natural.len(),
{
    if natural.len() > 0 {
        let front = natural.drop_last();
        assert forall|c: int| 0 <= c < front.len() implies (#[trigger] front[c]) >= 1 by {
            assert(front[c] == natural[c]);
        }
        lemma_some(front, cap);
        assert(natural[natural.len() - 1] >= 1);
    }
}

/// A table's columns are shown together wherever they fit at the least width:
/// each at its natural width or, where that is wider, cut to one width for
/// all, the greatest that fits up to the limit.
pub proof fn columns_stay_together_while_they_fit(
    natural: Seq<usize>,
    avail: nat,
    offset: nat,
    v: nat,
) -> (cap: nat)
    requires
        natural.len() > 0,
        forall|c: int| 0 <= c < natural.len() ==> (#[trigger] natural[c]) >= 1,
        avail >= MIN_COL_WIDTH + 2 + 2 * v,
        fit_when_cut(natural, MIN_COL_WIDTH as nat, avail, v),
    ensures
        1 <= cap <= MAX_COL_WIDTH,
        planned(natural, avail, false, offset, v) == (PlanModel::Grid {
            first_col: 0,
            widths: cut_to(natural, cap),
        }),
        fit_when_cut(natural, cap, avail, v),
        cap < MAX_COL_WIDTH ==> !fit_when_cut(natural, cap + 1, avail, v),
{
    let budget = content_budget(avail, natural.len(), v);
    lemma_fit_when_cut(natural, MIN_COL_WIDTH as nat, avail, v);
    let cap = shared_cap(natural, budget, MAX_COL_WIDTH as nat);
    lemma_best_cap(natural, budget, MAX_COL_WIDTH as nat);
    lemma_shared_cap_fits(natural, budget, MIN_COL_WIDTH as nat, MAX_COL_WIDTH as nat);
    lemma_fit_when_cut(natural, cap, avail, v);
    lemma_fit_when_cut(natural, cap + 1, avail, v);
    lemma_cut_to(natural, cap);
    cap
}

proof fn lemma_window_goes_on(natural: Seq<usize>, i: int, used: nat, avail: nat, v: nat)
    requires
        0 <= i <= natural.len(),
    ensures
        ({
            let fit = window(natural, i, used, avail, v);
            &&& i + fit.len() <= natural.len()
            &&& fit =~= natural.subrange(i, i + fit.len())
            &&& i + fit.len() < natural.len() ==> used + grid_cells(
                fit.push(natural[i + fit.len()]),
                v,
            ) > avail + v
        }),
    decreases natural.len() - i,
{
    let fit = window(natural, i, used, avail, v);
    if i < natural.len() && used + natural[i] + 2 + v <= avail {
        let next = (used + natural[i] + 2 + v) as nat;
        lemma_window_goes_on(natural, i + 1, next, avail, v);
        let rest = window(natural, i + 1, next, avail, v);
        assert(fit == seq![natural[i]] + rest);
        if i + fit.len() < natural.len() {
            let c = natural[i + fit.len()];
            lemma_grid_front(natural[i], rest.push(c), v);
            assert(fit.push(c) =~= seq![natural[i]] + rest.push(c));
        }
    } else if i < natural.len() {
        assert(fit =~= Seq::empty());
        lemma_grid_front(natural[i], Seq::empty(), v);
        assert(fit.push(natural[i]) =~= seq![natural[i]] + Seq::<usize>::empty());
    }
}

/// Where the columns do not fit together, those from the asked-for one on are
/// shown, at their natural widths, until the next does not fit; the last
/// column is shown where the one asked for is past it. A column that is too
/// wide by itself takes all the room.
pub proof fn columns_scroll_where_they_do_not_fit(
    natural: Seq<usize>,
    avail: nat,
    offset: nat,
    v: nat,
)
    requires
        natural.len() > 0,
        forall|c: int| 0 <= c < natural.len() ==> (#[trigger] natural[c]) >= 1,
        avail >= MIN_COL_WIDTH + 2 + 2 * v,
        avail <= usize::MAX,
        !fit_when_cut(natural, MIN_COL_WIDTH as nat, avail, v),
    ensures
        ({
            let first = if offset < natural.len() {
                offset as int
            } else {
                natural.len() - 1
            };
            &&& planned(natural, avail, false, offset, v) matches PlanModel::Grid {
                first_col,
                widths,
            }
            &&& first_col == first
            &&& 0 < widths.len() <= natural.len() - first
            &&& grid_cells(seq![natural[first]], v) <= avail ==> {
                &&& widths == natural.subrange(first, first + widths.len())
                &&& first + widths.len() < natural.len() ==> grid_cells(
                    widths.push(natural[first + widths.len()]),
                    v,
                ) > avail
            }
            &&& grid_cells(seq![natural[first]], v) > avail ==> widths.len() == 1 && grid_cells(
                widths,
                v,
            ) == avail
        }),
{
    lemma_fit_when_cut(natural, MIN_COL_WIDTH as nat, avail, v);
    let first = if offset < natural.len() {
        offset as int
    } else {
        natural.len() - 1
    };
    lemma_window_goes_on(natural, first, v, avail, v);
    let fit = window(natural, first, v, avail, v);
    let none = Seq::<usize>::empty();
    lemma_grid_front(natural[first], none, v);
    assert(seq![natural[first]] + none =~= seq![natural[first]]);
    assert(grid_cells(none, v) == v);
    if fit.len() == 0 {
        let w = (avail - (2 + 2 * v)) as usize;
        lemma_grid_front(w, none, v);
        assert(seq![w] + none =~= seq![w]);
    }
}

/// A table is drawn as a list where lists are asked for, where it has no
/// column, and where not even one column of the least width has room.
pub proof fn a_table_is_a_list_where_no_grid_fits(
    natural: Seq<usize>,
    avail: nat,
    accessible: bool,
    offset: nat,
    v: nat,
)
    ensures
        (planned(natural, avail, accessible, offset, v) is Collapse) <==> (accessible
            || natural.len() == 0 || grid_cells(seq![MIN_COL_WIDTH], v) > avail),
{
    let none = Seq::<usize>::empty();
    lemma_grid_front(MIN_COL_WIDTH, none, v);
    assert(seq![MIN_COL_WIDTH] + none =~= seq![MIN_COL_WIDTH]);
    assert(grid_cells(none, v) == v);
}

/// A column's natural width is that of its widest cell, up to the limit: no
/// cell of it is wider, and one is as wide, unless the width is the least
/// there is.
pub proof fn a_column_is_as_wide_as_its_widest_cell(
    rows: Seq<Vec<TableCell>>,
    c: int,
    ambiguous_wide: bool,
)
    requires
        0 <= c,
    ensures
        ({
            let w = natural_width(rows, c, ambiguous_wide);
            &&& 1 <= w <= MAX_COL_WIDTH
            &&& forall|r: int|
                0 <= r < rows.len() && c < (#[trigger] rows[r])@.len() ==> cells(
                    rows[r]@[c].text@,
                    ambiguous_wide,
                ) <= w || w == MAX_COL_WIDTH
            &&& w > 1 ==> exists|r: int|
                0 <= r < rows.len() && c < (#[trigger] rows[r])@.len() && cells(
                    rows[r]@[c].text@,
                    ambiguous_wide,
                ) >= w
        }),
    decreases rows.len(),
{
    if rows.len() > 0 {
        let front = rows.drop_last();
        a_column_is_as_wide_as_its_widest_cell(front, c, ambiguous_wide);
        let w = natural_width(rows, c, ambiguous_wide);
        let before = natural_width(front, c, ambiguous_wide);
        let last = rows.len() - 1;
        assert(rows[last] == rows.last());
        assert forall|r: int| 0 <= r < rows.len() && c < (#[trigger] rows[r])@.len() implies cells(
            rows[r]@[c].text@,
            ambiguous_wide,
        ) <= w || w == MAX_COL_WIDTH by {
            if r < last {
                assert(front[r] == rows[r]);
            }
        }
        if w > 1 {
            if c < rows[last]@.len() && cells(rows[last]@[c].text@, ambiguous_wide) >= w {
            } else {
                assert(w == before);
                let r = choose|r: int|
                    0 <= r < front.len() && c < (#[trigger] front[r])@.len() && cells(
                        front[r]@[c].text@,
                        ambiguous_wide,
                    ) >= before;
                assert(rows[r] == front[r]);
            }
        }
    }
}

} // verus!
