//! Laws of a parsed article's own figures and of a table's list form.
use vstd::prelude::*;

use crate::doc::list_cells;
use crate::doc::list_rows;
use crate::doc::max_len;
use crate::doc::minutes_to_read;
use crate::doc::Table;
use crate::doc::TableCell;

verus! {

/// The reading time is the least number of minutes in which all the words are
/// read; no words take no time, and a rate of nothing counts as one word a
/// minute.
pub proof fn reading_time_is_rounded_up(words: nat, wpm: nat)
    ensures
        ({
            let rate: int = if wpm == 0 {
                1
            } else {
                wpm as int
            };
            let m = minutes_to_read(words, wpm);
            &&& words <= m * rate
            &&& words > 0 ==> (m - 1) * rate < words
            &&& words == 0 <==> m == 0
        }),
{
    let rate: int = if wpm == 0 {
        1
    } else {
        wpm as int
    };
    let top = words + rate - 1;
    vstd::arithmetic::div_mod::lemma_fundamental_div_mod(top, rate);
    let m = minutes_to_read(words, wpm) as int;
    assert(m == top / rate);
    let rest = top % rate;
    assert(0 <= rest < rate);
    assert(rate * m == m * rate) by (nonlinear_arith);
    assert(top == m * rate + rest);
    assert((m - 1) * rate == m * rate - rate) by (nonlinear_arith);
    if words == 0 {
        assert(m == 0) by (nonlinear_arith)
            requires
                m * rate + rest == rate - 1,
                0 <= rest < rate,
                m >= 0,
        ;
    } else {
        assert(m > 0) by (nonlinear_arith)
            requires
                m * rate + rest == words + rate - 1,
                0 <= rest < rate,
                words > 0,
        ;
    }
}

/// A table has as many columns as its longest row: no row has more, and one
/// has as many unless there is no row at all.
pub proof fn columns_are_the_longest_row(table: Table)
    ensures
        forall|r: int|
            0 <= r < table.rows@.len() ==> (#[trigger] table.rows@[r])@.len() <= table.col_count(),
        table.col_count() > 0 ==> exists|r: int|
            0 <= r < table.rows@.len() && (#[trigger] table.rows@[r])@.len() == table.col_count(),
{
    lemma_longest(table.rows@);
}

proof fn lemma_longest(rows: Seq<Vec<TableCell>>)
    ensures
        forall|r: int| 0 <= r < rows.len() ==> (#[trigger] rows[r])@.len() <= max_len(rows),
        max_len(rows) > 0 ==> exists|r: int|
            0 <= r < rows.len() && (#[trigger] rows[r])@.len() == max_len(rows),
    decreases rows.len(),
{
    if rows.len() > 0 {
        let front = rows.drop_last();
        lemma_longest(front);
        let last = rows.len() - 1;
        assert(rows[last] == rows.last());
        assert forall|r: int| 0 <= r < rows.len() implies (#[trigger] rows[r])@.len() <= max_len(
            rows,
        ) by {
            if r < last {
                assert(front[r] == rows[r]);
            }
        }
        if max_len(rows) > 0 && rows[last]@.len() < max_len(rows) {
            let r = choose|r: int|
                0 <= r < front.len() && (#[trigger] front[r])@.len() == max_len(front);
            assert(rows[r] == front[r]);
        }
    }
}

/// The row that a table's list form starts with: the one under the header.
pub open spec fn first_listed(table: Table) -> int {
    if table.rows@.len() > 0 && (exists|c: int|
        0 <= c < table.rows@[0]@.len() && (#[trigger] table.rows@[0]@[c]).header) {
        1
    } else {
        0
    }
}

/// How many lines stand before row `r`: one for each cell of the rows before
/// it, and one between rows.
pub open spec fn listed_before(table: Table, r: int) -> nat
    decreases r,
{
    if r <= first_listed(table) {
        0
    } else {
        listed_before(table, r - 1) + table.rows@[r - 1]@.len() + 1
    }
}

/// A table's list form holds every cell of every row under the header, in
/// reading order: a cell's line is its column's header, a colon and its text,
/// or its text alone where the column has no header; and an empty line stands
/// between two rows.
pub proof fn the_list_form_holds_every_cell(table: Table, r: int, c: int)
    requires
        first_listed(table) <= r < table.rows@.len(),
        0 <= c < table.rows@[r]@.len(),
    ensures
        ({
            let lines = table.list_lines();
            let p = listed_before(table, r) as int + c;
            let top = table.rows@[0]@;
            let text = table.rows@[r]@[c].text@;
            &&& lines.len() + 1 == listed_before(table, table.rows@.len() as int)
            &&& 0 <= p < lines.len()
            &&& lines[p] == (if first_listed(table) == 1 && c < top.len() && top[c].text@
                != Seq::<char>::empty() {
                top[c].text@ + seq![':', ' '] + text
            } else {
                text
            })
            &&& r > first_listed(table) ==> lines[listed_before(table, r) - 1] == Seq::<
                char,
            >::empty()
        }),
{
    let first = first_listed(table);
    assert(first == if table.header_row() {
        1int
    } else {
        0
    });
    reveal_strlit(": ");
    lemma_listed(table, table.rows@.len() as int, r, c);
    let top = table.rows@[0]@;
    if c < top.len() && top[c].text@.len() == 0 {
        assert(top[c].text@ =~= Seq::empty());
    }
    if first == 1 && c < top.len() && top[c].text@.len() > 0 {
        assert(top[c].text@ + ": "@ + table.rows@[r]@[c].text@ =~= top[c].text@ + seq![':', ' ']
            + table.rows@[r]@[c].text@);
    }
}

proof fn lemma_listed(table: Table, end: int, r: int, c: int)
    requires
        first_listed(table) <= r < end <= table.rows@.len(),
        0 <= c < table.rows@[r]@.len(),
    ensures
        ({
            let lines = list_rows(table, first_listed(table), end);
            let p = listed_before(table, r) as int + c;
            &&& lines.len() + 1 == listed_before(table, end)
            &&& 0 <= p < lines.len()
            &&& lines[p] == crate::doc::list_cell(table, r, c)
            &&& r > first_listed(table) ==> lines[listed_before(table, r) - 1] == Seq::<
                char,
            >::empty()
        }),
    decreases end,
{
    let first = first_listed(table);
    let before = list_rows(table, first, end - 1);
    let gap = if end - 1 > first {
        before.push(Seq::empty())
    } else {
        before
    };
    let own = list_cells(table, end - 1, table.rows@[end - 1]@.len() as int);
    let lines = list_rows(table, first, end);
    assert(lines == gap + own);
    lemma_listed_len(table, end - 1);
    if r < end - 1 {
        lemma_listed(table, end - 1, r, c);
    }
}

proof fn lemma_listed_len(table: Table, end: int)
    requires
        first_listed(table) <= end <= table.rows@.len(),
    ensures
        end > first_listed(table) ==> list_rows(table, first_listed(table), end).len() + 1
            == listed_before(table, end),
        end == first_listed(table) ==> list_rows(table, first_listed(table), end).len() == 0,
    decreases end,
{
    if end > first_listed(table) {
        lemma_listed_len(table, end - 1);
    }
}

} // verus!
