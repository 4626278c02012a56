//! What holds of every search in laid-out lines.
use vstd::prelude::*;

use crate::layout::measure::grapheme_clusters;
use crate::layout::search::case_sensitive;
use crate::layout::search::cell_origins;
use crate::layout::search::cell_texts;
use crate::layout::search::folded;
use crate::layout::search::folded_all;
use crate::layout::search::found;
use crate::layout::search::found_from;
use crate::layout::search::glue;
use crate::layout::search::joined;
use crate::layout::search::line_clusters;
use crate::layout::search::marked;
use crate::layout::search::marker_lines;
use crate::layout::search::marker_starts;
use crate::layout::search::match_pieces;
use crate::layout::search::matches_from;
use crate::layout::search::pieces_of_match;
use crate::layout::search::run_end;
use crate::layout::search::space_dropped;
use crate::layout::search::Cell;
use crate::layout::types::line_text;
use crate::layout::types::LaidLine;
use crate::layout::types::MatchSpan;

verus! {

/// The clusters of line `li` as they are on screen.
pub open spec fn screen_clusters(lines: Seq<LaidLine>, li: int) -> Seq<Seq<char>> {
    grapheme_clusters(line_text(lines[li]@))
}

/// Lines as a machine can hold them: lines and columns are counted in `usize`.
pub open spec fn countable(lines: Seq<LaidLine>) -> bool {
    &&& lines.len() <= usize::MAX
    &&& forall|li: int|
        0 <= li < lines.len() ==> (#[trigger] screen_clusters(lines, li)).len() <= usize::MAX
}

/// A piece covers clusters that its line has, one at least.
pub open spec fn in_line(lines: Seq<LaidLine>, piece: (usize, MatchSpan)) -> bool {
    &&& piece.0 < lines.len()
    &&& piece.1.start < piece.1.end <= screen_clusters(lines, piece.0 as int).len()
}

/// The pieces lie in their lines, each in a line below the one before.
pub open spec fn well_placed(lines: Seq<LaidLine>, pieces: Seq<(usize, MatchSpan)>) -> bool {
    &&& forall|k: int| 0 <= k < pieces.len() ==> in_line(lines, #[trigger] pieces[k])
    &&& forall|j: int, k: int|
        0 <= j < k < pieces.len() ==> (#[trigger] pieces[j]).0 < (#[trigger] pieces[k]).0
}

/// The clusters that the pieces cover, from first to last.
pub open spec fn shown(lines: Seq<LaidLine>, pieces: Seq<(usize, MatchSpan)>) -> Seq<Seq<char>>
    decreases pieces.len(),
{
    if pieces.len() == 0 {
        Seq::empty()
    } else {
        let last = pieces.last();
        shown(lines, pieces.drop_last()) + screen_clusters(lines, last.0 as int).subrange(
            last.1.start as int,
            last.1.end as int,
        )
    }
}

/// `part` is `whole` without some of its spaces.
pub open spec fn spaces_left_out(
    whole: Seq<Seq<char>>,
    part: Seq<Seq<char>>,
    space: Seq<char>,
) -> bool
    decreases whole.len(),
{
    if whole.len() == 0 {
        part.len() == 0
    } else {
        ||| part.len() > 0 && part.last() == whole.last() && spaces_left_out(
            whole.drop_last(),
            part.drop_last(),
            space,
        )
        ||| whole.last() == space && spaces_left_out(whole.drop_last(), part, space)
    }
}

/// A match ends where the next one starts or before.
pub open spec fn ends_before(a: Seq<(usize, MatchSpan)>, b: Seq<(usize, MatchSpan)>) -> bool {
    ||| a.last().0 < b.first().0
    ||| a.last().0 == b.first().0 && a.last().1.end <= b.first().1.start
}

/// A cell reads what its line has in its place, or is a dropped space.
pub open spec fn true_cell(lines: Seq<LaidLine>, c: Cell, exact: bool) -> bool {
    match c.origin {
        Some((li, col)) => {
            &&& li < lines.len()
            &&& col < screen_clusters(lines, li as int).len()
            &&& c.text == folded(screen_clusters(lines, li as int)[col as int], exact)
        },
        None => c.text == folded(seq![' '], exact),
    }
}

/// Of two places, the first is in a line above, or nothing but their line is
/// between them.
pub open spec fn in_step(origins: Seq<Option<(usize, usize)>>, i: int, j: int) -> bool {
    match (origins[i], origins[j]) {
        (Some((a, c)), Some((b, d))) => {
            ||| a < b
            ||| a == b && d - c == j - i && forall|k: int|
                i <= k <= j ==> (#[trigger] origins[k]) == Some((a, (c + k - i) as usize))
        },
        _ => true,
    }
}

/// Cells from top to bottom and from left to right, on lines `from..to`.
pub open spec fn orderly(origins: Seq<Option<(usize, usize)>>, from: int, to: int) -> bool {
    &&& forall|i: int, j: int|
        #![trigger origins[i], origins[j]]
        0 <= i < j < origins.len() ==> in_step(origins, i, j)
    &&& forall|i: int|
        0 <= i < origins.len() ==> (#[trigger] origins[i] matches Some(p) ==> from <= p.0 < to)
}

/// All cells read what their lines have.
pub open spec fn true_cells(lines: Seq<LaidLine>, cells: Seq<Cell>, exact: bool) -> bool {
    forall|i: int| 0 <= i < cells.len() ==> true_cell(lines, #[trigger] cells[i], exact)
}

pub proof fn lemma_joined(lines: Seq<LaidLine>, start: int, end: int, last: int, exact: bool)
    requires
        countable(lines),
        0 <= start,
        end <= lines.len(),
    ensures
        true_cells(lines, joined(lines, start, end, last, exact), exact),
        orderly(cell_origins(joined(lines, start, end, last, exact)), start, end),
    decreases end - start,
{
    let all = joined(lines, start, end, last, exact);
    if end > start {
        let li = end - 1;
        let before = joined(lines, start, li, last, exact);
        let here = line_clusters(lines[li]@, li as usize, exact);
        lemma_joined(lines, start, li, last, exact);
        assert(screen_clusters(lines, li).len() <= usize::MAX);
        let so_far = before + here;
        let old_origins = cell_origins(before);
        let origins = cell_origins(so_far);
        assert forall|i: int, j: int|
            #![trigger origins[i], origins[j]]
            0 <= i < j < origins.len() implies in_step(origins, i, j) by {
            let m = before.len();
            if j < m {
                assert(origins[i] == old_origins[i] && origins[j] == old_origins[j]);
                assert(in_step(old_origins, i, j));
                assert forall|k: int| i <= k <= j implies origins[k] == old_origins[k] by {}
            } else if i < m {
                assert(origins[i] == old_origins[i]);
            } else {
                assert(origins[i] == Some((li as usize, (i - m) as usize)));
                assert(origins[j] == Some((li as usize, (j - m) as usize)));
                assert forall|k: int| i <= k <= j implies (#[trigger] origins[k]) == Some(
                    (li as usize, (i - m + k - i) as usize),
                ) by {
                    assert(origins[k] == here[k - m].origin);
                }
            }
        }
        assert forall|i: int| 0 <= i < origins.len() implies (#[trigger] origins[i] matches Some(
            p,
        ) ==> start <= p.0 < end) by {
            if i < before.len() {
                assert(origins[i] == old_origins[i]);
            } else {
                assert(origins[i] == here[i - before.len()].origin);
            }
        }
        assert(orderly(origins, start, end));
        assert(true_cells(lines, so_far, exact)) by {
            assert forall|i: int| 0 <= i < so_far.len() implies true_cell(
                lines,
                #[trigger] so_far[i],
                exact,
            ) by {
                if i < before.len() {
                    assert(so_far[i] == before[i]);
                } else {
                    assert(so_far[i] == here[i - before.len()]);
                }
            }
        }
        if li < last && space_dropped(line_text(lines[li]@), line_text(lines[li + 1]@)) {
            let more = cell_origins(all);
            assert forall|i: int, j: int|
                #![trigger more[i], more[j]]
                0 <= i < j < more.len() implies in_step(more, i, j) by {
                if j < origins.len() {
                    assert(more[i] == origins[i] && more[j] == origins[j]);
                    assert(in_step(origins, i, j));
                    assert forall|k: int| i <= k <= j implies more[k] == origins[k] by {}
                } else {
                    assert(more[j] == glue(exact).origin);
                }
            }
            assert forall|i: int| 0 <= i < more.len() implies (#[trigger] more[i] matches Some(p)
                ==> start <= p.0 < end) by {
                if i < origins.len() {
                    assert(more[i] == origins[i]);
                }
            }
            assert forall|i: int| 0 <= i < all.len() implies true_cell(
                lines,
                #[trigger] all[i],
                exact,
            ) by {
                if i < so_far.len() {
                    assert(all[i] == so_far[i]);
                }
            }
        } else {
            assert(all == so_far);
        }
    }
}

/// The last place on screen, if there is one.
pub open spec fn last_real(origins: Seq<Option<(usize, usize)>>) -> int
    decreases origins.len(),
{
    if origins.len() == 0 {
        -1
    } else if origins.last() is Some {
        origins.len() - 1
    } else {
        last_real(origins.drop_last())
    }
}

/// The pieces start at one of the places and end at the last.
pub open spec fn bounded_by(pieces: Seq<(usize, MatchSpan)>, origins: Seq<Option<(usize, usize)>>) -> bool {
    pieces.len() > 0 ==> {
        let j = last_real(origins);
        &&& 0 <= j < origins.len()
        &&& origins[j] == Some((pieces.last().0, (pieces.last().1.end - 1) as usize))
        &&& pieces.last().1.end > 0
        &&& exists|f: int|
            0 <= f < origins.len() && (#[trigger] origins[f]) == Some(
                (pieces.first().0, pieces.first().1.start),
            )
    }
}

pub proof fn lemma_last_real(origins: Seq<Option<(usize, usize)>>)
    ensures
        -1 <= last_real(origins) < origins.len(),
        last_real(origins) >= 0 ==> origins[last_real(origins)] is Some,
        forall|k: int| last_real(origins) < k < origins.len() ==> (#[trigger] origins[k]) is None,
    decreases origins.len(),
{
    if origins.len() > 0 && origins.last() is None {
        lemma_last_real(origins.drop_last());
        assert forall|k: int| last_real(origins) < k < origins.len() implies (
        #[trigger] origins[k]) is None by {
            if k < origins.len() - 1 {
                assert(origins.drop_last()[k] == origins[k]);
            }
        }
    }
}

/// Taking the last cell off leaves cells in order.
pub proof fn lemma_orderly_prefix(origins: Seq<Option<(usize, usize)>>, from: int, to: int)
    requires
        orderly(origins, from, to),
        origins.len() > 0,
    ensures
        orderly(origins.drop_last(), from, to),
{
    let o = origins.drop_last();
    assert forall|i: int, j: int|
        #![trigger o[i], o[j]]
        0 <= i < j < o.len() implies in_step(o, i, j) by {
        assert(o[i] == origins[i] && o[j] == origins[j]);
        assert(in_step(origins, i, j));
        assert forall|k: int| i <= k <= j implies o[k] == origins[k] by {}
    }
    assert forall|i: int| 0 <= i < o.len() implies (#[trigger] o[i] matches Some(p) ==> from <= p.0
        < to) by {
        assert(o[i] == origins[i]);
    }
}

/// A place more makes the last piece one cluster longer, or starts one.
proof fn lemma_grown(
    lines: Seq<LaidLine>,
    o: Seq<Option<(usize, usize)>>,
    li: usize,
    col: usize,
    from: int,
    to: int,
)
    requires
        countable(lines),
        o.len() > 0,
        o.last() == Some((li, col)),
        li < lines.len(),
        col < screen_clusters(lines, li as int).len(),
        orderly(o, from, to),
        well_placed(lines, match_pieces(o.drop_last())),
        bounded_by(match_pieces(o.drop_last()), o.drop_last()),
        match_pieces(o.drop_last()).len() == 0 <==> last_real(o.drop_last()) < 0,
        pieces_of_match(o.drop_last()).open is None <==> last_real(o.drop_last()) < 0,
    ensures
        well_placed(lines, match_pieces(o)),
        match_pieces(o).len() > 0,
        match_pieces(o).last().0 == li,
        match_pieces(o).last().1.end == col + 1,
        pieces_of_match(o).open is Some,
        shown(lines, match_pieces(o)) == shown(lines, match_pieces(o.drop_last())).push(
            screen_clusters(lines, li as int)[col as int],
        ),
        match_pieces(o.drop_last()).len() == 0 ==> match_pieces(o).first() == (
            li,
            (MatchSpan { start: col, end: (col + 1) as usize }),
        ),
        match_pieces(o.drop_last()).len() > 0 ==> match_pieces(o).first().0 == match_pieces(
            o.drop_last(),
        ).first().0 && match_pieces(o).first().1.start == match_pieces(
            o.drop_last(),
        ).first().1.start,
{
    let so = o.drop_last();
    let n = o.len() - 1;
    let gs = screen_clusters(lines, li as int);
    assert(gs.len() <= usize::MAX);
    let old_pieces = match_pieces(so);
    let pieces = match_pieces(o);
    let before = pieces_of_match(so);
    lemma_last_real(so);
    let fresh = (li, MatchSpan { start: col, end: (col + 1) as usize });
    assert(gs.subrange(col as int, col + 1) =~= seq![gs[col as int]]);
    match before.open {
        None => {
            assert(old_pieces.len() == 0);
            assert(pieces =~= seq![fresh]);
            assert(pieces.drop_last() =~= old_pieces);
            assert(shown(lines, pieces) =~= shown(lines, old_pieces).push(gs[col as int]));
        },
        Some((at, span)) => {
            let j = last_real(so);
            assert(old_pieces.last() == (at, span));
            assert(so[j] == o[j]);
            assert(o[n] == Some((li, col)));
            assert(in_step(o, j, n));
            assert(old_pieces.drop_last() =~= before.closed);
            assert(in_line(lines, old_pieces[old_pieces.len() - 1]));
            if at == li {
                if j + 1 < n {
                    assert(so[j + 1] is None);
                    assert(o[j + 1] == so[j + 1]);
                    assert(false);
                }
                assert(span.end == col);
                let grown = (at, MatchSpan { start: span.start, end: (col + 1) as usize });
                assert(pieces == before.closed.push(grown));
                assert(pieces.drop_last() =~= before.closed);
                assert(gs.subrange(span.start as int, col + 1) =~= gs.subrange(
                    span.start as int,
                    col as int,
                ).push(gs[col as int]));
                assert(shown(lines, pieces) =~= shown(lines, old_pieces).push(gs[col as int]));
                assert forall|k: int| 0 <= k < pieces.len() implies in_line(
                    lines,
                    #[trigger] pieces[k],
                ) by {
                    if k < before.closed.len() {
                        assert(pieces[k] == old_pieces[k]);
                    }
                }
                assert forall|a: int, b: int| 0 <= a < b < pieces.len() implies (
                #[trigger] pieces[a]).0 < (#[trigger] pieces[b]).0 by {
                    assert(pieces[a].0 == old_pieces[a].0 && pieces[b].0 == old_pieces[b].0);
                }
            } else {
                assert(at < li);
                assert(pieces == old_pieces.push(fresh));
                assert(pieces.drop_last() =~= old_pieces);
                assert(shown(lines, pieces) =~= shown(lines, old_pieces).push(gs[col as int]));
                assert forall|k: int| 0 <= k < pieces.len() implies in_line(
                    lines,
                    #[trigger] pieces[k],
                ) by {
                    if k < old_pieces.len() {
                        assert(pieces[k] == old_pieces[k]);
                    }
                }
                assert forall|a: int, b: int| 0 <= a < b < pieces.len() implies (
                #[trigger] pieces[a]).0 < (#[trigger] pieces[b]).0 by {
                    let m = old_pieces.len() - 1;
                    assert(pieces[a] == old_pieces[a]);
                    if b <= m {
                        assert(pieces[b] == old_pieces[b]);
                    } else if a < m {
                        assert(old_pieces[a].0 < old_pieces[m].0);
                    }
                }
            }
        },
    }
}

/// What the pieces of a match show is its text without the dropped spaces.
#[verifier::rlimit(40)]
pub proof fn lemma_pieces(lines: Seq<LaidLine>, cells: Seq<Cell>, exact: bool, from: int, to: int)
    requires
        countable(lines),
        true_cells(lines, cells, exact),
        orderly(cell_origins(cells), from, to),
    ensures
        well_placed(lines, match_pieces(cell_origins(cells))),
        bounded_by(match_pieces(cell_origins(cells)), cell_origins(cells)),
        match_pieces(cell_origins(cells)).len() == 0 <==> last_real(cell_origins(cells)) < 0,
        pieces_of_match(cell_origins(cells)).open is None <==> last_real(cell_origins(cells)) < 0,
        spaces_left_out(
            cell_texts(cells),
            folded_all(shown(lines, match_pieces(cell_origins(cells))), exact),
            folded(seq![' '], exact),
        ),
    decreases cells.len(),
{
    let o = cell_origins(cells);
    let space = folded(seq![' '], exact);
    if cells.len() == 0 {
        assert(folded_all(shown(lines, match_pieces(o)), exact).len() == 0);
    } else {
        let short = cells.drop_last();
        let c = cells.last();
        let so = cell_origins(short);
        assert(so =~= o.drop_last());
        assert(true_cells(lines, short, exact)) by {
            assert forall|i: int| 0 <= i < short.len() implies true_cell(
                lines,
                #[trigger] short[i],
                exact,
            ) by {
                assert(short[i] == cells[i]);
            }
        }
        lemma_orderly_prefix(o, from, to);
        lemma_pieces(lines, short, exact, from, to);
        lemma_last_real(so);
        lemma_last_real(o);
        assert(cell_texts(cells).drop_last() =~= cell_texts(short));
        assert(cell_texts(cells).last() == c.text);
        assert(o.last() == c.origin);
        assert(true_cell(lines, cells[cells.len() - 1], exact));
        let old_pieces = match_pieces(so);
        let pieces = match_pieces(o);
        let old_part = folded_all(shown(lines, old_pieces), exact);
        let part = folded_all(shown(lines, pieces), exact);
        match c.origin {
            None => {
                assert(pieces == old_pieces);
                assert(c.text == space);
                if pieces.len() > 0 {
                    let f = choose|f: int|
                        0 <= f < so.len() && (#[trigger] so[f]) == Some(
                            (pieces.first().0, pieces.first().1.start),
                        );
                    assert(o[f] == so[f]);
                }
            },
            Some((li, col)) => {
                let gs = screen_clusters(lines, li as int);
                let n = o.len() - 1;
                assert(gs.len() <= usize::MAX);
                assert(o[n] == Some((li, col)));
                lemma_grown(lines, o, li, col, from, to);
                assert(shown(lines, pieces) == shown(lines, old_pieces).push(gs[col as int]));
                assert(part =~= old_part.push(folded(gs[col as int], exact)));
                assert(part.drop_last() =~= old_part);
                if old_pieces.len() > 0 {
                    let f = choose|f: int|
                        0 <= f < so.len() && (#[trigger] so[f]) == Some(
                            (old_pieces.first().0, old_pieces.first().1.start),
                        );
                    assert(o[f] == so[f]);
                } else {
                    assert(o[n] == Some((pieces.first().0, pieces.first().1.start)));
                }
            },
        }
    }
}

/// Where the matches of `q` that are on screen start, from `pos` on.
spec fn starts_from(cells: Seq<Cell>, q: Seq<Seq<char>>, pos: int) -> Seq<int>
    decreases cells.len() - pos,
{
    if q.len() == 0 || pos < 0 || pos + q.len() > cells.len() {
        Seq::empty()
    } else {
        let here = cells.subrange(pos, pos + q.len());
        if cell_texts(here) == q {
            let rest = starts_from(cells, q, pos + q.len());
            if match_pieces(cell_origins(here)).len() > 0 {
                seq![pos] + rest
            } else {
                rest
            }
        } else {
            starts_from(cells, q, pos + 1)
        }
    }
}

/// A match of `q` starts at `s`, and `pieces` are its pieces.
spec fn match_at(
    cells: Seq<Cell>,
    q: Seq<Seq<char>>,
    s: int,
    pieces: Seq<(usize, MatchSpan)>,
) -> bool {
    &&& 0 <= s
    &&& s + q.len() <= cells.len()
    &&& cell_texts(cells.subrange(s, s + q.len())) == q
    &&& pieces == match_pieces(cell_origins(cells.subrange(s, s + q.len())))
    &&& pieces.len() > 0
}

proof fn lemma_starts(cells: Seq<Cell>, q: Seq<Seq<char>>, pos: int)
    ensures
        starts_from(cells, q, pos).len() == matches_from(cells, q, pos).len(),
        forall|k: int|
            0 <= k < starts_from(cells, q, pos).len() ==> {
                let s = #[trigger] starts_from(cells, q, pos)[k];
                s >= pos && match_at(cells, q, s, matches_from(cells, q, pos)[k])
            },
        forall|j: int, k: int|
            0 <= j < k < starts_from(cells, q, pos).len() ==> (#[trigger] starts_from(
                cells,
                q,
                pos,
            )[j]) + q.len() <= (#[trigger] starts_from(cells, q, pos)[k]),
    decreases cells.len() - pos,
{
    if q.len() > 0 && pos >= 0 && pos + q.len() <= cells.len() {
        let here = cells.subrange(pos, pos + q.len());
        if cell_texts(here) == q {
            lemma_starts(cells, q, pos + q.len());
        } else {
            lemma_starts(cells, q, pos + 1);
        }
    }
}

/// A part of orderly cells is orderly.
pub proof fn lemma_orderly_part(
    origins: Seq<Option<(usize, usize)>>,
    from: int,
    to: int,
    a: int,
    b: int,
)
    requires
        orderly(origins, from, to),
        0 <= a <= b <= origins.len(),
    ensures
        orderly(origins.subrange(a, b), from, to),
{
    let o = origins.subrange(a, b);
    assert forall|i: int, j: int|
        #![trigger o[i], o[j]]
        0 <= i < j < o.len() implies in_step(o, i, j) by {
        assert(o[i] == origins[a + i] && o[j] == origins[a + j]);
        assert(in_step(origins, a + i, a + j));
        assert forall|k: int| i <= k <= j implies o[k] == origins[a + k] by {}
    }
    assert forall|i: int| 0 <= i < o.len() implies (#[trigger] o[i] matches Some(p) ==> from <= p.0
        < to) by {
        assert(o[i] == origins[a + i]);
    }
}

/// Pieces that show the query, on lines `from..to`.
spec fn shows_query(
    lines: Seq<LaidLine>,
    pieces: Seq<(usize, MatchSpan)>,
    q: Seq<Seq<char>>,
    exact: bool,
) -> bool {
    &&& pieces.len() > 0
    &&& well_placed(lines, pieces)
    &&& spaces_left_out(q, folded_all(shown(lines, pieces), exact), folded(seq![' '], exact))
}

/// A match in a run shows the query, between places of the run.
proof fn lemma_match(
    lines: Seq<LaidLine>,
    cells: Seq<Cell>,
    q: Seq<Seq<char>>,
    exact: bool,
    from: int,
    to: int,
    s: int,
    pieces: Seq<(usize, MatchSpan)>,
) -> (r: (int, int))
    requires
        countable(lines),
        true_cells(lines, cells, exact),
        orderly(cell_origins(cells), from, to),
        match_at(cells, q, s, pieces),
    ensures
        shows_query(lines, pieces, q, exact),
        s <= r.0 < s + q.len(),
        s <= r.1 < s + q.len(),
        cell_origins(cells)[r.0] == Some((pieces.first().0, pieces.first().1.start)),
        pieces.last().1.end > 0,
        cell_origins(cells)[r.1] == Some((pieces.last().0, (pieces.last().1.end - 1) as usize)),
        from <= pieces.first().0 < to,
        from <= pieces.last().0 < to,
{
    let e = s + q.len();
    let part = cells.subrange(s, e);
    let all = cell_origins(cells);
    let o = cell_origins(part);
    assert(o =~= all.subrange(s, e));
    assert(true_cells(lines, part, exact)) by {
        assert forall|i: int| 0 <= i < part.len() implies true_cell(
            lines,
            #[trigger] part[i],
            exact,
        ) by {
            assert(part[i] == cells[s + i]);
        }
    }
    lemma_orderly_part(all, from, to, s, e);
    lemma_pieces(lines, part, exact, from, to);
    let f = choose|f: int|
        0 <= f < o.len() && (#[trigger] o[f]) == Some((pieces.first().0, pieces.first().1.start));
    let j = last_real(o);
    assert(o[f] == all[s + f] && o[j] == all[s + j]);
    (s + f, s + j)
}

/// The matches of one run show the query and do not overlap.
proof fn lemma_run(
    lines: Seq<LaidLine>,
    i: int,
    end: int,
    q: Seq<Seq<char>>,
    exact: bool,
)
    requires
        countable(lines),
        0 <= i <= end < lines.len(),
    ensures
        ({
            let m = matches_from(joined(lines, i, end + 1, end, exact), q, 0);
            &&& forall|k: int|
                0 <= k < m.len() ==> shows_query(lines, #[trigger] m[k], q, exact) && i
                    <= m[k].first().0 && m[k].last().0 <= end
            &&& forall|j: int, k: int|
                0 <= j < k < m.len() ==> ends_before(#[trigger] m[j], #[trigger] m[k])
        }),
{
    let cells = joined(lines, i, end + 1, end, exact);
    let origins = cell_origins(cells);
    let m = matches_from(cells, q, 0);
    let starts = starts_from(cells, q, 0);
    lemma_joined(lines, i, end + 1, end, exact);
    lemma_starts(cells, q, 0);
    assert forall|k: int| 0 <= k < m.len() implies shows_query(lines, #[trigger] m[k], q, exact)
        && i <= m[k].first().0 && m[k].last().0 <= end by {
        let s = starts[k];
        let _ = lemma_match(lines, cells, q, exact, i, end + 1, s, m[k]);
    }
    assert forall|j: int, k: int| 0 <= j < k < m.len() implies ends_before(
        #[trigger] m[j],
        #[trigger] m[k],
    ) by {
        let a = starts[j];
        let b = starts[k];
        let x = lemma_match(lines, cells, q, exact, i, end + 1, a, m[j]);
        let y = lemma_match(lines, cells, q, exact, i, end + 1, b, m[k]);
        assert(x.1 < y.0);
        assert(in_step(origins, x.1, y.0));
    }
}

proof fn lemma_found(
    lines: Seq<LaidLine>,
    continuation: Seq<bool>,
    q: Seq<Seq<char>>,
    exact: bool,
    i: int,
)
    requires
        countable(lines),
        0 <= i,
    ensures
        ({
            let m = found_from(lines, continuation, q, exact, i);
            &&& forall|k: int|
                0 <= k < m.len() ==> shows_query(lines, #[trigger] m[k], q, exact) && i
                    <= m[k].first().0
            &&& forall|j: int, k: int|
                0 <= j < k < m.len() ==> ends_before(#[trigger] m[j], #[trigger] m[k])
        }),
    decreases lines.len() - i,
{
    if i < lines.len() {
        let end = run_end(continuation, i, lines.len() as int);
        if i <= end < lines.len() {
            lemma_run(lines, i, end, q, exact);
            lemma_found(lines, continuation, q, exact, end + 1);
            let here = matches_from(joined(lines, i, end + 1, end, exact), q, 0);
            let rest = found_from(lines, continuation, q, exact, end + 1);
            let m = found_from(lines, continuation, q, exact, i);
            assert(m == here + rest);
            assert forall|k: int| 0 <= k < m.len() implies shows_query(
                lines,
                #[trigger] m[k],
                q,
                exact,
            ) && i <= m[k].first().0 by {
                if k < here.len() {
                    assert(m[k] == here[k]);
                } else {
                    assert(m[k] == rest[k - here.len()]);
                }
            }
            assert forall|j: int, k: int| 0 <= j < k < m.len() implies ends_before(
                #[trigger] m[j],
                #[trigger] m[k],
            ) by {
                if k < here.len() {
                    assert(m[j] == here[j] && m[k] == here[k]);
                } else if j >= here.len() {
                    assert(m[j] == rest[j - here.len()] && m[k] == rest[k - here.len()]);
                } else {
                    assert(m[j] == here[j] && m[k] == rest[k - here.len()]);
                }
            }
        }
    }
}

/// Nothing is marked that is not the query: what the pieces of a match cover
/// on screen is the query, cluster for cluster, but for spaces that a wrap
/// dropped. Case counts where the query holds an uppercase letter.
pub proof fn only_the_query_is_marked(
    lines: Seq<LaidLine>,
    continuation: Seq<bool>,
    query: Seq<char>,
    k: int,
)
    requires
        countable(lines),
        0 <= k < found(lines, continuation, query).len(),
    ensures
        spaces_left_out(
            folded_all(grapheme_clusters(query), case_sensitive(query)),
            folded_all(
                shown(lines, found(lines, continuation, query)[k]),
                case_sensitive(query),
            ),
            folded(seq![' '], case_sensitive(query)),
        ),
{
    let exact = case_sensitive(query);
    lemma_found(lines, continuation, folded_all(grapheme_clusters(query), exact), exact, 0);
}

/// Every piece of a match covers at least one whole cluster of a line that is
/// there, and each line at most once, from top to bottom.
pub proof fn pieces_lie_in_their_lines(
    lines: Seq<LaidLine>,
    continuation: Seq<bool>,
    query: Seq<char>,
    k: int,
)
    requires
        countable(lines),
        0 <= k < found(lines, continuation, query).len(),
    ensures
        found(lines, continuation, query)[k].len() > 0,
        well_placed(lines, found(lines, continuation, query)[k]),
{
    let exact = case_sensitive(query);
    lemma_found(lines, continuation, folded_all(grapheme_clusters(query), exact), exact, 0);
}

/// Matches come in reading order, and none overlaps another.
pub proof fn matches_come_in_reading_order(
    lines: Seq<LaidLine>,
    continuation: Seq<bool>,
    query: Seq<char>,
    j: int,
    k: int,
)
    requires
        countable(lines),
        0 <= j < k < found(lines, continuation, query).len(),
    ensures
        ends_before(found(lines, continuation, query)[j], found(lines, continuation, query)[k]),
{
    let exact = case_sensitive(query);
    lemma_found(lines, continuation, folded_all(grapheme_clusters(query), exact), exact, 0);
}

proof fn lemma_stops(lines: Seq<LaidLine>, continuation: Seq<bool>, n: int)
    requires
        0 <= n <= lines.len() <= usize::MAX,
    ensures
        ({
            let stops = marker_lines(lines, continuation, n);
            &&& forall|k: int|
                0 <= k < stops.len() ==> (#[trigger] stops[k]) < n && marked(lines[stops[k] as int]@)
            &&& forall|j: int, k: int|
                0 <= j < k < stops.len() ==> (#[trigger] stops[j]) < (#[trigger] stops[k])
            &&& forall|i: int|
                0 <= i < n && marker_starts(lines, continuation, i) ==> (#[trigger] stops.contains(
                    i as usize,
                ))
        }),
    decreases n,
{
    if n > 0 {
        lemma_stops(lines, continuation, n - 1);
        let before = marker_lines(lines, continuation, n - 1);
        let stops = marker_lines(lines, continuation, n);
        assert forall|i: int|
            0 <= i < n && marker_starts(lines, continuation, i) implies #[trigger] stops.contains(
            i as usize,
        ) by {
            if i < n - 1 {
                assert(before.contains(i as usize));
                let at = choose|at: int| 0 <= at < before.len() && before[at] == i as usize;
                assert(stops[at] == i as usize);
            } else {
                assert(stops[stops.len() - 1] == i as usize);
            }
        }
    }
}

/// Lines `from..=to` hold markers, and each runs on into the next.
pub open spec fn one_marker_run(
    lines: Seq<LaidLine>,
    continuation: Seq<bool>,
    from: int,
    to: int,
) -> bool {
    &&& 0 <= from <= to
    &&& forall|j: int| from <= j <= to ==> marked(#[trigger] lines[j]@)
    &&& forall|j: int| from <= j < to ==> j < continuation.len() && #[trigger] continuation[j]
}

proof fn lemma_stop_for(lines: Seq<LaidLine>, continuation: Seq<bool>, i: int) -> (s: int)
    requires
        0 <= i < lines.len(),
        marked(lines[i]@),
    ensures
        one_marker_run(lines, continuation, s, i),
        marker_starts(lines, continuation, s),
    decreases i,
{
    if marker_starts(lines, continuation, i) {
        i
    } else {
        lemma_stop_for(lines, continuation, i - 1)
    }
}

/// The stops of "citation needed" markers go down the page, each on a line
/// with a marker, and every line with a marker is a stop or runs on from one.
pub proof fn every_marker_has_a_stop(lines: Seq<LaidLine>, continuation: Seq<bool>)
    requires
        lines.len() <= usize::MAX,
    ensures
        ({
            let stops = marker_lines(lines, continuation, lines.len() as int);
            &&& forall|k: int|
                0 <= k < stops.len() ==> (#[trigger] stops[k]) < lines.len() && marked(
                    lines[stops[k] as int]@,
                )
            &&& forall|j: int, k: int|
                0 <= j < k < stops.len() ==> (#[trigger] stops[j]) < (#[trigger] stops[k])
            &&& forall|i: int|
                0 <= i < lines.len() && marked(#[trigger] lines[i]@) ==> exists|s: int|
                    stops.contains(s as usize) && #[trigger] one_marker_run(
                        lines,
                        continuation,
                        s,
                        i,
                    )
        }),
{
    lemma_stops(lines, continuation, lines.len() as int);
    let stops = marker_lines(lines, continuation, lines.len() as int);
    assert forall|i: int| 0 <= i < lines.len() && marked(#[trigger] lines[i]@) implies exists|
        s: int,
    |
        stops.contains(s as usize) && #[trigger] one_marker_run(lines, continuation, s, i) by {
        let s = lemma_stop_for(lines, continuation, i);
        assert(stops.contains(s as usize));
        assert(one_marker_run(lines, continuation, s, i));
    }
}

} // verus!
