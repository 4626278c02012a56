//! Nothing that a search looks for is missed.
use vstd::prelude::*;

use crate::layout::cluster::cjk_char;
use crate::layout::measure::grapheme_clusters;
use crate::layout::search::case_sensitive;
use crate::layout::search::cell_origins;
use crate::layout::search::cell_texts;
use crate::layout::search::folded;
use crate::layout::search::folded_all;
use crate::layout::search::found;
use crate::layout::search::found_from;
use crate::layout::search::glue;
use crate::layout::search::joined;
use crate::layout::search::line_clusters;
use crate::layout::search::match_pieces;
use crate::layout::search::matches_from;
use crate::layout::search::pieces_of_match;
use crate::layout::search::run_end;
use crate::layout::search::space_dropped;
use crate::layout::search::Cell;
use crate::layout::search_laws::countable;
use crate::layout::search_laws::in_step;
use crate::layout::search_laws::last_real;
use crate::layout::search_laws::lemma_joined;
use crate::layout::search_laws::lemma_last_real;
use crate::layout::search_laws::lemma_orderly_part;
use crate::layout::search_laws::lemma_orderly_prefix;
use crate::layout::search_laws::lemma_pieces;
use crate::layout::search_laws::orderly;
use crate::layout::search_laws::screen_clusters;
use crate::layout::search_laws::true_cell;
use crate::layout::search_laws::true_cells;
use crate::layout::types::line_text;
use crate::layout::types::LaidLine;
use crate::layout::types::MatchSpan;
use crate::text::lowercase;
use crate::text::uppercase_char;

verus! {

/// A cluster of a text that is searched, and the line and column it is on; a
/// space that a wrap dropped is on none.
#[verifier::ext_equal]
pub struct Place {
    pub text: Seq<char>,
    pub at: Option<(int, int)>,
}

/// Line `j` runs on into the next.
pub open spec fn runs_on(continuation: Seq<bool>, j: int) -> bool {
    0 <= j < continuation.len() && continuation[j]
}

/// Lines `a..=b` are a whole chain: each runs on into the next, the line before
/// does not run on into the first, and the last does not run on.
pub open spec fn whole_chain(n: nat, continuation: Seq<bool>, a: int, b: int) -> bool {
    &&& 0 <= a <= b < n
    &&& forall|j: int| a <= j < b ==> #[trigger] runs_on(continuation, j)
    &&& !runs_on(continuation, a - 1)
    &&& b + 1 < n ==> !runs_on(continuation, b)
}

/// The clusters of a line, where they are.
pub open spec fn line_places(lines: Seq<LaidLine>, li: int) -> Seq<Place> {
    let gs = grapheme_clusters(line_text(lines[li]@));
    Seq::new(gs.len(), |c: int| Place { text: gs[c], at: Some((li, c)) })
}

/// The space that the wrap behind a line dropped, if it did: none next to a
/// script that wraps anywhere.
pub open spec fn dropped_space(lines: Seq<LaidLine>, li: int) -> Seq<Place> {
    let a = line_text(lines[li]@);
    let b = line_text(lines[li + 1]@);
    if a.len() > 0 && b.len() > 0 && !cjk_char(a[a.len() - 1]) && !cjk_char(b[0]) {
        seq![Place { text: seq![' '], at: None }]
    } else {
        Seq::empty()
    }
}

/// The text of lines `a..=b`, with the dropped spaces back in.
pub open spec fn chain_places(lines: Seq<LaidLine>, a: int, b: int) -> Seq<Place>
    decreases b - a,
{
    if a >= b {
        line_places(lines, a)
    } else {
        line_places(lines, a) + dropped_space(lines, a) + chain_places(lines, a + 1, b)
    }
}

/// Two clusters count as the same: in any case where the query holds no
/// uppercase letter, else in exact case.
pub open spec fn same_cluster(query: Seq<char>, x: Seq<char>, y: Seq<char>) -> bool {
    if exists|i: int| 0 <= i < query.len() && uppercase_char(#[trigger] query[i]) {
        x == y
    } else {
        lowercase(x) == lowercase(y)
    }
}

/// The query stands at place `p` of a text.
pub open spec fn query_at(places: Seq<Place>, query: Seq<char>, p: int) -> bool {
    let q = grapheme_clusters(query);
    &&& 0 <= p
    &&& p + q.len() <= places.len()
    &&& forall|i: int|
        0 <= i < q.len() ==> same_cluster(query, places[p + i].text, #[trigger] q[i])
}

/// A piece of an occurrence covers a column of a line.
pub open spec fn covers(pieces: Seq<(usize, MatchSpan)>, line: int, col: int) -> bool {
    exists|i: int|
        0 <= i < pieces.len() && (#[trigger] pieces[i]).0 == line && pieces[i].1.start <= col
            < pieces[i].1.end
}

/// Something of places `s..e` is at a column of a line.
pub open spec fn shown_there(places: Seq<Place>, s: int, e: int, line: int, col: int) -> bool {
    exists|j: int| s <= j < e && (#[trigger] places[j]).at == Some((line, col))
}

/// The pieces cover what is on screen of places `s..e`, and nothing else.
pub open spec fn marks(
    pieces: Seq<(usize, MatchSpan)>,
    places: Seq<Place>,
    s: int,
    e: int,
) -> bool {
    forall|line: int, col: int| #[trigger]
        covers(pieces, line, col) <==> shown_there(places, s, e, line, col)
}

/// Nothing of places `s..e` is on screen.
pub open spec fn off_screen(places: Seq<Place>, s: int, e: int) -> bool {
    forall|j: int| s <= j < e ==> (#[trigger] places[j]).at is None
}

spec fn cell_of(p: Place, exact: bool) -> Cell {
    Cell {
        text: folded(p.text, exact),
        origin: match p.at {
            Some((li, c)) => Some((li as usize, c as usize)),
            None => None,
        },
    }
}

spec fn cells_of(ps: Seq<Place>, exact: bool) -> Seq<Cell> {
    ps.map_values(|p: Place| cell_of(p, exact))
}

proof fn lemma_joined_front(lines: Seq<LaidLine>, a: int, e: int, last: int, exact: bool)
    requires
        a < e,
    ensures
        joined(lines, a, e, last, exact) == joined(lines, a, a + 1, last, exact) + joined(
            lines,
            a + 1,
            e,
            last,
            exact,
        ),
    decreases e - a,
{
    let one = joined(lines, a, a + 1, last, exact);
    if e == a + 1 {
        assert(joined(lines, a + 1, e, last, exact) =~= Seq::empty());
        assert(one + joined(lines, a + 1, e, last, exact) =~= one);
    } else {
        lemma_joined_front(lines, a, e - 1, last, exact);
        let li = e - 1;
        let here = line_clusters(lines[li]@, li as usize, exact);
        let rest = joined(lines, a + 1, li, last, exact);
        assert(one + rest + here =~= one + (rest + here));
        assert((one + (rest + here)).push(glue(exact)) =~= one + (rest + here).push(glue(exact)));
    }
}

proof fn lemma_chain_cells(lines: Seq<LaidLine>, a: int, b: int, exact: bool)
    requires
        0 <= a <= b < lines.len(),
        countable(lines),
    ensures
        joined(lines, a, b + 1, b, exact) == cells_of(chain_places(lines, a, b), exact),
        forall|j: int|
            0 <= j < chain_places(lines, a, b).len() ==> ((#[trigger] chain_places(
                lines,
                a,
                b,
            )[j]).at matches Some(at) ==> 0 <= at.0 <= usize::MAX && 0 <= at.1 <= usize::MAX),
    decreases b - a,
{
    let here = line_clusters(lines[a]@, a as usize, exact);
    assert(screen_clusters(lines, a).len() <= usize::MAX);
    assert(here =~= cells_of(line_places(lines, a), exact));
    reveal_with_fuel(joined, 2);
    let one = joined(lines, a, a + 1, b, exact);
    assert(joined(lines, a, a, b, exact) =~= Seq::empty());
    assert(Seq::<Cell>::empty() + here =~= here);
    if a == b {
        assert(one == here);
    } else {
        lemma_joined_front(lines, a, b + 1, b, exact);
        lemma_chain_cells(lines, a + 1, b, exact);
        let x = line_text(lines[a]@);
        let y = line_text(lines[a + 1]@);
        assert(space_dropped(x, y) == (dropped_space(lines, a).len() > 0));
        assert(one =~= here + cells_of(dropped_space(lines, a), exact));
        let all = chain_places(lines, a, b);
        assert(cells_of(all, exact) =~= here + cells_of(dropped_space(lines, a), exact) + cells_of(
            chain_places(lines, a + 1, b),
            exact,
        ));
        assert forall|j: int| 0 <= j < all.len() implies ((#[trigger] all[j]).at matches Some(at)
            ==> 0 <= at.0 <= usize::MAX && 0 <= at.1 <= usize::MAX) by {
            let m = line_places(lines, a).len() + dropped_space(lines, a).len();
            if j >= m {
                assert(all[j] == chain_places(lines, a + 1, b)[j - m]);
            }
        }
    }
}

proof fn lemma_chain_end(continuation: Seq<bool>, i: int, n: int)
    requires
        0 <= i < n,
    ensures
        i <= run_end(continuation, i, n) < n,
        forall|j: int|
            i <= j < run_end(continuation, i, n) ==> #[trigger] runs_on(continuation, j),
        run_end(continuation, i, n) + 1 < n ==> !runs_on(
            continuation,
            run_end(continuation, i, n),
        ),
    decreases n - i,
{
    if i + 1 < n && i < continuation.len() && continuation[i] {
        lemma_chain_end(continuation, i + 1, n);
        assert(runs_on(continuation, i));
    }
}

/// The matches of a whole chain are among those that are found.
proof fn lemma_chain_searched(
    lines: Seq<LaidLine>,
    continuation: Seq<bool>,
    q: Seq<Seq<char>>,
    exact: bool,
    i: int,
    a: int,
    b: int,
)
    requires
        whole_chain(lines.len(), continuation, a, b),
        0 <= i <= a,
        !runs_on(continuation, i - 1),
    ensures
        forall|m: int|
            0 <= m < matches_from(joined(lines, a, b + 1, b, exact), q, 0).len()
                ==> found_from(lines, continuation, q, exact, i).contains(
                #[trigger] matches_from(joined(lines, a, b + 1, b, exact), q, 0)[m],
            ),
    decreases a - i,
{
    let n = lines.len() as int;
    let end = run_end(continuation, i, n);
    lemma_chain_end(continuation, i, n);
    let here = matches_from(joined(lines, i, end + 1, end, exact), q, 0);
    let rest = found_from(lines, continuation, q, exact, end + 1);
    let all = found_from(lines, continuation, q, exact, i);
    assert(all == here + rest);
    let wanted = matches_from(joined(lines, a, b + 1, b, exact), q, 0);
    if i == a {
        if end < b {
            assert(runs_on(continuation, end));
        } else if b < end {
            assert(runs_on(continuation, b));
        }
        assert forall|m: int| 0 <= m < wanted.len() implies all.contains(#[trigger] wanted[m]) by {
            assert(all[m] == wanted[m]);
        }
    } else {
        if end >= a {
            assert(runs_on(continuation, a - 1));
        }
        lemma_chain_searched(lines, continuation, q, exact, end + 1, a, b);
        assert forall|m: int| 0 <= m < wanted.len() implies all.contains(#[trigger] wanted[m]) by {
            assert(rest.contains(wanted[m]));
            let k = rest.index_of(wanted[m]);
            assert(all[here.len() + k] == wanted[m]);
        }
    }
}

/// Left to right, no place that holds the query is passed over.
proof fn lemma_none_passed(cells: Seq<Cell>, q: Seq<Seq<char>>, pos: int, p: int) -> (s: int)
    requires
        q.len() > 0,
        0 <= pos <= p,
        p + q.len() <= cells.len(),
        cell_texts(cells.subrange(p, p + q.len())) == q,
    ensures
        pos <= s <= p < s + q.len(),
        cell_texts(cells.subrange(s, s + q.len())) == q,
        ({
            let pieces = match_pieces(cell_origins(cells.subrange(s, s + q.len())));
            pieces.len() == 0 || matches_from(cells, q, pos).contains(pieces)
        }),
    decreases p - pos,
{
    let here = cells.subrange(pos, pos + q.len());
    let all = matches_from(cells, q, pos);
    if cell_texts(here) == q {
        let pieces = match_pieces(cell_origins(here));
        if p < pos + q.len() {
            if pieces.len() > 0 {
                assert(all[0] == pieces);
            }
            pos
        } else {
            let s = lemma_none_passed(cells, q, pos + q.len(), p);
            let rest = matches_from(cells, q, pos + q.len());
            let found_pieces = match_pieces(cell_origins(cells.subrange(s, s + q.len())));
            if found_pieces.len() > 0 {
                let k = rest.index_of(found_pieces);
                assert(rest[k] == found_pieces);
                if pieces.len() > 0 {
                    assert(all[k + 1] == found_pieces);
                } else {
                    assert(all[k] == found_pieces);
                }
            }
            s
        }
    } else {
        lemma_none_passed(cells, q, pos + 1, p)
    }
}

/// The pieces of cells in order cover the places of the cells and no others.
proof fn lemma_covered(
    lines: Seq<LaidLine>,
    cells: Seq<Cell>,
    exact: bool,
    from: int,
    to: int,
    line: usize,
    col: usize,
)
    requires
        countable(lines),
        true_cells(lines, cells, exact),
        orderly(cell_origins(cells), from, to),
    ensures
        covers(match_pieces(cell_origins(cells)), line as int, col as int) <==> cell_origins(
            cells,
        ).contains(Some((line, col))),
    decreases cells.len(),
{
    let o = cell_origins(cells);
    let pieces = match_pieces(o);
    if cells.len() > 0 {
        let short = cells.drop_last();
        let so = cell_origins(short);
        let n = o.len() - 1;
        assert(so =~= o.drop_last());
        assert(true_cells(lines, short, exact)) by {
            assert forall|i: int| 0 <= i < short.len() implies true_cell(
                lines,
                #[trigger] short[i],
                exact,
            ) by {
                assert(short[i] == cells[i]);
            }
        }
        lemma_orderly_prefix(o, from, to);
        lemma_covered(lines, short, exact, from, to, line, col);
        lemma_pieces(lines, short, exact, from, to);
        lemma_last_real(so);
        let before = pieces_of_match(so);
        let old_pieces = match_pieces(so);
        let want = Some((line, col));
        assert(o[n] == cells.last().origin);
        assert(o.contains(want) <==> so.contains(want) || o[n] == want) by {
            if so.contains(want) {
                let k = so.index_of(want);
                assert(o[k] == want);
            }
            if o.contains(want) {
                let k = o.index_of(want);
                if k < n {
                    assert(so[k] == want);
                }
            }
        }
        match o[n] {
            None => {
                assert(pieces == old_pieces);
            },
            Some((li, c)) => {
                assert(true_cell(lines, cells[n], exact));
                assert(screen_clusters(lines, li as int).len() <= usize::MAX);
                let fresh = (li, MatchSpan { start: c, end: (c + 1) as usize });
                match before.open {
                    None => {
                        assert(old_pieces.len() == 0);
                        assert(pieces =~= seq![fresh]);
                        if li == line && c == col {
                            assert(pieces[0].0 == line);
                        }
                    },
                    Some((at, span)) => {
                        let j = last_real(so);
                        let m = before.closed.len() as int;
                        assert(old_pieces.last() == (at, span));
                        assert(old_pieces[m] == (at, span));
                        assert(so[j] == o[j]);
                        assert(in_step(o, j, n));
                        if at == li {
                            if j + 1 < n {
                                assert(so[j + 1] is None);
                                assert(o[j + 1] == so[j + 1]);
                                assert(false);
                            }
                            assert(span.end == c);
                            let grown = (at, MatchSpan { start: span.start, end: (c + 1) as usize });
                            assert(pieces == before.closed.push(grown));
                            assert(pieces[m] == grown);
                            lemma_one_longer(old_pieces, pieces, m, line as int, col as int);
                        } else {
                            assert(pieces =~= old_pieces.push(fresh));
                            assert(pieces[m + 1] == fresh);
                            if covers(old_pieces, line as int, col as int) {
                                let i = choose|i: int|
                                    0 <= i < old_pieces.len() && (#[trigger] old_pieces[i]).0
                                        == line && old_pieces[i].1.start <= col
                                        < old_pieces[i].1.end;
                                assert(pieces[i] == old_pieces[i]);
                            }
                            if covers(pieces, line as int, col as int) {
                                let i = choose|i: int|
                                    0 <= i < pieces.len() && (#[trigger] pieces[i]).0 == line
                                        && pieces[i].1.start <= col < pieces[i].1.end;
                                if i <= m {
                                    assert(pieces[i] == old_pieces[i]);
                                }
                            }
                        }
                    },
                }
            },
        }
    } else {
        assert(pieces.len() == 0);
    }
}

/// A piece one column longer covers that column more.
proof fn lemma_one_longer(
    old_pieces: Seq<(usize, MatchSpan)>,
    pieces: Seq<(usize, MatchSpan)>,
    m: int,
    line: int,
    col: int,
)
    requires
        pieces.len() == old_pieces.len() == m + 1,
        0 <= m,
        forall|i: int| 0 <= i < m ==> #[trigger] pieces[i] == old_pieces[i],
        pieces[m].0 == old_pieces[m].0,
        pieces[m].1.start == old_pieces[m].1.start,
        pieces[m].1.end == old_pieces[m].1.end + 1,
        old_pieces[m].1.start < old_pieces[m].1.end,
    ensures
        covers(pieces, line, col) <==> covers(old_pieces, line, col) || (line == pieces[m].0 && col
            == old_pieces[m].1.end),
{
    if covers(pieces, line, col) {
        let i = choose|i: int|
            0 <= i < pieces.len() && (#[trigger] pieces[i]).0 == line && pieces[i].1.start <= col
                < pieces[i].1.end;
        if i < m {
            assert(pieces[i] == old_pieces[i]);
        }
        assert(old_pieces[i].0 == line);
    }
    if covers(old_pieces, line, col) {
        let i = choose|i: int|
            0 <= i < old_pieces.len() && (#[trigger] old_pieces[i]).0 == line
                && old_pieces[i].1.start <= col < old_pieces[i].1.end;
        if i < m {
            assert(pieces[i] == old_pieces[i]);
        }
        assert(pieces[i].0 == line);
    }
    if line == pieces[m].0 && col == old_pieces[m].1.end {
        assert(pieces[m].0 == line);
    }
}

proof fn lemma_marks(
    lines: Seq<LaidLine>,
    a: int,
    b: int,
    exact: bool,
    s: int,
    e: int,
)
    requires
        countable(lines),
        0 <= a <= b < lines.len(),
        0 <= s <= e <= chain_places(lines, a, b).len(),
    ensures
        ({
            let cells = joined(lines, a, b + 1, b, exact);
            let pieces = match_pieces(cell_origins(cells.subrange(s, e)));
            &&& marks(pieces, chain_places(lines, a, b), s, e)
            &&& pieces.len() == 0 ==> off_screen(chain_places(lines, a, b), s, e)
        }),
{
    let places = chain_places(lines, a, b);
    let cells = joined(lines, a, b + 1, b, exact);
    lemma_chain_cells(lines, a, b, exact);
    lemma_joined(lines, a, b + 1, b, exact);
    let all = cell_origins(cells);
    let part = cells.subrange(s, e);
    let o = cell_origins(part);
    assert(o =~= all.subrange(s, e));
    assert(true_cells(lines, part, exact)) by {
        assert forall|i: int| 0 <= i < part.len() implies true_cell(
            lines,
            #[trigger] part[i],
            exact,
        ) by {
            assert(part[i] == cells[s + i]);
        }
    }
    lemma_orderly_part(all, a, b + 1, s, e);
    let pieces = match_pieces(o);
    assert forall|j: int| s <= j < e implies #[trigger] o[j - s] == cell_of(places[j], exact).origin by {
        assert(part[j - s] == cells[j]);
    }
    assert forall|line: int, col: int| #[trigger]
        covers(pieces, line, col) <==> shown_there(places, s, e, line, col) by {
        if covers(pieces, line, col) {
            let i = choose|i: int|
                0 <= i < pieces.len() && (#[trigger] pieces[i]).0 == line && pieces[i].1.start
                    <= col < pieces[i].1.end;
            lemma_covered(lines, part, exact, a, b + 1, line as usize, col as usize);
            let k = o.index_of(Some((line as usize, col as usize)));
            assert(o[k] == Some((line as usize, col as usize)));
            assert(o[(s + k) - s] == cell_of(places[s + k], exact).origin);
            assert(places[s + k].at == Some((line, col)));
        }
        if shown_there(places, s, e, line, col) {
            let j = choose|j: int| s <= j < e && (#[trigger] places[j]).at == Some((line, col));
            assert(o[j - s] == Some((line as usize, col as usize)));
            lemma_covered(lines, part, exact, a, b + 1, line as usize, col as usize);
            assert(o.contains(Some((line as usize, col as usize))));
        }
    }
    if pieces.len() == 0 {
        assert forall|j: int| s <= j < e implies (#[trigger] places[j]).at is None by {
            if let Some((line, col)) = places[j].at {
                assert(shown_there(places, s, e, line, col));
                assert(covers(pieces, line, col));
            }
        }
    }
}

proof fn lemma_same_texts(places: Seq<Place>, query: Seq<char>, p: int)
    requires
        0 <= p,
        p + grapheme_clusters(query).len() <= places.len(),
    ensures
        ({
            let exact = case_sensitive(query);
            let q = folded_all(grapheme_clusters(query), exact);
            let here = cells_of(places, exact).subrange(p, p + q.len());
            query_at(places, query, p) <==> cell_texts(here) == q
        }),
{
    let exact = case_sensitive(query);
    let gs = grapheme_clusters(query);
    let q = folded_all(gs, exact);
    let here = cells_of(places, exact).subrange(p, p + q.len());
    assert forall|i: int| 0 <= i < q.len() implies (same_cluster(
        query,
        places[p + i].text,
        #[trigger] gs[i],
    ) <==> cell_texts(here)[i] == q[i]) by {
        assert(cell_texts(here)[i] == folded(places[p + i].text, exact));
    }
    if query_at(places, query, p) {
        assert forall|i: int| 0 <= i < q.len() implies cell_texts(here)[i] == q[i] by {
            assert(same_cluster(query, places[p + i].text, gs[i]));
        }
        assert(cell_texts(here) =~= q);
    }
    if cell_texts(here) == q {
        assert forall|i: int| 0 <= i < gs.len() implies same_cluster(
            query,
            places[p + i].text,
            #[trigger] gs[i],
        ) by {
            assert(cell_texts(here)[i] == q[i]);
        }
    }
}

/// Nothing is missed: wherever the query stands in a whole chain of lines that
/// run on, with the spaces that wraps dropped back in, it is found there, or a
/// match that starts earlier reaches over that place. What is found covers, on
/// every line it touches, exactly what is on screen of the match; a match of
/// dropped spaces alone shows nothing.
pub proof fn nothing_is_missed(
    lines: Seq<LaidLine>,
    continuation: Seq<bool>,
    query: Seq<char>,
    a: int,
    b: int,
    p: int,
) -> (s: int)
    requires
        countable(lines),
        query.len() > 0,
        grapheme_clusters(query).len() > 0,
        whole_chain(lines.len(), continuation, a, b),
        query_at(chain_places(lines, a, b), query, p),
    ensures
        s <= p < s + grapheme_clusters(query).len(),
        query_at(chain_places(lines, a, b), query, s),
        ({
            let places = chain_places(lines, a, b);
            let e = s + grapheme_clusters(query).len();
            off_screen(places, s, e) || exists|k: int|
                0 <= k < found(lines, continuation, query).len() && #[trigger] marks(
                    found(lines, continuation, query)[k],
                    places,
                    s,
                    e,
                )
        }),
{
    let exact = case_sensitive(query);
    let q = folded_all(grapheme_clusters(query), exact);
    let places = chain_places(lines, a, b);
    let cells = joined(lines, a, b + 1, b, exact);
    lemma_chain_cells(lines, a, b, exact);
    lemma_same_texts(places, query, p);
    let s = lemma_none_passed(cells, q, 0, p);
    let e = s + q.len();
    lemma_same_texts(places, query, s);
    lemma_marks(lines, a, b, exact, s, e);
    lemma_chain_searched(lines, continuation, q, exact, 0, a, b);
    let pieces = match_pieces(cell_origins(cells.subrange(s, e)));
    let all = found(lines, continuation, query);
    if pieces.len() > 0 {
        let m = matches_from(cells, q, 0).index_of(pieces);
        assert(all.contains(matches_from(cells, q, 0)[m]));
        let k = all.index_of(pieces);
        assert(all[k] == pieces);
        assert(marks(all[k], places, s, e));
    }
    s
}

proof fn lemma_match_start(cells: Seq<Cell>, q: Seq<Seq<char>>, pos: int, k: int) -> (s: int)
    requires
        0 <= k < matches_from(cells, q, pos).len(),
    ensures
        pos <= s,
        0 <= s,
        s + q.len() <= cells.len(),
        cell_texts(cells.subrange(s, s + q.len())) == q,
        matches_from(cells, q, pos)[k] == match_pieces(
            cell_origins(cells.subrange(s, s + q.len())),
        ),
        matches_from(cells, q, pos)[k].len() > 0,
    decreases cells.len() - pos,
{
    let here = cells.subrange(pos, pos + q.len());
    if cell_texts(here) == q {
        if match_pieces(cell_origins(here)).len() > 0 {
            if k == 0 {
                pos
            } else {
                lemma_match_start(cells, q, pos + q.len(), k - 1)
            }
        } else {
            lemma_match_start(cells, q, pos + q.len(), k)
        }
    } else {
        lemma_match_start(cells, q, pos + 1, k)
    }
}

proof fn lemma_found_in_chain(
    lines: Seq<LaidLine>,
    continuation: Seq<bool>,
    q: Seq<Seq<char>>,
    exact: bool,
    i: int,
    k: int,
) -> (r: (int, int, int))
    requires
        0 <= i,
        !runs_on(continuation, i - 1),
        0 <= k < found_from(lines, continuation, q, exact, i).len(),
    ensures
        whole_chain(lines.len(), continuation, r.0, r.1),
        ({
            let cells = joined(lines, r.0, r.1 + 1, r.1, exact);
            let pieces = found_from(lines, continuation, q, exact, i)[k];
            &&& 0 <= r.2
            &&& r.2 + q.len() <= cells.len()
            &&& cell_texts(cells.subrange(r.2, r.2 + q.len())) == q
            &&& pieces == match_pieces(cell_origins(cells.subrange(r.2, r.2 + q.len())))
            &&& pieces.len() > 0
        }),
    decreases lines.len() - i,
{
    let n = lines.len() as int;
    let end = run_end(continuation, i, n);
    lemma_chain_end(continuation, i, n);
    let here = matches_from(joined(lines, i, end + 1, end, exact), q, 0);
    if k < here.len() {
        let s = lemma_match_start(joined(lines, i, end + 1, end, exact), q, 0, k);
        (i, end, s)
    } else {
        let rest = found_from(lines, continuation, q, exact, end + 1);
        assert(found_from(lines, continuation, q, exact, i) == here + rest);
        if end + 1 == n {
            assert(rest.len() == 0);
        }
        lemma_found_in_chain(lines, continuation, q, exact, end + 1, k - here.len())
    }
}

/// Nothing is found that is not there: every occurrence covers, on every line it
/// touches, exactly what is on screen of the query where it stands in a whole
/// chain of lines that run on. So none goes from one block into the next.
pub proof fn what_is_found_is_there(
    lines: Seq<LaidLine>,
    continuation: Seq<bool>,
    query: Seq<char>,
    k: int,
) -> (r: (int, int, int))
    requires
        countable(lines),
        0 <= k < found(lines, continuation, query).len(),
    ensures
        whole_chain(lines.len(), continuation, r.0, r.1),
        query_at(chain_places(lines, r.0, r.1), query, r.2),
        marks(
            found(lines, continuation, query)[k],
            chain_places(lines, r.0, r.1),
            r.2,
            r.2 + grapheme_clusters(query).len(),
        ),
        found(lines, continuation, query)[k].len() > 0,
{
    let exact = case_sensitive(query);
    let q = folded_all(grapheme_clusters(query), exact);
    let r = lemma_found_in_chain(lines, continuation, q, exact, 0, k);
    lemma_chain_cells(lines, r.0, r.1, exact);
    lemma_same_texts(chain_places(lines, r.0, r.1), query, r.2);
    lemma_marks(lines, r.0, r.1, exact, r.2, r.2 + q.len());
    r
}

} // verus!
