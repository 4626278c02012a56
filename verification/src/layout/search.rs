//! Finding text in laid-out lines.
use vstd::prelude::*;

use crate::layout::cluster::cjk_char;
use crate::layout::cluster::is_cjk;
use crate::layout::measure::grapheme_clusters;
use crate::layout::measure::graphemes;
use crate::layout::types::laid_line_text;
use crate::layout::types::line_text;
use crate::layout::types::KindModel;
use crate::layout::types::LaidLine;
use crate::layout::types::MatchSpan;
use crate::layout::types::Occurrence;
use crate::layout::types::SpanKind;
use crate::layout::types::SpanModel;
use crate::text::chars_of;
use crate::text::is_uppercase;
use crate::text::lowercase;
use crate::text::same_str;
use crate::text::to_lowercase;
use crate::text::uppercase_char;
use crate::text::views;

verus! {

/// A query with an uppercase letter is matched in exact case.
pub open spec fn case_sensitive(query: Seq<char>) -> bool {
    exists|i: int| 0 <= i < query.len() && uppercase_char(#[trigger] query[i])
}

/// Whether a query is matched in exact case: it is as soon as it holds an
/// uppercase letter.
pub fn is_case_sensitive(query: &str) -> (r: bool)
    ensures
        r == case_sensitive(query@),
{
    let cs = chars_of(query);
    let n: usize = cs.len();
    for i in 0..n
        invariant
            n == cs.len(),
            cs@ == query@,
            forall|j: int| 0 <= j < i ==> !uppercase_char(#[trigger] query@[j]),
    {
        if is_uppercase(cs[i]) {
            assert(uppercase_char(query@[i as int]));
            return true;
        }
    }
    false
}

/// A cluster as it is compared.
pub open spec fn folded(g: Seq<char>, exact: bool) -> Seq<char> {
    if exact {
        g
    } else {
        lowercase(g)
    }
}

fn fold_case(g: &str, exact: bool) -> (r: String)
    ensures
        r@ == folded(g@, exact),
{
    if exact {
        g.to_owned()
    } else {
        to_lowercase(g)
    }
}

/// Clusters as they are compared.
pub open spec fn folded_all(gs: Seq<Seq<char>>, exact: bool) -> Seq<Seq<char>> {
    gs.map_values(|g: Seq<char>| folded(g, exact))
}

fn fold_clusters(s: &str, exact: bool) -> (r: Vec<String>)
    ensures
        views(r@) == folded_all(grapheme_clusters(s@), exact),
{
    let gs = graphemes(s);
    let ghost all = folded_all(views(gs@), exact);
    let n: usize = gs.len();
    let mut out: Vec<String> = Vec::new();
    for i in 0..n
        invariant
            n == gs.len(),
            all == folded_all(views(gs@), exact),
            views(out@) == all.take(i as int),
    {
        let ghost pre = out@;
        out.push(fold_case(gs[i].as_str(), exact));
        proof {
            assert(views(gs@)[i as int] == gs@[i as int]@);
            assert(views(out@) =~= views(pre).push(out@.last()@));
            assert(all.take(i + 1) =~= all.take(i as int).push(all[i as int]));
        }
    }
    proof { assert(all.take(n as int) =~= all); }
    out
}

/// One cluster of the searched text, and the line and column it is on; a
/// space that a wrap dropped is on none.
#[verifier::ext_equal]
pub struct Cell {
    pub text: Seq<char>,
    pub origin: Option<(usize, usize)>,
}

/// The clusters of line `li`.
pub open spec fn line_clusters(line: Seq<SpanModel>, li: usize, exact: bool) -> Seq<Cell> {
    let gs = grapheme_clusters(line_text(line));
    Seq::new(
        gs.len(),
        |c: int| Cell { text: folded(gs[c], exact), origin: Some((li, c as usize)) },
    )
}

/// Whether a space was dropped between two lines: neither side of the wrap is
/// a script that wraps anywhere.
pub open spec fn space_dropped(a: Seq<char>, b: Seq<char>) -> bool {
    a.len() > 0 && b.len() > 0 && !cjk_char(a.last()) && !cjk_char(b.first())
}

/// The space that a wrap dropped.
pub open spec fn glue(exact: bool) -> Cell {
    Cell { text: folded(seq![' '], exact), origin: None }
}

/// The lines `start..end` joined, with the dropped spaces back in; `last` is
/// the last line of the run.
pub open spec fn joined(
    lines: Seq<LaidLine>,
    start: int,
    end: int,
    last: int,
    exact: bool,
) -> Seq<Cell>
    decreases end - start,
{
    if end <= start {
        Seq::empty()
    } else {
        let li = end - 1;
        let so_far = joined(lines, start, li, last, exact) + line_clusters(
            lines[li]@,
            li as usize,
            exact,
        );
        if li < last && space_dropped(line_text(lines[li]@), line_text(lines[li + 1]@)) {
            so_far.push(glue(exact))
        } else {
            so_far
        }
    }
}

/// The texts of cells.
pub open spec fn cell_texts(cells: Seq<Cell>) -> Seq<Seq<char>> {
    cells.map_values(|c: Cell| c.text)
}

/// The origins of cells.
pub open spec fn cell_origins(cells: Seq<Cell>) -> Seq<Option<(usize, usize)>> {
    cells.map_values(|c: Cell| c.origin)
}

/// The pieces that are closed, and the one that is open.
#[verifier::ext_equal]
pub struct Pieces {
    pub closed: Seq<(usize, MatchSpan)>,
    pub open: Option<(usize, MatchSpan)>,
}

/// The pieces of a match: one for each line it touches, from its first column
/// there to its last.
pub open spec fn pieces_of_match(origins: Seq<Option<(usize, usize)>>) -> Pieces
    decreases origins.len(),
{
    if origins.len() == 0 {
        Pieces { closed: Seq::empty(), open: None }
    } else {
        let before = pieces_of_match(origins.drop_last());
        match origins.last() {
            None => before,
            Some((line, col)) => match before.open {
                Some((at, span)) => if at == line {
                    Pieces {
                        closed: before.closed,
                        open: Some((at, MatchSpan { start: span.start, end: (col + 1) as usize })),
                    }
                } else {
                    Pieces {
                        closed: before.closed.push((at, span)),
                        open: Some((line, MatchSpan { start: col, end: (col + 1) as usize })),
                    }
                },
                None => Pieces {
                    closed: before.closed,
                    open: Some((line, MatchSpan { start: col, end: (col + 1) as usize })),
                },
            },
        }
    }
}

/// All pieces of a match.
pub open spec fn match_pieces(origins: Seq<Option<(usize, usize)>>) -> Seq<(usize, MatchSpan)> {
    let p = pieces_of_match(origins);
    match p.open {
        Some(piece) => p.closed.push(piece),
        None => p.closed,
    }
}

/// The matches of `q` in `cells` from `pos` on: left to right, none
/// overlapping the one before it.
pub open spec fn matches_from(cells: Seq<Cell>, q: Seq<Seq<char>>, pos: int) -> Seq<
    Seq<(usize, MatchSpan)>,
>
    decreases cells.len() - pos,
{
    if q.len() == 0 || pos < 0 || pos + q.len() > cells.len() {
        Seq::empty()
    } else {
        let here = cells.subrange(pos, pos + q.len());
        if cell_texts(here) == q {
            let pieces = match_pieces(cell_origins(here));
            let rest = matches_from(cells, q, pos + q.len());
            if pieces.len() > 0 {
                seq![pieces] + rest
            } else {
                rest
            }
        } else {
            matches_from(cells, q, pos + 1)
        }
    }
}

/// The last line of the run that starts at line `i`.
pub open spec fn run_end(continuation: Seq<bool>, i: int, n: int) -> int
    decreases n - i,
{
    if i + 1 < n && 0 <= i < continuation.len() && continuation[i] {
        run_end(continuation, i + 1, n)
    } else {
        i
    }
}

/// The matches in the runs from line `i` on.
pub open spec fn found_from(
    lines: Seq<LaidLine>,
    continuation: Seq<bool>,
    q: Seq<Seq<char>>,
    exact: bool,
    i: int,
) -> Seq<Seq<(usize, MatchSpan)>>
    decreases lines.len() - i,
{
    if i < 0 || i >= lines.len() {
        Seq::empty()
    } else {
        let end = run_end(continuation, i, lines.len() as int);
        if end < i || end >= lines.len() {
            Seq::empty()
        } else {
            matches_from(joined(lines, i, end + 1, end, exact), q, 0) + found_from(
                lines,
                continuation,
                q,
                exact,
                end + 1,
            )
        }
    }
}

/// Every occurrence of a query in laid-out lines, in reading order.
pub open spec fn found(lines: Seq<LaidLine>, continuation: Seq<bool>, query: Seq<char>) -> Seq<
    Seq<(usize, MatchSpan)>,
> {
    let exact = case_sensitive(query);
    if query.len() == 0 {
        Seq::empty()
    } else {
        found_from(
            lines,
            continuation,
            folded_all(grapheme_clusters(query), exact),
            exact,
            0,
        )
    }
}

/// The pieces of occurrences.
pub open spec fn occurrence_pieces(list: Seq<Occurrence>) -> Seq<Seq<(usize, MatchSpan)>> {
    list.map_values(|o: Occurrence| o.pieces@)
}

proof fn lemma_run_end(continuation: Seq<bool>, i: int, n: int)
    requires
        0 <= i < n,
    ensures
        i <= run_end(continuation, i, n) < n,
    decreases n - i,
{
    if i + 1 < n && i < continuation.len() && continuation[i] {
        lemma_run_end(continuation, i + 1, n);
    }
}

/// Columns are below the largest `usize`.
spec fn columns_bounded(origins: Seq<Option<(usize, usize)>>) -> bool {
    forall|k: int|
        0 <= k < origins.len() ==> (#[trigger] origins[k] matches Some(p) ==> p.1 < usize::MAX)
}

/// The searched text of one run: clusters and where each is.
struct RunText {
    texts: Vec<String>,
    origins: Vec<Option<(usize, usize)>>,
}

impl RunText {
    spec fn holds(self, cells: Seq<Cell>) -> bool {
        &&& views(self.texts@) == cell_texts(cells)
        &&& self.origins@ == cell_origins(cells)
        &&& columns_bounded(self.origins@)
    }

    fn put(&mut self, text: String, origin: Option<(usize, usize)>, Ghost(cells): Ghost<Seq<Cell>>)
        requires
            old(self).holds(cells),
            origin matches Some(p) ==> p.1 < usize::MAX,
        ensures
            final(self).holds(cells.push(Cell { text: text@, origin })),
    {
        let ghost c = Cell { text: text@, origin };
        let ghost pre = self.texts@;
        self.texts.push(text);
        self.origins.push(origin);
        proof {
            assert(views(self.texts@) =~= views(pre).push(text@));
            assert(cell_texts(cells.push(c)) =~= cell_texts(cells).push(text@));
            assert(cell_origins(cells.push(c)) =~= cell_origins(cells).push(origin));
        }
    }

    fn add_line(
        &mut self,
        line: &LaidLine,
        li: usize,
        exact: bool,
        Ghost(cells): Ghost<Seq<Cell>>,
    ) -> (text: String)
        requires
            old(self).holds(cells),
        ensures
            final(self).holds(cells + line_clusters(line@, li, exact)),
            text@ == line_text(line@),
    {
        let text = laid_line_text(line);
        let gs = graphemes(text.as_str());
        let n: usize = gs.len();
        let ghost all = line_clusters(line@, li, exact);
        proof { assert(cells + all.take(0) =~= cells); }
        for c in 0..n
            invariant
                n == gs.len(),
                views(gs@) == grapheme_clusters(line_text(line@)),
                all == line_clusters(line@, li, exact),
                self.holds(cells + all.take(c as int)),
        {
            proof {
                assert(views(gs@)[c as int] == gs@[c as int]@);
                assert(cells + all.take(c + 1) =~= (cells + all.take(c as int)).push(
                    all[c as int],
                ));
            }
            self.put(
                fold_case(gs[c].as_str(), exact),
                Some((li, c)),
                Ghost(cells + all.take(c as int)),
            );
        }
        proof { assert(all.take(n as int) =~= all); }
        text
    }
}

fn drops_space(a: &str, b: &str) -> (r: bool)
    ensures
        r == space_dropped(a@, b@),
{
    let x = chars_of(a);
    let y = chars_of(b);
    x.len() > 0 && y.len() > 0 && !is_cjk(x[x.len() - 1]) && !is_cjk(y[0])
}

fn join_run(lines: &Vec<LaidLine>, start: usize, end: usize, exact: bool) -> (r: RunText)
    requires
        start <= end < lines.len(),
    ensures
        r.holds(joined(lines@, start as int, end + 1, end as int, exact)),
{
    let mut run = RunText { texts: Vec::new(), origins: Vec::new() };
    proof {
        assert(views(run.texts@) =~= cell_texts(Seq::empty()));
        assert(run.origins@ =~= cell_origins(Seq::empty()));
    }
    let mut li: usize = start;
    while li <= end
        invariant
            start <= li <= end + 1,
            end < lines.len(),
            run.holds(joined(lines@, start as int, li as int, end as int, exact)),
        decreases end + 1 - li,
    {
        let ghost before = joined(lines@, start as int, li as int, end as int, exact);
        let text = run.add_line(&lines[li], li, exact, Ghost(before));
        if li < end {
            let next = laid_line_text(&lines[li + 1]);
            if drops_space(text.as_str(), next.as_str()) {
                proof {
                    reveal_strlit(" ");
                    assert(" "@ =~= seq![' ']);
                }
                run.put(
                    fold_case(" ", exact),
                    None,
                    Ghost(before + line_clusters(lines@[li as int]@, li, exact)),
                );
            }
        }
        li = li + 1;
    }
    run
}

fn same_from(texts: &Vec<String>, pos: usize, q: &Vec<String>) -> (r: bool)
    requires
        pos + q.len() <= texts.len(),
    ensures
        r == (views(texts@).subrange(pos as int, pos + q.len()) == views(q@)),
{
    let n: usize = q.len();
    let ghost here = views(texts@).subrange(pos as int, pos + n);
    for k in 0..n
        invariant
            n == q.len(),
            pos + n <= texts.len(),
            here == views(texts@).subrange(pos as int, pos + n),
            forall|j: int| 0 <= j < k ==> #[trigger] here[j] == views(q@)[j],
    {
        if !same_str(texts[pos + k].as_str(), q[k].as_str()) {
            assert(here[k as int] != views(q@)[k as int]);
            return false;
        }
        assert(here[k as int] == views(q@)[k as int]);
    }
    assert(here =~= views(q@));
    true
}

/// Folds the origins of a match into its pieces; nothing where every cluster
/// was a dropped space.
fn occurrence_from_origins(origins: &Vec<Option<(usize, usize)>>, from: usize, to: usize) -> (r:
    Option<Occurrence>)
    requires
        from <= to <= origins.len(),
        columns_bounded(origins@),
    ensures
        match r {
            Some(o) => o.pieces@ == match_pieces(origins@.subrange(from as int, to as int))
                && o.pieces@.len() > 0,
            None => match_pieces(origins@.subrange(from as int, to as int)).len() == 0,
        },
{
    let mut pieces: Vec<(usize, MatchSpan)> = Vec::new();
    let mut open: Option<(usize, MatchSpan)> = None;
    let mut k: usize = from;
    let ghost all = origins@;
    while k < to
        invariant
            from <= k <= to <= origins.len(),
            all == origins@,
            columns_bounded(origins@),
            pieces@ == pieces_of_match(all.subrange(from as int, k as int)).closed,
            open == pieces_of_match(all.subrange(from as int, k as int)).open,
        decreases to - k,
    {
        proof {
            assert(all.subrange(from as int, k + 1).drop_last() =~= all.subrange(
                from as int,
                k as int,
            ));
        }
        if let Some((line, col)) = origins[k] {
            assert(origins@[k as int] == Some((line, col)));
            match open {
                Some((at, span)) => {
                    if at == line {
                        open = Some((at, MatchSpan { start: span.start, end: col + 1 }));
                    } else {
                        pieces.push((at, span));
                        open = Some((line, MatchSpan { start: col, end: col + 1 }));
                    }
                },
                None => {
                    open = Some((line, MatchSpan { start: col, end: col + 1 }));
                },
            }
        }
        k = k + 1;
    }
    if let Some(piece) = open {
        pieces.push(piece);
    }
    if pieces.len() > 0 {
        Some(Occurrence { pieces })
    } else {
        None
    }
}

fn find_in_run(run: &RunText, Ghost(cells): Ghost<Seq<Cell>>, q: &Vec<String>, out: &mut Vec<
    Occurrence,
>)
    requires
        run.holds(cells),
        q.len() > 0,
    ensures
        occurrence_pieces(final(out)@) == occurrence_pieces(old(out)@) + matches_from(
            cells,
            views(q@),
            0,
        ),
{
    let ghost base = occurrence_pieces(out@);
    let n: usize = run.texts.len();
    let m: usize = q.len();
    proof {
        assert(views(run.texts@).len() == n);
        assert(cell_texts(cells).len() == cells.len());
        assert(run.origins@.len() == cells.len());
    }
    let mut pos: usize = 0;
    while pos <= n && n - pos >= m
        invariant
            n == run.texts.len() == run.origins.len() == cells.len(),
            m == q.len() > 0,
            pos <= n,
            run.holds(cells),
            base + matches_from(cells, views(q@), 0) == occurrence_pieces(out@) + matches_from(
                cells,
                views(q@),
                pos as int,
            ),
        decreases n - pos,
    {
        let ghost here = cells.subrange(pos as int, pos + m);
        proof {
            assert(cell_texts(here) =~= views(run.texts@).subrange(pos as int, pos + m));
            assert(cell_origins(here) =~= run.origins@.subrange(pos as int, pos + m));
        }
        if same_from(&run.texts, pos, q) {
            let ghost pre = out@;
            let ghost rest = matches_from(cells, views(q@), pos + m);
            if let Some(o) = occurrence_from_origins(&run.origins, pos, pos + m) {
                out.push(o);
                proof {
                    assert(occurrence_pieces(out@) =~= occurrence_pieces(pre).push(o.pieces@));
                    assert(occurrence_pieces(pre) + (seq![o.pieces@] + rest)
                        =~= occurrence_pieces(out@) + rest);
                }
            }
            pos = pos + m;
        } else {
            pos = pos + 1;
        }
    }
    proof {
        assert(matches_from(cells, views(q@), pos as int) =~= Seq::empty());
        assert(occurrence_pieces(out@) + Seq::<Seq<(usize, MatchSpan)>>::empty()
            =~= occurrence_pieces(out@));
    }
}

/// Finds every occurrence of `query` in laid-out lines, in reading order. A
/// chain of lines that run on is searched as one text, so a query that a wrap
/// cut in two is found as one occurrence with two pieces.
pub fn find_matches(lines: &Vec<LaidLine>, continuation: &Vec<bool>, query: &str) -> (r: Vec<
    Occurrence,
>)
    ensures
        occurrence_pieces(r@) == found(lines@, continuation@, query@),
{
    let mut out: Vec<Occurrence> = Vec::new();
    proof { assert(occurrence_pieces(out@) =~= Seq::empty()); }
    let n: usize = lines.len();
    if query.is_empty() {
        return out;
    }
    let exact = is_case_sensitive(query);
    let q = fold_clusters(query, exact);
    let ghost goal = found(lines@, continuation@, query@);
    if q.len() == 0 {
        proof {
            lemma_nothing_found(lines@, continuation@, views(q@), exact, 0);
        }
        return out;
    }
    proof {
        assert(occurrence_pieces(out@) + goal =~= goal);
    }
    let mut i: usize = 0;
    while i < n
        invariant
            n == lines.len(),
            i <= n,
            q.len() > 0,
            goal == occurrence_pieces(out@) + found_from(
                lines@,
                continuation@,
                views(q@),
                exact,
                i as int,
            ),
        decreases n - i,
    {
        proof { lemma_run_end(continuation@, i as int, n as int); }
        let mut end: usize = i;
        while end + 1 < n && end < continuation.len() && continuation[end]
            invariant
                i <= end < n,
                n == lines.len(),
                run_end(continuation@, i as int, n as int) == run_end(
                    continuation@,
                    end as int,
                    n as int,
                ),
            decreases n - end,
        {
            end = end + 1;
        }
        let run = join_run(lines, i, end, exact);
        let ghost cells = joined(lines@, i as int, end + 1, end as int, exact);
        let ghost before = occurrence_pieces(out@);
        find_in_run(&run, Ghost(cells), &q, &mut out);
        proof {
            let here = matches_from(cells, views(q@), 0);
            let rest = found_from(lines@, continuation@, views(q@), exact, end + 1);
            assert(before + (here + rest) =~= before + here + rest);
        }
        i = end + 1;
    }
    proof {
        assert(occurrence_pieces(out@) + Seq::<Seq<(usize, MatchSpan)>>::empty()
            =~= occurrence_pieces(out@));
    }
    out
}

proof fn lemma_nothing_found(
    lines: Seq<LaidLine>,
    continuation: Seq<bool>,
    q: Seq<Seq<char>>,
    exact: bool,
    i: int,
)
    requires
        q.len() == 0,
    ensures
        found_from(lines, continuation, q, exact, i) == Seq::<Seq<(usize, MatchSpan)>>::empty(),
    decreases lines.len() - i,
{
    if 0 <= i < lines.len() {
        let end = run_end(continuation, i, lines.len() as int);
        lemma_run_end(continuation, i, lines.len() as int);
        lemma_nothing_found(lines, continuation, q, exact, end + 1);
    }
}

/// Whether a line holds a "citation needed" marker.
pub open spec fn marked(line: Seq<SpanModel>) -> bool {
    exists|k: int| 0 <= k < line.len() && (#[trigger] line[k]).kind == KindModel::CitationNeeded
}

/// A line where a marker starts: it holds one, and does not run on from a
/// line that does.
pub open spec fn marker_starts(lines: Seq<LaidLine>, continuation: Seq<bool>, i: int) -> bool {
    &&& marked(lines[i]@)
    &&& !(i > 0 && marked(lines[i - 1]@) && i - 1 < continuation.len() && continuation[i - 1])
}

/// The lines below `n` where a marker starts.
pub open spec fn marker_lines(lines: Seq<LaidLine>, continuation: Seq<bool>, n: int) -> Seq<usize>
    decreases n,
{
    if n <= 0 {
        Seq::empty()
    } else if marker_starts(lines, continuation, n - 1) {
        marker_lines(lines, continuation, n - 1).push((n - 1) as usize)
    } else {
        marker_lines(lines, continuation, n - 1)
    }
}

fn has_marker(line: &LaidLine) -> (r: bool)
    ensures
        r == marked(line@),
{
    let n: usize = line.spans.len();
    for k in 0..n
        invariant
            n == line.spans.len(),
            forall|j: int| 0 <= j < k ==> (#[trigger] line@[j]).kind != KindModel::CitationNeeded,
    {
        if let SpanKind::CitationNeeded = &line.spans[k].kind {
            assert(line@[k as int].kind == KindModel::CitationNeeded);
            return true;
        }
        assert(line@[k as int].kind != KindModel::CitationNeeded);
    }
    false
}

/// The line of every "citation needed" marker; one that wraps is one stop.
pub fn citation_needed_lines(lines: &Vec<LaidLine>, continuation: &Vec<bool>) -> (r: Vec<usize>)
    ensures
        r@ == marker_lines(lines@, continuation@, lines@.len() as int),
{
    let mut out: Vec<usize> = Vec::new();
    let mut in_run = false;
    let n: usize = lines.len();
    for i in 0..n
        invariant
            n == lines.len(),
            in_run == (i > 0 && marked(lines@[i - 1]@)),
            out@ == marker_lines(lines@, continuation@, i as int),
    {
        let here = has_marker(&lines[i]);
        let runs_on = in_run && i > 0 && i - 1 < continuation.len() && continuation[i - 1];
        if here && !runs_on {
            out.push(i);
        }
        in_run = here;
    }
    out
}

} // verus!
