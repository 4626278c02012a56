//! What justification changes in rows of wrapped text.
use vstd::prelude::*;

use crate::layout::cluster::space_model;
use crate::layout::cluster::ClusterModel;
use crate::layout::emit::blank_rows;
use crate::layout::emit::prefix_fits;
use crate::layout::emit::spaced_rows;
use crate::layout::emit::wrap_width;
use crate::layout::emit::wrapped_rows;
use crate::layout::emit::Row;
use crate::layout::emit::Shape;
use crate::layout::fill::at_least_one;
use crate::layout::fill::chunked;
use crate::layout::fill::closed_lines;
use crate::layout::fill::filled;
use crate::layout::fill::justified;
use crate::layout::fill::packed;
use crate::layout::fill::placed;
use crate::layout::fill::room;
use crate::layout::fill::settled_chunks;
use crate::layout::fill::stretches;
use crate::layout::fill::Chunks;
use crate::layout::fill::Packed;
use crate::layout::line::coalesced;
use crate::layout::line::final_line;
use crate::layout::line::runs_of;
use crate::layout::line::wrapped;
use crate::layout::types::line_text;
use crate::layout::types::line_texts;
use crate::layout::types::SpanModel;
use crate::layout::wrap::cut;
use crate::layout::wrap::hyphen_head;
use crate::layout::wrap::hyphen_split;
use crate::layout::wrap::hyphenation_points_of;
use crate::layout::wrap::lemma_best_split;
use crate::layout::wrap::pieces_of;
use crate::layout::wrap::PieceModel;
use crate::layout::wrap::WrapOpts;
use crate::text::all_whitespace;
use crate::text::spaces;
use crate::text::whitespace;
use crate::text::word_cut;
use crate::text::words_of;

verus! {

/// A text one character longer, its runs of whitespace still single spaces.
pub open spec fn squeezed_with(t: Seq<char>, c: char) -> Seq<char> {
    if !whitespace(c) {
        t.push(c)
    } else if t.len() > 0 && t.last() == ' ' {
        t
    } else {
        t.push(' ')
    }
}

/// The text with every run of whitespace as a single space.
pub open spec fn squeezed(s: Seq<char>) -> Seq<char>
    decreases s.len(),
{
    if s.len() == 0 {
        Seq::empty()
    } else {
        squeezed_with(squeezed(s.drop_last()), s.last())
    }
}

/// Whitespace and nothing else, but not empty.
pub open spec fn blank(t: Seq<char>) -> bool {
    t.len() > 0 && all_whitespace(t)
}

/// Two squeezed texts as one, a space where they meet counted once.
spec fn glued(a: Seq<char>, b: Seq<char>) -> Seq<char> {
    if a.len() > 0 && b.len() > 0 && a.last() == ' ' && b[0] == ' ' {
        a + b.drop_first()
    } else {
        a + b
    }
}

proof fn lemma_squeezed_add(a: Seq<char>, b: Seq<char>)
    ensures
        squeezed(a + b) == glued(squeezed(a), squeezed(b)),
    decreases b.len(),
{
    if b.len() == 0 {
        assert(a + b =~= a);
        assert(squeezed(a) + squeezed(b) =~= squeezed(a));
    } else {
        let front = b.drop_last();
        let c = b.last();
        lemma_squeezed_add(a, front);
        assert((a + b).drop_last() =~= a + front);
        let x = squeezed(a);
        let y = squeezed(front);
        assert(squeezed_with(glued(x, y), c) =~= glued(x, squeezed_with(y, c)));
    }
}

proof fn lemma_squeezed_blank(t: Seq<char>)
    requires
        blank(t),
    ensures
        squeezed(t) == seq![' '],
    decreases t.len(),
{
    let front = t.drop_last();
    assert(whitespace(t[t.len() - 1]));
    if front.len() > 0 {
        assert forall|i: int| 0 <= i < front.len() implies whitespace(#[trigger] front[i]) by {
            assert(front[i] == t[i]);
        }
        lemma_squeezed_blank(front);
    } else {
        reveal_with_fuel(squeezed, 2);
        assert(squeezed(t) =~= seq![' ']);
    }
}

proof fn lemma_squeezed_cut(s: Seq<char>)
    ensures
        word_cut(squeezed(s)) == word_cut(s),
        squeezed(s).len() > 0 && squeezed(s).last() == ' ' ==> word_cut(s).open.len() == 0,
    decreases s.len(),
{
    if s.len() > 0 {
        lemma_squeezed_cut(s.drop_last());
        let t = squeezed(s.drop_last());
        let c = s.last();
        assert(whitespace(' '));
        assert(t.push(c).drop_last() =~= t);
        assert(t.push(' ').drop_last() =~= t);
    }
}

/// Texts that differ in the width of their gaps alone have the same words.
pub proof fn squeezing_keeps_the_words(a: Seq<char>, b: Seq<char>)
    requires
        squeezed(a) == squeezed(b),
    ensures
        words_of(a) == words_of(b),
{
    lemma_squeezed_cut(a);
    lemma_squeezed_cut(b);
}

/// A gap is whitespace.
spec fn tidy(c: ClusterModel) -> bool {
    c.is_space ==> blank(c.text)
}

spec fn all_tidy(cs: Seq<ClusterModel>) -> bool {
    forall|i: int| 0 <= i < cs.len() ==> tidy(#[trigger] cs[i])
}

spec fn lines_tidy(lines: Seq<Seq<ClusterModel>>) -> bool {
    forall|i: int| 0 <= i < lines.len() ==> all_tidy(#[trigger] lines[i])
}

spec fn chunks_tidy(c: Chunks) -> bool {
    lines_tidy(c.lines) && all_tidy(c.cur)
}

spec fn pieces_tidy(pieces: Seq<PieceModel>) -> bool {
    forall|i: int| 0 <= i < pieces.len() ==> all_tidy((#[trigger] pieces[i]).clusters)
}

proof fn lemma_tidy_add(a: Seq<ClusterModel>, b: Seq<ClusterModel>)
    requires
        all_tidy(a),
        all_tidy(b),
    ensures
        all_tidy(a + b),
{
}

proof fn lemma_chunked(start: Chunks, clusters: Seq<ClusterModel>, avail: nat)
    requires
        chunks_tidy(start),
        all_tidy(clusters),
    ensures
        chunks_tidy(chunked(start, clusters, avail)),
    decreases clusters.len(),
{
    if clusters.len() > 0 {
        let front = clusters.drop_last();
        assert forall|i: int| 0 <= i < front.len() implies tidy(#[trigger] front[i]) by {
            assert(front[i] == clusters[i]);
        }
        lemma_chunked(start, front, avail);
        assert(tidy(clusters[clusters.len() - 1]));
    }
}

proof fn lemma_settled(p: Packed, clusters: Seq<ClusterModel>, avail: nat, space_w: nat)
    requires
        chunks_tidy(p.chunks),
        all_tidy(clusters),
    ensures
        chunks_tidy(settled_chunks(p, clusters, avail, space_w)),
{
    let cur = match p.gap {
        Some(kind) if p.chunks.cur.len() > 0 => p.chunks.cur.push(space_model(kind, space_w)),
        _ => p.chunks.cur,
    };
    assert(all_tidy(cur));
    lemma_tidy_add(cur, clusters);
    lemma_chunked(Chunks { lines: p.chunks.lines, cur }, clusters, avail);
}

proof fn lemma_placed(p: Packed, piece: PieceModel, avail: nat, opts: WrapOpts)
    requires
        chunks_tidy(p.chunks),
        all_tidy(piece.clusters),
    ensures
        chunks_tidy(placed(p, piece, avail, opts).chunks),
{
    let space_w = 1 + opts.word_spacing as nat;
    let split = hyphen_split(piece.clusters, room(p, avail, space_w));
    let none = Seq::<ClusterModel>::empty();
    lemma_settled(p, piece.clusters, avail, space_w);
    let whole = Packed {
        chunks: Chunks { lines: p.chunks.lines.push(p.chunks.cur), cur: none },
        gap: None,
    };
    lemma_settled(whole, piece.clusters, avail, space_w);
    if split > 0 {
        lemma_best_split(
            piece.clusters,
            hyphenation_points_of(piece.clusters),
            room(p, avail, space_w),
        );
        let cur = match p.gap {
            Some(kind) => p.chunks.cur.push(space_model(kind, space_w)),
            None => p.chunks.cur,
        };
        let head = hyphen_head(piece.clusters, split);
        assert(all_tidy(cur));
        assert(all_tidy(head));
        lemma_tidy_add(cur, head);
        let next = Packed {
            chunks: Chunks { lines: p.chunks.lines.push(cur + head), cur: none },
            gap: None,
        };
        assert(all_tidy(piece.clusters.skip(split)));
        lemma_settled(next, piece.clusters.skip(split), avail, space_w);
    }
}

proof fn lemma_packed(pieces: Seq<PieceModel>, avail: nat, opts: WrapOpts)
    requires
        pieces_tidy(pieces),
    ensures
        chunks_tidy(packed(pieces, avail, opts).chunks),
    decreases pieces.len(),
{
    if pieces.len() > 0 {
        let front = pieces.drop_last();
        assert forall|i: int| 0 <= i < front.len() implies all_tidy((#[trigger] front[i]).clusters)
            by {
            assert(front[i] == pieces[i]);
        }
        lemma_packed(front, avail, opts);
        assert(all_tidy(pieces[pieces.len() - 1].clusters));
        lemma_placed(packed(front, avail, opts), pieces.last(), avail, opts);
    }
}

proof fn lemma_cut(clusters: Seq<ClusterModel>, n: int)
    requires
        0 <= n <= clusters.len(),
    ensures
        pieces_tidy(cut(clusters, n).pieces),
        all_tidy(cut(clusters, n).open),
    decreases n,
{
    if n > 0 {
        lemma_cut(clusters, n - 1);
        let c = clusters[n - 1];
        let before = cut(clusters, n - 1);
        if !c.is_space {
            assert(all_tidy(before.open.push(c)));
        }
    }
}

/// The same, wrapped without justification.
pub open spec fn ragged(opts: WrapOpts) -> WrapOpts {
    WrapOpts { justify: false, ..opts }
}

proof fn lemma_packed_ragged(pieces: Seq<PieceModel>, avail: nat, opts: WrapOpts)
    ensures
        packed(pieces, avail, ragged(opts)) == packed(pieces, avail, opts),
    decreases pieces.len(),
{
    if pieces.len() > 0 {
        lemma_packed_ragged(pieces.drop_last(), avail, opts);
    }
}

/// Clusters that differ, if at all, in how wide a gap they are.
pub open spec fn same_cluster(a: ClusterModel, b: ClusterModel) -> bool {
    a.kind == b.kind && (a.text == b.text || blank(a.text) && blank(b.text))
}

/// Runs of clusters that differ, if at all, in how wide their gaps are.
pub open spec fn same_clusters(a: Seq<ClusterModel>, b: Seq<ClusterModel>) -> bool {
    a.len() == b.len() && forall|i: int|
        0 <= i < a.len() ==> same_cluster(#[trigger] a[i], b[i])
}

/// Lines that differ, if at all, in how wide their gaps are.
pub open spec fn same_lines(a: Seq<Seq<ClusterModel>>, b: Seq<Seq<ClusterModel>>) -> bool {
    a.len() == b.len() && forall|i: int|
        0 <= i < a.len() ==> same_clusters(#[trigger] a[i], b[i])
}

proof fn lemma_justified(line: Seq<ClusterModel>, avail: nat)
    requires
        all_tidy(line),
    ensures
        same_clusters(justified(line, avail), line),
{
    let out = justified(line, avail);
    assert forall|i: int| 0 <= i < out.len() implies same_cluster(#[trigger] out[i], line[i]) by {
        assert(tidy(line[i]));
        assert(whitespace(' '));
        if stretches(line, avail) && line[i].is_space && out[i] != line[i] {
            assert(blank(out[i].text));
        }
    }
}

proof fn lemma_filled(pieces: Seq<PieceModel>, avail: nat, opts: WrapOpts)
    requires
        pieces_tidy(pieces),
    ensures
        same_lines(filled(pieces, avail, opts), filled(pieces, avail, ragged(opts))),
{
    let width = at_least_one(avail);
    lemma_packed(pieces, width, opts);
    lemma_packed_ragged(pieces, width, opts);
    let lines = closed_lines(packed(pieces, width, opts).chunks);
    assert(lines_tidy(lines));
    let out = filled(pieces, avail, opts);
    assert forall|i: int| 0 <= i < out.len() implies same_clusters(#[trigger] out[i], lines[i]) by {
        assert(all_tidy(lines[i]));
        lemma_justified(lines[i], width);
    }
}

proof fn lemma_run(clusters: Seq<ClusterModel>, avail: nat, opts: WrapOpts)
    ensures
        same_lines(
            filled(pieces_of(clusters), avail, opts),
            filled(pieces_of(clusters), avail, ragged(opts)),
        ),
{
    lemma_cut(clusters, clusters.len() as int);
    lemma_filled(pieces_of(clusters), avail, opts);
}

proof fn lemma_runs(clusters: Seq<ClusterModel>, avail: nat, opts: WrapOpts)
    ensures
        same_lines(
            runs_of(clusters, avail, opts).lines,
            runs_of(clusters, avail, ragged(opts)).lines,
        ),
        runs_of(clusters, avail, opts).open == runs_of(clusters, avail, ragged(opts)).open,
    decreases clusters.len(),
{
    if clusters.len() > 0 {
        let front = clusters.drop_last();
        lemma_runs(front, avail, opts);
        lemma_run(runs_of(front, avail, opts).open, avail, opts);
    }
}

/// Lines that are justified differ in the width of their gaps alone.
pub proof fn lemma_wrapped(clusters: Seq<ClusterModel>, avail: nat, opts: WrapOpts)
    ensures
        same_lines(wrapped(clusters, avail, opts), wrapped(clusters, avail, ragged(opts))),
{
    lemma_runs(clusters, avail, opts);
    lemma_run(runs_of(clusters, avail, opts).open, avail, opts);
}

/// Spans that differ, if at all, in the width of their gaps.
pub open spec fn same_span(a: SpanModel, b: SpanModel) -> bool {
    a.kind == b.kind && squeezed(a.text) == squeezed(b.text)
}

/// Lines that differ, if at all, in the width of their gaps.
pub open spec fn same_line(a: Seq<SpanModel>, b: Seq<SpanModel>) -> bool {
    a.len() == b.len() && forall|i: int| 0 <= i < a.len() ==> same_span(#[trigger] a[i], b[i])
}

/// Rows that differ, if at all, in the width of their gaps.
pub open spec fn same_rows(a: Seq<Row>, b: Seq<Row>) -> bool {
    a.len() == b.len() && forall|i: int|
        0 <= i < a.len() ==> (#[trigger] a[i]).cont == b[i].cont && same_line(a[i].line, b[i].line)
}

proof fn lemma_coalesced(a: Seq<ClusterModel>, b: Seq<ClusterModel>)
    requires
        same_clusters(a, b),
    ensures
        same_line(coalesced(a), coalesced(b)),
    decreases a.len(),
{
    if a.len() > 0 {
        let (fa, fb) = (a.drop_last(), b.drop_last());
        assert forall|i: int| 0 <= i < fa.len() implies same_cluster(#[trigger] fa[i], fb[i]) by {
            assert(fa[i] == a[i]);
        }
        lemma_coalesced(fa, fb);
        let (ca, cb) = (a.last(), b.last());
        assert(same_cluster(a[a.len() - 1], b[a.len() - 1]));
        if ca.text != cb.text {
            lemma_squeezed_blank(ca.text);
            lemma_squeezed_blank(cb.text);
        }
        let (xa, xb) = (coalesced(fa), coalesced(fb));
        if xa.len() > 0 {
            assert(same_span(xa[xa.len() - 1], xb[xa.len() - 1]));
            lemma_squeezed_add(xa.last().text, ca.text);
            lemma_squeezed_add(xb.last().text, cb.text);
        }
    }
}

proof fn lemma_final_line(
    pad: nat,
    prefix: Seq<SpanModel>,
    a: Seq<ClusterModel>,
    b: Seq<ClusterModel>,
)
    requires
        same_clusters(a, b),
    ensures
        same_line(final_line(pad, prefix, a), final_line(pad, prefix, b)),
{
    lemma_coalesced(a, b);
}

/// The same column, without justification.
pub open spec fn unjustified(shape: Shape) -> Shape {
    Shape { justify: false, ..shape }
}

/// Blank rows are the same.
pub proof fn lemma_blank_rows(shape: Shape, n: nat)
    ensures
        blank_rows(unjustified(shape), n) == blank_rows(shape, n),
{
    assert(blank_rows(unjustified(shape), n) =~= blank_rows(shape, n));
}

proof fn lemma_spaced(
    shape: Shape,
    a: Seq<Seq<ClusterModel>>,
    b: Seq<Seq<ClusterModel>>,
    first: Seq<SpanModel>,
    rest: Seq<SpanModel>,
    n: int,
)
    requires
        0 <= n <= a.len(),
        same_lines(a, b),
    ensures
        same_rows(
            spaced_rows(shape, a, first, rest, n),
            spaced_rows(unjustified(shape), b, first, rest, n),
        ),
    decreases n,
{
    if n > 0 {
        lemma_spaced(shape, a, b, first, rest, n - 1);
        assert(same_clusters(a[n - 1], b[n - 1]));
        lemma_final_line(
            shape.pad_width as nat,
            if n == 1 {
                first
            } else {
                rest
            },
            a[n - 1],
            b[n - 1],
        );
        lemma_blank_rows(shape, shape.line_spacing as nat);
    }
}

/// Wrapped content breaks in the same places.
pub proof fn lemma_wrapped_rows(
    shape: Shape,
    content: Seq<ClusterModel>,
    first: Seq<SpanModel>,
    rest: Seq<SpanModel>,
    opts: WrapOpts,
)
    ensures
        same_rows(
            wrapped_rows(shape, content, first, rest, opts),
            wrapped_rows(unjustified(shape), content, first, rest, ragged(opts)),
        ),
{
    let avail = wrap_width(shape, first, content);
    lemma_wrapped(content, avail, opts);
    let head = if prefix_fits(shape, first, content) {
        first
    } else {
        Seq::empty()
    };
    let tail = if prefix_fits(shape, first, content) {
        rest
    } else {
        Seq::empty()
    };
    lemma_blank_rows(shape, shape.line_spacing as nat);
    let a = wrapped(content, avail, opts);
    lemma_spaced(shape, a, wrapped(content, avail, ragged(opts)), head, tail, a.len() as int);
}

/// Lines that differ in the width of their gaps alone have the same words.
pub proof fn lemma_line_words(a: Seq<SpanModel>, b: Seq<SpanModel>)
    requires
        same_line(a, b),
    ensures
        words_of(line_text(a)) == words_of(line_text(b)),
{
    lemma_line_squeezed(a, b);
    squeezing_keeps_the_words(line_text(a), line_text(b));
}

proof fn lemma_line_squeezed(a: Seq<SpanModel>, b: Seq<SpanModel>)
    requires
        same_line(a, b),
    ensures
        squeezed(line_text(a)) == squeezed(line_text(b)),
    decreases a.len(),
{
    if a.len() > 0 {
        let (fa, fb) = (a.drop_last(), b.drop_last());
        assert forall|i: int| 0 <= i < fa.len() implies same_span(#[trigger] fa[i], fb[i]) by {
            assert(fa[i] == a[i]);
        }
        lemma_line_squeezed(fa, fb);
        assert(same_span(a[a.len() - 1], b[a.len() - 1]));
        assert(line_texts(a).drop_last() =~= line_texts(fa));
        assert(line_texts(b).drop_last() =~= line_texts(fb));
        lemma_squeezed_add(line_text(fa), a.last().text);
        lemma_squeezed_add(line_text(fb), b.last().text);
    }
}

/// Two gaps are the same but for their width.
pub proof fn lemma_gaps(n: nat, m: nat)
    requires
        n > 0,
        m > 0,
    ensures
        squeezed(spaces(n)) == squeezed(spaces(m)),
{
    assert(whitespace(' '));
    lemma_squeezed_blank(spaces(n));
    lemma_squeezed_blank(spaces(m));
}

} // verus!
