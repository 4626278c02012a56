//! Wrapping keeps the order of what it wraps.
use vstd::prelude::*;

use crate::layout::cluster::cluster_model;
use crate::layout::cluster::space_model;
use crate::layout::cluster::width_of;
use crate::layout::cluster::ClusterModel;
use crate::layout::fill::at_least_one;
use crate::layout::fill::chunked;
use crate::layout::fill::chunks_of;
use crate::layout::fill::closed_lines;
use crate::layout::fill::filled;
use crate::layout::fill::gap_width;
use crate::layout::fill::justification_touches_gaps_alone;
use crate::layout::fill::justified;
use crate::layout::fill::justified_lines;
use crate::layout::fill::packed;
use crate::layout::fill::placed;
use crate::layout::fill::room;
use crate::layout::fill::settled_chunks;
use crate::layout::fill::Chunks;
use crate::layout::fill::Packed;
use crate::layout::line::coalesced;
use crate::layout::line::runs_of;
use crate::layout::line::wrapped;
use crate::layout::types::KindModel;
use crate::layout::types::SpanModel;
use crate::layout::wrap::cut;
use crate::layout::wrap::hyphen_head;
use crate::layout::wrap::hyphen_split;
use crate::layout::wrap::hyphenation_points_of;
use crate::layout::wrap::lemma_best_split;
use crate::layout::wrap::pieces_of;
use crate::layout::wrap::PieceModel;
use crate::layout::wrap::SepModel;
use crate::layout::wrap::WrapOpts;

verus! {

/// The kinds of clusters.
pub open spec fn kinds(cs: Seq<ClusterModel>) -> Seq<KindModel> {
    cs.map_values(|c: ClusterModel| c.kind)
}

/// The kinds of spans.
pub open spec fn span_kinds(line: Seq<SpanModel>) -> Seq<KindModel> {
    line.map_values(|s: SpanModel| s.kind)
}

/// The kinds of the clusters of lines, line after line.
pub open spec fn line_kinds(lines: Seq<Seq<ClusterModel>>) -> Seq<KindModel>
    decreases lines.len(),
{
    if lines.len() == 0 {
        Seq::empty()
    } else {
        line_kinds(lines.drop_last()) + kinds(lines.last())
    }
}

/// `out` is picked from `from` in order: some are left out, some repeated, and
/// none comes before one that it came after. `at` says where each is from.
pub open spec fn picks(at: Seq<int>, out: Seq<KindModel>, from: Seq<KindModel>) -> bool {
    &&& at.len() == out.len()
    &&& forall|i: int|
        0 <= i < at.len() ==> 0 <= (#[trigger] at[i]) < from.len() && out[i] == from[at[i]]
    &&& forall|i: int, j: int| 0 <= i < j < at.len() ==> (#[trigger] at[i]) <= (#[trigger] at[j])
}

proof fn pick_all(s: Seq<KindModel>) -> (at: Seq<int>)
    ensures
        picks(at, s, s),
{
    Seq::new(s.len(), |i: int| i)
}

pub proof fn pick_both(
    f: Seq<int>,
    a: Seq<KindModel>,
    x: Seq<KindModel>,
    g: Seq<int>,
    b: Seq<KindModel>,
    y: Seq<KindModel>,
) -> (at: Seq<int>)
    requires
        picks(f, a, x),
        picks(g, b, y),
    ensures
        picks(at, a + b, x + y),
{
    let at = f + g.map_values(|k: int| k + x.len());
    assert forall|i: int| 0 <= i < at.len() implies 0 <= (#[trigger] at[i]) < (x + y).len() && (a
        + b)[i] == (x + y)[at[i]] by {
        if i < f.len() {
            assert(at[i] == f[i]);
        } else {
            assert(at[i] == g[i - f.len()] + x.len());
        }
    }
    assert forall|i: int, j: int| 0 <= i < j < at.len() implies (#[trigger] at[i]) <= (
    #[trigger] at[j]) by {
        if j < f.len() {
            assert(at[i] == f[i] && at[j] == f[j]);
        } else if i < f.len() {
            assert(at[i] == f[i] && at[j] == g[j - f.len()] + x.len());
        } else {
            assert(at[i] == g[i - f.len()] + x.len() && at[j] == g[j - f.len()] + x.len());
        }
    }
    at
}

proof fn pick_through(
    f: Seq<int>,
    a: Seq<KindModel>,
    b: Seq<KindModel>,
    g: Seq<int>,
    c: Seq<KindModel>,
) -> (at: Seq<int>)
    requires
        picks(f, a, b),
        picks(g, b, c),
    ensures
        picks(at, a, c),
{
    let at = f.map_values(|k: int| g[k]);
    assert forall|i: int| 0 <= i < at.len() implies 0 <= (#[trigger] at[i]) < c.len() && a[i]
        == c[at[i]] by {
        assert(at[i] == g[f[i]]);
    }
    assert forall|i: int, j: int| 0 <= i < j < at.len() implies (#[trigger] at[i]) <= (
    #[trigger] at[j]) by {
        assert(at[i] == g[f[i]] && at[j] == g[f[j]]);
        assert(f[i] <= f[j]);
    }
    at
}

/// The first part of what was picked is picked too, from more as well.
proof fn pick_part(
    f: Seq<int>,
    a: Seq<KindModel>,
    x: Seq<KindModel>,
    more: Seq<KindModel>,
    n: int,
) -> (at: Seq<int>)
    requires
        picks(f, a, x),
        0 <= n <= a.len(),
    ensures
        picks(at, a.take(n), x + more),
{
    let at = f.take(n);
    assert forall|i: int| 0 <= i < at.len() implies 0 <= (#[trigger] at[i]) < (x + more).len()
        && a.take(n)[i] == (x + more)[at[i]] by {
        assert(at[i] == f[i]);
    }
    assert forall|i: int, j: int| 0 <= i < j < at.len() implies (#[trigger] at[i]) <= (
    #[trigger] at[j]) by {
        assert(at[i] == f[i] && at[j] == f[j]);
    }
    at
}

proof fn lemma_kinds_add(a: Seq<ClusterModel>, b: Seq<ClusterModel>)
    ensures
        kinds(a + b) == kinds(a) + kinds(b),
{
    assert(kinds(a + b) =~= kinds(a) + kinds(b));
}

proof fn lemma_line_kinds_push(lines: Seq<Seq<ClusterModel>>, l: Seq<ClusterModel>)
    ensures
        line_kinds(lines.push(l)) == line_kinds(lines) + kinds(l),
{
    assert(lines.push(l).drop_last() =~= lines);
}

proof fn lemma_line_kinds_add(a: Seq<Seq<ClusterModel>>, b: Seq<Seq<ClusterModel>>)
    ensures
        line_kinds(a + b) == line_kinds(a) + line_kinds(b),
    decreases b.len(),
{
    if b.len() == 0 {
        assert(a + b =~= a);
        assert(line_kinds(a) + line_kinds(b) =~= line_kinds(a));
    } else {
        assert((a + b).drop_last() =~= a + b.drop_last());
        lemma_line_kinds_add(a, b.drop_last());
        assert(line_kinds(a + b) =~= line_kinds(a) + line_kinds(b));
    }
}

/// The kinds on the lines and on the open line.
spec fn held_kinds(c: Chunks) -> Seq<KindModel> {
    line_kinds(c.lines) + kinds(c.cur)
}

proof fn lemma_chunked_kinds(start: Chunks, clusters: Seq<ClusterModel>, avail: nat)
    ensures
        held_kinds(chunked(start, clusters, avail)) == held_kinds(start) + kinds(clusters),
    decreases clusters.len(),
{
    if clusters.len() == 0 {
        assert(held_kinds(start) + kinds(clusters) =~= held_kinds(start));
    } else {
        let front = clusters.drop_last();
        lemma_chunked_kinds(start, front, avail);
        let before = chunked(start, front, avail);
        let c = clusters.last();
        lemma_line_kinds_push(before.lines, before.cur);
        assert(kinds(before.cur.push(c)) =~= kinds(before.cur).push(c.kind));
        assert(kinds(seq![c]) =~= seq![c.kind]);
        assert(kinds(clusters) =~= kinds(front).push(c.kind));
        let after = chunked(start, clusters, avail);
        assert(held_kinds(after) =~= held_kinds(before).push(c.kind));
        assert(held_kinds(start) + kinds(clusters) =~= (held_kinds(start) + kinds(front)).push(
            c.kind,
        ));
    }
}

/// The kind of the waiting gap.
spec fn gap_kinds(p: Packed) -> Seq<KindModel> {
    match p.gap {
        Some(kind) => seq![kind],
        None => Seq::empty(),
    }
}

/// The kind of the waiting gap where it is put on the open line.
spec fn used_gap(p: Packed) -> Seq<KindModel> {
    if p.chunks.cur.len() > 0 {
        gap_kinds(p)
    } else {
        Seq::empty()
    }
}

proof fn lemma_settled_kinds(p: Packed, clusters: Seq<ClusterModel>, avail: nat, space_w: nat)
    ensures
        held_kinds(settled_chunks(p, clusters, avail, space_w)) == held_kinds(p.chunks) + used_gap(
            p,
        ) + kinds(clusters),
{
    let cur = match p.gap {
        Some(kind) if p.chunks.cur.len() > 0 => p.chunks.cur.push(space_model(kind, space_w)),
        _ => p.chunks.cur,
    };
    assert(kinds(cur) =~= kinds(p.chunks.cur) + used_gap(p));
    lemma_kinds_add(cur, clusters);
    lemma_chunked_kinds(Chunks { lines: p.chunks.lines, cur }, clusters, avail);
    assert(held_kinds(settled_chunks(p, clusters, avail, space_w)) =~= held_kinds(p.chunks)
        + used_gap(p) + kinds(clusters));
}

/// The kind of the space that follows a piece.
spec fn sep_kinds(sep: SepModel) -> Seq<KindModel> {
    match sep {
        SepModel::Space(kind) => seq![kind],
        _ => Seq::empty(),
    }
}

/// The kinds of pieces and of the spaces between them.
spec fn piece_kinds(pieces: Seq<PieceModel>) -> Seq<KindModel>
    decreases pieces.len(),
{
    if pieces.len() == 0 {
        Seq::empty()
    } else {
        piece_kinds(pieces.drop_last()) + kinds(pieces.last().clusters) + sep_kinds(
            pieces.last().sep,
        )
    }
}

/// The kinds of a broken word, head and rest, with the hyphen's.
proof fn pick_hyphenated(clusters: Seq<ClusterModel>, split: int) -> (at: Seq<int>)
    requires
        0 < split < clusters.len(),
    ensures
        picks(
            at,
            kinds(hyphen_head(clusters, split)) + kinds(clusters.skip(split)),
            kinds(clusters),
        ),
{
    let at = Seq::new(
        clusters.len() + 1,
        |i: int|
            if i < split {
                i
            } else {
                i - 1
            },
    );
    let head = hyphen_head(clusters, split);
    let out = kinds(head) + kinds(clusters.skip(split));
    assert(head.len() == split + 1);
    assert(cluster_model(seq!['-'], clusters[split - 1].kind, false).kind
        == clusters[split - 1].kind);
    assert forall|i: int| 0 <= i < at.len() implies 0 <= (#[trigger] at[i]) < kinds(clusters).len()
        && out[i] == kinds(clusters)[at[i]] by {
        if i < split {
            assert(out[i] == head[i].kind);
        } else if i == split {
            assert(out[i] == head[i].kind);
        } else {
            assert(out[i] == clusters.skip(split)[i - split - 1].kind);
        }
    }
    at
}

/// The lines once a word is broken: all that was there, the head with its
/// hyphen, the rest.
proof fn lemma_broken_kinds(p: Packed, piece: PieceModel, split: int, avail: nat, space_w: nat)
    requires
        0 < split < piece.clusters.len(),
    ensures
        ({
            let cur = match p.gap {
                Some(kind) => p.chunks.cur.push(space_model(kind, space_w)),
                None => p.chunks.cur,
            };
            let head = hyphen_head(piece.clusters, split);
            let broken = Packed {
                chunks: Chunks { lines: p.chunks.lines.push(cur + head), cur: Seq::empty() },
                gap: None,
            };
            held_kinds(settled_chunks(broken, piece.clusters.skip(split), avail, space_w))
                == held_kinds(p.chunks) + gap_kinds(p) + (kinds(head) + kinds(
                piece.clusters.skip(split),
            ))
        }),
{
    let cur = match p.gap {
        Some(kind) => p.chunks.cur.push(space_model(kind, space_w)),
        None => p.chunks.cur,
    };
    let head = hyphen_head(piece.clusters, split);
    let rest = piece.clusters.skip(split);
    let broken = Packed {
        chunks: Chunks { lines: p.chunks.lines.push(cur + head), cur: Seq::empty() },
        gap: None,
    };
    lemma_settled_kinds(broken, rest, avail, space_w);
    lemma_line_kinds_push(p.chunks.lines, cur + head);
    lemma_kinds_add(cur, head);
    assert(kinds(cur) =~= kinds(p.chunks.cur) + gap_kinds(p));
    assert(held_kinds(broken.chunks) =~= held_kinds(p.chunks) + gap_kinds(p) + kinds(head));
    assert(held_kinds(broken.chunks) + used_gap(broken) + kinds(rest) =~= held_kinds(p.chunks)
        + gap_kinds(p) + (kinds(head) + kinds(rest)));
}

/// What is kept of the lines so far once a piece is put, and what the piece
/// adds to them.
proof fn lemma_placed_kinds(p: Packed, piece: PieceModel, avail: nat, opts: WrapOpts) -> (r: (
    int,
    Seq<KindModel>,
    Seq<int>,
))
    ensures
        0 <= r.0 <= (held_kinds(p.chunks) + gap_kinds(p)).len(),
        held_kinds(placed(p, piece, avail, opts).chunks) == (held_kinds(p.chunks) + gap_kinds(
            p,
        )).take(r.0) + r.1,
        picks(r.2, r.1, kinds(piece.clusters)),
        gap_kinds(placed(p, piece, avail, opts)) == sep_kinds(piece.sep),
{
    let space_w = 1 + opts.word_spacing as nat;
    let here = kinds(piece.clusters);
    let old_out = held_kinds(p.chunks) + gap_kinds(p);
    let n = held_kinds(p.chunks).len() as int;
    let all = old_out.len() as int;
    assert(old_out.take(n) =~= held_kinds(p.chunks));
    assert(old_out.take(all) =~= old_out);
    let whole = pick_all(here);
    let overflows = p.chunks.cur.len() > 0 && width_of(p.chunks.cur) + gap_width(p, space_w)
        + width_of(piece.clusters) > avail;
    let split = if opts.hyphenate {
        hyphen_split(piece.clusters, room(p, avail, space_w))
    } else {
        0
    };
    if overflows && split > 0 {
        lemma_best_split(
            piece.clusters,
            hyphenation_points_of(piece.clusters),
            room(p, avail, space_w),
        );
        lemma_broken_kinds(p, piece, split, avail, space_w);
        let added = kinds(hyphen_head(piece.clusters, split)) + kinds(piece.clusters.skip(split));
        let g = pick_hyphenated(piece.clusters, split);
        (all, added, g)
    } else if overflows {
        let next = Packed {
            chunks: Chunks { lines: p.chunks.lines.push(p.chunks.cur), cur: Seq::empty() },
            gap: None,
        };
        lemma_line_kinds_push(p.chunks.lines, p.chunks.cur);
        assert(held_kinds(next.chunks) =~= held_kinds(p.chunks));
        lemma_settled_kinds(next, piece.clusters, avail, space_w);
        assert(held_kinds(p.chunks) + used_gap(next) =~= held_kinds(p.chunks));
        (n, here, whole)
    } else {
        lemma_settled_kinds(p, piece.clusters, avail, space_w);
        if p.chunks.cur.len() > 0 {
            (all, here, whole)
        } else {
            assert(held_kinds(p.chunks) + used_gap(p) =~= held_kinds(p.chunks));
            (n, here, whole)
        }
    }
}

proof fn pick_packed(pieces: Seq<PieceModel>, avail: nat, opts: WrapOpts) -> (at: Seq<int>)
    ensures
        picks(
            at,
            held_kinds(packed(pieces, avail, opts).chunks) + gap_kinds(
                packed(pieces, avail, opts),
            ),
            piece_kinds(pieces),
        ),
    decreases pieces.len(),
{
    if pieces.len() == 0 {
        let p = packed(pieces, avail, opts);
        assert(held_kinds(p.chunks) + gap_kinds(p) =~= Seq::empty());
        Seq::empty()
    } else {
        let f = pick_packed(pieces.drop_last(), avail, opts);
        let p = packed(pieces.drop_last(), avail, opts);
        let piece = pieces.last();
        let before = piece_kinds(pieces.drop_last());
        let here = kinds(piece.clusters);
        let sep = sep_kinds(piece.sep);
        let old_out = held_kinds(p.chunks) + gap_kinds(p);
        let (kept, added, g) = lemma_placed_kinds(p, piece, avail, opts);
        let h = pick_part(f, old_out, before, Seq::empty(), kept);
        assert(before + Seq::<KindModel>::empty() =~= before);
        let k = pick_both(h, old_out.take(kept), before, g, added, here);
        let s = pick_all(sep);
        pick_both(k, old_out.take(kept) + added, before + here, s, sep, sep)
    }
}

proof fn lemma_justified_kinds(line: Seq<ClusterModel>, avail: nat)
    ensures
        kinds(justified(line, avail)) == kinds(line),
{
    let out = justified(line, avail);
    assert forall|i: int| 0 <= i < line.len() implies (#[trigger] out[i]).kind == line[i].kind by {
        justification_touches_gaps_alone(line, avail, i);
    }
    if line.len() > 0 {
        justification_touches_gaps_alone(line, avail, 0);
    }
    assert(kinds(out) =~= kinds(line));
}

proof fn lemma_justified_lines_kinds(lines: Seq<Seq<ClusterModel>>, avail: nat, n: int)
    requires
        0 <= n <= lines.len(),
    ensures
        line_kinds(justified_lines(lines, avail).take(n)) == line_kinds(lines.take(n)),
    decreases n,
{
    let out = justified_lines(lines, avail);
    if n > 0 {
        lemma_justified_lines_kinds(lines, avail, n - 1);
        assert(out.take(n).drop_last() =~= out.take(n - 1));
        assert(lines.take(n).drop_last() =~= lines.take(n - 1));
        lemma_justified_kinds(lines[n - 1], avail);
    }
}

proof fn pick_filled(pieces: Seq<PieceModel>, avail: nat, opts: WrapOpts) -> (at: Seq<int>)
    ensures
        picks(at, line_kinds(filled(pieces, avail, opts)), piece_kinds(pieces)),
{
    let width = at_least_one(avail);
    let p = packed(pieces, width, opts);
    let f = pick_packed(pieces, width, opts);
    let lines = closed_lines(p.chunks);
    lemma_line_kinds_push(p.chunks.lines, p.chunks.cur);
    assert(line_kinds(lines) =~= held_kinds(p.chunks));
    if opts.justify {
        lemma_justified_lines_kinds(lines, width, lines.len() as int);
        let out = justified_lines(lines, width);
        assert(lines.take(lines.len() as int) =~= lines);
        assert(out.take(out.len() as int) =~= out);
    }
    let n = held_kinds(p.chunks).len() as int;
    let all = held_kinds(p.chunks) + gap_kinds(p);
    let at = pick_part(f, all, piece_kinds(pieces), Seq::empty(), n);
    assert(all.take(n) =~= held_kinds(p.chunks));
    assert(piece_kinds(pieces) + Seq::<KindModel>::empty() =~= piece_kinds(pieces));
    at
}

proof fn pick_cut(clusters: Seq<ClusterModel>, n: int) -> (at: Seq<int>)
    requires
        0 <= n <= clusters.len(),
    ensures
        picks(
            at,
            piece_kinds(cut(clusters, n).pieces) + kinds(cut(clusters, n).open),
            kinds(clusters.take(n)),
        ),
    decreases n,
{
    let after = cut(clusters, n);
    if n == 0 {
        assert(piece_kinds(after.pieces) + kinds(after.open) =~= Seq::empty());
        Seq::empty()
    } else {
        let f = pick_cut(clusters, n - 1);
        let before = cut(clusters, n - 1);
        let c = clusters[n - 1];
        let old_out = piece_kinds(before.pieces) + kinds(before.open);
        let out = piece_kinds(after.pieces) + kinds(after.open);
        let old_in = kinds(clusters.take(n - 1));
        assert(kinds(clusters.take(n)) =~= old_in + seq![c.kind]);
        if after.pieces.len() > before.pieces.len() {
            assert(after.pieces.drop_last() =~= before.pieces);
        }
        assert(kinds(before.open.push(c)) =~= kinds(before.open).push(c.kind));
        if c.is_space && before.open.len() == 0 {
            let at = pick_part(f, old_out, old_in, seq![c.kind], old_out.len() as int);
            assert(old_out.take(old_out.len() as int) =~= old_out);
            at
        } else {
            assert(out =~= old_out + seq![c.kind]);
            let one = pick_all(seq![c.kind]);
            pick_both(f, old_out, old_in, one, seq![c.kind], seq![c.kind])
        }
    }
}

proof fn pick_pieces(clusters: Seq<ClusterModel>) -> (at: Seq<int>)
    ensures
        picks(at, piece_kinds(pieces_of(clusters)), kinds(clusters)),
{
    let n = clusters.len() as int;
    let at = pick_cut(clusters, n);
    assert(clusters.take(n) =~= clusters);
    let end = cut(clusters, n);
    if end.open.len() > 0 {
        assert(pieces_of(clusters).drop_last() =~= end.pieces);
    }
    assert(piece_kinds(pieces_of(clusters)) =~= piece_kinds(end.pieces) + kinds(end.open));
    at
}

proof fn pick_run(clusters: Seq<ClusterModel>, avail: nat, opts: WrapOpts) -> (at: Seq<int>)
    ensures
        picks(at, line_kinds(filled(pieces_of(clusters), avail, opts)), kinds(clusters)),
{
    let f = pick_filled(pieces_of(clusters), avail, opts);
    let g = pick_pieces(clusters);
    pick_through(
        f,
        line_kinds(filled(pieces_of(clusters), avail, opts)),
        piece_kinds(pieces_of(clusters)),
        g,
        kinds(clusters),
    )
}

/// The runs so far pick from what was read: the lines from `done`, the open
/// run being the rest as it is.
proof fn pick_runs(clusters: Seq<ClusterModel>, avail: nat, opts: WrapOpts) -> (at: Seq<int>)
    ensures
        picks(
            at,
            line_kinds(runs_of(clusters, avail, opts).lines) + kinds(
                runs_of(clusters, avail, opts).open,
            ),
            kinds(clusters),
        ),
    decreases clusters.len(),
{
    let after = runs_of(clusters, avail, opts);
    if clusters.len() == 0 {
        assert(line_kinds(after.lines) + kinds(after.open) =~= Seq::empty());
        Seq::empty()
    } else {
        let front = clusters.drop_last();
        let f = pick_runs(front, avail, opts);
        let before = runs_of(front, avail, opts);
        let c = clusters.last();
        let old_out = line_kinds(before.lines) + kinds(before.open);
        assert(kinds(clusters) =~= kinds(front) + seq![c.kind]);
        if c.is_newline {
            let more = filled(pieces_of(before.open), avail, opts);
            lemma_line_kinds_add(before.lines, more);
            let g = pick_run(before.open, avail, opts);
            let lines = line_kinds(before.lines);
            let same = pick_all(lines);
            let h = pick_both(
                same,
                lines,
                lines,
                g,
                line_kinds(more),
                kinds(before.open),
            );
            let k = pick_through(h, lines + line_kinds(more), old_out, f, kinds(front));
            let out = lines + line_kinds(more);
            let at = pick_part(k, out, kinds(front), seq![c.kind], out.len() as int);
            assert(out.take(out.len() as int) =~= out);
            assert(line_kinds(after.lines) + kinds(after.open) =~= out);
            at
        } else {
            assert(kinds(after.open) =~= kinds(before.open) + seq![c.kind]);
            assert(line_kinds(after.lines) + kinds(after.open) =~= old_out + seq![c.kind]);
            let one = pick_all(seq![c.kind]);
            pick_both(f, old_out, kinds(front), one, seq![c.kind], seq![c.kind])
        }
    }
}

/// Wrapping keeps the order of what it wraps: the kinds of the clusters on the
/// lines are picked in order from those that went in.
pub proof fn wrapping_keeps_the_order(
    clusters: Seq<ClusterModel>,
    avail: nat,
    opts: WrapOpts,
) -> (at: Seq<int>)
    ensures
        picks(at, line_kinds(wrapped(clusters, avail, opts)), kinds(clusters)),
{
    let runs = runs_of(clusters, avail, opts);
    let f = pick_runs(clusters, avail, opts);
    let more = filled(pieces_of(runs.open), avail, opts);
    lemma_line_kinds_add(runs.lines, more);
    let g = pick_run(runs.open, avail, opts);
    let lines = line_kinds(runs.lines);
    let same = pick_all(lines);
    let h = pick_both(same, lines, lines, g, line_kinds(more), kinds(runs.open));
    pick_through(h, lines + line_kinds(more), lines + kinds(runs.open), f, kinds(clusters))
}

/// Cutting at cluster boundaries keeps every kind in its place.
pub proof fn lemma_chunks_kinds(clusters: Seq<ClusterModel>, avail: nat)
    ensures
        line_kinds(chunks_of(clusters, avail)) == kinds(clusters),
{
    let start = Chunks { lines: Seq::empty(), cur: Seq::empty() };
    lemma_chunked_kinds(start, clusters, at_least_one(avail));
    let c = chunked(start, clusters, at_least_one(avail));
    lemma_line_kinds_push(c.lines, c.cur);
    assert(held_kinds(start) =~= Seq::empty());
    assert(line_kinds(chunks_of(clusters, avail)) =~= kinds(clusters));
}

/// Joining clusters into spans keeps the order of their kinds.
pub proof fn pick_coalesced(content: Seq<ClusterModel>) -> (at: Seq<int>)
    ensures
        picks(at, span_kinds(coalesced(content)), kinds(content)),
    decreases content.len(),
{
    if content.len() == 0 {
        Seq::empty()
    } else {
        let front = content.drop_last();
        let f = pick_coalesced(front);
        let before = coalesced(front);
        let c = content.last();
        let out = span_kinds(coalesced(content));
        assert(kinds(content) =~= kinds(front) + seq![c.kind]);
        if before.len() > 0 && before.last().kind == c.kind {
            assert(out =~= span_kinds(before));
            let at = pick_part(
                f,
                span_kinds(before),
                kinds(front),
                seq![c.kind],
                span_kinds(before).len() as int,
            );
            assert(span_kinds(before).take(span_kinds(before).len() as int) =~= span_kinds(before));
            at
        } else {
            assert(out =~= span_kinds(before) + seq![c.kind]);
            let one = pick_all(seq![c.kind]);
            pick_both(
                f,
                span_kinds(before),
                kinds(front),
                one,
                seq![c.kind],
                seq![c.kind],
            )
        }
    }
}

} // verus!
