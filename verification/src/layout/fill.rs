//! Packing pieces into lines.
use vstd::prelude::*;

use crate::layout::cluster::append_clusters;
use crate::layout::cluster::clusters_width;
use crate::layout::cluster::lemma_width_add;
use crate::layout::cluster::lemma_width_push;
use crate::layout::cluster::space_cluster;
use crate::layout::cluster::space_model;
use crate::layout::cluster::width_of;
use crate::layout::cluster::Cluster;
use crate::layout::cluster::ClusterModel;
use crate::layout::types::KindModel;
use crate::layout::types::SpanKind;
use crate::layout::wrap::hyphen_head;
use crate::layout::wrap::hyphen_split;
use crate::layout::wrap::share;
use crate::layout::wrap::shares;
use crate::layout::wrap::spread_extra;
use crate::layout::wrap::total;
use crate::layout::wrap::try_hyphenate;
use crate::layout::wrap::Piece;
use crate::layout::wrap::PieceModel;
use crate::layout::wrap::Sep;
use crate::layout::wrap::SepModel;
use crate::layout::wrap::WrapOpts;
use crate::layout::wrap::RIVER_CAP_MAX_EXTRA_PER_GAP;
use crate::text::repeat_char;
use crate::text::spaces;
use crate::text::views;

verus! {

/// The lines of clusters, as models.
pub open spec fn line_models(lines: Seq<Vec<Cluster>>) -> Seq<Seq<ClusterModel>> {
    lines.map_values(|l: Vec<Cluster>| views(l@))
}

/// How many clusters of a line are gaps.
pub open spec fn gap_count(line: Seq<ClusterModel>) -> nat
    decreases line.len(),
{
    if line.len() == 0 {
        0
    } else {
        gap_count(line.drop_last()) + if line.last().is_space {
            1nat
        } else {
            0nat
        }
    }
}

proof fn lemma_gap_count(line: Seq<ClusterModel>, i: int)
    requires
        0 <= i < line.len(),
    ensures
        gap_count(line.take(i + 1)) == gap_count(line.take(i)) + if line[i].is_space {
            1nat
        } else {
            0nat
        },
        gap_count(line.take(i + 1)) <= gap_count(line) <= line.len(),
    decreases line.len(),
{
    assert(line.take(i + 1).drop_last() =~= line.take(i));
    assert(line.take(line.len() as int) =~= line);
    if i + 1 < line.len() {
        lemma_gap_count(line.drop_last(), i);
        assert(line.drop_last().take(i + 1) =~= line.take(i + 1));
    } else {
        lemma_gap_bound(line);
    }
}

proof fn lemma_gap_bound(line: Seq<ClusterModel>)
    ensures
        gap_count(line) <= line.len(),
    decreases line.len(),
{
    if line.len() > 0 {
        lemma_gap_bound(line.drop_last());
    }
}

/// A gap with `extra` more cells.
pub open spec fn widened(c: ClusterModel, extra: nat) -> ClusterModel {
    if extra == 0 {
        c
    } else {
        ClusterModel { width: c.width + extra, text: spaces(c.width + extra), ..c }
    }
}

/// A line whose gaps take up the `deficit` between them.
pub open spec fn stretched(line: Seq<ClusterModel>, deficit: nat) -> Seq<ClusterModel> {
    Seq::new(
        line.len(),
        |i: int|
            if line[i].is_space {
                widened(line[i], share(deficit, gap_count(line), gap_count(line.take(i)) as int))
            } else {
                line[i]
            },
    )
}

/// Whether a line is stretched: it falls short, it has gaps, and no gap would
/// get more than the cap.
pub open spec fn stretches(line: Seq<ClusterModel>, avail: nat) -> bool {
    &&& width_of(line) < avail
    &&& gap_count(line) > 0
    &&& avail - width_of(line) <= RIVER_CAP_MAX_EXTRA_PER_GAP * gap_count(line)
}

/// A line stretched to `avail` cells, or left as it is.
pub open spec fn justified(line: Seq<ClusterModel>, avail: nat) -> Seq<ClusterModel> {
    if stretches(line, avail) {
        stretched(line, (avail - width_of(line)) as nat)
    } else {
        line
    }
}

proof fn lemma_stretched_width(line: Seq<ClusterModel>, deficit: nat, i: int)
    requires
        0 <= i <= line.len(),
        gap_count(line) > 0,
    ensures
        width_of(stretched(line, deficit).take(i)) == width_of(line.take(i)) + total(
            shares(deficit, gap_count(line)).take(gap_count(line.take(i)) as int),
        ),
    decreases i,
{
    let all = shares(deficit, gap_count(line));
    let out = stretched(line, deficit);
    if i > 0 {
        lemma_stretched_width(line, deficit, i - 1);
        lemma_gap_count(line, i - 1);
        assert(line.take(i).drop_last() =~= line.take(i - 1));
        assert(out.take(i).drop_last() =~= out.take(i - 1));
        if line[i - 1].is_space {
            let k = gap_count(line.take(i - 1)) as int;
            assert(all.take(k + 1).drop_last() =~= all.take(k));
        }
    } else {
        assert(all.take(0) =~= Seq::<nat>::empty());
    }
}

/// A stretched line is exactly as wide as the column.
pub proof fn stretched_line_fills_the_column(line: Seq<ClusterModel>, avail: nat)
    requires
        stretches(line, avail),
    ensures
        width_of(justified(line, avail)) == avail,
{
    let deficit = (avail - width_of(line)) as nat;
    let n = line.len() as int;
    lemma_stretched_width(line, deficit, n);
    crate::layout::wrap::lemma_shares_total(deficit, gap_count(line));
    assert(line.take(n) =~= line);
    assert(stretched(line, deficit).take(n) =~= stretched(line, deficit));
    assert(shares(deficit, gap_count(line)).take(gap_count(line) as int) =~= shares(
        deficit,
        gap_count(line),
    ));
}

/// Justification touches the gaps alone, and opens none of them by more than
/// the cap.
pub proof fn justification_touches_gaps_alone(line: Seq<ClusterModel>, avail: nat, i: int)
    requires
        0 <= i < line.len(),
    ensures
        justified(line, avail).len() == line.len(),
        !line[i].is_space ==> justified(line, avail)[i] == line[i],
        line[i].is_space ==> {
            let c = justified(line, avail)[i];
            &&& c.is_space
            &&& c.kind == line[i].kind
            &&& line[i].width <= c.width <= line[i].width + RIVER_CAP_MAX_EXTRA_PER_GAP
        },
{
    if stretches(line, avail) && line[i].is_space {
        let d = (avail - width_of(line)) as nat;
        let g = gap_count(line);
        lemma_share_capped(d, g, gap_count(line.take(i)) as int);
    }
}

proof fn lemma_share_capped(d: nat, g: nat, k: int)
    requires
        g > 0,
        k >= 0,
        d <= RIVER_CAP_MAX_EXTRA_PER_GAP * g,
    ensures
        share(d, g, k) <= RIVER_CAP_MAX_EXTRA_PER_GAP,
{
    vstd::arithmetic::div_mod::lemma_fundamental_div_mod(d as int, g as int);
    let q = d / g;
    let r = d % g;
    assert(q <= 3 && (r > 0 ==> q <= 2)) by (nonlinear_arith)
        requires
            d == g * q + r,
            d <= 3 * g,
            g > 0,
            r >= 0,
    ;
}

proof fn lemma_width_element(line: Seq<ClusterModel>, i: int)
    requires
        0 <= i < line.len(),
    ensures
        line[i].width <= width_of(line),
    decreases line.len(),
{
    if i < line.len() - 1 {
        lemma_width_element(line.drop_last(), i);
    }
}

/// Stretches a line's gaps so that it fills `avail` exactly, or leaves it
/// where it has no gaps or is too sparse.
pub fn justify_line(line: Vec<Cluster>, avail: usize) -> (r: Vec<Cluster>)
    requires
        avail < usize::MAX,
    ensures
        views(r@) == justified(views(line@), avail as nat),
{
    let ghost all = views(line@);
    let w: usize = clusters_width(&line);
    if w >= avail {
        return line;
    }
    let deficit: usize = avail - w;
    let n: usize = line.len();
    let mut gaps: usize = 0;
    for i in 0..n
        invariant
            n == line.len(),
            all == views(line@),
            gaps as nat == gap_count(all.take(i as int)),
            gaps <= i,
    {
        proof { lemma_gap_count(all, i as int); }
        if line[i].is_space {
            gaps = gaps + 1;
        }
    }
    proof { assert(all.take(n as int) =~= all); }
    if gaps == 0 {
        return line;
    }
    if gaps <= usize::MAX / RIVER_CAP_MAX_EXTRA_PER_GAP && deficit > RIVER_CAP_MAX_EXTRA_PER_GAP
        * gaps {
        return line;
    }
    let extra = spread_extra(deficit, gaps);
    let mut out: Vec<Cluster> = Vec::new();
    let mut k: usize = 0;
    for i in 0..n
        invariant
            n == line.len(),
            all == views(line@),
            gaps == gap_count(all),
            w == width_of(all),
            w + deficit == avail,
            avail < usize::MAX,
            gaps > 0,
            extra@.len() == gaps,
            extra@.map_values(|x: usize| x as nat) == shares(deficit as nat, gaps as nat),
            deficit <= RIVER_CAP_MAX_EXTRA_PER_GAP * gaps,
            k as nat == gap_count(all.take(i as int)),
            views(out@) == stretched(all, deficit as nat).take(i as int),
    {
        proof {
            lemma_gap_count(all, i as int);
            lemma_width_element(all, i as int);
            assert(all[i as int] == line@[i as int]@);
        }
        let c = &line[i];
        let ghost pre = out@;
        if c.is_space {
            let e: usize = extra[k];
            proof {
                assert(extra@.map_values(|x: usize| x as nat)[k as int] == e as nat);
                vstd::arithmetic::div_mod::lemma_fundamental_div_mod(deficit as int, gaps as int);
                let q = deficit as int / gaps as int;
                let r = deficit as int % gaps as int;
                assert(q + r <= deficit) by (nonlinear_arith)
                    requires
                        deficit == gaps * q + r,
                        gaps >= 1,
                        q >= 0,
                ;
            }
            k = k + 1;
            if e == 0 {
                out.push(c.copy());
            } else {
                let mut wide = c.copy();
                wide.width = c.width + e;
                wide.text = repeat_char(' ', c.width + e);
                out.push(wide);
            }
        } else {
            out.push(c.copy());
        }
        proof {
            assert(views(out@) =~= views(pre).push(out@.last()@));
            let s = stretched(all, deficit as nat);
            assert(s.take(i + 1) =~= s.take(i as int).push(s[i as int]));
        }
    }
    proof {
        let s = stretched(all, deficit as nat);
        assert(s.take(n as int) =~= s);
    }
    out
}

/// Lines so far and the line being gathered.
#[verifier::ext_equal]
pub struct Chunks {
    pub lines: Seq<Seq<ClusterModel>>,
    pub cur: Seq<ClusterModel>,
}

/// The state after `clusters` are cut at `avail` with no break logic: a
/// cluster that does not fit any more opens a new line.
pub open spec fn chunked(start: Chunks, clusters: Seq<ClusterModel>, avail: nat) -> Chunks
    decreases clusters.len(),
{
    if clusters.len() == 0 {
        start
    } else {
        let before = chunked(start, clusters.drop_last(), avail);
        let c = clusters.last();
        if before.cur.len() > 0 && width_of(before.cur) + c.width > avail {
            Chunks { lines: before.lines.push(before.cur), cur: seq![c] }
        } else {
            Chunks { lines: before.lines, cur: before.cur.push(c) }
        }
    }
}

/// The lines with the open one, unless it is empty.
pub open spec fn closed_lines(c: Chunks) -> Seq<Seq<ClusterModel>> {
    if c.cur.len() == 0 {
        c.lines
    } else {
        c.lines.push(c.cur)
    }
}

/// A column is at least one cell.
pub open spec fn at_least_one(avail: nat) -> nat {
    if avail < 1 {
        1
    } else {
        avail
    }
}

/// Lines of at most `avail` cells, cut at cluster boundaries.
pub open spec fn chunks_of(clusters: Seq<ClusterModel>, avail: nat) -> Seq<Seq<ClusterModel>> {
    closed_lines(
        chunked(
            Chunks { lines: Seq::empty(), cur: Seq::empty() },
            clusters,
            at_least_one(avail),
        ),
    )
}

/// The lines being filled.
pub struct Filling {
    pub lines: Vec<Vec<Cluster>>,
    pub cur: Vec<Cluster>,
    pub cur_w: usize,
}

impl Filling {
    /// The recorded width is the open line's, up to what a `usize` holds.
    pub open spec fn wf(self) -> bool {
        self.cur_w as nat == width_of(views(self.cur@)) || (self.cur_w == usize::MAX && width_of(
            views(self.cur@),
        ) >= usize::MAX)
    }

    /// The lines, as models.
    pub open spec fn model(self) -> Chunks {
        Chunks { lines: line_models(self.lines@), cur: views(self.cur@) }
    }

    fn new() -> (r: Self)
        ensures
            r.wf(),
            r.model() == (Chunks { lines: Seq::empty(), cur: Seq::empty() }),
    {
        let r = Filling { lines: Vec::new(), cur: Vec::new(), cur_w: 0 };
        proof {
            assert(views(r.cur@) =~= Seq::empty());
            assert(line_models(r.lines@) =~= Seq::empty());
        }
        r
    }

    /// Closes the open line and starts an empty one.
    fn end_line(&mut self)
        ensures
            final(self).wf(),
            final(self).model() == (Chunks {
                lines: old(self).model().lines.push(old(self).model().cur),
                cur: Seq::empty(),
            }),
    {
        let mut done: Vec<Cluster> = Vec::new();
        std::mem::swap(&mut done, &mut self.cur);
        let ghost pre = self.lines@;
        self.lines.push(done);
        self.cur_w = 0;
        proof {
            assert(line_models(self.lines@) =~= line_models(pre).push(views(done@)));
            assert(views(self.cur@) =~= Seq::empty());
        }
    }

    /// Puts one cluster at the end of the open line.
    fn put(&mut self, c: Cluster)
        requires
            old(self).wf(),
        ensures
            final(self).wf(),
            final(self).model() == (Chunks {
                lines: old(self).model().lines,
                cur: old(self).model().cur.push(c@),
            }),
    {
        let ghost pre = self.cur@;
        proof { lemma_width_push(views(pre), c@); }
        self.cur_w = self.cur_w.saturating_add(c.width);
        self.cur.push(c);
        proof { assert(views(self.cur@) =~= views(pre).push(c@)); }
    }

    /// Puts clusters one by one, with a new line where one does not fit.
    fn chunk(&mut self, clusters: Vec<Cluster>, avail: usize)
        requires
            old(self).wf(),
            avail < usize::MAX,
        ensures
            final(self).wf(),
            final(self).model() == chunked(old(self).model(), views(clusters@), avail as nat),
    {
        let ghost start = self.model();
        let ghost all = views(clusters@);
        let n: usize = clusters.len();
        for i in 0..n
            invariant
                n == clusters.len(),
                all == views(clusters@),
                avail < usize::MAX,
                self.wf(),
                self.model() == chunked(start, all.take(i as int), avail as nat),
        {
            let ghost before = self.model();
            proof {
                assert(all.take(i + 1).drop_last() =~= all.take(i as int));
                assert(all.take(i + 1).last() == clusters@[i as int]@);
            }
            let c = clusters[i].copy();
            if self.cur.len() > 0 && self.cur_w.saturating_add(c.width) > avail {
                self.end_line();
                self.put(c);
                proof { assert(self.model().cur =~= seq![c@]); }
            } else {
                self.put(c);
            }
        }
        proof { assert(all.take(n as int) =~= all); }
    }

    /// All lines, the open one last unless it is empty.
    fn finish(self) -> (r: Vec<Vec<Cluster>>)
        ensures
            line_models(r@) == closed_lines(self.model()),
    {
        let mut lines = self.lines;
        if self.cur.len() > 0 {
            let ghost pre = lines@;
            lines.push(self.cur);
            proof { assert(line_models(lines@) =~= line_models(pre).push(views(self.cur@))); }
        }
        lines
    }
}

/// Hard-wraps clusters at `avail` with no break logic and no collapsing of
/// whitespace.
pub fn chunk_by_width(clusters: Vec<Cluster>, avail: usize) -> (r: Vec<Vec<Cluster>>)
    requires
        avail < usize::MAX,
    ensures
        line_models(r@) == chunks_of(views(clusters@), avail as nat),
{
    let avail: usize = if avail < 1 {
        1
    } else {
        avail
    };
    let mut f = Filling::new();
    f.chunk(clusters, avail);
    f.finish()
}

/// Lines so far, and the kind of the gap that waits for the next word.
#[verifier::ext_equal]
pub struct Packed {
    pub chunks: Chunks,
    pub gap: Option<KindModel>,
}

/// The lines once a run of clusters is put on the open one, after the waiting
/// gap; a run that is wider than a line by itself is cut at cluster
/// boundaries.
pub open spec fn settled_chunks(
    p: Packed,
    clusters: Seq<ClusterModel>,
    avail: nat,
    space_w: nat,
) -> Chunks {
    let cur = match p.gap {
        Some(kind) if p.chunks.cur.len() > 0 => p.chunks.cur.push(space_model(kind, space_w)),
        _ => p.chunks.cur,
    };
    if width_of(cur) + width_of(clusters) <= avail {
        Chunks { lines: p.chunks.lines, cur: cur + clusters }
    } else {
        chunked(Chunks { lines: p.chunks.lines, cur }, clusters, avail)
    }
}

/// Puts a run of clusters on the open line; what follows it decides the gap
/// that waits next.
pub open spec fn settled(
    p: Packed,
    clusters: Seq<ClusterModel>,
    sep: SepModel,
    avail: nat,
    space_w: nat,
) -> Packed {
    Packed {
        chunks: settled_chunks(p, clusters, avail, space_w),
        gap: match sep {
            SepModel::Space(kind) => Some(kind),
            _ => None,
        },
    }
}

/// The width of the waiting gap.
pub open spec fn gap_width(p: Packed, space_w: nat) -> nat {
    if p.gap is Some && p.chunks.cur.len() > 0 {
        space_w
    } else {
        0
    }
}

/// The room that is left on the open line after the waiting gap.
pub open spec fn room(p: Packed, avail: nat, space_w: nat) -> nat {
    let used = width_of(p.chunks.cur) + gap_width(p, space_w);
    if used <= avail {
        (avail - used) as nat
    } else {
        0
    }
}

/// Puts a piece: on the open line if it fits; else, where hyphenation is on
/// and finds a break, its head there and the rest on the next line; else all
/// of it on the next line.
pub open spec fn placed(p: Packed, piece: PieceModel, avail: nat, opts: WrapOpts) -> Packed {
    let space_w = 1 + opts.word_spacing as nat;
    if p.chunks.cur.len() > 0 && width_of(p.chunks.cur) + gap_width(p, space_w) + width_of(
        piece.clusters,
    ) > avail {
        let split = if opts.hyphenate {
            hyphen_split(piece.clusters, room(p, avail, space_w))
        } else {
            0
        };
        if split > 0 {
            let cur = match p.gap {
                Some(kind) => p.chunks.cur.push(space_model(kind, space_w)),
                None => p.chunks.cur,
            };
            let line = cur + hyphen_head(piece.clusters, split);
            settled(
                Packed {
                    chunks: Chunks { lines: p.chunks.lines.push(line), cur: Seq::empty() },
                    gap: None,
                },
                piece.clusters.skip(split),
                piece.sep,
                avail,
                space_w,
            )
        } else {
            settled(
                Packed {
                    chunks: Chunks {
                        lines: p.chunks.lines.push(p.chunks.cur),
                        cur: Seq::empty(),
                    },
                    gap: None,
                },
                piece.clusters,
                piece.sep,
                avail,
                space_w,
            )
        }
    } else {
        settled(p, piece.clusters, piece.sep, avail, space_w)
    }
}

/// The state after all of `pieces`.
pub open spec fn packed(pieces: Seq<PieceModel>, avail: nat, opts: WrapOpts) -> Packed
    decreases pieces.len(),
{
    if pieces.len() == 0 {
        Packed { chunks: Chunks { lines: Seq::empty(), cur: Seq::empty() }, gap: None }
    } else {
        placed(packed(pieces.drop_last(), avail, opts), pieces.last(), avail, opts)
    }
}

/// Every line but the last, justified.
pub open spec fn justified_lines(lines: Seq<Seq<ClusterModel>>, avail: nat) -> Seq<
    Seq<ClusterModel>,
> {
    Seq::new(
        lines.len(),
        |i: int|
            if i < lines.len() - 1 {
                justified(lines[i], avail)
            } else {
                lines[i]
            },
    )
}

/// Pieces packed greedily into lines of at most `avail` cells, all but the
/// last of them justified where that is asked for.
pub open spec fn filled(pieces: Seq<PieceModel>, avail: nat, opts: WrapOpts) -> Seq<
    Seq<ClusterModel>,
> {
    let width = at_least_one(avail);
    let lines = closed_lines(packed(pieces, width, opts).chunks);
    if opts.justify {
        justified_lines(lines, width)
    } else {
        lines
    }
}

fn settle(
    f: &mut Filling,
    gap: Option<SpanKind>,
    clusters: Vec<Cluster>,
    avail: usize,
    space_w: usize,
)
    requires
        old(f).wf(),
        avail < usize::MAX,
    ensures
        final(f).wf(),
        final(f).model() == settled_chunks(
            Packed {
                chunks: old(f).model(),
                gap: match gap {
                    Some(kind) => Some(kind@),
                    None => None,
                },
            },
            views(clusters@),
            avail as nat,
            space_w as nat,
        ),
{
    if let Some(kind) = gap {
        if f.cur.len() > 0 {
            f.put(space_cluster(kind, space_w));
        }
    }
    let pw: usize = clusters_width(&clusters);
    if f.cur_w.saturating_add(pw) <= avail {
        let ghost pre = f.cur@;
        proof { lemma_width_add(views(pre), views(clusters@)); }
        append_clusters(&mut f.cur, clusters);
        f.cur_w = f.cur_w.saturating_add(pw);
    } else {
        f.chunk(clusters, avail);
    }
}

/// Packs pieces greedily into lines no wider than `avail`.
pub fn fill(pieces: Vec<Piece>, avail: usize, opts: WrapOpts) -> (r: Vec<Vec<Cluster>>)
    requires
        avail < usize::MAX,
        opts.word_spacing < usize::MAX,
    ensures
        line_models(r@) == filled(views(pieces@), avail as nat, opts),
{
    let avail: usize = if avail < 1 {
        1
    } else {
        avail
    };
    let space_w: usize = 1 + opts.word_spacing;
    let ghost all = views(pieces@);
    let n: usize = pieces.len();
    let mut f = Filling::new();
    let mut gap: Option<SpanKind> = None;
    let mut pieces = pieces;
    let ghost orig = pieces@;
    let mut i: usize = 0;
    while i < n
        invariant
            n == orig.len(),
            i <= n,
            pieces@ == orig.skip(i as int),
            all == views(orig),
            0 < avail < usize::MAX,
            space_w == 1 + opts.word_spacing,
            f.wf(),
            f.model() == packed(all.take(i as int), avail as nat, opts).chunks,
            packed(all.take(i as int), avail as nat, opts).gap == (match gap {
                Some(kind) => Some(kind@),
                None => None,
            }),
        decreases n - i,
    {
        let ghost before = packed(all.take(i as int), avail as nat, opts);
        proof {
            assert(all.take(i + 1).drop_last() =~= all.take(i as int));
            assert(all.take(i + 1).last() == orig[i as int]@);
        }
        let piece = pieces.remove(0);
        proof {
            assert(piece == orig[i as int]);
            assert(pieces@ =~= orig.skip(i + 1));
        }
        let clusters = piece.clusters;
        let sep = piece.sep;
        let pw: usize = clusters_width(&clusters);
        let sep_w: usize = if gap.is_some() && f.cur.len() > 0 {
            space_w
        } else {
            0
        };
        let used: usize = f.cur_w.saturating_add(sep_w);
        if f.cur.len() > 0 && used.saturating_add(pw) > avail {
            let left: usize = if used <= avail {
                avail - used
            } else {
                0
            };
            let broken = if opts.hyphenate {
                try_hyphenate(&clusters, left)
            } else {
                None
            };
            match broken {
                Some((head, tail)) => {
                    if let Some(kind) = gap {
                        f.put(space_cluster(kind, space_w));
                    }
                    append_clusters(&mut f.cur, head);
                    f.end_line();
                    settle(&mut f, None, tail, avail, space_w);
                },
                None => {
                    f.end_line();
                    settle(&mut f, None, clusters, avail, space_w);
                },
            }
        } else {
            settle(&mut f, gap, clusters, avail, space_w);
        }
        gap = match sep {
            Sep::Space(kind) => Some(kind),
            _ => None,
        };
        i = i + 1;
    }
    proof { assert(all.take(n as int) =~= all); }
    let lines = f.finish();
    if opts.justify {
        justify_lines(lines, avail)
    } else {
        lines
    }
}

fn justify_lines(lines: Vec<Vec<Cluster>>, avail: usize) -> (r: Vec<Vec<Cluster>>)
    requires
        avail < usize::MAX,
    ensures
        line_models(r@) == justified_lines(line_models(lines@), avail as nat),
{
    let n: usize = lines.len();
    let ghost all = line_models(lines@);
    let ghost goal = justified_lines(all, avail as nat);
    let ghost orig = lines@;
    let mut lines = lines;
    let mut out: Vec<Vec<Cluster>> = Vec::new();
    let mut i: usize = 0;
    while i < n
        invariant
            n == orig.len(),
            i <= n,
            avail < usize::MAX,
            lines@ == orig.skip(i as int),
            all == line_models(orig),
            goal == justified_lines(all, avail as nat),
            line_models(out@) == goal.take(i as int),
        decreases n - i,
    {
        let line = lines.remove(0);
        proof {
            assert(line == orig[i as int]);
            assert(lines@ =~= orig.skip(i + 1));
            assert(all[i as int] == views(line@));
        }
        let ghost pre = out@;
        if i < n - 1 {
            out.push(justify_line(line, avail));
        } else {
            out.push(line);
        }
        proof {
            assert(line_models(out@) =~= line_models(pre).push(views(out@.last()@)));
            assert(goal.take(i + 1) =~= goal.take(i as int).push(goal[i as int]));
        }
        i = i + 1;
    }
    proof { assert(goal.take(n as int) =~= goal); }
    out
}

} // verus!
