//! How lines are filled: each takes as much as fits.
use vstd::prelude::*;

use crate::layout::cluster::lemma_width_add;
use crate::layout::cluster::lemma_width_push;
use crate::layout::cluster::space_model;
use crate::layout::cluster::width_of;
use crate::layout::cluster::ClusterModel;
use crate::layout::document::content_of;
use crate::layout::document::margin_of;
use crate::layout::document::pad_of;
use crate::layout::fill::at_least_one;
use crate::layout::fill::filled;
use crate::layout::fill::packed;
use crate::layout::fill::placed;
use crate::layout::fill::Packed;
use crate::layout::types::LayoutOptions;
use crate::layout::wrap::best_split;
use crate::layout::wrap::share;
use crate::layout::wrap::split_fits;
use crate::layout::wrap::PieceModel;
use crate::layout::wrap::SepModel;
use crate::layout::wrap::WrapOpts;

verus! {

/// The gap between a piece and the next on the same line.
pub open spec fn gap_after(piece: PieceModel, w: nat) -> Seq<ClusterModel> {
    match piece.sep {
        SepModel::Space(kind) => seq![space_model(kind, w)],
        _ => Seq::empty(),
    }
}

/// Pieces `a..b` on one line.
pub open spec fn on_one_line(pieces: Seq<PieceModel>, a: int, b: int, w: nat) -> Seq<ClusterModel>
    decreases b - a,
{
    if b <= a {
        Seq::empty()
    } else if b == a + 1 {
        pieces[a].clusters
    } else {
        on_one_line(pieces, a, b - 1, w) + gap_after(pieces[b - 2], w) + pieces[b - 1].clusters
    }
}

/// The next piece does not fit on the line that ends before it.
pub open spec fn is_full(pieces: Seq<PieceModel>, a: int, b: int, w: nat, avail: nat) -> bool {
    width_of(on_one_line(pieces, a, b, w)) + width_of(gap_after(pieces[b - 1], w)) + width_of(
        pieces[b].clusters,
    ) > avail
}

/// Where lines are cut: from the first piece on, one or more pieces a line.
pub open spec fn are_cuts(cuts: Seq<int>, n: int) -> bool {
    &&& cuts.len() > 0
    &&& cuts[0] == 0
    &&& cuts.last() <= n
    &&& forall|j: int, k: int| 0 <= j < k < cuts.len() ==> #[trigger] cuts[j] < #[trigger] cuts[k]
}

/// Every piece fits a line by itself and is not empty.
pub open spec fn ordinary(pieces: Seq<PieceModel>, avail: nat) -> bool {
    forall|i: int|
        0 <= i < pieces.len() ==> (#[trigger] pieces[i]).clusters.len() > 0 && width_of(
            pieces[i].clusters,
        ) <= avail
}

proof fn lemma_prefix_line(pieces: Seq<PieceModel>, a: int, b: int, n: int, w: nat)
    requires
        0 <= a <= b <= n <= pieces.len(),
    ensures
        on_one_line(pieces.take(n), a, b, w) == on_one_line(pieces, a, b, w),
    decreases b - a,
{
    if b > a + 1 {
        lemma_prefix_line(pieces, a, b - 1, n, w);
    }
}

/// The first `n` pieces stand on the lines so far and on the open one.
spec fn packed_greedily(
    pieces: Seq<PieceModel>,
    n: int,
    cuts: Seq<int>,
    p: Packed,
    w: nat,
    avail: nat,
) -> bool {
    &&& are_cuts(cuts, n)
    &&& cuts.len() == p.chunks.lines.len() + 1
    &&& n > 0 ==> cuts.last() < n
    &&& p.chunks.cur == on_one_line(pieces, cuts.last(), n, w)
    &&& n > 0 ==> p.chunks.cur.len() > 0
    &&& n == 0 ==> p.gap is None
    &&& n > 0 ==> p.gap == (match pieces[n - 1].sep {
        SepModel::Space(kind) => Some(kind),
        _ => None,
    })
    &&& forall|k: int| 0 <= k < p.chunks.lines.len() ==> #[trigger] line_is(pieces, cuts, p, w, avail, k)
}

spec fn line_is(
    pieces: Seq<PieceModel>,
    cuts: Seq<int>,
    p: Packed,
    w: nat,
    avail: nat,
    k: int,
) -> bool {
    &&& p.chunks.lines[k] == on_one_line(pieces, cuts[k], cuts[k + 1], w)
    &&& is_full(pieces, cuts[k], cuts[k + 1], w, avail)
}

#[verifier::spinoff_prover]
#[verifier::rlimit(60)]
proof fn lemma_packed(pieces: Seq<PieceModel>, n: int, avail: nat, opts: WrapOpts) -> (cuts: Seq<
    int,
>)
    requires
        0 <= n <= pieces.len(),
        ordinary(pieces, avail),
        !opts.hyphenate,
    ensures
        packed_greedily(
            pieces,
            n,
            cuts,
            packed(pieces.take(n), avail, opts),
            1 + opts.word_spacing as nat,
            avail,
        ),
    decreases n,
{
    let w = 1 + opts.word_spacing as nat;
    if n == 0 {
        assert(pieces.take(0) =~= Seq::empty());
        let cuts = seq![0int];
        let p = packed(pieces.take(0), avail, opts);
        assert(p.chunks.cur =~= on_one_line(pieces, 0, 0, w));
        assert(packed_greedily(pieces, 0, cuts, p, w, avail));
        cuts
    } else {
        let cuts = lemma_packed(pieces, n - 1, avail, opts);
        assert(pieces.take(n).drop_last() =~= pieces.take(n - 1));
        assert(pieces.take(n).last() == pieces[n - 1]);
        let before = packed(pieces.take(n - 1), avail, opts);
        let piece = pieces[n - 1];
        let after = packed(pieces.take(n), avail, opts);
        assert(after == placed(before, piece, avail, opts));
        let cur = before.chunks.cur;
        let a = cuts.last();
        let none = Seq::<ClusterModel>::empty();
        assert(none + piece.clusters =~= piece.clusters);
        if n == 1 {
            assert(pieces.take(0) =~= Seq::empty());
            assert(cuts.len() == 1);
            assert(cur =~= none);
            assert(width_of(none) + width_of(piece.clusters) <= avail);
            assert(after.chunks.cur =~= piece.clusters);
            assert(after.chunks.lines =~= before.chunks.lines);
            assert(packed_greedily(pieces, n, cuts, after, w, avail));
            cuts
        } else {
            let gap = gap_after(pieces[n - 2], w);
            assert(width_of(gap) == (if before.gap is Some {
                w
            } else {
                0
            })) by {
                lemma_width_push(none, space_model(
                    if before.gap is Some {
                        before.gap->0
                    } else {
                        crate::layout::types::KindModel::Plain
                    },
                    w,
                ));
                if before.gap is Some {
                    assert(gap =~= none.push(space_model(before.gap->0, w)));
                } else {
                    assert(gap =~= none);
                }
            }
            if width_of(cur) + width_of(gap) + width_of(piece.clusters) > avail {
                assert(after.chunks.cur =~= piece.clusters);
                assert(after.chunks.lines =~= before.chunks.lines.push(cur));
                let more = cuts.push(n - 1);
                assert forall|k: int| 0 <= k < after.chunks.lines.len() implies #[trigger] line_is(
                    pieces,
                    more,
                    after,
                    w,
                    avail,
                    k,
                ) by {
                    if k < before.chunks.lines.len() {
                        assert(line_is(pieces, cuts, before, w, avail, k));
                        assert(after.chunks.lines[k] == before.chunks.lines[k]);
                        assert(more[k] == cuts[k] && more[k + 1] == cuts[k + 1]);
                    } else {
                        assert(after.chunks.lines[k] == cur);
                        assert(more[k] == a && more[k + 1] == n - 1);
                    }
                }
                assert(are_cuts(more, n));
                assert(packed_greedily(pieces, n, more, after, w, avail));
                more
            } else {
                let joined = if before.gap is Some {
                    cur.push(space_model(before.gap->0, w))
                } else {
                    cur
                };
                assert(joined =~= cur + gap);
                lemma_width_add(cur, gap);
                assert(after.chunks.cur =~= cur + gap + piece.clusters);
                assert(after.chunks.lines =~= before.chunks.lines);
                assert(on_one_line(pieces, a, n, w) =~= after.chunks.cur);
                assert forall|k: int| 0 <= k < after.chunks.lines.len() implies #[trigger] line_is(
                    pieces,
                    cuts,
                    after,
                    w,
                    avail,
                    k,
                ) by {
                    assert(line_is(pieces, cuts, before, w, avail, k));
                }
                assert(packed_greedily(pieces, n, cuts, after, w, avail));
                cuts
            }
        }
    }
}

/// Lines are filled greedily: the pieces stand on them in order, one or more a
/// line, with a gap where a space was, and each line but the last ends where
/// the next piece does not fit any more. Pieces that fit a line by themselves,
/// without hyphenation or justification.
pub proof fn each_line_takes_as_much_as_fits(
    pieces: Seq<PieceModel>,
    avail: nat,
    opts: WrapOpts,
) -> (cuts: Seq<int>)
    requires
        ordinary(pieces, at_least_one(avail)),
        !opts.hyphenate,
        !opts.justify,
    ensures
        ({
            let w = 1 + opts.word_spacing as nat;
            let lines = filled(pieces, avail, opts);
            &&& are_cuts(cuts, pieces.len() as int)
            &&& cuts.last() == pieces.len()
            &&& cuts.len() == lines.len() + 1
            &&& forall|k: int|
                0 <= k < lines.len() ==> #[trigger] lines[k] == on_one_line(
                    pieces,
                    cuts[k],
                    cuts[k + 1],
                    w,
                )
            &&& forall|k: int|
                0 <= k < lines.len() - 1 ==> is_full(
                    pieces,
                    #[trigger] cuts[k],
                    cuts[k + 1],
                    w,
                    at_least_one(avail),
                )
        }),
{
    let n = pieces.len() as int;
    let width = at_least_one(avail);
    let w = 1 + opts.word_spacing as nat;
    assert(pieces.take(n) =~= pieces);
    let start = lemma_packed(pieces, n, width, opts);
    let chunks = packed(pieces, width, opts).chunks;
    let p = packed(pieces, width, opts);
    let lines = filled(pieces, avail, opts);
    if n == 0 {
        assert(chunks.cur =~= Seq::<ClusterModel>::empty());
        assert(start.len() == 1) by {
            if start.len() > 1 {
                assert(start[0] < start[1]);
                assert(start[1] <= start.last()) by {
                    if start.len() > 2 {
                        assert(start[1] < start[start.len() - 1]);
                    }
                }
            }
        }
        start
    } else {
        let cuts = start.push(n);
        assert(lines =~= chunks.lines.push(chunks.cur));
        assert forall|k: int| 0 <= k < lines.len() implies #[trigger] lines[k] == on_one_line(
            pieces,
            cuts[k],
            cuts[k + 1],
            w,
        ) by {
            if k < chunks.lines.len() {
                assert(line_is(pieces, start, p, w, width, k));
            }
        }
        assert forall|k: int| 0 <= k < lines.len() - 1 implies is_full(
            pieces,
            #[trigger] cuts[k],
            cuts[k + 1],
            w,
            width,
        ) by {
            assert(line_is(pieces, start, p, w, width, k));
        }
        cuts
    }
}

/// A word is broken at the last point at which its head and a hyphen fit, and
/// not at all where they fit at none.
pub proof fn the_longest_head_is_taken(
    clusters: Seq<ClusterModel>,
    points: Seq<usize>,
    remaining: nat,
)
    ensures
        ({
            let split = best_split(clusters, points, remaining);
            &&& split != 0 ==> split_fits(clusters, split, remaining) && exists|i: int|
                0 <= i < points.len() && #[trigger] points[i] == split
            &&& forall|i: int|
                0 <= i < points.len() && split_fits(
                    clusters,
                    #[trigger] points[i] as int,
                    remaining,
                ) ==> points[i] <= split
            &&& split == 0 ==> forall|i: int|
                0 <= i < points.len() ==> !split_fits(
                    clusters,
                    #[trigger] points[i] as int,
                    remaining,
                )
        }),
    decreases points.len(),
{
    if points.len() > 0 {
        let front = points.drop_last();
        let last = points.len() - 1;
        the_longest_head_is_taken(clusters, front, remaining);
        let before = best_split(clusters, front, remaining);
        let split = best_split(clusters, points, remaining);
        assert(points.last() == points[last]);
        assert forall|i: int| 0 <= i < last implies points[i] == front[i] by {}
        assert forall|i: int|
            0 <= i < points.len() && split_fits(
                clusters,
                #[trigger] points[i] as int,
                remaining,
            ) implies points[i] <= split by {
            if i < last {
                assert(front[i] == points[i]);
            }
        }
        if split != 0 {
            if split != points[last] {
                let i = choose|i: int| 0 <= i < front.len() && #[trigger] front[i] == before;
                assert(points[i] == front[i]);
            }
        }
    }
}

/// The extra cells of a justified line are spread evenly: no gap gets more
/// than one cell more than another, and none less than one after it.
pub proof fn gaps_grow_evenly(deficit: nat, gaps: nat, j: int, k: int)
    requires
        0 <= j <= k < gaps,
    ensures
        share(deficit, gaps, k) <= share(deficit, gaps, j) <= share(deficit, gaps, k) + 1,
{
}

/// The column is as wide as the measure, or takes all that the margin leaves;
/// centered, it has as much on its right as on its left past the margin, but
/// for one cell; otherwise it starts at the margin. The margin is the one
/// asked for where that leaves a cell for text.
pub proof fn the_column_stands_where_it_is_asked_for(width: u16, options: LayoutOptions)
    ensures
        ({
            let w: int = if width == 0 {
                1
            } else {
                width as int
            };
            let measure: int = if options.measure == 0 {
                1
            } else {
                options.measure as int
            };
            let left = pad_of(width, options) - margin_of(width, options);
            let right = w - pad_of(width, options) - content_of(width, options);
            &&& options.margin < w ==> margin_of(width, options) == options.margin
            &&& options.margin >= w ==> margin_of(width, options) == w - 1
            &&& content_of(width, options) == measure || (content_of(width, options) < measure
                && left == 0 && right == 0)
            &&& options.text_align is Left ==> left == 0
            &&& options.text_align is Center ==> left <= right <= left + 1
        }),
{
}

} // verus!
