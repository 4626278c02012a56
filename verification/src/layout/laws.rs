//! What holds of every wrapped run: no line is wider than its column, and
//! nothing is lost.
use vstd::prelude::*;

use crate::layout::cluster::lemma_width_add;
use crate::layout::cluster::lemma_width_push;
use crate::layout::cluster::space_model;
use crate::layout::cluster::width_of;
use crate::layout::cluster::ClusterModel;
use crate::layout::fill::at_least_one;
use crate::layout::fill::chunked;
use crate::layout::fill::chunks_of;
use crate::layout::fill::closed_lines;
use crate::layout::fill::filled;
use crate::layout::fill::gap_width;
use crate::layout::fill::justified;
use crate::layout::fill::justified_lines;
use crate::layout::fill::packed;
use crate::layout::fill::placed;
use crate::layout::fill::room;
use crate::layout::fill::settled_chunks;
use crate::layout::fill::stretched_line_fills_the_column;
use crate::layout::fill::stretches;
use crate::layout::fill::Chunks;
use crate::layout::fill::Packed;
use crate::layout::line::coalesced;
use crate::layout::line::final_line;
use crate::layout::line::pad_spans;
use crate::layout::line::runs_of;
use crate::layout::line::wrapped;
use crate::layout::measure::cells;
use crate::layout::measure::cells_additive;
use crate::layout::measure::lemma_cells_spaces;
use crate::layout::types::lemma_line_cells_add;
use crate::layout::types::line_cells;
use crate::layout::types::SpanModel;
use crate::layout::wrap::cut;
use crate::layout::wrap::hyphen_head;
use crate::layout::wrap::hyphen_split;
use crate::layout::wrap::hyphenation_points_of;
use crate::layout::wrap::lemma_best_split;
use crate::layout::wrap::pieces_of;
use crate::layout::wrap::PieceModel;
use crate::layout::wrap::WrapOpts;

verus! {

/// A cluster that displays no wider than it is counted.
pub open spec fn measured(c: ClusterModel, ambiguous_wide: bool) -> bool {
    cells(c.text, ambiguous_wide) <= c.width
}

/// Every cluster displays no wider than it is counted.
pub open spec fn all_measured(cs: Seq<ClusterModel>, ambiguous_wide: bool) -> bool {
    forall|i: int| 0 <= i < cs.len() ==> measured(#[trigger] cs[i], ambiguous_wide)
}

/// A cluster that fits a line by itself.
pub open spec fn narrow(c: ClusterModel, avail: nat, ambiguous_wide: bool) -> bool {
    measured(c, ambiguous_wide) && c.width <= avail
}

/// Every cluster fits a line by itself.
pub open spec fn all_narrow(cs: Seq<ClusterModel>, avail: nat, ambiguous_wide: bool) -> bool {
    forall|i: int| 0 <= i < cs.len() ==> narrow(#[trigger] cs[i], avail, ambiguous_wide)
}

/// Every cluster that is neither a gap nor a hard break fits a line by
/// itself.
pub open spec fn words_narrow(cs: Seq<ClusterModel>, avail: nat, ambiguous_wide: bool) -> bool {
    forall|i: int|
        0 <= i < cs.len() ==> ((#[trigger] cs[i]).is_space || cs[i].is_newline || narrow(
            cs[i],
            avail,
            ambiguous_wide,
        ))
}

/// A line that stays within its column.
pub open spec fn line_fits(line: Seq<ClusterModel>, avail: nat, ambiguous_wide: bool) -> bool {
    all_measured(line, ambiguous_wide) && width_of(line) <= avail
}

/// Every line stays within its column.
pub open spec fn lines_fit(
    lines: Seq<Seq<ClusterModel>>,
    avail: nat,
    ambiguous_wide: bool,
) -> bool {
    forall|i: int| 0 <= i < lines.len() ==> line_fits(#[trigger] lines[i], avail, ambiguous_wide)
}

/// The lines and the open line stay within the column.
pub open spec fn chunks_fit(c: Chunks, avail: nat, ambiguous_wide: bool) -> bool {
    lines_fit(c.lines, avail, ambiguous_wide) && line_fits(c.cur, avail, ambiguous_wide)
}

/// Cutting at cluster boundaries keeps within `bound`.
pub proof fn lemma_chunked_fits(
    start: Chunks,
    clusters: Seq<ClusterModel>,
    avail: nat,
    bound: nat,
    ambiguous_wide: bool,
)
    requires
        avail <= bound,
        chunks_fit(start, bound, ambiguous_wide),
        all_narrow(clusters, bound, ambiguous_wide),
    ensures
        chunks_fit(chunked(start, clusters, avail), bound, ambiguous_wide),
    decreases clusters.len(),
{
    if clusters.len() > 0 {
        let front = clusters.drop_last();
        lemma_chunked_fits(start, front, avail, bound, ambiguous_wide);
        let before = chunked(start, front, avail);
        let c = clusters.last();
        assert(narrow(clusters[clusters.len() - 1], bound, ambiguous_wide));
        lemma_width_push(before.cur, c);
        lemma_width_push(Seq::empty(), c);
        assert(Seq::<ClusterModel>::empty().push(c) =~= seq![c]);
    }
}

proof fn lemma_space_measured(kind: crate::layout::types::KindModel, w: nat, ambiguous_wide: bool)
    ensures
        measured(space_model(kind, w), ambiguous_wide),
{
    lemma_cells_spaces(space_model(kind, w).width, ambiguous_wide);
}

proof fn lemma_settled_fits(
    p: Packed,
    clusters: Seq<ClusterModel>,
    avail: nat,
    bound: nat,
    space_w: nat,
    ambiguous_wide: bool,
)
    requires
        avail <= bound,
        space_w >= 1,
        chunks_fit(p.chunks, bound, ambiguous_wide),
        all_narrow(clusters, bound, ambiguous_wide),
        p.chunks.cur.len() > 0 ==> width_of(p.chunks.cur) + gap_width(p, space_w) + width_of(
            clusters,
        ) <= avail,
    ensures
        chunks_fit(settled_chunks(p, clusters, avail, space_w), bound, ambiguous_wide),
{
    let cur = match p.gap {
        Some(kind) if p.chunks.cur.len() > 0 => p.chunks.cur.push(space_model(kind, space_w)),
        _ => p.chunks.cur,
    };
    if let Some(kind) = p.gap {
        lemma_space_measured(kind, space_w, ambiguous_wide);
        lemma_width_push(p.chunks.cur, space_model(kind, space_w));
    }
    lemma_width_add(cur, clusters);
    lemma_chunked_fits(
        Chunks { lines: p.chunks.lines, cur },
        clusters,
        avail,
        bound,
        ambiguous_wide,
    );
}

proof fn lemma_head_fits(
    clusters: Seq<ClusterModel>,
    split: int,
    remaining: nat,
    ambiguous_wide: bool,
)
    requires
        all_measured(clusters, ambiguous_wide),
        0 < split < clusters.len(),
        width_of(clusters.take(split)) + 1 <= remaining,
    ensures
        all_measured(hyphen_head(clusters, split), ambiguous_wide),
        width_of(hyphen_head(clusters, split)) <= remaining,
{
    let dash = crate::layout::cluster::cluster_model(
        seq!['-'],
        clusters[split - 1].kind,
        false,
    );
    assert(seq!['-'].drop_last() =~= Seq::empty());
    reveal_with_fuel(cells, 2);
    assert(seq!['-'] != seq!['\n']) by {
        assert(seq!['-'][0] != seq!['\n'][0]);
    }
    assert(!crate::text::all_whitespace(seq!['-'])) by {
        assert(!crate::text::whitespace(seq!['-'][0]));
    }
    lemma_width_push(clusters.take(split), dash);
}

proof fn lemma_placed_fits(
    p: Packed,
    piece: PieceModel,
    avail: nat,
    bound: nat,
    opts: WrapOpts,
    ambiguous_wide: bool,
)
    requires
        avail <= bound,
        chunks_fit(p.chunks, bound, ambiguous_wide),
        all_narrow(piece.clusters, bound, ambiguous_wide),
    ensures
        chunks_fit(placed(p, piece, avail, opts).chunks, bound, ambiguous_wide),
{
    let space_w = 1 + opts.word_spacing as nat;
    if p.chunks.cur.len() > 0 && width_of(p.chunks.cur) + gap_width(p, space_w) + width_of(
        piece.clusters,
    ) > avail {
        let split = if opts.hyphenate {
            hyphen_split(piece.clusters, room(p, avail, space_w))
        } else {
            0
        };
        if split > 0 {
            lemma_best_split(
                piece.clusters,
                hyphenation_points_of(piece.clusters),
                room(p, avail, space_w),
            );
            lemma_head_fits(
                piece.clusters,
                split,
                room(p, avail, space_w),
                ambiguous_wide,
            );
            let cur = match p.gap {
                Some(kind) => p.chunks.cur.push(space_model(kind, space_w)),
                None => p.chunks.cur,
            };
            if let Some(kind) = p.gap {
                lemma_space_measured(kind, space_w, ambiguous_wide);
                lemma_width_push(p.chunks.cur, space_model(kind, space_w));
            }
            let head = hyphen_head(piece.clusters, split);
            lemma_width_add(cur, head);
            let next = Packed {
                chunks: Chunks { lines: p.chunks.lines.push(cur + head), cur: Seq::empty() },
                gap: None,
            };
            lemma_settled_fits(
                next,
                piece.clusters.skip(split),
                avail,
                bound,
                space_w,
                ambiguous_wide,
            );
        } else {
            let next = Packed {
                chunks: Chunks { lines: p.chunks.lines.push(p.chunks.cur), cur: Seq::empty() },
                gap: None,
            };
            lemma_settled_fits(next, piece.clusters, avail, bound, space_w, ambiguous_wide);
        }
    } else {
        lemma_settled_fits(p, piece.clusters, avail, bound, space_w, ambiguous_wide);
    }
}

/// Every cluster of every piece fits a line by itself.
pub open spec fn pieces_narrow(
    pieces: Seq<PieceModel>,
    avail: nat,
    ambiguous_wide: bool,
) -> bool {
    forall|i: int|
        0 <= i < pieces.len() ==> all_narrow((#[trigger] pieces[i]).clusters, avail, ambiguous_wide)
}

proof fn lemma_packed_fits(
    pieces: Seq<PieceModel>,
    avail: nat,
    bound: nat,
    opts: WrapOpts,
    ambiguous_wide: bool,
)
    requires
        avail <= bound,
        pieces_narrow(pieces, bound, ambiguous_wide),
    ensures
        chunks_fit(packed(pieces, avail, opts).chunks, bound, ambiguous_wide),
    decreases pieces.len(),
{
    if pieces.len() > 0 {
        lemma_packed_fits(pieces.drop_last(), avail, bound, opts, ambiguous_wide);
        assert(all_narrow(pieces[pieces.len() - 1].clusters, bound, ambiguous_wide));
        lemma_placed_fits(
            packed(pieces.drop_last(), avail, opts),
            pieces.last(),
            avail,
            bound,
            opts,
            ambiguous_wide,
        );
    }
}

/// A justified line stays within `bound`.
pub proof fn lemma_justified_fits(
    line: Seq<ClusterModel>,
    avail: nat,
    bound: nat,
    ambiguous_wide: bool,
)
    requires
        avail <= bound,
        line_fits(line, bound, ambiguous_wide),
    ensures
        line_fits(justified(line, avail), bound, ambiguous_wide),
{
    if stretches(line, avail) {
        stretched_line_fills_the_column(line, avail);
        let out = justified(line, avail);
        assert forall|i: int| 0 <= i < out.len() implies measured(
            #[trigger] out[i],
            ambiguous_wide,
        ) by {
            assert(measured(line[i], ambiguous_wide));
            lemma_cells_spaces(out[i].width, ambiguous_wide);
        }
    }
}

/// Packing keeps every line within `bound`.
pub proof fn lemma_filled_fits(
    pieces: Seq<PieceModel>,
    avail: nat,
    bound: nat,
    opts: WrapOpts,
    ambiguous_wide: bool,
)
    requires
        at_least_one(avail) <= bound,
        pieces_narrow(pieces, bound, ambiguous_wide),
    ensures
        lines_fit(filled(pieces, avail, opts), bound, ambiguous_wide),
{
    let width = at_least_one(avail);
    lemma_packed_fits(pieces, width, bound, opts, ambiguous_wide);
    let lines = closed_lines(packed(pieces, width, opts).chunks);
    assert(lines_fit(lines, bound, ambiguous_wide));
    if opts.justify {
        let out = justified_lines(lines, width);
        assert forall|i: int| 0 <= i < out.len() implies line_fits(
            #[trigger] out[i],
            bound,
            ambiguous_wide,
        ) by {
            assert(line_fits(lines[i], bound, ambiguous_wide));
            lemma_justified_fits(lines[i], width, bound, ambiguous_wide);
        }
    }
}

proof fn lemma_cut_narrow(clusters: Seq<ClusterModel>, n: int, bound: nat, ambiguous_wide: bool)
    requires
        0 <= n <= clusters.len(),
        forall|i: int|
            0 <= i < clusters.len() ==> ((#[trigger] clusters[i]).is_space || narrow(
                clusters[i],
                bound,
                ambiguous_wide,
            )),
    ensures
        pieces_narrow(cut(clusters, n).pieces, bound, ambiguous_wide),
        all_narrow(cut(clusters, n).open, bound, ambiguous_wide),
    decreases n,
{
    if n > 0 {
        lemma_cut_narrow(clusters, n - 1, bound, ambiguous_wide);
        let c = clusters[n - 1];
        let before = cut(clusters, n - 1);
        if !c.is_space {
            assert(all_narrow(before.open.push(c), bound, ambiguous_wide));
        }
    }
}

/// A run of text stays within `bound` where each of its words' clusters does.
pub proof fn lemma_run_fits(
    clusters: Seq<ClusterModel>,
    avail: nat,
    bound: nat,
    opts: WrapOpts,
    ambiguous_wide: bool,
)
    requires
        at_least_one(avail) <= bound,
        forall|i: int|
            0 <= i < clusters.len() ==> ((#[trigger] clusters[i]).is_space || narrow(
                clusters[i],
                bound,
                ambiguous_wide,
            )),
    ensures
        lines_fit(filled(pieces_of(clusters), avail, opts), bound, ambiguous_wide),
{
    lemma_cut_narrow(clusters, clusters.len() as int, bound, ambiguous_wide);
    lemma_filled_fits(pieces_of(clusters), avail, bound, opts, ambiguous_wide);
}

proof fn lemma_runs_fit(
    clusters: Seq<ClusterModel>,
    avail: nat,
    bound: nat,
    opts: WrapOpts,
    ambiguous_wide: bool,
)
    requires
        at_least_one(avail) <= bound,
        words_narrow(clusters, bound, ambiguous_wide),
    ensures
        lines_fit(runs_of(clusters, avail, opts).lines, bound, ambiguous_wide),
        forall|i: int|
            0 <= i < runs_of(clusters, avail, opts).open.len() ==> ((#[trigger] runs_of(
                clusters,
                avail,
                opts,
            ).open[i]).is_space || narrow(
                runs_of(clusters, avail, opts).open[i],
                bound,
                ambiguous_wide,
            )),
    decreases clusters.len(),
{
    if clusters.len() > 0 {
        let front = clusters.drop_last();
        assert(words_narrow(front, bound, ambiguous_wide)) by {
            assert forall|i: int| 0 <= i < front.len() implies ((#[trigger] front[i]).is_space
                || front[i].is_newline || narrow(front[i], bound, ambiguous_wide)) by {
                assert(front[i] == clusters[i]);
            }
        }
        lemma_runs_fit(front, avail, bound, opts, ambiguous_wide);
        let before = runs_of(front, avail, opts);
        lemma_run_fits(before.open, avail, bound, opts, ambiguous_wide);
        assert(clusters[clusters.len() - 1] == clusters.last());
    }
}

/// No wrapped line is wider than its column, or than the widest cluster of a
/// word where that is wider than the column by itself.
pub proof fn wrapped_lines_fit(
    clusters: Seq<ClusterModel>,
    avail: nat,
    bound: nat,
    opts: WrapOpts,
    ambiguous_wide: bool,
)
    requires
        at_least_one(avail) <= bound,
        words_narrow(clusters, bound, ambiguous_wide),
    ensures
        lines_fit(wrapped(clusters, avail, opts), bound, ambiguous_wide),
{
    lemma_runs_fit(clusters, avail, bound, opts, ambiguous_wide);
    lemma_run_fits(runs_of(clusters, avail, opts).open, avail, bound, opts, ambiguous_wide);
}

/// No chunk is wider than its column, or than the widest cluster where that is
/// wider than the column by itself.
pub proof fn chunks_fit_the_column(
    clusters: Seq<ClusterModel>,
    avail: nat,
    bound: nat,
    ambiguous_wide: bool,
)
    requires
        at_least_one(avail) <= bound,
        all_narrow(clusters, bound, ambiguous_wide),
    ensures
        lines_fit(chunks_of(clusters, avail), bound, ambiguous_wide),
{
    lemma_chunked_fits(
        Chunks { lines: Seq::empty(), cur: Seq::empty() },
        clusters,
        at_least_one(avail),
        bound,
        ambiguous_wide,
    );
}

/// Joining clusters of one kind into spans keeps the cells they take.
pub proof fn lemma_coalesced_cells(content: Seq<ClusterModel>, ambiguous_wide: bool)
    requires
        all_measured(content, ambiguous_wide),
    ensures
        line_cells(coalesced(content), ambiguous_wide) <= width_of(content),
    decreases content.len(),
{
    if content.len() > 0 {
        let front = content.drop_last();
        lemma_coalesced_cells(front, ambiguous_wide);
        let before = coalesced(front);
        let c = content.last();
        assert(measured(content[content.len() - 1], ambiguous_wide));
        let out = coalesced(content);
        if before.len() > 0 && before.last().kind == c.kind {
            cells_additive(before.last().text, c.text, ambiguous_wide);
            assert(out.drop_last() =~= before.drop_last());
        } else {
            assert(out.drop_last() =~= before);
        }
    }
}

/// The pad takes its own width.
pub proof fn lemma_pad_cells(pad: nat, ambiguous_wide: bool)
    ensures
        line_cells(pad_spans(pad), ambiguous_wide) == pad,
{
    if pad > 0 {
        lemma_cells_spaces(pad, ambiguous_wide);
        assert(pad_spans(pad).drop_last() =~= Seq::empty());
        reveal_with_fuel(line_cells, 2);
    }
}

/// A finished line takes its pad, its prefix and its content.
pub proof fn lemma_final_line_cells(
    pad: nat,
    prefix: Seq<SpanModel>,
    content: Seq<ClusterModel>,
    ambiguous_wide: bool,
)
    requires
        all_measured(content, ambiguous_wide),
    ensures
        line_cells(final_line(pad, prefix, content), ambiguous_wide) <= pad + line_cells(
            prefix,
            ambiguous_wide,
        ) + width_of(content),
{
    lemma_pad_cells(pad, ambiguous_wide);
    lemma_coalesced_cells(content, ambiguous_wide);
    lemma_line_cells_add(pad_spans(pad), prefix, ambiguous_wide);
    lemma_line_cells_add(pad_spans(pad) + prefix, coalesced(content), ambiguous_wide);
}

} // verus!
