//! The mappings of a layout line up with its document, and wrapping loses
//! nothing.
use vstd::prelude::*;

use crate::doc::Block;
use crate::doc::Document;
use crate::doc::minutes_to_read;
use crate::layout::cluster::ClusterModel;
use crate::layout::document::float_at;
use crate::layout::document::header_rows;
use crate::layout::document::laid_document;
use crate::layout::document::laid_from;
use crate::layout::document::laid_nothing;
use crate::layout::document::lead_shape;
use crate::layout::document::links_between;
use crate::layout::document::links_from;
use crate::layout::document::next_heading;
use crate::layout::document::shape_of;
use crate::layout::document::shows;
use crate::layout::document::with_block;
use crate::layout::document::with_blocks;
use crate::layout::document::with_float;
use crate::layout::document::with_fold;
use crate::layout::document::Laid;
use crate::layout::emit::plain_rows;
use crate::layout::emit::Shape;
use crate::layout::fill::chunked;
use crate::layout::fill::closed_lines;
use crate::layout::fill::filled;
use crate::layout::fill::justified;
use crate::layout::fill::justified_lines;
use crate::layout::fill::packed;
use crate::layout::fill::settled_chunks;
use crate::layout::fill::Chunks;
use crate::layout::fill::Packed;
use crate::layout::line::runs_of;
use crate::layout::line::wrapped;
use crate::layout::types::ImageResolver;
use crate::layout::types::KindModel;
use crate::layout::types::Layout;
use crate::layout::types::LayoutOptions;
use crate::layout::wrap::cut;
use crate::layout::wrap::pieces_of;
use crate::layout::wrap::PieceModel;
use crate::layout::wrap::WrapOpts;

verus! {

pub proof fn lemma_block_counts<R: ImageResolver>(
    shape: Shape,
    at: Laid,
    blocks: Seq<Block>,
    from: int,
    to: int,
    images: R,
)
    requires
        from <= to,
    ensures
        with_blocks(shape, at, blocks, from, to, images).anchors.len() == at.anchors.len() + (to
            - from),
        with_blocks(shape, at, blocks, from, to, images).links == at.links + links_between(
            blocks,
            from,
            to,
        ),
    decreases to - from,
{
    if from < to {
        lemma_block_counts(shape, at, blocks, from, to - 1, images);
    }
}

pub proof fn lemma_split(blocks: Seq<Block>, from: int, to: int)
    requires
        0 <= from <= to <= blocks.len(),
    ensures
        links_from(blocks, from) == links_between(blocks, from, to) + links_from(blocks, to),
    decreases to - from,
{
    if from < to {
        lemma_split(blocks, from, to - 1);
    }
}

pub proof fn lemma_float_counts<R: ImageResolver>(
    shape: Shape,
    at: Laid,
    blocks: Seq<Block>,
    i: int,
    end: int,
    images: R,
)
    requires
        0 <= i < end <= blocks.len(),
        blocks[i] is Infobox,
    ensures
        with_float(shape, at, blocks, i, end, images).anchors.len() == at.anchors.len() + (end - i),
        with_float(shape, at, blocks, i, end, images).links + links_from(blocks, end) == at.links
            + links_from(blocks, i),
        with_float(shape, at, blocks, i, end, images).rows.len() >= at.rows.len(),
{
    lemma_block_counts(
        lead_shape(shape),
        laid_nothing(at.links),
        blocks,
        i + 1,
        end,
        images,
    );
    lemma_split(blocks, i + 1, end);
}

pub proof fn lemma_fold_counts(shape: Shape, at: Laid, blocks: Seq<Block>, i: int, end: int)
    requires
        0 <= i < end <= blocks.len(),
        blocks[i] is Heading,
    ensures
        with_fold(shape, at, blocks, i, end).anchors.len() == at.anchors.len() + (end - i),
        with_fold(shape, at, blocks, i, end).links + links_from(blocks, end) == at.links
            + links_from(blocks, i),
        with_fold(shape, at, blocks, i, end).rows.len() >= at.rows.len(),
{
    lemma_split(blocks, i + 1, end);
}

proof fn lemma_one_count<R: ImageResolver>(
    shape: Shape,
    at: Laid,
    blocks: Seq<Block>,
    i: int,
    images: R,
)
    requires
        0 <= i < blocks.len(),
    ensures
        with_block(shape, at, blocks[i], images).anchors.len() == at.anchors.len() + 1,
        with_block(shape, at, blocks[i], images).links + links_from(blocks, i + 1) == at.links
            + links_from(blocks, i),
        with_block(shape, at, blocks[i], images).rows.len() >= at.rows.len(),
{
}

proof fn lemma_rest_counts<R: ImageResolver>(
    shape: Shape,
    at: Laid,
    blocks: Seq<Block>,
    i: int,
    float: int,
    folds: Seq<usize>,
    images: R,
)
    requires
        0 <= i <= blocks.len(),
        0 <= float < blocks.len() ==> blocks[float] is Infobox,
    ensures
        ({
            let laid = laid_from(shape, at, blocks, i, float, folds, images);
            &&& laid.anchors.len() == at.anchors.len() + blocks.len() - i
            &&& laid.links == at.links + links_from(blocks, i)
            &&& laid.rows.len() >= at.rows.len()
        }),
    decreases blocks.len() - i,
{
    if i < blocks.len() {
        if i == float {
            let end = next_heading(blocks, i + 1, 255);
            crate::layout::document::lemma_next_heading(blocks, i + 1, 255);
            lemma_float_counts(shape, at, blocks, i, end, images);
            let next = with_float(shape, at, blocks, i, end, images);
            lemma_rest_counts(shape, next, blocks, end, float, folds, images);
        } else if blocks[i] is Heading && folds.contains(i as usize) {
            let level = blocks[i]->Heading_level;
            let end = next_heading(blocks, i + 1, level);
            crate::layout::document::lemma_next_heading(blocks, i + 1, level);
            lemma_fold_counts(shape, at, blocks, i, end);
            let next = with_fold(shape, at, blocks, i, end);
            lemma_rest_counts(shape, next, blocks, end, float, folds, images);
        } else {
            lemma_one_count(shape, at, blocks, i, images);
            let next = with_block(shape, at, blocks[i], images);
            lemma_rest_counts(shape, next, blocks, i + 1, float, folds, images);
        }
    }
}

pub proof fn lemma_float_is_infobox(blocks: Seq<Block>, i: int)
    requires
        0 <= i <= blocks.len(),
    ensures
        ({
            let at = crate::layout::document::next_infobox(blocks, i);
            i <= at <= blocks.len() && (at < blocks.len() ==> blocks[at] is Infobox)
        }),
    decreases blocks.len() - i,
{
    if i < blocks.len() && !(blocks[i] is Infobox) {
        lemma_float_is_infobox(blocks, i + 1);
    }
}

proof fn lemma_spaced_not_empty(shape: Shape, title: Seq<char>)
    ensures
        plain_rows(shape, title, KindModel::Title).len() > 0,
{
}

/// A layout has one anchor for each block, one entry for each followable link
/// of the document whether it shows or not, and one continuation flag fewer
/// than it has lines.
pub proof fn mappings_line_up<R: ImageResolver>(
    layout: Layout,
    doc: Document,
    width: u16,
    options: LayoutOptions,
    images: R,
    folds: Seq<usize>,
)
    requires
        shows(layout, laid_document(doc, width, options, images, folds)),
    ensures
        layout.block_lines@.len() == doc.blocks@.len(),
        layout.link_lines@.len() == links_from(doc.blocks@, 0),
        layout.link_visible@.len() == links_from(doc.blocks@, 0),
        layout.link_cols@.len() == links_from(doc.blocks@, 0),
        layout.lines@.len() >= 1,
        layout.continuation@.len() == layout.lines@.len() - 1,
{
    let shape = shape_of(width, options);
    let minutes = minutes_to_read(doc.words as nat, options.reading_wpm as nat);
    let start = Laid {
        rows: header_rows(shape, doc.title@, minutes),
        anchors: Seq::empty(),
        links: 0,
    };
    let float = float_at(width, shape, doc.blocks@);
    lemma_float_is_infobox(doc.blocks@, 0);
    lemma_spaced_not_empty(shape, doc.title@);
    lemma_rest_counts(shape, start, doc.blocks@, 0, float, folds, images);
}

/// The clusters that are not gaps.
pub open spec fn words(cs: Seq<ClusterModel>) -> Seq<ClusterModel>
    decreases cs.len(),
{
    if cs.len() == 0 {
        Seq::empty()
    } else if cs.last().is_space {
        words(cs.drop_last())
    } else {
        words(cs.drop_last()).push(cs.last())
    }
}

/// The clusters of lines that are not gaps.
pub open spec fn words_of_lines(lines: Seq<Seq<ClusterModel>>) -> Seq<ClusterModel>
    decreases lines.len(),
{
    if lines.len() == 0 {
        Seq::empty()
    } else {
        words_of_lines(lines.drop_last()) + words(lines.last())
    }
}

/// The clusters that are neither gaps nor hard breaks.
pub open spec fn content_words(cs: Seq<ClusterModel>) -> Seq<ClusterModel>
    decreases cs.len(),
{
    if cs.len() == 0 {
        Seq::empty()
    } else if cs.last().is_space || cs.last().is_newline {
        content_words(cs.drop_last())
    } else {
        content_words(cs.drop_last()).push(cs.last())
    }
}

proof fn lemma_words_add(a: Seq<ClusterModel>, b: Seq<ClusterModel>)
    ensures
        words(a + b) == words(a) + words(b),
    decreases b.len(),
{
    if b.len() == 0 {
        assert(a + b =~= a);
        assert(words(a) + words(b) =~= words(a));
    } else {
        assert((a + b).drop_last() =~= a + b.drop_last());
        lemma_words_add(a, b.drop_last());
        assert(words(a + b) =~= words(a) + words(b));
    }
}

proof fn lemma_words_push(a: Seq<ClusterModel>, c: ClusterModel)
    ensures
        words(a.push(c)) == if c.is_space {
            words(a)
        } else {
            words(a).push(c)
        },
{
    assert(a.push(c).drop_last() =~= a);
}

proof fn lemma_words_of_lines_push(lines: Seq<Seq<ClusterModel>>, l: Seq<ClusterModel>)
    ensures
        words_of_lines(lines.push(l)) == words_of_lines(lines) + words(l),
{
    assert(lines.push(l).drop_last() =~= lines);
}

proof fn lemma_words_of_lines_add(a: Seq<Seq<ClusterModel>>, b: Seq<Seq<ClusterModel>>)
    ensures
        words_of_lines(a + b) == words_of_lines(a) + words_of_lines(b),
    decreases b.len(),
{
    if b.len() == 0 {
        assert(a + b =~= a);
        assert(words_of_lines(a) + words_of_lines(b) =~= words_of_lines(a));
    } else {
        assert((a + b).drop_last() =~= a + b.drop_last());
        lemma_words_of_lines_add(a, b.drop_last());
        assert(words_of_lines(a + b) =~= words_of_lines(a) + words_of_lines(b));
    }
}

/// The words on the lines and on the open line.
spec fn held_words(c: Chunks) -> Seq<ClusterModel> {
    words_of_lines(c.lines) + words(c.cur)
}

proof fn lemma_chunked_words(start: Chunks, clusters: Seq<ClusterModel>, avail: nat)
    ensures
        held_words(chunked(start, clusters, avail)) == held_words(start) + words(clusters),
    decreases clusters.len(),
{
    if clusters.len() == 0 {
        assert(held_words(start) + words(clusters) =~= held_words(start));
    } else {
        let front = clusters.drop_last();
        lemma_chunked_words(start, front, avail);
        let before = chunked(start, front, avail);
        let c = clusters.last();
        lemma_words_of_lines_push(before.lines, before.cur);
        lemma_words_push(before.cur, c);
        lemma_words_push(Seq::empty(), c);
        assert(Seq::<ClusterModel>::empty().push(c) =~= seq![c]);
        assert(words(Seq::<ClusterModel>::empty()) =~= Seq::empty());
        let after = chunked(start, clusters, avail);
        let one = if c.is_space {
            Seq::<ClusterModel>::empty()
        } else {
            seq![c]
        };
        assert(words(clusters) =~= words(front) + one);
        assert(held_words(after) =~= held_words(before) + one);
        assert(held_words(start) + words(clusters) =~= held_words(start) + words(front) + one);
    }
}

proof fn lemma_settled_words(p: Packed, clusters: Seq<ClusterModel>, avail: nat, space_w: nat)
    ensures
        held_words(settled_chunks(p, clusters, avail, space_w)) == held_words(p.chunks) + words(
            clusters,
        ),
{
    let cur = match p.gap {
        Some(kind) if p.chunks.cur.len() > 0 => p.chunks.cur.push(
            crate::layout::cluster::space_model(kind, space_w),
        ),
        _ => p.chunks.cur,
    };
    if let Some(kind) = p.gap {
        lemma_words_push(p.chunks.cur, crate::layout::cluster::space_model(kind, space_w));
    }
    lemma_words_add(cur, clusters);
    lemma_chunked_words(Chunks { lines: p.chunks.lines, cur }, clusters, avail);
    assert(held_words(settled_chunks(p, clusters, avail, space_w)) =~= held_words(p.chunks)
        + words(clusters));
}

/// The words of pieces.
spec fn words_of_pieces(pieces: Seq<PieceModel>) -> Seq<ClusterModel>
    decreases pieces.len(),
{
    if pieces.len() == 0 {
        Seq::empty()
    } else {
        words_of_pieces(pieces.drop_last()) + words(pieces.last().clusters)
    }
}

proof fn lemma_packed_words(pieces: Seq<PieceModel>, avail: nat, opts: WrapOpts)
    requires
        !opts.hyphenate,
    ensures
        held_words(packed(pieces, avail, opts).chunks) == words_of_pieces(pieces),
    decreases pieces.len(),
{
    if pieces.len() == 0 {
        assert(held_words(packed(pieces, avail, opts).chunks) =~= Seq::empty());
    } else {
        lemma_packed_words(pieces.drop_last(), avail, opts);
        let p = packed(pieces.drop_last(), avail, opts);
        let piece = pieces.last();
        let space_w = 1 + opts.word_spacing as nat;
        let next = Packed {
            chunks: Chunks { lines: p.chunks.lines.push(p.chunks.cur), cur: Seq::empty() },
            gap: None,
        };
        lemma_words_of_lines_push(p.chunks.lines, p.chunks.cur);
        assert(held_words(next.chunks) =~= held_words(p.chunks));
        lemma_settled_words(next, piece.clusters, avail, space_w);
        lemma_settled_words(p, piece.clusters, avail, space_w);
    }
}

proof fn lemma_justified_words(line: Seq<ClusterModel>, avail: nat)
    ensures
        words(justified(line, avail)) == words(line),
{
    let out = justified(line, avail);
    assert forall|i: int| 0 <= i < line.len() implies (#[trigger] out[i]).is_space
        == line[i].is_space && (!line[i].is_space ==> out[i] == line[i]) by {
        crate::layout::fill::justification_touches_gaps_alone(line, avail, i);
    }
    if line.len() > 0 {
        crate::layout::fill::justification_touches_gaps_alone(line, avail, 0);
    }
    lemma_same_words(out, line);
}

proof fn lemma_same_words(a: Seq<ClusterModel>, b: Seq<ClusterModel>)
    requires
        a.len() == b.len(),
        forall|i: int|
            0 <= i < b.len() ==> (#[trigger] a[i]).is_space == b[i].is_space && (!b[i].is_space
                ==> a[i] == b[i]),
    ensures
        words(a) == words(b),
    decreases a.len(),
{
    if a.len() > 0 {
        lemma_same_words(a.drop_last(), b.drop_last());
        assert(a[a.len() - 1].is_space == b[b.len() - 1].is_space);
    }
}

proof fn lemma_justified_lines_words(lines: Seq<Seq<ClusterModel>>, avail: nat, n: int)
    requires
        0 <= n <= lines.len(),
    ensures
        words_of_lines(justified_lines(lines, avail).take(n)) == words_of_lines(lines.take(n)),
    decreases n,
{
    let out = justified_lines(lines, avail);
    if n > 0 {
        lemma_justified_lines_words(lines, avail, n - 1);
        assert(out.take(n).drop_last() =~= out.take(n - 1));
        assert(lines.take(n).drop_last() =~= lines.take(n - 1));
        lemma_justified_words(lines[n - 1], avail);
    }
}

proof fn lemma_filled_words(pieces: Seq<PieceModel>, avail: nat, opts: WrapOpts)
    requires
        !opts.hyphenate,
    ensures
        words_of_lines(filled(pieces, avail, opts)) == words_of_pieces(pieces),
{
    let width = crate::layout::fill::at_least_one(avail);
    lemma_packed_words(pieces, width, opts);
    let chunks = packed(pieces, width, opts).chunks;
    let lines = closed_lines(chunks);
    lemma_words_of_lines_push(chunks.lines, chunks.cur);
    assert(words_of_lines(lines) =~= held_words(chunks));
    if opts.justify {
        lemma_justified_lines_words(lines, width, lines.len() as int);
        assert(lines.take(lines.len() as int) =~= lines);
        let out = justified_lines(lines, width);
        assert(out.take(out.len() as int) =~= out);
    }
}

proof fn lemma_cut_words(clusters: Seq<ClusterModel>, n: int)
    requires
        0 <= n <= clusters.len(),
    ensures
        words_of_pieces(cut(clusters, n).pieces) + words(cut(clusters, n).open) == words(
            clusters.take(n),
        ),
    decreases n,
{
    if n == 0 {
        assert(clusters.take(0) =~= Seq::empty());
        assert(words_of_pieces(cut(clusters, 0).pieces) + words(cut(clusters, 0).open)
            =~= Seq::empty());
    } else {
        lemma_cut_words(clusters, n - 1);
        assert(clusters.take(n).drop_last() =~= clusters.take(n - 1));
        let before = cut(clusters, n - 1);
        let after = cut(clusters, n);
        let c = clusters[n - 1];
        lemma_words_push(before.open, c);
        if after.pieces.len() > before.pieces.len() {
            assert(after.pieces.drop_last() =~= before.pieces);
        }
        assert(words_of_pieces(after.pieces) + words(after.open) =~= words(clusters.take(n)));
    }
}

proof fn lemma_pieces_words(clusters: Seq<ClusterModel>)
    ensures
        words_of_pieces(pieces_of(clusters)) == words(clusters),
{
    let n = clusters.len() as int;
    lemma_cut_words(clusters, n);
    assert(clusters.take(n) =~= clusters);
    let end = cut(clusters, n);
    if end.open.len() > 0 {
        assert(pieces_of(clusters).drop_last() =~= end.pieces);
    }
    assert(words_of_pieces(pieces_of(clusters)) =~= words(clusters));
}

proof fn lemma_runs_words(clusters: Seq<ClusterModel>, avail: nat, opts: WrapOpts)
    requires
        !opts.hyphenate,
    ensures
        words_of_lines(runs_of(clusters, avail, opts).lines) + words(
            runs_of(clusters, avail, opts).open,
        ) == content_words(clusters),
    decreases clusters.len(),
{
    let after = runs_of(clusters, avail, opts);
    if clusters.len() > 0 {
        let front = clusters.drop_last();
        lemma_runs_words(front, avail, opts);
        let before = runs_of(front, avail, opts);
        let c = clusters.last();
        if c.is_newline {
            let more = filled(pieces_of(before.open), avail, opts);
            lemma_words_of_lines_add(before.lines, more);
            lemma_filled_words(pieces_of(before.open), avail, opts);
            lemma_pieces_words(before.open);
        } else {
            lemma_words_push(before.open, c);
        }
    }
    assert(words_of_lines(after.lines) + words(after.open) =~= content_words(clusters));
}

/// Wrapping loses nothing and changes nothing but gaps and breaks: without
/// hyphenation the clusters of the words come out whole, all of them, in
/// order.
pub proof fn wrapping_keeps_every_word(clusters: Seq<ClusterModel>, avail: nat, opts: WrapOpts)
    requires
        !opts.hyphenate,
    ensures
        words_of_lines(wrapped(clusters, avail, opts)) == content_words(clusters),
{
    let runs = runs_of(clusters, avail, opts);
    lemma_runs_words(clusters, avail, opts);
    let more = filled(pieces_of(runs.open), avail, opts);
    lemma_words_of_lines_add(runs.lines, more);
    lemma_filled_words(pieces_of(runs.open), avail, opts);
    lemma_pieces_words(runs.open);
}

} // verus!
