//! What the rows of a block show: its text, all of it, in order.
use vstd::prelude::*;

use crate::doc::Span;
use crate::layout::cluster::ClusterModel;
use crate::layout::cluster::cluster_model;
use crate::layout::cluster::cluster_texts;
use crate::layout::cluster::clusters_in;
use crate::layout::cluster::clusters_text;
use crate::layout::cluster::space_model;
use crate::layout::emit::Row;
use crate::layout::emit::Shape;
use crate::layout::emit::blank_rows;
use crate::layout::emit::line_gap;
use crate::layout::emit::own_row;
use crate::layout::emit::prefix_fits;
use crate::layout::emit::spaced_rows;
use crate::layout::emit::wrap_width;
use crate::layout::emit::wrapped_rows;
use crate::layout::fill::Chunks;
use crate::layout::fill::Packed;
use crate::layout::fill::at_least_one;
use crate::layout::fill::chunked;
use crate::layout::fill::closed_lines;
use crate::layout::fill::filled;
use crate::layout::fill::packed;
use crate::layout::fill::placed;
use crate::layout::fill::room;
use crate::layout::fill::settled_chunks;
use crate::layout::justify_rows::lemma_wrapped;
use crate::layout::justify_rows::ragged;
use crate::layout::justify_rows::same_cluster;
use crate::layout::justify_rows::same_clusters;
use crate::layout::justify_rows::same_lines;
use crate::layout::line::coalesced;
use crate::layout::line::final_line;
use crate::layout::line::flattened;
use crate::layout::line::kind_of;
use crate::layout::line::pad_spans;
use crate::layout::line::runs_of;
use crate::layout::line::span_display;
use crate::layout::line::wrapped;
use crate::layout::marker_laws::lemma_line_text_add;
use crate::layout::marker_laws::lemma_pad_text;
use crate::layout::measure::clusters_make_up_the_string;
use crate::layout::measure::grapheme_clusters;
use crate::layout::types::KindModel;
use crate::layout::types::SpanModel;
use crate::layout::types::line_text;
use crate::layout::types::line_texts;
use crate::layout::wrap::PieceModel;
use crate::layout::wrap::WrapOpts;
use crate::layout::wrap::cut;
use crate::layout::wrap::hyphen_head;
use crate::layout::wrap::hyphen_split;
use crate::layout::wrap::hyphenation_points_of;
use crate::layout::wrap::lemma_best_split;
use crate::layout::wrap::pieces_of;
use crate::text::all_whitespace;
use crate::text::spaces;
use crate::text::whitespace;

verus! {

/// What can be seen of a text: its characters but whitespace, and but those
/// that are not looked at.
pub open spec fn ink(s: Seq<char>, but: Seq<char>) -> Seq<char>
    decreases s.len(),
{
    if s.len() == 0 {
        Seq::empty()
    } else if whitespace(s.last()) || but.contains(s.last()) {
        ink(s.drop_last(), but)
    } else {
        ink(s.drop_last(), but).push(s.last())
    }
}

/// What can be seen of rows, one after the other.
pub open spec fn row_ink(rows: Seq<Row>, but: Seq<char>) -> Seq<char>
    decreases rows.len(),
{
    if rows.len() == 0 {
        Seq::empty()
    } else {
        row_ink(rows.drop_last(), but) + ink(line_text(rows.last().line), but)
    }
}

/// The text that inline runs display.
pub open spec fn displayed(spans: Seq<Span>) -> Seq<char>
    decreases spans.len(),
{
    if spans.len() == 0 {
        Seq::empty()
    } else {
        displayed(spans.drop_last()) + span_display(spans.last())
    }
}

pub proof fn lemma_ink_add(a: Seq<char>, b: Seq<char>, but: Seq<char>)
    ensures
        ink(a + b, but) == ink(a, but) + ink(b, but),
    decreases b.len(),
{
    if b.len() == 0 {
        assert(a + b =~= a);
        assert(ink(a, but) + ink(b, but) =~= ink(a, but));
    } else {
        assert((a + b).drop_last() =~= a + b.drop_last());
        lemma_ink_add(a, b.drop_last(), but);
        assert(ink(a + b, but) =~= ink(a, but) + ink(b, but));
    }
}

/// Nothing can be seen of whitespace.
pub proof fn lemma_ink_blank(s: Seq<char>, but: Seq<char>)
    requires
        forall|i: int| 0 <= i < s.len() ==> whitespace(#[trigger] s[i]) || but.contains(s[i]),
    ensures
        ink(s, but) == Seq::<char>::empty(),
    decreases s.len(),
{
    if s.len() > 0 {
        let front = s.drop_last();
        assert forall|i: int| 0 <= i < front.len() implies whitespace(#[trigger] front[i])
            || but.contains(front[i]) by {
            assert(front[i] == s[i]);
        }
        assert(whitespace(s[s.len() - 1]) || but.contains(s[s.len() - 1]));
        lemma_ink_blank(front, but);
    }
}

pub proof fn lemma_ink_spaces(n: nat, but: Seq<char>)
    ensures
        ink(spaces(n), but) == Seq::<char>::empty(),
{
    assert(whitespace(' '));
    lemma_ink_blank(spaces(n), but);
}

/// What can be seen of clusters.
pub open spec fn cluster_ink(cs: Seq<ClusterModel>, but: Seq<char>) -> Seq<char>
    decreases cs.len(),
{
    if cs.len() == 0 {
        Seq::empty()
    } else {
        cluster_ink(cs.drop_last(), but) + ink(cs.last().text, but)
    }
}

/// What can be seen of lines of clusters.
pub open spec fn lines_ink(lines: Seq<Seq<ClusterModel>>, but: Seq<char>) -> Seq<char>
    decreases lines.len(),
{
    if lines.len() == 0 {
        Seq::empty()
    } else {
        lines_ink(lines.drop_last(), but) + cluster_ink(lines.last(), but)
    }
}

pub proof fn lemma_cluster_ink_add(a: Seq<ClusterModel>, b: Seq<ClusterModel>, but: Seq<char>)
    ensures
        cluster_ink(a + b, but) == cluster_ink(a, but) + cluster_ink(b, but),
    decreases b.len(),
{
    if b.len() == 0 {
        assert(a + b =~= a);
        assert(cluster_ink(a, but) + cluster_ink(b, but) =~= cluster_ink(a, but));
    } else {
        assert((a + b).drop_last() =~= a + b.drop_last());
        lemma_cluster_ink_add(a, b.drop_last(), but);
        assert(cluster_ink(a + b, but) =~= cluster_ink(a, but) + cluster_ink(b, but));
    }
}

proof fn lemma_cluster_ink_push(a: Seq<ClusterModel>, c: ClusterModel, but: Seq<char>)
    ensures
        cluster_ink(a.push(c), but) == cluster_ink(a, but) + ink(c.text, but),
{
    assert(a.push(c).drop_last() =~= a);
}

pub proof fn lemma_lines_ink_push(
    lines: Seq<Seq<ClusterModel>>,
    l: Seq<ClusterModel>,
    but: Seq<char>,
)
    ensures
        lines_ink(lines.push(l), but) == lines_ink(lines, but) + cluster_ink(l, but),
{
    assert(lines.push(l).drop_last() =~= lines);
}

proof fn lemma_lines_ink_add(
    a: Seq<Seq<ClusterModel>>,
    b: Seq<Seq<ClusterModel>>,
    but: Seq<char>,
)
    ensures
        lines_ink(a + b, but) == lines_ink(a, but) + lines_ink(b, but),
    decreases b.len(),
{
    if b.len() == 0 {
        assert(a + b =~= a);
        assert(lines_ink(a, but) + lines_ink(b, but) =~= lines_ink(a, but));
    } else {
        assert((a + b).drop_last() =~= a + b.drop_last());
        lemma_lines_ink_add(a, b.drop_last(), but);
        assert(lines_ink(a + b, but) =~= lines_ink(a, but) + lines_ink(b, but));
    }
}

/// What can be seen of clusters is what can be seen of their text.
pub proof fn lemma_text_ink(cs: Seq<ClusterModel>, but: Seq<char>)
    ensures
        cluster_ink(cs, but) == ink(clusters_text(cs), but),
    decreases cs.len(),
{
    if cs.len() > 0 {
        let front = cs.drop_last();
        lemma_text_ink(front, but);
        assert(cluster_texts(cs).drop_last() =~= cluster_texts(front));
        lemma_ink_add(clusters_text(front), cs.last().text, but);
    }
}

spec fn held_ink(c: Chunks, but: Seq<char>) -> Seq<char> {
    lines_ink(c.lines, but) + cluster_ink(c.cur, but)
}

proof fn lemma_chunked_ink(start: Chunks, clusters: Seq<ClusterModel>, avail: nat, but: Seq<char>)
    ensures
        held_ink(chunked(start, clusters, avail), but) == held_ink(start, but) + cluster_ink(
            clusters,
            but,
        ),
    decreases clusters.len(),
{
    if clusters.len() == 0 {
        assert(held_ink(start, but) + cluster_ink(clusters, but) =~= held_ink(start, but));
    } else {
        let front = clusters.drop_last();
        lemma_chunked_ink(start, front, avail, but);
        let before = chunked(start, front, avail);
        let c = clusters.last();
        lemma_lines_ink_push(before.lines, before.cur, but);
        lemma_cluster_ink_push(before.cur, c, but);
        lemma_cluster_ink_push(Seq::empty(), c, but);
        assert(Seq::<ClusterModel>::empty().push(c) =~= seq![c]);
        let after = chunked(start, clusters, avail);
        assert(held_ink(after, but) =~= held_ink(before, but) + ink(c.text, but));
        assert(held_ink(start, but) + cluster_ink(clusters, but) =~= held_ink(start, but)
            + cluster_ink(front, but) + ink(c.text, but));
    }
}

/// Lines that are cut at the column alone show the text.
pub proof fn lemma_chunks_ink(clusters: Seq<ClusterModel>, avail: nat, but: Seq<char>)
    ensures
        lines_ink(crate::layout::fill::chunks_of(clusters, avail), but) == cluster_ink(
            clusters,
            but,
        ),
{
    let start = Chunks { lines: Seq::empty(), cur: Seq::empty() };
    lemma_chunked_ink(start, clusters, at_least_one(avail), but);
    let end = chunked(start, clusters, at_least_one(avail));
    lemma_lines_ink_push(end.lines, end.cur, but);
    assert(held_ink(start, but) =~= Seq::empty());
    assert(held_ink(start, but) + cluster_ink(clusters, but) =~= cluster_ink(clusters, but));
    assert(lines_ink(closed_lines(end), but) =~= held_ink(end, but));
}

proof fn lemma_settled_ink(
    p: Packed,
    clusters: Seq<ClusterModel>,
    avail: nat,
    space_w: nat,
    but: Seq<char>,
)
    ensures
        held_ink(settled_chunks(p, clusters, avail, space_w), but) == held_ink(p.chunks, but)
            + cluster_ink(clusters, but),
{
    let cur = match p.gap {
        Some(kind) if p.chunks.cur.len() > 0 => p.chunks.cur.push(space_model(kind, space_w)),
        _ => p.chunks.cur,
    };
    if let Some(kind) = p.gap {
        let gap = space_model(kind, space_w);
        lemma_cluster_ink_push(p.chunks.cur, gap, but);
        lemma_ink_spaces(gap.width, but);
        assert(cluster_ink(p.chunks.cur, but) + ink(gap.text, but) =~= cluster_ink(
            p.chunks.cur,
            but,
        ));
    }
    lemma_cluster_ink_add(cur, clusters, but);
    lemma_chunked_ink(Chunks { lines: p.chunks.lines, cur }, clusters, avail, but);
    assert(held_ink(settled_chunks(p, clusters, avail, space_w), but) =~= held_ink(p.chunks, but)
        + cluster_ink(clusters, but));
}

spec fn pieces_ink(pieces: Seq<PieceModel>, but: Seq<char>) -> Seq<char>
    decreases pieces.len(),
{
    if pieces.len() == 0 {
        Seq::empty()
    } else {
        pieces_ink(pieces.drop_last(), but) + cluster_ink(pieces.last().clusters, but)
    }
}

#[verifier::spinoff_prover]
#[verifier::rlimit(40)]
proof fn lemma_placed_ink(p: Packed, piece: PieceModel, avail: nat, opts: WrapOpts, but: Seq<char>)
    requires
        opts.hyphenate ==> but.contains('-'),
    ensures
        held_ink(placed(p, piece, avail, opts).chunks, but) == held_ink(p.chunks, but)
            + cluster_ink(piece.clusters, but),
{
    let space_w = 1 + opts.word_spacing as nat;
    let split = if opts.hyphenate {
        hyphen_split(piece.clusters, room(p, avail, space_w))
    } else {
        0
    };
    let next = Chunks { lines: p.chunks.lines.push(p.chunks.cur), cur: Seq::empty() };
    lemma_lines_ink_push(p.chunks.lines, p.chunks.cur, but);
    assert(held_ink(next, but) =~= held_ink(p.chunks, but));
    lemma_settled_ink(Packed { chunks: next, gap: None }, piece.clusters, avail, space_w, but);
    lemma_settled_ink(p, piece.clusters, avail, space_w, but);
    if split > 0 {
        let remaining = room(p, avail, space_w);
        lemma_best_split(piece.clusters, hyphenation_points_of(piece.clusters), remaining);
        let cur = match p.gap {
            Some(kind) => p.chunks.cur.push(space_model(kind, space_w)),
            None => p.chunks.cur,
        };
        if let Some(kind) = p.gap {
            let gap = space_model(kind, space_w);
            lemma_cluster_ink_push(p.chunks.cur, gap, but);
            lemma_ink_spaces(gap.width, but);
        }
        assert(cluster_ink(cur, but) =~= cluster_ink(p.chunks.cur, but));
        let head = hyphen_head(piece.clusters, split);
        let front = piece.clusters.take(split);
        let hyphen = cluster_model(seq!['-'], piece.clusters[split - 1].kind, false);
        lemma_cluster_ink_push(front, hyphen, but);
        assert(but.contains(seq!['-'][0]));
        lemma_ink_blank(seq!['-'], but);
        assert(cluster_ink(head, but) =~= cluster_ink(front, but));
        let line = cur + head;
        lemma_cluster_ink_add(cur, head, but);
        lemma_lines_ink_push(p.chunks.lines, line, but);
        let back = piece.clusters.skip(split);
        assert(piece.clusters =~= front + back);
        lemma_cluster_ink_add(front, back, but);
        let broken = Chunks { lines: p.chunks.lines.push(line), cur: Seq::empty() };
        assert(held_ink(broken, but) =~= held_ink(p.chunks, but) + cluster_ink(front, but));
        lemma_settled_ink(Packed { chunks: broken, gap: None }, back, avail, space_w, but);
        assert(held_ink(p.chunks, but) + cluster_ink(piece.clusters, but) =~= held_ink(
            p.chunks,
            but,
        ) + cluster_ink(front, but) + cluster_ink(back, but));
    }
}

proof fn lemma_packed_ink(pieces: Seq<PieceModel>, avail: nat, opts: WrapOpts, but: Seq<char>)
    requires
        opts.hyphenate ==> but.contains('-'),
    ensures
        held_ink(packed(pieces, avail, opts).chunks, but) == pieces_ink(pieces, but),
    decreases pieces.len(),
{
    if pieces.len() == 0 {
        assert(held_ink(packed(pieces, avail, opts).chunks, but) =~= Seq::empty());
    } else {
        lemma_packed_ink(pieces.drop_last(), avail, opts, but);
        let p = packed(pieces.drop_last(), avail, opts);
        lemma_placed_ink(p, pieces.last(), avail, opts, but);
    }
}

proof fn lemma_filled_ink(pieces: Seq<PieceModel>, avail: nat, opts: WrapOpts, but: Seq<char>)
    requires
        opts.hyphenate ==> but.contains('-'),
        !opts.justify,
    ensures
        lines_ink(filled(pieces, avail, opts), but) == pieces_ink(pieces, but),
{
    let width = at_least_one(avail);
    lemma_packed_ink(pieces, width, opts, but);
    let chunks = packed(pieces, width, opts).chunks;
    lemma_lines_ink_push(chunks.lines, chunks.cur, but);
    assert(lines_ink(closed_lines(chunks), but) =~= held_ink(chunks, but));
}

/// Gaps and breaks are whitespace.
pub open spec fn fair(cs: Seq<ClusterModel>) -> bool {
    forall|i: int| 0 <= i < cs.len() ==> fair_one(#[trigger] cs[i])
}

/// A gap or a break is whitespace.
pub open spec fn fair_one(c: ClusterModel) -> bool {
    c.is_space || c.is_newline ==> all_whitespace(c.text)
}

proof fn lemma_cut_ink(clusters: Seq<ClusterModel>, n: int, but: Seq<char>)
    requires
        0 <= n <= clusters.len(),
        fair(clusters),
    ensures
        pieces_ink(cut(clusters, n).pieces, but) + cluster_ink(cut(clusters, n).open, but)
            == cluster_ink(clusters.take(n), but),
    decreases n,
{
    if n == 0 {
        assert(clusters.take(0) =~= Seq::empty());
        assert(pieces_ink(cut(clusters, 0).pieces, but) + cluster_ink(cut(clusters, 0).open, but)
            =~= Seq::empty());
    } else {
        lemma_cut_ink(clusters, n - 1, but);
        assert(clusters.take(n).drop_last() =~= clusters.take(n - 1));
        let before = cut(clusters, n - 1);
        let after = cut(clusters, n);
        let c = clusters[n - 1];
        lemma_cluster_ink_push(before.open, c, but);
        assert(fair_one(c));
        if c.is_space {
            lemma_ink_blank(c.text, but);
        }
        if after.pieces.len() > before.pieces.len() {
            assert(after.pieces.drop_last() =~= before.pieces);
        }
        assert(pieces_ink(after.pieces, but) + cluster_ink(after.open, but) =~= cluster_ink(
            clusters.take(n),
            but,
        ));
    }
}

proof fn lemma_pieces_ink(clusters: Seq<ClusterModel>, but: Seq<char>)
    requires
        fair(clusters),
    ensures
        pieces_ink(pieces_of(clusters), but) == cluster_ink(clusters, but),
{
    let n = clusters.len() as int;
    lemma_cut_ink(clusters, n, but);
    assert(clusters.take(n) =~= clusters);
    let end = cut(clusters, n);
    if end.open.len() > 0 {
        assert(pieces_of(clusters).drop_last() =~= end.pieces);
    }
    assert(pieces_ink(pieces_of(clusters), but) =~= cluster_ink(clusters, but));
}

proof fn lemma_runs_ink(clusters: Seq<ClusterModel>, avail: nat, opts: WrapOpts, but: Seq<char>)
    requires
        opts.hyphenate ==> but.contains('-'),
        !opts.justify,
        fair(clusters),
    ensures
        fair(runs_of(clusters, avail, opts).open),
        lines_ink(runs_of(clusters, avail, opts).lines, but) + cluster_ink(
            runs_of(clusters, avail, opts).open,
            but,
        ) == cluster_ink(clusters, but),
    decreases clusters.len(),
{
    let after = runs_of(clusters, avail, opts);
    if clusters.len() > 0 {
        let front = clusters.drop_last();
        assert(fair(front)) by {
            assert forall|i: int| 0 <= i < front.len() implies fair_one(#[trigger] front[i]) by {
                assert(front[i] == clusters[i]);
            }
        }
        lemma_runs_ink(front, avail, opts, but);
        let before = runs_of(front, avail, opts);
        let c = clusters[clusters.len() - 1];
        assert(fair_one(c));
        if c.is_newline {
            let more = filled(pieces_of(before.open), avail, opts);
            lemma_lines_ink_add(before.lines, more, but);
            lemma_filled_ink(pieces_of(before.open), avail, opts, but);
            lemma_pieces_ink(before.open, but);
            lemma_ink_blank(c.text, but);
        } else {
            lemma_cluster_ink_push(before.open, c, but);
        }
    }
    assert(lines_ink(after.lines, but) + cluster_ink(after.open, but) =~= cluster_ink(
        clusters,
        but,
    ));
}

proof fn lemma_same_cluster_ink(a: Seq<ClusterModel>, b: Seq<ClusterModel>, but: Seq<char>)
    requires
        same_clusters(a, b),
    ensures
        cluster_ink(a, but) == cluster_ink(b, but),
    decreases a.len(),
{
    if a.len() > 0 {
        let (fa, fb) = (a.drop_last(), b.drop_last());
        assert forall|i: int| 0 <= i < fa.len() implies same_cluster(#[trigger] fa[i], fb[i]) by {
            assert(fa[i] == a[i]);
        }
        lemma_same_cluster_ink(fa, fb, but);
        let (ca, cb) = (a[a.len() - 1], b[b.len() - 1]);
        assert(same_cluster(ca, cb));
        if ca.text != cb.text {
            lemma_ink_blank(ca.text, but);
            lemma_ink_blank(cb.text, but);
        }
    }
}

proof fn lemma_same_lines_ink(
    a: Seq<Seq<ClusterModel>>,
    b: Seq<Seq<ClusterModel>>,
    but: Seq<char>,
)
    requires
        same_lines(a, b),
    ensures
        lines_ink(a, but) == lines_ink(b, but),
    decreases a.len(),
{
    if a.len() > 0 {
        let (fa, fb) = (a.drop_last(), b.drop_last());
        assert forall|i: int| 0 <= i < fa.len() implies same_clusters(#[trigger] fa[i], fb[i]) by {
            assert(fa[i] == a[i]);
        }
        lemma_same_lines_ink(fa, fb, but);
        assert(same_clusters(a[a.len() - 1], b[b.len() - 1]));
        lemma_same_cluster_ink(a.last(), b.last(), but);
    }
}

/// Wrapping shows the whole text and nothing else, but for whitespace and, in
/// broken words, hyphens.
pub proof fn lemma_wrapped_ink(
    clusters: Seq<ClusterModel>,
    avail: nat,
    opts: WrapOpts,
    but: Seq<char>,
)
    requires
        opts.hyphenate ==> but.contains('-'),
        fair(clusters),
    ensures
        lines_ink(wrapped(clusters, avail, opts), but) == cluster_ink(clusters, but),
{
    let plain = ragged(opts);
    lemma_wrapped(clusters, avail, opts);
    lemma_same_lines_ink(wrapped(clusters, avail, opts), wrapped(clusters, avail, plain), but);
    lemma_runs_ink(clusters, avail, plain, but);
    let runs = runs_of(clusters, avail, plain);
    let more = filled(pieces_of(runs.open), avail, plain);
    lemma_lines_ink_add(runs.lines, more, but);
    lemma_filled_ink(pieces_of(runs.open), avail, plain, but);
    lemma_pieces_ink(runs.open, but);
}

/// The clusters of a string are fair and show it.
pub proof fn lemma_string_ink(s: Seq<char>, kind: KindModel, ambiguous_wide: bool, but: Seq<char>)
    ensures
        fair(clusters_in(s, kind, ambiguous_wide)),
        cluster_ink(clusters_in(s, kind, ambiguous_wide), but) == ink(s, but),
{
    let cs = clusters_in(s, kind, ambiguous_wide);
    let gs = grapheme_clusters(s);
    assert(whitespace('\n'));
    assert forall|i: int| 0 <= i < cs.len() implies fair_one(#[trigger] cs[i]) by {
        assert(cs[i] == cluster_model(gs[i], kind, ambiguous_wide));
    }
    lemma_text_ink(cs, but);
    assert(cluster_texts(cs) =~= gs);
    clusters_make_up_the_string(s);
}

/// The clusters of inline runs are fair and show what the runs display.
pub proof fn lemma_spans_ink(
    spans: Seq<Span>,
    plain: KindModel,
    links: nat,
    ambiguous_wide: bool,
    but: Seq<char>,
)
    ensures
        fair(flattened(spans, plain, links, ambiguous_wide)),
        cluster_ink(flattened(spans, plain, links, ambiguous_wide), but) == ink(
            displayed(spans),
            but,
        ),
    decreases spans.len(),
{
    if spans.len() > 0 {
        let front = spans.drop_last();
        lemma_spans_ink(front, plain, links, ambiguous_wide, but);
        let a = flattened(front, plain, links, ambiguous_wide);
        let kind = kind_of(
            spans.last().style,
            plain,
            links + crate::doc::link_count(front),
        );
        let text = span_display(spans.last());
        let b = clusters_in(text, kind, ambiguous_wide);
        lemma_string_ink(text, kind, ambiguous_wide, but);
        lemma_cluster_ink_add(a, b, but);
        lemma_ink_add(displayed(front), text, but);
        let all = a + b;
        assert forall|i: int| 0 <= i < all.len() implies fair_one(#[trigger] all[i]) by {
            if i < a.len() {
                assert(all[i] == a[i]);
            } else {
                assert(all[i] == b[i - a.len()]);
            }
        }
    }
}

/// Joined clusters keep their text.
pub proof fn lemma_coalesced_line(content: Seq<ClusterModel>)
    ensures
        line_text(coalesced(content)) == clusters_text(content),
    decreases content.len(),
{
    if content.len() > 0 {
        let front = content.drop_last();
        lemma_coalesced_line(front);
        let before = coalesced(front);
        let c = content.last();
        let out = coalesced(content);
        assert(cluster_texts(content).drop_last() =~= cluster_texts(front));
        assert(line_texts(out).drop_last() =~= line_texts(out.drop_last()));
        if before.len() > 0 && before.last().kind == c.kind {
            assert(out.drop_last() =~= before.drop_last());
            assert(line_texts(before).drop_last() =~= line_texts(before.drop_last()));
            assert(line_text(out) =~= line_text(before.drop_last()) + (before.last().text
                + c.text));
        } else {
            assert(out.drop_last() =~= before);
        }
        assert(line_text(out) =~= clusters_text(content));
    }
}

/// A row shows its prefix and its content.
pub proof fn lemma_final_ink(
    pad: nat,
    prefix: Seq<SpanModel>,
    content: Seq<ClusterModel>,
    but: Seq<char>,
)
    ensures
        ink(line_text(final_line(pad, prefix, content)), but) == ink(line_text(prefix), but)
            + cluster_ink(content, but),
{
    let front = pad_spans(pad) + prefix;
    lemma_line_text_add(front, coalesced(content));
    lemma_line_text_add(pad_spans(pad), prefix);
    lemma_pad_text(pad);
    lemma_ink_spaces(pad, but);
    lemma_coalesced_line(content);
    lemma_text_ink(content, but);
    lemma_ink_add(line_text(front), clusters_text(content), but);
    lemma_ink_add(spaces(pad), line_text(prefix), but);
    assert(ink(line_text(final_line(pad, prefix, content)), but) =~= ink(line_text(prefix), but)
        + cluster_ink(content, but));
}

pub proof fn lemma_row_ink_add(a: Seq<Row>, b: Seq<Row>, but: Seq<char>)
    ensures
        row_ink(a + b, but) == row_ink(a, but) + row_ink(b, but),
    decreases b.len(),
{
    if b.len() == 0 {
        assert(a + b =~= a);
        assert(row_ink(a, but) + row_ink(b, but) =~= row_ink(a, but));
    } else {
        assert((a + b).drop_last() =~= a + b.drop_last());
        lemma_row_ink_add(a, b.drop_last(), but);
        assert(row_ink(a + b, but) =~= row_ink(a, but) + row_ink(b, but));
    }
}

pub proof fn lemma_blank_ink(shape: Shape, n: nat, but: Seq<char>)
    ensures
        row_ink(blank_rows(shape, n), but) == Seq::<char>::empty(),
    decreases n,
{
    if n > 0 {
        let rows = blank_rows(shape, n);
        lemma_blank_ink(shape, (n - 1) as nat, but);
        assert(rows.drop_last() =~= blank_rows(shape, (n - 1) as nat));
        lemma_final_ink(shape.pad_width as nat, Seq::empty(), Seq::empty(), but);
        assert(line_text(Seq::<SpanModel>::empty()) =~= Seq::empty());
        assert(row_ink(rows, but) =~= Seq::empty());
    }
}

proof fn lemma_spaced_ink(
    shape: Shape,
    lines: Seq<Seq<ClusterModel>>,
    first: Seq<SpanModel>,
    rest: Seq<SpanModel>,
    n: int,
    but: Seq<char>,
)
    requires
        1 <= n <= lines.len(),
        ink(line_text(rest), but) == Seq::<char>::empty(),
    ensures
        row_ink(spaced_rows(shape, lines, first, rest, n), but) == ink(line_text(first), but)
            + lines_ink(lines.take(n), but),
    decreases n,
{
    let prefix = if n == 1 {
        first
    } else {
        rest
    };
    let row = Row {
        line: final_line(shape.pad_width as nat, prefix, lines[n - 1]),
        cont: n > 1,
    };
    let before = spaced_rows(shape, lines, first, rest, n - 1);
    let rows = before.push(row);
    assert(rows.drop_last() =~= before);
    lemma_row_ink_add(rows, line_gap(shape), but);
    lemma_blank_ink(shape, shape.line_spacing as nat, but);
    lemma_final_ink(shape.pad_width as nat, prefix, lines[n - 1], but);
    assert(lines.take(n).drop_last() =~= lines.take(n - 1));
    if n > 1 {
        lemma_spaced_ink(shape, lines, first, rest, n - 1, but);
    } else {
        assert(before =~= Seq::empty());
        assert(lines.take(0) =~= Seq::empty());
    }
    let all = spaced_rows(shape, lines, first, rest, n);
    assert(all == rows + line_gap(shape));
    assert(row_ink(all, but) =~= row_ink(rows, but));
    assert(row_ink(rows, but) == row_ink(before, but) + ink(line_text(row.line), but));
    assert(lines_ink(lines.take(n), but) == lines_ink(lines.take(n - 1), but) + cluster_ink(
        lines[n - 1],
        but,
    ));
    assert(row_ink(rows, but) =~= ink(line_text(first), but) + lines_ink(lines.take(n), but));
}

/// Wrapped content shows its prefix, where that fits, and all of its text.
pub proof fn lemma_rows_ink(
    shape: Shape,
    content: Seq<ClusterModel>,
    first: Seq<SpanModel>,
    rest: Seq<SpanModel>,
    opts: WrapOpts,
    but: Seq<char>,
)
    requires
        opts.hyphenate ==> but.contains('-'),
        fair(content),
        ink(line_text(rest), but) == Seq::<char>::empty(),
    ensures
        row_ink(wrapped_rows(shape, content, first, rest, opts), but) == (if prefix_fits(
            shape,
            first,
            content,
        ) {
            ink(line_text(first), but)
        } else {
            Seq::empty()
        }) + cluster_ink(content, but),
{
    let avail = wrap_width(shape, first, content);
    let lines = wrapped(content, avail, opts);
    lemma_wrapped_ink(content, avail, opts, but);
    let none = Seq::<SpanModel>::empty();
    assert(line_text(none) =~= Seq::empty());
    let fits = prefix_fits(shape, first, content);
    let head = if fits {
        first
    } else {
        none
    };
    let tail = if fits {
        rest
    } else {
        none
    };
    if lines.len() == 0 {
        let row = own_row(final_line(shape.pad_width as nat, head, Seq::empty()));
        lemma_final_ink(shape.pad_width as nat, head, Seq::empty(), but);
        lemma_row_ink_add(seq![row], line_gap(shape), but);
        lemma_blank_ink(shape, shape.line_spacing as nat, but);
        reveal_with_fuel(row_ink, 2);
        assert(seq![row].drop_last() =~= Seq::empty());
        assert(row_ink(seq![row] + line_gap(shape), but) =~= ink(line_text(head), but)
            + cluster_ink(content, but));
    } else {
        lemma_spaced_ink(shape, lines, head, tail, lines.len() as int, but);
        assert(lines.take(lines.len() as int) =~= lines);
    }
}

} // verus!
