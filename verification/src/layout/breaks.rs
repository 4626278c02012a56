//! Where lines break, and how words are broken.
use vstd::prelude::*;

use crate::layout::cluster::clusters_text;
use crate::layout::cluster::cluster_texts;
use crate::layout::cluster::no_end_chars;
use crate::layout::cluster::no_start_chars;
use crate::layout::cluster::width_of;
use crate::layout::cluster::ClusterModel;
use crate::layout::wrap::cut;
use crate::layout::wrap::hyphen_head;
use crate::layout::wrap::hyphen_split;
use crate::layout::wrap::hyphenatable;
use crate::layout::wrap::hyphenation_points_of;
use crate::layout::wrap::lemma_best_split;
use crate::layout::wrap::may_break;
use crate::layout::wrap::pieces_of;
use crate::layout::wrap::split_fits;
use crate::layout::wrap::PieceModel;

verus! {

/// A break after a piece and before a cluster is one that is allowed.
pub open spec fn breaks_before(piece: PieceModel, next: ClusterModel) -> bool {
    piece.clusters.len() > 0 && may_break(piece.clusters.last(), next, piece.clusters.len() == 1)
}

/// The pieces so far break where they may; `next` is the cluster that comes
/// after them.
spec fn breaks_well(pieces: Seq<PieceModel>, next: Option<ClusterModel>) -> bool {
    &&& forall|i: int| 0 <= i < pieces.len() ==> (#[trigger] pieces[i]).clusters.len() > 0
    &&& forall|i: int|
        0 <= i < pieces.len() - 1 && (#[trigger] pieces[i]).sep is Break ==> breaks_before(
            pieces[i],
            pieces[i + 1].clusters.first(),
        )
    &&& pieces.len() > 0 && pieces.last().sep is Break ==> next is Some && breaks_before(
        pieces.last(),
        next->0,
    )
}

/// The cluster that follows the pieces after `n` clusters.
spec fn upcoming(clusters: Seq<ClusterModel>, n: int) -> Option<ClusterModel> {
    let state = cut(clusters, n);
    if state.open.len() > 0 {
        Some(state.open.first())
    } else if n < clusters.len() && !clusters[n].is_space {
        Some(clusters[n])
    } else {
        None
    }
}

proof fn lemma_cut_breaks(clusters: Seq<ClusterModel>, n: int)
    requires
        0 <= n <= clusters.len(),
    ensures
        breaks_well(cut(clusters, n).pieces, upcoming(clusters, n)),
    decreases n,
{
    if n > 0 {
        lemma_cut_breaks(clusters, n - 1);
        let before = cut(clusters, n - 1);
        let after = cut(clusters, n);
        let c = clusters[n - 1];
        let m = before.pieces.len() as int;
        if after.pieces.len() > m {
            assert(after.pieces[m].clusters.first() == upcoming(clusters, n - 1)->0);
            assert forall|i: int|
                0 <= i < after.pieces.len() - 1 && (
                #[trigger] after.pieces[i]).sep is Break implies breaks_before(
                after.pieces[i],
                after.pieces[i + 1].clusters.first(),
            ) by {
                assert(after.pieces[i] == before.pieces[i]);
                if i < m - 1 {
                    assert(after.pieces[i + 1] == before.pieces[i + 1]);
                }
            }
        }
    }
}

/// A line breaks at a space, or where a break is allowed: after a hyphen that
/// does not open its word, or beside a character of a script that wraps
/// anywhere.
pub proof fn lines_break_where_they_may(clusters: Seq<ClusterModel>, i: int)
    requires
        0 <= i < pieces_of(clusters).len() - 1,
    ensures
        pieces_of(clusters)[i].sep is Space || breaks_before(
            pieces_of(clusters)[i],
            pieces_of(clusters)[i + 1].clusters.first(),
        ),
{
    let n = clusters.len() as int;
    lemma_cut_breaks(clusters, n);
    lemma_cut_seps(clusters, n);
    let end = cut(clusters, n);
    let pieces = pieces_of(clusters);
    assert(pieces[i] == end.pieces[i]);
    if i + 1 < end.pieces.len() {
        assert(pieces[i + 1] == end.pieces[i + 1]);
    }
}

proof fn lemma_cut_seps(clusters: Seq<ClusterModel>, n: int)
    requires
        0 <= n <= clusters.len(),
    ensures
        forall|i: int| 0 <= i < cut(clusters, n).pieces.len() ==> !(
        #[trigger] cut(clusters, n).pieces[i].sep is End),
    decreases n,
{
    if n > 0 {
        lemma_cut_seps(clusters, n - 1);
        let before = cut(clusters, n - 1).pieces;
        let after = cut(clusters, n).pieces;
        assert forall|i: int| 0 <= i < after.len() implies !(#[trigger] after[i].sep is End) by {
            if i < before.len() {
                assert(after[i] == before[i]);
            }
        }
    }
}

/// No break without a space puts a character first on a line that may not
/// start one, or last on a line that may not end one; a break after a hyphen
/// alone goes before anything.
pub proof fn breaks_keep_the_prohibitions(clusters: Seq<ClusterModel>, i: int)
    requires
        0 <= i < pieces_of(clusters).len() - 1,
        !(pieces_of(clusters)[i].sep is Space),
    ensures
        ({
            let last = pieces_of(clusters)[i].clusters.last();
            let next = pieces_of(clusters)[i + 1].clusters.first();
            ||| last.last_char == '-' || last.last_char == '\u{2010}'
            ||| !no_start_chars().contains(next.first_char) && !no_end_chars().contains(
                last.last_char,
            )
        }),
{
    lines_break_where_they_may(clusters, i);
}

proof fn lemma_text_add(a: Seq<ClusterModel>, b: Seq<ClusterModel>)
    ensures
        clusters_text(a + b) == clusters_text(a) + clusters_text(b),
    decreases b.len(),
{
    if b.len() == 0 {
        assert(a + b =~= a);
        assert(clusters_text(a) + clusters_text(b) =~= clusters_text(a));
    } else {
        assert((a + b).drop_last() =~= a + b.drop_last());
        lemma_text_add(a, b.drop_last());
        assert(cluster_texts(a + b).drop_last() =~= cluster_texts(a + b.drop_last()));
        assert(cluster_texts(b).drop_last() =~= cluster_texts(b.drop_last()));
        assert(clusters_text(a + b) =~= clusters_text(a) + clusters_text(b));
    }
}

/// A word that is broken is one of ASCII letters, its head with the hyphen
/// fits the room, and head and rest without the hyphen are the word.
pub proof fn a_broken_word_reads_back(clusters: Seq<ClusterModel>, remaining: nat)
    requires
        hyphen_split(clusters, remaining) > 0,
    ensures
        hyphenatable(clusters),
        ({
            let split = hyphen_split(clusters, remaining);
            let head = hyphen_head(clusters, split);
            &&& head.last().text == seq!['-']
            &&& clusters_text(head.drop_last()) + clusters_text(clusters.skip(split))
                == clusters_text(clusters)
            &&& width_of(head.drop_last()) + 1 <= remaining
            &&& head.len() > 1
            &&& clusters.skip(split).len() > 0
        }),
{
    let split = hyphen_split(clusters, remaining);
    lemma_best_split(clusters, hyphenation_points_of(clusters), remaining);
    assert(split_fits(clusters, split, remaining));
    let head = hyphen_head(clusters, split);
    assert(head.drop_last() =~= clusters.take(split));
    lemma_text_add(clusters.take(split), clusters.skip(split));
    assert(clusters.take(split) + clusters.skip(split) =~= clusters);
}

} // verus!
