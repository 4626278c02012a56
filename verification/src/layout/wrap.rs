//! Filling lines: break opportunities, greedy packing, hyphenation and
//! justification.
use vstd::prelude::*;

use crate::layout::cluster::clusters_text;
use crate::layout::cluster::copy_clusters;
use crate::layout::cluster::is_no_end;
use crate::layout::cluster::is_no_start;
use crate::layout::cluster::make_cluster;
use crate::layout::cluster::no_end_chars;
use crate::layout::cluster::no_start_chars;
use crate::layout::cluster::text_of;
use crate::layout::cluster::width_of;
use crate::layout::cluster::cluster_model;
use crate::layout::cluster::Cluster;
use crate::layout::cluster::ClusterModel;
use crate::layout::measure::hyphenation_breaks;
use crate::layout::measure::hyphenation_points;
use crate::layout::types::KindModel;
use crate::layout::types::SpanKind;
use crate::text::chars_of;
use crate::text::views;

verus! {

/// What follows a piece.
#[derive(Debug)]
pub enum Sep {
    /// A collapsible run of spaces, with the kind of its first one.
    Space(SpanKind),
    /// A break of no width.
    Break,
    /// The end of the text.
    End,
}

/// What follows a piece, with the kind as a model.
#[verifier::ext_equal]
pub enum SepModel {
    Space(KindModel),
    Break,
    End,
}

impl View for Sep {
    type V = SepModel;

    open spec fn view(&self) -> SepModel {
        match *self {
            Sep::Space(kind) => SepModel::Space(kind@),
            Sep::Break => SepModel::Break,
            Sep::End => SepModel::End,
        }
    }
}

/// A run of clusters that never breaks inside, and what follows it.
#[derive(Debug)]
pub struct Piece {
    pub clusters: Vec<Cluster>,
    pub sep: Sep,
}

/// A piece, as a model.
#[verifier::ext_equal]
pub struct PieceModel {
    pub clusters: Seq<ClusterModel>,
    pub sep: SepModel,
}

impl View for Piece {
    type V = PieceModel;

    open spec fn view(&self) -> PieceModel {
        PieceModel { clusters: views(self.clusters@), sep: self.sep@ }
    }
}

/// Whether a line may break between adjacent non-space clusters: after a
/// hyphen that does not open its piece, and next to a character of a script
/// that wraps anywhere unless a prohibition stands against it.
pub open spec fn may_break(a: ClusterModel, b: ClusterModel, a_is_first: bool) -> bool {
    if (a.last_char == '-' || a.last_char == '\u{2010}') && !a_is_first {
        true
    } else if a.cjk || b.cjk {
        !no_start_chars().contains(b.first_char) && !no_end_chars().contains(a.last_char)
    } else {
        false
    }
}

/// Whether a line may break between two adjacent clusters.
pub fn breakable(a: &Cluster, b: &Cluster, a_is_piece_first: bool) -> (r: bool)
    ensures
        r == may_break(a@, b@, a_is_piece_first),
{
    if (a.last_char == '-' || a.last_char == '\u{2010}') && !a_is_piece_first {
        return true;
    }
    if a.cjk || b.cjk {
        if is_no_start(b.first_char) {
            return false;
        }
        if is_no_end(a.last_char) {
            return false;
        }
        return true;
    }
    false
}

/// The pieces cut so far, and the piece being gathered.
#[verifier::ext_equal]
pub struct Cutting {
    pub pieces: Seq<PieceModel>,
    pub open: Seq<ClusterModel>,
}

/// The state after the first `n` clusters.
pub open spec fn cut(clusters: Seq<ClusterModel>, n: int) -> Cutting
    decreases n,
{
    if n <= 0 {
        Cutting { pieces: Seq::empty(), open: Seq::empty() }
    } else {
        let before = cut(clusters, n - 1);
        let c = clusters[n - 1];
        if c.is_space {
            if before.open.len() == 0 {
                before
            } else {
                Cutting {
                    pieces: before.pieces.push(
                        PieceModel { clusters: before.open, sep: SepModel::Space(c.kind) },
                    ),
                    open: Seq::empty(),
                }
            }
        } else {
            let open = before.open.push(c);
            if n < clusters.len() && !clusters[n].is_space && may_break(
                c,
                clusters[n],
                before.open.len() == 0,
            ) {
                Cutting {
                    pieces: before.pieces.push(
                        PieceModel { clusters: open, sep: SepModel::Break },
                    ),
                    open: Seq::empty(),
                }
            } else {
                Cutting { pieces: before.pieces, open }
            }
        }
    }
}

/// The pieces of a run of clusters.
pub open spec fn pieces_of(clusters: Seq<ClusterModel>) -> Seq<PieceModel> {
    let end = cut(clusters, clusters.len() as int);
    if end.open.len() == 0 {
        end.pieces
    } else {
        end.pieces.push(PieceModel { clusters: end.open, sep: SepModel::End })
    }
}

/// The pieces of a run of clusters.
pub fn build_pieces(clusters: &Vec<Cluster>) -> (r: Vec<Piece>)
    ensures
        views(r@) == pieces_of(views(clusters@)),
{
    let mut pieces: Vec<Piece> = Vec::new();
    let mut cur: Vec<Cluster> = Vec::new();
    let n: usize = clusters.len();
    let ghost all = views(clusters@);
    for i in 0..n
        invariant
            n == clusters.len(),
            all == views(clusters@),
            views(pieces@) == cut(all, i as int).pieces,
            views(cur@) == cut(all, i as int).open,
    {
        let ghost before = cut(all, i as int);
        let ghost pre = pieces@;
        assert(all[i as int] == clusters@[i as int]@);
        if clusters[i].is_space {
            if cur.len() > 0 {
                let mut done: Vec<Cluster> = Vec::new();
                std::mem::swap(&mut done, &mut cur);
                pieces.push(Piece { clusters: done, sep: Sep::Space(clusters[i].kind.copy()) });
                proof {
                    assert(views(pieces@) =~= views(pre).push(pieces@.last()@));
                    assert(views(cur@) =~= Seq::empty());
                }
            }
        } else {
            let first = cur.len() == 0;
            let ghost precur = cur@;
            cur.push(clusters[i].copy());
            proof { assert(views(cur@) =~= views(precur).push(all[i as int])); }
            if i + 1 < n && !clusters[i + 1].is_space {
                assert(all[i + 1] == clusters@[i + 1]@);
                if breakable(&clusters[i], &clusters[i + 1], first) {
                    let mut done: Vec<Cluster> = Vec::new();
                    std::mem::swap(&mut done, &mut cur);
                    pieces.push(Piece { clusters: done, sep: Sep::Break });
                    proof {
                        assert(views(pieces@) =~= views(pre).push(pieces@.last()@));
                        assert(views(cur@) =~= Seq::empty());
                    }
                }
            }
        }
    }
    if cur.len() > 0 {
        let ghost pre = pieces@;
        pieces.push(Piece { clusters: cur, sep: Sep::End });
        proof { assert(views(pieces@) =~= views(pre).push(pieces@.last()@)); }
    }
    pieces
}

/// How a run of text is wrapped.
#[derive(Debug, Clone, Copy)]
pub struct WrapOpts {
    /// Extra cells in every gap between words.
    pub word_spacing: usize,
    pub justify: bool,
    pub hyphenate: bool,
}

impl WrapOpts {
    /// No justification and no hyphenation.
    pub fn plain(word_spacing: usize) -> (r: Self)
        ensures
            r == (WrapOpts { word_spacing, justify: false, hyphenate: false }),
    {
        WrapOpts { word_spacing, justify: false, hyphenate: false }
    }
}

/// Justification never adds more than this to one gap.
pub const RIVER_CAP_MAX_EXTRA_PER_GAP: usize = 3;

/// The shortest word, in clusters, that hyphenation breaks.
pub const MIN_HYPHEN_WORD_LEN: usize = 6;

/// An ASCII letter.
pub open spec fn ascii_letter(c: char) -> bool {
    ('a' <= c && c <= 'z') || ('A' <= c && c <= 'Z')
}

/// Whether a word may be hyphenated at all: long enough, in no script that
/// wraps anywhere, and ASCII letters throughout.
pub open spec fn hyphenatable(clusters: Seq<ClusterModel>) -> bool {
    let word = clusters_text(clusters);
    &&& clusters.len() >= MIN_HYPHEN_WORD_LEN
    &&& forall|i: int| 0 <= i < clusters.len() ==> !(#[trigger] clusters[i]).cjk
    &&& forall|i: int| 0 <= i < word.len() ==> ascii_letter(#[trigger] word[i])
}

/// Whether breaking after `off` clusters is inside the word and leaves room
/// for the hyphen.
pub open spec fn split_fits(clusters: Seq<ClusterModel>, off: int, remaining: nat) -> bool {
    0 < off < clusters.len() && width_of(clusters.take(off)) + 1 <= remaining
}

/// The largest of `points` that fits, 0 for none.
pub open spec fn best_split(
    clusters: Seq<ClusterModel>,
    points: Seq<usize>,
    remaining: nat,
) -> int
    decreases points.len(),
{
    if points.len() == 0 {
        0
    } else {
        let best = best_split(clusters, points.drop_last(), remaining);
        let off = points.last() as int;
        if split_fits(clusters, off, remaining) && off > best {
            off
        } else {
            best
        }
    }
}

/// The offsets at which a word may be broken.
pub open spec fn hyphenation_points_of(clusters: Seq<ClusterModel>) -> Seq<usize> {
    hyphenation_points(clusters_text(clusters))
}

/// Where `clusters` is broken so that its head and a hyphen fit in
/// `remaining` cells; 0 for nowhere.
pub open spec fn hyphen_split(clusters: Seq<ClusterModel>, remaining: nat) -> int {
    if hyphenatable(clusters) {
        best_split(clusters, hyphenation_points_of(clusters), remaining)
    } else {
        0
    }
}

/// The head of a broken word: its first `split` clusters and the hyphen.
pub open spec fn hyphen_head(clusters: Seq<ClusterModel>, split: int) -> Seq<ClusterModel> {
    clusters.take(split).push(cluster_model(seq!['-'], clusters[split - 1].kind, false))
}

/// A split that was found is inside the word and fits.
pub proof fn lemma_best_split(clusters: Seq<ClusterModel>, points: Seq<usize>, remaining: nat)
    ensures
        best_split(clusters, points, remaining) != 0 ==> split_fits(
            clusters,
            best_split(clusters, points, remaining),
            remaining,
        ),
        best_split(clusters, points, remaining) >= 0,
    decreases points.len(),
{
    if points.len() > 0 {
        lemma_best_split(clusters, points.drop_last(), remaining);
    }
}

fn is_ascii_word(word: &str) -> (r: bool)
    ensures
        r == (forall|i: int| 0 <= i < word@.len() ==> ascii_letter(#[trigger] word@[i])),
{
    let cs = chars_of(word);
    let n: usize = cs.len();
    for i in 0..n
        invariant
            n == cs.len(),
            cs@ == word@,
            forall|j: int| 0 <= j < i ==> ascii_letter(#[trigger] word@[j]),
    {
        let c = cs[i];
        if !(('a' <= c && c <= 'z') || ('A' <= c && c <= 'Z')) {
            assert(!ascii_letter(word@[i as int]));
            return false;
        }
    }
    true
}

fn prefix_width(clusters: &Vec<Cluster>, to: usize) -> (r: usize)
    requires
        to <= clusters.len(),
    ensures
        r as nat == width_of(views(clusters@).take(to as int)) || (r == usize::MAX && width_of(
            views(clusters@).take(to as int),
        ) >= usize::MAX),
{
    let mut sum: usize = 0;
    for i in 0..to
        invariant
            to <= clusters.len(),
            sum as nat == width_of(views(clusters@).take(i as int)) || (sum == usize::MAX
                && width_of(views(clusters@).take(i as int)) >= usize::MAX),
    {
        proof {
            assert(views(clusters@).take(i + 1).drop_last() =~= views(clusters@).take(i as int));
        }
        sum = sum.saturating_add(clusters[i].width);
    }
    sum
}

/// Breaks a word so that a head with a trailing hyphen fits in `remaining`
/// cells: the largest head at a point the patterns allow. The head holds the
/// hyphen; the tail is the rest.
pub fn try_hyphenate(clusters: &Vec<Cluster>, remaining: usize) -> (r: Option<
    (Vec<Cluster>, Vec<Cluster>),
>)
    requires
        remaining < usize::MAX,
    ensures
        r is None <==> hyphen_split(views(clusters@), remaining as nat) == 0,
        r matches Some((head, tail)) ==> {
            let split = hyphen_split(views(clusters@), remaining as nat);
            &&& 0 < split < clusters@.len()
            &&& views(head@) == hyphen_head(views(clusters@), split)
            &&& views(tail@) == views(clusters@).skip(split)
        },
{
    let ghost all = views(clusters@);
    let n: usize = clusters.len();
    if n < MIN_HYPHEN_WORD_LEN {
        return None;
    }
    for i in 0..n
        invariant
            n == clusters.len(),
            all == views(clusters@),
            forall|j: int| 0 <= j < i ==> !(#[trigger] all[j]).cjk,
    {
        if clusters[i].cjk {
            assert(all[i as int].cjk);
            return None;
        }
    }
    let word = text_of(clusters);
    if !is_ascii_word(word.as_str()) {
        return None;
    }
    let points = hyphenation_breaks(word.as_str());
    let mut best: usize = 0;
    let m: usize = points.len();
    for k in 0..m
        invariant
            n == clusters.len(),
            all == views(clusters@),
            m == points.len(),
            remaining < usize::MAX,
            best as int == best_split(all, points@.take(k as int), remaining as nat),
    {
        proof { assert(points@.take(k + 1).drop_last() =~= points@.take(k as int)); }
        let off: usize = points[k];
        if off > 0 && off < n && off > best {
            let w: usize = prefix_width(clusters, off);
            if w < remaining {
                best = off;
            }
        }
    }
    proof {
        assert(points@.take(m as int) =~= points@);
        lemma_best_split(all, points@, remaining as nat);
    }
    if best == 0 {
        return None;
    }
    let mut head = copy_clusters(clusters, 0, best);
    let kind = clusters[best - 1].kind.copy();
    let hyphen = make_cluster("-", kind, false);
    proof {
        reveal_strlit("-");
        assert("-"@ =~= seq!['-']);
    }
    let ghost prehead = head@;
    head.push(hyphen);
    let tail = copy_clusters(clusters, best, n);
    proof {
        assert(all.subrange(0, best as int) =~= all.take(best as int));
        assert(views(head@) =~= views(prehead).push(hyphen@));
        assert(all.subrange(best as int, n as int) =~= all.skip(best as int));
    }
    Some((head, tail))
}

/// What gap `k` of `gaps` gets of `deficit` extra cells: an even share, and
/// one more for each leading gap until the remainder is used up.
pub open spec fn share(deficit: nat, gaps: nat, k: int) -> nat {
    deficit / gaps + if k < deficit % gaps {
        1nat
    } else {
        0nat
    }
}

/// The shares of all gaps.
pub open spec fn shares(deficit: nat, gaps: nat) -> Seq<nat> {
    Seq::new(gaps, |k: int| share(deficit, gaps, k))
}

/// How many extra cells each gap receives to close a shortfall.
pub fn spread_extra(deficit: usize, gaps: usize) -> (r: Vec<usize>)
    ensures
        r@.len() == gaps,
        r@.map_values(|x: usize| x as nat) == shares(deficit as nat, gaps as nat),
        gaps > 0 ==> total(r@.map_values(|x: usize| x as nat)) == deficit,
{
    let mut out: Vec<usize> = Vec::new();
    if gaps == 0 {
        assert(out@.map_values(|x: usize| x as nat) =~= shares(deficit as nat, 0));
        return out;
    }
    let base: usize = deficit / gaps;
    let rem: usize = deficit % gaps;
    for k in 0..gaps
        invariant
            gaps > 0,
            base == deficit / gaps,
            rem == deficit % gaps,
            out@.len() == k,
            forall|j: int| 0 <= j < k ==> (#[trigger] out@[j]) as nat == share(
                deficit as nat,
                gaps as nat,
                j,
            ),
    {
        proof {
            vstd::arithmetic::div_mod::lemma_fundamental_div_mod(deficit as int, gaps as int);
            assert(rem > 0 ==> base < usize::MAX) by (nonlinear_arith)
                requires
                    deficit as int == gaps as int * base as int + rem as int,
                    gaps > 0,
                    deficit <= usize::MAX,
                    base >= 0,
            ;
        }
        if k < rem {
            out.push(base + 1);
        } else {
            out.push(base);
        }
    }
    proof {
        assert(out@.map_values(|x: usize| x as nat) =~= shares(deficit as nat, gaps as nat));
        lemma_shares_total(deficit as nat, gaps as nat);
    }
    out
}

/// The sum of a sequence.
pub open spec fn total(s: Seq<nat>) -> nat
    decreases s.len(),
{
    if s.len() == 0 {
        0
    } else {
        total(s.drop_last()) + s.last()
    }
}

proof fn lemma_shares_prefix(deficit: nat, gaps: nat, k: nat)
    requires
        gaps > 0,
        k <= gaps,
    ensures
        total(shares(deficit, gaps).take(k as int)) == k * (deficit / gaps) + if k < deficit % gaps
        {
            k
        } else {
            deficit % gaps
        },
    decreases k,
{
    let s = shares(deficit, gaps);
    if k > 0 {
        let j = (k - 1) as nat;
        lemma_shares_prefix(deficit, gaps, j);
        assert(s.take(k as int).drop_last() =~= s.take(j as int));
        let q = deficit / gaps;
        assert(k * q == j * q + q) by (nonlinear_arith)
            requires
                k == j + 1,
        ;
    } else {
        assert(0 * (deficit / gaps) == 0) by (nonlinear_arith);
    }
}

/// The shares add up to the deficit exactly.
pub proof fn lemma_shares_total(deficit: nat, gaps: nat)
    requires
        gaps > 0,
    ensures
        total(shares(deficit, gaps)) == deficit,
{
    lemma_shares_prefix(deficit, gaps, gaps);
    assert(shares(deficit, gaps).take(gaps as int) =~= shares(deficit, gaps));
    vstd::arithmetic::div_mod::lemma_fundamental_div_mod(deficit as int, gaps as int);
}

} // verus!
