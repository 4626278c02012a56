//! Links come on the rows in the order of the document.
use vstd::prelude::*;

use crate::doc::followable;
use crate::doc::link_count;
use crate::doc::Block;
use crate::doc::CodeToken;
use crate::doc::GalleryItem;
use crate::doc::Span;
use crate::layout::card::minus;
use crate::layout::cluster::clusters_in;
use crate::layout::cluster::ClusterModel;
use crate::layout::emit::block_gap;
use crate::layout::emit::block_links;
use crate::layout::emit::block_rows;
use crate::layout::emit::blank_rows;
use crate::layout::emit::code_line;
use crate::layout::emit::code_rows;
use crate::layout::emit::cut_rows;
use crate::layout::emit::gallery_list;
use crate::layout::emit::gallery_rows;
use crate::layout::emit::image_box_rows;
use crate::layout::emit::image_rows;
use crate::layout::emit::line_gap;
use crate::layout::emit::list_form_rows;
use crate::layout::emit::list_line_rows;
use crate::layout::emit::math_rows;
use crate::layout::emit::own_row;
use crate::layout::emit::picture_rows;
use crate::layout::emit::plain_rows;
use crate::layout::emit::rule_row;
use crate::layout::emit::span_of;
use crate::layout::emit::spaced_rows;
use crate::layout::emit::table_rows;
use crate::layout::emit::tight_rows;
use crate::layout::emit::wrap_width;
use crate::layout::emit::wrapped_rows;
use crate::layout::emit::Row;
use crate::layout::emit::Shape;
use crate::layout::emit::CODE_GUTTER;
use crate::layout::fill::chunks_of;
use crate::layout::line::coalesced;
use crate::layout::line::final_line;
use crate::layout::line::flattened;
use crate::layout::line::kind_of;
use crate::layout::line::pad_spans;
use crate::layout::line::span_display;
use crate::layout::line::token_clusters;
use crate::layout::line::token_kind;
use crate::layout::line::wrapped;
use crate::layout::order::kinds;
use crate::layout::order::lemma_chunks_kinds;
use crate::layout::order::line_kinds;
use crate::layout::order::pick_both;
use crate::layout::order::pick_coalesced;
use crate::layout::order::picks;
use crate::layout::order::span_kinds;
use crate::layout::order::wrapping_keeps_the_order;
use crate::layout::types::ImageResolver;
use crate::layout::types::KindModel;
use crate::layout::types::SpanModel;
use crate::layout::wrap::WrapOpts;
use crate::text::spaces;

verus! {

/// The kinds of the spans of rows, row after row.
pub open spec fn row_kinds(rows: Seq<Row>) -> Seq<KindModel>
    decreases rows.len(),
{
    if rows.len() == 0 {
        Seq::empty()
    } else {
        row_kinds(rows.drop_last()) + span_kinds(rows.last().line)
    }
}

/// The links among kinds are numbered from `lo` up to `hi`, never going back.
pub open spec fn climbing(ks: Seq<KindModel>, lo: int, hi: int) -> bool {
    &&& forall|i: int|
        0 <= i < ks.len() ==> (#[trigger] ks[i] matches KindModel::Link(n) ==> lo <= n < hi)
    &&& forall|i: int, j: int|
        #![trigger ks[i], ks[j]]
        0 <= i < j < ks.len() ==> (ks[i] matches KindModel::Link(a) ==> (
        ks[j] matches KindModel::Link(b) ==> a <= b))
}

/// No kind is a link.
pub open spec fn linkless(ks: Seq<KindModel>) -> bool {
    forall|i: int| 0 <= i < ks.len() ==> !(#[trigger] ks[i] is Link)
}

pub proof fn lemma_climb_picked(
    at: Seq<int>,
    out: Seq<KindModel>,
    from: Seq<KindModel>,
    lo: int,
    hi: int,
)
    requires
        picks(at, out, from),
        climbing(from, lo, hi),
    ensures
        climbing(out, lo, hi),
{
    assert forall|i: int| 0 <= i < out.len() implies (#[trigger] out[i] matches KindModel::Link(n)
        ==> lo <= n < hi) by {
        assert(out[i] == from[at[i]]);
    }
    assert forall|i: int, j: int|
        #![trigger out[i], out[j]]
        0 <= i < j < out.len() implies (out[i] matches KindModel::Link(a) ==> (
    out[j] matches KindModel::Link(b) ==> a <= b)) by {
        assert(at[i] <= at[j]);
        assert(out[i] == from[at[i]] && out[j] == from[at[j]]);
    }
}

pub proof fn lemma_climb_add(a: Seq<KindModel>, b: Seq<KindModel>, lo: int, mid: int, hi: int)
    requires
        climbing(a, lo, mid),
        climbing(b, mid, hi),
        lo <= mid <= hi,
    ensures
        climbing(a + b, lo, hi),
{
    let ks = a + b;
    assert forall|i: int| 0 <= i < ks.len() implies (#[trigger] ks[i] matches KindModel::Link(n)
        ==> lo <= n < hi) by {
        if i < a.len() {
            assert(ks[i] == a[i]);
        } else {
            assert(ks[i] == b[i - a.len()]);
        }
    }
    assert forall|i: int, j: int|
        #![trigger ks[i], ks[j]]
        0 <= i < j < ks.len() implies (ks[i] matches KindModel::Link(m) ==> (
    ks[j] matches KindModel::Link(n) ==> m <= n)) by {
        if j < a.len() {
            assert(ks[i] == a[i] && ks[j] == a[j]);
        } else if i >= a.len() {
            assert(ks[i] == b[i - a.len()] && ks[j] == b[j - a.len()]);
        } else {
            assert(ks[i] == a[i] && ks[j] == b[j - a.len()]);
        }
    }
}

/// Without links the bounds do not matter.
pub proof fn lemma_linkless(ks: Seq<KindModel>, lo: int, hi: int)
    ensures
        linkless(ks) ==> climbing(ks, lo, hi),
        climbing(ks, 0, 0) ==> linkless(ks),
{
    if climbing(ks, 0, 0) {
        assert forall|i: int| 0 <= i < ks.len() implies !(#[trigger] ks[i] is Link) by {
            assert(ks[i] matches KindModel::Link(n) ==> 0 <= n < 0);
        }
    }
}

/// The kinds of lines once their clusters are joined into spans.
spec fn joined_kinds(lines: Seq<Seq<ClusterModel>>) -> Seq<KindModel>
    decreases lines.len(),
{
    if lines.len() == 0 {
        Seq::empty()
    } else {
        joined_kinds(lines.drop_last()) + span_kinds(coalesced(lines.last()))
    }
}

proof fn pick_joined(lines: Seq<Seq<ClusterModel>>) -> (at: Seq<int>)
    ensures
        picks(at, joined_kinds(lines), line_kinds(lines)),
    decreases lines.len(),
{
    if lines.len() == 0 {
        Seq::empty()
    } else {
        let f = pick_joined(lines.drop_last());
        let g = pick_coalesced(lines.last());
        pick_both(
            f,
            joined_kinds(lines.drop_last()),
            line_kinds(lines.drop_last()),
            g,
            span_kinds(coalesced(lines.last())),
            kinds(lines.last()),
        )
    }
}

/// The links among kinds.
pub open spec fn linked(ks: Seq<KindModel>) -> Seq<KindModel>
    decreases ks.len(),
{
    if ks.len() == 0 {
        Seq::empty()
    } else if ks.last() is Link {
        linked(ks.drop_last()).push(ks.last())
    } else {
        linked(ks.drop_last())
    }
}

pub proof fn lemma_linked_add(a: Seq<KindModel>, b: Seq<KindModel>)
    ensures
        linked(a + b) == linked(a) + linked(b),
    decreases b.len(),
{
    if b.len() == 0 {
        assert(a + b =~= a);
        assert(linked(a) + linked(b) =~= linked(a));
    } else {
        assert((a + b).drop_last() =~= a + b.drop_last());
        lemma_linked_add(a, b.drop_last());
        assert(linked(a + b) =~= linked(a) + linked(b));
    }
}

pub proof fn lemma_linked_none(ks: Seq<KindModel>)
    requires
        linkless(ks),
    ensures
        linked(ks) == Seq::<KindModel>::empty(),
    decreases ks.len(),
{
    if ks.len() > 0 {
        assert(!(ks[ks.len() - 1] is Link));
        assert forall|i: int| 0 <= i < ks.drop_last().len() implies !(
        #[trigger] ks.drop_last()[i] is Link) by {
            assert(ks.drop_last()[i] == ks[i]);
        }
        lemma_linked_none(ks.drop_last());
    }
}

proof fn lemma_linked_has(ks: Seq<KindModel>, i: int)
    requires
        0 <= i < ks.len(),
        ks[i] is Link,
    ensures
        linked(ks).contains(ks[i]),
    decreases ks.len(),
{
    if i == ks.len() - 1 {
        assert(linked(ks)[linked(ks).len() - 1] == ks[i]);
    } else {
        lemma_linked_has(ks.drop_last(), i);
        let front = linked(ks.drop_last());
        let k = choose|k: int| 0 <= k < front.len() && front[k] == ks[i];
        assert(linked(ks)[k] == ks[i]);
    }
}

proof fn lemma_linked_from(ks: Seq<KindModel>, k: int)
    requires
        0 <= k < linked(ks).len(),
    ensures
        linked(ks)[k] is Link,
        ks.contains(linked(ks)[k]),
    decreases ks.len(),
{
    let front = ks.drop_last();
    if ks.last() is Link && k == linked(ks).len() - 1 {
        assert(ks[ks.len() - 1] == linked(ks)[k]);
    } else {
        lemma_linked_from(front, k);
        let i = choose|i: int| 0 <= i < front.len() && front[i] == linked(front)[k];
        assert(ks[i] == linked(ks)[k]);
    }
}

/// Kinds climb where the links among them do.
pub proof fn lemma_linked_climb(ks: Seq<KindModel>, lo: int, hi: int)
    ensures
        climbing(ks, lo, hi) <==> climbing(linked(ks), lo, hi),
    decreases ks.len(),
{
    if ks.len() > 0 {
        let front = ks.drop_last();
        let l = linked(front);
        let all = linked(ks);
        lemma_linked_climb(front, lo, hi);
        if climbing(ks, lo, hi) {
            assert(climbing(front, lo, hi)) by {
                assert forall|i: int| 0 <= i < front.len() implies (
                #[trigger] front[i] matches KindModel::Link(n) ==> lo <= n < hi) by {
                    assert(front[i] == ks[i]);
                }
                assert forall|i: int, j: int|
                    #![trigger front[i], front[j]]
                    0 <= i < j < front.len() implies (front[i] matches KindModel::Link(a) ==> (
                front[j] matches KindModel::Link(b) ==> a <= b)) by {
                    assert(front[i] == ks[i] && front[j] == ks[j]);
                }
            }
            if ks.last() is Link {
                let last = ks.len() - 1;
                assert forall|i: int| 0 <= i < all.len() implies (
                #[trigger] all[i] matches KindModel::Link(n) ==> lo <= n < hi) by {
                    if i < l.len() {
                        assert(all[i] == l[i]);
                    } else {
                        assert(all[i] == ks[last]);
                    }
                }
                assert forall|i: int, j: int|
                    #![trigger all[i], all[j]]
                    0 <= i < j < all.len() implies (all[i] matches KindModel::Link(a) ==> (
                all[j] matches KindModel::Link(b) ==> a <= b)) by {
                    assert(all[i] == l[i]);
                    if j < l.len() {
                        assert(all[j] == l[j]);
                    } else {
                        lemma_linked_from(front, i);
                        let m = choose|m: int| 0 <= m < front.len() && front[m] == l[i];
                        assert(ks[m] == all[i] && ks[last] == all[j]);
                    }
                }
            }
        }
        if climbing(all, lo, hi) {
            assert(climbing(l, lo, hi)) by {
                assert forall|i: int| 0 <= i < l.len() implies (
                #[trigger] l[i] matches KindModel::Link(n) ==> lo <= n < hi) by {
                    assert(l[i] == all[i]);
                }
                assert forall|i: int, j: int|
                    #![trigger l[i], l[j]]
                    0 <= i < j < l.len() implies (l[i] matches KindModel::Link(a) ==> (
                l[j] matches KindModel::Link(b) ==> a <= b)) by {
                    assert(l[i] == all[i] && l[j] == all[j]);
                }
            }
            assert forall|i: int| 0 <= i < ks.len() implies (
            #[trigger] ks[i] matches KindModel::Link(n) ==> lo <= n < hi) by {
                if i < front.len() {
                    assert(ks[i] == front[i]);
                } else if ks[i] is Link {
                    assert(all[all.len() - 1] == ks[i]);
                }
            }
            assert forall|i: int, j: int|
                #![trigger ks[i], ks[j]]
                0 <= i < j < ks.len() implies (ks[i] matches KindModel::Link(a) ==> (
            ks[j] matches KindModel::Link(b) ==> a <= b)) by {
                assert(ks[i] == front[i]);
                if j < front.len() {
                    assert(ks[j] == front[j]);
                } else if ks[i] is Link && ks[j] is Link {
                    lemma_linked_has(front, i);
                    let k = choose|k: int| 0 <= k < l.len() && l[k] == front[i];
                    assert(all[k] == ks[i] && all[all.len() - 1] == ks[j]);
                }
            }
        }
    }
}

pub proof fn lemma_row_kinds_add(a: Seq<Row>, b: Seq<Row>)
    ensures
        row_kinds(a + b) == row_kinds(a) + row_kinds(b),
    decreases b.len(),
{
    if b.len() == 0 {
        assert(a + b =~= a);
        assert(row_kinds(a) + row_kinds(b) =~= row_kinds(a));
    } else {
        assert((a + b).drop_last() =~= a + b.drop_last());
        lemma_row_kinds_add(a, b.drop_last());
        assert(row_kinds(a + b) =~= row_kinds(a) + row_kinds(b));
    }
}

/// The links of a finished line are those of its content.
proof fn lemma_final_linked(pad: nat, prefix: Seq<SpanModel>, content: Seq<ClusterModel>)
    requires
        linkless(span_kinds(prefix)),
    ensures
        linked(span_kinds(final_line(pad, prefix, content))) == linked(
            span_kinds(coalesced(content)),
        ),
{
    let p = span_kinds(pad_spans(pad));
    let q = span_kinds(prefix);
    let c = span_kinds(coalesced(content));
    assert(span_kinds(final_line(pad, prefix, content)) =~= p + q + c);
    lemma_linked_add(p + q, c);
    lemma_linked_add(p, q);
    assert(linkless(p));
    lemma_linked_none(p);
    lemma_linked_none(q);
    assert(linked(p) + linked(q) + linked(c) =~= linked(c));
}

/// Blank rows hold no link.
proof fn lemma_blank_linked(shape: Shape, n: nat)
    ensures
        linked(row_kinds(blank_rows(shape, n))) == Seq::<KindModel>::empty(),
    decreases n,
{
    if n > 0 {
        let rows = blank_rows(shape, n);
        assert(rows.drop_last() =~= blank_rows(shape, (n - 1) as nat));
        lemma_blank_linked(shape, (n - 1) as nat);
        lemma_linked_add(row_kinds(rows.drop_last()), span_kinds(rows.last().line));
        lemma_final_linked(shape.pad_width as nat, Seq::empty(), Seq::empty());
        assert(span_kinds(coalesced(Seq::<ClusterModel>::empty())) =~= Seq::empty());
        assert(linked(row_kinds(rows)) =~= Seq::empty());
    }
}

pub proof fn lemma_one_row(row: Row)
    ensures
        row_kinds(seq![row]) == span_kinds(row.line),
{
    reveal_with_fuel(row_kinds, 2);
    let one = seq![row];
    assert(one.drop_last() =~= Seq::empty());
    assert(row_kinds(one) =~= span_kinds(row.line));
}

/// The links of spaced rows are those of their lines.
proof fn lemma_spaced_linked(
    shape: Shape,
    lines: Seq<Seq<ClusterModel>>,
    first: Seq<SpanModel>,
    rest: Seq<SpanModel>,
    n: int,
)
    requires
        0 <= n <= lines.len(),
        linkless(span_kinds(first)),
        linkless(span_kinds(rest)),
    ensures
        linked(row_kinds(spaced_rows(shape, lines, first, rest, n))) == linked(
            joined_kinds(lines.take(n)),
        ),
    decreases n,
{
    if n == 0 {
        assert(lines.take(0) =~= Seq::empty());
    } else {
        let prefix = if n == 1 {
            first
        } else {
            rest
        };
        let before = spaced_rows(shape, lines, first, rest, n - 1);
        let row = Row {
            line: final_line(shape.pad_width as nat, prefix, lines[n - 1]),
            cont: n > 1,
        };
        let here = seq![row];
        assert(spaced_rows(shape, lines, first, rest, n) =~= before + here + line_gap(shape));
        lemma_spaced_linked(shape, lines, first, rest, n - 1);
        lemma_row_kinds_add(before + here, line_gap(shape));
        lemma_row_kinds_add(before, here);
        lemma_one_row(row);
        lemma_linked_add(row_kinds(before + here), row_kinds(line_gap(shape)));
        lemma_linked_add(row_kinds(before), row_kinds(here));
        lemma_blank_linked(shape, shape.line_spacing as nat);
        lemma_final_linked(shape.pad_width as nat, prefix, lines[n - 1]);
        assert(lines.take(n).drop_last() =~= lines.take(n - 1));
        lemma_linked_add(joined_kinds(lines.take(n - 1)), span_kinds(coalesced(lines[n - 1])));
        assert(linked(row_kinds(before)) + linked(row_kinds(here)) + Seq::<KindModel>::empty()
            =~= linked(row_kinds(before)) + linked(row_kinds(here)));
    }
}

/// The links of tight rows are those of their lines.
proof fn lemma_tight_linked(
    shape: Shape,
    prefix: Seq<SpanModel>,
    lines: Seq<Seq<ClusterModel>>,
    cont: bool,
    n: int,
)
    requires
        0 <= n <= lines.len(),
        linkless(span_kinds(prefix)),
    ensures
        linked(row_kinds(tight_rows(shape, prefix, lines, cont).take(n))) == linked(
            joined_kinds(lines.take(n)),
        ),
    decreases n,
{
    let rows = tight_rows(shape, prefix, lines, cont);
    if n == 0 {
        assert(lines.take(0) =~= Seq::empty());
        assert(rows.take(0) =~= Seq::empty());
    } else {
        lemma_tight_linked(shape, prefix, lines, cont, n - 1);
        assert(rows.take(n).drop_last() =~= rows.take(n - 1));
        assert(lines.take(n).drop_last() =~= lines.take(n - 1));
        lemma_linked_add(row_kinds(rows.take(n - 1)), span_kinds(rows[n - 1].line));
        lemma_linked_add(joined_kinds(lines.take(n - 1)), span_kinds(coalesced(lines[n - 1])));
        lemma_final_linked(shape.pad_width as nat, prefix, lines[n - 1]);
    }
}

/// Rows of wrapped content climb where the content does.
pub proof fn lemma_wrapped_rows_climb(
    shape: Shape,
    content: Seq<ClusterModel>,
    first: Seq<SpanModel>,
    rest: Seq<SpanModel>,
    opts: WrapOpts,
    lo: int,
    hi: int,
)
    requires
        climbing(kinds(content), lo, hi),
        linkless(span_kinds(first)),
        linkless(span_kinds(rest)),
    ensures
        climbing(row_kinds(wrapped_rows(shape, content, first, rest, opts)), lo, hi),
{
    let width = wrap_width(shape, first, content);
    let lines = wrapped(content, width, opts);
    let rows = wrapped_rows(shape, content, first, rest, opts);
    let f = wrapping_keeps_the_order(content, width, opts);
    lemma_climb_picked(f, line_kinds(lines), kinds(content), lo, hi);
    let g = pick_joined(lines);
    lemma_climb_picked(g, joined_kinds(lines), line_kinds(lines), lo, hi);
    lemma_linked_climb(joined_kinds(lines), lo, hi);
    let empty = Seq::<SpanModel>::empty();
    assert(linkless(span_kinds(empty)));
    if lines.len() == 0 {
        let head = if crate::layout::emit::prefix_fits(shape, first, content) {
            first
        } else {
            empty
        };
        let row = own_row(final_line(shape.pad_width as nat, head, Seq::empty()));
        lemma_row_kinds_add(seq![row], line_gap(shape));
        lemma_one_row(row);
        lemma_linked_add(row_kinds(seq![row]), row_kinds(line_gap(shape)));
        lemma_blank_linked(shape, shape.line_spacing as nat);
        lemma_final_linked(shape.pad_width as nat, head, Seq::empty());
        assert(span_kinds(coalesced(Seq::<ClusterModel>::empty())) =~= Seq::empty());
        assert(linked(row_kinds(rows)) =~= Seq::empty());
    } else {
        if crate::layout::emit::prefix_fits(shape, first, content) {
            lemma_spaced_linked(shape, lines, first, rest, lines.len() as int);
        } else {
            lemma_spaced_linked(shape, lines, empty, empty, lines.len() as int);
        }
        assert(lines.take(lines.len() as int) =~= lines);
    }
    lemma_linked_climb(row_kinds(rows), lo, hi);
}

/// Rows of lines without links hold none.
proof fn lemma_tight_none(
    shape: Shape,
    prefix: Seq<SpanModel>,
    lines: Seq<Seq<ClusterModel>>,
    cont: bool,
)
    requires
        linkless(span_kinds(prefix)),
        linkless(line_kinds(lines)),
    ensures
        linkless(row_kinds(tight_rows(shape, prefix, lines, cont))),
{
    let rows = tight_rows(shape, prefix, lines, cont);
    lemma_tight_linked(shape, prefix, lines, cont, lines.len() as int);
    assert(rows.take(lines.len() as int) =~= rows);
    assert(lines.take(lines.len() as int) =~= lines);
    lemma_linkless(line_kinds(lines), 0, 0);
    let g = pick_joined(lines);
    lemma_climb_picked(g, joined_kinds(lines), line_kinds(lines), 0, 0);
    lemma_linked_climb(joined_kinds(lines), 0, 0);
    lemma_linked_climb(row_kinds(rows), 0, 0);
    lemma_linkless(row_kinds(rows), 0, 0);
}

/// Wrapped content without links has lines without links.
proof fn lemma_wrapped_none(content: Seq<ClusterModel>, avail: nat, opts: WrapOpts)
    requires
        linkless(kinds(content)),
    ensures
        linkless(line_kinds(wrapped(content, avail, opts))),
{
    let f = wrapping_keeps_the_order(content, avail, opts);
    lemma_linkless(kinds(content), 0, 0);
    lemma_climb_picked(f, line_kinds(wrapped(content, avail, opts)), kinds(content), 0, 0);
    lemma_linkless(line_kinds(wrapped(content, avail, opts)), 0, 0);
}

pub proof fn lemma_kinds_in(text: Seq<char>, kind: KindModel, ambiguous_wide: bool)
    ensures
        forall|i: int|
            0 <= i < kinds(clusters_in(text, kind, ambiguous_wide)).len() ==> (#[trigger] kinds(
                clusters_in(text, kind, ambiguous_wide),
            )[i]) == kind,
{
}

/// Text of one kind that is no link climbs anywhere.
pub proof fn lemma_plain_rows_none(shape: Shape, text: Seq<char>, kind: KindModel)
    requires
        !(kind is Link),
    ensures
        linkless(row_kinds(plain_rows(shape, text, kind))),
{
    lemma_prefixed_none(shape, text, kind, Seq::empty());
}

proof fn lemma_prefixed_none(
    shape: Shape,
    text: Seq<char>,
    kind: KindModel,
    prefix: Seq<SpanModel>,
)
    requires
        !(kind is Link),
        linkless(span_kinds(prefix)),
    ensures
        linkless(
            row_kinds(
                wrapped_rows(
                    shape,
                    clusters_in(text, kind, shape.ambiguous_wide),
                    prefix,
                    prefix,
                    shape.plain(),
                ),
            ),
        ),
{
    let content = clusters_in(text, kind, shape.ambiguous_wide);
    lemma_kinds_in(text, kind, shape.ambiguous_wide);
    lemma_linkless(kinds(content), 0, 0);
    lemma_wrapped_rows_climb(shape, content, prefix, prefix, shape.plain(), 0, 0);
    lemma_linkless(
        row_kinds(wrapped_rows(shape, content, prefix, prefix, shape.plain())),
        0,
        0,
    );
}

pub proof fn lemma_none_add(a: Seq<Row>, b: Seq<Row>)
    requires
        linkless(row_kinds(a)),
        linkless(row_kinds(b)),
    ensures
        linkless(row_kinds(a + b)),
{
    lemma_row_kinds_add(a, b);
    let x = row_kinds(a);
    let y = row_kinds(b);
    assert forall|i: int| 0 <= i < (x + y).len() implies !(#[trigger] (x + y)[i] is Link) by {
        if i < x.len() {
            assert((x + y)[i] == x[i]);
        } else {
            assert((x + y)[i] == y[i - x.len()]);
        }
    }
}

/// Rows whose spans are no links.
proof fn lemma_rows_none(rows: Seq<Row>)
    requires
        forall|i: int| 0 <= i < rows.len() ==> linkless(span_kinds((#[trigger] rows[i]).line)),
    ensures
        linkless(row_kinds(rows)),
    decreases rows.len(),
{
    if rows.len() > 0 {
        let front = rows.drop_last();
        assert forall|i: int| 0 <= i < front.len() implies linkless(
            span_kinds((#[trigger] front[i]).line),
        ) by {
            assert(front[i] == rows[i]);
        }
        lemma_rows_none(front);
        let last = rows[rows.len() - 1];
        assert(linkless(span_kinds(last.line)));
        lemma_one_row(last);
        assert(rows =~= front + seq![last]);
        lemma_none_add(front, seq![last]);
    }
}

/// A finished line without links in its content has none.
proof fn lemma_final_none(pad: nat, prefix: Seq<SpanModel>, content: Seq<ClusterModel>)
    requires
        linkless(span_kinds(prefix)),
        linkless(kinds(content)),
    ensures
        linkless(span_kinds(final_line(pad, prefix, content))),
{
    let f = pick_coalesced(content);
    lemma_linkless(kinds(content), 0, 0);
    lemma_climb_picked(f, span_kinds(coalesced(content)), kinds(content), 0, 0);
    lemma_linked_climb(span_kinds(coalesced(content)), 0, 0);
    lemma_final_linked(pad, prefix, content);
    lemma_linked_climb(span_kinds(final_line(pad, prefix, content)), 0, 0);
    lemma_linkless(span_kinds(final_line(pad, prefix, content)), 0, 0);
}

pub proof fn lemma_gap_none(shape: Shape)
    ensures
        linkless(row_kinds(block_gap(shape))),
{
    lemma_blank_linked(shape, shape.paragraph_spacing as nat);
    lemma_linked_climb(row_kinds(block_gap(shape)), 0, 0);
    lemma_linkless(row_kinds(block_gap(shape)), 0, 0);
}

proof fn lemma_cut_rows_none(shape: Shape, lines: Seq<Seq<char>>, kind: KindModel)
    requires
        !(kind is Link),
    ensures
        linkless(row_kinds(cut_rows(shape, lines, kind))),
{
    let rows = cut_rows(shape, lines, kind);
    assert forall|i: int| 0 <= i < rows.len() implies linkless(
        span_kinds((#[trigger] rows[i]).line),
    ) by {
        let text = crate::layout::line::truncated(
            lines[i],
            shape.content_width as nat,
            shape.ambiguous_wide,
        );
        lemma_kinds_in(text, kind, shape.ambiguous_wide);
        lemma_final_none(
            shape.pad_width as nat,
            Seq::empty(),
            clusters_in(text, kind, shape.ambiguous_wide),
        );
    }
    lemma_rows_none(rows);
}

proof fn lemma_tokens_none(tokens: Seq<CodeToken>, ambiguous_wide: bool)
    ensures
        linkless(kinds(token_clusters(tokens, ambiguous_wide))),
    decreases tokens.len(),
{
    if tokens.len() > 0 {
        let front = token_clusters(tokens.drop_last(), ambiguous_wide);
        let t = tokens.last();
        let here = clusters_in(t.text@, token_kind(t.kind), ambiguous_wide);
        lemma_tokens_none(tokens.drop_last(), ambiguous_wide);
        lemma_kinds_in(t.text@, token_kind(t.kind), ambiguous_wide);
        let all = kinds(token_clusters(tokens, ambiguous_wide));
        assert forall|i: int| 0 <= i < all.len() implies !(#[trigger] all[i] is Link) by {
            if i < front.len() {
                assert(all[i] == kinds(front)[i]);
            } else {
                assert(all[i] == kinds(here)[i - front.len()]);
            }
        }
    }
}

proof fn lemma_code_none(
    shape: Shape,
    lines: Seq<Seq<char>>,
    tokens: Seq<Vec<CodeToken>>,
    n: int,
)
    ensures
        linkless(row_kinds(code_rows(shape, lines, tokens, n))),
    decreases n,
{
    if n > 0 {
        let i = n - 1;
        let line = lines[i];
        let clusters = if i < tokens.len() {
            token_clusters(tokens[i]@, shape.ambiguous_wide)
        } else {
            clusters_in(line, KindModel::Code, shape.ambiguous_wide)
        };
        if i < tokens.len() {
            lemma_tokens_none(tokens[i]@, shape.ambiguous_wide);
        } else {
            lemma_kinds_in(line, KindModel::Code, shape.ambiguous_wide);
        }
        let gutter = span_of(spaces(CODE_GUTTER as nat), KindModel::Code);
        assert(linkless(span_kinds(gutter)));
        let avail = minus(shape.content_width as nat, CODE_GUTTER as nat);
        let chunks = chunks_of(clusters, avail);
        lemma_chunks_kinds(clusters, avail);
        lemma_tight_none(shape, gutter, chunks, true);
        lemma_final_none(shape.pad_width as nat, gutter, Seq::empty());
        lemma_one_row(own_row(final_line(shape.pad_width as nat, gutter, Seq::empty())));
        lemma_code_none(shape, lines, tokens, n - 1);
        lemma_none_add(code_rows(shape, lines, tokens, n - 1), code_line(shape, line, tokens, i));
    }
}

proof fn lemma_list_form_none(shape: Shape, lines: Seq<Seq<char>>, n: int)
    ensures
        linkless(row_kinds(list_form_rows(shape, lines, n))),
    decreases n,
{
    if n > 0 {
        let line = lines[n - 1];
        let content = clusters_in(line, KindModel::Table, shape.ambiguous_wide);
        lemma_kinds_in(line, KindModel::Table, shape.ambiguous_wide);
        lemma_wrapped_none(content, shape.content_width as nat, shape.plain());
        let wrapped_lines = wrapped(content, shape.content_width as nat, shape.plain());
        let empty = Seq::<SpanModel>::empty();
        assert(linkless(span_kinds(empty)));
        lemma_tight_none(shape, empty, wrapped_lines, false);
        assert(linkless(kinds(Seq::<ClusterModel>::empty())));
        lemma_final_none(shape.pad_width as nat, empty, Seq::empty());
        lemma_one_row(own_row(final_line(shape.pad_width as nat, empty, Seq::empty())));
        lemma_list_form_none(shape, lines, n - 1);
        lemma_none_add(list_form_rows(shape, lines, n - 1), list_line_rows(shape, line));
    }
}

proof fn lemma_table_none(shape: Shape, table: crate::doc::Table)
    ensures
        linkless(row_kinds(table_rows(shape, table))),
{
    let lines = table.list_lines();
    lemma_list_form_none(shape, lines, lines.len() as int);
    let plan = crate::layout::table::planned(
        crate::layout::emit::natural_widths(table, shape.ambiguous_wide),
        shape.content_width as nat,
        shape.accessible,
        shape.table_offset as nat,
        crate::layout::table::glyph_cells('│', shape.ambiguous_wide),
    );
    if let crate::layout::table::PlanModel::Grid { first_col, widths } = plan {
        lemma_cut_rows_none(
            shape,
            crate::layout::table::grid_lines(table, first_col as int, widths, shape.ambiguous_wide),
            KindModel::Table,
        );
    }
}

proof fn lemma_gallery_none(shape: Shape, items: Seq<GalleryItem>, n: int)
    ensures
        linkless(row_kinds(gallery_list(shape, items, n))),
    decreases n,
{
    if n > 0 {
        let text = crate::layout::emit::placeholder(items[n - 1].caption@);
        lemma_gallery_none(shape, items, n - 1);
        lemma_plain_rows_none(shape, text, KindModel::Image);
        lemma_none_add(
            gallery_list(shape, items, n - 1),
            plain_rows(shape, text, KindModel::Image),
        );
    }
}

proof fn lemma_strip_none(shape: Shape, items: Seq<GalleryItem>)
    ensures
        linkless(row_kinds(gallery_rows(shape, items))),
{
    lemma_gallery_none(shape, items, items.len() as int);
    let text = crate::layout::emit::strip_text(items, items.len() as int);
    let content = clusters_in(text, KindModel::Caption, shape.ambiguous_wide);
    lemma_kinds_in(text, KindModel::Caption, shape.ambiguous_wide);
    lemma_wrapped_none(content, shape.content_width as nat, shape.plain());
    let empty = Seq::<SpanModel>::empty();
    assert(linkless(span_kinds(empty)));
    lemma_tight_none(
        shape,
        empty,
        wrapped(content, shape.content_width as nat, shape.plain()),
        true,
    );
}

proof fn lemma_picture_none<R: ImageResolver>(
    shape: Shape,
    src: Option<String>,
    alt: Seq<char>,
    caption: Option<String>,
    images: R,
)
    ensures
        linkless(row_kinds(picture_rows(shape, src, alt, caption, images))),
{
    let text = crate::layout::emit::placeholder(alt);
    lemma_plain_rows_none(shape, text, KindModel::Image);
    if let Some((cols, count)) = crate::layout::emit::reserved_box(shape, src, images) {
        let rows = image_box_rows(shape, src->0@, cols, count);
        assert forall|i: int| 0 <= i < rows.len() implies linkless(
            span_kinds((#[trigger] rows[i]).line),
        ) by {
            let prefix = span_of(
                spaces(cols),
                KindModel::ImageRow { src: src->0@, row: i as u16, rows: count },
            );
            assert(linkless(span_kinds(prefix)));
            assert(linkless(kinds(Seq::<ClusterModel>::empty())));
            lemma_final_none(shape.pad_width as nat, prefix, Seq::empty());
        }
        lemma_rows_none(rows);
    }
    if let Some(t) = caption {
        lemma_plain_rows_none(shape, t@, KindModel::Caption);
        lemma_none_add(
            image_rows(shape, src, alt, images),
            plain_rows(shape, t@, KindModel::Caption),
        );
    }
}

proof fn lemma_math_none(shape: Shape, tex: Seq<char>, display: bool)
    ensures
        linkless(row_kinds(math_rows(shape, tex, display))),
{
    let text = crate::layout::line::math_text(tex);
    let pad = span_of(
        spaces(
            minus(
                shape.content_width as nat,
                crate::layout::measure::cells(text, shape.ambiguous_wide),
            ) / 2,
        ),
        KindModel::Plain,
    );
    assert(linkless(span_kinds(pad)));
    lemma_prefixed_none(shape, text, KindModel::Math, pad);
    lemma_plain_rows_none(shape, text, KindModel::Math);
    lemma_gap_none(shape);
    let body = if display {
        wrapped_rows(
            shape,
            clusters_in(text, KindModel::Math, shape.ambiguous_wide),
            pad,
            pad,
            shape.plain(),
        )
    } else {
        plain_rows(shape, text, KindModel::Math)
    };
    lemma_none_add(block_gap(shape), body);
    lemma_none_add(block_gap(shape) + body, block_gap(shape));
}

/// Inline runs number their links one after the other.
proof fn lemma_flattened_climbs(
    spans: Seq<Span>,
    plain: KindModel,
    links: nat,
    ambiguous_wide: bool,
)
    requires
        !(plain is Link),
        links + link_count(spans) <= usize::MAX,
    ensures
        climbing(
            kinds(flattened(spans, plain, links, ambiguous_wide)),
            links as int,
            (links + link_count(spans)) as int,
        ),
    decreases spans.len(),
{
    if spans.len() > 0 {
        let front = spans.drop_last();
        let before = links + link_count(front);
        let style = spans.last().style;
        lemma_flattened_climbs(front, plain, links, ambiguous_wide);
        let kind = kind_of(style, plain, before);
        let text = span_display(spans.last());
        let here = clusters_in(text, kind, ambiguous_wide);
        lemma_kinds_in(text, kind, ambiguous_wide);
        assert(kind is Link ==> followable(style) && kind == KindModel::Link(before as usize));
        assert(climbing(kinds(here), before as int, (links + link_count(spans)) as int));
        lemma_climb_add(
            kinds(flattened(front, plain, links, ambiguous_wide)),
            kinds(here),
            links as int,
            before as int,
            (links + link_count(spans)) as int,
        );
        assert(kinds(flattened(spans, plain, links, ambiguous_wide)) =~= kinds(
            flattened(front, plain, links, ambiguous_wide),
        ) + kinds(here));
    }
}

/// The rows of a block number its links one after the other.
pub proof fn lemma_block_climbs<R: ImageResolver>(
    shape: Shape,
    block: Block,
    images: R,
    links: nat,
)
    requires
        links + block_links(block) <= usize::MAX,
    ensures
        climbing(
            row_kinds(block_rows(shape, block, images, links)),
            links as int,
            (links + block_links(block)) as int,
        ),
{
    let aw = shape.ambiguous_wide;
    let lo = links as int;
    let hi = (links + block_links(block)) as int;
    let rows = block_rows(shape, block, images, links);
    let gap = block_gap(shape);
    let empty = Seq::<SpanModel>::empty();
    assert(linkless(span_kinds(empty)));
    lemma_gap_none(shape);
    lemma_linkless(row_kinds(gap), hi, hi);
    match block {
        Block::Heading { level, spans } => {
            let text = crate::doc::plain_text(spans@);
            lemma_plain_rows_none(shape, text, KindModel::Heading(level));
            lemma_none_add(gap, plain_rows(shape, text, KindModel::Heading(level)));
            lemma_linkless(row_kinds(rows), lo, hi);
        },
        Block::Paragraph(spans) => {
            let content = flattened(spans@, KindModel::Plain, links, aw);
            lemma_flattened_climbs(spans@, KindModel::Plain, links, aw);
            lemma_wrapped_rows_climb(shape, content, empty, empty, shape.prose(), lo, hi);
            let body = wrapped_rows(shape, content, empty, empty, shape.prose());
            lemma_climb_add(row_kinds(body), row_kinds(gap), lo, hi, hi);
            lemma_row_kinds_add(body, gap);
        },
        Block::ListItem { ordered, index, depth, spans } => {
            let marker = crate::layout::emit::list_marker(ordered, index, depth);
            let first = span_of(marker, KindModel::Plain);
            let rest = span_of(
                spaces(crate::layout::measure::cells(marker, aw)),
                KindModel::Plain,
            );
            assert(linkless(span_kinds(first)));
            assert(linkless(span_kinds(rest)));
            let content = flattened(spans@, KindModel::Plain, links, aw);
            lemma_flattened_climbs(spans@, KindModel::Plain, links, aw);
            lemma_wrapped_rows_climb(shape, content, first, rest, shape.prose(), lo, hi);
        },
        Block::Blockquote(spans) => {
            let bar = span_of(seq!['▌', ' '], KindModel::Dim);
            assert(linkless(span_kinds(bar)));
            let content = flattened(spans@, KindModel::Quote, links, aw);
            lemma_flattened_climbs(spans@, KindModel::Quote, links, aw);
            lemma_wrapped_rows_climb(shape, content, bar, bar, shape.prose(), lo, hi);
            let body = wrapped_rows(shape, content, bar, bar, shape.prose());
            lemma_climb_add(row_kinds(body), row_kinds(gap), lo, hi, hi);
            lemma_row_kinds_add(body, gap);
        },
        Block::Code { text, lang, tokens } => {
            let lines = crate::text::lines_of(text@);
            lemma_code_none(shape, lines, tokens@, lines.len() as int);
            lemma_none_add(code_rows(shape, lines, tokens@, lines.len() as int), gap);
            lemma_linkless(row_kinds(rows), lo, hi);
        },
        Block::Rule => {
            let n = crate::layout::table::min_nat(
                shape.content_width as nat,
                crate::layout::emit::RULE_MAX_WIDTH as nat,
            ) / crate::layout::table::glyph_cells('─', aw);
            let prefix = span_of(crate::text::run_of('─', n), KindModel::Dim);
            assert(linkless(span_kinds(prefix)));
            assert(linkless(kinds(Seq::<ClusterModel>::empty())));
            lemma_final_none(shape.pad_width as nat, prefix, Seq::empty());
            lemma_one_row(rule_row(shape));
            lemma_linkless(row_kinds(rows), lo, hi);
        },
        Block::Table(table) => {
            lemma_table_none(shape, table);
            lemma_none_add(table_rows(shape, table), gap);
            lemma_linkless(row_kinds(rows), lo, hi);
        },
        Block::Infobox(pairs) => {
            let lines = crate::layout::card::card_lines(
                pairs@,
                crate::layout::emit::top_card_width(shape),
                aw,
            );
            lemma_cut_rows_none(shape, lines, KindModel::Infobox);
            lemma_none_add(cut_rows(shape, lines, KindModel::Infobox), gap);
            lemma_linkless(row_kinds(rows), lo, hi);
        },
        Block::Image { src, alt, caption } => {
            lemma_picture_none(shape, src, alt@, caption, images);
            lemma_none_add(picture_rows(shape, src, alt@, caption, images), gap);
            lemma_linkless(row_kinds(rows), lo, hi);
        },
        Block::Gallery(items) => {
            lemma_strip_none(shape, items@);
            lemma_none_add(gallery_rows(shape, items@), gap);
            lemma_linkless(row_kinds(rows), lo, hi);
        },
        Block::Math { source, tex, display } => {
            lemma_math_none(shape, tex@, display);
            lemma_linkless(row_kinds(rows), lo, hi);
        },
    }
}

} // verus!
