//! From document text to clusters, and from clusters to lines.
use vstd::prelude::*;

use crate::doc::followable;
use crate::doc::is_followable;
use crate::doc::link_count;
use crate::doc::CodeToken;
use crate::doc::Span;
use crate::doc::SpanStyle;
use crate::doc::TokenKind;
use crate::layout::cluster::append_clusters;
use crate::layout::cluster::clusters_from_str;
use crate::layout::cluster::clusters_in;
use crate::layout::cluster::Cluster;
use crate::layout::cluster::ClusterModel;
use crate::layout::fill::fill;
use crate::layout::fill::filled;
use crate::layout::fill::line_models;
use crate::layout::measure::cells;
use crate::layout::measure::display_width;
use crate::layout::measure::grapheme_clusters;
use crate::layout::measure::graphemes;
use crate::layout::types::append_spans;
use crate::layout::types::KindModel;
use crate::layout::types::LaidLine;
use crate::layout::types::LaidSpan;
use crate::layout::types::SpanKind;
use crate::layout::types::SpanModel;
use crate::layout::wrap::build_pieces;
use crate::layout::wrap::pieces_of;
use crate::layout::wrap::WrapOpts;
use crate::text::concat_all;
use crate::text::lemma_concat_push;
use crate::text::repeat_char;
use crate::text::spaces;
use crate::text::views;

verus! {

/// The kind a token of source code is painted as.
pub open spec fn token_kind(k: TokenKind) -> KindModel {
    match k {
        TokenKind::Plain => KindModel::Code,
        TokenKind::Keyword => KindModel::CodeKeyword,
        TokenKind::Str => KindModel::CodeString,
        TokenKind::Comment => KindModel::CodeComment,
        TokenKind::Number => KindModel::CodeNumber,
    }
}

/// The kind a token of source code is painted as.
pub fn token_span_kind(k: TokenKind) -> (r: SpanKind)
    ensures
        r@ == token_kind(k),
{
    match k {
        TokenKind::Plain => SpanKind::Code,
        TokenKind::Keyword => SpanKind::CodeKeyword,
        TokenKind::Str => SpanKind::CodeString,
        TokenKind::Comment => SpanKind::CodeComment,
        TokenKind::Number => SpanKind::CodeNumber,
    }
}

/// One line of tokens as clusters.
pub open spec fn token_clusters(tokens: Seq<CodeToken>, ambiguous_wide: bool) -> Seq<ClusterModel>
    decreases tokens.len(),
{
    if tokens.len() == 0 {
        Seq::empty()
    } else {
        let t = tokens.last();
        token_clusters(tokens.drop_last(), ambiguous_wide) + clusters_in(
            t.text@,
            token_kind(t.kind),
            ambiguous_wide,
        )
    }
}

/// One line of tokens as clusters, each in its token's kind.
pub fn highlight_clusters(tokens: &Vec<CodeToken>, ambiguous_wide: bool) -> (r: Vec<Cluster>)
    ensures
        views(r@) == token_clusters(tokens@, ambiguous_wide),
{
    let mut out: Vec<Cluster> = Vec::new();
    let n: usize = tokens.len();
    assert(views(out@) =~= Seq::empty());
    for i in 0..n
        invariant
            n == tokens.len(),
            views(out@) == token_clusters(tokens@.take(i as int), ambiguous_wide),
    {
        proof { assert(tokens@.take(i + 1).drop_last() =~= tokens@.take(i as int)); }
        let t = &tokens[i];
        let more = clusters_from_str(t.text.as_str(), token_span_kind(t.kind), ambiguous_wide);
        append_clusters(&mut out, more);
    }
    proof { assert(tokens@.take(n as int) =~= tokens@); }
    out
}

/// The kind of an inline run in a block whose plain text is `plain`, where
/// `links` followable links came before it: a fragment target is dimmed, any
/// other link takes the next number.
pub open spec fn kind_of(style: SpanStyle, plain: KindModel, links: nat) -> KindModel {
    match style {
        SpanStyle::Link(_) | SpanStyle::RedLink(_) => if followable(style) {
            KindModel::Link(links as usize)
        } else {
            KindModel::Dim
        },
        SpanStyle::Bold => KindModel::Bold,
        SpanStyle::Italic => KindModel::Italic,
        SpanStyle::Superscript => KindModel::Dim,
        SpanStyle::Plain => plain,
        SpanStyle::Math(_) => KindModel::Math,
        SpanStyle::CitationNeeded => KindModel::CitationNeeded,
    }
}

/// The kind of an inline run; a followable link takes the counter's number
/// and moves it on.
pub fn span_kind(style: &SpanStyle, plain_kind: &SpanKind, link_counter: &mut usize) -> (r:
    SpanKind)
    requires
        *old(link_counter) < usize::MAX || !followable(*style),
    ensures
        r@ == kind_of(*style, plain_kind@, *old(link_counter) as nat),
        *final(link_counter) == *old(link_counter) + if followable(*style) {
            1int
        } else {
            0int
        },
{
    match style {
        SpanStyle::Link(_) | SpanStyle::RedLink(_) => {
            if is_followable(style) {
                let occurrence: usize = *link_counter;
                *link_counter = occurrence + 1;
                SpanKind::Link(occurrence)
            } else {
                SpanKind::Dim
            }
        },
        SpanStyle::Bold => SpanKind::Bold,
        SpanStyle::Italic => SpanKind::Italic,
        SpanStyle::Superscript => SpanKind::Dim,
        SpanStyle::Plain => plain_kind.copy(),
        SpanStyle::Math(_) => SpanKind::Math,
        SpanStyle::CitationNeeded => SpanKind::CitationNeeded,
    }
}

/// A formula as it is displayed: between angle brackets.
pub open spec fn math_text(tex: Seq<char>) -> Seq<char> {
    seq!['⟨'] + tex + seq!['⟩']
}

/// A formula as it is displayed.
pub fn render_math_display(tex: &str) -> (r: String)
    ensures
        r@ == math_text(tex@),
{
    let mut out = String::new();
    out.push('⟨');
    out.push_str(tex);
    out.push('⟩');
    assert(out@ =~= math_text(tex@));
    out
}

/// The text a run displays.
pub open spec fn span_display(span: Span) -> Seq<char> {
    match span.style {
        SpanStyle::Math(tex) => math_text(tex@),
        _ => span.text@,
    }
}

/// Inline runs as clusters, links numbered from `links` on.
pub open spec fn flattened(
    spans: Seq<Span>,
    plain: KindModel,
    links: nat,
    ambiguous_wide: bool,
) -> Seq<ClusterModel>
    decreases spans.len(),
{
    if spans.len() == 0 {
        Seq::empty()
    } else {
        let front = spans.drop_last();
        flattened(front, plain, links, ambiguous_wide) + clusters_in(
            span_display(spans.last()),
            kind_of(spans.last().style, plain, links + link_count(front)),
            ambiguous_wide,
        )
    }
}

/// Inline runs as clusters, links numbered from the counter on.
pub fn flatten_spans(
    spans: &Vec<Span>,
    plain_kind: SpanKind,
    link_counter: &mut usize,
    ambiguous_wide: bool,
) -> (r: Vec<Cluster>)
    requires
        *old(link_counter) + link_count(spans@) <= usize::MAX,
    ensures
        views(r@) == flattened(spans@, plain_kind@, *old(link_counter) as nat, ambiguous_wide),
        *final(link_counter) == *old(link_counter) + link_count(spans@),
{
    let mut out: Vec<Cluster> = Vec::new();
    let n: usize = spans.len();
    let ghost start = *link_counter as nat;
    assert(views(out@) =~= Seq::empty());
    for i in 0..n
        invariant
            n == spans.len(),
            start + link_count(spans@) <= usize::MAX,
            *link_counter == start + link_count(spans@.take(i as int)),
            views(out@) == flattened(spans@.take(i as int), plain_kind@, start, ambiguous_wide),
    {
        proof {
            assert(spans@.take(i + 1).drop_last() =~= spans@.take(i as int));
            lemma_link_count_prefix(spans@, i + 1);
        }
        let span = &spans[i];
        let kind = span_kind(&span.style, &plain_kind, link_counter);
        let more = match &span.style {
            SpanStyle::Math(tex) => {
                let shown = render_math_display(tex.as_str());
                clusters_from_str(shown.as_str(), kind, ambiguous_wide)
            },
            _ => clusters_from_str(span.text.as_str(), kind, ambiguous_wide),
        };
        append_clusters(&mut out, more);
    }
    proof { assert(spans@.take(n as int) =~= spans@); }
    out
}

/// A prefix holds no more links than the whole.
pub proof fn lemma_link_count_prefix(spans: Seq<Span>, i: int)
    requires
        0 <= i <= spans.len(),
    ensures
        link_count(spans.take(i)) <= link_count(spans),
    decreases spans.len(),
{
    if i == spans.len() {
        assert(spans.take(i) =~= spans);
    } else {
        lemma_link_count_prefix(spans.drop_last(), i);
        assert(spans.drop_last().take(i) =~= spans.take(i));
    }
}

/// The lines of the runs before the last hard break, and the run after it.
#[verifier::ext_equal]
pub struct Runs {
    pub lines: Seq<Seq<ClusterModel>>,
    pub open: Seq<ClusterModel>,
}

/// Every run that a hard break ends, filled on its own.
pub open spec fn runs_of(clusters: Seq<ClusterModel>, avail: nat, opts: WrapOpts) -> Runs
    decreases clusters.len(),
{
    if clusters.len() == 0 {
        Runs { lines: Seq::empty(), open: Seq::empty() }
    } else {
        let before = runs_of(clusters.drop_last(), avail, opts);
        if clusters.last().is_newline {
            Runs {
                lines: before.lines + filled(pieces_of(before.open), avail, opts),
                open: Seq::empty(),
            }
        } else {
            Runs { lines: before.lines, open: before.open.push(clusters.last()) }
        }
    }
}

/// A run of clusters as lines, with hard breaks honored.
pub open spec fn wrapped(clusters: Seq<ClusterModel>, avail: nat, opts: WrapOpts) -> Seq<
    Seq<ClusterModel>,
> {
    let runs = runs_of(clusters, avail, opts);
    runs.lines + filled(pieces_of(runs.open), avail, opts)
}

fn append_lines(out: &mut Vec<Vec<Cluster>>, more: Vec<Vec<Cluster>>)
    ensures
        line_models(final(out)@) == line_models(old(out)@) + line_models(more@),
{
    let mut rest = more;
    out.append(&mut rest);
    assert(line_models(out@) =~= line_models(old(out)@) + line_models(more@));
}

/// Wraps a run of clusters into lines, with hard breaks honored.
pub fn wrap_content(clusters: Vec<Cluster>, avail: usize, opts: WrapOpts) -> (r: Vec<Vec<Cluster>>)
    requires
        avail < usize::MAX,
        opts.word_spacing < usize::MAX,
    ensures
        line_models(r@) == wrapped(views(clusters@), avail as nat, opts),
{
    let mut out: Vec<Vec<Cluster>> = Vec::new();
    let mut sub: Vec<Cluster> = Vec::new();
    let ghost all = views(clusters@);
    let n: usize = clusters.len();
    proof {
        assert(line_models(out@) =~= Seq::empty());
        assert(views(sub@) =~= Seq::empty());
    }
    for i in 0..n
        invariant
            n == clusters.len(),
            all == views(clusters@),
            avail < usize::MAX,
            opts.word_spacing < usize::MAX,
            line_models(out@) == runs_of(all.take(i as int), avail as nat, opts).lines,
            views(sub@) == runs_of(all.take(i as int), avail as nat, opts).open,
    {
        proof {
            assert(all.take(i + 1).drop_last() =~= all.take(i as int));
            assert(all.take(i + 1).last() == clusters@[i as int]@);
        }
        if clusters[i].is_newline {
            let lines = fill(build_pieces(&sub), avail, opts);
            append_lines(&mut out, lines);
            sub = Vec::new();
            proof { assert(views(sub@) =~= Seq::empty()); }
        } else {
            let ghost pre = sub@;
            sub.push(clusters[i].copy());
            proof { assert(views(sub@) =~= views(pre).push(all[i as int])); }
        }
    }
    proof { assert(all.take(n as int) =~= all); }
    let lines = fill(build_pieces(&sub), avail, opts);
    append_lines(&mut out, lines);
    out
}

/// How many of `parts` fit into `width` cells, from the first on.
pub open spec fn fitting(parts: Seq<Seq<char>>, width: nat, ambiguous_wide: bool) -> nat
    decreases parts.len(),
{
    if parts.len() == 0 || cells(parts[0], ambiguous_wide) > width {
        0
    } else {
        1 + fitting(
            parts.drop_first(),
            (width - cells(parts[0], ambiguous_wide)) as nat,
            ambiguous_wide,
        )
    }
}

/// As many of a string's leading clusters as fit into `width` cells.
pub open spec fn truncated(s: Seq<char>, width: nat, ambiguous_wide: bool) -> Seq<char> {
    let parts = grapheme_clusters(s);
    concat_all(parts.take(fitting(parts, width, ambiguous_wide) as int))
}

/// As many of a string's leading clusters as fit into `width` cells.
pub fn truncate_to_width(s: &str, width: usize, ambiguous_wide: bool) -> (r: String)
    ensures
        r@ == truncated(s@, width as nat, ambiguous_wide),
        cells(r@, ambiguous_wide) <= width,
{
    let gs = graphemes(s);
    let ghost parts = views(gs@);
    let n: usize = gs.len();
    let mut out = String::new();
    let mut left: usize = width;
    let mut i: usize = 0;
    proof { assert(parts.skip(0) =~= parts); }
    while i < n
        invariant
            n == gs.len(),
            i <= n,
            parts == views(gs@),
            parts == grapheme_clusters(s@),
            left <= width,
            fitting(parts, width as nat, ambiguous_wide) == i + fitting(
                parts.skip(i as int),
                left as nat,
                ambiguous_wide,
            ),
            out@ == concat_all(parts.take(i as int)),
            cells(out@, ambiguous_wide) + left == width,
        decreases n - i,
    {
        let w: usize = display_width(gs[i].as_str(), ambiguous_wide);
        proof {
            assert(parts.skip(i as int)[0] == gs@[i as int]@);
            assert(parts.skip(i as int).drop_first() =~= parts.skip(i + 1));
        }
        if w > left {
            return out;
        }
        left = left - w;
        proof {
            lemma_concat_push(parts.take(i as int), parts[i as int]);
            assert(parts.take(i as int).push(parts[i as int]) =~= parts.take(i + 1));
            crate::layout::measure::cells_additive(out@, gs@[i as int]@, ambiguous_wide);
        }
        out.push_str(gs[i].as_str());
        i = i + 1;
    }
    out
}

/// Adjacent clusters of one kind as one span.
pub open spec fn coalesced(content: Seq<ClusterModel>) -> Seq<SpanModel>
    decreases content.len(),
{
    if content.len() == 0 {
        Seq::empty()
    } else {
        let before = coalesced(content.drop_last());
        let c = content.last();
        if before.len() > 0 && before.last().kind == c.kind {
            before.drop_last().push(
                SpanModel { text: before.last().text + c.text, kind: c.kind },
            )
        } else {
            before.push(SpanModel { text: c.text, kind: c.kind })
        }
    }
}

/// The left pad, unless it is empty.
pub open spec fn pad_spans(pad: nat) -> Seq<SpanModel> {
    if pad > 0 {
        seq![SpanModel { text: spaces(pad), kind: KindModel::Plain }]
    } else {
        Seq::empty()
    }
}

/// A line: the left pad, the prefix, and the content with its adjacent
/// clusters of one kind joined.
pub open spec fn final_line(
    pad: nat,
    prefix: Seq<SpanModel>,
    content: Seq<ClusterModel>,
) -> Seq<SpanModel> {
    pad_spans(pad) + prefix + coalesced(content)
}

fn coalesce(content: &Vec<Cluster>) -> (r: Vec<LaidSpan>)
    ensures
        views(r@) == coalesced(views(content@)),
{
    let mut out: Vec<LaidSpan> = Vec::new();
    let ghost all = views(content@);
    let n: usize = content.len();
    assert(views(out@) =~= Seq::empty());
    for i in 0..n
        invariant
            n == content.len(),
            all == views(content@),
            views(out@) == coalesced(all.take(i as int)),
    {
        proof {
            assert(all.take(i + 1).drop_last() =~= all.take(i as int));
            assert(all.take(i + 1).last() == content@[i as int]@);
        }
        let c = &content[i];
        let ghost before = out@;
        match out.pop() {
            Some(last) => {
                let ghost popped = out@;
                proof {
                    assert(before =~= popped.push(last));
                    assert(views(before) =~= views(popped).push(last@));
                    assert(views(before).drop_last() =~= views(popped));
                }
                if last.kind.same(&c.kind) {
                    let mut text = last.text;
                    text.push_str(c.text.as_str());
                    out.push(LaidSpan { text, kind: last.kind });
                    proof { assert(views(out@) =~= views(popped).push(out@.last()@)); }
                } else {
                    out.push(last);
                    let ghost mid = out@;
                    proof { assert(mid =~= before); }
                    out.push(LaidSpan { text: c.text.clone(), kind: c.kind.copy() });
                    proof { assert(views(out@) =~= views(mid).push(out@.last()@)); }
                }
            },
            None => {
                out.push(LaidSpan { text: c.text.clone(), kind: c.kind.copy() });
                proof {
                    assert(views(before) =~= Seq::empty());
                    assert(views(out@) =~= views(before).push(out@.last()@));
                }
            },
        }
    }
    proof { assert(all.take(n as int) =~= all); }
    out
}

/// Builds a line from a left pad, a prefix, and wrapped content.
pub fn finalize(pad_width: usize, prefix: &Vec<LaidSpan>, content: &Vec<Cluster>) -> (r: LaidLine)
    ensures
        r@ == final_line(pad_width as nat, views(prefix@), views(content@)),
{
    let mut spans: Vec<LaidSpan> = Vec::new();
    if pad_width > 0 {
        spans.push(LaidSpan { text: repeat_char(' ', pad_width), kind: SpanKind::Plain });
    }
    proof { assert(views(spans@) =~= pad_spans(pad_width as nat)); }
    append_spans(&mut spans, prefix);
    let body = coalesce(content);
    append_spans(&mut spans, &body);
    LaidLine { spans }
}

} // verus!
