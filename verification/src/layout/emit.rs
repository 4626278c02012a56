//! Laying out one block after another.
use vstd::prelude::*;

use crate::doc::flatten_plain;
use crate::doc::link_count;
use crate::doc::plain_text;
use crate::doc::Block;
use crate::doc::CodeToken;
use crate::doc::GalleryItem;
use crate::doc::Table;
use crate::layout::card::card_lines;
use crate::layout::card::infobox_card_lines;
use crate::layout::card::minus;
use crate::layout::card::INFOBOX_CARD_WIDTH;
use crate::layout::cluster::clusters_from_str;
use crate::layout::cluster::clusters_in;
use crate::layout::cluster::Cluster;
use crate::layout::cluster::ClusterModel;
use crate::layout::fill::chunk_by_width;
use crate::layout::fill::chunks_of;
use crate::layout::fill::line_models;
use crate::layout::line::final_line;
use crate::layout::line::finalize;
use crate::layout::line::flatten_spans;
use crate::layout::line::flattened;
use crate::layout::line::highlight_clusters;
use crate::layout::line::math_text;
use crate::layout::line::render_math_display;
use crate::layout::line::token_clusters;
use crate::layout::line::truncate_to_width;
use crate::layout::line::truncated;
use crate::layout::line::wrap_content;
use crate::layout::line::wrapped;
use crate::layout::measure::cells;
use crate::layout::measure::display_width;
use crate::layout::table::drawable;
use crate::layout::table::glyph_cells;
use crate::layout::table::glyph_width;
use crate::layout::table::grid_lines;
use crate::layout::table::max_nat;
use crate::layout::table::min_nat;
use crate::layout::table::natural_col_widths;
use crate::layout::table::natural_width;
use crate::layout::table::plan_table;
use crate::layout::table::planned;
use crate::layout::table::render_grid_lines;
use crate::layout::table::PlanModel;
use crate::layout::table::TablePlan;
use crate::layout::types::line_cells;
use crate::layout::types::spans_width;
use crate::layout::types::ImageResolver;
use crate::layout::types::KindModel;
use crate::layout::types::LaidLine;
use crate::layout::types::LaidSpan;
use crate::layout::types::SpanKind;
use crate::layout::types::SpanModel;
use crate::layout::types::IMAGE_MIN_COLS;
use crate::layout::wrap::WrapOpts;
use crate::text::decimal;
use crate::text::decimal_string;
use crate::text::lines_of;
use crate::text::repeat_char;
use crate::text::run_of;
use crate::text::spaces;
use crate::text::split_lines;
use crate::text::views;

verus! {

/// Below this width a gallery is a list and not a strip.
pub const GALLERY_STRIP_MIN_WIDTH: usize = 60;

/// The longest horizontal rule.
pub const RULE_MAX_WIDTH: usize = 40;

/// The cells before a line of code.
pub const CODE_GUTTER: usize = 4;

/// The column that blocks are laid out in, and how.
#[derive(Debug, Clone, Copy)]
pub struct Shape {
    pub pad_width: usize,
    pub content_width: usize,
    pub ambiguous_wide: bool,
    pub paragraph_spacing: usize,
    pub line_spacing: usize,
    pub word_spacing: usize,
    pub justify: bool,
    pub hyphenate: bool,
    pub accessible: bool,
    pub table_offset: usize,
}

impl Shape {
    /// The column is one that a terminal can have, and not empty.
    pub open spec fn wf(self) -> bool {
        &&& 1 <= self.content_width <= 0xFFFF
        &&& self.pad_width <= 0xFFFF
        &&& self.word_spacing <= 0xFF
    }

    /// How prose is wrapped.
    pub open spec fn prose(self) -> WrapOpts {
        WrapOpts {
            word_spacing: self.word_spacing,
            justify: self.justify,
            hyphenate: self.hyphenate,
        }
    }

    /// How everything else is wrapped.
    pub open spec fn plain(self) -> WrapOpts {
        WrapOpts { word_spacing: self.word_spacing, justify: false, hyphenate: false }
    }

    /// How prose is wrapped.
    pub fn prose_wrap_opts(&self) -> (r: WrapOpts)
        ensures
            r == self.prose(),
    {
        WrapOpts {
            word_spacing: self.word_spacing,
            justify: self.justify,
            hyphenate: self.hyphenate,
        }
    }
}

/// One row: its spans, and whether it runs on from the row before it.
#[verifier::ext_equal]
pub struct Row {
    pub line: Seq<SpanModel>,
    pub cont: bool,
}

/// A row of its own.
pub open spec fn own_row(line: Seq<SpanModel>) -> Row {
    Row { line, cont: false }
}

/// `n` blank rows.
pub open spec fn blank_rows(shape: Shape, n: nat) -> Seq<Row> {
    Seq::new(
        n,
        |i: int| own_row(final_line(shape.pad_width as nat, Seq::empty(), Seq::empty())),
    )
}

/// The gap between blocks.
pub open spec fn block_gap(shape: Shape) -> Seq<Row> {
    blank_rows(shape, shape.paragraph_spacing as nat)
}

/// The gap after a line of prose.
pub open spec fn line_gap(shape: Shape) -> Seq<Row> {
    blank_rows(shape, shape.line_spacing as nat)
}

/// The first `n` of `lines` as rows, each followed by the line gap; the first
/// takes one prefix and the others another.
pub open spec fn spaced_rows(
    shape: Shape,
    lines: Seq<Seq<ClusterModel>>,
    first: Seq<SpanModel>,
    rest: Seq<SpanModel>,
    n: int,
) -> Seq<Row>
    decreases n,
{
    if n <= 0 {
        Seq::empty()
    } else {
        let prefix = if n == 1 {
            first
        } else {
            rest
        };
        spaced_rows(shape, lines, first, rest, n - 1).push(
            Row { line: final_line(shape.pad_width as nat, prefix, lines[n - 1]), cont: n > 1 },
        ) + line_gap(shape)
    }
}

/// The cells of the widest cluster that is neither a gap nor a hard break, one
/// at least.
pub open spec fn widest(content: Seq<ClusterModel>) -> nat
    decreases content.len(),
{
    if content.len() == 0 {
        1
    } else {
        let before = widest(content.drop_last());
        let c = content.last();
        if !c.is_space && !c.is_newline && c.width > before {
            c.width
        } else {
            before
        }
    }
}

/// Whether a prefix leaves room beside it for every cluster of the content.
pub open spec fn prefix_fits(
    shape: Shape,
    first: Seq<SpanModel>,
    content: Seq<ClusterModel>,
) -> bool {
    line_cells(first, shape.ambiguous_wide) + widest(content) <= shape.content_width
}

/// The cells that are left for content beside a prefix; a prefix that leaves
/// too few is dropped.
pub open spec fn wrap_width(
    shape: Shape,
    first: Seq<SpanModel>,
    content: Seq<ClusterModel>,
) -> nat {
    if prefix_fits(shape, first, content) {
        (shape.content_width - line_cells(first, shape.ambiguous_wide)) as nat
    } else {
        shape.content_width as nat
    }
}

/// Content that wraps under a hanging prefix.
pub open spec fn wrapped_rows(
    shape: Shape,
    content: Seq<ClusterModel>,
    first: Seq<SpanModel>,
    rest: Seq<SpanModel>,
    opts: WrapOpts,
) -> Seq<Row> {
    let lines = wrapped(content, wrap_width(shape, first, content), opts);
    let head = if prefix_fits(shape, first, content) {
        first
    } else {
        Seq::empty()
    };
    let tail = if prefix_fits(shape, first, content) {
        rest
    } else {
        Seq::empty()
    };
    if lines.len() == 0 {
        seq![own_row(final_line(shape.pad_width as nat, head, Seq::empty()))] + line_gap(shape)
    } else {
        spaced_rows(shape, lines, head, tail, lines.len() as int)
    }
}

/// Text of one kind that wraps plainly.
pub open spec fn plain_rows(shape: Shape, text: Seq<char>, kind: KindModel) -> Seq<Row> {
    wrapped_rows(
        shape,
        clusters_in(text, kind, shape.ambiguous_wide),
        Seq::empty(),
        Seq::empty(),
        shape.plain(),
    )
}

/// Lines as rows without gaps; all but the first run on where `cont` is set.
pub open spec fn tight_rows(
    shape: Shape,
    prefix: Seq<SpanModel>,
    lines: Seq<Seq<ClusterModel>>,
    cont: bool,
) -> Seq<Row> {
    Seq::new(
        lines.len(),
        |i: int|
            Row {
                line: final_line(shape.pad_width as nat, prefix, lines[i]),
                cont: cont && i > 0,
            },
    )
}

/// Strings as rows, each cut to the column.
pub open spec fn cut_rows(shape: Shape, lines: Seq<Seq<char>>, kind: KindModel) -> Seq<Row> {
    lines.map_values(
        |l: Seq<char>|
            own_row(
                final_line(
                    shape.pad_width as nat,
                    Seq::empty(),
                    clusters_in(
                        truncated(l, shape.content_width as nat, shape.ambiguous_wide),
                        kind,
                        shape.ambiguous_wide,
                    ),
                ),
            ),
    )
}

/// One span.
pub open spec fn span_of(text: Seq<char>, kind: KindModel) -> Seq<SpanModel> {
    seq![SpanModel { text, kind }]
}

/// The marker of a list item: its indent, its number or bullet, and a space.
pub open spec fn list_marker(ordered: bool, index: u32, depth: u8) -> Seq<char> {
    let bullet = if ordered {
        decimal(index as nat).push('.')
    } else {
        seq!['•']
    };
    (spaces(2 * depth as nat) + bullet).push(' ')
}

/// One line of code.
pub open spec fn code_line(
    shape: Shape,
    line: Seq<char>,
    tokens: Seq<Vec<CodeToken>>,
    i: int,
) -> Seq<Row> {
    let clusters = if i < tokens.len() {
        token_clusters(tokens[i]@, shape.ambiguous_wide)
    } else {
        clusters_in(line, KindModel::Code, shape.ambiguous_wide)
    };
    let gutter = span_of(spaces(CODE_GUTTER as nat), KindModel::Code);
    let chunks = chunks_of(clusters, minus(shape.content_width as nat, CODE_GUTTER as nat));
    if chunks.len() == 0 {
        seq![own_row(final_line(shape.pad_width as nat, gutter, Seq::empty()))]
    } else {
        tight_rows(shape, gutter, chunks, true)
    }
}

/// The first `n` lines of code.
pub open spec fn code_rows(
    shape: Shape,
    lines: Seq<Seq<char>>,
    tokens: Seq<Vec<CodeToken>>,
    n: int,
) -> Seq<Row>
    decreases n,
{
    if n <= 0 {
        Seq::empty()
    } else {
        code_rows(shape, lines, tokens, n - 1) + code_line(shape, lines[n - 1], tokens, n - 1)
    }
}

/// A horizontal rule.
pub open spec fn rule_row(shape: Shape) -> Row {
    let n = min_nat(shape.content_width as nat, RULE_MAX_WIDTH as nat) / glyph_cells(
        '─',
        shape.ambiguous_wide,
    );
    own_row(
        final_line(
            shape.pad_width as nat,
            span_of(run_of('─', n), KindModel::Dim),
            Seq::empty(),
        ),
    )
}

/// One line of a table's list form.
pub open spec fn list_line_rows(shape: Shape, line: Seq<char>) -> Seq<Row> {
    if line.len() == 0 {
        seq![own_row(final_line(shape.pad_width as nat, Seq::empty(), Seq::empty()))]
    } else {
        tight_rows(
            shape,
            Seq::empty(),
            wrapped(
                clusters_in(line, KindModel::Table, shape.ambiguous_wide),
                shape.content_width as nat,
                shape.plain(),
            ),
            false,
        )
    }
}

/// The first `n` lines of a table's list form.
pub open spec fn list_form_rows(shape: Shape, lines: Seq<Seq<char>>, n: int) -> Seq<Row>
    decreases n,
{
    if n <= 0 {
        Seq::empty()
    } else {
        list_form_rows(shape, lines, n - 1) + list_line_rows(shape, lines[n - 1])
    }
}

/// The natural widths of a table's columns.
pub open spec fn natural_widths(table: Table, ambiguous_wide: bool) -> Seq<usize> {
    Seq::new(
        table.col_count(),
        |c: int| natural_width(table.rows@, c, ambiguous_wide) as usize,
    )
}

/// A table: as a list or as a grid.
pub open spec fn table_rows(shape: Shape, table: Table) -> Seq<Row> {
    let plan = planned(
        natural_widths(table, shape.ambiguous_wide),
        shape.content_width as nat,
        shape.accessible,
        shape.table_offset as nat,
        glyph_cells('│', shape.ambiguous_wide),
    );
    match plan {
        PlanModel::Collapse => list_form_rows(
            shape,
            table.list_lines(),
            table.list_lines().len() as int,
        ),
        PlanModel::Grid { first_col, widths } => cut_rows(
            shape,
            grid_lines(table, first_col as int, widths, shape.ambiguous_wide),
            KindModel::Table,
        ),
    }
}

/// The width of a card that stands on its own.
pub open spec fn top_card_width(shape: Shape) -> nat {
    max_nat(
        min_nat(shape.content_width as nat, INFOBOX_CARD_WIDTH as nat),
        2 * glyph_cells('│', shape.ambiguous_wide) + 3,
    )
}

/// An infobox as a card on its own.
pub open spec fn top_card_rows(shape: Shape, rows: Seq<(String, String)>) -> Seq<Row> {
    cut_rows(
        shape,
        card_lines(rows, top_card_width(shape), shape.ambiguous_wide),
        KindModel::Infobox,
    )
}

/// The rows reserved for an image's box.
pub open spec fn image_box_rows(shape: Shape, src: Seq<char>, cols: nat, rows: u16) -> Seq<Row> {
    Seq::new(
        rows as nat,
        |i: int|
            Row {
                line: final_line(
                    shape.pad_width as nat,
                    span_of(
                        spaces(cols),
                        KindModel::ImageRow { src, row: i as u16, rows },
                    ),
                    Seq::empty(),
                ),
                cont: i > 0,
            },
    )
}

/// The box an image gets, columns and rows, where it gets one: the source
/// resolves, and the box is wide enough and not empty.
pub open spec fn reserved_box<R: ImageResolver>(
    shape: Shape,
    src: Option<String>,
    images: R,
) -> Option<(nat, u16)> {
    match src {
        Some(s) => match images.box_of(s@) {
            Some((cols, rows)) => {
                let fit = min_nat(cols as nat, shape.content_width as nat);
                if fit >= IMAGE_MIN_COLS && rows >= 1 {
                    Some((fit, rows))
                } else {
                    None
                }
            },
            None => None,
        },
        None => None,
    }
}

/// The placeholder of a picture.
pub open spec fn placeholder(alt: Seq<char>) -> Seq<char> {
    ("[image: "@ + alt).push(']')
}

/// An image: its box, or its placeholder.
pub open spec fn image_rows<R: ImageResolver>(
    shape: Shape,
    src: Option<String>,
    alt: Seq<char>,
    images: R,
) -> Seq<Row> {
    match reserved_box(shape, src, images) {
        Some((cols, rows)) => image_box_rows(shape, src->0@, cols, rows),
        None => plain_rows(shape, placeholder(alt), KindModel::Image),
    }
}

/// An image with its caption.
pub open spec fn picture_rows<R: ImageResolver>(
    shape: Shape,
    src: Option<String>,
    alt: Seq<char>,
    caption: Option<String>,
    images: R,
) -> Seq<Row> {
    let picture = image_rows(shape, src, alt, images);
    match caption {
        Some(text) => picture + plain_rows(shape, text@, KindModel::Caption),
        None => picture,
    }
}

/// The first `n` captions of a strip, in brackets, three spaces apart.
pub open spec fn strip_text(items: Seq<GalleryItem>, n: int) -> Seq<char>
    decreases n,
{
    if n <= 0 {
        Seq::empty()
    } else {
        let before = strip_text(items, n - 1);
        let gap = if n > 1 {
            before + spaces(3)
        } else {
            before
        };
        (gap.push('[') + items[n - 1].caption@).push(']')
    }
}

/// The first `n` pictures of a gallery as a list.
pub open spec fn gallery_list(shape: Shape, items: Seq<GalleryItem>, n: int) -> Seq<Row>
    decreases n,
{
    if n <= 0 {
        Seq::empty()
    } else {
        gallery_list(shape, items, n - 1) + plain_rows(
            shape,
            placeholder(items[n - 1].caption@),
            KindModel::Image,
        )
    }
}

/// A gallery: a captioned strip where there is room, else a list.
pub open spec fn gallery_rows(shape: Shape, items: Seq<GalleryItem>) -> Seq<Row> {
    if shape.content_width >= GALLERY_STRIP_MIN_WIDTH && items.len() > 1 {
        tight_rows(
            shape,
            Seq::empty(),
            wrapped(
                clusters_in(
                    strip_text(items, items.len() as int),
                    KindModel::Caption,
                    shape.ambiguous_wide,
                ),
                shape.content_width as nat,
                shape.plain(),
            ),
            true,
        )
    } else {
        gallery_list(shape, items, items.len() as int)
    }
}

/// A formula of its own: centered where it is a display equation.
pub open spec fn math_rows(shape: Shape, tex: Seq<char>, display: bool) -> Seq<Row> {
    let text = math_text(tex);
    let body = if display {
        let pad = span_of(
            spaces(minus(shape.content_width as nat, cells(text, shape.ambiguous_wide)) / 2),
            KindModel::Plain,
        );
        wrapped_rows(
            shape,
            clusters_in(text, KindModel::Math, shape.ambiguous_wide),
            pad,
            pad,
            shape.plain(),
        )
    } else {
        plain_rows(shape, text, KindModel::Math)
    };
    block_gap(shape) + body + block_gap(shape)
}

/// How many followable links a block holds.
pub open spec fn block_links(block: Block) -> nat {
    match block {
        Block::Paragraph(spans) => link_count(spans@),
        Block::Blockquote(spans) => link_count(spans@),
        Block::ListItem { spans, .. } => link_count(spans@),
        _ => 0,
    }
}

/// The rows of a block whose first link has number `links`.
pub open spec fn block_rows<R: ImageResolver>(
    shape: Shape,
    block: Block,
    images: R,
    links: nat,
) -> Seq<Row> {
    let aw = shape.ambiguous_wide;
    match block {
        Block::Heading { level, spans } => block_gap(shape) + plain_rows(
            shape,
            plain_text(spans@),
            KindModel::Heading(level),
        ),
        Block::Paragraph(spans) => wrapped_rows(
            shape,
            flattened(spans@, KindModel::Plain, links, aw),
            Seq::empty(),
            Seq::empty(),
            shape.prose(),
        ) + block_gap(shape),
        Block::ListItem { ordered, index, depth, spans } => {
            let marker = list_marker(ordered, index, depth);
            wrapped_rows(
                shape,
                flattened(spans@, KindModel::Plain, links, aw),
                span_of(marker, KindModel::Plain),
                span_of(spaces(cells(marker, aw)), KindModel::Plain),
                shape.prose(),
            )
        },
        Block::Blockquote(spans) => wrapped_rows(
            shape,
            flattened(spans@, KindModel::Quote, links, aw),
            span_of(seq!['▌', ' '], KindModel::Dim),
            span_of(seq!['▌', ' '], KindModel::Dim),
            shape.prose(),
        ) + block_gap(shape),
        Block::Code { text, lang, tokens } => code_rows(
            shape,
            lines_of(text@),
            tokens@,
            lines_of(text@).len() as int,
        ) + block_gap(shape),
        Block::Rule => seq![rule_row(shape)],
        Block::Table(table) => table_rows(shape, table) + block_gap(shape),
        Block::Infobox(rows) => top_card_rows(shape, rows@) + block_gap(shape),
        Block::Image { src, alt, caption } => picture_rows(shape, src, alt@, caption, images)
            + block_gap(shape),
        Block::Gallery(items) => gallery_rows(shape, items@) + block_gap(shape),
        Block::Math { tex, display, .. } => math_rows(shape, tex@, display),
    }
}

/// How far into its rows a block's anchor lies: a heading's is its own text,
/// past the gap.
pub open spec fn anchor_offset(shape: Shape, block: Block) -> nat {
    match block {
        Block::Heading { .. } => shape.paragraph_spacing as nat,
        _ => 0,
    }
}

/// The rows laid out so far, and the column they are laid out in.
pub struct Emitter {
    pub lines: Vec<LaidLine>,
    /// For each line, whether it runs on from the one before it.
    pub flags: Vec<bool>,
    pub shape: Shape,
}

/// The rows that lines and flags make up.
pub open spec fn rows_model(lines: Seq<LaidLine>, flags: Seq<bool>) -> Seq<Row> {
    Seq::new(lines.len(), |i: int| Row { line: lines[i]@, cont: flags[i] })
}

/// An empty list of spans.
fn no_spans() -> (r: Vec<LaidSpan>)
    ensures
        views(r@) == Seq::<SpanModel>::empty(),
{
    let r: Vec<LaidSpan> = Vec::new();
    assert(views(r@) =~= Seq::empty());
    r
}

/// A list of one span.
fn one_span(text: String, kind: SpanKind) -> (r: Vec<LaidSpan>)
    ensures
        views(r@) == span_of(text@, kind@),
{
    let mut r: Vec<LaidSpan> = Vec::new();
    r.push(LaidSpan { text, kind });
    assert(views(r@) =~= span_of(text@, kind@));
    r
}

/// An empty run of clusters.
fn no_clusters() -> (r: Vec<Cluster>)
    ensures
        views(r@) == Seq::<ClusterModel>::empty(),
{
    let r: Vec<Cluster> = Vec::new();
    assert(views(r@) =~= Seq::empty());
    r
}

/// The cells of the widest cluster that is neither a gap nor a hard break, one
/// at least.
fn widest_cluster(content: &Vec<Cluster>) -> (r: usize)
    ensures
        r as nat == widest(views(content@)),
        r >= 1,
{
    let ghost all = views(content@);
    let n: usize = content.len();
    let mut out: usize = 1;
    for i in 0..n
        invariant
            n == content.len(),
            all == views(content@),
            out as nat == widest(all.take(i as int)),
            out >= 1,
    {
        let c = &content[i];
        proof {
            assert(all.take(i + 1).drop_last() =~= all.take(i as int));
            assert(all.take(i + 1).last() == c@);
        }
        if !c.is_space && !c.is_newline && c.width > out {
            out = c.width;
        }
    }
    proof { assert(all.take(n as int) =~= all); }
    out
}

impl Emitter {
    /// Every line has its flag, and the column is a proper one.
    pub open spec fn wf(self) -> bool {
        self.lines@.len() == self.flags@.len() && self.shape.wf()
    }

    /// The rows laid out so far.
    pub open spec fn rows(self) -> Seq<Row> {
        rows_model(self.lines@, self.flags@)
    }

    /// Nothing laid out yet.
    pub fn new(shape: Shape) -> (r: Self)
        requires
            shape.wf(),
        ensures
            r.wf(),
            r.shape == shape,
            r.rows() == Seq::<Row>::empty(),
    {
        let r = Emitter { lines: Vec::new(), flags: Vec::new(), shape };
        assert(r.rows() =~= Seq::empty());
        r
    }

    /// The single point every line passes through.
    pub fn push_line(&mut self, line: LaidLine, continues_prev: bool)
        requires
            old(self).wf(),
        ensures
            final(self).wf(),
            final(self).shape == old(self).shape,
            final(self).rows() == old(self).rows().push(Row { line: line@, cont: continues_prev }),
    {
        self.lines.push(line);
        self.flags.push(continues_prev);
        assert(self.rows() =~= old(self).rows().push(Row { line: line@, cont: continues_prev }));
    }

    fn push_blanks(&mut self, n: usize)
        requires
            old(self).wf(),
        ensures
            final(self).wf(),
            final(self).shape == old(self).shape,
            final(self).rows() == old(self).rows() + blank_rows(old(self).shape, n as nat),
    {
        let ghost base = self.rows();
        let ghost shape = self.shape;
        proof { assert(base + blank_rows(shape, 0) =~= base); }
        for i in 0..n
            invariant
                self.wf(),
                self.shape == shape,
                self.rows() == base + blank_rows(shape, i as nat),
        {
            let line = finalize(self.shape.pad_width, &no_spans(), &no_clusters());
            self.push_line(line, false);
            proof {
                assert(base + blank_rows(shape, (i + 1) as nat) =~= (base + blank_rows(
                    shape,
                    i as nat,
                )).push(own_row(line@)));
            }
        }
    }

    /// The gap between blocks.
    pub fn blank(&mut self)
        requires
            old(self).wf(),
        ensures
            final(self).wf(),
            final(self).shape == old(self).shape,
            final(self).rows() == old(self).rows() + block_gap(old(self).shape),
    {
        self.push_blanks(self.shape.paragraph_spacing);
    }

    /// The gap after a line of prose.
    pub fn line_spacing_filler(&mut self)
        requires
            old(self).wf(),
        ensures
            final(self).wf(),
            final(self).shape == old(self).shape,
            final(self).rows() == old(self).rows() + line_gap(old(self).shape),
    {
        self.push_blanks(self.shape.line_spacing);
    }

    /// Content that wraps under a hanging prefix; the prefix is dropped where
    /// it would leave no room, so that no line reaches past the column.
    pub fn emit_wrapped(
        &mut self,
        content: Vec<Cluster>,
        first_prefix: Vec<LaidSpan>,
        cont_prefix: Vec<LaidSpan>,
        opts: WrapOpts,
    )
        requires
            old(self).wf(),
            opts.word_spacing <= 0xFF,
        ensures
            final(self).wf(),
            final(self).shape == old(self).shape,
            final(self).rows() == old(self).rows() + wrapped_rows(
                old(self).shape,
                views(content@),
                views(first_prefix@),
                views(cont_prefix@),
                opts,
            ),
    {
        let ghost shape = self.shape;
        let ghost base = self.rows();
        let prefix_width: usize = spans_width(&first_prefix, self.shape.ambiguous_wide);
        let needed: usize = widest_cluster(&content);
        let fits = prefix_width < self.shape.content_width && needed <= self.shape.content_width
            - prefix_width;
        let avail: usize = if fits {
            self.shape.content_width - prefix_width
        } else {
            self.shape.content_width
        };
        let head = if fits {
            first_prefix
        } else {
            no_spans()
        };
        let tail = if fits {
            cont_prefix
        } else {
            no_spans()
        };
        let lines = wrap_content(content, avail, opts);
        let ghost models = line_models(lines@);
        let n: usize = lines.len();
        if n == 0 {
            let line = finalize(self.shape.pad_width, &head, &no_clusters());
            self.push_line(line, false);
            self.line_spacing_filler();
            proof {
                assert(self.rows() =~= base + (seq![own_row(line@)] + line_gap(shape)));
            }
            return;
        }
        proof {
            assert(base + Seq::<Row>::empty() =~= base);
        }
        for i in 0..n
            invariant
                n == lines.len(),
                models == line_models(lines@),
                self.wf(),
                self.shape == shape,
                self.rows() == base + spaced_rows(
                    shape,
                    models,
                    views(head@),
                    views(tail@),
                    i as int,
                ),
        {
            let ghost before = spaced_rows(shape, models, views(head@), views(tail@), i as int);
            let line = if i == 0 {
                finalize(self.shape.pad_width, &head, &lines[i])
            } else {
                finalize(self.shape.pad_width, &tail, &lines[i])
            };
            self.push_line(line, i > 0);
            self.line_spacing_filler();
            proof {
                let row = Row { line: line@, cont: i > 0 };
                assert(self.rows() =~= base + (before.push(row) + line_gap(shape)));
            }
        }
    }

    /// Text of one kind that wraps plainly.
    pub fn emit_plain(&mut self, text: &str, kind: SpanKind)
        requires
            old(self).wf(),
        ensures
            final(self).wf(),
            final(self).shape == old(self).shape,
            final(self).rows() == old(self).rows() + plain_rows(old(self).shape, text@, kind@),
    {
        let content = clusters_from_str(text, kind, self.shape.ambiguous_wide);
        self.emit_plain_wrapped(content);
    }

    /// Content that wraps plainly, with no prefix.
    pub fn emit_plain_wrapped(&mut self, content: Vec<Cluster>)
        requires
            old(self).wf(),
        ensures
            final(self).wf(),
            final(self).shape == old(self).shape,
            final(self).rows() == old(self).rows() + wrapped_rows(
                old(self).shape,
                views(content@),
                Seq::empty(),
                Seq::empty(),
                old(self).shape.plain(),
            ),
    {
        let opts = WrapOpts::plain(self.shape.word_spacing);
        self.emit_wrapped(content, no_spans(), no_spans(), opts);
    }

    fn emit_tight(&mut self, prefix: &Vec<LaidSpan>, lines: &Vec<Vec<Cluster>>, cont: bool)
        requires
            old(self).wf(),
        ensures
            final(self).wf(),
            final(self).shape == old(self).shape,
            final(self).rows() == old(self).rows() + tight_rows(
                old(self).shape,
                views(prefix@),
                line_models(lines@),
                cont,
            ),
    {
        let ghost shape = self.shape;
        let ghost base = self.rows();
        let ghost goal = tight_rows(shape, views(prefix@), line_models(lines@), cont);
        let n: usize = lines.len();
        proof { assert(base + goal.take(0) =~= base); }
        for i in 0..n
            invariant
                n == lines.len(),
                self.wf(),
                self.shape == shape,
                goal == tight_rows(shape, views(prefix@), line_models(lines@), cont),
                self.rows() == base + goal.take(i as int),
        {
            let line = finalize(self.shape.pad_width, prefix, &lines[i]);
            self.push_line(line, cont && i > 0);
            proof {
                assert(base + goal.take(i + 1) =~= (base + goal.take(i as int)).push(
                    goal[i as int],
                ));
            }
        }
        proof { assert(goal.take(n as int) =~= goal); }
    }

    fn emit_cut(&mut self, lines: &Vec<String>, kind: SpanKind)
        requires
            old(self).wf(),
        ensures
            final(self).wf(),
            final(self).shape == old(self).shape,
            final(self).rows() == old(self).rows() + cut_rows(
                old(self).shape,
                views(lines@),
                kind@,
            ),
    {
        let ghost shape = self.shape;
        let ghost base = self.rows();
        let ghost goal = cut_rows(shape, views(lines@), kind@);
        let aw = self.shape.ambiguous_wide;
        let n: usize = lines.len();
        proof { assert(base + goal.take(0) =~= base); }
        for i in 0..n
            invariant
                n == lines.len(),
                self.wf(),
                self.shape == shape,
                aw == shape.ambiguous_wide,
                goal == cut_rows(shape, views(lines@), kind@),
                self.rows() == base + goal.take(i as int),
        {
            let safe = truncate_to_width(lines[i].as_str(), self.shape.content_width, aw);
            let clusters = clusters_from_str(safe.as_str(), kind.copy(), aw);
            let line = finalize(self.shape.pad_width, &no_spans(), &clusters);
            self.push_line(line, false);
            proof {
                assert(views(lines@)[i as int] == lines@[i as int]@);
                assert(base + goal.take(i + 1) =~= (base + goal.take(i as int)).push(
                    goal[i as int],
                ));
            }
        }
        proof { assert(goal.take(n as int) =~= goal); }
    }

    fn emit_code(&mut self, text: &str, tokens: &Vec<Vec<CodeToken>>)
        requires
            old(self).wf(),
        ensures
            final(self).wf(),
            final(self).shape == old(self).shape,
            final(self).rows() == old(self).rows() + code_rows(
                old(self).shape,
                lines_of(text@),
                tokens@,
                lines_of(text@).len() as int,
            ),
    {
        let ghost shape = self.shape;
        let ghost base = self.rows();
        let aw = self.shape.ambiguous_wide;
        let avail: usize = self.shape.content_width.saturating_sub(CODE_GUTTER);
        let lines = split_lines(text);
        let ghost all = views(lines@);
        let n: usize = lines.len();
        proof { assert(base + Seq::<Row>::empty() =~= base); }
        for i in 0..n
            invariant
                n == lines.len(),
                all == views(lines@),
                self.wf(),
                self.shape == shape,
                aw == shape.ambiguous_wide,
                avail as nat == minus(shape.content_width as nat, CODE_GUTTER as nat),
                avail <= 0xFFFF,
                self.rows() == base + code_rows(shape, all, tokens@, i as int),
        {
            let ghost before = code_rows(shape, all, tokens@, i as int);
            assert(all[i as int] == lines@[i as int]@);
            let clusters = if i < tokens.len() {
                highlight_clusters(&tokens[i], aw)
            } else {
                clusters_from_str(lines[i].as_str(), SpanKind::Code, aw)
            };
            let gutter = one_span(repeat_char(' ', CODE_GUTTER), SpanKind::Code);
            let chunks = chunk_by_width(clusters, avail);
            let ghost mid = self.rows();
            if chunks.len() == 0 {
                let line = finalize(self.shape.pad_width, &gutter, &no_clusters());
                self.push_line(line, false);
                proof { assert(self.rows() =~= mid + seq![own_row(line@)]); }
            } else {
                self.emit_tight(&gutter, &chunks, true);
            }
            proof {
                let more = code_line(shape, all[i as int], tokens@, i as int);
                assert(base + before + more =~= base + (before + more));
            }
        }
    }

    fn emit_rule(&mut self)
        requires
            old(self).wf(),
        ensures
            final(self).wf(),
            final(self).shape == old(self).shape,
            final(self).rows() == old(self).rows() + seq![rule_row(old(self).shape)],
    {
        let dash: usize = glyph_width('─', self.shape.ambiguous_wide);
        let span: usize = if self.shape.content_width < RULE_MAX_WIDTH {
            self.shape.content_width
        } else {
            RULE_MAX_WIDTH
        };
        let line = finalize(
            self.shape.pad_width,
            &one_span(repeat_char('─', span / dash), SpanKind::Dim),
            &no_clusters(),
        );
        let ghost base = self.rows();
        self.push_line(line, false);
        assert(self.rows() =~= base + seq![rule_row(self.shape)]);
    }

    /// A table: as a list or as a grid.
    pub fn emit_table(&mut self, table: &Table)
        requires
            old(self).wf(),
        ensures
            final(self).wf(),
            final(self).shape == old(self).shape,
            final(self).rows() == old(self).rows() + table_rows(old(self).shape, *table),
    {
        let ghost shape = self.shape;
        let ghost base = self.rows();
        let aw = self.shape.ambiguous_wide;
        let v: usize = glyph_width('│', aw);
        let natural = natural_col_widths(table, aw);
        proof { assert(natural@ =~= natural_widths(*table, aw)); }
        let plan = plan_table(
            &natural,
            self.shape.content_width,
            self.shape.accessible,
            self.shape.table_offset,
            v,
        );
        match plan {
            TablePlan::Collapse => {
                let lines = table.to_list_lines();
                let ghost all = views(lines@);
                proof {
                    assert(all =~= lines@.map_values(|s: String| s@));
                    assert(base + Seq::<Row>::empty() =~= base);
                }
                let n: usize = lines.len();
                for i in 0..n
                    invariant
                        n == lines.len(),
                        all == views(lines@),
                        aw == shape.ambiguous_wide,
                        self.wf(),
                        self.shape == shape,
                        self.rows() == base + list_form_rows(shape, all, i as int),
                {
                    let ghost before = list_form_rows(shape, all, i as int);
                    let ghost mid = self.rows();
                    assert(all[i as int] == lines@[i as int]@);
                    if lines[i].as_str().is_empty() {
                        let line = finalize(self.shape.pad_width, &no_spans(), &no_clusters());
                        self.push_line(line, false);
                        proof { assert(self.rows() =~= mid + seq![own_row(line@)]); }
                    } else {
                        let clusters = clusters_from_str(lines[i].as_str(), SpanKind::Table, aw);
                        let parts = wrap_content(
                            clusters,
                            self.shape.content_width,
                            WrapOpts::plain(self.shape.word_spacing),
                        );
                        self.emit_tight(&no_spans(), &parts, false);
                    }
                    proof {
                        let more = list_line_rows(shape, all[i as int]);
                        assert(base + before + more =~= base + (before + more));
                    }
                }
            },
            TablePlan::Grid { first_col, widths } => {
                proof {
                    assert(natural@.len() == natural.len());
                    lemma_planned_drawable(
                        natural@,
                        shape.content_width as nat,
                        shape.accessible,
                        shape.table_offset as nat,
                        v as nat,
                    );
                }
                let lines = render_grid_lines(table, first_col, &widths, aw);
                self.emit_cut(&lines, SpanKind::Table);
            },
        }
    }

    /// An infobox as a card on its own.
    pub fn emit_infobox_topblock(&mut self, rows: &Vec<(String, String)>)
        requires
            old(self).wf(),
        ensures
            final(self).wf(),
            final(self).shape == old(self).shape,
            final(self).rows() == old(self).rows() + top_card_rows(old(self).shape, rows@),
    {
        let aw = self.shape.ambiguous_wide;
        let min_w: usize = 2 * glyph_width('│', aw) + 3;
        let capped: usize = if self.shape.content_width < INFOBOX_CARD_WIDTH {
            self.shape.content_width
        } else {
            INFOBOX_CARD_WIDTH
        };
        let box_w: usize = if capped < min_w {
            min_w
        } else {
            capped
        };
        let lines = infobox_card_lines(rows, box_w, aw);
        self.emit_cut(&lines, SpanKind::Infobox);
    }

    /// A formula of its own.
    pub fn emit_math(&mut self, tex: &str, display: bool)
        requires
            old(self).wf(),
        ensures
            final(self).wf(),
            final(self).shape == old(self).shape,
            final(self).rows() == old(self).rows() + math_rows(old(self).shape, tex@, display),
    {
        let ghost shape = self.shape;
        let ghost base = self.rows();
        let aw = self.shape.ambiguous_wide;
        let text = render_math_display(tex);
        self.blank();
        let ghost mid = self.rows();
        if display {
            let w: usize = display_width(text.as_str(), aw);
            let extra: usize = self.shape.content_width.saturating_sub(w) / 2;
            let content = clusters_from_str(text.as_str(), SpanKind::Math, aw);
            let first = one_span(repeat_char(' ', extra), SpanKind::Plain);
            let rest = one_span(repeat_char(' ', extra), SpanKind::Plain);
            let opts = WrapOpts::plain(self.shape.word_spacing);
            self.emit_wrapped(content, first, rest, opts);
        } else {
            self.emit_plain(text.as_str(), SpanKind::Math);
        }
        let ghost body = self.rows();
        self.blank();
        proof {
            let gap = block_gap(shape);
            let inner = body.skip(mid.len() as int);
            assert(body =~= mid + inner);
            assert(self.rows() =~= base + (gap + inner + gap));
            let text = math_text(tex@);
            let pad = span_of(
                spaces(minus(shape.content_width as nat, cells(text, aw)) / 2),
                KindModel::Plain,
            );
            if display {
                assert(inner =~= wrapped_rows(
                    shape,
                    clusters_in(text, KindModel::Math, aw),
                    pad,
                    pad,
                    shape.plain(),
                ));
            } else {
                assert(inner =~= plain_rows(shape, text, KindModel::Math));
            }
        }
    }

    fn emit_placeholder(&mut self, alt: &str)
        requires
            old(self).wf(),
        ensures
            final(self).wf(),
            final(self).shape == old(self).shape,
            final(self).rows() == old(self).rows() + plain_rows(
                old(self).shape,
                placeholder(alt@),
                KindModel::Image,
            ),
    {
        let mut text = String::new();
        text.push_str("[image: ");
        text.push_str(alt);
        text.push(']');
        assert(text@ =~= placeholder(alt@));
        self.emit_plain(text.as_str(), SpanKind::Image);
    }

    /// An image: its box, or its placeholder.
    pub fn emit_image<R: ImageResolver>(&mut self, src: &Option<String>, alt: &str, images: &R)
        requires
            old(self).wf(),
        ensures
            final(self).wf(),
            final(self).shape == old(self).shape,
            final(self).rows() == old(self).rows() + image_rows(
                old(self).shape,
                *src,
                alt@,
                *images,
            ),
    {
        let ghost shape = self.shape;
        let ghost base = self.rows();
        if let Some(s) = src {
            if let Some((box_cols, rows)) = images.image_box(s.as_str()) {
                let cols: usize = if (box_cols as usize) < self.shape.content_width {
                    box_cols as usize
                } else {
                    self.shape.content_width
                };
                if cols >= IMAGE_MIN_COLS as usize && rows >= 1 {
                    let ghost goal = image_box_rows(shape, s@, cols as nat, rows);
                    proof { assert(base + goal.take(0) =~= base); }
                    for r in 0..rows
                        invariant
                            self.wf(),
                            self.shape == shape,
                            goal == image_box_rows(shape, s@, cols as nat, rows),
                            self.rows() == base + goal.take(r as int),
                    {
                        let span = one_span(
                            repeat_char(' ', cols),
                            SpanKind::ImageRow { src: s.clone(), row: r, rows },
                        );
                        let line = finalize(self.shape.pad_width, &span, &no_clusters());
                        self.push_line(line, r > 0);
                        proof {
                            assert(base + goal.take(r + 1) =~= (base + goal.take(r as int)).push(
                                goal[r as int],
                            ));
                        }
                    }
                    proof { assert(goal.take(rows as int) =~= goal); }
                    return;
                }
            }
        }
        self.emit_placeholder(alt);
    }

    /// A caption.
    pub fn emit_caption(&mut self, caption: &str)
        requires
            old(self).wf(),
        ensures
            final(self).wf(),
            final(self).shape == old(self).shape,
            final(self).rows() == old(self).rows() + plain_rows(
                old(self).shape,
                caption@,
                KindModel::Caption,
            ),
    {
        self.emit_plain(caption, SpanKind::Caption);
    }

    fn emit_picture<R: ImageResolver>(
        &mut self,
        src: &Option<String>,
        alt: &str,
        caption: &Option<String>,
        images: &R,
    )
        requires
            old(self).wf(),
        ensures
            final(self).wf(),
            final(self).shape == old(self).shape,
            final(self).rows() == old(self).rows() + picture_rows(
                old(self).shape,
                *src,
                alt@,
                *caption,
                *images,
            ),
    {
        let ghost shape = self.shape;
        let ghost base = self.rows();
        self.emit_image(src, alt, images);
        if let Some(text) = caption {
            self.emit_caption(text.as_str());
            proof {
                lemma_assoc(
                    base,
                    image_rows(shape, *src, alt@, *images),
                    plain_rows(shape, text@, KindModel::Caption),
                );
            }
        }
    }

    /// A gallery: a captioned strip where there is room, else a list.
    pub fn emit_gallery(&mut self, items: &Vec<GalleryItem>)
        requires
            old(self).wf(),
        ensures
            final(self).wf(),
            final(self).shape == old(self).shape,
            final(self).rows() == old(self).rows() + gallery_rows(old(self).shape, items@),
    {
        let ghost shape = self.shape;
        let ghost base = self.rows();
        let n: usize = items.len();
        if self.shape.content_width >= GALLERY_STRIP_MIN_WIDTH && n > 1 {
            let mut joined = String::new();
            for i in 0..n
                invariant
                    n == items.len(),
                    joined@ == strip_text(items@, i as int),
            {
                if i > 0 {
                    let gap = repeat_char(' ', 3);
                    joined.push_str(gap.as_str());
                }
                joined.push('[');
                joined.push_str(items[i].caption.as_str());
                joined.push(']');
            }
            let clusters = clusters_from_str(
                joined.as_str(),
                SpanKind::Caption,
                self.shape.ambiguous_wide,
            );
            let lines = wrap_content(
                clusters,
                self.shape.content_width,
                WrapOpts::plain(self.shape.word_spacing),
            );
            self.emit_tight(&no_spans(), &lines, true);
        } else {
            proof { assert(base + Seq::<Row>::empty() =~= base); }
            for i in 0..n
                invariant
                    n == items.len(),
                    self.wf(),
                    self.shape == shape,
                    self.rows() == base + gallery_list(shape, items@, i as int),
            {
                let ghost before = gallery_list(shape, items@, i as int);
                self.emit_placeholder(items[i].caption.as_str());
                proof {
                    let more = plain_rows(
                        shape,
                        placeholder(items@[i as int].caption@),
                        KindModel::Image,
                    );
                    assert(base + before + more =~= base + (before + more));
                }
            }
        }
    }

    fn emit_list_item(
        &mut self,
        ordered: bool,
        index: u32,
        depth: u8,
        content: Vec<Cluster>,
    )
        requires
            old(self).wf(),
        ensures
            final(self).wf(),
            final(self).shape == old(self).shape,
            final(self).rows() == old(self).rows() + wrapped_rows(
                old(self).shape,
                views(content@),
                span_of(list_marker(ordered, index, depth), KindModel::Plain),
                span_of(
                    spaces(cells(list_marker(ordered, index, depth), old(self).shape.ambiguous_wide)),
                    KindModel::Plain,
                ),
                old(self).shape.prose(),
            ),
    {
        let mut marker = repeat_char(' ', 2 * (depth as usize));
        if ordered {
            let number = decimal_string(index as u64);
            marker.push_str(number.as_str());
            marker.push('.');
        } else {
            marker.push('•');
        }
        marker.push(' ');
        proof { assert(marker@ =~= list_marker(ordered, index, depth)); }
        let w: usize = display_width(marker.as_str(), self.shape.ambiguous_wide);
        let rest = one_span(repeat_char(' ', w), SpanKind::Plain);
        let first = one_span(marker, SpanKind::Plain);
        let opts = self.shape.prose_wrap_opts();
        self.emit_wrapped(content, first, rest, opts);
    }

    fn emit_blockquote(&mut self, content: Vec<Cluster>)
        requires
            old(self).wf(),
        ensures
            final(self).wf(),
            final(self).shape == old(self).shape,
            final(self).rows() == old(self).rows() + wrapped_rows(
                old(self).shape,
                views(content@),
                span_of(seq!['▌', ' '], KindModel::Dim),
                span_of(seq!['▌', ' '], KindModel::Dim),
                old(self).shape.prose(),
            ),
    {
        let mut bar = String::new();
        bar.push('▌');
        bar.push(' ');
        assert(bar@ =~= seq!['▌', ' ']);
        let first = one_span(bar.clone(), SpanKind::Dim);
        let rest = one_span(bar, SpanKind::Dim);
        let opts = self.shape.prose_wrap_opts();
        self.emit_wrapped(content, first, rest, opts);
    }

    /// Lays out one block, and records its anchor.
    pub fn emit_block<R: ImageResolver>(
        &mut self,
        block: &Block,
        block_lines: &mut Vec<usize>,
        link_counter: &mut usize,
        images: &R,
    )
        requires
            old(self).wf(),
            *old(link_counter) + block_links(*block) <= usize::MAX,
        ensures
            final(self).wf(),
            final(self).shape == old(self).shape,
            final(self).rows() == old(self).rows() + block_rows(
                old(self).shape,
                *block,
                *images,
                *old(link_counter) as nat,
            ),
            final(block_lines)@.len() == old(block_lines)@.len() + 1,
            final(block_lines)@.drop_last() == old(block_lines)@,
            final(block_lines)@.last() == old(self).rows().len() + anchor_offset(
                old(self).shape,
                *block,
            ),
            *final(link_counter) == *old(link_counter) + block_links(*block),
    {
        let ghost shape = self.shape;
        let ghost base = self.rows();
        let ghost links = *link_counter as nat;
        let ghost gap = block_gap(shape);
        let aw = self.shape.ambiguous_wide;
        let mut anchor: usize = self.lines.len();
        match block {
            Block::Heading { level, spans } => {
                self.blank();
                anchor = self.lines.len();
                let text = flatten_plain(spans);
                self.emit_plain(text.as_str(), SpanKind::Heading(*level));
                proof {
                    lemma_assoc(
                        base,
                        gap,
                        plain_rows(shape, plain_text(spans@), KindModel::Heading(*level)),
                    );
                }
            },
            Block::Paragraph(spans) => {
                let content = flatten_spans(spans, SpanKind::Plain, link_counter, aw);
                let opts = self.shape.prose_wrap_opts();
                self.emit_wrapped(content, no_spans(), no_spans(), opts);
                proof {
                    let prose = wrapped_rows(
                        shape,
                        flattened(spans@, KindModel::Plain, links, aw),
                        Seq::empty(),
                        Seq::empty(),
                        shape.prose(),
                    );
                    lemma_assoc(base, prose, gap);
                }
                self.blank();
            },
            Block::ListItem { ordered, index, depth, spans } => {
                let content = flatten_spans(spans, SpanKind::Plain, link_counter, aw);
                self.emit_list_item(*ordered, *index, *depth, content);
            },
            Block::Blockquote(spans) => {
                let content = flatten_spans(spans, SpanKind::Quote, link_counter, aw);
                self.emit_blockquote(content);
                proof {
                    let quote = wrapped_rows(
                        shape,
                        flattened(spans@, KindModel::Quote, links, aw),
                        span_of(seq!['▌', ' '], KindModel::Dim),
                        span_of(seq!['▌', ' '], KindModel::Dim),
                        shape.prose(),
                    );
                    lemma_assoc(base, quote, gap);
                }
                self.blank();
            },
            Block::Code { text, lang, tokens } => {
                self.emit_code(text.as_str(), tokens);
                proof {
                    let lines = lines_of(text@);
                    lemma_assoc(base, code_rows(shape, lines, tokens@, lines.len() as int), gap);
                }
                self.blank();
            },
            Block::Rule => {
                self.emit_rule();
            },
            Block::Table(table) => {
                self.emit_table(table);
                proof { lemma_assoc(base, table_rows(shape, *table), gap); }
                self.blank();
            },
            Block::Infobox(rows) => {
                self.emit_infobox_topblock(rows);
                proof { lemma_assoc(base, top_card_rows(shape, rows@), gap); }
                self.blank();
            },
            Block::Image { src, alt, caption } => {
                self.emit_picture(src, alt.as_str(), caption, images);
                proof {
                    lemma_assoc(base, picture_rows(shape, *src, alt@, *caption, *images), gap);
                }
                self.blank();
            },
            Block::Gallery(items) => {
                self.emit_gallery(items);
                proof { lemma_assoc(base, gallery_rows(shape, items@), gap); }
                self.blank();
            },
            Block::Math { tex, display, .. } => {
                self.emit_math(tex.as_str(), *display);
            },
        }
        block_lines.push(anchor);
        proof { assert(block_lines@.drop_last() =~= old(block_lines)@); }
    }
}

/// Concatenation is associative.
pub proof fn lemma_assoc<T>(a: Seq<T>, b: Seq<T>, c: Seq<T>)
    ensures
        a + b + c == a + (b + c),
{
    assert(a + b + c =~= a + (b + c));
}

/// A planned grid fits a terminal, and its columns are the table's.
pub proof fn lemma_planned_drawable(
    natural: Seq<usize>,
    avail: nat,
    accessible: bool,
    offset: nat,
    v: nat,
)
    requires
        avail <= 0xFFFF,
        1 <= v <= 2,
        forall|i: int| 0 <= i < natural.len() ==> 1 <= #[trigger] natural[i] <= 40,
    ensures
        planned(natural, avail, accessible, offset, v) matches PlanModel::Grid {
            first_col,
            widths,
        } ==> {
            &&& drawable(widths)
            &&& first_col + widths.len() <= natural.len()
        },
{
    let n = natural.len();
    if n > 0 {
        let first = min_nat(offset, (n - 1) as nat);
        lemma_window(natural, first as int, v, avail, v);
    }
}

proof fn lemma_window(natural: Seq<usize>, i: int, used: nat, avail: nat, v: nat)
    requires
        0 <= i,
        forall|k: int| 0 <= k < natural.len() ==> 1 <= #[trigger] natural[k] <= 40,
    ensures
        drawable(crate::layout::table::window(natural, i, used, avail, v)),
        crate::layout::table::window(natural, i, used, avail, v).len() <= if i <= natural.len() {
            natural.len() - i
        } else {
            0
        },
    decreases natural.len() - i,
{
    if i < natural.len() && used + natural[i] + 2 + v <= avail {
        lemma_window(natural, i + 1, used + natural[i] as nat + 2 + v, avail, v);
    }
}

} // verus!
