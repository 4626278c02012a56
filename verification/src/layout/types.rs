//! What a laid-out document is made of.
use vstd::prelude::*;

use crate::layout::measure::cells;
use crate::layout::measure::display_width;
use crate::text::concat_all;
use crate::text::lemma_concat_push;
use crate::text::same_str;
use crate::text::views;

verus! {

/// The semantic style of a laid-out span. It never names a color: paint maps
/// each kind to one, so a layout outlives a change of theme.
#[derive(Debug, Clone, PartialEq, Eq)]
pub enum SpanKind {
    /// Ordinary body text.
    Plain,
    Bold,
    Italic,
    /// Dimmed structural text: superscripts, gutters, rules.
    Dim,
    /// The article title.
    Title,
    Heading(u8),
    /// Body text inside a blockquote.
    Quote,
    Code,
    CodeKeyword,
    CodeString,
    CodeComment,
    CodeNumber,
    Table,
    Infobox,
    Image,
    /// A formula, already in its delimited display form.
    Math,
    /// A caption under an image or gallery.
    Caption,
    /// One reserved row of an inline image's box.
    ImageRow { src: String, row: u16, rows: u16 },
    /// A link occurrence, numbered in document order.
    Link(usize),
    /// A link-hint label, spliced in at paint time and never laid out.
    Hint,
    /// A "citation needed" marker.
    CitationNeeded,
}

/// A span's kind, with its text as characters.
#[verifier::ext_equal]
pub enum KindModel {
    Plain,
    Bold,
    Italic,
    Dim,
    Title,
    Heading(u8),
    Quote,
    Code,
    CodeKeyword,
    CodeString,
    CodeComment,
    CodeNumber,
    Table,
    Infobox,
    Image,
    Math,
    Caption,
    ImageRow { src: Seq<char>, row: u16, rows: u16 },
    Link(usize),
    Hint,
    CitationNeeded,
}

impl View for SpanKind {
    type V = KindModel;

    open spec fn view(&self) -> KindModel {
        match *self {
            SpanKind::Plain => KindModel::Plain,
            SpanKind::Bold => KindModel::Bold,
            SpanKind::Italic => KindModel::Italic,
            SpanKind::Dim => KindModel::Dim,
            SpanKind::Title => KindModel::Title,
            SpanKind::Heading(level) => KindModel::Heading(level),
            SpanKind::Quote => KindModel::Quote,
            SpanKind::Code => KindModel::Code,
            SpanKind::CodeKeyword => KindModel::CodeKeyword,
            SpanKind::CodeString => KindModel::CodeString,
            SpanKind::CodeComment => KindModel::CodeComment,
            SpanKind::CodeNumber => KindModel::CodeNumber,
            SpanKind::Table => KindModel::Table,
            SpanKind::Infobox => KindModel::Infobox,
            SpanKind::Image => KindModel::Image,
            SpanKind::Math => KindModel::Math,
            SpanKind::Caption => KindModel::Caption,
            SpanKind::ImageRow { src, row, rows } => KindModel::ImageRow { src: src@, row, rows },
            SpanKind::Link(occurrence) => KindModel::Link(occurrence),
            SpanKind::Hint => KindModel::Hint,
            SpanKind::CitationNeeded => KindModel::CitationNeeded,
        }
    }
}

impl SpanKind {
    /// A copy of the kind.
    pub fn copy(&self) -> (r: SpanKind)
        ensures
            r@ == self@,
    {
        match self {
            SpanKind::Plain => SpanKind::Plain,
            SpanKind::Bold => SpanKind::Bold,
            SpanKind::Italic => SpanKind::Italic,
            SpanKind::Dim => SpanKind::Dim,
            SpanKind::Title => SpanKind::Title,
            SpanKind::Heading(level) => SpanKind::Heading(*level),
            SpanKind::Quote => SpanKind::Quote,
            SpanKind::Code => SpanKind::Code,
            SpanKind::CodeKeyword => SpanKind::CodeKeyword,
            SpanKind::CodeString => SpanKind::CodeString,
            SpanKind::CodeComment => SpanKind::CodeComment,
            SpanKind::CodeNumber => SpanKind::CodeNumber,
            SpanKind::Table => SpanKind::Table,
            SpanKind::Infobox => SpanKind::Infobox,
            SpanKind::Image => SpanKind::Image,
            SpanKind::Math => SpanKind::Math,
            SpanKind::Caption => SpanKind::Caption,
            SpanKind::ImageRow { src, row, rows } => SpanKind::ImageRow {
                src: src.clone(),
                row: *row,
                rows: *rows,
            },
            SpanKind::Link(occurrence) => SpanKind::Link(*occurrence),
            SpanKind::Hint => SpanKind::Hint,
            SpanKind::CitationNeeded => SpanKind::CitationNeeded,
        }
    }

    /// Whether two kinds are the same.
    pub fn same(&self, other: &SpanKind) -> (r: bool)
        ensures
            r == (self@ == other@),
    {
        match (self, other) {
            (SpanKind::Plain, SpanKind::Plain) => true,
            (SpanKind::Bold, SpanKind::Bold) => true,
            (SpanKind::Italic, SpanKind::Italic) => true,
            (SpanKind::Dim, SpanKind::Dim) => true,
            (SpanKind::Title, SpanKind::Title) => true,
            (SpanKind::Heading(a), SpanKind::Heading(b)) => *a == *b,
            (SpanKind::Quote, SpanKind::Quote) => true,
            (SpanKind::Code, SpanKind::Code) => true,
            (SpanKind::CodeKeyword, SpanKind::CodeKeyword) => true,
            (SpanKind::CodeString, SpanKind::CodeString) => true,
            (SpanKind::CodeComment, SpanKind::CodeComment) => true,
            (SpanKind::CodeNumber, SpanKind::CodeNumber) => true,
            (SpanKind::Table, SpanKind::Table) => true,
            (SpanKind::Infobox, SpanKind::Infobox) => true,
            (SpanKind::Image, SpanKind::Image) => true,
            (SpanKind::Math, SpanKind::Math) => true,
            (SpanKind::Caption, SpanKind::Caption) => true,
            (
                SpanKind::ImageRow { src: s, row: r, rows: n },
                SpanKind::ImageRow { src: t, row: q, rows: m },
            ) => *r == *q && *n == *m && same_str(s.as_str(), t.as_str()),
            (SpanKind::Link(a), SpanKind::Link(b)) => *a == *b,
            (SpanKind::Hint, SpanKind::Hint) => true,
            (SpanKind::CitationNeeded, SpanKind::CitationNeeded) => true,
            _ => false,
        }
    }
}

/// One styled run of text within a laid-out line.
#[derive(Debug, Clone, PartialEq, Eq)]
pub struct LaidSpan {
    pub text: String,
    pub kind: SpanKind,
}

/// A span's text and kind.
#[verifier::ext_equal]
pub struct SpanModel {
    pub text: Seq<char>,
    pub kind: KindModel,
}

impl View for LaidSpan {
    type V = SpanModel;

    open spec fn view(&self) -> SpanModel {
        SpanModel { text: self.text@, kind: self.kind@ }
    }
}

impl LaidSpan {
    /// A copy of the span.
    pub fn copy(&self) -> (r: LaidSpan)
        ensures
            r@ == self@,
    {
        LaidSpan { text: self.text.clone(), kind: self.kind.copy() }
    }
}

/// Copies of `spans`, in order.
pub fn copy_spans(spans: &Vec<LaidSpan>) -> (r: Vec<LaidSpan>)
    ensures
        views(r@) == views(spans@),
{
    let mut out: Vec<LaidSpan> = Vec::new();
    append_spans(&mut out, spans);
    assert(Seq::<SpanModel>::empty() + views(spans@) =~= views(spans@));
    out
}

/// Appends copies of `spans` to `out`.
pub fn append_spans(out: &mut Vec<LaidSpan>, spans: &Vec<LaidSpan>)
    ensures
        views(final(out)@) == views(old(out)@) + views(spans@),
{
    let ghost base = views(out@);
    let n: usize = spans.len();
    for i in 0..n
        invariant
            n == spans.len(),
            views(out@) == base + views(spans@).take(i as int),
    {
        let ghost pre = out@;
        out.push(spans[i].copy());
        proof {
            assert(views(out@) =~= views(pre).push(spans@[i as int]@));
            assert(views(spans@).take(i + 1) =~= views(spans@).take(i as int).push(
                spans@[i as int]@,
            ));
        }
    }
    proof { assert(views(spans@).take(n as int) =~= views(spans@)); }
}

/// One laid-out line: exactly one terminal row.
#[derive(Debug, Clone, PartialEq, Eq)]
pub struct LaidLine {
    pub spans: Vec<LaidSpan>,
}

impl View for LaidLine {
    type V = Seq<SpanModel>;

    open spec fn view(&self) -> Seq<SpanModel> {
        views(self.spans@)
    }
}

/// The cells a line takes.
pub open spec fn line_cells(spans: Seq<SpanModel>, ambiguous_wide: bool) -> nat
    decreases spans.len(),
{
    if spans.len() == 0 {
        0
    } else {
        line_cells(spans.drop_last(), ambiguous_wide) + cells(spans.last().text, ambiguous_wide)
    }
}

/// A line's cells are additive over its spans.
pub proof fn lemma_line_cells_add(a: Seq<SpanModel>, b: Seq<SpanModel>, ambiguous_wide: bool)
    ensures
        line_cells(a + b, ambiguous_wide) == line_cells(a, ambiguous_wide) + line_cells(
            b,
            ambiguous_wide,
        ),
    decreases b.len(),
{
    if b.len() == 0 {
        assert(a + b =~= a);
    } else {
        assert((a + b).drop_last() =~= a + b.drop_last());
        lemma_line_cells_add(a, b.drop_last(), ambiguous_wide);
    }
}

/// The texts of a line's spans.
pub open spec fn line_texts(spans: Seq<SpanModel>) -> Seq<Seq<char>> {
    spans.map_values(|s: SpanModel| s.text)
}

/// A line's own text: its spans' texts one after the other.
pub open spec fn line_text(spans: Seq<SpanModel>) -> Seq<char> {
    concat_all(line_texts(spans))
}

/// The total display width of `spans`, or `usize::MAX` past that.
pub fn spans_width(spans: &Vec<LaidSpan>, ambiguous_wide: bool) -> (r: usize)
    ensures
        r as nat == line_cells(views(spans@), ambiguous_wide) || (r == usize::MAX && line_cells(
            views(spans@),
            ambiguous_wide,
        ) >= usize::MAX),
{
    let mut sum: usize = 0;
    let n: usize = spans.len();
    for i in 0..n
        invariant
            n == spans.len(),
            sum as nat == line_cells(views(spans@).take(i as int), ambiguous_wide) || (sum
                == usize::MAX && line_cells(views(spans@).take(i as int), ambiguous_wide)
                >= usize::MAX),
    {
        proof {
            assert(views(spans@).take(i + 1).drop_last() =~= views(spans@).take(i as int));
        }
        sum = sum.saturating_add(display_width(spans[i].text.as_str(), ambiguous_wide));
    }
    proof { assert(views(spans@).take(n as int) =~= views(spans@)); }
    sum
}

impl LaidLine {
    /// The total display width of the line, measured as the layout measures
    /// it; `usize::MAX` where the line is that wide or wider.
    pub fn width(&self, ambiguous_wide: bool) -> (r: usize)
        ensures
            r as nat == line_cells(self@, ambiguous_wide) || (r == usize::MAX && line_cells(
                self@,
                ambiguous_wide,
            ) >= usize::MAX),
    {
        spans_width(&self.spans, ambiguous_wide)
    }

    /// A copy of the line.
    pub fn copy(&self) -> (r: LaidLine)
        ensures
            r@ == self@,
    {
        LaidLine { spans: copy_spans(&self.spans) }
    }
}

/// A laid-out line's own text, exactly as painted.
pub fn laid_line_text(line: &LaidLine) -> (r: String)
    ensures
        r@ == line_text(line@),
{
    let mut out = String::new();
    let n: usize = line.spans.len();
    for i in 0..n
        invariant
            n == line.spans.len(),
            out@ == concat_all(line_texts(line@).take(i as int)),
    {
        proof {
            let t = line_texts(line@);
            lemma_concat_push(t.take(i as int), t[i as int]);
            assert(t.take(i as int).push(t[i as int]) =~= t.take(i + 1));
        }
        out.push_str(line.spans[i].text.as_str());
    }
    proof { assert(line_texts(line@).take(n as int) =~= line_texts(line@)); }
    out
}

/// Where the width beyond the measure goes: to both sides, or all to the
/// right.
#[derive(Debug, Clone, Copy, PartialEq, Eq, Structural)]
pub enum TextAlign {
    Center,
    Left,
}

impl Default for TextAlign {
    fn default() -> (r: Self)
        ensures
            r == TextAlign::Center,
    {
        TextAlign::Center
    }
}

impl TextAlign {
    /// Parses the setting's spelling: `center` or `left`, nothing else.
    pub fn parse(s: &str) -> (r: Option<Self>)
        ensures
            r == (if s@ == "center"@ {
                Some(TextAlign::Center)
            } else if s@ == "left"@ {
                Some(TextAlign::Left)
            } else {
                None
            }),
    {
        if same_str(s, "center") {
            Some(TextAlign::Center)
        } else if same_str(s, "left") {
            Some(TextAlign::Left)
        } else {
            None
        }
    }
}

/// The layout's settings.
#[derive(Debug, Clone, Copy, PartialEq, Eq, Structural)]
pub struct LayoutOptions {
    /// Maximum line measure in cells.
    pub measure: u16,
    /// Count ambiguous-width characters as two cells.
    pub ambiguous_wide: bool,
    /// Collapse tables to lists instead of drawing grids.
    pub accessible: bool,
    /// How many columns to skip at the left of every scrollable table.
    pub table_col_offset: u16,
    /// Bumped whenever inline-image state changes; part of the cache key.
    pub image_epoch: u64,
    /// Words a minute for the "N min read" line.
    pub reading_wpm: u32,
    /// Whether images are on; part of the cache key only.
    pub images_on: bool,
    pub text_align: TextAlign,
    /// Extra left margin, out of the same width the measure shares.
    pub margin: u16,
    /// Blank rows between one block and the next.
    pub paragraph_spacing: u8,
    /// Blank rows after every visual line of prose.
    pub line_spacing: u8,
    /// Extra cells in every gap between words of prose.
    pub word_spacing: u8,
    /// Stretch wrapped prose lines to the full column.
    pub justify: bool,
    /// Break long words of prose with a hyphen.
    pub hyphenate: bool,
}

impl Default for LayoutOptions {
    fn default() -> (r: Self)
        ensures
            r == (LayoutOptions {
                measure: 88,
                ambiguous_wide: false,
                accessible: false,
                table_col_offset: 0,
                image_epoch: 0,
                reading_wpm: 230,
                images_on: false,
                text_align: TextAlign::Center,
                margin: 0,
                paragraph_spacing: 1,
                line_spacing: 0,
                word_spacing: 0,
                justify: false,
                hyphenate: false,
            }),
    {
        LayoutOptions {
            measure: 88,
            ambiguous_wide: false,
            accessible: false,
            table_col_offset: 0,
            image_epoch: 0,
            reading_wpm: 230,
            images_on: false,
            text_align: TextAlign::Center,
            margin: 0,
            paragraph_spacing: 1,
            line_spacing: 0,
            word_spacing: 0,
            justify: false,
            hyphenate: false,
        }
    }
}

/// Resolves an image source to the box of cells to reserve for it, columns
/// and rows, or to nothing for the placeholder.
pub trait ImageResolver {
    /// The box of a source.
    spec fn box_of(&self, src: Seq<char>) -> Option<(u16, u16)>;

    fn image_box(&self, src: &str) -> (r: Option<(u16, u16)>)
        ensures
            r == self.box_of(src@),
    ;
}

/// No image has a box: every one is a placeholder.
pub struct NoImages;

impl ImageResolver for NoImages {
    open spec fn box_of(&self, src: Seq<char>) -> Option<(u16, u16)> {
        None
    }

    fn image_box(&self, _src: &str) -> (r: Option<(u16, u16)>) {
        None
    }
}

/// Image boxes by source. A later entry for a source shadows an earlier one.
pub struct ImageBoxes {
    pub entries: Vec<(String, (u16, u16))>,
}

/// The box of the last entry for `src`.
pub open spec fn lookup_box(entries: Seq<(String, (u16, u16))>, src: Seq<char>) -> Option<
    (u16, u16),
>
    decreases entries.len(),
{
    if entries.len() == 0 {
        None
    } else if entries.last().0@ == src {
        Some(entries.last().1)
    } else {
        lookup_box(entries.drop_last(), src)
    }
}

impl ImageBoxes {
    /// No boxes.
    pub fn new() -> (r: Self)
        ensures
            r.entries@.len() == 0,
    {
        ImageBoxes { entries: Vec::new() }
    }

    /// Gives `src` a box.
    pub fn insert(&mut self, src: String, size: (u16, u16))
        ensures
            final(self).entries@ == old(self).entries@.push((src, size)),
            forall|s: Seq<char>|
                final(self).box_of(s) == if s == src@ {
                    Some(size)
                } else {
                    old(self).box_of(s)
                },
    {
        self.entries.push((src, size));
        proof {
            assert(self.entries@.drop_last() =~= old(self).entries@);
        }
    }
}

impl ImageResolver for ImageBoxes {
    open spec fn box_of(&self, src: Seq<char>) -> Option<(u16, u16)> {
        lookup_box(self.entries@, src)
    }

    fn image_box(&self, src: &str) -> (r: Option<(u16, u16)>) {
        let mut i: usize = self.entries.len();
        assert(self.entries@.take(i as int) =~= self.entries@);
        while i > 0
            invariant
                i <= self.entries.len(),
                lookup_box(self.entries@, src@) == lookup_box(self.entries@.take(i as int), src@),
            decreases i,
        {
            proof {
                assert(self.entries@.take(i as int).drop_last() =~= self.entries@.take(i - 1));
            }
            i = i - 1;
            if same_str(self.entries[i].0.as_str(), src) {
                return Some(self.entries[i].1);
            }
        }
        None
    }
}

/// A single image never takes more columns than this.
pub const IMAGE_MAX_COLS: u16 = 60;

/// A single image never takes more rows than this.
pub const IMAGE_MAX_ROWS: u16 = 24;

/// Below this content width an inline image is not drawn.
pub const IMAGE_MIN_COLS: u16 = 16;

/// A range of grapheme columns `[start, end)` on one line.
#[derive(Debug, Clone, Copy, PartialEq, Eq, Structural)]
pub struct MatchSpan {
    pub start: usize,
    pub end: usize,
}

/// One occurrence of a query: the piece of it on each line it touches, from
/// top to bottom.
#[derive(Debug, Clone, PartialEq, Eq)]
pub struct Occurrence {
    pub pieces: Vec<(usize, MatchSpan)>,
}

/// A laid-out document and the line mappings the reader needs.
#[derive(Debug, Clone)]
pub struct Layout {
    /// The terminal width the layout was built for.
    pub width: u16,
    pub options: LayoutOptions,
    pub lines: Vec<LaidLine>,
    /// The line to scroll to for each block.
    pub block_lines: Vec<usize>,
    /// The first line each link occurrence is on; 0 where it is on none.
    pub link_lines: Vec<usize>,
    /// Whether each link occurrence is on a line at all.
    pub link_visible: Vec<bool>,
    /// The heading blocks that are folded shut.
    pub folds: Vec<usize>,
    /// The grapheme columns of each link occurrence on its first line.
    pub link_cols: Vec<MatchSpan>,
    /// Whether each line runs on into the next without a block boundary; one
    /// shorter than `lines`.
    pub continuation: Vec<bool>,
}

/// What lies under cell `col` of a line whose spans are `spans`: the span
/// that covers it, if it is a link.
pub open spec fn link_under(spans: Seq<SpanModel>, col: int, ambiguous_wide: bool) -> Option<usize>
    decreases spans.len(),
{
    if spans.len() == 0 {
        None
    } else {
        let w = cells(spans[0].text, ambiguous_wide) as int;
        if 0 <= col < w {
            match spans[0].kind {
                KindModel::Link(occurrence) => Some(occurrence),
                _ => None,
            }
        } else {
            link_under(spans.drop_first(), col - w, ambiguous_wide)
        }
    }
}

/// Two layouts that hold the same.
pub open spec fn same_layout(a: Layout, b: Layout) -> bool {
    &&& a.width == b.width
    &&& a.options == b.options
    &&& views(a.lines@) == views(b.lines@)
    &&& a.block_lines@ == b.block_lines@
    &&& a.link_lines@ == b.link_lines@
    &&& a.link_visible@ == b.link_visible@
    &&& a.folds@ == b.folds@
    &&& a.link_cols@ == b.link_cols@
    &&& a.continuation@ == b.continuation@
}

fn copy_plain<T: Copy>(list: &Vec<T>) -> (r: Vec<T>)
    ensures
        r@ == list@,
{
    let mut out: Vec<T> = Vec::new();
    let n: usize = list.len();
    for i in 0..n
        invariant
            n == list.len(),
            out@ == list@.take(i as int),
    {
        out.push(list[i]);
    }
    proof { assert(list@.take(n as int) =~= list@); }
    out
}

fn copy_lines(lines: &Vec<LaidLine>) -> (r: Vec<LaidLine>)
    ensures
        views(r@) == views(lines@),
{
    let mut out: Vec<LaidLine> = Vec::new();
    let n: usize = lines.len();
    for i in 0..n
        invariant
            n == lines.len(),
            views(out@) == views(lines@).take(i as int),
    {
        let ghost pre = out@;
        out.push(lines[i].copy());
        proof {
            assert(views(out@) =~= views(pre).push(lines@[i as int]@));
            assert(views(lines@).take(i + 1) =~= views(lines@).take(i as int).push(
                lines@[i as int]@,
            ));
        }
    }
    proof { assert(views(lines@).take(n as int) =~= views(lines@)); }
    out
}

impl Layout {
    /// A copy of the layout.
    pub fn copy(&self) -> (r: Layout)
        ensures
            same_layout(r, *self),
    {
        Layout {
            width: self.width,
            options: self.options,
            lines: copy_lines(&self.lines),
            block_lines: copy_plain(&self.block_lines),
            link_lines: copy_plain(&self.link_lines),
            link_visible: copy_plain(&self.link_visible),
            folds: copy_plain(&self.folds),
            link_cols: copy_plain(&self.link_cols),
            continuation: copy_plain(&self.continuation),
        }
    }

    /// Which link occurrence, if any, covers cell `col` of line
    /// `line_index`.
    pub fn link_at(&self, line_index: usize, col: usize, ambiguous_wide: bool) -> (r: Option<usize>)
        ensures
            r == (if line_index < self.lines@.len() {
                link_under(self.lines@[line_index as int]@, col as int, ambiguous_wide)
            } else {
                None
            }),
    {
        if line_index >= self.lines.len() {
            return None;
        }
        let line = &self.lines[line_index];
        let n: usize = line.spans.len();
        let mut left: usize = col;
        proof { assert(views(line.spans@).skip(0) =~= views(line.spans@)); }
        for i in 0..n
            invariant
                n == line.spans.len(),
                link_under(views(line.spans@), col as int, ambiguous_wide) == link_under(
                    views(line.spans@).skip(i as int),
                    left as int,
                    ambiguous_wide,
                ),
                line_index < self.lines.len(),
                *line == self.lines@[line_index as int],
        {
            let w: usize = display_width(line.spans[i].text.as_str(), ambiguous_wide);
            proof {
                let rest = views(line.spans@).skip(i as int);
                assert(rest[0] == line.spans@[i as int]@);
                assert(rest.drop_first() =~= views(line.spans@).skip(i + 1));
            }
            if left < w {
                return match &line.spans[i].kind {
                    SpanKind::Link(occurrence) => Some(*occurrence),
                    _ => None,
                };
            }
            left = left - w;
        }
        None
    }
}

} // verus!
