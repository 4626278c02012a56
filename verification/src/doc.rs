//! The document model: what an article is once it has been parsed.
use vstd::prelude::*;

use crate::text::concat_all;
use crate::text::lemma_concat_push;
use crate::text::starts_with_char;

verus! {

/// The style of one inline run of text.
#[derive(Debug, Clone, PartialEq, Eq)]
pub enum SpanStyle {
    Plain,
    Bold,
    Italic,
    Superscript,
    /// A link and its target.
    Link(String),
    /// A link to a page that does not exist.
    RedLink(String),
    /// A formula, in the Unicode-normalized form it is displayed in; the
    /// span's text is its TeX source.
    Math(String),
    /// A "citation needed" marker.
    CitationNeeded,
}

/// One inline run of text.
#[derive(Debug, Clone, PartialEq, Eq)]
pub struct Span {
    pub text: String,
    pub style: SpanStyle,
}

/// One picture of a gallery.
#[derive(Debug, Clone, PartialEq, Eq)]
pub struct GalleryItem {
    pub src: Option<String>,
    pub caption: String,
}

/// One cell of a table.
#[derive(Debug, Clone, PartialEq, Eq)]
pub struct TableCell {
    pub text: String,
    pub header: bool,
}

/// A table, row by row.
#[derive(Debug, Clone, PartialEq, Eq)]
pub struct Table {
    pub rows: Vec<Vec<TableCell>>,
    /// Rows past the parser's cap were dropped.
    pub truncated: bool,
}

/// The class of one token of source code.
#[derive(Debug, Clone, Copy, PartialEq, Eq)]
pub enum TokenKind {
    Plain,
    Keyword,
    Str,
    Comment,
    Number,
}

/// One token of source code.
#[derive(Debug, Clone, PartialEq, Eq)]
pub struct CodeToken {
    pub text: String,
    pub kind: TokenKind,
}

/// One block-level element.
#[derive(Debug, Clone, PartialEq, Eq)]
pub enum Block {
    Heading { level: u8, spans: Vec<Span> },
    Paragraph(Vec<Span>),
    ListItem { ordered: bool, index: u32, depth: u8, spans: Vec<Span> },
    Blockquote(Vec<Span>),
    /// Preformatted source code. `tokens` holds the highlighter's tokens line
    /// by line, or nothing where the language is not one it covers.
    Code { text: String, lang: Option<String>, tokens: Vec<Vec<CodeToken>> },
    Rule,
    Table(Table),
    /// Label and value pairs; an empty label is a title row.
    Infobox(Vec<(String, String)>),
    Image { src: Option<String>, alt: String, caption: Option<String> },
    Gallery(Vec<GalleryItem>),
    /// A formula on its own: its TeX source, and the normalized form it is
    /// displayed in.
    Math { source: String, tex: String, display: bool },
}

/// A parsed article.
#[derive(Debug, Clone, PartialEq, Eq)]
pub struct Document {
    pub title: String,
    pub blocks: Vec<Block>,
    /// How many words the parser counted.
    pub words: usize,
}

/// A source that an article cites.
#[derive(Debug, Clone, PartialEq, Eq)]
pub struct Citation {
    pub id: String,
    pub text: String,
    pub url: Option<String>,
}

/// The texts of `spans`, one after the other.
pub open spec fn span_texts(spans: Seq<Span>) -> Seq<Seq<char>> {
    spans.map_values(|s: Span| s.text@)
}

/// The text of `spans` without any style.
pub open spec fn plain_text(spans: Seq<Span>) -> Seq<char> {
    concat_all(span_texts(spans))
}

/// The text of `spans` without any style.
pub fn flatten_plain(spans: &Vec<Span>) -> (r: String)
    ensures
        r@ == plain_text(spans@),
{
    let mut out = String::new();
    let n: usize = spans.len();
    for i in 0..n
        invariant
            n == spans.len(),
            out@ == concat_all(span_texts(spans@).take(i as int)),
    {
        proof {
            let t = span_texts(spans@);
            lemma_concat_push(t.take(i as int), t[i as int]);
            assert(t.take(i as int).push(t[i as int]) =~= t.take(i + 1));
        }
        out.push_str(spans[i].text.as_str());
    }
    proof { assert(span_texts(spans@).take(n as int) =~= span_texts(spans@)); }
    out
}

/// A same-page fragment target, which marks a reference and is not followed.
pub open spec fn is_fragment(href: Seq<char>) -> bool {
    href.len() > 0 && href[0] == '#'
}

/// Whether a run of text is a link a reader can follow.
pub open spec fn followable(style: SpanStyle) -> bool {
    match style {
        SpanStyle::Link(href) => !is_fragment(href@),
        SpanStyle::RedLink(href) => !is_fragment(href@),
        _ => false,
    }
}

/// Whether a run of text is a link a reader can follow.
pub fn is_followable(style: &SpanStyle) -> (r: bool)
    ensures
        r == followable(*style),
{
    match style {
        SpanStyle::Link(href) => !starts_with_char(href.as_str(), '#'),
        SpanStyle::RedLink(href) => !starts_with_char(href.as_str(), '#'),
        _ => false,
    }
}

/// How many of `spans` are followable links.
pub open spec fn link_count(spans: Seq<Span>) -> nat
    decreases spans.len(),
{
    if spans.len() == 0 {
        0
    } else {
        link_count(spans.drop_last()) + if followable(spans.last().style) {
            1nat
        } else {
            0nat
        }
    }
}

/// How many of `spans` are followable links.
pub fn count_links(spans: &Vec<Span>) -> (r: usize)
    ensures
        r as nat == link_count(spans@),
        r <= spans.len(),
{
    let mut count: usize = 0;
    let n: usize = spans.len();
    for i in 0..n
        invariant
            n == spans.len(),
            count as nat == link_count(spans@.take(i as int)),
            count <= i,
    {
        proof { assert(spans@.take(i + 1).drop_last() =~= spans@.take(i as int)); }
        if is_followable(&spans[i].style) {
            count = count + 1;
        }
    }
    proof { assert(spans@.take(n as int) =~= spans@); }
    count
}

impl Table {
    /// The number of columns: the longest row.
    pub open spec fn col_count(self) -> nat {
        max_len(self.rows@)
    }

    /// Whether the first row holds a header cell.
    pub open spec fn header_row(self) -> bool {
        self.rows@.len() > 0 && any_header(self.rows@[0]@)
    }

    /// The number of columns.
    pub fn cols(&self) -> (r: usize)
        ensures
            r as nat == self.col_count(),
    {
        let mut best: usize = 0;
        let n: usize = self.rows.len();
        for i in 0..n
            invariant
                n == self.rows.len(),
                best as nat == max_len(self.rows@.take(i as int)),
        {
            proof { assert(self.rows@.take(i + 1).drop_last() =~= self.rows@.take(i as int)); }
            if self.rows[i].len() > best {
                best = self.rows[i].len();
            }
        }
        proof { assert(self.rows@.take(n as int) =~= self.rows@); }
        best
    }

    /// Whether the first row holds a header cell.
    pub fn has_header_row(&self) -> (r: bool)
        ensures
            r == self.header_row(),
    {
        if self.rows.len() == 0 {
            return false;
        }
        let row = &self.rows[0];
        let n: usize = row.len();
        for i in 0..n
            invariant
                n == row.len(),
                self.rows.len() > 0,
                row@ == self.rows@[0]@,
                forall|j: int| 0 <= j < i ==> !(#[trigger] row@[j]).header,
        {
            if row[i].header {
                assert(row@[i as int].header);
                return true;
            }
        }
        false
    }

    /// The table as a list: one "header: value" line for each cell of a body
    /// row, or the bare value in a column without a header, and an empty line
    /// after each row but the last.
    pub open spec fn list_lines(self) -> Seq<Seq<char>> {
        let first = if self.header_row() {
            1
        } else {
            0
        };
        list_rows(self, first, self.rows@.len() as int)
    }

    /// The table as a list of "header: value" lines.
    pub fn to_list_lines(&self) -> (r: Vec<String>)
        ensures
            r@.map_values(|s: String| s@) == self.list_lines(),
    {
        let header = self.has_header_row();
        let first: usize = if header {
            1
        } else {
            0
        };
        let mut out: Vec<String> = Vec::new();
        let n: usize = self.rows.len();
        let mut i: usize = first;
        while i < n
            invariant
                header == self.header_row(),
                first == (if header {
                    1int
                } else {
                    0
                }),
                n == self.rows.len(),
                first <= i <= n || (first == i && i > n),
                out@.map_values(|s: String| s@) == list_rows(*self, first as int, i as int),
            decreases n - i,
        {
            let ghost before = out@.map_values(|s: String| s@);
            if i > first {
                out.push(String::new());
                proof {
                    assert(out@.map_values(|s: String| s@) =~= before.push(Seq::empty()));
                }
            }
            let ghost base = out@.map_values(|s: String| s@);
            let m: usize = self.rows[i].len();
            for c in 0..m
                invariant
                    header == self.header_row(),
                    i < self.rows.len(),
                    m == self.rows@[i as int].len(),
                    out@.map_values(|s: String| s@) == base + list_cells(
                        *self,
                        i as int,
                        c as int,
                    ),
            {
                let mut line = String::new();
                if header && c < self.rows[0].len() && !self.rows[0][c].text.as_str().is_empty() {
                    line.push_str(self.rows[0][c].text.as_str());
                    line.push_str(": ");
                }
                line.push_str(self.rows[i][c].text.as_str());
                proof {
                    assert(line@ =~= list_cell(*self, i as int, c as int));
                }
                let ghost pre = out@;
                out.push(line);
                proof {
                    assert(out@.map_values(|s: String| s@) =~= pre.map_values(|s: String| s@).push(
                        line@,
                    ));
                    assert(base + list_cells(*self, i as int, c + 1) =~= (base + list_cells(
                        *self,
                        i as int,
                        c as int,
                    )).push(line@));
                }
            }
            i = i + 1;
        }
        out
    }
}

/// The length of the longest row.
pub open spec fn max_len(rows: Seq<Vec<TableCell>>) -> nat
    decreases rows.len(),
{
    if rows.len() == 0 {
        0
    } else if rows.last()@.len() > max_len(rows.drop_last()) {
        rows.last()@.len()
    } else {
        max_len(rows.drop_last())
    }
}

/// Some cell of the row is a header cell.
pub open spec fn any_header(row: Seq<TableCell>) -> bool {
    exists|i: int| 0 <= i < row.len() && (#[trigger] row[i]).header
}

/// One cell of the list form.
pub open spec fn list_cell(t: Table, row: int, col: int) -> Seq<char> {
    let value = t.rows@[row]@[col].text@;
    if t.header_row() && col < t.rows@[0]@.len() && t.rows@[0]@[col].text@.len() > 0 {
        t.rows@[0]@[col].text@ + ": "@ + value
    } else {
        value
    }
}

/// The first `cols` cells of a row in list form.
pub open spec fn list_cells(t: Table, row: int, cols: int) -> Seq<Seq<char>> {
    Seq::new(cols as nat, |c: int| list_cell(t, row, c))
}

/// Rows `first..end` in list form.
pub open spec fn list_rows(t: Table, first: int, end: int) -> Seq<Seq<char>>
    decreases end - first,
{
    if end <= first {
        Seq::empty()
    } else {
        let before = list_rows(t, first, end - 1);
        let gap = if end - 1 > first {
            before.push(Seq::empty())
        } else {
            before
        };
        gap + list_cells(t, end - 1, t.rows@[end - 1]@.len() as int)
    }
}

/// The minutes a reader takes for `words` words at `wpm` words a minute,
/// rounded up.
pub open spec fn minutes_to_read(words: nat, wpm: nat) -> nat {
    let rate = if wpm == 0 {
        1
    } else {
        wpm
    };
    (words + rate - 1) as nat / rate
}

/// The minutes a reader takes for `words` words at `wpm` words a minute,
/// rounded up.
pub fn reading_minutes(words: usize, wpm: u32) -> (r: usize)
    ensures
        r as nat == minutes_to_read(words as nat, wpm as nat),
{
    let rate: usize = if wpm == 0 {
        1
    } else {
        wpm as usize
    };
    let whole: usize = words / rate;
    let rest: usize = words % rate;
    proof {
        let w = words as int;
        let d = rate as int;
        vstd::arithmetic::div_mod::lemma_fundamental_div_mod(w, d);
        let q = w / d;
        let r = w % d;
        if r > 0 {
            assert(w + d - 1 == (q + 1) * d + (r - 1)) by (nonlinear_arith)
                requires
                    w == d * q + r,
            ;
            vstd::arithmetic::div_mod::lemma_fundamental_div_mod_converse(
                w + d - 1,
                d,
                q + 1,
                r - 1,
            );
        } else {
            assert(w + d - 1 == q * d + (d - 1)) by (nonlinear_arith)
                requires
                    w == d * q + r,
                    r == 0,
            ;
            vstd::arithmetic::div_mod::lemma_fundamental_div_mod_converse(w + d - 1, d, q, d - 1);
        }
        assert(q <= w) by (nonlinear_arith)
            requires
                w == d * q + r,
                d >= 1,
                r >= 0,
                q >= 0,
        ;
        if r > 0 {
            assert(q < w) by (nonlinear_arith)
                requires
                    w == d * q + r,
                    d >= 1,
                    r > 0,
                    q >= 0,
            ;
        }
    }
    if rest > 0 {
        whole + 1
    } else {
        whole
    }
}

} // verus!
