//! What a page shows is in its exports, all of it and in order.
use crate::doc::{list_cell, list_cells, list_rows, Block, Document, GalleryItem, Span, SpanStyle, Table};
use crate::research::article_address;
use crate::saved_export::{
    all_escaped, bounded, captions, embedded, exported, html_block, html_blocks, html_char,
    html_document, html_escaped, html_head, html_pair, html_pairs, html_picture, html_span,
    html_spans, md_block, md_blocks, md_document, md_escaped, md_pair, md_pairs, md_span, md_spans,
    md_special, resolved_href, up_to, wrapped_each,
};
use crate::research::opt_view;
use crate::text::{decimal, has_prefix, run_of, spaces, stands_at, swapped};
use crate::text_laws::{decimal_reads_back, is_numeral, number_read};
use vstd::prelude::*;

verus! {

/// What Markdown shows for `s`: a backslash makes the next character plain text;
/// a character that is markup, and not made plain, is not text at all.
pub open spec fn md_read(s: Seq<char>) -> Option<Seq<char>>
    decreases s.len(),
{
    if s.len() == 0 {
        Some(Seq::empty())
    } else if s[0] == '\\' {
        if s.len() < 2 {
            None
        } else {
            match md_read(s.skip(2)) {
                Some(rest) => Some(seq![s[1]] + rest),
                None => None,
            }
        }
    } else if s[0] == '`' || s[0] == '*' || s[0] == '_' || s[0] == '[' || s[0] == ']' {
        None
    } else {
        match md_read(s.skip(1)) {
            Some(rest) => Some(seq![s[0]] + rest),
            None => None,
        }
    }
}

/// What HTML shows for `s`: a reference is the character it names; a character
/// of a tag or an attribute's bounds is not text at all.
pub open spec fn html_read(s: Seq<char>) -> Option<Seq<char>>
    decreases s.len(),
{
    if s.len() == 0 {
        Some(Seq::empty())
    } else {
        let (c, n): (Option<char>, int) = if has_prefix(s, "&amp;"@) {
            (Some('&'), 5)
        } else if has_prefix(s, "&lt;"@) {
            (Some('<'), 4)
        } else if has_prefix(s, "&gt;"@) {
            (Some('>'), 4)
        } else if has_prefix(s, "&quot;"@) {
            (Some('"'), 6)
        } else if s[0] == '&' || s[0] == '<' || s[0] == '>' || s[0] == '"' {
            (None, 1)
        } else {
            (Some(s[0]), 1)
        };
        if n > s.len() {
            None
        } else {
            match (c, html_read(s.skip(n))) {
                (Some(c), Some(rest)) => Some(seq![c] + rest),
                _ => None,
            }
        }
    }
}

/// A character, escaped for Markdown where it has to be.
spec fn md_char(c: char) -> Seq<char> {
    if md_special(c) {
        seq!['\\', c]
    } else {
        seq![c]
    }
}

proof fn lemma_md_front(c: char, t: Seq<char>)
    ensures
        md_escaped(seq![c] + t) == md_char(c) + md_escaped(t),
    decreases t.len(),
{
    let s = seq![c] + t;
    if t.len() == 0 {
        assert(s.drop_last() =~= Seq::empty());
        assert(md_escaped(s.drop_last()) =~= Seq::empty());
        assert(md_escaped(s) =~= md_char(c) + md_escaped(t));
    } else {
        lemma_md_front(c, t.drop_last());
        assert(s.drop_last() =~= seq![c] + t.drop_last());
        assert(md_escaped(s) =~= md_char(c) + md_escaped(t));
    }
}

/// Text that is escaped for Markdown shows as the text.
pub proof fn escaped_markdown_reads_back(s: Seq<char>)
    ensures
        md_read(md_escaped(s)) == Some(s),
    decreases s.len(),
{
    if s.len() > 0 {
        let c = s[0];
        let t = s.drop_first();
        assert(s =~= seq![c] + t);
        lemma_md_front(c, t);
        escaped_markdown_reads_back(t);
        let e = md_escaped(s);
        if md_special(c) {
            assert(e.skip(2) =~= md_escaped(t));
        } else {
            assert(e.skip(1) =~= md_escaped(t));
        }
    }
}

proof fn lemma_html_front(c: char, t: Seq<char>)
    ensures
        html_escaped(seq![c] + t) == html_char(c) + html_escaped(t),
    decreases t.len(),
{
    let s = seq![c] + t;
    if t.len() == 0 {
        assert(s.drop_last() =~= Seq::empty());
        assert(html_escaped(s.drop_last()) =~= Seq::empty());
        assert(html_escaped(s) =~= html_char(c) + html_escaped(t));
    } else {
        lemma_html_front(c, t.drop_last());
        assert(s.drop_last() =~= seq![c] + t.drop_last());
        assert(html_escaped(s) =~= html_char(c) + html_escaped(t));
    }
}

/// Text that is escaped for HTML shows as the text.
pub proof fn escaped_html_reads_back(s: Seq<char>)
    ensures
        html_read(html_escaped(s)) == Some(s),
    decreases s.len(),
{
    if s.len() > 0 {
        let c = s[0];
        let t = s.drop_first();
        assert(s =~= seq![c] + t);
        lemma_html_front(c, t);
        escaped_html_reads_back(t);
        let e = html_escaped(s);
        let h = html_char(c);
        reveal_strlit("&amp;");
        reveal_strlit("&lt;");
        reveal_strlit("&gt;");
        reveal_strlit("&quot;");
        assert(e.skip(h.len() as int) =~= html_escaped(t));
        assert(e.take(h.len() as int) =~= h);
        if c == '&' {
            assert(has_prefix(e, "&amp;"@));
        } else if c == '<' {
            assert(has_prefix(e, "&lt;"@));
            assert(e[1] == 'l');
            assert("&amp;"@[1] == 'a');
            if has_prefix(e, "&amp;"@) {
                assert(e.take(5)[1] == 'a');
            }
        } else if c == '>' {
            assert(has_prefix(e, "&gt;"@));
            assert(e[1] == 'g');
            if has_prefix(e, "&amp;"@) {
                assert(e.take(5)[1] == 'a');
            }
            if has_prefix(e, "&lt;"@) {
                assert(e.take(4)[1] == 'l');
            }
        } else if c == '"' {
            assert(has_prefix(e, "&quot;"@));
            assert(e[1] == 'q');
            if has_prefix(e, "&amp;"@) {
                assert(e.take(5)[1] == 'a');
            }
            if has_prefix(e, "&lt;"@) {
                assert(e.take(4)[1] == 'l');
            }
            if has_prefix(e, "&gt;"@) {
                assert(e.take(4)[1] == 'g');
            }
        } else {
            assert(e[0] == c);
            if has_prefix(e, "&amp;"@) {
                assert(e.take(5)[0] == '&');
            }
            if has_prefix(e, "&lt;"@) {
                assert(e.take(4)[0] == '&');
            }
            if has_prefix(e, "&gt;"@) {
                assert(e.take(4)[0] == '&');
            }
            if has_prefix(e, "&quot;"@) {
                assert(e.take(6)[0] == '&');
            }
        }
    }
}

/// The parts stand in `s` one behind the other, at the places `at`.
pub open spec fn in_order(s: Seq<char>, parts: Seq<Seq<char>>, at: Seq<int>) -> bool {
    &&& at.len() == parts.len()
    &&& forall|i: int| 0 <= i < parts.len() ==> stands_at(s, #[trigger] parts[i], at[i])
    &&& forall|i: int, j: int|
        0 <= i < j < parts.len() ==> (#[trigger] at[i]) + parts[i].len() <= (#[trigger] at[j])
}

proof fn lemma_none(s: Seq<char>) -> (at: Seq<int>)
    ensures
        in_order(s, Seq::empty(), at),
{
    Seq::empty()
}

proof fn lemma_one(a: Seq<char>, p: Seq<char>, b: Seq<char>) -> (at: Seq<int>)
    ensures
        in_order(a + p + b, seq![p], at),
{
    let at = seq![a.len() as int];
    assert((a + p + b).subrange(a.len() as int, (a.len() + p.len()) as int) =~= p);
    at
}

proof fn lemma_both(
    s: Seq<char>,
    p: Seq<Seq<char>>,
    at: Seq<int>,
    t: Seq<char>,
    q: Seq<Seq<char>>,
    bt: Seq<int>,
) -> (r: Seq<int>)
    requires
        in_order(s, p, at),
        in_order(t, q, bt),
    ensures
        in_order(s + t, p + q, r),
{
    let n = s.len() as int;
    let r = at + bt.map_values(|i: int| n + i);
    let all = s + t;
    let pq = p + q;
    assert forall|i: int| 0 <= i < pq.len() implies stands_at(all, #[trigger] pq[i], r[i]) by {
        if i < p.len() {
            assert(stands_at(s, p[i], at[i]));
            assert(all.subrange(at[i], at[i] + p[i].len()) =~= s.subrange(
                at[i],
                at[i] + p[i].len(),
            ));
        } else {
            let k = i - p.len();
            assert(stands_at(t, q[k], bt[k]));
            assert(all.subrange(n + bt[k], n + bt[k] + q[k].len()) =~= t.subrange(
                bt[k],
                bt[k] + q[k].len(),
            ));
        }
    }
    assert forall|i: int, j: int| 0 <= i < j < pq.len() implies (#[trigger] r[i]) + pq[i].len() <= (
    #[trigger] r[j]) by {
        if j < p.len() {
            assert(at[i] + p[i].len() <= at[j]);
        } else if i >= p.len() {
            let (x, y) = (i - p.len(), j - p.len());
            assert(bt[x] + q[x].len() <= bt[y]);
        } else {
            assert(stands_at(s, p[i], at[i]));
            assert(stands_at(t, q[j - p.len()], bt[j - p.len()]));
        }
    }
    r
}

/// The same parts in a longer text.
proof fn lemma_around(a: Seq<char>, s: Seq<char>, b: Seq<char>, p: Seq<Seq<char>>, at: Seq<int>) -> (
    r: Seq<int>)
    requires
        in_order(s, p, at),
    ensures
        in_order(a + s + b, p, r),
{
    let none = Seq::<Seq<char>>::empty();
    let before = lemma_none(a);
    let behind = lemma_none(b);
    let x = lemma_both(a, none, before, s, p, at);
    let y = lemma_both(a + s, none + p, x, b, none, behind);
    assert(none + p + none =~= p);
    y
}

/// A text that a page shows; `raw` where it is not prose, and stands in
/// Markdown letter for letter.
#[verifier::ext_equal]
pub struct Part {
    pub text: Seq<char>,
    pub raw: bool,
}

/// Text that stands letter for letter.
pub open spec fn raw(text: Seq<char>) -> Part {
    Part { text, raw: true }
}

/// Prose.
pub open spec fn prose(text: Seq<char>) -> Part {
    Part { text, raw: false }
}

/// What a run of text shows in Markdown: its text, a formula as its source, and
/// a link's address behind it.
pub open spec fn span_parts(span: Span, lang: Seq<char>) -> Seq<Part> {
    match span.style {
        SpanStyle::Math(_) => seq![raw(span.text@)],
        SpanStyle::Link(href) => seq![prose(span.text@), raw(resolved_href(href@, lang))],
        SpanStyle::RedLink(href) => seq![prose(span.text@), raw(resolved_href(href@, lang))],
        _ => seq![prose(span.text@)],
    }
}

/// What a run of text shows in HTML: the address that a link leads to, and its
/// text.
pub open spec fn html_span_parts(span: Span, lang: Seq<char>) -> Seq<Part> {
    match span.style {
        SpanStyle::Link(href) => seq![raw(resolved_href(href@, lang)), prose(span.text@)],
        SpanStyle::RedLink(href) => seq![raw(resolved_href(href@, lang)), prose(span.text@)],
        _ => seq![prose(span.text@)],
    }
}

/// What runs of text show.
pub open spec fn spans_parts(spans: Seq<Span>, lang: Seq<char>, html: bool) -> Seq<Part>
    decreases spans.len(),
{
    if spans.len() == 0 {
        Seq::empty()
    } else {
        spans_parts(spans.drop_last(), lang, html) + if html {
            html_span_parts(spans.last(), lang)
        } else {
            span_parts(spans.last(), lang)
        }
    }
}

/// A table whose first row holds a header.
pub open spec fn headed(t: Table) -> bool {
    t.rows@.len() > 0 && exists|c: int| 0 <= c < t.rows@[0]@.len() && (#[trigger]
        t.rows@[0]@[c]).header
}

/// A cell's text, behind its column's header where it has one.
pub open spec fn labelled(t: Table, r: int, c: int) -> Seq<char> {
    let text = t.rows@[r]@[c].text@;
    if headed(t) && c < t.rows@[0]@.len() && t.rows@[0]@[c].text@.len() > 0 {
        t.rows@[0]@[c].text@ + seq![':', ' '] + text
    } else {
        text
    }
}

/// The cells of a row, from left to right.
pub open spec fn row_parts(t: Table, r: int) -> Seq<Part> {
    Seq::new(t.rows@[r]@.len(), |c: int| raw(labelled(t, r, c)))
}

/// The cells of rows `from..to`, row by row.
pub open spec fn rows_parts(t: Table, from: int, to: int) -> Seq<Part>
    decreases to - from,
{
    if to <= from {
        Seq::empty()
    } else {
        rows_parts(t, from, to - 1) + row_parts(t, to - 1)
    }
}

/// What a table shows: the cells below its header.
pub open spec fn table_parts(t: Table) -> Seq<Part> {
    rows_parts(
        t,
        if headed(t) {
            1
        } else {
            0
        },
        t.rows@.len() as int,
    )
}

/// What label and value pairs show.
pub open spec fn pairs_parts(rows: Seq<(String, String)>) -> Seq<Part>
    decreases rows.len(),
{
    if rows.len() == 0 {
        Seq::empty()
    } else {
        let pair = rows.last();
        pairs_parts(rows.drop_last()) + if pair.0@.len() == 0 {
            seq![raw(pair.1@)]
        } else {
            seq![raw(pair.0@), raw(pair.1@)]
        }
    }
}

/// What a block shows, in reading order.
pub open spec fn block_parts(block: Block, lang: Seq<char>, html: bool) -> Seq<Part> {
    match block {
        Block::Heading { spans, .. } => spans_parts(spans@, lang, html),
        Block::Paragraph(spans) => spans_parts(spans@, lang, html),
        Block::ListItem { spans, .. } => spans_parts(spans@, lang, html),
        Block::Blockquote(spans) => spans_parts(spans@, lang, html),
        Block::Code { text, .. } => seq![raw(text@)],
        Block::Rule => Seq::empty(),
        Block::Table(table) => table_parts(table),
        Block::Infobox(rows) => pairs_parts(rows@),
        Block::Image { alt, caption, .. } => match caption {
            Some(c) => seq![raw(alt@), raw(c@)],
            None => seq![raw(alt@)],
        },
        Block::Gallery(items) => Seq::new(items@.len(), |i: int| raw(items@[i].caption@)),
        Block::Math { source, .. } => seq![raw(source@)],
    }
}

/// What blocks show, in reading order.
pub open spec fn blocks_parts(blocks: Seq<Block>, lang: Seq<char>, html: bool) -> Seq<Part>
    decreases blocks.len(),
{
    if blocks.len() == 0 {
        Seq::empty()
    } else {
        blocks_parts(blocks.drop_last(), lang, html) + block_parts(blocks.last(), lang, html)
    }
}

/// What an export shows: the title, the blocks in reading order, and the footer.
pub open spec fn export_parts(doc: Document, lang: Seq<char>, footer: Seq<char>, html: bool) -> Seq<
    Part,
> {
    seq![raw(doc.title@)] + blocks_parts(doc.blocks@, lang, html) + seq![raw(footer)]
}

/// A text of Markdown shows a part.
pub open spec fn md_shows(s: Seq<char>, p: Part) -> bool {
    if p.raw {
        s == p.text
    } else {
        md_read(s) == Some(p.text)
    }
}

/// A text of HTML shows a part.
pub open spec fn html_shows(s: Seq<char>, p: Part) -> bool {
    html_read(s) == Some(p.text)
}

spec fn form(p: Part, html: bool) -> Seq<char> {
    if html {
        html_escaped(p.text)
    } else if p.raw {
        p.text
    } else {
        md_escaped(p.text)
    }
}

spec fn forms(parts: Seq<Part>, html: bool) -> Seq<Seq<char>> {
    parts.map_values(|p: Part| form(p, html))
}

proof fn lemma_forms_add(a: Seq<Part>, b: Seq<Part>, html: bool)
    ensures
        forms(a + b, html) == forms(a, html) + forms(b, html),
{
    assert(forms(a + b, html) =~= forms(a, html) + forms(b, html));
}

/// One part between two texts.
proof fn lemma_part(a: Seq<char>, p: Part, b: Seq<char>, html: bool) -> (at: Seq<int>)
    ensures
        in_order(a + form(p, html) + b, forms(seq![p], html), at),
{
    assert(forms(seq![p], html) =~= seq![form(p, html)]);
    lemma_one(a, form(p, html), b)
}

/// Two parts, with texts round them.
proof fn lemma_two(
    a: Seq<char>,
    p: Part,
    b: Seq<char>,
    q: Part,
    c: Seq<char>,
    html: bool,
) -> (at: Seq<int>)
    ensures
        in_order(a + form(p, html) + b + form(q, html) + c, forms(seq![p, q], html), at),
{
    let none = Seq::<char>::empty();
    let x = lemma_part(a, p, b, html);
    let y = lemma_part(none, q, c, html);
    let at = lemma_both(
        a + form(p, html) + b,
        forms(seq![p], html),
        x,
        none + form(q, html) + c,
        forms(seq![q], html),
        y,
    );
    assert(a + form(p, html) + b + (none + form(q, html) + c) =~= a + form(p, html) + b + form(
        q,
        html,
    ) + c);
    assert(forms(seq![p], html) + forms(seq![q], html) =~= forms(seq![p, q], html));
    at
}

proof fn lemma_md_span(span: Span, lang: Seq<char>) -> (at: Seq<int>)
    ensures
        in_order(md_span(span, lang), forms(span_parts(span, lang), false), at),
{
    let none = Seq::<char>::empty();
    let p = prose(span.text@);
    match span.style {
        SpanStyle::Bold => lemma_part("**"@, p, "**"@, false),
        SpanStyle::Italic => lemma_part("*"@, p, "*"@, false),
        SpanStyle::Link(href) => lemma_two(
            "["@,
            p,
            "]("@,
            raw(resolved_href(href@, lang)),
            ")"@,
            false,
        ),
        SpanStyle::RedLink(href) => lemma_two(
            "["@,
            p,
            "]("@,
            raw(resolved_href(href@, lang)),
            ")"@,
            false,
        ),
        SpanStyle::Math(_) => lemma_part("`"@, raw(span.text@), "`"@, false),
        _ => {
            assert(none + form(p, false) + none =~= form(p, false));
            lemma_part(none, p, none, false)
        },
    }
}

proof fn lemma_html_span(span: Span, lang: Seq<char>) -> (at: Seq<int>)
    ensures
        in_order(html_span(span, lang), forms(html_span_parts(span, lang), true), at),
{
    let none = Seq::<char>::empty();
    let p = prose(span.text@);
    match span.style {
        SpanStyle::Bold => lemma_part("<strong>"@, p, "</strong>"@, true),
        SpanStyle::Italic => lemma_part("<em>"@, p, "</em>"@, true),
        SpanStyle::Superscript => lemma_part("<sup>"@, p, "</sup>"@, true),
        SpanStyle::CitationNeeded => lemma_part("<sup>"@, p, "</sup>"@, true),
        SpanStyle::Link(href) => lemma_two(
            "<a href=\""@,
            raw(resolved_href(href@, lang)),
            "\">"@,
            p,
            "</a>"@,
            true,
        ),
        SpanStyle::RedLink(href) => lemma_two(
            "<a href=\""@,
            raw(resolved_href(href@, lang)),
            "\">"@,
            p,
            "</a>"@,
            true,
        ),
        SpanStyle::Math(_) => lemma_part("<code>"@, p, "</code>"@, true),
        SpanStyle::Plain => {
            assert(none + form(p, true) + none =~= form(p, true));
            lemma_part(none, p, none, true)
        },
    }
}

spec fn spans_text(spans: Seq<Span>, lang: Seq<char>, html: bool) -> Seq<char> {
    if html {
        html_spans(spans, lang)
    } else {
        md_spans(spans, lang)
    }
}

proof fn lemma_spans(spans: Seq<Span>, lang: Seq<char>, html: bool) -> (at: Seq<int>)
    ensures
        in_order(spans_text(spans, lang, html), forms(spans_parts(spans, lang, html), html), at),
    decreases spans.len(),
{
    if spans.len() == 0 {
        assert(forms(spans_parts(spans, lang, html), html) =~= Seq::empty());
        lemma_none(spans_text(spans, lang, html))
    } else {
        let x = lemma_spans(spans.drop_last(), lang, html);
        let before = spans_parts(spans.drop_last(), lang, html);
        let last = spans.last();
        let (text, parts) = if html {
            (html_span(last, lang), html_span_parts(last, lang))
        } else {
            (md_span(last, lang), span_parts(last, lang))
        };
        let y = if html {
            lemma_html_span(last, lang)
        } else {
            lemma_md_span(last, lang)
        };
        lemma_forms_add(before, parts, html);
        lemma_both(
            spans_text(spans.drop_last(), lang, html),
            forms(before, html),
            x,
            text,
            forms(parts, html),
            y,
        )
    }
}

proof fn lemma_each_add(open: Seq<char>, a: Seq<Seq<char>>, b: Seq<Seq<char>>, close: Seq<char>)
    ensures
        wrapped_each(open, a + b, close) == wrapped_each(open, a, close) + wrapped_each(
            open,
            b,
            close,
        ),
    decreases b.len(),
{
    if b.len() == 0 {
        assert(a + b =~= a);
        assert(wrapped_each(open, a, close) + wrapped_each(open, b, close) =~= wrapped_each(
            open,
            a,
            close,
        ));
    } else {
        lemma_each_add(open, a, b.drop_last(), close);
        assert((a + b).drop_last() =~= a + b.drop_last());
        let x = wrapped_each(open, a, close);
        let y = wrapped_each(open, b.drop_last(), close);
        assert(x + y + open + b.last() + close =~= x + (y + open + b.last() + close));
    }
}

proof fn lemma_each(open: Seq<char>, list: Seq<Seq<char>>, close: Seq<char>) -> (at: Seq<int>)
    ensures
        in_order(wrapped_each(open, list, close), list, at),
    decreases list.len(),
{
    if list.len() == 0 {
        assert(list =~= Seq::empty());
        lemma_none(wrapped_each(open, list, close))
    } else {
        let front = list.drop_last();
        let x = lemma_each(open, front, close);
        let y = lemma_one(open, list.last(), close);
        let before = wrapped_each(open, front, close);
        let at = lemma_both(before, front, x, open + list.last() + close, seq![list.last()], y);
        assert(before + (open + list.last() + close) =~= wrapped_each(open, list, close));
        assert(front + seq![list.last()] =~= list);
        at
    }
}

/// A table's lines as an export writes them.
spec fn cell_forms(list: Seq<Seq<char>>, html: bool) -> Seq<Seq<char>> {
    if html {
        all_escaped(list)
    } else {
        list
    }
}

proof fn lemma_rows(
    t: Table,
    first: int,
    end: int,
    open: Seq<char>,
    close: Seq<char>,
    html: bool,
) -> (at: Seq<int>)
    requires
        0 <= first,
        end <= t.rows@.len(),
    ensures
        in_order(
            wrapped_each(open, cell_forms(list_rows(t, first, end), html), close),
            forms(rows_parts(t, first, end), html),
            at,
        ),
    decreases end - first,
{
    let list = cell_forms(list_rows(t, first, end), html);
    let all = wrapped_each(open, list, close);
    if end <= first {
        assert(forms(rows_parts(t, first, end), html) =~= Seq::empty());
        lemma_none(all)
    } else {
        let x = lemma_rows(t, first, end - 1, open, close, html);
        let before = cell_forms(list_rows(t, first, end - 1), html);
        let cells = list_cells(t, end - 1, t.rows@[end - 1]@.len() as int);
        let here = cell_forms(cells, html);
        let y = lemma_each(open, here, close);
        let empty = Seq::<char>::empty();
        let gap: Seq<Seq<char>> = if end - 1 > first {
            cell_forms(seq![empty], html)
        } else {
            Seq::empty()
        };
        assert(list =~= before + gap + here);
        lemma_each_add(open, before + gap, here, close);
        lemma_each_add(open, before, gap, close);
        let (a, g, b) = (
            wrapped_each(open, before, close),
            wrapped_each(open, gap, close),
            wrapped_each(open, here, close),
        );
        let parts = rows_parts(t, first, end - 1);
        let row = row_parts(t, end - 1);
        assert(forms(row, html) =~= here) by {
            assert forall|c: int| 0 <= c < here.len() implies forms(row, html)[c] == here[c] by {
                reveal_strlit(": ");
                assert(": "@ =~= seq![':', ' ']);
                assert(cells[c] == list_cell(t, end - 1, c));
                assert(headed(t) == t.header_row());
                assert(row[c].text =~= cells[c]);
            }
        }
        let none = Seq::<Seq<char>>::empty();
        let blank = lemma_none(g);
        let z = lemma_both(a, forms(parts, html), x, g, none, blank);
        let w = lemma_both(a + g, forms(parts, html) + none, z, b, forms(row, html), y);
        lemma_forms_add(parts, row, html);
        assert(forms(parts, html) + none + forms(row, html) =~= forms(parts + row, html));
        w
    }
}

proof fn lemma_pairs(rows: Seq<(String, String)>, html: bool) -> (at: Seq<int>)
    ensures
        in_order(
            if html {
                html_pairs(rows)
            } else {
                md_pairs(rows)
            },
            forms(pairs_parts(rows), html),
            at,
        ),
    decreases rows.len(),
{
    let all = if html {
        html_pairs(rows)
    } else {
        md_pairs(rows)
    };
    if rows.len() == 0 {
        assert(forms(pairs_parts(rows), html) =~= Seq::empty());
        lemma_none(all)
    } else {
        let x = lemma_pairs(rows.drop_last(), html);
        let pair = rows.last();
        let before = pairs_parts(rows.drop_last());
        let (p, q) = (raw(pair.0@), raw(pair.1@));
        let titled = pair.0@.len() == 0;
        let parts = if titled {
            seq![q]
        } else {
            seq![p, q]
        };
        let text = if html {
            html_pair(pair)
        } else {
            md_pair(pair)
        };
        let y = if html && titled {
            lemma_part("<tr><th colspan=\"2\">"@, q, "</th></tr>\n"@, true)
        } else if html {
            lemma_two("<tr><th>"@, p, "</th><td>"@, q, "</td></tr>\n"@, true)
        } else if titled {
            lemma_part("**"@, q, "**\n"@, false)
        } else {
            lemma_two("- **"@, p, ":** "@, q, "\n"@, false)
        };
        lemma_forms_add(before, parts, html);
        lemma_both(
            if html {
                html_pairs(rows.drop_last())
            } else {
                md_pairs(rows.drop_last())
            },
            forms(before, html),
            x,
            text,
            forms(parts, html),
            y,
        )
    }
}

proof fn lemma_gallery(
    items: Seq<GalleryItem>,
    open: Seq<char>,
    close: Seq<char>,
    html: bool,
) -> (at: Seq<int>)
    ensures
        in_order(
            wrapped_each(open, cell_forms(captions(items), html), close),
            forms(Seq::new(items.len(), |i: int| raw(items[i].caption@)), html),
            at,
        ),
{
    let list = cell_forms(captions(items), html);
    assert(forms(Seq::new(items.len(), |i: int| raw(items[i].caption@)), html) =~= list);
    lemma_each(open, list, close)
}

proof fn lemma_md_block(block: Block, lang: Seq<char>) -> (at: Seq<int>)
    ensures
        in_order(md_block(block, lang), forms(block_parts(block, lang, false), false), at),
{
    let all = md_block(block, lang);
    let none = Seq::<char>::empty();
    match block {
        Block::Heading { level, spans } => {
            let x = lemma_spans(spans@, lang, false);
            let head = run_of('#', bounded(level as int, 1, 6) as nat) + " "@;
            lemma_around(
                head,
                md_spans(spans@, lang),
                "\n\n"@,
                forms(spans_parts(spans@, lang, false), false),
                x,
            )
        },
        Block::Paragraph(spans) => {
            let x = lemma_spans(spans@, lang, false);
            assert(none + md_spans(spans@, lang) + "\n\n"@ =~= all);
            lemma_around(
                none,
                md_spans(spans@, lang),
                "\n\n"@,
                forms(spans_parts(spans@, lang, false), false),
                x,
            )
        },
        Block::ListItem { ordered, index, depth, spans } => {
            let x = lemma_spans(spans@, lang, false);
            let head = run_of(' ', (2 * depth) as nat) + (if ordered {
                decimal(index as nat) + "."@
            } else {
                "-"@
            }) + " "@;
            lemma_around(
                head,
                md_spans(spans@, lang),
                "\n"@,
                forms(spans_parts(spans@, lang, false), false),
                x,
            )
        },
        Block::Blockquote(spans) => {
            let x = lemma_spans(spans@, lang, false);
            lemma_around(
                "> "@,
                md_spans(spans@, lang),
                "\n\n"@,
                forms(spans_parts(spans@, lang, false), false),
                x,
            )
        },
        Block::Code { text, .. } => {
            let end = (if text@.len() > 0 && text@.last() == '\n' {
                none
            } else {
                "\n"@
            }) + "```\n\n"@;
            assert("```\n"@ + text@ + end =~= all);
            lemma_part("```\n"@, raw(text@), end, false)
        },
        Block::Rule => {
            assert(forms(block_parts(block, lang, false), false) =~= Seq::empty());
            lemma_none(all)
        },
        Block::Table(table) => {
            let first = if headed(table) {
                1int
            } else {
                0
            };
            assert(headed(table) == table.header_row());
            let x = lemma_rows(table, first, table.rows@.len() as int, none, "\n"@, false);
            let lines = wrapped_each(none, table.list_lines(), "\n"@);
            assert(none + lines + "\n"@ =~= all);
            lemma_around(none, lines, "\n"@, forms(table_parts(table), false), x)
        },
        Block::Infobox(rows) => {
            let x = lemma_pairs(rows@, false);
            assert(none + md_pairs(rows@) + "\n"@ =~= all);
            lemma_around(none, md_pairs(rows@), "\n"@, forms(pairs_parts(rows@), false), x)
        },
        Block::Image { src, alt, caption } => match caption {
            Some(c) => {
                assert("*[image: "@ + alt@ + "]*\n"@ + c@ + ("\n"@ + "\n"@) =~= all);
                lemma_two("*[image: "@, raw(alt@), "]*\n"@, raw(c@), "\n"@ + "\n"@, false)
            },
            None => {
                assert("*[image: "@ + alt@ + ("]*\n"@ + none + "\n"@) =~= all);
                lemma_part("*[image: "@, raw(alt@), "]*\n"@ + none + "\n"@, false)
            },
        },
        Block::Gallery(items) => {
            let x = lemma_gallery(items@, "*[image: "@, "]*\n"@, false);
            let lines = wrapped_each("*[image: "@, captions(items@), "]*\n"@);
            assert(none + lines + "\n"@ =~= all);
            lemma_around(
                none,
                lines,
                "\n"@,
                forms(Seq::new(items@.len(), |i: int| raw(items@[i].caption@)), false),
                x,
            )
        },
        Block::Math { source, .. } => lemma_part("```\n"@, raw(source@), "\n```\n\n"@, false),
    }
}

proof fn lemma_html_picture(alt: Seq<char>, bytes: Option<Seq<u8>>) -> (at: Seq<int>)
    ensures
        in_order(html_picture(alt, bytes), forms(seq![raw(alt)], true), at),
{
    match bytes {
        Some(b) => lemma_part(
            "<img src=\"data:image/png;base64,"@ + crate::saved_export::base64_text(b)
                + "\" alt=\""@,
            raw(alt),
            "\">\n"@,
            true,
        ),
        None => lemma_part("<p>[image: "@, raw(alt), "]</p>\n"@, true),
    }
}

proof fn lemma_html_block(
    block: Block,
    lang: Seq<char>,
    nonfree: bool,
    thumbs: Seq<(Seq<char>, Seq<u8>)>,
) -> (at: Seq<int>)
    ensures
        in_order(
            html_block(block, lang, nonfree, thumbs),
            forms(block_parts(block, lang, true), true),
            at,
        ),
{
    let all = html_block(block, lang, nonfree, thumbs);
    let none = Seq::<char>::empty();
    match block {
        Block::Heading { level, spans } => {
            let x = lemma_spans(spans@, lang, true);
            let l = decimal(bounded(level as int, 2, 6) as nat);
            let tail = "</h"@ + l + ">\n"@;
            let text = html_spans(spans@, lang);
            assert("<h"@ + l + ">"@ + text + tail =~= all);
            lemma_around(
                "<h"@ + l + ">"@,
                text,
                tail,
                forms(spans_parts(spans@, lang, true), true),
                x,
            )
        },
        Block::Paragraph(spans) => {
            let x = lemma_spans(spans@, lang, true);
            lemma_around(
                "<p>"@,
                html_spans(spans@, lang),
                "</p>\n"@,
                forms(spans_parts(spans@, lang, true), true),
                x,
            )
        },
        Block::ListItem { ordered, index, depth, spans } => {
            let x = lemma_spans(spans@, lang, true);
            lemma_around(
                "<ul><li>"@,
                html_spans(spans@, lang),
                "</li></ul>\n"@,
                forms(spans_parts(spans@, lang, true), true),
                x,
            )
        },
        Block::Blockquote(spans) => {
            let x = lemma_spans(spans@, lang, true);
            lemma_around(
                "<blockquote>"@,
                html_spans(spans@, lang),
                "</blockquote>\n"@,
                forms(spans_parts(spans@, lang, true), true),
                x,
            )
        },
        Block::Code { text, .. } => lemma_part(
            "<pre><code>"@,
            raw(text@),
            "</code></pre>\n"@,
            true,
        ),
        Block::Rule => {
            assert(forms(block_parts(block, lang, true), true) =~= Seq::empty());
            lemma_none(all)
        },
        Block::Table(table) => {
            let first = if headed(table) {
                1int
            } else {
                0
            };
            assert(headed(table) == table.header_row());
            let x = lemma_rows(table, first, table.rows@.len() as int, "<li>"@, "</li>\n"@, true);
            let lines = wrapped_each("<li>"@, all_escaped(table.list_lines()), "</li>\n"@);
            lemma_around("<ul>\n"@, lines, "</ul>\n"@, forms(table_parts(table), true), x)
        },
        Block::Infobox(rows) => {
            let x = lemma_pairs(rows@, true);
            lemma_around(
                "<table>\n"@,
                html_pairs(rows@),
                "</table>\n"@,
                forms(pairs_parts(rows@), true),
                x,
            )
        },
        Block::Image { src, alt, caption } => {
            let bytes = embedded(opt_view(src), nonfree, thumbs);
            let x = lemma_html_picture(alt@, bytes);
            let pic = html_picture(alt@, bytes);
            let y = lemma_around("<figure>\n"@, pic, none, forms(seq![raw(alt@)], true), x);
            match caption {
                Some(c) => {
                    let q = raw(c@);
                    let z = lemma_part(
                        "<figcaption>"@,
                        q,
                        "</figcaption>\n"@ + "</figure>\n"@,
                        true,
                    );
                    let tail = "<figcaption>"@ + html_escaped(c@) + ("</figcaption>\n"@
                        + "</figure>\n"@);
                    let w = lemma_both(
                        "<figure>\n"@ + pic + none,
                        forms(seq![raw(alt@)], true),
                        y,
                        tail,
                        forms(seq![q], true),
                        z,
                    );
                    assert("<figure>\n"@ + pic + none + tail =~= all);
                    assert(forms(seq![raw(alt@)], true) + forms(seq![q], true) =~= forms(
                        seq![raw(alt@), q],
                        true,
                    ));
                    w
                },
                None => {
                    assert("<figure>\n"@ + pic + (none + "</figure>\n"@) =~= all);
                    lemma_around(
                        "<figure>\n"@,
                        pic,
                        none + "</figure>\n"@,
                        forms(seq![raw(alt@)], true),
                        x,
                    )
                },
            }
        },
        Block::Gallery(items) => {
            let x = lemma_gallery(items@, "<li>[image: "@, "]</li>\n"@, true);
            let lines = wrapped_each("<li>[image: "@, all_escaped(captions(items@)), "]</li>\n"@);
            lemma_around(
                "<ul>\n"@,
                lines,
                "</ul>\n"@,
                forms(Seq::new(items@.len(), |i: int| raw(items@[i].caption@)), true),
                x,
            )
        },
        Block::Math { source, .. } => lemma_part(
            "<pre><code>"@,
            raw(source@),
            "</code></pre>\n"@,
            true,
        ),
    }
}

spec fn blocks_text(
    blocks: Seq<Block>,
    lang: Seq<char>,
    nonfree: bool,
    thumbs: Seq<(Seq<char>, Seq<u8>)>,
    html: bool,
) -> Seq<char> {
    if html {
        html_blocks(blocks, lang, nonfree, thumbs)
    } else {
        md_blocks(blocks, lang)
    }
}

proof fn lemma_blocks(
    blocks: Seq<Block>,
    lang: Seq<char>,
    nonfree: bool,
    thumbs: Seq<(Seq<char>, Seq<u8>)>,
    html: bool,
) -> (at: Seq<int>)
    ensures
        in_order(
            blocks_text(blocks, lang, nonfree, thumbs, html),
            forms(blocks_parts(blocks, lang, html), html),
            at,
        ),
    decreases blocks.len(),
{
    if blocks.len() == 0 {
        assert(forms(blocks_parts(blocks, lang, html), html) =~= Seq::empty());
        lemma_none(blocks_text(blocks, lang, nonfree, thumbs, html))
    } else {
        let front = blocks.drop_last();
        let x = lemma_blocks(front, lang, nonfree, thumbs, html);
        let last = blocks.last();
        let text = if html {
            html_block(last, lang, nonfree, thumbs)
        } else {
            md_block(last, lang)
        };
        let y = if html {
            lemma_html_block(last, lang, nonfree, thumbs)
        } else {
            lemma_md_block(last, lang)
        };
        let parts = block_parts(last, lang, html);
        lemma_forms_add(blocks_parts(front, lang, html), parts, html);
        lemma_both(
            blocks_text(front, lang, nonfree, thumbs, html),
            forms(blocks_parts(front, lang, html), html),
            x,
            text,
            forms(parts, html),
            y,
        )
    }
}

/// All of it: a head with the title, blocks, and a foot with the footer.
proof fn lemma_all(
    a: Seq<char>,
    title: Part,
    b: Seq<char>,
    text: Seq<char>,
    parts: Seq<Part>,
    at: Seq<int>,
    c: Seq<char>,
    footer: Part,
    d: Seq<char>,
    html: bool,
) -> (r: Seq<int>)
    requires
        in_order(text, forms(parts, html), at),
    ensures
        in_order(
            a + form(title, html) + b + text + (c + form(footer, html) + d),
            forms(seq![title] + parts + seq![footer], html),
            r,
        ),
{
    let x = lemma_part(a, title, b, html);
    let y = lemma_part(c, footer, d, html);
    let head = a + form(title, html) + b;
    let z = lemma_both(head, forms(seq![title], html), x, text, forms(parts, html), at);
    let w = lemma_both(
        head + text,
        forms(seq![title], html) + forms(parts, html),
        z,
        c + form(footer, html) + d,
        forms(seq![footer], html),
        y,
    );
    lemma_forms_add(seq![title], parts, html);
    lemma_forms_add(seq![title] + parts, seq![footer], html);
    w
}

/// Nothing that a page shows is missing from its Markdown export: the title,
/// the text of every run, link, cell, label, value, caption and formula, and the
/// footer stand in it, in reading order and one behind the other. Prose reads as
/// it is once Markdown has taken its escapes away; a cell stands behind its
/// column's header.
pub proof fn markdown_holds_the_page(
    doc: Document,
    plain: Seq<char>,
    lang: Seq<char>,
    nonfree: bool,
    thumbs: Seq<(Seq<char>, Seq<u8>)>,
    footer: Seq<char>,
) -> (r: (Seq<Seq<char>>, Seq<int>))
    ensures
        exported(doc, plain, lang, "md"@, nonfree, thumbs, footer) is Some,
        in_order(exported(doc, plain, lang, "md"@, nonfree, thumbs, footer)->0, r.0, r.1),
        r.0.len() == export_parts(doc, lang, footer, false).len(),
        forall|i: int|
            0 <= i < r.0.len() ==> md_shows(
                #[trigger] r.0[i],
                export_parts(doc, lang, footer, false)[i],
            ),
{
    reveal_strlit("md");
    reveal_strlit("txt");
    assert("md"@.len() != "txt"@.len());
    let parts = blocks_parts(doc.blocks@, lang, false);
    let text = md_blocks(doc.blocks@, lang);
    let x = lemma_blocks(doc.blocks@, lang, nonfree, thumbs, false);
    let at = lemma_all(
        "# "@,
        raw(doc.title@),
        "\n\n"@,
        text,
        parts,
        x,
        "\n---\n\n*"@,
        raw(footer),
        "*\n"@,
        false,
    );
    let all = md_document(doc, lang, footer);
    assert(all =~= "# "@ + doc.title@ + "\n\n"@ + text + ("\n---\n\n*"@ + footer + "*\n"@));
    let shown = export_parts(doc, lang, footer, false);
    let r = forms(shown, false);
    assert forall|i: int| 0 <= i < r.len() implies md_shows(#[trigger] r[i], shown[i]) by {
        escaped_markdown_reads_back(shown[i].text);
    }
    (r, at)
}

/// Nothing that a page shows is missing from its HTML export: the same, in
/// reading order and one behind the other, and all of it reads as it is once
/// HTML has put the characters it names in their places.
pub proof fn html_holds_the_page(
    doc: Document,
    plain: Seq<char>,
    lang: Seq<char>,
    nonfree: bool,
    thumbs: Seq<(Seq<char>, Seq<u8>)>,
    footer: Seq<char>,
) -> (r: (Seq<Seq<char>>, Seq<int>))
    ensures
        exported(doc, plain, lang, "html"@, nonfree, thumbs, footer) is Some,
        in_order(exported(doc, plain, lang, "html"@, nonfree, thumbs, footer)->0, r.0, r.1),
        r.0.len() == export_parts(doc, lang, footer, true).len(),
        forall|i: int|
            0 <= i < r.0.len() ==> html_shows(
                #[trigger] r.0[i],
                export_parts(doc, lang, footer, true)[i],
            ),
{
    reveal_strlit("md");
    reveal_strlit("txt");
    reveal_strlit("html");
    assert("html"@.len() != "txt"@.len());
    assert("html"@.len() != "md"@.len());
    let parts = blocks_parts(doc.blocks@, lang, true);
    let text = html_blocks(doc.blocks@, lang, nonfree, thumbs);
    let x = lemma_blocks(doc.blocks@, lang, nonfree, thumbs, true);
    let head = html_head(doc.title@, lang);
    let open = "<!doctype html>\n<html lang=\""@ + html_escaped(lang)
        + "\">\n<head>\n<meta charset=\"utf-8\">\n<meta name=\"viewport\" content=\"width=device-width, initial-scale=1\">\n<title>"@
        + html_escaped(doc.title@) + "</title>\n<style>"@ + crate::saved_export::PRINT_CSS@
        + "</style>\n</head>\n<body>\n<h1>"@;
    let at = lemma_all(
        open,
        raw(doc.title@),
        "</h1>\n"@,
        text,
        parts,
        x,
        "<footer>"@,
        raw(footer),
        "</footer>\n</body>\n</html>\n"@,
        true,
    );
    let all = html_document(doc, lang, nonfree, thumbs, footer);
    assert(all =~= open + html_escaped(doc.title@) + "</h1>\n"@ + text + ("<footer>"@
        + html_escaped(footer) + "</footer>\n</body>\n</html>\n"@));
    let shown = export_parts(doc, lang, footer, true);
    let r = forms(shown, true);
    assert forall|i: int| 0 <= i < r.len() implies html_shows(#[trigger] r[i], shown[i]) by {
        escaped_html_reads_back(shown[i].text);
    }
    (r, at)
}

/// A plain-text export holds the plain text, and behind it the footer.
pub proof fn plain_text_holds_the_page(
    doc: Document,
    plain: Seq<char>,
    lang: Seq<char>,
    nonfree: bool,
    thumbs: Seq<(Seq<char>, Seq<u8>)>,
    footer: Seq<char>,
) -> (at: Seq<int>)
    ensures
        exported(doc, plain, lang, "txt"@, nonfree, thumbs, footer) is Some,
        in_order(
            exported(doc, plain, lang, "txt"@, nonfree, thumbs, footer)->0,
            seq![plain, footer],
            at,
        ),
        at[0] == 0,
{
    let all = exported(doc, plain, lang, "txt"@, nonfree, thumbs, footer)->0;
    let gap = "\n----\n\n"@;
    let at = seq![0int, (plain.len() + gap.len()) as int];
    assert(all.subrange(0, plain.len() as int) =~= plain);
    assert(all.subrange(at[1], at[1] + footer.len()) =~= footer);
    at
}

/// A line of text stands at a place: a line break is before it, and one behind.
pub open spec fn line_at(s: Seq<char>, line: Seq<char>, at: int) -> bool {
    &&& stands_at(s, line.push('\n'), at)
    &&& at > 0
    &&& s[at - 1] == '\n'
}

proof fn lemma_md_block_ends(block: Block, lang: Seq<char>)
    ensures
        md_block(block, lang).len() > 0,
        md_block(block, lang).last() == '\n',
{
    reveal_strlit("\n");
    reveal_strlit("\n\n");
    reveal_strlit("```\n\n");
    reveal_strlit("---\n\n");
    reveal_strlit("\n```\n\n");
}

proof fn lemma_md_split(blocks: Seq<Block>, lang: Seq<char>, i: int) -> (r: (Seq<char>, Seq<char>))
    requires
        0 <= i < blocks.len(),
    ensures
        md_blocks(blocks, lang) == r.0 + md_block(blocks[i], lang) + r.1,
        r.0.len() > 0 ==> r.0.last() == '\n',
    decreases blocks.len(),
{
    let front = blocks.drop_last();
    let last = md_block(blocks.last(), lang);
    if i == blocks.len() - 1 {
        let none = Seq::<char>::empty();
        let before = md_blocks(front, lang);
        assert(before + last + none =~= md_blocks(blocks, lang));
        if front.len() > 0 {
            lemma_md_block_ends(front.last(), lang);
        }
        (before, none)
    } else {
        let r = lemma_md_split(front, lang, i);
        assert(r.0 + md_block(blocks[i], lang) + (r.1 + last) =~= md_blocks(blocks, lang));
        (r.0, r.1 + last)
    }
}

/// The text of block `i` stands in a Markdown export behind a line break.
proof fn lemma_md_place(doc: Document, lang: Seq<char>, footer: Seq<char>, i: int) -> (at: int)
    requires
        0 <= i < doc.blocks@.len(),
    ensures
        at > 0,
        md_document(doc, lang, footer)[at - 1] == '\n',
        stands_at(md_document(doc, lang, footer), md_block(doc.blocks@[i], lang), at),
{
    let r = lemma_md_split(doc.blocks@, lang, i);
    let block = md_block(doc.blocks@[i], lang);
    reveal_strlit("\n\n");
    let head = "# "@ + doc.title@ + "\n\n"@;
    let all = md_document(doc, lang, footer);
    let tail = r.1 + ("\n---\n\n*"@ + footer + "*\n"@);
    assert(all =~= head + r.0 + block + tail);
    let at = (head.len() + r.0.len()) as int;
    assert(all.subrange(at, at + block.len()) =~= block);
    at
}

/// A list item has a line of its own in a Markdown export: two spaces for each
/// level of its depth, its own number and a full stop, or a dash, then a space
/// and its text.
pub proof fn markdown_numbers_its_items(
    doc: Document,
    lang: Seq<char>,
    footer: Seq<char>,
    i: int,
) -> (r: (Seq<char>, int))
    requires
        0 <= i < doc.blocks@.len(),
        doc.blocks@[i] is ListItem,
    ensures
        doc.blocks@[i]->ordered ==> is_numeral(r.0.drop_last()) && r.0.last() == '.'
            && number_read(r.0.drop_last()) == doc.blocks@[i]->index,
        !doc.blocks@[i]->ordered ==> r.0 == seq!['-'],
        line_at(
            md_document(doc, lang, footer),
            spaces(2 * doc.blocks@[i]->depth as nat) + r.0 + seq![' '] + md_spans(
                doc.blocks@[i]->ListItem_spans@,
                lang,
            ),
            r.1,
        ),
{
    let at = lemma_md_place(doc, lang, footer, i);
    let block = doc.blocks@[i];
    let text = md_spans(block->ListItem_spans@, lang);
    reveal_strlit(".");
    reveal_strlit("-");
    reveal_strlit(" ");
    reveal_strlit("\n");
    decimal_reads_back(block->index as nat);
    let marker = if block->ordered {
        decimal(block->index as nat) + "."@
    } else {
        "-"@
    };
    assert(block->ordered ==> marker.drop_last() =~= decimal(block->index as nat));
    assert(!block->ordered ==> marker =~= seq!['-']);
    let line = spaces(2 * block->depth as nat) + marker + seq![' '] + text;
    assert(md_block(block, lang) =~= line.push('\n'));
    (marker, at)
}

/// A heading has a line of its own in a Markdown export: one hash for each of
/// its level, one at least and six at most, a space and its text.
pub proof fn markdown_marks_its_headings(
    doc: Document,
    lang: Seq<char>,
    footer: Seq<char>,
    i: int,
) -> (r: (Seq<char>, int))
    requires
        0 <= i < doc.blocks@.len(),
        doc.blocks@[i] is Heading,
    ensures
        forall|k: int| 0 <= k < r.0.len() ==> #[trigger] r.0[k] == '#',
        1 <= r.0.len() <= 6,
        1 <= doc.blocks@[i]->level <= 6 ==> r.0.len() == doc.blocks@[i]->level,
        doc.blocks@[i]->level > 6 ==> r.0.len() == 6,
        line_at(
            md_document(doc, lang, footer),
            r.0 + seq![' '] + md_spans(doc.blocks@[i]->Heading_spans@, lang),
            r.1,
        ),
{
    let at = lemma_md_place(doc, lang, footer, i);
    let block = doc.blocks@[i];
    let hashes = run_of('#', bounded(block->level as int, 1, 6) as nat);
    let text = md_spans(block->Heading_spans@, lang);
    reveal_strlit(" ");
    reveal_strlit("\n\n");
    let line = hashes + seq![' '] + text;
    let all = md_document(doc, lang, footer);
    let whole = md_block(block, lang);
    assert(whole =~= line.push('\n').push('\n'));
    assert(all.subrange(at, at + line.len() + 1) =~= whole.take(line.len() as int + 1)) by {
        assert(all.subrange(at, at + whole.len()) == whole);
        assert forall|k: int| 0 <= k < line.len() + 1 implies all[at + k] == whole[k] by {
            assert(all.subrange(at, at + whole.len())[k] == all[at + k]);
        }
    }
    assert(whole.take(line.len() as int + 1) =~= line.push('\n'));
    (hashes, at)
}

proof fn lemma_each_line(list: Seq<Seq<char>>, k: int) -> (at: int)
    requires
        0 <= k < list.len(),
    ensures
        0 <= at,
        at + list[k].len() < wrapped_each(Seq::empty(), list, seq!['\n']).len(),
        stands_at(wrapped_each(Seq::empty(), list, seq!['\n']), list[k].push('\n'), at),
        at > 0 ==> wrapped_each(Seq::empty(), list, seq!['\n'])[at - 1] == '\n',
    decreases list.len(),
{
    let none = Seq::<char>::empty();
    let nl = seq!['\n'];
    let front = list.drop_last();
    let before = wrapped_each(none, front, nl);
    let all = wrapped_each(none, list, nl);
    if k == list.len() - 1 {
        let at = before.len() as int;
        assert(all.subrange(at, at + list[k].len() + 1) =~= list[k].push('\n'));
        if front.len() > 0 {
            assert(before.last() == '\n');
        }
        at
    } else {
        let at = lemma_each_line(front, k);
        assert(front[k] == list[k]);
        let line = list[k].push('\n');
        assert(all.subrange(at, at + line.len()) =~= before.subrange(at, at + line.len()));
        at
    }
}

proof fn lemma_cell_listed(t: Table, first: int, end: int, r: int, c: int) -> (k: int)
    requires
        0 <= first <= r < end <= t.rows@.len(),
        0 <= c < t.rows@[r]@.len(),
    ensures
        0 <= k < list_rows(t, first, end).len(),
        list_rows(t, first, end)[k] == list_cell(t, r, c),
    decreases end - first,
{
    let before = list_rows(t, first, end - 1);
    let gap = if end - 1 > first {
        before.push(Seq::empty())
    } else {
        before
    };
    if r == end - 1 {
        let all = gap + list_cells(t, r, t.rows@[r]@.len() as int);
        assert(all[gap.len() + c] == list_cell(t, r, c));
        gap.len() + c
    } else {
        let k = lemma_cell_listed(t, first, end - 1, r, c);
        assert(list_rows(t, first, end)[k] == before[k]);
        k
    }
}

/// Every cell below a table's header has a line of its own in a Markdown export,
/// behind its column's header where it has one.
pub proof fn markdown_holds_every_cell(
    doc: Document,
    lang: Seq<char>,
    footer: Seq<char>,
    i: int,
    r: int,
    c: int,
) -> (at: int)
    requires
        0 <= i < doc.blocks@.len(),
        doc.blocks@[i] is Table,
        headed(doc.blocks@[i]->Table_0) ==> r >= 1,
        0 <= r < doc.blocks@[i]->Table_0.rows@.len(),
        0 <= c < doc.blocks@[i]->Table_0.rows@[r]@.len(),
    ensures
        line_at(md_document(doc, lang, footer), labelled(doc.blocks@[i]->Table_0, r, c), at),
{
    let t = doc.blocks@[i]->Table_0;
    let start = lemma_md_place(doc, lang, footer, i);
    let first = if headed(t) {
        1int
    } else {
        0
    };
    assert(headed(t) == t.header_row());
    let k = lemma_cell_listed(t, first, t.rows@.len() as int, r, c);
    let at = lemma_each_line(t.list_lines(), k);
    reveal_strlit(": ");
    assert(": "@ =~= seq![':', ' ']);
    reveal_strlit("\n");
    assert("\n"@ =~= seq!['\n']);
    let cell = labelled(t, r, c);
    assert(cell =~= list_cell(t, r, c));
    let lines = wrapped_each(Seq::empty(), t.list_lines(), seq!['\n']);
    let whole = md_block(doc.blocks@[i], lang);
    let all = md_document(doc, lang, footer);
    let line = cell.push('\n');
    assert(all.subrange(start, start + whole.len()) == whole);
    assert forall|j: int| 0 <= j < lines.len() implies all[start + j] == lines[j] by {
        assert(all.subrange(start, start + whole.len())[j] == all[start + j]);
    }
    assert(all.subrange(start + at, start + at + line.len()) =~= lines.subrange(
        at,
        at + line.len(),
    ));
    start + at
}

/// A page-relative link leads to the article it names: the title up to a
/// fragment, its underscores as spaces. Any other address stays as it is.
pub proof fn relative_links_lead_to_articles(title: Seq<char>, rest: Seq<char>, lang: Seq<char>)
    requires
        forall|i: int| 0 <= i < title.len() ==> #[trigger] title[i] != '#' && title[i] != '_',
        rest.len() > 0 ==> rest[0] == '#',
    ensures
        resolved_href("./"@ + swapped(title, ' ', '_') + rest, lang) == article_address(title, lang),
        resolved_href("/wiki/"@ + swapped(title, ' ', '_') + rest, lang) == article_address(
            title,
            lang,
        ),
{
    reveal_strlit("./");
    reveal_strlit("/wiki/");
    let name = swapped(title, ' ', '_');
    let a = "./"@ + name + rest;
    let b = "/wiki/"@ + name + rest;
    assert(a.take(2) =~= "./"@);
    assert(a.skip(2) =~= name + rest);
    assert(b.take(6) =~= "/wiki/"@);
    assert(b.skip(6) =~= name + rest);
    assert(b[0] == '/');
    if has_prefix(b, "./"@) {
        assert(b.take(2)[0] == '.');
    }
    lemma_up_to(name, rest);
    assert(swapped(name, '_', ' ') =~= title);
}

proof fn lemma_up_to(name: Seq<char>, rest: Seq<char>)
    requires
        forall|i: int| 0 <= i < name.len() ==> #[trigger] name[i] != '#',
        rest.len() > 0 ==> rest[0] == '#',
    ensures
        up_to(name + rest, '#') == name,
    decreases name.len(),
{
    let all = name + rest;
    if name.len() > 0 {
        let t = name.drop_first();
        assert forall|i: int| 0 <= i < t.len() implies #[trigger] t[i] != '#' by {
            assert(t[i] == name[i + 1]);
        }
        lemma_up_to(t, rest);
        assert(all.drop_first() =~= t + rest);
        assert(seq![name[0]] + t =~= name);
    } else {
        assert(all =~= rest);
        assert(up_to(all, '#') =~= name);
    }
}

} // verus!
