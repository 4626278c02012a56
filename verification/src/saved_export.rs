//! Exports of a page: plain text, Markdown, and a standalone HTML document for
//! print. Each ends in the attribution footer. A picture's bytes go into an
//! export only where the reader asked for pictures that may not be free, and
//! only into HTML; otherwise its description stands in its place.
use crate::doc::{Block, Document, GalleryItem, Span, SpanStyle};
use crate::research::{article_address, article_url, opt_view};
use crate::saved::SavedThumb;
use crate::text::{
    chars_of, decimal, decimal_string, has_prefix, repeat_char, run_of, same_str, starts_with, string_between, swap_char, swapped, views,
};
use vstd::prelude::*;

verus! {

/// The extension of a format's files; any other format has none.
pub open spec fn format_extension(format: Seq<char>) -> Option<Seq<char>> {
    if format == "md"@ || format == "txt"@ || format == "html"@ {
        Some(format)
    } else {
        None
    }
}

/// The formats.
pub fn formats() -> (r: Vec<&'static str>)
    ensures
        views(r@) == seq!["md"@, "txt"@, "html"@],
{
    let out: Vec<&'static str> = vec!["md", "txt", "html"];
    proof { assert(views(out@) =~= seq!["md"@, "txt"@, "html"@]); }
    out
}

/// The extension of a format's files.
pub fn extension(format: &str) -> (r: Option<&'static str>)
    ensures
        match r {
            Some(e) => format_extension(format@) == Some(e@),
            None => format_extension(format@) is None,
        },
{
    if same_str(format, "md") {
        Some("md")
    } else if same_str(format, "txt") {
        Some("txt")
    } else if same_str(format, "html") {
        Some("html")
    } else {
        None
    }
}

/// The default name of an export: the title as a file name, a time stamp and
/// the format's extension.
pub fn export_file_name(stem: &str, stamp: &str, format: &str) -> (r: Option<String>)
    ensures
        opt_view(r) == match format_extension(format@) {
            Some(ext) => Some(stem@ + "-"@ + stamp@ + "."@ + ext),
            None => None,
        },
{
    match extension(format) {
        Some(ext) => {
            let mut out = stem.to_owned();
            out.push_str("-");
            out.push_str(stamp);
            out.push_str(".");
            out.push_str(ext);
            Some(out)
        },
        None => None,
    }
}

/// A picture that an export can hold.
pub struct EmbeddableThumb {
    pub src: String,
    pub bytes: Vec<u8>,
}

/// A picture's source and bytes.
impl View for EmbeddableThumb {
    type V = (Seq<char>, Seq<u8>);

    open spec fn view(&self) -> (Seq<char>, Seq<u8>) {
        (self.src@, self.bytes@)
    }
}

/// The pictures whose bytes could be read, with their sources.
pub open spec fn readable(thumbs: Seq<SavedThumb>, loaded: Seq<Option<Vec<u8>>>) -> Seq<
    (Seq<char>, Seq<u8>),
>
    decreases thumbs.len(),
{
    if thumbs.len() == 0 || loaded.len() == 0 {
        Seq::empty()
    } else {
        let rest = readable(thumbs.drop_first(), loaded.drop_first());
        match loaded[0] {
            Some(bytes) => seq![(thumbs[0].src@, bytes@)] + rest,
            None => rest,
        }
    }
}

fn copy_bytes(bytes: &Vec<u8>) -> (r: Vec<u8>)
    ensures
        r@ == bytes@,
{
    let mut out: Vec<u8> = Vec::new();
    let n: usize = bytes.len();
    for i in 0..n
        invariant
            n == bytes.len(),
            out@ == bytes@.take(i as int),
    {
        out.push(bytes[i]);
    }
    proof { assert(bytes@.take(n as int) =~= bytes@); }
    out
}

/// Pictures for an export, from their records and what was read of each.
pub fn embeddable_from(thumbs: &Vec<SavedThumb>, loaded: &Vec<Option<Vec<u8>>>) -> (r: Vec<
    EmbeddableThumb,
>)
    ensures
        views(r@) == readable(thumbs@, loaded@),
{
    let mut out: Vec<EmbeddableThumb> = Vec::new();
    let n: usize = if thumbs.len() <= loaded.len() {
        thumbs.len()
    } else {
        loaded.len()
    };
    proof {
        assert(thumbs@.skip(0) =~= thumbs@);
        assert(loaded@.skip(0) =~= loaded@);
        assert(views(out@) + readable(thumbs@, loaded@) =~= readable(thumbs@, loaded@));
    }
    for i in 0..n
        invariant
            n <= thumbs.len(),
            n <= loaded.len(),
            views(out@) + readable(thumbs@.skip(i as int), loaded@.skip(i as int)) == readable(
                thumbs@,
                loaded@,
            ),
    {
        proof {
            assert(thumbs@.skip(i as int).drop_first() =~= thumbs@.skip(i + 1));
            assert(loaded@.skip(i as int).drop_first() =~= loaded@.skip(i + 1));
        }
        if let Some(bytes) = &loaded[i] {
            let thumb = EmbeddableThumb { src: thumbs[i].src.clone(), bytes: copy_bytes(bytes) };
            let ghost pre = out@;
            let ghost rest = readable(thumbs@.skip(i + 1), loaded@.skip(i + 1));
            out.push(thumb);
            proof {
                assert(views(out@) =~= views(pre).push(thumb@));
                assert(views(pre) + (seq![thumb@] + rest) =~= views(out@) + rest);
            }
        }
    }
    proof {
        assert(views(out@) + Seq::<(Seq<char>, Seq<u8>)>::empty() =~= views(out@));
    }
    out
}

/// What stands before a character, or all of the text.
pub open spec fn up_to(s: Seq<char>, c: char) -> Seq<char>
    decreases s.len(),
{
    if s.len() == 0 || s[0] == c {
        Seq::empty()
    } else {
        seq![s[0]] + up_to(s.drop_first(), c)
    }
}

/// The address of the article that a page-relative target names, without its
/// fragment; another target as it is.
pub open spec fn resolved_href(href: Seq<char>, lang: Seq<char>) -> Seq<char> {
    let rest = if has_prefix(href, "./"@) {
        Some(href.skip("./"@.len() as int))
    } else if has_prefix(href, "/wiki/"@) {
        Some(href.skip("/wiki/"@.len() as int))
    } else {
        None
    };
    match rest {
        Some(rest) => article_address(swapped(up_to(rest, '#'), '_', ' '), lang),
        None => href,
    }
}

fn cut_at(cs: &Vec<char>, from: usize, c: char) -> (r: String)
    requires
        from <= cs.len(),
    ensures
        r@ == up_to(cs@.skip(from as int), c),
{
    let mut to: usize = from;
    let ghost rest = cs@.skip(from as int);
    proof {
        assert(rest.skip(0) =~= rest);
        assert(rest.take(0) + up_to(rest, c) =~= up_to(rest, c));
    }
    while to < cs.len() && cs[to] != c
        invariant
            from <= to <= cs.len(),
            rest == cs@.skip(from as int),
            up_to(rest, c) == rest.take(to - from) + up_to(rest.skip(to - from), c),
        decreases cs.len() - to,
    {
        proof {
            let k = to - from;
            let tail = rest.skip(k);
            assert(tail[0] == cs@[to as int]);
            assert(tail.drop_first() =~= rest.skip(k + 1));
            assert(rest.take(k) + (seq![tail[0]] + up_to(rest.skip(k + 1), c)) =~= rest.take(k + 1)
                + up_to(rest.skip(k + 1), c));
        }
        to = to + 1;
    }
    proof {
        let k = to - from;
        assert(rest.take(k) + Seq::<char>::empty() =~= rest.take(k));
        assert(rest.take(k) =~= cs@.subrange(from as int, to as int));
        if to < cs.len() {
            assert(rest.skip(k)[0] == cs@[to as int]);
        }
    }
    string_between(cs, from, to)
}

/// The address of the article that a page-relative target names; another
/// target as it is.
pub fn resolve_href(href: &str, lang: &str) -> (r: String)
    ensures
        r@ == resolved_href(href@, lang@),
{
    let cs = chars_of(href);
    proof {
        reveal_strlit("./");
        reveal_strlit("/wiki/");
    }
    if starts_with(href, "./") {
        let title = cut_at(&cs, 2, '#');
        article_url(swap_char(title.as_str(), '_', ' ').as_str(), lang)
    } else if starts_with(href, "/wiki/") {
        let title = cut_at(&cs, 6, '#');
        article_url(swap_char(title.as_str(), '_', ' ').as_str(), lang)
    } else {
        href.to_owned()
    }
}

/// A character that Markdown would read as markup.
pub open spec fn md_special(c: char) -> bool {
    c == '\\' || c == '`' || c == '*' || c == '_' || c == '[' || c == ']'
}

/// Text with a backslash before what Markdown would read as markup.
pub open spec fn md_escaped(s: Seq<char>) -> Seq<char>
    decreases s.len(),
{
    if s.len() == 0 {
        Seq::empty()
    } else {
        let before = md_escaped(s.drop_last());
        if md_special(s.last()) {
            before.push('\\').push(s.last())
        } else {
            before.push(s.last())
        }
    }
}

/// Text with a backslash before what Markdown would read as markup.
pub fn escape_markdown(s: &str) -> (r: String)
    ensures
        r@ == md_escaped(s@),
{
    let cs = chars_of(s);
    let n: usize = cs.len();
    let mut out = String::new();
    for i in 0..n
        invariant
            n == cs.len(),
            cs@ == s@,
            out@ == md_escaped(s@.take(i as int)),
    {
        proof { assert(s@.take(i + 1).drop_last() =~= s@.take(i as int)); }
        let c = cs[i];
        if c == '\\' || c == '`' || c == '*' || c == '_' || c == '[' || c == ']' {
            out.push('\\');
        }
        out.push(c);
    }
    proof { assert(s@.take(n as int) =~= s@); }
    out
}

/// A character as HTML writes it in text and attributes.
pub open spec fn html_char(c: char) -> Seq<char> {
    if c == '&' {
        "&amp;"@
    } else if c == '<' {
        "&lt;"@
    } else if c == '>' {
        "&gt;"@
    } else if c == '"' {
        "&quot;"@
    } else {
        seq![c]
    }
}

/// Text as HTML writes it in text and attributes.
pub open spec fn html_escaped(s: Seq<char>) -> Seq<char>
    decreases s.len(),
{
    if s.len() == 0 {
        Seq::empty()
    } else {
        html_escaped(s.drop_last()) + html_char(s.last())
    }
}

/// Text as HTML writes it in text and attributes.
pub fn escape_html(s: &str) -> (r: String)
    ensures
        r@ == html_escaped(s@),
{
    let cs = chars_of(s);
    let n: usize = cs.len();
    let mut out = String::new();
    for i in 0..n
        invariant
            n == cs.len(),
            cs@ == s@,
            out@ == html_escaped(s@.take(i as int)),
    {
        proof { assert(s@.take(i + 1).drop_last() =~= s@.take(i as int)); }
        let ghost pre = out@;
        let c = cs[i];
        if c == '&' {
            out.push_str("&amp;");
        } else if c == '<' {
            out.push_str("&lt;");
        } else if c == '>' {
            out.push_str("&gt;");
        } else if c == '"' {
            out.push_str("&quot;");
        } else {
            out.push(c);
        }
        proof { assert(out@ =~= pre + html_char(c)); }
    }
    proof { assert(s@.take(n as int) =~= s@); }
    out
}

/// Escaped text holds no character that would open or close a tag or an
/// attribute.
pub proof fn escaped_text_holds_no_markup(s: Seq<char>)
    ensures
        !html_escaped(s).contains('<'),
        !html_escaped(s).contains('>'),
        !html_escaped(s).contains('"'),
    decreases s.len(),
{
    if s.len() > 0 {
        escaped_text_holds_no_markup(s.drop_last());
        let before = html_escaped(s.drop_last());
        let last = html_char(s.last());
        let all = html_escaped(s);
        reveal_strlit("&amp;");
        reveal_strlit("&lt;");
        reveal_strlit("&gt;");
        reveal_strlit("&quot;");
        assert forall|i: int| 0 <= i < all.len() implies all[i] != '<' && all[i] != '>' && all[i]
            != '"' by {
            if i < before.len() {
                assert(all[i] == before[i]);
                assert(before.contains(before[i]));
            } else {
                assert(all[i] == last[i - before.len()]);
            }
        }
    }
}

/// The Base64 form of bytes, with padding.
pub uninterp spec fn base64_text(bytes: Seq<u8>) -> Seq<char>;

/// Calls `encode` of `base64::engine::general_purpose::STANDARD`, whose result
/// is named by [`base64_text`].
#[verifier::external_body]
fn encode_base64(bytes: &Vec<u8>) -> (r: String)
    ensures
        r@ == base64_text(bytes@),
{
    base64::Engine::encode(&base64::engine::general_purpose::STANDARD, bytes)
}

/// A run of text in Markdown. A formula stands as its source between
/// backticks.
pub open spec fn md_span(span: Span, lang: Seq<char>) -> Seq<char> {
    let text = md_escaped(span.text@);
    match span.style {
        SpanStyle::Bold => "**"@ + text + "**"@,
        SpanStyle::Italic => "*"@ + text + "*"@,
        SpanStyle::Link(href) => "["@ + text + "]("@ + resolved_href(href@, lang) + ")"@,
        SpanStyle::RedLink(href) => "["@ + text + "]("@ + resolved_href(href@, lang) + ")"@,
        SpanStyle::Math(_) => "`"@ + span.text@ + "`"@,
        _ => text,
    }
}

/// Runs of text in Markdown.
pub open spec fn md_spans(spans: Seq<Span>, lang: Seq<char>) -> Seq<char>
    decreases spans.len(),
{
    if spans.len() == 0 {
        Seq::empty()
    } else {
        md_spans(spans.drop_last(), lang) + md_span(spans.last(), lang)
    }
}

/// A run of text in HTML.
pub open spec fn html_span(span: Span, lang: Seq<char>) -> Seq<char> {
    let text = html_escaped(span.text@);
    match span.style {
        SpanStyle::Bold => "<strong>"@ + text + "</strong>"@,
        SpanStyle::Italic => "<em>"@ + text + "</em>"@,
        SpanStyle::Superscript => "<sup>"@ + text + "</sup>"@,
        SpanStyle::CitationNeeded => "<sup>"@ + text + "</sup>"@,
        SpanStyle::Link(href) => "<a href=\""@ + html_escaped(resolved_href(href@, lang)) + "\">"@
            + text + "</a>"@,
        SpanStyle::RedLink(href) => "<a href=\""@ + html_escaped(resolved_href(href@, lang))
            + "\">"@ + text + "</a>"@,
        SpanStyle::Math(_) => "<code>"@ + text + "</code>"@,
        SpanStyle::Plain => text,
    }
}

/// Runs of text in HTML.
pub open spec fn html_spans(spans: Seq<Span>, lang: Seq<char>) -> Seq<char>
    decreases spans.len(),
{
    if spans.len() == 0 {
        Seq::empty()
    } else {
        html_spans(spans.drop_last(), lang) + html_span(spans.last(), lang)
    }
}

fn wrap(open: &str, text: &str, close: &str) -> (r: String)
    ensures
        r@ == open@ + text@ + close@,
{
    let mut out = open.to_owned();
    out.push_str(text);
    out.push_str(close);
    out
}

fn span_to_md(span: &Span, lang: &str) -> (r: String)
    ensures
        r@ == md_span(*span, lang@),
{
    let text = escape_markdown(span.text.as_str());
    match &span.style {
        SpanStyle::Bold => wrap("**", text.as_str(), "**"),
        SpanStyle::Italic => wrap("*", text.as_str(), "*"),
        SpanStyle::Link(href) => {
            let mut out = wrap("[", text.as_str(), "](");
            out.push_str(resolve_href(href.as_str(), lang).as_str());
            out.push_str(")");
            out
        },
        SpanStyle::RedLink(href) => {
            let mut out = wrap("[", text.as_str(), "](");
            out.push_str(resolve_href(href.as_str(), lang).as_str());
            out.push_str(")");
            out
        },
        SpanStyle::Math(_) => wrap("`", span.text.as_str(), "`"),
        _ => text,
    }
}

/// Runs of text in Markdown.
pub fn spans_to_md(spans: &Vec<Span>, lang: &str) -> (r: String)
    ensures
        r@ == md_spans(spans@, lang@),
{
    let mut out = String::new();
    let n: usize = spans.len();
    for i in 0..n
        invariant
            n == spans.len(),
            out@ == md_spans(spans@.take(i as int), lang@),
    {
        proof { assert(spans@.take(i + 1).drop_last() =~= spans@.take(i as int)); }
        out.push_str(span_to_md(&spans[i], lang).as_str());
    }
    proof { assert(spans@.take(n as int) =~= spans@); }
    out
}

fn link_to_html(href: &str, text: &str, lang: &str) -> (r: String)
    ensures
        r@ == "<a href=\""@ + html_escaped(resolved_href(href@, lang@)) + "\">"@ + text@ + "</a>"@,
{
    let target = escape_html(resolve_href(href, lang).as_str());
    let mut out = wrap("<a href=\"", target.as_str(), "\">");
    out.push_str(text);
    out.push_str("</a>");
    out
}

fn span_to_html(span: &Span, lang: &str) -> (r: String)
    ensures
        r@ == html_span(*span, lang@),
{
    let text = escape_html(span.text.as_str());
    match &span.style {
        SpanStyle::Bold => wrap("<strong>", text.as_str(), "</strong>"),
        SpanStyle::Italic => wrap("<em>", text.as_str(), "</em>"),
        SpanStyle::Superscript => wrap("<sup>", text.as_str(), "</sup>"),
        SpanStyle::CitationNeeded => wrap("<sup>", text.as_str(), "</sup>"),
        SpanStyle::Link(href) => link_to_html(href.as_str(), text.as_str(), lang),
        SpanStyle::RedLink(href) => link_to_html(href.as_str(), text.as_str(), lang),
        SpanStyle::Math(_) => wrap("<code>", text.as_str(), "</code>"),
        SpanStyle::Plain => text,
    }
}

/// Runs of text in HTML.
pub fn spans_to_html(spans: &Vec<Span>, lang: &str) -> (r: String)
    ensures
        r@ == html_spans(spans@, lang@),
{
    let mut out = String::new();
    let n: usize = spans.len();
    for i in 0..n
        invariant
            n == spans.len(),
            out@ == html_spans(spans@.take(i as int), lang@),
    {
        proof { assert(spans@.take(i + 1).drop_last() =~= spans@.take(i as int)); }
        out.push_str(span_to_html(&spans[i], lang).as_str());
    }
    proof { assert(spans@.take(n as int) =~= spans@); }
    out
}

/// Each text between an opening and a closing one, one after the other.
pub open spec fn wrapped_each(open: Seq<char>, list: Seq<Seq<char>>, close: Seq<char>) -> Seq<char>
    decreases list.len(),
{
    if list.len() == 0 {
        Seq::empty()
    } else {
        wrapped_each(open, list.drop_last(), close) + open + list.last() + close
    }
}

/// A number between two bounds, the nearer bound where it lies outside.
pub open spec fn bounded(n: int, low: int, high: int) -> int {
    if n < low {
        low
    } else if n > high {
        high
    } else {
        n
    }
}

/// A label and value in Markdown; a pair without a label is a title.
pub open spec fn md_pair(pair: (String, String)) -> Seq<char> {
    if pair.0@.len() == 0 {
        "**"@ + pair.1@ + "**\n"@
    } else {
        "- **"@ + pair.0@ + ":** "@ + pair.1@ + "\n"@
    }
}

/// Label and value pairs in Markdown.
pub open spec fn md_pairs(rows: Seq<(String, String)>) -> Seq<char>
    decreases rows.len(),
{
    if rows.len() == 0 {
        Seq::empty()
    } else {
        md_pairs(rows.drop_last()) + md_pair(rows.last())
    }
}

/// The captions of a gallery.
pub open spec fn captions(items: Seq<GalleryItem>) -> Seq<Seq<char>> {
    items.map_values(|g: GalleryItem| g.caption@)
}

/// A block in Markdown.
pub open spec fn md_block(block: Block, lang: Seq<char>) -> Seq<char> {
    match block {
        Block::Heading { level, spans } => run_of('#', bounded(level as int, 1, 6) as nat) + " "@
            + md_spans(spans@, lang) + "\n\n"@,
        Block::Paragraph(spans) => md_spans(spans@, lang) + "\n\n"@,
        Block::ListItem { ordered, index, depth, spans } => run_of(' ', (2 * depth) as nat) + (
        if ordered {
            decimal(index as nat) + "."@
        } else {
            "-"@
        }) + " "@ + md_spans(spans@, lang) + "\n"@,
        Block::Blockquote(spans) => "> "@ + md_spans(spans@, lang) + "\n\n"@,
        Block::Code { text, .. } => "```\n"@ + text@ + (if text@.len() > 0 && text@.last() == '\n' {
            Seq::empty()
        } else {
            "\n"@
        }) + "```\n\n"@,
        Block::Rule => "---\n\n"@,
        Block::Table(table) => wrapped_each(Seq::empty(), table.list_lines(), "\n"@) + "\n"@,
        Block::Infobox(rows) => md_pairs(rows@) + "\n"@,
        Block::Image { src, alt, caption } => "*[image: "@ + alt@ + "]*\n"@ + (match caption {
            Some(c) => c@ + "\n"@,
            None => Seq::empty(),
        }) + "\n"@,
        Block::Gallery(items) => wrapped_each("*[image: "@, captions(items@), "]*\n"@) + "\n"@,
        Block::Math { source, .. } => "```\n"@ + source@ + "\n```\n\n"@,
    }
}

/// Blocks in Markdown.
pub open spec fn md_blocks(blocks: Seq<Block>, lang: Seq<char>) -> Seq<char>
    decreases blocks.len(),
{
    if blocks.len() == 0 {
        Seq::empty()
    } else {
        md_blocks(blocks.drop_last(), lang) + md_block(blocks.last(), lang)
    }
}

/// A document in Markdown, with the footer.
pub open spec fn md_document(doc: Document, lang: Seq<char>, footer: Seq<char>) -> Seq<char> {
    "# "@ + doc.title@ + "\n\n"@ + md_blocks(doc.blocks@, lang) + "\n---\n\n*"@ + footer + "*\n"@
}

fn push_each(out: &mut String, open: &str, list: &Vec<String>, close: &str)
    ensures
        final(out)@ == old(out)@ + wrapped_each(open@, views(list@), close@),
{
    let ghost before = out@;
    let ghost all = views(list@);
    let n: usize = list.len();
    proof { assert(before + wrapped_each(open@, all.take(0), close@) =~= before); }
    for i in 0..n
        invariant
            n == list.len(),
            all == views(list@),
            out@ == before + wrapped_each(open@, all.take(i as int), close@),
    {
        let ghost so_far = wrapped_each(open@, all.take(i as int), close@);
        proof { assert(all.take(i + 1).drop_last() =~= all.take(i as int)); }
        out.push_str(open);
        out.push_str(list[i].as_str());
        out.push_str(close);
        proof { assert(out@ =~= before + (so_far + open@ + list@[i as int]@ + close@)); }
    }
    proof { assert(all.take(n as int) =~= all); }
}

fn caption_list(items: &Vec<GalleryItem>) -> (r: Vec<String>)
    ensures
        views(r@) == captions(items@),
{
    let mut out: Vec<String> = Vec::new();
    let n: usize = items.len();
    for i in 0..n
        invariant
            n == items.len(),
            views(out@) == captions(items@).take(i as int),
    {
        let ghost pre = out@;
        out.push(items[i].caption.clone());
        proof {
            assert(views(out@) =~= views(pre).push(items@[i as int].caption@));
            assert(captions(items@).take(i + 1) =~= captions(items@).take(i as int).push(
                captions(items@)[i as int],
            ));
        }
    }
    proof { assert(captions(items@).take(n as int) =~= captions(items@)); }
    out
}

fn pairs_to_md(rows: &Vec<(String, String)>) -> (r: String)
    ensures
        r@ == md_pairs(rows@),
{
    let mut out = String::new();
    let n: usize = rows.len();
    for i in 0..n
        invariant
            n == rows.len(),
            out@ == md_pairs(rows@.take(i as int)),
    {
        proof { assert(rows@.take(i + 1).drop_last() =~= rows@.take(i as int)); }
        let ghost pre = out@;
        let row = &rows[i];
        if chars_of(row.0.as_str()).len() == 0 {
            out.push_str("**");
            out.push_str(row.1.as_str());
            out.push_str("**\n");
        } else {
            out.push_str("- **");
            out.push_str(row.0.as_str());
            out.push_str(":** ");
            out.push_str(row.1.as_str());
            out.push_str("\n");
        }
        proof { assert(out@ =~= pre + md_pair(rows@[i as int])); }
    }
    proof { assert(rows@.take(n as int) =~= rows@); }
    out
}

fn ends_with_newline(s: &str) -> (r: bool)
    ensures
        r == (s@.len() > 0 && s@.last() == '\n'),
{
    let cs = chars_of(s);
    cs.len() > 0 && cs[cs.len() - 1] == '\n'
}

fn block_to_md(block: &Block, lang: &str) -> (r: String)
    ensures
        r@ == md_block(*block, lang@),
{
    let mut out = String::new();
    match block {
        Block::Heading { level, spans } => {
            let hashes: usize = if *level < 1 {
                1
            } else if *level > 6 {
                6
            } else {
                *level as usize
            };
            out = repeat_char('#', hashes);
            out.push_str(" ");
            out.push_str(spans_to_md(spans, lang).as_str());
            out.push_str("\n\n");
        },
        Block::Paragraph(spans) => {
            out = spans_to_md(spans, lang);
            out.push_str("\n\n");
        },
        Block::ListItem { ordered, index, depth, spans } => {
            out = repeat_char(' ', 2 * (*depth as usize));
            let ghost indent = out@;
            if *ordered {
                out.push_str(decimal_string(*index as u64).as_str());
                out.push_str(".");
            } else {
                out.push_str("-");
            }
            proof {
                assert(out@ =~= indent + (if *ordered {
                    decimal(*index as nat) + "."@
                } else {
                    "-"@
                }));
            }
            out.push_str(" ");
            out.push_str(spans_to_md(spans, lang).as_str());
            out.push_str("\n");
        },
        Block::Blockquote(spans) => {
            out = wrap("> ", spans_to_md(spans, lang).as_str(), "\n\n");
        },
        Block::Code { text, .. } => {
            out = "```\n".to_owned();
            out.push_str(text.as_str());
            let ghost head = out@;
            if !ends_with_newline(text.as_str()) {
                out.push_str("\n");
            } else {
                proof { assert(head + Seq::<char>::empty() =~= head); }
            }
            out.push_str("```\n\n");
        },
        Block::Rule => {
            out = "---\n\n".to_owned();
        },
        Block::Table(table) => {
            push_each(&mut out, "", &table.to_list_lines(), "\n");
            out.push_str("\n");
            proof {
                reveal_strlit("");
                assert(""@ =~= Seq::<char>::empty());
                let lines = wrapped_each(Seq::empty(), table.list_lines(), "\n"@);
                assert(Seq::<char>::empty() + lines =~= lines);
            }
        },
        Block::Infobox(rows) => {
            out = pairs_to_md(rows);
            out.push_str("\n");
        },
        Block::Image { src: _, alt, caption } => {
            out = wrap("*[image: ", alt.as_str(), "]*\n");
            let ghost head = out@;
            match caption {
                Some(c) => {
                    out.push_str(c.as_str());
                    out.push_str("\n");
                    proof { assert(out@ =~= head + (c@ + "\n"@)); }
                },
                None => {
                    proof { assert(out@ =~= head + Seq::<char>::empty()); }
                },
            }
            out.push_str("\n");
        },
        Block::Gallery(items) => {
            push_each(&mut out, "*[image: ", &caption_list(items), "]*\n");
            out.push_str("\n");
            proof {
                let lines = wrapped_each("*[image: "@, captions(items@), "]*\n"@);
                assert(Seq::<char>::empty() + lines =~= lines);
            }
        },
        Block::Math { source, .. } => {
            out = wrap("```\n", source.as_str(), "\n```\n\n");
        },
    }
    out
}

/// A document in Markdown, with the footer.
pub fn render_md(doc: &Document, lang: &str, footer: &str) -> (r: String)
    ensures
        r@ == md_document(*doc, lang@, footer@),
{
    let mut out = wrap("# ", doc.title.as_str(), "\n\n");
    let ghost head = out@;
    let n: usize = doc.blocks.len();
    proof { assert(head + md_blocks(doc.blocks@.take(0), lang@) =~= head); }
    for i in 0..n
        invariant
            n == doc.blocks.len(),
            out@ == head + md_blocks(doc.blocks@.take(i as int), lang@),
    {
        let ghost so_far = md_blocks(doc.blocks@.take(i as int), lang@);
        proof { assert(doc.blocks@.take(i + 1).drop_last() =~= doc.blocks@.take(i as int)); }
        out.push_str(block_to_md(&doc.blocks[i], lang).as_str());
        proof {
            assert(out@ =~= head + (so_far + md_block(doc.blocks@[i as int], lang@)));
        }
    }
    proof { assert(doc.blocks@.take(n as int) =~= doc.blocks@); }
    out.push_str("\n---\n\n*");
    out.push_str(footer);
    out.push_str("*\n");
    out
}

/// A plain-text export: the plain text, a rule, the footer.
pub open spec fn txt_document(plain: Seq<char>, footer: Seq<char>) -> Seq<char> {
    plain + "\n----\n\n"@ + footer + "\n"@
}

/// A plain-text export of a document's plain text.
pub fn render_txt(plain: &str, footer: &str) -> (r: String)
    ensures
        r@ == txt_document(plain@, footer@),
{
    let mut out = plain.to_owned();
    out.push_str("\n----\n\n");
    out.push_str(footer);
    out.push_str("\n");
    out
}

/// The stylesheet of an HTML export: for print, without a need for colour.
pub const PRINT_CSS: &'static str =
    "body{max-width:42rem;margin:2rem auto;padding:0 1rem;font-family:Georgia,'Times New Roman',serif;line-height:1.5;color:#111}h1,h2,h3{font-family:Helvetica,Arial,sans-serif;line-height:1.2}figure{margin:1rem 0}figcaption{font-style:italic;color:#555;font-size:.9em}img{max-width:100%}blockquote{border-left:3px solid #ccc;margin-left:0;padding-left:1rem;color:#333}footer{margin-top:2rem;padding-top:1rem;border-top:1px solid #ccc;font-size:.85em;color:#555}";

/// The bytes of the picture from a source.
pub open spec fn picture(thumbs: Seq<(Seq<char>, Seq<u8>)>, src: Seq<char>) -> Option<Seq<u8>>
    decreases thumbs.len(),
{
    if thumbs.len() == 0 {
        None
    } else if thumbs[0].0 == src {
        Some(thumbs[0].1)
    } else {
        picture(thumbs.drop_first(), src)
    }
}

/// The picture that stands in an HTML export: its bytes where the reader asked
/// for pictures that may not be free and they are there.
pub open spec fn embedded(
    src: Option<Seq<char>>,
    nonfree: bool,
    thumbs: Seq<(Seq<char>, Seq<u8>)>,
) -> Option<Seq<u8>> {
    match src {
        Some(s) => if nonfree {
            picture(thumbs, s)
        } else {
            None
        },
        None => None,
    }
}

/// A picture in HTML: its bytes, or its description in their place.
pub open spec fn html_picture(alt: Seq<char>, bytes: Option<Seq<u8>>) -> Seq<char> {
    match bytes {
        Some(b) => "<img src=\"data:image/png;base64,"@ + base64_text(b) + "\" alt=\""@
            + html_escaped(alt) + "\">\n"@,
        None => "<p>[image: "@ + html_escaped(alt) + "]</p>\n"@,
    }
}

/// A label and value in HTML; a pair without a label is a title.
pub open spec fn html_pair(pair: (String, String)) -> Seq<char> {
    if pair.0@.len() == 0 {
        "<tr><th colspan=\"2\">"@ + html_escaped(pair.1@) + "</th></tr>\n"@
    } else {
        "<tr><th>"@ + html_escaped(pair.0@) + "</th><td>"@ + html_escaped(pair.1@)
            + "</td></tr>\n"@
    }
}

/// Label and value pairs in HTML.
pub open spec fn html_pairs(rows: Seq<(String, String)>) -> Seq<char>
    decreases rows.len(),
{
    if rows.len() == 0 {
        Seq::empty()
    } else {
        html_pairs(rows.drop_last()) + html_pair(rows.last())
    }
}

/// Texts as HTML writes them.
pub open spec fn all_escaped(list: Seq<Seq<char>>) -> Seq<Seq<char>> {
    list.map_values(|s: Seq<char>| html_escaped(s))
}

/// A block in HTML.
pub open spec fn html_block(
    block: Block,
    lang: Seq<char>,
    nonfree: bool,
    thumbs: Seq<(Seq<char>, Seq<u8>)>,
) -> Seq<char> {
    match block {
        Block::Heading { level, spans } => {
            let l = decimal(bounded(level as int, 2, 6) as nat);
            "<h"@ + l + ">"@ + html_spans(spans@, lang) + "</h"@ + l + ">\n"@
        },
        Block::Paragraph(spans) => "<p>"@ + html_spans(spans@, lang) + "</p>\n"@,
        Block::ListItem { ordered, index, depth, spans } => "<ul><li>"@ + html_spans(spans@, lang)
            + "</li></ul>\n"@,
        Block::Blockquote(spans) => "<blockquote>"@ + html_spans(spans@, lang)
            + "</blockquote>\n"@,
        Block::Code { text, .. } => "<pre><code>"@ + html_escaped(text@) + "</code></pre>\n"@,
        Block::Rule => "<hr>\n"@,
        Block::Table(table) => "<ul>\n"@ + wrapped_each(
            "<li>"@,
            all_escaped(table.list_lines()),
            "</li>\n"@,
        ) + "</ul>\n"@,
        Block::Infobox(rows) => "<table>\n"@ + html_pairs(rows@) + "</table>\n"@,
        Block::Image { src, alt, caption } => "<figure>\n"@ + html_picture(
            alt@,
            embedded(opt_view(src), nonfree, thumbs),
        ) + (match caption {
            Some(c) => "<figcaption>"@ + html_escaped(c@) + "</figcaption>\n"@,
            None => Seq::empty(),
        }) + "</figure>\n"@,
        Block::Gallery(items) => "<ul>\n"@ + wrapped_each(
            "<li>[image: "@,
            all_escaped(captions(items@)),
            "]</li>\n"@,
        ) + "</ul>\n"@,
        Block::Math { source, .. } => "<pre><code>"@ + html_escaped(source@)
            + "</code></pre>\n"@,
    }
}

/// Blocks in HTML.
pub open spec fn html_blocks(
    blocks: Seq<Block>,
    lang: Seq<char>,
    nonfree: bool,
    thumbs: Seq<(Seq<char>, Seq<u8>)>,
) -> Seq<char>
    decreases blocks.len(),
{
    if blocks.len() == 0 {
        Seq::empty()
    } else {
        html_blocks(blocks.drop_last(), lang, nonfree, thumbs) + html_block(
            blocks.last(),
            lang,
            nonfree,
            thumbs,
        )
    }
}

/// What stands before the blocks of an HTML export.
pub open spec fn html_head(title: Seq<char>, lang: Seq<char>) -> Seq<char> {
    "<!doctype html>\n<html lang=\""@ + html_escaped(lang)
        + "\">\n<head>\n<meta charset=\"utf-8\">\n<meta name=\"viewport\" content=\"width=device-width, initial-scale=1\">\n<title>"@
        + html_escaped(title) + "</title>\n<style>"@ + PRINT_CSS@
        + "</style>\n</head>\n<body>\n<h1>"@ + html_escaped(title) + "</h1>\n"@
}

/// A document as a standalone HTML page, with the footer.
pub open spec fn html_document(
    doc: Document,
    lang: Seq<char>,
    nonfree: bool,
    thumbs: Seq<(Seq<char>, Seq<u8>)>,
    footer: Seq<char>,
) -> Seq<char> {
    html_head(doc.title@, lang) + html_blocks(doc.blocks@, lang, nonfree, thumbs) + "<footer>"@
        + html_escaped(footer) + "</footer>\n</body>\n</html>\n"@
}

fn escape_all(list: &Vec<String>) -> (r: Vec<String>)
    ensures
        views(r@) == all_escaped(views(list@)),
{
    let mut out: Vec<String> = Vec::new();
    let n: usize = list.len();
    let ghost all = all_escaped(views(list@));
    for i in 0..n
        invariant
            n == list.len(),
            all == all_escaped(views(list@)),
            views(out@) == all.take(i as int),
    {
        let ghost pre = out@;
        out.push(escape_html(list[i].as_str()));
        proof {
            assert(views(out@) =~= views(pre).push(html_escaped(list@[i as int]@)));
            assert(all.take(i + 1) =~= all.take(i as int).push(all[i as int]));
        }
    }
    proof { assert(all.take(n as int) =~= all); }
    out
}

fn pairs_to_html(rows: &Vec<(String, String)>) -> (r: String)
    ensures
        r@ == html_pairs(rows@),
{
    let mut out = String::new();
    let n: usize = rows.len();
    for i in 0..n
        invariant
            n == rows.len(),
            out@ == html_pairs(rows@.take(i as int)),
    {
        proof { assert(rows@.take(i + 1).drop_last() =~= rows@.take(i as int)); }
        let ghost pre = out@;
        let row = &rows[i];
        if chars_of(row.0.as_str()).len() == 0 {
            out.push_str("<tr><th colspan=\"2\">");
            out.push_str(escape_html(row.1.as_str()).as_str());
            out.push_str("</th></tr>\n");
        } else {
            out.push_str("<tr><th>");
            out.push_str(escape_html(row.0.as_str()).as_str());
            out.push_str("</th><td>");
            out.push_str(escape_html(row.1.as_str()).as_str());
            out.push_str("</td></tr>\n");
        }
        proof { assert(out@ =~= pre + html_pair(rows@[i as int])); }
    }
    proof { assert(rows@.take(n as int) =~= rows@); }
    out
}

fn find_picture<'a>(thumbs: &'a Vec<EmbeddableThumb>, src: &str) -> (r: Option<&'a Vec<u8>>)
    ensures
        match r {
            Some(b) => picture(views(thumbs@), src@) == Some(b@),
            None => picture(views(thumbs@), src@) is None,
        },
{
    let n: usize = thumbs.len();
    let ghost all = views(thumbs@);
    proof { assert(all.skip(0) =~= all); }
    for i in 0..n
        invariant
            n == thumbs.len(),
            all == views(thumbs@),
            picture(all, src@) == picture(all.skip(i as int), src@),
    {
        proof {
            assert(all.skip(i as int)[0] == thumbs@[i as int]@);
            assert(all.skip(i as int).drop_first() =~= all.skip(i + 1));
        }
        if same_str(thumbs[i].src.as_str(), src) {
            return Some(&thumbs[i].bytes);
        }
    }
    None
}

fn picture_to_html(
    src: &Option<String>,
    alt: &str,
    nonfree: bool,
    thumbs: &Vec<EmbeddableThumb>,
) -> (r: String)
    ensures
        r@ == html_picture(alt@, embedded(opt_view(*src), nonfree, views(thumbs@))),
{
    let found = match src {
        Some(s) => if nonfree {
            find_picture(thumbs, s.as_str())
        } else {
            None
        },
        None => None,
    };
    match found {
        Some(bytes) => {
            let mut out = wrap(
                "<img src=\"data:image/png;base64,",
                encode_base64(bytes).as_str(),
                "\" alt=\"",
            );
            out.push_str(escape_html(alt).as_str());
            out.push_str("\">\n");
            out
        },
        None => wrap("<p>[image: ", escape_html(alt).as_str(), "]</p>\n"),
    }
}

fn block_to_html(block: &Block, lang: &str, nonfree: bool, thumbs: &Vec<EmbeddableThumb>) -> (r:
    String)
    ensures
        r@ == html_block(*block, lang@, nonfree, views(thumbs@)),
{
    match block {
        Block::Heading { level, spans } => {
            let l: u64 = if *level < 2 {
                2
            } else if *level > 6 {
                6
            } else {
                *level as u64
            };
            let l = decimal_string(l);
            let mut out = wrap("<h", l.as_str(), ">");
            out.push_str(spans_to_html(spans, lang).as_str());
            out.push_str("</h");
            out.push_str(l.as_str());
            out.push_str(">\n");
            out
        },
        Block::Paragraph(spans) => wrap("<p>", spans_to_html(spans, lang).as_str(), "</p>\n"),
        Block::ListItem { spans, .. } => wrap(
            "<ul><li>",
            spans_to_html(spans, lang).as_str(),
            "</li></ul>\n",
        ),
        Block::Blockquote(spans) => wrap(
            "<blockquote>",
            spans_to_html(spans, lang).as_str(),
            "</blockquote>\n",
        ),
        Block::Code { text, .. } => wrap(
            "<pre><code>",
            escape_html(text.as_str()).as_str(),
            "</code></pre>\n",
        ),
        Block::Rule => "<hr>\n".to_owned(),
        Block::Table(table) => {
            let mut out = "<ul>\n".to_owned();
            push_each(&mut out, "<li>", &escape_all(&table.to_list_lines()), "</li>\n");
            out.push_str("</ul>\n");
            out
        },
        Block::Infobox(rows) => wrap("<table>\n", pairs_to_html(rows).as_str(), "</table>\n"),
        Block::Image { src, alt, caption } => {
            let mut out = "<figure>\n".to_owned();
            out.push_str(picture_to_html(src, alt.as_str(), nonfree, thumbs).as_str());
            let ghost head = out@;
            match caption {
                Some(c) => {
                    out.push_str("<figcaption>");
                    out.push_str(escape_html(c.as_str()).as_str());
                    out.push_str("</figcaption>\n");
                    proof {
                        assert(out@ =~= head + ("<figcaption>"@ + html_escaped(c@)
                            + "</figcaption>\n"@));
                    }
                },
                None => {
                    proof { assert(out@ =~= head + Seq::<char>::empty()); }
                },
            }
            out.push_str("</figure>\n");
            out
        },
        Block::Gallery(items) => {
            let mut out = "<ul>\n".to_owned();
            push_each(&mut out, "<li>[image: ", &escape_all(&caption_list(items)), "]</li>\n");
            out.push_str("</ul>\n");
            out
        },
        Block::Math { source, .. } => wrap(
            "<pre><code>",
            escape_html(source.as_str()).as_str(),
            "</code></pre>\n",
        ),
    }
}

fn head_to_html(title: &str, lang: &str) -> (r: String)
    ensures
        r@ == html_head(title@, lang@),
{
    let name = escape_html(title);
    let mut out = "<!doctype html>\n<html lang=\"".to_owned();
    out.push_str(escape_html(lang).as_str());
    out.push_str(
        "\">\n<head>\n<meta charset=\"utf-8\">\n<meta name=\"viewport\" content=\"width=device-width, initial-scale=1\">\n<title>",
    );
    out.push_str(name.as_str());
    out.push_str("</title>\n<style>");
    out.push_str(PRINT_CSS);
    out.push_str("</style>\n</head>\n<body>\n<h1>");
    out.push_str(name.as_str());
    out.push_str("</h1>\n");
    out
}

/// A document as a standalone HTML page, with the footer.
pub fn render_html(
    doc: &Document,
    lang: &str,
    include_nonfree: bool,
    thumbs: &Vec<EmbeddableThumb>,
    footer: &str,
) -> (r: String)
    ensures
        r@ == html_document(*doc, lang@, include_nonfree, views(thumbs@), footer@),
{
    let mut out = head_to_html(doc.title.as_str(), lang);
    let ghost head = out@;
    let ghost pics = views(thumbs@);
    let n: usize = doc.blocks.len();
    proof {
        assert(head + html_blocks(doc.blocks@.take(0), lang@, include_nonfree, pics) =~= head);
    }
    for i in 0..n
        invariant
            n == doc.blocks.len(),
            pics == views(thumbs@),
            out@ == head + html_blocks(doc.blocks@.take(i as int), lang@, include_nonfree, pics),
    {
        let ghost so_far = html_blocks(doc.blocks@.take(i as int), lang@, include_nonfree, pics);
        proof { assert(doc.blocks@.take(i + 1).drop_last() =~= doc.blocks@.take(i as int)); }
        out.push_str(block_to_html(&doc.blocks[i], lang, include_nonfree, thumbs).as_str());
        proof {
            assert(out@ =~= head + (so_far + html_block(
                doc.blocks@[i as int],
                lang@,
                include_nonfree,
                pics,
            )));
        }
    }
    proof { assert(doc.blocks@.take(n as int) =~= doc.blocks@); }
    out.push_str("<footer>");
    out.push_str(escape_html(footer).as_str());
    out.push_str("</footer>\n</body>\n</html>\n");
    out
}

/// An export in a format; any other format has none.
pub open spec fn exported(
    doc: Document,
    plain: Seq<char>,
    lang: Seq<char>,
    format: Seq<char>,
    nonfree: bool,
    thumbs: Seq<(Seq<char>, Seq<u8>)>,
    footer: Seq<char>,
) -> Option<Seq<char>> {
    if format == "txt"@ {
        Some(txt_document(plain, footer))
    } else if format == "md"@ {
        Some(md_document(doc, lang, footer))
    } else if format == "html"@ {
        Some(html_document(doc, lang, nonfree, thumbs, footer))
    } else {
        None
    }
}

/// Exports a document, whose plain text is `plain`, in a format; nothing where
/// the format is none of the three.
pub fn render(
    doc: &Document,
    plain: &str,
    lang: &str,
    format: &str,
    include_nonfree: bool,
    thumbs: &Vec<EmbeddableThumb>,
    footer: &str,
) -> (r: Option<String>)
    ensures
        opt_view(r) == exported(
            *doc,
            plain@,
            lang@,
            format@,
            include_nonfree,
            views(thumbs@),
            footer@,
        ),
{
    if same_str(format, "txt") {
        Some(render_txt(plain, footer))
    } else if same_str(format, "md") {
        Some(render_md(doc, lang, footer))
    } else if same_str(format, "html") {
        Some(render_html(doc, lang, include_nonfree, thumbs, footer))
    } else {
        None
    }
}

/// Unless the reader asked for pictures that may not be free, no export depends
/// on any picture's bytes.
pub proof fn without_consent_no_picture_goes_out(
    doc: Document,
    plain: Seq<char>,
    lang: Seq<char>,
    format: Seq<char>,
    a: Seq<(Seq<char>, Seq<u8>)>,
    b: Seq<(Seq<char>, Seq<u8>)>,
    footer: Seq<char>,
)
    ensures
        exported(doc, plain, lang, format, false, a, footer) == exported(
            doc,
            plain,
            lang,
            format,
            false,
            b,
            footer,
        ),
{
    lemma_blocks_hold_no_picture(doc.blocks@, lang, a, b);
}

proof fn lemma_blocks_hold_no_picture(
    blocks: Seq<Block>,
    lang: Seq<char>,
    a: Seq<(Seq<char>, Seq<u8>)>,
    b: Seq<(Seq<char>, Seq<u8>)>,
)
    ensures
        html_blocks(blocks, lang, false, a) == html_blocks(blocks, lang, false, b),
    decreases blocks.len(),
{
    if blocks.len() > 0 {
        lemma_blocks_hold_no_picture(blocks.drop_last(), lang, a, b);
        let last = blocks.last();
        match last {
            Block::Image { src, alt, caption } => {
                assert(embedded(opt_view(src), false, a) == embedded(opt_view(src), false, b));
            },
            _ => {},
        }
        assert(html_block(last, lang, false, a) == html_block(last, lang, false, b));
    }
}

/// Plain text and Markdown never hold a picture's bytes.
pub proof fn text_formats_hold_no_picture(
    doc: Document,
    plain: Seq<char>,
    lang: Seq<char>,
    format: Seq<char>,
    nonfree: bool,
    a: Seq<(Seq<char>, Seq<u8>)>,
    b: Seq<(Seq<char>, Seq<u8>)>,
    footer: Seq<char>,
)
    requires
        format == "txt"@ || format == "md"@,
    ensures
        exported(doc, plain, lang, format, nonfree, a, footer) == exported(
            doc,
            plain,
            lang,
            format,
            nonfree,
            b,
            footer,
        ),
{
}

/// What follows the document in an export of a format.
pub open spec fn ending(format: Seq<char>, footer: Seq<char>) -> Seq<char> {
    if format == "txt"@ {
        "\n----\n\n"@ + footer + "\n"@
    } else if format == "md"@ {
        "\n---\n\n*"@ + footer + "*\n"@
    } else {
        "<footer>"@ + html_escaped(footer) + "</footer>\n</body>\n</html>\n"@
    }
}

/// Every export ends with the footer.
pub proof fn every_export_ends_with_the_footer(
    doc: Document,
    plain: Seq<char>,
    lang: Seq<char>,
    format: Seq<char>,
    nonfree: bool,
    thumbs: Seq<(Seq<char>, Seq<u8>)>,
    footer: Seq<char>,
)
    requires
        format_extension(format) is Some,
    ensures
        ({
            let out = exported(doc, plain, lang, format, nonfree, thumbs, footer);
            &&& out is Some
            &&& exists|body: Seq<char>| out->0 == #[trigger] (body + ending(format, footer))
        }),
{
    let out = exported(doc, plain, lang, format, nonfree, thumbs, footer)->0;
    if format == "txt"@ {
        assert(out =~= plain + ending(format, footer));
    } else if format == "md"@ {
        let body = "# "@ + doc.title@ + "\n\n"@ + md_blocks(doc.blocks@, lang);
        assert(out =~= body + ending(format, footer));
    } else {
        let body = html_head(doc.title@, lang) + html_blocks(doc.blocks@, lang, nonfree, thumbs);
        assert(out =~= body + ending(format, footer));
    }
}

} // verus!
