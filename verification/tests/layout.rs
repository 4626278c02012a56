use unicode_segmentation::UnicodeSegmentation;
use wikitui::doc::flatten_plain;
use wikitui::doc::is_followable;
use wikitui::doc::reading_minutes;
use wikitui::doc::Block;
use wikitui::doc::CodeToken;
use wikitui::doc::Document;
use wikitui::doc::GalleryItem;
use wikitui::doc::Span;
use wikitui::doc::SpanStyle;
use wikitui::doc::Table;
use wikitui::doc::TableCell;
use wikitui::doc::TokenKind;
use wikitui::layout::citation_needed_lines;
use wikitui::layout::cluster::clusters_from_str;
use wikitui::layout::cluster::is_no_start;
use wikitui::layout::cluster::Cluster;
use wikitui::layout::display_width;
use wikitui::layout::find_matches;
use wikitui::layout::fold_body_counts;
use wikitui::layout::fold_range_end;
use wikitui::layout::is_case_sensitive;
use wikitui::layout::layout_document;
use wikitui::layout::layout_document_with_images;
use wikitui::layout::size_tier;
use wikitui::layout::table::grid_width;
use wikitui::layout::table::pad_to_width;
use wikitui::layout::table::plan_table;
use wikitui::layout::table::TablePlan;
use wikitui::layout::wrap::spread_extra;
use wikitui::layout::wrap::try_hyphenate;
use wikitui::layout::ImageBoxes;
use wikitui::layout::LaidLine;
use wikitui::layout::LaidSpan;
use wikitui::layout::Layout;
use wikitui::layout::LayoutCache;
use wikitui::layout::LayoutCacheKey;
use wikitui::layout::LayoutOptions;
use wikitui::layout::MatchSpan;
use wikitui::layout::NoImages;
use wikitui::layout::Occurrence;
use wikitui::layout::SizeTier;
use wikitui::layout::SpanKind;
use wikitui::layout::TextAlign;
use wikitui::layout::LAYOUT_SCHEMA_VERSION;

// A reader for the small articles below, enough to build their documents.

enum Node {
    Text(String),
    Element(Element),
}

struct Element {
    tag: String,
    attrs: Vec<(String, String)>,
    children: Vec<Node>,
}

impl Element {
    fn attr(&self, name: &str) -> &str {
        self.attrs
            .iter()
            .find(|(k, _)| k == name)
            .map(|(_, v)| v.as_str())
            .unwrap_or("")
    }

    fn text(&self) -> String {
        self.children
            .iter()
            .map(|c| match c {
                Node::Text(t) => t.clone(),
                Node::Element(e) => e.text(),
            })
            .collect()
    }

    fn find(&self, tag: &str) -> Option<&Element> {
        for child in &self.children {
            if let Node::Element(e) = child {
                if e.tag == tag {
                    return Some(e);
                }
                if let Some(found) = e.find(tag) {
                    return Some(found);
                }
            }
        }
        None
    }

    fn all<'a>(&'a self, tag: &str, out: &mut Vec<&'a Element>) {
        for child in &self.children {
            if let Node::Element(e) = child {
                if e.tag == tag {
                    out.push(e);
                } else {
                    e.all(tag, out);
                }
            }
        }
    }
}

fn decode(s: &str) -> String {
    let mut out = String::new();
    let mut rest = s;
    while let Some(at) = rest.find('&') {
        out.push_str(&rest[..at]);
        let end = rest[at..].find(';').expect("an entity ends") + at;
        let name = &rest[at + 1..end];
        match name {
            "quot" => out.push('"'),
            "amp" => out.push('&'),
            "lt" => out.push('<'),
            "gt" => out.push('>'),
            _ => {
                let code: u32 = name[1..].parse().expect("a numeric entity");
                out.push(char::from_u32(code).expect("a character"));
            }
        }
        rest = &rest[end + 1..];
    }
    out.push_str(rest);
    out
}

fn read_attrs(mut s: &str) -> Vec<(String, String)> {
    let mut attrs = Vec::new();
    loop {
        s = s.trim_start();
        let Some(eq) = s.find('=') else { return attrs };
        let name = s[..eq].to_string();
        let quote = s[eq + 1..].chars().next().expect("a quoted value");
        let value = &s[eq + 2..];
        let end = value.find(quote).expect("a closed value");
        attrs.push((name, decode(&value[..end])));
        s = &value[end + 1..];
    }
}

fn tag_end(s: &str) -> usize {
    let mut quote = None;
    for (i, c) in s.char_indices() {
        match quote {
            Some(q) => {
                if c == q {
                    quote = None;
                }
            }
            None => match c {
                '"' | '\'' => quote = Some(c),
                '>' => return i,
                _ => {}
            },
        }
    }
    panic!("an open tag in {s:?}");
}

fn read_nodes(html: &str) -> Vec<Node> {
    let mut stack = vec![Element {
        tag: String::new(),
        attrs: Vec::new(),
        children: Vec::new(),
    }];
    let mut rest = html;
    while !rest.is_empty() {
        if let Some(closing) = rest.strip_prefix("</") {
            let end = tag_end(closing);
            let done = stack.pop().expect("an open element");
            assert_eq!(done.tag, &closing[..end], "tags close in order");
            stack.last_mut().expect("a parent").children.push(Node::Element(done));
            rest = &closing[end + 1..];
        } else if let Some(opening) = rest.strip_prefix('<') {
            let end = tag_end(opening);
            let inner = opening[..end].trim_end_matches('/');
            let name_end = inner.find(char::is_whitespace).unwrap_or(inner.len());
            let element = Element {
                tag: inner[..name_end].to_string(),
                attrs: read_attrs(&inner[name_end..]),
                children: Vec::new(),
            };
            if opening[..end].ends_with('/') {
                stack.last_mut().expect("a parent").children.push(Node::Element(element));
            } else {
                stack.push(element);
            }
            rest = &opening[end + 1..];
        } else {
            let end = rest.find('<').unwrap_or(rest.len());
            stack
                .last_mut()
                .expect("a parent")
                .children
                .push(Node::Text(decode(&rest[..end])));
            rest = &rest[end..];
        }
    }
    stack.pop().expect("the root").children
}

fn normalized(tex: &str) -> String {
    tex.replace("^2", "²")
}

fn squeezed(s: &str) -> String {
    s.split_whitespace().collect::<Vec<_>>().join(" ")
}

fn push_spans(nodes: &[Node], style: &SpanStyle, out: &mut Vec<Span>) {
    for node in nodes {
        match node {
            Node::Text(text) => out.push(Span {
                text: text.clone(),
                style: style.clone(),
            }),
            Node::Element(e) => {
                if e.attr("data-mw").contains("Citation needed") {
                    out.push(Span {
                        text: "[citation needed]".to_string(),
                        style: SpanStyle::CitationNeeded,
                    });
                    continue;
                }
                if e.attr("typeof") == "mw:Extension/math" {
                    let tex = e.find("math").expect("a formula").attr("alttext");
                    out.push(Span {
                        text: tex.to_string(),
                        style: SpanStyle::Math(normalized(tex)),
                    });
                    continue;
                }
                let inner = match e.tag.as_str() {
                    "b" => SpanStyle::Bold,
                    "i" => SpanStyle::Italic,
                    "sup" => SpanStyle::Superscript,
                    "a" => SpanStyle::Link(e.attr("href").to_string()),
                    _ => style.clone(),
                };
                push_spans(&e.children, &inner, out);
            }
        }
    }
}

/// The spans of an element, with runs of whitespace squeezed to one space and
/// none at either end.
fn spans_of(e: &Element) -> Vec<Span> {
    let mut raw = Vec::new();
    push_spans(&e.children, &SpanStyle::Plain, &mut raw);
    let mut out: Vec<Span> = Vec::new();
    let mut after_space = true;
    for span in raw {
        let mut text = String::new();
        for c in span.text.chars() {
            if c.is_whitespace() {
                if !after_space {
                    text.push(' ');
                }
                after_space = true;
            } else {
                text.push(c);
                after_space = false;
            }
        }
        if !text.is_empty() {
            out.push(Span {
                text,
                style: span.style,
            });
        }
    }
    if let Some(last) = out.last_mut() {
        last.text = last.text.trim_end().to_string();
    }
    out.retain(|s| !s.text.is_empty());
    out
}

fn code_tokens(text: &str) -> Vec<Vec<CodeToken>> {
    text.lines()
        .map(|line| {
            let mut tokens = Vec::new();
            let mut rest = line;
            while let Some(c) = rest.chars().next() {
                let (len, kind) = if rest.starts_with("//") {
                    (rest.len(), TokenKind::Comment)
                } else if c == '"' {
                    let end = rest[1..].find('"').expect("a closed string") + 2;
                    (end, TokenKind::Str)
                } else if c.is_alphabetic() {
                    let end = rest
                        .find(|x: char| !x.is_alphanumeric())
                        .unwrap_or(rest.len());
                    match &rest[..end] {
                        "fn" | "let" => (end, TokenKind::Keyword),
                        _ => (end, TokenKind::Plain),
                    }
                } else {
                    (c.len_utf8(), TokenKind::Plain)
                };
                tokens.push(CodeToken {
                    text: rest[..len].to_string(),
                    kind,
                });
                rest = &rest[len..];
            }
            tokens
        })
        .collect()
}

fn rows_of(table: &Element) -> Vec<Vec<TableCell>> {
    let mut rows = Vec::new();
    table.all("tr", &mut rows);
    rows.iter()
        .map(|row| {
            row.children
                .iter()
                .filter_map(|c| match c {
                    Node::Element(e) => Some(TableCell {
                        text: squeezed(&e.text()),
                        header: e.tag == "th",
                    }),
                    Node::Text(_) => None,
                })
                .collect()
        })
        .collect()
}

fn infobox_rows(table: &Element) -> Vec<(String, String)> {
    rows_of(table)
        .into_iter()
        .map(|row| match row.as_slice() {
            [only] => (String::new(), only.text.clone()),
            [label, value] => (label.text.clone(), value.text.clone()),
            other => panic!("an infobox row of {} cells", other.len()),
        })
        .collect()
}

fn push_blocks(nodes: &[Node], blocks: &mut Vec<Block>) {
    for node in nodes {
        let Node::Element(e) = node else { continue };
        match e.tag.as_str() {
            "head" => {}
            "p" => blocks.push(Block::Paragraph(spans_of(e))),
            "h2" => blocks.push(Block::Heading {
                level: 2,
                spans: spans_of(e),
            }),
            "h3" => blocks.push(Block::Heading {
                level: 3,
                spans: spans_of(e),
            }),
            "ul" if e.attr("class") == "gallery" => {
                let mut items = Vec::new();
                e.all("li", &mut items);
                blocks.push(Block::Gallery(
                    items
                        .iter()
                        .map(|li| GalleryItem {
                            src: Some(li.find("img").expect("a picture").attr("src").to_string()),
                            caption: squeezed(&li.find("div").expect("a caption").text()),
                        })
                        .collect(),
                ));
            }
            "ul" => {
                let mut items = Vec::new();
                e.all("li", &mut items);
                for li in items {
                    blocks.push(Block::ListItem {
                        ordered: false,
                        index: 0,
                        depth: 0,
                        spans: spans_of(li),
                    });
                }
            }
            "blockquote" => blocks.push(Block::Blockquote(spans_of(e))),
            "pre" => {
                let text = e.text();
                let highlighted = e.attr("class").contains("mw-highlight-lang-rust");
                blocks.push(Block::Code {
                    tokens: if highlighted { code_tokens(&text) } else { Vec::new() },
                    lang: if highlighted { Some("rust".to_string()) } else { None },
                    text,
                });
            }
            "hr" => blocks.push(Block::Rule),
            "table" if e.attr("class") == "infobox" => {
                blocks.push(Block::Infobox(infobox_rows(e)))
            }
            "table" => blocks.push(Block::Table(Table {
                rows: rows_of(e),
                truncated: false,
            })),
            "figure" => {
                let img = e.find("img").expect("a picture");
                blocks.push(Block::Image {
                    src: Some(img.attr("src").to_string()),
                    alt: img.attr("alt").to_string(),
                    caption: e.find("figcaption").map(|c| squeezed(&c.text())),
                });
            }
            "math" => {
                let tex = e.attr("alttext").to_string();
                blocks.push(Block::Math {
                    tex: normalized(&tex),
                    source: tex,
                    display: e.attr("display") == "block",
                });
            }
            _ => push_blocks(&e.children, blocks),
        }
    }
}

fn spans_in(block: &Block) -> &[Span] {
    match block {
        Block::Heading { spans, .. }
        | Block::Paragraph(spans)
        | Block::ListItem { spans, .. }
        | Block::Blockquote(spans) => spans,
        _ => &[],
    }
}

fn parse_article_html(title: &str, html: &str) -> Document {
    let mut blocks = Vec::new();
    push_blocks(&read_nodes(html), &mut blocks);
    let words = blocks
        .iter()
        .map(|b| {
            let text: String = spans_in(b).iter().map(|s| s.text.as_str()).collect();
            text.split_whitespace().count()
        })
        .sum();
    Document {
        title: title.to_string(),
        blocks,
        words,
    }
}

/// The followable links of a document, in order.
fn collect_links(doc: &Document) -> Vec<Span> {
    doc.blocks
        .iter()
        .flat_map(|b| spans_in(b).iter())
        .filter(|s| is_followable(&s.style))
        .cloned()
        .collect()
}

struct Section {
    block: usize,
    title: String,
}

fn section_outline(doc: &Document) -> Vec<Section> {
    doc.blocks
        .iter()
        .enumerate()
        .filter_map(|(block, b)| match b {
            Block::Heading { spans, .. } => Some(Section {
                block,
                title: flatten_plain(spans),
            }),
            _ => None,
        })
        .collect()
}

fn line_text(line: &LaidLine) -> String {
    line.spans.iter().map(|s| s.text.as_str()).collect()
}

fn assert_no_overflow(doc: &Document, width: u16, opts: LayoutOptions) {
    let layout = layout_document(doc, width, opts);
    for (i, line) in layout.lines.iter().enumerate() {
        let w = line.width(opts.ambiguous_wide);
        assert!(
            w <= width as usize,
            "line {i} width {w} exceeds {width}: {:?}",
            line_text(line)
        );
    }
}

const FIXTURE: &str = r##"
<html><head><title>Test Article</title></head><body>
  <table class="infobox"><tbody>
    <tr><th colspan="2">Subject</th></tr>
    <tr><th>Field</th><td>Testing and a rather long value that will need to wrap</td></tr>
  </tbody></table>
  <p>This is <b>bold</b> and <i>italic</i> text with a <a href="./Other_Article">link</a>
  and a reference<sup class="reference"><a href="#cite_note-1">[1]</a></sup> plus enough
  words to force at least one wrap on a narrow terminal for good measure.</p>
  <h2>History</h2>
  <p>Some history text.</p>
  <ul><li>First item with a fairly long description that should wrap and hang</li>
  <li>Second item</li></ul>
  <blockquote><p>A quoted remark that is deliberately long enough to wrap across
  more than one line so the gutter bar is exercised on continuation lines.</p></blockquote>
  <pre>fn main() {
println!("hello");
}</pre>
  <hr/>
  <table class="wikitable"><tbody>
    <tr><th>Year</th><th>Event</th></tr>
    <tr><td>1950</td><td>Something happened</td></tr>
  </tbody></table>
  <figure><img src="x.jpg" alt="A test picture"/></figure>
</body></html>
"##;

const JA_FIXTURE: &str = r##"
<html><head><title>アラン・チューリング</title></head><body>
  <p>アラン・マティソン・チューリングは、イギリスの数学者、論理学者、暗号解読者、
  計算機科学者である。彼はしばしば<a href="./計算機科学">計算機科学</a>および
  <a href="./人工知能">人工知能</a>の父と呼ばれている。第二次世界大戦中、
  チューリングはドイツの暗号機エニグマの解読に大きく貢献した。</p>
  <h2>生涯</h2>
  <p>チューリングは1912年にロンドンで生まれた。The Turing machine は計算の
  数学的モデルであり、現代のコンピュータの理論的基礎となっている。</p>
</body></html>
"##;

fn hard_cases_doc() -> Document {
    let long_token = "x".repeat(300);
    let html = format!(
        r##"<html><head><title>Edge Cases</title></head><body>
        <p>IPA sample: k&#688;a&#805; t&#865;s&#688;i&#331; with combining marks that must stay whole.</p>
        <p>Family emoji: &#128104;&#8205;&#128105;&#8205;&#128103;&#8205;&#128102; stays intact.</p>
        <p>{long_token}</p>
        </body></html>"##
    );
    parse_article_html("Edge Cases", &html)
}

const IMG_HTML: &str = r#"<html><head><title>Img</title></head><body>
  <p>Lead.</p>
  <figure><img src="https://ex.org/p.png" alt="An owl"/><figcaption>An owl</figcaption></figure>
</body></html>"#;

fn image_rows(layout: &Layout) -> usize {
    layout
        .lines
        .iter()
        .filter(|l| {
            l.spans
                .iter()
                .any(|s| matches!(s.kind, SpanKind::ImageRow { .. }))
        })
        .count()
}

fn code_kinds_present(layout: &Layout) -> Vec<SpanKind> {
    let mut kinds = Vec::new();
    for line in &layout.lines {
        for span in &line.spans {
            let is_code_token = matches!(
                span.kind,
                SpanKind::Code
                    | SpanKind::CodeKeyword
                    | SpanKind::CodeString
                    | SpanKind::CodeComment
                    | SpanKind::CodeNumber
            );
            if is_code_token && !kinds.contains(&span.kind) {
                kinds.push(span.kind.clone());
            }
        }
    }
    kinds
}

const RUST_CODE_HTML: &str = r#"<html><head><title>Code</title></head><body>
  <p>Lead.</p>
  <pre class="mw-highlight mw-highlight-lang-rust"><code>fn main() {
let x = "hi"; // greet
}</code></pre>
</body></html>"#;

#[test]
fn highlighted_code_block_has_distinct_token_kinds() {
    let doc = parse_article_html("Code", RUST_CODE_HTML);
    let layout = layout_document(&doc, 80, LayoutOptions::default());
    let kinds = code_kinds_present(&layout);
    assert!(
        kinds.contains(&SpanKind::CodeKeyword),
        "fn/let are keywords: {kinds:?}"
    );
    assert!(
        kinds.contains(&SpanKind::CodeString),
        "\"hi\" is a string: {kinds:?}"
    );
    assert!(
        kinds.contains(&SpanKind::CodeComment),
        "// greet is a comment: {kinds:?}"
    );
}

#[test]
fn unhighlighted_code_block_stays_uniform_code() {
    let html = r#"<html><head><title>C</title></head><body>
      <pre>fn main() { let x = "hi"; }</pre>
    </body></html>"#;
    let doc = parse_article_html("C", html);
    let layout = layout_document(&doc, 80, LayoutOptions::default());
    let kinds = code_kinds_present(&layout);
    assert_eq!(
        kinds,
        vec![SpanKind::Code],
        "no lang hint -> uniform code: {kinds:?}"
    );
}

#[test]
fn image_without_resolver_box_is_the_alt_placeholder() {
    let doc = parse_article_html("Img", IMG_HTML);
    let layout = layout_document(&doc, 80, LayoutOptions::default());
    assert_eq!(image_rows(&layout), 0, "no box reserved without a resolver");
    let has_placeholder = layout.lines.iter().any(|l| {
        l.spans
            .iter()
            .any(|s| matches!(s.kind, SpanKind::Image) && s.text.contains("[image: An owl]"))
    });
    assert!(has_placeholder, "expected the [image: alt] placeholder");
    assert!(layout.lines.iter().any(|l| l.spans.iter().any(|s| matches!(
        s.kind,
        SpanKind::Caption
    )
        && s.text.contains("An owl"))));
}

#[test]
fn image_with_resolver_reserves_a_half_block_box_and_caption() {
    let doc = parse_article_html("Img", IMG_HTML);
    let mut boxes = ImageBoxes::new();
    boxes.insert("https://ex.org/p.png".to_string(), (20u16, 5u16));
    let layout = layout_document_with_images(&doc, 80, LayoutOptions::default(), &boxes, &vec![]);
    assert_eq!(image_rows(&layout), 5, "five reserved image rows");
    for l in &layout.lines {
        for s in &l.spans {
            if let SpanKind::ImageRow { rows, .. } = s.kind {
                assert_eq!(rows, 5);
                assert_eq!(s.text.chars().count(), 20);
            }
        }
    }
    assert!(
        layout.lines.iter().any(|l| l
            .spans
            .iter()
            .any(|s| matches!(&s.kind, SpanKind::Caption) && s.text.contains("An owl"))),
        "caption below the box"
    );
}

#[test]
fn huge_image_box_is_clamped_to_the_content_column() {
    let doc = parse_article_html("Img", IMG_HTML);
    let mut boxes = ImageBoxes::new();
    boxes.insert("https://ex.org/p.png".to_string(), (200u16, 4u16));
    let layout = layout_document_with_images(&doc, 30, LayoutOptions::default(), &boxes, &vec![]);
    for l in &layout.lines {
        for s in &l.spans {
            if matches!(s.kind, SpanKind::ImageRow { .. }) {
                assert!(
                    s.text.chars().count() <= 30,
                    "image row wider than content column"
                );
            }
        }
    }
}

#[test]
fn gallery_is_a_strip_when_wide_and_a_list_when_narrow() {
    let html = r#"<html><head><title>G</title></head><body>
      <ul class="gallery">
        <li class="gallerybox"><img src="https://ex.org/1.png" alt="a"/><div class="gallerytext">Alpha</div></li>
        <li class="gallerybox"><img src="https://ex.org/2.png" alt="b"/><div class="gallerytext">Beta</div></li>
      </ul>
    </body></html>"#;
    let doc = parse_article_html("G", html);

    let wide = layout_document(&doc, 100, LayoutOptions::default());
    let strip_line = wide.lines.iter().any(|l| {
        let text: String = l.spans.iter().map(|s| s.text.as_str()).collect();
        text.contains("Alpha") && text.contains("Beta")
    });
    assert!(
        strip_line,
        "wide gallery should place captions side by side"
    );

    let narrow = layout_document(&doc, 24, LayoutOptions::default());
    let alpha_line = narrow
        .lines
        .iter()
        .position(|l| l.spans.iter().any(|s| s.text.contains("Alpha")));
    let beta_line = narrow
        .lines
        .iter()
        .position(|l| l.spans.iter().any(|s| s.text.contains("Beta")));
    assert!(alpha_line.is_some() && beta_line.is_some());
    assert_ne!(alpha_line, beta_line, "narrow gallery is a vertical list");
    assert!(
        narrow
            .lines
            .iter()
            .any(|l| l.spans.iter().any(|s| s.text.contains("[image: Alpha]")))
    );
}

#[test]
fn no_line_exceeds_width_across_fixtures_and_widths() {
    let docs = [
        parse_article_html("Test Article", FIXTURE),
        parse_article_html("アラン・チューリング", JA_FIXTURE),
        hard_cases_doc(),
    ];
    for doc in &docs {
        for width in [20u16, 40, 60, 80, 100, 200] {
            for ambiguous_wide in [false, true] {
                assert_no_overflow(
                    doc,
                    width,
                    LayoutOptions {
                        measure: 88,
                        ambiguous_wide,
                        ..LayoutOptions::default()
                    },
                );
            }
        }
    }
}

#[test]
fn grapheme_clusters_are_never_split() {
    let doc = hard_cases_doc();
    let family = "\u{1F468}\u{200D}\u{1F469}\u{200D}\u{1F467}\u{200D}\u{1F466}";
    let layout = layout_document(&doc, 20, LayoutOptions::default());
    let joined: String = layout.lines.iter().map(line_text).collect();
    assert!(
        joined.contains(family),
        "the ZWJ emoji family was split across a wrap"
    );

    let ipa = "k\u{2B0}"; // k + modifier letter small h
    assert!(joined.contains(ipa), "IPA cluster was split");
}

#[test]
fn ambiguous_wide_changes_measured_width() {
    for s in ["·", "°", "§", "①"] {
        assert_eq!(display_width(s, false), 1, "{s} narrow by default");
        assert_eq!(display_width(s, true), 2, "{s} wide under CJK tables");
    }
    assert_eq!(display_width("語", false), 2);
    assert_eq!(display_width("語", true), 2);
}

#[test]
fn cjk_line_never_starts_with_forbidden_punctuation() {
    let doc = parse_article_html("アラン・チューリング", JA_FIXTURE);
    for width in [16u16, 24, 32, 40, 60] {
        let layout = layout_document(&doc, width, LayoutOptions::default());
        for line in &layout.lines {
            let text = line_text(line);
            if let Some(first) = text.trim_start().chars().next() {
                assert!(
                    !is_no_start(first),
                    "a line began with forbidden {first:?} at width {width}: {text:?}"
                );
            }
        }
    }
}

#[test]
fn wide_terminal_caps_measure_and_centers() {
    let doc = parse_article_html("Test Article", FIXTURE);
    let layout = layout_document(&doc, 200, LayoutOptions::default());
    let pad = (200 - 88) / 2;
    let mut saw_pad = false;
    for line in &layout.lines {
        let Some(first) = line.spans.first() else { continue };
        if first.text.starts_with(' ') && first.text.chars().all(|c| c == ' ') {
            assert_eq!(
                display_width(&first.text, false),
                pad,
                "left pad should center the 88-cell column in 200 cells"
            );
            saw_pad = true;
            let rest: usize = line.spans[1..]
                .iter()
                .map(|s| display_width(&s.text, false))
                .sum();
            assert!(rest <= 88, "content column exceeded the 88-cell measure");
        }
    }
    assert!(saw_pad, "expected centered content with a left pad");
}

#[test]
fn narrow_terminal_uses_full_width_without_pad() {
    let doc = parse_article_html("Test Article", FIXTURE);
    let layout = layout_document(&doc, 50, LayoutOptions::default());
    for line in &layout.lines {
        let w = line.width(false);
        assert!(w <= 50);
    }
    assert!(layout.lines.iter().any(|l| l.width(false) > 40));
}

const TWO_PARAGRAPHS: &str = r#"<html><head><title>Spacing Test</title></head><body>
  <p>First paragraph here.</p>
  <p>Second paragraph here.</p>
</body></html>"#;

#[test]
fn default_options_reproduce_the_pre_fr_pc_1_layout() {
    let doc = parse_article_html("Test Article", FIXTURE);
    let layout = layout_document(&doc, 90, LayoutOptions::default());
    assert_eq!(
        layout.lines[0].spans[0].text, " ",
        "default centering pads (90-88)/2 = 1 cell"
    );
    let min_read = layout
        .lines
        .iter()
        .position(|l| line_text(l).contains("min read"))
        .expect("a nonempty article always reports a nonzero reading time");
    assert_eq!(
        min_read, 1,
        "immediately follows the title, no filler row between"
    );
    assert_eq!(line_text(&layout.lines[min_read + 1]).trim(), "");
    assert_ne!(
        line_text(&layout.lines[min_read + 2]).trim(),
        "",
        "default paragraph_spacing=1 means exactly one blank row, not two"
    );
    let joined: String = layout
        .lines
        .iter()
        .map(line_text)
        .collect::<Vec<_>>()
        .join("\n");
    assert!(
        joined.contains("bold and"),
        "default word_spacing=0 keeps a single collapsed space: {joined:?}"
    );
}

#[test]
fn paragraph_spacing_two_adds_a_second_blank_line_between_paragraphs() {
    let doc = parse_article_html("Spacing Test", TWO_PARAGRAPHS);
    let opts = LayoutOptions {
        paragraph_spacing: 2,
        ..LayoutOptions::default()
    };
    let layout = layout_document(&doc, 40, opts);
    let first = layout
        .lines
        .iter()
        .position(|l| line_text(l).contains("First paragraph"))
        .expect("first paragraph line");
    let second = layout
        .lines
        .iter()
        .position(|l| line_text(l).contains("Second paragraph"))
        .expect("second paragraph line");
    let gap = second - first - 1;
    assert_eq!(gap, 2, "two blank rows between the paragraphs' own lines");
    for i in first + 1..second {
        assert_eq!(
            line_text(&layout.lines[i]).trim(),
            "",
            "gap row {i} must be blank"
        );
    }

    let default_layout = layout_document(&doc, 40, LayoutOptions::default());
    let d_first = default_layout
        .lines
        .iter()
        .position(|l| line_text(l).contains("First paragraph"))
        .unwrap();
    let d_second = default_layout
        .lines
        .iter()
        .position(|l| line_text(l).contains("Second paragraph"))
        .unwrap();
    assert_eq!(d_second - d_first - 1, 1);
}

#[test]
fn line_spacing_one_inserts_a_blank_after_each_visual_line() {
    let doc = parse_article_html("Spacing Test", TWO_PARAGRAPHS);
    let opts = LayoutOptions {
        line_spacing: 1,
        ..LayoutOptions::default()
    };
    let layout = layout_document(&doc, 40, opts);
    let first = layout
        .lines
        .iter()
        .position(|l| line_text(l).contains("First paragraph"))
        .expect("first paragraph line");
    let second = layout
        .lines
        .iter()
        .position(|l| line_text(l).contains("Second paragraph"))
        .expect("second paragraph line");
    assert_eq!(
        second - first - 1,
        2,
        "line_spacing=1 adds its own filler row on top of paragraph_spacing's"
    );

    let long = "word ".repeat(30);
    let html = format!("<html><body><p>{long}</p></body></html>");
    let doc2 = parse_article_html("Long", &html);
    let opts2 = LayoutOptions {
        line_spacing: 1,
        ..LayoutOptions::default()
    };
    let laid = layout_document(&doc2, 20, opts2);
    let content_lines: Vec<usize> = laid
        .lines
        .iter()
        .enumerate()
        .filter(|(_, l)| line_text(l).contains("word"))
        .map(|(i, _)| i)
        .collect();
    assert!(
        content_lines.len() >= 3,
        "the long paragraph wraps to several lines"
    );
    for w in content_lines.windows(2) {
        assert_eq!(
            w[1] - w[0],
            2,
            "each content line is followed by exactly one filler blank"
        );
    }
}

#[test]
fn word_spacing_one_widens_gaps_and_still_wraps_within_width() {
    let doc = parse_article_html("T", "<html><body><p>Alpha Beta Gamma</p></body></html>");
    let widened = layout_document(
        &doc,
        40,
        LayoutOptions {
            word_spacing: 1,
            ..LayoutOptions::default()
        },
    );
    let plain = layout_document(&doc, 40, LayoutOptions::default());
    let plain_line = plain
        .lines
        .iter()
        .find(|l| line_text(l).contains("Alpha"))
        .expect("the paragraph's own line");
    assert_eq!(line_text(plain_line).trim(), "Alpha Beta Gamma");
    let widened_line = widened
        .lines
        .iter()
        .find(|l| line_text(l).contains("Alpha"))
        .expect("the paragraph's own line");
    assert_eq!(
        line_text(widened_line).trim(),
        "Alpha  Beta  Gamma",
        "word_spacing=1 doubles every inter-word gap to 2 cells"
    );

    let docs = [
        parse_article_html("Test Article", FIXTURE),
        parse_article_html("アラン・チューリング", JA_FIXTURE),
        hard_cases_doc(),
    ];
    for doc in &docs {
        for width in [20u16, 40, 60, 80, 100, 200] {
            assert_no_overflow(
                doc,
                width,
                LayoutOptions {
                    word_spacing: 1,
                    ..LayoutOptions::default()
                },
            );
        }
    }
}

#[test]
fn text_align_left_removes_the_centering_pad() {
    let doc = parse_article_html("Spacing Test", TWO_PARAGRAPHS);
    let centered = layout_document(&doc, 200, LayoutOptions::default());
    let left = layout_document(
        &doc,
        200,
        LayoutOptions {
            text_align: TextAlign::Left,
            ..LayoutOptions::default()
        },
    );
    assert_eq!(display_width(&centered.lines[0].spans[0].text, false), 56);
    assert_eq!(centered.lines[0].spans[0].kind, SpanKind::Plain);
    assert_eq!(left.lines[0].spans[0].kind, SpanKind::Title);
    for line in &left.lines {
        assert!(line.width(false) <= 88, "content still capped at measure");
    }
}

#[test]
fn margin_adds_a_left_offset_without_overflowing() {
    let doc = parse_article_html("Test Article", FIXTURE);
    let opts = LayoutOptions {
        margin: 5,
        text_align: TextAlign::Left,
        ..LayoutOptions::default()
    };
    let layout = layout_document(&doc, 60, opts);
    assert_eq!(
        layout.lines[0].spans[0].text, "     ",
        "left-aligned with a 5-cell margin and no centering pad"
    );
    for line in &layout.lines {
        assert!(
            line.width(false) <= 60,
            "margin must never push a line past the terminal width"
        );
    }
}

#[test]
fn block_and_link_and_find_mappings_stay_correct_under_spacing() {
    let doc = parse_article_html("Test Article", FIXTURE);
    let opts = LayoutOptions {
        paragraph_spacing: 2,
        line_spacing: 1,
        ..LayoutOptions::default()
    };
    let layout = layout_document(&doc, 80, opts);

    let sections = section_outline(&doc);
    assert_eq!(sections.len(), 1);
    for section in &sections {
        let line = layout.block_lines[section.block];
        assert_eq!(
            line_text(&layout.lines[line]).trim(),
            section.title,
            "block_lines must still land on the heading under spacing"
        );
    }

    let links = collect_links(&doc);
    assert_eq!(layout.link_cols.len(), links.len());
    for (occ, link) in links.iter().enumerate() {
        if !layout.link_visible[occ] {
            continue;
        }
        let line = &layout.lines[layout.link_lines[occ]];
        let text = line_text(line);
        let graphemes: Vec<&str> = text.graphemes(true).collect();
        let span = layout.link_cols[occ];
        let sliced: String = graphemes[span.start..span.end].concat();
        assert_eq!(
            sliced, link.text,
            "link_cols[{occ}] must still bound the link's own text under spacing"
        );
    }

    let occurrences = find_matches(&layout.lines, &layout.continuation, "history");
    assert!(
        !occurrences.is_empty(),
        "find must still find matches under spacing"
    );
    for occ in &occurrences {
        for (line_idx, span) in &occ.pieces {
            let text = line_text(&layout.lines[*line_idx]);
            let graphemes: Vec<&str> = text.graphemes(true).collect();
            let matched: String = graphemes[span.start..span.end].concat();
            assert_eq!(matched.to_lowercase(), "history");
        }
    }
}

#[test]
fn section_block_lines_land_on_the_rendered_heading() {
    let doc = parse_article_html("Test Article", FIXTURE);
    let sections = section_outline(&doc);
    assert_eq!(sections.len(), 1, "fixture has one heading");
    let layout = layout_document(&doc, 80, LayoutOptions::default());
    for section in &sections {
        let line = layout.block_lines[section.block];
        let rendered = line_text(&layout.lines[line]);
        assert_eq!(
            rendered.trim(),
            section.title,
            "block_lines must point at the heading's own text"
        );
    }
}

#[test]
fn list_and_blockquote_continuation_lines_hang() {
    let doc = parse_article_html("Test Article", FIXTURE);
    let layout = layout_document(&doc, 30, LayoutOptions::default());

    let bullet_lines: Vec<usize> = layout
        .lines
        .iter()
        .enumerate()
        .filter(|(_, l)| line_text(l).contains('•'))
        .map(|(i, _)| i)
        .collect();
    assert!(!bullet_lines.is_empty(), "expected a bulleted list item");
    let first_bullet = bullet_lines[0];
    let cont = &layout.lines[first_bullet + 1];
    let cont_text = line_text(cont);
    assert!(
        cont_text.starts_with("  ") && !cont_text.contains('•'),
        "list continuation should hang past the bullet: {cont_text:?}"
    );

    let gutter_lines: Vec<&LaidLine> = layout
        .lines
        .iter()
        .filter(|l| line_text(l).contains('▌'))
        .collect();
    assert!(
        gutter_lines.len() >= 2,
        "blockquote should wrap onto continuation lines that keep the gutter"
    );
}

#[test]
fn link_occurrence_order_matches_collect_links() {
    let doc = parse_article_html("アラン・チューリング", JA_FIXTURE);
    let links = collect_links(&doc);
    let layout = layout_document(&doc, 40, LayoutOptions::default());
    assert_eq!(
        layout.link_lines.len(),
        links.len(),
        "one laid link-line per collected link, in the same order"
    );
    for w in layout.link_lines.windows(2) {
        assert!(w[0] <= w[1], "link occurrences must be in document order");
    }
}

const FOLD_FIXTURE: &str = r##"
<html><head><title>Fold Test</title></head><body>
  <p>Lead paragraph with a <a href="./Lead_Link">lead link</a> here.</p>
  <h2>History</h2>
  <p>First history paragraph mentioning a <a href="./History_Link">history link</a> inline.</p>
  <h3>Early</h3>
  <p>Early sub paragraph body text.</p>
  <p>Second history-area paragraph body text.</p>
  <h2>Legacy</h2>
  <p>Legacy paragraph with a <a href="./Legacy_Link">legacy link</a>.</p>
</body></html>
"##;

fn heading_block(doc: &Document, title: &str) -> usize {
    doc.blocks
        .iter()
        .position(
            |b| matches!(b, Block::Heading { spans, .. } if flatten_plain(spans) == title),
        )
        .unwrap_or_else(|| panic!("no heading {title:?}"))
}

#[test]
fn fold_range_end_stops_at_the_next_same_or_higher_heading() {
    let doc = parse_article_html("Fold Test", FOLD_FIXTURE);
    let history = heading_block(&doc, "History");
    let legacy = heading_block(&doc, "Legacy");
    assert_eq!(fold_range_end(&doc.blocks, history, 2), legacy);
    assert_eq!(fold_range_end(&doc.blocks, legacy, 2), doc.blocks.len());
}

#[test]
fn fold_body_counts_count_paragraphs_and_subsections() {
    let doc = parse_article_html("Fold Test", FOLD_FIXTURE);
    let history = heading_block(&doc, "History");
    let end = fold_range_end(&doc.blocks, history, 2);
    assert_eq!(fold_body_counts(&doc.blocks[history + 1..end].to_vec()), (3, 1));
    let legacy = heading_block(&doc, "Legacy");
    let lend = fold_range_end(&doc.blocks, legacy, 2);
    assert_eq!(fold_body_counts(&doc.blocks[legacy + 1..lend].to_vec()), (1, 0));
}

#[test]
fn folding_a_section_collapses_its_body_to_one_summary_line() {
    let doc = parse_article_html("Fold Test", FOLD_FIXTURE);
    let history = heading_block(&doc, "History");
    let folded =
        layout_document_with_images(&doc, 80, LayoutOptions::default(), &NoImages, &vec![history]);
    let joined = folded
        .lines
        .iter()
        .map(line_text)
        .collect::<Vec<_>>()
        .join("\n");
    assert!(
        joined.contains("▸ History (3 ¶, 1 subsection)"),
        "the fold summary line must appear: {joined:?}"
    );
    assert!(
        !joined.contains("First history paragraph"),
        "the folded body text must be gone"
    );
    assert!(
        !joined.contains("Early sub paragraph"),
        "the folded subsection's body must be gone too"
    );
    assert!(
        joined.contains("Legacy paragraph"),
        "content outside the fold is untouched"
    );
}

#[test]
fn folding_keeps_block_lines_aligned_and_points_folded_blocks_at_the_summary() {
    let doc = parse_article_html("Fold Test", FOLD_FIXTURE);
    let history = heading_block(&doc, "History");
    let legacy = heading_block(&doc, "Legacy");
    let folded =
        layout_document_with_images(&doc, 80, LayoutOptions::default(), &NoImages, &vec![history]);
    assert_eq!(
        folded.block_lines.len(),
        doc.blocks.len(),
        "block_lines must stay index-aligned with doc.blocks"
    );
    let summary_line = folded.block_lines[history];
    for b in history..legacy {
        assert_eq!(
            folded.block_lines[b], summary_line,
            "folded block {b} must anchor at the fold summary"
        );
    }
    assert!(line_text(&folded.lines[summary_line]).contains("▸ History"));
}

#[test]
fn folded_links_keep_their_index_but_are_not_visible() {
    let doc = parse_article_html("Fold Test", FOLD_FIXTURE);
    let links = collect_links(&doc);
    assert_eq!(links.len(), 3);
    let history = heading_block(&doc, "History");
    let folded =
        layout_document_with_images(&doc, 80, LayoutOptions::default(), &NoImages, &vec![history]);
    assert_eq!(folded.link_visible.len(), links.len());
    assert!(folded.link_visible[0], "the lead link stays visible");
    assert!(
        !folded.link_visible[1],
        "the folded History link is not focusable"
    );
    assert!(folded.link_visible[2], "the Legacy link stays visible");
    let mut emitted: Vec<usize> = folded
        .lines
        .iter()
        .flat_map(|l| l.spans.iter())
        .filter_map(|s| match s.kind {
            SpanKind::Link(occ) => Some(occ),
            _ => None,
        })
        .collect();
    emitted.dedup();
    assert_eq!(emitted, vec![0, 2]);
}

const FOLD_CITE_FIXTURE: &str = r##"
<html><head><title>Cite Fold</title></head><body>
  <p>Lead with a <a href="./Lead_Link">lead link</a> here.</p>
  <h2>History</h2>
  <p>A claim<sup class="reference"><a href="#cite_note-1">[1]</a></sup> in history.</p>
  <h2>Legacy</h2>
  <p>Legacy paragraph with a <a href="./Legacy_Link">legacy link</a>.</p>
</body></html>
"##;

#[test]
fn folding_a_section_with_a_citation_marker_keeps_link_numbering_aligned() {
    let doc = parse_article_html("Cite Fold", FOLD_CITE_FIXTURE);
    let links = collect_links(&doc);
    assert_eq!(links.len(), 2);
    let history = heading_block(&doc, "History");
    let folded =
        layout_document_with_images(&doc, 80, LayoutOptions::default(), &NoImages, &vec![history]);
    assert_eq!(folded.link_lines.len(), links.len());
    assert_eq!(folded.link_visible.len(), links.len());
    assert_eq!(folded.link_cols.len(), links.len());
    assert!(folded.link_visible[0], "the lead link stays visible");
    assert!(
        folded.link_visible[1],
        "the Legacy link after the fold stays visible"
    );
    let mut emitted: Vec<usize> = folded
        .lines
        .iter()
        .flat_map(|l| l.spans.iter())
        .filter_map(|s| match s.kind {
            SpanKind::Link(occ) => Some(occ),
            _ => None,
        })
        .collect();
    emitted.dedup();
    assert_eq!(emitted, vec![0, 1]);
}

#[test]
fn folding_never_overflows_the_width_even_when_narrow() {
    let doc = parse_article_html("Fold Test", FOLD_FIXTURE);
    let history = heading_block(&doc, "History");
    let legacy = heading_block(&doc, "Legacy");
    for width in [20u16, 40, 80] {
        let folded = layout_document_with_images(
            &doc,
            width,
            LayoutOptions::default(),
            &NoImages,
            &vec![history, legacy],
        );
        for (i, line) in folded.lines.iter().enumerate() {
            let w = line.width(false);
            assert!(
                w <= width as usize,
                "folded line {i} width {w} exceeds {width}: {:?}",
                line_text(line)
            );
        }
    }
}

#[test]
fn folding_the_last_section_summarizes_to_eof() {
    let doc = parse_article_html("Fold Test", FOLD_FIXTURE);
    let legacy = heading_block(&doc, "Legacy");
    let folded =
        layout_document_with_images(&doc, 80, LayoutOptions::default(), &NoImages, &vec![legacy]);
    let joined = folded
        .lines
        .iter()
        .map(line_text)
        .collect::<Vec<_>>()
        .join("\n");
    assert!(joined.contains("▸ Legacy (1 ¶, 0 subsections)"));
    assert!(!joined.contains("Legacy paragraph"));
}

#[test]
fn folding_the_cjk_fixture_never_overflows_the_width() {
    let doc = parse_article_html("アラン・チューリング", JA_FIXTURE);
    let folds: Vec<usize> = section_outline(&doc).iter().map(|s| s.block).collect();
    for width in [20u16, 40, 80] {
        let layout = layout_document_with_images(
            &doc,
            width,
            LayoutOptions::default(),
            &NoImages,
            &folds,
        );
        for (i, line) in layout.lines.iter().enumerate() {
            let w = line.width(false);
            assert!(
                w <= width as usize,
                "folded CJK line {i} width {w} exceeds {width}: {:?}",
                line_text(line)
            );
        }
    }
}

#[test]
fn empty_folds_lays_out_identically_to_the_unfolded_layout() {
    let doc = parse_article_html("Fold Test", FOLD_FIXTURE);
    let plain = layout_document(&doc, 80, LayoutOptions::default());
    let folded =
        layout_document_with_images(&doc, 80, LayoutOptions::default(), &NoImages, &vec![]);
    assert_eq!(plain.lines, folded.lines);
    assert_eq!(plain.block_lines, folded.block_lines);
    assert_eq!(plain.link_lines, folded.link_lines);
    assert!(folded.link_visible.iter().all(|&v| v));
}

#[test]
fn link_cols_slice_out_the_links_own_rendered_text() {
    let doc = parse_article_html("アラン・チューリング", JA_FIXTURE);
    let links = collect_links(&doc);
    let layout = layout_document(&doc, 40, LayoutOptions::default());
    assert_eq!(layout.link_cols.len(), links.len());
    for (occ, link) in links.iter().enumerate() {
        let line = &layout.lines[layout.link_lines[occ]];
        let text = line_text(line);
        let graphemes: Vec<&str> = text.graphemes(true).collect();
        let span = layout.link_cols[occ];
        let sliced: String = graphemes[span.start..span.end].concat();
        assert_eq!(
            sliced, link.text,
            "link_cols[{occ}] must bound exactly the link's own text"
        );
    }
}

#[test]
fn link_at_finds_the_right_occurrence_past_wide_characters() {
    let doc = parse_article_html("アラン・チューリング", JA_FIXTURE);
    let links = collect_links(&doc);
    let layout = layout_document(&doc, 40, LayoutOptions::default());
    for (occ, _) in links.iter().enumerate() {
        let line_index = layout.link_lines[occ];
        let line = &layout.lines[line_index];
        let mut acc = 0usize;
        let mut start = None;
        for span in &line.spans {
            if span.kind == SpanKind::Link(occ) {
                start = Some(acc);
                break;
            }
            acc += display_width(&span.text, true);
        }
        let start = start.expect("occurrence must appear on its own link_lines entry");
        assert_eq!(
            layout.link_at(line_index, start, true),
            Some(occ),
            "clicking the first cell of occurrence {occ}'s own span must resolve to it"
        );
    }
}

#[test]
fn link_at_returns_none_off_any_link() {
    let doc = parse_article_html("T", "<p>Plain text with no links at all.</p>");
    let layout = layout_document(&doc, 80, LayoutOptions::default());
    assert_eq!(layout.link_at(0, 0, false), None);
    assert_eq!(layout.link_at(0, 5, false), None);
}

#[test]
fn link_at_is_bounds_safe() {
    let doc = parse_article_html("T", "<p>Short.</p>");
    let layout = layout_document(&doc, 80, LayoutOptions::default());
    assert_eq!(layout.link_at(0, 10_000, false), None);
    assert_eq!(layout.link_at(10_000, 0, false), None);
}

#[test]
fn multi_word_link_stays_one_contiguous_span() {
    let html = r##"<html><body><p>See <a href="./X">Alpha Beta</a> end.</p></body></html>"##;
    let doc = parse_article_html("T", html);
    let layout = layout_document(&doc, 80, LayoutOptions::default());
    let link_span = layout
        .lines
        .iter()
        .flat_map(|l| l.spans.iter())
        .find(|s| s.kind == SpanKind::Link(0))
        .expect("link span present");
    assert_eq!(link_span.text, "Alpha Beta");
}

#[test]
fn long_ascii_token_hard_wraps_without_overflow() {
    let doc = hard_cases_doc();
    let layout = layout_document(&doc, 40, LayoutOptions::default());
    let x_lines: Vec<&LaidLine> = layout
        .lines
        .iter()
        .filter(|l| {
            line_text(l).chars().all(|c| c == 'x' || c == ' ') && line_text(l).contains('x')
        })
        .collect();
    assert!(x_lines.len() >= 7, "300 x's at width 40 need >=8 rows");
    for l in x_lines {
        assert!(l.width(false) <= 40);
    }
}

fn plain_line(text: &str) -> LaidLine {
    LaidLine {
        spans: vec![LaidSpan {
            text: text.to_string(),
            kind: SpanKind::Plain,
        }],
    }
}

#[test]
fn is_case_sensitive_truth_table() {
    assert!(!is_case_sensitive("turing"));
    assert!(!is_case_sensitive(""));
    assert!(!is_case_sensitive("123"));
    assert!(
        !is_case_sensitive("über"),
        "lowercase diacritic stays insensitive"
    );
    assert!(is_case_sensitive("Turing"));
    assert!(is_case_sensitive("TURING"));
    assert!(
        is_case_sensitive("turinG"),
        "one trailing capital is enough"
    );
    assert!(is_case_sensitive("Über"));
}

fn one_piece(line: usize, start: usize, end: usize) -> Occurrence {
    Occurrence {
        pieces: vec![(line, MatchSpan { start, end })],
    }
}

#[test]
fn find_matches_is_case_insensitive_for_an_all_lowercase_query() {
    let lines = vec![plain_line("Alan Turing was here")];
    let matches = find_matches(&lines, &vec![], "turing");
    assert_eq!(matches, vec![one_piece(0, 5, 11)]);
}

#[test]
fn find_matches_smart_case_rejects_wrong_case_when_query_has_uppercase() {
    let lines = vec![plain_line("alan turing was here")];
    let matches = find_matches(&lines, &vec![], "Turing");
    assert!(
        matches.is_empty(),
        "a capitalized query must not match lowercase text"
    );

    let lines = vec![plain_line("Alan Turing was here")];
    let matches = find_matches(&lines, &vec![], "Turing");
    assert_eq!(matches, vec![one_piece(0, 5, 11)]);
}

#[test]
fn find_matches_reports_every_occurrence_non_overlapping() {
    let lines = vec![plain_line("turing turing turing")];
    let matches = find_matches(&lines, &vec![], "turing");
    assert_eq!(
        matches,
        vec![
            one_piece(0, 0, 6),
            one_piece(0, 7, 13),
            one_piece(0, 14, 20)
        ]
    );
}

#[test]
fn find_matches_spans_a_soft_wrap_where_a_space_was_dropped() {
    let lines = vec![plain_line("computer"), plain_line("science is fun")];
    let matches = find_matches(&lines, &vec![true], "computer science");
    assert_eq!(
        matches,
        vec![Occurrence {
            pieces: vec![
                (0, MatchSpan { start: 0, end: 8 }),
                (1, MatchSpan { start: 0, end: 7 }),
            ],
        }],
        "one occurrence, split into a piece per line it touches"
    );
}

#[test]
fn find_matches_does_not_glue_across_a_block_boundary() {
    let lines = vec![plain_line("the cat"), plain_line("dog sat")];
    let matches = find_matches(&lines, &vec![false], "cat dog");
    assert!(matches.is_empty());
}

#[test]
fn find_matches_spans_a_cjk_wrap_with_no_glue_character() {
    let lines = vec![plain_line("計算機科"), plain_line("学は面白い")];
    let matches = find_matches(&lines, &vec![true], "科学");
    assert_eq!(
        matches,
        vec![Occurrence {
            pieces: vec![
                (0, MatchSpan { start: 3, end: 4 }),
                (1, MatchSpan { start: 0, end: 1 }),
            ],
        }]
    );
}

#[test]
fn find_matches_never_splits_a_combining_grapheme_cluster() {
    let combining_e = "e\u{0301}"; // "é" as base 'e' + combining acute accent
    let text = format!("caf{combining_e} borrowed word");
    let lines = vec![plain_line(&text)];
    let query = format!("caf{combining_e}");
    let matches = find_matches(&lines, &vec![], &query);
    assert_eq!(
        matches,
        vec![one_piece(0, 0, 4)],
        "c, a, f, and the combined e-acute cluster = 4 grapheme columns"
    );
}

#[test]
fn find_matches_empty_query_or_lines_finds_nothing_and_does_not_panic() {
    let lines = vec![plain_line("some text")];
    assert!(find_matches(&lines, &vec![], "").is_empty());
    assert!(find_matches(&vec![], &vec![], "text").is_empty());
}

fn cn_span(text: &str) -> LaidSpan {
    LaidSpan {
        text: text.to_string(),
        kind: SpanKind::CitationNeeded,
    }
}

#[test]
fn citation_needed_lines_is_empty_with_no_markers() {
    let lines = vec![plain_line("nothing to see here")];
    assert!(citation_needed_lines(&lines, &vec![]).is_empty());
}

#[test]
fn citation_needed_lines_finds_one_marker_per_line() {
    let lines = vec![
        plain_line("a claim"),
        LaidLine {
            spans: vec![cn_span("[citation needed]")],
        },
        plain_line("another claim"),
        LaidLine {
            spans: vec![cn_span("[citation needed]")],
        },
    ];
    assert_eq!(
        citation_needed_lines(&lines, &vec![false, false, false]),
        vec![1, 3]
    );
}

#[test]
fn a_marker_split_across_a_continuation_run_is_one_stop_not_two() {
    let lines = vec![
        LaidLine {
            spans: vec![cn_span("[citation")],
        },
        LaidLine {
            spans: vec![cn_span("needed]")],
        },
    ];
    assert_eq!(citation_needed_lines(&lines, &vec![true]), vec![0]);
}

#[test]
fn two_consecutive_non_continuation_marker_lines_are_two_stops() {
    let lines = vec![
        LaidLine {
            spans: vec![cn_span("[citation needed]")],
        },
        LaidLine {
            spans: vec![cn_span("[citation needed]")],
        },
    ];
    assert_eq!(citation_needed_lines(&lines, &vec![false]), vec![0, 1]);
}

#[test]
fn citation_needed_lines_wired_to_a_real_layout() {
    let html = "<html><body><p>A claim<sup typeof=\"mw:Transclusion\" \
         data-mw='{&quot;parts&quot;:[{&quot;template&quot;:{&quot;target&quot;:\
         {&quot;wt&quot;:&quot;Citation needed&quot;}}}]}'>x</sup>.</p></body></html>";
    let doc = parse_article_html("Test", html);
    let layout = layout_document(&doc, 80, LayoutOptions::default());
    let hits = citation_needed_lines(&layout.lines, &layout.continuation);
    assert_eq!(hits.len(), 1, "exactly one marker in this fixture");
    let line_text: String = layout.lines[hits[0]]
        .spans
        .iter()
        .map(|s| s.text.as_str())
        .collect();
    assert!(
        line_text.contains("[citation needed]"),
        "the hit line must contain the marker text: {line_text:?}"
    );
}

#[test]
fn continuation_marks_wrapped_paragraph_lines_but_not_separate_list_items() {
    let html = r##"<html><body>
        <p>alpha beta gamma delta epsilon zeta eta theta iota kappa lambda mu nu xi omicron</p>
        <ul><li>first item</li><li>second item</li></ul>
    </body></html>"##;
    let doc = parse_article_html("T", html);
    let layout = layout_document(&doc, 20, LayoutOptions::default());
    assert!(
        layout.continuation.iter().any(|&c| c),
        "the long paragraph must wrap and mark a continuation"
    );

    let bullet_lines: Vec<usize> = layout
        .lines
        .iter()
        .enumerate()
        .filter(|(_, l)| line_text(l).contains('•'))
        .map(|(i, _)| i)
        .collect();
    assert_eq!(bullet_lines.len(), 2, "two separate list items");
    assert!(
        !layout.continuation[bullet_lines[0]],
        "separate list items must not be glued for find purposes"
    );
}

#[test]
fn continuation_length_is_always_one_less_than_lines() {
    for doc in [
        parse_article_html("Test Article", FIXTURE),
        parse_article_html("アラン・チューリング", JA_FIXTURE),
    ] {
        let layout = layout_document(&doc, 30, LayoutOptions::default());
        assert_eq!(layout.continuation.len(), layout.lines.len() - 1);
    }
}

fn cache_key(title: &str, revid: u64, width: u16, schema_version: u32) -> LayoutCacheKey {
    LayoutCacheKey {
        lang: "en".to_string(),
        title: title.to_string(),
        revid,
        width,
        options: LayoutOptions::default(),
        folds: Vec::new(),
        schema_version,
    }
}

fn sample_layout(width: u16) -> Layout {
    layout_document(
        &parse_article_html("Test Article", FIXTURE),
        width,
        LayoutOptions::default(),
    )
}

#[test]
fn layout_cache_hits_on_an_identical_key_and_misses_on_any_field_change() {
    let mut cache = LayoutCache::new(4);
    let key = cache_key("Article", 1, 80, LAYOUT_SCHEMA_VERSION);
    let layout = sample_layout(80);
    cache.put(key.clone(), layout.clone());

    let hit = cache.get(&key).expect("identical key must hit");
    assert_eq!(hit.lines, layout.lines);

    let mut different_schema = key.clone();
    different_schema.schema_version += 1;
    assert!(
        cache.get(&different_schema).is_none(),
        "a schema-version bump must miss, never replay a stale layout"
    );

    let mut different_revid = key.clone();
    different_revid.revid = 2;
    assert!(
        cache.get(&different_revid).is_none(),
        "different revid must miss"
    );

    let mut different_width = key.clone();
    different_width.width = 40;
    assert!(
        cache.get(&different_width).is_none(),
        "different width must miss"
    );

    let mut different_title = key.clone();
    different_title.title = "Other".to_string();
    assert!(
        cache.get(&different_title).is_none(),
        "different title must miss"
    );

    let mut different_lang = key;
    different_lang.lang = "de".to_string();
    assert!(
        cache.get(&different_lang).is_none(),
        "different lang must miss"
    );
}

#[test]
fn layout_cache_get_on_empty_cache_is_a_miss_not_a_panic() {
    let mut cache = LayoutCache::new(4);
    assert!(
        cache
            .get(&cache_key("Nothing", 0, 80, LAYOUT_SCHEMA_VERSION))
            .is_none()
    );
}

#[test]
fn layout_cache_evicts_least_recently_used_once_over_capacity() {
    let mut cache = LayoutCache::new(2);
    let a = cache_key("A", 1, 80, LAYOUT_SCHEMA_VERSION);
    let b = cache_key("B", 1, 80, LAYOUT_SCHEMA_VERSION);
    let c = cache_key("C", 1, 80, LAYOUT_SCHEMA_VERSION);
    let layout = sample_layout(80);

    cache.put(a.clone(), layout.clone());
    cache.put(b.clone(), layout.clone());
    assert_eq!(cache.len(), 2);

    assert!(cache.get(&a).is_some());
    cache.put(c.clone(), layout); // must evict B, not A

    assert_eq!(cache.len(), 2);
    assert!(cache.get(&a).is_some(), "recently touched: kept");
    assert!(cache.get(&b).is_none(), "least recently used: evicted");
    assert!(cache.get(&c).is_some(), "just inserted: kept");
}

#[test]
fn layout_cache_put_again_for_the_same_key_replaces_not_duplicates() {
    let mut cache = LayoutCache::new(4);
    let key = cache_key("Article", 1, 80, LAYOUT_SCHEMA_VERSION);
    cache.put(key.clone(), sample_layout(80));
    cache.put(key.clone(), sample_layout(80));
    assert_eq!(
        cache.len(),
        1,
        "re-inserting the same key must not grow the cache"
    );
    assert!(cache.get(&key).is_some());
}

#[test]
fn size_tier_boundaries_are_exact() {
    assert_eq!(size_tier(59, 40), SizeTier::Floor);
    assert_eq!(size_tier(60, 40), SizeTier::Minimal);
    assert_eq!(size_tier(79, 40), SizeTier::Minimal);
    assert_eq!(size_tier(80, 40), SizeTier::Compact);
    assert_eq!(size_tier(99, 40), SizeTier::Compact);
    assert_eq!(size_tier(100, 40), SizeTier::Full);
    assert_eq!(size_tier(120, 15), SizeTier::Floor);
    assert_eq!(size_tier(120, 16), SizeTier::Full);
    assert_eq!(size_tier(60, 16), SizeTier::Minimal);
}

#[test]
fn plan_table_collapses_when_accessible_or_too_narrow() {
    assert_eq!(plan_table(&vec![10, 10], 200, true, 0, 1), TablePlan::Collapse);
    assert_eq!(plan_table(&vec![20], 11, false, 0, 1), TablePlan::Collapse);
    assert!(matches!(
        plan_table(&vec![20], 12, false, 0, 1),
        TablePlan::Grid { .. }
    ));
}

#[test]
fn plan_table_fits_all_columns_when_they_reasonably_fit() {
    match plan_table(&vec![4, 18], 40, false, 0, 1) {
        TablePlan::Grid { first_col, widths } => {
            assert_eq!(first_col, 0);
            assert_eq!(widths.len(), 2);
            assert!(grid_width(&widths, 1) <= 40);
        }
        other => panic!("expected a full grid, got {other:?}"),
    }
}

#[test]
fn plan_table_scrolls_a_window_from_the_offset_when_too_wide() {
    let natural = vec![18usize; 6]; // 6 wide columns, can't all fit at 60
    let at0 = plan_table(&natural, 60, false, 0, 1);
    let at2 = plan_table(&natural, 60, false, 2, 1);
    let (first0, len0) = match at0 {
        TablePlan::Grid { first_col, widths } => (first_col, widths.len()),
        other => panic!("expected a scrolling grid, got {other:?}"),
    };
    let first2 = match at2 {
        TablePlan::Grid { first_col, .. } => first_col,
        other => panic!("expected a scrolling grid, got {other:?}"),
    };
    assert_eq!(first0, 0);
    assert!(len0 < natural.len(), "not every column fits, so it scrolls");
    assert_eq!(first2, 2, "the offset shifts the visible column window");
}

fn table_at(html: &str, width: u16, opts: LayoutOptions) -> Vec<String> {
    let doc = parse_article_html("T", html);
    layout_document(&doc, width, opts)
        .lines
        .iter()
        .map(line_text)
        .collect()
}

#[test]
fn one_by_one_table_has_only_plain_corners() {
    let lines = table_at(
        r##"<html><body><table class="wikitable"><tr><td>x</td></tr></table></body></html>"##,
        60,
        LayoutOptions::default(),
    );
    let joined = lines.join("\n");
    assert!(joined.contains('┌') && joined.contains('┐'));
    assert!(joined.contains('└') && joined.contains('┘'));
    assert!(joined.contains('│'));
    assert!(!joined.contains('┬') && !joined.contains('┴') && !joined.contains('┼'));
}

#[test]
fn header_table_draws_every_box_drawing_glyph() {
    let lines = table_at(
        r##"<html><body><table class="wikitable"><tbody>
        <tr><th>A</th><th>B</th><th>C</th></tr>
        <tr><td>1</td><td>2</td><td>3</td></tr>
        </tbody></table></body></html>"##,
        60,
        LayoutOptions::default(),
    );
    let joined = lines.join("\n");
    for glyph in ['┌', '┬', '┐', '├', '┼', '┤', '└', '┴', '┘', '─', '│'] {
        assert!(joined.contains(glyph), "missing {glyph:?} in:\n{joined}");
    }
}

#[test]
fn a_cell_wider_than_its_column_wraps_and_grows_the_row() {
    let doc = parse_article_html(
        "T",
        r##"<html><body><table class="wikitable"><tbody>
        <tr><th>K</th><th>V</th></tr>
        <tr><td>x</td><td>one two three four five six seven eight nine ten eleven twelve</td></tr>
        </tbody></table></body></html>"##,
    );
    let layout = layout_document(&doc, 40, LayoutOptions::default());
    for line in &layout.lines {
        assert!(
            line.width(false) <= 40,
            "grid overflow: {:?}",
            line_text(line)
        );
    }
    let body_rows = layout
        .lines
        .iter()
        .filter(|l| {
            let t = line_text(l);
            t.starts_with('│') && t.contains("one")
                || (t.starts_with('│') && (t.contains("eleven") || t.contains("twelve")))
        })
        .count();
    assert!(
        body_rows >= 2,
        "the overflowing cell must wrap onto extra rows"
    );
}

#[test]
fn scroll_offset_reveals_a_right_column_that_was_hidden() {
    let mut html = String::from(r##"<html><body><table class="wikitable"><tbody><tr>"##);
    for c in 0..10 {
        html.push_str(&format!("<th>Col{c:02}</th>"));
    }
    html.push_str("</tr><tr>");
    for c in 0..10 {
        html.push_str(&format!("<td>v{c:02}</td>"));
    }
    html.push_str("</tr></tbody></table></body></html>");

    let at0 = table_at(&html, 60, LayoutOptions::default()).join("\n");
    let at5 = table_at(
        &html,
        60,
        LayoutOptions {
            table_col_offset: 5,
            ..LayoutOptions::default()
        },
    )
    .join("\n");
    assert!(at0.contains("Col00"), "offset 0 shows the first column");
    assert!(
        !at0.contains("Col09"),
        "the far-right column is off-screen at offset 0"
    );
    assert!(
        at5.contains("Col09"),
        "scrolling right brings the far column into view"
    );
}

#[test]
fn accessible_collapses_a_grid_to_a_labeled_list() {
    let html = r##"<html><body><table class="wikitable"><tbody>
    <tr><th>Year</th><th>Event</th></tr>
    <tr><td>1950</td><td>Turing test</td></tr>
    </tbody></table></body></html>"##;
    let lines = table_at(
        html,
        120,
        LayoutOptions {
            accessible: true,
            ..LayoutOptions::default()
        },
    );
    let joined = lines.join("\n");
    assert!(
        !joined.contains('┼') && !joined.contains('┬'),
        "accessible mode must not draw a grid, even wide"
    );
    assert!(joined.contains("Year: 1950"));
    assert!(joined.contains("Event: Turing test"));
}

#[test]
fn cjk_cell_is_sized_by_display_width_not_char_count() {
    let doc = parse_article_html(
        "T",
        r##"<html><body><table class="wikitable"><tbody>
        <tr><th>用語</th><th>意味</th></tr>
        <tr><td>計算機</td><td>コンピュータ</td></tr>
        </tbody></table></body></html>"##,
    );
    let layout = layout_document(&doc, 60, LayoutOptions::default());
    let joined: String = layout.lines.iter().map(line_text).collect();
    assert!(
        joined.contains("計算機"),
        "CJK cell content preserved whole"
    );
    for line in &layout.lines {
        assert!(line.width(false) <= 60);
    }
}

const INFOBOX_FIXTURE: &str = r##"<html><head><title>Person</title></head><body>
<table class="infobox"><tbody>
<tr><th colspan="2">Alan Turing</th></tr>
<tr><th>Born</th><td>23 June 1912</td></tr>
<tr><th>Died</th><td>7 June 1954</td></tr>
<tr><th>Fields</th><td>Mathematics, cryptanalysis, computer science</td></tr>
</tbody></table>
<p>Alan Mathison Turing was an English mathematician and computer scientist,
highly influential in the development of theoretical computer science and
widely considered the father of artificial intelligence.</p>
<h2>Career</h2><p>He worked at Bletchley Park during the war.</p>
</body></html>"##;

fn infobox_start_col(line: &LaidLine) -> Option<usize> {
    let mut col = 0;
    for s in &line.spans {
        if s.kind == SpanKind::Infobox {
            return Some(col);
        }
        col += display_width(&s.text, false);
    }
    None
}

fn has_lead_text_beside_infobox(line: &LaidLine) -> bool {
    let has_infobox = line.spans.iter().any(|s| s.kind == SpanKind::Infobox);
    let has_body = line
        .spans
        .iter()
        .any(|s| s.kind != SpanKind::Infobox && !s.text.trim().is_empty());
    has_infobox && has_body
}

#[test]
fn infobox_floats_right_with_lead_text_to_its_left_on_wide_terminals() {
    let doc = parse_article_html("Person", INFOBOX_FIXTURE);
    let layout = layout_document(&doc, 120, LayoutOptions::default());
    let float_row = layout
        .lines
        .iter()
        .find(|l| has_lead_text_beside_infobox(l))
        .expect("a floated row: infobox on the right, lead text on the left");
    let start = infobox_start_col(float_row).unwrap();
    assert!(
        start >= 120 / 2,
        "infobox border should be in the right half (started at cell {start})"
    );
    for line in &layout.lines {
        assert!(line.width(false) <= 120);
    }
}

#[test]
fn infobox_is_a_top_block_not_a_float_on_compact_terminals() {
    let doc = parse_article_html("Person", INFOBOX_FIXTURE);
    let layout = layout_document(&doc, 90, LayoutOptions::default());
    assert!(
        layout
            .lines
            .iter()
            .all(|l| !has_lead_text_beside_infobox(l)),
        "no row should have both lead text and the infobox card at 90 cols"
    );
    let joined: String = layout.lines.iter().map(line_text).collect();
    assert!(joined.contains("Alan Turing"));
    assert!(joined.contains("Born: 23 June 1912"));
    for line in &layout.lines {
        assert!(line.width(false) <= 90);
    }
}

#[test]
fn floated_infobox_keeps_block_lines_aligned_for_section_jump() {
    let doc = parse_article_html("Person", INFOBOX_FIXTURE);
    let sections = section_outline(&doc);
    let layout = layout_document(&doc, 120, LayoutOptions::default());
    assert_eq!(
        layout.block_lines.len(),
        doc.blocks.len(),
        "one scroll anchor per block, even across the float"
    );
    for section in &sections {
        let line = layout.block_lines[section.block];
        assert_eq!(
            line_text(&layout.lines[line]).trim(),
            section.title,
            "the heading's anchor line must render its own text"
        );
    }
}

#[test]
fn links_in_a_floated_lead_stay_consistent_with_collect_links() {
    let html = r##"<html><head><title>P</title></head><body>
    <table class="infobox"><tbody>
    <tr><th colspan="2">Name</th></tr>
    <tr><th>Born</th><td>1900</td></tr>
    </tbody></table>
    <p>The lead mentions <a href="./Computer_science">computer science</a> and
    also <a href="./Enigma_machine">the Enigma machine</a> before the first heading.</p>
    <h2>More</h2><p>See <a href="./Alan_Turing">Turing</a> too.</p>
    </body></html>"##;
    let doc = parse_article_html("P", html);
    let links = collect_links(&doc);
    assert_eq!(links.len(), 3, "two lead links plus one after the float");
    let layout = layout_document(&doc, 120, LayoutOptions::default());
    assert_eq!(layout.link_lines.len(), links.len());
    assert_eq!(layout.link_cols.len(), links.len());
    for (occ, link) in links.iter().enumerate() {
        let line = &layout.lines[layout.link_lines[occ]];
        let text: String = line.spans.iter().map(|s| s.text.as_str()).collect();
        let graphemes: Vec<&str> = text.graphemes(true).collect();
        let span = layout.link_cols[occ];
        let sliced: String = graphemes[span.start..span.end].concat();
        assert_eq!(
            sliced, link.text,
            "link {occ} column range must bound its own text"
        );
    }
}

#[test]
fn table_fixtures_never_overflow_across_widths_and_tiers() {
    let mut wide = String::from(r##"<html><body><table class="wikitable"><tbody><tr>"##);
    for c in 0..12 {
        wide.push_str(&format!("<th>Column {c}</th>"));
    }
    wide.push_str("</tr><tr>");
    for c in 0..12 {
        wide.push_str(&format!("<td>data cell number {c}</td>"));
    }
    wide.push_str("</tr></tbody></table></body></html>");
    let docs = [
        parse_article_html("Person", INFOBOX_FIXTURE),
        parse_article_html("Wide", &wide),
    ];
    for doc in &docs {
        for width in [60u16, 70, 80, 90, 100, 120, 200] {
            for offset in [0u16, 3, 8] {
                for accessible in [false, true] {
                    let opts = LayoutOptions {
                        table_col_offset: offset,
                        accessible,
                        ..LayoutOptions::default()
                    };
                    let layout = layout_document(doc, width, opts);
                    for line in &layout.lines {
                        assert!(
                            line.width(false) <= width as usize,
                            "overflow at width {width}, offset {offset}, accessible \
                             {accessible}: {:?}",
                            line_text(line)
                        );
                    }
                    assert_eq!(layout.continuation.len(), layout.lines.len() - 1);
                }
            }
        }
    }
}

#[test]
fn reading_time_header_line_appears_under_the_title() {
    let words: String = (0..500).map(|_| "word ").collect();
    let doc = parse_article_html("Test", &format!("<html><body><p>{words}</p></body></html>"));
    let layout = layout_document(&doc, 80, LayoutOptions::default());
    assert_eq!(
        line_text(&layout.lines[0]),
        "Test",
        "title is the first line"
    );
    let minutes = reading_minutes(doc.words, 230);
    assert!(minutes > 0, "fixture must have enough words to read >0 min");
    assert_eq!(line_text(&layout.lines[1]), format!("{minutes} min read"));
    assert!(
        layout.lines[1]
            .spans
            .iter()
            .all(|s| s.kind == SpanKind::Dim),
        "the reading-time line must be styled Dim"
    );
}

#[test]
fn reading_time_header_line_is_absent_for_an_empty_document() {
    let doc = parse_article_html("Empty", "<html><body></body></html>");
    let layout = layout_document(&doc, 80, LayoutOptions::default());
    assert_eq!(line_text(&layout.lines[0]), "Empty");
    assert_eq!(
        line_text(&layout.lines[1]),
        "",
        "no reading-time line: the blank line follows the title directly"
    );
}

#[test]
fn reading_wpm_option_changes_the_estimate() {
    let words: String = (0..300).map(|_| "word ").collect();
    let doc = parse_article_html("Test", &format!("<html><body><p>{words}</p></body></html>"));
    let slow = layout_document(
        &doc,
        80,
        LayoutOptions {
            reading_wpm: 100,
            ..LayoutOptions::default()
        },
    );
    let fast = layout_document(
        &doc,
        80,
        LayoutOptions {
            reading_wpm: 1000,
            ..LayoutOptions::default()
        },
    );
    assert_ne!(line_text(&slow.lines[1]), line_text(&fast.lines[1]));
}

#[test]
fn inline_math_renders_delimited_and_normalized() {
    let html = r#"<html><body><p>Energy: <span typeof="mw:Extension/math">
        <math alttext="E=mc^2"></math></span> is famous.</p></body></html>"#;
    let doc = parse_article_html("Test", html);
    let layout = layout_document(&doc, 80, LayoutOptions::default());
    let full: String = layout
        .lines
        .iter()
        .map(line_text)
        .collect::<Vec<_>>()
        .join(" ");
    assert!(
        full.contains("⟨E=mc²⟩"),
        "expected the delimited, superscript-normalized form in: {full:?}"
    );
    let math_span_found = layout
        .lines
        .iter()
        .flat_map(|l| l.spans.iter())
        .any(|s| s.kind == SpanKind::Math && s.text.contains('²'));
    assert!(math_span_found, "the math text must carry SpanKind::Math");
}

#[test]
fn display_math_block_centers_on_its_own_line() {
    let html = r#"<html><body><p>Intro.</p>
        <dl><dd><span typeof="mw:Extension/math">
            <math display="block" alttext="F = m a"></math>
        </span></dd></dl>
        <p>Outro.</p></body></html>"#;
    let doc = parse_article_html("Test", html);
    let layout = layout_document(&doc, 80, LayoutOptions::default());
    let math_line = layout
        .lines
        .iter()
        .find(|l| line_text(l).contains("⟨F = m a⟩"))
        .expect("display equation must appear on its own line");
    let leading_spaces = math_line
        .spans
        .first()
        .map(|s| s.text.chars().take_while(|c| *c == ' ').count())
        .unwrap_or(0);
    assert!(
        leading_spaces > 0,
        "a short display equation on an 80-wide line should have a centering pad, got {leading_spaces}"
    );
}

fn prose_lines(layout: &Layout) -> Vec<String> {
    layout
        .lines
        .iter()
        .map(line_text)
        .filter(|t| {
            !t.trim().is_empty() && t.chars().all(|c| c.is_ascii_lowercase() || c == ' ')
        })
        .collect()
}

fn paragraph_doc(title: &str, body: &str) -> Document {
    parse_article_html(
        title,
        &format!("<html><head><title>{title}</title></head><body><p>{body}</p></body></html>"),
    )
}

#[test]
fn spread_extra_round_robins_the_remainder_onto_leading_gaps() {
    assert_eq!(spread_extra(7, 3), vec![3, 2, 2]);
    assert_eq!(spread_extra(4, 4), vec![1, 1, 1, 1]);
    assert_eq!(spread_extra(2, 3), vec![1, 1, 0]);
    assert_eq!(spread_extra(0, 3), vec![0, 0, 0]);
    assert!(spread_extra(5, 0).is_empty());
    for (d, g) in [(7usize, 3usize), (10, 4), (1, 5), (13, 6), (23, 7)] {
        assert_eq!(spread_extra(d, g).iter().sum::<usize>(), d, "sum({d},{g})");
    }
}

#[test]
fn justify_fills_full_lines_exactly_and_leaves_the_last_line_ragged() {
    let doc = paragraph_doc(
        "JT",
        "the cat sat on a mat and the dog ran to the sun for fun in the big red car by a bee hive",
    );
    let default = prose_lines(&layout_document(&doc, 30, LayoutOptions::default()));
    let justified = prose_lines(&layout_document(
        &doc,
        30,
        LayoutOptions {
            justify: true,
            ..LayoutOptions::default()
        },
    ));
    assert!(default.len() >= 2, "the paragraph wraps to several lines");
    assert_eq!(
        default.len(),
        justified.len(),
        "justify redistributes spaces without changing where lines break"
    );
    let n = justified.len();
    let mut saw_stretched = false;
    for i in 0..n - 1 {
        assert_eq!(
            display_width(&justified[i], false),
            30,
            "justified full line must fill the content column exactly: {:?}",
            justified[i]
        );
        assert_eq!(
            justified[i].split_whitespace().collect::<Vec<_>>(),
            default[i].split_whitespace().collect::<Vec<_>>(),
        );
        if justified[i] != default[i] {
            saw_stretched = true;
        }
    }
    assert!(
        saw_stretched,
        "at least one line actually received extra spaces"
    );
    assert_eq!(
        justified[n - 1],
        default[n - 1],
        "the last line of the paragraph stays ragged"
    );
}

#[test]
fn justify_river_cap_leaves_a_sparse_line_ragged() {
    let long = "c".repeat(26);
    let doc = paragraph_doc("jr", &format!("aa bb {long} dd ee ff gg hh"));
    let layout = layout_document(
        &doc,
        30,
        LayoutOptions {
            justify: true,
            ..LayoutOptions::default()
        },
    );
    let sparse = layout
        .lines
        .iter()
        .map(line_text)
        .find(|t| t.trim() == "aa bb")
        .expect("the sparse line stays 'aa bb', not stretched into a river");
    assert!(
        display_width(&sparse, false) < 30,
        "the river cap kept the sparse line ragged: {sparse:?}"
    );
    for l in &layout.lines {
        assert!(l.width(false) <= 30, "no overflow: {:?}", line_text(l));
    }
}

#[test]
fn justify_composes_with_word_spacing_and_still_fills_exactly() {
    let doc = paragraph_doc(
        "JW",
        "the cat sat on a mat and the dog ran to the sun for fun in the red car today",
    );
    let layout = layout_document(
        &doc,
        30,
        LayoutOptions {
            justify: true,
            word_spacing: 1,
            ..LayoutOptions::default()
        },
    );
    let prose = prose_lines(&layout);
    assert!(prose.len() >= 2);
    for l in &prose[..prose.len() - 1] {
        assert_eq!(
            display_width(l, false),
            30,
            "justify fills exactly even atop the word_spacing base gap: {l:?}"
        );
        for gap in l.split(|c: char| c != ' ').filter(|s| !s.is_empty()) {
            assert!(
                gap.len() >= 2,
                "word_spacing=1 keeps every gap at least 2 cells wide: {l:?}"
            );
        }
    }
    for l in &layout.lines {
        assert!(l.width(false) <= 30);
    }
}

#[test]
fn justify_does_not_corrupt_cjk_lines() {
    let doc = parse_article_html("アラン・チューリング", JA_FIXTURE);
    for width in [20u16, 40, 60, 80] {
        let just = layout_document(
            &doc,
            width,
            LayoutOptions {
                justify: true,
                ..LayoutOptions::default()
            },
        );
        let def = layout_document(&doc, width, LayoutOptions::default());
        assert_eq!(just.lines.len(), def.lines.len());
        for l in &just.lines {
            assert!(
                l.width(false) <= width as usize,
                "justify must not overflow a CJK line at width {width}"
            );
        }
        for (j, d) in just.lines.iter().zip(def.lines.iter()) {
            if !line_text(d).contains(' ') {
                assert_eq!(
                    line_text(j),
                    line_text(d),
                    "a gapless CJK line must be untouched by justify"
                );
            }
        }
    }
    let just = layout_document(
        &doc,
        40,
        LayoutOptions {
            justify: true,
            ..LayoutOptions::default()
        },
    );
    let joined: String = just.lines.iter().map(line_text).collect();
    assert!(
        joined.contains("計算機科学"),
        "CJK link text preserved whole"
    );
}

fn word_clusters(w: &str) -> Vec<Cluster> {
    clusters_from_str(w, SpanKind::Plain, false)
}

#[test]
fn try_hyphenate_breaks_only_at_knuth_liang_points() {
    let cl = word_clusters("hyphenation");
    let (head, tail) = try_hyphenate(&cl, 20).expect("a valid break exists");
    let head_text: String = head.iter().map(|c| c.text.as_str()).collect();
    let tail_text: String = tail.iter().map(|c| c.text.as_str()).collect();
    assert_eq!(
        head_text, "hyphena-",
        "largest fitting KL prefix, with hyphen"
    );
    assert_eq!(tail_text, "tion");
    assert_eq!(head.last().unwrap().text, "-");
    assert_eq!(head.last().unwrap().width, 1);
    let (head, tail) = try_hyphenate(&cl, 4).expect("earliest break fits in 4");
    let ht: String = head.iter().map(|c| c.text.as_str()).collect();
    let tt: String = tail.iter().map(|c| c.text.as_str()).collect();
    assert_eq!(ht, "hy-");
    assert_eq!(tt, "phenation");
    assert!(try_hyphenate(&cl, 2).is_none());
}

#[test]
fn try_hyphenate_respects_scope_min_length_and_cjk() {
    assert!(try_hyphenate(&word_clusters("cats"), 40).is_none());
    assert!(try_hyphenate(&word_clusters("naïveté"), 40).is_none());
    assert!(try_hyphenate(&word_clusters("計算機科学"), 40).is_none());
    assert!(try_hyphenate(&word_clusters("abc123def"), 40).is_none());
}

#[test]
fn hyphenate_breaks_a_long_word_with_a_trailing_hyphen_and_reconstructs() {
    let doc = paragraph_doc("hy", "aaaa bbbb cccc hyphenation dddd eeee ffff");
    let on = LayoutOptions {
        hyphenate: true,
        ..LayoutOptions::default()
    };
    let hyph = layout_document(&doc, 20, on);
    let plain = layout_document(&doc, 20, LayoutOptions::default());
    for l in &hyph.lines {
        assert!(
            l.width(false) <= 20,
            "hyphenated line overflowed: {:?}",
            line_text(l)
        );
    }
    let ends_with_hyphen = |ll: &Layout| {
        ll.lines
            .iter()
            .any(|l| line_text(l).trim_end().ends_with('-'))
    };
    assert!(
        ends_with_hyphen(&hyph),
        "a long word should have been hyphenated"
    );
    assert!(
        !ends_with_hyphen(&plain),
        "without the flag no word is ever hyphenated"
    );
    let mut recon = String::new();
    for l in &hyph.lines {
        let t = line_text(l);
        let t = t.trim();
        if t.is_empty() {
            continue;
        }
        match t.strip_suffix('-') {
            Some(head) => recon.push_str(head),
            None => {
                recon.push_str(t);
                recon.push(' ');
            }
        }
    }
    assert!(
        recon.contains("hyphenation"),
        "the hyphenated word reconstructs intact: {recon:?}"
    );
}

#[test]
fn hyphenate_and_justify_together_never_overflow_and_fill_full_lines() {
    let doc = paragraph_doc(
        "HJ",
        "aaaa bbbb cccc hyphenation dddd eeee ffff gggg hyphenation iiii jjjj",
    );
    let layout = layout_document(
        &doc,
        24,
        LayoutOptions {
            hyphenate: true,
            justify: true,
            ..LayoutOptions::default()
        },
    );
    for l in &layout.lines {
        assert!(
            l.width(false) <= 24,
            "hyphenate+justify must never overflow: {:?}",
            line_text(l)
        );
    }
    assert!(
        layout
            .lines
            .iter()
            .any(|l| l.width(false) == 24 && !line_text(l).trim().is_empty()),
        "a justified line under hyphenation still fills the column exactly"
    );
}

const MAPPING_FIXTURE: &str = r##"<html><head><title>Mapping</title></head><body>
  <p>The systematic study of <a href="./Computer_science">computer science</a>
  frequently involves extraordinarily complicated hyphenation scenarios that
  are worth testing here today with the <a href="./Enigma_machine">Enigma</a>.</p>
  <h2>History</h2>
  <p>Some history paragraph text mentioning <a href="./Alan_Turing">Turing</a> once.</p>
</body></html>"##;

#[test]
fn block_link_and_find_mappings_survive_justify_and_hyphenate() {
    let doc = parse_article_html("Mapping", MAPPING_FIXTURE);
    let opts = LayoutOptions {
        justify: true,
        hyphenate: true,
        ..LayoutOptions::default()
    };
    let layout = layout_document(&doc, 40, opts);

    for l in &layout.lines {
        assert!(l.width(false) <= 40, "overflow: {:?}", line_text(l));
    }

    let sections = section_outline(&doc);
    assert_eq!(sections.len(), 1);
    for section in &sections {
        let line = layout.block_lines[section.block];
        assert_eq!(
            line_text(&layout.lines[line]).trim(),
            section.title,
            "block_lines must land on the heading under justify+hyphenate"
        );
    }

    for w in layout.link_lines.windows(2) {
        assert!(w[0] <= w[1], "link occurrences stay in document order");
    }

    let links = collect_links(&doc);
    assert_eq!(layout.link_cols.len(), links.len());
    for (occ, _link) in links.iter().enumerate() {
        if !layout.link_visible[occ] {
            continue;
        }
        let line = &layout.lines[layout.link_lines[occ]];
        let text = line_text(line);
        let graphemes: Vec<&str> = text.graphemes(true).collect();
        let span = layout.link_cols[occ];
        let sliced: String = graphemes[span.start..span.end].concat();
        let own: String = line
            .spans
            .iter()
            .filter(|s| s.kind == SpanKind::Link(occ))
            .map(|s| s.text.as_str())
            .collect();
        assert_eq!(
            sliced, own,
            "link_cols[{occ}] must bound exactly the link's own rendered span"
        );
        assert!(
            !sliced.is_empty(),
            "a visible link maps to a nonempty range"
        );
    }

    let occurrences = find_matches(&layout.lines, &layout.continuation, "history");
    assert!(
        !occurrences.is_empty(),
        "find still works under justify+hyphenate"
    );
    for occ in &occurrences {
        for (line_idx, span) in &occ.pieces {
            let text = line_text(&layout.lines[*line_idx]);
            let graphemes: Vec<&str> = text.graphemes(true).collect();
            let matched: String = graphemes[span.start..span.end].concat();
            assert_eq!(matched.to_lowercase(), "history");
        }
    }
}

#[test]
fn defaults_are_byte_identical_with_justify_and_hyphenate_off() {
    let doc = paragraph_doc("t", "one two three");
    let layout = layout_document(&doc, 40, LayoutOptions::default());
    assert!(
        layout.lines.iter().any(|l| line_text(l) == "one two three"),
        "default (justify/hyphenate off) keeps single spaces and no hyphen"
    );
    let explicit_off = layout_document(
        &doc,
        40,
        LayoutOptions {
            justify: false,
            hyphenate: false,
            ..LayoutOptions::default()
        },
    );
    assert_eq!(layout.lines, explicit_off.lines);

    for html in [FIXTURE, JA_FIXTURE] {
        let doc = parse_article_html("F", html);
        for width in [24u16, 40, 80, 120] {
            let a = layout_document(&doc, width, LayoutOptions::default());
            let b = layout_document(
                &doc,
                width,
                LayoutOptions {
                    justify: false,
                    hyphenate: false,
                    ..LayoutOptions::default()
                },
            );
            assert_eq!(a.lines, b.lines, "default path unchanged at width {width}");
        }
    }
}

#[test]
fn justify_and_hyphenate_never_overflow_across_fixtures_and_widths() {
    let docs = [
        parse_article_html("Test Article", FIXTURE),
        parse_article_html("アラン・チューリング", JA_FIXTURE),
        hard_cases_doc(),
    ];
    for doc in &docs {
        for width in [20u16, 40, 60, 80, 100, 200] {
            for (justify, hyphenate) in [(true, false), (false, true), (true, true)] {
                assert_no_overflow(
                    doc,
                    width,
                    LayoutOptions {
                        justify,
                        hyphenate,
                        ..LayoutOptions::default()
                    },
                );
            }
        }
    }
}

#[test]
fn default_build_uses_trivial_math_passthrough() {
    let html = r#"<html><body><p>x <span typeof="mw:Extension/math"><math alttext="\sum_{i=1}^{n}"></math></span></p></body></html>"#;
    let doc = parse_article_html("T", html);
    let layout = layout_document(&doc, 80, LayoutOptions::default());
    let joined: String = layout
        .lines
        .iter()
        .map(line_text)
        .collect::<Vec<_>>()
        .join(" ");
    assert!(
        joined.contains("⟨\\sum") || joined.contains("\\sum"),
        "default build leaves \\sum as raw TeX passthrough: {joined:?}"
    );
    assert!(
        !joined.contains('∑'),
        "the Unicode ∑ only appears under the math-layout feature: {joined:?}"
    );
}

#[test]
fn math_layout_feature_renders_richer_inline_math() {
    let html = r#"<html><body><p>x <span typeof="mw:Extension/math"><math alttext="\sum_{k=0}^{n} k"></math></span> y</p></body></html>"#;
    let mut doc = parse_article_html("T", html);
    for block in &mut doc.blocks {
        if let Block::Paragraph(spans) = block {
            for span in spans {
                if let SpanStyle::Math(shown) = &mut span.style {
                    assert_eq!(span.text, "\\sum_{k=0}^{n} k");
                    *shown = "∑ₖ₌₀ⁿ k".to_string();
                }
            }
        }
    }
    let layout = layout_document(&doc, 80, LayoutOptions::default());
    let joined: String = layout
        .lines
        .iter()
        .map(line_text)
        .collect::<Vec<_>>()
        .join(" ");
    assert!(
        joined.contains("⟨∑ₖ₌₀ⁿ k⟩"),
        "the feature renders the sum via Unicode: {joined:?}"
    );
}

#[test]
fn a_small_article_is_laid_out_row_by_row() {
    let doc = parse_article_html(
        "T",
        "<html><body><p>one two</p><h2>Part</h2><ul><li>item</li></ul><hr/></body></html>",
    );
    let layout = layout_document(&doc, 20, LayoutOptions::default());
    let rows: Vec<String> = layout.lines.iter().map(line_text).collect();
    assert_eq!(rows[0], "T");
    assert_eq!(rows[1], "1 min read");
    assert_eq!(rows[2], "");
    assert_eq!(rows[3], "one two");
    assert!(rows.contains(&"Part".to_string()));
    assert!(rows.iter().any(|r| r.contains("• item")));
    assert!(rows.contains(&"─".repeat(20)));
}

#[test]
fn a_cluster_wider_than_its_column_is_not_split() {
    let doc = paragraph_doc("t", "語語");
    let layout = layout_document(&doc, 1, LayoutOptions::default());
    assert!(layout.lines.iter().any(|l| line_text(l) == "語" && l.width(false) == 2));
}

#[test]
fn words_survive_wrapping_in_order() {
    let text = "the cat sat on a mat and the dog ran to the sun";
    let doc = paragraph_doc("T", text);
    let layout = layout_document(&doc, 12, LayoutOptions::default());
    let start = layout.block_lines[0];
    let rows: Vec<String> = layout.lines[start..].iter().map(line_text).collect();
    let words: Vec<&str> = rows.iter().flat_map(|r| r.split_whitespace()).collect();
    assert_eq!(words, text.split_whitespace().collect::<Vec<_>>());
}

#[test]
fn text_align_names_are_read() {
    assert_eq!(TextAlign::parse("left"), Some(TextAlign::Left));
    assert_eq!(TextAlign::parse("center"), Some(TextAlign::Center));
    assert_eq!(TextAlign::parse("Center"), None);
}

#[test]
fn a_table_cell_of_wide_characters_is_measured_in_cells() {
    assert_eq!(display_width("計算機", false), 6);
    assert_eq!(display_width("k\u{2B0}a\u{325}", false), 3);
    assert_eq!(display_width("", true), 0);
}

#[test]
fn hyphenation_points_move_with_the_room() {
    let cl = word_clusters("hyphenation");
    let (head, _) = try_hyphenate(&cl, 7).expect("a break fits");
    let head_text: String = head.iter().map(|c| c.text.as_str()).collect();
    assert_eq!(head_text, "hyphen-");
}

#[test]
fn a_gallery_of_one_narrow_row_keeps_every_caption() {
    let doc = Document {
        title: "G".to_string(),
        blocks: vec![Block::Gallery(vec![
            GalleryItem {
                src: None,
                caption: "Alpha".to_string(),
            },
            GalleryItem {
                src: None,
                caption: "Beta".to_string(),
            },
        ])],
        words: 0,
    };
    let layout = layout_document(&doc, 24, LayoutOptions::default());
    let rows: Vec<String> = layout.lines.iter().map(line_text).collect();
    assert!(rows.contains(&"[image: Alpha]".to_string()));
    assert!(rows.contains(&"[image: Beta]".to_string()));
}

#[test]
fn a_cache_has_room_for_one_at_least() {
    let mut cache = LayoutCache::new(0);
    let key = cache_key("A", 1, 80, LAYOUT_SCHEMA_VERSION);
    cache.put(key.clone(), sample_layout(80));
    assert_eq!(cache.len(), 1);
    assert!(cache.get(&key).is_some());
}

#[test]
fn every_line_is_one_row() {
    let plain = |text: &str| {
        vec![Span {
            text: text.to_string(),
            style: SpanStyle::Plain,
        }]
    };
    let cell = |text: &str| TableCell {
        text: text.to_string(),
        header: false,
    };
    let doc = Document {
        title: "A\nB".to_string(),
        blocks: vec![
            Block::Infobox(vec![
                (String::new(), "Ti\ntle".to_string()),
                ("La\nbel".to_string(), "one\r\ntwo\n\nthree".to_string()),
            ]),
            Block::Paragraph(plain("first\nsecond\r\nthird \n\n fourth")),
            Block::Heading {
                level: 2,
                spans: plain("Head\ning"),
            },
            Block::Code {
                text: "let a = 1;\r\n\nlet b;\n".to_string(),
                lang: None,
                tokens: Vec::new(),
            },
            Block::Table(Table {
                rows: vec![vec![cell("x\ny"), cell("\n")], vec![cell("z"), cell("a\nb\nc")]],
                truncated: true,
            }),
            Block::Image {
                src: None,
                alt: "al\nt".to_string(),
                caption: Some("cap\ntion".to_string()),
            },
            Block::Math {
                source: "a\nb".to_string(),
                tex: "a\nb".to_string(),
                display: true,
            },
        ],
        words: 10,
    };
    for width in [8, 24, 60, 120] {
        for folds in [Vec::new(), vec![2]] {
            let layout =
                layout_document_with_images(&doc, width, LayoutOptions::default(), &NoImages, &folds);
            for line in &layout.lines {
                assert!(!line_text(line).contains('\n'), "{:?}", line_text(line));
            }
        }
    }
}

#[test]
fn padded_text_is_exactly_as_wide_as_asked() {
    for text in ["", "ab", "計算機科学", "k\u{2B0}a\u{325} x", "a very long text indeed"] {
        for width in 0..9 {
            assert_eq!(display_width(&pad_to_width(text, width, false), false), width);
        }
    }
    assert_eq!(pad_to_width("計算機", 5, false), "計算 ");
}

#[test]
fn a_character_takes_two_cells_at_most() {
    for code in (0..0x11_0000_u32).step_by(7) {
        if let Some(c) = char::from_u32(code) {
            let text = c.to_string();
            assert!(display_width(&text, false) <= 2 && display_width(&text, true) <= 2);
        }
    }
    for code in 0x2500..=0x254B_u32 {
        let text = char::from_u32(code).unwrap().to_string();
        assert_eq!(display_width(&text, false), 1);
        assert_eq!(display_width(&text, true), 2);
    }
    assert_eq!(display_width("\u{0}\n\u{7F}\u{9F}", true), 0);
}

#[test]
fn wide_spaces_in_code_never_overflow() {
    let doc = Document {
        title: "T".to_string(),
        blocks: vec![Block::Code {
            text: format!("{}x\n\u{3000}\u{3000}let\u{3000}a;\n", "\u{3000}".repeat(40)),
            lang: None,
            tokens: Vec::new(),
        }],
        words: 3,
    };
    for width in [6, 7, 8, 12, 20, 21, 80] {
        assert_no_overflow(&doc, width, LayoutOptions::default());
    }
    let rows: Vec<String> = layout_document(&doc, 12, LayoutOptions::default())
        .lines
        .iter()
        .map(line_text)
        .collect();
    assert!(rows.contains(&format!("    {}", "\u{3000}".repeat(4))));
}

#[test]
fn a_tab_in_code_counts_one_cell() {
    let doc = Document {
        title: "T".to_string(),
        blocks: vec![Block::Code {
            text: "\t".repeat(20),
            lang: None,
            tokens: Vec::new(),
        }],
        words: 3,
    };
    let layout = layout_document(&doc, 14, LayoutOptions::default());
    let tabs: Vec<usize> = layout
        .lines
        .iter()
        .map(|l| line_text(l).matches('\t').count())
        .filter(|n| *n > 0)
        .collect();
    assert_eq!(tabs, vec![10, 10]);
}

#[test]
fn justification_moves_no_line_and_no_mapping() {
    let docs = [
        parse_article_html("Mapping", MAPPING_FIXTURE),
        parse_article_html("Test Article", FIXTURE),
        parse_article_html("アラン", JA_FIXTURE),
    ];
    let mut stretched = 0;
    for doc in &docs {
        for width in [12, 24, 40, 80, 120] {
            for hyphenate in [false, true] {
                let opts = LayoutOptions { hyphenate, word_spacing: 1, ..LayoutOptions::default() };
                let off = layout_document(doc, width, opts);
                let on = layout_document(doc, width, LayoutOptions { justify: true, ..opts });
                assert_eq!(on.lines.len(), off.lines.len());
                assert_eq!(on.block_lines, off.block_lines);
                assert_eq!(on.link_lines, off.link_lines);
                assert_eq!(on.link_visible, off.link_visible);
                assert_eq!(on.continuation, off.continuation);
                for (a, b) in on.lines.iter().zip(&off.lines) {
                    let (a, b) = (line_text(a), line_text(b));
                    let left: Vec<&str> = a.split_whitespace().collect();
                    let right: Vec<&str> = b.split_whitespace().collect();
                    assert_eq!(left, right);
                    if a != b {
                        stretched += 1;
                    }
                }
            }
        }
    }
    assert!(stretched > 10, "some lines were stretched");
}

#[test]
fn a_cache_hands_out_what_was_put_last() {
    let mut cache = LayoutCache::new(2);
    let a = cache_key("A", 1, 80, LAYOUT_SCHEMA_VERSION);
    let b = cache_key("B", 1, 80, LAYOUT_SCHEMA_VERSION);
    let c = cache_key("C", 1, 80, LAYOUT_SCHEMA_VERSION);
    let (wide, narrow) = (sample_layout(80), sample_layout(30));
    cache.put(a.clone(), wide.clone());
    cache.put(b.clone(), wide.clone());
    cache.put(a.clone(), narrow.clone());
    assert_eq!(cache.get(&b).map(|l| l.lines.len()), Some(wide.lines.len()));
    assert_eq!(cache.get(&a).map(|l| l.lines.len()), Some(narrow.lines.len()));
    cache.put(c.clone(), narrow);
    assert!(cache.get(&b).is_none(), "B was used least recently");
    assert!(cache.get(&a).is_some() && cache.get(&c).is_some());
}

#[test]
fn wide_characters_in_a_deep_list_never_overflow() {
    for depth in 0..14_u8 {
        for ordered in [false, true] {
            let doc = Document {
                title: "T".to_string(),
                blocks: vec![Block::ListItem {
                    ordered,
                    index: 1,
                    depth,
                    spans: vec![Span {
                        text: "計算機 a 科学".to_string(),
                        style: SpanStyle::Plain,
                    }],
                }],
                words: 3,
            };
            for width in 2..48 {
                assert_no_overflow(&doc, width, LayoutOptions::default());
            }
        }
    }
}

#[test]
fn ordinary_text_never_overflows_an_ordinary_terminal() {
    let family = "\u{1F468}\u{200D}\u{1F469}\u{200D}\u{1F467}";
    let text = format!("{family} 語\u{3000}a{family}語 b");
    let spans = || {
        vec![Span {
            text: text.clone(),
            style: SpanStyle::Plain,
        }]
    };
    let doc = Document {
        title: text.clone(),
        blocks: vec![
            Block::Infobox(vec![("k".to_string(), text.clone())]),
            Block::Paragraph(spans()),
            Block::Heading {
                level: 2,
                spans: spans(),
            },
            Block::Blockquote(spans()),
            Block::ListItem {
                ordered: true,
                index: 10,
                depth: 3,
                spans: spans(),
            },
            Block::Code {
                text: text.clone(),
                lang: None,
                tokens: Vec::new(),
            },
            Block::Math {
                source: text.clone(),
                tex: text.clone(),
                display: true,
            },
        ],
        words: 400,
    };
    for width in [20, 21, 33, 80, 120] {
        for measure in [1, 2, 7, 20, 100] {
            for justify in [false, true] {
                let opts = LayoutOptions {
                    measure,
                    justify,
                    word_spacing: 2,
                    ..LayoutOptions::default()
                };
                assert_no_overflow(&doc, width, opts);
            }
        }
    }
}
