use wikitui::doc::{Block, Document, GalleryItem, Span, SpanStyle, Table, TableCell};
use wikitui::saved::SavedThumb;
use wikitui::saved_export::{
    embeddable_from, escape_html, escape_markdown, export_file_name, extension, formats, render,
    render_html, render_md, render_txt, resolve_href, EmbeddableThumb,
};

const FOOTER: &str = "Text from Wikipedia, CC BY-SA 4.0. wikitui is not endorsed by the Wikimedia Foundation.";

const PLAIN: &str = "Alan Turing\n\nHe founded computer science.\n\nLegacy\n\n[image: A portrait]\nA caption.\n";

fn span(text: &str, style: SpanStyle) -> Span {
    Span { text: text.to_string(), style }
}

fn plain(text: &str) -> Vec<Span> {
    vec![span(text, SpanStyle::Plain)]
}

fn document(blocks: Vec<Block>) -> Document {
    Document { title: "T".to_string(), blocks, words: 0 }
}

fn fixture_doc() -> Document {
    Document {
        title: "Alan Turing".to_string(),
        blocks: vec![
            Block::Paragraph(vec![
                span("He founded ", SpanStyle::Plain),
                span("computer science", SpanStyle::Link("./Computer_science".to_string())),
                span(".", SpanStyle::Plain),
            ]),
            Block::Heading { level: 2, spans: plain("Legacy") },
            Block::Image {
                src: Some("http://example/pic.png".to_string()),
                alt: "A portrait".to_string(),
                caption: Some("A caption.".to_string()),
            },
        ],
        words: 6,
    }
}

#[test]
fn every_format_ends_with_the_attribution_footer() {
    let doc = fixture_doc();
    for format in formats() {
        let out = render(&doc, PLAIN, "en", format, false, &Vec::new(), FOOTER).unwrap();
        assert!(
            out.contains("CC BY-SA 4.0"),
            "{format} export must carry the footer"
        );
        assert!(out.contains("not endorsed by the Wikimedia Foundation"));
    }
    assert_eq!(render(&doc, PLAIN, "en", "pdf", false, &Vec::new(), FOOTER), None);
}

#[test]
fn markdown_resolves_internal_links_to_canonical_urls() {
    let md = render_md(&fixture_doc(), "en", FOOTER);
    assert!(md.starts_with("# Alan Turing"));
    assert!(md.contains("[computer science](https://en.wikipedia.org/wiki/Computer_science)"));
    assert!(md.contains("## Legacy"));
}

#[test]
fn html_export_is_standalone_and_print_styled() {
    let html = render_html(&fixture_doc(), "en", false, &Vec::new(), FOOTER);
    assert!(html.starts_with("<!doctype html>"));
    assert!(html.contains("<style>"));
    assert!(html.contains("<h1>Alan Turing</h1>"));
    assert!(html.contains("<footer>"));
}

#[test]
fn nonfree_policy_gates_image_embedding_in_html() {
    let doc = fixture_doc();
    let thumbs = vec![EmbeddableThumb {
        src: "http://example/pic.png".to_string(),
        bytes: vec![1, 2, 3, 4],
    }];

    let default_export = render_html(&doc, "en", false, &thumbs, FOOTER);
    assert!(
        !default_export.contains("data:image"),
        "free-only default must not embed image data"
    );
    assert!(default_export.contains("[image: A portrait]"));

    let optin = render_html(&doc, "en", true, &thumbs, FOOTER);
    assert!(
        optin.contains("data:image/png;base64,"),
        "opting into non-free embeds the pinned bytes"
    );
    assert!(optin.contains("<img src=\"data:image/png;base64,AQIDBA==\" alt=\"A portrait\">\n"));
}

#[test]
fn txt_export_uses_the_plain_renderer_plus_footer() {
    let txt = render_txt(PLAIN, FOOTER);
    assert!(txt.contains("Alan Turing"));
    assert!(txt.contains("[image: A portrait]"));
    assert!(txt.trim_end().ends_with("article text.") || txt.contains("CC BY-SA 4.0"));
    assert_eq!(txt, format!("{PLAIN}\n----\n\n{FOOTER}\n"));
}

#[test]
fn default_export_path_uses_the_title_stem_and_extension() {
    for format in formats() {
        let name = export_file_name("Alan_Turing", "20260714-101500", format).unwrap();
        let ext = extension(format).unwrap();
        assert!(name.ends_with(&format!(".{ext}")));
        assert_eq!(name, format!("Alan_Turing-20260714-101500.{format}"));
    }
    assert_eq!(export_file_name("X", "", "pdf"), None);
    assert_eq!(extension("pdf"), None);
}

#[test]
fn each_block_has_its_markdown() {
    let doc = document(vec![
        Block::Heading { level: 0, spans: plain("a_b") },
        Block::Heading { level: 9, spans: plain("deep") },
        Block::ListItem { ordered: true, index: 3, depth: 1, spans: plain("three") },
        Block::ListItem { ordered: false, index: 0, depth: 0, spans: plain("dot") },
        Block::Blockquote(vec![span("q", SpanStyle::Bold), span("i", SpanStyle::Italic)]),
        Block::Code { text: "x\n".to_string(), lang: None, tokens: Vec::new() },
        Block::Code { text: "y".to_string(), lang: None, tokens: Vec::new() },
        Block::Rule,
        Block::Infobox(vec![
            (String::new(), "Name".to_string()),
            ("Born".to_string(), "1912".to_string()),
        ]),
        Block::Gallery(vec![GalleryItem { src: None, caption: "cap".to_string() }]),
        Block::Math { source: "x^2".to_string(), tex: "x²".to_string(), display: true },
        Block::Paragraph(vec![
            span("x^2", SpanStyle::Math("x²".to_string())),
            span("[1]", SpanStyle::Superscript),
            span("gone", SpanStyle::RedLink("/wiki/No_page#s".to_string())),
        ]),
    ]);
    assert_eq!(
        render_md(&doc, "en", "F"),
        "# T\n\n# a\\_b\n\n###### deep\n\n  3. three\n- dot\n> **q***i*\n\n```\nx\n```\n\n```\ny\n```\n\n---\n\n**Name**\n- **Born:** 1912\n\n*[image: cap]*\n\n```\nx^2\n```\n\n`x^2`\\[1\\][gone](https://en.wikipedia.org/wiki/No_page)\n\n\n---\n\n*F*\n"
    );
}

#[test]
fn each_block_has_its_html() {
    let doc = document(vec![
        Block::Heading { level: 1, spans: plain("a<b") },
        Block::ListItem { ordered: true, index: 3, depth: 1, spans: plain("three") },
        Block::Blockquote(vec![span("q", SpanStyle::Bold), span("s", SpanStyle::Superscript)]),
        Block::Code { text: "a & b".to_string(), lang: None, tokens: Vec::new() },
        Block::Rule,
        Block::Table(Table {
            rows: vec![
                vec![TableCell { text: "H".to_string(), header: true }],
                vec![TableCell { text: "v".to_string(), header: false }],
            ],
            truncated: false,
        }),
        Block::Infobox(vec![
            (String::new(), "Name".to_string()),
            ("Born".to_string(), "1912".to_string()),
        ]),
        Block::Image { src: None, alt: "\"x\"".to_string(), caption: None },
        Block::Gallery(vec![GalleryItem { src: None, caption: "cap".to_string() }]),
        Block::Math { source: "x<y".to_string(), tex: "x<y".to_string(), display: false },
        Block::Paragraph(vec![span("e", SpanStyle::Link("https://e.org/?a&b".to_string()))]),
    ]);
    let html = render_html(&doc, "en", true, &Vec::new(), "F&F");
    let body = html.split("<h1>T</h1>\n").nth(1).unwrap();
    assert_eq!(
        body,
        "<h2>a&lt;b</h2>\n<ul><li>three</li></ul>\n<blockquote><strong>q</strong><sup>s</sup></blockquote>\n<pre><code>a &amp; b</code></pre>\n<hr>\n<ul>\n<li>H: v</li>\n</ul>\n<table>\n<tr><th colspan=\"2\">Name</th></tr>\n<tr><th>Born</th><td>1912</td></tr>\n</table>\n<figure>\n<p>[image: &quot;x&quot;]</p>\n</figure>\n<ul>\n<li>[image: cap]</li>\n</ul>\n<pre><code>x&lt;y</code></pre>\n<p><a href=\"https://e.org/?a&amp;b\">e</a></p>\n<footer>F&amp;F</footer>\n</body>\n</html>\n"
    );
}

#[test]
fn targets_and_text_are_escaped_for_their_place() {
    assert_eq!(resolve_href("./A_B#c", "de"), "https://de.wikipedia.org/wiki/A_B");
    assert_eq!(resolve_href("#note", "de"), "#note");
    assert_eq!(escape_markdown("a*b\\c`[d]"), "a\\*b\\\\c\\`\\[d\\]");
    assert_eq!(escape_html("<a href=\"x\">&"), "&lt;a href=&quot;x&quot;&gt;&amp;");
}

#[test]
fn only_pictures_that_could_be_read_can_be_embedded() {
    let thumb = |src: &str| SavedThumb { src: src.to_string(), file: "0".to_string(), bytes: 1 };
    let out = embeddable_from(
        &vec![thumb("a"), thumb("b"), thumb("c")],
        &vec![Some(vec![1]), None, Some(vec![3])],
    );
    assert_eq!(out.len(), 2);
    assert_eq!(out[0].src, "a");
    assert_eq!(out[1].src, "c");
    assert_eq!(out[1].bytes, vec![3]);
}
