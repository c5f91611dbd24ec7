//! Content documents collected and rewritten through `lol_html`, and EPUBs
//! rebuilt end to end.

use ebook_translator::markup::{blocks_from_events, collect_blocks, plan_edits, rewrite_doc, HtmlEvent};
use ebook_translator::output::repack;
use ebook_translator::package::{assemble_epub, read_package, spine_documents};
use ebook_translator::types::{docs_of, docs_of_mut, is_translatable, Block, LoadedBook, MODE_BILINGUAL, MODE_TRANSLATED};
use std::io::{Cursor, Read, Write};

fn block(text: &str, tag: &str, translation: Option<&str>) -> Block {
    Block {
        text: text.to_string(),
        skipped: !is_translatable(text),
        translation: translation.map(str::to_string),
        tag: tag.to_string(),
        parts: Vec::new(),
    }
}

#[test]
fn collects_simple_paragraphs() {
    let html = r#"<html><head><title>T</title></head><body><p>Hello world</p><p>42</p><p>Bye now</p></body></html>"#;
    let blocks = collect_blocks(html);
    assert_eq!(blocks.len(), 3);
    assert_eq!(blocks[0].text, "Hello world");
    assert!(!blocks[0].skipped);
    assert!(blocks[1].skipped, "numeric-only paragraph is skipped");
    assert_eq!(blocks[2].text, "Bye now");
}

#[test]
fn collects_nested_lists_to_innermost() {
    let html = r#"<body><ul><li>Outer <ul><li>Inner</li></ul></li></ul></body>"#;
    let blocks = collect_blocks(html);
    assert_eq!(blocks.len(), 2);
    assert_eq!(blocks[0].text, "Outer");
    assert_eq!(blocks[1].text, "Inner");
    assert_eq!(blocks[0].tag, "li");
}

#[test]
fn collects_inline_markup_text() {
    let html = r#"<body><p>Hi <em>there</em>, &amp; welcome!</p></body>"#;
    let blocks = collect_blocks(html);
    assert_eq!(blocks[0].text, "Hi there, & welcome!");
}

#[test]
fn bilingual_inserts_sibling_after_block() {
    let html = r#"<html><head><title>T</title></head><body><p>One</p><ul><li>Two</li></ul></body></html>"#;
    let blocks = vec![block("One", "p", Some("၁")), block("Two", "li", Some("၂"))];
    let out = rewrite_doc(html, &blocks, MODE_BILINGUAL).unwrap();
    assert!(out.contains("<p>One</p><p class=\"ebtr-translation\">၁</p>"), "{out}");
    assert!(out.contains("<li>Two</li><li class=\"ebtr-translation\">၂</li>"), "{out}");
    assert!(out.contains("<style"), "style injected: {out}");
}

#[test]
fn bilingual_leaves_untranslated_blocks_alone() {
    let html = r#"<body><p>One</p><p>Two</p></body>"#;
    let blocks = vec![block("One", "p", Some("၁")), block("Two", "p", None)];
    let out = rewrite_doc(html, &blocks, MODE_BILINGUAL).unwrap();
    assert_eq!(out.matches("ebtr-translation").count(), 1);
}

#[test]
fn translated_replaces_text_preserving_nested_blocks() {
    let html = r#"<body><ul><li>Outer <ul><li>Inner</li></ul></li></ul></body>"#;
    let blocks = vec![block("Outer", "li", Some("အပြင်")), block("Inner", "li", Some("အတွင်း"))];
    let out = rewrite_doc(html, &blocks, MODE_TRANSLATED).unwrap();
    assert!(out.contains("အပြင်"), "{out}");
    assert!(out.contains("အတွင်း"), "{out}");
    assert!(!out.contains("Outer"), "{out}");
    assert!(!out.contains("Inner"), "{out}");
}

#[test]
fn translated_removes_inline_text() {
    let html = r#"<body><p>Hi <em>there</em> friend</p></body>"#;
    let blocks = vec![block("Hi there friend", "p", Some("မင်္ဂလာပါ"))];
    let out = rewrite_doc(html, &blocks, MODE_TRANSLATED).unwrap();
    assert!(out.contains("မင်္ဂလာပါ"), "{out}");
    assert!(!out.contains("Hi"), "{out}");
    assert!(!out.contains("friend"), "{out}");
}

fn sample_epub() -> Vec<u8> {
    let mut out = Vec::new();
    {
        let mut w = zip::ZipWriter::new(Cursor::new(&mut out));
        let stored = zip::write::SimpleFileOptions::default().compression_method(zip::CompressionMethod::Stored);
        let deflated = zip::write::SimpleFileOptions::default().compression_method(zip::CompressionMethod::Deflated);
        let mut add = |name: &str, content: &str, opts: zip::write::SimpleFileOptions| {
            w.start_file(name, opts).unwrap();
            w.write_all(content.as_bytes()).unwrap();
        };
        add("mimetype", "application/epub+zip", stored);
        add(
            "META-INF/container.xml",
            r#"<?xml version="1.0"?>
<container version="1.0" xmlns="urn:oasis:names:tc:opendocument:xmlns:container">
<rootfiles><rootfile full-path="OEBPS/content.opf" media-type="application/oebps-package+xml"/></rootfiles>
</container>"#,
            deflated,
        );
        add(
            "OEBPS/content.opf",
            r#"<?xml version="1.0"?>
<package xmlns="http://www.idpf.org/2007/opf" version="3.0" unique-identifier="bid">
<metadata xmlns:dc="http://purl.org/dc/elements/1.1/">
<dc:identifier id="bid">urn:test</dc:identifier>
<dc:title>Test Book</dc:title>
<dc:creator>Test Author</dc:creator>
<dc:language>en</dc:language>
</metadata>
<manifest>
<item id="nav" href="nav.xhtml" media-type="application/xhtml+xml" properties="nav"/>
<item id="c1" href="text/ch1.xhtml" media-type="application/xhtml+xml"/>
<item id="c2" href="text/ch2.xhtml" media-type="application/xhtml+xml"/>
<item id="cover" href="images/cover.png" media-type="image/png" properties="cover-image"/>
</manifest>
<spine><itemref idref="c1"/><itemref idref="c2"/></spine>
</package>"#,
            deflated,
        );
        add(
            "OEBPS/nav.xhtml",
            r#"<?xml version="1.0"?>
<html xmlns="http://www.w3.org/1999/xhtml"><head><title>nav</title></head><body>
<nav xmlns:epub="http://www.idpf.org/2007/ops" epub:type="toc"><ol><li><a href="text/ch1.xhtml">One</a></li><li><a href="text/ch2.xhtml">Two</a></li></ol></nav>
</body></html>"#,
            deflated,
        );
        add(
            "OEBPS/text/ch1.xhtml",
            r#"<?xml version="1.0"?>
<html xmlns="http://www.w3.org/1999/xhtml"><head><title>c1</title></head><body>
<h1>Chapter One</h1><p>Hello world, this is the first chapter.</p><p>42</p>
</body></html>"#,
            deflated,
        );
        add(
            "OEBPS/text/ch2.xhtml",
            r#"<?xml version="1.0"?>
<html xmlns="http://www.w3.org/1999/xhtml"><head><title>c2</title></head><body>
<p>Second chapter &amp; more text here.</p><ul><li>Item one</li><li>Item two</li></ul>
</body></html>"#,
            deflated,
        );
        add("OEBPS/images/cover.png", "\u{89}PNG-fake", deflated);
        w.finish().unwrap();
    }
    out
}

fn parse(bytes: Vec<u8>, path: &str) -> LoadedBook {
    let package = read_package(&bytes).unwrap();
    let texts = spine_documents(&bytes, &package.spine);
    let collected = texts
        .into_iter()
        .map(|(p, html)| {
            let blocks = collect_blocks(&html);
            (p, html, blocks)
        })
        .collect();
    assemble_epub(bytes, path, package, collected)
}

fn read_entry(bytes: &[u8], name: &str) -> String {
    let mut z = zip::ZipArchive::new(Cursor::new(bytes)).unwrap();
    let mut s = String::new();
    z.by_name(name).unwrap().read_to_string(&mut s).unwrap();
    s
}

fn translate_all(book: &mut LoadedBook, mode: &str) -> Vec<(String, String)> {
    let mut replacements = Vec::new();
    for doc in docs_of_mut(book) {
        for b in doc.blocks.iter_mut() {
            if !b.skipped {
                b.translation = Some(format!("[MY] {}", b.text));
            }
        }
        replacements.push((doc.path.clone(), rewrite_doc(&doc.html, &doc.blocks, mode).unwrap()));
    }
    replacements
}

#[test]
fn round_trip_bilingual_epub() {
    let bytes = sample_epub();
    let mut book = parse(bytes.clone(), "/tmp/Test Book.epub");
    assert_eq!(book.info.title, "Test Book");
    assert_eq!(book.info.author, "Test Author");
    assert_eq!(book.info.format, "epub");
    assert!(book.info.cover_data_url.is_some());
    assert_eq!(book.info.segments.len(), 2);
    assert_eq!(book.info.segments[0].title, "One");
    assert_eq!(book.info.segments[0].blocks, 2);

    let replacements = translate_all(&mut book, MODE_BILINGUAL);
    let (out, missed) = repack(&bytes, &replacements).unwrap();
    assert_eq!(missed, 0);
    let mut z = zip::ZipArchive::new(Cursor::new(out.as_slice())).unwrap();
    assert_eq!(z.by_index(0).unwrap().name().unwrap(), "mimetype");
    let ch1 = read_entry(&out, "OEBPS/text/ch1.xhtml");
    assert!(ch1.contains("Hello world, this is the first chapter."), "{ch1}");
    assert!(ch1.contains("<p class=\"ebtr-translation\">[MY] Hello world"), "{ch1}");
    assert!(!ch1.contains("[MY] 42"), "skipped block not translated: {ch1}");

    let parsed2 = parse(out, "/tmp/out.epub");
    let all: Vec<String> = docs_of(&parsed2).iter().flat_map(|d| d.blocks.iter().map(|b| b.text.clone())).collect();
    assert!(all.iter().all(|t| !t.contains("[MY] [MY]")), "double translation detected");
}

#[test]
fn round_trip_translated_only_epub() {
    let bytes = sample_epub();
    let mut book = parse(bytes.clone(), "/tmp/Test Book.epub");
    let replacements = translate_all(&mut book, MODE_TRANSLATED);
    let (out, _) = repack(&bytes, &replacements).unwrap();
    let ch2 = read_entry(&out, "OEBPS/text/ch2.xhtml");
    assert!(ch2.contains("<p>[MY] Second chapter"), "{ch2}");
    assert!(ch2.contains("<li>[MY] Item one</li>"), "{ch2}");
    // every paragraph/list item must start with the marker -> originals replaced
    for line in ch2.lines() {
        let t = line.trim();
        if t.starts_with("<p>") && t.ends_with("</p>") {
            assert!(t.contains("[MY] "), "unreplaced paragraph: {t}");
        }
    }
    assert!(ch2.contains("<li>"), "list markup preserved: {ch2}");
}

#[test]
fn events_drive_blocks_and_plans() {
    let events = vec![
        HtmlEvent::Open("head".into()),
        HtmlEvent::Text("T".into()),
        HtmlEvent::Close("head".into()),
        HtmlEvent::Open("p".into()),
        HtmlEvent::Text("Hi &amp; ".into()),
        HtmlEvent::Open("em".into()),
        HtmlEvent::Text("there".into()),
        HtmlEvent::Close("em".into()),
        HtmlEvent::Close("p".into()),
        HtmlEvent::Open("li".into()),
        HtmlEvent::Text("7".into()),
    ];
    let blocks = blocks_from_events(&events);
    assert_eq!(blocks.len(), 2);
    assert_eq!(blocks[0].text, "Hi & there");
    assert_eq!(blocks[1].tag, "li");
    assert!(blocks[1].skipped);
    let translated = vec![block("Hi & there", "p", Some("<ok>")), block("7", "li", Some("x"))];
    let e = String::new;
    let plan = plan_edits(&events, &translated, true);
    assert_eq!(plan.elements.len(), 4);
    assert!(plan.elements[0].1.starts_with("<style"));
    assert_eq!(plan.elements[1], (e(), e(), "<p class=\"ebtr-translation\">&lt;ok&gt;</p>".to_string()));
    assert_eq!(plan.elements[2], (e(), e(), e()));
    assert_eq!(plan.elements[3], (e(), e(), e()));
    assert_eq!(plan.text, vec!["T", "Hi &amp; ", "there", "7"]);
    let plan = plan_edits(&events, &translated, false);
    assert_eq!(plan.elements[0], (e(), e(), e()));
    assert_eq!(plan.elements[1], ("&lt;ok&gt;".to_string(), e(), e()));
    assert_eq!(plan.text, vec!["T", "", "", "7"]);
}
