use ebook_translator::epub::{
    cover_data_url, dir_of, image_mime, is_epub, normalize_path, percent_decode, pretty_name,
};
use ebook_translator::package::{assemble_epub, read_package, spine_documents};
use ebook_translator::types::{docs_of, is_translatable, Block, BookSource};
use std::io::{Cursor, Write};

fn sample_epub() -> Vec<u8> {
    let mut out = Vec::new();
    {
        let mut w = zip::ZipWriter::new(Cursor::new(&mut out));
        let stored = zip::write::SimpleFileOptions::default().compression_method(zip::CompressionMethod::Stored);
        let deflated = zip::write::SimpleFileOptions::default().compression_method(zip::CompressionMethod::Deflated);
        let mut add = |name: &str, content: &str, opts: zip::write::SimpleFileOptions| {
            w.start_file(name, opts).unwrap();
            w.write_all(content.as_bytes()).unwrap();
        };
        add("mimetype", "application/epub+zip", stored);
        add(
            "META-INF/container.xml",
            r#"<?xml version="1.0"?>
<container version="1.0" xmlns="urn:oasis:names:tc:opendocument:xmlns:container">
<rootfiles><rootfile full-path="OEBPS/content.opf" media-type="application/oebps-package+xml"/></rootfiles>
</container>"#,
            deflated,
        );
        add(
            "OEBPS/content.opf",
            r#"<?xml version="1.0"?>
<package xmlns="http://www.idpf.org/2007/opf" version="3.0" unique-identifier="bid">
<metadata xmlns:dc="http://purl.org/dc/elements/1.1/">
<dc:identifier id="bid">urn:test</dc:identifier>
<dc:title>Test Book</dc:title>
<dc:creator>Test Author</dc:creator>
<dc:language>en</dc:language>
</metadata>
<manifest>
<item id="nav" href="nav.xhtml" media-type="application/xhtml+xml" properties="nav"/>
<item id="c1" href="text/ch1.xhtml" media-type="application/xhtml+xml"/>
<item id="c2" href="text/ch2.xhtml" media-type="application/xhtml+xml"/>
<item id="cover" href="images/cover.png" media-type="image/png" properties="cover-image"/>
</manifest>
<spine><itemref idref="c1"/><itemref idref="c2"/><itemref idref="missing"/></spine>
</package>"#,
            deflated,
        );
        add(
            "OEBPS/nav.xhtml",
            r#"<?xml version="1.0"?>
<html xmlns="http://www.w3.org/1999/xhtml"><head><title>nav</title></head><body>
<nav xmlns:epub="http://www.idpf.org/2007/ops" epub:type="toc"><ol><li><a href="text/ch1.xhtml">One</a></li><li><a href="text/ch2.xhtml#s"> Two <em>too</em></a></li></ol></nav>
</body></html>"#,
            deflated,
        );
        add(
            "OEBPS/text/ch1.xhtml",
            "<html><body><h1>Chapter One</h1><p>Hello world, this is the first chapter.</p><p>42</p></body></html>",
            deflated,
        );
        add("OEBPS/text/ch2.xhtml", "<html><body><p>42</p></body></html>", deflated);
        add("OEBPS/images/cover.png", "PNG", deflated);
        w.finish().unwrap();
    }
    out
}

fn block(text: &str, tag: &str) -> Block {
    Block {
        text: text.to_string(),
        skipped: !is_translatable(text),
        translation: None,
        tag: tag.to_string(),
        parts: Vec::new(),
    }
}

#[test]
fn normalizes_paths() {
    assert_eq!(normalize_path("OEBPS", "text/ch1.xhtml"), "OEBPS/text/ch1.xhtml");
    assert_eq!(normalize_path("OEBPS", "../cover.jpeg"), "cover.jpeg");
    assert_eq!(normalize_path("OEBPS", "/mimetype"), "mimetype");
    assert_eq!(normalize_path("", "a%20b.xhtml"), "a b.xhtml");
    assert_eq!(normalize_path("d", "ch1.xhtml#frag"), "d/ch1.xhtml");
}

#[test]
fn resolves_dots_and_escapes() {
    assert_eq!(normalize_path("a/b", "./c/../../d//e.xhtml"), "a/d/e.xhtml");
    assert_eq!(normalize_path("a", "../../../x"), "x");
    assert_eq!(percent_decode("%41%2b%+5%zz%4"), "A+\u{5}%zz%4");
    assert_eq!(percent_decode("caf%C3%A9"), "café");
    assert_eq!(percent_decode("%FF"), "\u{fffd}");
}

#[test]
fn names_documents_and_directories() {
    assert_eq!(dir_of("OEBPS/text/ch1.xhtml"), "OEBPS/text");
    assert_eq!(dir_of("content.opf"), "");
    assert_eq!(pretty_name("OEBPS/text/chapter_01-intro.xhtml"), "chapter 01 intro");
    assert_eq!(pretty_name("a.html.htm"), "a.html");
    assert_eq!(pretty_name("x.xhtml.xhtml"), "x");
}

#[test]
fn recognizes_zip_and_image_types() {
    assert!(is_epub(b"PK\x03\x04rest"));
    assert!(!is_epub(b"PK\x03\x04"));
    assert!(!is_epub(b"%PDF-1.7"));
    assert_eq!(image_mime("a/b.png"), "image/png");
    assert_eq!(image_mime("b.svg"), "image/svg+xml");
    assert_eq!(image_mime("noext"), "image/jpeg");
    assert_eq!(cover_data_url("c.gif", b"Man"), "data:image/gif;base64,TWFu");
    assert_eq!(cover_data_url("c.webp", b"Ma"), "data:image/webp;base64,TWE=");
    assert_eq!(cover_data_url("c.jpg", b"M"), "data:image/jpeg;base64,TQ==");
}

#[test]
fn reads_package_metadata_spine_and_labels() {
    let bytes = sample_epub();
    let pkg = read_package(&bytes).unwrap();
    assert_eq!(pkg.title, "Test Book");
    assert_eq!(pkg.author, "Test Author");
    assert_eq!(pkg.spine, vec!["OEBPS/text/ch1.xhtml".to_string(), "OEBPS/text/ch2.xhtml".to_string()]);
    assert_eq!(
        pkg.titles,
        vec![
            ("OEBPS/text/ch1.xhtml".to_string(), "One".to_string()),
            ("OEBPS/text/ch2.xhtml".to_string(), "Two too".to_string()),
        ]
    );
    assert_eq!(pkg.cover_data_url.as_deref(), Some("data:image/png;base64,UE5H"));
    let texts = spine_documents(&bytes, &pkg.spine);
    assert_eq!(texts.len(), 2);
    assert!(texts[0].1.contains("Chapter One"));
}

#[test]
fn assembles_book_from_collected_blocks() {
    let bytes = sample_epub();
    let pkg = read_package(&bytes).unwrap();
    let collected = vec![
        (
            "OEBPS/text/ch1.xhtml".to_string(),
            "<html/>".to_string(),
            vec![block("Chapter One", "h1"), block("Hello world, this is the first chapter.", "p"), block("42", "p")],
        ),
        ("OEBPS/text/ch2.xhtml".to_string(), "<html/>".to_string(), vec![block("42", "p")]),
        ("OEBPS/text/extra_notes.xhtml".to_string(), "<p/>".to_string(), vec![block("Some notes", "p")]),
    ];
    let book = assemble_epub(bytes.clone(), "/tmp/Test Book.epub", pkg, collected);
    assert_eq!(book.info.title, "Test Book");
    assert_eq!(book.info.author, "Test Author");
    assert_eq!(book.info.format, "epub");
    assert_eq!(book.info.file_name, "Test Book.epub");
    assert!(book.info.cover_data_url.is_some());
    assert_eq!(book.info.segments.len(), 2);
    assert_eq!(book.info.segments[0].title, "One");
    assert_eq!(book.info.segments[0].blocks, 2);
    assert_eq!(book.info.segments[0].chars, 11 + 39);
    assert_eq!(book.info.segments[1].title, "extra notes");
    assert_eq!(book.info.total_chars, 11 + 39 + 10);
    assert_eq!(docs_of(&book).len(), 2);
    assert!(matches!(book.source, BookSource::Epub { .. }));
}

#[test]
fn refuses_broken_archives() {
    assert!(read_package(b"not a zip at all").is_err());
    let mut out = Vec::new();
    {
        let mut w = zip::ZipWriter::new(Cursor::new(&mut out));
        w.start_file("mimetype", zip::write::SimpleFileOptions::default()).unwrap();
        w.write_all(b"application/epub+zip").unwrap();
        w.finish().unwrap();
    }
    assert_eq!(read_package(&out).err().unwrap().text(), "not an EPUB: missing META-INF/container.xml");
}

fn ncx_epub() -> Vec<u8> {
    let mut out = Vec::new();
    {
        let mut w = zip::ZipWriter::new(Cursor::new(&mut out));
        let opts = zip::write::SimpleFileOptions::default().compression_method(zip::CompressionMethod::Stored);
        let mut add = |name: &str, content: &str| {
            w.start_file(name, opts).unwrap();
            w.write_all(content.as_bytes()).unwrap();
        };
        add("mimetype", "application/epub+zip");
        add(
            "META-INF/container.xml",
            r#"<container xmlns="urn:oasis:names:tc:opendocument:xmlns:container"><rootfiles><rootfile full-path="content.opf"/></rootfiles></container>"#,
        );
        add(
            "content.opf",
            r#"<package xmlns="http://www.idpf.org/2007/opf" version="2.0">
<metadata xmlns:dc="http://purl.org/dc/elements/1.1/"><dc:title>Old Book</dc:title></metadata>
<manifest>
<item id="ncx" href="toc.ncx" media-type="application/x-dtbncx+xml"/>
<item id="a" href="a.xhtml" media-type="application/xhtml+xml"/>
<item id="b" href="b.xhtml" media-type="application/xhtml+xml"/>
<item id="c" href="c.xhtml" media-type="application/xhtml+xml"/>
<item id="d" href="d.xhtml" media-type="application/xhtml+xml"/>
</manifest>
<spine toc="ncx"><itemref idref="a"/><itemref idref="b"/><itemref idref="c"/><itemref idref="d"/></spine>
</package>"#,
        );
        add(
            "toc.ncx",
            r#"<ncx xmlns="http://www.daisy.org/z3986/2005/ncx/"><navMap>
<navPoint id="p1"><navLabel><text>Part One</text></navLabel><content src="a.xhtml"/>
<navPoint id="p2"><navLabel><text> Inner </text></navLabel><content src="b.xhtml#x"/></navPoint>
</navPoint>
<navPoint id="p3"><navLabel><text>Outer</text></navLabel>
<navPoint id="p4"><navLabel><text>Deep</text></navLabel><content src="c.xhtml"/></navPoint>
</navPoint>
<navPoint id="p5"><navLabel><text> </text></navLabel><content src="d.xhtml"/></navPoint>
</navMap></ncx>"#,
        );
        for n in ["a", "b", "c", "d"] {
            add(&format!("{}.xhtml", n), "<html><body><p>Text here.</p></body></html>");
        }
        w.finish().unwrap();
    }
    out
}

#[test]
fn ncx_labels_follow_nesting() {
    let bytes = ncx_epub();
    let pkg = read_package(&bytes).unwrap();
    assert_eq!(pkg.title, "Old Book");
    assert_eq!(pkg.spine.len(), 4);
    assert_eq!(
        pkg.titles,
        vec![
            ("a.xhtml".to_string(), "Part One".to_string()),
            ("b.xhtml".to_string(), "Inner".to_string()),
            ("c.xhtml".to_string(), "Deep".to_string()),
        ]
    );
}
