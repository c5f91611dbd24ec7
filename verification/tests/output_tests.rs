use ebook_translator::output::{build_new_epub, lang_code, paragraphs_html, repack, xhtml_doc};
use ebook_translator::package::read_package;
use ebook_translator::types::{is_translatable, Block, ContentDoc};
use std::io::{Cursor, Read, Write};

fn block(text: &str, translation: Option<&str>) -> Block {
    Block {
        text: text.into(),
        skipped: !is_translatable(text),
        translation: translation.map(str::to_string),
        tag: "p".into(),
        parts: Vec::new(),
    }
}

#[test]
fn maps_language_names_to_codes() {
    assert_eq!(lang_code("Burmese"), "my");
    assert_eq!(lang_code("Myanmar (Burmese)"), "my");
    assert_eq!(lang_code("Chinese (Traditional)"), "zh-TW");
    assert_eq!(lang_code("chinese"), "zh-CN");
    assert_eq!(lang_code("THAI"), "th");
    assert_eq!(lang_code("Klingon"), "en");
}

#[test]
fn writes_chapter_markup_by_mode() {
    let blocks = vec![block("Hello <world>", Some("မင်္ဂလာ")), block("42", None), block("Plain", None), block("", None)];
    assert_eq!(
        paragraphs_html(&blocks, "bilingual"),
        "<p>Hello &lt;world&gt;</p>\n<p class=\"ebtr-translation\">မင်္ဂလာ</p>\n<p>42</p>\n<p>Plain</p>\n"
    );
    assert_eq!(paragraphs_html(&blocks, "translated"), "<p>မင်္ဂလာ</p>\n<p>42</p>\n<p>Plain</p>\n");
    assert!(xhtml_doc("A & B", "<p/>").contains("<title>A &amp; B</title>"));
}

fn entry(bytes: &[u8], name: &str) -> String {
    let mut z = zip::ZipArchive::new(Cursor::new(bytes)).unwrap();
    let mut f = z.by_name(name).unwrap();
    let mut s = String::new();
    f.read_to_string(&mut s).unwrap();
    s
}

#[test]
fn builds_a_readable_epub_for_pdf_chapters() {
    let docs = vec![
        ContentDoc { path: "ch001".into(), title: "Part 1".into(), html: String::new(), blocks: vec![block("First text", Some("ပထမ"))] },
        ContentDoc { path: "ch002".into(), title: "Part 2".into(), html: String::new(), blocks: vec![block("Second text", None)] },
    ];
    let bytes = build_new_epub("My <Book>", "Me", "Burmese", &docs, "bilingual").unwrap();
    let mut z = zip::ZipArchive::new(Cursor::new(bytes.as_slice())).unwrap();
    assert_eq!(z.by_index(0).unwrap().name().unwrap(), "mimetype");
    drop(z);
    let pkg = read_package(&bytes).unwrap();
    assert_eq!(pkg.title, "My <Book>");
    assert_eq!(pkg.author, "Me");
    assert_eq!(pkg.spine, vec!["OEBPS/ch001.xhtml".to_string(), "OEBPS/ch002.xhtml".to_string()]);
    assert_eq!(pkg.titles[0], ("OEBPS/ch001.xhtml".to_string(), "Part 1".to_string()));
    let ch1 = entry(&bytes, "OEBPS/ch001.xhtml");
    assert!(ch1.contains("<p class=\"ebtr-translation\">ပထမ</p>"));
    assert!(entry(&bytes, "OEBPS/content.opf").contains("<dc:language>my</dc:language>"));
}

#[test]
fn repacks_with_rewritten_documents() {
    let mut original = Vec::new();
    {
        let mut w = zip::ZipWriter::new(Cursor::new(&mut original));
        let o = zip::write::SimpleFileOptions::default();
        for (name, text) in [("a.txt", "keep"), ("mimetype", "application/epub+zip"), ("OEBPS/my%20ch.xhtml", "old")] {
            w.start_file(name, o).unwrap();
            w.write_all(text.as_bytes()).unwrap();
        }
        w.finish().unwrap();
    }
    let reps = vec![
        ("OEBPS/my ch.xhtml".to_string(), "new".to_string()),
        ("OEBPS/gone.xhtml".to_string(), "lost".to_string()),
    ];
    let (bytes, missed) = repack(&original, &reps).unwrap();
    assert_eq!(missed, 1);
    let mut z = zip::ZipArchive::new(Cursor::new(bytes.as_slice())).unwrap();
    assert_eq!(z.by_index(0).unwrap().name().unwrap(), "mimetype");
    assert_eq!(z.len(), 3);
    drop(z);
    assert_eq!(entry(&bytes, "a.txt"), "keep");
    assert_eq!(entry(&bytes, "OEBPS/my%20ch.xhtml"), "new");
    assert!(repack(b"junk", &reps).is_err());
}
