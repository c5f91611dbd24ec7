//! The translated book as an EPUB archive: the original archive with its
//! rewritten documents swapped in, or (for a PDF) a new package built from
//! the chapter documents.
use vstd::prelude::*;
use vstd::utf8::encode_utf8;
use crate::error::AppError;
use crate::html::{escape_chars, escaped};
use crate::text::{append_seq, append_str, chars_of, contains, decimal, has_sub, lowercase, padded, push_decimal, push_padded, string_of, to_lowercase};
use crate::types::{Block, BlockView, ContentDoc, DocView, MODE_BILINGUAL};

verus! {

broadcast use vstd::string::group_string_axioms;

/// A best-effort BCP-47 code for a language's display name.
pub open spec fn lang_code_of(lang: Seq<char>) -> Seq<char> {
    let l = lowercase(lang);
    if contains(l, "burmese"@) || contains(l, "myanmar"@) {
        "my"@
    } else if contains(l, "english"@) {
        "en"@
    } else if contains(l, "chinese"@) {
        if contains(l, "traditional"@) {
            "zh-TW"@
        } else {
            "zh-CN"@
        }
    } else if contains(l, "japanese"@) {
        "ja"@
    } else if contains(l, "korean"@) {
        "ko"@
    } else if contains(l, "thai"@) {
        "th"@
    } else if contains(l, "vietnamese"@) {
        "vi"@
    } else if contains(l, "french"@) {
        "fr"@
    } else if contains(l, "german"@) {
        "de"@
    } else if contains(l, "spanish"@) {
        "es"@
    } else if contains(l, "hindi"@) {
        "hi"@
    } else if contains(l, "indonesian"@) {
        "id"@
    } else if contains(l, "arabic"@) {
        "ar"@
    } else if contains(l, "russian"@) {
        "ru"@
    } else {
        "en"@
    }
}

fn has(l: &Vec<char>, word: &str) -> (r: bool)
    ensures
        r == contains(l@, word@),
{
    has_sub(l, &chars_of(word))
}

pub fn lang_code(lang: &str) -> (r: String)
    ensures
        r@ == lang_code_of(lang@),
{
    let l = chars_of(to_lowercase(lang).as_str());
    let code = if has(&l, "burmese") || has(&l, "myanmar") {
        "my"
    } else if has(&l, "english") {
        "en"
    } else if has(&l, "chinese") {
        if has(&l, "traditional") {
            "zh-TW"
        } else {
            "zh-CN"
        }
    } else if has(&l, "japanese") {
        "ja"
    } else if has(&l, "korean") {
        "ko"
    } else if has(&l, "thai") {
        "th"
    } else if has(&l, "vietnamese") {
        "vi"
    } else if has(&l, "french") {
        "fr"
    } else if has(&l, "german") {
        "de"
    } else if has(&l, "spanish") {
        "es"
    } else if has(&l, "hindi") {
        "hi"
    } else if has(&l, "indonesian") {
        "id"
    } else if has(&l, "arabic") {
        "ar"
    } else if has(&l, "russian") {
        "ru"
    } else {
        "en"
    };
    code.to_owned()
}

/// A block's markup in a generated chapter: skipped blocks keep their
/// text (if any); a translated block shows the original and then the
/// translation in a bilingual book, the translation alone otherwise.
pub open spec fn block_html(b: BlockView, bilingual: bool) -> Seq<char> {
    if b.skipped {
        if b.text.len() > 0 {
            "<p>"@ + escaped(b.text) + "</p>\n"@
        } else {
            seq![]
        }
    } else {
        match b.translation {
            Some(tr) => if bilingual {
                "<p>"@ + escaped(b.text) + "</p>\n<p class=\"ebtr-translation\">"@ + escaped(tr) + "</p>\n"@
            } else {
                "<p>"@ + escaped(tr) + "</p>\n"@
            },
            None => "<p>"@ + escaped(b.text) + "</p>\n"@,
        }
    }
}

pub open spec fn blocks_html(bs: Seq<BlockView>, bilingual: bool) -> Seq<char>
    decreases bs.len(),
{
    if bs.len() == 0 {
        seq![]
    } else {
        blocks_html(bs.drop_last(), bilingual) + block_html(bs.last(), bilingual)
    }
}

fn push_escaped(out: &mut Vec<char>, s: &str)
    ensures
        final(out)@ == old(out)@ + escaped(s@),
{
    append_seq(out, &escape_chars(&chars_of(s)));
}

/// The body markup of a generated chapter.
pub fn paragraphs_html(blocks: &Vec<Block>, mode: &str) -> (r: String)
    ensures
        r@ == blocks_html(blocks@.map_values(|b: Block| b@), mode@ == MODE_BILINGUAL@),
{
    let bilingual = crate::text::eq_str(&chars_of(mode), MODE_BILINGUAL);
    let ghost bv = blocks@.map_values(|b: Block| b@);
    let mut out: Vec<char> = Vec::new();
    let mut i: usize = 0;
    while i < blocks.len()
        invariant
            i <= blocks@.len(),
            bv == blocks@.map_values(|b: Block| b@),
            out@ == blocks_html(bv.take(i as int), bilingual),
        decreases blocks.len() - i,
    {
        assert(bv.take(i + 1).drop_last() =~= bv.take(i as int));
        let b = &blocks[i];
        if b.skipped {
            if !b.text.as_str().is_empty() {
                append_str(&mut out, "<p>");
                push_escaped(&mut out, b.text.as_str());
                append_str(&mut out, "</p>\n");
            }
        } else {
            match &b.translation {
                Some(tr) => {
                    if bilingual {
                        append_str(&mut out, "<p>");
                        push_escaped(&mut out, b.text.as_str());
                        append_str(&mut out, "</p>\n<p class=\"ebtr-translation\">");
                        push_escaped(&mut out, tr.as_str());
                        append_str(&mut out, "</p>\n");
                    } else {
                        append_str(&mut out, "<p>");
                        push_escaped(&mut out, tr.as_str());
                        append_str(&mut out, "</p>\n");
                    }
                },
                None => {
                    append_str(&mut out, "<p>");
                    push_escaped(&mut out, b.text.as_str());
                    append_str(&mut out, "</p>\n");
                },
            }
        }
        i += 1;
        assert(out@ =~= blocks_html(bv.take(i as int), bilingual));
    }
    assert(bv.take(i as int) =~= bv);
    string_of(&out)
}

pub const XML_HEAD: &'static str = "<?xml version=\"1.0\" encoding=\"utf-8\"?>\n";

/// A generated XHTML document.
pub open spec fn xhtml_of(title: Seq<char>, body: Seq<char>) -> Seq<char> {
    XML_HEAD@ + "<html xmlns=\"http://www.w3.org/1999/xhtml\">\n<head><title>"@ + escaped(title)
        + "</title><link rel=\"stylesheet\" type=\"text/css\" href=\"style.css\"/></head>\n<body>\n"@ + body
        + "</body>\n</html>\n"@
}

pub fn xhtml_doc(title: &str, body: &str) -> (r: String)
    ensures
        r@ == xhtml_of(title@, body@),
{
    let mut out = chars_of(XML_HEAD);
    append_str(&mut out, "<html xmlns=\"http://www.w3.org/1999/xhtml\">\n<head><title>");
    push_escaped(&mut out, title);
    append_str(&mut out, "</title><link rel=\"stylesheet\" type=\"text/css\" href=\"style.css\"/></head>\n<body>\n");
    append_str(&mut out, body);
    append_str(&mut out, "</body>\n</html>\n");
    string_of(&out)
}

/// The file name of the `i`-th (0-based) generated chapter.
pub open spec fn chapter_file(i: nat) -> Seq<char> {
    "ch"@ + padded(i + 1, 3) + ".xhtml"@
}

/// Per-chapter lines of the package, the navigation document and the NCX.
pub open spec fn manifest_lines(titles: Seq<Seq<char>>) -> Seq<char>
    decreases titles.len(),
{
    if titles.len() == 0 {
        seq![]
    } else {
        let i = (titles.len() - 1) as nat;
        manifest_lines(titles.drop_last()) + "<item id=\"ch"@ + decimal(i) + "\" href=\""@ + chapter_file(i)
            + "\" media-type=\"application/xhtml+xml\"/>\n"@
    }
}

pub open spec fn spine_lines(titles: Seq<Seq<char>>) -> Seq<char>
    decreases titles.len(),
{
    if titles.len() == 0 {
        seq![]
    } else {
        let i = (titles.len() - 1) as nat;
        spine_lines(titles.drop_last()) + "<itemref idref=\"ch"@ + decimal(i) + "\"/>\n"@
    }
}

pub open spec fn nav_lines(titles: Seq<Seq<char>>) -> Seq<char>
    decreases titles.len(),
{
    if titles.len() == 0 {
        seq![]
    } else {
        let i = (titles.len() - 1) as nat;
        nav_lines(titles.drop_last()) + "<li><a href=\""@ + chapter_file(i) + "\">"@ + escaped(titles.last())
            + "</a></li>\n"@
    }
}

pub open spec fn ncx_lines(titles: Seq<Seq<char>>) -> Seq<char>
    decreases titles.len(),
{
    if titles.len() == 0 {
        seq![]
    } else {
        let i = (titles.len() - 1) as nat;
        ncx_lines(titles.drop_last()) + "<navPoint id=\"np"@ + decimal(i) + "\" playOrder=\""@ + decimal(i + 1)
            + "\"><navLabel><text>"@ + escaped(titles.last()) + "</text></navLabel><content src=\""@
            + chapter_file(i) + "\"/></navPoint>\n"@
    }
}

fn push_chapter_file(out: &mut Vec<char>, i: usize)
    requires
        i < usize::MAX,
    ensures
        final(out)@ == old(out)@ + chapter_file(i as nat),
{
    append_str(out, "ch");
    push_padded(out, (i + 1) as u64, 3);
    append_str(out, ".xhtml");
}

/// The four per-chapter listings: manifest items, spine refs, navigation
/// entries and NCX points.
fn chapter_lines(docs: &[ContentDoc]) -> (r: (Vec<char>, Vec<char>, Vec<char>, Vec<char>))
    ensures
        ({
            let titles = doc_titles(docs@);
            &&& r.0@ == manifest_lines(titles)
            &&& r.1@ == spine_lines(titles)
            &&& r.2@ == nav_lines(titles)
            &&& r.3@ == ncx_lines(titles)
        }),
{
    let ghost titles = doc_titles(docs@);
    let mut items: Vec<char> = Vec::new();
    let mut refs: Vec<char> = Vec::new();
    let mut nav: Vec<char> = Vec::new();
    let mut ncx: Vec<char> = Vec::new();
    let mut i: usize = 0;
    while i < docs.len()
        invariant
            i <= docs@.len(),
            titles == doc_titles(docs@),
            items@ == manifest_lines(titles.take(i as int)),
            refs@ == spine_lines(titles.take(i as int)),
            nav@ == nav_lines(titles.take(i as int)),
            ncx@ == ncx_lines(titles.take(i as int)),
        decreases docs.len() - i,
    {
        assert(titles.take(i + 1).drop_last() =~= titles.take(i as int));
        assert(titles.take(i + 1).last() == docs@[i as int].title@);
        let t = docs[i].title.as_str();
        append_str(&mut items, "<item id=\"ch");
        push_decimal(&mut items, i as u64);
        append_str(&mut items, "\" href=\"");
        push_chapter_file(&mut items, i);
        append_str(&mut items, "\" media-type=\"application/xhtml+xml\"/>\n");
        append_str(&mut refs, "<itemref idref=\"ch");
        push_decimal(&mut refs, i as u64);
        append_str(&mut refs, "\"/>\n");
        append_str(&mut nav, "<li><a href=\"");
        push_chapter_file(&mut nav, i);
        append_str(&mut nav, "\">");
        push_escaped(&mut nav, t);
        append_str(&mut nav, "</a></li>\n");
        append_str(&mut ncx, "<navPoint id=\"np");
        push_decimal(&mut ncx, i as u64);
        append_str(&mut ncx, "\" playOrder=\"");
        push_decimal(&mut ncx, (i + 1) as u64);
        append_str(&mut ncx, "\"><navLabel><text>");
        push_escaped(&mut ncx, t);
        append_str(&mut ncx, "</text></navLabel><content src=\"");
        push_chapter_file(&mut ncx, i);
        append_str(&mut ncx, "\"/></navPoint>\n");
        i += 1;
        assert(items@ =~= manifest_lines(titles.take(i as int)));
        assert(refs@ =~= spine_lines(titles.take(i as int)));
        assert(nav@ =~= nav_lines(titles.take(i as int)));
        assert(ncx@ =~= ncx_lines(titles.take(i as int)));
    }
    assert(titles.take(i as int) =~= titles);
    (items, refs, nav, ncx)
}

pub open spec fn doc_titles(docs: Seq<ContentDoc>) -> Seq<Seq<char>> {
    docs.map_values(|d: ContentDoc| d.title@)
}

pub const CONTAINER_XML: &'static str = "<?xml version=\"1.0\" encoding=\"utf-8\"?>\n<container version=\"1.0\" xmlns=\"urn:oasis:names:tc:opendocument:xmlns:container\">\n<rootfiles><rootfile full-path=\"OEBPS/content.opf\" media-type=\"application/oebps-package+xml\"/></rootfiles>\n</container>\n";

pub const STYLE_CSS: &'static str = "body{font-family:serif;line-height:1.6;margin:1.2em;}\n.ebtr-translation{margin:.45em 0;}\n";

/// Fixed modification stamp of generated packages.
pub const STAMP: &'static str = "2026-01-01T00:00:00Z";

/// The package document of a generated book.
pub open spec fn opf_of(title: Seq<char>, author: Seq<char>, code: Seq<char>, titles: Seq<Seq<char>>) -> Seq<char> {
    XML_HEAD@ + "<package xmlns=\"http://www.idpf.org/2007/opf\" version=\"3.0\" unique-identifier=\"bookid\">\n<metadata xmlns:dc=\"http://purl.org/dc/elements/1.1/\">\n<dc:identifier id=\"bookid\">urn:ebook-translator:"@
        + escaped(title + "-"@ + code) + "</dc:identifier>\n<dc:title>"@ + escaped(title) + "</dc:title>\n<dc:creator>"@
        + escaped(author) + "</dc:creator>\n<dc:language>"@ + code + "</dc:language>\n<meta property=\"dcterms:modified\">"@
        + STAMP@ + "</meta>\n</metadata>\n<manifest>\n<item id=\"nav\" href=\"nav.xhtml\" media-type=\"application/xhtml+xml\" properties=\"nav\"/>\n<item id=\"ncx\" href=\"toc.ncx\" media-type=\"application/x-dtbncx+xml\"/>\n<item id=\"css\" href=\"style.css\" media-type=\"text/css\"/>\n"@
        + manifest_lines(titles) + "</manifest>\n<spine toc=\"ncx\">\n"@ + spine_lines(titles) + "</spine>\n</package>\n"@
}

/// The navigation document of a generated book.
pub open spec fn nav_of(title: Seq<char>, titles: Seq<Seq<char>>) -> Seq<char> {
    xhtml_of(
        title,
        "<nav epub:type=\"toc\" xmlns:epub=\"http://www.idpf.org/2007/ops\">\n<h1>"@ + escaped(title) + "</h1>\n<ol>\n"@
            + nav_lines(titles) + "</ol>\n</nav>\n"@,
    )
}

/// The NCX of a generated book.
pub open spec fn ncx_of(title: Seq<char>, code: Seq<char>, titles: Seq<Seq<char>>) -> Seq<char> {
    XML_HEAD@ + "<ncx xmlns=\"http://www.daisy.org/z3986/2005/ncx/\" version=\"2005-1\">\n<head><meta name=\"dtb:uid\" content=\"urn:ebook-translator:"@
        + escaped(title + "-"@ + code) + "\"/></head>\n<docTitle><text>"@ + escaped(title) + "</text></docTitle>\n<navMap>\n"@
        + ncx_lines(titles) + "</navMap>\n</ncx>\n"@
}

/// The archive `zip::ZipWriter` makes of the entries written, in order
/// (stored or deflated), or the error's message.
pub uninterp spec fn zip_written(entries: Seq<(Seq<char>, Seq<u8>, bool)>) -> Result<Seq<u8>, Seq<char>>;

/// A zip archive being written in memory (`zip::ZipWriter` over a
/// `Cursor<Vec<u8>>`, which Verus cannot declare: its bounds name
/// `std::io` traits).
#[verifier::external_body]
pub struct ArchiveWriter {
    w: zip::ZipWriter<std::io::Cursor<Vec<u8>>>,
}

/// The entries a writer holds so far: name, content, stored or deflated.
pub uninterp spec fn zip_contents(w: ArchiveWriter) -> Seq<(Seq<char>, Seq<u8>, bool)>;

/// Calls `zip::ZipWriter::new` on an empty buffer. Claimed: it holds no entry.
#[verifier::external_body]
fn zip_writer() -> (w: ArchiveWriter)
    ensures
        zip_contents(w) == Seq::<(Seq<char>, Seq<u8>, bool)>::empty(),
{
    ArchiveWriter { w: zip::ZipWriter::new(std::io::Cursor::new(Vec::new())) }
}

/// Calls `start_file` (stored or deflated, with the fixed default
/// timestamp and Unix as the maker system, so that the bytes do not depend
/// on the build target) and `write_all` with the content. Claimed: on success the
/// entry follows the earlier ones; a refused entry (a duplicate name, say)
/// is where writing these entries in order fails, whatever follows.
#[verifier::external_body]
fn zip_add(w: &mut ArchiveWriter, name: &str, content: &[u8], stored: bool) -> (r: Result<(), String>)
    ensures
        r is Ok ==> zip_contents(*final(w)) == zip_contents(*old(w)).push((name@, content@, stored)),
        r is Err ==> forall|rest: Seq<(Seq<char>, Seq<u8>, bool)>| #[trigger] zip_written(zip_contents(*old(w)).push((name@, content@, stored)) + rest)
            == Err::<Seq<u8>, Seq<char>>(r->Err_0@),
{
    let method = if stored { zip::CompressionMethod::Stored } else { zip::CompressionMethod::Deflated };
    let opts = zip::write::SimpleFileOptions::default().compression_method(method).last_modified_time(zip::DateTime::default()).system(zip::System::Unix);
    w.w.start_file(name, opts).map_err(|e| e.to_string())?;
    std::io::Write::write_all(&mut w.w, content).map_err(|e| e.to_string())
}

/// Calls `finish` and takes the buffer. Claimed: the bytes (or the
/// error's message) are `zip_written` of the entries held.
#[verifier::external_body]
fn zip_finish(w: ArchiveWriter) -> (r: Result<Vec<u8>, String>)
    ensures
        match r {
            Ok(b) => zip_written(zip_contents(w)) == Ok::<_, Seq<char>>(b@),
            Err(e) => zip_written(zip_contents(w)) == Err::<Seq<u8>, _>(e@),
        },
{
    w.w.finish().map(|c| c.into_inner()).map_err(|e| e.to_string())
}

/// An archive entry: name, content, and whether it is stored uncompressed.
pub open spec fn entry_views(v: Seq<(String, Vec<u8>, bool)>) -> Seq<(Seq<char>, Seq<u8>, bool)> {
    v.map_values(|e: (String, Vec<u8>, bool)| (e.0@, e.1@, e.2))
}

/// Writes the entries, in order, into a new archive.
pub fn write_zip(entries: &Vec<(String, Vec<u8>, bool)>) -> (r: Result<Vec<u8>, String>)
    ensures
        match zip_written(entry_views(entries@)) {
            Ok(b) => r matches Ok(x) && x@ == b,
            Err(m) => r matches Err(e) && e@ == m,
        },
{
    let mut w = zip_writer();
    let ghost ev = entry_views(entries@);
    let mut i: usize = 0;
    while i < entries.len()
        invariant
            i <= entries@.len(),
            ev == entry_views(entries@),
            zip_contents(w) == ev.take(i as int),
        decreases entries.len() - i,
    {
        let (name, content, stored) = &entries[i];
        match zip_add(&mut w, name.as_str(), content.as_slice(), *stored) {
            Ok(()) => {},
            Err(e) => {
                proof {
                    assert(ev =~= ev.take(i as int).push(ev[i as int]) + ev.skip(i + 1));
                }
                return Err(e);
            },
        }
        i += 1;
        assert(ev.take(i as int) =~= ev.take(i - 1).push(ev[i - 1]));
    }
    assert(ev.take(i as int) =~= ev);
    zip_finish(w)
}

fn text_entry(name: &str, text: &str, stored: bool) -> (e: (String, Vec<u8>, bool))
    ensures
        e.0@ == name@,
        e.1@ == encode_utf8(text@),
        e.2 == stored,
{
    let mut bytes: Vec<u8> = Vec::new();
    let b = text.as_bytes();
    let mut i: usize = 0;
    while i < b.len()
        invariant
            i <= b@.len(),
            b@ == encode_utf8(text@),
            bytes@ == b@.take(i as int),
        decreases b.len() - i,
    {
        bytes.push(b[i]);
        i += 1;
        assert(bytes@ =~= b@.take(i as int));
    }
    assert(b@.take(i as int) =~= b@);
    (name.to_owned(), bytes, stored)
}

/// The entries of a generated book: `mimetype` first and stored, then the
/// container, package, navigation, NCX, style sheet and the chapters.
pub open spec fn new_epub_entries(
    title: Seq<char>,
    author: Seq<char>,
    lang: Seq<char>,
    docs: Seq<ContentDoc>,
    bilingual: bool,
) -> Seq<(Seq<char>, Seq<u8>, bool)> {
    let code = lang_code_of(lang);
    let titles = doc_titles(docs);
    seq![
        ("mimetype"@, encode_utf8("application/epub+zip"@), true),
        ("META-INF/container.xml"@, encode_utf8(CONTAINER_XML@), false),
        ("OEBPS/content.opf"@, encode_utf8(opf_of(title, author, code, titles)), false),
        ("OEBPS/nav.xhtml"@, encode_utf8(nav_of(title, titles)), false),
        ("OEBPS/toc.ncx"@, encode_utf8(ncx_of(title, code, titles)), false),
        ("OEBPS/style.css"@, encode_utf8(STYLE_CSS@), false),
    ] + Seq::new(
        docs.len(),
        |i: int| (
            "OEBPS/"@ + chapter_file(i as nat),
            encode_utf8(xhtml_of(docs[i].title@, blocks_html(docs[i]@.blocks, bilingual))),
            false,
        ),
    )
}

/// A new EPUB for a PDF's chapters.
pub fn build_new_epub(title: &str, author: &str, lang_name: &str, docs: &[ContentDoc], mode: &str) -> (r: Result<Vec<u8>, AppError>)
    ensures
        match zip_written(new_epub_entries(title@, author@, lang_name@, docs@, mode@ == MODE_BILINGUAL@)) {
            Ok(b) => r matches Ok(x) && x@ == b,
            Err(m) => r matches Err(e) && e.message@ == m,
        },
{
    let code = lang_code(lang_name);
    let (items, refs, nav_list, ncx_points) = chapter_lines(docs);
    let mut tc = chars_of(title);
    append_str(&mut tc, "-");
    append_str(&mut tc, code.as_str());
    let title_code = string_of(&tc);

    let mut opf = chars_of(XML_HEAD);
    append_str(&mut opf, "<package xmlns=\"http://www.idpf.org/2007/opf\" version=\"3.0\" unique-identifier=\"bookid\">\n<metadata xmlns:dc=\"http://purl.org/dc/elements/1.1/\">\n<dc:identifier id=\"bookid\">urn:ebook-translator:");
    push_escaped(&mut opf, title_code.as_str());
    append_str(&mut opf, "</dc:identifier>\n<dc:title>");
    push_escaped(&mut opf, title);
    append_str(&mut opf, "</dc:title>\n<dc:creator>");
    push_escaped(&mut opf, author);
    append_str(&mut opf, "</dc:creator>\n<dc:language>");
    append_str(&mut opf, code.as_str());
    append_str(&mut opf, "</dc:language>\n<meta property=\"dcterms:modified\">");
    append_str(&mut opf, STAMP);
    append_str(&mut opf, "</meta>\n</metadata>\n<manifest>\n<item id=\"nav\" href=\"nav.xhtml\" media-type=\"application/xhtml+xml\" properties=\"nav\"/>\n<item id=\"ncx\" href=\"toc.ncx\" media-type=\"application/x-dtbncx+xml\"/>\n<item id=\"css\" href=\"style.css\" media-type=\"text/css\"/>\n");
    append_seq(&mut opf, &items);
    append_str(&mut opf, "</manifest>\n<spine toc=\"ncx\">\n");
    append_seq(&mut opf, &refs);
    append_str(&mut opf, "</spine>\n</package>\n");

    let mut nav_body = chars_of("<nav epub:type=\"toc\" xmlns:epub=\"http://www.idpf.org/2007/ops\">\n<h1>");
    push_escaped(&mut nav_body, title);
    append_str(&mut nav_body, "</h1>\n<ol>\n");
    append_seq(&mut nav_body, &nav_list);
    append_str(&mut nav_body, "</ol>\n</nav>\n");
    let nav = xhtml_doc(title, string_of(&nav_body).as_str());

    let mut ncx = chars_of(XML_HEAD);
    append_str(&mut ncx, "<ncx xmlns=\"http://www.daisy.org/z3986/2005/ncx/\" version=\"2005-1\">\n<head><meta name=\"dtb:uid\" content=\"urn:ebook-translator:");
    push_escaped(&mut ncx, title_code.as_str());
    append_str(&mut ncx, "\"/></head>\n<docTitle><text>");
    push_escaped(&mut ncx, title);
    append_str(&mut ncx, "</text></docTitle>\n<navMap>\n");
    append_seq(&mut ncx, &ncx_points);
    append_str(&mut ncx, "</navMap>\n</ncx>\n");

    let mut entries: Vec<(String, Vec<u8>, bool)> = Vec::new();
    entries.push(text_entry("mimetype", "application/epub+zip", true));
    entries.push(text_entry("META-INF/container.xml", CONTAINER_XML, false));
    entries.push(text_entry("OEBPS/content.opf", string_of(&opf).as_str(), false));
    entries.push(text_entry("OEBPS/nav.xhtml", nav.as_str(), false));
    entries.push(text_entry("OEBPS/toc.ncx", string_of(&ncx).as_str(), false));
    entries.push(text_entry("OEBPS/style.css", STYLE_CSS, false));
    let ghost head = entry_views(entries@);
    let ghost expected = new_epub_entries(title@, author@, lang_name@, docs@, mode@ == MODE_BILINGUAL@);
    assert(head =~= expected.take(6));
    let mut i: usize = 0;
    while i < docs.len()
        invariant
            i <= docs@.len(),
            expected == new_epub_entries(title@, author@, lang_name@, docs@, mode@ == MODE_BILINGUAL@),
            entry_views(entries@) == expected.take(6 + i),
        decreases docs.len() - i,
    {
        let mut name = chars_of("OEBPS/");
        push_chapter_file(&mut name, i);
        let body = paragraphs_html(&docs[i].blocks, mode);
        let page = xhtml_doc(docs[i].title.as_str(), body.as_str());
        let e = text_entry(string_of(&name).as_str(), page.as_str(), false);
        let ghost prev = entry_views(entries@);
        entries.push(e);
        assert(entry_views(entries@) =~= prev.push((e.0@, e.1@, e.2)));
        i += 1;
        assert(expected.take(6 + i) =~= expected.take(6 + i - 1).push(expected[6 + i - 1]));
    }
    assert(expected.take(6 + i) =~= expected);
    match write_zip(&entries) {
        Ok(b) => Ok(b),
        Err(e) => Err(AppError::from_string(e)),
    }
}

/// The entry names of an archive, in its directory's order, or why it
/// does not open.
pub uninterp spec fn zip_names(archive: Seq<u8>) -> Result<Seq<Seq<char>>, Seq<char>>;

/// Opens the archive with `zip::ZipArchive::new` and lists `file_names()`.
/// Claimed: the names (or the error's message) are a function of the bytes.
#[verifier::external_body]
fn entry_names(archive: &[u8]) -> (r: Result<Vec<String>, String>)
    ensures
        match r {
            Ok(v) => zip_names(archive@) == Ok::<_, Seq<char>>(crate::job::views_of(v@)),
            Err(e) => zip_names(archive@) == Err::<Seq<Seq<char>>, _>(e@),
        },
{
    zip::ZipArchive::new(std::io::Cursor::new(archive))
        .and_then(|z| z.file_names().map(|n| n.map(|c| c.into_owned())).collect())
        .map_err(|e| e.to_string())
}

/// The key an archive entry is matched under: its decoded, resolved path.
pub open spec fn entry_key(name: Seq<char>) -> Seq<char> {
    crate::epub::normalized(seq![], name)
}

/// The rewritten document for an entry: by its name, else by its key.
pub open spec fn replacement_for(reps: Seq<(Seq<char>, Seq<char>)>, name: Seq<char>) -> Option<Seq<char>> {
    match crate::package::title_for(reps, name) {
        Some(h) => Some(h),
        None => crate::package::title_for(reps, entry_key(name)),
    }
}

/// The entries after `mimetype` of the repacked archive (each deflated,
/// rewritten or copied), with how many were rewritten; an unreadable
/// original entry stops it.
pub open spec fn repacked(archive: Seq<u8>, names: Seq<Seq<char>>, reps: Seq<(Seq<char>, Seq<char>)>) -> Result<(Seq<(Seq<char>, Seq<u8>, bool)>, nat), Seq<char>>
    decreases names.len(),
{
    if names.len() == 0 {
        Ok((seq![], 0))
    } else {
        match repacked(archive, names.drop_last(), reps) {
            Err(m) => Err(m),
            Ok((es, n)) => {
                let name = names.last();
                if name == "mimetype"@ {
                    Ok((es, n))
                } else {
                    match replacement_for(reps, name) {
                        Some(h) => Ok((es.push((name, encode_utf8(h), false)), n + 1)),
                        None => match crate::package::zip_entry(archive, name) {
                            Some(b) => Ok((es.push((name, b, false)), n)),
                            None => Err("could not read "@ + name + " from the archive"@),
                        },
                    }
                }
            },
        }
    }
}

fn replacement_of(reps: &Vec<(String, String)>, name: &str) -> (r: Option<String>)
    ensures
        crate::types::opt_view(r) == replacement_for(crate::package::pair_views(reps@), name@),
{
    match crate::package::title_of(reps, name) {
        Some(h) => Some(h),
        None => {
            let key = crate::epub::normalize_path("", name);
            proof { reveal_strlit(""); assert(""@ =~= Seq::<char>::empty()); }
            crate::package::title_of(reps, key.as_str())
        },
    }
}

/// Rebuilds the original EPUB with rewritten documents (keyed by entry
/// path) swapped in: `mimetype` first and stored, every other entry in the
/// original order. Also returns how many rewritten documents matched no
/// entry.
pub fn repack(original: &[u8], replacements: &Vec<(String, String)>) -> (r: Result<(Vec<u8>, usize), AppError>)
    ensures
        match zip_names(original@) {
            Err(m) => r matches Err(e) && e.message@ == m,
            Ok(names) => match repacked(original@, names, crate::package::pair_views(replacements@)) {
                Err(m) => r matches Err(e) && e.message@ == m,
                Ok((es, n)) => match zip_written(seq![("mimetype"@, encode_utf8("application/epub+zip"@), true)] + es) {
                    Ok(b) => r matches Ok((x, missed)) && x@ == b && missed == if replacements@.len() >= n {
                        replacements@.len() - n
                    } else {
                        0
                    },
                    Err(m) => r matches Err(e) && e.message@ == m,
                },
            },
        },
{
    let names = match entry_names(original) {
        Ok(n) => n,
        Err(e) => {
            return Err(AppError::from_string(e));
        },
    };
    let ghost nv = crate::job::views_of(names@);
    let ghost rv = crate::package::pair_views(replacements@);
    let mut entries: Vec<(String, Vec<u8>, bool)> = Vec::new();
    entries.push(text_entry("mimetype", "application/epub+zip", true));
    let ghost head = entry_views(entries@);
    let mut applied: usize = 0;
    let mut i: usize = 0;
    assert(entry_views(entries@) =~= head + Seq::<(Seq<char>, Seq<u8>, bool)>::empty());
    while i < names.len()
        invariant
            i <= names@.len(),
            nv == crate::job::views_of(names@),
            zip_names(original@) == Ok::<Seq<Seq<char>>, Seq<char>>(nv),
            rv == crate::package::pair_views(replacements@),
            head == seq![("mimetype"@, encode_utf8("application/epub+zip"@), true)],
            applied <= i,
            repacked(original@, nv.take(i as int), rv) matches Ok((es, n)) && entry_views(entries@) == head + es
                && n == applied,
        decreases names.len() - i,
    {
        assert(nv.take(i + 1).drop_last() =~= nv.take(i as int));
        assert(nv.take(i + 1).last() == names@[i as int]@);
        let name = names[i].as_str();
        let ghost before = entry_views(entries@);
        if !crate::text::eq_str(&chars_of(name), "mimetype") {
            match replacement_of(replacements, name) {
                Some(h) => {
                    let e = text_entry(name, h.as_str(), false);
                    entries.push(e);
                    applied += 1;
                    assert(entry_views(entries@) =~= before.push((e.0@, e.1@, e.2)));
                },
                None => match crate::package::read_entry(original, name) {
                    Some(b) => {
                        let e = (name.to_owned(), b, false);
                        entries.push(e);
                        assert(entry_views(entries@) =~= before.push((name@, b@, false)));
                    },
                    None => {
                        let mut m = chars_of("could not read ");
                        append_str(&mut m, name);
                        append_str(&mut m, " from the archive");
                        proof {
                            assert(name@ != "mimetype"@);
                            assert(repacked(original@, nv.take(i + 1), rv) == Err::<(Seq<(Seq<char>, Seq<u8>, bool)>, nat), Seq<char>>(m@));
                            lemma_repacked_err(original@, nv, rv, i + 1);
                            assert(zip_names(original@) == Ok::<Seq<Seq<char>>, Seq<char>>(nv));
                            assert(repacked(original@, nv, rv) == Err::<(Seq<(Seq<char>, Seq<u8>, bool)>, nat), Seq<char>>(m@));
                        }
                        return Err(AppError::from_string(string_of(&m)));
                    },
                },
            }
        }
        i += 1;
    }
    assert(nv.take(i as int) =~= nv);
    let missed = if replacements.len() >= applied {
        replacements.len() - applied
    } else {
        0
    };
    match write_zip(&entries) {
        Ok(b) => Ok((b, missed)),
        Err(e) => Err(AppError::from_string(e)),
    }
}

proof fn lemma_repacked_err(archive: Seq<u8>, names: Seq<Seq<char>>, reps: Seq<(Seq<char>, Seq<char>)>, k: int)
    requires
        0 <= k <= names.len(),
        repacked(archive, names.take(k), reps) is Err,
    ensures
        repacked(archive, names, reps) == repacked(archive, names.take(k), reps),
    decreases names.len() - k,
{
    if k < names.len() {
        assert(names.take(k + 1).drop_last() =~= names.take(k));
        lemma_repacked_err(archive, names, reps, k + 1);
    } else {
        assert(names.take(k) =~= names);
    }
}

/// A translated block's markup in a generated chapter, appended after the
/// blocks before it: in a translated-only book its translation alone
/// replaces the text; in a bilingual book the text comes first, then the
/// translation in its own marked paragraph. An untranslated block shows
/// its text in either mode.
pub proof fn chapter_markup_follows_mode(bs: Seq<BlockView>, b: BlockView)
    ensures
        !b.skipped && b.translation is Some ==> blocks_html(bs.push(b), false)
            == blocks_html(bs, false) + "<p>"@ + escaped(b.translation->0) + "</p>\n"@,
        !b.skipped && b.translation is Some ==> blocks_html(bs.push(b), true)
            == blocks_html(bs, true) + "<p>"@ + escaped(b.text) + "</p>\n<p class=\"ebtr-translation\">"@
            + escaped(b.translation->0) + "</p>\n"@,
        !b.skipped && b.translation is None ==> blocks_html(bs.push(b), false)
            == blocks_html(bs, false) + "<p>"@ + escaped(b.text) + "</p>\n"@,
        !b.skipped && b.translation is None ==> blocks_html(bs.push(b), true)
            == blocks_html(bs, true) + "<p>"@ + escaped(b.text) + "</p>\n"@,
        blocks_html(seq![], false) == Seq::<char>::empty(),
        blocks_html(seq![], true) == Seq::<char>::empty(),
{
    assert(bs.push(b).drop_last() =~= bs);
}

/// A generated book holds its six fixed entries and then one chapter
/// file per document, in order: file `i` is `OEBPS/` and the chapter's
/// name, and holds document `i`'s title and its blocks' markup in the
/// mode the book was asked for (bilingual or translated-only).
pub proof fn chapter_files_follow_mode(
    title: Seq<char>,
    author: Seq<char>,
    lang: Seq<char>,
    docs: Seq<ContentDoc>,
    bilingual: bool,
    i: int,
)
    requires
        0 <= i < docs.len(),
    ensures
        new_epub_entries(title, author, lang, docs, bilingual).len() == 6 + docs.len(),
        new_epub_entries(title, author, lang, docs, bilingual)[6 + i] == (
            "OEBPS/"@ + chapter_file(i as nat),
            encode_utf8(xhtml_of((docs[i]).title@, blocks_html((docs[i]@).blocks, bilingual))),
            false,
        ),
{
}

} // verus!
