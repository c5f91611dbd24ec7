//! Book, document and job data shared by the parsers and the job runner.
use vstd::prelude::*;
use crate::text::{alphabetic, chars_of, is_alphabetic, trim, trim_chars, eq_str};

verus! {

broadcast use vstd::string::group_string_axioms;

/// Book overview returned to the UI after loading a file.
#[derive(Debug, Clone)]
pub struct BookInfo {
    /// "epub" or "pdf".
    pub format: String,
    pub file_path: String,
    pub file_name: String,
    pub title: String,
    pub author: String,
    pub cover_data_url: Option<String>,
    pub total_chars: usize,
    pub segments: Vec<SegmentInfo>,
    /// Notes about how the book was read (fallback readers, dropped lines).
    pub warnings: Vec<String>,
}

#[derive(Debug, Clone)]
pub struct SegmentInfo {
    pub id: String,
    pub title: String,
    pub blocks: usize,
    pub chars: usize,
}

#[derive(Debug, Clone)]
pub struct JobOptions {
    pub target_lang: String,
    /// "bilingual" or "translated".
    pub mode: String,
    pub model: String,
    pub custom_instructions: String,
}

impl Default for JobOptions {
    fn default() -> (o: Self)
        ensures
            o.target_lang@ == "Burmese"@,
            o.mode@ == MODE_BILINGUAL@,
            o.model@ == "gemini-3.5-flash-lite"@,
            o.custom_instructions@ == Seq::<char>::empty(),
    {
        JobOptions {
            target_lang: "Burmese".to_string(),
            mode: MODE_BILINGUAL.to_string(),
            model: "gemini-3.5-flash-lite".to_string(),
            custom_instructions: String::new(),
        }
    }
}

#[derive(Debug, Clone)]
pub struct SegmentStatus {
    pub id: String,
    pub title: String,
    /// pending | active | done
    pub state: String,
    pub done: usize,
    pub total: usize,
}

#[derive(Debug, Clone)]
pub struct JobProgress {
    /// running | completed | cancelled | failed
    pub status: String,
    pub segments: Vec<SegmentStatus>,
    pub batches_total: usize,
    pub batches_done: usize,
    pub batches_failed: usize,
    pub chars_done: usize,
    pub chars_total: usize,
    pub tokens_used: u64,
    pub error: Option<String>,
    pub output_ready: bool,
}

/// A single translatable text block inside a content document.
#[derive(Debug, Clone, Default)]
pub struct Block {
    pub text: String,
    /// Blocks that are too short / numeric-only are skipped entirely.
    pub skipped: bool,
    pub translation: Option<String>,
    /// Original tag name (p, li, td, ...), used to pick the sibling tag for
    /// bilingual insertion so lists and tables stay valid.
    pub tag: String,
    /// Translated parts of a block that was split for the request budget,
    /// held until every part has arrived.
    pub parts: Vec<Option<String>>,
}

/// One content document (a spine XHTML file for EPUB, a generated chapter for PDF).
#[derive(Debug, Clone)]
pub struct ContentDoc {
    /// Zip entry path for EPUB, chapter id for PDF.
    pub path: String,
    pub title: String,
    pub html: String,
    pub blocks: Vec<Block>,
}

/// A book fully loaded in memory, ready for translation and assembly.
pub struct LoadedBook {
    pub info: BookInfo,
    pub source: BookSource,
}

pub enum BookSource {
    /// Original EPUB bytes; spine documents parsed into `docs`.
    Epub { bytes: Vec<u8>, docs: Vec<ContentDoc> },
    /// Original PDF bytes; content converted to synthesized chapter documents.
    Pdf { bytes: Vec<u8>, docs: Vec<ContentDoc> },
}

pub const MODE_BILINGUAL: &'static str = "bilingual";

pub const MODE_TRANSLATED: &'static str = "translated";

/// Worth translating: at least two characters once trimmed, one of them a
/// letter (digits-only blocks are page numbers and the like).
pub open spec fn translatable(text: Seq<char>) -> bool {
    let t = trim(text);
    t.len() >= 2 && exists|i: int| 0 <= i < t.len() && alphabetic(#[trigger] t[i])
}

/// A block is worth translating when it has at least 2 characters and
/// contains at least one letter (digits-only blocks are page numbers etc.).
pub fn is_translatable(text: &str) -> (r: bool)
    ensures
        r == translatable(text@),
{
    let c = chars_of(text);
    let t = trim_chars(&c);
    if t.len() < 2 {
        return false;
    }
    let mut i: usize = 0;
    while i < t.len()
        invariant
            i <= t.len(),
            t@ == trim(text@),
            t.len() >= 2,
            forall|j: int| 0 <= j < i ==> !alphabetic(#[trigger] t@[j]),
        decreases t.len() - i,
    {
        if is_alphabetic(t[i]) {
            assert(alphabetic(trim(text@)[i as int]));
            return true;
        }
        i += 1;
    }
    false
}

pub open spec fn mode_valid(mode: Seq<char>) -> bool {
    mode == MODE_BILINGUAL@ || mode == MODE_TRANSLATED@
}

pub fn valid_mode(mode: &str) -> (r: bool)
    ensures
        r == mode_valid(mode@),
{
    let m = chars_of(mode);
    eq_str(&m, MODE_BILINGUAL) || eq_str(&m, MODE_TRANSLATED)
}

pub open spec fn book_docs(book: LoadedBook) -> Seq<ContentDoc> {
    match book.source {
        BookSource::Epub { docs, .. } => docs@,
        BookSource::Pdf { docs, .. } => docs@,
    }
}

pub fn docs_of(book: &LoadedBook) -> (r: &Vec<ContentDoc>)
    ensures
        r@ == book_docs(*book),
{
    match &book.source {
        BookSource::Epub { docs, .. } => docs,
        BookSource::Pdf { docs, .. } => docs,
    }
}

pub fn docs_of_mut(book: &mut LoadedBook) -> (r: &mut Vec<ContentDoc>)
    ensures
        r@ == book_docs(*old(book)),
        book_docs(*final(book)) == final(r)@,
        final(book).info == old(book).info,
{
    match &mut book.source {
        BookSource::Epub { docs, .. } => docs,
        BookSource::Pdf { docs, .. } => docs,
    }
}

} // verus!

verus! {

/// What a block holds, as character sequences.
pub struct BlockView {
    pub text: Seq<char>,
    pub skipped: bool,
    pub translation: Option<Seq<char>>,
    pub tag: Seq<char>,
    pub parts: Seq<Option<Seq<char>>>,
}

pub open spec fn opt_view(o: Option<String>) -> Option<Seq<char>> {
    match o {
        Some(s) => Some(s@),
        None => None,
    }
}

impl View for Block {
    type V = BlockView;

    open spec fn view(&self) -> BlockView {
        BlockView {
            text: self.text@,
            skipped: self.skipped,
            translation: opt_view(self.translation),
            tag: self.tag@,
            parts: self.parts@.map_values(|p: Option<String>| opt_view(p)),
        }
    }
}

/// What a content document holds, as character sequences.
pub struct DocView {
    pub path: Seq<char>,
    pub title: Seq<char>,
    pub html: Seq<char>,
    pub blocks: Seq<BlockView>,
}

impl View for ContentDoc {
    type V = DocView;

    open spec fn view(&self) -> DocView {
        DocView {
            path: self.path@,
            title: self.title@,
            html: self.html@,
            blocks: self.blocks@.map_values(|b: Block| b@),
        }
    }
}

pub open spec fn doc_views(docs: Seq<ContentDoc>) -> Seq<DocView> {
    docs.map_values(|d: ContentDoc| d@)
}

} // verus!
