use ebook_translator::cache::TranslationCache;
use ebook_translator::commands::{api_key_to_test, book_kind, check_job_request, estimate_requests, output_path, BookKind};
use ebook_translator::job::build_batches;
use ebook_translator::settings::Settings;
use ebook_translator::types::{is_translatable, valid_mode, Block, ContentDoc, JobOptions};

fn options(mode: &str, lang: &str) -> JobOptions {
    JobOptions { target_lang: lang.into(), mode: mode.into(), model: "m".into(), custom_instructions: String::new() }
}

#[test]
fn checks_job_requests_in_order() {
    assert_eq!(check_job_request(&options("other", ""), "", false).unwrap_err().text(), "invalid mode");
    assert_eq!(check_job_request(&options("bilingual", "  "), "", false).unwrap_err().text(), "choose a target language");
    assert_eq!(
        check_job_request(&options("translated", "Thai"), " ", false).unwrap_err().text(),
        "set your Google AI Studio API key in Settings first"
    );
    assert_eq!(check_job_request(&options("translated", "Thai"), "k", false).unwrap_err().text(), "load a book first");
    assert!(check_job_request(&options("bilingual", "Thai"), "k", true).is_ok());
    assert!(valid_mode("translated") && !valid_mode("Bilingual"));
}

#[test]
fn tests_trimmed_keys_only() {
    assert_eq!(api_key_to_test("  ").unwrap_err().text(), "enter an API key first");
    assert_eq!(api_key_to_test(" abc \n").unwrap(), "abc");
}

#[test]
fn names_output_files() {
    assert_eq!(output_path("/tmp/book"), "/tmp/book.epub");
    assert_eq!(output_path("/tmp/Book.EPUB"), "/tmp/Book.EPUB");
    assert_eq!(output_path("/tmp/a.epub.txt"), "/tmp/a.epub.txt.epub");
}

#[test]
fn picks_the_reader() {
    assert_eq!(book_kind(b"PK\x03\x04...").unwrap(), BookKind::Epub);
    assert_eq!(book_kind(b"%PDF-1.4").unwrap(), BookKind::Pdf);
    assert_eq!(book_kind(b"hello").unwrap_err().text(), "unsupported file — pick an EPUB or PDF");
}

#[test]
fn estimates_requests_net_of_cache() {
    let block = |t: &str| Block { text: t.into(), skipped: !is_translatable(t), translation: None, tag: "p".into(), parts: Vec::new() };
    let docs = vec![
        ContentDoc { path: "a".into(), title: "a".into(), html: String::new(), blocks: vec![block("one paragraph"), block("two paragraph")] },
    ];
    let batches = build_batches(&docs, "gemini-3.5-flash-lite");
    let mut cache = TranslationCache::new();
    let p = TranslationCache::prefix("gemini-3.5-flash-lite", "Thai", "");
    let e = estimate_requests(&batches, &cache, &p);
    assert_eq!((e.requests, e.cached_batches), (1, 0));
    cache.put(&p, "one paragraph", "x");
    let e = estimate_requests(&batches, &cache, &p);
    assert_eq!((e.requests, e.cached_batches), (1, 0));
    cache.put(&p, "two paragraph", "y");
    let e = estimate_requests(&batches, &cache, &p);
    assert_eq!((e.requests, e.cached_batches), (0, 1));
}

#[test]
fn default_settings() {
    let s = Settings::default();
    assert_eq!(s.api_key, "");
    assert_eq!(s.model, "gemini-3.5-flash-lite");
    assert_eq!(s.mode, "bilingual");
    assert!(s.auto_switch_model);
    let o = JobOptions::default();
    assert_eq!(o.target_lang, "Burmese");
}
