use ebook_translator::cache::{key, to_hex, TranslationCache};
use ebook_translator::job::resume_key;
use ebook_translator::types::{BookInfo, BookSource, LoadedBook};

#[test]
fn round_trips_and_is_context_scoped() {
    let mut c = TranslationCache::new();
    let p = TranslationCache::prefix("model-a", "Burmese", "");
    assert!(c.get(&p, "hello world").is_none());
    assert!(c.put(&p, "hello world", "မင်္ဂလာပါ").is_some());
    assert_eq!(c.get(&p, "hello world").as_deref(), Some("မင်္ဂလာပါ"));
    assert!(c.put(&p, "hello world", "မင်္ဂလာပါ").is_none(), "an unchanged entry writes nothing");
    assert_eq!(c.len(), 1);
    for q in [
        TranslationCache::prefix("model-b", "Burmese", ""),
        TranslationCache::prefix("model-a", "English", ""),
        TranslationCache::prefix("model-a", "Burmese", "formal tone"),
    ] {
        assert!(c.get(&q, "hello world").is_none());
    }
    assert_eq!(TranslationCache::prefix("m", "l", "  "), TranslationCache::prefix("m", "l", ""));
    c.clear();
    assert!(c.get(&p, "hello world").is_none());
}

#[test]
fn reloads_entries_from_lines() {
    let p = TranslationCache::prefix("m", "l", "");
    let k = key(&p, "text");
    let mut c = TranslationCache::new();
    c.load_line(&format!("{{\"k\":\"{k}\",\"t\":\"first\"}}"));
    c.load_line("not json");
    c.load_line("{\"k\":1}");
    c.load_line(&format!("{{\"k\":\"{k}\",\"t\":\"second\"}}"));
    assert_eq!(c.len(), 1);
    assert_eq!(c.get(&p, "text").as_deref(), Some("second"));
}

#[test]
fn keys_are_lowercase_hex_digests() {
    assert_eq!(to_hex(&[0x00, 0xab, 0x7f]), "00ab7f");
    let p = TranslationCache::prefix("m", "l", "");
    assert_eq!(p.len(), 16);
    let k = key(&p, "x");
    assert_eq!(k.len(), 64);
    assert!(k.chars().all(|c| c.is_ascii_hexdigit() && !c.is_ascii_uppercase()));
}

fn book(bytes: &[u8]) -> LoadedBook {
    LoadedBook {
        info: BookInfo {
            format: "epub".into(),
            file_path: "/tmp/x.epub".into(),
            file_name: "x.epub".into(),
            title: "x".into(),
            author: String::new(),
            cover_data_url: None,
            total_chars: 0,
            segments: Vec::new(),
            warnings: Vec::new(),
        },
        source: BookSource::Epub { bytes: bytes.to_vec(), docs: Vec::new() },
    }
}

#[test]
fn resume_key_reflects_instructions() {
    let book = book(b"same bytes");
    let base = resume_key(&book, "gemini-3.5-flash-lite", "Burmese", "");
    assert_eq!(base, resume_key(&book, "gemini-3.5-flash-lite", "Burmese", "  "));
    assert_ne!(base, resume_key(&book, "gemini-3.5-flash-lite", "Burmese", "formal tone"));
    assert_ne!(base, resume_key(&book, "gemini-3.5-flash", "Burmese", ""));
}

#[test]
fn resume_key_layout() {
    let k = resume_key(&book(b""), "m", "Thai", "");
    // sha256("") then the model, language, budget and block cap
    assert!(k.starts_with("e3b0c44298fc1c149afbf4c8996fb92427ae41e4649b934ca495991b7852b855-m-Thai-10000-100-"));
    assert!(k.ends_with("-e3b0c442"));
}
