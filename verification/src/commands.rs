//! The decisions behind the app's commands: request checks, output
//! naming, request estimates, and the results handed back.
use vstd::prelude::*;
use crate::error::AppError;
use crate::text::{append_str, chars_of, ends_with, lowercase, string_of, to_lowercase, trim, trim_chars};
use crate::types::{JobOptions, mode_valid, valid_mode};

verus! {

broadcast use vstd::string::group_string_axioms;

pub struct TestKeyResult {
    pub reply: String,
    pub model: String,
    pub latency_ms: u128,
}

pub struct SaveResult {
    pub path: String,
    pub bytes: usize,
}

pub struct EstimateResult {
    /// Requests the job will actually send (fully cached batches excluded).
    pub requests: usize,
    /// Batches every segment of which is already in the translation cache.
    pub cached_batches: usize,
}

pub struct CacheStatsResult {
    pub entries: usize,
    pub bytes: u64,
}

/// The key to test: the trimmed input, which must not be empty.
pub fn api_key_to_test(api_key: &str) -> (r: Result<String, AppError>)
    ensures
        trim(api_key@).len() == 0 <==> r is Err,
        r matches Ok(k) ==> k@ == trim(api_key@),
        r matches Err(e) ==> e.message@ == "enter an API key first"@,
{
    let t = trim_chars(&chars_of(api_key));
    if t.len() == 0 {
        return Err(AppError::msg("enter an API key first"));
    }
    Ok(string_of(&t))
}

/// Why a job cannot start, checked in order: the mode, the language,
/// the API key, the loaded book.
pub open spec fn job_refusal(mode: Seq<char>, lang: Seq<char>, api_key: Seq<char>, book_loaded: bool) -> Option<Seq<char>> {
    if !mode_valid(mode) {
        Some("invalid mode"@)
    } else if trim(lang).len() == 0 {
        Some("choose a target language"@)
    } else if trim(api_key).len() == 0 {
        Some("set your Google AI Studio API key in Settings first"@)
    } else if !book_loaded {
        Some("load a book first"@)
    } else {
        None
    }
}

/// Checks a job request before it starts.
pub fn check_job_request(options: &JobOptions, api_key: &str, book_loaded: bool) -> (r: Result<(), AppError>)
    ensures
        match job_refusal(options.mode@, options.target_lang@, api_key@, book_loaded) {
            Some(m) => r matches Err(e) && e.message@ == m,
            None => r is Ok,
        },
{
    if !valid_mode(options.mode.as_str()) {
        return Err(AppError::msg("invalid mode"));
    }
    if trim_chars(&chars_of(options.target_lang.as_str())).len() == 0 {
        return Err(AppError::msg("choose a target language"));
    }
    if trim_chars(&chars_of(api_key)).len() == 0 {
        return Err(AppError::msg("set your Google AI Studio API key in Settings first"));
    }
    if !book_loaded {
        return Err(AppError::msg("load a book first"));
    }
    Ok(())
}

/// Where the output goes: the chosen path, with `.epub` added unless it
/// already ends so (in any case).
pub open spec fn output_path_of(path: Seq<char>) -> Seq<char> {
    if ends_with(lowercase(path), ".epub"@) {
        path
    } else {
        path + ".epub"@
    }
}

pub fn output_path(path: &str) -> (r: String)
    ensures
        r@ == output_path_of(path@),
{
    let lower = chars_of(to_lowercase(path).as_str());
    let ext = chars_of(".epub");
    let mut out = chars_of(path);
    if !crate::text::has_suffix(&lower, &ext) {
        append_str(&mut out, ".epub");
    }
    string_of(&out)
}

/// Which reader a file goes to.
#[derive(Debug, Clone, Copy, PartialEq, Eq)]
pub enum BookKind {
    Epub,
    Pdf,
}

/// EPUB when the bytes start like a zip archive, else PDF when they start
/// like one; anything else is refused.
pub fn book_kind(bytes: &[u8]) -> (r: Result<BookKind, AppError>)
    ensures
        crate::epub::epub_signature(bytes@) ==> r matches Ok(BookKind::Epub),
        !crate::epub::epub_signature(bytes@) && crate::pdf::pdf_signature(bytes@) ==> r matches Ok(BookKind::Pdf),
        !crate::epub::epub_signature(bytes@) && !crate::pdf::pdf_signature(bytes@) ==> (r matches Err(e)
            && e.message@ == "unsupported file — pick an EPUB or PDF"@),
{
    if crate::epub::is_epub(bytes) {
        return Ok(BookKind::Epub);
    }
    if crate::pdf::is_pdf(bytes) {
        return Ok(BookKind::Pdf);
    }
    Err(AppError::msg("unsupported file — pick an EPUB or PDF"))
}

/// Whether every item of a batch is already cached under the prefix.
pub open spec fn batch_cached(cache: Seq<(Seq<char>, Seq<char>)>, prefix: Seq<char>, items: Seq<crate::job::ItemView>) -> bool {
    forall|k: int| 0 <= k < items.len() ==> crate::cache::lookup(cache, crate::cache::cache_key(prefix, #[trigger] items[k].text)) is Some
}

/// Number of batches every item of which is cached.
pub open spec fn cached_count(cache: Seq<(Seq<char>, Seq<char>)>, prefix: Seq<char>, batches: Seq<crate::job::BatchView>) -> nat
    decreases batches.len(),
{
    if batches.len() == 0 {
        0
    } else {
        cached_count(cache, prefix, batches.drop_last()) + if batch_cached(cache, prefix, batches.last().items) { 1nat } else { 0 }
    }
}

proof fn lemma_cached_count_le(cache: Seq<(Seq<char>, Seq<char>)>, prefix: Seq<char>, batches: Seq<crate::job::BatchView>)
    ensures
        cached_count(cache, prefix, batches) <= batches.len(),
    decreases batches.len(),
{
    if batches.len() > 0 {
        lemma_cached_count_le(cache, prefix, batches.drop_last());
    }
}

/// Requests a book needs: its batches, less those fully covered by the
/// translation cache.
pub fn estimate_requests(
    batches: &Vec<crate::job::Batch>,
    cache: &crate::cache::TranslationCache,
    prefix: &str,
) -> (r: EstimateResult)
    ensures
        r.cached_batches == cached_count(cache.view_entries(), prefix@, crate::job::batch_views(batches@)),
        r.requests == batches@.len() - r.cached_batches,
{
    let ghost bv = crate::job::batch_views(batches@);
    let mut cached: usize = 0;
    let mut i: usize = 0;
    while i < batches.len()
        invariant
            i <= batches@.len(),
            bv == crate::job::batch_views(batches@),
            cached == cached_count(cache.view_entries(), prefix@, bv.take(i as int)),
            cached <= i,
        decreases batches.len() - i,
    {
        assert(bv.take(i + 1).drop_last() =~= bv.take(i as int));
        let items = &batches[i].items;
        let ghost iv = bv[i as int].items;
        let mut all = true;
        let mut k: usize = 0;
        while k < items.len()
            invariant
                k <= items@.len(),
                iv == items@.map_values(|x: crate::job::BatchItem| x@),
                all == forall|j: int| 0 <= j < k ==> crate::cache::lookup(cache.view_entries(), crate::cache::cache_key(prefix@, #[trigger] iv[j].text)) is Some,
            decreases items.len() - k,
        {
            let got = cache.get(prefix, items[k].text.as_str());
            assert(iv[k as int] == items@[k as int]@);
            assert(crate::types::opt_view(got) is Some <==> got is Some);
            assert((crate::cache::lookup(cache.view_entries(), crate::cache::cache_key(prefix@, iv[k as int].text)) is Some) == (got is Some));
            if got.is_none() {
                all = false;
            }
            k += 1;
            assert(all == forall|j: int| 0 <= j < k ==> crate::cache::lookup(cache.view_entries(), crate::cache::cache_key(prefix@, #[trigger] iv[j].text)) is Some);
        }
        if all {
            cached += 1;
        }
        i += 1;
    }
    assert(bv.take(i as int) =~= bv);
    EstimateResult { requests: batches.len() - cached, cached_batches: cached }
}

} // verus!
