//! Request planning for the Gemini API: per-model pacing and budgets,
//! token estimates, 429 classification, retry delays, fallback models and
//! the shared rate limiter.
use vstd::prelude::*;
use crate::error::AppError;
use crate::text::{ends_with, has_prefix, has_suffix, slice_chars, starts_with, trim, trim_chars, append_seq, append_str, chars_of, contains, eq_str, has_sub, lower_chars, lowercase, string_of};
use crate::json::{json_parse, json_u64, parse_json, get_str, json_array, json_get, json_str, str_member_is, Json};

verus! {

broadcast use vstd::string::group_string_axioms;

pub const MAX_ATTEMPTS: u32 = 5;

/// 429s are expected on the free tier: allow many more of them.
pub const MAX_RATE_HITS: u32 = 12;

/// Never sleep longer than this on a 429, whatever Retry-After claims.
pub const MAX_RATE_LIMIT_WAIT_SECS: u64 = 120;

pub open spec fn is_lite(model: Seq<char>) -> bool {
    contains(model, "lite"@)
}

fn lite(model: &str) -> (r: bool)
    ensures
        r == is_lite(model@),
{
    let m = chars_of(model);
    let l = chars_of("lite");
    has_sub(&m, &l)
}

/// Free-tier requests-per-minute by model family. Flash-Lite tiers are far
/// more generous; unknown models get the conservative Flash limit.
pub fn model_rpm(model: &str) -> (r: u32)
    ensures
        r == if is_lite(model@) { 500u32 } else { 20u32 },
{
    if lite(model) {
        500
    } else {
        20
    }
}

/// Free-tier-optimal batch budget in estimated input tokens. Flash models
/// get ~25x fewer free requests than Flash-Lite, so we pack twice as much
/// text into each request for them.
pub fn batch_token_budget(model: &str) -> (r: usize)
    ensures
        r == if is_lite(model@) { 5000usize } else { 10000usize },
{
    if lite(model) {
        5_000
    } else {
        10_000
    }
}

/// Token estimate: about 4 ASCII characters or 2.3 other code points per token.
pub open spec fn estimate(ascii: nat, other: nat) -> nat {
    ascii / 4 + (other * 10) / 23
}

/// Token estimate from pre-counted ASCII / non-ASCII code points.
pub fn estimate_counts(ascii: usize, other: usize) -> (r: usize)
    requires
        other <= usize::MAX / 10,
    ensures
        r == estimate(ascii as nat, other as nat),
{
    ascii / 4 + (other * 10) / 23
}

/// Number of ASCII characters.
pub open spec fn ascii_count(s: Seq<char>) -> nat
    decreases s.len(),
{
    if s.len() == 0 {
        0
    } else {
        ascii_count(s.drop_last()) + if (s.last() as u32) < 128 {
            1nat
        } else {
            0nat
        }
    }
}

pub proof fn lemma_ascii_count_le(s: Seq<char>)
    ensures
        ascii_count(s) <= s.len(),
    decreases s.len(),
{
    if s.len() > 0 {
        lemma_ascii_count_le(s.drop_last());
    }
}

/// Estimated tokens of a text.
pub open spec fn tokens_of(s: Seq<char>) -> nat {
    estimate(ascii_count(s), (s.len() - ascii_count(s)) as nat)
}

/// ASCII and non-ASCII counts of the characters.
pub fn count_scripts(v: &Vec<char>) -> (r: (usize, usize))
    ensures
        r.0 == ascii_count(v@),
        r.0 + r.1 == v@.len(),
{
    let mut a: usize = 0;
    let mut o: usize = 0;
    let mut i: usize = 0;
    while i < v.len()
        invariant
            i <= v.len(),
            a == ascii_count(v@.take(i as int)),
            a + o == i,
        decreases v.len() - i,
    {
        assert(v@.take(i + 1).drop_last() =~= v@.take(i as int));
        if (v[i] as u32) < 128 {
            a += 1;
        } else {
            o += 1;
        }
        i += 1;
    }
    assert(v@.take(v.len() as int) =~= v@);
    (a, o)
}

/// Estimated tokens of the characters.
pub fn estimate_chars(v: &Vec<char>) -> (r: usize)
    requires
        v@.len() <= usize::MAX / 10,
    ensures
        r == tokens_of(v@),
{
    let (a, o) = count_scripts(v);
    estimate_counts(a, o)
}

/// Rough token estimate for mixed-script text: Latin scripts average ~4
/// chars per token, Burmese ~2.3 chars per token.
pub fn estimate_tokens(text: &str) -> (r: usize)
    requires
        text@.len() <= usize::MAX / 10,
    ensures
        r == tokens_of(text@),
{
    let v = chars_of(text);
    estimate_chars(&v)
}

/// What a 429 means.
#[derive(Debug, Clone, Copy, PartialEq, Eq)]
pub enum FourTwentyNine {
    /// A per-minute rate limit: back off and retry soon.
    RateLimit,
    /// The message itself names a per-day quota: high confidence.
    DailyConfirmed,
    /// Only a Retry-After far beyond any RPM window hints at it.
    DailySuspected,
}

pub open spec fn classify(message: Seq<char>, retry_after: Option<u64>) -> FourTwentyNine {
    let m = lowercase(message);
    if contains(m, "per day"@) || contains(m, "perday"@) {
        FourTwentyNine::DailyConfirmed
    } else if retry_after matches Some(s) && s > 600 {
        FourTwentyNine::DailySuspected
    } else {
        FourTwentyNine::RateLimit
    }
}

/// A 429 naming a per-day quota is the daily quota; a Retry-After beyond
/// ten minutes only suggests it; anything else is the per-minute limit.
pub fn classify_429(message: &str, retry_after: Option<u64>) -> (r: FourTwentyNine)
    ensures
        r == classify(message@, retry_after),
{
    let m = lower_chars(&chars_of(message));
    if has_sub(&m, &chars_of("per day")) || has_sub(&m, &chars_of("perday")) {
        return FourTwentyNine::DailyConfirmed;
    }
    match retry_after {
        Some(s) => if s > 600 {
            return FourTwentyNine::DailySuspected;
        },
        None => {},
    }
    FourTwentyNine::RateLimit
}

/// Wait, in seconds, after the `hits`-th 429 without a Retry-After.
pub fn rate_limit_delay(hits: u32) -> (secs: u64)
    ensures
        secs == if 5 * hits < 30 { 5 * hits } else { 30 },
{
    let d = 5 * (hits as u64);
    if d < 30 {
        d
    } else {
        30
    }
}

} // verus!

verus! {

pub open spec fn flash_chain() -> Seq<Seq<char>> {
    seq!["gemini-3.5-flash"@, "gemini-3.6-flash"@, "gemini-3.7-flash"@, "gemini-3.8-flash"@]
}

pub open spec fn lite_chain() -> Seq<Seq<char>> {
    seq!["gemini-3.5-flash-lite"@, "gemini-3.1-flash-lite"@]
}

/// The same-tier chain a model belongs to.
pub open spec fn tier_chain(model: Seq<char>) -> Seq<Seq<char>> {
    if is_lite(model) {
        lite_chain()
    } else {
        flash_chain()
    }
}

/// Position of the first element equal to `x`.
pub open spec fn position(s: Seq<Seq<char>>, x: Seq<char>) -> Option<int>
    decreases s.len(),
{
    if s.len() == 0 {
        None
    } else if s[0] == x {
        Some(0)
    } else {
        match position(s.drop_first(), x) {
            Some(k) => Some(k + 1),
            None => None,
        }
    }
}

/// Same-tier models to fall back to, starting right after `model` and
/// wrapping around; a model outside the chain gets the whole chain.
pub open spec fn fallback(model: Seq<char>) -> Seq<Seq<char>> {
    let chain = tier_chain(model);
    match position(chain, model) {
        Some(i) => Seq::new((chain.len() - 1) as nat, |k: int| chain[(i + 1 + k) % chain.len() as int]),
        None => chain,
    }
}

pub proof fn lemma_position(s: Seq<Seq<char>>, x: Seq<char>, k: int)
    requires
        0 <= k <= s.len(),
        forall|j: int| 0 <= j < k ==> #[trigger] s[j] != x,
    ensures
        k < s.len() && s[k] == x ==> position(s, x) == Some(k),
        k == s.len() ==> position(s, x) is None,
    decreases k,
{
    if k > 0 {
        assert forall|j: int| 0 <= j < k - 1 implies #[trigger] s.drop_first()[j] != x by {
            assert(s.drop_first()[j] == s[j + 1]);
        }
        lemma_position(s.drop_first(), x, k - 1);
    }
}

fn chain_of(model: &str) -> (r: Vec<&'static str>)
    ensures
        r@.map_values(|m: &str| m@) == tier_chain(model@),
{
    let mut v: Vec<&'static str> = Vec::new();
    if lite(model) {
        v.push("gemini-3.5-flash-lite");
        v.push("gemini-3.1-flash-lite");
    } else {
        v.push("gemini-3.5-flash");
        v.push("gemini-3.6-flash");
        v.push("gemini-3.7-flash");
        v.push("gemini-3.8-flash");
    }
    assert(v@.map_values(|m: &str| m@) =~= tier_chain(model@));
    v
}

pub open spec fn string_views(v: Seq<String>) -> Seq<Seq<char>> {
    v.map_values(|s: String| s@)
}

/// Same-tier models to fall back to when the current one's daily quota dies,
/// ordered starting right after `model`. Free-tier quotas are per model, so
/// each switch buys a fresh daily budget.
pub fn fallback_models(model: &str) -> (r: Vec<String>)
    ensures
        string_views(r@) == fallback(model@),
{
    let chain = chain_of(model);
    let ghost cv = chain@.map_values(|m: &str| m@);
    let mc = chars_of(model);
    let mut at: usize = 0;
    while at < chain.len() && !crate::text::eq_str(&mc, chain[at])
        invariant
            at <= chain.len(),
            cv == chain@.map_values(|m: &str| m@),
            mc@ == model@,
            forall|j: int| 0 <= j < at ==> #[trigger] cv[j] != model@,
        decreases chain.len() - at,
    {
        at += 1;
    }
    proof {
        lemma_position(cv, model@, at as int);
    }
    let n = chain.len();
    let mut out: Vec<String> = Vec::new();
    if at == n {
        let mut k: usize = 0;
        while k < n
            invariant
                k <= n == chain.len(),
                cv == chain@.map_values(|m: &str| m@),
                string_views(out@) == cv.take(k as int),
            decreases n - k,
        {
            let ghost o0 = out@;
            let item = owned(chain[k]);
            assert(item@ == cv[k as int]);
            out.push(item);
            assert(string_views(out@) =~= string_views(o0).push(cv[k as int]));
            k += 1;
            assert(string_views(out@) =~= cv.take(k as int));
        }
        assert(cv.take(n as int) =~= cv);
    } else {
        let mut k: usize = 0;
        while k + 1 < n
            invariant
                k < n == chain.len(),
                n >= 2,
                n <= 4,
                at < n,
                cv == chain@.map_values(|m: &str| m@),
                string_views(out@) =~= Seq::new(k as nat, |j: int| cv[(at + 1 + j) % n as int]),
            decreases n - k,
        {
            let idx = (at + 1 + k) % n;
            let ghost o0 = out@;
            let item = owned(chain[idx]);
            assert(item@ == cv[idx as int]);
            out.push(item);
            assert(string_views(out@) =~= string_views(o0).push(cv[idx as int]));
            k += 1;
            assert(string_views(out@) =~= Seq::new(k as nat, |j: int| cv[(at + 1 + j) % n as int]));
        }
    }
    out
}

fn owned(s: &str) -> (r: String)
    ensures
        r@ == s@,
{
    s.to_string()
}

/// A retry-delay jitter in milliseconds, drawn by `rand::random_range(0..=500)`.
/// Claimed: the value lies in `0..=500` (the range the call is given).
#[verifier::external_body]
fn random_jitter_ms() -> (r: u64)
    ensures
        r <= 500,
{
    rand::random_range(0..=500u64)
}

/// The backoff base for retry `attempt`: 1s, 2s, 4s, 8s, then 16s.
pub open spec fn backoff_base(attempt: u32) -> nat {
    1000 * vstd::arithmetic::power2::pow2(if attempt < 4 { attempt as nat } else { 4 })
}

/// Delay in milliseconds before retry `attempt` with a given jitter: the
/// server's Retry-After (capped at two minutes) when given, else the
/// exponential base plus the jitter.
pub fn backoff_with(attempt: u32, retry_after: Option<u64>, jitter: u64) -> (ms: u64)
    requires
        jitter <= 500,
    ensures
        retry_after matches Some(s) ==> ms == 1000 * if s < 120 { s } else { 120 },
        retry_after is None ==> ms == backoff_base(attempt) + jitter,
{
    match retry_after {
        Some(secs) => {
            let s = if secs < 120 {
                secs
            } else {
                120
            };
            return 1000 * s;
        },
        None => {},
    }
    let e: u64 = if attempt < 4 {
        attempt as u64
    } else {
        4
    };
    let p: u64 = 1u64 << e;
    proof {
        vstd::arithmetic::power2::lemma2_to64();
        assert(p == vstd::arithmetic::power2::pow2(e as nat)) by {
            vstd::bits::lemma_u64_shl_is_mul(1, e);
            vstd::arithmetic::power2::lemma_pow2(e as nat);
        }
    }
    1000 * p + jitter
}

/// Delay in milliseconds before retry `attempt`: the server's Retry-After
/// (capped at two minutes) when given, else exponential backoff
/// (1s, 2s, 4s, 8s, then 16s from the fourth attempt on) plus up to half
/// a second of random jitter.
pub fn backoff_delay(attempt: u32, retry_after: Option<u64>) -> (ms: u64)
    ensures
        retry_after matches Some(s) ==> ms == 1000 * if s < 120 { s } else { 120 },
        retry_after is None ==> backoff_base(attempt) <= ms <= backoff_base(attempt) + 500,
{
    match retry_after {
        Some(_) => backoff_with(attempt, retry_after, 0),
        None => backoff_with(attempt, retry_after, random_jitter_ms()),
    }
}

} // verus!

verus! {

/// What the limiter's decisions depend on; all durations and instants in
/// nanoseconds.
pub struct LimiterView {
    pub base: u64,
    pub interval: u64,
    pub next_start: Option<u64>,
    /// Consecutive successful requests since the last 429.
    pub streak: u32,
}

/// Spaces request starts at least `60s / rpm` apart so a job never exceeds
/// the model's free-tier rate limit. When the API still answers 429, the
/// limiter slows the whole job down (see [`RateLimiter::penalize`]) so every
/// worker backs off together instead of each burning retries.
pub struct RateLimiter {
    base: u64,
    interval: u64,
    next_start: Option<u64>,
    streak: u32,
}

pub const NANOS_PER_MILLI: u64 = 1_000_000;

/// Base spacing for `rpm` requests per minute: `60000 / rpm` whole
/// milliseconds (at least one), in nanoseconds.
pub open spec fn base_spacing(rpm: u32) -> u64 {
    let r: u64 = if rpm == 0 { 1 } else { rpm as u64 };
    let ms: u64 = if 60000u64 / r == 0 { 1 } else { (60000u64 / r) as u64 };
    (ms * NANOS_PER_MILLI) as u64
}

impl View for RateLimiter {
    type V = LimiterView;

    closed spec fn view(&self) -> LimiterView {
        LimiterView {
            base: self.base,
            interval: self.interval,
            next_start: self.next_start,
            streak: self.streak,
        }
    }
}

/// The doubled spacing after a 429, capped at four times the base.
pub open spec fn slowed(interval: u64, base: u64) -> u64 {
    if 2 * interval < 4 * base {
        (2 * interval) as u64
    } else {
        (4 * base) as u64
    }
}

/// Spacing after a clean stretch: a quarter of the excess over base goes.
pub open spec fn relaxed(interval: u64, base: u64) -> u64 {
    (base + (interval - base) * 3 / 4) as u64
}

/// The next start held past `target`, never earlier than before.
pub open spec fn held(next_start: Option<u64>, target: u64) -> Option<u64> {
    match next_start {
        Some(t) => Some(if t > target { t } else { target }),
        None => Some(target),
    }
}

/// Nanoseconds since the Unix epoch, from `SystemTime::now()`. Nothing is
/// claimed of the value: it is the machine's clock.
#[verifier::external_body]
fn now_ns() -> (r: u64) {
    match std::time::SystemTime::now().duration_since(std::time::UNIX_EPOCH) {
        Ok(d) => d.as_nanos() as u64,
        Err(_) => 0,
    }
}


impl RateLimiter {
    #[verifier::type_invariant]
    closed spec fn wf(self) -> bool {
        &&& NANOS_PER_MILLI <= self.base <= 60000 * NANOS_PER_MILLI
        &&& self.base <= self.interval <= 4 * self.base
    }

    pub fn new(rpm: u32) -> (l: Self)
        ensures
            l@.base == base_spacing(rpm),
            l@.interval == base_spacing(rpm),
            l@.next_start is None,
            l@.streak == 0,
    {
        let r: u64 = if rpm == 0 {
            1
        } else {
            rpm as u64
        };
        let ms = if 60000 / r == 0 {
            1
        } else {
            60000 / r
        };
        let base = ms * NANOS_PER_MILLI;
        RateLimiter { base, interval: base, next_start: None, streak: 0 }
    }

    /// The 429 rule at time `now`: double the spacing (up to 4x base),
    /// reset the clean streak and hold the next start past `now + cooldown`
    /// (just `now` when that overflows).
    pub fn penalize_at(&mut self, now: u64, cooldown: u64)
        ensures
            final(self)@ == (LimiterView {
                interval: slowed(old(self)@.interval, old(self)@.base),
                streak: 0,
                next_start: held(
                    old(self)@.next_start,
                    if now + cooldown <= u64::MAX { (now + cooldown) as u64 } else { now },
                ),
                ..old(self)@
            }),
    {
        proof {
            use_type_invariant(&*self);
        }
        let doubled = 2 * self.interval;
        let cap = 4 * self.base;
        self.interval = if doubled < cap {
            doubled
        } else {
            cap
        };
        self.streak = 0;
        let target = match now.checked_add(cooldown) {
            Some(t) => t,
            None => now,
        };
        self.next_start = match self.next_start {
            Some(t) => Some(
                if t > target {
                    t
                } else {
                    target
                },
            ),
            None => Some(target),
        };
    }

    /// Called when the API returns 429: double the spacing (up to 4x base)
    /// and hold the next request past the cool-down (from the clock's now).
    /// Returns the cool-down, for the job's wait report.
    pub fn penalize(&mut self, cooldown: u64) -> (reported: u64)
        ensures
            reported == cooldown,
            final(self)@.interval == slowed(old(self)@.interval, old(self)@.base),
            final(self)@.base == old(self)@.base,
            final(self)@.streak == 0,
            final(self)@.next_start matches Some(t) && (old(self)@.next_start matches Some(o) ==> o
                <= t),
    {
        let now = now_ns();
        self.penalize_at(now, cooldown);
        cooldown
    }

    /// Called after a clean request: once the job has been running without
    /// a 429 for 20 requests, a quarter of the spacing above base goes.
    pub fn note_success(&mut self)
        ensures
            ({
                let s = if old(self)@.streak < u32::MAX {
                    (old(self)@.streak + 1) as u32
                } else {
                    u32::MAX
                };
                if s >= 20 && old(self)@.interval > old(self)@.base {
                    final(self)@ == (LimiterView {
                        interval: relaxed(old(self)@.interval, old(self)@.base),
                        streak: 0,
                        ..old(self)@
                    })
                } else {
                    final(self)@ == (LimiterView { streak: s, ..old(self)@ })
                }
            }),
    {
        proof {
            use_type_invariant(&*self);
        }
        self.streak = self.streak.saturating_add(1);
        if self.streak >= 20 && self.interval > self.base {
            self.interval = self.base + (self.interval - self.base) * 3 / 4;
            self.streak = 0;
        }
    }

    /// The start decision of `acquire` at time `now`: `None` when a request
    /// may start now (and the next one is booked an interval later), else
    /// how long to wait first.
    pub fn try_start(&mut self, now: u64) -> (wait: Option<u64>)
        ensures
            match old(self)@.next_start {
                Some(e) if now < e => wait == Some((e - now) as u64) && final(self)@ == old(
                    self,
                )@,
                _ => wait is None && final(self)@ == (LimiterView {
                    next_start: Some(
                        if now + old(self)@.interval <= u64::MAX {
                            (now + old(self)@.interval) as u64
                        } else {
                            u64::MAX
                        },
                    ),
                    ..old(self)@
                }),
            },
    {
        proof {
            use_type_invariant(&*self);
        }
        match self.next_start {
            Some(e) => if now < e {
                return Some(e - now);
            },
            None => {},
        }
        self.next_start = Some(now.saturating_add(self.interval));
        None
    }

    /// (base, interval, next start), in nanoseconds.
    pub fn snapshot(&self) -> (r: (u64, u64, Option<u64>))
        ensures
            r == (self@.base, self@.interval, self@.next_start),
    {
        (self.base, self.interval, self.next_start)
    }
}

} // verus!

verus! {

/// Outcome of a batch request that did not succeed.
pub enum GeminiFailure {
    /// Give up immediately; the request can never succeed (bad key, bad model...).
    Fatal(AppError),
    /// Transient; already retried the configured number of times.
    Exhausted(AppError),
    /// The model hit an output limit mid-answer; the caller should split
    /// the batch instead of retrying it unchanged.
    Truncated(AppError),
    /// The model's free-tier daily quota is gone; the flag marks quota
    /// confirmed by the error message (vs. suspected from a long Retry-After).
    QuotaExhausted(AppError, bool),
}

pub open spec fn failure_error(f: GeminiFailure) -> AppError {
    match f {
        GeminiFailure::Fatal(e) => e,
        GeminiFailure::Exhausted(e) => e,
        GeminiFailure::Truncated(e) => e,
        GeminiFailure::QuotaExhausted(e, _) => e,
    }
}

impl GeminiFailure {
    /// The message of the error inside, whatever the kind of failure.
    pub fn message(&self) -> (s: String)
        ensures
            s@ == failure_error(*self).message@,
    {
        match self {
            GeminiFailure::Fatal(e) => e.text(),
            GeminiFailure::Exhausted(e) => e.text(),
            GeminiFailure::Truncated(e) => e.text(),
            GeminiFailure::QuotaExhausted(e, _) => e.text(),
        }
    }
}

pub struct BatchResult {
    /// batch-local 1-based index -> translated text
    pub translations: std::collections::BTreeMap<usize, String>,
    pub total_tokens: u64,
}

pub open spec fn incomplete_message(status: Seq<char>) -> Seq<char> {
    "model output incomplete (status: "@ + status
        + ") — response was cut off by the output limit"@
}

/// The status a response reports, "completed" when it names none.
pub open spec fn response_status(value: Json) -> Seq<char> {
    match json_str(json_get(value, "status"@)) {
        Some(s) => s,
        None => "completed"@,
    }
}

/// The Interactions API reports "completed" only when the model finished
/// its answer; any other status means the output was cut off.
pub fn check_output_status(value: &Json) -> (r: Result<(), AppError>)
    ensures
        r is Ok <==> response_status(*value) == "completed"@,
        r matches Err(e) ==> e.message@ == incomplete_message(response_status(*value)),
{
    let status: Vec<char> = match get_str(value, "status") {
        Some(s) => chars_of(s.as_str()),
        None => chars_of("completed"),
    };
    if eq_str(&status, "completed") {
        Ok(())
    } else {
        let mut m = chars_of("model output incomplete (status: ");
        append_seq(&mut m, &status);
        append_str(&mut m, ") — response was cut off by the output limit");
        Err(AppError::from_string(string_of(&m)))
    }
}

/// Text of a content block when it is a text block.
pub open spec fn block_text(b: Json) -> Seq<char> {
    if json_str(json_get(b, "type"@)) == Some("text"@) {
        match json_str(json_get(b, "text"@)) {
            Some(t) => t,
            None => seq![],
        }
    } else {
        seq![]
    }
}

pub open spec fn blocks_text(bs: Seq<Json>) -> Seq<char>
    decreases bs.len(),
{
    if bs.len() == 0 {
        seq![]
    } else {
        blocks_text(bs.drop_last()) + block_text(bs.last())
    }
}

/// Text of a step when it is model output.
pub open spec fn step_text(step: Json) -> Seq<char> {
    if json_str(json_get(step, "type"@)) == Some("model_output"@) {
        match json_array(json_get(step, "content"@)) {
            Some(bs) => blocks_text(bs),
            None => seq![],
        }
    } else {
        seq![]
    }
}

pub open spec fn steps_text(ss: Seq<Json>) -> Seq<char>
    decreases ss.len(),
{
    if ss.len() == 0 {
        seq![]
    } else {
        steps_text(ss.drop_last()) + step_text(ss.last())
    }
}

/// Concatenated model text of a response:
/// steps[type=model_output].content[type=text].text
pub open spec fn output_text(value: Json) -> Option<Seq<char>> {
    match json_array(json_get(value, "steps"@)) {
        None => None,
        Some(ss) => {
            let t = steps_text(ss);
            if t.len() == 0 {
                None
            } else {
                Some(t)
            }
        },
    }
}

fn append_block_texts(out: &mut Vec<char>, bs: &Vec<Json>)
    ensures
        final(out)@ == old(out)@ + blocks_text(bs@),
{
    let ghost start = out@;
    let mut i: usize = 0;
    while i < bs.len()
        invariant
            i <= bs.len(),
            out@ == start + blocks_text(bs@.take(i as int)),
        decreases bs.len() - i,
    {
        assert(bs@.take(i + 1).drop_last() =~= bs@.take(i as int));
        let b = &bs[i];
        if str_member_is(b, "type", "text") {
            match get_str(b, "text") {
                Some(t) => append_str(out, t.as_str()),
                None => {},
            }
        }
        i += 1;
        assert(out@ =~= start + blocks_text(bs@.take(i as int)));
    }
    assert(bs@.take(bs.len() as int) =~= bs@);
}

/// Pull concatenated model text out of an Interactions API response.
pub fn extract_output_text(value: &Json) -> (r: Option<String>)
    ensures
        r matches Some(s) ==> output_text(*value) == Some(s@),
        r is None ==> output_text(*value) is None,
{
    let steps = match value.get("steps") {
        Some(s) => match s.as_array() {
            Some(a) => a,
            None => {
                return None;
            },
        },
        None => {
            return None;
        },
    };
    let mut out: Vec<char> = Vec::new();
    let mut i: usize = 0;
    while i < steps.len()
        invariant
            i <= steps.len(),
            out@ == steps_text(steps@.take(i as int)),
        decreases steps.len() - i,
    {
        assert(steps@.take(i + 1).drop_last() =~= steps@.take(i as int));
        let step = &steps[i];
        let ghost o0 = out@;
        if str_member_is(step, "type", "model_output") {
            match step.get("content") {
                Some(c) => match c.as_array() {
                    Some(bs) => append_block_texts(&mut out, bs),
                    None => {},
                },
                None => {},
            }
        }
        i += 1;
        assert(out@ =~= steps_text(steps@.take(i as int)));
    }
    assert(steps@.take(steps.len() as int) =~= steps@);
    if out.len() == 0 {
        None
    } else {
        Some(string_of(&out))
    }
}

} // verus!

verus! {

pub open spec fn trim_start_newlines(s: Seq<char>) -> Seq<char>
    decreases s.len(),
{
    if s.len() > 0 && (s[0] == '\n' || s[0] == '\r') {
        trim_start_newlines(s.drop_first())
    } else {
        s
    }
}

/// The JSON inside a markdown code fence (optionally tagged `json`); the
/// text itself when it is not fenced on both ends.
pub open spec fn fence_body(t: Seq<char>) -> Seq<char> {
    if starts_with(t, "```"@) {
        let s = t.skip("```"@.len() as int);
        let s = if starts_with(s, "json"@) {
            s.skip("json"@.len() as int)
        } else {
            s
        };
        let s = trim_start_newlines(s);
        if ends_with(s, "```"@) {
            s.take(s.len() - "```"@.len())
        } else {
            t
        }
    } else {
        t
    }
}

/// Translations of the items, in order (a later index overwrites an
/// earlier one); the first item lacking "i" or "t" is an error.
pub open spec fn items_result(items: Seq<Json>, acc: Map<usize, Seq<char>>) -> Result<
    Map<usize, Seq<char>>,
    Seq<char>,
>
    decreases items.len(),
{
    if items.len() == 0 {
        Ok(acc)
    } else {
        match json_u64(json_get(items[0], "i"@)) {
            None => Err("translation item missing \"i\""@),
            Some(i) => match json_str(json_get(items[0], "t"@)) {
                None => Err("translation item missing \"t\""@),
                Some(t) => items_result(items.drop_first(), acc.insert(i as usize, t)),
            },
        }
    }
}

/// What the model's reply means: the index -> text map, or the error.
pub open spec fn translations_of(text: Seq<char>) -> Result<Map<usize, Seq<char>>, Seq<char>> {
    let body = trim(fence_body(trim(text)));
    match json_parse(body) {
        Err(e) => Err("model returned invalid JSON: "@ + e),
        Ok(v) => translations_in(v),
    }
}

/// The translations a parsed reply holds: its non-empty `translations`
/// array of `{"i": n, "t": text}` items, or why it does not hold them.
pub open spec fn translations_in(v: Json) -> Result<Map<usize, Seq<char>>, Seq<char>> {
    match json_array(json_get(v, "translations"@)) {
        None => Err("missing \"translations\" array in model output"@),
        Some(items) => if items.len() == 0 {
            Err("translations array was empty"@)
        } else {
            items_result(items, Map::empty())
        },
    }
}

pub open spec fn map_views(m: Map<usize, String>) -> Map<usize, Seq<char>> {
    m.map_values(|s: String| s@)
}

fn fence_body_chars(t: &Vec<char>) -> (r: Vec<char>)
    ensures
        r@ == fence_body(t@),
{
    let fence = chars_of("```");
    let tag = chars_of("json");
    if !has_prefix(t, &fence) {
        return slice_chars(t, 0, t.len());
    }
    let mut start = fence.len();
    let s1 = slice_chars(t, start, t.len());
    assert(s1@ =~= t@.skip("```"@.len() as int));
    if has_prefix(&s1, &tag) {
        start = start + tag.len();
    }
    let s2 = slice_chars(t, start, t.len());
    let mut k: usize = 0;
    assert(s2@.skip(0) =~= s2@);
    proof {
        if starts_with(s1@, "json"@) {
            assert(s2@ =~= s1@.skip("json"@.len() as int));
        } else {
            assert(s2@ =~= s1@);
        }
    }
    while k < s2.len() && (s2[k] == '\n' || s2[k] == '\r')
        invariant
            k <= s2.len(),
            trim_start_newlines(s2@) == trim_start_newlines(s2@.skip(k as int)),
        decreases s2.len() - k,
    {
        assert(s2@.skip(k as int).drop_first() =~= s2@.skip(k + 1));
        k += 1;
    }
    let s3 = slice_chars(&s2, k, s2.len());
    assert(s3@ =~= s2@.skip(k as int));
    if has_suffix(&s3, &fence) {
        let r = slice_chars(&s3, 0, s3.len() - fence.len());
        assert(r@ =~= s3@.take(s3@.len() - "```"@.len()));
        r
    } else {
        slice_chars(t, 0, t.len())
    }
}

/// Parse the model's JSON reply. Tolerates markdown fences around the JSON.
pub fn parse_translations(text: &str) -> (r: Result<std::collections::BTreeMap<usize, String>, AppError>)
    ensures
        match r {
            Ok(m) => translations_of(text@) == Ok::<_, Seq<char>>(map_views(m@)),
            Err(e) => translations_of(text@) == Err::<Map<usize, Seq<char>>, _>(e.message@),
        },
{
    broadcast use vstd::std_specs::btree::group_btree_axioms;
    let t = trim_chars(&chars_of(text));
    let body = trim_chars(&fence_body_chars(&t));
    let bs = string_of(&body);
    let value = match parse_json(bs.as_str()) {
        Ok(v) => v,
        Err(e) => {
            let mut m = chars_of("model returned invalid JSON: ");
            append_str(&mut m, e.as_str());
            return Err(AppError::from_string(string_of(&m)));
        },
    };
    translations_from_json(&value)
}

/// The translations of a parsed reply (see `translations_in`).
pub fn translations_from_json(value: &Json) -> (r: Result<std::collections::BTreeMap<usize, String>, AppError>)
    ensures
        match r {
            Ok(m) => translations_in(*value) == Ok::<_, Seq<char>>(map_views(m@)),
            Err(e) => translations_in(*value) == Err::<Map<usize, Seq<char>>, _>(e.message@),
        },
{
    broadcast use vstd::std_specs::btree::group_btree_axioms;
    let arr = match value.get("translations") {
        Some(a) => match a.as_array() {
            Some(a) => a,
            None => {
                return Err(AppError::msg("missing \"translations\" array in model output"));
            },
        },
        None => {
            return Err(AppError::msg("missing \"translations\" array in model output"));
        },
    };
    if arr.len() == 0 {
        return Err(AppError::msg("translations array was empty"));
    }
    let mut map: std::collections::BTreeMap<usize, String> = std::collections::BTreeMap::new();
    let mut k: usize = 0;
    assert(arr@.skip(0) =~= arr@);
    assert(map_views(map@) =~= Map::<usize, Seq<char>>::empty());
    while k < arr.len()
        invariant
            k <= arr.len(),
            translations_in(*value) == items_result(arr@, Map::empty()),
            items_result(arr@, Map::empty()) == items_result(arr@.skip(k as int), map_views(map@)),
        decreases arr.len() - k,
    {
        let item = &arr[k];
        assert(arr@.skip(k as int)[0] == arr@[k as int]);
        assert(arr@.skip(k as int).drop_first() =~= arr@.skip(k + 1));
        let i = match item.get("i") {
            Some(x) => match x.as_u64() {
                Some(i) => i,
                None => {
                    return Err(AppError::msg("translation item missing \"i\""));
                },
            },
            None => {
                return Err(AppError::msg("translation item missing \"i\""));
            },
        };
        let tr = match get_str(item, "t") {
            Some(s) => s.clone(),
            None => {
                return Err(AppError::msg("translation item missing \"t\""));
            },
        };
        let ghost m0 = map@;
        let ghost tv = tr@;
        map.insert(i as usize, tr);
        assert(map_views(map@) =~= map_views(m0).insert(i as usize, tv));
        k += 1;
    }
    assert(arr@.skip(k as int).len() == 0);
    Ok(map)
}

} // verus!

verus! {

/// Member `key` of an optional value.
pub open spec fn opt_get(j: Option<Json>, key: Seq<char>) -> Option<Json> {
    match j {
        Some(x) => json_get(x, key),
        None => None,
    }
}

/// JSON-pointer step `/0`: an array's first element, an object's member "0".
pub open spec fn at_zero(j: Json) -> Option<Json> {
    match j {
        Json::Array(a) => if a@.len() > 0 {
            Some(a@[0])
        } else {
            None
        },
        Json::Object(_) => json_get(j, "0"@),
        _ => None,
    }
}

/// The API's error message: at `/error/message`, else `/0/error/message`
/// (the error object may come wrapped in an array).
pub open spec fn error_message(body: Json) -> Seq<char> {
    let p = match opt_get(opt_get(Some(body), "error"@), "message"@) {
        Some(x) => Some(x),
        None => opt_get(opt_get(at_zero(body), "error"@), "message"@),
    };
    match json_str(p) {
        Some(s) => s,
        None => "unknown API error"@,
    }
}

/// The error a non-success response becomes.
pub open spec fn api_error_message(status: u16, body: Json) -> Seq<char> {
    let msg = error_message(body);
    if contains(msg, "API key not valid"@) || contains(msg, "API_KEY_INVALID"@) {
        "API key is not valid — check it in Settings."@
    } else if status == 400 {
        "API rejected the request (400): "@ + msg + ". Check the model ID and key."@
    } else if status == 401 {
        "Invalid or unauthorized API key (401 Unauthorized): "@ + msg
    } else if status == 403 {
        "Invalid or unauthorized API key (403 Forbidden): "@ + msg
    } else if status == 404 {
        "Model not found (404): "@ + msg
    } else {
        "API error "@ + crate::text::decimal(status as nat) + ": "@ + msg
    }
}

fn member<'a>(j: Option<&'a Json>, key: &str) -> (r: Option<&'a Json>)
    ensures
        r matches Some(x) ==> opt_get(match j { Some(y) => Some(*y), None => None }, key@) == Some(*x),
        r is None ==> opt_get(match j { Some(y) => Some(*y), None => None }, key@) is None,
{
    match j {
        Some(x) => x.get(key),
        None => None,
    }
}

fn first_of(j: &Json) -> (r: Option<&Json>)
    ensures
        r matches Some(x) ==> at_zero(*j) == Some(*x),
        r is None ==> at_zero(*j) is None,
{
    match j {
        Json::Array(a) => if a.len() > 0 {
            Some(&a[0])
        } else {
            None
        },
        Json::Object(_) => j.get("0"),
        _ => None,
    }
}

/// The message of an error response.
pub fn error_message_of(body: &Json) -> (r: String)
    ensures
        r@ == error_message(*body),
{
    let p = match member(member(Some(body), "error"), "message") {
        Some(x) => Some(x),
        None => member(member(first_of(body), "error"), "message"),
    };
    match p {
        Some(x) => match x.as_str() {
            Some(s) => s.clone(),
            None => "unknown API error".to_owned(),
        },
        None => "unknown API error".to_owned(),
    }
}

/// Maps a non-success response to a user-facing error.
pub fn api_error(status: u16, body: &Json) -> (e: AppError)
    ensures
        e.message@ == api_error_message(status, *body),
{
    let msg = error_message_of(body);
    let m = chars_of(msg.as_str());
    if has_sub(&m, &chars_of("API key not valid")) || has_sub(&m, &chars_of("API_KEY_INVALID")) {
        return AppError::msg("API key is not valid — check it in Settings.");
    }
    let mut out: Vec<char> = Vec::new();
    if status == 400 {
        append_str(&mut out, "API rejected the request (400): ");
        append_seq(&mut out, &m);
        append_str(&mut out, ". Check the model ID and key.");
    } else if status == 401 {
        append_str(&mut out, "Invalid or unauthorized API key (401 Unauthorized): ");
        append_seq(&mut out, &m);
    } else if status == 403 {
        append_str(&mut out, "Invalid or unauthorized API key (403 Forbidden): ");
        append_seq(&mut out, &m);
    } else if status == 404 {
        append_str(&mut out, "Model not found (404): ");
        append_seq(&mut out, &m);
    } else {
        append_str(&mut out, "API error ");
        crate::text::push_decimal(&mut out, status as u64);
        append_str(&mut out, ": ");
        append_seq(&mut out, &m);
    }
    AppError::from_string(string_of(&out))
}

/// The error for a model whose daily quota is gone.
pub open spec fn quota_message(model: Seq<char>) -> Seq<char> {
    "the free-tier daily quota for "@ + model + " is exhausted"@
}

/// The translations numbered `1..=count` of a reply.
pub open spec fn numbered(m: Map<usize, Seq<char>>, count: nat) -> Map<usize, Seq<char>> {
    m.restrict(Set::new(|k: usize| 1 <= k <= count))
}

/// How many of the numbers `1..=n` a reply covers.
pub open spec fn covered(m: Map<usize, Seq<char>>, n: nat) -> nat
    decreases n,
{
    if n == 0 {
        0
    } else {
        covered(m, (n - 1) as nat) + if m.contains_key(n as usize) { 1nat } else { 0 }
    }
}

proof fn lemma_covered_le(m: Map<usize, Seq<char>>, n: nat)
    requires
        n <= usize::MAX,
    ensures
        covered(m, n) <= n,
        covered(m, n) == n <==> forall|k: usize| 1 <= k <= n ==> #[trigger] m.contains_key(k),
    decreases n,
{
    if n > 0 {
        lemma_covered_le(m, (n - 1) as nat);
        if covered(m, n) == n {
            assert forall|k: usize| 1 <= k <= n implies #[trigger] m.contains_key(k) by {
                if k < n {
                    assert(covered(m, (n - 1) as nat) == n - 1);
                } else {
                    assert(m.contains_key(n as usize));
                }
            }
        }
        if forall|k: usize| 1 <= k <= n ==> #[trigger] m.contains_key(k) {
            assert(m.contains_key(n as usize));
            assert forall|k: usize| 1 <= k <= n - 1 implies #[trigger] m.contains_key(k) by {}
        }
    }
}

/// Wait of a retry without a server hint: exponential in the attempt,
/// plus at most half a second of jitter.
pub open spec fn backoff_bounds(attempt: u32, ms: u64) -> bool {
    backoff_base(attempt) <= ms <= backoff_base(attempt) + 500
}

/// Outcome of one request of a batch.
pub enum Reply {
    /// The request did not complete (network error).
    Failed(AppError),
    /// The server answered.
    Answered { status: u16, body: Json, retry_after: Option<u64> },
}

/// What to do after a reply.
pub enum Step {
    /// Wait this many milliseconds, then send the request again.
    Retry(u64),
    /// Rate limited: slow the shared limiter by this cool-down (seconds),
    /// report it, wait it out, then send again.
    Cooldown(u64),
    /// The batch is finished.
    Done(Result<BatchResult, GeminiFailure>),
}

/// The retry budget of one batch: transient failures (network, 5xx, 408,
/// unusable output) and 429s are counted apart; 429s get their own
/// generous allowance since hitting the per-minute cap is expected.
pub struct BatchRetry {
    pub attempt: u32,
    pub rate_hits: u32,
    pub last_err: Option<AppError>,
}

impl BatchRetry {
    pub fn new() -> (r: Self)
        ensures
            r.attempt == 0,
            r.rate_hits == 0,
            r.last_err is None,
    {
        BatchRetry { attempt: 0, rate_hits: 0, last_err: None }
    }

    pub open spec fn may_send(&self) -> bool {
        self.attempt < MAX_ATTEMPTS && self.rate_hits <= MAX_RATE_HITS
    }

    /// Whether another request may go out.
    pub fn can_send(&self) -> (r: bool)
        ensures
            r == self.may_send(),
    {
        self.attempt < MAX_ATTEMPTS && self.rate_hits <= MAX_RATE_HITS
    }

    /// The failure once the budget is spent: the last error seen.
    pub fn give_up(self) -> (f: GeminiFailure)
        ensures
            f matches GeminiFailure::Exhausted(e) && e.message@ == match self.last_err {
                Some(l) => l.message@,
                None => "translation attempts exhausted"@,
            },
    {
        match self.last_err {
            Some(e) => GeminiFailure::Exhausted(e),
            None => GeminiFailure::Exhausted(AppError::msg("translation attempts exhausted")),
        }
    }

    fn transient(&mut self, e: AppError, retry_after: Option<u64>) -> (ms: u64)
        requires
            old(self).may_send(),
        ensures
            final(self).attempt == old(self).attempt + 1,
            final(self).rate_hits == old(self).rate_hits,
            final(self).last_err == Some(e),
            retry_after matches Some(s) ==> ms == 1000 * if s < 120 { s } else { 120 },
            retry_after is None ==> backoff_bounds(final(self).attempt, ms),
    {
        self.attempt = self.attempt + 1;
        self.last_err = Some(e);
        backoff_delay(self.attempt, retry_after)
    }

    /// Decides what follows a reply to the batch's request for `model`,
    /// whose paragraphs are numbered `1..=count`. The flag tells whether
    /// the request counted against today's quota (a 2xx answer).
    pub fn on_reply(&mut self, reply: Reply, model: &str, count: usize) -> (r: (Step, bool))
        requires
            old(self).may_send(),
        ensures
            match reply {
                Reply::Failed(e) => {
                    &&& !r.1
                    &&& final(self).attempt == old(self).attempt + 1
                    &&& final(self).rate_hits == old(self).rate_hits
                    &&& final(self).last_err == Some(e)
                    &&& r.0 matches Step::Retry(ms) && backoff_bounds(final(self).attempt, ms)
                },
                Reply::Answered { status, body, retry_after } => if status == 429 {
                    let msg = api_error_message(status, body);
                    &&& !r.1
                    &&& match classify(msg, retry_after) {
                        FourTwentyNine::RateLimit => {
                            &&& final(self).attempt == old(self).attempt
                            &&& final(self).rate_hits == old(self).rate_hits + 1
                            &&& final(self).last_err matches Some(e) && e.message@ == msg
                            &&& r.0 matches Step::Cooldown(secs) && secs == match retry_after {
                                Some(s) if s > 0 => (if s < MAX_RATE_LIMIT_WAIT_SECS { s } else { MAX_RATE_LIMIT_WAIT_SECS }) as int,
                                _ => if 5 * final(self).rate_hits < 30 { 5 * final(self).rate_hits } else { 30 },
                            }
                        },
                        FourTwentyNine::DailyConfirmed => r.0 matches Step::Done(Err(GeminiFailure::QuotaExhausted(e, true)))
                            && e.message@ == quota_message(model@),
                        FourTwentyNine::DailySuspected => r.0 matches Step::Done(Err(GeminiFailure::QuotaExhausted(e, false)))
                            && e.message@ == quota_message(model@),
                    }
                } else if (500 <= status <= 599) || status == 408 {
                    &&& !r.1
                    &&& final(self).attempt == old(self).attempt + 1
                    &&& final(self).rate_hits == old(self).rate_hits
                    &&& final(self).last_err matches Some(e) && e.message@ == api_error_message(status, body)
                    &&& r.0 matches Step::Retry(ms) && (retry_after matches Some(s) ==> ms == 1000 * if s < 120 { s } else { 120 })
                        && (retry_after is None ==> backoff_bounds(final(self).attempt, ms))
                } else if !(200 <= status <= 299) {
                    &&& !r.1
                    &&& r.0 matches Step::Done(Err(GeminiFailure::Fatal(e))) && e.message@ == api_error_message(status, body)
                } else {
                    &&& r.1
                    &&& if response_status(body) != "completed"@ {
                        r.0 matches Step::Done(Err(GeminiFailure::Truncated(e)))
                            && e.message@ == incomplete_message(response_status(body))
                    } else {
                        match output_text(body) {
                            None => {
                                &&& final(self).attempt == old(self).attempt + 1
                                &&& final(self).last_err matches Some(e) && e.message@ == "model returned no text output"@
                                &&& r.0 matches Step::Retry(ms) && backoff_bounds(final(self).attempt, ms)
                            },
                            Some(text) => match translations_of(text) {
                                Err(m) => {
                                    &&& final(self).attempt == old(self).attempt + 1
                                    &&& final(self).last_err matches Some(e) && e.message@ == m
                                    &&& r.0 matches Step::Retry(ms) && backoff_bounds(final(self).attempt, ms)
                                },
                                Ok(m) => if covered(m, count as nat) == count {
                                    r.0 matches Step::Done(Ok(res)) && map_views(res.translations@) == numbered(m, count as nat)
                                        && res.total_tokens == match json_u64(opt_get(opt_get(Some(body), "usage"@), "total_tokens"@)) {
                                            Some(t) => t,
                                            None => 0,
                                        }
                                } else {
                                    &&& final(self).attempt == old(self).attempt + 1
                                    &&& final(self).last_err matches Some(e) && e.message@ == "model returned "@
                                        + crate::text::decimal(covered(m, count as nat)) + " of "@ + crate::text::decimal(count as nat)
                                        + " paragraphs"@
                                    &&& r.0 matches Step::Retry(ms) && backoff_bounds(final(self).attempt, ms)
                                },
                            },
                        }
                    }
                },
            },
    {
        broadcast use vstd::std_specs::btree::group_btree_axioms;
        let (status, body, retry_after) = match reply {
            Reply::Failed(e) => {
                let ms = self.transient(e, None);
                return (Step::Retry(ms), false);
            },
            Reply::Answered { status, body, retry_after } => (status, body, retry_after),
        };
        if status == 429 {
            let err = api_error(status, &body);
            match classify_429(err.message.as_str(), retry_after) {
                FourTwentyNine::DailyConfirmed => {
                    return (Step::Done(Err(GeminiFailure::QuotaExhausted(quota_error(model), true))), false);
                },
                FourTwentyNine::DailySuspected => {
                    return (Step::Done(Err(GeminiFailure::QuotaExhausted(quota_error(model), false))), false);
                },
                FourTwentyNine::RateLimit => {},
            }
            self.rate_hits = self.rate_hits + 1;
            let secs = match retry_after {
                Some(s) => if s > 0 {
                    if s < MAX_RATE_LIMIT_WAIT_SECS {
                        s
                    } else {
                        MAX_RATE_LIMIT_WAIT_SECS
                    }
                } else {
                    rate_limit_delay(self.rate_hits)
                },
                None => rate_limit_delay(self.rate_hits),
            };
            self.last_err = Some(err);
            return (Step::Cooldown(secs), false);
        }
        if (500 <= status && status <= 599) || status == 408 {
            let err = api_error(status, &body);
            let ms = self.transient(err, retry_after);
            return (Step::Retry(ms), false);
        }
        if !(200 <= status && status <= 299) {
            return (Step::Done(Err(GeminiFailure::Fatal(api_error(status, &body)))), false);
        }
        match check_output_status(&body) {
            Err(e) => {
                return (Step::Done(Err(GeminiFailure::Truncated(e))), true);
            },
            Ok(()) => {},
        }
        let tokens = match member(member(Some(&body), "usage"), "total_tokens") {
            Some(x) => match x.as_u64() {
                Some(t) => t,
                None => 0,
            },
            None => 0,
        };
        let text = match extract_output_text(&body) {
            Some(t) => t,
            None => {
                let ms = self.transient(AppError::msg("model returned no text output"), None);
                return (Step::Retry(ms), true);
            },
        };
        match parse_translations(text.as_str()) {
            Err(e) => {
                let ms = self.transient(e, None);
                (Step::Retry(ms), true)
            },
            Ok(map) => {
                let (kept, present) = keep_numbered(&map, count);
                if present == count {
                    (Step::Done(Ok(BatchResult { translations: kept, total_tokens: tokens })), true)
                } else {
                    let mut m: Vec<char> = chars_of("model returned ");
                    crate::text::push_decimal(&mut m, present as u64);
                    append_str(&mut m, " of ");
                    crate::text::push_decimal(&mut m, count as u64);
                    append_str(&mut m, " paragraphs");
                    let ms = self.transient(AppError::from_string(string_of(&m)), None);
                    (Step::Retry(ms), true)
                }
            },
        }
    }
}

fn quota_error(model: &str) -> (e: AppError)
    ensures
        e.message@ == quota_message(model@),
{
    let mut m: Vec<char> = chars_of("the free-tier daily quota for ");
    append_str(&mut m, model);
    append_str(&mut m, " is exhausted");
    AppError::from_string(string_of(&m))
}

/// The translations numbered `1..=count`, and how many of them there are.
fn keep_numbered(map: &std::collections::BTreeMap<usize, String>, count: usize) -> (r: (std::collections::BTreeMap<usize, String>, usize))
    ensures
        map_views(r.0@) == numbered(map_views(map@), count as nat),
        r.1 == covered(map_views(map@), count as nat),
{
    broadcast use vstd::std_specs::btree::group_btree_axioms;
    let mut kept: std::collections::BTreeMap<usize, String> = std::collections::BTreeMap::new();
    let mut present: usize = 0;
    let mut k: usize = 0;
    let ghost mv = map_views(map@);
    assert(map_views(kept@) =~= numbered(mv, 0));
    while k < count
        invariant
            k <= count,
            mv == map_views(map@),
            map_views(kept@) == numbered(mv, k as nat),
            present == covered(mv, k as nat),
            present <= k,
        decreases count - k,
    {
        let n = k + 1;
        let ghost m0 = map_views(kept@);
        match map.get(&n) {
            Some(t) => {
                let ghost tv = t@;
                assert(mv.contains_key(n) && mv[n] == tv);
                kept.insert(n, t.clone());
                present += 1;
                assert(map_views(kept@) =~= m0.insert(n, tv));
                assert(numbered(mv, n as nat) =~= numbered(mv, k as nat).insert(n, tv));
                assert(map_views(kept@) =~= numbered(mv, n as nat));
            },
            None => {
                assert(map_views(kept@) =~= numbered(mv, n as nat));
            },
        }
        k = n;
    }
    (kept, present)
}

/// Opening of the translator's instructions, up to the target language.
pub const PROMPT_OPENING: &'static str = "You are a professional literary translator. You translate numbered text paragraphs into ";

pub const PROMPT_RULES: &'static str = ".\nRules:\n- Translate naturally and idiomatically: render the meaning in fluent ";

pub const PROMPT_STYLE: &'static str = " the way a native writer would express it. Do NOT translate literally or word-for-word — rephrase freely whenever a literal rendering would read awkwardly.\n- Preserve the tone and register of the original (formal stays formal, casual stays casual).\n- Keep paragraph numbering exact: return the same \"i\" values you were given.\n- Never merge, split, add, omit, or reorder paragraphs.\n- Preserve proper nouns, numbers, URLs, and code snippets; transliterate names only when customary in ";

pub const PROMPT_SAME: &'static str = ".\n- If a paragraph is already in ";

pub const PROMPT_CLOSING: &'static str = ", copy it through unchanged.\n- Return only JSON matching the required schema.";

/// The user's extra requirements, when the trimmed text is not empty.
pub open spec fn extra_requirements(custom: Seq<char>) -> Seq<char> {
    if trim(custom).len() == 0 {
        seq![]
    } else {
        "\nAdditional requirements from the user:\n"@ + trim(custom) + "\n"@
    }
}

/// The system instruction of a translation request.
pub open spec fn system_prompt(lang: Seq<char>, custom: Seq<char>) -> Seq<char> {
    PROMPT_OPENING@ + lang + PROMPT_RULES@ + lang + PROMPT_STYLE@ + lang + PROMPT_SAME@ + lang + PROMPT_CLOSING@
        + extra_requirements(custom)
}

pub fn system_instruction(lang: &str, custom: &str) -> (r: String)
    ensures
        r@ == system_prompt(lang@, custom@),
{
    let mut out: Vec<char> = chars_of(PROMPT_OPENING);
    append_str(&mut out, lang);
    append_str(&mut out, PROMPT_RULES);
    append_str(&mut out, lang);
    append_str(&mut out, PROMPT_STYLE);
    append_str(&mut out, lang);
    append_str(&mut out, PROMPT_SAME);
    append_str(&mut out, lang);
    append_str(&mut out, PROMPT_CLOSING);
    let t = trim_chars(&chars_of(custom));
    if t.len() > 0 {
        append_str(&mut out, "\nAdditional requirements from the user:\n");
        append_seq(&mut out, &t);
        append_str(&mut out, "\n");
    }
    string_of(&out)
}

/// A lower-case hex digit.
pub open spec fn hex_char(n: u32) -> char {
    (if n < 10 { 48 + n } else { 87 + n }) as u32 as char
}

/// How `serde_json` writes one character inside a string literal: quote,
/// backslash and the control characters escaped (`\b \f \n \r \t`, the
/// rest as `\u00XX`), every other character as itself.
pub open spec fn json_escape(c: char) -> Seq<char> {
    if c == '"' {
        seq!['\\', '"']
    } else if c == '\\' {
        seq!['\\', '\\']
    } else if c == '\u{8}' {
        seq!['\\', 'b']
    } else if c == '\u{c}' {
        seq!['\\', 'f']
    } else if c == '\n' {
        seq!['\\', 'n']
    } else if c == '\r' {
        seq!['\\', 'r']
    } else if c == '\t' {
        seq!['\\', 't']
    } else if (c as u32) < 0x20 {
        seq!['\\', 'u', '0', '0', hex_char((c as u32) / 16), hex_char((c as u32) % 16)]
    } else {
        seq![c]
    }
}

pub open spec fn json_escaped(s: Seq<char>) -> Seq<char>
    decreases s.len(),
{
    if s.len() == 0 {
        seq![]
    } else {
        json_escaped(s.drop_last()) + json_escape(s.last())
    }
}

/// A string as a JSON string literal, the way `serde_json` writes it.
pub open spec fn json_quoted(s: Seq<char>) -> Seq<char> {
    seq!['"'] + json_escaped(s) + seq!['"']
}

fn hex_digit_char(n: u32) -> (c: char)
    requires
        n < 16,
    ensures
        c == hex_char(n),
{
    let v: u32 = if n < 10 { 48 + n } else { 87 + n };
    match crate::html::char_from_u32(v) {
        Some(c) => c,
        None => '0',
    }
}

fn push_escaped(out: &mut Vec<char>, c: char)
    ensures
        final(out)@ == old(out)@ + json_escape(c),
{
    let e: Vec<char> = if c == '"' {
        vec!['\\', '"']
    } else if c == '\\' {
        vec!['\\', '\\']
    } else if c == '\u{8}' {
        vec!['\\', 'b']
    } else if c == '\u{c}' {
        vec!['\\', 'f']
    } else if c == '\n' {
        vec!['\\', 'n']
    } else if c == '\r' {
        vec!['\\', 'r']
    } else if c == '\t' {
        vec!['\\', 't']
    } else if (c as u32) < 0x20 {
        let hi = hex_digit_char((c as u32) / 16);
        let lo = hex_digit_char((c as u32) % 16);
        vec!['\\', 'u', '0', '0', hi, lo]
    } else {
        vec![c]
    };
    assert(e@ =~= json_escape(c));
    append_seq(out, &e);
}

/// A string as a JSON string literal.
fn json_quote(s: &str) -> (r: String)
    ensures
        r@ == json_quoted(s@),
{
    let cs = chars_of(s);
    let mut body: Vec<char> = Vec::new();
    let mut i: usize = 0;
    while i < cs.len()
        invariant
            i <= cs@.len(),
            cs@ == s@,
            body@ == json_escaped(cs@.take(i as int)),
        decreases cs.len() - i,
    {
        assert(cs@.take(i + 1).drop_last() =~= cs@.take(i as int));
        assert(cs@.take(i + 1).last() == cs@[i as int]);
        push_escaped(&mut body, cs[i]);
        i += 1;
    }
    assert(cs@.take(i as int) =~= cs@);
    let mut out: Vec<char> = vec!['"'];
    append_seq(&mut out, &body);
    out.push('"');
    assert(out@ =~= json_quoted(s@));
    string_of(&out)
}

/// One numbered paragraph of a request: `{"i":n,"t":"text"}`.
pub open spec fn input_item(n: nat, text: Seq<char>) -> Seq<char> {
    "{\"i\":"@ + crate::text::decimal(n) + ",\"t\":"@ + json_quoted(text) + "}"@
}

/// The items of paragraphs numbered from 1, comma-separated.
pub open spec fn input_items(texts: Seq<Seq<char>>) -> Seq<char>
    decreases texts.len(),
{
    if texts.len() == 0 {
        seq![]
    } else if texts.len() == 1 {
        input_item(1, texts[0])
    } else {
        input_items(texts.drop_last()) + ","@ + input_item(texts.len(), texts.last())
    }
}

/// The request input: the batch's paragraphs as compact JSON,
/// `{"paragraphs":[{"i":1,"t":...},...]}`.
pub open spec fn request_input(texts: Seq<Seq<char>>) -> Seq<char> {
    "{\"paragraphs\":["@ + input_items(texts) + "]}"@
}

pub fn batch_input(batch: &crate::job::Batch) -> (r: String)
    ensures
        r@ == request_input(batch@.items.map_values(|i: crate::job::ItemView| i.text)),
{
    let ghost texts = batch@.items.map_values(|i: crate::job::ItemView| i.text);
    let mut items: Vec<char> = Vec::new();
    let mut k: usize = 0;
    while k < batch.items.len()
        invariant
            k <= batch.items@.len(),
            texts == batch@.items.map_values(|i: crate::job::ItemView| i.text),
            items@ == input_items(texts.take(k as int)),
        decreases batch.items.len() - k,
    {
        assert(texts.take(k + 1).drop_last() =~= texts.take(k as int));
        assert(texts.take(k + 1).last() == batch.items@[k as int].text@);
        if k > 0 {
            append_str(&mut items, ",");
        }
        append_str(&mut items, "{\"i\":");
        crate::text::push_decimal(&mut items, (k + 1) as u64);
        append_str(&mut items, ",\"t\":");
        let q = json_quote(batch.items[k].text.as_str());
        append_str(&mut items, q.as_str());
        append_str(&mut items, "}");
        k += 1;
        proof {
            if k == 1 {
                assert(texts.take(0).len() == 0);
            }
        }
    }
    assert(texts.take(k as int) =~= texts);
    let mut out: Vec<char> = chars_of("{\"paragraphs\":[");
    append_seq(&mut out, &items);
    append_str(&mut out, "]}");
    string_of(&out)
}

/// The connectivity check's verdict on a response: the API error for a
/// non-2xx status, else the reply's text, trimmed (empty when there is none).
pub fn ping_reply(status: u16, body: &Json) -> (r: Result<String, AppError>)
    ensures
        !(200 <= status <= 299) ==> (r matches Err(e) && e.message@ == api_error_message(status, *body)),
        200 <= status <= 299 ==> (r matches Ok(t) && t@ == trim(match output_text(*body) {
            Some(x) => x,
            None => seq![],
        })),
{
    if !(200 <= status && status <= 299) {
        return Err(api_error(status, body));
    }
    let text = match extract_output_text(body) {
        Some(t) => chars_of(t.as_str()),
        None => Vec::new(),
    };
    Ok(string_of(&trim_chars(&text)))
}

} // verus!

verus! {

/// Fallback models stay in the model's tier and never name the model
/// itself; a model outside the chains gets its tier's whole chain.
pub proof fn fallback_stays_in_tier(model: Seq<char>)
    ensures
        forall|k: int| 0 <= k < fallback(model).len() ==> tier_chain(model).contains(#[trigger] fallback(model)[k]),
        forall|k: int| 0 <= k < fallback(model).len() ==> #[trigger] fallback(model)[k] != model,
        position(tier_chain(model), model) is Some ==> fallback(model).len() == tier_chain(model).len() - 1,
{
    reveal_strlit("gemini-3.5-flash");
    reveal_strlit("gemini-3.6-flash");
    reveal_strlit("gemini-3.7-flash");
    reveal_strlit("gemini-3.8-flash");
    reveal_strlit("gemini-3.5-flash-lite");
    reveal_strlit("gemini-3.1-flash-lite");
    let chain = tier_chain(model);
    if is_lite(model) {
        assert(chain[0][9] == '5' && chain[1][9] == '1');
    } else {
        assert(chain[0][9] == '5' && chain[1][9] == '6' && chain[2][9] == '7' && chain[3][9] == '8');
    }
    assert(forall|a: int, b: int| 0 <= a < b < chain.len() ==> (#[trigger] chain[a])[9] != (#[trigger] chain[b])[9]);
    lemma_position_props(chain, model);
    match position(chain, model) {
        Some(i) => {
            let n = chain.len() as int;
            assert forall|k: int| 0 <= k < fallback(model).len() implies tier_chain(model).contains(#[trigger] fallback(model)[k]) && fallback(model)[k] != model by {
                let j = (i + 1 + k) % n;
                assert(0 <= j < n);
                assert(fallback(model)[k] == chain[j]);
                assert(j != i) by {
                    assert(0 <= k < n - 1);
                    assert((i + 1 + k) % n != i) by (nonlinear_arith)
                        requires
                            0 <= i < n,
                            0 <= k < n - 1,
                    ;
                }
                if j < i {
                    assert(chain[j][9] != chain[i][9]);
                } else {
                    assert(chain[i][9] != chain[j][9]);
                }
            }
        },
        None => {
            assert forall|k: int| 0 <= k < fallback(model).len() implies tier_chain(model).contains(#[trigger] fallback(model)[k]) && fallback(model)[k] != model by {
                assert(fallback(model)[k] == chain[k]);
            }
        },
    }
}

proof fn lemma_position_props(s: Seq<Seq<char>>, x: Seq<char>)
    ensures
        position(s, x) matches Some(i) ==> 0 <= i < s.len() && s[i] == x,
        position(s, x) is None ==> forall|j: int| 0 <= j < s.len() ==> #[trigger] s[j] != x,
    decreases s.len(),
{
    if s.len() > 0 && s[0] != x {
        lemma_position_props(s.drop_first(), x);
        assert forall|j: int| 1 <= j < s.len() implies #[trigger] s[j] == s.drop_first()[j - 1] by {}
    }
}

} // verus!
