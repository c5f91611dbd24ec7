//! Persistent per-segment translation cache. Every translated segment is
//! keyed by everything that shapes its translation — model, target
//! language, custom instructions, prompt version — and the text itself, so
//! a segment translated once is not paid for again.
use vstd::prelude::*;
use vstd::utf8::encode_utf8;
use sha2::Digest;
use crate::json::{Json, json_get, json_parse, json_str, parse_json, get_str};
use crate::text::{append_str, chars_of, eq_chars, string_of, trim, trim_chars};

verus! {

broadcast use vstd::string::group_string_axioms;

/// Bumped when the translation function itself changes (prompt wording,
/// temperature, part-joining) so stale entries stop matching.
pub const PROMPT_VERSION: u8 = 2;

/// The SHA-256 digest of a byte sequence.
pub uninterp spec fn sha256_of(data: Seq<u8>) -> Seq<u8>;

/// Calls `Sha256::digest` of sha2. Claimed: the digest is a function of
/// the input and is 32 bytes long, as the crate's output size fixes.
#[verifier::external_body]
fn sha256(data: &[u8]) -> (r: Vec<u8>)
    ensures
        r@ == sha256_of(data@),
        r@.len() == 32,
{
    sha2::Sha256::digest(data).to_vec()
}

/// A lowercase hexadecimal digit.
pub open spec fn hex_char(v: nat) -> char {
    if v < 10 {
        (48 + v) as char
    } else {
        (87 + v) as char
    }
}

/// Two lowercase hex digits per byte.
pub open spec fn hex_of(b: Seq<u8>) -> Seq<char>
    decreases b.len(),
{
    if b.len() == 0 {
        seq![]
    } else {
        hex_of(b.drop_last()) + seq![hex_char((b.last() / 16) as nat), hex_char((b.last() % 16) as nat)]
    }
}

fn hex_digit_char(v: u8) -> (c: char)
    requires
        v < 16,
    ensures
        c == hex_char(v as nat),
{
    if v < 10 {
        ((48 + v) as char)
    } else {
        ((87 + v) as char)
    }
}

/// Lowercase hexadecimal of the bytes.
pub fn to_hex(bytes: &[u8]) -> (r: String)
    ensures
        r@ == hex_of(bytes@),
{
    let mut out: Vec<char> = Vec::new();
    let mut i: usize = 0;
    while i < bytes.len()
        invariant
            i <= bytes.len(),
            out@ == hex_of(bytes@.take(i as int)),
        decreases bytes.len() - i,
    {
        assert(bytes@.take(i + 1).drop_last() =~= bytes@.take(i as int));
        let b = bytes[i];
        out.push(hex_digit_char(b / 16));
        out.push(hex_digit_char(b % 16));
        i += 1;
        assert(out@ =~= hex_of(bytes@.take(i as int)));
    }
    assert(bytes@.take(bytes.len() as int) =~= bytes@);
    string_of(&out)
}

fn append_bytes(v: &mut Vec<u8>, extra: &[u8])
    ensures
        final(v)@ == old(v)@ + extra@,
{
    let mut i: usize = 0;
    let ghost start = v@;
    while i < extra.len()
        invariant
            i <= extra.len(),
            v@ == start + extra@.take(i as int),
        decreases extra.len() - i,
    {
        v.push(extra[i]);
        i += 1;
        assert(v@ =~= start + extra@.take(i as int));
    }
    assert(extra@.take(extra.len() as int) =~= extra@);
}

/// The UTF-8 bytes of a string, whitespace around it trimmed.
pub fn trimmed_bytes(s: &str) -> (r: Vec<u8>)
    ensures
        r@ == encode_utf8(trim(s@)),
{
    let t = string_of(&trim_chars(&chars_of(s)));
    let mut r: Vec<u8> = Vec::new();
    append_bytes(&mut r, t.as_str().as_bytes());
    assert(r@ =~= encode_utf8(trim(s@)));
    r
}

/// The first `n` characters of a string (all of it when shorter).
fn prefix_chars(s: &str, n: usize) -> (r: String)
    ensures
        r@ == if n <= s@.len() { s@.take(n as int) } else { s@ },
{
    let c = chars_of(s);
    let end = if n <= c.len() { n } else { c.len() };
    let p = crate::text::slice_chars(&c, 0, end);
    assert(p@ =~= if n <= s@.len() { s@.take(n as int) } else { s@ });
    string_of(&p)
}

/// The per-job key prefix: model, language, the first four digest bytes
/// of the trimmed instructions and the prompt version, hashed; the first
/// sixteen hex digits of that.
pub open spec fn cache_prefix(model: Seq<char>, lang: Seq<char>, instructions: Seq<char>) -> Seq<char> {
    hex_of(
        sha256_of(
            encode_utf8(model) + seq![0u8] + encode_utf8(lang) + seq![0u8] + sha256_of(
                encode_utf8(trim(instructions)),
            ).take(4) + seq![PROMPT_VERSION],
        ),
    ).take(16)
}

/// The key of one segment: the hex digest of the prefix, a zero byte and
/// the text.
pub open spec fn cache_key(prefix: Seq<char>, text: Seq<char>) -> Seq<char> {
    hex_of(sha256_of(encode_utf8(prefix) + seq![0u8] + encode_utf8(text)))
}

proof fn lemma_hex_len(b: Seq<u8>)
    ensures
        hex_of(b).len() == 2 * b.len(),
    decreases b.len(),
{
    if b.len() > 0 {
        lemma_hex_len(b.drop_last());
    }
}

proof fn lemma_hex_char(v: nat, w: nat)
    requires
        v < 16,
        w < 16,
    ensures
        hex_char(v) != '-',
        hex_char(v) == hex_char(w) ==> v == w,
{
    assert(hex_char(v) as u32 == if v < 10 { 48 + v } else { 87 + v });
    assert(hex_char(w) as u32 == if w < 10 { 48 + w } else { 87 + w });
}

/// Hex text is two digits per byte, never a `-`, and tells its bytes
/// apart: equal hex means equal bytes.
pub proof fn lemma_hex_digits(a: Seq<u8>, b: Seq<u8>)
    ensures
        hex_of(a).len() == 2 * a.len(),
        forall|j: int| 0 <= j < hex_of(a).len() ==> #[trigger] hex_of(a)[j] != '-',
        hex_of(a) == hex_of(b) ==> a == b,
    decreases a.len(),
{
    lemma_hex_len(a);
    lemma_hex_len(b);
    if a.len() > 0 {
        let x = a.last();
        lemma_hex_digits(a.drop_last(), if b.len() > 0 { b.drop_last() } else { b });
        lemma_hex_char((x / 16) as nat, 0);
        lemma_hex_char((x % 16) as nat, 0);
        let h = hex_of(a);
        let h0 = hex_of(a.drop_last());
        assert forall|j: int| 0 <= j < h.len() implies #[trigger] h[j] != '-' by {
            if j < h0.len() {
                assert(h[j] == h0[j]);
            }
        }
        if hex_of(a) == hex_of(b) {
            assert(b.len() == a.len());
            let y = b.last();
            let g0 = hex_of(b.drop_last());
            assert(h0 =~= h.take(h.len() - 2));
            assert(g0 =~= hex_of(b).take(h.len() - 2));
            assert(h[h.len() - 2] == hex_char((x / 16) as nat));
            assert(hex_of(b)[h.len() - 2] == hex_char((y / 16) as nat));
            assert(h[h.len() - 1] == hex_char((x % 16) as nat));
            assert(hex_of(b)[h.len() - 1] == hex_char((y % 16) as nat));
            lemma_hex_char((x / 16) as nat, (y / 16) as nat);
            lemma_hex_char((x % 16) as nat, (y % 16) as nat);
            assert(x == y);
            assert(a =~= a.drop_last().push(x));
            assert(b =~= b.drop_last().push(y));
        }
    } else if hex_of(a) == hex_of(b) {
        assert(b.len() == 0);
        assert(a =~= b);
    }
}

/// Key of one segment under a prefix.
pub fn key(prefix: &str, text: &str) -> (r: String)
    ensures
        r@ == cache_key(prefix@, text@),
{
    let mut data: Vec<u8> = Vec::new();
    append_bytes(&mut data, prefix.as_bytes());
    data.push(0);
    append_bytes(&mut data, text.as_bytes());
    assert(data@ =~= encode_utf8(prefix@) + seq![0u8] + encode_utf8(text@));
    to_hex(sha256(data.as_slice()).as_slice())
}

/// Index of a key's entry.
pub open spec fn entry_index(m: Seq<(Seq<char>, Seq<char>)>, k: Seq<char>) -> Option<int>
    decreases m.len(),
{
    if m.len() == 0 {
        None
    } else if m.last().0 == k {
        Some(m.len() - 1)
    } else {
        entry_index(m.drop_last(), k)
    }
}

/// The translation stored under a key.
pub open spec fn lookup(m: Seq<(Seq<char>, Seq<char>)>, k: Seq<char>) -> Option<Seq<char>> {
    match entry_index(m, k) {
        Some(i) => Some(m[i].1),
        None => None,
    }
}

/// Entries with one key set to a value: replaced in place, or added last.
pub open spec fn store(m: Seq<(Seq<char>, Seq<char>)>, k: Seq<char>, v: Seq<char>) -> Seq<(Seq<char>, Seq<char>)> {
    match entry_index(m, k) {
        Some(i) => m.update(i, (k, v)),
        None => m.push((k, v)),
    }
}

pub open spec fn distinct_keys(m: Seq<(Seq<char>, Seq<char>)>) -> bool {
    forall|i: int, j: int| 0 <= i < j < m.len() ==> (#[trigger] m[i]).0 != (#[trigger] m[j]).0
}

pub open spec fn pair_views(m: Seq<(String, String)>) -> Seq<(Seq<char>, Seq<char>)> {
    m.map_values(|e: (String, String)| (e.0@, e.1@))
}

proof fn lemma_entry_index(m: Seq<(Seq<char>, Seq<char>)>, k: Seq<char>)
    ensures
        entry_index(m, k) matches Some(i) ==> 0 <= i < m.len() && m[i].0 == k,
        entry_index(m, k) is None ==> forall|j: int| 0 <= j < m.len() ==> (#[trigger] m[j]).0 != k,
        distinct_keys(m) ==> forall|j: int| 0 <= j < m.len() && (#[trigger] m[j]).0 == k ==> entry_index(m, k) == Some(j),
    decreases m.len(),
{
    if m.len() > 0 {
        let p = m.drop_last();
        lemma_entry_index(p, k);
        assert forall|j: int| 0 <= j < m.len() - 1 implies #[trigger] p[j] == m[j] by {}
        if entry_index(m, k) is None {
            assert forall|j: int| 0 <= j < m.len() implies (#[trigger] m[j]).0 != k by {
                if j < m.len() - 1 {
                    assert(p[j] == m[j]);
                }
            }
        }
        if distinct_keys(m) {
            assert(distinct_keys(p)) by {
                assert forall|i: int, j: int| 0 <= i < j < p.len() implies (#[trigger] p[i]).0 != (#[trigger] p[j]).0 by {
                    assert(p[i] == m[i] && p[j] == m[j]);
                }
            }
            assert forall|j: int| 0 <= j < m.len() && (#[trigger] m[j]).0 == k implies entry_index(m, k) == Some(j) by {
                if j < m.len() - 1 {
                    assert(m[j].0 != m[m.len() - 1].0);
                    assert(p[j] == m[j]);
                }
            }
        }
    }
}

/// Setting a key keeps keys distinct, gives that key its new value and
/// leaves every other key as it was.
pub proof fn lemma_store(m: Seq<(Seq<char>, Seq<char>)>, k: Seq<char>, v: Seq<char>)
    requires
        distinct_keys(m),
    ensures
        distinct_keys(store(m, k, v)),
        lookup(store(m, k, v), k) == Some(v),
        forall|o: Seq<char>| o != k ==> #[trigger] lookup(store(m, k, v), o) == lookup(m, o),
{
    lemma_entry_index(m, k);
    let s = store(m, k, v);
    assert(distinct_keys(s)) by {
        assert forall|i: int, j: int| 0 <= i < j < s.len() implies (#[trigger] s[i]).0 != (#[trigger] s[j]).0 by {
            if entry_index(m, k) is None {
                if j == m.len() {
                    assert(m[i].0 != k);
                }
            } else {
                let x = entry_index(m, k)->0;
                if i == x {
                    assert(m[j].0 != m[x].0);
                } else if j == x {
                    assert(m[i].0 != m[x].0);
                }
            }
        }
    }
    lemma_entry_index(s, k);
    match entry_index(m, k) {
        Some(x) => assert(s[x].0 == k),
        None => assert(s[m.len() as int].0 == k),
    }
    assert forall|o: Seq<char>| o != k implies #[trigger] lookup(s, o) == lookup(m, o) by {
        lemma_entry_index(m, o);
        lemma_entry_index(s, o);
        match entry_index(m, o) {
            Some(y) => {
                assert(s[y].0 == o);
            },
            None => {
                if entry_index(s, o) is Some {
                    let z = entry_index(s, o)->0;
                    if z < m.len() {
                        assert(s[z] == m[z] || s[z].0 == k);
                    }
                }
            },
        }
    }
}

/// The translations held in memory; each key once.
pub struct TranslationCache {
    pub entries: Vec<(String, String)>,
}

impl TranslationCache {
    /// Key prefix for a job's cache entries.
    pub fn prefix(model: &str, lang: &str, instructions: &str) -> (r: String)
        ensures
            r@ == cache_prefix(model@, lang@, instructions@),
    {
        let ih = sha256(trimmed_bytes(instructions).as_slice());
        let mut data: Vec<u8> = Vec::new();
        append_bytes(&mut data, model.as_bytes());
        data.push(0);
        append_bytes(&mut data, lang.as_bytes());
        data.push(0);
        let mut k: usize = 0;
        let ghost start = data@;
        while k < 4
            invariant
                k <= 4,
                ih@.len() == 32,
                data@ == start + ih@.take(k as int),
            decreases 4 - k,
        {
            data.push(ih[k]);
            k += 1;
            assert(data@ =~= start + ih@.take(k as int));
        }
        data.push(PROMPT_VERSION);
        assert(data@ =~= encode_utf8(model@) + seq![0u8] + encode_utf8(lang@) + seq![0u8] + sha256_of(encode_utf8(trim(instructions@))).take(4) + seq![PROMPT_VERSION]);
        let h = to_hex(sha256(data.as_slice()).as_slice());
        proof { lemma_hex_len(sha256_of(data@)); }
        prefix_chars(h.as_str(), 16)
    }

    pub open spec fn view_entries(&self) -> Seq<(Seq<char>, Seq<char>)> {
        pair_views(self.entries@)
    }

    pub open spec fn wf(&self) -> bool {
        distinct_keys(self.view_entries())
    }

    pub fn new() -> (c: Self)
        ensures
            c.wf(),
            c.entries@.len() == 0,
    {
        TranslationCache { entries: Vec::new() }
    }

    fn find(&self, k: &str) -> (r: Option<usize>)
        ensures
            r matches Some(i) ==> entry_index(self.view_entries(), k@) == Some(i as int),
            r is None ==> entry_index(self.view_entries(), k@) is None,
    {
        let kc = chars_of(k);
        let mut i = self.entries.len();
        assert(self.view_entries().take(i as int) =~= self.view_entries());
        while i > 0
            invariant
                i <= self.entries@.len(),
                kc@ == k@,
                entry_index(self.view_entries(), k@) == entry_index(self.view_entries().take(i as int), k@),
            decreases i,
        {
            let e = chars_of(self.entries[i - 1].0.as_str());
            if eq_chars(&e, &kc) {
                return Some(i - 1);
            }
            assert(self.view_entries().take(i as int).drop_last() =~= self.view_entries().take(i - 1));
            i -= 1;
        }
        None
    }

    fn get_key(&self, k: &str) -> (r: Option<String>)
        ensures
            crate::types::opt_view(r) == lookup(self.view_entries(), k@),
    {
        proof { lemma_entry_index(self.view_entries(), k@); }
        match self.find(k) {
            Some(i) => Some(self.entries[i].1.clone()),
            None => None,
        }
    }

    fn set_key(&mut self, k: String, v: &str)
        requires
            old(self).wf(),
        ensures
            final(self).wf(),
            final(self).view_entries() == store(old(self).view_entries(), k@, v@),
    {
        proof {
            lemma_entry_index(self.view_entries(), k@);
            lemma_store(self.view_entries(), k@, v@);
        }
        match self.find(k.as_str()) {
            Some(i) => {
                self.entries.set(i, (k, v.to_owned()));
                assert(self.view_entries() =~= store(old(self).view_entries(), k@, v@));
            },
            None => {
                self.entries.push((k, v.to_owned()));
                assert(self.view_entries() =~= store(old(self).view_entries(), k@, v@));
            },
        }
    }

    /// The cached translation of `text` under `prefix`.
    pub fn get(&self, prefix: &str, text: &str) -> (r: Option<String>)
        ensures
            crate::types::opt_view(r) == lookup(self.view_entries(), cache_key(prefix@, text@)),
    {
        let k = key(prefix, text);
        self.get_key(k.as_str())
    }

    /// Stores a translation. Returns the key when the cache changed (the
    /// line to append to the file), `None` when it already held exactly
    /// this translation.
    pub fn put(&mut self, prefix: &str, text: &str, translation: &str) -> (r: Option<String>)
        requires
            old(self).wf(),
        ensures
            final(self).wf(),
            final(self).view_entries() == store(old(self).view_entries(), cache_key(prefix@, text@), translation@),
            lookup(old(self).view_entries(), cache_key(prefix@, text@)) == Some(translation@) ==> r is None
                && final(self).view_entries() == old(self).view_entries(),
            lookup(old(self).view_entries(), cache_key(prefix@, text@)) != Some(translation@) ==> (r matches Some(k)
                && k@ == cache_key(prefix@, text@)),
    {
        let k = key(prefix, text);
        let ghost kv = k@;
        match self.get_key(k.as_str()) {
            Some(old_t) => {
                let a = chars_of(old_t.as_str());
                let b = chars_of(translation);
                if eq_chars(&a, &b) {
                    proof {
                        lemma_entry_index(self.view_entries(), kv);
                        let i = entry_index(self.view_entries(), kv)->0;
                        assert(store(self.view_entries(), kv, translation@) =~= self.view_entries());
                    }
                    return None;
                }
            },
            None => {},
        }
        let out = k.clone();
        self.set_key(k, translation);
        Some(out)
    }

    /// Drops every entry.
    pub fn clear(&mut self)
        ensures
            final(self).wf(),
            final(self).entries@.len() == 0,
    {
        self.entries = Vec::new();
    }

    /// Number of entries.
    pub fn len(&self) -> (n: usize)
        ensures
            n == self.entries@.len(),
    {
        self.entries.len()
    }

    /// Reads one line of the cache file: `{"k": key, "t": translation}`
    /// stores that entry; any other line is ignored.
    pub fn load_line(&mut self, line: &str)
        requires
            old(self).wf(),
        ensures
            final(self).wf(),
            match json_parse(line@) {
                Ok(j) => final(self).view_entries() == loaded(old(self).view_entries(), j),
                Err(_) => final(self).view_entries() == old(self).view_entries(),
            },
    {
        match parse_json(line) {
            Ok(v) => self.load_json(&v),
            Err(_) => {},
        }
    }

    /// Stores the entry of a parsed cache line (see `loaded`).
    pub fn load_json(&mut self, v: &Json)
        requires
            old(self).wf(),
        ensures
            final(self).wf(),
            final(self).view_entries() == loaded(old(self).view_entries(), *v),
    {
        match (get_str(v, "k"), get_str(v, "t")) {
            (Some(k), Some(t)) => {
                self.set_key(k.clone(), t.as_str());
            },
            _ => {},
        }
    }
}

/// The entries after a parsed cache line: its `k` and `t` strings stored,
/// or nothing changed when it lacks either.
pub open spec fn loaded(entries: Seq<(Seq<char>, Seq<char>)>, j: Json) -> Seq<(Seq<char>, Seq<char>)> {
    match (json_str(json_get(j, "k"@)), json_str(json_get(j, "t"@))) {
        (Some(k), Some(t)) => store(entries, k, t),
        _ => entries,
    }
}

/// Lowercase hex of the SHA-256 digest of some bytes.
pub fn book_digest_hex(bytes: &[u8]) -> (r: String)
    ensures
        r@ == hex_of(sha256_of(bytes@)),
        r@.len() == 64,
{
    let d = sha256(bytes);
    proof { lemma_hex_len(sha256_of(bytes@)); }
    to_hex(d.as_slice())
}

} // verus!

verus! {

/// Whitespace around the custom instructions does not change the cache
/// prefix: instructions that differ only there share entries.
pub proof fn prefix_ignores_surrounding_whitespace(model: Seq<char>, lang: Seq<char>, a: Seq<char>, b: Seq<char>)
    requires
        trim(a) == trim(b),
    ensures
        cache_prefix(model, lang, a) == cache_prefix(model, lang, b),
{
}

/// A stored translation is what a later lookup of the same prefix and
/// text returns, and storing it changes no other key's translation.
pub proof fn lookup_returns_stored(
    entries: Seq<(Seq<char>, Seq<char>)>,
    prefix: Seq<char>,
    text: Seq<char>,
    translation: Seq<char>,
)
    requires
        distinct_keys(entries),
    ensures
        lookup(store(entries, cache_key(prefix, text), translation), cache_key(prefix, text)) == Some(translation),
        forall|k: Seq<char>| k != cache_key(prefix, text) ==> #[trigger] lookup(store(entries, cache_key(prefix, text), translation), k)
            == lookup(entries, k),
{
    lemma_store(entries, cache_key(prefix, text), translation);
}

} // verus!
