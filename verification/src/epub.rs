//! EPUB containers: resolving package-relative paths, naming content
//! documents, and reading the package metadata, table of contents, cover
//! and spine out of the archive.
use vstd::prelude::*;
use vstd::utf8::{decode_utf8, encode_utf8, valid_utf8};
use crate::text::{append_seq, append_str, chars_of, ends_with, find_char, find_from, join, join_chars, slice_chars, split, split_on, string_of, views};

verus! {

broadcast use vstd::string::group_string_axioms;

/// Value of an ASCII hexadecimal digit.
pub open spec fn hex_digit(b: u8) -> Option<nat> {
    if 0x30 <= b <= 0x39 {
        Some((b - 0x30) as nat)
    } else if 0x61 <= b <= 0x66 {
        Some((b - 0x61 + 10) as nat)
    } else if 0x41 <= b <= 0x46 {
        Some((b - 0x41 + 10) as nat)
    } else {
        None
    }
}

/// `u8::from_str_radix(.., 16)` on the two bytes after a `%`: two hex
/// digits, or a `+` sign and one.
pub open spec fn escape_value(b1: u8, b2: u8) -> Option<u8> {
    if b1 == 0x2b {
        match hex_digit(b2) {
            Some(d) => Some(d as u8),
            None => None,
        }
    } else {
        match (hex_digit(b1), hex_digit(b2)) {
            (Some(h), Some(l)) => Some((h * 16 + l) as u8),
            _ => None,
        }
    }
}

/// Bytes with each decodable `%XX` escape replaced by its byte.
pub open spec fn percent_bytes(b: Seq<u8>) -> Seq<u8>
    decreases b.len(),
{
    if b.len() == 0 {
        seq![]
    } else if b[0] == 0x25 && b.len() > 2 && escape_value(b[1], b[2]) is Some {
        seq![escape_value(b[1], b[2])->0] + percent_bytes(b.skip(3))
    } else {
        seq![b[0]] + percent_bytes(b.skip(1))
    }
}

fn hex_digit_of(b: u8) -> (r: Option<u8>)
    ensures
        r matches Some(v) ==> hex_digit(b) == Some(v as nat) && v < 16,
        r is None ==> hex_digit(b) is None,
{
    if 0x30 <= b && b <= 0x39 {
        Some(b - 0x30)
    } else if 0x61 <= b && b <= 0x66 {
        Some(b - 0x61 + 10)
    } else if 0x41 <= b && b <= 0x46 {
        Some(b - 0x41 + 10)
    } else {
        None
    }
}

fn escape_value_of(b1: u8, b2: u8) -> (r: Option<u8>)
    ensures
        r == escape_value(b1, b2),
{
    if b1 == 0x2b {
        return hex_digit_of(b2);
    }
    match (hex_digit_of(b1), hex_digit_of(b2)) {
        (Some(h), Some(l)) => Some(h * 16 + l),
        _ => None,
    }
}

fn percent_bytes_of(b: &[u8]) -> (r: Vec<u8>)
    ensures
        r@ == percent_bytes(b@),
{
    let mut out: Vec<u8> = Vec::new();
    let mut i: usize = 0;
    assert(b@.skip(0) =~= b@);
    while i < b.len()
        invariant
            i <= b.len(),
            percent_bytes(b@) == out@ + percent_bytes(b@.skip(i as int)),
        decreases b.len() - i,
    {
        let ghost t = b@.skip(i as int);
        let ghost o0 = out@;
        if b[i] == 0x25 && b.len() - i > 2 {
            if let Some(v) = escape_value_of(b[i + 1], b[i + 2]) {
                out.push(v);
                assert(t.skip(3) =~= b@.skip(i + 3));
                assert(o0 + (seq![v] + percent_bytes(t.skip(3))) =~= out@ + percent_bytes(b@.skip(i + 3)));
                i += 3;
                continue;
            }
        }
        out.push(b[i]);
        assert(t.skip(1) =~= b@.skip(i + 1));
        assert(o0 + (seq![b@[i as int]] + percent_bytes(t.skip(1))) =~= out@ + percent_bytes(b@.skip(i + 1)));
        i += 1;
    }
    assert(b@.skip(i as int) =~= Seq::<u8>::empty());
    assert(out@ + Seq::<u8>::empty() =~= out@);
    out
}

/// What `String::from_utf8_lossy` makes of a byte sequence.
pub uninterp spec fn utf8_lossy(bytes: Seq<u8>) -> Seq<char>;

/// Calls `String::from_utf8_lossy`. Claimed: the result depends on the
/// bytes alone, and valid UTF-8 decodes to exactly its characters. What
/// stands in for an invalid sequence is left unsaid.
#[verifier::external_body]
fn lossy_utf8(bytes: &[u8]) -> (r: String)
    ensures
        r@ == utf8_lossy(bytes@),
        valid_utf8(bytes@) ==> r@ == decode_utf8(bytes@),
{
    String::from_utf8_lossy(bytes).into_owned()
}

/// Text read from the archive, invalid UTF-8 replaced.
pub fn text_of_bytes(bytes: &[u8]) -> (r: String)
    ensures
        r@ == utf8_lossy(bytes@),
        valid_utf8(bytes@) ==> r@ == decode_utf8(bytes@),
{
    lossy_utf8(bytes)
}

/// Decodes `%XX` escapes in an href.
pub open spec fn percent_decoded(s: Seq<char>) -> Seq<char> {
    utf8_lossy(percent_bytes(encode_utf8(s)))
}

pub fn percent_decode(s: &str) -> (r: String)
    ensures
        r@ == percent_decoded(s@),
{
    let bytes = s.as_bytes();
    let out = percent_bytes_of(bytes);
    lossy_utf8(out.as_slice())
}

/// The part of an href before its fragment.
pub open spec fn before_hash(s: Seq<char>) -> Seq<char> {
    match find_char(s, '#') {
        Some(k) => s.take(k),
        None => s,
    }
}

/// `s` without its leading run of `c`.
pub open spec fn trim_leading(s: Seq<char>, c: char) -> Seq<char>
    decreases s.len(),
{
    if s.len() > 0 && s[0] == c {
        trim_leading(s.drop_first(), c)
    } else {
        s
    }
}

/// Path segments with empty and `.` segments dropped and each `..`
/// removing the segment before it.
pub open spec fn resolve_segments(segs: Seq<Seq<char>>) -> Seq<Seq<char>>
    decreases segs.len(),
{
    if segs.len() == 0 {
        seq![]
    } else {
        let r = resolve_segments(segs.drop_last());
        let s = segs.last();
        if s == ""@ || s == "."@ {
            r
        } else if s == ".."@ {
            if r.len() > 0 {
                r.drop_last()
            } else {
                r
            }
        } else {
            r.push(s)
        }
    }
}

/// A decoded href placed under the package directory, unless it is
/// absolute or there is no directory.
pub open spec fn joined_path(base_dir: Seq<char>, decoded: Seq<char>) -> Seq<char> {
    if (decoded.len() > 0 && decoded[0] == '/') || base_dir.len() == 0 {
        trim_leading(decoded, '/')
    } else {
        base_dir + seq!['/'] + decoded
    }
}

/// The archive entry an href of the package names.
pub open spec fn normalized(base_dir: Seq<char>, href: Seq<char>) -> Seq<char> {
    join(resolve_segments(split(joined_path(base_dir, percent_decoded(before_hash(href))), '/')), seq!['/'])
}

fn trim_leading_chars(s: &Vec<char>, c: char) -> (r: Vec<char>)
    ensures
        r@ == trim_leading(s@, c),
{
    let mut i: usize = 0;
    assert(s@.skip(0) =~= s@);
    while i < s.len() && s[i] == c
        invariant
            i <= s.len(),
            trim_leading(s@, c) == trim_leading(s@.skip(i as int), c),
        decreases s.len() - i,
    {
        assert(s@.skip(i as int).drop_first() =~= s@.skip(i + 1));
        i += 1;
    }
    let r = slice_chars(s, i, s.len());
    assert(r@ =~= s@.skip(i as int));
    r
}

/// Resolves an href of the package (relative to `base_dir`) to an
/// archive entry path.
pub fn normalize_path(base_dir: &str, href: &str) -> (r: String)
    ensures
        r@ == normalized(base_dir@, href@),
{
    let h = chars_of(href);
    let cut = find_from(&h, '#', 0);
    let path = slice_chars(&h, 0, cut);
    proof {
        assert(h@.skip(0) =~= h@);
        crate::text::lemma_find_char_props(h@, '#');
        assert(path@ =~= before_hash(href@));
    }
    let path_s = string_of(&path);
    let decoded_s = percent_decode(path_s.as_str());
    let decoded = chars_of(decoded_s.as_str());
    let joined: Vec<char> = if (decoded.len() > 0 && decoded[0] == '/') || base_dir.is_empty() {
        trim_leading_chars(&decoded, '/')
    } else {
        let mut j = chars_of(base_dir);
        j.push('/');
        append_seq(&mut j, &decoded);
        j
    };
    assert(joined@ =~= joined_path(base_dir@, decoded@));
    let segs = split_on(&joined, '/');
    let mut parts: Vec<Vec<char>> = Vec::new();
    let mut i: usize = 0;
    while i < segs.len()
        invariant
            i <= segs.len(),
            views(parts@) == resolve_segments(views(segs@).take(i as int)),
        decreases segs.len() - i,
    {
        assert(views(segs@).take(i + 1).drop_last() =~= views(segs@).take(i as int));
        let seg = &segs[i];
        let ghost before = parts@;
        proof {
            reveal_strlit("");
            reveal_strlit(".");
            reveal_strlit("..");
        }
        if seg.len() == 0 || (seg.len() == 1 && seg[0] == '.') {
            assert(seg@ =~= ""@ || seg@ =~= "."@);
        } else if seg.len() == 2 && seg[0] == '.' && seg[1] == '.' {
            assert(seg@ =~= ".."@);
            if parts.len() > 0 {
                parts.pop();
                assert(views(parts@) =~= views(before).drop_last());
            }
        } else {
            proof {
                assert(seg@ != ""@);
                assert(seg@ != "."@);
                assert(seg@ != ".."@);
            }
            parts.push(segs[i].clone());
            assert(views(parts@) =~= views(before).push(seg@));
        }
        i += 1;
    }
    assert(views(segs@).take(segs.len() as int) =~= views(segs@));
    let mut sep: Vec<char> = Vec::new();
    sep.push('/');
    assert(sep@ =~= seq!['/']);
    let out = join_chars(&parts, &sep);
    string_of(&out)
}

/// Index of the last occurrence of `c` in `s`.
pub open spec fn rfind_char(s: Seq<char>, c: char) -> Option<int>
    decreases s.len(),
{
    if s.len() == 0 {
        None
    } else if s.last() == c {
        Some(s.len() - 1)
    } else {
        rfind_char(s.drop_last(), c)
    }
}

proof fn lemma_rfind_char_props(s: Seq<char>, c: char)
    ensures
        rfind_char(s, c) matches Some(k) ==> 0 <= k < s.len() && s[k] == c,
    decreases s.len(),
{
    if s.len() > 0 && s.last() != c {
        lemma_rfind_char_props(s.drop_last(), c);
    }
}

/// The text after the last `c` (`rsplit(c).next()`), or all of it.
pub open spec fn after_last(s: Seq<char>, c: char) -> Seq<char> {
    match rfind_char(s, c) {
        Some(k) => s.skip(k + 1),
        None => s,
    }
}

/// The directory part of an entry path: before the last `/`, or empty.
pub open spec fn dir_part(s: Seq<char>) -> Seq<char> {
    match rfind_char(s, '/') {
        Some(k) => s.take(k),
        None => seq![],
    }
}

fn rfind_in(s: &Vec<char>, c: char) -> (r: Option<usize>)
    ensures
        r matches Some(k) ==> rfind_char(s@, c) == Some(k as int) && k < s@.len() && s@[k as int] == c,
        r is None ==> rfind_char(s@, c) is None,
{
    let mut i = s.len();
    assert(s@.take(i as int) =~= s@);
    while i > 0
        invariant
            i <= s.len(),
            rfind_char(s@, c) == rfind_char(s@.take(i as int), c),
        decreases i,
    {
        if s[i - 1] == c {
            return Some(i - 1);
        }
        assert(s@.take(i as int).drop_last() =~= s@.take(i - 1));
        i -= 1;
    }
    None
}

/// The text after the last `c`, or all of it.
pub fn after_last_of(s: &Vec<char>, c: char) -> (r: Vec<char>)
    ensures
        r@ == after_last(s@, c),
{
    match rfind_in(s, c) {
        Some(k) => {
            assert(k < s.len());
            let r = slice_chars(s, k + 1, s.len());
            assert(r@ =~= s@.skip(k + 1));
            r
        },
        None => slice_chars(s, 0, s.len()),
    }
}

/// Directory of an entry path: everything before the last `/`.
pub fn dir_of(path: &str) -> (r: String)
    ensures
        r@ == dir_part(path@),
{
    let p = chars_of(path);
    match rfind_in(&p, '/') {
        Some(k) => {
            let d = slice_chars(&p, 0, k);
            assert(d@ =~= p@.take(k as int));
            string_of(&d)
        },
        None => {
            let e: Vec<char> = Vec::new();
            assert(e@ =~= Seq::<char>::empty());
            string_of(&e)
        },
    }
}

/// `s` with every trailing repetition of `p` removed (`trim_end_matches`).
pub open spec fn trim_suffix_all(s: Seq<char>, p: Seq<char>) -> Seq<char>
    decreases s.len(),
{
    if p.len() > 0 && ends_with(s, p) {
        trim_suffix_all(s.take(s.len() - p.len()), p)
    } else {
        s
    }
}

pub fn trim_suffix_all_of(s: &Vec<char>, p: &str) -> (r: Vec<char>)
    ensures
        r@ == trim_suffix_all(s@, p@),
{
    let pc = chars_of(p);
    let mut cur = slice_chars(s, 0, s.len());
    assert(cur@ =~= s@);
    while pc.len() > 0 && crate::text::has_suffix(&cur, &pc)
        invariant
            trim_suffix_all(s@, p@) == trim_suffix_all(cur@, p@),
            pc@ == p@,
        decreases cur@.len(),
    {
        let n = cur.len() - pc.len();
        let next = slice_chars(&cur, 0, n);
        assert(next@ =~= cur@.take(n as int));
        cur = next;
    }
    cur
}

/// Underscores and hyphens read as spaces in a file name.
pub open spec fn name_char(c: char) -> char {
    if c == '_' || c == '-' {
        ' '
    } else {
        c
    }
}

/// A readable title from a document's file name: no directory, no
/// `.xhtml` / `.html` / `.htm` extension, `_` and `-` as spaces.
pub open spec fn pretty(path: Seq<char>) -> Seq<char> {
    trim_suffix_all(trim_suffix_all(trim_suffix_all(after_last(path, '/'), ".xhtml"@), ".html"@), ".htm"@).map_values(|c: char| name_char(c))
}

pub fn pretty_name(path: &str) -> (r: String)
    ensures
        r@ == pretty(path@),
{
    let p = chars_of(path);
    let last = after_last_of(&p, '/');
    let a = trim_suffix_all_of(&last, ".xhtml");
    let b = trim_suffix_all_of(&a, ".html");
    let c = trim_suffix_all_of(&b, ".htm");
    let mut out: Vec<char> = Vec::new();
    let mut i: usize = 0;
    while i < c.len()
        invariant
            i <= c.len(),
            out@ == c@.take(i as int).map_values(|ch: char| name_char(ch)),
        decreases c.len() - i,
    {
        let ch = c[i];
        if ch == '_' || ch == '-' {
            out.push(' ');
        } else {
            out.push(ch);
        }
        i += 1;
        assert(out@ =~= c@.take(i as int).map_values(|ch: char| name_char(ch)));
    }
    assert(c@.take(c.len() as int) =~= c@);
    string_of(&out)
}

/// A zip archive: more than four bytes, starting with a local file header.
pub open spec fn epub_signature(b: Seq<u8>) -> bool {
    b.len() > 4 && b[0] == 0x50 && b[1] == 0x4b && b[2] == 0x03 && b[3] == 0x04
}

pub fn is_epub(bytes: &[u8]) -> (r: bool)
    ensures
        r == epub_signature(bytes@),
{
    bytes.len() > 4 && bytes[0] == 0x50 && bytes[1] == 0x4b && bytes[2] == 0x03 && bytes[3] == 0x04
}

/// Media type of a cover image, by its file extension.
pub open spec fn image_type(path: Seq<char>) -> Seq<char> {
    let ext = after_last(path, '.');
    if ext == "png"@ {
        "image/png"@
    } else if ext == "gif"@ {
        "image/gif"@
    } else if ext == "svg"@ {
        "image/svg+xml"@
    } else if ext == "webp"@ {
        "image/webp"@
    } else {
        "image/jpeg"@
    }
}

pub fn image_mime(path: &str) -> (r: &'static str)
    ensures
        r@ == image_type(path@),
{
    let p = chars_of(path);
    let ext = after_last_of(&p, '.');
    if crate::text::eq_str(&ext, "png") {
        "image/png"
    } else if crate::text::eq_str(&ext, "gif") {
        "image/gif"
    } else if crate::text::eq_str(&ext, "svg") {
        "image/svg+xml"
    } else if crate::text::eq_str(&ext, "webp") {
        "image/webp"
    } else {
        "image/jpeg"
    }
}

/// A digit of the standard base64 alphabet.
pub open spec fn b64_digit(v: int) -> char {
    if v < 26 {
        (65 + v) as char
    } else if v < 52 {
        (97 + v - 26) as char
    } else if v < 62 {
        (48 + v - 52) as char
    } else if v == 62 {
        '+'
    } else {
        '/'
    }
}

/// Standard base64 with `=` padding (RFC 4648, section 4).
pub open spec fn base64_of(b: Seq<u8>) -> Seq<char>
    decreases b.len(),
{
    if b.len() == 0 {
        seq![]
    } else if b.len() == 1 {
        seq![b64_digit((b[0] / 4) as int), b64_digit((b[0] % 4) * 16), '=', '=']
    } else if b.len() == 2 {
        seq![b64_digit((b[0] / 4) as int), b64_digit((b[0] % 4) * 16 + b[1] / 16), b64_digit((b[1] % 16) * 4), '=']
    } else {
        seq![
            b64_digit((b[0] / 4) as int),
            b64_digit((b[0] % 4) * 16 + b[1] / 16),
            b64_digit((b[1] % 16) * 4 + b[2] / 64),
            b64_digit((b[2] % 64) as int),
        ] + base64_of(b.skip(3))
    }
}

fn b64_char(v: u8) -> (c: char)
    requires
        v < 64,
    ensures
        c == b64_digit(v as int),
{
    if v < 26 {
        (65 + v) as char
    } else if v < 52 {
        (71 + v) as char
    } else if v < 62 {
        (v - 4) as char
    } else if v == 62 {
        '+'
    } else {
        '/'
    }
}

/// Standard base64 with `=` padding.
fn base64_encode(bytes: &[u8]) -> (r: String)
    ensures
        r@ == base64_of(bytes@),
{
    let mut out: Vec<char> = Vec::new();
    let mut i: usize = 0;
    assert(bytes@.skip(0) =~= bytes@);
    while i < bytes.len()
        invariant
            i <= bytes@.len(),
            out@ + base64_of(bytes@.skip(i as int)) == base64_of(bytes@),
        decreases bytes.len() - i,
    {
        let ghost t = bytes@.skip(i as int);
        let ghost o0 = out@;
        let n = bytes.len() - i;
        let b0 = bytes[i];
        assert(t[0] == b0);
        out.push(b64_char(b0 / 4));
        if n == 1 {
            out.push(b64_char((b0 % 4) * 16));
            out.push('=');
            out.push('=');
            assert(out@ =~= o0 + base64_of(t));
            i += 1;
        } else {
            let b1 = bytes[i + 1];
            assert(t[1] == b1);
            out.push(b64_char((b0 % 4) * 16 + b1 / 16));
            if n == 2 {
                out.push(b64_char((b1 % 16) * 4));
                out.push('=');
                assert(out@ =~= o0 + base64_of(t));
                i += 2;
            } else {
                let b2 = bytes[i + 2];
                assert(t[2] == b2);
                out.push(b64_char((b1 % 16) * 4 + b2 / 64));
                out.push(b64_char(b2 % 64));
                assert(t.skip(3) =~= bytes@.skip(i + 3));
                assert(out@ + base64_of(t.skip(3)) =~= o0 + base64_of(t));
                i += 3;
            }
        }
        assert(i == bytes.len() ==> bytes@.skip(i as int) =~= Seq::<u8>::empty());
    }
    assert(bytes@.skip(i as int) =~= Seq::<u8>::empty());
    assert(out@ + Seq::<char>::empty() =~= out@);
    string_of(&out)
}

/// A `data:` URL for the cover image, typed by its path.
pub open spec fn data_url(path: Seq<char>, bytes: Seq<u8>) -> Seq<char> {
    "data:"@ + image_type(path) + ";base64,"@ + base64_of(bytes)
}

pub fn cover_data_url(path: &str, bytes: &[u8]) -> (r: String)
    ensures
        r@ == data_url(path@, bytes@),
{
    let mut out: Vec<char> = Vec::new();
    append_str(&mut out, "data:");
    append_str(&mut out, image_mime(path));
    append_str(&mut out, ";base64,");
    let b = base64_encode(bytes);
    append_str(&mut out, b.as_str());
    string_of(&out)
}

} // verus!

verus! {

/// A resolved path has no empty, `.` or `..` segment.
pub proof fn resolved_segments_are_plain(segs: Seq<Seq<char>>)
    ensures
        forall|i: int| 0 <= i < resolve_segments(segs).len() ==> {
            let s = #[trigger] resolve_segments(segs)[i];
            s != ""@ && s != "."@ && s != ".."@
        },
    decreases segs.len(),
{
    if segs.len() > 0 {
        resolved_segments_are_plain(segs.drop_last());
        let r = resolve_segments(segs.drop_last());
        let s = segs.last();
        if !(s == ""@ || s == "."@) && s == ".."@ && r.len() > 0 {
            assert forall|i: int| 0 <= i < r.drop_last().len() implies #[trigger] r.drop_last()[i] == r[i] by {}
        } else if !(s == ""@ || s == "."@ || s == ".."@) {
            assert forall|i: int| 0 <= i < r.len() implies #[trigger] r.push(s)[i] == r[i] by {}
        }
    }
}

} // verus!
