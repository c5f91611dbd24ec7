//! PDF text to translatable paragraphs: page-furniture removal (running
//! headers, footers, page numbers), paragraph grouping and chapter chunking.
use vstd::prelude::*;
use crate::text::{append_seq, contains, find_char, find_from, has_sub, lemma_find_char_props, matches_at, collapse, collapse_ws, lines, lines_of, append_str, chars_of, eq_chars, eq_str, has_prefix, is_alnum, is_digit, is_whitespace, is_ws, join, join_chars, lower_chars, lowercase, slice_chars, split_ws, starts_with, string_of, trim, trim_chars, views, words};

verus! {

broadcast use vstd::string::group_string_axioms;

// ---------------------------------------------------------------------------
// Roman numerals
// ---------------------------------------------------------------------------

/// Symbol of the `k`-th row of the greedy roman table.
pub open spec fn roman_sym(k: int) -> Seq<char> {
    if k == 0 {
        "m"@
    } else if k == 1 {
        "cm"@
    } else if k == 2 {
        "d"@
    } else if k == 3 {
        "cd"@
    } else if k == 4 {
        "c"@
    } else if k == 5 {
        "xc"@
    } else if k == 6 {
        "l"@
    } else if k == 7 {
        "xl"@
    } else if k == 8 {
        "x"@
    } else if k == 9 {
        "ix"@
    } else if k == 10 {
        "v"@
    } else if k == 11 {
        "iv"@
    } else {
        "i"@
    }
}

/// Value of the `k`-th row of the greedy roman table.
pub open spec fn roman_row(k: int) -> nat {
    if k == 0 {
        1000
    } else if k == 1 {
        900
    } else if k == 2 {
        500
    } else if k == 3 {
        400
    } else if k == 4 {
        100
    } else if k == 5 {
        90
    } else if k == 6 {
        50
    } else if k == 7 {
        40
    } else if k == 8 {
        10
    } else if k == 9 {
        9
    } else if k == 10 {
        5
    } else if k == 11 {
        4
    } else {
        1
    }
}

/// Greedy roman spelling of `n` using the table rows from `k` on.
pub open spec fn roman_from(n: nat, k: int) -> Seq<char>
    decreases 13 - k, n,
{
    if k < 0 || k >= 13 {
        seq![]
    } else if n >= roman_row(k) {
        roman_sym(k) + roman_from((n - roman_row(k)) as nat, k)
    } else {
        roman_from(n, k + 1)
    }
}

/// Lower-case roman numeral of `n` (empty for 0).
pub open spec fn roman(n: nat) -> Seq<char> {
    roman_from(n, 0)
}

fn roman_pair(k: usize) -> (r: (&'static str, u32))
    requires
        k < 13,
    ensures
        r.0@ == roman_sym(k as int),
        r.1 as nat == roman_row(k as int),
{
    match k {
        0 => ("m", 1000),
        1 => ("cm", 900),
        2 => ("d", 500),
        3 => ("cd", 400),
        4 => ("c", 100),
        5 => ("xc", 90),
        6 => ("l", 50),
        7 => ("xl", 40),
        8 => ("x", 10),
        9 => ("ix", 9),
        10 => ("v", 5),
        11 => ("iv", 4),
        _ => ("i", 1),
    }
}

/// Lower-case roman numeral of `n`.
pub fn roman_chars(n: u32) -> (r: Vec<char>)
    ensures
        r@ == roman(n as nat),
{
    let mut out: Vec<char> = Vec::new();
    let mut m = n;
    let mut k: usize = 0;
    while k < 13
        invariant
            k <= 13,
            out@ + roman_from(m as nat, k as int) == roman(n as nat),
        decreases 13 - k,
    {
        let (sym, val) = roman_pair(k);
        while m >= val
            invariant
                k < 13,
                val as nat == roman_row(k as int),
                sym@ == roman_sym(k as int),
                out@ + roman_from(m as nat, k as int) == roman(n as nat),
            decreases m,
        {
            let ghost before = out@;
            append_str(&mut out, sym);
            m -= val;
            assert(before + roman_from((m + val) as nat, k as int) == out@ + roman_from(
                m as nat,
                k as int,
            ));
        }
        k += 1;
    }
    assert(out@ + Seq::<char>::empty() =~= out@);
    out
}

/// `to_roman`: lower-case roman numeral of `n`.
pub fn to_roman(n: u32) -> (r: String)
    ensures
        r@ == roman(n as nat),
{
    let v = roman_chars(n);
    string_of(&v)
}

/// Value of a roman digit.
pub open spec fn roman_digit(c: char) -> Option<nat> {
    if c == 'i' {
        Some(1)
    } else if c == 'v' {
        Some(5)
    } else if c == 'x' {
        Some(10)
    } else if c == 'l' {
        Some(50)
    } else if c == 'c' {
        Some(100)
    } else if c == 'd' {
        Some(500)
    } else if c == 'm' {
        Some(1000)
    } else {
        None
    }
}

/// The only pairs allowed to subtract: iv, ix, xl, xc, cd, cm.
pub open spec fn subtractive(c: char, n: char) -> bool {
    ||| (c == 'i' && n == 'v')
    ||| (c == 'i' && n == 'x')
    ||| (c == 'x' && n == 'l')
    ||| (c == 'x' && n == 'c')
    ||| (c == 'c' && n == 'd')
    ||| (c == 'c' && n == 'm')
}

pub open spec fn opt_add(a: nat, o: Option<nat>) -> Option<nat> {
    match o {
        Some(t) => Some(a + t),
        None => None,
    }
}

/// Left-to-right roman sum: a digit followed by a larger one forms a
/// subtractive pair (which must be one of the allowed ones); `None` on any
/// other character or pair.
pub open spec fn roman_sum(s: Seq<char>) -> Option<nat>
    decreases s.len(),
{
    if s.len() == 0 {
        Some(0)
    } else {
        match roman_digit(s[0]) {
            None => None,
            Some(v) => if s.len() == 1 {
                Some(v)
            } else {
                match roman_digit(s[1]) {
                    None => None,
                    Some(nv) => if nv > v {
                        if !subtractive(s[0], s[1]) {
                            None
                        } else {
                            opt_add((nv - v) as nat, roman_sum(s.skip(2)))
                        }
                    } else {
                        opt_add(v, roman_sum(s.drop_first()))
                    },
                }
            },
        }
    }
}

/// The value of a strict lower-case roman numeral: the sum, accepted only
/// when it lies in 1..4000 and spells back to exactly `s`.
pub open spec fn roman_number(s: Seq<char>) -> Option<nat> {
    match roman_sum(s) {
        Some(t) => if s.len() > 0 && 0 < t && t < 4000 && roman(t) == s {
            Some(t)
        } else {
            None
        },
        None => None,
    }
}

fn digit_value(c: char) -> (r: Option<u32>)
    ensures
        r matches Some(v) ==> roman_digit(c) == Some(v as nat) && v <= 1000,
        r is None ==> roman_digit(c) is None,
{
    match c {
        'i' => Some(1),
        'v' => Some(5),
        'x' => Some(10),
        'l' => Some(50),
        'c' => Some(100),
        'd' => Some(500),
        'm' => Some(1000),
        _ => None,
    }
}

/// `roman_value` on characters.
pub fn roman_value_chars(s: &Vec<char>) -> (r: Option<u32>)
    ensures
        r matches Some(v) ==> roman_number(s@) == Some(v as nat),
        r is None ==> roman_number(s@) is None,
{
    // `total` saturates at 4000: every step adds a positive amount, so the
    // saturated sum is >= 4000 exactly when the true one is.
    let mut total: u32 = 0;
    let ghost mut acc: nat = 0;
    let mut i: usize = 0;
    assert(s@.skip(0) =~= s@);
    while i < s.len()
        invariant
            i <= s.len(),
            roman_sum(s@) == opt_add(acc, roman_sum(s@.skip(i as int))),
            total as nat == if acc < 4000 { acc } else { 4000 },
        decreases s.len() - i,
    {
        let ghost t = s@.skip(i as int);
        let v = match digit_value(s[i]) {
            Some(v) => v,
            None => {
                return None;
            },
        };
        if i + 1 < s.len() {
            let nv = match digit_value(s[i + 1]) {
                Some(nv) => nv,
                None => {
                    return None;
                },
            };
            if nv > v {
                let c = s[i];
                let n = s[i + 1];
                let ok = (c == 'i' && n == 'v') || (c == 'i' && n == 'x') || (c == 'x' && n
                    == 'l') || (c == 'x' && n == 'c') || (c == 'c' && n == 'd') || (c == 'c'
                    && n == 'm');
                if !ok {
                    return None;
                }
                let add = nv - v;
                total = if total + add > 4000 {
                    4000
                } else {
                    total + add
                };
                proof {
                    acc = acc + (nv - v) as nat;
                    assert(t.skip(2) =~= s@.skip(i + 2));
                }
                i += 2;
            } else {
                total = if total + v > 4000 {
                    4000
                } else {
                    total + v
                };
                proof {
                    acc = acc + v as nat;
                    assert(t.drop_first() =~= s@.skip(i + 1));
                }
                i += 1;
            }
        } else {
            total = if total + v > 4000 {
                4000
            } else {
                total + v
            };
            proof {
                acc = acc + v as nat;
                assert(s@.skip(i + 1) =~= Seq::<char>::empty());
            }
            i += 1;
        }
    }
    assert(s@.skip(i as int) =~= Seq::<char>::empty());
    if s.len() == 0 || total == 0 || total >= 4000 {
        return None;
    }
    let back = roman_chars(total);
    if eq_chars(&back, s) {
        Some(total)
    } else {
        None
    }
}

/// Strictly parse a lowercase roman numeral (round-trip valid), so real
/// words like "civil" or "mill" never masquerade as page numbers.
pub fn roman_value(s: &str) -> (r: Option<u32>)
    ensures
        r matches Some(v) ==> roman_number(s@) == Some(v as nat),
        r is None ==> roman_number(s@) is None,
{
    let c = chars_of(s);
    roman_value_chars(&c)
}

/// The largest digit that can open the spelling from row `k` on.
spec fn lead_max(k: int) -> nat {
    if k <= 0 {
        1000
    } else if k <= 2 {
        500
    } else if k <= 4 {
        100
    } else if k <= 6 {
        50
    } else if k <= 8 {
        10
    } else if k <= 10 {
        5
    } else {
        1
    }
}

/// A row's symbol is one digit worth the row, or an allowed subtractive
/// pair worth the row; its first digit is at most `lead_max`.
proof fn lemma_row(k: int)
    requires
        0 <= k < 13,
    ensures
        roman_sym(k).len() == 1 ==> roman_digit(roman_sym(k)[0]) == Some(roman_row(k)) && lead_max(k) <= roman_row(k),
        roman_sym(k).len() == 2 ==> ({
            &&& roman_digit(roman_sym(k)[0]) matches Some(a)
            &&& roman_digit(roman_sym(k)[1]) matches Some(b)
            &&& b > a
            &&& b - a == roman_row(k)
            &&& subtractive(roman_sym(k)[0], roman_sym(k)[1])
        }),
        roman_sym(k).len() == 1 || roman_sym(k).len() == 2,
        roman_digit(roman_sym(k)[0]) matches Some(d) && d <= lead_max(k),
{
    reveal_strlit("m");
    reveal_strlit("cm");
    reveal_strlit("d");
    reveal_strlit("cd");
    reveal_strlit("c");
    reveal_strlit("xc");
    reveal_strlit("l");
    reveal_strlit("xl");
    reveal_strlit("x");
    reveal_strlit("ix");
    reveal_strlit("v");
    reveal_strlit("iv");
    reveal_strlit("i");
}

/// A non-empty spelling from row `k` opens with a digit no larger than
/// `lead_max(k)`.
proof fn lemma_lead(n: nat, k: int)
    requires
        0 <= k < 13,
        roman_from(n, k).len() > 0,
    ensures
        roman_digit(roman_from(n, k)[0]) matches Some(d) && d <= lead_max(k),
    decreases 13 - k, n,
{
    lemma_row(k);
    if n >= roman_row(k) {
        assert(roman_from(n, k)[0] == roman_sym(k)[0]);
    } else if k + 1 < 13 {
        lemma_lead(n, k + 1);
    } else {
        assert(roman_from(n, k + 1).len() == 0);
    }
}

/// Reading the greedy spelling left to right gives back the number.
proof fn lemma_roman_sum(n: nat, k: int)
    requires
        0 <= k <= 13,
        k == 13 ==> n == 0,
    ensures
        roman_sum(roman_from(n, k)) == Some(n),
    decreases 13 - k, n,
{
    if k == 13 {
        assert(roman_from(n, k).len() == 0);
    } else if n >= roman_row(k) {
        let m = (n - roman_row(k)) as nat;
        let rest = roman_from(m, k);
        let s = roman_from(n, k);
        lemma_roman_sum(m, k);
        lemma_row(k);
        assert(s == roman_sym(k) + rest);
        if roman_sym(k).len() == 2 {
            assert(s.skip(2) =~= rest);
        } else if rest.len() == 0 {
            assert(s.len() == 1);
        } else {
            lemma_lead(m, k);
            assert(s[1] == rest[0]);
            assert(s.drop_first() =~= rest);
        }
    } else {
        lemma_roman_sum(n, k + 1);
    }
}

/// Every number from 1 to 3999, spelled by `to_roman`, reads back through
/// `roman_value` as itself.
pub proof fn roman_round_trip(n: nat)
    requires
        1 <= n < 4000,
    ensures
        roman_number(roman(n)) == Some(n),
{
    lemma_roman_sum(n, 0);
}

} // verus!

verus! {

// ---------------------------------------------------------------------------
// Page numbers
// ---------------------------------------------------------------------------

/// Lower-case words that would otherwise parse as page numbers.
pub open spec fn not_page_word(w: Seq<char>) -> bool {
    ||| w == "di"@
    ||| w == "mi"@
    ||| w == "ci"@
    ||| w == "li"@
    ||| w == "mix"@
    ||| w == "lo"@
    ||| w == "yo"@
    ||| w == "jo"@
    ||| w == "ill"@
    ||| w == "oil"@
    ||| w == "oily"@
    ||| w == "lily"@
    ||| w == "joy"@
    ||| w == "lol"@
    ||| w == "loll"@
    ||| w == "jill"@
    ||| w == "yoyo"@
}

fn is_not_page_word(w: &Vec<char>) -> (r: bool)
    ensures
        r == not_page_word(w@),
{
    eq_str(w, "di") || eq_str(w, "mi") || eq_str(w, "ci") || eq_str(w, "li") || eq_str(w, "mix")
        || eq_str(w, "lo") || eq_str(w, "yo") || eq_str(w, "jo") || eq_str(w, "ill") || eq_str(
        w,
        "oil",
    ) || eq_str(w, "oily") || eq_str(w, "lily") || eq_str(w, "joy") || eq_str(w, "lol")
        || eq_str(w, "loll") || eq_str(w, "jill") || eq_str(w, "yoyo")
}

/// Punctuation that decorates page numbers: `*<>,.-` and the en/em dashes.
pub open spec fn is_noise(c: char) -> bool {
    c == '*' || c == '<' || c == '>' || c == ',' || c == '.' || c == '-' || c == '\u{2013}' || c
        == '\u{2014}'
}

fn noise(c: char) -> (r: bool)
    ensures
        r == is_noise(c),
{
    c == '*' || c == '<' || c == '>' || c == ',' || c == '.' || c == '-' || c == '\u{2013}' || c
        == '\u{2014}'
}

/// Letters OCR commonly produces in place of digits.
pub open spec fn is_ocr_letter(c: char) -> bool {
    c == 'i' || c == 'I' || c == 'l' || c == 'L' || c == 'o' || c == 'O' || c == 'j' || c == 'J'
        || c == 'y' || c == 'Y'
}

/// The digit an OCR misread stands for (other characters unchanged).
pub open spec fn ocr_digit(c: char) -> char {
    if c == 'i' || c == 'I' || c == 'l' || c == 'L' || c == 'j' || c == 'J' {
        '1'
    } else if c == 'o' || c == 'O' {
        '0'
    } else if c == 'y' || c == 'Y' {
        '7'
    } else {
        c
    }
}

/// The token with decoration dropped and OCR misreads mapped to digits.
pub open spec fn ocr_mapped(t: Seq<char>) -> Seq<char>
    decreases t.len(),
{
    if t.len() == 0 {
        seq![]
    } else if is_noise(t.last()) {
        ocr_mapped(t.drop_last())
    } else {
        ocr_mapped(t.drop_last()).push(ocr_digit(t.last()))
    }
}

/// Decimal value of a digit string.
pub open spec fn dec_value(s: Seq<char>) -> nat
    decreases s.len(),
{
    if s.len() == 0 {
        0
    } else {
        dec_value(s.drop_last()) * 10 + ((s.last() as u32) - ('0' as u32)) as nat
    }
}

pub open spec fn all_digits(s: Seq<char>) -> bool {
    forall|i: int| 0 <= i < s.len() ==> is_digit(#[trigger] s[i])
}

/// A token that looks like a page number: digits with OCR noise, a short
/// digit-free OCR reading of a number, or a strict roman numeral — never
/// one of the listed words.
pub open spec fn numberish(tok: Seq<char>) -> bool {
    let lower = lowercase(tok);
    let m = ocr_mapped(tok);
    if not_page_word(lower) {
        false
    } else if (exists|i: int| 0 <= i < tok.len() && is_digit(#[trigger] tok[i])) && (forall|i: int|
        0 <= i < tok.len() ==> is_digit(#[trigger] tok[i]) || is_ocr_letter(tok[i]) || is_noise(
            tok[i],
        )) {
        true
    } else if 2 <= m.len() <= 4 && all_digits(m) && dec_value(m) > 0 {
        true
    } else {
        roman_number(lower) is Some
    }
}

/// `token_is_numberish` on characters.
pub fn numberish_chars(tok: &Vec<char>) -> (r: bool)
    ensures
        r == numberish(tok@),
{
    let lower = lower_chars(tok);
    if is_not_page_word(&lower) {
        return false;
    }
    let mut any_digit = false;
    let mut all_ok = true;
    let mut i: usize = 0;
    while i < tok.len()
        invariant
            i <= tok.len(),
            any_digit == (exists|j: int| 0 <= j < i && is_digit(#[trigger] tok@[j])),
            all_ok == (forall|j: int|
                0 <= j < i ==> is_digit(#[trigger] tok@[j]) || is_ocr_letter(tok@[j])
                    || is_noise(tok@[j])),
        decreases tok.len() - i,
    {
        let c = tok[i];
        let d = '0' <= c && c <= '9';
        let l = c == 'i' || c == 'I' || c == 'l' || c == 'L' || c == 'o' || c == 'O' || c == 'j'
            || c == 'J' || c == 'y' || c == 'Y';
        if d {
            any_digit = true;
        }
        if !(d || l || noise(c)) {
            all_ok = false;
        }
        i += 1;
        proof {
            if any_digit && !(exists|j: int| 0 <= j < i - 1 && is_digit(#[trigger] tok@[j])) {
                assert(is_digit(tok@[i - 1]));
            }
        }
    }
    if any_digit && all_ok {
        return true;
    }
    // map OCR misreads to digits
    let mut m: Vec<char> = Vec::new();
    let mut k: usize = 0;
    while k < tok.len()
        invariant
            k <= tok.len(),
            m@ == ocr_mapped(tok@.take(k as int)),
        decreases tok.len() - k,
    {
        let c = tok[k];
        assert(tok@.take(k + 1).drop_last() =~= tok@.take(k as int));
        if !noise(c) {
            let d = if c == 'i' || c == 'I' || c == 'l' || c == 'L' || c == 'j' || c == 'J' {
                '1'
            } else if c == 'o' || c == 'O' {
                '0'
            } else if c == 'y' || c == 'Y' {
                '7'
            } else {
                c
            };
            m.push(d);
        }
        k += 1;
    }
    assert(tok@.take(tok.len() as int) =~= tok@);
    if 2 <= m.len() && m.len() <= 4 {
        let mut ok = true;
        let mut val: u32 = 0;
        let mut j: usize = 0;
        while j < m.len()
            invariant
                j <= m.len() <= 4,
                ok == all_digits(m@.take(j as int)),
                ok ==> val as nat == dec_value(m@.take(j as int)),
                ok ==> val < p10(j as nat),
            decreases m.len() - j,
        {
            assert(m@.take(j + 1).drop_last() =~= m@.take(j as int));
            let c = m[j];
            if ok && '0' <= c && c <= '9' {
                proof {
                    reveal_with_fuel(p10, 5);
                    assert(p10(j as nat) <= 1000);
                }
                val = val * 10 + (c as u32 - '0' as u32);
            } else {
                if ok {
                    assert(!is_digit(m@.take(j + 1)[j as int]));
                }
                ok = false;
            }
            j += 1;
        }
        assert(m@.take(m.len() as int) =~= m@);
        if ok && val > 0 {
            return true;
        }
    }
    roman_value_chars(&lower).is_some()
}

pub open spec fn p10(n: nat) -> nat
    decreases n,
{
    if n == 0 {
        1
    } else {
        10 * p10((n - 1) as nat)
    }
}

/// A token that looks like a page number (digits with OCR noise, a
/// digit-free OCR reading, or a strict roman numeral) but never a real word.
pub fn token_is_numberish(tok: &str) -> (r: bool)
    ensures
        r == numberish(tok@),
{
    let t = chars_of(tok);
    numberish_chars(&t)
}

} // verus!

verus! {

/// `s` without its whitespace characters.
pub open spec fn drop_ws(s: Seq<char>) -> Seq<char>
    decreases s.len(),
{
    if s.len() == 0 {
        seq![]
    } else if is_ws(s.last()) {
        drop_ws(s.drop_last())
    } else {
        drop_ws(s.drop_last()).push(s.last())
    }
}

pub open spec fn strip_start_non_alnum(s: Seq<char>) -> Seq<char>
    decreases s.len(),
{
    if s.len() > 0 && !is_alnum(s[0]) {
        strip_start_non_alnum(s.drop_first())
    } else {
        s
    }
}

pub open spec fn strip_end_non_alnum(s: Seq<char>) -> Seq<char>
    decreases s.len(),
{
    if s.len() > 0 && !is_alnum(s.last()) {
        strip_end_non_alnum(s.drop_last())
    } else {
        s
    }
}

/// `str::trim_matches(|c| !c.is_ascii_alphanumeric())`.
pub open spec fn trim_non_alnum(s: Seq<char>) -> Seq<char> {
    strip_end_non_alnum(strip_start_non_alnum(s))
}

fn alnum(c: char) -> (r: bool)
    ensures
        r == is_alnum(c),
{
    ('0' <= c && c <= '9') || ('a' <= c && c <= 'z') || ('A' <= c && c <= 'Z')
}

fn trim_non_alnum_chars(s: &Vec<char>) -> (r: Vec<char>)
    ensures
        r@ == trim_non_alnum(s@),
{
    let mut i: usize = 0;
    assert(s@.skip(0) =~= s@);
    while i < s.len() && !alnum(s[i])
        invariant
            i <= s.len(),
            strip_start_non_alnum(s@) == strip_start_non_alnum(s@.skip(i as int)),
        decreases s.len() - i,
    {
        assert(s@.skip(i as int).drop_first() =~= s@.skip(i + 1));
        i += 1;
    }
    let mut j = s.len();
    assert(s@.skip(i as int) =~= s@.subrange(i as int, j as int));
    while j > i && !alnum(s[j - 1])
        invariant
            i <= j <= s.len(),
            strip_end_non_alnum(s@.skip(i as int)) == strip_end_non_alnum(
                s@.subrange(i as int, j as int),
            ),
        decreases j,
    {
        assert(s@.subrange(i as int, j as int).drop_last() =~= s@.subrange(i as int, j - 1));
        j -= 1;
    }
    slice_chars(s, i, j)
}

/// The line with an optional page prefix ("page ", "page, ", "p. ", "p ")
/// removed, lower-cased first.
pub open spec fn page_core(lower: Seq<char>) -> Seq<char> {
    if starts_with(lower, "page "@) {
        lower.skip("page "@.len() as int)
    } else if starts_with(lower, "page, "@) {
        lower.skip("page, "@.len() as int)
    } else if starts_with(lower, "p. "@) {
        lower.skip("p. "@.len() as int)
    } else if starts_with(lower, "p "@) {
        lower.skip("p "@.len() as int)
    } else {
        lower
    }
}

/// A whole line that is nothing but a page number: at most ten
/// non-blank characters after an optional "page"/"p." prefix, whose
/// alphanumeric core is number-ish.
pub open spec fn page_number(line: Seq<char>) -> bool {
    let compact = drop_ws(page_core(lowercase(trim(line))));
    compact.len() <= 10 && numberish(trim_non_alnum(compact))
}

fn strip_prefix_lit(s: &Vec<char>, lit: &str) -> (r: Option<Vec<char>>)
    ensures
        r matches Some(t) ==> starts_with(s@, lit@) && t@ == s@.skip(lit@.len() as int),
        r is None ==> !starts_with(s@, lit@),
{
    let p = chars_of(lit);
    if has_prefix(s, &p) {
        let t = slice_chars(s, p.len(), s.len());
        assert(t@ =~= s@.skip(lit@.len() as int));
        Some(t)
    } else {
        None
    }
}

/// `is_page_number` on characters.
pub fn page_number_chars(line: &Vec<char>) -> (r: bool)
    ensures
        r == page_number(line@),
{
    let t = trim_chars(line);
    let lower = lower_chars(&t);
    let core = match strip_prefix_lit(&lower, "page ") {
        Some(c) => c,
        None => match strip_prefix_lit(&lower, "page, ") {
            Some(c) => c,
            None => match strip_prefix_lit(&lower, "p. ") {
                Some(c) => c,
                None => match strip_prefix_lit(&lower, "p ") {
                    Some(c) => c,
                    None => lower,
                },
            },
        },
    };
    let mut compact: Vec<char> = Vec::new();
    let mut k: usize = 0;
    while k < core.len()
        invariant
            k <= core.len(),
            compact@ == drop_ws(core@.take(k as int)),
        decreases core.len() - k,
    {
        assert(core@.take(k + 1).drop_last() =~= core@.take(k as int));
        if !is_whitespace(core[k]) {
            compact.push(core[k]);
        }
        k += 1;
    }
    assert(core@.take(core.len() as int) =~= core@);
    if compact.len() > 10 {
        return false;
    }
    let c = trim_non_alnum_chars(&compact);
    numberish_chars(&c)
}

/// A whole line that is nothing but a page number: bare digits (with OCR
/// noise) or a roman numeral, optionally prefixed with "page"/"p." and
/// wrapped in dashes, brackets, or dots.
pub fn is_page_number(line: &str) -> (r: bool)
    ensures
        r == page_number(line@),
{
    let l = chars_of(line);
    page_number_chars(&l)
}

// ---------------------------------------------------------------------------
// Running headers and footers
// ---------------------------------------------------------------------------

/// Drops up to `n` leading number-ish tokens.
pub open spec fn peel_front(ws: Seq<Seq<char>>, n: nat) -> Seq<Seq<char>>
    decreases n,
{
    if n == 0 || ws.len() == 0 || !numberish(ws[0]) {
        ws
    } else {
        peel_front(ws.drop_first(), (n - 1) as nat)
    }
}

/// Drops up to `n` trailing number-ish tokens.
pub open spec fn peel_back(ws: Seq<Seq<char>>, n: nat) -> Seq<Seq<char>>
    decreases n,
{
    if n == 0 || ws.len() == 0 || !numberish(ws.last()) {
        ws
    } else {
        peel_back(ws.drop_last(), (n - 1) as nat)
    }
}

/// Clustering key of an edge line: its words without up to two number-ish
/// tokens at each end, joined by spaces and lower-cased; `None` when
/// nothing but numbers remains.
pub open spec fn header_key(line: Seq<char>) -> Option<Seq<char>> {
    let toks = peel_back(peel_front(words(line), 2), 2);
    if toks.len() == 0 {
        None
    } else {
        let key = lowercase(join(toks, seq![' ']));
        if key.len() == 0 {
            None
        } else {
            Some(key)
        }
    }
}

/// `header_key` on characters.
pub fn header_key_chars(line: &Vec<char>) -> (r: Option<Vec<char>>)
    ensures
        r matches Some(k) ==> header_key(line@) == Some(k@),
        r is None ==> header_key(line@) is None,
{
    let mut toks = split_ws(line);
    let mut f: usize = 0;
    while f < 2 && toks.len() > 0 && numberish_chars(&toks[0])
        invariant
            f <= 2,
            peel_front(words(line@), 2) == peel_front(views(toks@), (2 - f) as nat),
        decreases 2 - f,
    {
        let ghost before = toks@;
        toks.remove(0);
        assert(views(toks@) =~= views(before).drop_first());
        f += 1;
    }
    let mut b: usize = 0;
    while b < 2 && toks.len() > 0 && numberish_chars(&toks[toks.len() - 1])
        invariant
            b <= 2,
            peel_back(peel_front(words(line@), 2), 2) == peel_back(views(toks@), (2 - b) as nat),
        decreases 2 - b,
    {
        let ghost before = toks@;
        toks.pop();
        assert(views(toks@) =~= views(before).drop_last());
        b += 1;
    }
    if toks.len() == 0 {
        return None;
    }
    let mut sep: Vec<char> = Vec::new();
    sep.push(' ');
    assert(sep@ =~= seq![' ']);
    let joined = join_chars(&toks, &sep);
    let key = lower_chars(&joined);
    if key.len() == 0 {
        None
    } else {
        Some(key)
    }
}

/// How often `k` occurs in `keys`.
pub open spec fn key_count(keys: Seq<Seq<char>>, k: Seq<char>) -> nat
    decreases keys.len(),
{
    if keys.len() == 0 {
        0
    } else {
        key_count(keys.drop_last(), k) + if keys.last() == k {
            1nat
        } else {
            0nat
        }
    }
}

fn count_key(keys: &Vec<Vec<char>>, k: &Vec<char>) -> (r: usize)
    ensures
        r == key_count(views(keys@), k@),
{
    let mut n: usize = 0;
    let mut i: usize = 0;
    while i < keys.len()
        invariant
            i <= keys.len(),
            n == key_count(views(keys@).take(i as int), k@),
            n <= i,
        decreases keys.len() - i,
    {
        assert(views(keys@).take(i + 1).drop_last() =~= views(keys@).take(i as int));
        if eq_chars(&keys[i], k) {
            n += 1;
        }
        i += 1;
    }
    assert(views(keys@).take(keys.len() as int) =~= views(keys@));
    n
}

/// A running line must recur at the same page edge this often to count
/// as furniture.
pub const FURNITURE_MIN_PAGES: usize = 3;

/// An edge line whose key recurs at that edge on enough pages.
pub open spec fn furniture(keys: Seq<Seq<char>>, line: Seq<char>) -> bool {
    match header_key(line) {
        Some(k) => key_count(keys, k) >= FURNITURE_MIN_PAGES,
        None => false,
    }
}

/// `is_furniture`: `keys` lists the key of every counted page edge.
pub fn is_furniture(keys: &Vec<Vec<char>>, line: &Vec<char>) -> (r: bool)
    ensures
        r == furniture(views(keys@), line@),
{
    match header_key_chars(line) {
        Some(k) => count_key(keys, &k) >= FURNITURE_MIN_PAGES,
        None => false,
    }
}

} // verus!

verus! {

pub open spec fn first_nonempty(ls: Seq<Seq<char>>) -> Option<int>
    decreases ls.len(),
{
    if ls.len() == 0 {
        None
    } else if ls[0].len() > 0 {
        Some(0)
    } else {
        match first_nonempty(ls.drop_first()) {
            Some(k) => Some(k + 1),
            None => None,
        }
    }
}

pub open spec fn last_nonempty(ls: Seq<Seq<char>>) -> Option<int>
    decreases ls.len(),
{
    if ls.len() == 0 {
        None
    } else if ls.last().len() > 0 {
        Some(ls.len() - 1)
    } else {
        last_nonempty(ls.drop_last())
    }
}

proof fn lemma_first_nonempty_is(ls: Seq<Seq<char>>, k: int)
    requires
        0 <= k <= ls.len(),
        forall|j: int| 0 <= j < k ==> #[trigger] ls[j].len() == 0,
    ensures
        k < ls.len() && ls[k].len() > 0 ==> first_nonempty(ls) == Some(k),
        k == ls.len() ==> first_nonempty(ls) is None,
    decreases k,
{
    if k > 0 {
        assert forall|j: int| 0 <= j < k - 1 implies #[trigger] ls.drop_first()[j].len() == 0 by {
            assert(ls.drop_first()[j] == ls[j + 1]);
        }
        lemma_first_nonempty_is(ls.drop_first(), k - 1);
    }
}

proof fn lemma_last_nonempty_is(ls: Seq<Seq<char>>, k: int)
    requires
        -1 <= k < ls.len(),
        forall|j: int| k < j < ls.len() ==> #[trigger] ls[j].len() == 0,
    ensures
        k >= 0 && ls[k].len() > 0 ==> last_nonempty(ls) == Some(k),
        k == -1 ==> last_nonempty(ls) is None,
    decreases ls.len(),
{
    if ls.len() > 0 && k < ls.len() - 1 {
        assert forall|j: int| k < j < ls.drop_last().len() implies #[trigger] ls.drop_last()[j].len()
            == 0 by {
            assert(ls.drop_last()[j] == ls[j]);
        }
        lemma_last_nonempty_is(ls.drop_last(), k);
    }
}

fn first_nonempty_index(ls: &Vec<Vec<char>>) -> (r: Option<usize>)
    ensures
        r matches Some(i) ==> first_nonempty(views(ls@)) == Some(i as int) && i < ls.len(),
        r is None ==> first_nonempty(views(ls@)) is None,
{
    let mut i: usize = 0;
    while i < ls.len() && ls[i].len() == 0
        invariant
            i <= ls.len(),
            forall|j: int| 0 <= j < i ==> #[trigger] views(ls@)[j].len() == 0,
        decreases ls.len() - i,
    {
        i += 1;
    }
    proof {
        lemma_first_nonempty_is(views(ls@), i as int);
    }
    if i < ls.len() {
        Some(i)
    } else {
        None
    }
}

fn last_nonempty_index(ls: &Vec<Vec<char>>) -> (r: Option<usize>)
    ensures
        r matches Some(i) ==> last_nonempty(views(ls@)) == Some(i as int) && i < ls.len(),
        r is None ==> last_nonempty(views(ls@)) is None,
{
    let mut j: usize = ls.len();
    while j > 0 && ls[j - 1].len() == 0
        invariant
            j <= ls.len(),
            forall|k: int| j <= k < ls.len() ==> #[trigger] views(ls@)[k].len() == 0,
        decreases j,
    {
        j -= 1;
    }
    proof {
        lemma_last_nonempty_is(views(ls@), j - 1);
    }
    if j > 0 {
        Some(j - 1)
    } else {
        None
    }
}

/// The first (top) or last (bottom) non-empty line of a page.
pub open spec fn edge_index(ls: Seq<Seq<char>>, top: bool) -> Option<int> {
    if top {
        first_nonempty(ls)
    } else {
        last_nonempty(ls)
    }
}

/// An edge line goes when it is a bare page number (if the book paginates
/// that way) or recurring furniture.
pub open spec fn strippable(line: Seq<char>, keys: Seq<Seq<char>>, strip_numbers: bool) -> bool {
    (strip_numbers && page_number(line)) || furniture(keys, line)
}

/// Up to `n` edge lines removed from one side, and how many went.
pub open spec fn strip_edge_n(
    ls: Seq<Seq<char>>,
    top: bool,
    keys: Seq<Seq<char>>,
    strip_numbers: bool,
    n: nat,
) -> (Seq<Seq<char>>, nat)
    decreases n,
{
    if n == 0 {
        (ls, 0)
    } else {
        match edge_index(ls, top) {
            None => (ls, 0),
            Some(i) => if strippable(ls[i], keys, strip_numbers) {
                let (rest, c) = strip_edge_n(ls.remove(i), top, keys, strip_numbers, (n - 1) as nat);
                (rest, c + 1)
            } else {
                (ls, 0)
            },
        }
    }
}

proof fn lemma_nonempty_found(ls: Seq<Seq<char>>)
    ensures
        first_nonempty(ls) matches Some(i) ==> 0 <= i < ls.len() && ls[i].len() > 0,
        last_nonempty(ls) matches Some(i) ==> 0 <= i < ls.len() && ls[i].len() > 0,
    decreases ls.len(),
{
    if ls.len() > 0 {
        lemma_nonempty_found(ls.drop_first());
        lemma_nonempty_found(ls.drop_last());
    }
}

/// `ls` with its first (top) or last (bottom) non-empty line removed `c`
/// times.
pub open spec fn drop_edges(ls: Seq<Seq<char>>, top: bool, c: nat) -> Seq<Seq<char>>
    decreases c,
{
    if c == 0 {
        ls
    } else {
        match edge_index(ls, top) {
            Some(i) => drop_edges(ls.remove(i), top, (c - 1) as nat),
            None => ls,
        }
    }
}

/// The blank lines of a page.
pub open spec fn blanks(ls: Seq<Seq<char>>) -> Seq<Seq<char>> {
    ls.filter(|l: Seq<char>| l.len() == 0)
}

proof fn lemma_strip_edge_n(ls: Seq<Seq<char>>, top: bool, keys: Seq<Seq<char>>, sn: bool, n: nat)
    ensures
        strip_edge_n(ls, top, keys, sn, n).1 <= n,
        strip_edge_n(ls, top, keys, sn, n).0 == drop_edges(ls, top, strip_edge_n(ls, top, keys, sn, n).1),
        strip_edge_n(ls, top, keys, sn, n).0.len() + strip_edge_n(ls, top, keys, sn, n).1 == ls.len(),
        blanks(strip_edge_n(ls, top, keys, sn, n).0) == blanks(ls),
    decreases n,
{
    if n > 0 {
        lemma_nonempty_found(ls);
        match edge_index(ls, top) {
            Some(i) => if strippable(ls[i], keys, sn) {
                let rest = ls.remove(i);
                lemma_strip_edge_n(rest, top, keys, sn, (n - 1) as nat);
                let c = strip_edge_n(rest, top, keys, sn, (n - 1) as nat).1;
                assert(drop_edges(ls, top, c + 1) == drop_edges(rest, top, c));
                let pred = |l: Seq<char>| l.len() == 0;
                assert(ls =~= ls.take(i) + (seq![ls[i]] + ls.skip(i + 1)));
                assert(rest =~= ls.take(i) + ls.skip(i + 1));
                Seq::filter_distributes_over_add(ls.take(i), seq![ls[i]] + ls.skip(i + 1), pred);
                Seq::filter_distributes_over_add(seq![ls[i]], ls.skip(i + 1), pred);
                Seq::filter_distributes_over_add(ls.take(i), ls.skip(i + 1), pred);
                reveal_with_fuel(Seq::filter, 2);
                assert(seq![ls[i]].filter(pred) =~= Seq::<Seq<char>>::empty());
                assert(Seq::<Seq<char>>::empty() + ls.skip(i + 1).filter(pred) =~= ls.skip(i + 1).filter(pred));
            } else {
            },
            None => {},
        }
    }
}

fn strip_once(lines: &mut Vec<Vec<char>>, top: bool, keys: &Vec<Vec<char>>, strip_numbers: bool) -> (removed: bool)
    ensures
        removed ==> (edge_index(views(old(lines)@), top) matches Some(i) && strippable(
            views(old(lines)@)[i],
            views(keys@),
            strip_numbers,
        ) && views(final(lines)@) == views(old(lines)@).remove(i)),
        !removed ==> final(lines)@ == old(lines)@ && match edge_index(views(old(lines)@), top) {
            None => true,
            Some(i) => !strippable(views(old(lines)@)[i], views(keys@), strip_numbers),
        },
{
    let idx = if top {
        first_nonempty_index(lines)
    } else {
        last_nonempty_index(lines)
    };
    match idx {
        None => false,
        Some(i) => {
            let hit = (strip_numbers && page_number_chars(&lines[i])) || is_furniture(
                keys,
                &lines[i],
            );
            if hit {
                let ghost before = lines@;
                lines.remove(i);
                assert(views(lines@) =~= views(before).remove(i as int));
                true
            } else {
                false
            }
        },
    }
}

/// Drop up to two furniture lines from one edge of a page (the first or
/// last non-empty line), returning how many were removed.
pub fn strip_edge(lines: &mut Vec<Vec<char>>, top: bool, keys: &Vec<Vec<char>>, strip_numbers: bool) -> (stripped: usize)
    ensures
        (views(final(lines)@), stripped as nat) == strip_edge_n(
            views(old(lines)@),
            top,
            views(keys@),
            strip_numbers,
            2,
        ),
        stripped <= 2,
{
    proof {
        reveal_with_fuel(strip_edge_n, 3);
    }
    if strip_once(lines, top, keys, strip_numbers) {
        if strip_once(lines, top, keys, strip_numbers) {
            2
        } else {
            1
        }
    } else {
        0
    }
}

} // verus!

verus! {

/// The trimmed lines of a page, blanks kept.
pub open spec fn page_lines(p: Seq<char>) -> Seq<Seq<char>> {
    lines(p).map_values(|l: Seq<char>| trim(l))
}

pub open spec fn nonempty_count(ls: Seq<Seq<char>>) -> nat
    decreases ls.len(),
{
    if ls.len() == 0 {
        0
    } else {
        nonempty_count(ls.drop_last()) + if ls.last().len() > 0 {
            1nat
        } else {
            0nat
        }
    }
}

/// Pages with fewer than two non-empty lines are title/divider pages:
/// they neither count toward nor lose furniture.
pub open spec fn counted(ls: Seq<Seq<char>>) -> bool {
    nonempty_count(ls) >= 2
}

/// Keys of the top (or bottom) edge line of every counted page, in order.
pub open spec fn edge_keys(pls: Seq<Seq<Seq<char>>>, top: bool) -> Seq<Seq<char>>
    decreases pls.len(),
{
    if pls.len() == 0 {
        seq![]
    } else {
        let prev = edge_keys(pls.drop_last(), top);
        let ls = pls.last();
        if counted(ls) {
            match edge_index(ls, top) {
                Some(i) => match header_key(ls[i]) {
                    Some(k) => prev.push(k),
                    None => prev,
                },
                None => prev,
            }
        } else {
            prev
        }
    }
}

/// Counted pages whose first or last non-empty line is a page number.
pub open spec fn numbered_pages(pls: Seq<Seq<Seq<char>>>) -> nat
    decreases pls.len(),
{
    if pls.len() == 0 {
        0
    } else {
        let ls = pls.last();
        numbered_pages(pls.drop_last()) + if counted(ls) && (page_number(
            ls[first_nonempty(ls)->0],
        ) || page_number(ls[last_nonempty(ls)->0])) {
            1nat
        } else {
            0nat
        }
    }
}

/// One cleaned page and how many lines left it.
pub open spec fn clean_page(
    ls: Seq<Seq<char>>,
    tops: Seq<Seq<char>>,
    bottoms: Seq<Seq<char>>,
    strip_numbers: bool,
) -> (Seq<char>, nat) {
    if counted(ls) {
        let (a, s1) = strip_edge_n(ls, true, tops, strip_numbers, 2);
        let (b, s2) = strip_edge_n(a, false, bottoms, strip_numbers, 2);
        (join(b, seq!['\n']), s1 + s2)
    } else {
        (join(ls, seq!['\n']), 0)
    }
}

pub open spec fn clean_pages(
    pls: Seq<Seq<Seq<char>>>,
    tops: Seq<Seq<char>>,
    bottoms: Seq<Seq<char>>,
    strip_numbers: bool,
) -> (Seq<Seq<char>>, nat)
    decreases pls.len(),
{
    if pls.len() == 0 {
        (seq![], 0)
    } else {
        let (cs, n) = clean_pages(pls.drop_last(), tops, bottoms, strip_numbers);
        let (c, m) = clean_page(pls.last(), tops, bottoms, strip_numbers);
        (cs.push(c), n + m)
    }
}

pub open spec fn string_views(v: Seq<String>) -> Seq<Seq<char>> {
    v.map_values(|s: String| s@)
}

/// The cleaned pages and the number of dropped lines: bare page numbers
/// are stripped only when at least three pages (or a third of them) carry
/// one at an edge.
pub open spec fn furniture_stripped(pages: Seq<Seq<char>>) -> (Seq<Seq<char>>, nat) {
    let pls = pages.map_values(|p: Seq<char>| page_lines(p));
    let np = numbered_pages(pls);
    let strip_numbers = np >= FURNITURE_MIN_PAGES || np * 3 >= pages.len();
    clean_pages(pls, edge_keys(pls, true), edge_keys(pls, false), strip_numbers)
}

/// How many lines a page loses from its top and from its bottom.
pub open spec fn page_cut(ls: Seq<Seq<char>>, tops: Seq<Seq<char>>, bottoms: Seq<Seq<char>>, sn: bool) -> (nat, nat) {
    if counted(ls) {
        let (a, s1) = strip_edge_n(ls, true, tops, sn, 2);
        (s1, strip_edge_n(a, false, bottoms, sn, 2).1)
    } else {
        (0, 0)
    }
}

/// The lines a page keeps after losing `cut` lines from its edges.
pub open spec fn kept_lines(ls: Seq<Seq<char>>, cut: (nat, nat)) -> Seq<Seq<char>> {
    drop_edges(drop_edges(ls, true, cut.0), false, cut.1)
}

pub open spec fn cuts_total(pls: Seq<Seq<Seq<char>>>, tops: Seq<Seq<char>>, bottoms: Seq<Seq<char>>, sn: bool) -> nat
    decreases pls.len(),
{
    if pls.len() == 0 {
        0
    } else {
        let c = page_cut(pls.last(), tops, bottoms, sn);
        cuts_total(pls.drop_last(), tops, bottoms, sn) + c.0 + c.1
    }
}

/// The keys and the page-number switch furniture stripping uses.
pub open spec fn stripping_keys(pages: Seq<Seq<char>>) -> (Seq<Seq<char>>, Seq<Seq<char>>, bool) {
    let pls = pages.map_values(|p: Seq<char>| page_lines(p));
    let np = numbered_pages(pls);
    (edge_keys(pls, true), edge_keys(pls, false), np >= FURNITURE_MIN_PAGES || np * 3 >= pages.len())
}

proof fn lemma_page_cut(ls: Seq<Seq<char>>, tops: Seq<Seq<char>>, bottoms: Seq<Seq<char>>, sn: bool)
    ensures
        ({
            let cut = page_cut(ls, tops, bottoms, sn);
            &&& cut.0 <= 2 && cut.1 <= 2
            &&& !counted(ls) ==> cut == (0nat, 0nat)
            &&& clean_page(ls, tops, bottoms, sn) == (join(kept_lines(ls, cut), seq!['\n']), cut.0 + cut.1)
            &&& kept_lines(ls, cut).len() + cut.0 + cut.1 == ls.len()
            &&& blanks(kept_lines(ls, cut)) == blanks(ls)
        }),
{
    if counted(ls) {
        let (a, s1) = strip_edge_n(ls, true, tops, sn, 2);
        lemma_strip_edge_n(ls, true, tops, sn, 2);
        lemma_strip_edge_n(a, false, bottoms, sn, 2);
    } else {
        assert(drop_edges(drop_edges(ls, true, 0), false, 0) == ls);
    }
}

proof fn lemma_clean_pages(pls: Seq<Seq<Seq<char>>>, tops: Seq<Seq<char>>, bottoms: Seq<Seq<char>>, sn: bool)
    ensures
        clean_pages(pls, tops, bottoms, sn).0.len() == pls.len(),
        forall|i: int| 0 <= i < pls.len() ==> #[trigger] clean_pages(pls, tops, bottoms, sn).0[i] == clean_page(pls[i], tops, bottoms, sn).0,
        clean_pages(pls, tops, bottoms, sn).1 == cuts_total(pls, tops, bottoms, sn),
    decreases pls.len(),
{
    if pls.len() > 0 {
        lemma_clean_pages(pls.drop_last(), tops, bottoms, sn);
        lemma_page_cut(pls.last(), tops, bottoms, sn);
        let prev = clean_pages(pls.drop_last(), tops, bottoms, sn);
        assert forall|i: int| 0 <= i < pls.len() implies #[trigger] clean_pages(pls, tops, bottoms, sn).0[i] == clean_page(pls[i], tops, bottoms, sn).0 by {
            if i < pls.len() - 1 {
                assert(pls.drop_last()[i] == pls[i]);
                assert(prev.0[i] == clean_page(pls.drop_last()[i], tops, bottoms, sn).0);
            }
        }
    }
}

/// The shape of furniture stripping: one cleaned page per page; each is
/// the page's trimmed lines, joined by newlines, less at most two
/// non-empty lines from its top edge and two from its bottom edge (none
/// from a page with fewer than two non-empty lines), every other line
/// (blank ones included) kept in order; the count is the lines removed.
pub proof fn furniture_stripping_shape(pages: Seq<Seq<char>>)
    ensures
        furniture_stripped(pages).0.len() == pages.len(),
        forall|i: int| 0 <= i < pages.len() ==> ({
            let k = stripping_keys(pages);
            let ls = page_lines(#[trigger] pages[i]);
            let cut = page_cut(ls, k.0, k.1, k.2);
            &&& cut.0 <= 2 && cut.1 <= 2
            &&& !counted(ls) ==> cut == (0nat, 0nat)
            &&& furniture_stripped(pages).0[i] == join(kept_lines(ls, cut), seq!['\n'])
            &&& kept_lines(ls, cut).len() + cut.0 + cut.1 == ls.len()
            &&& blanks(kept_lines(ls, cut)) == blanks(ls)
        }),
        furniture_stripped(pages).1 == cuts_total(pages.map_values(|p: Seq<char>| page_lines(p)), stripping_keys(pages).0, stripping_keys(pages).1, stripping_keys(pages).2),
{
    let pls = pages.map_values(|p: Seq<char>| page_lines(p));
    let k = stripping_keys(pages);
    lemma_clean_pages(pls, k.0, k.1, k.2);
    assert forall|i: int| 0 <= i < pages.len() implies ({
        let ls = page_lines(#[trigger] pages[i]);
        let cut = page_cut(ls, k.0, k.1, k.2);
        &&& cut.0 <= 2 && cut.1 <= 2
        &&& !counted(ls) ==> cut == (0nat, 0nat)
        &&& furniture_stripped(pages).0[i] == join(kept_lines(ls, cut), seq!['\n'])
        &&& kept_lines(ls, cut).len() + cut.0 + cut.1 == ls.len()
        &&& blanks(kept_lines(ls, cut)) == blanks(ls)
    }) by {
        assert(pls[i] == page_lines(pages[i]));
        lemma_page_cut(pls[i], k.0, k.1, k.2);
    }
}

pub open spec fn views2(v: Seq<Vec<Vec<char>>>) -> Seq<Seq<Seq<char>>> {
    v.map_values(|ls: Vec<Vec<char>>| views(ls@))
}

fn trimmed_lines(p: &str) -> (r: Vec<Vec<char>>)
    ensures
        views(r@) == page_lines(p@),
{
    let c = chars_of(p);
    let ls = lines_of(&c);
    let mut r: Vec<Vec<char>> = Vec::new();
    let mut i: usize = 0;
    while i < ls.len()
        invariant
            i <= ls.len(),
            views(ls@) == lines(p@),
            views(r@) == page_lines(p@).take(i as int),
        decreases ls.len() - i,
    {
        let t = trim_chars(&ls[i]);
        assert(ls@[i as int]@ == views(ls@)[i as int]);
        assert(t@ == page_lines(p@)[i as int]);
        let ghost r0 = r@;
        r.push(t);
        assert(views(r@) =~= views(r0).push(t@));
        i += 1;
        assert(views(r@) =~= page_lines(p@).take(i as int));
    }
    assert(page_lines(p@).take(ls.len() as int) =~= page_lines(p@));
    r
}

fn count_nonempty(ls: &Vec<Vec<char>>) -> (r: usize)
    ensures
        r == nonempty_count(views(ls@)),
{
    let mut n: usize = 0;
    let mut i: usize = 0;
    while i < ls.len()
        invariant
            i <= ls.len(),
            n == nonempty_count(views(ls@).take(i as int)),
            n <= i,
        decreases ls.len() - i,
    {
        assert(views(ls@).take(i + 1).drop_last() =~= views(ls@).take(i as int));
        if ls[i].len() > 0 {
            n += 1;
        }
        i += 1;
    }
    assert(views(ls@).take(ls.len() as int) =~= views(ls@));
    n
}

proof fn lemma_counted_edges(ls: Seq<Seq<char>>)
    requires
        counted(ls),
    ensures
        first_nonempty(ls) is Some,
        last_nonempty(ls) is Some,
    decreases ls.len(),
{
    if ls.len() > 0 && ls.last().len() == 0 {
        lemma_counted_edges(ls.drop_last());
        assert(first_nonempty(ls.drop_last()) is Some);
        lemma_first_drop_last(ls);
    } else if ls.len() > 0 {
        lemma_first_some(ls);
    }
}

proof fn lemma_first_some(ls: Seq<Seq<char>>)
    requires
        ls.len() > 0,
        ls.last().len() > 0,
    ensures
        first_nonempty(ls) is Some,
    decreases ls.len(),
{
    if ls[0].len() == 0 {
        assert(ls.drop_first().last() == ls.last());
        lemma_first_some(ls.drop_first());
    }
}

proof fn lemma_first_drop_last(ls: Seq<Seq<char>>)
    requires
        ls.len() > 0,
        first_nonempty(ls.drop_last()) is Some,
    ensures
        first_nonempty(ls) is Some,
    decreases ls.len(),
{
    if ls[0].len() == 0 {
        assert(ls.drop_first().drop_last() =~= ls.drop_last().drop_first());
        lemma_first_drop_last(ls.drop_first());
    }
}

/// Remove running headers/footers and page numbers from page edges, keeping
/// blank lines (they carry the paragraph structure). Returns the cleaned
/// pages and how many lines were dropped.
#[verifier::spinoff_prover]
#[verifier::rlimit(40)]
pub fn strip_page_furniture(pages: &[String]) -> (r: (Vec<String>, usize))
    requires
        pages@.len() <= usize::MAX / 4,
    ensures
        (string_views(r.0@), r.1 as nat) == furniture_stripped(string_views(pages@)),
{
    let ghost pv = string_views(pages@);
    let ghost spls = pv.map_values(|p: Seq<char>| page_lines(p));
    let mut pls: Vec<Vec<Vec<char>>> = Vec::new();
    let mut tops: Vec<Vec<char>> = Vec::new();
    let mut bottoms: Vec<Vec<char>> = Vec::new();
    let mut np: usize = 0;
    let mut i: usize = 0;
    while i < pages.len()
        invariant
            i <= pages@.len() <= usize::MAX / 4,
            pv == string_views(pages@),
            spls == pv.map_values(|p: Seq<char>| page_lines(p)),
            views2(pls@) == spls.take(i as int),
            views(tops@) == edge_keys(spls.take(i as int), true),
            views(bottoms@) == edge_keys(spls.take(i as int), false),
            np == numbered_pages(spls.take(i as int)),
            np <= i,
        decreases pages.len() - i,
    {
        let ls = trimmed_lines(pages[i].as_str());
        let ghost prefix = spls.take(i as int);
        assert(spls.take(i + 1).drop_last() =~= prefix);
        assert(spls.take(i + 1).last() == views(ls@));
        if count_nonempty(&ls) >= 2 {
            proof {
                lemma_counted_edges(views(ls@));
            }
            let f = first_nonempty_index(&ls).unwrap();
            let l = last_nonempty_index(&ls).unwrap();
            let ghost t0 = tops@;
            let ghost b0 = bottoms@;
            match header_key_chars(&ls[f]) {
                Some(k) => {
                    tops.push(k);
                    assert(views(tops@) =~= views(t0).push(k@));
                },
                None => {},
            }
            match header_key_chars(&ls[l]) {
                Some(k) => {
                    bottoms.push(k);
                    assert(views(bottoms@) =~= views(b0).push(k@));
                },
                None => {},
            }
            if page_number_chars(&ls[f]) || page_number_chars(&ls[l]) {
                np += 1;
            }
        }
        pls.push(ls);
        i += 1;
        assert(views2(pls@) =~= spls.take(i as int));
    }
    assert(spls.take(pages.len() as int) =~= spls);
    let strip_numbers = np >= FURNITURE_MIN_PAGES || np * 3 >= pages.len();
    let mut cleaned: Vec<String> = Vec::new();
    let mut stripped: usize = 0;
    let mut j: usize = 0;
    let mut sep: Vec<char> = Vec::new();
    sep.push('\n');
    assert(sep@ =~= seq!['\n']);
    while j < pls.len()
        invariant
            j <= pls.len() == pages@.len() <= usize::MAX / 4,
            sep@ == seq!['\n'],
            views2(pls@) == spls,
            views(tops@) == edge_keys(spls, true),
            views(bottoms@) == edge_keys(spls, false),
            (string_views(cleaned@), stripped as nat) == clean_pages(
                spls.take(j as int),
                edge_keys(spls, true),
                edge_keys(spls, false),
                strip_numbers,
            ),
            stripped <= 4 * j,
        decreases pls.len() - j,
    {
        assert(spls.take(j + 1).drop_last() =~= spls.take(j as int));
        assert(views(pls@[j as int]@) == spls[j as int]);
        let (text, m) = clean_one(&pls[j], &tops, &bottoms, strip_numbers, &sep);
        let ghost c0 = cleaned@;
        let ghost tv = text@;
        cleaned.push(text);
        assert(string_views(cleaned@) =~= string_views(c0).push(tv));
        stripped += m;
        j += 1;
    }
    assert(spls.take(pls.len() as int) =~= spls);
    (cleaned, stripped)
}

fn clean_one(
    page: &Vec<Vec<char>>,
    tops: &Vec<Vec<char>>,
    bottoms: &Vec<Vec<char>>,
    strip_numbers: bool,
    sep: &Vec<char>,
) -> (r: (String, usize))
    requires
        sep@ == seq!['\n'],
    ensures
        (r.0@, r.1 as nat) == clean_page(views(page@), views(tops@), views(bottoms@), strip_numbers),
        r.1 <= 4,
{
    let mut ls = copy_lines(page);
    let mut m: usize = 0;
    if count_nonempty(&ls) >= 2 {
        let s1 = strip_edge(&mut ls, true, tops, strip_numbers);
        let s2 = strip_edge(&mut ls, false, bottoms, strip_numbers);
        m = s1 + s2;
    }
    let text = join_chars(&ls, sep);
    (string_of(&text), m)
}

fn copy_lines(ls: &Vec<Vec<char>>) -> (r: Vec<Vec<char>>)
    ensures
        views(r@) == views(ls@),
{
    let mut r: Vec<Vec<char>> = Vec::new();
    let mut i: usize = 0;
    while i < ls.len()
        invariant
            i <= ls.len(),
            views(r@) == views(ls@).take(i as int),
        decreases ls.len() - i,
    {
        let c = slice_chars(&ls[i], 0, ls[i].len());
        assert(c@ =~= ls@[i as int]@);
        assert(c@ == views(ls@)[i as int]);
        let ghost r0 = r@;
        r.push(c);
        assert(views(r@) =~= views(r0).push(c@));
        i += 1;
        assert(views(r@) =~= views(ls@).take(i as int));
    }
    assert(views(ls@).take(ls.len() as int) =~= views(ls@));
    r
}

} // verus!

verus! {

// ---------------------------------------------------------------------------
// Paragraphs and chapters
// ---------------------------------------------------------------------------

/// A paragraph from collected lines: joined by spaces with whitespace
/// collapsed; nothing when that leaves no text.
pub open spec fn flush_para(cur: Seq<Seq<char>>) -> Seq<Seq<char>> {
    if cur.len() == 0 {
        seq![]
    } else {
        let j = collapse(join(cur, seq![' ']));
        if j.len() == 0 {
            seq![]
        } else {
            seq![j]
        }
    }
}

/// Paragraphs of the remaining lines `ls` of a page, `cur` holding the
/// lines collected so far: blank lines end a paragraph when the page has
/// any; otherwise every six lines make one.
pub open spec fn para_scan(ls: Seq<Seq<char>>, has_blanks: bool, cur: Seq<Seq<char>>) -> Seq<
    Seq<char>,
>
    decreases ls.len(),
{
    if ls.len() == 0 {
        flush_para(cur)
    } else if ls[0].len() == 0 {
        if has_blanks {
            flush_para(cur) + para_scan(ls.drop_first(), has_blanks, seq![])
        } else {
            para_scan(ls.drop_first(), has_blanks, cur)
        }
    } else {
        let cur2 = cur.push(ls[0]);
        if !has_blanks && cur2.len() >= 6 {
            flush_para(cur2) + para_scan(ls.drop_first(), has_blanks, seq![])
        } else {
            para_scan(ls.drop_first(), has_blanks, cur2)
        }
    }
}

pub open spec fn page_paras(ls: Seq<Seq<char>>) -> Seq<Seq<char>> {
    para_scan(ls, exists|i: int| 0 <= i < ls.len() && (#[trigger] ls[i]).len() == 0, seq![])
}

/// Paragraphs of all pages, in order.
pub open spec fn paragraphs(pages: Seq<Seq<char>>) -> Seq<Seq<char>>
    decreases pages.len(),
{
    if pages.len() == 0 {
        seq![]
    } else {
        paragraphs(pages.drop_last()) + page_paras(page_lines(pages.last()))
    }
}

/// A paragraph as the grouping makes it: non-empty, whitespace collapsed.
pub open spec fn clean_para(p: Seq<char>) -> bool {
    p.len() > 0 && collapse(p) == p
}

proof fn lemma_flush_para_clean(cur: Seq<Seq<char>>)
    ensures
        forall|i: int| 0 <= i < flush_para(cur).len() ==> clean_para(#[trigger] flush_para(cur)[i]),
{
    if cur.len() > 0 {
        crate::text::lemma_collapse_idempotent(join(cur, seq![' ']));
    }
}

proof fn lemma_clean_concat(a: Seq<Seq<char>>, b: Seq<Seq<char>>)
    requires
        forall|i: int| 0 <= i < a.len() ==> clean_para(#[trigger] a[i]),
        forall|i: int| 0 <= i < b.len() ==> clean_para(#[trigger] b[i]),
    ensures
        forall|i: int| 0 <= i < (a + b).len() ==> clean_para(#[trigger] (a + b)[i]),
{
    assert forall|i: int| 0 <= i < (a + b).len() implies clean_para(#[trigger] (a + b)[i]) by {
        if i < a.len() {
            assert((a + b)[i] == a[i]);
        } else {
            assert((a + b)[i] == b[i - a.len()]);
        }
    }
}

proof fn lemma_para_scan_clean(ls: Seq<Seq<char>>, has_blanks: bool, cur: Seq<Seq<char>>)
    ensures
        forall|i: int| 0 <= i < para_scan(ls, has_blanks, cur).len() ==> clean_para(#[trigger] para_scan(ls, has_blanks, cur)[i]),
    decreases ls.len(),
{
    if ls.len() == 0 {
        lemma_flush_para_clean(cur);
        assert(para_scan(ls, has_blanks, cur) == flush_para(cur));
    } else if ls[0].len() == 0 {
        lemma_para_scan_clean(ls.drop_first(), has_blanks, seq![]);
        lemma_para_scan_clean(ls.drop_first(), has_blanks, cur);
        if has_blanks {
            lemma_flush_para_clean(cur);
            lemma_clean_concat(flush_para(cur), para_scan(ls.drop_first(), has_blanks, seq![]));
            assert(para_scan(ls, has_blanks, cur) == flush_para(cur) + para_scan(ls.drop_first(), has_blanks, seq![]));
        } else {
            assert(para_scan(ls, has_blanks, cur) == para_scan(ls.drop_first(), has_blanks, cur));
        }
    } else {
        let cur2 = cur.push(ls[0]);
        lemma_para_scan_clean(ls.drop_first(), has_blanks, seq![]);
        lemma_para_scan_clean(ls.drop_first(), has_blanks, cur2);
        if !has_blanks && cur2.len() >= 6 {
            lemma_flush_para_clean(cur2);
            lemma_clean_concat(flush_para(cur2), para_scan(ls.drop_first(), has_blanks, seq![]));
            assert(para_scan(ls, has_blanks, cur) == flush_para(cur2) + para_scan(ls.drop_first(), has_blanks, seq![]));
        } else {
            assert(para_scan(ls, has_blanks, cur) == para_scan(ls.drop_first(), has_blanks, cur2));
        }
    }
}

/// Every paragraph the grouping makes of the pages is non-empty and
/// already whitespace-collapsed (single spaces, none at the ends); the
/// paragraphs of each page follow those of the page before, so none takes
/// text from two pages.
pub proof fn paragraphs_are_collapsed(pages: Seq<Seq<char>>)
    ensures
        forall|i: int| 0 <= i < paragraphs(pages).len() ==> clean_para(#[trigger] paragraphs(pages)[i]),
        pages.len() > 0 ==> paragraphs(pages) == paragraphs(pages.drop_last()) + page_paras(page_lines(pages.last())),
    decreases pages.len(),
{
    if pages.len() > 0 {
        paragraphs_are_collapsed(pages.drop_last());
        let ls = page_lines(pages.last());
        lemma_para_scan_clean(ls, exists|i: int| 0 <= i < ls.len() && (#[trigger] ls[i]).len() == 0, seq![]);
        lemma_clean_concat(paragraphs(pages.drop_last()), page_paras(ls));
    }
}

proof fn lemma_flush_para_words(cur: Seq<Seq<char>>)
    ensures
        crate::text::flat_words(flush_para(cur)) == crate::text::flat_words(cur),
{
    let e = Seq::<Seq<char>>::empty();
    assert(crate::text::flat_words(e) =~= e);
    if cur.len() > 0 {
        let j = collapse(join(cur, seq![' ']));
        crate::text::lemma_words_collapse(join(cur, seq![' ']));
        crate::text::lemma_words_of_joined(cur);
        if j.len() == 0 {
            assert(words(j) =~= e);
        } else {
            assert(seq![j].drop_last() =~= e);
            assert(seq![j].last() == j);
            assert(crate::text::flat_words(seq![j]) == crate::text::flat_words(e) + words(j));
            assert(e + words(j) =~= words(j));
        }
    }
}

proof fn lemma_para_scan_words(ls: Seq<Seq<char>>, has_blanks: bool, cur: Seq<Seq<char>>)
    ensures
        crate::text::flat_words(para_scan(ls, has_blanks, cur)) == crate::text::flat_words(cur) + crate::text::flat_words(ls),
    decreases ls.len(),
{
    let e = Seq::<Seq<char>>::empty();
    assert(crate::text::flat_words(e) =~= e);
    if ls.len() == 0 {
        lemma_flush_para_words(cur);
        assert(crate::text::flat_words(cur) + e =~= crate::text::flat_words(cur));
        assert(para_scan(ls, has_blanks, cur) == flush_para(cur));
    } else {
        let l = ls[0];
        let rest = ls.drop_first();
        assert(ls =~= seq![l] + rest);
        crate::text::lemma_flat_words_concat(seq![l], rest);
        assert(seq![l].drop_last() =~= e);
        assert(seq![l].last() == l);
        assert(crate::text::flat_words(seq![l]) == crate::text::flat_words(e) + words(l));
        assert(e + words(l) =~= words(l));
        let fw = crate::text::flat_words(cur);
        if l.len() == 0 {
            assert(words(l) =~= e);
            assert(crate::text::flat_words(ls) =~= crate::text::flat_words(rest));
            if has_blanks {
                lemma_flush_para_words(cur);
                lemma_para_scan_words(rest, has_blanks, seq![]);
                crate::text::lemma_flat_words_concat(flush_para(cur), para_scan(rest, has_blanks, seq![]));
                assert(para_scan(ls, has_blanks, cur) == flush_para(cur) + para_scan(rest, has_blanks, seq![]));
                assert(e + crate::text::flat_words(rest) =~= crate::text::flat_words(rest));
            } else {
                lemma_para_scan_words(rest, has_blanks, cur);
                assert(para_scan(ls, has_blanks, cur) == para_scan(rest, has_blanks, cur));
            }
        } else {
            let cur2 = cur.push(l);
            assert(cur2.drop_last() =~= cur);
            assert(crate::text::flat_words(cur2) == fw + words(l));
            if !has_blanks && cur2.len() >= 6 {
                lemma_flush_para_words(cur2);
                lemma_para_scan_words(rest, has_blanks, seq![]);
                crate::text::lemma_flat_words_concat(flush_para(cur2), para_scan(rest, has_blanks, seq![]));
                assert(para_scan(ls, has_blanks, cur) == flush_para(cur2) + para_scan(rest, has_blanks, seq![]));
                assert(e + crate::text::flat_words(rest) =~= crate::text::flat_words(rest));
            } else {
                lemma_para_scan_words(rest, has_blanks, cur2);
                assert(para_scan(ls, has_blanks, cur) == para_scan(rest, has_blanks, cur2));
            }
            assert(fw + words(l) + crate::text::flat_words(rest) =~= fw + (words(l) + crate::text::flat_words(rest)));
        }
    }
}

/// The paragraphs hold exactly the pages' words, in order: splitting every
/// paragraph and every page at whitespace gives the same word sequence.
pub proof fn paragraphs_keep_every_word(pages: Seq<Seq<char>>)
    ensures
        crate::text::flat_words(paragraphs(pages)) == crate::text::flat_words(pages),
    decreases pages.len(),
{
    let e = Seq::<Seq<char>>::empty();
    if pages.len() == 0 {
        assert(crate::text::flat_words(e) =~= e);
    } else {
        paragraphs_keep_every_word(pages.drop_last());
        let p = pages.last();
        let ls = page_lines(p);
        let hb = exists|i: int| 0 <= i < ls.len() && (#[trigger] ls[i]).len() == 0;
        lemma_para_scan_words(ls, hb, seq![]);
        assert(crate::text::flat_words(e) =~= e);
        assert(e + crate::text::flat_words(ls) =~= crate::text::flat_words(ls));
        crate::text::lemma_flat_words_trimmed(lines(p));
        crate::text::lemma_words_lines(p);
        crate::text::lemma_flat_words_concat(paragraphs(pages.drop_last()), page_paras(ls));
    }
}

fn flush_into(cur: &mut Vec<Vec<char>>, paras: &mut Vec<String>)
    ensures
        final(cur)@.len() == 0,
        string_views(final(paras)@) == string_views(old(paras)@) + flush_para(views(old(cur)@)),
{
    if cur.len() == 0 {
        assert(string_views(paras@) + flush_para(views(cur@)) =~= string_views(paras@));
        return ;
    }
    let mut sp: Vec<char> = Vec::new();
    sp.push(' ');
    assert(sp@ =~= seq![' ']);
    let joined = join_chars(cur, &sp);
    let c = collapse_ws(&joined);
    if c.len() > 0 {
        let ghost p0 = paras@;
        let ghost cv = c@;
        paras.push(string_of(&c));
        assert(string_views(paras@) =~= string_views(p0) + seq![cv]);
    } else {
        assert(string_views(paras@) + flush_para(views(cur@)) =~= string_views(paras@));
    }
    cur.clear();
}

fn page_paragraphs(ls: &Vec<Vec<char>>, paras: &mut Vec<String>)
    ensures
        string_views(final(paras)@) == string_views(old(paras)@) + page_paras(views(ls@)),
{
    let ghost lv = views(ls@);
    let mut has_blanks = false;
    let mut k: usize = 0;
    while k < ls.len()
        invariant
            k <= ls.len(),
            lv == views(ls@),
            has_blanks == exists|i: int| 0 <= i < k && (#[trigger] lv[i]).len() == 0,
        decreases ls.len() - k,
    {
        if ls[k].len() == 0 {
            assert(lv[k as int].len() == 0);
            has_blanks = true;
        }
        k += 1;
    }
    let ghost start = string_views(paras@);
    let mut cur: Vec<Vec<char>> = Vec::new();
    let mut i: usize = 0;
    assert(lv.skip(0) =~= lv);
    assert(views(cur@) =~= Seq::<Seq<char>>::empty());
    assert(start + page_paras(lv) == string_views(paras@) + para_scan(lv, has_blanks, seq![]));
    while i < ls.len()
        invariant
            i <= ls.len(),
            lv == views(ls@),
            has_blanks == exists|j: int| 0 <= j < lv.len() && (#[trigger] lv[j]).len() == 0,
            start + page_paras(lv) == string_views(paras@) + para_scan(
                lv.skip(i as int),
                has_blanks,
                views(cur@),
            ),
        decreases ls.len() - i,
    {
        let ghost rest = lv.skip(i as int);
        assert(rest.drop_first() =~= lv.skip(i + 1));
        assert(rest[0] == ls@[i as int]@);
        if ls[i].len() == 0 {
            if has_blanks {
                let ghost p0 = string_views(paras@);
                let ghost c0 = views(cur@);
                flush_into(&mut cur, paras);
                assert(views(cur@) =~= Seq::<Seq<char>>::empty());
                assert(p0 + (flush_para(c0) + para_scan(lv.skip(i + 1), has_blanks, seq![])) =~= (p0
                    + flush_para(c0)) + para_scan(lv.skip(i + 1), has_blanks, seq![]));
            }
        } else {
            let line = slice_chars(&ls[i], 0, ls[i].len());
            assert(line@ =~= rest[0]);
            let ghost c0 = views(cur@);
            cur.push(line);
            assert(views(cur@) =~= c0.push(rest[0]));
            if !has_blanks && cur.len() >= 6 {
                let ghost p0 = string_views(paras@);
                let ghost c1 = views(cur@);
                flush_into(&mut cur, paras);
                assert(views(cur@) =~= Seq::<Seq<char>>::empty());
                assert(p0 + (flush_para(c1) + para_scan(lv.skip(i + 1), has_blanks, seq![])) =~= (p0
                    + flush_para(c1)) + para_scan(lv.skip(i + 1), has_blanks, seq![]));
            }
        }
        i += 1;
    }
    assert(lv.skip(i as int) =~= Seq::<Seq<char>>::empty());
    let ghost p0 = string_views(paras@);
    flush_into(&mut cur, paras);
}

/// Turn the flat page text into paragraph blocks: blank lines split
/// paragraphs; when a page has no blank lines, group consecutive lines
/// so paragraphs stay reasonably sized for translation.
pub fn paragraphs_from_pages(pages: &[String]) -> (r: Vec<String>)
    ensures
        string_views(r@) == paragraphs(string_views(pages@)),
{
    let ghost pv = string_views(pages@);
    let mut paras: Vec<String> = Vec::new();
    let mut i: usize = 0;
    while i < pages.len()
        invariant
            i <= pages@.len(),
            pv == string_views(pages@),
            string_views(paras@) == paragraphs(pv.take(i as int)),
        decreases pages.len() - i,
    {
        assert(pv.take(i + 1).drop_last() =~= pv.take(i as int));
        let ls = trimmed_lines(pages[i].as_str());
        page_paragraphs(&ls, &mut paras);
        i += 1;
    }
    assert(pv.take(pages.len() as int) =~= pv);
    paras
}

/// Target size of a synthesized chapter, in characters.
pub const CHAPTER_CHAR_TARGET: usize = 8000;

/// Chapters of the remaining paragraphs, `cur` holding the current
/// chapter and `len` its size: a paragraph that would push a non-empty
/// chapter past the target starts a new one.
pub open spec fn chunk_scan(ps: Seq<Seq<char>>, cur: Seq<Seq<char>>, len: nat) -> Seq<Seq<Seq<char>>>
    decreases ps.len(),
{
    if ps.len() == 0 {
        if cur.len() == 0 {
            seq![]
        } else {
            seq![cur]
        }
    } else {
        let plen = ps[0].len();
        if cur.len() > 0 && len + plen > CHAPTER_CHAR_TARGET {
            seq![cur] + chunk_scan(ps.drop_first(), seq![ps[0]], plen)
        } else {
            chunk_scan(ps.drop_first(), cur.push(ps[0]), len + plen)
        }
    }
}

pub open spec fn chapters_of(ps: Seq<Seq<char>>) -> Seq<Seq<Seq<char>>> {
    chunk_scan(ps, seq![], 0)
}

proof fn lemma_chunk_scan(ps: Seq<Seq<char>>, cur: Seq<Seq<char>>, len: nat)
    ensures
        chunk_scan(ps, cur, len).flatten() == cur + ps,
        forall|k: int| 0 <= k < chunk_scan(ps, cur, len).len() ==> (#[trigger] chunk_scan(ps, cur, len)[k]).len() > 0,
    decreases ps.len(),
{
    if ps.len() == 0 {
        if cur.len() > 0 {
            assert(seq![cur].drop_first() =~= Seq::<Seq<Seq<char>>>::empty());
            assert(seq![cur].flatten() == cur + Seq::<Seq<Seq<char>>>::empty().flatten());
        }
        assert(cur + ps =~= cur);
    } else {
        let plen = ps[0].len();
        assert(seq![ps[0]] + ps.drop_first() =~= ps);
        if cur.len() > 0 && len + plen > CHAPTER_CHAR_TARGET {
            let rest = chunk_scan(ps.drop_first(), seq![ps[0]], plen);
            lemma_chunk_scan(ps.drop_first(), seq![ps[0]], plen);
            let all = seq![cur] + rest;
            assert(all.drop_first() =~= rest);
            assert(all.flatten() == cur + rest.flatten());
            assert(cur + (seq![ps[0]] + ps.drop_first()) =~= cur + ps);
            assert forall|k: int| 0 <= k < all.len() implies (#[trigger] all[k]).len() > 0 by {
                if k > 0 {
                    assert(all[k] == rest[k - 1]);
                }
            }
        } else {
            let grown = cur.push(ps[0]);
            lemma_chunk_scan(ps.drop_first(), grown, len + plen);
            assert(grown + ps.drop_first() =~= cur + ps);
        }
    }
}

/// The characters of a chapter's paragraphs.
pub open spec fn chapter_chars(c: Seq<Seq<char>>) -> nat
    decreases c.len(),
{
    if c.len() == 0 {
        0
    } else {
        chapter_chars(c.drop_last()) + c.last().len()
    }
}

proof fn lemma_chunk_first(ps: Seq<Seq<char>>, cur: Seq<Seq<char>>, len: nat)
    requires
        cur.len() > 0,
    ensures
        chunk_scan(ps, cur, len).len() > 0,
        chunk_scan(ps, cur, len)[0].len() > 0,
        chunk_scan(ps, cur, len)[0][0] == cur[0],
    decreases ps.len(),
{
    if ps.len() > 0 {
        let plen = ps[0].len();
        if !(cur.len() > 0 && len + plen > CHAPTER_CHAR_TARGET) {
            let grown = cur.push(ps[0]);
            lemma_chunk_first(ps.drop_first(), grown, len + plen);
        }
    }
}

#[verifier::rlimit(40)]
proof fn lemma_chunk_sizes(ps: Seq<Seq<char>>, cur: Seq<Seq<char>>, len: nat)
    requires
        len == chapter_chars(cur),
        cur.len() >= 2 ==> len <= CHAPTER_CHAR_TARGET,
    ensures
        forall|k: int| 0 <= k < chunk_scan(ps, cur, len).len() ==> {
            (#[trigger] chunk_scan(ps, cur, len)[k]).len() >= 2 ==> chapter_chars(chunk_scan(ps, cur, len)[k]) <= CHAPTER_CHAR_TARGET
        },
        forall|k: int| 0 <= k < chunk_scan(ps, cur, len).len() - 1 ==>
            chapter_chars(#[trigger] chunk_scan(ps, cur, len)[k]) + chunk_scan(ps, cur, len)[k + 1][0].len() > CHAPTER_CHAR_TARGET,
    decreases ps.len(),
{
    let r = chunk_scan(ps, cur, len);
    if ps.len() == 0 {
    } else {
        let plen = ps[0].len();
        if cur.len() > 0 && len + plen > CHAPTER_CHAR_TARGET {
            let one = seq![ps[0]];
            assert(one.drop_last() =~= Seq::<Seq<char>>::empty());
            assert(chapter_chars(one.drop_last()) == 0);
            assert(one.last() == ps[0]);
            assert(chapter_chars(one) == plen);
            let rest = chunk_scan(ps.drop_first(), one, plen);
            lemma_chunk_sizes(ps.drop_first(), one, plen);
            lemma_chunk_first(ps.drop_first(), one, plen);
            assert(r == seq![cur] + rest);
            assert forall|k: int| 0 <= k < r.len() implies
                ((#[trigger] r[k]).len() >= 2 ==> chapter_chars(r[k]) <= CHAPTER_CHAR_TARGET) by {
                if k > 0 {
                    assert(r[k] == rest[k - 1]);
                }
            }
            assert forall|k: int| 0 <= k < r.len() - 1 implies
                chapter_chars(#[trigger] r[k]) + r[k + 1][0].len() > CHAPTER_CHAR_TARGET by {
                if k > 0 {
                    assert(r[k] == rest[k - 1]);
                    assert(r[k + 1] == rest[k]);
                } else {
                    assert(r[0] == cur);
                    assert(r[1] == rest[0]);
                }
            }
        } else {
            let grown = cur.push(ps[0]);
            assert(grown.drop_last() =~= cur);
            assert(chapter_chars(grown) == len + plen);
            lemma_chunk_sizes(ps.drop_first(), grown, len + plen);
            assert(r == chunk_scan(ps.drop_first(), grown, len + plen));
        }
    }
}

/// How chapters are cut: a chapter of several paragraphs stays within
/// `CHAPTER_CHAR_TARGET` characters (a single paragraph may exceed it, as
/// a paragraph is never split), and a chapter is closed only when the
/// next chapter's first paragraph would have pushed it past the target.
pub proof fn chapters_close_only_when_full(ps: Seq<Seq<char>>)
    ensures
        forall|k: int| 0 <= k < chapters_of(ps).len() ==> {
            (#[trigger] chapters_of(ps)[k]).len() >= 2 ==> chapter_chars(chapters_of(ps)[k]) <= CHAPTER_CHAR_TARGET
        },
        forall|k: int| 0 <= k < chapters_of(ps).len() - 1 ==>
            chapter_chars(#[trigger] chapters_of(ps)[k]) + chapters_of(ps)[k + 1][0].len() > CHAPTER_CHAR_TARGET,
{
    assert(chapter_chars(Seq::<Seq<char>>::empty()) == 0);
    lemma_chunk_sizes(ps, seq![], 0);
}

/// Chapters keep the paragraphs in reading order: written one after
/// another they give back exactly the paragraphs, and no chapter is empty.
pub proof fn chapters_keep_reading_order(ps: Seq<Seq<char>>)
    ensures
        chapters_of(ps).flatten() == ps,
        forall|k: int| 0 <= k < chapters_of(ps).len() ==> (#[trigger] chapters_of(ps)[k]).len() > 0,
{
    lemma_chunk_scan(ps, seq![], 0);
    assert(Seq::<Seq<char>>::empty() + ps =~= ps);
}

pub open spec fn string_views2(v: Seq<Vec<String>>) -> Seq<Seq<Seq<char>>> {
    v.map_values(|c: Vec<String>| string_views(c@))
}

/// Groups paragraphs into chapters of about `CHAPTER_CHAR_TARGET`
/// characters; a paragraph is never split.
pub fn chunk_chapters(paras: Vec<String>) -> (r: Vec<Vec<String>>)
    ensures
        string_views2(r@) == chapters_of(string_views(paras@)),
{
    let ghost pv = string_views(paras@);
    let mut chapters: Vec<Vec<String>> = Vec::new();
    let mut current: Vec<String> = Vec::new();
    // `len` saturates above the target: past it every further paragraph
    // overflows the chapter anyway.
    let mut len: usize = 0;
    let ghost mut glen: nat = 0;
    let mut i: usize = 0;
    assert(pv.skip(0) =~= pv);
    assert(string_views(current@) =~= Seq::<Seq<char>>::empty());
    assert(string_views2(chapters@) =~= Seq::<Seq<Seq<char>>>::empty());
    assert(chapters_of(pv) =~= string_views2(chapters@) + chunk_scan(pv, seq![], 0));
    while i < paras.len()
        invariant
            i <= paras@.len(),
            pv == string_views(paras@),
            chapters_of(pv) == string_views2(chapters@) + chunk_scan(
                pv.skip(i as int),
                string_views(current@),
                glen,
            ),
            len as nat == if glen <= CHAPTER_CHAR_TARGET {
                glen
            } else {
                (CHAPTER_CHAR_TARGET + 1) as nat
            },
        decreases paras.len() - i,
    {
        let p = paras[i].clone();
        assert(p@ == pv[i as int]);
        let ghost rest = pv.skip(i as int);
        assert(rest.drop_first() =~= pv.skip(i + 1));
        let plen = chars_of(p.as_str()).len();
        let over = if len > CHAPTER_CHAR_TARGET {
            true
        } else {
            plen > CHAPTER_CHAR_TARGET - len
        };
        if current.len() > 0 && over {
            let ghost cv = string_views(current@);
            let ghost ch0 = chapters@;
            chapters.push(current);
            assert(string_views2(chapters@) =~= string_views2(ch0).push(cv));
            current = Vec::new();
            let ghost c0 = current@;
            current.push(p);
            assert(string_views(current@) =~= seq![rest[0]]);
            len = if plen > CHAPTER_CHAR_TARGET {
                CHAPTER_CHAR_TARGET + 1
            } else {
                plen
            };
            proof {
                glen = plen as nat;
                assert(string_views2(ch0).push(cv) + chunk_scan(pv.skip(i + 1), seq![rest[0]], glen)
                    =~= string_views2(ch0) + (seq![cv] + chunk_scan(
                    pv.skip(i + 1),
                    seq![rest[0]],
                    glen,
                )));
            }
        } else {
            let ghost c0 = string_views(current@);
            current.push(p);
            assert(string_views(current@) =~= c0.push(rest[0]));
            len = if over {
                CHAPTER_CHAR_TARGET + 1
            } else {
                len + plen
            };
            proof {
                glen = (glen + plen) as nat;
            }
        }
        i += 1;
    }
    assert(pv.skip(i as int) =~= Seq::<Seq<char>>::empty());
    if current.len() > 0 {
        let ghost cv = string_views(current@);
        let ghost ch0 = chapters@;
        chapters.push(current);
        assert(string_views2(chapters@) =~= string_views2(ch0) + seq![cv]);
    } else {
        assert(string_views2(chapters@) + Seq::<Seq<Seq<char>>>::empty() =~= string_views2(
            chapters@,
        ));
    }
    chapters
}

} // verus!

verus! {

// ---------------------------------------------------------------------------
// Markdown from the fallback reader
// ---------------------------------------------------------------------------

/// Non-overlapping left-to-right removal of `pat` (`str::replace(pat, "")`).
pub open spec fn remove_all(s: Seq<char>, pat: Seq<char>) -> Seq<char>
    decreases s.len(),
{
    if pat.len() == 0 || s.len() < pat.len() {
        s
    } else if starts_with(s, pat) {
        remove_all(s.skip(pat.len() as int), pat)
    } else {
        seq![s[0]] + remove_all(s.drop_first(), pat)
    }
}

fn remove_all_chars(s: &Vec<char>, pat: &Vec<char>) -> (r: Vec<char>)
    ensures
        r@ == remove_all(s@, pat@),
{
    if pat.len() == 0 {
        return slice_chars(s, 0, s.len());
    }
    let mut r: Vec<char> = Vec::new();
    let mut i: usize = 0;
    assert(s@.skip(0) =~= s@);
    while i < s.len()
        invariant
            i <= s.len(),
            pat.len() > 0,
            remove_all(s@, pat@) == r@ + remove_all(s@.skip(i as int), pat@),
        decreases s.len() - i,
    {
        let ghost t = s@.skip(i as int);
        if matches_at(s, pat, i) {
            assert(t.take(pat@.len() as int) =~= s@.subrange(i as int, i + pat@.len()));
            assert(t.skip(pat@.len() as int) =~= s@.skip(i + pat@.len()));
            i += pat.len();
        } else {
            proof {
                if t.len() >= pat@.len() {
                    assert(t.take(pat@.len() as int) =~= s@.subrange(i as int, i + pat@.len()));
                }
                assert(t.drop_first() =~= s@.skip(i + 1));
                if t.len() < pat@.len() {
                    assert(t =~= seq![t[0]] + t.drop_first());
                    assert(remove_all(t.drop_first(), pat@) == t.drop_first());
                }
            }
            let ghost r0 = r@;
            r.push(s[i]);
            assert(r@ + remove_all(s@.skip(i + 1), pat@) =~= r0 + (seq![t[0]] + remove_all(
                t.drop_first(),
                pat@,
            )));
            i += 1;
        }
    }
    assert(s@.skip(i as int) =~= Seq::<char>::empty());
    assert(r@ + Seq::<char>::empty() =~= r@);
    r
}

/// `s` with every `c` replaced by `to`.
pub open spec fn map_char(s: Seq<char>, c: char, to: char) -> Seq<char> {
    s.map_values(|x: char| if x == c { to } else { x })
}

/// `s` without any `c`.
pub open spec fn remove_char(s: Seq<char>, c: char) -> Seq<char>
    decreases s.len(),
{
    if s.len() == 0 {
        seq![]
    } else if s.last() == c {
        remove_char(s.drop_last(), c)
    } else {
        remove_char(s.drop_last(), c).push(s.last())
    }
}

fn replace_char(s: &Vec<char>, c: char, to: Option<char>) -> (r: Vec<char>)
    ensures
        to matches Some(t) ==> r@ == map_char(s@, c, t),
        to is None ==> r@ == remove_char(s@, c),
{
    let mut r: Vec<char> = Vec::new();
    let mut i: usize = 0;
    while i < s.len()
        invariant
            i <= s.len(),
            to matches Some(t) ==> r@ == map_char(s@.take(i as int), c, t),
            to is None ==> r@ == remove_char(s@.take(i as int), c),
        decreases s.len() - i,
    {
        assert(s@.take(i + 1).drop_last() =~= s@.take(i as int));
        let x = s[i];
        let ghost r0 = r@;
        if x == c {
            match to {
                Some(t) => r.push(t),
                None => {},
            }
        } else {
            r.push(x);
        }
        i += 1;
        proof {
            if let Some(t) = to {
                assert(r@ =~= map_char(s@.take(i as int), c, t));
            }
        }
    }
    assert(s@.take(s.len() as int) =~= s@);
    r
}

pub open spec fn trim_start_hash(s: Seq<char>) -> Seq<char>
    decreases s.len(),
{
    if s.len() > 0 && s[0] == '#' {
        trim_start_hash(s.drop_first())
    } else {
        s
    }
}

/// `[text](url)` reduced to `text`, scanning left to right.
pub open spec fn links_stripped(s: Seq<char>) -> Seq<char>
    decreases s.len(),
{
    match find_char(s, '[') {
        None => s,
        Some(open) => {
            proof {
                lemma_find_char_props(s, '[');
            }
            match find_char(s.skip(open), ']') {
                None => s,
                Some(cr) => {
                    proof {
                        lemma_find_char_props(s.skip(open), ']');
                    }
                    let close = open + cr;
                    let after = s.skip(close);
                    if starts_with(after, "]("@) && find_char(after, ')') is Some {
                        let end = find_char(after, ')')->0;
                        proof {
                            lemma_find_char_props(after, ')');
                        }
                        s.take(open) + s.subrange(open + 1, close) + links_stripped(
                            after.skip(end + 1),
                        )
                    } else {
                        s.take(open + 1) + links_stripped(s.skip(open + 1))
                    }
                },
            }
        },
    }
}

/// Reduce `[text](url)` to `text` without a regex dependency.
pub fn strip_links_chars(s: &Vec<char>) -> (r: Vec<char>)
    ensures
        r@ == links_stripped(s@),
{
    let mut out: Vec<char> = Vec::new();
    let mut start: usize = 0;
    assert(s@.skip(0) =~= s@);
    let lp = chars_of("](");
    loop
        invariant
            start <= s.len(),
            lp@ == "]("@,
            links_stripped(s@) == out@ + links_stripped(s@.skip(start as int)),
        decreases s.len() - start,
    {
        let ghost rest = s@.skip(start as int);
        let open = find_from(s, '[', start);
        if open == s.len() {
            let tail = slice_chars(s, start, s.len());
            assert(tail@ =~= rest);
            append_seq(&mut out, &tail);
            return out;
        }
        let close = find_from(s, ']', open);
        assert(rest.skip(open - start) =~= s@.skip(open as int));
        if close == s.len() {
            let tail = slice_chars(s, start, s.len());
            assert(tail@ =~= rest);
            append_seq(&mut out, &tail);
            return out;
        }
        let link = matches_at(s, &lp, close);
        let end = find_from(s, ')', close);
        assert(rest.skip(close - start) =~= s@.skip(close as int));
        proof {
            if close + lp@.len() <= s@.len() {
                assert(s@.skip(close as int).take(lp@.len() as int) =~= s@.subrange(
                    close as int,
                    close + lp@.len(),
                ));
            }
        }
        if link && end < s.len() {
            let a = slice_chars(s, start, open);
            let b = slice_chars(s, open + 1, close);
            assert(a@ =~= rest.take(open - start));
            assert(b@ =~= rest.subrange(open - start + 1, close - start));
            let ghost o0 = out@;
            append_seq(&mut out, &a);
            append_seq(&mut out, &b);
            assert(s@.skip(close as int).skip(end - close + 1) =~= s@.skip(end + 1));
            assert(o0 + (a@ + b@ + links_stripped(s@.skip(end + 1))) =~= out@ + links_stripped(
                s@.skip(end + 1),
            ));
            start = end + 1;
        } else {
            let a = slice_chars(s, start, open + 1);
            assert(a@ =~= rest.take(open - start + 1));
            let ghost o0 = out@;
            append_seq(&mut out, &a);
            assert(o0 + (a@ + links_stripped(s@.skip(open + 1))) =~= out@ + links_stripped(
                s@.skip(open + 1),
            ));
            assert(rest.skip(open - start + 1) =~= s@.skip(open + 1));
            start = open + 1;
        }
    }
}

/// Reduce `[text](url)` to `text` without a regex dependency.
pub fn strip_links(s: &str) -> (r: String)
    ensures
        r@ == links_stripped(s@),
{
    let c = chars_of(s);
    let r = strip_links_chars(&c);
    string_of(&r)
}

/// One non-blank markdown line as plain text: heading marks, links,
/// emphasis and (for table rows) cell bars removed.
pub open spec fn md_line(t: Seq<char>) -> Seq<char> {
    let l = links_stripped(trim(trim_start_hash(t)));
    let l = remove_char(remove_all(remove_all(l, "**"@), "__"@), '*');
    let l = if starts_with(t, "|"@) {
        map_char(l, '|', ' ')
    } else {
        l
    };
    trim(l)
}

/// Plain text of markdown lines: blank lines kept as blank, code fences
/// and table separator rows dropped.
pub open spec fn md_lines(ls: Seq<Seq<char>>) -> Seq<char>
    decreases ls.len(),
{
    if ls.len() == 0 {
        seq![]
    } else {
        let t = trim(ls.last());
        md_lines(ls.drop_last()) + if t.len() == 0 {
            seq!['\n']
        } else if starts_with(t, "```"@) || (starts_with(t, "|"@) && contains(t, "---"@)) {
            seq![]
        } else {
            md_line(t).push('\n')
        }
    }
}

pub open spec fn markdown_flattened(md: Seq<char>) -> Seq<char> {
    md_lines(lines(md))
}

fn md_line_chars(t: &Vec<char>) -> (r: Vec<char>)
    ensures
        r@ == md_line(t@),
{
    let mut i: usize = 0;
    assert(t@.skip(0) =~= t@);
    while i < t.len() && t[i] == '#'
        invariant
            i <= t.len(),
            trim_start_hash(t@) == trim_start_hash(t@.skip(i as int)),
        decreases t.len() - i,
    {
        assert(t@.skip(i as int).drop_first() =~= t@.skip(i + 1));
        i += 1;
    }
    let h = slice_chars(t, i, t.len());
    assert(h@ =~= t@.skip(i as int));
    let l = trim_chars(&h);
    let l = strip_links_chars(&l);
    let l = remove_all_chars(&l, &chars_of("**"));
    let l = remove_all_chars(&l, &chars_of("__"));
    let l = replace_char(&l, '*', None);
    let bar = chars_of("|");
    let l = if has_prefix(t, &bar) {
        replace_char(&l, '|', Some(' '))
    } else {
        l
    };
    trim_chars(&l)
}

/// Flatten the light markdown the fallback reader emits (headings,
/// emphasis, links, tables, code fences) into plain paragraph text.
/// Blank lines — the paragraph structure — are preserved.
pub fn strip_markdown(md: &str) -> (r: String)
    ensures
        r@ == markdown_flattened(md@),
{
    let c = chars_of(md);
    let ls = lines_of(&c);
    let fence = chars_of("```");
    let bar = chars_of("|");
    let dashes = chars_of("---");
    let mut out: Vec<char> = Vec::new();
    let mut i: usize = 0;
    while i < ls.len()
        invariant
            i <= ls.len(),
            views(ls@) == lines(md@),
            fence@ == "```"@,
            bar@ == "|"@,
            dashes@ == "---"@,
            out@ == md_lines(views(ls@).take(i as int)),
        decreases ls.len() - i,
    {
        assert(views(ls@).take(i + 1).drop_last() =~= views(ls@).take(i as int));
        assert(views(ls@).take(i + 1).last() == ls@[i as int]@);
        let t = trim_chars(&ls[i]);
        if t.len() == 0 {
            out.push('\n');
        } else if has_prefix(&t, &fence) || (has_prefix(&t, &bar) && has_sub(&t, &dashes)) {
            assert(out@ + Seq::<char>::empty() =~= out@);
        } else {
            let l = md_line_chars(&t);
            append_seq(&mut out, &l);
            out.push('\n');
        }
        i += 1;
    }
    assert(views(ls@).take(ls.len() as int) =~= views(ls@));
    string_of(&out)
}

/// Whether the bytes start with the PDF signature `%PDF-`.
pub open spec fn pdf_signature(bytes: Seq<u8>) -> bool {
    bytes.len() > 4 && bytes[0] == 0x25 && bytes[1] == 0x50 && bytes[2] == 0x44 && bytes[3] == 0x46
        && bytes[4] == 0x2d
}

pub fn is_pdf(bytes: &[u8]) -> (r: bool)
    ensures
        r == pdf_signature(bytes@),
{
    bytes.len() > 4 && bytes[0] == 0x25 && bytes[1] == 0x50 && bytes[2] == 0x44 && bytes[3] == 0x46
        && bytes[4] == 0x2d
}

} // verus!

verus! {

/// What `String::from_utf16_lossy` makes of UTF-16 code units: a high
/// surrogate followed by a low one is one character, any other surrogate
/// becomes U+FFFD, every other unit is its own character.
pub open spec fn utf16_lossy(u: Seq<u16>) -> Seq<char>
    decreases u.len(),
{
    if u.len() == 0 {
        seq![]
    } else if 0xD800 <= u[0] <= 0xDBFF && u.len() >= 2 && 0xDC00 <= u[1] <= 0xDFFF {
        seq![((0x10000 + (u[0] - 0xD800) * 0x400 + (u[1] - 0xDC00)) as u32) as char] + utf16_lossy(u.skip(2))
    } else if 0xD800 <= u[0] <= 0xDFFF {
        seq!['\u{FFFD}'] + utf16_lossy(u.drop_first())
    } else {
        seq![(u[0] as u32) as char] + utf16_lossy(u.drop_first())
    }
}

fn from_utf16(units: &[u16]) -> (r: String)
    ensures
        r@ == utf16_lossy(units@),
{
    let mut out: Vec<char> = Vec::new();
    let mut i: usize = 0;
    assert(units@.skip(0) =~= units@);
    while i < units.len()
        invariant
            i <= units@.len(),
            out@ + utf16_lossy(units@.skip(i as int)) == utf16_lossy(units@),
        decreases units.len() - i,
    {
        let ghost t = units@.skip(i as int);
        let ghost o0 = out@;
        let u = units[i];
        assert(t[0] == u);
        if 0xD800 <= u && u <= 0xDBFF && i + 1 < units.len() && 0xDC00 <= units[i + 1] && units[i + 1] <= 0xDFFF {
            let lo = units[i + 1];
            assert(t[1] == lo);
            let v: u32 = 0x10000 + ((u - 0xD800) as u32) * 0x400 + ((lo - 0xDC00) as u32);
            let c = match crate::html::char_from_u32(v) {
                Some(c) => c,
                None => '\u{FFFD}',
            };
            assert(t.skip(2) =~= units@.skip(i + 2));
            out.push(c);
            assert(o0 + (seq![c] + utf16_lossy(t.skip(2))) =~= out@ + utf16_lossy(units@.skip(i + 2)));
            i += 2;
        } else {
            let c = if 0xD800 <= u && u <= 0xDFFF {
                '\u{FFFD}'
            } else {
                match crate::html::char_from_u32(u as u32) {
                    Some(c) => c,
                    None => '\u{FFFD}',
                }
            };
            assert(t.drop_first() =~= units@.skip(i + 1));
            out.push(c);
            assert(o0 + (seq![c] + utf16_lossy(t.drop_first())) =~= out@ + utf16_lossy(units@.skip(i + 1)));
            i += 1;
        }
    }
    assert(units@.skip(i as int) =~= Seq::<u16>::empty());
    assert(out@ + Seq::<char>::empty() =~= out@);
    string_of(&out)
}

pub open spec fn opt_bytes(o: Option<Vec<u8>>) -> Option<Seq<u8>> {
    match o {
        Some(v) => Some(v@),
        None => None,
    }
}

/// Big-endian 16-bit units of byte pairs; an odd last byte is dropped.
pub open spec fn be_units(b: Seq<u8>) -> Seq<u16>
    decreases b.len(),
{
    if b.len() < 2 {
        seq![]
    } else {
        seq![(b[0] as u16 * 256 + b[1] as u16) as u16] + be_units(b.skip(2))
    }
}

/// A PDF string's text: UTF-16BE after a byte-order mark, else read as
/// UTF-8, invalid sequences replaced.
pub open spec fn pdf_text(s: Seq<u8>) -> Seq<char> {
    if s.len() >= 2 && s[0] == 0xFE && s[1] == 0xFF {
        utf16_lossy(be_units(s.skip(2)))
    } else {
        crate::epub::utf8_lossy(s)
    }
}

pub fn decode_pdf_string(s: &[u8]) -> (r: String)
    ensures
        r@ == pdf_text(s@),
{
    if s.len() >= 2 && s[0] == 0xFE && s[1] == 0xFF {
        let mut units: Vec<u16> = Vec::new();
        let mut i: usize = 2;
        assert(s@.skip(2) =~= s@.skip(i as int));
        while s.len() - i > 1
            invariant
                2 <= i <= s.len(),
                be_units(s@.skip(2)) == units@ + be_units(s@.skip(i as int)),
            decreases s.len() - i,
        {
            let ghost t = s@.skip(i as int);
            let u: u16 = (s[i] as u16) * 256 + (s[i + 1] as u16);
            let ghost u0 = units@;
            units.push(u);
            assert(t.skip(2) =~= s@.skip(i + 2));
            assert(u0 + (seq![u] + be_units(t.skip(2))) =~= units@ + be_units(s@.skip(i + 2)));
            i += 2;
        }
        assert(be_units(s@.skip(i as int)) =~= Seq::<u16>::empty());
        assert(units@ + Seq::<u16>::empty() =~= units@);
        from_utf16(units.as_slice())
    } else {
        crate::epub::text_of_bytes(s)
    }
}

/// The text of an Info entry, empty when missing.
pub open spec fn info_text(o: Option<Seq<u8>>) -> Seq<char> {
    match o {
        Some(s) => pdf_text(s),
        None => seq![],
    }
}

/// The first entry under `key` among a dictionary's (key, string) entries.
pub open spec fn info_entry(entries: Seq<(Seq<u8>, Seq<u8>)>, key: Seq<u8>) -> Option<Seq<u8>>
    decreases entries.len(),
{
    if entries.len() == 0 {
        None
    } else if entries[0].0 == key {
        Some(entries[0].1)
    } else {
        info_entry(entries.drop_first(), key)
    }
}

pub open spec fn byte_pairs(v: Seq<(Vec<u8>, Vec<u8>)>) -> Seq<(Seq<u8>, Seq<u8>)> {
    v.map_values(|e: (Vec<u8>, Vec<u8>)| (e.0@, e.1@))
}

/// The key `Title` of an Info dictionary, as bytes.
pub open spec fn title_key() -> Seq<u8> {
    seq![84u8, 105u8, 116u8, 108u8, 101u8]
}

/// The key `Author` of an Info dictionary, as bytes.
pub open spec fn author_key() -> Seq<u8> {
    seq![65u8, 117u8, 116u8, 104u8, 111u8, 114u8]
}

fn find_entry(entries: &Vec<(Vec<u8>, Vec<u8>)>, key: &[u8]) -> (r: Option<Vec<u8>>)
    ensures
        opt_bytes(r) == info_entry(byte_pairs(entries@), key@),
{
    let ghost ev = byte_pairs(entries@);
    let mut i: usize = 0;
    assert(ev.skip(0) =~= ev);
    while i < entries.len()
        invariant
            i <= entries@.len(),
            ev == byte_pairs(entries@),
            info_entry(ev, key@) == info_entry(ev.skip(i as int), key@),
        decreases entries.len() - i,
    {
        assert(ev.skip(i as int).drop_first() =~= ev.skip(i + 1));
        assert(ev.skip(i as int)[0] == ev[i as int]);
        let k = &entries[i].0;
        let mut same = k.len() == key.len();
        let mut j: usize = 0;
        while same && j < k.len()
            invariant
                j <= k@.len(),
                same ==> k@.len() == key@.len(),
                same == (k@.len() == key@.len() && k@.take(j as int) =~= key@.take(j as int)),
            decreases k.len() - j,
        {
            if k[j] != key[j] {
                same = false;
            }
            j += 1;
            proof {
                if same {
                    assert(k@.take(j as int) =~= key@.take(j as int));
                } else {
                    assert(k@.take(j as int)[j - 1] != key@.take(j as int)[j - 1]);
                }
            }
        }
        if same {
            assert(k@ =~= k@.take(j as int));
            assert(key@ =~= key@.take(j as int));
            return Some(entries[i].1.clone());
        } else {
            assert(k@ != key@) by {
                if k@ == key@ {
                    assert(k@.take(j as int) =~= key@.take(j as int));
                }
            }
        }
        i += 1;
    }
    assert(ev.skip(i as int).len() == 0);
    None
}

/// Title and author from the (key, string) entries of the PDF's Info
/// dictionary: the `Title` and `Author` strings, decoded (empty when
/// missing).
pub fn metadata(info: &Vec<(Vec<u8>, Vec<u8>)>) -> (r: (String, String))
    ensures
        r.0@ == info_text(info_entry(byte_pairs(info@), title_key())),
        r.1@ == info_text(info_entry(byte_pairs(info@), author_key())),
{
    let tk: Vec<u8> = vec![84u8, 105u8, 116u8, 108u8, 101u8];
    let ak: Vec<u8> = vec![65u8, 117u8, 116u8, 104u8, 111u8, 114u8];
    assert(tk@ =~= title_key());
    assert(ak@ =~= author_key());
    let t = find_entry(info, tk.as_slice());
    let a = find_entry(info, ak.as_slice());
    let title = match t {
        Some(s) => decode_pdf_string(s.as_slice()),
        None => String::new(),
    };
    let author = match a {
        Some(s) => decode_pdf_string(s.as_slice()),
        None => String::new(),
    };
    (title, author)
}

/// Some page has text besides whitespace.
pub open spec fn has_text(pages: Seq<Seq<char>>) -> bool {
    exists|i: int| 0 <= i < pages.len() && trim(#[trigger] pages[i]).len() > 0
}

pub fn pages_have_text(pages: &Vec<String>) -> (r: bool)
    ensures
        r == has_text(string_views(pages@)),
{
    let mut i: usize = 0;
    while i < pages.len()
        invariant
            i <= pages@.len(),
            forall|j: int| 0 <= j < i ==> trim(#[trigger] string_views(pages@)[j]).len() == 0,
        decreases pages.len() - i,
    {
        if trim_chars(&chars_of(pages[i].as_str())).len() > 0 {
            assert(trim(string_views(pages@)[i as int]).len() > 0);
            return true;
        }
        i += 1;
    }
    false
}

/// Page texts from the per-page markdown `pdf_inspector` gives: each
/// page's markdown flattened to plain text.
pub fn inspector_pages(markdown: &Vec<String>) -> (r: Vec<String>)
    ensures
        string_views(r@) == string_views(markdown@).map_values(|m: Seq<char>| markdown_flattened(m)),
{
    let md = markdown;
    let mut pages: Vec<String> = Vec::new();
    let mut i: usize = 0;
    while i < md.len()
        invariant
            i <= md@.len(),
            string_views(pages@) == string_views(md@).take(i as int).map_values(|m: Seq<char>| markdown_flattened(m)),
        decreases md.len() - i,
    {
        let ghost prev = string_views(pages@);
        let x = strip_markdown(md[i].as_str());
        let ghost xv = x@;
        pages.push(x);
        assert(string_views(pages@) =~= prev.push(xv));
        assert(string_views(md@).take(i + 1) =~= string_views(md@).take(i as int).push(md@[i as int]@));
        i += 1;
        assert(string_views(pages@) =~= string_views(md@).take(i as int).map_values(|m: Seq<char>| markdown_flattened(m)));
    }
    assert(string_views(md@).take(i as int) =~= string_views(md@));
    pages
}

/// Where the page texts come from.
pub enum PageSource {
    /// Pages with text, and the fallback reader that found them (empty
    /// for the built-in one).
    Found { pages: Vec<String>, reader: String },
    /// The bundled readers found no text: try poppler's `pdftotext`;
    /// the built-in reader's error, if it failed.
    Missing { extract_error: Option<String> },
}

/// Whether the built-in reader's result (`pdf_extract`'s pages, or its
/// error) leaves the document without text, so `pdf_inspector` is asked.
pub open spec fn wants_fallback(extracted: Result<Seq<Seq<char>>, Seq<char>>) -> bool {
    match extracted {
        Ok(p) => !has_text(p),
        Err(_) => true,
    }
}

pub open spec fn result_views(r: Result<Vec<String>, String>) -> Result<Seq<Seq<char>>, Seq<char>> {
    match r {
        Ok(p) => Ok(string_views(p@)),
        Err(e) => Err(e@),
    }
}

pub fn needs_fallback(extracted: &Result<Vec<String>, String>) -> (r: bool)
    ensures
        r == wants_fallback(result_views(*extracted)),
{
    match extracted {
        Ok(p) => !pages_have_text(p),
        Err(_) => true,
    }
}

/// The built-in reader first; `pdf_inspector`'s per-page markdown (asked
/// for only when the built-in one fails or finds no text: fonts it cannot
/// decode come back as empty pages) next.
pub fn read_pages(extracted: Result<Vec<String>, String>, inspected: Option<Result<Vec<String>, String>>) -> (r: PageSource)
    ensures
        match result_views(extracted) {
            Ok(p) if has_text(p) => r matches PageSource::Found { pages, reader } && string_views(pages@) == p
                && reader@.len() == 0,
            extract => match inspected {
                Some(Ok(md)) if has_text(string_views(md@).map_values(|m: Seq<char>| markdown_flattened(m))) => r matches PageSource::Found {
                    pages,
                    reader,
                } && string_views(pages@) == string_views(md@).map_values(|m: Seq<char>| markdown_flattened(m))
                    && reader@ == "pdf-inspector"@,
                _ => r matches PageSource::Missing { extract_error } && match extract {
                    Err(e) => extract_error matches Some(x) && x@ == e,
                    Ok(_) => extract_error is None,
                },
            },
        },
{
    match &extracted {
        Ok(p) => {
            if pages_have_text(p) {
                return PageSource::Found { pages: p.clone(), reader: String::new() };
            }
        },
        Err(_) => {},
    }
    match inspected {
        Some(Ok(md)) => {
            let p = inspector_pages(&md);
            if pages_have_text(&p) {
                return PageSource::Found { pages: p, reader: "pdf-inspector".to_owned() };
            }
        },
        _ => {},
    }
    match extracted {
        Err(e) => PageSource::Missing { extract_error: Some(e) },
        Ok(_) => PageSource::Missing { extract_error: None },
    }
}

/// Pages of `pdftotext`'s output: the text split at form feeds, without
/// the empty piece after the last one.
pub open spec fn form_pages(text: Seq<char>) -> Seq<Seq<char>> {
    let ps = crate::text::split(text, '\u{c}');
    if ps.len() > 0 && ps.last().len() == 0 {
        ps.drop_last()
    } else {
        ps
    }
}

pub fn tool_pages(text: &str) -> (r: Vec<String>)
    ensures
        string_views(r@) == form_pages(text@),
{
    let parts = crate::text::split_on(&chars_of(text), '\u{c}');
    let n = if parts.len() > 0 && parts[parts.len() - 1].len() == 0 { parts.len() - 1 } else { parts.len() };
    let mut out: Vec<String> = Vec::new();
    let mut i: usize = 0;
    while i < n
        invariant
            i <= n <= parts@.len(),
            crate::text::views(parts@) == crate::text::split(text@, '\u{c}'),
            n == form_pages(text@).len(),
            string_views(out@) =~= form_pages(text@).take(i as int),
            forall|k: int| 0 <= k < n ==> form_pages(text@)[k] == #[trigger] crate::text::views(parts@)[k],
        decreases n - i,
    {
        let s = string_of(&parts[i]);
        let ghost prev = string_views(out@);
        out.push(s);
        assert(string_views(out@) =~= prev.push(parts@[i as int]@));
        i += 1;
    }
    assert(form_pages(text@).take(n as int) =~= form_pages(text@));
    out
}

/// After the bundled readers found nothing: poppler's pages when it ran
/// and found text, else the most specific error there is.
pub fn settle_pages(poppler: Option<Result<Vec<String>, String>>, extract_error: Option<String>) -> (r: Result<(Vec<String>, String), crate::error::AppError>)
    ensures
        match poppler {
            Some(Ok(p)) if has_text(string_views(p@)) => r matches Ok((pages, reader)) && pages@ == p@
                && reader@ == "pdftotext (poppler)"@,
            _ => r matches Err(e) && e.message@ == match extract_error {
                Some(x) => "could not extract PDF text: "@ + x@,
                None => "no reader could find text in this PDF — it is likely a scanned document (OCR is not supported)"@,
            },
        },
{
    match poppler {
        Some(Ok(p)) => {
            if pages_have_text(&p) {
                return Ok((p, "pdftotext (poppler)".to_owned()));
            }
        },
        _ => {},
    }
    match extract_error {
        Some(x) => {
            let mut m = chars_of("could not extract PDF text: ");
            append_str(&mut m, x.as_str());
            Err(crate::error::AppError::from_string(string_of(&m)))
        },
        None => Err(crate::error::AppError::msg(
            "no reader could find text in this PDF — it is likely a scanned document (OCR is not supported)",
        )),
    }
}

} // verus!

verus! {

/// A paragraph of a PDF chapter as a block: a `p` to translate unless it
/// is not worth it.
pub open spec fn paragraph_block(t: Seq<char>) -> crate::types::BlockView {
    crate::types::BlockView { text: t, skipped: !crate::types::translatable(t), translation: None, tag: "p"@, parts: seq![] }
}

/// The document a PDF chapter becomes: id `chNNN`, title `Part N`
/// (numbered from 1), no markup until assembly.
pub open spec fn chapter_doc(i: nat, paras: Seq<Seq<char>>) -> crate::types::DocView {
    crate::types::DocView {
        path: "ch"@ + crate::text::padded(i + 1, 3),
        title: "Part "@ + crate::text::decimal(i + 1),
        html: seq![],
        blocks: paras.map_values(|t: Seq<char>| paragraph_block(t)),
    }
}

pub open spec fn pdf_docs(chapters: Seq<Seq<Seq<char>>>) -> Seq<crate::types::DocView> {
    Seq::new(chapters.len(), |i: int| chapter_doc(i as nat, chapters[i]))
}

/// Notes on how the PDF was read: a fallback reader, dropped furniture.
pub open spec fn pdf_warnings(reader: Seq<char>, stripped: nat) -> Seq<Seq<char>> {
    (if reader.len() > 0 {
        seq!["Text extracted with "@ + reader + " — the built-in reader found none."@]
    } else {
        seq![]
    }) + (if stripped > 0 {
        seq![
            "Skipped "@ + crate::text::decimal(stripped) + " header/footer line"@ + (if stripped == 1 {
                ""@
            } else {
                "s"@
            }) + " (running titles and page numbers)."@,
        ]
    } else {
        seq![]
    })
}

/// The paragraphs a PDF's pages give once furniture is stripped.
pub open spec fn pdf_paragraphs(pages: Seq<Seq<char>>) -> Seq<Seq<char>> {
    paragraphs(furniture_stripped(pages).0)
}

fn chapter_document(i: usize, chapter: &Vec<String>) -> (d: crate::types::ContentDoc)
    requires
        i < usize::MAX,
    ensures
        d@ == chapter_doc(i as nat, string_views(chapter@)),
{
    let mut path = chars_of("ch");
    crate::text::push_padded(&mut path, (i + 1) as u64, 3);
    let mut title = chars_of("Part ");
    crate::text::push_decimal(&mut title, (i + 1) as u64);
    let mut blocks: Vec<crate::types::Block> = Vec::new();
    let mut k: usize = 0;
    let ghost cv = string_views(chapter@);
    while k < chapter.len()
        invariant
            k <= chapter@.len(),
            cv == string_views(chapter@),
            blocks@.map_values(|b: crate::types::Block| b@) == cv.take(k as int).map_values(|t: Seq<char>| paragraph_block(t)),
        decreases chapter.len() - k,
    {
        let text = chapter[k].clone();
        let skipped = !crate::types::is_translatable(text.as_str());
        let b = crate::types::Block { text, skipped, translation: None, tag: "p".to_owned(), parts: Vec::new() };
        assert(b@.parts =~= Seq::<Option<Seq<char>>>::empty());
        assert(b@ == paragraph_block(cv[k as int]));
        let ghost prev = blocks@.map_values(|b: crate::types::Block| b@);
        blocks.push(b);
        assert(blocks@.map_values(|b: crate::types::Block| b@) =~= prev.push(paragraph_block(cv[k as int])));
        k += 1;
        assert(cv.take(k as int) =~= cv.take(k - 1).push(cv[k - 1]));
        assert(cv.take(k as int).map_values(|t: Seq<char>| paragraph_block(t)) =~= cv.take(k - 1).map_values(|t: Seq<char>| paragraph_block(t)).push(paragraph_block(cv[k - 1])));
    }
    assert(cv.take(k as int) =~= cv);
    let d = crate::types::ContentDoc { path: string_of(&path), title: string_of(&title), html: String::new(), blocks };
    assert(d@.blocks =~= cv.map_values(|t: Seq<char>| paragraph_block(t)));
    d
}

/// Reads a PDF's pages into a book: furniture stripped, paragraphs grouped
/// into chapters of about 8000 characters; the Info dictionary's title
/// (else the file name without `.pdf`) and author. A PDF whose pages give
/// no paragraph is refused.
pub fn assemble_pdf(bytes: Vec<u8>, file_path: &str, pages: Vec<String>, reader: &str, info: &Vec<(Vec<u8>, Vec<u8>)>) -> (r: Result<crate::types::LoadedBook, crate::error::AppError>)
    requires
        pages@.len() <= usize::MAX / 4,
    ensures
        pdf_paragraphs(string_views(pages@)).len() == 0 <==> r is Err,
        r matches Err(e) ==> e.message@ == "no extractable text in this PDF — it may be a scanned document (OCR is not supported)"@,
        r matches Ok(book) ==> {
            let docs = pdf_docs(chapters_of(pdf_paragraphs(string_views(pages@))));
            let file_name = crate::epub::after_last(file_path@, '/');
            let meta = (info_entry(byte_pairs(info@), title_key()), info_entry(byte_pairs(info@), author_key()));
            &&& crate::job::book_bytes(book) == bytes@
            &&& book.source is Pdf
            &&& crate::types::doc_views(crate::types::book_docs(book)) == docs
            &&& book.info.format@ == "pdf"@
            &&& book.info.file_path@ == file_path@
            &&& book.info.file_name@ == file_name
            &&& book.info.title@ == if info_text(meta.0).len() == 0 {
                crate::epub::trim_suffix_all(file_name, ".pdf"@)
            } else {
                info_text(meta.0)
            }
            &&& book.info.author@ == info_text(meta.1)
            &&& book.info.cover_data_url is None
            &&& book.info.total_chars == crate::book::book_chars(docs)
            &&& book.info.segments@.len() == docs.len()
            &&& forall|i: int| 0 <= i < docs.len() ==> crate::book::segment_matches(#[trigger] book.info.segments@[i], docs[i])
            &&& crate::job::views_of(book.info.warnings@) == pdf_warnings(reader@, furniture_stripped(string_views(pages@)).1)
        },
{
    let (meta_title, meta_author) = metadata(info);
    let fp = chars_of(file_path);
    let file_name = crate::epub::after_last_of(&fp, '/');
    let (cleaned, stripped) = strip_page_furniture(pages.as_slice());
    let paras = paragraphs_from_pages(cleaned.as_slice());
    if paras.len() == 0 {
        return Err(crate::error::AppError::msg(
            "no extractable text in this PDF — it may be a scanned document (OCR is not supported)",
        ));
    }
    let mut warnings: Vec<String> = Vec::new();
    if !reader.is_empty() {
        let mut m = chars_of("Text extracted with ");
        append_str(&mut m, reader);
        append_str(&mut m, " — the built-in reader found none.");
        warnings.push(string_of(&m));
    }
    if stripped > 0 {
        let mut m = chars_of("Skipped ");
        crate::text::push_decimal(&mut m, stripped as u64);
        append_str(&mut m, " header/footer line");
        if stripped != 1 {
            append_str(&mut m, "s");
        }
        append_str(&mut m, " (running titles and page numbers).");
        warnings.push(string_of(&m));
    }
    proof {
        reveal_strlit("");
        assert(crate::job::views_of(warnings@) =~= pdf_warnings(reader@, stripped as nat));
    }
    let chapters = chunk_chapters(paras);
    let ghost cv = string_views2(chapters@);
    let mut docs: Vec<crate::types::ContentDoc> = Vec::new();
    let mut i: usize = 0;
    while i < chapters.len()
        invariant
            i <= chapters@.len(),
            cv == string_views2(chapters@),
            crate::types::doc_views(docs@) == pdf_docs(cv.take(i as int)),
        decreases chapters.len() - i,
    {
        let d = chapter_document(i, &chapters[i]);
        let ghost prev = crate::types::doc_views(docs@);
        docs.push(d);
        assert(crate::types::doc_views(docs@) =~= prev.push(chapter_doc(i as nat, cv[i as int])));
        i += 1;
        assert(pdf_docs(cv.take(i as int)) =~= pdf_docs(cv.take(i - 1)).push(chapter_doc((i - 1) as nat, cv[i - 1])));
    }
    assert(cv.take(i as int) =~= cv);
    let (segments, total_chars) = crate::book::segments_of(&docs);
    let title = if meta_title.as_str().is_empty() {
        let t = crate::epub::trim_suffix_all_of(&file_name, ".pdf");
        string_of(&t)
    } else {
        meta_title
    };
    let info = crate::types::BookInfo {
        format: "pdf".to_owned(),
        file_path: file_path.to_owned(),
        file_name: string_of(&file_name),
        title,
        author: meta_author,
        cover_data_url: None,
        total_chars,
        segments,
        warnings,
    };
    Ok(crate::types::LoadedBook { info, source: crate::types::BookSource::Pdf { bytes, docs } })
}

} // verus!
