//! Character-level text helpers shared by the parsers: Unicode whitespace,
//! ASCII classes, trimming, word splitting and string conversion.
use vstd::prelude::*;

verus! {

broadcast use vstd::string::group_string_axioms;

/// Unicode `White_Space`, the property that `char::is_whitespace` tests.
pub open spec fn is_ws(c: char) -> bool {
    let n = c as u32;
    ||| (0x09 <= n && n <= 0x0d)
    ||| n == 0x20
    ||| n == 0x85
    ||| n == 0xa0
    ||| n == 0x1680
    ||| (0x2000 <= n && n <= 0x200a)
    ||| n == 0x2028
    ||| n == 0x2029
    ||| n == 0x202f
    ||| n == 0x205f
    ||| n == 0x3000
}

pub fn is_whitespace(c: char) -> (r: bool)
    ensures
        r == is_ws(c),
{
    let n = c as u32;
    (0x09 <= n && n <= 0x0d) || n == 0x20 || n == 0x85 || n == 0xa0 || n == 0x1680 || (0x2000
        <= n && n <= 0x200a) || n == 0x2028 || n == 0x2029 || n == 0x202f || n == 0x205f || n
        == 0x3000
}

/// The characters of a string, in order.
pub fn chars_of(s: &str) -> (v: Vec<char>)
    ensures
        v@ == s@,
{
    let mut v: Vec<char> = Vec::new();
    for c in it: s.chars()
        invariant
            v@ == it.seq().take(it.index() as int),
    {
        v.push(c);
    }
    v
}

/// Calls `String::push`. Claimed, as its documentation states: the
/// character is appended at the end.
#[verifier::external_body]
fn push_char(s: &mut String, c: char)
    ensures
        final(s)@ == old(s)@.push(c),
{
    s.push(c);
}

} // verus!

verus! {

/// A string holding exactly the given characters.
pub fn string_of(v: &Vec<char>) -> (s: String)
    ensures
        s@ == v@,
{
    let mut s = String::new();
    let mut i: usize = 0;
    while i < v.len()
        invariant
            i <= v.len(),
            s@ == v@.take(i as int),
        decreases v.len() - i,
    {
        push_char(&mut s, v[i]);
        i += 1;
        assert(v@.take(i as int) =~= v@.take((i - 1) as int).push(v@[i - 1]));
    }
    assert(v@.take(v.len() as int) =~= v@);
    s
}

/// Appends `extra` at the end of `v`.
pub fn append_seq(v: &mut Vec<char>, extra: &Vec<char>)
    ensures
        final(v)@ == old(v)@ + extra@,
{
    let mut i: usize = 0;
    let ghost start = v@;
    while i < extra.len()
        invariant
            i <= extra.len(),
            v@ == start + extra@.take(i as int),
        decreases extra.len() - i,
    {
        v.push(extra[i]);
        i += 1;
        assert(extra@.take(i as int) =~= extra@.take((i - 1) as int).push(extra@[i - 1]));
    }
    assert(extra@.take(extra.len() as int) =~= extra@);
}

/// Appends the characters of `extra` at the end of `v`.
pub fn append_str(v: &mut Vec<char>, extra: &str)
    ensures
        final(v)@ == old(v)@ + extra@,
{
    let e = chars_of(extra);
    append_seq(v, &e);
}

pub open spec fn trim_start(s: Seq<char>) -> Seq<char>
    decreases s.len(),
{
    if s.len() > 0 && is_ws(s[0]) {
        trim_start(s.drop_first())
    } else {
        s
    }
}

pub open spec fn trim_end(s: Seq<char>) -> Seq<char>
    decreases s.len(),
{
    if s.len() > 0 && is_ws(s.last()) {
        trim_end(s.drop_last())
    } else {
        s
    }
}

/// What `str::trim` leaves: no leading and no trailing whitespace.
pub open spec fn trim(s: Seq<char>) -> Seq<char> {
    trim_end(trim_start(s))
}

/// Index of the first non-whitespace character (or the length).
pub fn trim_start_index(s: &Vec<char>, from: usize) -> (i: usize)
    requires
        from <= s.len(),
    ensures
        from <= i <= s.len(),
        trim_start(s@.skip(from as int)) == s@.skip(i as int),
        forall|k: int| from <= k < i ==> is_ws(#[trigger] s@[k]),
        i < s.len() ==> !is_ws(s@[i as int]),
{
    let mut i = from;
    while i < s.len() && is_whitespace(s[i])
        invariant
            from <= i <= s.len(),
            trim_start(s@.skip(from as int)) == trim_start(s@.skip(i as int)),
            forall|k: int| from <= k < i ==> is_ws(#[trigger] s@[k]),
        decreases s.len() - i,
    {
        assert(s@.skip(i as int).drop_first() =~= s@.skip(i + 1));
        i += 1;
    }
    i
}

/// The characters of `s` with surrounding whitespace removed (`str::trim`).
pub fn trim_chars(s: &Vec<char>) -> (r: Vec<char>)
    ensures
        r@ == trim(s@),
{
    let i = trim_start_index(s, 0);
    assert(s@.skip(0) =~= s@);
    let mut j = s.len();
    while j > i && is_whitespace(s[j - 1])
        invariant
            i <= j <= s.len(),
            trim_end(s@.skip(i as int)) == trim_end(s@.subrange(i as int, j as int)),
        decreases j,
    {
        assert(s@.subrange(i as int, j as int).drop_last() =~= s@.subrange(i as int, j - 1));
        j -= 1;
    }
    if j == i {
        assert(s@.subrange(i as int, j as int).len() == 0);
    }
    assert(s@.skip(i as int).subrange(0, s@.len() - i) =~= s@.skip(i as int));
    let mut r: Vec<char> = Vec::new();
    let mut k = i;
    while k < j
        invariant
            i <= k <= j <= s.len(),
            r@ == s@.subrange(i as int, k as int),
        decreases j - k,
    {
        r.push(s[k]);
        k += 1;
        assert(r@ =~= s@.subrange(i as int, k as int));
    }
    assert(s@.skip(i as int) =~= s@.subrange(i as int, s.len() as int));
    r
}

/// Number of leading non-whitespace characters.
pub open spec fn word_len(s: Seq<char>) -> nat
    decreases s.len(),
{
    if s.len() > 0 && !is_ws(s[0]) {
        1 + word_len(s.drop_first())
    } else {
        0
    }
}

pub proof fn lemma_word_len_bounds(s: Seq<char>)
    ensures
        word_len(s) <= s.len(),
        s.len() > 0 && !is_ws(s[0]) ==> word_len(s) >= 1,
    decreases s.len(),
{
    if s.len() > 0 && !is_ws(s[0]) {
        lemma_word_len_bounds(s.drop_first());
    }
}

pub proof fn lemma_word_len_is(s: Seq<char>, n: int)
    requires
        0 <= n <= s.len(),
        forall|k: int| 0 <= k < n ==> !is_ws(#[trigger] s[k]),
        n == s.len() || is_ws(s[n]),
    ensures
        word_len(s) == n,
    decreases n,
{
    if n > 0 {
        assert forall|k: int| 0 <= k < n - 1 implies !is_ws(#[trigger] s.drop_first()[k]) by {
            assert(s.drop_first()[k] == s[k + 1]);
        }
        lemma_word_len_is(s.drop_first(), n - 1);
    }
}

/// The whitespace-separated words of `s` (`str::split_whitespace`).
pub open spec fn words(s: Seq<char>) -> Seq<Seq<char>>
    decreases s.len(),
{
    if s.len() == 0 {
        seq![]
    } else if is_ws(s[0]) {
        words(s.drop_first())
    } else {
        proof {
            lemma_word_len_bounds(s);
        }
        seq![s.take(word_len(s) as int)] + words(s.skip(word_len(s) as int))
    }
}

pub open spec fn views(v: Seq<Vec<char>>) -> Seq<Seq<char>> {
    v.map_values(|w: Vec<char>| w@)
}

/// The whitespace-separated words of `s`.
pub fn split_ws(s: &Vec<char>) -> (r: Vec<Vec<char>>)
    ensures
        views(r@) == words(s@),
{
    let mut r: Vec<Vec<char>> = Vec::new();
    let mut i: usize = 0;
    assert(s@.skip(0) =~= s@);
    while i < s.len()
        invariant
            i <= s.len(),
            words(s@) == views(r@) + words(s@.skip(i as int)),
        decreases s.len() - i,
    {
        let ghost t = s@.skip(i as int);
        if is_whitespace(s[i]) {
            assert(t.drop_first() =~= s@.skip(i + 1));
            i += 1;
        } else {
            let mut j = i;
            let mut w: Vec<char> = Vec::new();
            while j < s.len() && !is_whitespace(s[j])
                invariant
                    i <= j <= s.len(),
                    w@ == s@.subrange(i as int, j as int),
                    forall|k: int| i <= k < j ==> !is_ws(#[trigger] s@[k]),
                decreases s.len() - j,
            {
                w.push(s[j]);
                j += 1;
                assert(w@ =~= s@.subrange(i as int, j as int));
            }
            proof {
                assert forall|k: int| 0 <= k < j - i implies !is_ws(#[trigger] t[k]) by {
                    assert(t[k] == s@[i + k]);
                }
                lemma_word_len_is(t, j - i);
                assert(t.take(j - i) =~= w@);
                assert(t.skip(j - i) =~= s@.skip(j as int));
            }
            let ghost before = r@;
            r.push(w);
            assert(views(r@) =~= views(before) + seq![w@]);
            i = j;
        }
    }
    assert(s@.skip(i as int) =~= Seq::<char>::empty());
    assert(views(r@) + Seq::<Seq<char>>::empty() =~= views(r@));
    r
}

/// The pieces joined with `sep` between neighbours.
pub open spec fn join(ws: Seq<Seq<char>>, sep: Seq<char>) -> Seq<char>
    decreases ws.len(),
{
    if ws.len() == 0 {
        seq![]
    } else if ws.len() == 1 {
        ws[0]
    } else {
        join(ws.drop_last(), sep) + sep + ws.last()
    }
}

pub fn join_chars(ws: &Vec<Vec<char>>, sep: &Vec<char>) -> (r: Vec<char>)
    ensures
        r@ == join(views(ws@), sep@),
{
    let mut r: Vec<char> = Vec::new();
    let mut i: usize = 0;
    while i < ws.len()
        invariant
            i <= ws.len(),
            r@ == join(views(ws@).take(i as int), sep@),
        decreases ws.len() - i,
    {
        if i > 0 {
            append_seq(&mut r, sep);
        }
        append_seq(&mut r, &ws[i]);
        i += 1;
        assert(views(ws@).take(i as int).drop_last() =~= views(ws@).take(i - 1));
    }
    assert(views(ws@).take(ws.len() as int) =~= views(ws@));
    r
}

/// Words joined by single spaces.
pub open spec fn collapse(s: Seq<char>) -> Seq<char> {
    join(words(s), seq![' '])
}

proof fn lemma_word_len_props(s: Seq<char>)
    ensures
        word_len(s) <= s.len(),
        forall|k: int| 0 <= k < word_len(s) ==> !is_ws(#[trigger] s[k]),
        word_len(s) < s.len() ==> is_ws(s[word_len(s) as int]),
    decreases s.len(),
{
    if s.len() > 0 && !is_ws(s[0]) {
        lemma_word_len_props(s.drop_first());
        assert forall|k: int| 0 <= k < word_len(s) implies !is_ws(#[trigger] s[k]) by {
            if k > 0 {
                assert(s[k] == s.drop_first()[k - 1]);
            }
        }
    }
}

/// A word: non-empty, without whitespace.
pub open spec fn is_word(w: Seq<char>) -> bool {
    w.len() > 0 && forall|k: int| 0 <= k < w.len() ==> !is_ws(#[trigger] w[k])
}

/// The words of `s` are words.
pub proof fn lemma_words_are_words(s: Seq<char>)
    ensures
        forall|i: int| 0 <= i < words(s).len() ==> is_word(#[trigger] words(s)[i]),
    decreases s.len(),
{
    if s.len() > 0 {
        if is_ws(s[0]) {
            lemma_words_are_words(s.drop_first());
            assert(words(s) == words(s.drop_first()));
        } else {
            lemma_word_len_props(s);
            lemma_word_len_bounds(s);
            let n = word_len(s) as int;
            lemma_words_are_words(s.skip(n));
            let w = s.take(n);
            assert(is_word(w)) by {
                assert forall|k: int| 0 <= k < w.len() implies !is_ws(#[trigger] w[k]) by {
                    assert(w[k] == s[k]);
                }
            }
            assert(words(s) == seq![w] + words(s.skip(n)));
            assert forall|i: int| 0 <= i < words(s).len() implies is_word(#[trigger] words(s)[i]) by {
                if i > 0 {
                    assert(words(s)[i] == words(s.skip(n))[i - 1]);
                } else {
                    assert(words(s)[0] == w);
                }
            }
        }
    }
}

/// A whitespace character between two texts separates their words.
pub proof fn lemma_words_split(a: Seq<char>, c: char, b: Seq<char>)
    requires
        is_ws(c),
    ensures
        words(a + seq![c] + b) == words(a) + words(b),
    decreases a.len(),
{
    let s = a + seq![c] + b;
    if a.len() == 0 {
        assert(s.drop_first() =~= b);
        assert(words(a) =~= Seq::<Seq<char>>::empty());
        assert(words(a) + words(b) =~= words(b));
    } else if is_ws(a[0]) {
        assert(s.drop_first() =~= a.drop_first() + seq![c] + b);
        lemma_words_split(a.drop_first(), c, b);
    } else {
        lemma_word_len_props(a);
        lemma_word_len_bounds(a);
        let n = word_len(a) as int;
        assert forall|k: int| 0 <= k < n implies !is_ws(#[trigger] s[k]) by {
            assert(s[k] == a[k]);
        }
        if n < a.len() {
            assert(s[n] == a[n]);
        } else {
            assert(s[n] == c);
        }
        lemma_word_len_is(s, n);
        assert(s.take(n) =~= a.take(n));
        assert(s.skip(n) =~= a.skip(n) + seq![c] + b);
        lemma_words_split(a.skip(n), c, b);
        assert(words(s) == seq![s.take(n)] + words(s.skip(n)));
        assert(words(a) == seq![a.take(n)] + words(a.skip(n)));
        assert(seq![a.take(n)] + (words(a.skip(n)) + words(b)) =~= (seq![a.take(n)] + words(a.skip(n))) + words(b));
    }
}

/// Words joined by single spaces read back as the same words.
pub proof fn lemma_words_of_join(ws: Seq<Seq<char>>)
    requires
        forall|i: int| 0 <= i < ws.len() ==> is_word(#[trigger] ws[i]),
    ensures
        words(join(ws, seq![' '])) == ws,
    decreases ws.len(),
{
    if ws.len() == 0 {
        assert(words(Seq::<char>::empty()) =~= Seq::<Seq<char>>::empty());
    } else {
        let w = ws.last();
        assert(is_word(w));
        assert(words(w) =~= seq![w]) by {
            lemma_word_len_is(w, w.len() as int);
            assert(w.take(w.len() as int) =~= w);
            assert(w.skip(w.len() as int) =~= Seq::<char>::empty());
            assert(words(w.skip(w.len() as int)) =~= Seq::<Seq<char>>::empty());
        }
        if ws.len() == 1 {
            assert(ws =~= seq![w]);
        } else {
            assert forall|i: int| 0 <= i < ws.drop_last().len() implies is_word(#[trigger] ws.drop_last()[i]) by {
                assert(ws.drop_last()[i] == ws[i]);
            }
            lemma_words_of_join(ws.drop_last());
            assert(is_ws(' '));
            lemma_words_split(join(ws.drop_last(), seq![' ']), ' ', w);
            assert(join(ws, seq![' ']) == join(ws.drop_last(), seq![' ']) + seq![' '] + w);
            assert(ws.drop_last() + seq![w] =~= ws);
        }
    }
}

/// Collapsing whitespace twice changes nothing more.
pub proof fn lemma_collapse_idempotent(s: Seq<char>)
    ensures
        collapse(collapse(s)) == collapse(s),
{
    lemma_words_are_words(s);
    lemma_words_of_join(words(s));
}

/// The words of several texts, one text after another.
pub open spec fn flat_words(ps: Seq<Seq<char>>) -> Seq<Seq<char>>
    decreases ps.len(),
{
    if ps.len() == 0 {
        seq![]
    } else {
        flat_words(ps.drop_last()) + words(ps.last())
    }
}

pub proof fn lemma_flat_words_concat(a: Seq<Seq<char>>, b: Seq<Seq<char>>)
    ensures
        flat_words(a + b) == flat_words(a) + flat_words(b),
    decreases b.len(),
{
    if b.len() == 0 {
        assert(a + b =~= a);
        assert(flat_words(a) + Seq::<Seq<char>>::empty() =~= flat_words(a));
    } else {
        assert((a + b).drop_last() =~= a + b.drop_last());
        assert((a + b).last() == b.last());
        lemma_flat_words_concat(a, b.drop_last());
        assert(flat_words(a) + flat_words(b.drop_last()) + words(b.last()) =~= flat_words(a) + (flat_words(b.drop_last()) + words(b.last())));
    }
}

pub proof fn lemma_words_of_joined(ls: Seq<Seq<char>>)
    ensures
        words(join(ls, seq![' '])) == flat_words(ls),
    decreases ls.len(),
{
    if ls.len() == 0 {
        assert(words(Seq::<char>::empty()) =~= Seq::<Seq<char>>::empty());
    } else if ls.len() == 1 {
        assert(ls.drop_last() =~= Seq::<Seq<char>>::empty());
        assert(flat_words(ls.drop_last()) =~= Seq::<Seq<char>>::empty());
        assert(Seq::<Seq<char>>::empty() + words(ls[0]) =~= words(ls[0]));
    } else {
        lemma_words_of_joined(ls.drop_last());
        lemma_words_split(join(ls.drop_last(), seq![' ']), ' ', ls.last());
        assert(join(ls, seq![' ']) == join(ls.drop_last(), seq![' ']) + seq![' '] + ls.last());
    }
}

pub proof fn lemma_words_collapse(x: Seq<char>)
    ensures
        words(collapse(x)) == words(x),
{
    lemma_words_are_words(x);
    lemma_words_of_join(words(x));
}

proof fn lemma_words_all_ws(s: Seq<char>)
    requires
        forall|k: int| 0 <= k < s.len() ==> is_ws(#[trigger] s[k]),
    ensures
        words(s) == Seq::<Seq<char>>::empty(),
    decreases s.len(),
{
    if s.len() > 0 {
        assert(is_ws(s[0]));
        assert forall|k: int| 0 <= k < s.drop_first().len() implies is_ws(#[trigger] s.drop_first()[k]) by {
            assert(s.drop_first()[k] == s[k + 1]);
        }
        lemma_words_all_ws(s.drop_first());
    }
}

proof fn lemma_words_drop_last_ws(s: Seq<char>)
    requires
        s.len() > 0,
        is_ws(s.last()),
    ensures
        words(s) == words(s.drop_last()),
{
    lemma_words_split(s.drop_last(), s.last(), seq![]);
    assert(s.drop_last() + seq![s.last()] + Seq::<char>::empty() =~= s);
    lemma_words_all_ws(Seq::<char>::empty());
    assert(words(s.drop_last()) + Seq::<Seq<char>>::empty() =~= words(s.drop_last()));
}

pub proof fn lemma_words_trim(s: Seq<char>)
    ensures
        words(trim(s)) == words(s),
{
    lemma_words_trim_start(s);
    lemma_words_trim_end(trim_start(s));
}

proof fn lemma_words_trim_start(s: Seq<char>)
    ensures
        words(trim_start(s)) == words(s),
    decreases s.len(),
{
    if s.len() > 0 && is_ws(s[0]) {
        lemma_words_trim_start(s.drop_first());
    }
}

proof fn lemma_words_trim_end(s: Seq<char>)
    ensures
        words(trim_end(s)) == words(s),
    decreases s.len(),
{
    if s.len() > 0 && is_ws(s.last()) {
        lemma_words_trim_end(s.drop_last());
        lemma_words_drop_last_ws(s);
    }
}

/// The words of a text are the words of its lines, one line after another.
pub proof fn lemma_words_lines(s: Seq<char>)
    ensures
        flat_words(lines(s)) == words(s),
    decreases s.len(),
{
    if s.len() == 0 {
        assert(words(s) =~= Seq::<Seq<char>>::empty());
    } else {
        lemma_find_char_props(s, '\n');
        match find_char(s, '\n') {
            None => {
                assert(lines(s) == seq![s]);
                assert(seq![s].drop_last() =~= Seq::<Seq<char>>::empty());
                assert(flat_words(Seq::<Seq<char>>::empty()) =~= Seq::<Seq<char>>::empty());
                assert(seq![s].last() == s);
                assert(Seq::<Seq<char>>::empty() + words(s) =~= words(s));
                assert(flat_words(seq![s]) == flat_words(seq![s].drop_last()) + words(seq![s].last()));
            },
            Some(k) => {
                let a = s.take(k);
                let b = s.skip(k + 1);
                assert(s =~= a + seq!['\n'] + b);
                assert(is_ws('\n'));
                lemma_words_split(a, '\n', b);
                lemma_words_lines(b);
                let first = strip_cr(a);
                if a.len() > 0 && a.last() == '\r' {
                    assert(is_ws('\r'));
                    lemma_words_drop_last_ws(a);
                }
                assert(words(first) == words(a));
                assert(lines(s) == seq![first] + lines(b));
                lemma_flat_words_concat(seq![first], lines(b));
                assert(seq![first].drop_last() =~= Seq::<Seq<char>>::empty());
                assert(flat_words(Seq::<Seq<char>>::empty()) =~= Seq::<Seq<char>>::empty());
                assert(seq![first].last() == first);
                assert(flat_words(seq![first]) == flat_words(seq![first].drop_last()) + words(seq![first].last()));
                assert(flat_words(seq![first]) =~= words(first));
            },
        }
    }
}

/// Trimming each line keeps every word.
pub proof fn lemma_flat_words_trimmed(ls: Seq<Seq<char>>)
    ensures
        flat_words(ls.map_values(|l: Seq<char>| trim(l))) == flat_words(ls),
    decreases ls.len(),
{
    if ls.len() > 0 {
        let t = ls.map_values(|l: Seq<char>| trim(l));
        assert(t.drop_last() =~= ls.drop_last().map_values(|l: Seq<char>| trim(l)));
        lemma_flat_words_trimmed(ls.drop_last());
        lemma_words_trim(ls.last());
    }
}

/// Collapses every run of whitespace into one space and drops it at the ends.
pub fn collapse_ws(s: &Vec<char>) -> (r: Vec<char>)
    ensures
        r@ == collapse(s@),
{
    let ws = split_ws(s);
    let mut sep: Vec<char> = Vec::new();
    sep.push(' ');
    assert(sep@ =~= seq![' ']);
    join_chars(&ws, &sep)
}

} // verus!

verus! {

/// Index of the first occurrence of `c` in `s`.
pub open spec fn find_char(s: Seq<char>, c: char) -> Option<int>
    decreases s.len(),
{
    if s.len() == 0 {
        None
    } else if s[0] == c {
        Some(0)
    } else {
        match find_char(s.drop_first(), c) {
            Some(k) => Some(k + 1),
            None => None,
        }
    }
}

pub proof fn lemma_find_char_is(s: Seq<char>, c: char, k: int)
    requires
        0 <= k <= s.len(),
        forall|j: int| 0 <= j < k ==> #[trigger] s[j] != c,
    ensures
        k < s.len() && s[k] == c ==> find_char(s, c) == Some(k),
        k == s.len() ==> find_char(s, c) is None,
    decreases k,
{
    if k > 0 {
        assert forall|j: int| 0 <= j < k - 1 implies #[trigger] s.drop_first()[j] != c by {
            assert(s.drop_first()[j] == s[j + 1]);
        }
        lemma_find_char_is(s.drop_first(), c, k - 1);
    }
}

pub proof fn lemma_find_char_props(s: Seq<char>, c: char)
    ensures
        find_char(s, c) matches Some(k) ==> 0 <= k < s.len() && s[k] == c && forall|j: int|
            0 <= j < k ==> #[trigger] s[j] != c,
        find_char(s, c) is None ==> forall|j: int| 0 <= j < s.len() ==> #[trigger] s[j] != c,
    decreases s.len(),
{
    if s.len() > 0 && s[0] != c {
        lemma_find_char_props(s.drop_first(), c);
        assert forall|j: int| 1 <= j < s.len() implies #[trigger] s[j] == s.drop_first()[j - 1] by {
        }
    }
}

/// First index at or after `from` holding `c`, or the length.
pub fn find_from(s: &Vec<char>, c: char, from: usize) -> (i: usize)
    requires
        from <= s.len(),
    ensures
        from <= i <= s.len(),
        forall|k: int| from <= k < i ==> #[trigger] s@[k] != c,
        i < s.len() ==> s@[i as int] == c,
        i < s.len() ==> find_char(s@.skip(from as int), c) == Some(i - from),
        i == s.len() ==> find_char(s@.skip(from as int), c) is None,
{
    let mut i = from;
    while i < s.len() && s[i] != c
        invariant
            from <= i <= s.len(),
            forall|k: int| from <= k < i ==> #[trigger] s@[k] != c,
        decreases s.len() - i,
    {
        i += 1;
    }
    proof {
        let t = s@.skip(from as int);
        assert forall|j: int| 0 <= j < i - from implies #[trigger] t[j] != c by {
            assert(t[j] == s@[from + j]);
        }
        lemma_find_char_is(t, c, i - from);
    }
    i
}

/// The pieces of `s` between occurrences of `c` (`str::split` on a char).
pub open spec fn split(s: Seq<char>, c: char) -> Seq<Seq<char>>
    decreases s.len(),
{
    match find_char(s, c) {
        None => seq![s],
        Some(k) => {
            proof {
                lemma_find_char_props(s, c);
            }
            seq![s.take(k)] + split(s.skip(k + 1), c)
        },
    }
}

pub fn split_on(s: &Vec<char>, c: char) -> (r: Vec<Vec<char>>)
    ensures
        views(r@) == split(s@, c),
        r@.len() >= 1,
{
    let mut r: Vec<Vec<char>> = Vec::new();
    let mut i: usize = 0;
    assert(s@.skip(0) =~= s@);
    loop
        invariant
            i <= s.len(),
            split(s@, c) == views(r@) + split(s@.skip(i as int), c),
        decreases s.len() - i,
    {
        let j = find_from(s, c, i);
        let mut piece: Vec<char> = Vec::new();
        let mut k = i;
        while k < j
            invariant
                i <= k <= j <= s.len(),
                piece@ == s@.subrange(i as int, k as int),
            decreases j - k,
        {
            piece.push(s[k]);
            k += 1;
            assert(piece@ =~= s@.subrange(i as int, k as int));
        }
        let ghost t = s@.skip(i as int);
        let ghost before = r@;
        r.push(piece);
        assert(views(r@) =~= views(before) + seq![piece@]);
        if j == s.len() {
            assert(t =~= piece@);
            assert(views(r@) =~= views(before) + split(t, c));
            return r;
        }
        assert(t.take(j - i) =~= piece@);
        assert(t.skip(j - i + 1) =~= s@.skip(j + 1));
        i = j + 1;
    }
}

/// `t` without one trailing carriage return.
pub open spec fn strip_cr(t: Seq<char>) -> Seq<char> {
    if t.len() > 0 && t.last() == '\r' {
        t.drop_last()
    } else {
        t
    }
}

/// The lines of `s` (`str::lines`): split at `\n`, one trailing `\r`
/// dropped from each terminated line, no empty line after a final `\n`.
pub open spec fn lines(s: Seq<char>) -> Seq<Seq<char>>
    decreases s.len(),
{
    if s.len() == 0 {
        seq![]
    } else {
        match find_char(s, '\n') {
            None => seq![s],
            Some(k) => {
                proof {
                    lemma_find_char_props(s, '\n');
                }
                seq![strip_cr(s.take(k))] + lines(s.skip(k + 1))
            },
        }
    }
}

pub fn lines_of(s: &Vec<char>) -> (r: Vec<Vec<char>>)
    ensures
        views(r@) == lines(s@),
{
    let mut r: Vec<Vec<char>> = Vec::new();
    let mut i: usize = 0;
    assert(s@.skip(0) =~= s@);
    while i < s.len()
        invariant
            i <= s.len(),
            lines(s@) == views(r@) + lines(s@.skip(i as int)),
        decreases s.len() - i,
    {
        let j = find_from(s, '\n', i);
        let mut end = j;
        if j < s.len() && end > i && s[end - 1] == '\r' {
            end -= 1;
        }
        let mut piece: Vec<char> = Vec::new();
        let mut k = i;
        while k < end
            invariant
                i <= k <= end <= j <= s.len(),
                piece@ == s@.subrange(i as int, k as int),
            decreases end - k,
        {
            piece.push(s[k]);
            k += 1;
            assert(piece@ =~= s@.subrange(i as int, k as int));
        }
        let ghost t = s@.skip(i as int);
        let ghost before = r@;
        r.push(piece);
        assert(views(r@) =~= views(before) + seq![piece@]);
        if j == s.len() {
            assert(t =~= piece@);
            assert(s@.skip(s.len() as int) =~= Seq::<char>::empty());
            assert(views(r@) =~= views(before) + lines(t));
            i = j;
        } else {
            assert(strip_cr(t.take(j - i)) =~= piece@);
            assert(t.skip(j - i + 1) =~= s@.skip(j + 1));
            i = j + 1;
        }
    }
    assert(s@.skip(i as int) =~= Seq::<char>::empty());
    assert(views(r@) + Seq::<Seq<char>>::empty() =~= views(r@));
    r
}

pub open spec fn starts_with(s: Seq<char>, p: Seq<char>) -> bool {
    p.len() <= s.len() && s.take(p.len() as int) == p
}

pub open spec fn ends_with(s: Seq<char>, p: Seq<char>) -> bool {
    p.len() <= s.len() && s.skip(s.len() - p.len()) == p
}

/// `p` occurs in `s` at position `i`.
pub open spec fn occurs_at(s: Seq<char>, p: Seq<char>, i: int) -> bool {
    0 <= i && i + p.len() <= s.len() && s.subrange(i, i + p.len()) == p
}

pub open spec fn contains(s: Seq<char>, p: Seq<char>) -> bool {
    exists|i: int| occurs_at(s, p, i)
}

/// Whether `p` occurs in `s` at position `i`.
pub fn matches_at(s: &Vec<char>, p: &Vec<char>, i: usize) -> (r: bool)
    ensures
        r == occurs_at(s@, p@, i as int),
{
    if i > s.len() || p.len() > s.len() - i {
        return false;
    }
    let mut k: usize = 0;
    while k < p.len()
        invariant
            k <= p.len(),
            i + p.len() <= s.len(),
            forall|j: int| 0 <= j < k ==> s@[i + j] == p@[j],
        decreases p.len() - k,
    {
        if s[i + k] != p[k] {
            assert(s@.subrange(i as int, i + p.len())[k as int] != p@[k as int]);
            return false;
        }
        k += 1;
    }
    assert(s@.subrange(i as int, i + p.len()) =~= p@);
    true
}

pub fn has_prefix(s: &Vec<char>, p: &Vec<char>) -> (r: bool)
    ensures
        r == starts_with(s@, p@),
{
    let r = matches_at(s, p, 0);
    proof {
        if p@.len() <= s@.len() {
            assert(s@.subrange(0, p@.len() as int) =~= s@.take(p@.len() as int));
        }
    }
    r
}

pub fn has_suffix(s: &Vec<char>, p: &Vec<char>) -> (r: bool)
    ensures
        r == ends_with(s@, p@),
{
    if p.len() > s.len() {
        return false;
    }
    let r = matches_at(s, p, s.len() - p.len());
    assert(s@.subrange(s@.len() - p@.len(), s@.len() as int) =~= s@.skip(s@.len() - p@.len()));
    r
}

/// Whether `p` occurs anywhere in `s`.
pub fn has_sub(s: &Vec<char>, p: &Vec<char>) -> (r: bool)
    ensures
        r == contains(s@, p@),
{
    if p.len() > s.len() {
        return false;
    }
    let lim = s.len() - p.len();
    let mut i: usize = 0;
    loop
        invariant
            p.len() <= s.len(),
            lim == s.len() - p.len(),
            i <= lim,
            forall|j: int| 0 <= j < i ==> !occurs_at(s@, p@, j),
        ensures
            forall|j: int| 0 <= j <= lim ==> !occurs_at(s@, p@, j),
        decreases lim - i,
    {
        if matches_at(s, p, i) {
            return true;
        }
        if i == lim {
            break;
        }
        i += 1;
    }
    assert forall|j: int| !occurs_at(s@, p@, j) by {
        if 0 <= j <= lim {
        }
    }
    false
}

/// Lower-case form of a string as `str::to_lowercase` computes it.
pub uninterp spec fn lowercase(s: Seq<char>) -> Seq<char>;

/// Calls `str::to_lowercase` (Unicode `Lowercase_Mapping`, which may
/// change the length). Claimed: the result is `lowercase` of the input.
#[verifier::external_body]
pub(crate) fn to_lowercase(s: &str) -> (r: String)
    ensures
        r@ == lowercase(s@),
{
    s.to_lowercase()
}

/// Unicode `Alphabetic` property as `char::is_alphabetic` reports it.
pub uninterp spec fn alphabetic(c: char) -> bool;

/// Calls `char::is_alphabetic`. Claimed: the result is `alphabetic(c)`.
#[verifier::external_body]
pub(crate) fn is_alphabetic(c: char) -> (r: bool)
    ensures
        r == alphabetic(c),
{
    c.is_alphabetic()
}

pub open spec fn is_digit(c: char) -> bool {
    '0' <= c && c <= '9'
}

pub open spec fn is_alnum(c: char) -> bool {
    is_digit(c) || ('a' <= c && c <= 'z') || ('A' <= c && c <= 'Z')
}

} // verus!

verus! {

pub fn eq_chars(a: &Vec<char>, b: &Vec<char>) -> (r: bool)
    ensures
        r == (a@ == b@),
{
    if a.len() != b.len() {
        return false;
    }
    let mut i: usize = 0;
    while i < a.len()
        invariant
            a.len() == b.len(),
            i <= a.len(),
            forall|j: int| 0 <= j < i ==> a@[j] == b@[j],
        decreases a.len() - i,
    {
        if a[i] != b[i] {
            return false;
        }
        i += 1;
    }
    assert(a@ =~= b@);
    true
}

/// Whether the characters equal those of `lit`.
pub fn eq_str(a: &Vec<char>, lit: &str) -> (r: bool)
    ensures
        r == (a@ == lit@),
{
    let b = chars_of(lit);
    eq_chars(a, &b)
}

/// `lowercase` of the characters.
pub fn lower_chars(v: &Vec<char>) -> (r: Vec<char>)
    ensures
        r@ == lowercase(v@),
{
    let s = string_of(v);
    let l = to_lowercase(s.as_str());
    chars_of(l.as_str())
}

/// Copy of `v@.subrange(from, to)`.
pub fn slice_chars(v: &Vec<char>, from: usize, to: usize) -> (r: Vec<char>)
    requires
        from <= to <= v.len(),
    ensures
        r@ == v@.subrange(from as int, to as int),
{
    let mut r: Vec<char> = Vec::new();
    let mut k = from;
    while k < to
        invariant
            from <= k <= to <= v.len(),
            r@ == v@.subrange(from as int, k as int),
        decreases to - k,
    {
        r.push(v[k]);
        k += 1;
        assert(r@ =~= v@.subrange(from as int, k as int));
    }
    r
}

} // verus!

verus! {

/// Decimal digits of `n` (no leading zeros; "0" for zero).
pub open spec fn decimal(n: nat) -> Seq<char>
    decreases n,
{
    if n < 10 {
        seq![digit_char(n)]
    } else {
        decimal(n / 10).push(digit_char(n % 10))
    }
}

pub open spec fn digit_char(d: nat) -> char {
    if d == 0 {
        '0'
    } else if d == 1 {
        '1'
    } else if d == 2 {
        '2'
    } else if d == 3 {
        '3'
    } else if d == 4 {
        '4'
    } else if d == 5 {
        '5'
    } else if d == 6 {
        '6'
    } else if d == 7 {
        '7'
    } else if d == 8 {
        '8'
    } else {
        '9'
    }
}

fn digit(d: u64) -> (c: char)
    requires
        d < 10,
    ensures
        c == digit_char(d as nat),
{
    if d == 0 {
        '0'
    } else if d == 1 {
        '1'
    } else if d == 2 {
        '2'
    } else if d == 3 {
        '3'
    } else if d == 4 {
        '4'
    } else if d == 5 {
        '5'
    } else if d == 6 {
        '6'
    } else if d == 7 {
        '7'
    } else if d == 8 {
        '8'
    } else {
        '9'
    }
}

/// Appends the decimal digits of `n`.
pub fn push_decimal(v: &mut Vec<char>, n: u64)
    ensures
        final(v)@ == old(v)@ + decimal(n as nat),
    decreases n,
{
    if n < 10 {
        v.push(digit(n));
        assert(decimal(n as nat) =~= seq![digit_char(n as nat)]);
    } else {
        push_decimal(v, n / 10);
        v.push(digit(n % 10));
    }
}

/// `n` in decimal, left-padded with zeros to at least `width` digits.
pub open spec fn padded(n: nat, width: nat) -> Seq<char> {
    let d = decimal(n);
    if d.len() >= width {
        d
    } else {
        Seq::new((width - d.len()) as nat, |i: int| '0') + d
    }
}

pub fn push_padded(v: &mut Vec<char>, n: u64, width: usize)
    ensures
        final(v)@ == old(v)@ + padded(n as nat, width as nat),
{
    let mut d: Vec<char> = Vec::new();
    push_decimal(&mut d, n);
    assert(d@ =~= decimal(n as nat));
    if d.len() < width {
        let mut z: usize = 0;
        let k = width - d.len();
        let ghost start = v@;
        while z < k
            invariant
                z <= k,
                v@ == start + Seq::new(z as nat, |i: int| '0'),
            decreases k - z,
        {
            v.push('0');
            z += 1;
            assert(v@ =~= start + Seq::new(z as nat, |i: int| '0'));
        }
        append_seq(v, &d);
        assert(v@ =~= start + (Seq::new(k as nat, |i: int| '0') + d@));
    } else {
        append_seq(v, &d);
    }
}

} // verus!
