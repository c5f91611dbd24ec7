//! XHTML content documents: entity decoding and escaping, and the
//! decisions of the two streaming passes over a document — collecting
//! block texts, then inserting translations — as state machines fed with
//! the rewriter's events (element start and end, text chunk).
use vstd::prelude::*;
use crate::text::{append_seq, append_str, chars_of, collapse, collapse_ws, eq_str, find_char, find_from, lemma_find_char_props, starts_with, string_of, slice_chars};
use crate::types::{Block, BlockView, opt_view, translatable, is_translatable, MODE_BILINGUAL};

verus! {

broadcast use vstd::string::group_string_axioms;

/// Elements whose text becomes a block.
pub const BLOCK_SELECTOR: &'static str = "p, h1, h2, h3, h4, h5, h6, li, blockquote, td, th, dd, dt, figcaption";

/// Style added to the head of a bilingual document.
pub const STYLE: &'static str = ".ebtr-translation{margin:.45em 0;}";

/// Bytes of a character in UTF-8.
pub open spec fn utf8_len(c: char) -> nat {
    let n = c as u32;
    if n < 0x80 {
        1
    } else if n < 0x800 {
        2
    } else if n < 0x10000 {
        3
    } else {
        4
    }
}

/// Bytes of a character sequence in UTF-8.
pub open spec fn byte_len(s: Seq<char>) -> nat
    decreases s.len(),
{
    if s.len() == 0 {
        0
    } else {
        byte_len(s.drop_last()) + utf8_len(s.last())
    }
}

/// Value of a digit in a radix (10 or 16).
pub open spec fn digit_in(c: char, radix: nat) -> Option<nat> {
    if '0' <= c && c <= '9' {
        Some((c as u32 - '0' as u32) as nat)
    } else if radix == 16 && 'a' <= c && c <= 'f' {
        Some((c as u32 - 'a' as u32 + 10) as nat)
    } else if radix == 16 && 'A' <= c && c <= 'F' {
        Some((c as u32 - 'A' as u32 + 10) as nat)
    } else {
        None
    }
}

/// Value of a digit string; `None` on any foreign character.
pub open spec fn digits_value(s: Seq<char>, radix: nat) -> Option<nat>
    decreases s.len(),
{
    if s.len() == 0 {
        Some(0)
    } else {
        match (digits_value(s.drop_last(), radix), digit_in(s.last(), radix)) {
            (Some(v), Some(d)) => Some(v * radix + d),
            _ => None,
        }
    }
}

/// `u32::from_str_radix`: an optional `+`, then at least one digit, the
/// value fitting `u32`.
pub open spec fn parse_u32(s: Seq<char>, radix: nat) -> Option<u32> {
    let d = if s.len() > 0 && s[0] == '+' {
        s.drop_first()
    } else {
        s
    };
    if d.len() == 0 {
        None
    } else {
        match digits_value(d, radix) {
            Some(v) => if v <= u32::MAX {
                Some(v as u32)
            } else {
                None
            },
            None => None,
        }
    }
}

/// A Unicode scalar value (`char::from_u32` accepts exactly these).
pub open spec fn is_scalar(v: u32) -> bool {
    v <= 0x10FFFF && !(0xD800 <= v && v <= 0xDFFF)
}

/// Calls `char::from_u32`. Claimed, as its documentation states: a char
/// exactly for Unicode scalar values, with that value.
#[verifier::external_body]
pub(crate) fn char_from_u32(v: u32) -> (r: Option<char>)
    ensures
        r matches Some(c) ==> c as u32 == v && c == v as char,
        r is Some <==> is_scalar(v),
{
    char::from_u32(v)
}

pub fn digit_value(c: char, radix: u32) -> (r: Option<u32>)
    requires
        radix == 10 || radix == 16,
    ensures
        r matches Some(v) ==> digit_in(c, radix as nat) == Some(v as nat) && v < 16,
        r is None ==> digit_in(c, radix as nat) is None,
{
    if '0' <= c && c <= '9' {
        Some(c as u32 - '0' as u32)
    } else if radix == 16 && 'a' <= c && c <= 'f' {
        Some(c as u32 - 'a' as u32 + 10)
    } else if radix == 16 && 'A' <= c && c <= 'F' {
        Some(c as u32 - 'A' as u32 + 10)
    } else {
        None
    }
}

pub proof fn lemma_digits_none_prefix(s: Seq<char>, radix: nat, k: int)
    requires
        0 <= k <= s.len(),
        digits_value(s.take(k), radix) is None,
    ensures
        digits_value(s, radix) is None,
    decreases s.len() - k,
{
    if k < s.len() {
        assert(s.take(k + 1).drop_last() =~= s.take(k));
        lemma_digits_none_prefix(s, radix, k + 1);
    } else {
        assert(s.take(k) =~= s);
    }
}

pub proof fn lemma_digits_grow(s: Seq<char>, radix: nat, k: int, bound: nat)
    requires
        0 <= k <= s.len(),
        radix >= 1,
        digits_value(s.take(k), radix) matches Some(v) && v > bound,
    ensures
        digits_value(s, radix) matches Some(w) ==> w > bound,
    decreases s.len() - k,
{
    if k < s.len() {
        assert(s.take(k + 1).drop_last() =~= s.take(k));
        let v = digits_value(s.take(k), radix)->0;
        match digits_value(s.take(k + 1), radix) {
            Some(w) => {
                assert(w >= v * radix);
                assert(v * radix >= v) by (nonlinear_arith)
                    requires
                        radix >= 1,
                ;
                lemma_digits_grow(s, radix, k + 1, bound);
            },
            None => {
                lemma_digits_none_prefix(s, radix, k + 1);
            },
        }
    } else {
        assert(s.take(k) =~= s);
    }
}

/// `u32::from_str_radix` on characters (radix 10 or 16).
pub fn parse_u32_chars(s: &Vec<char>, radix: u32) -> (r: Option<u32>)
    requires
        radix == 10 || radix == 16,
    ensures
        r == parse_u32(s@, radix as nat),
{
    let start: usize = if s.len() > 0 && s[0] == '+' {
        1
    } else {
        0
    };
    let ghost d = if s@.len() > 0 && s@[0] == '+' {
        s@.drop_first()
    } else {
        s@
    };
    assert(d =~= s@.skip(start as int));
    if start >= s.len() {
        return None;
    }
    let mut v: u64 = 0;
    let mut i = start;
    assert(d.take(0) =~= Seq::<char>::empty());
    while i < s.len()
        invariant
            start <= i <= s.len(),
            start < s.len(),
            radix == 10 || radix == 16,
            d =~= s@.skip(start as int),
            d == (if s@.len() > 0 && s@[0] == '+' {
                s@.drop_first()
            } else {
                s@
            }),
            digits_value(d.take(i - start), radix as nat) == Some(v as nat),
            v <= u32::MAX,
        decreases s.len() - i,
    {
        assert(d.take(i - start + 1).drop_last() =~= d.take(i - start));
        assert(d.take(i - start + 1).last() == s@[i as int]);
        let dv = match digit_value(s[i], radix) {
            Some(x) => x,
            None => {
                proof {
                    lemma_digits_none_prefix(d, radix as nat, i - start + 1);
                }
                return None;
            },
        };
        assert(v * (radix as u64) + dv as u64 <= 0xFFFF_FFFF * 16 + 16) by (nonlinear_arith)
            requires
                v <= 0xFFFF_FFFF,
                radix <= 16,
                dv <= 16,
        ;
        let nv = v * (radix as u64) + dv as u64;
        if nv > 0xFFFF_FFFF {
            proof {
                lemma_digits_grow(d, radix as nat, i - start + 1, u32::MAX as nat);
            }
            return None;
        }
        v = nv;
        i += 1;
    }
    assert(d.take(s.len() - start) =~= d);
    Some(v as u32)
}

/// The decoded text of an entity name (between `&` and `;`).
pub open spec fn entity_value(ent: Seq<char>) -> Option<Seq<char>> {
    if ent == "amp"@ {
        Some("&"@)
    } else if ent == "lt"@ {
        Some("<"@)
    } else if ent == "gt"@ {
        Some(">"@)
    } else if ent == "quot"@ {
        Some("\""@)
    } else if ent == "apos"@ {
        Some("'"@)
    } else if ent == "nbsp"@ {
        Some(seq!['\u{a0}'])
    } else if starts_with(ent, "#x"@) || starts_with(ent, "#X"@) {
        match parse_u32(ent.skip(2), 16) {
            Some(v) => if is_scalar(v) {
                Some(seq![v as char])
            } else {
                None
            },
            None => None,
        }
    } else if starts_with(ent, "#"@) {
        match parse_u32(ent.skip(1), 10) {
            Some(v) => if is_scalar(v) {
                Some(seq![v as char])
            } else {
                None
            },
            None => None,
        }
    } else {
        None
    }
}

/// Text with `&name;` references decoded: the common named entities and
/// numeric character references whose name (up to the first `;`) is at
/// most ten bytes; any other `&` stays as it is.
pub open spec fn unescaped(s: Seq<char>) -> Seq<char>
    decreases s.len(),
{
    if s.len() == 0 {
        seq![]
    } else if s[0] != '&' {
        seq![s[0]] + unescaped(s.drop_first())
    } else {
        let rest = s.drop_first();
        match find_char(rest, ';') {
            Some(end) => {
                proof {
                    lemma_find_char_props(rest, ';');
                }
                if byte_len(rest.take(end)) <= 10 {
                    match entity_value(rest.take(end)) {
                        Some(r) => r + unescaped(rest.skip(end + 1)),
                        None => seq!['&'] + unescaped(rest),
                    }
                } else {
                    seq!['&'] + unescaped(rest)
                }
            },
            None => seq!['&'] + unescaped(rest),
        }
    }
}

fn utf8_width(c: char) -> (r: usize)
    ensures
        r == utf8_len(c),
{
    let n = c as u32;
    if n < 0x80 {
        1
    } else if n < 0x800 {
        2
    } else if n < 0x10000 {
        3
    } else {
        4
    }
}

fn entity_chars(ent: &Vec<char>) -> (r: Option<Vec<char>>)
    ensures
        r matches Some(v) ==> entity_value(ent@) == Some(v@),
        r is None ==> entity_value(ent@) is None,
{
    if eq_str(ent, "amp") {
        return Some(chars_of("&"));
    } else if eq_str(ent, "lt") {
        return Some(chars_of("<"));
    } else if eq_str(ent, "gt") {
        return Some(chars_of(">"));
    } else if eq_str(ent, "quot") {
        return Some(chars_of("\""));
    } else if eq_str(ent, "apos") {
        return Some(chars_of("'"));
    } else if eq_str(ent, "nbsp") {
        let mut v: Vec<char> = Vec::new();
        v.push('\u{a0}');
        assert(v@ =~= seq!['\u{a0}']);
        return Some(v);
    }
    proof {
        reveal_strlit("#x");
        reveal_strlit("#X");
        reveal_strlit("#");
    }
    let hx = chars_of("#x");
    let hxu = chars_of("#X");
    let hash = chars_of("#");
    let (digits, radix) = if crate::text::has_prefix(ent, &hx) || crate::text::has_prefix(ent, &hxu) {
        (slice_chars(ent, 2, ent.len()), 16u32)
    } else if crate::text::has_prefix(ent, &hash) {
        (slice_chars(ent, 1, ent.len()), 10u32)
    } else {
        return None;
    };
    proof {
        if radix == 16 {
            assert(digits@ =~= ent@.skip(2));
        } else {
            assert(digits@ =~= ent@.skip(1));
        }
    }
    match parse_u32_chars(&digits, radix) {
        Some(v) => match char_from_u32(v) {
            Some(c) => {
                let mut out: Vec<char> = Vec::new();
                out.push(c);
                assert(out@ =~= seq![v as char]);
                Some(out)
            },
            None => None,
        },
        None => None,
    }
}

/// Decode the common named entities plus numeric character references.
pub fn unescape_chars(s: &Vec<char>) -> (r: Vec<char>)
    ensures
        r@ == unescaped(s@),
{
    let mut out: Vec<char> = Vec::new();
    let mut i: usize = 0;
    assert(s@.skip(0) =~= s@);
    while i < s.len()
        invariant
            i <= s.len(),
            unescaped(s@) == out@ + unescaped(s@.skip(i as int)),
        decreases s.len() - i,
    {
        let ghost t = s@.skip(i as int);
        assert(t[0] == s@[i as int]);
        assert(t.drop_first() =~= s@.skip(i + 1));
        if s[i] != '&' {
            let ghost o0 = out@;
            out.push(s[i]);
            assert(o0 + (seq![t[0]] + unescaped(t.drop_first())) =~= out@ + unescaped(s@.skip(i + 1)));
            i += 1;
            continue;
        }
        let end = find_from(s, ';', i + 1);
        let mut handled = false;
        if end < s.len() {
            // byte length of the name between '&' and ';'
            let mut bl: usize = 0;
            let mut k = i + 1;
            while k < end && bl <= 10
                invariant
                    i + 1 <= k <= end < s.len(),
                    bl <= 14,
                    bl <= 10 ==> bl == byte_len(s@.subrange(i + 1, k as int)),
                    bl > 10 ==> byte_len(s@.subrange(i + 1, k as int)) > 10,
                decreases end - k,
            {
                assert(s@.subrange(i + 1, k + 1).drop_last() =~= s@.subrange(i + 1, k as int));
                bl = bl + utf8_width(s[k]);
                k += 1;
            }
            proof {
                if k < end {
                    lemma_byte_len_mono(s@.subrange(i + 1, end as int), k - i - 1);
                    assert(s@.subrange(i + 1, end as int).take(k - i - 1) =~= s@.subrange(i + 1, k as int));
                }
            }
            let ghost rest = t.drop_first();
            assert(rest.take(end - i - 1) =~= s@.subrange(i + 1, end as int));
            if bl <= 10 && k == end {
                let name = slice_chars(s, i + 1, end);
                match entity_chars(&name) {
                    Some(rep) => {
                        let ghost o0 = out@;
                        append_seq(&mut out, &rep);
                        assert(rest.skip(end - i) =~= s@.skip(end + 1));
                        assert(o0 + (rep@ + unescaped(rest.skip(end - i))) =~= out@ + unescaped(s@.skip(end + 1)));
                        i = end + 1;
                        handled = true;
                    },
                    None => {},
                }
            }
        }
        if !handled {
            let ghost o0 = out@;
            out.push('&');
            assert(o0 + (seq!['&'] + unescaped(t.drop_first())) =~= out@ + unescaped(s@.skip(i + 1)));
            i += 1;
        }
    }
    assert(s@.skip(i as int) =~= Seq::<char>::empty());
    assert(out@ + Seq::<char>::empty() =~= out@);
    out
}

proof fn lemma_byte_len_mono(s: Seq<char>, k: int)
    requires
        0 <= k <= s.len(),
    ensures
        byte_len(s.take(k)) <= byte_len(s),
    decreases s.len() - k,
{
    if k < s.len() {
        assert(s.take(k + 1).drop_last() =~= s.take(k));
        lemma_byte_len_mono(s, k + 1);
    } else {
        assert(s.take(k) =~= s);
    }
}

/// Decode the common named entities plus numeric character references.
pub fn unescape_entities(s: &str) -> (r: String)
    ensures
        r@ == unescaped(s@),
{
    let c = chars_of(s);
    let u = unescape_chars(&c);
    string_of(&u)
}

/// How a character is written inside element content or an attribute.
pub open spec fn escape_char(c: char) -> Seq<char> {
    if c == '&' {
        "&amp;"@
    } else if c == '<' {
        "&lt;"@
    } else if c == '>' {
        "&gt;"@
    } else if c == '"' {
        "&quot;"@
    } else {
        seq![c]
    }
}

pub open spec fn escaped(s: Seq<char>) -> Seq<char>
    decreases s.len(),
{
    if s.len() == 0 {
        seq![]
    } else {
        escaped(s.drop_last()) + escape_char(s.last())
    }
}

pub fn escape_chars(s: &Vec<char>) -> (r: Vec<char>)
    ensures
        r@ == escaped(s@),
{
    let mut out: Vec<char> = Vec::new();
    let mut i: usize = 0;
    while i < s.len()
        invariant
            i <= s.len(),
            out@ == escaped(s@.take(i as int)),
        decreases s.len() - i,
    {
        assert(s@.take(i + 1).drop_last() =~= s@.take(i as int));
        let c = s[i];
        if c == '&' {
            append_str(&mut out, "&amp;");
        } else if c == '<' {
            append_str(&mut out, "&lt;");
        } else if c == '>' {
            append_str(&mut out, "&gt;");
        } else if c == '"' {
            append_str(&mut out, "&quot;");
        } else {
            let ghost o0 = out@;
            out.push(c);
            assert(out@ =~= o0 + seq![c]);
        }
        i += 1;
    }
    assert(s@.take(s.len() as int) =~= s@);
    out
}

/// Escapes `&`, `<`, `>` and `"` for XHTML.
pub fn escape_html(s: &str) -> (r: String)
    ensures
        r@ == escaped(s@),
{
    let c = chars_of(s);
    let e = escape_chars(&c);
    string_of(&e)
}

/// Tag for the inserted sibling so lists and tables stay valid.
pub open spec fn sibling(tag: Seq<char>) -> Seq<char> {
    if tag == "li"@ {
        "li"@
    } else if tag == "dt"@ {
        "dt"@
    } else if tag == "dd"@ {
        "dd"@
    } else if tag == "td"@ || tag == "th"@ {
        "td"@
    } else {
        "p"@
    }
}

/// Tag used for the inserted sibling so lists/tables stay valid.
pub fn sibling_tag(tag: &str) -> (r: &'static str)
    ensures
        r@ == sibling(tag@),
{
    let t = chars_of(tag);
    if eq_str(&t, "li") {
        "li"
    } else if eq_str(&t, "dt") {
        "dt"
    } else if eq_str(&t, "dd") {
        "dd"
    } else if eq_str(&t, "td") || eq_str(&t, "th") {
        "td"
    } else {
        "p"
    }
}


/// A block once its element has closed: entities decoded, whitespace
/// collapsed, and marked skipped unless worth translating.
pub open spec fn closed_block(b: BlockView) -> BlockView {
    let t = collapse(unescaped(b.text));
    BlockView { text: t, skipped: !translatable(t), ..b }
}

/// A block as its start tag opens it: no text yet.
pub open spec fn opened_block(tag: Seq<char>) -> BlockView {
    BlockView { text: seq![], skipped: false, translation: None, tag, parts: seq![] }
}

/// What the collecting pass has seen so far: the blocks in start-tag
/// order, and the indices of the blocks still open, innermost last.
pub struct CollectView {
    pub blocks: Seq<BlockView>,
    pub open: Seq<usize>,
}

/// First pass over a content document: one block per block-level element
/// (in pre-order) with the concatenated text of its own content.
pub struct CollectState {
    blocks: Vec<Block>,
    stack: Vec<usize>,
}

impl View for CollectState {
    type V = CollectView;

    closed spec fn view(&self) -> CollectView {
        CollectView { blocks: self.blocks@.map_values(|b: Block| b@), open: self.stack@ }
    }
}

impl CollectState {
    #[verifier::type_invariant]
    spec fn wf(self) -> bool {
        forall|i: int| 0 <= i < self.stack@.len() ==> #[trigger] self.stack@[i] < self.blocks@.len()
    }

    pub fn new() -> (s: Self)
        ensures
            s@.blocks == Seq::<BlockView>::empty(),
            s@.open == Seq::<usize>::empty(),
    {
        let s = CollectState { blocks: Vec::new(), stack: Vec::new() };
        assert(s@.blocks =~= Seq::<BlockView>::empty());
        s
    }

    /// Moves both fields out, leaving an empty state behind.
    fn take_parts(&mut self) -> (r: (Vec<Block>, Vec<usize>))
        ensures
            r.0@ == old(self).blocks@,
            r.1@ == old(self).stack@,
            forall|i: int| 0 <= i < r.1@.len() ==> #[trigger] r.1@[i] < r.0@.len(),
    {
        proof { use_type_invariant(&*self); }
        let mut stack: Vec<usize> = Vec::new();
        let mut blocks: Vec<Block> = Vec::new();
        std::mem::swap(&mut stack, &mut self.stack);
        std::mem::swap(&mut blocks, &mut self.blocks);
        (blocks, stack)
    }

    /// A block-level element starts: a new, empty block becomes the
    /// innermost open one.
    pub fn start_block(&mut self, tag: &str)
        ensures
            final(self)@.blocks == old(self)@.blocks.push(opened_block(tag@)),
            final(self)@.open == old(self)@.open.push(old(self)@.blocks.len() as usize),
    {
        let (mut blocks, mut stack) = self.take_parts();
        let idx = blocks.len();
        let b = Block {
            text: String::new(),
            skipped: false,
            translation: None,
            tag: tag.to_owned(),
            parts: Vec::new(),
        };
        assert(b@.parts =~= Seq::<Option<Seq<char>>>::empty());
        assert(b@.text =~= Seq::<char>::empty());
        assert(b@ =~= opened_block(tag@));
        blocks.push(b);
        stack.push(idx);
        *self = CollectState { blocks, stack };
        assert(self@.blocks =~= old(self)@.blocks.push(opened_block(tag@)));
    }

    /// A text chunk: it is appended to the innermost open block, and
    /// dropped when no block is open.
    pub fn text(&mut self, chunk: &str)
        ensures
            old(self)@.open.len() == 0 ==> final(self)@ == old(self)@,
            old(self)@.open.len() > 0 ==> {
                let k = old(self)@.open.last() as int;
                let b = old(self)@.blocks[k];
                &&& final(self)@.open == old(self)@.open
                &&& final(self)@.blocks == old(self)@.blocks.update(k, BlockView { text: b.text + chunk@, ..b })
            },
    {
        let n = self.stack.len();
        if n == 0 {
            return;
        }
        let (mut blocks, stack) = self.take_parts();
        let idx = stack[n - 1];
        assert(stack@[n - 1] < blocks@.len());
        let mut t = chars_of(blocks[idx].text.as_str());
        append_str(&mut t, chunk);
        let joined = string_of(&t);
        let ghost before = blocks@.map_values(|b: Block| b@);
        blocks[idx].text = joined;
        *self = CollectState { blocks, stack };
        assert(self@.blocks =~= before.update(idx as int, BlockView { text: before[idx as int].text + chunk@, ..before[idx as int] }));
    }

    /// A block-level element ends: the innermost open block is closed.
    pub fn end_block(&mut self)
        ensures
            old(self)@.open.len() == 0 ==> final(self)@ == old(self)@,
            old(self)@.open.len() > 0 ==> {
                &&& final(self)@.open == old(self)@.open.drop_last()
                &&& final(self)@.blocks == old(self)@.blocks.update(old(self)@.open.last() as int, closed_block(old(self)@.blocks[old(self)@.open.last() as int]))
            },
    {
        let n = self.stack.len();
        if n == 0 {
            return;
        }
        let (mut blocks, mut stack) = self.take_parts();
        let idx = stack[n - 1];
        assert(stack@[n - 1] < blocks@.len());
        let raw = chars_of(blocks[idx].text.as_str());
        let collapsed = collapse_ws(&unescape_chars(&raw));
        let text = string_of(&collapsed);
        let skipped = !is_translatable(text.as_str());
        let ghost before = blocks@.map_values(|b: Block| b@);
        blocks[idx].text = text;
        blocks[idx].skipped = skipped;
        stack.pop();
        *self = CollectState { blocks, stack };
        assert(self@.blocks =~= before.update(idx as int, closed_block(before[idx as int])));
        assert(self@.open =~= old(self)@.open.drop_last());
    }

    /// End of the document: blocks left open are closed, innermost first,
    /// and the blocks are handed out.
    pub fn finish(self) -> (r: Vec<Block>)
        ensures
            r@.map_values(|b: Block| b@) == close_all(self@.blocks, self@.open),
    {
        let mut st = self;
        let ghost start = st@;
        while st.stack.len() > 0
            invariant
                close_all(st@.blocks, st@.open) == close_all(start.blocks, start.open),
            decreases st@.open.len(),
        {
            st.end_block();
        }
        let (blocks, _stack) = st.take_parts();
        blocks
    }
}

/// Closes the given open blocks, innermost (last) first.
pub open spec fn close_all(blocks: Seq<BlockView>, open: Seq<usize>) -> Seq<BlockView>
    decreases open.len(),
{
    if open.len() == 0 {
        blocks
    } else {
        let k = open.last() as int;
        close_all(blocks.update(k, closed_block(blocks[k])), open.drop_last())
    }
}

/// Whether a block's text gives way to its translation.
pub open spec fn is_replaced(b: BlockView) -> bool {
    !b.skipped && b.translation is Some
}

/// The element placed right after a block in a bilingual document: a
/// sibling of a list- and table-safe tag holding the escaped translation.
pub open spec fn bilingual_insert(b: BlockView) -> Option<Seq<char>> {
    if is_replaced(b) {
        let tag = sibling(b.tag);
        Some("<"@ + tag + " class=\"ebtr-translation\">"@ + escaped(b.translation->0) + "</"@ + tag + ">"@)
    } else {
        None
    }
}

/// What goes in front of a block's content in a translated-only
/// document: its escaped translation.
pub open spec fn translated_insert(b: BlockView) -> Option<Seq<char>> {
    if is_replaced(b) {
        Some(escaped(b.translation->0))
    } else {
        None
    }
}

/// The block at an index, if there is one.
pub open spec fn block_at(blocks: Seq<Block>, idx: int) -> Option<BlockView> {
    if 0 <= idx < blocks.len() {
        Some(blocks[idx]@)
    } else {
        None
    }
}

fn sibling_html(b: &Block) -> (r: Option<String>)
    ensures
        opt_view(r) == bilingual_insert(b@),
{
    if b.skipped {
        return None;
    }
    match &b.translation {
        Some(tr) => {
            let tag = sibling_tag(b.tag.as_str());
            let mut out: Vec<char> = Vec::new();
            append_str(&mut out, "<");
            append_str(&mut out, tag);
            append_str(&mut out, " class=\"ebtr-translation\">");
            append_seq(&mut out, &escape_chars(&chars_of(tr.as_str())));
            append_str(&mut out, "</");
            append_str(&mut out, tag);
            append_str(&mut out, ">");
            Some(string_of(&out))
        },
        None => None,
    }
}

fn prefix_html(b: &Block) -> (r: Option<String>)
    ensures
        opt_view(r) == translated_insert(b@),
{
    if b.skipped {
        return None;
    }
    match &b.translation {
        Some(tr) => Some(escape_html(tr.as_str())),
        None => None,
    }
}

/// The `<style>` element appended to the head of a bilingual document.
pub fn head_style() -> (r: String)
    ensures
        r@ == "<style type=\"text/css\">"@ + STYLE@ + "</style>"@,
{
    let mut out: Vec<char> = Vec::new();
    append_str(&mut out, "<style type=\"text/css\">");
    append_str(&mut out, STYLE);
    append_str(&mut out, "</style>");
    string_of(&out)
}

/// Second pass, bilingual: the n-th block element of the document is the
/// n-th collected block, and gets its translation as a following sibling.
pub struct BilingualPass {
    pub cursor: usize,
}

impl BilingualPass {
    pub fn new() -> (p: Self)
        ensures
            p.cursor == 0,
    {
        BilingualPass { cursor: 0 }
    }

    /// A block element starts; returns the markup to insert after it.
    pub fn on_block(&mut self, blocks: &[Block]) -> (r: Option<String>)
        ensures
            final(self).cursor == if old(self).cursor < usize::MAX { old(self).cursor + 1 } else { old(self).cursor as int },
            opt_view(r) == match block_at(blocks@, old(self).cursor as int) {
                Some(b) => bilingual_insert(b),
                None => None,
            },
    {
        let idx = self.cursor;
        if self.cursor < usize::MAX {
            self.cursor = self.cursor + 1;
        }
        if idx < blocks.len() {
            sibling_html(&blocks[idx])
        } else {
            None
        }
    }
}

/// Second pass, translated only: each block's content starts with its
/// translation, and the original text chunks of a replaced block are
/// removed; a chunk belongs to the innermost open block element.
pub struct TranslatedPass {
    pub cursor: usize,
    pub stack: Vec<usize>,
}

impl TranslatedPass {
    pub fn new() -> (p: Self)
        ensures
            p.cursor == 0,
            p.stack@ == Seq::<usize>::empty(),
    {
        TranslatedPass { cursor: 0, stack: Vec::new() }
    }

    /// A block element starts; returns the markup to put in front of its
    /// content.
    pub fn on_start(&mut self, blocks: &[Block]) -> (r: Option<String>)
        ensures
            final(self).cursor == if old(self).cursor < usize::MAX { old(self).cursor + 1 } else { old(self).cursor as int },
            final(self).stack@ == old(self).stack@.push(old(self).cursor),
            opt_view(r) == match block_at(blocks@, old(self).cursor as int) {
                Some(b) => translated_insert(b),
                None => None,
            },
    {
        let idx = self.cursor;
        if self.cursor < usize::MAX {
            self.cursor = self.cursor + 1;
        }
        self.stack.push(idx);
        if idx < blocks.len() {
            prefix_html(&blocks[idx])
        } else {
            None
        }
    }

    /// A block element ends.
    pub fn on_end(&mut self)
        ensures
            final(self).cursor == old(self).cursor,
            final(self).stack@ == if old(self).stack@.len() > 0 { old(self).stack@.drop_last() } else { old(self).stack@ },
    {
        self.stack.pop();
    }

    /// A text chunk: whether to remove it.
    pub fn on_text(&self, blocks: &[Block]) -> (r: bool)
        ensures
            r == (self.stack@.len() > 0 && match block_at(blocks@, self.stack@.last() as int) {
                Some(b) => is_replaced(b),
                None => false,
            }),
    {
        let n = self.stack.len();
        if n == 0 {
            return false;
        }
        let idx = self.stack[n - 1];
        if idx < blocks.len() {
            !blocks[idx].skipped && blocks[idx].translation.is_some()
        } else {
            false
        }
    }
}

proof fn lemma_entity_prefix(ent: Seq<char>, c: char, rest: Seq<char>)
    requires
        1 <= ent.len() <= 4,
        forall|i: int| 0 <= i < ent.len() ==> #[trigger] ent[i] != ';' && (ent[i] as u32) < 0x80,
        entity_value(ent) == Some(seq![c]),
    ensures
        unescaped(seq!['&'] + ent + seq![';'] + rest) == seq![c] + unescaped(rest),
{
    let s = seq!['&'] + ent + seq![';'] + rest;
    let r = s.drop_first();
    assert(r =~= ent + seq![';'] + rest);
    assert forall|j: int| 0 <= j < ent.len() implies #[trigger] r[j] != ';' by {
        assert(r[j] == ent[j]);
    }
    assert(r[ent.len() as int] == ';');
    crate::text::lemma_find_char_is(r, ';', ent.len() as int);
    assert(r.take(ent.len() as int) =~= ent);
    assert(r.skip(ent.len() as int + 1) =~= rest);
    let e = ent.len() as int;
    assert(byte_len(ent) == e) by {
        lemma_ascii_byte_len(ent);
    }
}

proof fn lemma_ascii_byte_len(s: Seq<char>)
    requires
        forall|i: int| 0 <= i < s.len() ==> (#[trigger] s[i] as u32) < 0x80,
    ensures
        byte_len(s) == s.len(),
    decreases s.len(),
{
    if s.len() > 0 {
        assert forall|i: int| 0 <= i < s.len() - 1 implies (#[trigger] s.drop_last()[i] as u32) < 0x80 by {
            assert(s.drop_last()[i] == s[i]);
        }
        lemma_ascii_byte_len(s.drop_last());
        assert((s.last() as u32) < 0x80);
    }
}

proof fn lemma_unescape_escape_char(c: char, rest: Seq<char>)
    ensures
        unescaped(escape_char(c) + rest) == seq![c] + unescaped(rest),
{
    reveal_strlit("&amp;");
    reveal_strlit("&lt;");
    reveal_strlit("&gt;");
    reveal_strlit("&quot;");
    reveal_strlit("amp");
    reveal_strlit("lt");
    reveal_strlit("gt");
    reveal_strlit("quot");
    reveal_strlit("&");
    reveal_strlit("<");
    reveal_strlit(">");
    reveal_strlit("\"");
    assert("&"@ =~= seq!['&']);
    assert("<"@ =~= seq!['<']);
    assert(">"@ =~= seq!['>']);
    assert("\""@ =~= seq!['"']);
    if c == '&' {
        assert("&amp;"@ + rest =~= seq!['&'] + "amp"@ + seq![';'] + rest);
        lemma_entity_prefix("amp"@, '&', rest);
    } else if c == '<' {
        assert("&lt;"@ + rest =~= seq!['&'] + "lt"@ + seq![';'] + rest);
        lemma_entity_prefix("lt"@, '<', rest);
    } else if c == '>' {
        assert("&gt;"@ + rest =~= seq!['&'] + "gt"@ + seq![';'] + rest);
        assert("gt"@[0] != "lt"@[0]);
        assert("gt"@ != "lt"@);
        lemma_entity_prefix("gt"@, '>', rest);
    } else if c == '"' {
        assert("&quot;"@ + rest =~= seq!['&'] + "quot"@ + seq![';'] + rest);
        lemma_entity_prefix("quot"@, '"', rest);
    } else {
        let s = seq![c] + rest;
        assert(s.drop_first() =~= rest);
    }
}

proof fn lemma_escaped_prepend(c: char, s: Seq<char>)
    ensures
        escaped(seq![c] + s) == escape_char(c) + escaped(s),
    decreases s.len(),
{
    if s.len() == 0 {
        let t = seq![c] + s;
        assert(t =~= seq![c]);
        assert(t.drop_last() =~= Seq::<char>::empty());
        assert(t.last() == c);
        assert(escaped(t) == escaped(t.drop_last()) + escape_char(t.last()));
        assert(escaped(Seq::<char>::empty()) =~= Seq::<char>::empty());
        assert(Seq::<char>::empty() + escape_char(c) =~= escape_char(c));
        assert(escape_char(c) + escaped(s) =~= escape_char(c));
    } else {
        let t = seq![c] + s;
        assert(t.drop_last() =~= seq![c] + s.drop_last());
        assert(t.last() == s.last());
        lemma_escaped_prepend(c, s.drop_last());
        assert(escape_char(c) + escaped(s.drop_last()) + escape_char(s.last()) =~= escape_char(c) + (escaped(s.drop_last()) + escape_char(s.last())));
    }
}

/// Decoding an escaped text gives the text back: `unescape_entities` undoes
/// `escape_html`.
pub proof fn unescape_undoes_escape(s: Seq<char>)
    ensures
        unescaped(escaped(s)) == s,
    decreases s.len(),
{
    if s.len() > 0 {
        let t = s.drop_first();
        assert(s =~= seq![s[0]] + t);
        lemma_escaped_prepend(s[0], t);
        lemma_unescape_escape_char(s[0], escaped(t));
        unescape_undoes_escape(t);
    }
}

} // verus!
