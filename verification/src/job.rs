//! Translation job planning: token-budgeted batches, oversized-block
//! splitting, joining translated parts, resume bookkeeping and progress.
use vstd::prelude::*;
use crate::gemini::{ascii_count, batch_token_budget, count_scripts, estimate, estimate_counts, is_lite, tokens_of};
use crate::text::{chars_of, is_whitespace, is_ws, slice_chars, string_of};
use crate::types::{Block, BlockView, ContentDoc, DocView, doc_views};

verus! {

broadcast use vstd::string::group_string_axioms;

/// Parallel in-flight requests.
pub const CONCURRENCY: usize = 3;

/// Safety cap on paragraphs per request, so alignment stays manageable.
pub const MAX_BATCH_BLOCKS: usize = 100;

/// Parts of the remaining text `s`, `cur` being the part under way: a part
/// ends after a character once its token estimate reaches `target` and
/// that character is whitespace, or the part has grown to `4 * target`
/// characters.
pub open spec fn split_scan(s: Seq<char>, target: nat, cur: Seq<char>) -> Seq<Seq<char>>
    decreases s.len(),
{
    if s.len() == 0 {
        if cur.len() > 0 {
            seq![cur]
        } else {
            seq![]
        }
    } else {
        let cur2 = cur.push(s[0]);
        if tokens_of(cur2) >= target && (is_ws(s[0]) || cur2.len() >= target * 4) {
            seq![cur2] + split_scan(s.drop_first(), target, seq![])
        } else {
            split_scan(s.drop_first(), target, cur2)
        }
    }
}

/// Per-part token target for a budget: half of it, at least 200.
pub open spec fn split_target(budget: nat) -> nat {
    if budget / 2 > 200 {
        budget / 2
    } else {
        200
    }
}

pub open spec fn split_parts(s: Seq<char>, budget: nat) -> Seq<Seq<char>> {
    split_scan(s, split_target(budget), seq![])
}

/// The parts written one after another.
pub open spec fn concat(ps: Seq<Seq<char>>) -> Seq<char>
    decreases ps.len(),
{
    if ps.len() == 0 {
        seq![]
    } else {
        concat(ps.drop_last()) + ps.last()
    }
}

pub open spec fn string_views(v: Seq<String>) -> Seq<Seq<char>> {
    v.map_values(|s: String| s@)
}

proof fn lemma_split_scan(s: Seq<char>, target: nat, cur: Seq<char>)
    ensures
        concat(split_scan(s, target, cur)) == cur + s,
        forall|k: int| 0 <= k < split_scan(s, target, cur).len() ==> (#[trigger] split_scan(s, target, cur)[k]).len() > 0,
    decreases s.len(),
{
    if s.len() == 0 {
        if cur.len() > 0 {
            assert(seq![cur].drop_last() =~= Seq::<Seq<char>>::empty());
            assert(concat(Seq::<Seq<char>>::empty()) == Seq::<char>::empty());
            assert(concat(seq![cur]) == concat(seq![cur].drop_last()) + seq![cur].last());
            assert(Seq::<char>::empty() + cur =~= cur);
        } else {
            assert(concat(Seq::<Seq<char>>::empty()) == Seq::<char>::empty());
        }
        assert(cur + s =~= cur);
    } else {
        let cur2 = cur.push(s[0]);
        assert(cur2 + s.drop_first() =~= cur + s);
        if tokens_of(cur2) >= target && (is_ws(s[0]) || cur2.len() >= target * 4) {
            let rest = split_scan(s.drop_first(), target, seq![]);
            lemma_split_scan(s.drop_first(), target, seq![]);
            lemma_concat_prepend(cur2, rest);
            assert(Seq::<char>::empty() + s.drop_first() =~= s.drop_first());
            assert forall|k: int| 0 <= k < (seq![cur2] + rest).len() implies (#[trigger] (seq![cur2] + rest)[k]).len() > 0 by {
                if k > 0 {
                    assert((seq![cur2] + rest)[k] == rest[k - 1]);
                }
            }
        } else {
            lemma_split_scan(s.drop_first(), target, cur2);
        }
    }
}

proof fn lemma_concat_prepend(p: Seq<char>, rest: Seq<Seq<char>>)
    ensures
        concat(seq![p] + rest) == p + concat(rest),
    decreases rest.len(),
{
    if rest.len() == 0 {
        assert(seq![p] + rest =~= seq![p]);
        assert(seq![p].drop_last() =~= Seq::<Seq<char>>::empty());
        assert(concat(Seq::<Seq<char>>::empty()) == Seq::<char>::empty());
        assert(concat(seq![p]) == concat(seq![p].drop_last()) + seq![p].last());
        assert(Seq::<char>::empty() + p =~= p);
        assert(p + Seq::<char>::empty() =~= p);
    } else {
        lemma_concat_prepend(p, rest.drop_last());
        assert((seq![p] + rest).drop_last() =~= seq![p] + rest.drop_last());
        assert(p + concat(rest.drop_last()) + rest.last() =~= p + (concat(rest.drop_last()) + rest.last()));
    }
}

/// Concatenating the parts of a split restores the text exactly, and no
/// part is empty.
pub proof fn lemma_split_parts_restore(s: Seq<char>, budget: nat)
    ensures
        concat(split_parts(s, budget)) == s,
        forall|k: int| 0 <= k < split_parts(s, budget).len() ==> (#[trigger] split_parts(s, budget)[k]).len() > 0,
{
    lemma_split_scan(s, split_target(budget), seq![]);
    assert(Seq::<char>::empty() + s =~= s);
}

/// A part a split may end before the text does: it has reached the
/// token target and ends with whitespace, or has grown to four times the
/// target in characters.
pub open spec fn cut_ok(p: Seq<char>, target: nat) -> bool {
    &&& p.len() > 0
    &&& tokens_of(p) >= target
    &&& (is_ws(p.last()) || p.len() >= target * 4)
}

proof fn lemma_split_scan_cuts(s: Seq<char>, target: nat, cur: Seq<char>)
    ensures
        forall|k: int| 0 <= k < split_scan(s, target, cur).len() - 1 ==> cut_ok(#[trigger] split_scan(s, target, cur)[k], target),
    decreases s.len(),
{
    if s.len() > 0 {
        let cur2 = cur.push(s[0]);
        let cut = tokens_of(cur2) >= target && (is_ws(s[0]) || cur2.len() >= target * 4);
        if cut {
            let rest = split_scan(s.drop_first(), target, seq![]);
            lemma_split_scan_cuts(s.drop_first(), target, seq![]);
            let all = seq![cur2] + rest;
            assert(split_scan(s, target, cur) == all);
            assert(cur2.last() == s[0]);
            assert(cut_ok(cur2, target));
            assert forall|k: int| 0 <= k < all.len() - 1 implies cut_ok(#[trigger] all[k], target) by {
                if k > 0 {
                    assert(all[k] == rest[k - 1]);
                } else {
                    assert(all[0] == cur2);
                }
            }
        } else {
            lemma_split_scan_cuts(s.drop_first(), target, cur2);
            assert(split_scan(s, target, cur) == split_scan(s.drop_first(), target, cur2));
        }
    }
}

proof fn lemma_split_scan_earliest(s: Seq<char>, target: nat, cur: Seq<char>)
    requires
        forall|j: int| 0 < j <= cur.len() ==> !cut_ok(#[trigger] cur.take(j), target),
    ensures
        forall|k: int, j: int| 0 <= k < split_scan(s, target, cur).len() && 0 < j < split_scan(s, target, cur)[k].len()
            ==> !cut_ok(#[trigger] split_scan(s, target, cur)[k].take(j), target),
    decreases s.len(),
{
    let r = split_scan(s, target, cur);
    if s.len() == 0 {
        assert forall|k: int, j: int| 0 <= k < r.len() && 0 < j < r[k].len() implies !cut_ok(#[trigger] r[k].take(j), target) by {
            assert(r[k] == cur);
        }
    } else {
        let cur2 = cur.push(s[0]);
        assert forall|j: int| 0 < j < cur2.len() implies #[trigger] cur2.take(j) == cur.take(j) by {
            assert(cur2.take(j) =~= cur.take(j));
        }
        let cut = tokens_of(cur2) >= target && (is_ws(s[0]) || cur2.len() >= target * 4);
        if cut {
            let rest = split_scan(s.drop_first(), target, seq![]);
            lemma_split_scan_earliest(s.drop_first(), target, seq![]);
            assert(r == seq![cur2] + rest);
            assert forall|k: int, j: int| 0 <= k < r.len() && 0 < j < r[k].len() implies !cut_ok(#[trigger] r[k].take(j), target) by {
                if k > 0 {
                    assert(r[k] == rest[k - 1]);
                } else {
                    assert(r[0] == cur2);
                    assert(cur2.take(j) == cur.take(j));
                }
            }
        } else {
            assert(cur2.take(cur2.len() as int) =~= cur2);
            assert(cur2.last() == s[0]);
            assert(!cut_ok(cur2, target));
            assert forall|j: int| 0 < j <= cur2.len() implies !cut_ok(#[trigger] cur2.take(j), target) by {
                if j < cur2.len() {
                    assert(cur2.take(j) == cur.take(j));
                }
            }
            lemma_split_scan_earliest(s.drop_first(), target, cur2);
            assert(r == split_scan(s.drop_first(), target, cur2));
        }
    }
}

/// A split cuts at the first place it may: no part has a shorter
/// non-empty beginning that had already reached the token target and
/// ended with whitespace, or had already grown to four times the target.
pub proof fn split_cuts_at_first_chance(s: Seq<char>, budget: nat)
    ensures
        forall|k: int, j: int| 0 <= k < split_parts(s, budget).len() && 0 < j < split_parts(s, budget)[k].len() ==> {
            let q = #[trigger] split_parts(s, budget)[k].take(j);
            !(tokens_of(q) >= split_target(budget) && (is_ws(q.last()) || q.len() >= split_target(budget) * 4))
        },
{
    lemma_split_scan_earliest(s, split_target(budget), seq![]);
    assert forall|k: int, j: int| 0 <= k < split_parts(s, budget).len() && 0 < j < split_parts(s, budget)[k].len()
        implies !cut_ok(#[trigger] split_parts(s, budget)[k].take(j), split_target(budget)) by {}
}

/// Where a split cuts: every part but the last has reached the per-part
/// token target and ends with a whitespace character, unless it has
/// grown to four times the target in characters (a run without any
/// whitespace). With the text restored by concatenation, no word is cut
/// in two except inside such a run.
pub proof fn split_cuts_after_whitespace(s: Seq<char>, budget: nat)
    ensures
        concat(split_parts(s, budget)) == s,
        forall|k: int| 0 <= k < split_parts(s, budget).len() - 1 ==> {
            &&& (#[trigger] split_parts(s, budget)[k]).len() > 0
            &&& tokens_of(split_parts(s, budget)[k]) >= split_target(budget)
            &&& (is_ws(split_parts(s, budget)[k].last()) || split_parts(s, budget)[k].len() >= split_target(budget) * 4)
        },
{
    lemma_split_parts_restore(s, budget);
    lemma_split_scan_cuts(s, split_target(budget), seq![]);
    assert forall|k: int| 0 <= k < split_parts(s, budget).len() - 1 implies cut_ok(#[trigger] split_parts(s, budget)[k], split_target(budget)) by {}
}

/// `split_oversized` on characters.
pub fn split_chars(text: &Vec<char>, budget: usize) -> (r: Vec<Vec<char>>)
    requires
        budget <= usize::MAX / 2,
        text@.len() <= usize::MAX / 10,
    ensures
        crate::text::views(r@) == split_parts(text@, budget as nat),
{
    let target: usize = if budget / 2 > 200 {
        budget / 2
    } else {
        200
    };
    let mut parts: Vec<Vec<char>> = Vec::new();
    let mut cur: Vec<char> = Vec::new();
    let mut ascii: usize = 0;
    let mut other: usize = 0;
    let mut i: usize = 0;
    assert(text@.skip(0) =~= text@);
    assert(crate::text::views(parts@) =~= Seq::<Seq<char>>::empty());
    while i < text.len()
        invariant
            i <= text.len() <= usize::MAX / 10,
            target as nat == split_target(budget as nat),
            target <= usize::MAX / 4,
            ascii == ascii_count(cur@),
            ascii + other == cur@.len(),
            cur@.len() <= i,
            split_parts(text@, budget as nat) == crate::text::views(parts@) + split_scan(
                text@.skip(i as int),
                target as nat,
                cur@,
            ),
        decreases text.len() - i,
    {
        let c = text[i];
        let ghost rest = text@.skip(i as int);
        assert(rest.drop_first() =~= text@.skip(i + 1));
        assert(rest[0] == c);
        let ghost c0 = cur@;
        cur.push(c);
        assert(cur@.drop_last() =~= c0);
        if (c as u32) < 128 {
            ascii += 1;
        } else {
            other += 1;
        }
        let at_target = estimate_counts(ascii, other) >= target;
        if at_target && (is_whitespace(c) || cur.len() >= target * 4) {
            let ghost p0 = crate::text::views(parts@);
            let ghost cv = cur@;
            parts.push(cur);
            assert(crate::text::views(parts@) =~= p0.push(cv));
            assert(p0 + (seq![cv] + split_scan(rest.drop_first(), target as nat, seq![])) =~= p0.push(cv)
                + split_scan(rest.drop_first(), target as nat, seq![]));
            cur = Vec::new();
            assert(cur@ =~= Seq::<char>::empty());
            ascii = 0;
            other = 0;
        }
        i += 1;
    }
    assert(text@.skip(i as int) =~= Seq::<char>::empty());
    if cur.len() > 0 {
        let ghost p0 = crate::text::views(parts@);
        let ghost cv = cur@;
        parts.push(cur);
        assert(crate::text::views(parts@) =~= p0 + seq![cv]);
    } else {
        assert(crate::text::views(parts@) + Seq::<Seq<char>>::empty() =~= crate::text::views(parts@));
    }
    parts
}

/// Split a block whose token estimate alone busts the request budget into
/// whitespace-bounded parts. Concatenating the parts restores the original
/// text exactly, so the joined translation can replace it wholesale.
pub fn split_oversized(text: &str, budget: usize) -> (r: Vec<String>)
    requires
        budget <= usize::MAX / 2,
        text@.len() <= usize::MAX / 10,
    ensures
        string_views(r@) == split_parts(text@, budget as nat),
        concat(string_views(r@)) == text@,
        forall|k: int| 0 <= k < r@.len() ==> (#[trigger] r@[k])@.len() > 0,
        r@.len() == 0 <==> text@.len() == 0,
{
    let t = chars_of(text);
    let parts = split_chars(&t, budget);
    let mut out: Vec<String> = Vec::new();
    let mut k: usize = 0;
    while k < parts.len()
        invariant
            k <= parts.len(),
            string_views(out@) == crate::text::views(parts@).take(k as int),
        decreases parts.len() - k,
    {
        let ghost o0 = string_views(out@);
        let item = string_of(&parts[k]);
        assert(item@ == crate::text::views(parts@)[k as int]);
        out.push(item);
        assert(string_views(out@) =~= o0.push(item@));
        assert(string_views(out@) =~= crate::text::views(parts@).take(k + 1));
        k += 1;
    }
    assert(crate::text::views(parts@).take(parts.len() as int) =~= crate::text::views(parts@));
    proof {
        lemma_split_parts_restore(text@, budget as nat);
        let sv = string_views(out@);
        assert forall|k: int| 0 <= k < out@.len() implies (#[trigger] out@[k])@.len() > 0 by {
            assert(sv[k] == out@[k]@);
        }
        if sv.len() > 0 {
            assert(concat(sv) == concat(sv.drop_last()) + sv.last());
            assert(sv.last() == out@[out@.len() - 1]@);
        } else {
            assert(concat(sv) == Seq::<char>::empty());
        }
    }
    out
}

} // verus!

verus! {

/// One piece of text to translate: a whole block, or one part of a block
/// that was split.
#[derive(Debug)]
pub struct BatchItem {
    /// Document index.
    pub d: usize,
    /// Block index.
    pub b: usize,
    /// (part index, part count) when an oversized block was split.
    pub part: Option<(usize, usize)>,
    /// Exact text sent to the model (whole block, or one part of it).
    pub text: String,
}

pub struct ItemView {
    pub d: usize,
    pub b: usize,
    pub part: Option<(usize, usize)>,
    pub text: Seq<char>,
}

impl View for BatchItem {
    type V = ItemView;

    open spec fn view(&self) -> ItemView {
        ItemView { d: self.d, b: self.b, part: self.part, text: self.text@ }
    }
}

#[derive(Debug)]
pub struct Batch {
    pub items: Vec<BatchItem>,
    pub chars: usize,
    /// Estimated input tokens, used for budgeting.
    pub tokens: usize,
}

pub struct BatchView {
    pub items: Seq<ItemView>,
    pub chars: nat,
    pub tokens: nat,
}

impl View for Batch {
    type V = BatchView;

    open spec fn view(&self) -> BatchView {
        BatchView {
            items: self.items@.map_values(|i: BatchItem| i@),
            chars: self.chars as nat,
            tokens: self.tokens as nat,
        }
    }
}

pub open spec fn item_views(v: Seq<BatchItem>) -> Seq<ItemView> {
    v.map_values(|i: BatchItem| i@)
}

pub open spec fn batch_views(v: Seq<Batch>) -> Seq<BatchView> {
    v.map_values(|b: Batch| b@)
}

/// The pieces a block becomes: itself, or its parts when its estimate
/// alone exceeds the budget.
pub open spec fn block_pieces(d: usize, b: usize, text: Seq<char>, budget: nat) -> Seq<ItemView> {
    if tokens_of(text) > budget {
        let parts = split_parts(text, budget);
        Seq::new(
            parts.len(),
            |k: int| ItemView { d, b, part: Some((k as usize, parts.len() as usize)), text: parts[k] },
        )
    } else {
        seq![ItemView { d, b, part: None, text }]
    }
}

/// Pieces of a document's blocks, skipped blocks left out, in order.
pub open spec fn doc_pieces(d: usize, blocks: Seq<BlockView>, budget: nat) -> Seq<ItemView>
    decreases blocks.len(),
{
    if blocks.len() == 0 {
        seq![]
    } else {
        doc_pieces(d, blocks.drop_last(), budget) + if blocks.last().skipped {
            Seq::<ItemView>::empty()
        } else {
            block_pieces(d, (blocks.len() - 1) as usize, blocks.last().text, budget)
        }
    }
}

/// Pieces of all documents, in order.
pub open spec fn all_pieces(docs: Seq<DocView>, budget: nat) -> Seq<ItemView>
    decreases docs.len(),
{
    if docs.len() == 0 {
        seq![]
    } else {
        all_pieces(docs.drop_last(), budget) + doc_pieces(
            (docs.len() - 1) as usize,
            docs.last().blocks,
            budget,
        )
    }
}

/// Greedy batching of the remaining pieces, `cur` being the batch under
/// way and `cur_tokens` its estimate: a piece starts a new batch when it
/// would push a non-empty batch over the budget or past the block cap.
pub open spec fn group(items: Seq<ItemView>, budget: nat, cur: Seq<ItemView>, cur_tokens: nat) -> Seq<
    Seq<ItemView>,
>
    decreases items.len(),
{
    if items.len() == 0 {
        if cur.len() > 0 {
            seq![cur]
        } else {
            seq![]
        }
    } else {
        let t = tokens_of(items[0].text);
        if cur.len() > 0 && (cur_tokens + t > budget || cur.len() >= MAX_BATCH_BLOCKS) {
            seq![cur] + group(items.drop_first(), budget, seq![items[0]], t)
        } else {
            group(items.drop_first(), budget, cur.push(items[0]), cur_tokens + t)
        }
    }
}

pub open spec fn sum_chars(items: Seq<ItemView>) -> nat
    decreases items.len(),
{
    if items.len() == 0 {
        0
    } else {
        sum_chars(items.drop_last()) + items.last().text.len()
    }
}

pub open spec fn sum_tokens(items: Seq<ItemView>) -> nat
    decreases items.len(),
{
    if items.len() == 0 {
        0
    } else {
        sum_tokens(items.drop_last()) + tokens_of(items.last().text)
    }
}

/// The batches a model's budget makes of the documents, as item lists.
pub open spec fn batches_of(docs: Seq<DocView>, budget: nat) -> Seq<Seq<ItemView>> {
    group(all_pieces(docs, budget), budget, seq![], 0)
}

/// The budget of a model, as `batch_token_budget` gives it.
pub open spec fn model_budget(model: Seq<char>) -> nat {
    if is_lite(model) {
        5000
    } else {
        10000
    }
}

/// Longest block text the planner accepts (keeps every count in range).
pub open spec fn text_fits(t: Seq<char>) -> bool {
    t.len() <= usize::MAX / 10
}

pub open spec fn docs_fit(docs: Seq<DocView>) -> bool {
    forall|d: int, b: int|
        0 <= d < docs.len() && 0 <= b < docs[d].blocks.len() ==> text_fits(
            #[trigger] docs[d].blocks[b].text,
        )
}

/// Whether every block text is within what the planner accepts.
pub fn docs_plannable(docs: &[ContentDoc]) -> (r: bool)
    ensures
        r == docs_fit(doc_views(docs@)),
{
    let ghost dv = doc_views(docs@);
    let mut d: usize = 0;
    while d < docs.len()
        invariant
            d <= docs@.len(),
            dv == doc_views(docs@),
            forall|i: int, b: int| 0 <= i < d && 0 <= b < dv[i].blocks.len() ==> text_fits(#[trigger] dv[i].blocks[b].text),
        decreases docs.len() - d,
    {
        let blocks = &docs[d].blocks;
        assert(dv[d as int].blocks == docs@[d as int]@.blocks);
        let mut b: usize = 0;
        while b < blocks.len()
            invariant
                b <= blocks@.len(),
                d < docs@.len(),
                blocks == &docs@[d as int].blocks,
                dv == doc_views(docs@),
                dv[d as int].blocks == docs@[d as int]@.blocks,
                forall|i: int, k: int| 0 <= i < d && 0 <= k < dv[i].blocks.len() ==> text_fits(#[trigger] dv[i].blocks[k].text),
                forall|k: int| 0 <= k < b ==> text_fits(#[trigger] dv[d as int].blocks[k].text),
            decreases blocks.len() - b,
        {
            let n = chars_of(blocks[b].text.as_str()).len();
            assert(dv[d as int].blocks[b as int].text == blocks@[b as int].text@);
            if n > usize::MAX / 10 {
                assert(!text_fits(dv[d as int].blocks[b as int].text));
                return false;
            }
            b += 1;
        }
        assert forall|i: int, k: int| 0 <= i < d + 1 && 0 <= k < dv[i].blocks.len() implies text_fits(#[trigger] dv[i].blocks[k].text) by {
            if i == d {
                assert(text_fits(dv[d as int].blocks[k].text));
            }
        }
        d += 1;
    }
    true
}

/// A text has at most four characters per estimated token, plus six.
pub proof fn lemma_len_le_tokens(s: Seq<char>)
    ensures
        s.len() <= 4 * tokens_of(s) + 6,
{
    crate::gemini::lemma_ascii_count_le(s);
    let a = ascii_count(s);
    let o = (s.len() - a) as nat;
    assert(a <= 4 * (a / 4) + 3) by (nonlinear_arith);
    assert(o <= 3 * ((o * 10) / 23) + 3) by (nonlinear_arith);
}

pub proof fn lemma_tokens_le_len(s: Seq<char>)
    ensures
        tokens_of(s) <= s.len(),
{
    crate::gemini::lemma_ascii_count_le(s);
    let a = ascii_count(s);
    let o = (s.len() - a) as nat;
    assert((o * 10) / 23 <= o) by (nonlinear_arith);
}

proof fn lemma_concat_part_len(ps: Seq<Seq<char>>, k: int)
    requires
        0 <= k < ps.len(),
    ensures
        ps[k].len() <= concat(ps).len(),
    decreases ps.len(),
{
    if k < ps.len() - 1 {
        lemma_concat_part_len(ps.drop_last(), k);
    }
}

} // verus!

verus! {

proof fn lemma_all_pieces_step(docs: Seq<DocView>, d: int, budget: nat)
    requires
        0 <= d < docs.len(),
    ensures
        all_pieces(docs.take(d + 1), budget) == all_pieces(docs.take(d), budget) + doc_pieces(
            d as usize,
            docs[d].blocks,
            budget,
        ),
{
    assert(docs.take(d + 1).drop_last() =~= docs.take(d));
}

proof fn lemma_doc_pieces_step(d: usize, blocks: Seq<BlockView>, b: int, budget: nat)
    requires
        0 <= b < blocks.len(),
    ensures
        doc_pieces(d, blocks.take(b + 1), budget) == doc_pieces(d, blocks.take(b), budget) + if blocks[b].skipped {
            Seq::<ItemView>::empty()
        } else {
            block_pieces(d, b as usize, blocks[b].text, budget)
        },
{
    assert(blocks.take(b + 1).drop_last() =~= blocks.take(b));
}

fn copy_item(it: &BatchItem) -> (r: BatchItem)
    ensures
        r@ == it@,
{
    BatchItem { d: it.d, b: it.b, part: it.part, text: it.text.clone() }
}

/// Every piece of the documents, in order, each block split when its
/// estimate alone exceeds the budget.
pub fn collect_pieces(docs: &[ContentDoc], budget: usize) -> (r: Vec<BatchItem>)
    requires
        budget <= usize::MAX / 2,
        docs_fit(doc_views(docs@)),
    ensures
        item_views(r@) == all_pieces(doc_views(docs@), budget as nat),
        forall|k: int| 0 <= k < r@.len() ==> text_fits(#[trigger] r@[k]@.text),
{
    let ghost dv = doc_views(docs@);
    let mut items: Vec<BatchItem> = Vec::new();
    let mut d: usize = 0;
    assert(item_views(items@) =~= Seq::<ItemView>::empty());
    while d < docs.len()
        invariant
            d <= docs.len(),
            budget <= usize::MAX / 2,
            dv == doc_views(docs@),
            docs_fit(dv),
            item_views(items@) == all_pieces(dv.take(d as int), budget as nat),
            forall|k: int| 0 <= k < items@.len() ==> text_fits(#[trigger] items@[k]@.text),
        decreases docs.len() - d,
    {
        let blocks = &docs[d].blocks;
        let ghost bv = dv[d as int].blocks;
        assert(bv == blocks@.map_values(|b: Block| b@));
        let ghost before = item_views(items@);
        let mut b: usize = 0;
        assert(doc_pieces(d, bv.take(0), budget as nat) =~= Seq::<ItemView>::empty());
        assert(before + Seq::<ItemView>::empty() =~= before);
        while b < blocks.len()
            invariant
                d < docs.len(),
                b <= blocks.len(),
                budget <= usize::MAX / 2,
                bv == blocks@.map_values(|b: Block| b@),
                forall|k: int| 0 <= k < bv.len() ==> text_fits(#[trigger] bv[k].text),
                item_views(items@) == before + doc_pieces(d, bv.take(b as int), budget as nat),
                forall|k: int| 0 <= k < items@.len() ==> text_fits(#[trigger] items@[k]@.text),
            decreases blocks.len() - b,
        {
            proof {
                lemma_doc_pieces_step(d, bv, b as int, budget as nat);
            }
            let blk = &blocks[b];
            assert(blk@ == bv[b as int]);
            if !blk.skipped {
                let t = chars_of(blk.text.as_str());
                assert(text_fits(t@));
                let tokens = crate::gemini::estimate_chars(&t);
                let ghost i0 = item_views(items@);
                if tokens > budget {
                    let parts = split_chars(&t, budget);
                    let n = parts.len();
                    let ghost pv = crate::text::views(parts@);
                    proof {
                        lemma_split_parts_restore(t@, budget as nat);
                    }
                    let mut k: usize = 0;
                    while k < n
                        invariant
                            k <= n == parts.len(),
                            pv == crate::text::views(parts@),
                            pv == split_parts(t@, budget as nat),
                            concat(pv) == t@,
                            text_fits(t@),
                            item_views(items@) == i0 + block_pieces(d, b, t@, budget as nat).take(k as int),
                            tokens_of(t@) > budget,
                            forall|j: int| 0 <= j < items@.len() ==> text_fits(#[trigger] items@[j]@.text),
                        decreases n - k,
                    {
                        let ghost ii = item_views(items@);
                        let text = string_of(&parts[k]);
                        proof {
                            lemma_concat_part_len(pv, k as int);
                        }
                        assert(text@ == pv[k as int]);
                        let ghost tv = text@;
                        items.push(BatchItem { d, b, part: Some((k, n)), text });
                        assert(item_views(items@) =~= ii.push(ItemView { d, b, part: Some((k, n)), text: tv }));
                        assert(block_pieces(d, b, t@, budget as nat)[k as int] == ItemView { d, b, part: Some((k, n)), text: tv });
                        k += 1;
                        assert(item_views(items@) =~= i0 + block_pieces(d, b, t@, budget as nat).take(k as int));
                    }
                    assert(block_pieces(d, b, t@, budget as nat).take(n as int) =~= block_pieces(d, b, t@, budget as nat));
                } else {
                    let text = blk.text.clone();
                    items.push(BatchItem { d, b, part: None, text });
                    assert(item_views(items@) =~= i0 + block_pieces(d, b, t@, budget as nat));
                }
            } else {
                assert(item_views(items@) + Seq::<ItemView>::empty() =~= item_views(items@));
            }
            b += 1;
            assert(before + doc_pieces(d, bv.take(b - 1), budget as nat) + if bv[b - 1].skipped {
                Seq::<ItemView>::empty()
            } else {
                block_pieces(d, (b - 1) as usize, bv[b - 1].text, budget as nat)
            } =~= before + (doc_pieces(d, bv.take(b - 1), budget as nat) + if bv[b - 1].skipped {
                Seq::<ItemView>::empty()
            } else {
                block_pieces(d, (b - 1) as usize, bv[b - 1].text, budget as nat)
            }));
        }
        assert(bv.take(blocks.len() as int) =~= bv);
        proof {
            lemma_all_pieces_step(dv, d as int, budget as nat);
        }
        d += 1;
    }
    assert(dv.take(docs.len() as int) =~= dv);
    items
}

} // verus!

verus! {

/// A batch's bookkeeping is exact: its counts are the sums over its items.
pub open spec fn batch_sums_ok(b: BatchView) -> bool {
    b.chars == sum_chars(b.items) && b.tokens == sum_tokens(b.items)
}

pub open spec fn batch_items(v: Seq<Batch>) -> Seq<Seq<ItemView>> {
    v.map_values(|b: Batch| b@.items)
}

proof fn lemma_sums_push(items: Seq<ItemView>, x: ItemView)
    ensures
        sum_chars(items.push(x)) == sum_chars(items) + x.text.len(),
        sum_tokens(items.push(x)) == sum_tokens(items) + tokens_of(x.text),
{
    assert(items.push(x).drop_last() =~= items);
}

/// Greedy batching of the pieces under the budget and block cap.
pub fn group_items(items: &Vec<BatchItem>, budget: usize) -> (r: Vec<Batch>)
    requires
        budget <= usize::MAX / 16,
        forall|k: int| 0 <= k < items@.len() ==> text_fits(#[trigger] items@[k]@.text),
    ensures
        batch_items(r@) == group(item_views(items@), budget as nat, seq![], 0),
        forall|k: int| 0 <= k < r@.len() ==> batch_sums_ok(#[trigger] r@[k]@),
{
    let ghost iv = item_views(items@);
    let mut batches: Vec<Batch> = Vec::new();
    let mut cur: Vec<BatchItem> = Vec::new();
    let mut cur_chars: usize = 0;
    let mut cur_tokens: usize = 0;
    let mut k: usize = 0;
    assert(iv.skip(0) =~= iv);
    assert(item_views(cur@) =~= Seq::<ItemView>::empty());
    assert(batch_items(batches@) =~= Seq::<Seq<ItemView>>::empty());
    while k < items.len()
        invariant
            k <= items.len(),
            iv == item_views(items@),
            forall|j: int| 0 <= j < items@.len() ==> text_fits(#[trigger] items@[j]@.text),
            group(iv, budget as nat, seq![], 0) == batch_items(batches@) + group(
                iv.skip(k as int),
                budget as nat,
                item_views(cur@),
                cur_tokens as nat,
            ),
            forall|j: int| 0 <= j < batches@.len() ==> batch_sums_ok(#[trigger] batches@[j]@),
            cur@.len() <= MAX_BATCH_BLOCKS,
            cur_chars as nat == sum_chars(item_views(cur@)),
            cur_tokens as nat == sum_tokens(item_views(cur@)),
            cur_tokens <= cur_chars,
            budget <= usize::MAX / 16,
            cur_chars <= 4 * cur_tokens + 6 * cur@.len(),
            cur@.len() <= 1 ==> cur_chars <= usize::MAX / 10,
            cur@.len() >= 2 ==> cur_tokens <= budget,
        decreases items.len() - k,
    {
        let it = copy_item(&items[k]);
        assert(it@ == iv[k as int]);
        let ghost rest = iv.skip(k as int);
        assert(rest[0] == iv[k as int]);
        assert(rest.drop_first() =~= iv.skip(k + 1));
        let tc = chars_of(it.text.as_str());
        assert(text_fits(tc@));
        let chars = tc.len();
        let tokens = crate::gemini::estimate_chars(&tc);
        proof {
            lemma_tokens_le_len(tc@);
            lemma_len_le_tokens(tc@);
        }
        if cur.len() > 0 && (cur_tokens + tokens > budget || cur.len() >= MAX_BATCH_BLOCKS) {
            let ghost cv = item_views(cur@);
            let ghost b0 = batch_items(batches@);
            let batch = Batch { items: cur, chars: cur_chars, tokens: cur_tokens };
            assert(batch@.items == cv);
            batches.push(batch);
            assert(batch_items(batches@) =~= b0.push(cv));
            assert(b0 + (seq![cv] + group(rest.drop_first(), budget as nat, seq![rest[0]], tokens_of(rest[0].text)))
                =~= b0.push(cv) + group(rest.drop_first(), budget as nat, seq![rest[0]], tokens_of(rest[0].text)));
            cur = Vec::new();
            cur_chars = 0;
            cur_tokens = 0;
            assert(item_views(cur@) =~= Seq::<ItemView>::empty());
        }
        let ghost c0 = item_views(cur@);
        cur.push(it);
        assert(item_views(cur@) =~= c0.push(rest[0]));
        proof {
            lemma_sums_push(c0, rest[0]);
            if c0.len() == 0 {
                assert(c0 =~= Seq::<ItemView>::empty());
            }
        }
        cur_chars = cur_chars + chars;
        cur_tokens = cur_tokens + tokens;
        k += 1;
    }
    assert(iv.skip(k as int) =~= Seq::<ItemView>::empty());
    if cur.len() > 0 {
        let ghost cv = item_views(cur@);
        let ghost b0 = batch_items(batches@);
        let batch = Batch { items: cur, chars: cur_chars, tokens: cur_tokens };
        batches.push(batch);
        assert(batch_items(batches@) =~= b0 + seq![cv]);
    } else {
        assert(batch_items(batches@) + Seq::<Seq<ItemView>>::empty() =~= batch_items(batches@));
    }
    batches
}

/// Token-budgeted batches of every translatable block, in document order.
pub fn build_batches(docs: &[ContentDoc], model: &str) -> (r: Vec<Batch>)
    requires
        docs_fit(doc_views(docs@)),
    ensures
        batch_items(r@) == batches_of(doc_views(docs@), model_budget(model@)),
        forall|k: int| 0 <= k < r@.len() ==> batch_sums_ok(#[trigger] r@[k]@),
{
    let budget = batch_token_budget(model);
    let items = collect_pieces(docs, budget);
    group_items(&items, budget)
}

} // verus!

verus! {

pub open spec fn all_some(ps: Seq<Option<Seq<char>>>) -> bool {
    forall|i: int| 0 <= i < ps.len() ==> (#[trigger] ps[i]) is Some
}

/// The arrived parts written one after another.
pub open spec fn join_parts(ps: Seq<Option<Seq<char>>>) -> Seq<char>
    decreases ps.len(),
{
    if ps.len() == 0 {
        seq![]
    } else {
        join_parts(ps.drop_last()) + match ps.last() {
            Some(t) => t,
            None => seq![],
        }
    }
}

/// A block after one translated piece arrives: a whole-block translation
/// replaces the translation; a part fills its slot (the slots are reset
/// when the part count changed) and, once every slot is filled, the
/// joined parts become the translation and the slots are cleared.
pub open spec fn with_piece(blk: BlockView, part: Option<(usize, usize)>, t: Seq<char>) -> BlockView {
    match part {
        None => BlockView { translation: Some(t), ..blk },
        Some((pi, total)) => {
            let slots = if blk.parts.len() != total {
                Seq::new(total as nat, |i: int| None::<Seq<char>>)
            } else {
                blk.parts
            };
            let filled = slots.update(pi as int, Some(t));
            if all_some(filled) {
                BlockView { translation: Some(join_parts(filled)), parts: seq![], ..blk }
            } else {
                BlockView { parts: filled, ..blk }
            }
        },
    }
}

pub open spec fn part_ok(part: Option<(usize, usize)>) -> bool {
    match part {
        Some((pi, total)) => pi < total,
        None => true,
    }
}

fn apply_to_block(block: &mut Block, part: Option<(usize, usize)>, t: &str)
    requires
        part_ok(part),
    ensures
        final(block)@ == with_piece(old(block)@, part, t@),
{
    match part {
        None => {
            block.translation = Some(t.to_string());
            assert(block@ =~= with_piece(old(block)@, part, t@));
        },
        Some((pi, total)) => {
            if block.parts.len() != total {
                block.parts.clear();
                let mut k: usize = 0;
                while k < total
                    invariant
                        k <= total,
                        block.parts@.len() == k,
                        forall|j: int| 0 <= j < k ==> (#[trigger] block.parts@[j]) is None,
                        block.text == old(block).text,
                        block.skipped == old(block).skipped,
                        block.translation == old(block).translation,
                        block.tag == old(block).tag,
                    decreases total - k,
                {
                    block.parts.push(None);
                    k += 1;
                }
                assert(block@.parts =~= Seq::new(total as nat, |i: int| None::<Seq<char>>));
            }
            let ghost slots = block@.parts;
            block.parts.set(pi, Some(t.to_string()));
            assert(block@.parts =~= slots.update(pi as int, Some(t@)));
            let mut complete = true;
            let mut j: usize = 0;
            while j < block.parts.len()
                invariant
                    j <= block.parts@.len(),
                    complete == forall|i: int| 0 <= i < j ==> (#[trigger] block@.parts[i]) is Some,
                decreases block.parts.len() - j,
            {
                if block.parts[j].is_none() {
                    assert(block@.parts[j as int] is None);
                    complete = false;
                }
                j += 1;
            }
            if complete {
                let mut joined: Vec<char> = Vec::new();
                let mut k: usize = 0;
                while k < block.parts.len()
                    invariant
                        k <= block.parts@.len(),
                        joined@ == join_parts(block@.parts.take(k as int)),
                    decreases block.parts.len() - k,
                {
                    assert(block@.parts.take(k + 1).drop_last() =~= block@.parts.take(k as int));
                    match &block.parts[k] {
                        Some(p) => crate::text::append_str(&mut joined, p.as_str()),
                        None => {},
                    }
                    k += 1;
                }
                assert(block@.parts.take(block.parts.len() as int) =~= block@.parts);
                block.translation = Some(string_of(&joined));
                block.parts.clear();
                assert(block@.parts =~= Seq::<Option<Seq<char>>>::empty());
            }
        },
    }
}

/// Store one translated piece, joining split blocks once all parts arrived.
pub fn apply_translation(docs: &mut Vec<ContentDoc>, item: &BatchItem, t: &str)
    requires
        item.d < old(docs)@.len(),
        item.b < old(docs)@[item.d as int].blocks@.len(),
        part_ok(item.part),
    ensures
        final(docs)@.len() == old(docs)@.len(),
        forall|d: int| 0 <= d < old(docs)@.len() && d != item.d ==> #[trigger] final(docs)@[d]@ == old(docs)@[d]@,
        ({
            let od = old(docs)@[item.d as int]@;
            final(docs)@[item.d as int]@ == DocView {
                blocks: od.blocks.update(item.b as int, with_piece(od.blocks[item.b as int], item.part, t@)),
                ..od
            }
        }),
{
    let doc = &mut docs[item.d];
    let block = &mut doc.blocks[item.b];
    apply_to_block(block, item.part, t);
    assert(docs@[item.d as int]@.blocks =~= old(docs)@[item.d as int]@.blocks.update(item.b as int, with_piece(old(docs)@[item.d as int]@.blocks[item.b as int], item.part, t@)));
}

} // verus!

verus! {

/// A piece names an existing block, and a part index within its count.
pub open spec fn item_fits(docs: Seq<DocView>, it: ItemView) -> bool {
    &&& it.d < docs.len()
    &&& it.b < docs[it.d as int].blocks.len()
    &&& part_ok(it.part)
}

/// The documents after one translated piece arrives (unchanged when the
/// piece names no block).
pub open spec fn apply_piece(docs: Seq<DocView>, it: ItemView, t: Seq<char>) -> Seq<DocView> {
    if item_fits(docs, it) {
        let od = docs[it.d as int];
        docs.update(
            it.d as int,
            DocView { blocks: od.blocks.update(it.b as int, with_piece(od.blocks[it.b as int], it.part, t)), ..od },
        )
    } else {
        docs
    }
}

/// The documents after a batch's reply: the k-th item (1-based) takes the
/// translation numbered k, when the reply has one.
pub open spec fn apply_batch(docs: Seq<DocView>, items: Seq<ItemView>, tr: Map<usize, Seq<char>>) -> Seq<DocView>
    decreases items.len(),
{
    if items.len() == 0 {
        docs
    } else {
        let prev = apply_batch(docs, items.drop_last(), tr);
        let k = items.len() as usize;
        if tr.contains_key(k) {
            apply_piece(prev, items.last(), tr[k])
        } else {
            prev
        }
    }
}

fn apply_checked(docs: &mut Vec<ContentDoc>, item: &BatchItem, t: &str)
    ensures
        doc_views(final(docs)@) == apply_piece(doc_views(old(docs)@), item@, t@),
{
    let ok = match item.part {
        Some((pi, total)) => pi < total,
        None => true,
    };
    if item.d < docs.len() && item.b < docs[item.d].blocks.len() && ok {
        apply_translation(docs, item, t);
        assert(doc_views(docs@) =~= apply_piece(doc_views(old(docs)@), item@, t@));
    }
}

/// Stores a batch's translations (keyed by 1-based item number) into the
/// blocks its items name.
pub fn apply_batch_translations(
    docs: &mut Vec<ContentDoc>,
    batch: &Batch,
    tr: &std::collections::BTreeMap<usize, String>,
)
    ensures
        doc_views(final(docs)@) == apply_batch(doc_views(old(docs)@), batch@.items, crate::gemini::map_views(tr@)),
{
    broadcast use vstd::std_specs::btree::group_btree_axioms;
    let ghost items = batch@.items;
    let mut k: usize = 0;
    assert(items.take(0) =~= Seq::<ItemView>::empty());
    while k < batch.items.len()
        invariant
            k <= batch.items@.len(),
            items == batch@.items,
            doc_views(docs@) == apply_batch(doc_views(old(docs)@), items.take(k as int), crate::gemini::map_views(tr@)),
        decreases batch.items.len() - k,
    {
        assert(items.take(k + 1).drop_last() =~= items.take(k as int));
        assert(items.take(k + 1).last() == batch.items@[k as int]@);
        match tr.get(&(k + 1)) {
            Some(t) => {
                apply_checked(docs, &batch.items[k], t.as_str());
            },
            None => {},
        }
        k += 1;
    }
    assert(items.take(k as int) =~= items);
}

/// Translations saved by an earlier run, per batch index.
pub type Resumed = std::collections::HashMap<usize, std::collections::BTreeMap<usize, String>>;

/// The documents after the saved translations of every batch are stored.
pub open spec fn apply_resumed(
    docs: Seq<DocView>,
    batches: Seq<BatchView>,
    saved: Map<usize, Map<usize, Seq<char>>>,
) -> Seq<DocView>
    decreases batches.len(),
{
    if batches.len() == 0 {
        docs
    } else {
        let prev = apply_resumed(docs, batches.drop_last(), saved);
        let bi = (batches.len() - 1) as usize;
        if saved.contains_key(bi) {
            apply_batch(prev, batches.last().items, saved[bi])
        } else {
            prev
        }
    }
}

pub open spec fn resumed_views(m: Map<usize, std::collections::BTreeMap<usize, String>>) -> Map<usize, Map<usize, Seq<char>>> {
    m.map_values(|t: std::collections::BTreeMap<usize, String>| crate::gemini::map_views(t@))
}

/// Stores the translations an interrupted run left behind.
pub fn restore_resumed(docs: &mut Vec<ContentDoc>, batches: &Vec<Batch>, resumed: &Resumed)
    ensures
        doc_views(final(docs)@) == apply_resumed(doc_views(old(docs)@), batch_views(batches@), resumed_views(resumed@)),
{
    broadcast use vstd::std_specs::hash::group_hash_axioms;
    let ghost bv = batch_views(batches@);
    let mut bi: usize = 0;
    assert(bv.take(0) =~= Seq::<BatchView>::empty());
    while bi < batches.len()
        invariant
            bi <= batches@.len(),
            bv == batch_views(batches@),
            doc_views(docs@) == apply_resumed(doc_views(old(docs)@), bv.take(bi as int), resumed_views(resumed@)),
        decreases batches.len() - bi,
    {
        assert(bv.take(bi + 1).drop_last() =~= bv.take(bi as int));
        match resumed.get(&bi) {
            Some(tr) => {
                apply_batch_translations(docs, &batches[bi], tr);
            },
            None => {},
        }
        bi += 1;
    }
    assert(bv.take(bi as int) =~= bv);
}

/// Indices below `n` that no saved batch covers, ascending.
pub open spec fn pending_of(n: nat, saved: Set<usize>) -> Seq<usize>
    decreases n,
{
    if n == 0 {
        seq![]
    } else {
        let prev = pending_of((n - 1) as nat, saved);
        if saved.contains((n - 1) as usize) {
            prev
        } else {
            prev.push((n - 1) as usize)
        }
    }
}

/// The batches still to translate.
pub fn pending_batches(n: usize, resumed: &Resumed) -> (r: Vec<usize>)
    ensures
        r@ == pending_of(n as nat, resumed@.dom()),
{
    broadcast use vstd::std_specs::hash::group_hash_axioms;
    let mut r: Vec<usize> = Vec::new();
    let mut bi: usize = 0;
    while bi < n
        invariant
            bi <= n,
            r@ == pending_of(bi as nat, resumed@.dom()),
        decreases n - bi,
    {
        if !resumed.contains_key(&bi) {
            r.push(bi);
        }
        bi += 1;
    }
    r
}

/// Sum of the batches' character counts, saturating at `usize::MAX`.
pub open spec fn chars_sum(batches: Seq<BatchView>, only: spec_fn(int) -> bool) -> nat
    decreases batches.len(),
{
    if batches.len() == 0 {
        0
    } else {
        let prev = chars_sum(batches.drop_last(), only);
        let add = if only(batches.len() - 1) { batches.last().chars } else { 0 };
        if prev + add > usize::MAX { usize::MAX as nat } else { prev + add }
    }
}

/// Characters of all batches, and of those already done by a resumed run.
pub fn char_totals(batches: &Vec<Batch>, resumed: &Resumed) -> (r: (usize, usize))
    ensures
        r.0 == chars_sum(batch_views(batches@), |i: int| true),
        r.1 == chars_sum(batch_views(batches@), |i: int| resumed@.dom().contains(i as usize)),
{
    broadcast use vstd::std_specs::hash::group_hash_axioms;
    let ghost bv = batch_views(batches@);
    let mut all: usize = 0;
    let mut done: usize = 0;
    let mut bi: usize = 0;
    while bi < batches.len()
        invariant
            bi <= batches@.len(),
            bv == batch_views(batches@),
            all == chars_sum(bv.take(bi as int), |i: int| true),
            done == chars_sum(bv.take(bi as int), |i: int| resumed@.dom().contains(i as usize)),
        decreases batches.len() - bi,
    {
        assert(bv.take(bi + 1).drop_last() =~= bv.take(bi as int));
        let c = batches[bi].chars;
        all = all.saturating_add(c);
        if resumed.contains_key(&bi) {
            done = done.saturating_add(c);
        }
        bi += 1;
    }
    assert(bv.take(bi as int) =~= bv);
    (all, done)
}

} // verus!

verus! {

/// `usize::from_str`: an optional `+`, then at least one decimal digit,
/// the value fitting `usize`.
pub open spec fn parse_index(s: Seq<char>) -> Option<usize> {
    let d = if s.len() > 0 && s[0] == '+' {
        s.drop_first()
    } else {
        s
    };
    if d.len() == 0 {
        None
    } else {
        match crate::html::digits_value(d, 10) {
            Some(v) => if v <= usize::MAX {
                Some(v as usize)
            } else {
                None
            },
            None => None,
        }
    }
}

pub fn parse_index_chars(s: &Vec<char>) -> (r: Option<usize>)
    ensures
        r == parse_index(s@),
{
    let start: usize = if s.len() > 0 && s[0] == '+' {
        1
    } else {
        0
    };
    let ghost d = if s@.len() > 0 && s@[0] == '+' {
        s@.drop_first()
    } else {
        s@
    };
    assert(d =~= s@.skip(start as int));
    if start >= s.len() {
        return None;
    }
    let mut v: u128 = 0;
    let mut i = start;
    assert(d.take(0) =~= Seq::<char>::empty());
    while i < s.len()
        invariant
            start <= i <= s.len(),
            start < s.len(),
            d =~= s@.skip(start as int),
            d == (if s@.len() > 0 && s@[0] == '+' {
                s@.drop_first()
            } else {
                s@
            }),
            crate::html::digits_value(d.take(i - start), 10) == Some(v as nat),
            v <= usize::MAX,
        decreases s.len() - i,
    {
        assert(d.take(i - start + 1).drop_last() =~= d.take(i - start));
        assert(d.take(i - start + 1).last() == s@[i as int]);
        let dv = match crate::html::digit_value(s[i], 10) {
            Some(x) => x,
            None => {
                proof {
                    crate::html::lemma_digits_none_prefix(d, 10, i - start + 1);
                }
                return None;
            },
        };
        let nv = v * 10 + dv as u128;
        if nv > usize::MAX as u128 {
            proof {
                crate::html::lemma_digits_grow(d, 10, i - start + 1, usize::MAX as nat);
            }
            return None;
        }
        v = nv;
        i += 1;
    }
    assert(d.take(s.len() - start) =~= d);
    Some(v as usize)
}

/// The translations a saved batch line lists: members whose key reads
/// as an index and whose value is a string, later ones overriding.
pub open spec fn saved_translations(members: Seq<crate::json::Member>) -> Map<usize, Seq<char>>
    decreases members.len(),
{
    if members.len() == 0 {
        Map::empty()
    } else {
        let prev = saved_translations(members.drop_last());
        let m = members.last();
        match (parse_index(m.key@), crate::json::json_str(Some(m.value))) {
            (Some(k), Some(t)) => prev.insert(k, t),
            _ => prev,
        }
    }
}

/// One line of the resume log, `{"i": batch, "t": {"1": text, ...}}`:
/// the batch and its translations, when it has any.
pub open spec fn resume_line(line: Seq<char>) -> Option<(usize, Map<usize, Seq<char>>)> {
    match crate::json::json_parse(line) {
        Ok(v) => resume_entry(v),
        Err(_) => None,
    }
}

/// A parsed resume-log line: the batch index `i` and the translations
/// under `t`, when it has any.
pub open spec fn resume_entry(v: crate::json::Json) -> Option<(usize, Map<usize, Seq<char>>)> {
    match crate::json::json_u64(crate::json::json_get(v, "i"@)) {
            Some(i) => {
                let tr = match crate::json::json_object(crate::json::json_get(v, "t"@)) {
                    Some(ms) => saved_translations(ms),
                    None => Map::empty(),
                };
                if tr.dom().len() == 0 {
                    None
                } else {
                    Some((i as usize, tr))
                }
            },
            None => None,
    }
}

/// Reads one line of the resume log.
pub fn parse_resume_line(line: &str) -> (r: Option<(usize, std::collections::BTreeMap<usize, String>)>)
    ensures
        match r {
            Some((i, tr)) => resume_line(line@) == Some((i, crate::gemini::map_views(tr@))),
            None => resume_line(line@) is None,
        },
{
    broadcast use vstd::std_specs::btree::group_btree_axioms;
    match crate::json::parse_json(line) {
        Ok(v) => resume_from_json(&v),
        Err(_) => None,
    }
}

/// A parsed resume-log line (see `resume_entry`).
pub fn resume_from_json(v: &crate::json::Json) -> (r: Option<(usize, std::collections::BTreeMap<usize, String>)>)
    ensures
        match r {
            Some((i, tr)) => resume_entry(*v) == Some((i, crate::gemini::map_views(tr@))),
            None => resume_entry(*v) is None,
        },
{
    broadcast use vstd::std_specs::btree::group_btree_axioms;
    let i = match v.get("i") {
        Some(x) => match x.as_u64() {
            Some(i) => i,
            None => {
                return None;
            },
        },
        None => {
            return None;
        },
    };
    let mut tr: std::collections::BTreeMap<usize, String> = std::collections::BTreeMap::new();
    assert(crate::gemini::map_views(tr@) =~= Map::<usize, Seq<char>>::empty());
    match v.get("t") {
        Some(t) => match t.as_object() {
            Some(ms) => {
                let mut k: usize = 0;
                assert(ms@.take(0) =~= Seq::<crate::json::Member>::empty());
                while k < ms.len()
                    invariant
                        k <= ms@.len(),
                        crate::gemini::map_views(tr@) == saved_translations(ms@.take(k as int)),
                    decreases ms.len() - k,
                {
                    assert(ms@.take(k + 1).drop_last() =~= ms@.take(k as int));
                    let key = chars_of(ms[k].key.as_str());
                    match (parse_index_chars(&key), ms[k].value.as_str()) {
                        (Some(n), Some(s)) => {
                            let ghost m0 = tr@;
                            let ghost sv = s@;
                            tr.insert(n, s.clone());
                            assert(crate::gemini::map_views(tr@) =~= crate::gemini::map_views(m0).insert(n, sv));
                        },
                        _ => {},
                    }
                    k += 1;
                }
                assert(ms@.take(k as int) =~= ms@);
            },
            None => {},
        },
        None => {},
    }
    assert(crate::gemini::map_views(tr@).dom() =~= tr@.dom());
    if tr.len() == 0 {
        return None;
    }
    Some((i as usize, tr))
}

/// Reads the resume log's lines in order; a later line for a batch
/// replaces an earlier one.
pub fn load_resume_lines(lines: &Vec<String>) -> (r: Resumed)
    ensures
        resumed_views(r@) == resume_log(views_of(lines@)),
{
    broadcast use vstd::std_specs::hash::group_hash_axioms;
    let mut map: Resumed = std::collections::HashMap::new();
    let ghost lv = views_of(lines@);
    let mut k: usize = 0;
    assert(resumed_views(map@) =~= resume_log(lv.take(0)));
    while k < lines.len()
        invariant
            k <= lines@.len(),
            lv == views_of(lines@),
            resumed_views(map@) == resume_log(lv.take(k as int)),
        decreases lines.len() - k,
    {
        assert(lv.take(k + 1).drop_last() =~= lv.take(k as int));
        match parse_resume_line(lines[k].as_str()) {
            Some((i, tr)) => {
                let ghost m0 = map@;
                map.insert(i, tr);
                assert(resumed_views(map@) =~= resumed_views(m0).insert(i, crate::gemini::map_views(tr@)));
            },
            None => {},
        }
        k += 1;
    }
    assert(lv.take(k as int) =~= lv);
    map
}

pub open spec fn views_of(v: Seq<String>) -> Seq<Seq<char>> {
    v.map_values(|s: String| s@)
}

/// The saved translations a resume log holds, per batch.
pub open spec fn resume_log(lines: Seq<Seq<char>>) -> Map<usize, Map<usize, Seq<char>>>
    decreases lines.len(),
{
    if lines.len() == 0 {
        Map::empty()
    } else {
        let prev = resume_log(lines.drop_last());
        match resume_line(lines.last()) {
            Some((i, tr)) => prev.insert(i, tr),
            None => prev,
        }
    }
}

} // verus!

verus! {

/// The original file's bytes.
pub open spec fn book_bytes(book: crate::types::LoadedBook) -> Seq<u8> {
    match book.source {
        crate::types::BookSource::Epub { bytes, .. } => bytes@,
        crate::types::BookSource::Pdf { bytes, .. } => bytes@,
    }
}

/// Identity of a translation run: digest of the book, model, language,
/// the model's budget and block cap, and the first eight hex digits of
/// the trimmed instructions' digest, joined by `-`.
pub open spec fn resume_id(bytes: Seq<u8>, model: Seq<char>, lang: Seq<char>, instructions: Seq<char>) -> Seq<char> {
    crate::cache::hex_of(crate::cache::sha256_of(bytes)) + "-"@ + model + "-"@ + lang + "-"@
        + crate::text::decimal(model_budget(model)) + "-"@ + crate::text::decimal(MAX_BATCH_BLOCKS as nat) + "-"@
        + crate::cache::hex_of(crate::cache::sha256_of(vstd::utf8::encode_utf8(crate::text::trim(instructions)))).take(8)
}

/// Key of a run's resume log. Custom instructions are part of the
/// translation, so changing them starts a fresh log.
pub fn resume_key(book: &crate::types::LoadedBook, model: &str, lang: &str, instructions: &str) -> (r: String)
    ensures
        r@ == resume_id(book_bytes(*book), model@, lang@, instructions@),
{
    let bytes = match &book.source {
        crate::types::BookSource::Epub { bytes, .. } => bytes,
        crate::types::BookSource::Pdf { bytes, .. } => bytes,
    };
    let h = crate::cache::book_digest_hex(bytes.as_slice());
    let ih = crate::cache::book_digest_hex(crate::cache::trimmed_bytes(instructions).as_slice());
    let mut out: Vec<char> = chars_of(h.as_str());
    crate::text::append_str(&mut out, "-");
    crate::text::append_str(&mut out, model);
    crate::text::append_str(&mut out, "-");
    crate::text::append_str(&mut out, lang);
    crate::text::append_str(&mut out, "-");
    crate::text::push_decimal(&mut out, batch_token_budget(model) as u64);
    crate::text::append_str(&mut out, "-");
    crate::text::push_decimal(&mut out, MAX_BATCH_BLOCKS as u64);
    crate::text::append_str(&mut out, "-");
    let ihc = chars_of(ih.as_str());
    let short = slice_chars(&ihc, 0, 8);
    crate::text::append_seq(&mut out, &short);
    assert(short@ =~= ih@.take(8));
    string_of(&out)
}

pub open spec fn count_total(bs: Seq<BlockView>) -> nat
    decreases bs.len(),
{
    if bs.len() == 0 {
        0
    } else {
        count_total(bs.drop_last()) + if !bs.last().skipped { 1nat } else { 0 }
    }
}

pub open spec fn count_done(bs: Seq<BlockView>) -> nat
    decreases bs.len(),
{
    if bs.len() == 0 {
        0
    } else {
        count_done(bs.drop_last()) + if !bs.last().skipped && bs.last().translation is Some { 1nat } else { 0 }
    }
}

/// A segment's state: pending until a block is done, done once every
/// translatable block is.
pub open spec fn segment_state(done: nat, total: nat) -> Seq<char> {
    if total == 0 || done == 0 {
        "pending"@
    } else if done >= total {
        "done"@
    } else {
        "active"@
    }
}

proof fn lemma_counts(bs: Seq<BlockView>)
    ensures
        count_done(bs) <= count_total(bs) <= bs.len(),
    decreases bs.len(),
{
    if bs.len() > 0 {
        lemma_counts(bs.drop_last());
    }
}

/// Progress of one content document.
pub fn segment_status(doc: &ContentDoc) -> (r: crate::types::SegmentStatus)
    ensures
        r.id@ == doc.path@,
        r.title@ == doc.title@,
        r.total == count_total(doc@.blocks),
        r.done == count_done(doc@.blocks),
        r.state@ == segment_state(r.done as nat, r.total as nat),
{
    let ghost bv = doc@.blocks;
    let mut total: usize = 0;
    let mut done: usize = 0;
    let mut k: usize = 0;
    while k < doc.blocks.len()
        invariant
            k <= doc.blocks@.len(),
            bv == doc@.blocks,
            total == count_total(bv.take(k as int)),
            done == count_done(bv.take(k as int)),
        decreases doc.blocks.len() - k,
    {
        assert(bv.take(k + 1).drop_last() =~= bv.take(k as int));
        proof { lemma_counts(bv.take(k as int)); }
        if !doc.blocks[k].skipped {
            total += 1;
            if doc.blocks[k].translation.is_some() {
                done += 1;
            }
        }
        k += 1;
    }
    assert(bv.take(k as int) =~= bv);
    let state = if total == 0 || done == 0 {
        "pending"
    } else if done >= total {
        "done"
    } else {
        "active"
    };
    crate::types::SegmentStatus {
        id: doc.path.clone(),
        title: doc.title.clone(),
        state: state.to_owned(),
        done,
        total,
    }
}

/// Counters of a running job.
#[derive(Debug, Clone, Copy)]
pub struct Counters {
    pub batches_total: usize,
    pub batches_done: usize,
    pub batches_failed: usize,
    pub chars_done: usize,
    pub chars_total: usize,
    pub tokens_used: u64,
}

/// A progress report: the counters, each document's state, the status and
/// the outcome.
pub fn snapshot(
    status: &str,
    docs: &Vec<ContentDoc>,
    c: Counters,
    error: Option<String>,
    output_ready: bool,
) -> (r: crate::types::JobProgress)
    ensures
        r.status@ == status@,
        r.segments@.len() == docs@.len(),
        forall|i: int| 0 <= i < docs@.len() ==> {
            let s = #[trigger] r.segments@[i];
            &&& s.id@ == docs@[i].path@
            &&& s.title@ == docs@[i].title@
            &&& s.total == count_total(docs@[i]@.blocks)
            &&& s.done == count_done(docs@[i]@.blocks)
            &&& s.state@ == segment_state(s.done as nat, s.total as nat)
        },
        r.batches_total == c.batches_total,
        r.batches_done == c.batches_done,
        r.batches_failed == c.batches_failed,
        r.chars_done == c.chars_done,
        r.chars_total == c.chars_total,
        r.tokens_used == c.tokens_used,
        r.error == error,
        r.output_ready == output_ready,
{
    let mut segments: Vec<crate::types::SegmentStatus> = Vec::new();
    let mut i: usize = 0;
    while i < docs.len()
        invariant
            i <= docs@.len(),
            segments@.len() == i,
            forall|j: int| 0 <= j < i ==> {
                let s = #[trigger] segments@[j];
                &&& s.id@ == docs@[j].path@
                &&& s.title@ == docs@[j].title@
                &&& s.total == count_total(docs@[j]@.blocks)
                &&& s.done == count_done(docs@[j]@.blocks)
                &&& s.state@ == segment_state(s.done as nat, s.total as nat)
            },
        decreases docs.len() - i,
    {
        segments.push(segment_status(&docs[i]));
        i += 1;
    }
    crate::types::JobProgress {
        status: status.to_owned(),
        segments,
        batches_total: c.batches_total,
        batches_done: c.batches_done,
        batches_failed: c.batches_failed,
        chars_done: c.chars_done,
        chars_total: c.chars_total,
        tokens_used: c.tokens_used,
        error,
        output_ready,
    }
}

/// What a worker does with a batch's outcome.
pub enum BatchOutcome {
    /// Store the translations; count the batch done with its characters and tokens.
    Translated,
    /// Count the batch done and failed; report the message.
    Failed(String),
    /// Stop the whole job with this message.
    Stop(String),
    /// The answer was cut off: send the batch again as two halves.
    Split,
    /// The model's daily quota is gone: continue on the next same-tier
    /// model that still has quota (stop with this message when none has).
    Switch(String),
}

/// A failed request's consequence for a batch of `items` pieces: a failure
/// that can never succeed stops the job; a model out of its daily quota
/// moves the job to a fallback model when switching is on, else stops it;
/// a cut-off answer splits the batch (a single piece cannot be split and
/// fails); a batch still failing after its retries fails alone.
pub fn failure_outcome(f: &crate::gemini::GeminiFailure, items: usize, auto_switch: bool) -> (r: BatchOutcome)
    ensures
        match *f {
            crate::gemini::GeminiFailure::Fatal(e) => r matches BatchOutcome::Stop(m) && m@ == e.message@,
            crate::gemini::GeminiFailure::QuotaExhausted(e, _) => if auto_switch {
                r matches BatchOutcome::Switch(m) && m@ == e.message@
            } else {
                r matches BatchOutcome::Stop(m) && m@ == e.message@
            },
            crate::gemini::GeminiFailure::Exhausted(e) => r matches BatchOutcome::Failed(m) && m@ == e.message@,
            crate::gemini::GeminiFailure::Truncated(e) => if items > 1 {
                r matches BatchOutcome::Split
            } else {
                r matches BatchOutcome::Failed(m) && m@ == e.message@
            },
        },
{
    match f {
        crate::gemini::GeminiFailure::Fatal(e) => BatchOutcome::Stop(e.text()),
        crate::gemini::GeminiFailure::QuotaExhausted(e, _) => if auto_switch {
            BatchOutcome::Switch(e.text())
        } else {
            BatchOutcome::Stop(e.text())
        },
        crate::gemini::GeminiFailure::Exhausted(e) => BatchOutcome::Failed(e.text()),
        crate::gemini::GeminiFailure::Truncated(e) => if items > 1 {
            BatchOutcome::Split
        } else {
            BatchOutcome::Failed(e.text())
        },
    }
}

proof fn lemma_sums_split(items: Seq<ItemView>, m: int)
    requires
        0 <= m <= items.len(),
    ensures
        sum_chars(items.take(m)) + sum_chars(items.skip(m)) == sum_chars(items),
        sum_tokens(items.take(m)) + sum_tokens(items.skip(m)) == sum_tokens(items),
    decreases items.len() - m,
{
    if m == items.len() {
        assert(items.take(m) =~= items);
        assert(items.skip(m).len() == 0);
    } else {
        let n = items.len();
        lemma_sums_split(items.drop_last(), if m < n { m } else { n - 1 });
        assert(items.drop_last().take(m) =~= items.take(m));
        assert(items.skip(m).drop_last() =~= items.drop_last().skip(m));
        assert(items.skip(m).last() == items.last());
    }
}

/// A batch of the pieces `items[from..to]`, with their sums.
fn sub_batch(items: &Vec<BatchItem>, from: usize, to: usize, chars_bound: usize, tokens_bound: usize) -> (r: Batch)
    requires
        from <= to <= items@.len(),
        chars_bound <= usize::MAX / 10,
        sum_chars(item_views(items@).subrange(from as int, to as int)) <= chars_bound,
        sum_tokens(item_views(items@).subrange(from as int, to as int)) <= tokens_bound,
    ensures
        r@.items == item_views(items@).subrange(from as int, to as int),
        batch_sums_ok(r@),
{
    let ghost iv = item_views(items@);
    let mut out: Vec<BatchItem> = Vec::new();
    let mut chars: usize = 0;
    let mut tokens: usize = 0;
    let mut k = from;
    assert(item_views(out@) =~= iv.subrange(from as int, from as int));
    while k < to
        invariant
            from <= k <= to <= items@.len(),
            iv == item_views(items@),
            item_views(out@) == iv.subrange(from as int, k as int),
            chars as nat == sum_chars(item_views(out@)),
            tokens as nat == sum_tokens(item_views(out@)),
            chars_bound <= usize::MAX / 10,
            sum_chars(iv.subrange(from as int, to as int)) <= chars_bound,
            sum_tokens(iv.subrange(from as int, to as int)) <= tokens_bound,
        decreases to - k,
    {
        proof {
            let whole = iv.subrange(from as int, to as int);
            lemma_sums_split(whole, k - from + 1);
            assert(whole.take(k - from + 1) =~= iv.subrange(from as int, k + 1));
            lemma_sums_push(iv.subrange(from as int, k as int), iv[k as int]);
            assert(iv.subrange(from as int, k as int).push(iv[k as int]) =~= iv.subrange(from as int, k + 1));
        }
        let it = copy_item(&items[k]);
        assert(it@ == iv[k as int]);
        let n = chars_of(it.text.as_str()).len();
        let t = crate::gemini::estimate_tokens(it.text.as_str());
        let ghost prev = item_views(out@);
        out.push(it);
        assert(item_views(out@) =~= prev.push(iv[k as int]));
        chars = chars + n;
        tokens = tokens + t;
        k += 1;
    }
    Batch { items: out, chars, tokens }
}

/// The two halves a cut-off batch is sent again as: the first `n / 2`
/// pieces and the rest, each with its sums.
pub fn split_batch(batch: &Batch) -> (r: (Batch, Batch))
    requires
        batch@.items.len() >= 2,
        batch_sums_ok(batch@),
        batch.chars <= usize::MAX / 10,
    ensures
        r.0@.items == batch@.items.take((batch@.items.len() / 2) as int),
        r.1@.items == batch@.items.skip((batch@.items.len() / 2) as int),
        batch_sums_ok(r.0@),
        batch_sums_ok(r.1@),
{
    let n = batch.items.len();
    let h = n / 2;
    proof {
        lemma_sums_split(batch@.items, h as int);
        assert(item_views(batch.items@).subrange(0, h as int) =~= batch@.items.take(h as int));
        assert(item_views(batch.items@).subrange(h as int, n as int) =~= batch@.items.skip(h as int));
    }
    let a = sub_batch(&batch.items, 0, h, batch.chars, batch.tokens);
    let b = sub_batch(&batch.items, h, n, batch.chars, batch.tokens);
    (a, b)
}

/// The translations of a split batch: the first half's items keep their
/// numbers `1..=shift`, the second half's move up by `shift`.
pub open spec fn merged(a: Map<usize, Seq<char>>, b: Map<usize, Seq<char>>, shift: nat, total: nat) -> Map<usize, Seq<char>> {
    Map::new(
        |k: usize| 1 <= k <= total && (if k <= shift { a.contains_key(k) } else { b.contains_key((k - shift) as usize) }),
        |k: usize| if k <= shift { a[k] } else { b[(k - shift) as usize] },
    )
}

pub fn merge_halves(
    a: &std::collections::BTreeMap<usize, String>,
    b: &std::collections::BTreeMap<usize, String>,
    shift: usize,
    total: usize,
) -> (r: std::collections::BTreeMap<usize, String>)
    requires
        shift <= total,
    ensures
        crate::gemini::map_views(r@) == merged(crate::gemini::map_views(a@), crate::gemini::map_views(b@), shift as nat, total as nat),
{
    broadcast use vstd::std_specs::btree::group_btree_axioms;
    let ghost av = crate::gemini::map_views(a@);
    let ghost bv = crate::gemini::map_views(b@);
    let mut out: std::collections::BTreeMap<usize, String> = std::collections::BTreeMap::new();
    let mut k: usize = 0;
    assert(crate::gemini::map_views(out@) =~= merged(av, bv, shift as nat, 0));
    while k < total
        invariant
            k <= total,
            shift <= total,
            av == crate::gemini::map_views(a@),
            bv == crate::gemini::map_views(b@),
            crate::gemini::map_views(out@) =~= merged(av, bv, shift as nat, k as nat),
        decreases total - k,
    {
        let idx = k + 1;
        let ghost m0 = crate::gemini::map_views(out@);
        let got = if idx <= shift { a.get(&idx) } else { b.get(&(idx - shift)) };
        match got {
            Some(t) => {
                let ghost tv = t@;
                out.insert(idx, t.clone());
                assert(crate::gemini::map_views(out@) =~= m0.insert(idx, tv));
            },
            None => {},
        }
        k = idx;
        assert(crate::gemini::map_views(out@) =~= merged(av, bv, shift as nat, k as nat));
    }
    assert(crate::gemini::map_views(out@) =~= merged(av, bv, shift as nat, total as nat));
    out
}

impl Counters {
    /// Counters before any batch of this run: resumed characters count as done.
    pub fn start(batches_total: usize, chars_total: usize, chars_done: usize) -> (c: Self)
        ensures
            c.batches_total == batches_total,
            c.batches_done == 0,
            c.batches_failed == 0,
            c.chars_done == chars_done,
            c.chars_total == chars_total,
            c.tokens_used == 0,
    {
        Counters { batches_total, batches_done: 0, batches_failed: 0, chars_done, chars_total, tokens_used: 0 }
    }

    /// A batch came back translated (counts saturate).
    pub fn translated(&mut self, chars: usize, tokens: u64)
        ensures
            final(self).batches_done == (if old(self).batches_done < usize::MAX { old(self).batches_done + 1 } else { old(self).batches_done as int }),
            final(self).batches_failed == old(self).batches_failed,
            final(self).chars_done == (if old(self).chars_done + chars <= usize::MAX { old(self).chars_done + chars } else { usize::MAX as int }),
            final(self).tokens_used == (if old(self).tokens_used + tokens <= u64::MAX { old(self).tokens_used + tokens } else { u64::MAX as int }),
            final(self).batches_total == old(self).batches_total,
            final(self).chars_total == old(self).chars_total,
    {
        self.batches_done = self.batches_done.saturating_add(1);
        self.chars_done = self.chars_done.saturating_add(chars);
        self.tokens_used = self.tokens_used.saturating_add(tokens);
    }

    /// A batch failed after its retries (counts saturate).
    pub fn failed(&mut self)
        ensures
            final(self).batches_done == (if old(self).batches_done < usize::MAX { old(self).batches_done + 1 } else { old(self).batches_done as int }),
            final(self).batches_failed == (if old(self).batches_failed < usize::MAX { old(self).batches_failed + 1 } else { old(self).batches_failed as int }),
            final(self).chars_done == old(self).chars_done,
            final(self).tokens_used == old(self).tokens_used,
            final(self).batches_total == old(self).batches_total,
            final(self).chars_total == old(self).chars_total,
    {
        self.batches_done = self.batches_done.saturating_add(1);
        self.batches_failed = self.batches_failed.saturating_add(1);
    }
}

/// How a run ends once its workers are done.
#[derive(Debug, PartialEq, Eq)]
pub enum RunEnd {
    /// A worker stopped the job: status "failed" with this error.
    Stopped(String),
    /// The user cancelled: status "cancelled"; finished batches stay saved.
    Cancelled,
    /// Every batch failed: status "failed", nothing to assemble.
    AllFailed,
    /// Assemble the output; `partial` when some batches failed (their
    /// paragraphs stay in the original language).
    Assemble { partial: bool },
}

/// The end of a run: a stop wins over a cancel, a cancel over the counts.
pub fn run_end(fatal: Option<String>, cancelled: bool, failed: usize, total: usize) -> (r: RunEnd)
    ensures
        fatal matches Some(m) ==> r matches RunEnd::Stopped(x) && x@ == m@,
        fatal is None && cancelled ==> r matches RunEnd::Cancelled,
        fatal is None && !cancelled && total > 0 && failed >= total ==> r matches RunEnd::AllFailed,
        fatal is None && !cancelled && !(total > 0 && failed >= total) ==> r == (RunEnd::Assemble { partial: failed > 0 }),
{
    match fatal {
        Some(m) => RunEnd::Stopped(m),
        None => {
            if cancelled {
                RunEnd::Cancelled
            } else if total > 0 && failed >= total {
                RunEnd::AllFailed
            } else {
                RunEnd::Assemble { partial: failed > 0 }
            }
        },
    }
}

/// The status a run reports at its end (one of running, completed,
/// cancelled, failed): a run with output is completed, gaps or not.
pub open spec fn end_status_of(end: RunEnd) -> Seq<char> {
    match end {
        RunEnd::Stopped(_) => "failed"@,
        RunEnd::AllFailed => "failed"@,
        RunEnd::Cancelled => "cancelled"@,
        RunEnd::Assemble { .. } => "completed"@,
    }
}

pub fn end_status(end: &RunEnd) -> (r: &'static str)
    ensures
        r@ == end_status_of(*end),
{
    match end {
        RunEnd::Stopped(_) => "failed",
        RunEnd::AllFailed => "failed",
        RunEnd::Cancelled => "cancelled",
        RunEnd::Assemble { .. } => "completed",
    }
}

} // verus!

verus! {

/// A batch as the planner makes it: one to `MAX_BATCH_BLOCKS` pieces,
/// within the token budget unless it is a single piece that alone
/// exceeds it.
pub open spec fn batch_ok(b: Seq<ItemView>, budget: nat) -> bool {
    &&& 1 <= b.len() <= MAX_BATCH_BLOCKS
    &&& (sum_tokens(b) <= budget || b.len() == 1)
}

/// The batches' pieces one after another.
pub open spec fn flatten(bs: Seq<Seq<ItemView>>) -> Seq<ItemView>
    decreases bs.len(),
{
    if bs.len() == 0 {
        seq![]
    } else {
        bs[0] + flatten(bs.drop_first())
    }
}

proof fn lemma_group(items: Seq<ItemView>, budget: nat, cur: Seq<ItemView>, ct: nat)
    requires
        cur.len() <= MAX_BATCH_BLOCKS,
        ct == sum_tokens(cur),
        cur.len() > 0 ==> batch_ok(cur, budget),
    ensures
        forall|i: int| 0 <= i < group(items, budget, cur, ct).len() ==> batch_ok(#[trigger] group(items, budget, cur, ct)[i], budget),
        flatten(group(items, budget, cur, ct)) == cur + items,
    decreases items.len(),
{
    if items.len() == 0 {
        if cur.len() > 0 {
            let g = seq![cur];
            assert(g.drop_first() =~= Seq::<Seq<ItemView>>::empty());
            assert(g[0] == cur);
            assert(flatten(g) == g[0] + flatten(g.drop_first()));
            assert(flatten(Seq::<Seq<ItemView>>::empty()) =~= Seq::<ItemView>::empty());
            assert(cur + Seq::<ItemView>::empty() =~= cur);
            assert(cur + items =~= cur);
        } else {
            assert(cur + items =~= Seq::<ItemView>::empty());
        }
    } else {
        let x = items[0];
        let rest = items.drop_first();
        let t = tokens_of(x.text);
        if cur.len() > 0 && (ct + t > budget || cur.len() >= MAX_BATCH_BLOCKS) {
            let one = seq![x];
            lemma_sums_push(Seq::<ItemView>::empty(), x);
            assert(Seq::<ItemView>::empty().push(x) =~= one);
            lemma_group(rest, budget, one, t);
            let tail = group(rest, budget, one, t);
            let g = seq![cur] + tail;
            assert(g.drop_first() =~= tail);
            assert(g[0] == cur);
            assert(flatten(g) == g[0] + flatten(g.drop_first()));
            assert forall|i: int| 0 <= i < g.len() implies batch_ok(#[trigger] g[i], budget) by {
                if i > 0 {
                    assert(g[i] == tail[i - 1]);
                }
            }
            assert(one + rest =~= items);
            assert(cur + (one + rest) =~= cur + items);
        } else {
            let next = cur.push(x);
            lemma_sums_push(cur, x);
            lemma_group(rest, budget, next, ct + t);
            assert(next + rest =~= cur + items);
        }
    }
}

/// The planner's batches hold every piece, in order, and each respects the
/// block cap and, unless it is a single oversized piece, the budget.
pub proof fn batches_respect_budget(docs: Seq<DocView>, budget: nat)
    ensures
        forall|i: int| 0 <= i < batches_of(docs, budget).len() ==> batch_ok(#[trigger] batches_of(docs, budget)[i], budget),
        flatten(batches_of(docs, budget)) == all_pieces(docs, budget),
{
    lemma_group(all_pieces(docs, budget), budget, seq![], 0);
    assert(Seq::<ItemView>::empty() + all_pieces(docs, budget) =~= all_pieces(docs, budget));
}

/// Batch `k` of `bs` was closed for a reason: it holds `MAX_BATCH_BLOCKS`
/// pieces (at least that many, unless `exact`), or the first piece of
/// batch `k + 1` would have taken it past the budget.
pub open spec fn closed_at(bs: Seq<Seq<ItemView>>, k: int, budget: nat, exact: bool) -> bool {
    ||| (if exact { bs[k].len() == MAX_BATCH_BLOCKS } else { bs[k].len() >= MAX_BATCH_BLOCKS })
    ||| sum_tokens(bs[k]) + tokens_of(bs[k + 1][0].text) > budget
}

proof fn lemma_group_closes(items: Seq<ItemView>, budget: nat, cur: Seq<ItemView>, ct: nat)
    requires
        ct == sum_tokens(cur),
    ensures
        forall|k: int| 0 <= k < group(items, budget, cur, ct).len() ==> (#[trigger] group(items, budget, cur, ct)[k]).len() > 0,
        forall|k: int| 0 <= k < group(items, budget, cur, ct).len() - 1 ==> #[trigger] closed_at(group(items, budget, cur, ct), k, budget, false),
        cur.len() > 0 ==> group(items, budget, cur, ct).len() > 0 && group(items, budget, cur, ct)[0][0] == cur[0],
        cur.len() == 0 && items.len() > 0 ==> group(items, budget, cur, ct).len() > 0 && group(items, budget, cur, ct)[0][0] == items[0],
    decreases items.len(),
{
    let r = group(items, budget, cur, ct);
    if items.len() == 0 {
    } else {
        let t = tokens_of(items[0].text);
        let tail = items.drop_first();
        if cur.len() > 0 && (ct + t > budget || cur.len() >= MAX_BATCH_BLOCKS) {
            let one = seq![items[0]];
            assert(one.drop_last() =~= Seq::<ItemView>::empty());
            assert(one.last() == items[0]);
            assert(sum_tokens(Seq::<ItemView>::empty()) == 0);
            assert(sum_tokens(one) == sum_tokens(one.drop_last()) + tokens_of(one.last().text));
            assert(sum_tokens(one) == t);
            lemma_group_closes(tail, budget, one, t);
            let rest = group(tail, budget, one, t);
            assert(r == seq![cur] + rest);
            assert forall|k: int| 0 <= k < r.len() implies (#[trigger] r[k]).len() > 0 by {
                if k > 0 {
                    assert(r[k] == rest[k - 1]);
                }
            }
            assert forall|k: int| 0 <= k < r.len() - 1 implies #[trigger] closed_at(r, k, budget, false) by {
                if k > 0 {
                    assert(r[k] == rest[k - 1]);
                    assert(r[k + 1] == rest[k]);
                    assert(closed_at(rest, k - 1, budget, false));
                } else {
                    assert(r[1] == rest[0]);
                }
            }
        } else {
            let c2 = cur.push(items[0]);
            assert(c2.drop_last() =~= cur);
            lemma_group_closes(tail, budget, c2, ct + t);
        }
    }
}

/// A batch closes only when it is full (`MAX_BATCH_BLOCKS` pieces) or the
/// next batch's first piece would take it past the token budget.
pub proof fn batches_close_only_when_full(docs: Seq<DocView>, budget: nat)
    ensures
        forall|k: int| 0 <= k < batches_of(docs, budget).len() - 1 ==> #[trigger] closed_at(batches_of(docs, budget), k, budget, true),
{
    let bs = batches_of(docs, budget);
    lemma_group_closes(all_pieces(docs, budget), budget, seq![], 0);
    batches_respect_budget(docs, budget);
    assert forall|k: int| 0 <= k < bs.len() - 1 implies #[trigger] closed_at(bs, k, budget, true) by {
        assert(batch_ok(bs[k], budget));
        assert(closed_at(bs, k, budget, false));
    }
}

/// Whitespace around the custom instructions does not change the run's
/// identity.
pub proof fn resume_id_ignores_surrounding_whitespace(
    bytes: Seq<u8>,
    model: Seq<char>,
    lang: Seq<char>,
    a: Seq<char>,
    b: Seq<char>,
)
    requires
        crate::text::trim(a) == crate::text::trim(b),
    ensures
        resume_id(bytes, model, lang, a) == resume_id(bytes, model, lang, b),
{
}

/// A run's resume key starts with the lowercase hex SHA-256 of the book's
/// bytes (two digits per digest byte), then a `-`.
pub proof fn resume_key_starts_with_book_digest(
    bytes: Seq<u8>,
    model: Seq<char>,
    lang: Seq<char>,
    instructions: Seq<char>,
)
    ensures
        crate::cache::hex_of(crate::cache::sha256_of(bytes)).len() == 2 * crate::cache::sha256_of(bytes).len(),
        resume_id(bytes, model, lang, instructions).len() > crate::cache::hex_of(crate::cache::sha256_of(bytes)).len(),
        resume_id(bytes, model, lang, instructions).take(crate::cache::hex_of(crate::cache::sha256_of(bytes)).len() + 1int)
            == crate::cache::hex_of(crate::cache::sha256_of(bytes)) + "-"@,
{
    let d = crate::cache::sha256_of(bytes);
    let h = crate::cache::hex_of(d);
    crate::cache::lemma_hex_digits(d, d);
    reveal_strlit("-");
    let k = resume_id(bytes, model, lang, instructions);
    let rest = model + "-"@ + lang + "-"@ + crate::text::decimal(model_budget(model)) + "-"@
        + crate::text::decimal(MAX_BATCH_BLOCKS as nat) + "-"@
        + crate::cache::hex_of(crate::cache::sha256_of(vstd::utf8::encode_utf8(crate::text::trim(instructions)))).take(8);
    assert(k =~= (h + "-"@) + rest);
    assert(k.take(h.len() + 1int) =~= h + "-"@);
}

/// Two books whose bytes have different digests never share a resume
/// key, whatever the model, language and instructions of either run: a
/// second book never replays the first one's saved translations.
pub proof fn books_with_different_digests_differ(
    b1: Seq<u8>,
    m1: Seq<char>,
    l1: Seq<char>,
    i1: Seq<char>,
    b2: Seq<u8>,
    m2: Seq<char>,
    l2: Seq<char>,
    i2: Seq<char>,
)
    requires
        crate::cache::sha256_of(b1) != crate::cache::sha256_of(b2),
    ensures
        resume_id(b1, m1, l1, i1) != resume_id(b2, m2, l2, i2),
{
    let d1 = crate::cache::sha256_of(b1);
    let d2 = crate::cache::sha256_of(b2);
    let h1 = crate::cache::hex_of(d1);
    let h2 = crate::cache::hex_of(d2);
    let k1 = resume_id(b1, m1, l1, i1);
    let k2 = resume_id(b2, m2, l2, i2);
    resume_key_starts_with_book_digest(b1, m1, l1, i1);
    resume_key_starts_with_book_digest(b2, m2, l2, i2);
    crate::cache::lemma_hex_digits(d1, d2);
    crate::cache::lemma_hex_digits(d2, d1);
    reveal_strlit("-");
    if k1 == k2 {
        assert(k1.take(h1.len() + 1int)[h1.len() as int] == '-');
        assert(k2.take(h2.len() + 1int)[h2.len() as int] == '-');
        if h1.len() == h2.len() {
            assert(h1 =~= k1.take(h1.len() + 1int).take(h1.len() as int));
            assert(h2 =~= k2.take(h2.len() + 1int).take(h2.len() as int));
        } else if h1.len() < h2.len() {
            assert(k2[h1.len() as int] == k2.take(h2.len() + 1int)[h1.len() as int]);
            assert(k2.take(h2.len() + 1int)[h1.len() as int] == h2[h1.len() as int]);
            assert(k1[h1.len() as int] == '-');
        } else {
            assert(k1[h2.len() as int] == k1.take(h1.len() + 1int)[h2.len() as int]);
            assert(k1.take(h1.len() + 1int)[h2.len() as int] == h1[h2.len() as int]);
            assert(k2[h2.len() as int] == '-');
        }
    }
}

} // verus!

verus! {

/// A block after the translations of its first `k` parts (of
/// `ts.len()`) arrived in order.
pub open spec fn feed_parts(blk: BlockView, ts: Seq<Seq<char>>, k: nat) -> BlockView
    decreases k,
{
    if k == 0 {
        blk
    } else {
        with_piece(feed_parts(blk, ts, (k - 1) as nat), Some(((k - 1) as usize, ts.len() as usize)), ts[k - 1])
    }
}

proof fn lemma_join_some(ts: Seq<Seq<char>>)
    ensures
        join_parts(ts.map_values(|t: Seq<char>| Some(t))) == concat(ts),
    decreases ts.len(),
{
    if ts.len() > 0 {
        assert(ts.map_values(|t: Seq<char>| Some(t)).drop_last() =~= ts.drop_last().map_values(|t: Seq<char>| Some(t)));
        lemma_join_some(ts.drop_last());
    }
}

proof fn lemma_feed_parts(blk: BlockView, ts: Seq<Seq<char>>, k: nat)
    requires
        blk.parts.len() == 0,
        1 <= ts.len() <= usize::MAX,
        1 <= k < ts.len(),
    ensures
        feed_parts(blk, ts, k).parts == Seq::new(ts.len(), |i: int| if i < k { Some(ts[i]) } else { None::<Seq<char>> }),
        feed_parts(blk, ts, k).translation == blk.translation,
        feed_parts(blk, ts, k).text == blk.text,
    decreases k,
{
    let n = ts.len();
    if k == 1 {
        let prev = feed_parts(blk, ts, 0);
        let slots = Seq::new(n as nat, |i: int| None::<Seq<char>>);
        let filled = slots.update(0, Some(ts[0]));
        assert(!all_some(filled)) by {
            assert(filled[n - 1] is None);
        }
        assert(filled =~= Seq::new(n, |i: int| if i < 1 { Some(ts[i]) } else { None::<Seq<char>> }));
    } else {
        lemma_feed_parts(blk, ts, (k - 1) as nat);
        let prev = feed_parts(blk, ts, (k - 1) as nat);
        let filled = prev.parts.update(k - 1, Some(ts[k - 1]));
        assert(!all_some(filled)) by {
            assert(filled[n - 1] is None);
        }
        assert(filled =~= Seq::new(n, |i: int| if i < k { Some(ts[i]) } else { None::<Seq<char>> }));
    }
}

/// The parts of a split block, translated and stored in order, become
/// its translation written one after another, and the slots are cleared.
pub proof fn parts_join_in_order(blk: BlockView, ts: Seq<Seq<char>>)
    requires
        blk.parts.len() == 0,
        1 <= ts.len() <= usize::MAX,
    ensures
        feed_parts(blk, ts, ts.len()).translation == Some(concat(ts)),
        feed_parts(blk, ts, ts.len()).parts.len() == 0,
        feed_parts(blk, ts, ts.len()).text == blk.text,
{
    let n = ts.len();
    let prev = feed_parts(blk, ts, (n - 1) as nat);
    if n == 1 {
        let slots = Seq::new(1, |i: int| None::<Seq<char>>);
        let filled = slots.update(0, Some(ts[0]));
        assert(filled =~= ts.map_values(|t: Seq<char>| Some(t)));
    } else {
        lemma_feed_parts(blk, ts, (n - 1) as nat);
        let filled = prev.parts.update(n - 1, Some(ts[n - 1]));
        assert(filled =~= ts.map_values(|t: Seq<char>| Some(t)));
    }
    lemma_join_some(ts);
}


/// Order of arrival of a split block's parts: each of `0..n` exactly once.
pub open spec fn is_arrival_order(order: Seq<int>, n: nat) -> bool {
    &&& order.len() == n
    &&& forall|i: int| 0 <= i < n ==> 0 <= #[trigger] order[i] < n
    &&& forall|i: int, j: int| 0 <= i < j < n ==> #[trigger] order[i] != #[trigger] order[j]
    &&& forall|x: int| 0 <= x < n ==> #[trigger] order.contains(x)
}

/// The block after the first `k` parts of `ts` arrived in `order`.
pub open spec fn feed_in_order(blk: BlockView, ts: Seq<Seq<char>>, order: Seq<int>, k: nat) -> BlockView
    decreases k,
{
    if k == 0 {
        blk
    } else {
        let x = order[k - 1];
        with_piece(feed_in_order(blk, ts, order, (k - 1) as nat), Some((x as usize, ts.len() as usize)), ts[x])
    }
}

/// The slots once the parts `order[..k]` arrived.
pub open spec fn slots_after(ts: Seq<Seq<char>>, order: Seq<int>, k: nat) -> Seq<Option<Seq<char>>> {
    Seq::new(ts.len(), |i: int| if order.take(k as int).contains(i) { Some(ts[i]) } else { None::<Seq<char>> })
}

proof fn lemma_feed_in_order(blk: BlockView, ts: Seq<Seq<char>>, order: Seq<int>, k: nat)
    requires
        blk.parts.len() == 0,
        1 <= ts.len() <= usize::MAX,
        is_arrival_order(order, ts.len()),
        1 <= k < ts.len(),
    ensures
        feed_in_order(blk, ts, order, k) == (BlockView { parts: slots_after(ts, order, k), ..blk }),
    decreases k,
{
    let n = ts.len();
    let x = order[k - 1];
    let prev = feed_in_order(blk, ts, order, (k - 1) as nat);
    let slots = if prev.parts.len() != n {
        Seq::new(n, |i: int| None::<Seq<char>>)
    } else {
        prev.parts
    };
    if k == 1 {
        assert(slots =~= slots_after(ts, order, 0)) by {
            assert(order.take(0) =~= Seq::<int>::empty());
        }
    } else {
        lemma_feed_in_order(blk, ts, order, (k - 1) as nat);
        assert(slots == slots_after(ts, order, (k - 1) as nat));
    }
    let filled = slots.update(x, Some(ts[x]));
    assert(order.take(k as int) =~= order.take(k - 1).push(x));
    assert(filled =~= slots_after(ts, order, k)) by {
        assert forall|i: int| 0 <= i < n implies filled[i] == slots_after(ts, order, k)[i] by {
            if i == x {
                assert(order.take(k as int)[k - 1] == x);
            } else {
                assert(order.take(k as int).contains(i) <==> order.take(k - 1).contains(i)) by {
                    if order.take(k as int).contains(i) {
                        let j = choose|j: int| 0 <= j < k && #[trigger] order.take(k as int)[j] == i;
                        assert(j != k - 1);
                        assert(order.take(k - 1)[j] == i);
                    }
                    if order.take(k - 1).contains(i) {
                        let j = choose|j: int| 0 <= j < k - 1 && #[trigger] order.take(k - 1)[j] == i;
                        assert(order.take(k as int)[j] == i);
                    }
                }
            }
        }
    }
    // the last part to arrive has not arrived yet
    let last = order[n - 1];
    assert(!order.take(k as int).contains(last)) by {
        if order.take(k as int).contains(last) {
            let j = choose|j: int| 0 <= j < k && #[trigger] order.take(k as int)[j] == last;
            assert(order[j] == order[n - 1]);
        }
    }
    assert(filled[last] is None);
    assert(!all_some(filled));
}

/// The parts of a split block, arriving in any order, leave the block
/// untranslated until the last one arrives; then its translation is the
/// parts written in part order, and the slots are cleared.
pub proof fn parts_join_in_any_order(blk: BlockView, ts: Seq<Seq<char>>, order: Seq<int>)
    requires
        blk.parts.len() == 0,
        1 <= ts.len() <= usize::MAX,
        is_arrival_order(order, ts.len()),
    ensures
        forall|k: nat| k < ts.len() ==> (#[trigger] feed_in_order(blk, ts, order, k)).translation == blk.translation,
        feed_in_order(blk, ts, order, ts.len()).translation == Some(concat(ts)),
        feed_in_order(blk, ts, order, ts.len()).parts.len() == 0,
        feed_in_order(blk, ts, order, ts.len()).text == blk.text,
{
    let n = ts.len();
    assert forall|k: nat| k < ts.len() implies (#[trigger] feed_in_order(blk, ts, order, k)).translation == blk.translation by {
        if k >= 1 {
            lemma_feed_in_order(blk, ts, order, k);
        }
    }
    let x = order[n - 1];
    let prev = feed_in_order(blk, ts, order, (n - 1) as nat);
    let slots = if prev.parts.len() != n {
        Seq::new(n, |i: int| None::<Seq<char>>)
    } else {
        prev.parts
    };
    if n == 1 {
        assert(slots =~= Seq::new(1, |i: int| None::<Seq<char>>));
        assert(x == 0);
    } else {
        lemma_feed_in_order(blk, ts, order, (n - 1) as nat);
    }
    let filled = slots.update(x, Some(ts[x]));
    let full = ts.map_values(|t: Seq<char>| Some(t));
    assert(filled =~= full) by {
        assert forall|i: int| 0 <= i < n implies filled[i] == full[i] by {
            if i != x && n > 1 {
                assert(order.contains(i));
                let j = choose|j: int| 0 <= j < order.len() && #[trigger] order[j] == i;
                assert(j != n - 1);
                assert(order.take(n - 1)[j] == i);
                assert(order.take(n - 1).contains(i));
            }
        }
    }
    assert(all_some(filled));
    lemma_join_some(ts);
}


/// The documents after the parts of block `b` of document `d`, split
/// into `ts.len()` parts, arrived in `order` (the first `k` of them), each
/// stored as `apply_translation` stores a piece.
pub open spec fn apply_parts(docs: Seq<DocView>, d: usize, b: usize, ts: Seq<Seq<char>>, order: Seq<int>, k: nat) -> Seq<DocView>
    decreases k,
{
    if k == 0 {
        docs
    } else {
        let x = order[k - 1];
        apply_piece(
            apply_parts(docs, d, b, ts, order, (k - 1) as nat),
            ItemView { d, b, part: Some((x as usize, ts.len() as usize)), text: ts[x] },
            ts[x],
        )
    }
}

proof fn lemma_apply_parts(docs: Seq<DocView>, d: usize, b: usize, ts: Seq<Seq<char>>, order: Seq<int>, k: nat)
    requires
        d < docs.len(),
        b < docs[d as int].blocks.len(),
        1 <= ts.len() <= usize::MAX,
        is_arrival_order(order, ts.len()),
        k <= ts.len(),
    ensures
        apply_parts(docs, d, b, ts, order, k) == docs.update(
            d as int,
            DocView { blocks: docs[d as int].blocks.update(b as int, feed_in_order(docs[d as int].blocks[b as int], ts, order, k)), ..docs[d as int] },
        ),
    decreases k,
{
    let od = docs[d as int];
    if k == 0 {
        assert(od.blocks.update(b as int, od.blocks[b as int]) =~= od.blocks);
        assert(docs.update(d as int, DocView { blocks: od.blocks, ..od }) =~= docs);
    } else {
        lemma_apply_parts(docs, d, b, ts, order, (k - 1) as nat);
        let prev = apply_parts(docs, d, b, ts, order, (k - 1) as nat);
        let x = order[k - 1];
        let it = ItemView { d, b, part: Some((x as usize, ts.len() as usize)), text: ts[x] };
        assert(item_fits(prev, it));
        let blocks1 = od.blocks.update(b as int, feed_in_order(od.blocks[b as int], ts, order, (k - 1) as nat));
        assert(prev[d as int].blocks == blocks1);
        assert(blocks1.update(b as int, with_piece(blocks1[b as int], it.part, ts[x]))
            =~= od.blocks.update(b as int, feed_in_order(od.blocks[b as int], ts, order, k)));
        assert(apply_parts(docs, d, b, ts, order, k) =~= docs.update(
            d as int,
            DocView { blocks: od.blocks.update(b as int, feed_in_order(od.blocks[b as int], ts, order, k)), ..od },
        ));
    }
}

/// The parts of a split block, stored one by one in any order, leave the
/// block untranslated until the last one arrives; then its translation is
/// the parts written in part order and its slots are cleared. Every other
/// block, and every other document, stays as it was.
pub proof fn split_block_parts_join(docs: Seq<DocView>, d: usize, b: usize, ts: Seq<Seq<char>>, order: Seq<int>)
    requires
        d < docs.len(),
        b < docs[d as int].blocks.len(),
        docs[d as int].blocks[b as int].parts.len() == 0,
        1 <= ts.len() <= usize::MAX,
        is_arrival_order(order, ts.len()),
    ensures
        forall|k: nat| k < ts.len() ==> (#[trigger] apply_parts(docs, d, b, ts, order, k))[d as int].blocks[b as int].translation
            == docs[d as int].blocks[b as int].translation,
        apply_parts(docs, d, b, ts, order, ts.len())[d as int].blocks[b as int].translation == Some(concat(ts)),
        apply_parts(docs, d, b, ts, order, ts.len())[d as int].blocks[b as int].parts.len() == 0,
        apply_parts(docs, d, b, ts, order, ts.len()).len() == docs.len(),
        forall|e: int| 0 <= e < docs.len() && e != d ==> #[trigger] apply_parts(docs, d, b, ts, order, ts.len())[e] == docs[e],
        forall|c: int| 0 <= c < docs[d as int].blocks.len() && c != b ==> #[trigger] apply_parts(docs, d, b, ts, order, ts.len())[d as int].blocks[c]
            == docs[d as int].blocks[c],
{
    let blk = docs[d as int].blocks[b as int];
    parts_join_in_any_order(blk, ts, order);
    assert forall|k: nat| k < ts.len() implies (#[trigger] apply_parts(docs, d, b, ts, order, k))[d as int].blocks[b as int].translation
        == docs[d as int].blocks[b as int].translation by {
        lemma_apply_parts(docs, d, b, ts, order, k);
        assert(feed_in_order(blk, ts, order, k).translation == blk.translation);
    }
    lemma_apply_parts(docs, d, b, ts, order, ts.len());
}

} // verus!
