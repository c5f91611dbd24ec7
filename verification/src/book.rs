//! Assembling a loaded book: per-document segment summaries and the
//! book overview.
use vstd::prelude::*;
use crate::types::{Block, BlockView, BookInfo, ContentDoc, DocView, SegmentInfo, doc_views};
use crate::job::count_total;

verus! {

broadcast use vstd::string::group_string_axioms;

/// A count, saturating at `usize::MAX`.
pub open spec fn sat(n: nat) -> nat {
    if n > usize::MAX {
        usize::MAX as nat
    } else {
        n
    }
}

/// Characters of the translatable blocks.
pub open spec fn block_chars(bs: Seq<BlockView>) -> nat
    decreases bs.len(),
{
    if bs.len() == 0 {
        0
    } else {
        sat(block_chars(bs.drop_last()) + if !bs.last().skipped { bs.last().text.len() } else { 0 })
    }
}

/// Characters of the translatable blocks of all documents.
pub open spec fn book_chars(ds: Seq<DocView>) -> nat
    decreases ds.len(),
{
    if ds.len() == 0 {
        0
    } else {
        sat(book_chars(ds.drop_last()) + block_chars(ds.last().blocks))
    }
}

/// What the overview says of a document: its id, title, translatable
/// blocks and their characters.
pub open spec fn segment_matches(s: SegmentInfo, d: DocView) -> bool {
    &&& s.id@ == d.path
    &&& s.title@ == d.title
    &&& s.blocks == count_total(d.blocks)
    &&& s.chars == block_chars(d.blocks)
}

proof fn lemma_count_total_le(bs: Seq<BlockView>)
    ensures
        count_total(bs) <= bs.len(),
    decreases bs.len(),
{
    if bs.len() > 0 {
        lemma_count_total_le(bs.drop_last());
    }
}

/// Summary of one document.
pub fn segment_info(doc: &ContentDoc) -> (s: SegmentInfo)
    ensures
        segment_matches(s, doc@),
{
    let ghost bv = doc@.blocks;
    let mut blocks: usize = 0;
    let mut chars: usize = 0;
    let mut k: usize = 0;
    while k < doc.blocks.len()
        invariant
            k <= doc.blocks@.len(),
            bv == doc@.blocks,
            blocks == count_total(bv.take(k as int)),
            chars == block_chars(bv.take(k as int)),
        decreases doc.blocks.len() - k,
    {
        assert(bv.take(k + 1).drop_last() =~= bv.take(k as int));
        proof { lemma_count_total_le(bv.take(k as int)); }
        if !doc.blocks[k].skipped {
            blocks += 1;
            let n = crate::text::chars_of(doc.blocks[k].text.as_str()).len();
            chars = chars.saturating_add(n);
        }
        k += 1;
    }
    assert(bv.take(k as int) =~= bv);
    SegmentInfo { id: doc.path.clone(), title: doc.title.clone(), blocks, chars }
}

/// Summaries of all documents, and the book's translatable characters.
pub fn segments_of(docs: &Vec<ContentDoc>) -> (r: (Vec<SegmentInfo>, usize))
    ensures
        r.0@.len() == docs@.len(),
        forall|i: int| 0 <= i < docs@.len() ==> segment_matches(#[trigger] r.0@[i], docs@[i]@),
        r.1 == book_chars(doc_views(docs@)),
{
    let ghost dv = doc_views(docs@);
    let mut segs: Vec<SegmentInfo> = Vec::new();
    let mut total: usize = 0;
    let mut i: usize = 0;
    while i < docs.len()
        invariant
            i <= docs@.len(),
            dv == doc_views(docs@),
            segs@.len() == i,
            forall|j: int| 0 <= j < i ==> segment_matches(#[trigger] segs@[j], docs@[j]@),
            total == book_chars(dv.take(i as int)),
        decreases docs.len() - i,
    {
        assert(dv.take(i + 1).drop_last() =~= dv.take(i as int));
        let s = segment_info(&docs[i]);
        total = total.saturating_add(s.chars);
        segs.push(s);
        i += 1;
    }
    assert(dv.take(i as int) =~= dv);
    (segs, total)
}

} // verus!
