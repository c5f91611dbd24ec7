//! Content documents streamed through `lol_html`: the blocks a document
//! holds, and the document rewritten with its translations.
use vstd::prelude::*;
use crate::error::AppError;
use crate::html::{
    BilingualPass, CollectState, CollectView, TranslatedPass, bilingual_insert, block_at, close_all,
    closed_block, head_style, is_replaced, opened_block, translated_insert, STYLE,
};
use crate::text::{append_str, chars_of, eq_str, string_of};
use crate::types::{Block, BlockView, MODE_BILINGUAL, opt_view};
use lol_html::html_content::ContentType::Html;
use lol_html::html_content::{Element, EndTag, TextChunk};
use lol_html::{rewrite_str, ElementContentHandlers, HandlerResult, RewriteStrSettings};
use std::borrow::Cow;
use std::cell::RefCell;
use std::rc::Rc;

verus! {

broadcast use vstd::string::group_string_axioms;

/// What the rewriter reports while it streams a document, in order: an
/// element starts (its tag name, lower case), an element's end tag (its
/// name), a text chunk as it stands in the source.
pub enum HtmlEvent {
    Open(String),
    Close(String),
    Text(String),
}

pub enum HtmlEventView {
    Open(Seq<char>),
    Close(Seq<char>),
    Text(Seq<char>),
}

pub open spec fn event_view(e: HtmlEvent) -> HtmlEventView {
    match e {
        HtmlEvent::Open(t) => HtmlEventView::Open(t@),
        HtmlEvent::Close(t) => HtmlEventView::Close(t@),
        HtmlEvent::Text(t) => HtmlEventView::Text(t@),
    }
}

/// The elements that make blocks (those of `BLOCK_SELECTOR`).
pub open spec fn is_block_tag(t: Seq<char>) -> bool {
    ||| t == "p"@ ||| t == "h1"@ ||| t == "h2"@ ||| t == "h3"@ ||| t == "h4"@ ||| t == "h5"@
    ||| t == "h6"@ ||| t == "li"@ ||| t == "blockquote"@ ||| t == "td"@ ||| t == "th"@ ||| t == "dd"@
    ||| t == "dt"@ ||| t == "figcaption"@
}

pub fn block_tag(tag: &str) -> (r: bool)
    ensures
        r == is_block_tag(tag@),
{
    let t = chars_of(tag);
    eq_str(&t, "p") || eq_str(&t, "h1") || eq_str(&t, "h2") || eq_str(&t, "h3") || eq_str(&t, "h4")
        || eq_str(&t, "h5") || eq_str(&t, "h6") || eq_str(&t, "li") || eq_str(&t, "blockquote")
        || eq_str(&t, "td") || eq_str(&t, "th") || eq_str(&t, "dd") || eq_str(&t, "dt") || eq_str(&t, "figcaption")
}

pub open spec fn event_views(v: Seq<HtmlEvent>) -> Seq<HtmlEventView> {
    v.map_values(|e: HtmlEvent| event_view(e))
}

/// The events `lol_html` reports for a document with an element handler
/// (start tag, and end tag through `on_end_tag`) and a text handler on `*`.
pub uninterp spec fn html_events(html: Seq<char>) -> Seq<HtmlEventView>;

/// Calls `lol_html::rewrite_str` with one handler on `*`: each element's
/// tag name, each end tag's name (registered with `on_end_tag`; elements
/// that cannot have one report none) and each text chunk's source text are
/// recorded, in the order the rewriter reports them. Claimed: the events
/// are a function of the document. A rewriting error ends the stream; the
/// events up to it are kept.
#[verifier::external_body]
fn block_events(html: &str) -> (r: Vec<HtmlEvent>)
    ensures
        event_views(r@) == html_events(html@),
{
    let ev = Rc::new(RefCell::new(Vec::new()));
    let h = ElementContentHandlers::default()
        .element(|el: &mut Element| {
            ev.borrow_mut().push(HtmlEvent::Open(el.tag_name()));
            let e = ev.clone();
            el.on_end_tag(Box::new(move |end: &mut EndTag| Ok(e.borrow_mut().push(HtmlEvent::Close(end.name()))))).or(Ok(()))
        })
        .text(|c: &mut TextChunk| -> HandlerResult { Ok(ev.borrow_mut().push(HtmlEvent::Text(c.as_str().to_string()))) });
    let _ = rewrite_str(html, RewriteStrSettings::new().append_element_content_handler((Cow::Owned("*".parse().unwrap()), h)));
    ev.take()
}

/// The collecting pass after one event.
pub open spec fn collect_step(st: CollectView, e: HtmlEventView) -> CollectView {
    match e {
        HtmlEventView::Open(tag) => if is_block_tag(tag) {
            CollectView { blocks: st.blocks.push(opened_block(tag)), open: st.open.push(st.blocks.len() as usize) }
        } else {
            st
        },
        HtmlEventView::Text(t) => if st.open.len() == 0 {
            st
        } else {
            let k = st.open.last() as int;
            CollectView { blocks: st.blocks.update(k, BlockView { text: st.blocks[k].text + t, ..st.blocks[k] }), open: st.open }
        },
        HtmlEventView::Close(tag) => if !is_block_tag(tag) || st.open.len() == 0 {
            st
        } else {
            let k = st.open.last() as int;
            CollectView { blocks: st.blocks.update(k, closed_block(st.blocks[k])), open: st.open.drop_last() }
        },
    }
}

pub open spec fn collect_fold(evs: Seq<HtmlEventView>) -> CollectView
    decreases evs.len(),
{
    if evs.len() == 0 {
        CollectView { blocks: seq![], open: seq![] }
    } else {
        collect_step(collect_fold(evs.drop_last()), evs.last())
    }
}

/// The blocks of a document's events: one per block element, in start-tag
/// order, with the text of its own content; blocks still open at the end
/// are closed.
pub open spec fn collected(evs: Seq<HtmlEventView>) -> Seq<BlockView> {
    close_all(collect_fold(evs).blocks, collect_fold(evs).open)
}

/// The blocks of a stream of events.
pub fn blocks_from_events(events: &Vec<HtmlEvent>) -> (r: Vec<Block>)
    ensures
        r@.map_values(|b: Block| b@) == collected(event_views(events@)),
{
    let ghost ev = event_views(events@);
    let mut st = CollectState::new();
    let mut i: usize = 0;
    assert(st@ == collect_fold(ev.take(0))) by {
        assert(ev.take(0).len() == 0);
    }
    while i < events.len()
        invariant
            i <= events@.len(),
            ev == event_views(events@),
            st@ == collect_fold(ev.take(i as int)),
        decreases events.len() - i,
    {
        assert(ev.take(i + 1).drop_last() =~= ev.take(i as int));
        assert(ev.take(i + 1).last() == event_view(events@[i as int]));
        match &events[i] {
            HtmlEvent::Open(tag) => if block_tag(tag.as_str()) {
                st.start_block(tag.as_str())
            },
            HtmlEvent::Close(tag) => if block_tag(tag.as_str()) {
                st.end_block()
            },
            HtmlEvent::Text(t) => st.text(t.as_str()),
        }
        i += 1;
    }
    assert(ev.take(i as int) =~= ev);
    st.finish()
}

/// First pass over a content document: one block per block-level element
/// (in pre-order), with its concatenated text.
pub fn collect_blocks(html: &str) -> (r: Vec<Block>)
    ensures
        r@.map_values(|b: Block| b@) == collected(html_events(html@)),
{
    let events = block_events(html);
    blocks_from_events(&events)
}

/// What the rewrite puts where, in event order: for each element, the
/// markup in front of its content, at the end of its content and after
/// it; for each text chunk, the text that stands for it (its source text,
/// or nothing to remove it).
pub struct EditPlan {
    pub elements: Vec<(String, String, String)>,
    pub text: Vec<String>,
}

pub struct EditPlanView {
    pub elements: Seq<(Seq<char>, Seq<char>, Seq<char>)>,
    pub text: Seq<Seq<char>>,
}

pub open spec fn string_seq(v: Seq<String>) -> Seq<Seq<char>> {
    v.map_values(|s: String| s@)
}

pub open spec fn triple_seq(v: Seq<(String, String, String)>) -> Seq<(Seq<char>, Seq<char>, Seq<char>)> {
    v.map_values(|e: (String, String, String)| (e.0@, e.1@, e.2@))
}

impl View for EditPlan {
    type V = EditPlanView;

    open spec fn view(&self) -> EditPlanView {
        EditPlanView { elements: triple_seq(self.elements@), text: string_seq(self.text@) }
    }
}

/// Elements and text chunks among the events.
pub open spec fn opens(evs: Seq<HtmlEventView>) -> nat
    decreases evs.len(),
{
    if evs.len() == 0 {
        0
    } else {
        opens(evs.drop_last()) + if evs.last() is Open { 1nat } else { 0nat }
    }
}

pub open spec fn texts(evs: Seq<HtmlEventView>) -> nat
    decreases evs.len(),
{
    if evs.len() == 0 {
        0
    } else {
        texts(evs.drop_last()) + if evs.last() is Text { 1nat } else { 0nat }
    }
}

/// The document `lol_html` writes when the plan's pieces are applied in
/// event order.
pub uninterp spec fn html_edited(html: Seq<char>, plan: EditPlanView) -> Result<Seq<char>, Seq<char>>;

/// Calls `lol_html::rewrite_str` with the handlers of the event stream,
/// which take the plan's pieces in order: `prepend`, `append` and `after`
/// on each element, `replace` on each text chunk, all as HTML. The plan
/// has one piece per element and per chunk of the document's events, so
/// the pieces never run out. Claimed: the rewritten document (or the
/// error's message) is a function of the document and the plan.
#[verifier::external_body]
fn apply_edits(html: &str, plan: &EditPlan) -> (r: Result<String, String>)
    requires
        plan@.elements.len() == opens(html_events(html@)),
        plan@.text.len() == texts(html_events(html@)),
    ensures
        match r {
            Ok(s) => html_edited(html@, plan@) == Ok::<Seq<char>, Seq<char>>(s@),
            Err(e) => html_edited(html@, plan@) == Err::<Seq<char>, Seq<char>>(e@),
        },
{
    let (mut e, mut t) = (plan.elements.iter(), plan.text.iter());
    let h = ElementContentHandlers::default()
        .element(move |el: &mut Element| -> HandlerResult {
            let (x, y, z) = e.next().unwrap();
            el.prepend(x, Html);
            el.append(y, Html);
            Ok(el.after(z, Html))
        })
        .text(move |c: &mut TextChunk| -> HandlerResult { Ok(c.replace(t.next().unwrap(), Html)) });
    let s = RewriteStrSettings::new().append_element_content_handler((Cow::Owned("*".parse().unwrap()), h));
    rewrite_str(html, s).map_err(|e| e.to_string())
}

/// Where the planning stands: the next block's index, the open blocks
/// (innermost last) and the plan so far.
pub struct PlanState {
    pub cursor: usize,
    pub stack: Seq<usize>,
    pub plan: EditPlanView,
}

pub open spec fn or_empty(o: Option<Seq<char>>) -> Seq<char> {
    match o {
        Some(s) => s,
        None => seq![],
    }
}

pub open spec fn bump(c: usize) -> usize {
    if c < usize::MAX { (c + 1) as usize } else { c }
}

pub open spec fn style_element() -> Seq<char> {
    "<style type=\"text/css\">"@ + STYLE@ + "</style>"@
}

/// The planning after one event: a block element gets its translation
/// after it (bilingual) or in front of its content (translated only); in
/// a bilingual document each `head` element gets the style at its end; in
/// a translated-only document the text chunks of a replaced block go, and
/// every other chunk stays as it is.
pub open spec fn plan_step(st: PlanState, e: HtmlEventView, blocks: Seq<Block>, bilingual: bool) -> PlanState {
    match e {
        HtmlEventView::Open(tag) => {
            let append = if bilingual && tag == "head"@ { style_element() } else { seq![] };
            if is_block_tag(tag) {
                let b = block_at(blocks, st.cursor as int);
                let after = if bilingual { match b { Some(x) => or_empty(bilingual_insert(x)), None => seq![] } } else { seq![] };
                let pre = if bilingual { seq![] } else { match b { Some(x) => or_empty(translated_insert(x)), None => seq![] } };
                PlanState {
                    cursor: bump(st.cursor),
                    stack: st.stack.push(st.cursor),
                    plan: EditPlanView { elements: st.plan.elements.push((pre, append, after)), ..st.plan },
                }
            } else {
                PlanState { plan: EditPlanView { elements: st.plan.elements.push((seq![], append, seq![])), ..st.plan }, ..st }
            }
        },
        HtmlEventView::Close(tag) => PlanState {
            stack: if is_block_tag(tag) && st.stack.len() > 0 { st.stack.drop_last() } else { st.stack },
            ..st
        },
        HtmlEventView::Text(t) => {
            let remove = !bilingual && st.stack.len() > 0 && match block_at(blocks, st.stack.last() as int) {
                Some(x) => is_replaced(x),
                None => false,
            };
            PlanState {
                plan: EditPlanView { text: st.plan.text.push(if remove { seq![] } else { t }), ..st.plan },
                ..st
            }
        },
    }
}

pub open spec fn plan_fold(evs: Seq<HtmlEventView>, blocks: Seq<Block>, bilingual: bool) -> PlanState
    decreases evs.len(),
{
    if evs.len() == 0 {
        PlanState { cursor: 0, stack: seq![], plan: EditPlanView { elements: seq![], text: seq![] } }
    } else {
        plan_step(plan_fold(evs.drop_last(), blocks, bilingual), evs.last(), blocks, bilingual)
    }
}

/// The edit plan of a document's events for its blocks.
pub open spec fn plan_of(evs: Seq<HtmlEventView>, blocks: Seq<Block>, bilingual: bool) -> EditPlanView {
    plan_fold(evs, blocks, bilingual).plan
}

proof fn lemma_plan_counts(evs: Seq<HtmlEventView>, blocks: Seq<Block>, bilingual: bool)
    ensures
        plan_of(evs, blocks, bilingual).elements.len() == opens(evs),
        plan_of(evs, blocks, bilingual).text.len() == texts(evs),
    decreases evs.len(),
{
    if evs.len() > 0 {
        lemma_plan_counts(evs.drop_last(), blocks, bilingual);
    }
}

fn text_of(o: Option<String>) -> (r: String)
    ensures
        r@ == or_empty(opt_view(o)),
{
    match o {
        Some(s) => s,
        None => String::new(),
    }
}

/// The edit plan of a stream of events: the passes decide, event by event.
pub fn plan_edits(events: &Vec<HtmlEvent>, blocks: &[Block], bilingual: bool) -> (r: EditPlan)
    ensures
        r@ == plan_of(event_views(events@), blocks@, bilingual),
{
    let ghost ev = event_views(events@);
    let mut bp = BilingualPass::new();
    let mut tp = TranslatedPass::new();
    let mut plan = EditPlan { elements: Vec::new(), text: Vec::new() };
    let mut i: usize = 0;
    assert(plan@ == plan_fold(ev.take(0), blocks@, bilingual).plan) by {
        assert(ev.take(0).len() == 0);
        assert(plan@.elements =~= Seq::<(Seq<char>, Seq<char>, Seq<char>)>::empty());
        assert(plan@.text =~= Seq::<Seq<char>>::empty());
    }
    while i < events.len()
        invariant
            i <= events@.len(),
            ev == event_views(events@),
            bp.cursor == tp.cursor,
            tp.cursor == plan_fold(ev.take(i as int), blocks@, bilingual).cursor,
            tp.stack@ == plan_fold(ev.take(i as int), blocks@, bilingual).stack,
            plan@ == plan_fold(ev.take(i as int), blocks@, bilingual).plan,
        decreases events.len() - i,
    {
        assert(ev.take(i + 1).drop_last() =~= ev.take(i as int));
        assert(ev.take(i + 1).last() == event_view(events@[i as int]));
        let ghost p0 = plan@;
        match &events[i] {
            HtmlEvent::Open(tag) => {
                let append = if bilingual && eq_str(&chars_of(tag.as_str()), "head") { head_style() } else { String::new() };
                if block_tag(tag.as_str()) {
                    let b = bp.on_block(blocks);
                    let t = tp.on_start(blocks);
                    if bilingual {
                        plan.elements.push((String::new(), append, text_of(b)));
                    } else {
                        plan.elements.push((text_of(t), append, String::new()));
                    }
                } else {
                    plan.elements.push((String::new(), append, String::new()));
                }
                assert(plan@.elements =~= p0.elements.push(plan@.elements.last()));
            },
            HtmlEvent::Close(tag) => {
                if block_tag(tag.as_str()) {
                    tp.on_end();
                }
            },
            HtmlEvent::Text(t) => {
                let remove = !bilingual && tp.on_text(blocks);
                if remove {
                    plan.text.push(String::new());
                } else {
                    plan.text.push(t.clone());
                }
                assert(plan@.text =~= p0.text.push(plan@.text.last()));
            },
        }
        i += 1;
    }
    assert(ev.take(i as int) =~= ev);
    plan
}

/// The translated document: in a bilingual document each translated
/// block gets a sibling holding its translation and the head gets the
/// style; otherwise each translated block's text is replaced by its
/// translation. `blocks` are the document's collected blocks.
pub fn rewrite_doc(html: &str, blocks: &[Block], mode: &str) -> (r: Result<String, AppError>)
    ensures
        match html_edited(html@, plan_of(html_events(html@), blocks@, mode@ == MODE_BILINGUAL@)) {
            Ok(s) => r matches Ok(x) && x@ == s,
            Err(m) => r matches Err(e) && e.message@ == "rewrite failed: "@ + m,
        },
{
    let bilingual = eq_str(&chars_of(mode), MODE_BILINGUAL);
    let events = block_events(html);
    let plan = plan_edits(&events, blocks, bilingual);
    proof {
        lemma_plan_counts(event_views(events@), blocks@, bilingual);
    }
    match apply_edits(html, &plan) {
        Ok(s) => Ok(s),
        Err(e) => {
            let mut m = chars_of("rewrite failed: ");
            append_str(&mut m, e.as_str());
            Err(AppError::from_string(string_of(&m)))
        },
    }
}

/// The events of an element standing alone: its start tag, its text,
/// its end tag.
pub open spec fn lone_element(t: Seq<char>, x: Seq<char>) -> Seq<HtmlEventView> {
    seq![HtmlEventView::Open(t), HtmlEventView::Text(x), HtmlEventView::Close(t)]
}

/// The block-level elements are exactly `p`, `h1` to `h6`, `li`,
/// `blockquote`, `td`, `th`, `dd`, `dt` and `figcaption`: such an element
/// standing alone yields exactly one block, with its tag and its text
/// (entities decoded, whitespace collapsed) and no translation yet; any
/// other element standing alone yields no block.
pub proof fn block_elements_are_collected(t: Seq<char>, x: Seq<char>)
    ensures
        (t == "p"@ || t == "h1"@ || t == "h2"@ || t == "h3"@ || t == "h4"@ || t == "h5"@ || t == "h6"@
            || t == "li"@ || t == "blockquote"@ || t == "td"@ || t == "th"@ || t == "dd"@ || t == "dt"@
            || t == "figcaption"@) ==> {
            &&& collected(lone_element(t, x)).len() == 1
            &&& collected(lone_element(t, x))[0].tag == t
            &&& collected(lone_element(t, x))[0].text == crate::text::collapse(crate::html::unescaped(x))
            &&& collected(lone_element(t, x))[0].translation is None
        },
        !(t == "p"@ || t == "h1"@ || t == "h2"@ || t == "h3"@ || t == "h4"@ || t == "h5"@ || t == "h6"@
            || t == "li"@ || t == "blockquote"@ || t == "td"@ || t == "th"@ || t == "dd"@ || t == "dt"@
            || t == "figcaption"@) ==> collected(lone_element(t, x)).len() == 0,
{
    let evs = lone_element(t, x);
    let e1 = evs.take(1);
    let e2 = evs.take(2);
    assert(evs.drop_last() =~= e2);
    assert(e2.drop_last() =~= e1);
    assert(e1.drop_last() =~= Seq::<HtmlEventView>::empty());
    let s0 = collect_fold(Seq::<HtmlEventView>::empty());
    assert(collect_fold(e1) == collect_step(s0, HtmlEventView::Open(t)));
    assert(collect_fold(e2) == collect_step(collect_fold(e1), HtmlEventView::Text(x)));
    assert(collect_fold(evs) == collect_step(collect_fold(e2), HtmlEventView::Close(t)));
    let f = collect_fold(evs);
    if is_block_tag(t) {
        assert(f.open.len() == 0);
        assert(f.blocks.len() == 1);
        assert(collected(evs) == f.blocks);
        assert(Seq::<char>::empty() + x =~= x);
    } else {
        assert(f.blocks.len() == 0);
        assert(f.open.len() == 0);
    }
}

} // verus!
