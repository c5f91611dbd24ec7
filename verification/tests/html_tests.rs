use ebook_translator::html::{
    escape_html, head_style, parse_u32_chars, sibling_tag, unescape_entities, BilingualPass,
    CollectState, TranslatedPass,
};
use ebook_translator::types::{is_translatable, Block};

fn block(text: &str, tag: &str, translation: Option<&str>) -> Block {
    Block {
        text: text.to_string(),
        skipped: !is_translatable(text),
        translation: translation.map(str::to_string),
        tag: tag.to_string(),
        parts: Vec::new(),
    }
}

#[test]
fn escapes_entities() {
    assert_eq!(unescape_entities("a &amp; b &#65;&#x42;"), "a & b AB");
    assert_eq!(escape_html("&<>\""), "&amp;&lt;&gt;&quot;");
}

#[test]
fn unescape_leaves_unknown_and_long_references() {
    assert_eq!(unescape_entities("&bogus; & &apos;&nbsp;"), "&bogus; & '\u{a0}");
    assert_eq!(unescape_entities("&#xD800; &#1114112;"), "&#xD800; &#1114112;");
    assert_eq!(unescape_entities("&averyveryverylongname;"), "&averyveryverylongname;");
    assert_eq!(unescape_entities("&#+65;"), "A");
}

#[test]
fn unescape_undoes_escape_on_samples() {
    for s in ["plain", "a < b && c > d", "\"quoted\" & 'single'", "&amp; already", "မြန်မာ & <tag>"] {
        assert_eq!(unescape_entities(&escape_html(s)), s);
    }
}

#[test]
fn parses_numbers_like_from_str_radix() {
    let c = |s: &str| s.chars().collect::<Vec<char>>();
    assert_eq!(parse_u32_chars(&c("42"), 10), Some(42));
    assert_eq!(parse_u32_chars(&c("+ff"), 16), Some(255));
    assert_eq!(parse_u32_chars(&c(""), 10), None);
    assert_eq!(parse_u32_chars(&c("4294967296"), 10), None);
    assert_eq!(parse_u32_chars(&c("1a"), 10), None);
}

#[test]
fn collects_simple_paragraphs_from_events() {
    // <html><head><title>T</title></head><body><p>Hello world</p><p>42</p><p>Bye now</p></body></html>
    let mut st = CollectState::new();
    st.text("T");
    for t in ["Hello world", "42", "Bye now"] {
        st.start_block("p");
        st.text(t);
        st.end_block();
    }
    let blocks = st.finish();
    assert_eq!(blocks.len(), 3);
    assert_eq!(blocks[0].text, "Hello world");
    assert!(!blocks[0].skipped);
    assert!(blocks[1].skipped, "numeric-only paragraph is skipped");
    assert_eq!(blocks[2].text, "Bye now");
}

#[test]
fn collects_nested_lists_to_innermost_from_events() {
    // <ul><li>Outer <ul><li>Inner</li></ul></li></ul>
    let mut st = CollectState::new();
    st.start_block("li");
    st.text("Outer ");
    st.start_block("li");
    st.text("Inner");
    st.end_block();
    st.end_block();
    let blocks = st.finish();
    assert_eq!(blocks.len(), 2);
    assert_eq!(blocks[0].text, "Outer");
    assert_eq!(blocks[1].text, "Inner");
    assert_eq!(blocks[0].tag, "li");
}

#[test]
fn collects_inline_markup_text_from_events() {
    // <p>Hi <em>there</em>, &amp; welcome!</p>
    let mut st = CollectState::new();
    st.start_block("p");
    st.text("Hi ");
    st.text("there");
    st.text(", &amp; welcome!");
    st.end_block();
    let blocks = st.finish();
    assert_eq!(blocks[0].text, "Hi there, & welcome!");
}

#[test]
fn unclosed_blocks_are_closed_at_the_end() {
    let mut st = CollectState::new();
    st.start_block("p");
    st.text("  spaced \n  out  ");
    st.end_block();
    st.end_block();
    st.start_block("td");
    st.text("left open");
    let blocks = st.finish();
    assert_eq!(blocks[0].text, "spaced out");
    assert_eq!(blocks[1].text, "left open");
    assert!(!blocks[1].skipped);
}

#[test]
fn bilingual_inserts_sibling_after_block_from_events() {
    let blocks = vec![block("One", "p", Some("၁")), block("Two", "li", Some("၂"))];
    let mut pass = BilingualPass::new();
    assert_eq!(pass.on_block(&blocks).as_deref(), Some("<p class=\"ebtr-translation\">၁</p>"));
    assert_eq!(pass.on_block(&blocks).as_deref(), Some("<li class=\"ebtr-translation\">၂</li>"));
    assert_eq!(pass.on_block(&blocks), None);
    assert_eq!(head_style(), "<style type=\"text/css\">.ebtr-translation{margin:.45em 0;}</style>");
}

#[test]
fn bilingual_leaves_untranslated_blocks_alone_from_events() {
    let blocks = vec![block("One", "p", Some("၁ <b>")), block("Two", "p", None), block("7", "p", Some("x"))];
    let mut pass = BilingualPass::new();
    assert_eq!(pass.on_block(&blocks).as_deref(), Some("<p class=\"ebtr-translation\">၁ &lt;b&gt;</p>"));
    assert_eq!(pass.on_block(&blocks), None);
    assert_eq!(pass.on_block(&blocks), None);
}

#[test]
fn translated_replaces_text_preserving_nested_blocks_from_events() {
    // <ul><li>Outer <ul><li>Inner</li></ul></li></ul>
    let blocks = vec![block("Outer", "li", Some("အပြင်")), block("Inner", "li", Some("အတွင်း"))];
    let mut pass = TranslatedPass::new();
    assert_eq!(pass.on_start(&blocks).as_deref(), Some("အပြင်"));
    assert!(pass.on_text(&blocks)); // "Outer " is removed
    assert_eq!(pass.on_start(&blocks).as_deref(), Some("အတွင်း"));
    assert!(pass.on_text(&blocks)); // "Inner" is removed
    pass.on_end();
    pass.on_end();
    assert!(!pass.on_text(&blocks)); // text outside blocks stays
}

#[test]
fn translated_keeps_untranslated_text() {
    let blocks = vec![block("Hi there friend", "p", None)];
    let mut pass = TranslatedPass::new();
    assert_eq!(pass.on_start(&blocks), None);
    assert!(!pass.on_text(&blocks));
}

#[test]
fn sibling_tags_keep_lists_and_tables_valid() {
    assert_eq!(sibling_tag("li"), "li");
    assert_eq!(sibling_tag("th"), "td");
    assert_eq!(sibling_tag("dd"), "dd");
    assert_eq!(sibling_tag("h2"), "p");
}

#[test]
fn translated_removes_inline_text_from_events() {
    // <p>Hi <em>there</em> friend</p>
    let blocks = vec![block("Hi there friend", "p", Some("မင်္ဂလာပါ"))];
    let mut pass = TranslatedPass::new();
    assert_eq!(pass.on_start(&blocks).as_deref(), Some("မင်္ဂလာပါ"));
    assert!(pass.on_text(&blocks)); // "Hi " is removed
    assert!(pass.on_text(&blocks)); // "there" inside <em> is removed
    assert!(pass.on_text(&blocks)); // " friend" is removed
    pass.on_end();
    assert!(!pass.on_text(&blocks));
}
