use ebook_translator::pdf::{
    chunk_chapters, is_page_number, is_pdf, paragraphs_from_pages, roman_value, strip_markdown,
    strip_page_furniture, to_roman, token_is_numberish, decode_pdf_string, settle_pages, assemble_pdf, metadata, needs_fallback, read_pages, tool_pages, PageSource,
};
use ebook_translator::types::docs_of;

#[test]
fn strips_running_headers_with_embedded_numbers() {
    let mut pages = Vec::new();
    for i in 0..6usize {
        pages.push(
            [
                format!("{} Early Buddhist Theory of Knowledge", 20 + i),
                String::new(),
                format!("Body paragraph {i} opens the page."),
                "more body text here".to_string(),
                String::new(),
                format!("Closing paragraph {i} of the verso."),
            ]
            .join("\n"),
        );
        pages.push(
            [
                format!("Recto body starts {i} somewhere mid-sentence."),
                "continues down the page".to_string(),
                String::new(),
                format!("The Historical Background {}", 21 + i),
            ]
            .join("\n"),
        );
    }
    let (cleaned, stripped) = strip_page_furniture(&pages);
    assert_eq!(stripped, 12);
    for p in &cleaned {
        assert!(!p.contains("Early Buddhist Theory of Knowledge"));
        assert!(!p.contains("The Historical Background"));
    }
    assert!(cleaned[0].contains("Body paragraph 0 opens the page."));
    assert!(cleaned[0].contains("Closing paragraph 0 of the verso."));
    assert!(cleaned[1].contains("Recto body starts 0"));
}

#[test]
fn strips_bare_page_numbers_in_many_dresses() {
    let nums = ["12", "- 13 -", "[14]", "Page 15", "xvi", " p. 16 ", "2o", "i6"];
    let mut pages = Vec::new();
    for (i, n) in nums.iter().enumerate() {
        pages.push(
            [
                format!("Opening line {i} of real prose."),
                "second line".to_string(),
                String::new(),
                n.to_string(),
            ]
            .join("\n"),
        );
    }
    let (cleaned, stripped) = strip_page_furniture(&pages);
    assert_eq!(stripped, nums.len());
    for p in &cleaned {
        assert!(!p.trim().is_empty());
        assert!(p.contains("real prose"));
    }
}

#[test]
fn keeps_one_off_headings_and_divider_pages() {
    let pages = vec![
        "CHAPTER ONE\n\nThe chapter opens.".to_string(),
        "Regular body text\n\non this page".to_string(),
        "A different heading\n\nMore prose here.".to_string(),
        "Even more prose\n\ncontinues".to_string(),
        "Trailing page\n\nof the sample".to_string(),
    ];
    let (cleaned, stripped) = strip_page_furniture(&pages);
    assert_eq!(stripped, 0);
    assert!(cleaned[0].contains("CHAPTER ONE"));
}

#[test]
fn keeps_lone_numerals_and_years() {
    let pages = vec![
        "Intro text here\n\nsome prose".to_string(),
        "II\n\nTHE PROBLEM OF KNOWLEDGE\n\nChapter body starts here.".to_string(),
        "More body text\n\non this page".to_string(),
        "In 1947 the events\n\nunfolded over years".to_string(),
        "Final page of\n\nthe sample".to_string(),
    ];
    let (cleaned, stripped) = strip_page_furniture(&pages);
    assert_eq!(stripped, 0);
    assert!(cleaned[1].contains("II"));
}

#[test]
fn roman_guard_rejects_words() {
    for w in ["civil", "mill", "mid", "did", "mix", "jolly", "zoo", "joy", "oil", "lily", "ill", "lol"] {
        assert!(!token_is_numberish(w), "{w} must not count as a page number");
    }
    for n in ["xiv", "mmxxvi", "xvii"] {
        assert!(token_is_numberish(n), "{n} should count as a page number");
    }
    for n in ["i6", "2o", "3*", "j6", "6y", "ioo", "IOI", "I0", "16", "iv"] {
        assert!(token_is_numberish(n), "{n} should be numberish");
    }
    assert_eq!(roman_value("iiv"), None);
}

#[test]
fn markdown_is_flattened_to_plain_paragraphs() {
    let md = "# Preface\n\nSome **bold** and *italic* text.\n\n|Dhp|Dhammapada|\n|---|---|\n|AN|Aṅguttara|\n\nSee [the license](https://example.com) for details.\n```\ncode\n```\n";
    let plain = strip_markdown(md);
    assert!(plain.contains("Preface\n"));
    assert!(plain.contains("Some bold and italic text."));
    assert!(plain.contains("Dhp Dhammapada"));
    assert!(plain.contains("AN Aṅguttara"));
    assert!(plain.contains("See the license for details."));
    assert!(!plain.contains('['));
    assert!(!plain.contains('|'));
    assert!(!plain.contains('#'));
    assert!(!plain.contains("```"));
    assert!(!plain.contains("---"));
}

#[test]
fn splits_paragraphs_on_blank_lines() {
    let pages = vec!["One two\nthree\n\nFour five".to_string()];
    let paras = paragraphs_from_pages(&pages);
    assert_eq!(paras, vec!["One two three", "Four five"]);
}

#[test]
fn groups_unbroken_lines() {
    let page = (0..13).map(|i| format!("line{i}")).collect::<Vec<_>>().join("\n");
    let paras = paragraphs_from_pages(&[page]);
    assert_eq!(paras.len(), 3);
    assert_eq!(paras[0], "line0 line1 line2 line3 line4 line5");
}

#[test]
fn chunks_by_size() {
    let paras: Vec<String> = (0..20).map(|i| "x".repeat(1000) + &i.to_string()).collect();
    let chapters = chunk_chapters(paras);
    assert!(chapters.len() >= 2);
    assert!(chapters.iter().all(|c| !c.is_empty()));
}

#[test]
fn roman_numerals_round_trip() {
    assert_eq!(to_roman(1994), "mcmxciv");
    assert_eq!(to_roman(4), "iv");
    assert_eq!(roman_value("mcmxciv"), Some(1994));
    assert_eq!(roman_value("xiv"), Some(14));
    assert_eq!(roman_value("iiii"), None);
    assert_eq!(roman_value(""), None);
    for n in 1..4000u32 {
        assert_eq!(roman_value(&to_roman(n)), Some(n));
    }
}

#[test]
fn page_number_lines() {
    assert!(is_page_number("  - 13 - "));
    assert!(is_page_number("Page 15"));
    assert!(!is_page_number("Page fifteen of the book"));
    assert!(!is_page_number("civil"));
}

#[test]
fn chapters_split_before_overflowing_paragraph() {
    let paras: Vec<String> = vec!["a".repeat(5000), "b".repeat(3000), "c".repeat(1)];
    let chapters = chunk_chapters(paras);
    assert_eq!(chapters.len(), 2);
    assert_eq!(chapters[0].len(), 2);
    assert_eq!(chapters[1], vec!["c".to_string()]);
}

#[test]
fn recognizes_pdf_signature() {
    assert!(is_pdf(b"%PDF-1.7 rest"));
    assert!(!is_pdf(b"%PDF"));
    assert!(!is_pdf(b"PK\x03\x04xx"));
}

#[test]
fn decodes_pdf_strings() {
    assert_eq!(decode_pdf_string(b"Plain Title"), "Plain Title");
    assert_eq!(decode_pdf_string(&[0xFE, 0xFF, 0x00, 0x41, 0x10, 0x00, 0x00]), "A\u{1000}");
    assert_eq!(decode_pdf_string(&[0xFF]), "\u{fffd}");
}

#[test]
fn settles_on_poppler_or_the_best_error() {
    let (p, r) = settle_pages(Some(Ok(vec!["  ".into(), "text".into()])), None).unwrap();
    assert_eq!(p.len(), 2);
    assert_eq!(r, "pdftotext (poppler)");
    assert_eq!(
        settle_pages(Some(Ok(vec![" ".into()])), Some("bad xref".into())).unwrap_err().text(),
        "could not extract PDF text: bad xref"
    );
    assert_eq!(
        settle_pages(None, None).unwrap_err().text(),
        "no reader could find text in this PDF — it is likely a scanned document (OCR is not supported)"
    );
}

#[test]
fn assembles_pdf_books() {
    let pages: Vec<String> = vec![
        "First paragraph of the book.\n\nSecond paragraph here.".into(),
        "Third one on page two.".into(),
    ];
    let book = assemble_pdf(b"not really a pdf".to_vec(), "/books/My Book.pdf", pages, "pdf-inspector", &Vec::new()).unwrap();
    assert_eq!(book.info.format, "pdf");
    assert_eq!(book.info.title, "My Book");
    assert_eq!(book.info.file_name, "My Book.pdf");
    assert_eq!(book.info.author, "");
    assert_eq!(book.info.warnings, vec!["Text extracted with pdf-inspector — the built-in reader found none.".to_string()]);
    let docs = docs_of(&book);
    assert_eq!(docs.len(), 1);
    assert_eq!(docs[0].path, "ch001");
    assert_eq!(docs[0].title, "Part 1");
    assert_eq!(docs[0].blocks.len(), 3);
    assert_eq!(book.info.segments[0].blocks, 3);
    assert!(assemble_pdf(Vec::new(), "x.pdf", vec!["   ".into()], "", &Vec::new()).is_err());
    let info = vec![(b"Author".to_vec(), b"Ann Writer".to_vec()), (b"Title".to_vec(), b"Real Title".to_vec())];
    let titled = assemble_pdf(Vec::new(), "x.pdf", vec!["Some words here.".into()], "", &info).unwrap();
    assert_eq!(titled.info.title, "Real Title");
    assert_eq!(titled.info.author, "Ann Writer");
    assert!(titled.info.warnings.is_empty());
}

#[test]
fn every_numeral_reads_back() {
    for n in 1..4000u32 {
        assert_eq!(roman_value(&to_roman(n)), Some(n));
    }
    assert_eq!(roman_value(&to_roman(0)), None);
}

#[test]
fn reads_title_and_author_from_info_entries() {
    let info = vec![
        (b"Producer".to_vec(), b"x".to_vec()),
        (b"Title".to_vec(), vec![0xFE, 0xFF, 0x00, 0x41, 0x00, 0x42]),
        (b"Title".to_vec(), b"second".to_vec()),
    ];
    assert_eq!(metadata(&info), ("AB".to_string(), String::new()));
    assert_eq!(metadata(&Vec::new()), (String::new(), String::new()));
}

#[test]
fn falls_back_to_inspector_only_without_text() {
    let good: Result<Vec<String>, String> = Ok(vec!["".into(), "text".into()]);
    assert!(!needs_fallback(&good));
    assert!(needs_fallback(&Ok(vec!["  ".into()])));
    assert!(needs_fallback(&Err("bad".into())));
    match read_pages(good, None) {
        PageSource::Found { pages, reader } => {
            assert_eq!(pages.len(), 2);
            assert_eq!(reader, "");
        }
        PageSource::Missing { .. } => panic!("pages expected"),
    }
    match read_pages(Err("bad xref".into()), Some(Ok(vec!["# Heading\n\n**bold** words".into()]))) {
        PageSource::Found { pages, reader } => {
            assert_eq!(reader, "pdf-inspector");
            assert!(pages[0].contains("bold words"), "{}", pages[0]);
        }
        PageSource::Missing { .. } => panic!("pages expected"),
    }
    match read_pages(Err("bad xref".into()), Some(Err("also bad".into()))) {
        PageSource::Missing { extract_error } => assert_eq!(extract_error.as_deref(), Some("bad xref")),
        PageSource::Found { .. } => panic!("no pages expected"),
    }
    match read_pages(Ok(vec![" ".into()]), None) {
        PageSource::Missing { extract_error } => assert_eq!(extract_error, None),
        PageSource::Found { .. } => panic!("no pages expected"),
    }
}

#[test]
fn splits_tool_output_at_form_feeds() {
    assert_eq!(tool_pages("one\u{c}two\u{c}"), vec!["one".to_string(), "two".to_string()]);
    assert_eq!(tool_pages("one\u{c}\u{c}three"), vec!["one".to_string(), String::new(), "three".to_string()]);
    assert_eq!(tool_pages(""), Vec::<String>::new());
}

#[test]
fn paragraphs_are_non_empty_and_collapsed() {
    let pages = vec!["  First   line\n second\tline \n\n\n  Next  para ".to_string(), "a\nb\nc\nd\ne\nf\ng".to_string()];
    let paras = paragraphs_from_pages(&pages);
    assert!(!paras.is_empty());
    for p in &paras {
        assert!(!p.is_empty());
        assert_eq!(p, &p.split_whitespace().collect::<Vec<_>>().join(" "));
    }
    assert_eq!(paras[0], "First line second line");
    assert_eq!(paras[1], "Next para");
}

#[test]
fn paragraphs_keep_every_word_in_order() {
    let pages = vec![
        "Alpha beta\r\ngamma\n\n  delta   epsilon\n".to_string(),
        "one\ntwo\nthree\nfour\nfive\nsix\nseven".to_string(),
    ];
    let paras = paragraphs_from_pages(&pages);
    let from_paras: Vec<&str> = paras.iter().flat_map(|p| p.split_whitespace()).collect();
    let from_pages: Vec<&str> = pages.iter().flat_map(|p| p.split_whitespace()).collect();
    assert_eq!(from_paras, from_pages);
}

#[test]
fn decodes_utf16_pairs_and_lone_surrogates() {
    // U+1F600 as a surrogate pair, then a lone high surrogate, then "A".
    let s = [0xFE, 0xFF, 0xD8, 0x3D, 0xDE, 0x00, 0xD8, 0x00, 0x00, 0x41];
    assert_eq!(decode_pdf_string(&s), "😀\u{FFFD}A");
    let units = [0xD83Du16, 0xDE00, 0xD800, 0x0041];
    assert_eq!(decode_pdf_string(&s), String::from_utf16_lossy(&units));
}
