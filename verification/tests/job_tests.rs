use ebook_translator::job::{
    apply_batch_translations, apply_translation, build_batches, char_totals, failure_outcome,
    end_status, load_resume_lines, parse_resume_line, pending_batches, restore_resumed,
    run_end, snapshot, split_oversized, merge_halves, split_batch, BatchItem, BatchOutcome, Counters, RunEnd, MAX_BATCH_BLOCKS,
};
use ebook_translator::error::AppError;
use ebook_translator::gemini::GeminiFailure;
use std::collections::BTreeMap;
use ebook_translator::types::{is_translatable, Block, ContentDoc};

fn doc(path: &str, texts: &[&str]) -> ContentDoc {
    ContentDoc {
        path: path.into(),
        title: path.into(),
        html: String::new(),
        blocks: texts
            .iter()
            .map(|t| Block {
                text: t.to_string(),
                skipped: !is_translatable(t),
                translation: None,
                tag: "p".into(),
                parts: Vec::new(),
            })
            .collect(),
    }
}

#[test]
fn batches_respect_token_budget() {
    let paras: Vec<String> = (0..200).map(|i| format!("paragraph number {i} ").repeat(30)).collect();
    let refs: Vec<&str> = paras.iter().map(String::as_str).collect();
    let docs = vec![doc("a", &refs), doc("b", &["tiny", "a full sentence here"])];
    let batches = build_batches(&docs, "gemini-3.5-flash-lite");
    assert!(batches.len() > 1);
    for b in &batches {
        assert!(b.items.len() <= MAX_BATCH_BLOCKS);
        assert!(b.tokens <= 5_000 + 200);
    }
    let total: usize = batches.iter().map(|b| b.items.len()).sum();
    assert_eq!(total, 202);
    let flash = build_batches(&docs, "gemini-3.8-flash");
    assert!(flash.len() * 2 <= batches.len() + 2);
}

#[test]
fn skips_short_blocks() {
    let docs = vec![doc("a", &["ok", "x", "42", "another one"])];
    let batches = build_batches(&docs, "gemini-3.5-flash-lite");
    assert_eq!(batches.len(), 1);
    assert_eq!(batches[0].items.len(), 2);
}

#[test]
fn splits_oversized_block_into_budgeted_parts() {
    let huge = "word ".repeat(5_200);
    let docs = vec![doc("a", &["small one", &huge])];
    let batches = build_batches(&docs, "gemini-3.5-flash-lite");
    assert!(batches.len() >= 2, "oversized block must span batches");
    let mut part_items = 0;
    for b in &batches {
        assert!(b.tokens <= 5_000 + 200, "batch over budget: {}", b.tokens);
        for item in &b.items {
            if item.part.is_some() {
                part_items += 1;
                assert_eq!((item.d, item.b), (0, 1));
            }
        }
    }
    assert!(part_items >= 2);
    let mut joined = String::new();
    for b in &batches {
        for item in &b.items {
            if item.part.is_some() {
                joined.push_str(&item.text);
            }
        }
    }
    assert_eq!(joined, huge);
    let mut docs = docs;
    let all_items: Vec<BatchItem> = batches
        .iter()
        .flat_map(|b| {
            b.items.iter().filter(|i| i.part.is_some()).map(|i| BatchItem {
                d: i.d,
                b: i.b,
                part: i.part,
                text: i.text.clone(),
            })
        })
        .collect();
    for (k, item) in all_items.iter().enumerate() {
        apply_translation(&mut docs, item, &format!("[T{k}] "));
        if k + 1 < all_items.len() {
            assert!(docs[0].blocks[1].translation.is_none());
        }
    }
    let expected: String = (0..all_items.len()).map(|k| format!("[T{k}] ")).collect();
    assert_eq!(docs[0].blocks[1].translation.as_deref(), Some(expected.as_str()));
    assert!(docs[0].blocks[1].parts.is_empty());
}

#[test]
fn split_parts_restore_text() {
    let text = "alpha beta ".repeat(2000);
    let parts = split_oversized(&text, 5_000);
    assert!(parts.len() >= 2);
    assert!(parts.iter().all(|p| !p.is_empty()));
    assert_eq!(parts.concat(), text);
}

#[test]
fn applies_a_batch_reply_by_item_number() {
    let mut docs = vec![doc("a", &["first block", "x", "second block"]), doc("b", &["third block"])];
    let batches = build_batches(&docs, "gemini-3.5-flash-lite");
    assert_eq!(batches.len(), 1);
    let mut tr = BTreeMap::new();
    tr.insert(1, "one".to_string());
    tr.insert(3, "three".to_string());
    tr.insert(7, "ignored".to_string());
    apply_batch_translations(&mut docs, &batches[0], &tr);
    assert_eq!(docs[0].blocks[0].translation.as_deref(), Some("one"));
    assert_eq!(docs[0].blocks[2].translation, None);
    assert_eq!(docs[1].blocks[0].translation.as_deref(), Some("three"));
}

#[test]
fn resumes_saved_batches() {
    assert_eq!(parse_resume_line("garbage"), None);
    assert_eq!(parse_resume_line("{\"i\":0,\"t\":{}}"), None);
    let (i, tr) = parse_resume_line("{\"i\":1,\"t\":{\"1\":\"a\",\"+2\":\"b\",\"x\":\"c\",\"3\":4}}").unwrap();
    assert_eq!(i, 1);
    assert_eq!(tr.len(), 2);
    assert_eq!(tr.get(&2).map(String::as_str), Some("b"));

    let lines = vec![
        "{\"i\":0,\"t\":{\"1\":\"old\"}}".to_string(),
        "{\"i\":0,\"t\":{\"1\":\"uno\",\"2\":\"dos\"}}".to_string(),
        "broken".to_string(),
    ];
    let resumed = load_resume_lines(&lines);
    assert_eq!(resumed.len(), 1);
    let texts: Vec<String> = (0..150).map(|i| format!("paragraph {i} with words ").repeat(20)).collect();
    let refs: Vec<&str> = texts.iter().map(String::as_str).collect();
    let mut docs = vec![doc("a", &refs)];
    let batches = build_batches(&docs, "gemini-3.5-flash-lite");
    assert!(batches.len() >= 2);
    restore_resumed(&mut docs, &batches, &resumed);
    assert_eq!(docs[0].blocks[0].translation.as_deref(), Some("uno"));
    assert_eq!(docs[0].blocks[1].translation.as_deref(), Some("dos"));
    assert_eq!(docs[0].blocks[2].translation, None);
    let pending = pending_batches(batches.len(), &resumed);
    assert_eq!(pending, (1..batches.len()).collect::<Vec<_>>());
    let (all, done) = char_totals(&batches, &resumed);
    assert_eq!(all, batches.iter().map(|b| b.chars).sum::<usize>());
    assert_eq!(done, batches[0].chars);
}

#[test]
fn reports_progress_per_segment() {
    let mut docs = vec![doc("a", &["one block", "two block"]), doc("b", &["42"]), doc("c", &["only one"])];
    docs[0].blocks[0].translation = Some("x".into());
    docs[2].blocks[0].translation = Some("y".into());
    let mut c = Counters::start(3, 100, 10);
    c.translated(20, 7);
    c.failed();
    let p = snapshot("running", &docs, c, None, false);
    assert_eq!(p.status, "running");
    let states: Vec<&str> = p.segments.iter().map(|s| s.state.as_str()).collect();
    assert_eq!(states, ["active", "pending", "done"]);
    assert_eq!((p.segments[0].done, p.segments[0].total), (1, 2));
    assert_eq!((p.batches_done, p.batches_failed, p.chars_done, p.tokens_used), (2, 1, 30, 7));
}

#[test]
fn decides_how_a_run_ends() {
    assert_eq!(run_end(Some("boom".into()), true, 3, 3), RunEnd::Stopped("boom".into()));
    assert_eq!(run_end(None, true, 0, 3), RunEnd::Cancelled);
    assert_eq!(run_end(None, false, 3, 3), RunEnd::AllFailed);
    assert_eq!(run_end(None, false, 1, 3), RunEnd::Assemble { partial: true });
    assert_eq!(run_end(None, false, 0, 0), RunEnd::Assemble { partial: false });
    assert_eq!(end_status(&RunEnd::Assemble { partial: true }), "completed");
    assert_eq!(end_status(&RunEnd::Assemble { partial: false }), "completed");
    assert_eq!(end_status(&RunEnd::AllFailed), "failed");
    assert_eq!(end_status(&RunEnd::Stopped("x".into())), "failed");
    assert_eq!(end_status(&RunEnd::Cancelled), "cancelled");
    assert!(matches!(failure_outcome(&GeminiFailure::Fatal(AppError::msg("bad key")), 3, true), BatchOutcome::Stop(m) if m == "bad key"));
    assert!(matches!(failure_outcome(&GeminiFailure::Exhausted(AppError::msg("tired")), 3, true), BatchOutcome::Failed(m) if m == "tired"));
    assert!(matches!(
        failure_outcome(&GeminiFailure::QuotaExhausted(AppError::msg("quota"), false), 3, false),
        BatchOutcome::Stop(m) if m == "quota"
    ));
    assert!(matches!(
        failure_outcome(&GeminiFailure::QuotaExhausted(AppError::msg("quota"), true), 3, true),
        BatchOutcome::Switch(m) if m == "quota"
    ));
    assert!(matches!(failure_outcome(&GeminiFailure::Truncated(AppError::msg("cut")), 2, false), BatchOutcome::Split));
    assert!(matches!(failure_outcome(&GeminiFailure::Truncated(AppError::msg("cut")), 1, false), BatchOutcome::Failed(m) if m == "cut"));
}

#[test]
fn splits_a_cut_off_batch_into_halves_and_merges_their_answers() {
    let docs = vec![doc("a", &["one here", "two here", "three here"])];
    let batches = build_batches(&docs, "gemini-3.5-flash-lite");
    assert_eq!(batches.len(), 1);
    let (a, b) = split_batch(&batches[0]);
    assert_eq!(a.items.len(), 1);
    assert_eq!(b.items.len(), 2);
    assert_eq!(a.items[0].text, "one here");
    assert_eq!(b.items[1].text, "three here");
    assert_eq!(a.chars + b.chars, batches[0].chars);
    assert_eq!(a.tokens + b.tokens, batches[0].tokens);
    let ra: BTreeMap<usize, String> = [(1, "uno".to_string())].into_iter().collect();
    let rb: BTreeMap<usize, String> = [(1, "dos".to_string()), (2, "tres".to_string()), (9, "x".to_string())].into_iter().collect();
    let m = merge_halves(&ra, &rb, 1, 3);
    let want: BTreeMap<usize, String> =
        [(1, "uno".to_string()), (2, "dos".to_string()), (3, "tres".to_string())].into_iter().collect();
    assert_eq!(m, want);
}

#[test]
fn split_parts_join_in_any_arrival_order() {
    let mut docs = vec![doc("a", &["x y z w"])];
    let items: Vec<BatchItem> = (0..3)
        .map(|k| BatchItem { d: 0, b: 0, part: Some((k, 3)), text: format!("p{k}") })
        .collect();
    for k in [2usize, 0] {
        apply_translation(&mut docs, &items[k], &format!("[T{k}]"));
        assert!(docs[0].blocks[0].translation.is_none());
    }
    apply_translation(&mut docs, &items[1], "[T1]");
    assert_eq!(docs[0].blocks[0].translation.as_deref(), Some("[T0][T1][T2]"));
    assert!(docs[0].blocks[0].parts.is_empty());
}

#[test]
fn split_parts_are_never_empty() {
    assert!(split_oversized("", 10).is_empty());
    let text = "alpha beta gamma delta ".repeat(400);
    let parts = split_oversized(&text, 400);
    assert!(parts.len() >= 2);
    assert!(parts.iter().all(|p| !p.is_empty()));
    assert_eq!(parts.concat(), text);
}

#[test]
fn batches_close_only_when_the_next_piece_does_not_fit() {
    let paras: Vec<String> = (0..300).map(|i| format!("paragraph number {i} ").repeat(30)).collect();
    let refs: Vec<&str> = paras.iter().map(String::as_str).collect();
    let docs = vec![doc("a", &refs)];
    let batches = build_batches(&docs, "gemini-3.5-flash-lite");
    for w in batches.windows(2) {
        let next = ebook_translator::gemini::estimate_tokens(&w[1].items[0].text);
        assert!(w[0].items.len() == MAX_BATCH_BLOCKS || w[0].tokens + next > 5_000);
    }
}
