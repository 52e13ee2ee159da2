use rlm::records::SearchMode;
use rlm::store::RlmStore;
use std::collections::HashMap;

const LABELS: &[&str] = &["apple", "banana", "cherry", "durian", "elderberry"];

/// Synthetic transcripts, each with a keyword that dominates it, and how often each keyword
/// does.
fn build_dataset(n: usize) -> (Vec<u8>, HashMap<String, usize>) {
    let mut out = String::new();
    let mut expected: HashMap<String, usize> = HashMap::new();
    for label in LABELS {
        expected.insert((*label).to_string(), 0);
    }
    for i in 0..n {
        let label = LABELS[i % LABELS.len()];
        *expected.get_mut(label).unwrap() += 1;
        let body = format!(
            "# transcript_{i:04}\n\nlorem ipsum {label} dolor sit {label} amet \
             consectetur {label} adipiscing {label} elit sed {label} \
             do eiusmod tempor incididunt {filler} ut labore et dolore.\n",
            filler = LABELS[(i + 1) % LABELS.len()]
        );
        out.push_str(&body);
    }
    (out.into_bytes(), expected)
}

fn classify_chunk(text: &str) -> Option<String> {
    let mut best: Option<(&&str, usize)> = None;
    for label in LABELS {
        let count = text.matches(label).count();
        if count > 0 && best.map_or(true, |(_, c)| count > c) {
            best = Some((label, count));
        }
    }
    best.map(|(l, _)| (*l).to_string())
}

#[test]
fn oolong_mini_aggregation_via_rlm_tools() {
    let (file, expected) = build_dataset(20);
    let mut store = RlmStore::new();
    let ctx = store.load_file("transcripts.md", file, "transcripts").unwrap();

    assert!(
        ctx.chunks.len() >= 20,
        "expected ~20 chunks, got {}",
        ctx.chunks.len()
    );

    let mut counts: HashMap<String, usize> =
        LABELS.iter().map(|l| ((*l).to_string(), 0)).collect();
    for chunk in &ctx.chunks {
        let data = ctx
            .get_chunk_by_id(&chunk.id, 4096)
            .expect("chunk id must round-trip");
        if let Some(label) = classify_chunk(&data.text) {
            *counts.get_mut(&label).unwrap() += 1;
        }
    }
    for label in LABELS {
        assert_eq!(
            counts.get(*label),
            expected.get(*label),
            "count mismatch for label {label}"
        );
    }

    let hits = ctx.search("apple", 5, SearchMode::Bm25);
    assert!(!hits.is_empty(), "BM25 must find apple chunks");
    for hit in &hits {
        assert!(hit.preview.contains("apple"), "preview lacks 'apple'");
    }
}

#[test]
fn oolong_mini_root_message_history_never_holds_full_blob() {
    let (file, _expected) = build_dataset(20);
    let mut store = RlmStore::new();
    let ctx = store.load_file("transcripts.md", file, "transcripts").unwrap();

    let blob_chars = ctx.total_chars;
    let mut history_chars = 0usize;
    let hits = ctx.search("transcript", 10, SearchMode::Bm25);
    for h in &hits {
        history_chars += h.preview.chars().count();
    }
    for chunk in &ctx.chunks {
        let d = ctx.get_chunk_by_id(&chunk.id, 800).unwrap();
        history_chars += d.text.chars().count();
    }
    assert!(
        history_chars < blob_chars * 2,
        "history ({history_chars}) shouldn't dwarf blob ({blob_chars})"
    );
    assert!(history_chars > 0, "we did fetch some content");
}
