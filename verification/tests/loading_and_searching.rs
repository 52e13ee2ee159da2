use rlm::chunking::chunk_text;
use rlm::context::{build_context, RlmContext};
use rlm::files::{FilePath, SourceFile};
use rlm::loading::Gathered;
use rlm::records::{Score, SearchMode};
use rlm::store::{LoadError, RlmStore, DEFAULT_MAX_DEPTH};
use serde_json::Value;

fn object(key: &str, value: Value) -> Value {
    let mut map = serde_json::Map::new();
    map.insert(key.to_string(), value);
    Value::Object(map)
}

fn file(name: &str, extension: Option<&str>, raw: &[u8]) -> SourceFile {
    SourceFile {
        path: FilePath {
            display: format!("dir/{name}"),
            file_name: Some(name.to_string()),
            extension: extension.map(|e| e.to_string()),
        },
        raw: raw.to_vec(),
    }
}

fn loaded(text: &str, name: &str) -> std::sync::Arc<RlmContext> {
    RlmStore::new().load_file("some/path.md", text.as_bytes().to_vec(), name).unwrap()
}

#[test]
fn load_file_chunks_and_searches() {
    let body = format!(
        "# Intro\n\nThis is a doc.\n\n# Secret\n\nThe secret number is 42, hidden well.\n\n# Outro\n\nThe end.\n",
    );
    let mut store = RlmStore::new();
    let ctx = store.load_file("doc.md", body.into_bytes(), "doc").unwrap();
    assert!(!ctx.chunks.is_empty());
    assert!(ctx.total_tokens > 0);

    let bm25 = ctx.search("secret number", 5, SearchMode::Bm25);
    assert!(!bm25.is_empty(), "bm25 should hit the secret chunk");
    let top = ctx.get_chunk_by_id(&bm25[0].chunk_id, 4096).unwrap();
    assert!(top.text.contains("42"));

    let sub = ctx.search("42", 5, SearchMode::Substring);
    assert!(!sub.is_empty(), "substring should find 42");
    assert!(sub[0].preview.contains("42"));
}

#[test]
fn load_directory_walks_and_skips_binaries() {
    let files = vec![
        file("a.md", Some("md"), b"# A\n\nhello world apple\n"),
        file("b.txt", Some("txt"), b"banana cherry\n"),
        // A binary-extension file should be skipped.
        file("c.png", Some("png"), b"\x89PNG\r\n\x1a\n"),
    ];
    let mut store = RlmStore::new();
    let ctx = store.load_directory("dir", files, "repo").unwrap();
    let summary = ctx.summary();
    assert!(summary.n_chunks >= 2);
    let hits = ctx.search("banana", 5, SearchMode::Bm25);
    assert!(!hits.is_empty());
}

#[test]
fn memory_kv_round_trip() {
    let mut store = RlmStore::new();
    store.store_memory("findings".to_string(), object("n", Value::from(3)));
    let v = store.retrieve_memory("findings").unwrap();
    assert_eq!(v["n"], 3);
    assert_eq!(store.list_memory_keys(), vec!["findings".to_string()]);
}

#[test]
fn budget_cap_rejects_oversize() {
    let mut store = RlmStore::with_max_bytes(64);
    let err = store.load_file("x", vec![b'x'; 200], "x").unwrap_err();
    assert!(err.message().contains("ingest limit"));
}

#[test]
fn regex_search_finds_pattern() {
    let mut store = RlmStore::new();
    let ctx = store.load_file("doc", b"# h\nfoo BLUE_TOKEN_91 bar\n".to_vec(), "doc").unwrap();
    let hits = ctx.search(r"BLUE_TOKEN_\d+", 5, SearchMode::Regex);
    assert_eq!(hits.len(), 1);
    assert!(hits[0].preview.contains("BLUE_TOKEN_91"));
}

#[test]
fn haystack_search_smoke() {
    // Hide a known token in ~50KB of filler and confirm BM25 + substring find it.
    let mut body = String::new();
    for _ in 0..1000 {
        body.push_str("lorem ipsum dolor sit amet ");
    }
    body.push_str("\n\nthe magic phrase is BLUE_TOKEN_91 here\n\n");
    for _ in 0..1000 {
        body.push_str("consectetur adipiscing elit ");
    }
    let mut store = RlmStore::new();
    let ctx = store.load_file("big", body.into_bytes(), "big").unwrap();
    let hits = ctx.search("magic phrase BLUE_TOKEN", 3, SearchMode::Bm25);
    assert!(!hits.is_empty());
    let top = ctx.get_chunk_by_id(&hits[0].chunk_id, 8192).unwrap();
    assert!(top.text.contains("BLUE_TOKEN_91"));
}

#[test]
fn a_file_that_is_not_utf8_is_refused() {
    let mut store = RlmStore::new();
    let err = store.load_file("bad.bin", vec![0xff, 0xfe], "bad").unwrap_err();
    assert!(matches!(err, LoadError::NotUtf8 { .. }));
    assert_eq!(err.message(), "rlm context file is not valid UTF-8: bad.bin");
    assert!(store.get("bad").is_none());
}

#[test]
fn the_budget_is_exact_and_a_refusal_keeps_the_room() {
    let mut store = RlmStore::with_max_bytes(10);
    store.load_file("a", b"123456".to_vec(), "a").unwrap();
    let err = store.load_file("b", b"12345".to_vec(), "b").unwrap_err();
    assert_eq!(err.message(), "rlm ingest limit exceeded: 11 bytes (cap 10)");
    assert!(store.get("b").is_none());
    store.load_file("b", b"1234".to_vec(), "b").unwrap();
    assert!(store.load_file("c", b"1".to_vec(), "c").is_err());
    store.load_file("c", Vec::new(), "c").unwrap();
}

#[test]
fn a_context_is_read_back_under_its_name() {
    let mut store = RlmStore::new();
    store.load_file("one.txt", b"first".to_vec(), "n").unwrap();
    store.load_file("other.txt", b"other".to_vec(), "m").unwrap();
    store.load_file("two.txt", b"second".to_vec(), "n").unwrap();
    assert_eq!(store.get("n").unwrap().source, "two.txt");
    assert_eq!(store.get("m").unwrap().source, "other.txt");
    assert!(store.get("k").is_none());
}

#[test]
fn contexts_are_listed_by_name() {
    let mut store = RlmStore::default();
    for name in ["b", "a", "Z", "aa"] {
        store.load_file("f", b"four".to_vec(), name).unwrap();
    }
    let names: Vec<String> = store.list_contexts().into_iter().map(|s| s.name).collect();
    assert_eq!(names, vec!["Z", "a", "aa", "b"]);
}

#[test]
fn memory_keys_are_listed_in_order_and_values_replaced() {
    let mut store = RlmStore::new();
    store.store_memory("b".to_string(), Value::from(1));
    store.store_memory("a".to_string(), Value::from(2));
    store.store_memory("b".to_string(), Value::from(3));
    assert_eq!(store.list_memory_keys(), vec!["a".to_string(), "b".to_string()]);
    assert_eq!(*store.retrieve_memory("b").unwrap(), Value::from(3));
    assert_eq!(*store.retrieve_memory("a").unwrap(), Value::from(2));
    assert!(store.retrieve_memory("c").is_none());
}

#[test]
fn the_depth_cap_can_be_set() {
    assert_eq!(RlmStore::new().max_depth(), DEFAULT_MAX_DEPTH);
    assert_eq!(RlmStore::new().with_max_depth(5).max_depth(), 5);
}

#[test]
fn a_summary_counts_characters_tokens_and_chunks() {
    let ctx = loaded("# Ä\nabc\n# B\nde\n", "doc");
    let s = ctx.summary();
    assert_eq!(s.name, "doc");
    assert_eq!(s.source, "some/path.md");
    assert_eq!(s.total_chars, 15);
    // Nine bytes and seven bytes.
    assert_eq!(s.total_tokens, 3 + 2);
    assert_eq!(s.n_chunks, 2);
}

#[test]
fn an_empty_text_has_no_chunks_and_no_hits() {
    let ctx = loaded(" \n\n", "doc");
    assert_eq!(ctx.summary().n_chunks, 0);
    assert!(ctx.search("x", 3, SearchMode::Bm25).is_empty());
    assert!(ctx.search("x", 3, SearchMode::Substring).is_empty());
    assert!(ctx.search("x", 3, SearchMode::Regex).is_empty());
}

#[test]
fn a_directory_is_one_text_with_headers() {
    let files = vec![file("a.md", Some("md"), b"alpha\n"), file("b.txt", Some("txt"), b"beta\n")];
    let mut store = RlmStore::new();
    let ctx = store.load_directory("dir", files, "repo").unwrap();
    let whole = "\n\n===== dir/a.md =====\nalpha\n\n\n===== dir/b.txt =====\nbeta\n";
    let all = ctx.get_chunk_by_range(0, whole.len(), 1000).unwrap();
    assert_eq!(all.text, whole);
    assert!(!all.truncated);
    assert!(ctx.get_chunk_by_range(0, whole.len() + 1, 1000).is_none());
    assert_eq!(ctx.chunks[0].id, "repo:0000");
    assert_eq!(ctx.chunks[1].id, "repo:0001");
    assert_eq!(ctx.chunks[1].source_file.as_deref(), Some("dir/b.txt"));
    assert_eq!(ctx.get_chunk_by_id("repo:0001", 100).unwrap().text, "beta\n");
}

#[test]
fn a_directory_without_text_is_refused() {
    let mut store = RlmStore::new();
    let err = store
        .load_directory("dir", vec![file("a.zip", Some("zip"), b"x")], "repo")
        .unwrap_err();
    assert_eq!(err.message(), "no readable text files found under dir");
    let err = store
        .load_directory("dir", vec![file("a.txt", Some("txt"), &[0xff])], "repo")
        .unwrap_err();
    assert!(matches!(err, LoadError::NoTextFiles { .. }));
}

#[test]
fn a_directory_over_the_cap_is_refused_and_stays_charged() {
    let mut store = RlmStore::with_max_bytes(10);
    let files = vec![file("a", None, b"123456"), file("b", None, b"12345"), file("c", None, b"1")];
    let err = store.load_directory("dir", files, "repo").unwrap_err();
    assert_eq!(err.message(), "rlm ingest limit exceeded: 11 bytes (cap 10)");
    assert!(store.get("repo").is_none());
    // The first file was counted.
    assert!(store.load_file("x", b"12345".to_vec(), "x").is_err());
    assert!(store.load_file("x", b"1234".to_vec(), "x").is_ok());
}

#[test]
fn a_directory_can_be_gathered_file_by_file() {
    let mut store = RlmStore::with_max_bytes(20);
    let mut load = Gathered::new("repo");
    assert!(store.add_contents(&mut load, "dir/a", b"alpha\n").unwrap());
    assert!(!store.add_contents(&mut load, "dir/b", &[0xff]).unwrap());
    assert!(!store.add_file(&mut load, &file("c.png", Some("png"), b"x")).unwrap());
    assert!(store.add_contents(&mut load, "dir/d", &[b'x'; 15]).is_err());
    assert_eq!(load.file_count(), 1);
    let ctx = store.finish_directory(load, "dir").unwrap();
    assert_eq!(ctx.summary().n_chunks, 1);
    assert_eq!(ctx.total_chars, "\n\n===== dir/a =====\nalpha\n".len());
    let err = store.finish_directory(Gathered::new("none"), "dir").unwrap_err();
    assert_eq!(err.message(), "no readable text files found under dir");
}

#[test]
fn a_large_file_must_look_like_text() {
    let mut binary = vec![1u8; 8192];
    binary.resize(1_000_001, b'a');
    let mut text = vec![b'a'; 8192];
    text.resize(1_000_001, 1u8);
    let mut store = RlmStore::new();
    assert!(store.load_directory("d", vec![file("x", None, &binary)], "n").is_err());
    binary.truncate(1_000_000);
    assert!(store.load_directory("d", vec![file("x", None, &binary)], "n").is_ok());
    assert!(store.load_directory("d", vec![file("x", None, &text)], "n").is_ok());
}

#[test]
fn substring_hits_are_counted_ordered_and_cut() {
    let ctx = loaded("# a\nfoo\n# b\nFOO foo\n# c\nbar\n# d\nfoo foo foo\n", "doc");
    let hits = ctx.search("Foo", 2, SearchMode::Substring);
    let ids: Vec<&str> = hits.iter().map(|h| h.chunk_id.as_str()).collect();
    assert_eq!(ids, vec!["doc:0003", "doc:0001"]);
    assert_eq!(hits[0].score, Score::Matches(3));
    assert_eq!(hits[1].section_path.as_deref(), Some("b"));
    assert!(ctx.search("", 5, SearchMode::Substring).is_empty());
    assert!(ctx.search("foo", 0, SearchMode::Substring).is_empty());
    assert_eq!(ctx.search("foo", 9, SearchMode::Substring).len(), 3);
}

#[test]
fn the_top_match_wins_wherever_it_stands() {
    let text = "# a\nx\n# b\nx\n# c\nx\n# d\nx\n# e\nx x\n";
    let ctx = build_context(
        "doc".to_string(),
        "s".to_string(),
        text.to_string(),
        chunk_text(text, "doc", None),
    );
    for mode in [SearchMode::Substring, SearchMode::Regex] {
        let hits = ctx.search("x", 1, mode);
        assert_eq!(hits.len(), 1);
        assert_eq!(hits[0].chunk_id, "doc:0004");
        assert_eq!(hits[0].score, Score::Matches(2));
        // Those with one score keep their order.
        let ids: Vec<String> = ctx.search("x", 3, mode).into_iter().map(|h| h.chunk_id).collect();
        assert_eq!(ids, vec!["doc:0004", "doc:0000", "doc:0001"]);
    }
}

#[test]
fn no_preview_is_the_whole_chunk() {
    let long = format!("# long\n{}needle{}\n", "a ".repeat(400), " b".repeat(400));
    let text = format!("needle\n# s\nneedle\n# t\nthe needle is here\n{long}# end\nneedle");
    let ctx = loaded(&text, "doc");
    for mode in [SearchMode::Bm25, SearchMode::Substring, SearchMode::Regex] {
        let hits = ctx.search("needle", 10, mode);
        assert_eq!(hits.len(), 5);
        for hit in &hits {
            let chunk = ctx.get_chunk_by_id(&hit.chunk_id, 100_000).unwrap();
            assert!(!chunk.truncated);
            assert_ne!(hit.preview, chunk.text);
            if mode != SearchMode::Bm25 {
                assert!(hit.preview.contains("needle"));
                assert!(hit.preview.chars().count() <= 6 + 200 + 9);
            }
        }
    }
    // A match that is the whole chunk.
    let ctx = loaded("needle", "doc");
    assert_eq!(ctx.search("n.*e", 1, SearchMode::Regex)[0].preview, "needle…");
    assert_eq!(ctx.search("needle", 1, SearchMode::Bm25)[0].preview, "needl");
}

#[test]
fn hits_name_every_chunk_once() {
    let ctx = loaded("# a\nx x x\n# b\nx x\n# c\nX\n", "doc");
    for mode in [SearchMode::Bm25, SearchMode::Substring, SearchMode::Regex] {
        let hits = ctx.search("x", 10, mode);
        assert_eq!(hits.len(), 3);
        for (i, hit) in hits.iter().enumerate() {
            assert!(ctx.get_chunk_by_id(&hit.chunk_id, 1).is_some());
            assert!(hits[..i].iter().all(|h| h.chunk_id != hit.chunk_id));
        }
    }
}

#[test]
fn regex_hits_ignore_case_and_bad_patterns_give_none() {
    let ctx = loaded("# a\none two\n# b\nONE one\n", "doc");
    let hits = ctx.search("on[e]", 5, SearchMode::Regex);
    let ids: Vec<&str> = hits.iter().map(|h| h.chunk_id.as_str()).collect();
    assert_eq!(ids, vec!["doc:0001", "doc:0000"]);
    assert_eq!(hits[0].score, Score::Matches(2));
    assert!(ctx.search("(", 5, SearchMode::Regex).is_empty());
}

#[test]
fn relevance_hits_are_few_distinct_and_ordered() {
    let mut text = String::new();
    for i in 0..30 {
        text.push_str(&format!("# s{i}\npear {}\n", "plum ".repeat(i)));
    }
    let ctx = loaded(&text, "doc");
    let hits = ctx.search("pear", 7, SearchMode::Bm25);
    assert_eq!(hits.len(), 7);
    for pair in hits.windows(2) {
        match (pair[0].score, pair[1].score) {
            (Score::Relevance(a), Score::Relevance(b)) => {
                assert!(f32::from_bits(a) >= f32::from_bits(b))
            }
            _ => panic!("a relevance search gives relevance scores"),
        }
        assert_ne!(pair[0].chunk_id, pair[1].chunk_id);
    }
    assert!(ctx.search("pear", 0, SearchMode::Bm25).is_empty());
    assert!(ctx.search("quince", 5, SearchMode::Bm25).is_empty());
}

#[test]
fn hits_of_an_answer_follow_the_scores() {
    let ctx = loaded("# a\none\n# b\ntwo\n", "doc");
    let hits = ctx.hits_of_answer(&vec![(0, 1), (7, 9), (1, 5)], 3);
    let ids: Vec<&str> = hits.iter().map(|h| h.chunk_id.as_str()).collect();
    assert_eq!(ids, vec!["doc:0001", "doc:0000"]);
    assert_eq!(hits[0].preview, "# b\ntwo");
    assert_eq!(ctx.hits_of_answer(&vec![(0, 1), (1, 5)], 1).len(), 1);
}

#[test]
fn hits_of_given_matches() {
    let ctx = loaded("# a\none\n# b\ntwo\n", "doc");
    let hits = ctx.hits_of_spans(&vec![vec![(4, 5)], vec![(0, 1), (4, 7)]], 5);
    assert_eq!(hits[0].chunk_id, "doc:0001");
    assert_eq!(hits[0].score, Score::Matches(2));
    let low = vec!["# a\none\n".to_string(), "# b\ntwo\n".to_string()];
    let hits = ctx.hits_of_needle(&low, "w", 5);
    assert_eq!(hits.len(), 1);
    assert_eq!(hits[0].chunk_id, "doc:0001");
}

#[test]
fn a_chunk_is_cut_to_the_characters_asked_for() {
    let ctx = loaded("héllo wörld", "doc");
    let all = ctx.get_chunk_by_id("doc:0000", 11).unwrap();
    assert_eq!(all.text, "héllo wörld");
    assert!(!all.truncated);
    let some = ctx.get_chunk_by_id("doc:0000", 4).unwrap();
    assert_eq!(some.text, "héll");
    assert!(some.truncated);
    assert_eq!(some.total_chars, 11);
    assert!(ctx.get_chunk_by_id("doc:0001", 4).is_none());
}

#[test]
fn a_byte_range_must_lie_on_characters() {
    let ctx = loaded("héllo", "doc");
    let data = ctx.get_chunk_by_range(1, 3, 10).unwrap();
    assert_eq!(data.text, "é");
    assert_eq!(data.chunk_id, "doc:bytes:1-3");
    assert!(data.section_path.is_none());
    assert!(ctx.get_chunk_by_range(1, 2, 10).is_none());
    assert!(ctx.get_chunk_by_range(2, 2, 10).is_none());
    assert!(ctx.get_chunk_by_range(3, 1, 10).is_none());
    assert!(ctx.get_chunk_by_range(0, 7, 10).is_none());
}

#[test]
fn sections_share_one_budget() {
    let ctx = loaded("# Setup A\n1234\n# Other\nx\n# setup b\n5678\n# SETUP C\n9\n", "doc");
    let all = ctx.get_chunks_by_section("setup", 1000);
    assert_eq!(all.len(), 3);
    // The first chunk has 15 characters.
    let some = ctx.get_chunks_by_section("Setup", 20);
    assert_eq!(some.len(), 2);
    assert!(!some[0].truncated);
    assert_eq!(some[1].text, "# set");
    assert!(some[1].truncated);
    let none = ctx.get_chunks_by_section("setup", 0);
    assert_eq!(none.len(), 1);
    assert_eq!(none[0].text, "");
    assert!(ctx.get_chunks_by_section("zzz", 10).is_empty());
    let marked = ctx.read_marked(&vec![false, true, false, false], 100);
    assert_eq!(marked[0].text, "# Other\nx\n");
}
