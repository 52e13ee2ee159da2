use rlm::chunking::{chunk_text, chunk_text_with_offset, push_chunk};
use rlm::decimal::{decimal_string, four_digits};
use rlm::files::{is_likely_text, is_skipped, should_skip_path, FilePath};
use rlm::headings::split_on_headings;
use rlm::matching::{count_occurrences, find_from, is_before, sort_strings, str_contains, str_ends_with};
use rlm::preview::{preview_match, preview_window, write_opening};
use rlm::text::{snap_down, snap_up, str_eq, take_chars};
use rlm::white::{is_blank, is_white_space};

fn path(name: &str, extension: Option<&str>) -> FilePath {
    FilePath {
        display: name.to_string(),
        file_name: Some(name.to_string()),
        extension: extension.map(|e| e.to_string()),
    }
}

#[test]
fn white_space_is_that_of_the_standard_library() {
    for c in '\0'..=char::MAX {
        assert_eq!(is_white_space(c), c.is_whitespace(), "{:?}", c);
    }
    assert!(is_blank(" \t\n\u{3000}"));
    assert!(is_blank(""));
    assert!(!is_blank(" x "));
}

#[test]
fn headings_split_a_text() {
    let text = "intro\n# One\nbody\n  ## Two  \nmore\n";
    let sections = split_on_headings(text);
    assert_eq!(
        sections,
        vec![
            (None, "intro\n"),
            (Some("One".to_string()), "# One\nbody\n"),
            (Some("Two".to_string()), "  ## Two  \nmore\n"),
        ]
    );
    let joined: String = sections.iter().map(|s| s.1).collect();
    assert_eq!(joined, text);
}

#[test]
fn what_is_and_is_not_a_heading() {
    assert_eq!(split_on_headings("###### six\n")[0].0.as_deref(), Some("six"));
    assert_eq!(split_on_headings("####### seven\n")[0].0, None);
    assert_eq!(split_on_headings("#none\n")[0].0, None);
    assert_eq!(split_on_headings("#\tnone\n")[0].0, None);
    assert_eq!(split_on_headings("# \n")[0].0.as_deref(), Some(""));
    assert_eq!(split_on_headings(""), vec![(None, "")]);
    assert_eq!(split_on_headings("a\n#\n# b").len(), 2);
}

#[test]
fn short_sections_become_one_chunk_each() {
    let chunks = chunk_text("# A\nx\n\n# B\ny", "doc", Some("f.md".to_string()));
    assert_eq!(chunks.len(), 2);
    assert_eq!(chunks[0].id, "doc:0000");
    assert_eq!(chunks[0].byte_range, (0, 7));
    assert_eq!(chunks[0].token_count, 2);
    assert_eq!(chunks[1].byte_range, (7, 12));
    assert_eq!(chunks[1].section_path.as_deref(), Some("B"));
    assert_eq!(chunks[1].source_file.as_deref(), Some("f.md"));
    assert!(chunk_text("\n \n", "doc", None).is_empty());
}

#[test]
fn a_long_section_becomes_windows_that_overlap() {
    let text = "a".repeat(20_000);
    let chunks = chunk_text_with_offset(&text, "doc", None, 100, 7);
    let ranges: Vec<(usize, usize)> = chunks.iter().map(|c| c.byte_range).collect();
    assert_eq!(ranges, vec![(100, 8100), (7300, 15300), (14500, 20100)]);
    assert_eq!(chunks[0].id, "doc:0007");
    assert_eq!(chunks[2].id, "doc:0009");
    assert_eq!(chunks[0].token_count, 2000);
    assert_eq!(chunks[2].token_count, 1400);
    assert_eq!(chunk_text(&"a".repeat(8000), "doc", None).len(), 1);
    assert_eq!(chunk_text(&"a".repeat(8001), "doc", None).len(), 2);
}

#[test]
fn windows_end_between_characters() {
    let text = "é€".repeat(2000);
    let chunks = chunk_text(&text, "doc", None);
    for c in &chunks {
        assert!(text.is_char_boundary(c.byte_range.0));
        assert!(text.is_char_boundary(c.byte_range.1));
        assert!(c.byte_range.1 - c.byte_range.0 <= 8000);
    }
    assert_eq!(chunks[0].byte_range, (0, 8000));
    assert_eq!(chunks[1].byte_range, (7200, 10000));
    let text = format!("x{}", "€".repeat(3000));
    let chunks = chunk_text(&text, "doc", None);
    assert_eq!(chunks[0].byte_range, (0, 7999));
    assert_eq!(chunks[1].byte_range, (7198, 9001));
}

#[test]
fn blank_chunks_are_not_pushed() {
    let mut chunks = Vec::new();
    push_chunk(&mut chunks, "n", 12_345, None, None, 3, 8, "12345");
    push_chunk(&mut chunks, "n", 12_345, None, None, 8, 9, "\n");
    push_chunk(&mut chunks, "n", 12_345, None, Some("s".to_string()), 9, 13, "1234");
    assert_eq!(chunks.len(), 2);
    assert_eq!(chunks[0].id, "n:12345");
    assert_eq!(chunks[0].byte_range, (3, 8));
    assert_eq!(chunks[0].token_count, 2);
    assert_eq!(chunks[1].id, "n:12346");
    assert_eq!(chunks[1].token_count, 1);
    assert_eq!(chunks[1].clone().section_path.as_deref(), Some("s"));
}

#[test]
fn numbers_are_written_in_decimal() {
    assert_eq!(decimal_string(0), "0");
    assert_eq!(decimal_string(u64::MAX), "18446744073709551615");
    assert_eq!(four_digits(7), "0007");
    assert_eq!(four_digits(12_345), "12345");
}

#[test]
fn previews_show_the_match_in_its_surroundings() {
    assert_eq!(preview_window("short text", 6, 4, 200), "short text");
    let text = format!("{}needle{}", "a".repeat(300), "b".repeat(300));
    assert_eq!(
        preview_window(&text, 300, 6, 200),
        format!("…{}needle{}…", "a".repeat(100), "b".repeat(100))
    );
    // The window is widened to whole characters.
    assert_eq!(preview_window("ééxéé", 4, 1, 2), "…éxé…");
    // A place behind the end is moved to the end.
    assert_eq!(preview_window("abc", 300, 5, 200), "…");
}

#[test]
fn a_match_is_previewed_without_showing_the_whole_text() {
    assert_eq!(preview_match("short text", 0, 5, 200), "short tex");
    // The match reaches into the last character, or into the first as well.
    assert_eq!(preview_match("short text", 6, 4, 200), "hort text");
    assert_eq!(preview_match("short text", 0, 10, 200), "short text…");
    assert_eq!(preview_match("é", 0, 2, 200), "é…");
    assert_eq!(preview_match("é", 0, 0, 200), "");
    // A place behind the end keeps nothing in.
    assert_eq!(preview_match("abc", 50, 5, 200), "ab");
    assert_eq!(preview_match("", 0, 0, 200), "…");
    let text = format!("{}needle{}", "a".repeat(300), "b".repeat(300));
    assert_eq!(preview_match(&text, 300, 6, 200), preview_window(&text, 300, 6, 200));
    // What is left out can look like an ellipsis.
    let text = format!("…{}n", "a".repeat(100));
    assert_eq!(preview_window(&text, 103, 1, 200), text);
    assert_eq!(preview_match(&text, 103, 1, 200), format!("{}n", "a".repeat(100)));
}

#[test]
fn an_opening_is_never_the_whole_text() {
    assert_eq!(write_opening("héllo", 3), "hél");
    assert_eq!(write_opening("héllo", 5), "héll");
    assert_eq!(write_opening("héllo", 9), "héll");
    assert_eq!(write_opening("x", 9), "");
    assert_eq!(write_opening("", 9), "");
}

#[test]
fn skipping_goes_by_extension_and_by_name() {
    assert!(should_skip_path(&path("a.PNG", Some("PNG"))));
    assert!(should_skip_path(&path("app.min.js", Some("js"))));
    assert!(should_skip_path(&path("Cargo.lock", Some("lock"))));
    assert!(!should_skip_path(&path("app.js", Some("js"))));
    assert!(!should_skip_path(&path("minXjs", None)));
    assert!(!should_skip_path(&path("png", None)));
    // A name that is all extension has none of its own.
    assert!(should_skip_path(&path(".png", None)));
    assert!(is_skipped(Some("tgz"), None));
    assert!(!is_skipped(Some("TGZ"), None));
    assert!(!is_skipped(None, None));
}

#[test]
fn likely_text_has_few_control_bytes() {
    assert!(is_likely_text(b""));
    assert!(is_likely_text(b"plain\ttext\r\n\x1b[0m"));
    let mut sample = vec![b'a'; 96];
    sample.extend_from_slice(&[0, 1, 2, 3]);
    assert!(is_likely_text(&sample));
    sample[0] = 0x0e;
    assert!(!is_likely_text(&sample));
    assert!(!is_likely_text(&[0x1f]));
    assert!(is_likely_text(&[0x7f, 0xff]));
}

#[test]
fn finding_and_counting() {
    assert_eq!(find_from(b"abcabc", b"bc", 2), Some(4));
    assert_eq!(find_from(b"abc", b"bc", 2), None);
    assert_eq!(find_from(b"abc", b"", 3), Some(3));
    assert_eq!(find_from(b"abc", b"", 4), None);
    assert_eq!(count_occurrences(b"aaaa", b"aa"), 2);
    assert!(str_contains("häagen", "äa"));
    assert!(!str_contains("abc", "abcd"));
    assert!(str_ends_with("name.min.js", ".js"));
    assert!(!str_ends_with("js", ".js"));
}

#[test]
fn texts_are_ordered_by_their_bytes() {
    assert!(is_before("Z", "a"));
    assert!(is_before("a", "aa"));
    assert!(is_before("z", "é"));
    assert!(!is_before("a", "a"));
    let v = sort_strings(vec!["b".to_string(), "é".to_string(), "a".to_string()]);
    assert_eq!(v, vec!["a", "b", "é"]);
}

#[test]
fn cutting_text_at_characters() {
    assert_eq!(snap_down("a€b", 3), 1);
    assert_eq!(snap_down("a€b", 99), 5);
    assert_eq!(snap_up("a€b", 2), 4);
    assert_eq!(take_chars("a€b", 2), "a€");
    assert_eq!(take_chars("a€b", 9), "a€b");
    assert!(str_eq("a€b", "a€b"));
    assert!(!str_eq("a€b", "a€"));
}
