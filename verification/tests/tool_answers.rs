use rlm::assembly::{append_capped, assemble_with_store, ContextRef, SubQueryParams};
use rlm::client::{
    answer_of_batch, answer_of_sub_query, answer_of_text, answer_of_value, batch_texts,
    default_get_chunk_max_chars, default_k, keys_of_text, leaf_answer, leaf_request, reply_of,
    BatchOutcome, Fetched, GetChunkParams, RlmClient, SearchParams,
};
use rlm::history::truncate_for_history;
use rlm::records::ChunkData;
use rlm::session::{name_session, new_session};
use rlm::store::RlmStore;
use rlm::tool_error::ToolError;
use rlm::tools::{find_tool, get_tools, ToolKind};
use serde_json::Value;

fn object(key: &str, value: Value) -> Value {
    let mut map = serde_json::Map::new();
    map.insert(key.to_string(), value);
    Value::Object(map)
}

fn client_with(text: &str) -> RlmClient {
    let mut store = RlmStore::new();
    store.load_file("doc.md", text.as_bytes().to_vec(), "doc").unwrap();
    RlmClient::new(store).unwrap()
}

fn search_params(context: &str, mode: Option<&str>) -> SearchParams {
    SearchParams {
        context: context.to_string(),
        query: "magic phrase".to_string(),
        k: 3,
        mode: mode.map(|m| m.to_string()),
    }
}

fn fetch_params(context: &str) -> GetChunkParams {
    GetChunkParams {
        context: context.to_string(),
        chunk_id: None,
        byte_range: None,
        section: None,
        max_chars: 4096,
    }
}

fn reference(context: &str) -> ContextRef {
    ContextRef { context: context.to_string(), chunk_ids: None, section: None, byte_range: None }
}

fn query(refs: Vec<ContextRef>) -> SubQueryParams {
    SubQueryParams { prompt: "hi".to_string(), context_refs: refs, inline_content: None }
}

fn chunk(text: &str, section: Option<&str>, source: Option<&str>) -> ChunkData {
    ChunkData {
        chunk_id: "c".to_string(),
        text: text.to_string(),
        truncated: false,
        total_chars: text.chars().count(),
        section_path: section.map(|s| s.to_string()),
        source_file: source.map(|s| s.to_string()),
    }
}

#[test]
fn list_contexts_after_load() {
    let client = client_with("# H\nhello apple banana\n");
    assert!(RlmClient::get_tools().iter().any(|t| t.name == "search"));
    assert_eq!(find_tool("list_contexts").unwrap(), ToolKind::ListContexts);
    let list = client.handle_list_contexts();
    assert_eq!(list.len(), 1);
    assert_eq!(list[0].name, "doc");
}

#[test]
fn search_and_get_chunk_round_trip() {
    let client = client_with(
        "# Intro\nhi\n# Secret\nthe magic phrase is BLUE_TOKEN_91 here\n# Outro\nbye\n",
    );
    let hits = client.handle_search(&search_params("doc", Some("bm25"))).unwrap();
    let mut p = fetch_params("doc");
    p.chunk_id = Some(hits[0].chunk_id.clone());
    match client.handle_get_chunk(&p).unwrap() {
        Fetched::One(data) => assert!(data.text.contains("BLUE_TOKEN_91")),
        Fetched::Many(_) => panic!("one chunk was asked for"),
    }
}

#[test]
fn store_retrieve_round_trip() {
    let mut client = RlmClient::new(RlmStore::new()).unwrap();
    let said = client.handle_store("finding".to_string(), object("n", Value::from(3)));
    assert_eq!(said, "stored: finding");
    let r = client.handle_retrieve("finding").unwrap();
    assert!(r.contains("\"n\":3"));
    assert_eq!(client.handle_list_keys(), "[\"finding\"]");
}

#[test]
fn sub_query_without_provider_errors_gracefully() {
    let client = RlmClient::new(RlmStore::new()).unwrap();
    let err = client.handle_sub_query(&query(Vec::new()), false).unwrap_err();
    assert!(err.answer().contains("no provider"));
    let err = client.handle_batch_sub_query(&Vec::new(), false).unwrap_err();
    assert_eq!(err.message(), "no provider configured for sub_query");
}

#[test]
fn defaults_of_the_parameters() {
    assert_eq!(default_k(), 10);
    assert_eq!(default_get_chunk_max_chars(), 8000);
}

#[test]
fn search_modes_by_name() {
    let client = client_with("# Secret\nthe magic phrase is here\n");
    assert_eq!(client.handle_search(&search_params("doc", None)).unwrap().len(), 1);
    assert_eq!(client.handle_search(&search_params("doc", Some("substring"))).unwrap().len(), 1);
    assert_eq!(client.handle_search(&search_params("doc", Some("regex"))).unwrap().len(), 1);
    // The mode is looked at before the context.
    let err = client.handle_search(&search_params("nope", Some("BM25"))).unwrap_err();
    assert_eq!(err.message(), "unknown search mode: BM25");
    let err = client.handle_search(&search_params("nope", None)).unwrap_err();
    assert_eq!(err.answer(), "Error: no such context: nope");
}

#[test]
fn fetching_takes_the_first_way_that_is_given() {
    let client = client_with("# A\none\n# B\ntwo\n");
    let mut p = fetch_params("doc");
    let err = client.handle_get_chunk(&p).unwrap_err();
    assert_eq!(err.message(), "must provide chunk_id, byte_range, or section");
    p.section = Some("b".to_string());
    match client.handle_get_chunk(&p).unwrap() {
        Fetched::Many(list) => assert_eq!(list[0].text, "# B\ntwo\n"),
        Fetched::One(_) => panic!("a heading gives a list"),
    }
    p.byte_range = Some([0, 3]);
    match client.handle_get_chunk(&p).unwrap() {
        Fetched::One(data) => assert_eq!(data.text, "# A"),
        Fetched::Many(_) => panic!("a range gives one"),
    }
    p.byte_range = Some([0, 99]);
    assert_eq!(client.handle_get_chunk(&p).unwrap_err().message(), "byte_range out of bounds");
    p.chunk_id = Some("doc:0007".to_string());
    assert_eq!(client.handle_get_chunk(&p).unwrap_err().message(), "chunk not found: doc:0007");
    p.chunk_id = Some("doc:0001".to_string());
    assert!(client.handle_get_chunk(&p).is_ok());
    assert_eq!(
        client.handle_get_chunk(&fetch_params("x")).unwrap_err().message(),
        "no such context: x"
    );
}

#[test]
fn a_missing_key_is_said_so() {
    let client = RlmClient::new(RlmStore::new()).unwrap();
    assert_eq!(client.handle_retrieve("k").unwrap_err().message(), "no such key: k");
    assert_eq!(client.handle_list_keys(), "[]");
}

#[test]
fn content_is_assembled_in_the_order_of_references() {
    let client = client_with("# A\none\n# B\ntwo\n");
    let mut by_id = reference("doc");
    by_id.chunk_ids =
        Some(vec!["doc:0001".to_string(), "doc:0009".to_string(), "doc:0000".to_string()]);
    by_id.section = Some("never used".to_string());
    let mut by_range = reference("doc");
    by_range.byte_range = Some([4, 7]);
    let mut by_section = reference("doc");
    by_section.section = Some("a".to_string());
    let mut p = query(vec![by_id, by_range, by_section, reference("doc")]);
    p.inline_content = Some("inline".to_string());
    let content = client.assemble_sub_query_content(&p).unwrap();
    assert_eq!(
        content,
        "\n--- B\n# B\ntwo\n\n--- A\n# A\none\n\n---\none\n--- A\n# A\none\n\n\ninline"
    );
    assert_eq!(assemble_with_store(client.store(), &p).unwrap(), content);
}

#[test]
fn the_first_missing_context_is_named() {
    let client = client_with("x");
    let p = query(vec![reference("doc"), reference("no"), reference("nor")]);
    assert_eq!(
        client.assemble_sub_query_content(&p).unwrap_err().message(),
        "no such context: no"
    );
}

#[test]
fn headers_say_where_a_slice_comes_from() {
    let mut buf = String::new();
    let mut total = 0;
    append_capped(&mut buf, &mut total, &chunk("w", Some("s"), Some("f")));
    append_capped(&mut buf, &mut total, &chunk("x", Some("s"), None));
    append_capped(&mut buf, &mut total, &chunk("y", None, Some("f")));
    append_capped(&mut buf, &mut total, &chunk("z", None, None));
    assert_eq!(buf, "\n--- f :: s\nw\n--- s\nx\n--- f\ny\n---\nz");
    assert_eq!(total, buf.chars().count());
}

#[test]
fn slices_stop_at_the_limit() {
    let mut buf = String::new();
    let mut total = 11_999;
    append_capped(&mut buf, &mut total, &chunk("äbc", None, None));
    assert_eq!(buf, "\n---\nä");
    assert_eq!(total, 12_005);
    append_capped(&mut buf, &mut total, &chunk("more", None, None));
    assert_eq!(buf, "\n---\nä");
    assert_eq!(total, 12_005);
}

#[test]
fn assembled_content_exceeds_the_limit_by_a_header_at_most() {
    let mut buf = String::new();
    let mut total = 0;
    for _ in 0..40 {
        append_capped(&mut buf, &mut total, &chunk(&"ab".repeat(400), None, None));
    }
    assert!(total >= 12_000);
    assert!(buf.chars().count() <= 12_000 + 5);
}

#[test]
fn long_answers_are_cut_for_the_history() {
    assert_eq!(truncate_for_history("é".repeat(2000)), "é".repeat(2000));
    let cut = truncate_for_history("é".repeat(2001));
    assert_eq!(
        cut,
        format!("{}\n\n[truncated for history: 2000 of 2001 chars shown]", "é".repeat(2000))
    );
    assert!(cut.chars().count() <= 2000 + 67);
}

#[test]
fn values_are_answered_as_json() {
    assert_eq!(answer_of_value(&object("a", Value::from("b"))), "{\"a\":\"b\"}");
    assert_eq!(answer_of_text(None), "");
    assert_eq!(answer_of_text(Some("x".to_string())), "x");
    assert_eq!(keys_of_text(None), "[]");
    assert_eq!(keys_of_text(Some("[1]".to_string())), "[1]");
}

#[test]
fn a_leaf_is_asked_about_its_content() {
    let r = leaf_request("do it", "");
    assert_eq!(r.user_text, "do it");
    assert!(r.system.starts_with("You are a focused sub-LLM"));
    assert!(r.session.starts_with("rlm-sub-"));
    let r = leaf_request("do it", "stuff");
    assert_eq!(r.user_text, "do it\n\n--- content ---\nstuff");
}

#[test]
fn sessions_have_names_of_their_own() {
    assert_eq!(name_session("x"), "rlm-sub-x");
    let a = new_session();
    let b = new_session();
    assert_ne!(a, b);
    let id: Vec<char> = a.strip_prefix("rlm-sub-").unwrap().chars().collect();
    assert_eq!(id.len(), 36);
    for (i, c) in id.iter().enumerate() {
        if [8, 13, 18, 23].contains(&i) {
            assert_eq!(*c, '-');
        } else {
            assert!(c.is_ascii_digit() || ('a'..='f').contains(c));
        }
    }
    assert_eq!(id[14], '4');
    assert!("89ab".contains(id[19]));
}

#[test]
fn replies_of_a_provider() {
    assert_eq!(leaf_answer(Ok("yes".to_string())).unwrap(), "yes");
    let err = leaf_answer(Err("down".to_string())).unwrap_err();
    assert_eq!(err.message(), "sub_query provider error: down");
    assert_eq!(answer_of_sub_query(Ok("a".repeat(2001))).unwrap().chars().count(), 2000 + 51);
    assert!(answer_of_sub_query(Err("down".to_string())).is_err());
}

#[test]
fn a_call_gives_back_an_answer_or_an_error() {
    let fine = reply_of(Ok("fine".to_string()));
    assert_eq!(fine.text, "fine");
    assert!(!fine.is_error);
    let refused = reply_of(Err(ToolError::RangeOutOfBounds));
    assert_eq!(refused.text, "Error: byte_range out of bounds");
    assert!(refused.is_error);
}

#[test]
fn a_batch_reports_every_outcome() {
    let outcomes = vec![
        BatchOutcome::Answered("ok".to_string()),
        BatchOutcome::Failed(ToolError::NoSuchContext("x".to_string())),
        BatchOutcome::NotJoined("panicked".to_string()),
    ];
    assert_eq!(
        batch_texts(&outcomes),
        vec!["ok", "[error] no such context: x", "[join error] panicked"]
    );
    assert_eq!(
        answer_of_batch(&outcomes),
        "[\n  \"ok\",\n  \"[error] no such context: x\",\n  \"[join error] panicked\"\n]"
    );
}

#[test]
fn a_batch_asks_what_it_can() {
    let client = client_with("# A\none\n");
    let mut by_id = reference("doc");
    by_id.chunk_ids = Some(vec!["doc:0000".to_string()]);
    let list = client
        .handle_batch_sub_query(&vec![query(vec![by_id]), query(vec![reference("no")])], true)
        .unwrap();
    assert_eq!(list.len(), 2);
    assert_eq!(
        list[0].as_ref().unwrap().user_text,
        "hi\n\n--- content ---\n\n--- A\n# A\none\n"
    );
    assert_eq!(list[1].as_ref().unwrap_err().message(), "no such context: no");
}

#[test]
fn every_tool_is_found_by_its_name() {
    let tools = get_tools();
    assert_eq!(tools.len(), 8);
    for tool in &tools {
        assert_eq!(find_tool(&tool.name).unwrap(), tool.kind);
        assert_eq!(tool.destructive, tool.name == "store");
        assert!(!tool.idempotent && !tool.open_world);
    }
    let read_only: Vec<&str> =
        tools.iter().filter(|t| t.read_only).map(|t| t.name.as_str()).collect();
    assert_eq!(
        read_only,
        vec!["list_contexts", "search", "get_chunk", "retrieve", "list_keys"]
    );
    assert_eq!(find_tool("finalize").unwrap_err().answer(), "Error: unknown tool: finalize");
    assert_eq!(
        ToolError::InvalidArguments("bad".to_string()).message(),
        "invalid arguments: bad"
    );
}

#[test]
fn the_client_says_what_it_is() {
    let mut client = RlmClient::new(RlmStore::new()).unwrap();
    assert_eq!(client.get_info().name, "rlm");
    assert_eq!(client.get_info().version, "1.0.0");
    assert_eq!(client.get_info().title, "Recursive Language Model");
    assert!(client.get_info().instructions.starts_with("You are operating in"));
    client.store_mut().load_file("f", b"x".to_vec(), "late").unwrap();
    assert!(client.store().get("late").is_some());
}
