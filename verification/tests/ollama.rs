use render3d::llm::arch::{ArchFamily, ArchSpec};
use render3d::llm::ollama::{
    chunk_size, dispatch_ndjson, drain_response, generate_payload, graph_name, http_get_request,
    http_post_request, is_header_end, models_from_listing, models_from_tags, numeric_metadata, spec_from_listing, parse_headers, read_chunked, show_payload,
    spec_from_show, split_chunk, status_of_line, stream_chunk, stream_chunked_ndjson, stream_end,
    stream_plain_ndjson, OllamaEvent, ReplyError, ResponseError, WireError,
};

fn tok(s: &str) -> OllamaEvent {
    OllamaEvent::Token(s.to_string())
}

#[test]
fn status_line_and_headers_are_read() {
    assert_eq!(status_of_line("HTTP/1.1 200 OK\r\n"), 200);
    assert_eq!(status_of_line("HTTP/1.1 404 Not Found"), 404);
    assert_eq!(status_of_line("garbage"), 0);
    assert_eq!(status_of_line("HTTP/1.1 99999 Huge"), 0);
    let headers = vec!["Content-Type: application/json\r\n".to_string(), "TRANSFER-ENCODING: Chunked\r\n".to_string()];
    assert_eq!(parse_headers("HTTP/1.1 200 OK", &headers), (200, true));
    assert_eq!(parse_headers("HTTP/1.1 500 Oops", &headers[..1]), (500, false));
    assert!(is_header_end("\r\n"));
    assert!(!is_header_end("Host: x\r\n"));
}

#[test]
fn chunk_sizes_are_hexadecimal() {
    assert_eq!(chunk_size("1a\r\n"), 26);
    assert_eq!(chunk_size("FF;name=value\r\n"), 255);
    assert_eq!(chunk_size("0\r\n"), 0);
    assert_eq!(chunk_size("zz\r\n"), 0);
}

#[test]
fn chunked_bodies_are_reassembled() {
    assert_eq!(read_chunked(b"5\r\nhello\r\n6\r\n world\r\n0\r\n\r\n").unwrap(), "hello world");
    assert_eq!(read_chunked(b"").unwrap(), "");
    assert_eq!(read_chunked(b"a\r\nshort"), Err(WireError::Truncated));
}

#[test]
fn responses_are_drained_by_status_and_encoding() {
    let chunked = vec!["Transfer-Encoding: chunked\r\n".to_string()];
    assert_eq!(drain_response("HTTP/1.1 200 OK", &chunked, b"3\r\nabc\r\n0\r\n\r\n").unwrap(), "abc");
    assert_eq!(drain_response("HTTP/1.1 200 OK", &[], b"plain body").unwrap(), "plain body");
    assert_eq!(
        drain_response("HTTP/1.1 200 OK", &[], &[0xff, 0xfe]),
        Err(ResponseError::Wire(WireError::InvalidText))
    );
    let err = drain_response("HTTP/1.1 404 Not Found", &[], b"model not found").unwrap_err();
    assert_eq!(err, ResponseError::Status(404, "model not found".to_string()));
    assert_eq!(err.message(), "Ollama HTTP 404: model not found");
    let long = "x".repeat(500);
    match drain_response("HTTP/1.1 500 Oops", &[], long.as_bytes()) {
        Err(ResponseError::Status(500, text)) => assert_eq!(text.len(), 300),
        other => panic!("unexpected {:?}", other),
    }
}

#[test]
fn reply_lines_become_events() {
    assert_eq!(dispatch_ndjson("{\"response\":\"hi\",\"done\":false}"), vec![tok("hi")]);
    assert_eq!(dispatch_ndjson("{\"response\":\"\",\"done\":true}"), vec![OllamaEvent::Done]);
    assert_eq!(dispatch_ndjson("{\"response\":\"!\",\"done\":true}"), vec![tok("!"), OllamaEvent::Done]);
    assert!(dispatch_ndjson("not json").is_empty());
    assert!(dispatch_ndjson("").is_empty());
}

#[test]
fn plain_streams_trim_every_line() {
    let lines = vec!["  {\"response\":\"a\"}\n".to_string(), "\n".to_string(), "{\"done\":true}\r\n".to_string()];
    assert_eq!(stream_plain_ndjson(&lines), vec![tok("a"), OllamaEvent::Done]);
}

#[test]
fn chunk_splitting_carries_incomplete_lines() {
    let (lines, carry) = split_chunk("{\"resp", "onse\":\"a\"}\n{\"response\":");
    assert_eq!(lines, vec!["{\"response\":\"a\"}".to_string()]);
    assert_eq!(carry, "{\"response\":");
    let (lines, carry) = split_chunk("", "{\"done\":true}  ");
    assert_eq!(lines, vec!["{\"done\":true}".to_string()]);
    assert_eq!(carry, "");
}

#[test]
fn chunked_streams_join_fragments_across_chunks() {
    let chunks = vec![
        b"{\"response\":\"a\"}\n{\"resp".to_vec(),
        b"onse\":\"b\",\"done\":true}".to_vec(),
    ];
    assert_eq!(stream_chunked_ndjson(&chunks), vec![tok("a"), tok("b"), OllamaEvent::Done]);
    let (events, carry) = stream_chunk("", b"{\"response\":\"c\"");
    assert!(events.is_empty());
    assert_eq!(carry, "{\"response\":\"c\"");
    assert!(stream_end(&carry).is_empty());
    assert_eq!(stream_end(" {\"response\":\"d\"} "), vec![tok("d")]);
}

#[test]
fn tag_listings_become_models() {
    let body = "{\"models\":[{\"name\":\"llama3:8b\",\"size\":123,\"details\":{\"family\":\"llama\",\"parameter_size\":\"8B\"}},{}]}";
    let models = models_from_tags(body).unwrap();
    assert_eq!(models.len(), 2);
    assert_eq!(models[0].name, "llama3:8b");
    assert_eq!(models[0].size_bytes, 123);
    assert_eq!(models[0].family, "llama");
    assert_eq!(models[0].parameter_size, "8B");
    assert_eq!(models[1].name, "?");
    assert_eq!(models[1].size_bytes, 0);
    assert_eq!(models[1].family, "");
    assert_eq!(models[1].parameter_size, "?");
    assert_eq!(models_from_tags("{\"other\":1}").unwrap_err(), ReplyError::NoModels);
    assert_eq!(models_from_tags("nope").unwrap_err(), ReplyError::InvalidJson);
}

#[test]
fn show_replies_describe_the_architecture() {
    let body = "{\"model_info\":{\"general.architecture\":\"llama\",\"llama.block_count\":2,\"llama.embedding_length\":128},\"details\":{\"family\":\"llama\"}}";
    let spec = spec_from_show("my-model", body).unwrap();
    assert_eq!(spec.family, ArchFamily::Llama);
    assert_eq!(spec.n_layers, 2);
    assert_eq!(spec.hidden_size, 128);
    // Without an architecture or family the string "llama" decides.
    let empty = spec_from_show("mistral-7b", "{\"details\":{}}").unwrap();
    assert_eq!(empty, ArchSpec::default_for(ArchFamily::Llama));
    let fam = spec_from_show("x", "{\"details\":{\"family\":\"gemma\"}}").unwrap();
    assert_eq!(fam, ArchSpec::default_for(ArchFamily::Gemma));
    assert_eq!(spec_from_show("m", "][").unwrap_err(), ReplyError::InvalidJson);
}

#[test]
fn request_texts_are_exact() {
    assert_eq!(
        http_get_request("/api/tags"),
        "GET /api/tags HTTP/1.1\r\nHost: 127.0.0.1:11434\r\nConnection: close\r\n\r\n"
    );
    assert_eq!(
        http_post_request("/api/show", "{\"é\":1}"),
        "POST /api/show HTTP/1.1\r\nHost: 127.0.0.1:11434\r\nContent-Type: application/json\r\nContent-Length: 8\r\nConnection: close\r\n\r\n{\"é\":1}"
    );
    assert_eq!(show_payload("m"), "{\"name\":\"m\"}");
    assert_eq!(
        generate_payload("m", "say \"hi\""),
        "{\"model\":\"m\",\"prompt\":\"say \\\"hi\\\"\",\"stream\":true}"
    );
    assert_eq!(graph_name("llama3"), "llama3 (Ollama)");
}

#[test]
fn numeric_model_info_members_are_kept_in_order() {
    assert!(numeric_metadata(None).is_empty());
    let members = vec![
        ("a".to_string(), Some(3u64)),
        ("b".to_string(), None),
        ("c".to_string(), Some(0)),
    ];
    assert_eq!(numeric_metadata(Some(members)), vec![("a".to_string(), 3), ("c".to_string(), 0)]);
}

#[test]
fn payload_strings_are_quoted_as_serde_json_quotes_them() {
    let name = "a\"b\\c\n\t\r\u{8}\u{c}\u{1}\u{1f} é\u{7f}";
    let expected = format!("{{\"name\":{}}}", serde_json::to_string(name).unwrap());
    assert_eq!(show_payload(name), expected);
    assert_eq!(show_payload("x\u{1}"), "{\"name\":\"x\\u0001\"}");
}

#[test]
fn parsed_listings_fill_in_missing_fields() {
    let listing = Some(Some(vec![
        (Some("llama3:8b".to_string()), Some(42), Some("llama".to_string()), Some("8B".to_string())),
        (None, None, None, None),
    ]));
    let models = models_from_listing(listing).unwrap();
    assert_eq!(models.len(), 2);
    assert_eq!(models[0].name, "llama3:8b");
    assert_eq!(models[0].size_bytes, 42);
    assert_eq!(models[1].name, "?");
    assert_eq!(models[1].size_bytes, 0);
    assert_eq!(models[1].family, "");
    assert_eq!(models[1].parameter_size, "?");
    assert_eq!(models_from_listing(None).unwrap_err(), ReplyError::InvalidJson);
    assert_eq!(models_from_listing(Some(None)).unwrap_err(), ReplyError::NoModels);
}

#[test]
fn parsed_show_reply_without_numbers_uses_family_defaults() {
    let spec = spec_from_listing("mistral-7b", Some((None, Some("mistral".to_string()), None))).unwrap();
    assert_eq!(spec, ArchSpec::default_for(ArchFamily::Mistral));
    let members = vec![("llama.block_count".to_string(), Some(2)), ("llama.embedding_length".to_string(), Some(128))];
    let spec = spec_from_listing("x", Some((Some("llama".to_string()), None, Some(members)))).unwrap();
    assert_eq!(spec.n_layers, 2);
    assert_eq!(spec.hidden_size, 128);
    assert_eq!(spec_from_listing("x", None).unwrap_err(), ReplyError::InvalidJson);
}
