use gigatoken_addon::pretok::{
    count_body, count_result, escape_json_string, parse_input_tokens, parse_response,
    render_body, render_parts, render_request, stop_reading, user_message, Msg, Part,
};

#[test]
fn escapes_json_specials() {
    assert_eq!(escape_json_string("a\"b\\c\nd\re\tf"), "a\\\"b\\\\c\\nd\\re\\tf");
    assert_eq!(escape_json_string("héllo ☃"), "héllo ☃");
    assert_eq!(escape_json_string(""), "");
}

#[test]
fn lone_token_run_is_a_plain_array() {
    let mut out = String::from("x");
    render_parts(&[Part::InputTokens(vec![1, 22, 333])], &mut out);
    assert_eq!(out, "x[1,22,333]");
    let mut out = String::new();
    render_parts(&[Part::InputTokens(vec![])], &mut out);
    assert_eq!(out, "[]");
}

#[test]
fn mixed_parts_use_part_objects() {
    let mut out = String::new();
    render_parts(&[Part::Text("Sum: \"x\"".to_string()), Part::InputTokens(vec![9419, 11])], &mut out);
    assert_eq!(
        out,
        "[{\"type\":\"text\",\"text\":\"Sum: \\\"x\\\"\"},{\"type\":\"input_tokens\",\"tokens\":[9419,11]}]"
    );
    let mut out = String::new();
    render_parts(&[], &mut out);
    assert_eq!(out, "[]");
    let mut out = String::new();
    render_parts(&[Part::Text("hi".to_string())], &mut out);
    assert_eq!(out, "[{\"type\":\"text\",\"text\":\"hi\"}]");
}

#[test]
fn renders_full_body() {
    let msgs = vec![
        Msg { role: "system".to_string(), parts: vec![Part::Text("be brief".to_string())] },
        Msg { role: "user".to_string(), parts: vec![Part::InputTokens(vec![1, 2])] },
    ];
    let body = render_body("m\"1", &msgs, 32, "0", false);
    assert_eq!(
        body,
        "{\"model\":\"m\\\"1\",\"messages\":[{\"role\":\"system\",\"content\":[{\"type\":\"text\",\"text\":\"be brief\"}]},{\"role\":\"user\",\"content\":[1,2]}],\"max_tokens\":32,\"temperature\":0,\"stream\":false}"
    );
    let body = render_body("m", &[], 0, "0.7", true);
    assert_eq!(body, "{\"model\":\"m\",\"messages\":[],\"max_tokens\":0,\"temperature\":0.7,\"stream\":true}");
}

#[test]
fn renders_count_body() {
    assert_eq!(count_body("m", &[5, 6]), "{\"model\":\"m\",\"input_tokens\":[5,6]}");
    assert_eq!(count_body("m", &[]), "{\"model\":\"m\",\"input_tokens\":[]}");
}

#[test]
fn renders_http_request() {
    let req = render_request("/v1/chat_pretokenized", "127.0.0.1", 6464, "{\"é\":1}");
    assert_eq!(
        req,
        "POST /v1/chat_pretokenized HTTP/1.1\r\nHost: 127.0.0.1:6464\r\nContent-Type: application/json\r\nAuthorization: Bearer local-keyless\r\nConnection: close\r\nContent-Length: 8\r\n\r\n{\"é\":1}"
    );
}

#[test]
fn user_message_carries_only_ids() {
    let m = user_message(vec![7, 8]);
    assert_eq!(m.role, "user");
    assert_eq!(m.parts.len(), 1);
    assert!(matches!(&m.parts[0], Part::InputTokens(ids) if ids == &vec![7, 8]));
    let body = render_body("m", &[m], 4, "0", false);
    assert_eq!(
        body,
        "{\"model\":\"m\",\"messages\":[{\"role\":\"user\",\"content\":[7,8]}],\"max_tokens\":4,\"temperature\":0,\"stream\":false}"
    );
}

#[test]
fn parses_status_and_body() {
    let (status, body) = parse_response(b"HTTP/1.1 200 OK\r\nContent-Length: 2\r\n\r\n{}");
    assert_eq!(status, 200);
    assert_eq!(body, "{}");
    let (status, body) = parse_response(b"HTTP/1.1 404 Not Found\r\n\r\n");
    assert_eq!(status, 404);
    assert_eq!(body, "");
}

#[test]
fn unparsable_status_is_zero() {
    assert_eq!(parse_response(b"garbage").0, 0);
    assert_eq!(parse_response(b"").0, 0);
    assert_eq!(parse_response(b"HTTP/1.1 70000 Big\r\n\r\n").0, 0);
    assert_eq!(parse_response(b"HTTP/1.1 -1 X\r\n\r\n").0, 0);
    assert_eq!(parse_response(b"HTTP/1.1 +201 Created\r\n\r\n").0, 201);
    assert_eq!(parse_response(b"HTTP/1.1\n200 OK\r\n\r\n").0, 0);
    assert_eq!(parse_response(b"  HTTP/1.1\t\t503").0, 503);
}

#[test]
fn response_without_blank_line_is_all_body() {
    let (_, body) = parse_response(b"HTTP/1.1 200 OK\r\npartial");
    assert_eq!(body, "HTTP/1.1 200 OK\r\npartial");
    let (_, body) = parse_response(b"HTTP/1.1 200 OK\r\n\r\nbad \xff byte");
    assert_eq!(body, "bad \u{fffd} byte");
}

#[test]
fn stops_reading_at_headers_without_a_body() {
    assert!(!stop_reading(b"HTTP/1.1 200 OK\r\n"));
    assert!(stop_reading(b"HTTP/1.1 204 No Content\r\n\r\n"));
    assert!(!stop_reading(b"HTTP/1.1 200 OK\r\nContent-Length: 5\r\n\r\n"));
    assert!(!stop_reading(b"HTTP/1.1 200 OK\r\nTRANSFER-ENCODING: Chunked\r\n\r\n"));
    assert!(stop_reading(b"HTTP/1.1 200 OK\r\nContent-Type: text/event-stream\r\nTransfer-Encoding: chunked\r\n\r\n"));
}

#[test]
fn reads_input_token_count() {
    assert_eq!(parse_input_tokens("{\"input_tokens\": 42, \"x\": 1}"), Some(42));
    assert_eq!(parse_input_tokens("{\"input_tokens\":\t7 }"), Some(7));
    assert_eq!(parse_input_tokens("{\"input_tokens\":+9}"), Some(9));
    assert_eq!(parse_input_tokens("{\"input_tokens\":18446744073709551615}"), Some(u64::MAX));
    assert_eq!(parse_input_tokens("{\"input_tokens\":18446744073709551616}"), None);
    assert_eq!(parse_input_tokens("{\"input_tokens\":\"3\"}"), None);
    assert_eq!(parse_input_tokens("{\"input_tokens\" 3}"), None);
    assert_eq!(parse_input_tokens("{\"tokens\":3}"), None);
    assert_eq!(parse_input_tokens("{\"input_tokens\":}"), None);
    assert_eq!(parse_input_tokens("{\"input_tokens\": 12"), Some(12));
}

#[test]
fn count_result_reports_other_statuses() {
    assert_eq!(count_result(200, "{\"input_tokens\":5}").ok(), Some(5));
    assert_eq!(count_result(200, "{}").ok(), Some(0));
    assert_eq!(count_result(500, "oops").err(), Some("count returned 500: oops".to_string()));
}

#[test]
fn rendered_counts_read_back() {
    for n in [0u64, 7, 1234567890, u64::MAX] {
        assert_eq!(parse_input_tokens(&format!("{{\"input_tokens\": {n}, \"x\": 1}}")), Some(n));
        assert_eq!(parse_input_tokens(&format!("{{\"input_tokens\":{n}}}")), Some(n));
    }
    assert_eq!(parse_input_tokens("{\"count\": 3}"), None);
}

#[test]
fn escaped_text_reads_back() {
    let s = "q\"b\\n\nr\rt\t/é";
    let lit = format!("\"{}\"", escape_json_string(s));
    // Decode the literal by its one-character escapes.
    let inner: Vec<char> = lit[1..lit.len() - 1].chars().collect();
    let mut out = String::new();
    let mut i = 0;
    while i < inner.len() {
        if inner[i] == '\\' {
            out.push(match inner[i + 1] {
                'n' => '\n',
                'r' => '\r',
                't' => '\t',
                c => c,
            });
            i += 2;
        } else {
            assert_ne!(inner[i], '"');
            out.push(inner[i]);
            i += 1;
        }
    }
    assert_eq!(out, s);
}
