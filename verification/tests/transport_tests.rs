use termchat::chat::{Event, Role};
use termchat::transport::{make_prompt, on_parse_header, status_ok, Headers, Session};

fn empty_headers() -> Headers {
    Headers { entries: Vec::new(), protocol: None, status: None, status_msg: None }
}

fn feed(session: &mut Session, chunks: &[&[u8]]) -> Vec<Event> {
    let mut events = Vec::new();
    for chunk in chunks {
        events.extend(session.push_chunk(chunk));
    }
    events
}

fn event_tags(events: &[Event]) -> Vec<String> {
    events
        .iter()
        .map(|e| match e {
            Event::Start(role) => format!("start:{}", role.value()),
            Event::Content(text) => format!("content:{}", text),
            Event::Done => String::from("done"),
        })
        .collect()
}

#[test]
fn header_lines_fill_the_mapping() {
    let mut headers = empty_headers();
    on_parse_header(b"HTTP/1.1 200 OK", &mut headers);
    assert_eq!(headers.protocol.as_deref(), Some(b"HTTP/1.1".as_slice()));
    assert_eq!(headers.status.as_deref(), Some(b"200".as_slice()));
    assert_eq!(headers.status_msg.as_deref(), Some(b"OK".as_slice()));
    on_parse_header(b"Content-Type: text/event-stream", &mut headers);
    assert_eq!(headers.entries.len(), 1);
    assert_eq!(headers.entries[0].0, b"Content-Type".to_vec());
    assert_eq!(headers.entries[0].1, b"text/event-stream".to_vec());
    assert!(status_ok(&headers));
}

#[test]
fn status_line_with_missing_tokens_is_not_success() {
    let mut headers = empty_headers();
    on_parse_header(b"HTTP/1.1", &mut headers);
    assert_eq!(headers.protocol.as_deref(), Some(b"HTTP/1.1".as_slice()));
    assert_eq!(headers.status, None);
    assert!(!status_ok(&headers));
    on_parse_header(b"HTTP/1.1 404", &mut headers);
    assert_eq!(headers.status.as_deref(), Some(b"404".as_slice()));
    assert_eq!(headers.status_msg, None);
    assert!(!status_ok(&headers));
}

#[test]
fn status_message_keeps_its_spaces() {
    let mut headers = empty_headers();
    on_parse_header(b"HTTP/1.1 429 Too Many Requests", &mut headers);
    assert_eq!(headers.status.as_deref(), Some(b"429".as_slice()));
    assert_eq!(headers.status_msg.as_deref(), Some(b"Too Many Requests".as_slice()));
}

#[test]
fn make_prompt_frames_the_request_byte_accurately() {
    let conv = vec![(Role::User, String::from("hi"))];
    let request = make_prompt(&conv, "SECRET-REDACTED");
    let body = "{\"model\":\"gpt-3.5-turbo\",\"messages\":[{\"role\":\"user\",\"content\":\"hi\"}],\"stream\":true}";
    let expected = format!(
        "POST /v1/chat/completions HTTP/1.1\r\nHost: api.openai.com\r\nContent-Length: {}\r\nContent-Type: application/json\r\nAuthorization: Bearer SECRET-REDACTED\r\n\r\n{}",
        body.len(),
        body
    );
    assert_eq!(request, expected);
}

#[test]
fn make_prompt_with_empty_conversation_sends_no_messages() {
    let request = make_prompt(&Vec::new(), "k");
    let body = "{\"model\":\"gpt-3.5-turbo\",\"messages\":[],\"stream\":true}";
    assert!(request.ends_with(&format!("\r\n\r\n{}", body)));
    assert!(request.contains(&format!("Content-Length: {}\r\n", body.len())));
}

#[test]
fn make_prompt_escapes_content_and_counts_bytes() {
    let conv = vec![
        (Role::System, String::from("say \"hi\"\nplease\t\u{1}")),
        (Role::AI, String::from("ok \u{e9}")),
    ];
    let request = make_prompt(&conv, "k");
    let header_end = request.find("\r\n\r\n").expect("frame has a header end");
    let body = &request[header_end + 4..];
    // The stated content length is the body's byte length, exactly.
    let length_line = request
        .lines()
        .find(|l| l.starts_with("Content-Length: "))
        .expect("frame has a content length");
    let stated: usize = length_line["Content-Length: ".len()..].parse().unwrap();
    assert_eq!(stated, body.len());
    // The body is valid JSON carrying the conversation in order.
    let value: serde_json::Value = serde_json::from_str(body).expect("body parses");
    assert_eq!(value["model"], "gpt-3.5-turbo");
    assert_eq!(value["stream"], true);
    let messages = value["messages"].as_array().unwrap();
    assert_eq!(messages.len(), 2);
    assert_eq!(messages[0]["role"], "system");
    assert_eq!(messages[0]["content"], "say \"hi\"\nplease\t\u{1}");
    assert_eq!(messages[1]["role"], "assistant");
    assert_eq!(messages[1]["content"], "ok \u{e9}");
}

#[test]
fn success_stream_yields_start_deltas_done() {
    // Success status, two body fragments each carrying one delta, then the
    // empty line that ends the stream.
    let mut session = Session::new();
    let events = feed(
        &mut session,
        &[
            b"HTTP/1.1 200 OK\r\nContent-Type: text/event-stream\r\n\r\n",
            b"data: {\"choices\":[{\"delta\":{\"content\":\"Hi\"}}]}\n\n\r\n",
            b"data: {\"choices\":[{\"delta\":{\"content\":\"!\"}}]}\n\n\r\n",
            b"\r\n",
        ],
    );
    assert_eq!(
        event_tags(&events),
        vec!["start:assistant", "content:Hi", "content:!", "done"]
    );
}

#[test]
fn one_line_with_two_sub_events_yields_two_deltas() {
    let mut session = Session::new();
    let events = feed(
        &mut session,
        &[
            b"HTTP/1.1 200 OK\r\n\r\n",
            b"data: {\"choices\":[{\"delta\":{\"content\":\"a\"}}]}\n\ndata: {\"choices\":[{\"delta\":{\"content\":\"b\"}}]}\r\n",
            b"\r\n",
        ],
    );
    assert_eq!(
        event_tags(&events),
        vec!["start:assistant", "content:a", "content:b", "done"]
    );
}

#[test]
fn malformed_fragments_are_skipped_silently() {
    let mut session = Session::new();
    let events = feed(
        &mut session,
        &[
            b"HTTP/1.1 200 OK\r\n\r\n",
            b"data: [DONE]\r\n",
            b"ff\r\n",
            b"data: {\"choices\":[{\"delta\":{}}]}\n\n\r\n",
            b"data: {\"choices\":[{\"delta\":{\"content\":\"ok\"}}]}\n\n\r\n",
            b"\r\n",
        ],
    );
    assert_eq!(event_tags(&events), vec!["start:assistant", "content:ok", "done"]);
}

#[test]
fn error_status_yields_system_message_and_done() {
    // A non-success status with a structured error body: exactly
    // start(system), the extracted message, done.
    let mut session = Session::new();
    let events = feed(
        &mut session,
        &[b"HTTP/1.1 429 Too Many Requests\r\nRetry-After: 1\r\n\r\n{\"error\":{\"message\":\"rate limited\"}}"],
    );
    assert_eq!(
        event_tags(&events),
        vec!["start:system", "content:rate limited", "done"]
    );
    // The session has ended: further bytes yield nothing.
    let more = session.push_chunk(b"data: x\r\n");
    assert_eq!(more.len(), 0);
}

#[test]
fn unparsable_error_body_falls_back_to_raw_text() {
    let mut session = Session::new();
    let events = feed(&mut session, &[b"HTTP/1.1 500 Oops\r\n\r\nservice down"]);
    assert_eq!(
        event_tags(&events),
        vec!["start:system", "content:Could not parse service down", "done"]
    );
}

#[test]
fn undecodable_error_body_gets_the_generic_message() {
    let mut session = Session::new();
    let mut response = b"HTTP/1.1 500 Oops\r\n\r\n".to_vec();
    response.extend_from_slice(&[0xff, 0xfe]);
    let events = session.push_chunk(&response);
    assert_eq!(
        event_tags(&events),
        vec!["start:system", "content:Could not parse response body", "done"]
    );
}

#[test]
fn chunk_boundaries_do_not_change_the_events() {
    // The same response fed whole, byte by byte, and split inside the line
    // terminator yields identical event sequences.
    let response: &[u8] =
        b"HTTP/1.1 200 OK\r\nContent-Type: text/event-stream\r\n\r\ndata: {\"choices\":[{\"delta\":{\"content\":\"Hello\"}}]}\n\n\r\ndata: {\"choices\":[{\"delta\":{\"content\":\" world\"}}]}\n\n\r\n\r\n";
    let mut whole = Session::new();
    let whole_events = whole.push_chunk(response);

    let mut bytewise = Session::new();
    let mut byte_events = Vec::new();
    for b in response {
        byte_events.extend(bytewise.push_chunk(&[*b]));
    }

    let mid = response.iter().position(|b| *b == b'\r').unwrap() + 1;
    let mut split_in_crlf = Session::new();
    let split_events = feed(&mut split_in_crlf, &[&response[..mid], &response[mid..]]);

    assert_eq!(event_tags(&whole_events), event_tags(&byte_events));
    assert_eq!(event_tags(&whole_events), event_tags(&split_events));
    assert_eq!(
        event_tags(&whole_events),
        vec!["start:assistant", "content:Hello", "content: world", "done"]
    );
}

#[test]
fn read_error_mid_stream_yields_exactly_one_done() {
    let mut session = Session::new();
    let mut events = feed(
        &mut session,
        &[
            b"HTTP/1.1 200 OK\r\n\r\n",
            b"data: {\"choices\":[{\"delta\":{\"content\":\"par\"}}]}\n\n\r\n",
        ],
    );
    events.extend(session.fail(String::from("read timed out")));
    assert_eq!(
        event_tags(&events),
        vec![
            "start:assistant",
            "content:par",
            "start:system",
            "content:read timed out",
            "done"
        ]
    );
    let dones = events.iter().filter(|e| matches!(e, Event::Done)).count();
    assert_eq!(dones, 1);
    assert!(matches!(events.last(), Some(Event::Done)));
}
