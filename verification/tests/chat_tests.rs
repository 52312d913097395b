use termchat::chat::{
    apply_event, conversation_lines, encode_event, parse_event, render_conversation,
    split_by_length, split_newlines, Event, Role, State,
};
use termchat::renderer::{Buffer, Color};

#[test]
fn role_from_ignores_ascii_case() {
    assert_eq!(Role::from("user"), Some(Role::User));
    assert_eq!(Role::from("USER"), Some(Role::User));
    assert_eq!(Role::from("System"), Some(Role::System));
    assert_eq!(Role::from("assistant"), Some(Role::AI));
    assert_eq!(Role::from("ASSISTANT"), Some(Role::AI));
    assert_eq!(Role::from("narrator"), None);
    assert_eq!(Role::from(""), None);
}

#[test]
fn role_value_names_the_wire_roles() {
    assert_eq!(Role::User.value(), "user");
    assert_eq!(Role::System.value(), "system");
    assert_eq!(Role::AI.value(), "assistant");
    assert_eq!(Role::from(Role::AI.value()), Some(Role::AI));
}

#[test]
fn state_appends_entries() {
    let mut state = State::new();
    assert_eq!(state.conv.len(), 0);
    assert_eq!(state.input, "");
    assert_eq!(state.view_start, 0);
    state.append_conv(Role::User, String::from("hello"));
    state.append_conv(Role::AI, String::from("hi"));
    assert_eq!(state.conv.len(), 2);
    assert_eq!(state.conv[0].0, Role::User);
    assert_eq!(state.conv[0].1, "hello");
    assert_eq!(state.conv[1].0, Role::AI);
}

#[test]
fn split_by_length_chunks_text() {
    assert_eq!(split_by_length("abcdef", 2), vec!["ab", "cd", "ef"]);
    assert_eq!(split_by_length("abcde", 2), vec!["ab", "cd", "e"]);
    assert_eq!(split_by_length("ab", 5), vec!["ab"]);
    assert_eq!(split_by_length("", 3), vec![""]);
}

#[test]
fn split_newlines_drops_separators() {
    assert_eq!(split_newlines("a\nbc\nd"), vec!["a", "bc", "d"]);
    assert_eq!(split_newlines("a\n"), vec!["a", ""]);
    assert_eq!(split_newlines(""), vec![""]);
}

#[test]
fn conversation_lines_wraps_and_flags_first_lines() {
    let conv = vec![
        (Role::User, String::from("abcd\nef")),
        (Role::AI, String::from("xy")),
    ];
    let lines = conversation_lines(&conv, 3);
    let shape: Vec<(bool, Role, &str)> =
        lines.iter().map(|l| (l.0, l.1, l.2.as_str())).collect();
    assert_eq!(
        shape,
        vec![
            (true, Role::User, "abc"),
            (false, Role::User, "d"),
            (false, Role::User, "ef"),
            (true, Role::AI, "xy"),
        ]
    );
}

#[test]
fn render_conversation_draws_bottom_up() {
    let mut state = State::new();
    state.append_conv(Role::User, String::from("hi"));
    state.append_conv(Role::AI, String::from("yo"));
    let mut buffer = Buffer::new(10, 5);
    render_conversation(&mut state, &mut buffer, 2, 3, 10);
    // Bottom row of the pane holds the last entry's first line, with the
    // start marker; the row above holds the entry before it.
    let row2: String = (0..10).map(|c| buffer.get(2, c).c).collect();
    let row1: String = (0..10).map(|c| buffer.get(1, c).c).collect();
    assert_eq!(row2.trim_end(), "\u{25a0}  yo");
    assert_eq!(row1.trim_end(), "\u{25a0}  hi");
    assert_eq!(buffer.get(2, 3).fg, Color::Blue);
    assert_eq!(buffer.get(1, 3).fg, Color::Green);
    // Rows below the conversation pane are untouched.
    let row3: String = (0..10).map(|c| buffer.get(3, c).c).collect();
    assert_eq!(row3, "          ");
    assert_eq!(state.view_start, 0);
}

#[test]
fn render_conversation_clamps_the_scroll_offset() {
    let mut state = State::new();
    for _ in 0..4 {
        state.append_conv(Role::User, String::from("line"));
    }
    state.view_start = 100;
    let mut buffer = Buffer::new(10, 4);
    render_conversation(&mut state, &mut buffer, 2, 3, 10);
    // 4 lines in a 3-row view: at most one line of scroll.
    assert_eq!(state.view_start, 1);
    let mut state2 = State::new();
    state2.append_conv(Role::User, String::from("only"));
    state2.view_start = 7;
    render_conversation(&mut state2, &mut buffer, 2, 3, 10);
    assert_eq!(state2.view_start, 0);
}

#[test]
fn encode_event_uses_the_wire_tags() {
    assert_eq!(encode_event(&Event::Start(Role::AI)), "[START] assistant");
    assert_eq!(encode_event(&Event::Start(Role::System)), "[START] system");
    assert_eq!(encode_event(&Event::Done), "[DONE]");
    assert_eq!(encode_event(&Event::Content(String::from("hi!"))), "hi!");
}

#[test]
fn parse_event_decodes_the_wire_tags() {
    assert!(matches!(parse_event("[DONE]"), Some(Event::Done)));
    assert!(matches!(parse_event("[START] assistant"), Some(Event::Start(Role::AI))));
    assert!(matches!(parse_event("[START] system"), Some(Event::Start(Role::System))));
    assert!(matches!(parse_event("[START] narrator"), None));
    match parse_event("plain delta text") {
        Some(Event::Content(text)) => assert_eq!(text, "plain delta text"),
        _ => panic!("free-form text is content"),
    }
    // Round trip through the encoding.
    match parse_event(&encode_event(&Event::Start(Role::User))) {
        Some(Event::Start(Role::User)) => {}
        _ => panic!("start events survive the wire"),
    }
}

#[test]
fn apply_event_drives_the_conversation() {
    let mut state = State::new();
    let save = apply_event(&mut state, &Event::Start(Role::AI));
    assert!(!save);
    assert_eq!(state.conv.len(), 1);
    assert_eq!(state.conv[0].0, Role::AI);
    assert_eq!(state.conv[0].1, "");
    state.view_start = 3;
    let save = apply_event(&mut state, &Event::Content(String::from("Hel")));
    assert!(!save);
    let save = apply_event(&mut state, &Event::Content(String::from("lo")));
    assert!(!save);
    assert_eq!(state.conv[0].1, "Hello");
    assert_eq!(state.view_start, 0);
    let save = apply_event(&mut state, &Event::Done);
    assert!(save);
    assert_eq!(state.conv.len(), 1);
    assert_eq!(state.conv[0].1, "Hello");
}
