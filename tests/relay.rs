use docrelay::decode::decode_event;
use docrelay::event::{ClientMessage, EditEvent};
use docrelay::relay::{fan_out_record, FanOut};
use docrelay::rooms::RoomRegistry;
use docrelay::session::{log_record, Action, Session};
use docrelay::wire::{encode_cursor, encode_event, encode_typing};

fn edit(doc: &str, user: &str, op: &str, position: usize, character: Option<&str>, timestamp: u64) -> EditEvent {
    EditEvent {
        doc_id: doc.to_string(),
        user_id: user.to_string(),
        operation: op.to_string(),
        position,
        character: character.map(|c| c.to_string()),
        timestamp,
    }
}

fn text(b: Vec<u8>) -> String {
    String::from_utf8(b).unwrap()
}

fn same_event(a: &EditEvent, b: &EditEvent) -> bool {
    a.doc_id == b.doc_id
        && a.user_id == b.user_id
        && a.operation == b.operation
        && a.position == b.position
        && a.character == b.character
        && a.timestamp == b.timestamp
}

/// Reads a log record as any JSON text of an edit, as the service does with serde.
fn read_record(b: &[u8]) -> Option<EditEvent> {
    let v: serde_json::Value = serde_json::from_slice(b).ok()?;
    let o = v.as_object()?;
    let text_field = |k: &str| o.get(k).and_then(|x| x.as_str()).map(|x| x.to_string());
    let character = match o.get("character") {
        None => None,
        Some(c) if c.is_null() => None,
        Some(c) => Some(c.as_str()?.to_string()),
    };
    Some(EditEvent {
        doc_id: text_field("doc_id")?,
        user_id: text_field("user_id")?,
        operation: text_field("operation")?,
        position: usize::try_from(o.get("position")?.as_u64()?).ok()?,
        character,
        timestamp: o.get("timestamp")?.as_u64()?,
    })
}

fn s(v: &str) -> String {
    v.to_string()
}

#[test]
fn submitted_edit_reaches_log_sink_and_viewers() {
    let body = r#"{"doc_id":"d1","user_id":"u1","operation":"insert","position":0,"character":"a","timestamp":1}"#;
    let e = edit("d1", "u1", "insert", 0, Some("a"), 1);
    let record = log_record(&e);
    assert_eq!(record.key, "d1");
    assert_eq!(text(record.value.clone()), body);
    match fan_out_record(read_record(&record.value)) {
        FanOut::Forward { body: sink_body, event } => {
            assert_eq!(text(sink_body), body);
            assert!(same_event(&event, &e));
            let a = Session::new();
            let b = Session::new();
            assert_eq!(text(a.handle_broadcast(&event)), body);
            assert_eq!(text(b.handle_broadcast(&event)), body);
        }
        FanOut::Skip => panic!("a committed edit was skipped"),
    }
}

#[test]
fn join_twice_then_one_disconnect_removes_one() {
    let mut rooms = RoomRegistry::new();
    let mut session = Session::new();
    let first = session.handle_client(&mut rooms, ClientMessage::Join { doc_id: s("d1"), user_id: s("u1") });
    assert!(matches!(first, Action::Nothing));
    session.handle_client(&mut rooms, ClientMessage::Join { doc_id: s("d1"), user_id: s("u1") });
    assert_eq!(rooms.members(&s("d1")), vec![s("u1"), s("u1")]);
    session.close(&mut rooms);
    assert_eq!(rooms.members(&s("d1")), vec![s("u1")]);
    assert!(!session.open());
    session.close(&mut rooms);
    assert_eq!(rooms.members(&s("d1")), vec![s("u1")]);
}

#[test]
fn join_then_leave_removes_member() {
    let mut rooms = RoomRegistry::new();
    rooms.join(&s("d1"), &s("u1"));
    rooms.join(&s("d1"), &s("u2"));
    rooms.leave(&s("d1"), &s("u1"));
    assert_eq!(rooms.members(&s("d1")), vec![s("u2")]);
}

#[test]
fn leave_without_join_is_a_no_op() {
    let mut rooms = RoomRegistry::new();
    rooms.leave(&s("d1"), &s("u1"));
    assert!(rooms.members(&s("d1")).is_empty());
    rooms.join(&s("d1"), &s("u2"));
    rooms.leave(&s("d1"), &s("u1"));
    assert_eq!(rooms.members(&s("d1")), vec![s("u2")]);
}

#[test]
fn leave_removes_every_entry_of_the_user() {
    let mut rooms = RoomRegistry::new();
    rooms.join(&s("d1"), &s("u1"));
    rooms.join(&s("d1"), &s("u2"));
    rooms.join(&s("d1"), &s("u1"));
    rooms.leave(&s("d1"), &s("u1"));
    assert_eq!(rooms.members(&s("d1")), vec![s("u2")]);
}

#[test]
fn disconnect_touches_only_its_own_room() {
    let mut rooms = RoomRegistry::new();
    rooms.join(&s("d2"), &s("u1"));
    let mut session = Session::new();
    session.handle_client(&mut rooms, ClientMessage::Join { doc_id: s("d1"), user_id: s("u1") });
    session.close(&mut rooms);
    assert!(rooms.members(&s("d1")).is_empty());
    assert_eq!(rooms.members(&s("d2")), vec![s("u1")]);
}

#[test]
fn closing_an_unjoined_session_changes_nothing() {
    let mut rooms = RoomRegistry::new();
    rooms.join(&s("d1"), &s("u1"));
    let mut session = Session::new();
    session.close(&mut rooms);
    assert_eq!(rooms.members(&s("d1")), vec![s("u1")]);
}

#[test]
fn typing_is_echoed_to_sender_only() {
    let mut rooms = RoomRegistry::new();
    let mut session = Session::new();
    let a = session.handle_client(
        &mut rooms,
        ClientMessage::Typing { doc_id: s("d1"), user_id: s("u1"), is_typing: true },
    );
    match a {
        Action::Reply(bytes) => assert_eq!(text(bytes), r#"{"type":"typing","user_id":"u1","is_typing":true}"#),
        _ => panic!("typing must be echoed"),
    }
    assert!(rooms.members(&s("d1")).is_empty());
}

#[test]
fn cursor_is_echoed_to_sender_only() {
    let mut rooms = RoomRegistry::new();
    let mut session = Session::new();
    let a = session.handle_client(
        &mut rooms,
        ClientMessage::Cursor { doc_id: s("d1"), user_id: s("u1"), position: 42 },
    );
    match a {
        Action::Reply(bytes) => assert_eq!(text(bytes), r#"{"type":"cursor","user_id":"u1","position":42}"#),
        _ => panic!("cursor must be echoed"),
    }
}

#[test]
fn realtime_edit_goes_to_the_log_under_its_own_document() {
    let mut rooms = RoomRegistry::new();
    let mut session = Session::new();
    session.handle_client(&mut rooms, ClientMessage::Join { doc_id: s("d1"), user_id: s("u1") });
    let e = edit("d9", "u1", "delete", 3, None, 7);
    match session.handle_client(&mut rooms, ClientMessage::Edit(e)) {
        Action::Append(record) => {
            assert_eq!(record.key, "d9");
            assert_eq!(
                text(record.value),
                r#"{"doc_id":"d9","user_id":"u1","operation":"delete","position":3,"character":null,"timestamp":7}"#
            );
        }
        _ => panic!("an edit must be appended"),
    }
}

#[test]
fn echo_escapes_quotes_and_controls() {
    assert_eq!(
        text(encode_typing(&s("a\"b\\c\n"), false)),
        "{\"type\":\"typing\",\"user_id\":\"a\\\"b\\\\c\\n\",\"is_typing\":false}"
    );
    assert_eq!(
        text(encode_cursor(&s("x\u{1}y"), 0)),
        "{\"type\":\"cursor\",\"user_id\":\"x\\u0001y\",\"position\":0}"
    );
}

#[test]
fn event_round_trip() {
    let cases = vec![
        edit("d1", "u1", "insert", 0, Some("a"), 1),
        edit("", "", "", 0, None, 0),
        edit("doc \"q\"", "\u{7}\t\r", "ünïcode ✓", usize::MAX, Some("\\"), u64::MAX),
    ];
    for e in cases {
        let bytes = encode_event(&e);
        let back = decode_event(&bytes).expect("an encoded edit decodes");
        assert!(same_event(&back, &e));
    }
}

#[test]
fn largest_numbers_are_written_in_full() {
    let e = edit("d", "u", "o", 0, None, u64::MAX);
    let t = text(encode_event(&e));
    assert!(t.ends_with(",\"timestamp\":18446744073709551615}"));
}

#[test]
fn malformed_records_are_skipped() {
    let bad: Vec<&[u8]> = vec![
        b"",
        b"not json",
        br#"{"doc_id":"d1"}"#,
        br#"{"doc_id":"d1","user_id":"u1","operation":"insert","position":-1,"character":null,"timestamp":1}"#,
        br#"{"doc_id":"d1","user_id":"u1","operation":"insert","position":0,"character":null,"timestamp":18446744073709551616}"#,
        br#"{"doc_id":"d1","user_id":"u1","operation":"insert","position":00,"character":null,"timestamp":1}"#,
    ];
    for b in bad {
        assert!(decode_event(b).is_none());
        assert!(matches!(fan_out_record(read_record(b)), FanOut::Skip));
    }
}

#[test]
fn fan_out_keeps_log_order() {
    let edits = vec![
        edit("d1", "u1", "insert", 0, Some("a"), 1),
        edit("d1", "u2", "insert", 1, Some("b"), 2),
        edit("d1", "u1", "delete", 0, None, 3),
    ];
    let mut records: Vec<Vec<u8>> = edits.iter().map(|e| log_record(e).value).collect();
    records.insert(1, b"garbage".to_vec());
    let mut seen = Vec::new();
    for r in &records {
        if let FanOut::Forward { event, .. } = fan_out_record(read_record(r)) {
            seen.push(event);
        }
    }
    assert_eq!(seen.len(), edits.len());
    for (a, b) in seen.iter().zip(edits.iter()) {
        assert!(same_event(a, b));
    }
}

#[test]
fn both_ingestion_paths_write_the_same_record() {
    let e = edit("d1", "u1", "insert", 5, Some("z"), 9);
    let submitted = log_record(&e);
    let mut rooms = RoomRegistry::new();
    let mut session = Session::new();
    match session.handle_client(&mut rooms, ClientMessage::Edit(edit("d1", "u1", "insert", 5, Some("z"), 9))) {
        Action::Append(sent) => {
            assert_eq!(sent.key, submitted.key);
            assert_eq!(sent.value, submitted.value);
        }
        _ => panic!("an edit must be appended"),
    }
}

#[test]
fn records_in_any_json_form_are_forwarded() {
    let canonical = r#"{"doc_id":"d1","user_id":"u1","operation":"insert","position":0,"character":"a","timestamp":1}"#;
    let forms: Vec<&str> = vec![
        r#"{ "doc_id":"d1","user_id":"u1","operation":"insert","position":0,"character":"a","timestamp":1}"#,
        r#"{"timestamp":1,"character":"a","position":0,"operation":"insert","user_id":"u1","doc_id":"d1"}"#,
        r#"{"doc_id":"d\u0031","user_id":"u\/1","operation":"insert","position":0,"character":"\u0061","timestamp":1}"#,
        r#"{"doc_id":"d1","user_id":"u1","operation":"insert","position":0,"character":"a","timestamp":1,"extra":true}"#,
    ];
    for f in forms {
        let user = if f.contains("u\\/1") { "u/1" } else { "u1" };
        match fan_out_record(read_record(f.as_bytes())) {
            FanOut::Forward { body, event } => {
                assert_eq!(event.doc_id, "d1");
                assert_eq!(event.user_id, user);
                assert_eq!(event.character.as_deref(), Some("a"));
                if user == "u1" {
                    assert_eq!(text(body), canonical);
                }
            }
            FanOut::Skip => panic!("a valid edit was skipped: {}", f),
        }
    }
    let missing_character = r#"{"doc_id":"d1","user_id":"u1","operation":"delete","position":2,"timestamp":5}"#;
    match fan_out_record(read_record(missing_character.as_bytes())) {
        FanOut::Forward { body, event } => {
            assert!(event.character.is_none());
            assert_eq!(
                text(body),
                r#"{"doc_id":"d1","user_id":"u1","operation":"delete","position":2,"character":null,"timestamp":5}"#
            );
        }
        FanOut::Skip => panic!("an edit without a character was skipped"),
    }
}

#[test]
fn encoder_output_is_utf8() {
    let e = edit("dé", "ü\u{1}", "✓", 1, Some("😀"), 2);
    assert!(String::from_utf8(encode_event(&e)).is_ok());
    assert!(String::from_utf8(encode_typing(&s("😀\""), true)).is_ok());
    assert!(String::from_utf8(encode_cursor(&s("é"), 3)).is_ok());
}
