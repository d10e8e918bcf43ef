use highway::constants;
use highway::error::RequestError;
use highway::model::{Payload, PayloadKind};
use highway::text::{decimal_text, list_of_strings};

fn payload(kind: PayloadKind) -> Payload<'static> {
    Payload { kind, room: "", user: "", id: None, body: None }
}

fn strings(texts: &[&str]) -> Vec<String> {
    texts.iter().map(|t| t.to_string()).collect()
}

#[test]
fn numbers_are_written_in_decimal() {
    assert_eq!(decimal_text(0), "0");
    assert_eq!(decimal_text(9), "9");
    assert_eq!(decimal_text(10), "10");
    assert_eq!(decimal_text(5_242_880), "5242880");
    assert_eq!(decimal_text(u64::MAX), "18446744073709551615");
}

#[test]
fn lists_of_strings_are_json() {
    assert_eq!(list_of_strings(&strings(&[])), "[]");
    assert_eq!(list_of_strings(&strings(&["a"])), "[\"a\"]");
    assert_eq!(
        list_of_strings(&strings(&["boss_timers", "update_notifications"])),
        "[\"boss_timers\", \"update_notifications\"]"
    );
}

#[test]
fn strings_are_escaped() {
    assert_eq!(list_of_strings(&strings(&["a\"b"])), "[\"a\\\"b\"]");
    assert_eq!(list_of_strings(&strings(&["a\\b"])), "[\"a\\\\b\"]");
    assert_eq!(
        list_of_strings(&strings(&["\u{8}\t\n\u{c}\r"])),
        "[\"\\b\\t\\n\\f\\r\"]"
    );
    assert_eq!(
        list_of_strings(&strings(&["\u{0}\u{b}\u{1f}"])),
        "[\"\\u0000\\u000b\\u001f\"]"
    );
    assert_eq!(
        list_of_strings(&strings(&["/ \u{7f}\u{e9}\u{200b}\u{1f600}"])),
        "[\"/ \u{7f}\u{e9}\u{200b}\u{1f600}\"]"
    );
}

#[test]
fn kinds_have_names() {
    assert_eq!(PayloadKind::Error.name(), "error");
    assert_eq!(PayloadKind::Join.name(), "join");
    assert_eq!(PayloadKind::Leave.name(), "leave");
    assert_eq!(PayloadKind::Message.name(), "message");
    assert_eq!(PayloadKind::Quit.name(), "quit");
    assert_eq!(PayloadKind::Success.name(), "success");
}

#[test]
fn empty_members_of_a_payload_are_left_out() {
    assert_eq!(payload(PayloadKind::Quit).to_json(), "{\"type\":\"quit\"}");
    let message = Payload {
        kind: PayloadKind::Message,
        room: "boss_timers",
        user: "80f627d1-aa78-4bf7-b9f3-7dfff1f57271",
        id: None,
        body: Some("\"hello world\""),
    };
    assert_eq!(
        message.to_json(),
        "{\"type\":\"message\",\"room\":\"boss_timers\",\
         \"user\":\"80f627d1-aa78-4bf7-b9f3-7dfff1f57271\",\"body\":\"hello world\"}"
    );
}

#[test]
fn the_reply_to_a_join_carries_the_id() {
    let request = Payload {
        kind: PayloadKind::Join,
        room: "update_notifications",
        user: "",
        id: Some("\"140fd478-47ef-4974-b0a8-a711e0b40767\""),
        body: None,
    };
    assert_eq!(
        request.reply_room_join().to_json(),
        "{\"type\":\"success\",\"room\":\"update_notifications\",\
         \"id\":\"140fd478-47ef-4974-b0a8-a711e0b40767\",\"body\":\"You joined the room\"}"
    );
    assert_eq!(
        request.reply_room_name_too_short().to_json(),
        "{\"type\":\"error\",\"room\":\"update_notifications\",\
         \"id\":\"140fd478-47ef-4974-b0a8-a711e0b40767\",\
         \"body\":\"The room name provided is shorter than 32 characters\"}"
    );
}

#[test]
fn replies_keep_room_and_id_and_drop_user_and_body() {
    let request = Payload {
        kind: PayloadKind::Message,
        room: "r",
        user: "someone",
        id: Some("7"),
        body: Some("{}"),
    };
    assert_eq!(
        request.reply_room_leave().to_json(),
        "{\"type\":\"success\",\"room\":\"r\",\"id\":7,\"body\":\"You left the room\"}"
    );
    assert_eq!(
        request.reply_invalid_msg().to_json(),
        "{\"type\":\"error\",\"room\":\"r\",\"id\":7,\
         \"body\":\"Your JSON payload is missing required fields or has a disallowed type\"}"
    );
    assert_eq!(
        request.reply_invalid_room().to_json(),
        format!(
            "{{\"type\":\"error\",\"room\":\"r\",\"id\":7,\"body\":{}}}",
            constants::INVALID_ROOM_MSG
        )
    );
    assert_eq!(
        request.reply_room_read_only().to_json(),
        "{\"type\":\"error\",\"room\":\"r\",\"id\":7,\
         \"body\":\"The room you attempted to send a message in is in read-only mode\"}"
    );
}

#[test]
fn requests_without_a_room_are_invalid() {
    assert!(payload(PayloadKind::Join).is_invalid());
    assert!(payload(PayloadKind::Leave).is_invalid());
    assert!(!Payload { room: "r", ..payload(PayloadKind::Join) }.is_invalid());
    assert!(!Payload { room: "r", ..payload(PayloadKind::Leave) }.is_invalid());
}

#[test]
fn messages_need_a_room_and_a_body() {
    let message = payload(PayloadKind::Message);
    assert!(message.is_invalid());
    assert!(Payload { room: "r", ..message }.is_invalid());
    assert!(Payload { body: Some("1"), ..message }.is_invalid());
    assert!(!Payload { room: "r", body: Some("1"), ..message }.is_invalid());
}

#[test]
fn clients_may_quit_but_not_answer() {
    assert!(!payload(PayloadKind::Quit).is_invalid());
    for kind in [PayloadKind::Success, PayloadKind::Error] {
        let answer = Payload { room: "r", body: Some("1"), ..payload(kind) };
        assert!(answer.is_invalid());
    }
}

#[test]
fn the_answers_to_bad_data_are_json() {
    let answer: serde_json::Value = serde_json::from_str(constants::INVALID_JSON_MSG).unwrap();
    assert_eq!(answer["type"], "error");
    assert_eq!(answer["body"], "You sent an invalid JSON payload");
    for body in [
        constants::INVALID_ROOM_MSG,
        constants::ROOM_NAME_TOO_SHORT,
        constants::ROOM_READ_ONLY,
        constants::INVALID_MSG,
        constants::ROOM_JOIN_MSG,
        constants::ROOM_LEAVE_MSG,
    ] {
        let value: serde_json::Value = serde_json::from_str(body).unwrap();
        assert!(value.is_string());
    }
}

#[test]
fn request_errors_say_what_is_wrong() {
    assert_eq!(RequestError::InvalidRoom.to_text(), "Invalid room requested");
    assert_eq!(RequestError::NotWebsocket.to_text(), "Connection is not websocket");
}

#[test]
fn private_names_have_32_characters() {
    assert!(!constants::is_valid_room(""));
    assert!(!constants::is_valid_room(&"a".repeat(31)));
    assert!(constants::is_valid_room(&"a".repeat(32)));
    assert!(!constants::is_valid_room(&"\u{e9}".repeat(16)));
    assert!(!constants::is_valid_room(&"\u{e9}".repeat(31)));
    assert!(constants::is_valid_room(&"\u{e9}".repeat(32)));
}

#[test]
fn kinds_are_found_by_their_names() {
    for kind in [
        PayloadKind::Error,
        PayloadKind::Join,
        PayloadKind::Leave,
        PayloadKind::Message,
        PayloadKind::Quit,
        PayloadKind::Success,
    ] {
        assert_eq!(PayloadKind::named(kind.name()), kind);
    }
}

#[test]
fn unknown_kinds_are_disallowed() {
    for name in ["hello", "Join", "", "room_info"] {
        let unknown = Payload {
            room: "r",
            id: Some("7"),
            body: Some("1"),
            ..payload(PayloadKind::named(name))
        };
        assert!(unknown.is_invalid());
        assert!(unknown.reply_invalid_msg().to_json().contains("\"id\":7"));
    }
}

#[test]
fn a_body_may_be_null() {
    let message =
        Payload { room: "r", body: Some("null"), ..payload(PayloadKind::Message) };
    assert!(!message.is_invalid());
    assert_eq!(message.to_json(), "{\"type\":\"message\",\"room\":\"r\",\"body\":null}");
}
