use planc::codec::{decode_client_message, encode_server_message};
use planc::numerals::{parse_u64_dec, u64_to_dec};
use planc::transport::{handle_frame, Frame, FrameAction};
use planc::{ClientMessage, PlancError, ServerMessage, SessionState, UserState};

fn decode(s: &str) -> Result<ClientMessage, PlancError> {
    decode_client_message(s.as_bytes())
}

fn encoded(msg: &ServerMessage) -> String {
    String::from_utf8(encode_server_message(msg)).expect("encoder emits UTF-8")
}

#[test]
fn decode_plain_commands() {
    assert!(matches!(decode("{\"tag\":\"Whoami\"}"), Ok(ClientMessage::Whoami)));
    assert!(matches!(decode("{\"tag\":\"ResetPoints\"}"), Ok(ClientMessage::ResetPoints)));
    assert!(matches!(decode("{\"tag\":\"ClaimSession\"}"), Ok(ClientMessage::ClaimSession)));
    assert!(matches!(
        decode("{\"tag\":\"Whoami\",\"content\":null}"),
        Ok(ClientMessage::Whoami)
    ));
    match decode("{\"tag\":\"NameChange\",\"content\":\"Bob\"}") {
        Ok(ClientMessage::NameChange(n)) => assert_eq!(n, "Bob"),
        _ => panic!("expected a name change"),
    }
    match decode("{\"tag\":\"SetPoints\",\"content\":\"13\"}") {
        Ok(ClientMessage::SetPoints(p)) => assert_eq!(p, "13"),
        _ => panic!("expected points"),
    }
    match decode("{\"tag\":\"KickUser\",\"content\":\"2\"}") {
        Ok(ClientMessage::KickUser(id)) => assert_eq!(id, "2"),
        _ => panic!("expected a kick"),
    }
    assert!(matches!(
        decode("{\"tag\":\"SetSpectator\",\"content\":true}"),
        Ok(ClientMessage::SetSpectator(true))
    ));
    assert!(matches!(
        decode("{\"tag\":\"SetSpectator\",\"content\":false}"),
        Ok(ClientMessage::SetSpectator(false))
    ));
}

#[test]
fn decode_tolerates_whitespace_and_key_order() {
    match decode(" {\n\t\"content\" : \"Bob\" ,\r\n \"tag\" : \"NameChange\" } ") {
        Ok(ClientMessage::NameChange(n)) => assert_eq!(n, "Bob"),
        _ => panic!("expected a name change"),
    }
}

#[test]
fn decode_unescapes_strings() {
    match decode("{\"tag\":\"NameChange\",\"content\":\"a\\\\b\\\"c\\n\\t\\u0041\"}") {
        Ok(ClientMessage::NameChange(n)) => assert_eq!(n, "a\\b\"c\n\tA"),
        _ => panic!("expected a name change"),
    }
    // A surrogate pair yields one character beyond the basic plane.
    match decode("{\"tag\":\"SetPoints\",\"content\":\"\\uD83D\\uDE00\"}") {
        Ok(ClientMessage::SetPoints(p)) => assert_eq!(p, "\u{1F600}"),
        _ => panic!("expected points"),
    }
    // A two-byte escape and raw non-ASCII both decode.
    match decode("{\"tag\":\"NameChange\",\"content\":\"\\u00e9\"}") {
        Ok(ClientMessage::NameChange(n)) => assert_eq!(n, "é"),
        _ => panic!("expected a name change"),
    }
    match decode("{\"tag\":\"NameChange\",\"content\":\"é\"}") {
        Ok(ClientMessage::NameChange(n)) => assert_eq!(n, "é"),
        _ => panic!("expected a name change"),
    }
}

#[test]
fn decode_rejects_malformed_input() {
    let bad = [
        "",
        "null",
        "[]",
        "{}",
        "{\"tag\":\"Nope\"}",
        "{\"tag\":\"Whoami\"",
        "{\"tag\":\"Whoami\"}x",
        "{\"tag\":\"Whoami\",\"content\":\"x\"}",
        "{\"tag\":\"NameChange\"}",
        "{\"tag\":\"NameChange\",\"content\":true}",
        "{\"tag\":\"SetSpectator\",\"content\":\"yes\"}",
        "{\"tag\":\"SetSpectator\",\"content\":1}",
        "{\"tag\":\"Whoami\",\"extra\":null}",
        "{\"tag\":\"Whoami\",\"tag\":\"Whoami\"}",
        "{\"content\":\"a\",\"content\":\"b\"}",
        "{\"tag\":\"NameChange\",\"content\":\"\\uD83D\"}",
        "{\"tag\":\"NameChange\",\"content\":\"\\x41\"}",
        "{\"tag\":\"NameChange\",\"content\":\"unterminated}",
        "{\"tag\":17}",
    ];
    for text in bad {
        assert_eq!(decode(text), Err(PlancError::InvalidMessage), "input: {}", text);
    }
}

#[test]
fn decode_rejects_invalid_utf8_content() {
    // A lone 0xFF byte inside the string is not UTF-8.
    let mut bytes = b"{\"tag\":\"NameChange\",\"content\":\"a".to_vec();
    bytes.push(0xFF);
    bytes.extend_from_slice(b"\"}");
    assert_eq!(decode_client_message(&bytes), Err(PlancError::InvalidMessage));
}

#[test]
fn encode_simple_events() {
    assert_eq!(encoded(&ServerMessage::KeepAlive), "{\"tag\":\"KeepAlive\"}");
    assert_eq!(
        encoded(&ServerMessage::Whoami("7".to_string())),
        "{\"tag\":\"Whoami\",\"content\":\"7\"}"
    );
    assert_eq!(
        encoded(&ServerMessage::Error("bad \"x\"\n".to_string())),
        "{\"tag\":\"Error\",\"content\":\"bad \\\"x\\\"\\n\"}"
    );
    // Control characters without a short escape use \u00XX.
    assert_eq!(
        encoded(&ServerMessage::Error("\u{1f}".to_string())),
        "{\"tag\":\"Error\",\"content\":\"\\u001f\"}"
    );
}

#[test]
fn encode_state_event() {
    let state = SessionState {
        users: vec![
            (
                1,
                UserState {
                    name: Some("Alice".to_string()),
                    points: Some("5".to_string()),
                    is_spectator: false,
                    is_stale: false,
                    kicked: false,
                },
            ),
            (
                2,
                UserState {
                    name: None,
                    points: None,
                    is_spectator: true,
                    is_stale: false,
                    kicked: false,
                },
            ),
        ],
        admin: Some(1),
    };
    let expected = "{\"tag\":\"State\",\"content\":{\"users\":{\"1\":{\"name\":\"Alice\",\"points\":\"5\",\"isSpectator\":false},\"2\":{\"name\":null,\"points\":null,\"isSpectator\":true}},\"admin\":\"1\"}}";
    assert_eq!(encoded(&ServerMessage::State(state)), expected);
    let empty = SessionState { users: Vec::new(), admin: None };
    assert_eq!(
        encoded(&ServerMessage::State(empty)),
        "{\"tag\":\"State\",\"content\":{\"users\":{},\"admin\":null}}"
    );
}

#[test]
fn encoded_state_is_valid_json_for_serde() {
    let state = SessionState {
        users: vec![(
            3,
            UserState {
                name: Some("Bob \"the\" builder".to_string()),
                points: None,
                is_spectator: false,
                is_stale: true,
                kicked: true,
            },
        )],
        admin: None,
    };
    let text = encoded(&ServerMessage::State(state));
    let v: serde_json::Value = serde_json::from_str(&text).expect("well-formed JSON");
    assert_eq!(v["tag"], serde_json::Value::String("State".to_string()));
    let user = &v["content"]["users"]["3"];
    assert_eq!(user["name"], serde_json::Value::String("Bob \"the\" builder".to_string()));
    assert_eq!(user["points"], serde_json::Value::Null);
    assert_eq!(user["isSpectator"], serde_json::Value::Bool(false));
    // The internal flags are never serialized.
    assert!(user.get("kicked").is_none());
    assert!(user.get("isStale").is_none());
    assert_eq!(v["content"]["admin"], serde_json::Value::Null);
}

#[test]
fn decoder_accepts_serde_output() {
    // Build the command with serde_json, as the browser client does, and
    // feed its text to the verified decoder.
    let mut obj = serde_json::Map::new();
    obj.insert(
        "tag".to_string(),
        serde_json::Value::String("SetPoints".to_string()),
    );
    obj.insert(
        "content".to_string(),
        serde_json::Value::String("a\u{8}b\u{1F600}é".to_string()),
    );
    let text = serde_json::to_string(&serde_json::Value::Object(obj)).expect("serializes");
    match decode(&text) {
        Ok(ClientMessage::SetPoints(p)) => assert_eq!(p, "a\u{8}b\u{1F600}é"),
        _ => panic!("expected points from serde-produced text"),
    }
}

#[test]
fn numeral_round_trip_and_canonical_form() {
    assert_eq!(u64_to_dec(0), "0");
    assert_eq!(u64_to_dec(1), "1");
    assert_eq!(u64_to_dec(407), "407");
    assert_eq!(u64_to_dec(u64::MAX), "18446744073709551615");

    assert_eq!(parse_u64_dec("0"), Some(0));
    assert_eq!(parse_u64_dec("407"), Some(407));
    assert_eq!(parse_u64_dec("18446744073709551615"), Some(u64::MAX));
    assert_eq!(parse_u64_dec("18446744073709551616"), None);
    assert_eq!(parse_u64_dec(""), None);
    assert_eq!(parse_u64_dec("01"), None);
    assert_eq!(parse_u64_dec("+1"), None);
    assert_eq!(parse_u64_dec("1x"), None);
}

#[test]
fn frame_rules() {
    match handle_frame(Frame::Text("{\"tag\":\"Whoami\"}".to_string())) {
        FrameAction::Payload(b) => {
            assert!(matches!(decode_client_message(&b), Ok(ClientMessage::Whoami)));
        }
        _ => panic!("text frames carry payload"),
    }
    // A binary frame is treated like text; non-ASCII UTF-8 bytes decode
    // to their characters, not to their byte values.
    match handle_frame(Frame::Binary(
        b"{\"tag\":\"NameChange\",\"content\":\"\xC3\xA9\"}".to_vec(),
    )) {
        FrameAction::Payload(b) => match decode_client_message(&b) {
            Ok(ClientMessage::NameChange(n)) => assert_eq!(n, "é"),
            _ => panic!("binary frames decode like text"),
        },
        _ => panic!("binary frames carry payload"),
    }
    match handle_frame(Frame::Ping(vec![1, 2, 3])) {
        FrameAction::Pong(b) => assert_eq!(b, vec![1, 2, 3]),
        _ => panic!("pings are answered"),
    }
    assert!(matches!(handle_frame(Frame::Pong(vec![9])), FrameAction::Ignore));
    assert!(matches!(handle_frame(Frame::Close), FrameAction::Terminate));
    assert!(matches!(handle_frame(Frame::Raw), FrameAction::Ignore));
}

#[test]
fn error_messages_name_their_variant() {
    assert_eq!(PlancError::InvalidMessage.message(), "InvalidMessage");
    assert_eq!(PlancError::InsufficientPermissions.message(), "InsufficientPermissions");
    assert_eq!(PlancError::DuplicateName.message(), "DuplicateName");
    assert_eq!(PlancError::MaxSessionsExceeded.message(), "MaxSessionsExceeded");
    assert_eq!(PlancError::MaxUsersExceeded.message(), "MaxUsersExceeded");
    assert_eq!(PlancError::UnknownUserId.message(), "UnknownUserId");
    assert_eq!(PlancError::UserKicked.message(), "UserKicked");
}

#[test]
fn app_context_holds_the_name() {
    let mut ctx = planc::AppContext::default();
    assert_eq!(*ctx.name(), None);
    *ctx.name_mut() = Some("Dana".to_string());
    assert_eq!(ctx.name().as_deref(), Some("Dana"));
}
