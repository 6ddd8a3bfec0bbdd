use telemetry_channel::channel::{Channel, TextOutcome};
use telemetry_channel::wire;

fn expect_reply(r: TextOutcome) -> String {
    match r {
        TextOutcome::Reply(a) => a,
        TextOutcome::Ignored => panic!("frame was ignored, a reply was owed"),
        TextOutcome::Malformed => panic!("frame was rejected, a reply was owed"),
    }
}

#[test]
fn welcome_gets_exactly_one_ack_with_same_id() {
    let mut ch = Channel::new();
    let r = ch.on_text("{\"MessageType\":\"welcome\",\"ClientId\":42}");
    let ack = expect_reply(r);
    assert_eq!(ack, "{\"messageType\":\"ack\",\"clientId\":42}");
}

#[test]
fn stored_id_equals_received_id_not_stale_default() {
    let mut ch = Channel::new();
    assert_eq!(ch.client_id, 0);
    assert!(!ch.welcomed);
    ch.on_text("{\"MessageType\":\"welcome\",\"ClientId\":7}");
    assert_eq!(ch.client_id, 7);
    assert!(ch.welcomed);
}

#[test]
fn second_welcome_overwrites_and_acks_again() {
    let mut ch = Channel::new();
    ch.on_text("{\"MessageType\":\"welcome\",\"ClientId\":7}");
    let r = ch.on_text("{\"MessageType\":\"welcome\",\"ClientId\":9}");
    let ack = expect_reply(r);
    assert_eq!(ack, "{\"messageType\":\"ack\",\"clientId\":9}");
    assert_eq!(ch.client_id, 9);
}

#[test]
fn other_message_type_produces_no_reply() {
    let mut ch = Channel::new();
    let r = ch.on_text("{\"MessageType\":\"farewell\",\"ClientId\":3}");
    assert!(matches!(r, TextOutcome::Ignored));
    assert_eq!(ch.client_id, 0);
    assert!(!ch.welcomed);
}

#[test]
fn greeting_is_sent_on_open() {
    let ch = Channel::new();
    assert_eq!(ch.on_open(), "{\"messageType\":\"salutations\"}");
}

#[test]
fn welcome_fields_may_come_in_any_order_with_whitespace() {
    let mut ch = Channel::new();
    let r = ch.on_text(" { \"ClientId\" : 5 ,\n\t\"MessageType\" : \"welcome\" } ");
    let ack = expect_reply(r);
    assert_eq!(ack, "{\"messageType\":\"ack\",\"clientId\":5}");
    assert_eq!(ch.client_id, 5);
}

#[test]
fn unknown_members_are_ignored() {
    let mut ch = Channel::new();
    let r = ch.on_text(
        "{\"MessageType\":\"welcome\",\"Extra\":\"x\",\"ClientId\":1,\"N\":2}",
    );
    let ack = expect_reply(r);
    assert_eq!(ack, "{\"messageType\":\"ack\",\"clientId\":1}");
}

#[test]
fn identifier_extremes_round_through() {
    let mut ch = Channel::new();
    let r = ch.on_text("{\"MessageType\":\"welcome\",\"ClientId\":0}");
    assert_eq!(expect_reply(r), "{\"messageType\":\"ack\",\"clientId\":0}");
    let r = ch.on_text("{\"MessageType\":\"welcome\",\"ClientId\":4294967295}");
    assert_eq!(
        expect_reply(r),
        "{\"messageType\":\"ack\",\"clientId\":4294967295}"
    );
    assert_eq!(ch.client_id, u32::MAX);
}

#[test]
fn unreadable_frames_are_reported_and_change_nothing() {
    let cases = [
        "",
        "not json",
        "{}",
        "{\"MessageType\":\"welcome\"}",
        "{\"ClientId\":5}",
        "{\"MessageType\":\"welcome\",\"ClientId\":5}trailing",
        "{\"MessageType\":\"welcome\",\"MessageType\":\"welcome\",\"ClientId\":5}",
        "{\"MessageType\":\"welcome\",\"ClientId\":5,\"ClientId\":5}",
        "{\"MessageType\":\"wel\\u0063ome\",\"ClientId\":5}",
        "{\"MessageType\":\"welcome\",\"ClientId\":05}",
        "{\"MessageType\":\"welcome\",\"ClientId\":4294967296}",
        "{\"MessageType\":\"welcome\",\"ClientId\":-5}",
        "{\"MessageType\":\"welcome\",\"ClientId\":5.5}",
        "{\"MessageType\":welcome,\"ClientId\":5}",
        "{\"MessageType\":42,\"ClientId\":5}",
        "{\"MessageType\":\"welcome\",\"ClientId\":\"5\"}",
        "{\"messageType\":\"welcome\",\"clientId\":5}",
        "{\"MessageType\":\"welcome\",\"ClientId\":5",
        "[\"MessageType\",\"welcome\"]",
    ];
    for c in cases {
        let mut ch = Channel::new();
        let r = ch.on_text(c);
        assert!(matches!(r, TextOutcome::Malformed), "accepted: {}", c);
        assert_eq!(ch.client_id, 0);
        assert!(!ch.welcomed);
    }
}

#[test]
fn repeated_unknown_members_are_still_ignored() {
    let mut ch = Channel::new();
    let r = ch.on_text("{\"A\":1,\"A\":2,\"MessageType\":\"welcome\",\"ClientId\":3}");
    let ack = expect_reply(r);
    assert_eq!(ack, "{\"messageType\":\"ack\",\"clientId\":3}");
}

#[test]
fn empty_object_lacks_both_fields() {
    let mut ch = Channel::new();
    let r = ch.on_text(" { } ");
    assert!(matches!(r, TextOutcome::Malformed));
}

#[test]
fn parse_message_returns_both_fields() {
    let msg = wire::parse_message("{\"MessageType\":\"hello\",\"ClientId\":31}").unwrap();
    assert_eq!(msg.message_type, "hello");
    assert_eq!(msg.client_id, 31);
    assert!(wire::parse_message("{\"MessageType\":\"hello\"}").is_none());
}

#[test]
fn cursor_report_carries_stored_id_and_coordinates() {
    let mut ch = Channel::new();
    ch.on_text("{\"MessageType\":\"welcome\",\"ClientId\":5}");
    let m = ch.cursor_report("-12.5", "0").unwrap();
    assert_eq!(
        m,
        "{\"messageType\":\"cursorPosition\",\"clientId\":5,\"x\":-12.5,\"y\":0}"
    );
}

#[test]
fn cursor_report_before_welcome_is_tagged_zero() {
    let ch = Channel::new();
    let m = ch.cursor_report("1", "2").unwrap();
    assert_eq!(
        m,
        "{\"messageType\":\"cursorPosition\",\"clientId\":0,\"x\":1,\"y\":2}"
    );
}

#[test]
fn cursor_report_rejects_coordinates_that_are_not_number_tokens() {
    let ch = Channel::new();
    for bad in ["", "NaN", "inf", "1.", ".5", "01", "--1", "1e", "1e+", "+1", "1 "] {
        assert!(ch.cursor_report(bad, "0").is_none(), "accepted: {}", bad);
        assert!(ch.cursor_report("0", bad).is_none(), "accepted: {}", bad);
    }
}

#[test]
fn number_tokens_cover_the_shapes_the_embedder_formats() {
    for good in [
        "0", "7", "-0", "-7", "12.25", "-12.5", "0.001", "1e9", "1E9", "1e+9", "1e-9",
        "6.02e23", "4503599627370496",
    ] {
        assert!(wire::is_number_token(good), "rejected: {}", good);
    }
}

#[test]
fn rendered_decimal_is_plain() {
    assert_eq!(wire::dec_string(0), "0");
    assert_eq!(wire::dec_string(10), "10");
    assert_eq!(wire::dec_string(4294967295), "4294967295");
}
