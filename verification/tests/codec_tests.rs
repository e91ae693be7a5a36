use shuttlings_cch23::codec::decode_inbound;
use shuttlings_cch23::codec::encode_inbound;
use shuttlings_cch23::codec::encode_outbound;

#[test]
fn encode_outbound_plain() {
    assert_eq!(
        encode_outbound("alice", "hi"),
        "{\"user\":\"alice\",\"message\":\"hi\"}"
    );
}

#[test]
fn encode_escapes_specials() {
    assert_eq!(
        encode_outbound("a\"b", "c\\d\ne"),
        "{\"user\":\"a\\\"b\",\"message\":\"c\\\\d\\ne\"}"
    );
    assert_eq!(encode_inbound("tab\there"), "{\"message\":\"tab\\there\"}");
    assert_eq!(encode_inbound("\u{1}"), "{\"message\":\"\\u0001\"}");
}

#[test]
fn decode_accepts_the_wire_shape() {
    assert_eq!(decode_inbound("{\"message\":\"hi\"}").as_deref(), Some("hi"));
    assert_eq!(decode_inbound("{\"message\":\"\"}").as_deref(), Some(""));
    assert_eq!(
        decode_inbound("{\"message\":\"a\\\"b\\\\c\\nd\\te\"}").as_deref(),
        Some("a\"b\\c\nd\te")
    );
    assert_eq!(decode_inbound("{\"message\":\"\\u0007\"}").as_deref(), Some("\u{7}"));
}

#[test]
fn decode_rejects_everything_else() {
    for bad in [
        "",
        "{",
        "{\"message\":\"hi\"",
        "{\"message\":\"hi\"}}",
        "{\"message\":\"hi\" }",
        " {\"message\":\"hi\"}",
        "{\"Message\":\"hi\"}",
        "{\"message\":42}",
        "{\"message\":\"bad\\escape\"}",
        "{\"message\":\"bad\\u00zz\"}",
    ] {
        assert!(decode_inbound(bad).is_none(), "should reject {:?}", bad);
    }
}

#[test]
fn inbound_frames_round_trip() {
    for message in ["", "hi", "with \"quotes\" and \\slashes\\", "line\nbreak\ttab", "unicode \u{1F384} stays"] {
        let decoded = decode_inbound(&encode_inbound(message));
        assert_eq!(decoded.as_deref(), Some(message));
    }
}

#[test]
fn outbound_frames_agree_with_a_json_parser() {
    let raw = encode_outbound("a\"b", "x\ny \u{1F384}");
    let value: serde_json::Value = serde_json::from_str(&raw).expect("well-formed");
    assert_eq!(value["user"].as_str(), Some("a\"b"));
    assert_eq!(value["message"].as_str(), Some("x\ny \u{1F384}"));
}

#[test]
fn inbound_frames_agree_with_a_json_parser() {
    let raw = encode_inbound("control \u{2} char");
    let value: serde_json::Value = serde_json::from_str(&raw).expect("well-formed");
    assert_eq!(value["message"].as_str(), Some("control \u{2} char"));
}
