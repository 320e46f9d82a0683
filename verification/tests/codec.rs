//! The wire text against serde_json as an independent referee: the channel
//! escapes strings and prints numerals exactly as a JSON peer expects.

use control_channel::channel::ControlChannel;
use control_channel::envelope::decode_string_response;

fn ready_channel() -> ControlChannel {
    let mut c = ControlChannel::create();
    c.initialize().unwrap();
    c
}

fn store_line_for(data: &str) -> String {
    let c = ready_channel();
    let line = c.store_request(b"k", data.as_bytes());
    String::from_utf8(line).unwrap()
}

#[test]
fn escaping_matches_serde_json() {
    let tricky = [
        "plain",
        "with \"quotes\" and \\backslashes\\",
        "tab\there, newline\nthere, return\rback",
        "control \u{1f} and \u{08} and \u{0c}",
        "unicode caf\u{e9} \u{1f980}",
        "",
    ];
    for s in tricky {
        let line = store_line_for(s);
        let doc: serde_json::Value = serde_json::from_str(line.trim_end()).unwrap();
        assert_eq!(doc["param"]["data"].as_str().unwrap(), s);
        // Byte-for-byte: the data field is written exactly as serde_json
        // would write the same string.
        let expected = serde_json::to_string(s).unwrap();
        let inner = &expected[1..expected.len() - 1];
        assert!(line.contains(&format!("\"data\":\"{}\"", inner)), "line: {line}");
    }
}

#[test]
fn unescaping_matches_serde_json() {
    let values = ["plain", "a\"b\\c", "x\ty\nz", "low \u{01}\u{1f}", "caf\u{e9}"];
    for s in values {
        let wire = format!("{}{}{}", "{\"response\":", serde_json::to_string(s).unwrap(), "}");
        let decoded = decode_string_response(wire.as_bytes()).unwrap();
        assert_eq!(decoded, s.as_bytes().to_vec());
    }
}

#[test]
fn numerals_have_no_leading_zeros_and_reach_the_maximum() {
    let c = ready_channel();
    let line = String::from_utf8(c.check_flag_request(u32::MAX, b"")).unwrap();
    assert!(line.contains("\"tick\":4294967295"));
    let line = String::from_utf8(c.check_flag_request(0, b"")).unwrap();
    assert!(line.contains("\"tick\":0"));
}

#[test]
fn full_escape_repertoire_is_accepted() {
    // A JSON peer may spell a string any way the grammar allows; every
    // spelling decodes to the bytes it denotes.
    assert_eq!(
        decode_string_response(b"{\"response\":\"\\u0041\"}").unwrap(),
        b"A".to_vec()
    );
    assert_eq!(
        decode_string_response(b"{\"response\":\"\\u001F\"}").unwrap(),
        vec![0x1fu8]
    );
    assert_eq!(
        decode_string_response(b"{\"response\":\"a\\/b\"}").unwrap(),
        b"a/b".to_vec()
    );
    assert_eq!(
        decode_string_response(b"{\"response\":\"\\u0001\"}").unwrap(),
        vec![1u8]
    );
    // A two-byte and a three-byte scalar named by one \uXXXX escape.
    assert_eq!(
        decode_string_response(b"{\"response\":\"\\u00e9\"}").unwrap(),
        "\u{e9}".as_bytes().to_vec()
    );
    assert_eq!(
        decode_string_response(b"{\"response\":\"\\u20AC\"}").unwrap(),
        "\u{20ac}".as_bytes().to_vec()
    );
}

#[test]
fn surrogate_pairs_map_to_utf8() {
    let decoded = decode_string_response(b"{\"response\":\"\\ud83e\\udd80\"}").unwrap();
    assert_eq!(decoded, "\u{1f980}".as_bytes().to_vec());
    let expected: String = serde_json::from_str("\"\\ud83e\\udd80\"").unwrap();
    assert_eq!(decoded, expected.as_bytes().to_vec());
}

#[test]
fn invalid_escapes_are_rejected() {
    // Not JSON at all: an unknown escape, or a lone surrogate, which
    // denotes no byte sequence. serde_json rejects these too.
    assert!(decode_string_response(b"{\"response\":\"\\x41\"}").is_err());
    assert!(decode_string_response(b"{\"response\":\"\\ud83e\"}").is_err());
    assert!(decode_string_response(b"{\"response\":\"\\udd80 low first\"}").is_err());
    assert!(serde_json::from_str::<String>("\"\\ud83e\"").is_err());
}
