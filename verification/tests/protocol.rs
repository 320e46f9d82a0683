//! End-to-end exercises of the control channel against a scripted
//! supervisor double, with serde_json and base64 as independent referees
//! for the wire format.

use std::collections::HashMap;

use control_channel::channel::{ControlChannel, LogLevel, LogRecord};
use control_channel::envelope::{decode_request, decode_response, decode_string_response, Request};
use control_channel::error::ChannelError;

fn ready_channel() -> ControlChannel {
    let mut c = ControlChannel::create();
    c.initialize().expect("initialize is infallible");
    c
}

fn line_str(line: &[u8]) -> &str {
    std::str::from_utf8(line).expect("request lines are UTF-8")
}

#[test]
fn initialize_succeeds() {
    let mut c = ControlChannel::create();
    assert!(c.initialize().is_ok());
}

#[test]
fn flag_request_exact_line() {
    let c = ready_channel();
    let line = c.check_flag_request(7, b"abc");
    assert_eq!(
        line_str(&line),
        "{\"action\":\"FLAG\",\"param\":{\"payload\":\"YWJj\",\"tick\":7}}\n"
    );
}

#[test]
fn flag_request_payload_is_base64() {
    let c = ready_channel();
    let payload = [0u8, 255, 17, 34, 51];
    let line = c.check_flag_request(3, &payload);
    let doc: serde_json::Value =
        serde_json::from_str(line_str(&line).trim_end()).expect("line is valid JSON");
    assert_eq!(doc["action"], serde_json::Value::String("FLAG".to_string()));
    let expected = base64::Engine::encode(&base64::engine::general_purpose::STANDARD, payload);
    assert_eq!(doc["param"]["payload"].as_str().unwrap(), expected);
    assert_eq!(doc["param"]["tick"].as_u64().unwrap(), 3);
}

#[test]
fn flag_request_empty_payload() {
    let c = ready_channel();
    let line = c.check_flag_request(0, b"");
    assert_eq!(
        line_str(&line),
        "{\"action\":\"FLAG\",\"param\":{\"payload\":\"\",\"tick\":0}}\n"
    );
}

#[test]
fn flag_response_returns_verdict() {
    let c = ready_channel();
    let verdict = c
        .check_flag_response(b"{\"response\":\"flag accepted\"}\n")
        .expect("well-formed response decodes");
    assert_eq!(verdict, b"flag accepted".to_vec());
}

#[test]
fn flag_scenario_one_line_out_verdict_back() {
    let c = ready_channel();
    let line = c.check_flag_request(42, b"proof");
    assert_eq!(line.iter().filter(|&&b| b == b'\n').count(), 1);
    assert_eq!(*line.last().unwrap(), b'\n');
    let injected = b"{\"response\":\"ok\"}\n";
    assert_eq!(c.check_flag_response(injected).unwrap(), b"ok".to_vec());
}

#[test]
fn store_request_exact_line() {
    let c = ready_channel();
    let data = serde_json::to_string(&42).unwrap();
    let line = c.store_request(b"score", data.as_bytes());
    assert_eq!(
        line_str(&line),
        "{\"action\":\"STORE\",\"param\":{\"key\":\"score\",\"data\":\"42\"}}\n"
    );
}

#[test]
fn store_data_field_holds_serialization() {
    let c = ready_channel();
    let value = vec!["a".to_string(), "b\"c".to_string()];
    let data = serde_json::to_string(&value).unwrap();
    let line = c.store_request(b"items", data.as_bytes());
    let doc: serde_json::Value =
        serde_json::from_str(line_str(&line).trim_end()).expect("line is valid JSON");
    let stored = doc["param"]["data"].as_str().unwrap();
    let parsed: serde_json::Value = serde_json::from_str(stored).unwrap();
    assert_eq!(parsed, serde_json::to_value(&value).unwrap());
}

#[test]
fn load_request_exact_line() {
    let c = ready_channel();
    let line = c.load_request(b"score");
    assert_eq!(line_str(&line), "{\"action\":\"LOAD\",\"param\":\"score\"}\n");
}

#[test]
fn load_response_decodes_into_expected_shape() {
    let c = ready_channel();
    let stored = c
        .load_response(b"{\"response\":\"42\"}\n")
        .expect("string-shaped response decodes");
    let value: i64 = serde_json::from_slice(&stored).unwrap();
    assert_eq!(value, 42);
}

#[test]
fn load_response_wrong_shape_is_decode_error() {
    let c = ready_channel();
    let r = c.load_response(b"{\"response\":{\"a\":1}}\n");
    assert_eq!(r, Err(ChannelError::Decode));
}

#[test]
fn store_then_load_through_echoing_double() {
    // A supervisor double that accepts STORE lines and echoes the stored
    // text back as the response of a later LOAD.
    let c = ready_channel();
    let mut held: HashMap<String, String> = HashMap::new();

    let data = serde_json::to_string(&42).unwrap();
    let store_line = c.store_request(b"score", data.as_bytes());
    let doc: serde_json::Value = serde_json::from_str(line_str(&store_line).trim_end()).unwrap();
    held.insert(
        doc["param"]["key"].as_str().unwrap().to_string(),
        doc["param"]["data"].as_str().unwrap().to_string(),
    );

    let load_line = c.load_request(b"score");
    let doc: serde_json::Value = serde_json::from_str(line_str(&load_line).trim_end()).unwrap();
    let key = doc["param"].as_str().unwrap();
    let echoed = held.get(key).expect("the double holds what was stored");
    let response = format!(
        "{}{}{}",
        "{\"response\":",
        serde_json::to_string(echoed).unwrap(),
        "}\n"
    );

    let stored = c.load_response(response.as_bytes()).unwrap();
    let value: i64 = serde_json::from_slice(&stored).unwrap();
    assert_eq!(value, 42);
}

#[test]
fn log_levels_map_to_exact_codes() {
    let c = ready_channel();
    let cases = [
        (LogLevel::Error, 40u64),
        (LogLevel::Warn, 30),
        (LogLevel::Info, 20),
        (LogLevel::Debug, 10),
        (LogLevel::Trace, 5),
    ];
    for (level, code) in cases {
        let rec = LogRecord {
            level,
            message: b"m".to_vec(),
            origin_module: Some(b"worker::checks".to_vec()),
            file: Some(b"src/checks.rs".to_vec()),
            line: Some(12),
        };
        let line = c.log_request(&rec);
        let doc: serde_json::Value = serde_json::from_str(line_str(&line).trim_end()).unwrap();
        assert_eq!(doc["action"], serde_json::Value::String("LOG".to_string()));
        assert_eq!(doc["param"]["level"].as_u64().unwrap(), code);
        assert_eq!(doc["param"]["message"].as_str().unwrap(), "m");
        assert_eq!(doc["param"]["funcName"].as_str().unwrap(), "worker::checks");
        assert_eq!(doc["param"]["pathname"].as_str().unwrap(), "src/checks.rs");
        assert_eq!(doc["param"]["lineno"].as_u64().unwrap(), 12);
    }
}

#[test]
fn log_missing_origin_defaults_to_empty_and_zero() {
    let c = ready_channel();
    let rec = LogRecord {
        level: LogLevel::Info,
        message: b"hello".to_vec(),
        origin_module: None,
        file: None,
        line: None,
    };
    let line = c.log_request(&rec);
    assert_eq!(
        line_str(&line),
        "{\"action\":\"LOG\",\"param\":{\"level\":20,\"message\":\"hello\",\"funcName\":\"\",\"pathname\":\"\",\"lineno\":0}}\n"
    );
}

#[test]
fn result_request_wraps_raw_json() {
    let c = ready_channel();
    let line = c.submit_result_request(b"{\"passed\":true,\"points\":3}");
    assert_eq!(
        line_str(&line),
        "{\"action\":\"RESULT\",\"param\":{\"passed\":true,\"points\":3}}\n"
    );
    let doc: serde_json::Value = serde_json::from_str(line_str(&line).trim_end()).unwrap();
    assert_eq!(doc["param"]["passed"], serde_json::Value::Bool(true));
}

#[test]
fn closed_endpoint_empty_read_is_an_error_not_a_default() {
    // The peer closed the inbound endpoint before writing anything: the
    // read hands back no bytes, and decoding must fail rather than invent
    // an empty verdict.
    let c = ready_channel();
    let r = c.check_flag_response(b"");
    assert_eq!(r, Err(ChannelError::Decode));
}

#[test]
fn truncated_response_is_an_error() {
    let c = ready_channel();
    assert_eq!(
        c.check_flag_response(b"{\"response\":\"cut"),
        Err(ChannelError::Decode)
    );
    assert_eq!(decode_response(b"{\"respo"), Err(ChannelError::Decode));
}

#[test]
fn request_round_trip_all_actions() {
    let requests = vec![
        Request::Flag { tick: u32::MAX, payload: b"WUFZ".to_vec() },
        Request::Store { key: b"k\"ey".to_vec(), data: b"{\"v\":1}".to_vec() },
        Request::Load { key: b"plain".to_vec() },
        Request::Log {
            level: 40,
            message: "line one\nline two \u{1f980}".as_bytes().to_vec(),
            func_name: b"a::b".to_vec(),
            pathname: b"c/d.rs".to_vec(),
            lineno: 0,
        },
        Request::Result { json: b"[1,2,3]".to_vec() },
    ];
    for req in requests {
        let line = control_channel::envelope::encode_request(&req);
        let back = decode_request(&line).expect("canonical text decodes");
        assert_eq!(back, req);
    }
}

#[test]
fn decode_request_rejects_near_misses() {
    assert!(decode_request(b"").is_err());
    assert!(decode_request(b"{\"action\":\"PING\",\"param\":1}").is_err());
    // Trailing junk after a complete FLAG request.
    assert!(decode_request(b"{\"action\":\"FLAG\",\"param\":{\"payload\":\"\",\"tick\":1}}x").is_err());
    // A leading zero is not the canonical numeral of any tick.
    assert!(decode_request(b"{\"action\":\"FLAG\",\"param\":{\"payload\":\"\",\"tick\":01}}").is_err());
    // The fields of the param object in the wrong order.
    assert!(decode_request(b"{\"action\":\"FLAG\",\"param\":{\"tick\":1,\"payload\":\"\"}}").is_err());
}

#[test]
fn empty_key_and_data_round_trip() {
    let c = ready_channel();
    let line = c.store_request(b"", b"");
    assert_eq!(
        line_str(&line),
        "{\"action\":\"STORE\",\"param\":{\"key\":\"\",\"data\":\"\"}}\n"
    );
    let req = Request::Store { key: Vec::new(), data: Vec::new() };
    let encoded = control_channel::envelope::encode_request(&req);
    assert_eq!(decode_request(&encoded).unwrap(), req);
}

#[test]
fn decode_string_response_accepts_with_and_without_newline() {
    assert_eq!(
        decode_string_response(b"{\"response\":\"v\"}").unwrap(),
        b"v".to_vec()
    );
    assert_eq!(
        decode_string_response(b"{\"response\":\"v\"}\n").unwrap(),
        b"v".to_vec()
    );
    assert_eq!(
        decode_string_response(b"{\"response\":\"v\"}\r\n").unwrap(),
        b"v".to_vec()
    );
}

#[test]
fn responses_with_insignificant_whitespace_are_accepted() {
    // The supervisor owes a JSON document of this form, in any spelling:
    // a pretty-printer's space after the colon, or whitespace around every
    // token, changes nothing.
    let c = ready_channel();
    assert_eq!(
        c.check_flag_response(b"{\"response\": \"ok\"}\n").unwrap(),
        b"ok".to_vec()
    );
    assert_eq!(
        c.load_response(b" { \"response\" : \"42\" } \n").unwrap(),
        b"42".to_vec()
    );
    assert_eq!(
        c.check_flag_response(b"{\t\"response\"\t:\t\"ok\"\t}").unwrap(),
        b"ok".to_vec()
    );
    // serde_json's pretty printer is one such peer.
    let pretty =
        serde_json::to_string_pretty(&serde_json::Value::Object(serde_json::Map::from_iter([(
            "response".to_string(),
            serde_json::Value::String("ok".to_string()),
        )])))
        .unwrap();
    assert!(pretty.contains('\n'));
    assert_eq!(
        c.check_flag_response(pretty.as_bytes()).unwrap(),
        b"ok".to_vec()
    );
}

#[test]
fn response_member_name_may_be_escaped() {
    // `{"resp\u006fnse": v}` names the same member; a differently named
    // member is not this envelope.
    assert_eq!(
        decode_string_response(b"{\"resp\\u006fnse\":\"x\"}").unwrap(),
        b"x".to_vec()
    );
    assert!(decode_string_response(b"{\"reply\":\"x\"}").is_err());
}
