use ferrous::rpc::methods::{body_reply, classify_request, BodyReply, RequestKind};
use ferrous::rpc::body::{after_parse, AttemptParse, ParseStep, json_span, parse_attempts, requote_backslashes, strip_nul, trim_body, unescape_quotes};

#[test]
fn trims_whitespace_and_nul() {
    assert_eq!(trim_body(b"\0 \t{\"a\":1}\r\n\0"), b"{\"a\":1}");
    assert_eq!(trim_body(b"  \0 "), b"");
    assert_eq!(trim_body(b"x"), b"x");
}

#[test]
fn strips_nul() {
    assert_eq!(strip_nul(b"a\0b\0"), b"ab".to_vec());
}

#[test]
fn unescapes_escaped_objects() {
    assert_eq!(unescape_quotes(br#"{\"method\":\"getinfo\"}"#), Some(br#"{"method":"getinfo"}"#.to_vec()));
    assert_eq!(unescape_quotes(br#"[{\"a\":1}]"#), Some(br#"[{"a":1}]"#.to_vec()));
    assert_eq!(unescape_quotes(br#"{"a":1}"#), None);
}

#[test]
fn requotes_lost_quotes() {
    assert_eq!(requote_backslashes(br#"{\method\:\getinfo\,\id\:1}"#), Some(br#"{"method":"getinfo","id":1}"#.to_vec()));
    assert_eq!(requote_backslashes(br#"{"a":1}"#), None);
    assert_eq!(requote_backslashes(b"{a:1}"), None);
}

#[test]
fn finds_json_span() {
    assert_eq!(json_span(b"garbage {\"a\":[1]} tail"), Some((8, 16)));
    assert_eq!(json_span(b"no json"), None);
    assert_eq!(json_span(b"} {"), None);
}

#[test]
fn parse_attempts_come_in_repair_order() {
    let a = parse_attempts(b" {\\\"a\\\":1}\0 ");
    assert_eq!(a[0], (b"{\\\"a\\\":1}".to_vec(), true));
    assert_eq!(a[1], (b"{\\\"a\\\":1}".to_vec(), true));
    assert_eq!(a[2], (b"{\"a\":1}".to_vec(), false));
    assert_eq!(a[3], (b"{\\\"a\\\":1}".to_vec(), false));
    assert_eq!(a[4], (b"{\"a\":1}".to_vec(), false));
    assert_eq!(a.len(), 5);
    let plain = parse_attempts(b"x\0y");
    assert_eq!(plain, vec![(b"x\0y".to_vec(), true), (b"xy".to_vec(), true)]);
    let requoted = parse_attempts(b"{\\a\\:1}");
    assert_eq!(requoted[2], (b"{\"a\":1}".to_vec(), false));
}

#[test]
fn requests_and_replies_are_classified() {
    assert_eq!(classify_request(false, "getinfo", true), RequestKind::Invalid);
    assert_eq!(classify_request(true, "", true), RequestKind::Invalid);
    assert_eq!(classify_request(true, "stop", true), RequestKind::Call { stop: true });
    assert_eq!(classify_request(true, "stop", false), RequestKind::Notification { stop: true });
    assert_eq!(classify_request(true, "getinfo", false), RequestKind::Notification { stop: false });
    assert_eq!(classify_request(true, "stops", true), RequestKind::Call { stop: false });
    assert_eq!(body_reply(true, 0, 0), BodyReply::InvalidRequest);
    assert_eq!(body_reply(true, 3, 0), BodyReply::NoContent);
    assert_eq!(body_reply(true, 3, 2), BodyReply::Answers);
    assert_eq!(body_reply(false, 1, 0), BodyReply::NoContent);
    assert_eq!(body_reply(false, 1, 1), BodyReply::Answers);
}

#[test]
fn parse_steps_follow_the_attempt_kind() {
    assert_eq!(after_parse(true, AttemptParse::Failed), ParseStep::Next);
    assert_eq!(after_parse(false, AttemptParse::Failed), ParseStep::Next);
    assert_eq!(after_parse(true, AttemptParse::Text), ParseStep::ReadTextAgain);
    assert_eq!(after_parse(false, AttemptParse::Text), ParseStep::Use);
    assert_eq!(after_parse(true, AttemptParse::Other), ParseStep::Use);
    assert_eq!(after_parse(false, AttemptParse::Other), ParseStep::Use);
}
