use eon_stream_engine::ipc::{
    command_request, extract_field, reply_for, ReplyEvent, ReplyStep, ReplyWait, RequestCounter,
    MAX_REPLY_LINES,
};
use eon_stream_engine::Error;

#[test]
fn reads_a_string_field() {
    let line = r#"{"data":"Big Buck Bunny","request_id":3,"error":"success"}"#;
    assert_eq!(
        extract_field(line, "data").as_deref(),
        Some("Big Buck Bunny")
    );
    assert_eq!(extract_field(line, "error").as_deref(), Some("success"));
}

#[test]
fn reads_a_numeric_field() {
    let line = r#"{"data":12.5,"request_id":1,"error":"success"}"#;
    assert_eq!(extract_field(line, "data").as_deref(), Some("12.5"));
}

#[test]
fn reads_a_field_at_the_end() {
    let line = r#"{"request_id":1,"error":"success","data":42}"#;
    assert_eq!(extract_field(line, "data").as_deref(), Some("42"));
}

#[test]
fn absent_field_is_none() {
    let line = r#"{"event":"file-loaded"}"#;
    assert_eq!(extract_field(line, "data"), None);
}

#[test]
fn a_field_value_is_trimmed_and_may_run_to_the_end() {
    assert_eq!(extract_field(r#"{"data":   7 ,"x":1}"#, "data").as_deref(), Some("7"));
    assert_eq!(extract_field("{\"data\": 7  \n", "data").as_deref(), Some("7"));
    assert_eq!(extract_field(r#"{"data":"unterminated"#, "data"), None);
    assert_eq!(extract_field(r#"{"data":true}"#, "data").as_deref(), Some("true"));
}

#[test]
fn a_request_is_a_json_command_with_its_id() {
    assert_eq!(
        command_request(&["get_property", "pause"], 7),
        r#"{"command":["get_property","pause"],"request_id":7}"#
    );
    assert_eq!(command_request(&[], 0), r#"{"command":[],"request_id":0}"#);
}

#[test]
fn arguments_are_escaped() {
    assert_eq!(
        command_request(&["a\"b\\c\nd\re\tf\u{1}g\u{1f}"], 12),
        r#"{"command":["a\"b\\c\nd\re\tf\u0001g\u001f"],"request_id":12}"#
    );
    assert_eq!(
        command_request(&["ü/€ \u{7f}"], 1),
        "{\"command\":[\"ü/€ \u{7f}\"],\"request_id\":1}"
    );
}

#[test]
fn request_ids_count_up_from_one_and_wrap() {
    let mut counter = RequestCounter::new();
    let (first, line) = counter.prepare(&["quit"]);
    assert_eq!(first, 1);
    assert_eq!(line, r#"{"command":["quit"],"request_id":1}"#);
    let (second, _) = counter.prepare(&["quit"]);
    assert_eq!(second, 2);
    assert_eq!(u64::MAX.wrapping_add(1), 0);
    assert_eq!(
        command_request(&["x"], u64::MAX),
        r#"{"command":["x"],"request_id":18446744073709551615}"#
    );
}

#[test]
fn a_reply_is_recognised_by_its_request_id() {
    let line = r#"{"data":"0.38.0","request_id":4,"error":"success"}"#;
    match reply_for(line, 4, false) {
        Some(Ok(v)) => assert_eq!(v, "0.38.0"),
        other => panic!("unexpected {other:?}"),
    }
    match reply_for(line, 4, true) {
        Some(Ok(v)) => assert_eq!(v, line),
        other => panic!("unexpected {other:?}"),
    }
    assert!(reply_for(line, 5, false).is_none());
    assert!(reply_for(r#"{"event":"playback-restart"}"#, 4, false).is_none());
}

#[test]
fn a_reply_without_data_gives_an_empty_value() {
    match reply_for(r#"{"request_id":9,"error":"success"}"#, 9, false) {
        Some(Ok(v)) => assert_eq!(v, ""),
        other => panic!("unexpected {other:?}"),
    }
}

#[test]
fn a_rejection_carries_mpvs_error() {
    match reply_for(r#"{"request_id":2,"error":"property not found"}"#, 2, false) {
        Some(Err(Error::PlayerCommand { message })) => assert_eq!(message, "property not found"),
        other => panic!("unexpected {other:?}"),
    }
    match reply_for("  {\"request_id\":2}  \n", 2, false) {
        Some(Err(Error::PlayerCommand { message })) => assert_eq!(message, "{\"request_id\":2}"),
        other => panic!("unexpected {other:?}"),
    }
}

#[test]
fn waiting_skips_events_and_stops_at_the_reply() {
    let mut wait = ReplyWait::new(3, false);
    assert!(matches!(
        wait.step(ReplyEvent::Line(r#"{"event":"file-loaded"}"#.into())),
        ReplyStep::ReadAnother
    ));
    assert!(matches!(
        wait.step(ReplyEvent::Line(r#"{"request_id":2,"error":"success"}"#.into())),
        ReplyStep::ReadAnother
    ));
    match wait.step(ReplyEvent::Line(
        "{\"data\":false,\"request_id\":3,\"error\":\"success\"}\n".into(),
    )) {
        ReplyStep::Finished(Ok(v)) => assert_eq!(v, "false"),
        _ => panic!("expected the reply"),
    }
}

#[test]
fn waiting_ends_on_a_closed_or_failed_channel() {
    let mut wait = ReplyWait::new(1, true);
    match wait.step(ReplyEvent::Closed) {
        ReplyStep::Finished(Err(Error::PlayerIpc { message })) => {
            assert_eq!(message, "mpv closed the control channel")
        }
        _ => panic!("expected an error"),
    }
    let mut wait = ReplyWait::new(1, true);
    match wait.step(ReplyEvent::ReadFailed("broken pipe".into())) {
        ReplyStep::Finished(Err(Error::PlayerIpc { message })) => assert_eq!(message, "broken pipe"),
        _ => panic!("expected an error"),
    }
}

#[test]
fn waiting_gives_up_after_the_line_limit() {
    let mut wait = ReplyWait::new(1, false);
    for _ in 0..MAX_REPLY_LINES - 1 {
        assert!(matches!(
            wait.step(ReplyEvent::Line(r#"{"event":"tick"}"#.into())),
            ReplyStep::ReadAnother
        ));
    }
    match wait.step(ReplyEvent::Line(r#"{"event":"tick"}"#.into())) {
        ReplyStep::Finished(Err(Error::PlayerIpc { message })) => assert_eq!(message, "no reply from mpv"),
        _ => panic!("expected to give up"),
    }
}

#[test]
fn a_request_carries_the_marker_its_reply_is_found_by() {
    let request = command_request(&["get_property", "volume"], 31);
    assert!(request.contains("\"request_id\":31"));
    let reply = r#"{"data":50.000000,"request_id":31,"error":"success"}"#;
    match reply_for(reply, 31, false) {
        Some(Ok(v)) => assert_eq!(v, "50.000000"),
        other => panic!("unexpected {other:?}"),
    }
}

#[test]
fn another_requests_reply_is_skipped_even_when_its_id_starts_with_ours() {
    let mut wait = ReplyWait::new(1, false);
    assert!(matches!(
        wait.step(ReplyEvent::Line(r#"{"data":"x","request_id":12,"error":"success"}"#.into())),
        ReplyStep::ReadAnother
    ));
    match wait.step(ReplyEvent::Line(r#"{"data":"y","request_id":1,"error":"success"}"#.into())) {
        ReplyStep::Finished(Ok(v)) => assert_eq!(v, "y"),
        _ => panic!("expected the reply"),
    }
    assert!(reply_for(r#"{"request_id":10,"error":"success"}"#, 1, true).is_none());
    assert!(reply_for(r#"{"error":"success","request_id":1}"#, 1, true).is_some());
    assert!(reply_for("{\"error\":\"success\",\"request_id\":1", 1, true).is_some());
    assert!(reply_for("{\"request_id\":1 ,\"error\":\"success\"}", 1, true).is_some());
}
