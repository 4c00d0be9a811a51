use eon_stream_engine::track::{
    number_field, parse_track_list, string_field, track_from, tracks_from_reply,
};
use eon_stream_engine::Error;

/// Shape taken from a real mpv reply.
const REPLY: &str = r#"{"data":[{"id":1,"type":"video","selected":true,"codec":"h264"},{"id":1,"type":"audio","lang":"eng","title":"Stereo","selected":true},{"id":2,"type":"audio","lang":"tur","selected":false},{"id":1,"type":"sub","lang":"tur","external":true,"selected":false}],"request_id":7,"error":"success"}"#;

#[test]
fn reads_every_track_with_its_kind_and_language() {
    let tracks = parse_track_list(REPLY);
    assert_eq!(tracks.len(), 4);

    assert_eq!(tracks[0].kind, "video");
    assert!(tracks[0].selected);
    assert_eq!(tracks[0].language, None);

    assert_eq!(tracks[1].kind, "audio");
    assert_eq!(tracks[1].language.as_deref(), Some("eng"));
    assert_eq!(tracks[1].title.as_deref(), Some("Stereo"));
    assert!(tracks[1].selected);

    assert_eq!(tracks[2].language.as_deref(), Some("tur"));
    assert!(!tracks[2].selected);

    assert_eq!(tracks[3].kind, "sub");
}

#[test]
fn ids_repeat_across_kinds_and_that_is_fine() {
    // mpv numbers each kind from 1, so audio 1 and sub 1 both exist.
    let tracks = parse_track_list(REPLY);
    let audio: Vec<u32> = tracks
        .iter()
        .filter(|t| t.kind == "audio")
        .map(|t| t.id)
        .collect();
    assert_eq!(audio, [1, 2]);
}

#[test]
fn an_empty_list_is_empty_not_an_error() {
    assert!(parse_track_list(r#"{"data":[],"request_id":1,"error":"success"}"#).is_empty());
}

#[test]
fn a_reply_without_data_yields_nothing() {
    assert!(parse_track_list(r#"{"event":"file-loaded"}"#).is_empty());
}

#[test]
fn a_track_missing_its_kind_is_skipped_not_guessed() {
    let line =
        r#"{"data":[{"id":1,"codec":"h264"},{"id":2,"type":"audio"}],"error":"success"}"#;
    let tracks = parse_track_list(line);
    assert_eq!(tracks.len(), 1);
    assert_eq!(tracks[0].kind, "audio");
}

#[test]
fn display_lines_mark_the_selected_track() {
    let tracks = parse_track_list(REPLY);
    assert!(tracks[1].display_line().starts_with('*'));
    assert!(tracks[2].display_line().starts_with(' '));
    assert!(tracks[1].display_line().contains("Stereo"));
}

#[test]
fn a_track_with_a_quoted_id_is_skipped() {
    let tracks = parse_track_list(r#"{"data":[{"id":"1","type":"audio"},{"id":3,"type":"sub"}]}"#);
    assert_eq!(tracks.len(), 1);
    assert_eq!(tracks[0].id, 3);
}

#[test]
fn ids_are_read_as_mpv_numbers() {
    let tracks = parse_track_list(
        r#"{"data":[{"id":2.0,"type":"a"},{"id":-1,"type":"b"},{"id":1e1,"type":"c"},{"id":99999999999,"type":"d"},{"id":x,"type":"e"}]}"#,
    );
    let ids: Vec<(u32, &str)> = tracks.iter().map(|t| (t.id, t.kind.as_str())).collect();
    assert_eq!(ids, [(2, "a"), (0, "b"), (10, "c"), (u32::MAX, "d")]);
}

#[test]
fn fields_are_read_from_a_flat_object() {
    let object = r#""id": 4 ,"type":"audio","title":"Director's, cut""#;
    assert_eq!(number_field(object, "id").as_deref(), Some("4"));
    assert_eq!(number_field(object, "type"), None);
    assert_eq!(string_field(object, "type").as_deref(), Some("audio"));
    assert_eq!(string_field(object, "title").as_deref(), Some("Director's, cut"));
    assert_eq!(string_field(object, "lang"), None);
    assert_eq!(number_field(r#""id":7"#, "id").as_deref(), Some("7"));
}

#[test]
fn a_track_needs_an_id_and_a_kind() {
    let t = track_from(r#""id":5,"type":"sub","lang":"deu","selected":true"#).unwrap();
    assert_eq!(t.id, 5);
    assert_eq!(t.kind, "sub");
    assert_eq!(t.language.as_deref(), Some("deu"));
    assert_eq!(t.title, None);
    assert!(t.selected);
    assert!(track_from(r#""type":"sub""#).is_none());
    assert!(track_from(r#""id":5"#).is_none());
}

#[test]
fn a_track_reply_is_read_and_an_error_passed_on() {
    let tracks = tracks_from_reply(Ok(REPLY.into())).unwrap();
    assert_eq!(tracks, parse_track_list(REPLY));
    match tracks_from_reply(Err(Error::PlayerIpc { message: "gone".into() })) {
        Err(Error::PlayerIpc { message }) => assert_eq!(message, "gone"),
        other => panic!("unexpected {other:?}"),
    }
}
