use eon_stream_engine::Error;

#[test]
fn mpv_not_found_tells_you_what_to_do() {
    let rendered = Error::MpvNotFound.to_string();
    assert!(rendered.contains("winget"), "not actionable: {rendered}");
}

#[test]
fn messages_carry_their_detail() {
    let rendered = Error::PlayerIpc {
        message: "pipe closed".into(),
    }
    .to_string();
    assert!(rendered.contains("pipe closed"));
}

#[test]
fn each_error_reads_as_its_sentence() {
    assert_eq!(
        Error::MpvNotFound.to_string(),
        "mpv was not found. Install it (winget install shinchiro.mpv on Windows, or your package manager elsewhere), or set the mpv path explicitly"
    );
    assert_eq!(
        Error::PlayerLaunch { message: "denied".into() }.to_string(),
        "could not start mpv: denied"
    );
    assert_eq!(
        Error::PlayerIpc { message: "gone".into() }.to_string(),
        "lost contact with mpv: gone"
    );
    assert_eq!(
        Error::PlayerCommand { message: "property unavailable".into() }.to_string(),
        "mpv rejected the command: property unavailable"
    );
    assert_eq!(
        Error::UnplayableSource { reason: "a torrent needs the engine".into() }.to_string(),
        "this source cannot be played directly: a torrent needs the engine"
    );
}

#[test]
fn the_detail_ends_the_sentence() {
    let detail = "socket reset by peer";
    let rendered = Error::PlayerLaunch { message: detail.into() }.to_string();
    assert!(rendered.ends_with(detail));
    let empty = Error::PlayerCommand { message: String::new() }.to_string();
    assert_eq!(empty, "mpv rejected the command: ");
}
