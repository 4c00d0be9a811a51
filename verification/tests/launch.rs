use eon_stream_engine::launch::{
    launch_step, LaunchEvent, LaunchStep, lookup_result, quit_step, ConnectAttempts, ConnectStep, QuitEvent, QuitStep, channel_unopened, launch_arguments, pipe_name, socket_file_name, spawn_failure,
    stderr_transcript, usable_header_fields, Endpoint, LaunchSettings, LookupStep, MpvLookup,
};
use eon_stream_engine::{Error, PlaybackSource};

fn plain() -> LaunchSettings {
    LaunchSettings {
        start_paused: false,
        fullscreen: false,
        title: None,
        start_at: None,
        subtitle_urls: Vec::new(),
        http_headers: Vec::new(),
        extra_args: Vec::new(),
    }
}

#[test]
fn the_plain_command_line() {
    let endpoint = Endpoint::named("/tmp/sock".into());
    let args = launch_arguments(&endpoint, &PlaybackSource::Url("https://x/v.mkv".into()), &plain());
    assert_eq!(
        args,
        [
            "--input-ipc-server=/tmp/sock",
            "--idle=once",
            "--force-window=yes",
            "--no-config",
            "--msg-level=all=warn",
            "--",
            "https://x/v.mkv"
        ]
    );
}

#[test]
fn every_setting_reaches_the_command_line_in_order() {
    let endpoint = Endpoint::named(r"\\.\pipe\p".into());
    let settings = LaunchSettings {
        start_paused: true,
        fullscreen: true,
        title: Some("Film".into()),
        start_at: Some("12.5".into()),
        subtitle_urls: vec!["a.srt".into(), "b.srt".into()],
        http_headers: vec![
            ("Referer".into(), "https://example.org/".into()),
            ("User-Agent".into(), "EON-Stream-Test".into()),
            ("X-Bad".into(), "a,b".into()),
            ("".into(), "empty-name".into()),
            ("A,B".into(), "v".into()),
        ],
        extra_args: vec!["--vo=null".into(), "--ao=null".into()],
    };
    let args = launch_arguments(&endpoint, &PlaybackSource::File("/m/--weird.mkv".into()), &settings);
    assert_eq!(
        args,
        [
            r"--input-ipc-server=\\.\pipe\p",
            "--idle=once",
            "--force-window=yes",
            "--no-config",
            "--msg-level=all=warn",
            "--pause",
            "--fullscreen",
            "--title=Film",
            "--start=12.5",
            "--sub-file=a.srt",
            "--sub-file=b.srt",
            "--http-header-fields=Referer: https://example.org/,User-Agent: EON-Stream-Test",
            "--vo=null",
            "--ao=null",
            "--",
            "/m/--weird.mkv"
        ]
    );
}

#[test]
fn headers_with_commas_are_dropped_not_mangled() {
    let fields = usable_header_fields(&vec![
        ("X-Bad".into(), "a,b".into()),
        ("Ok".into(), "fine".into()),
    ]);
    assert_eq!(fields, ["Ok: fine"]);
    let settings = LaunchSettings {
        http_headers: vec![("X-Bad".into(), "a,b".into())],
        ..plain()
    };
    let args = launch_arguments(&Endpoint::named("e".into()), &PlaybackSource::Url("u".into()), &settings);
    assert!(!args.iter().any(|a| a.starts_with("--http-header-fields")));
    let joined = "--http-header-fields=A: 1,B: 2";
    let settings = LaunchSettings {
        http_headers: vec![("A".into(), "1".into()), ("B".into(), "2".into())],
        ..plain()
    };
    let args = launch_arguments(&Endpoint::named("e".into()), &PlaybackSource::Url("u".into()), &settings);
    assert!(args.iter().any(|a| a == joined));
}

#[test]
fn channel_names_carry_pid_and_stamp() {
    assert_eq!(pipe_name(42, 1700000000123456789), r"\\.\pipe\eon-stream-mpv-42-1700000000123456789");
    assert_eq!(socket_file_name(7, 0), "eon-stream-mpv-7-0.sock");
    assert_eq!(Endpoint::named("abc".into()).mpv_argument(), "abc");
}

#[test]
fn a_missing_program_is_a_missing_mpv() {
    assert!(matches!(spawn_failure(true, "No such file".into()), Error::MpvNotFound));
    match spawn_failure(false, "permission denied".into()) {
        Error::PlayerLaunch { message } => assert_eq!(message, "permission denied"),
        other => panic!("unexpected {other:?}"),
    }
}

#[test]
fn an_unopened_channel_says_why() {
    match channel_unopened(None) {
        Error::PlayerIpc { message } => {
            assert_eq!(message, "mpv did not open its control channel: timed out")
        }
        other => panic!("unexpected {other:?}"),
    }
    match channel_unopened(Some("connection refused".into())) {
        Error::PlayerIpc { message } => {
            assert_eq!(message, "mpv did not open its control channel: connection refused")
        }
        other => panic!("unexpected {other:?}"),
    }
}

#[test]
fn stderr_lines_are_put_back_together() {
    assert_eq!(stderr_transcript(&vec![]), "");
    assert_eq!(stderr_transcript(&vec!["a".into(), "".into(), "b c".into()]), "a\n\nb c\n");
}

fn path(step: &LookupStep) -> String {
    match step {
        LookupStep::CheckFile(p) => format!("check {p}"),
        LookupStep::TryRunning(p) => format!("run {p}"),
        LookupStep::Found(p) => format!("found {p}"),
        LookupStep::NotFound => "not found".into(),
    }
}

#[test]
fn an_explicit_path_is_the_only_one_tried() {
    let mut lookup = MpvLookup::new(Some("/opt/mpv".into()), Some("/env/mpv".into()), false);
    assert_eq!(path(&lookup.current()), "check /opt/mpv");
    assert_eq!(path(&lookup.report(false)), "not found");
    assert_eq!(path(&lookup.report(true)), "not found");

    let mut lookup = MpvLookup::new(Some("/opt/mpv".into()), None, true);
    assert_eq!(path(&lookup.report(true)), "found /opt/mpv");
}

#[test]
fn the_lookup_tries_the_environment_then_install_locations_then_path() {
    let mut lookup = MpvLookup::new(None, Some("/env/mpv".into()), false);
    let mut seen = vec![path(&lookup.current())];
    loop {
        let next = lookup.report(false);
        let p = path(&next);
        seen.push(p.clone());
        if p == "not found" {
            break;
        }
    }
    assert_eq!(
        seen,
        [
            "check /env/mpv",
            r"check C:\Program Files\MPV Player\mpv.exe",
            r"check C:\Program Files\mpv\mpv.exe",
            r"check C:\Program Files (x86)\mpv\mpv.exe",
            r"check C:\ProgramData\chocolatey\bin\mpv.exe",
            r"check C:\ProgramData\chocolatey\lib\mpvio.install\tools\mpv.exe",
            "check /usr/bin/mpv",
            "check /usr/local/bin/mpv",
            "check /opt/homebrew/bin/mpv",
            "run mpv",
            "not found"
        ]
    );
}

#[test]
fn the_lookup_stops_at_the_first_hit() {
    let mut lookup = MpvLookup::new(None, None, true);
    for _ in 0..5 {
        lookup.report(false);
    }
    assert_eq!(path(&lookup.current()), "check /usr/bin/mpv");
    assert_eq!(path(&lookup.report(true)), "found /usr/bin/mpv");
    assert_eq!(path(&lookup.report(false)), "found /usr/bin/mpv");

    let mut lookup = MpvLookup::new(None, None, true);
    for _ in 0..8 {
        lookup.report(false);
    }
    assert_eq!(path(&lookup.current()), "run mpv.exe");
    assert_eq!(path(&lookup.report(true)), "found mpv.exe");
}

#[test]
fn launches_never_share_a_channel_name() {
    assert_ne!(pipe_name(1, 23), pipe_name(12, 3));
    assert_ne!(socket_file_name(1, 23), socket_file_name(12, 3));
    assert_ne!(socket_file_name(5, 5), socket_file_name(5, 6));
}

#[test]
fn the_header_list_splits_back_into_its_fields() {
    let headers: Vec<(String, String)> = vec![
        ("Referer".into(), "https://example.org/a?b=c".into()),
        ("X-Bad".into(), "1,2".into()),
        ("Cookie".into(), "k=v; other=w".into()),
    ];
    let fields = usable_header_fields(&headers);
    let settings = LaunchSettings {
        http_headers: headers,
        ..plain()
    };
    let args = launch_arguments(&Endpoint::named("e".into()), &PlaybackSource::Url("u".into()), &settings);
    let list = args
        .iter()
        .find_map(|a| a.strip_prefix("--http-header-fields="))
        .unwrap();
    let pieces: Vec<&str> = list.split(',').collect();
    assert_eq!(pieces, fields);
    assert_eq!(pieces, ["Referer: https://example.org/a?b=c", "Cookie: k=v; other=w"]);
}

#[test]
fn closing_waits_then_kills() {
    assert!(matches!(quit_step(QuitEvent::Exited), QuitStep::Done(Ok(()))));
    assert!(matches!(
        quit_step(QuitEvent::StillRunning { elapsed_millis: 0 }),
        QuitStep::PollAfter { millis: 50 }
    ));
    assert!(matches!(
        quit_step(QuitEvent::StillRunning { elapsed_millis: 2999 }),
        QuitStep::PollAfter { millis: 50 }
    ));
    assert!(matches!(quit_step(QuitEvent::StillRunning { elapsed_millis: 3000 }), QuitStep::Kill));
    assert!(matches!(quit_step(QuitEvent::WaitedAfterKill(Ok(()))), QuitStep::Done(Ok(()))));
    match quit_step(QuitEvent::WaitedAfterKill(Err("no child".into()))) {
        QuitStep::Done(Err(Error::PlayerLaunch { message })) => assert_eq!(message, "no child"),
        other => panic!("unexpected {other:?}"),
    }
}

#[test]
fn connecting_retries_until_the_limit() {
    let mut attempts = ConnectAttempts::new(1_000_000_000);
    assert!(matches!(attempts.before_attempt(0), ConnectStep::TryOpen));
    assert!(matches!(
        attempts.after_failure("connection refused".into()),
        ConnectStep::PauseFor { millis: 60 }
    ));
    assert!(matches!(attempts.before_attempt(999_999_999), ConnectStep::TryOpen));
    match attempts.before_attempt(1_000_000_000) {
        ConnectStep::GiveUp(Error::PlayerIpc { message }) => {
            assert_eq!(message, "mpv did not open its control channel: connection refused")
        }
        other => panic!("unexpected {other:?}"),
    }
    match ConnectAttempts::new(0).before_attempt(0) {
        ConnectStep::GiveUp(Error::PlayerIpc { message }) => {
            assert_eq!(message, "mpv did not open its control channel: timed out")
        }
        other => panic!("unexpected {other:?}"),
    }
}

#[test]
fn a_settled_lookup_gives_the_path_or_a_missing_mpv() {
    assert!(matches!(lookup_result(LookupStep::Found("/usr/bin/mpv".into())), Some(Ok(p)) if p == "/usr/bin/mpv"));
    assert!(matches!(lookup_result(LookupStep::NotFound), Some(Err(Error::MpvNotFound))));
    assert!(lookup_result(LookupStep::CheckFile("x".into())).is_none());
}

#[test]
fn each_launch_outcome_gets_its_error() {
    assert!(matches!(
        launch_step(LaunchEvent::Located(Ok("/usr/bin/mpv".into()))),
        LaunchStep::Spawn(p) if p == "/usr/bin/mpv"
    ));
    assert!(matches!(
        launch_step(LaunchEvent::Located(Err(Error::MpvNotFound))),
        LaunchStep::Done(Err(Error::MpvNotFound))
    ));
    assert!(matches!(
        launch_step(LaunchEvent::SpawnFailed { program_missing: true, message: "gone".into() }),
        LaunchStep::Done(Err(Error::MpvNotFound))
    ));
    assert!(matches!(
        launch_step(LaunchEvent::SpawnFailed { program_missing: false, message: "denied".into() }),
        LaunchStep::Done(Err(Error::PlayerLaunch { message })) if message == "denied"
    ));
    assert!(matches!(launch_step(LaunchEvent::Spawned), LaunchStep::Connect));
    assert!(matches!(launch_step(LaunchEvent::ChannelOpened), LaunchStep::Done(Ok(()))));
    assert!(matches!(
        launch_step(LaunchEvent::ChannelFailed(Error::PlayerIpc { message: "x".into() })),
        LaunchStep::Done(Err(Error::PlayerIpc { message })) if message == "x"
    ));
}

#[test]
fn an_endpoint_is_a_pipe_on_windows_and_a_socket_file_elsewhere() {
    assert_eq!(Endpoint::new(12, 34, "/tmp", true).mpv_argument(), r"\\.\pipe\eon-stream-mpv-12-34");
    assert_eq!(Endpoint::new(12, 34, "/tmp", false).mpv_argument(), "/tmp/eon-stream-mpv-12-34.sock");
    assert_eq!(Endpoint::new(12, 34, "/tmp/", false).mpv_argument(), "/tmp/eon-stream-mpv-12-34.sock");
    assert_ne!(
        Endpoint::new(12, 34, "/tmp", false).mpv_argument(),
        Endpoint::new(1, 234, "/tmp", false).mpv_argument()
    );
}
