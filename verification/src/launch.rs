//! Starting mpv: where to look for it, what to name its control channel,
//! and the command line it is started with. Looking at the file system and
//! starting the process are left to the caller.
use vstd::prelude::*;

use crate::error::Error;
use crate::player::{is_separator, texts, PlaybackSource};
use crate::text::{decimal, join_with, lacks_char, lacks_char_exec, push_char, push_decimal, push_text};

verus! {

// ---------------------------------------------------------------------------
// The command line
// ---------------------------------------------------------------------------

/// How to launch mpv, as plain values.
#[derive(Debug)]
pub struct LaunchSettings {
    /// Start paused, so the caller can seek before the first frame.
    pub start_paused: bool,
    /// Open fullscreen.
    pub fullscreen: bool,
    /// Window title mpv shows.
    pub title: Option<String>,
    /// Where to start playing, already written as mpv reads a number of
    /// seconds; only given for a position past the start.
    pub start_at: Option<String>,
    /// Subtitle files or URLs to load alongside the source.
    pub subtitle_urls: Vec<String>,
    /// Headers to send with the media request, as name and value.
    pub http_headers: Vec<(String, String)>,
    /// Extra arguments, appended last.
    pub extra_args: Vec<String>,
}

/// Launch settings as plain values.
pub struct LaunchView {
    pub start_paused: bool,
    pub fullscreen: bool,
    pub title: Option<Seq<char>>,
    pub start_at: Option<Seq<char>>,
    pub subtitle_urls: Seq<Seq<char>>,
    pub http_headers: Seq<(Seq<char>, Seq<char>)>,
    pub extra_args: Seq<Seq<char>>,
}

/// The headers, as name and value texts.
pub open spec fn header_texts(headers: Seq<(String, String)>) -> Seq<(Seq<char>, Seq<char>)> {
    headers.map_values(|h: (String, String)| (h.0@, h.1@))
}

impl View for LaunchSettings {
    type V = LaunchView;

    open spec fn view(&self) -> LaunchView {
        LaunchView {
            start_paused: self.start_paused,
            fullscreen: self.fullscreen,
            title: self.title.deep_view(),
            start_at: self.start_at.deep_view(),
            subtitle_urls: texts(self.subtitle_urls@),
            http_headers: header_texts(self.http_headers@),
            extra_args: texts(self.extra_args@),
        }
    }
}

/// A header mpv's comma-separated list can carry: a non-empty name, and no
/// comma in the name or the value. A comma would split the list wrongly, so
/// such a header is left out rather than sent mangled.
pub open spec fn header_usable(name: Seq<char>, value: Seq<char>) -> bool {
    &&& name.len() > 0
    &&& lacks_char(name, ',')
    &&& lacks_char(value, ',')
}

/// The `name: value` fields of the usable headers, in order.
pub open spec fn header_fields(headers: Seq<(Seq<char>, Seq<char>)>) -> Seq<Seq<char>>
    decreases headers.len(),
{
    if headers.len() == 0 {
        Seq::<Seq<char>>::empty()
    } else {
        let earlier = header_fields(headers.drop_last());
        let (name, value) = headers.last();
        if header_usable(name, value) {
            earlier.push(name + ": "@ + value)
        } else {
            earlier
        }
    }
}

/// The header argument: one comma-separated list of the usable fields, or
/// nothing when there are none.
pub open spec fn header_args(headers: Seq<(Seq<char>, Seq<char>)>) -> Seq<Seq<char>> {
    if header_fields(headers).len() == 0 {
        Seq::<Seq<char>>::empty()
    } else {
        seq!["--http-header-fields="@ + join_with(header_fields(headers), ',')]
    }
}

/// The arguments that never change: the control channel, staying open when
/// the source fails, a window, no user configuration, and warnings only.
pub open spec fn fixed_args(endpoint: Seq<char>) -> Seq<Seq<char>> {
    seq![
        "--input-ipc-server="@ + endpoint,
        "--idle=once"@,
        "--force-window=yes"@,
        "--no-config"@,
        "--msg-level=all=warn"@,
    ]
}

/// The switches the settings turn on, in order: start paused, fullscreen,
/// the window title and the start position.
pub open spec fn flag_args(o: LaunchView) -> Seq<Seq<char>> {
    (if o.start_paused {
        seq!["--pause"@]
    } else {
        Seq::<Seq<char>>::empty()
    }) + (if o.fullscreen {
        seq!["--fullscreen"@]
    } else {
        Seq::<Seq<char>>::empty()
    }) + (match o.title {
        Some(t) => seq!["--title="@ + t],
        None => Seq::<Seq<char>>::empty(),
    }) + (match o.start_at {
        Some(s) => seq!["--start="@ + s],
        None => Seq::<Seq<char>>::empty(),
    })
}

/// Each item with `prefix` before it.
pub open spec fn prefix_each(prefix: Seq<char>, items: Seq<Seq<char>>) -> Seq<Seq<char>> {
    items.map_values(|u: Seq<char>| prefix + u)
}

/// The arguments the settings add: the switches, one subtitle argument per
/// subtitle, the header list, and the extra arguments last.
pub open spec fn option_args(o: LaunchView) -> Seq<Seq<char>> {
    flag_args(o) + prefix_each("--sub-file="@, o.subtitle_urls) + header_args(o.http_headers)
        + o.extra_args
}

/// mpv's whole command line after the program: the fixed arguments, those
/// the settings add, then `--` and the source, so the source is never read
/// as an option.
pub open spec fn launch_args(endpoint: Seq<char>, source: Seq<char>, o: LaunchView) -> Seq<
    Seq<char>,
> {
    fixed_args(endpoint) + option_args(o) + seq!["--"@, source]
}

/// `prefix` followed by `value`, as one string.
fn prefixed(prefix: &str, value: &str) -> (res: String)
    ensures
        res@ == prefix@ + value@,
{
    let mut s = String::from_str(prefix);
    push_text(&mut s, value);
    s
}

/// The `name: value` fields of the usable headers.
pub fn usable_header_fields(headers: &Vec<(String, String)>) -> (res: Vec<String>)
    ensures
        texts(res@) == header_fields(header_texts(headers@)),
{
    let ghost hs = header_texts(headers@);
    let mut fields: Vec<String> = Vec::new();
    let mut i: usize = 0;
    assert(hs.take(0) =~= Seq::<(Seq<char>, Seq<char>)>::empty());
    assert(texts(fields@) =~= Seq::<Seq<char>>::empty());
    while i < headers.len()
        invariant
            i <= headers.len(),
            hs == header_texts(headers@),
            texts(fields@) == header_fields(hs.take(i as int)),
        decreases headers.len() - i,
    {
        let name = &headers[i].0;
        let value = &headers[i].1;
        let ghost part = hs.take(i + 1);
        assert(part.drop_last() =~= hs.take(i as int));
        assert(part.last() == (name@, value@));
        if !name.as_str().is_empty() && lacks_char_exec(name.as_str(), ',') && lacks_char_exec(
            value.as_str(),
            ',',
        ) {
            let mut field = prefixed(name.as_str(), ": ");
            push_text(&mut field, value.as_str());
            fields.push(field);
            assert(texts(fields@) =~= header_fields(part));
        } else {
            assert(texts(fields@) =~= header_fields(part));
        }
        i += 1;
    }
    assert(hs.take(headers.len() as int) =~= hs);
    fields
}

/// The pieces joined with commas between them.
fn join_commas(pieces: &Vec<String>) -> (res: String)
    ensures
        res@ == join_with(texts(pieces@), ','),
{
    let mut out = String::new();
    let mut i: usize = 0;
    assert(texts(pieces@).take(0) =~= Seq::<Seq<char>>::empty());
    while i < pieces.len()
        invariant
            i <= pieces.len(),
            out@ == join_with(texts(pieces@).take(i as int), ','),
        decreases pieces.len() - i,
    {
        let ghost t = texts(pieces@).take(i + 1);
        assert(t.drop_last() =~= texts(pieces@).take(i as int));
        if i > 0 {
            push_char(&mut out, ',');
        } else {
            assert(out@ =~= Seq::<char>::empty());
        }
        push_text(&mut out, pieces[i].as_str());
        assert(out@ =~= join_with(t, ','));
        i += 1;
    }
    assert(texts(pieces@).take(pieces.len() as int) =~= texts(pieces@));
    out
}

/// Appends the switches the settings turn on.
fn push_flags(args: &mut Vec<String>, settings: &LaunchSettings)
    ensures
        texts(final(args)@) == texts(old(args)@) + flag_args(settings@),
{
    let ghost start = texts(args@);
    if settings.start_paused {
        args.push(String::from_str("--pause"));
    }
    if settings.fullscreen {
        args.push(String::from_str("--fullscreen"));
    }
    match &settings.title {
        Some(title) => args.push(prefixed("--title=", title.as_str())),
        None => {},
    }
    match &settings.start_at {
        Some(start) => args.push(prefixed("--start=", start.as_str())),
        None => {},
    }
    assert(texts(args@) =~= start + flag_args(settings@));
}

/// Appends each item with `prefix` before it.
fn push_prefixed_each(args: &mut Vec<String>, prefix: &str, items: &Vec<String>)
    ensures
        texts(final(args)@) == texts(old(args)@) + prefix_each(prefix@, texts(items@)),
{
    let ghost start = texts(args@);
    let ghost all = prefix_each(prefix@, texts(items@));
    let mut i: usize = 0;
    assert(texts(args@) =~= start + all.take(0));
    while i < items.len()
        invariant
            i <= items.len(),
            all == prefix_each(prefix@, texts(items@)),
            texts(args@) == start + all.take(i as int),
        decreases items.len() - i,
    {
        let ghost prev = texts(args@);
        args.push(prefixed(prefix, items[i].as_str()));
        assert(texts(args@) =~= prev.push(all[i as int]));
        assert(all.take(i + 1) =~= all.take(i as int).push(all[i as int]));
        i += 1;
    }
    assert(all.take(items.len() as int) =~= all);
}

/// Appends each item as it is.
fn push_each(args: &mut Vec<String>, items: &Vec<String>)
    ensures
        texts(final(args)@) == texts(old(args)@) + texts(items@),
{
    let ghost start = texts(args@);
    let ghost all = texts(items@);
    let mut i: usize = 0;
    assert(texts(args@) =~= start + all.take(0));
    while i < items.len()
        invariant
            i <= items.len(),
            all == texts(items@),
            texts(args@) == start + all.take(i as int),
        decreases items.len() - i,
    {
        let ghost prev = texts(args@);
        args.push(items[i].clone());
        assert(texts(args@) =~= prev.push(all[i as int]));
        assert(all.take(i + 1) =~= all.take(i as int).push(all[i as int]));
        i += 1;
    }
    assert(all.take(items.len() as int) =~= all);
}

/// Appends the header list, when any header is usable.
fn push_headers(args: &mut Vec<String>, headers: &Vec<(String, String)>)
    ensures
        texts(final(args)@) == texts(old(args)@) + header_args(header_texts(headers@)),
{
    let ghost start = texts(args@);
    let fields = usable_header_fields(headers);
    if fields.len() > 0 {
        let list = join_commas(&fields);
        args.push(prefixed("--http-header-fields=", list.as_str()));
    }
    assert(texts(args@) =~= start + header_args(header_texts(headers@)));
}

/// mpv's command line for playing `source` with `settings`, the control
/// channel at `endpoint`.
pub fn launch_arguments(endpoint: &Endpoint, source: &PlaybackSource, settings: &LaunchSettings) -> (res: Vec<String>)
    ensures
        texts(res@) == launch_args(
            endpoint.name(),
            match source {
                PlaybackSource::Url(u) => u@,
                PlaybackSource::File(p) => p@,
            },
            settings@,
        ),
{
    let mut args: Vec<String> = Vec::new();
    args.push(prefixed("--input-ipc-server=", endpoint.mpv_argument()));
    args.push(String::from_str("--idle=once"));
    args.push(String::from_str("--force-window=yes"));
    args.push(String::from_str("--no-config"));
    args.push(String::from_str("--msg-level=all=warn"));
    assert(texts(args@) =~= fixed_args(endpoint.name()));
    push_flags(&mut args, settings);
    push_prefixed_each(&mut args, "--sub-file=", &settings.subtitle_urls);
    push_headers(&mut args, &settings.http_headers);
    push_each(&mut args, &settings.extra_args);
    let ghost before_end = texts(args@);
    args.push(String::from_str("--"));
    args.push(source.as_argument());
    proof {
        let src = match source {
            PlaybackSource::Url(u) => u@,
            PlaybackSource::File(p) => p@,
        };
        assert(texts(args@) =~= before_end + seq!["--"@, src]);
        assert(texts(args@) =~= launch_args(endpoint.name(), src, settings@));
    }
    args
}

/// The command line always turns off user configuration, and always ends
/// with `--` and the source, so no source can pass for an option.
pub proof fn lemma_launch_args_guard_the_source(endpoint: Seq<char>, source: Seq<char>, o: LaunchView)
    ensures
        launch_args(endpoint, source, o).len() >= 7,
        launch_args(endpoint, source, o)[3] == "--no-config"@,
        launch_args(endpoint, source, o).last() == source,
        launch_args(endpoint, source, o)[launch_args(endpoint, source, o).len() - 2] == "--"@,
{
}

/// A text that starts with `lit`, whose third character is neither `p` nor
/// `f`, is neither switch.
proof fn lemma_not_a_switch(lit: Seq<char>, rest: Seq<char>)
    requires
        lit.len() >= 3,
        lit[2] != 'p',
        lit[2] != 'f',
    ensures
        lit + rest != "--pause"@,
        lit + rest != "--fullscreen"@,
{
    reveal_strlit("--pause");
    reveal_strlit("--fullscreen");
    assert((lit + rest)[2] == lit[2]);
    assert("--pause"@[2] == 'p');
    assert("--fullscreen"@[2] == 'f');
}

/// No argument of the list is either switch.
spec fn holds_no_switch(args: Seq<Seq<char>>) -> bool {
    !args.contains("--pause"@) && !args.contains("--fullscreen"@)
}

/// The fixed arguments, the subtitle arguments and the header list hold no
/// switch.
proof fn lemma_other_args_hold_no_switch(endpoint: Seq<char>, o: LaunchView)
    ensures
        holds_no_switch(fixed_args(endpoint)),
        holds_no_switch(prefix_each("--sub-file="@, o.subtitle_urls)),
        holds_no_switch(header_args(o.http_headers)),
        holds_no_switch(
            match o.title {
                Some(t) => seq!["--title="@ + t],
                None => Seq::<Seq<char>>::empty(),
            },
        ),
        holds_no_switch(
            match o.start_at {
                Some(v) => seq!["--start="@ + v],
                None => Seq::<Seq<char>>::empty(),
            },
        ),
{
    reveal_strlit("--input-ipc-server=");
    reveal_strlit("--idle=once");
    reveal_strlit("--force-window=yes");
    reveal_strlit("--no-config");
    reveal_strlit("--msg-level=all=warn");
    reveal_strlit("--sub-file=");
    reveal_strlit("--http-header-fields=");
    reveal_strlit("--title=");
    reveal_strlit("--start=");
    reveal_strlit("--pause");
    reveal_strlit("--fullscreen");
    let empty = Seq::<char>::empty();
    let fixed = fixed_args(endpoint);
    lemma_not_a_switch("--input-ipc-server="@, endpoint);
    lemma_not_a_switch("--idle=once"@, empty);
    lemma_not_a_switch("--no-config"@, empty);
    lemma_not_a_switch("--msg-level=all=warn"@, empty);
    assert("--idle=once"@ + empty =~= "--idle=once"@);
    assert("--no-config"@ + empty =~= "--no-config"@);
    assert("--msg-level=all=warn"@ + empty =~= "--msg-level=all=warn"@);
    assert("--force-window=yes"@.len() == 18);
    assert forall|i: int| 0 <= i < fixed.len() implies fixed[i] != "--pause"@ && fixed[i]
        != "--fullscreen"@ by {
        if i == 2 {
            assert(fixed[i].len() == 18);
        }
    }
    let subs = prefix_each("--sub-file="@, o.subtitle_urls);
    assert forall|i: int| 0 <= i < subs.len() implies subs[i] != "--pause"@ && subs[i]
        != "--fullscreen"@ by {
        lemma_not_a_switch("--sub-file="@, o.subtitle_urls[i]);
    }
    if header_fields(o.http_headers).len() > 0 {
        lemma_not_a_switch("--http-header-fields="@, join_with(header_fields(o.http_headers), ','));
        assert(header_args(o.http_headers)[0] != "--pause"@);
    }
    match o.title {
        Some(t) => lemma_not_a_switch("--title="@, t),
        None => {},
    }
    match o.start_at {
        Some(v) => lemma_not_a_switch("--start="@, v),
        None => {},
    }
}

/// Each switch follows its own setting. Before the `--` that guards the
/// source, `--pause` is given exactly when the player is to start paused and
/// `--fullscreen` exactly when it is to open fullscreen (or when the extra
/// arguments give them); neither setting turns on the other's switch.
pub proof fn lemma_switches_follow_their_settings(endpoint: Seq<char>, source: Seq<char>, o: LaunchView)
    ensures
        ({
            let args = launch_args(endpoint, source, o);
            &&& args.take(args.len() - 2).contains("--pause"@) <==> (o.start_paused
                || o.extra_args.contains("--pause"@))
            &&& args.take(args.len() - 2).contains("--fullscreen"@) <==> (o.fullscreen
                || o.extra_args.contains("--fullscreen"@))
        }),
{
    broadcast use vstd::seq_lib::lemma_seq_concat_contains_all_elements;

    reveal_strlit("--pause");
    reveal_strlit("--fullscreen");
    lemma_other_args_hold_no_switch(endpoint, o);
    let args = launch_args(endpoint, source, o);
    let pause = if o.start_paused {
        seq!["--pause"@]
    } else {
        Seq::<Seq<char>>::empty()
    };
    let full = if o.fullscreen {
        seq!["--fullscreen"@]
    } else {
        Seq::<Seq<char>>::empty()
    };
    let title = match o.title {
        Some(t) => seq!["--title="@ + t],
        None => Seq::<Seq<char>>::empty(),
    };
    let start = match o.start_at {
        Some(v) => seq!["--start="@ + v],
        None => Seq::<Seq<char>>::empty(),
    };
    let subs = prefix_each("--sub-file="@, o.subtitle_urls);
    let heads = header_args(o.http_headers);
    assert(flag_args(o) == pause + full + title + start);
    assert(args.take(args.len() - 2) =~= fixed_args(endpoint) + (pause + full + title + start)
        + subs + heads + o.extra_args);
    assert("--pause"@ != "--fullscreen"@) by {
        assert("--pause"@.len() != "--fullscreen"@.len());
    }
    assert(pause.contains("--pause"@) <==> o.start_paused) by {
        if o.start_paused {
            assert(pause[0] == "--pause"@);
        }
    }
    assert(!pause.contains("--fullscreen"@));
    assert(full.contains("--fullscreen"@) <==> o.fullscreen) by {
        if o.fullscreen {
            assert(full[0] == "--fullscreen"@);
        }
    }
    assert(!full.contains("--pause"@));
}

/// Splitting the header list on commas gives back exactly the usable fields,
/// in order: no field can break the list apart.
pub proof fn lemma_header_list_splits_back(headers: Seq<(Seq<char>, Seq<char>)>)
    requires
        header_fields(headers).len() > 0,
    ensures
        crate::text::split_on(join_with(header_fields(headers), ','), ',') == header_fields(
            headers,
        ),
        forall|i: int|
            0 <= i < header_fields(headers).len() ==> lacks_char(
                #[trigger] header_fields(headers)[i],
                ',',
            ),
{
    lemma_header_fields_lack_commas(headers);
    crate::text::lemma_split_join(header_fields(headers), ',');
}

/// No field of the header list holds a comma.
proof fn lemma_header_fields_lack_commas(headers: Seq<(Seq<char>, Seq<char>)>)
    ensures
        forall|i: int, j: int|
            0 <= i < header_fields(headers).len() && 0 <= j < header_fields(headers)[i].len()
                ==> header_fields(headers)[i][j] != ',',
    decreases headers.len(),
{
    if headers.len() > 0 {
        lemma_header_fields_lack_commas(headers.drop_last());
        let (name, value) = headers.last();
        let earlier = header_fields(headers.drop_last());
        if header_usable(name, value) {
            let field = name + ": "@ + value;
            reveal_strlit(": ");
            assert forall|j: int| 0 <= j < field.len() implies field[j] != ',' by {
                if j < name.len() {
                } else if j < name.len() + 2 {
                } else {
                    assert(field[j] == value[j - name.len() - 2]);
                }
            }
            assert(header_fields(headers) == earlier.push(field));
            assert forall|i: int, j: int|
                0 <= i < header_fields(headers).len() && 0 <= j < header_fields(headers)[i].len()
                    implies header_fields(headers)[i][j] != ',' by {
                if i < earlier.len() {
                    assert(header_fields(headers)[i] == earlier[i]);
                } else {
                    assert(header_fields(headers)[i] == field);
                }
            }
        } else {
            assert(header_fields(headers) == earlier);
        }
    }
}

/// The error for a process that would not start: a missing program is a
/// missing mpv, anything else a launch failure with the system's message.
pub fn spawn_failure(program_missing: bool, message: String) -> (res: Error)
    ensures
        program_missing ==> res is MpvNotFound,
        !program_missing ==> (res matches Error::PlayerLaunch { message: m } && m@ == message@),
{
    if program_missing {
        Error::MpvNotFound
    } else {
        Error::PlayerLaunch { message }
    }
}

// ---------------------------------------------------------------------------
// The control channel's name
// ---------------------------------------------------------------------------

/// A name mpv will listen on, and the player will connect to.
#[derive(Debug)]
pub struct Endpoint {
    name: String,
}

/// The stem shared by every channel name: the process id and a time stamp,
/// so two players never share a channel.
pub open spec fn channel_stem(pid: u32, stamp: u128) -> Seq<char> {
    "eon-stream-mpv-"@ + decimal(pid as nat) + seq!['-'] + decimal(stamp as nat)
}

/// Two launches that differ in process id or time stamp get different
/// channel names, so two players never share a channel.
pub proof fn lemma_channel_names_differ(pid1: u32, stamp1: u128, pid2: u32, stamp2: u128)
    requires
        pid1 != pid2 || stamp1 != stamp2,
    ensures
        channel_stem(pid1, stamp1) != channel_stem(pid2, stamp2),
        "\\\\.\\pipe\\"@ + channel_stem(pid1, stamp1) != "\\\\.\\pipe\\"@ + channel_stem(pid2, stamp2),
        channel_stem(pid1, stamp1) + ".sock"@ != channel_stem(pid2, stamp2) + ".sock"@,
{
    let pre = "eon-stream-mpv-"@;
    let a1 = decimal(pid1 as nat);
    let a2 = decimal(pid2 as nat);
    let b1 = decimal(stamp1 as nat);
    let b2 = decimal(stamp2 as nat);
    let s1 = channel_stem(pid1, stamp1);
    let s2 = channel_stem(pid2, stamp2);
    crate::text::lemma_decimal_digits(pid1 as nat);
    crate::text::lemma_decimal_digits(pid2 as nat);
    if s1 == s2 {
        assert(s1 =~= pre + a1 + seq!['-'] + b1);
        assert(s2 =~= pre + a2 + seq!['-'] + b2);
        if a1.len() < a2.len() {
            assert(s1[(pre.len() + a1.len()) as int] == '-');
            assert(s2[(pre.len() + a1.len()) as int] == a2[a1.len() as int]);
        } else if a2.len() < a1.len() {
            assert(s2[(pre.len() + a2.len()) as int] == '-');
            assert(s1[(pre.len() + a2.len()) as int] == a1[a2.len() as int]);
        } else {
            assert(a1 =~= s1.subrange(pre.len() as int, (pre.len() + a1.len()) as int));
            assert(a2 =~= s2.subrange(pre.len() as int, (pre.len() + a2.len()) as int));
            crate::text::lemma_decimal_injective(pid1 as nat, pid2 as nat);
            assert(b1 =~= s1.skip((pre.len() + a1.len() + 1) as int));
            assert(b2 =~= s2.skip((pre.len() + a2.len() + 1) as int));
            crate::text::lemma_decimal_injective(stamp1 as nat, stamp2 as nat);
        }
    }
    let pipe = "\\\\.\\pipe\\"@;
    if pipe + s1 == pipe + s2 {
        assert(s1 =~= (pipe + s1).skip(pipe.len() as int));
        assert(s2 =~= (pipe + s2).skip(pipe.len() as int));
    }
    let sock = ".sock"@;
    if s1 + sock == s2 + sock {
        assert(s1 =~= (s1 + sock).take(s1.len() as int));
        assert((s1 + sock).len() == (s2 + sock).len());
        assert(s1.len() == s2.len());
        assert(s2 =~= (s2 + sock).take(s2.len() as int));
    }
}

/// The stem of the channel name.
fn stem(pid: u32, stamp: u128) -> (res: String)
    ensures
        res@ == channel_stem(pid, stamp),
{
    let mut s = String::from_str("eon-stream-mpv-");
    push_decimal(&mut s, pid as u128);
    push_char(&mut s, '-');
    push_decimal(&mut s, stamp as u128);
    s
}

/// The named pipe used on Windows.
pub fn pipe_name(pid: u32, stamp: u128) -> (res: String)
    ensures
        res@ == "\\\\.\\pipe\\"@ + channel_stem(pid, stamp),
{
    let mut s = String::from_str("\\\\.\\pipe\\");
    let t = stem(pid, stamp);
    push_text(&mut s, t.as_str());
    s
}

/// The file name of the Unix socket, to be placed in the temporary directory.
pub fn socket_file_name(pid: u32, stamp: u128) -> (res: String)
    ensures
        res@ == channel_stem(pid, stamp) + ".sock"@,
{
    let mut s = stem(pid, stamp);
    push_text(&mut s, ".sock");
    s
}

/// A path that Windows reads as verbatim: it starts with `\\?\`.
pub open spec fn verbatim_path(path: Seq<char>) -> bool {
    &&& path.len() >= 4
    &&& path[0] == '\\'
    &&& path[1] == '\\'
    &&& path[2] == '?'
    &&& path[3] == '\\'
}

/// A name that joins onto a directory as written on every platform: not
/// empty, not starting with a separator, and with no `:`.
pub open spec fn simple_file_name(name: Seq<char>) -> bool {
    &&& name.len() > 0
    &&& !is_separator(name[0])
    &&& lacks_char(name, ':')
}

/// `path` is `dir` followed by `name`, with a separator between them or
/// none.
pub open spec fn joined_simply(path: Seq<char>, dir: Seq<char>, name: Seq<char>) -> bool {
    ||| path == dir + name
    ||| path == dir + seq!['/'] + name
    ||| path == dir + seq!['\\'] + name
}

/// std's `Path::join` of `dir` and `file`, converted to text.
///
/// Claimed of it: when `file` is a simple name and `dir` is not a Windows
/// verbatim path, the result is `dir`, a separator or none, then `file`
/// (which separator, and whether one is put, follows the platform). For
/// other inputs nothing is claimed: a verbatim directory is rebuilt from
/// its components, and an absolute `file` replaces the directory.
#[verifier::external_body]
fn join_file_name(dir: &str, file: &str) -> (res: String)
    ensures
        simple_file_name(file@) && !verbatim_path(dir@) ==> joined_simply(res@, dir@, file@),
{
    std::path::Path::new(dir).join(file).to_string_lossy().into_owned()
}

/// The name of the channel of a launch with this process id and time stamp:
/// a named pipe on Windows, else a socket file in `temp_dir`.
pub open spec fn channel_name_for(
    name: Seq<char>,
    pid: u32,
    stamp: u128,
    temp_dir: Seq<char>,
    windows: bool,
) -> bool {
    if windows {
        name == "\\\\.\\pipe\\"@ + channel_stem(pid, stamp)
    } else {
        joined_simply(name, temp_dir, channel_stem(pid, stamp) + ".sock"@)
    }
}

/// The socket's file name joins onto a directory as written: it starts
/// with `e` and holds no `:`.
proof fn lemma_socket_file_name_simple(pid: u32, stamp: u128)
    ensures
        simple_file_name(channel_stem(pid, stamp) + ".sock"@),
        (channel_stem(pid, stamp) + ".sock"@)[0] == 'e',
{
    reveal_strlit("eon-stream-mpv-");
    reveal_strlit(".sock");
    crate::text::lemma_decimal_digits(pid as nat);
    crate::text::lemma_decimal_digits(stamp as nat);
    let pre = "eon-stream-mpv-"@;
    let a = decimal(pid as nat);
    let b = decimal(stamp as nat);
    let f = channel_stem(pid, stamp) + ".sock"@;
    assert(f =~= pre + a + seq!['-'] + b + ".sock"@);
    assert forall|i: int| 0 <= i < f.len() implies f[i] != ':' by {
        if i < pre.len() {
            assert(f[i] == pre[i]);
        } else if i < pre.len() + a.len() {
            assert(f[i] == a[i - pre.len()]);
        } else if i == pre.len() + a.len() {
        } else if i < pre.len() + a.len() + 1 + b.len() {
            assert(f[i] == b[i - pre.len() - a.len() - 1]);
        } else {
            assert(f[i] == ".sock"@[i - pre.len() - a.len() - 1 - b.len()]);
        }
    }
}

/// Two launches that differ in process id or time stamp never share a
/// channel: on one platform, with one temporary directory, the names their
/// endpoints get differ.
pub proof fn lemma_endpoints_never_share_a_name(
    pid1: u32,
    stamp1: u128,
    pid2: u32,
    stamp2: u128,
    temp_dir: Seq<char>,
    windows: bool,
    name1: Seq<char>,
    name2: Seq<char>,
)
    requires
        pid1 != pid2 || stamp1 != stamp2,
        channel_name_for(name1, pid1, stamp1, temp_dir, windows),
        channel_name_for(name2, pid2, stamp2, temp_dir, windows),
    ensures
        name1 != name2,
{
    lemma_channel_names_differ(pid1, stamp1, pid2, stamp2);
    if !windows && name1 == name2 {
        lemma_socket_file_name_simple(pid1, stamp1);
        lemma_socket_file_name_simple(pid2, stamp2);
        let f1 = channel_stem(pid1, stamp1) + ".sock"@;
        let f2 = channel_stem(pid2, stamp2) + ".sock"@;
        let k = temp_dir.len() as int;
        let n = name1;
        if n == temp_dir + f1 {
            assert(n[k] == 'e');
            if n == temp_dir + f2 {
                assert(f1 =~= n.skip(k));
                assert(f2 =~= n.skip(k));
            } else {
                assert(n[k] == '/' || n[k] == '\\');
            }
        } else if n == temp_dir + f2 {
            assert(n[k] == 'e');
            assert(n[k] == '/' || n[k] == '\\');
        } else {
            assert(n == temp_dir + seq![n[k]] + f1);
            assert(n == temp_dir + seq![n[k]] + f2);
            assert(f1 =~= n.skip(k + 1));
            assert(f2 =~= n.skip(k + 1));
        }
    }
}

impl Endpoint {
    /// The channel's name.
    pub closed spec fn name(&self) -> Seq<char> {
        self.name@
    }

    /// The endpoint of a launch by process `pid` at time `stamp`
    /// (nanoseconds since the Unix epoch): a named pipe on Windows, else a
    /// socket file in `temp_dir`. Each launch gets its own name (see
    /// `lemma_endpoints_never_share_a_name`).
    pub fn new(pid: u32, stamp: u128, temp_dir: &str, windows: bool) -> (res: Self)
        ensures
            windows || !verbatim_path(temp_dir@) ==> channel_name_for(
                res.name(),
                pid,
                stamp,
                temp_dir@,
                windows,
            ),
    {
        if windows {
            Endpoint { name: pipe_name(pid, stamp) }
        } else {
            let file = socket_file_name(pid, stamp);
            proof {
                lemma_socket_file_name_simple(pid, stamp);
            }
            Endpoint { name: join_file_name(temp_dir, file.as_str()) }
        }
    }

    /// The endpoint with the given name.
    pub fn named(name: String) -> (res: Self)
        ensures
            res.name() == name@,
    {
        Endpoint { name }
    }

    /// The name, as mpv is given it.
    pub fn mpv_argument(&self) -> (res: &str)
        ensures
            res@ == self.name(),
    {
        self.name.as_str()
    }
}

/// The error when mpv never opened its channel, with the last reason a
/// connection failed (`timed out` when there was none).
pub fn channel_unopened(last: Option<String>) -> (res: Error)
    ensures
        res matches Error::PlayerIpc { message } && message@ == "mpv did not open its control channel: "@
            + match last {
            Some(l) => l@,
            None => "timed out"@,
        },
{
    let mut message = String::from_str("mpv did not open its control channel: ");
    match &last {
        Some(l) => push_text(&mut message, l.as_str()),
        None => push_text(&mut message, "timed out"),
    }
    Error::PlayerIpc { message }
}

/// What happened while launching mpv.
#[derive(Debug)]
pub enum LaunchEvent {
    /// Looking for mpv ended: its path, or the error.
    Located(Result<String, Error>),
    /// Starting the process failed; `program_missing` when the system found
    /// no program at the path, with the system's message.
    SpawnFailed { program_missing: bool, message: String },
    /// The process started.
    Spawned,
    /// The control channel opened.
    ChannelOpened,
    /// The control channel never opened.
    ChannelFailed(Error),
}

/// What to do next while launching mpv.
#[derive(Debug)]
pub enum LaunchStep {
    /// Start the program at this path.
    Spawn(String),
    /// Connect to the started process's control channel.
    Connect,
    /// The launch is over: the player runs, or this is why not.
    Done(Result<(), Error>),
}

/// Launching mpv: find it, start it, connect to it. A missing mpv (no path
/// found, or no program at the path) is `MpvNotFound`; any other failure to
/// start is `PlayerLaunch` with the system's message; a channel that never
/// opens gives its `PlayerIpc` error; otherwise the player runs.
pub fn launch_step(event: LaunchEvent) -> (res: LaunchStep)
    ensures
        match event {
            LaunchEvent::Located(Ok(path)) => res matches LaunchStep::Spawn(p) && p@ == path@,
            LaunchEvent::Located(Err(e)) => res == LaunchStep::Done(Err(e)),
            LaunchEvent::SpawnFailed { program_missing, message } => if program_missing {
                res matches LaunchStep::Done(Err(Error::MpvNotFound))
            } else {
                res matches LaunchStep::Done(Err(Error::PlayerLaunch { message: m })) && m@
                    == message@
            },
            LaunchEvent::Spawned => res is Connect,
            LaunchEvent::ChannelOpened => res matches LaunchStep::Done(Ok(())),
            LaunchEvent::ChannelFailed(e) => res == LaunchStep::Done(Err(e)),
        },
{
    match event {
        LaunchEvent::Located(Ok(path)) => LaunchStep::Spawn(path),
        LaunchEvent::Located(Err(e)) => LaunchStep::Done(Err(e)),
        LaunchEvent::SpawnFailed { program_missing, message } => LaunchStep::Done(
            Err(spawn_failure(program_missing, message)),
        ),
        LaunchEvent::Spawned => LaunchStep::Connect,
        LaunchEvent::ChannelOpened => LaunchStep::Done(Ok(())),
        LaunchEvent::ChannelFailed(e) => LaunchStep::Done(Err(e)),
    }
}

/// How often to try opening the control channel while mpv starts, in
/// milliseconds.
pub const CONNECT_RETRY_MILLIS: u64 = 60;

/// What to do next while waiting for mpv to open its control channel.
#[derive(Debug)]
pub enum ConnectStep {
    /// Try to open the channel now.
    TryOpen,
    /// Wait this long, then ask again.
    PauseFor { millis: u64 },
    /// Stop waiting: the channel never opened.
    GiveUp(Error),
}

/// Waiting for mpv's control channel, up to a time limit, remembering why
/// the last attempt failed.
#[derive(Debug)]
pub struct ConnectAttempts {
    timeout_nanos: u128,
    last: Option<String>,
}

impl ConnectAttempts {
    /// The time limit, in nanoseconds.
    pub closed spec fn timeout(&self) -> nat {
        self.timeout_nanos as nat
    }

    /// Why the last attempt failed, if one did.
    pub closed spec fn last_failure(&self) -> Option<Seq<char>> {
        self.last.deep_view()
    }

    /// Start waiting, with a limit of `timeout_nanos`.
    pub fn new(timeout_nanos: u128) -> (res: Self)
        ensures
            res.timeout() == timeout_nanos,
            res.last_failure() is None,
    {
        ConnectAttempts { timeout_nanos, last: None }
    }

    /// What to do, `elapsed_nanos` after waiting began: try again while
    /// within the limit, else give up with the last failure (`timed out`
    /// when no attempt was made).
    pub fn before_attempt(&self, elapsed_nanos: u128) -> (res: ConnectStep)
        ensures
            elapsed_nanos < self.timeout() ==> res is TryOpen,
            elapsed_nanos >= self.timeout() ==> (res matches ConnectStep::GiveUp(
                Error::PlayerIpc { message },
            ) && message@ == "mpv did not open its control channel: "@ + match self.last_failure() {
                Some(l) => l,
                None => "timed out"@,
            }),
    {
        if elapsed_nanos < self.timeout_nanos {
            ConnectStep::TryOpen
        } else {
            ConnectStep::GiveUp(channel_unopened(self.last.clone()))
        }
    }

    /// An attempt failed for `reason`: remember it, and pause before the
    /// next one.
    pub fn after_failure(&mut self, reason: String) -> (res: ConnectStep)
        ensures
            final(self).timeout() == old(self).timeout(),
            final(self).last_failure() == Some(reason@),
            res matches ConnectStep::PauseFor { millis } && millis == CONNECT_RETRY_MILLIS,
    {
        self.last = Some(reason);
        ConnectStep::PauseFor { millis: CONNECT_RETRY_MILLIS }
    }
}

/// How long mpv is given to close on its own after being asked, in
/// milliseconds.
pub const QUIT_GRACE_MILLIS: u64 = 3000;

/// How often to look whether mpv has closed, in milliseconds.
pub const QUIT_POLL_MILLIS: u64 = 50;

/// What happened while waiting for mpv to close.
#[derive(Debug)]
pub enum QuitEvent {
    /// The process has exited.
    Exited,
    /// The process is still running, this long after it was asked to close.
    StillRunning { elapsed_millis: u64 },
    /// After the process was killed, waiting for it ended so (an error
    /// carries the system's message).
    WaitedAfterKill(Result<(), String>),
}

/// What to do next while closing mpv.
#[derive(Debug)]
pub enum QuitStep {
    /// Look again after this long.
    PollAfter { millis: u64 },
    /// Kill the process, then wait for it.
    Kill,
    /// Closing is over, with this outcome.
    Done(Result<(), Error>),
}

/// Closing mpv: it gets a grace period to go on its own, looked at every
/// poll interval, before it is killed; a failure to wait for the killed
/// process is a launch error.
pub fn quit_step(event: QuitEvent) -> (res: QuitStep)
    ensures
        match event {
            QuitEvent::Exited => res matches QuitStep::Done(Ok(())),
            QuitEvent::StillRunning { elapsed_millis } => if elapsed_millis < QUIT_GRACE_MILLIS {
                res matches QuitStep::PollAfter { millis } && millis == QUIT_POLL_MILLIS
            } else {
                res is Kill
            },
            QuitEvent::WaitedAfterKill(Ok(())) => res matches QuitStep::Done(Ok(())),
            QuitEvent::WaitedAfterKill(Err(m)) => res matches QuitStep::Done(
                Err(Error::PlayerLaunch { message }),
            ) && message@ == m@,
        },
{
    match event {
        QuitEvent::Exited => QuitStep::Done(Ok(())),
        QuitEvent::StillRunning { elapsed_millis } => {
            if elapsed_millis < QUIT_GRACE_MILLIS {
                QuitStep::PollAfter { millis: QUIT_POLL_MILLIS }
            } else {
                QuitStep::Kill
            }
        },
        QuitEvent::WaitedAfterKill(Ok(())) => QuitStep::Done(Ok(())),
        QuitEvent::WaitedAfterKill(Err(message)) => QuitStep::Done(
            Err(Error::PlayerLaunch { message }),
        ),
    }
}

/// The result a settled lookup step gives: the path found, or the error for
/// a missing mpv; `None` while a check is still pending.
pub fn lookup_result(step: LookupStep) -> (res: Option<Result<String, Error>>)
    ensures
        match step@ {
            StepView::Found(p) => res matches Some(Ok(s)) && s@ == p,
            StepView::NotFound => res matches Some(Err(Error::MpvNotFound)),
            _ => res is None,
        },
{
    match step {
        LookupStep::Found(p) => Some(Ok(p)),
        LookupStep::NotFound => Some(Err(Error::MpvNotFound)),
        _ => None,
    }
}

/// A lookup that has settled (found mpv, or given up) has reached the
/// outcome its truthful run leads to: answering each check truthfully,
/// with `report`, keeps the outcome, so a whole run ends at the first
/// candidate that is a file, else at the program on `PATH` when it runs,
/// else at `NotFound`.
pub proof fn lemma_settled_lookup_is_its_outcome(l: MpvLookup, is_file: spec_fn(Seq<char>) -> bool, runs: bool)
    requires
        l.pending() is Found || l.pending() is NotFound,
    ensures
        l.outcome(is_file, runs) == l.pending(),
{
}

/// A lookup given an explicit path ends at that path when it is a file, and
/// at `NotFound` otherwise: nothing else is tried.
pub proof fn lemma_explicit_path_alone(path: Seq<char>, env_override: Option<Seq<char>>, windows: bool, is_file: spec_fn(Seq<char>) -> bool, runs: bool)
    ensures
        run_outcome(
            lookup_candidates(Some(path), env_override),
            lookup_probe(Some(path), windows),
            0,
            is_file,
            runs,
        ) == if is_file(path) {
            StepView::Found(path)
        } else {
            StepView::NotFound
        },
{
    let c = lookup_candidates(Some(path), env_override);
    assert(c.len() == 1);
    assert(run_outcome(c, None, 1, is_file, runs) == StepView::NotFound);
}

/// Without an explicit path, a lookup ends at the override from the
/// environment when it is a file; otherwise it goes on as a lookup over the
/// install locations and the program on `PATH`.
pub proof fn lemma_override_first(env: Seq<char>, windows: bool, is_file: spec_fn(Seq<char>) -> bool, runs: bool)
    ensures
        run_outcome(
            lookup_candidates(None, Some(env)),
            lookup_probe(None, windows),
            0,
            is_file,
            runs,
        ) == if is_file(env) {
            StepView::Found(env)
        } else {
            run_outcome(install_locations(), lookup_probe(None, windows), 0, is_file, runs)
        },
{
    let c = lookup_candidates(None, Some(env));
    let probe = lookup_probe(None, windows);
    lemma_run_outcome_shift(env, install_locations(), probe, 0, is_file, runs);
}

/// Running over a list with one more candidate in front is running over the
/// rest once that candidate is not a file.
proof fn lemma_run_outcome_shift(
    first: Seq<char>,
    rest: Seq<Seq<char>>,
    probe: Option<Seq<char>>,
    k: nat,
    is_file: spec_fn(Seq<char>) -> bool,
    runs: bool,
)
    ensures
        !is_file(first) ==> run_outcome(seq![first] + rest, probe, k + 1, is_file, runs)
            == run_outcome(rest, probe, k, is_file, runs),
        run_outcome(seq![first] + rest, probe, 0, is_file, runs) == if is_file(first) {
            StepView::Found(first)
        } else {
            run_outcome(seq![first] + rest, probe, 1, is_file, runs)
        },
    decreases rest.len() + 1 - k,
{
    let all = seq![first] + rest;
    if k < rest.len() {
        assert(all[(k + 1) as int] == rest[k as int]);
        lemma_run_outcome_shift(first, rest, probe, k + 1, is_file, runs);
    }
    assert(all[0] == first);
}

/// What mpv wrote to its error stream, one line after another, each ended
/// by a newline.
pub open spec fn transcript(lines: Seq<Seq<char>>) -> Seq<char>
    decreases lines.len(),
{
    if lines.len() == 0 {
        Seq::<char>::empty()
    } else {
        transcript(lines.drop_last()) + lines.last().push('\n')
    }
}

/// The lines read from mpv's error stream, put back together.
pub fn stderr_transcript(lines: &Vec<String>) -> (res: String)
    ensures
        res@ == transcript(texts(lines@)),
{
    let mut out = String::new();
    let mut i: usize = 0;
    assert(texts(lines@).take(0) =~= Seq::<Seq<char>>::empty());
    while i < lines.len()
        invariant
            i <= lines.len(),
            out@ == transcript(texts(lines@).take(i as int)),
        decreases lines.len() - i,
    {
        push_text(&mut out, lines[i].as_str());
        push_char(&mut out, '\n');
        let ghost t = texts(lines@).take(i + 1);
        assert(t.drop_last() =~= texts(lines@).take(i as int));
        assert(out@ =~= transcript(t));
        i += 1;
    }
    assert(texts(lines@).take(lines.len() as int) =~= texts(lines@));
    out
}

// ---------------------------------------------------------------------------
// Finding mpv
// ---------------------------------------------------------------------------

/// Where installers put mpv without touching `PATH`, the common case on
/// Windows, and the usual places elsewhere.
pub open spec fn install_locations() -> Seq<Seq<char>> {
    seq![
        "C:\\Program Files\\MPV Player\\mpv.exe"@,
        "C:\\Program Files\\mpv\\mpv.exe"@,
        "C:\\Program Files (x86)\\mpv\\mpv.exe"@,
        "C:\\ProgramData\\chocolatey\\bin\\mpv.exe"@,
        "C:\\ProgramData\\chocolatey\\lib\\mpvio.install\\tools\\mpv.exe"@,
        "/usr/bin/mpv"@,
        "/usr/local/bin/mpv"@,
        "/opt/homebrew/bin/mpv"@,
    ]
}

/// The files to check, in order: an explicit path alone, or else the
/// override from the environment (when set) and then the install locations.
pub open spec fn lookup_candidates(explicit: Option<Seq<char>>, env_override: Option<Seq<char>>) -> Seq<Seq<char>> {
    match explicit {
        Some(p) => seq![p],
        None => match env_override {
            Some(e) => seq![e] + install_locations(),
            None => install_locations(),
        },
    }
}

/// The program name to try running when no file is found: none when an
/// explicit path was given, else `mpv` (`mpv.exe` on Windows), left to the
/// system's search of `PATH`.
pub open spec fn lookup_probe(explicit: Option<Seq<char>>, windows: bool) -> Option<Seq<char>> {
    if explicit is Some {
        None
    } else if windows {
        Some("mpv.exe"@)
    } else {
        Some("mpv"@)
    }
}

/// What to do next while looking for mpv.
#[derive(Debug)]
pub enum LookupStep {
    /// See whether this path is a file.
    CheckFile(String),
    /// See whether this program runs (`--version`), found through `PATH`.
    TryRunning(String),
    /// mpv is here.
    Found(String),
    /// There is no mpv to be found.
    NotFound,
}

/// A lookup step, as plain values.
pub enum StepView {
    CheckFile(Seq<char>),
    TryRunning(Seq<char>),
    Found(Seq<char>),
    NotFound,
}

impl View for LookupStep {
    type V = StepView;

    open spec fn view(&self) -> StepView {
        match self {
            LookupStep::CheckFile(p) => StepView::CheckFile(p@),
            LookupStep::TryRunning(p) => StepView::TryRunning(p@),
            LookupStep::Found(p) => StepView::Found(p@),
            LookupStep::NotFound => StepView::NotFound,
        }
    }
}

/// The step planned at stage `k`: the candidates one by one, then the
/// program on `PATH` when there is one to try, then giving up.
pub open spec fn planned_step(candidates: Seq<Seq<char>>, probe: Option<Seq<char>>, k: nat) -> StepView {
    if k < candidates.len() {
        StepView::CheckFile(candidates[k as int])
    } else if k == candidates.len() && probe is Some {
        StepView::TryRunning(probe->0)
    } else {
        StepView::NotFound
    }
}

/// Where a whole lookup ends from stage `k`, given which paths are files
/// (`is_file`) and whether the program on `PATH` runs (`runs`): the first
/// candidate from `k` on that is a file, else the program when there is one
/// to try and it runs, else nothing.
pub open spec fn run_outcome(
    candidates: Seq<Seq<char>>,
    probe: Option<Seq<char>>,
    k: nat,
    is_file: spec_fn(Seq<char>) -> bool,
    runs: bool,
) -> StepView
    decreases candidates.len() + 1 - k,
{
    if k < candidates.len() {
        if is_file(candidates[k as int]) {
            StepView::Found(candidates[k as int])
        } else {
            run_outcome(candidates, probe, k + 1, is_file, runs)
        }
    } else if k == candidates.len() && probe is Some {
        if runs {
            StepView::Found(probe->0)
        } else {
            StepView::NotFound
        }
    } else {
        StepView::NotFound
    }
}

/// Whether `success` is the true answer to the step `step`.
pub open spec fn truthful(step: StepView, success: bool, is_file: spec_fn(Seq<char>) -> bool, runs: bool) -> bool {
    match step {
        StepView::CheckFile(p) => success == is_file(p),
        StepView::TryRunning(_) => success == runs,
        _ => true,
    }
}

/// Looking for an mpv executable, one check at a time.
#[derive(Debug)]
pub struct MpvLookup {
    candidates: Vec<String>,
    probe: Option<String>,
    stage: usize,
    found: Option<String>,
}

impl MpvLookup {
    /// At most nine files are ever checked, and the stage never runs past
    /// the program to try after them.
    #[verifier::type_invariant]
    spec fn well_formed(&self) -> bool {
        &&& self.candidates.len() <= 9
        &&& self.stage <= self.candidates.len() + 1
    }

    /// The files to check, in order.
    pub closed spec fn candidates(&self) -> Seq<Seq<char>> {
        texts(self.candidates@)
    }

    /// The program to try running once no file is found, if any.
    pub closed spec fn probe(&self) -> Option<Seq<char>> {
        self.probe.deep_view()
    }

    /// How many checks have failed so far.
    pub closed spec fn stage(&self) -> nat {
        self.stage as nat
    }

    /// Where mpv was found, once it has been.
    pub closed spec fn found(&self) -> Option<Seq<char>> {
        self.found.deep_view()
    }

    /// Where the lookup ends when every check is answered truthfully.
    pub open spec fn outcome(&self, is_file: spec_fn(Seq<char>) -> bool, runs: bool) -> StepView {
        match self.found() {
            Some(p) => StepView::Found(p),
            None => run_outcome(self.candidates(), self.probe(), self.stage(), is_file, runs),
        }
    }

    /// The step the lookup is waiting on, or its outcome.
    pub open spec fn pending(&self) -> StepView {
        match self.found() {
            Some(p) => StepView::Found(p),
            None => planned_step(self.candidates(), self.probe(), self.stage()),
        }
    }

    /// Start looking: `explicit` is a path the caller insists on,
    /// `env_override` the path set in the environment, if any.
    pub fn new(explicit: Option<String>, env_override: Option<String>, windows: bool) -> (res: Self)
        ensures
            res.candidates() == lookup_candidates(explicit.deep_view(), env_override.deep_view()),
            res.probe() == lookup_probe(explicit.deep_view(), windows),
            res.stage() == 0,
            res.found() is None,
    {
        let mut candidates: Vec<String> = Vec::new();
        let probe = match explicit {
            Some(path) => {
                candidates.push(path);
                None
            },
            None => {
                match env_override {
                    Some(e) => candidates.push(e),
                    None => {},
                }
                candidates.push(String::from_str("C:\\Program Files\\MPV Player\\mpv.exe"));
                candidates.push(String::from_str("C:\\Program Files\\mpv\\mpv.exe"));
                candidates.push(String::from_str("C:\\Program Files (x86)\\mpv\\mpv.exe"));
                candidates.push(String::from_str("C:\\ProgramData\\chocolatey\\bin\\mpv.exe"));
                candidates.push(
                    String::from_str(
                        "C:\\ProgramData\\chocolatey\\lib\\mpvio.install\\tools\\mpv.exe",
                    ),
                );
                candidates.push(String::from_str("/usr/bin/mpv"));
                candidates.push(String::from_str("/usr/local/bin/mpv"));
                candidates.push(String::from_str("/opt/homebrew/bin/mpv"));
                Some(
                    if windows {
                        String::from_str("mpv.exe")
                    } else {
                        String::from_str("mpv")
                    },
                )
            },
        };
        let res = MpvLookup { candidates, probe, stage: 0, found: None };
        assert(res.candidates() =~= lookup_candidates(explicit.deep_view(), env_override.deep_view()));
        res
    }

    /// The step the lookup is waiting on, or its outcome.
    pub fn current(&self) -> (res: LookupStep)
        ensures
            res@ == self.pending(),
    {
        match &self.found {
            Some(p) => LookupStep::Found(p.clone()),
            None => {
                if self.stage < self.candidates.len() {
                    LookupStep::CheckFile(self.candidates[self.stage].clone())
                } else if self.stage == self.candidates.len() {
                    match &self.probe {
                        Some(p) => LookupStep::TryRunning(p.clone()),
                        None => LookupStep::NotFound,
                    }
                } else {
                    LookupStep::NotFound
                }
            },
        }
    }

    /// Report how the pending check went, and get the next step. A check
    /// that succeeds ends the lookup there; one that fails moves on. Once
    /// the lookup has ended, reports change nothing.
    pub fn report(&mut self, success: bool) -> (res: LookupStep)
        ensures
            final(self).candidates() == old(self).candidates(),
            final(self).probe() == old(self).probe(),
            match old(self).pending() {
                StepView::CheckFile(p) => if success {
                    final(self).found() == Some(p) && final(self).stage() == old(self).stage()
                } else {
                    final(self).found() is None && final(self).stage() == old(self).stage() + 1
                },
                StepView::TryRunning(p) => if success {
                    final(self).found() == Some(p) && final(self).stage() == old(self).stage()
                } else {
                    final(self).found() is None && final(self).stage() == old(self).stage() + 1
                },
                _ => final(self).found() == old(self).found() && final(self).stage() == old(
                    self,
                ).stage(),
            },
            res@ == final(self).pending(),
            forall|is_file: spec_fn(Seq<char>) -> bool, runs: bool|
                truthful(old(self).pending(), success, is_file, runs) ==> #[trigger] final(self).outcome(is_file, runs) == old(self).outcome(is_file, runs),
    {
        proof {
            use_type_invariant(&*self);
        }
        if self.found.is_none() {
            if self.stage < self.candidates.len() {
                if success {
                    self.found = Some(self.candidates[self.stage].clone());
                } else {
                    self.stage = self.stage + 1;
                }
            } else if self.stage == self.candidates.len() && self.probe.is_some() {
                if success {
                    self.found = self.probe.clone();
                } else {
                    self.stage = self.stage + 1;
                }
            }
        }
        self.current()
    }
}

} // verus!
