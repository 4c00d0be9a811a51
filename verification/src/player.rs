//! What is handed to mpv and what it reports: playback sources, tracks, seek
//! modes, and the argument lists of the commands a player sends.
use vstd::prelude::*;

use crate::error::Error;
use crate::text::{
    after_last_char, chars_of, contains, decimal, find, find_char, find_either, index_of,
    index_of_char, index_of_either, lacks_char, occurs_at, push_char, push_decimal, push_text,
    rfind_char, same_text, split_on, string_of, sub_chars,
};

verus! {

// ---------------------------------------------------------------------------
// Sources
// ---------------------------------------------------------------------------

/// What to hand to the player.
#[derive(Debug, Clone)]
pub enum PlaybackSource {
    /// A URL mpv can open directly.
    Url(String),
    /// A file on this machine, by its path.
    File(String),
}

/// The part of `s` before the first `a` or `b`, or all of `s` when there is
/// neither.
pub open spec fn before_either(s: Seq<char>, a: char, b: char) -> Seq<char> {
    match index_of_either(s, a, b) {
        Some(i) => s.take(i),
        None => s,
    }
}

/// The path of a URL: the URL is cut at its first `?` or `#` (query and
/// fragment are never part of it); when it has a `scheme://` authority, the
/// path is what follows the authority, from the first `/` after it (empty
/// when there is none), so user name, password and host never belong to
/// it. Without an authority the whole cut URL is the path.
pub open spec fn url_path(url: Seq<char>) -> Seq<char> {
    let cut = before_either(url, '?', '#');
    match index_of(cut, seq![':', '/', '/']) {
        Some(i) => {
            let rest = cut.skip(i + 3);
            match index_of_char(rest, '/') {
                Some(j) => rest.skip(j),
                None => Seq::<char>::empty(),
            }
        },
        None => cut,
    }
}

/// The short form of a URL: the last segment of its path, or `stream` when
/// that segment is empty.
pub open spec fn url_hint(url: Seq<char>) -> Seq<char> {
    let segment = after_last_char(url_path(url), '/');
    if segment.len() > 0 {
        segment
    } else {
        "stream"@
    }
}

/// Whether `path` is written so that every platform reads it the same way:
/// no backslash, no colon, and no leading `//`.
pub open spec fn portable_path(path: Seq<char>) -> bool {
    &&& lacks_char(path, '\\')
    &&& lacks_char(path, ':')
    &&& !(path.len() >= 2 && path[0] == '/' && path[1] == '/')
}

/// The last piece of a list of `/`-separated pieces that is neither empty
/// nor `.`: the last component of a path, once repeated separators and `.`
/// are set aside.
pub open spec fn last_named_piece(pieces: Seq<Seq<char>>) -> Option<Seq<char>>
    decreases pieces.len(),
{
    if pieces.len() == 0 {
        None
    } else if pieces.last().len() > 0 && pieces.last() != seq!['.'] {
        Some(pieces.last())
    } else {
        last_named_piece(pieces.drop_last())
    }
}

/// The file name of a portable path, as `Path::file_name` gives it: the last
/// component, when it is a name; none when it is `..` or there is none.
pub open spec fn portable_file_name(path: Seq<char>) -> Option<Seq<char>> {
    match last_named_piece(split_on(path, '/')) {
        Some(n) => if n == seq!['.', '.'] {
            None
        } else {
            Some(n)
        },
        None => None,
    }
}

/// `/` or `\`, a separator on some platform.
pub open spec fn is_separator(c: char) -> bool {
    c == '/' || c == '\\'
}

/// The part of `path` after its last `/` or `\`.
pub open spec fn after_last_separator(path: Seq<char>) -> Seq<char>
    decreases path.len(),
{
    if path.len() == 0 || is_separator(path.last()) {
        Seq::<char>::empty()
    } else {
        after_last_separator(path.drop_last()).push(path.last())
    }
}

/// `path` starts with two separators (a network or verbatim path on
/// Windows).
pub open spec fn starts_with_two_separators(path: Seq<char>) -> bool {
    path.len() >= 2 && is_separator(path[0]) && is_separator(path[1])
}

/// Whether the end of `path`, after its last `/` or `\`, is a name that
/// every platform ends the path's file name with: it is not empty, `.` or
/// `..`, holds no `:`, and the path does not start with two separators.
pub open spec fn ends_in_name(path: Seq<char>) -> bool {
    let n = after_last_separator(path);
    &&& !starts_with_two_separators(path)
    &&& n.len() > 0
    &&& n != seq!['.']
    &&& n != seq!['.', '.']
    &&& lacks_char(n, ':')
}

/// `s` ends with `t`.
pub open spec fn ends_with(s: Seq<char>, t: Seq<char>) -> bool {
    s.len() >= t.len() && s.skip(s.len() - t.len()) == t
}

/// A name was given, and it ends with `t`.
pub open spec fn name_ending_with(name: Option<Seq<char>>, t: Seq<char>) -> bool {
    match name {
        Some(n) => ends_with(n, t),
        None => false,
    }
}

/// The file name of a path: std's `Path::file_name`, converted to text.
///
/// Claimed of it, as std's documentation gives it: a name it gives is
/// non-empty and a piece of the path's text. For a path every platform
/// reads alike (no backslash or colon, no leading `//`), it is exactly the
/// last component (repeated separators and `.` set aside), and there is
/// none when that is `..` or missing. For any path that does not start
/// with two separators and ends, after its last `/` or `\`, in a name other
/// than `.` or `..` holding no `:`, the name ends with that end. Beyond
/// that, which name comes back is left unsaid: it follows the platform's
/// path rules (a backslash separates only on Windows, and a Windows
/// verbatim path separates only at backslashes).
#[verifier::external_body]
fn file_name_of(path: &str) -> (res: Option<String>)
    ensures
        res matches Some(name) ==> {
            &&& name@.len() > 0
            &&& contains(path@, name@)
        },
        portable_path(path@) ==> res.deep_view() == portable_file_name(path@),
        ends_in_name(path@) ==> name_ending_with(res.deep_view(), after_last_separator(path@)),
{
    std::path::Path::new(path).file_name().map(|n| n.to_string_lossy().into_owned())
}

impl PlaybackSource {
    /// The argument mpv is given.
    pub fn as_argument(&self) -> (res: String)
        ensures
            res@ == match self {
                PlaybackSource::Url(url) => url@,
                PlaybackSource::File(path) => path@,
            },
    {
        match self {
            PlaybackSource::Url(url) => url.clone(),
            PlaybackSource::File(path) => path.clone(),
        }
    }

    /// Something short enough to show a person, with no credentials in it.
    ///
    /// A stream URL can carry a signed token or a password, so only the last
    /// segment of its path is shown; a file shows its file name.
    pub fn display_hint(&self) -> (res: String)
        ensures
            match self {
                PlaybackSource::Url(url) => res@ == url_hint(url@),
                PlaybackSource::File(path) => {
                    &&& (res@ == "file"@ || {
                        &&& res@.len() > 0
                        &&& contains(path@, res@)
                    })
                    &&& (portable_path(path@) ==> res@ == match portable_file_name(path@) {
                        Some(n) => n,
                        None => "file"@,
                    })
                    &&& (ends_in_name(path@) ==> ends_with(res@, after_last_separator(path@)))
                },
            },
    {
        match self {
            PlaybackSource::Url(url) => {
                let chars = chars_of(url.as_str());
                let path = url_path_chars(&chars);
                let segment = match rfind_char(&path, '/') {
                    Some(k) => {
                        proof {
                            crate::text::lemma_last_index_of_char(path@, '/');
                        }
                        let seg = sub_chars(&path, k + 1, path.len());
                        assert(seg@ =~= path@.skip(k + 1));
                        seg
                    },
                    None => path,
                };
                if segment.len() > 0 {
                    string_of(&segment)
                } else {
                    String::from_str("stream")
                }
            },
            PlaybackSource::File(path) => match file_name_of(path.as_str()) {
                Some(name) => name,
                None => String::from_str("file"),
            },
        }
    }
}

/// The path of a URL, as [`url_path`] takes it.
fn url_path_chars(url: &Vec<char>) -> (res: Vec<char>)
    ensures
        res@ == url_path(url@),
{
    let cut = match find_either(url, '?', '#') {
        Some(q) => {
            proof {
                crate::text::lemma_index_of_either_from(url@, '?', '#', 0);
            }
            let c = sub_chars(url, 0, q);
            assert(c@ =~= url@.take(q as int));
            c
        },
        None => sub_chars(url, 0, url.len()),
    };
    assert(cut@ =~= before_either(url@, '?', '#'));
    let marker: Vec<char> = vec![':', '/', '/'];
    assert(marker@ =~= seq![':', '/', '/']);
    match find(&cut, &marker) {
        Some(i) => {
            proof {
                crate::text::lemma_index_of_from(cut@, marker@, 0);
                assert(occurs_at(cut@, marker@, i as int));
            }
            let rest = sub_chars(&cut, i + 3, cut.len());
            assert(rest@ =~= cut@.skip(i + 3));
            match find_char(&rest, '/') {
                Some(j) => {
                    proof {
                        crate::text::lemma_index_of_either_from(rest@, '/', '/', 0);
                    }
                    let path = sub_chars(&rest, j, rest.len());
                    assert(path@ =~= rest@.skip(j as int));
                    path
                },
                None => Vec::new(),
            }
        },
        None => cut,
    }
}

/// A URL's hint never shows its query, its fragment, or anything before
/// its path: it is `stream`, or the end of the URL's path (the part after
/// the authority, cut before the first `?` or `#`), holding no `?`, `#` or
/// `/`.
pub proof fn lemma_url_hint_hides_credentials(url: Seq<char>)
    ensures
        url_hint(url) == "stream"@ || {
            let path = url_path(url);
            &&& lacks_char(url_hint(url), '?')
            &&& lacks_char(url_hint(url), '#')
            &&& lacks_char(url_hint(url), '/')
            &&& url_hint(url).len() > 0
            &&& path.skip(path.len() - url_hint(url).len()) == url_hint(url)
        },
{
    let cut = before_either(url, '?', '#');
    let path = url_path(url);
    crate::text::lemma_index_of_either_from(url, '?', '#', 0);
    assert forall|i: int| 0 <= i < cut.len() implies cut[i] != '?' && cut[i] != '#' by {
        assert(cut[i] == url[i]);
    }
    match index_of(cut, seq![':', '/', '/']) {
        Some(i) => {
            crate::text::lemma_index_of_from(cut, seq![':', '/', '/'], 0);
            let rest = cut.skip(i + 3);
            crate::text::lemma_index_of_either_from(rest, '/', '/', 0);
            assert forall|k: int| 0 <= k < path.len() implies path[k] != '?' && path[k] != '#' by {
                match index_of_char(rest, '/') {
                    Some(j) => {
                        assert(path[k] == cut[i + 3 + j + k]);
                    },
                    None => {},
                }
            }
        },
        None => {},
    }
    crate::text::lemma_last_index_of_char(path, '/');
    let hint = url_hint(url);
    if hint != "stream"@ {
        match crate::text::last_index_of_char(path, '/') {
            Some(k) => {
                assert(hint =~= path.skip(k + 1));
                assert(path.skip(path.len() - hint.len()) =~= hint);
                assert forall|i: int| 0 <= i < hint.len() implies hint[i] != '?' && hint[i]
                    != '#' && hint[i] != '/' by {
                    assert(hint[i] == path[k + 1 + i]);
                }
            },
            None => {
                assert(hint =~= path);
                assert(path.skip(0) =~= path);
            },
        }
    }
}

// ---------------------------------------------------------------------------
// Tracks
// ---------------------------------------------------------------------------

/// One selectable track inside the media.
#[derive(Debug, Clone, PartialEq, Eq)]
pub struct Track {
    /// mpv's track id, used to select it.
    pub id: u32,
    /// `video`, `audio` or `sub`.
    pub kind: String,
    /// Language code, when the file says.
    pub language: Option<String>,
    /// Track title, when the file says.
    pub title: Option<String>,
    /// Whether this track is currently selected.
    pub selected: bool,
}

/// A track, as plain values.
pub struct TrackView {
    pub id: u32,
    pub kind: Seq<char>,
    pub language: Option<Seq<char>>,
    pub title: Option<Seq<char>>,
    pub selected: bool,
}

impl View for Track {
    type V = TrackView;

    open spec fn view(&self) -> TrackView {
        TrackView {
            id: self.id,
            kind: self.kind@,
            language: self.language.deep_view(),
            title: self.title.deep_view(),
            selected: self.selected,
        }
    }
}

/// `s` right-aligned in a field two characters wide (`{:>2}`).
pub open spec fn pad_to_two(s: Seq<char>) -> Seq<char> {
    if s.len() < 2 {
        seq![' '] + s
    } else {
        s
    }
}

/// A line for a list: a `*` for the selected track, the id right-aligned in
/// two places, the language (`--` when unknown) and the title when there is
/// one.
pub open spec fn track_line(t: TrackView) -> Seq<char> {
    let mark = if t.selected {
        seq!['*']
    } else {
        seq![' ']
    };
    let language = match t.language {
        Some(l) => l,
        None => seq!['-', '-'],
    };
    let head = mark + seq![' '] + pad_to_two(decimal(t.id as nat)) + seq!['.', ' '] + language;
    match t.title {
        Some(title) => head + seq![' ', ' '] + title,
        None => head,
    }
}

/// A track's line starts with `*` exactly when the track is selected (with
/// a space otherwise), and ends with its title when it has one.
pub proof fn lemma_track_line_marks_selection(t: TrackView)
    ensures
        track_line(t).len() > 0,
        track_line(t)[0] == if t.selected {
            '*'
        } else {
            ' '
        },
        t.title matches Some(title) ==> track_line(t).skip(track_line(t).len() - title.len())
            == title,
{
    let line = track_line(t);
    match t.title {
        Some(title) => {
            assert(line.skip(line.len() - title.len()) =~= title);
        },
        None => {},
    }
}

impl Track {
    /// A line for a list.
    pub fn display_line(&self) -> (res: String)
        ensures
            res@ == track_line(self@),
    {
        let mut line = String::new();
        push_char(&mut line, if self.selected { '*' } else { ' ' });
        push_char(&mut line, ' ');
        if self.id < 10 {
            push_char(&mut line, ' ');
        }
        push_decimal(&mut line, self.id as u128);
        proof {
            crate::text::lemma_decimal_nonempty(self.id as nat);
            if self.id >= 10 {
                crate::text::lemma_decimal_nonempty((self.id / 10) as nat);
                assert(decimal(self.id as nat).len() >= 2);
            } else {
                assert(decimal(self.id as nat).len() == 1);
            }
        }
        push_char(&mut line, '.');
        push_char(&mut line, ' ');
        match &self.language {
            Some(language) => push_text(&mut line, language.as_str()),
            None => {
                push_char(&mut line, '-');
                push_char(&mut line, '-');
            },
        }
        match &self.title {
            Some(title) => {
                push_char(&mut line, ' ');
                push_char(&mut line, ' ');
                push_text(&mut line, title.as_str());
            },
            None => {},
        }
        proof {
            assert(line@ =~= track_line(self@));
        }
        line
    }
}

// ---------------------------------------------------------------------------
// Commands
// ---------------------------------------------------------------------------

/// Where to seek from.
#[derive(Debug, Clone, Copy)]
pub enum SeekMode {
    /// Relative to the current position.
    Relative,
    /// From the start of the file.
    Absolute,
}

/// mpv's name for a seek mode.
pub open spec fn seek_flag(mode: SeekMode) -> Seq<char> {
    match mode {
        SeekMode::Relative => "relative"@,
        SeekMode::Absolute => "absolute"@,
    }
}

impl SeekMode {
    /// mpv's name for this mode.
    pub fn as_flag(self) -> (res: &'static str)
        ensures
            res@ == seek_flag(self),
    {
        match self {
            SeekMode::Relative => "relative",
            SeekMode::Absolute => "absolute",
        }
    }
}

/// The texts of a list of arguments.
pub open spec fn texts(args: Seq<String>) -> Seq<Seq<char>> {
    args.map_values(|a: String| a@)
}

/// The command that reads property `name`.
pub fn property_query(name: &str) -> (res: Vec<String>)
    ensures
        texts(res@) == seq!["get_property"@, name@],
{
    let mut args: Vec<String> = Vec::new();
    args.push(String::from_str("get_property"));
    args.push(name.to_owned());
    assert(texts(args@) =~= seq!["get_property"@, name@]);
    args
}

/// The command that sets property `name` to `value`.
pub fn property_update(name: &str, value: &str) -> (res: Vec<String>)
    ensures
        texts(res@) == seq!["set_property"@, name@, value@],
{
    let mut args: Vec<String> = Vec::new();
    args.push(String::from_str("set_property"));
    args.push(name.to_owned());
    args.push(value.to_owned());
    assert(texts(args@) =~= seq!["set_property"@, name@, value@]);
    args
}

/// mpv's word for a yes/no property value.
pub open spec fn yes_no(on: bool) -> Seq<char> {
    if on {
        "yes"@
    } else {
        "no"@
    }
}

/// The command that pauses (`true`) or resumes (`false`) playback.
pub fn pause_update(paused: bool) -> (res: Vec<String>)
    ensures
        texts(res@) == seq!["set_property"@, "pause"@, yes_no(paused)],
{
    property_update("pause", if paused { "yes" } else { "no" })
}

/// The command that shows or hides subtitles without unloading them.
pub fn subtitle_visibility_update(visible: bool) -> (res: Vec<String>)
    ensures
        texts(res@) == seq!["set_property"@, "sub-visibility"@, yes_no(visible)],
{
    property_update("sub-visibility", if visible { "yes" } else { "no" })
}

/// The command that seeks by (or to) `seconds`, written as mpv reads it.
pub fn seek_request(seconds: &str, mode: SeekMode) -> (res: Vec<String>)
    ensures
        texts(res@) == seq!["seek"@, seconds@, seek_flag(mode)],
{
    let mut args: Vec<String> = Vec::new();
    args.push(String::from_str("seek"));
    args.push(seconds.to_owned());
    args.push(mode.as_flag().to_owned());
    assert(texts(args@) =~= seq!["seek"@, seconds@, seek_flag(mode)]);
    args
}

/// The command that loads a subtitle file or URL and selects it, under
/// `title` when one is given.
pub fn subtitle_add_request(url: &str, title: Option<&str>) -> (res: Vec<String>)
    ensures
        texts(res@) == match title {
            Some(t) => seq!["sub-add"@, url@, "select"@, t@],
            None => seq!["sub-add"@, url@, "select"@],
        },
{
    let mut args: Vec<String> = Vec::new();
    args.push(String::from_str("sub-add"));
    args.push(url.to_owned());
    args.push(String::from_str("select"));
    match title {
        Some(t) => {
            args.push(t.to_owned());
            assert(texts(args@) =~= seq!["sub-add"@, url@, "select"@, t@]);
        },
        None => {
            assert(texts(args@) =~= seq!["sub-add"@, url@, "select"@]);
        },
    }
    args
}

/// The command that asks mpv to close.
pub fn quit_request() -> (res: Vec<String>)
    ensures
        texts(res@) == seq!["quit"@],
{
    let mut args: Vec<String> = Vec::new();
    args.push(String::from_str("quit"));
    assert(texts(args@) =~= seq!["quit"@]);
    args
}

/// The property that selects a track of the given kind.
pub open spec fn track_property(kind: Seq<char>) -> Option<Seq<char>> {
    if kind == "video"@ {
        Some("vid"@)
    } else if kind == "audio"@ {
        Some("aid"@)
    } else if kind == "sub"@ {
        Some("sid"@)
    } else {
        None
    }
}

/// The value that selects track `id`, or turns the kind off for `None`.
pub open spec fn track_value(id: Option<u32>) -> Seq<char> {
    match id {
        Some(n) => decimal(n as nat),
        None => "no"@,
    }
}

/// The message for a track kind mpv does not have.
pub open spec fn unknown_kind_message(kind: Seq<char>) -> Seq<char> {
    "unknown track kind '"@ + kind + seq!['\'']
}

/// The command that selects a track by mpv's track id; `None` turns the
/// kind off. An unknown kind is an error, not a command.
pub fn track_selection(kind: &str, id: Option<u32>) -> (res: Result<Vec<String>, Error>)
    ensures
        match track_property(kind@) {
            Some(property) => res matches Ok(args) && texts(args@) == seq![
                "set_property"@,
                property,
                track_value(id),
            ],
            None => res matches Err(Error::PlayerCommand { message }) && message@
                == unknown_kind_message(kind@),
        },
{
    let property = if same_text(kind, "video") {
        "vid"
    } else if same_text(kind, "audio") {
        "aid"
    } else if same_text(kind, "sub") {
        "sid"
    } else {
        let mut message = String::from_str("unknown track kind '");
        push_text(&mut message, kind);
        push_char(&mut message, '\'');
        assert(message@ =~= unknown_kind_message(kind@));
        return Err(Error::PlayerCommand { message });
    };
    let mut value = String::new();
    match id {
        Some(n) => {
            push_decimal(&mut value, n as u128);
            assert(value@ =~= decimal(n as nat));
        },
        None => {
            push_text(&mut value, "no");
            assert(value@ =~= "no"@);
        },
    }
    Ok(property_update(property, value.as_str()))
}

/// A property read that may simply be unavailable: its value; nothing
/// when mpv rejects the read (the normal state while a file is loading);
/// the channel's failure passed on unchanged.
pub fn optional_reply(reply: Result<String, Error>) -> (res: Result<Option<String>, Error>)
    ensures
        match reply {
            Ok(v) => res matches Ok(Some(s)) && s@ == v@,
            Err(Error::PlayerIpc { message }) => res matches Err(Error::PlayerIpc { message: m })
                && m@ == message@,
            Err(_) => res matches Ok(None),
        },
{
    match reply {
        Ok(v) => Ok(Some(v)),
        Err(Error::PlayerIpc { message }) => Err(Error::PlayerIpc { message }),
        Err(_) => Ok(None),
    }
}

/// Whether a property reply says `true`: a rejected read counts as `false`,
/// a channel failure is passed on unchanged.
pub fn flag_reply(reply: Result<String, Error>) -> (res: Result<bool, Error>)
    ensures
        match reply {
            Ok(v) => res == Ok::<bool, Error>(v@ == "true"@),
            Err(Error::PlayerIpc { message }) => res matches Err(Error::PlayerIpc { message: m })
                && m@ == message@,
            Err(_) => res == Ok::<bool, Error>(false),
        },
{
    match optional_reply(reply) {
        Ok(Some(v)) => Ok(same_text(v.as_str(), "true")),
        Ok(None) => Ok(false),
        Err(e) => Err(e),
    }
}

} // verus!
