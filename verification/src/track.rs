//! Reading mpv's track list.
//!
//! mpv replies with one flat array of flat objects, so it is scanned rather
//! than parsed. Anything unrecognised is skipped: a track that cannot be
//! described is better omitted from a list than guessed at and shown wrongly.
use vstd::prelude::*;

use crate::ipc::field_key;
use crate::number::{float_text_as_u32, whole_part_u32};
use crate::player::{Track, TrackView};
use crate::text::{
    before_char, char_views, chars_of, contains, contains_chars, find, find_char, find_either,
    index_of, index_of_char, index_of_either, split_char, split_on, string_of, sub_chars, trim,
    trim_chars, trim_start, trim_start_chars,
};

verus! {

/// The text that introduces a quoted field: `"field":"`.
pub open spec fn string_key(field: Seq<char>) -> Seq<char> {
    field_key(field).push('"')
}

/// A quoted string field of a flat JSON object: the text after `"field":"`
/// up to the next quote.
pub open spec fn string_field_value(object: Seq<char>, field: Seq<char>) -> Option<Seq<char>> {
    let key = string_key(field);
    match index_of(object, key) {
        None => None,
        Some(p) => {
            let rest = object.skip(p + key.len());
            match index_of_char(rest, '"') {
                Some(e) => Some(rest.take(e)),
                None => None,
            }
        },
    }
}

/// A bare numeric field of a flat JSON object: the trimmed text after
/// `"field":` up to the next comma or brace (or the end), unless it is a
/// quoted string.
pub open spec fn number_field_value(object: Seq<char>, field: Seq<char>) -> Option<Seq<char>> {
    let key = field_key(field);
    match index_of(object, key) {
        None => None,
        Some(p) => {
            let rest = trim_start(object.skip(p + key.len()));
            if rest.len() > 0 && rest[0] == '"' {
                None
            } else {
                let end = match index_of_either(rest, ',', '}') {
                    Some(e) => e,
                    None => rest.len() as int,
                };
                Some(trim(rest.take(end)))
            }
        },
    }
}

/// The track one object describes: it needs a numeric `id` and a `type`;
/// `lang` and `title` are optional; it is selected when the object says
/// `"selected":true`.
pub open spec fn track_of(object: Seq<char>) -> Option<TrackView> {
    match number_field_value(object, "id"@) {
        None => None,
        Some(text) => match float_text_as_u32(text) {
            None => None,
            Some(id) => match string_field_value(object, "type"@) {
                None => None,
                Some(kind) => Some(
                    TrackView {
                        id,
                        kind,
                        language: string_field_value(object, "lang"@),
                        title: string_field_value(object, "title"@),
                        selected: contains(object, "\"selected\":true"@),
                    },
                ),
            },
        },
    }
}

/// The tracks described by a run of chunks, each cut at its first `}`, in
/// order, the undescribable ones left out.
pub open spec fn tracks_in(chunks: Seq<Seq<char>>) -> Seq<TrackView>
    decreases chunks.len(),
{
    if chunks.len() == 0 {
        Seq::<TrackView>::empty()
    } else {
        let earlier = tracks_in(chunks.drop_last());
        match track_of(before_char(chunks.last(), '}')) {
            Some(t) => earlier.push(t),
            None => earlier,
        }
    }
}

/// The tracks a `track-list` reply line lists: the objects after `"data":[`,
/// each taken from one `{` to the next `}`. Without `"data":[` there are
/// none.
pub open spec fn track_list(line: Seq<char>) -> Seq<TrackView> {
    let marker = "\"data\":["@;
    match index_of(line, marker) {
        None => Seq::<TrackView>::empty(),
        Some(p) => tracks_in(split_on(line.skip(p + marker.len()), '{').drop_first()),
    }
}

/// An object without a quoted `type`, or without a bare numeric `id`, is
/// left out of the list rather than guessed at.
pub proof fn lemma_undescribed_object_skipped(object: Seq<char>)
    requires
        string_field_value(object, "type"@) is None || number_field_value(object, "id"@) is None,
    ensures
        track_of(object) is None,
{
}

/// A track is selected exactly when its object says `"selected":true`:
/// other true fields (`"default":true`, `"external":true`) never select it,
/// and `"selected":false` leaves it unselected.
pub proof fn lemma_selected_exactly_when_marked(object: Seq<char>)
    ensures
        track_of(object) matches Some(t) ==> (t.selected <==> contains(
            object,
            "\"selected\":true"@,
        )),
{
}

/// Every listed track is what one of the chunks describes, so what is said
/// of one object's track holds of every track in the list.
pub proof fn lemma_listed_tracks_come_from_chunks(chunks: Seq<Seq<char>>, i: int)
    requires
        0 <= i < tracks_in(chunks).len(),
    ensures
        exists|j: int|
            0 <= j < chunks.len() && track_of(before_char(#[trigger] chunks[j], '}')) == Some(
                tracks_in(chunks)[i],
            ),
    decreases chunks.len(),
{
    let earlier = tracks_in(chunks.drop_last());
    let last = chunks.len() - 1;
    if i < earlier.len() {
        lemma_listed_tracks_come_from_chunks(chunks.drop_last(), i);
        let j = choose|j: int|
            0 <= j < chunks.drop_last().len() && track_of(
                before_char(#[trigger] chunks.drop_last()[j], '}'),
            ) == Some(earlier[i]);
        assert(chunks[j] == chunks.drop_last()[j]);
        assert(tracks_in(chunks)[i] == earlier[i]);
    } else {
        assert(track_of(before_char(chunks[last], '}')) == Some(tracks_in(chunks)[i]));
    }
}

/// A listed track is selected exactly when the object it was read from says
/// `"selected":true`, whatever other true fields that object has.
pub proof fn lemma_listed_track_selected_exactly_when_marked(line: Seq<char>, i: int)
    requires
        0 <= i < track_list(line).len(),
    ensures
        exists|object: Seq<char>|
            #[trigger] track_of(object) == Some(track_list(line)[i]) && (track_list(line)[i].selected
                <==> contains(object, "\"selected\":true"@)),
{
    let marker = "\"data\":["@;
    let p = index_of(line, marker)->0;
    let chunks = split_on(line.skip(p + marker.len()), '{').drop_first();
    lemma_listed_tracks_come_from_chunks(chunks, i);
    let j = choose|j: int|
        0 <= j < chunks.len() && track_of(before_char(#[trigger] chunks[j], '}')) == Some(
            tracks_in(chunks)[i],
        );
    let object = before_char(chunks[j], '}');
    lemma_selected_exactly_when_marked(object);
    assert(track_of(object) == Some(track_list(line)[i]));
}

/// The views of a list of tracks.
pub open spec fn track_views(tracks: Seq<Track>) -> Seq<TrackView> {
    tracks.map_values(|t: Track| t@)
}

/// The characters of `"field":"`.
fn string_key_chars(field: &str) -> (res: Vec<char>)
    ensures
        res@ == string_key(field@),
{
    let f = chars_of(field);
    let mut key: Vec<char> = Vec::new();
    key.push('"');
    let mut i: usize = 0;
    while i < f.len()
        invariant
            i <= f.len(),
            key@ == seq!['"'] + f@.take(i as int),
        decreases f.len() - i,
    {
        key.push(f[i]);
        assert(f@.take(i + 1) =~= f@.take(i as int).push(f@[i as int]));
        i += 1;
    }
    key.push('"');
    key.push(':');
    key.push('"');
    assert(f@.take(f.len() as int) =~= f@);
    assert(key@ =~= string_key(field@));
    key
}

/// A quoted string field of a flat JSON object.
pub fn string_field(object: &str, field: &str) -> (res: Option<String>)
    ensures
        match res {
            Some(v) => string_field_value(object@, field@) == Some(v@),
            None => string_field_value(object@, field@) is None,
        },
{
    let o = chars_of(object);
    let key = string_key_chars(field);
    let p = match find(&o, &key) {
        Some(p) => p,
        None => return None,
    };
    proof {
        crate::text::lemma_index_of_from(o@, key@, 0);
        assert(crate::text::occurs_at(o@, key@, p as int));
    }
    let rest = sub_chars(&o, p + key.len(), o.len());
    assert(rest@ =~= o@.skip(p + key.len()));
    let end = match find_char(&rest, '"') {
        Some(e) => e,
        None => return None,
    };
    proof {
        crate::text::lemma_index_of_either_from(rest@, '"', '"', 0);
    }
    let value = sub_chars(&rest, 0, end);
    assert(value@ =~= rest@.take(end as int));
    Some(string_of(&value))
}

/// The characters of `"field":`.
fn number_key_chars(field: &str) -> (res: Vec<char>)
    ensures
        res@ == field_key(field@),
{
    let mut key = string_key_chars(field);
    key.pop();
    assert(key@ =~= field_key(field@));
    key
}

/// A bare numeric field of a flat JSON object, as text.
pub fn number_field(object: &str, field: &str) -> (res: Option<String>)
    ensures
        match res {
            Some(v) => number_field_value(object@, field@) == Some(v@),
            None => number_field_value(object@, field@) is None,
        },
{
    let o = chars_of(object);
    let key = number_key_chars(field);
    let p = match find(&o, &key) {
        Some(p) => p,
        None => return None,
    };
    proof {
        crate::text::lemma_index_of_from(o@, key@, 0);
        assert(crate::text::occurs_at(o@, key@, p as int));
    }
    assert(p + key.len() <= o.len());
    let after = sub_chars(&o, p + key.len(), o.len());
    assert(after@ =~= o@.skip(p + key.len()));
    let rest = trim_start_chars(&after);
    if rest.len() > 0 && rest[0] == '"' {
        return None;
    }
    let end = match find_either(&rest, ',', '}') {
        Some(e) => {
            proof {
                crate::text::lemma_index_of_either_from(rest@, ',', '}', 0);
            }
            e
        },
        None => rest.len(),
    };
    let head = sub_chars(&rest, 0, end);
    assert(head@ =~= rest@.take(end as int));
    Some(string_of(&trim_chars(&head)))
}

/// The track one flat object describes, if it names an id and a kind.
pub fn track_from(object: &str) -> (res: Option<Track>)
    ensures
        match track_of(object@) {
            Some(t) => res matches Some(track) && track@ == t,
            None => res is None,
        },
{
    let id_text = match number_field(object, "id") {
        Some(t) => t,
        None => return None,
    };
    let id = match whole_part_u32(&chars_of(id_text.as_str())) {
        Some(id) => id,
        None => return None,
    };
    let kind = match string_field(object, "type") {
        Some(k) => k,
        None => return None,
    };
    let language = string_field(object, "lang");
    let title = string_field(object, "title");
    let selected = contains_chars(&chars_of(object), &chars_of("\"selected\":true"));
    let track = Track { id, kind, language, title, selected };
    assert(track@ == track_of(object@)->0);
    Some(track)
}

/// Pull the tracks out of a `track-list` reply line.
pub fn parse_track_list(line: &str) -> (res: Vec<Track>)
    ensures
        track_views(res@) == track_list(line@),
{
    let mut tracks: Vec<Track> = Vec::new();
    let l = chars_of(line);
    let marker = chars_of("\"data\":[");
    let p = match find(&l, &marker) {
        Some(p) => p,
        None => {
            assert(track_views(tracks@) =~= Seq::<TrackView>::empty());
            return tracks;
        },
    };
    proof {
        crate::text::lemma_index_of_from(l@, marker@, 0);
        assert(crate::text::occurs_at(l@, marker@, p as int));
        assert(p + marker@.len() <= l@.len());
    }
    assert(p + marker.len() <= l.len());
    let body = sub_chars(&l, p + marker.len(), l.len());
    assert(body@ =~= l@.skip(p + marker.len()));
    let chunks = split_char(&body, '{');
    let ghost all = split_on(body@, '{').drop_first();
    proof {
        crate::text::lemma_split_on_nonempty(body@, '{');
    }
    let mut j: usize = 1;
    assert(all.take(0) =~= Seq::<Seq<char>>::empty());
    assert(track_views(tracks@) =~= tracks_in(all.take(0)));
    while j < chunks.len()
        invariant
            1 <= j <= chunks.len(),
            char_views(chunks@) == split_on(body@, '{'),
            all == split_on(body@, '{').drop_first(),
            track_views(tracks@) == tracks_in(all.take(j - 1)),
        decreases chunks.len() - j,
    {
        let chunk = &chunks[j];
        assert(chunk@ == all[j - 1]);
        let object = match find_char(chunk, '}') {
            Some(e) => {
                proof {
                    crate::text::lemma_index_of_either_from(chunk@, '}', '}', 0);
                }
                let o = sub_chars(chunk, 0, e);
                assert(o@ =~= chunk@.take(e as int));
                o
            },
            None => sub_chars(chunk, 0, chunk.len()),
        };
        assert(object@ =~= before_char(chunk@, '}'));
        let text = string_of(&object);
        let ghost prefix = all.take(j as int);
        assert(prefix.drop_last() =~= all.take(j - 1));
        assert(prefix.last() == chunk@);
        match track_from(text.as_str()) {
            Some(t) => {
                tracks.push(t);
                assert(track_views(tracks@) =~= tracks_in(prefix));
            },
            None => {
                assert(track_views(tracks@) =~= tracks_in(prefix));
            },
        }
        j += 1;
    }
    assert(all.take(chunks.len() - 1) =~= all);
    tracks
}

/// The tracks in the reply to a `track-list` read, or the read's error
/// unchanged.
pub fn tracks_from_reply(reply: Result<String, crate::error::Error>) -> (res: Result<
    Vec<Track>,
    crate::error::Error,
>)
    ensures
        match reply {
            Ok(line) => res matches Ok(tracks) && track_views(tracks@) == track_list(line@),
            Err(e) => res == Err::<Vec<Track>, crate::error::Error>(e),
        },
{
    match reply {
        Ok(line) => Ok(parse_track_list(line.as_str())),
        Err(e) => Err(e),
    }
}

} // verus!
