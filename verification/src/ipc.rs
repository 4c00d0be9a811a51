//! The protocol spoken over mpv's `--input-ipc-server` channel:
//! newline-delimited JSON. This module writes request lines, numbers them,
//! and decides what each line read back means. Moving the bytes is left to
//! the caller.
use vstd::prelude::*;

use crate::error::Error;
use crate::json::{string_literal, write_string};
use crate::text::{
    chars_of, contains, contains_chars, contains_whole, contains_whole_chars, occurs_at,
    occurs_whole_at, decimal, find, find_char, find_either, index_of,
    index_of_char, index_of_either, join_with, push_char, push_decimal, push_text,
    string_of, sub_chars, trim, trim_chars, trim_end, trim_end_chars, trim_start,
    trim_start_chars,
};

verus! {

// ---------------------------------------------------------------------------
// Reading a field out of a reply
// ---------------------------------------------------------------------------

/// The text that introduces a field in a flat JSON object: `"field":`.
pub open spec fn field_key(field: Seq<char>) -> Seq<char> {
    seq!['"'] + field + seq!['"', ':']
}

/// One top-level field of an mpv reply, as `extract_field` reads it.
///
/// The field's key is searched for; what follows it, with leading white
/// space dropped, is either a quoted string (returned without its quotes, up
/// to the next quote) or a bare value (returned trimmed, up to the next
/// comma or closing brace, or to the end of the line).
pub open spec fn field_value(line: Seq<char>, field: Seq<char>) -> Option<Seq<char>> {
    let key = field_key(field);
    match index_of(line, key) {
        None => None,
        Some(p) => {
            let rest = trim_start(line.skip(p + key.len()));
            if rest.len() > 0 && rest[0] == '"' {
                let inner = rest.drop_first();
                match index_of_char(inner, '"') {
                    Some(e) => Some(inner.take(e)),
                    None => None,
                }
            } else {
                match index_of_either(rest, ',', '}') {
                    Some(e) => Some(trim(rest.take(e))),
                    None => Some(trim(trim_end(rest))),
                }
            }
        },
    }
}

/// The characters of `"field":`.
fn field_key_chars(field: &str) -> (res: Vec<char>)
    ensures
        res@ == field_key(field@),
{
    let f = chars_of(field);
    let mut key: Vec<char> = Vec::new();
    key.push('"');
    let mut i: usize = 0;
    while i < f.len()
        invariant
            i <= f.len(),
            key@ == seq!['"'] + f@.take(i as int),
        decreases f.len() - i,
    {
        key.push(f[i]);
        assert(f@.take(i + 1) =~= f@.take(i as int).push(f@[i as int]));
        i += 1;
    }
    key.push('"');
    key.push(':');
    assert(f@.take(f.len() as int) =~= f@);
    assert(key@ =~= field_key(field@));
    key
}

/// Pull one top-level field out of an mpv reply.
///
/// mpv's replies are flat and small, so they are scanned rather than
/// parsed. Strings are unquoted; everything else is returned verbatim, which
/// is what the numeric callers want.
pub fn extract_field(line: &str, field: &str) -> (res: Option<String>)
    ensures
        match res {
            Some(v) => field_value(line@, field@) == Some(v@),
            None => field_value(line@, field@) is None,
        },
{
    let l = chars_of(line);
    let key = field_key_chars(field);
    let p = match find(&l, &key) {
        Some(p) => p,
        None => return None,
    };
    proof {
        crate::text::lemma_index_of_from(l@, key@, 0);
    }
    let start = p + key.len();
    let after = sub_chars(&l, start, l.len());
    assert(after@ =~= l@.skip(start as int));
    let rest = trim_start_chars(&after);
    if rest.len() > 0 && rest[0] == '"' {
        let inner = sub_chars(&rest, 1, rest.len());
        assert(inner@ =~= rest@.drop_first());
        let e = match find_char(&inner, '"') {
            Some(e) => e,
            None => return None,
        };
        proof {
            crate::text::lemma_index_of_either_from(inner@, '"', '"', 0);
        }
        let value = sub_chars(&inner, 0, e);
        assert(value@ =~= inner@.take(e as int));
        return Some(string_of(&value));
    }
    match find_either(&rest, ',', '}') {
        Some(e) => {
            proof {
                crate::text::lemma_index_of_either_from(rest@, ',', '}', 0);
            }
            let head = sub_chars(&rest, 0, e);
            assert(head@ =~= rest@.take(e as int));
            Some(string_of(&trim_chars(&head)))
        },
        None => {
            let head = trim_end_chars(&rest);
            Some(string_of(&trim_chars(&head)))
        },
    }
}

// ---------------------------------------------------------------------------
// Writing requests
// ---------------------------------------------------------------------------

/// The marker that ties a reply to the request that asked for it.
pub open spec fn reply_needle(request_id: nat) -> Seq<char> {
    "\"request_id\":"@ + decimal(request_id)
}

/// The request line for a command: its arguments as a JSON array of
/// strings, and its request id.
pub open spec fn command_line(args: Seq<Seq<char>>, request_id: nat) -> Seq<char> {
    "{\"command\":["@ + join_with(args.map_values(|a: Seq<char>| string_literal(a)), ',')
        + seq![']', ','] + reply_needle(request_id) + seq!['}']
}

/// The arguments of a command, as text.
pub open spec fn arg_texts(args: Seq<&str>) -> Seq<Seq<char>> {
    args.map_values(|a: &str| a@)
}

/// The id that follows `id`: one more, wrapping round after the largest.
pub open spec fn following_id(id: u64) -> u64 {
    if id == u64::MAX {
        0
    } else {
        (id + 1) as u64
    }
}

/// The id `k` requests after `id`.
pub open spec fn id_after(id: u64, k: nat) -> u64
    decreases k,
{
    if k == 0 {
        id
    } else {
        following_id(id_after(id, (k - 1) as nat))
    }
}

/// The id `k` requests on is `id + k`, wrapping round past `u64::MAX`.
pub proof fn lemma_id_after(id: u64, k: nat)
    ensures
        id_after(id, k) as int == (id as int + k) % 0x1_0000_0000_0000_0000,
    decreases k,
{
    if k > 0 {
        lemma_id_after(id, (k - 1) as nat);
    }
}

/// Requests numbered by one counter never share an id unless 2^64 requests
/// lie between them.
pub proof fn lemma_request_ids_distinct(id: u64, j: nat, k: nat)
    requires
        j < k,
        k - j < 0x1_0000_0000_0000_0000,
    ensures
        id_after(id, j) != id_after(id, k),
{
    lemma_id_after(id, j);
    lemma_id_after(id, k);
    let m: int = 0x1_0000_0000_0000_0000;
    let a = id as int + j;
    let b = id as int + k;
    assert(a % m != b % m) by (nonlinear_arith)
        requires
            m == 0x1_0000_0000_0000_0000,
            a < b,
            b - a < m,
            a >= 0,
    {
    }
}

/// Numbers the requests sent to one mpv process.
#[derive(Debug)]
pub struct RequestCounter {
    next_request_id: u64,
}

impl RequestCounter {
    /// The id the next request will carry.
    pub closed spec fn next_id(&self) -> u64 {
        self.next_request_id
    }

    /// A counter for a fresh connection: the first request is number 1.
    pub fn new() -> (res: Self)
        ensures
            res.next_id() == 1,
    {
        RequestCounter { next_request_id: 1 }
    }

    /// Takes the next id and writes the request line for `args` with it.
    pub fn prepare(&mut self, args: &[&str]) -> (res: (u64, String))
        ensures
            res.0 == old(self).next_id(),
            final(self).next_id() == following_id(old(self).next_id()),
            res.1@ == command_line(arg_texts(args@), res.0 as nat),
    {
        let id = self.next_request_id;
        self.next_request_id = self.next_request_id.wrapping_add(1);
        let line = command_request(args, id);
        (id, line)
    }
}

/// The request line for `args` with request id `id`.
pub fn command_request(args: &[&str], id: u64) -> (res: String)
    ensures
        res@ == command_line(arg_texts(args@), id as nat),
{
    let ghost lits = arg_texts(args@).map_values(|a: Seq<char>| string_literal(a));
    let mut request = String::from_str("{\"command\":[");
    let ghost start = request@;
    let mut index: usize = 0;
    while index < args.len()
        invariant
            index <= args.len(),
            lits == arg_texts(args@).map_values(|a: Seq<char>| string_literal(a)),
            lits.len() == args.len(),
            request@ == start + join_with(lits.take(index as int), ','),
        decreases args.len() - index,
    {
        if index > 0 {
            push_char(&mut request, ',');
        }
        write_string(&mut request, args[index]);
        proof {
            let t = lits.take(index + 1);
            assert(t.drop_last() =~= lits.take(index as int));
            assert(lits[index as int] == string_literal(args@[index as int]@));
            if index == 0 {
                assert(join_with(t, ',') == t[0]);
                assert(join_with(lits.take(0), ',') =~= Seq::<char>::empty());
            }
            assert(request@ =~= start + join_with(t, ','));
        }
        index += 1;
    }
    proof {
        assert(lits.take(args.len() as int) =~= lits);
    }
    push_char(&mut request, ']');
    push_char(&mut request, ',');
    push_text(&mut request, "\"request_id\":");
    push_decimal(&mut request, id as u128);
    push_char(&mut request, '}');
    proof {
        assert(request@ =~= command_line(arg_texts(args@), id as nat));
    }
    request
}

/// A request line carries the very marker its reply is recognised by: the
/// request id, as a whole number.
pub proof fn lemma_request_carries_reply_needle(args: Seq<Seq<char>>, request_id: nat)
    ensures
        contains_whole(command_line(args, request_id), reply_needle(request_id)),
{
    let head = "{\"command\":["@ + join_with(args.map_values(|a: Seq<char>| string_literal(a)), ',')
        + seq![']', ','];
    let line = command_line(args, request_id);
    let needle = reply_needle(request_id);
    assert(line =~= head + needle + seq!['}']);
    assert(line.subrange(head.len() as int, (head.len() + needle.len()) as int) =~= needle);
    assert(line[(head.len() + needle.len()) as int] == '}');
    assert(occurs_whole_at(line, needle, head.len() as int));
}

/// The marker that starts every request id in a line.
pub open spec fn id_key() -> Seq<char> {
    "\"request_id\":"@
}

/// Where the `i`-th piece starts in the pieces joined with one separator
/// between each two.
spec fn join_start(pieces: Seq<Seq<char>>, i: int) -> int
    decreases i,
{
    if i <= 0 {
        0
    } else {
        join_start(pieces, i - 1) + pieces[i - 1].len() + 1
    }
}

/// A piece's start depends only on the pieces before it, and is never
/// negative.
proof fn lemma_join_start_prefix(pieces: Seq<Seq<char>>, n: int, i: int)
    requires
        0 <= i <= n <= pieces.len(),
    ensures
        join_start(pieces, i) == join_start(pieces.take(n), i),
        join_start(pieces, i) >= 0,
    decreases i,
{
    if i > 0 {
        lemma_join_start_prefix(pieces, n, i - 1);
        assert(pieces.take(n)[i - 1] == pieces[i - 1]);
    }
}

/// The joined text ends where the last piece ends.
proof fn lemma_join_len(pieces: Seq<Seq<char>>, sep: char)
    requires
        pieces.len() > 0,
    ensures
        join_with(pieces, sep).len() == join_start(pieces, pieces.len() - 1) + pieces.last().len(),
    decreases pieces.len(),
{
    let n = pieces.len() as int;
    if n > 1 {
        let d = pieces.drop_last();
        lemma_join_len(d, sep);
        assert(d =~= pieces.take(n - 1));
        lemma_join_start_prefix(pieces, n - 1, n - 2);
        assert(d[n - 2] == pieces[n - 2]);
    }
}

/// In the joined text piece `i` stands at its start, followed by the
/// separator unless it is the last.
proof fn lemma_join_piece(pieces: Seq<Seq<char>>, sep: char, i: int)
    requires
        0 <= i < pieces.len(),
    ensures
        join_start(pieces, i) + pieces[i].len() <= join_with(pieces, sep).len(),
        join_with(pieces, sep).subrange(join_start(pieces, i), join_start(pieces, i) + pieces[i].len())
            == pieces[i],
        i < pieces.len() - 1 ==> join_with(pieces, sep)[join_start(pieces, i) + pieces[i].len()]
            == sep,
        i < pieces.len() - 1 ==> join_start(pieces, i) + pieces[i].len() < join_with(
            pieces,
            sep,
        ).len(),
    decreases pieces.len(),
{
    let n = pieces.len() as int;
    let j = join_with(pieces, sep);
    let st = join_start(pieces, i);
    let len = pieces[i].len() as int;
    lemma_join_start_prefix(pieces, n, i);
    if n == 1 {
        assert(j == pieces[0]);
        assert(j.subrange(0, len) =~= pieces[0]);
    } else {
        let d = pieces.drop_last();
        let jd = join_with(d, sep);
        assert(d =~= pieces.take(n - 1));
        assert(j == jd.push(sep) + pieces.last());
        lemma_join_len(d, sep);
        lemma_join_start_prefix(pieces, n - 1, n - 2);
        assert(d[n - 2] == pieces[n - 2]);
        assert(join_start(pieces, n - 1) == jd.len() + 1);
        if i < n - 1 {
            lemma_join_piece(d, sep, i);
            lemma_join_start_prefix(pieces, n - 1, i);
            assert(join_start(d, i) == st);
            assert(d[i] == pieces[i]);
            assert(st + len <= jd.len());
            assert(j.subrange(st, st + len) =~= jd.subrange(st, st + len));
            if i < n - 2 {
                assert(j[st + len] == jd[st + len]);
            } else {
                assert(st + len == jd.len());
            }
        } else {
            assert(j.subrange(st, st + len) =~= pieces.last());
        }
    }
}

/// Where the literal of the `i`-th argument starts in a request line: after
/// `{"command":[`, and after each earlier literal with the comma that follows
/// it.
pub open spec fn literal_start(args: Seq<Seq<char>>, i: int) -> int
    decreases i,
{
    if i <= 0 {
        12
    } else {
        literal_start(args, i - 1) + string_literal(args[i - 1]).len() + 1
    }
}

proof fn lemma_literal_start(args: Seq<Seq<char>>, i: int)
    requires
        0 <= i <= args.len(),
    ensures
        literal_start(args, i) == 12 + join_start(
            args.map_values(|a: Seq<char>| string_literal(a)),
            i,
        ),
    decreases i,
{
    if i > 0 {
        lemma_literal_start(args, i - 1);
    }
}

/// A request line lists every argument, in order, each reading back as
/// itself. It opens with `{"command":[`; the literal of argument `i` stands
/// at `literal_start(args, i)`, decodes under JSON's rules to that argument,
/// and is followed by a comma, or by `]` when it is the last; after the `]`
/// come the request id and the closing brace.
pub proof fn lemma_request_lists_every_argument(args: Seq<Seq<char>>, request_id: nat)
    ensures
        command_line(args, request_id).take(12) == "{\"command\":["@,
        forall|i: int|
            0 <= i < args.len() ==> occurs_at(
                command_line(args, request_id),
                #[trigger] string_literal(args[i]) + seq![
                    if i + 1 < args.len() {
                        ','
                    } else {
                        ']'
                    },
                ],
                literal_start(args, i),
            ),
        forall|i: int|
            0 <= i < args.len() ==> crate::json::string_value(
                #[trigger] command_line(args, request_id).subrange(
                    literal_start(args, i),
                    literal_start(args, i) + string_literal(args[i]).len(),
                ),
            ) == Some(args[i]),
        command_line(args, request_id).skip(
            if args.len() == 0 {
                12
            } else {
                literal_start(args, args.len() as int) - 1
            },
        ) == "],\"request_id\":"@ + decimal(request_id) + seq!['}'],
{
    reveal_strlit("{\"command\":[");
    reveal_strlit("\"request_id\":");
    reveal_strlit("],\"request_id\":");
    let head = "{\"command\":["@;
    assert(head.len() == 12);
    let lits = args.map_values(|a: Seq<char>| string_literal(a));
    let j = join_with(lits, ',');
    let tail = seq![']', ','] + reply_needle(request_id) + seq!['}'];
    let line = command_line(args, request_id);
    assert(line =~= head + j + tail);
    assert(line.take(12) =~= head);
    let n = args.len() as int;
    if n == 0 {
        assert(j =~= Seq::<char>::empty());
        assert(line.skip(12) =~= "],\"request_id\":"@ + decimal(request_id) + seq!['}']);
    } else {
        lemma_join_len(lits, ',');
        lemma_literal_start(args, n);
        lemma_literal_start(args, n - 1);
        assert(literal_start(args, n) - 1 == 12 + j.len());
        assert(line.skip((12 + j.len()) as int) =~= "],\"request_id\":"@ + decimal(request_id) + seq!['}']);
        assert forall|i: int| 0 <= i < n implies occurs_at(
            line,
            #[trigger] string_literal(args[i]) + seq![
                if i + 1 < n {
                    ','
                } else {
                    ']'
                },
            ],
            literal_start(args, i),
        ) && crate::json::string_value(
            line.subrange(
                literal_start(args, i),
                literal_start(args, i) + string_literal(args[i]).len(),
            ),
        ) == Some(args[i]) by {
            lemma_request_argument_at(args, request_id, i);
        }
    }
}

/// What stands inside the middle part of a text made of three parts.
proof fn lemma_middle_part(h: Seq<char>, m: Seq<char>, t: Seq<char>, a: int, b: int)
    requires
        0 <= a <= b <= m.len(),
    ensures
        (h + m + t).subrange(h.len() + a, h.len() + b) == m.subrange(a, b),
        b < m.len() ==> (h + m + t)[h.len() + b] == m[b],
        b == m.len() && t.len() > 0 ==> (h + m + t)[h.len() + b] == t[0],
{
    assert((h + m + t).subrange(h.len() + a, h.len() + b) =~= m.subrange(a, b));
}

/// The literal of argument `i` stands at its start in the request line,
/// followed by a comma or, for the last, by `]`, and reads back as the
/// argument.
proof fn lemma_request_argument_at(args: Seq<Seq<char>>, request_id: nat, i: int)
    requires
        0 <= i < args.len(),
    ensures
        occurs_at(
            command_line(args, request_id),
            string_literal(args[i]) + seq![
                if i + 1 < args.len() {
                    ','
                } else {
                    ']'
                },
            ],
            literal_start(args, i),
        ),
        crate::json::string_value(
            command_line(args, request_id).subrange(
                literal_start(args, i),
                literal_start(args, i) + string_literal(args[i]).len(),
            ),
        ) == Some(args[i]),
{
    reveal_strlit("{\"command\":[");
    let head = "{\"command\":["@;
    assert(head.len() == 12);
    let lits = args.map_values(|a: Seq<char>| string_literal(a));
    let j = join_with(lits, ',');
    let tail = seq![']', ','] + reply_needle(request_id) + seq!['}'];
    let line = command_line(args, request_id);
    assert(line == head + j + tail);
    let n = args.len() as int;
    lemma_literal_start(args, i);
    let st = join_start(lits, i);
    let lit = string_literal(args[i]);
    assert(lits[i] == lit);
    lemma_join_start_prefix(lits, n, i);
    lemma_join_piece(lits, ',', i);
    lemma_join_len(lits, ',');
    let e = st + lit.len();
    lemma_middle_part(head, j, tail, st, e);
    let c = if i + 1 < n {
        ','
    } else {
        ']'
    };
    if i + 1 >= n {
        assert(e == j.len());
        assert(tail[0] == ']');
    }
    assert(line[12 + e] == c);
    assert(line.subrange(12 + st, 12 + e + 1) =~= line.subrange(12 + st, 12 + e).push(line[12 + e]));
    assert(lit + seq![c] =~= lit.push(c));
    crate::json::lemma_string_literal_round_trip(args[i]);
}

/// A line whose only request id is `m`, written in full, is the reply to
/// request `m` and to no other: a reply tagged 12 is not taken for the reply
/// to request 1.
pub proof fn lemma_reply_belongs_to_its_request(line: Seq<char>, k: int, m: nat, n: nat)
    requires
        occurs_at(line, id_key(), k),
        forall|j: int| occurs_at(line, id_key(), j) ==> j == k,
        occurs_whole_at(line, decimal(m), k + id_key().len()),
    ensures
        contains_whole(line, reply_needle(m)),
        n != m ==> !contains_whole(line, reply_needle(n)),
{
    let key = id_key();
    let p = k + key.len();
    let dm = decimal(m);
    assert(line.subrange(k, p + dm.len()) =~= reply_needle(m)) by {
        assert(line.subrange(k, p) =~= line.subrange(k, k + key.len()));
        assert(line.subrange(p, p + dm.len()) == dm);
    }
    assert(occurs_whole_at(line, reply_needle(m), k));
    if n != m && contains_whole(line, reply_needle(n)) {
        let dn = decimal(n);
        let i = choose|i: int| occurs_whole_at(line, reply_needle(n), i);
        assert(line.subrange(i, i + key.len()) =~= reply_needle(n).subrange(0, key.len() as int));
        assert(reply_needle(n).subrange(0, key.len() as int) =~= key);
        assert(occurs_at(line, key, i));
        assert(i == k);
        crate::text::lemma_decimal_digits(m);
        crate::text::lemma_decimal_digits(n);
        if dn.len() == dm.len() {
            assert(dn =~= line.subrange(p, p + dn.len())) by {
                assert forall|j: int| 0 <= j < dn.len() implies dn[j] == line[p + j] by {
                    assert(reply_needle(n)[key.len() + j] == line[i + key.len() + j]);
                }
            }
            crate::text::lemma_decimal_injective(m, n);
        } else if dn.len() < dm.len() {
            assert(line[p + dn.len()] == dm[dn.len() as int]);
            assert('0' <= dm[dn.len() as int] <= '9');
        } else {
            assert(line[p + dm.len()] == reply_needle(n)[(key.len() + dm.len()) as int]);
            assert(reply_needle(n)[(key.len() + dm.len()) as int] == dn[dm.len() as int]);
            assert('0' <= dn[dm.len() as int] <= '9');
        }
    }
}

// ---------------------------------------------------------------------------
// Waiting for a reply
// ---------------------------------------------------------------------------

/// How many lines are read waiting for one reply before giving up: a channel
/// that goes quiet must not hang a caller.
pub const MAX_REPLY_LINES: usize = 512;

/// The marker of a command mpv carried out.
pub open spec fn success_marker() -> Seq<char> {
    "\"error\":\"success\""@
}

/// What one line read from the channel means for the request `request_id`:
/// `None` when it is not that request's reply (an event, or another
/// request's reply); otherwise the reply's value, or the message of a
/// rejection. `raw` asks for the whole line rather than its `data` field.
pub open spec fn reply_outcome(line: Seq<char>, request_id: nat, raw: bool) -> Option<
    std::result::Result<Seq<char>, Seq<char>>,
> {
    if !contains_whole(line, reply_needle(request_id)) {
        None
    } else if !contains(line, success_marker()) {
        Some(
            Err(
                match field_value(line, "error"@) {
                    Some(m) => m,
                    None => trim(line),
                },
            ),
        )
    } else if raw {
        Some(Ok(line))
    } else {
        Some(
            Ok(
                match field_value(line, "data"@) {
                    Some(v) => v,
                    None => Seq::<char>::empty(),
                },
            ),
        )
    }
}

/// Asking for the raw line changes only what an accepted reply gives. A
/// reply to the request that lacks mpv's `"error":"success"` is a rejection
/// whether or not the raw line was asked for, and the same rejection either
/// way, carrying the reply's `error` field when it has one; an accepted reply
/// asked for raw is the whole line.
pub proof fn lemma_raw_changes_only_accepted_replies(line: Seq<char>, request_id: nat, raw: bool)
    requires
        contains_whole(line, reply_needle(request_id)),
    ensures
        !contains(line, "\"error\":\"success\""@) ==> {
            &&& reply_outcome(line, request_id, raw) matches Some(Err(m))
            &&& reply_outcome(line, request_id, true) == reply_outcome(line, request_id, false)
            &&& (field_value(line, "error"@) matches Some(e) ==> m == e)
        },
        contains(line, "\"error\":\"success\""@) ==> {
            &&& reply_outcome(line, request_id, true) == Some(
                Ok::<Seq<char>, Seq<char>>(line),
            )
            &&& reply_outcome(line, request_id, false) is Some
            &&& reply_outcome(line, request_id, false)->0 is Ok
            &&& (field_value(line, "data"@) matches Some(v) ==> reply_outcome(
                line,
                request_id,
                false,
            ) == Some(Ok::<Seq<char>, Seq<char>>(v)))
        },
{
}

/// A quoted field is read whole. When the first `"field":` of a line is
/// followed at once by a quoted text holding no quote, the value read is that
/// whole text: commas, braces and white space inside it included.
pub proof fn lemma_quoted_field_read_whole(line: Seq<char>, field: Seq<char>, k: int, text: Seq<char>)
    requires
        occurs_at(line, seq!['"'] + field + seq!['"', ':', '"'] + text + seq!['"'], k),
        forall|j: int| 0 <= j < k ==> !occurs_at(line, seq!['"'] + field + seq!['"', ':'], j),
        forall|i: int| 0 <= i < text.len() ==> text[i] != '"',
    ensures
        field_value(line, field) == Some(text),
{
    let key = field_key(field);
    let whole = seq!['"'] + field + seq!['"', ':', '"'] + text + seq!['"'];
    assert(key =~= seq!['"'] + field + seq!['"', ':']);
    assert(whole.subrange(0, key.len() as int) =~= key);
    assert(line.subrange(k, k + key.len()) =~= whole.subrange(0, key.len() as int));
    assert(occurs_at(line, key, k));
    crate::text::lemma_index_of_from(line, key, 0);
    crate::text::lemma_occurs_contains(line, key, k);
    assert(index_of(line, key) == Some(k));
    let after = line.skip(k + key.len());
    assert(after[0] == line[k + key.len()]);
    assert(line[k + key.len()] == whole[key.len() as int]);
    assert(after[0] == '"');
    assert(trim_start(after) == after);
    let inner = after.drop_first();
    assert forall|i: int| 0 <= i <= text.len() implies inner[i] == whole[key.len() + 1 + i] by {
        assert(inner[i] == line[k + key.len() + 1 + i]);
        assert(line[k + key.len() + 1 + i] == line.subrange(k, k + whole.len())[key.len() + 1 + i]);
    }
    assert forall|i: int| 0 <= i < text.len() implies inner[i] == text[i] by {
        assert(whole[key.len() + 1 + i] == text[i]);
    }
    assert(inner[text.len() as int] == '"') by {
        assert(whole[(key.len() + 1 + text.len()) as int] == '"');
    }
    crate::text::lemma_index_of_either_from(inner, '"', '"', 0);
    assert(index_of_char(inner, '"') == Some(text.len() as int));
    assert(inner.take(text.len() as int) =~= text);
}

/// A bare field is read whole. When the first `"field":` of a line is
/// followed at once by a text with no quote, comma or brace in it and no
/// white space at either end, then by a comma or a closing brace, the value
/// read is that text.
pub proof fn lemma_bare_field_read_whole(line: Seq<char>, field: Seq<char>, k: int, text: Seq<char>, end: char)
    requires
        occurs_at(line, seq!['"'] + field + seq!['"', ':'] + text + seq![end], k),
        forall|j: int| 0 <= j < k ==> !occurs_at(line, seq!['"'] + field + seq!['"', ':'], j),
        end == ',' || end == '}',
        text.len() > 0,
        text[0] != '"',
        !crate::text::is_white(text[0]),
        !crate::text::is_white(text.last()),
        forall|i: int| 0 <= i < text.len() ==> text[i] != ',' && text[i] != '}',
    ensures
        field_value(line, field) == Some(text),
{
    let key = field_key(field);
    let whole = seq!['"'] + field + seq!['"', ':'] + text + seq![end];
    assert(key =~= seq!['"'] + field + seq!['"', ':']);
    assert(whole.subrange(0, key.len() as int) =~= key);
    assert(line.subrange(k, k + key.len()) =~= whole.subrange(0, key.len() as int));
    assert(occurs_at(line, key, k));
    crate::text::lemma_index_of_from(line, key, 0);
    crate::text::lemma_occurs_contains(line, key, k);
    assert(index_of(line, key) == Some(k));
    let after = line.skip(k + key.len());
    assert forall|i: int| 0 <= i <= text.len() implies after[i] == whole[key.len() + i] by {
        assert(after[i] == line[k + key.len() + i]);
        assert(line[k + key.len() + i] == line.subrange(k, k + whole.len())[key.len() + i]);
    }
    assert forall|i: int| 0 <= i < text.len() implies after[i] == text[i] by {
        assert(whole[key.len() + i] == text[i]);
    }
    assert(after[text.len() as int] == end) by {
        assert(whole[(key.len() + text.len()) as int] == end);
    }
    assert(trim_start(after) == after);
    crate::text::lemma_index_of_either_from(after, ',', '}', 0);
    assert(index_of_either(after, ',', '}') == Some(text.len() as int));
    assert(after.take(text.len() as int) =~= text);
    assert(trim_start(text) == text);
    assert(trim_end(text) == text);
}

/// What happened on the channel while waiting.
#[derive(Debug)]
pub enum ReplyEvent {
    /// A line arrived (with or without its newline).
    Line(String),
    /// mpv closed the channel.
    Closed,
    /// Reading failed, for the reason given.
    ReadFailed(String),
}

/// What the waiting side does next.
#[derive(Debug)]
pub enum ReplyStep {
    /// Read another line.
    ReadAnother,
    /// Stop: this is the reply, or the reason there will be none.
    Finished(std::result::Result<String, Error>),
}

/// Waiting for the reply to one request.
///
/// mpv interleaves asynchronous events with replies, so everything that is
/// not our reply is skipped rather than treated as a protocol error.
#[derive(Debug)]
pub struct ReplyWait {
    request_id: u64,
    raw: bool,
    lines_read: usize,
}

impl ReplyWait {
    /// The request waited for.
    pub closed spec fn request_id(&self) -> u64 {
        self.request_id
    }

    /// Whether the whole reply line is wanted rather than its `data` field.
    pub closed spec fn wants_raw(&self) -> bool {
        self.raw
    }

    /// How many lines have been read and skipped so far.
    pub closed spec fn lines_read(&self) -> nat {
        self.lines_read as nat
    }

    /// Start waiting for the reply to `request_id`.
    pub fn new(request_id: u64, raw: bool) -> (res: Self)
        ensures
            res.request_id() == request_id,
            res.wants_raw() == raw,
            res.lines_read() == 0,
    {
        ReplyWait { request_id, raw, lines_read: 0 }
    }

    /// Take in what happened on the channel and say what to do next.
    pub fn step(&mut self, event: ReplyEvent) -> (res: ReplyStep)
        ensures
            final(self).request_id() == old(self).request_id(),
            final(self).wants_raw() == old(self).wants_raw(),
            match event {
                ReplyEvent::Closed => res matches ReplyStep::Finished(Err(Error::PlayerIpc { message }))
                    && message@ == "mpv closed the control channel"@,
                ReplyEvent::ReadFailed(reason) => res matches ReplyStep::Finished(
                    Err(Error::PlayerIpc { message }),
                ) && message@ == reason@,
                ReplyEvent::Line(line) => match reply_outcome(
                    line@,
                    old(self).request_id() as nat,
                    old(self).wants_raw(),
                ) {
                    Some(Ok(v)) => res matches ReplyStep::Finished(Ok(s)) && s@ == v,
                    Some(Err(m)) => res matches ReplyStep::Finished(
                        Err(Error::PlayerCommand { message }),
                    ) && message@ == m,
                    None => if old(self).lines_read() + 1 >= MAX_REPLY_LINES {
                        res matches ReplyStep::Finished(Err(Error::PlayerIpc { message }))
                            && message@ == "no reply from mpv"@
                    } else {
                        res is ReadAnother && final(self).lines_read() == old(self).lines_read()
                            + 1
                    },
                },
            },
    {
        match event {
            ReplyEvent::Closed => ReplyStep::Finished(
                Err(Error::PlayerIpc { message: String::from_str("mpv closed the control channel") }),
            ),
            ReplyEvent::ReadFailed(reason) => ReplyStep::Finished(
                Err(Error::PlayerIpc { message: reason }),
            ),
            ReplyEvent::Line(line) => {
                match reply_for(line.as_str(), self.request_id, self.raw) {
                    Some(result) => ReplyStep::Finished(result),
                    None => {
                        if self.lines_read >= MAX_REPLY_LINES - 1 {
                            ReplyStep::Finished(
                                Err(Error::PlayerIpc { message: String::from_str("no reply from mpv") }),
                            )
                        } else {
                            self.lines_read = self.lines_read + 1;
                            ReplyStep::ReadAnother
                        }
                    },
                }
            },
        }
    }
}

/// The characters of a request's reply marker.
fn needle_chars(request_id: u64) -> (res: Vec<char>)
    ensures
        res@ == reply_needle(request_id as nat),
{
    let mut s = String::from_str("\"request_id\":");
    push_decimal(&mut s, request_id as u128);
    chars_of(s.as_str())
}

/// What a line means for the request `request_id`: `None` when it is not
/// that request's reply.
pub fn reply_for(line: &str, request_id: u64, raw: bool) -> (res: Option<
    std::result::Result<String, Error>,
>)
    ensures
        match reply_outcome(line@, request_id as nat, raw) {
            None => res is None,
            Some(Ok(v)) => res matches Some(Ok(s)) && s@ == v,
            Some(Err(m)) => res matches Some(Err(Error::PlayerCommand { message })) && message@
                == m,
        },
{
    let l = chars_of(line);
    let needle = needle_chars(request_id);
    if !contains_whole_chars(&l, &needle) {
        return None;
    }
    let success = chars_of("\"error\":\"success\"");
    if !contains_chars(&l, &success) {
        let message = match extract_field(line, "error") {
            Some(m) => m,
            None => string_of(&trim_chars(&l)),
        };
        return Some(Err(Error::PlayerCommand { message }));
    }
    if raw {
        return Some(Ok(line.to_owned()));
    }
    let data = match extract_field(line, "data") {
        Some(v) => v,
        None => String::new(),
    };
    Some(Ok(data))
}

} // verus!
