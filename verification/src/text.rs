//! Character-level text handling shared by the reply readers and the
//! command writers: searching, trimming, splitting and number rendering,
//! each stated over the character sequence of the text.
use vstd::prelude::*;

verus! {

// ---------------------------------------------------------------------------
// Specifications
// ---------------------------------------------------------------------------

/// `pat` occurs in `s` starting at character `i`.
pub open spec fn occurs_at(s: Seq<char>, pat: Seq<char>, i: int) -> bool {
    &&& 0 <= i
    &&& i + pat.len() <= s.len()
    &&& s.subrange(i, i + pat.len()) == pat
}

/// The first occurrence of `pat` in `s` at or after character `i`.
pub open spec fn index_of_from(s: Seq<char>, pat: Seq<char>, i: int) -> Option<int>
    decreases s.len() + 1 - i,
{
    if i < 0 || i > s.len() || i + pat.len() > s.len() {
        None
    } else if occurs_at(s, pat, i) {
        Some(i)
    } else {
        index_of_from(s, pat, i + 1)
    }
}

/// The first occurrence of `pat` in `s` (what `str::find` reports, counted
/// in characters).
pub open spec fn index_of(s: Seq<char>, pat: Seq<char>) -> Option<int> {
    index_of_from(s, pat, 0)
}

/// `pat` occurs somewhere in `s` (`str::contains`).
pub open spec fn contains(s: Seq<char>, pat: Seq<char>) -> bool {
    index_of(s, pat) is Some
}

/// The first character of `s` at or after `i` that is `a` or `b`.
pub open spec fn index_of_either_from(s: Seq<char>, a: char, b: char, i: int) -> Option<int>
    decreases s.len() - i,
{
    if i < 0 || i >= s.len() {
        None
    } else if s[i] == a || s[i] == b {
        Some(i)
    } else {
        index_of_either_from(s, a, b, i + 1)
    }
}

/// The first character of `s` that is `a` or `b`.
pub open spec fn index_of_either(s: Seq<char>, a: char, b: char) -> Option<int> {
    index_of_either_from(s, a, b, 0)
}

/// The first occurrence of the character `c` in `s`.
pub open spec fn index_of_char(s: Seq<char>, c: char) -> Option<int> {
    index_of_either(s, c, c)
}

/// The last occurrence of the character `c` in `s`.
pub open spec fn last_index_of_char(s: Seq<char>, c: char) -> Option<int>
    decreases s.len(),
{
    if s.len() == 0 {
        None
    } else if s.last() == c {
        Some(s.len() - 1)
    } else {
        last_index_of_char(s.drop_last(), c)
    }
}

/// The part of `s` before the first `c`, or all of `s` when there is none
/// (the first piece of `str::split`).
pub open spec fn before_char(s: Seq<char>, c: char) -> Seq<char> {
    match index_of_char(s, c) {
        Some(i) => s.take(i),
        None => s,
    }
}

/// The part of `s` after the last `c`, or all of `s` when there is none
/// (the first piece of `str::rsplit`).
pub open spec fn after_last_char(s: Seq<char>, c: char) -> Seq<char> {
    match last_index_of_char(s, c) {
        Some(i) => s.skip(i + 1),
        None => s,
    }
}

/// Unicode white space, as `char::is_whitespace` decides it.
pub open spec fn is_white(c: char) -> bool {
    ||| c == ' '
    ||| ('\t' <= c && c <= '\r')
    ||| c == '\u{85}'
    ||| c == '\u{a0}'
    ||| c == '\u{1680}'
    ||| ('\u{2000}' <= c && c <= '\u{200a}')
    ||| c == '\u{2028}'
    ||| c == '\u{2029}'
    ||| c == '\u{202f}'
    ||| c == '\u{205f}'
    ||| c == '\u{3000}'
}

/// `s` without its leading white space (`str::trim_start`).
pub open spec fn trim_start(s: Seq<char>) -> Seq<char>
    decreases s.len(),
{
    if s.len() > 0 && is_white(s[0]) {
        trim_start(s.drop_first())
    } else {
        s
    }
}

/// `s` without its trailing white space (`str::trim_end`).
pub open spec fn trim_end(s: Seq<char>) -> Seq<char>
    decreases s.len(),
{
    if s.len() > 0 && is_white(s.last()) {
        trim_end(s.drop_last())
    } else {
        s
    }
}

/// `s` without white space at either end (`str::trim`).
pub open spec fn trim(s: Seq<char>) -> Seq<char> {
    trim_end(trim_start(s))
}

/// The pieces of `s` between occurrences of `c` (`str::split` with a
/// character): one more piece than there are separators, empty ones kept.
pub open spec fn split_on(s: Seq<char>, c: char) -> Seq<Seq<char>>
    decreases s.len(),
{
    if s.len() == 0 {
        seq![Seq::<char>::empty()]
    } else {
        let pieces = split_on(s.drop_last(), c);
        if s.last() == c {
            pieces.push(Seq::<char>::empty())
        } else {
            pieces.update(pieces.len() - 1, pieces.last().push(s.last()))
        }
    }
}

/// The pieces joined back together with `sep` between them (`[T]::join`).
pub open spec fn join_with(pieces: Seq<Seq<char>>, sep: char) -> Seq<char>
    decreases pieces.len(),
{
    if pieces.len() == 0 {
        Seq::<char>::empty()
    } else if pieces.len() == 1 {
        pieces[0]
    } else {
        join_with(pieces.drop_last(), sep).push(sep) + pieces.last()
    }
}

/// The decimal digit for `d`.
pub open spec fn digit_char(d: int) -> char {
    if d == 0 { '0' }
    else if d == 1 { '1' }
    else if d == 2 { '2' }
    else if d == 3 { '3' }
    else if d == 4 { '4' }
    else if d == 5 { '5' }
    else if d == 6 { '6' }
    else if d == 7 { '7' }
    else if d == 8 { '8' }
    else { '9' }
}

/// `n` written in decimal, without sign or leading zeros (what `to_string`
/// gives for an unsigned integer).
pub open spec fn decimal(n: nat) -> Seq<char>
    decreases n,
{
    if n < 10 {
        seq![digit_char(n as int)]
    } else {
        decimal(n / 10).push(digit_char((n % 10) as int))
    }
}

// ---------------------------------------------------------------------------
// Lemmas
// ---------------------------------------------------------------------------

/// What the first-occurrence search reports.
pub proof fn lemma_index_of_from(s: Seq<char>, pat: Seq<char>, i: int)
    requires
        0 <= i,
    ensures
        index_of_from(s, pat, i) matches Some(k) ==> {
            &&& i <= k
            &&& occurs_at(s, pat, k)
            &&& forall|j: int| i <= j < k ==> !occurs_at(s, pat, j)
        },
        index_of_from(s, pat, i) is None ==> forall|j: int| i <= j ==> !occurs_at(s, pat, j),
    decreases s.len() + 1 - i,
{
    if i > s.len() || i + pat.len() > s.len() {
    } else if occurs_at(s, pat, i) {
    } else {
        lemma_index_of_from(s, pat, i + 1);
        assert forall|j: int| i <= j && j < i + 1 implies !occurs_at(s, pat, j) by {
            assert(j == i);
        }
    }
}

/// Any occurrence makes `contains` true, and the first one is no later.
pub proof fn lemma_occurs_contains(s: Seq<char>, pat: Seq<char>, k: int)
    requires
        occurs_at(s, pat, k),
    ensures
        contains(s, pat),
        index_of(s, pat) matches Some(m) && m <= k,
{
    lemma_index_of_from(s, pat, 0);
}

/// What the first-of-two-characters search reports.
pub proof fn lemma_index_of_either_from(s: Seq<char>, a: char, b: char, i: int)
    requires
        0 <= i,
    ensures
        index_of_either_from(s, a, b, i) matches Some(k) ==> {
            &&& i <= k < s.len()
            &&& (s[k] == a || s[k] == b)
            &&& forall|j: int| i <= j < k ==> s[j] != a && s[j] != b
        },
        index_of_either_from(s, a, b, i) is None ==> forall|j: int|
            i <= j < s.len() ==> s[j] != a && s[j] != b,
    decreases s.len() - i,
{
    if i < s.len() && !(s[i] == a || s[i] == b) {
        lemma_index_of_either_from(s, a, b, i + 1);
    }
}

/// What the last-occurrence search reports.
pub proof fn lemma_last_index_of_char(s: Seq<char>, c: char)
    ensures
        last_index_of_char(s, c) matches Some(k) ==> {
            &&& 0 <= k < s.len()
            &&& s[k] == c
            &&& forall|j: int| k < j < s.len() ==> s[j] != c
        },
        last_index_of_char(s, c) is None ==> forall|j: int| 0 <= j < s.len() ==> s[j] != c,
    decreases s.len(),
{
    if s.len() > 0 && s.last() != c {
        let t = s.drop_last();
        lemma_last_index_of_char(t, c);
        assert forall|j: int| 0 <= j < t.len() implies t[j] == s[j] by {}
    }
}

/// `trim_start` removes exactly the white run at the front.
pub proof fn lemma_trim_start_skip(s: Seq<char>, i: int)
    requires
        0 <= i <= s.len(),
        forall|j: int| 0 <= j < i ==> is_white(s[j]),
    ensures
        trim_start(s) == trim_start(s.skip(i)),
    decreases i,
{
    if i > 0 {
        assert(s.skip(1) =~= s.drop_first());
        assert(s.drop_first().skip(i - 1) =~= s.skip(i));
        lemma_trim_start_skip(s.drop_first(), i - 1);
    } else {
        assert(s.skip(0) =~= s);
    }
}

/// `trim_end` removes exactly the white run at the back.
pub proof fn lemma_trim_end_take(s: Seq<char>, i: int)
    requires
        0 <= i <= s.len(),
        forall|j: int| i <= j < s.len() ==> is_white(s[j]),
    ensures
        trim_end(s) == trim_end(s.take(i)),
    decreases s.len() - i,
{
    if i < s.len() {
        assert(s.drop_last().take(i) =~= s.take(i));
        lemma_trim_end_take(s.drop_last(), i);
    } else {
        assert(s.take(i) =~= s);
    }
}

/// `split_on` always yields at least one piece.
pub proof fn lemma_split_on_nonempty(s: Seq<char>, c: char)
    ensures
        split_on(s, c).len() >= 1,
    decreases s.len(),
{
    if s.len() > 0 {
        lemma_split_on_nonempty(s.drop_last(), c);
    }
}

/// Appending a separator starts a new, empty piece.
pub proof fn lemma_split_on_push_sep(s: Seq<char>, c: char)
    ensures
        split_on(s.push(c), c) == split_on(s, c).push(Seq::<char>::empty()),
{
    assert(s.push(c).drop_last() =~= s);
}

/// Appending another character grows the last piece.
pub proof fn lemma_split_on_push_other(s: Seq<char>, c: char, x: char)
    requires
        x != c,
    ensures
        split_on(s.push(x), c) == split_on(s, c).update(
            split_on(s, c).len() - 1,
            split_on(s, c).last().push(x),
        ),
{
    assert(s.push(x).drop_last() =~= s);
}

/// Appending text free of the separator grows the last piece by that text.
pub proof fn lemma_split_on_append_plain(s: Seq<char>, c: char, t: Seq<char>)
    requires
        forall|j: int| 0 <= j < t.len() ==> t[j] != c,
    ensures
        split_on(s + t, c).len() == split_on(s, c).len(),
        split_on(s + t, c) == split_on(s, c).update(
            split_on(s, c).len() - 1,
            split_on(s, c).last() + t,
        ),
    decreases t.len(),
{
    lemma_split_on_nonempty(s, c);
    if t.len() == 0 {
        assert(s + t =~= s);
        assert(split_on(s, c).last() + t =~= split_on(s, c).last());
        assert(split_on(s, c).update(split_on(s, c).len() - 1, split_on(s, c).last())
            =~= split_on(s, c));
    } else {
        let t0 = t.drop_last();
        lemma_split_on_append_plain(s, c, t0);
        assert(s + t =~= (s + t0).push(t.last()));
        lemma_split_on_push_other(s + t0, c, t.last());
        assert(split_on(s, c).last() + t =~= (split_on(s, c).last() + t0).push(t.last()));
        assert(split_on(s + t, c) =~= split_on(s, c).update(
            split_on(s, c).len() - 1,
            split_on(s, c).last() + t,
        ));
    }
}

/// Splitting text that was joined with a separator no piece contains gives
/// the pieces back.
pub proof fn lemma_split_join(pieces: Seq<Seq<char>>, sep: char)
    requires
        pieces.len() >= 1,
        forall|i: int, j: int|
            0 <= i < pieces.len() && 0 <= j < pieces[i].len() ==> pieces[i][j] != sep,
    ensures
        split_on(join_with(pieces, sep), sep) == pieces,
    decreases pieces.len(),
{
    if pieces.len() == 1 {
        let p = pieces[0];
        lemma_split_on_append_plain(Seq::<char>::empty(), sep, p);
        assert(Seq::<char>::empty() + p =~= p);
        assert(split_on(Seq::<char>::empty(), sep) =~= seq![Seq::<char>::empty()]);
        assert(Seq::<char>::empty() + p =~= p);
        assert(split_on(p, sep) =~= pieces);
    } else {
        let front = pieces.drop_last();
        let last = pieces.last();
        assert forall|i: int, j: int|
            0 <= i < front.len() && 0 <= j < front[i].len() implies front[i][j] != sep by {
            assert(front[i] == pieces[i]);
        }
        lemma_split_join(front, sep);
        let joined = join_with(front, sep);
        lemma_split_on_push_sep(joined, sep);
        assert forall|j: int| 0 <= j < last.len() implies last[j] != sep by {
            assert(last == pieces[pieces.len() - 1]);
        }
        lemma_split_on_append_plain(joined.push(sep), sep, last);
        assert(Seq::<char>::empty() + last =~= last);
        assert(split_on(join_with(pieces, sep), sep) =~= pieces);
    }
}

/// A decimal rendering is never empty.
pub proof fn lemma_decimal_nonempty(n: nat)
    ensures
        decimal(n).len() >= 1,
    decreases n,
{
    if n >= 10 {
        lemma_decimal_nonempty(n / 10);
    }
}

/// A decimal rendering holds only the digits `0` to `9`.
pub proof fn lemma_decimal_digits(n: nat)
    ensures
        forall|i: int| 0 <= i < decimal(n).len() ==> '0' <= #[trigger] decimal(n)[i] <= '9',
    decreases n,
{
    if n >= 10 {
        lemma_decimal_digits(n / 10);
        let d = decimal(n / 10);
        assert forall|i: int| 0 <= i < decimal(n).len() implies '0' <= #[trigger] decimal(n)[i]
            <= '9' by {
            if i < d.len() {
                assert(decimal(n)[i] == d[i]);
            }
        }
    }
}

/// Different numbers are written differently.
pub proof fn lemma_decimal_injective(a: nat, b: nat)
    requires
        decimal(a) == decimal(b),
    ensures
        a == b,
    decreases a,
{
    if a < 10 && b < 10 {
        assert(decimal(a)[0] == digit_char(a as int));
        assert(decimal(b)[0] == digit_char(b as int));
        lemma_digit_char_injective(a as int, b as int);
    } else if a < 10 {
        lemma_decimal_nonempty(b / 10);
        assert(decimal(b).len() >= 2);
    } else if b < 10 {
        lemma_decimal_nonempty(a / 10);
        assert(decimal(a).len() >= 2);
    } else {
        assert(decimal(a).drop_last() =~= decimal(a / 10));
        assert(decimal(b).drop_last() =~= decimal(b / 10));
        lemma_decimal_injective(a / 10, b / 10);
        assert(decimal(a) == decimal(a / 10).push(digit_char((a % 10) as int)));
        assert(decimal(b) == decimal(b / 10).push(digit_char((b % 10) as int)));
        assert(decimal(a).last() == digit_char((a % 10) as int));
        assert(decimal(b).last() == digit_char((b % 10) as int));
        lemma_digit_char_injective((a % 10) as int, (b % 10) as int);
        assert(a == (a / 10) * 10 + a % 10);
        assert(b == (b / 10) * 10 + b % 10);
    }
}

/// Different digits are different characters.
proof fn lemma_digit_char_injective(a: int, b: int)
    requires
        0 <= a <= 9,
        0 <= b <= 9,
        digit_char(a) == digit_char(b),
    ensures
        a == b,
{
}

// ---------------------------------------------------------------------------
// Executable helpers
// ---------------------------------------------------------------------------

/// Appends one character to a string, as std's `String::push` does.
#[verifier::external_body]
pub(crate) fn push_char(s: &mut String, c: char)
    ensures
        final(s)@ == old(s)@.push(c),
{
    s.push(c);
}

/// Appends a piece of text to a string.
pub(crate) fn push_text(s: &mut String, t: &str)
    ensures
        final(s)@ == old(s)@ + t@,
{
    s.append(t);
}

/// The characters of a string, in order.
pub(crate) fn chars_of(s: &str) -> (res: Vec<char>)
    ensures
        res@ == s@,
{
    let mut out: Vec<char> = Vec::new();
    for c in it: s.chars()
        invariant
            out@ == it.seq().take(it.index() as int),
    {
        out.push(c);
    }
    out
}

/// Appends characters to a string.
pub(crate) fn push_chars(s: &mut String, cs: &Vec<char>)
    ensures
        final(s)@ == old(s)@ + cs@,
{
    let ghost start = s@;
    let mut i: usize = 0;
    while i < cs.len()
        invariant
            i <= cs.len(),
            s@ == start + cs@.take(i as int),
        decreases cs.len() - i,
    {
        push_char(s, cs[i]);
        assert(cs@.take(i as int).push(cs@[i as int]) =~= cs@.take(i + 1));
        i += 1;
    }
    assert(cs@.take(cs.len() as int) =~= cs@);
}

/// A string holding exactly the given characters.
pub(crate) fn string_of(cs: &Vec<char>) -> (res: String)
    ensures
        res@ == cs@,
{
    let mut s = String::new();
    push_chars(&mut s, cs);
    assert(Seq::<char>::empty() + cs@ =~= cs@);
    s
}

/// The characters `lo..hi` of `v`.
pub(crate) fn sub_chars(v: &Vec<char>, lo: usize, hi: usize) -> (res: Vec<char>)
    requires
        lo <= hi <= v.len(),
    ensures
        res@ == v@.subrange(lo as int, hi as int),
{
    let mut out: Vec<char> = Vec::new();
    let mut i = lo;
    while i < hi
        invariant
            lo <= i <= hi <= v.len(),
            out@ == v@.subrange(lo as int, i as int),
        decreases hi - i,
    {
        out.push(v[i]);
        assert(v@.subrange(lo as int, i as int).push(v@[i as int]) =~= v@.subrange(
            lo as int,
            i + 1,
        ));
        i += 1;
    }
    out
}

/// Whether `pat` occurs in `hay` at position `i`.
pub(crate) fn matches_at(hay: &Vec<char>, pat: &Vec<char>, i: usize) -> (res: bool)
    requires
        i + pat.len() <= hay.len(),
    ensures
        res == occurs_at(hay@, pat@, i as int),
{
    let mut j: usize = 0;
    while j < pat.len()
        invariant
            i + pat.len() <= hay.len(),
            j <= pat.len(),
            forall|k: int| 0 <= k < j ==> hay@[i + k] == pat@[k],
        decreases pat.len() - j,
    {
        if hay[i + j] != pat[j] {
            assert(hay@.subrange(i as int, i + pat.len())[j as int] != pat@[j as int]);
            return false;
        }
        j += 1;
    }
    assert(hay@.subrange(i as int, i + pat.len()) =~= pat@);
    true
}

/// The first position of `pat` in `hay` (`str::find`).
pub(crate) fn find(hay: &Vec<char>, pat: &Vec<char>) -> (res: Option<usize>)
    ensures
        match res {
            Some(k) => index_of(hay@, pat@) == Some(k as int),
            None => index_of(hay@, pat@) is None,
        },
{
    if pat.len() > hay.len() {
        return None;
    }
    let last = hay.len() - pat.len();
    let mut i: usize = 0;
    loop
        invariant
            pat.len() <= hay.len(),
            last == hay.len() - pat.len(),
            i <= last,
            index_of(hay@, pat@) == index_of_from(hay@, pat@, i as int),
        decreases last - i,
    {
        if matches_at(hay, pat, i) {
            return Some(i);
        }
        if i == last {
            assert(index_of_from(hay@, pat@, i + 1) is None);
            return None;
        }
        i += 1;
    }
}

/// Whether `pat` occurs anywhere in `hay` (`str::contains`).
pub(crate) fn contains_chars(hay: &Vec<char>, pat: &Vec<char>) -> (res: bool)
    ensures
        res == contains(hay@, pat@),
{
    find(hay, pat).is_some()
}

/// The first position in `hay` holding `a` or `b`.
pub(crate) fn find_either(hay: &Vec<char>, a: char, b: char) -> (res: Option<usize>)
    ensures
        match res {
            Some(k) => index_of_either(hay@, a, b) == Some(k as int),
            None => index_of_either(hay@, a, b) is None,
        },
{
    let mut i: usize = 0;
    while i < hay.len()
        invariant
            i <= hay.len(),
            index_of_either(hay@, a, b) == index_of_either_from(hay@, a, b, i as int),
        decreases hay.len() - i,
    {
        if hay[i] == a || hay[i] == b {
            return Some(i);
        }
        i += 1;
    }
    None
}

/// The first position of `c` in `hay`.
pub(crate) fn find_char(hay: &Vec<char>, c: char) -> (res: Option<usize>)
    ensures
        match res {
            Some(k) => index_of_char(hay@, c) == Some(k as int),
            None => index_of_char(hay@, c) is None,
        },
{
    find_either(hay, c, c)
}

/// The last position of `c` in `hay`.
pub(crate) fn rfind_char(hay: &Vec<char>, c: char) -> (res: Option<usize>)
    ensures
        match res {
            Some(k) => last_index_of_char(hay@, c) == Some(k as int),
            None => last_index_of_char(hay@, c) is None,
        },
{
    let mut n = hay.len();
    assert(hay@.take(n as int) =~= hay@);
    while n > 0
        invariant
            n <= hay.len(),
            last_index_of_char(hay@, c) == last_index_of_char(hay@.take(n as int), c),
        decreases n,
    {
        assert(hay@.take(n as int).drop_last() =~= hay@.take(n - 1));
        if hay[n - 1] == c {
            return Some(n - 1);
        }
        n -= 1;
    }
    None
}

/// Whether `c` is white space (`char::is_whitespace`).
pub(crate) fn is_white_char(c: char) -> (res: bool)
    ensures
        res == is_white(c),
{
    c == ' ' || ('\t' <= c && c <= '\r') || c == '\u{85}' || c == '\u{a0}' || c == '\u{1680}'
        || ('\u{2000}' <= c && c <= '\u{200a}') || c == '\u{2028}' || c == '\u{2029}' || c
        == '\u{202f}' || c == '\u{205f}' || c == '\u{3000}'
}

/// `v` without leading white space.
pub(crate) fn trim_start_chars(v: &Vec<char>) -> (res: Vec<char>)
    ensures
        res@ == trim_start(v@),
{
    let mut i: usize = 0;
    while i < v.len() && is_white_char(v[i])
        invariant
            i <= v.len(),
            forall|j: int| 0 <= j < i ==> is_white(v@[j]),
        decreases v.len() - i,
    {
        i += 1;
    }
    proof {
        lemma_trim_start_skip(v@, i as int);
    }
    sub_chars(v, i, v.len())
}

/// `v` without trailing white space.
pub(crate) fn trim_end_chars(v: &Vec<char>) -> (res: Vec<char>)
    ensures
        res@ == trim_end(v@),
{
    let mut n: usize = v.len();
    while n > 0 && is_white_char(v[n - 1])
        invariant
            n <= v.len(),
            forall|j: int| n <= j < v.len() ==> is_white(v@[j]),
        decreases n,
    {
        n -= 1;
    }
    proof {
        lemma_trim_end_take(v@, n as int);
        assert(v@.subrange(0, n as int) =~= v@.take(n as int));
    }
    sub_chars(v, 0, n)
}

/// `v` without white space at either end.
pub(crate) fn trim_chars(v: &Vec<char>) -> (res: Vec<char>)
    ensures
        res@ == trim(v@),
{
    let front = trim_start_chars(v);
    trim_end_chars(&front)
}

/// Appends `n` written in decimal.
pub(crate) fn push_decimal(s: &mut String, n: u128)
    ensures
        final(s)@ == old(s)@ + decimal(n as nat),
    decreases n,
{
    if n >= 10 {
        push_decimal(s, n / 10);
    }
    let d = n % 10;
    let c = if d == 0 { '0' }
        else if d == 1 { '1' }
        else if d == 2 { '2' }
        else if d == 3 { '3' }
        else if d == 4 { '4' }
        else if d == 5 { '5' }
        else if d == 6 { '6' }
        else if d == 7 { '7' }
        else if d == 8 { '8' }
        else { '9' };
    push_char(s, c);
    proof {
        if n >= 10 {
            assert(decimal(n as nat) == decimal((n / 10) as nat).push(c));
        }
    }
}

/// Whether two texts are the same, character for character.
pub(crate) fn same_text(a: &str, b: &str) -> (res: bool)
    ensures
        res == (a@ == b@),
{
    let x = chars_of(a);
    let y = chars_of(b);
    if x.len() != y.len() {
        return false;
    }
    let mut i: usize = 0;
    while i < x.len()
        invariant
            x@ == a@,
            y@ == b@,
            x.len() == y.len(),
            i <= x.len(),
            forall|j: int| 0 <= j < i ==> x@[j] == y@[j],
        decreases x.len() - i,
    {
        if x[i] != y[i] {
            return false;
        }
        i += 1;
    }
    assert(x@ =~= y@);
    true
}

/// `c` does not occur in `s`.
pub open spec fn lacks_char(s: Seq<char>, c: char) -> bool {
    forall|i: int| 0 <= i < s.len() ==> s[i] != c
}

/// Whether `c` is absent from `s`.
pub(crate) fn lacks_char_exec(s: &str, c: char) -> (res: bool)
    ensures
        res == lacks_char(s@, c),
{
    let v = chars_of(s);
    let mut i: usize = 0;
    while i < v.len()
        invariant
            v@ == s@,
            i <= v.len(),
            forall|j: int| 0 <= j < i ==> v@[j] != c,
        decreases v.len() - i,
    {
        if v[i] == c {
            return false;
        }
        i += 1;
    }
    true
}

/// The texts of a list of character vectors.
pub open spec fn char_views(v: Seq<Vec<char>>) -> Seq<Seq<char>> {
    v.map_values(|x: Vec<char>| x@)
}

/// The pieces of `v` between occurrences of `c` (`str::split`).
pub(crate) fn split_char(v: &Vec<char>, c: char) -> (res: Vec<Vec<char>>)
    ensures
        char_views(res@) == split_on(v@, c),
{
    let mut pieces: Vec<Vec<char>> = Vec::new();
    let mut cur: Vec<char> = Vec::new();
    let mut i: usize = 0;
    assert(v@.take(0) =~= Seq::<char>::empty());
    assert(char_views(pieces@).push(cur@) =~= split_on(Seq::<char>::empty(), c));
    while i < v.len()
        invariant
            i <= v.len(),
            split_on(v@.take(i as int), c) == char_views(pieces@).push(cur@),
        decreases v.len() - i,
    {
        let ghost before = v@.take(i as int);
        assert(v@.take(i + 1) =~= before.push(v@[i as int]));
        if v[i] == c {
            proof {
                lemma_split_on_push_sep(before, c);
            }
            let done = cur;
            pieces.push(done);
            cur = Vec::new();
            assert(char_views(pieces@).push(cur@) =~= split_on(before, c).push(Seq::<char>::empty()));
        } else {
            proof {
                lemma_split_on_push_other(before, c, v@[i as int]);
            }
            cur.push(v[i]);
            let ghost old_pieces = split_on(before, c);
            assert(char_views(pieces@).push(cur@) =~= old_pieces.update(
                old_pieces.len() - 1,
                old_pieces.last().push(v@[i as int]),
            ));
        }
        i += 1;
    }
    assert(v@.take(v.len() as int) =~= v@);
    pieces.push(cur);
    assert(char_views(pieces@) =~= split_on(v@, c));
    pieces
}

/// `pat` occurs in `s` at `i` and is not followed there by a decimal
/// digit: it is the whole of a number, not the start of a longer one.
pub open spec fn occurs_whole_at(s: Seq<char>, pat: Seq<char>, i: int) -> bool {
    &&& occurs_at(s, pat, i)
    &&& (i + pat.len() == s.len() || !('0' <= s[i + pat.len()] && s[i + pat.len()] <= '9'))
}

/// `pat` occurs somewhere in `s` not followed by a decimal digit.
pub open spec fn contains_whole(s: Seq<char>, pat: Seq<char>) -> bool {
    exists|i: int| occurs_whole_at(s, pat, i)
}

/// Whether `pat` occurs in `hay` not followed by a decimal digit.
pub(crate) fn contains_whole_chars(hay: &Vec<char>, pat: &Vec<char>) -> (res: bool)
    ensures
        res == contains_whole(hay@, pat@),
{
    if pat.len() > hay.len() {
        assert forall|i: int| !occurs_whole_at(hay@, pat@, i) by {}
        return false;
    }
    let last = hay.len() - pat.len();
    let mut i: usize = 0;
    loop
        invariant
            pat.len() <= hay.len(),
            last == hay.len() - pat.len(),
            i <= last,
            forall|j: int| 0 <= j < i ==> !occurs_whole_at(hay@, pat@, j),
        decreases last - i,
    {
        if matches_at(hay, pat, i) {
            let end = i + pat.len();
            if end == hay.len() || !('0' <= hay[end] && hay[end] <= '9') {
                assert(occurs_whole_at(hay@, pat@, i as int));
                return true;
            }
        }
        if i == last {
            assert forall|j: int| !occurs_whole_at(hay@, pat@, j) by {
                if 0 <= j && j <= last {
                } else {
                    assert(!occurs_at(hay@, pat@, j));
                }
            }
            return false;
        }
        i += 1;
    }
}

} // verus!
