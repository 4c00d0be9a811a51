//! Just enough JSON writing for the commands sent to mpv: string literals,
//! and a decoder for them against which the writer is proved.
use vstd::prelude::*;

use crate::text::push_char;

verus! {

/// The lower-case hexadecimal digit for `d` (0 to 15).
pub open spec fn hex_digit(d: int) -> char {
    if d < 10 {
        crate::text::digit_char(d)
    } else if d == 10 { 'a' }
    else if d == 11 { 'b' }
    else if d == 12 { 'c' }
    else if d == 13 { 'd' }
    else if d == 14 { 'e' }
    else { 'f' }
}

/// How one character is written inside a JSON string literal: quote,
/// backslash and the three common control characters get their short
/// escapes, the other control characters a `\u00XX` escape, and everything
/// else stands for itself.
pub open spec fn escape_char(c: char) -> Seq<char> {
    if c == '"' {
        seq!['\\', '"']
    } else if c == '\\' {
        seq!['\\', '\\']
    } else if c == '\n' {
        seq!['\\', 'n']
    } else if c == '\r' {
        seq!['\\', 'r']
    } else if c == '\t' {
        seq!['\\', 't']
    } else if (c as u32) < 0x20 {
        seq!['\\', 'u', '0', '0', hex_digit((c as u32 / 16) as int), hex_digit((c as u32 % 16) as int)]
    } else {
        seq![c]
    }
}

/// The escaped body of a JSON string literal for `s`.
pub open spec fn escape(s: Seq<char>) -> Seq<char>
    decreases s.len(),
{
    if s.len() == 0 {
        Seq::<char>::empty()
    } else {
        escape(s.drop_last()) + escape_char(s.last())
    }
}

/// The JSON string literal for `s`: the escaped text between quotes.
pub open spec fn string_literal(s: Seq<char>) -> Seq<char> {
    seq!['"'] + escape(s) + seq!['"']
}

/// The value of a hexadecimal digit.
pub open spec fn hex_value(c: char) -> Option<int> {
    if '0' <= c && c <= '9' {
        Some(c as int - '0' as int)
    } else if 'a' <= c && c <= 'f' {
        Some(c as int - 'a' as int + 10)
    } else if 'A' <= c && c <= 'F' {
        Some(c as int - 'A' as int + 10)
    } else {
        None
    }
}

/// The number written by the four hexadecimal digits at `t[i..i + 4]`.
pub open spec fn hex4_value(t: Seq<char>, i: int) -> Option<int> {
    if i < 0 || i + 4 > t.len() {
        None
    } else {
        match (hex_value(t[i]), hex_value(t[i + 1]), hex_value(t[i + 2]), hex_value(t[i + 3])) {
            (Some(a), Some(b), Some(c), Some(d)) => Some(((a * 16 + b) * 16 + c) * 16 + d),
            _ => None,
        }
    }
}

/// Whether `n` is a Unicode scalar value, the numbers a `char` can hold.
pub open spec fn is_scalar(n: int) -> bool {
    (0 <= n < 0xD800) || (0xE000 <= n <= 0x10FFFF)
}

/// Prepends a character to a decoded result.
pub open spec fn prepend(c: char, rest: Option<Seq<char>>) -> Option<Seq<char>> {
    match rest {
        Some(r) => Some(seq![c] + r),
        None => None,
    }
}

/// Decodes the body of a JSON string literal (RFC 8259, section 7): the text
/// between the quotes. `None` when the body is not well formed: a raw quote
/// or control character, an unknown escape, or a lone surrogate.
pub open spec fn unescape(t: Seq<char>) -> Option<Seq<char>>
    decreases t.len(),
{
    if t.len() == 0 {
        Some(Seq::<char>::empty())
    } else if t[0] == '"' || (t[0] as u32) < 0x20 {
        None
    } else if t[0] != '\\' {
        prepend(t[0], unescape(t.drop_first()))
    } else if t.len() < 2 {
        None
    } else if t[1] == '"' {
        prepend('"', unescape(t.skip(2)))
    } else if t[1] == '\\' {
        prepend('\\', unescape(t.skip(2)))
    } else if t[1] == '/' {
        prepend('/', unescape(t.skip(2)))
    } else if t[1] == 'b' {
        prepend('\u{8}', unescape(t.skip(2)))
    } else if t[1] == 'f' {
        prepend('\u{c}', unescape(t.skip(2)))
    } else if t[1] == 'n' {
        prepend('\n', unescape(t.skip(2)))
    } else if t[1] == 'r' {
        prepend('\r', unescape(t.skip(2)))
    } else if t[1] == 't' {
        prepend('\t', unescape(t.skip(2)))
    } else if t[1] == 'u' {
        match hex4_value(t, 2) {
            None => None,
            Some(n) => if is_scalar(n) {
                prepend(n as char, unescape(t.skip(6)))
            } else if 0xD800 <= n < 0xDC00 && t.len() >= 12 && t[6] == '\\' && t[7] == 'u' {
                match hex4_value(t, 8) {
                    Some(m) => if 0xDC00 <= m < 0xE000 {
                        prepend(
                            (0x10000 + (n - 0xD800) * 0x400 + (m - 0xDC00)) as char,
                            unescape(t.skip(12)),
                        )
                    } else {
                        None
                    },
                    None => None,
                }
            } else {
                None
            },
        }
    } else {
        None
    }
}

/// The string a JSON string literal stands for, when `lit` is one.
pub open spec fn string_value(lit: Seq<char>) -> Option<Seq<char>> {
    if lit.len() >= 2 && lit[0] == '"' && lit.last() == '"' {
        unescape(lit.subrange(1, lit.len() - 1))
    } else {
        None
    }
}

/// Escaping works character by character, so it distributes over
/// concatenation.
pub proof fn lemma_escape_append(a: Seq<char>, b: Seq<char>)
    ensures
        escape(a + b) == escape(a) + escape(b),
    decreases b.len(),
{
    if b.len() == 0 {
        assert(a + b =~= a);
        assert(escape(a) + escape(b) =~= escape(a));
    } else {
        lemma_escape_append(a, b.drop_last());
        assert((a + b).drop_last() =~= a + b.drop_last());
        assert(escape(a) + escape(b) =~= escape(a) + escape(b.drop_last()) + escape_char(b.last()));
    }
}

/// Decoding one escaped character followed by more text gives that character
/// followed by the decoding of the rest.
proof fn lemma_unescape_char(c: char, rest: Seq<char>)
    ensures
        unescape(escape_char(c) + rest) == prepend(c, unescape(rest)),
{
    let t = escape_char(c) + rest;
    if c == '"' || c == '\\' || c == '\n' || c == '\r' || c == '\t' {
        assert(t.skip(2) =~= rest);
    } else if (c as u32) < 0x20 {
        let code = c as u32;
        let hi = code / 16;
        let lo = code % 16;
        assert(t.skip(6) =~= rest);
        assert(t[2] == '0' && t[3] == '0');
        assert(t[4] == hex_digit(hi as int) && t[5] == hex_digit(lo as int));
        assert(hi < 2);
        assert(hex_value(t[4]) == Some(hi as int));
        assert(hex_value(t[5]) == Some(lo as int));
        assert(hex4_value(t, 2) == Some(code as int));
        assert((code as int) as char == c);
    } else {
        assert(t.drop_first() =~= rest);
    }
}

/// Decoding the escaped form of `s` gives `s` back.
pub proof fn lemma_unescape_escape(s: Seq<char>)
    ensures
        unescape(escape(s)) == Some(s),
    decreases s.len(),
{
    if s.len() == 0 {
    } else {
        let rest = s.drop_first();
        lemma_escape_append(seq![s[0]], rest);
        assert(seq![s[0]] + rest =~= s);
        assert(seq![s[0]].drop_last() =~= Seq::<char>::empty());
        assert(escape(seq![s[0]].drop_last()) == Seq::<char>::empty());
        assert(Seq::<char>::empty() + escape_char(s[0]) =~= escape_char(s[0]));
        assert(escape(seq![s[0]]) =~= escape_char(s[0]));
        lemma_unescape_char(s[0], escape(rest));
        lemma_unescape_escape(rest);
        assert(seq![s[0]] + rest =~= s);
    }
}

/// The literal written for any string reads back, under JSON's rules, as
/// exactly that string.
pub proof fn lemma_string_literal_round_trip(s: Seq<char>)
    ensures
        string_value(string_literal(s)) == Some(s),
{
    let lit = string_literal(s);
    assert(lit.subrange(1, lit.len() - 1) =~= escape(s));
    lemma_unescape_escape(s);
}

/// Appends the JSON string literal for `value`, escaped.
pub fn write_string(out: &mut String, value: &str)
    ensures
        final(out)@ == old(out)@ + string_literal(value@),
{
    let ghost start = out@;
    let chars = crate::text::chars_of(value);
    push_char(out, '"');
    let mut i: usize = 0;
    while i < chars.len()
        invariant
            i <= chars.len(),
            chars@ == value@,
            out@ == start.push('"') + escape(chars@.take(i as int)),
        decreases chars.len() - i,
    {
        let ch = chars[i];
        let ghost before = out@;
        if ch == '"' {
            push_char(out, '\\');
            push_char(out, '"');
        } else if ch == '\\' {
            push_char(out, '\\');
            push_char(out, '\\');
        } else if ch == '\n' {
            push_char(out, '\\');
            push_char(out, 'n');
        } else if ch == '\r' {
            push_char(out, '\\');
            push_char(out, 'r');
        } else if ch == '\t' {
            push_char(out, '\\');
            push_char(out, 't');
        } else if (ch as u32) < 0x20 {
            let code = ch as u32;
            push_char(out, '\\');
            push_char(out, 'u');
            push_char(out, '0');
            push_char(out, '0');
            push_char(out, if code / 16 == 0 { '0' } else { '1' });
            let lo = code % 16;
            let d = if lo == 0 { '0' }
                else if lo == 1 { '1' }
                else if lo == 2 { '2' }
                else if lo == 3 { '3' }
                else if lo == 4 { '4' }
                else if lo == 5 { '5' }
                else if lo == 6 { '6' }
                else if lo == 7 { '7' }
                else if lo == 8 { '8' }
                else if lo == 9 { '9' }
                else if lo == 10 { 'a' }
                else if lo == 11 { 'b' }
                else if lo == 12 { 'c' }
                else if lo == 13 { 'd' }
                else if lo == 14 { 'e' }
                else { 'f' };
            push_char(out, d);
        } else {
            push_char(out, ch);
        }
        proof {
            assert(out@ =~= before + escape_char(ch));
            assert(chars@.take(i + 1).drop_last() =~= chars@.take(i as int));
        }
        i += 1;
    }
    push_char(out, '"');
    proof {
        assert(chars@.take(chars.len() as int) =~= chars@);
        assert(out@ =~= start + string_literal(value@));
    }
}

} // verus!
