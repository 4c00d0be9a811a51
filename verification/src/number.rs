//! Reading a number written in Rust's floating-point syntax and keeping the
//! whole part of it as a `u32`, the way a track id is read.
//!
//! The text is read as `f64::from_str` reads it and the result is cast as
//! `as u32` casts: the value is rounded to the nearest `f64`, its whole part
//! kept, negative values and not-a-number become 0, and values past
//! `u32::MAX` become `u32::MAX`. No floating-point arithmetic is done: the
//! decimal digits are worked on directly, and the rounding is decided from
//! the digits after the point.
use vstd::prelude::*;

verus! {

/// A decimal digit.
pub open spec fn is_digit(c: char) -> bool {
    '0' <= c && c <= '9'
}

/// The value of a decimal digit.
pub open spec fn digit_value(c: char) -> int {
    c as int - '0' as int
}

/// How many decimal digits `s` starts with.
pub open spec fn digit_run(s: Seq<char>) -> nat
    decreases s.len(),
{
    if s.len() > 0 && is_digit(s[0]) {
        1 + digit_run(s.drop_first())
    } else {
        0
    }
}

/// The number a string of decimal digits spells.
pub open spec fn digits_value(s: Seq<char>) -> nat
    decreases s.len(),
{
    if s.len() == 0 {
        0
    } else {
        (digits_value(s.drop_last()) * 10 + digit_value(s.last())) as nat
    }
}

/// The number spelled by the first `k` digits of `d`, with zeros standing in
/// for digits past its end: the whole part of `0.d * 10^k`.
pub open spec fn shifted_value(d: Seq<char>, k: nat) -> nat
    decreases k,
{
    if k == 0 {
        0
    } else {
        let below = shifted_value(d, (k - 1) as nat);
        let digit = if k - 1 < d.len() {
            digit_value(d[k - 1])
        } else {
            0
        };
        (below * 10 + digit) as nat
    }
}

/// An ASCII letter in lower case; other characters unchanged.
pub open spec fn ascii_lower(c: char) -> char {
    if 'A' <= c && c <= 'Z' {
        ((c as u32) + 32) as char
    } else {
        c
    }
}

/// A text with its ASCII letters in lower case.
pub open spec fn lower(s: Seq<char>) -> Seq<char> {
    s.map_values(|c: char| ascii_lower(c))
}

/// What a text means in Rust's floating-point syntax (`f64::from_str`).
pub enum FloatText {
    /// Not a number in that syntax.
    Invalid,
    /// Not-a-number.
    NaN,
    /// An infinity.
    Infinite { negative: bool },
    /// The value `0.digits * 10^point`, negated when `negative`.
    Finite { negative: bool, digits: Seq<char>, point: int },
}

/// The exponent part after the digits: nothing, or `e`/`E` with an optional
/// sign and at least one digit, and nothing after those.
pub open spec fn exponent(tail: Seq<char>) -> Option<int> {
    if tail.len() == 0 {
        Some(0)
    } else if tail[0] == 'e' || tail[0] == 'E' {
        let r = tail.drop_first();
        let signed = r.len() > 0 && (r[0] == '-' || r[0] == '+');
        let ds = if signed {
            r.drop_first()
        } else {
            r
        };
        if digit_run(ds) == 0 || digit_run(ds) != ds.len() {
            None
        } else if r.len() > 0 && r[0] == '-' {
            Some(-digits_value(ds))
        } else {
            Some(digits_value(ds) as int)
        }
    } else {
        None
    }
}

/// How `f64::from_str` reads the unsigned part `s` of a number that is not
/// `inf`, `infinity` or `nan`: digits with an optional point (at least one
/// digit in all), then an optional exponent.
pub open spec fn number_text(s: Seq<char>, negative: bool) -> FloatText {
    let n = digit_run(s);
    let after = s.skip(n as int);
    let has_point = after.len() > 0 && after[0] == '.';
    let f = if has_point {
        digit_run(after.drop_first())
    } else {
        0
    };
    let tail = if has_point {
        after.skip((1 + f) as int)
    } else {
        after
    };
    let digits = if has_point {
        s.take(n as int) + after.subrange(1, (1 + f) as int)
    } else {
        s.take(n as int)
    };
    if n + f == 0 {
        FloatText::Invalid
    } else {
        match exponent(tail) {
            None => FloatText::Invalid,
            Some(e) => FloatText::Finite { negative, digits, point: n + e },
        }
    }
}

/// How `f64::from_str` reads `t`: an optional sign, then `inf`, `infinity`
/// or `nan` in any case, or a number as [`number_text`] reads it.
pub open spec fn float_text(t: Seq<char>) -> FloatText {
    let negative = t.len() > 0 && t[0] == '-';
    let s = if t.len() > 0 && (t[0] == '-' || t[0] == '+') {
        t.drop_first()
    } else {
        t
    };
    if s.len() == 0 {
        FloatText::Invalid
    } else if lower(s) == seq!['n', 'a', 'n'] {
        FloatText::NaN
    } else if lower(s) == seq!['i', 'n', 'f'] || lower(s) == seq![
        'i',
        'n',
        'f',
        'i',
        'n',
        'i',
        't',
        'y',
    ] {
        FloatText::Infinite { negative }
    } else {
        number_text(s, negative)
    }
}

/// Two to the power `e`.
pub open spec fn pow2(e: nat) -> nat
    decreases e,
{
    if e == 0 {
        1
    } else {
        pow2((e - 1) as nat) * 2
    }
}

/// Five to the power `e`.
pub open spec fn pow5(e: nat) -> nat
    decreases e,
{
    if e == 0 {
        1
    } else {
        pow5((e - 1) as nat) * 5
    }
}

/// The largest `e` with `2^e <= n` (0 for 0 and 1).
pub open spec fn log2_floor(n: nat) -> nat
    decreases n,
{
    if n < 2 {
        0
    } else {
        1 + log2_floor(n / 2)
    }
}

/// `n` is a power of two.
pub open spec fn is_power_of_two(n: nat) -> bool
    decreases n,
{
    if n <= 1 {
        n == 1
    } else {
        n % 2 == 0 && is_power_of_two(n / 2)
    }
}

/// For a whole number `n` below `2^53`: half the gap between `n` and the
/// next smaller `f64` is `2^-half_gap_exponent(n)`. The gap is `2^(e-52)`
/// for `2^e < n < 2^(e+1)`, and half that when `n` is `2^e` itself.
pub open spec fn half_gap_exponent(n: nat) -> nat {
    if is_power_of_two(n) {
        (54 - log2_floor(n)) as nat
    } else {
        (53 - log2_floor(n)) as nat
    }
}

/// The `i`-th digit after the point of `0.digits * 10^point` (0 past the
/// digits written).
pub open spec fn frac_digit(digits: Seq<char>, point: int, i: int) -> int {
    let j = point + i;
    if 0 <= j < digits.len() {
        digit_value(digits[j])
    } else {
        0
    }
}

/// The number spelled by the first `m` digits after the point.
pub open spec fn frac_prefix(digits: Seq<char>, point: int, m: nat) -> nat
    decreases m,
{
    if m == 0 {
        0
    } else {
        (frac_prefix(digits, point, (m - 1) as nat) * 10 + frac_digit(digits, point, m - 1)) as nat
    }
}

/// The whole part of `0.digits * 10^point`.
pub open spec fn whole_of(digits: Seq<char>, point: int) -> nat {
    if point <= 0 {
        0
    } else {
        shifted_value(digits, point as nat)
    }
}

/// Whether `0.digits * 10^point`, whose whole part is `k`, rounds to the
/// `f64` `k + 1`: its distance below `k + 1` is at most half the gap below
/// `k + 1` (a tie goes to `k + 1`, whose last mantissa bit is even). With
/// `t` the half-gap exponent, that is `0.f >= 1 - 2^-t` for the digits `f`
/// after the point, which only their first `t` digits decide:
/// `f[..t] + 5^t >= 10^t`.
pub open spec fn rounds_up(digits: Seq<char>, point: int) -> bool {
    let t = half_gap_exponent(whole_of(digits, point) + 1);
    frac_prefix(digits, point, t) + pow5(t) >= pow10(t)
}

/// The whole part of the `f64` nearest to the non-negative number
/// `0.digits * 10^point`, held at `u32::MAX`: the saturating `as u32` of
/// the value `f64::from_str` gives for it.
pub open spec fn rounded_whole(digits: Seq<char>, point: int) -> u32 {
    let k = whole_of(digits, point);
    if k >= u32::MAX {
        u32::MAX
    } else if rounds_up(digits, point) {
        (k + 1) as u32
    } else {
        k as u32
    }
}

/// The whole part of the number `t` spells, as a `u32`: what
/// `t.parse::<f64>().ok().map(|v| v as u32)` gives. Not-a-number and
/// negative values become 0, infinity and values past `u32::MAX` become
/// `u32::MAX`, and a value is rounded to the nearest `f64` before its whole
/// part is taken.
pub open spec fn float_text_as_u32(t: Seq<char>) -> Option<u32> {
    match float_text(t) {
        FloatText::Invalid => None,
        FloatText::NaN => Some(0),
        FloatText::Infinite { negative } => Some(
            if negative {
                0
            } else {
                u32::MAX
            },
        ),
        FloatText::Finite { negative, digits, point } => Some(
            if negative {
                0
            } else {
                rounded_whole(digits, point)
            },
        ),
    }
}

// ---------------------------------------------------------------------------
// Lemmas
// ---------------------------------------------------------------------------

proof fn lemma_digit_run_step(s: Seq<char>, i: int)
    requires
        0 <= i < s.len(),
        is_digit(s[i]),
    ensures
        digit_run(s.skip(i)) == 1 + digit_run(s.skip(i + 1)),
{
    assert(s.skip(i).drop_first() =~= s.skip(i + 1));
}

proof fn lemma_digit_run_bound(s: Seq<char>)
    ensures
        digit_run(s) <= s.len(),
        forall|j: int| 0 <= j < digit_run(s) ==> is_digit(s[j]),
        digit_run(s) < s.len() ==> !is_digit(s[digit_run(s) as int]),
    decreases s.len(),
{
    if s.len() > 0 && is_digit(s[0]) {
        let t = s.drop_first();
        lemma_digit_run_bound(t);
        assert forall|j: int| 0 <= j < digit_run(s) implies is_digit(s[j]) by {
            if j > 0 {
                assert(s[j] == t[j - 1]);
            }
        }
    }
}

/// Digits that are all zero spell zero, however far they are shifted.
proof fn lemma_shifted_zero(d: Seq<char>, k: nat)
    requires
        forall|j: int| 0 <= j < d.len() ==> d[j] == '0',
    ensures
        shifted_value(d, k) == 0,
    decreases k,
{
    if k > 0 {
        lemma_shifted_zero(d, (k - 1) as nat);
    }
}

/// Shifting further never makes the value smaller.
proof fn lemma_shifted_monotone(d: Seq<char>, k: nat, m: nat)
    requires
        forall|j: int| 0 <= j < d.len() ==> is_digit(d[j]),
        k <= m,
    ensures
        shifted_value(d, k) <= shifted_value(d, m),
    decreases m - k,
{
    if k < m {
        lemma_shifted_monotone(d, k, (m - 1) as nat);
    }
}

/// Once a nonzero digit at `j` is included, eleven more places take the
/// value past `u32::MAX`.
proof fn lemma_shifted_large(d: Seq<char>, j: int, m: nat)
    requires
        forall|i: int| 0 <= i < d.len() ==> is_digit(d[i]),
        0 <= j < d.len(),
        d[j] != '0',
        m >= j + 1,
    ensures
        shifted_value(d, m) >= 1,
        m >= j + 11 ==> shifted_value(d, m) > u32::MAX,
    decreases m,
{
    if m == j + 1 {
    } else {
        lemma_shifted_large(d, j, (m - 1) as nat);
        let below = shifted_value(d, (m - 1) as nat);
        if m >= j + 12 {
        } else if m == j + 11 {
            lemma_shifted_pow(d, j, 10);
            lemma_pow10_ten();
        }
    }
}

/// Ten places after a nonzero digit the value is at least `10^10`.
proof fn lemma_shifted_pow(d: Seq<char>, j: int, e: nat)
    requires
        forall|i: int| 0 <= i < d.len() ==> is_digit(d[i]),
        0 <= j < d.len(),
        d[j] != '0',
        e <= 10,
    ensures
        shifted_value(d, (j + 1 + e) as nat) >= pow10(e),
    decreases e,
{
    if e > 0 {
        lemma_shifted_pow(d, j, (e - 1) as nat);
        assert(pow10(e) == pow10((e - 1) as nat) * 10);
    }
}

/// Ten to the power `e`.
pub open spec fn pow10(e: nat) -> nat
    decreases e,
{
    if e == 0 {
        1
    } else {
        pow10((e - 1) as nat) * 10
    }
}

proof fn lemma_pow10_ten()
    ensures
        pow10(10) == 10000000000,
{
    reveal_with_fuel(pow10, 11);
}

proof fn lemma_pow10_38()
    ensures
        pow10(38) == 100000000000000000000000000000000000000,
{
    reveal_with_fuel(pow10, 39);
}

proof fn lemma_pow5_54()
    ensures
        pow5(54) == 55511151231257827021181583404541015625,
{
    reveal_with_fuel(pow5, 55);
}

proof fn lemma_pow10_positive(e: nat)
    ensures
        pow10(e) >= 1,
    decreases e,
{
    if e > 0 {
        lemma_pow10_positive((e - 1) as nat);
    }
}

proof fn lemma_pow5_positive(e: nat)
    ensures
        pow5(e) >= 1,
    decreases e,
{
    if e > 0 {
        lemma_pow5_positive((e - 1) as nat);
    }
}

proof fn lemma_pow10_monotone(i: nat, j: nat)
    requires
        i <= j,
    ensures
        pow10(i) <= pow10(j),
    decreases j - i,
{
    if i < j {
        lemma_pow10_monotone(i, (j - 1) as nat);
        lemma_pow10_positive((j - 1) as nat);
    }
}

proof fn lemma_pow5_monotone(i: nat, j: nat)
    requires
        i <= j,
    ensures
        pow5(i) <= pow5(j),
    decreases j - i,
{
    if i < j {
        lemma_pow5_monotone(i, (j - 1) as nat);
        lemma_pow5_positive((j - 1) as nat);
    }
}

/// `5^t < 10^t` once `t >= 1`.
proof fn lemma_pow5_lt_pow10(t: nat)
    requires
        t >= 1,
    ensures
        pow5(t) < pow10(t),
    decreases t,
{
    if t > 1 {
        lemma_pow5_lt_pow10((t - 1) as nat);
    } else {
        assert(pow5(1) == 5) by {
            reveal_with_fuel(pow5, 2);
        }
        assert(pow10(1) == 10) by {
            reveal_with_fuel(pow10, 2);
        }
    }
}

proof fn lemma_pow2_32()
    ensures
        pow2(32) == 4294967296,
{
    reveal_with_fuel(pow2, 33);
}

/// Below `2^(j+1)` the binary logarithm is at most `j`.
proof fn lemma_log2_bound(n: nat, j: nat)
    requires
        n < pow2(j + 1),
    ensures
        log2_floor(n) <= j,
    decreases j,
{
    if n >= 2 {
        if j == 0 {
            assert(pow2(1) == 2);
        } else {
            assert(pow2(j + 1) == pow2(j) * 2);
            lemma_log2_bound(n / 2, (j - 1) as nat);
        }
    }
}

/// Digits that are all zero have nothing after the point either.
proof fn lemma_frac_zero(d: Seq<char>, point: int, m: nat)
    requires
        forall|j: int| 0 <= j < d.len() ==> d[j] == '0',
    ensures
        frac_prefix(d, point, m) == 0,
    decreases m,
{
    if m > 0 {
        lemma_frac_zero(d, point, (m - 1) as nat);
    }
}

/// The saturating step keeps `min(value, u32::MAX)`.
proof fn lemma_saturating_step(x: nat, v: nat, digit: int)
    requires
        0 <= digit <= 9,
        v == if x >= u32::MAX { u32::MAX as nat } else { x },
    ensures
        (if v * 10 + digit >= u32::MAX { u32::MAX as nat } else { (v * 10 + digit) as nat })
            == (if x * 10 + digit >= u32::MAX { u32::MAX as nat } else { (x * 10 + digit) as nat }),
{
}

// ---------------------------------------------------------------------------
// Executable reading
// ---------------------------------------------------------------------------

/// How many digits `v` has from position `from` on.
fn count_digits(v: &Vec<char>, from: usize) -> (res: usize)
    requires
        from <= v.len(),
    ensures
        res == digit_run(v@.skip(from as int)),
        from + res <= v.len(),
{
    let mut i = from;
    while i < v.len() && '0' <= v[i] && v[i] <= '9'
        invariant
            from <= i <= v.len(),
            digit_run(v@.skip(from as int)) == (i - from) + digit_run(v@.skip(i as int)),
        decreases v.len() - i,
    {
        proof {
            lemma_digit_run_step(v@, i as int);
        }
        i += 1;
    }
    proof {
        assert(digit_run(v@.skip(i as int)) == 0);
    }
    i - from
}

/// Whether `v` from position `from` on, with ASCII letters lowered, is `word`.
fn lower_equals(v: &Vec<char>, from: usize, word: &Vec<char>) -> (res: bool)
    requires
        from <= v.len(),
    ensures
        res == (lower(v@.skip(from as int)) == word@),
{
    let ghost s = v@.skip(from as int);
    if v.len() - from != word.len() {
        assert(lower(s).len() != word@.len());
        return false;
    }
    let mut i: usize = 0;
    while i < word.len()
        invariant
            from <= v.len(),
            v.len() - from == word.len(),
            s == v@.skip(from as int),
            i <= word.len(),
            forall|j: int| 0 <= j < i ==> ascii_lower(s[j]) == word@[j],
        decreases word.len() - i,
    {
        let c = v[from + i];
        let l = if 'A' <= c && c <= 'Z' {
            char_from_upper(c)
        } else {
            c
        };
        assert(s[i as int] == c);
        if l != word[i] {
            assert(lower(s)[i as int] != word@[i as int]);
            return false;
        }
        i += 1;
    }
    assert(lower(s) =~= word@);
    true
}

/// The lower-case letter for an upper-case ASCII letter.
fn char_from_upper(c: char) -> (res: char)
    requires
        'A' <= c && c <= 'Z',
    ensures
        res == ascii_lower(c),
{
    let code = (c as u32) + 32;
    if code == 'a' as u32 { 'a' }
    else if code == 'b' as u32 { 'b' }
    else if code == 'c' as u32 { 'c' }
    else if code == 'd' as u32 { 'd' }
    else if code == 'e' as u32 { 'e' }
    else if code == 'f' as u32 { 'f' }
    else if code == 'g' as u32 { 'g' }
    else if code == 'h' as u32 { 'h' }
    else if code == 'i' as u32 { 'i' }
    else if code == 'j' as u32 { 'j' }
    else if code == 'k' as u32 { 'k' }
    else if code == 'l' as u32 { 'l' }
    else if code == 'm' as u32 { 'm' }
    else if code == 'n' as u32 { 'n' }
    else if code == 'o' as u32 { 'o' }
    else if code == 'p' as u32 { 'p' }
    else if code == 'q' as u32 { 'q' }
    else if code == 'r' as u32 { 'r' }
    else if code == 's' as u32 { 's' }
    else if code == 't' as u32 { 't' }
    else if code == 'u' as u32 { 'u' }
    else if code == 'v' as u32 { 'v' }
    else if code == 'w' as u32 { 'w' }
    else if code == 'x' as u32 { 'x' }
    else if code == 'y' as u32 { 'y' }
    else { 'z' }
}

/// The largest exponent magnitude tracked exactly; beyond it every nonzero
/// value is far past `u32::MAX` or far below 1.
const EXPONENT_CAP: u128 = 1180591620717411303424;

/// The number spelled by the digits `v[from..to]`, or `EXPONENT_CAP` when it
/// is larger.
fn capped_digits_value(v: &Vec<char>, from: usize, to: usize) -> (res: u128)
    requires
        from <= to <= v.len(),
        forall|j: int| from <= j < to ==> is_digit(v@[j]),
    ensures
        res == if digits_value(v@.subrange(from as int, to as int)) >= EXPONENT_CAP {
            EXPONENT_CAP as nat
        } else {
            digits_value(v@.subrange(from as int, to as int))
        },
{
    let mut acc: u128 = 0;
    let mut i = from;
    while i < to
        invariant
            from <= i <= to <= v.len(),
            forall|j: int| from <= j < to ==> is_digit(v@[j]),
            acc == if digits_value(v@.subrange(from as int, i as int)) >= EXPONENT_CAP {
                EXPONENT_CAP as nat
            } else {
                digits_value(v@.subrange(from as int, i as int))
            },
        decreases to - i,
    {
        let ghost prev = v@.subrange(from as int, i as int);
        let ghost next = v@.subrange(from as int, i + 1);
        assert(next.drop_last() =~= prev);
        assert(next.last() == v@[i as int]);
        let d = (v[i] as u32 - '0' as u32) as u128;
        if acc >= EXPONENT_CAP {
            acc = EXPONENT_CAP;
        } else {
            let grown = acc * 10 + d;
            acc = if grown >= EXPONENT_CAP {
                EXPONENT_CAP
            } else {
                grown
            };
        }
        i += 1;
    }
    acc
}

/// The exponent at `t[at..]`: `None` when the text there is not a valid
/// exponent part, otherwise its sign and its magnitude (held at
/// `EXPONENT_CAP`).
fn read_exponent(t: &Vec<char>, at: usize) -> (res: Option<(bool, u128)>)
    requires
        at <= t.len(),
    ensures
        match res {
            None => exponent(t@.skip(at as int)) is None,
            Some((neg, mag)) => exponent(t@.skip(at as int)) matches Some(e) && mag <= EXPONENT_CAP
                && if neg {
                e <= 0 && (mag < EXPONENT_CAP ==> e == -mag) && (mag == EXPONENT_CAP ==> e
                    <= -EXPONENT_CAP)
            } else {
                e >= 0 && (mag < EXPONENT_CAP ==> e == mag) && (mag == EXPONENT_CAP ==> e
                    >= EXPONENT_CAP)
            },
        },
{
    let ghost tail = t@.skip(at as int);
    if at == t.len() {
        assert(tail.len() == 0);
        return Some((false, 0));
    }
    if t[at] != 'e' && t[at] != 'E' {
        return None;
    }
    let r_at = at + 1;
    let ghost r = tail.drop_first();
    assert(r =~= t@.skip(r_at as int));
    let signed = r_at < t.len() && (t[r_at] == '-' || t[r_at] == '+');
    let neg = r_at < t.len() && t[r_at] == '-';
    let ds_at = if signed {
        r_at + 1
    } else {
        r_at
    };
    let ghost ds = if signed {
        r.drop_first()
    } else {
        r
    };
    assert(ds =~= t@.skip(ds_at as int));
    let m = count_digits(t, ds_at);
    if m == 0 || ds_at + m != t.len() {
        return None;
    }
    proof {
        lemma_digit_run_bound(ds);
        assert(ds =~= t@.subrange(ds_at as int, t.len() as int));
        assert forall|j: int| ds_at <= j < t.len() implies is_digit(t@[j]) by {
            assert(t@[j] == ds[j - ds_at]);
        }
    }
    let mag = capped_digits_value(t, ds_at, t.len());
    Some((neg, mag))
}

/// The characters `t[a..b]` followed by `t[c..d]`.
fn two_runs(t: &Vec<char>, a: usize, b: usize, c: usize, d: usize) -> (res: Vec<char>)
    requires
        a <= b <= t.len(),
        c <= d <= t.len(),
    ensures
        res@ == t@.subrange(a as int, b as int) + t@.subrange(c as int, d as int),
{
    let mut out = crate::text::sub_chars(t, a, b);
    let mut k = c;
    while k < d
        invariant
            c <= k <= d <= t.len(),
            a <= b <= t.len(),
            out@ == t@.subrange(a as int, b as int) + t@.subrange(c as int, k as int),
        decreases d - k,
    {
        out.push(t[k]);
        assert(t@.subrange(c as int, k + 1) =~= t@.subrange(c as int, k as int).push(t@[k as int]));
        k += 1;
    }
    out
}

/// The whole part of `0.digits * 10^point`, held at `u32::MAX`, computed
/// from `p`, which is `point` itself or, when the exponent was past the cap,
/// a lower stand-in that is already far past the last digit; a nonzero digit
/// is at `z`.
fn whole_capped(digits: &Vec<char>, p: i128, z: usize, Ghost(point): Ghost<int>) -> (res: u64)
    requires
        forall|j: int| 0 <= j < digits@.len() ==> is_digit(digits@[j]),
        p > 0,
        point == p || (point >= p && p >= digits@.len() + 11),
        z < digits@.len(),
        digits@[z as int] != '0',
    ensures
        res == if whole_of(digits@, point) >= u32::MAX {
            u32::MAX as nat
        } else {
            whole_of(digits@, point)
        },
        point != p ==> res == u32::MAX,
{
    let mut v: u64 = 0;
    let mut k: i128 = 0;
    while k < p && v < u32::MAX as u64
        invariant
            0 <= k <= p,
            forall|j: int| 0 <= j < digits@.len() ==> is_digit(digits@[j]),
            v == if shifted_value(digits@, k as nat) >= u32::MAX {
                u32::MAX as nat
            } else {
                shifted_value(digits@, k as nat)
            },
        decreases p - k,
    {
        let d: u64 = if k < digits.len() as i128 {
            (digits[k as usize] as u32 - '0' as u32) as u64
        } else {
            0
        };
        proof {
            lemma_saturating_step(shifted_value(digits@, k as nat), v as nat, d as int);
            assert(shifted_value(digits@, (k + 1) as nat) == shifted_value(digits@, k as nat) * 10
                + d);
        }
        let grown = v * 10 + d;
        v = if grown >= u32::MAX as u64 {
            u32::MAX as u64
        } else {
            grown
        };
        k += 1;
    }
    proof {
        if point != p {
            lemma_shifted_large(digits@, z as int, p as nat);
            lemma_shifted_monotone(digits@, p as nat, point as nat);
            if v < u32::MAX as u64 {
                assert(k == p);
            }
        }
        if v == u32::MAX as u64 {
            lemma_shifted_monotone(digits@, k as nat, point as nat);
        }
    }
    v
}

/// Ten to the power `e`, for `e` up to 38.
fn pow10_u128(e: usize) -> (res: u128)
    requires
        e <= 38,
    ensures
        res == pow10(e as nat),
        res >= 1,
{
    proof {
        lemma_pow10_positive(e as nat);
        lemma_pow10_monotone(e as nat, 38);
        lemma_pow10_38();
    }
    let mut r: u128 = 1;
    let mut i: usize = 0;
    while i < e
        invariant
            i <= e <= 38,
            r == pow10(i as nat),
            pow10(e as nat) <= pow10(38),
            pow10(38) == 100000000000000000000000000000000000000,
        decreases e - i,
    {
        proof {
            lemma_pow10_monotone((i + 1) as nat, e as nat);
        }
        r = r * 10;
        i += 1;
    }
    r
}

/// `5^t - 1`, for `t` up to 54.
fn pow5_less_one(t: usize) -> (res: u128)
    requires
        1 <= t <= 54,
    ensures
        res + 1 == pow5(t as nat),
        res < pow10(38),
{
    proof {
        lemma_pow5_54();
        lemma_pow5_monotone(t as nat, 54);
        lemma_pow10_38();
    }
    let mut r: u128 = 1;
    let mut i: usize = 0;
    while i < t
        invariant
            i <= t <= 54,
            r == pow5(i as nat),
            pow5(t as nat) <= pow5(54),
            pow5(54) == 55511151231257827021181583404541015625,
        decreases t - i,
    {
        proof {
            lemma_pow5_monotone((i + 1) as nat, t as nat);
        }
        r = r * 5;
        i += 1;
    }
    proof {
        lemma_pow5_positive(t as nat);
    }
    r - 1
}

/// The half-gap exponent of `n` (see [`half_gap_exponent`]).
fn half_gap(n: u64) -> (res: usize)
    requires
        1 <= n < 4294967296,
    ensures
        res == half_gap_exponent(n as nat),
        22 <= res <= 54,
{
    proof {
        lemma_pow2_32();
        lemma_log2_bound(n as nat, 31);
    }
    let mut m: u64 = n;
    let mut e: usize = 0;
    let mut power = true;
    while m >= 2
        invariant
            1 <= m <= n,
            e <= 32,
            log2_floor(n as nat) <= 31,
            log2_floor(n as nat) == e + log2_floor(m as nat),
            is_power_of_two(n as nat) == (power && is_power_of_two(m as nat)),
        decreases m,
    {
        if m % 2 != 0 {
            power = false;
        }
        m = m / 2;
        e += 1;
    }
    if power {
        54 - e
    } else {
        53 - e
    }
}

/// Whether `0.digits * 10^point`, whose whole part is `k`, rounds up to
/// `k + 1` (see [`rounds_up`]); `p` stands for `point` in digit positions.
fn rounds_up_exec(digits: &Vec<char>, p: i128, k: u64, Ghost(point): Ghost<int>) -> (res: bool)
    requires
        forall|j: int| 0 <= j < digits@.len() ==> is_digit(digits@[j]),
        k < u32::MAX,
        k == whole_of(digits@, point),
        point == p || (p + 64 < 0 && point <= p),
        -0x1_0000_0000_0000_0000_0000_0000 < p < 0x1_0000_0000_0000_0000_0000_0000,
    ensures
        res == rounds_up(digits@, point),
{
    let t = half_gap(k + 1);
    let five = pow5_less_one(t);
    proof {
        lemma_pow5_lt_pow10(t as nat);
        lemma_pow10_positive(t as nat);
        vstd::arithmetic::div_mod::lemma_basic_div(five as int, pow10(t as nat) as int);
    }
    // The sign of `f[..m] + five / 10^(t-m) + 1 - 10^m`, which only its
    // first nonzero step decides.
    let mut state: i8 = 0;
    let mut m: usize = 0;
    while m < t
        invariant
            m <= t <= 54,
            -0x1_0000_0000_0000_0000_0000_0000 < p < 0x1_0000_0000_0000_0000_0000_0000,
            t == half_gap_exponent(k as nat + 1),
            k == whole_of(digits@, point),
            five + 1 == pow5(t as nat),
            five < pow10(38),
            point == p || (p + 64 < 0 && point <= p),
            forall|j: int| 0 <= j < digits@.len() ==> is_digit(digits@[j]),
            ({
                let d = frac_prefix(digits@, point, m as nat) + five as int / pow10(
                    (t - m) as nat,
                ) as int + 1 - pow10(m as nat);
                state == if d > 0 {
                    1
                } else if d < 0 {
                    -1
                } else {
                    0
                }
            }),
        decreases t - m,
    {
        let idx: i128 = p + m as i128;
        let a: u128 = if 0 <= idx && idx < digits.len() as i128 {
            (digits[idx as usize] as u32 - '0' as u32) as u128
        } else {
            0
        };
        let ex: usize = t - 1 - m;
        let y: u128 = if ex >= 39 {
            0
        } else {
            five / pow10_u128(ex)
        };
        let b = y % 10;
        proof {
            assert(a == frac_digit(digits@, point, m as int));
            lemma_pow10_positive(ex as nat);
            if ex >= 39 {
                lemma_pow10_monotone(38, ex as nat);
                vstd::arithmetic::div_mod::lemma_basic_div(five as int, pow10(ex as nat) as int);
            }
            assert(y == five as int / pow10(ex as nat) as int);
            assert(pow10((t - m) as nat) == pow10(ex as nat) * 10);
            vstd::arithmetic::div_mod::lemma_div_denominator(
                five as int,
                pow10(ex as nat) as int,
                10,
            );
            assert(frac_prefix(digits@, point, (m + 1) as nat) == frac_prefix(digits@, point, m as nat)
                * 10 + a);
            assert(pow10((m + 1) as nat) == pow10(m as nat) * 10);
        }
        if state == 0 {
            let total = a + b;
            state = if total > 9 {
                1
            } else if total < 9 {
                -1
            } else {
                0
            };
        }
        m += 1;
    }
    proof {
        assert(pow10(0) == 1);
        assert(five as int / 1 == five);
    }
    state >= 0
}

/// The whole part of the `f64` nearest `0.digits * 10^point`, held at
/// `u32::MAX` (see [`rounded_whole`]); `p` stands for `point` as in
/// `whole_capped`, or, for an exponent far below the cap, is a stand-in
/// already far before the first digit.
fn rounded_value(digits: &Vec<char>, p: i128, Ghost(point): Ghost<int>) -> (res: u32)
    requires
        forall|j: int| 0 <= j < digits@.len() ==> is_digit(digits@[j]),
        point == p || (point >= p && p >= digits@.len() + 11) || (point <= p && p + 64 < 0),
        -0x1_0000_0000_0000_0000_0000_0000 < p < 0x1_0000_0000_0000_0000_0000_0000,
    ensures
        res == rounded_whole(digits@, point),
{
    let mut z: usize = 0;
    while z < digits.len() && digits[z] == '0'
        invariant
            z <= digits.len(),
            forall|j: int| 0 <= j < z ==> digits@[j] == '0',
        decreases digits.len() - z,
    {
        z += 1;
    }
    if z == digits.len() {
        proof {
            lemma_shifted_zero(digits@, point as nat);
            let t = half_gap_exponent(1);
            lemma_frac_zero(digits@, point, t);
            assert(is_power_of_two(1));
            assert(t == 54);
            lemma_pow5_lt_pow10(t);
        }
        return 0;
    }
    let k: u64 = if p <= 0 {
        0
    } else {
        whole_capped(digits, p, z, Ghost(point))
    };
    if k >= u32::MAX as u64 {
        return u32::MAX;
    }
    let up = rounds_up_exec(digits, p, k, Ghost(point));
    if up {
        (k + 1) as u32
    } else {
        k as u32
    }
}

/// The whole part of the number the characters `t` spell in Rust's
/// floating-point syntax, as a `u32` (see [`float_text_as_u32`]).
pub fn whole_part_u32(t: &Vec<char>) -> (res: Option<u32>)
    ensures
        res == float_text_as_u32(t@),
{
    let negative = t.len() > 0 && t[0] == '-';
    let start: usize = if t.len() > 0 && (t[0] == '-' || t[0] == '+') {
        1
    } else {
        0
    };
    let ghost s = t@.skip(start as int);
    proof {
        if start == 1 {
            assert(s =~= t@.drop_first());
        } else {
            assert(s =~= t@);
        }
    }
    if start == t.len() {
        return None;
    }
    let nan_word: Vec<char> = vec!['n', 'a', 'n'];
    let inf_word: Vec<char> = vec!['i', 'n', 'f'];
    let infinity_word: Vec<char> = vec!['i', 'n', 'f', 'i', 'n', 'i', 't', 'y'];
    assert(nan_word@ =~= seq!['n', 'a', 'n']);
    assert(inf_word@ =~= seq!['i', 'n', 'f']);
    assert(infinity_word@ =~= seq!['i', 'n', 'f', 'i', 'n', 'i', 't', 'y']);
    if lower_equals(t, start, &nan_word) {
        return Some(0);
    }
    if lower_equals(t, start, &inf_word) || lower_equals(t, start, &infinity_word) {
        return Some(
            if negative {
                0
            } else {
                u32::MAX
            },
        );
    }
    assert(float_text(t@) == number_text(s, negative));
    number_value(t, start, negative)
}

/// The value of the number at `t[start..]`, read as [`number_text`] does.
#[verifier::rlimit(30)]
fn number_value(t: &Vec<char>, start: usize, negative: bool) -> (res: Option<u32>)
    requires
        start <= t.len(),
    ensures
        res == match number_text(t@.skip(start as int), negative) {
            FloatText::Finite { negative, digits, point } => Some(
                if negative {
                    0
                } else {
                    rounded_whole(digits, point)
                },
            ),
            _ => None,
        },
{
    let ghost s = t@.skip(start as int);
    let n = count_digits(t, start);
    let after_at = start + n;
    let ghost after = s.skip(n as int);
    assert(after =~= t@.skip(after_at as int));
    let has_point = after_at < t.len() && t[after_at] == '.';
    let f: usize = if has_point {
        assert(after.drop_first() =~= t@.skip(after_at + 1));
        count_digits(t, after_at + 1)
    } else {
        0
    };
    let tail_at = if has_point {
        after_at + 1 + f
    } else {
        after_at
    };
    let ghost tail = if has_point {
        after.skip((1 + f) as int)
    } else {
        after
    };
    assert(tail =~= t@.skip(tail_at as int));
    if n == 0 && f == 0 {
        return None;
    }
    let (exp_negative, exp_magnitude) = match read_exponent(t, tail_at) {
        Some(e) => e,
        None => return None,
    };
    let ghost e = exponent(tail)->0;
    let digits = if has_point {
        two_runs(t, start, after_at, after_at + 1, after_at + 1 + f)
    } else {
        two_runs(t, start, after_at, 0, 0)
    };
    proof {
        lemma_digit_run_bound(s);
        if has_point {
            lemma_digit_run_bound(after.drop_first());
            assert(digits@ =~= s.take(n as int) + after.subrange(1, (1 + f) as int));
        } else {
            assert(digits@ =~= s.take(n as int));
        }
        assert forall|j: int| 0 <= j < digits@.len() implies is_digit(digits@[j]) by {
            if j < n {
                assert(digits@[j] == s[j]);
            } else {
                assert(digits@[j] == after.drop_first()[j - n]);
            }
        }
    }
    if negative {
        return Some(0);
    }
    let p: i128 = if exp_negative {
        n as i128 - exp_magnitude as i128
    } else {
        n as i128 + exp_magnitude as i128
    };
    Some(rounded_value(&digits, p, Ghost(n + e)))
}

} // verus!
