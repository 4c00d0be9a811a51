use eon_stream_engine::number::whole_part_u32;

fn read(text: &str) -> Option<u32> {
    whole_part_u32(&text.chars().collect())
}

#[test]
fn whole_numbers_read_as_themselves() {
    assert_eq!(read("0"), Some(0));
    assert_eq!(read("7"), Some(7));
    assert_eq!(read("+42"), Some(42));
    assert_eq!(read("007"), Some(7));
    assert_eq!(read("4294967295"), Some(u32::MAX));
}

#[test]
fn fractions_keep_their_whole_part() {
    assert_eq!(read("2.0"), Some(2));
    assert_eq!(read("2.99"), Some(2));
    assert_eq!(read(".5"), Some(0));
    assert_eq!(read("5."), Some(5));
}

#[test]
fn exponents_move_the_point() {
    assert_eq!(read("1e1"), Some(10));
    assert_eq!(read("25E-1"), Some(2));
    assert_eq!(read("1.5e+3"), Some(1500));
    assert_eq!(read("1e400"), Some(u32::MAX));
    assert_eq!(read("1e-400"), Some(0));
    assert_eq!(read("0e99999999999999999999999999"), Some(0));
    assert_eq!(read("3e99999999999999999999999999"), Some(u32::MAX));
    assert_eq!(read("3e-99999999999999999999999999"), Some(0));
}

#[test]
fn out_of_range_values_are_held_at_the_ends() {
    assert_eq!(read("4294967296"), Some(u32::MAX));
    assert_eq!(read("-1"), Some(0));
    assert_eq!(read("-0.5"), Some(0));
    assert_eq!(read("inf"), Some(u32::MAX));
    assert_eq!(read("Infinity"), Some(u32::MAX));
    assert_eq!(read("-inf"), Some(0));
    assert_eq!(read("NaN"), Some(0));
    assert_eq!(read("-nan"), Some(0));
}

#[test]
fn text_that_is_not_a_number_is_none() {
    for bad in ["", "-", "+", ".", "e5", "1e", "1e+", "1x", "x1", "1 ", " 1", "0x10", "in", "nana", "1..2", "1e5.0"] {
        assert_eq!(read(bad), None, "{bad:?}");
    }
}

#[test]
fn agrees_with_the_float_reading_on_ordinary_ids() {
    for text in [
        "0", "1", "2", "10", "12.5", "-3", "1e3", "65536", "4294967295", "5e9", "0.999",
        "inf", "-inf", "+inf", "Infinity", "INFINITY", "-infinity", "nan", "NaN", "-nan", "+NaN",
        "infinit", "infinityy", "nanx", "in f", "i", "+", "-", "", ".", "-.5", "+.5e1",
        "4294967295.5", "4294967295.9999999999999", "4294967296", "1e9", "4.294967295e9",
        "00000000000000000000001", "0.0000000000000000000000000000001e31", "1E+0", "1e-0",
    ] {
        let by_float = text.parse::<f64>().ok().map(|v| v as u32);
        assert_eq!(read(text), by_float, "{text}");
    }
}

#[test]
fn values_just_below_a_whole_number_round_as_floats_do() {
    // 1 - 2^-54 is exactly halfway between the largest f64 below 1 and 1
    // itself; the tie goes to 1.
    assert_eq!(read("0.999999999999999944488848768742172978818416595458984375"), Some(1));
    assert_eq!(read("0.99999999999999994448884876874217297881841659545898437"), Some(0));
    assert_eq!(read("0.99999999999999999"), Some(1));
    assert_eq!(read("0.9999999999999999"), Some(0));
    assert_eq!(read("2.9999999999999999"), Some(3));
    assert_eq!(read("4294967294.9999999"), Some(u32::MAX));
    assert_eq!(read("9999999999999999e-16"), Some(0));
    assert_eq!(read("999999999999999999e-18"), Some(1));
    assert_eq!(read("9999999999999999999e-19"), Some(1));
}

/// A small deterministic generator, so the comparison below covers the same
/// texts on every run.
struct Lcg(u64);

impl Lcg {
    fn next(&mut self) -> u64 {
        self.0 = self
            .0
            .wrapping_mul(6364136223846793005)
            .wrapping_add(1442695040888963407);
        self.0 >> 33
    }

    fn below(&mut self, n: u64) -> u64 {
        self.next() % n
    }
}

fn generated(rng: &mut Lcg) -> String {
    let mut s = String::new();
    if rng.below(6) == 0 {
        s.push(if rng.below(2) == 0 { '-' } else { '+' });
    }
    let whole_len = rng.below(12);
    for _ in 0..whole_len {
        s.push(char::from(b'0' + rng.below(10) as u8));
    }
    if rng.below(2) == 0 {
        s.push('.');
        let nines = rng.below(25);
        let kind = rng.below(3);
        for _ in 0..nines {
            s.push(if kind == 0 { '9' } else { char::from(b'0' + rng.below(10) as u8) });
        }
        for _ in 0..rng.below(6) {
            s.push(char::from(b'0' + rng.below(10) as u8));
        }
    }
    if rng.below(4) == 0 {
        s.push(if rng.below(2) == 0 { 'e' } else { 'E' });
        if rng.below(2) == 0 {
            s.push('-');
        }
        for _ in 0..rng.below(3) + 1 {
            s.push(char::from(b'0' + rng.below(10) as u8));
        }
    }
    s
}

#[test]
fn agrees_with_the_float_reading_on_many_texts() {
    let mut rng = Lcg(20240601);
    for _ in 0..20000 {
        let text = generated(&mut rng);
        let by_float = text.parse::<f64>().ok().map(|v| v as u32);
        assert_eq!(read(&text), by_float, "{text}");
    }
}

#[test]
fn agrees_with_the_float_reading_next_to_whole_numbers() {
    let mut rng = Lcg(7);
    for _ in 0..5000 {
        let whole = match rng.below(4) {
            0 => rng.below(4),
            1 => (1u64 << rng.below(33)).saturating_sub(1 + rng.below(2)),
            2 => rng.below(1 << 32),
            _ => rng.below(1000),
        };
        let nines = 10 + rng.below(14);
        let mut text = whole.to_string();
        text.push('.');
        for _ in 0..nines {
            text.push('9');
        }
        for _ in 0..rng.below(4) {
            text.push(char::from(b'0' + rng.below(10) as u8));
        }
        let by_float = text.parse::<f64>().ok().map(|v| v as u32);
        assert_eq!(read(&text), by_float, "{text}");
    }
}
