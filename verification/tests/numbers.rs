//! The number formats, against the arithmetic of the machine.

use cloudscraper_rs::ieee::{Float, Format};

fn single(x: f32) -> Float {
    Float::from_bits(Format::Single, x.to_bits() as u64)
}

fn double(x: f64) -> Float {
    Float::from_bits(Format::Double, x.to_bits())
}

fn as_f32(x: Float) -> f32 {
    f32::from_bits(x.to_bits(Format::Single) as u32)
}

fn as_f64(x: Float) -> f64 {
    f64::from_bits(x.to_bits(Format::Double))
}

fn same_f32(x: f32, y: f32) -> bool {
    x.to_bits() == y.to_bits() || (x.is_nan() && y.is_nan())
}

fn same_f64(x: f64, y: f64) -> bool {
    x.to_bits() == y.to_bits() || (x.is_nan() && y.is_nan())
}

/// A sequence of words that look random.
fn words(n: usize) -> Vec<u64> {
    let mut state = 0x9E37_79B9_7F4A_7C15u64;
    let mut out = Vec::new();
    for _ in 0..n {
        state ^= state << 13;
        state ^= state >> 7;
        state ^= state << 17;
        out.push(state);
    }
    out
}

fn singles() -> Vec<f32> {
    let mut list = vec![
        0.0, -0.0, 1.0, -1.0, 0.5, 0.1, 0.8, 0.93, 1.5, 3.0, 16777216.0, 16777217.0,
        f32::MIN_POSITIVE, f32::MAX, f32::MIN, f32::INFINITY, f32::NEG_INFINITY, f32::NAN,
        f32::from_bits(1), f32::from_bits(0x007F_FFFF), f32::from_bits(0x8000_0001),
    ];
    for word in words(60) {
        list.push(f32::from_bits(word as u32));
        list.push((word as u32 % 2000) as f32 / 128.0);
    }
    list
}

fn doubles() -> Vec<f64> {
    let mut list = vec![
        0.0, -0.0, 1.0, -1.0, 0.5, 0.1, 0.25, 1.5, 1000.0, 9007199254740992.0,
        f64::MIN_POSITIVE, f64::MAX, f64::MIN, f64::INFINITY, f64::NEG_INFINITY, f64::NAN,
        f64::from_bits(1), f64::from_bits(0x000F_FFFF_FFFF_FFFF), 1e-310, 1e300, -1e-300,
    ];
    for word in words(60) {
        list.push(f64::from_bits(word));
        list.push((word % 100_000) as f64 / 1024.0);
    }
    list
}

#[test]
fn single_arithmetic_is_that_of_the_machine() {
    let f = Format::Single;
    for x in singles() {
        for y in singles() {
            let (a, b) = (single(x), single(y));
            assert!(same_f32(as_f32(a.add(f, b)), x + y), "{x} + {y}");
            assert!(same_f32(as_f32(a.subtract(f, b)), x - y), "{x} - {y}");
            assert!(same_f32(as_f32(a.multiply(f, b)), x * y), "{x} * {y}");
            assert!(same_f32(as_f32(a.divide(f, b)), x / y), "{x} / {y}");
            assert_eq!(a.less_than(f, b), x < y, "{x} < {y}");
        }
    }
}

#[test]
fn double_arithmetic_is_that_of_the_machine() {
    let f = Format::Double;
    for x in doubles() {
        for y in doubles() {
            let (a, b) = (double(x), double(y));
            assert!(same_f64(as_f64(a.add(f, b)), x + y), "{x} + {y}");
            assert!(same_f64(as_f64(a.subtract(f, b)), x - y), "{x} - {y}");
            assert!(same_f64(as_f64(a.multiply(f, b)), x * y), "{x} * {y}");
            assert!(same_f64(as_f64(a.divide(f, b)), x / y), "{x} / {y}");
            assert_eq!(a.less_than(f, b), x < y, "{x} < {y}");
        }
    }
}

#[test]
fn encodings_come_back() {
    for x in singles() {
        assert!(same_f32(as_f32(single(x)), x));
        assert!(same_f32(as_f32(single(x).negate()), -x));
        assert_eq!(single(x).to_whole(Format::Single), x as u64);
    }
    for x in doubles() {
        assert!(same_f64(as_f64(double(x)), x));
        assert!(same_f64(as_f64(double(x).negate()), -x));
        assert_eq!(double(x).to_whole(Format::Double), x as u64);
    }
}

#[test]
fn counts_and_words_become_numbers() {
    let mut counts = vec![0, 1, 2, 16777215, 16777216, 16777217, 16777219, (1 << 53) + 1, u64::MAX];
    counts.extend(words(100));
    for n in counts {
        assert!(same_f32(as_f32(Float::from_count(Format::Single, n)), n as f32));
        assert!(same_f64(as_f64(Float::from_count(Format::Double, n)), n as f64));
        let fraction = (n >> 11) as f64 * (1.0 / (1u64 << 53) as f64);
        assert!(same_f64(as_f64(Float::from_word(n)), fraction));
    }
}

#[test]
fn ratios_become_numbers() {
    let f = Format::Single;
    assert_eq!(as_f32(Float::from_ratio(f, 93, 100)), 0.93f32);
    assert_eq!(as_f32(Float::from_ratio(f, 99, 100)), 0.99f32);
    assert_eq!(as_f32(Float::from_ratio(f, 1, 10)), 0.1f32);
    assert_eq!(as_f32(Float::from_ratio(f, 1, 2)), 0.5f32);
    assert_eq!(as_f64(Float::from_ratio(Format::Double, 1, 4)), 0.25);
    assert_eq!(as_f64(Float::from_ratio(Format::Double, 3, 2)), 1.5);
}

#[test]
fn numbers_know_their_format() {
    for x in singles() {
        assert!(single(x).belongs(Format::Single));
    }
    for x in doubles() {
        assert!(double(x).belongs(Format::Double));
    }
    let finite = |units: u64, place: i32| Float::Finite { negative: false, units, place };
    assert!(!double(0.1).belongs(Format::Single));
    assert!(!finite(1, 0).belongs(Format::Single));
    assert!(!finite(1 << 24, 0).belongs(Format::Single));
    assert!(finite(1 << 23, 104).belongs(Format::Single));
    assert!(!finite(1 << 23, 105).belongs(Format::Single));
    assert!(finite(1, -149).belongs(Format::Single));
    assert!(!finite(1, -150).belongs(Format::Single));
    assert!(!finite(u64::MAX, 0).belongs(Format::Double));
}
