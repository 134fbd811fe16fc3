use dicer::number::Number;

fn num(x: f64) -> Number {
    Number::from_bits(x.to_bits())
}

fn back(n: Number) -> f64 {
    f64::from_bits(n.to_bits())
}

const SAMPLES: [f64; 24] = [
    0.0,
    -0.0,
    1.0,
    -1.0,
    0.5,
    -0.5,
    1.5,
    2.0,
    3.0,
    6.0,
    0.1,
    0.2,
    1e-310,
    -1e-310,
    4503599627370496.0,
    9007199254740992.0,
    9007199254740993.0,
    1e19,
    1.8446744073709552e19,
    1e300,
    -1e300,
    f64::INFINITY,
    f64::NEG_INFINITY,
    f64::NAN,
];

fn same_bits_or_both_nan(a: f64, b: f64) -> bool {
    a.to_bits() == b.to_bits() || (a.is_nan() && b.is_nan())
}

#[test]
fn arithmetic_is_that_of_doubles() {
    for &a in SAMPLES.iter() {
        for &b in SAMPLES.iter() {
            assert!(same_bits_or_both_nan(back(num(a).plus(num(b))), a + b), "{} + {}", a, b);
            assert!(same_bits_or_both_nan(back(num(a).minus(num(b))), a - b), "{} - {}", a, b);
            assert!(same_bits_or_both_nan(back(num(a).times(num(b))), a * b), "{} * {}", a, b);
            assert!(
                same_bits_or_both_nan(back(num(a).divided_by(num(b))), a / b),
                "{} / {}",
                a,
                b
            );
        }
    }
}

#[test]
fn exact_values_of_the_four_operations() {
    assert_eq!(back(num(1.0).plus(num(2.0))), 3.0);
    assert_eq!(back(num(1.0).minus(num(2.0))), -1.0);
    assert_eq!(back(num(3.0).times(num(4.0))), 12.0);
    assert_eq!(back(num(1.0).divided_by(num(4.0))), 0.25);
    assert_eq!(back(num(0.1).plus(num(0.2))), 0.30000000000000004);
    assert_eq!(back(num(1.0).divided_by(num(0.0))), f64::INFINITY);
}

#[test]
fn comparisons_are_those_of_doubles() {
    for &a in SAMPLES.iter() {
        for &b in SAMPLES.iter() {
            assert_eq!(num(a).equals(num(b)), a == b, "{} == {}", a, b);
            assert_eq!(num(a) == num(b), a == b, "{} == {}", a, b);
            assert_eq!(num(a).less_than(num(b)), a < b, "{} < {}", a, b);
        }
        assert_eq!(num(a).is_zero(), a == 0.0);
        assert_eq!(num(a).is_nan(), a.is_nan());
        assert_eq!(num(a).is_negative(), a < 0.0);
    }
}

#[test]
fn truncation_is_that_of_a_cast() {
    for &a in SAMPLES.iter() {
        assert_eq!(num(a).truncate(), a as u64, "{}", a);
        assert_eq!(num(a).to_count(), a as usize, "{}", a);
        assert_eq!(num(a).to_code(), a as u32, "{}", a);
    }
    assert_eq!(num(2.9).to_count(), 2);
    assert_eq!(num(4294967295.5).to_code(), 4294967295);
    assert_eq!(num(4294967296.0).to_code(), u32::MAX);
    assert_eq!(num(1e30).truncate(), u64::MAX);
    assert_eq!(num(-3.0).to_count(), 0);
}

#[test]
fn the_double_of_an_integer() {
    let samples: [usize; 16] = [
        0,
        1,
        2,
        3,
        6,
        255,
        65536,
        4294967295,
        4294967296,
        9007199254740991,
        9007199254740992,
        9007199254740993,
        9007199254740995,
        18014398509481985,
        9223372036854775807,
        18446744073709551615,
    ];
    for &n in samples.iter() {
        assert_eq!(back(Number::from_count(n)), n as f64, "{}", n);
    }
    for n in 0..3000usize {
        assert_eq!(Number::from_count(n).to_count(), n);
    }
    assert_eq!(back(Number::from_bool(true)), 1.0);
    assert_eq!(back(Number::from_bool(false)), 0.0);
}

#[test]
fn the_text_of_a_number() {
    assert_eq!(num(14.0).text(), "14");
    assert_eq!(num(-5.0).text(), "-5");
    assert_eq!(num(0.5).text(), "0.5");
    assert_eq!(num(1e21).text(), "1000000000000000000000");
    assert_eq!(num(1e-7).text(), "0.0000001");
    assert_eq!(num(f64::NAN).text(), "NaN");
    assert_eq!(num(f64::INFINITY).text(), "inf");
    assert_eq!(num(-0.0).text(), "-0");
    for &a in SAMPLES.iter() {
        assert_eq!(num(a).text(), format!("{}", a));
    }
}

#[test]
fn reading_a_number() {
    let read = |s: &str| Number::parse(&s.chars().collect()).map(back);
    assert_eq!(read("12"), Some(12.0));
    assert_eq!(read("1.5"), Some(1.5));
    assert_eq!(read(".5"), Some(0.5));
    assert_eq!(read("5."), Some(5.0));
    assert_eq!(read("0.1"), Some(0.1));
    assert_eq!(read("."), None);
    assert_eq!(read(""), None);
    assert_eq!(read("1.2.3"), None);
    assert_eq!(read("12a"), None);
}

#[test]
fn powers_of_numbers() {
    assert_eq!(back(num(2.0).to_power(num(10.0))), 1024.0);
    assert_eq!(back(num(2.0).to_power(num(0.5))), 2.0f64.powf(0.5));
    assert_eq!(back(num(9.0).to_power(num(0.5))), 3.0);
    assert_eq!(back(num(2.0).to_power(num(-1.0))), 0.5);
    assert_eq!(num(-1.0).to_power(num(0.5)).to_bits(), 0x7ff8_0000_0000_0000);
    assert_eq!(num(f64::NAN).to_power(num(1.0)).to_bits(), 0x7ff8_0000_0000_0000);
    assert_eq!(back(num(f64::NAN).to_power(num(0.0))), 1.0);
}

#[test]
fn every_nan_of_a_power_is_the_quiet_one() {
    assert_eq!(Number::settle(0x7ff0_0000_0000_0001).to_bits(), 0x7ff8_0000_0000_0000);
    assert_eq!(Number::settle(0xfff8_0000_0000_1234).to_bits(), 0x7ff8_0000_0000_0000);
    assert_eq!(Number::settle(0x7ff0_0000_0000_0000).to_bits(), 0x7ff0_0000_0000_0000);
    assert_eq!(Number::settle(0xfff0_0000_0000_0000).to_bits(), 0xfff0_0000_0000_0000);
    assert_eq!(Number::settle(2.5f64.to_bits()).to_bits(), 2.5f64.to_bits());
    assert_eq!(Number::settle(0).to_bits(), 0);
}
