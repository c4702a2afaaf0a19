use spate_bench::double::fault_of;
use spate_bench::double::read;
use spate_bench::double::Double;

fn double(x: f64) -> Double {
    Double::of_bits(x.to_bits())
}

fn number(x: Double) -> f64 {
    f64::from_bits(x.to_bits())
}

/// Whether two numbers are the same to the bit, where what is no number has no
/// bits of its own.
fn same(a: f64, b: f64) -> bool {
    (a.is_nan() && b.is_nan()) || a.to_bits() == b.to_bits()
}

const VALUES: [f64; 24] = [
    0.0,
    -0.0,
    1.0,
    -1.0,
    0.1,
    0.2,
    -0.3,
    2.5,
    3.5,
    1e-9,
    1e22,
    1e23,
    123_456.789,
    9_007_199_254_740_991.0,
    9_007_199_254_740_993.0,
    18_446_744_073_709_551_615.0,
    1e300,
    -1e300,
    f64::MAX,
    f64::MIN_POSITIVE,
    5e-324,
    f64::INFINITY,
    f64::NEG_INFINITY,
    f64::NAN,
];

#[test]
fn the_operations_are_those_of_doubles() {
    for a in VALUES {
        for b in VALUES {
            let (x, y) = (double(a), double(b));
            assert!(same(number(x.add_to(y)), a + b), "{a} + {b}");
            assert!(same(number(x.take(y)), a - b), "{a} - {b}");
            assert!(same(number(x.multiply(y)), a * b), "{a} * {b}");
            assert!(same(number(x.divide(y)), a / b), "{a} / {b}");
            assert_eq!(x.below(y), a < b, "{a} < {b}");
            assert_eq!(x.at_most(y), a <= b, "{a} <= {b}");
            assert_eq!(x.precedes(y), a.total_cmp(&b).is_lt(), "{a} before {b}");
            if a != b {
                assert!(same(number(x.max_with(y)), a.max(b)), "{a} max {b}");
            }
        }
    }
}

#[test]
fn a_number_alone_is_taken_apart_as_a_double_is() {
    for a in VALUES {
        let x = double(a);
        assert!(same(number(x), a), "{a}");
        assert!(same(number(x.abs()), a.abs()), "{a}");
        assert_eq!(x.whole(), a as u64, "{a}");
        assert_eq!(x.ceil(), a.ceil() as u64, "{a}");
        assert_eq!(x.show(), format!("{a}"), "{a}");
        assert_eq!(x.to_fixed(0), format!("{a:.0}"), "{a}");
        assert_eq!(x.to_fixed(1), format!("{a:.1}"), "{a}");
        assert_eq!(x.to_fixed(3), format!("{a:.3}"), "{a}");
    }
}

#[test]
fn ties_round_to_even_and_what_only_looks_like_a_tie_does_not() {
    for a in [0.5, 1.5, 2.5, 0.25, 0.35, 0.45, 1.005, 2.675, 0.125, 123.456] {
        assert_eq!(double(a).to_fixed(0), format!("{a:.0}"));
        assert_eq!(double(a).to_fixed(1), format!("{a:.1}"));
        assert_eq!(double(a).to_fixed(2), format!("{a:.2}"));
    }
    assert_eq!(double(0.35).to_fixed(1), "0.3");
}

#[test]
fn integers_and_their_quotients_become_the_nearest_doubles() {
    for n in [0, 1, 3, 1_000_000, (1_u128 << 53) + 1, (1 << 64) - 1, u128::MAX] {
        assert_eq!(number(Double::of(n)), n as f64, "{n}");
    }
    assert_eq!(number(Double::quotient(67, 1000)), 0.067);
    assert_eq!(number(Double::quotient(1, 3)), 1.0 / 3.0);
    assert_eq!(number(Double::nothing()), 0.0);
}

#[test]
fn numbers_read_as_doubles_read_them() {
    for s in [
        "0", "-0", "+7", "1.5", "-0.25e1", ".5", "5.", "6e", "e6", ".", "", "-", "+", "x", "1.2.3", "0x6",
        "1e5", "1E5", "1e+5", "1e-5", "1e--5", "1e5.0", "inf", "-INF", "Infinity", "nan", "NaN", "infinit",
        "1e308", "1.7976931348623157e308", "1.7976931348623159e308", "1e309", "1e400", "1e401", "1e99999",
        "1e-323", "2e-324", "3e-324", "1e-400", "1e-99999", "0e9223372036854775807",
        "1e9223372036854775808", "1e-340282366920938463463374607431768211456",
        "0.000000000000000000000000000000001", "12345678901234567890123456789e-25",
        "00000000000000000000000000000001.0000000000000000000000000000000",
        "9007199254740993", "9007199254740992.99999999999999999999999999999999999999",
        "1234.5600000000002", "0.1", "18446744073709551616.5", " 1", "1 ", "1_0",
    ] {
        let v: Vec<char> = s.chars().collect();
        match (read(&v), s.parse::<f64>()) {
            (Some(x), Ok(y)) => assert!(same(number(x), y), "{s:?}"),
            (None, Err(e)) => assert_eq!(fault_of(&v), e.to_string(), "{s:?}"),
            (x, y) => panic!("{s:?}: {x:?} and {y:?}"),
        }
    }
}

#[test]
fn what_is_shown_reads_back() {
    for a in VALUES {
        let shown: Vec<char> = double(a).show().chars().collect();
        assert!(read(&shown).is_some_and(|x| same(number(x), a)), "{a}");
    }
}

#[test]
fn small_counts_add_up_exactly() {
    for (a, b) in [(0, 0), (1, 2), (4_503_599_627_370_496, 4_503_599_627_370_495)] {
        assert_eq!(Double::of(a).add_to(Double::of(b)), Double::of(a + b));
    }
    // Above that they are rounded.
    let (a, b) = (9_007_199_254_740_992, 1);
    assert_eq!(number(Double::of(a).add_to(Double::of(b))), 9_007_199_254_740_992.0);
}

#[test]
fn a_double_is_what_its_bits_hold() {
    for a in VALUES {
        if !a.is_nan() {
            assert_eq!(double(a).to_bits(), a.to_bits());
            assert_eq!(Double::of_bits(double(a).to_bits()), double(a));
        }
    }
}
