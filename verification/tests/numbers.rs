//! Exact numbers against the arithmetic of doubles.

use xl_fn::{func_hour, Number};

fn number(x: f64) -> Number {
    Number::from_bits(x.to_bits()).unwrap()
}

fn double(n: Number) -> f64 {
    f64::from_bits(n.to_bits())
}

/// A sequence of bit patterns that looks random.
struct Patterns(u64);

impl Patterns {
    fn next(&mut self) -> u64 {
        self.0 ^= self.0 << 13;
        self.0 ^= self.0 >> 7;
        self.0 ^= self.0 << 17;
        self.0
    }

    /// A finite double of any size.
    fn any(&mut self) -> f64 {
        loop {
            let x = f64::from_bits(self.next());
            if x.is_finite() {
                return x;
            }
        }
    }

    /// A double whose whole part has up to 70 bits.
    fn medium(&mut self) -> f64 {
        let bits = self.next();
        let exponent = 1023 - 10 + self.next() % 80;
        f64::from_bits((bits & 0x800f_ffff_ffff_ffff) | (exponent << 52))
    }
}

fn samples() -> Vec<f64> {
    let mut patterns = Patterns(0x9e37_79b9_7f4a_7c15);
    let mut xs = vec![
        0.0,
        -0.0,
        1.0,
        -1.0,
        0.5,
        -0.5,
        1.5,
        f64::MIN_POSITIVE,
        -f64::MIN_POSITIVE,
        f64::from_bits(1),
        f64::MAX,
        f64::MIN,
        9_007_199_254_740_991.0,
        9_007_199_254_740_992.0,
        4_503_599_627_370_495.5,
        -4_503_599_627_370_495.5,
        9.223_372_036_854_776e18,
        -9.223_372_036_854_776e18,
        1.844_674_407_370_955_2e19,
        3.402_823_669_209_384_6e38,
    ];
    for _ in 0..2000 {
        xs.push(patterns.any());
        xs.push(patterns.medium());
    }
    xs
}

#[test]
fn only_finite_patterns_are_numbers() {
    for x in [f64::INFINITY, f64::NEG_INFINITY, f64::NAN] {
        assert!(Number::from_bits(x.to_bits()).is_none());
    }
    for x in samples() {
        assert_eq!(number(x).to_bits(), x.to_bits());
    }
}

#[test]
fn order_is_that_of_doubles() {
    let xs = samples();
    for (i, x) in xs.iter().enumerate() {
        for y in [xs[(i * 7 + 3) % xs.len()], xs[(i + 1) % xs.len()], *x, -*x] {
            assert_eq!(number(*x).lt(number(y)), *x < y, "{x} < {y}");
            assert_eq!(number(*x) == number(y), *x == y, "{x} == {y}");
            let total = number(*x).total_key().cmp(&number(y).total_key());
            assert_eq!(total, x.total_cmp(&y), "{x} against {y}");
        }
        assert_eq!(number(*x).is_zero(), *x == 0.0);
        assert_eq!(number(*x).is_negative(), *x < 0.0);
        assert_eq!(number(*x).is_positive(), *x > 0.0);
    }
}

#[test]
fn whole_parts_are_those_of_doubles() {
    for x in samples() {
        assert_eq!(number(x).floor().to_bits(), x.floor().to_bits(), "floor of {x}");
        assert_eq!(number(x).is_whole(), x.fract() == 0.0, "{x} is whole");
        assert_eq!(number(x).floored(), x.floor() as i64, "floor of {x} as an integer");
        assert_eq!(number(x).whole_part().unwrap_or(u128::MAX), x.abs().trunc() as u128, "whole part of {x}");
    }
}

#[test]
fn positions_are_whole_parts_within_a_limit() {
    assert_eq!(number(3.9).position(3), Some(3));
    assert_eq!(number(4.0).position(3), None);
    assert_eq!(number(0.9).position(3), None);
    assert_eq!(number(-1.0).position(3), None);
    assert_eq!(number(1e300).position(usize::MAX), None);
}

#[test]
fn counts_become_the_nearest_doubles() {
    let mut patterns = Patterns(0x2545_f491_4f6c_dd1d);
    for shift in 0..128 {
        for _ in 0..40 {
            let wide = ((patterns.next() as u128) << 64) | patterns.next() as u128;
            let count = wide >> shift;
            assert_eq!(double(Number::from_count(count)), count as f64, "{count}");
        }
        let power = 1u128 << shift;
        for count in [power - 1, power, power + 1, power | (power >> 53), power | (power >> 53) | 1] {
            assert_eq!(double(Number::from_count(count)), count as f64, "{count}");
        }
    }
    assert_eq!(double(Number::from_count(u128::MAX)), u128::MAX as f64);
    assert_eq!(Number::from_count(0).to_bits(), 0);
    assert_eq!(double(Number::one()), 1.0);
    assert_eq!(double(Number::minus_one()), -1.0);
}

#[test]
fn seconds_of_the_day_are_those_of_doubles() {
    let expected = |x: f64| (x.fract() * 86_400.0).round() as u128;
    for x in samples().into_iter().filter(|x| *x >= 0.0) {
        assert_eq!(func_hour::seconds_of_day(number(x)), expected(x), "{x}");
    }
    for half in (0..86_400).step_by(97) {
        let x = (half as f64 + 0.5) / 86_400.0;
        for bits in x.to_bits() - 3..=x.to_bits() + 3 {
            let near = f64::from_bits(bits);
            assert_eq!(func_hour::seconds_of_day(number(near)), expected(near), "{near}");
            assert_eq!(func_hour::seconds_of_day(number(near + 44_000.0)), expected(near + 44_000.0), "{near}");
        }
    }
}
