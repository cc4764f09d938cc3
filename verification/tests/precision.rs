use vellum::big::{Big, single_of};
use vellum::number::parse_confidence;
use vellum::single::{Balance, Single};

/// The same number, made of exact steps.
fn exact(value: f32) -> Single {
    if value.is_infinite() {
        return Single::infinite();
    }
    let bits = value.to_bits();
    let (exponent, fraction) = ((bits >> 23) & 0xff, bits & 0x7f_ffff);
    let (mantissa, mut power) = if exponent == 0 {
        (fraction, -149)
    } else {
        (fraction | 0x80_0000, exponent as i32 - 150)
    };
    let mut single = Single::whole(u64::from(mantissa));
    let two = Single::whole(2);
    while power > 0 {
        single = single.times(two);
        power -= 1;
    }
    while power < 0 {
        single = single.over(two);
        power += 1;
    }
    single
}

/// Numbers that look random.
struct Numbers(u64);

impl Numbers {
    fn next(&mut self) -> u64 {
        self.0 ^= self.0 << 13;
        self.0 ^= self.0 >> 7;
        self.0 ^= self.0 << 17;
        self.0
    }

    fn finite(&mut self) -> f32 {
        loop {
            let value = f32::from_bits(self.next() as u32 & 0x7fff_ffff);
            if value.is_finite() {
                return value;
            }
        }
    }
}

fn read(text: &str) -> Option<Single> {
    parse_confidence(&text.chars().collect::<Vec<char>>())
}

#[test]
fn confidences_are_read_in_single_precision() {
    for text in [
        "87.999999", "88", "96.063751", "0.1", "16777217", "16777219", "1e-45", "7e-46", "8e-46",
        "1.1754943e-38", "3.4028235e38", "3.4028236e38", "3.5e38", "1e38", "1e39", "0", "0.0",
        "00012.50", "1e-50", "1e-60", "123456789012345678901234567890", "5.", ".5",
        "0.000000000000000000000000000000000000000000000700649232162408535461864791644958065640",
        "8388608.5", "8388609.5", "8388609.50000000000000000000000000000000000000000000000001",
        "0000000000000000000000000000000000000000000000000000000000000000000000000000000000001",
    ] {
        assert_eq!(read(text), Some(exact(text.parse::<f32>().unwrap())), "{text}");
    }
    let mut numbers = Numbers(0x9e37_79b9_7f4a_7c15);
    for _ in 0..300 {
        let value = numbers.finite();
        for text in [
            format!("{value}"),
            format!("{value:e}"),
            format!("{}", f64::from(value) * 1.000_000_06),
            format!("{}.{:06}", numbers.next() % 100, numbers.next() % 1_000_000),
        ] {
            assert_eq!(read(&text), Some(exact(text.parse::<f32>().unwrap())), "{text}");
        }
    }
}

#[test]
fn arithmetic_rounds_to_the_nearest_number() {
    let mut numbers = Numbers(0x1234_5678_9abc_def1);
    for round in 0..600 {
        let a = numbers.finite();
        let b = if round % 2 == 0 {
            numbers.finite()
        } else {
            let near = a.to_bits() as i64 + (numbers.next() % 0x800_0000) as i64 - 0x400_0000;
            f32::from_bits(near.clamp(1, 0x7f7f_ffff) as u32)
        };
        let (x, y) = (exact(a), exact(b));
        assert_eq!(x.plus(y), exact(a + b), "{a} + {b}");
        assert_eq!(x.apart(y), exact((a - b).abs()), "{a} - {b}");
        assert_eq!(x.times(y), exact(a * b), "{a} * {b}");
        assert_eq!(x.less(y), a < b, "{a} < {b}");
        assert_eq!(x.at_least(y), exact(a.max(b)), "{a} {b}");
        if b > 0.0 {
            assert_eq!(x.over(y), exact(a / b), "{a} / {b}");
        }
        let whole = numbers.next() >> (round % 64);
        assert_eq!(Single::whole(whole), exact(whole as f32), "{whole}");
        assert_eq!(Single::half(whole), exact(whole as f32 / 2.0), "{whole}");
        let (n, d) = (numbers.next() as u32 % 1000, numbers.next() as u32 % 1000 + 1);
        assert_eq!(Single::fraction(n, d), exact(n as f32 / d as f32), "{n} / {d}");
        let c = numbers.finite();
        let left = Balance::between(x, y).less_by(exact(c));
        let right = Balance::of(exact(c));
        assert_eq!(left.more_than(right), (a - b) - c > c, "{a} {b} {c}");
    }
}

#[test]
fn small_integers_are_told_apart_and_large_ones_are_not() {
    assert!(Single::whole(16_777_214).less(Single::whole(16_777_215)));
    assert_eq!(Single::whole(16_777_217), Single::whole(16_777_216));
    assert_eq!(Single::whole(88).nearest_whole(100), Some(88));
    assert_eq!(Single::fraction(175, 2).nearest_whole(100), Some(88));
    assert_eq!(Single::whole(101).nearest_whole(100), None);
}

#[test]
fn the_literals_of_a_score_are_fractions() {
    for (n, d, value) in [
        (15, 100, 0.15f32),
        (35, 100, 0.35),
        (12, 100, 0.12),
        (20, 100, 0.2),
        (5, 2, 2.5),
        (6, 10, 0.6),
        (3, 10, 0.3),
        (45, 100, 0.45),
        (18, 10, 1.8),
        (25, 100, 0.25),
        (65, 100, 0.65),
        (155, 100, 1.55),
    ] {
        assert_eq!(Single::fraction(n, d), exact(value), "{value}");
    }
}

#[test]
fn numbers_of_any_size_are_computed_exactly() {
    let mut power = Big::zero().times_plus(1, 1);
    for _ in 0..40 {
        power = power.times_plus(10, 0);
    }
    let less = power.minus(&Big::zero().times_plus(0, 1)).expect("larger than one");
    assert!(less.less(&power) && !power.less(&less));
    assert!(less.minus(&power).is_none());
    // The quotient counts the smallest number.
    assert_eq!(single_of(&less, &power), exact(f32::from_bits(1)));
    let many = power.times_plus(16_777_217, 0);
    assert_eq!(single_of(&many, &power), exact(f32::from_bits(16_777_216)));
    assert_eq!(single_of(&power.doubled(277), &power), Single::infinite());
}
