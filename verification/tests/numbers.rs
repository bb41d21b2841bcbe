use kitt_memory::clock::{epoch_seconds, now_epoch};
use kitt_memory::ranking::{
    seconds_since, PARAPHRASE_BLENDED, PARAPHRASE_LEXICAL, REVIEW_BLENDED, REVIEW_LEXICAL,
};
use kitt_memory::single::ONE_BITS;
use kitt_memory::{baseline, keyword, ranking, recall, Single};

fn single(x: f32) -> Single {
    Single { bits: x.to_bits() }
}

fn samples() -> Vec<f32> {
    vec![
        0.0,
        -0.0,
        1.0,
        -1.0,
        0.5,
        1.5,
        f32::MIN_POSITIVE,
        1e-42,
        -1e-42,
        f32::MAX,
        f32::MIN,
        f32::INFINITY,
        f32::NEG_INFINITY,
        f32::NAN,
        -f32::NAN,
        f32::EPSILON,
        1.0 + f32::EPSILON,
        1.0 - f32::EPSILON,
    ]
}

#[test]
fn named_patterns_are_the_numbers() {
    assert_eq!(ONE_BITS, 1.0f32.to_bits());
    assert_eq!(PARAPHRASE_LEXICAL, 0.90f32.to_bits());
    assert_eq!(PARAPHRASE_BLENDED, 0.94f32.to_bits());
    assert_eq!(REVIEW_BLENDED, 0.70f32.to_bits());
    assert_eq!(REVIEW_LEXICAL, 0.65f32.to_bits());
}

#[test]
fn patterns_compare_like_numbers() {
    for x in samples() {
        assert_eq!(single(x).is_nan(), x.is_nan());
        assert_eq!(single(x).is_finite(), x.is_finite());
        assert_eq!(single(x).in_unit_range(), (0.0..=1.0).contains(&x));
        for y in samples() {
            assert_eq!(single(x).at_least(single(y)), x >= y);
            assert_eq!(single(x).total_key() < single(y).total_key(), x.total_cmp(&y).is_lt());
            if !x.is_nan() && !y.is_nan() {
                assert_eq!(single(x).order_key() < single(y).order_key(), x < y);
            }
        }
    }
}

#[test]
fn larger_and_clamped_like_numbers() {
    for x in samples() {
        if !x.is_nan() {
            assert_eq!(f32::from_bits(single(x).clamp_unit().bits), x.clamp(0.0, 1.0));
            assert!(single(x).clamp_unit().in_unit_range());
        }
        assert_eq!(single(x).clamp_unit().clamp_unit(), single(x).clamp_unit());
        for y in samples() {
            let larger = f32::from_bits(single(x).max(single(y)).bits);
            let expected = x.max(y);
            assert!(larger == expected || (larger.is_nan() && expected.is_nan()));
        }
    }
}

#[test]
fn larger_of_two_weights_stays_a_weight() {
    let larger = single(0.25).max(single(0.75));
    assert_eq!(larger, single(0.75));
    assert!(larger.in_unit_range());
    assert!(larger.at_least(single(0.25)));
}

#[test]
fn clock_readings_become_seconds() {
    assert_eq!(epoch_seconds(Some(17)), 17);
    assert_eq!(epoch_seconds(None), 0);
    assert_eq!(epoch_seconds(Some(u64::MAX)), -1);
    assert!(now_epoch() > 1_600_000_000);
}

#[test]
fn elapsed_time_is_never_negative() {
    assert_eq!(seconds_since(10, 25), 15);
    assert_eq!(seconds_since(25, 10), 0);
    assert_eq!(seconds_since(-1, 1), 2);
    assert_eq!(seconds_since(i64::MIN, i64::MAX), u64::MAX);
    assert_eq!(seconds_since(i64::MAX, i64::MIN), 0);
}

fn same_number(got: Single, wanted: f32) -> bool {
    let got = f32::from_bits(got.bits);
    got.to_bits() == wanted.to_bits() || (got.is_nan() && wanted.is_nan())
}

fn check_arithmetic(x: f32, y: f32) {
    let (a, b) = (single(x), single(y));
    assert!(same_number(a.plus(b), x + y), "{x:e} + {y:e}");
    assert!(same_number(a.times(b), x * y), "{x:e} * {y:e}");
    assert!(same_number(a.over(b), x / y), "{x:e} / {y:e}");
}

fn patterns(seed: u64, count: usize) -> Vec<u32> {
    let mut state = seed;
    (0..count)
        .map(|_| {
            state = state.wrapping_mul(6_364_136_223_846_793_005).wrapping_add(1);
            (state >> 32) as u32
        })
        .collect()
}

#[test]
fn arithmetic_on_special_numbers() {
    for x in samples() {
        for y in samples() {
            check_arithmetic(x, y);
        }
    }
}

#[test]
fn arithmetic_on_any_numbers() {
    let left = patterns(1, 40_000);
    let right = patterns(2, 40_000);
    for (x, y) in left.into_iter().zip(right) {
        check_arithmetic(f32::from_bits(x), f32::from_bits(y));
    }
}

#[test]
fn arithmetic_on_numbers_of_like_size() {
    let left = patterns(3, 40_000);
    let right = patterns(4, 40_000);
    for (x, y) in left.into_iter().zip(right) {
        let near = |bits: u32| (bits & 0x80ff_ffff) | ((bits >> 28 & 3) << 24) | 0x3c00_0000;
        check_arithmetic(f32::from_bits(near(x)), f32::from_bits(near(y)));
        check_arithmetic(f32::from_bits(x & 0x81ff_ffff), f32::from_bits(y & 0x81ff_ffff));
        check_arithmetic(f32::from_bits(near(x)), f32::from_bits((near(x) ^ 0x8000_0000) ^ (y & 3)));
    }
}

#[test]
fn arithmetic_at_the_ends_of_the_range() {
    for x in patterns(5, 10_000) {
        let tiny = f32::from_bits(x & 0x80ff_ffff);
        let huge = f32::from_bits((x & 0x80ff_ffff) | 0x7e00_0000);
        let middle = f32::from_bits((x.rotate_left(7) & 0x00ff_ffff) | 0x3f00_0000);
        check_arithmetic(tiny, middle);
        check_arithmetic(huge, middle);
        check_arithmetic(middle, tiny);
        check_arithmetic(middle, huge);
        check_arithmetic(tiny, huge);
        check_arithmetic(huge, tiny);
        check_arithmetic(huge, huge);
        check_arithmetic(tiny, tiny);
    }
}

#[test]
fn halves_are_rounded_to_even() {
    let one = single(1.0);
    assert_eq!(one.plus(single(f32::EPSILON / 2.0)), one);
    assert_eq!(
        single(1.0 + f32::EPSILON).plus(single(f32::EPSILON / 2.0)),
        single(1.0 + 2.0 * f32::EPSILON)
    );
    assert_eq!(single(1.0).over(single(3.0)).bits, 0x3eaa_aaab);
    assert_eq!(single(0.1).times(single(0.1)).bits, 0x3c23_d70b);
    assert_eq!(single(0.1).plus(single(0.2)).bits, 0x3e99_999a);
}

#[test]
fn counts_become_the_nearest_numbers() {
    for n in 0..70_000_u64 {
        assert_eq!(Single::from_count(n as u128), single(n as f32));
        let large = n.wrapping_mul(0x9e37_79b9_7f4a_7c15);
        assert_eq!(Single::from_count(large as u128), single(large as f32));
        assert_eq!(Single::from_count((large >> 38) as u128), single((large >> 38) as f32));
    }
    assert_eq!(Single::from_count(u64::MAX as u128), single(u64::MAX as f32));
    assert_eq!(Single::from_count(16_777_217), single(16_777_216.0));
    assert_eq!(Single::from_count(16_777_219), single(16_777_220.0));
}

#[test]
fn the_smaller_number_is_found() {
    for x in samples() {
        for y in samples() {
            let got = single(x).min(single(y));
            let wanted = x.min(y);
            assert!(same_number(got, wanted) || (wanted == 0.0 && x == y), "{x} {y}");
        }
    }
}

#[test]
fn weights_are_the_numbers_they_stand_for() {
    let pairs = [
        (ranking::DAY, 86_400.0),
        (ranking::FRESH_DAYS, 45.0),
        (ranking::IMPORTANCE_WEIGHT, 0.34),
        (ranking::CONFIDENCE_WEIGHT, 0.24),
        (ranking::FRESHNESS_WEIGHT, 0.27),
        (ranking::USAGE_WEIGHT, 0.15),
        (ranking::PINNED_BONUS, 0.25),
        (ranking::FULL_USAGE, 5.0),
        (ranking::TERM_WEIGHT, 1.5),
        (ranking::RETENTION_WEIGHT, 4.0),
        (ranking::LEXICAL_WEIGHT, 0.45),
        (ranking::SEMANTIC_WEIGHT, 0.55),
        (keyword::RECENT_DAYS, 30.0),
        (keyword::WORD_WEIGHT, 1.5),
        (keyword::IMPORTANCE_FACTOR, 2.0),
        (keyword::PINNED_GAIN, 3.0),
        (ranking::FULL_RETENTION, 1.25),
        (recall::POSITION_STEP, 0.12),
        (recall::PLAIN_LEXICAL, 0.48),
        (recall::PLAIN_RETENTION, 0.32),
        (recall::PLAIN_POSITION, 0.20),
        (recall::RERANKED_LEXICAL, 0.30),
        (recall::RERANKED_SEMANTIC, 0.35),
        (recall::RERANKED_RETENTION, 0.20),
        (recall::RERANKED_POSITION, 0.15),
        (baseline::PINNED_LEAD, 0.4),
        (baseline::RULE_LEAD, 0.2),
        (baseline::PREFERENCE_LEAD, 0.15),
        (baseline::FULL_PRESSURE, 1.5),
    ];
    for (bits, number) in pairs {
        let number: f32 = number;
        assert_eq!(bits, number.to_bits());
    }
}
