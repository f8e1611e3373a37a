use modarith::reduce::{Reducer, StrategyKind};
use modarith::ArithError;

#[test]
fn naive_reduce_exact_values() {
    let red = Reducer::new(500, StrategyKind::Naive).unwrap();
    assert_eq!(red.reduce(701), 201);
    assert_eq!(red.reduce(0), 0);
    assert_eq!(red.reduce(499), 499);
    assert_eq!(red.reduce(500), 0);
    assert_eq!(red.reduce(1000), 0);
    assert_eq!(red.reduce(u128::MAX), (u128::MAX % 500) as u64);
}

#[test]
fn barrett_reduce_matches_naive() {
    for m in [2u64, 3, 500, 501, 6440809, (1 << 32) - 1] {
        let naive = Reducer::new(m, StrategyKind::Naive).unwrap();
        let barrett = Reducer::new(m, StrategyKind::Barrett).unwrap();
        for v in [0u128, 1, 701, 1 << 20, (1 << 64) - 1, 1 << 64, (1 << 65) - 1] {
            assert_eq!(barrett.reduce(v), naive.reduce(v), "modulus {m} value {v}");
        }
    }
}

#[test]
fn montgomery_reduce_matches_naive() {
    for m in [3u64, 5, 501, 999983, 6440809, (1 << 32) - 1] {
        let naive = Reducer::new(m, StrategyKind::Naive).unwrap();
        let mont = Reducer::new(m, StrategyKind::Montgomery).unwrap();
        for v in [0u128, 1, 701, 1 << 20, 1 << 33, (1 << 64) - 1] {
            assert_eq!(mont.reduce(v), naive.reduce(v), "modulus {m} value {v}");
        }
    }
}

#[test]
fn montgomery_form_round_trip() {
    for m in [3u64, 97, 501, 999983, (1 << 32) - 1] {
        let red = Reducer::new(m, StrategyKind::Montgomery).unwrap();
        for x in [0u64, 1, 2, 96, m / 2, m - 1] {
            let x: u64 = x % m;
            assert_eq!(red.from_montgomery_form(red.to_montgomery_form(x)), x);
        }
    }
}

#[test]
fn montgomery_form_exact_values() {
    let red = Reducer::new(97, StrategyKind::Montgomery).unwrap();
    // [x] = x·2^32 mod 97
    let expected: u64 = ((5u128 << 32) % 97) as u64;
    assert_eq!(red.to_montgomery_form(5), expected);
    assert_eq!(red.from_montgomery_form(expected), 5);
}

#[test]
fn strategies_support_double_word_range() {
    let naive = Reducer::new(500, StrategyKind::Naive).unwrap();
    let barrett = Reducer::new(500, StrategyKind::Barrett).unwrap();
    let mont = Reducer::new(501, StrategyKind::Montgomery).unwrap();
    assert!(naive.supports_value(u128::MAX));
    assert!(barrett.supports_value((1 << 65) - 1));
    assert!(!barrett.supports_value(1 << 65));
    assert!(mont.supports_value((1 << 64) - 1));
    assert!(!mont.supports_value(1 << 64));
}

#[test]
fn reducer_rejects_unsupported_moduli() {
    assert_eq!(Reducer::new(1, StrategyKind::Naive).unwrap_err(), ArithError::UnsupportedModulus);
    assert_eq!(
        Reducer::new(1 << 32, StrategyKind::Barrett).unwrap_err(),
        ArithError::UnsupportedModulus
    );
    assert_eq!(
        Reducer::new(500, StrategyKind::Montgomery).unwrap_err(),
        ArithError::UnsupportedModulus
    );
    assert!(Reducer::new(u64::MAX, StrategyKind::Naive).is_ok());
}

#[test]
fn factory_caches_constants_per_modulus() {
    let mut f = modarith::factory::StrategyFactory::new();
    let r1 = f.get(500, StrategyKind::Barrett).unwrap();
    let r2 = f.get(500, StrategyKind::Barrett).unwrap();
    assert_eq!(r1.reduce(701), 201);
    assert_eq!(r2.reduce(701), 201);
    let m = f.get(501, StrategyKind::Montgomery).unwrap();
    assert_eq!(m.reduce(701), 200);
    assert_eq!(
        f.get(500, StrategyKind::Montgomery).unwrap_err(),
        ArithError::UnsupportedModulus
    );
    let n = f.get(2, StrategyKind::Naive).unwrap();
    assert_eq!(n.reduce(7), 1);
}
