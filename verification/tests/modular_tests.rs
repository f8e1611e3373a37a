use modarith::modular::construct_modular_value;
use modarith::reduce::StrategyKind;
use modarith::ArithError;

#[test]
fn add_basic() {
    let a = construct_modular_value(3, 1000, StrategyKind::Naive).unwrap();
    let b = construct_modular_value(4, 1000, StrategyKind::Naive).unwrap();
    assert_eq!(a.add(&b).unwrap().value(), 7);
}

#[test]
fn add_large_numbers() {
    let a = construct_modular_value(27311837, u64::MAX, StrategyKind::Naive).unwrap();
    let b = construct_modular_value(88689789, u64::MAX, StrategyKind::Naive).unwrap();
    assert_eq!(a.add(&b).unwrap().value(), 116001626);
}

#[test]
fn add_works_when_exceeding_modulo_less_than_2x() {
    let a = construct_modular_value(301, 500, StrategyKind::Naive).unwrap();
    let b = construct_modular_value(400, 500, StrategyKind::Naive).unwrap();
    assert_eq!(a.add(&b).unwrap().value(), 201);
}

#[test]
fn add_works_when_a_times_b_equals_modulo() {
    let a = construct_modular_value(2, 4, StrategyKind::Naive).unwrap();
    let b = construct_modular_value(2, 4, StrategyKind::Naive).unwrap();
    assert_eq!(a.add(&b).unwrap().value(), 0);
}

#[test]
fn barret() {
    let a = construct_modular_value(301, 500, StrategyKind::Naive).unwrap();
    let b = construct_modular_value(400, 500, StrategyKind::Naive).unwrap();
    assert_eq!(a.add(&b).unwrap().value(), 201);
}

#[test]
fn add_no_reduce() {
    let a = construct_modular_value(3, 500, StrategyKind::Barrett).unwrap();
    let b = construct_modular_value(4, 500, StrategyKind::Barrett).unwrap();
    assert_eq!(a.add(&b).unwrap().value(), 7);
}

#[test]
fn add_reduce() {
    let a = construct_modular_value(503, 500, StrategyKind::Barrett).unwrap();
    let b = construct_modular_value(4, 500, StrategyKind::Barrett).unwrap();
    assert_eq!(a.add(&b).unwrap().value(), 7);
}

#[test]
fn add_zero_is_identity() {
    for kind in [StrategyKind::Naive, StrategyKind::Barrett, StrategyKind::Montgomery] {
        let a = construct_modular_value(123456, 999983, kind).unwrap();
        let zero = construct_modular_value(0, 999983, kind).unwrap();
        assert_eq!(a.add(&zero).unwrap().value(), 123456);
        assert_eq!(zero.add(&a).unwrap().value(), 123456);
    }
}

#[test]
fn add_is_commutative() {
    let a = construct_modular_value(301, 500, StrategyKind::Naive).unwrap();
    let b = construct_modular_value(477, 500, StrategyKind::Naive).unwrap();
    assert_eq!(a.add(&b).unwrap().value(), b.add(&a).unwrap().value());
    assert_eq!(a.add(&b).unwrap().value(), 278);
}

#[test]
fn multiply_is_commutative() {
    let a = construct_modular_value(301, 501, StrategyKind::Montgomery).unwrap();
    let b = construct_modular_value(477, 501, StrategyKind::Montgomery).unwrap();
    assert_eq!(a.multiply(&b).unwrap().value(), b.multiply(&a).unwrap().value());
    assert_eq!(a.multiply(&b).unwrap().value(), (301u64 * 477) % 501);
}

#[test]
fn multiply_matches_reference_division() {
    let cases: [(u64, u64, u64); 8] = [
        (3, 4, 1000),
        (0, 999, 1000),
        (499, 499, 500),
        (500, 500, 501),
        (123456789, 987654321, 6440809),
        (u64::MAX - 1, u64::MAX - 2, u64::MAX),
        (2, 2, 4),
        (7, 1, 2),
    ];
    for (x, y, m) in cases {
        let a = construct_modular_value(x, m, StrategyKind::Naive).unwrap();
        let b = construct_modular_value(y, m, StrategyKind::Naive).unwrap();
        let expected = ((x as u128 % m as u128) * (y as u128 % m as u128) % (m as u128)) as u64;
        assert_eq!(a.multiply(&b).unwrap().value(), expected);
    }
}

#[test]
fn multiply_agrees_across_strategies() {
    let m: u64 = 6440809;
    for (x, y) in [(12345u64, 67891u64), (6440808, 6440808), (1, 6440807), (99999, 3)] {
        let mut results: Vec<u64> = Vec::new();
        for kind in [StrategyKind::Naive, StrategyKind::Barrett, StrategyKind::Montgomery] {
            let a = construct_modular_value(x, m, kind).unwrap();
            let b = construct_modular_value(y, m, kind).unwrap();
            results.push(a.multiply(&b).unwrap().value());
        }
        assert_eq!(results[0], results[1]);
        assert_eq!(results[0], results[2]);
    }
}

#[test]
fn add_rejects_mismatched_moduli() {
    let a = construct_modular_value(3, 1000, StrategyKind::Naive).unwrap();
    let b = construct_modular_value(4, 999, StrategyKind::Naive).unwrap();
    assert_eq!(a.add(&b).unwrap_err(), ArithError::ModulusMismatch);
    assert_eq!(a.multiply(&b).unwrap_err(), ArithError::ModulusMismatch);
}

#[test]
fn construct_rejects_unsupported_moduli() {
    assert_eq!(
        construct_modular_value(3, 0, StrategyKind::Naive).unwrap_err(),
        ArithError::UnsupportedModulus
    );
    assert_eq!(
        construct_modular_value(3, 1, StrategyKind::Naive).unwrap_err(),
        ArithError::UnsupportedModulus
    );
    // Barrett and Montgomery need a single-word modulus
    assert_eq!(
        construct_modular_value(3, 1 << 32, StrategyKind::Barrett).unwrap_err(),
        ArithError::UnsupportedModulus
    );
    assert_eq!(
        construct_modular_value(3, (1 << 32) + 1, StrategyKind::Montgomery).unwrap_err(),
        ArithError::UnsupportedModulus
    );
    // Montgomery needs the modulus odd
    assert_eq!(
        construct_modular_value(3, 500, StrategyKind::Montgomery).unwrap_err(),
        ArithError::UnsupportedModulus
    );
}

#[test]
fn construct_reduces_to_canonical_form() {
    let a = construct_modular_value(1234567, 500, StrategyKind::Naive).unwrap();
    assert_eq!(a.value(), 1234567 % 500);
    assert_eq!(a.modulus(), 500);
}

#[test]
fn equals_compares_value_and_modulus() {
    let a = construct_modular_value(503, 500, StrategyKind::Naive).unwrap();
    let b = construct_modular_value(3, 500, StrategyKind::Barrett).unwrap();
    let c = construct_modular_value(4, 500, StrategyKind::Naive).unwrap();
    let d = construct_modular_value(3, 499, StrategyKind::Naive).unwrap();
    assert!(a.equals(&b));
    assert!(!a.equals(&c));
    assert!(!a.equals(&d));
}
