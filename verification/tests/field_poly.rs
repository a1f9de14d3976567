use fri_ldt::field::FieldElement;
use fri_ldt::polynomial::Polynomial;

fn fe(v: u64, m: u64) -> FieldElement {
    FieldElement::new(v, m)
}

#[test]
fn add_and_mul_stay_reduced() {
    let m = 97u64;
    for a in 0..m {
        let x = fe(a, m);
        let y = fe(a.wrapping_mul(31) % m, m);
        let s = x.add(y);
        let p = x.mul(y);
        assert!(s.value < m);
        assert!(p.value < m);
        assert_eq!(s.modulus, m);
        assert_eq!(p.modulus, m);
    }
    assert_eq!(fe(95, 97).add(fe(5, 97)).value, 3);
    assert_eq!(fe(50, 97).mul(fe(2, 97)).value, 3);
}

#[test]
fn sub_wraps_into_field() {
    assert_eq!(fe(3, 7).sub(fe(5, 7)).value, 5);
    assert_eq!(fe(5, 7).sub(fe(3, 7)).value, 2);
    assert_eq!(fe(0, 97).sub(fe(1, 97)).value, 96);
}

#[test]
fn pow_matches_known_values() {
    assert_eq!(fe(3, 7).pow(5).value, 5);
    assert_eq!(fe(2, 97).pow(10).value, 1024 % 97);
    assert_eq!(fe(96, 97).pow(2).value, 1);
}

#[test]
fn pow_zero_is_one() {
    for a in 0..20u64 {
        assert_eq!(fe(a, 97).pow(0).value, 1);
    }
    assert_eq!(fe(0, 5).pow(0).value, 1);
}

#[test]
fn inverse_times_self_is_one_for_prime_modulus() {
    let m = 97u64;
    for a in 1..m {
        let x = fe(a, m);
        assert_eq!(x.inverse().mul(x).value, 1);
    }
    assert_eq!(fe(2, 97).inverse().value, 49);
}

#[test]
fn zero_and_one_constants() {
    assert_eq!(FieldElement::zero(97).value, 0);
    assert_eq!(FieldElement::one(97).value, 1);
    assert_eq!(fe(100, 97).value, 3);
}

#[test]
fn polynomial_new_trims_trailing_zeros() {
    let m = 97u64;
    let p = Polynomial::new(vec![fe(5, m), fe(0, m), fe(0, m)]);
    assert_eq!(p.degree(), 0);
    assert_eq!(p.evaluate(fe(10, m)).value, 5);
    let z = Polynomial::new(vec![fe(0, m), fe(0, m)]);
    assert_eq!(z.degree(), 0);
    assert_eq!(z.evaluate(fe(10, m)).value, 0);
}

#[test]
fn polynomial_degree_and_evaluate() {
    let m = 97u64;
    // 2x^2 + x + 3
    let p = Polynomial::new(vec![fe(3, m), fe(1, m), fe(2, m)]);
    assert_eq!(p.degree(), 2);
    assert_eq!(p.evaluate(fe(0, m)).value, 3);
    assert_eq!(p.evaluate(fe(5, m)).value, 58);
    assert_eq!(p.evaluate(fe(96, m)).value, (2 * 96 * 96 + 96 + 3) % 97);
}

#[test]
fn split_even_odd_partitions_coefficients() {
    let m = 97u64;
    let p = Polynomial::new(vec![fe(3, m), fe(1, m), fe(2, m), fe(7, m)]);
    let (even, odd) = p.split_even_odd();
    // even part 3 + 2x, odd part 1 + 7x
    assert_eq!(even.degree(), 1);
    assert_eq!(odd.degree(), 1);
    assert_eq!(even.evaluate(fe(4, m)).value, 11);
    assert_eq!(odd.evaluate(fe(4, m)).value, 29);
}

#[test]
fn fold_combines_even_and_odd() {
    let m = 97u64;
    let p = Polynomial::new(vec![fe(3, m), fe(1, m), fe(2, m)]);
    let alpha = fe(10, m);
    let f = p.fold(alpha);
    // even 3 + 2x, odd 1, fold = (3 + alpha) + 2x
    assert_eq!(f.degree(), 1);
    assert_eq!(f.evaluate(fe(0, m)).value, 13);
    assert_eq!(f.evaluate(fe(4, m)).value, 21);
}

#[test]
fn fold_strictly_decreases_degree() {
    let m = 97u64;
    for d in 1..12usize {
        let coeffs: Vec<FieldElement> = (0..=d).map(|i| fe(i as u64 + 1, m)).collect();
        let p = Polynomial::new(coeffs);
        assert_eq!(p.degree(), d);
        for a in [0u64, 1, 10, 96] {
            let f = p.fold(fe(a, m));
            assert!(f.degree() <= d / 2);
            assert!(f.degree() < d);
            if d % 2 == 1 {
                assert!(f.degree() <= (d + 1) / 2 - 1);
            }
        }
    }
}
