use pfr::field::{batch_inversion, Scalar};
use pfr::poly::{Domain, Poly};
use pfr::transcript::Transcript;

fn f(v: u64) -> Scalar {
    Scalar::from_u64(v)
}

fn poly(c: &[u64]) -> Poly {
    Poly::from_coefficients_vec(c.iter().map(|&v| f(v)).collect())
}

#[test]
fn field_arithmetic_small_values() {
    assert_eq!(f(2).add(&f(3)), f(5));
    assert_eq!(f(7).sub(&f(3)), f(4));
    assert_eq!(f(6).mul(&f(7)), f(42));
    assert_eq!(f(2).pow(10), f(1024));
    assert_eq!(f(5).pow(0), Scalar::one());
    assert_eq!(f(3).sub(&f(5)).add(&f(2)), Scalar::zero());
    assert_eq!(f(4).neg().add(&f(4)), Scalar::zero());
    assert!(Scalar::zero().is_zero());
    assert!(!Scalar::one().is_zero());
    assert!(f(9).equals(&f(9)));
    assert!(!f(9).equals(&f(8)));
}

#[test]
fn field_modular_wraparound() {
    // p − 1 + 2 = 1
    let minus_one = Scalar::one().neg();
    assert_eq!(minus_one.add(&f(2)), Scalar::one());
    assert_eq!(minus_one.mul(&minus_one), Scalar::one());
}

#[test]
fn field_inverse() {
    assert!(Scalar::zero().inverse().is_none());
    assert_eq!(Scalar::zero().inverse_or_zero(), Scalar::zero());
    let x = f(3);
    let y = x.inverse().unwrap();
    assert_eq!(x.mul(&y), Scalar::one());
    assert_eq!(x.inverse_or_zero(), y);
}

#[test]
fn field_batch_inversion_keeps_zeros() {
    let mut v = vec![f(2), Scalar::zero(), f(5)];
    batch_inversion(&mut v);
    assert_eq!(v[0].mul(&f(2)), Scalar::one());
    assert_eq!(v[1], Scalar::zero());
    assert_eq!(v[2].mul(&f(5)), Scalar::one());
}

#[test]
fn field_to_bytes_little_endian() {
    let b = f(0x0102).to_bytes();
    assert_eq!(b.len(), 32);
    assert_eq!(b[0], 0x02);
    assert_eq!(b[1], 0x01);
    assert!(b[2..].iter().all(|&x| x == 0));
}

#[test]
fn field_random_is_canonical_and_varies() {
    let rng = &mut ark_std::test_rng();
    let a = Scalar::random(rng);
    let b = Scalar::random(rng);
    assert_ne!(a, b);
    // a canonical value survives a round trip through addition with 0
    assert_eq!(a.add(&Scalar::zero()), a);
}

#[test]
fn poly_evaluate_add_sub_mul_scale() {
    let p = poly(&[1, 2, 3]); // 1 + 2x + 3x²
    let q = poly(&[4, 5]); // 4 + 5x
    let x = f(2);
    assert_eq!(p.evaluate(&x), f(17));
    assert_eq!(q.evaluate(&x), f(14));
    assert_eq!(p.add(&q).evaluate(&x), f(31));
    assert_eq!(p.sub(&q).evaluate(&x), f(3));
    assert_eq!(p.mul(&q).evaluate(&x), f(17 * 14));
    assert_eq!(p.scale(&f(3)).evaluate(&x), f(51));
    assert_eq!(p.degree(), 2);
    assert_eq!(Poly::zero().degree(), 0);
    assert_eq!(Poly::constant(f(9)).evaluate(&x), f(9));
}

#[test]
fn poly_divide_by_linear() {
    // (x² − 1) = (x + 1)(x − 1)
    let p = Poly::from_coefficients_vec(vec![Scalar::one().neg(), Scalar::zero(), Scalar::one()]);
    let (q, r) = p.divide_by_linear(&Scalar::one());
    assert!(r.coeffs.iter().all(|c| c.is_zero()));
    assert_eq!(q.evaluate(&f(5)), f(6));
    // remainder is the value at the point
    let (_, r2) = poly(&[1, 2, 3]).divide_by_linear(&f(2));
    assert_eq!(r2.evaluate(&Scalar::zero()), f(17));
}

#[test]
fn poly_divide_by_vanishing() {
    // x^5 + 3 = x·(x^4 − 1) + (x + 3)
    let p = poly(&[3, 0, 0, 0, 0, 1]);
    let d = Domain { size: 4 };
    let (q, r) = p.divide_by_vanishing_poly(&d);
    assert_eq!(q.evaluate(&f(7)), f(7));
    assert_eq!(r.evaluate(&f(7)), f(10));
}

#[test]
fn domain_elements_and_interpolation() {
    let d = Domain { size: 4 };
    assert_eq!(d.element(0), Scalar::one());
    let w = d.element(1);
    assert_eq!(w.pow(4), Scalar::one());
    assert_ne!(w.pow(2), Scalar::one());
    assert_eq!(d.element(3), w.pow(3));
    // the square of the generator of the domain of size 8 generates size 4
    let d8 = Domain { size: 8 };
    assert_eq!(d8.element(1).mul(&d8.element(1)), w);
    // z(x) = x^4 − 1 vanishes on the domain
    let z = d.vanishing_polynomial();
    for i in 0..4 {
        assert!(z.evaluate(&d.element(i)).is_zero());
    }
    let evals = vec![f(1), f(2), f(3), f(4)];
    let p = d.interpolate(&evals);
    for i in 0..4 {
        assert_eq!(p.evaluate(&d.element(i)), evals[i]);
    }
    assert_eq!(d.evaluate_over_domain(&p), evals);
}

#[test]
fn domain_coset_fft_roundtrip() {
    let d = Domain { size: 8 };
    let p = poly(&[1, 2, 3, 4, 5]);
    let evals = d.coset_fft(&p);
    assert_eq!(evals.len(), 8);
    let back = d.coset_ifft(&evals);
    for x in [0u64, 1, 2, 99] {
        assert_eq!(back.evaluate(&f(x)), p.evaluate(&f(x)));
    }
    // the coset is disjoint from the domain: z(x) = x^8 − 1 never vanishes on it
    let z = d.vanishing_polynomial();
    for v in d.coset_fft(&z) {
        assert!(!v.is_zero());
    }
}

#[test]
fn transcript_challenges_depend_on_every_message() {
    let mut a = Transcript::new(vec![1, 2, 3]);
    let mut b = Transcript::new(vec![1, 2, 3]);
    assert_eq!(a.challenge(), b.challenge());
    a.absorb(vec![9]);
    b.absorb(vec![9]);
    assert_eq!(a.challenge(), b.challenge());
    let c0 = a.challenge();
    a.absorb(vec![4]);
    b.absorb(vec![5]);
    assert_ne!(a.challenge(), b.challenge());
    assert_ne!(a.challenge(), c0);
    // drawing a challenge does not change the next one
    let mut c = Transcript::new(vec![1, 2, 3]);
    c.absorb(vec![9]);
    let _ = c.challenge();
    c.absorb(vec![4]);
    assert_eq!(c.challenge(), a.challenge());
}

#[test]
fn domain_generator_is_the_squared_two_adic_root() {
    let root = Scalar { limbs: [0x3829971f439f0d2b, 0xb63683508c2280b9, 0xd09b681922c813b4, 0x16a2a19edfe81f20] };
    for log in [1u32, 2, 3, 5] {
        let d = Domain { size: 1 << log };
        assert_eq!(d.element(1), root.pow(1u64 << (32 - log)));
    }
    // κ^{m/2} = −1 for the size-8 domain
    let d = Domain { size: 8 };
    assert_eq!(d.element(1).pow(4), f(0).sub(&f(1)));
}

#[test]
fn coset_fft_evaluates_on_seven_times_the_domain() {
    let d = Domain { size: 8 };
    let x = poly(&[0, 1]);
    let evals = d.coset_fft(&x);
    for i in 0..8 {
        assert_eq!(evals[i], f(7).mul(&d.element(i)));
    }
}

#[test]
fn interpolation_is_the_inverse_fft_without_trailing_zeros() {
    let d = Domain { size: 4 };
    let evals: Vec<Scalar> = [1u64, 2, 3, 4].iter().map(|&v| f(v)).collect();
    let p = d.interpolate(&evals);
    let inv4 = f(4).inverse_or_zero();
    for j in 0..4usize {
        let mut acc = f(0);
        for i in 0..4usize {
            acc = acc.add(&evals[i].mul(&d.element((4 - j) % 4).pow(i as u64)));
        }
        assert_eq!(p.coeffs[j], inv4.mul(&acc));
    }
    let flat = d.interpolate(&vec![f(5); 4]);
    assert_eq!(flat.coeffs, vec![f(5)]);
}
