use melon::field::{fr_from_u64, fr_from_u64s, Fr};
use melon::ft::EvaluationDomain;
use melon::kzg::KZGError;
use melon::polynomial::Polynomial;
use rand::{rngs::SmallRng, Rng, RngCore, SeedableRng};

// a scalar drawn from the whole field, as four random limbs reduced
fn random_scalar<R: Rng>(rng: &mut R) -> Fr {
    fr_from_u64s(rng.gen(), rng.gen(), rng.gen(), rng.gen())
}

// Test multiplying various (low degree) polynomials together and
// comparing with naive evaluations.
#[test]
fn polynomial_arith() {
    fn test_mul<R: Rng>(rng: &mut R) {
        for coeffs_a in &[1usize, 5, 10, 50] {
            for coeffs_b in &[1usize, 5, 10, 50] {
                let a: Vec<Fr> = (0..*coeffs_a).map(|_| random_scalar(rng)).collect();
                let b: Vec<Fr> = (0..*coeffs_b).map(|_| random_scalar(rng)).collect();

                let a = Polynomial::new_from_coeffs(a, coeffs_a - 1);
                let b = Polynomial::new_from_coeffs(b, coeffs_b - 1);

                // naive evaluation
                let naive = a.mul(&b);
                let fft = a.fft_mul(&b);

                assert!(naive == fft);
            }
        }
    }

    let rng = &mut SmallRng::from_seed([42; 32]);

    test_mul(rng);
}

#[test]
fn fft_composition() {
    fn test_comp<R: RngCore + Rng>(rng: &mut R) {
        for coeffs in 0..10 {
            let coeffs = 1usize << coeffs;

            let mut v = vec![];
            for _ in 0..coeffs {
                v.push(random_scalar(rng));
            }

            let mut domain = EvaluationDomain::from_coeffs(v.clone()).unwrap();
            domain.ifft();
            domain.fft();
            assert!(v == domain.coeffs);
            domain.fft();
            domain.ifft();
            assert!(v == domain.coeffs);
        }
    }

    let rng = &mut rand::thread_rng();

    test_comp(rng);
}

#[test]
fn test_domain_too_large() {
    // the field supports radix-2 domains only up to 2^27
    match EvaluationDomain::compute_omega(1usize << 30) {
        Err(KZGError::PolynomialDegreeTooLarge) => {}
        _ => panic!("an oversized domain must be refused"),
    }
    assert!(EvaluationDomain::compute_omega(1usize << 27).is_ok());
}

#[test]
fn test_domain_padding() {
    // five coefficients are lifted to the domain of size eight
    let coeffs: Vec<Fr> = (1..=5u64).map(fr_from_u64).collect();
    let domain = EvaluationDomain::from_coeffs(coeffs).unwrap();
    assert_eq!(domain.d, 8);
    assert_eq!(domain.exp, 3);
    assert_eq!(domain.coeffs.len(), 8);
    assert_eq!(domain.coeffs[4], fr_from_u64(5));
    assert_eq!(domain.coeffs[7], fr_from_u64(0));
}

#[test]
fn test_fft_mul_exact() {
    // (1 + x) * (1 + x) = 1 + 2x + x^2, through the evaluation domain
    let a = Polynomial::new(vec![fr_from_u64(1), fr_from_u64(1)]);
    let p = a.fft_mul(&a);
    assert_eq!(p.degree(), 2);
    assert_eq!(p.coeffs[0], fr_from_u64(1));
    assert_eq!(p.coeffs[1], fr_from_u64(2));
    assert_eq!(p.coeffs[2], fr_from_u64(1));
}

#[test]
fn test_wide_scalar_reduction() {
    // small values pass through unreduced
    assert_eq!(fr_from_u64s(77, 0, 0, 0), fr_from_u64(77));
    // the limbs of the field order itself reduce to zero
    let zero = fr_from_u64s(
        4891460686036598785,
        2896914383306846353,
        13281191951274694749,
        3486998266802970665,
    );
    assert_eq!(zero, fr_from_u64(0));
}
