use melon::field::{fr_from_u64, fr_zero, Fr};
use melon::kzg::{setup, KZGCommitment, KZGParams, KZGProver, KZGVerifier, KZGWitness};
use melon::polynomial::Polynomial;
use rand::{rngs::SmallRng, Rng, SeedableRng};

const RNG_SEED: [u8; 32] = [69; 32];

fn test_setup(rng: &mut SmallRng, max_coeffs: usize) -> KZGParams {
    let s: Fr = fr_from_u64(rng.gen::<u64>());
    setup(s, max_coeffs)
}

fn test_participants(params: &'_ KZGParams) -> (KZGProver<'_>, KZGVerifier<'_>) {
    let prover = KZGProver::new(params);
    let verifier = KZGVerifier::new(params);

    (prover, verifier)
}

// never returns zero polynomial
fn random_polynomial(rng: &mut SmallRng, min_coeffs: usize, max_coeffs: usize) -> Polynomial {
    let num_coeffs = rng.gen_range(min_coeffs..max_coeffs);
    let mut coeffs = vec![fr_zero(); max_coeffs];

    for coeff in coeffs.iter_mut().take(num_coeffs) {
        *coeff = fr_from_u64(rng.gen::<u64>());
    }

    let mut poly = Polynomial::new_from_coeffs(coeffs, num_coeffs - 1);
    poly.shrink_degree();
    poly
}

fn assert_verify_poly(
    verifier: &KZGVerifier,
    commitment: &KZGCommitment,
    polynomial: &Polynomial,
) {
    assert!(
        verifier.verify_poly(commitment, polynomial),
        "verify_poly failed for commitment {:#?} and polynomial {:#?}",
        commitment,
        polynomial
    );
}

fn assert_verify_poly_fails(
    verifier: &KZGVerifier,
    commitment: &KZGCommitment,
    polynomial: &Polynomial,
) {
    assert!(
        !verifier.verify_poly(commitment, polynomial),
        "expected verify_poly to fail for commitment {:#?} and polynomial {:#?} but it didn't",
        commitment,
        polynomial
    );
}

fn assert_verify_eval(
    verifier: &KZGVerifier,
    point: (Fr, Fr),
    commitment: &KZGCommitment,
    witness: &KZGWitness,
) {
    assert!(
        verifier.verify_eval(point, commitment, witness),
        "verify_eval failed for point {:#?}, commitment {:#?}, and witness {:#?}",
        point,
        commitment,
        witness
    );
}

fn assert_verify_eval_fails(
    verifier: &KZGVerifier,
    point: (Fr, Fr),
    commitment: &KZGCommitment,
    witness: &KZGWitness,
) {
    assert!(!verifier.verify_eval(point, commitment, witness), "expected verify_eval to fail for for point {:#?}, commitment {:#?}, and witness {:#?}, but it didn't", point, commitment, witness);
}

#[test]
fn test_basic() {
    let mut rng = SmallRng::from_seed(RNG_SEED);
    let params = test_setup(&mut rng, 12);

    let (prover, verifier) = test_participants(&params);

    let polynomial = random_polynomial(&mut rng, 2, 12);
    let commitment = prover.commit(&polynomial);

    assert_verify_poly(&verifier, &commitment, &polynomial);
    assert_verify_poly_fails(&verifier, &commitment, &random_polynomial(&mut rng, 2, 12));
}

fn random_field_elem_neq(val: Fr) -> Fr {
    let mut rng = SmallRng::from_seed(RNG_SEED);
    let mut v: Fr = fr_from_u64(rng.gen::<u64>());
    while v == val {
        v = fr_from_u64(rng.gen::<u64>());
    }

    v
}

#[test]
fn test_modify_single_coeff() {
    let mut rng = SmallRng::from_seed(RNG_SEED);
    let params = test_setup(&mut rng, 8);

    let (prover, verifier) = test_participants(&params);

    let polynomial = random_polynomial(&mut rng, 3, 8);
    let commitment = prover.commit(&polynomial);

    let mut modified_polynomial = polynomial.clone();
    let new_coeff = random_field_elem_neq(modified_polynomial.coeffs[2]);
    modified_polynomial.coeffs[2] = new_coeff;

    assert_verify_poly(&verifier, &commitment, &polynomial);
    assert_verify_poly_fails(&verifier, &commitment, &modified_polynomial);
}

#[test]
fn mod_test_eval_basic() {
    let mut rng = SmallRng::from_seed(RNG_SEED);
    let params = test_setup(&mut rng, 13);

    let (prover, verifier) = test_participants(&params);

    let polynomial = random_polynomial(&mut rng, 5, 13);
    let commitment = prover.commit(&polynomial);

    let x: Fr = fr_from_u64(rng.gen::<u64>());
    let y = polynomial.eval(x);

    let witness = prover.create_witness(&polynomial, (x, y)).unwrap();
    assert_verify_eval(&verifier, (x, y), &commitment, &witness);

    let y_prime = random_field_elem_neq(y);
    assert_verify_eval_fails(&verifier, (x, y_prime), &commitment, &witness);

    // test degree 1 edge case
    let mut coeffs = vec![fr_zero(); 13];
    coeffs[0] = fr_from_u64(3);
    coeffs[1] = fr_from_u64(1);
    let polynomial = Polynomial::new(coeffs);

    let commitment = prover.commit(&polynomial);
    let witness = prover
        .create_witness(&polynomial, (fr_from_u64(1), fr_from_u64(4)))
        .unwrap();
    assert_verify_eval(&verifier, (fr_from_u64(1), fr_from_u64(4)), &commitment, &witness);
    assert_verify_eval_fails(&verifier, (fr_from_u64(1), fr_from_u64(5)), &commitment, &witness);
}
