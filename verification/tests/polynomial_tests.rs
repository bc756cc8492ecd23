use melon::field::{fr_from_u64, fr_one, fr_zero};
use melon::polynomial::Polynomial;

fn fr(x: u64) -> melon::field::Fr {
    fr_from_u64(x)
}

#[test]
fn polynomial_test_eval_basic() {
    // y(x) = x^5 + 4x^3 + 7x^2 + 34
    let polynomial = Polynomial::new(vec![
        fr(34),
        fr_zero(),
        fr(7),
        fr(4),
        fr_zero(),
        fr_one(),
    ]);

    // y(0) = 34
    assert_eq!(polynomial.eval(fr_zero()), fr(34));
    // y(1) = 46
    assert_eq!(polynomial.eval(fr_one()), fr(46));
    // y(5) = 3834
    assert_eq!(polynomial.eval(fr(5)), fr(3834));
}

#[test]
fn test_interpolation() {
    let xs: Vec<melon::field::Fr> = vec![2].into_iter().map(fr).collect();
    let ys: Vec<melon::field::Fr> = vec![8].into_iter().map(fr).collect();

    let interpolation = Polynomial::lagrange_interpolation(&xs, &ys);

    for (&x, &y) in xs.iter().zip(ys.iter()) {
        assert_eq!(interpolation.eval(x), y);
    }

    let xs: Vec<melon::field::Fr> = vec![2, 5, 7, 90, 111, 31, 29].into_iter().map(fr).collect();
    let ys: Vec<melon::field::Fr> = vec![8, 1, 43, 2, 87, 122, 13].into_iter().map(fr).collect();
    let interpolation = Polynomial::lagrange_interpolation(&xs, &ys);

    for (&x, &y) in xs.iter().zip(ys.iter()) {
        assert_eq!(interpolation.eval(x), y);
    }
}

#[test]
fn test_interpolation_exact_line() {
    // the unique line through (0, 3) and (1, 4) is 3 + x
    let xs = vec![fr(0), fr(1)];
    let ys = vec![fr(3), fr(4)];
    let line = Polynomial::lagrange_interpolation(&xs, &ys);
    assert_eq!(line.degree(), 1);
    assert_eq!(line.coeffs[0], fr(3));
    assert_eq!(line.coeffs[1], fr(1));
    assert_eq!(line.eval(fr(7)), fr(10));
}

#[test]
fn test_add_keeps_degree_sub_shrinks() {
    // 1 + x minus x leaves the constant 1, and subtraction reflects the
    // cancellation at once
    let a = Polynomial::new(vec![fr(1), fr(1)]);
    let b = Polynomial::new(vec![fr(0), fr(1)]);
    let d = a.sub(&b);
    assert_eq!(d.degree(), 0);
    assert_eq!(d.coeffs[0], fr(1));

    // subtracting a polynomial from itself gives the zero polynomial
    let z = b.sub(&b);
    assert_eq!(z.degree(), 0);
    assert!(z.is_zero());

    // addition never shrinks the recorded degree
    let s = a.add(b);
    assert_eq!(s.degree(), 1);
    assert_eq!(s.coeffs[0], fr(1));
    assert_eq!(s.coeffs[1], fr(2));
}

#[test]
fn test_naive_mul_exact() {
    // (1 + 2x) * (3 + x) = 3 + 7x + 2x^2
    let a = Polynomial::new(vec![fr(1), fr(2)]);
    let b = Polynomial::new(vec![fr(3), fr(1)]);
    let p = a.mul(&b);
    assert_eq!(p.degree(), 2);
    assert_eq!(p.coeffs[0], fr(3));
    assert_eq!(p.coeffs[1], fr(7));
    assert_eq!(p.coeffs[2], fr(2));
}

#[test]
fn test_constructors_and_accessors() {
    let monic = Polynomial::new_monic_of_degree(3);
    assert_eq!(monic.degree(), 3);
    assert_eq!(monic.num_coeffs(), 4);
    assert_eq!(monic.lead(), fr_one());

    let sized = Polynomial::new_zero_with_size(5);
    assert_eq!(sized.degree(), 0);
    assert!(sized.is_zero());

    // a trusted degree is repaired by an explicit shrink
    let mut scratch = Polynomial::new_from_coeffs(vec![fr(9), fr_zero(), fr_zero()], 2);
    assert_eq!(scratch.degree(), 2);
    scratch.shrink_degree();
    assert_eq!(scratch.degree(), 0);

    let p = Polynomial::from_scalar(fr(6));
    assert_eq!(p.slice_coeffs(), vec![fr(6)]);
    assert_eq!(p.iter_coeffs(), vec![fr(6)]);
    assert_eq!(p.coeffs(), vec![fr(6)]);
}
