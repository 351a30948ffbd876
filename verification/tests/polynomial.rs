use fem_assembly::polynomial::PolynomialCoefficientsFixedLength;

#[test]
fn test_polynomial_pow() {
    let coeffs = PolynomialCoefficientsFixedLength::new(vec![1, 2, 0, 0]);
    println!("{:?}", coeffs.iter());

    // Test power of 0 (should return 1)
    let result = coeffs.pow(0);
    println!("{:?}", result.iter());
    assert_eq!(result.iter(), vec![1, 0, 0, 0]);

    // Test power of 1 (should return original)
    let result = coeffs.pow(1);
    println!("{:?}", result.iter());
    assert_eq!(result.iter(), vec![1, 2, 0, 0]);

    // Test power of 2: (1 + 2x)^2 = 1 + 4x + 4x^2
    let result = coeffs.pow(2);
    println!("{:?}", result.iter());
    assert_eq!(result.iter(), vec![1, 4, 4, 0]);

    // Test power of 3: (1 + 2x)^3 = 1 + 6x + 12x^2 + 8x^3
    let result = coeffs.pow(3);
    println!("{:?}", result.iter());
    assert_eq!(result.iter(), vec![1, 6, 12, 8]);

    // Test power of 4: (1 + 2x)^4 = 1 + 8x + 24x^2 + 32x^3 | + 16x^4 truncated
    let result = coeffs.pow(4);
    println!("{:?}", result.iter());
    assert_eq!(result.iter(), vec![1, 8, 24, 32]);
}

#[test]
fn test_polynomial_mul_matches_square() {
    let p = PolynomialCoefficientsFixedLength::new(vec![2, -1, 3, 0, 0]);
    let squared = p.mul_polynomial(&p);
    // (2 - x + 3x^2)^2 = 4 - 4x + 13x^2 - 6x^3 + 9x^4
    assert_eq!(squared.iter(), vec![4, -4, 13, -6, 9]);
    assert_eq!(p.pow(2).iter(), squared.iter());
}

#[test]
fn test_polynomial_mul_truncates() {
    let p = PolynomialCoefficientsFixedLength::new(vec![0, 1]);
    // x * x = x^2, which falls outside two coefficients: truncated away.
    let squared = p.mul_polynomial(&p);
    assert_eq!(squared.iter(), vec![0, 0]);
}

#[test]
fn test_polynomial_len() {
    let p = PolynomialCoefficientsFixedLength::new(vec![5, 6, 7]);
    assert_eq!(p.len(), 3);
    assert_eq!(p.iter(), vec![5, 6, 7]);
}
