use gf2n::irr_poly::get_irreducible_polynomial;
use gf2n::polynomial::{FieldError, GF2NPolynomial};
use gf2n::subbytes::{invert_byte, matrix_multiplication_subbytes, sbox, AFFINE_CONSTANT};
use gf2n::validation::validate;

fn poly(terms: &[u8]) -> GF2NPolynomial {
    GF2NPolynomial::new(terms.to_vec())
}

#[test]
fn sbox_of_zero_and_one() {
    assert_eq!(sbox(0), Ok(0x63));
    assert_eq!(sbox(1), Ok(0x7C));
}

#[test]
fn invert_one_is_one() {
    let inv = invert_byte(1, 8).unwrap();
    assert_eq!(inv.terms, vec![0]);
    assert_eq!(inv.to_byte(), Some(1));
}

#[test]
fn sbox_matches_published_table() {
    let samples: [(u8, u8); 8] = [
        (0x53, 0xED),
        (0x10, 0xCA),
        (0xFF, 0x16),
        (0x20, 0xB7),
        (0x7F, 0xD2),
        (0xC9, 0xDD),
        (0x02, 0x77),
        (0x80, 0xCD),
    ];
    for (input, expected) in samples {
        assert_eq!(sbox(input), Ok(expected), "input {:02X}", input);
    }
}

#[test]
fn end_to_end_0x53() {
    let inv = invert_byte(0x53, 8).unwrap();
    assert_eq!(inv.to_byte(), Some(0xCA));
    let out = matrix_multiplication_subbytes(0xCA) ^ AFFINE_CONSTANT;
    assert_eq!(out, 0xED);
}

#[test]
fn every_nonzero_byte_is_inverted() {
    let modulus = get_irreducible_polynomial(8);
    for b in 1..=255u8 {
        let inv = invert_byte(b, 8).unwrap();
        assert!(inv.degree < 8);
        let product = inv.mul(&GF2NPolynomial::from_byte(b));
        let (_, rem) = product.div(&modulus).unwrap();
        assert!(rem.is_one(), "byte {:02X}", b);
    }
}

#[test]
fn addition_is_involutive() {
    for terms in [&[][..], &[0], &[7, 3, 0], &[12, 5, 4, 1]] {
        let a = poly(terms);
        let sum = a.add(&a);
        assert!(sum.terms.is_empty());
        assert_eq!(sum.degree, 0);
        assert_eq!(a.sub(&a).terms, Vec::<u8>::new());
    }
}

#[test]
fn addition_by_zero_keeps_value() {
    let a = poly(&[6, 2, 1]);
    assert_eq!(a.add(&GF2NPolynomial::zero()).terms, vec![6, 2, 1]);
}

#[test]
fn division_identity_holds() {
    let cases: [(&[u8], &[u8]); 5] = [
        (&[10, 7, 3, 0], &[4, 1, 0]),
        (&[8, 4, 3, 1, 0], &[6, 4, 1, 0]),
        (&[3, 1], &[5, 0]),
        (&[], &[2]),
        (&[9, 8, 7, 6, 5, 4, 3, 2, 1, 0], &[0]),
    ];
    for (a_terms, b_terms) in cases {
        let a = poly(a_terms);
        let b = poly(b_terms);
        let (q, r) = a.div(&b).unwrap();
        let back = q.mul(&b).add(&r);
        assert_eq!(back.terms, a.terms);
        assert!(r.terms.is_empty() || r.degree < b.degree);
    }
}

#[test]
fn division_exact_values() {
    // (x^4 + 1) / (x + 1) = x^3 + x^2 + x + 1, remainder 0
    let (q, r) = poly(&[4, 0]).div(&poly(&[1, 0])).unwrap();
    assert_eq!(q.terms, vec![3, 2, 1, 0]);
    assert!(r.terms.is_empty());
    // (x^3 + x + 1) / x^2 = x, remainder x + 1
    let (q, r) = poly(&[3, 1, 0]).div(&poly(&[2])).unwrap();
    assert_eq!(q.terms, vec![1]);
    assert_eq!(r.terms, vec![1, 0]);
    assert_eq!(r.degree, 1);
}

#[test]
fn divisor_of_higher_degree_leaves_dividend() {
    let (q, r) = poly(&[2, 0]).div(&poly(&[5, 1])).unwrap();
    assert!(q.terms.is_empty());
    assert_eq!(r.terms, vec![2, 0]);
}

#[test]
fn division_by_zero_is_an_error() {
    let err = poly(&[3, 1]).div(&GF2NPolynomial::zero()).unwrap_err();
    assert_eq!(err, FieldError::DivisionByZero);
}

#[test]
fn multiplication_distributes_over_addition() {
    let samples: [&[u8]; 5] = [&[], &[0], &[1, 0], &[3, 1], &[5, 4, 2]];
    for a in samples {
        for b in samples {
            for c in samples {
                let (a, b, c) = (poly(a), poly(b), poly(c));
                let left = a.mul(&b.add(&c));
                let right = a.mul(&b).add(&a.mul(&c));
                assert_eq!(left.terms, right.terms);
            }
        }
    }
}

#[test]
fn multiplication_exact_value() {
    // (x + 1)(x + 1) = x^2 + 1 over GF(2)
    let p = poly(&[1, 0]).mul(&poly(&[1, 0]));
    assert_eq!(p.terms, vec![2, 0]);
    assert_eq!(p.degree, 2);
    assert!(poly(&[3]).mul(&GF2NPolynomial::zero()).terms.is_empty());
}

#[test]
fn aes_modulus_terms() {
    let m = get_irreducible_polynomial(8);
    assert_eq!(m.terms, vec![8, 4, 3, 1, 0]);
    assert_eq!(m.degree, 8);
}

#[test]
fn other_moduli() {
    assert_eq!(get_irreducible_polynomial(1).terms, vec![1]);
    assert_eq!(get_irreducible_polynomial(16).terms, vec![16, 5, 3, 2, 0]);
    assert_eq!(get_irreducible_polynomial(64).degree, 64);
}

#[test]
fn unsupported_degree_gives_zero_polynomial() {
    let m = get_irreducible_polynomial(11);
    assert!(m.terms.is_empty());
    assert_eq!(m.degree, 0);
    assert_eq!(invert_byte(5, 11).unwrap_err(), FieldError::UnsupportedFieldDegree);
}

#[test]
fn inverse_of_zero_is_an_error() {
    assert_eq!(invert_byte(0, 8).unwrap_err(), FieldError::InverseOfZeroUndefined);
    let m = get_irreducible_polynomial(8);
    assert_eq!(
        GF2NPolynomial::zero().inverse(&m).unwrap_err(),
        FieldError::InverseOfZeroUndefined
    );
    assert_eq!(
        GF2NPolynomial::one().inverse(&GF2NPolynomial::zero()).unwrap_err(),
        FieldError::DivisionByZero
    );
}

#[test]
fn non_invertible_element() {
    // x is zero modulo x
    assert_eq!(invert_byte(2, 1).unwrap_err(), FieldError::NotInvertible);
}

#[test]
fn inverse_in_gf16() {
    // x · (x^3 + 1) = x^4 + x = 1 modulo x^4 + x + 1
    let inv = invert_byte(2, 4).unwrap();
    assert_eq!(inv.terms, vec![3, 0]);
}

#[test]
fn inverse_in_gf2_16_is_reduced() {
    let m = get_irreducible_polynomial(16);
    let b = GF2NPolynomial::from_byte(0x53);
    let inv = b.inverse(&m).unwrap();
    assert!(inv.degree < 16);
    let (_, rem) = inv.mul(&b).div(&m).unwrap();
    assert!(rem.is_one());
}

#[test]
fn new_cancels_pairs_and_sorts() {
    let p = poly(&[3, 1, 3, 3, 0, 1]);
    assert_eq!(p.terms, vec![3, 0]);
    assert_eq!(p.degree, 3);
    let q = poly(&[2, 2]);
    assert!(q.terms.is_empty());
    assert_eq!(q.degree, 0);
}

#[test]
fn from_byte_and_back() {
    let p = GF2NPolynomial::from_byte(0x53);
    assert_eq!(p.terms, vec![6, 4, 1, 0]);
    assert_eq!(p.degree, 6);
    assert_eq!(p.to_byte(), Some(0x53));
    assert!(GF2NPolynomial::from_byte(0).terms.is_empty());
    assert_eq!(GF2NPolynomial::from_byte(0x80).terms, vec![7]);
}

#[test]
fn to_byte_overflow_is_none() {
    assert_eq!(poly(&[8, 1]).to_byte(), None);
    assert_eq!(GF2NPolynomial::zero().to_byte(), Some(0));
}

#[test]
fn zero_and_one() {
    assert!(GF2NPolynomial::zero().terms.is_empty());
    assert_eq!(GF2NPolynomial::one().terms, vec![0]);
    assert!(GF2NPolynomial::one().is_one());
    assert!(!GF2NPolynomial::zero().is_one());
}

#[test]
fn affine_transform_values() {
    assert_eq!(matrix_multiplication_subbytes(0), 0);
    assert_eq!(matrix_multiplication_subbytes(1), 0x1F);
    assert_eq!(matrix_multiplication_subbytes(0xCA) ^ 0x63, 0xED);
}

#[test]
fn hex_and_algebraic_strings() {
    let p = GF2NPolynomial::from_byte(0xCA);
    assert_eq!(p.hex_string(), "CA");
    assert_eq!(GF2NPolynomial::zero().hex_string(), "00");
    assert_eq!(get_irreducible_polynomial(8).algebraic_string(), "x^8 + x^4 + x^3 + x + 1");
    assert_eq!(GF2NPolynomial::zero().algebraic_string(), "0");
    assert_eq!(poly(&[120, 15, 1]).algebraic_string(), "x^120 + x^15 + x");
}

#[test]
fn validate_accepts_true_inverse_only() {
    let m = get_irreducible_polynomial(8);
    let b = GF2NPolynomial::from_byte(0x53);
    let inv = GF2NPolynomial::from_byte(0xCA);
    assert_eq!(validate(&b, &inv, &m), Ok(true));
    let wrong = GF2NPolynomial::from_byte(0xCB);
    assert_eq!(validate(&b, &wrong, &m), Ok(false));
    assert_eq!(validate(&b, &inv, &GF2NPolynomial::zero()), Err(FieldError::DivisionByZero));
}

#[test]
fn polynomials_compare_by_terms() {
    assert_eq!(invert_byte(1, 8).unwrap(), GF2NPolynomial::one());
    assert_eq!(poly(&[0, 3, 3, 3]), poly(&[3, 0]));
    assert_ne!(GF2NPolynomial::from_byte(3), GF2NPolynomial::from_byte(2));
    let p = GF2NPolynomial::from_byte(0x53);
    assert_eq!(p.clone(), p);
    assert_eq!(p.copy(), p);
}
