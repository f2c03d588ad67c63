//! The standard irreducible polynomials used as moduli for GF(2^n).
use vstd::prelude::*;
use crate::polynomial::{seq_terms, GF2NPolynomial};

verus! {

/// The exponents of the modulus for GF(2^n), descending; empty when `n` is not supported.
pub open spec fn irreducible_terms(n: u32) -> Seq<u8> {
    if n == 1 {
        seq![1u8]
    } else if n == 2 {
        seq![2u8, 1, 0]
    } else if n == 3 {
        seq![3u8, 1, 0]
    } else if n == 4 {
        seq![4u8, 1, 0]
    } else if n == 5 {
        seq![5u8, 2, 0]
    } else if n == 6 {
        seq![6u8, 1, 0]
    } else if n == 7 {
        seq![7u8, 1, 0]
    } else if n == 8 {
        seq![8u8, 4, 3, 1, 0]
    } else if n == 9 {
        seq![9u8, 1, 0]
    } else if n == 10 {
        seq![10u8, 3, 0]
    } else if n == 16 {
        seq![16u8, 5, 3, 2, 0]
    } else if n == 32 {
        seq![32u8, 22, 2, 1, 0]
    } else if n == 64 {
        seq![64u8, 4, 3, 1, 0]
    } else {
        seq![]
    }
}

/// The modulus for GF(2^n) as a polynomial; zero when `n` is not supported.
pub open spec fn irreducible_poly(n: u32) -> Set<nat> {
    seq_terms(irreducible_terms(n))
}

/// A field degree for which a modulus is known.
pub open spec fn is_supported_degree(n: u32) -> bool {
    irreducible_terms(n).len() > 0
}

/// The modulus for GF(2^n): x, x^2+x+1, x^3+x+1, x^4+x+1, x^5+x^2+1, x^6+x+1, x^7+x+1,
/// x^8+x^4+x^3+x+1, x^9+x+1, x^10+x^3+1, x^16+x^5+x^3+x^2+1, x^32+x^22+x^2+x+1 and
/// x^64+x^4+x^3+x+1; the zero polynomial for any other degree.
pub fn get_irreducible_polynomial(n: u32) -> (r: GF2NPolynomial)
    ensures
        r.wf(),
        r.terms@ == irreducible_terms(n),
        r@ == irreducible_poly(n),
        is_supported_degree(n) ==> r.degree == n && r.terms.len() > 0,
        !is_supported_degree(n) ==> r.terms.len() == 0,
        r.degree <= 64,
{
    let terms: Vec<u8> = match n {
        1 => vec![1u8],
        2 => vec![2u8, 1, 0],
        3 => vec![3u8, 1, 0],
        4 => vec![4u8, 1, 0],
        5 => vec![5u8, 2, 0],
        6 => vec![6u8, 1, 0],
        7 => vec![7u8, 1, 0],
        8 => vec![8u8, 4, 3, 1, 0],
        9 => vec![9u8, 1, 0],
        10 => vec![10u8, 3, 0],
        16 => vec![16u8, 5, 3, 2, 0],
        32 => vec![32u8, 22, 2, 1, 0],
        64 => vec![64u8, 4, 3, 1, 0],
        _ => Vec::new(),
    };
    assert(terms@ =~= irreducible_terms(n));
    GF2NPolynomial::from_descending(terms)
}

} // verus!
