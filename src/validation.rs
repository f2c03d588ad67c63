//! Checking a claimed inverse: the product with the element must leave remainder 1.
use vstd::prelude::*;
use crate::algebra::{
    bounded_by, has_degree, is_inverse_mod, is_poly, lemma_remainder_unique, poly_add, poly_mul,
    poly_one, poly_zero,
};
use crate::polynomial::{FieldError, GF2NPolynomial};

verus! {

/// Whether `inverse_poly · input_poly` leaves remainder 1 modulo `irr_poly`.
pub fn validate(
    input_poly: &GF2NPolynomial,
    inverse_poly: &GF2NPolynomial,
    irr_poly: &GF2NPolynomial,
) -> (r: Result<bool, FieldError>)
    requires
        input_poly.wf(),
        inverse_poly.wf(),
        irr_poly.wf(),
        input_poly.degree + inverse_poly.degree <= 255,
    ensures
        r is Err <==> irr_poly@ == poly_zero(),
        r matches Err(e) ==> e == FieldError::DivisionByZero,
        r == Ok::<bool, FieldError>(true) ==> is_inverse_mod(inverse_poly@, input_poly@, irr_poly@),
        irr_poly.degree > 0 && is_inverse_mod(inverse_poly@, input_poly@, irr_poly@) ==> r
            == Ok::<bool, FieldError>(true),
{
    proof {
        irr_poly.lemma_wf_degree();
    }
    let product = inverse_poly.mul(input_poly);
    match product.div(irr_poly) {
        Ok((quotient, remainder)) => {
            proof {
                quotient.lemma_view_is_poly();
                remainder.lemma_wf_degree();
                irr_poly.lemma_wf_degree();
                if irr_poly.degree > 0 && is_inverse_mod(inverse_poly@, input_poly@, irr_poly@) {
                    let q = choose|q: Set<nat>|
                        is_poly(q) && poly_mul(inverse_poly@, input_poly@) == poly_add(
                            poly_mul(q, irr_poly@),
                            poly_one(),
                        );
                    assert forall|e: nat| remainder@.contains(e) implies e
                        < irr_poly.degree as nat by {
                        assert(has_degree(irr_poly@, irr_poly.degree as nat));
                    }
                    assert(bounded_by(poly_one(), 0));
                    assert(product@ == poly_add(poly_mul(quotient@, irr_poly@), remainder@));
                    assert(forall|e: nat| poly_one().contains(e) ==> e < irr_poly.degree as nat);
                    lemma_remainder_unique(
                        quotient@,
                        q,
                        irr_poly@,
                        irr_poly.degree as nat,
                        remainder@,
                        poly_one(),
                    );
                    assert(remainder@ == poly_one());
                }
            }
            Ok(remainder.is_one())
        },
        Err(e) => Err(e),
    }
}

} // verus!
