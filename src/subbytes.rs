//! The AES SubBytes transform: inversion in GF(2^8) followed by a fixed affine map.
use vstd::prelude::*;
use crate::algebra::{below_degree_of, is_inverse_mod, is_poly};
use crate::irr_poly::{get_irreducible_polynomial, irreducible_poly, is_supported_degree};
use crate::polynomial::{byte_bit, byte_terms, FieldError, GF2NPolynomial};

verus! {

/// The field degree of AES.
pub const AES_FIELD_DEGREE: u32 = 8;

/// The constant added after the affine map.
pub const AFFINE_CONSTANT: u8 = 0x63;

/// Rotation of a byte to the left by `k` bits, `0 < k < 8`.
pub open spec fn rotl(b: u8, k: u8) -> u8 {
    ((b << k) | (b >> (8u8 - k))) as u8
}

/// The linear part of the AES affine transform: bit `i` of the result is the sum over GF(2)
/// of bits `i`, `i+4`, `i+5`, `i+6` and `i+7` (mod 8) of `b`.
pub open spec fn affine_transform(b: u8) -> u8 {
    b ^ rotl(b, 1) ^ rotl(b, 2) ^ rotl(b, 3) ^ rotl(b, 4)
}

/// The GF(2) dot product of two bit vectors: the parity of their common bits.
pub open spec fn dot(row: u8, v: u8) -> u8 {
    let x = row & v;
    (x ^ (x >> 1u8) ^ (x >> 2u8) ^ (x >> 3u8) ^ (x >> 4u8) ^ (x >> 5u8) ^ (x >> 6u8) ^ (x
        >> 7u8)) & 1u8
}

/// Row `i` of the affine matrix, as a byte whose bit 7 is column 0; row `i` gives bit `7 - i`
/// of the result.
pub open spec fn affine_row(i: int) -> u8 {
    if i == 0 {
        0xF8u8
    } else if i == 1 {
        0x7Cu8
    } else if i == 2 {
        0x3Eu8
    } else if i == 3 {
        0x1Fu8
    } else if i == 4 {
        0x8Fu8
    } else if i == 5 {
        0xC7u8
    } else if i == 6 {
        0xE3u8
    } else {
        0xF1u8
    }
}

/// The bits of the first `n` rows of the matrix product, most significant first.
pub open spec fn rows_product(b: u8, n: nat) -> u8
    decreases n,
{
    if n == 0 {
        0u8
    } else {
        ((rows_product(b, (n - 1) as nat) << 1u8) | dot(affine_row(n - 1), b)) as u8
    }
}

proof fn lemma_rows_product(b: u8)
    ensures
        rows_product(b, 8) == affine_transform(b),
{
    reveal_with_fuel(rows_product, 9);
    assert(((((((((((((((((0u8 << 1u8) | dot(0xF8u8, b)) << 1u8) | dot(0x7Cu8, b)) << 1u8) | dot(
        0x3Eu8,
        b,
    )) << 1u8) | dot(0x1Fu8, b)) << 1u8) | dot(0x8Fu8, b)) << 1u8) | dot(0xC7u8, b)) << 1u8)
        | dot(0xE3u8, b)) << 1u8) | dot(0xF1u8, b)) == affine_transform(b)) by (bit_vector);
}

/// The result of SubBytes for a byte whose field inverse is `inv`.
pub open spec fn sbox_from_inverse(inv: u8) -> u8 {
    affine_transform(inv) ^ AFFINE_CONSTANT
}

/// The AES modulus x^8 + x^4 + x^3 + x + 1.
pub open spec fn aes_modulus() -> Set<nat> {
    irreducible_poly(AES_FIELD_DEGREE)
}

/// Multiplies the affine matrix by the bits of `byte`, row by row, each row a GF(2) dot
/// product.
pub fn matrix_multiplication_subbytes(byte: u8) -> (r: u8)
    ensures
        r == affine_transform(byte),
{
    let affine_matrix: [u8; 8] = [0xF8, 0x7C, 0x3E, 0x1F, 0x8F, 0xC7, 0xE3, 0xF1];
    let mut r: u8 = 0;
    let mut i: usize = 0;
    while i < 8
        invariant
            i <= 8,
            r == rows_product(byte, i as nat),
            forall|k: int| 0 <= k < 8 ==> #[trigger] affine_matrix[k] == affine_row(k),
        decreases 8 - i,
    {
        let x = affine_matrix[i] & byte;
        let sum: u8 = (x ^ (x >> 1u8) ^ (x >> 2u8) ^ (x >> 3u8) ^ (x >> 4u8) ^ (x >> 5u8) ^ (x
            >> 6u8) ^ (x >> 7u8)) & 1u8;
        r = (r << 1u8) | sum;
        i += 1;
    }
    proof {
        lemma_rows_product(byte);
    }
    r
}

/// The inverse of `byte`, read as a polynomial, in GF(2^field_degree).
pub fn invert_byte(byte: u8, field_degree: u32) -> (r: Result<GF2NPolynomial, FieldError>)
    ensures
        r == Err::<GF2NPolynomial, FieldError>(FieldError::UnsupportedFieldDegree)
            <==> !is_supported_degree(field_degree),
        r == Err::<GF2NPolynomial, FieldError>(FieldError::InverseOfZeroUndefined) <==> (
        is_supported_degree(field_degree) && byte == 0),
        r matches Err(e) ==> e != FieldError::DivisionByZero,
        r matches Ok(v) ==> {
            &&& v.wf()
            &&& is_inverse_mod(v@, byte_terms(byte), irreducible_poly(field_degree))
            &&& below_degree_of(v@, irreducible_poly(field_degree))
        },
        is_supported_degree(field_degree) && (exists|w: Set<nat>|
            is_poly(w) && is_inverse_mod(w, byte_terms(byte), irreducible_poly(field_degree)))
            ==> r is Ok,
{
    let modulus = get_irreducible_polynomial(field_degree);
    if modulus.terms.len() == 0 {
        return Err(FieldError::UnsupportedFieldDegree);
    }
    let poly = GF2NPolynomial::from_byte(byte);
    proof {
        poly.lemma_wf_degree();
        assert(byte == 0 ==> poly@ == byte_terms(0u8));
        if byte == 0 {
            assert forall|x: nat| !byte_bit(0u8, x) by {
                if x < 8 {
                    let y = x as u8;
                    assert((0u8 >> y) & 1u8 == 0u8) by (bit_vector);
                }
            }
            assert(poly@ =~= Set::<nat>::empty());
        } else {
            assert(byte_bit(byte, 0) || byte_bit(byte, 1) || byte_bit(byte, 2) || byte_bit(byte, 3)
                || byte_bit(byte, 4) || byte_bit(byte, 5) || byte_bit(byte, 6) || byte_bit(byte, 7))
                by {
                assert(byte != 0 ==> ((byte >> 0u8) & 1u8 == 1u8 || (byte >> 1u8) & 1u8 == 1u8 || (
                byte >> 2u8) & 1u8 == 1u8 || (byte >> 3u8) & 1u8 == 1u8 || (byte >> 4u8) & 1u8
                    == 1u8 || (byte >> 5u8) & 1u8 == 1u8 || (byte >> 6u8) & 1u8 == 1u8 || (byte
                    >> 7u8) & 1u8 == 1u8)) by (bit_vector);
            }
            assert(poly@ != Set::<nat>::empty()) by {
                let i = choose|i: nat| byte_bit(byte, i);
                assert(poly@.contains(i));
            }
        }
        modulus.lemma_wf_degree();
    }
    poly.inverse(&modulus)
}

/// SubBytes: the field inverse of `byte` in GF(2^8) (0 for 0), through the affine map, plus
/// the constant 0x63.
pub fn sbox(byte: u8) -> (r: Result<u8, FieldError>)
    ensures
        byte == 0 ==> r == Ok::<u8, FieldError>(sbox_from_inverse(0)),
        r matches Ok(v) ==> (byte != 0 ==> exists|inv: u8|
            is_inverse_mod(byte_terms(inv), byte_terms(byte), aes_modulus()) && v
                == sbox_from_inverse(inv)),
        r matches Err(e) ==> e == FieldError::NotInvertible,
        (exists|w: Set<nat>| is_poly(w) && is_inverse_mod(w, byte_terms(byte), aes_modulus()))
            ==> r is Ok,
{
    if byte == 0 {
        return Ok(matrix_multiplication_subbytes(0) ^ AFFINE_CONSTANT);
    }
    let inverse = match invert_byte(byte, AES_FIELD_DEGREE) {
        Ok(p) => p,
        Err(e) => {
            return Err(e);
        },
    };
    let modulus = get_irreducible_polynomial(AES_FIELD_DEGREE);
    proof {
        inverse.lemma_wf_degree();
        modulus.lemma_wf_degree();
        if inverse.terms.len() > 0 {
            assert(inverse@.contains(inverse.degree as nat));
        }
    }
    match inverse.to_byte() {
        Some(v) => {
            let out = matrix_multiplication_subbytes(v) ^ AFFINE_CONSTANT;
            assert(is_inverse_mod(byte_terms(v), byte_terms(byte), aes_modulus()) && out
                == sbox_from_inverse(v));
            Ok(out)
        },
        None => Err(FieldError::NotInvertible),
    }
}

} // verus!
