//! Polynomials over GF(2) in a sparse, normalised representation.
use vstd::prelude::*;
use crate::algebra::{
    is_poly, lemma_add_zero, lemma_common_divisor_of_invertible, lemma_euclid_step,
    lemma_mul_one_left, lemma_poly_add, lemma_poly_mul, lemma_reduced_inverse,
    below_degree_of, bounded_by, has_degree, is_division, is_inverse_mod, lemma_add_degree,
    lemma_mul_degree, lemma_mul_add_left,
    lemma_mul_monomial_left, lemma_mul_zero_left, lemma_mul_zero_right, monomial, poly_add,
    poly_mul, poly_one, poly_zero, shift,
};

verus! {

/// Why a field operation has no result.
#[derive(Debug, Clone, Copy, PartialEq, Eq, Structural)]
pub enum FieldError {
    /// Division by the zero polynomial.
    DivisionByZero,
    /// No irreducible polynomial is known for the requested field degree.
    UnsupportedFieldDegree,
    /// The zero element has no multiplicative inverse.
    InverseOfZeroUndefined,
    /// The element shares a factor with the modulus, so it has no inverse.
    NotInvertible,
}

/// A polynomial over GF(2): `terms` holds the exponents whose coefficient is 1, strictly
/// descending, and `degree` is the largest of them (0 for the zero polynomial).
#[derive(Debug, Clone)]
pub struct GF2NPolynomial {
    pub degree: u32,
    pub terms: Vec<u8>,
}

/// The exponents that occur in `s`.
pub open spec fn seq_terms(s: Seq<u8>) -> Set<nat> {
    Set::new(|e: nat| exists|i: int| 0 <= i < s.len() && s[i] as nat == e)
}

pub open spec fn strictly_descending(s: Seq<u8>) -> bool {
    forall|i: int, j: int| 0 <= i < j < s.len() ==> s[i] > s[j]
}

/// How often `e` occurs in `s`.
pub open spec fn count(s: Seq<u8>, e: nat) -> nat
    decreases s.len(),
{
    if s.len() == 0 {
        0
    } else {
        count(s.drop_last(), e) + (if s.last() as nat == e {
            1nat
        } else {
            0nat
        })
    }
}

/// The exponents that occur an odd number of times in `s`: pairs cancel over GF(2).
pub open spec fn odd_terms(s: Seq<u8>) -> Set<nat> {
    Set::new(|e: nat| count(s, e) % 2 == 1)
}

/// Bit `i` of `b` is set.
pub open spec fn byte_bit(b: u8, i: nat) -> bool {
    i < 8 && (b >> (i as u8)) & 1u8 == 1u8
}

/// The polynomial whose coefficients are the bits of `b`: bit `i` stands for x^i.
pub open spec fn byte_terms(b: u8) -> Set<nat> {
    Set::new(|i: nat| byte_bit(b, i))
}

proof fn lemma_count_large(s: Seq<u8>, e: nat)
    requires
        e >= 256,
    ensures
        count(s, e) == 0,
    decreases s.len(),
{
    if s.len() > 0 {
        lemma_count_large(s.drop_last(), e);
    }
}

proof fn lemma_set_bit(r: u8, t: u8)
    requires
        t < 8,
    ensures
        forall|x: nat| #[trigger] byte_bit(r | (1u8 << t), x) == (byte_bit(r, x) || x == t as nat),
{
    assert forall|x: nat| #[trigger] byte_bit(r | (1u8 << t), x) == (byte_bit(r, x) || x == t as nat) by {
        if x < 8 {
            let y = x as u8;
            assert((((r | (1u8 << t)) >> y) & 1u8 == 1u8) == (((r >> y) & 1u8 == 1u8) || y == t))
                by (bit_vector)
                requires
                    t < 8,
                    y < 8,
            ;
        }
    }
}

/// The hexadecimal digits, upper case.
pub open spec fn hex_chars() -> Seq<char> {
    seq!['0', '1', '2', '3', '4', '5', '6', '7', '8', '9', 'A', 'B', 'C', 'D', 'E', 'F']
}

/// Two upper-case hexadecimal digits for `v`.
pub open spec fn hex_of(v: u8) -> Seq<char> {
    seq![hex_chars()[(v / 16) as int], hex_chars()[(v % 16) as int]]
}

/// The decimal digits of `n`, without leading zeros.
pub open spec fn decimal(n: nat) -> Seq<char>
    decreases n,
{
    if n < 10 {
        seq![hex_chars()[n as int]]
    } else {
        decimal(n / 10).push(hex_chars()[(n % 10) as int])
    }
}

/// One term written out: `1`, `x` or `x^p`.
pub open spec fn term_text(p: u8) -> Seq<char> {
    if p == 0 {
        seq!['1']
    } else if p == 1 {
        seq!['x']
    } else {
        seq!['x', '^'] + decimal(p as nat)
    }
}

/// The terms written out in order, separated by ` + `.
pub open spec fn terms_text(s: Seq<u8>) -> Seq<char>
    decreases s.len(),
{
    if s.len() == 0 {
        seq![]
    } else if s.len() == 1 {
        term_text(s[0])
    } else {
        terms_text(s.drop_last()) + seq![' ', '+', ' '] + term_text(s.last())
    }
}

/// The algebraic rendering of a polynomial: `0` for zero, else its terms.
pub open spec fn algebraic_text(s: Seq<u8>) -> Seq<char> {
    if s.len() == 0 {
        seq!['0']
    } else {
        terms_text(s)
    }
}

/// Appends the digit `d` (below 16) to `out`.
fn push_digit(out: &mut String, d: u8)
    requires
        d < 16,
    ensures
        final(out)@ == old(out)@.push(hex_chars()[d as int]),
{
    let digits = "0123456789ABCDEF";
    proof {
        reveal_strlit("0123456789ABCDEF");
        assert(digits@ =~= hex_chars());
    }
    let one = digits.substring_char(d as usize, d as usize + 1);
    assert(one@ =~= seq![hex_chars()[d as int]]);
    out.append(one);
}

impl View for GF2NPolynomial {
    type V = Set<nat>;

    open spec fn view(&self) -> Set<nat> {
        seq_terms(self.terms@)
    }
}

proof fn lemma_terms_push(s: Seq<u8>, x: u8)
    ensures
        seq_terms(s.push(x)) == seq_terms(s).insert(x as nat),
{
    let t = s.push(x);
    assert forall|e: nat| seq_terms(t).contains(e) implies seq_terms(s).insert(x as nat).contains(
        e,
    ) by {
        let i = choose|i: int| 0 <= i < t.len() && t[i] as nat == e;
        if i < s.len() {
            assert(s[i] as nat == e);
        }
    }
    assert forall|e: nat| seq_terms(s).insert(x as nat).contains(e) implies seq_terms(t).contains(
        e,
    ) by {
        if e == x as nat {
            assert(t[s.len() as int] as nat == e);
        } else {
            let i = choose|i: int| 0 <= i < s.len() && s[i] as nat == e;
            assert(t[i] as nat == e);
        }
    }
    assert(seq_terms(t) =~= seq_terms(s).insert(x as nat));
}

proof fn lemma_terms_take_next(s: Seq<u8>, i: int)
    requires
        0 <= i < s.len(),
    ensures
        seq_terms(s.take(i + 1)) == seq_terms(s.take(i)).insert(s[i] as nat),
{
    assert(s.take(i + 1) =~= s.take(i).push(s[i]));
    lemma_terms_push(s.take(i), s[i]);
}

proof fn lemma_insert_is_add(a: Set<nat>, x: nat)
    requires
        !a.contains(x),
    ensures
        a.insert(x) == poly_add(a, monomial(x)),
{
    assert(a.insert(x) =~= poly_add(a, monomial(x)));
}

proof fn lemma_degree_unique(a: Set<nat>, d1: nat, d2: nat)
    requires
        has_degree(a, d1),
        has_degree(a, d2),
    ensures
        d1 == d2,
{
}

impl GF2NPolynomial {
    /// The representation invariant.
    pub open spec fn wf(&self) -> bool {
        &&& strictly_descending(self.terms@)
        &&& self.degree == (if self.terms.len() > 0 {
            self.terms[0] as u32
        } else {
            0u32
        })
    }

    /// What the representation invariant says of the model: the degree bounds every term, and
    /// no terms means zero.
    pub proof fn lemma_wf_degree(&self)
        requires
            self.wf(),
        ensures
            bounded_by(self@, self.degree as nat),
            self.terms.len() > 0 ==> has_degree(self@, self.degree as nat),
            self.terms.len() == 0 <==> self@ == poly_zero(),
            self.degree <= 255,
    {
        if self.terms.len() > 0 {
            assert(self@.contains(self.terms[0] as nat));
            assert(self@ != poly_zero());
        } else {
            assert(self@ =~= poly_zero());
        }
    }

    /// A well-formed value models a polynomial.
    pub proof fn lemma_view_is_poly(&self)
        requires
            self.wf(),
        ensures
            is_poly(self@),
    {
        self.lemma_wf_degree();
        assert(bounded_by(self@, self.degree as nat));
    }

    /// Builds a polynomial from exponents that are already strictly descending.
    pub(crate) fn from_descending(terms: Vec<u8>) -> (r: Self)
        requires
            strictly_descending(terms@),
        ensures
            r.wf(),
            r.terms@ == terms@,
    {
        let degree: u32 = if terms.len() > 0 {
            terms[0] as u32
        } else {
            0
        };
        GF2NPolynomial { degree, terms }
    }

    /// A copy of this polynomial.
    pub fn copy(&self) -> (r: Self)
        ensures
            r.degree == self.degree,
            r.terms@ == self.terms@,
    {
        let mut terms: Vec<u8> = Vec::new();
        let mut i: usize = 0;
        while i < self.terms.len()
            invariant
                i <= self.terms.len(),
                terms@ == self.terms@.take(i as int),
            decreases self.terms.len() - i,
        {
            terms.push(self.terms[i]);
            i += 1;
            assert(terms@ =~= self.terms@.take(i as int));
        }
        assert(terms@ =~= self.terms@);
        GF2NPolynomial { degree: self.degree, terms }
    }

    /// The zero polynomial: no terms.
    pub fn zero() -> (r: Self)
        ensures
            r.wf(),
            r@ == poly_zero(),
            r.terms@.len() == 0,
    {
        let r = GF2NPolynomial { degree: 0, terms: Vec::new() };
        assert(r@ =~= poly_zero());
        r
    }

    /// The constant polynomial 1: the single exponent 0.
    pub fn one() -> (r: Self)
        ensures
            r.wf(),
            r@ == poly_one(),
            r.terms@ == seq![0u8],
    {
        let r = GF2NPolynomial { degree: 0, terms: vec![0u8] };
        assert(r.terms@ =~= seq![0u8]);
        assert(r@.contains(0nat) && r.terms[0] == 0);
        assert(r@ =~= poly_one());
        r
    }

    /// The monomial x^d.
    pub fn monomial(d: u8) -> (r: Self)
        ensures
            r.wf(),
            r@ == monomial(d as nat),
            r.degree == d,
            r.terms.len() == 1,
    {
        let r = GF2NPolynomial { degree: d as u32, terms: vec![d] };
        assert(r.terms@ =~= seq![d]);
        assert(r@.contains(d as nat) && r.terms[0] == d);
        assert(r@ =~= monomial(d as nat));
        r
    }

    /// True when this is the constant polynomial 1.
    pub fn is_one(&self) -> (r: bool)
        requires
            self.wf(),
        ensures
            r == (self@ == poly_one()),
    {
        proof {
            self.lemma_wf_degree();
        }
        if self.terms.len() == 1 && self.terms[0] == 0 {
            assert(self@ =~= poly_one());
            true
        } else {
            assert(poly_one().contains(0nat));
            if self.terms.len() > 0 {
                if self.terms.len() > 1 {
                    assert(self.terms[0] > self.terms[1]);
                }
                assert(self.terms[0] != 0);
                assert(self@.contains(self.terms[0] as nat));
                assert(!poly_one().contains(self.terms[0] as nat));
            }
            false
        }
    }

    /// Sum over GF(2): the exponents present in exactly one operand.
    fn xor(&self, rhs: &Self) -> (r: Self)
        requires
            self.wf(),
            rhs.wf(),
        ensures
            r.wf(),
            r@ == poly_add(self@, rhs@),
    {
        let a = &self.terms;
        let b = &rhs.terms;
        let mut out: Vec<u8> = Vec::new();
        let mut i: usize = 0;
        let mut j: usize = 0;
        while i < a.len() || j < b.len()
            invariant
                i <= a.len(),
                j <= b.len(),
                strictly_descending(a@),
                strictly_descending(b@),
                strictly_descending(out@),
                forall|k: int| 0 <= k < out.len() ==> (i < a.len() ==> out[k] > a[i as int]) && (j
                    < b.len() ==> out[k] > b[j as int]),
                forall|k: int| 0 <= k < i ==> (j < b.len() ==> a[k] > b[j as int]),
                forall|k: int| 0 <= k < j ==> (i < a.len() ==> b[k] > a[i as int]),
                seq_terms(out@) == poly_add(
                    seq_terms(a@.take(i as int)),
                    seq_terms(b@.take(j as int)),
                ),
            decreases a.len() - i + b.len() - j,
        {
            let ghost sa = seq_terms(a@.take(i as int));
            let ghost sb = seq_terms(b@.take(j as int));
            let ghost old_out = out@;
            if j >= b.len() || (i < a.len() && a[i] > b[j]) {
                proof {
                    lemma_terms_take_next(a@, i as int);
                    lemma_terms_push(out@, a[i as int]);
                    assert(!sb.contains(a[i as int] as nat));
                    assert(!sa.contains(a[i as int] as nat));
                }
                out.push(a[i]);
                i += 1;
                proof {
                    assert(seq_terms(out@) =~= poly_add(
                        seq_terms(a@.take(i as int)),
                        seq_terms(b@.take(j as int)),
                    ));
                }
            } else if i >= a.len() || b[j] > a[i] {
                proof {
                    lemma_terms_take_next(b@, j as int);
                    lemma_terms_push(out@, b[j as int]);
                    assert(!sb.contains(b[j as int] as nat));
                    assert(!sa.contains(b[j as int] as nat));
                }
                out.push(b[j]);
                j += 1;
                proof {
                    assert(seq_terms(out@) =~= poly_add(
                        seq_terms(a@.take(i as int)),
                        seq_terms(b@.take(j as int)),
                    ));
                }
            } else {
                proof {
                    lemma_terms_take_next(a@, i as int);
                    lemma_terms_take_next(b@, j as int);
                    assert(!sb.contains(b[j as int] as nat));
                    assert(!sa.contains(a[i as int] as nat));
                }
                i += 1;
                j += 1;
                proof {
                    assert(seq_terms(out@) =~= poly_add(
                        seq_terms(a@.take(i as int)),
                        seq_terms(b@.take(j as int)),
                    ));
                }
            }
        }
        assert(a@.take(a.len() as int) =~= a@);
        assert(b@.take(b.len() as int) =~= b@);
        Self::from_descending(out)
    }

    /// This polynomial times x^d.
    fn shifted(&self, d: u8) -> (r: Self)
        requires
            self.wf(),
            self.terms.len() > 0 ==> self.degree + d <= 255,
        ensures
            r.wf(),
            r@ == shift(self@, d as nat),
    {
        let mut out: Vec<u8> = Vec::new();
        let mut i: usize = 0;
        while i < self.terms.len()
            invariant
                self.wf(),
                self.terms.len() > 0 ==> self.degree + d <= 255,
                i <= self.terms.len(),
                out.len() == i,
                forall|k: int| 0 <= k < i ==> out[k] == self.terms[k] + d,
            decreases self.terms.len() - i,
        {
            assert(self.terms[i as int] <= self.terms[0]);
            out.push(self.terms[i] + d);
            i += 1;
        }
        proof {
            assert forall|e: nat| seq_terms(out@).contains(e) implies shift(self@, d as nat).contains(
                e,
            ) by {
                let k = choose|k: int| 0 <= k < out.len() && out[k] as nat == e;
                assert(self.terms[k] as nat == (e - d) as nat);
            }
            assert forall|e: nat| shift(self@, d as nat).contains(e) implies seq_terms(
                out@,
            ).contains(e) by {
                let k = choose|k: int|
                    0 <= k < self.terms.len() && self.terms[k] as nat == (e - d) as nat;
                assert(out[k] as nat == e);
            }
            assert(seq_terms(out@) =~= shift(self@, d as nat));
        }
        Self::from_descending(out)
    }

    /// Sum over GF(2).
    pub fn add(&self, rhs: &Self) -> (r: Self)
        requires
            self.wf(),
            rhs.wf(),
        ensures
            r.wf(),
            r@ == poly_add(self@, rhs@),
    {
        self.xor(rhs)
    }

    /// Difference over GF(2), which is the sum.
    pub fn sub(&self, rhs: &Self) -> (r: Self)
        requires
            self.wf(),
            rhs.wf(),
        ensures
            r.wf(),
            r@ == poly_add(self@, rhs@),
    {
        self.xor(rhs)
    }

    /// Product over GF(2). Exponents are bytes, so the degrees must sum to at most 255.
    pub fn mul(&self, rhs: &Self) -> (r: Self)
        requires
            self.wf(),
            rhs.wf(),
            self.terms.len() > 0 && rhs.terms.len() > 0 ==> self.degree + rhs.degree <= 255,
        ensures
            r.wf(),
            r@ == poly_mul(self@, rhs@),
    {
        proof {
            self.lemma_wf_degree();
            rhs.lemma_wf_degree();
        }
        if self.terms.len() == 0 || rhs.terms.len() == 0 {
            proof {
                lemma_mul_zero_left(rhs@);
                lemma_mul_zero_right(self@);
            }
            return Self::zero();
        }
        let a = &self.terms;
        let mut acc = Self::zero();
        let mut i: usize = 0;
        assert(seq_terms(a@.take(0)) =~= poly_zero());
        proof {
            lemma_mul_zero_left(rhs@);
        }
        while i < a.len()
            invariant
                self.wf(),
                rhs.wf(),
                a == &self.terms,
                a.len() > 0,
                rhs.terms.len() > 0,
                self.degree + rhs.degree <= 255,
                i <= a.len(),
                acc.wf(),
                acc@ == poly_mul(seq_terms(a@.take(i as int)), rhs@),
            decreases a.len() - i,
        {
            let ghost prev = seq_terms(a@.take(i as int));
            proof {
                lemma_terms_take_next(a@, i as int);
                assert(!prev.contains(a[i as int] as nat)) by {
                    if prev.contains(a[i as int] as nat) {
                        let k = choose|k: int| 0 <= k < i && a@.take(i as int)[k] as nat == a[i as int] as nat;
                        assert(a[k] > a[i as int]);
                    }
                }
                lemma_insert_is_add(prev, a[i as int] as nat);
                lemma_mul_add_left(prev, monomial(a[i as int] as nat), rhs@);
                lemma_mul_monomial_left(a[i as int] as nat, rhs@);
                assert(a[i as int] <= a[0]);
            }
            let s = rhs.shifted(a[i]);
            acc = acc.xor(&s);
            i += 1;
        }
        assert(a@.take(a.len() as int) =~= a@);
        acc
    }

    /// Long division over GF(2): `(quotient, remainder)` with `self == quotient·rhs + remainder`
    /// and the remainder zero or of lower degree than `rhs`.
    pub fn div(&self, rhs: &Self) -> (r: Result<(Self, Self), FieldError>)
        requires
            self.wf(),
            rhs.wf(),
        ensures
            rhs@ == poly_zero() <==> r == Err::<(Self, Self), FieldError>(FieldError::DivisionByZero),
            rhs@ != poly_zero() ==> r is Ok,
            r matches Ok((q, rem)) ==> {
                &&& q.wf()
                &&& rem.wf()
                &&& is_division(self@, rhs@, q@, rem@)
                &&& self.degree < rhs.degree ==> q@ == poly_zero() && rem@ == self@
                &&& self.terms.len() > 0 && self.degree >= rhs.degree ==> has_degree(
                    q@,
                    (self.degree - rhs.degree) as nat,
                )
            },
    {
        proof {
            self.lemma_wf_degree();
            rhs.lemma_wf_degree();
        }
        if rhs.terms.len() == 0 {
            return Err(FieldError::DivisionByZero);
        }
        let mut quotient = Self::zero();
        let mut remainder = self.copy();
        proof {
            lemma_mul_zero_left(rhs@);
            assert(poly_add(poly_mul(quotient@, rhs@), remainder@) =~= self@);
        }
        if rhs.degree > self.degree {
            proof {
                assert forall|e: nat, d: nat| remainder@.contains(e) && has_degree(rhs@, d) implies e
                    < d by {
                    lemma_degree_unique(rhs@, d, rhs.degree as nat);
                }
            }
            return Ok((quotient, remainder));
        }
        let ghost top = (self.degree - rhs.degree) as nat;
        while remainder.terms.len() > 0 && remainder.degree >= rhs.degree
            invariant
                self.wf(),
                rhs.wf(),
                rhs.terms.len() > 0,
                has_degree(rhs@, rhs.degree as nat),
                self.degree >= rhs.degree,
                top == self.degree - rhs.degree,
                quotient.wf(),
                remainder.wf(),
                self@ == poly_add(poly_mul(quotient@, rhs@), remainder@),
                (quotient@ == poly_zero() && remainder.terms@ == self.terms@ && remainder.degree
                    == self.degree) || (has_degree(quotient@, top) && (remainder.terms.len() > 0
                    ==> remainder.degree < self.degree)),
            decreases (if remainder.terms.len() == 0 {
                0
            } else {
                remainder.degree + 1
            }),
        {
            proof {
                remainder.lemma_wf_degree();
            }
            let d: u8 = (remainder.degree - rhs.degree) as u8;
            let term = Self::monomial(d);
            let ghost q_old = quotient@;
            let ghost r_old = remainder@;
            let ghost dr = remainder.degree as nat;
            quotient = quotient.add(&term);
            let product = term.mul(rhs);
            remainder = remainder.sub(&product);
            proof {
                lemma_mul_add_left(q_old, monomial(d as nat), rhs@);
                lemma_mul_monomial_left(d as nat, rhs@);
                assert(self@ =~= poly_add(poly_mul(quotient@, rhs@), remainder@));
                // the leading term cancels, and nothing above it appears
                assert(!remainder@.contains(dr));
                assert(bounded_by(remainder@, dr));
                remainder.lemma_wf_degree();
                if remainder.terms.len() > 0 {
                    assert(remainder@.contains(remainder.degree as nat));
                }
                if q_old == poly_zero() {
                    assert(quotient@ =~= monomial(top));
                } else {
                    lemma_add_degree(q_old, monomial(d as nat), top, d as nat);
                }
            }
        }
        proof {
            remainder.lemma_wf_degree();
            assert forall|e: nat, d: nat| remainder@.contains(e) && has_degree(rhs@, d) implies e
                < d by {
                lemma_degree_unique(rhs@, d, rhs.degree as nat);
            }
            if self.terms.len() > 0 && quotient@ == poly_zero() {
                assert(remainder.terms.len() > 0);
            }
        }
        Ok((quotient, remainder))
    }

    /// Normalises a list of exponents: those occurring an odd number of times remain, in
    /// descending order.
    pub fn new(terms: Vec<u8>) -> (r: Self)
        ensures
            r.wf(),
            r@ == odd_terms(terms@),
    {
        let mut out: Vec<u8> = Vec::new();
        let mut e: u16 = 256;
        while e > 0
            invariant
                e <= 256,
                strictly_descending(out@),
                forall|k: int| 0 <= k < out.len() ==> out[k] >= e,
                seq_terms(out@) == Set::new(
                    |x: nat| e <= x < 256 && count(terms@, x) % 2 == 1,
                ),
            decreases e,
        {
            e -= 1;
            let ex: u8 = e as u8;
            let mut odd = false;
            let mut j: usize = 0;
            while j < terms.len()
                invariant
                    j <= terms.len(),
                    odd == (count(terms@.take(j as int), ex as nat) % 2 == 1),
                decreases terms.len() - j,
            {
                assert(terms@.take(j as int + 1).drop_last() =~= terms@.take(j as int));
                if terms[j] == ex {
                    odd = !odd;
                }
                j += 1;
            }
            assert(terms@.take(terms.len() as int) =~= terms@);
            let ghost before = out@;
            if odd {
                out.push(ex);
                proof {
                    lemma_terms_push(before, ex);
                }
            }
            assert(seq_terms(out@) =~= Set::new(
                |x: nat| e <= x < 256 && count(terms@, x) % 2 == 1,
            ));
        }
        proof {
            assert forall|x: nat| odd_terms(terms@).contains(x) implies x < 256 by {
                if x >= 256 {
                    lemma_count_large(terms@, x);
                }
            }
            assert(seq_terms(out@) =~= odd_terms(terms@));
        }
        Self::from_descending(out)
    }

    /// The polynomial whose coefficients are the bits of `byte`.
    pub fn from_byte(byte: u8) -> (r: Self)
        ensures
            r.wf(),
            r@ == byte_terms(byte),
            r.degree < 8,
    {
        let mut out: Vec<u8> = Vec::new();
        let mut i: u8 = 8;
        while i > 0
            invariant
                i <= 8,
                strictly_descending(out@),
                forall|k: int| 0 <= k < out.len() ==> i <= #[trigger] out[k] < 8,
                seq_terms(out@) == Set::new(|x: nat| i <= x && byte_bit(byte, x)),
            decreases i,
        {
            i -= 1;
            let ghost before = out@;
            if (byte >> i) & 1 == 1 {
                out.push(i);
                proof {
                    lemma_terms_push(before, i);
                }
            }
            assert(seq_terms(out@) =~= Set::new(|x: nat| i <= x && byte_bit(byte, x)));
        }
        assert(seq_terms(out@) =~= byte_terms(byte));
        Self::from_descending(out)
    }

    /// The byte whose bits are the coefficients, or `None` when an exponent is 8 or more.
    pub fn to_byte(&self) -> (r: Option<u8>)
        requires
            self.wf(),
        ensures
            r is None <==> (self.terms.len() > 0 && self.degree >= 8),
            r matches Some(v) ==> byte_terms(v) == self@,
    {
        proof {
            self.lemma_wf_degree();
        }
        if self.terms.len() > 0 && self.degree >= 8 {
            return None;
        }
        let mut res: u8 = 0;
        let mut k: usize = 0;
        assert(byte_terms(0u8) =~= seq_terms(self.terms@.take(0))) by {
            assert forall|x: nat| !byte_bit(0u8, x) by {
                if x < 8 {
                    let y = x as u8;
                    assert((0u8 >> y) & 1u8 == 0u8) by (bit_vector);
                }
            }
        }
        while k < self.terms.len()
            invariant
                self.wf(),
                self.terms.len() > 0 ==> self.degree < 8,
                k <= self.terms.len(),
                byte_terms(res) == seq_terms(self.terms@.take(k as int)),
            decreases self.terms.len() - k,
        {
            let t = self.terms[k];
            assert(t <= self.terms[0]);
            proof {
                lemma_set_bit(res, t);
                lemma_terms_take_next(self.terms@, k as int);
            }
            let ghost prev = res;
            res = res | (1u8 << t);
            assert(byte_terms(res) =~= byte_terms(prev).insert(t as nat));
            k += 1;
        }
        assert(self.terms@.take(self.terms.len() as int) =~= self.terms@);
        Some(res)
    }

    /// The multiplicative inverse of this polynomial modulo `irreducible_polynomial`, by the
    /// Extended Euclidean Algorithm, reduced below the modulus and checked before it is returned.
    /// It succeeds whenever an inverse exists, which for an irreducible modulus is whenever the
    /// element is not a multiple of it.
    pub fn inverse(&self, irreducible_polynomial: &Self) -> (r: Result<Self, FieldError>)
        requires
            self.wf(),
            irreducible_polynomial.wf(),
            self.degree + irreducible_polynomial.degree <= 256,
        ensures
            r == Err::<Self, FieldError>(FieldError::DivisionByZero) <==> irreducible_polynomial@
                == poly_zero(),
            r == Err::<Self, FieldError>(FieldError::InverseOfZeroUndefined) <==> (
            irreducible_polynomial@ != poly_zero() && self@ == poly_zero()),
            r matches Err(e) ==> e != FieldError::UnsupportedFieldDegree,
            r matches Ok(v) ==> {
                &&& v.wf()
                &&& is_inverse_mod(v@, self@, irreducible_polynomial@)
                &&& below_degree_of(v@, irreducible_polynomial@)
            },
            irreducible_polynomial.degree > 0 && (exists|w: Set<nat>|
                is_poly(w) && is_inverse_mod(w, self@, irreducible_polynomial@)) ==> r is Ok,
    {
        let m = irreducible_polynomial;
        proof {
            self.lemma_wf_degree();
            m.lemma_wf_degree();
            self.lemma_view_is_poly();
            m.lemma_view_is_poly();
            assert(bounded_by(poly_one(), 0));
            assert(bounded_by(poly_zero(), 0));
        }
        let ghost invertible = m.degree > 0 && (exists|w: Set<nat>|
            is_poly(w) && is_inverse_mod(w, self@, m@));
        let ghost wit = if invertible {
            choose|w: Set<nat>| is_poly(w) && is_inverse_mod(w, self@, m@)
        } else {
            poly_zero()
        };
        let ghost qwit = if invertible {
            choose|q: Set<nat>|
                is_poly(q) && poly_mul(wit, self@) == poly_add(poly_mul(q, m@), poly_one())
        } else {
            poly_zero()
        };
        if m.terms.len() == 0 {
            return Err(FieldError::DivisionByZero);
        }
        if self.terms.len() == 0 {
            proof {
                if invertible {
                    lemma_add_zero(poly_zero());
                    lemma_mul_zero_right(wit);
                    lemma_mul_one_left(m@);
                    lemma_mul_zero_left(m@);
                    lemma_common_divisor_of_invertible(
                        self@, m@, poly_zero(), poly_zero(), m@, poly_one(), poly_zero(), wit,
                        qwit,
                    );
                }
            }
            return Err(FieldError::InverseOfZeroUndefined);
        }
        let (q0, reduced) = match self.div(m) {
            Ok(qr) => qr,
            Err(e) => {
                return Err(e);
            },
        };
        proof {
            q0.lemma_view_is_poly();
            reduced.lemma_view_is_poly();
        }
        let ghost b0 = reduced@;
        if reduced.terms.len() == 0 {
            proof {
                reduced.lemma_wf_degree();
                if invertible {
                    lemma_mul_one_left(m@);
                    lemma_mul_zero_left(m@);
                    lemma_common_divisor_of_invertible(
                        self@, m@, q0@, b0, m@, poly_one(), poly_zero(), wit, qwit,
                    );
                    assert(poly_one().contains(m.degree as nat));
                }
            }
            return Err(FieldError::NotInvertible);
        }
        proof {
            reduced.lemma_wf_degree();
            assert(reduced.degree < m.degree);
        }
        let ghost dm = m.degree as nat;
        let mut a = m.copy();
        let mut b = reduced;
        let mut t1 = Self::zero();
        let mut t2 = Self::one();
        let ghost mut s1 = poly_one();
        let ghost mut s2 = poly_zero();
        let ghost mut u1 = poly_one();
        let ghost mut u2 = poly_zero();
        let ghost mut v1 = poly_zero();
        let ghost mut v2 = poly_one();
        proof {
            lemma_mul_zero_left(b0);
            lemma_mul_one_left(m@);
            lemma_mul_one_left(b0);
            lemma_mul_zero_left(m@);
            lemma_mul_zero_left(b0);
            lemma_add_zero(m@);
            lemma_add_zero(b0);
            assert(poly_one().contains(0nat) && bounded_by(poly_one(), 0));
            assert(bounded_by(poly_zero(), 0));
        }
        while b.terms.len() > 0
            invariant
                a.wf(),
                b.wf(),
                t1.wf(),
                t2.wf(),
                dm <= 255,
                dm == m.degree,
                a.terms.len() > 0,
                b.terms.len() > 0 ==> b.degree < a.degree,
                t2.terms.len() > 0,
                t2.degree + a.degree == dm,
                t1.terms.len() > 0 ==> t1.degree < t2.degree,
                is_poly(s1),
                is_poly(s2),
                is_poly(u1),
                is_poly(u2),
                is_poly(v1),
                is_poly(v2),
                poly_add(poly_mul(t1@, b0), poly_mul(s1, m@)) == a@,
                poly_add(poly_mul(t2@, b0), poly_mul(s2, m@)) == b@,
                m@ == poly_add(poly_mul(u1, a@), poly_mul(u2, b@)),
                b0 == poly_add(poly_mul(v1, a@), poly_mul(v2, b@)),
            decreases (if b.terms.len() == 0 {
                0
            } else {
                b.degree + 1
            }),
        {
            proof {
                a.lemma_wf_degree();
                b.lemma_wf_degree();
                t1.lemma_wf_degree();
                t2.lemma_wf_degree();
            }
            let (q, rem) = match a.div(&b) {
                Ok(qr) => qr,
                Err(e) => {
                    return Err(e);
                },
            };
            proof {
                q.lemma_wf_degree();
                rem.lemma_wf_degree();
                q.lemma_view_is_poly();
                lemma_degree_unique(q@, q.degree as nat, (a.degree - b.degree) as nat);
                lemma_mul_degree(q@, t2@, q.degree as nat, t2.degree as nat);
            }
            let p = q.mul(&t2);
            let s = t1.sub(&p);
            proof {
                p.lemma_wf_degree();
                lemma_degree_unique(p@, p.degree as nat, (q.degree + t2.degree) as nat);
                lemma_add_degree(p@, t1@, p.degree as nat, t2.degree as nat);
                s.lemma_wf_degree();
                lemma_degree_unique(s@, s.degree as nat, p.degree as nat);
                if rem.terms.len() > 0 {
                    assert(rem@.contains(rem.degree as nat));
                }
                lemma_euclid_step(
                    t1@, t2@, s1, s2, u1, u2, v1, v2, b0, m@, a@, b@, q@, rem@,
                );
                lemma_poly_mul(q@, s2);
                lemma_poly_add(s1, poly_mul(q@, s2));
                lemma_poly_mul(u1, q@);
                lemma_poly_add(poly_mul(u1, q@), u2);
                lemma_poly_mul(v1, q@);
                lemma_poly_add(poly_mul(v1, q@), v2);
                let ns2 = poly_add(s1, poly_mul(q@, s2));
                let nu1 = poly_add(poly_mul(u1, q@), u2);
                let nv1 = poly_add(poly_mul(v1, q@), v2);
                s1 = s2;
                s2 = ns2;
                u2 = u1;
                u1 = nu1;
                v2 = v1;
                v1 = nv1;
            }
            a = b;
            b = rem;
            t1 = t2;
            t2 = s;
        }
        proof {
            a.lemma_view_is_poly();
            t1.lemma_view_is_poly();
            b.lemma_wf_degree();
            lemma_mul_zero_right(u2);
            lemma_mul_zero_right(v2);
            lemma_add_zero(poly_mul(u1, a@));
            lemma_add_zero(poly_mul(v1, a@));
            if invertible {
                lemma_common_divisor_of_invertible(self@, m@, q0@, b0, a@, u1, v1, wit, qwit);
            }
        }
        let (q1, candidate) = match t1.div(m) {
            Ok(qr) => qr,
            Err(e) => {
                return Err(e);
            },
        };
        proof {
            candidate.lemma_wf_degree();
            candidate.lemma_view_is_poly();
            q1.lemma_view_is_poly();
            if candidate.terms.len() > 0 {
                assert(candidate@.contains(candidate.degree as nat));
            }
        }
        let product = candidate.mul(self);
        match product.div(m) {
            Ok((qp, rem)) => {
                proof {
                    qp.lemma_view_is_poly();
                    rem.lemma_wf_degree();
                    if invertible {
                        lemma_reduced_inverse(
                            self@, m@, dm, q0@, b0, t1@, s1, q1@, candidate@, qp@, rem@,
                        );
                    }
                }
                if rem.is_one() {
                    Ok(candidate)
                } else {
                    Err(FieldError::NotInvertible)
                }
            },
            Err(e) => Err(e),
        }
    }

    /// The coefficients as two upper-case hexadecimal digits; the polynomial must fit a byte.
    pub fn hex_string(&self) -> (r: String)
        requires
            self.wf(),
            self.terms.len() == 0 || self.degree < 8,
        ensures
            exists|v: u8| byte_terms(v) == self@ && r@ == hex_of(v),
    {
        let byte = match self.to_byte() {
            Some(v) => v,
            None => 0,
        };
        let mut out = String::new();
        push_digit(&mut out, byte / 16);
        push_digit(&mut out, byte % 16);
        assert(out@ =~= hex_of(byte));
        out
    }

    /// The polynomial written out, highest term first: `x^8 + x^4 + x^3 + x + 1`; `0` for zero.
    pub fn algebraic_string(&self) -> (r: String)
        ensures
            r@ == algebraic_text(self.terms@),
    {
        let mut out = String::new();
        if self.terms.len() == 0 {
            push_digit(&mut out, 0);
            assert(out@ =~= seq!['0']);
            return out;
        }
        let mut i: usize = 0;
        while i < self.terms.len()
            invariant
                i <= self.terms.len(),
                out@ == terms_text(self.terms@.take(i as int)),
            decreases self.terms.len() - i,
        {
            let ghost before = out@;
            let ghost t = self.terms@.take(i as int + 1);
            assert(t.drop_last() =~= self.terms@.take(i as int));
            if i > 0 {
                let sep = " + ";
                proof {
                    reveal_strlit(" + ");
                }
                out.append(sep);
            }
            let p = self.terms[i];
            if p == 0 {
                let one = "1";
                proof {
                    reveal_strlit("1");
                }
                out.append(one);
            } else if p == 1 {
                let x = "x";
                proof {
                    reveal_strlit("x");
                }
                out.append(x);
            } else {
                let x = "x^";
                proof {
                    reveal_strlit("x^");
                }
                out.append(x);
                let ghost mid = out@;
                if p >= 100 {
                    push_digit(&mut out, p / 100);
                }
                if p >= 10 {
                    push_digit(&mut out, (p / 10) % 10);
                }
                push_digit(&mut out, p % 10);
                proof {
                    reveal_with_fuel(decimal, 3);
                    if p >= 100 {
                        assert((p / 10) / 10 == p / 100);
                        assert(mid + decimal(p as nat) =~= out@);
                    } else if p >= 10 {
                        assert(mid + decimal(p as nat) =~= out@);
                    } else {
                        assert(mid + decimal(p as nat) =~= out@);
                    }
                }
            }
            proof {
                if i == 0 {
                    assert(out@ =~= terms_text(t));
                } else {
                    assert(out@ =~= terms_text(t));
                }
            }
            i += 1;
        }
        assert(self.terms@.take(self.terms.len() as int) =~= self.terms@);
        out
    }
}

impl PartialEq for GF2NPolynomial {
    /// Equal degree fields and equal term lists.
    fn eq(&self, other: &GF2NPolynomial) -> (r: bool) {
        if self.degree != other.degree || self.terms.len() != other.terms.len() {
            return false;
        }
        let mut i: usize = 0;
        while i < self.terms.len()
            invariant
                i <= self.terms.len(),
                self.terms.len() == other.terms.len(),
                forall|k: int| 0 <= k < i ==> self.terms[k] == other.terms[k],
            decreases self.terms.len() - i,
        {
            if self.terms[i] != other.terms[i] {
                return false;
            }
            i += 1;
        }
        assert(self.terms@ =~= other.terms@);
        true
    }
}

impl vstd::std_specs::cmp::PartialEqSpecImpl for GF2NPolynomial {
    open spec fn obeys_eq_spec() -> bool {
        true
    }

    open spec fn eq_spec(&self, other: &GF2NPolynomial) -> bool {
        self.degree == other.degree && self.terms@ == other.terms@
    }
}

} // verus!
