//! Polynomials over GF(2), modelled as the set of exponents whose coefficient is 1.
use vstd::prelude::*;

verus! {

/// The sum (and, equally, the difference) of two polynomials: the exponents present in
/// exactly one of them.
pub open spec fn poly_add(a: Set<nat>, b: Set<nat>) -> Set<nat> {
    Set::new(|e: nat| a.contains(e) != b.contains(e))
}

pub open spec fn poly_zero() -> Set<nat> {
    Set::empty()
}

pub open spec fn poly_one() -> Set<nat> {
    set![0nat]
}

/// The monomial x^d.
pub open spec fn monomial(d: nat) -> Set<nat> {
    set![d]
}

/// a · x^d
pub open spec fn shift(a: Set<nat>, d: nat) -> Set<nat> {
    Set::new(|e: nat| e >= d && a.contains((e - d) as nat))
}

/// Parity of the number of `i < n` with `i` in `a` and `k - i` in `b`: the coefficient of x^k
/// in `a · b` once `n > k`.
pub open spec fn conv(a: Set<nat>, b: Set<nat>, k: nat, n: nat) -> bool
    decreases n,
{
    if n == 0 {
        false
    } else {
        let i = (n - 1) as nat;
        conv(a, b, k, i) != (i <= k && a.contains(i) && b.contains((k - i) as nat))
    }
}

/// The product of two polynomials over GF(2).
pub open spec fn poly_mul(a: Set<nat>, b: Set<nat>) -> Set<nat> {
    Set::new(|k: nat| conv(a, b, k, k + 1))
}

/// Every exponent of `a` is at most `d`.
pub open spec fn bounded_by(a: Set<nat>, d: nat) -> bool {
    forall|e: nat| a.contains(e) ==> e <= d
}

/// `a` is nonzero of degree `d`.
pub open spec fn has_degree(a: Set<nat>, d: nat) -> bool {
    a.contains(d) && bounded_by(a, d)
}

/// `r` is a valid remainder for division by `b`: zero, or of degree below that of `b`.
pub open spec fn below_degree_of(r: Set<nat>, b: Set<nat>) -> bool {
    forall|e: nat, d: nat| r.contains(e) && has_degree(b, d) ==> e < d
}

/// `q` and `r` are a quotient and remainder of `a` by `b`: `a == q·b + r` with `r` reduced.
pub open spec fn is_division(a: Set<nat>, b: Set<nat>, q: Set<nat>, r: Set<nat>) -> bool {
    &&& a == poly_add(poly_mul(q, b), r)
    &&& below_degree_of(r, b)
}

/// `a` is a polynomial: it has finitely many terms, all below some bound.
pub open spec fn is_poly(a: Set<nat>) -> bool {
    exists|d: nat| bounded_by(a, d)
}

/// `r` is the inverse of `b` modulo `m`: `r·b == q·m + 1` for some polynomial `q`.
pub open spec fn is_inverse_mod(r: Set<nat>, b: Set<nat>, m: Set<nat>) -> bool {
    exists|q: Set<nat>| is_poly(q) && poly_mul(r, b) == poly_add(poly_mul(q, m), poly_one())
}

/// Addition is involutive: `a + a == 0`.
pub proof fn lemma_add_self(a: Set<nat>)
    ensures
        poly_add(a, a) == poly_zero(),
{
    assert(poly_add(a, a) =~= poly_zero());
}

/// Zero is the identity of addition.
pub proof fn lemma_add_zero(a: Set<nat>)
    ensures
        poly_add(a, poly_zero()) == a,
        poly_add(poly_zero(), a) == a,
{
    assert(poly_add(a, poly_zero()) =~= a);
    assert(poly_add(poly_zero(), a) =~= a);
}

/// Addition is commutative.
pub proof fn lemma_add_comm(a: Set<nat>, b: Set<nat>)
    ensures
        poly_add(a, b) == poly_add(b, a),
{
    assert(poly_add(a, b) =~= poly_add(b, a));
}

/// Addition is associative.
pub proof fn lemma_add_assoc(a: Set<nat>, b: Set<nat>, c: Set<nat>)
    ensures
        poly_add(poly_add(a, b), c) == poly_add(a, poly_add(b, c)),
{
    assert(poly_add(poly_add(a, b), c) =~= poly_add(a, poly_add(b, c)));
}

proof fn lemma_conv_add_left(a: Set<nat>, b: Set<nat>, c: Set<nat>, k: nat, n: nat)
    ensures
        conv(poly_add(a, b), c, k, n) == (conv(a, c, k, n) != conv(b, c, k, n)),
    decreases n,
{
    if n > 0 {
        lemma_conv_add_left(a, b, c, k, (n - 1) as nat);
    }
}

proof fn lemma_conv_add_right(a: Set<nat>, b: Set<nat>, c: Set<nat>, k: nat, n: nat)
    ensures
        conv(a, poly_add(b, c), k, n) == (conv(a, b, k, n) != conv(a, c, k, n)),
    decreases n,
{
    if n > 0 {
        lemma_conv_add_right(a, b, c, k, (n - 1) as nat);
    }
}

/// Multiplication distributes over addition on the left operand.
pub proof fn lemma_mul_add_left(a: Set<nat>, b: Set<nat>, c: Set<nat>)
    ensures
        poly_mul(poly_add(a, b), c) == poly_add(poly_mul(a, c), poly_mul(b, c)),
{
    assert forall|k: nat|
        poly_mul(poly_add(a, b), c).contains(k) == poly_add(
            poly_mul(a, c),
            poly_mul(b, c),
        ).contains(k) by {
        lemma_conv_add_left(a, b, c, k, k + 1);
    }
    assert(poly_mul(poly_add(a, b), c) =~= poly_add(poly_mul(a, c), poly_mul(b, c)));
}

/// Multiplication distributes over addition: `a·(b + c) == a·b + a·c`.
pub proof fn lemma_mul_distributes(a: Set<nat>, b: Set<nat>, c: Set<nat>)
    ensures
        poly_mul(a, poly_add(b, c)) == poly_add(poly_mul(a, b), poly_mul(a, c)),
{
    assert forall|k: nat|
        poly_mul(a, poly_add(b, c)).contains(k) == poly_add(
            poly_mul(a, b),
            poly_mul(a, c),
        ).contains(k) by {
        lemma_conv_add_right(a, b, c, k, k + 1);
    }
    assert(poly_mul(a, poly_add(b, c)) =~= poly_add(poly_mul(a, b), poly_mul(a, c)));
}

proof fn lemma_conv_zero_left(b: Set<nat>, k: nat, n: nat)
    ensures
        !conv(poly_zero(), b, k, n),
    decreases n,
{
    if n > 0 {
        lemma_conv_zero_left(b, k, (n - 1) as nat);
    }
}

/// Zero times anything is zero.
pub proof fn lemma_mul_zero_left(b: Set<nat>)
    ensures
        poly_mul(poly_zero(), b) == poly_zero(),
{
    assert forall|k: nat| !poly_mul(poly_zero(), b).contains(k) by {
        lemma_conv_zero_left(b, k, k + 1);
    }
    assert(poly_mul(poly_zero(), b) =~= poly_zero());
}

proof fn lemma_conv_zero_right(a: Set<nat>, k: nat, n: nat)
    ensures
        !conv(a, poly_zero(), k, n),
    decreases n,
{
    if n > 0 {
        lemma_conv_zero_right(a, k, (n - 1) as nat);
    }
}

/// Anything times zero is zero.
pub proof fn lemma_mul_zero_right(a: Set<nat>)
    ensures
        poly_mul(a, poly_zero()) == poly_zero(),
{
    assert forall|k: nat| !poly_mul(a, poly_zero()).contains(k) by {
        lemma_conv_zero_right(a, k, k + 1);
    }
    assert(poly_mul(a, poly_zero()) =~= poly_zero());
}

proof fn lemma_conv_monomial_left(d: nat, b: Set<nat>, k: nat, n: nat)
    ensures
        conv(monomial(d), b, k, n) == (d < n && d <= k && b.contains((k - d) as nat)),
    decreases n,
{
    if n > 0 {
        lemma_conv_monomial_left(d, b, k, (n - 1) as nat);
    }
}

/// `x^d · b` is `b` shifted up by `d`.
pub proof fn lemma_mul_monomial_left(d: nat, b: Set<nat>)
    ensures
        poly_mul(monomial(d), b) == shift(b, d),
{
    assert forall|k: nat| poly_mul(monomial(d), b).contains(k) == shift(b, d).contains(k) by {
        lemma_conv_monomial_left(d, b, k, k + 1);
    }
    assert(poly_mul(monomial(d), b) =~= shift(b, d));
}

proof fn lemma_conv_above(a: Set<nat>, b: Set<nat>, da: nat, db: nat, k: nat, n: nat)
    requires
        bounded_by(a, da),
        bounded_by(b, db),
        k > da + db,
    ensures
        !conv(a, b, k, n),
    decreases n,
{
    if n > 0 {
        lemma_conv_above(a, b, da, db, k, (n - 1) as nat);
    }
}

proof fn lemma_conv_top(a: Set<nat>, b: Set<nat>, da: nat, db: nat, n: nat)
    requires
        has_degree(a, da),
        has_degree(b, db),
    ensures
        conv(a, b, da + db, n) == (n > da),
    decreases n,
{
    if n > 0 {
        lemma_conv_top(a, b, da, db, (n - 1) as nat);
        let i = (n - 1) as nat;
        if i < da {
            assert(!b.contains((da + db - i) as nat));
        }
    }
}

/// The degree of a product is at most the sum of the degrees.
pub proof fn lemma_mul_bounded(a: Set<nat>, b: Set<nat>, da: nat, db: nat)
    requires
        bounded_by(a, da),
        bounded_by(b, db),
    ensures
        bounded_by(poly_mul(a, b), da + db),
{
    assert forall|k: nat| poly_mul(a, b).contains(k) implies k <= da + db by {
        if k > da + db {
            lemma_conv_above(a, b, da, db, k, k + 1);
        }
    }
}

/// The degree of a product of nonzero polynomials is the sum of the degrees.
pub proof fn lemma_mul_degree(a: Set<nat>, b: Set<nat>, da: nat, db: nat)
    requires
        has_degree(a, da),
        has_degree(b, db),
    ensures
        has_degree(poly_mul(a, b), da + db),
{
    lemma_mul_bounded(a, b, da, db);
    lemma_conv_top(a, b, da, db, da + db + 1);
}

/// Adding a polynomial of lower degree keeps the degree.
pub proof fn lemma_add_degree(a: Set<nat>, b: Set<nat>, da: nat, db: nat)
    requires
        has_degree(a, da),
        bounded_by(b, db),
        db < da,
    ensures
        has_degree(poly_add(a, b), da),
        has_degree(poly_add(b, a), da),
{
    lemma_add_comm(a, b);
}

/// The sum of polynomials is a polynomial.
pub proof fn lemma_poly_add(a: Set<nat>, b: Set<nat>)
    requires
        is_poly(a),
        is_poly(b),
    ensures
        is_poly(poly_add(a, b)),
{
    let da = choose|d: nat| bounded_by(a, d);
    let db = choose|d: nat| bounded_by(b, d);
    assert(bounded_by(poly_add(a, b), da + db));
}

/// The product of polynomials is a polynomial.
pub proof fn lemma_poly_mul(a: Set<nat>, b: Set<nat>)
    requires
        is_poly(a),
        is_poly(b),
    ensures
        is_poly(poly_mul(a, b)),
{
    let da = choose|d: nat| bounded_by(a, d);
    let db = choose|d: nat| bounded_by(b, d);
    lemma_mul_bounded(a, b, da, db);
}

proof fn lemma_conv_swap(a: Set<nat>, b: Set<nat>, k: nat, n: nat)
    requires
        n <= k + 1,
    ensures
        (conv(a, b, k, n) != conv(b, a, k, (k + 1 - n) as nat)) == conv(b, a, k, k + 1),
    decreases n,
{
    if n > 0 {
        lemma_conv_swap(a, b, k, (n - 1) as nat);
        assert((k + 1 - n) as nat + 1 == (k + 2 - n) as nat);
        assert((k - (k + 1 - n)) as nat == (n - 1) as nat);
    }
}

/// Multiplication is commutative.
pub proof fn lemma_mul_comm(a: Set<nat>, b: Set<nat>)
    ensures
        poly_mul(a, b) == poly_mul(b, a),
{
    assert forall|k: nat| poly_mul(a, b).contains(k) == poly_mul(b, a).contains(k) by {
        lemma_conv_swap(a, b, k, k + 1);
    }
    assert(poly_mul(a, b) =~= poly_mul(b, a));
}

proof fn lemma_conv_shift(b: Set<nat>, c: Set<nat>, m: nat, k: nat, n: nat)
    ensures
        conv(shift(b, m), c, k, n) == (n > m && k >= m && conv(
            b,
            c,
            (k - m) as nat,
            (n - m) as nat,
        )),
    decreases n,
{
    if n > 0 {
        lemma_conv_shift(b, c, m, k, (n - 1) as nat);
        let i = (n - 1) as nat;
        assert(shift(b, m).contains(i) == (i >= m && b.contains((i - m) as nat)));
        if n > m && k >= m {
            let j = (i - m) as nat;
            let km = (k - m) as nat;
            assert((n - m) as nat == j + 1);
            assert(conv(b, c, km, j + 1) == (conv(b, c, km, j) != (j <= km && b.contains(j)
                && c.contains((km - j) as nat))));
            assert(j <= km ==> (km - j) as nat == (k - i) as nat);
            if n == m + 1 {
                assert(!conv(b, c, km, 0));
            }
        }
    }
}

/// `(b · x^m) · c == (b · c) · x^m`
pub proof fn lemma_mul_shift_left(b: Set<nat>, m: nat, c: Set<nat>)
    ensures
        poly_mul(shift(b, m), c) == shift(poly_mul(b, c), m),
{
    assert forall|k: nat| poly_mul(shift(b, m), c).contains(k) == shift(
        poly_mul(b, c),
        m,
    ).contains(k) by {
        lemma_conv_shift(b, c, m, k, k + 1);
        if k >= m {
            assert((k + 1 - m) as nat == (k - m) as nat + 1);
        }
    }
    assert(poly_mul(shift(b, m), c) =~= shift(poly_mul(b, c), m));
}

proof fn lemma_mul_assoc_below(a: Set<nat>, b: Set<nat>, c: Set<nat>, n: nat)
    requires
        forall|e: nat| a.contains(e) ==> e < n,
    ensures
        poly_mul(poly_mul(a, b), c) == poly_mul(a, poly_mul(b, c)),
    decreases n,
{
    if n == 0 {
        assert(a =~= poly_zero());
        lemma_mul_zero_left(b);
        lemma_mul_zero_left(c);
        lemma_mul_zero_left(poly_mul(b, c));
    } else {
        let d = (n - 1) as nat;
        let low = a.remove(d);
        lemma_mul_assoc_below(low, b, c, d);
        let bc = poly_mul(b, c);
        if a.contains(d) {
            assert(a =~= poly_add(low, monomial(d)));
            lemma_mul_add_left(low, monomial(d), b);
            lemma_mul_monomial_left(d, b);
            lemma_mul_add_left(poly_mul(low, b), shift(b, d), c);
            lemma_mul_shift_left(b, d, c);
            lemma_mul_add_left(low, monomial(d), bc);
            lemma_mul_monomial_left(d, bc);
        } else {
            assert(a =~= low);
        }
    }
}

/// Multiplication of polynomials is associative.
pub proof fn lemma_mul_assoc(a: Set<nat>, b: Set<nat>, c: Set<nat>)
    requires
        is_poly(a),
    ensures
        poly_mul(poly_mul(a, b), c) == poly_mul(a, poly_mul(b, c)),
{
    let d = choose|d: nat| bounded_by(a, d);
    lemma_mul_assoc_below(a, b, c, d + 1);
}

/// A nonzero polynomial has a degree.
pub proof fn lemma_degree_exists(a: Set<nat>)
    requires
        is_poly(a),
        a != poly_zero(),
    ensures
        exists|d: nat| has_degree(a, d),
{
    let n = choose|d: nat| bounded_by(a, d);
    lemma_degree_exists_below(a, n + 1);
}

proof fn lemma_degree_exists_below(a: Set<nat>, n: nat)
    requires
        forall|e: nat| a.contains(e) ==> e < n,
        a != poly_zero(),
    ensures
        exists|d: nat| has_degree(a, d),
    decreases n,
{
    if n == 0 {
        assert(a =~= poly_zero());
    } else {
        let d = (n - 1) as nat;
        if a.contains(d) {
            assert(has_degree(a, d));
        } else {
            lemma_degree_exists_below(a, d);
        }
    }
}

/// A polynomial with a polynomial inverse over GF(2)[x] itself is 1.
pub proof fn lemma_unit_is_one(z: Set<nat>, g: Set<nat>)
    requires
        is_poly(z),
        is_poly(g),
        poly_mul(z, g) == poly_one(),
    ensures
        g == poly_one(),
{
    assert(poly_one().contains(0nat));
    if z == poly_zero() {
        lemma_mul_zero_left(g);
    }
    if g == poly_zero() {
        lemma_mul_zero_right(z);
    }
    lemma_degree_exists(z);
    lemma_degree_exists(g);
    let dz = choose|d: nat| has_degree(z, d);
    let dg = choose|d: nat| has_degree(g, d);
    lemma_mul_degree(z, g, dz, dg);
    assert(dz + dg == 0);
    assert(g =~= poly_one());
}

/// A nonzero multiple of `m` has a term of degree at least that of `m`.
proof fn lemma_multiple_reaches(w: Set<nat>, m: Set<nat>, dm: nat)
    requires
        is_poly(w),
        w != poly_zero(),
        has_degree(m, dm),
    ensures
        exists|e: nat| e >= dm && poly_mul(w, m).contains(e),
{
    lemma_degree_exists(w);
    let dw = choose|e: nat| has_degree(w, e);
    lemma_mul_degree(w, m, dw, dm);
    assert(poly_mul(w, m).contains(dw + dm));
}

/// Remainders of division are unique: from `x·m + r1 == y·m + r2` with both remainders below
/// the degree of `m`, `r1 == r2`.
pub proof fn lemma_remainder_unique(
    x: Set<nat>,
    y: Set<nat>,
    m: Set<nat>,
    dm: nat,
    r1: Set<nat>,
    r2: Set<nat>,
)
    requires
        is_poly(x),
        is_poly(y),
        has_degree(m, dm),
        forall|e: nat| r1.contains(e) ==> e < dm,
        forall|e: nat| r2.contains(e) ==> e < dm,
        poly_add(poly_mul(x, m), r1) == poly_add(poly_mul(y, m), r2),
    ensures
        r1 == r2,
{
    lemma_mul_add_left(x, y, m);
    let w = poly_add(x, y);
    let xm = poly_mul(x, m);
    let ym = poly_mul(y, m);
    assert forall|e: nat| #[trigger] poly_mul(w, m).contains(e) == poly_add(r1, r2).contains(e) by {
        assert(poly_add(xm, r1).contains(e) == poly_add(ym, r2).contains(e));
    }
    assert(poly_mul(w, m) =~= poly_add(r1, r2));
    if w != poly_zero() {
        lemma_poly_add(x, y);
        lemma_multiple_reaches(w, m, dm);
    } else {
        lemma_mul_zero_left(m);
        assert forall|e: nat| r1.contains(e) == r2.contains(e) by {
            assert(poly_add(r1, r2).contains(e) == poly_mul(w, m).contains(e));
        }
        assert(r1 =~= r2);
    }
}

/// One is the identity of multiplication.
pub proof fn lemma_mul_one_left(a: Set<nat>)
    ensures
        poly_mul(poly_one(), a) == a,
{
    lemma_mul_monomial_left(0, a);
    assert(poly_one() =~= monomial(0));
    assert(shift(a, 0) =~= a);
}

/// One round of the Extended Euclidean Algorithm keeps its two relations: each remainder is a
/// combination `t·b0 + s·m` of the element and the modulus, and the modulus and the element are
/// combinations of the current pair of remainders.
pub proof fn lemma_euclid_step(
    t1: Set<nat>,
    t2: Set<nat>,
    s1: Set<nat>,
    s2: Set<nat>,
    u1: Set<nat>,
    u2: Set<nat>,
    v1: Set<nat>,
    v2: Set<nat>,
    b0: Set<nat>,
    m: Set<nat>,
    a: Set<nat>,
    b: Set<nat>,
    q: Set<nat>,
    rem: Set<nat>,
)
    requires
        is_poly(q),
        is_poly(u1),
        is_poly(v1),
        poly_add(poly_mul(t1, b0), poly_mul(s1, m)) == a,
        poly_add(poly_mul(t2, b0), poly_mul(s2, m)) == b,
        m == poly_add(poly_mul(u1, a), poly_mul(u2, b)),
        b0 == poly_add(poly_mul(v1, a), poly_mul(v2, b)),
        a == poly_add(poly_mul(q, b), rem),
    ensures
        poly_add(
            poly_mul(poly_add(t1, poly_mul(q, t2)), b0),
            poly_mul(poly_add(s1, poly_mul(q, s2)), m),
        ) == rem,
        m == poly_add(poly_mul(poly_add(poly_mul(u1, q), u2), b), poly_mul(u1, rem)),
        b0 == poly_add(poly_mul(poly_add(poly_mul(v1, q), v2), b), poly_mul(v1, rem)),
{
    lemma_mul_add_left(t1, poly_mul(q, t2), b0);
    lemma_mul_assoc(q, t2, b0);
    lemma_mul_add_left(s1, poly_mul(q, s2), m);
    lemma_mul_assoc(q, s2, m);
    lemma_mul_distributes(q, poly_mul(t2, b0), poly_mul(s2, m));
    let tb = poly_mul(t2, b0);
    let sm = poly_mul(s2, m);
    assert(poly_mul(q, b) == poly_add(poly_mul(q, tb), poly_mul(q, sm)));
    assert(poly_mul(poly_add(t1, poly_mul(q, t2)), b0) == poly_add(
        poly_mul(t1, b0),
        poly_mul(q, tb),
    ));
    assert(poly_mul(poly_add(s1, poly_mul(q, s2)), m) == poly_add(
        poly_mul(s1, m),
        poly_mul(q, sm),
    ));
    assert(rem =~= poly_add(a, poly_mul(q, b)));
    assert(poly_add(
        poly_mul(poly_add(t1, poly_mul(q, t2)), b0),
        poly_mul(poly_add(s1, poly_mul(q, s2)), m),
    ) =~= rem);

    lemma_mul_distributes(u1, poly_mul(q, b), rem);
    lemma_mul_assoc(u1, q, b);
    lemma_mul_add_left(poly_mul(u1, q), u2, b);
    assert(m =~= poly_add(poly_mul(poly_add(poly_mul(u1, q), u2), b), poly_mul(u1, rem)));

    lemma_mul_distributes(v1, poly_mul(q, b), rem);
    lemma_mul_assoc(v1, q, b);
    lemma_mul_add_left(poly_mul(v1, q), v2, b);
    assert(b0 =~= poly_add(poly_mul(poly_add(poly_mul(v1, q), v2), b), poly_mul(v1, rem)));
}

/// Where `g` divides both the modulus and the element `sp` (through `sp == q0·m + b0`), and
/// `sp` has an inverse modulo `m`, `g` is 1.
pub proof fn lemma_common_divisor_of_invertible(
    sp: Set<nat>,
    m: Set<nat>,
    q0: Set<nat>,
    b0: Set<nat>,
    g: Set<nat>,
    u1: Set<nat>,
    v1: Set<nat>,
    w: Set<nat>,
    qw: Set<nat>,
)
    requires
        is_poly(q0),
        is_poly(u1),
        is_poly(v1),
        is_poly(w),
        is_poly(qw),
        is_poly(g),
        sp == poly_add(poly_mul(q0, m), b0),
        m == poly_mul(u1, g),
        b0 == poly_mul(v1, g),
        poly_mul(w, sp) == poly_add(poly_mul(qw, m), poly_one()),
    ensures
        g == poly_one(),
{
    lemma_mul_assoc(q0, u1, g);
    let c = poly_add(poly_mul(q0, u1), v1);
    lemma_mul_add_left(poly_mul(q0, u1), v1, g);
    assert(sp == poly_mul(c, g));
    lemma_mul_assoc(w, c, g);
    lemma_mul_assoc(qw, u1, g);
    let z = poly_add(poly_mul(w, c), poly_mul(qw, u1));
    lemma_mul_add_left(poly_mul(w, c), poly_mul(qw, u1), g);
    assert(poly_mul(z, g) =~= poly_one());
    lemma_poly_mul(q0, u1);
    lemma_poly_add(poly_mul(q0, u1), v1);
    lemma_poly_mul(w, c);
    lemma_poly_mul(qw, u1);
    lemma_poly_add(poly_mul(w, c), poly_mul(qw, u1));
    lemma_unit_is_one(z, g);
}

/// Once the Euclidean relation reaches `t1·b0 + s1·m == 1`, the reduced `cand` (with
/// `t1 == q1·m + cand`) times `sp` (with `sp == q0·m + b0`) leaves remainder 1 modulo `m`.
pub proof fn lemma_reduced_inverse(
    sp: Set<nat>,
    m: Set<nat>,
    dm: nat,
    q0: Set<nat>,
    b0: Set<nat>,
    t1: Set<nat>,
    s1: Set<nat>,
    q1: Set<nat>,
    cand: Set<nat>,
    qp: Set<nat>,
    rem: Set<nat>,
)
    requires
        is_poly(q0),
        is_poly(b0),
        is_poly(s1),
        is_poly(q1),
        is_poly(cand),
        is_poly(qp),
        has_degree(m, dm),
        dm >= 1,
        poly_add(poly_mul(t1, b0), poly_mul(s1, m)) == poly_one(),
        t1 == poly_add(poly_mul(q1, m), cand),
        sp == poly_add(poly_mul(q0, m), b0),
        poly_mul(cand, sp) == poly_add(poly_mul(qp, m), rem),
        forall|e: nat| rem.contains(e) ==> e < dm,
    ensures
        rem == poly_one(),
{
    assert(cand =~= poly_add(t1, poly_mul(q1, m)));
    lemma_mul_distributes(cand, poly_mul(q0, m), b0);
    lemma_mul_assoc(cand, q0, m);
    lemma_mul_add_left(t1, poly_mul(q1, m), b0);
    lemma_mul_assoc(q1, m, b0);
    lemma_mul_comm(m, b0);
    lemma_mul_assoc(q1, b0, m);
    assert(poly_mul(t1, b0) =~= poly_add(poly_mul(s1, m), poly_one()));
    let x1 = poly_mul(cand, q0);
    let x2 = poly_mul(q1, b0);
    let x = poly_add(poly_add(x1, x2), s1);
    lemma_mul_add_left(poly_add(x1, x2), s1, m);
    lemma_mul_add_left(x1, x2, m);
    assert(poly_mul(cand, sp) =~= poly_add(poly_mul(x, m), poly_one()));
    lemma_poly_mul(cand, q0);
    lemma_poly_mul(q1, b0);
    lemma_poly_add(x1, x2);
    lemma_poly_add(poly_add(x1, x2), s1);
    lemma_remainder_unique(x, qp, m, dm, poly_one(), rem);
}

} // verus!
