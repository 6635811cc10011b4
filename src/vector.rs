//! Vector primitives: dot product, squared L2 norm and an exact cosine
//! similarity over `i16` embedding coordinates.
use vstd::prelude::*;

verus! {

/// Largest embedding dimension accepted: it keeps every product used to
/// compare two similarities within 128 bits.
pub const MAX_DIM: usize = 4096;

/// Sum of `a[i] * b[i]` over the first `n` coordinates.
pub open spec fn dot_upto(a: Seq<i16>, b: Seq<i16>, n: nat) -> int
    decreases n,
{
    if n == 0 {
        0
    } else {
        dot_upto(a, b, (n - 1) as nat) + a[n - 1] as int * b[n - 1] as int
    }
}

/// Dot product of two vectors of equal length.
pub open spec fn dot(a: Seq<i16>, b: Seq<i16>) -> int {
    dot_upto(a, b, a.len())
}

/// Square of the L2 norm.
pub open spec fn norm_sq(a: Seq<i16>) -> int {
    dot(a, a)
}

/// The exact cosine similarity of two vectors `a` and `b`. Its value is
/// `dot / sqrt(norm_sq_a * norm_sq_b)`, and zero when either norm is zero.
#[derive(Clone, Copy, Debug, PartialEq, Eq, Structural)]
pub struct Cosine {
    pub dot: i64,
    pub norm_sq_a: u64,
    pub norm_sq_b: u64,
}

impl Cosine {
    /// Numerator `n` of the value written as `n / sqrt(d)`.
    pub open spec fn numer(self) -> int {
        if self.norm_sq_a as int * self.norm_sq_b as int == 0 {
            0
        } else {
            self.dot as int
        }
    }

    /// Denominator `d` (under the square root) of the value `n / sqrt(d)`; always positive.
    pub open spec fn denom(self) -> int {
        if self.norm_sq_a as int * self.norm_sq_b as int == 0 {
            1
        } else {
            self.norm_sq_a as int * self.norm_sq_b as int
        }
    }

    /// The components stay within the bounds that vectors of at most
    /// `MAX_DIM` coordinates produce.
    pub open spec fn fits(self) -> bool {
        -0x400_0000_0000 <= self.dot <= 0x400_0000_0000
            && self.norm_sq_a <= 0x400_0000_0000
            && self.norm_sq_b <= 0x400_0000_0000
    }
}

/// The similarity value one.
pub open spec fn cos_one() -> Cosine {
    Cosine { dot: 1, norm_sq_a: 1, norm_sq_b: 1 }
}

/// The similarity value zero.
pub open spec fn cos_zero() -> Cosine {
    Cosine { dot: 0, norm_sq_a: 0, norm_sq_b: 0 }
}

/// `t * |t|`: a strictly increasing map from a numerator to the signed
/// square that orders similarity values.
pub open spec fn signed_square(t: int) -> int {
    if t >= 0 {
        t * t
    } else {
        -(t * t)
    }
}

/// The value of `x` is greater than the value of `y`. With `x = a / sqrt(p)`
/// and `y = b / sqrt(q)` this holds iff `a * |a| / p > b * |b| / q`.
pub open spec fn cos_gt(x: Cosine, y: Cosine) -> bool {
    signed_square(x.numer()) * y.denom() > signed_square(y.numer()) * x.denom()
}

/// `x` and `y` have the same value.
pub open spec fn cos_eq(x: Cosine, y: Cosine) -> bool {
    signed_square(x.numer()) * y.denom() == signed_square(y.numer()) * x.denom()
}

/// The cosine similarity of `a` and `b`.
pub open spec fn similarity_of(a: Seq<i16>, b: Seq<i16>) -> Cosine {
    Cosine { dot: dot(a, b) as i64, norm_sq_a: norm_sq(a) as u64, norm_sq_b: norm_sq(b) as u64 }
}

/// Failure of a vector operation.
#[derive(Clone, Copy, Debug, PartialEq, Eq, Structural)]
pub enum VectorError {
    /// The two vectors differ in length.
    DimensionMismatch,
    /// The vectors are longer than `MAX_DIM`.
    DimensionTooLarge,
}

proof fn lemma_term_bound(x: i16, y: i16)
    ensures
        -0x4000_0000 <= x as int * y as int <= 0x4000_0000,
        x as int * x as int >= 0,
{
    let a = x as int;
    let b = y as int;
    assert(-0x8000 <= a <= 0x7fff && -0x8000 <= b <= 0x7fff);
    assert(-0x4000_0000 <= a * b <= 0x4000_0000) by (nonlinear_arith)
        requires
            -0x8000 <= a <= 0x7fff,
            -0x8000 <= b <= 0x7fff,
    ;
    assert(a * a >= 0) by (nonlinear_arith);
}

/// Partial dot products grow by at most `2^30` per coordinate.
pub proof fn lemma_dot_upto_bound(a: Seq<i16>, b: Seq<i16>, n: nat)
    requires
        n <= a.len(),
        n <= b.len(),
    ensures
        -(n as int) * 0x4000_0000 <= dot_upto(a, b, n) <= n as int * 0x4000_0000,
    decreases n,
{
    if n > 0 {
        lemma_dot_upto_bound(a, b, (n - 1) as nat);
        lemma_term_bound(a[n - 1], b[n - 1]);
    }
}

/// A sum of squares is never negative.
pub proof fn lemma_norm_upto_nonneg(a: Seq<i16>, n: nat)
    requires
        n <= a.len(),
    ensures
        dot_upto(a, a, n) >= 0,
    decreases n,
{
    if n > 0 {
        lemma_norm_upto_nonneg(a, (n - 1) as nat);
        lemma_term_bound(a[n - 1], a[n - 1]);
    }
}

/// Partial dot products do not depend on the order of the operands.
pub proof fn lemma_dot_upto_symmetric(a: Seq<i16>, b: Seq<i16>, n: nat)
    ensures
        dot_upto(a, b, n) == dot_upto(b, a, n),
    decreases n,
{
    if n > 0 {
        lemma_dot_upto_symmetric(a, b, (n - 1) as nat);
        assert(a[n - 1] as int * b[n - 1] as int == b[n - 1] as int * a[n - 1] as int)
            by (nonlinear_arith);
    }
}

/// The similarity of two vectors of at most `MAX_DIM` coordinates keeps
/// its exact components and fits the comparison bounds.
pub proof fn lemma_similarity_fits(a: Seq<i16>, b: Seq<i16>)
    requires
        a.len() == b.len(),
        a.len() <= MAX_DIM,
    ensures
        similarity_of(a, b).fits(),
        similarity_of(a, b).dot as int == dot(a, b),
        similarity_of(a, b).norm_sq_a as int == norm_sq(a),
        similarity_of(a, b).norm_sq_b as int == norm_sq(b),
{
    lemma_dot_upto_bound(a, b, a.len());
    lemma_dot_upto_bound(a, a, a.len());
    lemma_dot_upto_bound(b, b, b.len());
    lemma_norm_upto_nonneg(a, a.len());
    lemma_norm_upto_nonneg(b, b.len());
    assert(a.len() as int * 0x4000_0000 <= 0x400_0000_0000) by (nonlinear_arith)
        requires
            a.len() <= 4096,
    ;
}

/// Dot product of two vectors of equal length.
pub fn dot_product(a: &Vec<i16>, b: &Vec<i16>) -> (r: i64)
    requires
        a.len() == b.len(),
        a.len() <= MAX_DIM,
    ensures
        r as int == dot(a@, b@),
{
    let n = a.len();
    let mut acc: i64 = 0;
    let mut i: usize = 0;
    while i < n
        invariant
            n == a.len(),
            n == b.len(),
            n <= MAX_DIM,
            i <= n,
            acc as int == dot_upto(a@, b@, i as nat),
            -(i as int) * 0x4000_0000 <= acc <= i as int * 0x4000_0000,
        decreases n - i,
    {
        proof {
            lemma_term_bound(a@[i as int], b@[i as int]);
            assert((i as int + 1) * 0x4000_0000 <= 0x400_0000_0000) by (nonlinear_arith)
                requires
                    i < 4096,
            ;
        }
        let term: i64 = a[i] as i64 * b[i] as i64;
        acc = acc + term;
        i = i + 1;
    }
    acc
}

/// Square of the L2 norm of `a`.
pub fn squared_norm(a: &Vec<i16>) -> (r: u64)
    requires
        a.len() <= MAX_DIM,
    ensures
        r as int == norm_sq(a@),
        r <= 0x400_0000_0000,
{
    proof {
        lemma_norm_upto_nonneg(a@, a@.len());
        lemma_dot_upto_bound(a@, a@, a@.len());
        assert(a.len() as int * 0x4000_0000 <= 0x400_0000_0000) by (nonlinear_arith)
            requires
                a.len() <= 4096,
        ;
    }
    let d = dot_product(a, a);
    d as u64
}

/// Cosine similarity of two vectors of equal length.
pub fn cosine(a: &Vec<i16>, b: &Vec<i16>) -> (r: Cosine)
    requires
        a.len() == b.len(),
        a.len() <= MAX_DIM,
    ensures
        r == similarity_of(a@, b@),
        r.fits(),
{
    proof {
        lemma_similarity_fits(a@, b@);
    }
    let d = dot_product(a, b);
    let na = squared_norm(a);
    let nb = squared_norm(b);
    Cosine { dot: d, norm_sq_a: na, norm_sq_b: nb }
}

/// Cosine similarity of `a` and `b`; fails when their lengths differ or
/// exceed `MAX_DIM`.
pub fn similarity(a: &Vec<i16>, b: &Vec<i16>) -> (r: Result<Cosine, VectorError>)
    ensures
        a.len() != b.len() ==> r == Err::<Cosine, VectorError>(VectorError::DimensionMismatch),
        a.len() == b.len() && a.len() > MAX_DIM ==> r == Err::<Cosine, VectorError>(
            VectorError::DimensionTooLarge,
        ),
        a.len() == b.len() && a.len() <= MAX_DIM ==> r == Ok::<Cosine, VectorError>(
            similarity_of(a@, b@),
        ),
{
    if a.len() != b.len() {
        Err(VectorError::DimensionMismatch)
    } else if a.len() > MAX_DIM {
        Err(VectorError::DimensionTooLarge)
    } else {
        Ok(cosine(a, b))
    }
}

proof fn lemma_frac_order(u1: int, d1: int, u2: int, d2: int, u3: int, d3: int)
    requires
        d1 > 0,
        d2 > 0,
        d3 > 0,
    ensures
        u1 * d2 >= u2 * d1 && u2 * d3 >= u3 * d2 ==> u1 * d3 >= u3 * d1,
        u1 * d2 > u2 * d1 && u2 * d3 > u3 * d2 ==> u1 * d3 > u3 * d1,
{
    if u1 * d2 >= u2 * d1 && u2 * d3 >= u3 * d2 {
        assert(u1 * d2 * d3 >= u2 * d1 * d3) by (nonlinear_arith)
            requires
                u1 * d2 >= u2 * d1,
                d3 > 0,
        ;
        assert(u2 * d3 * d1 >= u3 * d2 * d1) by (nonlinear_arith)
            requires
                u2 * d3 >= u3 * d2,
                d1 > 0,
        ;
        assert(u1 * d3 >= u3 * d1) by (nonlinear_arith)
            requires
                u1 * d2 * d3 >= u2 * d1 * d3,
                u2 * d3 * d1 >= u3 * d2 * d1,
                d2 > 0,
        ;
    }
    if u1 * d2 > u2 * d1 && u2 * d3 > u3 * d2 {
        assert(u1 * d2 * d3 > u2 * d1 * d3) by (nonlinear_arith)
            requires
                u1 * d2 > u2 * d1,
                d3 > 0,
        ;
        assert(u2 * d3 * d1 > u3 * d2 * d1) by (nonlinear_arith)
            requires
                u2 * d3 > u3 * d2,
                d1 > 0,
        ;
        assert(u1 * d3 > u3 * d1) by (nonlinear_arith)
            requires
                u1 * d2 * d3 > u2 * d1 * d3,
                u2 * d3 * d1 > u3 * d2 * d1,
                d2 > 0,
        ;
    }
}

proof fn lemma_signed_square(t: int)
    ensures
        (signed_square(t) > 0) == (t > 0),
        (signed_square(t) < 0) == (t < 0),
        signed_square(t) == 0 <==> t == 0,
        t >= 0 ==> signed_square(t) == t * t,
{
    if t > 0 {
        assert(t * t > 0) by (nonlinear_arith)
            requires
                t > 0,
        ;
    } else if t < 0 {
        assert(t * t > 0) by (nonlinear_arith)
            requires
                t < 0,
        ;
    }
}

proof fn lemma_product_positive(a: int, b: int)
    requires
        a >= 0,
        b >= 0,
    ensures
        a != 0 && b != 0 ==> a * b > 0,
{
    if a != 0 && b != 0 {
        assert(a * b > 0) by (nonlinear_arith)
            requires
                a > 0,
                b > 0,
        ;
    }
}

proof fn lemma_denom_positive(x: Cosine)
    ensures
        x.denom() > 0,
{
    let p = x.norm_sq_a as int * x.norm_sq_b as int;
    assert(p >= 0) by (nonlinear_arith)
        requires
            p == x.norm_sq_a as int * x.norm_sq_b as int,
    ;
}

/// No value is greater than itself, and of two values at most one is the
/// greater.
pub proof fn lemma_cos_gt_asymmetric(x: Cosine, y: Cosine)
    ensures
        !cos_gt(x, x),
        cos_gt(x, y) ==> !cos_gt(y, x),
{
}

/// "Greater than" and "at least" are transitive.
pub proof fn lemma_cos_transitive(x: Cosine, y: Cosine, z: Cosine)
    ensures
        cos_gt(x, y) && cos_gt(y, z) ==> cos_gt(x, z),
        !cos_gt(y, x) && !cos_gt(z, y) ==> !cos_gt(z, x),
{
    lemma_denom_positive(x);
    lemma_denom_positive(y);
    lemma_denom_positive(z);
    let (u1, d1) = (signed_square(x.numer()), x.denom());
    let (u2, d2) = (signed_square(y.numer()), y.denom());
    let (u3, d3) = (signed_square(z.numer()), z.denom());
    lemma_frac_order(u1, d1, u2, d2, u3, d3);
}

proof fn lemma_scale_compare(u: int, v: int, p: int, q: int, n: int)
    requires
        n > 0,
    ensures
        (u * (q * n) > v * (p * n)) == (u * q > v * p),
{
    assert(u * (q * n) == (u * q) * n) by (nonlinear_arith);
    assert(v * (p * n) == (v * p) * n) by (nonlinear_arith);
    assert(((u * q) * n > (v * p) * n) == (u * q > v * p)) by (nonlinear_arith)
        requires
            n > 0,
    ;
}

/// Vectors compared by cosine similarity.
pub trait Similarity: Sized {
    /// The coordinates of the vector.
    spec fn coords(&self) -> Seq<i16>;

    /// Dot product with a vector of the same length.
    fn dot_product(&self, other: &Self) -> (r: i64)
        requires
            self.coords().len() == other.coords().len(),
            self.coords().len() <= MAX_DIM,
        ensures
            r as int == dot(self.coords(), other.coords()),
    ;

    /// Square of the L2 norm.
    fn squared_l2_norm(&self) -> (r: u64)
        requires
            self.coords().len() <= MAX_DIM,
        ensures
            r as int == norm_sq(self.coords()),
    ;

    /// Cosine similarity; fails when the lengths differ or exceed `MAX_DIM`.
    fn similarity(&self, other: &Self) -> (r: Result<Cosine, VectorError>)
        ensures
            self.coords().len() != other.coords().len() ==> r == Err::<Cosine, VectorError>(
                VectorError::DimensionMismatch,
            ),
            self.coords().len() == other.coords().len() && self.coords().len() > MAX_DIM ==> r
                == Err::<Cosine, VectorError>(VectorError::DimensionTooLarge),
            self.coords().len() == other.coords().len() && self.coords().len() <= MAX_DIM ==> r
                == Ok::<Cosine, VectorError>(similarity_of(self.coords(), other.coords())),
    ;
}

impl Similarity for Vec<i16> {
    open spec fn coords(&self) -> Seq<i16> {
        self@
    }

    fn dot_product(&self, other: &Self) -> (r: i64) {
        dot_product(self, other)
    }

    fn squared_l2_norm(&self) -> (r: u64) {
        squared_norm(self)
    }

    fn similarity(&self, other: &Self) -> (r: Result<Cosine, VectorError>) {
        similarity(self, other)
    }
}

/// Whether `x` is more similar than `y`, for two similarities against the
/// same second vector.
pub fn more_similar(x: &Cosine, y: &Cosine) -> (r: bool)
    requires
        x.fits(),
        y.fits(),
        x.norm_sq_b == y.norm_sq_b,
    ensures
        r == cos_gt(*x, *y),
{
    let ghost n = x.norm_sq_b as int;
    proof {
        lemma_signed_square(x.dot as int);
        lemma_signed_square(y.dot as int);
        lemma_signed_square(0);
        assert(x.norm_sq_a == 0 || n == 0 ==> x.norm_sq_a as int * n == 0) by (nonlinear_arith);
        assert(y.norm_sq_a == 0 || n == 0 ==> y.norm_sq_a as int * n == 0) by (nonlinear_arith);
        lemma_product_positive(x.norm_sq_a as int, n);
        lemma_product_positive(y.norm_sq_a as int, n);
    }
    if x.norm_sq_b == 0 || (x.norm_sq_a == 0 && y.norm_sq_a == 0) {
        return false;
    }
    if x.norm_sq_a == 0 {
        proof {
            assert(x.numer() == 0 && x.denom() == 1 && y.numer() == y.dot);
            assert(signed_square(x.numer()) * y.denom() == 0);
            assert(signed_square(y.numer()) * x.denom() == signed_square(y.dot as int));
        }
        return y.dot < 0;
    }
    if y.norm_sq_a == 0 {
        proof {
            assert(y.numer() == 0 && y.denom() == 1 && x.numer() == x.dot);
            assert(signed_square(y.numer()) == 0);
            assert(signed_square(y.numer()) * x.denom() == 0) by (nonlinear_arith)
                requires
                    signed_square(y.numer()) == 0,
            ;
            assert(signed_square(x.numer()) * y.denom() == signed_square(x.dot as int));
        }
        return x.dot > 0;
    }
    let a: i64 = x.dot;
    let p: u64 = x.norm_sq_a;
    let b: i64 = y.dot;
    let q: u64 = y.norm_sq_a;
    proof {
        assert(a as int * a as int <= 0x10_0000_0000_0000_0000_0000) by (nonlinear_arith)
            requires
                -0x400_0000_0000 <= a <= 0x400_0000_0000,
        ;
        assert(b as int * b as int <= 0x10_0000_0000_0000_0000_0000) by (nonlinear_arith)
            requires
                -0x400_0000_0000 <= b <= 0x400_0000_0000,
        ;
        assert(a as int * a as int >= 0) by (nonlinear_arith);
        assert(b as int * b as int >= 0) by (nonlinear_arith);
    }
    let aa: i128 = a as i128 * a as i128;
    let bb: i128 = b as i128 * b as i128;
    let u: i128 = if a >= 0 { aa } else { -aa };
    let v: i128 = if b >= 0 { bb } else { -bb };
    proof {
        assert(-0x10_0000_0000_0000_0000_0000 <= u <= 0x10_0000_0000_0000_0000_0000);
        assert(-0x10_0000_0000_0000_0000_0000 <= v <= 0x10_0000_0000_0000_0000_0000);
        assert(-0x4000_0000_0000_0000_0000_0000_0000_0000 <= u as int * q as int
            <= 0x4000_0000_0000_0000_0000_0000_0000_0000) by (nonlinear_arith)
            requires
                -0x10_0000_0000_0000_0000_0000 <= u <= 0x10_0000_0000_0000_0000_0000,
                1 <= q <= 0x400_0000_0000,
        ;
        assert(-0x4000_0000_0000_0000_0000_0000_0000_0000 <= v as int * p as int
            <= 0x4000_0000_0000_0000_0000_0000_0000_0000) by (nonlinear_arith)
            requires
                -0x10_0000_0000_0000_0000_0000 <= v <= 0x10_0000_0000_0000_0000_0000,
                1 <= p <= 0x400_0000_0000,
        ;
        assert(x.numer() == a && y.numer() == b);
        assert(u == signed_square(a as int) && v == signed_square(b as int));
        assert(x.denom() == p as int * n && y.denom() == q as int * n);
        lemma_scale_compare(u as int, v as int, p as int, q as int, n);
    }
    u * (q as i128) > v * (p as i128)
}

/// The similarity of a vector with a nonzero norm to itself is one.
pub proof fn lemma_self_similarity_is_one(v: Seq<i16>)
    requires
        v.len() <= MAX_DIM,
        norm_sq(v) > 0,
    ensures
        cos_eq(similarity_of(v, v), cos_one()),
{
    lemma_similarity_fits(v, v);
    let s = similarity_of(v, v);
    let n = norm_sq(v);
    assert(n * n > 0) by (nonlinear_arith)
        requires
            n > 0,
    ;
    assert(s.numer() == n && s.denom() == n * n);
    assert(cos_one().numer() == 1 && cos_one().denom() == 1);
    lemma_signed_square(n);
    lemma_signed_square(1);
    assert(signed_square(1) == 1);
    assert(signed_square(n) == n * n);
}

/// Similarity is symmetric.
pub proof fn lemma_similarity_symmetric(a: Seq<i16>, b: Seq<i16>)
    requires
        a.len() == b.len(),
        a.len() <= MAX_DIM,
    ensures
        cos_eq(similarity_of(a, b), similarity_of(b, a)),
        similarity_of(a, b).dot == similarity_of(b, a).dot,
{
    lemma_dot_upto_symmetric(a, b, a.len());
    lemma_similarity_fits(a, b);
    lemma_similarity_fits(b, a);
    let x = similarity_of(a, b);
    let y = similarity_of(b, a);
    assert(x.norm_sq_a as int * x.norm_sq_b as int == y.norm_sq_a as int * y.norm_sq_b as int)
        by (nonlinear_arith)
        requires
            x.norm_sq_a == y.norm_sq_b,
            x.norm_sq_b == y.norm_sq_a,
    ;
}

/// When either vector has norm zero, their similarity is zero.
pub proof fn lemma_zero_norm_similarity(a: Seq<i16>, b: Seq<i16>)
    requires
        a.len() == b.len(),
        a.len() <= MAX_DIM,
        norm_sq(a) == 0 || norm_sq(b) == 0,
    ensures
        cos_eq(similarity_of(a, b), cos_zero()),
{
    lemma_similarity_fits(a, b);
    let x = similarity_of(a, b);
    assert(x.norm_sq_a as int * x.norm_sq_b as int == 0) by (nonlinear_arith)
        requires
            x.norm_sq_a == 0 || x.norm_sq_b == 0,
    ;
}

} // verus!
