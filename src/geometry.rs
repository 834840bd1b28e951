use vstd::prelude::*;

verus! {

/// One unit of puzzle space (the side of the normalised puzzle square) in
/// fixed-point steps.
pub const UNIT: i64 = 120_000;

/// Largest absolute coordinate of a point of a puzzle.
pub const COORD_LIMIT: i64 = 480_000;

/// Largest absolute component of a motion vector (a cursor delta, a
/// difference of two points, an offset from a node).
pub const VEC_LIMIT: i64 = 1_000_000;

/// A point, or a vector, of puzzle space in fixed-point coordinates.
#[derive(Debug, Clone, Copy, PartialEq, Eq, Structural)]
pub struct Dot {
    pub x: i64,
    pub y: i64,
}

/// Division of `p` by a positive `q` that rounds toward zero.
pub open spec fn trunc_div(p: int, q: int) -> int {
    if p >= 0 {
        p / q
    } else {
        -((-p) / q)
    }
}

pub open spec fn abs(v: int) -> int {
    if v >= 0 {
        v
    } else {
        -v
    }
}

impl Dot {
    pub fn zero() -> (r: Dot)
        ensures
            r.is_zero(),
    {
        Dot { x: 0, y: 0 }
    }

    /// Both components lie within `limit` of zero.
    pub open spec fn within(self, limit: int) -> bool {
        -limit <= self.x <= limit && -limit <= self.y <= limit
    }

    /// A motion vector small enough for every computation of the tracer.
    pub open spec fn is_vector(self) -> bool {
        self.within(VEC_LIMIT as int)
    }

    pub open spec fn spec_length2(self) -> int {
        self.x * self.x + self.y * self.y
    }

    pub open spec fn spec_scalar(self, o: Dot) -> int {
        self.x * o.x + self.y * o.y
    }

    /// Taxicab size, which shrinks whenever a nonzero vector is cut down.
    pub open spec fn l1(self) -> int {
        abs(self.x as int) + abs(self.y as int)
    }

    pub open spec fn is_zero(self) -> bool {
        self.x == 0 && self.y == 0
    }

    pub fn new(x: i64, y: i64) -> (r: Dot)
        ensures
            r.x == x,
            r.y == y,
    {
        Dot { x, y }
    }

    pub fn plus(&self, o: &Dot) -> (r: Dot)
        requires
            self.within(COORD_LIMIT as int * 4),
            o.within(COORD_LIMIT as int * 4),
        ensures
            r.x == self.x + o.x,
            r.y == self.y + o.y,
    {
        Dot { x: self.x + o.x, y: self.y + o.y }
    }

    pub fn minus(&self, o: &Dot) -> (r: Dot)
        requires
            self.within(COORD_LIMIT as int * 4),
            o.within(COORD_LIMIT as int * 4),
        ensures
            r.x == self.x - o.x,
            r.y == self.y - o.y,
    {
        Dot { x: self.x - o.x, y: self.y - o.y }
    }

    /// Squared Euclidean length.
    pub fn length2(&self) -> (r: i64)
        requires
            self.is_vector(),
        ensures
            r == self.spec_length2(),
            0 <= r <= 2 * VEC_LIMIT * VEC_LIMIT,
    {
        proof {
            lemma_square_bound(self.x as int, VEC_LIMIT as int);
            lemma_square_bound(self.y as int, VEC_LIMIT as int);
        }
        self.x * self.x + self.y * self.y
    }

    /// Euclidean length, rounded down to a whole step.
    pub fn length(&self) -> (r: i64)
        requires
            self.is_vector(),
        ensures
            r >= 0,
            r * r <= self.spec_length2() < (r + 1) * (r + 1),
            r == spec_length(*self),
            r <= 2_000_000,
    {
        let n = self.length2();
        let r = isqrt(n as u64) as i64;
        proof {
            assert(is_floor_sqrt(self.spec_length2(), r as int));
            let c = spec_length(*self);
            assert(is_floor_sqrt(self.spec_length2(), c));
            lemma_sqrt_unique(self.spec_length2(), r as int, c);
        }
        r
    }

    /// Scalar (dot) product.
    pub fn scalar(&self, o: &Dot) -> (r: i64)
        requires
            self.is_vector(),
            o.is_vector(),
        ensures
            r == self.spec_scalar(*o),
            -2 * VEC_LIMIT * VEC_LIMIT <= r <= 2 * VEC_LIMIT * VEC_LIMIT,
    {
        proof {
            lemma_product_bound(self.x as int, o.x as int, VEC_LIMIT as int);
            lemma_product_bound(self.y as int, o.y as int, VEC_LIMIT as int);
        }
        self.x * o.x + self.y * o.y
    }

    /// The vector multiplied by the fraction `num / den`, each component
    /// rounded toward zero.
    pub fn scale(&self, num: i64, den: i64) -> (r: Dot)
        requires
            self.is_vector(),
            0 <= num <= den,
            den > 0,
        ensures
            r.x == trunc_div(self.x * num, den as int),
            r.y == trunc_div(self.y * num, den as int),
            abs(r.x as int) <= abs(self.x as int),
            abs(r.y as int) <= abs(self.y as int),
    {
        Dot { x: mul_div(self.x, num, den), y: mul_div(self.y, num, den) }
    }

    /// The point at fraction `num / den` of the way from `self` to `o`.
    pub fn interp(&self, o: &Dot, num: i64, den: i64) -> (r: Dot)
        requires
            self.within(COORD_LIMIT as int),
            o.within(COORD_LIMIT as int),
            0 <= num <= den,
            den > 0,
        ensures
            r.x == self.x + trunc_div((o.x - self.x) * num, den as int),
            r.y == self.y + trunc_div((o.y - self.y) * num, den as int),
    {
        let d = o.minus(self);
        let s = d.scale(num, den);
        self.plus(&s)
    }
}

proof fn lemma_square_bound(a: int, limit: int)
    requires
        -limit <= a <= limit,
    ensures
        0 <= a * a <= limit * limit,
{
    assert(0 <= a * a <= limit * limit) by (nonlinear_arith)
        requires
            -limit <= a <= limit,
    ;
}

proof fn lemma_product_bound(a: int, b: int, limit: int)
    requires
        -limit <= a <= limit,
        -limit <= b <= limit,
    ensures
        -(limit * limit) <= a * b <= limit * limit,
{
    assert(-(limit * limit) <= a * b <= limit * limit) by (nonlinear_arith)
        requires
            -limit <= a <= limit,
            -limit <= b <= limit,
    ;
}

/// `a * num / den`, rounded toward zero.
pub fn mul_div(a: i64, num: i64, den: i64) -> (r: i64)
    requires
        -VEC_LIMIT <= a <= VEC_LIMIT,
        0 <= num <= den,
        den > 0,
    ensures
        r == trunc_div(a * num, den as int),
        abs(r as int) <= abs(a as int),
        a != 0 && num < den ==> abs(r as int) < abs(a as int),
{
    let m: u64 = if a >= 0 { a as u64 } else { (-a) as u64 };
    assert(m * num <= 1_000_000 * 0x7fff_ffff_ffff_ffff) by (nonlinear_arith)
        requires
            m <= 1_000_000,
            0 <= num <= 0x7fff_ffff_ffff_ffff,
    ;
    let p: u128 = (m as u128) * (num as u128);
    let q: u128 = p / (den as u128);
    proof {
        assert(p <= m * den) by (nonlinear_arith)
            requires
                p == m * num,
                0 <= num <= den,
                m >= 0,
        ;
        lemma_div_below(m as int, num as int, den as int);
        if a < 0 {
            assert(a * num == -(m * num)) by (nonlinear_arith)
                requires
                    m == -a,
            ;
        } else {
            assert(a * num == m * num);
        }
    }
    if a >= 0 {
        q as i64
    } else {
        -(q as i64)
    }
}

proof fn lemma_div_below(m: int, num: int, den: int)
    requires
        m >= 0,
        0 <= num <= den,
        den > 0,
    ensures
        (m * num) / den <= m,
        m > 0 && num < den ==> (m * num) / den < m,
{
    assert(m * num <= m * den) by (nonlinear_arith)
        requires
            m >= 0,
            num <= den,
    ;
    assert((m * den) / den == m) by (nonlinear_arith)
        requires
            den > 0,
    ;
    vstd::arithmetic::div_mod::lemma_div_is_ordered(m * num, m * den, den);
    if m > 0 && num < den {
        assert(m * num <= m * den - m) by (nonlinear_arith)
            requires
                m > 0,
                num < den,
        ;
        assert((m * num) / den < m) by (nonlinear_arith)
            requires
                m * num <= m * den - m,
                m > 0,
                den > 0,
        ;
    }
}

/// Integer square root: the largest `r` with `r * r <= n`.
pub fn isqrt(n: u64) -> (r: u64)
    requires
        n <= 2 * VEC_LIMIT * VEC_LIMIT,
    ensures
        r <= 2_000_000,
        r * r <= n < (r + 1) * (r + 1),
{
    let mut lo: u64 = 0;
    let mut hi: u64 = 2_000_000;
    assert(hi * hi > n) by (nonlinear_arith)
        requires
            hi == 2_000_000,
            n <= 2_000_000_000_000,
    ;
    while lo + 1 < hi
        invariant
            lo < hi <= 2_000_000,
            lo * lo <= n,
            n < hi * hi,
        decreases hi - lo,
    {
        let mid = lo + (hi - lo) / 2;
        assert(mid * mid <= 4_000_000_000_000) by (nonlinear_arith)
            requires
                mid <= 2_000_000,
        ;
        if mid * mid <= n {
            lo = mid;
        } else {
            hi = mid;
        }
    }
    assert(hi == lo + 1);
    lo
}

/// The cosine of the angle between `v` and `d`, up to the positive factor
/// `|v| * |d|`, squared with its sign kept: a quantity that orders vectors by
/// their angle to `d` once divided by `|v|^2`.
pub open spec fn cos_key(v: Dot, d: Dot) -> int {
    let a = v.spec_scalar(d);
    if a >= 0 {
        a * a
    } else {
        -(a * a)
    }
}

/// The angle between `v1` and `d` is smaller than the angle between `v2` and
/// `d` (angles taken in `[0, pi]`): `cos a1 > cos a2`, compared exactly.
pub open spec fn turns_less(v1: Dot, v2: Dot, d: Dot) -> bool {
    cos_key(v1, d) * v2.spec_length2() > cos_key(v2, d) * v1.spec_length2()
}

/// `turns_less` is a strict weak order on nonzero vectors.
pub proof fn lemma_turns_less_order(a: Dot, b: Dot, c: Dot, d: Dot)
    requires
        a.spec_length2() > 0,
        b.spec_length2() > 0,
        c.spec_length2() > 0,
    ensures
        !turns_less(a, a, d),
        turns_less(a, b, d) ==> !turns_less(b, a, d),
        turns_less(a, b, d) && !turns_less(c, b, d) ==> turns_less(a, c, d),
{
    let xa = cos_key(a, d);
    let xb = cos_key(b, d);
    let xc = cos_key(c, d);
    let ya = a.spec_length2();
    let yb = b.spec_length2();
    let yc = c.spec_length2();
    assert(xa * yb > xb * ya && xc * yb <= xb * yc ==> xa * yc > xc * ya) by (nonlinear_arith)
        requires
            ya > 0,
            yb > 0,
            yc > 0,
    ;
}

/// Signed squared scalar product, the numerator of `cos_key`.
fn cos_key_exec(v: &Dot, d: &Dot) -> (r: i128)
    requires
        v.is_vector(),
        d.is_vector(),
    ensures
        r == cos_key(*v, *d),
        -4_000_000_000_000_000_000_000_000 <= r <= 4_000_000_000_000_000_000_000_000,
{
    let a = v.scalar(d) as i128;
    assert(a * a <= 4_000_000_000_000_000_000_000_000) by (nonlinear_arith)
        requires
            -2_000_000_000_000 <= a <= 2_000_000_000_000,
    ;
    assert(a * a >= 0) by (nonlinear_arith);
    if a >= 0 {
        a * a
    } else {
        -(a * a)
    }
}

/// Whether `v1` points closer to the direction of `d` than `v2` does.
pub fn closer_in_angle(v1: &Dot, v2: &Dot, d: &Dot) -> (r: bool)
    requires
        v1.is_vector(),
        v2.is_vector(),
        d.is_vector(),
    ensures
        r == turns_less(*v1, *v2, *d),
{
    let k1 = cos_key_exec(v1, d);
    let k2 = cos_key_exec(v2, d);
    let n1 = v1.length2() as i128;
    let n2 = v2.length2() as i128;
    assert(-8_000_000_000_000_000_000_000_000_000_000_000_000 <= k1 * n2
        <= 8_000_000_000_000_000_000_000_000_000_000_000_000) by (nonlinear_arith)
        requires
            -4_000_000_000_000_000_000_000_000 <= k1 <= 4_000_000_000_000_000_000_000_000,
            0 <= n2 <= 2_000_000_000_000,
    ;
    assert(-8_000_000_000_000_000_000_000_000_000_000_000_000 <= k2 * n1
        <= 8_000_000_000_000_000_000_000_000_000_000_000_000) by (nonlinear_arith)
        requires
            -4_000_000_000_000_000_000_000_000 <= k2 <= 4_000_000_000_000_000_000_000_000,
            0 <= n1 <= 2_000_000_000_000,
    ;
    k1 * n2 > k2 * n1
}

/// Division of `p` by a positive `q`, rounded toward zero.
pub fn div_trunc(p: i128, q: i128) -> (r: i128)
    requires
        q > 0,
        -0x7fff_ffff_ffff_ffff_ffff_ffff_ffff_ffff <= p,
    ensures
        r == trunc_div(p as int, q as int),
        abs(r as int) <= abs(p as int),
{
    if p >= 0 {
        proof {
            vstd::arithmetic::div_mod::lemma_div_is_ordered_by_denominator(p as int, 1, q as int);
        }
        p / q
    } else {
        let m = -p;
        proof {
            vstd::arithmetic::div_mod::lemma_div_is_ordered_by_denominator(m as int, 1, q as int);
        }
        -(m / q)
    }
}

/// Floor square roots are unique.
pub proof fn lemma_sqrt_unique(n: int, r1: int, r2: int)
    requires
        r1 >= 0,
        r2 >= 0,
        r1 * r1 <= n < (r1 + 1) * (r1 + 1),
        r2 * r2 <= n < (r2 + 1) * (r2 + 1),
    ensures
        r1 == r2,
{
    if r1 < r2 {
        assert((r1 + 1) * (r1 + 1) <= r2 * r2) by (nonlinear_arith)
            requires
                0 <= r1 + 1 <= r2,
        ;
    }
    if r2 < r1 {
        assert((r2 + 1) * (r2 + 1) <= r1 * r1) by (nonlinear_arith)
            requires
                0 <= r2 + 1 <= r1,
        ;
    }
}

/// The Euclidean length of `v`, rounded down.
pub open spec fn spec_length(v: Dot) -> int {
    choose|r: int| #[trigger] is_floor_sqrt(v.spec_length2(), r)
}

pub open spec fn is_floor_sqrt(n: int, r: int) -> bool {
    r >= 0 && r * r <= n < (r + 1) * (r + 1)
}

/// Cutting a nonzero vector down by a fraction below one lowers its
/// taxicab size.
pub proof fn lemma_scale_shrinks(d: Dot, num: int, den: int)
    requires
        d.is_vector(),
        !d.is_zero(),
        0 <= num < den,
    ensures
        ({
            let r = Dot { x: trunc_div(d.x * num, den) as i64, y: trunc_div(d.y * num, den) as i64 };
            r.l1() < d.l1()
        }),
{
    lemma_trunc_shrinks(d.x as int, num, den);
    lemma_trunc_shrinks(d.y as int, num, den);
}

proof fn lemma_trunc_shrinks(a: int, num: int, den: int)
    requires
        -VEC_LIMIT <= a <= VEC_LIMIT,
        0 <= num < den,
    ensures
        abs(trunc_div(a * num, den)) <= abs(a),
        a != 0 ==> abs(trunc_div(a * num, den)) < abs(a),
        -VEC_LIMIT <= trunc_div(a * num, den) <= VEC_LIMIT,
{
    let m = abs(a);
    lemma_div_below(m, num, den);
    if a < 0 {
        assert(a * num == -(m * num)) by (nonlinear_arith)
            requires
                m == -a,
        ;
    }
    assert(m * num >= 0) by (nonlinear_arith)
        requires
            m >= 0,
            num >= 0,
    ;
    assert((m * num) / den >= 0) by (nonlinear_arith)
        requires
            m * num >= 0,
            den > 0,
    ;
}

} // verus!
