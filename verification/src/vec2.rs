//! Plane vectors: the mathematical model `V2` and the machine vector `Vec2`
//! with 16 fractional bits per coordinate.

use crate::arith::{
    abs, div_toward_zero, div_trunc, lemma_div_exact, lemma_div_toward_zero,
    lemma_product_bound, lemma_square_of_product,
};
use vstd::prelude::*;

verus! {

/// The fixed-point representation of 1.
pub const ONE: i64 = 0x1_0000;

/// Every stored coordinate lies in `-COORD_MAX ..= COORD_MAX`.
pub const COORD_MAX: i64 = 0x100_0000_0000;

/// The difference of two stored coordinates lies in `-WIDE_MAX ..= WIDE_MAX`.
pub const WIDE_MAX: i64 = 0x200_0000_0000;

/// A vector of the integer plane.
pub struct V2 {
    pub x: int,
    pub y: int,
}

impl V2 {
    pub open spec fn plus(self, o: V2) -> V2 {
        V2 { x: self.x + o.x, y: self.y + o.y }
    }

    pub open spec fn minus(self, o: V2) -> V2 {
        V2 { x: self.x - o.x, y: self.y - o.y }
    }

    pub open spec fn neg(self) -> V2 {
        V2 { x: -self.x, y: -self.y }
    }

    pub open spec fn dot(self, o: V2) -> int {
        self.x * o.x + self.y * o.y
    }

    /// Zero exactly when the two vectors are parallel.
    pub open spec fn cross(self, o: V2) -> int {
        self.x * o.y - self.y * o.x
    }

    /// The squared Euclidean length.
    pub open spec fn norm_sq(self) -> int {
        self.x * self.x + self.y * self.y
    }

    /// Each coordinate times `num / den`, rounded toward zero.
    pub open spec fn scaled(self, num: int, den: int) -> V2 {
        V2 { x: div_toward_zero(self.x * num, den), y: div_toward_zero(self.y * num, den) }
    }

    /// Both coordinates have magnitude at most `bound`.
    pub open spec fn within(self, bound: int) -> bool {
        -bound <= self.x <= bound && -bound <= self.y <= bound
    }

    /// Each coordinate moved to the nearest storable value.
    pub open spec fn saturated(self) -> V2 {
        V2 { x: saturate(self.x), y: saturate(self.y) }
    }
}

/// The nearest value to `v` in `-COORD_MAX ..= COORD_MAX`.
pub open spec fn saturate(v: int) -> int {
    if v > COORD_MAX {
        COORD_MAX as int
    } else if v < -COORD_MAX {
        -COORD_MAX
    } else {
        v
    }
}

/// The mirror image of `v` in the line through the origin perpendicular to
/// `d`: `v - 2 (v.d) d / (d.d)`, each coordinate of the subtracted term
/// rounded toward zero. With `d` zero there is no such line and `v` is
/// returned.
pub open spec fn reflect(v: V2, d: V2) -> V2 {
    if d.norm_sq() == 0 {
        v
    } else {
        V2 {
            x: v.x - div_toward_zero(2 * v.dot(d) * d.x, d.norm_sq()),
            y: v.y - div_toward_zero(2 * v.dot(d) * d.y, d.norm_sq()),
        }
    }
}

/// A vector with 16 fractional bits per coordinate.
#[derive(Clone, Copy, Debug, PartialEq, Eq, Structural)]
pub struct Vec2 {
    pub x: i64,
    pub y: i64,
}

impl View for Vec2 {
    type V = V2;

    open spec fn view(&self) -> V2 {
        V2 { x: self.x as int, y: self.y as int }
    }
}

impl Vec2 {
    pub fn new(x: i64, y: i64) -> (v: Vec2)
        ensures
            v.x == x,
            v.y == y,
    {
        Vec2 { x, y }
    }

    /// The storable vector nearest to `(x, y)`.
    pub fn saturating(x: i128, y: i128) -> (v: Vec2)
        ensures
            v@ == (V2 { x: x as int, y: y as int }).saturated(),
            v@.within(COORD_MAX as int),
    {
        Vec2 { x: clamp_coord(x), y: clamp_coord(y) }
    }

    /// Whether both coordinates are storable.
    pub fn in_range(&self) -> (b: bool)
        ensures
            b == self@.within(COORD_MAX as int),
    {
        -COORD_MAX <= self.x && self.x <= COORD_MAX && -COORD_MAX <= self.y && self.y
            <= COORD_MAX
    }
}

/// The nearest storable coordinate.
pub fn clamp_coord(v: i128) -> (r: i64)
    ensures
        r == saturate(v as int),
        -COORD_MAX <= r <= COORD_MAX,
{
    if v > COORD_MAX as i128 {
        COORD_MAX
    } else if v < -(COORD_MAX as i128) {
        -COORD_MAX
    } else {
        v as i64
    }
}

/// The squared length of a vector times the square of a factor, written
/// over the two coordinates times that factor.
pub proof fn lemma_scaled_norm(x: int, y: int, k: int)
    ensures
        (x * k) * (x * k) + (y * k) * (y * k) == (x * x + y * y) * (k * k),
{
    lemma_square_of_product(x, k);
    lemma_square_of_product(y, k);
    assert((x * x + y * y) * (k * k) == (x * x) * (k * k) + (y * y) * (k * k))
        by (nonlinear_arith);
}

/// A coordinate of a vector is at most a number whose square is at least
/// the squared length of the vector.
pub proof fn lemma_coordinate_below_length(d: V2, len: int)
    requires
        0 <= len,
        d.norm_sq() <= len * len,
    ensures
        d.within(len),
{
    let (x, y) = (d.x, d.y);
    assert(abs(x) <= len && abs(y) <= len) by (nonlinear_arith)
        requires
            x * x + y * y <= len * len,
            0 <= len,
    {
        assert(x * x >= 0 && y * y >= 0);
        if abs(x) > len {
            assert(abs(x) * abs(x) > len * len);
            assert(x * x == abs(x) * abs(x));
        }
        if abs(y) > len {
            assert(abs(y) * abs(y) > len * len);
            assert(y * y == abs(y) * abs(y));
        }
    }
}

/// Shortening by a factor of at most one never lengthens a coordinate, and
/// what comes out is the exact product rounded toward zero.
pub proof fn lemma_scaled_down(v: V2, num: int, den: int)
    requires
        0 <= num <= den,
        0 < den,
    ensures
        abs(v.scaled(num, den).x) <= abs(v.x),
        abs(v.scaled(num, den).y) <= abs(v.y),
        abs(v.scaled(num, den).x) * den <= abs(v.x) * num < (abs(v.scaled(num, den).x) + 1) * den,
        abs(v.scaled(num, den).y) * den <= abs(v.y) * num < (abs(v.scaled(num, den).y) + 1) * den,
        v.scaled(num, den).norm_sq() <= v.norm_sq(),
        v.neg().scaled(num, den) == v.scaled(num, den).neg(),
{
    let w = v.scaled(num, den);
    lemma_div_toward_zero(v.x * num, den);
    lemma_div_toward_zero(v.y * num, den);
    assert(abs(v.x * num) == abs(v.x) * num && abs(v.y * num) == abs(v.y) * num
        && (-v.x) * num == -(v.x * num) && (-v.y) * num == -(v.y * num)) by (nonlinear_arith)
        requires
            0 <= num,
    ;
    let (a, b, x, y) = (abs(w.x), abs(w.y), abs(v.x), abs(v.y));
    assert(a <= x && b <= y) by (nonlinear_arith)
        requires
            a * den <= x * num,
            b * den <= y * num,
            0 <= num <= den,
            0 < den,
            0 <= a,
            0 <= b,
            0 <= x,
            0 <= y,
    ;
    assert(w.x * w.x + w.y * w.y <= v.x * v.x + v.y * v.y) by (nonlinear_arith)
        requires
            a == abs(w.x),
            b == abs(w.y),
            x == abs(v.x),
            y == abs(v.y),
            a <= x,
            b <= y,
    {
        assert(w.x * w.x == a * a && w.y * w.y == b * b);
        assert(v.x * v.x == x * x && v.y * v.y == y * y);
        assert(a * a <= x * x && b * b <= y * y);
    }
}

/// The squared length of a vector is at most the product in Cauchy's
/// inequality: `(v.d)^2 <= (v.v)(d.d)`.
pub proof fn lemma_cauchy_schwarz(v: V2, d: V2)
    ensures
        v.dot(d) * v.dot(d) <= v.norm_sq() * d.norm_sq(),
{
    let (a, b, c, e) = (v.x, v.y, d.x, d.y);
    let (ac, be, ae, bc) = (a * c, b * e, a * e, b * c);
    assert(ac * be == ae * bc) by (nonlinear_arith)
        requires
            ac == a * c,
            be == b * e,
            ae == a * e,
            bc == b * c,
    ;
    assert((a * a) * (c * c) == ac * ac && (b * b) * (e * e) == be * be && (a * a) * (e * e) == ae
        * ae && (b * b) * (c * c) == bc * bc) by (nonlinear_arith)
        requires
            ac == a * c,
            be == b * e,
            ae == a * e,
            bc == b * c,
    ;
    assert((a * a + b * b) * (c * c + e * e) == (a * a) * (c * c) + (a * a) * (e * e) + (b * b) * (
    c * c) + (b * b) * (e * e)) by (nonlinear_arith);
    assert((ac + be) * (ac + be) == ac * ac + 2 * (ac * be) + be * be) by (nonlinear_arith);
    assert((ae - bc) * (ae - bc) == ae * ae - 2 * (ae * bc) + bc * bc) by (nonlinear_arith);
    assert((ae - bc) * (ae - bc) >= 0) by (nonlinear_arith);
}

/// The term that a reflection subtracts is at most four times the bound of
/// the reflected vector.
pub proof fn lemma_reflect_term_bound(v: V2, d: V2, bound: int, c: int)
    requires
        v.within(bound),
        d.norm_sq() > 0,
        c == d.x || c == d.y,
    ensures
        abs(div_toward_zero(2 * v.dot(d) * c, d.norm_sq())) <= 4 * bound,
{
    let p = v.dot(d);
    let n = v.norm_sq();
    let s = d.norm_sq();
    let a = p * c;
    lemma_cauchy_schwarz(v, d);
    assert(0 <= bound);
    assert(0 <= c * c <= s) by (nonlinear_arith)
        requires
            s == d.x * d.x + d.y * d.y,
            c == d.x || c == d.y,
    ;
    assert(0 <= n <= 2 * bound * bound) by (nonlinear_arith)
        requires
            n == v.x * v.x + v.y * v.y,
            -bound <= v.x <= bound,
            -bound <= v.y <= bound,
    ;
    let t = bound * s;
    assert(0 <= t) by (nonlinear_arith)
        requires
            t == bound * s,
            0 <= bound,
            s > 0,
    ;
    assert(a * a <= (2 * t) * (2 * t)) by (nonlinear_arith)
        requires
            a == p * c,
            t == bound * s,
            p * p <= n * s,
            0 <= c * c <= s,
            0 <= n <= 2 * bound * bound,
            0 <= bound,
            s > 0,
    {
        assert(a * a == (p * p) * (c * c));
        assert((p * p) * (c * c) <= (n * s) * (c * c));
        assert((n * s) * (c * c) <= (n * s) * s);
        assert((n * s) * s <= (2 * bound * bound * s) * s);
        assert((2 * bound * bound * s) * s <= (2 * (bound * s)) * (2 * (bound * s)));
    }
    assert(abs(a) <= 2 * t) by (nonlinear_arith)
        requires
            a * a <= (2 * t) * (2 * t),
            0 <= t,
    ;
    assert(2 * p * c == 2 * a) by (nonlinear_arith)
        requires
            a == p * c,
    ;
    let q = div_toward_zero(2 * a, s);
    lemma_div_toward_zero(2 * a, s);
    assert(abs(q) <= 4 * bound) by (nonlinear_arith)
        requires
            abs(q) * s <= 4 * t,
            t == bound * s,
            s > 0,
            0 <= bound,
            abs(q) >= 0,
    ;
}

/// What a reflection computes. Write `s` for the squared length of `d`.
/// The exact mirror image of `v`, times `s`, is the integer vector
/// `s v - 2 (v.d) d`, which is as long as `s v`: mirroring keeps the length.
/// Each coordinate of `reflect(v, d)` differs from that of the exact image
/// by less than one unit.
pub proof fn lemma_reflect_image(v: V2, d: V2)
    requires
        d.norm_sq() > 0,
    ensures
        ({
            let s = d.norm_sq();
            let image = V2 {
                x: s * v.x - 2 * v.dot(d) * d.x,
                y: s * v.y - 2 * v.dot(d) * d.y,
            };
            let r = reflect(v, d);
            &&& image.norm_sq() == (s * s) * v.norm_sq()
            &&& abs(s * r.x - image.x) < s
            &&& abs(s * r.y - image.y) < s
        }),
{
    let (a, b, c, e) = (v.x, v.y, d.x, d.y);
    let s = d.norm_sq();
    let p = v.dot(d);
    let n = v.norm_sq();
    let (ss, pp, sp) = (s * s, p * p, s * p);
    let (ux, wx, uy, wy) = (s * a, p * c, s * b, p * e);
    let x = ux - 2 * wx;
    let y = uy - 2 * wy;
    assert(2 * p * c == 2 * wx && 2 * p * e == 2 * wy) by (nonlinear_arith)
        requires
            wx == p * c,
            wy == p * e,
    ;
    assert(x * x == ux * ux - 4 * (ux * wx) + 4 * (wx * wx)) by (nonlinear_arith)
        requires
            x == ux - 2 * wx,
    ;
    assert(y * y == uy * uy - 4 * (uy * wy) + 4 * (wy * wy)) by (nonlinear_arith)
        requires
            y == uy - 2 * wy,
    ;
    lemma_square_of_product(s, a);
    lemma_square_of_product(s, b);
    lemma_square_of_product(p, c);
    lemma_square_of_product(p, e);
    assert(ux * wx == sp * (a * c)) by (nonlinear_arith)
        requires
            ux == s * a,
            wx == p * c,
            sp == s * p,
    ;
    assert(uy * wy == sp * (b * e)) by (nonlinear_arith)
        requires
            uy == s * b,
            wy == p * e,
            sp == s * p,
    ;
    assert(ss * (a * a) + ss * (b * b) == ss * n) by (nonlinear_arith)
        requires
            n == a * a + b * b,
    ;
    assert(sp * (a * c) + sp * (b * e) == sp * p) by (nonlinear_arith)
        requires
            p == a * c + b * e,
    ;
    assert(pp * (c * c) + pp * (e * e) == pp * s) by (nonlinear_arith)
        requires
            s == c * c + e * e,
    ;
    assert(sp * p == pp * s) by (nonlinear_arith)
        requires
            sp == s * p,
            pp == p * p,
    ;
    assert(x * x + y * y == ss * n);
    let kx = 2 * p * c;
    let ky = 2 * p * e;
    lemma_div_toward_zero(kx, s);
    lemma_div_toward_zero(ky, s);
    let qx = div_toward_zero(kx, s);
    let qy = div_toward_zero(ky, s);
    assert(s * (a - qx) - x == kx - s * qx && s * (b - qy) - y == ky - s * qy) by (nonlinear_arith)
        requires
            x == s * a - kx,
            y == s * b - ky,
    ;
    assert(abs(kx - s * qx) < s && abs(ky - s * qy) < s) by (nonlinear_arith)
        requires
            abs(qx) * s <= abs(kx),
            abs(kx) < (abs(qx) + 1) * s,
            kx >= 0 ==> qx >= 0,
            kx <= 0 ==> qx <= 0,
            abs(qy) * s <= abs(ky),
            abs(ky) < (abs(qy) + 1) * s,
            ky >= 0 ==> qy >= 0,
            ky <= 0 ==> qy <= 0,
            s > 0,
    ;
}

/// A vector parallel to `d` is mirrored to its opposite.
pub proof fn lemma_reflect_parallel(v: V2, d: V2)
    requires
        v.cross(d) == 0,
        d.norm_sq() > 0,
    ensures
        reflect(v, d) == v.neg(),
{
    let s = d.norm_sq();
    let (a, b, c, e) = (v.x, v.y, d.x, d.y);
    let p = v.dot(d);
    let (bc, ae) = (b * c, a * e);
    assert(bc == ae);
    assert(p * c == a * (c * c) + bc * e) by (nonlinear_arith)
        requires
            p == a * c + b * e,
            bc == b * c,
    ;
    assert(p * e == ae * c + b * (e * e)) by (nonlinear_arith)
        requires
            p == a * c + b * e,
            ae == a * e,
    ;
    assert(ae * e == a * (e * e) && bc * c == b * (c * c)) by (nonlinear_arith)
        requires
            ae == a * e,
            bc == b * c,
    ;
    assert(a * s == a * (c * c) + a * (e * e) && b * s == b * (c * c) + b * (e * e))
        by (nonlinear_arith)
        requires
            s == c * c + e * e,
    ;
    assert(p * c == a * s && p * e == b * s);
    assert(2 * p * c == (2 * a) * s && 2 * p * e == (2 * b) * s) by (nonlinear_arith)
        requires
            p * c == a * s,
            p * e == b * s,
    ;
    lemma_div_exact(2 * v.x, s);
    lemma_div_exact(2 * v.y, s);
}

/// Reflects `v` in the line through the origin perpendicular to `d`.
pub fn reflect_vec2(v: Vec2, d: Vec2) -> (r: Vec2)
    requires
        v@.within(WIDE_MAX as int),
        d@.within(WIDE_MAX as int),
    ensures
        r@ == reflect(v@, d@),
        r@.within(5 * WIDE_MAX),
{
    let vx = v.x as i128;
    let vy = v.y as i128;
    let dx = d.x as i128;
    let dy = d.y as i128;
    proof {
        lemma_product_bound(dx as int, dx as int, WIDE_MAX as int, WIDE_MAX as int);
        lemma_product_bound(dy as int, dy as int, WIDE_MAX as int, WIDE_MAX as int);
        lemma_product_bound(vx as int, dx as int, WIDE_MAX as int, WIDE_MAX as int);
        lemma_product_bound(vy as int, dy as int, WIDE_MAX as int, WIDE_MAX as int);
        assert(dx * dx >= 0 && dy * dy >= 0) by (nonlinear_arith);
    }
    let s: i128 = dx * dx + dy * dy;
    if s == 0 {
        return v;
    }
    let k: i128 = 2 * (vx * dx + vy * dy);
    proof {
        let bound = 4 * WIDE_MAX * WIDE_MAX;
        lemma_product_bound(k as int, dx as int, bound, WIDE_MAX as int);
        lemma_product_bound(k as int, dy as int, bound, WIDE_MAX as int);
        lemma_reflect_term_bound(v@, d@, WIDE_MAX as int, d@.x);
        lemma_reflect_term_bound(v@, d@, WIDE_MAX as int, d@.y);
        assert(2 * v@.dot(d@) * d@.x == k * dx) by (nonlinear_arith)
            requires
                k == 2 * (vx * dx + vy * dy),
                v@.dot(d@) == vx * dx + vy * dy,
                d@.x == dx,
        ;
        assert(2 * v@.dot(d@) * d@.y == k * dy) by (nonlinear_arith)
            requires
                k == 2 * (vx * dx + vy * dy),
                v@.dot(d@) == vx * dx + vy * dy,
                d@.y == dy,
        ;
    }
    let qx = div_trunc(k * dx, s);
    let qy = div_trunc(k * dy, s);
    Vec2 { x: (vx - qx) as i64, y: (vy - qy) as i64 }
}

} // verus!
