//! Integer plane geometry: 2D integer vectors, bounding boxes, the
//! point-in-triangle test, an integer square root and a xorshift generator.
use vstd::prelude::*;
use vstd::std_specs::cmp::PartialOrdIs;
use vstd::std_specs::cmp::PartialOrdSpec;
use vstd::std_specs::ops::AddSpec;
use vstd::std_specs::ops::SubSpec;

verus! {

/// Whether an integer value fits in an `i32`.
pub open spec fn fits_i32(v: int) -> bool {
    i32::MIN <= v <= i32::MAX
}

/// The absolute value of an integer.
pub open spec fn abs_int(a: int) -> int {
    if a < 0 {
        -a
    } else {
        a
    }
}

/// Rust's integer division, which rounds toward zero: the quotient of the
/// magnitudes, negated when exactly one operand is negative.
pub open spec fn trunc_div(a: int, b: int) -> int {
    if (a < 0) != (b < 0) {
        -(abs_int(a) / abs_int(b))
    } else {
        abs_int(a) / abs_int(b)
    }
}

/// Rust's integer remainder: the remainder of the magnitudes, with the sign
/// of the dividend.
pub open spec fn trunc_rem(a: int, b: int) -> int {
    if a < 0 {
        -(abs_int(a) % abs_int(b))
    } else {
        abs_int(a) % abs_int(b)
    }
}

/// `r` is the integer square root of `n`: the largest `r >= 0` with `r * r <= n`.
pub open spec fn is_isqrt(n: int, r: int) -> bool {
    0 <= r && r * r <= n && n < (r + 1) * (r + 1)
}

/// The integer square root of a non-negative `i32`, rounded down.
pub fn isqrt(n: i32) -> (r: i32)
    requires
        n >= 0,
    ensures
        is_isqrt(n as int, r as int),
{
    let mut lo: i64 = 0;
    let mut hi: i64 = 46341;
    assert(46341 * 46341 > i32::MAX) by (nonlinear_arith);
    while lo + 1 < hi
        invariant
            0 <= lo < hi <= 46341,
            lo * lo <= n,
            n < hi * hi,
        decreases hi - lo,
    {
        let mid: i64 = lo + (hi - lo) / 2;
        assert(0 <= mid * mid <= 46341 * 46341) by (nonlinear_arith)
            requires
                0 <= mid <= 46341,
        ;
        if mid * mid <= n as i64 {
            lo = mid;
        } else {
            hi = mid;
        }
    }
    lo as i32
}

/// `a / b` on `i32`, rounding toward zero.
pub fn div_trunc(a: i32, b: i32) -> (q: i32)
    requires
        div_ok(a, b),
    ensures
        q == trunc_div(a as int, b as int),
{
    let aa: i64 = if a < 0 { -(a as i64) } else { a as i64 };
    let bb: i64 = if b < 0 { -(b as i64) } else { b as i64 };
    let m: i64 = aa / bb;
    assert(0 <= m <= aa) by (nonlinear_arith)
        requires
            aa >= 0,
            bb >= 1,
            m == aa / bb,
    ;
    if (a < 0) != (b < 0) {
        (-m) as i32
    } else {
        proof {
            if m > i32::MAX {
                assert(a == i32::MIN && b == -1) by (nonlinear_arith)
                    requires
                        aa == abs_int(a as int),
                        bb == abs_int(b as int),
                        m == aa / bb,
                        m > i32::MAX,
                        a < 0 <==> b < 0,
                        b != 0,
                ;
            }
        }
        m as i32
    }
}

/// `a % b` on `i32`, with the sign of the dividend.
pub fn rem_trunc(a: i32, b: i32) -> (r: i32)
    requires
        div_ok(a, b),
    ensures
        r == trunc_rem(a as int, b as int),
{
    let aa: i64 = if a < 0 { -(a as i64) } else { a as i64 };
    let bb: i64 = if b < 0 { -(b as i64) } else { b as i64 };
    let m: i64 = aa % bb;
    assert(0 <= m < bb) by (nonlinear_arith)
        requires
            bb >= 1,
            m == aa % bb,
    ;
    if a < 0 {
        (-m) as i32
    } else {
        assert(m <= aa) by (nonlinear_arith)
            requires
                aa >= 0,
                bb >= 1,
                m == aa % bb,
        ;
        m as i32
    }
}

/// Rust's division identity: the dividend is the divisor times the quotient
/// plus the remainder.
pub proof fn lemma_div_rem_identity(a: int, b: int)
    requires
        b != 0,
    ensures
        a == b * trunc_div(a, b) + trunc_rem(a, b),
        abs_int(trunc_rem(a, b)) < abs_int(b),
{
    let aa = abs_int(a);
    let bb = abs_int(b);
    assert(aa == bb * (aa / bb) + aa % bb && 0 <= aa % bb < bb) by (nonlinear_arith)
        requires
            bb > 0,
            aa >= 0,
    ;
    assert(a == b * trunc_div(a, b) + trunc_rem(a, b)) by (nonlinear_arith)
        requires
            aa == abs_int(a),
            bb == abs_int(b),
            aa == bb * (aa / bb) + aa % bb,
            b != 0,
    ;
}

/// A point or displacement on the integer grid.
#[derive(Clone, Copy, Debug, PartialEq, Eq, Structural)]
pub struct Vec2 {
    pub x: i32,
    pub y: i32,
}

/// The dot product of two grid vectors, as an unbounded integer.
pub open spec fn dot_spec(a: Vec2, b: Vec2) -> int {
    a.x * b.x + a.y * b.y
}

/// The squared Euclidean distance between two grid points.
pub open spec fn dist_spec(a: Vec2, b: Vec2) -> int {
    (a.x - b.x) * (a.x - b.x) + (a.y - b.y) * (a.y - b.y)
}

/// The squared length of a grid vector.
pub open spec fn len_sqr_spec(a: Vec2) -> int {
    a.x * a.x + a.y * a.y
}

/// Every intermediate of `dot` fits in an `i32`.
pub open spec fn dot_fits(a: Vec2, b: Vec2) -> bool {
    &&& fits_i32(a.x * b.x)
    &&& fits_i32(a.y * b.y)
    &&& fits_i32(dot_spec(a, b))
}

/// Every intermediate of `dist` fits in an `i32`.
pub open spec fn dist_fits(a: Vec2, b: Vec2) -> bool {
    &&& fits_i32(a.x - b.x)
    &&& fits_i32(a.y - b.y)
    &&& fits_i32((a.x - b.x) * (a.x - b.x))
    &&& fits_i32((a.y - b.y) * (a.y - b.y))
    &&& fits_i32(dist_spec(a, b))
}

/// Every intermediate of `len_sqr` fits in an `i32`.
pub open spec fn len_sqr_fits(a: Vec2) -> bool {
    &&& fits_i32(a.x * a.x)
    &&& fits_i32(a.y * a.y)
    &&& fits_i32(len_sqr_spec(a))
}

/// Both components of `a` and `b` combine under `op` without leaving `i32`.
pub open spec fn div_ok(a: i32, v: i32) -> bool {
    v != 0 && !(a == i32::MIN && v == -1)
}

impl Vec2 {
    pub fn new(x: i32, y: i32) -> (r: Self)
        ensures
            r.x == x,
            r.y == y,
    {
        Self { x, y }
    }

    pub fn dot(&self, other: Self) -> (r: i32)
        requires
            dot_fits(*self, other),
        ensures
            r == dot_spec(*self, other),
    {
        self.x * other.x + self.y * other.y
    }

    /// The squared distance to `other` (no square root is taken).
    pub fn dist(&self, other: Self) -> (r: i32)
        requires
            dist_fits(*self, other),
        ensures
            r == dist_spec(*self, other),
    {
        let p1 = self.x - other.x;
        let p2 = self.y - other.y;
        p1 * p1 + p2 * p2
    }

    pub fn len_sqr(&self) -> (r: i32)
        requires
            len_sqr_fits(*self),
        ensures
            r == len_sqr_spec(*self),
    {
        self.x * self.x + self.y * self.y
    }

    /// The length of the vector, rounded down to an integer.
    pub fn len(&self) -> (r: i32)
        requires
            len_sqr_fits(*self),
        ensures
            is_isqrt(len_sqr_spec(*self), r as int),
    {
        let s = self.len_sqr();
        assert(s >= 0) by (nonlinear_arith)
            requires
                s == self.x * self.x + self.y * self.y,
        ;
        isqrt(s)
    }

    /// The vector divided component-wise (rounding toward zero) by its integer length.
    pub fn norm(&self) -> (r: Self)
        requires
            len_sqr_fits(*self),
            len_sqr_spec(*self) != 0,
        ensures
            exists|l: int|
                is_isqrt(len_sqr_spec(*self), l) && l > 0 && r.x == trunc_div(self.x as int, l)
                    && r.y == trunc_div(self.y as int, l),
    {
        let l = self.len();
        assert(l > 0) by (nonlinear_arith)
            requires
                is_isqrt(len_sqr_spec(*self), l as int),
                len_sqr_spec(*self) != 0,
        ;
        let r = *self / l;
        assert(is_isqrt(len_sqr_spec(*self), l as int) && l > 0 && r.x == trunc_div(
            self.x as int,
            l as int,
        ) && r.y == trunc_div(self.y as int, l as int));
        r
    }

    /// In-place component-wise sum.
    pub fn add_assign(&mut self, other: Self)
        requires
            fits_i32(old(self).x + other.x),
            fits_i32(old(self).y + other.y),
        ensures
            final(self).x == old(self).x + other.x,
            final(self).y == old(self).y + other.y,
    {
        self.x = self.x + other.x;
        self.y = self.y + other.y;
    }

    /// In-place component-wise difference.
    pub fn sub_assign(&mut self, other: Self)
        requires
            fits_i32(old(self).x - other.x),
            fits_i32(old(self).y - other.y),
        ensures
            final(self).x == old(self).x - other.x,
            final(self).y == old(self).y - other.y,
    {
        self.x = self.x - other.x;
        self.y = self.y - other.y;
    }

    /// In-place scaling.
    pub fn mul_assign(&mut self, v: i32)
        requires
            fits_i32(old(self).x * v),
            fits_i32(old(self).y * v),
        ensures
            final(self).x == old(self).x * v,
            final(self).y == old(self).y * v,
    {
        self.x = self.x * v;
        self.y = self.y * v;
    }

    /// In-place division, rounding toward zero.
    pub fn div_assign(&mut self, v: i32)
        requires
            div_ok(old(self).x, v),
            div_ok(old(self).y, v),
        ensures
            final(self).x == trunc_div(old(self).x as int, v as int),
            final(self).y == trunc_div(old(self).y as int, v as int),
    {
        self.x = div_trunc(self.x, v);
        self.y = div_trunc(self.y, v);
    }

    /// In-place remainder, with the sign of the dividend.
    pub fn rem_assign(&mut self, v: i32)
        requires
            div_ok(old(self).x, v),
            div_ok(old(self).y, v),
        ensures
            final(self).x == trunc_rem(old(self).x as int, v as int),
            final(self).y == trunc_rem(old(self).y as int, v as int),
    {
        self.x = rem_trunc(self.x, v);
        self.y = rem_trunc(self.y, v);
    }
}

impl std::ops::Add for Vec2 {
    type Output = Self;

    fn add(self, other: Self) -> (r: Self::Output) {
        Self { x: self.x + other.x, y: self.y + other.y }
    }
}

impl vstd::std_specs::ops::AddSpecImpl for Vec2 {
    open spec fn obeys_add_spec() -> bool {
        true
    }

    open spec fn add_req(self, rhs: Vec2) -> bool {
        fits_i32(self.x + rhs.x) && fits_i32(self.y + rhs.y)
    }

    open spec fn add_spec(self, rhs: Vec2) -> Vec2 {
        Vec2 { x: (self.x + rhs.x) as i32, y: (self.y + rhs.y) as i32 }
    }
}

impl std::ops::Sub for Vec2 {
    type Output = Self;

    fn sub(self, other: Self) -> (r: Self::Output) {
        Self { x: self.x - other.x, y: self.y - other.y }
    }
}

impl vstd::std_specs::ops::SubSpecImpl for Vec2 {
    open spec fn obeys_sub_spec() -> bool {
        true
    }

    open spec fn sub_req(self, rhs: Vec2) -> bool {
        fits_i32(self.x - rhs.x) && fits_i32(self.y - rhs.y)
    }

    open spec fn sub_spec(self, rhs: Vec2) -> Vec2 {
        Vec2 { x: (self.x - rhs.x) as i32, y: (self.y - rhs.y) as i32 }
    }
}

impl std::ops::Mul<i32> for Vec2 {
    type Output = Self;

    fn mul(self, v: i32) -> (r: Self::Output) {
        Self { x: self.x * v, y: self.y * v }
    }
}

impl vstd::std_specs::ops::MulSpecImpl<i32> for Vec2 {
    open spec fn obeys_mul_spec() -> bool {
        true
    }

    open spec fn mul_req(self, v: i32) -> bool {
        fits_i32(self.x * v) && fits_i32(self.y * v)
    }

    open spec fn mul_spec(self, v: i32) -> Vec2 {
        Vec2 { x: (self.x * v) as i32, y: (self.y * v) as i32 }
    }
}

impl std::ops::Div<i32> for Vec2 {
    type Output = Self;

    fn div(self, v: i32) -> (r: Self::Output) {
        Self { x: div_trunc(self.x, v), y: div_trunc(self.y, v) }
    }
}

impl vstd::std_specs::ops::DivSpecImpl<i32> for Vec2 {
    open spec fn obeys_div_spec() -> bool {
        true
    }

    open spec fn div_req(self, v: i32) -> bool {
        div_ok(self.x, v) && div_ok(self.y, v)
    }

    open spec fn div_spec(self, v: i32) -> Vec2 {
        Vec2 { x: trunc_div(self.x as int, v as int) as i32, y: trunc_div(self.y as int, v as int) as i32 }
    }
}

impl std::ops::Rem<i32> for Vec2 {
    type Output = Self;

    fn rem(self, v: i32) -> (r: Self::Output) {
        Self { x: rem_trunc(self.x, v), y: rem_trunc(self.y, v) }
    }
}

impl vstd::std_specs::ops::RemSpecImpl<i32> for Vec2 {
    open spec fn obeys_rem_spec() -> bool {
        true
    }

    open spec fn rem_req(self, v: i32) -> bool {
        div_ok(self.x, v) && div_ok(self.y, v)
    }

    open spec fn rem_spec(self, v: i32) -> Vec2 {
        Vec2 { x: trunc_rem(self.x as int, v as int) as i32, y: trunc_rem(self.y as int, v as int) as i32 }
    }
}

/// An axis-aligned box: the cells `x <= px < x + w`, `y <= py < y + h`.
#[derive(Clone, Copy, Debug)]
pub struct BB {
    pub x: i32,
    pub y: i32,
    pub w: i32,
    pub h: i32,
}

/// The smallest x coordinate among a non-empty list of points.
pub open spec fn min_x(s: Seq<Vec2>) -> int
    decreases s.len(),
{
    if s.len() <= 1 {
        s[0].x as int
    } else {
        let m = min_x(s.drop_last());
        if s.last().x < m {
            s.last().x as int
        } else {
            m
        }
    }
}

/// The smallest y coordinate among a non-empty list of points.
pub open spec fn min_y(s: Seq<Vec2>) -> int
    decreases s.len(),
{
    if s.len() <= 1 {
        s[0].y as int
    } else {
        let m = min_y(s.drop_last());
        if s.last().y < m {
            s.last().y as int
        } else {
            m
        }
    }
}

/// The largest x coordinate among a non-empty list of points.
pub open spec fn max_x(s: Seq<Vec2>) -> int
    decreases s.len(),
{
    if s.len() <= 1 {
        s[0].x as int
    } else {
        let m = max_x(s.drop_last());
        if s.last().x > m {
            s.last().x as int
        } else {
            m
        }
    }
}

/// The largest y coordinate among a non-empty list of points.
pub open spec fn max_y(s: Seq<Vec2>) -> int
    decreases s.len(),
{
    if s.len() <= 1 {
        s[0].y as int
    } else {
        let m = max_y(s.drop_last());
        if s.last().y > m {
            s.last().y as int
        } else {
            m
        }
    }
}

/// The extent spanned between a minimum and a maximum, widened to 1 when
/// the two coincide so that a degenerate box still covers one cell.
pub open spec fn span(lo: int, hi: int) -> int {
    if hi == lo {
        1
    } else {
        hi - lo
    }
}

/// The box that `BB::from_points` computes for a non-empty list of points.
pub open spec fn bb_of_points(s: Seq<Vec2>) -> BB {
    BB {
        x: min_x(s) as i32,
        y: min_y(s) as i32,
        w: span(min_x(s), max_x(s)) as i32,
        h: span(min_y(s), max_y(s)) as i32,
    }
}

/// The extents of the box of `s` fit in an `i32`.
pub open spec fn bb_fits(s: Seq<Vec2>) -> bool {
    &&& fits_i32(span(min_x(s), max_x(s)))
    &&& fits_i32(span(min_y(s), max_y(s)))
    &&& (max_x(s) == min_x(s) ==> fits_i32(max_x(s) + 1))
    &&& (max_y(s) == min_y(s) ==> fits_i32(max_y(s) + 1))
}

/// The extremes of a non-empty list are attained and bound every point.
pub proof fn lemma_extremes(s: Seq<Vec2>)
    requires
        s.len() > 0,
    ensures
        forall|i: int| 0 <= i < s.len() ==> min_x(s) <= #[trigger] s[i].x <= max_x(s),
        forall|i: int| 0 <= i < s.len() ==> min_y(s) <= #[trigger] s[i].y <= max_y(s),
        exists|i: int| 0 <= i < s.len() && s[i].x == min_x(s),
        exists|i: int| 0 <= i < s.len() && s[i].x == max_x(s),
        exists|i: int| 0 <= i < s.len() && s[i].y == min_y(s),
        exists|i: int| 0 <= i < s.len() && s[i].y == max_y(s),
    decreases s.len(),
{
    if s.len() > 1 {
        let t = s.drop_last();
        lemma_extremes(t);
        assert forall|i: int| 0 <= i < s.len() implies min_x(s) <= #[trigger] s[i].x <= max_x(s) by {
            if i < s.len() - 1 {
                assert(s[i] == t[i]);
            }
        }
        assert forall|i: int| 0 <= i < s.len() implies min_y(s) <= #[trigger] s[i].y <= max_y(s) by {
            if i < s.len() - 1 {
                assert(s[i] == t[i]);
            }
        }
        let ix = choose|i: int| 0 <= i < t.len() && t[i].x == min_x(t);
        let ax = choose|i: int| 0 <= i < t.len() && t[i].x == max_x(t);
        let iy = choose|i: int| 0 <= i < t.len() && t[i].y == min_y(t);
        let ay = choose|i: int| 0 <= i < t.len() && t[i].y == max_y(t);
        assert(s[ix] == t[ix] && s[ax] == t[ax] && s[iy] == t[iy] && s[ay] == t[ay]);
        let l = s.len() - 1;
        assert(s[l] == s.last());
    } else {
        assert(s[0].x == min_x(s) && s[0].x == max_x(s) && s[0].y == min_y(s) && s[0].y == max_y(s));
    }
}

/// The box of a list of points reaches from the smallest to the largest
/// coordinate: every point lies between its corner and the far edge.
pub proof fn lemma_box_bounds_points(s: Seq<Vec2>)
    requires
        s.len() > 0,
        bb_fits(s),
    ensures
        forall|i: int|
            0 <= i < s.len() ==> bb_of_points(s).x <= #[trigger] s[i].x <= bb_of_points(s).x + bb_of_points(
                s,
            ).w && bb_of_points(s).y <= s[i].y <= bb_of_points(s).y + bb_of_points(s).h,
        bb_of_points(s).w >= 1,
        bb_of_points(s).h >= 1,
{
    lemma_extremes(s);
    let ix = choose|i: int| 0 <= i < s.len() && s[i].x == min_x(s);
    let iy = choose|i: int| 0 <= i < s.len() && s[i].y == min_y(s);
    assert(fits_i32(min_x(s)) && fits_i32(min_y(s)));
}

impl BB {
    /// Whether the cell `p` lies in the box.
    pub fn intersects(&self, p: Vec2) -> (r: bool)
        requires
            fits_i32(self.x + self.w),
            fits_i32(self.y + self.h),
        ensures
            r == (self.x <= p.x < self.x + self.w && self.y <= p.y < self.y + self.h),
    {
        (p.x >= self.x && p.x < (self.x + self.w)) && (p.y >= self.y && p.y < (self.y + self.h))
    }

    /// The box from the smallest to the largest coordinates of the points,
    /// one cell wide (or high) where all points share that coordinate.
    pub fn from_points(p: &[Vec2]) -> (r: Self)
        requires
            p@.len() > 0,
            bb_fits(p@),
        ensures
            r == bb_of_points(p@),
    {
        let mut min = p[0];
        let mut max = p[0];
        let n = p.len();
        let mut i: usize = 0;
        while i < n
            invariant
                n == p@.len(),
                0 <= i <= n,
                i == 0 ==> min == p@[0] && max == p@[0],
                i > 0 ==> min.x == min_x(p@.take(i as int)) && min.y == min_y(p@.take(i as int))
                    && max.x == max_x(p@.take(i as int)) && max.y == max_y(p@.take(i as int)),
            decreases n - i,
        {
            let q = p[i];
            proof {
                let t = p@.take(i + 1);
                assert(t.drop_last() =~= p@.take(i as int));
                assert(t.last() == q);
            }
            if q.x > max.x {
                max.x = q.x;
            }
            if q.y > max.y {
                max.y = q.y;
            }
            if q.x < min.x {
                min.x = q.x;
            }
            if q.y < min.y {
                min.y = q.y;
            }
            i = i + 1;
        }
        assert(p@.take(n as int) =~= p@);
        if max.y == min.y {
            max.y += 1;
        }
        if max.x == min.x {
            max.x += 1;
        }
        Self { x: min.x, y: min.y, w: max.x - min.x, h: max.y - min.y }
    }
}

/// Twice the signed area of the triangle `p1 p2 p3`: positive on one
/// orientation, negative on the other, zero when the points are collinear.
pub open spec fn sign(p1: Vec2, p2: Vec2, p3: Vec2) -> int {
    (p1.x - p3.x) * (p2.y - p3.y) - (p2.x - p3.x) * (p1.y - p3.y)
}

/// Every intermediate of `sign(p1, p2, p3)` fits in an `i32`.
pub open spec fn sign_fits(p1: Vec2, p2: Vec2, p3: Vec2) -> bool {
    &&& fits_i32(p1.x - p3.x)
    &&& fits_i32(p2.y - p3.y)
    &&& fits_i32(p2.x - p3.x)
    &&& fits_i32(p1.y - p3.y)
    &&& fits_i32((p1.x - p3.x) * (p2.y - p3.y))
    &&& fits_i32((p2.x - p3.x) * (p1.y - p3.y))
    &&& fits_i32(sign(p1, p2, p3))
}

/// Every intermediate of `in_triangle(p1, p2, p3, pos)` fits in an `i32`.
pub open spec fn in_triangle_fits(p1: Vec2, p2: Vec2, p3: Vec2, pos: Vec2) -> bool {
    &&& sign_fits(pos, p1, p2)
    &&& sign_fits(pos, p2, p3)
    &&& sign_fits(pos, p3, p1)
}

/// `pos` lies inside the triangle or on its boundary: the three edge tests
/// do not have both strictly negative and strictly positive members.
pub open spec fn in_triangle_spec(p1: Vec2, p2: Vec2, p3: Vec2, pos: Vec2) -> bool {
    let d1 = sign(pos, p1, p2);
    let d2 = sign(pos, p2, p3);
    let d3 = sign(pos, p3, p1);
    !((d1 < 0 || d2 < 0 || d3 < 0) && (d1 > 0 || d2 > 0 || d3 > 0))
}

fn sign_exec(p1: Vec2, p2: Vec2, p3: Vec2) -> (r: i32)
    requires
        sign_fits(p1, p2, p3),
    ensures
        r == sign(p1, p2, p3),
{
    (p1.x - p3.x) * (p2.y - p3.y) - (p2.x - p3.x) * (p1.y - p3.y)
}

/// Whether `pos` lies inside the triangle `p1 p2 p3`, its boundary included.
pub fn in_triangle(p1: Vec2, p2: Vec2, p3: Vec2, pos: Vec2) -> (r: bool)
    requires
        in_triangle_fits(p1, p2, p3, pos),
    ensures
        r == in_triangle_spec(p1, p2, p3, pos),
{
    let d1 = sign_exec(pos, p1, p2);
    let d2 = sign_exec(pos, p2, p3);
    let d3 = sign_exec(pos, p3, p1);
    let hn = (d1 < 0) || (d2 < 0) || (d3 < 0);
    let hp = (d1 > 0) || (d2 > 0) || (d3 > 0);
    !(hn && hp)
}

/// Reversing the order of three points negates every edge test.
pub proof fn lemma_sign_swap(a: Vec2, b: Vec2, c: Vec2)
    ensures
        sign(a, c, b) == -sign(a, b, c),
        sign(a, b, c) == sign(b, c, a),
{
    assert(sign(a, c, b) == -sign(a, b, c)) by (nonlinear_arith);
    assert(sign(a, b, c) == sign(b, c, a)) by (nonlinear_arith);
}

/// The point-in-triangle test does not depend on where the vertex list
/// starts nor on its orientation.
pub proof fn lemma_in_triangle_vertex_order(p1: Vec2, p2: Vec2, p3: Vec2, pos: Vec2)
    ensures
        in_triangle_spec(p1, p2, p3, pos) == in_triangle_spec(p2, p3, p1, pos),
        in_triangle_spec(p1, p2, p3, pos) == in_triangle_spec(p1, p3, p2, pos),
{
    lemma_sign_swap(pos, p1, p2);
    lemma_sign_swap(pos, p2, p3);
    lemma_sign_swap(pos, p3, p1);
}

/// Each vertex of a triangle lies in the triangle.
pub proof fn lemma_in_triangle_vertices(p1: Vec2, p2: Vec2, p3: Vec2)
    ensures
        in_triangle_spec(p1, p2, p3, p1),
        in_triangle_spec(p1, p2, p3, p2),
        in_triangle_spec(p1, p2, p3, p3),
{
    assert(sign(p1, p1, p2) == 0) by (nonlinear_arith);
    assert(sign(p1, p3, p1) == 0) by (nonlinear_arith);
    assert(sign(p2, p1, p2) == 0) by (nonlinear_arith);
    assert(sign(p2, p2, p3) == 0) by (nonlinear_arith);
    assert(sign(p3, p2, p3) == 0) by (nonlinear_arith);
    assert(sign(p3, p3, p1) == 0) by (nonlinear_arith);
}

/// The smaller of two values: `a` when `a < b`, `b` otherwise.
pub fn min<T: PartialOrd>(a: T, b: T) -> (r: T)
    ensures
        r == a || r == b,
        T::obeys_partial_cmp_spec() ==> r == (if a.is_lt(&b) {
            a
        } else {
            b
        }),
{
    if a < b {
        a
    } else {
        b
    }
}

/// The larger of two values: `a` when `a > b`, `b` otherwise.
pub fn max<T: PartialOrd>(a: T, b: T) -> (r: T)
    ensures
        r == a || r == b,
        T::obeys_partial_cmp_spec() ==> r == (if a.is_gt(&b) {
            a
        } else {
            b
        }),
{
    if a > b {
        a
    } else {
        b
    }
}

/// One step of the xorshift generator (shifts 13, 7, 17).
pub open spec fn xorshift(s: u64) -> u64 {
    let a = s ^ (s << 13u64);
    let b = a ^ (a >> 7u64);
    b ^ (b << 17u64)
}

/// The seed taken from a clock reading in nanoseconds: the reading modulo
/// `u64::MAX`, with 13 in place of 0.
pub open spec fn seed_from_nanos(nanos: u128) -> u64 {
    let h = (nanos % (u64::MAX as u128)) as u64;
    if h == 0 {
        13
    } else {
        h
    }
}

/// Seeds the generator from a clock reading (nanoseconds since the epoch).
pub fn srand_time(state: &mut u64, nanos: u128)
    ensures
        *final(state) == seed_from_nanos(nanos),
{
    let mut h = (nanos % (u64::MAX as u128)) as u64;
    if h == 0 {
        h += 13;
    }
    *state = h;
}

/// Seeds the generator with `v`.
pub fn srand(state: &mut u64, v: u64)
    ensures
        *final(state) == v,
{
    *state = v;
}

/// Advances the generator by one xorshift step and returns the new state.
pub fn rand(state: &mut u64) -> (r: u64)
    ensures
        *final(state) == xorshift(*old(state)),
        r == *final(state),
{
    let mut h = *state;
    h = h ^ (h << 13u64);
    h = h ^ (h >> 7u64);
    h = h ^ (h << 17u64);
    *state = h;
    h
}

/// Advances the generator by one step and returns the new state with its
/// bits read as a signed integer.
pub fn rand_int(state: &mut u64) -> (r: i64)
    ensures
        *final(state) == xorshift(*old(state)),
        r == *final(state) as i64,
{
    let v = rand(state);
    v as i64
}

/// A non-zero state never steps to zero, so a generator seeded from the
/// clock never gets stuck.
pub proof fn lemma_xorshift_nonzero(s: u64)
    requires
        s != 0,
    ensures
        xorshift(s) != 0,
{
    assert(s != 0 ==> ((s ^ (s << 13u64)) ^ ((s ^ (s << 13u64)) >> 7u64)) ^ (((s ^ (s << 13u64))
        ^ ((s ^ (s << 13u64)) >> 7u64)) << 17u64) != 0) by (bit_vector);
}

/// A clock seed is never zero.
pub proof fn lemma_seed_nonzero(nanos: u128)
    ensures
        seed_from_nanos(nanos) != 0,
{
}

/// Vector sum is commutative, and subtracting what was added gives back
/// the vector.
pub proof fn lemma_vec2_add_sub(a: Vec2, b: Vec2)
    requires
        fits_i32(a.x + b.x),
        fits_i32(a.y + b.y),
    ensures
        a.add_spec(b) == b.add_spec(a),
        a.add_spec(b).sub_req(b),
        a.add_spec(b).sub_spec(b) == a,
{
}

/// The squared distance between two points is the squared length of their
/// difference, and the squared length is the dot product with itself.
pub proof fn lemma_dist_is_len_of_difference(a: Vec2, b: Vec2)
    requires
        fits_i32(a.x - b.x),
        fits_i32(a.y - b.y),
    ensures
        dist_spec(a, b) == len_sqr_spec(a.sub_spec(b)),
        len_sqr_spec(a) == dot_spec(a, a),
{
}

} // verus!
