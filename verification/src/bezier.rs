//! Points, cubic Bezier curves and their parametric sampling.

use vstd::prelude::*;

verus! {

/// Number of parameter steps along a curve unless told otherwise. A curve
/// sampled in `n` steps is sampled at `t = k / n` for `k = 0, 1, ..., n`,
/// which gives `n + 1` points.
pub const STEPS: u16 = 100;

/// A position on the pixel grid.
#[derive(Clone, Copy, Debug, PartialEq, Eq, Structural)]
pub struct Point {
    pub x: i32,
    pub y: i32,
}

/// A cubic Bezier curve: two fixed endpoints and two control points.
#[derive(Clone, Copy, Debug, PartialEq, Eq, Structural)]
pub struct Bezier {
    pub start: Point,
    pub control1: Point,
    pub control2: Point,
    pub end: Point,
}

/// Quotient of `n` by a positive `d`, rounded toward zero.
pub open spec fn trunc_div(n: int, d: int) -> int {
    if n >= 0 {
        n / d
    } else {
        -((-n) / d)
    }
}

/// `r` is the square root of `n`, rounded down.
pub open spec fn is_floor_sqrt(n: int, r: int) -> bool {
    0 <= r && r * r <= n < (r + 1) * (r + 1)
}

/// The square root of `n`, rounded down.
pub open spec fn floor_sqrt_of(n: int) -> int {
    choose|r: int| is_floor_sqrt(n, r)
}

/// A number has at most one rounded-down square root.
pub proof fn lemma_floor_sqrt_unique(n: int, r: int)
    requires
        is_floor_sqrt(n, r),
    ensures
        floor_sqrt_of(n) == r,
{
    let s = floor_sqrt_of(n);
    assert(is_floor_sqrt(n, s));
    assert(s == r) by (nonlinear_arith)
        requires
            0 <= r,
            0 <= s,
            r * r <= n < (r + 1) * (r + 1),
            s * s <= n < (s + 1) * (s + 1),
    ;
}

/// Weight of the start point at step `k` of `n`: `(1 - t)^3`, scaled by
/// the cube of `n`.
pub open spec fn weight_start(k: int, n: int) -> int {
    (n - k) * (n - k) * (n - k)
}

/// Weight of the first control point at step `k` of `n`: `3 t (1 - t)^2`,
/// scaled by the cube of `n`.
pub open spec fn weight_control1(k: int, n: int) -> int {
    3 * k * (n - k) * (n - k)
}

/// Weight of the second control point at step `k` of `n`: `3 t^2 (1 - t)`,
/// scaled by the cube of `n`.
pub open spec fn weight_control2(k: int, n: int) -> int {
    3 * k * k * (n - k)
}

/// Weight of the end point at step `k` of `n`: `t^3`, scaled by the cube of
/// `n`.
pub open spec fn weight_end(k: int, n: int) -> int {
    k * k * k
}

/// Sum of the four weights at any step of `n`: the cube of `n`.
pub open spec fn weight_sum(n: int) -> int {
    n * n * n
}

/// The blend of four coordinates at step `k` of `n`, scaled by the cube of
/// `n`.
pub open spec fn blend(k: int, n: int, a: int, b: int, c: int, d: int) -> int {
    weight_start(k, n) * a + weight_control1(k, n) * b + weight_control2(k, n) * c + weight_end(
        k,
        n,
    ) * d
}

/// The coordinate sampled at step `k` of `n` from the four coordinates of a
/// curve: their blend, rounded toward zero. A curve sampled in no steps at
/// all is sampled at its start only.
pub open spec fn sample_coordinate(k: int, n: int, a: int, b: int, c: int, d: int) -> int {
    if n == 0 {
        a
    } else {
        trunc_div(blend(k, n, a, b, c, d), weight_sum(n))
    }
}

/// The smallest of four numbers.
pub open spec fn min4(a: int, b: int, c: int, d: int) -> int {
    let ab = if a <= b { a } else { b };
    let cd = if c <= d { c } else { d };
    if ab <= cd { ab } else { cd }
}

/// The largest of four numbers.
pub open spec fn max4(a: int, b: int, c: int, d: int) -> int {
    let ab = if a >= b { a } else { b };
    let cd = if c >= d { c } else { d };
    if ab >= cd { ab } else { cd }
}

/// The four weights are non-negative and add up to the cube of the number
/// of steps.
pub proof fn lemma_weights(k: int, n: int)
    requires
        0 <= k <= n,
    ensures
        0 <= weight_start(k, n),
        0 <= weight_control1(k, n),
        0 <= weight_control2(k, n),
        0 <= weight_end(k, n),
        weight_start(k, n) + weight_control1(k, n) + weight_control2(k, n) + weight_end(k, n)
            == weight_sum(n),
{
    let u = n - k;
    assert(0 <= u * u * u && 0 <= 3 * k * u * u && 0 <= 3 * k * k * u && 0 <= k * k * k
        && u * u * u + 3 * k * u * u + 3 * k * k * u + k * k * k == (u + k) * (u + k) * (u + k))
        by (nonlinear_arith)
        requires
            0 <= k,
            0 <= u,
    ;
}

/// A blend lies between the smallest and the largest of its four
/// coordinates, each scaled by the sum of the weights.
pub proof fn lemma_blend_bounds(k: int, n: int, a: int, b: int, c: int, d: int)
    requires
        0 <= k <= n,
    ensures
        min4(a, b, c, d) * weight_sum(n) <= blend(k, n, a, b, c, d) <= max4(a, b, c, d)
            * weight_sum(n),
{
    lemma_weights(k, n);
    let w0 = weight_start(k, n);
    let w1 = weight_control1(k, n);
    let w2 = weight_control2(k, n);
    let w3 = weight_end(k, n);
    let lo = min4(a, b, c, d);
    let hi = max4(a, b, c, d);
    assert(lo * (w0 + w1 + w2 + w3) <= w0 * a + w1 * b + w2 * c + w3 * d) by (nonlinear_arith)
        requires
            0 <= w0,
            0 <= w1,
            0 <= w2,
            0 <= w3,
            lo <= a,
            lo <= b,
            lo <= c,
            lo <= d,
    ;
    assert(w0 * a + w1 * b + w2 * c + w3 * d <= hi * (w0 + w1 + w2 + w3)) by (nonlinear_arith)
        requires
            0 <= w0,
            0 <= w1,
            0 <= w2,
            0 <= w3,
            a <= hi,
            b <= hi,
            c <= hi,
            d <= hi,
    ;
}

/// A quotient rounded toward zero lies between two bounds when the
/// dividend lies between the same bounds scaled by the divisor.
proof fn lemma_trunc_div_bounds(value: int, divisor: int, lo: int, hi: int)
    requires
        divisor > 0,
        lo * divisor <= value <= hi * divisor,
    ensures
        lo <= trunc_div(value, divisor) <= hi,
{
    let q = trunc_div(value, divisor);
    if value >= 0 {
        let r = value % divisor;
        assert(value == divisor * (value / divisor) + r && 0 <= r < divisor) by (nonlinear_arith)
            requires
                divisor > 0,
                r == value % divisor,
        ;
        assert(lo <= q <= hi) by (nonlinear_arith)
            requires
                divisor > 0,
                value >= 0,
                lo * divisor <= value <= hi * divisor,
                value == divisor * q + r,
                0 <= r < divisor,
        ;
    } else {
        let m = -value;
        let r = m % divisor;
        assert(m == divisor * (m / divisor) + r && 0 <= r < divisor) by (nonlinear_arith)
            requires
                divisor > 0,
                r == m % divisor,
        ;
        assert(lo <= q <= hi) by (nonlinear_arith)
            requires
                divisor > 0,
                m > 0,
                lo * divisor <= -m <= hi * divisor,
                m == divisor * (-q) + r,
                0 <= r < divisor,
        ;
    }
}

/// A sampled coordinate lies between the smallest and the largest of the
/// four coordinates it blends.
pub proof fn lemma_sample_bounds(k: int, n: int, a: int, b: int, c: int, d: int)
    requires
        0 <= k <= n,
    ensures
        min4(a, b, c, d) <= sample_coordinate(k, n, a, b, c, d) <= max4(a, b, c, d),
{
    if n > 0 {
        lemma_blend_bounds(k, n, a, b, c, d);
        assert(weight_sum(n) > 0) by (nonlinear_arith)
            requires
                n > 0,
        ;
        lemma_trunc_div_bounds(
            blend(k, n, a, b, c, d),
            weight_sum(n),
            min4(a, b, c, d),
            max4(a, b, c, d),
        );
    }
}

impl Point {
    /// Squared Euclidean distance between two points.
    pub open spec fn distance_squared(self, other: Point) -> int {
        (self.x - other.x) * (self.x - other.x) + (self.y - other.y) * (self.y - other.y)
    }

    /// The midpoint of two points, each coordinate rounded down.
    pub open spec fn midpoint(self, other: Point) -> Point {
        Point { x: ((self.x + other.x) / 2) as i32, y: ((self.y + other.y) / 2) as i32 }
    }

    /// Euclidean distance between two points, rounded down.
    pub open spec fn span(self, other: Point) -> int {
        floor_sqrt_of(self.distance_squared(other))
    }

    /// Euclidean distance to `other`, rounded down to a whole number.
    pub fn distance(&self, other: &Point) -> (d: i64)
        ensures
            d == self.span(*other),
            is_floor_sqrt(self.distance_squared(*other), d as int),
            0 <= d <= 0x1_8000_0000,
            d == 0 <==> *self == *other,
    {
        let dx: i64 = self.x as i64 - other.x as i64;
        let dy: i64 = self.y as i64 - other.y as i64;
        let ax: u64 = if dx >= 0 { dx as u64 } else { (-dx) as u64 };
        let ay: u64 = if dy >= 0 { dy as u64 } else { (-dy) as u64 };
        assert(ax * ax == dx * dx && ay * ay == dy * dy) by (nonlinear_arith)
            requires
                ax == if dx >= 0 { dx as int } else { -dx },
                ay == if dy >= 0 { dy as int } else { -dy },
        ;
        assert(ax * ax <= 0xffff_ffff * 0xffff_ffff && ay * ay <= 0xffff_ffff * 0xffff_ffff)
            by (nonlinear_arith)
            requires
                ax <= 0xffff_ffff,
                ay <= 0xffff_ffff,
        ;
        let sum: u128 = (ax as u128) * (ax as u128) + (ay as u128) * (ay as u128);
        let root: u64 = floor_sqrt(sum);
        proof {
            lemma_floor_sqrt_unique(sum as int, root as int);
            assert((dx == 0 && dy == 0) <==> dx * dx + dy * dy < 1) by (nonlinear_arith);
            assert(root == 0 <==> sum < 1) by (nonlinear_arith)
                requires
                    0 <= root,
                    root * root <= sum < (root + 1) * (root + 1),
            ;
        }
        root as i64
    }

    /// The midpoint between this point and `other`.
    pub fn middle(&self, other: &Point) -> (m: Point)
        ensures
            m == self.midpoint(*other),
    {
        Point {
            x: floor_half(self.x as i64 + other.x as i64),
            y: floor_half(self.y as i64 + other.y as i64),
        }
    }
}

/// Half of the sum of two coordinates, rounded down.
fn floor_half(sum: i64) -> (h: i32)
    requires
        2 * i32::MIN <= sum <= 2 * i32::MAX,
    ensures
        h == sum as int / 2,
{
    if sum >= 0 {
        (sum / 2) as i32
    } else {
        (-((1 - sum) / 2)) as i32
    }
}

/// Square root of `n`, rounded down, found by bisection.
fn floor_sqrt(n: u128) -> (r: u64)
    requires
        n <= 2 * (0xffff_ffff * 0xffff_ffff),
    ensures
        is_floor_sqrt(n as int, r as int),
        r <= 0x1_8000_0000,
{
    let mut low: u64 = 0;
    let mut high: u64 = 0x1_8000_0001;
    assert(0x1_8000_0001 * 0x1_8000_0001 > 2 * (0xffff_ffff * 0xffff_ffff)) by (nonlinear_arith);
    while high - low > 1
        invariant
            low < high <= 0x1_8000_0001,
            low * low <= n < high * high,
        decreases high - low,
    {
        let mid: u64 = low + (high - low) / 2;
        assert(mid * mid <= 0x1_8000_0001 * 0x1_8000_0001) by (nonlinear_arith)
            requires
                0 <= mid <= 0x1_8000_0001,
        ;
        if (mid as u128) * (mid as u128) <= n {
            low = mid;
        } else {
            high = mid;
        }
    }
    low
}

impl Bezier {
    /// The point of the curve at step `k` of `steps`: each coordinate is
    /// the blend of the four corresponding coordinates, rounded toward
    /// zero.
    pub open spec fn point_at(self, k: int, steps: int) -> Point {
        Point {
            x: sample_coordinate(
                k,
                steps,
                self.start.x as int,
                self.control1.x as int,
                self.control2.x as int,
                self.end.x as int,
            ) as i32,
            y: sample_coordinate(
                k,
                steps,
                self.start.y as int,
                self.control1.y as int,
                self.control2.y as int,
                self.end.y as int,
            ) as i32,
        }
    }

    /// The point at step `k` of `steps`, or `None` past the last step.
    pub fn sample(&self, k: u32, steps: u16) -> (p: Option<Point>)
        ensures
            p == if k <= steps {
                Some(self.point_at(k as int, steps as int))
            } else {
                None
            },
    {
        if k > steps as u32 {
            return None;
        }
        let x: i32 = blend_coordinate(
            k,
            steps,
            self.start.x,
            self.control1.x,
            self.control2.x,
            self.end.x,
        );
        let y: i32 = blend_coordinate(
            k,
            steps,
            self.start.y,
            self.control1.y,
            self.control2.y,
            self.end.y,
        );
        Some(Point { x, y })
    }

    /// A cursor over the sample points of the curve in `STEPS` steps,
    /// placed before the first.
    pub fn iter(&self) -> (cursor: BezierIter<'_>)
        ensures
            cursor.curve() == *self,
            cursor.steps() == STEPS,
            cursor.position() == 0,
    {
        BezierIter { bezier: self, steps: STEPS, position: 0 }
    }

    /// A cursor over the sample points of the curve in `steps` steps,
    /// placed before the first.
    pub fn iter_with(&self, steps: u16) -> (cursor: BezierIter<'_>)
        ensures
            cursor.curve() == *self,
            cursor.steps() == steps,
            cursor.position() == 0,
    {
        BezierIter { bezier: self, steps, position: 0 }
    }

    /// All `steps + 1` sample points in order.
    pub fn samples(&self, steps: u16) -> (points: Vec<Point>)
        ensures
            points@.len() == steps + 1,
            forall|k: int| 0 <= k <= steps ==> points@[k] == self.point_at(k, steps as int),
    {
        let mut points: Vec<Point> = Vec::new();
        let mut cursor = self.iter_with(steps);
        loop
            invariant
                cursor.curve() == *self,
                cursor.steps() == steps,
                cursor.position() == points@.len(),
                points@.len() <= steps + 1,
                forall|k: int|
                    0 <= k < points@.len() ==> points@[k] == self.point_at(k, steps as int),
            ensures
                points@.len() == steps + 1,
            decreases steps + 1 - points@.len(),
        {
            match cursor.next() {
                Some(p) => {
                    points.push(p);
                },
                None => {
                    break ;
                },
            }
        }
        points
    }
}

/// One sampled coordinate, computed without overflow.
fn blend_coordinate(k: u32, steps: u16, a: i32, b: i32, c: i32, d: i32) -> (v: i32)
    requires
        k <= steps,
    ensures
        v == sample_coordinate(k as int, steps as int, a as int, b as int, c as int, d as int),
{
    if steps == 0 {
        return a;
    }
    let n: i128 = steps as i128;
    let t: i128 = k as i128;
    let u: i128 = n - t;
    proof {
        lemma_weights(k as int, steps as int);
        lemma_sample_bounds(k as int, steps as int, a as int, b as int, c as int, d as int);
        assert(0 <= u * u <= 0x1_0000_0000 && 0 <= t * t <= 0x1_0000_0000 && 0 < n * n
            <= 0x1_0000_0000) by (nonlinear_arith)
            requires
                0 <= t <= 0xffff,
                0 <= u <= 0xffff,
                0 < n <= 0xffff,
        ;
    }
    let uu: i128 = u * u;
    let tt: i128 = t * t;
    let nn: i128 = n * n;
    proof {
        assert(0 <= uu * u <= 0x1_0000_0000_0000 && 0 <= t * uu <= 0x1_0000_0000_0000 && 0 <= tt
            * u <= 0x1_0000_0000_0000 && 0 <= tt * t <= 0x1_0000_0000_0000 && 0 < nn * n
            <= 0x1_0000_0000_0000) by (nonlinear_arith)
            requires
                0 <= t <= 0xffff,
                0 <= u <= 0xffff,
                0 < n <= 0xffff,
                0 <= uu <= 0x1_0000_0000,
                0 <= tt <= 0x1_0000_0000,
                0 < nn <= 0x1_0000_0000,
        ;
        assert(uu * u == u * u * u && 3 * (t * uu) == 3 * t * u * u && 3 * (tt * u) == 3 * t * t
            * u && tt * t == t * t * t && nn * n == n * n * n) by (nonlinear_arith)
            requires
                uu == u * u,
                tt == t * t,
                nn == n * n,
        ;
    }
    let w0: i128 = uu * u;
    let w1: i128 = 3 * (t * uu);
    let w2: i128 = 3 * (tt * u);
    let w3: i128 = tt * t;
    let total: i128 = nn * n;
    proof {
        assert(w0 == weight_start(k as int, steps as int));
        assert(w1 == weight_control1(k as int, steps as int));
        assert(w2 == weight_control2(k as int, steps as int));
        assert(w3 == weight_end(k as int, steps as int));
        assert(total == weight_sum(steps as int));
        assert(-0x8000_0000 * 0x3_0000_0000_0000 <= w0 * a <= 0x8000_0000 * 0x3_0000_0000_0000
            && -0x8000_0000 * 0x3_0000_0000_0000 <= w1 * b <= 0x8000_0000 * 0x3_0000_0000_0000
            && -0x8000_0000 * 0x3_0000_0000_0000 <= w2 * c <= 0x8000_0000 * 0x3_0000_0000_0000
            && -0x8000_0000 * 0x3_0000_0000_0000 <= w3 * d <= 0x8000_0000 * 0x3_0000_0000_0000)
            by (nonlinear_arith)
            requires
                0 <= w0 <= 0x3_0000_0000_0000,
                0 <= w1 <= 0x3_0000_0000_0000,
                0 <= w2 <= 0x3_0000_0000_0000,
                0 <= w3 <= 0x3_0000_0000_0000,
                -0x8000_0000 <= a < 0x8000_0000,
                -0x8000_0000 <= b < 0x8000_0000,
                -0x8000_0000 <= c < 0x8000_0000,
                -0x8000_0000 <= d < 0x8000_0000,
        ;
    }
    let sum: i128 = w0 * (a as i128) + w1 * (b as i128) + w2 * (c as i128) + w3 * (d as i128);
    (sum / total) as i32
}

/// A cursor over the sample points of a curve.
pub struct BezierIter<'a> {
    bezier: &'a Bezier,
    steps: u16,
    position: u32,
}

impl<'a> BezierIter<'a> {
    #[verifier::type_invariant]
    spec fn in_range(&self) -> bool {
        self.position <= self.steps + 1
    }

    /// The curve being sampled.
    pub closed spec fn curve(&self) -> Bezier {
        *self.bezier
    }

    /// The number of steps in which the curve is sampled.
    pub closed spec fn steps(&self) -> nat {
        self.steps as nat
    }

    /// The step of the next point to be returned; one past the last step
    /// when all points have been returned.
    pub closed spec fn position(&self) -> nat {
        self.position as nat
    }

    /// Returns the next sample point and moves past it, or `None` once all
    /// points have been returned.
    pub fn next(&mut self) -> (item: Option<Point>)
        ensures
            final(self).curve() == old(self).curve(),
            final(self).steps() == old(self).steps(),
            old(self).position() <= old(self).steps() ==> item == Some(
                old(self).curve().point_at(old(self).position() as int, old(self).steps() as int),
            ) && final(self).position() == old(self).position() + 1,
            old(self).position() > old(self).steps() ==> item.is_none() && final(self).position()
                == old(self).position(),
    {
        proof {
            use_type_invariant(&*self);
        }
        if self.position > self.steps as u32 {
            return None;
        }
        let item = self.bezier.sample(self.position, self.steps);
        self.position = self.position + 1;
        item
    }
}

/// Sampled in any number of steps, a curve begins at its start point, and
/// sampled in at least one step it finishes at its end point.
pub proof fn lemma_sample_endpoints(curve: Bezier, steps: int)
    requires
        0 <= steps,
    ensures
        curve.point_at(0, steps) == curve.start,
        steps >= 1 ==> curve.point_at(steps, steps) == curve.end,
{
    if steps >= 1 {
        lemma_endpoint_coordinates(
            steps,
            curve.start.x as int,
            curve.control1.x as int,
            curve.control2.x as int,
            curve.end.x as int,
        );
        lemma_endpoint_coordinates(
            steps,
            curve.start.y as int,
            curve.control1.y as int,
            curve.control2.y as int,
            curve.end.y as int,
        );
    }
}

/// Every sample of a curve lies in the smallest upright rectangle that
/// holds its four points.
pub proof fn lemma_sample_in_bounding_box(curve: Bezier, k: int, steps: int)
    requires
        0 <= k <= steps,
    ensures
        min4(
            curve.start.x as int,
            curve.control1.x as int,
            curve.control2.x as int,
            curve.end.x as int,
        ) <= curve.point_at(k, steps).x <= max4(
            curve.start.x as int,
            curve.control1.x as int,
            curve.control2.x as int,
            curve.end.x as int,
        ),
        min4(
            curve.start.y as int,
            curve.control1.y as int,
            curve.control2.y as int,
            curve.end.y as int,
        ) <= curve.point_at(k, steps).y <= max4(
            curve.start.y as int,
            curve.control1.y as int,
            curve.control2.y as int,
            curve.end.y as int,
        ),
{
    lemma_sample_bounds(
        k,
        steps,
        curve.start.x as int,
        curve.control1.x as int,
        curve.control2.x as int,
        curve.end.x as int,
    );
    lemma_sample_bounds(
        k,
        steps,
        curve.start.y as int,
        curve.control1.y as int,
        curve.control2.y as int,
        curve.end.y as int,
    );
}

/// At the first step a blend is its first coordinate and at the last step
/// its last.
proof fn lemma_endpoint_coordinates(n: int, a: int, b: int, c: int, d: int)
    requires
        n >= 1,
    ensures
        sample_coordinate(0, n, a, b, c, d) == a,
        sample_coordinate(n, n, a, b, c, d) == d,
{
    let total = weight_sum(n);
    assert(total > 0 && weight_start(0, n) == total && weight_control1(0, n) == 0
        && weight_control2(0, n) == 0 && weight_end(0, n) == 0 && weight_start(n, n) == 0
        && weight_control1(n, n) == 0 && weight_control2(n, n) == 0 && weight_end(n, n) == total)
        by (nonlinear_arith)
        requires
            n >= 1,
            total == n * n * n,
    ;
    assert(blend(0, n, a, b, c, d) == a * total) by (nonlinear_arith)
        requires
            blend(0, n, a, b, c, d) == weight_start(0, n) * a + weight_control1(0, n) * b
                + weight_control2(0, n) * c + weight_end(0, n) * d,
            weight_start(0, n) == total,
            weight_control1(0, n) == 0,
            weight_control2(0, n) == 0,
            weight_end(0, n) == 0,
    ;
    assert(blend(n, n, a, b, c, d) == d * total) by (nonlinear_arith)
        requires
            blend(n, n, a, b, c, d) == weight_start(n, n) * a + weight_control1(n, n) * b
                + weight_control2(n, n) * c + weight_end(n, n) * d,
            weight_start(n, n) == 0,
            weight_control1(n, n) == 0,
            weight_control2(n, n) == 0,
            weight_end(n, n) == total,
    ;
    lemma_trunc_div_bounds(a * total, total, a, a);
    lemma_trunc_div_bounds(d * total, total, d, d);
}

} // verus!
