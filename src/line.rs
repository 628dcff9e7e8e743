use vstd::prelude::*;

verus! {

/// Largest magnitude of a coordinate. With it, every product in the
/// two-line determinant formula fits in an `i64`.
pub const COORD_MAX: i64 = 1_000_000;

pub open spec fn abs(a: int) -> int {
    if a < 0 {
        -a
    } else {
        a
    }
}

/// Integer division rounding toward zero, as `i64::checked_div` computes it.
pub open spec fn quot(n: int, d: int) -> int {
    if n == 0 {
        0
    } else if (n > 0) == (d > 0) {
        abs(n) / abs(d)
    } else {
        -(abs(n) / abs(d))
    }
}

/// A point of the plane.
#[derive(Clone, Copy, Debug, PartialEq, Eq, Structural)]
pub struct Point {
    pub x: i64,
    pub y: i64,
}

impl Point {
    pub open spec fn bounded(self) -> bool {
        -COORD_MAX <= self.x <= COORD_MAX && -COORD_MAX <= self.y <= COORD_MAX
    }

    pub fn new(x: i64, y: i64) -> (r: Point)
        ensures
            r == (Point { x, y }),
    {
        Point { x, y }
    }
}

/// An endless line through two points.
#[derive(Clone, Copy, Debug, PartialEq, Eq, Structural)]
pub struct Line {
    pub p1: Point,
    pub p2: Point,
}

/// `x1 * y2 - y1 * x2` of the line's two points.
pub open spec fn det(l: Line) -> int {
    l.p1.x * l.p2.y - l.p1.y * l.p2.x
}

/// Zero exactly when the two lines are parallel or the same line.
pub open spec fn denominator(a: Line, b: Line) -> int {
    (a.p1.x - a.p2.x) * (b.p1.y - b.p2.y) - (a.p1.y - a.p2.y) * (b.p1.x - b.p2.x)
}

pub open spec fn numer_x(a: Line, b: Line) -> int {
    det(a) * (b.p1.x - b.p2.x) - (a.p1.x - a.p2.x) * det(b)
}

pub open spec fn numer_y(a: Line, b: Line) -> int {
    det(a) * (b.p1.y - b.p2.y) - (a.p1.y - a.p2.y) * det(b)
}

/// The crossing point of two lines, with coordinates rounded toward zero;
/// none for parallel or identical lines.
pub open spec fn meet(a: Line, b: Line) -> Option<Point> {
    let d = denominator(a, b);
    if d == 0 {
        None
    } else {
        Some(Point { x: quot(numer_x(a, b), d) as i64, y: quot(numer_y(a, b), d) as i64 })
    }
}

/// `p` satisfies the equation of the line through `l.p1` and `l.p2`.
pub open spec fn on_line(p: Point, l: Line) -> bool {
    (p.x - l.p1.x) * (l.p2.y - l.p1.y) == (p.y - l.p1.y) * (l.p2.x - l.p1.x)
}

proof fn lemma_mul_bound(a: int, b: int, ma: int, mb: int)
    requires
        abs(a) <= ma,
        abs(b) <= mb,
    ensures
        abs(a * b) <= ma * mb,
{
    lemma_abs_mul(a, b);
    assert(abs(a) * abs(b) <= ma * mb) by (nonlinear_arith)
        requires
            0 <= abs(a) <= ma,
            0 <= abs(b) <= mb,
    ;
}

proof fn lemma_abs_mul(a: int, b: int)
    ensures
        abs(a * b) == abs(a) * abs(b),
{
    if a < 0 && b < 0 {
        assert(a * b == (-a) * (-b) && (-a) * (-b) >= 0) by (nonlinear_arith)
            requires
                a < 0,
                b < 0,
        ;
    } else if a < 0 {
        assert(a * b <= 0 && -(a * b) == (-a) * b) by (nonlinear_arith)
            requires
                a < 0,
                b >= 0,
        ;
    } else if b < 0 {
        assert(a * b <= 0 && -(a * b) == a * (-b)) by (nonlinear_arith)
            requires
                a >= 0,
                b < 0,
        ;
    } else {
        assert(a * b >= 0) by (nonlinear_arith)
            requires
                a >= 0,
                b >= 0,
        ;
    }
}

proof fn lemma_quot_bound(n: int, d: int)
    requires
        d != 0,
    ensures
        abs(quot(n, d)) <= abs(n),
{
    if n != 0 {
        assert(abs(n) / abs(d) <= abs(n)) by (nonlinear_arith)
            requires
                abs(d) >= 1,
                abs(n) >= 0,
        ;
    }
}

/// Exact division gives back the quotient.
proof fn lemma_quot_exact(k: int, d: int)
    requires
        d != 0,
    ensures
        quot(k * d, d) == k,
{
    let n = k * d;
    lemma_abs_mul(k, d);
    vstd::arithmetic::div_mod::lemma_div_multiples_vanish(abs(k), abs(d));
    assert(abs(d) * abs(k) == abs(k) * abs(d)) by (nonlinear_arith);
    if n == 0 {
        assert(k == 0) by (nonlinear_arith)
            requires
                k * d == 0,
                d != 0,
        ;
    } else if (n > 0) == (d > 0) {
        assert(k > 0) by (nonlinear_arith)
            requires
                n == k * d,
                n != 0,
                (n > 0) == (d > 0),
        ;
    } else {
        assert(k < 0) by (nonlinear_arith)
            requires
                n == k * d,
                n != 0,
                (n > 0) != (d > 0),
                d != 0,
        ;
    }
}

proof fn lemma_meet_bounds(a: Line, b: Line)
    requires
        a.p1.bounded(),
        a.p2.bounded(),
        b.p1.bounded(),
        b.p2.bounded(),
    ensures
        abs(a.p1.x * a.p2.y) <= COORD_MAX * COORD_MAX,
        abs(a.p1.y * a.p2.x) <= COORD_MAX * COORD_MAX,
        abs(b.p1.x * b.p2.y) <= COORD_MAX * COORD_MAX,
        abs(b.p1.y * b.p2.x) <= COORD_MAX * COORD_MAX,
        abs((a.p1.x - a.p2.x) * (b.p1.y - b.p2.y)) <= 4 * COORD_MAX * COORD_MAX,
        abs((a.p1.y - a.p2.y) * (b.p1.x - b.p2.x)) <= 4 * COORD_MAX * COORD_MAX,
        abs(det(a) * (b.p1.x - b.p2.x)) <= 4 * COORD_MAX * COORD_MAX * COORD_MAX,
        abs((a.p1.x - a.p2.x) * det(b)) <= 4 * COORD_MAX * COORD_MAX * COORD_MAX,
        abs(det(a) * (b.p1.y - b.p2.y)) <= 4 * COORD_MAX * COORD_MAX * COORD_MAX,
        abs((a.p1.y - a.p2.y) * det(b)) <= 4 * COORD_MAX * COORD_MAX * COORD_MAX,
        abs(denominator(a, b)) <= 8 * COORD_MAX * COORD_MAX,
        abs(numer_x(a, b)) <= 8 * COORD_MAX * COORD_MAX * COORD_MAX,
        abs(numer_y(a, b)) <= 8 * COORD_MAX * COORD_MAX * COORD_MAX,
{
    let m = COORD_MAX as int;
    lemma_mul_bound(a.p1.x as int, a.p2.y as int, m, m);
    lemma_mul_bound(a.p1.y as int, a.p2.x as int, m, m);
    lemma_mul_bound(b.p1.x as int, b.p2.y as int, m, m);
    lemma_mul_bound(b.p1.y as int, b.p2.x as int, m, m);
    lemma_mul_bound(a.p1.x - a.p2.x, b.p1.y - b.p2.y, 2 * m, 2 * m);
    lemma_mul_bound(a.p1.y - a.p2.y, b.p1.x - b.p2.x, 2 * m, 2 * m);
    lemma_mul_bound(det(a), b.p1.x - b.p2.x, 2 * m * m, 2 * m);
    lemma_mul_bound(a.p1.x - a.p2.x, det(b), 2 * m, 2 * m * m);
    lemma_mul_bound(det(a), b.p1.y - b.p2.y, 2 * m * m, 2 * m);
    lemma_mul_bound(a.p1.y - a.p2.y, det(b), 2 * m, 2 * m * m);
}

impl Line {
    pub open spec fn bounded(self) -> bool {
        self.p1.bounded() && self.p2.bounded()
    }

    /// Calculates where two lines cross. Parallel lines and two equal lines
    /// give `None`. The coordinates are rounded toward zero where the crossing
    /// does not lie on the integer grid.
    pub fn intersection(&self, other: &Line) -> (r: Option<Point>)
        requires
            self.bounded(),
            other.bounded(),
        ensures
            r == meet(*self, *other),
    {
        proof {
            lemma_meet_bounds(*self, *other);
        }
        let adx = self.p1.x - self.p2.x;
        let ady = self.p1.y - self.p2.y;
        let bdx = other.p1.x - other.p2.x;
        let bdy = other.p1.y - other.p2.y;
        let denominator = adx * bdy - ady * bdx;
        if denominator == 0 {
            return None;
        }
        let adet = self.p1.x * self.p2.y - self.p1.y * self.p2.x;
        let bdet = other.p1.x * other.p2.y - other.p1.y * other.p2.x;
        let nx = adet * bdx - adx * bdet;
        let ny = adet * bdy - ady * bdet;
        proof {
            lemma_quot_bound(nx as int, denominator as int);
            lemma_quot_bound(ny as int, denominator as int);
        }
        let x = nx.checked_div(denominator).unwrap();
        let y = ny.checked_div(denominator).unwrap();
        Some(Point { x, y })
    }
}

/// For two lines that are not parallel, whose crossing lies on the integer
/// grid, `meet` finds a point lying on both lines; for parallel or identical
/// lines it finds none.
pub proof fn lemma_intersection_on_both_lines(a: Line, b: Line)
    requires
        a.bounded(),
        b.bounded(),
    ensures
        meet(a, b) is None <==> denominator(a, b) == 0,
        denominator(a, b) != 0 && numer_x(a, b) % denominator(a, b) == 0 && numer_y(a, b)
            % denominator(a, b) == 0 ==> on_line(meet(a, b)->0, a) && on_line(meet(a, b)->0, b),
{
    let d = denominator(a, b);
    let nx = numer_x(a, b);
    let ny = numer_y(a, b);
    if d != 0 && nx % d == 0 && ny % d == 0 {
        lemma_meet_bounds(a, b);
        let kx = nx / d;
        let ky = ny / d;
        vstd::arithmetic::div_mod::lemma_fundamental_div_mod(nx, d);
        vstd::arithmetic::div_mod::lemma_fundamental_div_mod(ny, d);
        assert(nx == kx * d) by (nonlinear_arith)
            requires
                nx == d * kx + 0,
        ;
        assert(ny == ky * d) by (nonlinear_arith)
            requires
                ny == d * ky + 0,
        ;
        lemma_quot_exact(kx, d);
        lemma_quot_exact(ky, d);
        lemma_quot_bound(nx, d);
        lemma_quot_bound(ny, d);
        let p = meet(a, b)->0;
        assert(p.x == kx && p.y == ky);
        lemma_crossing_on_line(a, b, kx, ky);
    }
}

proof fn lemma_crossing_on_line(a: Line, b: Line, kx: int, ky: int)
    requires
        denominator(a, b) != 0,
        kx * denominator(a, b) == numer_x(a, b),
        ky * denominator(a, b) == numer_y(a, b),
    ensures
        (kx - a.p1.x) * (a.p2.y - a.p1.y) == (ky - a.p1.y) * (a.p2.x - a.p1.x),
        (kx - b.p1.x) * (b.p2.y - b.p1.y) == (ky - b.p1.y) * (b.p2.x - b.p1.x),
{
    let (x1, y1, x2, y2) = (a.p1.x as int, a.p1.y as int, a.p2.x as int, a.p2.y as int);
    let (x3, y3, x4, y4) = (b.p1.x as int, b.p1.y as int, b.p2.x as int, b.p2.y as int);
    let d = denominator(a, b);
    let nx = numer_x(a, b);
    let ny = numer_y(a, b);
    let (u, v, p, q) = (x1 - x2, y1 - y2, x3 - x4, y3 - y4);
    let (d1, d2) = (x1 * y2 - y1 * x2, x3 * y4 - y3 * x4);
    assert(d == u * q - v * p);
    assert(nx == d1 * p - u * d2);
    assert(ny == d1 * q - v * d2);
    assert(d * ((kx - x1) * (y2 - y1) - (ky - y1) * (x2 - x1)) == (kx * d - x1 * d) * (y2 - y1)
        - (ky * d - y1 * d) * (x2 - x1)) by (nonlinear_arith);
    assert(d * ((kx - x3) * (y4 - y3) - (ky - y3) * (x4 - x3)) == (kx * d - x3 * d) * (y4 - y3)
        - (ky * d - y3 * d) * (x4 - x3)) by (nonlinear_arith);
    assert(v * x1 - u * y1 == -d1) by (nonlinear_arith)
        requires
            u == x1 - x2,
            v == y1 - y2,
            d1 == x1 * y2 - y1 * x2,
    ;
    assert(q * x3 - p * y3 == -d2) by (nonlinear_arith)
        requires
            p == x3 - x4,
            q == y3 - y4,
            d2 == x3 * y4 - y3 * x4,
    ;
    assert(y2 - y1 == -v && x2 - x1 == -u && y4 - y3 == -q && x4 - x3 == -p);
    lemma_expand_first(nx, ny, d, d1, d2, u, v, p, q, x1, y1);
    lemma_expand_second(nx, ny, d, d1, d2, u, v, p, q, x3, y3);
    assert(d * (v * x1 - u * y1) == -(d1 * d)) by (nonlinear_arith)
        requires
            v * x1 - u * y1 == -d1,
    ;
    assert(d * (q * x3 - p * y3) == -(d2 * d)) by (nonlinear_arith)
        requires
            q * x3 - p * y3 == -d2,
    ;
    assert((kx * d - x1 * d) * (y2 - y1) - (ky * d - y1 * d) * (x2 - x1) == 0);
    assert((kx * d - x3 * d) * (y4 - y3) - (ky * d - y3 * d) * (x4 - x3) == 0);
    lemma_zero_factor(d, (kx - x1) * (y2 - y1) - (ky - y1) * (x2 - x1));
    lemma_zero_factor(d, (kx - x3) * (y4 - y3) - (ky - y3) * (x4 - x3));
}

proof fn lemma_expand_first(
    nx: int,
    ny: int,
    d: int,
    d1: int,
    d2: int,
    u: int,
    v: int,
    p: int,
    q: int,
    s: int,
    t: int,
)
    requires
        d == u * q - v * p,
        nx == d1 * p - u * d2,
        ny == d1 * q - v * d2,
    ensures
        (nx - s * d) * (-v) - (ny - t * d) * (-u) == d1 * d + d * (v * s - u * t),
{
    assert((nx - s * d) * (-v) == -(v * nx) + v * s * d) by (nonlinear_arith);
    assert((ny - t * d) * (-u) == -(u * ny) + u * t * d) by (nonlinear_arith);
    assert(v * nx == v * d1 * p - v * u * d2) by (nonlinear_arith)
        requires
            nx == d1 * p - u * d2,
    ;
    assert(u * ny == u * d1 * q - u * v * d2) by (nonlinear_arith)
        requires
            ny == d1 * q - v * d2,
    ;
    assert(d1 * d == u * d1 * q - v * d1 * p) by (nonlinear_arith)
        requires
            d == u * q - v * p,
    ;
    assert(d * (v * s - u * t) == v * s * d - u * t * d) by (nonlinear_arith);
    assert(v * u * d2 == u * v * d2) by (nonlinear_arith);
}

proof fn lemma_expand_second(
    nx: int,
    ny: int,
    d: int,
    d1: int,
    d2: int,
    u: int,
    v: int,
    p: int,
    q: int,
    s: int,
    t: int,
)
    requires
        d == u * q - v * p,
        nx == d1 * p - u * d2,
        ny == d1 * q - v * d2,
    ensures
        (nx - s * d) * (-q) - (ny - t * d) * (-p) == d2 * d + d * (q * s - p * t),
{
    assert((nx - s * d) * (-q) == -(q * nx) + q * s * d) by (nonlinear_arith);
    assert((ny - t * d) * (-p) == -(p * ny) + p * t * d) by (nonlinear_arith);
    assert(q * nx == q * d1 * p - q * u * d2) by (nonlinear_arith)
        requires
            nx == d1 * p - u * d2,
    ;
    assert(p * ny == p * d1 * q - p * v * d2) by (nonlinear_arith)
        requires
            ny == d1 * q - v * d2,
    ;
    assert(d2 * d == u * q * d2 - v * p * d2) by (nonlinear_arith)
        requires
            d == u * q - v * p,
    ;
    assert(d * (q * s - p * t) == q * s * d - p * t * d) by (nonlinear_arith);
    assert(q * d1 * p == p * d1 * q) by (nonlinear_arith);
    assert(q * u * d2 == u * q * d2) by (nonlinear_arith);
    assert(p * v * d2 == v * p * d2) by (nonlinear_arith);
}

proof fn lemma_zero_factor(d: int, e: int)
    requires
        d != 0,
        d * e == 0,
    ensures
        e == 0,
{
    assert(e == 0) by (nonlinear_arith)
        requires
            d != 0,
            d * e == 0,
    ;
}

/// A horizontal and a vertical line, each through two distinct points, cross
/// at the vertical one's `x` and the horizontal one's `y`, in either order.
pub proof fn lemma_meet_axis(h: Line, v: Line)
    requires
        h.p1.y == h.p2.y,
        h.p1.x != h.p2.x,
        v.p1.x == v.p2.x,
        v.p1.y != v.p2.y,
    ensures
        meet(h, v) == Some(Point { x: v.p1.x, y: h.p1.y }),
        meet(v, h) == Some(Point { x: v.p1.x, y: h.p1.y }),
{
    let (x1, x2, a) = (h.p1.x as int, h.p2.x as int, h.p1.y as int);
    let (y1, y2, b) = (v.p1.y as int, v.p2.y as int, v.p1.x as int);
    let d = (x1 - x2) * (y1 - y2);
    assert(d != 0) by (nonlinear_arith)
        requires
            x1 != x2,
            y1 != y2,
            d == (x1 - x2) * (y1 - y2),
    ;
    assert(denominator(h, v) == d);
    assert(denominator(v, h) == -d);
    assert(det(h) == a * (x1 - x2)) by (nonlinear_arith)
        requires
            det(h) == x1 * a - a * x2,
    ;
    assert(det(v) == b * (y2 - y1)) by (nonlinear_arith)
        requires
            det(v) == b * y2 - y1 * b,
    ;
    assert(numer_x(h, v) == b * d) by (nonlinear_arith)
        requires
            numer_x(h, v) == det(h) * (b - b) - (x1 - x2) * det(v),
            det(v) == b * (y2 - y1),
            d == (x1 - x2) * (y1 - y2),
    ;
    assert(numer_y(h, v) == a * d) by (nonlinear_arith)
        requires
            numer_y(h, v) == det(h) * (y1 - y2) - (a - a) * det(v),
            det(h) == a * (x1 - x2),
            d == (x1 - x2) * (y1 - y2),
    ;
    assert(numer_x(v, h) == b * (-d)) by (nonlinear_arith)
        requires
            numer_x(v, h) == det(v) * (x1 - x2) - (b - b) * det(h),
            det(v) == b * (y2 - y1),
            d == (x1 - x2) * (y1 - y2),
    ;
    assert(numer_y(v, h) == a * (-d)) by (nonlinear_arith)
        requires
            numer_y(v, h) == det(v) * (a - a) - (y1 - y2) * det(h),
            det(h) == a * (x1 - x2),
            d == (x1 - x2) * (y1 - y2),
    ;
    lemma_quot_exact(b, d);
    lemma_quot_exact(a, d);
    lemma_quot_exact(b, -d);
    lemma_quot_exact(a, -d);
}

} // verus!
