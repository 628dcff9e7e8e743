use crate::line::{abs, Line, Point, COORD_MAX};
use vstd::prelude::*;

verus! {

/// An axis-parallel rectangle given by two corners: `p1` has the smallest
/// coordinates and `p2` the largest.
#[derive(Clone, Copy, Debug, PartialEq, Eq, Structural)]
pub struct Rect {
    pub p1: Point,
    pub p2: Point,
}

#[derive(Clone, Copy, Debug, PartialEq, Eq, Structural)]
pub enum Corner {
    UpperLeft,
    UpperRight,
    LowerLeft,
    LowerRight,
}

#[derive(Clone, Copy, Debug, PartialEq, Eq, Structural)]
pub enum RectLine {
    Upper,
    Right,
    Lower,
    Left,
}

pub open spec fn min(a: int, b: int) -> int {
    if a <= b {
        a
    } else {
        b
    }
}

pub open spec fn max(a: int, b: int) -> int {
    if a >= b {
        a
    } else {
        b
    }
}

/// The corner of `r` that `c` names.
pub open spec fn corner_of(r: Rect, c: Corner) -> Point {
    match c {
        Corner::UpperLeft => r.p1,
        Corner::UpperRight => Point { x: r.p2.x, y: r.p1.y },
        Corner::LowerLeft => Point { x: r.p1.x, y: r.p2.y },
        Corner::LowerRight => r.p2,
    }
}

/// The boundary of `r` as four lines, each through two neighbouring corners,
/// clockwise from the upper left corner: upper, right, lower, left.
pub open spec fn rect_lines(r: Rect) -> Seq<Line> {
    seq![
        Line { p1: corner_of(r, Corner::UpperLeft), p2: corner_of(r, Corner::UpperRight) },
        Line { p1: corner_of(r, Corner::UpperRight), p2: corner_of(r, Corner::LowerRight) },
        Line { p1: corner_of(r, Corner::LowerRight), p2: corner_of(r, Corner::LowerLeft) },
        Line { p1: corner_of(r, Corner::LowerLeft), p2: corner_of(r, Corner::UpperLeft) },
    ]
}

/// Position of a boundary line in the clockwise order.
pub open spec fn line_index(l: RectLine) -> int {
    match l {
        RectLine::Upper => 0,
        RectLine::Right => 1,
        RectLine::Lower => 2,
        RectLine::Left => 3,
    }
}

/// The area the two rectangles share.
pub open spec fn overlap_area(a: Rect, b: Rect) -> int {
    max(0, min(a.p2.x as int, b.p2.x as int) - max(a.p1.x as int, b.p1.x as int)) * max(
        0,
        min(a.p2.y as int, b.p2.y as int) - max(a.p1.y as int, b.p1.y as int),
    )
}

pub open spec fn overlaps(a: Rect, b: Rect) -> bool {
    overlap_area(a, b) > 0
}

/// `r` lies within `c`.
pub open spec fn inside(r: Rect, c: Rect) -> bool {
    c.p1.x <= r.p1.x && r.p2.x <= c.p2.x && c.p1.y <= r.p1.y && r.p2.y <= c.p2.y
}

pub open spec fn min4(a: i64, b: i64, c: i64, d: i64) -> i64 {
    min(min(a as int, b as int), min(c as int, d as int)) as i64
}

pub open spec fn max4(a: i64, b: i64, c: i64, d: i64) -> i64 {
    max(max(a as int, b as int), max(c as int, d as int)) as i64
}

/// The smallest axis-parallel rectangle holding the four points.
pub open spec fn rect_of_points(p1: Point, p2: Point, p3: Point, p4: Point) -> Rect {
    Rect {
        p1: Point { x: min4(p1.x, p2.x, p3.x, p4.x), y: min4(p1.y, p2.y, p3.y, p4.y) },
        p2: Point { x: max4(p1.x, p2.x, p3.x, p4.x), y: max4(p1.y, p2.y, p3.y, p4.y) },
    }
}

fn min_i64(a: i64, b: i64) -> (r: i64)
    ensures
        r == min(a as int, b as int),
{
    if a <= b {
        a
    } else {
        b
    }
}

fn max_i64(a: i64, b: i64) -> (r: i64)
    ensures
        r == max(a as int, b as int),
{
    if a >= b {
        a
    } else {
        b
    }
}

/// Something that covers a part of the plane.
pub trait Area {
    /// The area as a mathematical integer.
    spec fn area_spec(&self) -> int;

    /// The value is fit for `area` to be computed without overflow.
    spec fn area_ready(&self) -> bool;

    /// Calculates the (unsigned) area.
    fn area(&self) -> (r: i64)
        requires
            self.area_ready(),
        ensures
            r as int == self.area_spec(),
    ;
}

impl Rect {
    pub open spec fn width(self) -> int {
        self.p2.x - self.p1.x
    }

    pub open spec fn height(self) -> int {
        self.p2.y - self.p1.y
    }

    pub open spec fn ordered(self) -> bool {
        self.p1.x <= self.p2.x && self.p1.y <= self.p2.y
    }

    /// Corners in order and every coordinate within `COORD_MAX`.
    pub open spec fn wf(self) -> bool {
        self.ordered() && self.p1.bounded() && self.p2.bounded()
    }

    pub open spec fn moved(self, dx: int, dy: int) -> Rect {
        Rect {
            p1: Point { x: (self.p1.x + dx) as i64, y: (self.p1.y + dy) as i64 },
            p2: Point { x: (self.p2.x + dx) as i64, y: (self.p2.y + dy) as i64 },
        }
    }

    /// Shifting by `(dx, dy)` keeps every coordinate within `COORD_MAX`.
    pub open spec fn shift_fits(self, dx: int, dy: int) -> bool {
        -COORD_MAX <= self.p1.x + dx <= COORD_MAX && -COORD_MAX <= self.p2.x + dx <= COORD_MAX
            && -COORD_MAX <= self.p1.y + dy <= COORD_MAX && -COORD_MAX <= self.p2.y + dy
            <= COORD_MAX
    }

    /// A rectangle of the given size whose upper left corner is the origin.
    pub fn new(width: i64, height: i64) -> (r: Rect)
        requires
            0 < width <= COORD_MAX,
            0 < height <= COORD_MAX,
        ensures
            r == (Rect { p1: Point { x: 0, y: 0 }, p2: Point { x: width, y: height } }),
            r.wf(),
    {
        Rect { p1: Point { x: 0, y: 0 }, p2: Point { x: width, y: height } }
    }

    /// The smallest axis-parallel rectangle holding the four points; for the
    /// four corners of a rectangle, that rectangle.
    pub fn new_by_points(p1: &Point, p2: &Point, p3: &Point, p4: &Point) -> (r: Rect)
        ensures
            r == rect_of_points(*p1, *p2, *p3, *p4),
            r.ordered(),
            p1.bounded() && p2.bounded() && p3.bounded() && p4.bounded() ==> r.wf(),
    {
        let x1 = min_i64(min_i64(p1.x, p2.x), min_i64(p3.x, p4.x));
        let y1 = min_i64(min_i64(p1.y, p2.y), min_i64(p3.y, p4.y));
        let x2 = max_i64(max_i64(p1.x, p2.x), max_i64(p3.x, p4.x));
        let y2 = max_i64(max_i64(p1.y, p2.y), max_i64(p3.y, p4.y));
        Rect { p1: Point { x: x1, y: y1 }, p2: Point { x: x2, y: y2 } }
    }

    /// Moves the rectangle by the given offsets.
    pub fn move_by(&mut self, x_offset: i64, y_offset: i64)
        requires
            old(self).wf(),
            old(self).shift_fits(x_offset as int, y_offset as int),
        ensures
            *final(self) == old(self).moved(x_offset as int, y_offset as int),
            final(self).wf(),
    {
        self.p1.x = self.p1.x + x_offset;
        self.p1.y = self.p1.y + y_offset;
        self.p2.x = self.p2.x + x_offset;
        self.p2.y = self.p2.y + y_offset;
    }

    /// Moves the rectangle so that its upper left corner is `to`, keeping
    /// its size.
    pub fn move_to(&mut self, to: Point)
        requires
            old(self).wf(),
            old(self).shift_fits(to.x - old(self).p1.x, to.y - old(self).p1.y),
        ensures
            final(self).wf(),
            *final(self) == old(self).moved(to.x - old(self).p1.x, to.y - old(self).p1.y),
            final(self).p1 == to,
            final(self).width() == old(self).width(),
            final(self).height() == old(self).height(),
    {
        let d_x = self.p2.x - self.p1.x;
        let d_y = self.p2.y - self.p1.y;
        self.p1.x = to.x;
        self.p1.y = to.y;
        self.p2.x = to.x + d_x;
        self.p2.y = to.y + d_y;
    }

    /// The corner that `corner` names.
    pub fn get_corner(&self, corner: Corner) -> (r: Point)
        ensures
            r == corner_of(*self, corner),
    {
        match corner {
            Corner::UpperLeft => self.p1,
            Corner::UpperRight => Point { x: self.p2.x, y: self.p1.y },
            Corner::LowerLeft => Point { x: self.p1.x, y: self.p2.y },
            Corner::LowerRight => self.p2,
        }
    }

    /// Walks the four boundary lines, upper, right, lower, left.
    pub fn get_line_iterator(&self) -> (r: RectLineIterator)
        ensures
            r.rect == *self,
            r.line_id == Some(RectLine::Upper),
    {
        RectLineIterator { rect: *self, line_id: Some(RectLine::Upper) }
    }

    /// The four boundary lines, upper, right, lower, left.
    pub fn lines(&self) -> (r: Vec<Line>)
        ensures
            r@ == rect_lines(*self),
    {
        let mut it = self.get_line_iterator();
        let mut v: Vec<Line> = Vec::new();
        let mut n: usize = 0;
        while n < 4
            invariant
                n <= 4,
                it.rect == *self,
                n < 4 ==> it.line_id == Some(RectLine::Upper) && n == 0 || it.line_id is Some
                    && line_index(it.line_id->0) == n,
                n == 4 ==> it.line_id is None,
                v@ == rect_lines(*self).take(n as int),
            decreases 4 - n,
        {
            let l = it.next();
            v.push(l.unwrap());
            n = n + 1;
            assert(v@ =~= rect_lines(*self).take(n as int));
        }
        assert(v@ =~= rect_lines(*self));
        v
    }

    /// The area the two rectangles share, zero where they only touch or lie
    /// apart.
    pub fn get_overlapped_area(&self, other: &Rect) -> (r: i64)
        requires
            self.wf(),
            other.wf(),
        ensures
            r as int == overlap_area(*self, *other),
    {
        let w = min_i64(other.p2.x, self.p2.x) - max_i64(other.p1.x, self.p1.x);
        let h = min_i64(other.p2.y, self.p2.y) - max_i64(other.p1.y, self.p1.y);
        let w = max_i64(0, w);
        let h = max_i64(0, h);
        proof {
            assert(0 <= w * h <= (2 * COORD_MAX) * (2 * COORD_MAX)) by (nonlinear_arith)
                requires
                    0 <= w <= 2 * COORD_MAX,
                    0 <= h <= 2 * COORD_MAX,
            ;
        }
        w * h
    }

    /// The two rectangles share an area greater than zero.
    pub fn overlapped(&self, other: &Rect) -> (r: bool)
        requires
            self.wf(),
            other.wf(),
        ensures
            r == overlaps(*self, *other),
    {
        let a = self.get_overlapped_area(other);
        proof {
            lemma_overlap_nonneg(*self, *other);
        }
        a > 0
    }
}

/// Walks the boundary lines of a rectangle; `line_id` is the line that comes
/// next, none once all four have come.
pub struct RectLineIterator {
    pub rect: Rect,
    pub line_id: Option<RectLine>,
}

impl RectLineIterator {
    /// The next boundary line, none after the left one.
    pub fn next(&mut self) -> (r: Option<Line>)
        ensures
            final(self).rect == old(self).rect,
            match old(self).line_id {
                None => r is None && final(self).line_id is None,
                Some(k) => r == Some(rect_lines(old(self).rect)[line_index(k)]) && match k {
                    RectLine::Upper => final(self).line_id == Some(RectLine::Right),
                    RectLine::Right => final(self).line_id == Some(RectLine::Lower),
                    RectLine::Lower => final(self).line_id == Some(RectLine::Left),
                    RectLine::Left => final(self).line_id is None,
                },
            },
    {
        match self.line_id {
            None => None,
            Some(RectLine::Upper) => {
                self.line_id = Some(RectLine::Right);
                Some(
                    Line {
                        p1: self.rect.get_corner(Corner::UpperLeft),
                        p2: self.rect.get_corner(Corner::UpperRight),
                    },
                )
            },
            Some(RectLine::Right) => {
                self.line_id = Some(RectLine::Lower);
                Some(
                    Line {
                        p1: self.rect.get_corner(Corner::UpperRight),
                        p2: self.rect.get_corner(Corner::LowerRight),
                    },
                )
            },
            Some(RectLine::Lower) => {
                self.line_id = Some(RectLine::Left);
                Some(
                    Line {
                        p1: self.rect.get_corner(Corner::LowerRight),
                        p2: self.rect.get_corner(Corner::LowerLeft),
                    },
                )
            },
            Some(RectLine::Left) => {
                self.line_id = None;
                Some(
                    Line {
                        p1: self.rect.get_corner(Corner::LowerLeft),
                        p2: self.rect.get_corner(Corner::UpperLeft),
                    },
                )
            },
        }
    }
}

impl Area for Rect {
    open spec fn area_spec(&self) -> int {
        abs(self.p2.x - self.p1.x) * abs(self.p2.y - self.p1.y)
    }

    open spec fn area_ready(&self) -> bool {
        self.p1.bounded() && self.p2.bounded()
    }

    fn area(&self) -> (r: i64) {
        let width = if self.p1.x < self.p2.x {
            self.p2.x - self.p1.x
        } else {
            self.p1.x - self.p2.x
        };
        let height = if self.p1.y < self.p2.y {
            self.p2.y - self.p1.y
        } else {
            self.p1.y - self.p2.y
        };
        proof {
            assert(0 <= width * height <= (2 * COORD_MAX) * (2 * COORD_MAX)) by (nonlinear_arith)
                requires
                    0 <= width <= 2 * COORD_MAX,
                    0 <= height <= 2 * COORD_MAX,
            ;
        }
        width * height
    }
}

/// The shared area is never negative.
pub proof fn lemma_overlap_nonneg(a: Rect, b: Rect)
    ensures
        overlap_area(a, b) >= 0,
{
    let w = max(0, min(a.p2.x as int, b.p2.x as int) - max(a.p1.x as int, b.p1.x as int));
    let h = max(0, min(a.p2.y as int, b.p2.y as int) - max(a.p1.y as int, b.p1.y as int));
    assert(w * h >= 0) by (nonlinear_arith)
        requires
            w >= 0,
            h >= 0,
    ;
}

/// The area of a rectangle is never negative, and it is zero exactly when
/// the rectangle has no width or no height.
pub proof fn lemma_area_nonneg(r: Rect)
    requires
        r.wf(),
    ensures
        r.area_spec() >= 0,
        r.area_spec() == 0 <==> (r.width() == 0 || r.height() == 0),
{
    let w = r.width();
    let h = r.height();
    assert(w * h >= 0 && (w * h == 0 <==> (w == 0 || h == 0))) by (nonlinear_arith)
        requires
            w >= 0,
            h >= 0,
    ;
}

/// Overlapping is symmetric, and a rectangle with an area overlaps itself,
/// by exactly that area.
pub proof fn lemma_overlap_symmetric(a: Rect, b: Rect)
    requires
        a.wf(),
        b.wf(),
    ensures
        overlap_area(a, b) == overlap_area(b, a),
        overlaps(a, b) == overlaps(b, a),
        overlap_area(a, a) == a.area_spec(),
        a.area_spec() > 0 ==> overlaps(a, a),
{
}

} // verus!
