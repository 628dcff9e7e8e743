use crate::line::{Point, COORD_MAX};
use crate::mea::{all_wf, is_maximal, is_mea_result, lemma_mea_unique, max_empty_areas};
use crate::rect::{inside, overlaps, Area, Rect};
use vstd::prelude::*;

verus! {

/// Why a container or a placement was refused.
#[derive(Clone, Copy, Debug, PartialEq, Eq, Structural)]
pub enum PackError {
    /// A container or a rectangle without width or height.
    DegenerateGeometry,
    /// The rectangle leaves the container, overlaps a placed one, or comes
    /// nearer to one than the spacing allows.
    PlacementRejected,
}

/// `a` and `b` lie at least `s` apart along one of the axes.
pub open spec fn separated(a: Rect, b: Rect, s: int) -> bool {
    a.p2.x + s <= b.p1.x || b.p2.x + s <= a.p1.x || a.p2.y + s <= b.p1.y || b.p2.y + s <= a.p1.y
}

/// Rectangles placed inside a container of `width` times `height`, which
/// keep `spacing` between each other.
#[derive(Clone, Debug)]
pub struct PlacedRects {
    height: i64,
    width: i64,
    rects: Vec<Rect>,
    spacing: i64,
}

impl PlacedRects {
    pub closed spec fn container(&self) -> Rect {
        Rect { p1: Point { x: 0, y: 0 }, p2: Point { x: self.width, y: self.height } }
    }

    pub closed spec fn placed(&self) -> Seq<Rect> {
        self.rects@
    }

    pub closed spec fn gap(&self) -> int {
        self.spacing as int
    }

    /// The container has an area, and every placed rectangle has an area,
    /// lies inside the container and keeps the spacing to every other one.
    pub closed spec fn wf(&self) -> bool {
        &&& 0 < self.width <= COORD_MAX
        &&& 0 < self.height <= COORD_MAX
        &&& 0 <= self.spacing <= COORD_MAX
        &&& all_wf(self.rects@)
        &&& forall|q: int|
            0 <= q < self.rects@.len() ==> inside(#[trigger] self.rects@[q], self.container())
                && self.rects@[q].area_spec() > 0
        &&& forall|q1: int, q2: int|
            0 <= q1 < self.rects@.len() && 0 <= q2 < self.rects@.len() && q1 != q2 ==> separated(
                #[trigger] self.rects@[q1],
                #[trigger] self.rects@[q2],
                self.spacing as int,
            )
    }

    /// The room available for a placement: `commit` takes exactly these.
    pub open spec fn accepts(&self, rect: Rect) -> bool {
        &&& rect.area_spec() > 0
        &&& inside(rect, self.container())
        &&& forall|q: int|
            0 <= q < self.placed().len() ==> separated(rect, #[trigger] self.placed()[q], self.gap())
    }

    /// An empty container; one without width or height is refused.
    pub fn new(width: i64, height: i64, spacing: i64) -> (r: Result<PlacedRects, PackError>)
        requires
            width <= COORD_MAX,
            height <= COORD_MAX,
            0 <= spacing <= COORD_MAX,
        ensures
            r is Ok <==> 0 < width && 0 < height,
            r is Err ==> r == Err::<PlacedRects, PackError>(PackError::DegenerateGeometry),
            r matches Ok(p) ==> p.wf() && p.placed() == Seq::<Rect>::empty() && p.container() == (
            Rect { p1: Point { x: 0, y: 0 }, p2: Point { x: width, y: height } }) && p.gap()
                == spacing,
    {
        if width <= 0 || height <= 0 {
            return Err(PackError::DegenerateGeometry);
        }
        Ok(PlacedRects { height, width, rects: Vec::new(), spacing })
    }

    pub fn width(&self) -> (r: i64)
        ensures
            r == self.container().p2.x,
            self.container().p1 == (Point { x: 0, y: 0 }),
    {
        self.width
    }

    pub fn height(&self) -> (r: i64)
        ensures
            r == self.container().p2.y,
            self.container().p1 == (Point { x: 0, y: 0 }),
    {
        self.height
    }

    pub fn spacing(&self) -> (r: i64)
        ensures
            r == self.gap(),
    {
        self.spacing
    }

    pub fn rects(&self) -> (r: &Vec<Rect>)
        ensures
            r@ == self.placed(),
    {
        &self.rects
    }

    /// Places `rect`. A rectangle without area is refused as degenerate; one
    /// that leaves the container, or comes nearer than the spacing to a
    /// placed one, is rejected. A refusal changes nothing.
    pub fn commit(&mut self, rect: Rect) -> (r: Result<(), PackError>)
        requires
            old(self).wf(),
            rect.wf(),
        ensures
            final(self).wf(),
            r is Ok <==> old(self).accepts(rect),
            r == Err::<(), PackError>(PackError::DegenerateGeometry) <==> rect.area_spec() == 0,
            r is Ok ==> final(self).placed() == old(self).placed().push(rect),
            final(self).container() == old(self).container(),
            final(self).gap() == old(self).gap(),
            r is Err ==> *final(self) == *old(self),
    {
        if rect.area() == 0 {
            return Err(PackError::DegenerateGeometry);
        }
        if !(0 <= rect.p1.x && rect.p2.x <= self.width && 0 <= rect.p1.y && rect.p2.y
            <= self.height) {
            return Err(PackError::PlacementRejected);
        }
        let mut q: usize = 0;
        while q < self.rects.len()
            invariant
                q <= self.rects@.len(),
                self.wf(),
                rect.wf(),
                rect.area_spec() != 0,
                forall|q2: int|
                    0 <= q2 < q ==> separated(rect, #[trigger] self.rects@[q2], self.spacing as int),
            decreases self.rects@.len() - q,
        {
            let o = self.rects[q];
            let s = self.spacing;
            if !(rect.p2.x + s <= o.p1.x || o.p2.x + s <= rect.p1.x || rect.p2.y + s <= o.p1.y
                || o.p2.y + s <= rect.p1.y) {
                assert(!separated(rect, old(self).placed()[q as int], old(self).gap()));
                return Err(PackError::PlacementRejected);
            }
            q = q + 1;
        }
        let ghost before = self.rects@;
        self.rects.push(rect);
        proof {
            assert forall|q1: int, q2: int|
                0 <= q1 < self.rects@.len() && 0 <= q2 < self.rects@.len() && q1 != q2 implies separated(
                #[trigger] self.rects@[q1],
                #[trigger] self.rects@[q2],
                self.spacing as int,
            ) by {
                if q1 < before.len() && q2 < before.len() {
                    assert(self.rects@[q1] == before[q1] && self.rects@[q2] == before[q2]);
                }
            }
        }
        Ok(())
    }

    /// Calculates all maximal empty areas around the placed rectangles.
    pub fn calc_mea(&self) -> (r: Vec<Rect>)
        requires
            self.wf(),
        ensures
            is_mea_result(self.placed(), self.container(), r@),
    {
        let container = Rect::new(self.width, self.height);
        max_empty_areas(&self.rects, &container)
    }

    /// Calculates all maximal empty areas that would be left with
    /// `to_be_placed` placed as well.
    pub fn calc_mea_for(&self, to_be_placed: Rect) -> (r: Vec<Rect>)
        requires
            self.wf(),
            to_be_placed.wf(),
        ensures
            is_mea_result(self.placed().push(to_be_placed), self.container(), r@),
    {
        let mut obstacles: Vec<Rect> = Vec::new();
        let mut q: usize = 0;
        while q < self.rects.len()
            invariant
                q <= self.rects@.len(),
                obstacles@ == self.rects@.subrange(0, q as int),
            decreases self.rects@.len() - q,
        {
            obstacles.push(self.rects[q]);
            q = q + 1;
            assert(obstacles@ =~= self.rects@.subrange(0, q as int));
        }
        obstacles.push(to_be_placed);
        assert(obstacles@ =~= self.rects@.push(to_be_placed));
        let container = Rect::new(self.width, self.height);
        max_empty_areas(&obstacles, &container)
    }
}

/// The sum of the areas of the rectangles.
pub open spec fn total_area(rs: Seq<Rect>) -> int
    decreases rs.len(),
{
    if rs.len() == 0 {
        0
    } else {
        total_area(rs.drop_last()) + rs.last().area_spec()
    }
}

/// The number of containers of `max_width` by `max_height` that the total
/// area of the rectangles fills, rounded down, plus one: a lower estimate of
/// the containers a packing needs.
pub fn minimal_block_count(rects: &Vec<Rect>, max_width: i64, max_height: i64) -> (r: u128)
    requires
        all_wf(rects@),
        0 < max_width <= COORD_MAX,
        0 < max_height <= COORD_MAX,
    ensures
        r == total_area(rects@) / (max_width * max_height) + 1,
{
    let mut total: u128 = 0;
    let mut i: usize = 0;
    while i < rects.len()
        invariant
            i <= rects@.len(),
            all_wf(rects@),
            total == total_area(rects@.subrange(0, i as int)),
            total <= i * (4 * COORD_MAX * COORD_MAX),
        decreases rects@.len() - i,
    {
        let r = rects[i];
        proof {
            assert(rects@[i as int].wf());
            assert(rects@.subrange(0, i + 1).drop_last() =~= rects@.subrange(0, i as int));
            assert(0 <= r.area_spec() <= 4 * COORD_MAX * COORD_MAX) by (nonlinear_arith)
                requires
                    r.area_spec() == (r.p2.x - r.p1.x) * (r.p2.y - r.p1.y),
                    0 <= r.p2.x - r.p1.x <= 2 * COORD_MAX,
                    0 <= r.p2.y - r.p1.y <= 2 * COORD_MAX,
            ;
            assert((i + 1) * (4 * COORD_MAX * COORD_MAX) == i * (4 * COORD_MAX * COORD_MAX) + 4
                * COORD_MAX * COORD_MAX) by (nonlinear_arith);
            assert(i * (4 * COORD_MAX * COORD_MAX) < 0x1_0000_0000_0000_0000 * (4 * COORD_MAX
                * COORD_MAX)) by (nonlinear_arith)
                requires
                    i < 0x1_0000_0000_0000_0000,
            ;
        }
        let a = r.area();
        total = total + a as u128;
        i = i + 1;
    }
    assert(rects@.subrange(0, i as int) =~= rects@);
    assert(total < 0x1_0000_0000_0000_0000 * (4 * COORD_MAX * COORD_MAX)) by (nonlinear_arith)
        requires
            total <= i * (4 * COORD_MAX * COORD_MAX),
            i < 0x1_0000_0000_0000_0000,
    ;
    assert(0 < max_width * max_height <= COORD_MAX * COORD_MAX) by (nonlinear_arith)
        requires
            0 < max_width <= COORD_MAX,
            0 < max_height <= COORD_MAX,
    ;
    let block = (max_width * max_height) as u128;
    assert(total / block <= total) by (nonlinear_arith)
        requires
            block >= 1,
            total >= 0,
    ;
    total / block + 1
}

/// A rectangle that overlaps a placed one is never accepted, whatever the
/// spacing: `commit` rejects it and leaves the placed rectangles as they were.
pub proof fn lemma_overlap_rejected(p: PlacedRects, rect: Rect, q: int)
    requires
        p.wf(),
        rect.wf(),
        0 <= q < p.placed().len(),
        overlaps(rect, p.placed()[q]),
    ensures
        !p.accepts(rect),
{
    let b = p.placed()[q];
    if separated(rect, b, p.gap()) {
        let w = crate::rect::max(
            0,
            crate::rect::min(rect.p2.x as int, b.p2.x as int) - crate::rect::max(
                rect.p1.x as int,
                b.p1.x as int,
            ),
        );
        let h = crate::rect::max(
            0,
            crate::rect::min(rect.p2.y as int, b.p2.y as int) - crate::rect::max(
                rect.p1.y as int,
                b.p1.y as int,
            ),
        );
        assert(w == 0 || h == 0);
        assert(w * h == 0) by (nonlinear_arith)
            requires
                w == 0 || h == 0,
        ;
    }
}

/// Asking twice for the maximal empty areas, with no placement in between,
/// gives the same set of rectangles.
pub proof fn lemma_calc_mea_idempotent(p: PlacedRects, r1: Seq<Rect>, r2: Seq<Rect>)
    requires
        p.wf(),
        is_mea_result(p.placed(), p.container(), r1),
        is_mea_result(p.placed(), p.container(), r2),
    ensures
        r1.to_set() == r2.to_set(),
{
    lemma_mea_unique(p.placed(), p.container(), r1, r2);
}

/// No maximal empty area holds another one that is returned with it.
pub proof fn lemma_mea_maximal(p: PlacedRects, res: Seq<Rect>)
    requires
        p.wf(),
        is_mea_result(p.placed(), p.container(), res),
    ensures
        forall|k1: int, k2: int|
            0 <= k1 < res.len() && 0 <= k2 < res.len() && k1 != k2 ==> res[k1] != res[k2]
                && !inside(#[trigger] res[k1], #[trigger] res[k2]),
{
    assert forall|k1: int, k2: int|
        0 <= k1 < res.len() && 0 <= k2 < res.len() && k1 != k2 implies res[k1] != res[k2]
        && !inside(#[trigger] res[k1], #[trigger] res[k2]) by {
        assert(is_maximal(p.placed(), p.container(), res[k1]));
        assert(is_maximal(p.placed(), p.container(), res[k2]));
    }
}

/// Every maximal empty area lies inside the container, which starts at the
/// origin, and overlaps no placed rectangle.
pub proof fn lemma_mea_coverage(p: PlacedRects, res: Seq<Rect>)
    requires
        p.wf(),
        is_mea_result(p.placed(), p.container(), res),
    ensures
        p.container().p1 == (Point { x: 0, y: 0 }),
        forall|k: int| 0 <= k < res.len() ==> inside(#[trigger] res[k], p.container()),
        forall|k: int, q: int|
            0 <= k < res.len() && 0 <= q < p.placed().len() ==> !overlaps(
                #[trigger] res[k],
                #[trigger] p.placed()[q],
            ),
{
    assert forall|k: int, q: int|
        0 <= k < res.len() && 0 <= q < p.placed().len() implies !overlaps(
        #[trigger] res[k],
        #[trigger] p.placed()[q],
    ) by {
        assert(is_maximal(p.placed(), p.container(), res[k]));
    }
}

/// Every maximal empty area left beside a trial rectangle lies inside the
/// container, which starts at the origin, and overlaps neither the trial
/// rectangle nor any placed one.
pub proof fn lemma_mea_for_coverage(p: PlacedRects, trial: Rect, res: Seq<Rect>)
    requires
        p.wf(),
        is_mea_result(p.placed().push(trial), p.container(), res),
    ensures
        p.container().p1 == (Point { x: 0, y: 0 }),
        forall|k: int| 0 <= k < res.len() ==> inside(#[trigger] res[k], p.container()),
        forall|k: int| 0 <= k < res.len() ==> !overlaps(#[trigger] res[k], trial),
        forall|k: int, q: int|
            0 <= k < res.len() && 0 <= q < p.placed().len() ==> !overlaps(
                #[trigger] res[k],
                #[trigger] p.placed()[q],
            ),
{
    let obs = p.placed().push(trial);
    assert forall|k: int| 0 <= k < res.len() implies !overlaps(#[trigger] res[k], trial) by {
        assert(is_maximal(obs, p.container(), res[k]));
        assert(obs[p.placed().len() as int] == trial);
    }
    assert forall|k: int, q: int|
        0 <= k < res.len() && 0 <= q < p.placed().len() implies !overlaps(
        #[trigger] res[k],
        #[trigger] p.placed()[q],
    ) by {
        assert(is_maximal(obs, p.container(), res[k]));
        assert(obs[q] == p.placed()[q]);
    }
}

} // verus!
