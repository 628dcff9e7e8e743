use crate::line::{lemma_meet_axis, meet, Line, Point};
use crate::rect::{inside, max, min, overlaps, rect_lines, rect_of_points, Area, Rect};
use vstd::prelude::*;

verus! {

/// The boundary lines of the rectangles, four for each, in order.
pub open spec fn lines_of(rs: Seq<Rect>) -> Seq<Line>
    decreases rs.len(),
{
    if rs.len() == 0 {
        Seq::empty()
    } else {
        lines_of(rs.drop_last()) + rect_lines(rs.last())
    }
}

/// The rectangle cornered by `a∩b`, `b∩c`, `c∩d` and `d∩a`, where all four
/// crossings exist.
pub open spec fn corner_rect(a: Line, b: Line, c: Line, d: Line) -> Option<Rect> {
    if meet(a, b) is Some && meet(b, c) is Some && meet(c, d) is Some && meet(d, a) is Some {
        Some(rect_of_points(meet(a, b)->0, meet(b, c)->0, meet(c, d)->0, meet(d, a)->0))
    } else {
        None
    }
}

/// Some four of the lines, taken in order with repetition, corner `r`.
pub open spec fn is_candidate(lines: Seq<Line>, r: Rect) -> bool {
    exists|i: int, j: int, k: int, l: int|
        0 <= i < lines.len() && 0 <= j < lines.len() && 0 <= k < lines.len() && 0 <= l
            < lines.len() && #[trigger] corner_rect(lines[i], lines[j], lines[k], lines[l])
            == Some(r)
}

/// `r` is an axis-parallel rectangle with an area that lies within the bounds
/// and overlaps no obstacle.
pub open spec fn empty_area(obstacles: Seq<Rect>, bounds: Rect, r: Rect) -> bool {
    &&& r.ordered()
    &&& r.area_spec() > 0
    &&& inside(r, bounds)
    &&& forall|q: int| 0 <= q < obstacles.len() ==> !overlaps(r, #[trigger] obstacles[q])
}

/// `r` is an empty area that lies within no other empty area.
pub open spec fn is_maximal(obstacles: Seq<Rect>, bounds: Rect, r: Rect) -> bool {
    &&& empty_area(obstacles, bounds, r)
    &&& forall|c: Rect| empty_area(obstacles, bounds, c) && inside(r, c) ==> c == r
}

/// `res` holds each maximal empty area exactly once, and nothing else.
pub open spec fn is_mea_result(obstacles: Seq<Rect>, bounds: Rect, res: Seq<Rect>) -> bool {
    &&& res.no_duplicates()
    &&& forall|k: int| 0 <= k < res.len() ==> is_maximal(obstacles, bounds, #[trigger] res[k])
    &&& forall|r: Rect| is_maximal(obstacles, bounds, r) ==> res.contains(r)
}

/// An empty area that four of the boundary lines corner.
spec fn candidate_area(obstacles: Seq<Rect>, bounds: Rect, r: Rect) -> bool {
    &&& is_candidate(lines_of(obstacles.push(bounds)), r)
    &&& empty_area(obstacles, bounds, r)
}

pub open spec fn all_wf(rs: Seq<Rect>) -> bool {
    forall|q: int| 0 <= q < rs.len() ==> (#[trigger] rs[q]).wf()
}

spec fn prefix(a: Seq<Rect>, b: Seq<Rect>) -> bool {
    a.len() <= b.len() && forall|m: int| 0 <= m < a.len() ==> #[trigger] b[m] == a[m]
}

/// The setting that the scan over line quadruples works in.
spec fn scan_ctx(obstacles: Seq<Rect>, bounds: Rect, lines: Seq<Line>) -> bool {
    &&& bounds.wf()
    &&& all_wf(obstacles)
    &&& lines == lines_of(obstacles.push(bounds))
    &&& forall|m: int| 0 <= m < lines.len() ==> (#[trigger] lines[m]).bounded()
}

spec fn sound(obstacles: Seq<Rect>, bounds: Rect, cands: Seq<Rect>) -> bool {
    forall|m: int| 0 <= m < cands.len() ==> candidate_area(obstacles, bounds, #[trigger] cands[m])
}

/// The quadruple `(i, j, k, l)` gives no empty area, or one in `cands`.
spec fn covered(
    obstacles: Seq<Rect>,
    bounds: Rect,
    lines: Seq<Line>,
    cands: Seq<Rect>,
    i: int,
    j: int,
    k: int,
    l: int,
) -> bool {
    match corner_rect(lines[i], lines[j], lines[k], lines[l]) {
        None => true,
        Some(r) => !candidate_area(obstacles, bounds, r) || cands.contains(r),
    }
}

proof fn lemma_covered_grows(
    obstacles: Seq<Rect>,
    bounds: Rect,
    lines: Seq<Line>,
    c1: Seq<Rect>,
    c2: Seq<Rect>,
    i: int,
    j: int,
    k: int,
    l: int,
)
    requires
        prefix(c1, c2),
        covered(obstacles, bounds, lines, c1, i, j, k, l),
    ensures
        covered(obstacles, bounds, lines, c2, i, j, k, l),
{
    if let Some(r) = corner_rect(lines[i], lines[j], lines[k], lines[l]) {
        if c1.contains(r) {
            let m = choose|m: int| 0 <= m < c1.len() && c1[m] == r;
            assert(c2[m] == r);
        }
    }
}

fn collect_lines(rs: &Vec<Rect>) -> (lines: Vec<Line>)
    requires
        all_wf(rs@),
    ensures
        lines@ == lines_of(rs@),
        forall|m: int| 0 <= m < lines@.len() ==> (#[trigger] lines@[m]).bounded(),
{
    let mut lines: Vec<Line> = Vec::new();
    let mut i: usize = 0;
    while i < rs.len()
        invariant
            i <= rs.len(),
            all_wf(rs@),
            lines@ == lines_of(rs@.subrange(0, i as int)),
            forall|m: int| 0 <= m < lines@.len() ==> (#[trigger] lines@[m]).bounded(),
        decreases rs.len() - i,
    {
        let mut four = rs[i].lines();
        proof {
            assert(rs@[i as int].wf());
            assert(rs@.subrange(0, i + 1).drop_last() =~= rs@.subrange(0, i as int));
        }
        lines.append(&mut four);
        i = i + 1;
    }
    assert(rs@.subrange(0, i as int) =~= rs@);
    lines
}

fn contains_rect(v: &Vec<Rect>, r: &Rect) -> (b: bool)
    ensures
        b == v@.contains(*r),
{
    let mut m: usize = 0;
    while m < v.len()
        invariant
            m <= v.len(),
            forall|m2: int| 0 <= m2 < m ==> v@[m2] != *r,
        decreases v.len() - m,
    {
        if v[m] == *r {
            return true;
        }
        m = m + 1;
    }
    false
}

/// Whether `r` lies within the bounds, has an area and overlaps no obstacle.
fn is_free(obstacles: &Vec<Rect>, bounds: &Rect, r: &Rect) -> (b: bool)
    requires
        bounds.wf(),
        all_wf(obstacles@),
        r.ordered(),
    ensures
        b == (r.area_spec() > 0 && inside(*r, *bounds) && forall|q: int|
            0 <= q < obstacles@.len() ==> !overlaps(*r, #[trigger] obstacles@[q])),
{
    if !(bounds.p1.x <= r.p1.x && r.p2.x <= bounds.p2.x && bounds.p1.y <= r.p1.y && r.p2.y
        <= bounds.p2.y) {
        return false;
    }
    if r.area() == 0 {
        return false;
    }
    let mut q: usize = 0;
    while q < obstacles.len()
        invariant
            q <= obstacles.len(),
            all_wf(obstacles@),
            r.wf(),
            forall|q2: int| 0 <= q2 < q ==> !overlaps(*r, #[trigger] obstacles@[q2]),
        decreases obstacles.len() - q,
    {
        if r.overlapped(&obstacles[q]) {
            return false;
        }
        q = q + 1;
    }
    true
}

/// Adds the rectangle of the quadruple `(i, j, k, l)`, cornered by `p1`,
/// `p2`, `p3` and `p4`, where it is an empty area not yet collected.
fn consider(
    obstacles: &Vec<Rect>,
    bounds: &Rect,
    lines: &Vec<Line>,
    cands: &mut Vec<Rect>,
    i: usize,
    j: usize,
    k: usize,
    l: usize,
    p1: &Point,
    p2: &Point,
    p3: &Point,
    p4: &Point,
)
    requires
        scan_ctx(obstacles@, *bounds, lines@),
        sound(obstacles@, *bounds, old(cands)@),
        i < lines@.len() && j < lines@.len() && k < lines@.len() && l < lines@.len(),
        corner_rect(lines@[i as int], lines@[j as int], lines@[k as int], lines@[l as int])
            == Some(rect_of_points(*p1, *p2, *p3, *p4)),
    ensures
        prefix(old(cands)@, final(cands)@),
        sound(obstacles@, *bounds, final(cands)@),
        covered(obstacles@, *bounds, lines@, final(cands)@, i as int, j as int, k as int, l as int),
{
    let r = Rect::new_by_points(p1, p2, p3, p4);
    if is_free(obstacles, bounds, &r) && !contains_rect(cands, &r) {
        proof {
            assert(is_candidate(lines@, r));
        }
        cands.push(r);
        proof {
            assert(cands@[cands@.len() - 1] == r);
        }
    }
}

fn scan_fourth(
    obstacles: &Vec<Rect>,
    bounds: &Rect,
    lines: &Vec<Line>,
    cands: &mut Vec<Rect>,
    i: usize,
    j: usize,
    k: usize,
    p1: &Point,
    p2: &Point,
)
    requires
        scan_ctx(obstacles@, *bounds, lines@),
        sound(obstacles@, *bounds, old(cands)@),
        i < lines@.len() && j < lines@.len() && k < lines@.len(),
        meet(lines@[i as int], lines@[j as int]) == Some(*p1),
        meet(lines@[j as int], lines@[k as int]) == Some(*p2),
    ensures
        prefix(old(cands)@, final(cands)@),
        sound(obstacles@, *bounds, final(cands)@),
        forall|l: int|
            0 <= l < lines@.len() ==> covered(
                obstacles@,
                *bounds,
                lines@,
                final(cands)@,
                i as int,
                j as int,
                k as int,
                l,
            ),
{
    let ghost start = cands@;
    let mut l: usize = 0;
    while l < lines.len()
        invariant
            l <= lines@.len(),
            scan_ctx(obstacles@, *bounds, lines@),
            sound(obstacles@, *bounds, cands@),
            prefix(start, cands@),
            i < lines@.len() && j < lines@.len() && k < lines@.len(),
            meet(lines@[i as int], lines@[j as int]) == Some(*p1),
            meet(lines@[j as int], lines@[k as int]) == Some(*p2),
            forall|l2: int|
                0 <= l2 < l ==> covered(
                    obstacles@,
                    *bounds,
                    lines@,
                    cands@,
                    i as int,
                    j as int,
                    k as int,
                    l2,
                ),
        decreases lines@.len() - l,
    {
        let ghost before = cands@;
        if let Some(p3) = lines[k].intersection(&lines[l]) {
            if let Some(p4) = lines[l].intersection(&lines[i]) {
                consider(obstacles, bounds, lines, cands, i, j, k, l, p1, p2, &p3, &p4);
                proof {
                    assert forall|l2: int| 0 <= l2 < l implies covered(
                        obstacles@,
                        *bounds,
                        lines@,
                        cands@,
                        i as int,
                        j as int,
                        k as int,
                        l2,
                    ) by {
                        lemma_covered_grows(
                            obstacles@,
                            *bounds,
                            lines@,
                            before,
                            cands@,
                            i as int,
                            j as int,
                            k as int,
                            l2,
                        );
                    }
                }
            }
        }
        l = l + 1;
    }
}


fn scan_third(
    obstacles: &Vec<Rect>,
    bounds: &Rect,
    lines: &Vec<Line>,
    cands: &mut Vec<Rect>,
    i: usize,
    j: usize,
    p1: &Point,
)
    requires
        scan_ctx(obstacles@, *bounds, lines@),
        sound(obstacles@, *bounds, old(cands)@),
        i < lines@.len() && j < lines@.len(),
        meet(lines@[i as int], lines@[j as int]) == Some(*p1),
    ensures
        prefix(old(cands)@, final(cands)@),
        sound(obstacles@, *bounds, final(cands)@),
        forall|k: int, l: int|
            0 <= k < lines@.len() && 0 <= l < lines@.len() ==> covered(
                obstacles@,
                *bounds,
                lines@,
                final(cands)@,
                i as int,
                j as int,
                k,
                l,
            ),
{
    let ghost start = cands@;
    let mut k: usize = 0;
    while k < lines.len()
        invariant
            k <= lines@.len(),
            scan_ctx(obstacles@, *bounds, lines@),
            sound(obstacles@, *bounds, cands@),
            prefix(start, cands@),
            i < lines@.len() && j < lines@.len(),
            meet(lines@[i as int], lines@[j as int]) == Some(*p1),
            forall|k2: int, l2: int|
                0 <= k2 < k && 0 <= l2 < lines@.len() ==> covered(
                    obstacles@,
                    *bounds,
                    lines@,
                    cands@,
                    i as int,
                    j as int,
                    k2,
                    l2,
                ),
        decreases lines@.len() - k,
    {
        let ghost before = cands@;
        if let Some(p2) = lines[j].intersection(&lines[k]) {
            scan_fourth(obstacles, bounds, lines, cands, i, j, k, p1, &p2);
            proof {
                assert forall|k2: int, l2: int|
                    0 <= k2 < k && 0 <= l2 < lines@.len() implies covered(
                    obstacles@,
                    *bounds,
                    lines@,
                    cands@,
                    i as int,
                    j as int,
                    k2,
                    l2,
                ) by {
                    lemma_covered_grows(
                        obstacles@,
                        *bounds,
                        lines@,
                        before,
                        cands@,
                        i as int,
                        j as int,
                        k2,
                        l2,
                    );
                }
            }
        }
        k = k + 1;
    }
}

fn scan_second(
    obstacles: &Vec<Rect>,
    bounds: &Rect,
    lines: &Vec<Line>,
    cands: &mut Vec<Rect>,
    i: usize,
)
    requires
        scan_ctx(obstacles@, *bounds, lines@),
        sound(obstacles@, *bounds, old(cands)@),
        i < lines@.len(),
    ensures
        prefix(old(cands)@, final(cands)@),
        sound(obstacles@, *bounds, final(cands)@),
        forall|j: int, k: int, l: int|
            0 <= j < lines@.len() && 0 <= k < lines@.len() && 0 <= l < lines@.len()
                ==> covered(obstacles@, *bounds, lines@, final(cands)@, i as int, j, k, l),
{
    let ghost start = cands@;
    let mut j: usize = 0;
    while j < lines.len()
        invariant
            j <= lines@.len(),
            scan_ctx(obstacles@, *bounds, lines@),
            sound(obstacles@, *bounds, cands@),
            prefix(start, cands@),
            i < lines@.len(),
            forall|j2: int, k2: int, l2: int|
                0 <= j2 < j && 0 <= k2 < lines@.len() && 0 <= l2 < lines@.len() ==> covered(
                    obstacles@,
                    *bounds,
                    lines@,
                    cands@,
                    i as int,
                    j2,
                    k2,
                    l2,
                ),
        decreases lines@.len() - j,
    {
        let ghost before = cands@;
        if let Some(p1) = lines[i].intersection(&lines[j]) {
            scan_third(obstacles, bounds, lines, cands, i, j, &p1);
            proof {
                assert forall|j2: int, k2: int, l2: int|
                    0 <= j2 < j && 0 <= k2 < lines@.len() && 0 <= l2 < lines@.len() implies covered(
                    obstacles@,
                    *bounds,
                    lines@,
                    cands@,
                    i as int,
                    j2,
                    k2,
                    l2,
                ) by {
                    lemma_covered_grows(
                        obstacles@,
                        *bounds,
                        lines@,
                        before,
                        cands@,
                        i as int,
                        j2,
                        k2,
                        l2,
                    );
                }
            }
        }
        j = j + 1;
    }
}

/// Collects every empty area that four of the lines corner, each once.
fn collect_candidates(obstacles: &Vec<Rect>, bounds: &Rect, lines: &Vec<Line>) -> (cands: Vec<
    Rect,
>)
    requires
        scan_ctx(obstacles@, *bounds, lines@),
    ensures
        sound(obstacles@, *bounds, cands@),
        forall|r: Rect| candidate_area(obstacles@, *bounds, r) ==> cands@.contains(r),
{
    let mut cands: Vec<Rect> = Vec::new();
    let mut i: usize = 0;
    while i < lines.len()
        invariant
            i <= lines@.len(),
            scan_ctx(obstacles@, *bounds, lines@),
            sound(obstacles@, *bounds, cands@),
            forall|i2: int, j2: int, k2: int, l2: int|
                0 <= i2 < i && 0 <= j2 < lines@.len() && 0 <= k2 < lines@.len() && 0 <= l2
                    < lines@.len() ==> covered(obstacles@, *bounds, lines@, cands@, i2, j2, k2, l2),
        decreases lines@.len() - i,
    {
        let ghost before = cands@;
        scan_second(obstacles, bounds, lines, &mut cands, i);
        proof {
            assert forall|i2: int, j2: int, k2: int, l2: int|
                0 <= i2 < i && 0 <= j2 < lines@.len() && 0 <= k2 < lines@.len() && 0 <= l2
                    < lines@.len() implies covered(
                obstacles@,
                *bounds,
                lines@,
                cands@,
                i2,
                j2,
                k2,
                l2,
            ) by {
                lemma_covered_grows(obstacles@, *bounds, lines@, before, cands@, i2, j2, k2, l2);
            }
        }
        i = i + 1;
    }
    proof {
        assert forall|r: Rect| candidate_area(obstacles@, *bounds, r) implies cands@.contains(r) by {
            let (i2, j2, k2, l2) = choose|i2: int, j2: int, k2: int, l2: int|
                0 <= i2 < lines@.len() && 0 <= j2 < lines@.len() && 0 <= k2 < lines@.len() && 0
                    <= l2 < lines@.len() && #[trigger] corner_rect(
                    lines@[i2],
                    lines@[j2],
                    lines@[k2],
                    lines@[l2],
                ) == Some(r);
            assert(covered(obstacles@, *bounds, lines@, cands@, i2, j2, k2, l2));
        }
    }
    cands
}

/// Some other of the candidates holds `c`.
spec fn dominated(cands: Seq<Rect>, c: Rect) -> bool {
    exists|j: int| 0 <= j < cands.len() && cands[j] != c && inside(c, #[trigger] cands[j])
}

fn is_dominated(cands: &Vec<Rect>, c: &Rect) -> (b: bool)
    ensures
        b == dominated(cands@, *c),
{
    let mut j: usize = 0;
    while j < cands.len()
        invariant
            j <= cands.len(),
            forall|j2: int|
                0 <= j2 < j ==> !(cands@[j2] != *c && inside(*c, #[trigger] cands@[j2])),
        decreases cands.len() - j,
    {
        let d = cands[j];
        if d != *c && d.p1.x <= c.p1.x && c.p2.x <= d.p2.x && d.p1.y <= c.p1.y && c.p2.y
            <= d.p2.y {
            return true;
        }
        j = j + 1;
    }
    false
}

/// Keeps, once each, the candidates that no other candidate holds.
fn select(cands: &Vec<Rect>) -> (res: Vec<Rect>)
    ensures
        res@.no_duplicates(),
        forall|k: int|
            0 <= k < res@.len() ==> cands@.contains(#[trigger] res@[k]) && !dominated(
                cands@,
                res@[k],
            ),
        forall|c: Rect| cands@.contains(c) && !dominated(cands@, c) ==> res@.contains(c),
{
    let mut res: Vec<Rect> = Vec::new();
    let mut i: usize = 0;
    while i < cands.len()
        invariant
            i <= cands.len(),
            res@.no_duplicates(),
            forall|k: int|
                0 <= k < res@.len() ==> cands@.contains(#[trigger] res@[k]) && !dominated(
                    cands@,
                    res@[k],
                ),
            forall|i2: int|
                0 <= i2 < i && !dominated(cands@, cands@[i2]) ==> res@.contains(
                    #[trigger] cands@[i2],
                ),
        decreases cands.len() - i,
    {
        let c = cands[i];
        let ghost before = res@;
        if !is_dominated(cands, &c) && !contains_rect(&res, &c) {
            res.push(c);
            proof {
                assert(res@[res@.len() - 1] == c);
                assert forall|k1: int, k2: int|
                    0 <= k1 < res@.len() && 0 <= k2 < res@.len() && k1 != k2 implies res@[k1]
                    != res@[k2] by {
                    if k1 < before.len() && k2 < before.len() {
                        assert(res@[k1] == before[k1] && res@[k2] == before[k2]);
                    } else if k1 < before.len() {
                        assert(res@[k1] == before[k1]);
                    } else {
                        assert(res@[k2] == before[k2]);
                    }
                }
                assert forall|k: int| 0 <= k < res@.len() implies cands@.contains(
                    #[trigger] res@[k],
                ) && !dominated(cands@, res@[k]) by {
                    if k < before.len() {
                        assert(res@[k] == before[k]);
                    } else {
                        assert(cands@[i as int] == c);
                    }
                }
                assert forall|i2: int|
                    0 <= i2 <= i && !dominated(cands@, cands@[i2]) implies res@.contains(
                    #[trigger] cands@[i2],
                ) by {
                    if i2 < i {
                        let k = choose|k: int| 0 <= k < before.len() && before[k] == cands@[i2];
                        assert(res@[k] == cands@[i2]);
                    }
                }
            }
        }
        i = i + 1;
    }
    proof {
        assert forall|c: Rect| cands@.contains(c) && !dominated(cands@, c) implies res@.contains(
            c,
        ) by {
            let i2 = choose|i2: int| 0 <= i2 < cands@.len() && cands@[i2] == c;
            assert(res@.contains(cands@[i2]));
        }
    }
    res
}

/// Two rectangles overlap exactly where their spans overlap on both axes.
proof fn lemma_overlaps_spans(a: Rect, b: Rect)
    ensures
        overlaps(a, b) <==> (min(a.p2.x as int, b.p2.x as int) - max(a.p1.x as int, b.p1.x as int)
            > 0 && min(a.p2.y as int, b.p2.y as int) - max(a.p1.y as int, b.p1.y as int) > 0),
{
    let w = max(0, min(a.p2.x as int, b.p2.x as int) - max(a.p1.x as int, b.p1.x as int));
    let h = max(0, min(a.p2.y as int, b.p2.y as int) - max(a.p1.y as int, b.p1.y as int));
    assert(w * h > 0 <==> (w > 0 && h > 0)) by (nonlinear_arith)
        requires
            w >= 0,
            h >= 0,
    ;
}

/// An ordered rectangle has an area exactly when it has width and height.
proof fn lemma_area_pos(r: Rect)
    requires
        r.ordered(),
    ensures
        r.area_spec() > 0 <==> (r.width() > 0 && r.height() > 0),
        r.area_spec() == r.width() * r.height(),
{
    let (w, h) = (r.width(), r.height());
    assert(w * h > 0 <==> (w > 0 && h > 0)) by (nonlinear_arith)
        requires
            w >= 0,
            h >= 0,
    ;
}

/// A rectangle holding another with an area has at least its area, and more
/// where the two differ.
proof fn lemma_area_grows(c: Rect, d: Rect)
    requires
        c.ordered(),
        d.ordered(),
        inside(c, d),
        c.area_spec() > 0,
    ensures
        c.area_spec() <= d.area_spec(),
        c != d ==> c.area_spec() < d.area_spec(),
{
    lemma_area_pos(c);
    lemma_area_pos(d);
    let (w, h, ww, hh) = (c.width(), c.height(), d.width(), d.height());
    assert(w * h <= ww * hh && ((ww > w || hh > h) ==> w * h < ww * hh)) by (nonlinear_arith)
        requires
            0 < w <= ww,
            0 < h <= hh,
    ;
}

/// The left side of `r` lies on the bounds or on the right side of an
/// obstacle with an area.
spec fn supported_left(obstacles: Seq<Rect>, bounds: Rect, r: Rect) -> bool {
    r.p1.x == bounds.p1.x || exists|q: int|
        0 <= q < obstacles.len() && (#[trigger] obstacles[q]).p2.x == r.p1.x && obstacles[q].p1.x
            < obstacles[q].p2.x && obstacles[q].p1.y < obstacles[q].p2.y
}

spec fn supported_right(obstacles: Seq<Rect>, bounds: Rect, r: Rect) -> bool {
    r.p2.x == bounds.p2.x || exists|q: int|
        0 <= q < obstacles.len() && (#[trigger] obstacles[q]).p1.x == r.p2.x && obstacles[q].p1.x
            < obstacles[q].p2.x && obstacles[q].p1.y < obstacles[q].p2.y
}

spec fn supported_top(obstacles: Seq<Rect>, bounds: Rect, r: Rect) -> bool {
    r.p1.y == bounds.p1.y || exists|q: int|
        0 <= q < obstacles.len() && (#[trigger] obstacles[q]).p2.y == r.p1.y && obstacles[q].p1.x
            < obstacles[q].p2.x && obstacles[q].p1.y < obstacles[q].p2.y
}

spec fn supported_bottom(obstacles: Seq<Rect>, bounds: Rect, r: Rect) -> bool {
    r.p2.y == bounds.p2.y || exists|q: int|
        0 <= q < obstacles.len() && (#[trigger] obstacles[q]).p1.y == r.p2.y && obstacles[q].p1.x
            < obstacles[q].p2.x && obstacles[q].p1.y < obstacles[q].p2.y
}

/// A maximal empty area cannot grow by one unit on any side, so each side
/// lies on the bounds or on an obstacle.
proof fn lemma_maximal_supported(obstacles: Seq<Rect>, bounds: Rect, r: Rect)
    requires
        bounds.wf(),
        all_wf(obstacles),
        is_maximal(obstacles, bounds, r),
    ensures
        supported_left(obstacles, bounds, r),
        supported_right(obstacles, bounds, r),
        supported_top(obstacles, bounds, r),
        supported_bottom(obstacles, bounds, r),
{
    lemma_area_pos(r);
    if !supported_left(obstacles, bounds, r) {
        let g = Rect { p1: Point { x: (r.p1.x - 1) as i64, y: r.p1.y }, p2: r.p2 };
        lemma_grown_clear(obstacles, bounds, r, g);
    }
    if !supported_right(obstacles, bounds, r) {
        let g = Rect { p1: r.p1, p2: Point { x: (r.p2.x + 1) as i64, y: r.p2.y } };
        lemma_grown_clear(obstacles, bounds, r, g);
    }
    if !supported_top(obstacles, bounds, r) {
        let g = Rect { p1: Point { x: r.p1.x, y: (r.p1.y - 1) as i64 }, p2: r.p2 };
        lemma_grown_clear(obstacles, bounds, r, g);
    }
    if !supported_bottom(obstacles, bounds, r) {
        let g = Rect { p1: r.p1, p2: Point { x: r.p2.x, y: (r.p2.y + 1) as i64 } };
        lemma_grown_clear(obstacles, bounds, r, g);
    }
}

/// `g` is `r` grown by one unit on one side that no obstacle and no bound
/// touches; then `g` is an empty area too, one that holds `r`.
proof fn lemma_grown_clear(obstacles: Seq<Rect>, bounds: Rect, r: Rect, g: Rect)
    requires
        bounds.wf(),
        all_wf(obstacles),
        empty_area(obstacles, bounds, r),
        r.width() > 0 && r.height() > 0,
        (g.p2 == r.p2 && g.p1.y == r.p1.y && g.p1.x == r.p1.x - 1 && !supported_left(
            obstacles,
            bounds,
            r,
        )) || (g.p1 == r.p1 && g.p2.y == r.p2.y && g.p2.x == r.p2.x + 1 && !supported_right(
            obstacles,
            bounds,
            r,
        )) || (g.p2 == r.p2 && g.p1.x == r.p1.x && g.p1.y == r.p1.y - 1 && !supported_top(
            obstacles,
            bounds,
            r,
        )) || (g.p1 == r.p1 && g.p2.x == r.p2.x && g.p2.y == r.p2.y + 1 && !supported_bottom(
            obstacles,
            bounds,
            r,
        )),
    ensures
        empty_area(obstacles, bounds, g),
        inside(r, g),
        g != r,
{
    assert forall|q: int| 0 <= q < obstacles.len() implies !overlaps(
        g,
        #[trigger] obstacles[q],
    ) by {
        let o = obstacles[q];
        lemma_overlaps_spans(g, o);
        lemma_overlaps_spans(r, o);
        assert(!overlaps(r, o));
        if overlaps(g, o) {
            assert(o.p1.x < o.p2.x && o.p1.y < o.p2.y);
        }
    }
    lemma_area_pos(g);
    assert(empty_area(obstacles, bounds, g));
    assert(inside(r, g));
}


proof fn lemma_lines_of_len(rs: Seq<Rect>)
    ensures
        lines_of(rs).len() == 4 * rs.len(),
    decreases rs.len(),
{
    if rs.len() > 0 {
        lemma_lines_of_len(rs.drop_last());
    }
}

/// Line `t` of rectangle `q` stands at position `4 * q + t`.
proof fn lemma_lines_of_index(rs: Seq<Rect>, q: int, t: int)
    requires
        0 <= q < rs.len(),
        0 <= t < 4,
    ensures
        lines_of(rs).len() == 4 * rs.len(),
        lines_of(rs)[4 * q + t] == rect_lines(rs[q])[t],
    decreases rs.len(),
{
    lemma_lines_of_len(rs);
    lemma_lines_of_len(rs.drop_last());
    if q < rs.len() - 1 {
        lemma_lines_of_index(rs.drop_last(), q, t);
    }
}

/// The position of a horizontal boundary line at height `y` that spans a
/// width, taken from the bounds' line `tb` or from an obstacle's line `to`.
proof fn pick_horizontal(
    obstacles: Seq<Rect>,
    bounds: Rect,
    y: i64,
    at_bounds: bool,
    tb: int,
    to: int,
) -> (idx: int)
    requires
        tb == 0 || tb == 2,
        to == 0 || to == 2,
        bounds.p1.x < bounds.p2.x,
        at_bounds ==> y == (if tb == 0 {
            bounds.p1.y
        } else {
            bounds.p2.y
        }),
        !at_bounds ==> exists|q: int|
            0 <= q < obstacles.len() && (if to == 0 {
                (#[trigger] obstacles[q]).p1.y
            } else {
                obstacles[q].p2.y
            }) == y && obstacles[q].p1.x < obstacles[q].p2.x && obstacles[q].p1.y
                < obstacles[q].p2.y,
    ensures
        0 <= idx < lines_of(obstacles.push(bounds)).len(),
        lines_of(obstacles.push(bounds))[idx].p1.y == y,
        lines_of(obstacles.push(bounds))[idx].p2.y == y,
        lines_of(obstacles.push(bounds))[idx].p1.x != lines_of(obstacles.push(bounds))[idx].p2.x,
{
    let all = obstacles.push(bounds);
    if at_bounds {
        lemma_lines_of_index(all, obstacles.len() as int, tb);
        assert(all[obstacles.len() as int] == bounds);
        4 * obstacles.len() + tb
    } else {
        let q = choose|q: int|
            0 <= q < obstacles.len() && (if to == 0 {
                (#[trigger] obstacles[q]).p1.y
            } else {
                obstacles[q].p2.y
            }) == y && obstacles[q].p1.x < obstacles[q].p2.x && obstacles[q].p1.y
                < obstacles[q].p2.y;
        lemma_lines_of_index(all, q, to);
        assert(all[q] == obstacles[q]);
        4 * q + to
    }
}

/// The position of a vertical boundary line at `x` that spans a height,
/// taken from the bounds' line `tb` or from an obstacle's line `to`.
proof fn pick_vertical(
    obstacles: Seq<Rect>,
    bounds: Rect,
    x: i64,
    at_bounds: bool,
    tb: int,
    to: int,
) -> (idx: int)
    requires
        tb == 1 || tb == 3,
        to == 1 || to == 3,
        bounds.p1.y < bounds.p2.y,
        at_bounds ==> x == (if tb == 1 {
            bounds.p2.x
        } else {
            bounds.p1.x
        }),
        !at_bounds ==> exists|q: int|
            0 <= q < obstacles.len() && (if to == 1 {
                (#[trigger] obstacles[q]).p2.x
            } else {
                obstacles[q].p1.x
            }) == x && obstacles[q].p1.x < obstacles[q].p2.x && obstacles[q].p1.y
                < obstacles[q].p2.y,
    ensures
        0 <= idx < lines_of(obstacles.push(bounds)).len(),
        lines_of(obstacles.push(bounds))[idx].p1.x == x,
        lines_of(obstacles.push(bounds))[idx].p2.x == x,
        lines_of(obstacles.push(bounds))[idx].p1.y != lines_of(obstacles.push(bounds))[idx].p2.y,
{
    let all = obstacles.push(bounds);
    if at_bounds {
        lemma_lines_of_index(all, obstacles.len() as int, tb);
        assert(all[obstacles.len() as int] == bounds);
        4 * obstacles.len() + tb
    } else {
        let q = choose|q: int|
            0 <= q < obstacles.len() && (if to == 1 {
                (#[trigger] obstacles[q]).p2.x
            } else {
                obstacles[q].p1.x
            }) == x && obstacles[q].p1.x < obstacles[q].p2.x && obstacles[q].p1.y
                < obstacles[q].p2.y;
        lemma_lines_of_index(all, q, to);
        assert(all[q] == obstacles[q]);
        4 * q + to
    }
}

/// Every maximal empty area is cornered by four boundary lines: the lines on
/// which its sides lie.
proof fn lemma_maximal_is_candidate(obstacles: Seq<Rect>, bounds: Rect, r: Rect)
    requires
        bounds.wf(),
        all_wf(obstacles),
        is_maximal(obstacles, bounds, r),
    ensures
        candidate_area(obstacles, bounds, r),
{
    lemma_maximal_supported(obstacles, bounds, r);
    lemma_area_pos(r);
    let lines = lines_of(obstacles.push(bounds));
    let top = pick_horizontal(obstacles, bounds, r.p1.y, r.p1.y == bounds.p1.y, 0, 2);
    let bottom = pick_horizontal(obstacles, bounds, r.p2.y, r.p2.y == bounds.p2.y, 2, 0);
    let right = pick_vertical(obstacles, bounds, r.p2.x, r.p2.x == bounds.p2.x, 1, 3);
    let left = pick_vertical(obstacles, bounds, r.p1.x, r.p1.x == bounds.p1.x, 3, 1);
    lemma_meet_axis(lines[top], lines[right]);
    lemma_meet_axis(lines[bottom], lines[right]);
    lemma_meet_axis(lines[bottom], lines[left]);
    lemma_meet_axis(lines[top], lines[left]);
    assert(corner_rect(lines[top], lines[right], lines[bottom], lines[left]) == Some(r));
}

/// Every empty area lies within some maximal one.
proof fn lemma_maximal_above(obstacles: Seq<Rect>, bounds: Rect, c: Rect) -> (m: Rect)
    requires
        bounds.wf(),
        empty_area(obstacles, bounds, c),
    ensures
        is_maximal(obstacles, bounds, m),
        inside(c, m),
    decreases bounds.area_spec() - c.area_spec(),
{
    if is_maximal(obstacles, bounds, c) {
        c
    } else {
        let d = choose|d: Rect| empty_area(obstacles, bounds, d) && inside(c, d) && d != c;
        lemma_area_grows(c, d);
        lemma_area_grows(d, bounds);
        lemma_maximal_above(obstacles, bounds, d)
    }
}

/// Calculates the maximal empty areas of `bounds` around the obstacles: the
/// empty areas that four boundary lines of the obstacles and of the bounds
/// corner, less each that lies within another.
pub fn max_empty_areas(obstacles: &Vec<Rect>, bounds: &Rect) -> (res: Vec<Rect>)
    requires
        bounds.wf(),
        all_wf(obstacles@),
    ensures
        is_mea_result(obstacles@, *bounds, res@),
{
    let mut all: Vec<Rect> = Vec::new();
    let mut q: usize = 0;
    while q < obstacles.len()
        invariant
            q <= obstacles.len(),
            all@ == obstacles@.subrange(0, q as int),
        decreases obstacles.len() - q,
    {
        all.push(obstacles[q]);
        q = q + 1;
        assert(all@ =~= obstacles@.subrange(0, q as int));
    }
    all.push(*bounds);
    assert(all@ =~= obstacles@.push(*bounds));
    let lines = collect_lines(&all);
    let cands = collect_candidates(obstacles, bounds, &lines);
    let res = select(&cands);
    proof {
        assert forall|k: int| 0 <= k < res@.len() implies is_maximal(
            obstacles@,
            *bounds,
            #[trigger] res@[k],
        ) by {
            let x = res@[k];
            let m0 = choose|m0: int| 0 <= m0 < cands@.len() && cands@[m0] == x;
            assert(candidate_area(obstacles@, *bounds, cands@[m0]));
            assert forall|c: Rect| empty_area(obstacles@, *bounds, c) && inside(x, c) implies c
                == x by {
                if c != x {
                    let m = lemma_maximal_above(obstacles@, *bounds, c);
                    lemma_maximal_is_candidate(obstacles@, *bounds, m);
                    assert(cands@.contains(m));
                    let j = choose|j: int| 0 <= j < cands@.len() && cands@[j] == m;
                    assert(inside(x, m));
                    if m == x {
                        assert(c.p1 == x.p1 && c.p2 == x.p2);
                    }
                    assert(cands@[j] != x);
                    assert(dominated(cands@, x));
                }
            }
        }
        assert forall|r: Rect| is_maximal(obstacles@, *bounds, r) implies res@.contains(r) by {
            lemma_maximal_is_candidate(obstacles@, *bounds, r);
            if dominated(cands@, r) {
                let j = choose|j: int|
                    0 <= j < cands@.len() && cands@[j] != r && inside(r, #[trigger] cands@[j]);
                assert(candidate_area(obstacles@, *bounds, cands@[j]));
            }
        }
    }
    res
}

/// The maximal empty areas are one set: two results for the same obstacles
/// and bounds hold the same rectangles.
pub proof fn lemma_mea_unique(obstacles: Seq<Rect>, bounds: Rect, r1: Seq<Rect>, r2: Seq<Rect>)
    requires
        is_mea_result(obstacles, bounds, r1),
        is_mea_result(obstacles, bounds, r2),
    ensures
        r1.to_set() == r2.to_set(),
{
    assert forall|c: Rect| r1.to_set().contains(c) <==> r2.to_set().contains(c) by {
        if r1.contains(c) {
            let k = choose|k: int| 0 <= k < r1.len() && r1[k] == c;
            assert(is_maximal(obstacles, bounds, r1[k]));
        }
        if r2.contains(c) {
            let k = choose|k: int| 0 <= k < r2.len() && r2[k] == c;
            assert(is_maximal(obstacles, bounds, r2[k]));
        }
    }
    assert(r1.to_set() =~= r2.to_set());
}

} // verus!
