use rect_pack::line::Point;
use rect_pack::mea::max_empty_areas;
use rect_pack::placed_rects::{PackError, PlacedRects};
use rect_pack::rect::{Area, Rect};

fn rect(x1: i64, y1: i64, x2: i64, y2: i64) -> Rect {
    Rect { p1: Point::new(x1, y1), p2: Point::new(x2, y2) }
}

fn sorted(mut v: Vec<Rect>) -> Vec<(i64, i64, i64, i64)> {
    let mut keys: Vec<(i64, i64, i64, i64)> =
        v.drain(..).map(|r| (r.p1.x, r.p1.y, r.p2.x, r.p2.y)).collect();
    keys.sort();
    keys
}

fn ledger(width: i64, height: i64, spacing: i64, placed: &[Rect]) -> PlacedRects {
    let mut p = PlacedRects::new(width, height, spacing).unwrap();
    for r in placed {
        p.commit(*r).unwrap();
    }
    p
}

#[test]
fn empty_container_is_one_empty_area() {
    let p = ledger(80, 60, 0, &[]);
    assert_eq!(p.calc_mea(), vec![rect(0, 0, 80, 60)]);
}

#[test]
fn full_height_strip_leaves_the_rest() {
    let p = ledger(10, 10, 0, &[rect(0, 0, 4, 10)]);
    assert_eq!(p.calc_mea(), vec![rect(4, 0, 10, 10)]);
}

#[test]
fn diagonal_halves_leave_two_squares() {
    let p = ledger(10, 10, 0, &[rect(0, 0, 5, 5), rect(5, 5, 10, 10)]);
    assert_eq!(
        sorted(p.calc_mea()),
        sorted(vec![rect(5, 0, 10, 5), rect(0, 5, 5, 10)])
    );
}

#[test]
fn overlapping_commit_is_rejected() {
    let mut p = ledger(10, 10, 0, &[rect(0, 0, 5, 5)]);
    assert_eq!(p.commit(rect(3, 3, 8, 8)), Err(PackError::PlacementRejected));
    assert_eq!(p.rects(), &vec![rect(0, 0, 5, 5)]);
}

#[test]
fn calc_mea_twice_gives_the_same_set() {
    let p = ledger(20, 12, 0, &[rect(0, 0, 6, 4), rect(10, 6, 14, 12), rect(16, 0, 20, 3)]);
    assert_eq!(sorted(p.calc_mea()), sorted(p.calc_mea()));
}

#[test]
fn no_empty_area_holds_another() {
    // four corner blocks leave a cross of free room: its two bands overlap,
    // and neither holds the other
    let p = ledger(
        10,
        10,
        0,
        &[rect(0, 0, 3, 3), rect(7, 0, 10, 3), rect(0, 7, 3, 10), rect(7, 7, 10, 10)],
    );
    let res = p.calc_mea();
    assert_eq!(sorted(res.clone()), sorted(vec![rect(0, 3, 10, 7), rect(3, 0, 7, 10)]));
    for (i, a) in res.iter().enumerate() {
        for (j, b) in res.iter().enumerate() {
            if i != j {
                let a_in_b = b.p1.x <= a.p1.x && a.p2.x <= b.p2.x && b.p1.y <= a.p1.y
                    && a.p2.y <= b.p2.y;
                assert!(!a_in_b);
                assert_ne!(a, b);
            }
        }
    }
}

#[test]
fn overlapping_maximal_areas_are_all_returned() {
    let p = ledger(10, 10, 0, &[rect(0, 0, 5, 5)]);
    assert_eq!(sorted(p.calc_mea()), sorted(vec![rect(5, 0, 10, 10), rect(0, 5, 10, 10)]));
}

#[test]
fn empty_areas_stay_inside_and_clear_of_placed() {
    let placed = [rect(0, 0, 6, 4), rect(10, 6, 14, 12), rect(16, 0, 20, 3)];
    let p = ledger(20, 12, 0, &placed);
    let res = p.calc_mea();
    assert!(!res.is_empty());
    for m in &res {
        assert!(m.area() > 0);
        assert!(0 <= m.p1.x && m.p2.x <= 20 && 0 <= m.p1.y && m.p2.y <= 12);
        for q in &placed {
            assert!(!m.overlapped(q));
        }
    }
}

#[test]
fn calc_mea_for_counts_the_trial_rectangle() {
    let p = ledger(10, 10, 0, &[]);
    assert_eq!(p.calc_mea_for(rect(0, 0, 4, 10)), vec![rect(4, 0, 10, 10)]);
    // nothing was placed by the trial
    assert_eq!(p.calc_mea(), vec![rect(0, 0, 10, 10)]);
    let q = ledger(10, 10, 0, &[rect(0, 0, 5, 5)]);
    assert_eq!(
        sorted(q.calc_mea_for(rect(5, 5, 10, 10))),
        sorted(vec![rect(5, 0, 10, 5), rect(0, 5, 5, 10)])
    );
}

#[test]
fn max_empty_areas_with_a_centre_block() {
    let res = max_empty_areas(&vec![rect(4, 4, 6, 6)], &rect(0, 0, 10, 10));
    // the four bands round the block, each bounded by the block on one side
    assert_eq!(
        sorted(res),
        sorted(vec![
            rect(0, 0, 4, 10),
            rect(6, 0, 10, 10),
            rect(0, 0, 10, 4),
            rect(0, 6, 10, 10),
        ])
    );
}

#[test]
fn calc_mea_for_with_a_thin_trial() {
    let p = ledger(10, 10, 0, &[rect(0, 0, 5, 5)]);
    assert_eq!(
        sorted(p.calc_mea_for(rect(5, 0, 10, 1))),
        sorted(vec![rect(0, 5, 10, 10), rect(5, 1, 10, 10)])
    );
}

#[test]
fn container_without_area_is_degenerate() {
    assert_eq!(PlacedRects::new(0, 10, 0).unwrap_err(), PackError::DegenerateGeometry);
    assert_eq!(PlacedRects::new(10, -1, 0).unwrap_err(), PackError::DegenerateGeometry);
    let p = PlacedRects::new(10, 20, 2).unwrap();
    assert_eq!((p.width(), p.height(), p.spacing()), (10, 20, 2));
    assert!(p.rects().is_empty());
}

#[test]
fn commit_of_flat_rectangle_is_degenerate() {
    let mut p = ledger(10, 10, 0, &[]);
    assert_eq!(p.commit(rect(2, 2, 2, 8)), Err(PackError::DegenerateGeometry));
    assert!(p.rects().is_empty());
}

#[test]
fn commit_outside_the_container_is_rejected() {
    let mut p = ledger(10, 10, 0, &[]);
    assert_eq!(p.commit(rect(8, 8, 12, 9)), Err(PackError::PlacementRejected));
    assert_eq!(p.commit(rect(-1, 0, 2, 2)), Err(PackError::PlacementRejected));
    assert!(p.rects().is_empty());
}

#[test]
fn commit_keeps_the_spacing() {
    let mut p = ledger(20, 20, 2, &[rect(0, 0, 5, 5)]);
    assert_eq!(p.commit(rect(6, 0, 10, 5)), Err(PackError::PlacementRejected));
    assert_eq!(p.commit(rect(7, 0, 10, 5)), Ok(()));
    assert_eq!(p.commit(rect(0, 7, 5, 9)), Ok(()));
    assert_eq!(p.rects(), &vec![rect(0, 0, 5, 5), rect(7, 0, 10, 5), rect(0, 7, 5, 9)]);
}

#[test]
fn touching_rectangles_may_be_placed_without_spacing() {
    let mut p = ledger(10, 10, 0, &[rect(0, 0, 5, 5)]);
    assert_eq!(p.commit(rect(5, 0, 10, 5)), Ok(()));
    assert_eq!(p.calc_mea(), vec![rect(0, 5, 10, 10)]);
}

#[test]
fn minimal_block_count_rounds_down_and_adds_one() {
    let items = vec![Rect::new(10, 10), Rect::new(20, 5), Rect::new(4, 5)];
    // total area 220 in blocks of 100
    assert_eq!(rect_pack::placed_rects::minimal_block_count(&items, 10, 10), 3);
    // total area 220 in blocks of 220
    assert_eq!(rect_pack::placed_rects::minimal_block_count(&items, 22, 10), 2);
    assert_eq!(rect_pack::placed_rects::minimal_block_count(&vec![], 5, 5), 1);
}
