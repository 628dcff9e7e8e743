use rect_pack::line::{Line, Point};
use rect_pack::rect::{Area, Corner, Rect};

fn rect(x1: i64, y1: i64, x2: i64, y2: i64) -> Rect {
    Rect { p1: Point::new(x1, y1), p2: Point::new(x2, y2) }
}

fn line(x1: i64, y1: i64, x2: i64, y2: i64) -> Line {
    Line { p1: Point::new(x1, y1), p2: Point::new(x2, y2) }
}

#[test]
fn intersection_of_crossing_lines() {
    let a = line(0, 0, 10, 0);
    let b = line(3, -5, 3, 5);
    assert_eq!(a.intersection(&b), Some(Point::new(3, 0)));
    assert_eq!(b.intersection(&a), Some(Point::new(3, 0)));
}

#[test]
fn intersection_of_diagonals_lies_on_both() {
    let a = line(0, 0, 4, 4);
    let b = line(0, 4, 4, 0);
    let p = a.intersection(&b).unwrap();
    assert_eq!(p, Point::new(2, 2));
    for l in [a, b] {
        let lhs = (p.x - l.p1.x) * (l.p2.y - l.p1.y);
        let rhs = (p.y - l.p1.y) * (l.p2.x - l.p1.x);
        assert_eq!(lhs, rhs);
    }
}

#[test]
fn intersection_of_parallel_lines_is_none() {
    assert_eq!(line(0, 0, 10, 0).intersection(&line(0, 5, 10, 5)), None);
    assert_eq!(line(0, 0, 2, 1).intersection(&line(0, 3, 4, 5)), None);
}

#[test]
fn intersection_of_identical_lines_is_none() {
    let a = line(1, 1, 5, 3);
    assert_eq!(a.intersection(&a), None);
    assert_eq!(a.intersection(&line(5, 3, 1, 1)), None);
}

#[test]
fn intersection_rounds_toward_zero() {
    // y = x/2 and x = 3 cross at (3, 1.5)
    assert_eq!(line(0, 0, 2, 1).intersection(&line(3, 0, 3, 7)), Some(Point::new(3, 1)));
    // y = -x/2 and x = 3 cross at (3, -1.5)
    assert_eq!(line(0, 0, 2, -1).intersection(&line(3, 0, 3, 7)), Some(Point::new(3, -1)));
}

#[test]
fn area_of_rectangles() {
    assert_eq!(rect(0, 0, 4, 10).area(), 40);
    assert_eq!(rect(-3, -2, 2, 1).area(), 15);
    assert_eq!(Rect::new(80, 60).area(), 4800);
}

#[test]
fn area_is_zero_without_width_or_height() {
    assert_eq!(rect(2, 0, 2, 10).area(), 0);
    assert_eq!(rect(0, 5, 10, 5).area(), 0);
    assert_eq!(rect(3, 3, 3, 3).area(), 0);
    assert!(rect(0, 0, 1, 1).area() > 0);
}

#[test]
fn new_places_at_origin() {
    assert_eq!(Rect::new(7, 3), rect(0, 0, 7, 3));
}

#[test]
fn new_by_points_takes_the_extremes() {
    let r = Rect::new_by_points(
        &Point::new(4, 10),
        &Point::new(10, 10),
        &Point::new(10, 0),
        &Point::new(4, 0),
    );
    assert_eq!(r, rect(4, 0, 10, 10));
    let r = Rect::new_by_points(
        &Point::new(0, 0),
        &Point::new(-2, 5),
        &Point::new(3, -1),
        &Point::new(1, 1),
    );
    assert_eq!(r, rect(-2, -1, 3, 5));
}

#[test]
fn move_by_shifts_both_corners() {
    let mut r = rect(1, 2, 4, 6);
    r.move_by(10, -2);
    assert_eq!(r, rect(11, 0, 14, 4));
}

#[test]
fn move_to_keeps_the_size() {
    let mut r = rect(1, 2, 4, 6);
    r.move_to(Point::new(-5, 7));
    assert_eq!(r, rect(-5, 7, -2, 11));
}

#[test]
fn corners_of_a_rectangle() {
    let r = rect(1, 2, 4, 6);
    assert_eq!(r.get_corner(Corner::UpperLeft), Point::new(1, 2));
    assert_eq!(r.get_corner(Corner::UpperRight), Point::new(4, 2));
    assert_eq!(r.get_corner(Corner::LowerLeft), Point::new(1, 6));
    assert_eq!(r.get_corner(Corner::LowerRight), Point::new(4, 6));
}

#[test]
fn line_iterator_gives_four_lines_clockwise() {
    let r = rect(1, 2, 4, 6);
    let mut it = r.get_line_iterator();
    assert_eq!(it.next(), Some(line(1, 2, 4, 2)));
    assert_eq!(it.next(), Some(line(4, 2, 4, 6)));
    assert_eq!(it.next(), Some(line(4, 6, 1, 6)));
    assert_eq!(it.next(), Some(line(1, 6, 1, 2)));
    assert_eq!(it.next(), None);
    assert_eq!(it.next(), None);
    let mut again = r.get_line_iterator();
    assert_eq!(again.next(), Some(line(1, 2, 4, 2)));
}

#[test]
fn lines_matches_the_iterator() {
    let r = rect(0, 0, 3, 5);
    assert_eq!(
        r.lines(),
        vec![line(0, 0, 3, 0), line(3, 0, 3, 5), line(3, 5, 0, 5), line(0, 5, 0, 0)]
    );
}

#[test]
fn overlapped_area_of_two_rectangles() {
    assert_eq!(rect(0, 0, 5, 5).get_overlapped_area(&rect(3, 2, 8, 8)), 6);
    assert_eq!(rect(0, 0, 5, 5).get_overlapped_area(&rect(5, 0, 8, 8)), 0);
    assert_eq!(rect(0, 0, 5, 5).get_overlapped_area(&rect(6, 6, 8, 8)), 0);
}

#[test]
fn overlapped_is_symmetric() {
    let pairs = [
        (rect(0, 0, 5, 5), rect(3, 2, 8, 8)),
        (rect(0, 0, 5, 5), rect(5, 5, 10, 10)),
        (rect(0, 0, 10, 10), rect(2, 2, 3, 3)),
        (rect(0, 0, 4, 4), rect(7, 0, 9, 4)),
    ];
    for (a, b) in pairs {
        assert_eq!(a.overlapped(&b), b.overlapped(&a));
        assert_eq!(a.get_overlapped_area(&b), b.get_overlapped_area(&a));
    }
    assert!(rect(0, 0, 10, 10).overlapped(&rect(2, 2, 3, 3)));
    assert!(!rect(0, 0, 5, 5).overlapped(&rect(5, 5, 10, 10)));
}

#[test]
fn rectangle_with_area_overlaps_itself() {
    let a = rect(2, 3, 7, 4);
    assert!(a.overlapped(&a));
    assert_eq!(a.get_overlapped_area(&a), a.area());
    let flat = rect(2, 3, 7, 3);
    assert!(!flat.overlapped(&flat));
}
