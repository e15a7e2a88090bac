use svgnest::line_merge::{connect_open_polys, merge_lines, points_equal};
use svgnest::{Point, Polygon};

fn pt(x: i64, y: i64) -> Point {
    Point { x, y }
}

fn seg(id: usize, a: Point, b: Point) -> Polygon {
    Polygon { id, points: vec![a, b], closed: false }
}

#[test]
fn deduplicates_segments() {
    let p1 = seg(0, pt(0, 0), pt(10, 0));
    let p2 = seg(1, pt(10, 0), pt(0, 0));
    let p3 = seg(2, pt(20, 20), pt(30, 20));
    let merged = merge_lines(&vec![p1, p2, p3], 1);
    assert_eq!(merged.len(), 2);
}

#[test]
fn merge_keeps_first_and_orders_by_x() {
    let square = Polygon { id: 0, points: vec![pt(4, 0), pt(8, 0), pt(8, 4), pt(4, 4)], closed: true };
    let extra = seg(1, pt(8, 4), pt(8, 0));
    let lone = seg(2, pt(0, 9), pt(1, 9));
    let merged = merge_lines(&vec![square, extra, lone], 1);
    assert_eq!(merged.len(), 5);
    let xs: Vec<i64> = merged.iter().map(|p| p.points[0].x).collect();
    let mut sorted = xs.clone();
    sorted.sort();
    assert_eq!(xs, sorted);
    assert_eq!(merged[0].points, vec![pt(0, 9), pt(1, 9)]);
    assert!(merged.iter().enumerate().all(|(i, p)| p.id == i && !p.closed));
    assert!(merged.iter().any(|p| p.points == vec![pt(8, 0), pt(8, 4)]));
}

#[test]
fn merge_within_a_cell() {
    let merged = merge_lines(&vec![seg(0, pt(0, 0), pt(100, 0)), seg(1, pt(2, 1), pt(99, -2))], 10);
    assert_eq!(merged.len(), 1);
}

#[test]
fn points_equal_within_tolerance() {
    assert!(points_equal(pt(0, 0), pt(9, -9), 10));
    assert!(!points_equal(pt(0, 0), pt(10, 0), 10));
}

#[test]
fn connects_chains_into_a_closed_polygon() {
    let open = vec![
        vec![pt(0, 0), pt(10, 0)],
        vec![pt(10, 0), pt(10, 10)],
        vec![pt(0, 10), pt(10, 10)],
        vec![pt(0, 10), pt(0, 0)],
    ];
    let kept = Polygon { id: 7, points: vec![pt(50, 50), pt(60, 50), pt(60, 60)], closed: true };
    let r = connect_open_polys(open, vec![kept.clone()], 1);
    assert_eq!(r.len(), 2);
    assert_eq!(r[0].id, 7);
    assert_eq!(r[0].points, kept.points);
    assert!(r[1].closed);
    assert_eq!(r[1].points.len(), 4);
}

#[test]
fn disjoint_chains_stay_open() {
    let open = vec![vec![pt(0, 0), pt(10, 0)], vec![pt(50, 0), pt(60, 0)], vec![]];
    let r = connect_open_polys(open, vec![], 1);
    assert_eq!(r.len(), 2);
    assert!(r.iter().all(|p| !p.closed && p.points.len() == 2));
}
