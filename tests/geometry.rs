use svgnest::clip::polygons_intersect;
use svgnest::geometry::{
    get_polygon_bounds, get_polygons_bounds, normalize_polygons, point_in_polygon,
    polygon_area, polygon_contains_polygon,
};
use svgnest::{Point, Polygon};

fn pt(x: i64, y: i64) -> Point {
    Point { x, y }
}

fn square(x: i64, y: i64, s: i64) -> Vec<Point> {
    vec![pt(x, y), pt(x + s, y), pt(x + s, y + s), pt(x, y + s)]
}

#[test]
fn area_of_square() {
    let pts = square(0, 0, 1);
    // polygon_area gives twice the signed area
    assert_eq!(polygon_area(&pts), -2);
    let bounds = get_polygon_bounds(&pts).unwrap();
    assert_eq!(bounds.width, 1);
    assert_eq!(bounds.height, 1);
}

#[test]
fn area_of_triangle_ccw() {
    let pts = vec![pt(0, 0), pt(1, 0), pt(0, 1)];
    assert_eq!(polygon_area(&pts), -1);
}

#[test]
fn degenerate_polygon() {
    let pts = vec![pt(0, 0), pt(1, 0)];
    assert_eq!(polygon_area(&pts), 0);
    assert!(get_polygon_bounds(&pts).is_none());
}

#[test]
fn area_is_zero_below_three_points() {
    assert_eq!(polygon_area(&vec![]), 0);
    assert_eq!(polygon_area(&vec![pt(5, 7)]), 0);
    assert_eq!(polygon_area(&vec![pt(5, 7), pt(-3, 9)]), 0);
}

#[test]
fn clockwise_square_has_positive_area() {
    let pts = vec![pt(0, 0), pt(0, 3), pt(3, 3), pt(3, 0)];
    assert_eq!(polygon_area(&pts), 18);
}

#[test]
fn bounds_of_offset_polygon() {
    let pts = vec![pt(-2, 5), pt(7, 1), pt(3, 9)];
    let b = get_polygon_bounds(&pts).unwrap();
    assert_eq!((b.x, b.y, b.width, b.height), (-2, 1, 9, 8));
}

#[test]
fn bounds_of_several_polygons_skip_degenerate_ones() {
    let polys = vec![
        Polygon { id: 0, points: vec![pt(-50, -50), pt(100, 100)], closed: false },
        Polygon { id: 1, points: square(0, 0, 4), closed: true },
        Polygon { id: 2, points: square(2, 3, 5), closed: true },
    ];
    let b = get_polygons_bounds(&polys).unwrap();
    assert_eq!((b.x, b.y, b.width, b.height), (0, 0, 7, 8));
    let none = vec![Polygon { id: 0, points: vec![pt(1, 1)], closed: false }];
    assert!(get_polygons_bounds(&none).is_none());
}

#[test]
fn point_in_square_even_odd() {
    let sq = square(0, 0, 10);
    assert!(point_in_polygon(&sq, 5, 5));
    assert!(!point_in_polygon(&sq, 15, 5));
    assert!(!point_in_polygon(&sq, 5, -1));
    assert!(!point_in_polygon(&vec![], 0, 0));
}

#[test]
fn point_in_concave_polygon() {
    let l4 = vec![pt(0, 0), pt(20, 0), pt(20, 10), pt(10, 10), pt(10, 20), pt(0, 20)];
    assert!(point_in_polygon(&l4, 5, 15));
    assert!(!point_in_polygon(&l4, 15, 15));
}

#[test]
fn contains_translated_polygon() {
    let outer = square(0, 0, 10);
    let inner = square(0, 0, 2);
    assert!(polygon_contains_polygon(&outer, &inner, 0, 0, 3, 3));
    assert!(!polygon_contains_polygon(&outer, &inner, 0, 0, 9, 3));
    assert!(polygon_contains_polygon(&outer, &inner, 100, 100, 104, 104));
}

#[test]
fn intersecting_translated_squares() {
    let a = square(0, 0, 4);
    let b = square(0, 0, 4);
    assert!(polygons_intersect(&a, &b, 0, 0, 2, 2));
    assert!(!polygons_intersect(&a, &b, 0, 0, 10, 0));
}

#[test]
fn normalize_moves_least_corner_to_origin() {
    let mut polys = vec![
        Polygon { id: 3, points: square(5, -7, 4), closed: true },
        Polygon { id: 4, points: vec![pt(2, 10)], closed: false },
    ];
    normalize_polygons(&mut polys);
    assert_eq!(polys[0].points[0], pt(3, 0));
    assert_eq!(polys[1].points[0], pt(0, 17));
    assert_eq!(polys[0].id, 3);
    assert!(!polys[1].closed);
}
