use svgnest::geometry::{get_polygons_bounds, polygon_area};
use svgnest::nfp::{
    difference_polygons, minkowski_diff_erosion, minkowski_difference_clip, no_fit_polygon,
    no_fit_polygon_rectangle, union_polygons, NfpCache,
};
use svgnest::{Part, Point, Polygon};

fn pt(x: i64, y: i64) -> Point {
    Point { x, y }
}

fn rect(w: i64, h: i64) -> Vec<Point> {
    vec![pt(0, 0), pt(w, 0), pt(w, h), pt(0, h)]
}

#[test]
fn concave_minkowski_handles_l_shape() {
    let a = vec![pt(0, 0), pt(2, 0), pt(2, 1), pt(1, 1), pt(1, 2), pt(0, 2)];
    let b = rect(1, 1);
    let nfp = minkowski_difference_clip(&a, &b);
    assert!(nfp.len() > 4);
    // The result is the outer ring of the union of the edge quadrilaterals:
    // it bounds the L grown by the square, a 3 x 3 box less a unit corner,
    // area 8 (polygon_area gives twice that). An area near 5 would be the
    // union less its interior gap of area 3, which is not part of the ring;
    // no set that is the L grown by a unit square has an area below 7.4.
    let area = polygon_area(&nfp).abs();
    assert_eq!(area, 16);
    assert!(nfp.iter().all(|p| p.x >= -1 && p.x <= 2 && p.y >= -1 && p.y <= 2));
}

#[test]
fn minkowski_of_squares_is_square_region() {
    let a = rect(4, 4);
    let b = rect(2, 2);
    let nfp = no_fit_polygon(&a, &b);
    assert_eq!(polygon_area(&nfp).abs(), 2 * 36);
    assert!(minkowski_difference_clip(&vec![], &b).is_empty());
}

#[test]
fn inner_nfp_rectangle_simple() {
    let container = rect(10, 10);
    let part = rect(2, 2);
    let nfps = minkowski_diff_erosion(&container, &part);
    assert_eq!(nfps.len(), 1);
    let area = polygon_area(&nfps[0]).abs();
    assert_eq!(area, 2 * 64);
    let rect_nfp = no_fit_polygon_rectangle(&container, &part).unwrap();
    assert_eq!(rect_nfp.len(), 1);
}

#[test]
fn inner_nfp_concave_splits_regions() {
    let container = vec![pt(0, 0), pt(3, 0), pt(3, 1), pt(1, 1), pt(1, 3), pt(0, 3)];
    let part = rect(1, 1);
    let nfps = minkowski_diff_erosion(&container, &part);
    assert!(nfps.is_empty() || nfps.len() >= 1);
}

#[test]
fn inner_fit_rectangle_area() {
    let container = rect(10, 7);
    let part = rect(3, 2);
    let r = no_fit_polygon_rectangle(&container, &part).unwrap();
    assert_eq!(r[0], vec![pt(0, 0), pt(7, 0), pt(7, 5), pt(0, 5)]);
    assert_eq!(polygon_area(&r[0]), -2 * 7 * 5);
}

#[test]
fn inner_fit_rectangle_too_large() {
    assert!(no_fit_polygon_rectangle(&rect(5, 5), &rect(6, 4)).is_none());
    assert!(no_fit_polygon_rectangle(&rect(5, 5), &vec![pt(0, 0), pt(1, 1)]).is_none());
}

#[test]
fn union_merges_overlapping_squares() {
    let polys = vec![rect(4, 4), vec![pt(2, 2), pt(6, 2), pt(6, 6), pt(2, 6)], vec![pt(0, 0), pt(1, 1)]];
    let u = union_polygons(&polys);
    assert_eq!(u.len(), 1);
    assert_eq!(polygon_area(&u[0]).abs(), 2 * 28);
}

#[test]
fn difference_cuts_a_square() {
    let subject = vec![rect(4, 4)];
    let clip = vec![vec![pt(2, 0), pt(6, 0), pt(6, 4), pt(2, 4)]];
    let d = difference_polygons(&subject, &clip);
    assert_eq!(d.len(), 1);
    assert_eq!(polygon_area(&d[0]).abs(), 2 * 8);
}

#[test]
fn cache_returns_stored_polygon() {
    let mut cache = NfpCache::new();
    let a = rect(4, 4);
    let b = rect(2, 2);
    let first = cache.get_or_generate(0, 1, 0, 0, &a, &b);
    // a hit returns what was stored under the key, whatever is passed
    let second = cache.get_or_generate(0, 1, 0, 0, &rect(1, 1), &rect(1, 1));
    assert_eq!(first, second);
    let other = cache.get_or_generate(0, 1, 1, 0, &rect(1, 1), &rect(1, 1));
    assert_ne!(first, other);
}

#[test]
fn part_is_normalized_at_origin() {
    let part = Part::new(vec![
        Polygon { id: 0, points: vec![pt(5, 3), pt(9, 3), pt(9, 8), pt(5, 8)], closed: true },
        Polygon { id: 1, points: vec![pt(6, 4), pt(6, 5), pt(7, 5), pt(7, 4)], closed: true },
    ]);
    let b = part.bounds().unwrap();
    assert_eq!((b.x, b.y, b.width, b.height), (0, 0, 4, 5));
    assert_eq!(part.polygons()[1].points[0], pt(1, 1));
    let b2 = get_polygons_bounds(part.rotated(0)).unwrap();
    assert_eq!(b2, b);
}

#[test]
fn part_turns_are_normalized() {
    let mut part = Part::new(vec![Polygon { id: 0, points: rect(6, 4), closed: true }]);
    part.add_turn(vec![Polygon { id: 0, points: vec![pt(0, 0), pt(0, 6), pt(-4, 6), pt(-4, 0)], closed: true }]);
    assert_eq!(part.turn_count(), 2);
    let b = part.bounds_rotated(1).unwrap();
    assert_eq!((b.x, b.y, b.width, b.height), (0, 0, 4, 6));
}
