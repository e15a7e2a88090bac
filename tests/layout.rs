use svgnest::clip::polygons_intersect;
use svgnest::layout::{evaluate_static, layout, score_layout, INFEASIBLE};
use svgnest::{Bounds, GAConfig, Individual, Part, Point, Polygon};

fn pt(x: i64, y: i64) -> Point {
    Point { x, y }
}

fn rect_part(w: i64, h: i64) -> Part {
    Part::new(vec![Polygon { id: 0, points: vec![pt(0, 0), pt(w, 0), pt(w, h), pt(0, h)], closed: true }])
}

fn bin(w: i64, h: i64) -> Bounds {
    Bounds { x: 0, y: 0, width: w, height: h }
}

fn config(explore_concave: bool, use_holes: bool) -> GAConfig {
    GAConfig { population_size: 1, mutation_rate: 0, rotations: 0, spacing: 0, use_holes, explore_concave }
}

fn identity(n: usize) -> Individual {
    Individual { placement: (0..n).collect(), rotation: vec![0; n], fitness: INFEASIBLE }
}

#[test]
fn two_parts_share_one_bin() {
    let parts = vec![rect_part(4, 4), rect_part(4, 4)];
    let (h, pl) = layout(&identity(2), &parts, bin(10, 10), config(false, false));
    assert_eq!(h, Some(10));
    assert_eq!(pl.len(), 2);
    assert_eq!((pl[0].x, pl[0].y), (0, 0));
    assert_eq!((pl[1].x, pl[1].y), (4, 0));
}

#[test]
fn third_part_overflows_to_second_bin() {
    let parts = vec![rect_part(4, 4), rect_part(4, 4), rect_part(4, 4)];
    let (h, pl) = layout(&identity(3), &parts, bin(10, 10), config(false, false));
    assert_eq!(h, Some(20));
    let pos: Vec<(i64, i64)> = pl.iter().map(|p| (p.x, p.y)).collect();
    assert_eq!(pos, vec![(0, 0), (4, 0), (0, 10)]);
}

#[test]
fn placed_parts_do_not_overlap() {
    let parts = vec![rect_part(4, 4), rect_part(3, 5), rect_part(4, 4)];
    let (h, pl) = layout(&identity(3), &parts, bin(10, 10), config(false, false));
    assert!(h.is_some());
    for i in 0..pl.len() {
        for j in (i + 1)..pl.len() {
            let a = &parts[pl[i].idx].rotated(0)[0].points;
            let b = &parts[pl[j].idx].rotated(0)[0].points;
            assert!(!polygons_intersect(a, b, pl[i].x, pl[i].y, pl[j].x, pl[j].y));
        }
    }
}

#[test]
fn shelf_breaks_when_part_reaches_bin_edge() {
    // x + width >= bin width opens a new shelf, even when flush
    let parts = vec![rect_part(5, 2), rect_part(5, 2)];
    let (h, pl) = layout(&identity(2), &parts, bin(10, 10), config(false, false));
    assert_eq!(h, Some(20));
    assert_eq!((pl[1].x, pl[1].y), (0, 10));
}

#[test]
fn spacing_advances_the_cursor() {
    let parts = vec![rect_part(2, 2), rect_part(2, 2)];
    let mut c = config(false, false);
    c.spacing = 3;
    let (_, pl) = layout(&identity(2), &parts, bin(10, 10), c);
    assert_eq!((pl[1].x, pl[1].y), (5, 0));
}

#[test]
fn oversized_part_is_infeasible_in_layout() {
    let parts = vec![rect_part(12, 2)];
    let (h, pl) = layout(&identity(1), &parts, bin(10, 10), config(false, false));
    assert!(h.is_none());
    assert!(pl.is_empty());
}

#[test]
fn maximal_rectangles_pack_tighter_than_shelf() {
    let parts = vec![rect_part(6, 4), rect_part(4, 6)];
    let (ha, _) = layout(&identity(2), &parts, bin(10, 20), config(false, false));
    let (hb, pl) = layout(&identity(2), &parts, bin(10, 20), config(true, false));
    assert_eq!(ha, Some(40));
    assert_eq!(hb, Some(20));
    assert!(ha.unwrap() as f64 / hb.unwrap() as f64 >= 1.5);
    assert_eq!(pl.len(), 2);
}

#[test]
fn trivial_single_part_fitness() {
    let parts = vec![rect_part(2, 2)];
    let f = evaluate_static(&identity(1), &parts, bin(10, 10), config(false, false));
    // one bin plus width 2 over the area 100, scaled by the area
    assert_eq!(f, 100 + 2);
}

#[test]
fn unplaceable_part_adds_penalty() {
    let parts = vec![rect_part(6, 4)];
    let f = evaluate_static(&identity(1), &parts, bin(5, 5), config(false, false));
    // no bin used, penalty of two bins: 2 * area
    assert_eq!(f, 2 * 25);
}

#[test]
fn score_of_infeasible_layout() {
    let parts = vec![rect_part(2, 2)];
    assert_eq!(score_layout(&parts, bin(10, 10), 0, None, &vec![]), INFEASIBLE);
}

#[test]
fn fitness_counts_widths_per_bin() {
    let parts = vec![rect_part(4, 4), rect_part(4, 4), rect_part(4, 4)];
    let f = evaluate_static(&identity(3), &parts, bin(10, 10), config(false, false));
    // two bins, widths 8 and 4
    assert_eq!(f, 2 * 100 + 8 + 4);
}

fn frame_part() -> Part {
    Part::new(vec![
        Polygon { id: 0, points: vec![pt(0, 0), pt(16, 0), pt(16, 16), pt(0, 16)], closed: true },
        Polygon { id: 1, points: vec![pt(3, 3), pt(3, 13), pt(13, 13), pt(13, 3)], closed: true },
    ])
}

#[test]
fn holes_layout_stays_in_one_bin() {
    let parts = vec![frame_part(), rect_part(4, 4)];
    let (h, pl) = layout(&identity(2), &parts, bin(20, 20), config(true, true));
    assert_eq!(h, Some(20));
    assert_eq!(pl.len(), 2);
    assert_eq!((pl[0].x, pl[0].y), (0, 0));
    // the hole's box is tried first, but the outer no-fit polygon of the
    // frame covers it; the part goes to the strip right of the frame
    assert_eq!((pl[1].x, pl[1].y), (16, 0));
}

#[test]
fn parts_fill_free_rectangles_in_list_order() {
    // free list after two parts: the hole's box, the strip below the frame,
    // the rest of the strip right of it; the hole's box stays blocked
    let parts = vec![frame_part(), rect_part(4, 4), rect_part(4, 4)];
    let (h, pl) = layout(&identity(3), &parts, bin(20, 20), config(true, true));
    assert_eq!(h, Some(20));
    assert_eq!(pl.len(), 3);
    assert_eq!((pl[2].x, pl[2].y), (0, 16));
}
