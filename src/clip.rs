//! Boolean operations on integer polygons, done by the Clipper library.
//!
//! Each operation hands back the exterior ring of every polygon of its
//! result, closed (its last vertex repeats the first), in Clipper's order.
use crate::geometry::{coord_ok, pos_ok, ring_ok, ring_pos_ok, Point};
use geo_clipper::ClipperInt;
use geo_types::{MultiPolygon, Polygon as GeoPolygon};
use vstd::prelude::*;

verus! {

/// Every ring is within the range that the kernel and Clipper accept.
pub open spec fn rings_ok(rs: Seq<Seq<Point>>) -> bool {
    forall|k: int| 0 <= k < rs.len() ==> ring_ok(#[trigger] rs[k])
}

pub open spec fn rings_view(rs: Seq<Vec<Point>>) -> Seq<Seq<Point>> {
    rs.map_values(|r: Vec<Point>| r@)
}

/// Exterior rings of the union of the subject rings with the clip ring
/// (non-zero fill).
pub uninterp spec fn union_exteriors(subject: Seq<Seq<Point>>, clip: Seq<Point>) -> Seq<Seq<Point>>;

/// Exterior rings of the intersection of the subject rings with the clip ring
/// (non-zero fill).
pub uninterp spec fn intersection_exteriors(subject: Seq<Seq<Point>>, clip: Seq<Point>) -> Seq<Seq<Point>>;

/// Exterior rings of the subject rings minus the clip rings (non-zero fill).
pub uninterp spec fn difference_exteriors(subject: Seq<Seq<Point>>, clip: Seq<Seq<Point>>) -> Seq<Seq<Point>>;

/// Relies on `geo_clipper::ClipperInt::union` for `MultiPolygon<i64>`: the
/// result depends on the rings alone. Clipper accepts coordinates far beyond
/// the kernel's range.
#[verifier::external_body]
pub(crate) fn clip_union(subject: &Vec<Vec<Point>>, clip: &Vec<Point>) -> (r: Vec<Vec<Point>>)
    requires
        rings_ok(rings_view(subject@)),
        ring_ok(clip@),
    ensures
        rings_view(r@) == union_exteriors(rings_view(subject@), clip@),
{
    let subj = MultiPolygon(subject.iter().map(|s| GeoPolygon::new(s.iter().map(|p| (p.x, p.y)).collect(), vec![])).collect());
    let other = MultiPolygon(vec![GeoPolygon::new(clip.iter().map(|p| (p.x, p.y)).collect(), vec![])]);
    let res = subj.union(&other);
    res.0.iter().map(|g| g.exterior().points().map(|c| Point { x: c.x(), y: c.y() }).collect()).collect()
}

/// Relies on `geo_clipper::ClipperInt::intersection` for `MultiPolygon<i64>`:
/// the result depends on the rings alone.
#[verifier::external_body]
pub(crate) fn clip_intersection(subject: &Vec<Vec<Point>>, clip: &Vec<Point>) -> (r: Vec<Vec<Point>>)
    requires
        rings_ok(rings_view(subject@)),
        ring_ok(clip@),
    ensures
        rings_view(r@) == intersection_exteriors(rings_view(subject@), clip@),
{
    let subj = MultiPolygon(subject.iter().map(|s| GeoPolygon::new(s.iter().map(|p| (p.x, p.y)).collect(), vec![])).collect());
    let other = MultiPolygon(vec![GeoPolygon::new(clip.iter().map(|p| (p.x, p.y)).collect(), vec![])]);
    let res = subj.intersection(&other);
    res.0.iter().map(|g| g.exterior().points().map(|c| Point { x: c.x(), y: c.y() }).collect()).collect()
}

/// Relies on `geo_clipper::ClipperInt::difference` for `MultiPolygon<i64>`:
/// the result depends on the rings alone.
#[verifier::external_body]
pub(crate) fn clip_difference(subject: &Vec<Vec<Point>>, clip: &Vec<Vec<Point>>) -> (r: Vec<Vec<Point>>)
    requires
        rings_ok(rings_view(subject@)),
        rings_ok(rings_view(clip@)),
    ensures
        rings_view(r@) == difference_exteriors(rings_view(subject@), rings_view(clip@)),
{
    let subj = MultiPolygon(subject.iter().map(|s| GeoPolygon::new(s.iter().map(|p| (p.x, p.y)).collect(), vec![])).collect());
    let other = MultiPolygon(clip.iter().map(|s| GeoPolygon::new(s.iter().map(|p| (p.x, p.y)).collect(), vec![])).collect());
    let res = subj.difference(&other);
    res.0.iter().map(|g| g.exterior().points().map(|c| Point { x: c.x(), y: c.y() }).collect()).collect()
}

/// Whether every vertex of the ring is within the kernel's range.
pub fn ring_in_range(r: &Vec<Point>) -> (b: bool)
    ensures
        b == ring_ok(r@),
{
    if r.len() > crate::geometry::MAX_VERTICES {
        return false;
    }
    let mut i: usize = 0;
    while i < r.len()
        invariant
            i <= r.len(),
            r.len() <= crate::geometry::MAX_VERTICES,
            forall|k: int| 0 <= k < i ==> coord_ok((#[trigger] r@[k]).x as int) && coord_ok(r@[k].y as int),
        decreases r.len() - i,
    {
        let p = r[i];
        if p.x < -crate::geometry::COORD_LIMIT || p.x > crate::geometry::COORD_LIMIT
            || p.y < -crate::geometry::COORD_LIMIT || p.y > crate::geometry::COORD_LIMIT {
            assert(!coord_ok(r@[i as int].x as int) || !coord_ok(r@[i as int].y as int));
            return false;
        }
        i = i + 1;
    }
    true
}

/// Whether every ring is within the kernel's range.
pub fn rings_in_range(rs: &Vec<Vec<Point>>) -> (b: bool)
    ensures
        b == rings_ok(rings_view(rs@)),
{
    let mut k: usize = 0;
    while k < rs.len()
        invariant
            k <= rs.len(),
            forall|q: int| 0 <= q < k ==> ring_ok(#[trigger] rings_view(rs@)[q]),
        decreases rs.len() - k,
    {
        if !ring_in_range(&rs[k]) {
            assert(!ring_ok(rings_view(rs@)[k as int]));
            return false;
        }
        k = k + 1;
    }
    true
}

pub open spec fn translate_ring(r: Seq<Point>, dx: int, dy: int) -> Seq<Point> {
    r.map_values(|p: Point| Point { x: (p.x + dx) as i64, y: (p.y + dy) as i64 })
}

/// The two rings, moved by `(ax, ay)` and `(bx, by)`, have a non-empty
/// intersection by Clipper.
pub open spec fn overlaps(a: Seq<Point>, b: Seq<Point>, ax: int, ay: int, bx: int, by: int) -> bool {
    intersection_exteriors(seq![translate_ring(a, ax, ay)], translate_ring(b, bx, by)).len() > 0
}

fn moved_ring(r: &Vec<Point>, dx: i64, dy: i64) -> (out: Vec<Point>)
    requires
        ring_pos_ok(r@),
        pos_ok(dx as int) && pos_ok(dy as int),
    ensures
        out@ == translate_ring(r@, dx as int, dy as int),
        ring_ok(out@),
{
    let mut out: Vec<Point> = Vec::new();
    let mut i: usize = 0;
    while i < r.len()
        invariant
            ring_pos_ok(r@),
            pos_ok(dx as int) && pos_ok(dy as int),
            i <= r.len(),
            out@ == translate_ring(r@, dx as int, dy as int).subrange(0, i as int),
            ring_ok(out@),
        decreases r.len() - i,
    {
        let p = r[i];
        assert(pos_ok(p.x as int) && pos_ok(p.y as int));
        out.push(Point { x: p.x + dx, y: p.y + dy });
        i = i + 1;
        assert(out@ =~= translate_ring(r@, dx as int, dy as int).subrange(0, i as int));
    }
    assert(out@ =~= translate_ring(r@, dx as int, dy as int));
    out
}

/// Whether polygon `a` moved by `(ax, ay)` and polygon `b` moved by
/// `(bx, by)` intersect.
pub fn polygons_intersect(a: &Vec<Point>, b: &Vec<Point>, ax: i64, ay: i64, bx: i64, by: i64) -> (r: bool)
    requires
        ring_pos_ok(a@),
        ring_pos_ok(b@),
        pos_ok(ax as int) && pos_ok(ay as int) && pos_ok(bx as int) && pos_ok(by as int),
    ensures
        r == overlaps(a@, b@, ax as int, ay as int, bx as int, by as int),
{
    let ta = moved_ring(a, ax, ay);
    let tb = moved_ring(b, bx, by);
    let mut subject: Vec<Vec<Point>> = Vec::new();
    subject.push(ta);
    assert(rings_view(subject@) =~= seq![translate_ring(a@, ax as int, ay as int)]);
    let res = clip_intersection(&subject, &tb);
    res.len() > 0
}

} // verus!
