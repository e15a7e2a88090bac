//! No-fit polygons: the Minkowski difference, inner-fit polygons and a cache.
use crate::clip::{
    clip_difference, clip_intersection, clip_union, difference_exteriors,
    intersection_exteriors, rings_in_range, rings_ok, rings_view, translate_ring, union_exteriors,
};
use crate::geometry::{
    area2, coord_ok, get_polygon_bounds, is_bounds_of, polygon_area, pos_ok, ring_ok,
    ring_pos_ok, Bounds, Point, MAX_VERTICES,
};
use vstd::prelude::*;

verus! {

/// Union of the rings that have at least three vertices, one after the other;
/// `None` once Clipper hands back a ring out of range.
pub open spec fn union_fold(ps: Seq<Seq<Point>>, k: nat) -> Option<Seq<Seq<Point>>>
    decreases k,
{
    if k == 0 {
        Some(Seq::empty())
    } else {
        match union_fold(ps, (k - 1) as nat) {
            None => None,
            Some(acc) => {
                let g = ps[k - 1];
                if g.len() < 3 {
                    Some(acc)
                } else if acc.len() == 0 {
                    Some(seq![g])
                } else {
                    let u = union_exteriors(acc, g);
                    if rings_ok(u) {
                        Some(u)
                    } else {
                        None
                    }
                }
            },
        }
    }
}

pub open spec fn union_all(ps: Seq<Seq<Point>>) -> Option<Seq<Seq<Point>>> {
    union_fold(ps, ps.len())
}

fn copy_ring(r: &Vec<Point>) -> (out: Vec<Point>)
    ensures
        out@ == r@,
{
    let mut out: Vec<Point> = Vec::new();
    let mut i: usize = 0;
    while i < r.len()
        invariant
            i <= r.len(),
            out@ == r@.subrange(0, i as int),
        decreases r.len() - i,
    {
        out.push(r[i]);
        i = i + 1;
        assert(out@ =~= r@.subrange(0, i as int));
    }
    assert(out@ =~= r@);
    out
}

/// Union of the rings with at least three vertices, or `None` when Clipper
/// hands back a ring out of range.
fn union_checked(polys: &Vec<Vec<Point>>) -> (r: Option<Vec<Vec<Point>>>)
    requires
        rings_ok(rings_view(polys@)),
    ensures
        match r {
            Some(v) => union_all(rings_view(polys@)) == Some(rings_view(v@)) && rings_ok(
                rings_view(v@),
            ),
            None => union_all(rings_view(polys@)) is None,
        },
{
    let ghost ps = rings_view(polys@);
    let mut acc: Vec<Vec<Point>> = Vec::new();
    let mut k: usize = 0;
    assert(rings_view(acc@) =~= Seq::<Seq<Point>>::empty());
    while k < polys.len()
        invariant
            ps == rings_view(polys@),
            k <= polys.len(),
            rings_ok(ps),
            union_fold(ps, k as nat) == Some(rings_view(acc@)),
            rings_ok(rings_view(acc@)),
        decreases polys.len() - k,
    {
        assert(ps[k as int] == polys@[k as int]@);
        assert(ring_ok(ps[k as int]));
        if polys[k].len() >= 3 {
            if acc.len() == 0 {
                acc = Vec::new();
                acc.push(copy_ring(&polys[k]));
                assert(rings_view(acc@) =~= seq![ps[k as int]]);
            } else {
                acc = clip_union(&acc, &polys[k]);
                if !rings_in_range(&acc) {
                    assert(union_fold(ps, (k + 1) as nat) is None);
                    let mut j: usize = k + 1;
                    while j < polys.len()
                        invariant
                            k < j <= polys.len(),
                            ps.len() == polys.len(),
                            union_fold(ps, j as nat) is None,
                        decreases polys.len() - j,
                    {
                        j = j + 1;
                    }
                    return None;
                }
            }
        }
        k = k + 1;
    }
    assert(ps.len() == polys.len());
    Some(acc)
}

/// Union of all rings with at least three vertices; empty when Clipper fails.
pub fn union_polygons(polys: &Vec<Vec<Point>>) -> (r: Vec<Vec<Point>>)
    requires
        rings_ok(rings_view(polys@)),
    ensures
        rings_view(r@) == match union_all(rings_view(polys@)) {
            Some(u) => u,
            None => Seq::empty(),
        },
{
    match union_checked(polys) {
        Some(v) => v,
        None => {
            let empty: Vec<Vec<Point>> = Vec::new();
            assert(rings_view(empty@) =~= Seq::<Seq<Point>>::empty());
            empty
        },
    }
}

/// Subject minus clip, each first merged as `union_polygons` does; empty when
/// Clipper fails.
pub fn difference_polygons(subject: &Vec<Vec<Point>>, clip: &Vec<Vec<Point>>) -> (r: Vec<Vec<Point>>)
    requires
        rings_ok(rings_view(subject@)),
        rings_ok(rings_view(clip@)),
    ensures
        rings_view(r@) == match (union_all(rings_view(subject@)), union_all(rings_view(clip@))) {
            (Some(s), Some(c)) => difference_exteriors(s, c),
            _ => Seq::empty(),
        },
{
    let s = union_checked(subject);
    let c = union_checked(clip);
    match (s, c) {
        (Some(s), Some(c)) => clip_difference(&s, &c),
        _ => {
            let empty: Vec<Vec<Point>> = Vec::new();
            assert(rings_view(empty@) =~= Seq::<Seq<Point>>::empty());
            empty
        },
    }
}

pub open spec fn sub_pt(p: Point, q: Point) -> Point {
    Point { x: (p.x - q.x) as i64, y: (p.y - q.y) as i64 }
}

pub open spec fn next_index(i: int, n: int) -> int {
    if i + 1 == n {
        0
    } else {
        i + 1
    }
}

/// The quadrilateral `[S(i,j), S(i+1,j), S(i+1,j+1), S(i,j+1)]` with
/// `S(i,j) = a[j] - b[i]`, indices taken cyclically.
pub open spec fn quad_raw(a: Seq<Point>, b: Seq<Point>, i: int, j: int) -> Seq<Point> {
    let i1 = next_index(i, b.len() as int);
    let j1 = next_index(j, a.len() as int);
    seq![sub_pt(a[j], b[i]), sub_pt(a[j], b[i1]), sub_pt(a[j1], b[i1]), sub_pt(a[j1], b[i])]
}

/// The quadrilateral, reversed when its signed area is negative.
pub open spec fn quad(a: Seq<Point>, b: Seq<Point>, i: int, j: int) -> Seq<Point> {
    let q = quad_raw(a, b, i, j);
    if area2(q) < 0 {
        q.reverse()
    } else {
        q
    }
}

/// All quadrilaterals, row by row over the vertices of `b`.
pub open spec fn quads(a: Seq<Point>, b: Seq<Point>) -> Seq<Seq<Point>> {
    Seq::new(a.len() * b.len(), |k: int| quad(a, b, k / a.len() as int, k % a.len() as int))
}

/// `m` is the first ring of least signed area.
pub open spec fn is_min_ring(rs: Seq<Seq<Point>>, m: int) -> bool {
    &&& 0 <= m < rs.len()
    &&& forall|u: int| 0 <= u < rs.len() ==> area2(rs[m]) <= area2(#[trigger] rs[u])
    &&& forall|u: int| 0 <= u < m ==> area2(#[trigger] rs[u]) > area2(rs[m])
}

pub open spec fn min_ring(rs: Seq<Seq<Point>>) -> int {
    choose|m: int| is_min_ring(rs, m)
}

/// The no-fit polygon of `b` orbiting `a`: the union of the quadrilaterals,
/// its ring of least signed area moved by `b[0]`; empty when an input is
/// empty or Clipper fails.
pub open spec fn minkowski_spec(a: Seq<Point>, b: Seq<Point>) -> Seq<Point> {
    if a.len() == 0 || b.len() == 0 {
        Seq::empty()
    } else {
        match union_all(quads(a, b)) {
            None => Seq::empty(),
            Some(rs) => if rs.len() == 0 {
                Seq::empty()
            } else {
                let t = translate_ring(rs[min_ring(rs)], b[0].x as int, b[0].y as int);
                if ring_ok(t) {
                    t
                } else {
                    Seq::empty()
                }
            },
        }
    }
}

proof fn lemma_min_ring_unique(rs: Seq<Seq<Point>>, m: int)
    requires
        is_min_ring(rs, m),
    ensures
        min_ring(rs) == m,
{
    let c = min_ring(rs);
    assert(is_min_ring(rs, c));
    if c < m {
        assert(area2(rs[c]) > area2(rs[m]));
    } else if m < c {
        assert(area2(rs[m]) > area2(rs[c]));
    }
}

fn make_quad(a: &Vec<Point>, b: &Vec<Point>, i: usize, j: usize) -> (q: Vec<Point>)
    requires
        ring_pos_ok(a@),
        ring_pos_ok(b@),
        i < b.len(),
        j < a.len(),
    ensures
        q@ == quad(a@, b@, i as int, j as int),
        ring_ok(q@),
{
    let i1: usize = if i + 1 == b.len() {
        0
    } else {
        i + 1
    };
    let j1: usize = if j + 1 == a.len() {
        0
    } else {
        j + 1
    };
    let (aj, aj1, bi, bi1) = (a[j], a[j1], b[i], b[i1]);
    assert(pos_ok(aj.x as int) && pos_ok(aj.y as int) && pos_ok(aj1.x as int) && pos_ok(aj1.y as int));
    assert(pos_ok(bi.x as int) && pos_ok(bi.y as int) && pos_ok(bi1.x as int) && pos_ok(bi1.y as int));
    let p0 = Point { x: aj.x - bi.x, y: aj.y - bi.y };
    let p1 = Point { x: aj.x - bi1.x, y: aj.y - bi1.y };
    let p2 = Point { x: aj1.x - bi1.x, y: aj1.y - bi1.y };
    let p3 = Point { x: aj1.x - bi.x, y: aj1.y - bi.y };
    let q = vec![p0, p1, p2, p3];
    assert(q@ =~= quad_raw(a@, b@, i as int, j as int));
    assert(ring_ok(q@));
    if polygon_area(&q) < 0 {
        let r = vec![p3, p2, p1, p0];
        assert(r@ =~= q@.reverse());
        assert(ring_ok(r@));
        r
    } else {
        q
    }
}

fn build_quads(a: &Vec<Point>, b: &Vec<Point>) -> (qs: Vec<Vec<Point>>)
    requires
        ring_pos_ok(a@),
        ring_pos_ok(b@),
        a.len() > 0,
        b.len() > 0,
    ensures
        rings_view(qs@) == quads(a@, b@),
        rings_ok(rings_view(qs@)),
{
    let la = a.len();
    let lb = b.len();
    assert(la * lb <= MAX_VERTICES * MAX_VERTICES) by (nonlinear_arith)
        requires
            la <= MAX_VERTICES,
            lb <= MAX_VERTICES,
    ;
    let total = la * lb;
    let ghost all = quads(a@, b@);
    let mut qs: Vec<Vec<Point>> = Vec::new();
    let mut i: usize = 0;
    let mut j: usize = 0;
    let mut k: usize = 0;
    while k < total
        invariant
            la == a.len(),
            lb == b.len(),
            la > 0,
            lb > 0,
            total == la * lb,
            all == quads(a@, b@),
            ring_pos_ok(a@),
            ring_pos_ok(b@),
            k <= total,
            j < la,
            k == i * la + j,
            qs@.len() == k,
            forall|t: int| 0 <= t < k ==> (#[trigger] qs@[t])@ == all[t] && ring_ok(qs@[t]@),
        decreases total - k,
    {
        assert(i < lb) by (nonlinear_arith)
            requires
                k == i * la + j,
                k < la * lb,
                0 <= j,
                la > 0,
        ;
        proof {
            vstd::arithmetic::div_mod::lemma_fundamental_div_mod_converse(
                k as int,
                la as int,
                i as int,
                j as int,
            );
        }
        let q = make_quad(a, b, i, j);
        qs.push(q);
        k = k + 1;
        if j + 1 == la {
            j = 0;
            i = i + 1;
            assert(k == i * la + j) by (nonlinear_arith)
                requires
                    k == (i - 1) * la + la,
                    j == 0,
            ;
        } else {
            j = j + 1;
        }
    }
    assert(rings_view(qs@) =~= all);
    qs
}

/// Index of the first ring of least signed area.
fn min_ring_index(rs: &Vec<Vec<Point>>) -> (m: usize)
    requires
        rs.len() > 0,
        rings_ok(rings_view(rs@)),
    ensures
        is_min_ring(rings_view(rs@), m as int),
{
    let ghost v = rings_view(rs@);
    assert(ring_ok(v[0]));
    let mut best: usize = 0;
    let mut best_area = polygon_area(&rs[0]);
    let mut t: usize = 1;
    while t < rs.len()
        invariant
            v == rings_view(rs@),
            rings_ok(v),
            1 <= t <= rs.len(),
            best < t,
            best_area == area2(v[best as int]),
            forall|u: int| 0 <= u < t ==> area2(v[best as int]) <= area2(#[trigger] v[u]),
            forall|u: int| 0 <= u < best ==> area2(#[trigger] v[u]) > area2(v[best as int]),
        decreases rs.len() - t,
    {
        assert(ring_ok(v[t as int]));
        let ar = polygon_area(&rs[t]);
        if ar < best_area {
            best = t;
            best_area = ar;
        }
        t = t + 1;
    }
    best
}

/// The no-fit polygon of `b` orbiting `a`, by the Minkowski difference
/// `a - b`: every quadrilateral spanned by an edge of `a` and an edge of `b`,
/// unioned; the ring of least signed area of the union (the outer boundary)
/// is moved by `b[0]`. Empty when an input is empty or the union fails.
pub fn minkowski_difference_clip(a: &Vec<Point>, b: &Vec<Point>) -> (r: Vec<Point>)
    requires
        ring_pos_ok(a@),
        ring_pos_ok(b@),
    ensures
        r@ == minkowski_spec(a@, b@),
{
    if a.len() == 0 || b.len() == 0 {
        return Vec::new();
    }
    let qs = build_quads(a, b);
    let rs = match union_checked(&qs) {
        Some(v) => v,
        None => return Vec::new(),
    };
    if rs.len() == 0 {
        return Vec::new();
    }
    let m = min_ring_index(&rs);
    proof {
        lemma_min_ring_unique(rings_view(rs@), m as int);
    }
    let ring = &rs[m];
    let b0 = b[0];
    assert(pos_ok(b0.x as int) && pos_ok(b0.y as int));
    assert(ring_ok(rings_view(rs@)[m as int]));
    let mut out: Vec<Point> = Vec::new();
    let mut i: usize = 0;
    while i < ring.len()
        invariant
            ring_ok(ring@),
            pos_ok(b0.x as int) && pos_ok(b0.y as int),
            i <= ring.len(),
            out@ == translate_ring(ring@, b0.x as int, b0.y as int).subrange(0, i as int),
        decreases ring.len() - i,
    {
        let p = ring[i];
        assert(coord_ok(p.x as int) && coord_ok(p.y as int));
        out.push(Point { x: p.x + b0.x, y: p.y + b0.y });
        i = i + 1;
        assert(out@ =~= translate_ring(ring@, b0.x as int, b0.y as int).subrange(0, i as int));
    }
    assert(out@ =~= translate_ring(ring@, b0.x as int, b0.y as int));
    if crate::clip::ring_in_range(&out) {
        out
    } else {
        Vec::new()
    }
}

/// The outer no-fit polygon of `b` around `a`.
pub fn no_fit_polygon(a: &Vec<Point>, b: &Vec<Point>) -> (r: Vec<Point>)
    requires
        ring_pos_ok(a@),
        ring_pos_ok(b@),
    ensures
        r@ == minkowski_spec(a@, b@),
{
    minkowski_difference_clip(a, b)
}

/// The inner-fit rectangle for `part` (box `bb`, first vertex `p0`) in a
/// rectangular container with box `ab`.
pub open spec fn inner_rect(ab: Bounds, bb: Bounds, p0: Point) -> Seq<Point> {
    let dx1 = ab.x - bb.x + p0.x;
    let dy1 = ab.y - bb.y + p0.y;
    let dx2 = ab.x + ab.width - (bb.x + bb.width) + p0.x;
    let dy2 = ab.y + ab.height - (bb.y + bb.height) + p0.y;
    seq![
        Point { x: dx1 as i64, y: dy1 as i64 },
        Point { x: dx2 as i64, y: dy1 as i64 },
        Point { x: dx2 as i64, y: dy2 as i64 },
        Point { x: dx1 as i64, y: dy2 as i64 },
    ]
}

/// The bounding box of a ring with at least three vertices.
pub open spec fn bounds_of(s: Seq<Point>) -> Bounds {
    choose|b: Bounds| is_bounds_of(s, b)
}

pub proof fn lemma_bounds_unique(s: Seq<Point>, b: Bounds)
    requires
        is_bounds_of(s, b),
    ensures
        bounds_of(s) == b,
{
    let c = bounds_of(s);
    assert(is_bounds_of(s, c));
    let i0 = choose|i: int| 0 <= i < s.len() && #[trigger] s[i].x == b.x;
    let i1 = choose|i: int| 0 <= i < s.len() && #[trigger] s[i].x == c.x;
    let i2 = choose|i: int| 0 <= i < s.len() && #[trigger] s[i].y == b.y;
    let i3 = choose|i: int| 0 <= i < s.len() && #[trigger] s[i].y == c.y;
    let i4 = choose|i: int| 0 <= i < s.len() && #[trigger] s[i].x == b.x + b.width;
    let i5 = choose|i: int| 0 <= i < s.len() && #[trigger] s[i].x == c.x + c.width;
    let i6 = choose|i: int| 0 <= i < s.len() && #[trigger] s[i].y == b.y + b.height;
    let i7 = choose|i: int| 0 <= i < s.len() && #[trigger] s[i].y == c.y + c.height;
    assert(s[i0].x >= c.x && s[i1].x >= b.x);
    assert(s[i2].y >= c.y && s[i3].y >= b.y);
    assert(s[i4].x <= c.x + c.width && s[i5].x <= b.x + b.width);
    assert(s[i6].y <= c.y + c.height && s[i7].y <= b.y + b.height);
}

/// The inner-fit polygon of `part` in a container taken as its bounding
/// rectangle; `None` when either has no bounds or the part's box is wider or
/// taller than the container's.
pub fn no_fit_polygon_rectangle(container: &Vec<Point>, part: &Vec<Point>) -> (r: Option<Vec<Vec<Point>>>)
    requires
        ring_pos_ok(container@),
        ring_pos_ok(part@),
    ensures
        r is None <==> (container@.len() < 3 || part@.len() < 3 || bounds_of(part@).width > bounds_of(
            container@,
        ).width || bounds_of(part@).height > bounds_of(container@).height),
        r matches Some(v) ==> v@.len() == 1 && v@[0]@ == inner_rect(
            bounds_of(container@),
            bounds_of(part@),
            part@[0],
        ),
{
    proof {
        crate::geometry::lemma_pos_ring_ok(container@);
        crate::geometry::lemma_pos_ring_ok(part@);
    }
    let ab = match get_polygon_bounds(container) {
        Some(b) => b,
        None => return None,
    };
    let bb = match get_polygon_bounds(part) {
        Some(b) => b,
        None => return None,
    };
    proof {
        lemma_bounds_unique(container@, ab);
        lemma_bounds_unique(part@, bb);
        lemma_bounds_pos(container@, ab);
        lemma_bounds_pos(part@, bb);
    }
    if bb.width > ab.width || bb.height > ab.height {
        return None;
    }
    let p0 = part[0];
    assert(pos_ok(p0.x as int) && pos_ok(p0.y as int));
    let dx1 = ab.x - bb.x + p0.x;
    let dy1 = ab.y - bb.y + p0.y;
    let dx2 = ab.x + ab.width - (bb.x + bb.width) + p0.x;
    let dy2 = ab.y + ab.height - (bb.y + bb.height) + p0.y;
    let ring = vec![
        Point { x: dx1, y: dy1 },
        Point { x: dx2, y: dy1 },
        Point { x: dx2, y: dy2 },
        Point { x: dx1, y: dy2 },
    ];
    assert(ring@ =~= inner_rect(ab, bb, p0));
    let mut out: Vec<Vec<Point>> = Vec::new();
    out.push(ring);
    Some(out)
}

pub proof fn lemma_bounds_pos(s: Seq<Point>, b: Bounds)
    requires
        ring_pos_ok(s),
        is_bounds_of(s, b),
    ensures
        pos_ok(b.x as int) && pos_ok(b.y as int) && pos_ok(b.x + b.width) && pos_ok(b.y + b.height),
        0 <= b.width && 0 <= b.height,
{
    let i0 = choose|i: int| 0 <= i < s.len() && #[trigger] s[i].x == b.x;
    let i2 = choose|i: int| 0 <= i < s.len() && #[trigger] s[i].y == b.y;
    let i4 = choose|i: int| 0 <= i < s.len() && #[trigger] s[i].x == b.x + b.width;
    let i6 = choose|i: int| 0 <= i < s.len() && #[trigger] s[i].y == b.y + b.height;
    assert(pos_ok(s[i0].x as int) && pos_ok(s[i2].y as int) && pos_ok(s[i4].x as int) && pos_ok(s[i6].y as int));
}

/// An inner-fit rectangle is the axis-aligned rectangle whose sides are the
/// container's width and height less the part's, so its area is
/// `(W - w) * (H - h)` (its signed area is negative: counter-clockwise).
pub proof fn lemma_inner_fit_rectangle_area(ab: Bounds, bb: Bounds, p0: Point)
    requires
        0 <= bb.width <= ab.width,
        0 <= bb.height <= ab.height,
        pos_ok(ab.x as int) && pos_ok(ab.y as int) && pos_ok(ab.x + ab.width) && pos_ok(ab.y + ab.height),
        pos_ok(bb.x as int) && pos_ok(bb.y as int) && pos_ok(bb.x + bb.width) && pos_ok(bb.y + bb.height),
        pos_ok(p0.x as int) && pos_ok(p0.y as int),
    ensures
        ({
            let r = inner_rect(ab, bb, p0);
            &&& r.len() == 4
            &&& r[1].x - r[0].x == ab.width - bb.width
            &&& r[3].y - r[0].y == ab.height - bb.height
            &&& r[0].x == r[3].x && r[1].x == r[2].x && r[0].y == r[1].y && r[2].y == r[3].y
            &&& area2(r) == -2 * (ab.width - bb.width) * (ab.height - bb.height)
        }),
{
    let r = inner_rect(ab, bb, p0);
    let a = r[0].x as int;
    let b = r[1].x as int;
    let c = r[0].y as int;
    let d = r[2].y as int;
    reveal_with_fuel(crate::geometry::area_sum, 5);
    assert(area2(r) == (a + a) * (d - c) + (a + b) * (c - c) + (b + b) * (c - d) + (b + a) * (d - d));
    assert((a + a) * (d - c) + (a + b) * (c - c) + (b + b) * (c - d) + (b + a) * (d - d) == -2 * (b - a) * (d - c)) by (nonlinear_arith);
}

/// `c` moved by `-v`.
pub open spec fn shift_by(c: Seq<Point>, v: Point) -> Seq<Point> {
    translate_ring(c, -(v.x as int), -(v.y as int))
}

/// Intersection of the container shifted by minus each of the first `k`
/// vertices of the part; `None` once Clipper hands back a ring out of range.
pub open spec fn erosion_fold(c: Seq<Point>, p: Seq<Point>, k: nat) -> Option<Seq<Seq<Point>>>
    decreases k,
{
    if k <= 1 {
        Some(seq![shift_by(c, p[0])])
    } else {
        match erosion_fold(c, p, (k - 1) as nat) {
            None => None,
            Some(acc) => {
                let u = intersection_exteriors(acc, shift_by(c, p[k - 1]));
                if rings_ok(u) {
                    Some(u)
                } else {
                    None
                }
            },
        }
    }
}

pub open spec fn erosion_spec(c: Seq<Point>, p: Seq<Point>) -> Seq<Seq<Point>> {
    if c.len() == 0 || p.len() == 0 {
        Seq::empty()
    } else {
        match erosion_fold(c, p, p.len()) {
            Some(rs) => rs,
            None => Seq::empty(),
        }
    }
}

fn shifted_ring(c: &Vec<Point>, v: Point) -> (r: Vec<Point>)
    requires
        ring_pos_ok(c@),
        pos_ok(v.x as int) && pos_ok(v.y as int),
    ensures
        r@ == shift_by(c@, v),
        ring_ok(r@),
{
    let mut out: Vec<Point> = Vec::new();
    let mut i: usize = 0;
    while i < c.len()
        invariant
            ring_pos_ok(c@),
            pos_ok(v.x as int) && pos_ok(v.y as int),
            i <= c.len(),
            out@ == shift_by(c@, v).subrange(0, i as int),
            ring_ok(out@),
        decreases c.len() - i,
    {
        let p = c[i];
        assert(pos_ok(p.x as int) && pos_ok(p.y as int));
        out.push(Point { x: p.x - v.x, y: p.y - v.y });
        i = i + 1;
        assert(out@ =~= shift_by(c@, v).subrange(0, i as int));
    }
    assert(out@ =~= shift_by(c@, v));
    out
}

/// The positions of the part's reference point at which every vertex of the
/// part lies in the container: the intersection, over the part's vertices
/// `v`, of the container moved by `-v`. Empty when an input is empty or
/// Clipper fails.
pub fn minkowski_diff_erosion(container: &Vec<Point>, part: &Vec<Point>) -> (r: Vec<Vec<Point>>)
    requires
        ring_pos_ok(container@),
        ring_pos_ok(part@),
    ensures
        rings_view(r@) == erosion_spec(container@, part@),
{
    if container.len() == 0 || part.len() == 0 {
        let empty: Vec<Vec<Point>> = Vec::new();
        assert(rings_view(empty@) =~= Seq::<Seq<Point>>::empty());
        return empty;
    }
    assert(pos_ok(part@[0].x as int) && pos_ok(part@[0].y as int));
    let mut acc: Vec<Vec<Point>> = Vec::new();
    acc.push(shifted_ring(container, part[0]));
    assert(rings_view(acc@) =~= seq![shift_by(container@, part@[0])]);
    let mut k: usize = 1;
    while k < part.len()
        invariant
            1 <= k <= part.len(),
            ring_pos_ok(container@),
            ring_pos_ok(part@),
            erosion_fold(container@, part@, k as nat) == Some(rings_view(acc@)),
            rings_ok(rings_view(acc@)),
        decreases part.len() - k,
    {
        let v = part[k];
        assert(pos_ok(v.x as int) && pos_ok(v.y as int));
        let shifted = shifted_ring(container, v);
        acc = clip_intersection(&acc, &shifted);
        if !rings_in_range(&acc) {
            assert(erosion_fold(container@, part@, (k + 1) as nat) is None);
            let mut j: usize = k + 1;
            while j < part.len()
                invariant
                    k < j <= part.len(),
                    erosion_fold(container@, part@, j as nat) is None,
                decreases part.len() - j,
            {
                j = j + 1;
            }
            let empty: Vec<Vec<Point>> = Vec::new();
            assert(rings_view(empty@) =~= Seq::<Seq<Point>>::empty());
            return empty;
        }
        k = k + 1;
    }
    acc
}

/// Cache key: the two part ids and the two rotation steps.
pub type NfpKey = (usize, usize, usize, usize);

/// No-fit polygons already computed in one layout, by key.
///
/// The entries sit in a `Vec`, keys unique, searched in order: vstd models
/// `HashMap` lookups only for keys whose hashing it specifies (integers and
/// `bool`), not for this tuple key, and granting it for a tuple would take an
/// assumption.
pub struct NfpCache {
    entries: Vec<(NfpKey, Vec<Point>)>,
}

impl View for NfpCache {
    type V = Seq<(NfpKey, Seq<Point>)>;

    closed spec fn view(&self) -> Self::V {
        self.entries@.map_values(|e: (NfpKey, Vec<Point>)| (e.0, e.1@))
    }
}

/// No two entries share a key.
pub open spec fn keys_unique(es: Seq<(NfpKey, Seq<Point>)>) -> bool {
    forall|s: int, t: int| 0 <= s < t < es.len() ==> (#[trigger] es[s]).0 != (#[trigger] es[t]).0
}

pub open spec fn has_key(es: Seq<(NfpKey, Seq<Point>)>, key: NfpKey) -> bool {
    exists|t: int| 0 <= t < es.len() && (#[trigger] es[t]).0 == key
}

impl NfpCache {
    pub open spec fn wf(&self) -> bool {
        keys_unique(self@)
    }

    /// An empty cache.
    pub fn new() -> (c: NfpCache)
        ensures
            c@ == Seq::<(NfpKey, Seq<Point>)>::empty(),
            c.wf(),
    {
        let c = NfpCache { entries: Vec::new() };
        assert(c@ =~= Seq::<(NfpKey, Seq<Point>)>::empty());
        c
    }

    /// The no-fit polygon stored under `(a_id, b_id, a_turn, b_turn)`; on a
    /// miss, `minkowski_difference_clip(a, b)`, which is then stored.
    pub fn get_or_generate(
        &mut self,
        a_id: usize,
        b_id: usize,
        a_turn: usize,
        b_turn: usize,
        a: &Vec<Point>,
        b: &Vec<Point>,
    ) -> (r: Vec<Point>)
        requires
            old(self).wf(),
            ring_pos_ok(a@),
            ring_pos_ok(b@),
        ensures
            final(self).wf(),
            has_key(old(self)@, (a_id, b_id, a_turn, b_turn)) ==> final(self)@ == old(self)@ && exists|t: int|
                0 <= t < old(self)@.len() && (#[trigger] old(self)@[t]).0 == (a_id, b_id, a_turn, b_turn)
                    && old(self)@[t].1 == r@,
            !has_key(old(self)@, (a_id, b_id, a_turn, b_turn)) ==> r@ == minkowski_spec(a@, b@)
                && final(self)@ == old(self)@.push(((a_id, b_id, a_turn, b_turn), r@)),
    {
        let key: NfpKey = (a_id, b_id, a_turn, b_turn);
        let ghost es = self@;
        let mut t: usize = 0;
        while t < self.entries.len()
            invariant
                es == self@,
                key == (a_id, b_id, a_turn, b_turn),
                keys_unique(es),
                t <= self.entries.len(),
                es.len() == self.entries@.len(),
                forall|u: int| 0 <= u < t ==> (#[trigger] es[u]).0 != key,
            decreases self.entries.len() - t,
        {
            assert(es[t as int] == (self.entries@[t as int].0, self.entries@[t as int].1@));
            let (k0, k1, k2, k3) = self.entries[t].0;
            assert(es[t as int].0 == (k0, k1, k2, k3));
            if k0 == a_id && k1 == b_id && k2 == a_turn && k3 == b_turn {
                let r = copy_ring(&self.entries[t].1);
                assert(es[t as int].1 == r@);
                return r;
            }
            assert(es[t as int].0 != key);
            t = t + 1;
        }
        let nfp = minkowski_difference_clip(a, b);
        let stored = copy_ring(&nfp);
        self.entries.push((key, stored));
        assert(self@ =~= es.push((key, nfp@)));
        nfp
    }
}

} // verus!
