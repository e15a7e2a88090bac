use vstd::prelude::*;

verus! {

/// Largest magnitude of a coordinate of a part, a bin or a placement position.
pub const POS_LIMIT: i64 = 17592186044416;

/// Largest magnitude of a coordinate of a drawing before it is normalized.
pub const INPUT_LIMIT: i64 = 8796093022208;

/// Largest magnitude of a coordinate that the kernel's predicates accept.
pub const COORD_LIMIT: i64 = 70368744177664;

/// Largest number of vertices of one polygon.
pub const MAX_VERTICES: usize = 32768;

/// A vertex, in clipper units.
#[derive(Clone, Copy, Debug, PartialEq, Eq, Structural)]
pub struct Point {
    pub x: i64,
    pub y: i64,
}

/// A ring of vertices in authoring order.
#[derive(Clone, Debug)]
pub struct Polygon {
    pub id: usize,
    pub points: Vec<Point>,
    pub closed: bool,
}

/// Axis-aligned bounding rectangle.
#[derive(Clone, Copy, Debug, PartialEq, Eq, Structural)]
pub struct Bounds {
    pub x: i64,
    pub y: i64,
    pub width: i64,
    pub height: i64,
}

pub open spec fn coord_ok(v: int) -> bool {
    -COORD_LIMIT <= v <= COORD_LIMIT
}

pub open spec fn pos_ok(v: int) -> bool {
    -POS_LIMIT <= v <= POS_LIMIT
}

/// Every vertex is within the predicates' range.
pub open spec fn ring_ok(s: Seq<Point>) -> bool {
    &&& s.len() <= MAX_VERTICES
    &&& forall|i: int| 0 <= i < s.len() ==> coord_ok((#[trigger] s[i]).x as int) && coord_ok(s[i].y as int)
}

/// Every vertex is within the range of parts and positions.
pub open spec fn ring_pos_ok(s: Seq<Point>) -> bool {
    &&& s.len() <= MAX_VERTICES
    &&& forall|i: int| 0 <= i < s.len() ==> pos_ok((#[trigger] s[i]).x as int) && pos_ok(s[i].y as int)
}

pub open spec fn polys_pos_ok(polys: Seq<Polygon>) -> bool {
    forall|k: int| 0 <= k < polys.len() ==> ring_pos_ok(#[trigger] polys[k].points@)
}

pub open spec fn prev_index(n: int, i: int) -> int {
    if i == 0 {
        n - 1
    } else {
        i - 1
    }
}

/// The shoelace term of the edge that ends at vertex `i`.
pub open spec fn area_term(s: Seq<Point>, i: int) -> int {
    let j = prev_index(s.len() as int, i);
    (s[j].x + s[i].x) * (s[j].y - s[i].y)
}

pub open spec fn area_sum(s: Seq<Point>, k: nat) -> int
    decreases k,
{
    if k == 0 {
        0
    } else {
        area_sum(s, (k - 1) as nat) + area_term(s, k - 1)
    }
}

/// Twice the signed area; negative for a counter-clockwise ring, zero below three vertices.
pub open spec fn area2(s: Seq<Point>) -> int {
    if s.len() < 3 {
        0
    } else {
        area_sum(s, s.len())
    }
}

pub open spec fn sign(v: int) -> int {
    if v > 0 {
        1
    } else if v < 0 {
        -1
    } else {
        0
    }
}

proof fn lemma_mul_bound(a: int, b: int, m: int)
    requires
        0 <= m,
        -m <= a <= m,
        -m <= b <= m,
    ensures
        -(m * m) <= a * b <= m * m,
{
    assert(-(m * m) <= a * b <= m * m) by (nonlinear_arith)
        requires
            0 <= m,
            -m <= a <= m,
            -m <= b <= m,
    ;
}

/// Twice the signed area of the ring (the shoelace sum), so that it stays an integer.
pub fn polygon_area(points: &Vec<Point>) -> (r: i128)
    requires
        ring_ok(points@),
    ensures
        r == area2(points@),
        points@.len() < 3 ==> r == 0,
{
    let n = points.len();
    if n < 3 {
        return 0;
    }
    let mut area: i128 = 0;
    let mut i: usize = 0;
    while i < n
        invariant
            n == points.len(),
            3 <= n <= MAX_VERTICES,
            i <= n,
            ring_ok(points@),
            area == area_sum(points@, i as nat),
            -(i as int) * 19807040628566084398385987584 <= area <= (i as int)
                * 19807040628566084398385987584,
        decreases n - i,
    {
        let j: usize = if i == 0 {
            n - 1
        } else {
            i - 1
        };
        let pj = points[j];
        let pi = points[i];
        let sx: i128 = pj.x as i128 + pi.x as i128;
        let dy: i128 = pj.y as i128 - pi.y as i128;
        proof {
            lemma_mul_bound(sx as int, dy as int, 140737488355328);
        }
        let t: i128 = sx * dy;
        assert(t == area_term(points@, i as int));
        area = area + t;
        i = i + 1;
    }
    area
}

/// The box `b` is the smallest one holding every vertex of `s`.
pub open spec fn is_bounds_of(s: Seq<Point>, b: Bounds) -> bool {
    &&& forall|i: int|
        0 <= i < s.len() ==> b.x <= (#[trigger] s[i]).x <= b.x + b.width && b.y <= s[i].y <= b.y
            + b.height
    &&& exists|i: int| 0 <= i < s.len() && #[trigger] s[i].x == b.x
    &&& exists|i: int| 0 <= i < s.len() && #[trigger] s[i].y == b.y
    &&& exists|i: int| 0 <= i < s.len() && #[trigger] s[i].x == b.x + b.width
    &&& exists|i: int| 0 <= i < s.len() && #[trigger] s[i].y == b.y + b.height
}

/// Bounding box of the ring; `None` when it has fewer than three vertices.
pub fn get_polygon_bounds(points: &Vec<Point>) -> (r: Option<Bounds>)
    requires
        ring_ok(points@),
    ensures
        r.is_none() <==> points@.len() < 3,
        r matches Some(b) ==> is_bounds_of(points@, b),
{
    let n = points.len();
    if n < 3 {
        return None;
    }
    let mut min_x = points[0].x;
    let mut max_x = points[0].x;
    let mut min_y = points[0].y;
    let mut max_y = points[0].y;
    let ghost mut w0: int = 0;
    let ghost mut w1: int = 0;
    let ghost mut w2: int = 0;
    let ghost mut w3: int = 0;
    let mut i: usize = 1;
    assert(coord_ok(points@[0].x as int));
    while i < n
        invariant
            n == points.len(),
            1 <= i <= n,
            ring_ok(points@),
            forall|k: int|
                0 <= k < i ==> min_x <= #[trigger] points@[k].x <= max_x && min_y <= points@[k].y
                    <= max_y,
            0 <= w0 < i && points@[w0].x == min_x,
            0 <= w1 < i && points@[w1].y == min_y,
            0 <= w2 < i && points@[w2].x == max_x,
            0 <= w3 < i && points@[w3].y == max_y,
            coord_ok(min_x as int) && coord_ok(max_x as int),
            coord_ok(min_y as int) && coord_ok(max_y as int),
        decreases n - i,
    {
        let p = points[i];
        if p.x < min_x {
            min_x = p.x;
            proof {
                w0 = i as int;
            }
        }
        if p.x > max_x {
            max_x = p.x;
            proof {
                w2 = i as int;
            }
        }
        if p.y < min_y {
            min_y = p.y;
            proof {
                w1 = i as int;
            }
        }
        if p.y > max_y {
            max_y = p.y;
            proof {
                w3 = i as int;
            }
        }
        i = i + 1;
    }
    let b = Bounds { x: min_x, y: min_y, width: max_x - min_x, height: max_y - min_y };
    assert(points@[w0].x == b.x);
    assert(points@[w1].y == b.y);
    assert(points@[w2].x == b.x + b.width);
    assert(points@[w3].y == b.y + b.height);
    Some(b)
}


/// The edge that ends at vertex `i` crosses the rightward ray from `(x, y)`
/// (the even-odd test, with the division multiplied out).
pub open spec fn crosses(s: Seq<Point>, i: int, x: int, y: int) -> bool {
    let j = prev_index(s.len() as int, i);
    let xi = s[i].x as int;
    let yi = s[i].y as int;
    let xj = s[j].x as int;
    let yj = s[j].y as int;
    &&& (yi > y) != (yj > y)
    &&& if yj > yi {
        (x - xi) * (yj - yi) < (xj - xi) * (y - yi)
    } else {
        (x - xi) * (yj - yi) > (xj - xi) * (y - yi)
    }
}

pub open spec fn crossings(s: Seq<Point>, k: nat, x: int, y: int) -> nat
    decreases k,
{
    if k == 0 {
        0
    } else {
        crossings(s, (k - 1) as nat, x, y) + if crosses(s, k - 1, x, y) {
            1nat
        } else {
            0nat
        }
    }
}

/// Even-odd rule: the ray from `(x, y)` crosses the ring an odd number of times.
pub open spec fn inside(s: Seq<Point>, x: int, y: int) -> bool {
    crossings(s, s.len(), x, y) % 2 == 1
}

/// Even-odd point-in-polygon test; an empty ring holds no point.
pub fn point_in_polygon(poly: &Vec<Point>, x: i64, y: i64) -> (r: bool)
    requires
        ring_ok(poly@),
        coord_ok(x as int),
        coord_ok(y as int),
    ensures
        r == inside(poly@, x as int, y as int),
{
    let n = poly.len();
    if n == 0 {
        return false;
    }
    let mut inside_now = false;
    let mut i: usize = 0;
    while i < n
        invariant
            n == poly.len(),
            n > 0,
            i <= n,
            ring_ok(poly@),
            coord_ok(x as int),
            coord_ok(y as int),
            inside_now == (crossings(poly@, i as nat, x as int, y as int) % 2 == 1),
        decreases n - i,
    {
        let j: usize = if i == 0 {
            n - 1
        } else {
            i - 1
        };
        let pi = poly[i];
        let pj = poly[j];
        assert(coord_ok(pi.x as int) && coord_ok(pi.y as int));
        assert(coord_ok(poly@[j as int].x as int) && coord_ok(poly@[j as int].y as int));
        let straddles = (pi.y > y) != (pj.y > y);
        let mut hit = false;
        if straddles {
            let dx: i128 = x as i128 - pi.x as i128;
            let ey: i128 = pj.y as i128 - pi.y as i128;
            let ex: i128 = pj.x as i128 - pi.x as i128;
            let dy: i128 = y as i128 - pi.y as i128;
            proof {
                lemma_mul_bound(dx as int, ey as int, 140737488355328);
                lemma_mul_bound(ex as int, dy as int, 140737488355328);
            }
            let lhs: i128 = dx * ey;
            let rhs: i128 = ex * dy;
            hit = if pj.y > pi.y {
                lhs < rhs
            } else {
                lhs > rhs
            };
        }
        assert(hit == crosses(poly@, i as int, x as int, y as int));
        if hit {
            inside_now = !inside_now;
        }
        i = i + 1;
    }
    inside_now
}

pub proof fn lemma_pos_ring_ok(s: Seq<Point>)
    requires
        ring_pos_ok(s),
    ensures
        ring_ok(s),
{
    assert forall|i: int| 0 <= i < s.len() implies coord_ok(#[trigger] s[i].x as int) && coord_ok(
        s[i].y as int,
    ) by {
        assert(pos_ok(s[i].x as int));
    }
}

/// Every vertex of `b` moved by `(bx, by)` lies inside `a` moved by `(ax, ay)`.
pub open spec fn contains_all(a: Seq<Point>, b: Seq<Point>, ax: int, ay: int, bx: int, by: int) -> bool {
    forall|i: int|
        0 <= i < b.len() ==> inside(a, #[trigger] b[i].x + bx - ax, b[i].y + by - ay)
}

/// Every vertex of `b` translated by `(bx, by)` lies inside `a` translated by
/// `(ax, ay)` under the even-odd rule.
pub fn polygon_contains_polygon(
    a: &Vec<Point>,
    b: &Vec<Point>,
    ax: i64,
    ay: i64,
    bx: i64,
    by: i64,
) -> (r: bool)
    requires
        ring_ok(a@),
        ring_pos_ok(b@),
        pos_ok(ax as int) && pos_ok(ay as int) && pos_ok(bx as int) && pos_ok(by as int),
    ensures
        r == contains_all(a@, b@, ax as int, ay as int, bx as int, by as int),
{
    let mut i: usize = 0;
    while i < b.len()
        invariant
            i <= b.len(),
            ring_ok(a@),
            ring_pos_ok(b@),
            pos_ok(ax as int) && pos_ok(ay as int) && pos_ok(bx as int) && pos_ok(by as int),
            forall|k: int|
                0 <= k < i ==> inside(a@, #[trigger] b@[k].x + bx - ax, b@[k].y + by - ay),
        decreases b.len() - i,
    {
        let p = b[i];
        assert(pos_ok(p.x as int) && pos_ok(p.y as int));
        if !point_in_polygon(a, p.x + bx - ax, p.y + by - ay) {
            return false;
        }
        i = i + 1;
    }
    true
}

/// Vertex `i` of polygon `k`.
pub open spec fn vtx(polys: Seq<Polygon>, k: int, i: int) -> Point {
    polys[k].points@[i]
}

/// Polygon `k` has bounds (at least three vertices).
pub open spec fn counted(polys: Seq<Polygon>, k: int) -> bool {
    polys[k].points@.len() >= 3
}

pub open spec fn some_counted(polys: Seq<Polygon>) -> bool {
    exists|k: int| 0 <= k < polys.len() && counted(polys, k)
}

pub open spec fn is_vertex(polys: Seq<Polygon>, k: int, i: int) -> bool {
    0 <= k < polys.len() && 0 <= i < polys[k].points@.len()
}

/// The box `b` is the smallest one holding every vertex of the polygons that have bounds.
pub open spec fn is_bounds_of_all(polys: Seq<Polygon>, b: Bounds) -> bool {
    &&& forall|k: int, i: int|
        is_vertex(polys, k, i) && counted(polys, k) ==> b.x <= (#[trigger] vtx(polys, k, i)).x
            <= b.x + b.width && b.y <= vtx(polys, k, i).y <= b.y + b.height
    &&& exists|k: int, i: int|
        is_vertex(polys, k, i) && counted(polys, k) && #[trigger] vtx(polys, k, i).x == b.x
    &&& exists|k: int, i: int|
        is_vertex(polys, k, i) && counted(polys, k) && #[trigger] vtx(polys, k, i).y == b.y
    &&& exists|k: int, i: int|
        is_vertex(polys, k, i) && counted(polys, k) && #[trigger] vtx(polys, k, i).x == b.x
            + b.width
    &&& exists|k: int, i: int|
        is_vertex(polys, k, i) && counted(polys, k) && #[trigger] vtx(polys, k, i).y == b.y
            + b.height
}

/// Bounding box of all polygons that have one; `None` when none has.
pub fn get_polygons_bounds(polys: &Vec<Polygon>) -> (r: Option<Bounds>)
    requires
        polys_pos_ok(polys@),
    ensures
        r.is_none() <==> !some_counted(polys@),
        r matches Some(b) ==> is_bounds_of_all(polys@, b),
{
    let ghost s = polys@;
    let mut found = false;
    let mut min_x: i64 = 0;
    let mut min_y: i64 = 0;
    let mut max_x: i64 = 0;
    let mut max_y: i64 = 0;
    let ghost mut w: Seq<(int, int)> = seq![(0int, 0int), (0int, 0int), (0int, 0int), (0int, 0int)];
    let mut k: usize = 0;
    while k < polys.len()
        invariant
            s == polys@,
            k <= s.len(),
            polys_pos_ok(s),
            w.len() == 4,
            found <==> exists|q: int| 0 <= q < k && counted(s, q),
            found ==> {
                &&& forall|q: int, i: int|
                    0 <= q < k && is_vertex(s, q, i) && counted(s, q) ==> min_x <= #[trigger] vtx(
                        s,
                        q,
                        i,
                    ).x <= max_x && min_y <= vtx(s, q, i).y <= max_y
                &&& forall|t: int|
                    0 <= t < 4 ==> 0 <= (#[trigger] w[t]).0 < k && is_vertex(s, w[t].0, w[t].1)
                        && counted(s, w[t].0)
                &&& vtx(s, w[0].0, w[0].1).x == min_x
                &&& vtx(s, w[1].0, w[1].1).y == min_y
                &&& vtx(s, w[2].0, w[2].1).x == max_x
                &&& vtx(s, w[3].0, w[3].1).y == max_y
                &&& pos_ok(min_x as int) && pos_ok(max_x as int)
                &&& pos_ok(min_y as int) && pos_ok(max_y as int)
            },
        decreases s.len() - k,
    {
        assert(ring_pos_ok(s[k as int].points@));
        proof {
            lemma_pos_ring_ok(s[k as int].points@);
        }
        let ob = get_polygon_bounds(&polys[k].points);
        if let Some(b) = ob {
            let ghost pts = s[k as int].points@;
            assert(is_bounds_of(pts, b));
            let ghost i0 = choose|i: int| 0 <= i < pts.len() && #[trigger] pts[i].x == b.x;
            let ghost i1 = choose|i: int| 0 <= i < pts.len() && #[trigger] pts[i].y == b.y;
            let ghost i2 = choose|i: int|
                0 <= i < pts.len() && #[trigger] pts[i].x == b.x + b.width;
            let ghost i3 = choose|i: int|
                0 <= i < pts.len() && #[trigger] pts[i].y == b.y + b.height;
            assert(pts == polys@[k as int].points@);
            assert(ring_pos_ok(pts));
            assert(0 <= i0 < pts.len() && 0 <= i1 < pts.len());
            assert(pos_ok(pts[i0].x as int) && pos_ok(pts[i1].y as int));
            assert(pos_ok(pts[i2].x as int) && pos_ok(pts[i3].y as int));
            let bx2 = b.x + b.width;
            let by2 = b.y + b.height;
            let ghost ki = k as int;
            if !found {
                found = true;
                min_x = b.x;
                min_y = b.y;
                max_x = bx2;
                max_y = by2;
                proof {
                    w = seq![(ki, i0), (ki, i1), (ki, i2), (ki, i3)];
                }
            } else {
                if b.x < min_x {
                    min_x = b.x;
                    proof {
                        w = w.update(0, (ki, i0));
                    }
                }
                if b.y < min_y {
                    min_y = b.y;
                    proof {
                        w = w.update(1, (ki, i1));
                    }
                }
                if bx2 > max_x {
                    max_x = bx2;
                    proof {
                        w = w.update(2, (ki, i2));
                    }
                }
                if by2 > max_y {
                    max_y = by2;
                    proof {
                        w = w.update(3, (ki, i3));
                    }
                }
            }
            assert forall|q: int, i: int|
                0 <= q < k + 1 && is_vertex(s, q, i) && counted(s, q) implies min_x <= #[trigger] vtx(
                s,
                q,
                i,
            ).x <= max_x && min_y <= vtx(s, q, i).y <= max_y by {
                if q == k {
                    assert(pts[i] == vtx(s, q, i));
                }
            }
        }
        assert(ob.is_some() == counted(s, k as int));
        assert(found ==> exists|q: int| 0 <= q < k + 1 && counted(s, q));
        k = k + 1;
    }
    if !found {
        return None;
    }
    let b = Bounds { x: min_x, y: min_y, width: max_x - min_x, height: max_y - min_y };
    assert(0 <= w[0].0 < s.len());
    assert(0 <= w[1].0 < s.len());
    assert(0 <= w[2].0 < s.len());
    assert(0 <= w[3].0 < s.len());
    assert(vtx(s, w[0].0, w[0].1).x == b.x);
    assert(vtx(s, w[1].0, w[1].1).y == b.y);
    assert(vtx(s, w[2].0, w[2].1).x == b.x + b.width);
    assert(vtx(s, w[3].0, w[3].1).y == b.y + b.height);
    Some(b)
}


pub open spec fn input_ok(v: int) -> bool {
    -INPUT_LIMIT <= v <= INPUT_LIMIT
}

/// Every vertex of every polygon is within the range of drawings.
pub open spec fn polys_input_ok(polys: Seq<Polygon>) -> bool {
    &&& forall|k: int| 0 <= k < polys.len() ==> (#[trigger] polys[k]).points@.len() <= MAX_VERTICES
    &&& forall|k: int, i: int|
        is_vertex(polys, k, i) ==> input_ok((#[trigger] vtx(polys, k, i)).x as int) && input_ok(
            vtx(polys, k, i).y as int,
        )
}

pub open spec fn has_vertex(polys: Seq<Polygon>) -> bool {
    exists|k: int, i: int| is_vertex(polys, k, i)
}

/// `m` is the least x over all vertices.
pub open spec fn is_min_x(polys: Seq<Polygon>, m: int) -> bool {
    &&& forall|k: int, i: int| is_vertex(polys, k, i) ==> m <= (#[trigger] vtx(polys, k, i)).x
    &&& exists|k: int, i: int| is_vertex(polys, k, i) && (#[trigger] vtx(polys, k, i)).x == m
}

/// `m` is the least y over all vertices.
pub open spec fn is_min_y(polys: Seq<Polygon>, m: int) -> bool {
    &&& forall|k: int, i: int| is_vertex(polys, k, i) ==> m <= (#[trigger] vtx(polys, k, i)).y
    &&& exists|k: int, i: int| is_vertex(polys, k, i) && (#[trigger] vtx(polys, k, i)).y == m
}

pub open spec fn min_x_of(polys: Seq<Polygon>) -> int {
    choose|m: int| is_min_x(polys, m)
}

pub open spec fn min_y_of(polys: Seq<Polygon>) -> int {
    choose|m: int| is_min_y(polys, m)
}

/// `new` is `old` with every vertex moved by `(-dx, -dy)`.
pub open spec fn shifted(old: Seq<Polygon>, new: Seq<Polygon>, dx: int, dy: int) -> bool {
    &&& new.len() == old.len()
    &&& forall|k: int|
        0 <= k < old.len() ==> (#[trigger] new[k]).id == old[k].id && new[k].closed
            == old[k].closed && new[k].points@.len() == old[k].points@.len()
    &&& forall|k: int, i: int|
        is_vertex(old, k, i) ==> (#[trigger] vtx(new, k, i)).x == vtx(old, k, i).x - dx && vtx(
            new,
            k,
            i,
        ).y == vtx(old, k, i).y - dy
}

/// What normalizing does: the least corner of all vertices moves to the origin.
pub open spec fn normalized_from(old: Seq<Polygon>, new: Seq<Polygon>) -> bool {
    if has_vertex(old) {
        &&& is_min_x(old, min_x_of(old))
        &&& is_min_y(old, min_y_of(old))
        &&& shifted(old, new, min_x_of(old), min_y_of(old))
    } else {
        shifted(old, new, 0, 0)
    }
}

proof fn lemma_min_unique(polys: Seq<Polygon>, a: int, b: int, c: int, d: int)
    requires
        is_min_x(polys, a),
        is_min_y(polys, c),
    ensures
        min_x_of(polys) == a,
        min_y_of(polys) == c,
{
    let m = min_x_of(polys);
    assert(is_min_x(polys, m));
    let (k1, i1) = choose|k: int, i: int| is_vertex(polys, k, i) && (#[trigger] vtx(polys, k, i)).x == m;
    let (k2, i2) = choose|k: int, i: int| is_vertex(polys, k, i) && (#[trigger] vtx(polys, k, i)).x == a;
    assert(a <= vtx(polys, k1, i1).x);
    assert(m <= vtx(polys, k2, i2).x);
    let n = min_y_of(polys);
    assert(is_min_y(polys, n));
    let (k3, i3) = choose|k: int, i: int| is_vertex(polys, k, i) && (#[trigger] vtx(polys, k, i)).y == n;
    let (k4, i4) = choose|k: int, i: int| is_vertex(polys, k, i) && (#[trigger] vtx(polys, k, i)).y == c;
    assert(c <= vtx(polys, k3, i3).y);
    assert(n <= vtx(polys, k4, i4).y);
}

/// Translate the polygons so that the least x and the least y over all their
/// vertices become zero.
pub fn normalize_polygons(polys: &mut Vec<Polygon>)
    requires
        polys_input_ok(old(polys)@),
    ensures
        normalized_from(old(polys)@, final(polys)@),
        polys_pos_ok(final(polys)@),
        forall|k: int, i: int|
            is_vertex(final(polys)@, k, i) ==> 0 <= (#[trigger] vtx(final(polys)@, k, i)).x && 0
                <= vtx(final(polys)@, k, i).y,
{
    let ghost s = polys@;
    let mut found = false;
    let mut min_x: i64 = 0;
    let mut min_y: i64 = 0;
    let ghost mut wx: (int, int) = (0, 0);
    let ghost mut wy: (int, int) = (0, 0);
    let mut k: usize = 0;
    while k < polys.len()
        invariant
            s == polys@,
            k <= s.len(),
            polys_input_ok(s),
            found <==> exists|q: int, i: int| 0 <= q < k && is_vertex(s, q, i),
            found ==> {
                &&& forall|q: int, i: int|
                    0 <= q < k && is_vertex(s, q, i) ==> min_x <= (#[trigger] vtx(s, q, i)).x
                        && min_y <= vtx(s, q, i).y
                &&& 0 <= wx.0 < k && is_vertex(s, wx.0, wx.1) && vtx(s, wx.0, wx.1).x == min_x
                &&& 0 <= wy.0 < k && is_vertex(s, wy.0, wy.1) && vtx(s, wy.0, wy.1).y == min_y
                &&& input_ok(min_x as int) && input_ok(min_y as int)
            },
        decreases s.len() - k,
    {
        let pts = &polys[k].points;
        let ghost found_before = found;
        let mut i: usize = 0;
        while i < pts.len()
            invariant
                s == polys@,
                k < s.len(),
                pts@ == s[k as int].points@,
                i <= pts@.len(),
                polys_input_ok(s),
                found <==> (found_before || i > 0),
                found_before <==> exists|q: int, j: int| 0 <= q < k && is_vertex(s, q, j),
                found ==> {
                    &&& forall|q: int, j: int|
                        ((0 <= q < k && is_vertex(s, q, j)) || (q == k && 0 <= j < i)) ==> min_x
                            <= (#[trigger] vtx(s, q, j)).x && min_y <= vtx(s, q, j).y
                    &&& 0 <= wx.0 <= k && is_vertex(s, wx.0, wx.1) && vtx(s, wx.0, wx.1).x
                        == min_x
                    &&& 0 <= wy.0 <= k && is_vertex(s, wy.0, wy.1) && vtx(s, wy.0, wy.1).y
                        == min_y
                    &&& input_ok(min_x as int) && input_ok(min_y as int)
                },
            decreases pts@.len() - i,
        {
            let p = pts[i];
            assert(p == vtx(s, k as int, i as int));
            assert(is_vertex(s, k as int, i as int));
            if !found || p.x < min_x {
                min_x = p.x;
                proof {
                    wx = (k as int, i as int);
                }
            }
            if !found || p.y < min_y {
                min_y = p.y;
                proof {
                    wy = (k as int, i as int);
                }
            }
            found = true;
            i = i + 1;
        }
        assert forall|q: int, j: int| 0 <= q < k + 1 && is_vertex(s, q, j) implies (0 <= q < k
            && is_vertex(s, q, j)) || (q == k && 0 <= j < i) by {}
        proof {
            if found && !found_before {
                assert(is_vertex(s, k as int, 0));
            }
            if !found {
                assert forall|q: int, j: int| 0 <= q < k + 1 && is_vertex(s, q, j) implies false by {
                    if q < k {
                        assert(exists|q2: int, j2: int| 0 <= q2 < k && is_vertex(s, q2, j2));
                    }
                }
            }
        }
        k = k + 1;
    }
    proof {
        if found {
            lemma_min_unique(s, min_x as int, 0, min_y as int, 0);
        }
    }
    if !found || (min_x == 0 && min_y == 0) {
        assert(shifted(s, s, 0, 0));
        proof {
            if found {
                lemma_shift_pos_ok(s, s, 0, 0);
            } else {
                assert forall|q: int, j: int| is_vertex(s, q, j) implies false by {
                    assert(0 <= q < s.len());
                }
                lemma_empty_pos_ok(s);
            }
        }
        return;
    }
    let mut out: Vec<Polygon> = Vec::new();
    let mut k: usize = 0;
    while k < polys.len()
        invariant
            s == polys@,
            k <= s.len(),
            out@.len() == k,
            polys_input_ok(s),
            found,
            is_min_x(s, min_x as int),
            is_min_y(s, min_y as int),
            input_ok(min_x as int) && input_ok(min_y as int),
            forall|q: int|
                0 <= q < k ==> (#[trigger] out@[q]).id == s[q].id && out@[q].closed == s[q].closed
                    && out@[q].points@.len() == s[q].points@.len(),
            forall|q: int, j: int|
                0 <= q < k && is_vertex(s, q, j) ==> (#[trigger] vtx(out@, q, j)).x == vtx(s, q, j).x
                    - min_x && vtx(out@, q, j).y == vtx(s, q, j).y - min_y,
        decreases s.len() - k,
    {
        let src = &polys[k];
        let mut pts: Vec<Point> = Vec::new();
        let mut i: usize = 0;
        while i < src.points.len()
            invariant
                s == polys@,
                k < s.len(),
                src == s[k as int],
                i <= src.points@.len(),
                pts@.len() == i,
                polys_input_ok(s),
                is_min_x(s, min_x as int),
                is_min_y(s, min_y as int),
                input_ok(min_x as int) && input_ok(min_y as int),
                forall|j: int|
                    0 <= j < i ==> (#[trigger] pts@[j]).x == vtx(s, k as int, j).x - min_x
                        && pts@[j].y == vtx(s, k as int, j).y - min_y,
            decreases src.points@.len() - i,
        {
            let p = src.points[i];
            assert(is_vertex(s, k as int, i as int));
            assert(p == vtx(s, k as int, i as int));
            pts.push(Point { x: p.x - min_x, y: p.y - min_y });
            i = i + 1;
        }
        let np = Polygon { id: src.id, points: pts, closed: src.closed };
        let ghost before = out@;
        out.push(np);
        assert forall|q: int, j: int|
            0 <= q < k + 1 && is_vertex(s, q, j) implies (#[trigger] vtx(out@, q, j)).x == vtx(s, q, j).x
                - min_x && vtx(out@, q, j).y == vtx(s, q, j).y - min_y by {
            if q < k {
                assert(out@[q] == before[q]);
                assert(vtx(out@, q, j) == vtx(before, q, j));
            }
        }
        k = k + 1;
    }
    proof {
        lemma_shift_pos_ok(s, out@, min_x as int, min_y as int);
    }
    *polys = out;
}

proof fn lemma_shift_pos_ok(old: Seq<Polygon>, new: Seq<Polygon>, mx: int, my: int)
    requires
        polys_input_ok(old),
        shifted(old, new, mx, my),
        is_min_x(old, mx),
        is_min_y(old, my),
        input_ok(mx),
        input_ok(my),
    ensures
        polys_pos_ok(new),
        forall|k: int, i: int|
            is_vertex(new, k, i) ==> 0 <= (#[trigger] vtx(new, k, i)).x && 0 <= vtx(new, k, i).y,
{
    assert forall|k: int, i: int| is_vertex(new, k, i) implies 0 <= (#[trigger] vtx(new, k, i)).x
        && 0 <= vtx(new, k, i).y && pos_ok(vtx(new, k, i).x as int) && pos_ok(
        vtx(new, k, i).y as int,
    ) by {
        assert(new[k].points@.len() == old[k].points@.len());
        assert(is_vertex(old, k, i));
        assert(input_ok(vtx(old, k, i).x as int));
    }
    assert forall|k: int| 0 <= k < new.len() implies ring_pos_ok(#[trigger] new[k].points@) by {
        assert(new[k].points@.len() == old[k].points@.len());
        assert forall|i: int| 0 <= i < new[k].points@.len() implies pos_ok(
            (#[trigger] new[k].points@[i]).x as int,
        ) && pos_ok(new[k].points@[i].y as int) by {
            assert(is_vertex(new, k, i));
            assert(vtx(new, k, i) == new[k].points@[i]);
        }
    }
}

proof fn lemma_empty_pos_ok(s: Seq<Polygon>)
    requires
        polys_input_ok(s),
        forall|q: int, j: int| !is_vertex(s, q, j),
    ensures
        polys_pos_ok(s),
{
    assert forall|k: int| 0 <= k < s.len() implies ring_pos_ok(#[trigger] s[k].points@) by {
        assert(s[k].points@.len() <= MAX_VERTICES);
        assert forall|i: int| 0 <= i < s[k].points@.len() implies pos_ok(
            (#[trigger] s[k].points@[i]).x as int,
        ) && pos_ok(s[k].points@[i].y as int) by {
            assert(is_vertex(s, k, i));
        }
    }
}

/// The bounding box of the polygons that have one.
pub open spec fn box_of(polys: Seq<Polygon>) -> Bounds {
    choose|b: Bounds| is_bounds_of_all(polys, b)
}

pub proof fn lemma_box_of(polys: Seq<Polygon>, b: Bounds)
    requires
        is_bounds_of_all(polys, b),
    ensures
        box_of(polys) == b,
{
    let c = box_of(polys);
    assert(is_bounds_of_all(polys, c));
    let (k0, i0) = choose|k: int, i: int| is_vertex(polys, k, i) && counted(polys, k) && #[trigger] vtx(polys, k, i).x == b.x;
    let (k1, i1) = choose|k: int, i: int| is_vertex(polys, k, i) && counted(polys, k) && #[trigger] vtx(polys, k, i).x == c.x;
    let (k2, i2) = choose|k: int, i: int| is_vertex(polys, k, i) && counted(polys, k) && #[trigger] vtx(polys, k, i).y == b.y;
    let (k3, i3) = choose|k: int, i: int| is_vertex(polys, k, i) && counted(polys, k) && #[trigger] vtx(polys, k, i).y == c.y;
    let (k4, i4) = choose|k: int, i: int| is_vertex(polys, k, i) && counted(polys, k) && #[trigger] vtx(polys, k, i).x == b.x + b.width;
    let (k5, i5) = choose|k: int, i: int| is_vertex(polys, k, i) && counted(polys, k) && #[trigger] vtx(polys, k, i).x == c.x + c.width;
    let (k6, i6) = choose|k: int, i: int| is_vertex(polys, k, i) && counted(polys, k) && #[trigger] vtx(polys, k, i).y == b.y + b.height;
    let (k7, i7) = choose|k: int, i: int| is_vertex(polys, k, i) && counted(polys, k) && #[trigger] vtx(polys, k, i).y == c.y + c.height;
    assert(vtx(polys, k0, i0).x >= c.x && vtx(polys, k1, i1).x >= b.x);
    assert(vtx(polys, k2, i2).y >= c.y && vtx(polys, k3, i3).y >= b.y);
    assert(vtx(polys, k4, i4).x <= c.x + c.width && vtx(polys, k5, i5).x <= b.x + b.width);
    assert(vtx(polys, k6, i6).y <= c.y + c.height && vtx(polys, k7, i7).y <= b.y + b.height);
}

pub proof fn lemma_box_range(polys: Seq<Polygon>, b: Bounds)
    requires
        polys_pos_ok(polys),
        is_bounds_of_all(polys, b),
    ensures
        pos_ok(b.x as int) && pos_ok(b.y as int) && pos_ok(b.x + b.width) && pos_ok(b.y + b.height),
        0 <= b.width && 0 <= b.height,
{
    let (k0, i0) = choose|k: int, i: int| is_vertex(polys, k, i) && counted(polys, k) && #[trigger] vtx(polys, k, i).x == b.x;
    let (k2, i2) = choose|k: int, i: int| is_vertex(polys, k, i) && counted(polys, k) && #[trigger] vtx(polys, k, i).y == b.y;
    let (k4, i4) = choose|k: int, i: int| is_vertex(polys, k, i) && counted(polys, k) && #[trigger] vtx(polys, k, i).x == b.x + b.width;
    let (k6, i6) = choose|k: int, i: int| is_vertex(polys, k, i) && counted(polys, k) && #[trigger] vtx(polys, k, i).y == b.y + b.height;
    assert(ring_pos_ok(polys[k0].points@) && ring_pos_ok(polys[k2].points@));
    assert(ring_pos_ok(polys[k4].points@) && ring_pos_ok(polys[k6].points@));
    assert(pos_ok(polys[k0].points@[i0].x as int));
    assert(pos_ok(polys[k2].points@[i2].y as int));
    assert(pos_ok(polys[k4].points@[i4].x as int));
    assert(pos_ok(polys[k6].points@[i6].y as int));
    assert(vtx(polys, k0, i0).x <= vtx(polys, k4, i4).x);
}

} // verus!
