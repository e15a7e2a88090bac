//! Clean-up of outlines as drawn: joining open chains whose ends meet, and
//! removing duplicate segments.
use crate::geometry::{input_ok, Point, Polygon, INPUT_LIMIT};
use vstd::prelude::*;

verus! {

/// Every vertex of every chain is within the range of drawings.
pub open spec fn chains_ok(cs: Seq<Vec<Point>>) -> bool {
    forall|i: int, j: int|
        0 <= i < cs.len() && 0 <= j < cs[i]@.len() ==> input_ok((#[trigger] cs[i]@[j]).x as int)
            && input_ok(cs[i]@[j].y as int)
}

/// `p` is a vertex of one of the chains.
pub open spec fn in_chains(cs: Seq<Vec<Point>>, p: Point) -> bool {
    exists|i: int, j: int| 0 <= i < cs.len() && 0 <= j < cs[i]@.len() && #[trigger] cs[i]@[j] == p
}

/// The two points are closer than `tol` in both coordinates.
pub open spec fn near(a: Point, b: Point, tol: int) -> bool {
    -tol < a.x - b.x < tol && -tol < a.y - b.y < tol
}

/// Whether the two points are closer than `tol` in both coordinates.
pub fn points_equal(a: Point, b: Point, tol: i64) -> (r: bool)
    requires
        0 <= tol,
        input_ok(a.x as int) && input_ok(a.y as int) && input_ok(b.x as int) && input_ok(b.y as int),
    ensures
        r == near(a, b, tol as int),
{
    let dx = a.x - b.x;
    let dy = a.y - b.y;
    -tol < dx && dx < tol && -tol < dy && dy < tol
}

/// Chain `c` joined with chain `d` at the ends that meet (`mode`, as in
/// `connect_open_polys`): `d` without its first vertex after `c` (1), `d`
/// reversed without its last after `c` (2), `d` reversed without its last
/// before `c` (3), `d` without its first, reversed, before `c` (4).
fn join(c: &Vec<Point>, d: &Vec<Point>, mode: u8) -> (r: Vec<Point>)
    ensures
        forall|j: int| 0 <= j < r@.len() ==> c@.contains(#[trigger] r@[j]) || d@.contains(r@[j]),
        c@.len() > 0 ==> r@.len() > 0,
{
    let mut r: Vec<Point> = Vec::new();
    if mode >= 3 {
        append_skipping_one(&mut r, d, if mode == 3 { 1 } else { 2 });
        let mut i: usize = 0;
        while i < c.len()
            invariant
                i <= c@.len(),
                r@.len() >= i,
                i > 0 ==> r@.len() > 0,
                forall|j: int| 0 <= j < r@.len() ==> c@.contains(#[trigger] r@[j]) || d@.contains(r@[j]),
            decreases c.len() - i,
        {
            r.push(c[i]);
            assert(c@.contains(c@[i as int]));
            i = i + 1;
        }
    } else {
        let mut i: usize = 0;
        while i < c.len()
            invariant
                i <= c@.len(),
                r@.len() == i,
                forall|j: int| 0 <= j < r@.len() ==> c@.contains(#[trigger] r@[j]) || d@.contains(r@[j]),
            decreases c.len() - i,
        {
            r.push(c[i]);
            assert(c@.contains(c@[i as int]));
            i = i + 1;
        }
        append_skipping_one(&mut r, d, if mode == 1 { 0 } else { 1 });
    }
    r
}

/// Appends `d` without the vertex it shares: in order without its first
/// (`kind` 0), reversed without its last (1), or reversed without its first (2).
fn append_skipping_one(r: &mut Vec<Point>, d: &Vec<Point>, kind: u8)
    ensures
        final(r)@.len() >= old(r)@.len(),
        forall|j: int| 0 <= j < old(r)@.len() ==> final(r)@[j] == old(r)@[j],
        forall|j: int| old(r)@.len() <= j < final(r)@.len() ==> d@.contains(#[trigger] final(r)@[j]),
{
    let ghost start = r@;
    let n = d.len();
    let mut k: usize = 1;
    while k < n
        invariant
            n == d@.len(),
            1 <= k <= n || n == 0,
            r@.len() >= start.len(),
            forall|j: int| 0 <= j < start.len() ==> r@[j] == start[j],
            forall|j: int| start.len() <= j < r@.len() ==> d@.contains(#[trigger] r@[j]),
        decreases n - k,
    {
        let idx: usize = if kind == 0 {
            k
        } else if kind == 1 {
            n - 1 - k
        } else {
            n - k
        };
        r.push(d[idx]);
        assert(d@.contains(d@[idx as int]));
        k = k + 1;
    }
}

/// Joins open chains whose ends lie within `tol` of each other into
/// polygons, marked closed when the joined chain ends where it starts (its
/// repeated last vertex is then dropped). The polygons in `closed` come
/// first, unchanged; empty chains are dropped.
pub fn connect_open_polys(open: Vec<Vec<Point>>, closed: Vec<Polygon>, tol: i64) -> (r: Vec<Polygon>)
    requires
        chains_ok(open@),
        0 <= tol,
    ensures
        r@.len() <= closed@.len() + open@.len(),
        r@.subrange(0, closed@.len() as int) == closed@,
        forall|k: int|
            closed@.len() <= k < r@.len() ==> (#[trigger] r@[k]).id == 0 && r@[k].points@.len() > 0,
        forall|k: int, j: int|
            closed@.len() <= k < r@.len() && 0 <= j < r@[k].points@.len() ==> in_chains(
                open@,
                #[trigger] r@[k].points@[j],
            ),
{
    let ghost input = open@;
    let ghost nclosed = closed@.len();
    let mut open = open;
    let mut out = closed;
    while open.len() > 0
        invariant
            out@.len() + open@.len() <= nclosed + input.len(),
            out@.len() >= nclosed,
            out@.subrange(0, nclosed as int) == closed@,
            nclosed == closed@.len(),
            0 <= tol,
            chains_ok(input),
            forall|i: int, j: int| 0 <= i < open@.len() && 0 <= j < open@[i]@.len() ==> in_chains(input, #[trigger] open@[i]@[j]),
            forall|k: int| nclosed <= k < out@.len() ==> (#[trigger] out@[k]).id == 0 && out@[k].points@.len() > 0,
            forall|k: int, j: int|
                nclosed <= k < out@.len() && 0 <= j < out@[k].points@.len() ==> in_chains(input, #[trigger] out@[k].points@[j]),
        decreases open@.len(),
    {
        let ghost before_pop = open@;
        let ghost outer_len = open@.len();
        let mut current = open.pop().unwrap();
        assert forall|j: int| 0 <= j < current@.len() implies in_chains(input, #[trigger] current@[j]) by {
            assert(current@[j] == before_pop[before_pop.len() - 1]@[j]);
        }
        if current.len() > 0 {
            let mut changed = true;
            while changed
                invariant
                    current@.len() > 0,
                    0 <= tol,
                    open@.len() < outer_len,
                    out@.len() + open@.len() < nclosed + input.len(),
                    chains_ok(input),
                    forall|i: int, j: int| 0 <= i < open@.len() && 0 <= j < open@[i]@.len() ==> in_chains(input, #[trigger] open@[i]@[j]),
                    forall|j: int| 0 <= j < current@.len() ==> in_chains(input, #[trigger] current@[j]),
                decreases open@.len() + (if changed { 1int } else { 0int }),
            {
                changed = false;
                let ghost len0 = open@.len();
                let mut i: usize = 0;
                while i < open.len() && !changed
                    invariant
                        current@.len() > 0,
                        out@.len() + open@.len() < nclosed + input.len(),
                        0 <= tol,
                        len0 < outer_len,
                        changed ==> open@.len() < len0,
                        !changed ==> open@.len() == len0,
                        i <= open@.len(),
                        chains_ok(input),
                        forall|q: int, j: int| 0 <= q < open@.len() && 0 <= j < open@[q]@.len() ==> in_chains(input, #[trigger] open@[q]@[j]),
                        forall|j: int| 0 <= j < current@.len() ==> in_chains(input, #[trigger] current@[j]),
                    decreases open@.len() - i + (if changed { 0int } else { 1int }),
                {
                    if open[i].len() == 0 {
                        open.remove(i);
                        changed = true;
                    } else {
                        let other_len = open[i].len();
                        let first_cur = current[0];
                        let last_cur = current[current.len() - 1];
                        let first_other = open[i][0];
                        let last_other = open[i][other_len - 1];
                        proof {
                            lemma_in_chains_ok(input, current@[0]);
                            lemma_in_chains_ok(input, current@[current@.len() - 1]);
                            lemma_in_chains_ok(input, open@[i as int]@[0]);
                            lemma_in_chains_ok(input, open@[i as int]@[other_len - 1]);
                        }
                        let mode: u8 = if points_equal(last_cur, first_other, tol) {
                            1
                        } else if points_equal(last_cur, last_other, tol) {
                            2
                        } else if points_equal(first_cur, last_other, tol) {
                            3
                        } else if points_equal(first_cur, first_other, tol) {
                            4
                        } else {
                            0
                        };
                        if mode == 0 {
                            i = i + 1;
                        } else {
                            let ghost ov = open@;
                            let joined = join(&current, &open[i], mode);
                            assert forall|j: int| 0 <= j < joined@.len() implies in_chains(input, #[trigger] joined@[j]) by {
                                if current@.contains(joined@[j]) {
                                    let w = choose|w: int| 0 <= w < current@.len() && current@[w] == joined@[j];
                                    assert(in_chains(input, current@[w]));
                                } else {
                                    let w = choose|w: int| 0 <= w < ov[i as int]@.len() && ov[i as int]@[w] == joined@[j];
                                    assert(in_chains(input, ov[i as int]@[w]));
                                }
                            }
                            current = joined;
                            open.remove(i);
                            assert forall|q: int, j: int| 0 <= q < open@.len() && 0 <= j < open@[q]@.len() implies in_chains(input, #[trigger] open@[q]@[j]) by {
                                if q < i {
                                    assert(open@[q] == ov[q]);
                                } else {
                                    assert(open@[q] == ov[q + 1]);
                                }
                            }
                            changed = true;
                        }
                    }
                }
            }
            let first = current[0];
            let last = current[current.len() - 1];
            proof {
                lemma_in_chains_ok(input, current@[0]);
                lemma_in_chains_ok(input, current@[current@.len() - 1]);
            }
            let is_closed = points_equal(first, last, tol);
            if is_closed && current.len() > 1 {
                current.pop();
            }
            let ghost ob = out@;
            out.push(Polygon { id: 0, points: current, closed: is_closed });
            assert(out@.subrange(0, nclosed as int) =~= ob.subrange(0, nclosed as int));
            assert forall|k: int, j: int|
                nclosed <= k < out@.len() && 0 <= j < out@[k].points@.len() implies in_chains(input, #[trigger] out@[k].points@[j]) by {
                if k < ob.len() {
                    assert(out@[k] == ob[k]);
                }
            }
        }
    }
    out
}

proof fn lemma_in_chains_ok(cs: Seq<Vec<Point>>, p: Point)
    requires
        chains_ok(cs),
        in_chains(cs, p),
    ensures
        input_ok(p.x as int) && input_ok(p.y as int),
{
    let (i, j) = choose|i: int, j: int| 0 <= i < cs.len() && 0 <= j < cs[i]@.len() && #[trigger] cs[i]@[j] == p;
    assert(input_ok(cs[i]@[j].x as int));
}

/// The grid cell of a coordinate, for cells `cell` wide (rounding to the
/// nearest cell).
pub open spec fn cell_of(v: int, cell: int) -> int {
    (v + INPUT_LIMIT + cell / 2) / cell
}

pub open spec fn pt_key(p: Point, cell: int) -> (int, int) {
    (cell_of(p.x as int, cell), cell_of(p.y as int, cell))
}

pub open spec fn key_le(a: (int, int), b: (int, int)) -> bool {
    a.0 < b.0 || (a.0 == b.0 && a.1 <= b.1)
}

/// The segment's key: the cells of its ends, in order, so that its
/// direction does not matter.
pub open spec fn seg_key(a: Point, b: Point, cell: int) -> ((int, int), (int, int)) {
    let ka = pt_key(a, cell);
    let kb = pt_key(b, cell);
    if key_le(ka, kb) {
        (ka, kb)
    } else {
        (kb, ka)
    }
}

/// `(a, b)` is an edge of polygon `k`: two consecutive vertices, or the
/// closing edge of a closed polygon with more than two vertices.
pub open spec fn is_edge(polys: Seq<Polygon>, k: int, j: int, a: Point, b: Point) -> bool {
    let pts = polys[k].points@;
    &&& 0 <= k < polys.len()
    &&& pts.len() >= 2
    &&& ((0 <= j < pts.len() - 1 && a == pts[j] && b == pts[j + 1]) || (j == pts.len() - 1
        && polys[k].closed && pts.len() > 2 && a == pts[j] && b == pts[0]))
}

pub open spec fn polys_in_input(polys: Seq<Polygon>) -> bool {
    forall|k: int, j: int|
        0 <= k < polys.len() && 0 <= j < polys[k].points@.len() ==> input_ok((#[trigger] polys[k].points@[j]).x as int)
            && input_ok(polys[k].points@[j].y as int)
}

type Key = ((i64, i64), (i64, i64));

pub open spec fn key_view(k: Key) -> ((int, int), (int, int)) {
    ((k.0.0 as int, k.0.1 as int), (k.1.0 as int, k.1.1 as int))
}

fn cell_index(v: i64, cell: i64) -> (r: i64)
    requires
        input_ok(v as int),
        1 <= cell <= INPUT_LIMIT,
    ensures
        r == cell_of(v as int, cell as int),
{
    (v + INPUT_LIMIT + cell / 2) / cell
}

fn segment_key(a: Point, b: Point, cell: i64) -> (k: Key)
    requires
        input_ok(a.x as int) && input_ok(a.y as int) && input_ok(b.x as int) && input_ok(b.y as int),
        1 <= cell <= INPUT_LIMIT,
    ensures
        key_view(k) == seg_key(a, b, cell as int),
{
    let ka = (cell_index(a.x, cell), cell_index(a.y, cell));
    let kb = (cell_index(b.x, cell), cell_index(b.y, cell));
    if ka.0 < kb.0 || (ka.0 == kb.0 && ka.1 <= kb.1) {
        (ka, kb)
    } else {
        (kb, ka)
    }
}

/// Records the segment unless one with its key is recorded already.
fn add_segment(segs: &mut Vec<(Point, Point)>, keys: &mut Vec<Key>, a: Point, b: Point, cell: i64)
    requires
        input_ok(a.x as int) && input_ok(a.y as int) && input_ok(b.x as int) && input_ok(b.y as int),
        1 <= cell <= INPUT_LIMIT,
        old(segs)@.len() == old(keys)@.len(),
    ensures
        final(segs)@.len() == final(keys)@.len(),
        final(segs)@.len() >= old(segs)@.len(),
        final(segs)@.subrange(0, old(segs)@.len() as int) == old(segs)@,
        final(keys)@.subrange(0, old(keys)@.len() as int) == old(keys)@,
        forall|i: int| old(segs)@.len() <= i < final(segs)@.len() ==> (#[trigger] final(segs)@[i]) == (a, b)
            && key_view(final(keys)@[i]) == seg_key(a, b, cell as int),
        final(segs)@.len() == old(segs)@.len() ==> exists|i: int|
            0 <= i < old(keys)@.len() && key_view(#[trigger] old(keys)@[i]) == seg_key(a, b, cell as int),
        final(segs)@.len() > old(segs)@.len() ==> final(segs)@.len() == old(segs)@.len() + 1 && forall|i: int|
            0 <= i < old(keys)@.len() ==> key_view(#[trigger] old(keys)@[i]) != seg_key(a, b, cell as int),
{
    let k = segment_key(a, b, cell);
    let mut i: usize = 0;
    while i < keys.len()
        invariant
            i <= keys@.len(),
            segs@ == old(segs)@,
            keys@ == old(keys)@,
            segs@.len() == keys@.len(),
            key_view(k) == seg_key(a, b, cell as int),
            forall|q: int| 0 <= q < i ==> key_view(#[trigger] keys@[q]) != key_view(k),
        decreases keys.len() - i,
    {
        let e = keys[i];
        if e.0.0 == k.0.0 && e.0.1 == k.0.1 && e.1.0 == k.1.0 && e.1.1 == k.1.1 {
            assert(key_view(keys@[i as int]) == key_view(k));
            assert(segs@.subrange(0, segs@.len() as int) =~= segs@);
            assert(keys@.subrange(0, keys@.len() as int) =~= keys@);
            return;
        }
        i = i + 1;
    }
    let ghost s0 = segs@;
    let ghost k0 = keys@;
    segs.push((a, b));
    keys.push(k);
    assert(segs@.subrange(0, s0.len() as int) =~= s0);
    assert(keys@.subrange(0, k0.len() as int) =~= k0);
}

pub open spec fn keys_match(segs: Seq<(Point, Point)>, keys: Seq<Key>, cell: int) -> bool {
    &&& segs.len() == keys.len()
    &&& forall|i: int| 0 <= i < segs.len() ==> key_view(#[trigger] keys[i]) == seg_key(segs[i].0, segs[i].1, cell)
}

/// The segment is an edge of one of the polygons.
pub open spec fn seg_is_edge(polys: Seq<Polygon>, s: (Point, Point)) -> bool {
    exists|q: int, j: int| is_edge(polys, q, j, s.0, s.1)
}

pub open spec fn segs_are_edges(polys: Seq<Polygon>, segs: Seq<(Point, Point)>) -> bool {
    forall|i: int| 0 <= i < segs.len() ==> seg_is_edge(polys, #[trigger] segs[i])
}

pub open spec fn keys_distinct(keys: Seq<Key>) -> bool {
    forall|i: int, t: int| 0 <= i < t < keys.len() ==> key_view(#[trigger] keys[i]) != key_view(#[trigger] keys[t])
}

pub open spec fn has_seg_key(keys: Seq<Key>, key: ((int, int), (int, int))) -> bool {
    exists|i: int| 0 <= i < keys.len() && key_view(#[trigger] keys[i]) == key
}

/// Every edge before edge `j` of polygon `k` has its key recorded.
pub open spec fn covered(polys: Seq<Polygon>, keys: Seq<Key>, cell: int, k: int, j: int) -> bool {
    forall|q: int, jj: int, a: Point, b: Point|
        #[trigger] is_edge(polys, q, jj, a, b) && (q < k || (q == k && jj < j)) ==> has_seg_key(keys, seg_key(a, b, cell))
}

proof fn lemma_has_key_grows(k0: Seq<Key>, k1: Seq<Key>, key: ((int, int), (int, int)))
    requires
        k1.len() >= k0.len(),
        k1.subrange(0, k0.len() as int) == k0,
        has_seg_key(k0, key),
    ensures
        has_seg_key(k1, key),
{
    let i = choose|i: int| 0 <= i < k0.len() && key_view(#[trigger] k0[i]) == key;
    assert(k1[i] == k1.subrange(0, k0.len() as int)[i]);
}

#[verifier::rlimit(50)]
proof fn lemma_after_add(
    polys: Seq<Polygon>,
    s0: Seq<(Point, Point)>,
    k0: Seq<Key>,
    s1: Seq<(Point, Point)>,
    k1: Seq<Key>,
    cell: int,
    k: int,
    j: int,
    a: Point,
    b: Point,
)
    requires
        keys_match(s0, k0, cell),
        segs_are_edges(polys, s0),
        keys_distinct(k0),
        covered(polys, k0, cell, k, j),
        is_edge(polys, k, j, a, b),
        s1.len() == k1.len(),
        s1.len() >= s0.len(),
        s1.subrange(0, s0.len() as int) == s0,
        k1.subrange(0, k0.len() as int) == k0,
        forall|i: int| s0.len() <= i < s1.len() ==> (#[trigger] s1[i]) == (a, b) && key_view(k1[i]) == seg_key(a, b, cell),
        s1.len() == s0.len() ==> has_seg_key(k0, seg_key(a, b, cell)),
        s1.len() > s0.len() ==> s1.len() == s0.len() + 1 && forall|i: int|
            0 <= i < k0.len() ==> key_view(#[trigger] k0[i]) != seg_key(a, b, cell),
    ensures
        keys_match(s1, k1, cell),
        segs_are_edges(polys, s1),
        keys_distinct(k1),
        covered(polys, k1, cell, k, j + 1),
{
    assert forall|i: int| 0 <= i < s1.len() implies key_view(#[trigger] k1[i]) == seg_key(s1[i].0, s1[i].1, cell) by {
        if i < s0.len() {
            assert(s1[i] == s1.subrange(0, s0.len() as int)[i]);
            assert(k1[i] == k1.subrange(0, k0.len() as int)[i]);
        }
    }
    assert forall|i: int| 0 <= i < s1.len() implies seg_is_edge(polys, #[trigger] s1[i]) by {
        if i < s0.len() {
            assert(s1[i] == s1.subrange(0, s0.len() as int)[i]);
            assert(seg_is_edge(polys, s0[i]));
        } else {
            assert(is_edge(polys, k, j, s1[i].0, s1[i].1));
        }
    }
    assert forall|i: int, t: int| 0 <= i < t < k1.len() implies key_view(#[trigger] k1[i]) != key_view(#[trigger] k1[t]) by {
        assert(k1[i] == k1.subrange(0, k0.len() as int)[i]) by {
            if i < k0.len() {
            }
        }
        if t < k0.len() {
            assert(k1[t] == k1.subrange(0, k0.len() as int)[t]);
        } else {
            assert(k1[i] == k0[i]);
        }
    }
    assert forall|q: int, jj: int, a2: Point, b2: Point|
        #[trigger] is_edge(polys, q, jj, a2, b2) && (q < k || (q == k && jj < j + 1)) implies has_seg_key(k1, seg_key(a2, b2, cell)) by {
        if q < k || jj < j {
            lemma_has_key_grows(k0, k1, seg_key(a2, b2, cell));
        } else {
            assert(a2 == a && b2 == b);
            if s1.len() == s0.len() {
                lemma_has_key_grows(k0, k1, seg_key(a, b, cell));
            } else {
                assert(key_view(k1[s0.len() as int]) == seg_key(a, b, cell));
            }
        }
    }
}

/// The segments of the polygons with duplicates removed: segments whose ends
/// fall in the same grid cells (cells `cell` wide), in either direction, are
/// one; the first one met is kept. Each becomes an open two-vertex polygon;
/// they are ordered by the x of their first vertex and numbered in that
/// order. The keys seen so far are kept in a `Vec` and searched in order, for
/// the same reason as in `NfpCache`: vstd does not model `HashMap` lookups
/// under a tuple key.
pub fn merge_lines(polys: &Vec<Polygon>, cell: i64) -> (r: Vec<Polygon>)
    requires
        polys_in_input(polys@),
        1 <= cell <= INPUT_LIMIT,
    ensures
        forall|i: int|
            0 <= i < r@.len() ==> {
                &&& (#[trigger] r@[i]).id == i
                &&& !r@[i].closed
                &&& r@[i].points@.len() == 2
                &&& exists|k: int, j: int| is_edge(polys@, k, j, r@[i].points@[0], r@[i].points@[1])
            },
        forall|i: int, j: int|
            0 <= i < j < r@.len() ==> seg_key((#[trigger] r@[i]).points@[0], r@[i].points@[1], cell as int)
                != seg_key((#[trigger] r@[j]).points@[0], r@[j].points@[1], cell as int)
                && r@[i].points@[0].x <= r@[j].points@[0].x,
        forall|k: int, j: int, a: Point, b: Point|
            #[trigger] is_edge(polys@, k, j, a, b) ==> exists|i: int|
                0 <= i < r@.len() && seg_key(a, b, cell as int) == seg_key(
                    (#[trigger] r@[i]).points@[0],
                    r@[i].points@[1],
                    cell as int,
                ),
{
    let (segs, keys) = collect_segments(polys, cell);
    order_segments(polys, &segs, &keys, cell)
}

fn collect_segments(polys: &Vec<Polygon>, cell: i64) -> (r: (Vec<(Point, Point)>, Vec<Key>))
    requires
        polys_in_input(polys@),
        1 <= cell <= INPUT_LIMIT,
    ensures
        keys_match(r.0@, r.1@, cell as int),
        segs_are_edges(polys@, r.0@),
        keys_distinct(r.1@),
        covered(polys@, r.1@, cell as int, polys@.len() as int, 0),
{
    let mut segs: Vec<(Point, Point)> = Vec::new();
    let mut keys: Vec<Key> = Vec::new();
    let mut k: usize = 0;
    while k < polys.len()
        invariant
            polys_in_input(polys@),
            1 <= cell <= INPUT_LIMIT,
            k <= polys@.len(),
            keys_match(segs@, keys@, cell as int),
            segs_are_edges(polys@, segs@),
            keys_distinct(keys@),
            covered(polys@, keys@, cell as int, k as int, 0),
        decreases polys@.len() - k,
    {
        let pts = &polys[k].points;
        let n = pts.len();
        let last: usize = if n < 2 {
            0
        } else if polys[k].closed && n > 2 {
            n
        } else {
            n - 1
        };
        let mut j: usize = 0;
        while j < last
            invariant
                polys_in_input(polys@),
                1 <= cell <= INPUT_LIMIT,
                k < polys@.len(),
                pts@ == polys@[k as int].points@,
                n == pts@.len(),
                last == (if n < 2 { 0 } else if polys@[k as int].closed && n > 2 { n } else { (n - 1) as usize }),
                j <= last,
                keys_match(segs@, keys@, cell as int),
                segs_are_edges(polys@, segs@),
                keys_distinct(keys@),
                covered(polys@, keys@, cell as int, k as int, j as int),
            decreases last - j,
        {
            let a = pts[j];
            let b = if j + 1 < n {
                pts[j + 1]
            } else {
                pts[0]
            };
            assert(is_edge(polys@, k as int, j as int, a, b));
            assert(input_ok(polys@[k as int].points@[j as int].x as int));
            assert(input_ok(polys@[k as int].points@[j as int].y as int));
            assert(input_ok(b.x as int) && input_ok(b.y as int)) by {
                if j + 1 < n {
                    assert(input_ok(polys@[k as int].points@[j + 1].x as int));
                } else {
                    assert(input_ok(polys@[k as int].points@[0].x as int));
                }
            }
            let ghost s0 = segs@;
            let ghost k0 = keys@;
            add_segment(&mut segs, &mut keys, a, b, cell);
            proof {
                lemma_after_add(polys@, s0, k0, segs@, keys@, cell as int, k as int, j as int, a, b);
            }
            j = j + 1;
        }
        assert forall|q: int, jj: int, a: Point, b: Point|
            #[trigger] is_edge(polys@, q, jj, a, b) && q < k + 1 implies has_seg_key(keys@, seg_key(a, b, cell as int)) by {
            if q == k {
                assert(jj < last);
            }
        }
        k = k + 1;
    }
    (segs, keys)
}

#[verifier::rlimit(60)]
fn order_segments(polys: &Vec<Polygon>, segs: &Vec<(Point, Point)>, keys: &Vec<Key>, cell: i64) -> (r: Vec<Polygon>)
    requires
        polys_in_input(polys@),
        keys_match(segs@, keys@, cell as int),
        segs_are_edges(polys@, segs@),
        keys_distinct(keys@),
        covered(polys@, keys@, cell as int, polys@.len() as int, 0),
    ensures
        forall|i: int|
            0 <= i < r@.len() ==> {
                &&& (#[trigger] r@[i]).id == i
                &&& !r@[i].closed
                &&& r@[i].points@.len() == 2
                &&& exists|k: int, j: int| is_edge(polys@, k, j, r@[i].points@[0], r@[i].points@[1])
            },
        forall|i: int, j: int|
            0 <= i < j < r@.len() ==> seg_key((#[trigger] r@[i]).points@[0], r@[i].points@[1], cell as int)
                != seg_key((#[trigger] r@[j]).points@[0], r@[j].points@[1], cell as int)
                && r@[i].points@[0].x <= r@[j].points@[0].x,
        forall|k: int, j: int, a: Point, b: Point|
            #[trigger] is_edge(polys@, k, j, a, b) ==> exists|i: int|
                0 <= i < r@.len() && seg_key(a, b, cell as int) == seg_key(
                    (#[trigger] r@[i]).points@[0],
                    r@[i].points@[1],
                    cell as int,
                ),
{
    let mut xs: Vec<u128> = Vec::new();
    let mut i: usize = 0;
    while i < segs.len()
        invariant
            i <= segs@.len(),
            xs@.len() == i,
            segs_are_edges(polys@, segs@),
            polys_in_input(polys@),
            forall|q: int| 0 <= q < i ==> xs@[q] == segs@[q].0.x + INPUT_LIMIT,
        decreases segs@.len() - i,
    {
        let a = segs[i].0;
        proof {
            assert(seg_is_edge(polys@, segs@[i as int]));
            let (kk, jj) = choose|kk: int, jj: int| is_edge(polys@, kk, jj, segs@[i as int].0, segs@[i as int].1);
            assert(input_ok(polys@[kk].points@[jj].x as int));
        }
        xs.push((a.x + INPUT_LIMIT) as u128);
        i = i + 1;
    }
    let order = crate::order::order_by_key(&xs);
    let mut out: Vec<Polygon> = Vec::new();
    let mut t: usize = 0;
    while t < order.len()
        invariant
            t <= order@.len(),
            crate::order::is_perm(order@, segs@.len()),
            out@.len() == t,
            forall|q: int| 0 <= q < t ==> {
                &&& (#[trigger] out@[q]).id == q
                &&& !out@[q].closed
                &&& out@[q].points@ == seq![segs@[order@[q] as int].0, segs@[order@[q] as int].1]
            },
        decreases order@.len() - t,
    {
        let s = segs[order[t]];
        let pts = vec![s.0, s.1];
        out.push(Polygon { id: t, points: pts, closed: false });
        t = t + 1;
    }
    proof {
        assert forall|q: int| 0 <= q < out@.len() implies exists|k: int, j: int| is_edge(polys@, k, j, (#[trigger] out@[q]).points@[0], out@[q].points@[1]) by {
            let oq = order@[q] as int;
            assert(order@.len() == segs@.len());
            assert(0 <= oq < segs@.len());
            assert(seg_is_edge(polys@, segs@[oq]));
            assert(out@[q].points@[0] == segs@[oq].0 && out@[q].points@[1] == segs@[oq].1);
        }
        assert forall|q: int, w: int|
            0 <= q < w < out@.len() implies seg_key((#[trigger] out@[q]).points@[0], out@[q].points@[1], cell as int)
                != seg_key((#[trigger] out@[w]).points@[0], out@[w].points@[1], cell as int)
                && out@[q].points@[0].x <= out@[w].points@[0].x by {
            let oq = order@[q] as int;
            let ow = order@[w] as int;
            assert(oq != ow);
            if oq < ow {
                assert(key_view(keys@[oq]) != key_view(keys@[ow]));
            } else {
                assert(key_view(keys@[ow]) != key_view(keys@[oq]));
            }
            assert(xs@[oq] <= xs@[ow]);
        }
        assert forall|kk: int, jj: int, a: Point, b: Point| #[trigger] is_edge(polys@, kk, jj, a, b) implies exists|q: int|
            0 <= q < out@.len() && seg_key(a, b, cell as int) == seg_key(
                (#[trigger] out@[q]).points@[0],
                out@[q].points@[1],
                cell as int,
            ) by {
            assert(has_seg_key(keys@, seg_key(a, b, cell as int)));
            let i = choose|i: int| 0 <= i < keys@.len() && key_view(#[trigger] keys@[i]) == seg_key(a, b, cell as int);
            assert(order@.contains(i as usize));
            let q = choose|q: int| 0 <= q < order@.len() && order@[q] == i as usize;
            assert(out@[q].points@[0] == segs@[i].0);
        }
    }
    out
}

} // verus!
