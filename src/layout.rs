//! The layout evaluator: places an individual's parts in bins of the given
//! size, by a linear shelf or by maximal free rectangles, refusing any
//! position where a part would overlap one already placed.
use crate::clip::{overlaps, polygons_intersect};
use crate::geometry::{
    area2, contains_all, inside, is_bounds_of_all, polygon_area, polygon_contains_polygon,
    point_in_polygon, pos_ok, ring_pos_ok, sign, some_counted, Bounds, Point, Polygon,
    POS_LIMIT, lemma_pos_ring_ok, box_of, lemma_box_of, lemma_box_range,
};
use crate::nfp::{minkowski_spec, NfpCache, NfpKey};
use crate::part::Part;
use vstd::prelude::*;

verus! {

/// Settings of a nesting run.
#[derive(Clone, Copy, Debug)]
pub struct GAConfig {
    pub population_size: usize,
    /// Per-gene mutation probability, in percent.
    pub mutation_rate: usize,
    /// Number of rotation steps of `360 / rotations` degrees; 0 keeps parts unrotated.
    pub rotations: usize,
    /// Gap left after each part, in clipper units.
    pub spacing: i64,
    pub use_holes: bool,
    /// Lay out by maximal free rectangles instead of a linear shelf.
    pub explore_concave: bool,
}

/// Part `idx` at rotation step `turn`, its normalized origin at `(x, y)`.
#[derive(Clone, Copy, Debug, PartialEq, Eq, Structural)]
pub struct Placement {
    pub idx: usize,
    pub turn: usize,
    pub x: i64,
    pub y: i64,
}

/// The polygons of part `idx` at step `turn`.
pub open spec fn shape(parts: Seq<Part>, idx: int, turn: int) -> Seq<Polygon> {
    parts[idx]@[turn]
}

/// The outer boundary of part `idx` at step `turn`.
pub open spec fn outer(parts: Seq<Part>, idx: int, turn: int) -> Seq<Point> {
    shape(parts, idx, turn)[0].points@
}

pub open spec fn parts_ok(parts: Seq<Part>) -> bool {
    forall|i: int| 0 <= i < parts.len() ==> (#[trigger] parts[i]).wf()
}

/// Part `idx` exists and has step `turn`.
pub open spec fn gene_ok(parts: Seq<Part>, idx: int, turn: int) -> bool {
    0 <= idx < parts.len() && 0 <= turn < parts[idx]@.len()
}

/// Every entry of the cache is the no-fit polygon of the outer boundaries
/// its key names.
pub open spec fn cache_ok(parts: Seq<Part>, es: Seq<(NfpKey, Seq<Point>)>) -> bool {
    forall|t: int|
        0 <= t < es.len() ==> {
            let k = (#[trigger] es[t]).0;
            &&& gene_ok(parts, k.0 as int, k.2 as int)
            &&& gene_ok(parts, k.1 as int, k.3 as int)
            &&& es[t].1 == minkowski_spec(outer(parts, k.0 as int, k.2 as int), outer(parts, k.1 as int, k.3 as int))
        }
}

/// Sign of the signed area of polygon `h` of a shape.
pub open spec fn winding(polys: Seq<Polygon>, h: int) -> int {
    sign(area2(polys[h].points@))
}

/// Polygon `h` winds opposite to the outer boundary: it is a hole.
pub open spec fn is_hole(polys: Seq<Polygon>, h: int) -> bool {
    winding(polys, h) != winding(polys, 0)
}

/// The ring at `(x, y)` lies within some hole of `other` at `(px, py)`.
pub open spec fn in_some_hole(other: Seq<Polygon>, rp: Seq<Point>, px: int, py: int, x: int, y: int) -> bool {
    exists|h: int|
        0 <= h < other.len() && is_hole(other, h) && #[trigger] contains_all(other[h].points@, rp, px, py, x, y)
}

/// Some outer polygon of `other` at `(px, py)` meets some polygon of `cand`
/// at `(x, y)` that is not within a hole of `other`.
pub open spec fn bad_overlap(other: Seq<Polygon>, cand: Seq<Polygon>, px: int, py: int, x: int, y: int) -> bool {
    exists|o: int, c: int|
        0 <= o < other.len() && !is_hole(other, o) && 0 <= c < cand.len() && #[trigger] overlaps(
            other[o].points@,
            cand[c].points@,
            px,
            py,
            x,
            y,
        ) && !in_some_hole(other, cand[c].points@, px, py, x, y)
}

/// The offset of the candidate from `p` lies in their no-fit polygon.
pub open spec fn nfp_hit(parts: Seq<Part>, p: Placement, idx: int, turn: int, x: int, y: int) -> bool {
    let n = minkowski_spec(outer(parts, p.idx as int, p.turn as int), outer(parts, idx, turn));
    n.len() >= 3 && inside(n, x - p.x, y - p.y)
}

/// Part `idx` at step `turn` placed at `(x, y)` collides with placement `p`.
pub open spec fn blocked_by(parts: Seq<Part>, p: Placement, idx: int, turn: int, x: int, y: int) -> bool {
    nfp_hit(parts, p, idx, turn, x, y) || bad_overlap(
        shape(parts, p.idx as int, p.turn as int),
        shape(parts, idx, turn),
        p.x as int,
        p.y as int,
        x,
        y,
    )
}

/// Part `idx` at step `turn` has polygons and lies within the position range at `(x, y)`.
pub open spec fn candidate_ok(parts: Seq<Part>, idx: int, turn: int, x: int, y: int) -> bool {
    &&& gene_ok(parts, idx, turn)
    &&& shape(parts, idx, turn).len() > 0
    &&& pos_ok(x) && pos_ok(y)
}

pub open spec fn placement_ok(parts: Seq<Part>, p: Placement) -> bool {
    candidate_ok(parts, p.idx as int, p.turn as int, p.x as int, p.y as int)
}

/// No placement collides with one before it.
pub open spec fn no_overlap(parts: Seq<Part>, pl: Seq<Placement>) -> bool {
    forall|j: int, k: int|
        0 <= j < k < pl.len() ==> !blocked_by(parts, #[trigger] pl[j], (#[trigger] pl[k]).idx as int, pl[k].turn as int, pl[k].x as int, pl[k].y as int)
}

proof fn lemma_minkowski_ring_ok(a: Seq<Point>, b: Seq<Point>)
    ensures
        crate::geometry::ring_ok(minkowski_spec(a, b)),
{
}

fn sign_of(v: i128) -> (r: i128)
    ensures
        r == sign(v as int),
{
    if v > 0 {
        1
    } else if v < 0 {
        -1
    } else {
        0
    }
}

fn winding_of(polys: &Vec<Polygon>, h: usize) -> (r: i128)
    requires
        h < polys.len(),
        crate::geometry::polys_pos_ok(polys@),
    ensures
        r == winding(polys@, h as int),
{
    assert(ring_pos_ok(polys@[h as int].points@));
    proof {
        lemma_pos_ring_ok(polys@[h as int].points@);
    }
    sign_of(polygon_area(&polys[h].points))
}

/// Whether the ring at `(x, y)` lies in some hole of `other` at `(px, py)`.
fn within_hole(other: &Vec<Polygon>, rp: &Vec<Point>, px: i64, py: i64, x: i64, y: i64) -> (r: bool)
    requires
        other.len() > 0,
        crate::geometry::polys_pos_ok(other@),
        ring_pos_ok(rp@),
        pos_ok(px as int) && pos_ok(py as int) && pos_ok(x as int) && pos_ok(y as int),
    ensures
        r == in_some_hole(other@, rp@, px as int, py as int, x as int, y as int),
{
    let orient = winding_of(other, 0);
    let mut h: usize = 0;
    while h < other.len()
        invariant
            other.len() > 0,
            crate::geometry::polys_pos_ok(other@),
            ring_pos_ok(rp@),
            pos_ok(px as int) && pos_ok(py as int) && pos_ok(x as int) && pos_ok(y as int),
            orient == winding(other@, 0),
            h <= other.len(),
            forall|q: int|
                0 <= q < h && is_hole(other@, q) ==> !#[trigger] contains_all(other@[q].points@, rp@, px as int, py as int, x as int, y as int),
        decreases other.len() - h,
    {
        if winding_of(other, h) != orient {
            assert(ring_pos_ok(other@[h as int].points@));
            proof {
                lemma_pos_ring_ok(other@[h as int].points@);
            }
            if polygon_contains_polygon(&other[h].points, rp, px, py, x, y) {
                return true;
            }
        }
        h = h + 1;
    }
    false
}

/// Whether part `idx` at step `turn` placed at `(x, y)` collides with `p`:
/// the offset lies in their no-fit polygon, or an outer polygon of `p` meets
/// a polygon of the candidate that lies in none of `p`'s holes.
fn blocked(parts: &Vec<Part>, cache: &mut NfpCache, p: Placement, idx: usize, turn: usize, x: i64, y: i64) -> (r: bool)
    requires
        parts_ok(parts@),
        old(cache).wf(),
        cache_ok(parts@, old(cache)@),
        placement_ok(parts@, p),
        candidate_ok(parts@, idx as int, turn as int, x as int, y as int),
    ensures
        final(cache).wf(),
        cache_ok(parts@, final(cache)@),
        r == blocked_by(parts@, p, idx as int, turn as int, x as int, y as int),
{
    assert(parts@[p.idx as int].wf());
    assert(parts@[idx as int].wf());
    let other = parts[p.idx].rotated(p.turn);
    let cand = parts[idx].rotated(turn);
    assert(crate::geometry::polys_pos_ok(other@));
    assert(crate::geometry::polys_pos_ok(cand@));
    assert(ring_pos_ok(other@[0].points@));
    assert(ring_pos_ok(cand@[0].points@));
    let ghost es = cache@;
    let nfp = cache.get_or_generate(p.idx, idx, p.turn, turn, &other[0].points, &cand[0].points);
    proof {
        let key = (p.idx, idx, p.turn, turn);
        if crate::nfp::has_key(es, key) {
            let t = choose|t: int| 0 <= t < es.len() && (#[trigger] es[t]).0 == key && es[t].1 == nfp@;
            assert(es[t].1 == minkowski_spec(outer(parts@, p.idx as int, p.turn as int), outer(parts@, idx as int, turn as int)));
        } else {
            assert forall|t: int| 0 <= t < cache@.len() implies {
                let k = (#[trigger] cache@[t]).0;
                &&& gene_ok(parts@, k.0 as int, k.2 as int)
                &&& gene_ok(parts@, k.1 as int, k.3 as int)
                &&& cache@[t].1 == minkowski_spec(outer(parts@, k.0 as int, k.2 as int), outer(parts@, k.1 as int, k.3 as int))
            } by {
                if t < es.len() {
                    assert(cache@[t] == es[t]);
                }
            }
        }
        lemma_minkowski_ring_ok(outer(parts@, p.idx as int, p.turn as int), outer(parts@, idx as int, turn as int));
    }
    if nfp.len() >= 3 && point_in_polygon(&nfp, x - p.x, y - p.y) {
        return true;
    }
    let orient = winding_of(other, 0);
    let mut o: usize = 0;
    while o < other.len()
        invariant
            other@ == shape(parts@, p.idx as int, p.turn as int),
            cand@ == shape(parts@, idx as int, turn as int),
            other.len() > 0,
            cand.len() > 0,
            crate::geometry::polys_pos_ok(other@),
            crate::geometry::polys_pos_ok(cand@),
            placement_ok(parts@, p),
            pos_ok(x as int) && pos_ok(y as int),
            orient == winding(other@, 0),
            o <= other.len(),
            cache.wf(),
            cache_ok(parts@, cache@),
            !nfp_hit(parts@, p, idx as int, turn as int, x as int, y as int),
            forall|o2: int, c2: int|
                0 <= o2 < o && !is_hole(other@, o2) && 0 <= c2 < cand.len() ==> !(#[trigger] overlaps(
                    other@[o2].points@,
                    cand@[c2].points@,
                    p.x as int,
                    p.y as int,
                    x as int,
                    y as int,
                ) && !in_some_hole(other@, cand@[c2].points@, p.x as int, p.y as int, x as int, y as int)),
        decreases other.len() - o,
    {
        if winding_of(other, o) == orient {
            let mut c: usize = 0;
            while c < cand.len()
                invariant
                    other.len() > 0,
                    crate::geometry::polys_pos_ok(other@),
                    crate::geometry::polys_pos_ok(cand@),
                    placement_ok(parts@, p),
                    pos_ok(x as int) && pos_ok(y as int),
                    o < other.len(),
                    !is_hole(other@, o as int),
                    other@ == shape(parts@, p.idx as int, p.turn as int),
                    cand@ == shape(parts@, idx as int, turn as int),
                    cache.wf(),
                    cache_ok(parts@, cache@),
                    !nfp_hit(parts@, p, idx as int, turn as int, x as int, y as int),
                    c <= cand.len(),
                    forall|o2: int, c2: int|
                        ((0 <= o2 < o && !is_hole(other@, o2)) || (o2 == o && 0 <= c2 < c)) && 0 <= c2 < cand.len() ==> !(#[trigger] overlaps(
                            other@[o2].points@,
                            cand@[c2].points@,
                            p.x as int,
                            p.y as int,
                            x as int,
                            y as int,
                        ) && !in_some_hole(other@, cand@[c2].points@, p.x as int, p.y as int, x as int, y as int)),
                decreases cand.len() - c,
            {
                assert(ring_pos_ok(other@[o as int].points@));
                assert(ring_pos_ok(cand@[c as int].points@));
                if polygons_intersect(&other[o].points, &cand[c].points, p.x, p.y, x, y) {
                    if !within_hole(other, &cand[c].points, p.x, p.y, x, y) {
                        return true;
                    }
                }
                c = c + 1;
            }
        }
        o = o + 1;
    }
    false
}

/// The bounding box of part `idx` at step `turn`, if it has one.
pub open spec fn gene_box(parts: Seq<Part>, idx: int, turn: int) -> Option<Bounds> {
    shape_box(shape(parts, idx, turn))
}

/// The bounding box of the polygons, if they have one.
pub open spec fn shape_box(polys: Seq<Polygon>) -> Option<Bounds> {
    if exists|b: Bounds| is_bounds_of_all(polys, b) {
        Some(box_of(polys))
    } else {
        None
    }
}

pub proof fn lemma_no_box(polys: Seq<Polygon>)
    requires
        !some_counted(polys),
    ensures
        !exists|b: Bounds| is_bounds_of_all(polys, b),
{
    if exists|b: Bounds| is_bounds_of_all(polys, b) {
        let b = choose|b: Bounds| is_bounds_of_all(polys, b);
        let (k, i) = choose|k: int, i: int|
            crate::geometry::is_vertex(polys, k, i) && crate::geometry::counted(polys, k) && #[trigger] crate::geometry::vtx(polys, k, i).x == b.x;
        assert(some_counted(polys));
    }
}

pub open spec fn too_big(b: Bounds, bin: Bounds) -> bool {
    b.width > bin.width || b.height > bin.height
}

/// No gene among the first `k` has a box wider or taller than the bin.
pub open spec fn all_fit(parts: Seq<Part>, genes: Seq<usize>, turns: Seq<usize>, bin: Bounds, k: int) -> bool {
    forall|i: int|
        0 <= i < k ==> match #[trigger] gene_box(parts, genes[i] as int, turns[i] as int) {
            Some(b) => !too_big(b, bin),
            None => true,
        }
}

/// The linear shelf after the first `k` genes: the cursor `(x, y)`, the
/// number of bins opened and the placements. A part goes at the cursor,
/// after moving to a new bin when `x + width >= bin width`; the cursor then
/// advances by its width and the spacing. Genes without a box are skipped.
pub open spec fn shelf(
    parts: Seq<Part>,
    genes: Seq<usize>,
    turns: Seq<usize>,
    bin: Bounds,
    sp: int,
    k: nat,
) -> (int, int, int, Seq<Placement>)
    decreases k,
{
    if k == 0 {
        (0, 0, 1, Seq::empty())
    } else {
        let (x, y, bins, pl) = shelf(parts, genes, turns, bin, sp, (k - 1) as nat);
        let idx = genes[k - 1];
        let turn = turns[k - 1];
        match gene_box(parts, idx as int, turn as int) {
            None => (x, y, bins, pl),
            Some(b) => {
                let (x1, y1, bins1) = if x + b.width >= bin.width {
                    (0, y + bin.height, bins + 1)
                } else {
                    (x, y, bins)
                };
                (
                    x1 + b.width + sp,
                    y1,
                    bins1,
                    pl.push(Placement { idx, turn, x: x1 as i64, y: y1 as i64 }),
                )
            },
        }
    }
}

proof fn lemma_shelf_prefix(
    parts: Seq<Part>,
    genes: Seq<usize>,
    turns: Seq<usize>,
    bin: Bounds,
    sp: int,
    k: nat,
    n: nat,
)
    requires
        k <= n,
    ensures
        shelf(parts, genes, turns, bin, sp, k).3.len() <= shelf(parts, genes, turns, bin, sp, n).3.len(),
        shelf(parts, genes, turns, bin, sp, n).3.subrange(0, shelf(parts, genes, turns, bin, sp, k).3.len() as int)
            == shelf(parts, genes, turns, bin, sp, k).3,
    decreases n - k,
{
    if k < n {
        lemma_shelf_prefix(parts, genes, turns, bin, sp, k, (n - 1) as nat);
        let a = shelf(parts, genes, turns, bin, sp, k).3;
        let m = shelf(parts, genes, turns, bin, sp, (n - 1) as nat).3;
        let z = shelf(parts, genes, turns, bin, sp, n).3;
        assert(z.subrange(0, m.len() as int) == m);
        assert(z.subrange(0, a.len() as int) =~= m.subrange(0, a.len() as int));
    } else {
        let a = shelf(parts, genes, turns, bin, sp, k).3;
        assert(a.subrange(0, a.len() as int) =~= a);
    }
}

/// The genes are parts and steps that exist.
pub open spec fn genes_ok(parts: Seq<Part>, genes: Seq<usize>, turns: Seq<usize>) -> bool {
    &&& genes.len() == turns.len()
    &&& forall|i: int| 0 <= i < genes.len() ==> gene_ok(parts, #[trigger] genes[i] as int, turns[i] as int)
}

/// The bin and spacing leave every position of a layout of `n` parts in range.
pub open spec fn bin_ok(bin: Bounds, spacing: int, n: int) -> bool {
    &&& 0 <= bin.width && 0 <= bin.height && 0 <= spacing
    &&& bin.width + spacing <= POS_LIMIT
    &&& bin.height * (2 * n + 3) <= POS_LIMIT
    &&& n <= POS_LIMIT
}

proof fn lemma_height_bound(h: int, bins: int, n: int)
    requires
        0 <= h,
        1 <= bins <= 2 * n + 2,
        h * (2 * n + 3) <= POS_LIMIT,
    ensures
        h * bins <= POS_LIMIT,
        h * (bins - 1) + h == h * bins,
        0 <= h * (bins - 1),
{
    assert(h * bins <= h * (2 * n + 3)) by (nonlinear_arith)
        requires
            0 <= h,
            bins <= 2 * n + 3,
    ;
    assert(h * (bins - 1) + h == h * bins) by (nonlinear_arith);
    assert(0 <= h * (bins - 1)) by (nonlinear_arith)
        requires
            0 <= h,
            1 <= bins,
    ;
}

/// Lays the genes out on a linear shelf (see `shelf`). `None` (infeasible)
/// with no placements when a part is larger than the bin or collides with
/// one placed before it; else the height `bin height * bins` and the
/// placements.
fn layout_shelf(
    genes: &Vec<usize>,
    turns: &Vec<usize>,
    parts: &Vec<Part>,
    bin: Bounds,
    spacing: i64,
) -> (r: (Option<i64>, Vec<Placement>))
    requires
        parts_ok(parts@),
        genes_ok(parts@, genes@, turns@),
        bin_ok(bin, spacing as int, genes@.len() as int),
    ensures
        ({
            let (_, _, bins, pl) = shelf(parts@, genes@, turns@, bin, spacing as int, genes@.len());
            let feasible = all_fit(parts@, genes@, turns@, bin, genes@.len() as int) && no_overlap(parts@, pl);
            &&& r.0 is Some <==> feasible
            &&& feasible ==> r.0 == Some((bin.height * bins) as i64) && r.1@ == pl
            &&& !feasible ==> r.1@.len() == 0
        }),
{
    let n = genes.len();
    let ghost sp = spacing as int;
    let mut cache = NfpCache::new();
    let mut x: i64 = 0;
    let mut y: i64 = 0;
    let mut bins: i64 = 1;
    let mut placement: Vec<Placement> = Vec::new();
    let mut g: usize = 0;
    while g < n
        invariant
            n == genes.len(),
            parts_ok(parts@),
            genes_ok(parts@, genes@, turns@),
            bin_ok(bin, sp, n as int),
            sp == spacing,
            g <= n,
            shelf(parts@, genes@, turns@, bin, sp, g as nat) == (x as int, y as int, bins as int, placement@),
            all_fit(parts@, genes@, turns@, bin, g as int),
            no_overlap(parts@, placement@),
            forall|j: int| 0 <= j < placement@.len() ==> placement_ok(parts@, #[trigger] placement@[j]),
            1 <= bins <= g + 1,
            y == bin.height * (bins - 1),
            0 <= x <= bin.width + spacing,
            cache.wf(),
            cache_ok(parts@, cache@),
        decreases n - g,
    {
        let idx = genes[g];
        let turn = turns[g];
        assert(gene_ok(parts@, idx as int, turn as int));
        assert(parts@[idx as int].wf());
        let ob = parts[idx].bounds_rotated(turn);
        proof {
            lemma_height_bound(bin.height as int, bins as int, n as int);
        }
        match ob {
            None => {
                proof {
                    lemma_no_box(shape(parts@, idx as int, turn as int));
                }
                assert(gene_box(parts@, idx as int, turn as int) is None);
                assert(all_fit(parts@, genes@, turns@, bin, g + 1));
            },
            Some(b) => {
                proof {
                    lemma_box_of(shape(parts@, idx as int, turn as int), b);
                    lemma_box_range(shape(parts@, idx as int, turn as int), b);
                }
                assert(gene_box(parts@, idx as int, turn as int) == Some(b));
                if b.width > bin.width || b.height > bin.height {
                    proof {
                        assert(!all_fit(parts@, genes@, turns@, bin, n as int)) by {
                            assert(gene_box(parts@, genes@[g as int] as int, turns@[g as int] as int) == Some(b));
                        }
                    }
                    return (None, Vec::new());
                }
                if x + b.width >= bin.width {
                    bins = bins + 1;
                    x = 0;
                    y = y + bin.height;
                    proof {
                        lemma_height_bound(bin.height as int, bins as int, n as int);
                    }
                }
                assert(some_counted(shape(parts@, idx as int, turn as int)));
                assert(shape(parts@, idx as int, turn as int).len() > 0);
                let ghost next = placement@.push(Placement { idx, turn, x, y });
                assert(shelf(parts@, genes@, turns@, bin, sp, (g + 1) as nat) == (
                    (x + b.width + spacing) as int,
                    y as int,
                    bins as int,
                    next,
                ));
                let mut j: usize = 0;
                while j < placement.len()
                    invariant
                        parts_ok(parts@),
                        forall|q: int| 0 <= q < placement@.len() ==> placement_ok(parts@, #[trigger] placement@[q]),
                        candidate_ok(parts@, idx as int, turn as int, x as int, y as int),
                        j <= placement.len(),
                        forall|q: int| 0 <= q < j ==> !blocked_by(parts@, #[trigger] placement@[q], idx as int, turn as int, x as int, y as int),
                        cache.wf(),
                        cache_ok(parts@, cache@),
                        g < n,
                        n == genes.len(),
                        sp == spacing,
                        next == placement@.push(Placement { idx, turn, x, y }),
                        shelf(parts@, genes@, turns@, bin, sp, (g + 1) as nat).3 == next,
                    decreases placement.len() - j,
                {
                    if blocked(parts, &mut cache, placement[j], idx, turn, x, y) {
                        proof {
                            let pl2 = next;
                            lemma_shelf_prefix(parts@, genes@, turns@, bin, sp, (g + 1) as nat, n as nat);
                            let full = shelf(parts@, genes@, turns@, bin, sp, n as nat).3;
                            assert(full[j as int] == pl2[j as int]);
                            assert(full[placement@.len() as int] == pl2[placement@.len() as int]);
                            assert(!no_overlap(parts@, full));
                        }
                        return (None, Vec::new());
                    }
                    j = j + 1;
                }
                let np = Placement { idx, turn, x, y };
                let ghost before = placement@;
                placement.push(np);
                assert forall|j1: int, k1: int| 0 <= j1 < k1 < placement@.len() implies !blocked_by(
                    parts@,
                    #[trigger] placement@[j1],
                    (#[trigger] placement@[k1]).idx as int,
                    placement@[k1].turn as int,
                    placement@[k1].x as int,
                    placement@[k1].y as int,
                ) by {
                    if k1 < before.len() {
                        assert(placement@[j1] == before[j1]);
                        assert(placement@[k1] == before[k1]);
                    }
                }
                assert(all_fit(parts@, genes@, turns@, bin, g + 1));
                x = x + b.width + spacing;
            },
        }
        g = g + 1;
    }
    proof {
        lemma_height_bound(bin.height as int, bins as int, n as int);
    }
    (Some(bin.height * bins), placement)
}

/// A free axis-aligned rectangle of the maximal-rectangle layout.
#[derive(Clone, Copy, Debug)]
pub struct FreeRect {
    pub x: i64,
    pub y: i64,
    pub width: i64,
    pub height: i64,
}

/// `free` with the boxes of the holes among polygons `1..h` of a part placed
/// at `(x, y)` put first, one after the other, each when it lies within
/// `width` and `bottom`.
pub open spec fn with_holes(free: Seq<FreeRect>, rotated: Seq<Polygon>, x: int, y: int, width: int, bottom: int, h: nat) -> Seq<FreeRect>
    decreases h,
{
    if h <= 1 {
        free
    } else {
        let prev = with_holes(free, rotated, x, y, width, bottom, (h - 1) as nat);
        let k = h - 1;
        let pts = rotated[k].points@;
        if winding(rotated, 0) != 0 && winding(rotated, k) != winding(rotated, 0) && pts.len() >= 3 {
            let hb = crate::nfp::bounds_of(pts);
            let hx = x + hb.x;
            let hy = y + hb.y;
            if hx >= 0 && hy >= 0 && hx + hb.width <= width && hy + hb.height <= bottom {
                prev.insert(0, FreeRect { x: hx as i64, y: hy as i64, width: hb.width, height: hb.height })
            } else {
                prev
            }
        } else {
            prev
        }
    }
}

/// Every free rectangle lies in the first `bins` bins.
spec fn rects_ok(free: Seq<FreeRect>, w: int, bottom: int) -> bool {
    forall|i: int|
        0 <= i < free.len() ==> {
            let r = #[trigger] free[i];
            &&& 0 <= r.x && 0 <= r.y && 0 <= r.width && 0 <= r.height
            &&& r.x + r.width <= w
            &&& r.y + r.height <= bottom
        }
}

/// The genes that have a box, in order, as (part, step).
pub open spec fn boxed_genes(parts: Seq<Part>, genes: Seq<usize>, turns: Seq<usize>, k: nat) -> Seq<(usize, usize)>
    decreases k,
{
    if k == 0 {
        Seq::empty()
    } else {
        let prev = boxed_genes(parts, genes, turns, (k - 1) as nat);
        if gene_box(parts, genes[k - 1] as int, turns[k - 1] as int) is Some {
            prev.push((genes[k - 1], turns[k - 1]))
        } else {
            prev
        }
    }
}

pub open spec fn genes_of(pl: Seq<Placement>) -> Seq<(usize, usize)> {
    pl.map_values(|p: Placement| (p.idx, p.turn))
}

/// Some placement blocks part `idx` at step `turn` at `(x, y)`.
pub open spec fn any_blocked(parts: Seq<Part>, pl: Seq<Placement>, idx: int, turn: int, x: int, y: int) -> bool {
    exists|j: int| 0 <= j < pl.len() && blocked_by(parts, #[trigger] pl[j], idx, turn, x, y)
}

/// Free rectangle `i` is large enough for the box `b` and the part collides
/// with nothing placed at its corner.
pub open spec fn rect_takes(parts: Seq<Part>, pl: Seq<Placement>, free: Seq<FreeRect>, i: int, b: Bounds, idx: int, turn: int) -> bool {
    let r = free[i];
    &&& b.width <= r.width && b.height <= r.height
    &&& !any_blocked(parts, pl, idx, turn, r.x as int, r.y as int)
}

/// The first free rectangle from `i` on that takes the part, or -1.
pub open spec fn first_fit(parts: Seq<Part>, pl: Seq<Placement>, free: Seq<FreeRect>, b: Bounds, idx: int, turn: int, i: int) -> int
    decreases free.len() - i,
{
    if i < 0 || i >= free.len() {
        -1
    } else if rect_takes(parts, pl, free, i, b, idx, turn) {
        i
    } else {
        first_fit(parts, pl, free, b, idx, turn, i + 1)
    }
}

/// The free list once a part with box `b` takes rectangle `i`: the
/// rectangle is removed, and the strips right of and below the part (past
/// the spacing) are added when not empty.
pub open spec fn after_place(free: Seq<FreeRect>, i: int, b: Bounds, sp: int) -> Seq<FreeRect> {
    let r = free[i];
    let f1 = free.remove(i);
    let rw = r.width - b.width - sp;
    let f2 = if rw > 0 {
        f1.push(FreeRect { x: (r.x + b.width + sp) as i64, y: r.y, width: rw as i64, height: b.height })
    } else {
        f1
    };
    let bh = r.height - b.height - sp;
    if bh > 0 {
        f2.push(FreeRect { x: r.x, y: (r.y + b.height + sp) as i64, width: r.width, height: bh as i64 })
    } else {
        f2
    }
}

/// State of the maximal-rectangle layout: free rectangles, bins opened,
/// placements.
pub type RectState = (Seq<FreeRect>, int, Seq<Placement>);

/// Places part `idx` at step `turn` (box `b`): in the first rectangle that
/// takes it, or else after opening a new bin, at most `fuel` more times.
pub open spec fn place_gene(
    parts: Seq<Part>,
    st: RectState,
    idx: usize,
    turn: usize,
    b: Bounds,
    bin: Bounds,
    sp: int,
    use_holes: bool,
    fuel: nat,
) -> Option<RectState>
    decreases fuel,
{
    let (free, bins, pl) = st;
    let i = first_fit(parts, pl, free, b, idx as int, turn as int, 0);
    if i >= 0 {
        let r = free[i];
        let f = after_place(free, i, b, sp);
        let sh = shape(parts, idx as int, turn as int);
        let f2 = if use_holes {
            with_holes(f, sh, r.x as int, r.y as int, bin.width as int, bin.height * bins, sh.len())
        } else {
            f
        };
        Some((f2, bins, pl.push(Placement { idx, turn, x: r.x, y: r.y })))
    } else if fuel == 0 {
        None
    } else {
        place_gene(
            parts,
            (free.push(FreeRect { x: 0, y: (bin.height * bins) as i64, width: bin.width, height: bin.height }), bins + 1, pl),
            idx,
            turn,
            b,
            bin,
            sp,
            use_holes,
            (fuel - 1) as nat,
        )
    }
}

/// The maximal-rectangle layout after the first `k` genes; `None` once a
/// part is larger than the bin or cannot be placed.
pub open spec fn rects_fold(
    parts: Seq<Part>,
    genes: Seq<usize>,
    turns: Seq<usize>,
    bin: Bounds,
    sp: int,
    use_holes: bool,
    k: nat,
) -> Option<RectState>
    decreases k,
{
    if k == 0 {
        Some((seq![FreeRect { x: 0, y: 0, width: bin.width, height: bin.height }], 1, Seq::empty()))
    } else {
        match rects_fold(parts, genes, turns, bin, sp, use_holes, (k - 1) as nat) {
            None => None,
            Some(st) => match gene_box(parts, genes[k - 1] as int, turns[k - 1] as int) {
                None => Some(st),
                Some(b) => if too_big(b, bin) {
                    None
                } else {
                    place_gene(parts, st, genes[k - 1], turns[k - 1], b, bin, sp, use_holes, 2)
                },
            },
        }
    }
}

proof fn lemma_rects_none(
    parts: Seq<Part>,
    genes: Seq<usize>,
    turns: Seq<usize>,
    bin: Bounds,
    sp: int,
    use_holes: bool,
    k: nat,
    n: nat,
)
    requires
        k <= n,
        rects_fold(parts, genes, turns, bin, sp, use_holes, k) is None,
    ensures
        rects_fold(parts, genes, turns, bin, sp, use_holes, n) is None,
    decreases n - k,
{
    if k < n {
        lemma_rects_none(parts, genes, turns, bin, sp, use_holes, k, (n - 1) as nat);
    }
}

/// The placements lie within the first `bins` bins, which are at least one.
pub open spec fn laid_in(pl: Seq<Placement>, bin: Bounds, bins: int) -> bool {
    &&& 1 <= bins
    &&& forall|k: int|
        0 <= k < pl.len() ==> 0 <= (#[trigger] pl[k]).x <= bin.width && 0 <= pl[k].y <= bin.height * bins
}

/// Lays the genes out by maximal free rectangles. Each part goes to the
/// first free rectangle, in list order, that is large enough and where it
/// collides with no placed part; the rectangle is replaced by the strips
/// right of and below the part, and with `use_holes` the boxes of the
/// part's holes are put first in the list. When no rectangle takes the
/// part a new bin is opened, at most twice for one part. `None` with no
/// placements when a part is larger than the bin or still unplaced.
fn layout_rects(
    genes: &Vec<usize>,
    turns: &Vec<usize>,
    parts: &Vec<Part>,
    bin: Bounds,
    spacing: i64,
    use_holes: bool,
) -> (r: (Option<i64>, Vec<Placement>))
    requires
        parts_ok(parts@),
        genes_ok(parts@, genes@, turns@),
        bin_ok(bin, spacing as int, genes@.len() as int),
    ensures
        !all_fit(parts@, genes@, turns@, bin, genes@.len() as int) ==> r.0 is None,
        r.0 is None ==> r.1@.len() == 0,
        r.0 is Some ==> {
            &&& no_overlap(parts@, r.1@)
            &&& genes_of(r.1@) == boxed_genes(parts@, genes@, turns@, genes@.len())
            &&& exists|bins: int| #[trigger] laid_in(r.1@, bin, bins) && r.0 == Some((bin.height * bins) as i64)
        },
        match rects_fold(parts@, genes@, turns@, bin, spacing as int, use_holes, genes@.len()) {
            None => r.0 is None,
            Some(st) => r.0 == Some((bin.height * st.1) as i64) && r.1@ == st.2,
        },
{
    let n = genes.len();
    let mut cache = NfpCache::new();
    let mut bins: i64 = 1;
    let mut free: Vec<FreeRect> = Vec::new();
    free.push(FreeRect { x: 0, y: 0, width: bin.width, height: bin.height });
    let mut placement: Vec<Placement> = Vec::new();
    let mut g: usize = 0;
    proof {
        lemma_height_bound(bin.height as int, 1, n as int);
    }
    while g < n
        invariant
            n == genes.len(),
            parts_ok(parts@),
            genes_ok(parts@, genes@, turns@),
            bin_ok(bin, spacing as int, n as int),
            g <= n,
            rects_fold(parts@, genes@, turns@, bin, spacing as int, use_holes, g as nat) == Some((free@, bins as int, placement@)),
            all_fit(parts@, genes@, turns@, bin, g as int),
            no_overlap(parts@, placement@),
            genes_of(placement@) == boxed_genes(parts@, genes@, turns@, g as nat),
            forall|j: int| 0 <= j < placement@.len() ==> placement_ok(parts@, #[trigger] placement@[j]),
            forall|j: int|
                0 <= j < placement@.len() ==> 0 <= (#[trigger] placement@[j]).x <= bin.width && 0
                    <= placement@[j].y <= bin.height * bins,
            1 <= bins <= 2 * g + 1,
            bin.height * bins <= POS_LIMIT,
            rects_ok(free@, bin.width as int, bin.height * bins),
            cache.wf(),
            cache_ok(parts@, cache@),
        decreases n - g,
    {
        let idx = genes[g];
        let turn = turns[g];
        assert(gene_ok(parts@, idx as int, turn as int));
        assert(parts@[idx as int].wf());
        let ob = parts[idx].bounds_rotated(turn);
        match ob {
            None => {
                proof {
                    lemma_no_box(shape(parts@, idx as int, turn as int));
                }
                assert(gene_box(parts@, idx as int, turn as int) is None);
                assert(all_fit(parts@, genes@, turns@, bin, g + 1));
            },
            Some(b) => {
                proof {
                    lemma_box_of(shape(parts@, idx as int, turn as int), b);
                    lemma_box_range(shape(parts@, idx as int, turn as int), b);
                }
                assert(gene_box(parts@, idx as int, turn as int) == Some(b));
                if b.width > bin.width || b.height > bin.height {
                    proof {
                        assert(!all_fit(parts@, genes@, turns@, bin, n as int)) by {
                            assert(gene_box(parts@, genes@[g as int] as int, turns@[g as int] as int) == Some(b));
                        }
                        lemma_rects_none(parts@, genes@, turns@, bin, spacing as int, use_holes, (g + 1) as nat, n as nat);
                    }
                    return (None, Vec::new());
                }
                assert(all_fit(parts@, genes@, turns@, bin, g + 1));
                assert(some_counted(shape(parts@, idx as int, turn as int)));
                assert(shape(parts@, idx as int, turn as int).len() > 0);
                let rotated = parts[idx].rotated(turn);
                let mut opened: usize = 0;
                let mut done = false;
                let ghost target = rects_fold(parts@, genes@, turns@, bin, spacing as int, use_holes, (g + 1) as nat);
                assert(target == place_gene(parts@, (free@, bins as int, placement@), idx, turn, b, bin, spacing as int, use_holes, 2));
                while !done
                    invariant
                        target == rects_fold(parts@, genes@, turns@, bin, spacing as int, use_holes, (g + 1) as nat),
                        !done ==> place_gene(parts@, (free@, bins as int, placement@), idx, turn, b, bin, spacing as int, use_holes, (2 - opened) as nat) == target,
                        done ==> target == Some((free@, bins as int, placement@)),
                        n == genes.len(),
                        turns@.len() == n,
                        g < n,
                        idx == genes@[g as int],
                        turn == turns@[g as int],
                        rotated@ == shape(parts@, idx as int, turn as int),
                        crate::geometry::polys_pos_ok(rotated@),
                        rotated@.len() > 0,
                        0 <= b.width <= bin.width,
                        0 <= b.height <= bin.height,
                        gene_box(parts@, idx as int, turn as int) == Some(b),
                        parts_ok(parts@),
                        bin_ok(bin, spacing as int, n as int),
                        gene_ok(parts@, idx as int, turn as int),
                        opened <= 2,
                        !done ==> genes_of(placement@) == boxed_genes(parts@, genes@, turns@, g as nat),
                        done ==> genes_of(placement@) == boxed_genes(parts@, genes@, turns@, (g + 1) as nat),
                        no_overlap(parts@, placement@),
                        forall|j: int| 0 <= j < placement@.len() ==> placement_ok(parts@, #[trigger] placement@[j]),
                        forall|j: int|
                            0 <= j < placement@.len() ==> 0 <= (#[trigger] placement@[j]).x <= bin.width && 0
                                <= placement@[j].y <= bin.height * bins,
                        1 <= bins <= 2 * g + 1 + opened,
                        bin.height * bins <= POS_LIMIT,
                        rects_ok(free@, bin.width as int, bin.height * bins),
                        cache.wf(),
                        cache_ok(parts@, cache@),
                    decreases 3 - opened - (if done { 1int } else { 0int }),
                {
                    let mut i: usize = 0;
                    let ghost st0: RectState = (free@, bins as int, placement@);
                    while i < free.len() && !done
                        invariant
                            target == rects_fold(parts@, genes@, turns@, bin, spacing as int, use_holes, (g + 1) as nat),
                            opened <= 2,
                            !done ==> (free@, bins as int, placement@) == st0,
                            !done ==> first_fit(parts@, st0.2, st0.0, b, idx as int, turn as int, 0) == first_fit(parts@, st0.2, st0.0, b, idx as int, turn as int, i as int),
                            !done ==> place_gene(parts@, st0, idx, turn, b, bin, spacing as int, use_holes, (2 - opened) as nat) == target,
                            done ==> target == Some((free@, bins as int, placement@)),
                            n == genes.len(),
                            turns@.len() == n,
                            !done ==> i <= free.len(),
                            g < n,
                            idx == genes@[g as int],
                            turn == turns@[g as int],
                            rotated@ == shape(parts@, idx as int, turn as int),
                            crate::geometry::polys_pos_ok(rotated@),
                            rotated@.len() > 0,
                            0 <= b.width <= bin.width,
                            0 <= b.height <= bin.height,
                            gene_box(parts@, idx as int, turn as int) == Some(b),
                            parts_ok(parts@),
                            bin_ok(bin, spacing as int, n as int),
                            gene_ok(parts@, idx as int, turn as int),
                            !done ==> genes_of(placement@) == boxed_genes(parts@, genes@, turns@, g as nat),
                            done ==> genes_of(placement@) == boxed_genes(parts@, genes@, turns@, (g + 1) as nat),
                            no_overlap(parts@, placement@),
                            forall|j: int| 0 <= j < placement@.len() ==> placement_ok(parts@, #[trigger] placement@[j]),
                            forall|j: int|
                                0 <= j < placement@.len() ==> 0 <= (#[trigger] placement@[j]).x <= bin.width && 0
                                    <= placement@[j].y <= bin.height * bins,
                            1 <= bins,
                            bin.height * bins <= POS_LIMIT,
                            rects_ok(free@, bin.width as int, bin.height * bins),
                            cache.wf(),
                            cache_ok(parts@, cache@),
                        decreases (if done { 0int } else { free.len() - i + 1 }),
                    {
                        let rect = free[i];
                        assert(rects_ok(free@, bin.width as int, bin.height * bins));
                        assert(0 <= rect.x && 0 <= rect.y && rect.x + rect.width <= bin.width && rect.y + rect.height <= bin.height * bins) by {
                            assert(free@[i as int] == rect);
                        }
                        if b.width <= rect.width && b.height <= rect.height {
                            let x = rect.x;
                            let y = rect.y;
                            assert(candidate_ok(parts@, idx as int, turn as int, x as int, y as int));
                            let mut collide = false;
                            let mut j: usize = 0;
                            while j < placement.len() && !collide
                                invariant
                                    parts_ok(parts@),
                                    forall|q: int| 0 <= q < placement@.len() ==> placement_ok(parts@, #[trigger] placement@[q]),
                                    candidate_ok(parts@, idx as int, turn as int, x as int, y as int),
                                    j <= placement.len(),
                                    collide ==> j < placement.len() && blocked_by(parts@, placement@[j as int], idx as int, turn as int, x as int, y as int),
                                    forall|q: int| 0 <= q < j ==> !blocked_by(parts@, #[trigger] placement@[q], idx as int, turn as int, x as int, y as int),
                                    cache.wf(),
                                    cache_ok(parts@, cache@),
                                decreases placement.len() - j + (if collide { 0int } else { 1int }),
                            {
                                if blocked(parts, &mut cache, placement[j], idx, turn, x, y) {
                                    collide = true;
                                } else {
                                    j = j + 1;
                                }
                            }
                            if collide {
                                assert(any_blocked(parts@, placement@, idx as int, turn as int, x as int, y as int));
                                assert(!rect_takes(parts@, st0.2, st0.0, i as int, b, idx as int, turn as int));
                            }
                            if !collide {
                                assert(!any_blocked(parts@, placement@, idx as int, turn as int, x as int, y as int));
                                assert(rect_takes(parts@, st0.2, st0.0, i as int, b, idx as int, turn as int));
                                assert(first_fit(parts@, st0.2, st0.0, b, idx as int, turn as int, 0) == i);
                                let np = Placement { idx, turn, x, y };
                                let ghost before = placement@;
                                placement.push(np);
                                assert forall|j1: int, k1: int| 0 <= j1 < k1 < placement@.len() implies !blocked_by(
                                    parts@,
                                    #[trigger] placement@[j1],
                                    (#[trigger] placement@[k1]).idx as int,
                                    placement@[k1].turn as int,
                                    placement@[k1].x as int,
                                    placement@[k1].y as int,
                                ) by {
                                    if k1 < before.len() {
                                        assert(placement@[j1] == before[j1]);
                                        assert(placement@[k1] == before[k1]);
                                    }
                                }
                                assert(genes_of(placement@) =~= genes_of(before).push((idx, turn)));
                                free.remove(i);
                                let right_w = rect.width - b.width - spacing;
                                if right_w > 0 {
                                    free.push(FreeRect { x: x + b.width + spacing, y, width: right_w, height: b.height });
                                }
                                let bottom_h = rect.height - b.height - spacing;
                                if bottom_h > 0 {
                                    free.push(FreeRect { x, y: y + b.height + spacing, width: rect.width, height: bottom_h });
                                }
                                assert(free@ == after_place(st0.0, i as int, b, spacing as int));
                                if use_holes {
                                    add_hole_rects(&mut free, rotated, x, y, bin.width, bin.height * bins);
                                }
                                done = true;
                            }
                        }
                        if !done {
                            assert(!rect_takes(parts@, st0.2, st0.0, i as int, b, idx as int, turn as int));
                            i = i + 1;
                        }
                    }
                    if !done {
                        assert(first_fit(parts@, st0.2, st0.0, b, idx as int, turn as int, i as int) == -1);
                        if opened == 2 {
                            proof {
                                lemma_rects_none(parts@, genes@, turns@, bin, spacing as int, use_holes, (g + 1) as nat, n as nat);
                            }
                            return (None, Vec::new());
                        }
                        proof {
                            lemma_height_bound(bin.height as int, (bins + 1) as int, n as int);
                        }
                        free.push(FreeRect { x: 0, y: bin.height * bins, width: bin.width, height: bin.height });
                        bins = bins + 1;
                        opened = opened + 1;
                        assert(place_gene(parts@, (free@, bins as int, placement@), idx, turn, b, bin, spacing as int, use_holes, (2 - opened) as nat) == target);
                    }
                }
            },
        }
        g = g + 1;
    }
    assert(laid_in(placement@, bin, bins as int));
    (Some(bin.height * bins), placement)
}

/// Puts the box of each hole of the part placed at `(x, y)` first in the
/// free list, when it lies in the bins' area.
fn add_hole_rects(free: &mut Vec<FreeRect>, rotated: &Vec<Polygon>, x: i64, y: i64, width: i64, bottom: i64)
    requires
        rects_ok(old(free)@, width as int, bottom as int),
        crate::geometry::polys_pos_ok(rotated@),
        rotated@.len() > 0,
        pos_ok(x as int) && pos_ok(y as int),
        0 <= width <= POS_LIMIT,
        0 <= bottom <= POS_LIMIT,
    ensures
        rects_ok(final(free)@, width as int, bottom as int),
        final(free)@ == with_holes(old(free)@, rotated@, x as int, y as int, width as int, bottom as int, rotated@.len()),
{
    let ghost f0 = free@;
    let orient = winding_of(rotated, 0);
    let mut h: usize = 1;
    while h < rotated.len()
        invariant
            free@ == with_holes(f0, rotated@, x as int, y as int, width as int, bottom as int, h as nat),
            orient == winding(rotated@, 0),
            rects_ok(free@, width as int, bottom as int),
            crate::geometry::polys_pos_ok(rotated@),
            1 <= h <= rotated.len(),
            pos_ok(x as int) && pos_ok(y as int),
            0 <= width <= POS_LIMIT,
            0 <= bottom <= POS_LIMIT,
        decreases rotated.len() - h,
    {
        let wd = winding_of(rotated, h);
        if orient != 0 && wd != orient {
            assert(ring_pos_ok(rotated@[h as int].points@));
            proof {
                lemma_pos_ring_ok(rotated@[h as int].points@);
            }
            match crate::geometry::get_polygon_bounds(&rotated[h].points) {
                Some(hb) => {
                    proof {
                        crate::nfp::lemma_bounds_pos(rotated@[h as int].points@, hb);
                        crate::nfp::lemma_bounds_unique(rotated@[h as int].points@, hb);
                    }
                    let hx = x + hb.x;
                    let hy = y + hb.y;
                    if hx >= 0 && hy >= 0 && hx + hb.width <= width && hy + hb.height <= bottom {
                        let ghost before = free@;
                        free.insert(0, FreeRect { x: hx, y: hy, width: hb.width, height: hb.height });
                        assert forall|i: int| 0 <= i < free@.len() implies {
                            let r = #[trigger] free@[i];
                            &&& 0 <= r.x && 0 <= r.y && 0 <= r.width && 0 <= r.height
                            &&& r.x + r.width <= width
                            &&& r.y + r.height <= bottom
                        } by {
                            if i > 0 {
                                assert(free@[i] == before[i - 1]);
                            }
                        }
                    }
                },
                None => {},
            }
        }
        h = h + 1;
    }
}

/// An order of the parts with a rotation step for each, and its fitness
/// (lower is better; `INFEASIBLE` when it cannot be laid out or was not
/// evaluated yet).
#[derive(Clone, Debug)]
pub struct Individual {
    pub placement: Vec<usize>,
    pub rotation: Vec<usize>,
    pub fitness: u128,
}

/// The fitness of an individual that has no layout.
pub const INFEASIBLE: u128 = u128::MAX;

/// The layout of the genes under the configured strategy: the linear shelf
/// (`shelf`), or maximal free rectangles (`rects_fold`) when
/// `explore_concave` is set.
pub open spec fn layout_spec(
    parts: Seq<Part>,
    genes: Seq<usize>,
    turns: Seq<usize>,
    bin: Bounds,
    config: GAConfig,
    r: (Option<i64>, Seq<Placement>),
) -> bool {
    &&& r.0 is None ==> r.1.len() == 0
    &&& !all_fit(parts, genes, turns, bin, genes.len() as int) ==> r.0 is None
    &&& r.0 is Some ==> no_overlap(parts, r.1)
    &&& r.0 is Some ==> genes_of(r.1) == boxed_genes(parts, genes, turns, genes.len())
    &&& r.0 is Some ==> exists|bins: int| #[trigger] laid_in(r.1, bin, bins) && r.0 == Some((bin.height * bins) as i64)
    &&& !config.explore_concave ==> {
        let (_, _, bins, pl) = shelf(parts, genes, turns, bin, config.spacing as int, genes.len());
        let feasible = all_fit(parts, genes, turns, bin, genes.len() as int) && no_overlap(parts, pl);
        &&& r.0 is Some <==> feasible
        &&& feasible ==> r.0 == Some((bin.height * bins) as i64) && r.1 == pl
    }
    &&& config.explore_concave ==> match rects_fold(parts, genes, turns, bin, config.spacing as int, config.use_holes, genes.len()) {
        None => r.0 is None,
        Some(st) => r.0 == Some((bin.height * st.1) as i64) && r.1 == st.2,
    }
}

proof fn lemma_shelf_facts(parts: Seq<Part>, genes: Seq<usize>, turns: Seq<usize>, bin: Bounds, sp: int, k: nat)
    requires
        0 <= bin.height,
        0 <= bin.width,
        0 <= sp,
        k <= genes.len(),
        bin_ok(bin, sp, genes.len() as int),
        all_fit(parts, genes, turns, bin, k as int),
        parts_ok(parts),
        genes_ok(parts, genes, turns),
    ensures
        ({
            let (x, y, bins, pl) = shelf(parts, genes, turns, bin, sp, k);
            &&& genes_of(pl) == boxed_genes(parts, genes, turns, k)
            &&& 1 <= bins <= k + 1
            &&& y == bin.height * (bins - 1)
            &&& 0 <= x
            &&& forall|j: int| 0 <= j < pl.len() ==> 0 <= (#[trigger] pl[j]).x <= bin.width && 0 <= pl[j].y as int <= y
        }),
    decreases k,
{
    if k > 0 {
        lemma_shelf_facts(parts, genes, turns, bin, sp, (k - 1) as nat);
        let (x, y, bins, pl) = shelf(parts, genes, turns, bin, sp, (k - 1) as nat);
        let (x2, y2, bins2, pl2) = shelf(parts, genes, turns, bin, sp, k);
        assert(all_fit(parts, genes, turns, bin, k - 1));
        let gb = gene_box(parts, genes[k - 1] as int, turns[k - 1] as int);
        assert(bin.height * (bins - 1) + bin.height == bin.height * bins) by (nonlinear_arith);
        lemma_height_bound(bin.height as int, bins + 1, genes.len() as int);
        lemma_height_bound(bin.height as int, bins, genes.len() as int);
        match gb {
            None => {},
            Some(b) => {
                let sh = shape(parts, genes[k - 1] as int, turns[k - 1] as int);
                assert(exists|c: Bounds| is_bounds_of_all(sh, c));
                assert(is_bounds_of_all(sh, b));
                assert(!too_big(b, bin));
                assert(parts[genes[k - 1] as int].wf());
                assert(gene_ok(parts, genes[k - 1] as int, turns[k - 1] as int));
                crate::geometry::lemma_box_range(shape(parts, genes[k - 1] as int, turns[k - 1] as int), b);
                assert(genes_of(pl2) =~= genes_of(pl).push((genes[k - 1], turns[k - 1])));
                let (x1, y1) = if x + b.width >= bin.width {
                    (0int, y + bin.height)
                } else {
                    (x, y)
                };
                assert(0 <= x1 <= bin.width);
                assert(0 <= y1 <= POS_LIMIT);
                assert(pl2 == pl.push(Placement { idx: genes[k - 1], turn: turns[k - 1], x: x1 as i64, y: y1 as i64 }));
                assert forall|j: int| 0 <= j < pl2.len() implies 0 <= (#[trigger] pl2[j]).x <= bin.width && 0 <= pl2[j].y as int <= y2 by {
                    if j < pl.len() {
                        assert(pl2[j] == pl[j]);
                    }
                }
            },
        }
    }
}

/// Lays the genes out under the configured strategy. `None` (infeasible)
/// with no placements when a part is larger than the bin or collides;
/// else the total height, `bin height * bins`, and the placements in order.
pub fn layout(ind: &Individual, parts: &Vec<Part>, bin_bounds: Bounds, config: GAConfig) -> (r: (Option<i64>, Vec<Placement>))
    requires
        parts_ok(parts@),
        genes_ok(parts@, ind.placement@, ind.rotation@),
        bin_ok(bin_bounds, config.spacing as int, ind.placement@.len() as int),
    ensures
        layout_spec(parts@, ind.placement@, ind.rotation@, bin_bounds, config, (r.0, r.1@)),
{
    if !config.explore_concave {
        let r = layout_shelf(&ind.placement, &ind.rotation, parts, bin_bounds, config.spacing);
        proof {
            let n = ind.placement@.len();
            if r.0 is Some {
                lemma_shelf_facts(parts@, ind.placement@, ind.rotation@, bin_bounds, config.spacing as int, n);
                let (x, y, bins, pl) = shelf(parts@, ind.placement@, ind.rotation@, bin_bounds, config.spacing as int, n);
                assert(bin_bounds.height * (bins - 1) + bin_bounds.height == bin_bounds.height * bins) by (nonlinear_arith);
                assert(laid_in(r.1@, bin_bounds, bins));
            }
        }
        r
    } else {
        layout_rects(&ind.placement, &ind.rotation, parts, bin_bounds, config.spacing, config.use_holes)
    }
}

/// Index of the bin that a placement at height `y` lies in.
pub open spec fn bin_index(y: int, h: int) -> int {
    if h > 0 {
        y / h
    } else {
        0
    }
}

/// First entry of the table from `i` on whose bin is `bi`, or -1.
pub open spec fn find_bin(t: Seq<(int, int)>, bi: int, i: int) -> int
    decreases t.len() - i,
{
    if i >= t.len() || i < 0 {
        -1
    } else if t[i].0 == bi {
        i
    } else {
        find_bin(t, bi, i + 1)
    }
}

/// For each bin in use, in order of first use, the largest right edge
/// `x + width` of the first `k` placements in it.
pub open spec fn width_table(parts: Seq<Part>, pl: Seq<Placement>, h: int, k: nat) -> Seq<(int, int)>
    decreases k,
{
    if k == 0 {
        Seq::empty()
    } else {
        let t = width_table(parts, pl, h, (k - 1) as nat);
        let p = pl[k - 1];
        let w = p.x + box_of(shape(parts, p.idx as int, p.turn as int)).width;
        let bi = bin_index(p.y as int, h);
        let f = find_bin(t, bi, 0);
        if f >= 0 {
            if w > t[f].1 {
                t.update(f, (bi, w))
            } else {
                t
            }
        } else {
            t.push((bi, w))
        }
    }
}

pub open spec fn sum_widths(t: Seq<(int, int)>, k: nat) -> int
    decreases k,
{
    if k == 0 {
        0
    } else {
        sum_widths(t, (k - 1) as nat) + t[k - 1].1
    }
}

/// The fitness scaled by the bin's area: `(bins used + 2 * unplaceable) *
/// area + the sum over bins of the width used`, or `INFEASIBLE`. Divided by
/// the area it is `bins + sum of width / area + 2 * unplaceable`.
pub open spec fn score_spec(parts: Seq<Part>, bin: Bounds, unplaceable: int, height: Option<i64>, pl: Seq<Placement>) -> int {
    match height {
        None => INFEASIBLE as int,
        Some(_) => {
            let t = width_table(parts, pl, bin.height as int, pl.len());
            (t.len() + 2 * unplaceable) * (bin.width * bin.height) + sum_widths(t, t.len())
        },
    }
}

/// Each placement is of a part and step that exist and have a box.
pub open spec fn placements_boxed(parts: Seq<Part>, pl: Seq<Placement>) -> bool {
    forall|k: int|
        0 <= k < pl.len() ==> gene_ok(parts, (#[trigger] pl[k]).idx as int, pl[k].turn as int)
            && gene_box(parts, pl[k].idx as int, pl[k].turn as int) is Some
}

proof fn lemma_table_bounds(parts: Seq<Part>, pl: Seq<Placement>, h: int, w: int, k: nat)
    requires
        k <= pl.len(),
        parts_ok(parts),
        placements_boxed(parts, pl),
        forall|j: int| 0 <= j < pl.len() ==> 0 <= (#[trigger] pl[j]).x <= w,
    ensures
        width_table(parts, pl, h, k).len() <= k,
        forall|i: int|
            0 <= i < width_table(parts, pl, h, k).len() ==> 0 <= (#[trigger] width_table(parts, pl, h, k)[i]).1
                <= w + 2 * POS_LIMIT,
    decreases k,
{
    if k > 0 {
        lemma_table_bounds(parts, pl, h, w, (k - 1) as nat);
        let p = pl[k - 1];
        let sh = shape(parts, p.idx as int, p.turn as int);
        assert(gene_ok(parts, p.idx as int, p.turn as int));
        assert(parts[p.idx as int].wf());
        assert(gene_box(parts, p.idx as int, p.turn as int) is Some);
        let b = box_of(sh);
        assert(exists|c: Bounds| is_bounds_of_all(sh, c));
        assert(is_bounds_of_all(sh, b));
        lemma_box_range(sh, b);
        let t = width_table(parts, pl, h, (k - 1) as nat);
        let f = find_bin(t, bin_index(p.y as int, h), 0);
        lemma_find_bin_range(t, bin_index(p.y as int, h), 0);
    }
}

proof fn lemma_find_bin_range(t: Seq<(int, int)>, bi: int, i: int)
    ensures
        find_bin(t, bi, i) == -1 || (0 <= i <= find_bin(t, bi, i) < t.len() && t[find_bin(t, bi, i)].0 == bi),
    decreases t.len() - i,
{
    if i >= 0 && i < t.len() && t[i].0 != bi {
        lemma_find_bin_range(t, bi, i + 1);
    }
}

proof fn lemma_sum_bound(t: Seq<(int, int)>, k: nat, m: int)
    requires
        k <= t.len(),
        0 <= m,
        forall|i: int| 0 <= i < t.len() ==> 0 <= (#[trigger] t[i]).1 <= m,
    ensures
        0 <= sum_widths(t, k) <= k * m,
    decreases k,
{
    if k > 0 {
        lemma_sum_bound(t, (k - 1) as nat, m);
        assert(0 <= t[k - 1].1 <= m);
        assert(sum_widths(t, k) == sum_widths(t, (k - 1) as nat) + t[k - 1].1);
        assert((k - 1) * m + m == k * m) by (nonlinear_arith);
    }
}

/// The score of a layout (see `score_spec`) of placements that came out of
/// `layout`, with `unplaceable` genes filtered out before it.
pub fn score_layout(parts: &Vec<Part>, bin: Bounds, unplaceable: usize, height: Option<i64>, pl: &Vec<Placement>) -> (f: u128)
    requires
        parts_ok(parts@),
        placements_boxed(parts@, pl@),
        forall|j: int| 0 <= j < pl@.len() ==> 0 <= (#[trigger] pl@[j]).x <= bin.width && 0 <= pl@[j].y,
        bin_ok(bin, 0, pl@.len() + unplaceable),
    ensures
        f == score_spec(parts@, bin, unplaceable as int, height, pl@),
{
    if height.is_none() {
        return INFEASIBLE;
    }
    let ghost h = bin.height as int;
    let mut table: Vec<(i64, i64)> = Vec::new();
    let mut k: usize = 0;
    while k < pl.len()
        invariant
            parts_ok(parts@),
            placements_boxed(parts@, pl@),
            forall|j: int| 0 <= j < pl@.len() ==> 0 <= (#[trigger] pl@[j]).x <= bin.width && 0 <= pl@[j].y,
            bin_ok(bin, 0, pl@.len() + unplaceable),
            h == bin.height,
            k <= pl.len(),
            table@.map_values(|e: (i64, i64)| (e.0 as int, e.1 as int)) == width_table(parts@, pl@, h, k as nat),
        decreases pl.len() - k,
    {
        let p = pl[k];
        assert(gene_ok(parts@, p.idx as int, p.turn as int));
        assert(parts@[p.idx as int].wf());
        let ob = parts[p.idx].bounds_rotated(p.turn);
        let b = match ob {
            Some(b) => b,
            None => {
                proof {
                    lemma_no_box(shape(parts@, p.idx as int, p.turn as int));
                }
                assert(false);
                return INFEASIBLE;
            },
        };
        proof {
            lemma_box_of(shape(parts@, p.idx as int, p.turn as int), b);
            lemma_box_range(shape(parts@, p.idx as int, p.turn as int), b);
        }
        let w = p.x + b.width;
        let bi: i64 = if bin.height > 0 {
            p.y / bin.height
        } else {
            0
        };
        let ghost t = width_table(parts@, pl@, h, k as nat);
        let ghost tv = table@.map_values(|e: (i64, i64)| (e.0 as int, e.1 as int));
        let mut i: usize = 0;
        let mut found = false;
        while i < table.len() && !found
            invariant
                tv == table@.map_values(|e: (i64, i64)| (e.0 as int, e.1 as int)),
                tv == t,
                i <= table.len(),
                found ==> i < table.len() && table@[i as int].0 == bi,
                find_bin(t, bi as int, 0) == if found { i as int } else { find_bin(t, bi as int, i as int) },
            decreases table.len() - i + (if found { 0int } else { 1int }),
        {
            if table[i].0 == bi {
                found = true;
            } else {
                i = i + 1;
            }
        }
        proof {
            lemma_find_bin_range(t, bi as int, i as int);
        }
        if found {
            if w > table[i].1 {
                table.set(i, (bi, w));
            }
        } else {
            table.push((bi, w));
        }
        assert(table@.map_values(|e: (i64, i64)| (e.0 as int, e.1 as int)) =~= width_table(parts@, pl@, h, (k + 1) as nat));
        k = k + 1;
    }
    let ghost t = width_table(parts@, pl@, h, pl@.len());
    proof {
        lemma_table_bounds(parts@, pl@, h, bin.width as int, pl@.len());
    }
    let mut sum: u128 = 0;
    let mut i: usize = 0;
    while i < table.len()
        invariant
            table@.map_values(|e: (i64, i64)| (e.0 as int, e.1 as int)) == t,
            t.len() <= pl@.len(),
            bin_ok(bin, 0, pl@.len() + unplaceable),
            forall|q: int| 0 <= q < t.len() ==> 0 <= (#[trigger] t[q]).1 <= bin.width + 2 * POS_LIMIT,
            i <= table.len(),
            sum == sum_widths(t, i as nat),
        decreases table.len() - i,
    {
        proof {
            lemma_sum_bound(t, (i + 1) as nat, bin.width + 2 * POS_LIMIT);
            assert((i + 1) * (bin.width + 2 * POS_LIMIT) <= POS_LIMIT * (3 * POS_LIMIT)) by (nonlinear_arith)
                requires
                    i + 1 <= POS_LIMIT,
                    0 <= bin.width <= POS_LIMIT,
            ;
            assert(t[i as int].1 == table@[i as int].1);
        }
        sum = sum + table[i].1 as u128;
        i = i + 1;
    }
    assert(bin.height <= POS_LIMIT) by (nonlinear_arith)
        requires
            0 <= bin.height,
            bin.height * (2 * (pl@.len() + unplaceable) + 3) <= POS_LIMIT,
    ;
    assert(bin.width * bin.height <= POS_LIMIT * POS_LIMIT) by (nonlinear_arith)
        requires
            0 <= bin.width <= POS_LIMIT,
            0 <= bin.height <= POS_LIMIT,
    ;
    let used = table.len() as u128 + 2 * unplaceable as u128;
    let area = bin.width as u128 * bin.height as u128;
    proof {
        let n = pl@.len() + unplaceable;
        assert(used <= 2 * n);
        assert(used * area <= 2 * n * (bin.width * bin.height)) by (nonlinear_arith)
            requires
                0 <= used <= 2 * n,
                area == bin.width * bin.height,
                0 <= area,
        ;
        assert(2 * n * (bin.width * bin.height) <= 2 * bin.width * (bin.height * (2 * n + 3))) by (nonlinear_arith)
            requires
                0 <= bin.width,
                0 <= bin.height,
                0 <= n,
        ;
        assert(2 * bin.width * (bin.height * (2 * n + 3)) <= 2 * POS_LIMIT * POS_LIMIT) by (nonlinear_arith)
            requires
                0 <= bin.width <= POS_LIMIT,
                0 <= bin.height * (2 * n + 3) <= POS_LIMIT,
        ;
        lemma_sum_bound(t, t.len(), bin.width + 2 * POS_LIMIT);
        assert(t.len() * (bin.width + 2 * POS_LIMIT) <= POS_LIMIT * (3 * POS_LIMIT)) by (nonlinear_arith)
            requires
                t.len() <= POS_LIMIT,
                0 <= bin.width <= POS_LIMIT,
        ;
    }
    used * area + sum
}

/// Part `idx` at step `turn` has a box no wider and no taller than the bin.
pub open spec fn gene_fits(parts: Seq<Part>, idx: int, turn: int, bin: Bounds) -> bool {
    match gene_box(parts, idx, turn) {
        Some(b) => !too_big(b, bin),
        None => false,
    }
}

/// The first `k` genes that fit the bin, in order (parts, steps).
pub open spec fn kept(parts: Seq<Part>, genes: Seq<usize>, turns: Seq<usize>, bin: Bounds, k: nat) -> (Seq<usize>, Seq<usize>)
    decreases k,
{
    if k == 0 {
        (Seq::empty(), Seq::empty())
    } else {
        let (g, t) = kept(parts, genes, turns, bin, (k - 1) as nat);
        if gene_fits(parts, genes[k - 1] as int, turns[k - 1] as int, bin) {
            (g.push(genes[k - 1]), t.push(turns[k - 1]))
        } else {
            (g, t)
        }
    }
}

/// What `evaluate_static` returns for a layout `r` of the kept genes.
pub open spec fn fitness_of(parts: Seq<Part>, genes: Seq<usize>, turns: Seq<usize>, bin: Bounds, r: (Option<i64>, Seq<Placement>)) -> int {
    let (kg, _) = kept(parts, genes, turns, bin, genes.len());
    score_spec(parts, bin, genes.len() - kg.len(), r.0, r.1)
}

pub proof fn lemma_bin_ok_mono(bin: Bounds, sp: int, m: int, n: int)
    requires
        0 <= m <= n,
        bin_ok(bin, sp, n),
    ensures
        bin_ok(bin, sp, m),
{
    assert(bin.height * (2 * m + 3) <= bin.height * (2 * n + 3)) by (nonlinear_arith)
        requires
            0 <= bin.height,
            m <= n,
    ;
}

proof fn lemma_boxed_genes(parts: Seq<Part>, genes: Seq<usize>, turns: Seq<usize>, k: nat)
    requires
        genes_ok(parts, genes, turns),
        k <= genes.len(),
    ensures
        boxed_genes(parts, genes, turns, k).len() <= k,
        forall|i: int|
            0 <= i < boxed_genes(parts, genes, turns, k).len() ==> gene_ok(parts, (#[trigger] boxed_genes(parts, genes, turns, k)[i]).0 as int, boxed_genes(parts, genes, turns, k)[i].1 as int)
                && gene_box(parts, boxed_genes(parts, genes, turns, k)[i].0 as int, boxed_genes(parts, genes, turns, k)[i].1 as int) is Some,
    decreases k,
{
    if k > 0 {
        lemma_boxed_genes(parts, genes, turns, (k - 1) as nat);
        assert(gene_ok(parts, genes[k - 1] as int, turns[k - 1] as int));
    }
}

pub proof fn lemma_kept_ok(parts: Seq<Part>, genes: Seq<usize>, turns: Seq<usize>, bin: Bounds, k: nat)
    requires
        genes_ok(parts, genes, turns),
        k <= genes.len(),
    ensures
        genes_ok(parts, kept(parts, genes, turns, bin, k).0, kept(parts, genes, turns, bin, k).1),
        kept(parts, genes, turns, bin, k).0.len() <= k,
        all_fit(parts, kept(parts, genes, turns, bin, k).0, kept(parts, genes, turns, bin, k).1, bin, kept(parts, genes, turns, bin, k).0.len() as int),
    decreases k,
{
    if k > 0 {
        lemma_kept_ok(parts, genes, turns, bin, (k - 1) as nat);
        let (g, t) = kept(parts, genes, turns, bin, (k - 1) as nat);
        let (g2, t2) = kept(parts, genes, turns, bin, k);
        assert(gene_ok(parts, genes[k - 1] as int, turns[k - 1] as int));
        assert forall|i: int| 0 <= i < g2.len() implies gene_ok(parts, #[trigger] g2[i] as int, t2[i] as int) by {
            if i < g.len() {
                assert(g2[i] == g[i] && t2[i] == t[i]);
            }
        }
        assert forall|i: int| 0 <= i < g2.len() implies match #[trigger] gene_box(parts, g2[i] as int, t2[i] as int) {
            Some(b) => !too_big(b, bin),
            None => true,
        } by {
            if i < g.len() {
                assert(g2[i] == g[i] && t2[i] == t[i]);
            }
        }
    }
}

/// The fitness of an individual (lower is better), scaled by the bin's area
/// (see `score_spec`): genes whose box does not fit the bin are dropped and
/// each adds a penalty of two bins; the rest are laid out; `INFEASIBLE`
/// when the layout fails.
pub fn evaluate_static(ind: &Individual, parts: &Vec<Part>, bin_bounds: Bounds, config: GAConfig) -> (f: u128)
    requires
        parts_ok(parts@),
        genes_ok(parts@, ind.placement@, ind.rotation@),
        bin_ok(bin_bounds, config.spacing as int, ind.placement@.len() as int),
    ensures
        exists|r: (Option<i64>, Seq<Placement>)|
            #[trigger] layout_spec(
                parts@,
                kept(parts@, ind.placement@, ind.rotation@, bin_bounds, ind.placement@.len()).0,
                kept(parts@, ind.placement@, ind.rotation@, bin_bounds, ind.placement@.len()).1,
                bin_bounds,
                config,
                r,
            ) && f == fitness_of(parts@, ind.placement@, ind.rotation@, bin_bounds, r),
{
    let n = ind.placement.len();
    let mut placement: Vec<usize> = Vec::new();
    let mut rotation: Vec<usize> = Vec::new();
    let mut unplaceable: usize = 0;
    let mut g: usize = 0;
    while g < n
        invariant
            n == ind.placement@.len(),
            parts_ok(parts@),
            genes_ok(parts@, ind.placement@, ind.rotation@),
            g <= n,
            (placement@, rotation@) == kept(parts@, ind.placement@, ind.rotation@, bin_bounds, g as nat),
            unplaceable == g - placement@.len(),
            placement@.len() <= g,
        decreases n - g,
    {
        let idx = ind.placement[g];
        let turn = ind.rotation[g];
        assert(gene_ok(parts@, idx as int, turn as int));
        assert(parts@[idx as int].wf());
        let mut keep = false;
        match parts[idx].bounds_rotated(turn) {
            Some(b) => {
                proof {
                    lemma_box_of(shape(parts@, idx as int, turn as int), b);
                }
                if b.width <= bin_bounds.width && b.height <= bin_bounds.height {
                    keep = true;
                }
            },
            None => {
                proof {
                    lemma_no_box(shape(parts@, idx as int, turn as int));
                }
            },
        }
        if keep {
            placement.push(idx);
            rotation.push(turn);
        } else {
            unplaceable = unplaceable + 1;
        }
        g = g + 1;
    }
    proof {
        lemma_kept_ok(parts@, ind.placement@, ind.rotation@, bin_bounds, n as nat);
        lemma_bin_ok_mono(bin_bounds, config.spacing as int, placement@.len() as int, n as int);
    }
    let filtered = Individual { placement, rotation, fitness: 0 };
    let (height, placed) = layout(&filtered, parts, bin_bounds, config);
    proof {
        let kg = filtered.placement@;
        let kt = filtered.rotation@;
        if height is Some {
            lemma_boxed_genes(parts@, kg, kt, kg.len());
            let bx = boxed_genes(parts@, kg, kt, kg.len());
            assert forall|k: int| 0 <= k < placed@.len() implies gene_ok(parts@, (#[trigger] placed@[k]).idx as int, placed@[k].turn as int)
                && gene_box(parts@, placed@[k].idx as int, placed@[k].turn as int) is Some by {
                assert(genes_of(placed@)[k] == bx[k]);
            }
            let bins = choose|bins: int| #[trigger] laid_in(placed@, bin_bounds, bins) && height == Some((bin_bounds.height * bins) as i64);
            assert(laid_in(placed@, bin_bounds, bins));
            assert(placed@.len() == genes_of(placed@).len());
        }
        lemma_bin_ok_mono(bin_bounds, config.spacing as int, placed@.len() + unplaceable, n as int);
    }
    let f = score_layout(parts, bin_bounds, unplaceable, height, &placed);
    assert(layout_spec(parts@, filtered.placement@, filtered.rotation@, bin_bounds, config, (height, placed@)));
    f
}

} // verus!
