//! A part: an outer boundary and its holes, kept normalized in each of its
//! rotation steps.
use crate::geometry::{
    counted, get_polygons_bounds, has_vertex, is_bounds_of_all, is_min_x, is_min_y, is_vertex,
    min_x_of, min_y_of, normalize_polygons, normalized_from, polys_input_ok, polys_pos_ok,
    some_counted, vtx, Bounds, Polygon,
};
use vstd::prelude::*;

verus! {

/// The polygons of a part (index 0 the outer boundary, the rest holes), once
/// for each rotation step; step 0 is the part as drawn.
pub struct Part {
    turns: Vec<Vec<Polygon>>,
}

impl View for Part {
    type V = Seq<Seq<Polygon>>;

    closed spec fn view(&self) -> Self::V {
        self.turns@.map_values(|t: Vec<Polygon>| t@)
    }
}

impl Part {
    /// At least one step, and every step within range.
    pub open spec fn wf(&self) -> bool {
        &&& self@.len() >= 1
        &&& forall|t: int| 0 <= t < self@.len() ==> polys_pos_ok(#[trigger] self@[t])
    }

    /// A part from its polygons, normalized so that its least x and least y are 0.
    pub fn new(polys: Vec<Polygon>) -> (p: Part)
        requires
            polys_input_ok(polys@),
        ensures
            p.wf(),
            p@.len() == 1,
            normalized_from(polys@, p@[0]),
    {
        let mut polys = polys;
        normalize_polygons(&mut polys);
        let mut turns: Vec<Vec<Polygon>> = Vec::new();
        turns.push(polys);
        let p = Part { turns };
        assert(p@[0] == polys@);
        p
    }

    /// Adds the next rotation step: the part's polygons rotated by the step's
    /// angle, normalized here as a whole.
    pub fn add_turn(&mut self, polys: Vec<Polygon>)
        requires
            old(self).wf(),
            polys_input_ok(polys@),
        ensures
            final(self).wf(),
            final(self)@.len() == old(self)@.len() + 1,
            final(self)@.subrange(0, old(self)@.len() as int) == old(self)@,
            normalized_from(polys@, final(self)@[old(self)@.len() as int]),
    {
        let mut polys = polys;
        normalize_polygons(&mut polys);
        let ghost before = self@;
        self.turns.push(polys);
        assert(self@.subrange(0, before.len() as int) =~= before);
        assert(self@[before.len() as int] == polys@);
        assert forall|t: int| 0 <= t < self@.len() implies polys_pos_ok(#[trigger] self@[t]) by {
            if t < before.len() {
                assert(self@[t] == before[t]);
            }
        }
    }

    /// Number of rotation steps held.
    pub fn turn_count(&self) -> (n: usize)
        ensures
            n == self@.len(),
    {
        self.turns.len()
    }

    /// The polygons as drawn (step 0), normalized.
    pub fn polygons(&self) -> (r: &Vec<Polygon>)
        requires
            self.wf(),
        ensures
            r@ == self@[0],
    {
        &self.turns[0]
    }

    /// The polygons at rotation step `turn`, normalized as a whole.
    pub fn rotated(&self, turn: usize) -> (r: &Vec<Polygon>)
        requires
            turn < self@.len(),
        ensures
            r@ == self@[turn as int],
    {
        &self.turns[turn]
    }

    /// Bounding box of the part as drawn.
    pub fn bounds(&self) -> (r: Option<Bounds>)
        requires
            self.wf(),
        ensures
            r.is_none() <==> !some_counted(self@[0]),
            r matches Some(b) ==> is_bounds_of_all(self@[0], b),
    {
        assert(self@[0] == self.turns@[0]@);
        assert(polys_pos_ok(self@[0]));
        get_polygons_bounds(&self.turns[0])
    }

    /// Bounding box of the part at rotation step `turn`.
    pub fn bounds_rotated(&self, turn: usize) -> (r: Option<Bounds>)
        requires
            self.wf(),
            turn < self@.len(),
        ensures
            r.is_none() <==> !some_counted(self@[turn as int]),
            r matches Some(b) ==> is_bounds_of_all(self@[turn as int], b),
    {
        assert(self@[turn as int] == self.turns@[turn as int]@);
        assert(polys_pos_ok(self@[turn as int]));
        get_polygons_bounds(&self.turns[turn])
    }
}

/// Every polygon has at least three vertices, and there is one.
pub open spec fn non_degenerate(polys: Seq<Polygon>) -> bool {
    &&& polys.len() > 0
    &&& forall|k: int| 0 <= k < polys.len() ==> counted(polys, k)
}

/// A normalized part sits at the origin: when every polygon of the input has
/// at least three vertices, the bounding box of the normalized polygons has
/// its corner at `(0, 0)`.
pub proof fn lemma_normalized_bounds_at_origin(polys: Seq<Polygon>, normalized: Seq<Polygon>, b: Bounds)
    requires
        polys_input_ok(polys),
        non_degenerate(polys),
        normalized_from(polys, normalized),
        is_bounds_of_all(normalized, b),
    ensures
        b.x == 0,
        b.y == 0,
{
    assert(counted(polys, 0));
    assert(is_vertex(polys, 0, 0));
    assert(has_vertex(polys));
    let mx = min_x_of(polys);
    let my = min_y_of(polys);
    let (k1, i1) = choose|k: int, i: int| is_vertex(polys, k, i) && (#[trigger] vtx(polys, k, i)).x == mx;
    let (k2, i2) = choose|k: int, i: int| is_vertex(polys, k, i) && (#[trigger] vtx(polys, k, i)).y == my;
    assert(normalized[k1].points@.len() == polys[k1].points@.len());
    assert(counted(polys, k1));
    assert(is_vertex(normalized, k1, i1) && counted(normalized, k1));
    assert(vtx(normalized, k1, i1).x == 0);
    assert(normalized[k2].points@.len() == polys[k2].points@.len());
    assert(counted(polys, k2));
    assert(is_vertex(normalized, k2, i2) && counted(normalized, k2));
    assert(vtx(normalized, k2, i2).y == 0);
    let (k3, i3) = choose|k: int, i: int|
        is_vertex(normalized, k, i) && counted(normalized, k) && #[trigger] vtx(normalized, k, i).x == b.x;
    let (k4, i4) = choose|k: int, i: int|
        is_vertex(normalized, k, i) && counted(normalized, k) && #[trigger] vtx(normalized, k, i).y == b.y;
    assert(normalized[k3].points@.len() == polys[k3].points@.len());
    assert(is_vertex(polys, k3, i3));
    assert(vtx(polys, k3, i3).x >= mx);
    assert(normalized[k4].points@.len() == polys[k4].points@.len());
    assert(is_vertex(polys, k4, i4));
    assert(vtx(polys, k4, i4).y >= my);
}

} // verus!
