//! The genetic search over part orders and rotation steps.
use crate::geometry::{get_polygon_bounds, Bounds, Polygon};
use crate::nfp::bounds_of;
use crate::layout::{
    bin_ok, evaluate_static, fitness_of, genes_ok, kept, layout_spec, parts_ok, shape_box,
    too_big, GAConfig, Individual, Placement, INFEASIBLE,
};
use crate::part::Part;
use crate::order::{is_perm, order_by_key};
use crate::rng::{below, seeded, shuffle};
use rand::rngs::StdRng;
use rayon::iter::{IntoParallelRefMutIterator, ParallelIterator};
use vstd::prelude::*;

verus! {

broadcast use vstd::seq_lib::group_seq_properties, vstd::seq_lib::group_to_multiset_ensures;

/// Number of rotation steps: `rotations`, or the single step 0 when it is 0.
pub open spec fn steps(rotations: usize) -> nat {
    if rotations == 0 {
        1
    } else {
        rotations as nat
    }
}

/// A permutation of the `n` parts with one rotation step (the angle
/// `step * 360 / rotations` degrees) for each.
pub open spec fn individual_ok(ind: Individual, n: nat, rotations: usize) -> bool {
    &&& is_perm(ind.placement@, n)
    &&& ind.rotation@.len() == n
    &&& forall|i: int| 0 <= i < n ==> (#[trigger] ind.rotation@[i]) < steps(rotations)
}

/// The box of `part` at step `turn` fits in the bin.
pub open spec fn turn_fits(part: Part, turn: int, bin: Bounds) -> bool {
    match shape_box(part@[turn]) {
        Some(b) => !too_big(b, bin),
        None => false,
    }
}

/// A random rotation step for `part` whose box fits the bin: the steps are
/// tried in a shuffled order; 0 when none fits or `rotations` is 0.
fn random_angle(rng: &mut StdRng, part: &Part, bin: Bounds, rotations: usize) -> (r: usize)
    requires
        part.wf(),
        part@.len() >= steps(rotations),
    ensures
        step_ok(*part, r, bin, rotations),
{
    if rotations == 0 {
        return 0;
    }
    let mut order: Vec<usize> = Vec::new();
    let mut i: usize = 0;
    while i < rotations
        invariant
            i <= rotations,
            order@.len() == i,
            forall|j: int| 0 <= j < i ==> (#[trigger] order@[j]) == j,
        decreases rotations - i,
    {
        order.push(i);
        i = i + 1;
    }
    let ghost before = order@;
    shuffle(rng, &mut order);
    assert forall|s: usize| s < rotations implies order@.contains(s) by {
        assert(before[s as int] == s);
        assert(before.contains(s));
        assert(before.to_multiset().count(s) > 0);
    }
    assert forall|j: int| 0 <= j < order@.len() implies (#[trigger] order@[j]) < rotations by {
        assert(order@.contains(order@[j]));
        assert(before.to_multiset().count(order@[j]) > 0);
        assert(before.contains(order@[j]));
    }
    let mut k: usize = 0;
    while k < order.len()
        invariant
            part.wf(),
            part@.len() >= rotations,
            rotations > 0,
            k <= order@.len(),
            forall|j: int| 0 <= j < order@.len() ==> (#[trigger] order@[j]) < rotations,
            forall|s: usize| s < rotations ==> order@.contains(s),
            forall|j: int| 0 <= j < k ==> !turn_fits(*part, (#[trigger] order@[j]) as int, bin),
        decreases order.len() - k,
    {
        let s = order[k];
        assert(s < rotations);
        match part.bounds_rotated(s) {
            Some(b) => {
                proof {
                    crate::geometry::lemma_box_of(part@[s as int], b);
                }
                if b.width <= bin.width && b.height <= bin.height {
                    assert(turn_fits(*part, s as int, bin));
                    return s;
                }
            },
            None => {
                proof {
                    crate::layout::lemma_no_box(part@[s as int]);
                }
            },
        }
        k = k + 1;
    }
    proof {
        if exists|s: int| 0 <= s < steps(rotations) && turn_fits(*part, s, bin) {
            let s = choose|s: int| 0 <= s < steps(rotations) && turn_fits(*part, s, bin);
            assert(order@.contains(s as usize));
            let j = choose|j: int| 0 <= j < order@.len() && order@[j] == s as usize;
            assert(!turn_fits(*part, order@[j] as int, bin));
        }
    }
    0
}

fn copy_genes(v: &Vec<usize>) -> (r: Vec<usize>)
    ensures
        r@ == v@,
{
    let mut r: Vec<usize> = Vec::new();
    let mut i: usize = 0;
    while i < v.len()
        invariant
            i <= v.len(),
            r@ == v@.subrange(0, i as int),
        decreases v.len() - i,
    {
        r.push(v[i]);
        i = i + 1;
        assert(r@ =~= v@.subrange(0, i as int));
    }
    assert(r@ =~= v@);
    r
}

/// An individual with the same genes and the given fitness.
pub fn copy_individual(ind: &Individual) -> (r: Individual)
    ensures
        r.placement@ == ind.placement@,
        r.rotation@ == ind.rotation@,
        r.fitness == ind.fitness,
{
    Individual { placement: copy_genes(&ind.placement), rotation: copy_genes(&ind.rotation), fitness: ind.fitness }
}

/// Every part has a step for each rotation.
pub open spec fn turns_ok(parts: Seq<Part>, rotations: usize) -> bool {
    forall|i: int| 0 <= i < parts.len() ==> (#[trigger] parts[i])@.len() >= steps(rotations)
}

proof fn lemma_swap_perm(s: Seq<usize>, n: nat, i: int)
    requires
        is_perm(s, n),
        0 <= i,
        i + 1 < s.len(),
    ensures
        is_perm(s.update(i, s[i + 1]).update(i + 1, s[i]), n),
{
    let t = s.update(i, s[i + 1]).update(i + 1, s[i]);
    assert forall|a: int, b: int| 0 <= a < t.len() && 0 <= b < t.len() && a != b implies t[a] != t[b] by {
        let sa = if a == i { i + 1 } else if a == i + 1 { i } else { a };
        let sb = if b == i { i + 1 } else if b == i + 1 { i } else { b };
        assert(t[a] == s[sa] && t[b] == s[sb]);
    }
    assert forall|v: usize| v < n implies t.contains(v) by {
        assert(s.contains(v));
        let j = choose|j: int| 0 <= j < s.len() && s[j] == v;
        let tj = if j == i { i + 1 } else if j == i + 1 { i } else { j };
        assert(t[tj] == v);
    }
    assert forall|j: int| 0 <= j < t.len() implies (#[trigger] t[j]) < n by {
        let sj = if j == i { i + 1 } else if j == i + 1 { i } else { j };
        assert(t[j] == s[sj]);
    }
}

/// The genes after the first `k` positions of a mutation: at position `i`,
/// when `swaps[i]`, the part swaps with its right neighbour (if any); then,
/// when `steps[i]` holds a step, it becomes the rotation step at `i`.
pub open spec fn mutation_fold(p: Seq<usize>, r: Seq<usize>, swaps: Seq<bool>, steps: Seq<Option<usize>>, k: nat) -> (Seq<usize>, Seq<usize>)
    decreases k,
{
    if k == 0 {
        (p, r)
    } else {
        let (p0, r0) = mutation_fold(p, r, swaps, steps, (k - 1) as nat);
        let i = k - 1;
        let p1 = if swaps[i] && i + 1 < p0.len() {
            p0.update(i, p0[i + 1]).update(i + 1, p0[i])
        } else {
            p0
        };
        let r1 = match steps[i] {
            Some(s) => r0.update(i, s),
            None => r0,
        };
        (p1, r1)
    }
}

proof fn lemma_mutation_len(p: Seq<usize>, r: Seq<usize>, swaps: Seq<bool>, steps: Seq<Option<usize>>, k: nat)
    requires
        k <= r.len(),
    ensures
        mutation_fold(p, r, swaps, steps, k).0.len() == p.len(),
        mutation_fold(p, r, swaps, steps, k).1.len() == r.len(),
    decreases k,
{
    if k > 0 {
        lemma_mutation_len(p, r, swaps, steps, (k - 1) as nat);
    }
}

proof fn lemma_mutation_noop(p: Seq<usize>, r: Seq<usize>, swaps: Seq<bool>, steps: Seq<Option<usize>>, k: nat)
    requires
        k <= swaps.len(),
        k <= steps.len(),
        forall|i: int| 0 <= i < k ==> !swaps[i] && steps[i] is None,
    ensures
        mutation_fold(p, r, swaps, steps, k) == (p, r),
    decreases k,
{
    if k > 0 {
        lemma_mutation_noop(p, r, swaps, steps, (k - 1) as nat);
    }
}

/// `ind`'s genes with the given swap and rotation decisions applied, position
/// by position (see `mutation_fold`); not evaluated yet.
pub fn apply_mutation(ind: &Individual, swaps: &Vec<bool>, steps: &Vec<Option<usize>>) -> (r: Individual)
    requires
        ind.rotation@.len() == ind.placement@.len(),
        swaps@.len() == ind.placement@.len(),
        steps@.len() == ind.placement@.len(),
    ensures
        (r.placement@, r.rotation@) == mutation_fold(ind.placement@, ind.rotation@, swaps@, steps@, ind.placement@.len()),
        r.fitness == INFEASIBLE,
{
    let n = ind.placement.len();
    let mut placement = copy_genes(&ind.placement);
    let mut rotation = copy_genes(&ind.rotation);
    let mut i: usize = 0;
    while i < n
        invariant
            n == ind.placement@.len(),
            n == ind.rotation@.len(),
            swaps@.len() == n,
            steps@.len() == n,
            i <= n,
            (placement@, rotation@) == mutation_fold(ind.placement@, ind.rotation@, swaps@, steps@, i as nat),
        decreases n - i,
    {
        proof {
            lemma_mutation_len(ind.placement@, ind.rotation@, swaps@, steps@, i as nat);
        }
        if swaps[i] && i + 1 < n {
            let a = placement[i];
            let b = placement[i + 1];
            placement.set(i, b);
            placement.set(i + 1, a);
        }
        match steps[i] {
            Some(s) => {
                rotation.set(i, s);
            },
            None => {},
        }
        i = i + 1;
    }
    Individual { placement, rotation, fitness: INFEASIBLE }
}

/// Step `s` is one that `random_angle` may choose for `part`.
pub open spec fn step_ok(part: Part, s: usize, bin: Bounds, rotations: usize) -> bool {
    &&& s < steps(rotations)
    &&& (exists|t: int| 0 <= t < steps(rotations) && turn_fits(part, t, bin)) ==> turn_fits(part, s as int, bin)
    &&& !(exists|t: int| 0 <= t < steps(rotations) && turn_fits(part, t, bin)) ==> s == 0
}

/// The decisions of a mutation of `ind`: a swap and a new step (or none) at
/// each position, none at all at rate 0, all of them at rate 100 or more,
/// and each new step one that `random_angle` may choose for the part then at
/// that position.
pub open spec fn mutation_draws_ok(
    parts: Seq<Part>,
    bin: Bounds,
    config: GAConfig,
    ind: Individual,
    sw: Seq<bool>,
    st: Seq<Option<usize>>,
) -> bool {
    let n = ind.placement@.len();
    &&& sw.len() == n && st.len() == n
    &&& config.mutation_rate == 0 ==> forall|i: int| 0 <= i < n ==> !(#[trigger] sw[i]) && st[i] is None
    &&& config.mutation_rate >= 100 ==> forall|i: int| 0 <= i < n ==> (#[trigger] sw[i]) && st[i] is Some
    &&& forall|i: int|
        0 <= i < n ==> match #[trigger] st[i] {
            Some(s) => step_ok(
                parts[mutation_fold(ind.placement@, ind.rotation@, sw, st, (i + 1) as nat).0[i] as int],
                s,
                bin,
                config.rotations,
            ),
            None => true,
        }
}

/// `r` is a mutation of `ind`: its genes are `ind`'s under decisions that
/// `mutation_draws_ok` admits.
pub open spec fn mutation_of(parts: Seq<Part>, bin: Bounds, config: GAConfig, ind: Individual, r: Individual) -> bool {
    exists|sw: Seq<bool>, st: Seq<Option<usize>>|
        #[trigger] mutation_fold(ind.placement@, ind.rotation@, sw, st, ind.placement@.len()) == (r.placement@, r.rotation@)
            && mutation_draws_ok(parts, bin, config, ind, sw, st)
}

proof fn lemma_mutation_steps(p: Seq<usize>, r: Seq<usize>, swaps: Seq<bool>, st: Seq<Option<usize>>, k: nat, bound: nat)
    requires
        k <= r.len(),
        k <= st.len(),
        forall|j: int| 0 <= j < r.len() ==> (#[trigger] r[j]) < bound,
        forall|j: int| 0 <= j < k ==> match #[trigger] st[j] {
            Some(s) => s < bound,
            None => true,
        },
    ensures
        forall|j: int| 0 <= j < r.len() ==> (#[trigger] mutation_fold(p, r, swaps, st, k).1[j]) < bound,
    decreases k,
{
    lemma_mutation_len(p, r, swaps, st, k);
    if k > 0 {
        lemma_mutation_steps(p, r, swaps, st, (k - 1) as nat, bound);
        lemma_mutation_len(p, r, swaps, st, (k - 1) as nat);
        let prev = mutation_fold(p, r, swaps, st, (k - 1) as nat).1;
        assert forall|j: int| 0 <= j < r.len() implies (#[trigger] mutation_fold(p, r, swaps, st, k).1[j]) < bound by {
            assert(prev[j] < bound);
        }
    }
}

/// A mutation of `ind`: at each position, with probability `rate` percent
/// the part swaps with its right neighbour, and independently with
/// probability `rate` percent its rotation step is drawn again by
/// `random_angle`. The result is not evaluated yet.
fn mutate(rng: &mut StdRng, ind: &Individual, parts: &Vec<Part>, bin: Bounds, config: GAConfig) -> (r: Individual)
    requires
        parts_ok(parts@),
        turns_ok(parts@, config.rotations),
        individual_ok(*ind, parts@.len(), config.rotations),
    ensures
        individual_ok(r, parts@.len(), config.rotations),
        r.fitness == INFEASIBLE,
        mutation_of(parts@, bin, config, *ind, r),
        config.mutation_rate == 0 ==> r.placement@ == ind.placement@ && r.rotation@ == ind.rotation@,
{
    let n = ind.placement.len();
    let ghost p0 = ind.placement@;
    let ghost r0 = ind.rotation@;
    let mut placement = copy_genes(&ind.placement);
    let mut swaps: Vec<bool> = Vec::new();
    let mut new_steps: Vec<Option<usize>> = Vec::new();
    let mut i: usize = 0;
    while i < n
        invariant
            n == parts@.len(),
            n == p0.len(),
            n == r0.len(),
            p0 == ind.placement@,
            r0 == ind.rotation@,
            parts_ok(parts@),
            turns_ok(parts@, config.rotations),
            is_perm(placement@, n as nat),
            i <= n,
            swaps@.len() == i,
            new_steps@.len() == i,
            placement@ == mutation_fold(p0, r0, swaps@, new_steps@, i as nat).0,
            config.mutation_rate == 0 ==> forall|j: int| 0 <= j < i ==> !(#[trigger] swaps@[j]) && new_steps@[j] is None,
            config.mutation_rate >= 100 ==> forall|j: int| 0 <= j < i ==> (#[trigger] swaps@[j]) && new_steps@[j] is Some,
            forall|j: int|
                0 <= j < i ==> match #[trigger] new_steps@[j] {
                    Some(s) => step_ok(
                        parts@[mutation_fold(p0, r0, swaps@, new_steps@, (j + 1) as nat).0[j] as int],
                        s,
                        bin,
                        config.rotations,
                    ),
                    None => true,
                },
        decreases n - i,
    {
        let ghost sw0 = swaps@;
        let ghost st0 = new_steps@;
        proof {
            lemma_mutation_len(p0, r0, sw0, st0, i as nat);
        }
        let d1 = below(rng, 100);
        let swap = (d1 as usize) < config.mutation_rate;
        assert(config.mutation_rate >= 100 ==> swap);
        if swap && i + 1 < n {
            let a = placement[i];
            let b = placement[i + 1];
            proof {
                lemma_swap_perm(placement@, n as nat, i as int);
            }
            placement.set(i, b);
            placement.set(i + 1, a);
        }
        swaps.push(swap);
        let d2 = below(rng, 100);
        let step: Option<usize> = if (d2 as usize) < config.mutation_rate {
            let pi = placement[i];
            assert(parts@[pi as int].wf());
            Some(random_angle(rng, &parts[pi], bin, config.rotations))
        } else {
            None
        };
        assert(config.mutation_rate >= 100 ==> step is Some);
        assert(config.mutation_rate == 0 ==> !swap && step is None);
        new_steps.push(step);
        proof {
            assert(swaps@[i as int] == swap && new_steps@[i as int] == step);
            assert forall|k: nat| k <= i implies #[trigger] mutation_fold(p0, r0, swaps@, new_steps@, k) == mutation_fold(p0, r0, sw0, st0, k) by {
                lemma_fold_prefix(p0, r0, sw0, st0, swaps@, new_steps@, k);
            }
            assert(mutation_fold(p0, r0, swaps@, new_steps@, i as nat) == mutation_fold(p0, r0, sw0, st0, i as nat));
            assert(placement@ == mutation_fold(p0, r0, swaps@, new_steps@, (i + 1) as nat).0);
            assert forall|j: int| 0 <= j < i + 1 implies match #[trigger] new_steps@[j] {
                Some(s) => step_ok(
                    parts@[mutation_fold(p0, r0, swaps@, new_steps@, (j + 1) as nat).0[j] as int],
                    s,
                    bin,
                    config.rotations,
                ),
                None => true,
            } by {
                if j < i {
                    assert(new_steps@[j] == st0[j]);
                    assert(mutation_fold(p0, r0, swaps@, new_steps@, (j + 1) as nat) == mutation_fold(p0, r0, sw0, st0, (j + 1) as nat));
                }
            }
            assert forall|j: int| 0 <= j < i + 1 && config.mutation_rate == 0 implies !(#[trigger] swaps@[j]) && new_steps@[j] is None by {
                if j < i {
                    assert(swaps@[j] == sw0[j] && new_steps@[j] == st0[j]);
                }
            }
            if config.mutation_rate >= 100 {
                assert forall|j: int| 0 <= j < i + 1 implies (#[trigger] swaps@[j]) && new_steps@[j] is Some by {
                    if j < i {
                        assert(swaps@[j] == sw0[j] && new_steps@[j] == st0[j]);
                        assert(sw0[j] && st0[j] is Some);
                    }
                }
            }
        }
        i = i + 1;
    }
    let r = apply_mutation(ind, &swaps, &new_steps);
    proof {
        lemma_mutation_len(p0, r0, swaps@, new_steps@, n as nat);
        assert forall|j: int| 0 <= j < n implies match #[trigger] new_steps@[j] {
            Some(s) => s < steps(config.rotations),
            None => true,
        } by {
            match new_steps@[j] {
                Some(s) => {},
                None => {},
            }
        }
        assert(forall|j: int| 0 <= j < r0.len() ==> (#[trigger] r0[j]) < steps(config.rotations));
        lemma_mutation_steps(p0, r0, swaps@, new_steps@, n as nat, steps(config.rotations));
        assert(mutation_draws_ok(parts@, bin, config, *ind, swaps@, new_steps@));
        if config.mutation_rate == 0 {
            lemma_mutation_noop(p0, r0, swaps@, new_steps@, n as nat);
        }
    }
    r
}

proof fn lemma_fold_prefix(
    p: Seq<usize>,
    r: Seq<usize>,
    sw0: Seq<bool>,
    st0: Seq<Option<usize>>,
    sw1: Seq<bool>,
    st1: Seq<Option<usize>>,
    k: nat,
)
    requires
        k <= sw0.len(),
        k <= st0.len(),
        sw0.len() <= sw1.len(),
        st0.len() <= st1.len(),
        forall|j: int| 0 <= j < sw0.len() ==> sw1[j] == sw0[j],
        forall|j: int| 0 <= j < st0.len() ==> st1[j] == st0[j],
    ensures
        mutation_fold(p, r, sw1, st1, k) == mutation_fold(p, r, sw0, st0, k),
    decreases k,
{
    if k > 0 {
        lemma_fold_prefix(p, r, sw0, st0, sw1, st1, (k - 1) as nat);
    }
}

/// The lower and upper bounds of the crossover cut for `n` genes: `0.1 n`
/// and `0.9 n`, rounded.
pub open spec fn cut_range(n: int) -> (int, int) {
    ((n + 5) / 10, (9 * n + 5) / 10)
}

/// `child` starts with the first `cut` genes of `first` and goes on with
/// the genes of `second` that are not among them, in `second`'s order, each
/// with its rotation step.
pub open spec fn crossed(first: Individual, second: Individual, cut: int, child: Individual) -> bool {
    (child.placement@, child.rotation@) == cross_fold(first, second, cut, second.placement@.len())
}

/// The child's genes after the first `k` genes of `second`: `first`'s first
/// `cut` genes, then each of `second`'s parts not yet present, with its step.
pub open spec fn cross_fold(first: Individual, second: Individual, cut: int, k: nat) -> (Seq<usize>, Seq<usize>)
    decreases k,
{
    if k == 0 {
        (first.placement@.subrange(0, cut), first.rotation@.subrange(0, cut))
    } else {
        let (g, r) = cross_fold(first, second, cut, (k - 1) as nat);
        let p = second.placement@[k - 1];
        if g.contains(p) {
            (g, r)
        } else {
            (g.push(p), r.push(second.rotation@[k - 1]))
        }
    }
}

/// Some gene of `ind` is part `p` with step `s`.
pub open spec fn pair_from(ind: Individual, p: usize, s: usize) -> bool {
    exists|w: int| 0 <= w < ind.placement@.len() && #[trigger] ind.placement@[w] == p && ind.rotation@[w] == s
}

/// Every gene of `c` (part and step) is a gene of `a` or of `b`.
pub open spec fn genes_from(c: Individual, a: Individual, b: Individual) -> bool {
    forall|k: int|
        0 <= k < c.placement@.len() ==> pair_from(a, #[trigger] c.placement@[k], c.rotation@[k]) || pair_from(
            b,
            c.placement@[k],
            c.rotation@[k],
        )
}

/// One child of the cut-and-fill crossover (see `crossed`).
fn cross(first: &Individual, second: &Individual, cut: usize, n: usize, rotations: usize) -> (c: Individual)
    requires
        individual_ok(*first, n as nat, rotations),
        individual_ok(*second, n as nat, rotations),
        cut <= n,
    ensures
        individual_ok(c, n as nat, rotations),
        crossed(*first, *second, cut as int, c),
        genes_from(c, *first, *second),
        c.fitness == INFEASIBLE,
{
    let mut genes: Vec<usize> = Vec::new();
    let mut rots: Vec<usize> = Vec::new();
    let mut i: usize = 0;
    while i < cut
        invariant
            i <= cut <= n,
            individual_ok(*first, n as nat, rotations),
            genes@ == first.placement@.subrange(0, i as int),
            rots@ == first.rotation@.subrange(0, i as int),
        decreases cut - i,
    {
        genes.push(first.placement[i]);
        rots.push(first.rotation[i]);
        i = i + 1;
        assert(genes@ =~= first.placement@.subrange(0, i as int));
        assert(rots@ =~= first.rotation@.subrange(0, i as int));
    }
    assert(genes@.no_duplicates());
    assert(genes@ =~= cross_fold(*first, *second, cut as int, 0).0);
    assert(rots@ =~= cross_fold(*first, *second, cut as int, 0).1);
    assert forall|j: int| 0 <= j < genes@.len() implies pair_from(*first, #[trigger] genes@[j], rots@[j]) || pair_from(*second, genes@[j], rots@[j]) by {
        assert(first.placement@[j] == genes@[j] && first.rotation@[j] == rots@[j]);
    }
    let mut k: usize = 0;
    while k < n
        invariant
            (genes@, rots@) == cross_fold(*first, *second, cut as int, k as nat),
            forall|j: int| 0 <= j < genes@.len() ==> pair_from(*first, #[trigger] genes@[j], rots@[j]) || pair_from(*second, genes@[j], rots@[j]),
            cut <= n,
            k <= n,
            individual_ok(*first, n as nat, rotations),
            individual_ok(*second, n as nat, rotations),
            genes@.len() == rots@.len(),
            cut <= genes@.len(),
            genes@.subrange(0, cut as int) == first.placement@.subrange(0, cut as int),
            rots@.subrange(0, cut as int) == first.rotation@.subrange(0, cut as int),
            genes@.no_duplicates(),
            forall|j: int| 0 <= j < genes@.len() ==> (#[trigger] genes@[j]) < n,
            forall|j: int| 0 <= j < rots@.len() ==> (#[trigger] rots@[j]) < steps(rotations),
            forall|j: int| 0 <= j < k ==> genes@.contains(#[trigger] second.placement@[j]),
            forall|j: int| cut <= j < genes@.len() ==> second.placement@.contains(#[trigger] genes@[j]),
        decreases n - k,
    {
        let p = second.placement[k];
        let r = second.rotation[k];
        let mut present = false;
        let mut q: usize = 0;
        while q < genes.len()
            invariant
                q <= genes@.len(),
                present <==> exists|j: int| 0 <= j < q && genes@[j] == p,
            decreases genes.len() - q,
        {
            if genes[q] == p {
                present = true;
            }
            q = q + 1;
        }
        if !present {
            let ghost before = genes@;
            let ghost rbefore = rots@;
            genes.push(p);
            rots.push(r);
            assert(genes@.subrange(0, cut as int) =~= before.subrange(0, cut as int));
            assert(rots@.subrange(0, cut as int) =~= rbefore.subrange(0, cut as int));
            assert(genes@[before.len() as int] == p);
            assert forall|j: int| 0 <= j < k + 1 implies genes@.contains(#[trigger] second.placement@[j]) by {
                if j < k {
                    let w = choose|w: int| 0 <= w < before.len() && before[w] == second.placement@[j];
                    assert(genes@[w] == before[w]);
                }
            }
            assert(second.placement@.contains(p)) by {
                assert(second.placement@[k as int] == p);
            }
            assert(!before.contains(p));
            assert forall|j: int| 0 <= j < genes@.len() implies pair_from(*first, #[trigger] genes@[j], rots@[j]) || pair_from(*second, genes@[j], rots@[j]) by {
                if j < before.len() {
                    assert(genes@[j] == before[j] && rots@[j] == rbefore[j]);
                } else {
                    assert(second.placement@[k as int] == genes@[j] && second.rotation@[k as int] == rots@[j]);
                }
            }
        } else {
            assert(genes@.contains(p));
        }
        k = k + 1;
    }
    proof {
        let g = genes@;
        let f = second.placement@;
        assert forall|v: usize| v < n implies g.contains(v) by {
            assert(f.contains(v));
            let j = choose|j: int| 0 <= j < f.len() && f[j] == v;
            assert(g.contains(f[j]));
        }
        assert(g.to_set() =~= f.to_set()) by {
            assert forall|v: usize| g.to_set().contains(v) <==> f.to_set().contains(v) by {
                if g.contains(v) {
                    let j = choose|j: int| 0 <= j < g.len() && g[j] == v;
                    assert(g[j] < n);
                }
                if f.contains(v) {
                    let j = choose|j: int| 0 <= j < f.len() && f[j] == v;
                    assert(f[j] < n);
                }
            }
        }
        g.unique_seq_to_set();
        f.unique_seq_to_set();
    }
    let c = Individual { placement: genes, rotation: rots, fitness: INFEASIBLE };
    assert(c.placement@.subrange(0, cut as int) == first.placement@.subrange(0, cut as int));
    c
}

/// Cut-and-fill crossover: a cut drawn between `0.1 n` and `0.9 n`
/// (rounded); the first child starts as `male`, the second as `female`,
/// each filled with the other parent's remaining genes.
fn mate(rng: &mut StdRng, male: &Individual, female: &Individual, n: usize, rotations: usize) -> (r: (Individual, Individual))
    requires
        individual_ok(*male, n as nat, rotations),
        individual_ok(*female, n as nat, rotations),
    ensures
        individual_ok(r.0, n as nat, rotations),
        individual_ok(r.1, n as nat, rotations),
        genes_from(r.0, *male, *female),
        genes_from(r.1, *male, *female),
        exists|cut: int| #![trigger crossed(*male, *female, cut, r.0)]
            cut_range(n as int).0 <= cut <= cut_range(n as int).1 && crossed(*male, *female, cut, r.0) && crossed(*female, *male, cut, r.1),
{
    let lo = (n / 10) + (if n % 10 >= 5 { 1usize } else { 0usize });
    let hi = (n / 10) * 9 + (n % 10 * 9 + 5) / 10;
    assert(lo == (n + 5) / 10 && hi == (9 * n + 5) / 10 && lo <= hi <= n) by (nonlinear_arith)
        requires
            lo == (n / 10) + (if n % 10 >= 5 { 1int } else { 0int }),
            hi == (n / 10) * 9 + (n % 10 * 9 + 5) / 10,
            n >= 0,
    ;
    let cut = lo + below(rng, (hi - lo + 1) as u64) as usize;
    let c1 = cross(male, female, cut, n, rotations);
    let c2 = cross(female, male, cut, n, rotations);
    assert(crossed(*male, *female, cut as int, c1));
    assert(crossed(*female, *male, cut as int, c2));
    assert(cut_range(n as int).0 <= cut as int <= cut_range(n as int).1);
    let r = (c1, c2);
    assert(crossed(*male, *female, cut as int, r.0) && crossed(*female, *male, cut as int, r.1));
    assert(genes_from(r.0, *male, *female));
    assert forall|k: int| 0 <= k < r.1.placement@.len() implies pair_from(*male, #[trigger] r.1.placement@[k], r.1.rotation@[k]) || pair_from(
        *female,
        r.1.placement@[k],
        r.1.rotation@[k],
    ) by {
        assert(genes_from(c2, *female, *male));
    }
    r
}

/// Largest population; keeps the selection arithmetic exact.
pub const MAX_POPULATION: usize = 2147483648;

/// Upper end of the `k`-th selection interval, scaled by `m * m`: the first
/// is `[0, m)`, and the `k`-th is `2 (m - k)` long.
pub open spec fn upper(m: int, k: nat) -> int
    decreases k,
{
    if k == 0 {
        m
    } else {
        upper(m, (k - 1) as nat) + 2 * (m - (k - 1))
    }
}

/// The first position from `k` on whose interval ends above `r`; 0 if none.
pub open spec fn pick_from(m: int, r: int, k: int) -> int
    decreases m - k,
{
    if k >= m {
        0
    } else if r < upper(m, k as nat) {
        k
    } else {
        pick_from(m, r, k + 1)
    }
}

/// The position in a fitness-ordered list of `m` that the draw `r` (below
/// `m * m`) selects.
pub fn weighted_position(m: usize, r: u64) -> (pos: usize)
    requires
        1 <= m <= MAX_POPULATION,
    ensures
        pos == pick_from(m as int, r as int, 0),
        pos < m,
{
    let mut u: u64 = m as u64;
    let mut k: usize = 0;
    while k < m
        invariant
            1 <= m <= MAX_POPULATION,
            k <= m,
            u == upper(m as int, k as nat),
            u <= m + 2 * m * k,
            pick_from(m as int, r as int, 0) == pick_from(m as int, r as int, k as int),
        decreases m - k,
    {
        if r < u {
            return k;
        }
        assert(u + 2 * (m - k) <= m + 2 * m * (k + 1)) by (nonlinear_arith)
            requires
                u <= m + 2 * m * k,
                k <= m,
        ;
        assert(m + 2 * m * (k + 1) <= 2147483648 + 2 * 2147483648 * 2147483648) by (nonlinear_arith)
            requires
                m <= 2147483648,
                k + 1 <= m,
        ;
        u = u + 2 * ((m - k) as u64);
        k = k + 1;
    }
    0
}

/// The population indices other than `exclude`, in order.
pub open spec fn others(len: int, exclude: Option<usize>) -> Seq<usize> {
    match exclude {
        Some(e) if e < len => Seq::new((len - 1) as nat, |i: int| if i < e { i as usize } else { (i + 1) as usize }),
        _ => Seq::new(len as nat, |i: int| i as usize),
    }
}

/// A random index into a fitness-ordered population of `len`, other than
/// `exclude`: a draw `r` below `m * m` (`m` the number of candidates) picks
/// the position `pick_from(m, r, 0)` among the candidates.
fn random_weighted_index(rng: &mut StdRng, len: usize, exclude: Option<usize>) -> (r: usize)
    requires
        1 <= len <= MAX_POPULATION,
        exclude matches Some(e) ==> e < len && len >= 2,
    ensures
        r < len,
        exclude matches Some(e) ==> r != e,
        exists|d: int| 0 <= d < others(len as int, exclude).len() * others(len as int, exclude).len()
            && r == others(len as int, exclude)[#[trigger] pick_from(others(len as int, exclude).len() as int, d, 0)],
{
    let ghost o = others(len as int, exclude);
    let mut idxs: Vec<usize> = Vec::new();
    let mut i: usize = 0;
    while i < len
        invariant
            i <= len,
            o == others(len as int, exclude),
            exclude matches Some(e) ==> e < len,
            idxs@ == o.subrange(0, idxs@.len() as int),
            idxs@.len() == match exclude {
                Some(e) => if i <= e { i as int } else { i - 1 },
                None => i as int,
            },
        decreases len - i,
    {
        let skip = match exclude {
            Some(e) => e == i,
            None => false,
        };
        if !skip {
            idxs.push(i);
            assert(idxs@ =~= o.subrange(0, idxs@.len() as int));
        }
        i = i + 1;
    }
    assert(idxs@ =~= o);
    let m = idxs.len();
    assert(m >= 1);
    assert(0 < m * m <= MAX_POPULATION * MAX_POPULATION) by (nonlinear_arith)
        requires
            1 <= m <= MAX_POPULATION,
    ;
    let d = below(rng, m as u64 * m as u64);
    let pos = weighted_position(m, d);
    assert(o[pick_from(o.len() as int, d as int, 0)] == idxs@[pos as int]);
    idxs[pos]
}

/// `order` lists the population's indices by fitness, fittest first.
pub open spec fn fitness_ordered(pop: Seq<Individual>, order: Seq<usize>) -> bool {
    &&& is_perm(order, pop.len())
    &&& forall|i: int, j: int|
        0 <= i < j < order.len() ==> pop[#[trigger] order[i] as int].fitness <= pop[#[trigger] order[j] as int].fitness
}

/// The population's indices sorted by fitness, fittest first.
fn fitness_order(pop: &Vec<Individual>) -> (order: Vec<usize>)
    ensures
        fitness_ordered(pop@, order@),
{
    let mut keys: Vec<u128> = Vec::new();
    let mut i: usize = 0;
    while i < pop.len()
        invariant
            i <= pop.len(),
            keys@.len() == i,
            forall|j: int| 0 <= j < i ==> keys@[j] == pop@[j].fitness,
        decreases pop.len() - i,
    {
        keys.push(pop[i].fitness);
        i = i + 1;
    }
    let order = order_by_key(&keys);
    assert forall|i: int, j: int|
        0 <= i < j < order@.len() implies pop@[#[trigger] order@[i] as int].fitness <= pop@[#[trigger] order@[j] as int].fitness by {
        assert(keys@[order@[i] as int] <= keys@[order@[j] as int]);
    }
    order
}

/// Why a genetic search could not be set up.
#[derive(Clone, Copy, Debug, PartialEq, Eq, Structural)]
pub enum GaError {
    /// The bin polygon has fewer than three vertices.
    NoBinBounds,
    /// There is no part to nest.
    EmptyInput,
    /// A coordinate, the spacing or the number of parts is out of range.
    OutOfRange,
    /// A part lacks one of the configured rotation steps.
    MissingTurns,
    /// The population is larger than `MAX_POPULATION`.
    PopulationTooLarge,
}

/// The fitness of `ind` is one that `evaluate_static` can return for it.
pub open spec fn evaluated(parts: Seq<Part>, bin: Bounds, config: GAConfig, ind: Individual) -> bool {
    exists|r: (Option<i64>, Seq<Placement>)|
        #[trigger] layout_spec(
            parts,
            kept(parts, ind.placement@, ind.rotation@, bin, ind.placement@.len()).0,
            kept(parts, ind.placement@, ind.rotation@, bin, ind.placement@.len()).1,
            bin,
            config,
            r,
        ) && ind.fitness == fitness_of(parts, ind.placement@, ind.rotation@, bin, r)
}

/// Relies on rayon's `par_iter_mut` and `for_each`: the closure runs once on
/// each individual, setting its fitness by `evaluate_static`, whose
/// contract then holds of each.
#[verifier::external_body]
fn evaluate_all(pop: &mut Vec<Individual>, parts: &Vec<Part>, bin: Bounds, config: GAConfig)
    requires
        parts_ok(parts@),
        forall|i: int|
            0 <= i < old(pop)@.len() ==> genes_ok(parts@, (#[trigger] old(pop)@[i]).placement@, old(pop)@[i].rotation@)
                && bin_ok(bin, config.spacing as int, old(pop)@[i].placement@.len() as int),
    ensures
        final(pop)@.len() == old(pop)@.len(),
        forall|i: int|
            0 <= i < final(pop)@.len() ==> (#[trigger] final(pop)@[i]).placement@ == old(pop)@[i].placement@
                && final(pop)@[i].rotation@ == old(pop)@[i].rotation@ && evaluated(parts@, bin, config, final(pop)@[i]),
{
    pop.par_iter_mut().for_each(|ind| ind.fitness = evaluate_static(ind, parts, bin, config));
}

/// A genetic search over orders and rotation steps of `parts` in a bin.
pub struct GeneticAlgorithm {
    pub parts: Vec<Part>,
    pub bin_bounds: Bounds,
    pub config: GAConfig,
    pub population: Vec<Individual>,
    /// The random source, seeded at construction.
    pub rng: StdRng,
}

/// `ind` is a mutation of a crossover child of two distinct members of
/// `pop`, with a cut in `cut_range`.
pub open spec fn offspring(parts: Seq<Part>, bin: Bounds, config: GAConfig, pop: Seq<Individual>, ind: Individual) -> bool {
    exists|m: int, f: int, cut: int, c: Individual|
        0 <= m < pop.len() && 0 <= f < pop.len() && m != f && cut_range(parts.len() as int).0 <= cut
            <= cut_range(parts.len() as int).1 && #[trigger] crossed(pop[m], pop[f], cut, c) && mutation_of(
            parts,
            bin,
            config,
            c,
            ind,
        )
}

/// Some member of `pop` has the genes and fitness of `ind`.
pub open spec fn member_of(pop: Seq<Individual>, ind: Individual) -> bool {
    exists|j: int| 0 <= j < pop.len() && same_individual(ind, #[trigger] pop[j])
}

/// The genes and fitness of `a` and `b` agree.
pub open spec fn same_individual(a: Individual, b: Individual) -> bool {
    a.placement@ == b.placement@ && a.rotation@ == b.rotation@ && a.fitness == b.fitness
}

impl GeneticAlgorithm {
    /// The parts, bin and population fit together: every individual orders
    /// all parts once and gives each a rotation step of the configuration.
    pub open spec fn wf(&self) -> bool {
        &&& parts_ok(self.parts@)
        &&& turns_ok(self.parts@, self.config.rotations)
        &&& bin_ok(self.bin_bounds, self.config.spacing as int, self.parts@.len() as int)
        &&& 1 <= self.population@.len() <= MAX_POPULATION
        &&& forall|i: int|
            0 <= i < self.population@.len() ==> individual_ok(
                #[trigger] self.population@[i],
                self.parts@.len(),
                self.config.rotations,
            )
    }

    /// Sets every individual's fitness by `evaluate_static`.
    pub fn evaluate_population(&mut self)
        requires
            old(self).wf(),
        ensures
            final(self).wf(),
            final(self).parts@ == old(self).parts@,
            final(self).bin_bounds == old(self).bin_bounds,
            final(self).config == old(self).config,
            final(self).population@.len() == old(self).population@.len(),
            forall|i: int|
                0 <= i < final(self).population@.len() ==> (#[trigger] final(self).population@[i]).placement@
                    == old(self).population@[i].placement@ && final(self).population@[i].rotation@
                    == old(self).population@[i].rotation@ && evaluated(
                    final(self).parts@,
                    final(self).bin_bounds,
                    final(self).config,
                    final(self).population@[i],
                ),
    {
        assert forall|i: int| 0 <= i < self.population@.len() implies genes_ok(
            self.parts@,
            (#[trigger] self.population@[i]).placement@,
            self.population@[i].rotation@,
        ) && bin_ok(self.bin_bounds, self.config.spacing as int, self.population@[i].placement@.len() as int) by {
            let ind = self.population@[i];
            assert(individual_ok(ind, self.parts@.len(), self.config.rotations));
            assert forall|j: int| 0 <= j < ind.placement@.len() implies crate::layout::gene_ok(
                self.parts@,
                #[trigger] ind.placement@[j] as int,
                ind.rotation@[j] as int,
            ) by {
                assert(ind.placement@[j] < self.parts@.len());
                assert(ind.rotation@[j] < steps(self.config.rotations));
                assert(self.parts@[ind.placement@[j] as int]@.len() >= steps(self.config.rotations));
            }
        }
        evaluate_all(&mut self.population, &self.parts, self.bin_bounds, self.config);
    }

    /// One generation: the fittest individual is kept as it is (elitism);
    /// the rest of the population is filled with mutated children of
    /// parents drawn by `random_weighted_index` over the fitness order.
    pub fn generation(&mut self)
        requires
            old(self).wf(),
        ensures
            final(self).wf(),
            final(self).parts@ == old(self).parts@,
            final(self).bin_bounds == old(self).bin_bounds,
            final(self).config == old(self).config,
            final(self).population@.len() == old(self).population@.len(),
            exists|b: int|
                0 <= b < old(self).population@.len() && (forall|k: int|
                    0 <= k < old(self).population@.len() ==> old(self).population@[b].fitness
                        <= #[trigger] old(self).population@[k].fitness) && same_individual(
                    final(self).population@[0],
                    #[trigger] old(self).population@[b],
                ),
            forall|k: int|
                1 <= k < final(self).population@.len() ==> (#[trigger] final(self).population@[k]).fitness
                    == INFEASIBLE,
            forall|k: int|
                0 <= k < final(self).population@.len() ==> final(self).population@[0].fitness
                    <= (#[trigger] final(self).population@[k]).fitness,
            forall|k: int|
                1 <= k < final(self).population@.len() ==> offspring(
                    old(self).parts@,
                    old(self).bin_bounds,
                    old(self).config,
                    old(self).population@,
                    #[trigger] final(self).population@[k],
                ),
    {
        let len = self.population.len();
        let n = self.parts.len();
        let order = fitness_order(&self.population);
        assert(order@.contains(order@[0]));
        let best = order[0];
        proof {
            let pop = self.population@;
            assert forall|k: int| 0 <= k < pop.len() implies pop[best as int].fitness <= #[trigger] pop[k].fitness by {
                assert(order@.contains(k as usize));
                let j = choose|j: int| 0 <= j < order@.len() && order@[j] == k as usize;
                if j > 0 {
                    assert(pop[order@[0] as int].fitness <= pop[order@[j] as int].fitness);
                }
            }
        }
        let mut newpop: Vec<Individual> = Vec::new();
        newpop.push(copy_individual(&self.population[best]));
        assert(individual_ok(self.population@[best as int], n as nat, self.config.rotations));
        while newpop.len() < len
            invariant
                self.wf(),
                self.parts@ == old(self).parts@,
                self.bin_bounds == old(self).bin_bounds,
                self.config == old(self).config,
                self.population@ == old(self).population@,
                best < len,
                len == self.population@.len(),
                n == self.parts@.len(),
                fitness_ordered(self.population@, order@),
                1 <= newpop@.len() <= len,
                same_individual(newpop@[0], self.population@[best as int]),
                forall|i: int| 0 <= i < newpop@.len() ==> individual_ok(#[trigger] newpop@[i], n as nat, self.config.rotations),
                forall|i: int| 1 <= i < newpop@.len() ==> (#[trigger] newpop@[i]).fitness == INFEASIBLE,
                forall|i: int| 1 <= i < newpop@.len() ==> offspring(self.parts@, self.bin_bounds, self.config, self.population@, #[trigger] newpop@[i]),
            decreases len - newpop@.len(),
        {
            let m_idx = random_weighted_index(&mut self.rng, len, None);
            let f_idx = random_weighted_index(&mut self.rng, len, Some(m_idx));
            let mo = order[m_idx];
            let fo = order[f_idx];
            assert(order@[m_idx as int] < len && order@[f_idx as int] < len);
            assert(individual_ok(self.population@[mo as int], n as nat, self.config.rotations));
            assert(individual_ok(self.population@[fo as int], n as nat, self.config.rotations));
            assert(mo != fo) by {
                assert(order@.no_duplicates());
            }
            let (c1, c2) = mate(&mut self.rng, &self.population[mo], &self.population[fo], n, self.config.rotations);
            let ghost pop = self.population@;
            let ghost cut = choose|cut: int|
                cut_range(n as int).0 <= cut <= cut_range(n as int).1 && crossed(pop[mo as int], pop[fo as int], cut, c1)
                    && crossed(pop[fo as int], pop[mo as int], cut, c2);
            let m1 = mutate(&mut self.rng, &c1, &self.parts, self.bin_bounds, self.config);
            assert(crossed(pop[mo as int], pop[fo as int], cut, c1));
            assert(offspring(self.parts@, self.bin_bounds, self.config, pop, m1));
            let ghost before = newpop@;
            newpop.push(m1);
            assert forall|i: int| 1 <= i < newpop@.len() implies offspring(self.parts@, self.bin_bounds, self.config, self.population@, #[trigger] newpop@[i]) by {
                if i < before.len() {
                    assert(newpop@[i] == before[i]);
                }
            }
            if newpop.len() < len {
                let m2 = mutate(&mut self.rng, &c2, &self.parts, self.bin_bounds, self.config);
                assert(crossed(pop[fo as int], pop[mo as int], cut, c2));
                assert(offspring(self.parts@, self.bin_bounds, self.config, pop, m2));
                let ghost before2 = newpop@;
                newpop.push(m2);
                assert forall|i: int| 1 <= i < newpop@.len() implies offspring(self.parts@, self.bin_bounds, self.config, self.population@, #[trigger] newpop@[i]) by {
                    if i < before2.len() {
                        assert(newpop@[i] == before2[i]);
                    }
                }
            }
        }
        let ghost old_pop = self.population@;
        self.population = newpop;
        assert(same_individual(self.population@[0], old_pop[best as int]));
    }

    /// Runs `generations` rounds of evaluation and reproduction, then
    /// evaluates the final population and orders it by fitness, fittest first.
    pub fn evolve(&mut self, generations: usize)
        requires
            old(self).wf(),
        ensures
            final(self).wf(),
            final(self).parts@ == old(self).parts@,
            final(self).bin_bounds == old(self).bin_bounds,
            final(self).config == old(self).config,
            final(self).population@.len() == old(self).population@.len(),
            forall|i: int, j: int|
                0 <= i < j < final(self).population@.len() ==> (#[trigger] final(self).population@[i]).fitness
                    <= (#[trigger] final(self).population@[j]).fitness,
            forall|i: int|
                0 <= i < final(self).population@.len() ==> evaluated(
                    final(self).parts@,
                    final(self).bin_bounds,
                    final(self).config,
                    #[trigger] final(self).population@[i],
                ),
    {
        let mut g: usize = 0;
        while g < generations
            invariant
                self.wf(),
                self.parts@ == old(self).parts@,
                self.bin_bounds == old(self).bin_bounds,
                self.config == old(self).config,
                self.population@.len() == old(self).population@.len(),
                g <= generations,
            decreases generations - g,
        {
            self.evaluate_population();
            self.generation();
            g = g + 1;
        }
        self.evaluate_population();
        self.sort_population();
    }

    /// Orders the population by fitness, fittest first (stable).
    fn sort_population(&mut self)
        requires
            old(self).wf(),
        ensures
            final(self).wf(),
            final(self).parts@ == old(self).parts@,
            final(self).bin_bounds == old(self).bin_bounds,
            final(self).config == old(self).config,
            final(self).population@.len() == old(self).population@.len(),
            forall|i: int|
                0 <= i < final(self).population@.len() ==> member_of(old(self).population@, #[trigger] final(self).population@[i]),
            forall|i: int, j: int|
                0 <= i < j < final(self).population@.len() ==> (#[trigger] final(self).population@[i]).fitness
                    <= (#[trigger] final(self).population@[j]).fitness,
    {
        let order = fitness_order(&self.population);
        let len = self.population.len();
        let ghost pop = self.population@;
        let mut sorted: Vec<Individual> = Vec::new();
        let mut i: usize = 0;
        while i < len
            invariant
                self.wf(),
                pop == self.population@,
                len == pop.len(),
                fitness_ordered(pop, order@),
                i <= len,
                sorted@.len() == i,
                forall|k: int| 0 <= k < i ==> same_individual(#[trigger] sorted@[k], pop[order@[k] as int]),
            decreases len - i,
        {
            assert(order@[i as int] < len);
            sorted.push(copy_individual(&self.population[order[i]]));
            i = i + 1;
        }
        proof {
            assert forall|k: int| 0 <= k < sorted@.len() implies individual_ok(
                #[trigger] sorted@[k],
                self.parts@.len(),
                self.config.rotations,
            ) by {
                assert(individual_ok(pop[order@[k] as int], self.parts@.len(), self.config.rotations));
            }
            assert forall|a: int, b: int| 0 <= a < b < sorted@.len() implies (#[trigger] sorted@[a]).fitness <= (#[trigger] sorted@[b]).fitness by {
                assert(pop[order@[a] as int].fitness <= pop[order@[b] as int].fitness);
            }
            assert forall|k: int| 0 <= k < sorted@.len() implies member_of(pop, #[trigger] sorted@[k]) by {
                assert(same_individual(sorted@[k], pop[order@[k] as int]));
            }
        }
        self.population = sorted;
    }

    /// The layout of `ind` for output: its genes whose box fits the bin, laid
    /// out under the configured strategy.
    pub fn render_layout(&self, ind: &Individual) -> (r: (Option<i64>, Vec<Placement>))
        requires
            self.wf(),
            individual_ok(*ind, self.parts@.len(), self.config.rotations),
        ensures
            layout_spec(
                self.parts@,
                kept(self.parts@, ind.placement@, ind.rotation@, self.bin_bounds, ind.placement@.len()).0,
                kept(self.parts@, ind.placement@, ind.rotation@, self.bin_bounds, ind.placement@.len()).1,
                self.bin_bounds,
                self.config,
                (r.0, r.1@),
            ),
    {
        let n = ind.placement.len();
        assert forall|j: int| 0 <= j < n implies crate::layout::gene_ok(
            self.parts@,
            #[trigger] ind.placement@[j] as int,
            ind.rotation@[j] as int,
        ) by {
            assert(self.parts@[ind.placement@[j] as int]@.len() >= steps(self.config.rotations));
        }
        let mut placement: Vec<usize> = Vec::new();
        let mut rotation: Vec<usize> = Vec::new();
        let mut g: usize = 0;
        while g < n
            invariant
                n == ind.placement@.len(),
                n == ind.rotation@.len(),
                parts_ok(self.parts@),
                genes_ok(self.parts@, ind.placement@, ind.rotation@),
                g <= n,
                (placement@, rotation@) == kept(self.parts@, ind.placement@, ind.rotation@, self.bin_bounds, g as nat),
            decreases n - g,
        {
            let idx = ind.placement[g];
            let turn = ind.rotation[g];
            assert(crate::layout::gene_ok(self.parts@, idx as int, turn as int));
            assert(self.parts@[idx as int].wf());
            match self.parts[idx].bounds_rotated(turn) {
                Some(b) => {
                    proof {
                        crate::geometry::lemma_box_of(self.parts@[idx as int]@[turn as int], b);
                    }
                    if b.width <= self.bin_bounds.width && b.height <= self.bin_bounds.height {
                        placement.push(idx);
                        rotation.push(turn);
                    }
                },
                None => {
                    proof {
                        crate::layout::lemma_no_box(self.parts@[idx as int]@[turn as int]);
                    }
                },
            }
            g = g + 1;
        }
        proof {
            crate::layout::lemma_kept_ok(self.parts@, ind.placement@, ind.rotation@, self.bin_bounds, n as nat);
            crate::layout::lemma_bin_ok_mono(self.bin_bounds, self.config.spacing as int, placement@.len() as int, self.parts@.len() as int);
        }
        let filtered = Individual { placement, rotation, fitness: 0 };
        crate::layout::layout(&filtered, &self.parts, self.bin_bounds, self.config)
    }

    /// Sets up a search: the bin's bounding box, then a first individual
    /// (the parts in order, each with a rotation step from `random_angle`)
    /// and mutations of it up to the population size (at least one).
    pub fn new(parts: Vec<Part>, bin: &Polygon, config: GAConfig, seed: u64) -> (r: Result<GeneticAlgorithm, GaError>)
        requires
            parts_ok(parts@),
        ensures
            r is Err <==> setup_error(parts@, bin.points@, config) is Some,
            r matches Err(e) ==> setup_error(parts@, bin.points@, config) == Some(e),
            r matches Ok(ga) ==> {
                &&& ga.wf()
                &&& ga.parts@ == parts@
                &&& ga.config == config
                &&& ga.bin_bounds == bounds_of(bin.points@)
                &&& ga.population@.len() == if config.population_size == 0 { 1 } else { config.population_size as int }
                &&& ga.population@[0].placement@ == Seq::new(parts@.len(), |i: int| i as usize)
                &&& forall|i: int|
                    0 <= i < parts@.len() ==> ((exists|s: int| 0 <= s < steps(config.rotations) && turn_fits(
                        parts@[i],
                        s,
                        ga.bin_bounds,
                    )) ==> turn_fits(parts@[i], #[trigger] ga.population@[0].rotation@[i] as int, ga.bin_bounds))
                &&& forall|k: int| 0 <= k < ga.population@.len() ==> (#[trigger] ga.population@[k]).fitness == INFEASIBLE
                &&& forall|k: int|
                    1 <= k < ga.population@.len() ==> mutation_of(
                        parts@,
                        ga.bin_bounds,
                        config,
                        ga.population@[0],
                        #[trigger] ga.population@[k],
                    )
            },
    {
        if !crate::clip::ring_in_range(&bin.points) {
            return Err(GaError::OutOfRange);
        }
        let bb = match get_polygon_bounds(&bin.points) {
            Some(b) => b,
            None => return Err(GaError::NoBinBounds),
        };
        proof {
            crate::nfp::lemma_bounds_unique(bin.points@, bb);
        }
        if parts.len() == 0 {
            return Err(GaError::EmptyInput);
        }
        if config.population_size > MAX_POPULATION {
            return Err(GaError::PopulationTooLarge);
        }
        let n = parts.len();
        let want: usize = if config.rotations == 0 {
            1
        } else {
            config.rotations
        };
        let mut i: usize = 0;
        while i < n
            invariant
                n == parts@.len(),
                want == steps(config.rotations),
                crate::geometry::ring_ok(bin.points@),
                bin.points@.len() >= 3,
                bb == bounds_of(bin.points@),
                n > 0,
                config.population_size <= MAX_POPULATION,
                i <= n,
                forall|j: int| 0 <= j < i ==> (#[trigger] parts@[j])@.len() >= steps(config.rotations),
            decreases n - i,
        {
            if parts[i].turn_count() < want {
                assert((parts@[i as int])@.len() < steps(config.rotations));
                assert(!turns_ok(parts@, config.rotations));
                return Err(GaError::MissingTurns);
            }
            i = i + 1;
        }
        if !bin_in_range(bb, config.spacing, n) {
            return Err(GaError::OutOfRange);
        }
        let mut rng = seeded(seed);
        let mut placement: Vec<usize> = Vec::new();
        let mut rotation: Vec<usize> = Vec::new();
        let mut k: usize = 0;
        while k < n
            invariant
                n == parts@.len(),
                parts_ok(parts@),
                turns_ok(parts@, config.rotations),
                k <= n,
                placement@ == Seq::new(k as nat, |i: int| i as usize),
                rotation@.len() == k,
                forall|j: int| 0 <= j < k ==> (#[trigger] rotation@[j]) < steps(config.rotations),
                forall|j: int|
                    0 <= j < k ==> ((exists|s: int| 0 <= s < steps(config.rotations) && turn_fits(parts@[j], s, bb))
                        ==> turn_fits(parts@[j], #[trigger] rotation@[j] as int, bb)),
            decreases n - k,
        {
            assert(parts@[k as int].wf());
            let step = random_angle(&mut rng, &parts[k], bb, config.rotations);
            placement.push(k);
            rotation.push(step);
            assert(placement@ =~= Seq::new((k + 1) as nat, |i: int| i as usize));
            k = k + 1;
        }
        let base = Individual { placement, rotation, fitness: INFEASIBLE };
        proof {
            let s = base.placement@;
            assert forall|v: usize| v < n implies s.contains(v) by {
                assert(s[v as int] == v);
            }
        }
        assert(individual_ok(base, n as nat, config.rotations));
        let mut population: Vec<Individual> = Vec::new();
        population.push(copy_individual(&base));
        while population.len() < config.population_size
            invariant
                n == parts@.len(),
                parts_ok(parts@),
                turns_ok(parts@, config.rotations),
                individual_ok(base, n as nat, config.rotations),
                base.fitness == INFEASIBLE,
                config.population_size <= MAX_POPULATION,
                1 <= population@.len() <= if config.population_size == 0 { 1 } else { config.population_size as int },
                same_individual(population@[0], base),
                forall|j: int| 0 <= j < population@.len() ==> individual_ok(#[trigger] population@[j], n as nat, config.rotations),
                forall|j: int| 0 <= j < population@.len() ==> (#[trigger] population@[j]).fitness == INFEASIBLE,
                forall|j: int| 1 <= j < population@.len() ==> mutation_of(parts@, bb, config, base, #[trigger] population@[j]),
            decreases config.population_size - population@.len(),
        {
            let m = mutate(&mut rng, &base, &parts, bb, config);
            let ghost before = population@;
            population.push(m);
            assert forall|j: int| 1 <= j < population@.len() implies mutation_of(parts@, bb, config, base, #[trigger] population@[j]) by {
                if j < before.len() {
                    assert(population@[j] == before[j]);
                }
            }
        }
        assert(base.placement@ == population@[0].placement@ && base.rotation@ == population@[0].rotation@);
        Ok(GeneticAlgorithm { parts, bin_bounds: bb, config, population, rng })
    }
}

/// Why `GeneticAlgorithm::new` refuses its inputs, checked in this order.
pub open spec fn setup_error(parts: Seq<Part>, bin: Seq<crate::geometry::Point>, config: GAConfig) -> Option<GaError> {
    if !crate::geometry::ring_ok(bin) {
        Some(GaError::OutOfRange)
    } else if bin.len() < 3 {
        Some(GaError::NoBinBounds)
    } else if parts.len() == 0 {
        Some(GaError::EmptyInput)
    } else if config.population_size > MAX_POPULATION {
        Some(GaError::PopulationTooLarge)
    } else if !turns_ok(parts, config.rotations) {
        Some(GaError::MissingTurns)
    } else if !bin_ok(bounds_of(bin), config.spacing as int, parts.len() as int) {
        Some(GaError::OutOfRange)
    } else {
        None
    }
}

/// Whether `bin_ok` holds.
fn bin_in_range(bin: Bounds, spacing: i64, n: usize) -> (r: bool)
    requires
        0 <= bin.width <= 2 * crate::geometry::COORD_LIMIT,
        0 <= bin.height <= 2 * crate::geometry::COORD_LIMIT,
    ensures
        r == bin_ok(bin, spacing as int, n as int),
{
    if spacing < 0 || spacing > crate::geometry::POS_LIMIT || n as u64 > crate::geometry::POS_LIMIT as u64 {
        return false;
    }
    assert(bin.height * (2 * n + 3) <= 140737488355328 * (2 * 17592186044416 + 3)) by (nonlinear_arith)
        requires
            0 <= bin.height <= 140737488355328,
            n <= 17592186044416,
    ;
    if bin.width + spacing > crate::geometry::POS_LIMIT {
        return false;
    }
    let h: i128 = bin.height as i128 * (2 * n as i128 + 3);
    h <= crate::geometry::POS_LIMIT as i128
}

} // verus!
