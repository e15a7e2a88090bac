use std::collections::HashSet;
use svgnest::ga::{apply_mutation, weighted_position};
use svgnest::layout::INFEASIBLE;
use svgnest::{GAConfig, GaError, GeneticAlgorithm, Individual, Part, Point, Polygon};

fn pt(x: i64, y: i64) -> Point {
    Point { x, y }
}

fn poly(points: Vec<Point>) -> Polygon {
    Polygon { id: 0, points, closed: true }
}

fn rect(w: i64, h: i64) -> Vec<Point> {
    vec![pt(0, 0), pt(w, 0), pt(w, h), pt(0, h)]
}

/// A rectangle part with its four quarter turns.
fn rect_part_turns(w: i64, h: i64) -> Part {
    let mut p = Part::new(vec![poly(rect(w, h))]);
    p.add_turn(vec![poly(vec![pt(0, 0), pt(0, w), pt(-h, w), pt(-h, 0)])]);
    p.add_turn(vec![poly(vec![pt(0, 0), pt(-w, 0), pt(-w, -h), pt(0, -h)])]);
    p.add_turn(vec![poly(vec![pt(0, 0), pt(0, -w), pt(h, -w), pt(h, 0)])]);
    p
}

fn cfg(population_size: usize, mutation_rate: usize, rotations: usize) -> GAConfig {
    GAConfig { population_size, mutation_rate, rotations, spacing: 0, use_holes: false, explore_concave: false }
}

#[test]
fn trivial_run_places_one_part() {
    let parts = vec![Part::new(vec![poly(rect(2, 2))])];
    let bin = poly(rect(10, 10));
    let mut ga = GeneticAlgorithm::new(parts, &bin, cfg(1, 0, 0), 7).unwrap();
    ga.evolve(3);
    assert_eq!(ga.population.len(), 1);
    let best = &ga.population[0];
    assert!(best.fitness < INFEASIBLE);
    let (h, pl) = ga.render_layout(best);
    assert_eq!(h, Some(10));
    assert_eq!(pl.len(), 1);
    assert_eq!((pl[0].x, pl[0].y), (0, 0));
}

#[test]
fn unplaceable_without_rotation_is_penalized() {
    let parts = vec![Part::new(vec![poly(rect(6, 4))])];
    let bin = poly(rect(5, 5));
    let mut ga = GeneticAlgorithm::new(parts, &bin, cfg(1, 0, 0), 1).unwrap();
    ga.evolve(1);
    assert_eq!(ga.population[0].fitness, 2 * 25);
    let (h, pl) = ga.render_layout(&ga.population[0]);
    assert_eq!(h, Some(5));
    assert!(pl.is_empty());
}

#[test]
fn rotation_is_chosen_to_fit() {
    let parts = vec![rect_part_turns(6, 4)];
    let bin = poly(rect(5, 7));
    for seed in 0..8 {
        let mut ga = GeneticAlgorithm::new(vec![rect_part_turns(6, 4)], &bin, cfg(1, 0, 4), seed).unwrap();
        let step = ga.population[0].rotation[0];
        assert!(step == 1 || step == 3);
        ga.evolve(1);
        let (h, pl) = ga.render_layout(&ga.population[0]);
        assert_eq!(h, Some(7));
        assert_eq!(pl.len(), 1);
        assert!(ga.population[0].fitness < INFEASIBLE);
    }
    assert_eq!(parts[0].turn_count(), 4);
}

#[test]
fn individuals_are_permutations_with_valid_steps() {
    let parts: Vec<Part> = (0..6).map(|i| rect_part_turns(2 + i, 3)).collect();
    let bin = poly(rect(40, 40));
    let mut ga = GeneticAlgorithm::new(parts, &bin, cfg(8, 50, 4), 11).unwrap();
    ga.evolve(4);
    assert_eq!(ga.population.len(), 8);
    for ind in &ga.population {
        assert_eq!(ind.placement.len(), 6);
        assert_eq!(ind.rotation.len(), 6);
        let set: HashSet<usize> = ind.placement.iter().cloned().collect();
        assert_eq!(set.len(), 6);
        assert!(ind.placement.iter().all(|&p| p < 6));
        assert!(ind.rotation.iter().all(|&r| r < 4));
    }
}

#[test]
fn elite_leads_after_generation() {
    let parts: Vec<Part> = (0..5).map(|i| rect_part_turns(3 + i, 2)).collect();
    let bin = poly(rect(12, 12));
    let mut ga = GeneticAlgorithm::new(parts, &bin, cfg(6, 30, 4), 3).unwrap();
    ga.evaluate_population();
    let best = ga.population.iter().map(|i| i.fitness).min().unwrap();
    ga.generation();
    assert_eq!(ga.population[0].fitness, best);
    assert!(ga.population.iter().all(|i| ga.population[0].fitness <= i.fitness));
}

#[test]
fn seeded_runs_are_reproducible() {
    let make = || {
        let parts: Vec<Part> = (0..5).map(|i| rect_part_turns(2 + i, 3)).collect();
        let bin = poly(rect(15, 15));
        let mut ga = GeneticAlgorithm::new(parts, &bin, cfg(6, 40, 4), 42).unwrap();
        ga.evolve(3);
        ga.population.iter().map(|i| (i.placement.clone(), i.rotation.clone(), i.fitness)).collect::<Vec<_>>()
    };
    assert_eq!(make(), make());
}

#[test]
fn setup_errors() {
    let part = || vec![Part::new(vec![poly(rect(2, 2))])];
    let bin = poly(rect(10, 10));
    let degenerate = poly(vec![pt(0, 0), pt(1, 1)]);
    assert_eq!(GeneticAlgorithm::new(part(), &degenerate, cfg(1, 0, 0), 0).err(), Some(GaError::NoBinBounds));
    assert_eq!(GeneticAlgorithm::new(vec![], &bin, cfg(1, 0, 0), 0).err(), Some(GaError::EmptyInput));
    assert_eq!(GeneticAlgorithm::new(part(), &bin, cfg(3_000_000_000, 0, 0), 0).err(), Some(GaError::PopulationTooLarge));
    assert_eq!(GeneticAlgorithm::new(part(), &bin, cfg(1, 0, 4), 0).err(), Some(GaError::MissingTurns));
    let mut c = cfg(1, 0, 0);
    c.spacing = -1;
    assert_eq!(GeneticAlgorithm::new(part(), &bin, c, 0).err(), Some(GaError::OutOfRange));
    let far = poly(rect(1 << 50, 10));
    assert_eq!(GeneticAlgorithm::new(part(), &far, cfg(1, 0, 0), 0).err(), Some(GaError::OutOfRange));
}

#[test]
fn zero_population_keeps_one_individual() {
    let parts = vec![Part::new(vec![poly(rect(2, 2))])];
    let ga = GeneticAlgorithm::new(parts, &poly(rect(10, 10)), cfg(0, 0, 0), 0).unwrap();
    assert_eq!(ga.population.len(), 1);
    assert_eq!(ga.population[0].placement, vec![0]);
}

#[test]
fn weighted_selection_intervals() {
    // m = 3: intervals [0,3), [3,9), [9,13)
    assert_eq!(weighted_position(3, 0), 0);
    assert_eq!(weighted_position(3, 2), 0);
    assert_eq!(weighted_position(3, 3), 1);
    assert_eq!(weighted_position(3, 8), 1);
    assert_eq!(weighted_position(3, 9), 2);
    assert_eq!(weighted_position(1, 0), 0);
}

#[test]
fn mutation_decisions_apply_in_order() {
    let ind = Individual { placement: vec![0, 1, 2, 3], rotation: vec![0, 0, 0, 0], fitness: 5 };
    let r = apply_mutation(&ind, &vec![true, true, false, true], &vec![None, Some(2), None, Some(1)]);
    // swap 0-1: [1,0,2,3]; swap 1-2: [1,2,0,3]; the last swap has no neighbour
    assert_eq!(r.placement, vec![1, 2, 0, 3]);
    assert_eq!(r.rotation, vec![0, 2, 0, 1]);
    assert_eq!(r.fitness, INFEASIBLE);
}

#[test]
fn zero_mutation_rate_keeps_the_base_genes() {
    let parts: Vec<Part> = (0..4).map(|i| rect_part_turns(2 + i, 3)).collect();
    let ga = GeneticAlgorithm::new(parts, &poly(rect(30, 30)), cfg(5, 0, 4), 9).unwrap();
    for ind in &ga.population {
        assert_eq!(ind.placement, ga.population[0].placement);
        assert_eq!(ind.rotation, ga.population[0].rotation);
    }
    assert_eq!(ga.population[0].placement, vec![0, 1, 2, 3]);
}

#[test]
fn evolved_population_is_ordered_by_fitness() {
    let parts: Vec<Part> = (0..5).map(|i| rect_part_turns(3 + i, 2)).collect();
    let mut ga = GeneticAlgorithm::new(parts, &poly(rect(12, 12)), cfg(7, 40, 4), 5).unwrap();
    ga.evolve(3);
    for w in ga.population.windows(2) {
        assert!(w[0].fitness <= w[1].fitness);
    }
}
