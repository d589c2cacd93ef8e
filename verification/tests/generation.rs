use rand_xoshiro::rand_core::SeedableRng;
use rand_xoshiro::Xoshiro256PlusPlus;
use sudoku_rs_core::generic::generator::{
    carve, cell_order, gen_unique_puzzle, gen_unique_puzzle_with_solution, random_solution,
    GenConfig,
};
use sudoku_rs_core::generic::grid::Grid;
use sudoku_rs_core::generic::search::{count_solutions_up_to, solve_unique};

fn smoke_size<const N: usize, const BR: usize, const BC: usize>(
    seed: u64,
    target: u32,
    clue_lo: u32,
    clue_hi: u32,
) {
    let mut rng = Xoshiro256PlusPlus::seed_from_u64(seed);
    let cfg = GenConfig::new(target);
    for k in 0..10 {
        let (p, clues): (Grid<N, BR, BC>, u32) = gen_unique_puzzle(&mut rng, &cfg);
        assert_eq!(
            count_solutions_up_to(&p, 2),
            1,
            "size {} sample {} not unique (clues={})",
            N,
            k,
            clues
        );
        assert!(solve_unique(&p).is_some(), "solve_unique failed at N={}", N);
        assert!(
            clues >= clue_lo && clues <= clue_hi,
            "size {} sample {}: clues {} not in [{}, {}]",
            N,
            k,
            clues,
            clue_lo,
            clue_hi
        );
    }
}

#[test]
fn smoke_6x6() {
    smoke_size::<6, 2, 3>(11, 15, 12, 22);
}

#[test]
fn smoke_9x9() {
    smoke_size::<9, 3, 3>(12, 30, 25, 40);
}

#[test]
fn smoke_12x12() {
    smoke_size::<12, 3, 4>(13, 60, 48, 80);
}

#[test]
fn smoke_16x16() {
    smoke_size::<16, 4, 4>(14, 120, 100, 160);
}

#[test]
fn determinism_same_seed_same_puzzle_9x9() {
    let cfg = GenConfig::new(30);
    let mut rng_a = Xoshiro256PlusPlus::seed_from_u64(1234);
    let mut rng_b = Xoshiro256PlusPlus::seed_from_u64(1234);
    let (a, ca): (Grid<9, 3, 3>, u32) = gen_unique_puzzle(&mut rng_a, &cfg);
    let (b, cb): (Grid<9, 3, 3>, u32) = gen_unique_puzzle(&mut rng_b, &cfg);
    assert_eq!(ca, cb);
    assert_eq!(a.to_string_grid(), b.to_string_grid());
}

#[test]
fn determinism_same_seed_same_puzzle_6x6() {
    let cfg = GenConfig::new(15);
    let mut rng_a = Xoshiro256PlusPlus::seed_from_u64(7);
    let mut rng_b = Xoshiro256PlusPlus::seed_from_u64(7);
    let (a, _): (Grid<6, 2, 3>, u32) = gen_unique_puzzle(&mut rng_a, &cfg);
    let (b, _): (Grid<6, 2, 3>, u32) = gen_unique_puzzle(&mut rng_b, &cfg);
    assert_eq!(a.to_string_grid(), b.to_string_grid());
}

#[test]
fn random_solution_is_valid() {
    let mut rng = Xoshiro256PlusPlus::seed_from_u64(42);
    let g: Grid<9, 3, 3> = random_solution(&mut rng);
    assert!(g.is_solved());
    assert!(g.is_consistent());
}

#[test]
fn random_solution_16x16_is_valid() {
    let mut rng = Xoshiro256PlusPlus::seed_from_u64(42);
    let g: Grid<16, 4, 4> = random_solution(&mut rng);
    assert!(g.is_solved());
    assert!(g.is_consistent());
}

#[test]
fn carving_stops_at_the_target_and_keeps_the_solution() {
    let mut rng = Xoshiro256PlusPlus::seed_from_u64(5);
    let (p, clues, s): (Grid<9, 3, 3>, u32, Grid<9, 3, 3>) =
        gen_unique_puzzle_with_solution(&mut rng, &GenConfig::new(40));
    assert_eq!(clues, 40);
    assert_eq!(p.solved_count, 40);
    assert_eq!(solve_unique(&p).unwrap().to_string_grid(), s.to_string_grid());

    let order = cell_order(81);
    assert_eq!(order.len(), 81);
    let (q, left) = carve(&s, &order, &GenConfig::new(60));
    assert_eq!(q.solved_count, left);
    assert_eq!(solve_unique(&q).unwrap().to_string_grid(), s.to_string_grid());
    // The first cell of the order can always go.
    assert!(q.to_string_grid().starts_with('.'));
}
