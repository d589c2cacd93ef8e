use rand::seq::SliceRandom;
use rand_xoshiro::rand_core::SeedableRng;
use rand_xoshiro::Xoshiro256PlusPlus;
use sudoku_rs_core::generic::aic_reverse::{
    aic_reverse_construct, batch_aic_reverse_construct, find_first_aic_chain_length,
    find_first_aic_chain_length_with, has_any_aic_chain, AicProbeScratch, AicReverseSpec,
};
use sudoku_rs_core::generic::carving::build_subset;
use sudoku_rs_core::generic::generator::{gen_unique_puzzle_with_solution, GenConfig};
use sudoku_rs_core::generic::grid::Grid;
use sudoku_rs_core::generic::rater::{RateResult, Rater};
use sudoku_rs_core::generic::search::solve_unique;
use sudoku_rs_core::generic::techniques::{tier_rank, TechniqueId, Tier};

/// Says that every puzzle needs an alternating chain.
struct Says;

fn result(tier: Tier, frontier: &[TechniqueId]) -> RateResult {
    RateResult {
        tier,
        frontier: frontier.to_vec(),
        solved: true,
        rater_error: false,
        wave_depth: 0,
        backtrack_steps: 0,
        unique_solution: true,
        se_milli: 0,
    }
}

impl<const N: usize, const BR: usize, const BC: usize> Rater<N, BR, BC> for Says {
    fn rate(&mut self, _puzzle: &Grid<N, BR, BC>) -> RateResult {
        result(Tier::T3, &[TechniqueId::Aic])
    }

    fn rate_excluding(
        &mut self,
        _puzzle: &Grid<N, BR, BC>,
        _excluded: &Vec<TechniqueId>,
    ) -> RateResult {
        result(Tier::T4Plus, &[])
    }
}

fn spec(length: u32, slack: u32, max_attempts: u32, load_bearing: bool) -> AicReverseSpec {
    AicReverseSpec {
        target_tier: Tier::T3,
        target_chain_length: length,
        chain_length_slack: slack,
        clue_min: 22,
        clue_max: 30,
        max_attempts,
        require_load_bearing: load_bearing,
        greedy_max_trials: 0,
    }
}

fn node(n: u32, cell: u32, dbit: u32) -> u32 {
    cell * n + dbit
}

#[test]
fn aic_unsoundness_regression_a05085() {
    let mut g: Grid<9, 3, 3> = Grid::empty();
    for d in 3..=9u8 {
        g.eliminate(0, d).unwrap();
    }
    for d in [2u8, 4, 5, 6, 7, 8, 9] {
        g.eliminate(6, d).unwrap();
    }
    // (0,0)={1,2}, (0,6)={1,3}.
    let start = node(9, 0, 1); // (0,0):2
    let end = node(9, 6, 2); // (0,6):3
    let mut sc = AicProbeScratch::new::<9>();
    assert!(
        !sc.try_eliminate_dryrun::<9, 3, 3>(&g, start, end),
        "different-digit cross-cell dry-run must NOT eliminate (a05085 regression)"
    );
    // The same digit at both ends does rule something out.
    assert!(sc.try_eliminate_dryrun::<9, 3, 3>(&g, node(9, 0, 0), node(9, 6, 0)));
    let _ = find_first_aic_chain_length::<9, 3, 3>(&g);
}

#[test]
fn hit_rate_9x9_chain7_load_bearing() {
    let mut rng = Xoshiro256PlusPlus::seed_from_u64(2026);
    let res = aic_reverse_construct::<9, 3, 3, Says>(&mut rng, &mut Says, &spec(7, 1, 200, true));
    // Soft contract: if Some, all properties must hold.
    if let Some(r) = res {
        assert_eq!(tier_rank(r.rate.tier), tier_rank(Tier::T3));
        assert!(r.rate.frontier.contains(&TechniqueId::Aic));
        let len = find_first_aic_chain_length::<9, 3, 3>(&r.puzzle).unwrap();
        assert!((len as i32 - 7).abs() <= 1, "chain length {} not within ±1 of 7", len);
        let r2 = Says.rate_excluding(&r.puzzle, &vec![TechniqueId::Aic]);
        assert!(
            tier_rank(r2.tier) > tier_rank(Tier::T3),
            "load_bearing violated: rate_excluding tier = {:?}",
            r2.tier
        );
    }
}

#[test]
fn hit_rate_9x9_chain5_slack2_no_load_bearing() {
    let mut rng = Xoshiro256PlusPlus::seed_from_u64(7);
    let res = aic_reverse_construct::<9, 3, 3, Says>(&mut rng, &mut Says, &spec(5, 2, 100, false));
    if let Some(r) = res {
        assert_eq!(tier_rank(r.rate.tier), tier_rank(Tier::T3));
        assert!(r.rate.frontier.contains(&TechniqueId::Aic));
    }
}

#[test]
fn aic_reverse_determinism_same_seed_same_puzzle() {
    let mut a = Xoshiro256PlusPlus::seed_from_u64(31337);
    let mut b = Xoshiro256PlusPlus::seed_from_u64(31337);
    let ra = aic_reverse_construct::<9, 3, 3, Says>(&mut a, &mut Says, &spec(5, 3, 50, false));
    let rb = aic_reverse_construct::<9, 3, 3, Says>(&mut b, &mut Says, &spec(5, 3, 50, false));
    match (ra, rb) {
        (Some(x), Some(y)) => {
            assert_eq!(x.puzzle.to_string_grid(), y.puzzle.to_string_grid());
        }
        (None, None) => {}
        _ => panic!("determinism violated: one Some, one None"),
    }
}

#[test]
fn validate_zero_chain_length_rejected() {
    let s = spec(0, 0, 1, false);
    assert!(s.validate().is_err());
    let mut rng = Xoshiro256PlusPlus::seed_from_u64(0);
    // aic_reverse_construct returns None on validation error.
    assert!(aic_reverse_construct::<9, 3, 3, Says>(&mut rng, &mut Says, &s).is_none());
}

#[test]
fn validate_t1_t2_rejected() {
    let mut spec = AicReverseSpec::new_t3(5, 1, 10);
    spec.target_tier = Tier::T1;
    assert!(spec.validate().is_err());
    spec.target_tier = Tier::T2;
    assert!(spec.validate().is_err());
    spec.target_tier = Tier::T3;
    assert!(spec.validate().is_ok());
}

#[test]
fn smoke_16x16_terminates() {
    let s = AicReverseSpec {
        target_tier: Tier::T3,
        target_chain_length: 3,
        chain_length_slack: 2,
        clue_min: 100,
        clue_max: 130,
        max_attempts: 1,
        require_load_bearing: false,
        greedy_max_trials: 32, // cap aggressively for speed
    };
    let mut rng = Xoshiro256PlusPlus::seed_from_u64(101);
    // Just terminate; Some-or-None both acceptable.
    let _ = aic_reverse_construct::<16, 4, 4, Says>(&mut rng, &mut Says, &s);
}

#[test]
fn aic_reverse_returned_puzzle_solves_to_solution() {
    let mut rng = Xoshiro256PlusPlus::seed_from_u64(2027);
    let found =
        aic_reverse_construct::<9, 3, 3, Says>(&mut rng, &mut Says, &spec(5, 3, 100, false));
    if let Some(r) = found {
        let sol = solve_unique::<9, 3, 3>(&r.puzzle).expect("returned puzzle must be unique");
        assert_eq!(sol.to_string_grid(), r.solution.to_string_grid());
    }
}

#[test]
fn aic_reverse_batch_smoke_terminates() {
    let res = batch_aic_reverse_construct::<9, 3, 3, Says>(42, Says, &spec(5, 3, 30, false), 2, 1);
    assert!(res.len() <= 2);
}

#[test]
fn scratch_reuse_matches_fresh_baseline_9x9() {
    let mut rng = Xoshiro256PlusPlus::seed_from_u64(424242);
    let cfg = GenConfig { target_clues: 27, max_attempts: 0 };
    let (_seed, _, solution): (Grid<9, 3, 3>, u32, Grid<9, 3, 3>) =
        gen_unique_puzzle_with_solution(&mut rng, &cfg);

    // Build many partial puzzles by keeping random subsets of cells.
    let mut scratch = AicProbeScratch::new::<9>();
    for trial in 0..50 {
        let mut keep = vec![false; 81];
        // Keep ~30 random cells.
        let mut idxs: Vec<u8> = (0..81u8).collect();
        idxs.shuffle(&mut rng);
        for &i in &idxs[..30] {
            keep[i as usize] = true;
        }
        let g = match build_subset::<9, 3, 3>(&solution, &keep) {
            Some(g) => g,
            None => continue,
        };
        let baseline = find_first_aic_chain_length::<9, 3, 3>(&g);
        let reused = find_first_aic_chain_length_with::<9, 3, 3>(&g, &mut scratch);
        assert_eq!(
            baseline, reused,
            "scratch-reuse mismatch on trial {trial}: baseline={baseline:?} reused={reused:?}",
        );
        assert_eq!(has_any_aic_chain::<9, 3, 3>(&g, &mut scratch), baseline.is_some());
    }
}

#[test]
fn scratch_reuse_matches_fresh_baseline_16x16() {
    let mut rng = Xoshiro256PlusPlus::seed_from_u64(1111);
    let cfg = GenConfig { target_clues: 130, max_attempts: 0 };
    let (_seed, _, solution): (Grid<16, 4, 4>, u32, Grid<16, 4, 4>) =
        gen_unique_puzzle_with_solution(&mut rng, &cfg);

    let mut scratch = AicProbeScratch::new::<16>();
    for trial in 0..3 {
        let mut keep = vec![false; 256];
        let mut idxs: Vec<u16> = (0..256u16).collect();
        idxs.shuffle(&mut rng);
        for &i in &idxs[..130] {
            keep[i as usize] = true;
        }
        let g = match build_subset::<16, 4, 4>(&solution, &keep) {
            Some(g) => g,
            None => continue,
        };
        let baseline = find_first_aic_chain_length::<16, 4, 4>(&g);
        let reused = find_first_aic_chain_length_with::<16, 4, 4>(&g, &mut scratch);
        assert_eq!(
            baseline, reused,
            "16×16 scratch-reuse mismatch on trial {trial}: baseline={baseline:?} reused={reused:?}",
        );
    }
}
