use rand_xoshiro::rand_core::SeedableRng;
use rand_xoshiro::Xoshiro256PlusPlus;
use sudoku_rs_core::generic::chain_rating::{
    build_post_brt_grid, chain_rating_to_se_milli, rate_chain, rating_of, ChainRating,
    GBraidSearch,
};
use sudoku_rs_core::generic::gbraid_reverse::{
    batch_gbraid_reverse_construct, gbraid_reverse_construct, gbraid_reverse_construct_from_seed,
    gbraid_score, is_gbraid_puzzle, is_kept, is_unsolved_without, GBraidReverseSpec,
};
use sudoku_rs_core::generic::grid::Grid;
use sudoku_rs_core::generic::rater::{RateResult, Rater};
use sudoku_rs_core::generic::search::solve_unique;
use sudoku_rs_core::generic::techniques::{TechniqueId, Tier};

/// Finds a g-braid of the same length in every grid.
struct Finds(Option<u8>);

impl GBraidSearch for Finds {
    fn find_first_gbraid(&mut self, _g: &Grid<9, 3, 3>, _k_max: u8) -> Option<u8> {
        self.0
    }

    fn find_first_gbraid_excluding_wgwb(&mut self, _g: &Grid<9, 3, 3>, _k_max: u8) -> Option<u8> {
        self.0
    }
}

/// Solves nothing without g-braids.
struct Stuck;

impl Rater<9, 3, 3> for Stuck {
    fn rate(&mut self, _puzzle: &Grid<9, 3, 3>) -> RateResult {
        result(true)
    }

    fn rate_excluding(
        &mut self,
        _puzzle: &Grid<9, 3, 3>,
        _excluded: &Vec<TechniqueId>,
    ) -> RateResult {
        result(false)
    }
}

fn result(solved: bool) -> RateResult {
    RateResult {
        tier: Tier::T4Plus,
        frontier: vec![],
        solved,
        rater_error: false,
        wave_depth: 0,
        backtrack_steps: 0,
        unique_solution: true,
        se_milli: 0,
    }
}

#[test]
fn test_fixture1_solved_by_singles() {
    let puzzle = "...456..9..6.......891..45.2.........7..9.....35......397...5.......4.72.....5361";
    let grid = Grid::<9, 3, 3>::from_str(puzzle).expect("parse");
    let rating = rate_chain(&grid, 5, &mut Finds(None));
    assert_eq!(rating, None, "Fixture 1 (B=0): singles must suffice");
    // Nothing is left to look for, whatever a search would say.
    assert_eq!(rate_chain(&grid, 5, &mut Finds(Some(3))), None);
    assert!(build_post_brt_grid(&grid).is_none());
}

#[test]
fn test_none_on_solved_grid() {
    let solved = "974856213328149657516723948153278469769435821842691375431967582685312794297584136";
    let grid = Grid::<9, 3, 3>::from_str(solved).expect("parse");
    assert_eq!(rate_chain(&grid, 10, &mut Finds(Some(3))), None);
}

#[test]
fn test_k_max_zero_returns_none() {
    let puzzle = "...456..9..6.......891..45.2.........7..9.....35......397...5.......4.72.....5361";
    let grid = Grid::<9, 3, 3>::from_str(puzzle).expect("parse");
    assert_eq!(rate_chain(&grid, 0, &mut Finds(None)), None);
    assert_eq!(rate_chain(&grid, 0, &mut Finds(Some(3))), None);
}

#[test]
fn hard_grids_get_what_the_search_finds() {
    let hard = "8..........36......7..9.2...5...7.......457.....1...3...1....68..85...1..9....4..";
    let grid = Grid::<9, 3, 3>::from_str(hard).unwrap();
    assert_eq!(rate_chain(&grid, 10, &mut Finds(Some(4))), Some(ChainRating::GB(4)));
    assert_eq!(rate_chain(&grid, 10, &mut Finds(None)), None);
    assert_eq!(rating_of(Some(7)), Some(ChainRating::GB(7)));
    let left = build_post_brt_grid(&grid).unwrap();
    assert!(!left.is_solved());
    assert!(left.solved_count >= grid.solved_count);
}

#[test]
fn test_chain_rating_to_se_monotonicity() {
    let gb3 = chain_rating_to_se_milli(ChainRating::GB(3));
    let gb4 = chain_rating_to_se_milli(ChainRating::GB(4));
    let gb10 = chain_rating_to_se_milli(ChainRating::GB(10));
    assert!(gb3 < gb4);
    assert!(gb4 < gb10);
}

#[test]
fn scores_of_chain_ratings() {
    assert_eq!(chain_rating_to_se_milli(ChainRating::W(1)), 6600);
    assert_eq!(chain_rating_to_se_milli(ChainRating::GW(2)), 7000);
    assert_eq!(chain_rating_to_se_milli(ChainRating::B(1)), 8000);
    assert_eq!(chain_rating_to_se_milli(ChainRating::GB(3)), 9100);
}

#[test]
fn gbraid_excludes_gwhip_structural() {
    // Structural: GW(k) must NOT be accepted as a gbraid result.
    let gw_rating = ChainRating::GW(2);
    let gb_rating = ChainRating::GB(3);
    assert!(
        !matches!(gw_rating, ChainRating::GB(_)),
        "GW(2) must not match GB(_) — gate rejects it"
    );
    assert!(
        matches!(gb_rating, ChainRating::GB(_)),
        "GB(3) must match GB(_) — gate accepts it"
    );
    let spec = GBraidReverseSpec::new_gb(3, 1, 1);
    assert!(!is_gbraid_puzzle(&spec, Some(3), Some(gw_rating)));
    assert!(is_gbraid_puzzle(&spec, Some(3), Some(gb_rating)));
    assert!(!is_gbraid_puzzle(&spec, None, Some(gb_rating)));
    assert!(!is_gbraid_puzzle(&spec, Some(9), Some(gb_rating)));
}

#[test]
fn validate_rejects_zero_target_k() {
    let spec = GBraidReverseSpec::new_gb(0, 0, 1);
    assert!(spec.validate().is_err(), "target_k=0 must be rejected");
    let mut rng = Xoshiro256PlusPlus::seed_from_u64(0);
    assert!(
        gbraid_reverse_construct(&spec, &mut rng, &mut Finds(Some(3)), &mut Stuck).is_none(),
        "gbraid_reverse_construct must return None on invalid spec"
    );
}

#[test]
fn validate_rejects_inverted_clue_band() {
    let spec = GBraidReverseSpec {
        target_k: 3,
        k_slack: 0,
        clue_min: 35,
        clue_max: 22,
        max_attempts: 1,
        load_bearing: false,
        seed: 0,
    };
    let err = spec.validate().expect_err("clue_min > clue_max must be rejected");
    assert!(
        err.contains("clue_min") && err.contains("clue_max"),
        "rejection message must reference the clue band, got: {err}"
    );
}

#[test]
fn validate_rejects_target_k_below_floor() {
    for bad_k in [0u32, 1, 2] {
        let spec = GBraidReverseSpec {
            target_k: bad_k,
            k_slack: 0,
            clue_min: 22,
            clue_max: 30,
            max_attempts: 1,
            load_bearing: false,
            seed: 0,
        };
        let err = spec.validate().expect_err(&format!("target_k={bad_k} must be rejected"));
        assert!(
            err.contains("target_k") && (err.contains(">= 3") || err.contains("3 ")),
            "rejection for target_k={bad_k} must mention the k>=3 floor, got: {err}"
        );
        let mut rng = Xoshiro256PlusPlus::seed_from_u64(0);
        assert!(
            gbraid_reverse_construct(&spec, &mut rng, &mut Finds(Some(3)), &mut Stuck).is_none(),
            "gbraid_reverse_construct must return None on invalid spec (target_k={bad_k})"
        );
    }
}

#[test]
fn validate_rejects_target_k_above_max() {
    let spec = GBraidReverseSpec {
        target_k: 37,
        k_slack: 0,
        clue_min: 22,
        clue_max: 30,
        max_attempts: 1,
        load_bearing: false,
        seed: 0,
    };
    let err = spec.validate().expect_err("target_k=37 must be rejected");
    assert!(
        err.contains("target_k") && (err.contains("36") || err.contains("maximum")),
        "rejection for target_k=37 must mention the 36 cap, got: {err}"
    );
    let mut rng = Xoshiro256PlusPlus::seed_from_u64(0);
    assert!(
        gbraid_reverse_construct(&spec, &mut rng, &mut Finds(Some(3)), &mut Stuck).is_none(),
        "gbraid_reverse_construct must return None on invalid spec (target_k=37)"
    );
}

fn spec(load_bearing: bool) -> GBraidReverseSpec {
    GBraidReverseSpec {
        target_k: 3,
        k_slack: 2,
        clue_min: 30,
        clue_max: 81,
        max_attempts: 30,
        load_bearing,
        seed: 0,
    }
}

#[test]
fn determinism_same_seed() {
    let mut a = Xoshiro256PlusPlus::seed_from_u64(9999);
    let mut b = Xoshiro256PlusPlus::seed_from_u64(9999);
    let ra = gbraid_reverse_construct(&spec(false), &mut a, &mut Finds(Some(3)), &mut Stuck);
    let rb = gbraid_reverse_construct(&spec(false), &mut b, &mut Finds(Some(3)), &mut Stuck);
    match (ra, rb) {
        (Some(x), Some(y)) => {
            assert_eq!(
                x.puzzle.to_string_grid(),
                y.puzzle.to_string_grid(),
                "determinism violated: same seed produced different puzzles"
            );
            assert_eq!(x.fired_k, y.fired_k);
        }
        (None, None) => { /* both missed budget — still deterministic */ }
        _ => panic!("determinism violated: one Some, one None"),
    }
}

#[test]
fn found_gbraid_puzzles_keep_the_promises() {
    let s = spec(true).with_seed(777);
    let r = gbraid_reverse_construct_from_seed(&s, &mut Finds(Some(4)), &mut Stuck).unwrap();
    assert_eq!(r.fired_k, 4);
    assert_eq!(r.puzzle.solved_count, r.clue_count);
    assert!(30 <= r.clue_count && r.clue_count <= 81);
    assert_eq!(r.seed_used, 777);
    let sol = solve_unique(&r.puzzle).unwrap();
    assert_eq!(sol.to_string_grid(), r.solution.to_string_grid());
    // A search that finds nothing builds nothing.
    let mut few = spec(false);
    few.max_attempts = 2;
    assert!(gbraid_reverse_construct_from_seed(&few, &mut Finds(None), &mut Stuck).is_none());
}

#[test]
fn batch_terminates_and_bounded() {
    let res = batch_gbraid_reverse_construct(&spec(false), 2, 2, &mut Finds(Some(3)), &mut Stuck);
    assert!(res.len() <= 2);
    for r in &res {
        assert_eq!(r.fired_k, 3);
    }
}

#[test]
fn gbraid_scores_and_load() {
    assert_eq!(gbraid_score(None, 5), 0);
    assert!(gbraid_score(Some(5), 5) > 0);
    assert!(is_unsolved_without(&result(false)));
    assert!(!is_unsolved_without(&result(true)));
    let rating = Some(ChainRating::GB(4));
    assert!(is_kept(&spec(false), Some(3), rating, &None));
    assert!(!is_kept(&spec(false), None, rating, &None));
    assert!(!is_kept(&spec(true), Some(3), rating, &None));
    assert!(is_kept(&spec(true), Some(3), rating, &Some(result(false))));
    assert!(!is_kept(&spec(true), Some(3), rating, &Some(result(true))));
}

/// Finds a g-braid of one length in every grid, where the limit allows it.
struct Least(u8);

impl GBraidSearch for Least {
    fn find_first_gbraid(&mut self, _g: &Grid<9, 3, 3>, k_max: u8) -> Option<u8> {
        Some(self.0).filter(|&k| k <= k_max)
    }

    fn find_first_gbraid_excluding_wgwb(&mut self, _g: &Grid<9, 3, 3>, k_max: u8) -> Option<u8> {
        Some(self.0).filter(|&k| k <= k_max)
    }
}

#[test]
fn a_rating_holds_for_every_larger_limit() {
    let grid: Grid<9, 3, 3> = Grid::from_str(
        "........1....12.3...13..4....35...4..6...78..9...2......82....4.7..9....2....65..",
    )
    .unwrap();
    for limit in 0..12 {
        let rating = rate_chain(&grid, limit, &mut Least(5));
        assert_eq!(rating, if limit >= 5 { Some(ChainRating::GB(5)) } else { None });
    }
}
