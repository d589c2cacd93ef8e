use rand_xoshiro::rand_core::SeedableRng;
use rand_xoshiro::Xoshiro256PlusPlus;
use sudoku_rs_core::generic::als_xz_reverse::{
    als_xz_reverse_construct, apply_als_xz, batch_als_xz_reverse_construct, enumerate_alses,
    find_first_als_xz, shares_unit, try_als_xz_eliminate_dryrun, AlsXzReverseSpec,
};
use sudoku_rs_core::generic::grid::Grid;
use sudoku_rs_core::generic::rater::{RateResult, Rater};
use sudoku_rs_core::generic::search::solve_unique;
use sudoku_rs_core::generic::techniques::{tier_rank, TechniqueId, Tier};

/// Says that every puzzle needs almost locked sets.
struct Says;

fn result(tier: Tier, frontier: &[TechniqueId]) -> RateResult {
    RateResult {
        tier,
        frontier: frontier.to_vec(),
        solved: true,
        rater_error: false,
        wave_depth: 0,
        backtrack_steps: 0,
        unique_solution: true,
        se_milli: 0,
    }
}

impl<const N: usize, const BR: usize, const BC: usize> Rater<N, BR, BC> for Says {
    fn rate(&mut self, _puzzle: &Grid<N, BR, BC>) -> RateResult {
        result(Tier::T3, &[TechniqueId::AlsXz])
    }

    fn rate_excluding(
        &mut self,
        _puzzle: &Grid<N, BR, BC>,
        _excluded: &Vec<TechniqueId>,
    ) -> RateResult {
        result(Tier::T4Plus, &[])
    }
}

fn spec(max_attempts: u32, load_bearing: bool) -> AlsXzReverseSpec {
    AlsXzReverseSpec {
        target_tier: Tier::T3,
        clue_min: 22,
        clue_max: 30,
        als_size_min: 1,
        als_size_max: 4,
        max_attempts,
        require_load_bearing: load_bearing,
        greedy_max_trials: 0,
    }
}

fn xy_wing() -> Grid<9, 3, 3> {
    let mut g: Grid<9, 3, 3> = Grid::empty();
    for d in 3..=9u8 {
        g.eliminate(0, d).unwrap();
    }
    for d in [2u8, 4, 5, 6, 7, 8, 9] {
        g.eliminate(3, d).unwrap();
    }
    for d in [1u8, 4, 5, 6, 7, 8, 9] {
        g.eliminate(9, d).unwrap();
    }
    g
}

#[test]
fn als_xz_dryrun_mirrors_production() {
    // Empty grid: neither fires.
    {
        let mut g: Grid<9, 3, 3> = Grid::empty();
        assert!(apply_als_xz::<9, 3, 3>(&mut g).is_none());
        assert!(find_first_als_xz::<9, 3, 3>(&g).is_none());
    }
    // (0,0)={1,2}, (0,3)={1,3}, (1,0)={2,3}.
    {
        let g = xy_wing();
        let probed = find_first_als_xz::<9, 3, 3>(&g);
        assert!(probed.is_some(), "find_first_als_xz must fire on XY-Wing grid");
        let mut g2 = g.clone();
        let p = apply_als_xz::<9, 3, 3>(&mut g2);
        assert!(p.is_some(), "prod AlsXz must fire on XY-Wing grid");
        assert_ne!(g2.candidates, g.candidates);
    }
}

#[test]
fn als_xz_rejects_overlap_cells() {
    let mut g: Grid<9, 3, 3> = Grid::empty();
    for d in 3..=9u8 {
        g.eliminate(0, d).unwrap();
    }
    // (0,0) is now {1,2}. Pass it as both A and B → overlap → reject.
    let a_cells: Vec<u16> = vec![0];
    let b_cells: Vec<u16> = vec![0];
    assert!(
        !try_als_xz_eliminate_dryrun::<9, 3, 3>(&g, &a_cells, &b_cells),
        "ALS-XZ must reject identical (overlapping) cell-sets"
    );
    // Partial overlap: A = [0, 1], B = [0, 2] also overlaps.
    let a2: Vec<u16> = vec![0, 1];
    let b2: Vec<u16> = vec![0, 2];
    assert!(
        !try_als_xz_eliminate_dryrun::<9, 3, 3>(&g, &a2, &b2),
        "ALS-XZ must reject partially-overlapping cell-sets"
    );
}

#[test]
fn almost_locked_sets_of_a_wing() {
    let g = xy_wing();
    let sets = enumerate_alses::<9, 3, 3>(&g);
    for cells in [vec![0u16], vec![3], vec![9], vec![0, 3], vec![0, 9]] {
        assert!(sets.contains(&cells), "{:?} is missing", cells);
    }
    assert!(shares_unit::<9, 3, 3>(&g, 0, 3));
    assert!(shares_unit::<9, 3, 3>(&g, 0, 10));
    assert!(!shares_unit::<9, 3, 3>(&g, 0, 40));
    // {1,2,3} in two cells and {1,3} in one: the 3 falls where it sees both.
    assert!(try_als_xz_eliminate_dryrun::<9, 3, 3>(&g, &[0, 9], &[3]));
}

#[test]
fn als_xz_reverse_determinism_same_seed_same_puzzle() {
    let mut a = Xoshiro256PlusPlus::seed_from_u64(31337);
    let mut b = Xoshiro256PlusPlus::seed_from_u64(31337);
    let ra = als_xz_reverse_construct::<9, 3, 3, Says>(&mut a, &mut Says, &spec(50, false));
    let rb = als_xz_reverse_construct::<9, 3, 3, Says>(&mut b, &mut Says, &spec(50, false));
    match (ra, rb) {
        (Some(x), Some(y)) => {
            assert_eq!(x.puzzle.to_string_grid(), y.puzzle.to_string_grid());
        }
        (None, None) => {}
        _ => panic!("determinism violated: one Some, one None"),
    }
}

#[test]
fn als_xz_reverse_load_bearing_strict_semantics() {
    let mut rng = Xoshiro256PlusPlus::seed_from_u64(2026);
    let res = als_xz_reverse_construct::<9, 3, 3, Says>(&mut rng, &mut Says, &spec(200, true));
    if let Some(r) = res {
        assert_eq!(tier_rank(r.rate.tier), tier_rank(Tier::T3));
        assert!(r.rate.frontier.contains(&TechniqueId::AlsXz));
        let r2 = Says.rate_excluding(&r.puzzle, &vec![TechniqueId::AlsXz]);
        assert!(
            tier_rank(r2.tier) > tier_rank(Tier::T3),
            "strict load-bearing violated: rate_excluding tier = {:?}",
            r2.tier
        );
        // Sanity: ALS sizes within band (default 1..=4 always holds).
        let (min_s, _) = find_first_als_xz::<9, 3, 3>(&r.puzzle).unwrap();
        assert!((1..=4).contains(&min_s));
    }
}

#[test]
fn smoke_9x9_als_xz() {
    let mut rng = Xoshiro256PlusPlus::seed_from_u64(7);
    let res = als_xz_reverse_construct::<9, 3, 3, Says>(&mut rng, &mut Says, &spec(50, false));
    if let Some(r) = res {
        assert_eq!(tier_rank(r.rate.tier), tier_rank(Tier::T3));
        assert!(r.rate.frontier.contains(&TechniqueId::AlsXz));
        // returned puzzle solves to its solution.
        let sol = solve_unique::<9, 3, 3>(&r.puzzle).expect("must be unique");
        assert_eq!(sol.to_string_grid(), r.solution.to_string_grid());
    }
}

#[test]
fn smoke_16x16_als_xz() {
    let s = AlsXzReverseSpec {
        target_tier: Tier::T3,
        clue_min: 100,
        clue_max: 130,
        als_size_min: 1,
        als_size_max: 4,
        max_attempts: 1,
        require_load_bearing: false,
        greedy_max_trials: 32,
    };
    let mut rng = Xoshiro256PlusPlus::seed_from_u64(101);
    let _ = als_xz_reverse_construct::<16, 4, 4, Says>(&mut rng, &mut Says, &s);
    // Termination is the assertion.
}

#[test]
fn als_xz_reverse_validate_rejects_bad_specs() {
    let mut s = AlsXzReverseSpec::new_t3(22, 30, 10);
    assert!(s.validate().is_ok());
    s.target_tier = Tier::T1;
    assert!(s.validate().is_err());
    s.target_tier = Tier::T2;
    assert!(s.validate().is_err());
    s.target_tier = Tier::T3;
    s.als_size_min = 0;
    assert!(s.validate().is_err());
    s.als_size_min = 1;
    s.als_size_max = 5;
    assert!(s.validate().is_err());
    s.als_size_max = 4;
    s.als_size_min = 4;
    s.als_size_max = 2;
    assert!(s.validate().is_err());
    s.als_size_min = 1;
    s.als_size_max = 4;
    s.clue_min = 50;
    s.clue_max = 30;
    assert!(s.validate().is_err());
}

#[test]
fn als_xz_reverse_batch_smoke_terminates() {
    let res = batch_als_xz_reverse_construct::<9, 3, 3, Says>(42, Says, &spec(30, false), 2, 1);
    assert!(res.len() <= 2);
}

#[test]
fn the_tier_has_to_be_that_of_the_rule() {
    let mut s = AlsXzReverseSpec::new_t3(22, 30, 10);
    assert!(s.validate().is_ok());
    for tier in [Tier::T1, Tier::T2, Tier::T4Plus] {
        s.target_tier = tier;
        assert_eq!(s.validate().unwrap_err(), "target_tier must be T3 (AlsXz is T3)");
    }
}
