use rand_xoshiro::rand_core::SeedableRng;
use rand_xoshiro::Xoshiro256PlusPlus;
use sudoku_rs_core::generic::grid::Grid;
use sudoku_rs_core::generic::hidden_quad_reverse::{
    apply_hidden_quad, batch_hidden_quad_reverse_construct, find_first_hidden_quad,
    hidden_quad_reverse_construct, try_hidden_quad_eliminate_dryrun, HiddenQuadReverseSpec,
};
use sudoku_rs_core::generic::rater::{RateResult, Rater};
use sudoku_rs_core::generic::search::solve_unique;
use sudoku_rs_core::generic::techniques::{tier_rank, TechniqueId, Tier};

/// Says that every puzzle needs a hidden quad.
struct Says;

fn result(tier: Tier, frontier: &[TechniqueId]) -> RateResult {
    RateResult {
        tier,
        frontier: frontier.to_vec(),
        solved: true,
        rater_error: false,
        wave_depth: 0,
        backtrack_steps: 0,
        unique_solution: true,
        se_milli: 0,
    }
}

impl<const N: usize, const BR: usize, const BC: usize> Rater<N, BR, BC> for Says {
    fn rate(&mut self, _puzzle: &Grid<N, BR, BC>) -> RateResult {
        result(Tier::T2, &[TechniqueId::HiddenQuad])
    }

    fn rate_excluding(
        &mut self,
        _puzzle: &Grid<N, BR, BC>,
        _excluded: &Vec<TechniqueId>,
    ) -> RateResult {
        result(Tier::T3, &[])
    }
}

fn spec(max_attempts: u32, load_bearing: bool) -> HiddenQuadReverseSpec {
    HiddenQuadReverseSpec {
        target_tier: Tier::T2,
        clue_min: 28,
        clue_max: 36,
        max_attempts,
        require_load_bearing: load_bearing,
        greedy_max_trials: 0,
    }
}

#[test]
fn hidden_quad_dryrun_mirrors_production() {
    // Empty: neither fires.
    {
        let mut g: Grid<9, 3, 3> = Grid::empty();
        assert!(apply_hidden_quad::<9, 3, 3>(&mut g).is_none());
        assert!(find_first_hidden_quad::<9, 3, 3>(&g).is_none());
    }
    // Canonical hidden quad in row 0: digits 1,2,3,4 confined to cells 0..3
    // (eliminate them from cells 4..8).
    {
        let mut g: Grid<9, 3, 3> = Grid::empty();
        for c in 4..9usize {
            for d in [1u8, 2, 3, 4] {
                g.eliminate(c, d).unwrap();
            }
        }
        // probe fires
        let probed = find_first_hidden_quad::<9, 3, 3>(&g);
        assert!(probed.is_some(), "find_first_hidden_quad must fire");
        let (u, digits) = probed.unwrap();
        assert_eq!(u, 0);
        assert!(try_hidden_quad_eliminate_dryrun::<9, 3, 3>(&g, digits, u));
        // production fires
        let mut g2 = g.clone();
        assert!(apply_hidden_quad::<9, 3, 3>(&mut g2).is_some());
        assert_ne!(g2.candidates, g.candidates);
    }
}

#[test]
fn hidden_quad_rejects_pseudo_quad() {
    let mut g: Grid<9, 3, 3> = Grid::empty();
    // Duplicate digit.
    let dup = [1u8, 1, 2, 3];
    assert!(!try_hidden_quad_eliminate_dryrun::<9, 3, 3>(&g, dup, 0));
    // Out-of-range digit (10 > N=9).
    let oob = [1u8, 2, 3, 10];
    assert!(!try_hidden_quad_eliminate_dryrun::<9, 3, 3>(&g, oob, 0));
    // Out-of-range unit_idx.
    let ok = [1u8, 2, 3, 4];
    assert!(!try_hidden_quad_eliminate_dryrun::<9, 3, 3>(&g, ok, 999));

    // Empty grid: digits 1..4 each appear in 9 positions.
    assert!(!try_hidden_quad_eliminate_dryrun::<9, 3, 3>(&g, ok, 0));

    // Digits 1,2,3 confined to cells 0..3; digit 5 still fires in 9 positions.
    for c in 4..9usize {
        for d in [1u8, 2, 3] {
            g.eliminate(c, d).unwrap();
        }
    }
    let mixed = [1u8, 2, 3, 5];
    assert!(!try_hidden_quad_eliminate_dryrun::<9, 3, 3>(&g, mixed, 0));
}

#[test]
fn hidden_quad_reverse_determinism_same_seed_same_puzzle() {
    let mut a = Xoshiro256PlusPlus::seed_from_u64(0xBADC0DE);
    let mut b = Xoshiro256PlusPlus::seed_from_u64(0xBADC0DE);
    let ra = hidden_quad_reverse_construct::<9, 3, 3, Says>(&mut a, &mut Says, &spec(30, false));
    let rb = hidden_quad_reverse_construct::<9, 3, 3, Says>(&mut b, &mut Says, &spec(30, false));
    match (ra, rb) {
        (Some(x), Some(y)) => {
            assert_eq!(x.puzzle.to_string_grid(), y.puzzle.to_string_grid());
        }
        (None, None) => {}
        _ => panic!("determinism violated: one Some, one None"),
    }
}

#[test]
fn hidden_quad_reverse_load_bearing_strict_semantics() {
    let mut rng = Xoshiro256PlusPlus::seed_from_u64(2026);
    let res = hidden_quad_reverse_construct::<9, 3, 3, Says>(&mut rng, &mut Says, &spec(200, true));
    if let Some(r) = res {
        assert_eq!(tier_rank(r.rate.tier), tier_rank(Tier::T2));
        assert!(r.rate.frontier.contains(&TechniqueId::HiddenQuad));
        let r2 = Says.rate_excluding(&r.puzzle, &vec![TechniqueId::HiddenQuad]);
        assert!(
            tier_rank(r2.tier) > tier_rank(Tier::T2),
            "strict load-bearing violated: rate_excluding tier = {:?}",
            r2.tier
        );
    }
}

#[test]
fn smoke_9x9_hidden_quad() {
    let mut rng = Xoshiro256PlusPlus::seed_from_u64(7);
    let res = hidden_quad_reverse_construct::<9, 3, 3, Says>(&mut rng, &mut Says, &spec(30, false));
    if let Some(r) = res {
        assert_eq!(tier_rank(r.rate.tier), tier_rank(Tier::T2));
        assert!(r.rate.frontier.contains(&TechniqueId::HiddenQuad));
        let sol = solve_unique::<9, 3, 3>(&r.puzzle).expect("must be unique");
        assert_eq!(sol.to_string_grid(), r.solution.to_string_grid());
    }
}

#[test]
fn smoke_12x12_hidden_quad() {
    let s = HiddenQuadReverseSpec {
        target_tier: Tier::T2,
        clue_min: 70,
        clue_max: 100,
        max_attempts: 1,
        require_load_bearing: false,
        greedy_max_trials: 32,
    };
    let mut rng = Xoshiro256PlusPlus::seed_from_u64(101);
    let _ = hidden_quad_reverse_construct::<12, 3, 4, Says>(&mut rng, &mut Says, &s);
}

#[test]
fn hidden_quad_reverse_validate_rejects_bad_specs() {
    let mut s = HiddenQuadReverseSpec::new_t2(28, 36, 10);
    assert!(s.validate().is_ok());
    s.target_tier = Tier::T1;
    assert!(s.validate().is_err());
    s.target_tier = Tier::T2;
    s.clue_min = 50;
    s.clue_max = 30;
    assert!(s.validate().is_err());
}

#[test]
fn hidden_quad_reverse_batch_smoke_terminates() {
    let res = batch_hidden_quad_reverse_construct::<9, 3, 3, Says>(42, Says, &spec(20, false), 2, 1);
    assert!(res.len() <= 2);
}
