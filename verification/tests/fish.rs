use rand_xoshiro::rand_core::SeedableRng;
use rand_xoshiro::Xoshiro256PlusPlus;
use sudoku_rs_core::generic::fish_reverse::{
    apply_fish, batch_fish_reverse_construct, build_line_masks, find_first_fish_size,
    fish_fires_at_size, fish_id_for, fish_reverse_construct, is_fish_puzzle, FishReverseSpec,
};
use sudoku_rs_core::generic::grid::Grid;
use sudoku_rs_core::generic::rater::{RateResult, Rater};
use sudoku_rs_core::generic::reverse_construct::judged;
use sudoku_rs_core::generic::search::solve_unique;
use sudoku_rs_core::generic::techniques::{tier_rank, TechniqueId, Tier};

/// Says the same of every puzzle: one tier, or a higher one without some technique.
struct Says {
    tier: Tier,
    frontier: Vec<TechniqueId>,
    without: Tier,
}

fn result(tier: Tier, frontier: &[TechniqueId]) -> RateResult {
    RateResult {
        tier,
        frontier: frontier.to_vec(),
        solved: true,
        rater_error: false,
        wave_depth: 0,
        backtrack_steps: 0,
        unique_solution: true,
        se_milli: 0,
    }
}

impl<const N: usize, const BR: usize, const BC: usize> Rater<N, BR, BC> for Says {
    fn rate(&mut self, _puzzle: &Grid<N, BR, BC>) -> RateResult {
        result(self.tier, &self.frontier)
    }

    fn rate_excluding(
        &mut self,
        _puzzle: &Grid<N, BR, BC>,
        _excluded: &Vec<TechniqueId>,
    ) -> RateResult {
        result(self.without, &[])
    }
}

fn fish_rater() -> Says {
    Says {
        tier: Tier::T3,
        frontier: vec![TechniqueId::XWing, TechniqueId::Swordfish, TechniqueId::Jellyfish],
        without: Tier::T4Plus,
    }
}

fn spec(target_size: usize, max_attempts: u32, load_bearing: bool) -> FishReverseSpec {
    FishReverseSpec {
        target_size,
        target_tier: Tier::T3,
        clue_min: 22,
        clue_max: 30,
        max_attempts,
        require_load_bearing: load_bearing,
        greedy_max_trials: 0,
    }
}

#[test]
fn fish_dryrun_mirrors_production_xwing_9x9() {
    let mut g: Grid<9, 3, 3> = Grid::empty();
    for c in 0..9 {
        if c != 4 && c != 7 {
            g.eliminate(0 * 9 + c, 5).unwrap();
        }
    }
    for c in 0..9 {
        if c != 4 && c != 7 {
            g.eliminate(4 * 9 + c, 5).unwrap();
        }
    }
    assert_eq!(find_first_fish_size::<9, 3, 3>(&g), Some(2), "dry-run must detect X-Wing");
    assert!(fish_fires_at_size::<9, 3, 3>(&g, 2));
    let mut h = g.clone();
    let p = apply_fish::<9, 3, 3>(&mut h, 2);
    assert!(p.is_some(), "production X-Wing must fire");
    // The elimination lies in one of the two columns, off the two rows.
    let (cell, digit) = p.unwrap();
    assert_eq!(digit, 5);
    assert!(cell % 9 == 4 || cell % 9 == 7);
    assert!(cell / 9 != 0 && cell / 9 != 4);
    assert_eq!(h.candidates[cell] & 0b1_0000, 0);
}

#[test]
fn fish_dryrun_mirrors_production_swordfish_9x9() {
    let mut g: Grid<9, 3, 3> = Grid::empty();
    let allowed = [
        (0usize, [0, 1].as_slice()),
        (1, [1, 2].as_slice()),
        (2, [0, 2].as_slice()),
    ];
    for &(r, a) in &allowed {
        for c in 0..9 {
            if !a.contains(&c) {
                g.eliminate(r * 9 + c, 7).unwrap();
            }
        }
    }
    assert!(fish_fires_at_size::<9, 3, 3>(&g, 3));
    let mut h = g.clone();
    let p = apply_fish::<9, 3, 3>(&mut h, 3);
    assert!(p.is_some(), "production Swordfish must fire");
}

#[test]
fn fish_dryrun_mirrors_production_jellyfish_16x16() {
    let mut g: Grid<16, 4, 4> = Grid::empty();
    let allowed_per_row: [(usize, &[usize]); 4] = [
        (0, &[0, 1, 2, 3]),
        (1, &[0, 1, 2, 3]),
        (2, &[0, 1, 2, 3]),
        (3, &[0, 1, 2, 3]),
    ];
    for &(r, a) in &allowed_per_row {
        for c in 0..16 {
            if !a.contains(&c) {
                g.eliminate(r * 16 + c, 7).unwrap();
            }
        }
    }
    assert!(fish_fires_at_size::<16, 4, 4>(&g, 4));
    let mut h = g.clone();
    let p = apply_fish::<16, 4, 4>(&mut h, 4);
    assert!(p.is_some(), "production Jellyfish must fire");
}

#[test]
fn fish_dryrun_rejects_pseudo_fish_9x9() {
    let mut g: Grid<9, 3, 3> = Grid::empty();
    // We restrict row 0 to cols {0,3}, row 3 to col {0} only, others free.
    for c in 0..9 {
        if c != 0 && c != 3 {
            g.eliminate(0 * 9 + c, 7).unwrap();
        }
    }
    for c in 0..9 {
        if c != 0 {
            g.eliminate(3 * 9 + c, 7).unwrap();
        }
    }
    assert!(!fish_fires_at_size::<9, 3, 3>(&g, 2), "pseudo-fish must NOT trigger dry-run");
    let mut h = g.clone();
    let p = apply_fish::<9, 3, 3>(&mut h, 2);
    assert!(p.is_none(), "production X-Wing must NOT fire on pseudo");
    assert_eq!(h.candidates, g.candidates);
}

#[test]
fn find_first_fish_size_deterministic() {
    let mut g: Grid<9, 3, 3> = Grid::empty();
    for c in 0..9 {
        if c != 4 && c != 7 {
            g.eliminate(0 * 9 + c, 5).unwrap();
        }
    }
    for c in 0..9 {
        if c != 4 && c != 7 {
            g.eliminate(4 * 9 + c, 5).unwrap();
        }
    }
    let a = find_first_fish_size::<9, 3, 3>(&g);
    let b = find_first_fish_size::<9, 3, 3>(&g);
    let c = find_first_fish_size::<9, 3, 3>(&g);
    assert_eq!(a, b);
    assert_eq!(b, c);
    assert_eq!(a, Some(2));
}

#[test]
fn line_masks_show_where_a_digit_can_go() {
    let mut g: Grid<9, 3, 3> = Grid::empty();
    g.assign(40, 3).unwrap();
    let (masks, placed) = build_line_masks::<9, 3, 3>(&g, 3, true);
    assert!(placed[4]);
    assert!(!placed[0]);
    assert_eq!(masks[0], 0b1_1110_1111);
    assert_eq!(masks[3], 0b1_1100_0111);
}

#[test]
fn fish_reverse_determinism_same_seed_same_puzzle() {
    let s = spec(2, 30, false);
    let mut a = Xoshiro256PlusPlus::seed_from_u64(31337);
    let mut b = Xoshiro256PlusPlus::seed_from_u64(31337);
    let ra = fish_reverse_construct::<9, 3, 3, Says>(&mut a, &mut fish_rater(), &s);
    let rb = fish_reverse_construct::<9, 3, 3, Says>(&mut b, &mut fish_rater(), &s);
    match (ra, rb) {
        (Some(x), Some(y)) => {
            assert_eq!(x.puzzle.to_string_grid(), y.puzzle.to_string_grid());
        }
        (None, None) => {}
        _ => panic!("determinism violated: one Some, one None"),
    }
}

#[test]
fn load_bearing_strict_semantics_xwing_9x9() {
    let mut s = spec(2, 200, true);
    s.clue_max = 28;
    let mut rater = fish_rater();
    let mut rng = Xoshiro256PlusPlus::seed_from_u64(2026);
    if let Some(r) = fish_reverse_construct::<9, 3, 3, Says>(&mut rng, &mut rater, &s) {
        let r2 = rater.rate_excluding(&r.puzzle, &vec![TechniqueId::XWing]);
        assert!(!r2.rater_error);
        assert!(
            tier_rank(r2.tier) > tier_rank(Tier::T3),
            "load_bearing violated: rate_excluding tier = {:?}",
            r2.tier
        );
    }
    // A puzzle that is no harder without the fish is not taken.
    let mut easy = fish_rater();
    easy.without = Tier::T3;
    let mut few = s;
    few.max_attempts = 3;
    assert!(fish_reverse_construct::<9, 3, 3, Says>(&mut rng, &mut easy, &few).is_none());
}

#[test]
fn validate_rejects_invalid_size() {
    let mut spec = FishReverseSpec::new_t3(2, 1);
    spec.target_size = 5;
    assert!(spec.validate().is_err());
    spec.target_size = 1;
    assert!(spec.validate().is_err());
    spec.target_size = 3;
    assert!(spec.validate().is_ok());
}

#[test]
fn fish_spec_errors_say_what_is_wrong() {
    let mut s = FishReverseSpec::new_t3(2, 1);
    s.clue_min = 40;
    s.clue_max = 30;
    assert_eq!(s.validate().unwrap_err(), "clue_min (40) > clue_max (30)");
    let mut t = FishReverseSpec::new_t3(2, 1);
    t.target_tier = Tier::T1;
    assert!(t.validate().unwrap_err().contains("T1"));
    t.target_size = 7;
    t.target_tier = Tier::T3;
    assert!(t.validate().unwrap_err().contains('7'));
    assert_eq!(fish_id_for(2), TechniqueId::XWing);
    assert_eq!(fish_id_for(3), TechniqueId::Swordfish);
    assert_eq!(fish_id_for(4), TechniqueId::Jellyfish);
}

#[test]
fn smoke_9x9_x_wing() {
    let mut rng = Xoshiro256PlusPlus::seed_from_u64(11);
    let _ = fish_reverse_construct::<9, 3, 3, Says>(&mut rng, &mut fish_rater(), &spec(2, 50, false));
}

#[test]
fn smoke_9x9_swordfish() {
    let mut rng = Xoshiro256PlusPlus::seed_from_u64(13);
    let _ = fish_reverse_construct::<9, 3, 3, Says>(&mut rng, &mut fish_rater(), &spec(3, 30, false));
}

#[test]
fn smoke_9x9_jellyfish() {
    let mut rng = Xoshiro256PlusPlus::seed_from_u64(17);
    let _ = fish_reverse_construct::<9, 3, 3, Says>(&mut rng, &mut fish_rater(), &spec(4, 20, false));
}

#[test]
fn smoke_16x16_x_wing() {
    let s = FishReverseSpec {
        target_size: 2,
        target_tier: Tier::T3,
        clue_min: 100,
        clue_max: 130,
        max_attempts: 1,
        require_load_bearing: false,
        greedy_max_trials: 32,
    };
    let mut rng = Xoshiro256PlusPlus::seed_from_u64(101);
    let _ = fish_reverse_construct::<16, 4, 4, Says>(&mut rng, &mut fish_rater(), &s);
}

#[test]
fn fish_reverse_returned_puzzle_solves_to_solution() {
    let mut rng = Xoshiro256PlusPlus::seed_from_u64(2027);
    let found = fish_reverse_construct::<9, 3, 3, Says>(
        &mut rng,
        &mut fish_rater(),
        &spec(2, 100, false),
    );
    if let Some(r) = found {
        let sol = solve_unique::<9, 3, 3>(&r.puzzle).expect("returned puzzle must be unique");
        assert_eq!(sol.to_string_grid(), r.solution.to_string_grid());
        assert!(is_fish_puzzle(&spec(2, 100, false), &r.rate, &r.puzzle));
        assert_eq!(r.clue_count, r.puzzle.solved_count);
    }
}

#[test]
fn fish_reverse_batch_smoke_terminates() {
    let res =
        batch_fish_reverse_construct::<9, 3, 3, Says>(42, fish_rater(), &spec(2, 50, false), 2, 1);
    assert!(res.len() <= 2);
}

#[test]
fn a_rater_that_disagrees_yields_nothing() {
    let mut other = fish_rater();
    other.tier = Tier::T2;
    let res = batch_fish_reverse_construct::<9, 3, 3, Says>(42, other, &spec(2, 4, false), 2, 2);
    assert!(res.is_empty());
}

#[test]
fn the_first_worker_goes_on_from_the_seed() {
    let s = spec(2, 30, false);
    let mut rng = Xoshiro256PlusPlus::seed_from_u64(31337);
    let alone = fish_reverse_construct::<9, 3, 3, Says>(&mut rng, &mut fish_rater(), &s);
    let batch = batch_fish_reverse_construct::<9, 3, 3, Says>(31337, fish_rater(), &s, 1, 1);
    assert_eq!(
        alone.map(|x| x.puzzle.to_string_grid()),
        batch.first().map(|x| x.puzzle.to_string_grid())
    );
}

#[test]
fn attempts_are_judged_by_both_ratings() {
    let s = spec(2, 30, false);
    let hit = || {
        let mut r = Xoshiro256PlusPlus::seed_from_u64(31337);
        fish_reverse_construct::<9, 3, 3, Says>(&mut r, &mut fish_rater(), &s)
    };
    if let Some(x) = hit() {
        let rated = x.rate.clone();
        let mut harder = rated.clone();
        harder.tier = Tier::T4Plus;
        assert!(judged(true, false, Tier::T3, None, x).is_some());
        assert!(judged(false, false, Tier::T3, None, hit().unwrap()).is_none());
        assert!(judged(true, true, Tier::T3, None, hit().unwrap()).is_none());
        assert!(judged(true, true, Tier::T3, Some(rated), hit().unwrap()).is_none());
        assert!(judged(true, true, Tier::T3, Some(harder), hit().unwrap()).is_some());
    }
}
