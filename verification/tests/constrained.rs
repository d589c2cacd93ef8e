use rand::seq::SliceRandom;
use rand_xoshiro::rand_core::{RngCore, SeedableRng};
use rand_xoshiro::Xoshiro256PlusPlus;
use sudoku_rs_core::generic::als_xz_reverse::apply_als_xz;
use sudoku_rs_core::generic::backtracker::propagate_singles;
use sudoku_rs_core::generic::fish_reverse::apply_fish;
use sudoku_rs_core::generic::generator::random_solution;
use sudoku_rs_core::generic::generator_constrained::{
    gen_constrained, is_not_needed, is_step_taken, is_wanted, stop_target,
    try_generate_constrained,
};
use sudoku_rs_core::generic::grid::Grid;
use sudoku_rs_core::generic::hidden_quad_reverse::apply_hidden_quad;
use sudoku_rs_core::generic::rater::{RateResult, Rater};
use sudoku_rs_core::generic::search::count_solutions_up_to;
use sudoku_rs_core::generic::spec::TechniqueChainSpec;
use sudoku_rs_core::generic::techniques::{TechniqueId, Tier};

/// Solves by singles, then pairs, locked candidates and hidden quads, then fish and almost
/// locked sets.
struct Cascade;

fn result(tier: Tier, frontier: Vec<TechniqueId>, solved: bool, error: bool) -> RateResult {
    RateResult {
        tier,
        frontier,
        solved,
        rater_error: error,
        wave_depth: 0,
        backtrack_steps: 0,
        unique_solution: solved,
        se_milli: 0,
    }
}

/// Takes digits out of the cells of a unit, if there are any.
fn strike<const N: usize, const BR: usize, const BC: usize>(
    g: &mut Grid<N, BR, BC>,
    cells: &[u16],
    keep: &[u16],
    mask: u32,
) -> bool {
    let mut any = false;
    for &c in cells {
        let cell = c as usize;
        if keep.contains(&c) || g.solved[cell] != 0 {
            continue;
        }
        for d in 1..=N as u8 {
            if mask & (1 << (d - 1)) != 0 && matches!(g.eliminate(cell, d), Ok(true)) {
                any = true;
            }
        }
    }
    any
}

fn subsets_and_locks<const N: usize, const BR: usize, const BC: usize>(
    g: &mut Grid<N, BR, BC>,
) -> Option<TechniqueId> {
    let units: Vec<Vec<u16>> = g.table().units.clone();
    for u in &units {
        for (i, &a) in u.iter().enumerate() {
            for &b in &u[i + 1..] {
                let m = g.candidates[a as usize];
                if m.count_ones() == 2
                    && m == g.candidates[b as usize]
                    && strike(g, u, &[a, b], m)
                {
                    return Some(TechniqueId::NakedPair);
                }
            }
        }
    }
    for u in &units {
        for d in 1..=N as u8 {
            let spots: Vec<u16> = u
                .iter()
                .copied()
                .filter(|&c| {
                    g.solved[c as usize] == 0 && g.candidates[c as usize] & (1 << (d - 1)) != 0
                })
                .collect();
            if spots.len() < 2 {
                continue;
            }
            for v in &units {
                if v != u && spots.iter().all(|s| v.contains(s)) && strike(g, v, &spots, 1 << (d - 1))
                {
                    return Some(TechniqueId::LockedPointing);
                }
            }
        }
    }
    None
}

fn cascade<const N: usize, const BR: usize, const BC: usize>(
    puzzle: &Grid<N, BR, BC>,
    excluded: &[TechniqueId],
) -> RateResult {
    let mut g = puzzle.clone();
    let mut frontier: Vec<TechniqueId> = vec![];
    let mut tier = Tier::T1;
    loop {
        if propagate_singles(&mut g).is_err() {
            return result(Tier::T4Plus, vec![], false, true);
        }
        if g.is_solved() {
            return result(tier, frontier, true, false);
        }
        let mut fired = subsets_and_locks(&mut g);
        let mut level = Tier::T2;
        if fired.is_none() && !excluded.contains(&TechniqueId::HiddenQuad) {
            fired = apply_hidden_quad(&mut g).map(|_| TechniqueId::HiddenQuad);
        }
        if fired.is_none() {
            level = Tier::T3;
            for (k, id) in
                [(2, TechniqueId::XWing), (3, TechniqueId::Swordfish), (4, TechniqueId::Jellyfish)]
            {
                if fired.is_none() && !excluded.contains(&id) {
                    fired = apply_fish(&mut g, k).map(|_| id);
                }
            }
        }
        if fired.is_none() && !excluded.contains(&TechniqueId::AlsXz) {
            fired = apply_als_xz(&mut g).map(|_| TechniqueId::AlsXz);
        }
        match fired {
            None => return result(Tier::T4Plus, frontier, false, false),
            Some(id) => {
                if tier != Tier::T3 {
                    tier = level;
                }
                if !frontier.contains(&id) {
                    frontier.push(id);
                }
            }
        }
    }
}

impl<const N: usize, const BR: usize, const BC: usize> Rater<N, BR, BC> for Cascade {
    fn rate(&mut self, puzzle: &Grid<N, BR, BC>) -> RateResult {
        cascade(puzzle, &[])
    }

    fn rate_excluding(
        &mut self,
        puzzle: &Grid<N, BR, BC>,
        excluded: &Vec<TechniqueId>,
    ) -> RateResult {
        cascade(puzzle, excluded)
    }
}

/// Says that every puzzle needs an alternating chain.
struct NeedsChain;

impl Rater<9, 3, 3> for NeedsChain {
    fn rate(&mut self, _puzzle: &Grid<9, 3, 3>) -> RateResult {
        result(Tier::T3, vec![TechniqueId::Aic], true, false)
    }

    fn rate_excluding(
        &mut self,
        _puzzle: &Grid<9, 3, 3>,
        _excluded: &Vec<TechniqueId>,
    ) -> RateResult {
        result(Tier::T4Plus, vec![], false, false)
    }
}

fn make_spec(tier: Tier, clue_min: u32, clue_max: u32) -> TechniqueChainSpec {
    TechniqueChainSpec { target_tier: tier, required_techniques: Vec::new(), clue_min, clue_max }
}

fn found<const N: usize, const BR: usize, const BC: usize>(
    seed: u64,
    spec: &TechniqueChainSpec,
    rounds: usize,
    wanted: usize,
) -> usize {
    let mut rng = Xoshiro256PlusPlus::seed_from_u64(seed);
    let mut found = 0;
    for _ in 0..rounds {
        if let Some((g, r, c)) =
            gen_constrained::<N, BR, BC, Cascade>(&mut rng, &mut Cascade, spec, 4)
        {
            assert_eq!(r.tier, spec.target_tier);
            assert_eq!(c, g.solved_count);
            assert!(spec.clue_min <= c && c <= spec.clue_max);
            assert_eq!(count_solutions_up_to(&g, 2), 1);
            found += 1;
            if found >= wanted {
                break;
            }
        }
    }
    found
}

#[test]
fn t1_9x9_100_puzzles() {
    let found = found::<9, 3, 3>(101, &make_spec(Tier::T1, 17, 50), 400, 100);
    assert!(found >= 100, "expected ≥100 T1@9×9 puzzles, got {}", found);
}

#[test]
fn t2_9x9_100_puzzles() {
    let found = found::<9, 3, 3>(102, &make_spec(Tier::T2, 17, 50), 600, 100);
    assert!(found >= 100, "expected ≥100 T2@9×9, got {}", found);
}

#[test]
fn t3_9x9_100_puzzles() {
    let found = found::<9, 3, 3>(103, &make_spec(Tier::T3, 17, 50), 1500, 100);
    assert!(found >= 100, "expected ≥100 T3@9×9, got {}", found);
}

#[test]
fn t4plus_9x9_100_puzzles() {
    let found = found::<9, 3, 3>(104, &make_spec(Tier::T4Plus, 17, 50), 1500, 100);
    assert!(found >= 100, "expected ≥100 T4Plus@9×9, got {}", found);
}

#[test]
fn t1_6x6_50_puzzles() {
    let found = found::<6, 2, 3>(201, &make_spec(Tier::T1, 4, 30), 400, 50);
    assert!(found >= 50, "expected ≥50 T1@6×6, got {}", found);
}

#[test]
fn t1_12x12_50_puzzles() {
    let found = found::<12, 3, 4>(301, &make_spec(Tier::T1, 30, 144), 400, 50);
    assert!(found >= 50, "expected ≥50 T1@12×12, got {}", found);
}

#[test]
fn t1_16x16_50_puzzles() {
    let found = found::<16, 4, 4>(401, &make_spec(Tier::T1, 60, 256), 400, 50);
    assert!(found >= 50, "expected ≥50 T1@16×16, got {}", found);
}

#[test]
fn t1_generator_distribution_not_constant() {
    let mut rng = Xoshiro256PlusPlus::seed_from_u64(9999);
    // 9×9 T1 defaults: round(0.40*81)=32, round(0.55*81)=45.
    let spec = make_spec(Tier::T1, 32, 45);
    let mut clue_counts: Vec<u32> = Vec::new();
    for _ in 0..600 {
        if let Some((_g, r, c)) =
            gen_constrained::<9, 3, 3, Cascade>(&mut rng, &mut Cascade, &spec, 4)
        {
            assert_eq!(r.tier, Tier::T1);
            clue_counts.push(c);
            if clue_counts.len() >= 100 {
                break;
            }
        }
    }
    assert!(
        clue_counts.len() >= 100,
        "expected ≥100 T1@9×9 puzzles, got {}",
        clue_counts.len()
    );
    let unique: std::collections::HashSet<u32> = clue_counts.iter().copied().collect();
    assert!(
        unique.len() > 5,
        "T1 clue_count distribution collapsed: only {} unique values: {:?}",
        unique.len(),
        unique
    );
    // Sanity: no value above clue_max, none below clue_min.
    for &c in &clue_counts {
        assert!(c >= 32 && c <= 45, "clue_count {} outside [32,45]", c);
    }
}

#[test]
fn load_bearing_t3_aic_drops_when_excluded() {
    let mut rng = Xoshiro256PlusPlus::seed_from_u64(501);
    let spec = TechniqueChainSpec {
        target_tier: Tier::T3,
        required_techniques: vec![TechniqueId::Aic],
        clue_min: 17,
        clue_max: 40,
    };
    let mut found = 0;
    for _ in 0..3000 {
        if let Some((g, r, _c)) =
            gen_constrained::<9, 3, 3, NeedsChain>(&mut rng, &mut NeedsChain, &spec, 4)
        {
            assert_eq!(r.tier, Tier::T3);
            assert!(r.frontier.iter().any(|id| *id == TechniqueId::Aic));
            let probe = NeedsChain.rate_excluding(&g, &vec![TechniqueId::Aic]);
            assert!(
                probe.rater_error || probe.tier == Tier::T1 || probe.tier == Tier::T2 || !probe.solved,
                "AIC-required puzzle still solves at T3 without AIC: {:?}",
                probe
            );
            found += 1;
            if found >= 5 {
                return;
            }
        }
    }
    panic!("only {} puzzles in 3000 attempts", found);
}

#[test]
fn decisions_of_the_constrained_generator() {
    // The draw decides where between the bounds the removal stops.
    for word in [0u32, 1, 13, u32::MAX] {
        let stop = stop_target(32, 45, word);
        assert!(32 <= stop && stop <= 45);
    }
    let spec = make_spec(Tier::T2, 20, 40);
    let hit = result(Tier::T2, vec![TechniqueId::NakedPair], true, false);
    assert!(spec.matches(&hit, 30));
    assert!(!spec.matches(&hit, 41));
    assert!(!spec.matches(&result(Tier::T3, vec![], true, false), 30));
    assert!(is_step_taken(true, &hit, &spec, 30));
    let mut asks = make_spec(Tier::T2, 20, 40);
    asks.required_techniques = vec![TechniqueId::HiddenQuad];
    assert!(!asks.matches(&hit, 30));
    assert!(is_not_needed(&result(Tier::T2, vec![], true, false), &asks));
    assert!(!is_not_needed(&result(Tier::T4Plus, vec![], false, false), &asks));
    let quad = result(Tier::T2, vec![TechniqueId::HiddenQuad], true, false);
    let (easy, hard) =
        (result(Tier::T2, vec![], true, false), result(Tier::T4Plus, vec![], false, false));
    assert!(is_wanted(&hit, 30, &None, &spec));
    assert!(!is_wanted(&hit, 30, &None, &asks));
    assert!(is_wanted(&quad, 30, &Some(hard), &asks));
    assert!(!is_wanted(&quad, 30, &Some(easy), &asks));
}

/// Rates everything alike, and says whether it is solved without some techniques.
struct Alike {
    solved_without: bool,
    asked_without: u32,
}

impl Rater<9, 3, 3> for Alike {
    fn rate(&mut self, _puzzle: &Grid<9, 3, 3>) -> RateResult {
        result(Tier::T2, vec![TechniqueId::HiddenQuad], true, false)
    }

    fn rate_excluding(
        &mut self,
        _puzzle: &Grid<9, 3, 3>,
        excluded: &Vec<TechniqueId>,
    ) -> RateResult {
        assert_eq!(excluded, &vec![TechniqueId::HiddenQuad]);
        self.asked_without += 1;
        result(Tier::T2, vec![], self.solved_without, false)
    }
}

#[test]
fn a_stop_is_drawn_only_from_a_choice() {
    for (clue_max, drawn) in [(30, 0), (31, 1)] {
        let spec = make_spec(Tier::T2, 30, clue_max);
        let mut rng = Xoshiro256PlusPlus::seed_from_u64(5);
        let mut alike = Alike { solved_without: false, asked_without: 0 };
        let found =
            try_generate_constrained::<9, 3, 3, Alike>(&mut rng, &mut alike, &spec).unwrap();
        assert!(30 <= found.2 && found.2 <= clue_max);
        assert_eq!(alike.asked_without, 0);
        let mut other = Xoshiro256PlusPlus::seed_from_u64(5);
        let _: Grid<9, 3, 3> = random_solution(&mut other);
        let mut order: Vec<u16> = (0..81).collect();
        order.shuffle(&mut other);
        for _ in 0..drawn {
            other.next_u32();
        }
        assert_eq!(rng.next_u64(), other.next_u64());
    }
}

#[test]
fn required_techniques_have_to_be_needed() {
    let mut spec = make_spec(Tier::T2, 30, 40);
    spec.required_techniques = vec![TechniqueId::HiddenQuad];
    for solved_without in [false, true] {
        let mut rng = Xoshiro256PlusPlus::seed_from_u64(6);
        let mut alike = Alike { solved_without, asked_without: 0 };
        let found = gen_constrained::<9, 3, 3, Alike>(&mut rng, &mut alike, &spec, 3);
        assert_eq!(found.is_some(), !solved_without);
        assert_eq!(alike.asked_without, if solved_without { 3 } else { 1 });
    }
}
