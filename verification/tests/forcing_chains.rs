use rand_xoshiro::rand_core::SeedableRng;
use rand_xoshiro::Xoshiro256PlusPlus;
use sudoku_rs_core::generic::cfc_reverse::{
    batch_cfc_reverse_construct, bears_load, cfc_reverse_construct, is_accept, keeps,
    CfcReverseSpec,
};
use sudoku_rs_core::generic::dfc_reverse::{
    batch_dfc_reverse_construct, candidate_budget, is_dfc_top, nested_fc_all, parse_seed,
    parse_seeds, taken_from, try_accept, worker_quota, DfcReverseSpec,
};
use sudoku_rs_core::generic::grid::Grid;
use sudoku_rs_core::generic::mutation::{count_clues, mutate_1, mutate_2, text_of};
use sudoku_rs_core::generic::rater::{RateResult, Rater};
use sudoku_rs_core::generic::reverse_construct::per_worker_attempts;
use sudoku_rs_core::generic::search::count_solutions_up_to;
use sudoku_rs_core::generic::techniques::{TechniqueId, Tier};

/// Says the same of every puzzle.
struct Says {
    full: RateResult,
    without: RateResult,
}

impl<const N: usize, const BR: usize, const BC: usize> Rater<N, BR, BC> for Says {
    fn rate(&mut self, _puzzle: &Grid<N, BR, BC>) -> RateResult {
        self.full.clone()
    }

    fn rate_excluding(
        &mut self,
        _puzzle: &Grid<N, BR, BC>,
        _excluded: &Vec<TechniqueId>,
    ) -> RateResult {
        self.without.clone()
    }
}

fn ci_spec() -> CfcReverseSpec {
    CfcReverseSpec {
        target_se: 8000,
        target_k_min: 3,
        clue_min: 20,
        clue_max: 28,
        attempts_per_seed: 200,
        max_seeds: 2000,
        rng_seed: 42,
        require_load_bearing: false,
        target_se_upper: None,
        excluded_techniques: vec![],
    }
}

fn make_rate_result(
    solved: bool,
    cfc_in_frontier: bool,
    se_milli: u32,
    extra_techs: &[TechniqueId],
) -> RateResult {
    let mut frontier = vec![];
    if cfc_in_frontier {
        frontier.push(TechniqueId::CellForcingChain);
    }
    frontier.extend_from_slice(extra_techs);
    RateResult {
        tier: Tier::T4Plus,
        frontier,
        solved,
        rater_error: false,
        wave_depth: 1,
        backtrack_steps: 0,
        unique_solution: false,
        se_milli,
    }
}

fn cell_rater() -> Says {
    Says {
        full: make_rate_result(true, true, 8000, &[]),
        without: make_rate_result(false, false, 0, &[]),
    }
}

#[test]
fn spec_validation() {
    let mut s = ci_spec();
    assert!(s.validate().is_ok());

    s.clue_min = 30;
    s.clue_max = 20;
    assert!(s.validate().is_err(), "clue_min > clue_max should be invalid");

    let mut s2 = ci_spec();
    s2.target_k_min = 1;
    assert!(s2.validate().is_err(), "target_k_min < 2 should be invalid");

    let mut s3 = ci_spec();
    s3.target_se = -1;
    assert_eq!(s3.validate().unwrap_err(), "target_se must be >= 0.0");
    assert!(CfcReverseSpec::default().validate().is_ok());
    assert!(CfcReverseSpec::default().require_load_bearing);
}

#[test]
fn constructs_at_least_one_puzzle() {
    let spec = ci_spec();
    let results =
        batch_cfc_reverse_construct::<9, 3, 3, Says>(42, &mut cell_rater(), &spec, 1, 1);
    assert!(!results.is_empty(), "Expected at least 1 CFC puzzle within 2000 seeds; got 0.");
}

#[test]
fn emitted_puzzle_rates_se_ge_8() {
    let spec = ci_spec();
    let mut rater = cell_rater();
    let results = batch_cfc_reverse_construct::<9, 3, 3, Says>(42, &mut rater, &spec, 1, 1);
    for r in &results {
        let re_rated = rater.rate(&r.puzzle);
        assert!(!re_rated.rater_error, "Re-rating emitted puzzle returned rater_error");
        assert!(
            re_rated.frontier.contains(&TechniqueId::CellForcingChain),
            "Re-rated puzzle must have CellForcingChain in frontier; got {:?}",
            re_rated.frontier
        );
        assert!(
            re_rated.se_milli >= 8000,
            "Re-rated se_score must be >= 8.0; got {}",
            re_rated.se_milli
        );
    }
}

#[test]
fn emitted_puzzle_unique_solution() {
    let spec = ci_spec();
    let results =
        batch_cfc_reverse_construct::<9, 3, 3, Says>(42, &mut cell_rater(), &spec, 1, 1);
    for r in &results {
        let nsol = count_solutions_up_to(&r.puzzle, 2);
        assert_eq!(
            nsol, 1,
            "Emitted puzzle must have exactly 1 solution; count_solutions_up_to returned {}",
            nsol
        );
        assert!(20 <= r.clue_count && r.clue_count <= 28);
    }
}

#[test]
fn accepts_only_load_bearing_cfc() {
    let base_spec = CfcReverseSpec {
        target_se: 8000,
        target_k_min: 3,
        target_se_upper: None,
        require_load_bearing: false,
        ..ci_spec()
    };

    // se_score=8.0, CFC in frontier -- accepted without upper bound.
    let r = make_rate_result(true, true, 8000, &[]);
    assert!(is_accept(&r, &base_spec), "se_score=8.0 should be accepted with no upper bound");

    // Add upper bound of 8.5: se_score=8.0 still passes.
    let spec_with_upper = CfcReverseSpec { target_se_upper: Some(8500), ..base_spec.clone() };
    assert!(is_accept(&r, &spec_with_upper), "se_score=8.0 should pass upper bound 8.5");

    // se_score=9.0 (DFC/NFC fired alongside CFC) -- rejected by upper bound 8.5.
    let r_hard = make_rate_result(true, true, 9000, &[]);
    assert!(
        !is_accept(&r_hard, &spec_with_upper),
        "se_score=9.0 should be rejected by target_se_upper=8.5 (DFC/NFC present)"
    );

    // Same se_score=9.0 without upper bound -- accepted (backwards compat).
    assert!(is_accept(&r_hard, &base_spec), "se_score=9.0 without upper bound should be accepted");

    // CFC not in frontier at all -- always rejected regardless of se_score.
    let r_no_cfc = make_rate_result(true, false, 8000, &[]);
    assert!(!is_accept(&r_no_cfc, &base_spec), "No CFC in frontier must always reject");

    // Excluded technique in frontier -- rejected even if CFC is present.
    let spec_excl = CfcReverseSpec {
        excluded_techniques: vec![TechniqueId::DynamicForcingChain],
        ..base_spec.clone()
    };
    let r_dfc = make_rate_result(true, true, 8000, &[TechniqueId::DynamicForcingChain]);
    assert!(
        !is_accept(&r_dfc, &spec_excl),
        "DFC in excluded list must reject even when CFC is present"
    );
}

#[test]
fn accepts_only_k_ge_3() {
    let spec_k3 = CfcReverseSpec {
        target_se: 6000, // low floor so k=2 passes the se_score floor
        target_k_min: 3, // k_min=3 requires se_score >= 8.0 (proxy)
        target_se_upper: None,
        require_load_bearing: false,
        ..ci_spec()
    };

    // k=2 Y-Chain: se_score=6.6 -- rejected by target_k_min=3 gate (6.6 < 8.0).
    let r_k2 = make_rate_result(true, true, 6600, &[]);
    assert!(
        !is_accept(&r_k2, &spec_k3),
        "k=2 Y-Chain (se_score=6.6) must be rejected when target_k_min=3"
    );

    // k=3 CFC: se_score=8.0 -- accepted.
    let r_k3 = make_rate_result(true, true, 8000, &[]);
    assert!(
        is_accept(&r_k3, &spec_k3),
        "k=3 CFC (se_score=8.0) must be accepted when target_k_min=3"
    );

    // Relax to k=2 -- then se_score=6.6 is accepted.
    let spec_k2 = CfcReverseSpec {
        target_k_min: 2,
        target_se: 6000,
        target_se_upper: None,
        require_load_bearing: false,
        ..ci_spec()
    };
    assert!(
        is_accept(&r_k2, &spec_k2),
        "k=2 Y-Chain (se_score=6.6) must be accepted when target_k_min=2"
    );

    // k=2 CFC fires (se 6.6) + DFC bumps se_score to 9.0.
    let r_k2_plus_dfc = make_rate_result(true, true, 9000, &[]);
    assert!(
        is_accept(&r_k2_plus_dfc, &spec_k3),
        "se_score=9.0 passes k_min=3 (9.0 >= 8.0); use target_se_upper for strict bucket"
    );
    let spec_strict = CfcReverseSpec { target_se_upper: Some(8500), ..spec_k3.clone() };
    assert!(
        !is_accept(&r_k2_plus_dfc, &spec_strict),
        "se_score=9.0 must be rejected by target_se_upper=8.5 in strict bucket"
    );
}

#[test]
fn load_bearing_cell_chains_are_harder_without() {
    assert!(bears_load(&make_rate_result(false, false, 0, &[]), 8000));
    assert!(bears_load(&make_rate_result(true, false, 9000, &[]), 8000));
    assert!(!bears_load(&make_rate_result(true, false, 8000, &[]), 8000));
    let mut failed = make_rate_result(false, false, 0, &[]);
    failed.rater_error = true;
    assert!(!bears_load(&failed, 8000));
    let (hit, loose) = (make_rate_result(true, true, 8000, &[]), ci_spec());
    let strict = CfcReverseSpec { require_load_bearing: true, ..ci_spec() };
    assert!(keeps(&hit, &None, &CfcReverseSpec { require_load_bearing: false, ..loose }));
    assert!(!keeps(&hit, &None, &strict));
    assert!(keeps(&hit, &Some(make_rate_result(false, false, 0, &[])), &strict));
    assert!(!keeps(&hit, &Some(make_rate_result(true, false, 8000, &[])), &strict));

    let spec = CfcReverseSpec { require_load_bearing: true, max_seeds: 2, ..ci_spec() };
    let mut same = cell_rater();
    same.without = make_rate_result(true, false, 8000, &[]);
    assert!(cfc_reverse_construct::<9, 3, 3, Says>(&mut same, &spec).is_none());
    let r = cfc_reverse_construct::<9, 3, 3, Says>(&mut cell_rater(), &spec);
    assert!(r.is_some());
}

const SEED_PUZZLE: &str =
    "8..........36......7..9.2...5...7.......457.....1...3...1....68..85...1..9....4..";

fn minimal_spec() -> DfcReverseSpec {
    DfcReverseSpec {
        target_se: 9000,
        target_se_upper: Some(9500),
        excluded_nested_fc: true,
        attempts_per_seed: 4,
        rng_seed: 42,
        clue_min: 20,
        clue_max: 28,
        max_total_attempts: 2,
        threads: 0,
    }
}

fn dynamic_rater(se_milli: u32) -> Says {
    let r = make_rate_result(true, false, se_milli, &[TechniqueId::DynamicForcingChain]);
    Says { full: r.clone(), without: r }
}

#[test]
fn seed_pool_loading_inline() {
    let valid = "123456789456789123789123456214365897365897214897214365531642978642978531978531642";
    let with_zero = "023456789456789123789123456214365897365897214897214365531642978642978531978531642";
    let lines = vec![
        "# comment".to_string(),
        "short".to_string(),
        valid.to_string(),
        with_zero.to_string(),
    ];
    let seeds = parse_seeds(&lines);
    // Should have 2 entries (comment + short lines skipped).
    assert_eq!(seeds.len(), 2, "Expected 2 valid seeds");
    // '0' must be normalised to '.'.
    assert!(text_of(&seeds[1]).starts_with('.'), "Expected leading '.' after normalisation");
}

#[test]
fn seeds_are_trimmed_and_cut() {
    let padded = format!("\t {} 12345", SEED_PUZZLE);
    assert_eq!(parse_seed(&padded).unwrap(), SEED_PUZZLE.as_bytes().to_vec());
    assert!(parse_seed(&SEED_PUZZLE.replace('8', "x")).is_none());
    assert!(parse_seed(&format!("#{}", SEED_PUZZLE)).is_none());
    assert!(parse_seeds(&vec![]).is_empty());
}

#[test]
fn mutates_then_rates() {
    let mut rng = Xoshiro256PlusPlus::seed_from_u64(1);
    let seed = SEED_PUZZLE.as_bytes().to_vec();
    let m1 = mutate_1(&seed, 5, &mut rng);
    let m2 = mutate_2(&seed, 5, &mut rng);
    for m in m1.iter().chain(m2.iter()) {
        assert_eq!(m.len(), 81, "mutated puzzle must be 81 chars");
        assert_ne!(text_of(m), SEED_PUZZLE, "mutation must differ from seed");
        assert_eq!(count_clues(m), count_clues(&seed));
    }
    // At least some mutations must be produced.
    assert!(!m1.is_empty() || !m2.is_empty(), "Expected at least one mutation");
    let differ = |m: &Vec<u8>| (0..81).filter(|&i| m[i] != seed[i]).count();
    assert!(m1.iter().all(|m| differ(m) == 1));
    assert!(m2.iter().all(|m| differ(m) == 2));
}

#[test]
fn accepts_only_dfc_top_invariant() {
    let g = Grid::<9, 3, 3>::from_str(SEED_PUZZLE).expect("HARD_SEED parses");

    let default_spec = minimal_spec();
    for se in [8900u32, 9000, 9400, 9500, 11600] {
        let result = try_accept::<9, 3, 3, Says>(&mut dynamic_rater(se), &g, &default_spec);
        assert_eq!(result.is_some(), (9000..9500).contains(&se));
        if let Some((got, fr)) = result {
            assert!(
                got >= 9000 && got < 9500,
                "default gate accepted SE outside [9.0, 9.5): {}",
                got
            );
            assert!(
                fr.contains(&TechniqueId::DynamicForcingChain),
                "default gate accepted without DFC in frontier: {:?}",
                fr
            );
        }
    }

    // Relaxed upper bound: any score from 9.0 on is accepted.
    let relaxed_spec = DfcReverseSpec { target_se_upper: None, ..default_spec };
    if let Some((se, _)) = try_accept::<9, 3, 3, Says>(&mut dynamic_rater(11600), &g, &relaxed_spec)
    {
        assert!(se >= 9000, "relaxed gate accepted SE < 9.0: {}", se);
    }

    // Too-strict gate (target_se=20.0) must always reject.
    let strict_spec = DfcReverseSpec { target_se: 20_000, target_se_upper: None, ..default_spec };
    assert!(
        try_accept::<9, 3, 3, Says>(&mut dynamic_rater(11600), &g, &strict_spec).is_none(),
        "gate must reject when target_se=20.0 > any real SE"
    );

    // With nested chains the other rating counts.
    let full_cascade_spec =
        DfcReverseSpec { excluded_nested_fc: false, target_se_upper: None, ..default_spec };
    let mut rater = dynamic_rater(9200);
    rater.full = make_rate_result(true, false, 11600, &[TechniqueId::DynamicForcingChain]);
    assert_eq!(
        try_accept::<9, 3, 3, Says>(&mut rater, &g, &full_cascade_spec).unwrap().0,
        11600
    );
    assert_eq!(try_accept::<9, 3, 3, Says>(&mut rater, &g, &default_spec).unwrap().0, 9200);
}

#[test]
fn every_gate_of_the_dfc_bucket() {
    let spec = minimal_spec();
    let good = make_rate_result(true, false, 9200, &[TechniqueId::DynamicForcingChain]);
    assert!(is_dfc_top(&good, &spec));
    let mut r = good.clone();
    r.solved = false;
    assert!(!is_dfc_top(&r, &spec));
    let mut r = good.clone();
    r.rater_error = true;
    assert!(!is_dfc_top(&r, &spec));
    let mut r = good.clone();
    r.frontier = vec![TechniqueId::CellForcingChain];
    assert!(!is_dfc_top(&r, &spec));
    assert_eq!(
        nested_fc_all(),
        vec![
            TechniqueId::NestedForcingChain,
            TechniqueId::NestedForcingChainL3,
            TechniqueId::NestedForcingChainL4,
        ]
    );
}

#[test]
fn batch_smoke_no_panic() {
    let results =
        batch_dfc_reverse_construct::<9, 3, 3, Says>(&mut dynamic_rater(9200), &minimal_spec(), &vec![], 5);
    assert!(results.len() <= 5);
}

#[test]
fn default_spec_terminates() {
    let spec = DfcReverseSpec {
        max_total_attempts: 1,
        threads: 0,
        attempts_per_seed: 1,
        ..DfcReverseSpec::default()
    };
    let _ = batch_dfc_reverse_construct::<9, 3, 3, Says>(&mut dynamic_rater(9200), &spec, &vec![], 1);
}

#[test]
fn dfc_results_are_near_their_seeds() {
    // A seed with many clues, so that some neighbour still has one solution.
    let seed = "53467.912672195348198342567859761423426853791713924856961537284287419635345286179";
    let seeds = parse_seeds(&vec![seed.to_string()]);
    let spec = DfcReverseSpec {
        attempts_per_seed: 500,
        clue_max: 81,
        max_total_attempts: 50,
        ..minimal_spec()
    };
    let results =
        batch_dfc_reverse_construct::<9, 3, 3, Says>(&mut dynamic_rater(9200), &spec, &seeds, 3);
    for cp in &results {
        assert_eq!(cp.puzzle.len(), 81);
        let g = Grid::<9, 3, 3>::from_str(&cp.puzzle).expect("emitted puzzle must parse");
        assert_eq!(count_solutions_up_to(&g, 2), 1);
        let off = (0..81).filter(|&i| cp.puzzle.as_bytes()[i] != seed.as_bytes()[i]).count();
        assert!(off == 1 || off == 2);
        assert_eq!(cp.se_milli, 9200);
        assert_eq!(cp.clue_count as usize, cp.puzzle.bytes().filter(|&b| b != b'.').count());
    }
}

#[test]
fn sought_ratings_are_taken_as_they_are() {
    let spec = minimal_spec();
    let hit = make_rate_result(true, false, 9200, &[TechniqueId::DynamicForcingChain]);
    let frontier = hit.frontier.clone();
    assert_eq!(taken_from(hit, &spec), Some((9200, frontier)));
    assert_eq!(taken_from(make_rate_result(true, false, 9200, &[]), &spec), None);
}

#[test]
fn budgets_are_shared_out() {
    let (one, two) = candidate_budget(200);
    assert!(one > 0 && two > 0);
    assert_eq!(worker_quota(10, 4), 3);
    assert_eq!(worker_quota(8, 4), 2);
    assert_eq!(worker_quota(8, usize::MAX), 1);
    assert_eq!(per_worker_attempts(10, 3), 4);
    assert_eq!(per_worker_attempts(9, 3), 3);
    assert_eq!(per_worker_attempts(10, usize::MAX), 1);
    assert_eq!(per_worker_attempts(0, 3), u32::MAX);
}
