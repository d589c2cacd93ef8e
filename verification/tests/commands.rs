use sudoku_rs_core::command::lists::{
    halves, list_entries, parse_target_per_tier, weight_entry, WeightError,
};
use sudoku_rs_core::command::modes::{
    asks_for_none, cfc_spec, check_kind, default_band, dfc_spec, is_on, parse_classification,
    parse_clue_range, parse_match_kind, parse_mutator, parse_size, parse_small_numbers,
    parse_target, parse_tier, special_of, upper_score, wants_chain_length, worker_count,
    Classification, KindError, MatchKind, Special, Target,
};
use sudoku_rs_core::command::naming::{parse_technique_id, technique_id_str};
use sudoku_rs_core::command::output_lines::{build_records, puzzle_line, result_lines};
use sudoku_rs_core::command::pilot::{attempt_seed, is_hit, Attempt, Totals};
use sudoku_rs_core::command::rate_batch::{blank_text, rate_chunk, read_lines, Line, Tally};
use sudoku_rs_core::command::seed_lines::{
    is_enough, list_puzzle, puzzles_of_lines, seed_of_line, seeds_of_lines, solution_of_line,
    solutions_of_lines,
};
use sudoku_rs_core::command::selection::{
    all_techniques, bench_mixes, bench_techniques, excluded_all_others,
    excluded_from_max_technique, excluded_from_max_tier, has_mixes, mix_name, row_excluded,
    select_excluded, tier_of, SelectionError,
};
use sudoku_rs_core::command::statistics::{
    median, p90, ratings_line, sizes_line, spread, sum, tally,
};
use sudoku_rs_core::generic::grid::Grid;
use sudoku_rs_core::generic::rater::{RateResult, Rater};
use sudoku_rs_core::generic::reverse_construct::ReverseResult;
use sudoku_rs_core::generic::search::solve_unique;
use sudoku_rs_core::generic::techniques::{TechniqueId, Tier};
use sudoku_rs_core::lexing::{chars_in, fold, parse_number, split, text_of, trim};
use sudoku_rs_core::vicinity::climb::BxbMutator;

const PUZZLE: &str =
    "85...24..72......9..4.........1.7..23.5...9...4...........8..7..17..........36.4.";

fn chars(s: &str) -> Vec<char> {
    s.chars().collect()
}

#[test]
fn texts_are_taken_apart() {
    assert_eq!(text_of(&trim(&chars_in(" \t\u{a0}a b\u{3000}\r\n"))), "a b");
    assert_eq!(trim(&chars("   ")), Vec::<char>::new());
    assert_eq!(split(&chars("a,,b"), ','), vec![chars("a"), chars(""), chars("b")]);
    assert_eq!(split(&chars(""), ','), vec![chars("")]);
    assert_eq!(text_of(&fold(&chars("Als-XZ a"), "- ", '_')), "als_xz_a");
    assert_eq!(parse_number(&chars("+0042"), 100), Some(42));
    assert_eq!(parse_number(&chars("101"), 100), None);
    assert_eq!(parse_number(&chars("18446744073709551616"), u64::MAX), None);
    assert_eq!(parse_number(&chars("18446744073709551615"), u64::MAX), Some(u64::MAX));
    for bad in ["", "+", "-1", "1a", " 1"] {
        assert_eq!(parse_number(&chars(bad), 100), None);
    }
}

#[test]
fn names_are_read_back() {
    for id in all_techniques() {
        assert_eq!(parse_technique_id(technique_id_str(id)), Some(id));
    }
    assert_eq!(parse_technique_id(" Als-XZ "), Some(TechniqueId::AlsXz));
    assert_eq!(parse_technique_id("x-wing"), Some(TechniqueId::XWing));
    assert_eq!(parse_technique_id("fish_2"), Some(TechniqueId::XWing));
    assert_eq!(parse_technique_id("fish_xwing"), Some(TechniqueId::XWing));
    assert_eq!(parse_technique_id("gbraid"), Some(TechniqueId::GBraid));
    assert_eq!(parse_technique_id("something"), None);
    assert_eq!(technique_id_str(TechniqueId::UrType2), "ur_type2");
}

#[test]
fn cuts_leave_out_what_they_name() {
    assert_eq!(all_techniques().len(), 16);
    assert_eq!(tier_of(TechniqueId::HiddenQuad), Tier::T2);
    assert_eq!(tier_of(TechniqueId::Aic), Tier::T3);
    let none: Vec<TechniqueId> = vec![];
    let by_tier = excluded_from_max_tier(Tier::T2, &vec![TechniqueId::Aic]);
    assert_eq!(
        by_tier,
        vec![
            TechniqueId::XWing,
            TechniqueId::Swordfish,
            TechniqueId::Jellyfish,
            TechniqueId::XyWing,
            TechniqueId::UrType1,
            TechniqueId::UrType2,
            TechniqueId::AlsXz,
        ]
    );
    assert_eq!(excluded_from_max_tier(Tier::T3, &none), none);
    let by_technique = excluded_from_max_technique(TechniqueId::NakedPair, &none);
    assert_eq!(by_technique.len(), 15);
    assert!(!by_technique.contains(&TechniqueId::NakedPair));
    let from_aic = excluded_from_max_technique(TechniqueId::Aic, &none);
    assert_eq!(from_aic.len(), 7);
    assert!(!from_aic.contains(&TechniqueId::NakedPair));
    assert_eq!(excluded_all_others(&vec![TechniqueId::Aic]).len(), 15);
}

#[test]
fn selections_that_clash_are_refused() {
    let aic = vec![TechniqueId::Aic];
    let none: Vec<TechniqueId> = vec![];
    let two = select_excluded(&aic, &none, Some(TechniqueId::Aic), Some(Tier::T2), false);
    assert!(matches!(two, Err(SelectionError::TwoCuts)));
    let both = select_excluded(&none, &aic, None, Some(Tier::T2), false);
    assert!(matches!(both, Err(SelectionError::CutAndList)));
    let nothing = select_excluded(&none, &none, None, None, true);
    assert!(matches!(nothing, Err(SelectionError::NothingRequired)));
    let wing_and_chain = vec![TechniqueId::XWing, TechniqueId::Aic];
    let clash = select_excluded(&wing_and_chain, &aic, None, None, false);
    assert!(matches!(clash, Err(SelectionError::Conflict(TechniqueId::Aic))));
    assert_eq!(
        select_excluded(&aic, &vec![TechniqueId::XWing], None, None, false).unwrap(),
        vec![TechniqueId::XWing]
    );
    assert_eq!(select_excluded(&aic, &none, None, None, true).unwrap().len(), 15);
    assert_eq!(
        row_excluded(&wing_and_chain, TechniqueId::Aic),
        vec![TechniqueId::XWing]
    );
    assert_eq!(bench_techniques(&none).len(), 16);
    assert_eq!(bench_techniques(&aic), aic);
    let names: Vec<String> = bench_mixes().iter().map(mix_name).collect();
    assert_eq!(names, ["any_of", "at_least_k=2", "weighted"]);
    assert_eq!(bench_mixes()[1].techniques.len(), 4);
    assert!(has_mixes(9, 3, 3) && !has_mixes(6, 2, 3));
}

#[test]
fn words_of_the_command_line() {
    assert_eq!(parse_match_kind(" ALL_of "), Some(MatchKind::AllOf));
    assert_eq!(parse_match_kind("any"), Some(MatchKind::AnyOf));
    assert_eq!(parse_match_kind("exactk"), Some(MatchKind::ExactK));
    assert_eq!(parse_match_kind("atleast_k"), Some(MatchKind::AtLeastK));
    assert_eq!(parse_match_kind("weighted"), Some(MatchKind::Weighted));
    assert_eq!(parse_match_kind("some"), None);
    assert_eq!(check_kind(MatchKind::AllOf, 0, false, true), Ok(()));
    assert_eq!(check_kind(MatchKind::AnyOf, 0, false, true), Err(KindError::NothingRequired));
    assert_eq!(check_kind(MatchKind::ExactK, 2, false, true), Err(KindError::NotOffered));
    assert_eq!(check_kind(MatchKind::Weighted, 0, false, false), Err(KindError::NoWeights));
    assert_eq!(special_of("Nested-FC-L3", false), Some(Special::NestedFc(3)));
    assert_eq!(special_of("nfc", true), Some(Special::NestedFc(2)));
    assert_eq!(special_of("nested_aic", false), Some(Special::NestedAic));
    assert_eq!(special_of("Cell forcing chain", true), Some(Special::CellFc));
    assert_eq!(special_of("dfc", true), Some(Special::DynamicFc));
    assert_eq!(special_of("rfc", true), Some(Special::RegionFc));
    assert_eq!(special_of("dfc", false), None);
    assert_eq!(special_of("aic", true), None);
    assert_eq!(parse_target("Naked_Quad"), Some(Target::NakedQuad));
    assert_eq!(parse_target("als"), Some(Target::AlsXz));
    assert_eq!(parse_target("ur2"), Some(Target::UrType2));
    assert_eq!(parse_target("fish"), None);
    assert_eq!(parse_classification("te-depth"), Some(Classification::TeDepth));
    assert_eq!(parse_classification("BXB"), None);
    assert_eq!(parse_mutator("v3"), BxbMutator::V3);
    assert_eq!(parse_mutator("anything"), BxbMutator::V2);
    assert_eq!(parse_size("16x4x4"), Some((16, 4, 4)));
    assert_eq!(parse_size("9x3"), None);
    assert_eq!(parse_size("25x5x5"), None);
    assert_eq!(parse_tier("t4plus"), Some(Tier::T4Plus));
    assert_eq!(parse_tier("T2"), Some(Tier::T2));
    assert_eq!(parse_tier("T5"), None);
    assert_eq!(parse_clue_range("22..30"), Some((22, 30)));
    assert_eq!(parse_clue_range(" 22 .. 30 "), Some((22, 30)));
    assert_eq!(parse_clue_range("22.30"), None);
    assert_eq!(parse_clue_range("22.."), None);
    assert_eq!(parse_small_numbers("1, 2,x,300,7"), vec![1, 2, 7]);
    assert_eq!(parse_small_numbers("x"), Vec::<u8>::new());
}

#[test]
fn settings_that_are_derived() {
    assert_eq!(default_band(Tier::T1, 81), (32, 45));
    assert_eq!(default_band(Tier::T2, 81), (24, 34));
    assert_eq!(default_band(Tier::T3, 256), (69, 92));
    assert_eq!(default_band(Tier::T4Plus, 36), (7, 12));
    assert_eq!(worker_count(0, 0, 8), 8);
    assert_eq!(worker_count(0, 3, 8), 3);
    assert_eq!(worker_count(2, 3, 8), 2);
    assert!(is_on(None) && is_on(Some("yes")) && !is_on(Some(" false ")) && !is_on(Some("0")));
    assert!(asks_for_none(Some(" none")) && !asks_for_none(Some("inf")) && !asks_for_none(None));
    assert_eq!(upper_score(Some(9100), true, true), Some(9100));
    assert_eq!(upper_score(None, false, true), Some(9500));
    assert_eq!(upper_score(None, true, true), None);
    assert_eq!(upper_score(None, false, false), None);
    let d = dfc_spec(Some(9500), true, 200, 5, 7, 20, 28, 3);
    assert_eq!((d.max_total_attempts, d.target_se, d.threads), (1000, 9000, 3));
    assert_eq!(dfc_spec(None, true, 200, 0, 7, 20, 28, 3).max_total_attempts, 200);
    assert_eq!(
        dfc_spec(None, true, u32::MAX, u32::MAX, 7, 20, 28, 3).max_total_attempts,
        10_000_000
    );
    let c = cfc_spec(2000, 1, 20, 28, false);
    assert_eq!((c.attempts_per_seed, c.max_seeds, c.require_load_bearing), (500, 2000, true));
    let c = cfc_spec(100, 1, 20, 28, true);
    assert_eq!((c.attempts_per_seed, c.max_seeds, c.require_load_bearing), (100, 500, false));
    let aic = vec![TechniqueId::Aic];
    assert!(wants_chain_length(MatchKind::AllOf, &aic, &vec![], 7));
    assert!(!wants_chain_length(MatchKind::AnyOf, &aic, &vec![], 7));
    assert!(!wants_chain_length(MatchKind::AllOf, &aic, &aic, 7));
    assert!(!wants_chain_length(MatchKind::AllOf, &aic, &vec![], 0));
}

#[test]
fn lists_of_pairs() {
    assert_eq!(list_entries(" a , ,b"), vec![chars("a"), chars("b")]);
    assert_eq!(halves(&chars("k = v = w"), '='), Some((chars("k"), chars("v = w"))));
    assert_eq!(halves(&chars("k"), '='), None);
    let t = parse_target_per_tier("T1=5, T9 = 2,T1=7");
    let get = |k: &str| t.iter().find(|x| x.0 == chars(k)).map(|x| x.1);
    assert_eq!(get("T1"), Some(7));
    assert_eq!(get("T4"), Some(0));
    assert_eq!(get("T9"), Some(2));
    assert_eq!(t.len(), 5);
    assert_eq!(weight_entry(&chars("aic: 0.5")).unwrap(), (TechniqueId::Aic, chars("0.5")));
    assert_eq!(weight_entry(&chars("aic")), Err(WeightError::NoMark));
    assert_eq!(weight_entry(&chars("what:1")), Err(WeightError::UnknownTechnique));
}

#[test]
fn lines_with_puzzles() {
    let with_tail = format!("  {}; SE 9.0", PUZZLE);
    assert_eq!(list_puzzle(&with_tail).unwrap(), chars(PUZZLE));
    assert_eq!(list_puzzle("# comment"), None);
    assert_eq!(list_puzzle("* header"), None);
    assert_eq!(list_puzzle("   "), None);
    assert_eq!(list_puzzle(&PUZZLE[..80]), None);
    let zeros = PUZZLE.replace('.', "0");
    let (p, s) = seed_of_line(&format!("{} {}\r\n", zeros, zeros)).unwrap();
    assert_eq!(p, chars(PUZZLE));
    assert_eq!(s, Some(chars(&zeros)));
    assert_eq!(seed_of_line(&format!("{} \t", PUZZLE)).unwrap(), (chars(PUZZLE), None));
    assert_eq!(seed_of_line(&format!("{}1", PUZZLE)), None);
    assert_eq!(seed_of_line("#x"), None);
    // Lengths are counted in bytes: an `é` takes two.
    let wide = format!("é{}", &PUZZLE[..79]);
    assert_eq!(list_puzzle(&wide).unwrap(), chars(&wide));
    assert_eq!(list_puzzle(&format!("{}12", wide)).unwrap(), chars(&wide));
    assert_eq!(list_puzzle(&format!("é{}", &PUZZLE[..78])), None);
    assert!(seed_of_line(&wide).is_some());
    assert_eq!(seed_of_line(&format!("{}1", wide)), None);
    let g = Grid::<9, 3, 3>::from_str(PUZZLE).unwrap();
    let solution = solve_unique(&g).unwrap().to_string_grid();
    assert_eq!(solution_of_line(&format!(" {}xyz", solution)).unwrap(), chars(&solution));
    assert_eq!(solution_of_line(PUZZLE), None);
    assert!(is_enough(3, 3) && !is_enough(2, 3) && !is_enough(100, 0));
}

fn unrated(tier: Tier) -> RateResult {
    RateResult {
        tier,
        frontier: vec![TechniqueId::Aic],
        solved: true,
        rater_error: false,
        wave_depth: 0,
        backtrack_steps: 0,
        unique_solution: true,
        se_milli: 6600,
    }
}

#[test]
fn lists_are_read_up_to_a_cap() {
    let g = Grid::<9, 3, 3>::from_str(PUZZLE).unwrap();
    let solution = solve_unique(&g).unwrap().to_string_grid();
    let lines = vec![
        "# comment".to_string(),
        format!("{} {}", PUZZLE, solution),
        String::new(),
        solution.clone(),
        solution.clone(),
    ];
    let seeds = seeds_of_lines(&lines, 0);
    assert_eq!(seeds.len(), 3);
    assert_eq!(seeds[0], (chars(PUZZLE), Some(chars(&solution))));
    assert_eq!(seeds_of_lines(&lines, 2).len(), 2);
    assert_eq!(solutions_of_lines(&lines, 0), vec![chars(&solution), chars(&solution)]);
    assert_eq!(solutions_of_lines(&lines, 1).len(), 1);
    assert_eq!(puzzles_of_lines(&lines).len(), 3);
    assert_eq!(puzzles_of_lines(&lines)[0], chars(PUZZLE));
    let read = read_lines(&lines, 81);
    assert_eq!(read.len(), 4);
    assert!(matches!(read[0], Line::Bad) && matches!(read[1], Line::Bad));
    assert!(matches!(&read[2], Line::Puzzle(p) if p.as_slice() == solution.as_bytes()));
    let wide = vec![format!("é{}", &PUZZLE[..80])];
    assert!(matches!(read_lines(&wide, 81)[0], Line::Bad));
}

#[test]
fn results_become_lines_and_records() {
    assert_eq!(puzzle_line("a", "b", true), "a b");
    assert_eq!(puzzle_line("a", "b", false), "a");
    let puzzle = Grid::<9, 3, 3>::from_str(PUZZLE).unwrap();
    let solution = solve_unique(&puzzle).unwrap();
    let text = solution.to_string_grid();
    let clue_count = puzzle.solved_count;
    let r = vec![ReverseResult {
        puzzle,
        solution,
        rate: unrated(Tier::T3),
        clue_count,
        attempts_taken: 1,
    }];
    assert_eq!(result_lines(&r, false), vec![PUZZLE.to_string()]);
    assert_eq!(result_lines(&r, true), vec![format!("{} {}", PUZZLE, text)]);
    let records = build_records(&r);
    assert_eq!(records[0].puzzle, PUZZLE);
    assert_eq!(records[0].solution, text);
    assert_eq!(records[0].clue_count, clue_count);
    assert_eq!(records[0].frontier, vec![TechniqueId::Aic]);
    assert_eq!(records[0].se_milli, 6600);
}

struct Says;

impl Rater<9, 3, 3> for Says {
    fn rate(&mut self, _puzzle: &Grid<9, 3, 3>) -> RateResult {
        unrated(Tier::T2)
    }

    fn rate_excluding(
        &mut self,
        _puzzle: &Grid<9, 3, 3>,
        _excluded: &Vec<TechniqueId>,
    ) -> RateResult {
        unrated(Tier::T3)
    }
}

#[test]
fn every_line_gets_its_row() {
    let lines = vec![
        Line::Puzzle(PUZZLE.as_bytes().to_vec()),
        Line::Bad,
        Line::Puzzle(vec![b'5'; 81]),
    ];
    let mut t = Tally::new();
    t.total = 10;
    let rows = rate_chunk::<9, 3, 3, Says>(&mut Says, &lines, &vec![], &mut t);
    assert_eq!(rows.iter().map(|r| r.index).collect::<Vec<_>>(), vec![10, 11, 12]);
    assert_eq!(rows[0].rate.tier, Tier::T2);
    assert!(rows[1].rate.rater_error && rows[2].rate.rater_error);
    assert_eq!(rows[1].text, blank_text(81));
    assert_eq!(rows[2].text, vec![b'5'; 81]);
    assert_eq!((t.total, t.errors), (13, 2));
    let rows =
        rate_chunk::<9, 3, 3, Says>(&mut Says, &lines, &vec![TechniqueId::Aic], &mut Tally::new());
    assert_eq!(rows[0].rate.tier, Tier::T3);
    assert_eq!(blank_text(3), b"...".to_vec());
}

#[test]
fn numbers_of_a_run() {
    let v = vec![7u64, 1, 9, 3];
    assert_eq!(median(&v), 7);
    assert_eq!(median(&vec![]), 0);
    assert_eq!(p90(&vec![5]), 5);
    assert_eq!(p90(&(0..20).collect()), 18);
    let s = spread(&v);
    assert_eq!((s.min, s.median, s.max), (1, 7, 9));
    assert_eq!(spread(&vec![]).max, 0);
    assert_eq!(sum(&v), 20);
    let t = tally(&vec![4, 2, 4, 4, 2, 9]);
    assert_eq!(t, vec![(2, 2), (4, 3), (9, 1)]);
    assert_eq!(sizes_line(&t), "s2=2,s4=3,s9=1");
    assert_eq!(sizes_line(&vec![]), "");
}

fn attempt(bxb: i16, unique: bool) -> Attempt {
    Attempt {
        n_uas: 4,
        clue_count: 22,
        clue_count_pre_repair: 20,
        is_unique_pre_repair: !unique,
        is_unique: unique,
        bxb_rating: bxb,
        ms_grid: 1,
        ms_ua_enum: 2,
        ms_min_cover: 3,
        ms_uniqueness: 4,
        ms_rate: 5,
    }
}

#[test]
fn attempts_are_counted() {
    assert_eq!(attempt_seed(5, 0), 5);
    assert_eq!(attempt_seed(5, 2), 2_000_011);
    assert_eq!(attempt_seed(u64::MAX, 1), 1_000_002);
    assert!(is_hit(&attempt(5, true), 5) && !is_hit(&attempt(5, false), 5));
    let mut t = Totals::new();
    for (bxb, unique) in [(5, true), (-1, false), (5, false), (3, true)] {
        t.count(&attempt(bxb, unique), 4);
    }
    assert_eq!((t.attempts, t.valid, t.pre_repair_unique, t.hits), (4, 2, 2, 1));
    assert_eq!(t.ms_total, vec![15; 4]);
    assert_eq!(median(&t.clues), 22);
    assert_eq!(ratings_line(&tally(&t.ratings)), "BxB=-1: 1, BxB=3: 1, BxB=5: 2, ");
}
