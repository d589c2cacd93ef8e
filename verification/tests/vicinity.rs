use rand::seq::SliceRandom;
use rand_xoshiro::rand_core::{RngCore, SeedableRng};
use rand_xoshiro::Xoshiro256PlusPlus;
use std::collections::HashSet;
use sudoku_rs_core::generic::grid::Grid;
use sudoku_rs_core::generic::search::{count_solutions_up_to, solve_unique};
use sudoku_rs_core::vicinity::climb::{
    screen, BxbDiagnostics, BxbMutator, BxbRater, Climb, ClimbRules, Screened, Verdict,
};
use sudoku_rs_core::vicinity::entries::{
    puzzle_hash, rated_seed, seed_hashes, seed_solution, BxbEntry, SeedFault,
};
use sudoku_rs_core::vicinity::expand::brt_expand;
use sudoku_rs_core::vicinity::manifest::bxb_manifest;
use sudoku_rs_core::vicinity::minimal::{
    bxb_mutate_once_v3, go_p_q, has_one_solution, reminimize,
};
use sudoku_rs_core::vicinity::moves::{bxb_mutate_once, bxb_mutate_once_v2, choose_move, Move};
use sudoku_rs_core::vicinity::puzzle_text::clue_count;
use sudoku_rs_core::vicinity::stream::{rating_range, Stream};
use sudoku_rs_core::vicinity::tridagon::{
    accepts_replacement, bxb_mutate_once_v4, fresh_triplet, random_match, Tridagons,
};

const SEED: &str =
    "85...24..72......9..4.........1.7..23.5...9...4...........8..7..17..........36.4.";

fn bytes(s: &str) -> Vec<u8> {
    s.as_bytes().to_vec()
}

fn solve_seed(seed: &str) -> Vec<u8> {
    let g = Grid::<9, 3, 3>::from_str(seed).expect("seed parses");
    bytes(&solve_unique::<9, 3, 3>(&g).expect("seed has unique solution").to_string_grid())
}

fn clues(p: &[u8]) -> usize {
    p.iter().filter(|&&b| b != b'.' && b != b'0').count()
}

/// Rates every puzzle by its clues.
struct ByClues;

impl BxbRater for ByClues {
    fn rate_bxb(&mut self, puzzle: &Vec<u8>, max_length: u16, _buffer: usize) -> Option<u16> {
        let r = 81 - clues(puzzle) as u16;
        if r <= max_length {
            Some(r)
        } else {
            None
        }
    }
}

/// Finds one tridagon of the digits 1, 2 and 3, and renames by swapping digits.
struct Swaps;

impl Tridagons for Swaps {
    fn count(&mut self, _solution: &Vec<u8>) -> usize {
        1
    }

    fn triplet(&mut self, _solution: &Vec<u8>, _which: usize) -> [u8; 3] {
        [1, 2, 3]
    }

    fn replace(
        &mut self,
        puzzle: &Vec<u8>,
        solution: &Vec<u8>,
        _which: usize,
        fresh: [u8; 3],
        order: [usize; 3],
    ) -> Option<(Vec<u8>, Vec<u8>)> {
        let swap = |b: u8| {
            for i in 0..3 {
                let (x, y) = (b'1' + i as u8, b'0' + fresh[order[i]]);
                if b == x {
                    return y;
                }
                if b == y {
                    return x;
                }
            }
            b
        };
        Some((
            puzzle.iter().map(|&b| swap(b)).collect(),
            solution.iter().map(|&b| swap(b)).collect(),
        ))
    }
}

/// Finds none.
struct NoTridagons;

impl Tridagons for NoTridagons {
    fn count(&mut self, _solution: &Vec<u8>) -> usize {
        0
    }

    fn triplet(&mut self, _solution: &Vec<u8>, _which: usize) -> [u8; 3] {
        [1, 2, 3]
    }

    fn replace(
        &mut self,
        _puzzle: &Vec<u8>,
        _solution: &Vec<u8>,
        _which: usize,
        _fresh: [u8; 3],
        _order: [usize; 3],
    ) -> Option<(Vec<u8>, Vec<u8>)> {
        None
    }
}

#[test]
fn bxb_mutate_preserves_clue_count() {
    let mut rng = Xoshiro256PlusPlus::seed_from_u64(7);
    let seed = bytes(SEED);
    let original_cc = SEED.bytes().filter(|&b| b != b'.').count();
    for _ in 0..32 {
        if let Some(m) = bxb_mutate_once(&seed, 1, &mut rng) {
            let cc = m.iter().filter(|&&b| b != b'.' && b != b'0').count();
            assert_eq!(cc, original_cc, "clue count must be preserved by mutation");
            assert_ne!(m, seed, "mutation must differ from original");
            assert_eq!((0..81).filter(|&i| m[i] != seed[i]).count(), 1);
        }
    }
    assert!(bxb_mutate_once(&seed, 1, &mut rng).is_some());
    assert!(bxb_mutate_once(&seed, 0, &mut rng).is_none());
    assert!(bxb_mutate_once(&seed, 82, &mut rng).is_none());
}

#[test]
fn test_bxb_mutate_v2_preserves_solution_consistency() {
    let seed = bytes(SEED);
    let solution = solve_seed(SEED);
    let mut rng = Xoshiro256PlusPlus::seed_from_u64(13);
    let mut n_swap = 0usize;
    let mut n_remove = 0usize;
    let mut n_add = 0usize;
    let mut produced = 0usize;
    for _ in 0..256 {
        for &n in &[1usize, 2, 3] {
            if let Some(m) = bxb_mutate_once_v2(&seed, &solution, n, &mut rng) {
                produced += 1;
                assert_eq!(m.len(), 81);
                // Every clue in m must equal the solution at that index.
                for (i, &b) in m.iter().enumerate() {
                    if b != b'.' && b != b'0' {
                        assert_eq!(
                            b, solution[i],
                            "clue at {} ({}) inconsistent with solution ({})",
                            i, b as char, solution[i] as char,
                        );
                    }
                }
                let orig_cc = clues(&seed);
                let new_cc = clues(&m);
                let delta = new_cc as i32 - orig_cc as i32;
                if delta == 0 && n == 1 {
                    n_swap += 1;
                } else if delta < 0 && n == 1 {
                    n_remove += 1;
                } else if delta > 0 && n == 1 {
                    n_add += 1;
                }
            }
        }
    }
    assert!(produced > 0, "mutator must produce candidates");
    // For n=1, all three move kinds should fire at least once across 256 draws.
    assert!(n_swap > 0, "swap move never fired");
    assert!(n_remove > 0, "remove move never fired");
    assert!(n_add > 0, "add move never fired");
}

#[test]
fn moves_fall_back_on_what_can_be_played() {
    let half = 1u64 << 63;
    let three_quarters = 3u64 << 62;
    assert_eq!(choose_move(0, 5, 5), Some(Move::Swap));
    assert_eq!(choose_move(half - 1, 5, 5), Some(Move::Swap));
    assert_eq!(choose_move(half, 5, 5), Some(Move::Remove));
    assert_eq!(choose_move(three_quarters - 1, 5, 5), Some(Move::Remove));
    assert_eq!(choose_move(three_quarters, 5, 5), Some(Move::Add));
    assert_eq!(choose_move(0, 5, 0), Some(Move::Remove));
    assert_eq!(choose_move(0, 0, 5), Some(Move::Add));
    assert_eq!(choose_move(half, 0, 5), Some(Move::Add));
    assert_eq!(choose_move(u64::MAX, 5, 0), Some(Move::Remove));
    assert_eq!(choose_move(0, 0, 0), None);
}

#[test]
fn test_brt_expand_idempotent() {
    let solution = solve_seed(SEED);
    let once = brt_expand(&bytes(SEED), &solution);
    let twice = brt_expand(&once, &solution);
    assert_eq!(once, twice, "brt_expand must be idempotent (singles closure)");
}

#[test]
fn test_brt_expand_only_adds() {
    let solution = solve_seed(SEED);
    let cc_in = clues(SEED.as_bytes());
    let out = brt_expand(&bytes(SEED), &solution);
    let cc_out = clues(&out);
    assert!(
        cc_out >= cc_in,
        "brt_expand must not remove clues (cc_in={}, cc_out={})",
        cc_in,
        cc_out,
    );
    // And every original clue must still match.
    for (i, (a, &b)) in SEED.bytes().zip(out.iter()).enumerate() {
        if a != b'.' && a != b'0' {
            assert_eq!(a, b, "original clue at {} altered by brt_expand", i);
        }
    }
}

#[test]
fn easy_puzzles_expand_to_their_solution() {
    let easy = "53..7....6..195....98....6.8...6...34..8.3..17...2...6.6....28....419..5....8..79";
    let solution = solve_seed(easy);
    assert_eq!(brt_expand(&bytes(easy), &solution), solution);
    // A string that is no puzzle stays as it is.
    assert_eq!(brt_expand(&bytes("12"), &solution), bytes("12"));
    let twice = easy.replacen("53", "55", 1);
    assert_eq!(brt_expand(&bytes(&twice), &solution), bytes(&twice));
}

#[test]
fn test_reminimize_below_minimal_returns_minimal() {
    let solution = solve_seed(SEED);
    let mut inflated = bytes(SEED);
    let first_dot = inflated.iter().position(|&b| b == b'.' || b == b'0').unwrap();
    inflated[first_dot] = solution[first_dot];
    let inflated_cc = clues(&inflated);

    let mut rng = Xoshiro256PlusPlus::seed_from_u64(99);
    let min_p = reminimize(&inflated, &mut rng).expect("inflated puzzle unique");
    let min_cc = clues(&min_p);
    assert!(
        min_cc < inflated_cc,
        "reminimize should strip at least one redundant clue ({} -> {})",
        inflated_cc,
        min_cc,
    );
    // And the result must still be unique.
    let g = Grid::<9, 3, 3>::from_bytes(&min_p).expect("min parses");
    assert_eq!(count_solutions_up_to::<9, 3, 3>(&g, 2), 1, "reminimize output must be unique");
    // No clue can go.
    for i in 0..81 {
        if min_p[i] != b'.' {
            let mut less = min_p.clone();
            less[i] = b'.';
            assert!(!has_one_solution(&less));
        }
    }
    assert!(reminimize(&vec![b'.'; 81], &mut rng).is_none());
}

#[test]
fn exchanging_clues_changes_their_number() {
    let solution = solve_seed(SEED);
    let seed = bytes(SEED);
    let mut rng = Xoshiro256PlusPlus::seed_from_u64(4);
    let q = go_p_q(&seed, &solution, 3, 5, &mut rng).unwrap();
    assert_eq!(clue_count(&q), clue_count(&seed) + 2);
    for i in 0..81 {
        assert!(q[i] == seed[i] || q[i] == b'.' || q[i] == solution[i]);
    }
    assert!(go_p_q(&seed, &solution, 82, 0, &mut rng).is_none());
    assert!(go_p_q(&seed, &solution, 0, 80, &mut rng).is_none());
    assert!(go_p_q(&seed, &vec![b'.'; 81], 0, 1, &mut rng).is_none());
}

#[test]
fn test_v3_mutator_preserves_uniqueness() {
    let solution = solve_seed(SEED);
    let seed = bytes(SEED);
    let mut rng = Xoshiro256PlusPlus::seed_from_u64(2026);
    let mut produced = 0usize;
    for _ in 0..100 {
        for &n in &[1usize, 2, 3] {
            if let Some(m) = bxb_mutate_once_v3(&seed, &solution, n, n, &mut rng) {
                produced += 1;
                let g = Grid::<9, 3, 3>::from_bytes(&m).expect("v3 output should parse");
                assert_eq!(
                    count_solutions_up_to::<9, 3, 3>(&g, 2),
                    1,
                    "v3 mutator emitted non-unique puzzle: {:?}",
                    m,
                );
            }
        }
    }
    assert!(produced > 0, "v3 mutator must produce at least one candidate over 300 draws");
}

#[test]
fn test_v4_mutator_preserves_uniqueness_when_tridagon_present() {
    const HARD: &str =
        "........1....12.3...13..4....35...4..6...78..9...2......82....4.7..9....2....65..";
    let puzzle = bytes(HARD);
    let solution = solve_seed(HARD);
    let mut rng = Xoshiro256PlusPlus::seed_from_u64(0xDEAD_BEEF);
    let mut produced = 0;
    for _ in 0..50 {
        if let Some((p, s)) = bxb_mutate_once_v4(&puzzle, &solution, &mut Swaps, &mut rng) {
            // Solution length sanity.
            assert_eq!(s.len(), 81);
            // Clue count preserved (relabel never adds/removes clues).
            let in_cc = clues(&puzzle);
            let out_cc = clues(&p);
            assert_eq!(in_cc, out_cc, "v4 must preserve clue count");
            let g = Grid::<9, 3, 3>::from_bytes(&p).unwrap();
            assert_eq!(count_solutions_up_to::<9, 3, 3>(&g, 2), 1, "v4 emitted non-unique");
            produced += 1;
        }
    }
    assert!(produced > 0, "v4 must emit at least one candidate on seed with tridagon");
    assert!(bxb_mutate_once_v4(&puzzle, &solution, &mut NoTridagons, &mut rng).is_none());
    assert!(!accepts_replacement(&puzzle, &puzzle));
    assert!(!accepts_replacement(&puzzle, &vec![b'.'; 81]));
}

#[test]
fn fresh_digits_and_orders() {
    let mut rng = Xoshiro256PlusPlus::seed_from_u64(8);
    let mut all = HashSet::new();
    for _ in 0..50 {
        let f = fresh_triplet([1, 5, 9], &mut rng);
        for i in 0..3 {
            assert!((1..=9).contains(&f[i]) && ![1, 5, 9].contains(&f[i]));
            for j in 0..i {
                assert_ne!(f[i], f[j]);
            }
        }
        all.insert(f);
        let mut m = random_match(&mut rng);
        m.sort();
        assert_eq!(m, [0, 1, 2]);
    }
    assert!(all.len() > 1);
}

fn rules(mutator: BxbMutator, target: u16) -> ClimbRules {
    ClimbRules {
        target_bxb: target,
        max_length: 81,
        buffer_size: 4096,
        mute: vec![1, 2],
        mutator,
        allow_clue_count_change: true,
    }
}

#[test]
fn ratings_are_carried_by_seeds() {
    let bxb = ByClues.rate_bxb(&bytes(SEED), 81, 4096);
    let entry = rated_seed(bytes(SEED), solve_seed(SEED), bxb).unwrap();
    assert_eq!(entry.bxb as usize, 81 - clues(SEED.as_bytes()));
    assert_eq!(entry.generation, 0);
    assert!(ByClues.rate_bxb(&bytes(SEED), 14, 4096).is_none());
    assert!(matches!(
        rated_seed(bytes(SEED), solve_seed(SEED), None),
        Err(SeedFault::Unrated)
    ));
}

#[test]
fn a_climb_takes_one_step() {
    let solution = seed_solution(&bytes(SEED), None).unwrap();
    assert_eq!(solution, solve_seed(SEED));
    let seed = BxbEntry { puzzle: bytes(SEED), solution, bxb: 2, generation: 0 };
    let r = ClimbRules {
        target_bxb: 2,
        max_length: 14,
        buffer_size: 4096,
        mute: vec![1],
        mutator: BxbMutator::V1,
        allow_clue_count_change: false,
    };
    let seeds = vec![seed];
    let before = seed_hashes(&seeds);
    let mut climb = Climb::new(&seeds[0], &r);
    // The seed itself rates high enough.
    assert_eq!(climb.outputs.len(), 1);
    let mut rng = Xoshiro256PlusPlus::seed_from_u64(1);
    climb.step(&r, &before, &mut ByClues, &mut NoTridagons, &mut rng);
    assert_eq!(climb.iters, 1);
    assert_eq!(climb.diag.n_mutations_proposed, 1);
}

#[test]
fn climbs_never_go_down() {
    let solution = solve_seed(SEED);
    // Half of the open cells are shown.
    let mut full = bytes(SEED);
    for i in 0..40 {
        full[i] = solution[i];
    }
    assert!(has_one_solution(&full));
    for (mutator, start) in [(BxbMutator::V2, full), (BxbMutator::V3, bytes(SEED))] {
        let bxb = ByClues.rate_bxb(&start, 81, 0).unwrap();
        let seeds =
            vec![BxbEntry { puzzle: start, solution: solution.clone(), bxb, generation: 0 }];
        let r = rules(mutator, bxb + 1);
        let before = seed_hashes(&seeds);
        let mut climb = Climb::new(&seeds[0], &r);
        assert!(climb.outputs.is_empty());
        let mut rng = Xoshiro256PlusPlus::seed_from_u64(77);
        let mut hashes = HashSet::new();
        for k in 0..150 {
            let best = climb.best_bxb;
            let out = climb.outputs.len();
            let v = climb.step(&r, &before, &mut ByClues, &mut NoTridagons, &mut rng);
            assert!(climb.best_bxb >= best);
            assert_eq!(climb.best_bxb > best, v == Verdict::Better);
            assert_eq!(climb.iters, k + 1);
            if climb.outputs.len() > out {
                let e = &climb.outputs[out];
                assert!(e.bxb >= r.target_bxb);
                assert!(has_one_solution(&e.puzzle));
                assert!(hashes.insert(puzzle_hash(&e.puzzle).unwrap()));
            }
        }
        assert!(mutator == BxbMutator::V3 || climb.best_bxb > bxb);
        let d = climb.diag;
        assert_eq!(d.n_mutations_proposed, 150);
        assert!(d.n_above_target >= climb.outputs.len());
        assert_eq!(d.n_tridagon_found, 0);
    }
}

#[test]
fn proposals_are_screened_in_order() {
    let solution = solve_seed(SEED);
    let seed = bytes(SEED);
    let mut r = rules(BxbMutator::V2, 0);
    r.allow_clue_count_change = false;
    let none: HashSet<u128> = HashSet::new();
    let n = clue_count(&seed);
    let mut more = seed.clone();
    more[2] = solution[2];
    assert!(matches!(
        screen(&r, n, &none, &none, &more),
        Screened::Out(Verdict::ClueMismatch)
    ));
    let mut bad = seed.clone();
    bad[0] = b'x';
    assert!(matches!(screen(&r, n, &none, &none, &bad), Screened::Out(Verdict::Unreadable)));
    let h = puzzle_hash(&seed).unwrap();
    let one: HashSet<u128> = [h].into_iter().collect();
    assert!(matches!(screen(&r, n, &one, &none, &seed), Screened::Known(_)));
    assert!(matches!(screen(&r, n, &none, &one, &seed), Screened::Known(_)));
    match screen(&r, n, &none, &none, &seed) {
        Screened::Fresh(k, s) => {
            assert_eq!(k, h);
            assert_eq!(s, solution);
        }
        _ => panic!("the seed has one solution"),
    }
    let mut open = seed.clone();
    open[0] = b'.';
    r.allow_clue_count_change = true;
    assert!(matches!(screen(&r, n, &none, &none, &open), Screened::Ambiguous(_)));
}

#[test]
fn settling_follows_the_rating() {
    let solution = solve_seed(SEED);
    let seed = BxbEntry { puzzle: bytes(SEED), solution, bxb: 5, generation: 3 };
    let r = rules(BxbMutator::V2, 6);
    let mut c = Climb::new(&seed, &r);
    let other = bytes(SEED);
    assert_eq!(c.settle(&r, other.clone(), other.clone(), None), Verdict::Unrated);
    assert_eq!(c.settle(&r, other.clone(), other.clone(), Some(4)), Verdict::Worse);
    assert_eq!(c.stall, 2);
    assert_eq!(c.settle(&r, other.clone(), other.clone(), Some(5)), Verdict::Level);
    assert_eq!((c.stall, c.current.generation, c.outputs.len()), (3, 4, 0));
    assert_eq!(c.settle(&r, other.clone(), other.clone(), Some(6)), Verdict::Better);
    assert_eq!((c.stall, c.best_bxb, c.outputs.len()), (0, 6, 1));
    assert!(!c.is_over(&r, 1) && c.is_over(&r, 0));
    assert_eq!(c.diag.n_above_target, 1);
}

#[test]
fn whole_climbs_take_the_steps_one_after_another() {
    let solution = solve_seed(SEED);
    let bxb = ByClues.rate_bxb(&bytes(SEED), 81, 0).unwrap();
    let seed = BxbEntry { puzzle: bytes(SEED), solution, bxb, generation: 0 };
    let seeds = vec![seed];
    let before = seed_hashes(&seeds);
    let r = rules(BxbMutator::V2, bxb);
    let mut whole = Climb::new(&seeds[0], &r);
    let mut rng = Xoshiro256PlusPlus::seed_from_u64(5);
    whole.go_on(&r, 40, &before, &mut ByClues, &mut NoTridagons, &mut rng);
    assert_eq!(whole.iters, 40);
    assert!(whole.is_over(&r, 40));
    let mut steps = Climb::new(&seeds[0], &r);
    let mut rng = Xoshiro256PlusPlus::seed_from_u64(5);
    for _ in 0..40 {
        steps.step(&r, &before, &mut ByClues, &mut NoTridagons, &mut rng);
    }
    assert_eq!(whole.current.puzzle, steps.current.puzzle);
    assert_eq!(whole.diag, steps.diag);
    assert_eq!(whole.outputs.len(), steps.outputs.len());
    // The seed stays first, and no puzzle is added twice.
    assert_eq!(whole.outputs[0].puzzle, seeds[0].puzzle);
    let hashes: HashSet<u128> =
        whole.outputs.iter().map(|e| puzzle_hash(&e.puzzle).unwrap()).collect();
    assert_eq!(hashes.len(), whole.outputs.len());
}

#[test]
fn seeds_without_one_solution_are_left_out() {
    assert!(matches!(seed_solution(&bytes("12"), None), Err(SeedFault::Unreadable)));
    assert!(matches!(seed_solution(&vec![b'.'; 81], None), Err(SeedFault::Solutions(2))));
    // A solution of 81 bytes is taken as it is.
    let given = vec![b'1'; 81];
    assert_eq!(seed_solution(&vec![b'.'; 81], Some(given.clone())).unwrap(), given);
    assert_eq!(
        seed_solution(&bytes(SEED), Some(vec![b'1'; 3])).unwrap(),
        solve_seed(SEED)
    );
}

fn entry(p: &[u8], bxb: u16) -> BxbEntry {
    BxbEntry { puzzle: p.to_vec(), solution: p.to_vec(), bxb, generation: 0 }
}

#[test]
fn the_stream_takes_each_puzzle_once_and_no_more_than_asked() {
    let solution = solve_seed(SEED);
    let transposed: Vec<u8> = (0..81).map(|i| SEED.as_bytes()[(i % 9) * 9 + i / 9]).collect();
    let mut more = bytes(SEED);
    more[2] = solution[2];
    let mut s = Stream::new(2);
    let mut waiting = vec![
        entry(SEED.as_bytes(), 3),
        entry(b"nothing", 9),
        entry(&transposed, 4),
        entry(&more, 5),
        entry(&solution, 6),
    ];
    let b = s.reserve(&mut waiting);
    assert!(waiting.is_empty());
    // The transposed puzzle has the hash of the first, and the last finds no room.
    assert_eq!(b.entries.iter().map(|e| e.bxb).collect::<Vec<_>>(), vec![3, 5]);
    assert_eq!(s.seen.len(), 2);
    s.roll_back(&b);
    assert_eq!((s.seen.len(), s.emitted), (0, 0));
    let mut again = vec![entry(SEED.as_bytes(), 3)];
    let b = s.reserve(&mut again);
    s.commit(&b);
    assert_eq!((s.seen.len(), s.emitted), (1, 1));
    let mut once_more = vec![entry(SEED.as_bytes(), 3)];
    assert!(s.reserve(&mut once_more).entries.is_empty());
}

#[test]
fn ranges_and_merged_counts() {
    assert_eq!(rating_range(&vec![]), None);
    let es = vec![entry(b"", 7), entry(b"", 3), entry(b"", 5)];
    assert_eq!(rating_range(&es), Some((3, 7)));
    let mut a = BxbDiagnostics::new();
    a.n_rated = 4;
    let mut b = BxbDiagnostics::new();
    b.n_rated = 5;
    b.n_v4_emit = 1;
    let c = a.merge(b);
    assert_eq!((c.n_rated, c.n_v4_emit, c.n_clue_mismatch), (9, 1, 0));
}

#[test]
fn the_account_of_a_run() {
    let mut d = BxbDiagnostics::new();
    d.n_mutations_proposed = 12;
    d.n_canonical_dup = 3;
    let text = bxb_manifest("a \"b\"\n\u{1}", 4, 5, 6, 14, 4096, &d);
    let expected = "{\n  \"label\": \"a \\\"b\\\"\\n\\u0001\",\n  \"fitness\": \"bxb\",\n  \
                    \"target_bxb\": 6,\n  \"bxb_max_length\": 14,\n  \"bxb_buffer_size\": 4096,\n  \
                    \"seed_count\": 4,\n  \"output_count\": 5,\n  \"diagnostics\": {\n    \
                    \"n_mutations_proposed\": 12,\n    \"n_clue_mismatch\": 0,\n    \
                    \"n_canonical_dup\": 3,\n    \"n_uniqueness_fail\": 0,\n    \"n_rated\": 0,\n    \
                    \"n_above_target\": 0,\n    \"n_clue_count_changed\": 0\n  }\n}";
    assert_eq!(text, expected);
}

#[test]
fn singles_that_come_to_a_dead_end_still_count() {
    // Two cells of the first row can hold nothing but 9.
    let mut p = vec![b'.'; 81];
    for (i, d) in (1..=7u8).enumerate() {
        p[i] = b'0' + d;
    }
    p[9 * 3 + 7] = b'8';
    p[9 * 6 + 8] = b'8';
    let solution = vec![b'5'; 81];
    let q = brt_expand(&p, &solution);
    let mut expected = p.clone();
    expected[7] = b'5';
    assert_eq!(q, expected);
}

#[test]
fn climbs_ask_for_tridagons_and_ratings() {
    let solution = solve_seed(SEED);
    let seeds =
        vec![BxbEntry { puzzle: bytes(SEED), solution, bxb: 0, generation: 0 }];
    let r = rules(BxbMutator::V4, 1);
    let before = seed_hashes(&seeds);
    let mut rng = Xoshiro256PlusPlus::seed_from_u64(4);
    let mut none = Climb::new(&seeds[0], &r);
    none.go_on(&r, 20, &before, &mut ByClues, &mut NoTridagons, &mut rng);
    assert_eq!((none.diag.n_tridagon_found, none.diag.n_v4_emit, none.diag.n_rated), (0, 0, 0));
    let mut some = Climb::new(&seeds[0], &r);
    some.go_on(&r, 20, &before, &mut ByClues, &mut Swaps, &mut rng);
    assert_eq!(some.diag.n_tridagon_found, 20);
    // A puzzle is taken with the rating that it got.
    let first = climb_to(&seeds[0], &r, &before);
    assert_eq!(first.best_bxb, ByClues.rate_bxb(&first.current.puzzle, 81, 0).unwrap());
    assert_eq!(first.current.generation, 1);
    assert_eq!(first.diag.n_above_target, 1);
    assert_eq!(first.diag.n_rated, 1);
}

/// Steps with exchanged clues until one is taken.
fn climb_to(seed: &BxbEntry, r: &ClimbRules, before: &HashSet<u128>) -> Climb {
    let r = ClimbRules { mutator: BxbMutator::V3, mute: vec![1], ..rules(r.mutator, r.target_bxb) };
    let mut rng = Xoshiro256PlusPlus::seed_from_u64(9);
    let mut climb = Climb::new(seed, &r);
    for _ in 0..500 {
        let v = climb.step(&r, before, &mut ByClues, &mut NoTridagons, &mut rng);
        if v == Verdict::Better {
            return climb;
        }
    }
    panic!("no step was taken");
}

#[test]
fn a_seed_that_rates_high_enough_is_put_out() {
    let bxb = ByClues.rate_bxb(&bytes(SEED), 81, 0).unwrap();
    let seeds =
        vec![BxbEntry { puzzle: bytes(SEED), solution: solve_seed(SEED), bxb, generation: 0 }];
    let before = seed_hashes(&seeds);
    let mut rng = Xoshiro256PlusPlus::seed_from_u64(2);
    for (target, mute, expected) in [(bxb, vec![], 1), (bxb + 1, vec![], 0), (bxb, vec![1], 1)] {
        let r = ClimbRules { mute, ..rules(BxbMutator::V3, target) };
        let mut climb = Climb::new(&seeds[0], &r);
        climb.go_on(&r, 5, &before, &mut ByClues, &mut NoTridagons, &mut rng);
        let mut stream = Stream::new(1);
        let b = stream.reserve(&mut climb.outputs);
        assert_eq!(b.entries.len(), expected);
        if expected == 1 {
            assert_eq!(b.entries[0].puzzle, bytes(SEED));
            assert_eq!(b.entries[0].generation, 0);
        }
    }
}

#[test]
fn clues_are_shuffled_even_for_no_replacement() {
    let puzzle = bytes(SEED);
    let mut rng = Xoshiro256PlusPlus::seed_from_u64(3);
    assert_eq!(bxb_mutate_once(&puzzle, 0, &mut rng), None);
    let mut other = Xoshiro256PlusPlus::seed_from_u64(3);
    let mut cells: Vec<usize> = (0..clues(&puzzle)).collect();
    cells.shuffle(&mut other);
    assert_eq!(rng.next_u64(), other.next_u64());
    // Nothing is drawn where there are too few clues.
    assert_eq!(bxb_mutate_once(&puzzle, 80, &mut rng), None);
    assert_eq!(rng.next_u64(), other.next_u64());
}
