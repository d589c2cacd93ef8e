use rand_xoshiro::rand_core::SeedableRng;
use rand_xoshiro::Xoshiro256PlusPlus;
use sudoku_rs_core::generic::backtracker::propagate_singles;
use sudoku_rs_core::generic::canonical::{canonical_form, canonical_hash};
use sudoku_rs_core::generic::grid::Grid;
use sudoku_rs_core::generic::search::{
    count_solutions_up_to, digit_list, search_random, solve_unique,
};

const EASY: &str =
    "53..7....6..195....98....6.8...6...34..8.3..17...2...6.6....28....419..5....8..79";

#[test]
fn empty_9x9_has_full_masks() {
    let g: Grid<9, 3, 3> = Grid::empty();
    assert_eq!(g.candidates.len(), 81);
    assert_eq!(g.solved.len(), 81);
    for i in 0..81 {
        assert_eq!(g.candidates[i], 0x1FF);
    }
    assert_eq!(g.solved_count, 0);
}

#[test]
fn assign_propagates_9x9() {
    let mut g: Grid<9, 3, 3> = Grid::empty();
    g.assign(0, 5).unwrap();
    // Same row
    assert_eq!(g.candidates[1] & 0b1_0000, 0);
    // Same col
    assert_eq!(g.candidates[9] & 0b1_0000, 0);
    // Same box
    assert_eq!(g.candidates[10] & 0b1_0000, 0);
    // Not a peer
    assert_eq!(g.candidates[40], 0x1FF);
}

#[test]
fn empty_6x6_full_mask() {
    let g: Grid<6, 2, 3> = Grid::empty();
    assert_eq!(g.candidates.len(), 36);
    for i in 0..36 {
        assert_eq!(g.candidates[i], 0x3F);
    }
}

#[test]
fn empty_16x16_full_mask() {
    let g: Grid<16, 4, 4> = Grid::empty();
    assert_eq!(g.candidates.len(), 256);
    assert_eq!(g.candidates[0], 0xFFFF);
}

#[test]
fn empty_12x12_full_mask() {
    let g: Grid<12, 3, 4> = Grid::empty();
    assert_eq!(g.candidates.len(), 144);
    assert_eq!(g.candidates[0], 0xFFF);
}

#[test]
fn assign_contradiction_in_row() {
    let mut g: Grid<9, 3, 3> = Grid::empty();
    g.assign(0, 5).unwrap();
    // Trying to put 5 in cell 1 (same row) must fail because peer
    // propagation already removed the candidate.
    assert!(g.assign(1, 5).is_err());
}

#[test]
fn eliminate_says_what_it_did() {
    let mut g: Grid<9, 3, 3> = Grid::empty();
    assert_eq!(g.eliminate(0, 5).unwrap(), true);
    assert_eq!(g.eliminate(0, 5).unwrap(), false);
    for d in [1u8, 2, 3, 4, 6, 7, 8] {
        assert_eq!(g.eliminate(0, d).unwrap(), true);
    }
    // The last candidate cannot go.
    assert!(g.eliminate(0, 9).is_err());
    assert_eq!(g.candidates[0], 0);
    // A placed digit cannot go either, and stays.
    g.assign(40, 7).unwrap();
    assert!(g.eliminate(40, 7).is_err());
    assert_eq!(g.candidates[40], 0b100_0000);
}

#[test]
fn strings_that_are_no_puzzle_are_refused() {
    assert!(Grid::<9, 3, 3>::from_str("53..7").is_none());
    let letter = EASY.replace('5', "X");
    assert!(Grid::<9, 3, 3>::from_str(&letter).is_none());
    let twice = EASY.replacen("53", "55", 1);
    assert!(Grid::<9, 3, 3>::from_str(&twice).is_none());
    assert!(Grid::<9, 3, 3>::from_str(&EASY.replace('.', "0")).is_some());
}

#[test]
fn texts_are_read_back() {
    let g: Grid<9, 3, 3> = Grid::from_str(EASY).unwrap();
    assert_eq!(g.to_string_grid(), EASY);
    assert_eq!(g.solved_count, 30);
    assert!(!g.is_solved());
    assert!(g.is_consistent());
    let h = g.clone();
    assert_eq!(h.to_string_grid(), EASY);
    assert_eq!(g.pop(0), 1);
    let again: Grid<9, 3, 3> = Grid::from_clues(&g.solved).unwrap();
    assert_eq!(again.to_string_grid(), EASY);
    assert_eq!(again.candidates, g.candidates);
}

#[test]
fn solve_easy_9x9_via_singles() {
    // A puzzle that propagate_singles solves to completion (singles only).
    let p = "53..7....6..195....98....6.8...6...34..8.3..17...2...6.6....28....419..5....8..79";
    let mut g: Grid<9, 3, 3> = Grid::from_str(p).unwrap();
    propagate_singles(&mut g).expect("no contradiction");
    assert!(g.is_solved(), "easy 9×9 must solve via singles propagation");
}

#[test]
fn solve_6x6_via_singles_or_search() {
    // Most cells given, leaves a few empty that singles will fill.
    // We give the full solution minus a handful of cells.
    let p = "12345.\
             456123\
             21436.\
             365214\
             5316.2\
             642531";
    let mut g: Grid<6, 2, 3> = Grid::from_str(p).unwrap();
    // singles should solve trivially
    propagate_singles(&mut g).expect("ok");
    assert!(g.is_solved(), "expected fully solved, got {}", g.to_string_grid());
    assert!(g.is_consistent());
    assert_eq!(g.to_string_grid(), "123456456123214365365214531642642531");
}

fn algebraic_solution(n: usize, br: usize, bc: usize) -> String {
    let mut sol = vec![0u8; n * n];
    for r in 0..n {
        for c in 0..n {
            let v = ((bc * r + r / br + c) % n) + 1;
            sol[r * n + c] = v as u8;
        }
    }
    let mut s = String::new();
    for &d in &sol {
        if d <= 9 {
            s.push((b'0' + d) as char);
        } else {
            s.push((b'A' + d - 10) as char);
        }
    }
    s
}

#[test]
fn solve_12x12_via_singles() {
    let s = algebraic_solution(12, 3, 4);
    let g: Grid<12, 3, 4> = Grid::from_str(&s).unwrap();
    assert!(g.is_consistent(), "constructed solution must be consistent");
    assert!(g.is_solved());
    // Now blank out a few cells and re-solve via singles.
    let mut s2: Vec<u8> = s.bytes().collect();
    for &i in &[0usize, 13, 26, 50, 100, 130] {
        s2[i] = b'.';
    }
    let s2 = std::str::from_utf8(&s2).unwrap();
    let mut g2: Grid<12, 3, 4> = Grid::from_str(s2).unwrap();
    propagate_singles(&mut g2).expect("ok");
    assert!(g2.is_solved(), "singles should fill in 6 missing cells");
    assert_eq!(g2.to_string_grid(), s);
}

#[test]
fn solve_16x16_via_singles() {
    let s = algebraic_solution(16, 4, 4);
    let g: Grid<16, 4, 4> = Grid::from_str(&s).unwrap();
    assert!(g.is_consistent());
    assert!(g.is_solved());
    // Blank a few cells, ensure singles refill.
    let mut s2: Vec<u8> = s.bytes().collect();
    for &i in &[0usize, 17, 34, 51, 100, 200, 250] {
        s2[i] = b'.';
    }
    let s2 = std::str::from_utf8(&s2).unwrap();
    let mut g2: Grid<16, 4, 4> = Grid::from_str(s2).unwrap();
    propagate_singles(&mut g2).expect("ok");
    assert!(g2.is_solved());
    assert_eq!(g2.to_string_grid(), s);
}

#[test]
fn singles_find_a_dead_end() {
    let mut g: Grid<9, 3, 3> = Grid::empty();
    for d in 1..=8u8 {
        let _ = g.eliminate(0, d);
        let _ = g.eliminate(1, d);
    }
    // Two cells of a row have nothing but 9.
    let before = g.clone();
    assert!(propagate_singles(&mut g).is_err());
    // The first of them is placed before the second one refuses it.
    assert_eq!(g.solved[0], 9);
    assert_eq!(g.solved_count, before.solved_count + 1);
    assert_eq!(g.candidates[1], 0);
    for c in 0..81 {
        assert_eq!(g.candidates[c] & !before.candidates[c], 0);
        assert!(c == 0 || g.solved[c] == before.solved[c]);
    }
}

#[test]
fn solutions_are_counted_up_to_a_limit() {
    let g: Grid<9, 3, 3> = Grid::from_str(EASY).unwrap();
    assert_eq!(count_solutions_up_to(&g, 0), 0);
    assert_eq!(count_solutions_up_to(&g, 2), 1);
    let solved = solve_unique(&g).unwrap();
    assert!(solved.is_solved() && solved.is_consistent());
    let empty: Grid<9, 3, 3> = Grid::empty();
    assert_eq!(count_solutions_up_to(&empty, 5), 5);
    assert!(solve_unique(&empty).is_none());
}

#[test]
fn random_search_fills_an_empty_grid() {
    let mut rng = Xoshiro256PlusPlus::seed_from_u64(3);
    let mut g: Grid<9, 3, 3> = Grid::empty();
    assert!(search_random(&mut g, &mut rng).is_some());
    assert!(g.is_solved() && g.is_consistent());
    // The order of the digits is drawn: two fillings differ.
    let mut h: Grid<9, 3, 3> = Grid::empty();
    assert!(search_random(&mut h, &mut rng).is_some());
    assert_ne!(g.to_string_grid(), h.to_string_grid());
}

#[test]
fn digits_of_a_mask_ascend() {
    assert_eq!(digit_list(0b1010_0001), vec![1, 6, 8]);
    assert_eq!(digit_list(0), Vec::<u8>::new());
}

fn parse_9x9(s: &str) -> Grid<9, 3, 3> {
    Grid::<9, 3, 3>::from_str(s).expect("parse failed")
}

/// A filled 9x9 grid.
const SOLVED_1: &str =
    "123456789456789123789123456214365897365897214897214365531642978642978531978531642";

/// Another one, of another structure.
const SOLVED_2: &str =
    "534678912672195348198342567859761423426853791713924856961537284287419635345286179";

#[test]
fn canonical_idempotent() {
    let g = parse_9x9(SOLVED_1);
    let cf1 = canonical_form(&g);
    let cf2 = canonical_form(&g);
    assert_eq!(cf1, cf2, "canonical_form must be deterministic");
}

#[test]
fn canonical_form_is_its_own_form() {
    let cf = canonical_form(&parse_9x9(SOLVED_2));
    let again: Grid<9, 3, 3> = Grid::from_clues(&cf).unwrap();
    assert_eq!(canonical_form(&again), cf);
    assert_eq!(cf[..9], [1, 2, 3, 4, 5, 6, 7, 8, 9]);
}

#[test]
fn canonical_relabeled_digit_collapses() {
    // Apply a digit permutation to SOLVED_1: swap digits 1<->2.
    let g = parse_9x9(SOLVED_1);
    let original_cf = canonical_form(&g);

    // Build a permuted version manually: swap 1 and 2 in solved[].
    let permuted_str: String = SOLVED_1
        .chars()
        .map(|c| match c {
            '1' => '2',
            '2' => '1',
            other => other,
        })
        .collect();
    let g_perm = parse_9x9(&permuted_str);
    let permuted_cf = canonical_form(&g_perm);

    assert_eq!(original_cf, permuted_cf, "digit relabel must produce same canonical form");
    assert_eq!(canonical_hash(&g), canonical_hash(&g_perm));
}

#[test]
fn canonical_transpose_collapses() {
    let g = parse_9x9(SOLVED_1);
    let original_cf = canonical_form(&g);

    // Transpose: cell (r,c) -> (c,r).
    let bytes = SOLVED_1.as_bytes();
    let transposed_str: String = (0..81)
        .map(|i| {
            let row = i / 9;
            let col = i % 9;
            bytes[col * 9 + row] as char
        })
        .collect();
    let g_t = parse_9x9(&transposed_str);
    let transposed_cf = canonical_form(&g_t);

    assert_eq!(original_cf, transposed_cf, "transpose must produce same canonical form");
    assert_eq!(canonical_hash(&g), canonical_hash(&g_t));
}

#[test]
fn canonical_distinct_grids_distinct() {
    let g1 = parse_9x9(SOLVED_1);
    let g2 = parse_9x9(SOLVED_2);
    let cf1 = canonical_form(&g1);
    let cf2 = canonical_form(&g2);
    assert_ne!(
        cf1, cf2,
        "two non-isomorphic grids must have distinct approximate canonical forms"
    );
}

#[test]
fn same_forms_mean_related_grids() {
    let g = parse_9x9(SOLVED_1);
    // Swapping two rows of a band leads to a grid that is not related.
    let mut rows: Vec<&str> = (0..9).map(|r| &SOLVED_1[9 * r..9 * r + 9]).collect();
    rows.swap(3, 4);
    assert_ne!(canonical_form(&parse_9x9(&rows.concat())), canonical_form(&g));
    // Renaming and transposing together do.
    let cells: Vec<u8> = SOLVED_1.bytes().collect();
    let mut other = String::new();
    for i in 0..81 {
        let d = cells[(i % 9) * 9 + i / 9] - b'0';
        other.push((b'0' + (d % 9) + 1) as char);
    }
    assert_eq!(canonical_form(&parse_9x9(&other)), canonical_form(&g));
}

#[test]
fn canonical_hash_distinct_grids() {
    let puzzles = [
        SOLVED_1,
        SOLVED_2,
        "417369825632158947958724316825437169791586432346912758289643571573291684164875293",
        "259748163438261795671395428325984617184576239796123854567432981843619572912857346",
        "681793524597284163234516978312657849476198235859342617745829381963471752128935496",
        "315694782724538196896172453961423578452987631738156924543869217279315864187246359",
        "246895317951372684738416295192784563364953871875261439423547918617839452589126743",
        "897162534564783912132945678973256841645318297218497365351624789486571923729839456",
        "791483625385276419246591738962357184158942367437168592674815923523694871819327456",
        "162849357875236149349715826913574682628391574457682931796123485584967213231458796",
    ];

    let mut hashes: Vec<(usize, u128)> = Vec::new();
    for (idx, s) in puzzles.iter().enumerate() {
        if let Some(g) = Grid::<9, 3, 3>::from_str(s) {
            hashes.push((idx, canonical_hash(&g)));
        }
        // Puzzles that fail to parse (contradiction) are skipped gracefully.
    }

    // Check uniqueness among parsed grids.
    for i in 0..hashes.len() {
        for j in (i + 1)..hashes.len() {
            assert_ne!(
                hashes[i].1, hashes[j].1,
                "hash collision between puzzle {} and {}: {:032x} == {:032x}",
                hashes[i].0, hashes[j].0, hashes[i].1, hashes[j].1
            );
        }
    }
}

#[test]
fn canonical_partial_grid_stable() {
    // Partial puzzle with empty cells should produce a stable canonical form.
    let partial = "530070000600195000098000060800060003400803001700020006060000280000419005000080079";
    let g = Grid::<9, 3, 3>::from_str(partial).expect("partial parse failed");
    let cf1 = canonical_form(&g);
    let cf2 = canonical_form(&g);
    assert_eq!(cf1, cf2);
    assert_eq!(cf1.len(), 81);
}
