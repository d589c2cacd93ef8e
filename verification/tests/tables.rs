use sudoku_rs_core::generic::bitboard::BitSet;
use sudoku_rs_core::generic::chain_model::{Chain, ChainKind, Label, Rlc};
use sudoku_rs_core::generic::csp_tables::{
    build_csp_tables_n9, get_csp_tables_9x9, N_CSP_VARS_9X9, N_LABELS_9X9, W9,
};
use sudoku_rs_core::generic::glabel_tables::{
    build_glabel_tables_n9, glabel_contains_none_of, glabel_contains_some_of, label_in_glabel,
    GLabelTable, GLinkGraph, SegKind, WG9,
};

fn make_whip(target: Label, rlcs: &[u32]) -> Chain {
    let len = rlcs.len() as u8;
    Chain {
        kind: ChainKind::PartialWhip,
        target,
        length: len,
        llcs: vec![0u32; len as usize],
        rlcs: rlcs.iter().map(|&r| Rlc::Cand(r)).collect(),
        csp_vars: vec![0u32; len as usize],
    }
}

fn make_braid(target: Label, rlcs: &[u32]) -> Chain {
    let len = rlcs.len() as u8;
    Chain {
        kind: ChainKind::PartialBraid,
        target,
        length: len,
        llcs: vec![0u32; len as usize],
        rlcs: rlcs.iter().map(|&r| Rlc::Cand(r)).collect(),
        csp_vars: vec![0u32; len as usize],
    }
}

#[test]
fn whip_dedup_is_positional_not_set() {
    let w1 = make_whip(0, &[10, 20, 30]);
    let w2 = make_whip(0, &[30, 20, 10]); // same rlcs set, different order
    // Must have DIFFERENT dedup keys (positional semantics).
    assert_ne!(
        w1.dedup_key(),
        w2.dedup_key(),
        "whip dedup must be positional: [10,20,30] ≠ [30,20,10]"
    );
}

#[test]
fn braid_dedup_is_set_not_positional() {
    let b1 = make_braid(0, &[10, 20, 30]);
    let b2 = make_braid(0, &[30, 10, 20]); // same rlcs set, different order
    // Must have the SAME dedup key (set semantics).
    assert_eq!(
        b1.dedup_key(),
        b2.dedup_key(),
        "braid dedup must be set-based: [10,20,30] == [30,10,20]"
    );
}

#[test]
fn last_rlc_returns_correct_variant() {
    let w = make_whip(5, &[100, 200]);
    assert_eq!(w.last_rlc(), Rlc::Cand(200));

    let mut g = w.clone();
    g.kind = ChainKind::PartialGWhip;
    g.rlcs.push(Rlc::GCand(42));
    assert_eq!(g.last_rlc(), Rlc::GCand(42));
}

#[test]
fn chain_clone_round_trip() {
    let c = Chain {
        kind: ChainKind::Braid,
        target: 77,
        length: 2,
        llcs: vec![1, 2],
        rlcs: vec![Rlc::Cand(3), Rlc::GCand(9)],
        csp_vars: vec![0, 1],
    };
    let c2 = c.clone();
    assert_eq!(c2.target, 77);
    assert_eq!(c2.length, 2);
    assert_eq!(c2.llcs, vec![1, 2]);
    assert_eq!(c2.rlcs, vec![Rlc::Cand(3), Rlc::GCand(9)]);
}

#[test]
fn whip_braid_same_rlcs_different_keys() {
    let w = make_whip(0, &[5, 10]);
    let b = make_braid(0, &[5, 10]);
    assert_ne!(
        w.dedup_key(),
        b.dedup_key(),
        "whip and braid with same rlcs must have different dedup keys (F8 kind discriminator)"
    );
}

#[test]
fn cross_type_dedup_whip_braid_same_key() {
    let w = make_whip(10, &[20, 30]);
    let b = make_braid(10, &[20, 30]);
    assert_eq!(
        w.dedup_key_cross_type(),
        b.dedup_key_cross_type(),
        "FX-4: partial-whip and partial-braid with same (target, rlcs) must share dedup_key_cross_type()"
    );
    assert_ne!(
        w.dedup_key(),
        b.dedup_key(),
        "dedup_key() still distinguishes whip from braid"
    );
}

#[test]
fn cross_type_dedup_whip_gwhip_different_keys() {
    let w = make_whip(10, &[20, 30]);
    let gw = Chain {
        kind: ChainKind::PartialGWhip,
        target: 10,
        length: 2,
        llcs: vec![0u32; 2],
        rlcs: vec![Rlc::Cand(20), Rlc::Cand(30)],
        csp_vars: vec![0u32; 2],
    };
    // Different is_grouped → different cross-type key.
    assert_ne!(
        w.dedup_key_cross_type(),
        gw.dedup_key_cross_type(),
        "FX-4: partial-whip and partial-gwhip must have DIFFERENT dedup_key_cross_type() (is_grouped differs)"
    );
}

#[test]
fn keys_tell_candidates_from_groups_and_targets_apart() {
    let mut a = make_whip(1, &[7]);
    let b = make_whip(2, &[7]);
    assert_ne!(a.dedup_key(), b.dedup_key());
    let plain = a.dedup_key();
    a.rlcs[0] = Rlc::GCand(7);
    assert_ne!(a.dedup_key(), plain);
}

#[test]
fn n9_csp_var_count_is_324() {
    let (t, _, _) = build_csp_tables_n9();
    assert_eq!(t.labels_of.len(), N_CSP_VARS_9X9, "expected 324 CSP-Variables for N=9");
}

#[test]
fn n9_each_csp_var_has_9_labels() {
    let (t, _, _) = build_csp_tables_n9();
    for (v, labs) in t.labels_of.iter().enumerate() {
        assert_eq!(labs.len(), 9, "CSP-Variable {} has {} labels, expected 9", v, labs.len());
    }
}

#[test]
fn n9_label_belongs_to_4_vars() {
    let (t, _, _) = build_csp_tables_n9();
    assert_eq!(t.vars_of.len(), N_LABELS_9X9);
    for lab in 0..N_LABELS_9X9 {
        let vars = &t.vars_of[lab];
        // All 4 slots should be distinct.
        let mut unique_vars: Vec<u32> = vars.to_vec();
        unique_vars.sort_unstable();
        unique_vars.dedup();
        assert_eq!(
            unique_vars.len(),
            4,
            "label {} belongs to {} vars, expected 4",
            lab,
            unique_vars.len()
        );
    }
}

#[test]
fn n9_row_peers_are_linked() {
    let (_, lg, _) = build_csp_tables_n9();
    // label(row=0, col=0, dbit=0) and label(row=0, col=5, dbit=0) share rn variable
    let la = (0 * 9 * 9 + 0 * 9 + 0) as usize; // row0, col0, dbit0
    let lb = (0 * 9 * 9 + 5 * 9 + 0) as usize; // row0, col5, dbit0
    assert!(lg.linked[la].test(lb), "row-peer labels must be linked");
    assert!(lg.linked[lb].test(la), "link graph must be symmetric");
}

#[test]
fn n9_same_cell_different_digits_linked() {
    let (_, lg, _) = build_csp_tables_n9();
    // Same cell (row=3, col=4), different digits (dbit=0 and dbit=5)
    let la = 3 * 81 + 4 * 9 + 0;
    let lb = 3 * 81 + 4 * 9 + 5;
    assert!(lg.linked[la].test(lb), "same-cell labels must be linked");
}

#[test]
fn n9_csp_alternatives_count() {
    let (_, _, cg) = build_csp_tables_n9();
    // Check label 0 (row=0, col=0, dbit=0)
    let lab = 0usize;
    for slot in 0..4 {
        assert_eq!(
            cg.alternatives[lab][slot].len(),
            8,
            "slot {} should have 8 alternatives, got {}",
            slot,
            cg.alternatives[lab][slot].len()
        );
    }
}

#[test]
fn links_are_where_a_variable_is_shared() {
    let t = get_csp_tables_9x9();
    for a in 0..N_LABELS_9X9 {
        for b in (0..N_LABELS_9X9).step_by(7) {
            let shared = a != b && (0..4).any(|s| t.0.vars_of[a][s] == t.0.vars_of[b][s]);
            assert_eq!(t.1.is_linked(a as u32, b as u32), shared);
            assert_eq!(t.1.is_linked(b as u32, a as u32), shared);
        }
    }
    let mut far: BitSet<W9> = BitSet::empty();
    far.set(728);
    assert!(!t.1.is_linked_or_bitset(0, &far));
    far.set(1);
    assert!(t.1.is_linked_or_bitset(0, &far));
}

fn make_tables() -> (GLabelTable<W9>, GLinkGraph<W9, WG9>) {
    let (csp, _, _) = build_csp_tables_n9();
    build_glabel_tables_n9(&csp)
}

#[test]
fn n9_glabel_count_is_486() {
    let (t, _) = make_tables();
    assert_eq!(
        t.members_of.len(),
        486,
        "expected 486 glabels for N=9, got {}",
        t.members_of.len()
    );
}

#[test]
fn n9_glabel_member_count() {
    let (t, _) = make_tables();
    for (g, members) in t.members_of.iter().enumerate() {
        assert_eq!(members.len(), 3, "glabel {} has {} members, expected 3", g, members.len());
    }
}

#[test]
fn label_in_glabel_basic() {
    let (t, _) = make_tables();
    let g = 0u32;
    let members = &t.members_of[0];
    for &m in members {
        assert!(label_in_glabel(m, g, &t), "member {} should be in glabel 0", m);
    }
    // A label with a different digit should NOT be in this glabel.
    let non_member = members[0] + 1; // same cell, different digit
    assert!(!label_in_glabel(non_member, g, &t), "non-member should not be in glabel");
}

#[test]
fn glabel_contains_none_of_basic() {
    let (t, _) = make_tables();
    let g = 0u32;
    let member = t.members_of[0][0];
    let non_member = member + 1; // different digit

    // Contains a member → should NOT be "none of" → returns false.
    assert!(!glabel_contains_none_of(g, &[Rlc::Cand(member)], &t));

    // Contains only non-members → returns true.
    assert!(glabel_contains_none_of(g, &[Rlc::Cand(non_member)], &t));
}

#[test]
fn glabel_contains_some_of_basic() {
    let (t, _) = make_tables();
    let g = 0u32;
    let member = t.members_of[0][0];
    let non_member = member + 1;

    assert!(glabel_contains_some_of(g, &[Rlc::Cand(member)], &t));
    assert!(!glabel_contains_some_of(g, &[Rlc::Cand(non_member)], &t));
}

#[test]
fn glabel_contains_some_of_gcand_overlap() {
    let (t, _) = make_tables();
    let g0 = 0u32;
    let g1 = 1u32;

    let members0 = &t.members_of[0];
    let members1 = &t.members_of[1];

    // If they share any member, some_of should be true; if not, false.
    let shared = members0.iter().any(|m| members1.contains(m));
    let result = glabel_contains_some_of(g0, &[Rlc::GCand(g1)], &t);
    assert_eq!(result, shared);
    assert!(glabel_contains_some_of(g0, &[Rlc::GCand(g0)], &t));
}

#[test]
fn segment_kind_correctness() {
    let (t, _) = make_tables();
    // First 27*9 = 243 glabels (for N=9) should be Row (horizontal).
    assert_eq!(t.segment_kind[0], SegKind::Row);
    assert_eq!(t.segment_kind[243], SegKind::Col);
}

#[test]
fn horiz_glabel_csp_vars() {
    let (t, _) = make_tables();
    let [rn, bn] = t.csp_vars_of[0];
    assert_eq!(rn, 81, "rn_var for glabel 0 should be 81");
    assert_eq!(bn, 243, "bn_var for glabel 0 should be 243");
}
