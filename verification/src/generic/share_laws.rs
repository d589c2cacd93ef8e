//! How work is shared out among workers, and what becomes of each share.

use super::aic_reverse::AicReverseSpec;
use super::als_xz_reverse::AlsXzReverseSpec;
use super::cfc_reverse;
use super::cfc_reverse::CfcReverseSpec;
use super::chain_rating::{se_of, ChainRating};
use super::dfc_reverse::{
    budget, has_puzzle, is_seed_line, merged, puzzles_differ, quota, seed_at, seed_of, seeds_of,
    ConstructedPuzzle,
};
use super::fish_reverse::FishReverseSpec;
use super::gbraid_reverse::GBraidReverseSpec;
use super::hidden_quad_reverse::HiddenQuadReverseSpec;
use super::reverse_construct::{chunk_of, seed_of_worker, share_of_attempts, SEED_STRIDE};
use super::techniques::Tier;
use crate::lexing;
use vstd::arithmetic::div_mod::{
    lemma_fundamental_div_mod, lemma_fundamental_div_mod_converse, lemma_small_mod,
};
use vstd::prelude::*;

verus! {

/// The workers' shares add up to at least what is allowed, and one attempt less for each would
/// be too little; without a limit a share has none either.
pub proof fn law_shares(max_attempts: u32, threads: int)
    requires
        1 <= threads <= 0xffff_ffff,
    ensures
        max_attempts == 0 ==> share_of_attempts(max_attempts, threads) == u32::MAX,
        max_attempts > 0 ==> share_of_attempts(max_attempts, threads) * threads >= max_attempts
            > (share_of_attempts(max_attempts, threads) - 1) * threads,
        threads == 1 && max_attempts > 0 ==> share_of_attempts(max_attempts, threads)
            == max_attempts,
{
    if max_attempts > 0 {
        let m = max_attempts + threads - 1;
        let q = m / threads;
        lemma_fundamental_div_mod(m, threads);
        assert(q * threads >= max_attempts && (q - 1) * threads < max_attempts && 0 <= q
            <= max_attempts) by (nonlinear_arith)
            requires
                m == threads * q + m % threads,
                0 <= m % threads < threads,
                m == max_attempts + threads - 1,
                threads >= 1,
                max_attempts > 0,
        ;
    }
}

/// A turn takes thirty-two attempts, or what is left of the share if that is less.
pub proof fn law_turns(share: int, used: int)
    requires
        0 <= used,
        0 <= share,
    ensures
        0 <= chunk_of(share, used) <= 32,
        chunk_of(share, used) == 0 <==> used >= share,
        used <= share ==> used + chunk_of(share, used) <= share,
        used + chunk_of(share, used) < share ==> chunk_of(share, used) == 32,
{
}

/// The first worker has the seed itself, and no two have the same.
pub proof fn law_workers_have_their_own_seeds(seed: u64, v: int, w: int)
    requires
        0 <= v < w < 0x1_0000_0000_0000_0000,
    ensures
        seed_of_worker(seed, 0) == seed,
        seed_of_worker(seed, v) != seed_of_worker(seed, w),
{
    let m: int = 0x1_0000_0000_0000_0000;
    if seed_of_worker(seed, v) == seed_of_worker(seed, w) {
        let a = seed + v * SEED_STRIDE;
        let b = seed + w * SEED_STRIDE;
        let d = w - v;
        let q = b / m - a / m;
        lemma_fundamental_div_mod(a, m);
        lemma_fundamental_div_mod(b, m);
        assert(d * SEED_STRIDE == m * q) by (nonlinear_arith)
            requires
                a == m * (a / m) + a % m,
                b == m * (b / m) + b % m,
                a % m == b % m,
                q == b / m - a / m,
                a == seed + v * SEED_STRIDE,
                b == seed + w * SEED_STRIDE,
                d == w - v,
        ;
        let inverse: int = 17428512612931826493;
        let k: int = 10771413168148108919;
        assert(SEED_STRIDE * inverse == 1 + k * m);
        assert(d == m * (q * inverse - d * k)) by (nonlinear_arith)
            requires
                d * SEED_STRIDE == m * q,
                SEED_STRIDE * inverse == 1 + k * m,
        ;
        let x = q * inverse - d * k;
        assert(false) by (nonlinear_arith)
            requires
                d == m * x,
                0 < d < m,
        ;
    }
}

/// Each worker is to find so many puzzles that together they find enough, and with one less each
/// they would not.
pub proof fn law_quotas(num_puzzles: int, n: int)
    requires
        num_puzzles >= 0,
        n >= 1,
    ensures
        quota(num_puzzles, n) >= 1,
        quota(num_puzzles, n) * n >= num_puzzles,
        num_puzzles > 0 ==> (quota(num_puzzles, n) - 1) * n < num_puzzles,
{
    if num_puzzles > 0 {
        let m = num_puzzles - 1;
        let q = m / n;
        lemma_fundamental_div_mod(m, n);
        assert(q >= 0 && (q + 1) * n >= num_puzzles && q * n < num_puzzles) by (nonlinear_arith)
            requires
                m == n * q + m % n,
                0 <= m % n < n,
                m == num_puzzles - 1,
                n >= 1,
                m >= 0,
        ;
    } else {
        assert(quota(0, n) == 1);
        assert(1 * n >= 0);
    }
}

/// What is tried for a seed is halved between puzzles one cell off and puzzles two off, the odd
/// one going to the first; at least four and two are tried.
pub proof fn law_budgets(attempts: u32)
    ensures
        budget(attempts).0 >= 4,
        budget(attempts).1 >= 2,
        attempts >= 7 ==> budget(attempts).0 + budget(attempts).1 == attempts && 0 <= budget(
            attempts,
        ).0 - budget(attempts).1 <= 1,
        attempts < 7 ==> budget(attempts).0 == 4,
        4 <= attempts < 7 ==> budget(attempts).1 == attempts as int / 2,
        attempts < 4 ==> budget(attempts).1 == 2,
{
}

/// A worker takes every `n`-th seed from its own number on, in turn, and then begins again: the
/// `t`-th seed it takes is the `t`-th of its own, counted round.
pub proof fn law_seeds_in_turn(len: int, w: int, n: int, t: nat)
    requires
        0 <= w < len,
        n >= 1,
    ensures
        seed_at(len, w, n, t) == w + n * (t as int % ((len - 1 - w) / n + 1)),
        w <= seed_at(len, w, n, t) < len,
    decreases t,
{
    let d = len - 1 - w;
    let m = d / n + 1;
    lemma_fundamental_div_mod(d, n);
    assert(m >= 1 && n * (m - 1) <= d < n * m) by (nonlinear_arith)
        requires
            d == n * (d / n) + d % n,
            0 <= d % n < n,
            m == d / n + 1,
            d >= 0,
            n >= 1,
    ;
    if t == 0 {
        lemma_small_mod(0, m as nat);
        assert(n * 0 == 0);
    } else {
        let b = t - 1;
        law_seeds_in_turn(len, w, n, b as nat);
        lemma_fundamental_div_mod(b, m);
        let q = b / m;
        let r = b % m;
        assert(0 <= r < m);
        assert(n * (r + 1) == n * r + n) by (nonlinear_arith);
        if r + 1 < m {
            assert(n * (r + 1) <= n * (m - 1)) by (nonlinear_arith)
                requires
                    r + 1 <= m - 1,
                    n >= 1,
            ;
            assert(t as int == q * m + (r + 1)) by (nonlinear_arith)
                requires
                    b == m * q + r,
                    t == b + 1,
            ;
            lemma_fundamental_div_mod_converse(t as int, m, q, r + 1);
        } else {
            assert(r + 1 == m);
            assert(t as int == (q + 1) * m + 0) by (nonlinear_arith)
                requires
                    b == m * q + r,
                    t == b + 1,
                    r + 1 == m,
            ;
            lemma_fundamental_div_mod_converse(t as int, m, q + 1, 0);
            assert(n * 0 == 0);
        }
    }
}

/// Every seed has its turn with the worker whose number it leaves.
pub proof fn law_every_seed_has_its_turn(len: int, n: int, i: int) -> (t: nat)
    requires
        0 <= i < len,
        n >= 1,
    ensures
        seed_at(len, i % n, n, t) == i,
        t < len,
{
    let w = i % n;
    let t = i / n;
    lemma_fundamental_div_mod(i, n);
    assert(0 <= t <= i && 0 <= w <= i) by (nonlinear_arith)
        requires
            i == n * t + w,
            0 <= w < n,
            t == i / n,
            i >= 0,
            n >= 1,
    ;
    law_seeds_in_turn(len, w, n, t as nat);
    let d = len - 1 - w;
    lemma_fundamental_div_mod(d, n);
    let q = d / n;
    assert(t <= q) by (nonlinear_arith)
        requires
            d == n * q + d % n,
            d % n < n,
            n * t <= d,
            n >= 1,
    ;
    lemma_small_mod(t as nat, (q + 1) as nat);
    t as nat
}

/// Every line that reads as a puzzle gives one seed, and the others none: the seeds of two lists
/// one after the other are those of the first and then those of the second.
pub proof fn law_seeds_line_by_line(a: Seq<Seq<char>>, b: Seq<Seq<char>>)
    ensures
        seeds_of(a + b) == seeds_of(a) + seeds_of(b),
        forall|l: Seq<char>| #[trigger]
            is_seed_line(l) ==> seeds_of(seq![l]) == seq![seed_of(l)],
        forall|l: Seq<char>| !(#[trigger] is_seed_line(l)) ==> seeds_of(seq![l]) == Seq::<
            Seq<u8>,
        >::empty(),
    decreases b.len(),
{
    if b.len() == 0 {
        assert(a + b =~= a);
        assert(seeds_of(a) + seeds_of(b) =~= seeds_of(a));
    } else {
        law_seeds_line_by_line(a, b.drop_last());
        assert((a + b).drop_last() =~= a + b.drop_last());
        assert((a + b).last() == b.last());
        assert(seeds_of(a + b) =~= seeds_of(a) + seeds_of(b));
    }
    assert forall|l: Seq<char>| #[trigger] is_seed_line(l) implies seeds_of(seq![l]) == seq![
        seed_of(l),
    ] by {
        assert(seq![l].drop_last() =~= Seq::<Seq<char>>::empty());
        assert(seeds_of(seq![l].drop_last()) =~= Seq::<Seq<u8>>::empty());
        assert(seeds_of(seq![l]) =~= seq![seed_of(l)]);
    }
    assert forall|l: Seq<char>| !(#[trigger] is_seed_line(l)) implies seeds_of(seq![l]) == Seq::<
        Seq<u8>,
    >::empty() by {
        assert(seq![l].drop_last() =~= Seq::<Seq<char>>::empty());
        assert(seeds_of(seq![l].drop_last()) =~= Seq::<Seq<u8>>::empty());
        assert(seeds_of(seq![l]) =~= Seq::<Seq<u8>>::empty());
    }
}

/// A seed has the digits of its line where they stand, and a dot for each dot and each nought.
pub proof fn law_seed_shows_its_line(line: Seq<char>, i: int)
    requires
        is_seed_line(line),
        0 <= i < 81,
    ensures
        seed_of(line).len() == 81,
        lexing::trimmed(line)[i] == '.' || lexing::trimmed(line)[i] == '0' <==> seed_of(line)[i]
            == 0x2e,
        seed_of(line)[i] != 0x2e ==> seed_of(line)[i] as int == lexing::trimmed(line)[i] as int
            && 0x31 <= seed_of(line)[i] <= 0x39,
{
    let c = lexing::trimmed(line)[i];
    assert(c == '.' || ('0' <= c && c <= '9'));
    assert('.' as u8 == 0x2e);
}

/// What the workers found is put together in their order: what is there stays, nothing comes
/// twice, and nothing new is left out while there is room.
pub proof fn law_put_together(
    out: Seq<ConstructedPuzzle>,
    local: Seq<ConstructedPuzzle>,
    num: int,
    i: int,
)
    requires
        0 <= i < local.len(),
        puzzles_differ(out),
    ensures
        out.len() <= merged(out, local, num).len(),
        merged(out, local, num).take(out.len() as int) == out,
        puzzles_differ(merged(out, local, num)),
        merged(out, local, num).len() <= num || merged(out, local, num) == out,
        merged(out, local, num).len() < num ==> has_puzzle(
            merged(out, local, num),
            local[i].puzzle@,
        ),
    decreases local.len(),
{
    lemma_put_together(out, local, num);
    lemma_none_left_out(out, local, num, i);
}

proof fn lemma_put_together(
    out: Seq<ConstructedPuzzle>,
    local: Seq<ConstructedPuzzle>,
    num: int,
)
    requires
        puzzles_differ(out),
    ensures
        out.len() <= merged(out, local, num).len(),
        merged(out, local, num).take(out.len() as int) == out,
        puzzles_differ(merged(out, local, num)),
        merged(out, local, num).len() <= num || merged(out, local, num) == out,
    decreases local.len(),
{
    if local.len() == 0 {
        assert(out.take(out.len() as int) =~= out);
    } else {
        lemma_put_together(out, local.drop_last(), num);
        let m = merged(out, local.drop_last(), num);
        let x = local.last();
        let p = m.push(x);
        assert(p.take(out.len() as int) =~= m.take(out.len() as int));
        if m.len() < num && !has_puzzle(m, x.puzzle@) {
            assert forall|a: int, b: int| 0 <= a < b < p.len() implies (#[trigger] p[a]).puzzle@
                != (#[trigger] p[b]).puzzle@ by {
                assert(p[a] == m[a]);
                if b < m.len() {
                    assert(p[b] == m[b]);
                }
            }
        }
    }
}

proof fn lemma_none_left_out(
    out: Seq<ConstructedPuzzle>,
    local: Seq<ConstructedPuzzle>,
    num: int,
    i: int,
)
    requires
        0 <= i < local.len(),
    ensures
        merged(out, local, num).len() < num ==> has_puzzle(
            merged(out, local, num),
            local[i].puzzle@,
        ),
    decreases local.len(),
{
    let m = merged(out, local.drop_last(), num);
    let r = merged(out, local, num);
    if r.len() < num {
        if i == local.len() - 1 {
            if !has_puzzle(m, local[i].puzzle@) {
                assert(r[m.len() as int] == local[i]);
            }
        } else {
            lemma_none_left_out(out, local.drop_last(), num, i);
            let j = choose|j: int| 0 <= j < m.len() && (#[trigger] m[j]).puzzle@ == local[i].puzzle@;
            assert(r[j] == m[j]);
        }
    }
}

/// A whip of length one rates 6600, a g-whip 6800, a braid 8000 and a g-braid 8500. Each step more
/// adds 200 to the first two and 300 to the others.
pub proof fn law_scores_by_length(k: u8)
    requires
        1 <= k < 255,
    ensures
        se_of(ChainRating::W(1)) == 6600,
        se_of(ChainRating::GW(1)) == 6800,
        se_of(ChainRating::B(1)) == 8000,
        se_of(ChainRating::GB(1)) == 8500,
        se_of(ChainRating::W((k + 1) as u8)) == se_of(ChainRating::W(k)) + 200,
        se_of(ChainRating::GW((k + 1) as u8)) == se_of(ChainRating::GW(k)) + 200,
        se_of(ChainRating::B((k + 1) as u8)) == se_of(ChainRating::B(k)) + 300,
        se_of(ChainRating::GB((k + 1) as u8)) == se_of(ChainRating::GB(k)) + 300,
{
}

/// With no number of trials given, every cell of a seed is tried once.
pub proof fn law_trials(attempts: u32, cells: int)
    ensures
        attempts == 0 ==> cfc_reverse::trials_per_seed(attempts, cells) == cells,
        attempts > 0 ==> cfc_reverse::trials_per_seed(attempts, cells) == attempts,
{
}

/// No search can be made whose fewest clues are more than its most.
pub proof fn law_clue_bounds(
    aic: AicReverseSpec,
    als: AlsXzReverseSpec,
    fish: FishReverseSpec,
    quad: HiddenQuadReverseSpec,
    cfc: CfcReverseSpec,
    gbraid: GBraidReverseSpec,
)
    ensures
        aic.clue_min > aic.clue_max ==> !aic.is_valid(),
        als.clue_min > als.clue_max ==> !als.is_valid(),
        fish.clue_min > fish.clue_max ==> !fish.is_valid(),
        quad.clue_min > quad.clue_max ==> !quad.is_valid(),
        cfc.clue_min > cfc.clue_max ==> !cfc.is_valid(),
        gbraid.clue_min > gbraid.clue_max ==> !gbraid.is_valid(),
{
}

/// Where the clue bounds allow it a search can be made just for: chains of one step or more in
/// the tiers that have them; sets of one to four cells and fish of two to four lines, both in the
/// third tier; quads in any tier but the first; cell chains of two branches or more and a score
/// that is not negative; g-braids of three to thirty-six steps in puzzles of at most 81 clues.
pub proof fn law_searches_that_can_be_made(
    aic: AicReverseSpec,
    als: AlsXzReverseSpec,
    fish: FishReverseSpec,
    quad: HiddenQuadReverseSpec,
    cfc: CfcReverseSpec,
    gbraid: GBraidReverseSpec,
)
    ensures
        aic.clue_min <= aic.clue_max ==> (aic.is_valid() <==> aic.target_chain_length != 0 && (
        aic.target_tier == Tier::T3 || aic.target_tier == Tier::T4Plus)),
        als.clue_min <= als.clue_max ==> (als.is_valid() <==> als.target_tier == Tier::T3
            && als.als_size_min != 0 && als.als_size_min <= als.als_size_max && als.als_size_max
            <= 4),
        fish.clue_min <= fish.clue_max ==> (fish.is_valid() <==> fish.target_tier == Tier::T3 && (
        fish.target_size == 2 || fish.target_size == 3 || fish.target_size == 4)),
        quad.clue_min <= quad.clue_max ==> (quad.is_valid() <==> quad.target_tier != Tier::T1),
        cfc.clue_min <= cfc.clue_max ==> (cfc.is_valid() <==> cfc.target_se >= 0
            && cfc.target_k_min >= 2),
        gbraid.clue_min <= gbraid.clue_max ==> (gbraid.is_valid() <==> gbraid.clue_max <= 81
            && gbraid.target_k >= 3 && gbraid.target_k <= 36),
{
}

} // verus!
