//! Renaming the digits of a tridagon.

use super::minimal;
use super::minimal::has_one_solution;
use crate::generic::mutation::same_bytes;
use crate::generic::rng;
use rand_xoshiro::Xoshiro256PlusPlus;
use vstd::prelude::*;

verus! {

/// Finds the tridagons of a solution and renames their digits.
pub trait Tridagons {
    /// The number of tridagons of a solution.
    fn count(&mut self, solution: &Vec<u8>) -> usize;

    /// The three digits of a tridagon.
    fn triplet(&mut self, solution: &Vec<u8>, which: usize) -> [u8; 3];

    /// The puzzle and its solution with the digits of a tridagon exchanged for those of
    /// `fresh`, matched up by `order`.
    fn replace(
        &mut self,
        puzzle: &Vec<u8>,
        solution: &Vec<u8>,
        which: usize,
        fresh: [u8; 3],
        order: [usize; 3],
    ) -> Option<(Vec<u8>, Vec<u8>)>;
}

/// `n` is a number of tridagons that can be found in a solution.
pub open spec fn may_count<T: Tridagons>(solution: Vec<u8>, n: usize) -> bool {
    exists|m: &mut T| #[trigger] call_ensures(T::count, (m, &solution), n)
}

/// `t` are digits that a tridagon of a solution can be said to have.
pub open spec fn may_name<T: Tridagons>(solution: Vec<u8>, which: usize, t: [u8; 3]) -> bool {
    exists|m: &mut T| #[trigger] call_ensures(T::triplet, (m, &solution, which), t)
}

/// `x` is what a puzzle and its solution can become when a tridagon gets the digits `fresh`.
pub open spec fn may_replace<T: Tridagons>(
    puzzle: Vec<u8>,
    solution: Vec<u8>,
    which: usize,
    fresh: [u8; 3],
    order: [usize; 3],
    x: Option<(Vec<u8>, Vec<u8>)>,
) -> bool {
    exists|m: &mut T| #[trigger]
        call_ensures(T::replace, (m, &puzzle, &solution, which, fresh, order), x)
}

/// Three different digits, none of them in `t`.
pub open spec fn is_fresh(t: [u8; 3], f: [u8; 3]) -> bool {
    &&& forall|i: int| 0 <= i < 3 ==> 1 <= #[trigger] f@[i] <= 9
    &&& f@.no_duplicates()
    &&& forall|i: int, j: int| 0 <= i < 3 && 0 <= j < 3 ==> #[trigger] f@[i] != #[trigger] t@[j]
}

/// The digits up to `d` that are not in `t`, in ascending order.
pub open spec fn others_upto(t: Seq<u8>, d: int) -> Seq<u8>
    decreases d,
{
    if d <= 0 {
        Seq::empty()
    } else if d != t[0] && d != t[1] && d != t[2] {
        others_upto(t, d - 1).push(d as u8)
    } else {
        others_upto(t, d - 1)
    }
}

/// Three different digits at random, none of them in `t`: the first of a shuffle.
pub fn fresh_triplet(t: [u8; 3], rng: &mut Xoshiro256PlusPlus) -> (f: [u8; 3])
    ensures
        is_fresh(t, f),
        ({
            let pool = others_upto(t@, 9);
            let shuffled = rng::shuffle_of(pool.len(), rng::state(*old(rng)));
            &&& f@ == rng::picked(pool, shuffled.0).take(3)
            &&& rng::state(*final(rng)) == shuffled.1
        }),
{
    let mut pool: Vec<u8> = Vec::new();
    let mut d: u8 = 1;
    while d <= 9
        invariant
            1 <= d <= 10,
            pool@ == others_upto(t@, d - 1),
            forall|k: int|
                0 <= k < pool@.len() ==> 1 <= #[trigger] pool@[k] < d && pool@[k] != t@[0]
                    && pool@[k] != t@[1] && pool@[k] != t@[2],
            forall|k: int, l: int| 0 <= k < l < pool@.len() ==> pool@[k] < pool@[l],
            pool@.len() >= d - 1 - (if 1 <= t@[0] < d {
                1int
            } else {
                0int
            }) - (if 1 <= t@[1] < d {
                1int
            } else {
                0int
            }) - (if 1 <= t@[2] < d {
                1int
            } else {
                0int
            }),
        decreases 10 - d,
    {
        if d != t[0] && d != t[1] && d != t[2] {
            pool.push(d);
        }
        d += 1;
    }
    let ghost before = pool@;
    assert(before.no_duplicates());
    rng::shuffle(&mut pool, rng);
    proof {
        rng::lemma_shuffled(before, pool@);
        assert forall|k: int| 0 <= k < pool@.len() implies 1 <= #[trigger] pool@[k] <= 9 && pool@[k]
            != t@[0] && pool@[k] != t@[1] && pool@[k] != t@[2] by {
            assert(pool@.contains(pool@[k]));
            assert(before.contains(pool@[k]));
            let j = choose|j: int| 0 <= j < before.len() && before[j] == pool@[k];
            assert(1 <= before[j] < 10);
        }
    }
    let f: [u8; 3] = [pool[0], pool[1], pool[2]];
    assert(f@[0] == pool@[0] && f@[1] == pool@[1] && f@[2] == pool@[2]);
    assert(f@ =~= pool@.take(3));
    assert(pool@[0] != pool@[1] && pool@[0] != pool@[2] && pool@[1] != pool@[2]);
    f
}

/// The numbers from 0 to 2 in some order.
pub fn random_match(rng: &mut Xoshiro256PlusPlus) -> (m: [usize; 3])
    ensures
        forall|i: int| 0 <= i < 3 ==> (#[trigger] m@[i]) < 3,
        m@.no_duplicates(),
        ({
            let shuffled = rng::shuffle_of(3, rng::state(*old(rng)));
            &&& m@ == rng::picked(seq![0usize, 1usize, 2usize], shuffled.0)
            &&& rng::state(*final(rng)) == shuffled.1
        }),
{
    let mut v: Vec<usize> = Vec::new();
    v.push(0);
    v.push(1);
    v.push(2);
    let ghost before = v@;
    assert(before.no_duplicates());
    assert(before =~= seq![0usize, 1usize, 2usize]);
    rng::shuffle(&mut v, rng);
    proof {
        rng::lemma_shuffled(before, v@);
        assert forall|k: int| 0 <= k < v@.len() implies (#[trigger] v@[k]) < 3 by {
            assert(v@.contains(v@[k]));
            assert(before.contains(v@[k]));
        }
    }
    let m: [usize; 3] = [v[0], v[1], v[2]];
    assert(m@[0] == v@[0] && m@[1] == v@[1] && m@[2] == v@[2]);
    assert(m@ =~= v@);
    assert(v@[0] != v@[1] && v@[0] != v@[2] && v@[1] != v@[2]);
    m
}

/// Whether a renamed puzzle is worth going on with: it is another one and has one solution.
pub fn accepts_replacement(puzzle: &Vec<u8>, renamed: &Vec<u8>) -> (r: bool)
    ensures
        r == (renamed@ != puzzle@ && minimal::is_unique(renamed@)),
{
    !same_bytes(renamed, puzzle) && has_one_solution(renamed)
}

/// What comes of a renamed puzzle: itself, if it is worth going on with.
pub open spec fn worth_keeping(
    puzzle: Seq<u8>,
    x: Option<(Vec<u8>, Vec<u8>)>,
) -> Option<(Vec<u8>, Vec<u8>)> {
    match x {
        Some(y) => if y.0@ != puzzle && minimal::is_unique(y.0@) {
            x
        } else {
            None
        },
        None => None,
    }
}

/// The digits of tridagon `which` are said to be `t`; a generator with the words `words` draws
/// three others and how they are matched up, and the puzzle that is renamed so can lead to `r`,
/// with the words `after`.
pub open spec fn renames<T: Tridagons>(
    puzzle: Vec<u8>,
    solution: Vec<u8>,
    which: usize,
    t: [u8; 3],
    words: Seq<u64>,
    r: Option<(Vec<u8>, Vec<u8>)>,
    after: Seq<u64>,
) -> bool {
    let pool = others_upto(t@, 9);
    let shuffled = rng::shuffle_of(pool.len(), words);
    let matched = rng::shuffle_of(3, shuffled.1);
    &&& after == matched.1
    &&& exists|fresh: [u8; 3], order: [usize; 3], x: Option<(Vec<u8>, Vec<u8>)>|
        fresh@ == rng::picked(pool, shuffled.0).take(3) && order@ == rng::picked(
            seq![0usize, 1usize, 2usize],
            matched.0,
        ) && #[trigger] may_replace::<T>(puzzle, solution, which, fresh, order, x) && r
            == worth_keeping(puzzle@, x)
}

/// With `n` tridagons found in the solution a generator with the words `words` can lead to `r`,
/// and hold the words `after`: without tridagons to nothing; else one of them is drawn and
/// renamed.
pub open spec fn tridagons_lead_to<T: Tridagons>(
    puzzle: Vec<u8>,
    solution: Vec<u8>,
    n: usize,
    words: Seq<u64>,
    r: Option<(Vec<u8>, Vec<u8>)>,
    after: Seq<u64>,
) -> bool {
    if n == 0 {
        r is None && after == words
    } else {
        let drawn = rng::below_of(n as nat, usize::BITS as nat, words);
        exists|t: [u8; 3]| #[trigger]
            may_name::<T>(solution, drawn.0 as usize, t) && renames::<T>(
                puzzle,
                solution,
                drawn.0 as usize,
                t,
                drawn.1,
                r,
                after,
            )
    }
}

/// A generator with the words `words` can lead to `r`, and hold the words `after`, for some
/// number of tridagons that can be found in the solution.
pub open spec fn may_mutate<T: Tridagons>(
    puzzle: Vec<u8>,
    solution: Vec<u8>,
    words: Seq<u64>,
    r: Option<(Vec<u8>, Vec<u8>)>,
    after: Seq<u64>,
) -> bool {
    exists|n: usize| #[trigger]
        may_count::<T>(solution, n) && tridagons_lead_to::<T>(
            puzzle,
            solution,
            n,
            words,
            r,
            after,
        )
}

/// Exchanges the digits of a random tridagon for three others. There is no result where the
/// solution has none, and none where the renamed puzzle is not worth going on with.
pub fn bxb_mutate_once_v4<T: Tridagons>(
    puzzle: &Vec<u8>,
    solution: &Vec<u8>,
    tools: &mut T,
    rng: &mut Xoshiro256PlusPlus,
) -> (r: Option<(Vec<u8>, Vec<u8>)>)
    ensures
        r matches Some(x) ==> x.0@ != puzzle@ && minimal::is_unique(x.0@),
        may_mutate::<T>(
            *puzzle,
            *solution,
            rng::state(*old(rng)),
            r,
            rng::state(*final(rng)),
        ),
{
    let ghost start = rng::state(*rng);
    let found: usize = tools.count(solution);
    assert(may_count::<T>(*solution, found));
    if found == 0 {
        return None;
    }
    let which: usize = rng::below(found, rng);
    let ghost words = rng::state(*rng);
    let old: [u8; 3] = tools.triplet(solution, which);
    assert(may_name::<T>(*solution, which, old));
    let fresh: [u8; 3] = fresh_triplet(old, rng);
    let order: [usize; 3] = random_match(rng);
    let renamed = tools.replace(puzzle, solution, which, fresh, order);
    proof {
        assert(may_replace::<T>(*puzzle, *solution, which, fresh, order, renamed));
        assert(renames::<T>(
            *puzzle,
            *solution,
            which,
            old,
            words,
            worth_keeping(puzzle@, renamed),
            rng::state(*rng),
        ));
        let drawn = rng::below_of(found as nat, usize::BITS as nat, start);
        assert(drawn.0 as usize == which && drawn.1 == words);
        assert(tridagons_lead_to::<T>(
            *puzzle,
            *solution,
            found,
            start,
            worth_keeping(puzzle@, renamed),
            rng::state(*rng),
        ));
    }
    match renamed {
        Some(x) => if accepts_replacement(puzzle, &x.0) {
            Some(x)
        } else {
            None
        },
        None => None,
    }
}

} // verus!
