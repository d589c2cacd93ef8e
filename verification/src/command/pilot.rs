//! The account of a run that builds puzzles from unavoidable sets.

use super::statistics::rating_key;
use vstd::prelude::*;

verus! {

/// The number of attempts that run before their rows are written.
pub const PILOT_CHUNK: usize = 32;

/// What an attempt led to.
#[derive(Debug, Clone, Copy, PartialEq, Eq, Structural)]
pub struct Attempt {
    pub n_uas: usize,
    /// The number of clues once the puzzle was repaired, and before.
    pub clue_count: u8,
    pub clue_count_pre_repair: u8,
    pub is_unique_pre_repair: bool,
    pub is_unique: bool,
    pub bxb_rating: i16,
    /// Milliseconds for each stage.
    pub ms_grid: u64,
    pub ms_ua_enum: u64,
    pub ms_min_cover: u64,
    pub ms_uniqueness: u64,
    pub ms_rate: u64,
}

/// The seed of an attempt.
pub open spec fn seed_of(base: int, i: int) -> int {
    (base + i * 1_000_003) % 0x1_0000_0000_0000_0000
}

/// The seed of an attempt: the base and a stride for each attempt, wrapped around.
pub fn attempt_seed(base: u64, i: u64) -> (r: u64)
    ensures
        r == seed_of(base as int, i as int),
{
    let step: u128 = i as u128 * 1_000_003;
    let all: u128 = base as u128 + step;
    (all % 0x1_0000_0000_0000_0000) as u64
}

/// The attempt hit the target: it has one solution and rates at the target or above.
pub open spec fn hits(a: Attempt, target: i16) -> bool {
    a.bxb_rating >= target && a.is_unique
}

/// Whether an attempt hit the target.
pub fn is_hit(a: &Attempt, target: i16) -> (r: bool)
    ensures
        r == hits(*a, target),
{
    a.bxb_rating >= target && a.is_unique
}

/// The milliseconds of an attempt.
pub open spec fn total_ms_of(a: Attempt) -> int {
    a.ms_grid + a.ms_ua_enum + a.ms_min_cover + a.ms_uniqueness + a.ms_rate
}

/// The milliseconds of an attempt.
pub fn total_ms(a: &Attempt) -> (r: u64)
    requires
        total_ms_of(*a) <= u64::MAX,
    ensures
        r == total_ms_of(*a),
{
    a.ms_grid + a.ms_ua_enum + a.ms_min_cover + a.ms_uniqueness + a.ms_rate
}

/// What the attempts so far led to.
pub struct Totals {
    pub attempts: usize,
    pub valid: usize,
    pub pre_repair_unique: usize,
    pub hits: usize,
    /// The ratings as keys.
    pub ratings: Vec<u64>,
    pub clues: Vec<u64>,
    pub clues_pre_repair: Vec<u64>,
    pub ms_total: Vec<u64>,
    pub ms_grid: Vec<u64>,
    pub ms_ua_enum: Vec<u64>,
    pub ms_min_cover: Vec<u64>,
    pub ms_uniqueness: Vec<u64>,
    pub ms_rate: Vec<u64>,
}

/// 1 if it holds, else 0.
pub open spec fn one_if(b: bool) -> int {
    if b {
        1
    } else {
        0
    }
}

impl Totals {
    /// No count is above the number of attempts, and there is a measurement for each.
    pub open spec fn wf(&self) -> bool {
        &&& self.valid <= self.attempts
        &&& self.pre_repair_unique <= self.attempts
        &&& self.hits <= self.valid
        &&& self.ratings@.len() == self.attempts
        &&& self.clues@.len() == self.attempts
        &&& self.clues_pre_repair@.len() == self.attempts
        &&& self.ms_total@.len() == self.attempts
        &&& self.ms_grid@.len() == self.attempts
        &&& self.ms_ua_enum@.len() == self.attempts
        &&& self.ms_min_cover@.len() == self.attempts
        &&& self.ms_uniqueness@.len() == self.attempts
        &&& self.ms_rate@.len() == self.attempts
        &&& forall|i: int| 0 <= i < self.ratings@.len() ==> (#[trigger] self.ratings@[i]) < 0x10000
    }

    /// Before the first attempt.
    pub fn new() -> (r: Self)
        ensures
            r.wf(),
            r.attempts == 0,
    {
        Totals {
            attempts: 0,
            valid: 0,
            pre_repair_unique: 0,
            hits: 0,
            ratings: Vec::new(),
            clues: Vec::new(),
            clues_pre_repair: Vec::new(),
            ms_total: Vec::new(),
            ms_grid: Vec::new(),
            ms_ua_enum: Vec::new(),
            ms_min_cover: Vec::new(),
            ms_uniqueness: Vec::new(),
            ms_rate: Vec::new(),
        }
    }

    /// Takes an attempt into account.
    pub fn count(&mut self, a: &Attempt, target: i16)
        requires
            old(self).wf(),
            old(self).attempts < usize::MAX,
            total_ms_of(*a) <= u64::MAX,
        ensures
            final(self).wf(),
            final(self).attempts == old(self).attempts + 1,
            final(self).valid == old(self).valid + one_if(a.is_unique),
            final(self).pre_repair_unique == old(self).pre_repair_unique + one_if(
                a.is_unique_pre_repair,
            ),
            final(self).hits == old(self).hits + one_if(hits(*a, target)),
            final(self).ratings@.drop_last() == old(self).ratings@,
            super::statistics::from_key(final(self).ratings@.last()) == a.bxb_rating,
            final(self).clues@ == old(self).clues@.push(a.clue_count as u64),
            final(self).clues_pre_repair@ == old(self).clues_pre_repair@.push(
                a.clue_count_pre_repair as u64,
            ),
            final(self).ms_total@ == old(self).ms_total@.push(total_ms_of(*a) as u64),
            final(self).ms_grid@ == old(self).ms_grid@.push(a.ms_grid),
            final(self).ms_ua_enum@ == old(self).ms_ua_enum@.push(a.ms_ua_enum),
            final(self).ms_min_cover@ == old(self).ms_min_cover@.push(a.ms_min_cover),
            final(self).ms_uniqueness@ == old(self).ms_uniqueness@.push(a.ms_uniqueness),
            final(self).ms_rate@ == old(self).ms_rate@.push(a.ms_rate),
    {
        self.attempts += 1;
        if a.is_unique {
            self.valid += 1;
        }
        if a.is_unique_pre_repair {
            self.pre_repair_unique += 1;
        }
        if is_hit(a, target) {
            self.hits += 1;
        }
        let ghost was = self.ratings@;
        self.ratings.push(rating_key(a.bxb_rating));
        assert(self.ratings@.drop_last() =~= was);
        self.clues.push(a.clue_count as u64);
        self.clues_pre_repair.push(a.clue_count_pre_repair as u64);
        self.ms_total.push(total_ms(a));
        self.ms_grid.push(a.ms_grid);
        self.ms_ua_enum.push(a.ms_ua_enum);
        self.ms_min_cover.push(a.ms_min_cover);
        self.ms_uniqueness.push(a.ms_uniqueness);
        self.ms_rate.push(a.ms_rate);
    }
}

} // verus!
