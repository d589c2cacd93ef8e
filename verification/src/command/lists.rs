//! Lists of pairs on a command line.

use crate::lexing;
use crate::lexing::{chars_in, parse_number, position, slice, split, text_of, trim};
use super::naming;
use super::naming::parse_technique_id;
use crate::generic::techniques::TechniqueId;
use vstd::prelude::*;

verus! {

/// The pieces without the white space at their ends, and without those that are empty.
pub open spec fn filled(ps: Seq<Seq<char>>) -> Seq<Seq<char>>
    decreases ps.len(),
{
    if ps.len() == 0 {
        Seq::empty()
    } else {
        let t = lexing::trimmed(ps.last());
        if t.len() == 0 {
            filled(ps.drop_last())
        } else {
            filled(ps.drop_last()).push(t)
        }
    }
}

/// The entries of a list with commas.
pub open spec fn entries_of(s: Seq<char>) -> Seq<Seq<char>> {
    filled(lexing::pieces(s, ','))
}

/// The entries of a list with commas: what stands between them, trimmed, where that is
/// anything.
pub fn list_entries(s: &str) -> (v: Vec<Vec<char>>)
    ensures
        lexing::views(v@) == entries_of(s@),
{
    let p: Vec<Vec<char>> = split(&chars_in(s), ',');
    let ghost q = lexing::pieces(s@, ',');
    assert(lexing::views(p@) == q);
    assert(q.len() == p@.len());
    let mut v: Vec<Vec<char>> = Vec::new();
    let mut i: usize = 0;
    assert(lexing::views(v@) =~= filled(q.take(0)));
    while i < p.len()
        invariant
            i <= p@.len(),
            p@.len() == q.len(),
            lexing::views(p@) == q,
            lexing::views(v@) == filled(q.take(i as int)),
        decreases p@.len() - i,
    {
        let ghost before = lexing::views(v@);
        assert(q.take(i + 1).drop_last() =~= q.take(i as int));
        assert(q.take(i + 1).last() == q[i as int]);
        assert(q[i as int] == p@[i as int]@);
        let t: Vec<char> = trim(&p[i]);
        if t.len() > 0 {
            v.push(t);
            assert(lexing::views(v@) =~= before.push(t@));
        }
        i += 1;
    }
    assert(q.take(i as int) =~= q);
    v
}

/// The part of an entry before the first `c`, trimmed.
pub open spec fn before_mark(e: Seq<char>, c: char) -> Seq<char> {
    lexing::trimmed(e.take(lexing::find_from(e, c, 0)))
}

/// The part of an entry after the first `c`, trimmed.
pub open spec fn after_mark(e: Seq<char>, c: char) -> Seq<char> {
    lexing::trimmed(e.skip(lexing::find_from(e, c, 0) + 1))
}

/// The parts of an entry before and after the first `c`, if it has one.
pub fn halves(e: &Vec<char>, c: char) -> (r: Option<(Vec<char>, Vec<char>)>)
    ensures
        r is Some == (lexing::find_from(e@, c, 0) < e@.len()),
        r matches Some(x) ==> x.0@ == before_mark(e@, c) && x.1@ == after_mark(e@, c),
{
    let k: usize = position(e, c, 0);
    if k >= e.len() {
        return None;
    }
    let a: Vec<char> = slice(e, 0, k);
    let b: Vec<char> = slice(e, k + 1, e.len());
    assert(a@ =~= e@.take(k as int));
    assert(b@ =~= e@.skip(k + 1));
    Some((trim(&a), trim(&b)))
}

/// The entry is a key, `=` and a number.
pub open spec fn is_target(e: Seq<char>) -> bool {
    lexing::find_from(e, '=', 0) < e.len() && lexing::is_number(
        after_mark(e, '='),
        usize::MAX as nat,
    )
}

/// The targets of entries, the later ones before the earlier.
pub open spec fn targets_of(es: Seq<Seq<char>>) -> Map<Seq<char>, nat>
    decreases es.len(),
{
    if es.len() == 0 {
        Map::empty().insert("T1"@, 0nat).insert("T2"@, 0nat).insert("T3"@, 0nat).insert("T4"@, 0nat)
    } else {
        let e = es.last();
        targets_of(es.drop_last()).insert(
            before_mark(e, '='),
            lexing::value_of(lexing::digits_part(after_mark(e, '='))),
        )
    }
}

/// The pairs hold the map: each key once, with its value.
pub open spec fn holds_map(v: Seq<(Vec<char>, usize)>, m: Map<Seq<char>, nat>) -> bool {
    &&& forall|i: int, j: int| 0 <= i < j < v.len() ==> (#[trigger] v[i]).0@ != (#[trigger] v[j]).0@
    &&& forall|i: int|
        0 <= i < v.len() ==> m.dom().contains((#[trigger] v[i]).0@) && m[v[i].0@] == v[i].1
    &&& forall|k: Seq<char>| #[trigger]
        m.dom().contains(k) ==> exists|i: int| 0 <= i < v.len() && (#[trigger] v[i]).0@ == k
}

/// Whether two texts are the same.
fn same_chars(a: &Vec<char>, b: &Vec<char>) -> (r: bool)
    ensures
        r == (a@ == b@),
{
    if a.len() != b.len() {
        return false;
    }
    let mut i: usize = 0;
    while i < a.len()
        invariant
            i <= a@.len(),
            a@.len() == b@.len(),
            forall|j: int| 0 <= j < i ==> a@[j] == b@[j],
        decreases a@.len() - i,
    {
        if a[i] != b[i] {
            assert(a@[i as int] != b@[i as int]);
            return false;
        }
        i += 1;
    }
    assert(a@ =~= b@);
    true
}

/// Gives a key a value.
fn set_target(v: &mut Vec<(Vec<char>, usize)>, key: Vec<char>, n: usize, Ghost(m): Ghost<Map<Seq<char>, nat>>)
    requires
        holds_map(old(v)@, m),
    ensures
        holds_map(final(v)@, m.insert(key@, n as nat)),
{
    let ghost before = v@;
    let ghost after = m.insert(key@, n as nat);
    let ghost k0 = key@;
    let mut i: usize = 0;
    while i < v.len()
        invariant
            i <= v@.len(),
            v@ == before,
            holds_map(before, m),
            after == m.insert(key@, n as nat),
            k0 == key@,
            forall|j: int| 0 <= j < i ==> (#[trigger] v@[j]).0@ != key@,
        decreases v@.len() - i,
    {
        if same_chars(&v[i].0, &key) {
            v.set(i, (key, n));
            proof {
                assert forall|a: int, b: int| 0 <= a < b < v@.len() implies (#[trigger] v@[a]).0@
                    != (#[trigger] v@[b]).0@ by {
                    assert(before[a].0@ != before[b].0@);
                }
                assert forall|a: int| 0 <= a < v@.len() implies after.dom().contains(
                    (#[trigger] v@[a]).0@,
                ) && after[v@[a].0@] == v@[a].1 by {
                    if a != i {
                        assert(v@[a] == before[a]);
                        if a < i {
                            assert(before[a].0@ != before[i as int].0@);
                        } else {
                            assert(before[i as int].0@ != before[a].0@);
                        }
                    }
                }
                assert forall|k: Seq<char>| #[trigger] after.dom().contains(k) implies exists|a: int|
                    0 <= a < v@.len() && (#[trigger] v@[a]).0@ == k by {
                    if k == k0 {
                        assert(v@[i as int].0@ == k);
                    } else {
                        assert(m.dom().contains(k));
                        let a = choose|a: int| 0 <= a < before.len() && (#[trigger] before[a]).0@ == k;
                        assert(v@[a].0@ == k);
                    }
                }
            }
            return ;
        }
        i += 1;
    }
    v.push((key, n));
    proof {
        assert forall|a: int, b: int| 0 <= a < b < v@.len() implies (#[trigger] v@[a]).0@ != (
        #[trigger] v@[b]).0@ by {
            assert(v@[a] == before[a]);
            if b < before.len() {
                assert(before[a].0@ != before[b].0@);
            }
        }
        assert forall|a: int| 0 <= a < v@.len() implies after.dom().contains(
            (#[trigger] v@[a]).0@,
        ) && after[v@[a].0@] == v@[a].1 by {
            if a < before.len() {
                assert(v@[a] == before[a]);
                assert(before[a].0@ != k0);
            }
        }
        assert forall|k: Seq<char>| #[trigger] after.dom().contains(k) implies exists|a: int|
            0 <= a < v@.len() && (#[trigger] v@[a]).0@ == k by {
            if k == k0 {
                assert(v@[before.len() as int].0@ == k);
            } else {
                assert(m.dom().contains(k));
                let a = choose|a: int| 0 <= a < before.len() && (#[trigger] before[a]).0@ == k;
                assert(v@[a] == before[a]);
            }
        }
    }
}

/// The number of puzzles asked for of each tier: `T1=5,T3=2`. A tier that is not named gets
/// none, and a later entry replaces an earlier one.
pub fn parse_target_per_tier(s: &str) -> (v: Vec<(Vec<char>, usize)>)
    requires
        forall|i: int| 0 <= i < entries_of(s@).len() ==> is_target(#[trigger] entries_of(s@)[i]),
    ensures
        holds_map(v@, targets_of(entries_of(s@))),
{
    let es: Vec<Vec<char>> = list_entries(s);
    let ghost q = entries_of(s@);
    assert(lexing::views(es@) == q);
    assert(q.len() == es@.len());
    let mut v: Vec<(Vec<char>, usize)> = Vec::new();
    let ghost m0 = Map::<Seq<char>, nat>::empty();
    assert(holds_map(v@, m0));
    set_target(&mut v, chars_in("T1"), 0, Ghost(m0));
    set_target(&mut v, chars_in("T2"), 0, Ghost(m0.insert("T1"@, 0)));
    set_target(&mut v, chars_in("T3"), 0, Ghost(m0.insert("T1"@, 0).insert("T2"@, 0)));
    set_target(
        &mut v,
        chars_in("T4"),
        0,
        Ghost(m0.insert("T1"@, 0).insert("T2"@, 0).insert("T3"@, 0)),
    );
    let mut i: usize = 0;
    assert(holds_map(v@, targets_of(q.take(0))));
    while i < es.len()
        invariant
            i <= es@.len(),
            es@.len() == q.len(),
            lexing::views(es@) == q,
            forall|j: int| 0 <= j < q.len() ==> is_target(#[trigger] q[j]),
            holds_map(v@, targets_of(q.take(i as int))),
        decreases es@.len() - i,
    {
        assert(q.take(i + 1).drop_last() =~= q.take(i as int));
        assert(q.take(i + 1).last() == q[i as int]);
        assert(q[i as int] == es@[i as int]@);
        assert(is_target(q[i as int]));
        match halves(&es[i], '=') {
            Some((key, number)) => {
                match parse_number(&number, usize::MAX as u64) {
                    Some(n) => {
                        set_target(&mut v, key, n as usize, Ghost(targets_of(q.take(i as int))));
                    },
                    None => {
                        assert(false);
                    },
                }
            },
            None => {
                assert(false);
            },
        }
        i += 1;
    }
    assert(q.take(i as int) =~= q);
    v
}

/// What is wrong with a weight.
#[derive(Debug, Clone, Copy, PartialEq, Eq, Structural)]
pub enum WeightError {
    /// There is no `:`.
    NoMark,
    /// What stands before it names no technique.
    UnknownTechnique,
}

/// `r` is what an entry `technique:weight` says: the technique, and the text of its weight.
pub open spec fn is_weight(e: Seq<char>, r: Result<(TechniqueId, Vec<char>), WeightError>) -> bool {
    if lexing::find_from(e, ':', 0) >= e.len() {
        r == Err::<(TechniqueId, Vec<char>), _>(WeightError::NoMark)
    } else {
        match r {
            Ok(x) => naming::is_found(before_mark(e, ':'), Some(x.0)) && x.1@ == after_mark(e, ':'),
            Err(WeightError::UnknownTechnique) => naming::is_found(before_mark(e, ':'), None),
            Err(WeightError::NoMark) => false,
        }
    }
}

/// The technique of an entry `technique:weight`, and the text of its weight.
pub fn weight_entry(e: &Vec<char>) -> (r: Result<(TechniqueId, Vec<char>), WeightError>)
    ensures
        is_weight(e@, r),
{
    match halves(e, ':') {
        None => Err(WeightError::NoMark),
        Some((name, weight)) => {
            let t: String = text_of(&name);
            match parse_technique_id(t.as_str()) {
                Some(id) => Ok((id, weight)),
                None => Err(WeightError::UnknownTechnique),
            }
        },
    }
}

} // verus!
