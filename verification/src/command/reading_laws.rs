//! What is read from lines and settings, and what is counted and written.

use super::lists::{after_mark, before_mark, targets_of};
use super::modes::{band_percent, numbers_in, share, total_attempts};
use super::rate_batch::{error_count, Row};
use super::seed_lines::{
    capped, head_of, holds_solution, is_passed_over, puzzle_in, read_from, seed_in, solution_in,
    with_points,
};
use crate::generic::techniques;
use crate::generic::techniques::Tier;
use crate::lexing;
use crate::vicinity::manifest::{hex_digit, json_char, json_inner, json_string};
use vstd::prelude::*;

verus! {

/// What is read from two lists of lines one after the other is what is read from the first and
/// then what is read from the second, and each line gives what can be read from it, if anything.
pub proof fn law_read_line_by_line<T>(
    a: Seq<Seq<char>>,
    b: Seq<Seq<char>>,
    l: Seq<char>,
    read: spec_fn(Seq<char>) -> Option<T>,
)
    ensures
        read_from(a + b, read) == read_from(a, read) + read_from(b, read),
        read(l) matches Some(x) ==> read_from(seq![l], read) == seq![x],
        read(l) is None ==> read_from(seq![l], read) == Seq::<T>::empty(),
    decreases b.len(),
{
    if b.len() == 0 {
        assert(a + b =~= a);
        assert(read_from(a, read) + read_from(b, read) =~= read_from(a, read));
    } else {
        law_read_line_by_line(a, b.drop_last(), l, read);
        assert((a + b).drop_last() =~= a + b.drop_last());
        assert(read_from(a + b, read) =~= read_from(a, read) + read_from(b, read));
    }
    assert(seq![l].drop_last() =~= Seq::<Seq<char>>::empty());
    assert(read_from(seq![l].drop_last(), read) =~= Seq::<T>::empty());
    assert(seq![l].last() == l);
    if let Some(x) = read(l) {
        assert(read_from(seq![l], read) =~= seq![x]);
    }
}

/// A limit keeps the first of a list and none beyond, and no limit keeps all.
pub proof fn law_limits<T>(s: Seq<T>, max: usize)
    ensures
        max == 0 || s.len() <= max ==> capped(s, max) == s,
        max > 0 && s.len() >= max ==> capped(s, max).len() == max,
        forall|i: int| 0 <= i < capped(s, max).len() ==> #[trigger] capped(s, max)[i] == s[i],
{
}

/// No puzzle is read from an empty line or one that starts with a mark.
pub proof fn law_marked_lines_are_passed_over(line: Seq<char>)
    requires
        lexing::trimmed(line).len() > 0 ==> lexing::trimmed(line)[0] == '#' || lexing::trimmed(
            line,
        )[0] == '*',
    ensures
        puzzle_in(line) is None,
{
}

/// What is read as a puzzle stands before the first semicolon.
pub proof fn law_what_follows_a_semicolon_is_left(a: Seq<char>, b: Seq<char>, c: Seq<char>)
    requires
        lexing::trimmed(a + seq![';'] + b) == a + seq![';'] + b,
        lexing::trimmed(a + seq![';'] + c) == a + seq![';'] + c,
        !a.contains(';'),
        a.len() > 0,
    ensures
        head_of(a + seq![';'] + b) == lexing::trimmed(a),
        puzzle_in(a + seq![';'] + b) == puzzle_in(a + seq![';'] + c),
{
    let s = a + seq![';'] + b;
    let t = a + seq![';'] + c;
    lemma_before(a, b, 0);
    lemma_before(a, c, 0);
    assert(s.take(a.len() as int) =~= a);
    assert(t.take(a.len() as int) =~= a);
    assert(s[0] == a[0] && t[0] == a[0]);
    assert(is_passed_over(s) == is_passed_over(t));
}

proof fn lemma_before(a: Seq<char>, b: Seq<char>, from: int)
    requires
        !a.contains(';'),
        0 <= from <= a.len(),
    ensures
        lexing::find_from(a + seq![';'] + b, ';', from) == a.len(),
    decreases a.len() - from,
{
    let s = a + seq![';'] + b;
    if from < a.len() {
        assert(s[from] == a[from]);
        assert(a.contains(a[from]));
        lemma_before(a, b, from + 1);
    } else {
        assert(s[from] == ';');
    }
}

/// Noughts become points and nothing else changes; so a seed has none.
pub proof fn law_noughts_become_points(p: Seq<char>, i: int)
    requires
        0 <= i < p.len(),
    ensures
        with_points(p).len() == p.len(),
        with_points(p)[i] == '.' <==> p[i] == '.' || p[i] == '0',
        with_points(p)[i] != '.' ==> with_points(p)[i] == p[i],
        with_points(with_points(p)) == with_points(p),
{
    assert(with_points(with_points(p)) =~= with_points(p));
}

/// No seed is read from a line that starts with a mark.
pub proof fn law_no_seed_in_a_remark(line: Seq<char>)
    requires
        line.len() > 0,
        line[0] == '#',
    ensures
        seed_in(line) is None,
{
    lemma_chopped_starts(line);
}

proof fn lemma_chopped_starts(s: Seq<char>)
    ensures
        super::seed_lines::chopped(s).len() > 0 ==> super::seed_lines::chopped(s)[0] == s[0],
        super::seed_lines::chopped(s).len() <= s.len(),
    decreases s.len(),
{
    if s.len() > 0 && super::seed_lines::ends_line(s.last()) {
        lemma_chopped_starts(s.drop_last());
    }
}

/// A solution is the first 81 characters of a line, and they are all digits from one up.
pub proof fn law_solutions_read(line: Seq<char>)
    ensures
        solution_in(line) is Some <==> lexing::trimmed(line).len() >= 81 && forall|i: int|
            0 <= i < 81 ==> 0x31 <= (#[trigger] lexing::trimmed(line)[i]) as int && lexing::trimmed(
                line,
            )[i] as int <= 0x39,
        solution_in(line) matches Some(s) ==> s.len() == 81 && forall|i: int|
            0 <= i < 81 ==> #[trigger] s[i] == lexing::trimmed(line)[i],
{
    assert(holds_solution(line) == (lexing::trimmed(line).len() >= 81 && forall|i: int|
        0 <= i < 81 ==> 0x31 <= (#[trigger] lexing::trimmed(line)[i]) as int && lexing::trimmed(
            line,
        )[i] as int <= 0x39));
}

/// A share of the cells is the nearest whole number to its percentage.
pub proof fn law_shares_are_rounded(cells: int, percent: int)
    requires
        cells >= 0,
        percent >= 0,
    ensures
        -50 < 100 * share(cells, percent) - cells * percent <= 50,
{
    let x = cells * percent;
    assert(x >= 0) by (nonlinear_arith)
        requires
            cells >= 0,
            percent >= 0,
            x == cells * percent,
    ;
}

/// A higher tier has no more clues than a lower one, and every band holds something.
pub proof fn law_bands_descend(a: Tier, b: Tier)
    ensures
        band_percent(a).0 < band_percent(a).1,
        techniques::rank(a) < techniques::rank(b) ==> band_percent(a).0 > band_percent(b).0
            && band_percent(a).1 > band_percent(b).1,
{
}

/// The attempts for each puzzle add up, to ten million at most.
pub proof fn law_attempts_add_up(per_puzzle: int, num: int)
    requires
        per_puzzle >= 0,
        num >= 1,
    ensures
        total_attempts(per_puzzle, 0) == total_attempts(per_puzzle, 1),
        total_attempts(per_puzzle, num) <= 10_000_000,
        total_attempts(per_puzzle, num) <= per_puzzle * num,
        total_attempts(per_puzzle, num) < 10_000_000 ==> total_attempts(per_puzzle, num)
            == per_puzzle * num,
{
}

/// Numbers are read piece by piece, and a piece that is none is left out.
pub proof fn law_numbers_piece_by_piece(a: Seq<Seq<char>>, b: Seq<Seq<char>>, x: Seq<char>)
    ensures
        numbers_in(a + b) == numbers_in(a) + numbers_in(b),
        numbers_in(seq![x]).len() == if lexing::is_number(lexing::trimmed(x), 255) {
            1int
        } else {
            0
        },
    decreases b.len(),
{
    if b.len() == 0 {
        assert(a + b =~= a);
        assert(numbers_in(a) + numbers_in(b) =~= numbers_in(a));
    } else {
        law_numbers_piece_by_piece(a, b.drop_last(), x);
        assert((a + b).drop_last() =~= a + b.drop_last());
        assert(numbers_in(a + b) =~= numbers_in(a) + numbers_in(b));
    }
    assert(seq![x].drop_last() =~= Seq::<Seq<char>>::empty());
    assert(numbers_in(seq![x].drop_last()) =~= Seq::<nat>::empty());
    assert(seq![x].last() == x);
}

/// The errors of two batches one after the other add up; a row counts just if it has one.
pub proof fn law_errors_add_up(a: Seq<Row>, b: Seq<Row>, x: Row)
    ensures
        error_count(a + b) == error_count(a) + error_count(b),
        error_count(seq![x]) == 1 <==> x.rate.rater_error,
        error_count(a) <= a.len(),
    decreases a.len() + b.len(),
{
    if b.len() == 0 {
        assert(a + b =~= a);
        if a.len() > 0 {
            law_errors_add_up(a.drop_last(), b, x);
        }
    } else {
        law_errors_add_up(a, b.drop_last(), x);
        assert((a + b).drop_last() =~= a + b.drop_last());
    }
    assert(seq![x].drop_last() =~= Seq::<Row>::empty());
    assert(error_count(seq![x].drop_last()) == 0);
    assert(seq![x].last() == x);
}

/// The last entry for a tier counts, and entries for other tiers leave it as it is.
pub proof fn law_last_target_counts(es: Seq<Seq<char>>, e: Seq<char>, tier: Seq<char>)
    ensures
        ({
            let after = targets_of(es.push(e));
            &&& after.dom().contains(before_mark(e, '='))
            &&& after[before_mark(e, '=')] == lexing::value_of(
                lexing::digits_part(after_mark(e, '=')),
            )
            &&& tier != before_mark(e, '=') ==> after.dom().contains(tier) == targets_of(
                es,
            ).dom().contains(tier) && (targets_of(es).dom().contains(tier) ==> after[tier]
                == targets_of(es)[tier])
        }),
{
    assert(es.push(e).drop_last() =~= es);
    assert(es.push(e).last() == e);
}

/// What two texts one after the other look like inside quotes is what the first does and then
/// what the second does.
pub proof fn law_quoted_piece_by_piece(a: Seq<char>, b: Seq<char>)
    ensures
        json_inner(a + b) == json_inner(a) + json_inner(b),
    decreases b.len(),
{
    if b.len() == 0 {
        assert(a + b =~= a);
        assert(json_inner(a) + json_inner(b) =~= json_inner(a));
    } else {
        law_quoted_piece_by_piece(a, b.drop_last());
        assert((a + b).drop_last() =~= a + b.drop_last());
        assert(json_inner(a + b) =~= json_inner(a) + json_inner(b));
    }
}

/// Inside quotes no character has a code below that of the space.
pub proof fn law_quoted_has_no_controls(s: Seq<char>, i: int)
    requires
        0 <= i < json_string(s).len(),
    ensures
        json_string(s)[i] as int >= 0x20,
{
    lemma_no_controls(s);
    let t = json_inner(s);
    if 0 < i && i <= t.len() {
        assert(json_string(s)[i] == t[i - 1]);
    }
}

proof fn lemma_no_control(c: char)
    ensures
        forall|i: int| 0 <= i < json_char(c).len() ==> (#[trigger] json_char(c)[i]) as int >= 0x20,
{
    let b = json_char(c);
    assert forall|i: int| 0 <= i < b.len() implies (#[trigger] b[i]) as int >= 0x20 by {
        if b.len() == 6 {
            assert(hex_digit(c as int / 16) as int >= 0x30);
            assert(hex_digit(c as int % 16) as int >= 0x30);
            assert(b[0] == '\\' && b[1] == 'u' && b[2] == '0' && b[3] == '0');
            assert(b[4] == hex_digit(c as int / 16) && b[5] == hex_digit(c as int % 16));
            assert(i == 0 || i == 1 || i == 2 || i == 3 || i == 4 || i == 5);
        } else if b.len() == 2 {
            assert(i == 0 || i == 1);
        }
    }
}

proof fn lemma_no_controls(s: Seq<char>)
    ensures
        forall|i: int| 0 <= i < json_inner(s).len() ==> (#[trigger] json_inner(s)[i]) as int >= 0x20,
    decreases s.len(),
{
    if s.len() > 0 {
        lemma_no_controls(s.drop_last());
        let a = json_inner(s.drop_last());
        let b = json_char(s.last());
        lemma_no_control(s.last());
        assert forall|i: int| 0 <= i < json_inner(s).len() implies (#[trigger] json_inner(
            s,
        )[i]) as int >= 0x20 by {
            if i < a.len() {
                assert(json_inner(s)[i] == a[i]);
            } else {
                assert(json_inner(s)[i] == b[i - a.len()]);
            }
        }
    }
}

/// No text looks like another inside quotes.
pub proof fn law_quoted_texts_differ(a: Seq<char>, b: Seq<char>)
    requires
        json_inner(a) == json_inner(b),
    ensures
        a == b,
    decreases a.len(),
{
    lemma_quoted_length(a);
    lemma_quoted_length(b);
    if a.len() == 0 || b.len() == 0 {
        assert(a =~= b);
    } else {
        let (x, y) = (a[0], b[0]);
        let (p, q) = (a.drop_first(), b.drop_first());
        assert(a =~= seq![x] + p);
        assert(b =~= seq![y] + q);
        law_quoted_piece_by_piece(seq![x], p);
        law_quoted_piece_by_piece(seq![y], q);
        lemma_quoted_one(x);
        lemma_quoted_one(y);
        let (u, v) = (json_char(x), json_char(y));
        let s = json_inner(a);
        assert(s == u + json_inner(p));
        assert(s == v + json_inner(q));
        lemma_quoted_starts(x, y, s, json_inner(p), json_inner(q));
        assert(json_inner(p) =~= s.skip(u.len() as int));
        assert(json_inner(q) =~= s.skip(v.len() as int));
        law_quoted_texts_differ(p, q);
    }
}

proof fn lemma_quoted_length(s: Seq<char>)
    ensures
        s.len() > 0 ==> json_inner(s).len() > 0,
{
}

proof fn lemma_quoted_one(x: char)
    ensures
        json_inner(seq![x]) == json_char(x),
{
    assert(seq![x].drop_last() =~= Seq::<char>::empty());
    assert(json_inner(seq![x].drop_last()) =~= Seq::<char>::empty());
    assert(json_inner(seq![x]) =~= json_char(x));
}

proof fn lemma_quoted_starts(x: char, y: char, s: Seq<char>, p: Seq<char>, q: Seq<char>)
    requires
        s == json_char(x) + p,
        s == json_char(y) + q,
    ensures
        x == y,
{
    let (u, v) = (json_char(x), json_char(y));
    assert(s[0] == u[0] && s[0] == v[0]);
    if u.len() > 1 && v.len() > 1 {
        assert(s[1] == u[1] && s[1] == v[1]);
        if u.len() > 2 && v.len() > 2 {
            assert(s[4] == u[4] && s[4] == v[4]);
            assert(s[5] == u[5] && s[5] == v[5]);
        }
    }
}

} // verus!
