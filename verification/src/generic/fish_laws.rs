//! What fish are found.

use super::combos;
use super::fish_reverse;
use super::fish_reverse::{
    cover, fish_at, fish_fires, fish_kills, is_base, is_fish, line_cell, line_has, places,
};
use super::geometry::Dims;
use super::masks;
use vstd::prelude::*;
use vstd::set_lib::*;

verus! {

/// The cell of a line at a position, both from zero upwards: a row with a column, or a column
/// with a row.
pub open spec fn crossing(n: int, by_row: bool, line: int, pos: int) -> int {
    if by_row {
        line * n + pos
    } else {
        pos * n + line
    }
}

/// The open cell where a line is crossed has the candidate `d`.
pub open spec fn can_hold(
    n: int,
    c: Seq<u32>,
    solved: Seq<int>,
    by_row: bool,
    line: int,
    pos: int,
    d: int,
) -> bool {
    solved[crossing(n, by_row, line, pos)] == 0 && masks::holds(
        c[crossing(n, by_row, line, pos)],
        d,
    )
}

/// A place of a line is a place where it can hold the digit.
proof fn lemma_has(
    g: Dims,
    c: Seq<u32>,
    solved: Seq<int>,
    d: int,
    by_row: bool,
    line: int,
    pos: int,
)
    requires
        0 <= line < g.n,
    ensures
        line_has(g, c, solved, d, by_row, line, pos + 1) == (0 <= pos < g.n && can_hold(
            g.n,
            c,
            solved,
            by_row,
            line,
            pos,
            d,
        )),
{
    assert(line_cell(g, by_row, line, pos + 1) == crossing(g.n, by_row, line, pos));
}

/// A fish is found, whichever way it lies: `k` rows, or `k` columns, in which a digit is not
/// placed, has two places at least in each and only places in `k` crossing lines, each of which is
/// needed, rule the digit out in the rest of these; if it is a candidate there, a fish of size
/// `k` rules something out.
pub proof fn law_fish_is_found(
    g: Dims,
    c: Seq<u32>,
    solved: Seq<int>,
    d: int,
    by_row: bool,
    lines: Seq<int>,
    crossed: Seq<int>,
    other: int,
    j: int,
)
    requires
        g.ok(),
        1 <= d <= g.n,
        lines.len() == crossed.len(),
        forall|i: int| 0 <= i < lines.len() ==> 0 <= #[trigger] lines[i] < g.n,
        forall|i: int, l: int| 0 <= i < l < lines.len() ==> lines[i] < lines[l],
        forall|i: int| 0 <= i < crossed.len() ==> 0 <= #[trigger] crossed[i] < g.n,
        crossed.no_duplicates(),
        forall|i: int, pos: int|
            0 <= i < lines.len() && 0 <= pos < g.n ==> solved[#[trigger] crossing(
                g.n,
                by_row,
                lines[i],
                pos,
            )] != d,
        forall|i: int, pos: int|
            0 <= i < lines.len() && 0 <= pos < g.n && #[trigger] can_hold(
                g.n,
                c,
                solved,
                by_row,
                lines[i],
                pos,
                d,
            ) ==> crossed.contains(pos),
        forall|i: int|
            0 <= i < lines.len() ==> exists|p: int, q: int|
                0 <= p < q < g.n && #[trigger] can_hold(
                    g.n,
                    c,
                    solved,
                    by_row,
                    #[trigger] lines[i],
                    p,
                    d,
                ) && #[trigger] can_hold(g.n, c, solved, by_row, lines[i], q, d),
        forall|x: int|
            0 <= x < crossed.len() ==> exists|i: int|
                0 <= i < lines.len() && can_hold(
                    g.n,
                    c,
                    solved,
                    by_row,
                    #[trigger] lines[i],
                    #[trigger] crossed[x],
                    d,
                ),
        0 <= other < g.n,
        !lines.contains(other),
        0 <= j < crossed.len(),
        can_hold(g.n, c, solved, by_row, other, crossed[j], d),
    ensures
        fish_fires(g, c, solved, d, by_row, lines.len() as int),
        fish_at(g, c, solved, lines.len() as int),
{
    let k = lines.len() as int;
    let shifted = Seq::new(crossed.len(), |x: int| crossed[x] + 1);
    let all = cover(g, c, solved, d, by_row, lines);
    assert(shifted.no_duplicates());
    shifted.unique_seq_to_set();
    assert forall|p: int| all.contains(p) == shifted.to_set().contains(p) by {
        if all.contains(p) {
            let i = choose|i: int|
                0 <= i < lines.len() && line_has(g, c, solved, d, by_row, #[trigger] lines[i], p);
            lemma_has(g, c, solved, d, by_row, lines[i], p - 1);
            assert(can_hold(g.n, c, solved, by_row, lines[i], p - 1, d));
            let x = choose|x: int| 0 <= x < crossed.len() && crossed[x] == p - 1;
            assert(shifted[x] == p);
        }
        if shifted.contains(p) {
            let x = choose|x: int| 0 <= x < shifted.len() && shifted[x] == p;
            assert(crossed[x] == p - 1);
            let i = choose|i: int|
                0 <= i < lines.len() && can_hold(
                    g.n,
                    c,
                    solved,
                    by_row,
                    #[trigger] lines[i],
                    crossed[x],
                    d,
                );
            lemma_has(g, c, solved, d, by_row, lines[i], p - 1);
            assert(line_has(g, c, solved, d, by_row, lines[i], p));
        }
    }
    assert(all =~= shifted.to_set());
    assert(all.finite() && all.len() == k);
    assert forall|i: int| 0 <= i < k implies is_base(
        g,
        c,
        solved,
        d,
        by_row,
        #[trigger] lines[i],
        k,
    ) by {
        let line = lines[i];
        let own = places(g, c, solved, d, by_row, line);
        assert(own.subset_of(all)) by {
            assert forall|p: int| own.contains(p) implies all.contains(p) by {
                assert(line_has(g, c, solved, d, by_row, lines[i], p));
            }
        }
        lemma_len_subset(own, all);
        let (p, q) = choose|p: int, q: int|
            0 <= p < q < g.n && #[trigger] can_hold(g.n, c, solved, by_row, line, p, d)
                && #[trigger] can_hold(g.n, c, solved, by_row, line, q, d);
        lemma_has(g, c, solved, d, by_row, line, p);
        lemma_has(g, c, solved, d, by_row, line, q);
        let two = set![p + 1, q + 1];
        assert(two.subset_of(own));
        lemma_len_subset(two, own);
        assert(two.len() == 2);
        if fish_reverse::line_placed(g, solved, d, by_row, line) {
            let x = choose|x: int|
                1 <= x <= g.n && solved[#[trigger] line_cell(g, by_row, line, x)] == d;
            assert(line_cell(g, by_row, line, x) == crossing(g.n, by_row, lines[i], x - 1));
        }
    }
    assert(combos::increasing(lines));
    assert(is_fish(g, c, solved, d, by_row, lines, k));
    lemma_has(g, c, solved, d, by_row, other, crossed[j]);
    assert(shifted[j] == crossed[j] + 1);
    assert(shifted.to_set().contains(crossed[j] + 1));
    assert(fish_kills(g, c, solved, d, by_row, lines, other, crossed[j] + 1));
    assert(fish_fires(g, c, solved, d, by_row, k));
}

/// A fish that rules something out is one: as many crossing lines hold the places of its lines as
/// it has lines, and what it rules out is a candidate in one of these, in another line.
pub proof fn law_fish_is_one(
    g: Dims,
    c: Seq<u32>,
    solved: Seq<int>,
    d: int,
    by_row: bool,
    lines: Seq<int>,
    k: int,
    other: int,
    p: int,
)
    requires
        is_fish(g, c, solved, d, by_row, lines, k),
        fish_kills(g, c, solved, d, by_row, lines, other, p),
    ensures
        lines.len() == k,
        lines.no_duplicates(),
        !lines.contains(other),
        0 <= other < g.n,
        0 <= p - 1 < g.n,
        can_hold(g.n, c, solved, by_row, other, p - 1, d),
        Set::new(
            |pos: int|
                0 <= pos < g.n && exists|i: int|
                    0 <= i < lines.len() && can_hold(
                        g.n,
                        c,
                        solved,
                        by_row,
                        #[trigger] lines[i],
                        pos,
                        d,
                    ),
        ).len() == k,
        exists|i: int|
            0 <= i < lines.len() && can_hold(
                g.n,
                c,
                solved,
                by_row,
                #[trigger] lines[i],
                p - 1,
                d,
            ),
{
    let all = cover(g, c, solved, d, by_row, lines);
    let own = Set::new(
        |pos: int|
            0 <= pos < g.n && exists|i: int|
                0 <= i < lines.len() && can_hold(
                    g.n,
                    c,
                    solved,
                    by_row,
                    #[trigger] lines[i],
                    pos,
                    d,
                ),
    );
    lemma_int_range(0, g.n);
    assert(own.subset_of(set_int_range(0, g.n)));
    lemma_len_subset(own, set_int_range(0, g.n));
    let f = |pos: int| pos + 1;
    assert(own.map(f) =~= all) by {
        assert forall|x: int| all.contains(x) == own.map(f).contains(x) by {
            if all.contains(x) {
                let i = choose|i: int|
                    0 <= i < lines.len() && line_has(
                        g,
                        c,
                        solved,
                        d,
                        by_row,
                        #[trigger] lines[i],
                        x,
                    );
                lemma_has(g, c, solved, d, by_row, lines[i], x - 1);
                assert(own.contains(x - 1));
                assert(f(x - 1) == x);
            }
            if own.map(f).contains(x) {
                let y = choose|y: int| own.contains(y) && f(y) == x;
                let i = choose|i: int|
                    0 <= i < lines.len() && can_hold(
                        g.n,
                        c,
                        solved,
                        by_row,
                        #[trigger] lines[i],
                        y,
                        d,
                    );
                assert(is_base(g, c, solved, d, by_row, lines[i], k));
                lemma_has(g, c, solved, d, by_row, lines[i], y);
                assert(line_has(g, c, solved, d, by_row, lines[i], x));
            }
        }
    }
    lemma_map_size(own, all, f);
    lemma_has(g, c, solved, d, by_row, other, p - 1);
    let i = choose|i: int|
        0 <= i < lines.len() && line_has(g, c, solved, d, by_row, #[trigger] lines[i], p);
    assert(is_base(g, c, solved, d, by_row, lines[i], k));
    lemma_has(g, c, solved, d, by_row, lines[i], p - 1);
}

/// `ct` and `st` are `c` and `solved` with rows and columns swapped.
pub open spec fn is_transposed(
    n: int,
    c: Seq<u32>,
    solved: Seq<int>,
    ct: Seq<u32>,
    st: Seq<int>,
) -> bool {
    forall|row: int, col: int|
        0 <= row < n && 0 <= col < n ==> {
            &&& #[trigger] ct[col * n + row] == c[row * n + col]
            &&& st[col * n + row] == solved[row * n + col]
        }
}

/// A line has what the line that it becomes has.
proof fn lemma_transposed_line(
    g: Dims,
    c: Seq<u32>,
    solved: Seq<int>,
    ct: Seq<u32>,
    st: Seq<int>,
    d: int,
    by_row: bool,
    turned: bool,
)
    requires
        turned == !by_row,
        is_transposed(g.n, c, solved, ct, st),
    ensures
        forall|line: int, p: int| #[trigger]
            line_has(g, ct, st, d, turned, line, p) == line_has(
                g,
                c,
                solved,
                d,
                by_row,
                line,
                p,
            ),
        forall|line: int|
            0 <= line < g.n ==> #[trigger] fish_reverse::line_placed(g, st, d, turned, line)
                == fish_reverse::line_placed(g, solved, d, by_row, line),
{
    assert forall|line: int, p: int| 0 <= line < g.n && 1 <= p <= g.n implies #[trigger] ct[line_cell(
        g,
        turned,
        line,
        p,
    )] == c[line_cell(g, by_row, line, p)] && st[line_cell(g, turned, line, p)] == solved[line_cell(
        g,
        by_row,
        line,
        p,
    )] by {
        if by_row {
            assert(ct[(p - 1) * g.n + line] == c[line * g.n + (p - 1)]);
        } else {
            assert(ct[line * g.n + (p - 1)] == c[(p - 1) * g.n + line]);
        }
    }
    assert forall|line: int, p: int| #[trigger]
        line_has(g, ct, st, d, turned, line, p) == line_has(
            g,
            c,
            solved,
            d,
            by_row,
            line,
            p,
        ) by {
        if 0 <= line < g.n && 1 <= p <= g.n {
            assert(ct[line_cell(g, turned, line, p)] == c[line_cell(g, by_row, line, p)]);
        }
    }
    assert forall|line: int|
        0 <= line < g.n implies #[trigger] fish_reverse::line_placed(g, st, d, turned, line)
        == fish_reverse::line_placed(g, solved, d, by_row, line) by {
        if fish_reverse::line_placed(g, st, d, turned, line) {
            let p = choose|p: int|
                1 <= p <= g.n && st[#[trigger] line_cell(g, turned, line, p)] == d;
            assert(ct[line_cell(g, turned, line, p)] == c[line_cell(g, by_row, line, p)]);
            assert(solved[line_cell(g, by_row, line, p)] == d);
        }
        if fish_reverse::line_placed(g, solved, d, by_row, line) {
            let p = choose|p: int|
                1 <= p <= g.n && solved[#[trigger] line_cell(g, by_row, line, p)] == d;
            assert(ct[line_cell(g, turned, line, p)] == c[line_cell(g, by_row, line, p)]);
            assert(st[line_cell(g, turned, line, p)] == d);
        }
    }
}

/// A fish in rows is a fish in columns of the transposed grid.
proof fn lemma_transposed_fish(
    g: Dims,
    c: Seq<u32>,
    solved: Seq<int>,
    ct: Seq<u32>,
    st: Seq<int>,
    d: int,
    by_row: bool,
    turned: bool,
    k: int,
)
    requires
        turned == !by_row,
        is_transposed(g.n, c, solved, ct, st),
        fish_fires(g, c, solved, d, by_row, k),
    ensures
        fish_fires(g, ct, st, d, turned, k),
{
    lemma_transposed_line(g, c, solved, ct, st, d, by_row, turned);
    let (bases, line, p) = choose|bases: Seq<int>, line: int, p: int|
        is_fish(g, c, solved, d, by_row, bases, k) && #[trigger] fish_kills(
            g,
            c,
            solved,
            d,
            by_row,
            bases,
            line,
            p,
        );
    assert(cover(g, ct, st, d, turned, bases) =~= cover(g, c, solved, d, by_row, bases)) by {
        assert forall|x: int|
            cover(g, ct, st, d, turned, bases).contains(x) == cover(
                g,
                c,
                solved,
                d,
                by_row,
                bases,
            ).contains(x) by {
            if cover(g, ct, st, d, turned, bases).contains(x) {
                let j = choose|j: int|
                    0 <= j < bases.len() && line_has(g, ct, st, d, turned, #[trigger] bases[j], x);
                assert(line_has(g, c, solved, d, by_row, bases[j], x));
            }
            if cover(g, c, solved, d, by_row, bases).contains(x) {
                let j = choose|j: int|
                    0 <= j < bases.len() && line_has(g, c, solved, d, by_row, #[trigger] bases[j], x);
                assert(line_has(g, ct, st, d, turned, bases[j], x));
            }
        }
    }
    assert forall|j: int| 0 <= j < k implies is_base(
        g,
        ct,
        st,
        d,
        turned,
        #[trigger] bases[j],
        k,
    ) by {
        assert(is_base(g, c, solved, d, by_row, bases[j], k));
        assert(places(g, ct, st, d, turned, bases[j]) =~= places(
            g,
            c,
            solved,
            d,
            by_row,
            bases[j],
        ));
        assert(fish_reverse::line_placed(g, st, d, turned, bases[j]) == fish_reverse::line_placed(
            g,
            solved,
            d,
            by_row,
            bases[j],
        ));
    }
    assert(line_has(g, ct, st, d, turned, line, p));
    assert(fish_kills(g, ct, st, d, turned, bases, line, p));
}

/// Transposing a grid makes no difference to the sizes of the fish in it.
pub proof fn law_fish_transposed(
    g: Dims,
    c: Seq<u32>,
    solved: Seq<int>,
    ct: Seq<u32>,
    st: Seq<int>,
    k: int,
)
    requires
        is_transposed(g.n, c, solved, ct, st),
    ensures
        fish_at(g, ct, st, k) == fish_at(g, c, solved, k),
{
    assert(is_transposed(g.n, ct, st, c, solved)) by {
        assert forall|row: int, col: int| 0 <= row < g.n && 0 <= col < g.n implies #[trigger] c[col
            * g.n + row] == ct[row * g.n + col] && solved[col * g.n + row] == st[row * g.n
            + col] by {
            assert(ct[row * g.n + col] == c[col * g.n + row]);
        }
    }
    if fish_at(g, c, solved, k) {
        let (d, by_row) = choose|d: int, by_row: bool|
            g.is_digit(d) && #[trigger] fish_fires(g, c, solved, d, by_row, k);
        lemma_transposed_fish(g, c, solved, ct, st, d, by_row, !by_row, k);
        assert(g.is_digit(d) && fish_fires(g, ct, st, d, !by_row, k));
    }
    if fish_at(g, ct, st, k) {
        let (d, by_row) = choose|d: int, by_row: bool|
            g.is_digit(d) && #[trigger] fish_fires(g, ct, st, d, by_row, k);
        lemma_transposed_fish(g, ct, st, c, solved, d, by_row, !by_row, k);
        assert(g.is_digit(d) && fish_fires(g, c, solved, d, !by_row, k));
    }
}

} // verus!
