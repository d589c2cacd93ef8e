//! Puzzles in lines of text.

use crate::lexing;
use crate::lexing::{chars_in, is_blank, position, slice, trim};
use vstd::prelude::*;

verus! {

/// The number of cells, each of which takes one byte of a line.
pub const LINE_CELLS: usize = 81;

/// The number of bytes that a character takes.
pub open spec fn width(c: char) -> nat {
    if (c as int) < 0x80 {
        1
    } else if (c as int) < 0x800 {
        2
    } else if (c as int) < 0x10000 {
        3
    } else {
        4
    }
}

/// The number of bytes that a character takes.
fn width_of(c: char) -> (r: usize)
    ensures
        r == width(c),
{
    let n: u32 = c as u32;
    if n < 0x80 {
        1
    } else if n < 0x800 {
        2
    } else if n < 0x10000 {
        3
    } else {
        4
    }
}

/// The number of bytes that a text takes.
pub open spec fn byte_len(s: Seq<char>) -> nat
    decreases s.len(),
{
    if s.len() == 0 {
        0
    } else {
        byte_len(s.drop_last()) + width(s.last())
    }
}

/// The first `k` characters of `s` are the shortest beginning that takes as many bytes as
/// there are cells.
pub open spec fn is_cut(s: Seq<char>, k: int) -> bool {
    &&& 0 < k <= s.len()
    &&& byte_len(s.take(k)) >= LINE_CELLS
    &&& byte_len(s.take(k - 1)) < LINE_CELLS
}

/// A longer beginning takes more bytes.
proof fn lemma_longer(s: Seq<char>, k: int, m: int)
    requires
        0 <= k <= m <= s.len(),
    ensures
        byte_len(s.take(k)) + (m - k) <= byte_len(s.take(m)),
    decreases m - k,
{
    if k < m {
        lemma_longer(s, k, m - 1);
        assert(s.take(m).drop_last() =~= s.take(m - 1));
    }
}

/// The number of characters of the shortest beginning that takes as many bytes as there are
/// cells, and the bytes that it takes. The whole text where it is too short.
fn cut(s: &Vec<char>) -> (r: (usize, usize))
    ensures
        r.0 <= s@.len(),
        r.1 == byte_len(s@.take(r.0 as int)),
        if byte_len(s@) < LINE_CELLS {
            r.0 == s@.len()
        } else {
            is_cut(s@, r.0 as int)
        },
{
    let mut k: usize = 0;
    let mut bytes: usize = 0;
    assert(s@.take(0) =~= Seq::<char>::empty());
    assert(s@.take(s@.len() as int) =~= s@);
    while k < s.len() && bytes < LINE_CELLS
        invariant
            k <= s@.len(),
            bytes == byte_len(s@.take(k as int)),
            bytes <= LINE_CELLS + 3,
            s@.take(s@.len() as int) == s@,
            k > 0 ==> byte_len(s@.take(k - 1)) < LINE_CELLS,
        decreases s@.len() - k,
    {
        assert(s@.take(k + 1).drop_last() =~= s@.take(k as int));
        bytes += width_of(s[k]);
        k += 1;
    }
    proof {
        lemma_longer(s@, k as int, s@.len() as int);
    }
    (k, bytes)
}

/// The line is passed over: it is blank, a comment or a header.
pub open spec fn is_passed_over(s: Seq<char>) -> bool {
    s.len() == 0 || s[0] == '#' || s[0] == '*'
}

/// The puzzle of a line, which ends at a `;`.
pub open spec fn head_of(line: Seq<char>) -> Seq<char> {
    let s = lexing::trimmed(line);
    lexing::trimmed(s.take(lexing::find_from(s, ';', 0)))
}

/// The length of the shortest beginning of `s` that takes as many bytes as there are cells.
pub open spec fn cut_of(s: Seq<char>) -> int {
    choose|k: int| #[trigger] is_cut(s, k)
}

/// There is only one such length.
proof fn lemma_one_cut(s: Seq<char>, j: int, k: int)
    requires
        is_cut(s, j),
        is_cut(s, k),
    ensures
        j == k,
{
    if j < k {
        lemma_longer(s, j, k - 1);
    } else if k < j {
        lemma_longer(s, k, j - 1);
    }
}

/// The puzzle that a line of a list to be rated holds, if it holds one.
pub open spec fn puzzle_in(line: Seq<char>) -> Option<Seq<char>> {
    let head = head_of(line);
    if !is_passed_over(lexing::trimmed(line)) && byte_len(head) >= LINE_CELLS {
        Some(head.take(cut_of(head)))
    } else {
        None
    }
}

/// The puzzle that a line of a list to be rated holds: its first 81 bytes, and what is left
/// of the last character where they end inside it. Blank lines, comments, headers and lines
/// that are too short hold none.
pub fn list_puzzle(line: &str) -> (r: Option<Vec<char>>)
    ensures
        r is Some == puzzle_in(line@) is Some,
        r matches Some(p) ==> puzzle_in(line@) == Some(p@),
{
    let s: Vec<char> = trim(&chars_in(line));
    if s.len() == 0 || s[0] == '#' || s[0] == '*' {
        return None;
    }
    let k: usize = position(&s, ';', 0);
    let head: Vec<char> = trim(&slice(&s, 0, k));
    assert(s@.subrange(0, k as int) =~= s@.take(k as int));
    let (k, bytes) = cut(&head);
    assert(head@.take(head@.len() as int) =~= head@);
    if bytes < LINE_CELLS {
        return None;
    }
    let p: Vec<char> = slice(&head, 0, k);
    assert(p@ =~= head@.take(k as int));
    proof {
        assert(is_cut(head@, k as int));
        lemma_one_cut(head@, k as int, cut_of(head@));
    }
    Some(p)
}

/// Where all characters take one byte, a line of a list to be rated holds the first 81 of them.
pub proof fn law_plain_puzzle(line: Seq<char>)
    requires
        forall|i: int|
            0 <= i < head_of(line).len() ==> (#[trigger] head_of(line)[i] as int) < 0x80,
        puzzle_in(line) is Some,
    ensures
        puzzle_in(line) == Some(head_of(line).take(LINE_CELLS as int)),
{
    let head = head_of(line);
    assert(head.take(head.len() as int) =~= head);
    lemma_plain(head, head.len() as int);
    lemma_plain(head, LINE_CELLS as int);
    lemma_plain(head, LINE_CELLS - 1);
    assert(is_cut(head, LINE_CELLS as int));
    lemma_one_cut(head, LINE_CELLS as int, cut_of(head));
}

/// Characters of one byte each take as many bytes as there are of them.
proof fn lemma_plain(s: Seq<char>, k: int)
    requires
        0 <= k <= s.len(),
        forall|i: int| 0 <= i < s.len() ==> (#[trigger] s[i] as int) < 0x80,
    ensures
        byte_len(s.take(k)) == k,
    decreases k,
{
    if k > 0 {
        lemma_plain(s, k - 1);
        assert(s.take(k).drop_last() =~= s.take(k - 1));
        assert((s[k - 1] as int) < 0x80);
    }
}

/// A character that may end a line.
pub open spec fn ends_line(c: char) -> bool {
    c as int == 0x0d || c as int == 0x0a || c == ' ' || c as int == 0x09
}

/// Whether a character may end a line.
fn is_line_end(c: char) -> (r: bool)
    ensures
        r == ends_line(c),
{
    let n: u32 = c as u32;
    n == 0x0d || n == 0x0a || n == 0x20 || n == 0x09
}

/// `s` without the line ends and blanks at its end.
pub open spec fn chopped(s: Seq<char>) -> Seq<char>
    decreases s.len(),
{
    if s.len() > 0 && ends_line(s.last()) {
        chopped(s.drop_last())
    } else {
        s
    }
}

/// The first place from `from` on where white space stands (or does not), or the end.
pub open spec fn find_blank(s: Seq<char>, blank: bool, from: int) -> int
    decreases s.len() - from,
{
    if from >= s.len() || lexing::is_white(s[from]) == blank {
        from
    } else {
        find_blank(s, blank, from + 1)
    }
}

/// The first place from `from` on where white space stands (or does not), or the end.
fn blank_position(s: &Vec<char>, blank: bool, from: usize) -> (r: usize)
    requires
        from <= s@.len(),
    ensures
        r == find_blank(s@, blank, from as int),
        from <= r <= s@.len(),
{
    let mut i: usize = from;
    while i < s.len() && is_blank(s[i]) != blank
        invariant
            from <= i <= s@.len(),
            find_blank(s@, blank, from as int) == find_blank(s@, blank, i as int),
        decreases s@.len() - i,
    {
        i += 1;
    }
    i
}

/// The word of `s` that starts from `from` on, empty if there is none.
pub open spec fn word_from(s: Seq<char>, from: int) -> Seq<char> {
    let a = find_blank(s, false, from);
    s.subrange(a, find_blank(s, true, a))
}

/// The place after the first word.
pub open spec fn after_first_word(s: Seq<char>) -> int {
    find_blank(s, true, find_blank(s, false, 0))
}

/// The puzzle with `.` for `0`.
pub open spec fn with_points(p: Seq<char>) -> Seq<char> {
    Seq::new(
        p.len(),
        |i: int|
            if p[i] == '0' {
                '.'
            } else {
                p[i]
            },
    )
}

/// A line holds a seed: it is no comment, and its first word takes 81 bytes.
pub open spec fn holds_seed(line: Seq<char>) -> bool {
    let s = chopped(line);
    s.len() > 0 && s[0] != '#' && byte_len(word_from(s, 0)) == LINE_CELLS
}

/// The seed of a line if it holds one: its puzzle, and the next word if there is one.
pub open spec fn seed_in(line: Seq<char>) -> Option<(Seq<char>, Option<Seq<char>>)> {
    let s = chopped(line);
    let second = word_from(s, after_first_word(s));
    if holds_seed(line) {
        Some(
            (
                with_points(word_from(s, 0)),
                if second.len() > 0 {
                    Some(second)
                } else {
                    None
                },
            ),
        )
    } else {
        None
    }
}

/// What a seed shows.
pub open spec fn seed_view(x: (Vec<char>, Option<Vec<char>>)) -> (Seq<char>, Option<Seq<char>>) {
    (
        x.0@,
        match x.1 {
            Some(t) => Some(t@),
            None => None,
        },
    )
}

/// The seed of a line, its puzzle and then its solution if there is one.
pub fn seed_of_line(line: &str) -> (r: Option<(Vec<char>, Option<Vec<char>>)>)
    ensures
        r is Some == seed_in(line@) is Some,
        r matches Some(x) ==> seed_in(line@) == Some(seed_view(x)),
{
    let all: Vec<char> = chars_in(line);
    let mut end: usize = all.len();
    assert(all@.take(end as int) =~= all@);
    while end > 0 && is_line_end(all[end - 1])
        invariant
            end <= all@.len(),
            chopped(all@) == chopped(all@.take(end as int)),
        decreases end,
    {
        assert(all@.take(end as int).drop_last() =~= all@.take(end - 1));
        end -= 1;
    }
    let s: Vec<char> = slice(&all, 0, end);
    assert(s@ =~= all@.take(end as int));
    assert(s@ == chopped(line@));
    if s.len() == 0 || s[0] == '#' {
        return None;
    }
    let a: usize = blank_position(&s, false, 0);
    let b: usize = blank_position(&s, true, a);
    let mut p: Vec<char> = slice(&s, a, b);
    let ghost first = p@;
    let (k, bytes) = cut(&p);
    proof {
        assert(first.take(first.len() as int) =~= first);
        lemma_longer(first, k as int, first.len() as int);
    }
    if bytes != LINE_CELLS || k != p.len() {
        return None;
    }
    let mut i: usize = 0;
    while i < p.len()
        invariant
            i <= p@.len(),
            p@.len() == first.len(),
            forall|j: int| 0 <= j < i ==> #[trigger] p@[j] == with_points(first)[j],
            forall|j: int| i <= j < p@.len() ==> #[trigger] p@[j] == first[j],
        decreases p@.len() - i,
    {
        if p[i] == '0' {
            p.set(i, '.');
        }
        i += 1;
    }
    assert(p@ =~= with_points(first));
    let c: usize = blank_position(&s, false, b);
    let d: usize = blank_position(&s, true, c);
    if c == d {
        Some((p, None))
    } else {
        Some((p, Some(slice(&s, c, d))))
    }
}

/// The line starts with 81 digits from `1` to `9`.
pub open spec fn holds_solution(line: Seq<char>) -> bool {
    let s = lexing::trimmed(line);
    s.len() >= LINE_CELLS && forall|i: int|
        0 <= i < LINE_CELLS ==> '1' <= #[trigger] s[i] && s[i] <= '9'
}

/// The solved grid that a line starts with, if it does.
pub open spec fn solution_in(line: Seq<char>) -> Option<Seq<char>> {
    if holds_solution(line) {
        Some(lexing::trimmed(line).take(LINE_CELLS as int))
    } else {
        None
    }
}

/// The solved grid that a line starts with, if it does.
pub fn solution_of_line(line: &str) -> (r: Option<Vec<char>>)
    ensures
        r is Some == solution_in(line@) is Some,
        r matches Some(p) ==> solution_in(line@) == Some(p@),
{
    let s: Vec<char> = trim(&chars_in(line));
    if s.len() < LINE_CELLS {
        return None;
    }
    let mut i: usize = 0;
    while i < LINE_CELLS
        invariant
            i <= LINE_CELLS <= s@.len(),
            s@ == lexing::trimmed(line@),
            forall|j: int| 0 <= j < i ==> '1' <= #[trigger] s@[j] && s@[j] <= '9',
        decreases LINE_CELLS - i,
    {
        if !('1' <= s[i] && s[i] <= '9') {
            assert(!('1' <= s@[i as int] && s@[i as int] <= '9'));
            return None;
        }
        i += 1;
    }
    let p: Vec<char> = slice(&s, 0, LINE_CELLS);
    assert(p@ =~= s@.take(LINE_CELLS as int));
    Some(p)
}

/// Whether a list with a cap is complete. A cap of 0 is none.
pub fn is_enough(found: usize, max: usize) -> (r: bool)
    ensures
        r == (max > 0 && found >= max),
{
    max > 0 && found >= max
}

/// The texts of lines.
pub open spec fn line_texts(l: Seq<String>) -> Seq<Seq<char>> {
    Seq::new(l.len(), |i: int| l[i]@)
}

/// What is read from the lines, in their order; nothing for a line that holds nothing.
pub open spec fn read_from<T>(lines: Seq<Seq<char>>, read: spec_fn(Seq<char>) -> Option<T>) -> Seq<T>
    decreases lines.len(),
{
    if lines.len() == 0 {
        Seq::empty()
    } else {
        let before = read_from(lines.drop_last(), read);
        match read(lines.last()) {
            Some(x) => before.push(x),
            None => before,
        }
    }
}

/// The first `max` of a list, all of it if `max` is 0.
pub open spec fn capped<T>(s: Seq<T>, max: usize) -> Seq<T> {
    if max > 0 && s.len() > max {
        s.take(max as int)
    } else {
        s
    }
}

/// What is read from the first lines comes first.
proof fn lemma_read_prefix<T>(lines: Seq<Seq<char>>, read: spec_fn(Seq<char>) -> Option<T>, k: int)
    requires
        0 <= k <= lines.len(),
    ensures
        read_from(lines.take(k), read).is_prefix_of(read_from(lines, read)),
    decreases lines.len(),
{
    if k < lines.len() {
        lemma_read_prefix(lines.drop_last(), read, k);
        assert(lines.drop_last().take(k) =~= lines.take(k));
    } else {
        assert(lines.take(k) =~= lines);
    }
}

/// The list is complete, or its cap is reached.
proof fn lemma_capped<T>(
    lines: Seq<Seq<char>>,
    read: spec_fn(Seq<char>) -> Option<T>,
    k: int,
    max: usize,
)
    requires
        0 <= k <= lines.len(),
        k == lines.len() || (max > 0 && read_from(lines.take(k), read).len() == max),
        max > 0 ==> read_from(lines.take(k), read).len() <= max,
    ensures
        read_from(lines.take(k), read) == capped(read_from(lines, read), max),
{
    lemma_read_prefix(lines, read, k);
    if k == lines.len() {
        assert(lines.take(k) =~= lines);
    } else {
        assert(read_from(lines.take(k), read) =~= read_from(lines, read).take(max as int));
    }
}

/// The seeds of the lines, up to `max` of them; all of them if `max` is 0.
pub fn seeds_of_lines(lines: &Vec<String>, max: usize) -> (r: Vec<(Vec<char>, Option<Vec<char>>)>)
    ensures
        Seq::new(r@.len(), |i: int| seed_view(r@[i])) == capped(
            read_from(line_texts(lines@), |l: Seq<char>| seed_in(l)),
            max,
        ),
{
    let ghost texts = line_texts(lines@);
    let ghost read = |l: Seq<char>| seed_in(l);
    let mut out: Vec<(Vec<char>, Option<Vec<char>>)> = Vec::new();
    let mut i: usize = 0;
    assert(Seq::new(out@.len(), |i: int| seed_view(out@[i])) =~= read_from(texts.take(0), read));
    while i < lines.len() && !is_enough(out.len(), max)
        invariant
            i <= lines@.len(),
            texts == line_texts(lines@),
            read == (|l: Seq<char>| seed_in(l)),
            max > 0 ==> out@.len() <= max,
            Seq::new(out@.len(), |i: int| seed_view(out@[i])) == read_from(
                texts.take(i as int),
                read,
            ),
        decreases lines@.len() - i,
    {
        let ghost before = Seq::new(out@.len(), |i: int| seed_view(out@[i]));
        assert(texts.take(i + 1).drop_last() =~= texts.take(i as int));
        assert(texts[i as int] == lines@[i as int]@);
        if let Some(x) = seed_of_line(lines[i].as_str()) {
            out.push(x);
            assert(Seq::new(out@.len(), |i: int| seed_view(out@[i])) =~= before.push(seed_view(x)));
        }
        i += 1;
    }
    proof {
        lemma_capped(texts, read, i as int, max);
    }
    out
}

/// The solved grids of the lines, up to `max` of them; all of them if `max` is 0.
pub fn solutions_of_lines(lines: &Vec<String>, max: usize) -> (r: Vec<Vec<char>>)
    ensures
        lexing::views(r@) == capped(
            read_from(line_texts(lines@), |l: Seq<char>| solution_in(l)),
            max,
        ),
{
    let ghost texts = line_texts(lines@);
    let ghost read = |l: Seq<char>| solution_in(l);
    let mut out: Vec<Vec<char>> = Vec::new();
    let mut i: usize = 0;
    assert(lexing::views(out@) =~= read_from(texts.take(0), read));
    while i < lines.len() && !is_enough(out.len(), max)
        invariant
            i <= lines@.len(),
            texts == line_texts(lines@),
            read == (|l: Seq<char>| solution_in(l)),
            max > 0 ==> out@.len() <= max,
            lexing::views(out@) == read_from(texts.take(i as int), read),
        decreases lines@.len() - i,
    {
        let ghost before = lexing::views(out@);
        assert(texts.take(i + 1).drop_last() =~= texts.take(i as int));
        assert(texts[i as int] == lines@[i as int]@);
        if let Some(x) = solution_of_line(lines[i].as_str()) {
            out.push(x);
            assert(lexing::views(out@) =~= before.push(x@));
        }
        i += 1;
    }
    proof {
        lemma_capped(texts, read, i as int, max);
    }
    out
}

/// The puzzles of the lines of a list to be rated.
pub fn puzzles_of_lines(lines: &Vec<String>) -> (r: Vec<Vec<char>>)
    ensures
        lexing::views(r@) == read_from(line_texts(lines@), |l: Seq<char>| puzzle_in(l)),
{
    let ghost texts = line_texts(lines@);
    let ghost read = |l: Seq<char>| puzzle_in(l);
    let mut out: Vec<Vec<char>> = Vec::new();
    let mut i: usize = 0;
    assert(lexing::views(out@) =~= read_from(texts.take(0), read));
    while i < lines.len()
        invariant
            i <= lines@.len(),
            texts == line_texts(lines@),
            read == (|l: Seq<char>| puzzle_in(l)),
            lexing::views(out@) == read_from(texts.take(i as int), read),
        decreases lines@.len() - i,
    {
        let ghost before = lexing::views(out@);
        assert(texts.take(i + 1).drop_last() =~= texts.take(i as int));
        assert(texts[i as int] == lines@[i as int]@);
        if let Some(x) = list_puzzle(lines[i].as_str()) {
            out.push(x);
            assert(lexing::views(out@) =~= before.push(x@));
        }
        i += 1;
    }
    assert(texts.take(i as int) =~= texts);
    out
}

} // verus!
