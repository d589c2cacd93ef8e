//! Taking texts apart.

use vstd::prelude::*;

verus! {

/// The characters of a text.
pub fn chars_in(s: &str) -> (v: Vec<char>)
    ensures
        v@ == s@,
{
    let mut v: Vec<char> = Vec::new();
    for c in it: s.chars()
        invariant
            it.seq() == s@,
            v@ == s@.take(it.index() as int),
    {
        v.push(c);
        assert(v@ =~= s@.take(it.index() + 1));
    }
    assert(v@ =~= s@);
    v
}

/// The text of characters.
pub fn text_of(v: &Vec<char>) -> (s: String)
    ensures
        s@ == v@,
{
    let mut s = String::new();
    let mut i: usize = 0;
    while i < v.len()
        invariant
            i <= v@.len(),
            s@ == v@.take(i as int),
        decreases v@.len() - i,
    {
        s.push(v[i]);
        assert(s@ =~= v@.take(i + 1));
        i += 1;
    }
    assert(s@ =~= v@);
    s
}

/// Whether characters make up a text.
pub fn is_text(v: &Vec<char>, s: &str) -> (r: bool)
    ensures
        r == (v@ == s@),
{
    let w: Vec<char> = chars_in(s);
    if v.len() != w.len() {
        return false;
    }
    let mut i: usize = 0;
    while i < v.len()
        invariant
            i <= v@.len(),
            v@.len() == w@.len(),
            w@ == s@,
            forall|j: int| 0 <= j < i ==> v@[j] == w@[j],
        decreases v@.len() - i,
    {
        if v[i] != w[i] {
            assert(v@[i as int] != w@[i as int]);
            return false;
        }
        i += 1;
    }
    assert(v@ =~= w@);
    true
}

/// The character is white space.
pub open spec fn is_white(c: char) -> bool {
    let n = c as int;
    ||| 0x09 <= n <= 0x0d
    ||| n == 0x20
    ||| n == 0x85
    ||| n == 0xa0
    ||| n == 0x1680
    ||| 0x2000 <= n <= 0x200a
    ||| n == 0x2028
    ||| n == 0x2029
    ||| n == 0x202f
    ||| n == 0x205f
    ||| n == 0x3000
}

/// Whether a character is white space.
pub fn is_blank(c: char) -> (r: bool)
    ensures
        r == is_white(c),
{
    let n: u32 = c as u32;
    (0x09 <= n && n <= 0x0d) || n == 0x20 || n == 0x85 || n == 0xa0 || n == 0x1680 || (0x2000 <= n
        && n <= 0x200a) || n == 0x2028 || n == 0x2029 || n == 0x202f || n == 0x205f || n == 0x3000
}

/// `s` without the white space that it starts with.
pub open spec fn trim_start(s: Seq<char>) -> Seq<char>
    decreases s.len(),
{
    if s.len() > 0 && is_white(s[0]) {
        trim_start(s.drop_first())
    } else {
        s
    }
}

/// `s` without the white space that it ends with.
pub open spec fn trim_end(s: Seq<char>) -> Seq<char>
    decreases s.len(),
{
    if s.len() > 0 && is_white(s.last()) {
        trim_end(s.drop_last())
    } else {
        s
    }
}

/// `s` without the white space at its ends.
pub open spec fn trimmed(s: Seq<char>) -> Seq<char> {
    trim_end(trim_start(s))
}

/// The characters from `a` up to `b`.
pub fn slice(s: &Vec<char>, a: usize, b: usize) -> (r: Vec<char>)
    requires
        a <= b <= s@.len(),
    ensures
        r@ == s@.subrange(a as int, b as int),
{
    let mut r: Vec<char> = Vec::new();
    let mut i: usize = a;
    while i < b
        invariant
            a <= i <= b <= s@.len(),
            r@ == s@.subrange(a as int, i as int),
        decreases b - i,
    {
        r.push(s[i]);
        assert(r@ =~= s@.subrange(a as int, i + 1));
        i += 1;
    }
    r
}

/// The text without the white space at its ends.
pub fn trim(s: &Vec<char>) -> (r: Vec<char>)
    ensures
        r@ == trimmed(s@),
{
    let mut a: usize = 0;
    assert(s@.subrange(0, s@.len() as int) =~= s@);
    while a < s.len() && is_blank(s[a])
        invariant
            a <= s@.len(),
            trim_start(s@) == trim_start(s@.subrange(a as int, s@.len() as int)),
        decreases s@.len() - a,
    {
        assert(s@.subrange(a as int, s@.len() as int).drop_first() =~= s@.subrange(
            a + 1,
            s@.len() as int,
        ));
        a += 1;
    }
    let ghost t = s@.subrange(a as int, s@.len() as int);
    assert(trim_start(s@) == t);
    let mut b: usize = s.len();
    while b > a && is_blank(s[b - 1])
        invariant
            a <= b <= s@.len(),
            trim_end(t) == trim_end(s@.subrange(a as int, b as int)),
        decreases b,
    {
        assert(s@.subrange(a as int, b as int).drop_last() =~= s@.subrange(a as int, b - 1));
        b -= 1;
    }
    slice(s, a, b)
}

/// The first place from `from` on where `c` stands, or the end.
pub open spec fn find_from(s: Seq<char>, c: char, from: int) -> int
    decreases s.len() - from,
{
    if from >= s.len() || s[from] == c {
        from
    } else {
        find_from(s, c, from + 1)
    }
}

/// The first place from `from` on where `c` stands, or the end.
pub fn position(s: &Vec<char>, c: char, from: usize) -> (r: usize)
    requires
        from <= s@.len(),
    ensures
        r == find_from(s@, c, from as int),
        from <= r <= s@.len(),
        r < s@.len() ==> s@[r as int] == c,
{
    let mut i: usize = from;
    while i < s.len() && s[i] != c
        invariant
            from <= i <= s@.len(),
            find_from(s@, c, from as int) == find_from(s@, c, i as int),
        decreases s@.len() - i,
    {
        i += 1;
    }
    i
}

/// The pieces of `s` between the places where `c` stands.
pub open spec fn pieces(s: Seq<char>, c: char) -> Seq<Seq<char>>
    decreases s.len(),
{
    let k = find_from(s, c, 0);
    if 0 <= k < s.len() {
        seq![s.take(k)] + pieces(s.skip(k + 1), c)
    } else {
        seq![s]
    }
}

/// The texts of a list.
pub open spec fn views(v: Seq<Vec<char>>) -> Seq<Seq<char>> {
    Seq::new(v.len(), |i: int| v[i]@)
}

/// The place found in a text is the place found in its rest, moved.
proof fn lemma_find_in_rest(s: Seq<char>, c: char, a: int, from: int)
    requires
        0 <= a <= from <= s.len(),
    ensures
        find_from(s, c, from) == find_from(s.skip(a), c, from - a) + a,
    decreases s.len() - from,
{
    if from < s.len() {
        assert(s.skip(a)[from - a] == s[from]);
        if s[from] != c {
            lemma_find_in_rest(s, c, a, from + 1);
        }
    }
}

/// The pieces of a text between the places where `c` stands.
pub fn split(s: &Vec<char>, c: char) -> (v: Vec<Vec<char>>)
    ensures
        views(v@) == pieces(s@, c),
        v@.len() > 0,
{
    let mut v: Vec<Vec<char>> = Vec::new();
    let mut a: usize = 0;
    let mut k: usize = position(s, c, 0);
    assert(s@.skip(0) =~= s@);
    assert(views(v@) + pieces(s@.skip(0), c) =~= pieces(s@, c));
    while k < s.len()
        invariant
            a <= k <= s@.len(),
            k == find_from(s@, c, a as int),
            views(v@) + pieces(s@.skip(a as int), c) == pieces(s@, c),
        decreases s@.len() - k,
    {
        let ghost before = views(v@);
        let piece: Vec<char> = slice(s, a, k);
        proof {
            lemma_find_in_rest(s@, c, a as int, a as int);
            let t = s@.skip(a as int);
            assert(t.take(k - a) =~= piece@);
            assert(t.skip(k - a + 1) =~= s@.skip(k + 1));
            assert(before + (seq![piece@] + pieces(s@.skip(k + 1), c)) =~= before.push(piece@)
                + pieces(s@.skip(k + 1), c));
        }
        v.push(piece);
        assert(views(v@) =~= before.push(piece@));
        a = k + 1;
        k = position(s, c, a);
    }
    let last: Vec<char> = slice(s, a, s.len());
    let ghost before = views(v@);
    proof {
        lemma_find_in_rest(s@, c, a as int, a as int);
        assert(last@ =~= s@.skip(a as int));
    }
    v.push(last);
    assert(views(v@) =~= before + seq![last@]);
    v
}

/// The lower case of an ASCII letter; any other character as it is.
pub open spec fn lower(c: char) -> char {
    if 'A' <= c && c <= 'Z' {
        (c as int + 0x20) as char
    } else {
        c
    }
}

/// The text in lower case, with `to` for each character of `from`.
pub open spec fn folded(s: Seq<char>, from: Seq<char>, to: char) -> Seq<char> {
    Seq::new(
        s.len(),
        |i: int|
            if from.contains(lower(s[i])) {
                to
            } else {
                lower(s[i])
            },
    )
}

/// The lower case of an ASCII letter; any other character as it is.
pub fn to_lower(c: char) -> (r: char)
    ensures
        r == lower(c),
{
    if 'A' <= c && c <= 'Z' {
        ((c as u8) + 0x20) as char
    } else {
        c
    }
}

/// Whether a character is in a list.
fn is_among(c: char, v: &Vec<char>) -> (r: bool)
    ensures
        r == v@.contains(c),
{
    let mut i: usize = 0;
    while i < v.len()
        invariant
            i <= v@.len(),
            forall|j: int| 0 <= j < i ==> v@[j] != c,
        decreases v@.len() - i,
    {
        if v[i] == c {
            assert(v@[i as int] == c);
            return true;
        }
        i += 1;
    }
    false
}

/// The text in lower case, with `to` for each character of `from`.
pub fn fold(s: &Vec<char>, from: &str, to: char) -> (r: Vec<char>)
    ensures
        r@ == folded(s@, from@, to),
{
    let list: Vec<char> = chars_in(from);
    let mut r: Vec<char> = Vec::new();
    let mut i: usize = 0;
    while i < s.len()
        invariant
            i <= s@.len(),
            list@ == from@,
            r@.len() == i,
            forall|j: int| 0 <= j < i ==> #[trigger] r@[j] == folded(s@, from@, to)[j],
        decreases s@.len() - i,
    {
        let c: char = to_lower(s[i]);
        if is_among(c, &list) {
            r.push(to);
        } else {
            r.push(c);
        }
        i += 1;
    }
    assert(r@ =~= folded(s@, from@, to));
    r
}

/// The character is a decimal digit.
pub open spec fn is_decimal(c: char) -> bool {
    '0' <= c && c <= '9'
}

/// The number that decimal digits stand for.
pub open spec fn value_of(s: Seq<char>) -> nat
    decreases s.len(),
{
    if s.len() == 0 {
        0
    } else {
        value_of(s.drop_last()) * 10 + (s.last() as int - '0' as int) as nat
    }
}

/// The digits of a number, without a `+` before them.
pub open spec fn digits_part(s: Seq<char>) -> Seq<char> {
    if s.len() > 0 && s[0] == '+' {
        s.drop_first()
    } else {
        s
    }
}

/// The text is a number up to `max`: decimal digits, with a `+` before them or not.
pub open spec fn is_number(s: Seq<char>, max: nat) -> bool {
    &&& digits_part(s).len() > 0
    &&& forall|i: int| 0 <= i < digits_part(s).len() ==> is_decimal(#[trigger] digits_part(s)[i])
    &&& value_of(digits_part(s)) <= max
}

/// A prefix stands for no larger number.
proof fn lemma_value_grows(s: Seq<char>, k: int)
    requires
        0 <= k <= s.len(),
        forall|i: int| 0 <= i < s.len() ==> is_decimal(#[trigger] s[i]),
    ensures
        value_of(s.take(k)) <= value_of(s),
    decreases s.len(),
{
    if k == s.len() {
        assert(s.take(k) =~= s);
    } else {
        assert(s.drop_last().take(k) =~= s.take(k));
        lemma_value_grows(s.drop_last(), k);
        assert(is_decimal(s[s.len() - 1]));
    }
}

/// The number that a text stands for, where it is one up to `max`.
pub fn parse_number(s: &Vec<char>, max: u64) -> (r: Option<u64>)
    ensures
        r is Some == is_number(s@, max as nat),
        r matches Some(n) ==> n == value_of(digits_part(s@)) && n <= max,
{
    let start: usize = if s.len() > 0 && s[0] == '+' {
        1
    } else {
        0
    };
    let ghost d = digits_part(s@);
    assert(d =~= s@.skip(start as int));
    if s.len() == start {
        return None;
    }
    let mut n: u64 = 0;
    let mut i: usize = start;
    assert(d.take(0).len() == 0);
    while i < s.len()
        invariant
            start <= i <= s@.len(),
            start < s@.len(),
            d == s@.skip(start as int),
            d == digits_part(s@),
            n == value_of(d.take(i - start)),
            n <= max,
            forall|j: int| 0 <= j < i - start ==> is_decimal(#[trigger] d[j]),
        decreases s@.len() - i,
    {
        let c: char = s[i];
        assert(d[i - start] == c);
        if !('0' <= c && c <= '9') {
            assert(!is_decimal(d[i - start]));
            return None;
        }
        let v: u64 = (c as u32 - 0x30) as u64;
        let ghost t = d.take(i - start + 1);
        assert(t.drop_last() =~= d.take(i - start));
        if v > max || n > (max - v) / 10 {
            proof {
                assert(value_of(t) > max) by {
                    assert(value_of(t) == n * 10 + v);
                }
                if forall|j: int| 0 <= j < d.len() ==> is_decimal(#[trigger] d[j]) {
                    lemma_value_grows(d, i - start + 1);
                }
            }
            return None;
        }
        n = n * 10 + v;
        i += 1;
    }
    assert(d.take(i - start) =~= d);
    Some(n)
}

} // verus!
