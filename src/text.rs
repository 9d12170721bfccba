//! Character-level helpers shared by the parsers: whitespace, trimming,
//! splitting and searching over sequences of characters.

use vstd::prelude::*;

verus! {

/// `String::push` appends one character.
pub assume_specification[ String::push ](s: &mut String, c: char)
    ensures
        final(s)@ == old(s)@.push(c),
;

/// The Unicode `White_Space` characters, as `char::is_whitespace` knows them.
pub open spec fn is_ws(c: char) -> bool {
    ('\u{9}' <= c && c <= '\u{d}') || c == ' ' || c == '\u{85}' || c == '\u{a0}'
        || c == '\u{1680}' || ('\u{2000}' <= c && c <= '\u{200a}') || c == '\u{2028}'
        || c == '\u{2029}' || c == '\u{202f}' || c == '\u{205f}' || c == '\u{3000}'
}

pub open spec fn is_digit(c: char) -> bool {
    '0' <= c && c <= '9'
}

pub open spec fn is_ascii_alpha(c: char) -> bool {
    ('a' <= c && c <= 'z') || ('A' <= c && c <= 'Z')
}

pub open spec fn is_ascii_alnum(c: char) -> bool {
    is_digit(c) || is_ascii_alpha(c)
}

pub fn ws(c: char) -> (r: bool)
    ensures
        r == is_ws(c),
{
    ('\u{9}' <= c && c <= '\u{d}') || c == ' ' || c == '\u{85}' || c == '\u{a0}' || c
        == '\u{1680}' || ('\u{2000}' <= c && c <= '\u{200a}') || c == '\u{2028}' || c
        == '\u{2029}' || c == '\u{202f}' || c == '\u{205f}' || c == '\u{3000}'
}

pub fn digit(c: char) -> (r: bool)
    ensures
        r == is_digit(c),
{
    '0' <= c && c <= '9'
}

pub fn ascii_alpha(c: char) -> (r: bool)
    ensures
        r == is_ascii_alpha(c),
{
    ('a' <= c && c <= 'z') || ('A' <= c && c <= 'Z')
}

/// First index at or after `i` that is not whitespace (or the length).
pub open spec fn ws_end(s: Seq<char>, i: int) -> int
    decreases s.len() - i,
{
    if 0 <= i < s.len() && is_ws(s[i]) {
        ws_end(s, i + 1)
    } else {
        i
    }
}

/// Start of the whitespace run that ends at `j`, not going below `lo`.
pub open spec fn ws_start(s: Seq<char>, lo: int, j: int) -> int
    decreases j - lo,
{
    if lo < j <= s.len() && is_ws(s[j - 1]) {
        ws_start(s, lo, j - 1)
    } else {
        j
    }
}

/// `s` without leading and trailing whitespace.
pub open spec fn trim(s: Seq<char>) -> Seq<char> {
    let a = ws_end(s, 0);
    s.subrange(a, ws_start(s, a, s.len() as int))
}

pub proof fn lemma_ws_end_bounds(s: Seq<char>, i: int)
    requires
        0 <= i <= s.len(),
    ensures
        i <= ws_end(s, i) <= s.len(),
    decreases s.len() - i,
{
    if i < s.len() && is_ws(s[i]) {
        lemma_ws_end_bounds(s, i + 1);
    }
}

pub proof fn lemma_ws_start_bounds(s: Seq<char>, lo: int, j: int)
    requires
        0 <= lo <= j <= s.len(),
    ensures
        lo <= ws_start(s, lo, j) <= j,
    decreases j - lo,
{
    if lo < j && is_ws(s[j - 1]) {
        lemma_ws_start_bounds(s, lo, j - 1);
    }
}

/// The characters of `s`, in order.
pub fn to_chars(s: &str) -> (r: Vec<char>)
    ensures
        r@ == s@,
{
    let mut r: Vec<char> = Vec::new();
    for c in iter: s.chars()
        invariant
            iter.seq() == s@,
            r@ == s@.take(iter.index() as int),
    {
        r.push(c);
    }
    assert(r@ =~= s@);
    r
}

/// A string holding the characters `s[lo..hi]`.
pub fn string_of(s: &Vec<char>, lo: usize, hi: usize) -> (r: String)
    requires
        lo <= hi <= s.len(),
    ensures
        r@ == s@.subrange(lo as int, hi as int),
{
    let mut r = String::new();
    let mut i = lo;
    while i < hi
        invariant
            lo <= i <= hi <= s.len(),
            r@ == s@.subrange(lo as int, i as int),
        decreases hi - i,
    {
        r.push(s[i]);
        assert(r@ =~= s@.subrange(lo as int, i + 1));
        i = i + 1;
    }
    r
}

/// The characters `s[lo..hi]`.
pub fn slice_of(s: &Vec<char>, lo: usize, hi: usize) -> (r: Vec<char>)
    requires
        lo <= hi <= s.len(),
    ensures
        r@ == s@.subrange(lo as int, hi as int),
{
    let mut r: Vec<char> = Vec::new();
    let mut i = lo;
    while i < hi
        invariant
            lo <= i <= hi <= s.len(),
            r@ == s@.subrange(lo as int, i as int),
        decreases hi - i,
    {
        r.push(s[i]);
        assert(r@ =~= s@.subrange(lo as int, i + 1));
        i = i + 1;
    }
    r
}

/// Bounds `(a, b)` of `s` with the surrounding whitespace left out.
pub fn trim_bounds(s: &Vec<char>) -> (r: (usize, usize))
    ensures
        r.0 == ws_end(s@, 0),
        r.1 == ws_start(s@, r.0 as int, s.len() as int),
        r.0 <= r.1 <= s.len(),
        s@.subrange(r.0 as int, r.1 as int) == trim(s@),
{
    let mut a: usize = 0;
    while a < s.len() && ws(s[a])
        invariant
            a <= s.len(),
            ws_end(s@, 0) == ws_end(s@, a as int),
        decreases s.len() - a,
    {
        a = a + 1;
    }
    let mut b: usize = s.len();
    while b > a && ws(s[b - 1])
        invariant
            a <= b <= s.len(),
            ws_start(s@, a as int, s.len() as int) == ws_start(s@, a as int, b as int),
        decreases b - a,
    {
        b = b - 1;
    }
    (a, b)
}

/// `s` with the surrounding whitespace left out.
pub fn trim_chars(s: &Vec<char>) -> (r: Vec<char>)
    ensures
        r@ == trim(s@),
{
    let (a, b) = trim_bounds(s);
    slice_of(s, a, b)
}

/// Index of the first `c` at or after `i`, or -1.
pub open spec fn find_from(s: Seq<char>, c: char, i: int) -> int
    decreases s.len() - i,
{
    if i < 0 || i >= s.len() {
        -1
    } else if s[i] == c {
        i
    } else {
        find_from(s, c, i + 1)
    }
}

/// Index of the first `c` in `s`, or -1.
pub open spec fn find(s: Seq<char>, c: char) -> int {
    find_from(s, c, 0)
}

/// Index of the last `c` before `j`, or -1.
pub open spec fn rfind_before(s: Seq<char>, c: char, j: int) -> int
    decreases j,
{
    if j <= 0 || j > s.len() {
        -1
    } else if s[j - 1] == c {
        j - 1
    } else {
        rfind_before(s, c, j - 1)
    }
}

/// Index of the last `c` in `s`, or -1.
pub open spec fn rfind(s: Seq<char>, c: char) -> int {
    rfind_before(s, c, s.len() as int)
}

pub proof fn lemma_find_from_bounds(s: Seq<char>, c: char, i: int)
    requires
        0 <= i,
    ensures
        find_from(s, c, i) == -1 || (i <= find_from(s, c, i) < s.len() && 0 <= i && s[find_from(
            s,
            c,
            i,
        )] == c),
        forall|k: int| i <= k < s.len() && (find_from(s, c, i) == -1 || k < find_from(s, c, i)) ==> s[k] != c,
    decreases s.len() - i,
{
    if 0 <= i < s.len() && s[i] != c {
        lemma_find_from_bounds(s, c, i + 1);
    }
}

/// Index of the first `c` in `s[i..]`, or `s.len()` when there is none.
pub fn find_char(s: &Vec<char>, c: char, i: usize) -> (r: usize)
    requires
        i <= s.len(),
    ensures
        r == s.len() <==> find_from(s@, c, i as int) == -1,
        r < s.len() ==> r == find_from(s@, c, i as int),
        i <= r <= s.len(),
{
    let mut k = i;
    while k < s.len() && s[k] != c
        invariant
            i <= k <= s.len(),
            find_from(s@, c, i as int) == find_from(s@, c, k as int),
        decreases s.len() - k,
    {
        k = k + 1;
    }
    k
}

/// Index of the last `c` in `s`, if any.
pub fn rfind_char(s: &Vec<char>, c: char) -> (r: Option<usize>)
    ensures
        r is None <==> rfind(s@, c) == -1,
        r matches Some(k) ==> k == rfind(s@, c) && k < s.len(),
{
    let mut j = s.len();
    while j > 0 && s[j - 1] != c
        invariant
            j <= s.len(),
            rfind(s@, c) == rfind_before(s@, c, j as int),
        decreases j,
    {
        j = j - 1;
    }
    if j == 0 {
        None
    } else {
        Some(j - 1)
    }
}

/// The pieces of `s[start..]` between occurrences of `c`, scanning from `i`.
pub open spec fn split_from(s: Seq<char>, c: char, start: int, i: int) -> Seq<Seq<char>>
    decreases s.len() - i,
{
    if i >= s.len() || i < start || start < 0 {
        seq![s.subrange(start, s.len() as int)]
    } else if s[i] == c {
        seq![s.subrange(start, i)] + split_from(s, c, i + 1, i + 1)
    } else {
        split_from(s, c, start, i + 1)
    }
}

/// The pieces of `s` between occurrences of `c`, as `str::split` gives them.
pub open spec fn split(s: Seq<char>, c: char) -> Seq<Seq<char>> {
    split_from(s, c, 0, 0)
}

/// The pieces of `s` between occurrences of `c`.
pub fn split_chars(s: &Vec<char>, c: char) -> (r: Vec<Vec<char>>)
    ensures
        r@.map_values(|v: Vec<char>| v@) == split(s@, c),
{
    let mut out: Vec<Vec<char>> = Vec::new();
    let mut start: usize = 0;
    let mut i: usize = 0;
    while i < s.len()
        invariant
            start <= i <= s.len(),
            out@.map_values(|v: Vec<char>| v@) + split_from(s@, c, start as int, i as int) == split(
                s@,
                c,
            ),
        decreases s.len() - i,
    {
        if s[i] == c {
            let piece = slice_of(s, start, i);
            let ghost before = out@.map_values(|v: Vec<char>| v@);
            out.push(piece);
            assert(out@.map_values(|v: Vec<char>| v@) =~= before.push(piece@));
            assert(before + split_from(s@, c, start as int, i as int) =~= before.push(piece@)
                + split_from(s@, c, (i + 1) as int, (i + 1) as int));
            start = i + 1;
        }
        i = i + 1;
    }
    let piece = slice_of(s, start, s.len());
    let ghost before = out@.map_values(|v: Vec<char>| v@);
    out.push(piece);
    assert(out@.map_values(|v: Vec<char>| v@) =~= before.push(piece@));
    assert(before.push(piece@) =~= before + split_from(s@, c, start as int, i as int));
    out
}

/// Whether `s` begins with `p`.
pub open spec fn starts_with(s: Seq<char>, p: Seq<char>) -> bool {
    p.len() <= s.len() && s.take(p.len() as int) == p
}

pub fn has_prefix(s: &Vec<char>, p: &str) -> (r: bool)
    ensures
        r == starts_with(s@, p@),
{
    let pc = to_chars(p);
    if pc.len() > s.len() {
        return false;
    }
    let mut i: usize = 0;
    while i < pc.len()
        invariant
            i <= pc.len() <= s.len(),
            pc@ == p@,
            s@.take(i as int) == pc@.take(i as int),
        decreases pc.len() - i,
    {
        if s[i] != pc[i] {
            assert(s@.take(pc.len() as int)[i as int] != pc@[i as int]);
            return false;
        }
        assert(s@.take(i + 1) =~= pc@.take(i + 1));
        i = i + 1;
    }
    assert(pc@.take(pc.len() as int) =~= pc@);
    true
}

/// Whether `s` ends with `p`.
pub open spec fn ends_with(s: Seq<char>, p: Seq<char>) -> bool {
    p.len() <= s.len() && s.skip(s.len() - p.len()) == p
}

pub fn has_suffix(s: &Vec<char>, p: &str) -> (r: bool)
    ensures
        r == ends_with(s@, p@),
{
    let pc = to_chars(p);
    if pc.len() > s.len() {
        return false;
    }
    let off = s.len() - pc.len();
    let mut i: usize = 0;
    while i < pc.len()
        invariant
            i <= pc.len() <= s.len(),
            off == s.len() - pc.len(),
            pc@ == p@,
            forall|k: int| 0 <= k < i ==> s@[off + k] == pc@[k],
        decreases pc.len() - i,
    {
        if s[off + i] != pc[i] {
            assert(s@.skip(off as int)[i as int] != pc@[i as int]);
            return false;
        }
        i = i + 1;
    }
    assert(s@.skip(off as int) =~= pc@);
    true
}

/// Whether the characters of `s` equal those of `t`.
pub fn eq_str(s: &Vec<char>, t: &str) -> (r: bool)
    ensures
        r == (s@ == t@),
{
    let b = has_prefix(s, t);
    if b && s.len() == t.unicode_len() {
        assert(s@ =~= s@.take(t@.len() as int));
        true
    } else {
        proof {
            if s@ == t@ {
                assert(s@.take(t@.len() as int) =~= t@);
            }
        }
        false
    }
}

/// Whether two character sequences are equal.
pub fn eq_chars(s: &Vec<char>, t: &Vec<char>) -> (r: bool)
    ensures
        r == (s@ == t@),
{
    if s.len() != t.len() {
        return false;
    }
    let mut i: usize = 0;
    while i < s.len()
        invariant
            i <= s.len() == t.len(),
            forall|k: int| 0 <= k < i ==> s@[k] == t@[k],
        decreases s.len() - i,
    {
        if s[i] != t[i] {
            return false;
        }
        i = i + 1;
    }
    assert(s@ =~= t@);
    true
}

/// End of the run of non-whitespace characters that starts at `i`.
pub open spec fn word_end(s: Seq<char>, i: int) -> int
    decreases s.len() - i,
{
    if 0 <= i < s.len() && !is_ws(s[i]) {
        word_end(s, i + 1)
    } else {
        i
    }
}

/// The whitespace-separated words of `s` from position `i`, as
/// `str::split_whitespace` gives them.
pub open spec fn words_from(s: Seq<char>, i: int) -> Seq<Seq<char>>
    decreases s.len() - i,
{
    if i < 0 || i >= s.len() {
        seq![]
    } else if is_ws(s[i]) {
        words_from(s, i + 1)
    } else {
        let d = word_end(s, i);
        let e = if i < d <= s.len() {
            d
        } else {
            i + 1
        };
        seq![s.subrange(i, e)] + words_from(s, e)
    }
}

pub open spec fn words(s: Seq<char>) -> Seq<Seq<char>> {
    words_from(s, 0)
}

/// The whitespace-separated words of `s`.
pub fn split_words(s: &Vec<char>) -> (r: Vec<Vec<char>>)
    ensures
        r@.map_values(|v: Vec<char>| v@) == words(s@),
{
    let mut out: Vec<Vec<char>> = Vec::new();
    let mut i: usize = 0;
    while i < s.len()
        invariant
            i <= s.len(),
            out@.map_values(|v: Vec<char>| v@) + words_from(s@, i as int) == words(s@),
        decreases s.len() - i,
    {
        if !ws(s[i]) {
            let mut j = i;
            while j < s.len() && !ws(s[j])
                invariant
                    i <= j <= s.len(),
                    word_end(s@, i as int) == word_end(s@, j as int),
                decreases s.len() - j,
            {
                j = j + 1;
            }
            let piece = slice_of(s, i, j);
            let ghost before = out@.map_values(|v: Vec<char>| v@);
            out.push(piece);
            assert(out@.map_values(|v: Vec<char>| v@) =~= before.push(piece@));
            assert(before + words_from(s@, i as int) =~= before.push(piece@) + words_from(
                s@,
                j as int,
            ));
            i = j;
        } else {
            i = i + 1;
        }
    }
    assert(out@.map_values(|v: Vec<char>| v@) =~= words(s@));
    out
}

} // verus!
