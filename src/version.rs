//! Debian-style version ordering: `[epoch:]upstream[-revision]`, where the
//! upstream and revision parts are compared by their runs of decimal digits.

use std::cmp::Ordering;
use vstd::prelude::*;
use crate::text::{
    digit, find, find_char, has_prefix, is_digit, lemma_find_from_bounds, rfind, rfind_char,
    slice_of, starts_with, to_chars, trim, trim_chars, is_ws, ws_end, ws_start,
    lemma_ws_end_bounds, lemma_ws_start_bounds,
};

verus! {

pub open spec fn cmp_int(a: int, b: int) -> Ordering {
    if a < b {
        Ordering::Less
    } else if a > b {
        Ordering::Greater
    } else {
        Ordering::Equal
    }
}

pub open spec fn flip(o: Ordering) -> Ordering {
    match o {
        Ordering::Less => Ordering::Greater,
        Ordering::Greater => Ordering::Less,
        Ordering::Equal => Ordering::Equal,
    }
}

/// End of the run of digits that starts at `i`.
pub open spec fn digit_end(s: Seq<char>, i: int) -> int
    decreases s.len() - i,
{
    if 0 <= i < s.len() && is_digit(s[i]) {
        digit_end(s, i + 1)
    } else {
        i
    }
}

/// End of the run of `'0'` that starts at `i`.
pub open spec fn zero_end(s: Seq<char>, i: int) -> int
    decreases s.len() - i,
{
    if 0 <= i < s.len() && s[i] == '0' {
        zero_end(s, i + 1)
    } else {
        i
    }
}

/// A digit string without its leading zeros: the canonical form of its value.
pub open spec fn strip_zeros(d: Seq<char>) -> Seq<char> {
    d.skip(zero_end(d, 0))
}

/// The numeric components of `s` from position `i`: each maximal run of
/// digits, in canonical form.
pub open spec fn comps_from(s: Seq<char>, i: int) -> Seq<Seq<char>>
    decreases s.len() - i,
{
    if i < 0 || i >= s.len() {
        seq![]
    } else if !is_digit(s[i]) {
        comps_from(s, i + 1)
    } else {
        let d = digit_end(s, i);
        let e = if i < d <= s.len() {
            d
        } else {
            i + 1
        };
        seq![strip_zeros(s.subrange(i, e))] + comps_from(s, e)
    }
}

pub open spec fn comps(s: Seq<char>) -> Seq<Seq<char>> {
    comps_from(s, 0)
}

/// Lexicographic order of two digit strings from position `i`.
pub open spec fn lex_from(a: Seq<char>, b: Seq<char>, i: int) -> Ordering
    decreases a.len() - i,
{
    if i < 0 || i >= a.len() || i >= b.len() {
        cmp_int(a.len() as int, b.len() as int)
    } else if a[i] < b[i] {
        Ordering::Less
    } else if a[i] > b[i] {
        Ordering::Greater
    } else {
        lex_from(a, b, i + 1)
    }
}

/// Order of two canonical digit strings by numeric value: the shorter is
/// smaller, and equal lengths compare digit by digit.
pub open spec fn cmp_digits(a: Seq<char>, b: Seq<char>) -> Ordering {
    if a.len() != b.len() {
        cmp_int(a.len() as int, b.len() as int)
    } else {
        lex_from(a, b, 0)
    }
}

/// Component-wise order from position `i`; where one list is a prefix of the
/// other, the longer is greater.
pub open spec fn cmp_comps_from(x: Seq<Seq<char>>, y: Seq<Seq<char>>, i: int) -> Ordering
    decreases x.len() - i,
{
    if i < 0 || i >= x.len() || i >= y.len() {
        cmp_int(x.len() as int, y.len() as int)
    } else if cmp_digits(x[i], y[i]) != Ordering::Equal {
        cmp_digits(x[i], y[i])
    } else {
        cmp_comps_from(x, y, i + 1)
    }
}

pub open spec fn cmp_comps(x: Seq<Seq<char>>, y: Seq<Seq<char>>) -> Ordering {
    cmp_comps_from(x, y, 0)
}

pub open spec fn all_digits(s: Seq<char>) -> bool {
    forall|k: int| 0 <= k < s.len() ==> is_digit(#[trigger] s[k])
}

/// The text before the first `':'`, if there is one.
pub open spec fn epoch_text(v: Seq<char>) -> Seq<char> {
    if find(v, ':') >= 0 {
        v.take(find(v, ':'))
    } else {
        seq![]
    }
}

/// The epoch as a canonical digit string; a missing or non-numeric epoch is 0.
pub open spec fn epoch_of(v: Seq<char>) -> Seq<char> {
    let e = epoch_text(v);
    if e.len() > 0 && all_digits(e) {
        strip_zeros(e)
    } else {
        seq![]
    }
}

pub open spec fn after_epoch(v: Seq<char>) -> Seq<char> {
    if find(v, ':') >= 0 {
        v.skip(find(v, ':') + 1)
    } else {
        v
    }
}

/// The upstream part: what follows the epoch, up to the last `'-'`.
pub open spec fn upstream_of(v: Seq<char>) -> Seq<char> {
    let r = after_epoch(v);
    if rfind(r, '-') >= 0 {
        r.take(rfind(r, '-'))
    } else {
        r
    }
}

/// The revision part: what follows the last `'-'`, or nothing.
pub open spec fn revision_of(v: Seq<char>) -> Seq<char> {
    let r = after_epoch(v);
    if rfind(r, '-') >= 0 {
        r.skip(rfind(r, '-') + 1)
    } else {
        seq![]
    }
}

/// The order of two versions: epoch, then upstream components, then revision
/// components.
pub open spec fn version_cmp(v1: Seq<char>, v2: Seq<char>) -> Ordering {
    let e = cmp_digits(epoch_of(v1), epoch_of(v2));
    let u = cmp_comps(comps(upstream_of(v1)), comps(upstream_of(v2)));
    if e != Ordering::Equal {
        e
    } else if u != Ordering::Equal {
        u
    } else {
        cmp_comps(comps(revision_of(v1)), comps(revision_of(v2)))
    }
}

/// Whether `version` meets `constraint`: an operator among `>=`, `<=`, `>>`,
/// `<<`, `>`, `<`, `=` followed by a version; no operator means equality.
pub open spec fn version_matches_spec(version: Seq<char>, constraint: Seq<char>) -> bool {
    let c = trim(constraint);
    if starts_with(c, seq!['>', '=']) {
        version_cmp(version, trim(c.skip(2))) != Ordering::Less
    } else if starts_with(c, seq!['<', '=']) {
        version_cmp(version, trim(c.skip(2))) != Ordering::Greater
    } else if starts_with(c, seq!['>', '>']) {
        version_cmp(version, trim(c.skip(2))) == Ordering::Greater
    } else if starts_with(c, seq!['<', '<']) {
        version_cmp(version, trim(c.skip(2))) == Ordering::Less
    } else if starts_with(c, seq!['>']) {
        version_cmp(version, trim(c.skip(1))) == Ordering::Greater
    } else if starts_with(c, seq!['<']) {
        version_cmp(version, trim(c.skip(1))) == Ordering::Less
    } else if starts_with(c, seq!['=']) {
        version_cmp(version, trim(c.skip(1))) == Ordering::Equal
    } else {
        version_cmp(version, c) == Ordering::Equal
    }
}

proof fn lemma_lex_refl(a: Seq<char>, i: int)
    requires
        0 <= i,
    ensures
        lex_from(a, a, i) == Ordering::Equal,
    decreases a.len() - i,
{
    if i < a.len() {
        lemma_lex_refl(a, i + 1);
    }
}

proof fn lemma_lex_flip(a: Seq<char>, b: Seq<char>, i: int)
    requires
        0 <= i,
    ensures
        lex_from(b, a, i) == flip(lex_from(a, b, i)),
    decreases a.len() - i,
{
    if i < a.len() && i < b.len() && a[i] == b[i] {
        lemma_lex_flip(a, b, i + 1);
    }
}

proof fn lemma_lex_trans(a: Seq<char>, b: Seq<char>, c: Seq<char>, i: int)
    requires
        0 <= i,
        lex_from(a, b, i) != Ordering::Greater,
        lex_from(b, c, i) != Ordering::Greater,
    ensures
        lex_from(a, c, i) != Ordering::Greater,
        lex_from(a, b, i) == Ordering::Less || lex_from(b, c, i) == Ordering::Less ==> lex_from(
            a,
            c,
            i,
        ) == Ordering::Less,
    decreases a.len() - i,
{
    if i < a.len() && i < b.len() && i < c.len() && a[i] == b[i] && b[i] == c[i] {
        lemma_lex_trans(a, b, c, i + 1);
    }
}

proof fn lemma_digits_order(a: Seq<char>, b: Seq<char>, c: Seq<char>)
    ensures
        cmp_digits(a, a) == Ordering::Equal,
        cmp_digits(b, a) == flip(cmp_digits(a, b)),
        cmp_digits(a, b) != Ordering::Greater && cmp_digits(b, c) != Ordering::Greater ==> {
            &&& cmp_digits(a, c) != Ordering::Greater
            &&& (cmp_digits(a, b) == Ordering::Less || cmp_digits(b, c) == Ordering::Less)
                ==> cmp_digits(a, c) == Ordering::Less
        },
{
    lemma_lex_refl(a, 0);
    lemma_lex_flip(a, b, 0);
    if cmp_digits(a, b) != Ordering::Greater && cmp_digits(b, c) != Ordering::Greater {
        if a.len() == b.len() && b.len() == c.len() {
            lemma_lex_trans(a, b, c, 0);
        }
    }
}

proof fn lemma_comps_refl(x: Seq<Seq<char>>, i: int)
    requires
        0 <= i,
    ensures
        cmp_comps_from(x, x, i) == Ordering::Equal,
    decreases x.len() - i,
{
    if i < x.len() {
        lemma_digits_order(x[i], x[i], x[i]);
        lemma_comps_refl(x, i + 1);
    }
}

proof fn lemma_comps_flip(x: Seq<Seq<char>>, y: Seq<Seq<char>>, i: int)
    requires
        0 <= i,
    ensures
        cmp_comps_from(y, x, i) == flip(cmp_comps_from(x, y, i)),
    decreases x.len() - i,
{
    if i < x.len() && i < y.len() {
        lemma_digits_order(x[i], y[i], y[i]);
        lemma_comps_flip(x, y, i + 1);
    }
}

proof fn lemma_comps_trans(x: Seq<Seq<char>>, y: Seq<Seq<char>>, z: Seq<Seq<char>>, i: int)
    requires
        0 <= i,
        cmp_comps_from(x, y, i) != Ordering::Greater,
        cmp_comps_from(y, z, i) != Ordering::Greater,
    ensures
        cmp_comps_from(x, z, i) != Ordering::Greater,
        cmp_comps_from(x, y, i) == Ordering::Less || cmp_comps_from(y, z, i) == Ordering::Less
            ==> cmp_comps_from(x, z, i) == Ordering::Less,
    decreases x.len() - i,
{
    if i < x.len() && i < y.len() && i < z.len() {
        lemma_digits_order(x[i], y[i], z[i]);
        lemma_digits_order(y[i], z[i], x[i]);
        lemma_digits_order(x[i], z[i], y[i]);
        if cmp_digits(x[i], y[i]) == Ordering::Equal && cmp_digits(y[i], z[i]) == Ordering::Equal {
            lemma_comps_trans(x, y, z, i + 1);
        }
    }
}

proof fn lemma_comps_order(x: Seq<Seq<char>>, y: Seq<Seq<char>>, z: Seq<Seq<char>>)
    ensures
        cmp_comps(x, x) == Ordering::Equal,
        cmp_comps(y, x) == flip(cmp_comps(x, y)),
        cmp_comps(x, y) != Ordering::Greater && cmp_comps(y, z) != Ordering::Greater ==> {
            &&& cmp_comps(x, z) != Ordering::Greater
            &&& (cmp_comps(x, y) == Ordering::Less || cmp_comps(y, z) == Ordering::Less)
                ==> cmp_comps(x, z) == Ordering::Less
        },
{
    lemma_comps_refl(x, 0);
    lemma_comps_flip(x, y, 0);
    if cmp_comps(x, y) != Ordering::Greater && cmp_comps(y, z) != Ordering::Greater {
        lemma_comps_trans(x, y, z, 0);
    }
}

/// Version order is a total preorder: every version is equal to itself,
/// swapping the arguments flips the result, and "not greater" as well as
/// "less" carry over from `a, b` and `b, c` to `a, c`.
pub proof fn lemma_version_order(a: Seq<char>, b: Seq<char>, c: Seq<char>)
    ensures
        version_cmp(a, a) == Ordering::Equal,
        version_cmp(b, a) == flip(version_cmp(a, b)),
        version_cmp(a, b) != Ordering::Greater && version_cmp(b, c) != Ordering::Greater ==> {
            &&& version_cmp(a, c) != Ordering::Greater
            &&& (version_cmp(a, b) == Ordering::Less || version_cmp(b, c) == Ordering::Less)
                ==> version_cmp(a, c) == Ordering::Less
        },
{
    lemma_digits_order(epoch_of(a), epoch_of(b), epoch_of(c));
    lemma_digits_order(epoch_of(b), epoch_of(c), epoch_of(a));
    lemma_digits_order(epoch_of(a), epoch_of(c), epoch_of(b));
    lemma_comps_order(comps(upstream_of(a)), comps(upstream_of(b)), comps(upstream_of(c)));
    lemma_comps_order(comps(upstream_of(b)), comps(upstream_of(c)), comps(upstream_of(a)));
    lemma_comps_order(comps(upstream_of(a)), comps(upstream_of(c)), comps(upstream_of(b)));
    lemma_comps_order(comps(revision_of(a)), comps(revision_of(b)), comps(revision_of(c)));
    lemma_comps_order(comps(revision_of(b)), comps(revision_of(c)), comps(revision_of(a)));
    lemma_comps_order(comps(revision_of(a)), comps(revision_of(c)), comps(revision_of(b)));
}

/// The constraint `>= u` holds of `v` exactly when `v` is not less than `u`,
/// for every `u` without surrounding whitespace.
pub proof fn lemma_matches_at_least(v: Seq<char>, u: Seq<char>)
    requires
        trim(u) == u,
    ensures
        version_matches_spec(v, seq!['>', '=', ' '] + u) <==> version_cmp(v, u) != Ordering::Less,
{
    let c = seq!['>', '=', ' '] + u;
    let n = u.len() as int;
    lemma_ws_bounds(u);
    assert(ws_end(c, 0) == 0);
    if n > 0 {
        assert(c[n + 2] == u[n - 1]);
        assert(ws_start(c, 0, n + 3) == n + 3);
        assert(trim(c) =~= c);
        let rest = c.skip(2);
        assert(rest =~= seq![' '] + u);
        assert(rest[1] == u[0]);
        assert(ws_end(rest, 1) == 1);
        assert(ws_end(rest, 0) == 1);
        assert(rest[n] == u[n - 1]);
        assert(ws_start(rest, 1, n + 1) == n + 1);
        assert(trim(rest) =~= u);
    } else {
        assert(c =~= seq!['>', '=', ' ']);
        assert(ws_start(c, 0, 2) == 2);
        assert(trim(c) =~= seq!['>', '=']);
        assert(trim(c).skip(2) =~= seq![]);
        assert(trim(seq![]) =~= u);
    }
    assert(starts_with(trim(c), seq!['>', '='])) by {
        assert(trim(c).take(2) =~= seq!['>', '=']);
    }
}

/// A sequence equal to its own trim starts and ends with a non-space.
proof fn lemma_ws_bounds(u: Seq<char>)
    requires
        trim(u) == u,
    ensures
        u.len() > 0 ==> !is_ws(u[0]) && !is_ws(u[u.len() - 1]),
{
    if u.len() > 0 {
        lemma_ws_end_bounds(u, 0);
        let a = ws_end(u, 0);
        lemma_ws_start_bounds(u, a, u.len() as int);
        let b = ws_start(u, a, u.len() as int);
        assert(trim(u).len() == b - a);
        assert(a == 0);
        assert(b == u.len());
        lemma_ws_end_bounds(u, 1);
        lemma_ws_start_bounds(u, 0, u.len() - 1);
    }
}

// ---------------------------------------------------------------------------
// Executable side
// ---------------------------------------------------------------------------

fn cmp_usize(a: usize, b: usize) -> (r: Ordering)
    ensures
        r == cmp_int(a as int, b as int),
{
    if a < b {
        Ordering::Less
    } else if a > b {
        Ordering::Greater
    } else {
        Ordering::Equal
    }
}

/// `s[lo..hi]` without its leading zeros.
fn canonical_digits(s: &Vec<char>, lo: usize, hi: usize) -> (r: Vec<char>)
    requires
        lo <= hi <= s.len(),
    ensures
        r@ == strip_zeros(s@.subrange(lo as int, hi as int)),
{
    let ghost d = s@.subrange(lo as int, hi as int);
    let mut k = lo;
    while k < hi && s[k] == '0'
        invariant
            lo <= k <= hi <= s.len(),
            d == s@.subrange(lo as int, hi as int),
            zero_end(d, 0) == zero_end(d, k - lo),
        decreases hi - k,
    {
        assert(d[k - lo] == s@[k as int]);
        k = k + 1;
    }
    proof {
        if k < hi {
            assert(d[k - lo] == s@[k as int]);
        }
    }
    let r = slice_of(s, k, hi);
    assert(r@ =~= d.skip(k - lo));
    r
}

/// The numeric components of `s`.
fn components(s: &Vec<char>) -> (r: Vec<Vec<char>>)
    ensures
        r@.map_values(|v: Vec<char>| v@) == comps(s@),
{
    let mut out: Vec<Vec<char>> = Vec::new();
    let mut i: usize = 0;
    while i < s.len()
        invariant
            i <= s.len(),
            out@.map_values(|v: Vec<char>| v@) + comps_from(s@, i as int) == comps(s@),
        decreases s.len() - i,
    {
        if digit(s[i]) {
            let mut j = i;
            while j < s.len() && digit(s[j])
                invariant
                    i <= j <= s.len(),
                    digit_end(s@, i as int) == digit_end(s@, j as int),
                decreases s.len() - j,
            {
                j = j + 1;
            }
            let piece = canonical_digits(s, i, j);
            let ghost before = out@.map_values(|v: Vec<char>| v@);
            out.push(piece);
            assert(out@.map_values(|v: Vec<char>| v@) =~= before.push(piece@));
            assert(before + comps_from(s@, i as int) =~= before.push(piece@) + comps_from(
                s@,
                j as int,
            ));
            i = j;
        } else {
            i = i + 1;
        }
    }
    assert(out@.map_values(|v: Vec<char>| v@) =~= comps(s@));
    out
}

fn compare_digits(a: &Vec<char>, b: &Vec<char>) -> (r: Ordering)
    ensures
        r == cmp_digits(a@, b@),
{
    if a.len() != b.len() {
        return cmp_usize(a.len(), b.len());
    }
    let mut i: usize = 0;
    while i < a.len()
        invariant
            i <= a.len() == b.len(),
            lex_from(a@, b@, 0) == lex_from(a@, b@, i as int),
        decreases a.len() - i,
    {
        if a[i] < b[i] {
            return Ordering::Less;
        } else if a[i] > b[i] {
            return Ordering::Greater;
        }
        i = i + 1;
    }
    Ordering::Equal
}

fn compare_components(x: &Vec<Vec<char>>, y: &Vec<Vec<char>>) -> (r: Ordering)
    ensures
        r == cmp_comps(x@.map_values(|v: Vec<char>| v@), y@.map_values(|v: Vec<char>| v@)),
{
    let ghost xs = x@.map_values(|v: Vec<char>| v@);
    let ghost ys = y@.map_values(|v: Vec<char>| v@);
    let mut i: usize = 0;
    while i < x.len() && i < y.len()
        invariant
            i <= x.len(),
            i <= y.len(),
            xs == x@.map_values(|v: Vec<char>| v@),
            ys == y@.map_values(|v: Vec<char>| v@),
            cmp_comps(xs, ys) == cmp_comps_from(xs, ys, i as int),
        decreases x.len() - i,
    {
        let c = compare_digits(&x[i], &y[i]);
        assert(xs[i as int] == x@[i as int]@);
        assert(ys[i as int] == y@[i as int]@);
        match c {
            Ordering::Equal => {},
            _ => {
                return c;
            },
        }
        i = i + 1;
    }
    cmp_usize(x.len(), y.len())
}

/// The three parts of a version: epoch, upstream components, revision components.
fn split_version(v: &Vec<char>) -> (r: (Vec<char>, Vec<Vec<char>>, Vec<Vec<char>>))
    ensures
        r.0@ == epoch_of(v@),
        r.1@.map_values(|x: Vec<char>| x@) == comps(upstream_of(v@)),
        r.2@.map_values(|x: Vec<char>| x@) == comps(revision_of(v@)),
{
    let colon = find_char(v, ':', 0);
    proof {
        lemma_find_from_bounds(v@, ':', 0);
    }
    let epoch: Vec<char>;
    let rest: Vec<char>;
    if colon < v.len() {
        let mut ok = colon > 0;
        let mut k: usize = 0;
        while k < colon
            invariant
                k <= colon < v.len(),
                ok == (colon > 0 && forall|m: int| 0 <= m < k ==> is_digit(v@[m])),
            decreases colon - k,
        {
            if !digit(v[k]) {
                ok = false;
            }
            k = k + 1;
        }
        assert(ok == (epoch_text(v@).len() > 0 && all_digits(epoch_text(v@)))) by {
            assert(epoch_text(v@) =~= v@.take(colon as int));
            if !ok && colon > 0 {
                let m = choose|m: int| 0 <= m < colon && !is_digit(v@[m]);
                assert(epoch_text(v@)[m] == v@[m]);
            }
        }
        if ok {
            epoch = canonical_digits(v, 0, colon);
            assert(v@.subrange(0, colon as int) =~= epoch_text(v@));
        } else {
            epoch = Vec::new();
            assert(epoch@ =~= epoch_of(v@));
        }
        rest = slice_of(v, colon + 1, v.len());
        assert(rest@ =~= after_epoch(v@));
    } else {
        epoch = Vec::new();
        assert(epoch@ =~= epoch_of(v@));
        rest = slice_of(v, 0, v.len());
        assert(rest@ =~= after_epoch(v@));
    }
    let dash = rfind_char(&rest, '-');
    let up: Vec<char>;
    let rev: Vec<char>;
    match dash {
        Some(d) => {
            up = slice_of(&rest, 0, d);
            rev = slice_of(&rest, d + 1, rest.len());
            assert(up@ =~= upstream_of(v@));
            assert(rev@ =~= revision_of(v@));
        },
        None => {
            up = slice_of(&rest, 0, rest.len());
            rev = Vec::new();
            assert(up@ =~= upstream_of(v@));
            assert(rev@ =~= revision_of(v@));
        },
    }
    (epoch, components(&up), components(&rev))
}

/// Compares two versions given as characters.
pub fn compare_version_chars(v1: &Vec<char>, v2: &Vec<char>) -> (r: Ordering)
    ensures
        r == version_cmp(v1@, v2@),
{
    let (e1, u1, d1) = split_version(v1);
    let (e2, u2, d2) = split_version(v2);
    let e = compare_digits(&e1, &e2);
    match e {
        Ordering::Equal => {},
        _ => {
            return e;
        },
    }
    let u = compare_components(&u1, &u2);
    match u {
        Ordering::Equal => {},
        _ => {
            return u;
        },
    }
    compare_components(&d1, &d2)
}

/// Compares two Debian versions.
pub fn compare_versions(v1: &str, v2: &str) -> (r: Ordering)
    ensures
        r == version_cmp(v1@, v2@),
{
    let a = to_chars(v1);
    let b = to_chars(v2);
    compare_version_chars(&a, &b)
}

/// Whether `version` meets `constraint`.
pub fn version_matches(version: &str, constraint: &str) -> (r: bool)
    ensures
        r == version_matches_spec(version@, constraint@),
{
    let v = to_chars(version);
    let c = trim_chars(&to_chars(constraint));
    proof {
        reveal_strlit(">=");
        reveal_strlit("<=");
        reveal_strlit(">>");
        reveal_strlit("<<");
        reveal_strlit(">");
        reveal_strlit("<");
        reveal_strlit("=");
        assert(">="@ =~= seq!['>', '=']);
        assert("<="@ =~= seq!['<', '=']);
        assert(">>"@ =~= seq!['>', '>']);
        assert("<<"@ =~= seq!['<', '<']);
        assert(">"@ =~= seq!['>']);
        assert("<"@ =~= seq!['<']);
        assert("="@ =~= seq!['=']);
    }
    let (op_len, want): (usize, u8) = if has_prefix(&c, ">=") {
        (2, 0)
    } else if has_prefix(&c, "<=") {
        (2, 1)
    } else if has_prefix(&c, ">>") {
        (2, 2)
    } else if has_prefix(&c, "<<") {
        (2, 3)
    } else if has_prefix(&c, ">") {
        (1, 2)
    } else if has_prefix(&c, "<") {
        (1, 3)
    } else if has_prefix(&c, "=") {
        (1, 4)
    } else {
        (0, 4)
    };
    let o = if op_len == 0 {
        compare_version_chars(&v, &c)
    } else {
        let rest = trim_chars(&slice_of(&c, op_len, c.len()));
        assert(c@.subrange(op_len as int, c@.len() as int) =~= c@.skip(op_len as int));
        compare_version_chars(&v, &rest)
    };
    match want {
        0 => !matches!(o, Ordering::Less),
        1 => !matches!(o, Ordering::Greater),
        2 => matches!(o, Ordering::Greater),
        3 => matches!(o, Ordering::Less),
        _ => matches!(o, Ordering::Equal),
    }
}

} // verus!
