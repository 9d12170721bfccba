//! Queries over a package catalog: substring search and exact lookup, in the
//! order the index store presents them.

use vstd::prelude::*;
use crate::package::PackageManifest;
use crate::text::to_chars;

verus! {

/// `q` occurs in `s` at position `i`.
pub open spec fn occurs_at(s: Seq<char>, q: Seq<char>, i: int) -> bool {
    0 <= i && i + q.len() <= s.len() && s.subrange(i, i + q.len()) == q
}

pub open spec fn contains_sub(s: Seq<char>, q: Seq<char>) -> bool {
    exists|i: int| occurs_at(s, q, i)
}

/// Text order, character by character; a proper prefix comes first.
pub open spec fn text_lt_from(a: Seq<char>, b: Seq<char>, i: int) -> bool
    decreases a.len() - i,
{
    if i < 0 || i >= a.len() {
        i >= 0 && i < b.len()
    } else if i >= b.len() {
        false
    } else if a[i] != b[i] {
        a[i] < b[i]
    } else {
        text_lt_from(a, b, i + 1)
    }
}

pub open spec fn text_lt(a: Seq<char>, b: Seq<char>) -> bool {
    text_lt_from(a, b, 0)
}

/// `x` is listed before `y`: by name ascending, then version descending.
pub open spec fn listed_before(x: PackageManifest, y: PackageManifest) -> bool {
    text_lt(x.name@, y.name@) || (x.name@ == y.name@ && text_lt(y.version@, x.version@))
}

proof fn lemma_text_order(a: Seq<char>, b: Seq<char>, c: Seq<char>, i: int)
    requires
        0 <= i,
    ensures
        !(text_lt_from(a, b, i) && text_lt_from(b, a, i)),
        text_lt_from(a, b, i) && text_lt_from(b, c, i) ==> text_lt_from(a, c, i),
        !text_lt_from(a, b, i) && !text_lt_from(b, a, i) && i <= a.len() && i <= b.len() ==> a.subrange(i, a.len() as int) == b.subrange(i, b.len() as int),
    decreases a.len() - i,
{
    if i < a.len() && i < b.len() && a[i] == b[i] {
        lemma_text_order(a, b, c, i + 1);
        if !text_lt_from(a, b, i) && !text_lt_from(b, a, i) {
            assert(a.subrange(i, a.len() as int) =~= seq![a[i]] + a.subrange(i + 1, a.len() as int));
            assert(b.subrange(i, b.len() as int) =~= seq![b[i]] + b.subrange(i + 1, b.len() as int));
        }
    } else if i == a.len() && i == b.len() {
        assert(a.subrange(i, a.len() as int) =~= b.subrange(i, b.len() as int));
    }
    if i < a.len() && i < b.len() && i < c.len() && a[i] == b[i] && b[i] != c[i] {
    }
}

proof fn lemma_before_order(x: PackageManifest, y: PackageManifest, z: PackageManifest)
    ensures
        !(listed_before(x, y) && listed_before(y, x)),
        listed_before(x, y) && listed_before(y, z) ==> listed_before(x, z),
        !listed_before(x, y) && !listed_before(y, x) ==> x.name@ == y.name@ && x.version@ == y.version@,
{
    lemma_text_order(x.name@, y.name@, z.name@, 0);
    lemma_text_order(y.version@, x.version@, z.version@, 0);
    lemma_text_order(z.version@, y.version@, x.version@, 0);
    lemma_text_order(x.name@, z.name@, y.name@, 0);
    assert(x.name@.subrange(0, x.name@.len() as int) =~= x.name@);
    assert(y.name@.subrange(0, y.name@.len() as int) =~= y.name@);
    assert(x.version@.subrange(0, x.version@.len() as int) =~= x.version@);
    assert(y.version@.subrange(0, y.version@.len() as int) =~= y.version@);
}

fn occurs(s: &Vec<char>, q: &Vec<char>, i: usize) -> (r: bool)
    requires
        i + q.len() <= s.len(),
    ensures
        r == occurs_at(s@, q@, i as int),
{
    let mut k: usize = 0;
    while k < q.len()
        invariant
            k <= q.len(),
            i + q.len() <= s.len(),
            forall|m: int| 0 <= m < k ==> s@[i + m] == q@[m],
        decreases q.len() - k,
    {
        if s[i + k] != q[k] {
            assert(s@.subrange(i as int, i + q.len())[k as int] != q@[k as int]);
            return false;
        }
        k = k + 1;
    }
    assert(s@.subrange(i as int, i + q.len()) =~= q@);
    true
}

/// Whether `q` occurs in `s`.
pub fn contains_chars(s: &Vec<char>, q: &Vec<char>) -> (r: bool)
    ensures
        r == contains_sub(s@, q@),
{
    if q.len() > s.len() {
        return false;
    }
    let last = s.len() - q.len();
    let mut i: usize = 0;
    loop
        invariant
            q.len() <= s.len(),
            last == s.len() - q.len(),
            i <= last,
            forall|j: int| 0 <= j < i ==> !occurs_at(s@, q@, j),
        ensures
            forall|j: int| 0 <= j <= last ==> !occurs_at(s@, q@, j),
        decreases last - i,
    {
        if occurs(s, q, i) {
            return true;
        }
        if i == last {
            break;
        }
        i = i + 1;
    }
    assert forall|j: int| !occurs_at(s@, q@, j) by {
        if 0 <= j && j <= last {
        }
    }
    false
}

fn text_less(a: &Vec<char>, b: &Vec<char>) -> (r: bool)
    ensures
        r == text_lt(a@, b@),
{
    let mut i: usize = 0;
    while i < a.len() && i < b.len() && a[i] == b[i]
        invariant
            i <= a.len(),
            i <= b.len(),
            text_lt(a@, b@) == text_lt_from(a@, b@, i as int),
        decreases a.len() - i,
    {
        i = i + 1;
    }
    if i >= a.len() {
        i < b.len()
    } else if i >= b.len() {
        false
    } else {
        a[i] < b[i]
    }
}

fn before(x: &PackageManifest, y: &PackageManifest) -> (r: bool)
    ensures
        r == listed_before(*x, *y),
{
    let xn = to_chars(x.name.as_str());
    let yn = to_chars(y.name.as_str());
    if text_less(&xn, &yn) {
        return true;
    }
    if x.name != y.name {
        return false;
    }
    text_less(&to_chars(y.version.as_str()), &to_chars(x.version.as_str()))
}

/// The positions of the packages whose name contains `query`, each once,
/// ordered by name ascending and then version descending.
pub fn search(packages: &Vec<PackageManifest>, query: &str) -> (r: Vec<usize>)
    ensures
        forall|a: int| 0 <= a < r@.len() ==> (#[trigger] r@[a]) < packages@.len() && contains_sub(
            packages@[r@[a] as int].name@,
            query@,
        ),
        forall|k: int|
            0 <= k < packages@.len() && contains_sub(#[trigger] packages@[k].name@, query@) ==> exists|a: int|
                0 <= a < r@.len() && r@[a] == k,
        forall|a: int, b: int| 0 <= a < b < r@.len() ==> r@[a] != r@[b],
        forall|a: int, b: int|
            0 <= a < b < r@.len() ==> !listed_before(
                packages@[#[trigger] r@[b] as int],
                packages@[#[trigger] r@[a] as int],
            ),
{
    let q = to_chars(query);
    let mut r: Vec<usize> = Vec::new();
    let mut k: usize = 0;
    while k < packages.len()
        invariant
            k <= packages@.len(),
            q@ == query@,
            forall|a: int| 0 <= a < r@.len() ==> (#[trigger] r@[a]) < k && contains_sub(
                packages@[r@[a] as int].name@,
                query@,
            ),
            forall|j: int|
                0 <= j < k && contains_sub(#[trigger] packages@[j].name@, query@) ==> exists|a: int|
                    0 <= a < r@.len() && r@[a] == j,
            forall|a: int, b: int| 0 <= a < b < r@.len() ==> r@[a] != r@[b],
            forall|a: int, b: int|
                0 <= a < b < r@.len() ==> !listed_before(
                    packages@[#[trigger] r@[b] as int],
                    packages@[#[trigger] r@[a] as int],
                ),
        decreases packages.len() - k,
    {
        let n = to_chars(packages[k].name.as_str());
        if contains_chars(&n, &q) {
            let mut pos: usize = r.len();
            while pos > 0 && before(&packages[k], &packages[r[pos - 1]])
                invariant
                    pos <= r@.len(),
                    k < packages@.len(),
                    forall|a: int| 0 <= a < r@.len() ==> (#[trigger] r@[a]) < k,
                    forall|a: int|
                        pos <= a < r@.len() ==> listed_before(
                            packages@[k as int],
                            packages@[#[trigger] r@[a] as int],
                        ),
                decreases pos,
            {
                pos = pos - 1;
            }
            let ghost old_r = r@;
            r.insert(pos, k);
            proof {
                assert forall|a: int, b: int| 0 <= a < b < r@.len() implies !listed_before(
                    packages@[#[trigger] r@[b] as int],
                    packages@[#[trigger] r@[a] as int],
                ) by {
                    let x = packages@[r@[a] as int];
                    let y = packages@[r@[b] as int];
                    let pk = packages@[k as int];
                    if a < pos && b < pos {
                        assert(r@[a] == old_r[a] && r@[b] == old_r[b]);
                    } else if a > pos && b > pos {
                        assert(r@[a] == old_r[a - 1] && r@[b] == old_r[b - 1]);
                    } else if a == pos {
                        assert(r@[b] == old_r[b - 1]);
                        assert(listed_before(pk, y));
                        lemma_before_order(pk, y, pk);
                    } else if b == pos {
                        assert(r@[a] == old_r[a]);
                        if pos > 0 {
                            assert(a <= pos - 1);
                            let w = packages@[old_r[pos - 1] as int];
                            assert(!listed_before(pk, w));
                            if a < pos - 1 {
                                assert(!listed_before(w, x));
                                lemma_before_order(pk, x, w);
                                lemma_before_order(x, w, pk);
                                lemma_before_order(pk, w, x);
                            }
                        }
                    } else {
                        assert(a < pos && b > pos);
                        assert(r@[a] == old_r[a] && r@[b] == old_r[b - 1]);
                    }
                }
                assert forall|j: int|
                    0 <= j < k + 1 && contains_sub(#[trigger] packages@[j].name@, query@) implies exists|a: int|
                        0 <= a < r@.len() && r@[a] == j by {
                    if j == k {
                        assert(r@[pos as int] == k);
                    } else {
                        let a0 = choose|a: int| 0 <= a < old_r.len() && old_r[a] == j;
                        if a0 < pos {
                            assert(r@[a0] == j);
                        } else {
                            assert(r@[a0 + 1] == j);
                        }
                    }
                }
            }
        }
        k = k + 1;
    }
    r
}

} // verus!
