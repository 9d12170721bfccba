//! The local archive cache: where entries live and which ones to drop.
//!
//! Entries are files named `name_version_arch.ext` under `packages/`.

use vstd::prelude::*;
use vstd::string::StringExecFns;
use crate::apt_parser::opt_view;
use crate::text::{rfind, rfind_char, string_of, to_chars};

verus! {

/// A cache rooted at a directory.
#[derive(Debug)]
pub struct Cache {
    pub cache_dir: String,
}

/// The file name of a cached archive: `name_version_arch.ext`.
pub open spec fn cache_file_name(n: Seq<char>, v: Seq<char>, a: Seq<char>, e: Seq<char>) -> Seq<char> {
    n + seq!['_'] + v + seq!['_'] + a + seq!['.'] + e
}

pub open spec fn packages_sub() -> Seq<char> {
    seq!['/', 'p', 'a', 'c', 'k', 'a', 'g', 'e', 's', '/']
}

/// The package name of a cache file name: what precedes the last two `_`.
pub open spec fn name_of_file(f: Seq<char>) -> Option<Seq<char>> {
    let a = rfind(f, '_');
    if a < 0 {
        None
    } else {
        let p = f.take(a);
        let b = rfind(p, '_');
        if b < 0 {
            None
        } else {
            Some(p.take(b))
        }
    }
}

/// File `i` holds an older version: another file of the same package is
/// newer, or equally new and listed earlier.
pub open spec fn stale(files: Seq<(String, u64)>, i: int) -> bool {
    match name_of_file(files[i].0@) {
        Some(n) => exists|j: int|
            0 <= j < files.len() && j != i && name_of_file((#[trigger] files[j]).0@) == Some(n) && (
            files[j].1 > files[i].1 || (files[j].1 == files[i].1 && j < i)),
        None => false,
    }
}

impl Cache {
    pub fn new(cache_dir: &str) -> (r: Cache)
        ensures
            r.cache_dir@ == cache_dir@,
    {
        Cache { cache_dir: String::from_str(cache_dir) }
    }

    /// Where a `.deb` of the package is cached.
    pub fn package_path(&self, name: &str, version: &str, arch: &str) -> (r: String)
        ensures
            r@ == self.cache_dir@ + packages_sub() + cache_file_name(
                name@,
                version@,
                arch@,
                seq!['d', 'e', 'b'],
            ),
    {
        proof {
            reveal_strlit("deb");
            assert("deb"@ =~= seq!['d', 'e', 'b']);
        }
        self.package_path_with_ext(name, version, arch, "deb")
    }

    /// Where an archive of the package with extension `ext` is cached.
    pub fn package_path_with_ext(&self, name: &str, version: &str, arch: &str, ext: &str) -> (r:
        String)
        ensures
            r@ == self.cache_dir@ + packages_sub() + cache_file_name(name@, version@, arch@, ext@),
    {
        proof {
            reveal_strlit("/packages/");
            reveal_strlit("_");
            reveal_strlit(".");
        }
        let mut p = self.cache_dir.clone();
        p.append("/packages/");
        p.append(name);
        p.append("_");
        p.append(version);
        p.append("_");
        p.append(arch);
        p.append(".");
        p.append(ext);
        assert(p@ =~= self.cache_dir@ + packages_sub() + cache_file_name(name@, version@, arch@, ext@));
        p
    }
}

/// The package name of a cache file name.
pub fn package_name_of_file(file: &str) -> (r: Option<String>)
    ensures
        opt_view(r) == name_of_file(file@),
{
    let f = to_chars(file);
    match rfind_char(&f, '_') {
        None => None,
        Some(a) => {
            let p = crate::text::slice_of(&f, 0, a);
            assert(p@ =~= f@.take(a as int));
            match rfind_char(&p, '_') {
                None => None,
                Some(b) => {
                    let n = string_of(&p, 0, b);
                    assert(n@ =~= p@.take(b as int));
                    Some(n)
                },
            }
        },
    }
}

/// For each cached file, given as its name and modification time, whether
/// it is an older version to remove: per package, only the newest file
/// stays.
pub fn old_versions_to_remove(files: &Vec<(String, u64)>) -> (r: Vec<bool>)
    ensures
        r@.len() == files@.len(),
        forall|i: int| 0 <= i < files@.len() ==> r@[i] == stale(files@, i),
{
    let mut names: Vec<Option<String>> = Vec::new();
    let mut k: usize = 0;
    while k < files.len()
        invariant
            k <= files@.len(),
            names@.len() == k,
            forall|j: int| 0 <= j < k ==> opt_view(#[trigger] names@[j]) == name_of_file(files@[j].0@),
        decreases files.len() - k,
    {
        names.push(package_name_of_file(files[k].0.as_str()));
        k = k + 1;
    }
    let mut r: Vec<bool> = Vec::new();
    let mut i: usize = 0;
    while i < files.len()
        invariant
            i <= files@.len(),
            names@.len() == files@.len(),
            forall|j: int| 0 <= j < files@.len() ==> opt_view(#[trigger] names@[j]) == name_of_file(files@[j].0@),
            r@.len() == i,
            forall|j: int| 0 <= j < i ==> r@[j] == stale(files@, j),
        decreases files.len() - i,
    {
        let mut found = false;
        match &names[i] {
            None => {},
            Some(n) => {
                let mut j: usize = 0;
                while j < files.len()
                    invariant
                        j <= files@.len(),
                        i < files@.len(),
                        names@.len() == files@.len(),
                        forall|x: int| 0 <= x < files@.len() ==> opt_view(#[trigger] names@[x]) == name_of_file(files@[x].0@),
                        name_of_file(files@[i as int].0@) == Some(n@),
                        found ==> stale(files@, i as int),
                        !found ==> forall|x: int|
                            0 <= x < j && x != i ==> !(name_of_file((#[trigger] files@[x]).0@) == Some(n@) && (
                            files@[x].1 > files@[i as int].1 || (files@[x].1 == files@[i as int].1 && x < i))),
                    decreases files.len() - j,
                {
                    if j != i {
                        let same = match &names[j] {
                            Some(m) => *m == *n,
                            None => false,
                        };
                        assert(same == (name_of_file(files@[j as int].0@) == Some(n@)));
                        if same && (files[j].1 > files[i].1 || (files[j].1 == files[i].1 && j < i)) {
                            found = true;
                        }
                    }
                    j = j + 1;
                }
            },
        }
        r.push(found);
        i = i + 1;
    }
    r
}

/// File `j` is older than file `i`: earlier modification time, or the same
/// time and listed earlier.
pub open spec fn older(f: Seq<(u64, u64)>, j: int, i: int) -> bool {
    f[j].1 < f[i].1 || (f[j].1 == f[i].1 && j < i)
}

/// The total size of the files among `f[..n]` older than file `i`.
pub open spec fn size_older(f: Seq<(u64, u64)>, i: int, n: int) -> int
    decreases n,
{
    if n <= 0 || n > f.len() {
        0
    } else {
        size_older(f, i, n - 1) + if older(f, n - 1, i) {
            f[n - 1].0 as int
        } else {
            0
        }
    }
}

/// The total size of the files `f[..n]`.
pub open spec fn total_size(f: Seq<(u64, u64)>, n: int) -> int
    decreases n,
{
    if n <= 0 || n > f.len() {
        0
    } else {
        total_size(f, n - 1) + f[n - 1].0 as int
    }
}

/// Deleting oldest first until the cache fits in `max` bytes removes file
/// `i`: the cache is over the limit, and the older files together do not
/// yet free enough.
pub open spec fn evicted(f: Seq<(u64, u64)>, i: int, max: u64) -> bool {
    total_size(f, f.len() as int) > max && size_older(f, i, f.len() as int) < total_size(
        f,
        f.len() as int,
    ) - max
}

proof fn lemma_sizes_bounded(f: Seq<(u64, u64)>, i: int, n: int)
    requires
        0 <= n <= f.len(),
    ensures
        0 <= size_older(f, i, n) <= total_size(f, n),
        total_size(f, n) <= n * 0xFFFF_FFFF_FFFF_FFFF,
    decreases n,
{
    if n > 0 {
        lemma_sizes_bounded(f, i, n - 1);
    }
}

/// For each file of the cache directory, given as its size and
/// modification time (the caller lists every file), whether deleting oldest
/// first until the cache fits in `max_bytes` removes it.
pub fn over_limit_to_remove(files: &Vec<(u64, u64)>, max_bytes: u64) -> (r: Vec<bool>)
    ensures
        r@.len() == files@.len(),
        forall|i: int| 0 <= i < files@.len() ==> r@[i] == evicted(files@, i, max_bytes),
{
    let mut total: u128 = 0;
    let mut k: usize = 0;
    while k < files.len()
        invariant
            k <= files@.len(),
            total as int == total_size(files@, k as int),
        decreases files.len() - k,
    {
        proof {
            lemma_sizes_bounded(files@, 0, k as int);
            assert(k * 0xFFFF_FFFF_FFFF_FFFF + 0xFFFF_FFFF_FFFF_FFFF < 0x1_0000_0000_0000_0000_0000_0000_0000_0000) by (nonlinear_arith)
                requires
                    k < 0x1_0000_0000_0000_0000,
            ;
        }
        total = total + files[k].0 as u128;
        k = k + 1;
    }
    let mut r: Vec<bool> = Vec::new();
    let mut i: usize = 0;
    while i < files.len()
        invariant
            i <= files@.len(),
            total as int == total_size(files@, files@.len() as int),
            r@.len() == i,
            forall|j: int| 0 <= j < i ==> r@[j] == evicted(files@, j, max_bytes),
        decreases files.len() - i,
    {
        let mut before: u128 = 0;
        let mut j: usize = 0;
        while j < files.len()
            invariant
                j <= files@.len(),
                i < files@.len(),
                before as int == size_older(files@, i as int, j as int),
                total as int == total_size(files@, files@.len() as int),
            decreases files.len() - j,
        {
            proof {
                lemma_sizes_bounded(files@, i as int, j as int);
                lemma_sizes_bounded(files@, i as int, files@.len() as int);
                lemma_total_prefix(files@, j as int, files@.len() as int);
            }
            if files[j].1 < files[i].1 || (files[j].1 == files[i].1 && j < i) {
                before = before + files[j].0 as u128;
            }
            j = j + 1;
        }
        let gone = total > max_bytes as u128 && before < total - max_bytes as u128;
        r.push(gone);
        i = i + 1;
    }
    r
}

proof fn lemma_total_prefix(f: Seq<(u64, u64)>, j: int, n: int)
    requires
        0 <= j <= n <= f.len(),
    ensures
        total_size(f, j) <= total_size(f, n),
    decreases n - j,
{
    if j < n {
        lemma_total_prefix(f, j, n - 1);
    }
}

/// The sidecar index of a cache: `(digest, path)` pairs, one per digest.
/// Entry of `idx` holds digest `h`.
pub open spec fn indexed(idx: Seq<(String, String)>, h: Seq<char>) -> bool {
    exists|i: int| 0 <= i < idx.len() && (#[trigger] idx[i]).0@ == h
}

/// What storing a file with digest `h` at `path` does to the index: nothing
/// when the digest is already there (the new name links to the stored
/// payload), otherwise it records the pair.
pub open spec fn stored(idx: Seq<(String, String)>, h: Seq<char>, path: Seq<char>) -> Seq<(Seq<char>, Seq<char>)> {
    let v = idx.map_values(|e: (String, String)| (e.0@, e.1@));
    if indexed(idx, h) {
        v
    } else {
        v.push((h, path))
    }
}

/// Records a stored archive in the checksum index. Returns the path already
/// holding the same content, to be hard-linked, or `None` when the archive
/// is new and was recorded.
pub fn index_store(idx: &mut Vec<(String, String)>, digest: &String, path: &String) -> (r: Option<String>)
    ensures
        final(idx)@.map_values(|e: (String, String)| (e.0@, e.1@)) == stored(old(idx)@, digest@, path@),
        r is Some <==> indexed(old(idx)@, digest@),
        r matches Some(p) ==> exists|i: int|
            0 <= i < old(idx)@.len() && (#[trigger] old(idx)@[i]).0@ == digest@ && old(idx)@[i].1@ == p@,
{
    let mut i: usize = 0;
    while i < idx.len()
        invariant
            i <= idx@.len(),
            idx@ == old(idx)@,
            forall|j: int| 0 <= j < i ==> (#[trigger] idx@[j]).0@ != digest@,
        decreases idx.len() - i,
    {
        if idx[i].0 == *digest {
            return Some(idx[i].1.clone());
        }
        i = i + 1;
    }
    let ghost before = idx@;
    idx.push((digest.clone(), path.clone()));
    assert(idx@.map_values(|e: (String, String)| (e.0@, e.1@)) =~= before.map_values(
        |e: (String, String)| (e.0@, e.1@),
    ).push((digest@, path@)));
    None
}

/// Storing the same content twice leaves one index entry for it: the second
/// store changes nothing, whatever name it uses.
pub proof fn lemma_store_idempotent(idx: Seq<(String, String)>, after: Seq<(String, String)>, h: Seq<char>, p1: Seq<char>, p2: Seq<char>)
    requires
        after.map_values(|e: (String, String)| (e.0@, e.1@)) == stored(idx, h, p1),
    ensures
        indexed(after, h),
        stored(after, h, p2) == stored(idx, h, p1),
{
    let v = after.map_values(|e: (String, String)| (e.0@, e.1@));
    let w = idx.map_values(|e: (String, String)| (e.0@, e.1@));
    if indexed(idx, h) {
        let i = choose|i: int| 0 <= i < idx.len() && (#[trigger] idx[i]).0@ == h;
        assert(w[i] == (idx[i].0@, idx[i].1@));
        assert(v[i] == w[i]);
        assert(v[i] == (after[i].0@, after[i].1@));
        assert(after[i].0@ == h);
    } else {
        let n = idx.len() as int;
        assert(v == w.push((h, p1)));
        assert(v[n] == (h, p1));
        assert(v[n] == (after[n].0@, after[n].1@));
        assert(after[n].0@ == h);
    }
}

/// The canonical fetch URL of a package: the repository URL, a `/`, and
/// the package's repository-relative file name.
pub fn fetch_url(repo_url: &str, filename: &str) -> (r: String)
    ensures
        r@ == repo_url@ + seq!['/'] + filename@,
{
    proof {
        reveal_strlit("/");
    }
    let mut u = String::from_str(repo_url);
    u.append("/");
    u.append(filename);
    assert(u@ =~= repo_url@ + seq!['/'] + filename@);
    u
}

} // verus!
