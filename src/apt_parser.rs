//! Parsing of repository `Packages` files and of the dependency grammar.
//!
//! A `Packages` body is a sequence of blocks separated by blank lines; each
//! block is a sequence of `Key: value` lines, and a line that starts with a
//! space or a tab continues the previous field on a new line.

use vstd::prelude::*;
use crate::error::PkgError;
use crate::package::{views, PackageManifest};
use crate::solver::DependencyRule;
use crate::text::{
    find, find_char, has_prefix, lemma_find_from_bounds, slice_of, split, split_chars,
    starts_with, string_of, to_chars, trim, trim_chars, ws,
};

verus! {

/// An ordered list of `(key, value)` fields with distinct keys.
pub open spec fn key_index(f: Seq<(Seq<char>, Seq<char>)>, k: Seq<char>, i: int) -> int
    decreases f.len() - i,
{
    if i < 0 || i >= f.len() {
        -1
    } else if f[i].0 == k {
        i
    } else {
        key_index(f, k, i + 1)
    }
}

pub open spec fn lookup(f: Seq<(Seq<char>, Seq<char>)>, k: Seq<char>) -> Option<Seq<char>> {
    let i = key_index(f, k, 0);
    if 0 <= i < f.len() {
        Some(f[i].1)
    } else {
        None
    }
}

/// Sets field `k` to `v`, or appends `v` on a new line to its value.
pub open spec fn upsert(f: Seq<(Seq<char>, Seq<char>)>, k: Seq<char>, v: Seq<char>) -> Seq<
    (Seq<char>, Seq<char>),
> {
    let i = key_index(f, k, 0);
    if 0 <= i < f.len() {
        f.update(i, (k, f[i].1 + seq!['\n'] + v))
    } else {
        f.push((k, v))
    }
}

pub open spec fn key_package() -> Seq<char> {
    seq!['P', 'a', 'c', 'k', 'a', 'g', 'e']
}

pub open spec fn key_version() -> Seq<char> {
    seq!['V', 'e', 'r', 's', 'i', 'o', 'n']
}

pub open spec fn key_arch() -> Seq<char> {
    seq!['A', 'r', 'c', 'h', 'i', 't', 'e', 'c', 't', 'u', 'r', 'e']
}

pub open spec fn key_depends() -> Seq<char> {
    seq!['D', 'e', 'p', 'e', 'n', 'd', 's']
}

pub open spec fn key_provides() -> Seq<char> {
    seq!['P', 'r', 'o', 'v', 'i', 'd', 'e', 's']
}

pub open spec fn key_size() -> Seq<char> {
    seq!['S', 'i', 'z', 'e']
}

pub open spec fn key_sha256() -> Seq<char> {
    seq!['S', 'H', 'A', '2', '5', '6']
}

pub open spec fn key_md5() -> Seq<char> {
    seq!['M', 'D', '5', 's', 'u', 'm']
}

pub open spec fn key_filename() -> Seq<char> {
    seq!['F', 'i', 'l', 'e', 'n', 'a', 'm', 'e']
}

/// A line that continues the previous field.
pub open spec fn is_continuation(raw: Seq<char>) -> bool {
    raw.len() > 0 && (raw[0] == ' ' || raw[0] == '\t')
}

/// The blocks finished so far, the current block, whether a block is open,
/// and the key of the last field read.
pub open spec fn init_state() -> (Seq<Seq<(Seq<char>, Seq<char>)>>, Seq<(Seq<char>, Seq<char>)>, bool, Option<Seq<char>>) {
    (seq![], seq![], false, None)
}

/// The finished blocks, with the current one added when it names a package
/// and a version.
pub open spec fn close(st: (Seq<Seq<(Seq<char>, Seq<char>)>>, Seq<(Seq<char>, Seq<char>)>, bool, Option<Seq<char>>)) -> Seq<Seq<(Seq<char>, Seq<char>)>> {
    if lookup(st.1, key_package()) is Some && lookup(st.1, key_version()) is Some {
        st.0.push(st.1)
    } else {
        st.0
    }
}

pub open spec fn step(
    st: (Seq<Seq<(Seq<char>, Seq<char>)>>, Seq<(Seq<char>, Seq<char>)>, bool, Option<Seq<char>>),
    raw: Seq<char>,
) -> (Seq<Seq<(Seq<char>, Seq<char>)>>, Seq<(Seq<char>, Seq<char>)>, bool, Option<Seq<char>>) {
    let line = trim(raw);
    if line.len() == 0 {
        (close(st), seq![], false, None)
    } else if st.2 && st.3 is Some && is_continuation(raw) {
        (st.0, upsert(st.1, st.3->0, line), st.2, st.3)
    } else if find(line, ':') >= 0 {
        let c = find(line, ':');
        let key = trim(line.take(c));
        (st.0, upsert(st.1, key, trim(line.skip(c + 1))), true, Some(key))
    } else {
        st
    }
}

pub open spec fn run(lines: Seq<Seq<char>>, n: int) -> (Seq<Seq<(Seq<char>, Seq<char>)>>, Seq<(Seq<char>, Seq<char>)>, bool, Option<Seq<char>>)
    decreases n,
{
    if n <= 0 || n > lines.len() {
        init_state()
    } else {
        step(run(lines, n - 1), lines[n - 1])
    }
}

/// The blocks of a `Packages` body that name a package and a version.
pub open spec fn blocks_of(content: Seq<char>) -> Seq<Seq<(Seq<char>, Seq<char>)>> {
    let lines = split(content, '\n');
    close(run(lines, lines.len() as int))
}

/// The trimmed comma-separated pieces `p[..n]`, empty ones left out.
pub open spec fn trimmed_names(p: Seq<Seq<char>>, n: int) -> Seq<Seq<char>>
    decreases n,
{
    if n <= 0 || n > p.len() {
        seq![]
    } else {
        let w = trim(p[n - 1]);
        trimmed_names(p, n - 1) + if w.len() > 0 {
            seq![w]
        } else {
            seq![]
        }
    }
}

/// The terms of a `Depends` value: each comma-separated term trimmed, with
/// its constraint and alternatives kept as written; empty terms left out.
pub open spec fn depends_list(v: Seq<char>) -> Seq<Seq<char>> {
    trimmed_names(split(v, ','), split(v, ',').len() as int)
}

/// Names of a `Provides` value.
pub open spec fn provides_list(v: Seq<char>) -> Seq<Seq<char>> {
    trimmed_names(split(v, ','), split(v, ',').len() as int)
}

pub open spec fn digit_value(c: char) -> nat {
    ((c as u32) - 48) as nat
}

pub open spec fn digits_value(s: Seq<char>) -> nat
    decreases s.len(),
{
    if s.len() == 0 {
        0
    } else {
        digits_value(s.drop_last()) * 10 + digit_value(s.last())
    }
}

/// A decimal number with an optional leading `+`, as `u64::from_str`
/// reads it.
pub open spec fn parse_u64_spec(s: Seq<char>) -> Option<u64> {
    let d = if s.len() > 0 && s[0] == '+' {
        s.skip(1)
    } else {
        s
    };
    if d.len() > 0 && crate::version::all_digits(d) && digits_value(d) <= u64::MAX {
        Some(digits_value(d) as u64)
    } else {
        None
    }
}

pub open spec fn opt_view(o: Option<String>) -> Option<Seq<char>> {
    match o {
        Some(s) => Some(s@),
        None => None,
    }
}

/// `m` is the manifest of the block `f`, read at time `ts`.
pub open spec fn manifest_of(m: PackageManifest, f: Seq<(Seq<char>, Seq<char>)>, ts: i64) -> bool {
    &&& lookup(f, key_package()) == Some(m.name@)
    &&& lookup(f, key_version()) == Some(m.version@)
    &&& m.arch@ == match lookup(f, key_arch()) {
        Some(a) => a,
        None => seq!['a', 'l', 'l'],
    }
    &&& views(m.depends@) == match lookup(f, key_depends()) {
        Some(d) => depends_list(d),
        None => seq![],
    }
    &&& views(m.provides@) == match lookup(f, key_provides()) {
        Some(p) => provides_list(p),
        None => seq![],
    }
    &&& m.conflicts@.len() == 0
    &&& m.replaces@.len() == 0
    &&& m.files@.len() == 0
    &&& m.size == match lookup(f, key_size()) {
        Some(s) => match parse_u64_spec(s) {
            Some(n) => n,
            None => 0,
        },
        None => 0,
    }
    &&& m.checksum@ == match lookup(f, key_sha256()) {
        Some(c) => c,
        None => match lookup(f, key_md5()) {
            Some(c) => c,
            None => seq![],
        },
    }
    &&& m.timestamp == ts
    &&& opt_view(m.filename) == lookup(f, key_filename())
    &&& m.repo_id is None
}

// ---------------------------------------------------------------------------
// Executable side
// ---------------------------------------------------------------------------

pub open spec fn fields_view(v: Seq<(Vec<char>, Vec<char>)>) -> Seq<(Seq<char>, Seq<char>)> {
    v.map_values(|p: (Vec<char>, Vec<char>)| (p.0@, p.1@))
}

pub proof fn lemma_key_index(f: Seq<(Seq<char>, Seq<char>)>, k: Seq<char>, i: int)
    requires
        0 <= i,
    ensures
        key_index(f, k, i) == -1 || (i <= key_index(f, k, i) < f.len() && f[key_index(f, k, i)].0 == k),
    decreases f.len() - i,
{
    if i < f.len() && f[i].0 != k {
        lemma_key_index(f, k, i + 1);
    }
}

fn find_key(cur: &Vec<(Vec<char>, Vec<char>)>, key: &Vec<char>) -> (r: Option<usize>)
    ensures
        match r {
            Some(i) => i < cur.len() && key_index(fields_view(cur@), key@, 0) == i,
            None => key_index(fields_view(cur@), key@, 0) == -1,
        },
{
    let ghost f = fields_view(cur@);
    let mut i: usize = 0;
    while i < cur.len()
        invariant
            i <= cur.len(),
            f == fields_view(cur@),
            key_index(f, key@, 0) == key_index(f, key@, i as int),
        decreases cur.len() - i,
    {
        assert(f[i as int] == (cur@[i as int].0@, cur@[i as int].1@));
        if crate::text::eq_chars(&cur[i].0, key) {
            return Some(i);
        }
        i = i + 1;
    }
    None
}

fn get_field(cur: &Vec<(Vec<char>, Vec<char>)>, key: &str) -> (r: Option<String>)
    ensures
        opt_view(r) == lookup(fields_view(cur@), key@),
{
    let k = to_chars(key);
    match find_key(cur, &k) {
        Some(i) => {
            let v = string_of(&cur[i].1, 0, cur[i].1.len());
            assert(cur[i as int].1@.subrange(0, cur[i as int].1@.len() as int) =~= cur[i as int].1@);
            Some(v)
        },
        None => None,
    }
}

#[verifier::loop_isolation(false)]
fn upsert_field(cur: &mut Vec<(Vec<char>, Vec<char>)>, key: Vec<char>, val: Vec<char>)
    ensures
        fields_view(final(cur)@) == upsert(fields_view(old(cur)@), key@, val@),
{
    match find_key(cur, &key) {
        Some(i) => {
            let mut nv = slice_of(&cur[i].1, 0, cur[i].1.len());
            assert(nv@ =~= old(cur)@[i as int].1@);
            nv.push('\n');
            let mut j: usize = 0;
            let ghost base = nv@;
            while j < val.len()
                invariant
                    j <= val.len(),
                    nv@ == base + val@.take(j as int),
                decreases val.len() - j,
            {
                nv.push(val[j]);
                assert(nv@ =~= base + val@.take(j + 1));
                j = j + 1;
            }
            assert(val@.take(val.len() as int) =~= val@);
            let ghost f0 = fields_view(old(cur)@);
            proof {
                lemma_key_index(f0, key@, 0);
                assert(f0[i as int] == (old(cur)@[i as int].0@, old(cur)@[i as int].1@));
                assert(nv@ =~= f0[i as int].1 + seq!['\n'] + val@);
            }
            let ghost nvv = nv@;
            cur.set(i, (key, nv));
            proof {
                let g = fields_view(cur@);
                let u = upsert(f0, key@, val@);
                assert(u == f0.update(i as int, (key@, f0[i as int].1 + seq!['\n'] + val@)));
                assert(g.len() == u.len());
                assert forall|j: int| 0 <= j < g.len() implies g[j] == u[j] by {
                    if j != i {
                        assert(cur@[j] == old(cur)@[j]);
                    }
                }
                assert(g =~= u);
            }
        },
        None => {
            cur.push((key, val));
            assert(fields_view(cur@) =~= upsert(fields_view(old(cur)@), key@, val@));
        },
    }
}

/// The decimal value of `s`, when `s` is a number that fits in `u64`.
#[verifier::loop_isolation(false)]
pub fn parse_u64(s: &Vec<char>) -> (r: Option<u64>)
    ensures
        r == parse_u64_spec(s@),
{
    let start: usize = if s.len() > 0 && s[0] == '+' {
        1
    } else {
        0
    };
    let ghost d = if s@.len() > 0 && s@[0] == '+' {
        s@.skip(1)
    } else {
        s@
    };
    assert(d =~= s@.skip(start as int));
    if start >= s.len() {
        return None;
    }
    let mut acc: u64 = 0;
    let mut i = start;
    while i < s.len()
        invariant
            start <= i <= s.len(),
            d == s@.skip(start as int),
            acc as nat == digits_value(d.take(i - start)),
            forall|k: int| 0 <= k < i - start ==> crate::text::is_digit(#[trigger] d[k]),
        decreases s.len() - i,
    {
        let c = s[i];
        if !crate::text::digit(c) {
            assert(!crate::version::all_digits(d)) by {
                assert(d[i - start] == c);
            }
            return None;
        }
        let dv: u64 = ((c as u32) - 48) as u64;
        let next: u128 = (acc as u128) * 10 + (dv as u128);
        assert(d.take(i - start + 1).drop_last() =~= d.take(i - start));
        assert(d.take(i - start + 1).last() == c);
        assert(next as nat == digits_value(d.take(i - start + 1)));
        if next > u64::MAX as u128 {
            proof {
                lemma_digits_prefix(d, i - start + 1);
                if crate::version::all_digits(d) {
                    assert(digits_value(d) > u64::MAX);
                }
            }
            return None;
        }
        acc = next as u64;
        i = i + 1;
    }
    assert(d.take(d.len() as int) =~= d);
    Some(acc)
}

proof fn lemma_digits_prefix(d: Seq<char>, j: int)
    requires
        0 <= j <= d.len(),
        crate::version::all_digits(d) || true,
    ensures
        crate::version::all_digits(d) ==> digits_value(d.take(j)) <= digits_value(d),
    decreases d.len() - j,
{
    if j < d.len() {
        lemma_digits_prefix(d, j + 1);
        assert(d.take(j + 1).drop_last() =~= d.take(j));
    } else {
        assert(d.take(j) =~= d);
    }
}

/// The terms of a `Depends` value, constraints and alternatives kept.
pub fn parse_depends(value: &Vec<char>) -> (r: Vec<String>)
    ensures
        views(r@) == depends_list(value@),
{
    parse_provides(value)
}

/// Names of a `Provides` value.
pub fn parse_provides(value: &Vec<char>) -> (r: Vec<String>)
    ensures
        views(r@) == provides_list(value@),
{
    let pieces = split_chars(value, ',');
    let ghost p = pieces@.map_values(|v: Vec<char>| v@);
    let mut out: Vec<String> = Vec::new();
    let mut i: usize = 0;
    while i < pieces.len()
        invariant
            i <= pieces.len(),
            p == pieces@.map_values(|v: Vec<char>| v@),
            p == split(value@, ','),
            views(out@) == trimmed_names(p, i as int),
        decreases pieces.len() - i,
    {
        let w = trim_chars(&pieces[i]);
        assert(p[i as int] == pieces@[i as int]@);
        if w.len() > 0 {
            let ghost o = out@;
            out.push(string_of(&w, 0, w.len()));
            assert(w@.subrange(0, w@.len() as int) =~= w@);
            assert(views(out@) =~= views(o) + seq![w@]);
        } else {
            assert(trimmed_names(p, i + 1) =~= trimmed_names(p, i as int));
        }
        i = i + 1;
    }
    out
}

/// The manifest of a block of fields that names a package and a version.
pub fn parse_package_entry(cur: &Vec<(Vec<char>, Vec<char>)>, timestamp: i64) -> (r: Result<
    PackageManifest,
    PkgError,
>)
    ensures
        r is Ok <==> (lookup(fields_view(cur@), key_package()) is Some && lookup(
            fields_view(cur@),
            key_version(),
        ) is Some),
        r matches Ok(m) ==> manifest_of(m, fields_view(cur@), timestamp),
{
    proof {
        reveal_strlit("Package");
        reveal_strlit("Version");
        reveal_strlit("Architecture");
        reveal_strlit("Depends");
        reveal_strlit("Provides");
        reveal_strlit("Size");
        reveal_strlit("SHA256");
        reveal_strlit("MD5sum");
        reveal_strlit("Filename");
        reveal_strlit("all");
        assert("Package"@ =~= key_package());
        assert("Version"@ =~= key_version());
        assert("Architecture"@ =~= key_arch());
        assert("Depends"@ =~= key_depends());
        assert("Provides"@ =~= key_provides());
        assert("Size"@ =~= key_size());
        assert("SHA256"@ =~= key_sha256());
        assert("MD5sum"@ =~= key_md5());
        assert("Filename"@ =~= key_filename());
        assert("all"@ =~= seq!['a', 'l', 'l']);
    }
    let name = match get_field(cur, "Package") {
        Some(n) => n,
        None => {
            return Err(PkgError::Corruption(String::from_str("missing Package field")));
        },
    };
    let version = match get_field(cur, "Version") {
        Some(v) => v,
        None => {
            return Err(PkgError::Corruption(String::from_str("missing Version field")));
        },
    };
    let arch = match get_field(cur, "Architecture") {
        Some(a) => a,
        None => String::from_str("all"),
    };
    let depends = match get_field(cur, "Depends") {
        Some(d) => parse_depends(&to_chars(d.as_str())),
        None => Vec::new(),
    };
    let provides = match get_field(cur, "Provides") {
        Some(p) => parse_provides(&to_chars(p.as_str())),
        None => Vec::new(),
    };
    let size: u64 = match get_field(cur, "Size") {
        Some(s) => match parse_u64(&to_chars(s.as_str())) {
            Some(n) => n,
            None => 0,
        },
        None => 0,
    };
    let checksum = match get_field(cur, "SHA256") {
        Some(c) => c,
        None => match get_field(cur, "MD5sum") {
            Some(c) => c,
            None => String::new(),
        },
    };
    let filename = get_field(cur, "Filename");
    assert(views(Seq::<String>::empty()) =~= Seq::<Seq<char>>::empty());
    Ok(PackageManifest {
        name,
        version,
        arch,
        provides,
        depends,
        conflicts: Vec::new(),
        replaces: Vec::new(),
        files: Vec::new(),
        size,
        checksum,
        timestamp,
        filename,
        repo_id: None,
    })
}

pub open spec fn opt_chars(o: Option<Vec<char>>) -> Option<Seq<char>> {
    match o {
        Some(v) => Some(v@),
        None => None,
    }
}

/// Appends the manifest of `cur` to `out` when the block names a package
/// and a version.
fn close_block(out: &mut Vec<PackageManifest>, cur: &Vec<(Vec<char>, Vec<char>)>, timestamp: i64)
    ensures
        forall|j: int| 0 <= j < old(out)@.len() ==> final(out)@[j] == old(out)@[j],
        (lookup(fields_view(cur@), key_package()) is Some && lookup(
            fields_view(cur@),
            key_version(),
        ) is Some) ==> final(out)@.len() == old(out)@.len() + 1 && manifest_of(
            final(out)@[old(out)@.len() as int],
            fields_view(cur@),
            timestamp,
        ),
        !(lookup(fields_view(cur@), key_package()) is Some && lookup(
            fields_view(cur@),
            key_version(),
        ) is Some) ==> final(out)@.len() == old(out)@.len(),
{
    match parse_package_entry(cur, timestamp) {
        Ok(m) => {
            out.push(m);
        },
        Err(_) => {},
    }
}

/// Every manifest of `out` is that of the matching block of `blocks`.
pub open spec fn manifests_of(
    out: Seq<PackageManifest>,
    blocks: Seq<Seq<(Seq<char>, Seq<char>)>>,
    ts: i64,
) -> bool {
    out.len() == blocks.len() && forall|j: int|
        0 <= j < out.len() ==> manifest_of(#[trigger] out[j], blocks[j], ts)
}

/// The manifests of the blocks of a `Packages` body, each stamped with
/// `timestamp`.
#[verifier::loop_isolation(false)]
pub fn parse_packages_at(content: &str, timestamp: i64) -> (r: Vec<PackageManifest>)
    ensures
        manifests_of(r@, blocks_of(content@), timestamp),
{
    let chars = to_chars(content);
    let lines = split_chars(&chars, '\n');
    let ghost ls = lines@.map_values(|v: Vec<char>| v@);
    let mut out: Vec<PackageManifest> = Vec::new();
    let mut cur: Vec<(Vec<char>, Vec<char>)> = Vec::new();
    let mut active = false;
    let mut last: Option<Vec<char>> = None;
    let mut i: usize = 0;
    assert(fields_view(cur@) =~= Seq::<(Seq<char>, Seq<char>)>::empty());
    while i < lines.len()
        invariant
            i <= lines.len(),
            ls == lines@.map_values(|v: Vec<char>| v@),
            ls == split(content@, '\n'),
            manifests_of(out@, run(ls, i as int).0, timestamp),
            fields_view(cur@) == run(ls, i as int).1,
            active == run(ls, i as int).2,
            opt_chars(last) == run(ls, i as int).3,
        decreases lines.len() - i,
    {
        let raw = &lines[i];
        assert(ls[i as int] == raw@);
        let ghost st = run(ls, i as int);
        assert(run(ls, i + 1) == step(st, raw@));
        let line = trim_chars(raw);
        if line.len() == 0 {
            let ghost o = out@;
            close_block(&mut out, &cur, timestamp);
            proof {
                let b = close(st);
                assert forall|j: int| 0 <= j < out@.len() implies manifest_of(
                    #[trigger] out@[j],
                    b[j],
                    timestamp,
                ) by {
                    if j < o.len() {
                        assert(out@[j] == o[j]);
                    }
                }
            }
            cur = Vec::new();
            active = false;
            last = None;
            assert(fields_view(cur@) =~= Seq::<(Seq<char>, Seq<char>)>::empty());
        } else if active && last.is_some() && raw.len() > 0 && (raw[0] == ' ' || raw[0] == '\t') {
            let k = match &last {
                Some(k) => slice_of(k, 0, k.len()),
                None => Vec::new(),
            };
            proof {
                let kk = last->0;
                assert(kk@.subrange(0, kk@.len() as int) =~= kk@);
            }
            upsert_field(&mut cur, k, line);
        } else {
            let c = find_char(&line, ':', 0);
            proof {
                lemma_find_from_bounds(line@, ':', 0);
            }
            if c < line.len() {
                let key = trim_chars(&slice_of(&line, 0, c));
                let val = trim_chars(&slice_of(&line, c + 1, line.len()));
                assert(line@.subrange(0, c as int) =~= line@.take(c as int));
                assert(line@.subrange(c + 1, line@.len() as int) =~= line@.skip(c + 1));
                let key2 = slice_of(&key, 0, key.len());
                assert(key@.subrange(0, key@.len() as int) =~= key@);
                upsert_field(&mut cur, key, val);
                active = true;
                last = Some(key2);
            }
        }
        i = i + 1;
    }
    let ghost st = run(ls, i as int);
    let ghost o = out@;
    close_block(&mut out, &cur, timestamp);
    proof {
        let b = close(st);
        assert forall|j: int| 0 <= j < out@.len() implies manifest_of(
            #[trigger] out@[j],
            b[j],
            timestamp,
        ) by {
            if j < o.len() {
                assert(out@[j] == o[j]);
            }
        }
    }
    out
}

/// Relies on `std::time::SystemTime::now`: seconds since the Unix epoch, or
/// 0 when the clock reads earlier.
#[verifier::external_body]
fn unix_now() -> (r: i64) {
    std::time::SystemTime::now().duration_since(std::time::UNIX_EPOCH).map(|d| d.as_secs() as i64).unwrap_or(0)
}

/// The manifests of the blocks of a `Packages` body, stamped with the time
/// of reading. Never fails: malformed lines are ignored, and blocks without
/// a package name or version are skipped.
pub fn parse_packages_file(content: &str) -> (r: Result<Vec<PackageManifest>, PkgError>)
    ensures
        r is Ok,
        r matches Ok(v) ==> v@.len() == blocks_of(content@).len() && forall|j: int|
            0 <= j < v@.len() ==> manifest_of(
                #[trigger] v@[j],
                blocks_of(content@)[j],
                v@[0].timestamp,
            ),
{
    let ts = unix_now();
    let v = parse_packages_at(content, ts);
    Ok(v)
}

/// `op`, a space and the trimmed version after `op`, when `c` starts with
/// `op` and a version follows.
pub open spec fn op_form(c: Seq<char>, op: Seq<char>) -> Option<Seq<char>> {
    if starts_with(c, op) && trim(c.skip(op.len() as int)).len() > 0 {
        Some(op + seq![' '] + trim(c.skip(op.len() as int)))
    } else {
        None
    }
}

/// A version constraint in normal form: the operators are tried in the
/// order `<<`, `>>`, `>=`, `<=`, `=`, `>`, `<`; without one, the trimmed
/// text stands as it is; an empty text is no constraint.
pub open spec fn constraint_of(s: Seq<char>) -> Option<Seq<char>> {
    let c = trim(s);
    if c.len() == 0 {
        None
    } else if op_form(c, seq!['<', '<']) is Some {
        op_form(c, seq!['<', '<'])
    } else if op_form(c, seq!['>', '>']) is Some {
        op_form(c, seq!['>', '>'])
    } else if op_form(c, seq!['>', '=']) is Some {
        op_form(c, seq!['>', '='])
    } else if op_form(c, seq!['<', '=']) is Some {
        op_form(c, seq!['<', '='])
    } else if op_form(c, seq!['=']) is Some {
        op_form(c, seq!['='])
    } else if op_form(c, seq!['>']) is Some {
        op_form(c, seq!['>'])
    } else if op_form(c, seq!['<']) is Some {
        op_form(c, seq!['<'])
    } else {
        Some(c)
    }
}

fn op_form_exec(c: &Vec<char>, op: &str) -> (r: Option<String>)
    ensures
        opt_view(r) == op_form(c@, op@),
{
    if !has_prefix(c, op) {
        return None;
    }
    let n = op.unicode_len();
    let v = trim_chars(&slice_of(c, n, c.len()));
    assert(c@.subrange(n as int, c@.len() as int) =~= c@.skip(n as int));
    if v.len() == 0 {
        return None;
    }
    let mut r = String::from_str(op);
    r.push(' ');
    let mut j: usize = 0;
    while j < v.len()
        invariant
            j <= v.len(),
            r@ == op@ + seq![' '] + v@.take(j as int),
        decreases v.len() - j,
    {
        r.push(v[j]);
        assert(r@ =~= op@ + seq![' '] + v@.take(j + 1));
        j = j + 1;
    }
    assert(v@.take(v.len() as int) =~= v@);
    Some(r)
}

/// Normalises a version constraint such as `">= 1.0"`.
pub fn parse_version_constraint(constraint: &str) -> (r: Result<Option<String>, PkgError>)
    ensures
        r matches Ok(o) && opt_view(o) == constraint_of(constraint@),
{
    let c = trim_chars(&to_chars(constraint));
    if c.len() == 0 {
        return Ok(None);
    }
    proof {
        reveal_strlit("<<");
        reveal_strlit(">>");
        reveal_strlit(">=");
        reveal_strlit("<=");
        reveal_strlit("=");
        reveal_strlit(">");
        reveal_strlit("<");
        assert("<<"@ =~= seq!['<', '<']);
        assert(">>"@ =~= seq!['>', '>']);
        assert(">="@ =~= seq!['>', '=']);
        assert("<="@ =~= seq!['<', '=']);
        assert("="@ =~= seq!['=']);
        assert(">"@ =~= seq!['>']);
        assert("<"@ =~= seq!['<']);
    }
    let r = op_form_exec(&c, "<<");
    if r.is_some() {
        return Ok(r);
    }
    let r = op_form_exec(&c, ">>");
    if r.is_some() {
        return Ok(r);
    }
    let r = op_form_exec(&c, ">=");
    if r.is_some() {
        return Ok(r);
    }
    let r = op_form_exec(&c, "<=");
    if r.is_some() {
        return Ok(r);
    }
    let r = op_form_exec(&c, "=");
    if r.is_some() {
        return Ok(r);
    }
    let r = op_form_exec(&c, ">");
    if r.is_some() {
        return Ok(r);
    }
    let r = op_form_exec(&c, "<");
    if r.is_some() {
        return Ok(r);
    }
    let whole = string_of(&c, 0, c.len());
    assert(c@.subrange(0, c@.len() as int) =~= c@);
    Ok(Some(whole))
}

/// The name and constraint of one trimmed alternative: the text before `(`
/// and the constraint between `(` and the next `)`; without a closing `)`
/// the whole text is the name.
pub open spec fn alt_of(alt: Seq<char>) -> (Seq<char>, Option<Seq<char>>) {
    let o = find(alt, '(');
    if o >= 0 {
        let cl = crate::text::find_from(alt, ')', o);
        if cl >= 0 {
            (trim(alt.take(o)), constraint_of(alt.subrange(o + 1, cl)))
        } else {
            (alt, None)
        }
    } else {
        (alt, None)
    }
}

/// The alternatives of the pieces `p[..n]`: trimmed, empty pieces and empty
/// names left out.
pub open spec fn alts_upto(p: Seq<Seq<char>>, n: int) -> Seq<(Seq<char>, Option<Seq<char>>)>
    decreases n,
{
    if n <= 0 || n > p.len() {
        seq![]
    } else {
        let a = trim(p[n - 1]);
        let x = alt_of(a);
        alts_upto(p, n - 1) + if a.len() > 0 && x.0.len() > 0 {
            seq![x]
        } else {
            seq![]
        }
    }
}

/// The alternatives of a dependency such as `"libc6 (>= 2.0) | libc5"`.
pub open spec fn alternatives_of(dep: Seq<char>) -> Seq<(Seq<char>, Option<Seq<char>>)> {
    alts_upto(split(dep, '|'), split(dep, '|').len() as int)
}

/// Rule `r` is alternative `x`, in the group `slot`.
pub open spec fn rule_is(r: DependencyRule, x: (Seq<char>, Option<Seq<char>>), slot: usize) -> bool {
    r.name@ == x.0 && opt_view(r.version_constraint) == x.1 && r.arch is None && r.slot == slot
}

pub open spec fn rules_are(r: Seq<DependencyRule>, xs: Seq<(Seq<char>, Option<Seq<char>>)>, slot: usize) -> bool {
    r.len() == xs.len() && forall|j: int| 0 <= j < r.len() ==> rule_is(#[trigger] r[j], xs[j], slot)
}

/// The alternatives of one dependency, all in the group `slot`.
pub fn parse_rules_in_slot(dep_str: &str, slot: usize) -> (r: Vec<DependencyRule>)
    ensures
        rules_are(r@, alternatives_of(dep_str@), slot),
{
    let pieces = split_chars(&to_chars(dep_str), '|');
    let ghost p = pieces@.map_values(|v: Vec<char>| v@);
    let mut rules: Vec<DependencyRule> = Vec::new();
    let mut i: usize = 0;
    while i < pieces.len()
        invariant
            i <= pieces.len(),
            p == pieces@.map_values(|v: Vec<char>| v@),
            p == split(dep_str@, '|'),
            rules_are(rules@, alts_upto(p, i as int), slot),
        decreases pieces.len() - i,
    {
        assert(p[i as int] == pieces@[i as int]@);
        let alt = trim_chars(&pieces[i]);
        if alt.len() > 0 {
            let o = find_char(&alt, '(', 0);
            proof {
                lemma_find_from_bounds(alt@, '(', 0);
            }
            let (name, vc): (Vec<char>, Option<String>) = if o < alt.len() {
                let cl = find_char(&alt, ')', o);
                proof {
                    lemma_find_from_bounds(alt@, ')', o as int);
                }
                if cl < alt.len() {
                    let nm = trim_chars(&slice_of(&alt, 0, o));
                    assert(alt@.subrange(0, o as int) =~= alt@.take(o as int));
                    let inner = string_of(&alt, o + 1, cl);
                    let vc = match parse_version_constraint(inner.as_str()) {
                        Ok(v) => v,
                        Err(_) => None,
                    };
                    (nm, vc)
                } else {
                    (slice_of(&alt, 0, alt.len()), None)
                }
            } else {
                (slice_of(&alt, 0, alt.len()), None)
            };
            assert(alt@.subrange(0, alt@.len() as int) =~= alt@);
            assert(name@ == alt_of(alt@).0 && opt_view(vc) == alt_of(alt@).1);
            if name.len() > 0 {
                let ghost before = rules@;
                rules.push(
                    DependencyRule { name: string_of(&name, 0, name.len()), version_constraint: vc, arch: None, slot },
                );
                assert(name@.subrange(0, name@.len() as int) =~= name@);
                assert(alts_upto(p, i + 1) == alts_upto(p, i as int) + seq![alt_of(alt@)]);
                assert forall|j: int| 0 <= j < rules@.len() implies rule_is(
                    #[trigger] rules@[j],
                    alts_upto(p, i + 1)[j],
                    slot,
                ) by {
                    if j < before.len() {
                        assert(rules@[j] == before[j]);
                    }
                }
            } else {
                assert(alts_upto(p, i + 1) =~= alts_upto(p, i as int));
            }
        } else {
            assert(alts_upto(p, i + 1) =~= alts_upto(p, i as int));
        }
        i = i + 1;
    }
    rules
}

/// The alternatives of one dependency, in the group 0.
pub fn parse_dependency_rule(dep_str: &str) -> (r: Result<Vec<DependencyRule>, PkgError>)
    ensures
        r matches Ok(v) && rules_are(v@, alternatives_of(dep_str@), 0),
{
    Ok(parse_rules_in_slot(dep_str, 0))
}

} // verus!
