//! Formatting a manifest as a `Packages` entry and parsing it back gives
//! the same name, version, architecture, dependencies, provides, size,
//! checksum and file name.

use vstd::prelude::*;
use crate::apt_parser::{
    blocks_of, close, depends_list, digit_value, digits_value,
    key_arch, key_depends, key_filename, key_index, key_package, key_provides, key_sha256,
    key_size, key_version, lookup, opt_view, parse_u64_spec, provides_list, run, step,
    trimmed_names, upsert,
};
use crate::index_gen::{decimal, digit_char, entry_text, field_line, join, list_line, nl};
use crate::package::{views, PackageManifest};
use crate::text::{find, find_from, is_ws, split, split_from, trim, ws_end, ws_start};

verus! {

// ---------------------------------------------------------------------------
// Splitting
// ---------------------------------------------------------------------------

proof fn lemma_split_shift(p: Seq<char>, y: Seq<char>, c: char, a: int, i: int)
    requires
        p.len() <= a <= i <= p.len() + y.len(),
    ensures
        split_from(p + y, c, a, i) == split_from(y, c, a - p.len(), i - p.len()),
    decreases p.len() + y.len() - i,
{
    let s = p + y;
    if i < s.len() {
        assert(s[i] == y[i - p.len()]);
        if s[i] == c {
            lemma_split_shift(p, y, c, i + 1, i + 1);
            assert(s.subrange(a, i) =~= y.subrange(a - p.len(), i - p.len()));
        } else {
            lemma_split_shift(p, y, c, a, i + 1);
        }
    } else {
        assert(s.subrange(a, s.len() as int) =~= y.subrange(a - p.len(), y.len() as int));
    }
}

proof fn lemma_split_concat_from(a: Seq<char>, b: Seq<char>, c: char, st: int, i: int)
    requires
        0 <= st <= i <= a.len(),
    ensures
        split_from(a + seq![c] + b, c, st, i) == split_from(a, c, st, i) + split(b, c),
    decreases a.len() - i,
{
    let s = a + seq![c] + b;
    if i == a.len() {
        assert(s[i] == c);
        lemma_split_shift(a + seq![c], b, c, i + 1, i + 1);
        assert(a + seq![c] + b == (a + seq![c]) + b);
        assert(s.subrange(st, i) =~= a.subrange(st, a.len() as int));
    } else {
        assert(s[i] == a[i]);
        if a[i] == c {
            lemma_split_concat_from(a, b, c, i + 1, i + 1);
            assert(s.subrange(st, i) =~= a.subrange(st, i));
            assert(seq![a.subrange(st, i)] + (split_from(a, c, i + 1, i + 1) + split(b, c)) =~= (seq![
                a.subrange(st, i),
            ] + split_from(a, c, i + 1, i + 1)) + split(b, c));
        } else {
            lemma_split_concat_from(a, b, c, st, i + 1);
        }
    }
}

/// Splitting at one separator splits the two sides apart.
proof fn lemma_split_concat(a: Seq<char>, b: Seq<char>, c: char)
    ensures
        split(a + seq![c] + b, c) == split(a, c) + split(b, c),
{
    lemma_split_concat_from(a, b, c, 0, 0);
}

proof fn lemma_split_none_from(x: Seq<char>, c: char, i: int)
    requires
        0 <= i <= x.len(),
        forall|k: int| 0 <= k < x.len() ==> x[k] != c,
    ensures
        split_from(x, c, 0, i) == seq![x],
    decreases x.len() - i,
{
    if i < x.len() {
        lemma_split_none_from(x, c, i + 1);
    } else {
        assert(x.subrange(0, x.len() as int) =~= x);
    }
}

proof fn lemma_split_none(x: Seq<char>, c: char)
    requires
        forall|k: int| 0 <= k < x.len() ==> x[k] != c,
    ensures
        split(x, c) == seq![x],
{
    lemma_split_none_from(x, c, 0);
}

// ---------------------------------------------------------------------------
// Plain keys and values
// ---------------------------------------------------------------------------

/// A field name: not empty, without whitespace or `:`.
pub open spec fn key_ok(k: Seq<char>) -> bool {
    k.len() > 0 && forall|j: int| 0 <= j < k.len() ==> !is_ws(#[trigger] k[j]) && k[j] != ':'
}

/// A field value on one line, without surrounding whitespace.
pub open spec fn value_ok(v: Seq<char>) -> bool {
    (forall|j: int| 0 <= j < v.len() ==> #[trigger] v[j] != '\n') && (v.len() == 0 || (!is_ws(v[0])
        && !is_ws(v[v.len() - 1])))
}

/// A list item: a plain non-empty value without `,`.
pub open spec fn item_ok(v: Seq<char>) -> bool {
    v.len() > 0 && value_ok(v) && forall|j: int| 0 <= j < v.len() ==> #[trigger] v[j] != ','
}

pub open spec fn kv_line(kv: (Seq<char>, Seq<char>)) -> Seq<char> {
    kv.0 + seq![':', ' '] + kv.1
}

proof fn lemma_trim_plain(v: Seq<char>)
    requires
        value_ok(v),
    ensures
        trim(v) == v,
        trim(seq![' '] + v) == v,
{
    let n = v.len() as int;
    let s = seq![' '] + v;
    if n > 0 {
        assert(ws_end(v, 0) == 0);
        assert(ws_start(v, 0, n) == n);
        assert(v.subrange(0, n) =~= v);
        assert(s[1] == v[0]);
        assert(ws_end(s, 1) == 1);
        assert(ws_end(s, 0) == 1);
        assert(s[n] == v[n - 1]);
        assert(ws_start(s, 1, n + 1) == n + 1);
        assert(s.subrange(1, n + 1) =~= v);
    } else {
        assert(trim(v) =~= v);
        assert(ws_end(s, 1) == 1);
        assert(ws_start(s, 1, 1) == 1);
        assert(trim(s) =~= v);
    }
}

proof fn lemma_find_at(s: Seq<char>, c: char, i: int, t: int)
    requires
        0 <= i <= t < s.len(),
        s[t] == c,
        forall|j: int| i <= j < t ==> s[j] != c,
    ensures
        find_from(s, c, i) == t,
    decreases t - i,
{
    if i < t {
        lemma_find_at(s, c, i + 1, t);
    }
}

proof fn lemma_key_absent(f: Seq<(Seq<char>, Seq<char>)>, k: Seq<char>, i: int)
    requires
        0 <= i,
        forall|j: int| i <= j < f.len() ==> (#[trigger] f[j]).0 != k,
    ensures
        key_index(f, k, i) == -1,
    decreases f.len() - i,
{
    if i < f.len() {
        lemma_key_absent(f, k, i + 1);
    }
}

proof fn lemma_key_at(f: Seq<(Seq<char>, Seq<char>)>, k: Seq<char>, i: int, t: int)
    requires
        0 <= i <= t < f.len(),
        f[t].0 == k,
        forall|j: int| i <= j < t ==> (#[trigger] f[j]).0 != k,
    ensures
        key_index(f, k, i) == t,
    decreases t - i,
{
    if i < t {
        lemma_key_at(f, k, i + 1, t);
    }
}

/// Reading the line of a field whose key is new adds the field.
proof fn lemma_step_line(
    st: (Seq<Seq<(Seq<char>, Seq<char>)>>, Seq<(Seq<char>, Seq<char>)>, bool, Option<Seq<char>>),
    kv: (Seq<char>, Seq<char>),
)
    requires
        key_ok(kv.0),
        value_ok(kv.1),
        forall|j: int| 0 <= j < st.1.len() ==> (#[trigger] st.1[j]).0 != kv.0,
    ensures
        step(st, kv_line(kv)) == (st.0, st.1.push(kv), true, Some(kv.0)),
{
    let k = kv.0;
    let v = kv.1;
    let raw = kv_line(kv);
    let kl = k.len() as int;
    assert(raw[0] == k[0]);
    assert(ws_end(raw, 0) == 0);
    assert(raw[kl] == ':');
    assert(raw[kl + 1] == ' ');
    let line = trim(raw);
    if v.len() > 0 {
        assert(raw[raw.len() - 1] == v[v.len() - 1]);
        assert(ws_start(raw, 0, raw.len() as int) == raw.len());
        assert(line =~= raw);
    } else {
        assert(ws_start(raw, 0, raw.len() - 1) == raw.len() - 1);
        assert(ws_start(raw, 0, raw.len() as int) == raw.len() - 1);
        assert(line =~= k + seq![':']);
    }
    assert(line.len() > 0);
    assert(forall|j: int| 0 <= j < kl ==> line[j] == k[j]);
    lemma_find_at(line, ':', 0, kl);
    assert(find(line, ':') == kl);
    assert(line.take(kl) =~= k);
    assert(ws_end(k, 0) == 0);
    assert(ws_start(k, 0, kl) == kl);
    assert(trim(k) =~= k);
    lemma_trim_plain(v);
    if v.len() > 0 {
        assert(line.skip(kl + 1) =~= seq![' '] + v);
    } else {
        assert(line.skip(kl + 1) =~= v);
    }
    lemma_key_absent(st.1, k, 0);
    assert(upsert(st.1, k, v) == st.1.push((k, v)));
    assert(!crate::apt_parser::is_continuation(raw));
}

/// The fields have valid keys and values, with distinct keys.
pub open spec fn good_kvs(kvs: Seq<(Seq<char>, Seq<char>)>) -> bool {
    &&& forall|i: int| 0 <= i < kvs.len() ==> key_ok((#[trigger] kvs[i]).0) && value_ok(kvs[i].1)
    &&& forall|i: int, j: int|
        0 <= i < j < kvs.len() ==> (#[trigger] kvs[i]).0 != (#[trigger] kvs[j]).0
}

proof fn lemma_run_lines(
    kvs: Seq<(Seq<char>, Seq<char>)>,
    ls: Seq<Seq<char>>,
    n: int,
)
    requires
        good_kvs(kvs),
        0 <= n <= kvs.len(),
        kvs.len() <= ls.len(),
        forall|i: int| 0 <= i < kvs.len() ==> ls[i] == kv_line(kvs[i]),
    ensures
        run(ls, n) == (
            Seq::<Seq<(Seq<char>, Seq<char>)>>::empty(),
            kvs.take(n),
            n > 0,
            if n > 0 {
                Some(kvs[n - 1].0)
            } else {
                None
            },
        ),
    decreases n,
{
    if n == 0 {
        assert(kvs.take(0) =~= Seq::<(Seq<char>, Seq<char>)>::empty());
    } else {
        lemma_run_lines(kvs, ls, n - 1);
        let st = run(ls, n - 1);
        assert forall|j: int| 0 <= j < st.1.len() implies (#[trigger] st.1[j]).0 != kvs[n - 1].0 by {
            assert(st.1[j] == kvs[j]);
        }
        lemma_step_line(st, kvs[n - 1]);
        assert(kvs.take(n - 1).push(kvs[n - 1]) =~= kvs.take(n));
    }
}

proof fn lemma_run_prefix(a: Seq<Seq<char>>, b: Seq<Seq<char>>, n: int)
    requires
        0 <= n <= a.len(),
    ensures
        run(a + b, n) == run(a, n),
    decreases n,
{
    if n > 0 {
        lemma_run_prefix(a, b, n - 1);
        assert((a + b)[n - 1] == a[n - 1]);
    }
}

// ---------------------------------------------------------------------------
// The text of an entry
// ---------------------------------------------------------------------------

pub open spec fn lines_text(kvs: Seq<(Seq<char>, Seq<char>)>) -> Seq<char>
    decreases kvs.len(),
{
    if kvs.len() == 0 {
        seq![]
    } else {
        lines_text(kvs.drop_last()) + kv_line(kvs.last()) + nl()
    }
}

/// The lines of a non-empty field list, without the final newline.
pub open spec fn body(kvs: Seq<(Seq<char>, Seq<char>)>) -> Seq<char> {
    lines_text(kvs.drop_last()) + kv_line(kvs.last())
}

proof fn lemma_no_newline_line(kv: (Seq<char>, Seq<char>))
    requires
        key_ok(kv.0),
        value_ok(kv.1),
    ensures
        forall|j: int| 0 <= j < kv_line(kv).len() ==> kv_line(kv)[j] != '\n',
{
    assert forall|j: int| 0 <= j < kv_line(kv).len() implies kv_line(kv)[j] != '\n' by {
        let k = kv.0;
        if j < k.len() {
            assert(kv_line(kv)[j] == k[j]);
        } else if j >= k.len() + 2 {
            assert(kv_line(kv)[j] == kv.1[j - k.len() - 2]);
        }
    }
}

proof fn lemma_split_body(kvs: Seq<(Seq<char>, Seq<char>)>)
    requires
        kvs.len() > 0,
        good_kvs(kvs),
    ensures
        split(body(kvs), '\n') == kvs.map_values(|kv: (Seq<char>, Seq<char>)| kv_line(kv)),
    decreases kvs.len(),
{
    let last = kvs.last();
    lemma_no_newline_line(last);
    let init = kvs.drop_last();
    if init.len() == 0 {
        assert(lines_text(init) =~= Seq::<char>::empty());
        assert(body(kvs) =~= kv_line(last));
        lemma_split_none(kv_line(last), '\n');
        assert(kvs.map_values(|kv: (Seq<char>, Seq<char>)| kv_line(kv)) =~= seq![kv_line(last)]);
    } else {
        assert(good_kvs(init)) by {
            assert forall|i: int, j: int| 0 <= i < j < init.len() implies (#[trigger] init[i]).0 != (
            #[trigger] init[j]).0 by {
                assert(init[i] == kvs[i]);
                assert(init[j] == kvs[j]);
            }
            assert forall|i: int| 0 <= i < init.len() implies key_ok((#[trigger] init[i]).0)
                && value_ok(init[i].1) by {
                assert(init[i] == kvs[i]);
            }
        }
        lemma_split_body(init);
        assert(body(kvs) =~= body(init) + seq!['\n'] + kv_line(last));
        lemma_split_concat(body(init), kv_line(last), '\n');
        lemma_split_none(kv_line(last), '\n');
        assert(kvs.map_values(|kv: (Seq<char>, Seq<char>)| kv_line(kv)) =~= init.map_values(
            |kv: (Seq<char>, Seq<char>)| kv_line(kv),
        ).push(kv_line(last)));
    }
}

/// The fields of a manifest's entry, in the order they are written.
pub open spec fn entry_kvs(m: PackageManifest) -> Seq<(Seq<char>, Seq<char>)> {
    let k1 = seq![(key_package(), m.name@), (key_version(), m.version@), (key_arch(), m.arch@)];
    let k2 = if m.depends@.len() > 0 {
        k1.push((key_depends(), join(views(m.depends@), seq![',', ' '])))
    } else {
        k1
    };
    let k3 = if m.provides@.len() > 0 {
        k2.push((key_provides(), join(views(m.provides@), seq![',', ' '])))
    } else {
        k2
    };
    let k4 = if m.conflicts@.len() > 0 {
        k3.push(
            (
                seq!['C', 'o', 'n', 'f', 'l', 'i', 'c', 't', 's'],
                join(views(m.conflicts@), seq![',', ' ']),
            ),
        )
    } else {
        k3
    };
    let k5 = k4.push((key_size(), decimal(m.size as nat))).push((key_sha256(), m.checksum@));
    match m.filename {
        Some(f) => k5.push((key_filename(), f@)),
        None => k5,
    }
}

proof fn lemma_lines_push(kvs: Seq<(Seq<char>, Seq<char>)>, kv: (Seq<char>, Seq<char>))
    ensures
        lines_text(kvs.push(kv)) == lines_text(kvs) + field_line(kv.0, kv.1),
{
    assert(kvs.push(kv).drop_last() =~= kvs);
    assert(lines_text(kvs) + kv_line(kv) + nl() =~= lines_text(kvs) + field_line(kv.0, kv.1));
}

proof fn lemma_entry_text(m: PackageManifest)
    ensures
        entry_text(m) == lines_text(entry_kvs(m)) + nl(),
{
    let e = seq![];
    let p = (key_package(), m.name@);
    let v = (key_version(), m.version@);
    let a = (key_arch(), m.arch@);
    lemma_lines_push(e, p);
    lemma_lines_push(seq![p], v);
    lemma_lines_push(seq![p, v], a);
    assert(seq![p].drop_last() =~= e);
    assert(e.push(p) =~= seq![p]);
    assert(seq![p].push(v) =~= seq![p, v]);
    assert(seq![p, v].push(a) =~= seq![p, v, a]);
    assert(lines_text(e) =~= Seq::<char>::empty());
    let k1 = seq![p, v, a];
    assert(lines_text(k1) =~= field_line(p.0, p.1) + field_line(v.0, v.1) + field_line(a.0, a.1));
    let k2 = if m.depends@.len() > 0 {
        k1.push((key_depends(), join(views(m.depends@), seq![',', ' '])))
    } else {
        k1
    };
    if m.depends@.len() > 0 {
        lemma_lines_push(k1, (key_depends(), join(views(m.depends@), seq![',', ' '])));
    }
    assert(lines_text(k2) =~= lines_text(k1) + list_line(key_depends(), views(m.depends@)));
    let k3 = if m.provides@.len() > 0 {
        k2.push((key_provides(), join(views(m.provides@), seq![',', ' '])))
    } else {
        k2
    };
    if m.provides@.len() > 0 {
        lemma_lines_push(k2, (key_provides(), join(views(m.provides@), seq![',', ' '])));
    }
    assert(lines_text(k3) =~= lines_text(k2) + list_line(key_provides(), views(m.provides@)));
    let ck = seq!['C', 'o', 'n', 'f', 'l', 'i', 'c', 't', 's'];
    let k4 = if m.conflicts@.len() > 0 {
        k3.push((ck, join(views(m.conflicts@), seq![',', ' '])))
    } else {
        k3
    };
    if m.conflicts@.len() > 0 {
        lemma_lines_push(k3, (ck, join(views(m.conflicts@), seq![',', ' '])));
    }
    assert(lines_text(k4) =~= lines_text(k3) + list_line(ck, views(m.conflicts@)));
    let s = (key_size(), decimal(m.size as nat));
    let h = (key_sha256(), m.checksum@);
    lemma_lines_push(k4, s);
    lemma_lines_push(k4.push(s), h);
    let k5 = k4.push(s).push(h);
    match m.filename {
        Some(f) => {
            lemma_lines_push(k5, (key_filename(), f@));
        },
        None => {},
    }
    assert(entry_text(m) =~= lines_text(entry_kvs(m)) + nl());
}

// ---------------------------------------------------------------------------
// Blocks and lookups
// ---------------------------------------------------------------------------

proof fn lemma_trim_empty()
    ensures
        trim(Seq::<char>::empty()) == Seq::<char>::empty(),
{
    assert(trim(Seq::<char>::empty()) =~= Seq::<char>::empty());
}

proof fn lemma_lookup_at(f: Seq<(Seq<char>, Seq<char>)>, t: int)
    requires
        good_kvs(f),
        0 <= t < f.len(),
    ensures
        lookup(f, f[t].0) == Some(f[t].1),
{
    assert forall|j: int| 0 <= j < t implies (#[trigger] f[j]).0 != f[t].0 by {}
    lemma_key_at(f, f[t].0, 0, t);
}

proof fn lemma_lookup_absent(f: Seq<(Seq<char>, Seq<char>)>, k: Seq<char>)
    requires
        forall|j: int| 0 <= j < f.len() ==> (#[trigger] f[j]).0 != k,
    ensures
        lookup(f, k) is None,
{
    lemma_key_absent(f, k, 0);
}

/// The entry of a field list with a package and a version parses into one
/// block holding exactly those fields.
proof fn lemma_blocks_of_lines(kvs: Seq<(Seq<char>, Seq<char>)>)
    requires
        good_kvs(kvs),
        kvs.len() >= 2,
        kvs[0].0 == key_package(),
        kvs[1].0 == key_version(),
    ensures
        blocks_of(lines_text(kvs) + nl()) == seq![kvs],
{
    let text = lines_text(kvs) + nl();
    assert(lines_text(kvs) == body(kvs) + nl());
    assert(text =~= body(kvs) + seq!['\n'] + seq!['\n']);
    lemma_split_concat(body(kvs), seq!['\n'], '\n');
    assert(seq!['\n'] =~= Seq::<char>::empty() + seq!['\n'] + Seq::<char>::empty());
    lemma_split_concat(Seq::<char>::empty(), Seq::<char>::empty(), '\n');
    lemma_split_none(Seq::<char>::empty(), '\n');
    lemma_split_body(kvs);
    let contents = kvs.map_values(|kv: (Seq<char>, Seq<char>)| kv_line(kv));
    let e = Seq::<char>::empty();
    let ls = split(text, '\n');
    assert(ls =~= contents + seq![e, e]);
    let n = kvs.len() as int;
    lemma_run_lines(kvs, ls, n);
    assert(kvs.take(n) =~= kvs);
    lemma_trim_empty();
    lemma_lookup_at(kvs, 0);
    lemma_lookup_at(kvs, 1);
    assert(close(run(ls, n)) == seq![kvs]);
    assert(run(ls, n + 1) == step(run(ls, n), ls[n]));
    assert(ls[n] == e);
    assert(run(ls, n + 1) == (seq![kvs], Seq::<(Seq<char>, Seq<char>)>::empty(), false, None::<Seq<char>>));
    assert(run(ls, n + 2) == step(run(ls, n + 1), ls[n + 1]));
    assert(ls[n + 1] == e);
    lemma_lookup_absent(Seq::<(Seq<char>, Seq<char>)>::empty(), key_package());
    assert(ls.len() == n + 2);
}

// ---------------------------------------------------------------------------
// Lists and numbers read back
// ---------------------------------------------------------------------------

#[verifier::spinoff_prover]
#[verifier::rlimit(40)]
proof fn lemma_join_value(v: Seq<Seq<char>>)
    requires
        v.len() > 0,
        forall|i: int| 0 <= i < v.len() ==> item_ok(#[trigger] v[i]),
    ensures
        value_ok(join(v, seq![',', ' '])),
        join(v, seq![',', ' ']).len() > 0,
        join(v, seq![',', ' '])[0] == v[0][0],
    decreases v.len(),
{
    let j = join(v, seq![',', ' ']);
    if v.len() > 1 {
        let init = v.drop_last();
        lemma_join_value(init);
        let ji = join(init, seq![',', ' ']);
        let last = v.last();
        assert(item_ok(last));
        assert(j == ji + seq![',', ' '] + last);
        assert(j[0] == ji[0]);
        assert(init[0] == v[0]);
        assert(j[j.len() - 1] == last[last.len() - 1]);
        assert forall|k: int| 0 <= k < j.len() implies #[trigger] j[k] != '\n' by {
            if k < ji.len() {
                assert(j[k] == ji[k]);
            } else if k >= ji.len() + 2 {
                assert(j[k] == last[k - ji.len() - 2]);
            }
        }
    } else {
        assert(item_ok(v[0]));
    }
}

/// The pieces of a joined list when split at commas.
pub open spec fn pieces(v: Seq<Seq<char>>) -> Seq<Seq<char>> {
    Seq::new(v.len(), |i: int| if i == 0 {
        v[0]
    } else {
        seq![' '] + v[i]
    })
}

proof fn lemma_split_join(v: Seq<Seq<char>>)
    requires
        v.len() > 0,
        forall|i: int| 0 <= i < v.len() ==> item_ok(#[trigger] v[i]),
    ensures
        split(join(v, seq![',', ' ']), ',') == pieces(v),
    decreases v.len(),
{
    if v.len() == 1 {
        assert(item_ok(v[0]));
        lemma_split_none(v[0], ',');
        assert(pieces(v) =~= seq![v[0]]);
    } else {
        let init = v.drop_last();
        let last = v.last();
        assert(item_ok(last));
        lemma_split_join(init);
        let ji = join(init, seq![',', ' ']);
        assert(join(v, seq![',', ' ']) =~= ji + seq![','] + (seq![' '] + last));
        lemma_split_concat(ji, seq![' '] + last, ',');
        assert forall|k: int| 0 <= k < (seq![' '] + last).len() implies (seq![' '] + last)[k] != ',' by {
            if k > 0 {
                assert((seq![' '] + last)[k] == last[k - 1]);
            }
        }
        lemma_split_none(seq![' '] + last, ',');
        assert(pieces(v) =~= pieces(init).push(seq![' '] + last));
    }
}

proof fn lemma_provide_list(v: Seq<Seq<char>>, n: int)
    requires
        0 <= n <= v.len(),
        forall|i: int| 0 <= i < v.len() ==> item_ok(#[trigger] v[i]),
    ensures
        trimmed_names(pieces(v), n) == v.take(n),
    decreases n,
{
    if n == 0 {
        assert(v.take(0) =~= Seq::<Seq<char>>::empty());
    } else {
        lemma_provide_list(v, n - 1);
        let w = v[n - 1];
        assert(item_ok(w));
        lemma_trim_plain(w);
        assert(trim(pieces(v)[n - 1]) == w);
        assert(v.take(n - 1).push(w) =~= v.take(n));
    }
}

proof fn lemma_provides_join(v: Seq<Seq<char>>)
    requires
        v.len() > 0,
        forall|i: int| 0 <= i < v.len() ==> item_ok(#[trigger] v[i]),
    ensures
        provides_list(join(v, seq![',', ' '])) == v,
{
    lemma_split_join(v);
    lemma_provide_list(v, v.len() as int);
    assert(v.take(v.len() as int) =~= v);
}

proof fn lemma_decimal(n: nat)
    ensures
        decimal(n).len() > 0,
        crate::version::all_digits(decimal(n)),
        digits_value(decimal(n)) == n,
        decimal(n)[0] != '+',
        value_ok(decimal(n)),
    decreases n,
{
    let d = decimal(n);
    let c = digit_char(n % 10);
    assert(crate::text::is_digit(c));
    assert(digit_value(c) == n % 10);
    if n >= 10 {
        lemma_decimal(n / 10);
        let h = decimal(n / 10);
        assert(d == h.push(c));
        assert(d.drop_last() =~= h);
        assert(d[0] == h[0]);
        assert forall|k: int| 0 <= k < d.len() implies crate::text::is_digit(#[trigger] d[k]) by {
            if k < h.len() {
                assert(d[k] == h[k]);
            }
        }
        assert(n / 10 * 10 + n % 10 == n);
        assert(d.last() == c);
        assert(digits_value(d) == digits_value(d.drop_last()) * 10 + digit_value(d.last()));
        assert(digits_value(d) == (n / 10) * 10 + n % 10);
    } else {
        assert(d =~= seq![digit_char(n)]);
        assert(d.drop_last() =~= Seq::<char>::empty());
        assert(n % 10 == n);
        assert(d.last() == c);
        assert(digits_value(d) == digits_value(d.drop_last()) * 10 + digit_value(d.last()));
    }
    assert forall|k: int| 0 <= k < d.len() implies #[trigger] d[k] != '\n' by {
        assert(crate::version::all_digits(d));
        assert(crate::text::is_digit(d[k]));
    }
}

proof fn lemma_decimal_parses(n: u64)
    ensures
        parse_u64_spec(decimal(n as nat)) == Some(n),
{
    lemma_decimal(n as nat);
}

// ---------------------------------------------------------------------------
// The law
// ---------------------------------------------------------------------------

/// A manifest whose fields can be written as `Packages` lines: one-line
/// values without surrounding whitespace, and list items without commas.
pub open spec fn writable(m: PackageManifest) -> bool {
    &&& value_ok(m.name@)
    &&& value_ok(m.version@)
    &&& value_ok(m.arch@)
    &&& value_ok(m.checksum@)
    &&& (m.filename matches Some(f) ==> value_ok(f@))
    &&& forall|i: int| 0 <= i < m.depends@.len() ==> item_ok(#[trigger] views(m.depends@)[i])
    &&& forall|i: int| 0 <= i < m.provides@.len() ==> item_ok(#[trigger] views(m.provides@)[i])
    &&& forall|i: int| 0 <= i < m.conflicts@.len() ==> item_ok(#[trigger] views(m.conflicts@)[i])
}

proof fn lemma_entry_good(m: PackageManifest)
    requires
        writable(m),
    ensures
        good_kvs(entry_kvs(m)),
{
    lemma_decimal(m.size as nat);
    if m.depends@.len() > 0 {
        lemma_join_value(views(m.depends@));
    }
    if m.provides@.len() > 0 {
        lemma_join_value(views(m.provides@));
    }
    if m.conflicts@.len() > 0 {
        lemma_join_value(views(m.conflicts@));
    }
    let kvs = entry_kvs(m);
    assert forall|i: int| 0 <= i < kvs.len() implies key_ok((#[trigger] kvs[i]).0) && value_ok(kvs[i].1) by {}
    assert forall|i: int, j: int| 0 <= i < j < kvs.len() implies (#[trigger] kvs[i]).0 != (#[trigger] kvs[j]).0 by {
        let a = kvs[i].0;
        let b = kvs[j].0;
        if a.len() == b.len() && a.len() > 1 {
            assert(a[0] != b[0] || a[1] != b[1]);
        }
    }
}

/// Writing a manifest as a `Packages` entry and reading the entry back
/// gives one block, and any manifest read from it agrees with the written
/// one on name, version, architecture, dependencies, provides, size,
/// checksum and file name.
pub proof fn lemma_format_parse_round_trip(m: PackageManifest, p: PackageManifest, ts: i64)
    requires
        writable(m),
        blocks_of(entry_text(m)).len() == 1 ==> crate::apt_parser::manifest_of(
            p,
            blocks_of(entry_text(m))[0],
            ts,
        ),
    ensures
        blocks_of(entry_text(m)).len() == 1,
        p.name@ == m.name@,
        p.version@ == m.version@,
        p.arch@ == m.arch@,
        views(p.depends@) == views(m.depends@),
        views(p.provides@) == views(m.provides@),
        p.size == m.size,
        p.checksum@ == m.checksum@,
        opt_view(p.filename) == opt_view(m.filename),
{
    lemma_entry_good(m);
    lemma_entry_text(m);
    let kvs = entry_kvs(m);
    lemma_blocks_of_lines(kvs);
    assert(blocks_of(entry_text(m)) == seq![kvs]);
    let d: int = if m.depends@.len() > 0 { 1 } else { 0 };
    let r: int = if m.provides@.len() > 0 { 1 } else { 0 };
    let c: int = if m.conflicts@.len() > 0 { 1 } else { 0 };
    lemma_lookup_at(kvs, 0);
    lemma_lookup_at(kvs, 1);
    lemma_lookup_at(kvs, 2);
    lemma_lookup_at(kvs, 3 + d + r + c);
    lemma_lookup_at(kvs, 4 + d + r + c);
    if m.depends@.len() > 0 {
        lemma_lookup_at(kvs, 3);
        lemma_provides_join(views(m.depends@));
    } else {
        lemma_lookup_absent(kvs, key_depends());
        assert(views(m.depends@) =~= Seq::<Seq<char>>::empty());
    }
    if m.provides@.len() > 0 {
        lemma_lookup_at(kvs, 3 + d);
        lemma_provides_join(views(m.provides@));
    } else {
        lemma_lookup_absent(kvs, key_provides());
        assert(views(m.provides@) =~= Seq::<Seq<char>>::empty());
    }
    lemma_decimal_parses(m.size);
    match m.filename {
        Some(f) => {
            lemma_lookup_at(kvs, 5 + d + r + c);
        },
        None => {
            lemma_lookup_absent(kvs, key_filename());
        },
    }
}

} // verus!
