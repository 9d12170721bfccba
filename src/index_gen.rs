//! Writing of `Packages` entries for a repository index.

use vstd::prelude::*;
use vstd::string::StringExecFns;
use crate::error::PkgError;
use crate::package::{views, PackageManifest};

verus! {

/// Generates `Packages` files for one suite, component and architecture of
/// a package directory.
#[derive(Debug)]
pub struct RepositoryIndexGenerator {
    pub package_dir: String,
    pub suite: String,
    pub component: String,
    pub arch: String,
}

pub open spec fn digit_char(d: nat) -> char {
    if d == 0 {
        '0'
    } else if d == 1 {
        '1'
    } else if d == 2 {
        '2'
    } else if d == 3 {
        '3'
    } else if d == 4 {
        '4'
    } else if d == 5 {
        '5'
    } else if d == 6 {
        '6'
    } else if d == 7 {
        '7'
    } else if d == 8 {
        '8'
    } else {
        '9'
    }
}

/// The decimal digits of `n`, without leading zeros.
pub open spec fn decimal(n: nat) -> Seq<char>
    decreases n,
{
    if n < 10 {
        seq![digit_char(n)]
    } else {
        decimal(n / 10).push(digit_char(n % 10))
    }
}

/// The strings of `v` separated by `sep`.
pub open spec fn join(v: Seq<Seq<char>>, sep: Seq<char>) -> Seq<char>
    decreases v.len(),
{
    if v.len() == 0 {
        seq![]
    } else if v.len() == 1 {
        v[0]
    } else {
        join(v.drop_last(), sep) + sep + v.last()
    }
}

pub open spec fn nl() -> Seq<char> {
    seq!['\n']
}

/// A `Key: value` line.
pub open spec fn field_line(key: Seq<char>, value: Seq<char>) -> Seq<char> {
    key + seq![':', ' '] + value + nl()
}

/// A list field's line, or nothing when the list is empty.
pub open spec fn list_line(key: Seq<char>, v: Seq<Seq<char>>) -> Seq<char> {
    if v.len() == 0 {
        seq![]
    } else {
        field_line(key, join(v, seq![',', ' ']))
    }
}

/// The `Packages` entry of a manifest, ending with a blank line.
pub open spec fn entry_text(m: PackageManifest) -> Seq<char> {
    field_line(crate::apt_parser::key_package(), m.name@) + field_line(
        crate::apt_parser::key_version(),
        m.version@,
    ) + field_line(crate::apt_parser::key_arch(), m.arch@) + list_line(
        crate::apt_parser::key_depends(),
        views(m.depends@),
    ) + list_line(crate::apt_parser::key_provides(), views(m.provides@)) + list_line(
        seq!['C', 'o', 'n', 'f', 'l', 'i', 'c', 't', 's'],
        views(m.conflicts@),
    ) + field_line(crate::apt_parser::key_size(), decimal(m.size as nat)) + field_line(
        crate::apt_parser::key_sha256(),
        m.checksum@,
    ) + match m.filename {
        Some(f) => field_line(crate::apt_parser::key_filename(), f@),
        None => seq![],
    } + nl()
}

fn digit_of(d: u64) -> (c: char)
    requires
        d < 10,
    ensures
        c == digit_char(d as nat),
{
    if d == 0 {
        '0'
    } else if d == 1 {
        '1'
    } else if d == 2 {
        '2'
    } else if d == 3 {
        '3'
    } else if d == 4 {
        '4'
    } else if d == 5 {
        '5'
    } else if d == 6 {
        '6'
    } else if d == 7 {
        '7'
    } else if d == 8 {
        '8'
    } else {
        '9'
    }
}

/// Appends the decimal digits of `n`.
pub fn push_decimal(s: &mut String, n: u64)
    ensures
        final(s)@ == old(s)@ + decimal(n as nat),
    decreases n,
{
    if n >= 10 {
        push_decimal(s, n / 10);
    }
    s.push(digit_of(n % 10));
    assert(final(s)@ =~= old(s)@ + decimal(n as nat)) by {
        if n >= 10 {
            assert(decimal(n as nat) == decimal((n / 10) as nat).push(digit_char((n % 10) as nat)));
        }
    }
}

fn push_line(s: &mut String, key: &str, value: &str)
    ensures
        final(s)@ == old(s)@ + field_line(key@, value@),
{
    s.append(key);
    s.append(": ");
    s.append(value);
    s.append("\n");
    proof {
        reveal_strlit(": ");
        reveal_strlit("\n");
    }
    assert(final(s)@ =~= old(s)@ + field_line(key@, value@));
}

fn push_list_line(s: &mut String, key: &str, v: &Vec<String>)
    ensures
        final(s)@ == old(s)@ + list_line(key@, views(v@)),
{
    if v.len() == 0 {
        assert(old(s)@ + list_line(key@, views(v@)) =~= old(s)@);
        return;
    }
    proof {
        reveal_strlit(": ");
        reveal_strlit(", ");
        reveal_strlit("\n");
    }
    let ghost s0 = s@;
    s.append(key);
    s.append(": ");
    let ghost head = s@;
    let mut i: usize = 0;
    while i < v.len()
        invariant
            i <= v.len(),
            s@ == head + join(views(v@).take(i as int), seq![',', ' ']),
        decreases v.len() - i,
    {
        let ghost before = s@;
        if i > 0 {
            s.append(", ");
        }
        s.append(v[i].as_str());
        proof {
            reveal_strlit(", ");
            let t = views(v@).take(i + 1);
            assert(t.drop_last() =~= views(v@).take(i as int));
            assert(t.last() == v@[i as int]@);
            if i == 0 {
                assert(join(t, seq![',', ' ']) == t[0]);
            }
            assert(s@ =~= head + join(t, seq![',', ' ']));
        }
        i = i + 1;
    }
    assert(views(v@).take(v.len() as int) =~= views(v@));
    s.append("\n");
    assert(final(s)@ =~= old(s)@ + list_line(key@, views(v@)));
}

impl RepositoryIndexGenerator {
    pub fn new(package_dir: &str, suite: &str, component: &str, arch: &str) -> (r: Self)
        ensures
            r.package_dir@ == package_dir@,
            r.suite@ == suite@,
            r.component@ == component@,
            r.arch@ == arch@,
    {
        RepositoryIndexGenerator {
            package_dir: String::from_str(package_dir),
            suite: String::from_str(suite),
            component: String::from_str(component),
            arch: String::from_str(arch),
        }
    }

    /// The `Packages` entry of a manifest.
    pub fn format_package_entry(&self, manifest: &PackageManifest) -> (r: Result<String, PkgError>)
        ensures
            r matches Ok(t) && t@ == entry_text(*manifest),
    {
        proof {
            reveal_strlit("Package");
            reveal_strlit("Version");
            reveal_strlit("Architecture");
            reveal_strlit("Depends");
            reveal_strlit("Provides");
            reveal_strlit("Conflicts");
            reveal_strlit("SHA256");
            reveal_strlit("Filename");
            reveal_strlit("\n");
            assert("Package"@ =~= crate::apt_parser::key_package());
            assert("Version"@ =~= crate::apt_parser::key_version());
            assert("Architecture"@ =~= crate::apt_parser::key_arch());
            assert("Depends"@ =~= crate::apt_parser::key_depends());
            assert("Provides"@ =~= crate::apt_parser::key_provides());
            assert("Conflicts"@ =~= seq!['C', 'o', 'n', 'f', 'l', 'i', 'c', 't', 's']);
            assert("SHA256"@ =~= crate::apt_parser::key_sha256());
            assert("Filename"@ =~= crate::apt_parser::key_filename());
            assert("\n"@ =~= nl());
        }
        let mut e = String::new();
        push_line(&mut e, "Package", manifest.name.as_str());
        assert(e@ =~= field_line(crate::apt_parser::key_package(), manifest.name@));
        push_line(&mut e, "Version", manifest.version.as_str());
        push_line(&mut e, "Architecture", manifest.arch.as_str());
        push_list_line(&mut e, "Depends", &manifest.depends);
        push_list_line(&mut e, "Provides", &manifest.provides);
        push_list_line(&mut e, "Conflicts", &manifest.conflicts);
        push_size_line(&mut e, manifest.size);
        push_line(&mut e, "SHA256", manifest.checksum.as_str());
        let ghost before = e@;
        match &manifest.filename {
            Some(f) => {
                push_line(&mut e, "Filename", f.as_str());
            },
            None => {
                assert(before =~= before + Seq::<char>::empty());
            },
        }
        e.append("\n");
        Ok(e)
    }
}

fn push_size_line(s: &mut String, n: u64)
    ensures
        final(s)@ == old(s)@ + field_line(crate::apt_parser::key_size(), decimal(n as nat)),
{
    proof {
        reveal_strlit("Size: ");
        reveal_strlit("\n");
    }
    s.append("Size: ");
    push_decimal(s, n);
    s.append("\n");
    assert(final(s)@ =~= old(s)@ + field_line(crate::apt_parser::key_size(), decimal(n as nat)));
}

} // verus!
