//! Decisions of the `update` flow: which index files to try for a
//! repository, and whether its release signature lets it be used.

use vstd::prelude::*;
use vstd::string::StringExecFns;
use crate::error::PkgError;
use crate::text::{to_chars, string_of};

verus! {

/// `url` without its trailing slashes.
pub open spec fn trim_slashes(url: Seq<char>) -> Seq<char>
    decreases url.len(),
{
    if url.len() > 0 && url.last() == '/' {
        trim_slashes(url.drop_last())
    } else {
        url
    }
}

/// `base/dists/suite/component/binary-arch/Packages` followed by `ext`.
pub open spec fn index_url(
    base: Seq<char>,
    suite: Seq<char>,
    component: Seq<char>,
    arch: Seq<char>,
    ext: Seq<char>,
) -> Seq<char> {
    trim_slashes(base) + seq!['/', 'd', 'i', 's', 't', 's', '/'] + suite + seq!['/'] + component
        + seq!['/', 'b', 'i', 'n', 'a', 'r', 'y', '-'] + arch + seq![
        '/',
        'P',
        'a',
        'c',
        'k',
        'a',
        'g',
        'e',
        's',
    ] + ext
}

fn trim_slashes_exec(url: &str) -> (r: String)
    ensures
        r@ == trim_slashes(url@),
{
    let u = to_chars(url);
    let mut n = u.len();
    assert(u@.take(n as int) =~= u@);
    while n > 0 && u[n - 1] == '/'
        invariant
            n <= u.len(),
            trim_slashes(u@) == trim_slashes(u@.take(n as int)),
        decreases n,
    {
        assert(u@.take(n as int).drop_last() =~= u@.take(n - 1));
        n = n - 1;
    }
    let r = string_of(&u, 0, n);
    assert(u@.subrange(0, n as int) =~= u@.take(n as int));
    r
}

fn index_url_exec(base: &String, suite: &str, component: &str, arch: &str, ext: &str) -> (r: String)
    ensures
        r@ == base@ + seq!['/', 'd', 'i', 's', 't', 's', '/'] + suite@ + seq!['/']
            + component@ + seq!['/', 'b', 'i', 'n', 'a', 'r', 'y', '-'] + arch@ + seq![
            '/',
            'P',
            'a',
            'c',
            'k',
            'a',
            'g',
            'e',
            's',
        ] + ext@,
{
    proof {
        reveal_strlit("/dists/");
        reveal_strlit("/");
        reveal_strlit("/binary-");
        reveal_strlit("/Packages");
    }
    let mut r = base.clone();
    r.append("/dists/");
    r.append(suite);
    r.append("/");
    r.append(component);
    r.append("/binary-");
    r.append(arch);
    r.append("/Packages");
    r.append(ext);
    assert(r@ =~= base@ + seq!['/', 'd', 'i', 's', 't', 's', '/'] + suite@ + seq!['/']
        + component@ + seq!['/', 'b', 'i', 'n', 'a', 'r', 'y', '-'] + arch@ + seq![
        '/',
        'P',
        'a',
        'c',
        'k',
        'a',
        'g',
        'e',
        's',
    ] + ext@);
    r
}

/// The index files to try for one component and architecture of a
/// repository, in order: xz-compressed, gzip-compressed, plain.
pub fn packages_index_urls(repo_url: &str, suite: &str, component: &str, arch: &str) -> (r: Vec<
    String,
>)
    ensures
        crate::package::views(r@) == seq![
            index_url(repo_url@, suite@, component@, arch@, seq!['.', 'x', 'z']),
            index_url(repo_url@, suite@, component@, arch@, seq!['.', 'g', 'z']),
            index_url(repo_url@, suite@, component@, arch@, seq![]),
        ],
{
    proof {
        reveal_strlit(".xz");
        reveal_strlit(".gz");
        reveal_strlit("");
        assert(".xz"@ =~= seq!['.', 'x', 'z']);
        assert(".gz"@ =~= seq!['.', 'g', 'z']);
        assert(""@ =~= Seq::<char>::empty());
    }
    let base = trim_slashes_exec(repo_url);
    let mut r: Vec<String> = Vec::new();
    r.push(index_url_exec(&base, suite, component, arch, ".xz"));
    r.push(index_url_exec(&base, suite, component, arch, ".gz"));
    r.push(index_url_exec(&base, suite, component, arch, ""));
    assert(crate::package::views(r@) =~= seq![
        index_url(repo_url@, suite@, component@, arch@, seq!['.', 'x', 'z']),
        index_url(repo_url@, suite@, component@, arch@, seq!['.', 'g', 'z']),
        index_url(repo_url@, suite@, component@, arch@, seq![]),
    ]);
    r
}

/// Whether a repository may be used after its release files were checked:
/// without trusted keys anything goes; with them, a verified `InRelease` or
/// a verified `Release.gpg` is needed, and otherwise the repository is
/// skipped with a signature error.
pub fn release_verdict(require_signatures: bool, inrelease_ok: bool, release_gpg_ok: bool) -> (r:
    Result<(), PkgError>)
    ensures
        r is Ok <==> (!require_signatures || inrelease_ok || release_gpg_ok),
        r matches Err(e) ==> e is Signature,
{
    if !require_signatures || inrelease_ok || release_gpg_ok {
        Ok(())
    } else {
        Err(PkgError::Signature(String::from_str("no verified release signature")))
    }
}

} // verus!
