//! Configured repositories: parsing of host source lines and mirror choice.

use vstd::prelude::*;
use crate::apt_parser::opt_view;
use crate::package::views;
use crate::text::{
    ends_with, find, find_char, find_from, has_prefix, has_suffix, lemma_find_from_bounds,
    split_words, starts_with, string_of, to_chars, words,
};

verus! {

/// A configured source.
#[derive(Debug)]
pub struct Repository {
    pub id: Option<i64>,
    pub url: String,
    pub priority: i32,
    pub enabled: bool,
    pub last_probe_ms: Option<u64>,
    pub rtt_ms: Option<u64>,
    pub suite: Option<String>,
    pub components: Vec<String>,
}

/// The priority given to a repository unless one is set.
pub const DEFAULT_PRIORITY: i32 = 500;

/// First index `j >= i` whose word closes an option list with `]`, or the
/// number of words.
pub open spec fn options_end(w: Seq<Seq<char>>, i: int) -> int
    decreases w.len() - i,
{
    if i < 0 || i >= w.len() {
        w.len() as int
    } else if ends_with(w[i], seq![']']) {
        i
    } else {
        options_end(w, i + 1)
    }
}

pub open spec fn is_http(u: Seq<char>) -> bool {
    starts_with(u, seq!['h', 't', 't', 'p', ':', '/', '/']) || starts_with(
        u,
        seq!['h', 't', 't', 'p', 's', ':', '/', '/'],
    )
}

/// What a `deb [options] uri suite [component...]` line describes: its URL,
/// suite and components (`main` when none are named). Source lines,
/// non-HTTP URIs and short lines describe nothing.
pub open spec fn apt_line_spec(line: Seq<char>) -> Option<(Seq<char>, Seq<char>, Seq<Seq<char>>)> {
    let w = words(line);
    if w.len() < 3 || w[0] != seq!['d', 'e', 'b'] {
        None
    } else {
        let idx = if starts_with(w[1], seq!['[']) {
            options_end(w, 1) + 1
        } else {
            1
        };
        if idx >= w.len() || !is_http(w[idx]) || idx + 1 >= w.len() {
            None
        } else {
            Some(
                (
                    w[idx],
                    w[idx + 1],
                    if idx + 2 < w.len() {
                        w.skip(idx + 2)
                    } else {
                        seq![seq!['m', 'a', 'i', 'n']]
                    },
                ),
            )
        }
    }
}

/// `repo` is the freshly read repository described by `x`.
pub open spec fn repo_is(repo: Repository, x: (Seq<char>, Seq<char>, Seq<Seq<char>>)) -> bool {
    &&& repo.url@ == x.0
    &&& opt_view(repo.suite) == Some(x.1)
    &&& views(repo.components@) == x.2
    &&& repo.priority == DEFAULT_PRIORITY
    &&& repo.enabled
    &&& repo.id is None
    &&& repo.last_probe_ms is None
    &&& repo.rtt_ms is None
}

/// The repositories that the lines `ls[..n]` describe; blank lines and
/// comments starting with `#` describe none.
pub open spec fn sources_upto(ls: Seq<Seq<char>>, n: int) -> Seq<(Seq<char>, Seq<char>, Seq<Seq<char>>)>
    decreases n,
{
    if n <= 0 || n > ls.len() {
        seq![]
    } else {
        let t = crate::text::trim(ls[n - 1]);
        sources_upto(ls, n - 1) + if t.len() > 0 && t[0] != '#' && apt_line_spec(t) is Some {
            seq![apt_line_spec(t)->0]
        } else {
            seq![]
        }
    }
}

/// The repositories that a sources file describes.
pub open spec fn sources_of(content: Seq<char>) -> Seq<(Seq<char>, Seq<char>, Seq<Seq<char>>)> {
    sources_upto(crate::text::split(content, '\n'), crate::text::split(content, '\n').len() as int)
}

impl Repository {
    /// Reads the repositories of a sources file, one `deb` line each.
    pub fn parse_sources_list(content: &str) -> (r: Vec<Repository>)
        ensures
            r@.len() == sources_of(content@).len(),
            forall|i: int| 0 <= i < r@.len() ==> repo_is(#[trigger] r@[i], sources_of(content@)[i]),
    {
        let lines = crate::text::split_chars(&to_chars(content), '\n');
        let ghost ls = lines@.map_values(|v: Vec<char>| v@);
        let mut out: Vec<Repository> = Vec::new();
        let mut i: usize = 0;
        while i < lines.len()
            invariant
                i <= lines@.len(),
                ls == lines@.map_values(|v: Vec<char>| v@),
                ls == crate::text::split(content@, '\n'),
                out@.len() == sources_upto(ls, i as int).len(),
                forall|j: int| 0 <= j < out@.len() ==> repo_is(#[trigger] out@[j], sources_upto(ls, i as int)[j]),
            decreases lines.len() - i,
        {
            assert(ls[i as int] == lines@[i as int]@);
            let t = crate::text::trim_chars(&lines[i]);
            if t.len() > 0 && t[0] != '#' {
                let line = string_of(&t, 0, t.len());
                assert(t@.subrange(0, t@.len() as int) =~= t@);
                match Repository::parse_apt_line(line.as_str()) {
                    Some(repo) => {
                        let ghost before = out@;
                        out.push(repo);
                        assert forall|j: int| 0 <= j < out@.len() implies repo_is(
                            #[trigger] out@[j],
                            sources_upto(ls, i + 1)[j],
                        ) by {
                            if j < before.len() {
                                assert(out@[j] == before[j]);
                            }
                        }
                    },
                    None => {
                        assert(sources_upto(ls, i + 1) =~= sources_upto(ls, i as int));
                    },
                }
            } else {
                assert(sources_upto(ls, i + 1) =~= sources_upto(ls, i as int));
            }
            i = i + 1;
        }
        out
    }

    /// Reads one line of the host's declarative sources.
    #[verifier::loop_isolation(false)]
    pub fn parse_apt_line(line: &str) -> (r: Option<Repository>)
        ensures
            match (r, apt_line_spec(line@)) {
                (Some(repo), Some(x)) => repo_is(repo, x),
                (None, None) => true,
                _ => false,
            },
    {
        let parts = split_words(&to_chars(line));
        let ghost w = parts@.map_values(|v: Vec<char>| v@);
        proof {
            reveal_strlit("deb");
            reveal_strlit("[");
            reveal_strlit("]");
            reveal_strlit("http://");
            reveal_strlit("https://");
            reveal_strlit("main");
            assert("deb"@ =~= seq!['d', 'e', 'b']);
            assert("["@ =~= seq!['[']);
            assert("]"@ =~= seq![']']);
            assert("http://"@ =~= seq!['h', 't', 't', 'p', ':', '/', '/']);
            assert("https://"@ =~= seq!['h', 't', 't', 'p', 's', ':', '/', '/']);
            assert("main"@ =~= seq!['m', 'a', 'i', 'n']);
        }
        if parts.len() < 3 {
            return None;
        }
        assert(w[0] == parts@[0]@);
        if !crate::text::eq_str(&parts[0], "deb") {
            return None;
        }
        let mut idx: usize = 1;
        assert(w[1] == parts@[1]@);
        if has_prefix(&parts[1], "[") {
            while idx < parts.len() && !has_suffix(&parts[idx], "]")
                invariant
                    1 <= idx <= parts.len(),
                    w == parts@.map_values(|v: Vec<char>| v@),
                    options_end(w, 1) == options_end(w, idx as int),
                decreases parts.len() - idx,
            {
                assert(w[idx as int] == parts@[idx as int]@);
                idx = idx + 1;
            }
            if idx >= parts.len() {
                return None;
            }
            assert(w[idx as int] == parts@[idx as int]@);
            idx = idx + 1;
        }
        if idx >= parts.len() {
            return None;
        }
        let uri = &parts[idx];
        assert(w[idx as int] == uri@);
        if !(has_prefix(uri, "http://") || has_prefix(uri, "https://")) {
            return None;
        }
        if idx + 1 >= parts.len() {
            return None;
        }
        let url = string_of(uri, 0, uri.len());
        assert(uri@.subrange(0, uri@.len() as int) =~= uri@);
        let sw = &parts[idx + 1];
        assert(w[idx + 1] == sw@);
        let suite = string_of(sw, 0, sw.len());
        assert(sw@.subrange(0, sw@.len() as int) =~= sw@);
        let mut components: Vec<String> = Vec::new();
        if idx + 2 < parts.len() {
            let mut k = idx + 2;
            while k < parts.len()
                invariant
                    idx + 2 <= k <= parts.len(),
                    w == parts@.map_values(|v: Vec<char>| v@),
                    views(components@) == w.subrange(idx + 2, k as int),
                decreases parts.len() - k,
            {
                let c = &parts[k];
                assert(w[k as int] == c@);
                let ghost before = components@;
                components.push(string_of(c, 0, c.len()));
                assert(c@.subrange(0, c@.len() as int) =~= c@);
                assert(views(components@) =~= views(before).push(c@));
                assert(w.subrange(idx + 2, k + 1) =~= w.subrange(idx + 2, k as int).push(w[k as int]));
                k = k + 1;
            }
            assert(w.subrange(idx + 2, w.len() as int) =~= w.skip(idx + 2));
        } else {
            components.push(String::from_str("main"));
            assert(views(components@) =~= seq![seq!['m', 'a', 'i', 'n']]);
        }
        Some(
            Repository {
                id: None,
                url,
                priority: DEFAULT_PRIORITY,
                enabled: true,
                last_probe_ms: None,
                rtt_ms: None,
                suite: Some(suite),
                components,
            },
        )
    }
}

/// The origin of a URL: scheme and host with its port, without the path.
/// A URL without `//` after its first `/` ends at that `/`.
pub open spec fn origin_of(url: Seq<char>) -> Seq<char> {
    let s = find(url, '/');
    if s < 0 {
        url
    } else if s + 1 < url.len() && url[s + 1] == '/' {
        let e = find_from(url, '/', s + 2);
        if e < 0 {
            url
        } else {
            url.take(e)
        }
    } else {
        url.take(s)
    }
}

/// The origin of a URL.
pub fn origin_of_url(url: &str) -> (r: String)
    ensures
        r@ == origin_of(url@),
{
    let u = to_chars(url);
    let s = find_char(&u, '/', 0);
    proof {
        lemma_find_from_bounds(u@, '/', 0);
    }
    if s >= u.len() {
        let r = string_of(&u, 0, u.len());
        assert(u@.subrange(0, u@.len() as int) =~= u@);
        return r;
    }
    if s + 1 < u.len() && u[s + 1] == '/' {
        let e = find_char(&u, '/', s + 2);
        if e >= u.len() {
            let r = string_of(&u, 0, u.len());
            assert(u@.subrange(0, u@.len() as int) =~= u@);
            r
        } else {
            let r = string_of(&u, 0, e);
            assert(u@.subrange(0, e as int) =~= u@.take(e as int));
            r
        }
    } else {
        let r = string_of(&u, 0, s);
        assert(u@.subrange(0, s as int) =~= u@.take(s as int));
        r
    }
}

/// A repository that can serve as a mirror for `origin`.
pub open spec fn mirror_of(r: Repository, origin: Seq<char>) -> bool {
    r.enabled && starts_with(r.url@, origin)
}

/// The round-trip time as an ordering key; an unprobed mirror comes first.
pub open spec fn rtt_key(r: Repository) -> int {
    match r.rtt_ms {
        Some(v) => v as int,
        None => -1,
    }
}

/// `a` is preferred to `b`: lower priority value, then lower round-trip time.
pub open spec fn preferred(a: Repository, b: Repository) -> bool {
    a.priority < b.priority || (a.priority == b.priority && rtt_key(a) < rtt_key(b))
}

fn prefers(a: &Repository, b: &Repository) -> (r: bool)
    ensures
        r == preferred(*a, *b),
{
    if a.priority != b.priority {
        return a.priority < b.priority;
    }
    match (a.rtt_ms, b.rtt_ms) {
        (None, Some(_)) => true,
        (Some(x), Some(y)) => x < y,
        _ => false,
    }
}

impl Repository {
    /// Among the enabled repositories whose URL starts with `origin`, the
    /// one with the lowest priority value and then the lowest round-trip
    /// time; the first of equals.
    pub fn select_best_mirror(repos: &Vec<Repository>, origin: &str) -> (r: Option<usize>)
        ensures
            r is None <==> forall|i: int| 0 <= i < repos@.len() ==> !mirror_of(#[trigger] repos@[i], origin@),
            r matches Some(k) ==> k < repos@.len() && mirror_of(repos@[k as int], origin@) && (forall|j: int|
                0 <= j < repos@.len() && mirror_of(#[trigger] repos@[j], origin@) ==> !preferred(
                    repos@[j],
                    repos@[k as int],
                )) && (forall|j: int|
                0 <= j < k && mirror_of(#[trigger] repos@[j], origin@) ==> preferred(
                    repos@[k as int],
                    repos@[j],
                )),
    {
        let o = to_chars(origin);
        let mut best: Option<usize> = None;
        let mut j: usize = 0;
        while j < repos.len()
            invariant
                j <= repos@.len(),
                o@ == origin@,
                best is None <==> forall|i: int| 0 <= i < j ==> !mirror_of(#[trigger] repos@[i], origin@),
                best matches Some(k) ==> k < j && mirror_of(repos@[k as int], origin@) && (forall|i: int|
                    0 <= i < j && mirror_of(#[trigger] repos@[i], origin@) ==> !preferred(
                        repos@[i],
                        repos@[k as int],
                    )) && (forall|i: int|
                    0 <= i < k && mirror_of(#[trigger] repos@[i], origin@) ==> preferred(
                        repos@[k as int],
                        repos@[i],
                    )),
            decreases repos.len() - j,
        {
            let r = &repos[j];
            let ok = r.enabled && crate::text::has_prefix(&to_chars(r.url.as_str()), origin);
            assert(ok == mirror_of(repos@[j as int], origin@));
            if ok {
                match best {
                    None => {
                        best = Some(j);
                    },
                    Some(b) => {
                        if prefers(r, &repos[b]) {
                            best = Some(j);
                        }
                    },
                }
            }
            j = j + 1;
        }
        best
    }
}

} // verus!
