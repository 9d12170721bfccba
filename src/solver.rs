//! Dependency resolution: from requested package specifications and a
//! universe of known packages to an ordered install set.

use std::cmp::Ordering;
use vstd::prelude::*;
use crate::apt_parser::{alternatives_of, parse_rules_in_slot, rule_is};
use crate::error::PkgError;
use crate::package::{views, PackageManifest};
use crate::text::{eq_chars, eq_str, slice_of, to_chars};
use crate::version::{
    compare_versions, lemma_version_order, version_cmp, version_matches, version_matches_spec,
};
use crate::text::{ascii_alpha, digit, starts_with};

verus! {

/// A requested package: a name with an optional version constraint and
/// architecture.
#[derive(Debug)]
pub struct PackageSpec {
    pub name: String,
    pub version: Option<String>,
    pub arch: Option<String>,
}

/// One alternative of a dependency. Alternatives of one dependency share
/// their `slot`.
#[derive(Debug)]
pub struct DependencyRule {
    pub name: String,
    pub version_constraint: Option<String>,
    pub arch: Option<String>,
    pub slot: usize,
}

/// A package as the solver sees it.
#[derive(Debug)]
pub struct PackageInfo {
    pub name: String,
    pub version: String,
    pub arch: String,
    pub provides: Vec<String>,
    pub depends: Vec<DependencyRule>,
    pub conflicts: Vec<String>,
    pub replaces: Vec<String>,
}

/// The resolved plan.
#[derive(Debug)]
pub struct Solution {
    pub to_install: Vec<PackageInfo>,
    pub to_remove: Vec<String>,
    pub to_upgrade: Vec<PackageInfo>,
}

/// A package that the host reports installed outside this manager.
#[derive(Debug)]
pub struct SystemPackage {
    pub name: String,
    pub version: Option<String>,
}

/// The solver's state: the universe in insertion order, the names already
/// installed, and what the host system reports.
pub struct DependencySolver {
    pub packages: Vec<PackageInfo>,
    pub installed_packages: Vec<String>,
    pub system_packages: Vec<SystemPackage>,
    pub system_provides: Vec<String>,
}

pub open spec fn has_name(v: Seq<String>, n: Seq<char>) -> bool {
    exists|k: int| 0 <= k < v.len() && (#[trigger] v[k])@ == n
}

/// A package provides its own name and each name of its `provides`.
pub open spec fn provides_name(q: PackageInfo, n: Seq<char>) -> bool {
    q.name@ == n || has_name(q.provides@, n)
}

pub open spec fn constraint_ok(v: Seq<char>, c: Option<String>) -> bool {
    match c {
        Some(c) => version_matches_spec(v, c@),
        None => true,
    }
}

pub open spec fn arch_ok(a: Seq<char>, want: Option<String>) -> bool {
    match want {
        Some(w) => a == w@ || a == seq!['a', 'l', 'l'],
        None => true,
    }
}

/// Either of two packages lists the other's name among its conflicts.
pub open spec fn conflicting(a: PackageInfo, b: PackageInfo) -> bool {
    has_name(a.conflicts@, b.name@) || has_name(b.conflicts@, a.name@)
}

/// The name without its trailing run of ASCII letters and digits other
/// than `'5'`.
pub open spec fn base_keep_five(s: Seq<char>) -> Seq<char>
    decreases s.len(),
{
    if s.len() > 0 && crate::text::is_ascii_alnum(s.last()) && s.last() != '5' {
        base_keep_five(s.drop_last())
    } else {
        s
    }
}

/// The name without its trailing run of ASCII letters.
pub open spec fn base_alpha(s: Seq<char>) -> Seq<char>
    decreases s.len(),
{
    if s.len() > 0 && crate::text::is_ascii_alpha(s.last()) {
        base_alpha(s.drop_last())
    } else {
        s
    }
}

/// The name shortened while it is longer than five and ends in an ASCII
/// letter or digit.
pub open spec fn base_bounded(s: Seq<char>) -> Seq<char>
    decreases s.len(),
{
    if s.len() > 5 && crate::text::is_ascii_alnum(s.last()) {
        base_bounded(s.drop_last())
    } else {
        s
    }
}

/// `q` stands in for the missing name `n` by sharing a prefix of at least
/// five characters with it (a transitional package).
pub open spec fn backoff_match(q: Seq<char>, n: Seq<char>) -> bool {
    q != n && ((base_keep_five(n).len() >= 5 && crate::text::starts_with(q, base_keep_five(n)))
        || (base_alpha(n).len() >= 5 && crate::text::starts_with(q, base_alpha(n))) || (
    base_bounded(n).len() >= 5 && crate::text::starts_with(q, base_bounded(n))))
}

/// `q` may be chosen for the rule `r`.
pub open spec fn candidate(q: PackageInfo, r: DependencyRule) -> bool {
    constraint_ok(q.version@, r.version_constraint) && (provides_name(q, r.name@) || backoff_match(
        q.name@,
        r.name@,
    ))
}

pub open spec fn count_false(s: Seq<bool>) -> nat
    decreases s.len(),
{
    if s.len() == 0 {
        0
    } else {
        count_false(s.drop_last()) + if s.last() {
            0nat
        } else {
            1nat
        }
    }
}

proof fn lemma_count_false(a: Seq<bool>, b: Seq<bool>, w: int)
    requires
        a.len() == b.len(),
        forall|i: int| 0 <= i < a.len() && #[trigger] a[i] ==> b[i],
    ensures
        count_false(b) <= count_false(a),
        0 <= w < a.len() && !a[w] && b[w] ==> count_false(b) < count_false(a),
    decreases a.len(),
{
    if a.len() > 0 {
        let a2 = a.drop_last();
        let b2 = b.drop_last();
        assert forall|i: int| 0 <= i < a2.len() && #[trigger] a2[i] implies b2[i] by {
            assert(a[i]);
        }
        lemma_count_false(a2, b2, w);
    }
}

impl DependencySolver {
    pub open spec fn universe(&self) -> Seq<PackageInfo> {
        self.packages@
    }

    /// Some package of the universe has the name `n`.
    pub open spec fn named(&self, n: Seq<char>) -> bool {
        exists|k: int| 0 <= k < self.packages@.len() && (#[trigger] self.packages@[k]).name@ == n
    }

    pub open spec fn is_installed(&self, n: Seq<char>) -> bool {
        has_name(self.installed_packages@, n)
    }

    /// An installed package of the universe provides `n`.
    pub open spec fn installed_provider(&self, n: Seq<char>) -> bool {
        exists|k: int|
            0 <= k < self.packages@.len() && self.is_installed((#[trigger] self.packages@[k]).name@)
                && provides_name(self.packages@[k], n)
    }

    /// An installed provider of `n` has, among the universe's packages of its
    /// name, one whose version meets `c`.
    pub open spec fn installed_provider_matching(&self, n: Seq<char>, c: Seq<char>) -> bool {
        exists|k: int, m: int|
            0 <= k < self.packages@.len() && 0 <= m < self.packages@.len() && self.is_installed(
                (#[trigger] self.packages@[k]).name@,
            ) && provides_name(self.packages@[k], n) && (#[trigger] self.packages@[m]).name@
                == self.packages@[k].name@ && version_matches_spec(self.packages@[m].version@, c)
    }

    pub open spec fn system_named(&self, n: Seq<char>) -> bool {
        exists|k: int|
            0 <= k < self.system_packages@.len() && (#[trigger] self.system_packages@[k]).name@ == n
    }

    /// The host has `n` installed with a version that meets `c`, or an
    /// unknown version.
    pub open spec fn system_version_ok(&self, n: Seq<char>, c: Option<String>) -> bool {
        exists|k: int|
            0 <= k < self.system_packages@.len() && (#[trigger] self.system_packages@[k]).name@ == n
                && match (c, self.system_packages@[k].version) {
                (Some(c), Some(v)) => version_matches_spec(v@, c@),
                _ => true,
            }
    }

    /// The host has `n` installed or provided, whatever the version.
    pub open spec fn system_present(&self, n: Seq<char>) -> bool {
        self.system_named(n) || has_name(self.system_provides@, n)
    }

    /// What the host system says of a rule.
    pub open spec fn system_satisfies(&self, r: DependencyRule) -> bool {
        if self.system_named(r.name@) {
            self.system_version_ok(r.name@, r.version_constraint)
        } else {
            has_name(self.system_provides@, r.name@)
        }
    }

    /// The rule is met without installing anything: by an installed package
    /// of that name, by an installed provider, or by the host system.
    #[verifier::opaque]
    pub open spec fn satisfied_installed(&self, r: DependencyRule) -> bool {
        let n = r.name@;
        if self.is_installed(n) {
            match r.version_constraint {
                None => true,
                Some(c) => !self.named(n) || exists|k: int|
                    0 <= k < self.packages@.len() && (#[trigger] self.packages@[k]).name@ == n
                        && version_matches_spec(self.packages@[k].version@, c@),
            }
        } else if self.installed_provider(n) && match r.version_constraint {
            None => true,
            Some(c) => self.installed_provider_matching(n, c@),
        } {
            true
        } else {
            self.system_satisfies(r)
        }
    }

    /// Universe entry `k` is a package `name` of a fitting architecture and
    /// version.
    pub open spec fn qualifies(
        &self,
        k: int,
        name: Seq<char>,
        version: Option<String>,
        arch: Option<String>,
    ) -> bool {
        0 <= k < self.packages@.len() && self.packages@[k].name@ == name && arch_ok(
            self.packages@[k].arch@,
            arch,
        ) && constraint_ok(self.packages@[k].version@, version)
    }

    /// Entry `k` is the greatest qualifying version, the last one among equals.
    pub open spec fn is_best(
        &self,
        k: int,
        name: Seq<char>,
        version: Option<String>,
        arch: Option<String>,
    ) -> bool {
        &&& self.qualifies(k, name, version, arch)
        &&& forall|j: int|
            #![trigger self.packages@[j]]
            self.qualifies(j, name, version, arch) ==> version_cmp(
                self.packages@[j].version@,
                self.packages@[k].version@,
            ) != Ordering::Greater
        &&& forall|j: int|
            #![trigger self.packages@[j]]
            k < j && self.qualifies(j, name, version, arch) ==> version_cmp(
                self.packages@[j].version@,
                self.packages@[k].version@,
            ) == Ordering::Less
    }

    /// Rule `r` is met given the visited names: without installing, or by a
    /// visited candidate.
    #[verifier::opaque]
    pub open spec fn covered(&self, r: DependencyRule, vis: Seq<bool>) -> bool {
        self.satisfied_installed(r) || self.system_present(r.name@) || exists|i: int|
            0 <= i < self.packages@.len() && i < vis.len() && #[trigger] vis[i] && candidate(
                self.packages@[i],
                r,
            )
    }

    /// Every alternative group of package `p` has a covered alternative.
    pub open spec fn groups_covered(&self, p: PackageInfo, vis: Seq<bool>) -> bool {
        forall|d: int|
            #![trigger p.depends@[d]]
            0 <= d < p.depends@.len() ==> exists|e: int|
                0 <= e < p.depends@.len() && (#[trigger] p.depends@[e]).slot == p.depends@[d].slot
                    && self.covered(p.depends@[e], vis)
    }

    /// Some entry of the plan `ti` has the name `n`.
    pub open spec fn listed(&self, ti: Seq<usize>, n: Seq<char>) -> bool {
        exists|m: int| 0 <= m < ti.len() && self.packages@[#[trigger] ti[m] as int].name@ == n
    }

    pub open spec fn state_inv(&self, ti: Seq<usize>, vis: Seq<bool>) -> bool {
        &&& vis.len() == self.packages@.len()
        &&& forall|m: int| 0 <= m < ti.len() ==> (#[trigger] ti[m]) < self.packages@.len()
        &&& forall|m: int| 0 <= m < ti.len() ==> vis[#[trigger] ti[m] as int]
        &&& forall|a: int, b: int|
            0 <= a < b < ti.len() ==> self.packages@[#[trigger] ti[a] as int].name@
                != self.packages@[#[trigger] ti[b] as int].name@
        &&& forall|i: int, j: int|
            0 <= i < vis.len() && 0 <= j < vis.len() && (#[trigger] self.packages@[i]).name@ == (
            #[trigger] self.packages@[j]).name@ ==> vis[i] == vis[j]
        &&& forall|m: int|
            0 <= m < ti.len() ==> self.groups_covered(self.packages@[#[trigger] ti[m] as int], vis)
        &&& forall|a: int, b: int|
            0 <= a < ti.len() && 0 <= b < ti.len() && a != b ==> !conflicting(
                self.packages@[#[trigger] ti[a] as int],
                self.packages@[#[trigger] ti[b] as int],
            )
    }

    /// An empty solver.
    pub fn new() -> (r: Self)
        ensures
            r.packages@.len() == 0,
            r.installed_packages@.len() == 0,
            r.system_packages@.len() == 0,
            r.system_provides@.len() == 0,
    {
        DependencySolver {
            packages: Vec::new(),
            installed_packages: Vec::new(),
            system_packages: Vec::new(),
            system_provides: Vec::new(),
        }
    }

    /// Sets the names of the packages already installed.
    pub fn set_installed_packages(&mut self, installed: Vec<String>)
        ensures
            final(self).installed_packages@ == installed@,
            final(self).packages@ == old(self).packages@,
            final(self).system_packages@ == old(self).system_packages@,
            final(self).system_provides@ == old(self).system_provides@,
    {
        self.installed_packages = installed;
    }

    /// Sets what the host system reports: its installed packages with their
    /// versions, and the names they provide.
    pub fn set_system_packages(&mut self, installed: Vec<SystemPackage>, provides: Vec<String>)
        ensures
            final(self).system_packages@ == installed@,
            final(self).system_provides@ == provides@,
            final(self).packages@ == old(self).packages@,
            final(self).installed_packages@ == old(self).installed_packages@,
    {
        self.system_packages = installed;
        self.system_provides = provides;
    }

    /// Adds a package to the universe.
    pub fn add_package(&mut self, pkg: PackageInfo)
        ensures
            final(self).packages@ == old(self).packages@.push(pkg),
            final(self).installed_packages@ == old(self).installed_packages@,
            final(self).system_packages@ == old(self).system_packages@,
            final(self).system_provides@ == old(self).system_provides@,
    {
        self.packages.push(pkg);
    }

    /// Compares two Debian versions; see `version::version_cmp`.
    pub fn compare_versions(v1: &str, v2: &str) -> (r: Ordering)
        ensures
            r == version_cmp(v1@, v2@),
    {
        compare_versions(v1, v2)
    }

    /// Whether `version` meets `constraint`; see `version::version_matches_spec`.
    pub fn version_matches(version: &str, constraint: &str) -> (r: bool)
        ensures
            r == version_matches_spec(version@, constraint@),
    {
        version_matches(version, constraint)
    }

    fn is_installed_name(&self, n: &String) -> (r: bool)
        ensures
            r == self.is_installed(n@),
    {
        contains_name(&self.installed_packages, n)
    }

    fn is_named(&self, n: &String) -> (r: bool)
        ensures
            r == self.named(n@),
    {
        let mut k: usize = 0;
        while k < self.packages.len()
            invariant
                k <= self.packages.len(),
                forall|j: int| 0 <= j < k ==> (#[trigger] self.packages@[j]).name@ != n@,
            decreases self.packages.len() - k,
        {
            if self.packages[k].name == *n {
                return true;
            }
            k = k + 1;
        }
        false
    }

    fn has_installed_provider(&self, n: &String) -> (r: bool)
        ensures
            r == self.installed_provider(n@),
    {
        let mut k: usize = 0;
        while k < self.packages.len()
            invariant
                k <= self.packages.len(),
                forall|j: int|
                    0 <= j < k ==> !(self.is_installed((#[trigger] self.packages@[j]).name@)
                        && provides_name(self.packages@[j], n@)),
            decreases self.packages.len() - k,
        {
            let p = &self.packages[k];
            if self.is_installed_name(&p.name) && pkg_provides(p, n) {
                return true;
            }
            k = k + 1;
        }
        false
    }

    /// Some package of the universe named `n` has a version meeting `c`.
    fn named_version_matches(&self, n: &String, c: &String) -> (r: bool)
        ensures
            r == exists|k: int|
                0 <= k < self.packages@.len() && (#[trigger] self.packages@[k]).name@ == n@
                    && version_matches_spec(self.packages@[k].version@, c@),
    {
        let mut k: usize = 0;
        while k < self.packages.len()
            invariant
                k <= self.packages.len(),
                forall|j: int|
                    0 <= j < k ==> !((#[trigger] self.packages@[j]).name@ == n@
                        && version_matches_spec(self.packages@[j].version@, c@)),
            decreases self.packages.len() - k,
        {
            if self.packages[k].name == *n && version_matches(
                self.packages[k].version.as_str(),
                c.as_str(),
            ) {
                return true;
            }
            k = k + 1;
        }
        false
    }

    fn has_installed_provider_matching(&self, n: &String, c: &String) -> (r: bool)
        ensures
            r == self.installed_provider_matching(n@, c@),
    {
        let mut k: usize = 0;
        while k < self.packages.len()
            invariant
                k <= self.packages.len(),
                forall|j: int, m: int|
                    0 <= j < k && 0 <= m < self.packages@.len() ==> !(self.is_installed(
                        (#[trigger] self.packages@[j]).name@,
                    ) && provides_name(self.packages@[j], n@) && (#[trigger] self.packages@[m]).name@
                        == self.packages@[j].name@ && version_matches_spec(
                        self.packages@[m].version@,
                        c@,
                    )),
            decreases self.packages.len() - k,
        {
            let p = &self.packages[k];
            if self.is_installed_name(&p.name) && pkg_provides(p, n) {
                if self.named_version_matches(&p.name, c) {
                    return true;
                }
            }
            k = k + 1;
        }
        false
    }

    fn is_system_named(&self, n: &String) -> (r: bool)
        ensures
            r == self.system_named(n@),
    {
        let mut k: usize = 0;
        while k < self.system_packages.len()
            invariant
                k <= self.system_packages.len(),
                forall|j: int| 0 <= j < k ==> (#[trigger] self.system_packages@[j]).name@ != n@,
            decreases self.system_packages.len() - k,
        {
            if self.system_packages[k].name == *n {
                return true;
            }
            k = k + 1;
        }
        false
    }

    fn check_system_version(&self, n: &String, c: &Option<String>) -> (r: bool)
        ensures
            r == self.system_version_ok(n@, *c),
    {
        let mut k: usize = 0;
        while k < self.system_packages.len()
            invariant
                k <= self.system_packages.len(),
                forall|j: int|
                    0 <= j < k ==> !((#[trigger] self.system_packages@[j]).name@ == n@ && match (
                        *c,
                        self.system_packages@[j].version,
                    ) {
                        (Some(c), Some(v)) => version_matches_spec(v@, c@),
                        _ => true,
                    }),
            decreases self.system_packages.len() - k,
        {
            let sp = &self.system_packages[k];
            if sp.name == *n {
                let ok = match (c, &sp.version) {
                    (Some(c), Some(v)) => version_matches(v.as_str(), c.as_str()),
                    _ => true,
                };
                if ok {
                    return true;
                }
            }
            k = k + 1;
        }
        false
    }

    fn system_has(&self, n: &String) -> (r: bool)
        ensures
            r == self.system_present(n@),
    {
        self.is_system_named(n) || contains_name(&self.system_provides, n)
    }

    fn system_satisfies_rule(&self, r: &DependencyRule) -> (res: bool)
        ensures
            res == self.system_satisfies(*r),
    {
        if self.is_system_named(&r.name) {
            self.check_system_version(&r.name, &r.version_constraint)
        } else {
            contains_name(&self.system_provides, &r.name)
        }
    }

    /// Whether an installed package, an installed provider or the host
    /// system already meets the rule.
    pub fn is_dependency_satisfied_by_installed(&self, dep: &DependencyRule) -> (r: bool)
        ensures
            r == self.satisfied_installed(*dep),
    {
        reveal(DependencySolver::satisfied_installed);
        if self.is_installed_name(&dep.name) {
            match &dep.version_constraint {
                None => true,
                Some(c) => {
                    if !self.is_named(&dep.name) {
                        true
                    } else {
                        self.named_version_matches(&dep.name, c)
                    }
                },
            }
        } else {
            let provided = self.has_installed_provider(&dep.name) && match &dep.version_constraint {
                None => true,
                Some(c) => self.has_installed_provider_matching(&dep.name, c),
            };
            if provided {
                true
            } else {
                self.system_satisfies_rule(dep)
            }
        }
    }

    /// The greatest version of `name` that fits `arch` and `version`; the
    /// last of several equal ones.
    pub fn select_best_version(
        &self,
        name: &String,
        version: &Option<String>,
        arch: &Option<String>,
    ) -> (r: Option<usize>)
        ensures
            r is None <==> !exists|k: int| self.qualifies(k, name@, *version, *arch),
            r matches Some(k) ==> self.is_best(k as int, name@, *version, *arch),
    {
        let mut best: Option<usize> = None;
        let mut j: usize = 0;
        while j < self.packages.len()
            invariant
                j <= self.packages.len(),
                best is None <==> forall|i: int|
                    0 <= i < j ==> !self.qualifies(i, name@, *version, *arch),
                best matches Some(b) ==> b < j && self.qualifies(b as int, name@, *version, *arch)
                    && (forall|i: int|
                    #![trigger self.packages@[i]]
                    0 <= i < j && self.qualifies(i, name@, *version, *arch) ==> version_cmp(
                        self.packages@[i].version@,
                        self.packages@[b as int].version@,
                    ) != Ordering::Greater) && (forall|i: int|
                    #![trigger self.packages@[i]]
                    b < i < j && self.qualifies(i, name@, *version, *arch) ==> version_cmp(
                        self.packages@[i].version@,
                        self.packages@[b as int].version@,
                    ) == Ordering::Less),
            decreases self.packages.len() - j,
        {
            let p = &self.packages[j];
            let fits = p.name == *name && arch_fits(&p.arch, arch) && match version {
                Some(c) => version_matches(p.version.as_str(), c.as_str()),
                None => true,
            };
            assert(fits == self.qualifies(j as int, name@, *version, *arch));
            if fits {
                match best {
                    None => {
                        proof {
                            lemma_version_order(
                                self.packages@[j as int].version@,
                                self.packages@[j as int].version@,
                                self.packages@[j as int].version@,
                            );
                        }
                        best = Some(j);
                    },
                    Some(b) => {
                        let o = compare_versions(
                            p.version.as_str(),
                            self.packages[b].version.as_str(),
                        );
                        if !matches!(o, Ordering::Less) {
                            proof {
                                assert forall|i: int|
                                    #![trigger self.packages@[i]]
                                    0 <= i < j + 1 && self.qualifies(
                                        i,
                                        name@,
                                        *version,
                                        *arch,
                                    ) implies version_cmp(
                                    self.packages@[i].version@,
                                    self.packages@[j as int].version@,
                                ) != Ordering::Greater by {
                                    lemma_version_order(
                                        self.packages@[i].version@,
                                        self.packages@[b as int].version@,
                                        self.packages@[j as int].version@,
                                    );
                                    lemma_version_order(
                                        self.packages@[j as int].version@,
                                        self.packages@[b as int].version@,
                                        self.packages@[i].version@,
                                    );
                                }
                            }
                            best = Some(j);
                        } else {
                            proof {
                                lemma_version_order(
                                    self.packages@[j as int].version@,
                                    self.packages@[b as int].version@,
                                    self.packages@[j as int].version@,
                                );
                            }
                        }
                    },
                }
            }
            j = j + 1;
        }
        best
    }
}

/// How a rule is met: without installing anything, by a universe entry,
/// or not at all.
pub enum Choice {
    Satisfied,
    Use(usize),
    Missing,
}

/// Both packages agree field by field.
pub open spec fn same_info(a: PackageInfo, b: PackageInfo) -> bool {
    &&& a.name == b.name
    &&& a.version == b.version
    &&& a.arch == b.arch
    &&& a.provides@ == b.provides@
    &&& a.depends@ == b.depends@
    &&& a.conflicts@ == b.conflicts@
    &&& a.replaces@ == b.replaces@
}

/// Some package of `v` has the name `n`.
pub open spec fn has_package(v: Seq<PackageInfo>, n: Seq<char>) -> bool {
    exists|m: int| 0 <= m < v.len() && (#[trigger] v[m]).name@ == n
}

impl DependencySolver {
    /// Rule `r` is met in the plan `v`: without installing anything, or by a
    /// candidate whose name the plan holds.
    pub open spec fn met_in(&self, r: DependencyRule, v: Seq<PackageInfo>) -> bool {
        self.satisfied_installed(r) || self.system_present(r.name@) || exists|k: int|
            0 <= k < self.packages@.len() && candidate(#[trigger] self.packages@[k], r)
                && has_package(v, self.packages@[k].name@)
    }

    /// Every alternative group of every package of the plan has a met
    /// alternative.
    pub open spec fn plan_sound(&self, v: Seq<PackageInfo>) -> bool {
        forall|m: int, d: int|
            0 <= m < v.len() && 0 <= d < v[m].depends@.len() ==> #[trigger] self.group_met(v, m, d)
    }

    /// Rule `d` of package `m` of the plan `v` has a met alternative.
    pub open spec fn group_met(&self, v: Seq<PackageInfo>, m: int, d: int) -> bool {
        exists|e: int|
            0 <= e < v[m].depends@.len() && (#[trigger] v[m].depends@[e]).slot == v[m].depends@[d].slot
                && self.met_in(v[m].depends@[e], v)
    }

    /// No package of the universe can, through any of its rules, reach a
    /// candidate of equal or higher rank: the candidate relation has no
    /// cycle.
    pub open spec fn acyclic(&self, rank: spec_fn(Seq<char>) -> int) -> bool {
        forall|p: int, d: int, i: int|
            0 <= p < self.packages@.len() && 0 <= d < self.packages@[p].depends@.len() && 0 <= i
                < self.packages@.len() && #[trigger] candidate(
                self.packages@[i],
                self.packages@[p].depends@[d],
            ) ==> rank(self.packages@[i].name@) < rank(self.packages@[p].name@)
    }

    /// Rule `r` is met without installing, or by a candidate named in `ti`.
    pub open spec fn met_listed(&self, r: DependencyRule, ti: Seq<usize>) -> bool {
        self.satisfied_installed(r) || self.system_present(r.name@) || exists|i: int|
            0 <= i < self.packages@.len() && candidate(#[trigger] self.packages@[i], r)
                && self.listed(ti, self.packages@[i].name@)
    }

    /// The group of rule `d` of plan entry `m` is met by entries before `m`.
    pub open spec fn group_before(&self, ti: Seq<usize>, m: int, d: int) -> bool {
        exists|e: int|
            0 <= e < self.packages@[ti[m] as int].depends@.len() && (
            #[trigger] self.packages@[ti[m] as int].depends@[e]).slot
                == self.packages@[ti[m] as int].depends@[d].slot && self.met_listed(
                self.packages@[ti[m] as int].depends@[e],
                ti.take(m),
            )
    }

    /// Every package of the plan comes after what meets its dependencies.
    pub open spec fn ordered_ti(&self, ti: Seq<usize>) -> bool {
        forall|m: int, d: int|
            0 <= m < ti.len() && 0 <= d < self.packages@[ti[m] as int].depends@.len()
                ==> #[trigger] self.group_before(ti, m, d)
    }

    /// Every visited name not yet planned has at least rank `bound`.
    pub open spec fn stack_above(
        &self,
        ti: Seq<usize>,
        vis: Seq<bool>,
        rank: spec_fn(Seq<char>) -> int,
        bound: int,
    ) -> bool {
        forall|i: int|
            0 <= i < vis.len() && i < self.packages@.len() && #[trigger] vis[i] && !self.listed(
                ti,
                self.packages@[i].name@,
            ) ==> rank(self.packages@[i].name@) >= bound
    }

    /// The group of rule `d` of package `m` of the plan `v` is met before
    /// `m`: without installing, or by a candidate planned earlier.
    pub open spec fn group_met_earlier(&self, v: Seq<PackageInfo>, m: int, d: int) -> bool {
        exists|e: int|
            0 <= e < v[m].depends@.len() && (#[trigger] v[m].depends@[e]).slot == v[m].depends@[d].slot
                && (self.satisfied_installed(v[m].depends@[e]) || self.system_present(
                v[m].depends@[e].name@,
            ) || exists|i: int|
                0 <= i < self.packages@.len() && candidate(
                    #[trigger] self.packages@[i],
                    v[m].depends@[e],
                ) && has_package(v.take(m), self.packages@[i].name@))
    }

    /// Every dependency of every planned package is met before it.
    pub open spec fn plan_ordered(&self, v: Seq<PackageInfo>) -> bool {
        forall|m: int, d: int|
            0 <= m < v.len() && 0 <= d < v[m].depends@.len() ==> #[trigger] self.group_met_earlier(
                v,
                m,
                d,
            )
    }

    proof fn lemma_met_listed_prefix(&self, r: DependencyRule, t1: Seq<usize>, t2: Seq<usize>)
        requires
            t1.is_prefix_of(t2),
            self.met_listed(r, t1),
        ensures
            self.met_listed(r, t2),
    {
        if !self.satisfied_installed(r) && !self.system_present(r.name@) {
            let i = choose|i: int|
                0 <= i < self.packages@.len() && candidate(#[trigger] self.packages@[i], r)
                    && self.listed(t1, self.packages@[i].name@);
            self.lemma_listed_prefix(t1, t2, self.packages@[i].name@);
        }
    }

    proof fn lemma_ordered_push(&self, t: Seq<usize>, p: usize)
        requires
            self.ordered_ti(t),
            p < self.packages@.len(),
            forall|d: int|
                #![trigger self.packages@[p as int].depends@[d]]
                0 <= d < self.packages@[p as int].depends@.len() ==> exists|e: int|
                    0 <= e < self.packages@[p as int].depends@.len() && (
                    #[trigger] self.packages@[p as int].depends@[e]).slot
                        == self.packages@[p as int].depends@[d].slot && self.met_listed(
                        self.packages@[p as int].depends@[e],
                        t,
                    ),
        ensures
            self.ordered_ti(t.push(p)),
    {
        let t2 = t.push(p);
        assert forall|m: int, d: int|
            0 <= m < t2.len() && 0 <= d < self.packages@[t2[m] as int].depends@.len()
                implies #[trigger] self.group_before(t2, m, d) by {
            if m < t.len() {
                assert(t2[m] == t[m]);
                assert(t2.take(m) =~= t.take(m));
                assert(self.group_before(t, m, d));
            } else {
                assert(t2[m] == p);
                assert(t2.take(m) =~= t);
                assert(self.packages@[p as int].depends@[d] == self.packages@[p as int].depends@[d]);
            }
        }
    }

    /// Some package of the universe provides `r`'s name in a version that
    /// meets its constraint.
    pub open spec fn has_provider(&self, r: DependencyRule) -> bool {
        exists|k: int|
            0 <= k < self.packages@.len() && provides_name(#[trigger] self.packages@[k], r.name@)
                && constraint_ok(self.packages@[k].version@, r.version_constraint)
    }

    /// Entry `k` is the first such provider.
    pub open spec fn first_provider(&self, r: DependencyRule, k: int) -> bool {
        &&& 0 <= k < self.packages@.len()
        &&& provides_name(self.packages@[k], r.name@)
        &&& constraint_ok(self.packages@[k].version@, r.version_constraint)
        &&& forall|j: int|
            0 <= j < k ==> !(provides_name(#[trigger] self.packages@[j], r.name@) && constraint_ok(
                self.packages@[j].version@,
                r.version_constraint,
            ))
    }

    /// The rule can be met: without installing, by a fitting version of its
    /// name, or, when no package has its name, by a provider or the host.
    pub open spec fn resolvable(&self, r: DependencyRule) -> bool {
        self.satisfied_installed(r) || (self.named(r.name@) && exists|k: int|
            self.qualifies(k, r.name@, r.version_constraint, r.arch)) || (!self.named(r.name@) && (
        self.has_provider(r) || self.system_present(r.name@)))
    }

    /// Every alternative group of every package of the universe has a
    /// resolvable alternative, and no two packages of different names
    /// conflict.
    pub open spec fn closed(&self) -> bool {
        &&& forall|p: int, d: int|
            0 <= p < self.packages@.len() && 0 <= d < self.packages@[p].depends@.len()
                ==> exists|e: int|
                0 <= e < self.packages@[p].depends@.len() && (
                #[trigger] self.packages@[p].depends@[e]).slot == (
                #[trigger] self.packages@[p].depends@[d]).slot && self.resolvable(
                    self.packages@[p].depends@[e],
                )
        &&& forall|a: int, b: int|
            0 <= a < self.packages@.len() && 0 <= b < self.packages@.len() && (
            #[trigger] self.packages@[a]).name@ != (#[trigger] self.packages@[b]).name@
                ==> !conflicting(self.packages@[a], self.packages@[b])
    }

    /// Picks how to meet rule `r`: an installed or host package, the best
    /// version of that name, the first provider, or a transitional package.
    pub fn choose_for(&self, r: &DependencyRule) -> (c: Choice)
        ensures
            c is Satisfied ==> self.satisfied_installed(*r) || self.system_present(r.name@),
            c matches Choice::Use(k) ==> k < self.packages@.len() && candidate(
                self.packages@[k as int],
                *r,
            ),
            self.satisfied_installed(*r) ==> c is Satisfied,
            !self.satisfied_installed(*r) && self.named(r.name@) ==> match c {
                Choice::Use(k) => self.is_best(k as int, r.name@, r.version_constraint, r.arch),
                Choice::Missing => !exists|k: int|
                    self.qualifies(k, r.name@, r.version_constraint, r.arch),
                Choice::Satisfied => false,
            },
            !self.satisfied_installed(*r) && !self.named(r.name@) && self.has_provider(*r) ==> (
            c matches Choice::Use(k) && self.first_provider(*r, k as int)),
            !self.satisfied_installed(*r) && !self.named(r.name@) && !self.has_provider(*r)
                && self.system_present(r.name@) ==> c is Satisfied,
            self.resolvable(*r) ==> !(c is Missing),
    {
        if self.is_dependency_satisfied_by_installed(r) {
            return Choice::Satisfied;
        }
        if self.is_named(&r.name) {
            return match self.select_best_version(&r.name, &r.version_constraint, &r.arch) {
                Some(k) => Choice::Use(k),
                None => Choice::Missing,
            };
        }
        let mut k: usize = 0;
        while k < self.packages.len()
            invariant
                k <= self.packages.len(),
                !self.satisfied_installed(*r),
                !self.named(r.name@),
                forall|j: int|
                    0 <= j < k ==> !(provides_name(#[trigger] self.packages@[j], r.name@)
                        && constraint_ok(self.packages@[j].version@, r.version_constraint)),
            decreases self.packages.len() - k,
        {
            let q = &self.packages[k];
            if pkg_provides(q, &r.name) && constraint_fits(&q.version, &r.version_constraint) {
                return Choice::Use(k);
            }
            k = k + 1;
        }
        if self.system_has(&r.name) {
            return Choice::Satisfied;
        }
        match self.backoff_candidate(r) {
            Some(k) => Choice::Use(k),
            None => Choice::Missing,
        }
    }

    /// The first universe entry, other than the missing name itself, whose
    /// name starts with one of the shortened forms of `r.name`, tried in
    /// order; kept only if it meets the rule's constraint.
    fn backoff_candidate(&self, r: &DependencyRule) -> (res: Option<usize>)
        ensures
            res matches Some(k) ==> k < self.packages@.len() && candidate(
                self.packages@[k as int],
                *r,
            ),
    {
        let n = to_chars(r.name.as_str());
        let b1 = base_keep_five_len(&n);
        let b2 = base_alpha_len(&n);
        let b3 = base_bounded_len(&n);
        let mut found: Option<usize> = None;
        let mut round: usize = 0;
        while round < 3 && found.is_none()
            invariant
                n@ == r.name@,
                b1 <= n.len() && n@.take(b1 as int) == base_keep_five(n@),
                b2 <= n.len() && n@.take(b2 as int) == base_alpha(n@),
                b3 <= n.len() && n@.take(b3 as int) == base_bounded(n@),
                found matches Some(k) ==> k < self.packages@.len() && backoff_match(
                    self.packages@[k as int].name@,
                    r.name@,
                ),
            decreases 3 - round,
        {
            let b = if round == 0 {
                b1
            } else if round == 1 {
                b2
            } else {
                b3
            };
            if b >= 5 {
                let base = slice_of(&n, 0, b);
                let mut k: usize = 0;
                while k < self.packages.len() && found.is_none()
                    invariant
                        k <= self.packages.len(),
                        base@ == n@.take(b as int),
                        b >= 5,
                        b == b1 || b == b2 || b == b3,
                        n@ == r.name@,
                        b1 <= n.len() && n@.take(b1 as int) == base_keep_five(n@),
                        b2 <= n.len() && n@.take(b2 as int) == base_alpha(n@),
                        b3 <= n.len() && n@.take(b3 as int) == base_bounded(n@),
                        found matches Some(k) ==> k < self.packages@.len() && backoff_match(
                            self.packages@[k as int].name@,
                            r.name@,
                        ),
                    decreases self.packages.len() - k,
                {
                    let qn = to_chars(self.packages[k].name.as_str());
                    if starts_with_chars(&qn, &base) && !eq_chars(&qn, &n) {
                        found = Some(k);
                    }
                    k = k + 1;
                }
            }
            round = round + 1;
        }
        match found {
            Some(k) => {
                if constraint_fits(&self.packages[k].version, &r.version_constraint) {
                    Some(k)
                } else {
                    None
                }
            },
            None => None,
        }
    }

    fn is_listed(&self, ti: &Vec<usize>, n: &String) -> (r: bool)
        requires
            forall|m: int| 0 <= m < ti@.len() ==> (#[trigger] ti@[m]) < self.packages@.len(),
        ensures
            r == self.listed(ti@, n@),
    {
        let mut m: usize = 0;
        while m < ti.len()
            invariant
                m <= ti.len(),
                forall|m: int| 0 <= m < ti@.len() ==> (#[trigger] ti@[m]) < self.packages@.len(),
                forall|j: int| 0 <= j < m ==> self.packages@[#[trigger] ti@[j] as int].name@ != n@,
            decreases ti.len() - m,
        {
            if self.packages[ti[m]].name == *n {
                return true;
            }
            m = m + 1;
        }
        false
    }

    /// `x` names a package of the universe that provides `n` and is
    /// installed or not, as `inst` says.
    pub open spec fn provider_named(&self, x: Seq<char>, n: Seq<char>, inst: bool) -> bool {
        exists|k: int|
            0 <= k < self.packages@.len() && (#[trigger] self.packages@[k]).name@ == x
                && provides_name(self.packages@[k], n) && self.is_installed(self.packages@[k].name@)
                == inst
    }

    /// The error for a rule that nothing meets, with the names of the
    /// packages that provide it, installed or not.
    fn missing_error(&self, r: &DependencyRule) -> (e: PkgError)
        ensures
            e matches PkgError::MissingDependency { name, installed_providers, available_providers }
                && name@ == r.name@ && (forall|x: int|
                0 <= x < installed_providers@.len() ==> self.provider_named(
                    (#[trigger] installed_providers@[x])@,
                    r.name@,
                    true,
                )) && (forall|x: int|
                0 <= x < available_providers@.len() ==> self.provider_named(
                    (#[trigger] available_providers@[x])@,
                    r.name@,
                    false,
                )),
    {
        let mut inst: Vec<String> = Vec::new();
        let mut avail: Vec<String> = Vec::new();
        let mut k: usize = 0;
        while k < self.packages.len()
            invariant
                k <= self.packages.len(),
                forall|x: int|
                    0 <= x < inst@.len() ==> self.provider_named((#[trigger] inst@[x])@, r.name@, true),
                forall|x: int|
                    0 <= x < avail@.len() ==> self.provider_named(
                        (#[trigger] avail@[x])@,
                        r.name@,
                        false,
                    ),
            decreases self.packages.len() - k,
        {
            let q = &self.packages[k];
            if pkg_provides(q, &r.name) && !contains_name(&inst, &q.name) && !contains_name(
                &avail,
                &q.name,
            ) {
                let ghost i0 = inst@;
                let ghost a0 = avail@;
                let installed = self.is_installed_name(&q.name);
                assert(self.provider_named(q.name@, r.name@, installed)) by {
                    assert(self.packages@[k as int] == *q);
                }
                if installed {
                    inst.push(q.name.clone());
                    proof {
                        assert forall|x: int| 0 <= x < inst@.len() implies self.provider_named(
                            (#[trigger] inst@[x])@,
                            r.name@,
                            true,
                        ) by {
                            if x < i0.len() {
                                assert(inst@[x] == i0[x]);
                            }
                        }
                    }
                } else {
                    avail.push(q.name.clone());
                    proof {
                        assert forall|x: int| 0 <= x < avail@.len() implies self.provider_named(
                            (#[trigger] avail@[x])@,
                            r.name@,
                            false,
                        ) by {
                            if x < a0.len() {
                                assert(avail@[x] == a0[x]);
                            }
                        }
                    }
                }
            }
            k = k + 1;
        }
        PkgError::MissingDependency {
            name: r.name.clone(),
            installed_providers: inst,
            available_providers: avail,
        }
    }

    proof fn lemma_rule_mono(&self, r: DependencyRule, v1: Seq<bool>, v2: Seq<bool>)
        requires
            v1.len() == v2.len(),
            forall|i: int| 0 <= i < v1.len() && #[trigger] v1[i] ==> v2[i],
            self.covered(r, v1),
        ensures
            self.covered(r, v2),
    {
        reveal(DependencySolver::covered);
        if !self.satisfied_installed(r) && !self.system_present(r.name@) {
            let i = choose|i: int|
                0 <= i < self.packages@.len() && i < v1.len() && #[trigger] v1[i] && candidate(
                    self.packages@[i],
                    r,
                );
            assert(v2[i]);
        }
    }

    #[verifier::spinoff_prover]
    #[verifier::rlimit(40)]
    proof fn lemma_covered_mono(&self, p: PackageInfo, v1: Seq<bool>, v2: Seq<bool>)
        requires
            v1.len() == v2.len(),
            forall|i: int| 0 <= i < v1.len() && #[trigger] v1[i] ==> v2[i],
            self.groups_covered(p, v1),
        ensures
            self.groups_covered(p, v2),
    {
        assert forall|d: int|
            #![trigger p.depends@[d]]
            0 <= d < p.depends@.len() implies exists|e: int|
                0 <= e < p.depends@.len() && (#[trigger] p.depends@[e]).slot == p.depends@[d].slot
                    && self.covered(p.depends@[e], v2) by {
            let e = choose|e: int|
                0 <= e < p.depends@.len() && (#[trigger] p.depends@[e]).slot == p.depends@[d].slot
                    && self.covered(p.depends@[e], v1);
            self.lemma_rule_mono(p.depends@[e], v1, v2);
        }
    }

    proof fn lemma_inv_mono(&self, ti: Seq<usize>, v1: Seq<bool>, v2: Seq<bool>)
        requires
            self.state_inv(ti, v1),
            v1.len() == v2.len(),
            forall|i: int| 0 <= i < v1.len() && #[trigger] v1[i] ==> v2[i],
            forall|i: int, j: int|
                0 <= i < v2.len() && 0 <= j < v2.len() && (#[trigger] self.packages@[i]).name@ == (
                #[trigger] self.packages@[j]).name@ ==> v2[i] == v2[j],
        ensures
            self.state_inv(ti, v2),
    {
        assert forall|m: int| 0 <= m < ti.len() implies self.groups_covered(
            self.packages@[#[trigger] ti[m] as int],
            v2,
        ) by {
            self.lemma_covered_mono(self.packages@[ti[m] as int], v1, v2);
        }
        assert forall|m: int| 0 <= m < ti.len() implies v2[#[trigger] ti[m] as int] by {
            assert(v1[ti[m] as int]);
        }
    }

    /// Marks every universe entry named `n` as visited.
    fn mark_name(&self, n: &String, visited: &mut Vec<bool>)
        requires
            old(visited)@.len() == self.packages@.len(),
        ensures
            final(visited)@.len() == old(visited)@.len(),
            forall|j: int|
                0 <= j < final(visited)@.len() ==> #[trigger] final(visited)@[j] == (old(
                    visited,
                )@[j] || self.packages@[j].name@ == n@),
    {
        let ghost vis_in = visited@;
        let mut i: usize = 0;
        while i < visited.len()
            invariant
                i <= visited@.len(),
                visited@.len() == vis_in.len() == self.packages@.len(),
                forall|j: int|
                    0 <= j < i ==> #[trigger] visited@[j] == (vis_in[j] || self.packages@[j].name@
                        == n@),
                forall|j: int| i <= j < visited@.len() ==> #[trigger] visited@[j] == vis_in[j],
            decreases visited.len() - i,
        {
            if self.packages[i].name == *n {
                visited.set(i, true);
            }
            i = i + 1;
        }
    }

    /// Appends `p` to the plan unless its name is already there, failing
    /// when it conflicts with a planned package.
    fn append_checked(&self, p: usize, to_install: &mut Vec<usize>, visited: &Vec<bool>) -> (res:
        Result<(), PkgError>)
        requires
            p < self.packages@.len(),
            self.state_inv(old(to_install)@, visited@),
            visited@[p as int],
            self.groups_covered(self.packages@[p as int], visited@),
        ensures
            res is Ok ==> self.state_inv(final(to_install)@, visited@),
            res is Ok ==> self.listed(final(to_install)@, self.packages@[p as int].name@),
            res is Ok ==> old(to_install)@.is_prefix_of(final(to_install)@),
            res is Ok ==> final(to_install)@ == old(to_install)@ || final(to_install)@ == old(
                to_install,
            )@.push(p),
            self.closed() ==> res is Ok,
            res is Ok && !self.listed(old(to_install)@, self.packages@[p as int].name@)
                ==> final(to_install)@ == old(to_install)@.push(p),
    {
        if self.is_listed(to_install, &self.packages[p].name) {
            assert(to_install@.is_prefix_of(to_install@));
            return Ok(());
        }
        let mut m: usize = 0;
        while m < to_install.len()
            invariant
                m <= to_install.len(),
                p < self.packages@.len(),
                self.state_inv(to_install@, visited@),
                forall|j: int|
                    0 <= j < m ==> !conflicting(
                        self.packages@[p as int],
                        self.packages@[#[trigger] to_install@[j] as int],
                    ),
                !self.listed(to_install@, self.packages@[p as int].name@),
            decreases to_install.len() - m,
        {
            proof {
                if self.closed() {
                    let q = to_install@[m as int] as int;
                    assert(self.packages@[q].name@ != self.packages@[p as int].name@);
                    assert(!conflicting(self.packages@[p as int], self.packages@[q]));
                }
            }
            let other = &self.packages[to_install[m]];
            let me = &self.packages[p];
            if contains_name(&me.conflicts, &other.name) || contains_name(&other.conflicts, &me.name) {
                return Err(PkgError::Conflict(me.name.clone(), other.name.clone()));
            }
            m = m + 1;
        }
        let ghost ti_pre = to_install@;
        to_install.push(p);
        proof {
            let ti = to_install@;
            assert(ti_pre.is_prefix_of(ti));
            assert(ti[ti_pre.len() as int] == p);
            assert forall|m: int| 0 <= m < ti.len() implies self.groups_covered(
                self.packages@[#[trigger] ti[m] as int],
                visited@,
            ) by {
                if m < ti_pre.len() {
                    assert(ti[m] == ti_pre[m]);
                }
            }
            assert forall|m: int| 0 <= m < ti.len() implies (#[trigger] ti[m]) < self.packages@.len()
                && visited@[ti[m] as int] by {
                if m < ti_pre.len() {
                    assert(ti[m] == ti_pre[m]);
                }
            }
            assert forall|a: int, b: int|
                0 <= a < b < ti.len() implies self.packages@[#[trigger] ti[a] as int].name@
                != self.packages@[#[trigger] ti[b] as int].name@ by {
                assert(ti[a] == ti_pre[a]);
                if b < ti_pre.len() {
                    assert(ti[b] == ti_pre[b]);
                }
            }
            assert forall|a: int, b: int|
                0 <= a < ti.len() && 0 <= b < ti.len() && a != b implies !conflicting(
                self.packages@[#[trigger] ti[a] as int],
                self.packages@[#[trigger] ti[b] as int],
            ) by {
                if a < ti_pre.len() {
                    assert(ti[a] == ti_pre[a]);
                }
                if b < ti_pre.len() {
                    assert(ti[b] == ti_pre[b]);
                }
            }
            assert(self.state_inv(ti, visited@));
        }
        Ok(())
    }

    /// Each package visited since `v0` is planned, or has the name `n`.
    pub open spec fn fresh_listed(
        &self,
        ti: Seq<usize>,
        v0: Seq<bool>,
        v: Seq<bool>,
        except: Option<Seq<char>>,
    ) -> bool {
        forall|j: int|
            0 <= j < v0.len() && j < v.len() && #[trigger] v[j] && !v0[j] ==> self.listed(
                ti,
                self.packages@[j].name@,
            ) || except == Some(self.packages@[j].name@)
    }

    proof fn lemma_listed_prefix(&self, t1: Seq<usize>, t2: Seq<usize>, n: Seq<char>)
        requires
            t1.is_prefix_of(t2),
            self.listed(t1, n),
        ensures
            self.listed(t2, n),
    {
        let m = choose|m: int| 0 <= m < t1.len() && self.packages@[#[trigger] t1[m] as int].name@ == n;
        assert(t2[m] == t1[m]);
    }

    /// The ordering facts carried through the dependency loop of `resolve`:
    /// the plan is ordered, every visited name still open has at least rank
    /// `prank`, and each rule marked done is met by planned names.
    #[verifier::opaque]
    pub open spec fn order_loop(
        &self,
        ti: Seq<usize>,
        vis: Seq<bool>,
        done: Seq<bool>,
        deps: Seq<DependencyRule>,
        rank: spec_fn(Seq<char>) -> int,
        prank: int,
    ) -> bool {
        self.acyclic(rank) ==> {
            &&& self.ordered_ti(ti)
            &&& self.stack_above(ti, vis, rank, prank)
            &&& forall|e: int|
                0 <= e < done.len() && e < deps.len() && #[trigger] done[e] ==> self.met_listed(
                    deps[e],
                    ti,
                )
        }
    }

    proof fn lemma_order_start(
        &self,
        ti: Seq<usize>,
        v0: Seq<bool>,
        v1: Seq<bool>,
        p: int,
        rank: spec_fn(Seq<char>) -> int,
    )
        requires
            0 <= p < self.packages@.len(),
            v0.len() == v1.len(),
            forall|i: int|
                0 <= i < v1.len() ==> #[trigger] v1[i] == (v0[i] || self.packages@[i].name@
                    == self.packages@[p].name@),
            self.acyclic(rank) ==> self.ordered_ti(ti) && self.stack_above(
                ti,
                v0,
                rank,
                rank(self.packages@[p].name@) + 1,
            ),
        ensures
            self.order_loop(ti, v1, seq![], self.packages@[p].depends@, rank, rank(self.packages@[p].name@)),
    {
        reveal(DependencySolver::order_loop);
    }

    proof fn lemma_order_skip(
        &self,
        ti: Seq<usize>,
        vis: Seq<bool>,
        done: Seq<bool>,
        deps: Seq<DependencyRule>,
        rank: spec_fn(Seq<char>) -> int,
        prank: int,
        now: bool,
    )
        requires
            self.order_loop(ti, vis, done, deps, rank, prank),
            done.len() < deps.len(),
            self.acyclic(rank) && now ==> self.met_listed(deps[done.len() as int], ti),
        ensures
            self.order_loop(ti, vis, done.push(now), deps, rank, prank),
    {
        reveal(DependencySolver::order_loop);
        if self.acyclic(rank) {
            let nd = done.push(now);
            assert forall|e: int|
                0 <= e < nd.len() && e < deps.len() && #[trigger] nd[e] implies self.met_listed(
                deps[e],
                ti,
            ) by {
                if e < done.len() {
                    assert(nd[e] == done[e]);
                }
            }
        }
    }

    proof fn lemma_order_use_visited(
        &self,
        ti: Seq<usize>,
        vis: Seq<bool>,
        done: Seq<bool>,
        p: int,
        k: int,
        rank: spec_fn(Seq<char>) -> int,
    )
        requires
            0 <= p < self.packages@.len(),
            0 <= k < self.packages@.len(),
            vis.len() == self.packages@.len(),
            done.len() < self.packages@[p].depends@.len(),
            vis[k],
            candidate(self.packages@[k], self.packages@[p].depends@[done.len() as int]),
            self.order_loop(ti, vis, done, self.packages@[p].depends@, rank, rank(self.packages@[p].name@)),
        ensures
            self.acyclic(rank) ==> self.met_listed(self.packages@[p].depends@[done.len() as int], ti),
    {
        reveal(DependencySolver::order_loop);
        if self.acyclic(rank) {
            let d = done.len() as int;
            assert(candidate(self.packages@[k], self.packages@[p].depends@[d]));
            assert(rank(self.packages@[k].name@) < rank(self.packages@[p].name@));
            assert(self.listed(ti, self.packages@[k].name@));
        }
    }

    proof fn lemma_order_before_call(
        &self,
        ti: Seq<usize>,
        vis: Seq<bool>,
        done: Seq<bool>,
        p: int,
        k: int,
        rank: spec_fn(Seq<char>) -> int,
    )
        requires
            0 <= p < self.packages@.len(),
            0 <= k < self.packages@.len(),
            done.len() < self.packages@[p].depends@.len(),
            candidate(self.packages@[k], self.packages@[p].depends@[done.len() as int]),
            self.order_loop(ti, vis, done, self.packages@[p].depends@, rank, rank(self.packages@[p].name@)),
        ensures
            self.acyclic(rank) ==> self.ordered_ti(ti) && self.stack_above(
                ti,
                vis,
                rank,
                rank(self.packages@[k].name@) + 1,
            ),
    {
        reveal(DependencySolver::order_loop);
        if self.acyclic(rank) {
            let d = done.len() as int;
            assert(candidate(self.packages@[k], self.packages@[p].depends@[d]));
        }
    }

    proof fn lemma_order_after_call(
        &self,
        t1: Seq<usize>,
        t2: Seq<usize>,
        v1: Seq<bool>,
        v2: Seq<bool>,
        done: Seq<bool>,
        p: int,
        k: int,
        rank: spec_fn(Seq<char>) -> int,
    )
        requires
            0 <= p < self.packages@.len(),
            0 <= k < self.packages@.len(),
            v1.len() == v2.len(),
            v2.len() == self.packages@.len(),
            done.len() < self.packages@[p].depends@.len(),
            candidate(self.packages@[k], self.packages@[p].depends@[done.len() as int]),
            !v1[k],
            v2[k],
            t1.is_prefix_of(t2),
            self.fresh_listed(t2, v1, v2, None),
            self.acyclic(rank) ==> self.ordered_ti(t2),
            self.order_loop(t1, v1, done, self.packages@[p].depends@, rank, rank(self.packages@[p].name@)),
        ensures
            self.order_loop(t2, v2, done, self.packages@[p].depends@, rank, rank(self.packages@[p].name@)),
            self.acyclic(rank) ==> self.met_listed(self.packages@[p].depends@[done.len() as int], t2),
    {
        reveal(DependencySolver::order_loop);
        if self.acyclic(rank) {
            let deps = self.packages@[p].depends@;
            let prank = rank(self.packages@[p].name@);
            assert forall|i: int|
                0 <= i < v2.len() && i < self.packages@.len() && #[trigger] v2[i] && !self.listed(
                    t2,
                    self.packages@[i].name@,
                ) implies rank(self.packages@[i].name@) >= prank by {
                if v1[i] {
                    if self.listed(t1, self.packages@[i].name@) {
                        self.lemma_listed_prefix(t1, t2, self.packages@[i].name@);
                    }
                }
            }
            assert forall|e: int|
                0 <= e < done.len() && e < deps.len() && #[trigger] done[e] implies self.met_listed(
                deps[e],
                t2,
            ) by {
                self.lemma_met_listed_prefix(deps[e], t1, t2);
            }
            assert(self.listed(t2, self.packages@[k].name@));
        }
    }

    proof fn lemma_order_end(
        &self,
        ti: Seq<usize>,
        vis: Seq<bool>,
        done: Seq<bool>,
        p: int,
        rank: spec_fn(Seq<char>) -> int,
    )
        requires
            0 <= p < self.packages@.len(),
            done.len() == self.packages@[p].depends@.len(),
            groups_pending(self.packages@[p].depends@, done, done.len() as int),
            self.order_loop(ti, vis, done, self.packages@[p].depends@, rank, rank(self.packages@[p].name@)),
        ensures
            self.acyclic(rank) ==> self.ordered_ti(ti),
            self.acyclic(rank) ==> forall|d: int|
                #![trigger self.packages@[p].depends@[d]]
                0 <= d < self.packages@[p].depends@.len() ==> exists|e: int|
                    0 <= e < self.packages@[p].depends@.len() && (
                    #[trigger] self.packages@[p].depends@[e]).slot
                        == self.packages@[p].depends@[d].slot && self.met_listed(
                        self.packages@[p].depends@[e],
                        ti,
                    ),
    {
        reveal(DependencySolver::order_loop);
        let deps = self.packages@[p].depends@;
        lemma_pending_done(deps, done);
        if self.acyclic(rank) {
            assert forall|d: int|
                #![trigger deps[d]]
                0 <= d < deps.len() implies exists|e: int|
                    0 <= e < deps.len() && (#[trigger] deps[e]).slot == deps[d].slot
                        && self.met_listed(deps[e], ti) by {
                let e2 = choose|e2: int|
                    0 <= e2 < deps.len() && done[e2] && (#[trigger] deps[e2]).slot == deps[d].slot;
            }
        }
    }

    /// Every resolvable rule before `d` has a done rule of its group before `d`.
    pub open spec fn resolvable_done(&self, deps: Seq<DependencyRule>, done: Seq<bool>, d: int) -> bool {
        forall|e: int|
            #![trigger deps[e]]
            0 <= e < d && self.resolvable(deps[e]) ==> exists|e2: int|
                0 <= e2 < d && done[e2] && (#[trigger] deps[e2]).slot == deps[e].slot
    }

    proof fn lemma_resolvable_step(&self, deps: Seq<DependencyRule>, done: Seq<bool>, d: int, now: bool)
        requires
            0 <= d < deps.len(),
            done.len() == d,
            self.resolvable_done(deps, done, d),
            self.resolvable(deps[d]) ==> now || exists|e2: int|
                0 <= e2 < d && done[e2] && (#[trigger] deps[e2]).slot == deps[d].slot,
        ensures
            self.resolvable_done(deps, done.push(now), d + 1),
    {
        let nd = done.push(now);
        assert forall|e: int|
            #![trigger deps[e]]
            0 <= e < d + 1 && self.resolvable(deps[e]) implies exists|e2: int|
                0 <= e2 < d + 1 && nd[e2] && (#[trigger] deps[e2]).slot == deps[e].slot by {
            if e < d {
                let e2 = choose|e2: int| 0 <= e2 < d && done[e2] && (#[trigger] deps[e2]).slot == deps[e].slot;
                assert(nd[e2]);
            } else if now {
                assert(nd[d]);
            } else {
                let e2 = choose|e2: int| 0 <= e2 < d && done[e2] && (#[trigger] deps[e2]).slot == deps[d].slot;
                assert(nd[e2]);
            }
        }
    }

    proof fn lemma_group_has_way(&self, p: int, done: Seq<bool>, d: int)
        requires
            self.closed(),
            0 <= p < self.packages@.len(),
            0 <= d < self.packages@[p].depends@.len(),
            done.len() == d,
            self.resolvable_done(self.packages@[p].depends@, done, d),
        ensures
            self.resolvable(self.packages@[p].depends@[d]) || (exists|e2: int|
                0 <= e2 < d && done[e2] && (#[trigger] self.packages@[p].depends@[e2]).slot
                    == self.packages@[p].depends@[d].slot) || (exists|f: int|
                d < f < self.packages@[p].depends@.len() && (
                #[trigger] self.packages@[p].depends@[f]).slot == self.packages@[p].depends@[d].slot),
    {
        let deps = self.packages@[p].depends@;
        let e = choose|e: int|
            0 <= e < deps.len() && (#[trigger] deps[e]).slot == deps[d].slot && self.resolvable(deps[e]);
        if e < d {
            let e2 = choose|e2: int| 0 <= e2 < d && done[e2] && (#[trigger] deps[e2]).slot == deps[e].slot;
        } else if e > d {
            assert(deps[e].slot == deps[d].slot);
        }
    }

    /// Resolves package `p` depth-first: marks its name visited, meets each
    /// alternative group of its dependencies, then appends it to the plan.
    #[verifier::loop_isolation(false)]
    fn resolve_dependencies(
        &self,
        p: usize,
        to_install: &mut Vec<usize>,
        visited: &mut Vec<bool>,
        rank: Ghost<spec_fn(Seq<char>) -> int>,
    ) -> (res: Result<(), PkgError>)
        requires
            p < self.packages@.len(),
            self.state_inv(old(to_install)@, old(visited)@),
            !old(visited)@[p as int],
            self.acyclic(rank@) ==> self.ordered_ti(old(to_install)@) && self.stack_above(
                old(to_install)@,
                old(visited)@,
                rank@,
                rank@(self.packages@[p as int].name@) + 1,
            ),
        ensures
            res is Ok && self.acyclic(rank@) ==> self.ordered_ti(final(to_install)@),
            self.closed() ==> res is Ok,
            final(visited)@.len() == old(visited)@.len(),
            forall|i: int|
                0 <= i < old(visited)@.len() && #[trigger] old(visited)@[i] ==> final(visited)@[i],
            res is Ok ==> self.state_inv(final(to_install)@, final(visited)@),
            res is Ok ==> self.fresh_listed(
                final(to_install)@,
                old(visited)@,
                final(visited)@,
                None,
            ) && final(visited)@.len() == old(visited)@.len(),
            res is Ok ==> old(to_install)@.is_prefix_of(final(to_install)@),
            res is Ok ==> final(visited)@[p as int],
            res is Ok ==> new_entries_unvisited(old(to_install)@, final(to_install)@, old(visited)@),
            res is Ok ==> exists|m: int|
                old(to_install)@.len() <= m < final(to_install)@.len() && final(to_install)@[m] == p,
        decreases count_false(old(visited)@),
    {
        let ghost vis_in = old(visited)@;
        let ghost ti_in = old(to_install)@;
        let pname = self.packages[p].name.clone();
        self.mark_name(&pname, visited);
        proof {
            assert forall|i: int| 0 <= i < vis_in.len() && #[trigger] vis_in[i] implies visited@[i] by {
                assert(visited@[i] == (vis_in[i] || self.packages@[i].name@ == pname@));
            }
            assert forall|i: int, j: int|
                0 <= i < visited@.len() && 0 <= j < visited@.len() && (#[trigger] self.packages@[i]).name@
                    == (#[trigger] self.packages@[j]).name@ implies visited@[i] == visited@[j] by {
                assert(visited@[i] == (vis_in[i] || self.packages@[i].name@ == pname@));
                assert(visited@[j] == (vis_in[j] || self.packages@[j].name@ == pname@));
            }
            assert(visited@[p as int] == (vis_in[p as int] || self.packages@[p as int].name@ == pname@));
            assert(visited@[p as int]);
            lemma_count_false(vis_in, visited@, p as int);
            self.lemma_inv_mono(to_install@, vis_in, visited@);
            assert(ti_in.is_prefix_of(to_install@));
            self.lemma_order_start(to_install@, vis_in, visited@, p as int, rank@);
        }
        let ghost vis_marked = visited@;
        let ndeps = self.packages[p].depends.len();
        let ghost deps = self.packages@[p as int].depends@;
        let mut done: Vec<bool> = Vec::new();
        let mut d: usize = 0;
        proof {
            lemma_pending_start(deps, done@);
        }
        while d < ndeps
            invariant
                ndeps == deps.len(),
                deps == self.packages@[p as int].depends@,
                p < self.packages@.len(),
                pname@ == self.packages@[p as int].name@,
                self.state_inv(to_install@, visited@),
                visited@.len() == vis_in.len(),
                forall|j: int| 0 <= j < vis_in.len() && #[trigger] vis_in[j] ==> visited@[j],
                visited@[p as int],
                count_false(visited@) < count_false(vis_in),
                self.fresh_listed(to_install@, vis_in, visited@, Some(pname@)),
                ti_in.is_prefix_of(to_install@),
                d <= ndeps,
                done@.len() == d,
                forall|e: int| 0 <= e < d && #[trigger] done@[e] ==> self.covered(deps[e], visited@),
                groups_pending(deps, done@, d as int),
                self.order_loop(
                    to_install@,
                    visited@,
                    done@,
                    deps,
                    rank@,
                    rank@(self.packages@[p as int].name@),
                ),
                self.resolvable_done(deps, done@, d as int),
                ti_in.len() <= to_install@.len(),
                forall|m: int|
                    ti_in.len() <= m < to_install@.len() ==> !vis_in[#[trigger] to_install@[m] as int]
                        && self.packages@[to_install@[m] as int].name@ != pname@,
            decreases ndeps - d,
        {
            let slot = self.packages[p].depends[d].slot;
            let covered_before = slot_done(&self.packages[p].depends, &done, d, slot);
            let ghost done_before = done@;
            let ghost ti_step = to_install@;
            let mut now = false;
            let mut later = false;
            if !covered_before {
                let r = &self.packages[p].depends[d];
                match self.choose_for(r) {
                    Choice::Satisfied => {
                        proof {
                            reveal(DependencySolver::covered);
                        }
                        now = true;
                    },
                    Choice::Use(k) => {
                        if !visited[k] {
                            let ghost vis_before = visited@;
                            let ghost ti_before = to_install@;
                            proof {
                                self.lemma_order_before_call(
                                    to_install@,
                                    visited@,
                                    done@,
                                    p as int,
                                    k as int,
                                    rank@,
                                );
                            }
                            let res = self.resolve_dependencies(k, &mut *to_install, &mut *visited, rank);
                            match res {
                                Err(e) => {
                                    return Err(e);
                                },
                                Ok(()) => {},
                            }
                            proof {
                                lemma_count_false(vis_before, visited@, -1);
                                self.lemma_fresh_step(
                                    ti_before,
                                    to_install@,
                                    vis_in,
                                    vis_before,
                                    visited@,
                                    Some(pname@),
                                );
                                assert forall|e: int|
                                    0 <= e < d && #[trigger] done@[e] implies self.covered(
                                    deps[e],
                                    visited@,
                                ) by {
                                    self.lemma_rule_mono(deps[e], vis_before, visited@);
                                }
                                assert(new_entries_unvisited(ti_before, to_install@, vis_before));
                                assert forall|m: int|
                                    ti_in.len() <= m < to_install@.len() implies !vis_in[
                                    #[trigger] to_install@[m] as int]
                                    && self.packages@[to_install@[m] as int].name@ != pname@ by {
                                    if m < ti_before.len() {
                                        assert(to_install@[m] == ti_before[m]);
                                    } else {
                                        let q = to_install@[m] as int;
                                        assert(!vis_before[q]);
                                        assert(vis_before[p as int]);
                                    }
                                }
                                self.lemma_order_after_call(
                                    ti_before,
                                    to_install@,
                                    vis_before,
                                    visited@,
                                    done@,
                                    p as int,
                                    k as int,
                                    rank@,
                                );
                            }
                        } else {
                            proof {
                                self.lemma_order_use_visited(
                                    to_install@,
                                    visited@,
                                    done@,
                                    p as int,
                                    k as int,
                                    rank@,
                                );
                            }
                        }
                        proof {
                            reveal(DependencySolver::covered);
                            assert(visited@[k as int]);
                        }
                        now = true;
                    },
                    Choice::Missing => {
                        later = slot_later(&self.packages[p].depends, d, slot);
                        if !later {
                            proof {
                                if self.closed() {
                                    self.lemma_group_has_way(p as int, done@, d as int);
                                }
                            }
                            return Err(self.missing_error(r));
                        }
                    },
                }
            }
            proof {
                if now && self.acyclic(rank@) {
                    assert(self.met_listed(deps[d as int], to_install@));
                }
                self.lemma_order_skip(
                    to_install@,
                    visited@,
                    done@,
                    deps,
                    rank@,
                    rank@(self.packages@[p as int].name@),
                    now,
                );
            }
            proof {
                self.lemma_resolvable_step(deps, done@, d as int, now);
            }
            done.push(now);
            proof {
                lemma_pending_step(deps, done_before, d as int, now, covered_before, later);
            }
            d = d + 1;
        }
        proof {
            lemma_pending_done(deps, done@);
            reveal(DependencySolver::covered);
            assert forall|dd: int|
                #![trigger deps[dd]]
                0 <= dd < deps.len() implies exists|e: int|
                    0 <= e < deps.len() && (#[trigger] deps[e]).slot == deps[dd].slot
                        && self.covered(deps[e], visited@) by {
                let e2 = choose|e2: int|
                    0 <= e2 < deps.len() && done@[e2] && (#[trigger] deps[e2]).slot == deps[dd].slot;
            }
        }
        proof {
            self.lemma_order_end(to_install@, visited@, done@, p as int, rank@);
        }
        let ghost ti_mid = to_install@;
        proof {
            assert(!self.listed(ti_mid, pname@)) by {
                if self.listed(ti_mid, pname@) {
                    let m = choose|m: int|
                        0 <= m < ti_mid.len() && self.packages@[#[trigger] ti_mid[m] as int].name@
                            == pname@;
                    if m < ti_in.len() {
                        assert(ti_mid[m] == ti_in[m]);
                        let q = ti_in[m] as int;
                        assert(vis_in[q]);
                        assert(!vis_in[p as int]);
                    }
                }
            }
        }
        let res = self.append_checked(p, to_install, visited);
        match res {
            Err(e) => {
                return Err(e);
            },
            Ok(()) => {},
        }
        proof {
            assert(to_install@ == ti_mid.push(p));
            assert(to_install@[ti_mid.len() as int] == p);
            assert forall|m: int|
                ti_in.len() <= m < to_install@.len() implies !vis_in[#[trigger] to_install@[m] as int] by {
                if m < ti_mid.len() {
                    assert(to_install@[m] == ti_mid[m]);
                }
            }
            assert(new_entries_unvisited(ti_in, to_install@, vis_in));
            if self.acyclic(rank@) && to_install@ != ti_mid {
                self.lemma_ordered_push(ti_mid, p);
            }
            assert forall|j: int|
                0 <= j < vis_in.len() && j < visited@.len() && #[trigger] visited@[j]
                    && !vis_in[j] implies self.listed(to_install@, self.packages@[j].name@)
                || None::<Seq<char>> == Some(self.packages@[j].name@) by {
                if self.listed(ti_mid, self.packages@[j].name@) {
                    self.lemma_listed_prefix(ti_mid, to_install@, self.packages@[j].name@);
                }
            }
        }
        Ok(())
    }

    proof fn lemma_plan_sound(&self, ti: Seq<usize>, vis: Seq<bool>, out: Seq<PackageInfo>)
        requires
            self.state_inv(ti, vis),
            self.fresh_listed(ti, Seq::new(vis.len(), |i: int| false), vis, None),
            out.len() == ti.len(),
            forall|m: int| 0 <= m < ti.len() ==> same_info(#[trigger] out[m], self.packages@[ti[m] as int]),
        ensures
            self.plan_sound(out),
    {
        let zeros = Seq::new(vis.len(), |i: int| false);
        assert forall|m: int, d: int|
            0 <= m < out.len() && 0 <= d < out[m].depends@.len() implies #[trigger] self.group_met(
            out,
            m,
            d,
        ) by {
            let pk = self.packages@[ti[m] as int];
            assert(same_info(out[m], pk));
            let deps = pk.depends@;
            assert(self.groups_covered(pk, vis));
            assert(deps[d] == out[m].depends@[d]);
            let e = choose|e: int|
                0 <= e < deps.len() && (#[trigger] deps[e]).slot == deps[d].slot && self.covered(
                    deps[e],
                    vis,
                );
            assert(out[m].depends@[e] == deps[e]);
            reveal(DependencySolver::covered);
            if !self.satisfied_installed(deps[e]) && !self.system_present(deps[e].name@) {
                let i = choose|i: int|
                    0 <= i < self.packages@.len() && i < vis.len() && #[trigger] vis[i] && candidate(
                        self.packages@[i],
                        deps[e],
                    );
                assert(!zeros[i]);
                assert(self.listed(ti, self.packages@[i].name@));
                let m2 = choose|m2: int|
                    0 <= m2 < ti.len() && self.packages@[#[trigger] ti[m2] as int].name@
                        == self.packages@[i].name@;
                assert(same_info(out[m2], self.packages@[ti[m2] as int]));
                assert(out[m2].name@ == self.packages@[i].name@);
                assert(has_package(out, self.packages@[i].name@));
            }
            assert(self.met_in(deps[e], out));
            assert(out[m].depends@[e].slot == out[m].depends@[d].slot);
        }
    }

    proof fn lemma_plan_ordered(&self, ti: Seq<usize>, out: Seq<PackageInfo>)
        requires
            self.ordered_ti(ti),
            out.len() == ti.len(),
            forall|m: int| 0 <= m < ti.len() ==> (#[trigger] ti[m]) < self.packages@.len(),
            forall|m: int| 0 <= m < ti.len() ==> same_info(#[trigger] out[m], self.packages@[ti[m] as int]),
        ensures
            self.plan_ordered(out),
    {
        assert forall|m: int, d: int|
            0 <= m < out.len() && 0 <= d < out[m].depends@.len() implies #[trigger] self.group_met_earlier(
            out,
            m,
            d,
        ) by {
            let pk = self.packages@[ti[m] as int];
            assert(same_info(out[m], pk));
            let deps = pk.depends@;
            assert(self.group_before(ti, m, d));
            let e = choose|e: int|
                0 <= e < deps.len() && (#[trigger] deps[e]).slot == deps[d].slot && self.met_listed(
                    deps[e],
                    ti.take(m),
                );
            assert(out[m].depends@[e] == deps[e]);
            assert(out[m].depends@[d] == deps[d]);
            if !self.satisfied_installed(deps[e]) && !self.system_present(deps[e].name@) {
                let i = choose|i: int|
                    0 <= i < self.packages@.len() && candidate(#[trigger] self.packages@[i], deps[e])
                        && self.listed(ti.take(m), self.packages@[i].name@);
                let m2 = choose|m2: int|
                    0 <= m2 < ti.take(m).len() && self.packages@[#[trigger] ti.take(m)[m2] as int].name@
                        == self.packages@[i].name@;
                assert(ti.take(m)[m2] == ti[m2]);
                assert(same_info(out[m2], self.packages@[ti[m2] as int]));
                assert(out.take(m)[m2] == out[m2]);
                assert(has_package(out.take(m), self.packages@[i].name@));
            }
        }
    }

    /// Every request names a package with a version and architecture that
    /// fit it.
    pub open spec fn all_qualify(&self, requested: Seq<PackageSpec>) -> bool {
        forall|i: int|
            0 <= i < requested.len() ==> exists|k: int|
                self.qualifies(
                    k,
                    (#[trigger] requested[i]).name@,
                    requested[i].version,
                    requested[i].arch,
                )
    }

    /// The plan holds a copy of the best qualifying version for `spec`.
    pub open spec fn first_request_best(&self, spec: PackageSpec, v: Seq<PackageInfo>) -> bool {
        exists|m: int, k: int|
            0 <= m < v.len() && self.is_best(k, spec.name@, spec.version, spec.arch) && same_info(
                #[trigger] v[m],
                #[trigger] self.packages@[k],
            )
    }

    /// The outcome of resolving `requested`, as both solving modes promise
    /// it.
    pub open spec fn solve_result(&self, requested: Seq<PackageSpec>, r: Result<Solution, PkgError>) -> bool {
        &&& (r is Ok ==> {
                let s = r->Ok_0;
                &&& s.to_remove@.len() == 0
                &&& s.to_upgrade@.len() == 0
                &&& forall|m: int|
                    0 <= m < s.to_install@.len() ==> self.from_universe(#[trigger] s.to_install@[m])
                &&& forall|a: int, b: int|
                    0 <= a < b < s.to_install@.len() ==> (#[trigger] s.to_install@[a]).name@ != (
                    #[trigger] s.to_install@[b]).name@
                &&& forall|a: int, b: int|
                    0 <= a < s.to_install@.len() && 0 <= b < s.to_install@.len() && a != b
                        ==> !conflicting(#[trigger] s.to_install@[a], #[trigger] s.to_install@[b])
                &&& forall|i: int|
                    0 <= i < requested.len() ==> has_package(
                        s.to_install@,
                        (#[trigger] requested[i]).name@,
                    )
                &&& self.plan_sound(s.to_install@)
                &&& (exists|rank: spec_fn(Seq<char>) -> int| self.acyclic(rank)) ==> self.plan_ordered(
                    s.to_install@,
                )
                &&& requested.len() > 0 ==> self.first_request_best(requested[0], s.to_install@)
            })
        &&& ((exists|i: int| 0 <= i < requested.len() && !self.named((#[trigger] requested[i]).name@))
                ==> r is Err)
        &&& (self.closed() && self.all_qualify(requested) ==> r is Ok)
    }

    /// `p` is a copy of a package of the universe.
    pub open spec fn from_universe(&self, p: PackageInfo) -> bool {
        exists|k: int| 0 <= k < self.packages@.len() && same_info(p, #[trigger] self.packages@[k])
    }

    /// Resolves the requested packages into an install plan.
    ///
    /// The plan is owed when every request qualifies, every alternative group
    /// of every package has a resolvable alternative, and no two packages
    /// conflict. On success, each planned package is a package of the
    /// universe, no two share a name or conflict, every requested name is
    /// planned with the first request at its best qualifying version, every
    /// alternative group of every planned dependency is met (by an installed
    /// or host package, or by a candidate whose name is planned), and, when
    /// the candidate relation has no cycle, dependencies come first.
    pub fn solve(&self, requested: &[PackageSpec]) -> (r: Result<Solution, PkgError>)
        ensures
            self.solve_result(requested@, r),
    {
        let mut to_install: Vec<usize> = Vec::new();
        let mut visited: Vec<bool> = Vec::new();
        let mut z: usize = 0;
        while z < self.packages.len()
            invariant
                z <= self.packages.len(),
                visited@ == Seq::new(z as nat, |i: int| false),
            decreases self.packages.len() - z,
        {
            visited.push(false);
            assert(visited@ =~= Seq::new((z + 1) as nat, |i: int| false));
            z = z + 1;
        }
        let ghost zeros = visited@;
        let ghost rank = choose|rank: spec_fn(Seq<char>) -> int| self.acyclic(rank);
        proof {
            assert(self.fresh_listed(to_install@, zeros, visited@, None));
            assert(self.ordered_ti(to_install@));
        }
        let mut i: usize = 0;
        while i < requested.len()
            invariant
                i <= requested@.len(),
                zeros == Seq::new(self.packages@.len(), |i: int| false),
                self.state_inv(to_install@, visited@),
                self.fresh_listed(to_install@, zeros, visited@, None),
                forall|j: int| 0 <= j < i ==> self.listed(to_install@, (#[trigger] requested@[j]).name@),
                forall|j: int| 0 <= j < i ==> self.named((#[trigger] requested@[j]).name@),
                self.acyclic(rank) ==> self.ordered_ti(to_install@),
                i == 0 ==> visited@ == zeros,
                i > 0 ==> exists|m: int|
                    0 <= m < to_install@.len() && self.is_best(
                        #[trigger] to_install@[m] as int,
                        requested@[0].name@,
                        requested@[0].version,
                        requested@[0].arch,
                    ),
            decreases requested.len() - i,
        {
            let spec = &requested[i];
            if !self.is_named(&spec.name) {
                proof {
                    if self.all_qualify(requested@) {
                        let k = choose|k: int|
                            self.qualifies(k, requested@[i as int].name@, requested@[i as int].version, requested@[i as int].arch);
                        assert(self.packages@[k].name@ == spec.name@);
                    }
                }
                return Err(PkgError::PackageNotFound(spec.name.clone()));
            }
            let k = match self.select_best_version(&spec.name, &spec.version, &spec.arch) {
                Some(k) => k,
                None => {
                    proof {
                        if self.all_qualify(requested@) {
                            assert(exists|k: int|
                                self.qualifies(k, requested@[i as int].name@, requested@[i as int].version, requested@[i as int].arch));
                        }
                    }
                    return Err(PkgError::NoMatchingVersion(spec.name.clone()));
                },
            };
            let ghost t1 = to_install@;
            let ghost v1 = visited@;
            proof {
                if i == 0 {
                    assert(!zeros[k as int]);
                }
            }
            if !visited[k] {
                proof {
                    assert forall|i: int|
                        0 <= i < visited@.len() && i < self.packages@.len() && #[trigger] visited@[i]
                            && !self.listed(to_install@, self.packages@[i].name@) implies rank(
                        self.packages@[i].name@,
                    ) >= rank(self.packages@[k as int].name@) + 1 by {
                        assert(!zeros[i]);
                    }
                }
                match self.resolve_dependencies(k, &mut to_install, &mut visited, Ghost(rank)) {
                    Err(e) => {
                        return Err(e);
                    },
                    Ok(()) => {},
                }
                proof {
                    if i > 0 {
                        let m0 = choose|m: int|
                            0 <= m < t1.len() && self.is_best(
                                #[trigger] t1[m] as int,
                                requested@[0].name@,
                                requested@[0].version,
                                requested@[0].arch,
                            );
                        assert(to_install@[m0] == t1[m0]);
                    } else {
                        let m1 = choose|m: int|
                            t1.len() <= m < to_install@.len() && to_install@[m] == k;
                        assert(self.is_best(to_install@[m1] as int, requested@[0].name@, requested@[0].version, requested@[0].arch));
                    }
                    self.lemma_fresh_step(t1, to_install@, zeros, v1, visited@, None);
                    assert forall|j: int| 0 <= j < i implies self.listed(
                        to_install@,
                        (#[trigger] requested@[j]).name@,
                    ) by {
                        self.lemma_listed_prefix(t1, to_install@, requested@[j].name@);
                    }
                }
            }
            assert(visited@[k as int]);
            assert(!zeros[k as int]);
            assert(self.listed(to_install@, requested@[i as int].name@));
            i = i + 1;
        }
        let mut out: Vec<PackageInfo> = Vec::new();
        let mut m: usize = 0;
        while m < to_install.len()
            invariant
                m <= to_install.len(),
                self.state_inv(to_install@, visited@),
                out@.len() == m,
                forall|j: int|
                    0 <= j < m ==> same_info(#[trigger] out@[j], self.packages@[to_install@[j] as int]),
                self.acyclic(rank) ==> self.ordered_ti(to_install@),
                requested@.len() > 0 ==> exists|m: int|
                    0 <= m < to_install@.len() && self.is_best(
                        #[trigger] to_install@[m] as int,
                        requested@[0].name@,
                        requested@[0].version,
                        requested@[0].arch,
                    ),
            decreases to_install.len() - m,
        {
            out.push(copy_info(&self.packages[to_install[m]]));
            m = m + 1;
        }
        proof {
            if requested@.len() > 0 {
                let m0 = choose|m: int|
                    0 <= m < to_install@.len() && self.is_best(
                        #[trigger] to_install@[m] as int,
                        requested@[0].name@,
                        requested@[0].version,
                        requested@[0].arch,
                    );
                assert(same_info(out@[m0], self.packages@[to_install@[m0] as int]));
                assert(self.first_request_best(requested@[0], out@));
            }
            self.lemma_plan_sound(to_install@, visited@, out@);
            if exists|rk: spec_fn(Seq<char>) -> int| self.acyclic(rk) {
                assert(self.acyclic(rank));
                self.lemma_plan_ordered(to_install@, out@);
            }
            assert forall|m: int| 0 <= m < out@.len() implies self.from_universe(#[trigger] out@[m]) by {
                assert(same_info(out@[m], self.packages@[to_install@[m] as int]));
            }
            assert forall|a: int, b: int|
                0 <= a < b < out@.len() implies (#[trigger] out@[a]).name@ != (
                #[trigger] out@[b]).name@ by {
                assert(same_info(out@[a], self.packages@[to_install@[a] as int]));
                assert(same_info(out@[b], self.packages@[to_install@[b] as int]));
            }
            assert forall|a: int, b: int|
                0 <= a < out@.len() && 0 <= b < out@.len() && a != b implies !conflicting(
                #[trigger] out@[a],
                #[trigger] out@[b],
            ) by {
                assert(same_info(out@[a], self.packages@[to_install@[a] as int]));
                assert(same_info(out@[b], self.packages@[to_install@[b] as int]));
            }
            assert forall|j: int| 0 <= j < requested@.len() implies has_package(
                out@,
                (#[trigger] requested@[j]).name@,
            ) by {
                let m2 = choose|m2: int|
                    0 <= m2 < to_install@.len() && self.packages@[#[trigger] to_install@[m2] as int].name@
                        == requested@[j].name@;
                assert(same_info(out@[m2], self.packages@[to_install@[m2] as int]));
            }
        }
        Ok(Solution { to_install: out, to_remove: Vec::new(), to_upgrade: Vec::new() })
    }

    /// Resolves the requested packages. Both modes apply the same policy and
    /// give the same plan; the flag selects how the work is scheduled, and
    /// this library resolves in one pass either way.
    pub fn solve_parallel(&self, requested: &[PackageSpec], use_parallel: bool) -> (r: Result<
        Solution,
        PkgError,
    >)
        ensures
            self.solve_result(requested@, r),
    {
        self.solve(requested)
    }

    proof fn lemma_fresh_step(
        &self,
        t1: Seq<usize>,
        t2: Seq<usize>,
        v0: Seq<bool>,
        v1: Seq<bool>,
        v2: Seq<bool>,
        n: Option<Seq<char>>,
    )
        requires
            t1.is_prefix_of(t2),
            self.fresh_listed(t1, v0, v1, n),
            self.fresh_listed(t2, v1, v2, None),
            v0.len() == v1.len() == v2.len(),
        ensures
            self.fresh_listed(t2, v0, v2, n),
    {
        assert forall|j: int|
            0 <= j < v0.len() && j < v2.len() && #[trigger] v2[j] && !v0[j] implies self.listed(
            t2,
            self.packages@[j].name@,
        ) || n == Some(self.packages@[j].name@) by {
            if v1[j] {
                if self.listed(t1, self.packages@[j].name@) {
                    self.lemma_listed_prefix(t1, t2, self.packages@[j].name@);
                }
            }
        }
    }
}

/// Every rule before `d` has, in its group, a rule before `d` that is done,
/// or a rule from `d` on that is still to be tried.
#[verifier::opaque]
pub open spec fn groups_pending(deps: Seq<DependencyRule>, done: Seq<bool>, d: int) -> bool {
    forall|e: int|
        #![trigger deps[e]]
        0 <= e < d ==> (exists|e2: int|
            0 <= e2 < d && done[e2] && (#[trigger] deps[e2]).slot == deps[e].slot) || (exists|f: int|
            d <= f < deps.len() && (#[trigger] deps[f]).slot == deps[e].slot)
}

proof fn lemma_pending_step(
    deps: Seq<DependencyRule>,
    done: Seq<bool>,
    d: int,
    now: bool,
    before: bool,
    later: bool,
)
    requires
        0 <= d < deps.len(),
        done.len() == d,
        groups_pending(deps, done, d),
        before ==> exists|e2: int| 0 <= e2 < d && done[e2] && (#[trigger] deps[e2]).slot == deps[d].slot,
        later ==> exists|f: int| d < f < deps.len() && (#[trigger] deps[f]).slot == deps[d].slot,
        now || before || later,
    ensures
        groups_pending(deps, done.push(now), d + 1),
{
    reveal(groups_pending);
    let nd = done.push(now);
    let sd = deps[d].slot;
    // the group of `d` is settled, by `d` itself, an earlier done rule, or a later one
    let settled = (exists|e2: int| 0 <= e2 < d + 1 && nd[e2] && (#[trigger] deps[e2]).slot == sd)
        || (exists|f: int| d + 1 <= f < deps.len() && (#[trigger] deps[f]).slot == sd);
    assert(settled) by {
        if now {
            assert(nd[d] && deps[d].slot == sd);
        } else if before {
            let e2 = choose|e2: int| 0 <= e2 < d && done[e2] && (#[trigger] deps[e2]).slot == sd;
            assert(nd[e2]);
        }
    }
    assert forall|e: int|
        #![trigger deps[e]]
        0 <= e < d + 1 implies (exists|e2: int|
            0 <= e2 < d + 1 && nd[e2] && (#[trigger] deps[e2]).slot == deps[e].slot) || (exists|f: int|
            d + 1 <= f < deps.len() && (#[trigger] deps[f]).slot == deps[e].slot) by {
        if e < d {
            if exists|e2: int| 0 <= e2 < d && done[e2] && (#[trigger] deps[e2]).slot == deps[e].slot {
                let e2 = choose|e2: int|
                    0 <= e2 < d && done[e2] && (#[trigger] deps[e2]).slot == deps[e].slot;
                assert(nd[e2]);
            } else {
                let f = choose|f: int| d <= f < deps.len() && (#[trigger] deps[f]).slot == deps[e].slot;
                if f == d {
                    assert(deps[e].slot == sd);
                }
            }
        }
    }
}

proof fn lemma_pending_start(deps: Seq<DependencyRule>, done: Seq<bool>)
    requires
        done.len() == 0,
    ensures
        groups_pending(deps, done, 0),
{
    reveal(groups_pending);
}

proof fn lemma_pending_done(deps: Seq<DependencyRule>, done: Seq<bool>)
    requires
        done.len() == deps.len(),
        groups_pending(deps, done, deps.len() as int),
    ensures
        forall|e: int|
            #![trigger deps[e]]
            0 <= e < deps.len() ==> exists|e2: int|
                0 <= e2 < deps.len() && done[e2] && (#[trigger] deps[e2]).slot == deps[e].slot,
{
    reveal(groups_pending);
    let n = deps.len() as int;
    assert forall|e: int|
        #![trigger deps[e]]
        0 <= e < deps.len() implies exists|e2: int|
            0 <= e2 < deps.len() && done[e2] && (#[trigger] deps[e2]).slot == deps[e].slot by {
        assert((exists|e2: int| 0 <= e2 < n && done[e2] && (#[trigger] deps[e2]).slot == deps[e].slot)
            || (exists|f: int| n <= f < deps.len() && (#[trigger] deps[f]).slot == deps[e].slot));
        if exists|f: int| n <= f < deps.len() && (#[trigger] deps[f]).slot == deps[e].slot {
            let f = choose|f: int| n <= f < deps.len() && (#[trigger] deps[f]).slot == deps[e].slot;
            assert(false);
        }
    }
}

/// Whether a rule before `d` with this slot is done.
fn slot_done(deps: &Vec<DependencyRule>, done: &Vec<bool>, d: usize, slot: usize) -> (r: bool)
    requires
        d <= deps.len(),
        done.len() == d,
    ensures
        r <==> exists|e2: int| 0 <= e2 < d && done@[e2] && (#[trigger] deps@[e2]).slot == slot,
{
    let mut e: usize = 0;
    while e < d
        invariant
            e <= d <= deps.len(),
            done.len() == d,
            forall|e2: int| 0 <= e2 < e ==> !(done@[e2] && (#[trigger] deps@[e2]).slot == slot),
        decreases d - e,
    {
        if done[e] && deps[e].slot == slot {
            return true;
        }
        e = e + 1;
    }
    false
}

/// Whether a rule after `d` has this slot.
fn slot_later(deps: &Vec<DependencyRule>, d: usize, slot: usize) -> (r: bool)
    requires
        d < deps.len(),
    ensures
        r <==> exists|f: int| d < f < deps.len() && (#[trigger] deps@[f]).slot == slot,
{
    let mut f: usize = d + 1;
    while f < deps.len()
        invariant
            d < f <= deps.len(),
            forall|g: int| d < g < f ==> (#[trigger] deps@[g]).slot != slot,
        decreases deps.len() - f,
    {
        if deps[f].slot == slot {
            return true;
        }
        f = f + 1;
    }
    false
}

fn copy_opt(o: &Option<String>) -> (r: Option<String>)
    ensures
        r == *o,
{
    match o {
        Some(s) => Some(s.clone()),
        None => None,
    }
}

fn copy_strings(v: &Vec<String>) -> (r: Vec<String>)
    ensures
        r@ == v@,
{
    let mut r: Vec<String> = Vec::new();
    let mut i: usize = 0;
    while i < v.len()
        invariant
            i <= v.len(),
            r@ == v@.take(i as int),
        decreases v.len() - i,
    {
        r.push(v[i].clone());
        assert(r@ =~= v@.take(i + 1));
        i = i + 1;
    }
    assert(v@.take(v.len() as int) =~= v@);
    r
}

fn copy_rule(r: &DependencyRule) -> (c: DependencyRule)
    ensures
        c == *r,
{
    DependencyRule {
        name: r.name.clone(),
        version_constraint: copy_opt(&r.version_constraint),
        arch: copy_opt(&r.arch),
        slot: r.slot,
    }
}

fn copy_rules(v: &Vec<DependencyRule>) -> (r: Vec<DependencyRule>)
    ensures
        r@ == v@,
{
    let mut r: Vec<DependencyRule> = Vec::new();
    let mut i: usize = 0;
    while i < v.len()
        invariant
            i <= v.len(),
            r@ == v@.take(i as int),
        decreases v.len() - i,
    {
        r.push(copy_rule(&v[i]));
        assert(r@ =~= v@.take(i + 1));
        i = i + 1;
    }
    assert(v@.take(v.len() as int) =~= v@);
    r
}

/// A field-by-field copy of a package.
pub fn copy_info(p: &PackageInfo) -> (r: PackageInfo)
    ensures
        same_info(r, *p),
{
    PackageInfo {
        name: p.name.clone(),
        version: p.version.clone(),
        arch: p.arch.clone(),
        provides: copy_strings(&p.provides),
        depends: copy_rules(&p.depends),
        conflicts: copy_strings(&p.conflicts),
        replaces: copy_strings(&p.replaces),
    }
}

/// The alternatives of the dependencies `ds[..n]`, each with the index of
/// its dependency as its group.
pub open spec fn all_alts(ds: Seq<Seq<char>>, n: int) -> Seq<((Seq<char>, Option<Seq<char>>), int)>
    decreases n,
{
    if n <= 0 || n > ds.len() {
        seq![]
    } else {
        all_alts(ds, n - 1) + alternatives_of(ds[n - 1]).map_values(
            |x: (Seq<char>, Option<Seq<char>>)| (x, n - 1),
        )
    }
}

/// The names of the alternatives of the entries `cs[..n]`.
pub open spec fn alt_names(cs: Seq<Seq<char>>, n: int) -> Seq<Seq<char>>
    decreases n,
{
    if n <= 0 || n > cs.len() {
        seq![]
    } else {
        alt_names(cs, n - 1) + alternatives_of(cs[n - 1]).map_values(
            |x: (Seq<char>, Option<Seq<char>>)| x.0,
        )
    }
}

impl DependencySolver {
    /// The solver's view of a manifest: each dependency string becomes its
    /// alternatives, grouped by the dependency's index; conflicts keep their
    /// names.
    pub fn manifest_to_package_info(manifest: &PackageManifest) -> (r: Result<PackageInfo, PkgError>)
        ensures
            r matches Ok(p) && {
                &&& p.name == manifest.name
                &&& p.version == manifest.version
                &&& p.arch == manifest.arch
                &&& p.provides@ == manifest.provides@
                &&& p.replaces@ == manifest.replaces@
                &&& p.depends@.len() == all_alts(views(manifest.depends@), manifest.depends@.len() as int).len()
                &&& forall|j: int|
                    0 <= j < p.depends@.len() ==> {
                        let a = all_alts(views(manifest.depends@), manifest.depends@.len() as int)[j];
                        rule_is(#[trigger] p.depends@[j], a.0, a.1 as usize)
                    }
                &&& views(p.conflicts@) == alt_names(views(manifest.conflicts@), manifest.conflicts@.len() as int)
            },
    {
        let ghost ds = views(manifest.depends@);
        let mut depends: Vec<DependencyRule> = Vec::new();
        let mut i: usize = 0;
        while i < manifest.depends.len()
            invariant
                i <= manifest.depends@.len(),
                ds == views(manifest.depends@),
                depends@.len() == all_alts(ds, i as int).len(),
                forall|j: int|
                    0 <= j < depends@.len() ==> {
                        let a = all_alts(ds, i as int)[j];
                        rule_is(#[trigger] depends@[j], a.0, a.1 as usize)
                    },
                forall|j: int| 0 <= j < all_alts(ds, i as int).len() ==> 0 <= (#[trigger] all_alts(ds, i as int)[j]).1 < i,
            decreases manifest.depends.len() - i,
        {
            let rules = parse_rules_in_slot(manifest.depends[i].as_str(), i);
            let ghost before = depends@;
            let ghost xs = alternatives_of(ds[i as int]);
            assert(ds[i as int] == manifest.depends@[i as int]@);
            let mut k: usize = 0;
            while k < rules.len()
                invariant
                    k <= rules@.len(),
                    rules@.len() == xs.len(),
                    forall|j: int| 0 <= j < rules@.len() ==> rule_is(#[trigger] rules@[j], xs[j], i),
                    depends@.len() == before.len() + k,
                    forall|j: int| 0 <= j < before.len() ==> depends@[j] == before[j],
                    forall|j: int| 0 <= j < k ==> depends@[before.len() + j] == rules@[j],
                decreases rules.len() - k,
            {
                depends.push(copy_rule(&rules[k]));
                k = k + 1;
            }
            proof {
                let mapped = xs.map_values(|x: (Seq<char>, Option<Seq<char>>)| (x, i as int));
                assert(all_alts(ds, i + 1) == all_alts(ds, i as int) + mapped);
                assert forall|j: int| 0 <= j < depends@.len() implies {
                    let a = all_alts(ds, i + 1)[j];
                    rule_is(#[trigger] depends@[j], a.0, a.1 as usize)
                } by {
                    if j >= before.len() {
                        assert(depends@[j] == rules@[j - before.len()]);
                        assert(all_alts(ds, i + 1)[j] == mapped[j - before.len()]);
                    } else {
                        assert(all_alts(ds, i + 1)[j] == all_alts(ds, i as int)[j]);
                        assert(depends@[j] == before[j]);
                    }
                }
            }
            i = i + 1;
        }
        let ghost cs = views(manifest.conflicts@);
        let mut conflicts: Vec<String> = Vec::new();
        let mut i: usize = 0;
        while i < manifest.conflicts.len()
            invariant
                i <= manifest.conflicts@.len(),
                cs == views(manifest.conflicts@),
                views(conflicts@) == alt_names(cs, i as int),
            decreases manifest.conflicts.len() - i,
        {
            let rules = parse_rules_in_slot(manifest.conflicts[i].as_str(), 0);
            let ghost before = conflicts@;
            let ghost xs = alternatives_of(cs[i as int]);
            assert(cs[i as int] == manifest.conflicts@[i as int]@);
            let mut k: usize = 0;
            while k < rules.len()
                invariant
                    k <= rules@.len(),
                    rules@.len() == xs.len(),
                    forall|j: int| 0 <= j < rules@.len() ==> rule_is(#[trigger] rules@[j], xs[j], 0),
                    views(conflicts@) == views(before) + xs.take(k as int).map_values(
                        |x: (Seq<char>, Option<Seq<char>>)| x.0,
                    ),
                decreases rules.len() - k,
            {
                let ghost c0 = conflicts@;
                conflicts.push(rules[k].name.clone());
                assert(rule_is(rules@[k as int], xs[k as int], 0));
                assert(views(conflicts@) =~= views(c0).push(rules@[k as int].name@));
                assert(xs.take(k + 1).map_values(|x: (Seq<char>, Option<Seq<char>>)| x.0) =~= xs.take(
                    k as int,
                ).map_values(|x: (Seq<char>, Option<Seq<char>>)| x.0).push(xs[k as int].0));
                assert(views(conflicts@) =~= views(before) + xs.take(k + 1).map_values(
                    |x: (Seq<char>, Option<Seq<char>>)| x.0,
                ));
                k = k + 1;
            }
            assert(xs.take(xs.len() as int) =~= xs);
            i = i + 1;
        }
        assert(ds == views(manifest.depends@));
        Ok(PackageInfo {
            name: manifest.name.clone(),
            version: manifest.version.clone(),
            arch: manifest.arch.clone(),
            provides: copy_strings(&manifest.provides),
            depends,
            conflicts,
            replaces: copy_strings(&manifest.replaces),
        })
    }
}

/// The entries added after `t0` are of packages not visited in `v0`.
pub open spec fn new_entries_unvisited(t0: Seq<usize>, t1: Seq<usize>, v0: Seq<bool>) -> bool {
    forall|m: int| t0.len() <= m < t1.len() ==> !v0[#[trigger] t1[m] as int]
}

/// Whether `v` holds a string equal to `n`.
pub fn contains_name(v: &Vec<String>, n: &String) -> (r: bool)
    ensures
        r == has_name(v@, n@),
{
    let mut k: usize = 0;
    while k < v.len()
        invariant
            k <= v.len(),
            forall|j: int| 0 <= j < k ==> (#[trigger] v@[j])@ != n@,
        decreases v.len() - k,
    {
        if v[k] == *n {
            return true;
        }
        k = k + 1;
    }
    false
}

fn pkg_provides(p: &PackageInfo, n: &String) -> (r: bool)
    ensures
        r == provides_name(*p, n@),
{
    p.name == *n || contains_name(&p.provides, n)
}

fn arch_fits(a: &String, want: &Option<String>) -> (r: bool)
    ensures
        r == arch_ok(a@, *want),
{
    match want {
        None => true,
        Some(w) => {
            let ac = to_chars(a.as_str());
            proof {
                reveal_strlit("all");
                assert("all"@ =~= seq!['a', 'l', 'l']);
            }
            *a == *w || eq_str(&ac, "all")
        },
    }
}

fn constraint_fits(v: &String, c: &Option<String>) -> (r: bool)
    ensures
        r == constraint_ok(v@, *c),
{
    match c {
        Some(c) => version_matches(v.as_str(), c.as_str()),
        None => true,
    }
}

fn starts_with_chars(s: &Vec<char>, p: &Vec<char>) -> (r: bool)
    ensures
        r == starts_with(s@, p@),
{
    if p.len() > s.len() {
        return false;
    }
    let mut i: usize = 0;
    while i < p.len()
        invariant
            i <= p.len() <= s.len(),
            forall|k: int| 0 <= k < i ==> s@[k] == p@[k],
        decreases p.len() - i,
    {
        if s[i] != p[i] {
            assert(s@.take(p.len() as int)[i as int] != p@[i as int]);
            return false;
        }
        i = i + 1;
    }
    assert(s@.take(p.len() as int) =~= p@);
    true
}

fn alnum(c: char) -> (r: bool)
    ensures
        r == crate::text::is_ascii_alnum(c),
{
    digit(c) || ascii_alpha(c)
}

/// Length of `base_keep_five(n)`.
fn base_keep_five_len(n: &Vec<char>) -> (r: usize)
    ensures
        r <= n.len(),
        n@.take(r as int) == base_keep_five(n@),
{
    let mut j = n.len();
    assert(n@.take(j as int) =~= n@);
    while j > 0 && alnum(n[j - 1]) && n[j - 1] != '5'
        invariant
            j <= n.len(),
            base_keep_five(n@) == base_keep_five(n@.take(j as int)),
        decreases j,
    {
        assert(n@.take(j as int).drop_last() =~= n@.take(j - 1));
        j = j - 1;
    }
    j
}

/// Length of `base_alpha(n)`.
fn base_alpha_len(n: &Vec<char>) -> (r: usize)
    ensures
        r <= n.len(),
        n@.take(r as int) == base_alpha(n@),
{
    let mut j = n.len();
    assert(n@.take(j as int) =~= n@);
    while j > 0 && ascii_alpha(n[j - 1])
        invariant
            j <= n.len(),
            base_alpha(n@) == base_alpha(n@.take(j as int)),
        decreases j,
    {
        assert(n@.take(j as int).drop_last() =~= n@.take(j - 1));
        j = j - 1;
    }
    j
}

/// Length of `base_bounded(n)`.
fn base_bounded_len(n: &Vec<char>) -> (r: usize)
    ensures
        r <= n.len(),
        n@.take(r as int) == base_bounded(n@),
{
    let mut j = n.len();
    assert(n@.take(j as int) =~= n@);
    while j > 5 && alnum(n[j - 1])
        invariant
            j <= n.len(),
            base_bounded(n@) == base_bounded(n@.take(j as int)),
        decreases j,
    {
        assert(n@.take(j as int).drop_last() =~= n@.take(j - 1));
        j = j - 1;
    }
    j
}

} // verus!
