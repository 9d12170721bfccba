//! The upgrade flow: which installed packages have a newer version
//! available.

use std::cmp::Ordering;
use vstd::prelude::*;
use crate::package::PackageManifest;
use crate::version::{compare_versions, lemma_version_order, version_cmp};

verus! {

/// Entry `k` of `av` is the latest version of `name`: no entry of that
/// name is greater, and later entries of that name are smaller.
pub open spec fn latest(av: Seq<PackageManifest>, name: Seq<char>, k: int) -> bool {
    &&& 0 <= k < av.len()
    &&& av[k].name@ == name
    &&& forall|j: int|
        0 <= j < av.len() && (#[trigger] av[j]).name@ == name ==> version_cmp(av[j].version@, av[k].version@)
            != Ordering::Greater
    &&& forall|j: int|
        k < j < av.len() && (#[trigger] av[j]).name@ == name ==> version_cmp(av[j].version@, av[k].version@)
            == Ordering::Less
}

/// Installed entry `i` is the first installed entry of its name.
pub open spec fn first_of_name(inst: Seq<PackageManifest>, i: int) -> bool {
    0 <= i < inst.len() && forall|j: int| 0 <= j < i ==> (#[trigger] inst[j]).name@ != inst[i].name@
}

/// Entry `k` of `av` upgrades installed entry `i`: it is the latest version
/// of that name and greater than the installed one.
pub open spec fn upgrades(inst: Seq<PackageManifest>, av: Seq<PackageManifest>, i: int, k: int) -> bool {
    latest(av, inst[i].name@, k) && version_cmp(av[k].version@, inst[i].version@) == Ordering::Greater
}

/// Entry `k` of `av` upgrades some first installed entry of its name.
pub open spec fn upgrade_of_some(inst: Seq<PackageManifest>, av: Seq<PackageManifest>, k: int) -> bool {
    exists|i: int| first_of_name(inst, i) && upgrades(inst, av, i, k)
}

/// The latest available version of `name`, if any.
pub fn latest_index(av: &Vec<PackageManifest>, name: &String) -> (r: Option<usize>)
    ensures
        r is None <==> forall|j: int| 0 <= j < av@.len() ==> (#[trigger] av@[j]).name@ != name@,
        r matches Some(k) ==> latest(av@, name@, k as int),
{
    let mut best: Option<usize> = None;
    let mut j: usize = 0;
    while j < av.len()
        invariant
            j <= av@.len(),
            best is None <==> forall|i: int| 0 <= i < j ==> (#[trigger] av@[i]).name@ != name@,
            best matches Some(b) ==> b < j && av@[b as int].name@ == name@ && (forall|i: int|
                0 <= i < j && (#[trigger] av@[i]).name@ == name@ ==> version_cmp(
                    av@[i].version@,
                    av@[b as int].version@,
                ) != Ordering::Greater) && (forall|i: int|
                b < i < j && (#[trigger] av@[i]).name@ == name@ ==> version_cmp(
                    av@[i].version@,
                    av@[b as int].version@,
                ) == Ordering::Less),
        decreases av.len() - j,
    {
        if av[j].name == *name {
            match best {
                None => {
                    proof {
                        lemma_version_order(av@[j as int].version@, av@[j as int].version@, av@[j as int].version@);
                    }
                    best = Some(j);
                },
                Some(b) => {
                    let o = compare_versions(av[j].version.as_str(), av[b].version.as_str());
                    if !matches!(o, Ordering::Less) {
                        proof {
                            assert forall|i: int|
                                0 <= i < j + 1 && (#[trigger] av@[i]).name@ == name@ implies version_cmp(
                                av@[i].version@,
                                av@[j as int].version@,
                            ) != Ordering::Greater by {
                                lemma_version_order(av@[i].version@, av@[b as int].version@, av@[j as int].version@);
                                lemma_version_order(av@[j as int].version@, av@[b as int].version@, av@[i].version@);
                            }
                        }
                        best = Some(j);
                    }
                },
            }
        }
        j = j + 1;
    }
    best
}

fn is_first_of_name(inst: &Vec<PackageManifest>, i: usize) -> (r: bool)
    requires
        i < inst@.len(),
    ensures
        r == first_of_name(inst@, i as int),
{
    let mut j: usize = 0;
    while j < i
        invariant
            j <= i < inst@.len(),
            forall|x: int| 0 <= x < j ==> (#[trigger] inst@[x]).name@ != inst@[i as int].name@,
        decreases i - j,
    {
        if inst[j].name == inst[i].name {
            assert(inst@[j as int].name@ == inst@[i as int].name@);
            return false;
        }
        j = j + 1;
    }
    true
}

/// The available packages that upgrade installed ones: for each installed
/// name, once, the latest available version when it is newer than the
/// installed version of the first installed entry of that name.
#[verifier::loop_isolation(false)]
pub fn upgrade_candidates(installed: &Vec<PackageManifest>, available: &Vec<PackageManifest>) -> (r: Vec<usize>)
    ensures
        forall|a: int| 0 <= a < r@.len() ==> upgrade_of_some(installed@, available@, #[trigger] r@[a] as int),
        forall|i: int, k: int|
            first_of_name(installed@, i) && upgrades(installed@, available@, i, k) ==> exists|a: int|
                0 <= a < r@.len() && r@[a] == k,
        forall|a: int, b: int|
            0 <= a < b < r@.len() ==> available@[#[trigger] r@[a] as int].name@ != available@[#[trigger] r@[b] as int].name@,
{
    let mut r: Vec<usize> = Vec::new();
    let mut i: usize = 0;
    while i < installed.len()
        invariant
            i <= installed@.len(),
            forall|a: int|
                0 <= a < r@.len() ==> exists|i2: int|
                    0 <= i2 < i && first_of_name(installed@, i2) && upgrades(
                        installed@,
                        available@,
                        i2,
                        #[trigger] r@[a] as int,
                    ),
            forall|i2: int, k: int|
                0 <= i2 < i && first_of_name(installed@, i2) && upgrades(installed@, available@, i2, k)
                    ==> exists|a: int| 0 <= a < r@.len() && r@[a] == k,
            forall|a: int, b: int|
                0 <= a < b < r@.len() ==> available@[#[trigger] r@[a] as int].name@
                    != available@[#[trigger] r@[b] as int].name@,
        decreases installed.len() - i,
    {
        let m = &installed[i];
        let first = is_first_of_name(installed, i);
        if first {
            match latest_index(available, &m.name) {
                Some(k) => {
                    let o = compare_versions(available[k].version.as_str(), m.version.as_str());
                    if matches!(o, Ordering::Greater) {
                        let ghost before = r@;
                        proof {
                            assert forall|a: int| 0 <= a < before.len() implies available@[before[a] as int].name@
                                != available@[k as int].name@ by {
                                let i2 = choose|i2: int|
                                    0 <= i2 < i && first_of_name(installed@, i2) && upgrades(
                                        installed@,
                                        available@,
                                        i2,
                                        #[trigger] before[a] as int,
                                    );
                                assert(installed@[i2].name@ != installed@[i as int].name@);
                            }
                        }
                        r.push(k);
                        proof {
                            assert forall|a: int|
                                0 <= a < r@.len() implies exists|i2: int|
                                    0 <= i2 < i + 1 && first_of_name(installed@, i2) && upgrades(
                                        installed@,
                                        available@,
                                        i2,
                                        #[trigger] r@[a] as int,
                                    ) by {
                                if a < before.len() {
                                    assert(r@[a] == before[a]);
                                } else {
                                    assert(upgrades(installed@, available@, i as int, r@[a] as int));
                                }
                            }
                            assert forall|i2: int, k2: int|
                                0 <= i2 < i + 1 && first_of_name(installed@, i2) && upgrades(
                                    installed@,
                                    available@,
                                    i2,
                                    k2,
                                ) implies exists|a: int| 0 <= a < r@.len() && r@[a] == k2 by {
                                if i2 < i {
                                    let a0 = choose|a: int| 0 <= a < before.len() && before[a] == k2;
                                    assert(r@[a0] == k2);
                                } else {
                                    lemma_latest_unique(available@, installed@[i as int].name@, k as int, k2);
                                    assert(r@[before.len() as int] == k2);
                                }
                            }
                        }
                    } else {
                        proof {
                            assert forall|k2: int| !upgrades(installed@, available@, i as int, k2) by {
                                if latest(available@, installed@[i as int].name@, k2) {
                                    lemma_latest_unique(available@, installed@[i as int].name@, k as int, k2);
                                }
                            }
                        }
                    }
                },
                None => {
                    proof {
                        assert forall|k2: int| !upgrades(installed@, available@, i as int, k2) by {
                            if 0 <= k2 < available@.len() {
                                assert(available@[k2].name@ != installed@[i as int].name@);
                            }
                        }
                    }
                },
            }
        } else {
            proof {
                assert(!first_of_name(installed@, i as int));
            }
        }
        i = i + 1;
    }
    assert forall|a: int| 0 <= a < r@.len() implies upgrade_of_some(installed@, available@, #[trigger] r@[a] as int) by {
        let i2 = choose|i2: int|
            0 <= i2 < installed@.len() && first_of_name(installed@, i2) && upgrades(
                installed@,
                available@,
                i2,
                #[trigger] r@[a] as int,
            );
    }
    r
}

proof fn lemma_latest_unique(av: Seq<PackageManifest>, name: Seq<char>, k1: int, k2: int)
    requires
        latest(av, name, k1),
        latest(av, name, k2),
    ensures
        k1 == k2,
{
    if k1 < k2 {
        lemma_version_order(av[k2].version@, av[k1].version@, av[k2].version@);
    } else if k2 < k1 {
        lemma_version_order(av[k1].version@, av[k2].version@, av[k1].version@);
    }
}

} // verus!
