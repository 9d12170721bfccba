use apt_ng::apt_parser::parse_packages_file;
use apt_ng::error::PkgError;
use apt_ng::solver::{
    DependencyRule, DependencySolver, PackageInfo, PackageSpec, SystemPackage,
};
use apt_ng::version::{compare_versions, version_matches};
use std::cmp::Ordering;

fn info(name: &str, version: &str, depends: Vec<DependencyRule>) -> PackageInfo {
    PackageInfo {
        name: name.to_string(),
        version: version.to_string(),
        arch: "amd64".to_string(),
        provides: vec![],
        depends,
        conflicts: vec![],
        replaces: vec![],
    }
}

fn rule(name: &str, constraint: Option<&str>, slot: usize) -> DependencyRule {
    DependencyRule {
        name: name.to_string(),
        version_constraint: constraint.map(|c| c.to_string()),
        arch: None,
        slot,
    }
}

fn spec(name: &str, version: Option<&str>) -> PackageSpec {
    PackageSpec { name: name.to_string(), version: version.map(|v| v.to_string()), arch: None }
}

#[test]
fn test_solver_basic() {
    let mut solver = DependencySolver::new();

    let pkg = PackageInfo {
        name: "test-package".to_string(),
        version: "1.0.0".to_string(),
        arch: "amd64".to_string(),
        provides: vec![],
        depends: vec![],
        conflicts: vec![],
        replaces: vec![],
    };

    solver.add_package(pkg);

    let solution = solver
        .solve(&[PackageSpec { name: "test-package".to_string(), version: None, arch: None }])
        .unwrap();

    assert_eq!(solution.to_install.len(), 1);
}

#[test]
fn dependency_chain_from_parsed_fixture() {
    let content = "Package: test-package\nVersion: 1.0.0\nArchitecture: amd64\nDepends: libc6 (>= 2.0)\n\nPackage: another-package\nVersion: 2.0.0\nArchitecture: all\nDepends: test-package\n\nPackage: simple-package\nVersion: 1.5.0\nArchitecture: amd64\n";
    let manifests = parse_packages_file(content).unwrap();
    let mut solver = DependencySolver::new();
    for m in &manifests {
        solver.add_package(DependencySolver::manifest_to_package_info(m).unwrap());
    }
    solver.set_system_packages(
        vec![SystemPackage { name: "libc6".to_string(), version: Some("2.36".to_string()) }],
        vec![],
    );
    let solution = solver.solve(&[spec("another-package", None)]).unwrap();
    let names: Vec<(&str, &str)> =
        solution.to_install.iter().map(|p| (p.name.as_str(), p.version.as_str())).collect();
    assert_eq!(names, vec![("test-package", "1.0.0"), ("another-package", "2.0.0")]);
}

#[test]
fn constraint_selects_newest_matching_version() {
    let mut solver = DependencySolver::new();
    solver.add_package(info("libc", "2.0", vec![]));
    solver.add_package(info("libc", "2.36", vec![]));
    let solution = solver.solve(&[spec("libc", Some(">= 2.31"))]).unwrap();
    assert_eq!(solution.to_install.len(), 1);
    assert_eq!(solution.to_install[0].version, "2.36");
    assert!(matches!(
        solver.solve(&[spec("libc", Some(">= 3"))]),
        Err(PkgError::NoMatchingVersion(_))
    ));
}

#[test]
fn alternatives_pick_the_available_one() {
    let mut solver = DependencySolver::new();
    solver.add_package(info("libssl3", "3.0.2", vec![]));
    solver.add_package(info("app", "1.0", vec![rule("libssl1.1", None, 0), rule("libssl3", None, 0)]));
    let solution = solver.solve(&[spec("app", None)]).unwrap();
    let names: Vec<&str> = solution.to_install.iter().map(|p| p.name.as_str()).collect();
    assert_eq!(names, vec!["libssl3", "app"]);
}

#[test]
fn missing_dependency_reports_its_name() {
    let mut solver = DependencySolver::new();
    solver.add_package(info("app", "1.0", vec![rule("nothing-here", None, 0)]));
    match solver.solve(&[spec("app", None)]) {
        Err(PkgError::MissingDependency { name, .. }) => assert_eq!(name, "nothing-here"),
        other => panic!("unexpected {:?}", other),
    }
}

#[test]
fn unknown_package_is_not_found() {
    let solver = DependencySolver::new();
    assert!(matches!(solver.solve(&[spec("ghost", None)]), Err(PkgError::PackageNotFound(_))));
}

#[test]
fn conflicting_packages_abort() {
    let mut solver = DependencySolver::new();
    let mut a = info("a", "1", vec![rule("b", None, 0)]);
    a.conflicts = vec!["b".to_string()];
    solver.add_package(a);
    solver.add_package(info("b", "1", vec![]));
    assert!(matches!(solver.solve(&[spec("a", None)]), Err(PkgError::Conflict(_, _))));
}

#[test]
fn installed_and_provided_dependencies_are_skipped() {
    let mut solver = DependencySolver::new();
    let mut mta = info("postfix", "3.7", vec![]);
    mta.provides = vec!["mail-transport-agent".to_string()];
    solver.add_package(mta);
    solver.add_package(info("mailer", "1", vec![rule("mail-transport-agent", None, 0)]));
    solver.set_installed_packages(vec!["postfix".to_string()]);
    let solution = solver.solve(&[spec("mailer", None)]).unwrap();
    let names: Vec<&str> = solution.to_install.iter().map(|p| p.name.as_str()).collect();
    assert_eq!(names, vec!["mailer"]);
}

#[test]
fn provider_is_chosen_when_no_package_has_the_name() {
    let mut solver = DependencySolver::new();
    let mut mta = info("exim4", "4.96", vec![]);
    mta.provides = vec!["mail-transport-agent".to_string()];
    solver.add_package(mta);
    solver.add_package(info("mailer", "1", vec![rule("mail-transport-agent", None, 0)]));
    let solution = solver.solve(&[spec("mailer", None)]).unwrap();
    let names: Vec<&str> = solution.to_install.iter().map(|p| p.name.as_str()).collect();
    assert_eq!(names, vec!["exim4", "mailer"]);
}

#[test]
fn transitional_name_backs_off_to_a_prefix_match() {
    let mut solver = DependencySolver::new();
    solver.add_package(info("libqt5core5a", "5.15", vec![]));
    solver.add_package(info("viewer", "1", vec![rule("libqt5core5t64", None, 0)]));
    let solution = solver.solve(&[spec("viewer", None)]).unwrap();
    let names: Vec<&str> = solution.to_install.iter().map(|p| p.name.as_str()).collect();
    assert_eq!(names, vec!["libqt5core5a", "viewer"]);
}

#[test]
fn dependency_cycle_terminates() {
    let mut solver = DependencySolver::new();
    solver.add_package(info("a", "1", vec![rule("b", None, 0)]));
    solver.add_package(info("b", "1", vec![rule("a", None, 0)]));
    let solution = solver.solve(&[spec("a", None)]).unwrap();
    assert_eq!(solution.to_install.len(), 2);
}

#[test]
fn parallel_mode_gives_the_same_plan() {
    let mut solver = DependencySolver::new();
    solver.add_package(info("base", "1", vec![]));
    solver.add_package(info("top", "1", vec![rule("base", None, 0)]));
    let a = solver.solve_parallel(&[spec("top", None)], true).unwrap();
    let b = solver.solve_parallel(&[spec("top", None)], false).unwrap();
    let na: Vec<&str> = a.to_install.iter().map(|p| p.name.as_str()).collect();
    let nb: Vec<&str> = b.to_install.iter().map(|p| p.name.as_str()).collect();
    assert_eq!(na, nb);
    assert_eq!(na, vec!["base", "top"]);
}

#[test]
fn manifest_rules_share_slots_per_dependency() {
    let content = "Package: app\nVersion: 1\nDepends: a, b\n";
    let m = &parse_packages_file(content).unwrap()[0];
    let p = DependencySolver::manifest_to_package_info(m).unwrap();
    assert_eq!(p.depends.len(), 2);
    assert_eq!(p.depends[0].slot, 0);
    assert_eq!(p.depends[1].slot, 1);
}

#[test]
fn version_order_examples() {
    assert_eq!(compare_versions("1.0", "1.0"), Ordering::Equal);
    assert_eq!(compare_versions("2.36", "2.0"), Ordering::Greater);
    assert_eq!(compare_versions("1.9", "1.10"), Ordering::Less);
    assert_eq!(compare_versions("1:0.1", "9.9"), Ordering::Greater);
    assert_eq!(compare_versions("1.0-2", "1.0-10"), Ordering::Less);
    assert_eq!(compare_versions("1.0.1", "1.0"), Ordering::Greater);
    assert_eq!(compare_versions("007", "7"), Ordering::Equal);
    assert_eq!(compare_versions("99999999999999999999999", "1"), Ordering::Greater);
}

#[test]
fn constraint_evaluation_examples() {
    assert!(version_matches("2.36", ">= 2.31"));
    assert!(!version_matches("2.0", ">= 2.31"));
    assert!(version_matches("1.0", "<< 2"));
    assert!(version_matches("3", ">> 2"));
    assert!(version_matches("2", "<= 2"));
    assert!(version_matches("2.0", "= 2.0"));
    assert!(!version_matches("2", "= 2.0"));
    assert!(version_matches("2", "2"));
    assert!(!version_matches("2", "> 2"));
    assert!(version_matches("1", "< 2"));
}

#[test]
fn at_least_agrees_with_comparison() {
    let versions = ["1.0", "1.0-1", "2:0", "0.9.9", "1.10", "1.2.3-4"];
    for v in versions.iter() {
        for u in versions.iter() {
            let c = format!(">= {}", u);
            assert_eq!(version_matches(v, &c), compare_versions(v, u) != Ordering::Less);
        }
    }
}

#[test]
fn solver_exposes_version_order() {
    assert_eq!(DependencySolver::compare_versions("1:1.0", "2.0"), Ordering::Greater);
    assert!(DependencySolver::version_matches("2.36", ">= 2.31"));
    assert!(!DependencySolver::version_matches("2.30", ">= 2.31"));
}

#[test]
fn alternatives_from_a_manifest_term() {
    let content = "Package: app\nVersion: 1.0\nDepends: libssl1.1 | libssl3\n\nPackage: libssl3\nVersion: 1.0\n";
    let mut solver = DependencySolver::new();
    for m in parse_packages_file(content).unwrap() {
        solver.add_package(DependencySolver::manifest_to_package_info(&m).unwrap());
    }
    let solution = solver.solve(&[spec("app", None)]).unwrap();
    let names: Vec<&str> = solution.to_install.iter().map(|p| p.name.as_str()).collect();
    assert_eq!(names, vec!["libssl3", "app"]);
}

#[test]
fn installed_dependency_adds_nothing() {
    let mut solver = DependencySolver::new();
    solver.add_package(info("d", "1", vec![]));
    solver.add_package(info("p", "1", vec![rule("d", None, 0)]));
    solver.set_installed_packages(vec!["d".to_string()]);
    let solution = solver.solve(&[spec("p", None)]).unwrap();
    let names: Vec<&str> = solution.to_install.iter().map(|p| p.name.as_str()).collect();
    assert_eq!(names, vec!["p"]);
}
