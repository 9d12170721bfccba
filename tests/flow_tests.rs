use apt_ng::cache::{fetch_url, index_store};
use apt_ng::error::PkgError;
use apt_ng::installer::{install_step, removal_check, InstallAction, InstallPhase, PhaseOutcome};
use apt_ng::package::PackageManifest;
use apt_ng::upgrade::upgrade_candidates;

fn m(name: &str, version: &str, deps: &[&str]) -> PackageManifest {
    PackageManifest {
        name: name.to_string(),
        version: version.to_string(),
        arch: "amd64".to_string(),
        provides: vec![],
        depends: deps.iter().map(|d| d.to_string()).collect(),
        conflicts: vec![],
        replaces: vec![],
        files: vec![],
        size: 0,
        checksum: String::new(),
        timestamp: 0,
        filename: None,
        repo_id: None,
    }
}

#[test]
fn upgrade_picks_latest_newer_versions_once() {
    let installed = vec![m("a", "1.0", &[]), m("b", "2.0", &[]), m("a", "0.5", &[]), m("c", "1", &[])];
    let available = vec![m("a", "1.1", &[]), m("a", "1.5", &[]), m("b", "2.0", &[]), m("a", "1.2", &[]), m("d", "9", &[])];
    assert_eq!(upgrade_candidates(&installed, &available), vec![1]);
    assert!(upgrade_candidates(&vec![], &available).is_empty());
}

#[test]
fn install_phases_roll_back_after_copy_began() {
    assert_eq!(install_step(InstallPhase::Extract, PhaseOutcome::Succeeded), (InstallPhase::VerifyChecksum, InstallAction::RunNext));
    assert_eq!(install_step(InstallPhase::PreHook, PhaseOutcome::Failed), (InstallPhase::Aborted, InstallAction::Abort));
    assert_eq!(install_step(InstallPhase::Copy, PhaseOutcome::Failed), (InstallPhase::RolledBack, InstallAction::Rollback));
    assert_eq!(install_step(InstallPhase::PostHook, PhaseOutcome::Failed), (InstallPhase::RolledBack, InstallAction::Rollback));
    assert_eq!(install_step(InstallPhase::Ledger, PhaseOutcome::Failed), (InstallPhase::RolledBack, InstallAction::Rollback));
    assert_eq!(install_step(InstallPhase::Ledger, PhaseOutcome::Succeeded), (InstallPhase::Done, InstallAction::Finish));
}

#[test]
fn removal_needs_an_installed_package_without_dependents() {
    let installed = vec![m("lib", "1", &[]), m("app", "1", &["lib (>= 1)"]), m("tool", "1", &["lib"])];
    assert!(matches!(removal_check(&installed, &"ghost".to_string()), Err(PkgError::PackageNotFound(_))));
    assert!(matches!(removal_check(&installed, &"lib".to_string()), Err(PkgError::Conflict(_, _))));
    assert!(removal_check(&installed, &"app".to_string()).is_ok());
}

#[test]
fn storing_same_content_twice_keeps_one_entry() {
    let mut idx: Vec<(String, String)> = Vec::new();
    assert_eq!(index_store(&mut idx, &"h1".to_string(), &"/c/a_1_all.deb".to_string()), None);
    assert_eq!(
        index_store(&mut idx, &"h1".to_string(), &"/c/b_1_all.deb".to_string()),
        Some("/c/a_1_all.deb".to_string())
    );
    assert_eq!(idx.len(), 1);
    assert_eq!(index_store(&mut idx, &"h2".to_string(), &"/c/c_1_all.deb".to_string()), None);
    assert_eq!(idx.len(), 2);
}

#[test]
fn fetch_url_joins_repository_and_filename() {
    assert_eq!(
        fetch_url("http://deb.debian.org/debian", "pool/main/m/micro/micro_2.0_amd64.deb"),
        "http://deb.debian.org/debian/pool/main/m/micro/micro_2.0_amd64.deb"
    );
}
