use apt_ng::archive::{
    content_matches_checksum, frame_apx, parse_apx_layout, sha256_hex, verify_signature, ApxBuilder,
};
use apt_ng::security::{SecurityAudit, SecurityCheckResult, Severity};
use apt_ng::downloader::{chunk_ranges, parse_range, plan_fetch, FetchPlan, CHUNK_SIZE};
use apt_ng::installer::removal_blockers;
use apt_ng::package::PackageManifest;
use apt_ng::cache::{old_versions_to_remove, over_limit_to_remove, package_name_of_file, Cache};
use apt_ng::delta::DeltaMetadata;
use apt_ng::error::PkgError;
use apt_ng::installer::{
    hook_arguments, hook_script_name, integrity_decision, plan_file_copy, CopyAction, DestKind,
    HookType, InstallationTransaction, IntegrityDecision, RollbackStep,
};
use ed25519_dalek::{Signer, SigningKey};

fn apx(meta: &[u8], payload: &[u8]) -> Vec<u8> {
    let mut b = b"APX\x01".to_vec();
    b.extend_from_slice(&(meta.len() as u32).to_le_bytes());
    b.extend_from_slice(meta);
    b.extend_from_slice(&(payload.len() as u32).to_le_bytes());
    b.extend_from_slice(payload);
    b
}

#[test]
fn sha256_of_known_input() {
    assert_eq!(
        sha256_hex(b"test"),
        "9f86d081884c7d659a2feaa0c55ad015a3bf4f1b2b0b822cd15d6c15b0f00a08"
    );
    assert_eq!(sha256_hex(b"test").len(), 64);
    assert!(content_matches_checksum(
        b"test",
        "9f86d081884c7d659a2feaa0c55ad015a3bf4f1b2b0b822cd15d6c15b0f00a08"
    ));
    assert!(!content_matches_checksum(b"test", "00"));
}

#[test]
fn apx_layout_is_located() {
    let b = apx(b"meta", b"payload!");
    let l = parse_apx_layout(&b).unwrap();
    assert_eq!((l.metadata_start, l.metadata_len), (8, 4));
    assert_eq!((l.payload_start, l.payload_len), (16, 8));
    assert!(l.signature_start.is_none());
}

#[test]
fn apx_framing_errors() {
    assert!(matches!(parse_apx_layout(b"APX\x02\0\0\0\0\0\0\0\0"), Err(PkgError::Corruption(_))));
    let mut b = apx(b"meta", b"payload");
    b.truncate(b.len() - 1);
    assert!(matches!(parse_apx_layout(&b), Err(PkgError::Corruption(_))));
    let mut b = apx(b"meta", b"payload");
    b.push(0);
    assert!(matches!(parse_apx_layout(&b), Err(PkgError::Corruption(_))));
}

#[test]
fn apx_signature_is_checked_against_trusted_keys() {
    let signer = SigningKey::from_bytes(&[7u8; 32]);
    let other = SigningKey::from_bytes(&[9u8; 32]);
    let mut b = apx(b"meta", b"payload");
    let sig = signer.sign(b"metapayload");
    let unsigned = b.clone();
    b.extend_from_slice(&sig.to_bytes());
    let good = signer.verifying_key().to_bytes().to_vec();
    let bad = other.verifying_key().to_bytes().to_vec();
    assert!(verify_signature(&b, &vec![bad.clone(), good.clone()]).is_ok());
    assert!(matches!(verify_signature(&b, &vec![bad]), Err(PkgError::Signature(_))));
    assert!(matches!(verify_signature(&b, &vec![]), Err(PkgError::Signature(_))));
    assert!(matches!(verify_signature(&unsigned, &vec![good]), Err(PkgError::Signature(_))));
}

#[test]
fn cache_paths_and_names() {
    let cache = Cache::new("/var/cache/apt-ng");
    assert_eq!(
        cache.package_path("test", "1.0", "amd64"),
        "/var/cache/apt-ng/packages/test_1.0_amd64.deb"
    );
    assert_eq!(
        cache.package_path_with_ext("test", "1.0", "amd64", "apx"),
        "/var/cache/apt-ng/packages/test_1.0_amd64.apx"
    );
    assert_eq!(package_name_of_file("test_1.0_amd64.deb").as_deref(), Some("test"));
    assert_eq!(package_name_of_file("nounderscore.deb"), None);
}

#[test]
fn only_newest_version_of_each_package_stays() {
    let files = vec![
        ("a_1_amd64.deb".to_string(), 10u64),
        ("a_2_amd64.deb".to_string(), 20u64),
        ("b_1_all.deb".to_string(), 5u64),
        ("odd.deb".to_string(), 1u64),
        ("a_3_amd64.deb".to_string(), 20u64),
    ];
    assert_eq!(old_versions_to_remove(&files), vec![true, false, false, false, true]);
}

#[test]
fn delta_worthiness() {
    let d = |delta: u64, full: u64| DeltaMetadata {
        from_version: "1".to_string(),
        to_version: "2".to_string(),
        package_name: "p".to_string(),
        delta_size: delta,
        full_size: full,
        algorithm: "xdelta3".to_string(),
        checksum: String::new(),
    };
    assert!(d(90, 100).is_worthwhile());
    assert!(!d(91, 100).is_worthwhile());
    assert!(!d(0, 0).is_worthwhile());
    assert!(!d(200, 100).is_worthwhile());
}

#[test]
fn rollback_plan_removes_new_files_then_restores_backups() {
    let mut t = InstallationTransaction::new();
    t.add_installed_file("/root/etc/app.conf".to_string());
    t.add_installed_file("/root/usr/bin/app".to_string());
    t.add_backup("/root/etc/app.conf".to_string(), "/root/etc/app.conf.bak".to_string());
    let plan = t.rollback_plan();
    assert_eq!(plan.len(), 3);
    assert!(matches!(&plan[0], RollbackStep::RemoveInstalled(p) if p == "/root/etc/app.conf"));
    assert!(matches!(&plan[1], RollbackStep::RemoveInstalled(p) if p == "/root/usr/bin/app"));
    assert!(matches!(&plan[2], RollbackStep::RestoreBackup { original, backup }
        if original == "/root/etc/app.conf" && backup == "/root/etc/app.conf.bak"));
}

#[test]
fn hook_arguments_per_phase() {
    assert_eq!(hook_arguments(HookType::PreInstall, ""), vec!["install".to_string()]);
    assert_eq!(hook_arguments(HookType::PreInstall, "1.0"), vec!["upgrade".to_string(), "1.0".to_string()]);
    assert_eq!(hook_arguments(HookType::PostInstall, "1.0"), vec!["configure".to_string(), "1.0".to_string()]);
    assert_eq!(hook_arguments(HookType::PreRemove, "x"), vec!["remove".to_string()]);
    assert_eq!(hook_script_name(HookType::PostRemove), "postrm");
}

#[test]
fn copy_and_integrity_decisions() {
    assert_eq!(plan_file_copy(DestKind::Directory), CopyAction::Conflict);
    assert_eq!(plan_file_copy(DestKind::RegularFile), CopyAction::BackupAndReplace);
    assert_eq!(plan_file_copy(DestKind::Missing), CopyAction::Place);
    assert_eq!(integrity_decision(true, false, false), IntegrityDecision::RejectCorrupted);
    assert_eq!(integrity_decision(true, false, true), IntegrityDecision::ProceedWithWarning);
    assert_eq!(integrity_decision(false, false, true), IntegrityDecision::Proceed);
    assert_eq!(integrity_decision(true, true, false), IntegrityDecision::ExtractionFailed);
}

#[test]
fn framed_archive_round_trips_through_the_layout_reader() {
    let signer = SigningKey::from_bytes(&[3u8; 32]);
    let sig = signer.sign(b"mp").to_bytes();
    let b = frame_apx(b"m", b"p", Some(&sig)).unwrap();
    assert_eq!(&b[..4], b"APX\x01");
    let l = parse_apx_layout(&b).unwrap();
    assert_eq!((l.metadata_len, l.payload_len, l.signature_start), (1, 1, Some(14)));
    let key = signer.verifying_key().to_bytes().to_vec();
    assert!(verify_signature(&b, &vec![key]).is_ok());
    assert!(matches!(frame_apx(b"m", b"p", Some(&[0u8; 3])), Err(PkgError::Signature(_))));
    let mut builder = ApxBuilder::new("/src");
    assert!(builder.manifest.name.is_empty());
    builder.set_manifest(apt_ng::package::PackageManifest {
        name: "n".to_string(),
        version: "1".to_string(),
        arch: "all".to_string(),
        provides: vec![],
        depends: vec![],
        conflicts: vec![],
        replaces: vec![],
        files: vec![],
        size: 0,
        checksum: String::new(),
        timestamp: 0,
        filename: None,
        repo_id: None,
    });
    assert_eq!(builder.manifest.name, "n");
}

#[test]
fn security_audit_summary_and_score() {
    let check = |passed: bool, severity: Severity| SecurityCheckResult {
        check_name: "c".to_string(),
        severity,
        passed,
        message: String::new(),
        details: None,
    };
    let result = SecurityAudit::run(vec![
        check(true, Severity::Info),
        check(false, Severity::Medium),
        check(true, Severity::Info),
    ])
    .unwrap();
    assert_eq!(result.total_checks, 3);
    assert_eq!(result.passed_checks, 2);
    assert_eq!(result.failed_checks, 1);
    assert_eq!(result.medium_issues, 1);
    assert!(result.passed());
    assert_eq!(result.score(), 61);
    let bad = SecurityAudit::run(vec![check(false, Severity::High)]).unwrap();
    assert!(!bad.passed());
    assert_eq!(bad.score(), 0);
    assert_eq!(SecurityAudit::run(vec![]).unwrap().score(), 100);
}

#[test]
fn fetch_plans() {
    assert_eq!(plan_fetch(100, true, Some(1000)), FetchPlan::Resume { from: 100, to: 999 });
    assert_eq!(plan_fetch(1000, true, Some(1000)), FetchPlan::AlreadyComplete);
    assert_eq!(plan_fetch(0, false, Some(50_000_000)), FetchPlan::Sequential);
    assert_eq!(plan_fetch(100, false, Some(1000)), FetchPlan::Sequential);
    assert_eq!(plan_fetch(0, true, None), FetchPlan::Sequential);
    let size = 25 * 1024 * 1024;
    match plan_fetch(0, true, Some(size)) {
        FetchPlan::Chunked(c) => {
            assert_eq!(c.len(), 13);
            assert_eq!(c[0], (0, CHUNK_SIZE - 1));
            assert_eq!(c[12], (12 * CHUNK_SIZE, size - 1));
        }
        other => panic!("unexpected {:?}", other),
    }
}

#[test]
fn chunks_cover_the_file_exactly() {
    assert!(chunk_ranges(0).is_empty());
    assert_eq!(chunk_ranges(1), vec![(0, 0)]);
    assert_eq!(chunk_ranges(CHUNK_SIZE), vec![(0, CHUNK_SIZE - 1)]);
    assert_eq!(chunk_ranges(CHUNK_SIZE + 1), vec![(0, CHUNK_SIZE - 1), (CHUNK_SIZE, CHUNK_SIZE)]);
}

#[test]
fn range_headers() {
    assert_eq!(parse_range("bytes=0-99", 1000), Some((0, 99)));
    assert_eq!(parse_range("bytes=500-", 1000), Some((500, 999)));
    assert_eq!(parse_range("bytes=500-1000", 1000), None);
    assert_eq!(parse_range("bytes=9-3", 1000), None);
    assert_eq!(parse_range("items=0-1", 1000), None);
    assert_eq!(parse_range("bytes=0-", 0), None);
    assert_eq!(parse_range("bytes=x-1", 10), None);
}

#[test]
fn removal_is_blocked_by_dependents() {
    let m = |name: &str, deps: &[&str]| PackageManifest {
        name: name.to_string(),
        version: "1".to_string(),
        arch: "all".to_string(),
        provides: vec![],
        depends: deps.iter().map(|d| d.to_string()).collect(),
        conflicts: vec![],
        replaces: vec![],
        files: vec![],
        size: 0,
        checksum: String::new(),
        timestamp: 0,
        filename: None,
        repo_id: None,
    };
    let installed = vec![m("lib", &[]), m("app", &["lib"]), m("tool", &["other"]), m("lib", &["lib"])];
    assert_eq!(removal_blockers(&installed, &"lib".to_string()), vec!["app".to_string()]);
    assert!(removal_blockers(&installed, &"app".to_string()).is_empty());
}

#[test]
fn oldest_files_go_first_until_under_the_limit() {
    // (size, mtime)
    let files = vec![(40u64, 30u64), (50, 10), (30, 20), (20, 20)];
    assert_eq!(over_limit_to_remove(&files, 200), vec![false; 4]);
    assert_eq!(over_limit_to_remove(&files, 140), vec![false; 4]);
    assert_eq!(over_limit_to_remove(&files, 100), vec![false, true, false, false]);
    assert_eq!(over_limit_to_remove(&files, 60), vec![false, true, true, false]);
    assert_eq!(over_limit_to_remove(&files, 0), vec![true; 4]);
    assert!(over_limit_to_remove(&vec![], 0).is_empty());
}

#[test]
fn hook_environment_and_sandbox_arguments() {
    let env = apt_ng::sandbox::hook_environment(HookType::PostInstall, "app", "/root");
    assert_eq!(
        env,
        vec![
            ("DPKG_MAINTSCRIPT_NAME".to_string(), "postinst".to_string()),
            ("DPKG_MAINTSCRIPT_PACKAGE".to_string(), "app".to_string()),
            ("DPKG_ROOT".to_string(), "/root".to_string()),
            ("DPKG_ADMINDIR".to_string(), "/var/lib/dpkg".to_string()),
        ]
    );
    let policy = apt_ng::sandbox::SandboxPolicy {
        network_allowed: false,
        writable_paths: vec!["/var/lib/app".to_string()],
        read_only_paths: vec![],
    };
    let args = apt_ng::sandbox::bwrap_args(&policy, "/tmp/postinst", &vec!["configure".to_string()]);
    assert_eq!(
        args,
        vec![
            "--unshare-all", "--die-with-parent", "--as-pid-1", "--unshare-net", "--ro-bind", "/", "/",
            "--bind", "/var/lib/app", "/var/lib/app", "--tmpfs", "/tmp", "--", "/bin/sh",
            "/tmp/postinst", "configure",
        ]
        .into_iter()
        .map(|s| s.to_string())
        .collect::<Vec<String>>()
    );
}
