use apt_ng::apt_parser::{parse_dependency_rule, parse_packages_file, parse_version_constraint};
use apt_ng::catalog::search;
use apt_ng::index_gen::RepositoryIndexGenerator;
use apt_ng::package::PackageManifest;

fn fixture() -> String {
    "Package: test-package
Version: 1.0.0
Architecture: amd64
Depends: libc6 (>= 2.0)
Provides: test-tool
Size: 1024
SHA256: abc123def456
Filename: pool/main/t/test-package/test-package_1.0.0_amd64.deb
Description: A test package for integration tests
 This is a test package used for testing tests.

Package: another-package
Version: 2.0.0
Architecture: all
Depends: test-package
Size: 2048
SHA256: def456ghi789
Filename: pool/main/a/another-package/another-package_2.0.0_all.deb
Description: Another test package
 This package depends on test-package.

Package: simple-package
Version: 1.5.0
Architecture: amd64
Size: 512
SHA256: 111222333444
Filename: pool/main/s/simple-package/simple-package_1.5.0_amd64.deb
Description: A simple test package
 No dependencies.
"
    .to_string()
}

#[test]
fn test_parse_packages_file() {
    let content = r#"Package: test-package
Version: 1.0.0
Architecture: amd64
Depends: libc6 (>= 2.0), libssl1.1
Provides: test-tool
Size: 1024
SHA256: abc123

Package: another-package
Version: 2.0.0
Architecture: all
Size: 2048
"#;

    let packages = parse_packages_file(content).unwrap();
    assert_eq!(packages.len(), 2);
    assert_eq!(packages[0].name, "test-package");
    assert_eq!(packages[0].depends.len(), 2);
}

#[test]
fn test_parse_dependency_rule() {
    let rules = parse_dependency_rule("libc6").unwrap();
    assert_eq!(rules.len(), 1);
    assert_eq!(rules[0].name, "libc6");
    assert!(rules[0].version_constraint.is_none());

    let rules = parse_dependency_rule("libc6 (>= 2.0)").unwrap();
    assert_eq!(rules.len(), 1);
    assert_eq!(rules[0].name, "libc6");
    assert_eq!(rules[0].version_constraint.as_ref().unwrap(), ">= 2.0");

    let rules = parse_dependency_rule("libssl1.1 | libssl1.0").unwrap();
    assert_eq!(rules.len(), 2);
    assert_eq!(rules[0].name, "libssl1.1");
    assert_eq!(rules[1].name, "libssl1.0");

    let rules = parse_dependency_rule("libc6 (>= 2.0) | libc5").unwrap();
    assert_eq!(rules.len(), 2);
    assert_eq!(rules[0].name, "libc6");
    assert_eq!(rules[0].version_constraint.as_ref().unwrap(), ">= 2.0");
    assert_eq!(rules[1].name, "libc5");

    let rules = parse_dependency_rule("package (<< 3.0)").unwrap();
    assert_eq!(rules[0].version_constraint.as_ref().unwrap(), "<< 3.0");

    let rules = parse_dependency_rule("package (>> 1.0)").unwrap();
    assert_eq!(rules[0].version_constraint.as_ref().unwrap(), ">> 1.0");

    let rules = parse_dependency_rule("package (= 2.5)").unwrap();
    assert_eq!(rules[0].version_constraint.as_ref().unwrap(), "= 2.5");
}

#[test]
fn test_parse_version_constraint() {
    assert_eq!(parse_version_constraint(">= 1.0").unwrap(), Some(">= 1.0".to_string()));
    assert_eq!(parse_version_constraint("<= 2.0").unwrap(), Some("<= 2.0".to_string()));
    assert_eq!(parse_version_constraint("= 1.5").unwrap(), Some("= 1.5".to_string()));
    assert_eq!(parse_version_constraint("<< 3.0").unwrap(), Some("<< 3.0".to_string()));
    assert_eq!(parse_version_constraint(">> 0.5").unwrap(), Some(">> 0.5".to_string()));
    assert_eq!(parse_version_constraint("").unwrap(), None);
}

#[test]
fn constraint_normalises_spacing_and_bare_versions() {
    assert_eq!(parse_version_constraint("  >=1.0  ").unwrap(), Some(">= 1.0".to_string()));
    assert_eq!(parse_version_constraint("2.5").unwrap(), Some("2.5".to_string()));
    assert_eq!(parse_version_constraint("   ").unwrap(), None);
}

#[test]
fn parse_three_manifest_fixture() {
    let packages = parse_packages_file(&fixture()).unwrap();
    assert_eq!(packages.len(), 3);
    assert_eq!(packages[0].name, "test-package");
    assert_eq!(packages[0].version, "1.0.0");
    assert_eq!(packages[0].arch, "amd64");
    assert_eq!(packages[0].depends, vec!["libc6 (>= 2.0)".to_string()]);
    assert_eq!(packages[0].provides, vec!["test-tool".to_string()]);
    assert_eq!(packages[0].size, 1024);
    assert_eq!(packages[0].checksum, "abc123def456");
    assert_eq!(
        packages[0].filename.as_deref(),
        Some("pool/main/t/test-package/test-package_1.0.0_amd64.deb")
    );
    assert_eq!(packages[1].name, "another-package");
    assert_eq!(packages[1].version, "2.0.0");
    assert_eq!(packages[1].arch, "all");
    assert_eq!(packages[2].name, "simple-package");
    assert_eq!(packages[2].version, "1.5.0");
    assert!(packages[2].depends.is_empty());
    let found = search(&packages, "simple");
    assert_eq!(found.len(), 1);
    assert_eq!(packages[found[0]].name, "simple-package");
    assert_eq!(packages[found[0]].version, "1.5.0");
}

#[test]
fn block_without_version_is_skipped_and_arch_defaults() {
    let content = "Package: a\nSize: 3\n\nPackage: b\nVersion: 1\n\nnot a field\n";
    let packages = parse_packages_file(content).unwrap();
    assert_eq!(packages.len(), 1);
    assert_eq!(packages[0].name, "b");
    assert_eq!(packages[0].arch, "all");
    assert_eq!(packages[0].size, 0);
    assert_eq!(packages[0].checksum, "");
    assert!(packages[0].filename.is_none());
}

#[test]
fn md5_is_used_without_sha256_and_bad_size_reads_zero() {
    let content = "Package: a\nVersion: 1\nMD5sum: ffee\nSize: 12x\n";
    let packages = parse_packages_file(content).unwrap();
    assert_eq!(packages[0].checksum, "ffee");
    assert_eq!(packages[0].size, 0);
    let content = "Package: a\nVersion: 1\nSize: 18446744073709551616\n";
    assert_eq!(parse_packages_file(content).unwrap()[0].size, 0);
    let content = "Package: a\nVersion: 1\nSize: 18446744073709551615\n";
    assert_eq!(parse_packages_file(content).unwrap()[0].size, u64::MAX);
}

#[test]
fn empty_input_gives_no_manifests() {
    assert!(parse_packages_file("").unwrap().is_empty());
    assert!(parse_packages_file("\n\n   \n").unwrap().is_empty());
}

#[test]
fn manifests_share_one_timestamp() {
    let packages = parse_packages_file(&fixture()).unwrap();
    assert!(packages.iter().all(|m| m.timestamp == packages[0].timestamp));
}

fn manifest(name: &str, version: &str, depends: &[&str], provides: &[&str]) -> PackageManifest {
    PackageManifest {
        name: name.to_string(),
        version: version.to_string(),
        arch: "amd64".to_string(),
        provides: provides.iter().map(|s| s.to_string()).collect(),
        depends: depends.iter().map(|s| s.to_string()).collect(),
        conflicts: vec![],
        replaces: vec![],
        files: vec![],
        size: 4096,
        checksum: "00ff".to_string(),
        timestamp: 0,
        filename: Some("pool/main/x/x.deb".to_string()),
        repo_id: None,
    }
}

#[test]
fn format_then_parse_round_trip() {
    let generator = RepositoryIndexGenerator::new("/srv/pool", "stable", "main", "amd64");
    let m = manifest("tool", "1:2.3-4", &["libc6 (>= 2.0)", "libssl1.1 | libssl3"], &["tool-virtual"]);
    let text = generator.format_package_entry(&m).unwrap();
    assert_eq!(
        text,
        "Package: tool\nVersion: 1:2.3-4\nArchitecture: amd64\nDepends: libc6 (>= 2.0), libssl1.1 | libssl3\nProvides: tool-virtual\nSize: 4096\nSHA256: 00ff\nFilename: pool/main/x/x.deb\n\n"
    );
    let parsed = parse_packages_file(&text).unwrap();
    assert_eq!(parsed.len(), 1);
    let p = &parsed[0];
    assert_eq!(p.name, m.name);
    assert_eq!(p.version, m.version);
    assert_eq!(p.arch, m.arch);
    assert_eq!(p.depends, m.depends);
    assert_eq!(p.provides, m.provides);
    assert_eq!(p.size, m.size);
    assert_eq!(p.checksum, m.checksum);
    assert_eq!(p.filename, m.filename);
}

#[test]
fn format_writes_zero_size_and_omits_empty_lists() {
    let generator = RepositoryIndexGenerator::new("d", "s", "c", "a");
    let mut m = manifest("z", "0", &[], &[]);
    m.size = 0;
    m.filename = None;
    let text = generator.format_package_entry(&m).unwrap();
    assert_eq!(text, "Package: z\nVersion: 0\nArchitecture: amd64\nSize: 0\nSHA256: 00ff\n\n");
}

#[test]
fn continuation_lines_extend_the_previous_field() {
    let content = "Package: a\nVersion: 1\nDepends: x,\n y\n";
    let packages = parse_packages_file(content).unwrap();
    assert_eq!(packages[0].depends, vec!["x".to_string(), "y".to_string()]);
}

#[test]
fn search_orders_by_name_then_newest_version() {
    let ms = vec![
        manifest("zlib", "1.2", &[], &[]),
        manifest("libz", "1.0", &[], &[]),
        manifest("libz", "2.0", &[], &[]),
        manifest("other", "1", &[], &[]),
    ];
    let found = search(&ms, "z");
    let listed: Vec<(&str, &str)> =
        found.iter().map(|&i| (ms[i].name.as_str(), ms[i].version.as_str())).collect();
    assert_eq!(listed, vec![("libz", "2.0"), ("libz", "1.0"), ("zlib", "1.2")]);
    assert_eq!(search(&ms, "").len(), 4);
    assert!(search(&ms, "nothing").is_empty());
}

#[test]
fn depends_keep_constraints_and_alternatives() {
    let content = "Package: a\nVersion: 1\nDepends: libc6 (>= 2.0), libssl1.1 | libssl3\n";
    let v = parse_packages_file(content).unwrap();
    assert_eq!(v.len(), 1);
    assert_eq!(v[0].depends, vec!["libc6 (>= 2.0)".to_string(), "libssl1.1 | libssl3".to_string()]);
}
