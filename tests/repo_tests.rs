use apt_ng::repo::{origin_of_url, Repository};

#[test]
fn test_parse_apt_line() {
    let repo = Repository::parse_apt_line("deb https://deb.debian.org/debian bookworm main").unwrap();
    assert_eq!(repo.url, "https://deb.debian.org/debian");

    let repo = Repository::parse_apt_line("deb [arch=amd64] https://deb.debian.org/debian bookworm main").unwrap();
    assert_eq!(repo.url, "https://deb.debian.org/debian");

    assert!(Repository::parse_apt_line("deb file:///mnt/cdrom").is_none());
}

#[test]
fn apt_line_defaults_and_rejections() {
    let repo = Repository::parse_apt_line("deb http://example.com/repo stable").unwrap();
    assert_eq!(repo.suite.as_deref(), Some("stable"));
    assert_eq!(repo.components, vec!["main".to_string()]);
    assert_eq!(repo.priority, 500);
    assert!(repo.enabled);

    let repo = Repository::parse_apt_line("deb [arch=amd64 signed-by=/k.gpg] http://e.com/r trixie main contrib non-free").unwrap();
    assert_eq!(repo.url, "http://e.com/r");
    assert_eq!(repo.components, vec!["main".to_string(), "contrib".to_string(), "non-free".to_string()]);

    assert!(Repository::parse_apt_line("deb-src http://e.com/r stable main").is_none());
    assert!(Repository::parse_apt_line("deb cdrom:[Debian]/ stable main").is_none());
    assert!(Repository::parse_apt_line("deb [arch=amd64 http://e.com/r stable").is_none());
    assert!(Repository::parse_apt_line("").is_none());
}

fn repo(url: &str, priority: i32, rtt: Option<u64>, enabled: bool) -> Repository {
    Repository {
        id: None,
        url: url.to_string(),
        priority,
        enabled,
        last_probe_ms: None,
        rtt_ms: rtt,
        suite: Some("stable".to_string()),
        components: vec!["main".to_string()],
    }
}

#[test]
fn origin_is_scheme_and_host() {
    assert_eq!(origin_of_url("http://deb.debian.org/debian/pool/x.deb"), "http://deb.debian.org");
    assert_eq!(origin_of_url("https://host:8080/a"), "https://host:8080");
    assert_eq!(origin_of_url("https://host"), "https://host");
    assert_eq!(origin_of_url("relative/path"), "relative");
    assert_eq!(origin_of_url("noslash"), "noslash");
}

#[test]
fn best_mirror_by_priority_then_rtt() {
    let repos = vec![
        repo("http://repo1.example.com/debian", 500, Some(10), true),
        repo("http://repo1.example.com/mirror", 100, Some(90), true),
        repo("http://repo1.example.com/fast", 100, Some(20), true),
        repo("http://repo1.example.com/off", 1, Some(1), false),
        repo("http://repo2.example.com/debian", 1, Some(1), true),
    ];
    assert_eq!(Repository::select_best_mirror(&repos, "http://repo1.example.com"), Some(2));
    assert_eq!(Repository::select_best_mirror(&repos, "http://repo3.example.com"), None);
    let tie = vec![repo("http://a/x", 100, Some(5), true), repo("http://a/y", 100, Some(5), true)];
    assert_eq!(Repository::select_best_mirror(&tie, "http://a"), Some(0));
}

#[test]
fn sources_file_lines_become_repositories() {
    let text = "# main archive\ndeb http://deb.debian.org/debian bookworm main contrib\n\n  deb-src http://deb.debian.org/debian bookworm main\ndeb [arch=amd64] https://security.debian.org/debian-security bookworm-security main\ndeb cdrom:[x]/ bookworm main\n";
    let repos = Repository::parse_sources_list(text);
    assert_eq!(repos.len(), 2);
    assert_eq!(repos[0].url, "http://deb.debian.org/debian");
    assert_eq!(repos[0].components, vec!["main".to_string(), "contrib".to_string()]);
    assert_eq!(repos[1].url, "https://security.debian.org/debian-security");
    assert_eq!(repos[1].suite.as_deref(), Some("bookworm-security"));
    assert!(Repository::parse_sources_list("").is_empty());
}
