use apt_ng::archive::verify_detached;
use apt_ng::error::PkgError;
use apt_ng::update::{packages_index_urls, release_verdict};
use ed25519_dalek::{Signer, SigningKey};

#[test]
fn index_urls_in_preference_order() {
    let urls = packages_index_urls("http://deb.debian.org/debian/", "bookworm", "main", "amd64");
    assert_eq!(
        urls,
        vec![
            "http://deb.debian.org/debian/dists/bookworm/main/binary-amd64/Packages.xz".to_string(),
            "http://deb.debian.org/debian/dists/bookworm/main/binary-amd64/Packages.gz".to_string(),
            "http://deb.debian.org/debian/dists/bookworm/main/binary-amd64/Packages".to_string(),
        ]
    );
}

#[test]
fn release_signature_policy() {
    assert!(release_verdict(false, false, false).is_ok());
    assert!(release_verdict(true, true, false).is_ok());
    assert!(release_verdict(true, false, true).is_ok());
    assert!(matches!(release_verdict(true, false, false), Err(PkgError::Signature(_))));
}

#[test]
fn detached_release_signature() {
    let key = SigningKey::from_bytes(&[5u8; 32]);
    let release = b"Origin: Debian\nSuite: bookworm\n";
    let sig = key.sign(release).to_bytes();
    let trusted = vec![key.verifying_key().to_bytes().to_vec()];
    assert!(verify_detached(release, &sig, &trusted));
    assert!(!verify_detached(b"Origin: Other\n", &sig, &trusted));
    assert!(!verify_detached(release, &sig[..63], &trusted));
    assert!(!verify_detached(release, &sig, &vec![vec![1u8; 31]]));
}
