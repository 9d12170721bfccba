//! The `.apx` container: framing of its sections, content checksums and
//! the Ed25519 signature over its compressed sections.
//!
//! Layout, little-endian: the magic `APX\x01`; a `u32` length `M` and `M`
//! bytes of compressed manifest; a `u32` length `P` and `P` bytes of
//! compressed payload; optionally a 64-byte signature over the manifest
//! bytes followed by the payload bytes.

use vstd::prelude::*;
use sha2::Digest;
use ed25519_dalek::Verifier;
use crate::error::PkgError;
use crate::package::{FileEntry, PackageManifest};

verus! {

pub open spec fn hex_digit(d: u8) -> char {
    if d < 10 {
        ((d + 48) as u8) as char
    } else {
        ((d + 87) as u8) as char
    }
}

/// Lowercase hexadecimal, two digits per byte.
pub open spec fn hex_of(b: Seq<u8>) -> Seq<char>
    decreases b.len(),
{
    if b.len() == 0 {
        seq![]
    } else {
        hex_of(b.drop_last()) + seq![hex_digit(b.last() / 16), hex_digit(b.last() % 16)]
    }
}

/// The SHA-256 digest of `data`.
pub uninterp spec fn sha256_of(data: Seq<u8>) -> Seq<u8>;

/// Whether `sig` is a valid Ed25519 signature of `msg` under the public
/// key `key`.
pub uninterp spec fn ed25519_valid(key: Seq<u8>, msg: Seq<u8>, sig: Seq<u8>) -> bool;

/// Relies on `hex::encode`: lowercase hexadecimal, two digits per byte.
#[verifier::external_body]
fn hex_encode(b: &[u8]) -> (r: String)
    ensures
        r@ == hex_of(b@),
{
    hex::encode(b)
}

/// Relies on `sha2::Sha256::digest`: the 32-byte SHA-256 digest of `data`.
#[verifier::external_body]
fn sha256_digest(data: &[u8]) -> (r: Vec<u8>)
    ensures
        r@ == sha256_of(data@),
        r@.len() == 32,
{
    sha2::Sha256::digest(data).to_vec()
}

/// Relies on `ed25519_dalek::VerifyingKey::from_bytes` to read the 32-byte
/// public key and on `Verifier::verify` to check the 64-byte signature; a
/// key that does not decode verifies nothing.
#[verifier::external_body]
fn ed25519_verify(key: &[u8], msg: &[u8], sig: &[u8]) -> (r: bool)
    requires
        key@.len() == 32,
        sig@.len() == 64,
    ensures
        r == ed25519_valid(key@, msg@, sig@),
{
    let k: [u8; 32] = match key.try_into() {
        Ok(k) => k,
        Err(_) => return false,
    };
    let s: [u8; 64] = match sig.try_into() {
        Ok(s) => s,
        Err(_) => return false,
    };
    match ed25519_dalek::VerifyingKey::from_bytes(&k) {
        Ok(vk) => vk.verify(msg, &ed25519_dalek::Signature::from_bytes(&s)).is_ok(),
        Err(_) => false,
    }
}

/// The SHA-256 digest of `data` in lowercase hexadecimal.
pub fn sha256_hex(data: &[u8]) -> (r: String)
    ensures
        r@ == hex_of(sha256_of(data@)),
{
    let d = sha256_digest(data);
    hex_encode(d.as_slice())
}

/// Whether a hexadecimal digest names the given lowercase digest text.
pub fn digest_matches(actual_hex: &str, expected: &str) -> (r: bool)
    ensures
        r == (actual_hex@ == expected@),
{
    let a = crate::text::to_chars(actual_hex);
    crate::text::eq_str(&a, expected)
}

/// Whether `data` has the SHA-256 digest `expected`.
pub fn content_matches_checksum(data: &[u8], expected: &str) -> (r: bool)
    ensures
        r == (hex_of(sha256_of(data@)) == expected@),
{
    let h = sha256_hex(data);
    digest_matches(h.as_str(), expected)
}

/// Whether the bytes of an extracted file match its manifest entry, in
/// digest and size.
pub fn file_matches_entry(data: &[u8], entry: &FileEntry) -> (r: bool)
    ensures
        r == (hex_of(sha256_of(data@)) == entry.checksum@ && data@.len() == entry.size),
{
    let ok = content_matches_checksum(data, entry.checksum.as_str());
    ok && data.len() as u64 == entry.size
}

/// A little-endian `u32` read from four bytes.
pub open spec fn le32(b: Seq<u8>, at: int) -> int {
    b[at] as int + b[at + 1] as int * 256 + b[at + 2] as int * 65536 + b[at + 3] as int * 16777216
}

/// Where the sections of an archive lie.
#[derive(Debug)]
pub struct ApxLayout {
    pub metadata_start: usize,
    pub metadata_len: usize,
    pub payload_start: usize,
    pub payload_len: usize,
    pub signature_start: Option<usize>,
}

pub open spec fn has_magic(b: Seq<u8>) -> bool {
    b.len() >= 4 && b[0] == 65 && b[1] == 80 && b[2] == 88 && b[3] == 1
}

/// The archive is well framed: magic, both sections within the bytes, and
/// after them either nothing or exactly a signature.
pub open spec fn well_framed(b: Seq<u8>) -> bool {
    &&& has_magic(b)
    &&& b.len() >= 8
    &&& 12 + le32(b, 4) <= b.len()
    &&& 12 + le32(b, 4) + le32(b, 8 + le32(b, 4)) <= b.len()
    &&& {
        let rest = b.len() - (12 + le32(b, 4) + le32(b, 8 + le32(b, 4)));
        rest == 0 || rest == 64
    }
}

pub open spec fn layout_of(b: Seq<u8>, l: ApxLayout) -> bool {
    let m = le32(b, 4);
    let p = le32(b, 8 + m);
    &&& l.metadata_start == 8
    &&& l.metadata_len == m
    &&& l.payload_start == 12 + m
    &&& l.payload_len == p
    &&& (l.signature_start is None <==> b.len() == 12 + m + p)
    &&& (l.signature_start matches Some(s) ==> s == 12 + m + p)
}

fn read_le32(b: &[u8], at: usize) -> (r: usize)
    requires
        at + 4 <= b@.len(),
    ensures
        r as int == le32(b@, at as int),
{
    let v: u64 = b[at] as u64 + (b[at + 1] as u64) * 256 + (b[at + 2] as u64) * 65536 + (b[at
        + 3] as u64) * 16777216;
    v as usize
}

/// Locates the sections of an archive, or says why it is malformed.
pub fn parse_apx_layout(b: &[u8]) -> (r: Result<ApxLayout, PkgError>)
    ensures
        r is Ok <==> well_framed(b@),
        r matches Ok(l) ==> layout_of(b@, l),
{
    if b.len() < 8 || b[0] != 65 || b[1] != 80 || b[2] != 88 || b[3] != 1 {
        return Err(PkgError::Corruption(String::from_str("invalid archive magic")));
    }
    let m = read_le32(b, 4);
    if b.len() < 12 || m > b.len() - 12 {
        return Err(PkgError::Corruption(String::from_str("truncated manifest section")));
    }
    let p = read_le32(b, 8 + m);
    if p > b.len() - 12 - m {
        return Err(PkgError::Corruption(String::from_str("truncated payload section")));
    }
    let end = 12 + m + p;
    let rest = b.len() - end;
    if rest != 0 && rest != 64 {
        return Err(PkgError::Corruption(String::from_str("unexpected trailing bytes")));
    }
    Ok(
        ApxLayout {
            metadata_start: 8,
            metadata_len: m,
            payload_start: 12 + m,
            payload_len: p,
            signature_start: if rest == 0 {
                None
            } else {
                Some(end)
            },
        },
    )
}

/// The bytes that a signature covers: the manifest section followed by the
/// payload section.
pub open spec fn signed_region(b: Seq<u8>) -> Seq<u8> {
    let m = le32(b, 4);
    let p = le32(b, 8 + m);
    b.subrange(8, 8 + m) + b.subrange(12 + m, 12 + m + p)
}

pub open spec fn signature_of(b: Seq<u8>) -> Seq<u8> {
    let e = 12 + le32(b, 4) + le32(b, 8 + le32(b, 4));
    b.subrange(e, e + 64)
}

/// Some key of `keys` is 32 bytes long and accepts the archive's signature.
pub open spec fn accepted_by(keys: Seq<Vec<u8>>, b: Seq<u8>) -> bool {
    exists|k: int|
        0 <= k < keys.len() && (#[trigger] keys[k])@.len() == 32 && ed25519_valid(
            keys[k]@,
            signed_region(b),
            signature_of(b),
        )
}

fn copy_range(b: &[u8], lo: usize, hi: usize, out: &mut Vec<u8>)
    requires
        lo <= hi <= b@.len(),
    ensures
        final(out)@ == old(out)@ + b@.subrange(lo as int, hi as int),
{
    let mut i = lo;
    let ghost o = out@;
    while i < hi
        invariant
            lo <= i <= hi <= b@.len(),
            out@ == o + b@.subrange(lo as int, i as int),
        decreases hi - i,
    {
        out.push(b[i]);
        assert(out@ =~= o + b@.subrange(lo as int, i + 1));
        i = i + 1;
    }
}

/// Checks the archive's signature against the trusted keys. Fails when the
/// archive is malformed, unsigned, or no key accepts the signature.
#[verifier::loop_isolation(false)]
pub fn verify_signature(b: &[u8], keys: &Vec<Vec<u8>>) -> (r: Result<(), PkgError>)
    ensures
        r is Ok <==> (well_framed(b@) && b@.len() == 12 + le32(b@, 4) + le32(b@, 8 + le32(b@, 4))
            + 64 && accepted_by(keys@, b@)),
{
    let l = match parse_apx_layout(b) {
        Ok(l) => l,
        Err(e) => {
            return Err(e);
        },
    };
    let s = match l.signature_start {
        Some(s) => s,
        None => {
            return Err(PkgError::Signature(String::from_str("archive is unsigned")));
        },
    };
    assert(l.metadata_start + l.metadata_len <= b@.len());
    assert(l.payload_start + l.payload_len <= b@.len());
    let n = b.len();
    assert(s + 64 == n);
    let mut msg: Vec<u8> = Vec::new();
    copy_range(b, l.metadata_start, l.metadata_start + l.metadata_len, &mut msg);
    copy_range(b, l.payload_start, l.payload_start + l.payload_len, &mut msg);
    let mut sig: Vec<u8> = Vec::new();
    copy_range(b, s, s + 64, &mut sig);
    assert(msg@ =~= signed_region(b@));
    assert(sig@ =~= signature_of(b@));
    let mut k: usize = 0;
    while k < keys.len()
        invariant
            k <= keys@.len(),
            msg@ == signed_region(b@),
            sig@ == signature_of(b@),
            sig@.len() == 64,
            forall|j: int|
                0 <= j < k ==> !((#[trigger] keys@[j])@.len() == 32 && ed25519_valid(
                    keys@[j]@,
                    signed_region(b@),
                    signature_of(b@),
                )),
        decreases keys.len() - k,
    {
        if keys[k].len() == 32 && ed25519_verify(keys[k].as_slice(), msg.as_slice(), sig.as_slice()) {
            return Ok(());
        }
        k = k + 1;
    }
    Err(PkgError::Signature(String::from_str("no trusted key accepts the signature")))
}

/// Builds `.apx` archives from a source directory and a manifest.
#[derive(Debug)]
pub struct ApxBuilder {
    pub source_dir: String,
    pub manifest: PackageManifest,
}

impl ApxBuilder {
    /// A builder for `source_dir` with an empty manifest.
    pub fn new(source_dir: &str) -> (r: Self)
        ensures
            r.source_dir@ == source_dir@,
            r.manifest.name@.len() == 0,
            r.manifest.version@.len() == 0,
            r.manifest.files@.len() == 0,
    {
        ApxBuilder {
            source_dir: String::from_str(source_dir),
            manifest: PackageManifest {
                name: String::new(),
                version: String::new(),
                arch: String::new(),
                provides: Vec::new(),
                depends: Vec::new(),
                conflicts: Vec::new(),
                replaces: Vec::new(),
                files: Vec::new(),
                size: 0,
                checksum: String::new(),
                timestamp: 0,
                filename: None,
                repo_id: None,
            },
        }
    }

    /// Replaces the manifest that the archive will carry.
    pub fn set_manifest(&mut self, manifest: PackageManifest)
        ensures
            final(self).manifest == manifest,
            final(self).source_dir == old(self).source_dir,
    {
        self.manifest = manifest;
    }
}

pub open spec fn le32_bytes(n: int) -> Seq<u8> {
    seq![(n % 256) as u8, ((n / 256) % 256) as u8, ((n / 65536) % 256) as u8, ((n / 16777216) % 256) as u8]
}

/// The bytes of an archive with the given sections.
pub open spec fn framed(meta: Seq<u8>, payload: Seq<u8>, sig: Option<Seq<u8>>) -> Seq<u8> {
    seq![65u8, 80u8, 88u8, 1u8] + le32_bytes(meta.len() as int) + meta + le32_bytes(
        payload.len() as int,
    ) + payload + match sig {
        Some(s) => s,
        None => seq![],
    }
}

fn push_le32(out: &mut Vec<u8>, n: usize)
    requires
        n < 0x1_0000_0000,
    ensures
        final(out)@ == old(out)@ + le32_bytes(n as int),
{
    out.push((n % 256) as u8);
    out.push(((n / 256) % 256) as u8);
    out.push(((n / 65536) % 256) as u8);
    out.push(((n / 16777216) % 256) as u8);
    assert(final(out)@ =~= old(out)@ + le32_bytes(n as int));
}

/// Writes an archive from its compressed manifest, compressed payload and
/// optional signature. Sections of 4 GiB or more cannot be framed, and a
/// signature is 64 bytes.
pub fn frame_apx(meta: &[u8], payload: &[u8], sig: Option<&[u8]>) -> (r: Result<Vec<u8>, PkgError>)
    ensures
        r is Ok <==> (meta@.len() < 0x1_0000_0000 && payload@.len() < 0x1_0000_0000 && match sig {
            Some(s) => s@.len() == 64,
            None => true,
        }),
        r matches Ok(b) ==> b@ == framed(
            meta@,
            payload@,
            match sig {
                Some(s) => Some(s@),
                None => None,
            },
        ),
{
    if meta.len() as u64 >= 0x1_0000_0000u64 || payload.len() as u64 >= 0x1_0000_0000u64 {
        return Err(PkgError::Corruption(String::from_str("section too large to frame")));
    }
    match sig {
        Some(s) => {
            if s.len() != 64 {
                return Err(PkgError::Signature(String::from_str("signature must be 64 bytes")));
            }
        },
        None => {},
    }
    let mut out: Vec<u8> = Vec::new();
    out.push(65);
    out.push(80);
    out.push(88);
    out.push(1);
    push_le32(&mut out, meta.len());
    copy_range(meta, 0, meta.len(), &mut out);
    push_le32(&mut out, payload.len());
    copy_range(payload, 0, payload.len(), &mut out);
    match sig {
        Some(s) => {
            copy_range(s, 0, s.len(), &mut out);
            assert(s@.subrange(0, s@.len() as int) =~= s@);
        },
        None => {},
    }
    assert(meta@.subrange(0, meta@.len() as int) =~= meta@);
    assert(payload@.subrange(0, payload@.len() as int) =~= payload@);
    assert(out@ =~= framed(
        meta@,
        payload@,
        match sig {
            Some(s) => Some(s@),
            None => None,
        },
    ));
    Ok(out)
}

proof fn lemma_le32_round(b: Seq<u8>, at: int, n: int)
    requires
        0 <= n < 0x1_0000_0000,
        0 <= at,
        at + 4 <= b.len(),
        b.subrange(at, at + 4) == le32_bytes(n),
    ensures
        le32(b, at) == n,
{
    assert(b[at] == le32_bytes(n)[0]);
    assert(b[at + 1] == le32_bytes(n)[1]);
    assert(b[at + 2] == le32_bytes(n)[2]);
    assert(b[at + 3] == le32_bytes(n)[3]);
    assert(le32(b, at) == n) by (nonlinear_arith)
        requires
            b[at] as int == n % 256,
            b[at + 1] as int == (n / 256) % 256,
            b[at + 2] as int == (n / 65536) % 256,
            b[at + 3] as int == (n / 16777216) % 256,
            0 <= n < 0x1_0000_0000,
            le32(b, at) == b[at] as int + b[at + 1] as int * 256 + b[at + 2] as int * 65536 + b[at + 3] as int * 16777216,
    ;
}

/// Framing and locating agree: an archive written from two sections and an
/// optional 64-byte signature is well framed, its sections are found where
/// they were written, and the signed region is the two sections.
pub proof fn lemma_frame_round_trip(meta: Seq<u8>, payload: Seq<u8>, sig: Option<Seq<u8>>)
    requires
        meta.len() < 0x1_0000_0000,
        payload.len() < 0x1_0000_0000,
        sig matches Some(s) ==> s.len() == 64,
    ensures
        well_framed(framed(meta, payload, sig)),
        le32(framed(meta, payload, sig), 4) == meta.len(),
        le32(framed(meta, payload, sig), 8 + meta.len() as int) == payload.len(),
        signed_region(framed(meta, payload, sig)) == meta + payload,
        sig matches Some(s) ==> signature_of(framed(meta, payload, sig)) == s,
{
    let b = framed(meta, payload, sig);
    let m = meta.len() as int;
    let p = payload.len() as int;
    assert(b.subrange(4, 8) =~= le32_bytes(m));
    lemma_le32_round(b, 4, m);
    assert(b.subrange(8 + m, 12 + m) =~= le32_bytes(p));
    lemma_le32_round(b, 8 + m, p);
    assert(b.subrange(8, 8 + m) =~= meta);
    assert(b.subrange(12 + m, 12 + m + p) =~= payload);
    assert(signed_region(b) =~= meta + payload);
    match sig {
        Some(s) => {
            assert(b.subrange(12 + m + p, 12 + m + p + 64) =~= s);
        },
        None => {},
    }
}

/// Some key of `keys` is 32 bytes long and accepts `sig`, a 64-byte
/// signature, over `data`.
pub open spec fn detached_accepted(keys: Seq<Vec<u8>>, data: Seq<u8>, sig: Seq<u8>) -> bool {
    sig.len() == 64 && exists|k: int|
        0 <= k < keys.len() && (#[trigger] keys[k])@.len() == 32 && ed25519_valid(keys[k]@, data, sig)
}

/// Checks a detached signature, such as a `Release.gpg` over `Release`,
/// against the trusted keys.
pub fn verify_detached(data: &[u8], sig: &[u8], keys: &Vec<Vec<u8>>) -> (r: bool)
    ensures
        r == detached_accepted(keys@, data@, sig@),
{
    if sig.len() != 64 {
        return false;
    }
    let mut k: usize = 0;
    while k < keys.len()
        invariant
            k <= keys@.len(),
            sig@.len() == 64,
            forall|j: int|
                0 <= j < k ==> !((#[trigger] keys@[j])@.len() == 32 && ed25519_valid(keys@[j]@, data@, sig@)),
        decreases keys.len() - k,
    {
        if keys[k].len() == 32 && ed25519_verify(keys[k].as_slice(), data, sig) {
            return true;
        }
        k = k + 1;
    }
    false
}

} // verus!
