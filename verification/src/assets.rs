//! Font families Studio can install: pinned by the manifest it ships with, downloaded on request,
//! and checked against their pinned digest before they are kept.
//!
//! What is decided here is what an archive is called on disk, where a pinned release is fetched
//! from, and whether downloaded bytes are what was pinned. Reading the manifest, downloading and
//! writing are the caller's.

use sha2::Digest;
use vstd::prelude::*;
use crate::paths::{joined, segment, segment_check, PathError};
use crate::text::{owned, push_char, push_str, same_text};

verus! {

/// A font family as the picker lists it.
#[derive(Debug, Clone, PartialEq, Eq)]
pub struct Family {
    pub id: String,
    /// The archive's size, so the picker can say what a download costs.
    pub bytes: u64,
    /// Whether its archive is on disk.
    pub installed: bool,
}

/// A family as the manifest pins it.
#[derive(Debug, Clone)]
pub struct Pinned {
    pub id: String,
    pub url: String,
    /// `sha256:` and the lowercase hex digest of the archive.
    pub digest: String,
    pub bytes: u64,
}

pub ghost struct FamilyM {
    pub id: Seq<char>,
    pub bytes: u64,
    pub installed: bool,
}

impl View for Family {
    type V = FamilyM;

    open spec fn view(&self) -> FamilyM {
        FamilyM { id: self.id@, bytes: self.bytes, installed: self.installed }
    }
}

/// The family a pinned archive is listed as, installed or not.
pub open spec fn family_of(p: Pinned, installed: bool) -> FamilyM {
    FamilyM { id: p.id@, bytes: p.bytes, installed }
}

/// The pinned families as the picker lists them, in the manifest's order: each with its size, and
/// `installed[i]` saying whether the `i`-th one's archive is on disk.
pub fn families_from(pinned: &Vec<Pinned>, installed: &Vec<bool>) -> (r: Vec<Family>)
    requires
        pinned@.len() == installed@.len(),
    ensures
        r@.len() == pinned@.len(),
        forall|i: int| 0 <= i < r@.len() ==> (#[trigger] r@[i])@ == family_of(pinned@[i], installed@[i]),
{
    let mut out: Vec<Family> = Vec::new();
    let mut i: usize = 0;
    while i < pinned.len()
        invariant
            i <= pinned@.len(),
            pinned@.len() == installed@.len(),
            out@.len() == i,
            forall|k: int| 0 <= k < i ==> (#[trigger] out@[k])@ == family_of(pinned@[k], installed@[k]),
        decreases pinned@.len() - i,
    {
        let id = pinned[i].id.clone();
        out.push(Family { id, bytes: pinned[i].bytes, installed: installed[i] });
        i = i + 1;
    }
    out
}

/// Where the archive of family `id` lives in `dir`.
pub open spec fn archive_path_spec(dir: Seq<char>, id: Seq<char>) -> Result<Seq<char>, PathError> {
    match segment_check(id) {
        Err(e) => Err(e),
        Ok(()) => Ok(joined(dir, id + ".tar.gz"@)),
    }
}

/// Where the archive of family `id` lives in `dir`.
///
/// The id is checked as a single filename first: it comes from the manifest, and a manifest is
/// data, so `../../x` must not name a file somewhere else.
pub fn archive_path(dir: &str, id: &str) -> (r: Result<String, PathError>)
    ensures
        match archive_path_spec(dir@, id@) {
            Ok(p) => r matches Ok(s) && s@ == p,
            Err(e) => r == Err::<String, PathError>(e),
        },
{
    match segment(id) {
        Err(e) => return Err(e),
        Ok(()) => {},
    }
    let dir_chars = crate::text::chars_of(dir);
    let mut out = owned(dir);
    if dir_chars.len() > 0 && dir_chars[dir_chars.len() - 1] != '/' {
        push_char(&mut out, '/');
    }
    push_str(&mut out, id);
    push_str(&mut out, ".tar.gz");
    proof {
        if dir_chars.len() > 0 {
            assert(dir@.last() == dir_chars@[dir_chars@.len() - 1]);
        }
    }
    Ok(out)
}

/// Where a pinned release asset is downloaded from.
pub open spec fn release_url_spec(repo: Seq<char>, version: Seq<char>, file: Seq<char>) -> Seq<char> {
    "https://github.com/"@ + repo + "/releases/download/"@ + version + "/"@ + file
}

/// Where a pinned release asset is downloaded from: a fixed release, never "latest".
pub fn release_url(repo: &str, version: &str, file: &str) -> (r: String)
    ensures
        r@ == release_url_spec(repo@, version@, file@),
{
    let mut out = owned("https://github.com/");
    push_str(&mut out, repo);
    push_str(&mut out, "/releases/download/");
    push_str(&mut out, version);
    push_str(&mut out, "/");
    push_str(&mut out, file);
    out
}

/// The SHA-256 digest of `bytes`.
pub uninterp spec fn sha256(bytes: Seq<u8>) -> Seq<u8>;

/// `sha2::Sha256::digest`: the SHA-256 digest of `bytes`, which is 32 bytes long (the hasher's
/// output size). What the digest is, beyond its length, is named rather than stated.
#[verifier::external_body]
fn sha256_of(bytes: &[u8]) -> (r: Vec<u8>)
    ensures
        r@ == sha256(bytes@),
        r@.len() == 32,
{
    sha2::Sha256::digest(bytes).to_vec()
}

/// The lowercase hexadecimal digit for `d`.
pub open spec fn hex_digit(d: u8) -> char {
    if d < 10 { ((d + 48) as u8) as char } else { ((d + 87) as u8) as char }
}

/// `bytes` in lowercase hexadecimal, two digits per byte, high half first.
pub open spec fn lower_hex(bytes: Seq<u8>) -> Seq<char>
    decreases bytes.len(),
{
    if bytes.len() == 0 {
        seq![]
    } else {
        lower_hex(bytes.drop_last()) + seq![hex_digit(bytes.last() / 16), hex_digit(bytes.last() % 16)]
    }
}

fn hex_char(d: u8) -> (c: char)
    requires
        d < 16,
    ensures
        c == hex_digit(d),
{
    if d < 10 { ((d + 48) as u8) as char } else { ((d + 87) as u8) as char }
}

/// How a digest is written in the manifest: `sha256:` and its lowercase hex.
pub open spec fn written_digest(digest: Seq<u8>) -> Seq<char> {
    "sha256:"@ + lower_hex(digest)
}

/// Writes a digest the way the manifest does.
pub fn write_digest(digest: &Vec<u8>) -> (r: String)
    ensures
        r@ == written_digest(digest@),
{
    let mut out = owned("sha256:");
    let ghost head = out@;
    let mut i: usize = 0;
    while i < digest.len()
        invariant
            i <= digest@.len(),
            head == "sha256:"@,
            out@ == head + lower_hex(digest@.take(i as int)),
        decreases digest@.len() - i,
    {
        let b = digest[i];
        push_char(&mut out, hex_char(b / 16));
        push_char(&mut out, hex_char(b % 16));
        proof {
            assert(digest@.take(i as int + 1).drop_last() =~= digest@.take(i as int));
            assert(digest@.take(i as int + 1).last() == b);
        }
        i = i + 1;
    }
    proof {
        assert(digest@.take(i as int) =~= digest@);
    }
    out
}

/// Why downloaded bytes were refused: what was pinned, and what arrived.
#[derive(Debug, Clone, PartialEq, Eq)]
pub struct DigestMismatch {
    pub id: String,
    pub expected: String,
    pub found: String,
}

/// Compares the digest found with the one pinned: the bytes are kept only when the two agree.
pub fn compare_digest(id: &str, found: String, expected: &str) -> (r: Result<(), DigestMismatch>)
    ensures
        r is Ok <==> found@ == expected@,
        r matches Err(m) ==> m.id@ == id@ && m.expected@ == expected@ && m.found@ == found@,
{
    if same_text(found.as_str(), expected) {
        Ok(())
    } else {
        Err(DigestMismatch { id: owned(id), expected: owned(expected), found })
    }
}

/// Whether downloaded bytes are the archive the manifest pins for `id`.
pub fn check_download(id: &str, bytes: &[u8], expected: &str) -> (r: Result<(), DigestMismatch>)
    ensures
        r is Ok <==> written_digest(sha256(bytes@)) == expected@,
        r matches Err(m) ==> m.found@ == written_digest(sha256(bytes@)),
{
    let digest = sha256_of(bytes);
    let found = write_digest(&digest);
    compare_digest(id, found, expected)
}

} // verus!
