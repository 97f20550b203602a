//! Folder-sync decisions.
//!
//! Reconciling a local tree with a remote prefix walks files and asks, for
//! each, whether to move it; the answers — exclusion patterns, freshness,
//! key building, and the relative path a remote key names — are verified
//! here.  Walking directories, hashing file bytes and the store calls stay
//! with the host program, which passes their outcomes in.

use vstd::prelude::*;
use crate::strkit::{spec_contains, spec_ends_with, spec_starts_with};

verus! {

/// The object-store dialect in use.
#[derive(Clone, Copy, PartialEq, Eq, Structural, Debug)]
pub enum S3Provider {
    AwsS3,
    BackblazeB2,
    CloudflareR2,
    Generic,
}

/// Does `c` match `w` when upper-case ASCII folds onto lower-case `w`?
pub open spec fn spec_ci_char(c: char, w: char) -> bool {
    c == w || ('a' <= w <= 'z' && c as u32 + 32 == w as u32)
}

/// Case-insensitive equality with a fixed lower-case word.
pub open spec fn spec_ci_eq(s: Seq<char>, w: Seq<char>) -> bool {
    s.len() == w.len() && forall|i: int| 0 <= i < s.len() ==> spec_ci_char(s[i], w[i])
}

/// The provider a configuration string names, matched like the accepted
/// spellings, ASCII case-insensitively.
pub open spec fn spec_provider_of(s: Seq<char>) -> S3Provider {
    if spec_ci_eq(s, "aws"@) || spec_ci_eq(s, "s3"@) || spec_ci_eq(s, "aws-s3"@) {
        S3Provider::AwsS3
    } else if spec_ci_eq(s, "b2"@) || spec_ci_eq(s, "backblaze"@) || spec_ci_eq(
        s,
        "backblaze-b2"@,
    ) {
        S3Provider::BackblazeB2
    } else if spec_ci_eq(s, "r2"@) || spec_ci_eq(s, "cloudflare"@) || spec_ci_eq(
        s,
        "cloudflare-r2"@,
    ) {
        S3Provider::CloudflareR2
    } else {
        S3Provider::Generic
    }
}

/// ASCII case-insensitive equality with a lower-case word.
fn eq_ci(s: &str, w: &str) -> (r: bool)
    ensures
        r == spec_ci_eq(s@, w@),
{
    let sc = crate::strkit::chars_of(s);
    let wc = crate::strkit::chars_of(w);
    if sc.len() != wc.len() {
        return false;
    }
    let n = sc.len();
    for i in 0..n
        invariant
            n == sc@.len(),
            n == wc@.len(),
            sc@ == s@,
            wc@ == w@,
            forall|j: int| 0 <= j < i ==> spec_ci_char(s@[j], w@[j]),
    {
        let c = sc[i];
        let wch = wc[i];
        let folded = c == wch || (wch >= 'a' && wch <= 'z' && (c as u32 as u64) + 32 == (
        wch as u32 as u64));
        if !folded {
            proof {
                assert(!spec_ci_char(s@[i as int], w@[i as int]));
            }
            return false;
        }
    }
    true
}

impl S3Provider {
    /// Read a provider out of its configured name.
    pub fn from_str(s: &str) -> (r: Self)
        ensures
            r == spec_provider_of(s@),
    {
        if eq_ci(s, "aws") || eq_ci(s, "s3") || eq_ci(s, "aws-s3") {
            S3Provider::AwsS3
        } else if eq_ci(s, "b2") || eq_ci(s, "backblaze") || eq_ci(s, "backblaze-b2") {
            S3Provider::BackblazeB2
        } else if eq_ci(s, "r2") || eq_ci(s, "cloudflare") || eq_ci(s, "cloudflare-r2") {
            S3Provider::CloudflareR2
        } else {
            S3Provider::Generic
        }
    }
}

/// The catalog row kept per synchronized path.
pub struct FileMetadata {
    pub path: String,
    pub size: u64,
    pub modified_time: i64,
    pub hash: String,
    pub etag: Option<String>,
    pub last_sync: i64,
}

/// Which way a sync run moves files.
#[derive(Clone, Copy, PartialEq, Eq, Structural, Debug)]
pub enum SyncDirection {
    LocalToS3,
    S3ToLocal,
    Bidirectional,
}

/// How a sync run behaves.
pub struct SyncOptions {
    pub direction: SyncDirection,
    pub force: bool,
    pub delete: bool,
    pub dry_run: bool,
    pub exclude_patterns: Vec<String>,
    pub max_parallel: usize,
    pub use_compression: bool,
}

impl Default for SyncOptions {
    /// Upload direction, nothing forced or deleted, the usual editor and
    /// version-control litter excluded, four transfers at once,
    /// compression on.
    fn default() -> (r: Self)
        ensures
            r.direction is LocalToS3,
            !r.force && !r.delete && !r.dry_run,
            r.max_parallel == 4,
            r.use_compression,
            r.exclude_patterns@.len() == 4,
            r.exclude_patterns@[0]@ == ".git"@,
            r.exclude_patterns@[1]@ == ".DS_Store"@,
            r.exclude_patterns@[2]@ == "*.tmp"@,
            r.exclude_patterns@[3]@ == "*.swp"@,
    {
        let mut pats: Vec<String> = Vec::new();
        pats.push(".git".to_owned());
        pats.push(".DS_Store".to_owned());
        pats.push("*.tmp".to_owned());
        pats.push("*.swp".to_owned());
        SyncOptions {
            direction: SyncDirection::LocalToS3,
            force: false,
            delete: false,
            dry_run: false,
            exclude_patterns: pats,
            max_parallel: 4,
            use_compression: true,
        }
    }
}

/// What one sync run counted.
#[derive(Clone, Copy, PartialEq, Eq, Structural, Debug)]
pub struct SyncStats {
    pub files_scanned: usize,
    pub files_uploaded: usize,
    pub files_downloaded: usize,
    pub files_deleted: usize,
    pub files_skipped: usize,
    pub bytes_uploaded: u64,
    pub bytes_downloaded: u64,
    pub errors: usize,
}

impl Default for SyncStats {
    fn default() -> (r: Self)
        ensures
            r.files_scanned == 0 && r.files_uploaded == 0 && r.files_downloaded == 0
                && r.files_deleted == 0 && r.files_skipped == 0 && r.bytes_uploaded == 0
                && r.bytes_downloaded == 0 && r.errors == 0,
    {
        SyncStats {
            files_scanned: 0,
            files_uploaded: 0,
            files_downloaded: 0,
            files_deleted: 0,
            files_skipped: 0,
            bytes_uploaded: 0,
            bytes_downloaded: 0,
            errors: 0,
        }
    }
}

/// Does one exclusion pattern match a path?  `*mid*` means substring,
/// `*suffix` a suffix, `prefix*` a prefix, and anything else substring.
pub open spec fn spec_pattern_matches(path: Seq<char>, pat: Seq<char>) -> bool {
    if pat.len() >= 2 && pat[0] == '*' && pat.last() == '*' {
        spec_contains(path, pat.subrange(1, pat.len() - 1))
    } else if pat.len() >= 1 && pat[0] == '*' {
        spec_ends_with(path, pat.subrange(1, pat.len() as int))
    } else if pat.len() >= 1 && pat.last() == '*' {
        spec_starts_with(path, pat.subrange(0, pat.len() - 1))
    } else {
        spec_contains(path, pat)
    }
}

/// Is the path excluded by any configured pattern?
pub open spec fn spec_should_exclude(path: Seq<char>, pats: Seq<Seq<char>>) -> bool {
    exists|i: int| 0 <= i < pats.len() && spec_pattern_matches(path, #[trigger] pats[i])
}

fn pattern_matches(path: &str, pat: &str) -> (r: bool)
    ensures
        r == spec_pattern_matches(path@, pat@),
{
    let pc = crate::strkit::chars_of(pat);
    let n = pc.len();
    if n >= 2 && pc[0] == '*' && pc[n - 1] == '*' {
        let mut mid: Vec<char> = Vec::new();
        for i in 1..n - 1
            invariant
                n == pc@.len(),
                pc@ == pat@,
                n >= 2,
                mid@ == pat@.subrange(1, i as int),
        {
            mid.push(pc[i]);
            proof {
                assert(pat@.subrange(1, i as int).push(pat@[i as int]) =~= pat@.subrange(
                    1,
                    i + 1,
                ));
            }
        }
        proof {
            assert(mid@ =~= pat@.subrange(1, pat@.len() - 1));
        }
        crate::strkit::contains_sub(path, crate::strkit::string_of(mid).as_str())
    } else if n >= 1 && pc[0] == '*' {
        let mut suf: Vec<char> = Vec::new();
        for i in 1..n
            invariant
                n == pc@.len(),
                pc@ == pat@,
                n >= 1,
                suf@ == pat@.subrange(1, i as int),
        {
            suf.push(pc[i]);
            proof {
                assert(pat@.subrange(1, i as int).push(pat@[i as int]) =~= pat@.subrange(
                    1,
                    i + 1,
                ));
            }
        }
        proof {
            assert(suf@ =~= pat@.subrange(1, pat@.len() as int));
        }
        crate::strkit::ends_with(path, crate::strkit::string_of(suf).as_str())
    } else if n >= 1 && pc[n - 1] == '*' {
        let mut pre: Vec<char> = Vec::new();
        for i in 0..n - 1
            invariant
                n == pc@.len(),
                pc@ == pat@,
                n >= 1,
                pre@ == pat@.subrange(0, i as int),
        {
            pre.push(pc[i]);
            proof {
                assert(pat@.subrange(0, i as int).push(pat@[i as int]) =~= pat@.subrange(
                    0,
                    i + 1,
                ));
            }
        }
        proof {
            assert(pre@ =~= pat@.subrange(0, pat@.len() - 1));
        }
        crate::strkit::starts_with(path, crate::strkit::string_of(pre).as_str())
    } else {
        crate::strkit::contains_sub(path, pat)
    }
}

/// Is the path excluded by any configured pattern?
pub fn should_exclude(path: &str, patterns: &Vec<String>) -> (r: bool)
    ensures
        r == spec_should_exclude(path@, patterns@.map_values(|p: String| p@)),
{
    let ghost pats = patterns@.map_values(|p: String| p@);
    let n = patterns.len();
    for i in 0..n
        invariant
            n == patterns@.len(),
            pats == patterns@.map_values(|p: String| p@),
            forall|j: int| 0 <= j < i ==> !spec_pattern_matches(path@, #[trigger] pats[j]),
    {
        if pattern_matches(path, patterns[i].as_str()) {
            proof {
                assert(spec_pattern_matches(path@, pats[i as int]));
            }
            return true;
        }
    }
    false
}

/// Must this local file be uploaded?  Forced runs always upload; a file
/// with no catalog row uploads; otherwise it uploads exactly when its
/// hash or size no longer matches the row.
pub open spec fn spec_needs_upload(
    force: bool,
    cached: Option<(Seq<char>, u64)>,
    current_hash: Seq<char>,
    current_size: u64,
) -> bool {
    if force {
        true
    } else {
        match cached {
            None => true,
            Some(row) => row.0 != current_hash || row.1 != current_size,
        }
    }
}

/// Decide an upload from the catalog row and the file's current state.
pub fn needs_upload(
    force: bool,
    cached: Option<&FileMetadata>,
    current_hash: &str,
    current_size: u64,
) -> (r: bool)
    ensures
        r == spec_needs_upload(
            force,
            match cached {
                Some(c) => Some((c.hash@, c.size)),
                None => None,
            },
            current_hash@,
            current_size,
        ),
{
    if force {
        return true;
    }
    match cached {
        None => true,
        Some(c) => !crate::strkit::str_eq(c.hash.as_str(), current_hash) || c.size != current_size,
    }
}

/// Sync idempotence: after a successful transfer the catalog row records
/// the file's current hash and size, and a second unforced pass over an
/// unchanged file decides to skip it.
pub proof fn lemma_sync_idempotent(hash: Seq<char>, size: u64)
    ensures
        !spec_needs_upload(false, Some((hash, size)), hash, size),
{
}

/// Must this remote object be downloaded?  Forced runs always download; a
/// missing local file downloads; otherwise mismatching size, or a remote
/// change since the recorded sync, downloads.
pub open spec fn spec_needs_download(
    force: bool,
    local_exists: bool,
    size_mismatch: bool,
    remote_changed: bool,
) -> bool {
    force || !local_exists || size_mismatch || remote_changed
}

pub fn needs_download(force: bool, local_exists: bool, size_mismatch: bool, remote_changed: bool) -> (r: bool)
    ensures
        r == spec_needs_download(force, local_exists, size_mismatch, remote_changed),
{
    force || !local_exists || size_mismatch || remote_changed
}

/// `s` without any trailing slashes.
pub open spec fn spec_trim_slashes(s: Seq<char>) -> Seq<char>
    decreases s.len(),
{
    if s.len() > 0 && s.last() == '/' {
        spec_trim_slashes(s.drop_last())
    } else {
        s
    }
}

/// Remove every trailing slash.
pub fn trim_slashes(s: &str) -> (r: String)
    ensures
        r@ == spec_trim_slashes(s@),
{
    let mut cs = crate::strkit::chars_of(s);
    while cs.len() > 0 && cs[cs.len() - 1] == '/'
        invariant
            spec_trim_slashes(cs@) == spec_trim_slashes(s@),
        decreases cs@.len(),
    {
        cs.pop();
    }
    proof {
        if cs@.len() > 0 {
            assert(cs@.last() != '/');
        }
    }
    crate::strkit::string_of(cs)
}

/// The remote key a relative path synchronizes to: the trimmed prefix, a
/// slash, the path, and `.zst` when compression is on.
pub open spec fn spec_remote_key(prefix: Seq<char>, rel: Seq<char>, compress: bool) -> Seq<char> {
    let base = spec_trim_slashes(prefix) + seq!['/'] + rel;
    if compress {
        base + ".zst"@
    } else {
        base
    }
}

/// Build the remote key for one file.
pub fn remote_key(prefix: &str, rel: &str, compress: bool) -> (r: String)
    ensures
        r@ == spec_remote_key(prefix@, rel@, compress),
{
    let trimmed = trim_slashes(prefix);
    proof {
        reveal_strlit("/");
        assert("/"@ =~= seq!['/']);
    }
    let with_slash = crate::strkit::concat_str(trimmed.as_str(), "/");
    let base = crate::strkit::concat_str(with_slash.as_str(), rel);
    if compress {
        let r = crate::strkit::concat_str(base.as_str(), ".zst");
        proof {
            assert(r@ =~= spec_remote_key(prefix@, rel@, true));
        }
        r
    } else {
        proof {
            assert(base@ =~= spec_remote_key(prefix@, rel@, false));
        }
        base
    }
}

/// The relative path a remote key names, or `None` when the key is
/// outside the prefix, empty after it, or — with compression on — not a
/// `.zst` object.
pub open spec fn spec_remote_to_relative(
    key: Seq<char>,
    prefix: Seq<char>,
    compress: bool,
) -> Option<Seq<char>> {
    if !spec_starts_with(key, prefix) {
        None
    } else {
        let rel = crate::proxy::spec_cleaned(key.subrange(prefix.len() as int, key.len() as int));
        if rel.len() == 0 {
            None
        } else if compress {
            if spec_ends_with(rel, ".zst"@) {
                Some(rel.subrange(0, rel.len() - 4))
            } else {
                None
            }
        } else {
            Some(rel)
        }
    }
}

/// Turn a listed remote key back into the local relative path it stands
/// for.
pub fn remote_to_relative(key: &str, prefix: &str, compress: bool) -> (r: Option<String>)
    ensures
        match r {
            Some(rel) => spec_remote_to_relative(key@, prefix@, compress) == Some(rel@),
            None => spec_remote_to_relative(key@, prefix@, compress) is None,
        },
{
    if !crate::strkit::starts_with(key, prefix) {
        return None;
    }
    let kc = crate::strkit::chars_of(key);
    let plen = crate::strkit::chars_of(prefix).len();
    let n = kc.len();
    let mut tail: Vec<char> = Vec::new();
    for i in plen..n
        invariant
            n == kc@.len(),
            kc@ == key@,
            plen <= i <= n,
            plen == prefix@.len(),
            tail@ == key@.subrange(plen as int, i as int),
    {
        tail.push(kc[i]);
        proof {
            assert(key@.subrange(plen as int, i as int).push(key@[i as int]) =~= key@.subrange(
                plen as int,
                i + 1,
            ));
        }
    }
    proof {
        assert(tail@ =~= key@.subrange(prefix@.len() as int, key@.len() as int));
    }
    let rel = crate::proxy::clean_path(crate::strkit::string_of(tail).as_str());
    if rel.as_str().is_empty() {
        return None;
    }
    if compress {
        proof {
            reveal_strlit(".zst");
        }
        if crate::strkit::ends_with(rel.as_str(), ".zst") {
            let rc = crate::strkit::chars_of(rel.as_str());
            let m = rc.len();
            let mut out: Vec<char> = Vec::new();
            for i in 0..m - 4
                invariant
                    m == rc@.len(),
                    rc@ == rel@,
                    m >= 4,
                    out@ == rel@.subrange(0, i as int),
            {
                out.push(rc[i]);
                proof {
                    assert(rel@.subrange(0, i as int).push(rel@[i as int]) =~= rel@.subrange(
                        0,
                        i + 1,
                    ));
                }
            }
            proof {
                assert(out@ =~= rel@.subrange(0, rel@.len() - 4));
            }
            Some(crate::strkit::string_of(out))
        } else {
            None
        }
    } else {
        Some(rel)
    }
}

} // verus!
