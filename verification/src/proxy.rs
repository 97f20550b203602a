//! The transfer proxy's decisions.
//!
//! The proxy serves files under a base directory and brokers
//! content-addressed uploads to the object store.  Everything that decides
//! — path acceptance, the advisory timeout, whether a request starts an
//! upload, what the client is told, and the order upload states may move
//! in — is verified here; reading files, the store calls and the record
//! database stay with the host program, which feeds their outcomes in as
//! plain values.

use vstd::prelude::*;
use crate::strkit::{spec_contains, spec_starts_with};

verus! {

/// Object-store settings for the proxy.
pub struct S3Config {
    pub provider: String,
    pub access_key_id: String,
    pub secret_access_key: String,
    pub bucket: String,
    pub region: String,
    pub endpoint: Option<String>,
    pub force_path_style: Option<bool>,
    pub use_compression: Option<bool>,
    pub compression_level: Option<i32>,
}

/// Where one content-addressed upload stands.
#[derive(Clone, Copy, PartialEq, Eq, Structural, Debug)]
pub enum UploadStatus {
    Pending,
    Uploading,
    Completed,
    Failed,
}

/// The stored record of one upload, keyed by the file's MD5.
pub struct UploadRecord {
    pub md5: String,
    pub s3_key: String,
    pub original_path: String,
    pub compressed: bool,
    pub uploaded_at: u64,
    pub status: UploadStatus,
    pub file_size: u64,
    pub timeout_seconds: u64,
}

/// What the proxy answers on a presign request.
pub struct S3UrlResponse {
    pub url: Option<String>,
    pub status: UploadStatus,
    pub uploaded: bool,
    pub compressed: bool,
    pub md5: String,
    pub timeout_seconds: u64,
}

/// Failures of the upload broker.
pub enum S3Error {
    FileReadError,
    CompressionError,
    UploadFailed(String),
    PresignFailed(String),
    DatabaseError(String),
}

/// The advisory client timeout: two seconds per started megabyte, at
/// least 10 and at most 3600 seconds.
pub open spec fn spec_timeout(bytes: nat) -> nat {
    let t = (2 * bytes + 1048575) / 1048576;
    if t < 10 {
        10
    } else if t > 3600 {
        3600
    } else {
        t
    }
}

/// The advisory timeout for a file of the given size.
pub fn calculate_timeout(file_size_bytes: u64) -> (r: u64)
    ensures
        r as nat == spec_timeout(file_size_bytes as nat),
        10 <= r <= 3600,
{
    let t: u128 = (2 * (file_size_bytes as u128) + 1048575) / 1048576;
    if t < 10 {
        10
    } else if t > 3600 {
        3600
    } else {
        t as u64
    }
}

/// The request path with leading slashes removed, as the proxy cleans it.
pub open spec fn spec_cleaned(s: Seq<char>) -> Seq<char>
    decreases s.len(),
{
    if s.len() > 0 && s[0] == '/' {
        spec_cleaned(s.subrange(1, s.len() as int))
    } else {
        s
    }
}

/// Does the cleaned path pass the traversal screen?  Any `..`, `./` or
/// `\.` is refused before the filesystem is touched.
pub open spec fn spec_path_ok(s: Seq<char>) -> bool {
    let c = spec_cleaned(s);
    &&& !spec_contains(c, seq!['.', '.'])
    &&& !spec_contains(c, seq!['.', '/'])
    &&& !spec_contains(c, seq!['\\', '.'])
}

/// Remove leading slashes from a request path.
pub fn clean_path(s: &str) -> (r: String)
    ensures
        r@ == spec_cleaned(s@),
{
    let cs = crate::strkit::chars_of(s);
    let n = cs.len();
    let mut start: usize = 0;
    let mut scanning = true;
    proof {
        assert(cs@.subrange(0, n as int) =~= s@);
    }
    for i in 0..n
        invariant
            n == cs@.len(),
            cs@ == s@,
            start <= i,
            scanning ==> start == i,
            !scanning ==> start < n && cs@[start as int] != '/',
            forall|j: int| 0 <= j < start ==> cs@[j] == '/',
            spec_cleaned(s@) == spec_cleaned(cs@.subrange(start as int, n as int)),
    {
        if scanning {
            if cs[i] == '/' {
                start = i + 1;
                proof {
                    let t = cs@.subrange(i as int, n as int);
                    assert(t[0] == '/');
                    assert(t.subrange(1, t.len() as int) =~= cs@.subrange(i + 1, n as int));
                }
            } else {
                scanning = false;
            }
        }
    }
    let mut out: Vec<char> = Vec::new();
    for i in start..n
        invariant
            n == cs@.len(),
            cs@ == s@,
            start <= i <= n,
            out@ == cs@.subrange(start as int, i as int),
    {
        out.push(cs[i]);
        proof {
            assert(cs@.subrange(start as int, i as int).push(cs@[i as int]) =~= cs@.subrange(
                start as int,
                i + 1,
            ));
        }
    }
    proof {
        let tail = cs@.subrange(start as int, n as int);
        assert(out@ =~= tail);
        if start < n && cs@[start as int] != '/' {
            assert(spec_cleaned(tail) == tail);
        } else if start == n {
            assert(spec_cleaned(tail) == tail);
        }
    }
    crate::strkit::string_of(out)
}

/// Screen a request path: leading slashes are dropped, and any path whose
/// cleaned form contains `..`, `./` or `\.` is refused.  On acceptance the
/// cleaned relative path comes back; the caller must still resolve it and
/// check the base-directory prefix before opening anything.
pub fn validate_rel_path(s: &str) -> (r: Option<String>)
    ensures
        r is Some <==> spec_path_ok(s@),
        r matches Some(p) ==> p@ == spec_cleaned(s@),
{
    let cleaned = clean_path(s);
    let dotdot = crate::strkit::contains_sub(cleaned.as_str(), "..");
    let dotslash = crate::strkit::contains_sub(cleaned.as_str(), "./");
    let backdot = crate::strkit::contains_sub(cleaned.as_str(), "\\.");
    proof {
        reveal_strlit("..");
        reveal_strlit("./");
        reveal_strlit("\\.");
        assert(".."@ =~= seq!['.', '.']);
        assert("./"@ =~= seq!['.', '/']);
        assert("\\."@ =~= seq!['\\', '.']);
    }
    if dotdot || dotslash || backdot {
        None
    } else {
        Some(cleaned)
    }
}

/// Path safety: a request whose cleaned path contains `..` (or `./`, or
/// `\.`) is never accepted, so no file handle can be opened for it.
pub proof fn lemma_path_safety(s: Seq<char>)
    ensures
        spec_contains(spec_cleaned(s), seq!['.', '.']) ==> !spec_path_ok(s),
        spec_contains(spec_cleaned(s), seq!['.', '/']) ==> !spec_path_ok(s),
        spec_contains(spec_cleaned(s), seq!['\\', '.']) ==> !spec_path_ok(s),
{
}

/// Does this request have to start (or restart) the upload?  `update`
/// forces it; otherwise a missing record starts it, a completed upload
/// whose object vanished restarts it, a failed one retries, and an upload
/// already under way is joined.
pub open spec fn spec_should_upload(
    update: bool,
    record: Option<UploadStatus>,
    remote_exists: bool,
) -> bool {
    if update {
        true
    } else {
        match record {
            None => true,
            Some(UploadStatus::Completed) => !remote_exists,
            Some(UploadStatus::Pending) => false,
            Some(UploadStatus::Uploading) => false,
            Some(UploadStatus::Failed) => true,
        }
    }
}

/// What the broker does next once the upload question is settled.
#[derive(Clone, Copy, PartialEq, Eq, Structural, Debug)]
pub enum BrokerAction {
    /// Write a pending record, detach the upload, answer `pending` with no
    /// URL.
    StartUpload,
    /// Answer `completed` with a presigned URL.
    Presign,
    /// Answer the record's current status with no URL.
    ReportStatus,
}

/// Decide one presign request from the stored record and the remote
/// probe.  `remote_exists` is what a HEAD on the object answered; it only
/// matters for a completed record.
pub fn decide_upload(update: bool, record: Option<&UploadRecord>, remote_exists: bool) -> (r:
    BrokerAction)
    ensures
        ({
            let st = match record {
                Some(rec) => Some(rec.status),
                None => None,
            };
            &&& (r is StartUpload <==> spec_should_upload(update, st, remote_exists))
            &&& (r is Presign <==> !spec_should_upload(update, st, remote_exists) && st == Some(
                UploadStatus::Completed,
            ))
            &&& (r is ReportStatus <==> !spec_should_upload(update, st, remote_exists) && (st
                == Some(UploadStatus::Pending) || st == Some(UploadStatus::Uploading)))
        }),
{
    if update {
        return BrokerAction::StartUpload;
    }
    match record {
        None => BrokerAction::StartUpload,
        Some(rec) => match rec.status {
            UploadStatus::Completed => {
                if remote_exists {
                    BrokerAction::Presign
                } else {
                    BrokerAction::StartUpload
                }
            },
            UploadStatus::Pending => BrokerAction::ReportStatus,
            UploadStatus::Uploading => BrokerAction::ReportStatus,
            UploadStatus::Failed => BrokerAction::StartUpload,
        },
    }
}

/// May the stored status move from `a` to `b` in one write?  The broker
/// writes `Pending` to start, the task moves it to `Uploading` and then to
/// `Completed` or `Failed`, and only a failed upload re-enters `Pending`.
pub open spec fn spec_status_step(a: UploadStatus, b: UploadStatus) -> bool {
    ||| (a is Pending && b is Uploading)
    ||| (a is Uploading && (b is Completed || b is Failed))
    ||| (a is Failed && b is Pending)
}

/// The statuses one upload attempt writes, in order.
pub open spec fn spec_attempt_statuses(task_succeeded: bool) -> Seq<UploadStatus> {
    seq![
        UploadStatus::Pending,
        UploadStatus::Uploading,
        if task_succeeded {
            UploadStatus::Completed
        } else {
            UploadStatus::Failed
        },
    ]
}

/// Upload-state monotonicity: every attempt writes a sequence whose
/// successive states are allowed steps, so an observer sees a prefix of
/// `Pending, Uploading, Completed`, or a sequence ending in `Failed`.
pub proof fn lemma_upload_state_monotone(task_succeeded: bool)
    ensures
        forall|i: int|
            0 <= i < spec_attempt_statuses(task_succeeded).len() - 1 ==> spec_status_step(
                #[trigger] spec_attempt_statuses(task_succeeded)[i],
                spec_attempt_statuses(task_succeeded)[i + 1],
            ),
        spec_attempt_statuses(task_succeeded).last() == if task_succeeded {
            UploadStatus::Completed
        } else {
            UploadStatus::Failed
        },
{
}

/// The status the background task records when it finishes.
pub fn finish_status(task_succeeded: bool) -> (r: UploadStatus)
    ensures
        r == spec_attempt_statuses(task_succeeded).last(),
        spec_status_step(UploadStatus::Uploading, r),
{
    proof {
        lemma_upload_state_monotone(task_succeeded);
    }
    if task_succeeded {
        UploadStatus::Completed
    } else {
        UploadStatus::Failed
    }
}

} // verus!
