//! What the S3 front shares between its requests: errors, authorization, reference ids.

use vstd::prelude::*;

use crate::db::Policy;
use crate::disk;
use crate::disk::{DiskGuard, GuardTrip};
use crate::store::StoreError;
use crate::text;

verus! {

/// The S3 error codes in use.
#[derive(PartialEq, Eq, Structural, Clone, Copy, Debug)]
pub enum S3Code {
    AccessDenied,
    InternalError,
    InvalidAccessKeyId,
    InvalidArgument,
    InvalidRange,
    InvalidRequest,
    NoSuchKey,
    NoSuchUpload,
    NotImplemented,
    ServiceUnavailable,
    SlowDown,
}

/// The error that a request is answered with.
#[derive(Debug)]
pub struct S3Error {
    pub code: S3Code,
    pub message: Option<String>,
}

/// The contents of an error.
#[verifier::ext_equal]
pub struct ErrorView {
    pub code: S3Code,
    pub message: Option<Seq<char>>,
}

impl View for S3Error {
    type V = ErrorView;

    open spec fn view(&self) -> ErrorView {
        ErrorView {
            code: self.code,
            message: match self.message {
                Some(m) => Some(m@),
                None => None,
            },
        }
    }
}

/// An error with a code alone.
pub open spec fn bare(code: S3Code) -> ErrorView {
    ErrorView { code, message: None }
}

/// An error with a message.
pub open spec fn told(code: S3Code, message: Seq<char>) -> ErrorView {
    ErrorView { code, message: Some(message) }
}

/// A result is the given error, or none where there is none.
pub open spec fn fails_with<T>(r: Result<T, S3Error>, error: Option<ErrorView>) -> bool {
    match r {
        Ok(_) => error is None,
        Err(e) => error == Some(e@),
    }
}

impl S3Error {
    pub fn new(code: S3Code) -> (r: S3Error)
        ensures
            r@ == bare(code),
    {
        S3Error { code, message: None }
    }

    pub fn with_message(code: S3Code, message: &str) -> (r: S3Error)
        ensures
            r@ == told(code, message@),
    {
        S3Error { code, message: Some(message.to_string()) }
    }
}

impl StoreError {
    /// The error in words.
    pub open spec fn text(self) -> Seq<char> {
        match self {
            StoreError::LogFull => "fact log is full"@,
            StoreError::BadHex => "invalid hex in fact"@,
            StoreError::SumOverflow => "integer overflow"@,
        }
    }

    pub fn message(&self) -> (r: String)
        ensures
            r@ == self.text(),
    {
        match self {
            StoreError::LogFull => "fact log is full".to_string(),
            StoreError::BadHex => "invalid hex in fact".to_string(),
            StoreError::SumOverflow => "integer overflow".to_string(),
        }
    }
}

/// A failure of the store, as the request reports it.
pub open spec fn internal(e: StoreError) -> ErrorView {
    told(S3Code::InternalError, e.text())
}

pub(crate) fn internal_error(e: StoreError) -> (r: S3Error)
    ensures
        r@ == internal(e),
{
    S3Error { code: S3Code::InternalError, message: Some(e.message()) }
}

// ── authorization ────────────────────────────────────────────────────────────

/// Who makes a request.
pub enum Principal {
    /// The front that needs no authorization.
    Trusted,
    /// A request without credentials.
    Anonymous,
    /// An access key that no user has.
    Unknown,
    /// A user whose policy cannot be read.
    Broken,
    /// A user with their policy.
    Known(Policy),
}

/// The resource that a request is about. Root operations like ListBuckets are about `*`.
pub open spec fn resource_of(bucket: Option<Seq<char>>, key: Option<Seq<char>>) -> Seq<char> {
    match (bucket, key) {
        (Some(b), Some(k)) => "arn:ss:bucket:::"@ + b + "/"@ + k,
        (Some(b), None) => "arn:ss:bucket:::"@ + b,
        _ => "*"@,
    }
}

/// Why a request is not authorized.
pub open spec fn denial(
    who: Principal,
    action: Seq<char>,
    bucket: Option<Seq<char>>,
    key: Option<Seq<char>>,
) -> Option<ErrorView> {
    match who {
        Principal::Trusted => None,
        Principal::Anonymous | Principal::Unknown => Some(bare(S3Code::AccessDenied)),
        Principal::Broken => Some(bare(S3Code::InternalError)),
        Principal::Known(policy) => if policy.allows(action, resource_of(bucket, key)) {
            None
        } else {
            Some(bare(S3Code::AccessDenied))
        },
    }
}

/// The view of an optional text.
pub open spec fn opt(o: Option<&str>) -> Option<Seq<char>> {
    match o {
        Some(s) => Some(s@),
        None => None,
    }
}

pub fn authorize(who: &Principal, action: &str, bucket: Option<&str>, key: Option<&str>) -> (r:
    Result<(), S3Error>)
    ensures
        fails_with(r, denial(*who, action@, opt(bucket), opt(key))),
{
    let policy = match who {
        Principal::Trusted => {
            return Ok(());
        },
        Principal::Anonymous | Principal::Unknown => {
            return Err(S3Error::new(S3Code::AccessDenied));
        },
        Principal::Broken => {
            return Err(S3Error::new(S3Code::InternalError));
        },
        Principal::Known(policy) => policy,
    };
    let resource = match (bucket, key) {
        (Some(b), Some(k)) => text::join4("arn:ss:bucket:::", b, "/", k),
        (Some(b), None) => text::join2("arn:ss:bucket:::", b),
        _ => "*".to_string(),
    };
    if policy.is_allowed(action, resource.as_str()) {
        Ok(())
    } else {
        Err(S3Error::new(S3Code::AccessDenied))
    }
}

/// A request for the secret of a user is answered with `r`.
pub open spec fn secret_answer(
    user: Option<(String, String)>,
    readable: bool,
    r: Result<String, S3Error>,
) -> bool {
    match user {
        Some(u) => if readable {
            r matches Ok(secret) && secret@ == u.0@
        } else {
            r matches Err(e) && e@ == bare(S3Code::InternalError)
        },
        None => r matches Err(e) && e@ == bare(S3Code::InvalidAccessKeyId),
    }
}

/// The secret key that a signed request is checked against. `readable` tells whether the
/// policy of the user can be read: a user without one is broken.
pub fn secret_for(user: Option<(String, String)>, readable: bool) -> (r: Result<String, S3Error>)
    ensures
        secret_answer(user, readable, r),
{
    match user {
        Some((secret, _)) => {
            if readable {
                Ok(secret)
            } else {
                Err(S3Error::new(S3Code::InternalError))
            }
        },
        None => Err(S3Error::new(S3Code::InvalidAccessKeyId)),
    }
}

/// A policy that denies a request cannot be overruled: whoever makes it, it is refused unless
/// their own policy allows it.
pub proof fn lemma_only_allowed_pass(
    policy: Policy,
    action: Seq<char>,
    bucket: Option<Seq<char>>,
    key: Option<Seq<char>>,
)
    ensures
        denial(Principal::Known(policy), action, bucket, key) is None == policy.allows(
            action,
            resource_of(bucket, key),
        ),
        denial(Principal::Anonymous, action, bucket, key) is Some,
        denial(Principal::Unknown, action, bucket, key) is Some,
        denial(Principal::Broken, action, bucket, key) is Some,
{
}

// ── unavailable blocks ───────────────────────────────────────────────────────

/// What is reported of a block that cannot be had while an object is read. The first block is
/// fetched before the response starts: a client that is told to slow down backs off and
/// retries, and does not take it for a permanent failure.
pub open spec fn unavailable(first: bool, reason: Seq<char>) -> ErrorView {
    if first {
        told(S3Code::SlowDown, "block unavailable: "@ + reason)
    } else {
        told(S3Code::InternalError, reason)
    }
}

/// The error for a block that cannot be had, for the given reason.
pub fn block_unavailable(first: bool, reason: &str) -> (r: S3Error)
    ensures
        r@ == unavailable(first, reason@),
{
    if first {
        S3Error {
            code: S3Code::SlowDown,
            message: Some(text::join2("block unavailable: ", reason)),
        }
    } else {
        S3Error::with_message(S3Code::InternalError, reason)
    }
}

// ── the write guard ──────────────────────────────────────────────────────────

/// Why the node takes no writes at the moment.
pub open spec fn refusal(guard: DiskGuard) -> Option<ErrorView> {
    match guard.trip() {
        None => None,
        Some(GuardTrip::LowFreeSpace) => Some(
            told(
                S3Code::ServiceUnavailable,
                "node is low on disk space ("@ + disk::bytes_text(guard.free as nat)
                    + " free, reserve "@ + disk::bytes_text(guard.min_free_bytes as nat)
                    + "); write rejected"@,
            ),
        ),
        Some(GuardTrip::OverQuota) => Some(
            told(
                S3Code::ServiceUnavailable,
                "node has reached storage quota ("@ + disk::bytes_text(guard.local_usage as nat)
                    + " used, cap "@ + disk::bytes_text(guard.max_bytes as nat)
                    + "); write rejected"@,
            ),
        ),
    }
}

fn five(a: &str, b: &str, c: &str, d: &str, e: &str) -> (r: String)
    ensures
        r@ == a@ + b@ + c@ + d@ + e@,
{
    let mut out = text::join4(a, b, c, d);
    text::push_text(&mut out, e);
    out
}

/// Returns a 503 if the disk guard has tripped, so local S3 writes are
/// rejected cleanly (the client retries later / against the write master)
/// rather than the node marching the volume into ENOSPC.
pub fn check_writable(guard: &DiskGuard) -> (r: Result<(), S3Error>)
    ensures
        fails_with(r, refusal(*guard)),
{
    let message = match guard.check() {
        None => {
            return Ok(());
        },
        Some(GuardTrip::LowFreeSpace) => {
            let free = disk::format_bytes(guard.free_bytes());
            let reserve = disk::format_bytes(guard.min_free_bytes());
            five(
                "node is low on disk space (",
                free.as_str(),
                " free, reserve ",
                reserve.as_str(),
                "); write rejected",
            )
        },
        Some(GuardTrip::OverQuota) => {
            let used = disk::format_bytes(guard.local_usage());
            let cap = disk::format_bytes(guard.max_bytes());
            five(
                "node has reached storage quota (",
                used.as_str(),
                " used, cap ",
                cap.as_str(),
                "); write rejected",
            )
        },
    };
    Err(S3Error { code: S3Code::ServiceUnavailable, message: Some(message) })
}

/// Why the drainer pauses.
pub open spec fn pause_text(guard: DiskGuard) -> Option<Seq<char>> {
    match guard.trip() {
        None => None,
        Some(GuardTrip::LowFreeSpace) => Some(
            "low disk ("@ + disk::bytes_text(guard.free as nat) + " free, reserve "@
                + disk::bytes_text(guard.min_free_bytes as nat) + ")"@,
        ),
        Some(GuardTrip::OverQuota) => Some(
            "over quota ("@ + disk::bytes_text(guard.local_usage as nat) + " used, cap "@
                + disk::bytes_text(guard.max_bytes as nat) + ")"@,
        ),
    }
}

/// Why no blocks are pulled at the moment, in words.
pub fn pause_reason(guard: &DiskGuard) -> (r: Option<String>)
    ensures
        r is Some == pause_text(*guard) is Some,
        r matches Some(t) ==> pause_text(*guard) == Some(t@),
{
    match guard.check() {
        None => None,
        Some(GuardTrip::LowFreeSpace) => {
            let free = disk::format_bytes(guard.free_bytes());
            let reserve = disk::format_bytes(guard.min_free_bytes());
            Some(five("low disk (", free.as_str(), " free, reserve ", reserve.as_str(), ")"))
        },
        Some(GuardTrip::OverQuota) => {
            let used = disk::format_bytes(guard.local_usage());
            let cap = disk::format_bytes(guard.max_bytes());
            Some(five("over quota (", used.as_str(), " used, cap ", cap.as_str(), ")"))
        },
    }
}

// ── texts ────────────────────────────────────────────────────────────────────

/// An entity tag as responses carry it.
pub open spec fn quoted(etag: Seq<char>) -> Seq<char> {
    "\""@ + etag + "\""@
}

pub fn quote(etag: &str) -> (r: String)
    ensures
        r@ == quoted(etag@),
{
    text::join3("\"", etag, "\"")
}

/// What an object refers to its blocks by.
pub open spec fn object_ref(bucket: Seq<char>, key: Seq<char>) -> Seq<char> {
    "obj:"@ + bucket + ":"@ + key
}

/// What an upload refers to its blocks by.
pub open spec fn upload_ref(bucket: Seq<char>, upload_id: Seq<char>) -> Seq<char> {
    "upload:"@ + bucket + ":"@ + upload_id
}

pub fn object_ref_id(bucket: &str, key: &str) -> (r: String)
    ensures
        r@ == object_ref(bucket@, key@),
{
    text::join4("obj:", bucket, ":", key)
}

pub fn upload_ref_id(bucket: &str, upload_id: &str) -> (r: String)
    ensures
        r@ == upload_ref(bucket@, upload_id@),
{
    text::join4("upload:", bucket, ":", upload_id)
}

/// Blocks and what refers to them, taken on or given up by a request.
pub struct References {
    pub ref_id: String,
    pub hashes: Vec<Vec<u8>>,
}

} // verus!
