//! Who may do what, and what a refused request is answered.

use vstd::prelude::*;

use crate::codec;
use crate::db;
use crate::db::Policy;
use crate::db::PolicyStatement;
use crate::facts;
use crate::internal;
use crate::listing;
use crate::multipart;
use crate::order::KeyOrder;
use crate::parts;
use crate::presets;
use crate::presets::Preset;
use crate::ranges::Range;
use crate::rows::ObjectView;
use crate::s3;
use crate::s3::ErrorView;
use crate::s3::Principal;
use crate::s3::S3Code;
use crate::s3::S3Error;
use crate::storage;
use crate::storage::CopySource;
use crate::storage::StorageBackend;
use crate::store;
use crate::store::StoreError;
use crate::store::StoreView;

verus! {

// ── policies ─────────────────────────────────────────────────────────────────

/// `value` begins with `head`, character by character.
pub open spec fn begins(value: Seq<char>, head: Seq<char>) -> bool {
    head.len() <= value.len() && forall|i: int|
        0 <= i < head.len() ==> value[i] == #[trigger] head[i]
}

/// One of the patterns names the value: it is the value, or it ends in a star and the value begins
/// with what is before the star.
pub open spec fn named(patterns: Seq<String>, value: Seq<char>) -> bool {
    exists|i: int| 0 <= i < patterns.len() && named_by((#[trigger] patterns[i])@, value)
}

pub open spec fn named_by(pattern: Seq<char>, value: Seq<char>) -> bool {
    ||| pattern == value
    ||| pattern.len() > 0 && pattern[pattern.len() - 1] == '*' && begins(
        value,
        pattern.take(pattern.len() - 1),
    )
}

/// A statement of a policy with that effect speaks of the request.
pub open spec fn says(
    statements: Seq<PolicyStatement>,
    effect: Seq<char>,
    action: Seq<char>,
    resource: Seq<char>,
) -> bool {
    exists|i: int|
        0 <= i < statements.len() && (#[trigger] statements[i]).effect@ == effect && named(
            statements[i].actions@,
            action,
        ) && named(statements[i].resources@, resource)
}

proof fn lemma_begins(value: Seq<char>, head: Seq<char>)
    ensures
        head.is_prefix_of(value) == begins(value, head),
{
    if begins(value, head) {
        assert(value.subrange(0, head.len() as int) =~= head);
    }
    if head.is_prefix_of(value) {
        assert forall|i: int| 0 <= i < head.len() implies value[i] == #[trigger] head[i] by {
            assert(value.subrange(0, head.len() as int)[i] == head[i]);
        }
    }
}

/// A pattern matches the value itself, and every value that begins with what is before a final
/// star; nothing else.
pub proof fn lemma_pattern(pattern: Seq<char>, value: Seq<char>)
    ensures
        db::wildcard(pattern, value) == named_by(pattern, value),
{
    if pattern.len() > 0 && pattern[pattern.len() - 1] == '*' {
        let head = pattern.take(pattern.len() - 1);
        assert(head =~= pattern.drop_last());
        lemma_begins(value, head);
        if pattern == value {
            assert(begins(value, head));
        }
    }
}

/// A policy allows what one of its statements allows and none denies.
pub proof fn lemma_policy(policy: Policy, action: Seq<char>, resource: Seq<char>)
    ensures
        policy.allows(action, resource) == (says(policy.statements@, "Allow"@, action, resource)
            && !says(policy.statements@, "Deny"@, action, resource)),
{
    lemma_says(policy, "Allow"@, action, resource);
    lemma_says(policy, "Deny"@, action, resource);
}

proof fn lemma_says(policy: Policy, effect: Seq<char>, action: Seq<char>, resource: Seq<char>)
    ensures
        policy.has(effect, action, resource) == says(policy.statements@, effect, action, resource),
{
    assert forall|i: int| 0 <= i < policy.statements@.len() implies (
    #[trigger] policy.statements@[i]).applies(action, resource) == (named(
        policy.statements@[i].actions@,
        action,
    ) && named(policy.statements@[i].resources@, resource)) by {
        lemma_named(policy.statements@[i].actions@, action);
        lemma_named(policy.statements@[i].resources@, resource);
    }
}

proof fn lemma_named(patterns: Seq<String>, value: Seq<char>)
    ensures
        db::any_wildcard(patterns, value) == named(patterns, value),
{
    assert forall|i: int| 0 <= i < patterns.len() implies db::wildcard(
        (#[trigger] patterns[i])@,
        value,
    ) == named_by(patterns[i]@, value) by {
        lemma_pattern(patterns[i]@, value);
    }
}

/// The resource of a request is its object, else its bucket, else everything.
pub proof fn lemma_resource(bucket: Seq<char>, key: Seq<char>)
    ensures
        s3::resource_of(Some(bucket), Some(key)) == "arn:ss:bucket:::"@ + bucket + "/"@ + key,
        s3::resource_of(Some(bucket), None) == "arn:ss:bucket:::"@ + bucket,
        s3::resource_of(None, None) == "*"@,
{
}

/// A known user passes where the policy allows the action on the resource, and is refused
/// otherwise; the node itself always passes, and nobody else ever does.
pub proof fn lemma_passes(
    policy: Policy,
    action: Seq<char>,
    bucket: Option<Seq<char>>,
    key: Option<Seq<char>>,
)
    ensures
        ({
            let resource = s3::resource_of(bucket, key);
            let passes = says(policy.statements@, "Allow"@, action, resource) && !says(
                policy.statements@,
                "Deny"@,
                action,
                resource,
            );
            let denied = Some(ErrorView { code: S3Code::AccessDenied, message: None });
            &&& s3::denial(Principal::Known(policy), action, bucket, key) == if passes {
                None
            } else {
                denied
            }
            &&& s3::denial(Principal::Trusted, action, bucket, key) is None
            &&& s3::denial(Principal::Anonymous, action, bucket, key) == denied
            &&& s3::denial(Principal::Unknown, action, bucket, key) == denied
            &&& s3::denial(Principal::Broken, action, bucket, key) == Some(
                ErrorView { code: S3Code::InternalError, message: None },
            )
        }),
{
    lemma_policy(policy, action, s3::resource_of(bucket, key));
}

/// The three presets: reading, everything of S3, everything.
pub proof fn lemma_preset_actions(action: Seq<char>)
    ensures
        presets::covers(Preset::ReadOnly, action) == (begins(action, "s3:Get"@) || begins(
            action,
            "s3:Head"@,
        ) || begins(action, "s3:List"@)),
        presets::covers(Preset::ReadWrite, action) == begins(action, "s3:"@),
        presets::covers(Preset::Admin, action),
{
    lemma_begins(action, "s3:Get"@);
    lemma_begins(action, "s3:Head"@);
    lemma_begins(action, "s3:List"@);
    lemma_begins(action, "s3:"@);
}

/// The names of the presets, and no others.
pub proof fn lemma_preset_names(name: Seq<char>)
    ensures
        presets::preset_named("readonly"@) == Some(Preset::ReadOnly),
        presets::preset_named("readwrite"@) == Some(Preset::ReadWrite),
        presets::preset_named("admin"@) == Some(Preset::Admin),
        presets::preset_named(name) is Some ==> name == "readonly"@ || name == "readwrite"@ || name
            == "admin"@,
{
    reveal_strlit("readonly");
    reveal_strlit("readwrite");
    reveal_strlit("admin");
    assert("readonly"@.len() == 8 && "readwrite"@.len() == 9 && "admin"@.len() == 5);
}

/// A preset without a bucket reaches everything, and so does the administrator's; one with a
/// bucket reaches that bucket and the objects in it.
pub proof fn lemma_preset_reach(preset: Preset, bucket: Seq<char>, key: Seq<char>, other: Seq<char>)
    ensures
        presets::reaches(preset, None, other),
        presets::reaches(Preset::Admin, Some(bucket), other),
        presets::reaches(preset, Some(bucket), "arn:ss:bucket:::"@ + bucket),
        presets::reaches(preset, Some(bucket), "arn:ss:bucket:::"@ + bucket + "/"@ + key),
        !(preset is Admin) && !named_by("arn:ss:bucket:::"@ + bucket, other) && !begins(
            other,
            "arn:ss:bucket:::"@ + bucket + "/"@,
        ) ==> !presets::reaches(preset, Some(bucket), other),
{
    let whole = "arn:ss:bucket:::"@ + bucket;
    let inside = whole + "/"@;
    lemma_pattern(whole, whole);
    lemma_pattern(whole, other);
    lemma_begins(other, inside);
    lemma_begins(inside + key, inside);
}

// ── answers to refused requests ──────────────────────────────────────────────

/// A request with an error is answered that error, and one without is answered.
pub proof fn lemma_answered<T>(r: Result<T, S3Error>, e: ErrorView)
    ensures
        s3::fails_with(r, None) == r is Ok,
        s3::fails_with(r, Some(e)) == match r {
            Ok(_) => false,
            Err(x) => x.code == e.code && x.message is Some == e.message is Some && (x.message
                matches Some(m) ==> e.message == Some(m@)),
        },
{
}

/// A parameter of a request that is there is its text.
pub proof fn lemma_parameter(s: &str, owned: String)
    ensures
        s3::opt(Some(s)) == Some(s@),
        s3::opt(None) is None,
        internal::opt(Some(s)) == Some(s@),
        internal::opt(None) is None,
        listing::opt_text(Some(s)) == Some(s@),
        listing::opt_text(None) is None,
        parts::opt_id(Some(owned)) == Some(owned@),
        parts::opt_id(None) is None,
{
}

/// What a failure of the store is answered.
pub proof fn lemma_store_failures()
    ensures
        s3::internal(StoreError::LogFull) == (ErrorView {
            code: S3Code::InternalError,
            message: Some("fact log is full"@),
        }),
        s3::internal(StoreError::BadHex) == (ErrorView {
            code: S3Code::InternalError,
            message: Some("invalid hex in fact"@),
        }),
        s3::internal(StoreError::SumOverflow) == (ErrorView {
            code: S3Code::InternalError,
            message: Some("integer overflow"@),
        }),
{
}

/// A block that cannot be had is a reason to try again while nothing has been sent, and an
/// internal error afterwards.
pub proof fn lemma_unavailable(reason: Seq<char>)
    ensures
        s3::unavailable(true, reason) == (ErrorView {
            code: S3Code::SlowDown,
            message: Some("block unavailable: "@ + reason),
        }),
        s3::unavailable(false, reason) == (ErrorView {
            code: S3Code::InternalError,
            message: Some(reason),
        }),
{
}

/// Every request needs the right of its own name, on the bucket or the object that it is about.
pub proof fn lemma_rights(policy: Policy, bucket: Seq<char>, key: Seq<char>)
    ensures
        ({
            let who = Principal::Known(policy);
            let on_bucket = "arn:ss:bucket:::"@ + bucket;
            let on_object = "arn:ss:bucket:::"@ + bucket + "/"@ + key;
            &&& storage::list_buckets_error(who) is None == policy.allows(
                "s3:ListAllMyBuckets"@,
                "*"@,
            )
            &&& storage::create_bucket_error(who, bucket) is None == policy.allows(
                "s3:CreateBucket"@,
                on_bucket,
            )
            &&& storage::delete_bucket_error(who, bucket) is None == policy.allows(
                "s3:DeleteBucket"@,
                on_bucket,
            )
            &&& storage::list_error(who, bucket) is None == policy.allows("s3:ListBucket"@, on_bucket)
            &&& storage::batch_error(who, bucket) is None == policy.allows(
                "s3:DeleteObject"@,
                on_bucket,
            )
            &&& parts::create_upload_error(who, bucket, key) is None == policy.allows(
                "s3:PutObject"@,
                on_object,
            )
            &&& parts::list_uploads_error(who, bucket) is None == policy.allows(
                "s3:ListBucketMultipartUploads"@,
                on_bucket,
            )
        }),
{
}

/// Who is nobody may do nothing.
pub proof fn lemma_nobody(who: Principal, bucket: Seq<char>, key: Seq<char>)
    requires
        who is Anonymous || who is Unknown,
    ensures
        ({
            let denied = Some(ErrorView { code: S3Code::AccessDenied, message: None });
            &&& storage::list_buckets_error(who) == denied
            &&& storage::create_bucket_error(who, bucket) == denied
            &&& storage::delete_bucket_error(who, bucket) == denied
            &&& storage::list_error(who, bucket) == denied
            &&& storage::batch_error(who, bucket) == denied
            &&& parts::create_upload_error(who, bucket, key) == denied
            &&& parts::list_uploads_error(who, bucket) == denied
        }),
{
}

/// A write is refused for want of a right first, then for want of room, then for want of a body.
pub proof fn lemma_put_refused(
    b: StorageBackend,
    who: Principal,
    bucket: Seq<char>,
    key: Seq<char>,
    has_body: bool,
)
    ensures
        ({
            let denied = s3::denial(who, "s3:PutObject"@, Some(bucket), Some(key));
            let refused = s3::refusal(b.disk_guard);
            b.put_error(who, bucket, key, has_body) == if denied is Some {
                denied
            } else if refused is Some {
                refused
            } else if has_body {
                None
            } else {
                Some(
                    ErrorView { code: S3Code::InvalidRequest, message: Some("Missing body"@) },
                )
            }
        }),
{
}

/// A copy is refused for want of a right first, then for want of a source, then for want of room in
/// the log.
pub proof fn lemma_copy_refused(
    b: StorageBackend,
    who: Principal,
    bucket: Seq<char>,
    key: Seq<char>,
    from: String,
    name: String,
)
    ensures
        ({
            let denied = s3::denial(who, "s3:PutObject"@, Some(bucket), Some(key));
            let row = (from@, name@);
            &&& b.copy_error(
                who,
                bucket,
                key,
                CopySource::Bucket { bucket: from, key: name },
            ) == if denied is Some {
                denied
            } else if !b.db@.objects.dom().contains(row) || b.db@.objects[row].deleted {
                Some(
                    ErrorView {
                        code: S3Code::NoSuchKey,
                        message: Some("Source object not found"@),
                    },
                )
            } else if b.db@.last_seq == i64::MAX {
                Some(
                    ErrorView {
                        code: S3Code::InternalError,
                        message: Some("fact log is full"@),
                    },
                )
            } else {
                None
            }
            &&& denied is None ==> b.copy_error(
                who,
                bucket,
                key,
                CopySource::AccessPoint,
            ) == Some(
                ErrorView {
                    code: S3Code::NotImplemented,
                    message: Some("AccessPoint copy source not supported"@),
                },
            )
        }),
{
}

/// A read is refused for want of a right first, then for want of an object, then for a range that
/// the object does not have.
pub proof fn lemma_get_refused(
    s: StoreView,
    who: Principal,
    bucket: Seq<char>,
    key: Seq<char>,
    range: Option<Range>,
)
    ensures
        ({
            let denied = s3::denial(who, "s3:GetObject"@, Some(bucket), Some(key));
            let k = (bucket, key);
            let e = storage::get_error(s, who, bucket, key, range);
            &&& denied is Some ==> e == denied
            &&& denied is None && !is_there(s.objects, k) ==> e == Some(
                ErrorView { code: S3Code::NoSuchKey, message: Some("Not found"@) },
            )
            &&& denied is None && is_there(s.objects, k) ==> e == storage::get_error(
                s,
                Principal::Trusted,
                bucket,
                key,
                range,
            )
            &&& denied is None && is_there(s.objects, k) && e is Some ==> range is Some && e
                == Some(
                ErrorView {
                    code: S3Code::InvalidRange,
                    message: Some("Requested range not satisfiable"@),
                },
            )
        }),
{
}

/// An upload has to be named by an id, and be there.
pub proof fn lemma_upload_refused(s: StoreView, bucket: Seq<char>, id: Seq<char>, text: Seq<char>)
    ensures
        parts::missing_upload(s, bucket, None) == Some(
            ErrorView { code: S3Code::InvalidRequest, message: Some("Invalid upload id"@) },
        ),
        !s.uploads.dom().contains((bucket, id)) ==> parts::missing_upload(s, bucket, Some(id))
            == Some(
            ErrorView { code: S3Code::NoSuchUpload, message: Some("Upload not found"@) },
        ),
        s.uploads.dom().contains((bucket, id)) ==> parts::missing_upload(s, bucket, Some(id))
            is None,
        parts::upload_error(s, bucket, text) == parts::missing_upload(
            s,
            bucket,
            multipart::canonical_uuid(text),
        ),
{
}

/// An upload is put together only under the key that it was started for, from parts whose etags
/// can be read, and where the log has room.
pub proof fn lemma_complete_refused(
    b: StorageBackend,
    bucket: Seq<char>,
    key: Seq<char>,
    id: Option<Seq<char>>,
)
    ensures
        ({
            let missing = parts::missing_upload(b.db@, bucket, id);
            let e = b.complete_error(bucket, key, id);
            &&& missing is Some ==> e == missing
            &&& missing is None ==> {
                let own = b.db@.uploads[(bucket, id.unwrap())];
                let found = parts::upload_parts(b.db@, bucket, id.unwrap());
                let readable = forall|i: int|
                    0 <= i < found.len() ==> codec::is_hex(
                        parts::unquoted(#[trigger] found[i].etag),
                    );
                &&& own != key ==> e == Some(
                    ErrorView {
                        code: S3Code::InvalidRequest,
                        message: Some("Key in request does not match key for this upload"@),
                    },
                )
                &&& own == key && !readable ==> e == Some(
                    ErrorView { code: S3Code::InternalError, message: Some("Invalid part etag"@) },
                )
                &&& own == key && readable && b.db@.last_seq == i64::MAX ==> e == Some(
                    ErrorView { code: S3Code::InternalError, message: Some("fact log is full"@) },
                )
                &&& own == key && readable && b.db@.last_seq < i64::MAX ==> e is None
            }
        }),
{
}

/// A part is copied into an upload that is there, from an object that is there.
pub proof fn lemma_part_copy_refused(
    s: StoreView,
    bucket: Seq<char>,
    upload_id: Seq<char>,
    from: String,
    name: String,
)
    ensures
        ({
            let missing = parts::upload_error(s, bucket, upload_id);
            let source = CopySource::Bucket { bucket: from, key: name };
            parts::part_copy_error(s, bucket, upload_id, source) == if missing is Some {
                missing
            } else if !is_there(s.objects, (from@, name@)) {
                Some(
                    ErrorView {
                        code: S3Code::NoSuchKey,
                        message: Some("Source object not found"@),
                    },
                )
            } else {
                None
            }
        }),
{
}

/// The references of an object are named after it, and those of an upload after the upload.
pub proof fn lemma_reference_ids(bucket: Seq<char>, key: Seq<char>, other: Seq<char>)
    ensures
        s3::object_ref(bucket, key) == "obj:"@ + bucket + ":"@ + key,
        s3::upload_ref(bucket, key) == "upload:"@ + bucket + ":"@ + key,
        s3::object_ref(bucket, key) == s3::object_ref(bucket, other) ==> key == other,
        s3::quoted(key) == "\""@ + key + "\""@,
{
    if s3::object_ref(bucket, key) == s3::object_ref(bucket, other) {
        let head = "obj:"@ + bucket + ":"@;
        assert((head + key).skip(head.len() as int) =~= key);
        assert((head + other).skip(head.len() as int) =~= other);
    }
}

// ── buckets ──────────────────────────────────────────────────────────────────

/// A time, and the epoch in place of one before it.
pub open spec fn since_epoch(micros: i64) -> int {
    if micros > 0 {
        micros as int
    } else {
        0
    }
}

/// The object under `k` is there and is not deleted.
pub open spec fn is_there(
    objects: Map<(Seq<char>, Seq<char>), ObjectView>,
    k: (Seq<char>, Seq<char>),
) -> bool {
    objects.dom().contains(k) && !objects[k].deleted
}

/// `e` is a bucket with an object, and the time of one of its objects.
pub open spec fn is_dated(
    objects: Map<(Seq<char>, Seq<char>), ObjectView>,
    e: (Seq<char>, u64),
) -> bool {
    exists|k: (Seq<char>, Seq<char>)| #[trigger]
        is_there(objects, k) && k.0 == e.0 && e.1 == since_epoch(objects[k].updated_at)
}

/// A bucket is shown with a time that is not later.
pub open spec fn is_shown(shown: Seq<(Seq<char>, u64)>, bucket: Seq<char>, micros: int) -> bool {
    exists|i: int| 0 <= i < shown.len() && (#[trigger] shown[i]).0 == bucket && shown[i].1 <= micros
}

/// The buckets that are shown are those with an object that is not deleted, each once and in
/// order, with the time of the oldest such object, and never a time before the epoch.
pub proof fn lemma_buckets(
    objects: Map<(Seq<char>, Seq<char>), ObjectView>,
    rows: Seq<(Seq<char>, i64)>,
)
    requires
        listing::bucket_listing(objects, rows),
    ensures
        ({
            let shown = storage::dated(rows);
            &&& forall|i: int, j: int|
                0 <= i < j < shown.len() ==> (#[trigger] shown[i]).0.before((#[trigger] shown[j]).0)
            &&& forall|k: (Seq<char>, Seq<char>)| #[trigger]
                is_there(objects, k) ==> is_shown(shown, k.0, since_epoch(objects[k].updated_at))
            &&& forall|i: int| 0 <= i < shown.len() ==> is_dated(objects, #[trigger] shown[i])
        }),
{
    let shown = storage::dated(rows);
    assert forall|i: int, j: int| 0 <= i < j < shown.len() implies (#[trigger] shown[i]).0.before(
        (#[trigger] shown[j]).0,
    ) by {
        assert(rows[i].0.before(rows[j].0));
    }
    assert forall|k: (Seq<char>, Seq<char>)| #[trigger] is_there(objects, k) implies is_shown(
        shown,
        k.0,
        since_epoch(objects[k].updated_at),
    ) by {
        assert(store::live(objects, k));
        let i = choose|i: int| 0 <= i < rows.len() && (#[trigger] rows[i]).0 == k.0;
        assert(listing::is_earliest(objects, rows[i].0, rows[i].1));
        assert(shown[i].0 == k.0);
    }
    assert forall|i: int| 0 <= i < shown.len() implies is_dated(objects, #[trigger] shown[i]) by {
        assert(listing::is_earliest(objects, rows[i].0, rows[i].1));
        let k = choose|k: (Seq<char>, Seq<char>)| #[trigger]
            store::live(objects, k) && k.0 == rows[i].0 && objects[k].updated_at == rows[i].1;
        assert(is_there(objects, k));
    }
}

// ── users ────────────────────────────────────────────────────────────────────

/// A user is found by the access key, with the secret and the policy that belong to it.
pub proof fn lemma_user(s: StoreView, access_key: Seq<char>, r: Option<(String, String)>)
    requires
        facts::is_user(s, access_key, r),
    ensures
        !s.users.dom().contains(access_key) ==> r is None,
        s.users.dom().contains(access_key) ==> (r matches Some(u) && u.0@
            == s.users[access_key].secret_key && u.1@ == s.users[access_key].policy),
{
}

/// The secret of a user is told where its record can be read; who is nobody is told so.
pub proof fn lemma_secret(
    secret: String,
    policy: String,
    readable: bool,
    r: Result<String, S3Error>,
)
    ensures
        s3::secret_answer(Some((secret, policy)), true, r) ==> (r matches Ok(t) && t@ == secret@),
        s3::secret_answer(Some((secret, policy)), false, r) ==> (r matches Err(e) && e.code
            == S3Code::InternalError && e.message is None),
        s3::secret_answer(None, readable, r) ==> (r matches Err(e) && e.code
            == S3Code::InvalidAccessKeyId && e.message is None),
{
}

} // verus!
