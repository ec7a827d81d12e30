//! Ready-made policies for access keys.

use vstd::prelude::*;

use crate::db;
use crate::db::{Policy, PolicyStatement};
use crate::s3;
use crate::text;

verus! {

/// What an access key is for.
#[derive(PartialEq, Eq, Structural, Clone, Copy, Debug)]
pub enum Preset {
    /// Get, head, and list operations.
    ReadOnly,
    /// All object and bucket operations.
    ReadWrite,
    /// Unrestricted access.
    Admin,
}

/// The preset of a name.
pub open spec fn preset_named(name: Seq<char>) -> Option<Preset> {
    if name == "readonly"@ {
        Some(Preset::ReadOnly)
    } else if name == "readwrite"@ {
        Some(Preset::ReadWrite)
    } else if name == "admin"@ {
        Some(Preset::Admin)
    } else {
        None
    }
}

pub fn parse_preset(name: &str) -> (r: Option<Preset>)
    ensures
        r == preset_named(name@),
{
    if text::same_text(name, "readonly") {
        Some(Preset::ReadOnly)
    } else if text::same_text(name, "readwrite") {
        Some(Preset::ReadWrite)
    } else if text::same_text(name, "admin") {
        Some(Preset::Admin)
    } else {
        None
    }
}

/// The actions of a preset.
pub open spec fn covers(preset: Preset, action: Seq<char>) -> bool {
    match preset {
        Preset::ReadOnly => "s3:Get"@.is_prefix_of(action) || "s3:Head"@.is_prefix_of(action)
            || "s3:List"@.is_prefix_of(action),
        Preset::ReadWrite => "s3:"@.is_prefix_of(action),
        Preset::Admin => true,
    }
}

/// The resources of a preset: everything, or one bucket and what is in it. The name of the
/// bucket is a pattern like any other.
pub open spec fn reaches(preset: Preset, bucket: Option<Seq<char>>, resource: Seq<char>) -> bool {
    match bucket {
        None => true,
        Some(b) => preset is Admin || db::wildcard("arn:ss:bucket:::"@ + b, resource) || (
        "arn:ss:bucket:::"@ + b + "/"@).is_prefix_of(resource),
    }
}

fn one(a: &str) -> (r: Vec<String>)
    ensures
        r@.len() == 1,
        r@[0]@ == a@,
{
    let mut v: Vec<String> = Vec::new();
    v.push(a.to_string());
    v
}

/// A pattern that ends in `*` matches what starts with the rest.
proof fn lemma_any_rest(head: Seq<char>, value: Seq<char>)
    ensures
        db::wildcard(head + "*"@, value) == head.is_prefix_of(value),
{
    reveal_strlit("*");
    assert((head + "*"@).last() == '*');
    assert((head + "*"@).drop_last() =~= head);
}

fn actions_of(preset: Preset) -> (r: Vec<String>)
    ensures
        forall|action: Seq<char>| #[trigger]
            db::any_wildcard(r@, action) == covers(preset, action),
{
    let mut v: Vec<String> = Vec::new();
    match preset {
        Preset::ReadOnly => {
            v.push(text::join2("s3:Get", "*"));
            v.push(text::join2("s3:Head", "*"));
            v.push(text::join2("s3:List", "*"));
        },
        Preset::ReadWrite => {
            v.push(text::join2("s3:", "*"));
        },
        Preset::Admin => {
            v.push("*".to_string());
        },
    }
    proof {
        assert forall|action: Seq<char>| #[trigger]
            db::any_wildcard(v@, action) == covers(preset, action) by {
            lemma_any_rest("s3:Get"@, action);
            lemma_any_rest("s3:Head"@, action);
            lemma_any_rest("s3:List"@, action);
            lemma_any_rest("s3:"@, action);
            lemma_any_rest(Seq::empty(), action);
            assert(Seq::<char>::empty() + "*"@ =~= "*"@);
            if preset is ReadOnly {
                assert(db::wildcard(v@[0]@, action) == "s3:Get"@.is_prefix_of(action));
                assert(db::wildcard(v@[1]@, action) == "s3:Head"@.is_prefix_of(action));
                assert(db::wildcard(v@[2]@, action) == "s3:List"@.is_prefix_of(action));
            } else {
                assert(db::wildcard(v@[0]@, action) == covers(preset, action));
            }
        }
    }
    v
}

fn resources_of(preset: Preset, bucket: Option<&str>) -> (r: Vec<String>)
    ensures
        forall|resource: Seq<char>| #[trigger]
            db::any_wildcard(r@, resource) == reaches(preset, s3::opt(bucket), resource),
{
    let confined = match bucket {
        Some(_) => match preset {
            Preset::Admin => false,
            _ => true,
        },
        None => false,
    };
    if confined {
        let b = bucket.unwrap();
        let mut v = one(text::join2("arn:ss:bucket:::", b).as_str());
        v.push(text::join4("arn:ss:bucket:::", b, "/", "*"));
        proof {
            assert forall|resource: Seq<char>| #[trigger]
                db::any_wildcard(v@, resource) == reaches(preset, s3::opt(bucket), resource) by {
                let whole = "arn:ss:bucket:::"@ + b@;
                lemma_any_rest(whole + "/"@, resource);
                assert(v@[1]@ == (whole + "/"@) + "*"@);
                assert(db::wildcard(v@[1]@, resource) == (whole + "/"@).is_prefix_of(resource));
                assert(db::wildcard(v@[0]@, resource) == db::wildcard(whole, resource));
            }
        }
        v
    } else {
        let v = one("*");
        proof {
            assert forall|resource: Seq<char>| #[trigger]
                db::any_wildcard(v@, resource) == reaches(preset, s3::opt(bucket), resource) by {
                lemma_any_rest(Seq::empty(), resource);
                assert(Seq::<char>::empty() + "*"@ =~= "*"@);
                assert(db::wildcard(v@[0]@, resource));
            }
        }
        v
    }
}

/// The policy of a preset, for all buckets or for one. The administrator is not restricted.
pub fn preset_policy(preset: Preset, bucket: Option<&str>) -> (r: Policy)
    ensures
        forall|action: Seq<char>, resource: Seq<char>| #[trigger]
            r.allows(action, resource) == (covers(preset, action) && reaches(
                preset,
                s3::opt(bucket),
                resource,
            )),
{
    let actions = actions_of(preset);
    let resources = resources_of(preset, bucket);
    let mut statements: Vec<PolicyStatement> = Vec::new();
    statements.push(PolicyStatement { effect: "Allow".to_string(), actions, resources });
    let r = Policy { statements };
    proof {
        reveal_strlit("Allow");
        reveal_strlit("Deny");
        assert("Allow"@.len() != "Deny"@.len());
        let s = r.statements@[0];
        assert forall|action: Seq<char>, resource: Seq<char>| #[trigger]
            r.allows(action, resource) == (covers(preset, action) && reaches(
                preset,
                s3::opt(bucket),
                resource,
            )) by {
            assert(db::any_wildcard(s.actions@, action) == covers(preset, action));
            assert(db::any_wildcard(s.resources@, resource) == reaches(
                preset,
                s3::opt(bucket),
                resource,
            ));
            assert(s.applies(action, resource) == (covers(preset, action) && reaches(
                preset,
                s3::opt(bucket),
                resource,
            )));
        }
    }
    r
}

/// A key for one bucket opens no other: not the bucket itself, and nothing in it.
pub proof fn lemma_confined(preset: Preset, bucket: Seq<char>, other: Seq<char>, key: Seq<char>)
    requires
        !(preset is Admin),
        !bucket.contains('*'),
        !other.contains('/'),
        bucket != other,
        !bucket.contains('/'),
    ensures
        !reaches(preset, Some(bucket), s3::resource_of(Some(other), None)),
        !reaches(preset, Some(bucket), s3::resource_of(Some(other), Some(key))),
        reaches(preset, Some(bucket), s3::resource_of(Some(bucket), None)),
        reaches(preset, Some(bucket), s3::resource_of(Some(bucket), Some(key))),
{
    reveal_strlit("arn:ss:bucket:::");
    reveal_strlit("/");
    let head = "arn:ss:bucket:::"@;
    let whole = head + bucket;
    let plain = s3::resource_of(Some(other), None);
    let inside = s3::resource_of(Some(other), Some(key));
    assert(head.len() == 16);
    assert(whole.last() != '*') by {
        if bucket.len() > 0 {
            assert(whole.last() == bucket.last());
            assert(bucket.contains(bucket.last()));
        } else {
            assert(whole.last() == head.last());
        }
    }
    // The bucket itself.
    if plain == whole {
        assert(plain.skip(16) =~= other);
        assert(whole.skip(16) =~= bucket);
    }
    if inside == whole {
        assert(inside[16 + other.len() as int] == '/');
        assert(whole[16 + other.len() as int] == bucket[other.len() as int]);
        assert(bucket.contains(bucket[other.len() as int]));
    }
    // What is in it.
    let below = whole + "/"@;
    let n = 16 + bucket.len() as int;
    assert(below[n] == '/');
    if below.is_prefix_of(plain) {
        assert(plain[n] == below[n]);
        assert(plain[n] == other[bucket.len() as int]);
        assert(other.contains(other[bucket.len() as int]));
    }
    if below.is_prefix_of(inside) {
        assert(inside[n] == '/');
        if bucket.len() < other.len() {
            assert(inside[n] == other[bucket.len() as int]);
            assert(other.contains(other[bucket.len() as int]));
        } else if other.len() < bucket.len() {
            let m = 16 + other.len() as int;
            assert(inside[m] == '/');
            assert(below[m] == inside[m]);
            assert(below[m] == bucket[other.len() as int]);
            assert(bucket.contains(bucket[other.len() as int]));
        } else {
            assert forall|i: int| 0 <= i < bucket.len() implies bucket[i] == other[i] by {
                assert(below[16 + i] == inside[16 + i]);
            }
            assert(bucket =~= other);
        }
    }
    let own = s3::resource_of(Some(bucket), Some(key));
    assert(own.take(below.len() as int) =~= below);
    assert(below.is_prefix_of(own));
    assert(db::wildcard(whole, whole));
}

/// Each preset allows what the narrower ones do.
pub proof fn lemma_presets_widen(action: Seq<char>)
    ensures
        covers(Preset::ReadOnly, action) ==> covers(Preset::ReadWrite, action),
        covers(Preset::ReadWrite, action) ==> covers(Preset::Admin, action),
{
    reveal_strlit("s3:");
    reveal_strlit("s3:Get");
    reveal_strlit("s3:Head");
    reveal_strlit("s3:List");
    assert("s3:Get"@.take(3) =~= "s3:"@);
    assert("s3:Head"@.take(3) =~= "s3:"@);
    assert("s3:List"@.take(3) =~= "s3:"@);
    if covers(Preset::ReadOnly, action) {
        assert(action.take(3) =~= "s3:"@);
    }
}

} // verus!
