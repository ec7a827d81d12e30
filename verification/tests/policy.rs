use shardscape::db::{admin_policy, wildcard_match, Policy, PolicyStatement};
use shardscape::presets::{parse_preset, preset_policy, Preset};

// ── wildcard_match ────────────────────────────────────────────────────────

#[test]
fn wildcard_star_matches_anything() {
    assert!(wildcard_match("*", "s3:GetObject"));
    assert!(wildcard_match("*", ""));
    assert!(wildcard_match("*", "arn:ss:bucket:::my-bucket/key"));
}

#[test]
fn wildcard_exact_match() {
    assert!(wildcard_match("s3:GetObject", "s3:GetObject"));
    assert!(!wildcard_match("s3:GetObject", "s3:PutObject"));
    assert!(!wildcard_match("s3:GetObject", ""));
}

#[test]
fn wildcard_prefix_star() {
    assert!(wildcard_match("s3:*", "s3:GetObject"));
    assert!(wildcard_match("s3:*", "s3:PutObject"));
    assert!(wildcard_match("s3:*", "s3:"));
    assert!(!wildcard_match("s3:*", "iam:GetUser"));
}

#[test]
fn wildcard_arn_prefix() {
    assert!(wildcard_match("arn:ss:bucket:::my-bucket*", "arn:ss:bucket:::my-bucket/key"));
    assert!(wildcard_match("arn:ss:bucket:::my-bucket*", "arn:ss:bucket:::my-bucket"));
    assert!(!wildcard_match("arn:ss:bucket:::my-bucket*", "arn:ss:bucket:::other-bucket"));
}

#[test]
fn wildcard_empty_pattern_only_matches_empty() {
    assert!(wildcard_match("", ""));
    assert!(!wildcard_match("", "anything"));
}

#[test]
fn wildcard_star_only_in_prefix_position_does_not_match_suffix() {
    // Only suffix wildcards are supported; mid-string ones never match.
    assert!(!wildcard_match("s3:Get*Object", "s3:GetObject"));
}

// ── PolicyStatement::matches ──────────────────────────────────────────────

fn stmt(effect: &str, actions: &[&str], resources: &[&str]) -> PolicyStatement {
    PolicyStatement {
        effect: effect.to_string(),
        actions: actions.iter().map(|s| s.to_string()).collect(),
        resources: resources.iter().map(|s| s.to_string()).collect(),
    }
}

#[test]
fn statement_matches_exact_action_and_resource() {
    let s = stmt("Allow", &["s3:GetObject"], &["arn:ss:bucket:::my-bucket/key"]);
    assert!(s.matches("s3:GetObject", "arn:ss:bucket:::my-bucket/key"));
}

#[test]
fn statement_does_not_match_wrong_action() {
    let s = stmt("Allow", &["s3:GetObject"], &["arn:ss:bucket:::my-bucket/key"]);
    assert!(!s.matches("s3:PutObject", "arn:ss:bucket:::my-bucket/key"));
}

#[test]
fn statement_does_not_match_wrong_resource() {
    let s = stmt("Allow", &["s3:GetObject"], &["arn:ss:bucket:::my-bucket/key"]);
    assert!(!s.matches("s3:GetObject", "arn:ss:bucket:::other-bucket/key"));
}

#[test]
fn statement_wildcard_action_matches_all() {
    let s = stmt("Allow", &["*"], &["arn:ss:bucket:::my-bucket"]);
    assert!(s.matches("s3:GetObject", "arn:ss:bucket:::my-bucket"));
    assert!(s.matches("s3:DeleteObject", "arn:ss:bucket:::my-bucket"));
}

#[test]
fn statement_wildcard_resource_matches_all() {
    let s = stmt("Allow", &["s3:GetObject"], &["*"]);
    assert!(s.matches("s3:GetObject", "arn:ss:bucket:::any-bucket/any-key"));
}

#[test]
fn statement_multiple_actions_any_can_match() {
    let s = stmt("Allow", &["s3:GetObject", "s3:HeadObject"], &["*"]);
    assert!(s.matches("s3:GetObject", "*"));
    assert!(s.matches("s3:HeadObject", "*"));
    assert!(!s.matches("s3:PutObject", "*"));
}

// ── Policy::is_allowed ────────────────────────────────────────────────────

fn allow_all() -> Policy {
    Policy { statements: vec![stmt("Allow", &["*"], &["*"])] }
}

fn deny_all() -> Policy {
    Policy { statements: vec![stmt("Deny", &["*"], &["*"])] }
}

#[test]
fn policy_allow_all_permits_any_action() {
    let p = allow_all();
    assert!(p.is_allowed("s3:GetObject", "arn:ss:bucket:::b/k"));
    assert!(p.is_allowed("s3:DeleteBucket", "arn:ss:bucket:::b"));
}

#[test]
fn policy_deny_all_rejects_any_action() {
    let p = deny_all();
    assert!(!p.is_allowed("s3:GetObject", "arn:ss:bucket:::b/k"));
}

#[test]
fn policy_empty_statements_denies_everything() {
    let p = Policy { statements: vec![] };
    assert!(!p.is_allowed("s3:GetObject", "arn:ss:bucket:::b/k"));
}

#[test]
fn policy_deny_takes_precedence_over_allow() {
    let p = Policy {
        statements: vec![
            stmt("Allow", &["*"], &["*"]),
            stmt("Deny", &["s3:DeleteObject"], &["*"]),
        ],
    };
    assert!(p.is_allowed("s3:GetObject", "arn:ss:bucket:::b/k"));
    assert!(!p.is_allowed("s3:DeleteObject", "arn:ss:bucket:::b/k"));
}

#[test]
fn policy_deny_evaluated_regardless_of_order() {
    let p = Policy {
        statements: vec![
            stmt("Deny", &["s3:DeleteBucket"], &["*"]),
            stmt("Allow", &["*"], &["*"]),
        ],
    };
    assert!(!p.is_allowed("s3:DeleteBucket", "arn:ss:bucket:::b"));
    assert!(p.is_allowed("s3:GetObject", "arn:ss:bucket:::b/k"));
}

#[test]
fn policy_allow_specific_bucket_denies_other() {
    let p = Policy {
        statements: vec![stmt("Allow", &["*"], &["arn:ss:bucket:::allowed-bucket*"])],
    };
    assert!(p.is_allowed("s3:GetObject", "arn:ss:bucket:::allowed-bucket/key"));
    assert!(!p.is_allowed("s3:GetObject", "arn:ss:bucket:::forbidden-bucket/key"));
}

#[test]
fn policy_read_only_allows_get_denies_put() {
    let p = Policy {
        statements: vec![stmt(
            "Allow",
            &["s3:GetObject", "s3:HeadObject", "s3:ListBucket"],
            &["*"],
        )],
    };
    assert!(p.is_allowed("s3:GetObject", "arn:ss:bucket:::b/k"));
    assert!(p.is_allowed("s3:ListBucket", "arn:ss:bucket:::b"));
    assert!(!p.is_allowed("s3:PutObject", "arn:ss:bucket:::b/k"));
}

// ── presets ───────────────────────────────────────────────────────────────────

const READS: [&str; 4] = ["s3:GetObject", "s3:HeadObject", "s3:ListBucket", "s3:ListAllMyBuckets"];
const WRITES: [&str; 5] = [
    "s3:PutObject",
    "s3:DeleteObject",
    "s3:CreateBucket",
    "s3:DeleteBucket",
    "s3:AbortMultipartUpload",
];

#[test]
fn presets_go_by_their_names() {
    assert_eq!(parse_preset("readonly"), Some(Preset::ReadOnly));
    assert_eq!(parse_preset("readwrite"), Some(Preset::ReadWrite));
    assert_eq!(parse_preset("admin"), Some(Preset::Admin));
    assert_eq!(parse_preset("Admin"), None);
    assert_eq!(parse_preset(""), None);
}

#[test]
fn presets_allow_what_they_are_for() {
    let key = "arn:ss:bucket:::b/k";
    let read = preset_policy(Preset::ReadOnly, None);
    let write = preset_policy(Preset::ReadWrite, None);
    let admin = preset_policy(Preset::Admin, None);
    for action in READS {
        assert!(read.is_allowed(action, key) && write.is_allowed(action, key));
    }
    for action in WRITES {
        assert!(!read.is_allowed(action, key), "{action}");
        assert!(write.is_allowed(action, key), "{action}");
    }
    assert!(!write.is_allowed("iam:CreateUser", "*"));
    assert!(admin.is_allowed("iam:CreateUser", "*"));
    assert!(admin_policy().is_allowed("iam:CreateUser", "*"));
}

#[test]
fn a_preset_for_one_bucket_opens_no_other() {
    let p = preset_policy(Preset::ReadWrite, Some("photos"));
    assert!(p.is_allowed("s3:ListBucket", "arn:ss:bucket:::photos"));
    assert!(p.is_allowed("s3:PutObject", "arn:ss:bucket:::photos/2024/x.jpg"));
    assert!(!p.is_allowed("s3:PutObject", "arn:ss:bucket:::photos2/x.jpg"));
    assert!(!p.is_allowed("s3:ListBucket", "arn:ss:bucket:::photo"));
    assert!(!p.is_allowed("s3:ListAllMyBuckets", "*"));
    // The administrator is not restricted.
    let a = preset_policy(Preset::Admin, Some("photos"));
    assert!(a.is_allowed("s3:PutObject", "arn:ss:bucket:::other/x"));
}
