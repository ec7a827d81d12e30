//! The policy engine and the replication-queue entry.

use vstd::prelude::*;

use crate::text;

verus! {

/// Blocks that have failed this many replication attempts are surfaced as "stuck".
pub const REPLICATION_STUCK_ATTEMPTS: i32 = 10;

/// One pending block replication for the local site, as read from the queue.
#[derive(Debug, Clone)]
pub struct ReplicationEntry {
    pub hash: Vec<u8>,
    /// Drives backoff ordering.
    pub next_attempt_at: i64,
    /// Prior failure count, drives the backoff schedule.
    pub attempts: i32,
    /// Original enqueue time (ms epoch); preserved across reschedules.
    pub enqueued_at: i64,
}

/// The contents of a queue entry.
pub struct EntryView {
    pub hash: Seq<u8>,
    pub next_attempt_at: i64,
    pub attempts: i32,
    pub enqueued_at: i64,
}

impl View for ReplicationEntry {
    type V = EntryView;

    open spec fn view(&self) -> EntryView {
        EntryView {
            hash: self.hash@,
            next_attempt_at: self.next_attempt_at,
            attempts: self.attempts,
            enqueued_at: self.enqueued_at,
        }
    }
}

// ── Policy engine ────────────────────────────────────────────────────────────

#[derive(Debug, Clone)]
pub struct Policy {
    pub statements: Vec<PolicyStatement>,
}

#[derive(Debug, Clone)]
pub struct PolicyStatement {
    pub effect: String,
    pub actions: Vec<String>,
    pub resources: Vec<String>,
}

/// Whether `pattern` matches `value`: a trailing `*` stands for any rest, everything else for
/// itself.
pub open spec fn wildcard(pattern: Seq<char>, value: Seq<char>) -> bool {
    if pattern.len() > 0 && pattern.last() == '*' {
        pattern.drop_last().is_prefix_of(value)
    } else {
        pattern == value
    }
}

/// One of the patterns matches `value`.
pub open spec fn any_wildcard(patterns: Seq<String>, value: Seq<char>) -> bool {
    exists|i: int| 0 <= i < patterns.len() && wildcard((#[trigger] patterns[i])@, value)
}

impl PolicyStatement {
    /// The statement speaks of `action` on `resource`.
    pub open spec fn applies(self, action: Seq<char>, resource: Seq<char>) -> bool {
        any_wildcard(self.actions@, action) && any_wildcard(self.resources@, resource)
    }
}

impl Policy {
    /// Some statement with effect `effect` speaks of `action` on `resource`.
    pub open spec fn has(self, effect: Seq<char>, action: Seq<char>, resource: Seq<char>) -> bool {
        exists|i: int|
            0 <= i < self.statements@.len() && (#[trigger] self.statements@[i]).applies(
                action,
                resource,
            ) && self.statements@[i].effect@ == effect
    }

    /// A request is allowed where some statement allows it and none denies it.
    pub open spec fn allows(self, action: Seq<char>, resource: Seq<char>) -> bool {
        self.has("Allow"@, action, resource) && !self.has("Deny"@, action, resource)
    }

    pub fn is_allowed(&self, action: &str, resource: &str) -> (r: bool)
        ensures
            r == self.allows(action@, resource@),
    {
        proof {
            reveal_strlit("Allow");
            reveal_strlit("Deny");
            assert("Allow"@.len() != "Deny"@.len());
        }
        let mut allowed = false;
        let mut i: usize = 0;
        while i < self.statements.len()
            invariant
                i <= self.statements@.len(),
                "Allow"@ != "Deny"@,
                forall|j: int|
                    0 <= j < i ==> !((#[trigger] self.statements@[j]).applies(action@, resource@)
                        && self.statements@[j].effect@ == "Deny"@),
                allowed == exists|j: int|
                    0 <= j < i && (#[trigger] self.statements@[j]).applies(action@, resource@)
                        && self.statements@[j].effect@ == "Allow"@,
            decreases self.statements@.len() - i,
        {
            let stmt = &self.statements[i];
            let ghost was = allowed;
            if stmt.matches(action, resource) {
                if text::same_text(stmt.effect.as_str(), "Deny") {
                    assert(self.statements@[i as int].applies(action@, resource@));
                    return false;
                }
                if text::same_text(stmt.effect.as_str(), "Allow") {
                    allowed = true;
                }
            }
            proof {
                if was {
                    let j = choose|j: int|
                        0 <= j < i && (#[trigger] self.statements@[j]).applies(action@, resource@)
                            && self.statements@[j].effect@ == "Allow"@;
                    assert(self.statements@[j].applies(action@, resource@));
                }
                assert(*stmt == self.statements@[i as int]);
            }
            i += 1;
        }
        allowed
    }
}

impl PolicyStatement {
    pub fn matches(&self, action: &str, resource: &str) -> (r: bool)
        ensures
            r == self.applies(action@, resource@),
    {
        any_match(&self.actions, action) && any_match(&self.resources, resource)
    }
}

fn any_match(patterns: &Vec<String>, value: &str) -> (r: bool)
    ensures
        r == any_wildcard(patterns@, value@),
{
    let mut i: usize = 0;
    while i < patterns.len()
        invariant
            i <= patterns@.len(),
            forall|j: int| 0 <= j < i ==> !wildcard((#[trigger] patterns@[j])@, value@),
        decreases patterns@.len() - i,
    {
        if wildcard_match(patterns[i].as_str(), value) {
            assert(wildcard(patterns@[i as int]@, value@));
            return true;
        }
        i += 1;
    }
    false
}

/// Whether `pattern` matches `value`. Only a trailing `*` is a wildcard.
pub fn wildcard_match(pattern: &str, value: &str) -> (r: bool)
    ensures
        r == wildcard(pattern@, value@),
{
    let p = text::chars_of(pattern);
    if p.len() > 0 && p[p.len() - 1] == '*' {
        let v = text::chars_of(value);
        let prefix = vstd::slice::slice_subrange(p.as_slice(), 0, p.len() - 1);
        assert(prefix@ =~= pattern@.drop_last());
        text::chars_start_with(v.as_slice(), prefix)
    } else {
        text::same_text(pattern, value)
    }
}

/// The policy of the administrator: everything on everything.
pub fn admin_policy() -> (r: Policy)
    ensures
        r.statements@.len() == 1,
        r.statements@[0].effect@ == "Allow"@,
        r.statements@[0].actions@.len() == 1,
        r.statements@[0].actions@[0]@ == "*"@,
        r.statements@[0].resources@.len() == 1,
        r.statements@[0].resources@[0]@ == "*"@,
{
    let mut actions: Vec<String> = Vec::new();
    actions.push("*".to_string());
    let mut resources: Vec<String> = Vec::new();
    resources.push("*".to_string());
    let mut statements: Vec<PolicyStatement> = Vec::new();
    statements.push(PolicyStatement { effect: "Allow".to_string(), actions, resources });
    Policy { statements }
}

/// A matching denial decides, whatever else the policy says and in whatever order.
pub proof fn lemma_deny_decides(policy: Policy, i: int, action: Seq<char>, resource: Seq<char>)
    requires
        0 <= i < policy.statements@.len(),
        policy.statements@[i].effect@ == "Deny"@,
        policy.statements@[i].applies(action, resource),
    ensures
        !policy.allows(action, resource),
{
}

/// What no statement speaks of is refused.
pub proof fn lemma_refused_by_default(policy: Policy, action: Seq<char>, resource: Seq<char>)
    requires
        forall|i: int|
            0 <= i < policy.statements@.len() ==> !(#[trigger] policy.statements@[i]).applies(
                action,
                resource,
            ),
    ensures
        !policy.allows(action, resource),
{
}

/// `*` matches everything, and a pattern without a trailing `*` matches itself alone.
pub proof fn lemma_wildcard(pattern: Seq<char>, value: Seq<char>)
    ensures
        wildcard(seq!['*'], value),
        pattern.len() == 0 || pattern.last() != '*' ==> (wildcard(pattern, value) <==> pattern
            == value),
{
    assert(seq!['*'].drop_last() =~= Seq::<char>::empty());
    assert(value.subrange(0, 0) =~= Seq::<char>::empty());
}

/// The administrator's policy allows every request.
pub proof fn lemma_admin_allows(policy: Policy, action: Seq<char>, resource: Seq<char>)
    requires
        policy.statements@.len() == 1,
        policy.statements@[0].effect@ == "Allow"@,
        policy.statements@[0].actions@.len() == 1,
        policy.statements@[0].actions@[0]@ == "*"@,
        policy.statements@[0].resources@.len() == 1,
        policy.statements@[0].resources@[0]@ == "*"@,
    ensures
        policy.allows(action, resource),
{
    reveal_strlit("*");
    reveal_strlit("Allow");
    reveal_strlit("Deny");
    assert("Allow"@.len() != "Deny"@.len());
    assert("*"@ =~= seq!['*']);
    lemma_wildcard("*"@, action);
    lemma_wildcard("*"@, resource);
    let s = policy.statements@[0];
    assert(wildcard(s.actions@[0]@, action));
    assert(wildcard(s.resources@[0]@, resource));
    assert(s.applies(action, resource));
}

} // verus!
