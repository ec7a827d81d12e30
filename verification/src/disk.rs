//! Disk-space write guard.
//!
//! A safety floor that keeps the node off the OS out-of-disk (`ENOSPC`) cliff.
//! When the data volume drops below `min_free_bytes` free, the node:
//!   - refuses local S3 writes (the S3 layer returns 503), and
//!   - pauses pulling replicated blocks (the drainer skips a cycle).
//!
//! It does NOT pause metadata application or GC — that's the point of a *reserve*
//! rather than a hard stop: the headroom keeps fact application and the GC reaper
//! working, so the node can always reclaim space and recover. A node that trips the
//! guard falls *behind*; it never corrupts, and it catches up once space frees.

use vstd::prelude::*;

use crate::config::Config;
use crate::rounding;
use crate::text;

verus! {

// ── sizes ────────────────────────────────────────────────────────────────────

/// The characters with the Unicode property `White_Space`.
pub open spec fn is_white(c: char) -> bool {
    let n = c as int;
    9 <= n <= 13 || n == 0x20 || n == 0x85 || n == 0xA0 || n == 0x1680 || 0x2000 <= n <= 0x200A || n
        == 0x2028 || n == 0x2029 || n == 0x202F || n == 0x205F || n == 0x3000
}

/// `s` without the white space at its start.
pub open spec fn trim_start(s: Seq<char>) -> Seq<char>
    decreases s.len(),
{
    if s.len() > 0 && is_white(s[0]) {
        trim_start(s.drop_first())
    } else {
        s
    }
}

/// `s` without the white space at its end.
pub open spec fn trim_end(s: Seq<char>) -> Seq<char>
    decreases s.len(),
{
    if s.len() > 0 && is_white(s.last()) {
        trim_end(s.drop_last())
    } else {
        s
    }
}

/// `s` without the white space around it.
pub open spec fn trimmed(s: Seq<char>) -> Seq<char> {
    trim_end(trim_start(s))
}

/// `s` with ASCII capitals as small letters.
pub open spec fn lowered(s: Seq<char>) -> Seq<char> {
    s.map_values(|c: char| text::fold(c))
}

/// What a number is made of.
pub open spec fn is_number_char(c: char) -> bool {
    text::is_digit(c) || c == '.'
}

/// How many characters of the number a size starts with.
pub open spec fn number_len(s: Seq<char>) -> nat
    decreases s.len(),
{
    if s.len() > 0 && is_number_char(s[0]) {
        1 + number_len(s.drop_first())
    } else {
        0
    }
}

/// A number has at least one digit, and at most one point, at `at` (behind the last digit
/// where there is none).
pub open spec fn is_number(s: Seq<char>, at: int) -> bool {
    &&& 0 <= at <= s.len()
    &&& text::all_digits(s.take(at))
    &&& at == s.len() || (s[at] == '.' && text::all_digits(s.skip(at + 1)))
    &&& exists|i: int| 0 <= i < s.len() && text::is_digit(#[trigger] s[i])
}

/// The digits behind the point.
pub open spec fn fraction_of(s: Seq<char>, at: int) -> Seq<char> {
    if at < s.len() {
        s.skip(at + 1)
    } else {
        seq![]
    }
}

/// The factor of a unit. Binary units (Ki/Mi/Gi/Ti) are powers of 1024; decimal ones
/// (K/M/G/T, KB/MB/…) are powers of 1000.
pub open spec fn unit_factor(u: Seq<char>) -> Option<nat> {
    if u == ""@ || u == "b"@ {
        Some(1)
    } else if u == "k"@ || u == "kb"@ {
        Some(1000)
    } else if u == "ki"@ || u == "kib"@ {
        Some(1024)
    } else if u == "m"@ || u == "mb"@ {
        Some(1_000_000)
    } else if u == "mi"@ || u == "mib"@ {
        Some(1_048_576)
    } else if u == "g"@ || u == "gb"@ {
        Some(1_000_000_000)
    } else if u == "gi"@ || u == "gib"@ {
        Some(1_073_741_824)
    } else if u == "t"@ || u == "tb"@ {
        Some(1_000_000_000_000)
    } else if u == "ti"@ || u == "tib"@ {
        Some(1_099_511_627_776)
    } else {
        None
    }
}

/// Why a size was refused.
#[derive(Debug)]
pub enum SizeError {
    Empty,
    /// With the size.
    InvalidNumber(String),
    /// With the unit and the size.
    UnknownUnit(String, String),
}

impl SizeError {
    /// The error in words.
    pub open spec fn text(self) -> Seq<char> {
        match self {
            SizeError::Empty => "empty size"@,
            SizeError::InvalidNumber(s) => "invalid number in size '"@ + s@ + "'"@,
            SizeError::UnknownUnit(u, s) => "unknown size unit '"@ + u@ + "' in '"@ + s@ + "'"@,
        }
    }

    pub fn message(&self) -> (r: String)
        ensures
            r@ == self.text(),
    {
        match self {
            SizeError::Empty => "empty size".to_string(),
            SizeError::InvalidNumber(s) => text::join3("invalid number in size '", s.as_str(), "'"),
            SizeError::UnknownUnit(u, s) => {
                let mut out = text::join4("unknown size unit '", u.as_str(), "' in '", s.as_str());
                text::push_text(&mut out, "'");
                out
            },
        }
    }
}

/// The size that `s` writes, in whole bytes, up to the largest 64-bit number; or why it writes
/// none.
pub open spec fn size_or_error(s: Seq<char>, r: Result<u64, SizeError>) -> bool {
    let t = trimmed(s);
    let n = number_len(t) as int;
    let num = t.take(n);
    let unit = lowered(trimmed(t.skip(n)));
    if t.len() == 0 {
        r matches Err(SizeError::Empty)
    } else if !(exists|at: int| is_number(num, at)) {
        r matches Err(SizeError::InvalidNumber(x)) && x@ == t
    } else if unit_factor(unit) is None {
        r matches Err(SizeError::UnknownUnit(u, x)) && u@ == unit && x@ == t
    } else {
        let at = choose|at: int| is_number(num, at);
        let fraction = fraction_of(num, at);
        r matches Ok(v) && v == rounding::capped(
            rounding::decimal_product(num.take(at), fraction, unit_factor(unit).unwrap()),
        )
    }
}

fn white(c: char) -> (r: bool)
    ensures
        r == is_white(c),
{
    let n: u32 = c as u32;
    proof {
        text::lemma_char_code(c);
    }
    (9 <= n && n <= 13) || n == 0x20 || n == 0x85 || n == 0xA0 || n == 0x1680 || (0x2000 <= n && n
        <= 0x200A) || n == 0x2028 || n == 0x2029 || n == 0x202F || n == 0x205F || n == 0x3000
}

/// The part of `v[from..to]` without the white space around it, as the positions of its ends.
fn trim_range(v: &Vec<char>, from: usize, to: usize) -> (r: (usize, usize))
    requires
        from <= to <= v@.len(),
    ensures
        from <= r.0 <= r.1 <= to,
        v@.subrange(r.0 as int, r.1 as int) == trimmed(v@.subrange(from as int, to as int)),
{
    let ghost all = v@.subrange(from as int, to as int);
    let mut a: usize = from;
    while a < to && white(v[a])
        invariant
            from <= a <= to <= v@.len(),
            all == v@.subrange(from as int, to as int),
            trim_start(v@.subrange(a as int, to as int)) == trim_start(all),
        decreases to - a,
    {
        assert(v@.subrange(a as int, to as int).drop_first() =~= v@.subrange(a + 1, to as int));
        a += 1;
    }
    let ghost head = v@.subrange(a as int, to as int);
    assert(trim_start(head) == head);
    let mut b: usize = to;
    while b > a && white(v[b - 1])
        invariant
            a <= b <= to <= v@.len(),
            head == v@.subrange(a as int, to as int),
            trim_end(v@.subrange(a as int, b as int)) == trim_end(head),
        decreases b - a,
    {
        assert(v@.subrange(a as int, b as int).drop_last() =~= v@.subrange(a as int, b - 1));
        b -= 1;
    }
    (a, b)
}

fn lower_text(v: &Vec<char>, from: usize, to: usize) -> (r: String)
    requires
        from <= to <= v@.len(),
    ensures
        r@ == lowered(v@.subrange(from as int, to as int)),
{
    let ghost all = lowered(v@.subrange(from as int, to as int));
    let mut out = String::new();
    let mut i: usize = from;
    assert(out@ =~= all.take(0));
    while i < to
        invariant
            from <= i <= to <= v@.len(),
            all == lowered(v@.subrange(from as int, to as int)),
            out@ == all.take(i - from),
        decreases to - i,
    {
        let c: char = text::fold_char(v[i]);
        out.push(c);
        assert(all.take(i + 1 - from) =~= all.take(i - from).push(c));
        i += 1;
    }
    assert(all.take(to - from) =~= all);
    out
}

/// How many characters of `v[from..to]` make up the number at its start.
fn number_end(v: &Vec<char>, from: usize, to: usize) -> (r: usize)
    requires
        from <= to <= v@.len(),
    ensures
        from <= r <= to,
        r - from == number_len(v@.subrange(from as int, to as int)),
        forall|i: int| from <= i < r ==> is_number_char(#[trigger] v@[i]),
{
    let ghost all = v@.subrange(from as int, to as int);
    let mut i: usize = from;
    while i < to && (('0' <= v[i] && v[i] <= '9') || v[i] == '.')
        invariant
            from <= i <= to <= v@.len(),
            all == v@.subrange(from as int, to as int),
            i - from + number_len(v@.subrange(i as int, to as int)) == number_len(all),
            forall|j: int| from <= j < i ==> is_number_char(#[trigger] v@[j]),
        decreases to - i,
    {
        assert(v@.subrange(i as int, to as int).drop_first() =~= v@.subrange(i + 1, to as int));
        i += 1;
    }
    i
}

/// Where a number has its point, there is one place for it.
proof fn lemma_one_point(s: Seq<char>, a: int, b: int)
    requires
        is_number(s, a),
        is_number(s, b),
    ensures
        a == b,
{
    if a < b {
        assert(s.take(b)[a] == '.');
        assert(text::is_digit(s.take(b)[a]));
    } else if b < a {
        assert(s.take(a)[b] == '.');
        assert(text::is_digit(s.take(a)[b]));
    }
}

fn digits_in(v: &Vec<char>, from: usize, to: usize) -> (r: Option<Vec<char>>)
    requires
        from <= to <= v@.len(),
    ensures
        r is Some == text::all_digits(v@.subrange(from as int, to as int)),
        r matches Some(d) ==> d@ == v@.subrange(from as int, to as int),
{
    let ghost all = v@.subrange(from as int, to as int);
    let mut out: Vec<char> = Vec::new();
    let mut i: usize = from;
    assert(out@ =~= all.take(0));
    while i < to
        invariant
            from <= i <= to <= v@.len(),
            all == v@.subrange(from as int, to as int),
            out@ == all.take(i - from),
            forall|j: int| 0 <= j < i - from ==> text::is_digit(#[trigger] all[j]),
        decreases to - i,
    {
        let c: char = v[i];
        assert(all[i - from] == c);
        if !('0' <= c && c <= '9') {
            assert(!text::is_digit(all[i - from]));
            return None;
        }
        out.push(c);
        assert(all.take(i + 1 - from) =~= all.take(i - from).push(c));
        i += 1;
    }
    assert(all.take(to - from) =~= all);
    Some(out)
}

/// The digits before and behind the point of `v[from..to]`, where that is a number.
fn split_number(v: &Vec<char>, from: usize, to: usize) -> (r: Option<(Vec<char>, Vec<char>)>)
    requires
        from <= to <= v@.len(),
        forall|i: int| from <= i < to ==> is_number_char(#[trigger] v@[i]),
    ensures
        ({
            let s = v@.subrange(from as int, to as int);
            &&& r is Some == (exists|at: int| is_number(s, at))
            &&& r matches Some((w, f)) ==> {
                let at = choose|at: int| is_number(s, at);
                &&& w@ == s.take(at)
                &&& f@ == fraction_of(s, at)
                &&& text::all_digits(w@)
                &&& text::all_digits(f@)
            }
        }),
{
    let ghost s = v@.subrange(from as int, to as int);
    let mut at: usize = from;
    while at < to && v[at] != '.'
        invariant
            from <= at <= to <= v@.len(),
            s == v@.subrange(from as int, to as int),
            forall|i: int| from <= i < to ==> is_number_char(#[trigger] v@[i]),
            forall|j: int| 0 <= j < at - from ==> text::is_digit(#[trigger] s[j]),
        decreases to - at,
    {
        assert(is_number_char(v@[at as int]));
        at += 1;
    }
    let ghost p = at - from;
    assert forall|x: int| is_number(s, x) implies x == p by {
        if x < p {
            assert(text::is_digit(s[x]));
        } else if x > p {
            assert(s.take(x)[p] == '.');
        }
    }
    let whole = match digits_in(v, from, at) {
        Some(w) => w,
        None => {
            proof {
                assert(v@.subrange(from as int, at as int) =~= s.take(p));
            }
            return None;
        },
    };
    assert(v@.subrange(from as int, at as int) =~= s.take(p));
    let fraction = if at < to {
        match digits_in(v, at + 1, to) {
            Some(f) => f,
            None => {
                assert(v@.subrange(at + 1, to as int) =~= s.skip(p + 1));
                return None;
            },
        }
    } else {
        Vec::new()
    };
    proof {
        if at < to {
            assert(v@.subrange(at + 1, to as int) =~= s.skip(p + 1));
        }
        assert(fraction@ =~= fraction_of(s, p));
    }
    if whole.len() == 0 && fraction.len() == 0 {
        proof {
            assert forall|x: int| !is_number(s, x) by {
                if is_number(s, x) {
                    let i = choose|i: int| 0 <= i < s.len() && text::is_digit(#[trigger] s[i]);
                    assert(s[i] != '.');
                }
            }
        }
        return None;
    }
    proof {
        if whole@.len() > 0 {
            assert(s.take(p)[0] == s[0]);
            assert(text::is_digit(s[0]));
        } else {
            assert(s.skip(p + 1)[0] == s[p + 1]);
            assert(text::is_digit(s[p + 1]));
        }
        assert(is_number(s, p));
        lemma_one_point(s, p, choose|x: int| is_number(s, x));
    }
    Some((whole, fraction))
}

fn factor_of(u: &str) -> (r: Option<u64>)
    ensures
        r is Some == unit_factor(u@) is Some,
        r matches Some(f) ==> unit_factor(u@) == Some(f as nat) && 1 <= f <= 0x100_0000_0000,
{
    if text::same_text(u, "") || text::same_text(u, "b") {
        Some(1)
    } else if text::same_text(u, "k") || text::same_text(u, "kb") {
        Some(1000)
    } else if text::same_text(u, "ki") || text::same_text(u, "kib") {
        Some(1024)
    } else if text::same_text(u, "m") || text::same_text(u, "mb") {
        Some(1_000_000)
    } else if text::same_text(u, "mi") || text::same_text(u, "mib") {
        Some(1_048_576)
    } else if text::same_text(u, "g") || text::same_text(u, "gb") {
        Some(1_000_000_000)
    } else if text::same_text(u, "gi") || text::same_text(u, "gib") {
        Some(1_073_741_824)
    } else if text::same_text(u, "t") || text::same_text(u, "tb") {
        Some(1_000_000_000_000)
    } else if text::same_text(u, "ti") || text::same_text(u, "tib") {
        Some(1_099_511_627_776)
    } else {
        None
    }
}

/// Parses a human size like "10Gi", "500Mi", "1Ti", "2GB", or a plain byte count.
/// Binary units (Ki/Mi/Gi/Ti) are powers of 1024; decimal (K/M/G/T, KB/MB/…) are
/// powers of 1000; a bare number (or "B") is bytes.
pub fn parse_size(s: &str) -> (r: Result<u64, SizeError>)
    ensures
        size_or_error(s@, r),
{
    let v = text::chars_of(s);
    let ghost t = trimmed(s@);
    assert(v@.subrange(0, v@.len() as int) =~= s@);
    let (from, to) = trim_range(&v, 0, v.len());
    if from == to {
        return Err(SizeError::Empty);
    }
    let end: usize = number_end(&v, from, to);
    let ghost n = number_len(t) as int;
    assert(v@.subrange(from as int, end as int) =~= t.take(n));
    assert(v@.subrange(end as int, to as int) =~= t.skip(n));
    let (whole, fraction) = match split_number(&v, from, end) {
        Some(parts) => parts,
        None => {
            return Err(SizeError::InvalidNumber(text::text_of(v.as_slice(), from, to)));
        },
    };
    let (unit_from, unit_to) = trim_range(&v, end, to);
    let unit = lower_text(&v, unit_from, unit_to);
    match factor_of(unit.as_str()) {
        Some(factor) => Ok(rounding::multiply_decimal(&whole, &fraction, factor)),
        None => Err(SizeError::UnknownUnit(unit, text::text_of(v.as_slice(), from, to))),
    }
}

/// A bare number is that many bytes.
pub proof fn lemma_bare_number(digits: Seq<char>, r: Result<u64, SizeError>)
    requires
        text::all_digits(digits),
        digits.len() > 0,
        text::digits_value(digits) <= u64::MAX,
        size_or_error(digits, r),
    ensures
        r matches Ok(v) && v == text::digits_value(digits),
{
    reveal_strlit("");
    lemma_digits_trimmed(digits);
    lemma_digits_number(digits);
    assert(digits.take(digits.len() as int) =~= digits);
    assert(digits.skip(digits.len() as int) =~= Seq::<char>::empty());
    assert(trimmed(Seq::<char>::empty()) =~= Seq::<char>::empty());
    assert(lowered(Seq::<char>::empty()) =~= ""@);
    let n = digits.len() as int;
    assert(text::is_digit(digits[0]));
    assert(is_number(digits, n));
    lemma_one_point(digits, n, choose|at: int| is_number(digits, at));
    assert(digits + Seq::<char>::empty() =~= digits);
    assert(rounding::pow10(0) == 1);
    assert(text::digits_value(digits) * 1 / 1 == text::digits_value(digits));
}

proof fn lemma_digits_trimmed(s: Seq<char>)
    requires
        text::all_digits(s),
    ensures
        trimmed(s) == s,
{
    if s.len() > 0 {
        assert(text::is_digit(s[0]));
        assert(text::is_digit(s[s.len() - 1]));
        text::lemma_char_code(s[0]);
        text::lemma_char_code(s.last());
    }
}

proof fn lemma_digits_number(s: Seq<char>)
    requires
        text::all_digits(s),
    ensures
        number_len(s) == s.len(),
    decreases s.len(),
{
    if s.len() > 0 {
        assert(text::is_digit(s[0]));
        assert forall|i: int| 0 <= i < s.drop_first().len() implies text::is_digit(
            #[trigger] s.drop_first()[i],
        ) by {
            assert(text::is_digit(s[i + 1]));
        }
        lemma_digits_number(s.drop_first());
    }
}

/// The binary unit that a size is shown in: how often it is divided by 1024.
pub open spec fn shown_unit(n: nat) -> (nat, Seq<char>) {
    if n < 1024 {
        (1, "B"@)
    } else if n < 1_048_576 {
        (1024, "Ki"@)
    } else if n < 1_073_741_824 {
        (1_048_576, "Mi"@)
    } else if n < 1_099_511_627_776 {
        (1_073_741_824, "Gi"@)
    } else {
        (1_099_511_627_776, "Ti"@)
    }
}

/// A byte count as people read it: as it is where it is below 1024, else in the largest binary
/// unit that it reaches, up to Ti, with one digit behind the point.
pub open spec fn bytes_text(bytes: nat) -> Seq<char> {
    let (unit, name) = shown_unit(bytes);
    if unit == 1 {
        text::decimal_text(bytes) + name
    } else {
        let tenths = rounding::nearest(10 * bytes, unit);
        text::decimal_text(tenths / 10) + "."@ + text::decimal_text(tenths % 10) + name
    }
}

fn with_tenths(n: u128, unit: u128, name: &str) -> (r: String)
    requires
        1024 <= unit <= 1_099_511_627_776,
        n <= u64::MAX,
        n < unit * 1024 || unit == 1_099_511_627_776,
    ensures
        ({
            let tenths = rounding::nearest(10 * n as nat, unit as nat);
            r@ == text::decimal_text(tenths / 10) + "."@ + text::decimal_text(tenths % 10) + name@
        }),
{
    let tenths: u128 = rounding::divide_nearest(10 * n, unit);
    let ghost q = (10 * n as int) / unit as int;
    assert(q <= 0x1000_0000_0000_0000) by (nonlinear_arith)
        requires
            q == (10 * n as int) / unit as int,
            unit >= 1024,
            n <= 0x1_0000_0000_0000_0000,
            n < unit * 1024 || unit == 1_099_511_627_776,
    ;
    let mut out = text::decimal((tenths / 10) as u64);
    text::push_text(&mut out, ".");
    text::push_decimal(&mut out, (tenths % 10) as u64);
    text::push_text(&mut out, name);
    out
}

/// Human-readable byte count (binary units), e.g. "9.7Gi".
pub fn format_bytes(bytes: u64) -> (r: String)
    ensures
        r@ == bytes_text(bytes as nat),
{
    let n: u128 = bytes as u128;
    if n < 1024 {
        let mut out = text::decimal(bytes);
        text::push_text(&mut out, "B");
        out
    } else if n < 1_048_576 {
        with_tenths(n, 1024, "Ki")
    } else if n < 1_073_741_824 {
        with_tenths(n, 1_048_576, "Mi")
    } else if n < 1_099_511_627_776 {
        with_tenths(n, 1_073_741_824, "Gi")
    } else {
        with_tenths(n, 1_099_511_627_776, "Ti")
    }
}

// ── the guard ────────────────────────────────────────────────────────────────

/// Why writes are currently refused.
#[derive(Debug, Clone, Copy, PartialEq, Eq, Structural)]
pub enum GuardTrip {
    /// Free disk space fell below the configured reserve.
    LowFreeSpace,
    /// Local block usage exceeds the configured cap.
    OverQuota,
}

/// Write guard over the data volume.
#[derive(Debug)]
pub struct DiskGuard {
    /// Zero disables the reserve.
    pub min_free_bytes: u64,
    /// The last reading of the free space.
    pub free: u64,
    /// Zero disables the cap.
    pub max_bytes: u64,
    pub local_usage: u64,
}

/// The limit that a configured size sets: none where it is missing, empty or no size.
pub open spec fn limit_of(s: Option<String>, limit: u64) -> bool {
    match s {
        None => limit == 0,
        Some(t) => if t@.len() == 0 {
            limit == 0
        } else {
            exists|r: Result<u64, SizeError>| #[trigger]
                size_or_error(t@, r) && limit == (match r {
                    Ok(v) => v,
                    Err(_) => 0,
                })
        },
    }
}

fn parse_limit(s: &Option<String>) -> (r: u64)
    ensures
        limit_of(*s, r),
{
    match s {
        None => 0,
        Some(t) => if text::same_text(t.as_str(), "") {
            proof {
                reveal_strlit("");
            }
            0
        } else {
            proof {
                reveal_strlit("");
                assert(t@.len() == 0 ==> t@ =~= ""@);
            }
            let parsed = parse_size(t.as_str());
            assert(size_or_error(t@, parsed));
            match parsed {
                Ok(v) => v,
                Err(_) => 0,
            }
        },
    }
}

/// With a reading of the free space, which only a guard with a reserve takes over.
pub open spec fn refreshed(g: DiskGuard, sampled: Option<u64>) -> DiskGuard {
    DiskGuard {
        free: match sampled {
            Some(f) => if g.min_free_bytes > 0 {
                f
            } else {
                g.free
            },
            None => g.free,
        },
        ..g
    }
}

impl DiskGuard {
    /// Why writes are refused.
    pub open spec fn trip(self) -> Option<GuardTrip> {
        if self.min_free_bytes > 0 && self.free < self.min_free_bytes {
            Some(GuardTrip::LowFreeSpace)
        } else if self.max_bytes > 0 && self.local_usage >= self.max_bytes {
            Some(GuardTrip::OverQuota)
        } else {
            None
        }
    }

    /// Builds the guard from config: parses `min_free_bytes` and `max_bytes`. A bad size
    /// string disables that limiter rather than blocking the node. Until the first reading
    /// the volume counts as free.
    pub fn from_config(config: &Config) -> (r: Self)
        ensures
            limit_of(config.storage.min_free_bytes, r.min_free_bytes),
            limit_of(config.storage.max_bytes, r.max_bytes),
            r.free == u64::MAX,
            r.local_usage == 0,
    {
        DiskGuard {
            min_free_bytes: parse_limit(&config.storage.min_free_bytes),
            free: u64::MAX,
            max_bytes: parse_limit(&config.storage.max_bytes),
            local_usage: 0,
        }
    }

    /// A disabled guard (no limit).
    pub fn disabled() -> (r: Self)
        ensures
            r.min_free_bytes == 0,
            r.free == u64::MAX,
            r.max_bytes == 0,
            r.local_usage == 0,
            r.trip() is None,
    {
        DiskGuard { min_free_bytes: 0, free: u64::MAX, max_bytes: 0, local_usage: 0 }
    }

    /// A guard tripped by low free space.
    pub fn tripped() -> (r: Self)
        ensures
            r.min_free_bytes == u64::MAX,
            r.free == 0,
            r.max_bytes == 0,
            r.local_usage == 0,
            r.trip() == Some(GuardTrip::LowFreeSpace),
    {
        DiskGuard { min_free_bytes: u64::MAX, free: 0, max_bytes: 0, local_usage: 0 }
    }

    /// A guard tripped by exceeding the usage quota.
    pub fn over_quota() -> (r: Self)
        ensures
            r.min_free_bytes == 0,
            r.free == u64::MAX,
            r.max_bytes == 100,
            r.local_usage == 200,
            r.trip() == Some(GuardTrip::OverQuota),
    {
        DiskGuard { min_free_bytes: 0, free: u64::MAX, max_bytes: 100, local_usage: 200 }
    }

    /// Takes in a new reading of the free space, where there is a reserve to hold it against.
    /// A failed reading keeps the last one (fail-open).
    pub fn refresh(&mut self, sampled: Option<u64>)
        ensures
            *final(self) == refreshed(*old(self), sampled),
    {
        if self.min_free_bytes > 0 {
            match sampled {
                Some(f) => {
                    self.free = f;
                },
                None => {},
            }
        }
    }

    /// Update the cached local block usage.
    pub fn set_local_usage(&mut self, bytes: u64)
        ensures
            *final(self) == (DiskGuard { local_usage: bytes, ..*old(self) }),
    {
        self.local_usage = bytes;
    }

    pub fn enabled(&self) -> (r: bool)
        ensures
            r == (self.min_free_bytes > 0 || self.max_bytes > 0),
    {
        self.min_free_bytes > 0 || self.max_bytes > 0
    }

    pub fn free_space_enabled(&self) -> (r: bool)
        ensures
            r == (self.min_free_bytes > 0),
    {
        self.min_free_bytes > 0
    }

    pub fn quota_enabled(&self) -> (r: bool)
        ensures
            r == (self.max_bytes > 0),
    {
        self.max_bytes > 0
    }

    pub fn min_free_bytes(&self) -> (r: u64)
        ensures
            r == self.min_free_bytes,
    {
        self.min_free_bytes
    }

    pub fn max_bytes(&self) -> (r: u64)
        ensures
            r == self.max_bytes,
    {
        self.max_bytes
    }

    /// Last sampled free bytes (cached).
    pub fn free_bytes(&self) -> (r: u64)
        ensures
            r == self.free,
    {
        self.free
    }

    /// Last sampled local block usage (cached).
    pub fn local_usage(&self) -> (r: u64)
        ensures
            r == self.local_usage,
    {
        self.local_usage
    }

    /// If writes are refused, returns the reason. `None` means writes are allowed.
    pub fn check(&self) -> (r: Option<GuardTrip>)
        ensures
            r == self.trip(),
    {
        if self.min_free_bytes > 0 && self.free < self.min_free_bytes {
            return Some(GuardTrip::LowFreeSpace);
        }
        if self.max_bytes > 0 && self.local_usage >= self.max_bytes {
            return Some(GuardTrip::OverQuota);
        }
        None
    }

    /// Whether new data may be written. Always true when both limits are disabled.
    pub fn writes_allowed(&self) -> (r: bool)
        ensures
            r == (self.trip() is None),
    {
        self.check().is_none()
    }
}

/// With both limits disabled, writes are always allowed, whatever the readings are.
pub proof fn lemma_disabled_allows(g: DiskGuard)
    requires
        g.min_free_bytes == 0,
        g.max_bytes == 0,
    ensures
        g.trip() is None,
{
}

/// Low free space is reported before an exceeded quota.
pub proof fn lemma_free_space_first(g: DiskGuard)
    requires
        g.min_free_bytes > 0,
        g.free < g.min_free_bytes,
    ensures
        g.trip() == Some(GuardTrip::LowFreeSpace),
{
}

/// A tripped guard recovers: once the reserve is free again and usage is below the cap, writes
/// are allowed.
pub proof fn lemma_guard_recovers(g: DiskGuard)
    requires
        g.free >= g.min_free_bytes,
        g.max_bytes == 0 || g.local_usage < g.max_bytes,
    ensures
        g.trip() is None,
{
}

// ── texts ────────────────────────────────────────────────────────────────────

/// The texts with `, ` between them.
pub open spec fn comma_separated(parts: Seq<Seq<char>>) -> Seq<char>
    decreases parts.len(),
{
    if parts.len() == 0 {
        seq![]
    } else if parts.len() == 1 {
        parts[0]
    } else {
        comma_separated(parts.drop_last()) + ", "@ + parts.last()
    }
}

/// One text where a condition holds, none where it does not.
pub open spec fn only_if(c: bool, t: Seq<char>) -> Seq<Seq<char>> {
    if c {
        seq![t]
    } else {
        seq![]
    }
}

/// Appends a text, with a comma in between where there is one before it.
fn push_item(out: &mut String, count: usize, t: &str, parts: Ghost<Seq<Seq<char>>>)
    requires
        count == parts@.len(),
        old(out)@ == comma_separated(parts@),
    ensures
        final(out)@ == comma_separated(parts@.push(t@)),
{
    let ghost was = out@;
    if count > 0 {
        text::push_text(out, ", ");
    }
    text::push_text(out, t);
    proof {
        assert(parts@.push(t@).drop_last() =~= parts@);
        if count == 0 {
            assert(was =~= Seq::<char>::empty());
            assert(out@ =~= t@);
        }
    }
}

impl DiskGuard {
    /// The limits in force, in words.
    pub open spec fn limits(self) -> Seq<Seq<char>> {
        only_if(self.min_free_bytes > 0, "reserve "@ + bytes_text(self.min_free_bytes as nat))
            + only_if(self.max_bytes > 0, "cap "@ + bytes_text(self.max_bytes as nat))
    }

    /// The limits and readings that a node reports when it starts.
    pub open spec fn report(self) -> Seq<Seq<char>> {
        only_if(self.min_free_bytes > 0, "reserve "@ + bytes_text(self.min_free_bytes as nat))
            + only_if(
            self.max_bytes > 0,
            "cap "@ + bytes_text(self.max_bytes as nat) + " ("@ + bytes_text(
                self.local_usage as nat,
            ) + " used now)"@,
        ) + only_if(self.min_free_bytes > 0, bytes_text(self.free as nat) + " free now"@)
    }

    /// What a node reports of its guard when it starts.
    pub fn banner(&self) -> (r: String)
        ensures
            r@ == comma_separated(self.report()),
    {
        let mut out = String::new();
        let mut count: usize = 0;
        let ghost mut parts: Seq<Seq<char>> = Seq::empty();
        assert(out@ =~= comma_separated(parts));
        if self.min_free_bytes > 0 {
            let size = format_bytes(self.min_free_bytes);
            let t = text::join2("reserve ", size.as_str());
            push_item(&mut out, count, t.as_str(), Ghost(parts));
            proof {
                parts = parts.push(t@);
            }
            count = count + 1;
        }
        if self.max_bytes > 0 {
            let cap = format_bytes(self.max_bytes);
            let used = format_bytes(self.local_usage);
            let mut t = text::join4("cap ", cap.as_str(), " (", used.as_str());
            text::push_text(&mut t, " used now)");
            push_item(&mut out, count, t.as_str(), Ghost(parts));
            proof {
                parts = parts.push(t@);
            }
            count = count + 1;
        }
        if self.min_free_bytes > 0 {
            let size = format_bytes(self.free);
            let t = text::join2(size.as_str(), " free now");
            push_item(&mut out, count, t.as_str(), Ghost(parts));
            proof {
                parts = parts.push(t@);
            }
        }
        assert(parts =~= self.report());
        out
    }

    /// The state of the guard, in words.
    pub open spec fn state_text(self) -> Seq<char> {
        match self.trip() {
            None => if self.min_free_bytes == 0 && self.max_bytes == 0 {
                "off"@
            } else {
                "OK, "@ + comma_separated(self.limits())
            },
            Some(GuardTrip::LowFreeSpace) => "TRIPPED — writes refused (reserve "@ + bytes_text(
                self.min_free_bytes as nat,
            ) + ")"@,
            Some(GuardTrip::OverQuota) => "TRIPPED — writes refused (cap "@ + bytes_text(
                self.max_bytes as nat,
            ) + ")"@,
        }
    }

    /// What `status` shows of the guard.
    pub fn state(&self) -> (r: String)
        ensures
            r@ == self.state_text(),
    {
        match self.check() {
            None => {
                if !self.enabled() {
                    return "off".to_string();
                }
                let mut out = String::new();
                let mut count: usize = 0;
                let ghost mut parts: Seq<Seq<char>> = Seq::empty();
                assert(out@ =~= comma_separated(parts));
                if self.min_free_bytes > 0 {
                    let size = format_bytes(self.min_free_bytes);
                    let t = text::join2("reserve ", size.as_str());
                    push_item(&mut out, count, t.as_str(), Ghost(parts));
                    proof {
                        parts = parts.push(t@);
                    }
                    count = count + 1;
                }
                if self.max_bytes > 0 {
                    let size = format_bytes(self.max_bytes);
                    let t = text::join2("cap ", size.as_str());
                    push_item(&mut out, count, t.as_str(), Ghost(parts));
                    proof {
                        parts = parts.push(t@);
                    }
                }
                assert(parts =~= self.limits());
                text::join2("OK, ", out.as_str())
            },
            Some(GuardTrip::LowFreeSpace) => {
                let size = format_bytes(self.min_free_bytes);
                text::join3("TRIPPED — writes refused (reserve ", size.as_str(), ")")
            },
            Some(GuardTrip::OverQuota) => {
                let size = format_bytes(self.max_bytes);
                text::join3("TRIPPED — writes refused (cap ", size.as_str(), ")")
            },
        }
    }
}

} // verus!
