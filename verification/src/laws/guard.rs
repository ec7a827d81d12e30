//! The write guard, and the sizes that it is told in.

use vstd::arithmetic::power::pow;
use vstd::prelude::*;

use crate::blockmeta;
use crate::disk;
use crate::disk::DiskGuard;
use crate::disk::GuardTrip;
use crate::disk::SizeError;
use crate::laws::numbers;
use crate::maintenance;
use crate::maintenance::DrainStart;
use crate::replication;
use crate::rounding;
use crate::s3;
use crate::s3::ErrorView;
use crate::s3::S3Code;
use crate::seqs;
use crate::storage::StorageBackend;
use crate::store::StoreView;
use crate::text;

verus! {

// ── the guard ────────────────────────────────────────────────────────────────

/// A guard refuses writes where less is free than its reserve, and else where its cap has been
/// reached. A limit of zero is none.
pub proof fn lemma_guard(g: DiskGuard)
    ensures
        g.free < g.min_free_bytes ==> g.trip() == Some(GuardTrip::LowFreeSpace),
        g.free >= g.min_free_bytes && 0 < g.max_bytes <= g.local_usage ==> g.trip() == Some(
            GuardTrip::OverQuota,
        ),
        g.free >= g.min_free_bytes && (g.max_bytes == 0 || g.local_usage < g.max_bytes)
            ==> g.trip() is None,
{
}

/// What a refused write is answered, and what a paused drain says: how much there is, and which
/// limit it has passed.
pub proof fn lemma_guard_texts(g: DiskGuard)
    ensures
        g.trip() is None ==> s3::refusal(g) is None && s3::pause_text(g) is None,
        g.trip() == Some(GuardTrip::LowFreeSpace) ==> s3::refusal(g) == Some(
            ErrorView {
                code: S3Code::ServiceUnavailable,
                message: Some(
                    "node is low on disk space ("@ + disk::bytes_text(g.free as nat)
                        + " free, reserve "@ + disk::bytes_text(g.min_free_bytes as nat)
                        + "); write rejected"@,
                ),
            },
        ) && s3::pause_text(g) == Some(
            "low disk ("@ + disk::bytes_text(g.free as nat) + " free, reserve "@ + disk::bytes_text(
                g.min_free_bytes as nat,
            ) + ")"@,
        ),
        g.trip() == Some(GuardTrip::OverQuota) ==> s3::refusal(g) == Some(
            ErrorView {
                code: S3Code::ServiceUnavailable,
                message: Some(
                    "node has reached storage quota ("@ + disk::bytes_text(g.local_usage as nat)
                        + " used, cap "@ + disk::bytes_text(g.max_bytes as nat)
                        + "); write rejected"@,
                ),
            },
        ) && s3::pause_text(g) == Some(
            "over quota ("@ + disk::bytes_text(g.local_usage as nat) + " used, cap "@
                + disk::bytes_text(g.max_bytes as nat) + ")"@,
        ),
{
}

/// What the guard says of itself: that it is off, that it refuses and why, or that all is well and
/// which limits it has.
pub proof fn lemma_guard_state(g: DiskGuard)
    ensures
        ({
            let reserve = "reserve "@ + disk::bytes_text(g.min_free_bytes as nat);
            let cap = "cap "@ + disk::bytes_text(g.max_bytes as nat);
            &&& g.min_free_bytes == 0 && g.max_bytes == 0 ==> g.state_text() == "off"@
            &&& g.free < g.min_free_bytes ==> g.state_text()
                == "TRIPPED — writes refused (reserve "@ + disk::bytes_text(g.min_free_bytes as nat) + ")"@
            &&& g.free >= g.min_free_bytes && 0 < g.max_bytes <= g.local_usage ==> g.state_text()
                == "TRIPPED — writes refused (cap "@ + disk::bytes_text(g.max_bytes as nat) + ")"@
            &&& g.free >= g.min_free_bytes && g.local_usage < g.max_bytes && g.min_free_bytes > 0
                ==> g.state_text() == "OK, "@ + (reserve + ", "@ + cap)
            &&& g.free >= g.min_free_bytes && g.max_bytes == 0 && g.min_free_bytes > 0
                ==> g.state_text() == "OK, "@ + reserve
            &&& g.min_free_bytes == 0 && g.local_usage < g.max_bytes ==> g.state_text() == "OK, "@
                + cap
        }),
{
    let reserve = "reserve "@ + disk::bytes_text(g.min_free_bytes as nat);
    let cap = "cap "@ + disk::bytes_text(g.max_bytes as nat);
    lemma_commas(reserve, cap, cap);
    if g.min_free_bytes > 0 && g.max_bytes > 0 {
        assert(g.limits() =~= seq![reserve, cap]);
    } else if g.min_free_bytes > 0 {
        assert(g.limits() =~= seq![reserve]);
    } else if g.max_bytes > 0 {
        assert(g.limits() =~= seq![cap]);
    }
}

/// What the guard reports when a node starts: its limits and its readings, of the limits that are
/// set.
pub proof fn lemma_guard_report(g: DiskGuard)
    ensures
        ({
            let reserve = "reserve "@ + disk::bytes_text(g.min_free_bytes as nat);
            let cap = "cap "@ + disk::bytes_text(g.max_bytes as nat) + " ("@ + disk::bytes_text(
                g.local_usage as nat,
            ) + " used now)"@;
            let free = disk::bytes_text(g.free as nat) + " free now"@;
            let said = disk::comma_separated(g.report());
            &&& g.min_free_bytes > 0 && g.max_bytes > 0 ==> said == reserve + ", "@ + cap + ", "@
                + free
            &&& g.min_free_bytes > 0 && g.max_bytes == 0 ==> said == reserve + ", "@ + free
            &&& g.min_free_bytes == 0 && g.max_bytes > 0 ==> said == cap
            &&& g.min_free_bytes == 0 && g.max_bytes == 0 ==> said.len() == 0
        }),
{
    let reserve = "reserve "@ + disk::bytes_text(g.min_free_bytes as nat);
    let cap = "cap "@ + disk::bytes_text(g.max_bytes as nat) + " ("@ + disk::bytes_text(
        g.local_usage as nat,
    ) + " used now)"@;
    let free = disk::bytes_text(g.free as nat) + " free now"@;
    lemma_commas(reserve, cap, free);
    lemma_commas(reserve, free, free);
    lemma_commas(cap, free, free);
    if g.min_free_bytes > 0 && g.max_bytes > 0 {
        assert(g.report() =~= seq![reserve, cap, free]);
    } else if g.min_free_bytes > 0 {
        assert(g.report() =~= seq![reserve, free]);
    } else if g.max_bytes > 0 {
        assert(g.report() =~= seq![cap]);
    } else {
        assert(g.report().len() == 0);
    }
}

proof fn lemma_commas(a: Seq<char>, b: Seq<char>, c: Seq<char>)
    ensures
        disk::comma_separated(seq![a]) == a,
        disk::comma_separated(seq![a, b]) == a + ", "@ + b,
        disk::comma_separated(seq![a, b, c]) == a + ", "@ + b + ", "@ + c,
{
    assert(seq![a, b].drop_last() =~= seq![a]);
    assert(seq![a, b, c].drop_last() =~= seq![a, b]);
    assert(seq![a, b].last() == b);
    assert(seq![a, b, c].last() == c);
    assert(disk::comma_separated(seq![a]) == a);
    assert(disk::comma_separated(seq![a, b]) == a + ", "@ + b);
}

/// Readings: the free space is taken over only by a guard with a reserve and only where there is a
/// reading; the usage only where it is known; nothing else moves.
pub proof fn lemma_readings(g: DiskGuard, sampled: Option<u64>, usage: Option<u64>)
    ensures
        ({
            let after = maintenance::with_usage(maintenance::with_reading(g, sampled), usage);
            &&& after.min_free_bytes == g.min_free_bytes
            &&& after.max_bytes == g.max_bytes
            &&& (sampled matches Some(f) ==> g.min_free_bytes > 0 ==> after.free == f)
            &&& sampled is None || g.min_free_bytes == 0 ==> after.free == g.free
            &&& (usage matches Some(u) ==> after.local_usage == u)
            &&& usage is None ==> after.local_usage == g.local_usage
        }),
{
}

/// The usage is the size of the blocks that the site holds, as far as a signed number goes.
pub proof fn lemma_usage(s: StoreView)
    ensures
        ({
            let total = blockmeta::total_size(s.blocks, blockmeta::held_at(s.locations, s.site));
            &&& 0 <= total <= i64::MAX ==> maintenance::usage_of(s) == Some(total as u64)
            &&& total > i64::MAX ==> maintenance::usage_of(s) is None
        }),
{
}

/// A drain is paused while the guard refuses writes, and then frees what it can; otherwise it
/// leaves the store as it is and hands out the entries that are due and the peers.
pub proof fn lemma_drain_start(
    before: StorageBackend,
    after: StoreView,
    wall_ms: Option<i64>,
    now_ms: i64,
    r: DrainStart,
)
    requires
        maintenance::drain_started(before, after, wall_ms, now_ms, r),
    ensures
        ({
            let g = before.disk_guard;
            let s = before.db@;
            let grace = before.config.storage.gc_grace_period_seconds;
            let paused = g.free < g.min_free_bytes || 0 < g.max_bytes <= g.local_usage;
            &&& r is Paused == paused
            &&& paused && wall_ms is None ==> after == s
            &&& (wall_ms matches Some(wall) ==> paused ==> after == s.swept(wall, grace, true) && (r
                matches DrainStart::Paused { reason, reaped } && seqs::views(reaped@)
                == s.reap_list(wall, grace, true)))
            &&& (r matches DrainStart::Paused { reason, reaped } ==> s3::pause_text(g) == Some(
                reason@,
            ) && (wall_ms is None ==> reaped@.len() == 0))
            &&& !paused ==> after == s
            &&& (r matches DrainStart::Ready { entries, peers } ==> {
                let page = replication::drain_page(s.queue, s.site, now_ms);
                &&& entries@.len() == page.len()
                &&& forall|i: int|
                    0 <= i < page.len() ==> (#[trigger] entries@[i])@ == page[i].1
                &&& seqs::views(peers@) == replication::peers_of(s.nodes, s.site)
            })
        }),
{
    let s = before.db@;
    if let DrainStart::Paused { reason, reaped } = r {
        assert(seqs::views(reaped@).len() == reaped@.len());
    }
    if let DrainStart::Ready { entries, peers } = r {
        let page = replication::drain_page(s.queue, s.site, now_ms);
        let views = seqs::views(entries@);
        assert(views.len() == entries@.len());
        assert forall|i: int| 0 <= i < page.len() implies (#[trigger] entries@[i])@ == page[i].1 by {
            assert(views[i] == entries@[i]@);
            assert(views[i] == maintenance::entries_of(page)[i]);
        }
    }
}

/// A sweep is one at the time of the clock with the grace of the configuration; without a time
/// nothing is swept.
pub proof fn lemma_sweep(
    before: StorageBackend,
    after: StoreView,
    wall: i64,
    force: bool,
    r: Result<Vec<(Vec<u8>, Vec<u8>)>, crate::clock::BeforeEpoch>,
)
    ensures
        maintenance::sweep_ended(before, after, None, force, r) ==> after == before.db@ && r is Err,
        maintenance::sweep_ended(before, after, Some(wall), force, r) ==> {
            let grace = before.config.storage.gc_grace_period_seconds;
            &&& after == before.db@.swept(wall, grace, force)
            &&& r matches Ok(reaped) && seqs::views(reaped@) == before.db@.reap_list(
                wall,
                grace,
                force,
            )
        },
{
}

// ── sizes ────────────────────────────────────────────────────────────────────

/// What a unit stands for: powers of a thousand, and of 1024 with an `i`. Nothing else is a unit.
pub proof fn lemma_units(u: Seq<char>)
    ensures
        disk::unit_factor(""@) == Some(1nat),
        disk::unit_factor("b"@) == Some(1nat),
        disk::unit_factor("k"@) == Some(1000nat),
        disk::unit_factor("kb"@) == Some(1000nat),
        disk::unit_factor("ki"@) == Some(1024nat),
        disk::unit_factor("kib"@) == Some(1024nat),
        disk::unit_factor("m"@) == Some(1000nat * 1000),
        disk::unit_factor("mb"@) == Some(1000nat * 1000),
        disk::unit_factor("mi"@) == Some(1024nat * 1024),
        disk::unit_factor("mib"@) == Some(1024nat * 1024),
        disk::unit_factor("g"@) == Some(1000nat * 1000 * 1000),
        disk::unit_factor("gb"@) == Some(1000nat * 1000 * 1000),
        disk::unit_factor("gi"@) == Some(1024nat * 1024 * 1024),
        disk::unit_factor("gib"@) == Some(1024nat * 1024 * 1024),
        disk::unit_factor("t"@) == Some(1000nat * 1000 * 1000 * 1000),
        disk::unit_factor("tb"@) == Some(1000nat * 1000 * 1000 * 1000),
        disk::unit_factor("ti"@) == Some(1024nat * 1024 * 1024 * 1024),
        disk::unit_factor("tib"@) == Some(1024nat * 1024 * 1024 * 1024),
        disk::unit_factor(u) is Some ==> u.len() == 0 || u == "b"@ || u == "k"@ || u == "kb"@ || u
            == "ki"@ || u == "kib"@ || u == "m"@ || u == "mb"@ || u == "mi"@ || u == "mib"@ || u
            == "g"@ || u == "gb"@ || u == "gi"@ || u == "gib"@ || u == "t"@ || u == "tb"@ || u
            == "ti"@ || u == "tib"@,
{
    reveal_strlit("");
    reveal_strlit("b");
    reveal_strlit("k");
    reveal_strlit("kb");
    reveal_strlit("ki");
    reveal_strlit("kib");
    reveal_strlit("m");
    reveal_strlit("mb");
    reveal_strlit("mi");
    reveal_strlit("mib");
    reveal_strlit("g");
    reveal_strlit("gb");
    reveal_strlit("gi");
    reveal_strlit("gib");
    reveal_strlit("t");
    reveal_strlit("tb");
    reveal_strlit("ti");
    reveal_strlit("tib");
    assert(""@.len() == 0);
    assert("b"@[0] == 'b' && "b"@.len() == 1);
    assert("k"@[0] == 'k' && "k"@.len() == 1);
    assert("m"@[0] == 'm' && "m"@.len() == 1);
    assert("g"@[0] == 'g' && "g"@.len() == 1);
    assert("t"@[0] == 't' && "t"@.len() == 1);
    assert("kb"@[0] == 'k' && "kb"@[1] == 'b' && "kb"@.len() == 2);
    assert("mb"@[0] == 'm' && "mb"@[1] == 'b' && "mb"@.len() == 2);
    assert("gb"@[0] == 'g' && "gb"@[1] == 'b' && "gb"@.len() == 2);
    assert("tb"@[0] == 't' && "tb"@[1] == 'b' && "tb"@.len() == 2);
    assert("ki"@[0] == 'k' && "ki"@[1] == 'i' && "ki"@.len() == 2);
    assert("mi"@[0] == 'm' && "mi"@[1] == 'i' && "mi"@.len() == 2);
    assert("gi"@[0] == 'g' && "gi"@[1] == 'i' && "gi"@.len() == 2);
    assert("ti"@[0] == 't' && "ti"@[1] == 'i' && "ti"@.len() == 2);
    assert("kib"@[0] == 'k' && "kib"@.len() == 3);
    assert("mib"@[0] == 'm' && "mib"@.len() == 3);
    assert("gib"@[0] == 'g' && "gib"@.len() == 3);
    assert("tib"@[0] == 't' && "tib"@.len() == 3);
}

/// White space: of ASCII the blank and the five control characters that move on, and beyond it the
/// spaces and separators of Unicode.
pub proof fn lemma_white(c: char)
    ensures
        c as int <= 127 ==> disk::is_white(c) == (c == ' ' || 9 <= c as int <= 13),
        c as int > 127 ==> disk::is_white(c) == (c == '\u{85}' || c == '\u{A0}' || c == '\u{1680}' || (
        '\u{2000}' <= c <= '\u{200A}') || c == '\u{2028}' || c == '\u{2029}' || c == '\u{202F}' || c
            == '\u{205F}' || c == '\u{3000}'),
{
}

proof fn lemma_trim_front(w: Seq<char>, core: Seq<char>)
    requires
        forall|i: int| 0 <= i < w.len() ==> disk::is_white(#[trigger] w[i]),
        core.len() == 0 || !disk::is_white(core[0]),
    ensures
        disk::trim_start(w + core) == core,
    decreases w.len(),
{
    if w.len() > 0 {
        assert((w + core)[0] == w[0]);
        assert((w + core).drop_first() =~= w.drop_first() + core);
        assert forall|i: int| 0 <= i < w.drop_first().len() implies disk::is_white(
            #[trigger] w.drop_first()[i],
        ) by {
            assert(w.drop_first()[i] == w[i + 1]);
        }
        lemma_trim_front(w.drop_first(), core);
    } else {
        assert(w + core =~= core);
    }
}

proof fn lemma_trim_back(core: Seq<char>, w: Seq<char>)
    requires
        forall|i: int| 0 <= i < w.len() ==> disk::is_white(#[trigger] w[i]),
        core.len() == 0 || !disk::is_white(core[core.len() - 1]),
    ensures
        disk::trim_end(core + w) == core,
    decreases w.len(),
{
    if w.len() > 0 {
        assert((core + w).last() == w[w.len() - 1]);
        assert((core + w).drop_last() =~= core + w.drop_last());
        assert forall|i: int| 0 <= i < w.drop_last().len() implies disk::is_white(
            #[trigger] w.drop_last()[i],
        ) by {
            assert(w.drop_last()[i] == w[i]);
        }
        lemma_trim_back(core, w.drop_last());
    } else {
        assert(core + w =~= core);
    }
}

/// Trimming takes the white space off both ends, and nothing else.
pub proof fn lemma_trimmed(before: Seq<char>, core: Seq<char>, behind: Seq<char>)
    requires
        forall|i: int| 0 <= i < before.len() ==> disk::is_white(#[trigger] before[i]),
        forall|i: int| 0 <= i < behind.len() ==> disk::is_white(#[trigger] behind[i]),
        core.len() > 0,
        !disk::is_white(core[0]),
        !disk::is_white(core[core.len() - 1]),
    ensures
        disk::trimmed(before + core + behind) == core,
{
    assert(before + core + behind =~= before + (core + behind));
    assert((core + behind)[0] == core[0]);
    lemma_trim_front(before, core + behind);
    lemma_trim_back(core, behind);
}

proof fn lemma_nothing_trimmed(s: Seq<char>)
    requires
        s.len() == 0 || (!disk::is_white(s[0]) && !disk::is_white(s[s.len() - 1])),
    ensures
        disk::trimmed(s) == s,
{
    if s.len() > 0 {
        lemma_trimmed(seq![], s, seq![]);
        assert(Seq::<char>::empty() + s + Seq::<char>::empty() =~= s);
    }
}

proof fn lemma_number_front(num: Seq<char>, rest: Seq<char>)
    requires
        forall|i: int| 0 <= i < num.len() ==> disk::is_number_char(#[trigger] num[i]),
        rest.len() == 0 || !disk::is_number_char(rest[0]),
    ensures
        disk::number_len(num + rest) == num.len(),
    decreases num.len(),
{
    if num.len() > 0 {
        assert((num + rest)[0] == num[0]);
        assert((num + rest).drop_first() =~= num.drop_first() + rest);
        assert forall|i: int| 0 <= i < num.drop_first().len() implies disk::is_number_char(
            #[trigger] num.drop_first()[i],
        ) by {
            assert(num.drop_first()[i] == num[i + 1]);
        }
        lemma_number_front(num.drop_first(), rest);
    } else {
        assert(num + rest =~= rest);
    }
}

/// A unit that may stand behind a number: it is no part of the number, and has no white space
/// around it.
pub open spec fn may_follow(unit: Seq<char>) -> bool {
    unit.len() > 0 ==> {
        &&& !(48 <= unit[0] as int <= 57)
        &&& unit[0] != '.'
        &&& !disk::is_white(unit[0])
        &&& !disk::is_white(unit[unit.len() - 1])
    }
}

/// `v` is what a decimal number of units comes to, without the part behind the point and at most
/// the largest 64-bit number.
pub open spec fn comes_to(digits: Seq<char>, places: nat, factor: nat, v: int) -> bool {
    let scale = pow(10, places);
    let all = numbers::worth(digits) * factor;
    ||| v <= u64::MAX && v * scale <= all && all < (v + 1) * scale
    ||| v == u64::MAX && (u64::MAX + 1) * scale <= all
}

/// A number with a unit is that many units. The number may have a fraction, and the unit may be in
/// capitals.
pub proof fn lemma_size(
    whole: Seq<char>,
    fraction: Option<Seq<char>>,
    unit: Seq<char>,
    r: Result<u64, SizeError>,
)
    requires
        whole.len() > 0,
        numbers::digits_only(whole),
        fraction matches Some(f) ==> numbers::digits_only(f),
        may_follow(unit),
        disk::size_or_error(
            whole + (match fraction {
                Some(f) => seq!['.'] + f,
                None => seq![],
            }) + unit,
            r,
        ),
    ensures
        ({
            let small = unit.map_values(|c: char| text::fold(c));
            let behind = match fraction {
                Some(f) => f,
                None => seq![],
            };
            match disk::unit_factor(small) {
                Some(factor) => r matches Ok(v) && comes_to(
                    whole + behind,
                    behind.len(),
                    factor,
                    v as int,
                ),
                None => r matches Err(SizeError::UnknownUnit(u, _)) && u@ == small,
            }
        }),
{
    let behind = match fraction {
        Some(f) => f,
        None => seq![],
    };
    let tail = match fraction {
        Some(f) => seq!['.'] + f,
        None => seq![],
    };
    let num = whole + tail;
    let s = num + unit;
    assert(whole + (match fraction {
        Some(f) => seq!['.'] + f,
        None => seq![],
    }) + unit =~= s);
    numbers::lemma_value(whole);
    numbers::lemma_value(behind);
    assert forall|i: int| 0 <= i < num.len() implies disk::is_number_char(#[trigger] num[i]) by {
        if i < whole.len() {
            assert(num[i] == whole[i]);
            assert(text::is_digit(whole[i]));
        } else if i > whole.len() {
            assert(num[i] == behind[i - whole.len() - 1]);
            assert(text::is_digit(behind[i - whole.len() - 1]));
        }
    }
    assert(s[0] == whole[0]);
    assert(text::is_digit(whole[0]));
    assert(!disk::is_white(s[0]));
    assert(!disk::is_white(s[s.len() - 1])) by {
        if unit.len() > 0 {
            assert(s[s.len() - 1] == unit[unit.len() - 1]);
        } else {
            assert(s[s.len() - 1] == num[num.len() - 1]);
            assert(disk::is_number_char(num[num.len() - 1]));
        }
    }
    lemma_nothing_trimmed(s);
    lemma_number_front(num, unit);
    assert(s.take(num.len() as int) =~= num);
    assert(s.skip(num.len() as int) =~= unit);
    lemma_nothing_trimmed(unit);
    let at = whole.len() as int;
    assert(num.take(at) =~= whole);
    assert(at < num.len() ==> num.skip(at + 1) =~= behind);
    assert(text::is_digit(num[0])) by {
        assert(num[0] == whole[0]);
    }
    assert(disk::is_number(num, at));
    let c = choose|c: int| disk::is_number(num, c);
    assert(c == at) by {
        assert(disk::is_number(num, c));
        if c < at {
            assert(num[c] == whole[c]);
            assert(text::is_digit(whole[c]));
        }
        if c > at {
            assert(num.take(c)[at] == num[at]);
            assert(num[at] == '.');
            assert(!text::is_digit(num.take(c)[at]));
        }
    }
    assert(disk::fraction_of(num, at) =~= behind);
    let small = unit.map_values(|c: char| text::fold(c));
    assert(disk::lowered(unit) =~= small);
    if let Some(factor) = disk::unit_factor(small) {
        numbers::lemma_product(whole, behind, factor);
        numbers::lemma_power(behind.len());
        let p = rounding::decimal_product(whole, behind, factor);
        let scale = pow(10, behind.len());
        numbers::lemma_capped(p);
        if p > u64::MAX {
            assert((u64::MAX + 1) * scale <= p * scale) by (nonlinear_arith)
                requires
                    p >= u64::MAX + 1,
                    scale > 0,
            ;
        }
    }
}

/// White space around a size does not matter.
pub proof fn lemma_size_trimmed(
    before: Seq<char>,
    core: Seq<char>,
    behind: Seq<char>,
    r: Result<u64, SizeError>,
)
    requires
        forall|i: int| 0 <= i < before.len() ==> disk::is_white(#[trigger] before[i]),
        forall|i: int| 0 <= i < behind.len() ==> disk::is_white(#[trigger] behind[i]),
        core.len() > 0,
        !disk::is_white(core[0]),
        !disk::is_white(core[core.len() - 1]),
    ensures
        disk::size_or_error(before + core + behind, r) == disk::size_or_error(core, r),
{
    lemma_trimmed(before, core, behind);
    lemma_nothing_trimmed(core);
}

/// What is no size: nothing at all, a unit with no number in front, and a number with two points.
pub proof fn lemma_no_size(s: Seq<char>, a: int, b: int, r: Result<u64, SizeError>)
    requires
        disk::size_or_error(s, r),
    ensures
        s.len() == 0 ==> (r matches Err(SizeError::Empty)),
        s.len() > 0 && may_follow(s) ==> (r matches Err(SizeError::InvalidNumber(x)) && x@ == s),
        0 < a < b < s.len() && s[a] == '.' && s[b] == '.' && (forall|i: int|
            0 <= i < s.len() ==> disk::is_number_char(#[trigger] s[i])) ==> (r matches Err(
            SizeError::InvalidNumber(x),
        ) && x@ == s),
{
    if s.len() > 0 && may_follow(s) {
        lemma_nothing_trimmed(s);
        assert(s =~= Seq::<char>::empty() + s);
        lemma_number_front(seq![], s);
        assert(s.take(0).len() == 0);
        assert(!(exists|at: int| disk::is_number(s.take(0), at)));
    }
    if 0 < a < b < s.len() && s[a] == '.' && s[b] == '.' && (forall|i: int|
        0 <= i < s.len() ==> disk::is_number_char(#[trigger] s[i])) {
        assert(disk::is_number_char(s[0]));
        assert(disk::is_number_char(s[s.len() - 1]));
        lemma_nothing_trimmed(s);
        assert(s =~= s + Seq::<char>::empty());
        lemma_number_front(s, seq![]);
        assert(s.take(s.len() as int) =~= s);
        assert forall|at: int| !disk::is_number(s, at) by {
            if disk::is_number(s, at) {
                if at > a {
                    assert(s.take(at)[a] == '.');
                } else if at < s.len() {
                    assert(s.skip(at + 1)[b - at - 1] == '.');
                }
            }
        }
    }
}

/// The texts of the errors.
pub proof fn lemma_size_errors(unit: String, s: String)
    ensures
        SizeError::Empty.text() == "empty size"@,
        SizeError::InvalidNumber(s).text() == "invalid number in size '"@ + s@ + "'"@,
        SizeError::UnknownUnit(unit, s).text() == "unknown size unit '"@ + unit@ + "' in '"@ + s@
            + "'"@,
{
}

/// A size is shown in the largest unit that goes into it, to the nearest tenth; in bytes below
/// 1024.
pub proof fn lemma_shown(n: nat, tenths: nat, unit: nat)
    requires
        unit == 1024 || unit == 1024nat * 1024 || unit == 1024nat * 1024 * 1024 || unit == 1024nat
            * 1024 * 1024 * 1024,
        unit <= n,
        n < 1024 * unit || unit == 1024nat * 1024 * 1024 * 1024,
        tenths == rounding::nearest(10 * n, unit),
    ensures
        disk::bytes_text(n) == text::decimal_text(tenths / 10) + "."@ + text::decimal_text(
            tenths % 10,
        ) + (if unit == 1024 {
            "Ki"@
        } else if unit == 1024nat * 1024 {
            "Mi"@
        } else if unit == 1024nat * 1024 * 1024 {
            "Gi"@
        } else {
            "Ti"@
        }),
{
}

/// Below 1024 a size is shown in bytes.
pub proof fn lemma_shown_bytes(n: nat)
    requires
        n < 1024,
    ensures
        disk::bytes_text(n) == text::decimal_text(n) + "B"@,
{
}

/// A limit that is not set, or set to nothing, is none; one that is no size is none either.
pub proof fn lemma_limit(s: Option<String>, limit: u64)
    requires
        disk::limit_of(s, limit),
    ensures
        s is None ==> limit == 0,
        s matches Some(t) ==> t@.len() == 0 ==> limit == 0,
        s matches Some(t) ==> t@.len() > 0 ==> exists|r: Result<u64, SizeError>| #[trigger]
            disk::size_or_error(t@, r) && limit == (if r is Ok {
                r->Ok_0
            } else {
                0
            }),
{
    if let Some(t) = s {
        if t@.len() > 0 {
            let r = choose|r: Result<u64, SizeError>| #[trigger]
                disk::size_or_error(t@, r) && limit == (match r {
                    Ok(v) => v,
                    Err(_) => 0,
                });
            assert(disk::size_or_error(t@, r));
        }
    }
}

/// A reading of the free space is taken over by a guard with a reserve; nothing else moves.
pub proof fn lemma_refreshed(g: DiskGuard, free: u64)
    ensures
        g.min_free_bytes > 0 ==> disk::refreshed(g, Some(free)) == (DiskGuard { free, ..g }),
        g.min_free_bytes == 0 ==> disk::refreshed(g, Some(free)) == g,
        disk::refreshed(g, None) == g,
{
}

} // verus!
