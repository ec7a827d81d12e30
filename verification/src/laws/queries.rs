//! Query strings and addresses.

use vstd::prelude::*;
use vstd::utf8::encode_utf8;

use crate::web;

verus! {

// ── escapes ──────────────────────────────────────────────────────────────────

/// `b` is the hexadecimal digit of `n`, as a capital or a small letter where it is a letter.
pub open spec fn is_hex_of(b: u8, n: int) -> bool {
    ||| 0 <= n <= 9 && b == 48 + n
    ||| 10 <= n <= 15 && (b == 55 + n || b == 87 + n)
}

/// `b` is a hexadecimal digit.
pub open spec fn is_hex_byte(b: u8) -> bool {
    48 <= b <= 57 || 65 <= b <= 70 || 97 <= b <= 102
}

/// A percent sign and two hexadecimal digits stand for the byte that the digits write.
pub proof fn lemma_escape(x: u8, y: u8, high: int, low: int, rest: Seq<u8>)
    requires
        is_hex_of(x, high),
        is_hex_of(y, low),
    ensures
        web::unescaped(seq![37u8, x, y] + rest) == seq![(16 * high + low) as u8] + web::unescaped(
            rest,
        ),
{
    let b = seq![37u8, x, y] + rest;
    assert(b[0] == 37 && b[1] == x && b[2] == y);
    assert(b.skip(3) =~= rest);
    assert(high * 16 + low == 16 * high + low);
    assert(web::escaped(x, y) == Some((16 * high + low) as u8));
}

/// A plus sign stands for a blank, and every byte but the percent sign for itself.
pub proof fn lemma_unescaped(b: u8, rest: Seq<u8>)
    ensures
        web::unescaped(seq![43u8] + rest) == seq![32u8] + web::unescaped(rest),
        b != 37 && b != 43 ==> web::unescaped(seq![b] + rest) == seq![b] + web::unescaped(rest),
        web::unescaped(seq![]) == Seq::<u8>::empty(),
{
    assert((seq![43u8] + rest).skip(1) =~= rest);
    assert((seq![b] + rest).skip(1) =~= rest);
}

/// A percent sign with no two digits behind it stands for itself. (A plus sign is taken for the
/// first digit, and counts nothing.)
pub proof fn lemma_stray_percent(rest: Seq<u8>)
    requires
        rest.len() < 2 || !is_hex_byte(rest[1]) || !(is_hex_byte(rest[0]) || rest[0] == 43),
    ensures
        web::unescaped(seq![37u8] + rest) == seq![37u8] + web::unescaped(rest),
{
    let b = seq![37u8] + rest;
    assert(b.skip(1) =~= rest);
    if rest.len() >= 2 {
        assert(b[1] == rest[0] && b[2] == rest[1]);
    }
}

/// What has neither percent nor plus signs is left as it is.
pub proof fn lemma_nothing_escaped(b: Seq<u8>)
    requires
        forall|i: int| 0 <= i < b.len() ==> (#[trigger] b[i]) != 37 && b[i] != 43,
    ensures
        web::unescaped(b) == b,
    decreases b.len(),
{
    if b.len() > 0 {
        let rest = b.skip(1);
        assert forall|i: int| 0 <= i < rest.len() implies (#[trigger] rest[i]) != 37 && rest[i]
            != 43 by {
            assert(rest[i] == b[i + 1]);
        }
        lemma_nothing_escaped(rest);
        lemma_unescaped(b[0], rest);
        assert(b =~= seq![b[0]] + rest);
    }
}

/// In ASCII every escape can be read.
pub proof fn lemma_ascii_escapes(b: Seq<u8>)
    requires
        forall|i: int| 0 <= i < b.len() ==> (#[trigger] b[i]) < 128,
    ensures
        web::whole_escapes(b),
    decreases b.len(),
{
    if b.len() > 0 {
        let n: int = if b[0] == 37 && b.len() > 2 && web::escaped(b[1], b[2]) is Some {
            3
        } else {
            1
        };
        let rest = b.skip(n);
        assert forall|i: int| 0 <= i < rest.len() implies (#[trigger] rest[i]) < 128 by {
            assert(rest[i] == b[i + n]);
        }
        lemma_ascii_escapes(rest);
    }
}

/// An escape that is cut out of the middle of a character cannot be read.
pub proof fn lemma_cut_character(x: u8, y: u8, z: u8, rest: Seq<u8>)
    requires
        128 <= z < 192,
    ensures
        !web::whole_escapes(seq![37u8, x, y, z] + rest),
{
    let b = seq![37u8, x, y, z] + rest;
    assert(b[0] == 37 && b[3] == z);
}

/// What has no percent signs can always be read.
pub proof fn lemma_no_escapes(b: Seq<u8>)
    requires
        forall|i: int| 0 <= i < b.len() ==> #[trigger] b[i] != 37,
    ensures
        web::whole_escapes(b),
    decreases b.len(),
{
    if b.len() > 0 {
        let rest = b.skip(1);
        assert forall|i: int| 0 <= i < rest.len() implies #[trigger] rest[i] != 37 by {
            assert(rest[i] == b[i + 1]);
        }
        lemma_no_escapes(rest);
    }
}

// ── pairs ────────────────────────────────────────────────────────────────────

proof fn lemma_first(p: Seq<char>, c: char, q: Seq<char>)
    requires
        !p.contains(c),
    ensures
        web::first_or_end(p, c) == p.len(),
        web::first_or_end(p + seq![c] + q, c) == p.len(),
    decreases p.len(),
{
    let s = p + seq![c] + q;
    if p.len() > 0 {
        assert(p[0] != c) by {
            assert(p.contains(p[0]));
        }
        assert(s[0] == p[0]);
        assert(s.drop_first() =~= p.drop_first() + seq![c] + q);
        assert(!p.drop_first().contains(c)) by {
            if p.drop_first().contains(c) {
                let i = choose|i: int| 0 <= i < p.drop_first().len() && p.drop_first()[i] == c;
                assert(p[i + 1] == c);
            }
        }
        lemma_first(p.drop_first(), c, q);
    } else {
        assert(s[0] == c);
    }
}

/// A piece is a key and a value with an equals sign between them, the first one where there are
/// several; a piece without one is none.
pub proof fn lemma_pair(key: Seq<char>, value: Seq<char>)
    requires
        !key.contains('='),
        !key.contains('&'),
        !value.contains('&'),
    ensures
        web::raw_pairs(key + seq!['='] + value) == seq![(key, value)],
        web::raw_pairs(key).len() == 0,
{
    let s = key + seq!['='] + value;
    assert(!s.contains('&')) by {
        if s.contains('&') {
            let i = choose|i: int| 0 <= i < s.len() && s[i] == '&';
            if i < key.len() {
                assert(key[i] == '&');
            } else if i > key.len() {
                assert(value[i - key.len() - 1] == '&');
            }
        }
    }
    lemma_first(s, '&', seq![]);
    lemma_first(key, '&', seq![]);
    lemma_first(key, '=', value);
    assert(s.take(s.len() as int) =~= s);
    assert(key.take(key.len() as int) =~= key);
    assert(s.take(key.len() as int) =~= key);
    assert(s.skip(key.len() as int + 1) =~= value);
    assert(web::raw_pair(key) is None);
}

/// The pairs of a query are those of its pieces, in order.
pub proof fn lemma_pairs(piece: Seq<char>, rest: Seq<char>)
    requires
        !piece.contains('&'),
    ensures
        web::raw_pairs(piece + seq!['&'] + rest) == web::raw_pairs(piece) + web::raw_pairs(rest),
{
    let s = piece + seq!['&'] + rest;
    lemma_first(piece, '&', rest);
    assert(s.take(piece.len() as int) =~= piece);
    assert(s.skip(piece.len() as int + 1) =~= rest);
    assert(piece.take(piece.len() as int) =~= piece);
}

/// Keys and values are decoded, each by itself.
pub proof fn lemma_decoded(q: Seq<char>, i: int)
    requires
        0 <= i < web::raw_pairs(q).len(),
    ensures
        web::pairs_of(q).len() == web::raw_pairs(q).len(),
        web::pairs_of(q)[i].0 == web::decoded_text(web::raw_pairs(q)[i].0),
        web::pairs_of(q)[i].1 == web::decoded_text(web::raw_pairs(q)[i].1),
        web::decodable(q) ==> web::whole_escapes(encode_utf8(web::raw_pairs(q)[i].0))
            && web::whole_escapes(encode_utf8(web::raw_pairs(q)[i].1)),
{
}

/// Of several values of a key the last one counts; without one it is empty.
pub proof fn lemma_last_value(pairs: Seq<(Seq<char>, Seq<char>)>, key: Seq<char>, i: int)
    ensures
        0 <= i < pairs.len() && pairs[i].0 == key && (forall|j: int|
            i < j < pairs.len() ==> (#[trigger] pairs[j]).0 != key) ==> web::last_value(pairs, key)
            == pairs[i].1,
        (forall|j: int| 0 <= j < pairs.len() ==> (#[trigger] pairs[j]).0 != key) ==> web::last_value(
            pairs,
            key,
        ).len() == 0,
    decreases pairs.len(),
{
    if pairs.len() > 0 {
        let front = pairs.drop_last();
        lemma_last_value(front, key, i);
        if i < pairs.len() - 1 {
            if 0 <= i {
                assert(front[i] == pairs[i]);
            }
            assert(forall|j: int| 0 <= j < front.len() ==> (#[trigger] front[j]) == pairs[j]);
        }
        assert(pairs.last() == pairs[pairs.len() - 1]);
        if forall|j: int| 0 <= j < pairs.len() ==> (#[trigger] pairs[j]).0 != key {
            assert forall|j: int| 0 <= j < front.len() implies (#[trigger] front[j]).0 != key by {
                assert(front[j] == pairs[j]);
            }
        }
    }
}

// ── addresses ────────────────────────────────────────────────────────────────

/// Only slashes.
pub open spec fn slashes(s: Seq<char>) -> bool {
    forall|i: int| 0 <= i < s.len() ==> #[trigger] s[i] == '/'
}

proof fn lemma_slashes(core: Seq<char>, tail: Seq<char>)
    requires
        slashes(tail),
        core.len() > 0 ==> core[core.len() - 1] != '/',
    ensures
        web::without_slashes(core + tail) == core,
    decreases tail.len(),
{
    if tail.len() > 0 {
        assert((core + tail).last() == tail[tail.len() - 1]);
        assert((core + tail).drop_last() =~= core + tail.drop_last());
        assert(slashes(tail.drop_last())) by {
            assert forall|i: int| 0 <= i < tail.drop_last().len() implies #[trigger] tail.drop_last()[i]
                == '/' by {
                assert(tail.drop_last()[i] == tail[i]);
            }
        }
        lemma_slashes(core, tail.drop_last());
    } else {
        assert(core + tail =~= core);
    }
}

proof fn lemma_without(p: Seq<char>, s: Seq<char>)
    requires
        p.len() > 0,
        !p.is_prefix_of(s),
    ensures
        web::without_prefix(s, p) == s,
        web::without_prefix(p + s, p) == s,
{
    assert((p + s).subrange(0, p.len() as int) =~= p);
    assert((p + s).skip(p.len() as int) =~= s);
    reveal_with_fuel(web::without_prefix, 3);
}

/// A host that a scheme may stand in front of and slashes behind: it names no scheme itself, and
/// does not end in a slash.
pub open spec fn is_host(host: Seq<char>, tail: Seq<char>) -> bool {
    &&& host.len() > 0
    &&& host[host.len() - 1] != '/'
    &&& !"http://"@.is_prefix_of(host + tail)
    &&& !"https://"@.is_prefix_of(host + tail)
}

/// The address to dial is the host, without the scheme in front and the slashes behind it, and so
/// is the name that it is called by.
pub proof fn lemma_host(host: Seq<char>, tail: Seq<char>)
    requires
        is_host(host, tail),
        slashes(tail),
    ensures
        web::dial_address("http://"@ + host + tail) == host,
        web::dial_address("https://"@ + host + tail) == host,
        web::dial_address(host + tail) == host,
        web::host_name("http://"@ + host + tail) == host,
        web::host_name("https://"@ + host + tail) == host,
        web::host_name(host + tail) == host,
{
    reveal_strlit("http://");
    reveal_strlit("https://");
    let a = "http://"@;
    let b = "https://"@;
    assert(a.len() == 7 && b.len() == 8 && a[0] == 'h' && b[0] == 'h' && a[4] == ':' && b[4]
        == 's');
    let whole = host + tail;
    assert(!a.is_prefix_of(host) && !b.is_prefix_of(host)) by {
        if a.is_prefix_of(host) {
            assert(whole.subrange(0, 7) =~= host.subrange(0, 7));
        }
        if b.is_prefix_of(host) {
            assert(whole.subrange(0, 8) =~= host.subrange(0, 8));
        }
    }
    assert(!a.is_prefix_of(b + host) && !a.is_prefix_of(b + whole)) by {
        if a.is_prefix_of(b + host) {
            assert((b + host).subrange(0, 7)[4] == (b + host)[4]);
        }
        if a.is_prefix_of(b + whole) {
            assert((b + whole).subrange(0, 7)[4] == (b + whole)[4]);
        }
    }
    assert(a + host + tail =~= (a + host) + tail && a + host + tail =~= a + whole);
    assert(b + host + tail =~= (b + host) + tail && b + host + tail =~= b + whole);
    lemma_slashes(a + host, tail);
    lemma_slashes(b + host, tail);
    lemma_slashes(host, tail);
    lemma_without(a, host);
    lemma_without(b, host);
    lemma_without(a, whole);
    lemma_without(b, whole);
    lemma_without(a, b + host);
    lemma_without(a, b + whole);
}

} // verus!
