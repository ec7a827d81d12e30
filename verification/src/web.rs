//! Query strings and peer addresses.

use vstd::prelude::*;
use vstd::utf8::*;

use crate::text;

verus! {

// ── percent-decoding ─────────────────────────────────────────────────────────

/// The value of a hexadecimal digit, in ASCII.
pub open spec fn hex_value(b: u8) -> Option<int> {
    if 48 <= b <= 57 {
        Some(b - 48)
    } else if 65 <= b <= 70 {
        Some(b - 55)
    } else if 97 <= b <= 102 {
        Some(b - 87)
    } else {
        None
    }
}

/// The byte that the two characters behind a `%` write: two hexadecimal digits, or a `+` and
/// one digit.
pub open spec fn escaped(x: u8, y: u8) -> Option<u8> {
    match hex_value(y) {
        None => None,
        Some(low) => if x == 43 {
            Some(low as u8)
        } else {
            match hex_value(x) {
                Some(high) => Some((high * 16 + low) as u8),
                None => None,
            }
        },
    }
}

/// The bytes of a query with its escapes resolved, and spaces in place of `+`.
pub open spec fn unescaped(b: Seq<u8>) -> Seq<u8>
    decreases b.len(),
{
    if b.len() == 0 {
        seq![]
    } else if b[0] == 37 && b.len() > 2 && escaped(b[1], b[2]) is Some {
        seq![escaped(b[1], b[2]).unwrap()] + unescaped(b.skip(3))
    } else {
        seq![if b[0] == 43 {
            32u8
        } else {
            b[0]
        }] + unescaped(b.skip(1))
    }
}

/// No escape cuts a character in two: where two bytes follow a `%`, a character ends behind
/// them.
pub open spec fn whole_escapes(b: Seq<u8>) -> bool
    decreases b.len(),
{
    if b.len() == 0 {
        true
    } else if b[0] == 37 && b.len() > 2 {
        (b.len() > 3 ==> !(128 <= b[3] < 192)) && whole_escapes(
            b.skip(
                if escaped(b[1], b[2]) is Some {
                    3
                } else {
                    1
                },
            ),
        )
    } else {
        whole_escapes(b.skip(1))
    }
}

/// The text of bytes, with replacement characters where they are not UTF-8.
pub uninterp spec fn lossy_text(b: Seq<u8>) -> Seq<char>;

/// `String::from_utf8_lossy`: the text of the bytes, which is their UTF-8 decoding where they
/// are valid UTF-8.
#[verifier::external_body]
fn text_lossy(b: &[u8]) -> (r: String)
    ensures
        r@ == lossy_text(b@),
        valid_utf8(b@) ==> r@ == decode_utf8(b@),
{
    String::from_utf8_lossy(b).into_owned()
}

fn digit_value(b: u8) -> (r: Option<u8>)
    ensures
        match r {
            Some(v) => hex_value(b) == Some(v as int) && v < 16,
            None => hex_value(b) is None,
        },
{
    if 48 <= b && b <= 57 {
        Some(b - 48)
    } else if 65 <= b && b <= 70 {
        Some(b - 55)
    } else if 97 <= b && b <= 102 {
        Some(b - 87)
    } else {
        None
    }
}

fn escape_value(x: u8, y: u8) -> (r: Option<u8>)
    ensures
        r == escaped(x, y),
{
    match digit_value(y) {
        None => None,
        Some(low) => if x == 43 {
            Some(low)
        } else {
            match digit_value(x) {
                Some(high) => Some(high * 16 + low),
                None => None,
            }
        },
    }
}

/// Whether no escape cuts a character in two.
pub fn can_decode(s: &str) -> (r: bool)
    ensures
        r == whole_escapes(encode_utf8(s@)),
{
    let b = s.as_bytes();
    let n: usize = b.len();
    let mut i: usize = 0;
    assert(b@.skip(0) =~= b@);
    while i < n
        invariant
            i <= n,
            n == b@.len(),
            b@ == encode_utf8(s@),
            whole_escapes(b@.skip(i as int)) == whole_escapes(b@),
        decreases n - i,
    {
        let ghost rest = b@.skip(i as int);
        proof {
            assert(rest[0] == b@[i as int]);
            assert(rest.skip(1) =~= b@.skip(i + 1));
        }
        if b[i] == 37 && n - i > 2 {
            proof {
                assert(rest[1] == b@[i + 1] && rest[2] == b@[i + 2]);
                assert(rest.skip(3) =~= b@.skip(i + 3));
                if n - i > 3 {
                    assert(rest[3] == b@[i + 3]);
                }
            }
            if n - i > 3 && 128 <= b[i + 3] && b[i + 3] < 192 {
                return false;
            }
            if escape_value(b[i + 1], b[i + 2]).is_some() {
                i += 3;
            } else {
                i += 1;
            }
        } else {
            i += 1;
        }
    }
    true
}

/// Resolves the escapes of a query text.
pub fn percent_decode(s: &str) -> (r: String)
    requires
        whole_escapes(encode_utf8(s@)),
    ensures
        r@ == lossy_text(unescaped(encode_utf8(s@))),
        valid_utf8(unescaped(encode_utf8(s@))) ==> r@ == decode_utf8(unescaped(encode_utf8(s@))),
{
    let b = s.as_bytes();
    let n: usize = b.len();
    let mut out: Vec<u8> = Vec::new();
    let mut i: usize = 0;
    assert(b@.skip(0) =~= b@);
    assert(out@ + unescaped(b@.skip(0)) =~= unescaped(b@));
    while i < n
        invariant
            i <= n,
            n == b@.len(),
            out@ + unescaped(b@.skip(i as int)) == unescaped(b@),
        decreases n - i,
    {
        let ghost rest = b@.skip(i as int);
        proof {
            assert(rest[0] == b@[i as int]);
            assert(rest.skip(1) =~= b@.skip(i + 1));
            if rest.len() > 2 {
                assert(rest[1] == b@[i + 1] && rest[2] == b@[i + 2]);
                assert(rest.skip(3) =~= b@.skip(i + 3));
            }
        }
        let escape: Option<u8> = if b[i] == 37 && n - i > 2 {
            escape_value(b[i + 1], b[i + 2])
        } else {
            None
        };
        let ghost was = out@;
        match escape {
            Some(v) => {
                out.push(v);
                proof {
                    assert(unescaped(rest) == seq![v] + unescaped(b@.skip(i + 3)));
                    assert(was + (seq![v] + unescaped(b@.skip(i + 3))) =~= out@ + unescaped(
                        b@.skip(i + 3),
                    ));
                }
                i += 3;
            },
            None => {
                let v: u8 = if b[i] == 43 {
                    32
                } else {
                    b[i]
                };
                out.push(v);
                proof {
                    assert(unescaped(rest) == seq![v] + unescaped(b@.skip(i + 1)));
                    assert(was + (seq![v] + unescaped(b@.skip(i + 1))) =~= out@ + unescaped(
                        b@.skip(i + 1),
                    ));
                }
                i += 1;
            },
        }
    }
    proof {
        assert(b@.skip(n as int) =~= Seq::<u8>::empty());
        assert(out@ + unescaped(b@.skip(n as int)) =~= out@);
    }
    text_lossy(out.as_slice())
}

// ── query pairs ──────────────────────────────────────────────────────────────

/// The text that a query text stands for.
pub open spec fn decoded_text(s: Seq<char>) -> Seq<char> {
    let b = unescaped(encode_utf8(s));
    if valid_utf8(b) {
        decode_utf8(b)
    } else {
        lossy_text(b)
    }
}

/// The first position of `c` in `s`, or its length.
pub open spec fn first_or_end(s: Seq<char>, c: char) -> nat
    decreases s.len(),
{
    if s.len() == 0 || s[0] == c {
        0
    } else {
        1 + first_or_end(s.drop_first(), c)
    }
}

/// The raw key and value of a piece of a query, where it has a `=`.
pub open spec fn raw_pair(piece: Seq<char>) -> Option<(Seq<char>, Seq<char>)> {
    let at = first_or_end(piece, '=') as int;
    if at < piece.len() {
        Some((piece.take(at), piece.skip(at + 1)))
    } else {
        None
    }
}

/// The raw pairs of a query: the pieces between `&`, each with a `=`.
pub open spec fn raw_pairs(q: Seq<char>) -> Seq<(Seq<char>, Seq<char>)>
    decreases q.len(),
{
    let at = first_or_end(q, '&') as int;
    let head = match raw_pair(q.take(at)) {
        Some(p) => seq![p],
        None => seq![],
    };
    if at < q.len() {
        head + raw_pairs(q.skip(at + 1))
    } else {
        head
    }
}

/// The pairs of a query with their escapes resolved.
pub open spec fn pairs_of(q: Seq<char>) -> Seq<(Seq<char>, Seq<char>)> {
    raw_pairs(q).map_values(
        |p: (Seq<char>, Seq<char>)| (decoded_text(p.0), decoded_text(p.1)),
    )
}

/// No key or value of a query has an escape that cuts a character in two.
pub open spec fn decodable(q: Seq<char>) -> bool {
    forall|i: int|
        0 <= i < raw_pairs(q).len() ==> whole_escapes(encode_utf8((#[trigger] raw_pairs(q)[i]).0))
            && whole_escapes(encode_utf8(raw_pairs(q)[i].1))
}

fn find_or_end(v: &Vec<char>, from: usize, to: usize, c: char) -> (r: usize)
    requires
        from <= to <= v@.len(),
    ensures
        from <= r <= to,
        r - from == first_or_end(v@.subrange(from as int, to as int), c),
{
    let ghost all = v@.subrange(from as int, to as int);
    let mut i: usize = from;
    while i < to && v[i] != c
        invariant
            from <= i <= to <= v@.len(),
            all == v@.subrange(from as int, to as int),
            i - from + first_or_end(v@.subrange(i as int, to as int), c) == first_or_end(all, c),
        decreases to - i,
    {
        assert(v@.subrange(i as int, to as int).drop_first() =~= v@.subrange(i + 1, to as int));
        i += 1;
    }
    i
}

fn split_pairs(q: &str) -> (r: Vec<(String, String)>)
    ensures
        crate::seqs::views(r@) == raw_pairs(q@),
{
    let v = text::chars_of(q);
    let n: usize = v.len();
    let mut out: Vec<(String, String)> = Vec::new();
    let mut from: usize = 0;
    assert(v@.subrange(0, n as int) =~= q@);
    assert(crate::seqs::views(out@) + raw_pairs(q@) =~= raw_pairs(q@));
    loop
        invariant
            from <= n,
            n == v@.len(),
            crate::seqs::views(out@) + raw_pairs(v@.subrange(from as int, n as int)) == raw_pairs(
                q@,
            ),
        decreases n - from,
    {
        let ghost rest = v@.subrange(from as int, n as int);
        let ghost was = crate::seqs::views(out@);
        let end: usize = find_or_end(&v, from, n, '&');
        let at: usize = find_or_end(&v, from, end, '=');
        let ghost piece = rest.take(end - from);
        proof {
            assert(v@.subrange(from as int, end as int) =~= piece);
        }
        if at < end {
            let item = (
                text::text_of(v.as_slice(), from, at),
                text::text_of(v.as_slice(), at + 1, end),
            );
            proof {
                assert(item.0@ =~= piece.take(at - from));
                assert(item.1@ =~= piece.skip(at - from + 1));
                crate::seqs::lemma_views_push(out@, item);
                assert(raw_pair(piece) == Some(item@));
            }
            out.push(item);
            assert(crate::seqs::views(out@) =~= was + seq![raw_pair(piece).unwrap()]);
        } else {
            assert(raw_pair(piece) is None);
        }
        let ghost head = match raw_pair(piece) {
            Some(p) => seq![p],
            None => seq![],
        };
        assert(crate::seqs::views(out@) =~= was + head);
        if end == n {
            assert(raw_pairs(rest) == head);
            return out;
        }
        proof {
            assert(rest.skip(end - from + 1) =~= v@.subrange(end + 1, n as int));
            assert(raw_pairs(rest) == head + raw_pairs(v@.subrange(end + 1, n as int)));
            assert((was + head) + raw_pairs(v@.subrange(end + 1, n as int)) =~= was + raw_pairs(
                rest,
            ));
        }
        from = end + 1;
    }
}

/// Whether a query can be decoded.
pub fn can_decode_query(q: &str) -> (r: bool)
    ensures
        r == decodable(q@),
{
    let pairs = split_pairs(q);
    let ghost all = raw_pairs(q@);
    let mut i: usize = 0;
    while i < pairs.len()
        invariant
            i <= pairs@.len(),
            all == raw_pairs(q@),
            crate::seqs::views(pairs@) == all,
            forall|j: int|
                0 <= j < i ==> whole_escapes(encode_utf8((#[trigger] all[j]).0)) && whole_escapes(
                    encode_utf8(all[j].1),
                ),
        decreases pairs@.len() - i,
    {
        assert(all[i as int] == pairs@[i as int]@);
        if !can_decode(pairs[i].0.as_str()) || !can_decode(pairs[i].1.as_str()) {
            return false;
        }
        i += 1;
    }
    true
}

/// Parses `k=v&k=v` query pairs with percent-decoding.
pub fn url_query_pairs(q: &str) -> (r: Vec<(String, String)>)
    requires
        decodable(q@),
    ensures
        crate::seqs::views(r@) == pairs_of(q@),
{
    let pairs = split_pairs(q);
    let ghost all = pairs_of(q@);
    let mut out: Vec<(String, String)> = Vec::new();
    let mut i: usize = 0;
    assert(crate::seqs::views(out@) =~= all.take(0));
    while i < pairs.len()
        invariant
            i <= pairs@.len(),
            decodable(q@),
            all == pairs_of(q@),
            crate::seqs::views(pairs@) == raw_pairs(q@),
            crate::seqs::views(out@) == all.take(i as int),
        decreases pairs@.len() - i,
    {
        assert(raw_pairs(q@)[i as int] == pairs@[i as int]@);
        let item = (percent_decode(pairs[i].0.as_str()), percent_decode(pairs[i].1.as_str()));
        proof {
            crate::seqs::lemma_views_push(out@, item);
            assert(all.take(i + 1) =~= all.take(i as int).push(item@));
        }
        out.push(item);
        i += 1;
    }
    assert(all.take(all.len() as int) =~= all);
    out
}

/// The value of the last pair with this key; empty where there is none.
pub open spec fn last_value(pairs: Seq<(Seq<char>, Seq<char>)>, key: Seq<char>) -> Seq<char>
    decreases pairs.len(),
{
    if pairs.len() == 0 {
        seq![]
    } else if pairs.last().0 == key {
        pairs.last().1
    } else {
        last_value(pairs.drop_last(), key)
    }
}

/// The value of the last pair with this key; empty where there is none.
pub fn query_value(pairs: &Vec<(String, String)>, key: &str) -> (r: String)
    ensures
        r@ == last_value(crate::seqs::views(pairs@), key@),
{
    let ghost all = crate::seqs::views(pairs@);
    let mut i: usize = pairs.len();
    assert(all.take(all.len() as int) =~= all);
    while i > 0
        invariant
            i <= pairs@.len(),
            all == crate::seqs::views(pairs@),
            last_value(all.take(i as int), key@) == last_value(all, key@),
        decreases i,
    {
        proof {
            assert(all.take(i as int).last() == pairs@[i - 1]@);
            assert(all.take(i as int).drop_last() =~= all.take(i - 1));
        }
        if text::same_text(pairs[i - 1].0.as_str(), key) {
            return pairs[i - 1].1.clone();
        }
        i -= 1;
    }
    let r = String::new();
    assert(r@ =~= last_value(all.take(0), key@));
    r
}

// ── peer addresses ───────────────────────────────────────────────────────────

/// `s` without the copies of `p` at its start.
pub open spec fn without_prefix(s: Seq<char>, p: Seq<char>) -> Seq<char>
    decreases s.len(),
{
    if p.len() > 0 && p.is_prefix_of(s) {
        without_prefix(s.skip(p.len() as int), p)
    } else {
        s
    }
}

/// `s` without the slashes at its end.
pub open spec fn without_slashes(s: Seq<char>) -> Seq<char>
    decreases s.len(),
{
    if s.len() > 0 && s.last() == '/' {
        without_slashes(s.drop_last())
    } else {
        s
    }
}

/// The address to connect to for a peer's URL.
pub open spec fn dial_address(url: Seq<char>) -> Seq<char> {
    without_prefix(without_prefix(without_slashes(url), "http://"@), "https://"@)
}

/// The host that a request to a peer names.
pub open spec fn host_name(url: Seq<char>) -> Seq<char> {
    without_slashes(without_prefix(without_prefix(url, "http://"@), "https://"@))
}

fn strip_prefixes(v: &Vec<char>, from: usize, to: usize, p: &str) -> (r: usize)
    requires
        from <= to <= v@.len(),
        p@.len() > 0,
    ensures
        from <= r <= to,
        v@.subrange(r as int, to as int) == without_prefix(
            v@.subrange(from as int, to as int),
            p@,
        ),
{
    let w = text::chars_of(p);
    let n: usize = w.len();
    let mut a: usize = from;
    loop
        invariant
            from <= a <= to <= v@.len(),
            w@ == p@,
            n == p@.len(),
            n > 0,
            without_prefix(v@.subrange(a as int, to as int), p@) == without_prefix(
                v@.subrange(from as int, to as int),
                p@,
            ),
        decreases to - a,
    {
        let tail = vstd::slice::slice_subrange(v.as_slice(), a, to);
        if !text::chars_start_with(tail, w.as_slice()) {
            return a;
        }
        assert(v@.subrange(a as int, to as int).skip(n as int) =~= v@.subrange(a + n, to as int));
        a = a + n;
    }
}

fn strip_slashes(v: &Vec<char>, from: usize, to: usize) -> (r: usize)
    requires
        from <= to <= v@.len(),
    ensures
        from <= r <= to,
        v@.subrange(from as int, r as int) == without_slashes(v@.subrange(from as int, to as int)),
{
    let mut b: usize = to;
    while b > from && v[b - 1] == '/'
        invariant
            from <= b <= to <= v@.len(),
            without_slashes(v@.subrange(from as int, b as int)) == without_slashes(
                v@.subrange(from as int, to as int),
            ),
        decreases b - from,
    {
        assert(v@.subrange(from as int, b as int).drop_last() =~= v@.subrange(
            from as int,
            b - 1,
        ));
        b -= 1;
    }
    b
}

/// The `host:port` to connect to for a peer's internal URL, e.g. "http://site-a:8015".
pub fn dial_target(url: &str) -> (r: String)
    ensures
        r@ == dial_address(url@),
{
    let v = text::chars_of(url);
    proof {
        reveal_strlit("http://");
        reveal_strlit("https://");
        assert(v@.subrange(0, v@.len() as int) =~= url@);
    }
    let to: usize = strip_slashes(&v, 0, v.len());
    let a: usize = strip_prefixes(&v, 0, to, "http://");
    let b: usize = strip_prefixes(&v, a, to, "https://");
    text::text_of(v.as_slice(), b, to)
}

/// The `Host` header for a request to a peer's internal URL.
pub fn host_header(url: &str) -> (r: String)
    ensures
        r@ == host_name(url@),
{
    let v = text::chars_of(url);
    let n: usize = v.len();
    proof {
        reveal_strlit("http://");
        reveal_strlit("https://");
        assert(v@.subrange(0, v@.len() as int) =~= url@);
    }
    let a: usize = strip_prefixes(&v, 0, n, "http://");
    let b: usize = strip_prefixes(&v, a, n, "https://");
    let to: usize = strip_slashes(&v, b, n);
    text::text_of(v.as_slice(), b, to)
}

} // verus!
