//! What the nodes of a cluster ask each other, and what they answer.

use vstd::prelude::*;

use crate::codec;
use crate::internal;
use crate::internal::Answer;
use crate::internal::RouteView;
use crate::laws::numbers;
use crate::laws::queries;
use crate::order::KeyOrder;
use crate::peers;
use crate::replication;
use crate::rows;
use crate::seqs;
use crate::storage::StorageBackend;
use crate::store::StoreView;
use crate::table;
use crate::text;
use crate::web;

verus! {

// ── hexadecimal texts ────────────────────────────────────────────────────────

/// `c` is the hexadecimal digit of `n`, small where it is a letter.
pub open spec fn is_small_hex(c: char, n: int) -> bool {
    ||| 0 <= n <= 9 && c as int == 48 + n
    ||| 10 <= n <= 15 && c as int == 87 + n
}

/// `c` is the hexadecimal digit of `n`.
pub open spec fn is_hex_char(c: char, n: int) -> bool {
    is_small_hex(c, n) || (10 <= n <= 15 && c as int == 55 + n)
}

/// Bytes are written as two small hexadecimal digits each, the high one first.
pub proof fn lemma_hex_text(data: Seq<u8>, i: int)
    requires
        0 <= i < data.len(),
    ensures
        codec::hex_text(data).len() == 2 * data.len(),
        is_small_hex(codec::hex_text(data)[2 * i], data[i] as int / 16),
        is_small_hex(codec::hex_text(data)[2 * i + 1], data[i] as int % 16),
{
    assert((2 * i) / 2 == i && (2 * i) % 2 == 0);
    assert((2 * i + 1) / 2 == i && (2 * i + 1) % 2 == 1);
}

/// Two hexadecimal digits, small or capital, are read as the byte that they write.
pub proof fn lemma_hex_bytes(s: Seq<char>, i: int, high: int, low: int)
    requires
        0 <= i,
        2 * i + 1 < s.len(),
        is_hex_char(s[2 * i], high),
        is_hex_char(s[2 * i + 1], low),
    ensures
        codec::hex_bytes(s).len() == s.len() / 2,
        codec::hex_bytes(s)[i] == 16 * high + low,
        codec::is_hex_digit(s[2 * i]),
{
    assert(i < s.len() / 2);
    assert(codec::hex_digit_value(s[2 * i]) == high);
    assert(codec::hex_digit_value(s[2 * i + 1]) == low);
}

/// What is hexadecimal: an even number of the digits and the first six letters.
pub proof fn lemma_is_hex(s: Seq<char>)
    ensures
        codec::is_hex(s) == (s.len() % 2 == 0 && forall|i: int|
            0 <= i < s.len() ==> (48 <= (#[trigger] s[i]) as int <= 57 || 65 <= s[i] as int <= 70
                || 97 <= s[i] as int <= 102)),
{
    if codec::is_hex(s) {
        assert forall|i: int| 0 <= i < s.len() implies (48 <= (#[trigger] s[i]) as int <= 57 || 65
            <= s[i] as int <= 70 || 97 <= s[i] as int <= 102) by {
            assert(codec::is_hex_digit(s[i]));
        }
    }
}

// ── routes ───────────────────────────────────────────────────────────────────

proof fn lemma_paths()
    ensures
        "/internal/facts/"@.len() == 16,
        "/internal/blocks/"@.len() == 17,
        "/internal/cluster/config"@[10] == 'c',
        "/internal/nodes"@[10] == 'n',
        "/internal/join"@[10] == 'j',
        "/internal/facts/"@[10] == 'f',
        "/internal/gc/force"@[10] == 'g',
        "/internal/blocks/"@[10] == 'b',
{
    reveal_strlit("/internal/cluster/config");
    reveal_strlit("/internal/nodes");
    reveal_strlit("/internal/join");
    reveal_strlit("/internal/facts/");
    reveal_strlit("/internal/gc/force");
    reveal_strlit("/internal/blocks/");
}

proof fn lemma_at_ten(p: Seq<char>, s: Seq<char>)
    requires
        p.len() > 10,
        p.is_prefix_of(s),
    ensures
        s[10] == p[10],
{
    assert(s.subrange(0, p.len() as int)[10] == p[10]);
}

/// The fixed endpoints.
pub proof fn lemma_fixed_routes(query: Option<Seq<char>>)
    ensures
        internal::open_route("/internal/cluster/config"@, query) == RouteView::ClusterConfig,
        internal::open_route("/internal/nodes"@, query) == RouteView::Nodes,
        internal::open_route("/internal/gc/force"@, query) == RouteView::ForceGc,
{
    lemma_paths();
    let gc = "/internal/gc/force"@;
    if "/internal/facts/"@.is_prefix_of(gc) {
        lemma_at_ten("/internal/facts/"@, gc);
    }
}

/// The log behind a number is asked for by that number, in decimal; what is no number that fits
/// counts as zero.
pub proof fn lemma_facts_route(t: Seq<char>, query: Option<Seq<char>>)
    ensures
        ({
            let n = text::decimal_value(t, true);
            internal::open_route("/internal/facts/"@ + t, query) == RouteView::Facts {
                after: if n is Some && i64::MIN <= n.unwrap() <= i64::MAX {
                    n.unwrap() as i64
                } else {
                    0
                },
            }
        }),
        numbers::digits_only(t) && t.len() > 0 && numbers::worth(t) <= i64::MAX
            ==> internal::open_route("/internal/facts/"@ + t, query) == (RouteView::Facts {
            after: numbers::worth(t) as i64,
        }),
{
    lemma_paths();
    let head = "/internal/facts/"@;
    let path = head + t;
    assert(path[10] == head[10]);
    assert(path.subrange(0, head.len() as int) =~= head);
    assert(path.skip(head.len() as int) =~= t);
    if numbers::digits_only(t) && t.len() > 0 {
        numbers::lemma_read_number(t, true);
        numbers::lemma_value(t);
    }
}

/// A block is asked for by its hash in hexadecimal, of 32 bytes.
pub proof fn lemma_block_route(t: Seq<char>, query: Option<Seq<char>>)
    ensures
        ({
            let r = internal::open_route("/internal/blocks/"@ + t, query);
            &&& !codec::is_hex(t) ==> r == RouteView::BadHash
            &&& codec::is_hex(t) && t.len() != 64 ==> r == RouteView::ShortHash
            &&& codec::is_hex(t) && t.len() == 64 ==> r == (RouteView::Block {
                hash: codec::hex_bytes(t),
            })
        }),
{
    lemma_paths();
    let head = "/internal/blocks/"@;
    let path = head + t;
    assert(path[10] == head[10]);
    assert(path.subrange(0, head.len() as int) =~= head);
    assert(path.skip(head.len() as int) =~= t);
    if "/internal/facts/"@.is_prefix_of(path) {
        lemma_at_ten("/internal/facts/"@, path);
    }
}

/// A node joins with its name and its address, the last of each in the query.
pub proof fn lemma_join_route(q: Seq<char>)
    ensures
        internal::open_route("/internal/join"@, Some(q)) == (RouteView::Join {
            id: web::last_value(web::pairs_of(q), "id"@),
            addr: web::last_value(web::pairs_of(q), "addr"@),
        }),
        internal::open_route("/internal/join"@, None) == (RouteView::Join {
            id: seq![],
            addr: seq![],
        }),
{
    lemma_paths();
}

/// Nothing else is an endpoint.
pub proof fn lemma_no_route(path: Seq<char>, query: Option<Seq<char>>)
    requires
        path != "/internal/cluster/config"@,
        path != "/internal/nodes"@,
        path != "/internal/join"@,
        path != "/internal/gc/force"@,
        !"/internal/facts/"@.is_prefix_of(path),
        !"/internal/blocks/"@.is_prefix_of(path),
    ensures
        internal::open_route(path, query) == RouteView::NotFound,
{
}

/// Every endpoint asks for the secret of the cluster.
pub proof fn lemma_secret(
    provided: Option<Seq<char>>,
    secret: Seq<char>,
    path: Seq<char>,
    query: Option<Seq<char>>,
)
    ensures
        provided == Some(secret) ==> internal::route_of(provided, secret, path, query)
            == internal::open_route(path, query),
        provided != Some(secret) ==> internal::route_of(provided, secret, path, query)
            == RouteView::Unauthorized,
{
}

/// Every request can be routed but one to join whose query cannot be read.
pub proof fn lemma_routable(
    provided: Option<Seq<char>>,
    secret: Seq<char>,
    path: Seq<char>,
    query: Option<Seq<char>>,
)
    ensures
        provided != Some(secret) || path != "/internal/join"@ || query is None
            ==> internal::routable(provided, secret, path, query),
        query matches Some(q) ==> web::decodable(q) ==> internal::routable(
            provided,
            secret,
            path,
            query,
        ),
{
}

// ── what nodes ask for ───────────────────────────────────────────────────────

proof fn lemma_signed_read(n: int)
    ensures
        text::decimal_value(text::signed_text(n), true) == Some(n),
{
    numbers::lemma_signed(n);
    let size = if n < 0 {
        -n
    } else {
        n
    };
    let digits = text::decimal_text(size as nat);
    numbers::lemma_written(size as nat);
    numbers::lemma_read_number(digits, true);
    if n < 0 {
        let t = text::signed_text(n);
        assert(t =~= seq!['-'] + digits) by {
            assert forall|i: int| 0 <= i < t.len() implies t[i] == (seq!['-'] + digits)[i] by {
                if i > 0 {
                    assert(t.drop_first()[i - 1] == t[i]);
                }
            }
            assert(t.drop_first().len() == t.len() - 1);
        }
    }
}

/// A node that asks for the log behind a number is understood as asking for just that.
pub proof fn lemma_facts_request(after: i64, query: Option<Seq<char>>)
    ensures
        internal::open_route(peers::facts_request(after), query) == (RouteView::Facts { after }),
{
    lemma_facts_route(text::signed_text(after as int), query);
    lemma_signed_read(after as int);
}

/// A node that asks for a block is understood as asking for the block of that hash.
pub proof fn lemma_block_request(hash: Seq<u8>, query: Option<Seq<char>>)
    requires
        hash.len() == 32,
    ensures
        internal::open_route(peers::block_request(hash), query) == (RouteView::Block { hash }),
{
    lemma_block_route(codec::hex_text(hash), query);
    codec::lemma_hex_round_trip(hash);
}

/// A node that joins sends its name and its address.
pub proof fn lemma_join_request(id: Seq<char>, addr: Seq<char>)
    requires
        !id.contains('&'),
        !addr.contains('&'),
    ensures
        ({
            let query = "id="@ + id + "&addr="@ + addr;
            &&& peers::join_request(id, addr) == "/internal/join"@ + "?"@ + query
            &&& web::raw_pairs(query) == seq![("id"@, id), ("addr"@, addr)]
        }),
{
    reveal_strlit("/internal/join");
    reveal_strlit("?");
    reveal_strlit("/internal/join?id=");
    reveal_strlit("id=");
    reveal_strlit("&addr=");
    reveal_strlit("id");
    reveal_strlit("addr");
    let query = "id="@ + id + "&addr="@ + addr;
    let first = "id"@ + seq!['='] + id;
    let second = "addr"@ + seq!['='] + addr;
    assert("/internal/join?id="@ =~= "/internal/join"@ + "?"@ + "id="@);
    assert(peers::join_request(id, addr) =~= "/internal/join"@ + "?"@ + query);
    assert("id="@ =~= "id"@ + seq!['=']);
    assert("&addr="@ =~= seq!['&'] + "addr"@ + seq!['=']);
    assert(query =~= first + seq!['&'] + second);
    assert(!"id"@.contains('=') && !"id"@.contains('&') && !"addr"@.contains('=')
        && !"addr"@.contains('&'));
    assert(!first.contains('&')) by {
        if first.contains('&') {
            let i = choose|i: int| 0 <= i < first.len() && first[i] == '&';
            if i >= 3 {
                assert(id[i - 3] == '&');
            }
        }
    }
    queries::lemma_pair("id"@, id);
    queries::lemma_pair("addr"@, addr);
    queries::lemma_pairs(first, second);
}

/// A peer goes by the name that it tells, and by its address where it tells none.
pub proof fn lemma_name(reported: Seq<char>, url: Seq<char>)
    ensures
        reported.len() > 0 ==> peers::name_of(reported, url) == reported,
        peers::name_of(seq![], url) == url,
{
}

/// A page of five hundred records is full; a page that is empty changes nothing, and every other
/// one is applied.
pub proof fn lemma_pages(
    s: StoreView,
    peer: Seq<char>,
    recs: Seq<rows::RecordView>,
    now_ms: i64,
)
    ensures
        peers::is_full_page(recs.len()) == (recs.len() >= 500),
        recs.len() == 0 ==> peers::page_merged(s, peer, recs, now_ms) == s,
        recs.len() > 0 ==> peers::page_merged(s, peer, recs, now_ms) == s.page_applied(
            peer,
            recs,
            now_ms,
        ),
{
}

/// A link is down from a failure on, until it works again; before the first failure it is not.
pub proof fn lemma_links(links: Map<Seq<char>, bool>, peer: Seq<char>, other: Seq<char>)
    ensures
        peers::is_down(links.insert(peer, false), peer),
        !peers::is_down(links.insert(peer, true), peer),
        !peers::is_down(Map::empty(), peer),
        other != peer ==> peers::is_down(links.insert(peer, false), other) == peers::is_down(
            links,
            other,
        ),
{
}

// ── answers ──────────────────────────────────────────────────────────────────

/// The answer is a text with that status.
pub open spec fn plainly(a: Answer, code: int, t: Seq<char>) -> bool {
    a matches Answer::Text { status, body } && status == code && body@ == t
}

/// The requests that are refused change nothing, and are told why.
pub proof fn lemma_refusals(
    before: StorageBackend,
    after: StoreView,
    time: i64,
    now_ms: i64,
    wall_ms: Option<i64>,
    a: Answer,
)
    ensures
        internal::answered(before, after, RouteView::Unauthorized, time, now_ms, wall_ms, a)
            ==> after == before.db@ && plainly(a, 401, "Unauthorized"@),
        internal::answered(before, after, RouteView::BadHash, time, now_ms, wall_ms, a) ==> after
            == before.db@ && plainly(a, 400, "Invalid hash"@),
        internal::answered(before, after, RouteView::ShortHash, time, now_ms, wall_ms, a) ==> after
            == before.db@ && plainly(a, 400, "Hash must be 32 bytes"@),
        internal::answered(before, after, RouteView::NotFound, time, now_ms, wall_ms, a) ==> after
            == before.db@ && plainly(a, 404, "Not found"@),
{
}

/// The configuration names the node and its address, and tells the time of the cluster.
pub proof fn lemma_config_answer(
    before: StorageBackend,
    after: StoreView,
    time: i64,
    now_ms: i64,
    wall_ms: Option<i64>,
    a: Answer,
)
    requires
        internal::answered(before, after, RouteView::ClusterConfig, time, now_ms, wall_ms, a),
    ensures
        after == before.db@,
        a matches Answer::ClusterConfig { cluster_time_micros, location_id, advertise_addr }
            && cluster_time_micros == time && location_id@
            == before.config.storage.local_location_id@ && advertise_addr@
            == before.config.server.advertise_addr@,
{
}

/// The nodes are all that are known, each with its address, in order.
pub proof fn lemma_nodes_answer(
    before: StorageBackend,
    after: StoreView,
    time: i64,
    now_ms: i64,
    wall_ms: Option<i64>,
    a: Answer,
    id: Seq<char>,
)
    requires
        table::enumerates(table::ordered(before.db@.nodes), before.db@.nodes),
        internal::answered(before, after, RouteView::Nodes, time, now_ms, wall_ms, a),
    ensures
        after == before.db@,
        a matches Answer::Nodes(v) && {
            let all = seqs::views(v@);
            let nodes = before.db@.nodes;
            &&& forall|i: int, j: int|
                0 <= i < j < all.len() ==> (#[trigger] all[i]).0.before((#[trigger] all[j]).0)
            &&& forall|i: int|
                0 <= i < all.len() ==> nodes.dom().contains((#[trigger] all[i]).0)
                    && nodes[all[i].0].api_url == all[i].1
            &&& nodes.dom().contains(id) ==> all.contains((id, nodes[id].api_url))
        },
{
    let nodes = before.db@.nodes;
    let s = table::ordered(nodes);
    let p = replication::any_node();
    let kept = s.filter(p);
    let all = internal::known_nodes(before.db@);
    table::lemma_filter_ascending(s, p);
    assert forall|i: int, j: int| 0 <= i < j < all.len() implies (#[trigger] all[i]).0.before(
        (#[trigger] all[j]).0,
    ) by {
        assert(kept[i].0.before(kept[j].0));
    }
    assert forall|i: int| 0 <= i < all.len() implies nodes.dom().contains((#[trigger] all[i]).0)
        && nodes[all[i].0].api_url == all[i].1 by {
        assert(kept.contains(kept[i]));
        seqs::lemma_filter_members(s, p, kept[i]);
        let x = choose|x: int| 0 <= x < s.len() && s[x] == kept[i];
        assert(nodes.dom().contains(s[x].0) && nodes[s[x].0] == s[x].1);
    }
    if nodes.dom().contains(id) {
        assert(s.contains((id, nodes[id])));
        seqs::lemma_filter_members(s, p, (id, nodes[id]));
        let x = choose|x: int| 0 <= x < kept.len() && kept[x] == (id, nodes[id]);
        assert(all[x] == (id, nodes[id].api_url));
    }
}

/// A node that joins is recorded, where it tells both its name and its address; either way it is
/// told that all is well.
pub proof fn lemma_join_answer(
    before: StorageBackend,
    after: StoreView,
    id: Seq<char>,
    addr: Seq<char>,
    time: i64,
    now_ms: i64,
    wall_ms: Option<i64>,
    a: Answer,
)
    requires
        internal::answered(
            before,
            after,
            RouteView::Join { id, addr },
            time,
            now_ms,
            wall_ms,
            a,
        ),
    ensures
        plainly(a, 200, "ok"@),
        id.len() > 0 && addr.len() > 0 ==> after == before.db@.with_peer(id, addr, now_ms),
        id.len() == 0 || addr.len() == 0 ==> after == before.db@,
{
}

/// The log is served in its order from behind the number, five hundred records at a time.
pub proof fn lemma_facts_answer(
    before: StorageBackend,
    after: StoreView,
    from: i64,
    time: i64,
    now_ms: i64,
    wall_ms: Option<i64>,
    a: Answer,
)
    requires
        internal::answered(
            before,
            after,
            RouteView::Facts { after: from },
            time,
            now_ms,
            wall_ms,
            a,
        ),
    ensures
        after == before.db@,
        a matches Answer::Facts(v) && {
            let sent = seqs::views(v@);
            let due = before.db@.log.filter(|r: rows::RecordView| r.seq > from);
            &&& sent.len() == if due.len() < 500 {
                due.len()
            } else {
                500
            }
            &&& forall|i: int| 0 <= i < sent.len() ==> (#[trigger] sent[i]) == due[i]
        },
{
    let log = before.db@.log;
    let p = |r: rows::RecordView| r.seq > from;
    crate::laws::pulls::lemma_same_filter(log, rows::behind(from), p);
}

/// A forced sweep is one at the time of the wall clock, with the grace of the configuration; where
/// the clock tells no time nothing is swept.
pub proof fn lemma_sweep_answer(
    before: StorageBackend,
    after: StoreView,
    time: i64,
    now_ms: i64,
    wall: i64,
    a: Answer,
)
    ensures
        internal::answered(before, after, RouteView::ForceGc, time, now_ms, None, a) ==> after
            == before.db@ && plainly(a, 500, "sweep failed"@),
        internal::answered(before, after, RouteView::ForceGc, time, now_ms, Some(wall), a) ==> {
            let grace = before.config.storage.gc_grace_period_seconds;
            &&& after == before.db@.swept(wall, grace, true)
            &&& a matches Answer::Swept(v) && seqs::views(v@) == before.db@.reap_list(
                wall,
                grace,
                true,
            )
        },
{
}

/// A block is served by its own hash.
pub proof fn lemma_block_answer(
    before: StorageBackend,
    after: StoreView,
    hash: Seq<u8>,
    time: i64,
    now_ms: i64,
    wall_ms: Option<i64>,
    a: Answer,
)
    requires
        internal::answered(before, after, RouteView::Block { hash }, time, now_ms, wall_ms, a),
    ensures
        after == before.db@,
        a matches Answer::Block { hash: h } && h@ == hash,
{
}

} // verus!
