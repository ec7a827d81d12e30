//! The internal endpoints that the nodes of a cluster offer each other.

use std::time::SystemTime;

use vstd::prelude::*;

use crate::clock;
use crate::codec;
use crate::maintenance;
use crate::replication;
use crate::rows;
use crate::rows::FactRecord;
use crate::seqs;
use crate::storage::StorageBackend;
use crate::store::StoreView;
use crate::table;
use crate::text;
use crate::web;

verus! {

/// Max facts returned per `/internal/facts` page; the puller loops on full pages
/// so a large backlog drains across several requests.
pub const FACT_SYNC_BATCH: i64 = 500;

/// What an internal request asks for.
pub enum Route {
    /// The cluster secret is missing or wrong.
    Unauthorized,
    /// The time and identity of this node.
    ClusterConfig,
    /// Every node that this site knows.
    Nodes,
    /// A joining node registers itself.
    Join { id: String, addr: String },
    /// The facts behind a sequence number.
    Facts { after: i64 },
    /// A stop-the-world orphan sweep.
    ForceGc,
    /// The bytes of a block.
    Block { hash: Vec<u8> },
    /// The hash of a block is not hexadecimal.
    BadHash,
    /// The hash of a block is not 32 bytes long.
    ShortHash,
    NotFound,
}

/// The contents of a route.
pub enum RouteView {
    Unauthorized,
    ClusterConfig,
    Nodes,
    Join { id: Seq<char>, addr: Seq<char> },
    Facts { after: i64 },
    ForceGc,
    Block { hash: Seq<u8> },
    BadHash,
    ShortHash,
    NotFound,
}

impl View for Route {
    type V = RouteView;

    open spec fn view(&self) -> RouteView {
        match self {
            Route::Unauthorized => RouteView::Unauthorized,
            Route::ClusterConfig => RouteView::ClusterConfig,
            Route::Nodes => RouteView::Nodes,
            Route::Join { id, addr } => RouteView::Join { id: id@, addr: addr@ },
            Route::Facts { after } => RouteView::Facts { after: *after },
            Route::ForceGc => RouteView::ForceGc,
            Route::Block { hash } => RouteView::Block { hash: hash@ },
            Route::BadHash => RouteView::BadHash,
            Route::ShortHash => RouteView::ShortHash,
            Route::NotFound => RouteView::NotFound,
        }
    }
}

/// The number that a path names; zero where it is none.
pub open spec fn seq_number(t: Seq<char>) -> i64 {
    match text::decimal_value(t, true) {
        Some(n) => if i64::MIN <= n <= i64::MAX {
            n as i64
        } else {
            0
        },
        None => 0,
    }
}

/// What a block path asks for.
pub open spec fn block_route(hex: Seq<char>) -> RouteView {
    if !codec::is_hex(hex) {
        RouteView::BadHash
    } else if codec::hex_bytes(hex).len() != 32 {
        RouteView::ShortHash
    } else {
        RouteView::Block { hash: codec::hex_bytes(hex) }
    }
}

/// What a request with a path and a query asks for, where it comes with the cluster secret.
pub open spec fn open_route(path: Seq<char>, query: Option<Seq<char>>) -> RouteView {
    if path == "/internal/cluster/config"@ {
        RouteView::ClusterConfig
    } else if path == "/internal/nodes"@ {
        RouteView::Nodes
    } else if path == "/internal/join"@ {
        let pairs = match query {
            Some(q) => web::pairs_of(q),
            None => seq![],
        };
        RouteView::Join {
            id: web::last_value(pairs, "id"@),
            addr: web::last_value(pairs, "addr"@),
        }
    } else if "/internal/facts/"@.is_prefix_of(path) {
        RouteView::Facts { after: seq_number(path.skip("/internal/facts/"@.len() as int)) }
    } else if path == "/internal/gc/force"@ {
        RouteView::ForceGc
    } else if "/internal/blocks/"@.is_prefix_of(path) {
        block_route(path.skip("/internal/blocks/"@.len() as int))
    } else {
        RouteView::NotFound
    }
}

/// What a request asks for. Without the cluster secret it gets nothing.
pub open spec fn route_of(
    provided: Option<Seq<char>>,
    secret: Seq<char>,
    path: Seq<char>,
    query: Option<Seq<char>>,
) -> RouteView {
    if provided == Some(secret) {
        open_route(path, query)
    } else {
        RouteView::Unauthorized
    }
}

/// The query of a join request can be decoded. A request without the cluster secret is
/// refused before its query is read.
pub open spec fn routable(
    provided: Option<Seq<char>>,
    secret: Seq<char>,
    path: Seq<char>,
    query: Option<Seq<char>>,
) -> bool {
    provided == Some(secret) && path == "/internal/join"@ ==> match query {
        Some(q) => web::decodable(q),
        None => true,
    }
}

/// The view of an optional text.
pub open spec fn opt(o: Option<&str>) -> Option<Seq<char>> {
    match o {
        Some(s) => Some(s@),
        None => None,
    }
}

fn authorized(provided: Option<&str>, secret: &str) -> (r: bool)
    ensures
        r == (opt(provided) == Some(secret@)),
{
    match provided {
        Some(p) => text::same_text(p, secret),
        None => false,
    }
}

/// Whether the query of a request can be decoded, where that matters.
pub fn can_route(provided: Option<&str>, secret: &str, path: &str, query: Option<&str>) -> (r: bool)
    ensures
        r == routable(opt(provided), secret@, path@, opt(query)),
{
    if !authorized(provided, secret) || !text::same_text(path, "/internal/join") {
        return true;
    }
    match query {
        Some(q) => web::can_decode_query(q),
        None => true,
    }
}

/// Finds out what a request asks for. After the handshake the secret header is still checked,
/// as a defence-in-depth sanity check.
pub fn route(provided: Option<&str>, secret: &str, path: &str, query: Option<&str>) -> (r: Route)
    requires
        routable(opt(provided), secret@, path@, opt(query)),
    ensures
        r@ == route_of(opt(provided), secret@, path@, opt(query)),
{
    if !authorized(provided, secret) {
        return Route::Unauthorized;
    }
    if text::same_text(path, "/internal/cluster/config") {
        return Route::ClusterConfig;
    }
    if text::same_text(path, "/internal/nodes") {
        return Route::Nodes;
    }
    if text::same_text(path, "/internal/join") {
        let pairs: Vec<(String, String)> = match query {
            Some(q) => web::url_query_pairs(q),
            None => Vec::new(),
        };
        assert(query is None ==> seqs::views(pairs@) =~= seq![]);
        return Route::Join {
            id: web::query_value(&pairs, "id"),
            addr: web::query_value(&pairs, "addr"),
        };
    }
    match text::text_strip_prefix(path, "/internal/facts/") {
        Some(rest) => {
            let after: i64 = match text::parse_i64(rest.as_str()) {
                Some(n) => n,
                None => 0,
            };
            return Route::Facts { after };
        },
        None => {},
    }
    if text::same_text(path, "/internal/gc/force") {
        return Route::ForceGc;
    }
    match text::text_strip_prefix(path, "/internal/blocks/") {
        Some(hex) => match codec::hex_decode(hex.as_str()) {
            Some(hash) => if hash.len() == 32 {
                Route::Block { hash }
            } else {
                Route::ShortHash
            },
            None => Route::BadHash,
        },
        None => Route::NotFound,
    }
}

// ── answers ──────────────────────────────────────────────────────────────────

/// How an internal request is answered.
pub enum Answer {
    /// A status and a plain text.
    Text { status: u16, body: String },
    /// The time and identity of this node, as JSON.
    ClusterConfig { cluster_time_micros: i64, location_id: String, advertise_addr: String },
    /// Nodes with their addresses, as JSON.
    Nodes(Vec<(String, String)>),
    /// A page of facts, as JSON.
    Facts(Vec<FactRecord>),
    /// `ok`, once the bytes of these blocks are deleted.
    Swept(Vec<(Vec<u8>, Vec<u8>)>),
    /// The bytes of this block, or a status 404 where they cannot be had.
    Block { hash: Vec<u8> },
}

/// A status and a plain text.
pub open spec fn says(a: Answer, code: int, t: Seq<char>) -> bool {
    a matches Answer::Text { status, body } && status == code && body@ == t
}

/// The nodes that a site knows, itself included.
pub open spec fn known_nodes(s: StoreView) -> Seq<(Seq<char>, Seq<char>)> {
    seqs::pick(table::ordered(s.nodes), replication::any_node(), replication::id_and_url())
}

/// A request of this route is answered with `a`, at `now_ms`, with `wall_ms` on the wall
/// clock and `time` on the cluster clock. A wall clock that lies before the Unix epoch allows
/// no sweep.
pub open spec fn answered(
    before: StorageBackend,
    after: StoreView,
    route: RouteView,
    time: i64,
    now_ms: i64,
    wall_ms: Option<i64>,
    a: Answer,
) -> bool {
    let s = before.db@;
    let grace = before.config.storage.gc_grace_period_seconds;
    match route {
        RouteView::Unauthorized => after == s && says(a, 401, "Unauthorized"@),
        RouteView::ClusterConfig => after == s && (a matches Answer::ClusterConfig {
            cluster_time_micros,
            location_id,
            advertise_addr,
        } && cluster_time_micros == time && location_id@
            == before.config.storage.local_location_id@ && advertise_addr@
            == before.config.server.advertise_addr@),
        RouteView::Nodes => after == s && (a matches Answer::Nodes(v) && seqs::views(v@)
            == known_nodes(s)),
        RouteView::Join { id, addr } => {
            &&& after == (if id.len() == 0 || addr.len() == 0 {
                s
            } else {
                s.with_peer(id, addr, now_ms)
            })
            &&& says(a, 200, "ok"@)
        },
        RouteView::Facts { after: seq } => after == s && (a matches Answer::Facts(v)
            && seqs::views(v@) == seqs::at_most(
            s.log.filter(rows::behind(seq)),
            FACT_SYNC_BATCH as int,
        )),
        RouteView::ForceGc => match wall_ms {
            Some(wall) => after == s.swept(wall, grace, true) && (a matches Answer::Swept(v)
                && seqs::views(v@) == s.reap_list(wall, grace, true)),
            None => after == s && says(a, 500, "sweep failed"@),
        },
        RouteView::Block { hash } => after == s && (a matches Answer::Block { hash: h } && h@
            == hash),
        RouteView::BadHash => after == s && says(a, 400, "Invalid hash"@),
        RouteView::ShortHash => after == s && says(a, 400, "Hash must be 32 bytes"@),
        RouteView::NotFound => after == s && says(a, 404, "Not found"@),
    }
}

fn answer_text(status: u16, body: &str) -> (r: Answer)
    ensures
        says(r, status as int, body@),
{
    Answer::Text { status, body: body.to_string() }
}

impl StorageBackend {
    /// Answers an internal request at the given times.
    pub fn answer_at(&mut self, route: Route, time: i64, now_ms: i64, wall_ms: Option<i64>) -> (r:
        Answer)
        ensures
            final(self).config == old(self).config,
            final(self).disk_guard == old(self).disk_guard,
            final(self).db.clock == old(self).db.clock,
            answered(*old(self), final(self).db@, route@, time, now_ms, wall_ms, r),
    {
        match route {
            Route::Unauthorized => answer_text(401, "Unauthorized"),
            Route::ClusterConfig => Answer::ClusterConfig {
                cluster_time_micros: time,
                location_id: self.config.storage.local_location_id.clone(),
                advertise_addr: self.config.server.advertise_addr.clone(),
            },
            Route::Nodes => Answer::Nodes(self.db.all_nodes()),
            Route::Join { id, addr } => {
                proof {
                    reveal_strlit("");
                    assert(id@.len() == 0 ==> id@ =~= ""@);
                    assert(addr@.len() == 0 ==> addr@ =~= ""@);
                }
                if !text::same_text(id.as_str(), "") && !text::same_text(addr.as_str(), "") {
                    self.db.record_peer_at(id.as_str(), addr.as_str(), now_ms);
                }
                answer_text(200, "ok")
            },
            Route::Facts { after } => Answer::Facts(self.db.facts_since(after, FACT_SYNC_BATCH)),
            Route::ForceGc => match wall_ms {
                Some(wall) => Answer::Swept(self.sweep_orphaned_blocks_at(wall, true)),
                None => answer_text(500, "sweep failed"),
            },
            Route::Block { hash } => Answer::Block { hash },
            Route::BadHash => answer_text(400, "Invalid hash"),
            Route::ShortHash => answer_text(400, "Hash must be 32 bytes"),
            Route::NotFound => answer_text(404, "Not found"),
        }
    }

    /// Answers an internal request.
    pub fn handle_internal_request(
        &mut self,
        provided: Option<&str>,
        path: &str,
        query: Option<&str>,
    ) -> (r: Answer)
        requires
            routable(
                opt(provided),
                old(self).config.server.cluster_secret@,
                path@,
                opt(query),
            ),
        ensures
            final(self).config == old(self).config,
            final(self).disk_guard == old(self).disk_guard,
            final(self).db.clock == old(self).db.clock,
            exists|c: SystemTime, t: SystemTime, w: SystemTime|
                answered(
                    *old(self),
                    final(self).db@,
                    route_of(
                        opt(provided),
                        old(self).config.server.cluster_secret@,
                        path@,
                        opt(query),
                    ),
                    #[trigger] old(self).db.clock.micros(c),
                    #[trigger] old(self).db.clock.millis(t),
                    #[trigger] clock::wall_at(w),
                    r,
                ),
            says(r, 401, "Unauthorized"@) == (opt(provided) != Some(
                old(self).config.server.cluster_secret@,
            )),
            opt(provided) != Some(old(self).config.server.cluster_secret@) ==> final(self).db@
                == old(self).db@,
    {
        let asked = route(provided, self.config.server.cluster_secret.as_str(), path, query);
        let time: i64 = self.db.clock.now_micros();
        let now: i64 = self.db.clock.now_millis();
        let wall: Option<i64> = maintenance::wall_millis();
        self.answer_at(asked, time, now, wall)
    }
}

/// Without the cluster secret a request changes nothing and learns nothing but that.
pub proof fn lemma_secret_required(
    before: StorageBackend,
    after: StoreView,
    provided: Option<Seq<char>>,
    secret: Seq<char>,
    path: Seq<char>,
    query: Option<Seq<char>>,
    time: i64,
    now_ms: i64,
    wall_ms: Option<i64>,
    a: Answer,
)
    requires
        provided != Some(secret),
        answered(
            before,
            after,
            route_of(provided, secret, path, query),
            time,
            now_ms,
            wall_ms,
            a,
        ),
    ensures
        after == before.db@,
        says(a, 401, "Unauthorized"@),
{
}

} // verus!
