//! Setting up a site: its secrets, its configuration, its manifests, its status.

use rand::RngCore;
use vstd::prelude::*;

use crate::buffers;
use crate::codec;
use crate::config::{BlockBackend, Config};
use crate::disk;
use crate::disk::DiskGuard;
use crate::facts::StoreStats;
use crate::store::Store;
use crate::text;

verus! {

// ── secrets ──────────────────────────────────────────────────────────────────

/// `RngCore::fill_bytes` of the thread's generator: fills the buffer with random bytes. Which
/// ones is left to chance.
#[verifier::external_body]
fn fill_random(buf: &mut Vec<u8>)
    ensures
        final(buf)@.len() == old(buf)@.len(),
{
    rand::thread_rng().fill_bytes(buf)
}

/// Random hex string of `n_bytes` bytes.
pub fn random_hex(n_bytes: usize) -> (r: String)
    ensures
        exists|bytes: Seq<u8>|
            bytes.len() == n_bytes && r@ == #[trigger] codec::hex_text(bytes),
{
    let mut buf = buffers::zeros(n_bytes);
    fill_random(&mut buf);
    codec::hex_encode(buf.as_slice())
}

// ── configuration ────────────────────────────────────────────────────────────

/// Site-shape flags shared by `init` and `join`.
pub struct SiteArgs {
    /// Unique id for this site (e.g. "home", "office").
    pub location_id: String,
    /// S3 API bind address.
    pub s3_addr: String,
    /// Internal (Noise) bind address for cluster traffic.
    pub internal_addr: String,
    /// Address peers use to reach this node's internal port.
    pub advertise: String,
    /// Directory for this site's metadata DB and block storage.
    pub data_dir: String,
}

/// The path of an entry of a directory.
pub open spec fn path_in(dir: Seq<char>, name: Seq<char>) -> Seq<char> {
    if dir.len() == 0 || dir.last() == '/' {
        dir + name
    } else {
        dir + "/"@ + name
    }
}

fn join_path(dir: &str, name: &str) -> (r: String)
    ensures
        r@ == path_in(dir@, name@),
{
    let v = text::chars_of(dir);
    if v.len() == 0 || v[v.len() - 1] == '/' {
        text::join2(dir, name)
    } else {
        text::join3(dir, "/", name)
    }
}

/// `c` is the configuration of a new site.
pub open spec fn is_config_of(
    c: Config,
    args: SiteArgs,
    secret: Seq<char>,
    private_key: Seq<char>,
) -> bool {
    &&& c.server.log_format@ == "text"@
    &&& c.server.s3_bind_addr@ == args.s3_addr@
    &&& c.server.internal_bind_addr@ == args.internal_addr@
    &&& c.server.advertise_addr@ == args.advertise@
    &&& c.server.cluster_secret@ == secret
    &&& c.server.clock_offset_ms == 0
    &&& c.server.noise_private_key@ == private_key
    &&& c.database.db_path@ == path_in(args.data_dir@, "shardscape.db"@)
    &&& c.storage.local_location_id@ == args.location_id@
    &&& c.storage.backend matches BlockBackend::Local { path } && path@ == path_in(
        args.data_dir@,
        "blocks"@,
    )
    &&& c.storage.min_free_bytes matches Some(s) && s@ == "10Gi"@
    &&& c.storage.max_bytes is None
    &&& c.storage.chunking == (crate::config::ChunkingConfig::Fixed {
        max_block_size: 10_485_760,
    })
    &&& c.storage.gc_grace_period_seconds == 300
    &&& c.storage.gc_interval_seconds == 60
}

/// Builds a site config from `site` flags, a cluster secret and a Noise private key. What the
/// flags do not say is as in the default configuration.
pub fn build_site_config(site: &SiteArgs, cluster_secret: &str, noise_private_key: &str) -> (r:
    Config)
    ensures
        is_config_of(r, *site, cluster_secret@, noise_private_key@),
{
    let mut config = Config::default();
    config.server.s3_bind_addr = site.s3_addr.clone();
    config.server.internal_bind_addr = site.internal_addr.clone();
    config.server.advertise_addr = site.advertise.clone();
    config.server.cluster_secret = cluster_secret.to_string();
    config.server.noise_private_key = noise_private_key.to_string();
    config.server.clock_offset_ms = 0;
    config.database.db_path = join_path(site.data_dir.as_str(), "shardscape.db");
    config.storage.local_location_id = site.location_id.clone();
    config.storage.backend = BlockBackend::Local {
        path: join_path(site.data_dir.as_str(), "blocks"),
    };
    config
}

// ── starting a node ──────────────────────────────────────────────────────────

/// A configuration under another cluster secret, where one is given.
pub open spec fn under_secret(config: Config, secret: Option<String>) -> Config {
    match secret {
        Some(s) => Config {
            server: crate::config::ServerConfig { cluster_secret: s, ..config.server },
            ..config
        },
        None => config,
    }
}

/// The configuration that a node starts with: the one that was loaded, or else the default,
/// under the cluster secret that was given on the command line. Says whether it lacks a Noise
/// key, which is generated on first boot.
pub fn startup_config(loaded: Option<Config>, secret: Option<String>) -> (r: (Config, bool))
    ensures
        match loaded {
            Some(c) => r.0 == under_secret(c, secret),
            None => exists|c: Config|
                #![trigger c.is_default()]
                c.is_default() && r.0 == under_secret(c, secret),
        },
        r.1 == (r.0.server.noise_private_key@.len() == 0),
{
    let mut config = match loaded {
        Some(config) => config,
        None => Config::default(),
    };
    let ghost base = config;
    assert(loaded is None ==> base.is_default());
    if let Some(secret) = secret {
        config.server.cluster_secret = secret;
    }
    let keyless = text::chars_of(config.server.noise_private_key.as_str()).len() == 0;
    (config, keyless)
}

// ── manifests ────────────────────────────────────────────────────────────────

/// What follows the last `:` of an address; all of it where there is none.
pub open spec fn port_of(addr: Seq<char>) -> Seq<char>
    decreases addr.len(),
{
    if addr.len() == 0 || addr.last() == ':' {
        seq![]
    } else {
        port_of(addr.drop_last()).push(addr.last())
    }
}

fn port(addr: &str) -> (r: String)
    ensures
        r@ == port_of(addr@),
{
    let v = text::chars_of(addr);
    let n: usize = v.len();
    let mut i: usize = n;
    assert(v@.take(n as int) =~= addr@);
    assert(port_of(v@.take(n as int)) =~= port_of(v@.take(i as int)) + v@.subrange(
        i as int,
        n as int,
    ));
    while i > 0 && v[i - 1] != ':'
        invariant
            i <= n,
            n == v@.len(),
            v@.take(n as int) == addr@,
            addr@ == v@,
            (i == 0 || v@[i - 1] == ':') ==> port_of(v@.take(i as int)) == Seq::<char>::empty(),
            port_of(addr@) == port_of(v@.take(i as int)) + v@.subrange(i as int, n as int),
        decreases i,
    {
        proof {
            let a = v@.take(i as int);
            assert(a.drop_last() =~= v@.take(i - 1));
            assert(a.last() == v@[i - 1]);
            assert(port_of(v@.take(i - 1)).push(v@[i - 1]) + v@.subrange(i as int, n as int)
                =~= port_of(v@.take(i - 1)) + v@.subrange(i - 1, n as int));
        }
        i -= 1;
    }
    proof {
        assert(port_of(v@.take(i as int)) =~= Seq::<char>::empty());
        assert(port_of(addr@) =~= v@.subrange(i as int, n as int));
    }
    text::text_of(v.as_slice(), i, n)
}

pub const NAMESPACE_1: &'static str = "# Rendered by `shardscape render-k8s` for site '";

pub const NAMESPACE_2: &'static str = "'. Do not hand-edit;
# re-render from config.toml instead.
apiVersion: v1
kind: Namespace
metadata:
  name: shardscape
---
";

/// The namespace of all nodes.
pub open spec fn namespace_text(site: Seq<char>) -> Seq<char> {
    NAMESPACE_1@
        + site
        + NAMESPACE_2@
}

fn render_namespace(site: &str) -> (r: String)
    ensures
        r@ == namespace_text(site@),
{
    let mut out = NAMESPACE_1.to_string();
    text::push_text(&mut out, site);
    text::push_text(&mut out, NAMESPACE_2);
    out
}

pub const VOLUME_CLAIM_1: &'static str = "apiVersion: v1
kind: PersistentVolumeClaim
metadata:
  name: shardscape-data-";

pub const VOLUME_CLAIM_2: &'static str = "
  namespace: shardscape
spec:
  accessModes: [\"ReadWriteOnce\"]
  resources:
    requests:
      storage: 50Gi
---
";

/// The volume that a node keeps its data on.
pub open spec fn volume_claim_text(site: Seq<char>) -> Seq<char> {
    VOLUME_CLAIM_1@
        + site
        + VOLUME_CLAIM_2@
}

fn render_volume_claim(site: &str) -> (r: String)
    ensures
        r@ == volume_claim_text(site@),
{
    let mut out = VOLUME_CLAIM_1.to_string();
    text::push_text(&mut out, site);
    text::push_text(&mut out, VOLUME_CLAIM_2);
    out
}

pub const DEPLOYMENT_1: &'static str = "apiVersion: apps/v1
kind: Deployment
metadata:
  name: shardscape-";

pub const DEPLOYMENT_2: &'static str = "
  namespace: shardscape
spec:
  replicas: 1
  selector:
    matchLabels: { app: shardscape, site: ";

pub const DEPLOYMENT_3: &'static str = " }
  template:
    metadata:
      labels: { app: shardscape, site: ";

pub const DEPLOYMENT_4: &'static str = " }
    spec:
      initContainers:
        # Idempotently initialise this site on first boot. The generated admin +
        # cluster secrets appear in this container's logs; capture them to add
        # more sites (`shardscape join`). Re-runs are a no-op once config exists.
        - name: init
          image: shardscape:latest
          command: [\"/bin/sh\", \"-c\"]
          args:
            - >-
              test -f /data/config.toml ||
              /usr/local/bin/shardscape init --config /data/config.toml --data-dir /data
              --location-id ";

pub const DEPLOYMENT_5: &'static str = " --s3-addr 0.0.0.0:";

pub const DEPLOYMENT_6: &'static str = "
              --internal-addr 0.0.0.0:";

pub const DEPLOYMENT_7: &'static str = "
              --advertise http://shardscape-";

pub const DEPLOYMENT_8: &'static str = ".shardscape.svc.cluster.local:";

pub const DEPLOYMENT_9: &'static str = "
          volumeMounts:
            - { name: data, mountPath: /data }
      containers:
        - name: shardscape
          image: shardscape:latest
          args: [\"serve\", \"--config\", \"/data/config.toml\"]
          ports:
            - { containerPort: ";

pub const DEPLOYMENT_10: &'static str = ", name: s3 }
            - { containerPort: ";

pub const DEPLOYMENT_11: &'static str = ", name: internal }
          volumeMounts:
            - { name: data, mountPath: /data }
          readinessProbe:
            tcpSocket: { port: s3 }
            initialDelaySeconds: 2
      volumes:
        - name: data
          persistentVolumeClaim:
            claimName: shardscape-data-";

pub const DEPLOYMENT_12: &'static str = "
---
";

/// The node itself, initialised on its first boot.
pub open spec fn deployment_text(site: Seq<char>, s3_port: Seq<char>, internal_port: Seq<char>) -> Seq<char> {
    DEPLOYMENT_1@
        + site
        + DEPLOYMENT_2@
        + site
        + DEPLOYMENT_3@
        + site
        + DEPLOYMENT_4@
        + site
        + DEPLOYMENT_5@
        + s3_port
        + DEPLOYMENT_6@
        + internal_port
        + DEPLOYMENT_7@
        + site
        + DEPLOYMENT_8@
        + internal_port
        + DEPLOYMENT_9@
        + s3_port
        + DEPLOYMENT_10@
        + internal_port
        + DEPLOYMENT_11@
        + site
        + DEPLOYMENT_12@
}

fn render_deployment(site: &str, s3_port: &str, internal_port: &str) -> (r: String)
    ensures
        r@ == deployment_text(site@, s3_port@, internal_port@),
{
    let mut out = DEPLOYMENT_1.to_string();
    text::push_text(&mut out, site);
    text::push_text(&mut out, DEPLOYMENT_2);
    text::push_text(&mut out, site);
    text::push_text(&mut out, DEPLOYMENT_3);
    text::push_text(&mut out, site);
    text::push_text(&mut out, DEPLOYMENT_4);
    text::push_text(&mut out, site);
    text::push_text(&mut out, DEPLOYMENT_5);
    text::push_text(&mut out, s3_port);
    text::push_text(&mut out, DEPLOYMENT_6);
    text::push_text(&mut out, internal_port);
    text::push_text(&mut out, DEPLOYMENT_7);
    text::push_text(&mut out, site);
    text::push_text(&mut out, DEPLOYMENT_8);
    text::push_text(&mut out, internal_port);
    text::push_text(&mut out, DEPLOYMENT_9);
    text::push_text(&mut out, s3_port);
    text::push_text(&mut out, DEPLOYMENT_10);
    text::push_text(&mut out, internal_port);
    text::push_text(&mut out, DEPLOYMENT_11);
    text::push_text(&mut out, site);
    text::push_text(&mut out, DEPLOYMENT_12);
    out
}

pub const SERVICE_1: &'static str = "apiVersion: v1
kind: Service
metadata:
  name: shardscape-";

pub const SERVICE_2: &'static str = "
  namespace: shardscape
spec:
  selector: { app: shardscape, site: ";

pub const SERVICE_3: &'static str = " }
  ports:
    - { name: s3, port: ";

pub const SERVICE_4: &'static str = ", targetPort: s3 }
    - { name: internal, port: ";

pub const SERVICE_5: &'static str = ", targetPort: internal }
";

/// The ports that the cluster reaches the node at.
pub open spec fn service_text(site: Seq<char>, s3_port: Seq<char>, internal_port: Seq<char>) -> Seq<char> {
    SERVICE_1@
        + site
        + SERVICE_2@
        + site
        + SERVICE_3@
        + s3_port
        + SERVICE_4@
        + internal_port
        + SERVICE_5@
}

fn render_service(site: &str, s3_port: &str, internal_port: &str) -> (r: String)
    ensures
        r@ == service_text(site@, s3_port@, internal_port@),
{
    let mut out = SERVICE_1.to_string();
    text::push_text(&mut out, site);
    text::push_text(&mut out, SERVICE_2);
    text::push_text(&mut out, site);
    text::push_text(&mut out, SERVICE_3);
    text::push_text(&mut out, s3_port);
    text::push_text(&mut out, SERVICE_4);
    text::push_text(&mut out, internal_port);
    text::push_text(&mut out, SERVICE_5);
    out
}

/// The manifests of a site.
pub open spec fn manifests_text(
    site: Seq<char>,
    s3_port: Seq<char>,
    internal_port: Seq<char>,
) -> Seq<char> {
    namespace_text(site) + volume_claim_text(site) + deployment_text(site, s3_port, internal_port)
        + service_text(site, s3_port, internal_port)
}

/// Manifests are an output of config, never a hand-edited input.
pub fn render_k8s_manifests(config: &Config) -> (r: String)
    ensures
        ({
            let site = config.storage.local_location_id@;
            let s3_port = port_of(config.server.s3_bind_addr@);
            let internal_port = port_of(config.server.internal_bind_addr@);
            r@ == manifests_text(site, s3_port, internal_port)
        }),
{
    let site = config.storage.local_location_id.as_str();
    let s3_port = port(config.server.s3_bind_addr.as_str());
    let internal_port = port(config.server.internal_bind_addr.as_str());
    let (a, b) = (s3_port.as_str(), internal_port.as_str());
    let first = render_namespace(site);
    let second = render_volume_claim(site);
    let third = render_deployment(site, a, b);
    let fourth = render_service(site, a, b);
    text::join4(first.as_str(), second.as_str(), third.as_str(), fourth.as_str())
}

// ── status ───────────────────────────────────────────────────────────────────

/// `s` with spaces behind it up to a width.
pub open spec fn padded(s: Seq<char>, width: nat) -> Seq<char>
    decreases width - s.len(),
{
    if s.len() >= width {
        s
    } else {
        padded(s.push(' '), width)
    }
}

/// What the status says of a peer.
pub open spec fn peer_line(id: Seq<char>, url: Seq<char>, cursor: i64) -> Seq<char> {
    "    - "@ + padded(id, 14) + " "@ + url + "  (synced through fact #"@ + text::signed_text(
        cursor as int,
    ) + ")\n"@
}

/// What the status says of the peers.
pub open spec fn peer_lines(s: crate::store::StoreView, peers: Seq<(Seq<char>, Seq<char>)>) -> Seq<
    char,
>
    decreases peers.len(),
{
    if peers.len() == 0 {
        seq![]
    } else {
        peer_lines(s, peers.drop_last()) + peer_line(
            peers.last().0,
            peers.last().1,
            s.cursor(peers.last().0),
        )
    }
}

/// What the status says of the disk.
pub open spec fn disk_line(g: DiskGuard) -> Seq<char> {
    if g.min_free_bytes > 0 {
        "  disk free:          "@ + disk::bytes_text(g.free as nat) + " (guard: "@
            + g.state_text() + ")\n"@
    } else {
        "  disk guard:         "@ + g.state_text() + "\n"@
    }
}

/// One line with a number.
pub open spec fn count_line(label: Seq<char>, n: u64) -> Seq<char> {
    label + text::decimal_text(n as nat) + "\n"@
}

/// What the status says of the store.
pub open spec fn store_lines(config: Config, t: StoreStats) -> Seq<char> {
    "Shardscape site '"@ + config.storage.local_location_id@ + "'\n  S3 endpoint:        http://"@
        + config.server.s3_bind_addr@ + "\n"@ + count_line(
        "  live objects:       "@,
        t.live_objects,
    ) + "  local blocks:       "@ + text::decimal_text(t.local_blocks as nat) + " ("@
        + disk::bytes_text((t.local_block_bytes as u64) as nat) + ")\n"@ + count_line(
        "  blocks to pull:     "@,
        t.pending_pulls,
    ) + count_line("  pending GC:         "@, t.pending_deletions) + count_line(
        "  fact-log length:    "@,
        t.fact_count,
    )
}

fn pad(s: &str, width: usize) -> (r: String)
    ensures
        r@ == padded(s@, width as nat),
{
    let v = text::chars_of(s);
    let mut n: usize = v.len();
    let mut out = s.to_string();
    while n < width
        invariant
            n == out@.len(),
            padded(out@, width as nat) == padded(s@, width as nat),
        decreases width - n,
    {
        out.push(' ');
        n += 1;
    }
    out
}

fn count_text(label: &str, n: u64) -> (r: String)
    ensures
        r@ == count_line(label@, n),
{
    let number = text::decimal(n);
    text::join3(label, number.as_str(), "\n")
}

fn store_text(config: &Config, t: &StoreStats) -> (r: String)
    ensures
        r@ == store_lines(*config, *t),
{
    let mut out = text::join4(
        "Shardscape site '",
        config.storage.local_location_id.as_str(),
        "'\n  S3 endpoint:        http://",
        config.server.s3_bind_addr.as_str(),
    );
    text::push_text(&mut out, "\n");
    text::push_text(&mut out, count_text("  live objects:       ", t.live_objects).as_str());
    text::push_text(&mut out, "  local blocks:       ");
    text::push_decimal(&mut out, t.local_blocks);
    text::push_text(&mut out, " (");
    text::push_text(&mut out, disk::format_bytes(t.local_block_bytes as u64).as_str());
    text::push_text(&mut out, ")\n");
    text::push_text(&mut out, count_text("  blocks to pull:     ", t.pending_pulls).as_str());
    text::push_text(&mut out, count_text("  pending GC:         ", t.pending_deletions).as_str());
    text::push_text(&mut out, count_text("  fact-log length:    ", t.fact_count).as_str());
    out
}

fn peer_text(id: &str, url: &str, cursor: i64) -> (r: String)
    ensures
        r@ == peer_line(id@, url@, cursor),
{
    let name = pad(id, 14);
    let mut out = text::join4("    - ", name.as_str(), " ", url);
    text::push_text(&mut out, "  (synced through fact #");
    text::push_text(&mut out, text::signed_decimal(cursor).as_str());
    text::push_text(&mut out, ")\n");
    out
}

fn disk_text(g: &DiskGuard) -> (r: String)
    ensures
        r@ == disk_line(*g),
{
    let state = g.state();
    if g.free_space_enabled() {
        let free = disk::format_bytes(g.free_bytes());
        let mut out = text::join4(
            "  disk free:          ",
            free.as_str(),
            " (guard: ",
            state.as_str(),
        );
        text::push_text(&mut out, ")\n");
        out
    } else {
        text::join3("  disk guard:         ", state.as_str(), "\n")
    }
}

/// The status of a node: cluster, replication, and GC health. `guard` has its readings.
pub fn status_text(db: &Store, config: &Config, stats: &StoreStats, guard: &DiskGuard) -> (r:
    String)
    ensures
        ({
            let peers = crate::replication::peers_of(db@.nodes, db@.site);
            r@ == store_lines(*config, *stats) + disk_line(*guard) + count_line(
                "  peers:              "@,
                peers.len() as u64,
            ) + peer_lines(db@, peers)
        }),
{
    let peers = db.get_peers();
    let mut out = store_text(config, stats);
    text::push_text(&mut out, disk_text(guard).as_str());
    text::push_text(
        &mut out,
        count_text("  peers:              ", peers.len() as u64).as_str(),
    );
    let ghost all = crate::seqs::views(peers@);
    let ghost head = out@;
    let mut i: usize = 0;
    assert(out@ =~= head + peer_lines(db@, all.take(0)));
    while i < peers.len()
        invariant
            i <= peers@.len(),
            all == crate::seqs::views(peers@),
            out@ == head + peer_lines(db@, all.take(i as int)),
        decreases peers@.len() - i,
    {
        let cursor: i64 = db.get_cursor(peers[i].0.as_str());
        let line = peer_text(peers[i].0.as_str(), peers[i].1.as_str(), cursor);
        let ghost was = out@;
        text::push_text(&mut out, line.as_str());
        proof {
            assert(all.take(i + 1).drop_last() =~= all.take(i as int));
            assert(all.take(i + 1).last() == peers@[i as int]@);
            assert(out@ =~= head + peer_lines(db@, all.take(i + 1)));
        }
        i += 1;
    }
    assert(all.take(all.len() as int) =~= all);
    out
}

} // verus!
